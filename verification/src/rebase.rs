//! Module for the rebase types
//!
//! This module contains types for the `AsyncDag::rebase()` building of rebase functionality.
use vstd::prelude::*;

use crate::async_dag::AsyncDag;
use crate::dag_backend::DagBackend;
use crate::error::Error;
use crate::async_dag::{
    first_failure, item_ids, lemma_first_failure_none, lemma_trace_failure_backend,
    lemma_trace_reach_part, lemma_trace_walk, walk_trace,
};
use crate::graph::{acyclic, lemma_covered_start, pops_past_absent, reach_part, walk_of};
use crate::node::Node;
use crate::node_id::{clone_id, id_laws, NodeId};

verus! {

/// A rebase of the DAG it borrows, to be given its base with `onto`.
#[verifier::reject_recursive_types(Id)]
#[verifier::reject_recursive_types(N)]
#[verifier::reject_recursive_types(Backend)]
pub struct Rebase<'a, Id, N, Backend>(pub &'a mut AsyncDag<Id, N, Backend>) where
    Id: NodeId + Send,
    N: Node<Id = Id>,
    Backend: DagBackend<Id, N>,
;

impl<'a, Id, N, Backend> Rebase<'a, Id, N, Backend> where
    Id: NodeId + Send,
    N: Node<Id = Id>,
    Backend: DagBackend<Id, N>,
 {
    /// Rebase onto the node identified by `id`: the nodes between HEAD and that node are to be
    /// rewritten on top of it.
    pub fn onto(self, id: Id) -> (r: RebaseOnto<'a, Id, N, Backend, IdEqualSelector<Id>>)
        requires
            id_laws::<Id>(),
        ensures
            *r.0 == *old(self.0),
            *final(r.0) == *final(self.0),
            r.1 == id,
            r.2.selected_id() == id,
    {
        RebaseOnto(self.0, clone_id(&id), IdEqualSelector(id))
    }
}

/// Turns a chosen rebase target into a `RebaseNodeRewriter` that uses a given node rewriter.
pub trait RebaseNodeRewriterCreator<'a, Id, N, Backend, Selector> where
    Id: NodeId + Send,
    N: Node<Id = Id>,
    Backend: DagBackend<Id, N>,
    Selector: IdSelector<Id>,
 {
    /// The rebase, ready to run with `rewriter`.
    fn doing<Rewriter>(self, rewriter: Rewriter) -> RebaseNodeRewriter<
        'a,
        Id,
        N,
        Backend,
        Selector,
        Rewriter,
    > where Rewriter: NodeRewriter<Id, N, Backend::Error>;
}

/// A rebase of a DAG onto the base identifier (the second field), which ends where the selector
/// (the third field) selects an identifier of the walk from HEAD.
#[verifier::reject_recursive_types(Id)]
#[verifier::reject_recursive_types(N)]
#[verifier::reject_recursive_types(Backend)]
pub struct RebaseOnto<'a, Id, N, Backend, Selector>(
    pub &'a mut AsyncDag<Id, N, Backend>,
    pub Id,
    pub Selector,
) where
    Id: NodeId + Send,
    N: Node<Id = Id>,
    Backend: DagBackend<Id, N>,
    Selector: IdSelector<Id>,
;

impl<'a, Id, N, Backend, Selector> RebaseNodeRewriterCreator<
    'a,
    Id,
    N,
    Backend,
    Selector,
> for RebaseOnto<'a, Id, N, Backend, Selector> where
    Id: NodeId + Send,
    N: Node<Id = Id>,
    Backend: DagBackend<Id, N>,
    Selector: IdSelector<Id>,
 {
    fn doing<Rewriter>(self, rewriter: Rewriter) -> (r: RebaseNodeRewriter<
        'a,
        Id,
        N,
        Backend,
        Selector,
        Rewriter,
    >) where Rewriter: NodeRewriter<Id, N, Backend::Error>
        ensures
            *r.dag == *old(self.0),
            *final(r.dag) == *final(self.0),
            r.base == self.1,
            r.selector == self.2,
            r.rewriter == rewriter,
    {
        RebaseNodeRewriter { dag: self.0, base: self.1, selector: self.2, rewriter }
    }
}

/// Picks out identifiers of nodes; `selects` is the predicate that `select` computes.
pub trait IdSelector<Id: NodeId> {
    /// A verified implementation defines it. The default is there for implementations written
    /// outside Verus, which cannot define a spec function; it is closed, so nothing is known of it
    /// outside this module, and nothing is proved of such an implementation.
    closed spec fn selects(&self, id: Id) -> bool {
        false
    }

    fn select(&self, id: &Id) -> (r: bool)
        requires
            id_laws::<Id>(),
        ensures
            r == self.selects(*id),
    ;
}

/// Selects exactly the identifier it holds.
pub struct IdEqualSelector<Id: NodeId>(Id);

impl<Id: NodeId> IdEqualSelector<Id> {
    /// The identifier that is selected.
    pub closed spec fn selected_id(&self) -> Id {
        self.0
    }
}

impl<Id: NodeId> IdSelector<Id> for IdEqualSelector<Id> {
    open spec fn selects(&self, id: Id) -> bool {
        self.selected_id() == id
    }

    fn select(&self, id: &Id) -> (r: bool) {
        self.0 == *id
    }
}

/// Rewrites a node of a rebase, given the identifier that the node rewritten before it got (the
/// base for the first one), the node's own identifier and the node.
pub trait NodeRewriter<Id: NodeId, N: Node<Id = Id>, E>: Sized {
    /// What holds of a call of `rewrite_node` that turned the rewriter from `before` into `after`.
    ///
    /// A verified implementation defines it. The default is there for implementations written
    /// outside Verus, which cannot define a spec function; it is closed, so nothing is known of it
    /// outside this module, and nothing is proved of such an implementation.
    closed spec fn rewrites(
        before: Self,
        after: Self,
        previous_id: Id,
        id: Id,
        node: N,
        result: Result<N, E>,
    ) -> bool {
        true
    }

    fn rewrite_node(&mut self, previous_id: Id, id: Id, node: N) -> (result: Result<N, E>)
        ensures
            Self::rewrites(*old(self), *final(self), previous_id, id, node, result),
    ;
}

/// The identifiers of `ids` that come before the first one `selector` selects.
pub open spec fn unselected_prefix<Id: NodeId, S: IdSelector<Id>>(selector: S, ids: Seq<Id>) -> Seq<
    Id,
>
    decreases ids.len(),
{
    if ids.len() == 0 || selector.selects(ids[0]) {
        Seq::empty()
    } else {
        seq![ids[0]] + unselected_prefix(selector, ids.drop_first())
    }
}

/// `nodes` with each key of `keys` set, in turn, to the value at the same place in `values`.
pub open spec fn insert_each<K, V>(nodes: Map<K, V>, keys: Seq<K>, values: Seq<V>) -> Map<K, V>
    decreases keys.len(),
{
    if keys.len() == 0 {
        nodes
    } else {
        insert_each(nodes, keys.drop_last(), values.take(keys.len() - 1)).insert(
            keys.last(),
            values[keys.len() - 1],
        )
    }
}

/// A replay of the nodes `order` of `g` on top of `base`: the rewriter went through the states
/// `rewriters`, and the call for `order[j]` got the identifier put before it (`base` for the first)
/// and the stored node, and returned `rewritten[j]`, which was put under `put_ids[j]`.
pub open spec fn replays<Id: NodeId, N: Node<Id = Id>, E, R: NodeRewriter<Id, N, E>>(
    g: Map<Id, N>,
    order: Seq<Id>,
    base: Id,
    rewriters: Seq<R>,
    rewritten: Seq<N>,
    put_ids: Seq<Id>,
) -> bool {
    &&& rewriters.len() == order.len() + 1
    &&& rewritten.len() == order.len()
    &&& put_ids.len() == order.len()
    &&& forall|j: int|
        #![trigger rewritten[j]]
        0 <= j < order.len() ==> R::rewrites(
            rewriters[j],
            rewriters[j + 1],
            if j == 0 {
                base
            } else {
                put_ids[j - 1]
            },
            order[j],
            g[order[j]],
            Ok(rewritten[j]),
        )
}

/// A rebase of `before` that ended with `after` and returned `id`: the nodes of the walk from the
/// HEAD of `before` that come before the first selected one were replayed, oldest first, on top of
/// `base`, starting with the rewriter `rewriter` (see `replays`); each rewritten node was put, and
/// the last one is the HEAD of `after` and `id`. When there was nothing to replay, `after` is
/// `before` and `id` is `base`.
pub open spec fn rebase_outcome<
    Id: NodeId + Send,
    N: Node<Id = Id>,
    B: DagBackend<Id, N>,
    S: IdSelector<Id>,
    R: NodeRewriter<Id, N, B::Error>,
>(
    before: AsyncDag<Id, N, B>,
    after: AsyncDag<Id, N, B>,
    selector: S,
    base: Id,
    rewriter: R,
    id: Id,
    rewriters: Seq<R>,
    rewritten: Seq<N>,
    put_ids: Seq<Id>,
) -> bool {
    let g = before.nodes();
    let part = reach_part(g, seq![before.head_id()]);
    let order = unselected_prefix(selector, walk_of(part, seq![before.head_id()])).reverse();
    &&& replays(part, order, base, rewriters, rewritten, put_ids)
    &&& rewriters[0] == rewriter
    &&& after.nodes() == insert_each(g, put_ids, rewritten)
    &&& if order.len() == 0 {
        id == base && after == before
    } else {
        id == put_ids.last() && after.head_id() == id
    }
}

/// Step `j` of a replay of `items` (newest first, so replayed from the last one) on top of `base`
/// succeeded: its item is a visit, and the rewriter went from `rewriters[j]` to
/// `rewriters[j + 1]` rewriting the visited node, given the identifier put before it (`base` for
/// the first step), into `rewritten[j]`.
pub open spec fn replay_step<Id: NodeId, N: Node<Id = Id>, E, R: NodeRewriter<Id, N, E>>(
    items: Seq<Result<(Id, N), Error<Id, E>>>,
    base: Id,
    rewriters: Seq<R>,
    rewritten: Seq<N>,
    put_ids: Seq<Id>,
    j: int,
) -> bool {
    let item = items[items.len() - 1 - j];
    &&& item is Ok
    &&& R::rewrites(
        rewriters[j],
        rewriters[j + 1],
        if j == 0 {
            base
        } else {
            put_ids[j - 1]
        },
        item->Ok_0.0,
        item->Ok_0.1,
        Ok(rewritten[j]),
    )
}

/// The first `k` steps of a replay of `items` on top of `base` succeeded (`replay_step`), the
/// node rewritten in step `j` being put under `put_ids[j]`.
pub open spec fn replays_items<Id: NodeId, N: Node<Id = Id>, E, R: NodeRewriter<Id, N, E>>(
    items: Seq<Result<(Id, N), Error<Id, E>>>,
    base: Id,
    k: int,
    rewriters: Seq<R>,
    rewritten: Seq<N>,
    put_ids: Seq<Id>,
) -> bool {
    &&& 0 <= k <= items.len()
    &&& rewriters.len() == k + 1
    &&& rewritten.len() == k
    &&& put_ids.len() == k
    &&& forall|j: int|
        0 <= j < k ==> #[trigger] replay_step(items, base, rewriters, rewritten, put_ids, j)
}

/// Rewriting the node of the visit `step` failed: the rewriter, in the state `rewriter`, given
/// `previous_id` and the visit, returned an error; unless there is a failure among the items
/// (`no_failure`), `e` is that error.
pub open spec fn rewrite_failed<Id: NodeId, N: Node<Id = Id>, E, R: NodeRewriter<Id, N, E>>(
    rewriter: R,
    previous_id: Id,
    step: Result<(Id, N), Error<Id, E>>,
    e: Error<Id, E>,
    no_failure: bool,
) -> bool {
    &&& step is Ok
    &&& exists|later: R, failure: E|
        #[trigger] R::rewrites(rewriter, later, previous_id, step->Ok_0.0, step->Ok_0.1, Err(failure))
            && (no_failure ==> e == Error::<Id, E>::Rewrite(failure))
}

/// Rewriting the node of the visit `step` succeeded but putting the rewritten node failed; unless
/// there is a failure among the items (`no_failure`), `e` is a failure of the backend.
pub open spec fn put_failed<Id: NodeId, N: Node<Id = Id>, E, R: NodeRewriter<Id, N, E>>(
    rewriter: R,
    previous_id: Id,
    step: Result<(Id, N), Error<Id, E>>,
    e: Error<Id, E>,
    no_failure: bool,
) -> bool {
    &&& step is Ok
    &&& no_failure ==> e is Backend
    &&& exists|later: R, out: N|
        #[trigger] R::rewrites(rewriter, later, previous_id, step->Ok_0.0, step->Ok_0.1, Ok(out))
}

/// How a replay that succeeded for `k` steps stopped at the next item with the error `e`: the item
/// is a failure, and nothing more was put; or rewriting its node failed, and nothing more was put;
/// or putting the rewritten node failed, and that put may have added nodes but changed none of
/// those stored.
pub open spec fn stopped_at<
    Id: NodeId + Send,
    N: Node<Id = Id>,
    B: DagBackend<Id, N>,
    R: NodeRewriter<Id, N, B::Error>,
>(
    before: AsyncDag<Id, N, B>,
    after: AsyncDag<Id, N, B>,
    items: Seq<Result<(Id, N), Error<Id, B::Error>>>,
    base: Id,
    k: int,
    rewriters: Seq<R>,
    rewritten: Seq<N>,
    put_ids: Seq<Id>,
    e: Error<Id, B::Error>,
) -> bool {
    let previous_id = if k == 0 {
        base
    } else {
        put_ids.last()
    };
    let step = items[items.len() - 1 - k];
    let stored = insert_each(before.nodes(), put_ids, rewritten);
    let kept = after.nodes() == stored && (k == 0 ==> after == before);
    let no_failure = first_failure(items) is None;
    ||| step is Err && kept
    ||| kept && rewrite_failed(rewriters[k], previous_id, step, e, no_failure)
    ||| stored.submap_of(after.nodes()) && put_failed(
        rewriters[k],
        previous_id,
        step,
        e,
        no_failure,
    )
}

/// A replay of `items` (newest first) on top of `base` with `rewriter`, which turned `before` into
/// `after` and returned `result`: the first `k` steps succeeded (`replays_items`), HEAD is the
/// last identifier put (or the old HEAD) and nothing stored was lost. It returned the last
/// identifier put (`base` when there was nothing to replay) when all steps succeeded, with the
/// stored nodes being the old ones with the rewritten ones put; otherwise it stopped at the first
/// step that failed (`stopped_at`) and returned the first failure among `items` if there is one.
pub open spec fn replay_outcome<
    Id: NodeId + Send,
    N: Node<Id = Id>,
    B: DagBackend<Id, N>,
    R: NodeRewriter<Id, N, B::Error>,
>(
    before: AsyncDag<Id, N, B>,
    after: AsyncDag<Id, N, B>,
    items: Seq<Result<(Id, N), Error<Id, B::Error>>>,
    base: Id,
    rewriter: R,
    result: Result<Id, Error<Id, B::Error>>,
    k: int,
    rewriters: Seq<R>,
    rewritten: Seq<N>,
    put_ids: Seq<Id>,
) -> bool {
    &&& replays_items(items, base, k, rewriters, rewritten, put_ids)
    &&& rewriters[0] == rewriter
    &&& after.head_id() == if k == 0 {
        before.head_id()
    } else {
        put_ids.last()
    }
    &&& before.nodes().dom().subset_of(after.nodes().dom())
    &&& match result {
        Ok(id) => {
            &&& k == items.len()
            &&& id == if k == 0 {
                base
            } else {
                put_ids.last()
            }
            &&& after.nodes() == insert_each(before.nodes(), put_ids, rewritten)
            &&& k == 0 ==> after == before
        },
        Err(e) => {
            &&& k < items.len()
            &&& (first_failure(items) matches Some(f) ==> e == f)
            &&& stopped_at(before, after, items, base, k, rewriters, rewritten, put_ids, e)
        },
    }
}

/// Replays the items of a walk (newest first) on top of `base`: from the last item to the first,
/// the node of each visit is rewritten with `rewriter`, given the identifier put before it
/// (`base` for the first), and put as the new HEAD. At the first failure, which is a failed item
/// or a failed rewrite or put, nothing more is rewritten or put; the result is then the first
/// failure among the items if there is one, and otherwise that failure. Without a failure the
/// result is the last identifier put, or `base` when there was nothing to replay.
pub fn replay<Id, N, Backend, Rewriter>(
    dag: &mut AsyncDag<Id, N, Backend>,
    rewriter: Rewriter,
    base: Id,
    items: Vec<Result<(Id, N), Error<Id, Backend::Error>>>,
) -> (r: Result<Id, Error<Id, Backend::Error>>) where
    Id: NodeId + Send,
    N: Node<Id = Id>,
    Backend: DagBackend<Id, N>,
    Rewriter: NodeRewriter<Id, N, Backend::Error>,

    requires
        id_laws::<Id>(),
    ensures
        exists|k: int, rewriters: Seq<Rewriter>, rewritten: Seq<N>, put_ids: Seq<Id>|
            #[trigger] replay_outcome(
                *old(dag),
                *final(dag),
                items@,
                base,
                rewriter,
                r,
                k,
                rewriters,
                rewritten,
                put_ids,
            ),
{
    let ghost start = *dag;
    let ghost all = items@;
    let ghost len = all.len();
    let ghost first_rewriter = rewriter;
    let mut items = items;
    let mut rew = rewriter;
    let ghost base_id = base;
    let mut acc: Result<Id, Error<Id, Backend::Error>> = Ok(base);
    let ghost mut k: int = 0;
    let ghost mut rewriters: Seq<Rewriter> = seq![rew];
    let ghost mut rewritten: Seq<N> = Seq::empty();
    let ghost mut put_ids: Seq<Id> = Seq::empty();
    let ghost mut stopped = false;
    let ghost mut stop_error: Error<Id, Backend::Error> = arbitrary();
    proof {
        assert(all.skip(len as int) =~= Seq::<Result<(Id, N), Error<Id, Backend::Error>>>::empty());
    }
    while items.len() > 0
        invariant
            id_laws::<Id>(),
            items@.len() <= len,
            len == all.len(),
            items@ == all.take(items@.len() as int),
            start.nodes().dom().subset_of(dag.nodes().dom()),
            replays_items(all, base_id, k, rewriters, rewritten, put_ids),
            rewriters[0] == first_rewriter,
            dag.head_id() == if k == 0 {
                start.head_id()
            } else {
                put_ids.last()
            },
            stopped <==> acc is Err,
            !stopped ==> {
                &&& k == len - items@.len()
                &&& acc == Ok::<Id, Error<Id, Backend::Error>>(
                    if k == 0 {
                        base_id
                    } else {
                        put_ids.last()
                    },
                )
                &&& rewriters.last() == rew
                &&& dag.nodes() == insert_each(start.nodes(), put_ids, rewritten)
                &&& k == 0 ==> *dag == start
                &&& first_failure(all.skip(items@.len() as int)) is None
            },
            stopped ==> {
                &&& k < len
                &&& len - 1 - k >= items@.len()
                &&& stopped_at(start, *dag, all, base_id, k, rewriters, rewritten, put_ids, stop_error)
                &&& acc == Err::<Id, Error<Id, Backend::Error>>(
                    if first_failure(all.skip(items@.len() as int)) is Some {
                        first_failure(all.skip(items@.len() as int))->Some_0
                    } else {
                        stop_error
                    },
                )
            },
        decreases items@.len(),
    {
        let ghost n = items@.len() - 1;
        let ghost later_items = all.skip(n + 1);
        let item = items.pop().unwrap();
        proof {
            assert(item == all[n]);
            assert(all.skip(n) =~= seq![item] + later_items);
            assert((seq![item] + later_items)[0] == item);
            assert((seq![item] + later_items).drop_first() =~= later_items);
            assert(items@ =~= all.take(n));
        }
        match item {
            Err(e) => {
                proof {
                    if !stopped {
                        assert(n == len - 1 - k);
                        stopped = true;
                        stop_error = e;
                    }
                }
                acc = Err(e);
            },
            Ok((id, node)) => {
                match acc {
                    Err(e) => {
                        acc = Err(e);
                    },
                    Ok(previous_id) => {
                        let ghost rew_before = rew;
                        let ghost prev = previous_id;
                        let ghost visit_id = id;
                        let ghost visit_node = node;
                        match rew.rewrite_node(previous_id, id, node) {
                            Ok(rewritten_node) => {
                                let ghost out = rewritten_node;
                                let ghost dag_before = *dag;
                                match dag.update_head_unchecked(rewritten_node) {
                                    Ok(put_id) => {
                                        proof {
                                            assert(n == len - 1 - k);
                                            let old_rewriters = rewriters;
                                            let old_rewritten = rewritten;
                                            let old_put_ids = put_ids;
                                            rewriters = rewriters.push(rew);
                                            rewritten = rewritten.push(out);
                                            put_ids = put_ids.push(put_id);
                                            assert forall|j: int|
                                                0 <= j < k + 1 implies #[trigger] replay_step(
                                                all,
                                                base_id,
                                                rewriters,
                                                rewritten,
                                                put_ids,
                                                j,
                                            ) by {
                                                if j < k {
                                                    assert(replay_step(
                                                        all,
                                                        base_id,
                                                        old_rewriters,
                                                        old_rewritten,
                                                        old_put_ids,
                                                        j,
                                                    ));
                                                    assert(rewritten[j] == old_rewritten[j]);
                                                    assert(rewriters[j] == old_rewriters[j]);
                                                    assert(rewriters[j + 1] == old_rewriters[j + 1]);
                                                    if j > 0 {
                                                        assert(put_ids[j - 1] == old_put_ids[j - 1]);
                                                    }
                                                } else {
                                                    assert(rewriters[j] == rew_before);
                                                    assert(rewriters[j + 1] == rew);
                                                    assert(rewritten[j] == out);
                                                    assert(all[len - 1 - j] == Ok::<
                                                        (Id, N),
                                                        Error<Id, Backend::Error>,
                                                    >((visit_id, visit_node)));
                                                    if j > 0 {
                                                        assert(put_ids[j - 1] == old_put_ids[j - 1]);
                                                        assert(prev == old_put_ids.last());
                                                    } else {
                                                        assert(prev == base_id);
                                                    }
                                                }
                                            }
                                            assert(put_ids.drop_last() =~= old_put_ids);
                                            assert(rewritten.take(put_ids.len() - 1) =~= old_rewritten);
                                            assert(rewriters[0] == old_rewriters[0]);
                                            k = k + 1;
                                            assert(replays_items(all, base_id, k, rewriters, rewritten, put_ids));
                                        }
                                        acc = Ok(put_id);
                                    },
                                    Err(e) => {
                                        proof {
                                            assert(n == len - 1 - k);
                                            assert(all[len - 1 - k] == Ok::<
                                                (Id, N),
                                                Error<Id, Backend::Error>,
                                            >((visit_id, visit_node)));
                                            assert(dag_before.nodes() == insert_each(
                                                start.nodes(),
                                                put_ids,
                                                rewritten,
                                            ));
                                            stopped = true;
                                            stop_error = e;
                                            let step = all[all.len() - 1 - k];
                                            let pv = if k == 0 {
                                                base_id
                                            } else {
                                                put_ids.last()
                                            };
                                            assert(Rewriter::rewrites(
                                                rewriters[k],
                                                rew,
                                                pv,
                                                step->Ok_0.0,
                                                step->Ok_0.1,
                                                Ok(out),
                                            ));
                                            assert(put_failed(
                                                rewriters[k],
                                                pv,
                                                step,
                                                stop_error,
                                                first_failure(all) is None,
                                            ));
                                        }
                                        acc = Err(e);
                                    },
                                }
                            },
                            Err(failure) => {
                                proof {
                                    assert(n == len - 1 - k);
                                    assert(all[len - 1 - k] == Ok::<
                                        (Id, N),
                                        Error<Id, Backend::Error>,
                                    >((visit_id, visit_node)));
                                    stopped = true;
                                    stop_error = Error::Rewrite(failure);
                                    let step = all[all.len() - 1 - k];
                                    let pv = if k == 0 {
                                        base_id
                                    } else {
                                        put_ids.last()
                                    };
                                    assert(Rewriter::rewrites(
                                        rewriters[k],
                                        rew,
                                        pv,
                                        step->Ok_0.0,
                                        step->Ok_0.1,
                                        Err(failure),
                                    ));
                                    assert(rewrite_failed(
                                        rewriters[k],
                                        pv,
                                        step,
                                        stop_error,
                                        first_failure(all) is None,
                                    ));
                                }
                                acc = Err(Error::Rewrite(failure));
                            },
                        }
                    },
                }
            },
        }
    }
    proof {
        assert(all.skip(0) =~= all);
        assert(replay_outcome(
            start,
            *dag,
            all,
            base_id,
            first_rewriter,
            acc,
            k,
            rewriters,
            rewritten,
            put_ids,
        ));
    }
    acc
}

#[verifier::reject_recursive_types(Id)]
#[verifier::reject_recursive_types(N)]
#[verifier::reject_recursive_types(Backend)]
pub struct RebaseNodeRewriter<'a, Id, N, Backend, Selector, Rewriter> where
    Id: NodeId + Send,
    N: Node<Id = Id>,
    Backend: DagBackend<Id, N>,
    Selector: IdSelector<Id>,
    Rewriter: NodeRewriter<Id, N, Backend::Error>,
 {
    pub dag: &'a mut AsyncDag<Id, N, Backend>,
    pub base: Id,
    pub selector: Selector,
    pub rewriter: Rewriter,
}

impl<'a, Id, N, Backend, Selector, Rewriter> RebaseNodeRewriter<
    'a,
    Id,
    N,
    Backend,
    Selector,
    Rewriter,
> where
    Id: NodeId + Send,
    N: Node<Id = Id>,
    Backend: DagBackend<Id, N>,
    Selector: IdSelector<Id>,
    Rewriter: NodeRewriter<Id, N, Backend::Error>,
 {
    /// Runs the rebase and returns the identifier of the last rewritten node, which is the new
    /// HEAD, or `base` when no node was rewritten.
    ///
    /// The walk from HEAD is taken up to (not including) the first node whose identifier the
    /// selector selects. The taken nodes are then replayed (see `replay`): rewritten from the last
    /// taken to the first, each rewritten node put as the new HEAD and its identifier handed to
    /// the rewriting of the next one. A failure of the walk or of a rewrite or put makes the rebase
    /// fail; once it failed no further node is rewritten. The part of the DAG reachable from HEAD
    /// has to be acyclic, so that the walk ends.
    pub fn run(self) -> (r: Result<Id, Error<Id, Backend::Error>>)
        requires
            id_laws::<Id>(),
            acyclic(reach_part(old(self.dag).nodes(), seq![old(self.dag).head_id()])),
        ensures
            exists|
                items: Seq<Result<(Id, N), Error<Id, Backend::Error>>>,
                k: int,
                rewriters: Seq<Rewriter>,
                rewritten: Seq<N>,
                put_ids: Seq<Id>,
            |
                {
                    &&& walk_trace(
                        old(self.dag).nodes(),
                        seq![old(self.dag).head_id()],
                        Some(self.selector),
                        items,
                    )
                    &&& #[trigger] replay_outcome(
                        *old(self.dag),
                        *final(self.dag),
                        items,
                        self.base,
                        self.rewriter,
                        r,
                        k,
                        rewriters,
                        rewritten,
                        put_ids,
                    )
                },
            r matches Ok(id) ==> exists|rewriters: Seq<Rewriter>, rewritten: Seq<N>, put_ids: Seq<Id>|
                #[trigger] rebase_outcome(
                    *old(self.dag),
                    *final(self.dag),
                    self.selector,
                    self.base,
                    self.rewriter,
                    id,
                    rewriters,
                    rewritten,
                    put_ids,
                ),
            r matches Err(e) ==> e is Backend || e is Rewrite,
            old(self.dag).nodes().dom().subset_of(final(self.dag).nodes().dom()),
            self.selector.selects(old(self.dag).head_id()) && old(self.dag).nodes().contains_key(
                old(self.dag).head_id(),
            ) ==> {
                &&& *final(self.dag) == *old(self.dag)
                &&& r is Ok ==> r == Ok::<Id, Error<Id, Backend::Error>>(self.base)
            },
    {
        let dag = self.dag;
        let ghost start = *dag;
        let ghost g = start.nodes();
        let ghost head = start.head_id();
        let ghost sel = self.selector;
        let stop = Some(self.selector);
        let items = {
            let mut stream = dag.stream();
            stream.collect_until(&stop)
        };
        let ghost taken = items@;
        let r = replay(dag, self.rewriter, self.base, items);
        proof {
            let (k, rewriters, rewritten, put_ids) = choose|
                k: int,
                rewriters: Seq<Rewriter>,
                rewritten: Seq<N>,
                put_ids: Seq<Id>,
            |
                #[trigger] replay_outcome(
                    start,
                    *dag,
                    taken,
                    self.base,
                    self.rewriter,
                    r,
                    k,
                    rewriters,
                    rewritten,
                    put_ids,
                );
            let len = taken.len();
            lemma_trace_failure_backend(g, seq![head], stop, taken);
            lemma_first_failure_none(taken);
            if r is Ok {
                assert forall|i: int| 0 <= i < len implies #[trigger] taken[i] is Ok by {
                    assert(replay_step(taken, self.base, rewriters, rewritten, put_ids, len - 1 - i));
                }
                let part = reach_part(g, seq![head]);
                lemma_covered_start(g, seq![head]);
                lemma_trace_reach_part(g, seq![head], seq![head], stop, taken);
                lemma_trace_walk(part, seq![head], stop, taken);
                let order = unselected_prefix(sel, walk_of(part, seq![head])).reverse();
                assert(order =~= item_ids(taken).reverse());
                assert forall|j: int|
                    #![trigger rewritten[j]]
                    0 <= j < order.len() implies Rewriter::rewrites(
                    rewriters[j],
                    rewriters[j + 1],
                    if j == 0 {
                        self.base
                    } else {
                        put_ids[j - 1]
                    },
                    order[j],
                    part[order[j]],
                    Ok(rewritten[j]),
                ) by {
                    assert(replay_step(taken, self.base, rewriters, rewritten, put_ids, j));
                    assert(order[j] == taken[len - 1 - j]->Ok_0.0);
                }
                assert(rebase_outcome(
                    start,
                    *dag,
                    sel,
                    self.base,
                    self.rewriter,
                    r->Ok_0,
                    rewriters,
                    rewritten,
                    put_ids,
                ));
            }
            if sel.selects(head) && g.contains_key(head) {
                lemma_trace_selected_head(g, head, sel, taken);
                if len == 1 {
                    assert(k == 0);
                }
            }
        }
        r
    }
}

/// When the selector selects the stored HEAD, the walk taken for a rebase is empty or a single
/// failure.
pub proof fn lemma_trace_selected_head<Id: NodeId, N: Node<Id = Id>, E, S: IdSelector<Id>>(
    g: Map<Id, N>,
    head: Id,
    selector: S,
    items: Seq<Result<(Id, N), Error<Id, E>>>,
)
    requires
        selector.selects(head),
        g.contains_key(head),
        walk_trace(g, seq![head], Some(selector), items),
    ensures
        items.len() == 0 || (items.len() == 1 && items[0] is Err),
{
    let start = seq![head];
    if items.len() > 0 {
        let rest = items.drop_first();
        match items[0] {
            Ok(visit) => {
                let popped = choose|popped: int|
                    {
                        &&& #[trigger] pops_past_absent(g, start, popped)
                        &&& visit.0 == start[start.len() - popped]
                        &&& g.contains_key(visit.0)
                        &&& g[visit.0] == visit.1
                        &&& !(Some(selector) matches Some(s) && s.selects(visit.0))
                        &&& walk_trace(
                            g,
                            start.take(start.len() - popped) + visit.1.parents(),
                            Some(selector),
                            rest,
                        )
                    };
                assert(popped == 1);
                assert(visit.0 == head);
            },
            Err(e) => {
                let popped = choose|popped: int|
                    #[trigger] pops_past_absent(g, start, popped) && walk_trace(
                        g,
                        start.take(start.len() - popped),
                        Some(selector),
                        rest,
                    );
                assert(popped == 1);
                let empty = start.take(0);
                assert(empty.len() == 0);
                if rest.len() > 0 {
                    match rest[0] {
                        Ok(visit) => {
                            let p = choose|p: int|
                                {
                                    &&& #[trigger] pops_past_absent(g, empty, p)
                                    &&& visit.0 == empty[empty.len() - p]
                                    &&& g.contains_key(visit.0)
                                    &&& g[visit.0] == visit.1
                                    &&& !(Some(selector) matches Some(s) && s.selects(visit.0))
                                    &&& walk_trace(
                                        g,
                                        empty.take(empty.len() - p) + visit.1.parents(),
                                        Some(selector),
                                        rest.drop_first(),
                                    )
                                };
                        },
                        Err(_) => {
                            let p = choose|p: int|
                                #[trigger] pops_past_absent(g, empty, p) && walk_trace(
                                    g,
                                    empty.take(empty.len() - p),
                                    Some(selector),
                                    rest.drop_first(),
                                );
                        },
                    }
                }
            },
        }
    }
}

/// Putting each of `keys` in turn keeps every entry of `nodes` whose key is not among `keys`.
proof fn lemma_insert_each_keeps<K, V>(nodes: Map<K, V>, keys: Seq<K>, values: Seq<V>, key: K)
    requires
        nodes.contains_key(key),
        !keys.contains(key),
    ensures
        insert_each(nodes, keys, values).contains_key(key),
        insert_each(nodes, keys, values)[key] == nodes[key],
    decreases keys.len(),
{
    if keys.len() > 0 {
        let front = keys.drop_last();
        assert(!front.contains(key)) by {
            if front.contains(key) {
                let i = choose|i: int| 0 <= i < front.len() && front[i] == key;
                assert(keys[i] == key);
            }
        }
        lemma_insert_each_keeps(nodes, front, values.take(keys.len() - 1), key);
        assert(keys[keys.len() - 1] != key);
    }
}

/// Nodes are never deleted by a replay, on any outcome: a node stored before it is stored after
/// it, unchanged unless a rewritten node was put under its identifier.
pub proof fn lemma_replay_keeps_nodes<
    Id: NodeId + Send,
    N: Node<Id = Id>,
    B: DagBackend<Id, N>,
    R: NodeRewriter<Id, N, B::Error>,
>(
    before: AsyncDag<Id, N, B>,
    after: AsyncDag<Id, N, B>,
    items: Seq<Result<(Id, N), Error<Id, B::Error>>>,
    base: Id,
    rewriter: R,
    result: Result<Id, Error<Id, B::Error>>,
    k: int,
    rewriters: Seq<R>,
    rewritten: Seq<N>,
    put_ids: Seq<Id>,
    id: Id,
)
    requires
        replay_outcome(before, after, items, base, rewriter, result, k, rewriters, rewritten, put_ids),
        before.nodes().contains_key(id),
        !put_ids.contains(id),
    ensures
        after.nodes().contains_key(id),
        after.nodes()[id] == before.nodes()[id],
{
    lemma_insert_each_keeps(before.nodes(), put_ids, rewritten, id);
}

} // verus!
