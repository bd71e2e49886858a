use vstd::prelude::*;

use crate::dag_backend::DagBackend;
use crate::error::Error;
use crate::graph::{
    acyclic, covered, dag_rank, lemma_absent_reaches_nothing, lemma_cons_contains,
    lemma_covered_pop, lemma_covered_start, lemma_pop_shrinks, lemma_reach_part_reachable,
    lemma_reachable_from_single, lemma_stored_reaches_itself, lemma_walk_pop_absent,
    lemma_walk_pop_stored, lemma_walk_visits_reachable, pops_past_absent, ranked, reach_part,
    reachable, walk, walk_of, walk_size_sum,
};
use crate::node::Node;
use crate::node_id::{clone_id, clone_value, contains_id, id_laws, NodeId};
use crate::rebase::{unselected_prefix, IdEqualSelector, IdSelector};

verus! {

/// An async DAG, generic over Node, Node identifier and Backend implementation
#[verifier::reject_recursive_types(Id)]
#[verifier::reject_recursive_types(N)]
#[verifier::reject_recursive_types(Backend)]
pub struct AsyncDag<Id, N, Backend> where
    Id: NodeId + Send,
    N: Node<Id = Id>,
    Backend: DagBackend<Id, N>,
 {
    head: Id,
    backend: Backend,
    _node: core::marker::PhantomData<N>,
}

impl<Id, N, Backend> AsyncDag<Id, N, Backend> where
    Id: NodeId + Send,
    N: Node<Id = Id>,
    Backend: DagBackend<Id, N>,
 {
    /// The identifier of the HEAD node.
    pub closed spec fn head_id(&self) -> Id {
        self.head
    }

    /// The backend that stores the nodes.
    pub closed spec fn store(&self) -> Backend {
        self.backend
    }

    /// The nodes that the backend holds.
    pub open spec fn nodes(&self) -> Map<Id, N> {
        self.store().nodes()
    }

    /// Create a new DAG with a backend and a HEAD node
    ///
    /// The head node is `DagBackend::put` into the backend before the AsyncDag object is created.
    pub fn new(backend: Backend, head: N) -> (r: Result<Self, Error<Id, Backend::Error>>)
        ensures
            r matches Ok(dag) ==> dag.nodes() == backend.nodes().insert(dag.head_id(), head),
            r matches Err(e) ==> e is Backend,
    {
        let mut backend = backend;
        match backend.put(head) {
            Ok(id) => Ok(AsyncDag { head: id, backend, _node: core::marker::PhantomData }),
            Err(e) => Err(Error::Backend(e)),
        }
    }

    /// Load a AsyncDag object using `head` as HEAD node.
    ///
    /// # Warning
    ///
    /// This fails if backend.get(head) fails.
    pub fn load(backend: Backend, head: Id) -> (r: Result<Self, Error<Id, Backend::Error>>)
        requires
            id_laws::<Id>(),
        ensures
            r matches Ok(dag) ==> {
                &&& dag.head_id() == head
                &&& dag.store() == backend
                &&& backend.nodes().contains_key(head)
            },
            r matches Err(Error::NodeNotFound(missing)) ==> {
                &&& missing == head
                &&& !backend.nodes().contains_key(head)
            },
            r matches Err(e) ==> e is NodeNotFound || e is Backend,
    {
        match backend.get(clone_id(&head)) {
            Ok(Some((id, _node))) => Ok(AsyncDag { head: id, backend, _node: core::marker::PhantomData }),
            Ok(None) => Err(Error::NodeNotFound(head)),
            Err(e) => Err(Error::Backend(e)),
        }
    }

    /// The identifier of the HEAD node.
    pub fn head(&self) -> (r: &Id)
        ensures
            *r == self.head_id(),
    {
        &self.head
    }

    /// The backend that stores the nodes.
    pub fn backend(&self) -> (r: &Backend)
        ensures
            *r == self.store(),
    {
        &self.backend
    }

    /// The backend that stores the nodes, for changing it.
    pub fn backend_mut(&mut self) -> (r: &mut Backend)
        ensures
            *r == old(self).store(),
            final(self).head_id() == old(self).head_id(),
            final(self).store() == *final(r),
    {
        &mut self.backend
    }

    /// Check whether an `id` is in the DAG.
    ///
    /// Collects the whole walk from HEAD, then answers with the first failure of the backend in
    /// the walk if there was one, and otherwise with whether `id` was visited. The part of the DAG
    /// reachable from HEAD has to be acyclic, so that the walk ends; the rest of what the backend
    /// holds may be anything.
    pub fn has_id(&self, id: &Id) -> (r: Result<bool, Error<Id, Backend::Error>>)
        requires
            id_laws::<Id>(),
            acyclic(reach_part(self.nodes(), seq![self.head_id()])),
        ensures
            exists|items: Seq<Result<(Id, N), Error<Id, Backend::Error>>>|
                #[trigger] walk_trace(
                    self.nodes(),
                    seq![self.head_id()],
                    None::<IdEqualSelector<Id>>,
                    items,
                ) && r == items_have_id(items, *id),
            r matches Ok(found) ==> found == reachable(self.nodes(), self.head_id(), *id),
            r matches Ok(found) ==> found == walk_of(
                reach_part(self.nodes(), seq![self.head_id()]),
                seq![self.head_id()],
            ).contains(*id),
            r matches Err(e) ==> e is Backend,
    {
        let ghost g = self.nodes();
        let no_stop: Option<IdEqualSelector<Id>> = None;
        let mut stream = self.stream();
        let items = stream.collect_until(&no_stop);
        proof {
            let head = self.head_id();
            let start = seq![head];
            let part = reach_part(g, start);
            lemma_trace_failure_backend(g, start, no_stop, items@);
            if first_failure(items@) is None {
                lemma_covered_start(g, start);
                lemma_trace_reach_part(g, start, start, no_stop, items@);
                lemma_trace_walk(part, start, no_stop, items@);
                lemma_walk_visits_reachable(part, start, *id);
                lemma_reachable_from_single(part, head, *id);
                if g.contains_key(head) {
                    lemma_stored_reaches_itself(g, head);
                    lemma_reachable_from_single(g, head, head);
                    lemma_reach_part_reachable(g, start, head, *id);
                } else {
                    lemma_absent_reaches_nothing(g, head, *id);
                    lemma_absent_reaches_nothing(part, head, *id);
                }
            }
        }
        has_id_in_items(items, id)
    }

    /// Iterate over the DAG
    ///
    /// This function returns a Stream over all nodes in the DAG, starting at HEAD and going on
    /// depth first (see `Stream::next` and `graph::walk`).
    pub fn stream(&self) -> (r: Stream<'_, Id, N, Backend>)
        requires
            id_laws::<Id>(),
        ensures
            r.dag() == *self,
            r.pending() == seq![self.head_id()],
    {
        let mut backlog: Vec<Id> = Vec::with_capacity(2);
        backlog.push(clone_id(&self.head));
        Stream { dag: self, backlog }
    }

    /// Start a rebase of this DAG.
    pub fn rebase(&mut self) -> (r: crate::rebase::Rebase<'_, Id, N, Backend>)
        ensures
            *r.0 == *old(self),
            *final(self) == *final(r.0),
    {
        crate::rebase::Rebase(self)
    }

    /// Update the HEAD pointer of the DAG
    ///
    /// # Warning
    ///
    /// fails if the passed node does not point to the current HEAD in its parents.
    pub fn update_head(&mut self, node: N) -> (r: Result<Id, Error<Id, Backend::Error>>)
        requires
            id_laws::<Id>(),
        ensures
            !node.parents().contains(old(self).head_id()) <==> r matches Err(Error::HeadNotAParent),
            r matches Err(Error::HeadNotAParent) ==> *final(self) == *old(self),
            old(self).nodes().dom().subset_of(final(self).nodes().dom()),
            r matches Ok(id) ==> {
                &&& final(self).head_id() == id
                &&& final(self).nodes() == old(self).nodes().insert(id, node)
            },
            r matches Err(e) ==> {
                &&& e is HeadNotAParent || e is Backend
                &&& final(self).head_id() == old(self).head_id()
                &&& old(self).nodes().submap_of(final(self).nodes())
            },
    {
        let parents = node.parent_ids();
        if contains_id(&parents, &self.head) {
            self.update_head_unchecked(node)
        } else {
            Err(Error::HeadNotAParent)
        }
    }

    /// Update the HEAD pointer of the DAG, unchecked
    ///
    /// # Warning
    ///
    /// Does not check whether the passed `node` does point to the current (then old) HEAD in its
    /// parents. Be careful to not lose nodes from the DAG with this.
    pub fn update_head_unchecked(&mut self, node: N) -> (r: Result<Id, Error<Id, Backend::Error>>)
        requires
            id_laws::<Id>(),
        ensures
            r matches Ok(id) ==> {
                &&& final(self).head_id() == id
                &&& final(self).nodes() == old(self).nodes().insert(id, node)
            },
            r matches Err(e) ==> {
                &&& e is Backend
                &&& final(self).head_id() == old(self).head_id()
                &&& old(self).nodes().submap_of(final(self).nodes())
            },
            old(self).nodes().dom().subset_of(final(self).nodes().dom()),
    {
        match self.backend.put(node) {
            Ok(id) => {
                self.head = clone_id(&id);
                Ok(id)
            },
            Err(e) => Err(Error::Backend(e)),
        }
    }

    /// Branch from the current head.
    ///
    /// This function creates a new AsyncDag object with the same backend (thus the backend must be
    /// `Clone` in this case).
    pub fn branch(&self) -> (r: AsyncDag<Id, N, Backend>) where Backend: Clone
        requires
            id_laws::<Id>(),
        ensures
            r.head_id() == self.head_id(),
            vstd::pervasive::cloned(self.store(), r.store()),
    {
        AsyncDag {
            head: clone_id(&self.head),
            backend: clone_value(&self.backend),
            _node: core::marker::PhantomData,
        }
    }

    /// Merge another AsyncDag into this one
    ///
    /// Use the `merger` function to merge the two head IDs and generate a new Node instance for
    /// the new HEAD of `self`.
    pub fn merge<M>(&mut self, other: &AsyncDag<Id, N, Backend>, merger: M) -> (r: Result<
        Id,
        Error<Id, Backend::Error>,
    >) where M: Merger<Id, N, Backend::Error>
        requires
            id_laws::<Id>(),
            merger.merge_requires(&old(self).head_id(), &other.head_id()),
        ensures
            r matches Ok(id) ==> exists|merged: N|
                {
                    &&& merger.merge_ensures(&old(self).head_id(), &other.head_id(), Ok(merged))
                    &&& final(self).head_id() == id
                    &&& final(self).nodes() == old(self).nodes().insert(id, merged)
                },
            r matches Err(Error::Merge(e)) ==> {
                &&& merger.merge_ensures(&old(self).head_id(), &other.head_id(), Err(e))
                &&& *final(self) == *old(self)
            },
            r matches Err(e) ==> {
                &&& e is Merge || e is Backend
                &&& final(self).head_id() == old(self).head_id()
                &&& old(self).nodes().submap_of(final(self).nodes())
            },
            old(self).nodes().dom().subset_of(final(self).nodes().dom()),
    {
        match merger.create_merge_node(&self.head, &other.head) {
            Ok(node) => self.update_head_unchecked(node),
            Err(e) => Err(Error::Merge(e)),
        }
    }
}

/// Creates the node that merges two heads.
///
/// `merge_requires` is what a call needs and `merge_ensures` what holds of the node it returns.
/// A verified implementation (such as the one for closures below) defines them. The defaults are
/// there for implementations written outside Verus, which cannot define spec functions; they are
/// closed, so nothing is known of them outside this module, and nothing is proved of such an
/// implementation.
pub trait Merger<Id, N, E> where Id: NodeId, N: Node<Id = Id> {
    closed spec fn merge_requires(&self, left_id: &Id, right_id: &Id) -> bool {
        true
    }

    closed spec fn merge_ensures(&self, left_id: &Id, right_id: &Id, result: Result<N, E>) -> bool {
        true
    }

    fn create_merge_node(&self, left_id: &Id, right_id: &Id) -> (result: Result<N, E>)
        requires
            self.merge_requires(left_id, right_id),
        ensures
            self.merge_ensures(left_id, right_id, result),
    ;
}

impl<Id, N, E, F> Merger<Id, N, E> for F where
    Id: NodeId,
    N: Node<Id = Id>,
    F: Fn(&Id, &Id) -> Result<N, E>,
 {
    open spec fn merge_requires(&self, left_id: &Id, right_id: &Id) -> bool {
        call_requires(*self, (left_id, right_id))
    }

    open spec fn merge_ensures(&self, left_id: &Id, right_id: &Id, result: Result<N, E>) -> bool {
        call_ensures(*self, (left_id, right_id), result)
    }

    fn create_merge_node(&self, left_id: &Id, right_id: &Id) -> (result: Result<N, E>) {
        (self)(left_id, right_id)
    }
}

/// Stream adapter for streaming all nodes in a DAG
///
/// The stream walks the DAG depth first: it keeps a stack of identifiers still to be visited,
/// starting with HEAD, and on each visit yields the visited node and pushes its parents.
#[verifier::reject_recursive_types(Id)]
#[verifier::reject_recursive_types(N)]
#[verifier::reject_recursive_types(Backend)]
pub struct Stream<'a, Id, N, Backend> where
    Id: NodeId + Send,
    N: Node<Id = Id>,
    Backend: DagBackend<Id, N>,
 {
    dag: &'a AsyncDag<Id, N, Backend>,
    backlog: Vec<Id>,
}

impl<'a, Id, N, Backend> Stream<'a, Id, N, Backend> where
    Id: NodeId + Send,
    N: Node<Id = Id>,
    Backend: DagBackend<Id, N>,
 {
    /// The DAG that is walked.
    pub closed spec fn dag(&self) -> AsyncDag<Id, N, Backend> {
        *self.dag
    }

    /// The identifiers still to be visited, as a stack whose top is the last entry.
    pub closed spec fn pending(&self) -> Seq<Id> {
        self.backlog@
    }

    /// The next node of the walk, or `None` when the walk is over.
    ///
    /// Identifiers that the backend does not hold are skipped. When the backend fails on an
    /// identifier, the failure is yielded in place of the node and the walk does not go on to that
    /// node's parents.
    pub fn next(&mut self) -> (r: Option<Result<(Id, N), Error<Id, Backend::Error>>>)
        ensures
            final(self).dag() == old(self).dag(),
            r is None ==> {
                &&& final(self).pending() == Seq::<Id>::empty()
                &&& forall|j: int|
                    0 <= j < old(self).pending().len() ==> !old(self).dag().nodes().contains_key(
                        #[trigger] old(self).pending()[j],
                    )
            },
            r matches Some(Ok(item)) ==> exists|popped: int|
                {
                    &&& pops_past_absent(old(self).dag().nodes(), old(self).pending(), popped)
                    &&& item.0 == old(self).pending()[old(self).pending().len() - popped]
                    &&& old(self).dag().nodes().contains_key(item.0)
                    &&& old(self).dag().nodes()[item.0] == item.1
                    &&& final(self).pending() == old(self).pending().take(
                        old(self).pending().len() - popped,
                    ) + item.1.parents()
                },
            acyclic(old(self).dag().nodes()) ==> {
                &&& r is None ==> walk_of(old(self).dag().nodes(), old(self).pending())
                    == Seq::<Id>::empty()
                &&& r matches Some(Ok(item)) ==> walk_of(
                    old(self).dag().nodes(),
                    old(self).pending(),
                ) == seq![item.0] + walk_of(old(self).dag().nodes(), final(self).pending())
            },
            r matches Some(Err(e)) ==> {
                &&& e is Backend
                &&& exists|popped: int|
                    {
                        &&& pops_past_absent(old(self).dag().nodes(), old(self).pending(), popped)
                        &&& final(self).pending() == old(self).pending().take(
                            old(self).pending().len() - popped,
                        )
                    }
            },
    {
        let ghost g = self.dag().nodes();
        let ghost start = self.backlog@;
        loop
            invariant
                self.dag() == old(self).dag(),
                g == self.dag().nodes(),
                start == old(self).pending(),
                self.backlog@.len() <= start.len(),
                self.backlog@ == start.take(self.backlog@.len() as int),
                forall|j: int|
                    self.backlog@.len() <= j < start.len() ==> !g.contains_key(#[trigger] start[j]),
            decreases self.backlog@.len(),
        {
            let ghost remaining = self.backlog@.len();
            match self.backlog.pop() {
                None => {
                    proof {
                        if acyclic(g) {
                            let rank = dag_rank(g);
                            lemma_walk_pop_absent(g, rank, start, start.len() as int);
                            assert(start.take(0) =~= Seq::<Id>::empty());
                            assert(walk(g, rank, Seq::<Id>::empty()) =~= Seq::<Id>::empty());
                        }
                    }
                    return None;
                },
                Some(id) => {
                    let ghost popped = start.len() - (remaining - 1);
                    proof {
                        assert(start[remaining - 1] == id);
                        assert(self.backlog@ =~= start.take(remaining - 1));
                    }
                    match self.dag.backend.get(id) {
                        Ok(Some((found, node))) => {
                            let mut parents = node.parent_ids();
                            self.backlog.append(&mut parents);
                            proof {
                                assert(pops_past_absent(g, start, popped));
                                if acyclic(g) {
                                    lemma_walk_pop_stored(g, dag_rank(g), start, popped);
                                }
                            }
                            return Some(Ok((found, node)));
                        },
                        Ok(None) => {},
                        Err(e) => {
                            proof {
                                assert(pops_past_absent(g, start, popped));
                            }
                            return Some(Err(Error::Backend(e)));
                        },
                    }
                },
            }
        }
    }

    /// Takes the rest of the walk: the items `next` yields, up to the end of the walk or, with a
    /// `stop` selector, up to (not including) the first node whose identifier it selects.
    pub fn collect_until<S: IdSelector<Id>>(&mut self, stop: &Option<S>) -> (items: Vec<
        Result<(Id, N), Error<Id, Backend::Error>>,
    >)
        requires
            id_laws::<Id>(),
            acyclic(reach_part(old(self).dag().nodes(), old(self).pending())),
        ensures
            final(self).dag() == old(self).dag(),
            walk_trace(old(self).dag().nodes(), old(self).pending(), *stop, items@),
    {
        let ghost g = self.dag().nodes();
        let ghost start = self.pending();
        let ghost part = reach_part(g, start);
        let ghost rank = dag_rank(part);
        let mut items: Vec<Result<(Id, N), Error<Id, Backend::Error>>> = Vec::new();
        proof {
            lemma_covered_start(g, start);
            assert forall|rest: Seq<Result<(Id, N), Error<Id, Backend::Error>>>|
                #[trigger] walk_trace(g, start, *stop, rest) implies walk_trace(
                g,
                start,
                *stop,
                items@ + rest,
            ) by {
                assert(items@ + rest =~= rest);
            }
        }
        loop
            invariant
                id_laws::<Id>(),
                part == reach_part(g, start),
                ranked(part, rank),
                covered(g, start, self.pending()),
                self.dag() == old(self).dag(),
                g == self.dag().nodes(),
                start == old(self).pending(),
                forall|rest: Seq<Result<(Id, N), Error<Id, Backend::Error>>>|
                    #[trigger] walk_trace(g, self.pending(), *stop, rest) ==> walk_trace(
                        g,
                        start,
                        *stop,
                        items@ + rest,
                    ),
            ensures
                self.dag() == old(self).dag(),
                walk_trace(g, start, *stop, items@),
            decreases walk_size_sum(part, rank, self.pending()),
        {
            let ghost before = self.pending();
            let ghost collected = items@;
            let item = self.next();
            match item {
                None => {
                    proof {
                        let empty = Seq::<Result<(Id, N), Error<Id, Backend::Error>>>::empty();
                        assert(walk_trace(g, before, *stop, empty));
                        assert(collected + empty =~= collected);
                    }
                    return items;
                },
                Some(Ok((id, node))) => {
                    let ghost popped = choose|popped: int|
                        {
                            &&& pops_past_absent(g, before, popped)
                            &&& id == before[before.len() - popped]
                            &&& g.contains_key(id)
                            &&& g[id] == node
                            &&& self.pending() == before.take(before.len() - popped)
                                + node.parents()
                        };
                    proof {
                        lemma_covered_pop(g, start, before, popped);
                        assert(part.contains_key(id));
                        assert(part[id] == node);
                        lemma_pop_shrinks(part, rank, before, popped);
                    }
                    let stopped = match stop {
                        Some(selector) => selector.select(&id),
                        None => false,
                    };
                    if stopped {
                        proof {
                            let empty = Seq::<Result<(Id, N), Error<Id, Backend::Error>>>::empty();
                            assert(pops_past_absent(g, before, popped));
                            assert(walk_trace(g, before, *stop, empty));
                            assert(collected + empty =~= collected);
                        }
                        return items;
                    }
                    let ghost x = Ok::<(Id, N), Error<Id, Backend::Error>>((id, node));
                    items.push(Ok((id, node)));
                    proof {
                        assert forall|rest: Seq<Result<(Id, N), Error<Id, Backend::Error>>>|
                            #[trigger] walk_trace(g, self.pending(), *stop, rest) implies walk_trace(
                            g,
                            start,
                            *stop,
                            items@ + rest,
                        ) by {
                            let longer = seq![x] + rest;
                            assert(longer[0] == x);
                            assert(longer.drop_first() =~= rest);
                            assert(pops_past_absent(g, before, popped));
                            assert(walk_trace(g, before, *stop, longer));
                            assert(collected + longer =~= items@ + rest);
                        }
                    }
                },
                Some(Err(e)) => {
                    let ghost popped = choose|popped: int|
                        {
                            &&& pops_past_absent(g, before, popped)
                            &&& self.pending() == before.take(before.len() - popped)
                        };
                    proof {
                        lemma_covered_pop(g, start, before, popped);
                        lemma_pop_shrinks(part, rank, before, popped);
                    }
                    let ghost x = Err::<(Id, N), Error<Id, Backend::Error>>(e);
                    items.push(Err(e));
                    proof {
                        assert forall|rest: Seq<Result<(Id, N), Error<Id, Backend::Error>>>|
                            #[trigger] walk_trace(g, self.pending(), *stop, rest) implies walk_trace(
                            g,
                            start,
                            *stop,
                            items@ + rest,
                        ) by {
                            let longer = seq![x] + rest;
                            assert(longer[0] == x);
                            assert(longer.drop_first() =~= rest);
                            assert(pops_past_absent(g, before, popped));
                            assert(walk_trace(g, before, *stop, longer));
                            assert(collected + longer =~= items@ + rest);
                        }
                    }
                },
            }
        }
    }
}


/// The first failure among `items`, if there is one.
pub open spec fn first_failure<Id, N, E>(items: Seq<Result<(Id, N), Error<Id, E>>>) -> Option<
    Error<Id, E>,
>
    decreases items.len(),
{
    if items.len() == 0 {
        None
    } else {
        match items[0] {
            Err(e) => Some(e),
            Ok(_) => first_failure(items.drop_first()),
        }
    }
}

/// The identifiers of the visited nodes among `items` (each of which is a visit).
pub open spec fn item_ids<Id, N, E>(items: Seq<Result<(Id, N), Error<Id, E>>>) -> Seq<Id> {
    items.map_values(|item: Result<(Id, N), Error<Id, E>>| item->Ok_0.0)
}

/// What `has_id` answers for the items of a walk: the first failure among them if there is one,
/// and otherwise whether one of them visits `id`.
pub open spec fn items_have_id<Id, N, E>(items: Seq<Result<(Id, N), Error<Id, E>>>, id: Id) -> Result<
    bool,
    Error<Id, E>,
> {
    match first_failure(items) {
        Some(e) => Err(e),
        None => Ok(item_ids(items).contains(id)),
    }
}

/// The identifiers of `ids` before the first one that `stop` selects; all of them without one.
pub open spec fn stop_prefix<Id: NodeId, S: IdSelector<Id>>(stop: Option<S>, ids: Seq<Id>) -> Seq<
    Id,
> {
    match stop {
        Some(selector) => unselected_prefix(selector, ids),
        None => ids,
    }
}

/// `items` is what a `Stream` over `g` with the stack `pending` can yield from `collect_until`
/// with `stop`: each item is either a visit of a stored node (after passing over absent
/// identifiers), whose parents are then pushed, or a failure of the backend on the identifier on
/// top, which is dropped; the items end where the walk ends or just before a visit of a node whose
/// identifier `stop` selects.
pub open spec fn walk_trace<Id: NodeId, N: Node<Id = Id>, E, S: IdSelector<Id>>(
    g: Map<Id, N>,
    pending: Seq<Id>,
    stop: Option<S>,
    items: Seq<Result<(Id, N), Error<Id, E>>>,
) -> bool
    decreases items.len(),
{
    if items.len() == 0 {
        ||| forall|j: int| 0 <= j < pending.len() ==> !g.contains_key(#[trigger] pending[j])
        ||| stop matches Some(selector) && exists|popped: int|
            #[trigger] pops_past_absent(g, pending, popped) && g.contains_key(
                pending[pending.len() - popped],
            ) && selector.selects(pending[pending.len() - popped])
    } else {
        match items[0] {
            Ok(visit) => exists|popped: int|
                {
                    &&& #[trigger] pops_past_absent(g, pending, popped)
                    &&& visit.0 == pending[pending.len() - popped]
                    &&& g.contains_key(visit.0)
                    &&& g[visit.0] == visit.1
                    &&& !(stop matches Some(selector) && selector.selects(visit.0))
                    &&& walk_trace(
                        g,
                        pending.take(pending.len() - popped) + visit.1.parents(),
                        stop,
                        items.drop_first(),
                    )
                },
            Err(e) => {
                &&& e is Backend
                &&& exists|popped: int|
                    #[trigger] pops_past_absent(g, pending, popped) && walk_trace(
                        g,
                        pending.take(pending.len() - popped),
                        stop,
                        items.drop_first(),
                    )
            },
        }
    }
}

/// There is no failure among `items` exactly when all of them are visits.
pub proof fn lemma_first_failure_none<Id, N, E>(items: Seq<Result<(Id, N), Error<Id, E>>>)
    ensures
        first_failure(items) is None <==> forall|i: int| 0 <= i < items.len() ==> #[trigger] items[i] is Ok,
    decreases items.len(),
{
    if items.len() > 0 {
        let rest = items.drop_first();
        lemma_first_failure_none(rest);
        if first_failure(items) is None {
            assert forall|i: int| 0 <= i < items.len() implies #[trigger] items[i] is Ok by {
                if i > 0 {
                    assert(items[i] == rest[i - 1]);
                }
            }
        }
        if forall|i: int| 0 <= i < items.len() ==> #[trigger] items[i] is Ok {
            assert(items[0] is Ok);
            assert forall|i: int| 0 <= i < rest.len() implies #[trigger] rest[i] is Ok by {
                assert(rest[i] == items[i + 1]);
            }
        }
    }
}

/// Every failure a walk yields is a failure of the backend.
pub proof fn lemma_trace_failure_backend<Id: NodeId, N: Node<Id = Id>, E, S: IdSelector<Id>>(
    g: Map<Id, N>,
    pending: Seq<Id>,
    stop: Option<S>,
    items: Seq<Result<(Id, N), Error<Id, E>>>,
)
    requires
        walk_trace(g, pending, stop, items),
    ensures
        first_failure(items) matches Some(e) ==> e is Backend,
    decreases items.len(),
{
    if items.len() > 0 {
        if let Ok(visit) = items[0] {
            let popped = choose|popped: int|
                {
                    &&& #[trigger] pops_past_absent(g, pending, popped)
                    &&& visit.0 == pending[pending.len() - popped]
                    &&& g.contains_key(visit.0)
                    &&& g[visit.0] == visit.1
                    &&& !(stop matches Some(selector) && selector.selects(visit.0))
                    &&& walk_trace(
                        g,
                        pending.take(pending.len() - popped) + visit.1.parents(),
                        stop,
                        items.drop_first(),
                    )
                };
            lemma_trace_failure_backend(
                g,
                pending.take(pending.len() - popped) + visit.1.parents(),
                stop,
                items.drop_first(),
            );
        }
    }
}

/// A walk without failures visits, in order, the nodes of the depth-first walk of `g` up to the
/// first one that `stop` selects, each with its stored node.
pub proof fn lemma_trace_walk<Id: NodeId, N: Node<Id = Id>, E, S: IdSelector<Id>>(
    g: Map<Id, N>,
    pending: Seq<Id>,
    stop: Option<S>,
    items: Seq<Result<(Id, N), Error<Id, E>>>,
)
    requires
        acyclic(g),
        walk_trace(g, pending, stop, items),
        first_failure(items) is None,
    ensures
        forall|i: int|
            0 <= i < items.len() ==> {
                &&& #[trigger] items[i] is Ok
                &&& g.contains_key(items[i]->Ok_0.0)
                &&& g[items[i]->Ok_0.0] == items[i]->Ok_0.1
            },
        item_ids(items) == stop_prefix(stop, walk_of(g, pending)),
    decreases items.len(),
{
    let rank = dag_rank(g);
    if items.len() == 0 {
        if forall|j: int| 0 <= j < pending.len() ==> !g.contains_key(#[trigger] pending[j]) {
            lemma_walk_pop_absent(g, rank, pending, pending.len() as int);
            assert(pending.take(0) =~= Seq::<Id>::empty());
            assert(walk(g, rank, Seq::<Id>::empty()) =~= Seq::<Id>::empty());
        } else {
            let selector = stop->Some_0;
            let popped = choose|popped: int|
                #[trigger] pops_past_absent(g, pending, popped) && g.contains_key(
                    pending[pending.len() - popped],
                ) && selector.selects(pending[pending.len() - popped]);
            lemma_walk_pop_stored(g, rank, pending, popped);
            let w = walk_of(g, pending);
            assert(w[0] == pending[pending.len() - popped]);
        }
        assert(item_ids(items) =~= Seq::<Id>::empty());
    } else {
        let visit = items[0]->Ok_0;
        let rest = items.drop_first();
        let popped = choose|popped: int|
            {
                &&& #[trigger] pops_past_absent(g, pending, popped)
                &&& visit.0 == pending[pending.len() - popped]
                &&& g.contains_key(visit.0)
                &&& g[visit.0] == visit.1
                &&& !(stop matches Some(selector) && selector.selects(visit.0))
                &&& walk_trace(
                    g,
                    pending.take(pending.len() - popped) + visit.1.parents(),
                    stop,
                    rest,
                )
            };
        let next = pending.take(pending.len() - popped) + visit.1.parents();
        assert(first_failure(rest) is None);
        lemma_trace_walk(g, next, stop, rest);
        lemma_walk_pop_stored(g, rank, pending, popped);
        assert forall|i: int|
            0 <= i < items.len() implies {
                &&& #[trigger] items[i] is Ok
                &&& g.contains_key(items[i]->Ok_0.0)
                &&& g[items[i]->Ok_0.0] == items[i]->Ok_0.1
            } by {
            if i > 0 {
                assert(items[i] == rest[i - 1]);
            }
        }
        assert(item_ids(items) =~= seq![visit.0] + item_ids(rest));
        let w = walk_of(g, next);
        if let Some(selector) = stop {
            assert((seq![visit.0] + w)[0] == visit.0);
            assert((seq![visit.0] + w).drop_first() =~= w);
        }
    }
}

/// Answers `has_id` from the items of a walk: the first failure among them if there is one, and
/// otherwise whether one of them visits `id`.
pub fn has_id_in_items<Id: NodeId, N, E>(items: Vec<Result<(Id, N), Error<Id, E>>>, id: &Id) -> (r:
    Result<bool, Error<Id, E>>)
    requires
        id_laws::<Id>(),
    ensures
        r == items_have_id(items@, *id),
{
    let ghost all = items@;
    let mut items = items;
    let mut answer: Result<bool, Error<Id, E>> = Ok(false);
    proof {
        assert(all.skip(all.len() as int) =~= Seq::<Result<(Id, N), Error<Id, E>>>::empty());
        assert(item_ids(Seq::<Result<(Id, N), Error<Id, E>>>::empty()) =~= Seq::<Id>::empty());
    }
    while items.len() > 0
        invariant
            id_laws::<Id>(),
            items@.len() <= all.len(),
            items@ == all.take(items@.len() as int),
            answer == items_have_id(all.skip(items@.len() as int), *id),
        decreases items@.len(),
    {
        let ghost n = items@.len() - 1;
        let ghost later = all.skip(n + 1);
        let item = items.pop().unwrap();
        proof {
            assert(item == all[n]);
            assert(all.skip(n) =~= seq![item] + later);
            assert((seq![item] + later)[0] == item);
            assert((seq![item] + later).drop_first() =~= later);
            assert(items@ =~= all.take(n));
        }
        match item {
            Err(e) => {
                answer = Err(e);
            },
            Ok((visited, _node)) => {
                proof {
                    assert(item_ids(seq![item] + later) =~= seq![visited] + item_ids(later));
                    lemma_cons_contains(visited, item_ids(later), *id);
                }
                if let Ok(found) = answer {
                    answer = Ok(found || visited == *id);
                }
            },
        }
    }
    proof {
        assert(all.skip(0) =~= all);
    }
    answer
}

/// On a stack whose stored identifiers are all reachable from `starts`, a walk of `g` and a walk of
/// the part of `g` reachable from `starts` can yield the same items.
pub proof fn lemma_trace_reach_part<Id: NodeId, N: Node<Id = Id>, E, S: IdSelector<Id>>(
    g: Map<Id, N>,
    starts: Seq<Id>,
    pending: Seq<Id>,
    stop: Option<S>,
    items: Seq<Result<(Id, N), Error<Id, E>>>,
)
    requires
        covered(g, starts, pending),
    ensures
        walk_trace(g, pending, stop, items) <==> walk_trace(reach_part(g, starts), pending, stop, items),
    decreases items.len(),
{
    let part = reach_part(g, starts);
    if pending.len() > 0 {
        lemma_covered_pop(g, starts, pending, 1);
    }
    assert forall|popped: int| 1 <= popped <= pending.len() implies {
        &&& (#[trigger] pops_past_absent(g, pending, popped) <==> pops_past_absent(part, pending, popped))
        &&& (g.contains_key(pending[pending.len() - popped]) <==> part.contains_key(pending[pending.len() - popped]))
        &&& (part.contains_key(pending[pending.len() - popped]) ==> part[pending[pending.len() - popped]] == g[pending[pending.len() - popped]])
        &&& covered(g, starts, pending.take(pending.len() - popped))
        &&& (g.contains_key(pending[pending.len() - popped]) ==> covered(
            g,
            starts,
            pending.take(pending.len() - popped) + g[pending[pending.len() - popped]].parents(),
        ))
    } by {
        lemma_covered_pop(g, starts, pending, popped);
    }
    if items.len() > 0 {
        let rest = items.drop_first();
        match items[0] {
            Ok(visit) => {
                if walk_trace(g, pending, stop, items) {
                    let popped = choose|popped: int|
                        {
                            &&& #[trigger] pops_past_absent(g, pending, popped)
                            &&& visit.0 == pending[pending.len() - popped]
                            &&& g.contains_key(visit.0)
                            &&& g[visit.0] == visit.1
                            &&& !(stop matches Some(selector) && selector.selects(visit.0))
                            &&& walk_trace(
                                g,
                                pending.take(pending.len() - popped) + visit.1.parents(),
                                stop,
                                rest,
                            )
                        };
                    lemma_trace_reach_part(
                        g,
                        starts,
                        pending.take(pending.len() - popped) + visit.1.parents(),
                        stop,
                        rest,
                    );
                    assert(pops_past_absent(part, pending, popped));
                    assert(walk_trace(part, pending, stop, items));
                }
                if walk_trace(part, pending, stop, items) {
                    let popped = choose|popped: int|
                        {
                            &&& #[trigger] pops_past_absent(part, pending, popped)
                            &&& visit.0 == pending[pending.len() - popped]
                            &&& part.contains_key(visit.0)
                            &&& part[visit.0] == visit.1
                            &&& !(stop matches Some(selector) && selector.selects(visit.0))
                            &&& walk_trace(
                                part,
                                pending.take(pending.len() - popped) + visit.1.parents(),
                                stop,
                                rest,
                            )
                        };
                    assert(pops_past_absent(g, pending, popped));
                    lemma_trace_reach_part(
                        g,
                        starts,
                        pending.take(pending.len() - popped) + visit.1.parents(),
                        stop,
                        rest,
                    );
                    assert(walk_trace(g, pending, stop, items));
                }
            },
            Err(e) => {
                if walk_trace(g, pending, stop, items) {
                    let popped = choose|popped: int|
                        #[trigger] pops_past_absent(g, pending, popped) && walk_trace(
                            g,
                            pending.take(pending.len() - popped),
                            stop,
                            rest,
                        );
                    lemma_trace_reach_part(g, starts, pending.take(pending.len() - popped), stop, rest);
                    assert(pops_past_absent(part, pending, popped));
                    assert(walk_trace(part, pending, stop, items));
                }
                if walk_trace(part, pending, stop, items) {
                    let popped = choose|popped: int|
                        #[trigger] pops_past_absent(part, pending, popped) && walk_trace(
                            part,
                            pending.take(pending.len() - popped),
                            stop,
                            rest,
                        );
                    assert(pops_past_absent(g, pending, popped));
                    lemma_trace_reach_part(g, starts, pending.take(pending.len() - popped), stop, rest);
                    assert(walk_trace(g, pending, stop, items));
                }
            },
        }
    } else {
        assert((forall|j: int| 0 <= j < pending.len() ==> !g.contains_key(#[trigger] pending[j]))
            <==> (forall|j: int| 0 <= j < pending.len() ==> !part.contains_key(#[trigger] pending[j])));
        if let Some(selector) = stop {
            if exists|popped: int|
                #[trigger] pops_past_absent(g, pending, popped) && g.contains_key(
                    pending[pending.len() - popped],
                ) && selector.selects(pending[pending.len() - popped]) {
                let popped = choose|popped: int|
                    #[trigger] pops_past_absent(g, pending, popped) && g.contains_key(
                        pending[pending.len() - popped],
                    ) && selector.selects(pending[pending.len() - popped]);
                assert(pops_past_absent(part, pending, popped));
            }
            if exists|popped: int|
                #[trigger] pops_past_absent(part, pending, popped) && part.contains_key(
                    pending[pending.len() - popped],
                ) && selector.selects(pending[pending.len() - popped]) {
                let popped = choose|popped: int|
                    #[trigger] pops_past_absent(part, pending, popped) && part.contains_key(
                        pending[pending.len() - popped],
                    ) && selector.selects(pending[pending.len() - popped]);
                assert(pops_past_absent(g, pending, popped));
            }
        }
    }
}

} // verus!
