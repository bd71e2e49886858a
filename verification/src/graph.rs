//! The graph a backend holds, as a map from identifiers to nodes: reachability along parent
//! links, acyclicity, and the depth-first walk that `Stream` performs.
use vstd::prelude::*;

use crate::node::Node;

verus! {

/// `to` is reached from `from` in `g` by following at most `steps` parent links, every node on the
/// way (both ends included) being stored in `g`.
pub open spec fn reaches_within<Id, N: Node<Id = Id>>(
    g: Map<Id, N>,
    from: Id,
    to: Id,
    steps: nat,
) -> bool
    decreases steps,
{
    &&& g.contains_key(from)
    &&& (from == to || (steps > 0 && exists|p: Id|
        #[trigger] g[from].parents().contains(p) && reaches_within(g, p, to, (steps - 1) as nat)))
}

/// `to` is `from` or one of its ancestors in `g`: a chain of parent links leads from `from` to `to`
/// through nodes stored in `g`.
pub open spec fn reachable<Id, N: Node<Id = Id>>(g: Map<Id, N>, from: Id, to: Id) -> bool {
    exists|steps: nat| reaches_within(g, from, to, steps)
}

/// `to` is reachable in `g` from one of the identifiers in `starts`.
pub open spec fn reachable_from_any<Id, N: Node<Id = Id>>(
    g: Map<Id, N>,
    starts: Seq<Id>,
    to: Id,
) -> bool {
    exists|i: int| 0 <= i < starts.len() && reachable(g, #[trigger] starts[i], to)
}

/// `rank` strictly decreases along every parent link between nodes stored in `g`.
pub open spec fn ranked<Id, N: Node<Id = Id>>(g: Map<Id, N>, rank: spec_fn(Id) -> nat) -> bool {
    forall|x: Id, p: Id|
        g.contains_key(x) && #[trigger] g[x].parents().contains(p) && g.contains_key(p) ==> rank(p)
            < rank(x)
}

/// The parent links among the nodes stored in `g` form no cycle.
pub open spec fn acyclic<Id, N: Node<Id = Id>>(g: Map<Id, N>) -> bool {
    exists|rank: spec_fn(Id) -> nat| ranked(g, rank)
}

/// The number of nodes a depth-first walk that starts at `id` visits, counting a visit to an
/// identifier that is not stored once.
pub open spec fn walk_size<Id, N: Node<Id = Id>>(
    g: Map<Id, N>,
    rank: spec_fn(Id) -> nat,
    id: Id,
) -> nat
    decreases rank(id), 1nat, 0nat,
{
    if g.contains_key(id) {
        1 + walk_size_below(g, rank, g[id].parents(), rank(id))
    } else {
        1
    }
}

/// The sum of `walk_size` over `ids`, where an identifier that is stored and ranked at or above
/// `bound` counts once.
pub open spec fn walk_size_below<Id, N: Node<Id = Id>>(
    g: Map<Id, N>,
    rank: spec_fn(Id) -> nat,
    ids: Seq<Id>,
    bound: nat,
) -> nat
    decreases bound, 0nat, ids.len(),
{
    if ids.len() == 0 {
        0
    } else {
        let last = ids.last();
        walk_size_below(g, rank, ids.drop_last(), bound) + if g.contains_key(last) && rank(last)
            < bound {
            walk_size(g, rank, last)
        } else {
            1
        }
    }
}

/// The sum of `walk_size` over `ids`.
pub open spec fn walk_size_sum<Id, N: Node<Id = Id>>(
    g: Map<Id, N>,
    rank: spec_fn(Id) -> nat,
    ids: Seq<Id>,
) -> nat
    decreases ids.len(),
{
    if ids.len() == 0 {
        0
    } else {
        walk_size_sum(g, rank, ids.drop_last()) + walk_size(g, rank, ids.last())
    }
}

/// The top `popped` entries of the stack `pending` (whose top is its last entry) were taken off,
/// and every one of them except the deepest is absent from `g`.
pub open spec fn pops_past_absent<Id, N: Node<Id = Id>>(
    g: Map<Id, N>,
    pending: Seq<Id>,
    popped: int,
) -> bool {
    &&& 1 <= popped <= pending.len()
    &&& forall|j: int|
        pending.len() - popped < j < pending.len() ==> !g.contains_key(#[trigger] pending[j])
}

/// A stored node reaches what its parents reach, and itself.
pub proof fn lemma_reachable_unfold<Id, N: Node<Id = Id>>(g: Map<Id, N>, from: Id, to: Id)
    ensures
        reachable(g, from, to) <==> {
            &&& g.contains_key(from)
            &&& (from == to || exists|p: Id|
                #[trigger] g[from].parents().contains(p) && reachable(g, p, to))
        },
{
    if reachable(g, from, to) {
        let steps = choose|steps: nat| reaches_within(g, from, to, steps);
        if from != to {
            let p = choose|p: Id|
                #[trigger] g[from].parents().contains(p) && reaches_within(
                    g,
                    p,
                    to,
                    (steps - 1) as nat,
                );
            assert(reachable(g, p, to));
        }
    }
    if g.contains_key(from) {
        if from == to {
            assert(reaches_within(g, from, to, 0));
        } else if exists|p: Id| #[trigger] g[from].parents().contains(p) && reachable(g, p, to) {
            let p = choose|p: Id| #[trigger] g[from].parents().contains(p) && reachable(g, p, to);
            let steps = choose|steps: nat| reaches_within(g, p, to, steps);
            assert(reaches_within(g, from, to, steps + 1));
        }
    }
}

/// A stored node reaches itself.
pub proof fn lemma_stored_reaches_itself<Id, N: Node<Id = Id>>(g: Map<Id, N>, id: Id)
    requires
        g.contains_key(id),
    ensures
        reachable(g, id, id),
{
    assert(reaches_within(g, id, id, 0));
}

/// An identifier that is not stored reaches nothing.
pub(crate) proof fn lemma_absent_reaches_nothing<Id, N: Node<Id = Id>>(g: Map<Id, N>, from: Id, to: Id)
    requires
        !g.contains_key(from),
    ensures
        !reachable(g, from, to),
{
    lemma_reachable_unfold(g, from, to);
}

/// Popping the top entries of a stack of identifiers, all absent from `g` but the deepest one,
/// which is stored, and pushing the parents of that one, keeps what the stack reaches, apart from
/// the popped stored node itself.
pub(crate) proof fn lemma_pop_stored<Id, N: Node<Id = Id>>(
    g: Map<Id, N>,
    pending: Seq<Id>,
    popped: int,
    to: Id,
)
    requires
        pops_past_absent(g, pending, popped),
        g.contains_key(pending[pending.len() - popped]),
    ensures
        reachable_from_any(g, pending, to) <==> (pending[pending.len() - popped] == to
            || reachable_from_any(
            g,
            pending.take(pending.len() - popped) + g[pending[pending.len() - popped]].parents(),
            to,
        )),
{
    let m = pending.len() - popped;
    let id = pending[m];
    let parents = g[id].parents();
    let rest = pending.take(m) + parents;
    lemma_reachable_unfold(g, id, to);
    if reachable_from_any(g, pending, to) {
        let i = choose|i: int| 0 <= i < pending.len() && reachable(g, #[trigger] pending[i], to);
        if i > m {
            lemma_absent_reaches_nothing(g, pending[i], to);
        } else if i < m {
            assert(rest[i] == pending[i]);
        } else if id != to {
            let p = choose|p: Id| #[trigger] parents.contains(p) && reachable(g, p, to);
            let j = choose|j: int| 0 <= j < parents.len() && parents[j] == p;
            assert(rest[m + j] == p);
        }
    }
    if id == to {
        lemma_stored_reaches_itself(g, id);
        assert(reachable(g, pending[m], to));
    } else if reachable_from_any(g, rest, to) {
        let i = choose|i: int| 0 <= i < rest.len() && reachable(g, #[trigger] rest[i], to);
        if i < m {
            assert(pending[i] == rest[i]);
        } else {
            assert(parents.contains(rest[i]));
            assert(reachable(g, pending[m], to));
        }
    }
}

/// Popping the top entries of a stack of identifiers that are all absent from `g` keeps what the
/// stack reaches.
pub(crate) proof fn lemma_pop_absent<Id, N: Node<Id = Id>>(
    g: Map<Id, N>,
    pending: Seq<Id>,
    popped: int,
    to: Id,
)
    requires
        0 <= popped <= pending.len(),
        forall|j: int|
            pending.len() - popped <= j < pending.len() ==> !g.contains_key(#[trigger] pending[j]),
    ensures
        reachable_from_any(g, pending, to) <==> reachable_from_any(
            g,
            pending.take(pending.len() - popped),
            to,
        ),
{
    let m = pending.len() - popped;
    if reachable_from_any(g, pending, to) {
        let i = choose|i: int| 0 <= i < pending.len() && reachable(g, #[trigger] pending[i], to);
        if i >= m {
            lemma_absent_reaches_nothing(g, pending[i], to);
        } else {
            assert(pending.take(m)[i] == pending[i]);
        }
    }
    if reachable_from_any(g, pending.take(m), to) {
        let i = choose|i: int| 0 <= i < m && reachable(g, #[trigger] pending.take(m)[i], to);
        assert(pending[i] == pending.take(m)[i]);
    }
}

/// Below a bound that exceeds the rank of every stored identifier among `ids`, the bounded sum is
/// the plain sum of walk sizes.
pub(crate) proof fn lemma_walk_size_below_is_sum<Id, N: Node<Id = Id>>(
    g: Map<Id, N>,
    rank: spec_fn(Id) -> nat,
    ids: Seq<Id>,
    bound: nat,
)
    requires
        forall|j: int| 0 <= j < ids.len() && g.contains_key(#[trigger] ids[j]) ==> rank(ids[j]) < bound,
    ensures
        walk_size_below(g, rank, ids, bound) == walk_size_sum(g, rank, ids),
    decreases ids.len(),
{
    if ids.len() > 0 {
        let front = ids.drop_last();
        assert forall|j: int| 0 <= j < front.len() && g.contains_key(#[trigger] front[j]) implies rank(
            front[j],
        ) < bound by {
            assert(front[j] == ids[j]);
        }
        lemma_walk_size_below_is_sum(g, rank, front, bound);
        assert(ids.last() == ids[ids.len() - 1]);
    }
}

/// The sum of walk sizes over two stacked sequences is the sum of their sums.
pub(crate) proof fn lemma_walk_size_sum_append<Id, N: Node<Id = Id>>(
    g: Map<Id, N>,
    rank: spec_fn(Id) -> nat,
    a: Seq<Id>,
    b: Seq<Id>,
)
    ensures
        walk_size_sum(g, rank, a + b) == walk_size_sum(g, rank, a) + walk_size_sum(g, rank, b),
    decreases b.len(),
{
    if b.len() == 0 {
        assert(a + b =~= a);
    } else {
        lemma_walk_size_sum_append(g, rank, a, b.drop_last());
        assert((a + b).drop_last() =~= a + b.drop_last());
        assert((a + b).last() == b.last());
    }
}

/// The walk size of a stored node is one more than the sum of the walk sizes of its parents.
pub(crate) proof fn lemma_walk_size_stored<Id, N: Node<Id = Id>>(
    g: Map<Id, N>,
    rank: spec_fn(Id) -> nat,
    id: Id,
)
    requires
        ranked(g, rank),
        g.contains_key(id),
    ensures
        walk_size(g, rank, id) == 1 + walk_size_sum(g, rank, g[id].parents()),
{
    let parents = g[id].parents();
    assert forall|j: int| 0 <= j < parents.len() && g.contains_key(#[trigger] parents[j]) implies rank(
        parents[j],
    ) < rank(id) by {
        assert(parents.contains(parents[j]));
    }
    lemma_walk_size_below_is_sum(g, rank, parents, rank(id));
}

/// Taking the top entries off a stack of identifiers shrinks its walk size sum, also when the parents
/// of the deepest popped entry, if it is stored, are pushed in its place.
pub proof fn lemma_pop_shrinks<Id, N: Node<Id = Id>>(
    g: Map<Id, N>,
    rank: spec_fn(Id) -> nat,
    pending: Seq<Id>,
    popped: int,
)
    requires
        ranked(g, rank),
        1 <= popped <= pending.len(),
    ensures
        walk_size_sum(g, rank, pending.take(pending.len() - popped)) < walk_size_sum(g, rank, pending),
        g.contains_key(pending[pending.len() - popped]) ==> walk_size_sum(
            g,
            rank,
            pending.take(pending.len() - popped) + g[pending[pending.len() - popped]].parents(),
        ) < walk_size_sum(g, rank, pending),
{
    let m = pending.len() - popped;
    let id = pending[m];
    let below = pending.take(m);
    let above = pending.skip(m);
    assert(pending =~= below + above);
    lemma_walk_size_sum_append(g, rank, below, above);
    let single = seq![id];
    assert(above =~= single + above.skip(1));
    lemma_walk_size_sum_append(g, rank, single, above.skip(1));
    assert(single.len() == 1);
    assert(single.drop_last() =~= Seq::<Id>::empty());
    assert(single.last() == id);
    assert(walk_size_sum(g, rank, Seq::<Id>::empty()) == 0);
    assert(walk_size_sum(g, rank, single) == walk_size(g, rank, id));
    if g.contains_key(id) {
        lemma_walk_size_stored(g, rank, id);
        lemma_walk_size_sum_append(g, rank, below, g[id].parents());
    }
}

/// What a one-entry stack reaches is what its entry reaches.
pub(crate) proof fn lemma_reachable_from_single<Id, N: Node<Id = Id>>(g: Map<Id, N>, from: Id, to: Id)
    ensures
        reachable_from_any(g, seq![from], to) <==> reachable(g, from, to),
{
    if reachable(g, from, to) {
        assert(seq![from][0] == from);
    }
}

/// A ranking of the nodes of `g` that decreases along parent links, if `g` is acyclic.
pub open spec fn dag_rank<Id, N: Node<Id = Id>>(g: Map<Id, N>) -> spec_fn(Id) -> nat {
    choose|rank: spec_fn(Id) -> nat| ranked(g, rank)
}

/// The identifiers a depth-first walk visits, in order, starting from the stack `pending` (whose
/// top is its last entry): the top is popped; if it is stored it is visited and its parents are
/// pushed in order, so that its last parent is visited next; identifiers that are not stored are
/// passed over.
pub open spec fn walk<Id, N: Node<Id = Id>>(
    g: Map<Id, N>,
    rank: spec_fn(Id) -> nat,
    pending: Seq<Id>,
) -> Seq<Id>
    decreases walk_size_sum(g, rank, pending),
    when ranked(g, rank)
{
    if pending.len() == 0 {
        Seq::empty()
    } else {
        let top = pending.last();
        proof {
            lemma_pop_shrinks(g, rank, pending, 1);
            assert(pending.take(pending.len() - 1) =~= pending.drop_last());
        }
        if g.contains_key(top) {
            seq![top] + walk(g, rank, pending.drop_last() + g[top].parents())
        } else {
            walk(g, rank, pending.drop_last())
        }
    }
}

/// The depth-first walk of an acyclic `g` from the stack `pending`.
pub open spec fn walk_of<Id, N: Node<Id = Id>>(g: Map<Id, N>, pending: Seq<Id>) -> Seq<Id> {
    walk(g, dag_rank(g), pending)
}

/// The walk from a stack whose top entries were popped past absent identifiers down to a stored
/// one visits that one first and goes on from the rest of the stack with its parents pushed.
pub(crate) proof fn lemma_walk_pop_stored<Id, N: Node<Id = Id>>(
    g: Map<Id, N>,
    rank: spec_fn(Id) -> nat,
    pending: Seq<Id>,
    popped: int,
)
    requires
        ranked(g, rank),
        pops_past_absent(g, pending, popped),
        g.contains_key(pending[pending.len() - popped]),
    ensures
        walk(g, rank, pending) == seq![pending[pending.len() - popped]] + walk(
            g,
            rank,
            pending.take(pending.len() - popped) + g[pending[pending.len() - popped]].parents(),
        ),
    decreases popped,
{
    let top = pending.last();
    assert(pending.take(pending.len() - 1) =~= pending.drop_last());
    if popped == 1 {
        assert(top == pending[pending.len() - 1]);
    } else {
        assert(!g.contains_key(pending[pending.len() - 1]));
        let rest = pending.drop_last();
        assert forall|j: int| rest.len() - (popped - 1) < j < rest.len() implies !g.contains_key(
            #[trigger] rest[j],
        ) by {
            assert(rest[j] == pending[j]);
        }
        lemma_walk_pop_stored(g, rank, rest, popped - 1);
        assert(rest[rest.len() - (popped - 1)] == pending[pending.len() - popped]);
        assert(rest.take(rest.len() - (popped - 1)) =~= pending.take(pending.len() - popped));
    }
}

/// The walk from a stack whose top entries, popped down to some depth, are absent goes on from
/// what is left below them.
pub(crate) proof fn lemma_walk_pop_absent<Id, N: Node<Id = Id>>(
    g: Map<Id, N>,
    rank: spec_fn(Id) -> nat,
    pending: Seq<Id>,
    popped: int,
)
    requires
        ranked(g, rank),
        0 <= popped <= pending.len(),
        forall|j: int|
            pending.len() - popped <= j < pending.len() ==> !g.contains_key(#[trigger] pending[j]),
    ensures
        walk(g, rank, pending) == walk(g, rank, pending.take(pending.len() - popped)),
    decreases popped,
{
    if popped == 0 {
        assert(pending.take(pending.len() as int) =~= pending);
    } else {
        let rest = pending.drop_last();
        assert(pending.take(pending.len() - 1) =~= rest);
        assert(!g.contains_key(pending[pending.len() - 1]));
        assert forall|j: int| rest.len() - (popped - 1) <= j < rest.len() implies !g.contains_key(
            #[trigger] rest[j],
        ) by {
            assert(rest[j] == pending[j]);
        }
        lemma_walk_pop_absent(g, rank, rest, popped - 1);
        assert(rest.take(rest.len() - (popped - 1)) =~= pending.take(pending.len() - popped));
    }
}

/// What a sequence with a first entry put in front contains.
pub(crate) proof fn lemma_cons_contains<T>(first: T, rest: Seq<T>, x: T)
    ensures
        (seq![first] + rest).contains(x) <==> (first == x || rest.contains(x)),
{
    let s = seq![first] + rest;
    if s.contains(x) {
        let i = choose|i: int| 0 <= i < s.len() && s[i] == x;
        if i > 0 {
            assert(rest[i - 1] == x);
        }
    }
    if first == x {
        assert(s[0] == x);
    } else if rest.contains(x) {
        let i = choose|i: int| 0 <= i < rest.len() && rest[i] == x;
        assert(s[i + 1] == x);
    }
}

/// Storing a node under an identifier that was not stored keeps every path of parent links.
proof fn lemma_insert_fresh_keeps_paths<Id, N: Node<Id = Id>>(
    g: Map<Id, N>,
    id: Id,
    node: N,
    from: Id,
    to: Id,
    steps: nat,
)
    requires
        !g.contains_key(id),
        reaches_within(g, from, to, steps),
    ensures
        reaches_within(g.insert(id, node), from, to, steps),
    decreases steps,
{
    let h = g.insert(id, node);
    assert(h[from] == g[from]);
    if from != to {
        let p = choose|p: Id|
            #[trigger] g[from].parents().contains(p) && reaches_within(g, p, to, (steps - 1) as nat);
        lemma_insert_fresh_keeps_paths(g, id, node, p, to, (steps - 1) as nat);
        assert(h[from].parents().contains(p));
    }
}

/// Nothing is lost by moving HEAD to a new node: when a node that has the old HEAD among its
/// parents is stored under an identifier that was not stored before, every node reachable from the
/// old HEAD is reachable from the new node.
pub proof fn lemma_new_head_keeps_reachable<Id, N: Node<Id = Id>>(
    g: Map<Id, N>,
    old_head: Id,
    id: Id,
    node: N,
    x: Id,
)
    requires
        !g.contains_key(id),
        node.parents().contains(old_head),
        reachable(g, old_head, x),
    ensures
        reachable(g.insert(id, node), id, x),
{
    let h = g.insert(id, node);
    let steps = choose|steps: nat| reaches_within(g, old_head, x, steps);
    lemma_insert_fresh_keeps_paths(g, id, node, old_head, x, steps);
    assert(reachable(h, old_head, x));
    lemma_reachable_unfold(h, id, x);
    assert(h[id] == node);
}

/// The sum of the ranks of `ids`.
pub open spec fn rank_sum<Id>(rank: spec_fn(Id) -> nat, ids: Seq<Id>) -> nat
    decreases ids.len(),
{
    if ids.len() == 0 {
        0
    } else {
        rank_sum(rank, ids.drop_last()) + rank(ids.last())
    }
}

proof fn lemma_rank_sum_bounds<Id>(rank: spec_fn(Id) -> nat, ids: Seq<Id>, x: Id)
    requires
        ids.contains(x),
    ensures
        rank(x) <= rank_sum(rank, ids),
    decreases ids.len(),
{
    if ids.last() != x {
        let i = choose|i: int| 0 <= i < ids.len() && ids[i] == x;
        assert(ids.drop_last()[i] == x);
        lemma_rank_sum_bounds(rank, ids.drop_last(), x);
    }
}

/// Moving HEAD to a new node keeps the DAG acyclic: storing a node under an identifier that was
/// not stored, that the node does not name as its own parent and that no stored node names as a
/// parent, keeps the parent links free of cycles.
pub proof fn lemma_new_head_keeps_acyclic<Id, N: Node<Id = Id>>(g: Map<Id, N>, id: Id, node: N)
    requires
        acyclic(g),
        !g.contains_key(id),
        !node.parents().contains(id),
        forall|x: Id| #[trigger] g.contains_key(x) ==> !g[x].parents().contains(id),
    ensures
        acyclic(g.insert(id, node)),
{
    let h = g.insert(id, node);
    let rank = dag_rank(g);
    let top = 1 + rank_sum(rank, node.parents());
    let new_rank = |v: Id|
        if v == id {
            top
        } else {
            rank(v)
        };
    assert forall|x: Id, p: Id|
        h.contains_key(x) && #[trigger] h[x].parents().contains(p) && h.contains_key(
            p,
        ) implies new_rank(p) < new_rank(x) by {
        if x == id {
            lemma_rank_sum_bounds(rank, node.parents(), p);
        } else {
            assert(g.contains_key(x));
            assert(h[x] == g[x]);
            assert(p != id);
            assert(g.contains_key(p));
            assert(g[x].parents().contains(p));
        }
    }
    assert(ranked(h, new_rank));
}

/// The depth-first walk of an acyclic DAG visits exactly the nodes reachable from where it starts.
pub proof fn lemma_walk_visits_reachable<Id, N: Node<Id = Id>>(
    g: Map<Id, N>,
    pending: Seq<Id>,
    x: Id,
)
    requires
        acyclic(g),
    ensures
        walk_of(g, pending).contains(x) <==> reachable_from_any(g, pending, x),
    decreases walk_size_sum(g, dag_rank(g), pending),
{
    let rank = dag_rank(g);
    if pending.len() == 0 {
        assert(walk(g, rank, pending) =~= Seq::<Id>::empty());
    } else {
        let top = pending.last();
        let rest = pending.drop_last();
        assert(pending.take(pending.len() - 1) =~= rest);
        assert(pending[pending.len() - 1] == top);
        lemma_pop_shrinks(g, rank, pending, 1);
        if g.contains_key(top) {
            let next = rest + g[top].parents();
            lemma_walk_pop_stored(g, rank, pending, 1);
            lemma_pop_stored(g, pending, 1, x);
            lemma_walk_visits_reachable(g, next, x);
            lemma_cons_contains(top, walk(g, rank, next), x);
        } else {
            lemma_walk_pop_absent(g, rank, pending, 1);
            lemma_pop_absent(g, pending, 1, x);
            lemma_walk_visits_reachable(g, rest, x);
        }
    }
}

/// The part of `g` that is reachable from one of the identifiers in `starts`.
pub open spec fn reach_part<Id, N: Node<Id = Id>>(g: Map<Id, N>, starts: Seq<Id>) -> Map<Id, N> {
    g.restrict(Set::new(|x: Id| reachable_from_any(g, starts, x)))
}

/// Every identifier of `pending` that `g` stores is reachable from one of `starts`.
pub open spec fn covered<Id, N: Node<Id = Id>>(g: Map<Id, N>, starts: Seq<Id>, pending: Seq<Id>) -> bool {
    forall|j: int|
        0 <= j < pending.len() && g.contains_key(#[trigger] pending[j]) ==> reachable_from_any(
            g,
            starts,
            pending[j],
        )
}

/// What reaches a stored node reaches its stored parents.
proof fn lemma_reaches_parent<Id, N: Node<Id = Id>>(
    g: Map<Id, N>,
    from: Id,
    x: Id,
    p: Id,
    steps: nat,
)
    requires
        reaches_within(g, from, x, steps),
        g[x].parents().contains(p),
        g.contains_key(p),
    ensures
        reaches_within(g, from, p, steps + 1),
    decreases steps,
{
    if from == x {
        assert(reaches_within(g, p, p, 0));
        assert(reaches_within(g, from, p, 1));
        lemma_reaches_more_steps(g, from, p, 1, steps + 1);
    } else {
        let q = choose|q: Id|
            #[trigger] g[from].parents().contains(q) && reaches_within(g, q, x, (steps - 1) as nat);
        lemma_reaches_parent(g, q, x, p, (steps - 1) as nat);
        assert(reaches_within(g, q, p, steps));
    }
}

/// A bound on the number of steps can be raised.
proof fn lemma_reaches_more_steps<Id, N: Node<Id = Id>>(
    g: Map<Id, N>,
    from: Id,
    to: Id,
    steps: nat,
    more: nat,
)
    requires
        reaches_within(g, from, to, steps),
        steps <= more,
    ensures
        reaches_within(g, from, to, more),
    decreases steps,
{
    if from != to {
        let q = choose|q: Id|
            #[trigger] g[from].parents().contains(q) && reaches_within(g, q, to, (steps - 1) as nat);
        lemma_reaches_more_steps(g, q, to, (steps - 1) as nat, (more - 1) as nat);
    }
}

/// The stored parents of a node that is reachable from `starts` are reachable from `starts`.
pub proof fn lemma_reachable_parent<Id, N: Node<Id = Id>>(g: Map<Id, N>, starts: Seq<Id>, x: Id, p: Id)
    requires
        reachable_from_any(g, starts, x),
        g[x].parents().contains(p),
        g.contains_key(p),
    ensures
        reachable_from_any(g, starts, p),
{
    let i = choose|i: int| 0 <= i < starts.len() && reachable(g, #[trigger] starts[i], x);
    let steps = choose|steps: nat| reaches_within(g, starts[i], x, steps);
    lemma_reaches_parent(g, starts[i], x, p, steps);
    assert(reachable(g, starts[i], p));
}

/// The stack a walk starts from is covered by itself.
pub proof fn lemma_covered_start<Id, N: Node<Id = Id>>(g: Map<Id, N>, starts: Seq<Id>)
    ensures
        covered(g, starts, starts),
{
    assert forall|j: int| 0 <= j < starts.len() && g.contains_key(#[trigger] starts[j]) implies reachable_from_any(
        g,
        starts,
        starts[j],
    ) by {
        lemma_stored_reaches_itself(g, starts[j]);
    }
}

/// Popping entries off a covered stack, and pushing the parents of the deepest popped one when it
/// is stored, keeps it covered; on a covered stack `g` and the part of it reachable from `starts`
/// agree.
pub proof fn lemma_covered_pop<Id, N: Node<Id = Id>>(
    g: Map<Id, N>,
    starts: Seq<Id>,
    pending: Seq<Id>,
    popped: int,
)
    requires
        covered(g, starts, pending),
        1 <= popped <= pending.len(),
    ensures
        covered(g, starts, pending.take(pending.len() - popped)),
        g.contains_key(pending[pending.len() - popped]) ==> covered(
            g,
            starts,
            pending.take(pending.len() - popped) + g[pending[pending.len() - popped]].parents(),
        ),
        pops_past_absent(g, pending, popped) <==> pops_past_absent(
            reach_part(g, starts),
            pending,
            popped,
        ),
        forall|j: int|
            0 <= j < pending.len() ==> (g.contains_key(#[trigger] pending[j]) <==> reach_part(
                g,
                starts,
            ).contains_key(pending[j])),
{
    let m = pending.len() - popped;
    let part = reach_part(g, starts);
    let below = pending.take(m);
    assert forall|j: int| 0 <= j < below.len() && g.contains_key(#[trigger] below[j]) implies reachable_from_any(
        g,
        starts,
        below[j],
    ) by {
        assert(below[j] == pending[j]);
    }
    assert forall|j: int|
        0 <= j < pending.len() implies (g.contains_key(#[trigger] pending[j])
            <==> part.contains_key(pending[j])) by {
        if g.contains_key(pending[j]) {
            assert(reachable_from_any(g, starts, pending[j]));
        }
    }
    if g.contains_key(pending[m]) {
        let x = pending[m];
        let next = below + g[x].parents();
        assert(reachable_from_any(g, starts, x));
        assert forall|j: int| 0 <= j < next.len() && g.contains_key(#[trigger] next[j]) implies reachable_from_any(
            g,
            starts,
            next[j],
        ) by {
            if j < m {
                assert(next[j] == pending[j]);
            } else {
                assert(g[x].parents()[j - m] == next[j]);
                lemma_reachable_parent(g, starts, x, next[j]);
            }
        }
    }
}

/// Along identifiers reachable from `starts`, `g` and the part of it reachable from `starts` reach
/// the same identifiers.
pub proof fn lemma_reach_part_reachable<Id, N: Node<Id = Id>>(
    g: Map<Id, N>,
    starts: Seq<Id>,
    from: Id,
    to: Id,
)
    requires
        reachable_from_any(g, starts, from),
    ensures
        reachable(g, from, to) <==> reachable(reach_part(g, starts), from, to),
{
    if reachable(g, from, to) {
        let steps = choose|steps: nat| reaches_within(g, from, to, steps);
        lemma_reach_part_within(g, starts, from, to, steps);
    }
    if reachable(reach_part(g, starts), from, to) {
        let steps = choose|steps: nat| reaches_within(reach_part(g, starts), from, to, steps);
        lemma_part_within(g, starts, from, to, steps);
    }
}

proof fn lemma_reach_part_within<Id, N: Node<Id = Id>>(
    g: Map<Id, N>,
    starts: Seq<Id>,
    from: Id,
    to: Id,
    steps: nat,
)
    requires
        reachable_from_any(g, starts, from),
        reaches_within(g, from, to, steps),
    ensures
        reaches_within(reach_part(g, starts), from, to, steps),
    decreases steps,
{
    let part = reach_part(g, starts);
    assert(part.contains_key(from));
    if from != to {
        let q = choose|q: Id|
            #[trigger] g[from].parents().contains(q) && reaches_within(g, q, to, (steps - 1) as nat);
        lemma_reachable_parent(g, starts, from, q);
        lemma_reach_part_within(g, starts, q, to, (steps - 1) as nat);
        assert(part[from] == g[from]);
        assert(part[from].parents().contains(q));
    }
}

proof fn lemma_part_within<Id, N: Node<Id = Id>>(
    g: Map<Id, N>,
    starts: Seq<Id>,
    from: Id,
    to: Id,
    steps: nat,
)
    requires
        reaches_within(reach_part(g, starts), from, to, steps),
    ensures
        reaches_within(g, from, to, steps),
    decreases steps,
{
    let part = reach_part(g, starts);
    if from != to {
        let q = choose|q: Id|
            #[trigger] part[from].parents().contains(q) && reaches_within(
                part,
                q,
                to,
                (steps - 1) as nat,
            );
        lemma_part_within(g, starts, q, to, (steps - 1) as nat);
        assert(g[from].parents().contains(q));
    }
}

/// The part of an acyclic graph reachable from anywhere is acyclic.
pub proof fn lemma_acyclic_part<Id, N: Node<Id = Id>>(g: Map<Id, N>, starts: Seq<Id>)
    requires
        acyclic(g),
    ensures
        acyclic(reach_part(g, starts)),
{
    let rank = dag_rank(g);
    let part = reach_part(g, starts);
    assert forall|x: Id, p: Id|
        part.contains_key(x) && #[trigger] part[x].parents().contains(p) && part.contains_key(
            p,
        ) implies rank(p) < rank(x) by {
        assert(g[x].parents().contains(p));
    }
    assert(ranked(part, rank));
}

} // verus!
