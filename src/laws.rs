//! Laws of the operations, stated over their contracts.
use vstd::prelude::*;
use crate::model::{Model, load, total, node_set, holds};
use crate::assign::{spread, removal, valid, initialised};
use crate::table::lemma_loaded_is_held;

verus! {

proof fn lemma_total_same_lengths(a: Model, b: Model)
    requires
        a.len() == b.len(),
        forall|e: int| 0 <= e < a.len() ==> (#[trigger] b[e]).1.len() == a[e].1.len(),
    ensures
        total(a) == total(b),
    decreases a.len(),
{
    if a.len() > 0 {
        let (da, db) = (a.drop_last(), b.drop_last());
        assert forall|e: int| 0 <= e < da.len() implies (#[trigger] db[e]).1.len() == da[e].1.len() by {
            assert(da[e] == a[e] && db[e] == b[e]);
        }
        lemma_total_same_lengths(da, db);
        assert(b.last().1.len() == a.last().1.len()) by {
            assert(b.last() == b[b.len() - 1]);
        }
    }
}

/// After nodes are added, each of them carries at least the floor of the
/// average load: the replicas of the given assignment over all the nodes.
pub proof fn lemma_added_nodes_reach_average(
    a: Model,
    added: Set<Seq<char>>,
    b: Model,
    ms: Seq<(u32, Seq<char>, Seq<char>)>,
)
    requires
        spread(a, added, b, ms),
    ensures
        forall|n: Seq<char>| #[trigger] added.contains(n) ==>
            total(a) as int / node_set(a).union(added).len() as int <= load(b, n),
{
    lemma_total_same_lengths(a, b);
    let ns = node_set(a).union(added);
    assert forall|n: Seq<char>| #[trigger] added.contains(n) implies
        total(a) as int / ns.len() as int <= load(b, n) by {
        assert(ns.contains(n));
    }
}


proof fn lemma_total_sized(a: Model, r: nat)
    requires
        forall|e: int| 0 <= e < a.len() ==> (#[trigger] a[e]).1.len() == r,
    ensures
        total(a) == a.len() * r,
    decreases a.len(),
{
    if a.len() > 0 {
        let d = a.drop_last();
        assert forall|e: int| 0 <= e < d.len() implies (#[trigger] d[e]).1.len() == r by {
            assert(d[e] == a[e]);
        }
        lemma_total_sized(d, r);
        assert(a.last() == a[a.len() - 1]);
        assert(a.len() * r == d.len() * r + r) by (nonlinear_arith)
            requires a.len() == d.len() + 1;
    }
}

/// There are no more nodes than replicas.
proof fn lemma_nodes_within_total(a: Model)
    ensures
        node_set(a).finite(),
        node_set(a).len() <= total(a),
    decreases a.len(),
{
    if a.len() == 0 {
        assert(node_set(a) =~= Set::<Seq<char>>::empty());
    } else {
        let d = a.drop_last();
        lemma_nodes_within_total(d);
        let l = a.last().1;
        assert(node_set(a) =~= node_set(d).union(l.to_set())) by {
            assert forall|m: Seq<char>| node_set(a).contains(m) <==> node_set(d).union(l.to_set()).contains(m) by {
                if holds(a, m) {
                    let e = choose|e: int| 0 <= e < a.len() && (#[trigger] a[e]).1.contains(m);
                    if e < d.len() {
                        assert(d[e] == a[e]);
                    }
                }
                if holds(d, m) {
                    let e = choose|e: int| 0 <= e < d.len() && (#[trigger] d[e]).1.contains(m);
                    assert(a[e] == d[e]);
                }
                if l.contains(m) {
                    assert(a[a.len() - 1] == a.last());
                }
            }
        }
        l.lemma_cardinality_of_set();
        vstd::set_lib::lemma_len_union(node_set(d), l.to_set());
    }
}

/// Removing a node from a valid assignment leaves a valid assignment of the
/// same partitions and replication factor: every remaining node still holds
/// some replica, and all of them carry the floor or the ceiling of the average.
pub proof fn lemma_removal_keeps_valid(
    a: Model,
    x: Seq<char>,
    n: nat,
    r: nat,
    b: Model,
    ms: Seq<(u32, Seq<char>, Seq<char>)>,
)
    requires
        valid(a, n, r),
        removal(a, x, r, b, ms),
    ensures
        valid(b, n, r),
        node_set(b) == node_set(a).remove(x),
{
    let ns = node_set(a).remove(x);
    lemma_total_sized(a, r);
    lemma_total_sized(b, r);
    lemma_nodes_within_total(a);
    assert(ns.len() <= node_set(a).len()) by {
        vstd::set_lib::lemma_len_subset(ns, node_set(a));
    }
    assert(total(b) == n * r);
    // Every remaining node carries at least one replica.
    assert forall|m: Seq<char>| ns.contains(m) implies node_set(b).contains(m) by {
        assert(total(b) as int / ns.len() as int <= load(b, m));
        assert(total(b) as int / ns.len() as int >= 1) by (nonlinear_arith)
            requires total(b) >= ns.len(), ns.len() > 0;
        lemma_loaded_is_held(b, m);
    }
    assert(node_set(b) =~= ns);
    assert(b[0].0 == a[0].0);
    assert forall|e: int| 0 <= e < b.len() implies (#[trigger] b[e]).0 == b[0].0 + e by {
        assert(a[e].0 == a[0].0 + e);
        assert(a[e].0 == b[e].0);
    }
}


/// Adding the same nodes to the same assignment gives the same assignment and
/// the same moves.
pub proof fn lemma_add_deterministic(
    a: Model,
    added: Set<Seq<char>>,
    b1: Model,
    ms1: Seq<(u32, Seq<char>, Seq<char>)>,
    b2: Model,
    ms2: Seq<(u32, Seq<char>, Seq<char>)>,
)
    requires
        spread(a, added, b1, ms1),
        spread(a, added, b2, ms2),
    ensures
        b1 == b2,
        ms1 == ms2,
{
}

/// Initialising with the same nodes, partitions and replication factor gives
/// the same assignment.
pub proof fn lemma_init_deterministic(b1: Model, b2: Model, ns: Seq<Seq<char>>, n: nat, r: nat, base: nat)
    requires
        initialised(b1, ns, n, r, base),
        initialised(b2, ns, n, r, base),
    ensures
        b1 == b2,
{
}


/// Removing the same node from the same assignment gives the same assignment
/// and the same moves.
pub proof fn lemma_remove_deterministic(
    a: Model,
    x: Seq<char>,
    r: nat,
    b1: Model,
    ms1: Seq<(u32, Seq<char>, Seq<char>)>,
    b2: Model,
    ms2: Seq<(u32, Seq<char>, Seq<char>)>,
)
    requires
        removal(a, x, r, b1, ms1),
        removal(a, x, r, b2, ms2),
    ensures
        b1 == b2,
        ms1 == ms2,
{
    let f = load(a, x) as int;
    assert(ms1.take(f) == ms2.take(f));
    assert(ms1.skip(f) == ms2.skip(f));
    assert(ms1 =~= ms1.take(f) + ms1.skip(f));
    assert(ms2 =~= ms2.take(f) + ms2.skip(f));
}

} // verus!
