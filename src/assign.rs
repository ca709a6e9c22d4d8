//! The operations on assignments: checks, node removal and addition,
//! initialisation and validation.
use vstd::prelude::*;
use crate::engine::{Work, icount, iapply, below, all_distinct, balance_moves, fill_moves};
use crate::names::{ascending_names, lemma_ascending_unique};
use crate::model::{
    Model, Node, Move, Partition, AssignError, Assignment, names_of, moves_of, model_of, lemma_view_def,
    holds, node_set, load, lists_distinct, lists_sized, apply_moves, balanced, ascending,
};
use crate::table::{
    dec, dec_moves, lists_view, injective_keys, build_table, find_name, index_lists, decode,
    decode_moves, lemma_dec_moves, lemma_dec_distinct, lemma_balanced_result, lemma_load_dec,
    lemma_load_pos, lemma_index_distinct, lemma_to_end,
};

verus! {

/// Whether `l` names some node twice.
fn repeats_a_name(l: &Vec<Node>) -> (r: bool)
    ensures
        r == !names_of(l@).no_duplicates(),
{
    let ghost v = names_of(l@);
    let mut i: usize = 0;
    while i < l.len()
        invariant
            v == names_of(l@),
            i <= l.len(),
            forall|a: int, b: int| 0 <= a < i && 0 <= b < l.len() && a != b ==> v[a] != v[b],
        decreases l.len() - i,
    {
        let mut j: usize = 0;
        while j < l.len()
            invariant
                v == names_of(l@),
                i < l.len(),
                j <= l.len(),
                forall|a: int, b: int| 0 <= a < i && 0 <= b < l.len() && a != b ==> v[a] != v[b],
                forall|b: int| 0 <= b < j && b != i ==> v[i as int] != v[b],
            decreases l.len() - j,
        {
            if j != i && l[i].same_as(&l[j]) {
                assert(v[i as int] == v[j as int]);
                return true;
            }
            j = j + 1;
        }
        proof {
            assert forall|a: int, b: int| 0 <= a < i + 1 && 0 <= b < l.len() && a != b implies v[a] != v[b] by {
                if a == i {
                    assert(v[i as int] != v[b]);
                }
            }
        }
        i = i + 1;
    }
    false
}

/// Distinct names count as many nodes as there are names.
proof fn lemma_node_count(a: Model, nv: Seq<Seq<char>>)
    requires
        nv.no_duplicates(),
        forall|m: Seq<char>| #[trigger] nv.contains(m) <==> holds(a, m),
    ensures
        node_set(a) == nv.to_set(),
        node_set(a).finite(),
        node_set(a).len() == nv.len(),
{
    assert(node_set(a) =~= nv.to_set());
    nv.unique_seq_to_set();
}

impl Assignment {
    /// Whether every replica list has no repeated node.
    pub fn has_distinct_lists(&self) -> (r: bool)
        ensures
            r == lists_distinct(self@),
    {
        proof {
            lemma_view_def(self);
        }
        let mut e: usize = 0;
        while e < self.entries.len()
            invariant
                self@ == model_of(self.entries@),
                e <= self.entries.len(),
                forall|k: int| 0 <= k < e ==> (#[trigger] self@[k]).1.no_duplicates(),
            decreases self.entries.len() - e,
        {
            if repeats_a_name(&self.entries[e].1) {
                assert(!self@[e as int].1.no_duplicates());
                return false;
            }
            e = e + 1;
        }
        true
    }

    /// Whether every replica list has exactly `replication_factor` nodes, all distinct.
    pub fn has_sized_lists(&self, replication_factor: usize) -> (r: bool)
        ensures
            r == lists_sized(self@, replication_factor as nat),
    {
        proof {
            lemma_view_def(self);
        }
        let mut e: usize = 0;
        while e < self.entries.len()
            invariant
                self@ == model_of(self.entries@),
                e <= self.entries.len(),
                forall|k: int| 0 <= k < e ==> (#[trigger] self@[k]).1.len() == replication_factor,
            decreases self.entries.len() - e,
        {
            if self.entries[e].1.len() != replication_factor {
                assert(self@[e as int].1.len() != replication_factor);
                return false;
            }
            e = e + 1;
        }
        self.has_distinct_lists()
    }

    /// Whether some replica list holds `node`.
    pub fn contains_node(&self, node: &Node) -> (r: bool)
        ensures
            r == holds(self@, node@),
    {
        proof {
            lemma_view_def(self);
        }
        let mut e: usize = 0;
        while e < self.entries.len()
            invariant
                self@ == model_of(self.entries@),
                e <= self.entries.len(),
                forall|k: int| 0 <= k < e ==> !(#[trigger] self@[k]).1.contains(node@),
            decreases self.entries.len() - e,
        {
            let l = &self.entries[e].1;
            let mut j: usize = 0;
            while j < l.len()
                invariant
                    self@ == model_of(self.entries@),
                    l == &self.entries[e as int].1,
                    e < self.entries.len(),
                    j <= l.len(),
                    forall|k: int| 0 <= k < j ==> l[k]@ != node@,
                decreases l.len() - j,
            {
                if l[j].same_as(node) {
                    assert(self@[e as int].1[j as int] == node@);
                    assert(self@[e as int].1.contains(node@));
                    return true;
                }
                j = j + 1;
            }
            proof {
                if self@[e as int].1.contains(node@) {
                    let k = choose|k: int| 0 <= k < self@[e as int].1.len() && self@[e as int].1[k] == node@;
                    assert(l[k]@ == node@);
                }
            }
            e = e + 1;
        }
        false
    }

    /// Fails with `InvalidRequest` unless some replica list holds `node`.
    pub fn ensure_contains_node(&self, node: &Node) -> (r: Result<(), AssignError>)
        ensures
            r is Ok <==> holds(self@, node@),
            r is Err ==> r == Err::<(), AssignError>(AssignError::InvalidRequest),
    {
        if !self.contains_node(node) {
            return Err(AssignError::InvalidRequest);
        }
        Ok(())
    }

    /// The number of distinct nodes on the replica lists.
    pub fn node_count(&self) -> (r: usize)
        ensures
            node_set(self@).finite(),
            r == node_set(self@).len(),
    {
        let none: Vec<Node> = Vec::new();
        let names = build_table(self, &none);
        proof {
            assert forall|m: Seq<char>| #[trigger] names_of(names@).contains(m) <==> holds(self@, m) by {
                assert(!names_of(none@).contains(m));
            }
            lemma_node_count(self@, names_of(names@));
        }
        names.len()
    }
}


/// Whether `b` has the partitions of `a`, in the same order.
pub open spec fn same_partitions(a: Model, b: Model) -> bool {
    &&& a.len() == b.len()
    &&& forall|e: int| 0 <= e < a.len() ==> (#[trigger] a[e]).0 == b[e].0
}

/// What removing node `x` from `a`, with replication factor `r`, yields: the
/// same partitions with lists of `r` distinct nodes, `x` on none of them, the
/// remaining nodes balanced, `ms` turning `a` into `b`, the first moves
/// replacing `x`, one for each partition that held it, the later ones between
/// remaining nodes, and every move going to a remaining node. The first moves
/// are exactly the grouped fill over the removal's node table; the later moves
/// and `b` are exactly the boundary balancing, by name, of what they leave.
pub open spec fn removal(a: Model, x: Seq<char>, r: nat, b: Model, ms: Seq<(u32, Seq<char>, Seq<char>)>) -> bool {
    &&& ascending(b)
    &&& same_partitions(a, b)
    &&& lists_sized(b, r)
    &&& !holds(b, x)
    &&& balanced(b, node_set(a).remove(x))
    &&& apply_moves(a, ms) == b
    &&& load(a, x) <= ms.len()
    &&& forall|k: int| 0 <= k < load(a, x) ==> (#[trigger] ms[k]).1 == x
    &&& forall|k: int| load(a, x) <= k < ms.len() ==> (#[trigger] ms[k]).1 != x
    &&& forall|k: int| 0 <= k < ms.len() ==> node_set(a).remove(x).contains((#[trigger] ms[k]).2)
    &&& forall|k: int| 0 <= k < ms.len() ==> (#[trigger] ms[k]).1 != ms[k].2
    &&& ms.skip(load(a, x) as int) == balancing_moves(apply_moves(a, ms.take(load(a, x) as int)), node_set(a).remove(x))
    &&& b == balanced_over(apply_moves(a, ms.take(load(a, x) as int)), node_set(a).remove(x))
    &&& ms.take(load(a, x) as int) == dec_moves(
        keys_of(a),
        fill_moves(encode(a, removal_table(a, x)), (removal_table(a, x).len() - 1) as usize),
        removal_table(a, x),
    )
}

/// The node table of a removal: the remaining nodes by name, then the removed one.
pub open spec fn removal_table(a: Model, x: Seq<char>) -> Seq<Seq<char>> {
    table_for(node_set(a).remove(x)).push(x)
}

/// Facts shared by the operations, about the result of the engine.
proof fn lemma_engine_result(
    a: Model,
    parts: Seq<u32>,
    ls0: Seq<Seq<usize>>,
    ls: Seq<Seq<usize>>,
    nv: Seq<Seq<char>>,
    ims: Seq<(usize, usize, usize)>,
    b: Model,
    ms: Seq<(u32, Seq<char>, Seq<char>)>,
)
    requires
        ascending(a),
        nv.no_duplicates(),
        below(ls0, nv.len()),
        parts.len() == ls0.len(),
        dec(parts, ls0, nv) == a,
        iapply(ls0, ims) == ls,
        forall|k: int| 0 <= k < ims.len() ==> {
            &&& (#[trigger] ims[k]).0 < ls0.len()
            &&& ims[k].1 < nv.len()
            &&& ims[k].2 < nv.len()
        },
        b == dec(parts, ls, nv),
        ms == dec_moves(parts, ims, nv),
        all_distinct(ls),
    ensures
        apply_moves(a, ms) == b,
        ascending(b),
        same_partitions(a, b),
        lists_distinct(b),
        below(ls, nv.len()),
        ls.len() == ls0.len(),
{
    assert(injective_keys(parts, ls0.len())) by {
        assert forall|x: int, y: int| 0 <= x < ls0.len() && 0 <= y < ls0.len() && x != y implies parts[x] != parts[y] by {
            assert(a[x].0 == parts[x] && a[y].0 == parts[y]);
            if x < y {
                assert(a[x].0 < a[y].0);
            } else {
                assert(a[y].0 < a[x].0);
            }
        }
    }
    lemma_dec_moves(parts, ls0, nv, ims);
    lemma_dec_distinct(parts, ls, nv);
    assert(same_partitions(a, b)) by {
        assert forall|e: int| 0 <= e < a.len() implies (#[trigger] a[e]).0 == b[e].0 by {
            assert(a[e].0 == parts[e]);
        }
    }
    assert(ascending(b)) by {
        assert forall|i: int, j: int| 0 <= i < j < b.len() implies b[i].0 < b[j].0 by {
            assert(a[i].0 < a[j].0);
            assert(a[i].0 == b[i].0);
            assert(a[j].0 == b[j].0);
        }
    }
}

/// What the balancing phase of a removal yields, by name.
proof fn lemma_balancing_after_fill(
    a: Model,
    x: Seq<char>,
    parts: Seq<u32>,
    ls0: Seq<Seq<usize>>,
    ls_mid: Seq<Seq<usize>>,
    ls: Seq<Seq<usize>>,
    nv: Seq<Seq<char>>,
    nv0: Seq<Seq<char>>,
    ix: int,
    mid_moves: Seq<(usize, usize, usize)>,
    moves: Seq<(usize, usize, usize)>,
    loads_mid: Seq<usize>,
    loads: Seq<usize>,
    ms: Seq<(u32, Seq<char>, Seq<char>)>,
    b: Model,
)
    requires
        ascending(a),
        ascending_names(nv0),
        nv0.no_duplicates(),
        0 <= ix < nv0.len(),
        nv0[ix] == x,
        nv == nv0.remove(ix).push(x),
        nv.no_duplicates(),
        nv.len() <= usize::MAX,
        forall|m: Seq<char>| #[trigger] nv0.contains(m) <==> holds(a, m),
        below(ls0, nv.len()),
        parts.len() == ls0.len(),
        dec(parts, ls0, nv) == a,
        iapply(ls0, mid_moves) == ls_mid,
        ls_mid.len() == ls0.len(),
        ls_mid.len() <= usize::MAX,
        below(ls_mid, nv.len()),
        loads_mid.len() == nv.len(),
        forall|i: int| 0 <= i < nv.len() ==> loads_mid[i] == icount(ls_mid, i as usize),
        loads_mid[nv.len() - 1] == 0,
        mid_moves.len() == load(a, x),
        forall|k: int| 0 <= k < mid_moves.len() ==> {
            &&& (#[trigger] mid_moves[k]).0 < ls0.len()
            &&& mid_moves[k].1 < nv.len()
            &&& mid_moves[k].2 < nv.len()
        },
        nv.len() >= 2,
        moves == mid_moves + balance_moves(ls_mid, nv.len() as nat, (nv.len() - 1) as nat),
        ls == iapply(ls_mid, balance_moves(ls_mid, nv.len() as nat, (nv.len() - 1) as nat)),
        below(ls, nv.len()),
        loads.len() == nv.len(),
        forall|i: int| 0 <= i < nv.len() ==> loads[i] == icount(ls, i as usize),
        loads[nv.len() - 1] == 0,
        forall|k: int| mid_moves.len() <= k < moves.len() ==>
            (#[trigger] moves[k]).1 < nv.len() - 1 && moves[k].2 < nv.len() - 1,
        ms == dec_moves(parts, moves, nv),
        b == dec(parts, ls, nv),
    ensures
        table_for(node_set(a).remove(x)) == nv.take(nv.len() - 1),
        ms.take(load(a, x) as int) == dec_moves(parts, mid_moves, nv),
        ms.skip(load(a, x) as int) == balancing_moves(apply_moves(a, ms.take(load(a, x) as int)), node_set(a).remove(x)),
        b == balanced_over(apply_moves(a, ms.take(load(a, x) as int)), node_set(a).remove(x)),
{
    let xi = (nv.len() - 1) as int;
    let q = nv.take(xi);
    let f = load(a, x) as int;
    let ns = node_set(a).remove(x);
    assert(q =~= nv0.remove(ix));
    // Nothing lists the removed node before or after balancing.
    assert(below(ls_mid, xi as nat)) by {
        assert forall|e: int, j: int| 0 <= e < ls_mid.len() && 0 <= j < ls_mid[e].len() implies ls_mid[e][j] < xi by {
            if ls_mid[e][j] == xi as usize {
                assert(ls_mid[e].contains(xi as usize));
                crate::engine::lemma_icount_pos(ls_mid, xi as usize, e);
            }
        }
    }
    assert(below(ls, xi as nat)) by {
        assert forall|e: int, j: int| 0 <= e < ls.len() && 0 <= j < ls[e].len() implies ls[e][j] < xi by {
            if ls[e][j] == xi as usize {
                assert(ls[e].contains(xi as usize));
                crate::engine::lemma_icount_pos(ls, xi as usize, e);
            }
        }
    }
    // The table of the remaining nodes.
    assert(ascending_names(q)) by {
        assert forall|i: int, j: int| 0 <= i < j < q.len() implies crate::names::lex_lt(q[i], q[j]) by {
            let i0 = if i < ix { i } else { i + 1 };
            let j0 = if j < ix { j } else { j + 1 };
            assert(q[i] == nv0[i0] && q[j] == nv0[j0]);
        }
    }
    assert(q.no_duplicates()) by {
        assert forall|i: int, j: int| 0 <= i < q.len() && 0 <= j < q.len() && i != j implies q[i] != q[j] by {
            assert(q[i] == nv[i] && q[j] == nv[j]);
        }
    }
    crate::table::lemma_to_end(nv0, ix);
    assert forall|m: Seq<char>| #[trigger] q.contains(m) <==> ns.contains(m) by {}
    // The assignment after the first moves.
    let mid = dec(parts, ls_mid, nv);
    assert(injective_keys(parts, ls0.len())) by {
        assert forall|u: int, v: int| 0 <= u < ls0.len() && 0 <= v < ls0.len() && u != v implies parts[u] != parts[v] by {
            assert(a[u].0 == parts[u] && a[v].0 == parts[v]);
            if u < v { assert(a[u].0 < a[v].0); } else { assert(a[v].0 < a[u].0); }
        }
    }
    lemma_dec_moves(parts, ls0, nv, mid_moves);
    assert(moves.take(f) =~= mid_moves);
    assert(ms.take(f) =~= dec_moves(parts, mid_moves, nv));
    assert(mid == apply_moves(a, ms.take(f)));
    assert(dec(parts, ls_mid, q) =~= mid) by {
        assert forall|e: int| 0 <= e < ls_mid.len() implies #[trigger] dec(parts, ls_mid, q)[e] == mid[e] by {
            assert(crate::table::dec_list(ls_mid[e], q) =~= crate::table::dec_list(ls_mid[e], nv)) by {
                assert forall|j: int| 0 <= j < ls_mid[e].len() implies ls_mid[e][j] < xi by {}
            }
        }
    }
    lemma_table_is_canonical(mid, ns, q, parts, ls_mid);
    crate::engine::lemma_balance_moves_table(ls_mid, nv.len() as nat, xi as nat, xi as nat);
    let bm = balance_moves(ls_mid, nv.len() as nat, xi as nat);
    assert(moves.skip(f) =~= bm);
    assert(ms.skip(f) =~= dec_moves(parts, bm, q)) by {
        assert forall|k: int| 0 <= k < bm.len() implies #[trigger] dec_moves(parts, bm, q)[k] == ms.skip(f)[k] by {
            assert(bm[k] == moves[f + k]);
            assert(moves[f + k].1 < xi && moves[f + k].2 < xi);
        }
    }
    assert(b =~= dec(parts, ls, q)) by {
        assert forall|e: int| 0 <= e < ls.len() implies #[trigger] dec(parts, ls, q)[e] == b[e] by {
            assert(crate::table::dec_list(ls[e], q) =~= crate::table::dec_list(ls[e], nv)) by {
                assert forall|j: int| 0 <= j < ls[e].len() implies ls[e][j] < xi by {}
            }
        }
    }
}

impl Assignment {
    /// Removes node `remove`, gives each partition that held it a surviving node
    /// in its place, and balances the surviving nodes; returns the new
    /// assignment and the moves, in the order they were decided.
    pub fn remove_node(&self, remove: &Node, replication_factor: usize) -> (r: Result<(Assignment, Vec<Move>), AssignError>)
        requires
            self.wf(),
        ensures
            !lists_sized(self@, replication_factor as nat)
                ==> r == Err::<(Assignment, Vec<Move>), AssignError>(AssignError::InvariantViolation),
            lists_sized(self@, replication_factor as nat) && !holds(self@, remove@)
                ==> r == Err::<(Assignment, Vec<Move>), AssignError>(AssignError::InvalidRequest),
            lists_sized(self@, replication_factor as nat) && holds(self@, remove@)
                && node_set(self@).len() <= replication_factor
                ==> r == Err::<(Assignment, Vec<Move>), AssignError>(AssignError::InsufficientNodes),
            lists_sized(self@, replication_factor as nat) && holds(self@, remove@)
                && node_set(self@).len() > replication_factor ==> r is Ok,
            r is Ok ==> (r->Ok_0).0.wf() && removal(self@, remove@, replication_factor as nat, (r->Ok_0).0@, moves_of((r->Ok_0).1@)),
    {
        if !self.has_sized_lists(replication_factor) {
            return Err(AssignError::InvariantViolation);
        }
        if !self.contains_node(remove) {
            return Err(AssignError::InvalidRequest);
        }
        let none: Vec<Node> = Vec::new();
        let mut names = build_table(self, &none);
        let ghost nv0 = names_of(names@);
        proof {
            assert forall|m: Seq<char>| #[trigger] nv0.contains(m) <==> holds(self@, m) by {
                assert(!names_of(none@).contains(m));
            }
            lemma_node_count(self@, nv0);
        }
        if names.len() <= replication_factor {
            return Err(AssignError::InsufficientNodes);
        }
        let ix = find_name(&names, remove);
        proof {
            if ix is None {
                assert(nv0.contains(remove@));
            }
        }
        let ix = ix.unwrap();
        let x = names.remove(ix);
        names.push(x);
        let ghost nv = names_of(names@);
        proof {
            assert(nv =~= nv0.remove(ix as int).push(nv0[ix as int]));
            lemma_to_end(nv0, ix as int);
        }
        let (parts, lists) = index_lists(self, &names);
        let n = names.len();
        let xi = n - 1;
        let ghost ls0 = lists_view(lists@);
        proof {
            lemma_index_distinct(parts@, ls0, nv);
            assert(lists@.map_values(|l: Vec<usize>| l@) =~= ls0);
            // Some list holds the node, so lists are not empty.
            let e = choose|e: int| 0 <= e < self@.len() && (#[trigger] self@[e]).1.contains(remove@);
            assert(self@[e].1.len() == replication_factor);
        }
        let mut work = Work::new(lists, n);
        proof {
            assert forall|e: int| 0 <= e < work.lists.len() implies (#[trigger] work.lists[e]).len() <= xi by {
                assert(self@[e].1.len() == replication_factor);
                assert(work.ls()[e] == ls0[e]);
                assert(self@[e].1.len() == ls0[e].len());
            }
        }
        let ghost loads0 = work.loads@;
        work.fill_orphans(xi);
        let ghost mid_moves = work.moves@;
        let ghost ls_mid = work.ls();
        let ghost loads_mid = work.loads@;
        work.balance(xi);
        let b = decode(&parts, &work.lists, &names);
        let ms = decode_moves(&work.moves, &parts, &names);
        proof {
            let ls = work.ls();
            assert(lists_view(work.lists@) =~= ls);
            lemma_engine_result(self@, parts@, ls0, ls, nv, work.moves@, b@, moves_of(ms@));
            // Every list keeps its length.
            assert forall|e: int| 0 <= e < b@.len() implies (#[trigger] b@[e]).1.len() == replication_factor by {
                assert(self@[e].1.len() == replication_factor);
                assert(self@[e].1.len() == ls0[e].len());
                assert(b@[e].1.len() == ls[e].len());
                assert(ls[e].len() == work.lists[e]@.len());
            }
            // The removed node is on no list.
            lemma_load_dec(parts@, ls, nv, xi);
            assert(nv[xi as int] == remove@);
            if holds(b@, remove@) {
                let e = choose|e: int| 0 <= e < b@.len() && (#[trigger] b@[e]).1.contains(remove@);
                lemma_load_pos(b@, remove@, e);
            }
            // The surviving nodes are balanced.
            assert forall|m: Seq<char>| node_set(self@).remove(remove@).contains(m) <==> #[trigger] nv.take(xi as int).contains(m) by {
                assert(nv.take(xi as int) =~= nv0.remove(ix as int));
            }
            lemma_balanced_result(parts@, ls, nv, work.loads@, xi as int, node_set(self@).remove(remove@));
            // The first moves replace the removed node.
            lemma_load_dec(parts@, ls0, nv, xi);
            assert(loads0[xi as int] == load(self@, remove@));
            lemma_balancing_after_fill(
                self@, remove@, parts@, ls0, ls_mid, ls, nv, nv0, ix as int, mid_moves, work.moves@,
                loads_mid, work.loads@, moves_of(ms@), b@,
            );
            lemma_encode(self@, nv, parts@, ls0);
            assert(mid_moves =~= fill_moves(ls0, xi));
            assert(nv =~= nv.take(xi as int).push(remove@));
            assert(removal_table(self@, remove@) == nv);
            assert forall|k: int| 0 <= k < load(self@, remove@) implies (#[trigger] moves_of(ms@)[k]).1 == remove@ by {
                assert(work.moves@[k] == mid_moves[k]);
                assert(mid_moves[k].1 == xi);
            }
            let wm = work.moves@;
            assert forall|k: int| 0 <= k < wm.len() implies wm[k].2 < xi && wm[k].1 != wm[k].2
                && (k >= mid_moves.len() ==> wm[k].1 < xi) by {
                if k < mid_moves.len() {
                    assert(wm[k] == mid_moves[k]);
                } else {
                    assert(work.moves[k].2 < xi);
                }
            }
            assert forall|k: int| load(self@, remove@) <= k < moves_of(ms@).len() implies (#[trigger] moves_of(ms@)[k]).1 != remove@ by {
                assert(wm[k].1 < xi);
                assert(moves_of(ms@)[k].1 == nv[wm[k].1 as int]);
            }
            assert forall|k: int| 0 <= k < moves_of(ms@).len() implies
                node_set(self@).remove(remove@).contains((#[trigger] moves_of(ms@)[k]).2) by {
                assert(wm[k].2 < xi);
                assert(moves_of(ms@)[k].2 == nv[wm[k].2 as int]);
                assert(nv.take(xi as int)[wm[k].2 as int] == nv[wm[k].2 as int]);
                assert(nv.take(xi as int).contains(nv[wm[k].2 as int]));
            }
            assert forall|k: int| 0 <= k < moves_of(ms@).len() implies (#[trigger] moves_of(ms@)[k]).1 != moves_of(ms@)[k].2 by {
                assert(moves_of(ms@)[k].1 == nv[wm[k].1 as int]);
                assert(moves_of(ms@)[k].2 == nv[wm[k].2 as int]);
                assert(wm[k].1 < nv.len() && wm[k].2 < nv.len());
            }
        }
        Ok((b, ms))
    }
}


/// The node table for the names `s`: those names in ascending order.
pub open spec fn table_for(s: Set<Seq<char>>) -> Seq<Seq<char>> {
    choose|q: Seq<Seq<char>>| ascending_names(q) && forall|m: Seq<char>| #[trigger] q.contains(m) <==> s.contains(m)
}

/// The position of name `m` in table `q`.
pub open spec fn pos_in(q: Seq<Seq<char>>, m: Seq<char>) -> int {
    choose|i: int| 0 <= i < q.len() && q[i] == m
}

/// The lists of `a` as positions in table `q`.
pub open spec fn encode(a: Model, q: Seq<Seq<char>>) -> Seq<Seq<usize>> {
    Seq::new(a.len(), |e: int| a[e].1.map_values(|m: Seq<char>| pos_in(q, m) as usize))
}

pub open spec fn keys_of(a: Model) -> Seq<u32> {
    a.map_values(|x: (u32, Seq<Seq<char>>)| x.0)
}

/// The boundary balancing of `a` over the nodes `s`, by table position, that
/// is by name: its moves, and the assignment they lead to.
pub open spec fn balancing_moves(a: Model, s: Set<Seq<char>>) -> Seq<(u32, Seq<char>, Seq<char>)> {
    let q = table_for(s);
    dec_moves(keys_of(a), balance_moves(encode(a, q), q.len(), q.len()), q)
}

pub open spec fn balanced_over(a: Model, s: Set<Seq<char>>) -> Model {
    let q = table_for(s);
    let ls = encode(a, q);
    dec(keys_of(a), iapply(ls, balance_moves(ls, q.len(), q.len())), q)
}

proof fn lemma_encode(a: Model, nv: Seq<Seq<char>>, parts: Seq<u32>, ls0: Seq<Seq<usize>>)
    requires
        nv.no_duplicates(),
        below(ls0, nv.len()),
        parts.len() == ls0.len(),
        dec(parts, ls0, nv) == a,
    ensures
        encode(a, nv) == ls0,
        keys_of(a) == parts,
{
    assert forall|e: int| 0 <= e < a.len() implies #[trigger] encode(a, nv)[e] == ls0[e] by {
        assert forall|j: int| 0 <= j < ls0[e].len() implies #[trigger] encode(a, nv)[e][j] == ls0[e][j] by {
            let m = a[e].1[j];
            assert(nv[ls0[e][j] as int] == m);
            let i = pos_in(nv, m);
            assert(0 <= i < nv.len() && nv[i] == m);
        }
        assert(encode(a, nv)[e] =~= ls0[e]);
    }
    assert(encode(a, nv) =~= ls0);
    assert(keys_of(a) =~= parts);
}

/// The table built for `s`, positions of `a` in it, give the encoding above.
proof fn lemma_table_is_canonical(
    a: Model,
    s: Set<Seq<char>>,
    nv: Seq<Seq<char>>,
    parts: Seq<u32>,
    ls0: Seq<Seq<usize>>,
)
    requires
        ascending_names(nv),
        nv.no_duplicates(),
        forall|m: Seq<char>| #[trigger] nv.contains(m) <==> s.contains(m),
        below(ls0, nv.len()),
        parts.len() == ls0.len(),
        dec(parts, ls0, nv) == a,
    ensures
        table_for(s) == nv,
        encode(a, nv) == ls0,
        keys_of(a) == parts,
{
    let q = table_for(s);
    assert(ascending_names(q) && forall|m: Seq<char>| #[trigger] q.contains(m) <==> s.contains(m));
    assert forall|m: Seq<char>| #![trigger q.contains(m)] #![trigger nv.contains(m)] q.contains(m) <==> nv.contains(m) by {}
    lemma_ascending_unique(q, nv);
    lemma_encode(a, nv, parts, ls0);
}

/// What balancing `a` over its own nodes and the nodes `extra` yields: the same
/// partitions, lists of the same lengths without repeated nodes, those nodes
/// balanced, and `ms` turning `a` into `b`, each move between two of those
/// nodes; `b` and `ms` are exactly those of the boundary balancing by name,
/// and every node of `a` keeps a replica.
pub open spec fn spread(a: Model, extra: Set<Seq<char>>, b: Model, ms: Seq<(u32, Seq<char>, Seq<char>)>) -> bool {
    &&& ascending(b)
    &&& same_partitions(a, b)
    &&& forall|e: int| 0 <= e < a.len() ==> (#[trigger] b[e]).1.len() == a[e].1.len()
    &&& lists_distinct(b)
    &&& balanced(b, node_set(a).union(extra))
    &&& apply_moves(a, ms) == b
    &&& b == balanced_over(a, node_set(a).union(extra))
    &&& ms == balancing_moves(a, node_set(a).union(extra))
    &&& node_set(a).subset_of(node_set(b))
    &&& forall|k: int| 0 <= k < ms.len() ==> {
        &&& node_set(a).union(extra).contains((#[trigger] ms[k]).1)
        &&& node_set(a).union(extra).contains(ms[k].2)
        &&& ms[k].1 != ms[k].2
    }
}

/// Balances `a` over its own nodes and the nodes of `extra`.
fn rebalance(a: &Assignment, extra: &Vec<Node>) -> (r: (Assignment, Vec<Move>))
    requires
        a.wf(),
        lists_distinct(a@),
        extra.len() > 0,
    ensures
        r.0.wf(),
        spread(a@, names_of(extra@).to_set(), r.0@, moves_of(r.1@)),
{
    let names = build_table(a, extra);
    let ghost nv = names_of(names@);
    let (parts, lists) = index_lists(a, &names);
    let n = names.len();
    let ghost ls0 = lists_view(lists@);
    proof {
        lemma_index_distinct(parts@, ls0, nv);
        assert(lists@.map_values(|l: Vec<usize>| l@) =~= ls0);
        assert(names_of(extra@).contains(extra[0]@)) by {
            assert(names_of(extra@)[0] == extra[0]@);
        }
        assert(nv.contains(extra[0]@));
    }
    let mut work = Work::new(lists, n);
    let ghost loads0 = work.loads@;
    work.balance(n);
    let b = decode(&parts, &work.lists, &names);
    let ms = decode_moves(&work.moves, &parts, &names);
    proof {
        let ls = work.ls();
        assert(lists_view(work.lists@) =~= ls);
        let s = node_set(a@).union(names_of(extra@).to_set());
        assert forall|m: Seq<char>| #[trigger] nv.contains(m) <==> s.contains(m) by {}
        lemma_table_is_canonical(a@, s, nv, parts@, ls0);
        assert(work.moves@ =~= balance_moves(ls0, n as nat, n as nat));
        // Every node of `a` keeps a replica.
        assert forall|m: Seq<char>| node_set(a@).contains(m) implies node_set(b@).contains(m) by {
            assert(nv.contains(m));
            let i = choose|i: int| 0 <= i < nv.len() && nv[i] == m;
            lemma_load_dec(parts@, ls0, nv, i as usize);
            lemma_load_dec(parts@, ls, nv, i as usize);
            let e = choose|e: int| 0 <= e < a@.len() && (#[trigger] a@[e]).1.contains(m);
            lemma_load_pos(a@, m, e);
            assert(loads0[i] >= 1);
            assert(work.loads[i] >= 1);
            crate::table::lemma_loaded_is_held(b@, m);
        }
        lemma_engine_result(a@, parts@, ls0, ls, nv, work.moves@, b@, moves_of(ms@));
        assert forall|e: int| 0 <= e < a@.len() implies (#[trigger] b@[e]).1.len() == a@[e].1.len() by {
            assert(a@[e].1.len() == ls0[e].len());
            assert(b@[e].1.len() == ls[e].len());
            assert(ls[e].len() == work.lists[e]@.len());
        }
        let ns = node_set(a@).union(names_of(extra@).to_set());
        assert forall|m: Seq<char>| ns.contains(m) <==> #[trigger] nv.take(n as int).contains(m) by {
            assert(nv.take(n as int) =~= nv);
        }
        lemma_balanced_result(parts@, ls, nv, work.loads@, n as int, ns);
        assert forall|k: int| 0 <= k < moves_of(ms@).len() implies {
            &&& ns.contains((#[trigger] moves_of(ms@)[k]).1)
            &&& ns.contains(moves_of(ms@)[k].2)
            &&& moves_of(ms@)[k].1 != moves_of(ms@)[k].2
        } by {
            let m = work.moves@[k];
            assert(work.moves[k].1 < n && work.moves[k].2 < n && work.moves[k].1 != work.moves[k].2);
            assert(moves_of(ms@)[k].1 == nv[m.1 as int]);
            assert(moves_of(ms@)[k].2 == nv[m.2 as int]);
            assert(nv.take(n as int) =~= nv);
            assert(nv.contains(nv[m.1 as int]));
            assert(nv.contains(nv[m.2 as int]));
        }
    }
    (b, ms)
}

impl Assignment {
    /// Adds the nodes `adds`, which start with no replica, and balances the
    /// assignment by moving one replica at a time from a most loaded node to a
    /// least loaded one; returns the new assignment and the moves.
    pub fn add_nodes(self, adds: Vec<Node>) -> (r: Result<(Assignment, Vec<Move>), AssignError>)
        requires
            self.wf(),
        ensures
            adds.len() == 0 || !names_of(adds@).no_duplicates()
                ==> r == Err::<(Assignment, Vec<Move>), AssignError>(AssignError::InvalidRequest),
            adds.len() > 0 && names_of(adds@).no_duplicates()
                && (exists|k: int| 0 <= k < adds.len() && holds(self@, (#[trigger] adds@[k])@))
                ==> r == Err::<(Assignment, Vec<Move>), AssignError>(AssignError::Conflict),
            adds.len() > 0 && names_of(adds@).no_duplicates()
                && (forall|k: int| 0 <= k < adds.len() ==> !holds(self@, (#[trigger] adds@[k])@))
                && !lists_distinct(self@)
                ==> r == Err::<(Assignment, Vec<Move>), AssignError>(AssignError::InvariantViolation),
            adds.len() > 0 && names_of(adds@).no_duplicates()
                && (forall|k: int| 0 <= k < adds.len() ==> !holds(self@, (#[trigger] adds@[k])@))
                && lists_distinct(self@) ==> r is Ok,
            r is Ok ==> (r->Ok_0).0.wf() && spread(self@, names_of(adds@).to_set(), (r->Ok_0).0@, moves_of((r->Ok_0).1@)),
    {
        if adds.len() == 0 || repeats_a_name(&adds) {
            return Err(AssignError::InvalidRequest);
        }
        let mut k: usize = 0;
        while k < adds.len()
            invariant
                k <= adds.len(),
                adds.len() > 0,
                names_of(adds@).no_duplicates(),
                forall|j: int| 0 <= j < k ==> !holds(self@, (#[trigger] adds@[j])@),
            decreases adds.len() - k,
        {
            if self.contains_node(&adds[k]) {
                return Err(AssignError::Conflict);
            }
            k = k + 1;
        }
        if !self.has_distinct_lists() {
            return Err(AssignError::InvariantViolation);
        }
        Ok(rebalance(&self, &adds))
    }
}


/// What initialising with nodes `ns`, `n` partitions numbered from `base` and
/// replication factor `r` yields: partitions `base .. base + n` in order, each
/// with `r` distinct nodes of `ns`, and exactly the boundary balancing of the
/// window layout over the nodes that the windows use.
pub open spec fn initialised(b: Model, ns: Seq<Seq<char>>, n: nat, r: nat, base: nat) -> bool {
    &&& b.len() == n
    &&& forall|e: int| 0 <= e < b.len() ==> (#[trigger] b[e]).0 == base + e
    &&& lists_sized(b, r)
    &&& balanced(b, node_set(windows(ns, n, r, base)))
    &&& b == balanced_over(windows(ns, n, r, base), node_set(windows(ns, n, r, base)))
    &&& node_set(b).subset_of(ns.to_set())
}

/// The round-robin layout: partition `base + i` gets the window of `r`
/// consecutive nodes from position `i` on the cycle of `ns`.
pub open spec fn windows(ns: Seq<Seq<char>>, n: nat, r: nat, base: nat) -> Model {
    Seq::new(n, |i: int| ((base + i) as u32, Seq::new(r, |j: int| ns[(i + j) % (ns.len() as int)])))
}

proof fn lemma_wrap(i: int, c: int, q: int, k: int)
    requires
        k > 0,
        i >= 0,
        c == i % k,
        0 <= q <= k,
    ensures
        wrap(c, q, k) == (i + q) % k,
{
    vstd::arithmetic::div_mod::lemma_fundamental_div_mod(i, k);
    vstd::arithmetic::div_mod::lemma_mod_bound(i, k);
    let d = i / k;
    if c + q < k {
        assert(i + q == d * k + (c + q)) by (nonlinear_arith) requires i == k * d + c;
        vstd::arithmetic::div_mod::lemma_fundamental_div_mod_converse(i + q, k, d, c + q);
    } else {
        assert(i + q == (d + 1) * k + (c + q - k)) by (nonlinear_arith) requires i == k * d + c;
        vstd::arithmetic::div_mod::lemma_fundamental_div_mod_converse(i + q, k, d + 1, c + q - k);
    }
}

/// Position `c + j` on a cycle of `k` places.
pub open spec fn wrap(c: int, j: int, k: int) -> int {
    if c + j < k { c + j } else { c + j - k }
}

impl Assignment {
    /// Assigns partition `base + i`, for `i` below `partitions`, the `i`-th
    /// window of `replication_factor` consecutive nodes on the cycle of `nodes`,
    /// where `base` is 0 or 1 as `starts_with_zero` says, then balances the
    /// nodes that the windows use. The balancing moves are not reported: there
    /// is no cluster yet.
    pub fn init(
        nodes: &[Node],
        partitions: usize,
        replication_factor: usize,
        starts_with_zero: bool,
    ) -> (r: Result<Assignment, AssignError>)
        requires
            partitions <= u32::MAX,
        ensures
            r is Err <==> (nodes@.len() == 0 || partitions == 0 || replication_factor == 0
                || nodes@.len() < replication_factor || !names_of(nodes@).no_duplicates()),
            r is Err ==> r == Err::<Assignment, AssignError>(AssignError::InvalidConfig),
            r is Ok ==> (r->Ok_0).wf() && initialised(
                (r->Ok_0)@,
                names_of(nodes@),
                partitions as nat,
                replication_factor as nat,
                if starts_with_zero { 0nat } else { 1nat },
            ),
    {
        let k = nodes.len();
        if k == 0 || partitions == 0 || replication_factor == 0 || k < replication_factor {
            return Err(AssignError::InvalidConfig);
        }
        let mut all: Vec<Node> = Vec::new();
        let mut i: usize = 0;
        while i < k
            invariant
                k == nodes@.len(),
                i <= k,
                all.len() == i,
                forall|j: int| 0 <= j < i ==> (#[trigger] all[j])@ == nodes@[j]@,
            decreases k - i,
        {
            all.push(nodes[i].duplicate());
            i = i + 1;
        }
        let ghost nv = names_of(nodes@);
        assert(names_of(all@) =~= nv);
        if repeats_a_name(&all) {
            return Err(AssignError::InvalidConfig);
        }
        let base: u32 = if starts_with_zero { 0 } else { 1 };
        let mut entries: Vec<(Partition, Vec<Node>)> = Vec::new();
        let mut c: usize = 0;
        let mut i: usize = 0;
        while i < partitions
            invariant
                k == all.len(),
                names_of(all@) == nv,
                nv.no_duplicates(),
                0 < replication_factor <= k,
                partitions <= u32::MAX,
                base <= 1,
                i <= partitions,
                c < k,
                c == i as int % k as int,
                entries.len() == i,
                forall|e: int| 0 <= e < i ==> #[trigger] model_of(entries@)[e]
                    == windows(nv, partitions as nat, replication_factor as nat, base as nat)[e],
                forall|e: int| 0 <= e < i ==> (#[trigger] model_of(entries@)[e]).0 == base + e,
                forall|e: int| 0 <= e < i ==> (#[trigger] model_of(entries@)[e]).1.len() == replication_factor,
                forall|e: int| 0 <= e < i ==> (#[trigger] model_of(entries@)[e]).1.no_duplicates(),
                forall|e: int, m: Seq<char>| 0 <= e < i && (#[trigger] model_of(entries@)[e]).1.contains(m) ==> #[trigger] nv.contains(m),
            decreases partitions - i,
        {
            let mut l: Vec<Node> = Vec::new();
            let mut j: usize = 0;
            while j < replication_factor
                invariant
                    k == all.len(),
                    names_of(all@) == nv,
                    0 < replication_factor <= k,
                    c < k,
                    j <= replication_factor,
                    l.len() == j,
                    forall|q: int| 0 <= q < j ==> (#[trigger] l[q])@ == nv[wrap(c as int, q, k as int)],
                decreases replication_factor - j,
            {
                let pos = if j < k - c { c + j } else { j - (k - c) };
                l.push(all[pos].duplicate());
                j = j + 1;
            }
            let ghost lv = names_of(l@);
            let ghost w = windows(nv, partitions as nat, replication_factor as nat, base as nat);
            proof {
                assert forall|q: int| 0 <= q < replication_factor implies #[trigger] lv[q] == nv[(i + q) % (k as int)] by {
                    lemma_wrap(i as int, c as int, q, k as int);
                }
                assert(lv =~= w[i as int].1);
                assert forall|q1: int, q2: int| 0 <= q1 < lv.len() && 0 <= q2 < lv.len() && q1 != q2 implies lv[q1] != lv[q2] by {
                    assert(lv[q1] == nv[wrap(c as int, q1, k as int)]);
                    assert(lv[q2] == nv[wrap(c as int, q2, k as int)]);
                }
            }
            let ghost m0 = model_of(entries@);
            entries.push((Partition(base + i as u32), l));
            proof {
                let m1 = model_of(entries@);
                assert(m1 =~= m0.push(((base + i) as u32, lv)));
                assert forall|e: int, m: Seq<char>| 0 <= e < i + 1 && (#[trigger] m1[e]).1.contains(m) implies #[trigger] nv.contains(m) by {
                    if e < i {
                        assert(m1[e] == m0[e]);
                    } else {
                        let q = choose|q: int| 0 <= q < lv.len() && lv[q] == m;
                        assert(lv[q] == nv[wrap(c as int, q, k as int)]);
                    }
                }
                assert forall|e: int| 0 <= e < i + 1 implies #[trigger] m1[e] == w[e] by {
                    if e < i {
                        assert(m1[e] == m0[e]);
                    }
                }
                assert forall|e: int| 0 <= e < i + 1 implies (#[trigger] m1[e]).0 == base + e by {
                    if e < i {
                        assert(m1[e] == m0[e]);
                    }
                }
                assert forall|e: int| 0 <= e < i + 1 implies (#[trigger] m1[e]).1.len() == replication_factor by {
                    if e < i {
                        assert(m1[e] == m0[e]);
                    }
                }
                assert forall|e: int| 0 <= e < i + 1 implies (#[trigger] m1[e]).1.no_duplicates() by {
                    if e < i {
                        assert(m1[e] == m0[e]);
                    }
                }
            }
            proof {
                lemma_wrap(i as int, c as int, 1, k as int);
            }
            c = if c + 1 < k { c + 1 } else { 0 };
            i = i + 1;
        }
        let a0 = Assignment { entries };
        proof {
            lemma_view_def(&a0);
            assert(ascending(a0@));
        }
        // Balance over the nodes that the windows use: those of the first
        // window are among them.
        let mut first: Vec<Node> = Vec::new();
        let mut j: usize = 0;
        while j < a0.entries[0].1.len()
            invariant
                a0@ == model_of(a0.entries@),
                a0.entries.len() == partitions,
                partitions > 0,
                j <= a0.entries[0].1.len(),
                first.len() == j,
                forall|q: int| 0 <= q < j ==> (#[trigger] first[q])@ == a0@[0].1[q],
            decreases a0.entries[0].1.len() - j,
        {
            first.push(a0.entries[0].1[j].duplicate());
            j = j + 1;
        }
        proof {
            assert(names_of(first@) =~= a0@[0].1);
            assert(a0@[0].1.len() == replication_factor);
        }
        let (b, _moves) = rebalance(&a0, &first);
        proof {
            assert(a0@ =~= windows(nv, partitions as nat, replication_factor as nat, base as nat));
            assert(node_set(a0@).union(names_of(first@).to_set()) =~= node_set(a0@)) by {
                assert forall|m: Seq<char>| names_of(first@).to_set().contains(m) implies node_set(a0@).contains(m) by {
                    assert(a0@[0].1.contains(m));
                }
            }
            assert(node_set(b@).subset_of(nv.to_set())) by {
                assert forall|m: Seq<char>| node_set(b@).contains(m) implies nv.to_set().contains(m) by {
                    assert(node_set(a0@).contains(m));
                    let e = choose|e: int| 0 <= e < a0@.len() && (#[trigger] a0@[e]).1.contains(m);
                    assert(nv.contains(m));
                }
            }
            assert forall|e: int| 0 <= e < b@.len() implies (#[trigger] b@[e]).0 == base + e by {
                assert(a0@[e].0 == b@[e].0);
            }
            assert forall|e: int| 0 <= e < b@.len() implies (#[trigger] b@[e]).1.len() == replication_factor by {
                assert(a0@[e].1.len() == replication_factor);
            }
        }
        Ok(b)
    }
}


/// Whether `a` is a valid assignment of `n` partitions with replication factor
/// `r`: its partitions are exactly `base .. base + n`, where `base`, its least
/// partition, is 0 or 1; every list has `r` distinct nodes; and every node's
/// load lies between the floor and the ceiling of `n * r` over the number of nodes.
pub open spec fn valid(a: Model, n: nat, r: nat) -> bool {
    &&& a.len() > 0
    &&& a[0].0 <= 1
    &&& a.len() == n
    &&& forall|e: int| 0 <= e < a.len() ==> (#[trigger] a[e]).0 == a[0].0 + e
    &&& lists_sized(a, r)
    &&& forall|m: Seq<char>| #[trigger] node_set(a).contains(m) ==> {
        &&& (n * r) as int / node_set(a).len() as int <= load(a, m)
        &&& load(a, m) <= (n * r + node_set(a).len() - 1) as int / node_set(a).len() as int
    }
}

impl Assignment {
    /// Checks that this is a valid assignment of `partitions` partitions with
    /// replication factor `replication_factor`; fails with
    /// `InvariantViolation` otherwise.
    pub fn validate(&self, partitions: usize, replication_factor: usize) -> (r: Result<(), AssignError>)
        requires
            self.wf(),
        ensures
            r is Ok <==> valid(self@, partitions as nat, replication_factor as nat),
            r is Err ==> r == Err::<(), AssignError>(AssignError::InvariantViolation),
    {
        proof {
            lemma_view_def(self);
        }
        let len = self.entries.len();
        if len == 0 || len != partitions {
            return Err(AssignError::InvariantViolation);
        }
        let base = self.entries[0].0.0;
        assert(self@[0].0 == base);
        if base > 1 {
            return Err(AssignError::InvariantViolation);
        }
        let mut e: usize = 0;
        while e < len
            invariant
                self@ == model_of(self.entries@),
                len == self.entries.len(),
                self@[0].0 == base,
                e <= len,
                forall|k: int| 0 <= k < e ==> (#[trigger] self@[k]).0 == base + k,
            decreases len - e,
        {
            let p = self.entries[e].0.0;
            assert(self@[e as int].0 == p);
            if p < base || (p - base) as usize != e {
                return Err(AssignError::InvariantViolation);
            }
            e = e + 1;
        }
        if !self.has_sized_lists(replication_factor) {
            return Err(AssignError::InvariantViolation);
        }
        let none: Vec<Node> = Vec::new();
        let names = build_table(self, &none);
        let ghost nv = names_of(names@);
        proof {
            assert forall|m: Seq<char>| #[trigger] nv.contains(m) <==> holds(self@, m) by {
                assert(!names_of(none@).contains(m));
            }
            lemma_node_count(self@, nv);
        }
        let (parts, lists) = index_lists(self, &names);
        let ghost ls0 = lists_view(lists@);
        proof {
            lemma_index_distinct(parts@, ls0, nv);
            assert(lists@.map_values(|l: Vec<usize>| l@) =~= ls0);
        }
        let work = Work::new(lists, names.len());
        let k = names.len() as u128;
        assert((partitions as int) * (replication_factor as int) + (names.len() as int) <= u128::MAX) by (nonlinear_arith)
            requires
                partitions <= u64::MAX,
                replication_factor <= u64::MAX,
                names.len() <= u64::MAX;
        let t = (partitions as u128) * (replication_factor as u128);
        let ghost kk = node_set(self@).len() as int;
        let ghost tt = (partitions * replication_factor) as int;
        assert(t == tt);
        if k == 0 {
            // No node: the lists are empty and every node trivially balanced.
            proof {
                assert forall|m: Seq<char>| #[trigger] node_set(self@).contains(m) implies false by {
                    assert(nv.contains(m));
                }
            }
            return Ok(());
        }
        let lower = t / k;
        let upper = (t + k - 1) / k;
        let mut i: usize = 0;
        while i < names.len()
            invariant
                work.wf(),
                work.ls() == ls0,
                work.loads.len() == names.len(),
                nv == names_of(names@),
                nv.no_duplicates(),
                forall|m: Seq<char>| #[trigger] nv.contains(m) <==> holds(self@, m),
                below(ls0, nv.len()),
                parts@.len() == ls0.len(),
                dec(parts@, ls0, nv) == self@,
                kk == names.len(),
                kk == node_set(self@).len(),
                tt == (partitions * replication_factor) as int,
                k == kk,
                t == tt,
                lower == tt / kk,
                upper == (tt + kk - 1) / kk,
                i <= names.len(),
                forall|j: int| 0 <= j < i ==> lower <= #[trigger] load(self@, nv[j]) <= upper,
            decreases names.len() - i,
        {
            proof {
                lemma_load_dec(parts@, ls0, nv, i);
            }
            let li = work.loads[i] as u128;
            if li < lower || li > upper {
                proof {
                    assert(work.loads[i as int] == icount(ls0, i));
                    assert(nv.contains(nv[i as int]));
                    assert(node_set(self@).contains(nv[i as int]));
                    assert(load(self@, nv[i as int]) == li);
                    assert(node_set(self@).len() == kk);
                    assert(!(tt / kk <= load(self@, nv[i as int]) && load(self@, nv[i as int]) <= (tt + kk - 1) / kk));
                }
                return Err(AssignError::InvariantViolation);
            }
            i = i + 1;
        }
        proof {
            assert forall|m: Seq<char>| #[trigger] node_set(self@).contains(m) implies {
                &&& tt / kk <= load(self@, m)
                &&& load(self@, m) <= (tt + kk - 1) / kk
            } by {
                assert(nv.contains(m));
                let j = choose|j: int| 0 <= j < nv.len() && nv[j] == m;
                assert(lower <= load(self@, nv[j]) <= upper);
            }
        }
        Ok(())
    }
}


/// The partitions whose replica list holds `n`, in the order of `a`.
pub open spec fn partitions_of(a: Model, n: Seq<char>) -> Seq<u32>
    decreases a.len(),
{
    if a.len() == 0 {
        Seq::empty()
    } else if a.last().1.contains(n) {
        partitions_of(a.drop_last(), n).push(a.last().0)
    } else {
        partitions_of(a.drop_last(), n)
    }
}

/// The names of the nodes of a node map.
pub open spec fn map_nodes(r: Seq<(Node, Vec<Partition>)>) -> Seq<Seq<char>> {
    r.map_values(|x: (Node, Vec<Partition>)| x.0@)
}

impl Assignment {
    /// Every node, once, with the partitions that it holds in ascending order.
    pub fn nodes_map(&self) -> (r: Vec<(Node, Vec<Partition>)>)
        ensures
            map_nodes(r@).no_duplicates(),
            ascending_names(map_nodes(r@)),
            forall|m: Seq<char>| #[trigger] map_nodes(r@).contains(m) <==> holds(self@, m),
            forall|i: int| 0 <= i < r.len() ==>
                (#[trigger] r[i]).1@.map_values(|p: Partition| p.0) == partitions_of(self@, r[i].0@),
    {
        let none: Vec<Node> = Vec::new();
        let names = build_table(self, &none);
        let ghost nv = names_of(names@);
        proof {
            assert forall|m: Seq<char>| #[trigger] nv.contains(m) <==> holds(self@, m) by {
                assert(!names_of(none@).contains(m));
            }
        }
        let (parts, lists) = index_lists(self, &names);
        let ghost ls = lists_view(lists@);
        let mut r: Vec<(Node, Vec<Partition>)> = Vec::new();
        let mut i: usize = 0;
        while i < names.len()
            invariant
                nv == names_of(names@),
                nv.no_duplicates(),
                ls == lists_view(lists@),
                below(ls, nv.len()),
                parts@.len() == ls.len(),
                dec(parts@, ls, nv) == self@,
                i <= names.len(),
                r.len() == i,
                forall|j: int| 0 <= j < i ==> (#[trigger] r[j]).0@ == nv[j],
                forall|j: int| 0 <= j < i ==>
                    (#[trigger] r[j]).1@.map_values(|p: Partition| p.0) == partitions_of(self@, r[j].0@),
            decreases names.len() - i,
        {
            let mut ps: Vec<Partition> = Vec::new();
            let mut e: usize = 0;
            while e < lists.len()
                invariant
                    nv == names_of(names@),
                    nv.no_duplicates(),
                    ls == lists_view(lists@),
                    below(ls, nv.len()),
                    parts@.len() == ls.len(),
                    dec(parts@, ls, nv) == self@,
                    i < names.len(),
                    e <= lists.len(),
                    ps@.map_values(|p: Partition| p.0) == partitions_of(self@.take(e as int), nv[i as int]),
                decreases lists.len() - e,
            {
                let ghost before = ps@;
                let ghost t1 = self@.take(e + 1);
                assert(t1.drop_last() =~= self@.take(e as int));
                assert(t1.last() == self@[e as int]);
                assert(ls[e as int] == lists[e as int]@);
                assert forall|j: int| 0 <= j < ls[e as int].len() implies #[trigger] ls[e as int][j] < nv.len() by {}
                proof {
                    crate::table::lemma_dec_contains(ls[e as int], nv, i);
                }
                if crate::engine::position_of(&lists[e], i).is_some() {
                    ps.push(Partition(parts[e]));
                    assert(ps@.map_values(|p: Partition| p.0) =~= before.map_values(|p: Partition| p.0).push(parts[e as int]));
                }
                e = e + 1;
            }
            assert(self@.take(lists.len() as int) =~= self@);
            r.push((names[i].duplicate(), ps));
            i = i + 1;
        }
        proof {
            assert(map_nodes(r@) =~= nv);
        }
        r
    }
}

} // verus!
