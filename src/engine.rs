//! The rebalancing engine, over a node table: every node is named by its
//! position in the table, and every replica list is a list of positions.
use vstd::prelude::*;

verus! {

/// How many lists contain node `i`.
pub open spec fn icount(ls: Seq<Seq<usize>>, i: usize) -> nat
    decreases ls.len(),
{
    if ls.len() == 0 {
        0
    } else {
        icount(ls.drop_last(), i) + if ls.last().contains(i) { 1nat } else { 0nat }
    }
}

/// The number of replicas over all lists.
pub open spec fn itotal(ls: Seq<Seq<usize>>) -> nat
    decreases ls.len(),
{
    if ls.len() == 0 {
        0
    } else {
        itotal(ls.drop_last()) + ls.last().len()
    }
}

pub open spec fn sum(s: Seq<usize>) -> nat
    decreases s.len(),
{
    if s.len() == 0 {
        0
    } else {
        sum(s.drop_last()) + s.last() as nat
    }
}

pub open spec fn sumsq(s: Seq<usize>) -> nat
    decreases s.len(),
{
    if s.len() == 0 {
        0
    } else {
        sumsq(s.drop_last()) + (s.last() as nat) * (s.last() as nat)
    }
}

/// `l` with every `f` replaced by `t`.
pub open spec fn ireplace(l: Seq<usize>, f: usize, t: usize) -> Seq<usize> {
    l.map_values(|n: usize| if n == f { t } else { n })
}

/// A move `(e, f, t)`: in list `e`, node `f` is replaced by node `t`.
pub open spec fn imove(ls: Seq<Seq<usize>>, m: (usize, usize, usize)) -> Seq<Seq<usize>> {
    if m.0 < ls.len() {
        ls.update(m.0 as int, ireplace(ls[m.0 as int], m.1, m.2))
    } else {
        ls
    }
}

pub open spec fn iapply(ls: Seq<Seq<usize>>, ms: Seq<(usize, usize, usize)>) -> Seq<Seq<usize>>
    decreases ms.len(),
{
    if ms.len() == 0 {
        ls
    } else {
        imove(iapply(ls, ms.drop_last()), ms.last())
    }
}

pub open spec fn below(ls: Seq<Seq<usize>>, n: nat) -> bool {
    forall|e: int, j: int| 0 <= e < ls.len() && 0 <= j < ls[e].len() ==> ls[e][j] < n
}

pub open spec fn all_distinct(ls: Seq<Seq<usize>>) -> bool {
    forall|e: int| 0 <= e < ls.len() ==> (#[trigger] ls[e]).no_duplicates()
}

pub proof fn lemma_icount_update(ls: Seq<Seq<usize>>, e: int, l2: Seq<usize>, i: usize)
    requires
        0 <= e < ls.len(),
    ensures
        icount(ls.update(e, l2), i) + (if ls[e].contains(i) { 1int } else { 0int })
            == icount(ls, i) + (if l2.contains(i) { 1int } else { 0int }),
    decreases ls.len(),
{
    let u = ls.update(e, l2);
    if e == ls.len() - 1 {
        assert(u.drop_last() =~= ls.drop_last());
    } else {
        assert(u.drop_last() =~= ls.drop_last().update(e, l2));
        lemma_icount_update(ls.drop_last(), e, l2, i);
    }
}

pub proof fn lemma_itotal_update(ls: Seq<Seq<usize>>, e: int, l2: Seq<usize>)
    requires
        0 <= e < ls.len(),
    ensures
        itotal(ls.update(e, l2)) + ls[e].len() == itotal(ls) + l2.len(),
    decreases ls.len(),
{
    let u = ls.update(e, l2);
    if e == ls.len() - 1 {
        assert(u.drop_last() =~= ls.drop_last());
    } else {
        assert(u.drop_last() =~= ls.drop_last().update(e, l2));
        lemma_itotal_update(ls.drop_last(), e, l2);
    }
}

pub proof fn lemma_icount_le(ls: Seq<Seq<usize>>, i: usize)
    ensures
        icount(ls, i) <= ls.len(),
    decreases ls.len(),
{
    if ls.len() > 0 {
        lemma_icount_le(ls.drop_last(), i);
    }
}

pub proof fn lemma_sum_update(s: Seq<usize>, i: int, v: usize)
    requires
        0 <= i < s.len(),
    ensures
        sum(s.update(i, v)) + s[i] == sum(s) + v,
        sumsq(s.update(i, v)) + s[i] * s[i] == sumsq(s) + v * v,
    decreases s.len(),
{
    let u = s.update(i, v);
    if i == s.len() - 1 {
        assert(u.drop_last() =~= s.drop_last());
    } else {
        assert(u.drop_last() =~= s.drop_last().update(i, v));
        lemma_sum_update(s.drop_last(), i, v);
    }
}

/// Replacing an element of a list without duplicates, by one that is not in it.
pub proof fn lemma_replace_at(l: Seq<usize>, pos: int, t: usize)
    requires
        l.no_duplicates(),
        0 <= pos < l.len(),
        !l.contains(t),
    ensures
        l.update(pos, t) == ireplace(l, l[pos], t),
        l.update(pos, t).no_duplicates(),
        l.update(pos, t).contains(t),
        !l.update(pos, t).contains(l[pos]),
        forall|i: usize| i != t && i != l[pos] ==> (l.update(pos, t).contains(i) <==> l.contains(i)),
{
    let u = l.update(pos, t);
    assert(u =~= ireplace(l, l[pos], t));
    assert(u[pos] == t);
    assert forall|i: usize| i != t && i != l[pos] implies (u.contains(i) <==> l.contains(i)) by {
        if u.contains(i) {
            let k = choose|k: int| 0 <= k < u.len() && u[k] == i;
            assert(l[k] == i);
        }
        if l.contains(i) {
            let k = choose|k: int| 0 <= k < l.len() && l[k] == i;
            assert(u[k] == i);
        }
    }
    if u.contains(l[pos]) {
        let k = choose|k: int| 0 <= k < u.len() && u[k] == l[pos];
        assert(l[k] == l[pos]);
    }
}

/// Sum over nodes `0 .. k` of the square of their loads.
pub open spec fn sq_loads(ls: Seq<Seq<usize>>, k: nat) -> nat
    decreases k,
{
    if k == 0 {
        0
    } else {
        sq_loads(ls, (k - 1) as nat) + icount(ls, (k - 1) as usize) * icount(ls, (k - 1) as usize)
    }
}

/// The first of the nodes `0 .. k` with the greatest load.
pub open spec fn argmax(ls: Seq<Seq<usize>>, k: nat) -> usize
    decreases k,
{
    if k <= 1 {
        0
    } else {
        let m = argmax(ls, (k - 1) as nat);
        if icount(ls, (k - 1) as usize) > icount(ls, m) { (k - 1) as usize } else { m }
    }
}

/// The first of the nodes `0 .. k` with the least load.
pub open spec fn argmin(ls: Seq<Seq<usize>>, k: nat) -> usize
    decreases k,
{
    if k <= 1 {
        0
    } else {
        let m = argmin(ls, (k - 1) as nat);
        if icount(ls, (k - 1) as usize) < icount(ls, m) { (k - 1) as usize } else { m }
    }
}

/// The first list, from `e` on, that holds `u` and not `l`; `ls.len()` if none.
pub open spec fn first_holding(ls: Seq<Seq<usize>>, u: usize, l: usize, e: nat) -> nat
    decreases ls.len() - e,
{
    if e >= ls.len() {
        e
    } else if ls[e as int].contains(u) && !ls[e as int].contains(l) {
        e
    } else {
        first_holding(ls, u, l, e + 1)
    }
}

/// The boundary balancing over a table of `n` nodes, of which the first
/// `active` take part: while the first most loaded of them carries at least two
/// more than the first least loaded, the first list holding the former and
/// not the latter gives its replica to the latter.
pub open spec fn balance_moves(ls: Seq<Seq<usize>>, n: nat, active: nat) -> Seq<(usize, usize, usize)>
    decreases sq_loads(ls, n),
{
    if all_distinct(ls) && below(ls, n) && 0 < active <= n && n <= usize::MAX && ls.len() <= usize::MAX {
        let u = argmax(ls, active);
        let l = argmin(ls, active);
        if icount(ls, u) >= icount(ls, l) + 2 {
            let e = first_holding(ls, u, l, 0);
            if e < ls.len() {
                proof {
                    lemma_balance_step(ls, n, active, e);
                }
                seq![(e as usize, u, l)] + balance_moves(imove(ls, (e as usize, u, l)), n, active)
            } else {
                Seq::empty()
            }
        } else {
            Seq::empty()
        }
    } else {
        Seq::empty()
    }
}

pub proof fn lemma_argmax(ls: Seq<Seq<usize>>, k: nat)
    requires
        k >= 1,
        k <= usize::MAX + 1,
    ensures
        argmax(ls, k) < k,
        argmin(ls, k) < k,
        forall|i: usize| i < k ==> #[trigger] icount(ls, i) <= icount(ls, argmax(ls, k)),
        forall|i: usize| i < k ==> icount(ls, argmin(ls, k)) <= #[trigger] icount(ls, i),
    decreases k,
{
    if k > 1 {
        lemma_argmax(ls, (k - 1) as nat);
    }
}

pub proof fn lemma_first_holding(ls: Seq<Seq<usize>>, u: usize, l: usize, e: nat)
    ensures
        first_holding(ls, u, l, e) >= e,
        e <= ls.len() ==> first_holding(ls, u, l, e) <= ls.len(),
        first_holding(ls, u, l, e) < ls.len() ==> ls[first_holding(ls, u, l, e) as int].contains(u)
            && !ls[first_holding(ls, u, l, e) as int].contains(l),
        forall|j: int| e <= j < first_holding(ls, u, l, e) && j < ls.len() ==>
            !(#[trigger] ls[j].contains(u) && !ls[j].contains(l)),
    decreases ls.len() - e,
{
    if e < ls.len() && !(ls[e as int].contains(u) && !ls[e as int].contains(l)) {
        lemma_first_holding(ls, u, l, e + 1);
    }
}

/// What the replacement of `f` by `t` in a list holding `f` and not `t` holds.
pub proof fn lemma_ireplace(l: Seq<usize>, f: usize, t: usize)
    requires
        l.contains(f),
        !l.contains(t),
    ensures
        forall|i: usize| #[trigger] ireplace(l, f, t).contains(i) <==> (i == t || (l.contains(i) && i != f)),
{
    let r = ireplace(l, f, t);
    assert forall|i: usize| #[trigger] r.contains(i) <==> (i == t || (l.contains(i) && i != f)) by {
        if r.contains(i) {
            let k = choose|k: int| 0 <= k < r.len() && r[k] == i;
            assert(r[k] == if l[k] == f { t } else { l[k] });
        }
        if i == t {
            let k = choose|k: int| 0 <= k < l.len() && l[k] == f;
            assert(r[k] == t);
        } else if l.contains(i) && i != f {
            let k = choose|k: int| 0 <= k < l.len() && l[k] == i;
            assert(r[k] == i);
        }
    }
}

/// A move from `u` to `l` changes the loads of those two nodes only, by one.
pub proof fn lemma_move_counts(ls: Seq<Seq<usize>>, e: int, u: usize, l: usize)
    requires
        0 <= e < ls.len(),
        ls.len() <= usize::MAX,
        ls[e].contains(u),
        !ls[e].contains(l),
    ensures
        icount(imove(ls, (e as usize, u, l)), u) + 1 == icount(ls, u),
        icount(imove(ls, (e as usize, u, l)), l) == icount(ls, l) + 1,
        forall|i: usize| i != u && i != l ==> #[trigger] icount(imove(ls, (e as usize, u, l)), i) == icount(ls, i),
{
    lemma_ireplace(ls[e], u, l);
    let r = ireplace(ls[e], u, l);
    lemma_icount_update(ls, e, r, u);
    lemma_icount_update(ls, e, r, l);
    assert forall|i: usize| i != u && i != l implies #[trigger] icount(imove(ls, (e as usize, u, l)), i) == icount(ls, i) by {
        lemma_icount_update(ls, e, r, i);
    }
}

proof fn lemma_sq_move(ls: Seq<Seq<usize>>, ms: Seq<Seq<usize>>, u: usize, l: usize, k: nat)
    requires
        u != l,
        k <= usize::MAX + 1,
        icount(ms, u) + 1 == icount(ls, u),
        icount(ms, l) == icount(ls, l) + 1,
        forall|i: usize| i != u && i != l ==> #[trigger] icount(ms, i) == icount(ls, i),
    ensures
        sq_loads(ms, k) + (if u < k { 2 * (icount(ls, u) as int) - 1 } else { 0int })
            == sq_loads(ls, k) + (if l < k { 2 * (icount(ls, l) as int) + 1 } else { 0int }),
    decreases k,
{
    if k > 0 {
        lemma_sq_move(ls, ms, u, l, (k - 1) as nat);
        let i = (k - 1) as usize;
        let a = icount(ls, u) as int;
        let b = icount(ls, l) as int;
        if i == u {
            assert((a - 1) * (a - 1) + 2 * a - 1 == a * a) by (nonlinear_arith);
        } else if i == l {
            assert((b + 1) * (b + 1) == b * b + 2 * b + 1) by (nonlinear_arith);
        }
    }
}

/// Each balancing move lowers the sum of the squared loads.
pub proof fn lemma_balance_step(ls: Seq<Seq<usize>>, n: nat, active: nat, e: nat)
    requires
        all_distinct(ls),
        below(ls, n),
        0 < active <= n,
        n <= usize::MAX,
        ls.len() <= usize::MAX,
        icount(ls, argmax(ls, active)) >= icount(ls, argmin(ls, active)) + 2,
        e == first_holding(ls, argmax(ls, active), argmin(ls, active), 0),
        e < ls.len(),
    ensures
        sq_loads(imove(ls, (e as usize, argmax(ls, active), argmin(ls, active))), n) < sq_loads(ls, n),
{
    let u = argmax(ls, active);
    let l = argmin(ls, active);
    lemma_argmax(ls, active);
    lemma_first_holding(ls, u, l, 0);
    lemma_move_counts(ls, e as int, u, l);
    lemma_sq_move(ls, imove(ls, (e as usize, u, l)), u, l, n);
}

pub proof fn lemma_iapply_concat(ls: Seq<Seq<usize>>, a: Seq<(usize, usize, usize)>, b: Seq<(usize, usize, usize)>)
    ensures
        iapply(ls, a + b) == iapply(iapply(ls, a), b),
    decreases b.len(),
{
    if b.len() > 0 {
        assert((a + b).drop_last() =~= a + b.drop_last());
        lemma_iapply_concat(ls, a, b.drop_last());
    } else {
        assert(a + b =~= a);
    }
}

pub proof fn lemma_icount_pos(ls: Seq<Seq<usize>>, i: usize, e: int)
    requires
        0 <= e < ls.len(),
        ls[e].contains(i),
    ensures
        icount(ls, i) > 0,
    decreases ls.len(),
{
    if e < ls.len() - 1 {
        assert(ls.drop_last()[e] == ls[e]);
        lemma_icount_pos(ls.drop_last(), i, e);
    }
}

/// The balancing moves do not depend on the size of the table beyond the
/// nodes that take part, when no list holds another node.
pub proof fn lemma_balance_moves_table(ls: Seq<Seq<usize>>, n1: nat, n2: nat, active: nat)
    requires
        below(ls, active),
        0 < active <= n1,
        active <= n2,
        n1 <= usize::MAX,
        n2 <= usize::MAX,
    ensures
        balance_moves(ls, n1, active) == balance_moves(ls, n2, active),
    decreases sq_loads(ls, n1),
{
    if all_distinct(ls) && ls.len() <= usize::MAX {
        let u = argmax(ls, active);
        let l = argmin(ls, active);
        if icount(ls, u) >= icount(ls, l) + 2 {
            let e = first_holding(ls, u, l, 0);
            if e < ls.len() {
                lemma_balance_step(ls, n1, active, e);
                lemma_argmax(ls, active);
                let m = imove(ls, (e as usize, u, l));
                assert(below(m, active)) by {
                    assert forall|a: int, j: int| 0 <= a < m.len() && 0 <= j < m[a].len() implies m[a][j] < active by {
                        if a == e {
                            assert(ls[a][j] < active);
                        }
                    }
                }
                lemma_balance_moves_table(m, n1, n2, active);
            }
        }
    }
}

/// The working state: replica lists, the load of every node, and the moves made
/// since `start`.
pub struct Work {
    pub lists: Vec<Vec<usize>>,
    pub loads: Vec<usize>,
    pub moves: Vec<(usize, usize, usize)>,
    pub start: Ghost<Seq<Seq<usize>>>,
}

impl Work {
    pub open spec fn ls(&self) -> Seq<Seq<usize>> {
        self.lists@.map_values(|l: Vec<usize>| l@)
    }

    pub open spec fn wf(&self) -> bool {
        &&& below(self.ls(), self.loads.len() as nat)
        &&& all_distinct(self.ls())
        &&& forall|i: int| 0 <= i < self.loads.len() ==> self.loads[i] == icount(self.ls(), i as usize)
        &&& sum(self.loads@) == itotal(self.ls())
        &&& iapply(self.start@, self.moves@) == self.ls()
        &&& forall|k: int| 0 <= k < self.moves.len() ==> {
            &&& (#[trigger] self.moves[k]).0 < self.lists.len()
            &&& self.moves[k].1 < self.loads.len()
            &&& self.moves[k].2 < self.loads.len()
        }
    }

    /// Replaces node `lists[e][pos]` by `t` in list `e`, and records the move.
    pub fn apply_move(&mut self, e: usize, pos: usize, t: usize)
        requires
            old(self).wf(),
            e < old(self).lists.len(),
            pos < old(self).lists[e as int].len(),
            t < old(self).loads.len(),
            !old(self).ls()[e as int].contains(t),
        ensures
            final(self).wf(),
            final(self).start == old(self).start,
            final(self).lists.len() == old(self).lists.len(),
            final(self).loads.len() == old(self).loads.len(),
            final(self).ls() == old(self).ls().update(e as int, old(self).ls()[e as int].update(pos as int, t)),
            final(self).moves@ == old(self).moves@.push((e, old(self).lists[e as int][pos as int], t)),
            old(self).loads[old(self).lists[e as int][pos as int] as int] >= 1,
            final(self).loads@ == old(self).loads@.update(
                old(self).lists[e as int][pos as int] as int,
                (old(self).loads[old(self).lists[e as int][pos as int] as int] - 1) as usize,
            ).update(t as int, (old(self).loads[t as int] + 1) as usize),
    {
        let ghost ls0 = self.ls();
        let ghost loads0 = self.loads@;
        let f = self.lists[e][pos];
        let ghost l0 = ls0[e as int];
        proof {
            lemma_replace_at(l0, pos as int, t);
        }
        self.lists[e].set(pos, t);
        let ghost ls1 = self.ls();
        assert(ls1 =~= ls0.update(e as int, l0.update(pos as int, t)));
        proof {
            lemma_icount_update(ls0, e as int, l0.update(pos as int, t), f);
            lemma_icount_update(ls0, e as int, l0.update(pos as int, t), t);
            lemma_icount_le(ls1, t);
            lemma_itotal_update(ls0, e as int, l0.update(pos as int, t));
        }
        let lf = self.loads[f];
        self.loads.set(f, lf - 1);
        let lt = self.loads[t];
        self.loads.set(t, lt + 1);
        self.moves.push((e, f, t));
        proof {
            let mid = loads0.update(f as int, (lf - 1) as usize);
            lemma_sum_update(loads0, f as int, (lf - 1) as usize);
            lemma_sum_update(mid, t as int, (lt + 1) as usize);
            assert forall|i: int| 0 <= i < self.loads.len() implies self.loads[i] == icount(ls1, i as usize) by {
                if i != f && i != t {
                    lemma_icount_update(ls0, e as int, l0.update(pos as int, t), i as usize);
                }
            }
            assert(self.moves@.drop_last() == old(self).moves@);
            assert(below(ls1, self.loads.len() as nat)) by {
                assert forall|a: int, j: int| 0 <= a < ls1.len() && 0 <= j < ls1[a].len() implies ls1[a][j] < self.loads.len() by {
                    if a == e && j == pos {
                    } else {
                        assert(ls1[a][j] == ls0[a][j]);
                    }
                }
            }
            assert(all_distinct(ls1)) by {
                assert forall|a: int| 0 <= a < ls1.len() implies (#[trigger] ls1[a]).no_duplicates() by {
                    if a != e {
                        assert(ls1[a] == ls0[a]);
                    }
                }
            }
        }
    }
}


/// If every list that holds `u` also holds `l`, then `u` is on no more lists than `l`.
pub proof fn lemma_icount_dominated(ls: Seq<Seq<usize>>, u: usize, l: usize)
    requires
        forall|e: int| 0 <= e < ls.len() && (#[trigger] ls[e]).contains(u) ==> ls[e].contains(l),
    ensures
        icount(ls, u) <= icount(ls, l),
    decreases ls.len(),
{
    if ls.len() > 0 {
        let d = ls.drop_last();
        assert forall|e: int| 0 <= e < d.len() && (#[trigger] d[e]).contains(u) implies d[e].contains(l) by {
            assert(d[e] == ls[e]);
        }
        lemma_icount_dominated(d, u, l);
        assert(ls.last() == ls[ls.len() - 1]);
    }
}

/// The position of `v` in `l`, if any.
pub fn position_of(l: &Vec<usize>, v: usize) -> (r: Option<usize>)
    ensures
        r is Some <==> l@.contains(v),
        r is Some ==> r->0 < l.len() && l[r->0 as int] == v,
{
    let mut k: usize = 0;
    while k < l.len()
        invariant
            k <= l.len(),
            forall|j: int| 0 <= j < k ==> l[j] != v,
        decreases l.len() - k,
    {
        if l[k] == v {
            return Some(k);
        }
        k = k + 1;
    }
    proof {
        if l@.contains(v) {
            let j = choose|j: int| 0 <= j < l.len() && l@[j] == v;
            assert(l[j] != v);
        }
    }
    None
}

impl Work {
    /// The first node below `active` with the greatest load, and the first one
    /// with the least.
    fn extremes(&self, active: usize) -> (r: (usize, usize))
        requires
            self.wf(),
            0 < active <= self.loads.len(),
        ensures
            r.0 < active && r.1 < active,
            r.0 == argmax(self.ls(), active as nat),
            r.1 == argmin(self.ls(), active as nat),
            forall|i: int| 0 <= i < active ==> #[trigger] self.loads[i] <= self.loads[r.0 as int],
            forall|i: int| 0 <= i < active ==> self.loads[r.1 as int] <= #[trigger] self.loads[i],
    {
        let ghost ls = self.ls();
        let mut hi: usize = 0;
        let mut lo: usize = 0;
        let mut i: usize = 1;
        while i < active
            invariant
                self.wf(),
                ls == self.ls(),
                0 < active <= self.loads.len(),
                1 <= i <= active,
                hi < i && lo < i,
                hi == argmax(ls, i as nat),
                lo == argmin(ls, i as nat),
                forall|j: int| 0 <= j < i ==> #[trigger] self.loads[j] <= self.loads[hi as int],
                forall|j: int| 0 <= j < i ==> self.loads[lo as int] <= #[trigger] self.loads[j],
            decreases active - i,
        {
            assert(self.loads[i as int] == icount(ls, i));
            assert(self.loads[hi as int] == icount(ls, hi));
            assert(self.loads[lo as int] == icount(ls, lo));
            if self.loads[i] > self.loads[hi] {
                hi = i;
            }
            if self.loads[i] < self.loads[lo] {
                lo = i;
            }
            i = i + 1;
        }
        (hi, lo)
    }

    /// Moves one replica at a time from a most loaded node to a least loaded
    /// one, among the nodes below `active`, until their loads differ by at most
    /// one: the moves are exactly `balance_moves`.
    pub fn balance(&mut self, active: usize)
        requires
            old(self).wf(),
            0 < active <= old(self).loads.len(),
        ensures
            final(self).wf(),
            final(self).start == old(self).start,
            final(self).lists.len() == old(self).lists.len(),
            final(self).loads.len() == old(self).loads.len(),
            final(self).moves@ == old(self).moves@ + balance_moves(old(self).ls(), old(self).loads.len() as nat, active as nat),
            final(self).ls() == iapply(old(self).ls(), balance_moves(old(self).ls(), old(self).loads.len() as nat, active as nat)),
            forall|i: int, j: int| 0 <= i < active && 0 <= j < active ==>
                final(self).loads[i] <= final(self).loads[j] + 1,
            forall|i: int| active <= i < final(self).loads.len() ==> final(self).loads[i] == old(self).loads[i],
            forall|i: int| 0 <= i < final(self).loads.len() && old(self).loads[i] >= 1 ==> #[trigger] final(self).loads[i] >= 1,
            (forall|i: int, j: int| 0 <= i < active && 0 <= j < active ==> old(self).loads[i] <= old(self).loads[j] + 1)
                ==> final(self).moves@ == old(self).moves@,
            2 * (final(self).moves.len() - old(self).moves.len()) + sq_loads(final(self).ls(), final(self).loads.len() as nat)
                <= sq_loads(old(self).ls(), old(self).loads.len() as nat),
            old(self).moves.len() <= final(self).moves.len(),
            final(self).moves@.take(old(self).moves.len() as int) == old(self).moves@,
            forall|k: int| old(self).moves.len() <= k < final(self).moves.len() ==>
                (#[trigger] final(self).moves[k]).1 < active && final(self).moves[k].2 < active
                    && final(self).moves[k].1 != final(self).moves[k].2,
            forall|e: int| 0 <= e < final(self).lists.len() ==>
                (#[trigger] final(self).lists[e]).len() == old(self).lists[e].len(),
    {
        let ghost loads0 = self.loads@;
        let ghost lists0 = self.lists@;
        let ghost moves0 = self.moves@;
        let ghost ls0 = self.ls();
        let ghost n = self.loads.len() as nat;
        let ghost bm0 = balance_moves(ls0, n, active as nat);
        loop
            invariant
                self.wf(),
                self.start == old(self).start,
                self.lists.len() == old(self).lists.len(),
                self.loads.len() == loads0.len(),
                n == self.loads.len(),
                0 < active <= self.loads.len(),
                forall|i: int| active <= i < self.loads.len() ==> self.loads[i] == loads0[i],
                forall|i: int| 0 <= i < self.loads.len() && loads0[i] >= 1 ==> #[trigger] self.loads[i] >= 1,
                moves0.len() <= self.moves.len(),
                self.moves@.take(moves0.len() as int) == moves0,
                self.moves@ + balance_moves(self.ls(), n, active as nat) == moves0 + bm0,
                2 * (self.moves.len() - moves0.len()) + sq_loads(self.ls(), n) <= sq_loads(ls0, n),
                forall|k: int| moves0.len() <= k < self.moves.len() ==>
                    (#[trigger] self.moves[k]).1 < active && self.moves[k].2 < active
                        && self.moves[k].1 != self.moves[k].2,
                forall|e: int| 0 <= e < self.lists.len() ==> (#[trigger] self.lists[e]).len() == lists0[e].len(),
            ensures
                forall|i: int, j: int| 0 <= i < active && 0 <= j < active ==>
                    self.loads[i] <= self.loads[j] + 1,
                self.moves@ == moves0 + bm0,
            decreases sq_loads(self.ls(), n),
        {
            let (hi, lo) = self.extremes(active);
            let ghost ls = self.ls();
            assert(self.loads[hi as int] == icount(ls, hi));
            assert(self.loads[lo as int] == icount(ls, lo));
            if self.loads[hi] - self.loads[lo] <= 1 {
                assert forall|i: int, j: int| 0 <= i < active && 0 <= j < active implies
                    self.loads[i] <= self.loads[j] + 1 by {
                    assert(self.loads[i] <= self.loads[hi as int]);
                    assert(self.loads[lo as int] <= self.loads[j]);
                }
                assert(balance_moves(ls, n, active as nat) =~= Seq::<(usize, usize, usize)>::empty());
                assert(self.moves@ + Seq::<(usize, usize, usize)>::empty() =~= self.moves@);
                break;
            }
            let mut e: usize = 0;
            let mut found: Option<(usize, usize)> = None;
            proof {
                lemma_first_holding(ls, hi, lo, 0);
            }
            while found.is_none() && e < self.lists.len()
                invariant
                    self.wf(),
                    ls == self.ls(),
                    e <= self.lists.len(),
                    hi < self.loads.len(),
                    lo < self.loads.len(),
                    found is None ==> first_holding(ls, hi, lo, 0) == first_holding(ls, hi, lo, e as nat),
                    found is None ==> forall|a: int| 0 <= a < e && (#[trigger] ls[a]).contains(hi) ==> ls[a].contains(lo),
                    found is Some ==> ({
                        let (a, pos) = found->0;
                        &&& a < self.lists.len()
                        &&& a == first_holding(ls, hi, lo, 0)
                        &&& pos < self.lists[a as int].len()
                        &&& self.lists[a as int][pos as int] == hi
                        &&& !ls[a as int].contains(lo)
                    }),
                decreases self.lists.len() - e + (if found is None { 1int } else { 0int }),
            {
                let ph = position_of(&self.lists[e], hi);
                let pl = position_of(&self.lists[e], lo);
                assert(self.lists[e as int]@ == ls[e as int]);
                if ph.is_some() && pl.is_none() {
                    found = Some((e, ph.unwrap()));
                } else {
                    e = e + 1;
                }
            }
            match found {
                None => {
                    proof {
                        lemma_icount_dominated(ls, hi, lo);
                    }
                    assert(false);
                    break;
                }
                Some((a, pos)) => {
                    let ghost before = self.loads@;
                    let ghost mv = self.moves@;
                    let ghost bm = balance_moves(ls, n, active as nat);
                    proof {
                        lemma_replace_at(ls[a as int], pos as int, lo);
                    }
                    self.apply_move(a, pos, lo);
                    proof {
                        let ls1 = self.ls();
                        assert(ls1 =~= imove(ls, (a, hi, lo)));
                        assert(bm == seq![(a, hi, lo)] + balance_moves(ls1, n, active as nat));
                        assert(self.moves@ + balance_moves(ls1, n, active as nat) =~= mv + bm);
                        lemma_move_counts(ls, a as int, hi, lo);
                        lemma_sq_move(ls, ls1, hi, lo, n);
                        let mid = before.update(hi as int, (before[hi as int] - 1) as usize);
                        lemma_sum_update(before, hi as int, (before[hi as int] - 1) as usize);
                        lemma_sum_update(mid, lo as int, (before[lo as int] + 1) as usize);
                        assert(self.moves@.take(moves0.len() as int) =~= moves0) by {
                            assert(mv.take(moves0.len() as int) == moves0);
                        }
                        assert(self.moves[mv.len() as int] == (a, hi, lo));
                        assert forall|x: int| 0 <= x < self.lists.len() implies
                            (#[trigger] self.lists[x]).len() == lists0[x].len() by {
                            assert(self.ls()[x].len() == self.lists[x]@.len());
                        }
                    }
                }
            }
        }
        proof {
            assert(self.moves@.take(moves0.len() as int) == moves0);
            lemma_iapply_concat(self.start@, moves0, bm0);
            if forall|i: int, j: int| 0 <= i < active && 0 <= j < active ==> loads0[i] <= loads0[j] + 1 {
                lemma_argmax(ls0, active as nat);
                let u = argmax(ls0, active as nat);
                let l = argmin(ls0, active as nat);
                assert(loads0[u as int] == icount(ls0, u) && loads0[l as int] == icount(ls0, l));
                assert(bm0 =~= Seq::<(usize, usize, usize)>::empty());
                assert(moves0 + bm0 =~= moves0);
            }
        }
    }
}


proof fn lemma_sum_bounds(s: Seq<usize>, c: int, i: int)
    requires
        0 <= i < s.len(),
    ensures
        (forall|j: int| 0 <= j < s.len() ==> #[trigger] s[j] >= c) ==> sum(s) >= s.len() * c + (s[i] - c),
        (forall|j: int| 0 <= j < s.len() ==> #[trigger] s[j] <= c) ==> sum(s) <= s.len() * c - (c - s[i]),
    decreases s.len(),
{
    let d = s.drop_last();
    let n = s.len() - 1;
    if i == n {
        if n > 0 {
            lemma_sum_bounds(d, c, 0);
        }
        if forall|j: int| 0 <= j < s.len() ==> #[trigger] s[j] >= c {
            assert forall|j: int| 0 <= j < d.len() implies #[trigger] d[j] >= c by {
                assert(d[j] == s[j]);
            }
            if n > 0 {
                assert(d[0] >= c);
            }
            assert(sum(d) >= n * c) by (nonlinear_arith)
                requires n == 0 ==> sum(d) == 0, n > 0 ==> sum(d) >= n * c + (d[0] - c), n > 0 ==> d[0] >= c, n >= 0;
            assert(s.len() * c == n * c + c) by (nonlinear_arith) requires s.len() == n + 1;
        }
        if forall|j: int| 0 <= j < s.len() ==> #[trigger] s[j] <= c {
            assert forall|j: int| 0 <= j < d.len() implies #[trigger] d[j] <= c by {
                assert(d[j] == s[j]);
            }
            if n > 0 {
                assert(d[0] <= c);
            }
            assert(sum(d) <= n * c) by (nonlinear_arith)
                requires n == 0 ==> sum(d) == 0, n > 0 ==> sum(d) <= n * c - (c - d[0]), n > 0 ==> d[0] <= c, n >= 0;
            assert(s.len() * c == n * c + c) by (nonlinear_arith) requires s.len() == n + 1;
        }
    } else {
        lemma_sum_bounds(d, c, i);
        assert(d[i] == s[i]);
        if forall|j: int| 0 <= j < s.len() ==> #[trigger] s[j] >= c {
            assert forall|j: int| 0 <= j < d.len() implies #[trigger] d[j] >= c by {
                assert(d[j] == s[j]);
            }
            assert(s[n] >= c);
            assert(s.len() * c == n * c + c) by (nonlinear_arith) requires s.len() == n + 1;
        }
        if forall|j: int| 0 <= j < s.len() ==> #[trigger] s[j] <= c {
            assert forall|j: int| 0 <= j < d.len() implies #[trigger] d[j] <= c by {
                assert(d[j] == s[j]);
            }
            assert(s[n] <= c);
            assert(s.len() * c == n * c + c) by (nonlinear_arith) requires s.len() == n + 1;
        }
    }
}

/// Loads that differ pairwise by at most one all lie between the floor and
/// the ceiling of their average.
pub proof fn lemma_balanced_near_average(s: Seq<usize>, i: int)
    requires
        0 <= i < s.len(),
        forall|a: int, b: int| 0 <= a < s.len() && 0 <= b < s.len() ==> s[a] <= s[b] + 1,
    ensures
        sum(s) as int / s.len() as int <= s[i],
        s[i] <= (sum(s) + s.len() - 1) as int / s.len() as int,
{
    let k = s.len() as int;
    let t = sum(s) as int;
    let m = s[i] as int;
    // Every load is at most m + 1.
    assert forall|j: int| 0 <= j < s.len() implies #[trigger] s[j] <= m + 1 by {}
    lemma_sum_bounds(s, m + 1, i);
    assert(t <= k * (m + 1) - 1);
    assert(t / k <= m) by (nonlinear_arith)
        requires t <= k * (m + 1) - 1, k > 0, t >= 0;
    // Every load is at least m - 1.
    assert forall|j: int| 0 <= j < s.len() implies #[trigger] s[j] >= m - 1 by {}
    lemma_sum_bounds(s, m - 1, i);
    assert(t >= k * (m - 1) + 1);
    assert(m <= (t + k - 1) / k) by (nonlinear_arith)
        requires t >= k * (m - 1) + 1, k > 0, t >= 0;
}


/// A list that holds `x`, no more than `active` nodes, and no duplicates, misses
/// some node below `active` when `x` is not below `active`.
pub proof fn lemma_free_candidate(l: Seq<usize>, x: usize, active: usize)
    requires
        l.contains(x),
        x >= active,
        l.len() <= active,
    ensures
        exists|c: usize| c < active && !l.contains(c),
{
    if forall|c: usize| c < active ==> l.contains(c) {
        let li = l.map_values(|v: usize| v as int);
        let r = vstd::set_lib::set_int_range(0, active as int);
        let sl = li.to_set();
        li.lemma_cardinality_of_set();
        assert(sl.contains(x as int)) by {
            let k = choose|k: int| 0 <= k < l.len() && l[k] == x;
            assert(li[k] == x as int);
        }
        assert(r.subset_of(sl.remove(x as int))) by {
            assert forall|c: int| r.contains(c) implies sl.remove(x as int).contains(c) by {
                assert(l.contains(c as usize));
                let k = choose|k: int| 0 <= k < l.len() && l[k] == c as usize;
                assert(li[k] == c);
            }
        }
        vstd::set_lib::lemma_int_range(0, active as int);
        vstd::set_lib::lemma_len_subset(r, sl.remove(x as int));
        assert(false);
    }
}

pub proof fn lemma_icount_zero(ls: Seq<Seq<usize>>, i: usize)
    requires
        forall|e: int| 0 <= e < ls.len() ==> !(#[trigger] ls[e]).contains(i),
    ensures
        icount(ls, i) == 0,
    decreases ls.len(),
{
    if ls.len() > 0 {
        let d = ls.drop_last();
        assert forall|e: int| 0 <= e < d.len() implies !(#[trigger] d[e]).contains(i) by {
            assert(d[e] == ls[e]);
        }
        lemma_icount_zero(d, i);
        assert(ls.last() == ls[ls.len() - 1]);
    }
}

pub open spec fn count_false(s: Seq<bool>) -> nat
    decreases s.len(),
{
    if s.len() == 0 {
        0
    } else {
        count_false(s.drop_last()) + if s.last() { 0nat } else { 1nat }
    }
}

pub proof fn lemma_count_false_set(s: Seq<bool>, i: int)
    requires
        0 <= i < s.len(),
        !s[i],
    ensures
        count_false(s.update(i, true)) + 1 == count_false(s),
    decreases s.len(),
{
    let u = s.update(i, true);
    if i == s.len() - 1 {
        assert(u.drop_last() =~= s.drop_last());
    } else {
        assert(u.drop_last() =~= s.drop_last().update(i, true));
        lemma_count_false_set(s.drop_last(), i);
    }
}

/// `v`, or the greatest `u64` if `v` is larger.
pub open spec fn sat(v: nat) -> u64 {
    if v > u64::MAX { u64::MAX } else { v as u64 }
}

/// How many lists hold both `x` and `c`.
pub open spec fn ocount(ls: Seq<Seq<usize>>, x: usize, c: usize) -> nat
    decreases ls.len(),
{
    if ls.len() == 0 {
        0
    } else {
        ocount(ls.drop_last(), x, c) + if ls.last().contains(x) && ls.last().contains(c) { 1nat } else { 0nat }
    }
}

/// The nodes below `k` that `l` does not hold, ascending.
pub open spec fn cands(l: Seq<usize>, k: nat) -> Seq<usize>
    decreases k,
{
    if k == 0 {
        Seq::empty()
    } else if !l.contains((k - 1) as usize) {
        cands(l, (k - 1) as nat).push((k - 1) as usize)
    } else {
        cands(l, (k - 1) as nat)
    }
}

/// The pressure of list `l`: over its first `k` nodes other than `x`, the
/// number of lists holding `x` that also hold the node, summed.
pub open spec fn weight(ls: Seq<Seq<usize>>, x: usize, l: Seq<usize>, k: nat) -> u64
    decreases k,
{
    if k == 0 || k > l.len() {
        0
    } else {
        let w = weight(ls, x, l, (k - 1) as nat);
        if l[k - 1] != x { sat((w + sat(ocount(ls, x, l[k - 1]))) as nat) } else { w }
    }
}

/// The first position, from `i` on, of `key` in `ks`; `ks.len()` if none.
pub open spec fn find_key(ks: Seq<Seq<usize>>, key: Seq<usize>, i: nat) -> nat
    decreases ks.len() - i,
{
    if i >= ks.len() {
        i
    } else if ks[i as int] == key {
        i
    } else {
        find_key(ks, key, i + 1)
    }
}

/// The groups of the first `e` lists that hold `x`: their candidate sets in
/// order of first appearance, their pressures, and the group of each list.
pub open spec fn grouping(ls: Seq<Seq<usize>>, x: usize, active: nat, e: nat) -> (Seq<Seq<usize>>, Seq<u64>, Seq<usize>)
    decreases e,
{
    if e == 0 || e > ls.len() {
        (Seq::empty(), Seq::empty(), Seq::empty())
    } else {
        let (k, p, g) = grouping(ls, x, active, (e - 1) as nat);
        let l = ls[e - 1];
        if l.contains(x) {
            let key = cands(l, active);
            let w = weight(ls, x, l, l.len());
            let i = find_key(k, key, 0);
            if i < k.len() && i < p.len() {
                (k, p.update(i as int, sat((p[i as int] + w) as nat)), g.push(i as usize))
            } else {
                (k.push(key), p.push(w), g.push(k.len() as usize))
            }
        } else {
            (k, p, g.push(0))
        }
    }
}

/// From group `g` on, the first not done with the greatest pressure, or `best`.
pub open spec fn pick(done: Seq<bool>, press: Seq<u64>, g: nat, best: Option<usize>) -> Option<usize>
    decreases done.len() - g,
{
    if g >= done.len() {
        best
    } else {
        let b2 = if !done[g as int] {
            match best {
                None => Some(g as usize),
                Some(b) => if press[g as int] > press[b as int] { Some(g as usize) } else { best },
            }
        } else {
            best
        };
        pick(done, press, g + 1, b2)
    }
}

/// The first position among the first `k` of `key` of a least loaded node.
pub open spec fn kmin(ls: Seq<Seq<usize>>, key: Seq<usize>, k: nat) -> nat
    decreases k,
{
    if k <= 1 {
        0
    } else {
        let m = kmin(ls, key, (k - 1) as nat);
        if icount(ls, key[k - 1]) < icount(ls, key[m as int]) { (k - 1) as nat } else { m }
    }
}

/// The first position among the first `k` of `key` of a most loaded node.
pub open spec fn kmax(ls: Seq<Seq<usize>>, key: Seq<usize>, k: nat) -> nat
    decreases k,
{
    if k <= 1 {
        0
    } else {
        let m = kmax(ls, key, (k - 1) as nat);
        if icount(ls, key[k - 1]) > icount(ls, key[m as int]) { (k - 1) as nat } else { m }
    }
}

/// The moves filling group `g`, with candidates `key`, over the lists from `e`
/// on: each pending list of the group takes a least loaded candidate, or,
/// once all candidates are equally loaded, the candidates in turn.
pub open spec fn grp(
    ls: Seq<Seq<usize>>,
    x: usize,
    g: usize,
    key: Seq<usize>,
    gid: Seq<usize>,
    pend: Seq<bool>,
    e: nat,
    cyc: bool,
    rot: nat,
) -> Seq<(usize, usize, usize)>
    decreases ls.len() - e,
{
    if e >= ls.len() || key.len() == 0 {
        Seq::empty()
    } else if pend[e as int] && gid[e as int] == g {
        let lo = kmin(ls, key, key.len());
        let hi = kmax(ls, key, key.len());
        let cyc1 = cyc || icount(ls, key[lo as int]) == icount(ls, key[hi as int]);
        let j = if cyc1 { rot % key.len() } else { lo };
        let rot1 = if cyc1 { rot + 1 } else { rot };
        let m = (e as usize, x, key[j as int]);
        seq![m] + grp(imove(ls, m), x, g, key, gid, pend, e + 1, cyc1, rot1)
    } else {
        grp(ls, x, g, key, gid, pend, e + 1, cyc, rot)
    }
}

pub open spec fn clear(pend: Seq<bool>, gid: Seq<usize>, g: usize) -> Seq<bool> {
    Seq::new(pend.len(), |a: int| pend[a] && gid[a] != g)
}

/// The moves filling the groups not done, in descending order of pressure.
pub open spec fn fill_from(
    ls: Seq<Seq<usize>>,
    x: usize,
    keys: Seq<Seq<usize>>,
    press: Seq<u64>,
    gid: Seq<usize>,
    pend: Seq<bool>,
    done: Seq<bool>,
) -> Seq<(usize, usize, usize)>
    decreases count_false(done),
{
    match pick(done, press, 0, None) {
        None => Seq::empty(),
        Some(g) => {
            if g < done.len() && !done[g as int] && g < keys.len() {
                proof {
                    lemma_count_false_set(done, g as int);
                }
                let m = grp(ls, x, g, keys[g as int], gid, pend, 0, false, 0);
                m + fill_from(iapply(ls, m), x, keys, press, gid, clear(pend, gid, g), done.update(g as int, true))
            } else {
                Seq::empty()
            }
        },
    }
}

/// The moves that give every list holding `x` a node below `x` in its place.
pub open spec fn fill_moves(ls: Seq<Seq<usize>>, x: usize) -> Seq<(usize, usize, usize)> {
    let (k, p, g) = grouping(ls, x, x as nat, ls.len());
    fill_from(ls, x, k, p, g, Seq::new(ls.len(), |e: int| ls[e].contains(x)), Seq::new(k.len(), |i: int| false))
}

proof fn lemma_ocount_take(ls: Seq<Seq<usize>>, e: int, x: usize)
    requires
        0 <= e < ls.len(),
    ensures
        forall|c: usize| #[trigger] ocount(ls.take(e + 1), x, c) == ocount(ls.take(e), x, c)
            + if ls[e].contains(x) && ls[e].contains(c) { 1nat } else { 0nat },
{
    assert(ls.take(e + 1).drop_last() =~= ls.take(e));
    assert(ls.take(e + 1).last() == ls[e]);
}

proof fn lemma_find_key(ks: Seq<Seq<usize>>, key: Seq<usize>, i: nat)
    ensures
        find_key(ks, key, i) >= i,
        i <= ks.len() ==> find_key(ks, key, i) <= ks.len(),
    decreases ks.len() - i,
{
    if i < ks.len() && ks[i as int] != key {
        lemma_find_key(ks, key, i + 1);
    }
}

/// Whether two lists are equal.
fn same_list(a: &Vec<usize>, b: &Vec<usize>) -> (r: bool)
    ensures
        r == (a@ == b@),
{
    if a.len() != b.len() {
        return false;
    }
    let mut k: usize = 0;
    while k < a.len()
        invariant
            a.len() == b.len(),
            k <= a.len(),
            forall|j: int| 0 <= j < k ==> a[j] == b[j],
        decreases a.len() - k,
    {
        if a[k] != b[k] {
            return false;
        }
        k = k + 1;
    }
    assert(a@ =~= b@);
    true
}

/// The nodes below `active` that list `l` does not hold, in ascending order.
fn candidates(l: &Vec<usize>, x: usize, active: usize) -> (r: Vec<usize>)
    requires
        l@.contains(x),
        x >= active,
        l.len() <= active,
    ensures
        r.len() > 0,
        r@ == cands(l@, active as nat),
        forall|j: int| 0 <= j < r.len() ==> #[trigger] r[j] < active && !l@.contains(r[j]),
{
    let mut r: Vec<usize> = Vec::new();
    let mut c: usize = 0;
    while c < active
        invariant
            c <= active,
            r@ == cands(l@, c as nat),
            forall|j: int| 0 <= j < r.len() ==> #[trigger] r[j] < active && !l@.contains(r[j]),
            r.len() == 0 ==> forall|d: usize| d < c ==> l@.contains(d),
        decreases active - c,
    {
        if position_of(l, c).is_none() {
            r.push(c);
        }
        c = c + 1;
    }
    proof {
        lemma_free_candidate(l@, x, active);
    }
    r
}

/// The first group not yet done with the greatest pressure.
fn next_group(done: &Vec<bool>, pressure: &Vec<u64>) -> (r: Option<usize>)
    requires
        done.len() == pressure.len(),
    ensures
        r is None ==> forall|g: int| 0 <= g < done.len() ==> done[g],
        r is Some ==> r->0 < done.len() && !done[r->0 as int],
        r == pick(done@, pressure@, 0, None),
{
    let mut best: Option<usize> = None;
    let mut g: usize = 0;
    while g < done.len()
        invariant
            done.len() == pressure.len(),
            pick(done@, pressure@, 0, None) == pick(done@, pressure@, g as nat, best),
            g <= done.len(),
            best is None ==> forall|h: int| 0 <= h < g ==> done[h],
            best is Some ==> best->0 < done.len() && !done[best->0 as int],
        decreases done.len() - g,
    {
        if !done[g] {
            match best {
                None => {
                    best = Some(g);
                }
                Some(b) => {
                    if pressure[g] > pressure[b] {
                        best = Some(g);
                    }
                }
            }
        }
        g = g + 1;
    }
    best
}

/// Whether `key` lists only nodes below `active` that `l` does not hold.
pub open spec fn key_fits(key: Seq<usize>, l: Seq<usize>, active: usize) -> bool {
    &&& key.len() > 0
    &&& forall|j: int| 0 <= j < key.len() ==> #[trigger] key[j] < active && !l.contains(key[j])
}


/// The first position in `key` of a least loaded node, and whether all the
/// nodes of `key` carry the same load.
fn least_in(loads: &Vec<usize>, key: &Vec<usize>, Ghost(ls): Ghost<Seq<Seq<usize>>>) -> (r: (usize, bool))
    requires
        key.len() > 0,
        forall|j: int| 0 <= j < key.len() ==> #[trigger] key[j] < loads.len(),
        forall|i: int| 0 <= i < loads.len() ==> loads[i] == icount(ls, i as usize),
    ensures
        r.0 < key.len(),
        r.0 == kmin(ls, key@, key.len() as nat),
        r.1 == (icount(ls, key[kmin(ls, key@, key.len() as nat) as int]) == icount(ls, key[kmax(ls, key@, key.len() as nat) as int])),
        forall|j: int| 0 <= j < key.len() ==> loads[key[r.0 as int] as int] <= #[trigger] loads[key[j] as int],
        r.1 == (forall|j: int| 0 <= j < key.len() ==> #[trigger] loads[key[j] as int] == loads[key[r.0 as int] as int]),
{
    let mut lo: usize = 0;
    let mut hi: usize = 0;
    let mut k: usize = 1;
    while k < key.len()
        invariant
            key.len() > 0,
            forall|j: int| 0 <= j < key.len() ==> #[trigger] key[j] < loads.len(),
            1 <= k <= key.len(),
            lo < k && hi < k,
            forall|i: int| 0 <= i < loads.len() ==> loads[i] == icount(ls, i as usize),
            lo == kmin(ls, key@, k as nat),
            hi == kmax(ls, key@, k as nat),
            forall|j: int| 0 <= j < k ==> loads[key[lo as int] as int] <= #[trigger] loads[key[j] as int],
            forall|j: int| 0 <= j < k ==> #[trigger] loads[key[j] as int] <= loads[key[hi as int] as int],
        decreases key.len() - k,
    {
        assert(loads[key[k as int] as int] == icount(ls, key[k as int]));
        assert(loads[key[lo as int] as int] == icount(ls, key[lo as int]));
        assert(loads[key[hi as int] as int] == icount(ls, key[hi as int]));
        if loads[key[k]] < loads[key[lo]] {
            lo = k;
        }
        if loads[key[k]] > loads[key[hi]] {
            hi = k;
        }
        k = k + 1;
    }
    let same = loads[key[lo]] == loads[key[hi]];
    assert(loads[key[lo as int] as int] == icount(ls, key[lo as int]));
    assert(loads[key[hi as int] as int] == icount(ls, key[hi as int]));
    proof {
        if !same {
            assert(loads[key[hi as int] as int] != loads[key[lo as int] as int]);
        }
    }
    (lo, same)
}

impl Work {
    /// Gives every list that holds node `x` another node in its place, group by
    /// group: lists that miss the same nodes form a group, groups go in
    /// descending order of pressure, and within a group each list takes a least
    /// loaded node of the group's candidates, or, once those are all equally
    /// loaded, the candidates in turn.
    pub fn fill_orphans(&mut self, x: usize)
        requires
            old(self).wf(),
            x + 1 == old(self).loads.len(),
            forall|e: int| 0 <= e < old(self).lists.len() ==> (#[trigger] old(self).lists[e]).len() <= x,
        ensures
            final(self).wf(),
            final(self).start == old(self).start,
            final(self).lists.len() == old(self).lists.len(),
            final(self).loads.len() == old(self).loads.len(),
            final(self).loads[x as int] == 0,
            final(self).moves.len() == old(self).moves.len() + old(self).loads[x as int],
            final(self).moves@.take(old(self).moves.len() as int) == old(self).moves@,
            final(self).moves@ == old(self).moves@ + fill_moves(old(self).ls(), x),
            forall|k: int| old(self).moves.len() <= k < final(self).moves.len() ==>
                (#[trigger] final(self).moves[k]).1 == x && final(self).moves[k].2 < x,
            forall|e: int| 0 <= e < final(self).lists.len() ==>
                (#[trigger] final(self).lists[e]).len() == old(self).lists[e].len(),
    {
        let ghost ls0 = self.ls();
        let ghost moves0 = self.moves@;
        let ghost lx0 = self.loads[x as int];
        let active = x;
        let n = self.lists.len();
        // How many of the lists that hold `x` hold each other node.
        let mut deg: Vec<u64> = Vec::new();
        while deg.len() < active
            invariant
                deg.len() <= active,
                forall|c: int| 0 <= c < deg.len() ==> deg[c] == 0,
            decreases active - deg.len(),
        {
            deg.push(0);
        }
        let mut e: usize = 0;
        assert(ls0.take(0) =~= Seq::<Seq<usize>>::empty());
        while e < n
            invariant
                self.wf(),
                self.ls() == ls0,
                n == self.lists.len(),
                x + 1 == self.loads.len(),
                deg.len() == active,
                active == x,
                e <= n,
                forall|c: int| 0 <= c < active ==> #[trigger] deg[c] == sat(ocount(ls0.take(e as int), x, c as usize)),
            decreases n - e,
        {
            proof {
                lemma_ocount_take(ls0, e as int, x);
            }
            assert(self.lists[e as int]@ == ls0[e as int]);
            if position_of(&self.lists[e], x).is_some() {
                let mut j: usize = 0;
                assert(ls0[e as int].take(0) =~= Seq::<usize>::empty());
                while j < self.lists[e].len()
                    invariant
                        self.wf(),
                        self.ls() == ls0,
                        n == self.lists.len(),
                        e < n,
                        x + 1 == self.loads.len(),
                        deg.len() == active,
                        active == x,
                        j <= self.lists[e as int].len(),
                        ls0[e as int].contains(x),
                        forall|c: int| 0 <= c < active ==> #[trigger] deg[c] == sat(ocount(ls0.take(e as int), x, c as usize)
                            + if ls0[e as int].take(j as int).contains(c as usize) { 1nat } else { 0nat }),
                    decreases self.lists[e as int].len() - j,
                {
                    let v = self.lists[e][j];
                    assert(self.ls()[e as int][j as int] == v);
                    let ghost t0 = ls0[e as int].take(j as int);
                    let ghost t1 = ls0[e as int].take(j + 1);
                    proof {
                        assert(t1 =~= t0.push(v));
                        assert(!t0.contains(v)) by {
                            if t0.contains(v) {
                                let k = choose|k: int| 0 <= k < t0.len() && t0[k] == v;
                                assert(ls0[e as int][k] == ls0[e as int][j as int]);
                            }
                        }
                    }
                    if v != x {
                        deg.set(v, deg[v].saturating_add(1));
                    }
                    proof {
                        assert forall|c: int| 0 <= c < active implies #[trigger] deg[c] == sat(ocount(ls0.take(e as int), x, c as usize)
                            + if t1.contains(c as usize) { 1nat } else { 0nat }) by {
                            if t1.contains(c as usize) && c != v {
                                let k = choose|k: int| 0 <= k < t1.len() && t1[k] == c as usize;
                                assert(t0[k] == c);
                            }
                            if t0.contains(c as usize) {
                                let k = choose|k: int| 0 <= k < t0.len() && t0[k] == c as usize;
                                assert(t1[k] == c);
                            }
                            assert(t1[j as int] == v);
                        }
                    }
                    j = j + 1;
                }
                assert(ls0[e as int].take(self.lists[e as int].len() as int) =~= ls0[e as int]);
            }
            e = e + 1;
        }
        assert(ls0.take(n as int) =~= ls0);
        // Group the lists that hold `x` by their candidates.
        let mut keys: Vec<Vec<usize>> = Vec::new();
        let mut pressure: Vec<u64> = Vec::new();
        let mut gid: Vec<usize> = Vec::new();
        let mut pending: Vec<bool> = Vec::new();
        let mut e: usize = 0;
        while e < n
            invariant
                self.wf(),
                self.ls() == ls0,
                n == self.lists.len(),
                x + 1 == self.loads.len(),
                deg.len() == active,
                active == x,
                forall|a: int| 0 <= a < n ==> (#[trigger] self.lists[a]).len() <= x,
                e <= n,
                gid.len() == e,
                pending.len() == e,
                keys.len() == pressure.len(),
                forall|a: int| 0 <= a < e ==> #[trigger] pending[a] == ls0[a].contains(x),
                forall|a: int| 0 <= a < e && #[trigger] pending[a] ==>
                    gid[a] < keys.len() && key_fits(keys[gid[a] as int]@, ls0[a], active),
                forall|c: int| 0 <= c < active ==> #[trigger] deg[c] == sat(ocount(ls0, x, c as usize)),
                keys@.map_values(|k: Vec<usize>| k@) == grouping(ls0, x, active as nat, e as nat).0,
                pressure@ == grouping(ls0, x, active as nat, e as nat).1,
                gid@ == grouping(ls0, x, active as nat, e as nat).2,
            decreases n - e,
        {
            let ghost kv = keys@.map_values(|k: Vec<usize>| k@);
            assert(self.lists[e as int]@ == ls0[e as int]);
            if position_of(&self.lists[e], x).is_some() {
                let key = candidates(&self.lists[e], x, active);
                let mut g: usize = 0;
                let mut found = false;
                while !found && g < keys.len()
                    invariant
                        g <= keys.len(),
                        kv == keys@.map_values(|k: Vec<usize>| k@),
                        found ==> g < keys.len() && keys[g as int]@ == key@,
                        found ==> g == find_key(kv, key@, 0),
                        !found ==> find_key(kv, key@, 0) == find_key(kv, key@, g as nat),
                    decreases keys.len() - g + (if found { 0int } else { 1int }),
                {
                    assert(kv[g as int] == keys[g as int]@);
                    if same_list(&keys[g], &key) {
                        found = true;
                    } else {
                        g = g + 1;
                    }
                }
                let mut w: u64 = 0;
                let mut j: usize = 0;
                while j < self.lists[e].len()
                    invariant
                        self.wf(),
                        self.ls() == ls0,
                        n == self.lists.len(),
                        e < n,
                        x + 1 == self.loads.len(),
                        deg.len() == active,
                        active == x,
                        j <= self.lists[e as int].len(),
                        w == weight(ls0, x, ls0[e as int], j as nat),
                        forall|c: int| 0 <= c < active ==> #[trigger] deg[c] == sat(ocount(ls0, x, c as usize)),
                    decreases self.lists[e as int].len() - j,
                {
                    let v = self.lists[e][j];
                    assert(self.ls()[e as int][j as int] == v);
                    if v != x {
                        w = w.saturating_add(deg[v]);
                    }
                    j = j + 1;
                }
                proof {
                    assert(ls0[e as int].take(ls0[e as int].len() as int) =~= ls0[e as int]);
                    if !found {
                        assert(find_key(kv, key@, 0) == kv.len()) by {
                            lemma_find_key(kv, key@, g as nat);
                        }
                    }
                }
                if !found {
                    g = keys.len();
                    keys.push(key);
                    pressure.push(w);
                } else {
                    let p = pressure[g].saturating_add(w);
                    pressure.set(g, p);
                }
                gid.push(g);
                pending.push(true);
                assert(keys@.map_values(|k: Vec<usize>| k@) =~= grouping(ls0, x, active as nat, (e + 1) as nat).0);
            } else {
                gid.push(0);
                pending.push(false);
                assert(keys@.map_values(|k: Vec<usize>| k@) =~= grouping(ls0, x, active as nat, (e + 1) as nat).0);
            }
            e = e + 1;
        }
        // Fill the groups.
        let mut done: Vec<bool> = Vec::new();
        while done.len() < keys.len()
            invariant
                done.len() <= keys.len(),
                forall|g: int| 0 <= g < done.len() ==> !done[g],
            decreases keys.len() - done.len(),
        {
            done.push(false);
        }
        let ghost kv = keys@.map_values(|k: Vec<usize>| k@);
        let ghost fm = fill_moves(ls0, x);
        proof {
            assert(pending@ =~= Seq::new(ls0.len(), |e: int| ls0[e].contains(x)));
            assert(done@ =~= Seq::new(kv.len(), |i: int| false));
            assert(moves0 + fill_from(self.ls(), x, kv, pressure@, gid@, pending@, done@) == moves0 + fm);
        }
        let mut next = next_group(&done, &pressure);
        while next.is_some()
            invariant
                kv == keys@.map_values(|k: Vec<usize>| k@),
                self.moves@ + fill_from(self.ls(), x, kv, pressure@, gid@, pending@, done@) == moves0 + fm,
                next == pick(done@, pressure@, 0, None),
                iapply(self.start@, self.moves@) == self.ls(),
                self.wf(),
                self.start == old(self).start,
                n == self.lists.len(),
                x + 1 == self.loads.len(),
                active == x,
                ls0.len() == n,
                gid.len() == n,
                pending.len() == n,
                done.len() == keys.len(),
                pressure.len() == keys.len(),
                next is None ==> forall|g: int| 0 <= g < done.len() ==> done[g],
                next is Some ==> next->0 < done.len() && !done[next->0 as int],
                forall|a: int| 0 <= a < n ==> (#[trigger] self.ls()[a]).len() == ls0[a].len(),
                forall|a: int| 0 <= a < n && #[trigger] pending[a] ==> {
                    &&& self.ls()[a] == ls0[a]
                    &&& ls0[a].contains(x)
                    &&& gid[a] < keys.len()
                    &&& key_fits(keys[gid[a] as int]@, ls0[a], active)
                    &&& !done[gid[a] as int]
                },
                forall|a: int| 0 <= a < n && !(#[trigger] pending[a]) ==> !self.ls()[a].contains(x),
                self.moves.len() - moves0.len() + self.loads[x as int] == lx0,
                moves0.len() <= self.moves.len(),
                self.moves@.take(moves0.len() as int) == moves0,
                forall|k: int| moves0.len() <= k < self.moves.len() ==>
                    (#[trigger] self.moves[k]).1 == x && self.moves[k].2 < x,
            decreases count_false(done@),
        {
            let g = next.unwrap();
            let key = &keys[g];
            let ghost ls_gs = self.ls();
            let ghost mv_gs = self.moves@;
            let ghost pend_gs = pending@;
            let ghost gm = grp(ls_gs, x, g, kv[g as int], gid@, pend_gs, 0, false, 0);
            assert(kv[g as int] == key@);
            assert(fill_from(ls_gs, x, kv, pressure@, gid@, pend_gs, done@)
                == gm + fill_from(iapply(ls_gs, gm), x, kv, pressure@, gid@, clear(pend_gs, gid@, g), done@.update(g as int, true)));
            let mut cycling = false;
            let mut rot: usize = 0;
            let mut e: usize = 0;
            while e < n
                invariant
                    kv == keys@.map_values(|k: Vec<usize>| k@),
                    kv[g as int] == key@,
                    mv_gs + gm == self.moves@ + grp(self.ls(), x, g, key@, gid@, pend_gs, e as nat, cycling, rot as nat),
                    pend_gs.len() == n,
                    forall|a: int| 0 <= a < n ==> #[trigger] pending[a] == (pend_gs[a] && !(a < e && gid[a] == g)),
                    iapply(self.start@, mv_gs) == ls_gs,
                    iapply(self.start@, self.moves@) == self.ls(),
                    self.wf(),
                    self.start == old(self).start,
                    n == self.lists.len(),
                    x + 1 == self.loads.len(),
                    active == x,
                    ls0.len() == n,
                    gid.len() == n,
                    pending.len() == n,
                    done.len() == keys.len(),
                    g < keys.len(),
                    !done[g as int],
                    key == &keys[g as int],
                    e <= n,
                    rot <= e,
                    forall|a: int| 0 <= a < n ==> (#[trigger] self.ls()[a]).len() == ls0[a].len(),
                    forall|a: int| 0 <= a < n && #[trigger] pending[a] ==> {
                        &&& self.ls()[a] == ls0[a]
                        &&& ls0[a].contains(x)
                        &&& gid[a] < keys.len()
                        &&& key_fits(keys[gid[a] as int]@, ls0[a], active)
                        &&& !done[gid[a] as int]
                    },
                    forall|a: int| 0 <= a < e && #[trigger] pending[a] ==> gid[a] != g,
                    forall|a: int| 0 <= a < n && !(#[trigger] pending[a]) ==> !self.ls()[a].contains(x),
                    self.moves.len() - moves0.len() + self.loads[x as int] == lx0,
                    moves0.len() <= self.moves.len(),
                    self.moves@.take(moves0.len() as int) == moves0,
                    forall|k: int| moves0.len() <= k < self.moves.len() ==>
                        (#[trigger] self.moves[k]).1 == x && self.moves[k].2 < x,
                decreases n - e,
            {
                if pending[e] && gid[e] == g {
                    assert(key_fits(key@, ls0[e as int], active));
                    assert forall|j: int| 0 <= j < key.len() implies #[trigger] key[j] < self.loads.len() by {
                        assert(key@[j] < active);
                    }
                    let ghost lsc = self.ls();
                    let ghost cyc0 = cycling;
                    let ghost rot0 = rot as nat;
                    let mut j: usize = 0;
                    if !cycling {
                        let (lo, same) = least_in(&self.loads, key, Ghost(self.ls()));
                        if same {
                            cycling = true;
                        } else {
                            j = lo;
                        }
                    }
                    if cycling {
                        j = rot % key.len();
                        rot = rot + 1;
                    }
                    let c = key[j];
                    assert(key@[j as int] == c);
                    assert(c < active && !ls0[e as int].contains(c));
                    let pos = position_of(&self.lists[e], x);
                    assert(self.ls()[e as int] == self.lists[e as int]@);
                    let pos = pos.unwrap();
                    let ghost mv = self.moves@;
                    let ghost lsb = self.ls();
                    let ghost lxb = self.loads[x as int];
                    assert(self.lists[e as int][pos as int] == x);
                    assert(c != x);
                    self.apply_move(e, pos, c);
                    assert(self.loads@[x as int] == lxb - 1);
                    pending.set(e, false);
                    proof {
                        lemma_replace_at(lsb[e as int], pos as int, c);
                        let m = (e, x, c);
                        assert(self.ls() =~= imove(lsb, m));
                        assert(grp(lsb, x, g, key@, gid@, pend_gs, e as nat, cyc0, rot0)
                            == seq![m] + grp(imove(lsb, m), x, g, key@, gid@, pend_gs, (e + 1) as nat, cycling, rot as nat));
                        assert(self.moves@ + grp(self.ls(), x, g, key@, gid@, pend_gs, (e + 1) as nat, cycling, rot as nat)
                            =~= mv + grp(lsb, x, g, key@, gid@, pend_gs, e as nat, cyc0, rot0));
                        assert(self.moves@.take(moves0.len() as int) =~= moves0) by {
                            assert(mv.take(moves0.len() as int) == moves0);
                        }
                        assert(self.moves[mv.len() as int] == (e, x, c));
                        assert forall|a: int| 0 <= a < n implies (#[trigger] self.ls()[a]).len() == ls0[a].len() by {
                            if a != e {
                                assert(self.ls()[a] == lsb[a]);
                            }
                        }
                    }
                }
                e = e + 1;
            }
            proof {
                assert(self.moves@ + Seq::<(usize, usize, usize)>::empty() =~= self.moves@);
                assert(self.moves@ == mv_gs + gm);
                lemma_iapply_concat(self.start@, mv_gs, gm);
                assert(pending@ =~= clear(pend_gs, gid@, g));
            }
            let ghost d0 = done@;
            done.set(g, true);
            proof {
                lemma_count_false_set(d0, g as int);
                assert(self.moves@ + fill_from(self.ls(), x, kv, pressure@, gid@, pending@, done@)
                    =~= mv_gs + fill_from(ls_gs, x, kv, pressure@, gid@, pend_gs, d0));
            }
            next = next_group(&done, &pressure);
        }
        proof {
            assert(self.moves@ + Seq::<(usize, usize, usize)>::empty() =~= self.moves@);
            assert forall|a: int| 0 <= a < self.ls().len() implies !(#[trigger] self.ls()[a]).contains(x) by {
                if pending[a] {
                    assert(done[gid[a] as int]);
                }
            }
            lemma_icount_zero(self.ls(), x);
            assert forall|a: int| 0 <= a < self.lists.len() implies
                (#[trigger] self.lists[a]).len() == old(self).lists[a].len() by {
                assert(self.ls()[a].len() == ls0[a].len());
                assert(ls0[a] == old(self).lists[a]@);
            }
        }
    }
}


impl Work {
    /// The working state for `lists` over a table of `n` nodes, with no moves yet.
    pub fn new(lists: Vec<Vec<usize>>, n: usize) -> (w: Work)
        requires
            below(lists@.map_values(|l: Vec<usize>| l@), n as nat),
            all_distinct(lists@.map_values(|l: Vec<usize>| l@)),
        ensures
            w.wf(),
            w.ls() == lists@.map_values(|l: Vec<usize>| l@),
            w.start@ == w.ls(),
            w.moves@.len() == 0,
            w.loads.len() == n,
            w.lists.len() == lists.len(),
            forall|e: int| 0 <= e < lists.len() ==> (#[trigger] w.lists[e]).len() == lists[e].len(),
    {
        let ghost ls = lists@.map_values(|l: Vec<usize>| l@);
        let mut loads: Vec<usize> = Vec::new();
        while loads.len() < n
            invariant
                loads.len() <= n,
                forall|i: int| 0 <= i < loads.len() ==> loads[i] == 0,
                sum(loads@) == 0,
            decreases n - loads.len(),
        {
            let ghost l0 = loads@;
            loads.push(0);
            assert(loads@.drop_last() == l0);
        }
        let mut e: usize = 0;
        assert(ls.take(0).len() == 0);
        while e < lists.len()
            invariant
                ls == lists@.map_values(|l: Vec<usize>| l@),
                below(ls, n as nat),
                all_distinct(ls),
                loads.len() == n,
                e <= lists.len(),
                forall|i: int| 0 <= i < n ==> loads[i] == icount(ls.take(e as int), i as usize),
                sum(loads@) == itotal(ls.take(e as int)),
            decreases lists.len() - e,
        {
            let l = &lists[e];
            assert(ls[e as int] == l@);
            let mut j: usize = 0;
            assert(l@.take(0).len() == 0);
            while j < l.len()
                invariant
                    ls == lists@.map_values(|l: Vec<usize>| l@),
                    below(ls, n as nat),
                    all_distinct(ls),
                    l == &lists[e as int],
                    ls[e as int] == l@,
                    e < lists.len(),
                    loads.len() == n,
                    j <= l.len(),
                    forall|i: int| 0 <= i < n ==> loads[i] == icount(ls.take(e as int), i as usize)
                        + (if l@.take(j as int).contains(i as usize) { 1int } else { 0int }),
                    sum(loads@) == itotal(ls.take(e as int)) + j,
                decreases l.len() - j,
            {
                let v = l[j];
                assert(ls[e as int][j as int] == v);
                let ghost before = loads@;
                proof {
                    assert(!l@.take(j as int).contains(v)) by {
                        if l@.take(j as int).contains(v) {
                            let k = choose|k: int| 0 <= k < j && l@.take(j as int)[k] == v;
                            assert(l@[k] == l@[j as int]);
                        }
                    }
                    lemma_icount_le(ls.take(e as int), v);
                    assert(ls.take(e as int).len() == e);
                }
                loads.set(v, loads[v] + 1);
                proof {
                    lemma_sum_update(before, v as int, (before[v as int] + 1) as usize);
                    let t0 = l@.take(j as int);
                    let t1 = l@.take(j + 1);
                    assert(t1 =~= t0.push(v));
                    assert forall|i: int| 0 <= i < n implies loads[i] == icount(ls.take(e as int), i as usize)
                        + (if t1.contains(i as usize) { 1int } else { 0int }) by {
                        if t1.contains(i as usize) && i != v {
                            let k = choose|k: int| 0 <= k < t1.len() && t1[k] == i as usize;
                            assert(t0[k] == i);
                        }
                        if t0.contains(i as usize) {
                            let k = choose|k: int| 0 <= k < t0.len() && t0[k] == i as usize;
                            assert(t1[k] == i);
                        }
                        assert(t1[j as int] == v);
                    }
                }
                j = j + 1;
            }
            proof {
                let t = ls.take(e + 1);
                assert(t.drop_last() =~= ls.take(e as int));
                assert(t.last() == l@);
                assert(l@.take(l.len() as int) =~= l@);
            }
            e = e + 1;
        }
        assert(ls.take(lists.len() as int) =~= ls);
        let w = Work { lists, loads, moves: Vec::new(), start: Ghost(ls) };
        assert(w.ls() =~= ls);
        assert(w.moves@ =~= Seq::<(usize, usize, usize)>::empty());
        w
    }
}

} // verus!
