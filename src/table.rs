//! The node table: how an assignment of names stands for an assignment of
//! table positions, and back.
use vstd::prelude::*;
use crate::engine::{icount, itotal, ireplace, imove, iapply, below, all_distinct, sum, lemma_balanced_near_average};
use crate::names::{name_lt, lex_lt, ascending_names, lemma_lex_total, lemma_lex_transitive};
use crate::model::{
    Model, Node, Move, Partition, Assignment, names_of, moves_of, model_of, lemma_view_def, balanced, load, total, lists_distinct, replace_node, apply_move, apply_moves, holds,
};

verus! {

/// The assignment that positions `ls` stand for, with partitions `keys` and
/// node names `names`.
pub open spec fn dec(keys: Seq<u32>, ls: Seq<Seq<usize>>, names: Seq<Seq<char>>) -> Model {
    Seq::new(ls.len(), |e: int| (keys[e], dec_list(ls[e], names)))
}

pub open spec fn dec_list(l: Seq<usize>, names: Seq<Seq<char>>) -> Seq<Seq<char>> {
    l.map_values(|i: usize| names[i as int])
}

pub open spec fn dec_moves(keys: Seq<u32>, ms: Seq<(usize, usize, usize)>, names: Seq<Seq<char>>) -> Seq<(u32, Seq<char>, Seq<char>)> {
    ms.map_values(|m: (usize, usize, usize)| (keys[m.0 as int], names[m.1 as int], names[m.2 as int]))
}

pub open spec fn injective_keys(keys: Seq<u32>, n: nat) -> bool {
    forall|a: int, b: int| 0 <= a < n && 0 <= b < n && a != b ==> keys[a] != keys[b]
}

pub proof fn lemma_dec_contains(l: Seq<usize>, names: Seq<Seq<char>>, i: usize)
    requires
        names.no_duplicates(),
        i < names.len(),
        forall|j: int| 0 <= j < l.len() ==> #[trigger] l[j] < names.len(),
    ensures
        dec_list(l, names).contains(names[i as int]) == l.contains(i),
{
    let d = dec_list(l, names);
    if l.contains(i) {
        let j = choose|j: int| 0 <= j < l.len() && l[j] == i;
        assert(d[j] == names[i as int]);
    }
    if d.contains(names[i as int]) {
        let j = choose|j: int| 0 <= j < d.len() && d[j] == names[i as int];
        assert(names[l[j] as int] == names[i as int]);
        assert(l[j] == i);
    }
}

pub proof fn lemma_dec_holds(keys: Seq<u32>, ls: Seq<Seq<usize>>, names: Seq<Seq<char>>, n: Seq<char>)
    requires
        below(ls, names.len()),
        holds(dec(keys, ls, names), n),
    ensures
        names.contains(n),
{
    let a = dec(keys, ls, names);
    let e = choose|e: int| 0 <= e < a.len() && (#[trigger] a[e]).1.contains(n);
    let j = choose|j: int| 0 <= j < a[e].1.len() && a[e].1[j] == n;
    assert(ls[e][j] < names.len());
    assert(names[ls[e][j] as int] == n);
}

pub proof fn lemma_load_dec(keys: Seq<u32>, ls: Seq<Seq<usize>>, names: Seq<Seq<char>>, i: usize)
    requires
        names.no_duplicates(),
        below(ls, names.len()),
        i < names.len(),
    ensures
        load(dec(keys, ls, names), names[i as int]) == icount(ls, i),
        total(dec(keys, ls, names)) == itotal(ls),
    decreases ls.len(),
{
    if ls.len() > 0 {
        let d = ls.drop_last();
        assert(dec(keys, d, names) =~= dec(keys, ls, names).drop_last());
        lemma_load_dec(keys, d, names, i);
        let l = ls.last();
        assert(l == ls[ls.len() - 1]);
        assert forall|j: int| 0 <= j < l.len() implies #[trigger] l[j] < names.len() by {
            assert(ls[ls.len() - 1][j] < names.len());
        }
        lemma_dec_contains(l, names, i);
    }
}

pub proof fn lemma_dec_distinct(keys: Seq<u32>, ls: Seq<Seq<usize>>, names: Seq<Seq<char>>)
    requires
        names.no_duplicates(),
        below(ls, names.len()),
        all_distinct(ls),
    ensures
        lists_distinct(dec(keys, ls, names)),
{
    let a = dec(keys, ls, names);
    assert forall|e: int| 0 <= e < a.len() implies (#[trigger] a[e]).1.no_duplicates() by {
        let d = a[e].1;
        assert forall|j: int, k: int| 0 <= j < d.len() && 0 <= k < d.len() && j != k implies d[j] != d[k] by {
            assert(ls[e].no_duplicates());
            assert(ls[e][j] != ls[e][k]);
            assert(ls[e][j] < names.len() && ls[e][k] < names.len());
        }
    }
}

pub proof fn lemma_dec_move(keys: Seq<u32>, ls: Seq<Seq<usize>>, names: Seq<Seq<char>>, m: (usize, usize, usize))
    requires
        names.no_duplicates(),
        below(ls, names.len()),
        injective_keys(keys, ls.len()),
        m.0 < ls.len(),
        m.1 < names.len(),
        m.2 < names.len(),
    ensures
        dec(keys, imove(ls, m), names) == apply_move(
            dec(keys, ls, names),
            (keys[m.0 as int], names[m.1 as int], names[m.2 as int]),
        ),
        below(imove(ls, m), names.len()),
{
    let mv = (keys[m.0 as int], names[m.1 as int], names[m.2 as int]);
    let lhs = dec(keys, imove(ls, m), names);
    let rhs = apply_move(dec(keys, ls, names), mv);
    assert forall|e: int| 0 <= e < lhs.len() implies lhs[e] == rhs[e] by {
        if e == m.0 {
            let l = ls[e];
            assert(dec_list(ireplace(l, m.1, m.2), names) =~= replace_node(dec_list(l, names), mv.1, mv.2)) by {
                assert forall|j: int| 0 <= j < l.len() implies
                    #[trigger] dec_list(ireplace(l, m.1, m.2), names)[j] == replace_node(dec_list(l, names), mv.1, mv.2)[j] by {
                    assert(l[j] < names.len());
                    if names[l[j] as int] == names[m.1 as int] {
                        assert(l[j] == m.1);
                    }
                }
            }
        } else {
            assert(keys[e] != keys[m.0 as int]);
        }
    }
    assert(lhs =~= rhs);
    assert(below(imove(ls, m), names.len())) by {
        let u = imove(ls, m);
        assert forall|e: int, j: int| 0 <= e < u.len() && 0 <= j < u[e].len() implies u[e][j] < names.len() by {
            if e == m.0 {
                assert(ls[e][j] < names.len());
            }
        }
    }
}

pub proof fn lemma_dec_moves(keys: Seq<u32>, ls: Seq<Seq<usize>>, names: Seq<Seq<char>>, ms: Seq<(usize, usize, usize)>)
    requires
        names.no_duplicates(),
        below(ls, names.len()),
        injective_keys(keys, ls.len()),
        forall|k: int| 0 <= k < ms.len() ==> {
            &&& (#[trigger] ms[k]).0 < ls.len()
            &&& ms[k].1 < names.len()
            &&& ms[k].2 < names.len()
        },
    ensures
        dec(keys, iapply(ls, ms), names) == apply_moves(dec(keys, ls, names), dec_moves(keys, ms, names)),
        below(iapply(ls, ms), names.len()),
        iapply(ls, ms).len() == ls.len(),
    decreases ms.len(),
{
    if ms.len() > 0 {
        let d = ms.drop_last();
        assert forall|k: int| 0 <= k < d.len() implies {
            &&& (#[trigger] d[k]).0 < ls.len()
            &&& d[k].1 < names.len()
            &&& d[k].2 < names.len()
        } by {
            assert(d[k] == ms[k]);
        }
        lemma_dec_moves(keys, ls, names, d);
        assert(dec_moves(keys, ms, names).drop_last() =~= dec_moves(keys, d, names));
        assert(ms.last() == ms[ms.len() - 1]);
        lemma_dec_move(keys, iapply(ls, d), names, ms.last());
    }
}


pub open spec fn lists_view(lists: Seq<Vec<usize>>) -> Seq<Seq<usize>> {
    lists.map_values(|l: Vec<usize>| l@)
}

/// The position of a node named as `n`, if any.
pub fn find_name(names: &Vec<Node>, n: &Node) -> (r: Option<usize>)
    ensures
        r is Some ==> r->0 < names.len() && names[r->0 as int]@ == n@,
        r is None ==> !names_of(names@).contains(n@),
{
    let mut k: usize = 0;
    while k < names.len()
        invariant
            k <= names.len(),
            forall|j: int| 0 <= j < k ==> names[j]@ != n@,
        decreases names.len() - k,
    {
        if names[k].same_as(n) {
            return Some(k);
        }
        k = k + 1;
    }
    proof {
        if names_of(names@).contains(n@) {
            let j = choose|j: int| 0 <= j < names.len() && names_of(names@)[j] == n@;
            assert(names[j]@ == n@);
        }
    }
    None
}

/// Adds a node named as `n`, unless there is one, before the first name that
/// does not come before it.
pub fn add_name(names: &mut Vec<Node>, n: &Node)
    requires
        names_of(old(names)@).no_duplicates(),
        ascending_names(names_of(old(names)@)),
    ensures
        names_of(final(names)@).no_duplicates(),
        ascending_names(names_of(final(names)@)),
        forall|m: Seq<char>| #[trigger] names_of(final(names)@).contains(m) <==>
            (names_of(old(names)@).contains(m) || m == n@),
{
    let found = find_name(names, n);
    if found.is_some() {
        proof {
            let i = found->0;
            assert(names_of(names@)[i as int] == n@);
        }
        return;
    }
    let ghost v0 = names_of(names@);
    let mut k: usize = 0;
    while k < names.len() && name_lt(&names[k].0, &n.0)
        invariant
            k <= names.len(),
            v0 == names_of(names@),
            forall|j: int| 0 <= j < k ==> lex_lt(#[trigger] v0[j], n@),
        decreases names.len() - k,
    {
        k = k + 1;
    }
    proof {
        if k < names.len() {
            assert(v0[k as int] == names[k as int]@);
            assert(v0[k as int] != n@);
            lemma_lex_total(v0[k as int], n@);
        }
    }
    names.insert(k, n.duplicate());
    proof {
        let v1 = names_of(names@);
        assert(v1 =~= v0.insert(k as int, n@));
        assert forall|m: Seq<char>| #[trigger] v1.contains(m) <==> (v0.contains(m) || m == n@) by {
            if v1.contains(m) {
                let j = choose|j: int| 0 <= j < v1.len() && v1[j] == m;
                if j < k {
                    assert(v0[j] == m);
                } else if j > k {
                    assert(v0[j - 1] == m);
                }
            }
            if v0.contains(m) {
                let j = choose|j: int| 0 <= j < v0.len() && v0[j] == m;
                if j < k {
                    assert(v1[j] == m);
                } else {
                    assert(v1[j + 1] == m);
                }
            }
            assert(v1[k as int] == n@);
        }
        assert forall|a: int, b: int| 0 <= a < b < v1.len() implies lex_lt(v1[a], v1[b]) by {
            if b < k {
                assert(v1[a] == v0[a] && v1[b] == v0[b]);
            } else if b == k {
                assert(v1[a] == v0[a]);
            } else if a < k {
                assert(v1[a] == v0[a] && v1[b] == v0[b - 1]);
                if b - 1 > k {
                    assert(lex_lt(v0[k as int], v0[b - 1]));
                    lemma_lex_transitive(n@, v0[k as int], v0[b - 1]);
                }
                lemma_lex_transitive(v0[a], n@, v0[b - 1]);
            } else if a == k {
                assert(v1[b] == v0[b - 1]);
                if b - 1 > k {
                    assert(lex_lt(v0[k as int], v0[b - 1]));
                    lemma_lex_transitive(n@, v0[k as int], v0[b - 1]);
                }
            } else {
                assert(v1[a] == v0[a - 1] && v1[b] == v0[b - 1]);
            }
        }
        assert forall|a: int, b: int| 0 <= a < v1.len() && 0 <= b < v1.len() && a != b implies v1[a] != v1[b] by {
            if a != k && b != k {
                let a0 = if a < k { a } else { a - 1 };
                let b0 = if b < k { b } else { b - 1 };
                assert(v1[a] == v0[a0] && v1[b] == v0[b0]);
            } else if a == k {
                let b0 = if b < k { b } else { b - 1 };
                assert(v1[b] == v0[b0]);
            } else {
                let a0 = if a < k { a } else { a - 1 };
                assert(v1[a] == v0[a0]);
            }
        }
    }
}

/// The names of the nodes of `a` and of `extra`, each once, ordered by name.
pub fn build_table(a: &Assignment, extra: &Vec<Node>) -> (names: Vec<Node>)
    ensures
        names_of(names@).no_duplicates(),
        ascending_names(names_of(names@)),
        forall|m: Seq<char>| #[trigger] names_of(names@).contains(m) <==>
            (holds(a@, m) || names_of(extra@).contains(m)),
{
    proof {
        lemma_view_def(a);
    }
    let ghost av = a@;
    let mut names: Vec<Node> = Vec::new();
    let mut e: usize = 0;
    assert(names_of(names@) =~= Seq::<Seq<char>>::empty());
    while e < a.entries.len()
        invariant
            av == a@,
            av == model_of(a.entries@),
            e <= a.entries.len(),
            names_of(names@).no_duplicates(),
            ascending_names(names_of(names@)),
            forall|m: Seq<char>| #[trigger] names_of(names@).contains(m) <==>
                (exists|e2: int| 0 <= e2 < e && (#[trigger] av[e2]).1.contains(m)),
        decreases a.entries.len() - e,
    {
        let l = &a.entries[e].1;
        assert(av[e as int].1 == names_of(l@));
        let mut j: usize = 0;
        while j < l.len()
            invariant
                av == model_of(a.entries@),
                l == &a.entries[e as int].1,
                av[e as int].1 == names_of(l@),
                e < a.entries.len(),
                j <= l.len(),
                names_of(names@).no_duplicates(),
                ascending_names(names_of(names@)),
                forall|m: Seq<char>| #[trigger] names_of(names@).contains(m) <==>
                    ((exists|e2: int| 0 <= e2 < e && (#[trigger] av[e2]).1.contains(m))
                        || names_of(l@).take(j as int).contains(m)),
            decreases l.len() - j,
        {
            let ghost before = names_of(names@);
            add_name(&mut names, &l[j]);
            proof {
                let t0 = names_of(l@).take(j as int);
                let t1 = names_of(l@).take(j + 1);
                assert(t1 =~= t0.push(l[j as int]@));
                assert forall|m: Seq<char>| t1.contains(m) <==> (t0.contains(m) || m == l[j as int]@) by {
                    if t1.contains(m) {
                        let k = choose|k: int| 0 <= k < t1.len() && t1[k] == m;
                        if k < j {
                            assert(t0[k] == m);
                        }
                    }
                    if t0.contains(m) {
                        let k = choose|k: int| 0 <= k < t0.len() && t0[k] == m;
                        assert(t1[k] == m);
                    }
                    assert(t1[j as int] == l[j as int]@);
                }
            }
            j = j + 1;
        }
        proof {
            assert(names_of(l@).take(l.len() as int) =~= av[e as int].1);
            assert forall|m: Seq<char>| #[trigger] names_of(names@).contains(m) <==>
                (exists|e2: int| 0 <= e2 < e + 1 && (#[trigger] av[e2]).1.contains(m)) by {
                if exists|e2: int| 0 <= e2 < e + 1 && (#[trigger] av[e2]).1.contains(m) {
                    let e2 = choose|e2: int| 0 <= e2 < e + 1 && (#[trigger] av[e2]).1.contains(m);
                    if e2 < e {
                        assert(exists|e3: int| 0 <= e3 < e && (#[trigger] av[e3]).1.contains(m));
                    }
                }
                if names_of(names@).contains(m) {
                    if !(exists|e2: int| 0 <= e2 < e && (#[trigger] av[e2]).1.contains(m)) {
                        assert(av[e as int].1.contains(m));
                    }
                }
            }
        }
        e = e + 1;
    }
    let mut k: usize = 0;
    while k < extra.len()
        invariant
            av == a@,
            e == av.len(),
            k <= extra.len(),
            names_of(names@).no_duplicates(),
            ascending_names(names_of(names@)),
            forall|m: Seq<char>| #[trigger] names_of(names@).contains(m) <==>
                (holds(av, m) || names_of(extra@).take(k as int).contains(m)),
        decreases extra.len() - k,
    {
        add_name(&mut names, &extra[k]);
        proof {
            let t0 = names_of(extra@).take(k as int);
            let t1 = names_of(extra@).take(k + 1);
            assert(t1 =~= t0.push(extra[k as int]@));
            assert forall|m: Seq<char>| t1.contains(m) <==> (t0.contains(m) || m == extra[k as int]@) by {
                if t1.contains(m) {
                    let i = choose|i: int| 0 <= i < t1.len() && t1[i] == m;
                    if i < k {
                        assert(t0[i] == m);
                    }
                }
                if t0.contains(m) {
                    let i = choose|i: int| 0 <= i < t0.len() && t0[i] == m;
                    assert(t1[i] == m);
                }
                assert(t1[k as int] == extra[k as int]@);
            }
        }
        k = k + 1;
    }
    assert(names_of(extra@).take(extra.len() as int) =~= names_of(extra@));
    names
}


/// The partitions of `a`, and its replica lists as table positions.
pub fn index_lists(a: &Assignment, names: &Vec<Node>) -> (r: (Vec<u32>, Vec<Vec<usize>>))
    requires
        names_of(names@).no_duplicates(),
        forall|m: Seq<char>| holds(a@, m) ==> #[trigger] names_of(names@).contains(m),
    ensures
        r.0.len() == r.1.len(),
        r.0.len() == a@.len(),
        forall|e: int| 0 <= e < r.0.len() ==> #[trigger] r.0[e] == a@[e].0,
        below(lists_view(r.1@), names.len() as nat),
        dec(r.0@, lists_view(r.1@), names_of(names@)) == a@,
{
    proof {
        lemma_view_def(a);
    }
    let ghost av = a@;
    let ghost nv = names_of(names@);
    let mut parts: Vec<u32> = Vec::new();
    let mut lists: Vec<Vec<usize>> = Vec::new();
    let mut e: usize = 0;
    while e < a.entries.len()
        invariant
            av == a@,
            av == model_of(a.entries@),
            nv == names_of(names@),
            forall|m: Seq<char>| holds(av, m) ==> #[trigger] nv.contains(m),
            e <= a.entries.len(),
            parts.len() == e,
            lists.len() == e,
            forall|k: int| 0 <= k < e ==> #[trigger] parts[k] == av[k].0,
            forall|k: int| 0 <= k < e ==> #[trigger] dec_list(lists[k]@, nv) == av[k].1,
            below(lists_view(lists@), names.len() as nat),
        decreases a.entries.len() - e,
    {
        let l = &a.entries[e].1;
        assert(av[e as int].1 == names_of(l@));
        let mut li: Vec<usize> = Vec::new();
        let mut j: usize = 0;
        while j < l.len()
            invariant
                av == model_of(a.entries@),
                nv == names_of(names@),
                forall|m: Seq<char>| holds(av, m) ==> #[trigger] nv.contains(m),
                l == &a.entries[e as int].1,
                av[e as int].1 == names_of(l@),
                e < a.entries.len(),
                j <= l.len(),
                li.len() == j,
                forall|k: int| 0 <= k < j ==> #[trigger] li[k] < names.len() && nv[li[k] as int] == l[k]@,
            decreases l.len() - j,
        {
            let ghost m = l[j as int]@;
            assert(av[e as int].1[j as int] == m);
            assert(holds(av, m));
            let i = find_name(names, &l[j]);
            proof {
                if i is None {
                    assert(nv.contains(m));
                }
            }
            let i = i.unwrap();
            li.push(i);
            j = j + 1;
        }
        assert(dec_list(li@, nv) =~= av[e as int].1);
        parts.push(a.entries[e].0.0);
        let ghost lv0 = lists_view(lists@);
        lists.push(li);
        proof {
            let lv = lists_view(lists@);
            assert(lv =~= lv0.push(li@));
            assert forall|x: int, y: int| 0 <= x < lv.len() && 0 <= y < lv[x].len() implies lv[x][y] < names.len() by {
                if x < e {
                    assert(lv[x] == lv0[x]);
                }
            }
        }
        e = e + 1;
    }
    assert(dec(parts@, lists_view(lists@), nv) =~= av);
    (parts, lists)
}

/// The assignment that `lists` stands for.
pub fn decode(parts: &Vec<u32>, lists: &Vec<Vec<usize>>, names: &Vec<Node>) -> (r: Assignment)
    requires
        parts.len() == lists.len(),
        below(lists_view(lists@), names.len() as nat),
    ensures
        r@ == dec(parts@, lists_view(lists@), names_of(names@)),
{
    let ghost nv = names_of(names@);
    let ghost target = dec(parts@, lists_view(lists@), nv);
    let mut entries: Vec<(Partition, Vec<Node>)> = Vec::new();
    let mut e: usize = 0;
    while e < lists.len()
        invariant
            parts.len() == lists.len(),
            below(lists_view(lists@), names.len() as nat),
            nv == names_of(names@),
            target == dec(parts@, lists_view(lists@), nv),
            e <= lists.len(),
            entries.len() == e,
            forall|k: int| 0 <= k < e ==> #[trigger] model_of(entries@)[k] == target[k],
        decreases lists.len() - e,
    {
        let l = &lists[e];
        let mut ns: Vec<Node> = Vec::new();
        let mut j: usize = 0;
        while j < l.len()
            invariant
                below(lists_view(lists@), names.len() as nat),
                l == &lists[e as int],
                e < lists.len(),
                j <= l.len(),
                ns.len() == j,
                forall|k: int| 0 <= k < j ==> #[trigger] ns[k]@ == nv[l[k] as int],
                nv == names_of(names@),
            decreases l.len() - j,
        {
            assert(lists_view(lists@)[e as int][j as int] == l[j as int]);
            ns.push(names[l[j]].duplicate());
            j = j + 1;
        }
        let ghost m0 = model_of(entries@);
        entries.push((Partition(parts[e]), ns));
        proof {
            let m1 = model_of(entries@);
            assert(m1 =~= m0.push((parts[e as int], names_of(ns@))));
            assert(names_of(ns@) =~= dec_list(l@, nv));
            assert(lists_view(lists@)[e as int] == l@);
            assert forall|k: int| 0 <= k < e + 1 implies #[trigger] model_of(entries@)[k] == target[k] by {
                if k < e {
                    assert(m1[k] == m0[k]);
                }
            }
        }
        e = e + 1;
    }
    let r = Assignment { entries };
    proof {
        lemma_view_def(&r);
        assert(r@ =~= target);
    }
    r
}

/// The moves that `ms` stands for.
pub fn decode_moves(ms: &Vec<(usize, usize, usize)>, parts: &Vec<u32>, names: &Vec<Node>) -> (r: Vec<Move>)
    requires
        forall|k: int| 0 <= k < ms.len() ==> {
            &&& (#[trigger] ms[k]).0 < parts.len()
            &&& ms[k].1 < names.len()
            &&& ms[k].2 < names.len()
        },
    ensures
        moves_of(r@) == dec_moves(parts@, ms@, names_of(names@)),
{
    let mut r: Vec<Move> = Vec::new();
    let mut k: usize = 0;
    while k < ms.len()
        invariant
            forall|i: int| 0 <= i < ms.len() ==> {
                &&& (#[trigger] ms[i]).0 < parts.len()
                &&& ms[i].1 < names.len()
                &&& ms[i].2 < names.len()
            },
            k <= ms.len(),
            r.len() == k,
            forall|i: int| 0 <= i < k ==> (#[trigger] r[i])@ == dec_moves(parts@, ms@, names_of(names@))[i],
        decreases ms.len() - k,
    {
        let (e, f, t) = ms[k];
        assert(ms[k as int] == (e, f, t));
        let m = Move { partition: Partition(parts[e]), from: names[f].duplicate(), to: names[t].duplicate() };
        r.push(m);
        k = k + 1;
    }
    assert(moves_of(r@) =~= dec_moves(parts@, ms@, names_of(names@)));
    r
}


proof fn lemma_sum_take(s: Seq<usize>, k: int)
    requires
        0 <= k <= s.len(),
        forall|i: int| k <= i < s.len() ==> s[i] == 0,
    ensures
        sum(s.take(k)) == sum(s),
    decreases s.len(),
{
    if s.len() > k {
        let d = s.drop_last();
        assert(d.take(k) =~= s.take(k));
        lemma_sum_take(d, k);
    } else {
        assert(s.take(k) =~= s);
    }
}

/// Loads on the table that are within one of each other on the first `active`
/// nodes, and zero beyond, make the assignment balanced over those nodes.
pub proof fn lemma_balanced_result(
    keys: Seq<u32>,
    ls: Seq<Seq<usize>>,
    nv: Seq<Seq<char>>,
    loads: Seq<usize>,
    active: int,
    ns: Set<Seq<char>>,
)
    requires
        nv.no_duplicates(),
        below(ls, nv.len()),
        loads.len() == nv.len(),
        nv.len() <= usize::MAX,
        forall|i: int| 0 <= i < loads.len() ==> loads[i] == icount(ls, i as usize),
        sum(loads) == itotal(ls),
        0 < active <= nv.len(),
        forall|i: int| active <= i < loads.len() ==> loads[i] == 0,
        forall|i: int, j: int| 0 <= i < active && 0 <= j < active ==> loads[i] <= loads[j] + 1,
        forall|m: Seq<char>| ns.contains(m) <==> #[trigger] nv.take(active).contains(m),
    ensures
        balanced(dec(keys, ls, nv), ns),
        ns.len() == active,
{
    let a = dec(keys, ls, nv);
    let t = nv.take(active);
    assert(t.no_duplicates());
    assert(ns =~= t.to_set());
    t.unique_seq_to_set();
    let lt = loads.take(active);
    lemma_sum_take(loads, active);
    assert forall|i: int| 0 <= i < nv.len() implies load(a, nv[i]) == loads[i] by {
        let u = i as usize;
        lemma_load_dec(keys, ls, nv, u);
        assert(u as int == i);
        assert(loads[i] == icount(ls, u));
        assert(load(a, nv[u as int]) == icount(ls, u));
    }
    lemma_load_dec(keys, ls, nv, 0);
    assert forall|m: Seq<char>| holds(a, m) implies ns.contains(m) by {
        lemma_dec_holds(keys, ls, nv, m);
        let i = choose|i: int| 0 <= i < nv.len() && nv[i] == m;
        if i >= active {
            assert(loads[i] == 0);
            assert(load(a, m) == 0);
            let e = choose|e: int| 0 <= e < a.len() && (#[trigger] a[e]).1.contains(m);
            lemma_load_pos(a, m, e);
        }
        assert(t[i] == m);
    }
    assert forall|n1: Seq<char>, n2: Seq<char>| #[trigger] ns.contains(n1) && #[trigger] ns.contains(n2)
        implies load(a, n1) <= load(a, n2) + 1 by {
        assert(t.contains(n1) && t.contains(n2));
        let i = choose|i: int| 0 <= i < t.len() && t[i] == n1;
        let j = choose|j: int| 0 <= j < t.len() && t[j] == n2;
        assert(nv[i] == n1 && nv[j] == n2);
        assert(load(a, nv[i]) == loads[i]);
        assert(load(a, nv[j]) == loads[j]);
        assert(loads[i] <= loads[j] + 1);
    }
    assert forall|n: Seq<char>| #[trigger] ns.contains(n) implies {
        &&& total(a) as int / ns.len() as int <= load(a, n)
        &&& load(a, n) <= (total(a) + ns.len() - 1) as int / ns.len() as int
    } by {
        assert(t.contains(n));
        let i = choose|i: int| 0 <= i < t.len() && t[i] == n;
        assert(nv[i] == n);
        assert forall|x: int, y: int| 0 <= x < lt.len() && 0 <= y < lt.len() implies lt[x] <= lt[y] + 1 by {
            assert(lt[x] == loads[x] && lt[y] == loads[y]);
        }
        lemma_balanced_near_average(lt, i);
        assert(lt[i] == loads[i]);
    }
}

/// A node with no load is on no list.
pub proof fn lemma_load_pos(a: Model, n: Seq<char>, e: int)
    requires
        0 <= e < a.len(),
        a[e].1.contains(n),
    ensures
        load(a, n) > 0,
    decreases a.len(),
{
    if e < a.len() - 1 {
        assert(a.drop_last()[e] == a[e]);
        lemma_load_pos(a.drop_last(), n, e);
    }
}


pub proof fn lemma_index_distinct(keys: Seq<u32>, ls: Seq<Seq<usize>>, nv: Seq<Seq<char>>)
    requires
        below(ls, nv.len()),
        lists_distinct(dec(keys, ls, nv)),
    ensures
        all_distinct(ls),
{
    let a = dec(keys, ls, nv);
    assert forall|e: int| 0 <= e < ls.len() implies (#[trigger] ls[e]).no_duplicates() by {
        assert(a[e].1.no_duplicates());
        assert forall|j: int, k: int| 0 <= j < ls[e].len() && 0 <= k < ls[e].len() && j != k implies ls[e][j] != ls[e][k] by {
            assert(a[e].1[j] != a[e].1[k]);
        }
    }
}

/// Moving one name of a list without duplicates to its end keeps the list
/// without duplicates, and keeps its names.
pub proof fn lemma_to_end(s: Seq<Seq<char>>, i: int)
    requires
        s.no_duplicates(),
        0 <= i < s.len(),
    ensures
        s.remove(i).push(s[i]).no_duplicates(),
        forall|m: Seq<char>| #[trigger] s.remove(i).push(s[i]).contains(m) <==> s.contains(m),
        forall|m: Seq<char>| #[trigger] s.remove(i).contains(m) <==> (s.contains(m) && m != s[i]),
{
    let r = s.remove(i);
    let t = r.push(s[i]);
    assert forall|m: Seq<char>| #[trigger] r.contains(m) <==> (s.contains(m) && m != s[i]) by {
        if r.contains(m) {
            let k = choose|k: int| 0 <= k < r.len() && r[k] == m;
            if k < i {
                assert(s[k] == m);
            } else {
                assert(s[k + 1] == m);
            }
        }
        if s.contains(m) && m != s[i] {
            let k = choose|k: int| 0 <= k < s.len() && s[k] == m;
            if k < i {
                assert(r[k] == m);
            } else {
                assert(k != i);
                assert(r[k - 1] == m);
            }
        }
    }
    assert forall|m: Seq<char>| #[trigger] t.contains(m) <==> s.contains(m) by {
        if t.contains(m) {
            let k = choose|k: int| 0 <= k < t.len() && t[k] == m;
            if k < r.len() {
                assert(r[k] == m);
                assert(r.contains(m));
            }
        }
        if s.contains(m) {
            if m == s[i] {
                assert(t[r.len() as int] == m);
            } else {
                assert(r.contains(m));
                let k = choose|k: int| 0 <= k < r.len() && r[k] == m;
                assert(t[k] == m);
            }
        }
    }
    assert forall|a: int, b: int| 0 <= a < t.len() && 0 <= b < t.len() && a != b implies t[a] != t[b] by {
        let a0 = if a == r.len() { i } else if a < i { a } else { a + 1 };
        let b0 = if b == r.len() { i } else if b < i { b } else { b + 1 };
        assert(t[a] == s[a0] && t[b] == s[b0]);
    }
}

/// A node with some load is on some list.
pub proof fn lemma_loaded_is_held(a: Model, m: Seq<char>)
    requires
        load(a, m) > 0,
    ensures
        holds(a, m),
    decreases a.len(),
{
    let d = a.drop_last();
    if a.last().1.contains(m) {
        assert(a[a.len() - 1] == a.last());
    } else {
        lemma_loaded_is_held(d, m);
        let e = choose|e: int| 0 <= e < d.len() && (#[trigger] d[e]).1.contains(m);
        assert(a[e] == d[e]);
    }
}


} // verus!
