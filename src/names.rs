//! The order of node names: lexicographic by character.
use vstd::prelude::*;

verus! {

/// Whether name `a` comes strictly before name `b`.
pub open spec fn lex_lt(a: Seq<char>, b: Seq<char>) -> bool
    decreases a.len(),
{
    if b.len() == 0 {
        false
    } else if a.len() == 0 {
        true
    } else if a[0] != b[0] {
        (a[0] as u32) < (b[0] as u32)
    } else {
        lex_lt(a.drop_first(), b.drop_first())
    }
}

fn chars_of(s: &String) -> (r: Vec<char>)
    ensures
        r@ == s@,
{
    let mut r: Vec<char> = Vec::new();
    broadcast use vstd::string::axiom_spec_iter;
    for c in it: s.as_str().chars()
        invariant
            r@ == it.seq().take(it.index() as int),
    {
        r.push(c);
    }
    assert(r@ == s@);
    r
}

/// Whether name `a` comes strictly before name `b`.
pub fn name_lt(a: &String, b: &String) -> (r: bool)
    ensures
        r == lex_lt(a@, b@),
{
    let x = chars_of(a);
    let y = chars_of(b);
    let mut k: usize = 0;
    assert(x@.skip(0) =~= x@ && y@.skip(0) =~= y@);
    while k < x.len() && k < y.len() && x[k] == y[k]
        invariant
            k <= x.len(),
            k <= y.len(),
            lex_lt(x@, y@) == lex_lt(x@.skip(k as int), y@.skip(k as int)),
        decreases x.len() - k,
    {
        let ghost xs = x@.skip(k as int);
        let ghost ys = y@.skip(k as int);
        assert(xs.drop_first() =~= x@.skip(k + 1));
        assert(ys.drop_first() =~= y@.skip(k + 1));
        k = k + 1;
    }
    let ghost xs = x@.skip(k as int);
    let ghost ys = y@.skip(k as int);
    if k == y.len() {
        assert(ys.len() == 0);
        false
    } else if k == x.len() {
        assert(xs.len() == 0);
        true
    } else {
        assert(xs[0] == x[k as int] && ys[0] == y[k as int]);
        (x[k] as u32) < (y[k] as u32)
    }
}


/// Names in strictly ascending order.
pub open spec fn ascending_names(q: Seq<Seq<char>>) -> bool {
    forall|i: int, j: int| 0 <= i < j < q.len() ==> lex_lt(q[i], q[j])
}

pub proof fn lemma_lex_irreflexive(a: Seq<char>)
    ensures
        !lex_lt(a, a),
    decreases a.len(),
{
    if a.len() > 0 {
        lemma_lex_irreflexive(a.drop_first());
    }
}

pub proof fn lemma_lex_transitive(a: Seq<char>, b: Seq<char>, c: Seq<char>)
    requires
        lex_lt(a, b),
        lex_lt(b, c),
    ensures
        lex_lt(a, c),
    decreases a.len(),
{
    if a.len() > 0 && b.len() > 0 && c.len() > 0 && a[0] == b[0] && b[0] == c[0] {
        lemma_lex_transitive(a.drop_first(), b.drop_first(), c.drop_first());
    }
}

pub proof fn lemma_lex_total(a: Seq<char>, b: Seq<char>)
    requires
        a != b,
    ensures
        lex_lt(a, b) || lex_lt(b, a),
    decreases a.len(),
{
    if a.len() > 0 && b.len() > 0 {
        if a[0] == b[0] {
            if a.drop_first() == b.drop_first() {
                assert(a =~= seq![a[0]] + a.drop_first());
                assert(b =~= seq![b[0]] + b.drop_first());
            }
            lemma_lex_total(a.drop_first(), b.drop_first());
        } else {
            assert((a[0] as u32) != (b[0] as u32)) by {
                vstd::utf8::char_u32_cast(a[0], a[0] as u32);
                vstd::utf8::char_u32_cast(b[0], b[0] as u32);
            }
        }
    } else if a.len() == 0 && b.len() == 0 {
        assert(a =~= b);
    }
}

/// Two ascending lists with the same names are equal.
pub proof fn lemma_ascending_unique(p: Seq<Seq<char>>, q: Seq<Seq<char>>)
    requires
        ascending_names(p),
        ascending_names(q),
        forall|m: Seq<char>| #![trigger p.contains(m)] #![trigger q.contains(m)] p.contains(m) <==> q.contains(m),
    ensures
        p == q,
    decreases p.len(),
{
    if p.len() == 0 {
        if q.len() > 0 {
            assert(q.contains(q[0]));
        }
        assert(p =~= q);
    } else if q.len() == 0 {
        assert(p.contains(p[0]));
    } else {
        // The first names are the least of both.
        let a = p[0];
        let b = q[0];
        assert(p.contains(a) && q.contains(b));
        if a != b {
            let i = choose|i: int| 0 <= i < q.len() && q[i] == a;
            let j = choose|j: int| 0 <= j < p.len() && p[j] == b;
            assert(i > 0 && j > 0);
            assert(lex_lt(b, a));
            assert(lex_lt(a, b));
            lemma_lex_transitive(a, b, a);
            lemma_lex_irreflexive(a);
        }
        let (p1, q1) = (p.drop_first(), q.drop_first());
        assert forall|m: Seq<char>| #![trigger p1.contains(m)] #![trigger q1.contains(m)] p1.contains(m) <==> q1.contains(m) by {
            if p1.contains(m) {
                let i = choose|i: int| 0 <= i < p1.len() && p1[i] == m;
                assert(p[i + 1] == m && lex_lt(a, m));
                lemma_lex_irreflexive(a);
                assert(q.contains(m));
                let j = choose|j: int| 0 <= j < q.len() && q[j] == m;
                assert(j != 0);
                assert(q1[j - 1] == m);
            }
            if q1.contains(m) {
                let i = choose|i: int| 0 <= i < q1.len() && q1[i] == m;
                assert(q[i + 1] == m && lex_lt(b, m));
                lemma_lex_irreflexive(b);
                assert(p.contains(m));
                let j = choose|j: int| 0 <= j < p.len() && p[j] == m;
                assert(j != 0);
                assert(p1[j - 1] == m);
            }
        }
        lemma_ascending_unique(p1, q1);
        assert(p =~= seq![a] + p1);
        assert(q =~= seq![b] + q1);
    }
}

} // verus!
