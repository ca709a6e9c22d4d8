//! Nodes, partitions, moves and assignments, with their mathematical model.
use vstd::prelude::*;

verus! {

/// A replica host, named by a string.
#[derive(Clone, Debug, PartialEq, Eq, Hash, PartialOrd, Ord)]
pub struct Node(pub String);

impl View for Node {
    type V = Seq<char>;

    open spec fn view(&self) -> Seq<char> {
        self.0@
    }
}

impl Node {
    /// A node of the same name.
    pub fn duplicate(&self) -> (r: Node)
        ensures
            r@ == self@,
    {
        Node(self.0.clone())
    }

    /// Whether two nodes have the same name.
    pub fn same_as(&self, other: &Node) -> (r: bool)
        ensures
            r == (self@ == other@),
    {
        self.0 == other.0
    }
}

/// A logical shard, named by a number.
#[derive(Clone, Copy, Debug, PartialEq, Eq, Structural, Hash, PartialOrd, Ord)]
pub struct Partition(pub u32);

/// A replica relocation: on `partition`, replica `from` is replaced by `to`.
#[derive(Clone, Debug)]
pub struct Move {
    pub partition: Partition,
    pub from: Node,
    pub to: Node,
}

impl View for Move {
    type V = (u32, Seq<char>, Seq<char>);

    open spec fn view(&self) -> (u32, Seq<char>, Seq<char>) {
        (self.partition.0, self.from@, self.to@)
    }
}

/// The kinds of failure of the engine and of its collaborators.
#[derive(Clone, Copy, Debug, PartialEq, Eq, Structural)]
pub enum AssignError {
    /// An impossible combination of nodes, partition count and replication factor.
    InvalidConfig,
    /// A node to remove is absent, or the nodes given are empty or repeat a name.
    InvalidRequest,
    /// A node to add is already in the assignment.
    Conflict,
    /// Removing the node would leave fewer nodes than the replication factor.
    InsufficientNodes,
    /// The assignment breaks one of its invariants.
    InvariantViolation,
    /// The input could not be read as an assignment.
    ParseError,
}

/// The model of an assignment: its partitions in ascending order, each with
/// the names on its replica list.
pub type Model = Seq<(u32, Seq<Seq<char>>)>;

pub open spec fn names_of(v: Seq<Node>) -> Seq<Seq<char>> {
    v.map_values(|n: Node| n@)
}

pub open spec fn moves_of(v: Seq<Move>) -> Seq<(u32, Seq<char>, Seq<char>)> {
    v.map_values(|m: Move| m@)
}

/// Whether the partitions of `a` come in strictly ascending order.
pub open spec fn ascending(a: Model) -> bool {
    forall|i: int, j: int| 0 <= i < j < a.len() ==> a[i].0 < a[j].0
}

/// Whether node `n` is on some replica list.
pub open spec fn holds(a: Model, n: Seq<char>) -> bool {
    exists|e: int| 0 <= e < a.len() && (#[trigger] a[e]).1.contains(n)
}

/// The nodes on the replica lists.
pub open spec fn node_set(a: Model) -> Set<Seq<char>> {
    Set::new(|n: Seq<char>| holds(a, n))
}

/// The number of partitions whose replica list holds `n`.
pub open spec fn load(a: Model, n: Seq<char>) -> nat
    decreases a.len(),
{
    if a.len() == 0 {
        0
    } else {
        load(a.drop_last(), n) + if a.last().1.contains(n) { 1nat } else { 0nat }
    }
}

/// The number of replicas over all partitions.
pub open spec fn total(a: Model) -> nat
    decreases a.len(),
{
    if a.len() == 0 {
        0
    } else {
        total(a.drop_last()) + a.last().1.len()
    }
}

/// Whether no replica list holds a node twice.
pub open spec fn lists_distinct(a: Model) -> bool {
    forall|e: int| 0 <= e < a.len() ==> (#[trigger] a[e]).1.no_duplicates()
}

/// Whether every replica list has exactly `r` nodes, all distinct.
pub open spec fn lists_sized(a: Model, r: nat) -> bool {
    &&& lists_distinct(a)
    &&& forall|e: int| 0 <= e < a.len() ==> (#[trigger] a[e]).1.len() == r
}

/// The replica list of partition `p`, if `a` has it.
pub open spec fn lookup(a: Model, p: u32) -> Option<Seq<Seq<char>>> {
    if exists|e: int| 0 <= e < a.len() && (#[trigger] a[e]).0 == p {
        let e = choose|e: int| 0 <= e < a.len() && (#[trigger] a[e]).0 == p;
        Some(a[e].1)
    } else {
        None
    }
}

/// List `l` with every `f` replaced by `t`.
pub open spec fn replace_node(l: Seq<Seq<char>>, f: Seq<char>, t: Seq<char>) -> Seq<Seq<char>> {
    l.map_values(|n: Seq<char>| if n == f { t } else { n })
}

/// The assignment after move `m`.
pub open spec fn apply_move(a: Model, m: (u32, Seq<char>, Seq<char>)) -> Model {
    a.map_values(
        |e: (u32, Seq<Seq<char>>)|
            if e.0 == m.0 { (e.0, replace_node(e.1, m.1, m.2)) } else { e },
    )
}

/// The assignment after the moves `ms`, in order.
pub open spec fn apply_moves(a: Model, ms: Seq<(u32, Seq<char>, Seq<char>)>) -> Model
    decreases ms.len(),
{
    if ms.len() == 0 {
        a
    } else {
        apply_move(apply_moves(a, ms.drop_last()), ms.last())
    }
}

/// Whether the nodes of `ns` carry loads within one of each other, each between
/// the floor and the ceiling of the average load, and no other node is used.
pub open spec fn balanced(a: Model, ns: Set<Seq<char>>) -> bool {
    &&& node_set(a).subset_of(ns)
    &&& ns.finite()
    &&& forall|n1: Seq<char>, n2: Seq<char>| #[trigger] ns.contains(n1) && #[trigger] ns.contains(n2)
        ==> load(a, n1) <= load(a, n2) + 1
    &&& forall|n: Seq<char>| #[trigger] ns.contains(n) ==> {
        &&& total(a) as int / ns.len() as int <= load(a, n)
        &&& load(a, n) <= (total(a) + ns.len() - 1) as int / ns.len() as int
    }
}

/// `a` with partition `p` given list `l`: in place of the list it had, or
/// inserted in the order of partitions.
pub open spec fn put(a: Model, p: u32, l: Seq<Seq<char>>) -> Model
    decreases a.len(),
{
    if a.len() == 0 {
        seq![(p, l)]
    } else if a.last().0 < p {
        a.push((p, l))
    } else if a.last().0 == p {
        a.drop_last().push((p, l))
    } else {
        put(a.drop_last(), p, l).push(a.last())
    }
}

proof fn lemma_put(a: Model, p: u32, l: Seq<Seq<char>>, i: int)
    requires
        ascending(a),
        0 <= i <= a.len(),
        forall|j: int| 0 <= j < i ==> (#[trigger] a[j]).0 < p,
        i < a.len() ==> a[i].0 >= p,
    ensures
        i < a.len() && a[i].0 == p ==> put(a, p, l) == a.update(i, (p, l)),
        !(i < a.len() && a[i].0 == p) ==> put(a, p, l) == a.insert(i, (p, l)),
    decreases a.len(),
{
    if a.len() == 0 {
        assert(a.insert(i, (p, l)) =~= seq![(p, l)]);
    } else {
        let n = a.len() - 1;
        if a.last().0 < p {
            if i < a.len() {
                assert(a[i].0 <= a[n].0 || i == n);
            }
            assert(a.insert(i, (p, l)) =~= a.push((p, l)));
        } else if a.last().0 == p {
            if i < n {
                assert(a[i].0 < a[n].0);
            }
            if i == a.len() {
                assert(a[n].0 < p);
            }
            assert(a.drop_last().push((p, l)) =~= a.update(i, (p, l)));
        } else {
            if i == a.len() {
                assert(a[n].0 < p);
            }
            let d = a.drop_last();
            assert forall|j: int| 0 <= j < i && j < d.len() implies (#[trigger] d[j]).0 < p by {
                assert(d[j] == a[j]);
            }
            assert(ascending(d)) by {
                assert forall|x: int, y: int| 0 <= x < y < d.len() implies d[x].0 < d[y].0 by {
                    assert(d[x] == a[x] && d[y] == a[y]);
                }
            }
            if i < n {
                assert(d[i] == a[i]);
            }
            lemma_put(d, p, l, i);
            if i < a.len() && a[i].0 == p {
                assert(put(a, p, l) =~= a.update(i, (p, l)));
            } else {
                assert(put(a, p, l) =~= a.insert(i, (p, l)));
            }
        }
    }
}

/// A partition-to-replica-list mapping.
#[derive(Clone, Debug)]
pub struct Assignment {
    pub(crate) entries: Vec<(Partition, Vec<Node>)>,
}

impl View for Assignment {
    type V = Model;

    closed spec fn view(&self) -> Model {
        model_of(self.entries@)
    }
}

pub(crate) open spec fn model_of(entries: Seq<(Partition, Vec<Node>)>) -> Model {
    entries.map_values(|e: (Partition, Vec<Node>)| (e.0.0, names_of(e.1@)))
}

pub(crate) proof fn lemma_view_def(a: &Assignment)
    ensures
        a@ == model_of(a.entries@),
{
}

impl Assignment {
    /// Partitions are kept in strictly ascending order.
    pub open spec fn wf(&self) -> bool {
        ascending(self@)
    }

    /// An assignment without partitions.
    pub fn new() -> (r: Assignment)
        ensures
            r.wf(),
            r@ == Seq::<(u32, Seq<Seq<char>>)>::empty(),
    {
        let r = Assignment { entries: Vec::new() };
        assert(r@ =~= Seq::<(u32, Seq<Seq<char>>)>::empty());
        r
    }

    /// The partitions with their replica lists, in ascending order of partition.
    pub fn entries(&self) -> (r: &Vec<(Partition, Vec<Node>)>)
        ensures
            r@.map_values(|e: (Partition, Vec<Node>)| (e.0.0, names_of(e.1@))) == self@,
    {
        &self.entries
    }

    /// Sets the replica list of partition `p`, in place of any it had.
    pub fn insert(&mut self, p: Partition, nodes: Vec<Node>)
        requires
            old(self).wf(),
        ensures
            final(self).wf(),
            final(self)@ == put(old(self)@, p.0, names_of(nodes@)),
            lookup(final(self)@, p.0) == Some(names_of(nodes@)),
            forall|q: u32| q != p.0 ==> lookup(final(self)@, q) == lookup(old(self)@, q),
    {
        let ghost a = self@;
        let mut i: usize = 0;
        while i < self.entries.len() && self.entries[i].0.0 < p.0
            invariant
                self@ == a,
                ascending(a),
                i <= self.entries.len(),
                forall|j: int| 0 <= j < i ==> (#[trigger] a[j]).0 < p.0,
            decreases self.entries.len() - i,
        {
            assert(a[i as int].0 == self.entries[i as int].0.0);
            i = i + 1;
        }
        proof {
            if i < self.entries.len() {
                assert(a[i as int].0 == self.entries[i as int].0.0);
            }
            lemma_put(a, p.0, names_of(nodes@), i as int);
        }
        if i < self.entries.len() && self.entries[i].0.0 == p.0 {
            self.entries.set(i, (p, nodes));
            let ghost b = self@;
            assert(b =~= a.update(i as int, (p.0, names_of(nodes@))));
            assert(ascending(b)) by {
                assert forall|j: int, k: int| 0 <= j < k < b.len() implies b[j].0 < b[k].0 by {
                    assert(a[j].0 < a[k].0);
                }
            }
            assert forall|q: u32| q != p.0 implies lookup(b, q) == lookup(a, q) by {
                if exists|e: int| 0 <= e < a.len() && (#[trigger] a[e]).0 == q {
                    let e = choose|e: int| 0 <= e < a.len() && (#[trigger] a[e]).0 == q;
                    assert(b[e].0 == q);
                    let f = choose|e: int| 0 <= e < b.len() && (#[trigger] b[e]).0 == q;
                    assert(e == f);
                }
                if exists|e: int| 0 <= e < b.len() && (#[trigger] b[e]).0 == q {
                    let e = choose|e: int| 0 <= e < b.len() && (#[trigger] b[e]).0 == q;
                    assert(a[e].0 == q);
                }
            }
            assert(b[i as int].0 == p.0);
        } else {
            assert(i < self.entries.len() ==> a[i as int].0 > p.0) by {
                if i < self.entries.len() {
                    assert(a[i as int].0 == self.entries[i as int].0.0);
                }
            }
            self.entries.insert(i, (p, nodes));
            let ghost b = self@;
            assert(b =~= a.insert(i as int, (p.0, names_of(nodes@))));
            assert(ascending(b)) by {
                assert forall|j: int, k: int| 0 <= j < k < b.len() implies b[j].0 < b[k].0 by {
                    if k < i {
                        assert(a[j].0 < a[k].0);
                    } else if k == i {
                        assert(a[j].0 < p.0);
                    } else if j < i {
                        assert(a[j].0 < a[k - 1].0 || j == k - 1);
                        assert(a[j].0 < p.0);
                    } else if j == i {
                        assert(a[k - 1].0 >= a[i as int].0);
                    } else {
                        assert(a[j - 1].0 < a[k - 1].0);
                    }
                }
            }
            assert forall|q: u32| q != p.0 implies lookup(b, q) == lookup(a, q) by {
                if exists|e: int| 0 <= e < a.len() && (#[trigger] a[e]).0 == q {
                    let e = choose|e: int| 0 <= e < a.len() && (#[trigger] a[e]).0 == q;
                    let e2 = if e < i { e } else { e + 1 };
                    assert(b[e2].0 == q);
                    let f = choose|e: int| 0 <= e < b.len() && (#[trigger] b[e]).0 == q;
                    assert(f == e2);
                }
                if exists|e: int| 0 <= e < b.len() && (#[trigger] b[e]).0 == q {
                    let e = choose|e: int| 0 <= e < b.len() && (#[trigger] b[e]).0 == q;
                    assert(e != i);
                    let e1 = if e < i { e } else { e - 1 };
                    assert(a[e1].0 == q);
                }
            }
            assert(b[i as int].0 == p.0);
        }
    }
}

} // verus!
