use partition_assignment::{AssignError, Assignment, Move, Node, Partition};

fn node(s: &str) -> Node {
    Node(s.to_string())
}

fn nodes(names: &[&str]) -> Vec<Node> {
    names.iter().map(|s| node(s)).collect()
}

fn numbered(k: u32) -> Vec<Node> {
    (1..=k).map(|i| node(&i.to_string())).collect()
}

fn loads(a: &Assignment) -> Vec<(String, usize)> {
    a.nodes_map().into_iter().map(|(n, ps)| (n.0, ps.len())).collect()
}

fn load_of(a: &Assignment, name: &str) -> usize {
    loads(a).into_iter().find(|(n, _)| n == name).map(|(_, l)| l).unwrap_or(0)
}

fn holds_anywhere(a: &Assignment, name: &str) -> bool {
    a.entries().iter().any(|(_, ns)| ns.iter().any(|n| n.0 == name))
}

fn sixty_on_eight() -> Assignment {
    Assignment::init(&numbered(8), 60, 3, false).unwrap()
}

fn replay(a: &Assignment, moves: &[Move]) -> Vec<(Partition, Vec<Node>)> {
    let mut entries = a.entries().clone();
    for m in moves {
        let e = entries.iter_mut().find(|(p, _)| *p == m.partition).unwrap();
        for n in e.1.iter_mut() {
            if *n == m.from {
                *n = m.to.clone();
            }
        }
    }
    entries
}

fn assert_lists_sized(a: &Assignment, r: usize) {
    for (_, ns) in a.entries() {
        assert_eq!(ns.len(), r);
        for i in 0..ns.len() {
            for j in 0..ns.len() {
                if i != j {
                    assert_ne!(ns[i], ns[j]);
                }
            }
        }
    }
}

#[test]
fn init_three_nodes_all_on_every_partition() {
    let a = Assignment::init(&nodes(&["a", "b", "c"]), 6, 3, false).unwrap();
    assert_eq!(a.entries().len(), 6);
    for (i, (p, ns)) in a.entries().iter().enumerate() {
        assert_eq!(p.0, i as u32 + 1);
        let mut names: Vec<String> = ns.iter().map(|n| n.0.clone()).collect();
        names.sort();
        assert_eq!(names, vec!["a", "b", "c"]);
    }
    assert_eq!(loads(&a), vec![("a".to_string(), 6), ("b".to_string(), 6), ("c".to_string(), 6)]);
    assert_eq!(a.validate(6, 3), Ok(()));
}

#[test]
fn init_sixty_partitions_eight_nodes() {
    let a = sixty_on_eight();
    assert_eq!(a.entries().len(), 60);
    let ls = loads(&a);
    assert_eq!(ls.len(), 8);
    for (_, l) in &ls {
        assert!(*l == 22 || *l == 23);
    }
    assert_eq!(ls.iter().map(|(_, l)| l).sum::<usize>(), 180);
    assert_lists_sized(&a, 3);
    assert_eq!(a.validate(60, 3), Ok(()));
}

#[test]
fn init_starting_at_zero() {
    let a = Assignment::init(&nodes(&["a", "b", "c", "d"]), 5, 2, true).unwrap();
    let ids: Vec<u32> = a.entries().iter().map(|(p, _)| p.0).collect();
    assert_eq!(ids, vec![0, 1, 2, 3, 4]);
    assert_lists_sized(&a, 2);
    assert_eq!(a.validate(5, 2), Ok(()));
}

#[test]
fn init_window_on_the_cycle() {
    // Windows of two on the cycle a, b, c: loads are already even.
    let a = Assignment::init(&nodes(&["a", "b", "c"]), 3, 2, false).unwrap();
    let lists: Vec<Vec<String>> = a.entries().iter().map(|(_, ns)| ns.iter().map(|n| n.0.clone()).collect()).collect();
    assert_eq!(lists, vec![vec!["a", "b"], vec!["b", "c"], vec!["c", "a"]]);
}

#[test]
fn init_rejects_bad_configs() {
    assert_eq!(Assignment::init(&[], 6, 3, false).unwrap_err(), AssignError::InvalidConfig);
    assert_eq!(Assignment::init(&nodes(&["a", "b", "c"]), 0, 3, false).unwrap_err(), AssignError::InvalidConfig);
    assert_eq!(Assignment::init(&nodes(&["a", "b", "c"]), 6, 0, false).unwrap_err(), AssignError::InvalidConfig);
    assert_eq!(Assignment::init(&nodes(&["a", "b"]), 6, 3, false).unwrap_err(), AssignError::InvalidConfig);
    assert_eq!(Assignment::init(&nodes(&["a", "b", "a"]), 6, 2, false).unwrap_err(), AssignError::InvalidConfig);
}

#[test]
fn nodes_map_orders_by_name() {
    let a = Assignment::init(&nodes(&["c", "a", "b"]), 3, 3, false).unwrap();
    let m = a.nodes_map();
    let names: Vec<String> = m.iter().map(|(n, _)| n.0.clone()).collect();
    assert_eq!(names, vec!["a", "b", "c"]);
    for (_, ps) in &m {
        assert_eq!(ps, &vec![Partition(1), Partition(2), Partition(3)]);
    }
}

#[test]
fn remove_one_node_from_sixty_on_eight() {
    let a = sixty_on_eight();
    let on_two = load_of(&a, "2");
    let (b, moves) = a.remove_node(&node("2"), 3).unwrap();
    assert!(!holds_anywhere(&b, "2"));
    let ls = loads(&b);
    assert_eq!(ls.len(), 7);
    for (_, l) in &ls {
        assert!(*l == 25 || *l == 26);
    }
    assert!(moves.len() >= on_two);
    for m in &moves[..on_two] {
        assert_eq!(m.from, node("2"));
        assert_ne!(m.to, node("2"));
    }
    assert_lists_sized(&b, 3);
    assert_eq!(b.validate(60, 3), Ok(()));
    assert_eq!(replay(&a, &moves), *b.entries());
}

#[test]
fn remove_two_nodes_from_sixty_on_eight() {
    let a = sixty_on_eight();
    let (b, _) = a.remove_node(&node("2"), 3).unwrap();
    let (c, _) = b.remove_node(&node("4"), 3).unwrap();
    let ls = loads(&c);
    assert_eq!(ls.len(), 6);
    for (_, l) in &ls {
        assert_eq!(*l, 30);
    }
    assert!(!holds_anywhere(&c, "2"));
    assert!(!holds_anywhere(&c, "4"));
    assert_eq!(c.validate(60, 3), Ok(()));
}

#[test]
fn remove_when_nodes_equal_replication_factor() {
    let a = Assignment::init(&nodes(&["a", "b", "c"]), 6, 3, false).unwrap();
    let before = a.entries().clone();
    assert_eq!(a.remove_node(&node("a"), 3).unwrap_err(), AssignError::InsufficientNodes);
    assert_eq!(*a.entries(), before);
}

#[test]
fn remove_absent_node() {
    let a = sixty_on_eight();
    assert_eq!(a.remove_node(&node("9"), 3).unwrap_err(), AssignError::InvalidRequest);
}

#[test]
fn remove_with_wrong_list_sizes() {
    let a = sixty_on_eight();
    assert_eq!(a.remove_node(&node("2"), 2).unwrap_err(), AssignError::InvariantViolation);
}

#[test]
fn remove_is_deterministic() {
    let a = sixty_on_eight();
    let (b1, m1) = a.remove_node(&node("5"), 3).unwrap();
    let (b2, m2) = a.remove_node(&node("5"), 3).unwrap();
    assert_eq!(b1.entries(), b2.entries());
    let m1: Vec<(u32, String, String)> = m1.into_iter().map(|m| (m.partition.0, m.from.0, m.to.0)).collect();
    let m2: Vec<(u32, String, String)> = m2.into_iter().map(|m| (m.partition.0, m.from.0, m.to.0)).collect();
    assert_eq!(m1, m2);
}

#[test]
fn add_one_node_to_sixty_on_eight() {
    let a = sixty_on_eight();
    let before = a.clone();
    let (b, moves) = a.add_nodes(vec![node("x")]).unwrap();
    let ls = loads(&b);
    assert_eq!(ls.len(), 9);
    for (_, l) in &ls {
        assert_eq!(*l, 20);
    }
    assert_eq!(load_of(&b, "x"), 20);
    assert_eq!(moves.len(), 20);
    for m in &moves {
        assert_eq!(m.to, node("x"));
        assert_ne!(m.from, node("x"));
    }
    let mut ps: Vec<u32> = moves.iter().map(|m| m.partition.0).collect();
    ps.sort();
    ps.dedup();
    assert_eq!(ps.len(), 20);
    assert_eq!(replay(&before, &moves), *b.entries());
    assert_eq!(b.validate(60, 3), Ok(()));
}

#[test]
fn add_nodes_reach_floor_of_average() {
    let a = Assignment::init(&nodes(&["a", "b", "c"]), 10, 2, false).unwrap();
    let (b, _) = a.add_nodes(vec![node("d"), node("e")]).unwrap();
    // 20 replicas over 5 nodes.
    assert_eq!(load_of(&b, "d"), 4);
    assert_eq!(load_of(&b, "e"), 4);
    assert_lists_sized(&b, 2);
}

#[test]
fn add_rejects_bad_requests() {
    let a = sixty_on_eight();
    assert_eq!(a.clone().add_nodes(vec![]).unwrap_err(), AssignError::InvalidRequest);
    assert_eq!(a.clone().add_nodes(vec![node("x"), node("x")]).unwrap_err(), AssignError::InvalidRequest);
    assert_eq!(a.clone().add_nodes(vec![node("x"), node("3")]).unwrap_err(), AssignError::Conflict);
}

#[test]
fn add_rejects_repeated_replicas() {
    let mut a = Assignment::new();
    a.insert(Partition(1), nodes(&["a", "a"]));
    assert_eq!(a.add_nodes(vec![node("b")]).unwrap_err(), AssignError::InvariantViolation);
}

#[test]
fn validate_rejects_duplicate_replica() {
    let mut a = Assignment::new();
    a.insert(Partition(1), nodes(&["a", "b", "c"]));
    a.insert(Partition(2), nodes(&["b", "b", "a"]));
    a.insert(Partition(3), nodes(&["c", "a", "b"]));
    assert_eq!(a.validate(3, 3), Err(AssignError::InvariantViolation));
}

#[test]
fn validate_rejects_gaps_and_imbalance() {
    let mut gap = Assignment::new();
    gap.insert(Partition(1), nodes(&["a", "b"]));
    gap.insert(Partition(3), nodes(&["b", "a"]));
    assert_eq!(gap.validate(2, 2), Err(AssignError::InvariantViolation));

    let mut from_two = Assignment::new();
    from_two.insert(Partition(2), nodes(&["a", "b"]));
    assert_eq!(from_two.validate(1, 2), Err(AssignError::InvariantViolation));

    let mut uneven = Assignment::new();
    uneven.insert(Partition(1), nodes(&["a", "b"]));
    uneven.insert(Partition(2), nodes(&["a", "b"]));
    uneven.insert(Partition(3), nodes(&["a", "c"]));
    uneven.insert(Partition(4), nodes(&["a", "d"]));
    // 8 replicas over 4 nodes: a carries 4, c and d carry 1.
    assert_eq!(uneven.validate(4, 2), Err(AssignError::InvariantViolation));

    assert_eq!(Assignment::new().validate(1, 1), Err(AssignError::InvariantViolation));
}

#[test]
fn validate_twice_gives_one_verdict() {
    let a = sixty_on_eight();
    assert_eq!(a.validate(60, 3), a.validate(60, 3));
    assert_eq!(a.validate(61, 3), a.validate(61, 3));
    assert_eq!(a.validate(61, 3), Err(AssignError::InvariantViolation));
}

#[test]
fn insert_keeps_partitions_ordered() {
    let mut a = Assignment::new();
    a.insert(Partition(3), nodes(&["c"]));
    a.insert(Partition(1), nodes(&["a"]));
    a.insert(Partition(2), nodes(&["b"]));
    a.insert(Partition(1), nodes(&["d"]));
    let ids: Vec<u32> = a.entries().iter().map(|(p, _)| p.0).collect();
    assert_eq!(ids, vec![1, 2, 3]);
    assert_eq!(a.entries()[0].1, nodes(&["d"]));
}

#[test]
fn contains_and_ensure_contains() {
    let a = sixty_on_eight();
    assert!(a.contains_node(&node("1")));
    assert!(!a.contains_node(&node("9")));
    assert_eq!(a.ensure_contains_node(&node("8")), Ok(()));
    assert_eq!(a.ensure_contains_node(&node("9")), Err(AssignError::InvalidRequest));
    assert_eq!(a.node_count(), 8);
}

#[test]
fn add_and_init_are_deterministic() {
    let a1 = sixty_on_eight();
    let a2 = sixty_on_eight();
    assert_eq!(a1.entries(), a2.entries());
    let (b1, m1) = a1.add_nodes(vec![node("y"), node("x")]).unwrap();
    let (b2, m2) = a2.add_nodes(vec![node("y"), node("x")]).unwrap();
    assert_eq!(b1.entries(), b2.entries());
    let m1: Vec<(u32, String, String)> = m1.into_iter().map(|m| (m.partition.0, m.from.0, m.to.0)).collect();
    let m2: Vec<(u32, String, String)> = m2.into_iter().map(|m| (m.partition.0, m.from.0, m.to.0)).collect();
    assert_eq!(m1, m2);
}

#[test]
fn exchange_format_round_trip() {
    let a = sixty_on_eight();
    let map: std::collections::BTreeMap<u32, Vec<String>> = a
        .entries()
        .iter()
        .map(|(p, ns)| (p.0, ns.iter().map(|n| n.0.clone()).collect()))
        .collect();
    let text = serde_json::to_string(&map).unwrap();
    let back: std::collections::BTreeMap<u32, Vec<String>> = serde_json::from_str(&text).unwrap();
    let mut b = Assignment::new();
    for (p, ns) in back {
        b.insert(Partition(p), ns.into_iter().map(Node).collect());
    }
    assert_eq!(a.entries(), b.entries());
    assert!(text.starts_with("{\"1\":["));
}

#[test]
fn remove_keeps_partitions_and_sizes() {
    let a = Assignment::init(&nodes(&["a", "b", "c", "d", "e"]), 7, 2, true).unwrap();
    let (b, moves) = a.remove_node(&node("c"), 2).unwrap();
    let ids: Vec<u32> = b.entries().iter().map(|(p, _)| p.0).collect();
    assert_eq!(ids, (0..7).collect::<Vec<u32>>());
    assert_lists_sized(&b, 2);
    assert!(!holds_anywhere(&b, "c"));
    assert_eq!(replay(&a, &moves), *b.entries());
    // 14 replicas over 4 nodes: 3 or 4 each.
    for (_, l) in loads(&b) {
        assert!(l == 3 || l == 4);
    }
}

#[test]
fn init_three_nodes_gives_rotations() {
    let a = Assignment::init(&nodes(&["a", "b", "c"]), 6, 3, false).unwrap();
    let lists: Vec<Vec<String>> = a.entries().iter().map(|(_, ns)| ns.iter().map(|n| n.0.clone()).collect()).collect();
    let abc = vec!["a", "b", "c"];
    let bca = vec!["b", "c", "a"];
    let cab = vec!["c", "a", "b"];
    assert_eq!(lists, vec![abc.clone(), bca.clone(), cab.clone(), abc, bca, cab]);
}

#[test]
fn add_keeps_every_node_loaded() {
    let mut a = Assignment::new();
    a.insert(Partition(1), nodes(&["a", "b", "c"]));
    let (b, moves) = a.add_nodes(vec![node("d"), node("e")]).unwrap();
    // Loads 1, 1, 1, 0, 0 already differ by at most one.
    assert!(moves.is_empty());
    assert_eq!(b.entries()[0].1, nodes(&["a", "b", "c"]));
}

#[test]
fn init_balances_only_the_nodes_it_uses() {
    // Windows (a, b) and (b, c) load a, b, c with 1, 2, 1: within one, so kept.
    let a = Assignment::init(&nodes(&["a", "b", "c", "d"]), 2, 2, false).unwrap();
    let lists: Vec<Vec<String>> = a.entries().iter().map(|(_, ns)| ns.iter().map(|n| n.0.clone()).collect()).collect();
    assert_eq!(lists, vec![vec!["a", "b"], vec!["b", "c"]]);
    assert!(!holds_anywhere(&a, "d"));
}
