use typedlua_typechecker::module_resolver::ordering::dependency_order;

#[test]
fn empty_graph_has_the_empty_order() {
    assert_eq!(dependency_order(&vec![]), Ok(vec![]));
}

#[test]
fn chain_is_ordered_from_its_end() {
    // 0 needs 1, 1 needs 2
    let adj = vec![vec![1], vec![2], vec![]];
    assert_eq!(dependency_order(&adj), Ok(vec![2, 1, 0]));
}

#[test]
fn diamond_puts_the_shared_node_first() {
    // 0 needs 1 and 2; 1 and 2 need 3
    let adj = vec![vec![1, 2], vec![3], vec![3], vec![]];
    assert_eq!(dependency_order(&adj), Ok(vec![3, 1, 2, 0]));
}

#[test]
fn self_edge_is_the_cycle_of_one_node() {
    assert_eq!(dependency_order(&vec![vec![0]]), Err(vec![0, 0]));
}

#[test]
fn cycle_starts_at_the_node_met_again() {
    // 0 -> 1 -> 2 -> 3 -> 1: the path is 0 1 2 3, and 1 is met again
    let adj = vec![vec![1], vec![2], vec![3], vec![1]];
    assert_eq!(dependency_order(&adj), Err(vec![1, 2, 3, 1]));
}

#[test]
fn repeated_edges_are_harmless() {
    let adj = vec![vec![1, 1, 1], vec![]];
    assert_eq!(dependency_order(&adj), Ok(vec![1, 0]));
}

#[test]
fn finished_nodes_are_not_taken_for_a_cycle() {
    // 0 -> 2, 1 -> 2: 2 is finished when 1 looks at it
    let adj = vec![vec![2], vec![2], vec![]];
    assert_eq!(dependency_order(&adj), Ok(vec![2, 0, 1]));
}

#[test]
fn long_chain_needs_no_deep_recursion() {
    let n: usize = 200_000;
    let mut adj: Vec<Vec<usize>> = Vec::with_capacity(n);
    for i in 0..n {
        if i + 1 < n {
            adj.push(vec![i + 1]);
        } else {
            adj.push(vec![]);
        }
    }
    let order = dependency_order(&adj).unwrap();
    assert_eq!(order.len(), n);
    assert_eq!(order[0], n - 1);
    assert_eq!(order[n - 1], 0);
}

/// A small generator of numbers that looks random and is the same on every run.
struct Numbers(u64);

impl Numbers {
    fn next(&mut self, below: usize) -> usize {
        self.0 = self.0.wrapping_mul(6364136223846793005).wrapping_add(1442695040888963407);
        ((self.0 >> 33) as usize) % below
    }
}

#[test]
fn every_outcome_on_many_graphs_is_an_order_or_a_cycle() {
    let mut numbers = Numbers(7);
    let (mut orders, mut cycles) = (0, 0);
    for round in 0..400 {
        let n = 1 + numbers.next(12);
        let edges = numbers.next(2 * n);
        let mut adj: Vec<Vec<usize>> = vec![Vec::new(); n];
        for _ in 0..edges {
            let from = numbers.next(n);
            let to = numbers.next(n);
            // in every other round edges only lead to smaller numbers, so there is no cycle
            if round % 2 == 1 || to < from {
                adj[from].push(to);
            }
        }
        match dependency_order(&adj) {
            Ok(order) => {
                orders += 1;
                assert_eq!(order.len(), n);
                let mut place = vec![usize::MAX; n];
                for (p, &node) in order.iter().enumerate() {
                    assert_eq!(place[node], usize::MAX);
                    place[node] = p;
                }
                for from in 0..n {
                    for &to in &adj[from] {
                        assert!(place[to] < place[from]);
                    }
                }
            }
            Err(cycle) => {
                cycles += 1;
                assert!(round % 2 == 1);
                assert!(cycle.len() >= 2);
                assert_eq!(cycle[0], cycle[cycle.len() - 1]);
                for step in cycle.windows(2) {
                    assert!(adj[step[0]].contains(&step[1]));
                }
                let mut inner = cycle[..cycle.len() - 1].to_vec();
                inner.sort();
                inner.dedup();
                assert_eq!(inner.len(), cycle.len() - 1);
            }
        }
    }
    assert!(orders >= 200);
    assert!(cycles > 0);
}
