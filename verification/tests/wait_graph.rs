use coordify_core::waitgraph::WaitGraph;

#[test]
fn detects_two_cycle() {
    let mut g = WaitGraph::new();
    g.add_edge("a", "b", "f1");
    g.add_edge("b", "a", "f2");
    let cyc = g.find_cycle().expect("expected a cycle");
    assert_eq!(cyc.len(), 2);
    let froms: std::collections::BTreeSet<&str> = cyc.iter().map(|e| e.from.as_str()).collect();
    assert!(froms.contains("a") && froms.contains("b"));
}

#[test]
fn no_cycle_in_dag() {
    let mut g = WaitGraph::new();
    g.add_edge("a", "b", "f1");
    g.add_edge("b", "c", "f2");
    assert!(g.find_cycle().is_none());
}

#[test]
fn remove_agent_breaks_cycle_and_dedupes() {
    let mut g = WaitGraph::new();
    g.add_edge("a", "b", "f1");
    g.add_edge("a", "b", "f1");
    g.add_edge("b", "a", "f2");
    assert!(g.find_cycle().is_some());
    g.remove_agent("a");
    assert!(g.find_cycle().is_none());
}

#[test]
fn direction_matters() {
    let mut g = WaitGraph::new();
    g.add_edge("a", "b", "f1");
    assert!(g.find_cycle().is_none());
}

#[test]
fn detects_three_cycle() {
    let mut g = WaitGraph::new();
    g.add_edge("a", "b", "f1");
    g.add_edge("b", "c", "f2");
    g.add_edge("c", "a", "f3");
    assert_eq!(g.find_cycle().expect("cycle").len(), 3);
}

#[test]
fn self_loop_is_a_cycle_without_tail() {
    let mut g = WaitGraph::new();
    g.add_edge("x", "a", "r0");
    g.add_edge("a", "a", "r1");
    let cyc = g.find_cycle().expect("self-loop is a cycle");
    assert_eq!(cyc.len(), 1, "cycle must be just the self edge, not the tail");
    assert_eq!(cyc[0].from, "a");
    assert_eq!(cyc[0].to, "a");
}

#[test]
fn cycle_found_is_a_closed_walk() {
    let mut g = WaitGraph::new();
    g.add_edge("p", "q", "r");
    g.add_edge("q", "s", "r");
    g.add_edge("s", "q", "r");
    let cyc = g.find_cycle().expect("cycle");
    for i in 0..cyc.len() {
        let next = &cyc[(i + 1) % cyc.len()];
        assert_eq!(cyc[i].to, next.from);
    }
}
