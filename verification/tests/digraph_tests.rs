use digraph123::digraph::DigraphBuilder;

#[test]
fn empty_builder_yields_lone_start_node() {
    let builder = DigraphBuilder::new();
    let digraph = builder.into_digraph();
    assert_eq!(digraph.num_nodes(), 1);
    assert_eq!(digraph.num_arrows(0), 0);
}

#[test]
fn start_gets_a_way_out_after_any_edge() {
    // an edge that does not touch "start" still leaves node 0 with a way out
    let builder = DigraphBuilder::new().arrow(
        "a".to_string(),
        "b".to_string(),
        "a-b.ogg".to_string(),
    );
    let digraph = builder.into_digraph();
    assert_eq!(digraph.num_nodes(), 3);
    // synthesized: one bare arrow to every other node
    assert_eq!(digraph.num_arrows(0), 2);
}

#[test]
fn start_keeps_its_own_arrows() {
    let builder = DigraphBuilder::new()
        .arrow("start".to_string(), "a".to_string(), "start-a.ogg".to_string())
        .arrow("a".to_string(), "start".to_string(), "a-start.ogg".to_string());
    let digraph = builder.into_digraph();
    assert_eq!(digraph.num_nodes(), 2);
    assert_eq!(digraph.num_arrows(0), 1);
    assert_eq!(digraph.num_arrows(1), 1);
}

#[test]
fn parallel_edges_accumulate_into_one_arrow() {
    let builder = DigraphBuilder::new()
        .arrow("a".to_string(), "b".to_string(), "one.ogg".to_string())
        .arrow("a".to_string(), "b".to_string(), "two.ogg".to_string())
        .arrow("a".to_string(), "c".to_string(), "three.ogg".to_string());
    let digraph = builder.into_digraph();
    // node "a" holds two arrows: one to "b" carrying two clips, one to "c"
    assert_eq!(digraph.num_nodes(), 4);
    assert_eq!(digraph.num_arrows(1), 2);
}

#[test]
fn walk_on_empty_graph_never_yields() {
    let digraph = DigraphBuilder::new().into_digraph();
    let mut walk = digraph.into_random_walk();
    for _ in 0..20 {
        assert!(walk.next().is_none());
    }
}

#[test]
fn walk_on_stocked_graph_always_yields() {
    // every node has a way out and every arrow carries a clip, so the
    // sequence never ends
    let builder = DigraphBuilder::new()
        .arrow("start".to_string(), "a".to_string(), "s-a.ogg".to_string())
        .arrow("a".to_string(), "start".to_string(), "a-s.ogg".to_string());
    let digraph = builder.into_digraph();
    let mut walk = digraph.into_random_walk();
    for _ in 0..50 {
        assert!(walk.next().is_some());
    }
}

#[test]
fn walk_follows_the_only_road() {
    // with a single arrow and a single clip everywhere, the uniform choices
    // are forced, so the produced sequence is fully determined
    let builder = DigraphBuilder::new()
        .arrow("start".to_string(), "a".to_string(), "x.ogg".to_string())
        .arrow("a".to_string(), "start".to_string(), "y.ogg".to_string());
    let digraph = builder.into_digraph();
    let mut walk = digraph.into_random_walk();
    for round in 0..10 {
        let expected = if round % 2 == 0 { "x.ogg" } else { "y.ogg" };
        assert_eq!(walk.next().unwrap(), expected.to_string());
    }
}

#[test]
fn walk_misses_on_bare_arrows_but_advances() {
    // "start" has only the synthesized bare arrow toward "a"; from "a" the
    // real arrow carries a clip, so every other step yields one
    let builder = DigraphBuilder::new().arrow(
        "a".to_string(),
        "b".to_string(),
        "a-b.ogg".to_string(),
    );
    let digraph = builder.into_digraph();
    let mut walk = digraph.into_random_walk();
    // first step misses on a bare arrow, the retry lands on a real one
    // whenever the bare arrow led to "a"
    for _ in 0..10 {
        if let Some(clip) = walk.next() {
            assert_eq!(clip, "a-b.ogg".to_string());
        }
    }
}
