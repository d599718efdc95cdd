use markov::model::{Model, Node};

fn find_node<'m>(model: &'m Model, item: &str) -> &'m Node {
    for node in model.nodes.iter() {
        if node.item == item {
            return node;
        }
    }
    panic!("no node for token {}", item);
}

fn weight_of(node: &Node, successor: &str) -> u32 {
    for (c, s) in node.successors.iter().enumerate() {
        if s == successor {
            return node.weights[c];
        }
    }
    panic!("no successor {} on node {}", successor, node.item);
}

#[test]
fn empty_input_yields_zero_nodes() {
    let items: Vec<String> = Vec::new();
    let model = Model::new(&items);
    assert_eq!(model.nodes.len(), 0);
}

#[test]
fn single_token_yields_one_node_without_successors() {
    let items = vec![String::from("hello")];
    let model = Model::new(&items);
    assert_eq!(model.nodes.len(), 1);
    assert_eq!(model.nodes[0].item, "hello");
    assert_eq!(model.nodes[0].successors.len(), 0);
    assert_eq!(model.nodes[0].weights.len(), 0);
}

#[test]
fn one_node_per_distinct_token() {
    let items = vec![
        String::from("x"),
        String::from("y"),
        String::from("x"),
        String::from("x"),
        String::from("y"),
    ];
    let model = Model::new(&items);
    assert_eq!(model.nodes.len(), 2);
    for p in 0..model.nodes.len() {
        for q in 0..p {
            assert_ne!(model.nodes[p].item, model.nodes[q].item);
        }
    }
}

#[test]
fn abacab_transition_counts() {
    let items = vec![
        String::from("a"),
        String::from("b"),
        String::from("a"),
        String::from("c"),
        String::from("a"),
        String::from("b"),
    ];
    let model = Model::new(&items);
    assert_eq!(model.nodes.len(), 3);

    let a = find_node(&model, "a");
    assert_eq!(a.successors.len(), 2);
    assert_eq!(a.successors[0], "b");
    assert_eq!(a.successors[1], "c");
    assert_eq!(weight_of(a, "b"), 2);
    assert_eq!(weight_of(a, "c"), 1);

    let b = find_node(&model, "b");
    assert_eq!(b.successors.len(), 1);
    assert_eq!(weight_of(b, "a"), 1);

    let c = find_node(&model, "c");
    assert_eq!(c.successors.len(), 1);
    assert_eq!(weight_of(c, "a"), 1);
}

#[test]
fn weights_sum_to_follow_counts() {
    // "a" occurs at three positions but the last one is final, so it is
    // followed twice; "b" is followed once; the final "a" adds nothing.
    let items = vec![
        String::from("a"),
        String::from("b"),
        String::from("a"),
        String::from("a"),
    ];
    let model = Model::new(&items);
    let a = find_node(&model, "a");
    let sum_a: u64 = a.weights.iter().map(|w| *w as u64).sum();
    assert_eq!(sum_a, 2);
    let b = find_node(&model, "b");
    let sum_b: u64 = b.weights.iter().map(|w| *w as u64).sum();
    assert_eq!(sum_b, 1);
}

#[test]
fn parallel_lengths_and_positive_weights() {
    let items = vec![
        String::from("p"),
        String::from("q"),
        String::from("p"),
        String::from("r"),
    ];
    let model = Model::new(&items);
    assert!(model.validate());
    for node in model.nodes.iter() {
        assert_eq!(node.successors.len(), node.weights.len());
        for w in node.weights.iter() {
            assert!(*w > 0);
        }
    }
}
