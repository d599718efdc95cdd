use markov::generate::{Error, Generator};
use markov::model::Model;
use rand::rngs::StdRng;
use rand::SeedableRng;

fn model_of(words: &[&str]) -> Model {
    let items: Vec<String> = words.iter().map(|w| String::from(*w)).collect();
    Model::new(&items)
}

#[test]
fn empty_model_fails_with_empty_model_error() {
    let model = model_of(&[]);
    assert_eq!(model.nodes.len(), 0);
    let rng = StdRng::seed_from_u64(7);
    match Generator::new(&model, rng) {
        Err(Error::EmptyModel) => {}
        _ => panic!("generation from an empty model must fail with EmptyModel"),
    }
}

#[test]
fn single_node_always_emits_its_own_token() {
    let model = model_of(&["only"]);
    let rng = StdRng::seed_from_u64(11);
    let mut generator = Generator::new(&model, rng).unwrap();
    for _ in 0..200 {
        assert_eq!(generator.next(), "only");
    }
}

#[test]
fn n_steps_emit_n_tokens_from_the_corpus() {
    let model = model_of(&["a", "b", "c", "a", "b", "a"]);
    let rng = StdRng::seed_from_u64(23);
    let mut generator = Generator::new(&model, rng).unwrap();
    let mut count: usize = 0;
    for _ in 0..1000 {
        let token = generator.next();
        assert!(token == "a" || token == "b" || token == "c");
        count += 1;
    }
    assert_eq!(count, 1000);
}

#[test]
fn repeated_corpus_token_still_generates() {
    // a single distinct token whose node has itself as successor: every
    // second step collides and resets, yet each step must produce the token
    let model = model_of(&["a", "a", "a"]);
    let rng = StdRng::seed_from_u64(31);
    let mut generator = Generator::new(&model, rng).unwrap();
    for _ in 0..100 {
        assert_eq!(generator.next(), "a");
    }
}

#[test]
fn sampling_follows_the_observed_frequencies() {
    // from "r" the corpus moves to "a" three times for every one move to
    // "b"; every node has a successor, so the self-loop fallback never
    // fires, a reset can only emit "r" or a weighted draw out of "r", and
    // "a"/"b" are emitted exclusively by r's weighted sampling.  Over many
    // steps the counts must reflect the 3:1 weights (unweighted choice over
    // the two successors would give about 1:1)
    let model = model_of(&["r", "a", "r", "a", "r", "a", "r", "b", "r"]);
    let rng = StdRng::seed_from_u64(97);
    let mut generator = Generator::new(&model, rng).unwrap();
    let mut count_a: u64 = 0;
    let mut count_b: u64 = 0;
    for _ in 0..40000 {
        let token = generator.next();
        if token == "a" {
            count_a += 1;
        } else if token == "b" {
            count_b += 1;
        }
    }
    assert!(count_b > 0, "a successor of positive weight was never sampled");
    let ratio = count_a as f64 / count_b as f64;
    assert!(
        ratio > 2.0 && ratio < 4.5,
        "observed a:b ratio {} strays too far from the 3:1 weights",
        ratio
    );
}

#[test]
fn inconsistent_weights_is_a_distinct_error() {
    assert_ne!(Error::EmptyModel, Error::InconsistentWeights);
}
