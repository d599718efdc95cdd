use markov::words::Words;

fn tokenize(text: &str) -> Vec<String> {
    let mut words = Words::new(text);
    let mut out: Vec<String> = Vec::new();
    while let Some(token) = words.next() {
        out.push(token);
    }
    out
}

#[test]
fn splits_on_spaces() {
    assert_eq!(tokenize("hello world"), vec!["hello", "world"]);
}

#[test]
fn runs_of_spaces_separate_without_tokens() {
    assert_eq!(tokenize("  spaced   out  "), vec!["spaced", "out"]);
}

#[test]
fn delimiters_are_single_tokens() {
    assert_eq!(tokenize("hi, there!"), vec!["hi", ",", "there", "!"]);
}

#[test]
fn consecutive_delimiters_each_produce_a_token() {
    assert_eq!(tokenize("..."), vec![".", ".", "."]);
}

#[test]
fn parentheses_split_words() {
    assert_eq!(tokenize("a(b)c"), vec!["a", "(", "b", ")", "c"]);
}

#[test]
fn newline_is_a_token() {
    assert_eq!(tokenize("line\nbreak"), vec!["line", "\n", "break"]);
}

#[test]
fn all_delimiter_kinds() {
    assert_eq!(
        tokenize("w: x, y. z? !"),
        vec!["w", ":", "x", ",", "y", ".", "z", "?", "!"]
    );
}

#[test]
fn empty_text_has_no_tokens() {
    assert_eq!(tokenize(""), Vec::<String>::new());
}

#[test]
fn spaces_only_text_has_no_tokens() {
    assert_eq!(tokenize("    "), Vec::<String>::new());
}

#[test]
fn tokenizer_feeds_model_construction() {
    let tokens = tokenize("a b a c a b");
    let model = markov::model::Model::new(&tokens);
    assert_eq!(model.nodes.len(), 3);
}
