use code_overlay::highlight::highlight_tokens;

fn as_pairs(v: Vec<(String, Option<&'static str>)>) -> Vec<(String, Option<String>)> {
    v.into_iter().map(|(t, c)| (t, c.map(|s| s.to_string()))).collect()
}

fn tok(t: &str, c: Option<&str>) -> (String, Option<String>) {
    (t.to_string(), c.map(|s| s.to_string()))
}

#[test]
fn keywords_are_classified() {
    assert_eq!(
        as_pairs(highlight_tokens("def matmul")),
        vec![tok("def", Some("hl-keyword")), tok(" ", None), tok("matmul", None)]
    );
}

#[test]
fn words_split_at_non_word_characters() {
    assert_eq!(
        as_pairs(highlight_tokens("f(x)")),
        vec![tok("f", None), tok("(", None), tok("x", None), tok(")", None)]
    );
}

#[test]
fn string_literals_run_to_their_delimiter() {
    assert_eq!(
        as_pairs(highlight_tokens("from a import \"b c\"")),
        vec![
            tok("from", Some("hl-keyword")),
            tok(" ", None),
            tok("a", None),
            tok(" ", None),
            tok("import", Some("hl-keyword")),
            tok(" ", None),
            tok("\"b c\"", Some("hl-string")),
        ]
    );
}

#[test]
fn single_quotes_delimit_strings_too() {
    assert_eq!(
        as_pairs(highlight_tokens("'xy'z")),
        vec![tok("'xy'", Some("hl-string")), tok("z", None)]
    );
}

#[test]
fn unterminated_string_becomes_one_plain_token() {
    assert_eq!(as_pairs(highlight_tokens("a\"bc")), vec![tok("a", None), tok("\"bc", None)]);
}

#[test]
fn empty_string_literal() {
    assert_eq!(
        as_pairs(highlight_tokens("\"\"x")),
        vec![tok("\"\"", Some("hl-string")), tok("x", None)]
    );
}

#[test]
fn underscores_extend_words() {
    assert_eq!(
        as_pairs(highlight_tokens("return_value return")),
        vec![tok("return_value", None), tok(" ", None), tok("return", Some("hl-keyword"))]
    );
}

#[test]
fn concatenated_tokens_reproduce_the_input() {
    let inputs = [
        "def f(x):\n    return x @ y.T",
        "s = \"un'termin",
        "",
        "import torch",
        "é = 1",
    ];
    for input in inputs {
        let rebuilt: String =
            highlight_tokens(input).into_iter().map(|(t, _)| t).collect();
        assert_eq!(rebuilt, input);
    }
}
