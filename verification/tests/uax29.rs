use data::uax29::{generate_egcbreak, Grammar, GrammarError};

#[test]
fn sample_grammar_compiles_to_nonterminal_free_regex() {
    let regex = generate_egcbreak().unwrap();
    // Fully expanded: no production arrow and no bare nonterminal names.
    assert!(!regex.contains(":="));
    assert!(!regex.contains("egc"));
    assert!(!regex.contains("crlf"));
    assert!(!regex.contains("core"));
    assert!(!regex.contains("sequence"));
    // Structure of the UAX #29 alternation is visible.
    assert!(regex.contains("|"));
    assert!(regex.contains("(?:"));
    // The extended-pictographic property renders as the fixed byte range.
    assert!(regex.contains("[\\x80-\\xFF]"));
    // CR is class 1: both tagged encodings appear.
    assert!(regex.contains("[\\x01\\x81]"));
}

#[test]
fn small_grammar_renders_exactly() {
    let mut g = Grammar::parse("x := CR LF | CR").unwrap();
    g.expand().unwrap();
    let out = g.fmt();
    assert_eq!(out, "[\\x01\\x81][\\x02\\x82]|[\\x01\\x81]");
}

#[test]
fn nonterminals_expand_to_groups() {
    let mut g = Grammar::parse("root := sub sub\nsub := CR | LF").unwrap();
    g.expand().unwrap();
    let out = g.fmt();
    assert_eq!(
        out,
        "(?:[\\x01\\x81]|[\\x02\\x82])(?:[\\x01\\x81]|[\\x02\\x82])"
    );
}

#[test]
fn quantifiers_render_after_their_terms() {
    let mut g = Grammar::parse("root := CR* LF+ [^CR LF]").unwrap();
    g.expand().unwrap();
    let out = g.fmt();
    assert_eq!(out, "[\\x01\\x81]*[\\x02\\x82]+[^\\x01\\x81\\x02\\x82]");
}

#[test]
fn undefined_nonterminal_is_rejected() {
    let mut g = Grammar::parse("root := missing").unwrap();
    assert_eq!(g.expand(), Err(GrammarError::UndefinedNonterminal));
}

#[test]
fn cyclic_grammar_is_rejected_not_diverging() {
    let mut g = Grammar::parse("a := b\nb := a").unwrap();
    assert_eq!(g.expand(), Err(GrammarError::TooDeep));
}

#[test]
fn malformed_grammar_is_a_syntax_error() {
    assert!(Grammar::parse("no arrow here").is_err());
    assert!(Grammar::parse("").is_err());
    assert!(Grammar::parse("x := ").is_err());
}

#[test]
fn unknown_class_name_is_a_syntax_error() {
    assert!(Grammar::parse("x := NotAClass").is_err());
}

#[test]
fn unsupported_property_is_not_renderable() {
    let mut g = Grammar::parse("x := \\p{Zzz}").unwrap();
    g.expand().unwrap();
    assert!(!g.0[0].alternate.renderable());
    let mut ok = Grammar::parse("x := \\p{Extended_Pictographic}").unwrap();
    ok.expand().unwrap();
    assert!(ok.0[0].alternate.renderable());
    assert_eq!(ok.fmt(), "[\\x80-\\xFF]");
}
