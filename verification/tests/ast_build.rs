use wasm_regex_tree::ast::build;
use wasm_regex_tree::node::Node;



fn labels(nodes: &[Node]) -> Vec<&str> {
    nodes.iter().map(|n| n.label.as_str()).collect()
}

fn kinds(nodes: &[Node]) -> Vec<&str> {
    nodes.iter().map(|n| n.kind.as_str()).collect()
}

fn children_of<'a>(nodes: &'a [Node], label: &str) -> Vec<&'a str> {
    let idx = nodes.iter().position(|n| n.label == label).unwrap();
    nodes[idx]
        .children
        .iter()
        .map(|&c| nodes[c].label.as_str())
        .collect()
}

#[test]
fn literal() {
    let nodes = build("a").unwrap();
    assert_eq!(labels(&nodes), vec!["a"]);
    assert_eq!(kinds(&nodes), vec!["literal"]);
}

#[test]
fn concat() {
    let nodes = build("ab").unwrap();
    assert_eq!(nodes[0].kind, "concat");
    assert_eq!(children_of(&nodes, "·"), vec!["a", "b"]);
}

#[test]
fn alternation() {
    let nodes = build("a|b").unwrap();
    assert_eq!(nodes[0].kind, "alternation");
    assert_eq!(children_of(&nodes, "|"), vec!["a", "b"]);
}

#[test]
fn repetition_greedy() {
    let nodes = build("a+").unwrap();
    assert_eq!(nodes[0].label, "+");
    assert_eq!(children_of(&nodes, "+"), vec!["a"]);
}

#[test]
fn repetition_lazy() {
    let nodes = build("a+?").unwrap();
    assert_eq!(nodes[0].label, "+?");
}

#[test]
fn group_capture() {
    let nodes = build("(a)").unwrap();
    assert_eq!(nodes[0].kind, "group");
    assert_eq!(nodes[0].label, "(1)");
    assert_eq!(children_of(&nodes, "(1)"), vec!["a"]);
}

#[test]
fn nested() {
    let nodes = build("(a|b)+c").unwrap();
    assert_eq!(nodes[0].kind, "concat");
    assert_eq!(nodes[0].children.len(), 2);
}

#[test]
fn invalid_pattern() {
    assert!(build("(a|b[c").is_err());
}

#[test]
fn class_perl() {
    let nodes = build(r"\d+").unwrap();
    assert_eq!(nodes[1].kind, "class_perl");
}

// --- more literals ---

#[test]
fn literal_space() {
    let n = build(" ").unwrap();
    assert_eq!(n[0].label, " ");
}
#[test]
fn literal_digit() {
    let n = build("5").unwrap();
    assert_eq!(n[0].kind, "literal");
}
#[test]
fn literal_unicode() {
    let n = build("é").unwrap();
    assert_eq!(n[0].kind, "literal");
}
#[test]
fn escaped_dot() {
    let n = build(r"\.").unwrap();
    assert_eq!(n[0].kind, "literal");
}
#[test]
fn escaped_star() {
    let n = build(r"\*").unwrap();
    assert_eq!(n[0].kind, "literal");
}
#[test]
fn ast_hex_literal() {
    let n = build(r"\x61").unwrap();
    assert_eq!(n[0].kind, "literal");
    assert_eq!(n[0].label, "a");
}
#[test]
fn tab_literal() {
    let n = build(r"\t").unwrap();
    assert_eq!(n[0].kind, "literal");
}
#[test]
fn newline_literal() {
    let n = build(r"\n").unwrap();
    assert_eq!(n[0].kind, "literal");
}

// --- dot ---

#[test]
fn dot_node() {
    let n = build(".").unwrap();
    assert_eq!(n[0].kind, "dot");
    assert_eq!(n[0].label, ".");
}

// --- concat ---

#[test]
fn ast_concat_three() {
    let n = build("abc").unwrap();
    assert_eq!(n[0].children.len(), 3);
}
#[test]
fn ast_concat_five() {
    let n = build("abcde").unwrap();
    assert_eq!(n[0].children.len(), 5);
}
#[test]
fn concat_order() {
    let n = build("xy").unwrap();
    assert_eq!(children_of(&n, "·"), vec!["x", "y"]);
}

// --- alternation ---

#[test]
fn alt_three() {
    let n = build("a|b|c").unwrap();
    assert_eq!(n[0].children.len(), 3);
}
#[test]
fn alt_four() {
    let n = build("a|b|c|d").unwrap();
    assert_eq!(n[0].children.len(), 4);
}
#[test]
fn ast_alt_words() {
    let n = build("foo|bar").unwrap();
    assert_eq!(n[0].kind, "alternation");
}
#[test]
fn alt_children_labels() {
    let n = build("x|y").unwrap();
    assert_eq!(children_of(&n, "|"), vec!["x", "y"]);
}

// --- repetition ---

#[test]
fn ast_star() {
    let n = build("a*").unwrap();
    assert_eq!(n[0].label, "*");
}
#[test]
fn question_mark() {
    let n = build("a?").unwrap();
    assert_eq!(n[0].label, "?");
}
#[test]
fn exact_rep() {
    let n = build("a{3}").unwrap();
    assert_eq!(n[0].label, "{3}");
}
#[test]
fn ast_at_least() {
    let n = build("a{2,}").unwrap();
    assert_eq!(n[0].label, "{2,}");
}
#[test]
fn bounded_rep() {
    let n = build("a{2,5}").unwrap();
    assert_eq!(n[0].label, "{2,5}");
}
#[test]
fn ast_lazy_star() {
    let n = build("a*?").unwrap();
    assert_eq!(n[0].label, "*?");
}
#[test]
fn ast_lazy_question() {
    let n = build("a??").unwrap();
    assert_eq!(n[0].label, "??");
}
#[test]
fn rep_child() {
    let n = build("a*").unwrap();
    assert_eq!(children_of(&n, "*"), vec!["a"]);
}

// --- groups ---

#[test]
fn named_group() {
    let n = build("(?P<foo>a)").unwrap();
    assert_eq!(n[0].label, "(?<foo>)");
}
#[test]
fn non_capturing() {
    let n = build("(?:a)").unwrap();
    assert_eq!(n[0].kind, "group");
    assert_eq!(n[0].label, "(?:)");
}
#[test]
fn nested_groups() {
    let n = build("((a))").unwrap();
    assert_eq!(kinds(&n).iter().filter(|&&k| k == "group").count(), 2);
}
#[test]
fn group_child() {
    let n = build("(ab)").unwrap();
    let g = n[0].children[0];
    assert_eq!(n[g].kind, "concat");
}

// --- classes ---

#[test]
fn ast_class_w() {
    let n = build(r"\w").unwrap();
    assert_eq!(n[0].kind, "class_perl");
}
#[test]
fn ast_class_s() {
    let n = build(r"\s").unwrap();
    assert_eq!(n[0].kind, "class_perl");
}
#[test]
fn class_upper_d() {
    let n = build(r"\D").unwrap();
    assert_eq!(n[0].kind, "class_perl");
}
#[test]
fn bracketed() {
    let n = build("[a-z]").unwrap();
    assert_eq!(n[0].kind, "class_bracketed");
    assert_eq!(n[0].label, "[a-z]");
}
#[test]
fn ast_negated_class() {
    let n = build("[^a-z]").unwrap();
    assert_eq!(n[0].kind, "class_bracketed");
}
#[test]
fn ast_unicode_class() {
    let n = build(r"\p{L}").unwrap();
    assert_eq!(n[0].kind, "class_unicode");
}
#[test]
fn unicode_neg_class() {
    let n = build(r"\P{L}").unwrap();
    assert_eq!(n[0].kind, "class_unicode");
}

// --- assertions ---

#[test]
fn caret() {
    let n = build("^").unwrap();
    assert_eq!(n[0].kind, "assertion");
}
#[test]
fn dollar() {
    let n = build("$").unwrap();
    assert_eq!(n[0].kind, "assertion");
}
#[test]
fn ast_word_boundary() {
    let n = build(r"\b").unwrap();
    assert_eq!(n[0].kind, "assertion");
}
#[test]
fn not_word_boundary() {
    let n = build(r"\B").unwrap();
    assert_eq!(n[0].kind, "assertion");
}
#[test]
fn start_text() {
    let n = build(r"\A").unwrap();
    assert_eq!(n[0].kind, "assertion");
}
#[test]
fn end_text() {
    let n = build(r"\z").unwrap();
    assert_eq!(n[0].kind, "assertion");
}

// --- flags ---

#[test]
fn flags_node() {
    let n = build("(?i)").unwrap();
    assert_eq!(n[0].kind, "flags");
}
#[test]
fn inline_flag_group() {
    let n = build("(?i:a)").unwrap();
    assert_eq!(n[0].kind, "group");
}

// --- invalid ---

#[test]
fn invalid_open_paren() {
    assert!(build("(abc").is_err());
}
#[test]
fn invalid_open_bracket() {
    assert!(build("[abc").is_err());
}
#[test]
fn invalid_lone_plus() {
    assert!(build("+").is_err());
}
#[test]
fn invalid_lone_star() {
    assert!(build("*").is_err());
}

// --- complex ---

#[test]
fn ast_date_pattern() {
    let n = build(r"(?P<year>\d{4})-(?P<month>0[1-9]|1[0-2])-(?P<day>0[1-9]|[12]\d|3[01])")
        .unwrap();
    assert_eq!(n[0].kind, "concat");
    assert!(n.iter().any(|x| x.label == "(?<year>)"));
    assert!(n.iter().any(|x| x.label == "(?<month>)"));
    assert!(n.iter().any(|x| x.label == "(?<day>)"));
}

#[test]
fn ast_email_like() {
    let n = build(r"[a-z]+@[a-z]+\.[a-z]+").unwrap();
    assert_eq!(n[0].kind, "concat");
    assert!(kinds(&n).iter().filter(|&&k| k == "repetition").count() >= 2);
}

#[test]
fn ast_nested_groups_and_reps() {
    let n = build(r"((a|b)+c)*").unwrap();
    assert_eq!(n[0].kind, "repetition");
    assert!(kinds(&n).iter().any(|&k| k == "group"));
}

#[test]
fn ast_ip_like() {
    let n = build(r"\d{1,3}\.\d{1,3}\.\d{1,3}\.\d{1,3}").unwrap();
    assert_eq!(kinds(&n).iter().filter(|&&k| k == "repetition").count(), 4);
}

#[test]
fn ast_word_boundary_word() {
    let n = build(r"\bword\b").unwrap();
    assert_eq!(n[0].kind, "concat");
    assert_eq!(kinds(&n).iter().filter(|&&k| k == "assertion").count(), 2);
}

#[test]
fn ast_alternation_of_groups() {
    let n = build(r"(foo)|(bar)").unwrap();
    assert_eq!(kinds(&n).iter().filter(|&&k| k == "group").count(), 2);
}

#[test]
fn ast_deeply_nested() {
    let n = build(r"((((a))))").unwrap();
    assert_eq!(kinds(&n).iter().filter(|&&k| k == "group").count(), 4);
}

#[test]
fn non_greedy_complex() {
    let n = build(r"<.+?>").unwrap();
    assert!(n.iter().any(|x| x.label == "+?"));
}

#[test]
fn ast_multiline_anchors() {
    let n = build(r"^foo$").unwrap();
    assert_eq!(n[0].kind, "concat");
    assert_eq!(kinds(&n).iter().filter(|&&k| k == "assertion").count(), 2);
}

