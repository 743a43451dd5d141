use wasm_regex_tree::ast::{self, AstItem, GroupForm, RepetitionOp};
use wasm_regex_tree::hir::{self, HirItem};
use wasm_regex_tree::http::{content_type, ok_head, request_file, NOT_FOUND};
use wasm_regex_tree::layout::{grid_layout, postorder, preorder};
use wasm_regex_tree::node::{check_tree, flatten, Labelled, Node, SyntaxTree, TreeBuilder};
use wasm_regex_tree::svg::{build_error, escape_xml, join_drawings, kind_color, Tree};
use wasm_regex_tree::text::push_decimal;

fn node(label: &str, kind: &str, parent: Option<usize>, children: Vec<usize>) -> Node {
    Node { label: label.to_string(), kind: kind.to_string(), parent, children }
}

/// root(0) -> [leaf 1, inner 2 -> [leaf 3, leaf 4]]
fn sample() -> Vec<Node> {
    vec![
        node("·", "concat", None, vec![1, 2]),
        node("a", "literal", Some(0), vec![]),
        node("|", "alternation", Some(0), vec![3, 4]),
        node("b", "literal", Some(2), vec![]),
        node("c", "literal", Some(2), vec![]),
    ]
}

fn leaf(item: AstItem) -> SyntaxTree<AstItem> {
    SyntaxTree { item, printed: String::new(), children: vec![] }
}

// --- decimal numerals ---

#[test]
fn decimal_zero_and_many_digits() {
    let mut s = String::from("n=");
    push_decimal(&mut s, 0);
    assert_eq!(s, "n=0");
    let mut s = String::new();
    push_decimal(&mut s, 1234567890123);
    assert_eq!(s, "1234567890123");
}

// --- labels and kinds of items ---

#[test]
fn ast_item_labels() {
    assert_eq!(AstItem::Repetition(RepetitionOp::Bounded(2, 5), false).label(""), "{2,5}?");
    assert_eq!(AstItem::Repetition(RepetitionOp::Exactly(10), true).label(""), "{10}");
    assert_eq!(AstItem::Repetition(RepetitionOp::AtLeast(0), true).label(""), "{0,}");
    assert_eq!(AstItem::Repetition(RepetitionOp::ZeroOrMore, false).label(""), "*?");
    assert_eq!(AstItem::Group(GroupForm::CaptureIndex(12)).label(""), "(12)");
    assert_eq!(AstItem::Group(GroupForm::CaptureName("x".to_string())).label(""), "(?<x>)");
    assert_eq!(AstItem::Group(GroupForm::NonCapturing).label(""), "(?:)");
    assert_eq!(AstItem::Literal('é').label(""), "é");
    assert_eq!(AstItem::ClassPerl.label("\\d"), "\\d");
    assert_eq!(AstItem::Empty.label(""), "∅");
    assert_eq!(AstItem::Concat.kind(), "concat");
    assert_eq!(AstItem::ClassBracketed.kind(), "class_bracketed");
}

#[test]
fn hir_item_labels() {
    let rep = |min, max, greedy| HirItem::Repetition { min, max, greedy };
    assert_eq!(rep(0, Some(1), true).label(""), "?");
    assert_eq!(rep(0, None, false).label(""), "*?");
    assert_eq!(rep(1, None, true).label(""), "+");
    assert_eq!(rep(3, Some(3), true).label(""), "{3,3}");
    assert_eq!(rep(2, None, true).label(""), "{2,}");
    assert_eq!(rep(1, Some(1), false).label(""), "{1,1}?");
    assert_eq!(HirItem::Capture { index: 7, name: None }.label(""), "(7)");
    assert_eq!(HirItem::Capture { index: 1, name: Some("y".to_string()) }.label(""), "(y)");
    assert_eq!(HirItem::Literal(b"ab".to_vec()).label(""), "ab");
    assert_eq!(HirItem::Literal(vec![0x61, 0xff]).label(""), "a\u{FFFD}");
    assert_eq!(HirItem::Class.label(""), "[…]");
    assert_eq!(HirItem::Look.label("\\b"), "\\b");
    assert_eq!(HirItem::Look.kind(), "look");
}

// --- flattening trees ---

#[test]
fn flatten_numbers_in_preorder() {
    let tree = SyntaxTree {
        item: AstItem::Concat,
        printed: String::new(),
        children: vec![
            leaf(AstItem::Literal('a')),
            SyntaxTree {
                item: AstItem::Repetition(RepetitionOp::OneOrMore, true),
                printed: String::new(),
                children: vec![leaf(AstItem::Dot)],
            },
            leaf(AstItem::Literal('c')),
        ],
    };
    let nodes = flatten(&tree);
    let labels: Vec<&str> = nodes.iter().map(|n| n.label.as_str()).collect();
    assert_eq!(labels, vec!["·", "a", "+", ".", "c"]);
    assert_eq!(nodes[0].parent, None);
    assert_eq!(nodes[0].children, vec![1, 2, 4]);
    assert_eq!(nodes[2].children, vec![3]);
    assert_eq!(nodes[3].parent, Some(2));
    assert_eq!(nodes[4].parent, Some(0));
    assert_eq!(nodes[3].kind, "dot");
    assert!(check_tree(&nodes));
}

#[test]
fn builder_visits_by_hand() {
    let mut b = TreeBuilder::new();
    b.visit_pre("r".to_string(), "concat".to_string());
    b.visit_pre("x".to_string(), "literal".to_string());
    b.visit_post();
    b.visit_pre("y".to_string(), "literal".to_string());
    b.visit_post();
    b.visit_post();
    assert!(b.stack.is_empty());
    let nodes = b.finish();
    assert_eq!(nodes.len(), 3);
    assert_eq!(nodes[0].children, vec![1, 2]);
    assert_eq!(nodes[2].parent, Some(0));
}

#[test]
fn ast_builder_matches_flatten() {
    let tree = SyntaxTree {
        item: AstItem::Alternation,
        printed: String::new(),
        children: vec![leaf(AstItem::Literal('x')), leaf(AstItem::Empty)],
    };
    let mut b = ast::TreeBuilder::new();
    b.visit(&tree);
    let nodes = b.finish();
    let labels: Vec<&str> = nodes.iter().map(|n| n.label.as_str()).collect();
    assert_eq!(labels, vec!["|", "x", "∅"]);
    assert_eq!(nodes[0].children, vec![1, 2]);
}

#[test]
fn check_tree_refuses_broken_lists() {
    assert!(check_tree(&sample()));
    assert!(check_tree(&[]));
    let mut bad = sample();
    bad[3].parent = Some(0);
    assert!(!check_tree(&bad));
    let mut bad = sample();
    bad[2].children = vec![4, 3];
    assert!(!check_tree(&bad));
    let mut bad = sample();
    bad[0].parent = Some(1);
    assert!(!check_tree(&bad));
    let mut bad = sample();
    bad[0].children = vec![1, 2, 7];
    assert!(!check_tree(&bad));
}

#[test]
fn built_node_lists_are_trees() {
    for p in ["a", "(a|b)+c", r"(?P<y>\d{4})-\b", "", "a|", "[a-z]*?"] {
        assert!(check_tree(&ast::build(p).unwrap()));
        assert!(check_tree(&hir::build(p).unwrap()));
    }
}

#[test]
fn build_reports_parser_errors() {
    let e = ast::build("(a").unwrap_err();
    assert!(e.contains("unclosed group"));
    let e = hir::build("a{2,1}").unwrap_err();
    assert!(!e.is_empty());
    assert_ne!(e, "traversal failed");
}

#[test]
fn deeply_nested_patterns() {
    let deep = format!("{}a{}", "(".repeat(100), ")".repeat(100));
    let n = ast::build(&deep).unwrap();
    assert_eq!(n.len(), 101);
    assert_eq!(n[100].parent, Some(99));
    let n = hir::build(&deep).unwrap();
    assert_eq!(n.len(), 101);
    let too_deep = format!("{}a{}", "(".repeat(300), ")".repeat(300));
    assert!(ast::build(&too_deep).is_err());
    assert!(hir::build(&too_deep).is_err());
}

// --- traversal orders and layout ---

#[test]
fn postorder_lists_children_first() {
    assert_eq!(postorder(&sample(), 0), vec![1, 3, 4, 2, 0]);
    assert_eq!(postorder(&sample(), 2), vec![3, 4, 2]);
    assert_eq!(postorder(&sample(), 3), vec![3]);
}

#[test]
fn preorder_lists_parents_first() {
    assert_eq!(preorder(&sample(), 0), vec![0, 1, 2, 3, 4]);
    assert_eq!(preorder(&sample(), 2), vec![2, 3, 4]);
}

#[test]
fn grid_layout_tiles_children() {
    let g = grid_layout(&sample());
    let xs: Vec<i128> = g.iter().map(|p| p.x).collect();
    let ds: Vec<usize> = g.iter().map(|p| p.depth).collect();
    assert_eq!(xs, vec![0, -2, 1, 0, 2]);
    assert_eq!(ds, vec![0, 1, 1, 2, 2]);
    assert!(grid_layout(&[]).is_empty());
}

#[test]
fn grid_layout_single_node() {
    let g = grid_layout(&[node("a", "literal", None, vec![])]);
    assert_eq!(g.len(), 1);
    assert_eq!((g[0].x, g[0].depth), (0, 0));
}

#[test]
fn grid_layout_of_built_tree() {
    let n = ast::build("ab|c").unwrap();
    // alternation(concat(a, b), c)
    let g = grid_layout(&n);
    let xs: Vec<i128> = g.iter().map(|p| p.x).collect();
    assert_eq!(xs, vec![0, -1, -2, 0, 2]);
    assert_eq!(g[2].depth, 2);
}

// --- drawing helpers ---

#[test]
fn kind_colors() {
    assert_eq!(kind_color("literal"), "#d4eac8");
    assert_eq!(kind_color("concat"), "#cfe0f5");
    assert_eq!(kind_color("alternation"), "#f5e0cf");
    assert_eq!(kind_color("repetition"), "#f5cfcf");
    assert_eq!(kind_color("group"), "#e8d4f0");
    assert_eq!(kind_color("capture"), "#e8d4f0");
    for k in ["class_perl", "class_unicode", "class_bracketed", "class"] {
        assert_eq!(kind_color(k), "#fdf0c2");
    }
    assert_eq!(kind_color("assertion"), "#d4f0ee");
    assert_eq!(kind_color("look"), "#d4f0ee");
    assert_eq!(kind_color("empty"), "#e8e8e8");
    assert_eq!(kind_color("Literal"), "#e8e8e8");
}

#[test]
fn escape_xml_markup() {
    assert_eq!(escape_xml("<a & \"b\">"), "&lt;a &amp; &quot;b&quot;&gt;");
    assert_eq!(escape_xml("&amp;"), "&amp;amp;");
    assert_eq!(escape_xml("(?<x>)·"), "(?&lt;x&gt;)·");
    assert_eq!(escape_xml(""), "");
    assert_eq!(escape_xml("plain'text"), "plain'text");
    let out = escape_xml("<<>>\"\"&&");
    assert!(!out.contains('<') && !out.contains('>') && !out.contains('"'));
}

// --- file server decisions ---

#[test]
fn content_types() {
    assert_eq!(content_type(Some("html")), "text/html");
    assert_eq!(content_type(Some("js")), "application/javascript");
    assert_eq!(content_type(Some("wasm")), "application/wasm");
    assert_eq!(content_type(Some("css")), "text/css");
    assert_eq!(content_type(Some("svg")), "image/svg+xml");
    assert_eq!(content_type(Some("HTML")), "application/octet-stream");
    assert_eq!(content_type(None), "application/octet-stream");
}

#[test]
fn requested_files() {
    assert_eq!(request_file("GET / HTTP/1.1"), "index.html");
    assert_eq!(request_file("GET /pkg/app.js?v=3 HTTP/1.1"), "pkg/app.js");
    assert_eq!(request_file("GET //style.css HTTP/1.1"), "style.css");
    assert_eq!(request_file("GET /?x=1 HTTP/1.1"), "index.html");
    assert_eq!(request_file("GET ?x HTTP/1.1"), "");
    assert_eq!(request_file("GET"), "index.html");
    assert_eq!(request_file(""), "index.html");
    assert_eq!(request_file("  GET\t\t/a.svg\u{3000}HTTP/1.1"), "a.svg");
}

#[test]
fn response_heads() {
    assert_eq!(
        ok_head("text/html", 1234),
        "HTTP/1.1 200 OK\r\nContent-Type: text/html\r\nContent-Length: 1234\r\n\r\n"
    );
    assert_eq!(NOT_FOUND, "HTTP/1.1 404 Not Found\r\nContent-Length: 0\r\n\r\n");
}

// --- the answer of the visualizer ---

#[test]
fn build_error_names_the_tree() {
    assert_eq!(build_error(Tree::Syntax, "bad"), "AST error: bad");
    assert_eq!(build_error(Tree::Intermediate, ""), "HIR error: ");
    let e = ast::build("(a").unwrap_err();
    assert!(build_error(Tree::Syntax, &e).starts_with("AST error: "));
}

#[test]
fn join_drawings_separates_with_bars() {
    assert_eq!(join_drawings("<svg/>", "<svg></svg>"), "<svg/>||<svg></svg>");
    assert_eq!(join_drawings("", ""), "||");
}

#[test]
fn built_lists_follow_the_parsed_tree() {
    let n = ast::build("a(b|c)*").unwrap();
    let kinds: Vec<&str> = n.iter().map(|x| x.kind.as_str()).collect();
    assert_eq!(kinds, ["concat", "literal", "repetition", "group", "alternation", "literal", "literal"]);
    assert_eq!(n[0].children, vec![1, 2]);
    assert_eq!(n[4].children, vec![5, 6]);
    let n = hir::build("\\bx").unwrap();
    assert_eq!(n[0].kind, "concat");
    assert_eq!(n[1].kind, "look");
    assert_eq!(n[1].label, "\\b");
    assert_eq!(n[2].label, "x");
    let n = ast::build("[a-z]\\d").unwrap();
    assert_eq!(n[1].label, "[a-z]");
    assert_eq!(n[2].label, "\\d");
}

#[test]
fn white_space_separates_request_words() {
    assert_eq!(request_file("GET\u{85}/x.css"), "x.css");
    assert_eq!(request_file("GET\u{a0}/x.css\u{2029}HTTP/1.1"), "x.css");
    assert_eq!(request_file("GET\u{200b}/x.css"), "index.html");
}

#[test]
fn postorder_is_reversed_preorder_of_mirror() {
    let nodes = sample();
    let mut mirrored = sample();
    for n in mirrored.iter_mut() {
        n.children.reverse();
    }
    let mut pre = preorder(&mirrored, 0);
    assert_eq!(pre, vec![0, 2, 4, 3, 1]);
    pre.reverse();
    assert_eq!(postorder(&nodes, 0), pre);
    assert_eq!(postorder(&nodes, 2), vec![3, 4, 2]);
}

#[test]
fn escaped_text_reads_back() {
    let s = "a<&lt;>\"&quot;&";
    let out = escape_xml(s);
    for (i, c) in out.char_indices() {
        if c == '&' {
            let rest = &out[i..];
            assert!(["&amp;", "&lt;", "&gt;", "&quot;"].iter().any(|e| rest.starts_with(e)));
        }
    }
    let back = out
        .replace("&lt;", "<")
        .replace("&gt;", ">")
        .replace("&quot;", "\"")
        .replace("&amp;", "&");
    assert_eq!(back, s);
}

#[test]
fn walks_follow_links_in_any_numbering() {
    // root 1 with children [2, 0]; node 0 has child 3.
    let nodes = vec![
        node("b", "concat", Some(1), vec![3]),
        node("r", "alternation", None, vec![2, 0]),
        node("a", "literal", Some(1), vec![]),
        node("c", "literal", Some(0), vec![]),
    ];
    assert_eq!(preorder(&nodes, 1), vec![1, 2, 0, 3]);
    assert_eq!(postorder(&nodes, 1), vec![2, 3, 0, 1]);
    assert_eq!(postorder(&nodes, 0), vec![3, 0]);
}

#[test]
fn walks_ignore_what_the_root_cannot_reach() {
    // Nodes 2 and 3 list each other; the root 0 reaches only 1.
    let nodes = vec![
        node("r", "concat", None, vec![1]),
        node("a", "literal", Some(0), vec![]),
        node("x", "group", None, vec![3]),
        node("y", "group", Some(2), vec![2]),
    ];
    assert_eq!(preorder(&nodes, 0), vec![0, 1]);
    assert_eq!(postorder(&nodes, 0), vec![1, 0]);
}

#[test]
fn syntax_errors_read_the_same_in_both_trees() {
    for p in ["(a", "[abc", "a{2,1}", "(?P<>a)", "\\"] {
        let a = ast::build(p).unwrap_err();
        let h = hir::build(p).unwrap_err();
        assert_eq!(a, h);
    }
}

#[test]
fn literal_labels_decode_utf8() {
    let n = hir::build("héllo").unwrap();
    assert_eq!(n[0].kind, "literal");
    assert_eq!(n[0].label, "héllo");
    let n = ast::build("(?P<name>x)\\w").unwrap();
    assert_eq!(n[1].label, "(?<name>)");
    assert_eq!(n[3].label, "\\w");
}
