//! What the drawing of a node list reads: the fill colour of each kind and
//! label text escaped for XML.

use vstd::prelude::*;
use crate::text::{chars_of, same_text};
use crate::ast::AstItem;
use crate::hir::HirItem;
use crate::node::Labelled;

verus! {

/// The fill colour of a node of kind `kind`.
pub open spec fn kind_color_of(kind: Seq<char>) -> Seq<char> {
    if kind == "literal"@ {
        "#d4eac8"@
    } else if kind == "concat"@ {
        "#cfe0f5"@
    } else if kind == "alternation"@ {
        "#f5e0cf"@
    } else if kind == "repetition"@ {
        "#f5cfcf"@
    } else if kind == "group"@ || kind == "capture"@ {
        "#e8d4f0"@
    } else if kind == "class_perl"@ || kind == "class_unicode"@ || kind == "class_bracketed"@
        || kind == "class"@ {
        "#fdf0c2"@
    } else if kind == "assertion"@ || kind == "look"@ {
        "#d4f0ee"@
    } else {
        "#e8e8e8"@
    }
}

/// The fill colour of a node of kind `kind`.
pub fn kind_color(kind: &str) -> (color: &'static str)
    ensures
        color@ == kind_color_of(kind@),
{
    if same_text(kind, "literal") {
        "#d4eac8"
    } else if same_text(kind, "concat") {
        "#cfe0f5"
    } else if same_text(kind, "alternation") {
        "#f5e0cf"
    } else if same_text(kind, "repetition") {
        "#f5cfcf"
    } else if same_text(kind, "group") || same_text(kind, "capture") {
        "#e8d4f0"
    } else if same_text(kind, "class_perl") || same_text(kind, "class_unicode") || same_text(
        kind,
        "class_bracketed",
    ) || same_text(kind, "class") {
        "#fdf0c2"
    } else if same_text(kind, "assertion") || same_text(kind, "look") {
        "#d4f0ee"
    } else {
        "#e8e8e8"
    }
}

/// The XML text for one character: the markup characters `&`, `<`, `>`
/// and `"` become their entity references, others stand for themselves.
pub open spec fn escape_char(c: char) -> Seq<char> {
    if c == '&' {
        "&amp;"@
    } else if c == '<' {
        "&lt;"@
    } else if c == '>' {
        "&gt;"@
    } else if c == '"' {
        "&quot;"@
    } else {
        seq![c]
    }
}

/// The XML text for `s`, one character after another.
pub open spec fn escape_text(s: Seq<char>) -> Seq<char>
    decreases s.len(),
{
    if s.len() == 0 {
        seq![]
    } else {
        escape_text(s.drop_last()) + escape_char(s.last())
    }
}

/// `s` escaped for XML text and attribute values.
pub fn escape_xml(s: &str) -> (out: String)
    ensures
        out@ == escape_text(s@),
{
    let cs = chars_of(s);
    let mut out = String::new();
    let mut i: usize = 0;
    while i < cs.len()
        invariant
            i <= cs@.len(),
            out@ == escape_text(cs@.take(i as int)),
        decreases cs@.len() - i,
    {
        let c = cs[i];
        if c == '&' {
            out.append("&amp;");
        } else if c == '<' {
            out.append("&lt;");
        } else if c == '>' {
            out.append("&gt;");
        } else if c == '"' {
            out.append("&quot;");
        } else {
            crate::text::push_char(&mut out, c);
        }
        proof {
            assert(cs@.take(i + 1).drop_last() =~= cs@.take(i as int));
            assert(cs@.take(i + 1).last() == c);
            assert(out@ =~= escape_text(cs@.take(i + 1)));
        }
        i = i + 1;
    }
    proof {
        assert(cs@.take(cs@.len() as int) =~= cs@);
    }
    out
}

/// Escaping law: the escaped text holds none of `<`, `>` and `"`, so it
/// cannot open or close markup or end an attribute value; and a text
/// without any of `&`, `<`, `>`, `"` is left as it is.
pub proof fn lemma_escape_text(s: Seq<char>)
    ensures
        !escape_text(s).contains('<'),
        !escape_text(s).contains('>'),
        !escape_text(s).contains('"'),
        (forall|i: int| 0 <= i < s.len() ==> #[trigger] s[i] != '&' && s[i] != '<' && s[i] != '>' && s[i] != '"')
            ==> escape_text(s) == s,
    decreases s.len(),
{
    reveal_strlit("&amp;");
    reveal_strlit("&lt;");
    reveal_strlit("&gt;");
    reveal_strlit("&quot;");
    if s.len() > 0 {
        let init = s.drop_last();
        lemma_escape_text(init);
        let e = escape_char(s.last());
        assert(!e.contains('<') && !e.contains('>') && !e.contains('"'));
        let all = escape_text(init) + e;
        assert forall|k: int| 0 <= k < all.len() implies all[k] != '<' && all[k] != '>' && all[k] != '"' by {
            if k < escape_text(init).len() {
                assert(all[k] == escape_text(init)[k]);
            } else {
                assert(all[k] == e[k - escape_text(init).len()]);
            }
        }
        if forall|i: int| 0 <= i < s.len() ==> #[trigger] s[i] != '&' && s[i] != '<' && s[i] != '>' && s[i] != '"' {
            assert forall|i: int| 0 <= i < init.len() implies #[trigger] init[i] != '&' && init[i] != '<' && init[i] != '>' && init[i] != '"' by {
                assert(init[i] == s[i]);
            }
            assert(s.last() == s[s.len() - 1]);
            assert(escape_text(s) =~= s);
        }
    }
}

/// Whether `t` starts with one of the four entity references that
/// [`escape_char`] writes.
pub open spec fn starts_entity(t: Seq<char>) -> bool {
    ||| "&amp;"@.is_prefix_of(t)
    ||| "&lt;"@.is_prefix_of(t)
    ||| "&gt;"@.is_prefix_of(t)
    ||| "&quot;"@.is_prefix_of(t)
}

/// Reads XML text back: each of the four entity references becomes its
/// character, every other character stands for itself.
pub open spec fn unescape_text(t: Seq<char>) -> Seq<char>
    decreases t.len(),
{
    if t.len() == 0 {
        seq![]
    } else if "&amp;"@.is_prefix_of(t) {
        proof {
            reveal_strlit("&amp;");
        }
        seq!['&'] + unescape_text(t.skip(5))
    } else if "&lt;"@.is_prefix_of(t) {
        proof {
            reveal_strlit("&lt;");
        }
        seq!['<'] + unescape_text(t.skip(4))
    } else if "&gt;"@.is_prefix_of(t) {
        proof {
            reveal_strlit("&gt;");
        }
        seq!['>'] + unescape_text(t.skip(4))
    } else if "&quot;"@.is_prefix_of(t) {
        proof {
            reveal_strlit("&quot;");
        }
        seq!['"'] + unescape_text(t.skip(6))
    } else {
        seq![t[0]] + unescape_text(t.skip(1))
    }
}

proof fn lemma_escape_front(s: Seq<char>)
    requires
        s.len() > 0,
    ensures
        escape_text(s) == escape_char(s[0]) + escape_text(s.drop_first()),
    decreases s.len(),
{
    if s.len() == 1 {
        assert(s.drop_last().len() == 0);
        assert(s.drop_first().len() == 0);
        assert(escape_text(s.drop_first()) == Seq::<char>::empty());
        assert(escape_text(s.drop_last()) == Seq::<char>::empty());
        assert(s.last() == s[0]);
        assert(escape_text(s) =~= escape_char(s[0]) + escape_text(s.drop_first()));
    } else {
        lemma_escape_front(s.drop_last());
        assert(s.drop_last().drop_first() =~= s.drop_first().drop_last());
        assert(s.drop_first().last() == s.last());
        assert(s.drop_last()[0] == s[0]);
        assert(escape_text(s.drop_first()) == escape_text(s.drop_first().drop_last()) + escape_char(
            s.drop_first().last(),
        ));
        assert(escape_text(s) =~= escape_char(s[0]) + escape_text(s.drop_first()));
    }
}

proof fn lemma_unescape_char(c: char, rest: Seq<char>)
    ensures
        unescape_text(escape_char(c) + rest) == seq![c] + unescape_text(rest),
        escape_char(c).len() > 0,
        escape_char(c)[0] == '&' ==> starts_entity(escape_char(c) + rest),
        forall|i: int| 0 < i < escape_char(c).len() ==> #[trigger] escape_char(c)[i] != '&',
{
    reveal_strlit("&amp;");
    reveal_strlit("&lt;");
    reveal_strlit("&gt;");
    reveal_strlit("&quot;");
    let e = escape_char(c);
    let t = e + rest;
    assert(t.len() > 0);
    if c == '&' {
        assert("&amp;"@.is_prefix_of(t)) by {
            assert("&amp;"@ =~= t.subrange(0, 5));
        }
        assert(t.skip(5) =~= rest);
    } else if c == '<' {
        assert(!"&amp;"@.is_prefix_of(t)) by {
            assert(t[1] == 'l');
            assert("&amp;"@[1] == 'a');
            if "&amp;"@.is_prefix_of(t) {
                assert(t.subrange(0, 5)[1] == t[1]);
            }
        }
        assert("&lt;"@.is_prefix_of(t)) by {
            assert("&lt;"@ =~= t.subrange(0, 4));
        }
        assert(t.skip(4) =~= rest);
    } else if c == '>' {
        assert(!"&amp;"@.is_prefix_of(t)) by {
            assert(t[1] == 'g');
            if "&amp;"@.is_prefix_of(t) {
                assert(t.subrange(0, 5)[1] == t[1]);
            }
        }
        assert(!"&lt;"@.is_prefix_of(t)) by {
            if "&lt;"@.is_prefix_of(t) {
                assert(t.subrange(0, 4)[1] == t[1]);
            }
        }
        assert("&gt;"@.is_prefix_of(t)) by {
            assert("&gt;"@ =~= t.subrange(0, 4));
        }
        assert(t.skip(4) =~= rest);
    } else if c == '"' {
        assert(!"&amp;"@.is_prefix_of(t)) by {
            assert(t[1] == 'q');
            if "&amp;"@.is_prefix_of(t) {
                assert(t.subrange(0, 5)[1] == t[1]);
            }
        }
        assert(!"&lt;"@.is_prefix_of(t)) by {
            if "&lt;"@.is_prefix_of(t) {
                assert(t.subrange(0, 4)[1] == t[1]);
            }
        }
        assert(!"&gt;"@.is_prefix_of(t)) by {
            if "&gt;"@.is_prefix_of(t) {
                assert(t.subrange(0, 4)[1] == t[1]);
            }
        }
        assert("&quot;"@.is_prefix_of(t)) by {
            assert("&quot;"@ =~= t.subrange(0, 6));
        }
        assert(t.skip(6) =~= rest);
    } else {
        assert(t[0] == c);
        assert(!"&amp;"@.is_prefix_of(t)) by {
            if "&amp;"@.is_prefix_of(t) {
                assert(t.subrange(0, 5)[0] == t[0]);
            }
        }
        assert(!"&lt;"@.is_prefix_of(t)) by {
            if "&lt;"@.is_prefix_of(t) {
                assert(t.subrange(0, 4)[0] == t[0]);
            }
        }
        assert(!"&gt;"@.is_prefix_of(t)) by {
            if "&gt;"@.is_prefix_of(t) {
                assert(t.subrange(0, 4)[0] == t[0]);
            }
        }
        assert(!"&quot;"@.is_prefix_of(t)) by {
            if "&quot;"@.is_prefix_of(t) {
                assert(t.subrange(0, 6)[0] == t[0]);
            }
        }
        assert(t.skip(1) =~= rest);
    }
}

/// Round-trip law: reading escaped text back gives the text again, and
/// every `&` in escaped text starts one of the four entity references.
pub proof fn lemma_escape_round_trip(s: Seq<char>)
    ensures
        unescape_text(escape_text(s)) == s,
        forall|i: int| 0 <= i < escape_text(s).len() && escape_text(s)[i] == '&' ==> #[trigger] starts_entity(
            escape_text(s).skip(i),
        ),
    decreases s.len(),
{
    if s.len() == 0 {
        assert(escape_text(s) == Seq::<char>::empty());
    } else {
        let e = escape_char(s[0]);
        let rest = escape_text(s.drop_first());
        lemma_escape_front(s);
        lemma_escape_round_trip(s.drop_first());
        lemma_unescape_char(s[0], rest);
        assert(seq![s[0]] + s.drop_first() =~= s);
        let t = e + rest;
        assert forall|i: int| 0 <= i < t.len() && t[i] == '&' implies #[trigger] starts_entity(t.skip(i)) by {
            if i == 0 {
                assert(t.skip(0) =~= t);
                assert(e[0] == t[0]);
            } else if i < e.len() {
                assert(t[i] == e[i]);
            } else {
                assert(t[i] == rest[i - e.len()]);
                assert(t.skip(i) =~= rest.skip(i - e.len()));
            }
        }
    }
}

/// Colour law: both trees colour a node by its family, the same family
/// alike in both (literals, concatenations, alternations, repetitions,
/// groups and captures, classes, assertions and look-arounds); every
/// family has a colour of its own, and only the empty expression, flags
/// and the any-character dot take the plain grey.
pub proof fn lemma_kind_colors(a: AstItem, b: AstItem, h: HirItem, g: HirItem)
    ensures
        kind_color_of(a.kind_of()) == kind_color_of(b.kind_of()) ==> {
            &&& (a is Literal <==> b is Literal)
            &&& (a is Concat <==> b is Concat)
            &&& (a is Alternation <==> b is Alternation)
            &&& (a is Repetition <==> b is Repetition)
            &&& (a is Group <==> b is Group)
            &&& ((a is ClassUnicode || a is ClassPerl || a is ClassBracketed) <==> (b is ClassUnicode
                || b is ClassPerl || b is ClassBracketed))
            &&& (a is Assertion <==> b is Assertion)
        },
        kind_color_of(h.kind_of()) == kind_color_of(g.kind_of()) ==> {
            &&& (h is Literal <==> g is Literal)
            &&& (h is Concat <==> g is Concat)
            &&& (h is Alternation <==> g is Alternation)
            &&& (h is Repetition <==> g is Repetition)
            &&& (h is Capture <==> g is Capture)
            &&& (h is Class <==> g is Class)
            &&& (h is Look <==> g is Look)
        },
        (a is Empty || a is Flags || a is Dot) <==> kind_color_of(a.kind_of()) == "#e8e8e8"@,
        h is Empty <==> kind_color_of(h.kind_of()) == "#e8e8e8"@,
        (a is Literal && h is Literal) ==> kind_color_of(a.kind_of()) == kind_color_of(h.kind_of()),
        (a is Concat && h is Concat) ==> kind_color_of(a.kind_of()) == kind_color_of(h.kind_of()),
        (a is Alternation && h is Alternation) ==> kind_color_of(a.kind_of()) == kind_color_of(h.kind_of()),
        (a is Repetition && h is Repetition) ==> kind_color_of(a.kind_of()) == kind_color_of(h.kind_of()),
        (a is Group && h is Capture) ==> kind_color_of(a.kind_of()) == kind_color_of(h.kind_of()),
        ((a is ClassUnicode || a is ClassPerl || a is ClassBracketed) && h is Class) ==> kind_color_of(
            a.kind_of(),
        ) == kind_color_of(h.kind_of()),
        (a is Assertion && h is Look) ==> kind_color_of(a.kind_of()) == kind_color_of(h.kind_of()),
        (a is Empty && h is Empty) ==> kind_color_of(a.kind_of()) == kind_color_of(h.kind_of()),
{
    reveal_strlit("empty");
    reveal_strlit("flags");
    reveal_strlit("literal");
    reveal_strlit("dot");
    reveal_strlit("assertion");
    reveal_strlit("class_unicode");
    reveal_strlit("class_perl");
    reveal_strlit("class_bracketed");
    reveal_strlit("class");
    reveal_strlit("look");
    reveal_strlit("capture");
    reveal_strlit("repetition");
    reveal_strlit("group");
    reveal_strlit("alternation");
    reveal_strlit("concat");
    reveal_strlit("#d4eac8");
    reveal_strlit("#cfe0f5");
    reveal_strlit("#f5e0cf");
    reveal_strlit("#f5cfcf");
    reveal_strlit("#e8d4f0");
    reveal_strlit("#fdf0c2");
    reveal_strlit("#d4f0ee");
    reveal_strlit("#e8e8e8");
    let colours = seq!["#d4eac8"@, "#cfe0f5"@, "#f5e0cf"@, "#f5cfcf"@, "#e8d4f0"@, "#fdf0c2"@, "#d4f0ee"@, "#e8e8e8"@];
    assert forall|i: int, j: int| 0 <= i < j < 8 implies #[trigger] colours[i] != #[trigger] colours[j] by {
        if colours[i][1] == colours[j][1] {
            if colours[i][2] == colours[j][2] {
                assert(colours[i][3] != colours[j][3] || colours[i][4] != colours[j][4]);
            }
        }
    }
    lemma_ast_kind_colour(a, colours);
    lemma_ast_kind_colour(b, colours);
    lemma_hir_kind_colour(h, colours);
    lemma_hir_kind_colour(g, colours);
}

/// The colour family of an item of the syntactic tree.
spec fn ast_family(a: AstItem) -> int {
    match a {
        AstItem::Literal(_) => 0,
        AstItem::Concat => 1,
        AstItem::Alternation => 2,
        AstItem::Repetition(..) => 3,
        AstItem::Group(_) => 4,
        AstItem::ClassUnicode | AstItem::ClassPerl | AstItem::ClassBracketed => 5,
        AstItem::Assertion => 6,
        _ => 7,
    }
}

/// The colour family of an item of the representation.
spec fn hir_family(h: HirItem) -> int {
    match h {
        HirItem::Literal(_) => 0,
        HirItem::Concat => 1,
        HirItem::Alternation => 2,
        HirItem::Repetition { .. } => 3,
        HirItem::Capture { .. } => 4,
        HirItem::Class => 5,
        HirItem::Look => 6,
        _ => 7,
    }
}

/// The kind names of both trees.
spec fn kind_names() -> Seq<Seq<char>> {
    seq!["empty"@, "flags"@, "literal"@, "dot"@, "assertion"@, "class_unicode"@, "class_perl"@, "class_bracketed"@, "class"@, "look"@, "capture"@, "repetition"@, "group"@, "alternation"@, "concat"@]
}

proof fn lemma_kind_names_distinct()
    ensures
        forall|i: int, j: int| 0 <= i < j < 15 ==> #[trigger] kind_names()[i] != #[trigger] kind_names()[j],
{
    reveal_strlit("empty");
    reveal_strlit("flags");
    reveal_strlit("literal");
    reveal_strlit("dot");
    reveal_strlit("assertion");
    reveal_strlit("class_unicode");
    reveal_strlit("class_perl");
    reveal_strlit("class_bracketed");
    reveal_strlit("class");
    reveal_strlit("look");
    reveal_strlit("capture");
    reveal_strlit("repetition");
    reveal_strlit("group");
    reveal_strlit("alternation");
    reveal_strlit("concat");
    let names = kind_names();
    assert forall|i: int, j: int| 0 <= i < j < 15 implies #[trigger] names[i] != #[trigger] names[j] by {
        if names[i].len() == names[j].len() {
            assert(names[i][0] != names[j][0]);
        }
    }
}

proof fn lemma_ast_kind_colour(a: AstItem, colours: Seq<Seq<char>>)
    requires
        colours == seq!["#d4eac8"@, "#cfe0f5"@, "#f5e0cf"@, "#f5cfcf"@, "#e8d4f0"@, "#fdf0c2"@, "#d4f0ee"@, "#e8e8e8"@],
    ensures
        kind_color_of(a.kind_of()) == colours[ast_family(a)],
{
    lemma_kind_names_distinct();
    let names = kind_names();
    assert(names[0] == "empty"@ && names[1] == "flags"@ && names[2] == "literal"@ && names[3] == "dot"@);
    assert(names[4] == "assertion"@ && names[5] == "class_unicode"@ && names[6] == "class_perl"@);
    assert(names[7] == "class_bracketed"@ && names[8] == "class"@ && names[9] == "look"@);
    assert(names[10] == "capture"@ && names[11] == "repetition"@ && names[12] == "group"@);
    assert(names[13] == "alternation"@ && names[14] == "concat"@);
}

proof fn lemma_hir_kind_colour(h: HirItem, colours: Seq<Seq<char>>)
    requires
        colours == seq!["#d4eac8"@, "#cfe0f5"@, "#f5e0cf"@, "#f5cfcf"@, "#e8d4f0"@, "#fdf0c2"@, "#d4f0ee"@, "#e8e8e8"@],
    ensures
        kind_color_of(h.kind_of()) == colours[hir_family(h)],
{
    lemma_kind_names_distinct();
    let names = kind_names();
    assert(names[0] == "empty"@ && names[1] == "flags"@ && names[2] == "literal"@ && names[3] == "dot"@);
    assert(names[4] == "assertion"@ && names[5] == "class_unicode"@ && names[6] == "class_perl"@);
    assert(names[7] == "class_bracketed"@ && names[8] == "class"@ && names[9] == "look"@);
    assert(names[10] == "capture"@ && names[11] == "repetition"@ && names[12] == "group"@);
    assert(names[13] == "alternation"@ && names[14] == "concat"@);
}

/// The two trees drawn for a pattern.
pub enum Tree {
    Syntax,
    Intermediate,
}

/// The answer where `tree` could not be built: its name and the message.
pub open spec fn build_error_text(tree: Tree, message: Seq<char>) -> Seq<char> {
    match tree {
        Tree::Syntax => "AST error: "@ + message,
        Tree::Intermediate => "HIR error: "@ + message,
    }
}

/// Answer law: an error answer names which tree failed, so the two trees'
/// errors never read alike, and the message follows the name unchanged;
/// the joined drawings hold the syntactic tree's drawing, then `||`, then
/// the other drawing, each unchanged.
pub proof fn lemma_answers(m1: Seq<char>, m2: Seq<char>, a: Seq<char>, b: Seq<char>)
    ensures
        build_error_text(Tree::Syntax, m1) != build_error_text(Tree::Intermediate, m2),
        build_error_text(Tree::Syntax, m1).skip(11) == m1,
        build_error_text(Tree::Intermediate, m2).skip(11) == m2,
        ({
            let j = a + "||"@ + b;
            &&& j.subrange(0, a.len() as int) == a
            &&& j[a.len() as int] == '|'
            &&& j[(a.len() + 1) as int] == '|'
            &&& j.skip((a.len() + 2) as int) == b
        }),
{
    reveal_strlit("AST error: ");
    reveal_strlit("HIR error: ");
    reveal_strlit("||");
    let e1 = build_error_text(Tree::Syntax, m1);
    let e2 = build_error_text(Tree::Intermediate, m2);
    assert(e1[0] == 'A');
    assert(e2[0] == 'H');
    assert(e1.skip(11) =~= m1);
    assert(e2.skip(11) =~= m2);
    let j = a + "||"@ + b;
    assert(j.subrange(0, a.len() as int) =~= a);
    assert(j.skip((a.len() + 2) as int) =~= b);
}

/// The answer where `tree` could not be built: its name and the message.
/// The syntactic tree is built first, so its error is the one reported
/// where both fail.
pub fn build_error(tree: Tree, message: &str) -> (s: String)
    ensures
        s@ == build_error_text(tree, message@),
{
    let mut s = match tree {
        Tree::Syntax => String::from_str("AST error: "),
        Tree::Intermediate => String::from_str("HIR error: "),
    };
    s.append(message);
    s
}

/// The answer where both trees were drawn: the two drawings, the syntactic
/// tree's first, separated by `||`.
pub fn join_drawings(ast_svg: &str, hir_svg: &str) -> (s: String)
    ensures
        s@ == ast_svg@ + "||"@ + hir_svg@,
{
    let mut s = String::from_str(ast_svg);
    s.append("||");
    s.append(hir_svg);
    s
}

} // verus!
