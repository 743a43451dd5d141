//! The high-level intermediate representation of a pattern, as the
//! regex_syntax translator builds it.

use vstd::prelude::*;
use regex_syntax::hir::{Hir, HirKind};
use crate::node::{
    is_tree, nodes_view, tree_nodes, tree_size, checked_size, Labelled, Node, SyntaxTree, TreeBuilder,
};
use crate::text::{decimal, push_decimal};

verus! {

#[verifier::external_type_specification]
#[verifier::external_body]
pub struct ExHir(regex_syntax::hir::Hir);

/// What the tree builder reads of one node of the intermediate
/// representation.
pub enum HirItem {
    Empty,
    Literal(Vec<u8>),
    Class,
    Look,
    Repetition { min: u32, max: Option<u32>, greedy: bool },
    Capture { index: u32, name: Option<String> },
    Concat,
    Alternation,
}

/// The characters that `String::from_utf8_lossy` decodes from `bytes`.
pub uninterp spec fn utf8_lossy(bytes: Seq<u8>) -> Seq<char>;

/// `String::from_utf8_lossy`: decodes the bytes as UTF-8, each invalid
/// sequence becoming U+FFFD. Valid UTF-8 is decoded as it stands; for
/// other bytes the result is named, not spelled out.
#[verifier::external_body]
fn lossy_string(bytes: &[u8]) -> (s: String)
    ensures
        s@ == utf8_lossy(bytes@),
        vstd::utf8::valid_utf8(bytes@) ==> s@ == vstd::utf8::decode_utf8(bytes@),
{
    String::from_utf8_lossy(bytes).into_owned()
}

/// The text of a repetition with bounds `min` and `max`.
pub open spec fn bounds_text(min: u32, max: Option<u32>) -> Seq<char> {
    if min == 0 && max == Some(1u32) {
        "?"@
    } else if min == 0 && max is None {
        "*"@
    } else if min == 1 && max is None {
        "+"@
    } else {
        match max {
            Some(n) => "{"@ + decimal(min as nat) + ","@ + decimal(n as nat) + "}"@,
            None => "{"@ + decimal(min as nat) + ",}"@,
        }
    }
}

fn bounds_string(min: u32, max: Option<u32>) -> (s: String)
    ensures
        s@ == bounds_text(min, max),
{
    if min == 0 && max == Some(1u32) {
        String::from_str("?")
    } else if min == 0 && max.is_none() {
        String::from_str("*")
    } else if min == 1 && max.is_none() {
        String::from_str("+")
    } else {
        let mut s = String::from_str("{");
        push_decimal(&mut s, min as u64);
        match max {
            Some(n) => {
                s.append(",");
                push_decimal(&mut s, n as u64);
                s.append("}");
            },
            None => {
                s.append(",}");
            },
        }
        s
    }
}

impl Labelled for HirItem {
    open spec fn label_of(&self, printed: Seq<char>) -> Seq<char> {
        match self {
            HirItem::Empty => "∅"@,
            HirItem::Literal(bytes) => utf8_lossy(bytes@),
            HirItem::Class => "[…]"@,
            HirItem::Look => printed,
            HirItem::Repetition { min, max, greedy } => if *greedy {
                bounds_text(*min, *max)
            } else {
                bounds_text(*min, *max) + "?"@
            },
            HirItem::Capture { index, name } => match name {
                Some(n) => "("@ + n@ + ")"@,
                None => "("@ + decimal(*index as nat) + ")"@,
            },
            HirItem::Concat => "·"@,
            HirItem::Alternation => "|"@,
        }
    }

    open spec fn kind_of(&self) -> Seq<char> {
        match self {
            HirItem::Empty => "empty"@,
            HirItem::Literal(_) => "literal"@,
            HirItem::Class => "class"@,
            HirItem::Look => "look"@,
            HirItem::Repetition { .. } => "repetition"@,
            HirItem::Capture { .. } => "capture"@,
            HirItem::Concat => "concat"@,
            HirItem::Alternation => "alternation"@,
        }
    }

    fn label(&self, printed: &str) -> (s: String) {
        match self {
            HirItem::Empty => String::from_str("∅"),
            HirItem::Literal(bytes) => lossy_string(bytes.as_slice()),
            HirItem::Class => String::from_str("[…]"),
            HirItem::Look => String::from_str(printed),
            HirItem::Repetition { min, max, greedy } => {
                let mut s = bounds_string(*min, *max);
                if !*greedy {
                    s.append("?");
                }
                s
            },
            HirItem::Capture { index, name } => {
                let mut s = String::from_str("(");
                match name {
                    Some(n) => s.append(n.as_str()),
                    None => push_decimal(&mut s, *index as u64),
                }
                s.append(")");
                s
            },
            HirItem::Concat => String::from_str("·"),
            HirItem::Alternation => String::from_str("|"),
        }
    }

    fn kind(&self) -> (s: String) {
        match self {
            HirItem::Empty => String::from_str("empty"),
            HirItem::Literal(_) => String::from_str("literal"),
            HirItem::Class => String::from_str("class"),
            HirItem::Look => String::from_str("look"),
            HirItem::Repetition { .. } => String::from_str("repetition"),
            HirItem::Capture { .. } => String::from_str("capture"),
            HirItem::Concat => String::from_str("concat"),
            HirItem::Alternation => String::from_str("alternation"),
        }
    }
}

/// Label law: a lazy repetition is labelled as the greedy one with the
/// same bounds followed by `?`; and the translator's bounded repetitions
/// show both bounds, so `{m}` with `m` at least 2 shows as `{m,m}`.
pub proof fn lemma_hir_labels(min: u32, max: Option<u32>, printed: Seq<char>)
    ensures
        (HirItem::Repetition { min, max, greedy: false }).label_of(printed) == (HirItem::Repetition {
            min,
            max,
            greedy: true,
        }).label_of(printed) + "?"@,
        min >= 2 ==> (HirItem::Repetition { min, max: Some(min), greedy: true }).label_of(printed)
            == "{"@ + decimal(min as nat) + ","@ + decimal(min as nat) + "}"@,
{
}

/// Printer law: a look-around node is labelled with exactly the printer's
/// rendering of it, whatever it is.
pub proof fn lemma_hir_printed_label(printed: Seq<char>)
    ensures
        HirItem::Look.label_of(printed) == printed,
{
}

/// Kind law: the kind names one variant of the representation, so two
/// items of different variants never share a kind.
pub proof fn lemma_hir_kinds_distinct(a: HirItem, b: HirItem)
    ensures
        a.kind_of() == b.kind_of() ==> {
            &&& (a is Empty <==> b is Empty)
            &&& (a is Literal <==> b is Literal)
            &&& (a is Class <==> b is Class)
            &&& (a is Look <==> b is Look)
            &&& (a is Repetition <==> b is Repetition)
            &&& (a is Capture <==> b is Capture)
            &&& (a is Concat <==> b is Concat)
            &&& (a is Alternation <==> b is Alternation)
        },
        a.kind_of().len() > 0,
{
    reveal_strlit("empty");
    reveal_strlit("literal");
    reveal_strlit("class");
    reveal_strlit("look");
    reveal_strlit("repetition");
    reveal_strlit("capture");
    reveal_strlit("concat");
    reveal_strlit("alternation");
    let ka = a.kind_of();
    let kb = b.kind_of();
    if ka == kb {
        assert(ka.len() == kb.len());
        assert(ka[0] == kb[0]);
    }
}

/// Label law: every node but a literal or a look-around (whose labels are
/// their text and the printer's) has a label that is not empty, and the
/// one-symbol labels of the empty expression, the class, alternation and
/// concatenation are pairwise different.
pub proof fn lemma_hir_labels_shown(item: HirItem, printed: Seq<char>)
    ensures
        !(item is Literal || item is Look) ==> item.label_of(printed).len() > 0,
        HirItem::Empty.label_of(printed) != HirItem::Class.label_of(printed),
        HirItem::Empty.label_of(printed) != HirItem::Alternation.label_of(printed),
        HirItem::Empty.label_of(printed) != HirItem::Concat.label_of(printed),
        HirItem::Class.label_of(printed) != HirItem::Alternation.label_of(printed),
        HirItem::Class.label_of(printed) != HirItem::Concat.label_of(printed),
        HirItem::Alternation.label_of(printed) != HirItem::Concat.label_of(printed),
{
    reveal_strlit("∅");
    reveal_strlit("[…]");
    reveal_strlit("|");
    reveal_strlit("·");
    reveal_strlit("(");
    reveal_strlit("?");
    let syms = seq!["∅"@, "[…]"@, "|"@, "·"@];
    assert forall|i: int, j: int| 0 <= i < j < 4 implies #[trigger] syms[i] != #[trigger] syms[j] by {
        assert(syms[i][0] != syms[j][0]);
    }
    assert(HirItem::Empty.label_of(printed) == syms[0]);
    assert(HirItem::Class.label_of(printed) == syms[1]);
    assert(HirItem::Alternation.label_of(printed) == syms[2]);
    assert(HirItem::Concat.label_of(printed) == syms[3]);
    match item {
        HirItem::Repetition { min, max, greedy } => {
            lemma_bounds_shape(min, max);
        },
        _ => {},
    }
}

/// Capture law: an unnamed capture is labelled by its index and a named
/// one by its name, so captures with different indices or names (by their
/// text) never share a label; nor does a named capture whose name starts
/// with a non-digit, as the parser's names do, share one with an unnamed
/// capture.
pub proof fn lemma_capture_labels_distinct(i1: u32, i2: u32, n1: String, n2: String, p: Seq<char>)
    ensures
        (HirItem::Capture { index: i1, name: None }).label_of(p) == (HirItem::Capture { index: i2, name: None }).label_of(p)
            ==> i1 == i2,
        (HirItem::Capture { index: i1, name: Some(n1) }).label_of(p) == (HirItem::Capture {
            index: i2,
            name: Some(n2),
        }).label_of(p) ==> n1@ == n2@,
        n1@.len() > 0 && !crate::text::is_digit(n1@[0]) ==> (HirItem::Capture { index: i1, name: Some(n1) }).label_of(p)
            != (HirItem::Capture { index: i2, name: None }).label_of(p),
{
    reveal_strlit("(");
    reveal_strlit(")");
    crate::text::lemma_decimal_digits(i1 as nat);
    crate::text::lemma_decimal_digits(i2 as nat);
    let a = (HirItem::Capture { index: i1, name: None }).label_of(p);
    let b = (HirItem::Capture { index: i2, name: None }).label_of(p);
    assert(decimal(i1 as nat) =~= a.subrange(1, a.len() - 1));
    assert(decimal(i2 as nat) =~= b.subrange(1, b.len() - 1));
    crate::text::lemma_decimal_injective(i1 as nat, i2 as nat);
    let c = (HirItem::Capture { index: i1, name: Some(n1) }).label_of(p);
    let d = (HirItem::Capture { index: i2, name: Some(n2) }).label_of(p);
    assert(n1@ =~= c.subrange(1, c.len() - 1));
    assert(n2@ =~= d.subrange(1, d.len() - 1));
    if n1@.len() > 0 {
        assert(c[1] == n1@[0]);
        assert(b[1] == decimal(i2 as nat)[0]);
    }
}

/// Bounds law: the label of a repetition names its bounds, so two
/// repetitions with different bounds never share a label.
pub proof fn lemma_bounds_text_injective(m1: u32, x1: Option<u32>, m2: u32, x2: Option<u32>)
    ensures
        bounds_text(m1, x1) == bounds_text(m2, x2) ==> m1 == m2 && x1 == x2,
{
    reveal_strlit("?");
    reveal_strlit("*");
    reveal_strlit("+");
    reveal_strlit("{");
    reveal_strlit(",");
    reveal_strlit("}");
    reveal_strlit(",}");
    lemma_bounds_shape(m1, x1);
    lemma_bounds_shape(m2, x2);
    let t1 = bounds_text(m1, x1);
    let t2 = bounds_text(m2, x2);
    if t1 == t2 {
        assert(t1[0] == t2[0]);
        if t1[0] == '{' {
            let r1 = bounds_rest(x1);
            let r2 = bounds_rest(x2);
            assert(t1.drop_first() =~= decimal(m1 as nat) + r1);
            assert(t2.drop_first() =~= decimal(m2 as nat) + r2);
            crate::text::lemma_decimal_digits(m1 as nat);
            crate::text::lemma_decimal_digits(m2 as nat);
            crate::text::lemma_digits_split(decimal(m1 as nat), r1, decimal(m2 as nat), r2);
            crate::text::lemma_decimal_injective(m1 as nat, m2 as nat);
            assert(r1[1] == r2[1]);
            match (x1, x2) {
                (Some(n1), Some(n2)) => {
                    crate::text::lemma_decimal_digits(n1 as nat);
                    assert(decimal(n1 as nat) =~= r1.subrange(1, r1.len() - 1));
                    assert(decimal(n2 as nat) =~= r2.subrange(1, r2.len() - 1));
                    crate::text::lemma_decimal_injective(n1 as nat, n2 as nat);
                },
                (Some(n1), None) => {
                    crate::text::lemma_decimal_digits(n1 as nat);
                    assert(r1[1] == decimal(n1 as nat)[0]);
                },
                (None, Some(n2)) => {
                    crate::text::lemma_decimal_digits(n2 as nat);
                    assert(r2[1] == decimal(n2 as nat)[0]);
                },
                (None, None) => {},
            }
        }
    }
}

/// What follows the lower bound in a braced repetition label.
spec fn bounds_rest(max: Option<u32>) -> Seq<char> {
    match max {
        Some(n) => ","@ + decimal(n as nat) + "}"@,
        None => ",}"@,
    }
}

proof fn lemma_bounds_shape(min: u32, max: Option<u32>)
    ensures
        bounds_text(min, max).len() > 0,
        (min == 0 && max == Some(1u32)) ==> bounds_text(min, max) == "?"@,
        (min == 0 && max is None) ==> bounds_text(min, max) == "*"@,
        (min == 1 && max is None) ==> bounds_text(min, max) == "+"@,
        !((min == 0 && max == Some(1u32)) || (min == 0 && max is None) || (min == 1 && max is None))
            ==> bounds_text(min, max) == "{"@ + decimal(min as nat) + bounds_rest(max),
        !((min == 0 && max == Some(1u32)) || (min == 0 && max is None) || (min == 1 && max is None))
            ==> bounds_text(min, max)[0] == '{',
        bounds_rest(max).len() >= 2,
        bounds_rest(max)[0] == ',',
        max is None ==> bounds_rest(max)[1] == '}',
{
    reveal_strlit("?");
    reveal_strlit("*");
    reveal_strlit("+");
    reveal_strlit("{");
    reveal_strlit(",");
    reveal_strlit("}");
    reveal_strlit(",}");
    crate::text::lemma_decimal_digits(min as nat);
    if let Some(n) = max {
        crate::text::lemma_decimal_digits(n as nat);
        assert(("{"@ + decimal(min as nat) + ","@ + decimal(n as nat) + "}"@) =~= "{"@ + decimal(min as nat)
            + bounds_rest(max));
    }
}

/// Agreement law: the two trees label what they share alike. The empty
/// expression, alternation and concatenation carry the same labels and
/// kinds in both; an unnamed capture is labelled as the syntactic group
/// with its index; and a repetition is labelled as the syntactic
/// repetition operator with the same bounds (`?`, `*`, `+`, `{m,}`,
/// `{m,n}`), lazy or greedy alike.
pub proof fn lemma_hir_labels_match_ast(
    min: u32,
    max: Option<u32>,
    greedy: bool,
    index: u32,
    bytes: Vec<u8>,
    c: char,
    p: Seq<char>,
    q: Seq<char>,
)
    ensures
        HirItem::Empty.label_of(p) == crate::ast::AstItem::Empty.label_of(q),
        HirItem::Alternation.label_of(p) == crate::ast::AstItem::Alternation.label_of(q),
        HirItem::Concat.label_of(p) == crate::ast::AstItem::Concat.label_of(q),
        HirItem::Empty.kind_of() == crate::ast::AstItem::Empty.kind_of(),
        HirItem::Alternation.kind_of() == crate::ast::AstItem::Alternation.kind_of(),
        HirItem::Concat.kind_of() == crate::ast::AstItem::Concat.kind_of(),
        HirItem::Literal(bytes).kind_of() == crate::ast::AstItem::Literal(c).kind_of(),
        (HirItem::Repetition { min, max, greedy }).kind_of() == crate::ast::AstItem::Repetition(
            crate::ast::RepetitionOp::ZeroOrOne,
            greedy,
        ).kind_of(),
        (HirItem::Capture { index, name: None }).label_of(p) == crate::ast::AstItem::Group(
            crate::ast::GroupForm::CaptureIndex(index),
        ).label_of(q),
        (min == 0 && max == Some(1u32)) ==> (HirItem::Repetition { min, max, greedy }).label_of(p)
            == crate::ast::AstItem::Repetition(crate::ast::RepetitionOp::ZeroOrOne, greedy).label_of(q),
        (min == 0 && max is None) ==> (HirItem::Repetition { min, max, greedy }).label_of(p)
            == crate::ast::AstItem::Repetition(crate::ast::RepetitionOp::ZeroOrMore, greedy).label_of(q),
        (min == 1 && max is None) ==> (HirItem::Repetition { min, max, greedy }).label_of(p)
            == crate::ast::AstItem::Repetition(crate::ast::RepetitionOp::OneOrMore, greedy).label_of(q),
        (min >= 2 && max is None) ==> (HirItem::Repetition { min, max, greedy }).label_of(p)
            == crate::ast::AstItem::Repetition(crate::ast::RepetitionOp::AtLeast(min), greedy).label_of(q),
        (max matches Some(n) && !(min == 0 && n == 1)) ==> (HirItem::Repetition { min, max, greedy }).label_of(p)
            == crate::ast::AstItem::Repetition(crate::ast::RepetitionOp::Bounded(min, max->0), greedy).label_of(q),
{
    lemma_bounds_shape(min, max);
    if let Some(n) = max {
        assert(("{"@ + decimal(min as nat) + ","@ + decimal(n as nat) + "}"@) =~= "{"@ + decimal(min as nat)
            + bounds_rest(max));
    }
}

/// What `regex_syntax::Parser::parse` (default settings) gives for
/// `pattern`: the intermediate representation, node for node, each node's
/// item with the printer's rendering of that node; or the message of the
/// parse or translation error.
pub uninterp spec fn hir_parse(pattern: Seq<char>) -> Result<SyntaxTree<HirItem>, Seq<char>>;

/// `regex_syntax::Parser::parse` with the default settings, its
/// representation converted node for node into a [`SyntaxTree`] and its
/// error into its `Display` message. The result is named: parsing and
/// translation are deterministic. It first runs the syntax parser with the
/// same default settings as `ast::parse::Parser::new`, and its error
/// displays a syntax error as that error does, so a pattern the syntax
/// parser refuses gives the same message.
#[verifier::external_body]
fn parse_tree(pattern: &str) -> (r: Result<SyntaxTree<HirItem>, String>)
    ensures
        match r {
            Ok(t) => {
                &&& hir_parse(pattern@) == Ok::<SyntaxTree<HirItem>, Seq<char>>(t)
                &&& crate::ast::ast_parse(pattern@) is Ok
            },
            Err(m) => {
                &&& hir_parse(pattern@) == Err::<SyntaxTree<HirItem>, Seq<char>>(m@)
                &&& crate::ast::ast_parse(pattern@) is Err ==> crate::ast::ast_parse(pattern@)->Err_0 == m@
            },
        },
{
    match regex_syntax::Parser::new().parse(pattern) {
        Ok(hir) => Ok(hir_tree_of(&hir)),
        Err(e) => Err(e.to_string()),
    }
}

/// Converts the outside representation node for node, sub-expressions in
/// order: the conversion of `parse_tree`'s result.
#[verifier::external_body]
fn hir_tree_of(hir: &Hir) -> SyntaxTree<HirItem> {
    SyntaxTree {
        item: hir_item(hir),
        printed: printer_label(hir),
        children: hir_children(hir).iter().map(hir_tree_of).collect(),
    }
}

/// The text `regex_syntax::hir::print::Printer` writes for `hir`.
#[verifier::external_body]
fn printer_label(hir: &Hir) -> String {
    let mut dst = String::new();
    regex_syntax::hir::print::Printer::new().print(hir, &mut dst).unwrap();
    dst
}

/// The item of one node of the outside intermediate representation.
#[verifier::external_body]
fn hir_item(hir: &Hir) -> HirItem {
    match hir.kind() {
        HirKind::Empty => HirItem::Empty,
        HirKind::Literal(x) => HirItem::Literal(x.0.to_vec()),
        HirKind::Class(_) => HirItem::Class,
        HirKind::Look(_) => HirItem::Look,
        HirKind::Repetition(x) => HirItem::Repetition { min: x.min, max: x.max, greedy: x.greedy },
        HirKind::Capture(x) => HirItem::Capture { index: x.index, name: match &x.name { Some(n) => Some(n.to_string()), None => None } },
        HirKind::Concat(_) => HirItem::Concat,
        HirKind::Alternation(_) => HirItem::Alternation,
    }
}

/// The sub-expressions of one node of the outside intermediate
/// representation, in order.
#[verifier::external_body]
fn hir_children(hir: &Hir) -> &[Hir] {
    match hir.kind() {
        HirKind::Repetition(x) => core::slice::from_ref(&*x.sub),
        HirKind::Capture(x) => core::slice::from_ref(&*x.sub),
        HirKind::Concat(xs) => xs,
        HirKind::Alternation(xs) => xs,
        _ => &[],
    }
}

/// The node list of the intermediate representation of `pattern`: one
/// node per representation node in pre-order, labelled and kinded by its
/// item. A pattern the parser or translator refuses gives its message; a
/// representation with more nodes than a `usize` counts gives "traversal
/// failed".
pub fn build(pattern: &str) -> (r: Result<Vec<Node>, String>)
    ensures
        match hir_parse(pattern@) {
            Err(m) => r matches Err(e) && e@ == m,
            Ok(t) => if tree_size(t) <= usize::MAX {
                r matches Ok(nodes) && nodes_view(nodes@) == tree_nodes(t)
            } else {
                r matches Err(e) && e@ == "traversal failed"@
            },
        },
        crate::ast::ast_parse(pattern@) matches Err(m) ==> r matches Err(e) && e@ == m,
        r matches Ok(nodes) ==> {
            &&& nodes@.len() > 0
            &&& is_tree(nodes_view(nodes@))
            &&& crate::layout::pre_tree(nodes_view(nodes@), 0) == crate::layout::index_range(0, nodes@.len() as int)
        },
{
    let tree = match parse_tree(pattern) {
        Ok(t) => t,
        Err(e) => return Err(e),
    };
    match checked_size(&tree) {
        Some(_) => {
            let mut builder = TreeBuilder::new();
            builder.visit(&tree);
            let nodes = builder.finish();
            proof {
                crate::node::lemma_tree_nodes_is_tree(tree);
                crate::layout::lemma_flatten_preorder(tree);
                assert(nodes_view(nodes@) =~= tree_nodes(tree));
            }
            Ok(nodes)
        },
        None => Err(String::from_str("traversal failed")),
    }
}

} // verus!
