//! The syntactic tree of a pattern, as the regex_syntax parser builds it.

use vstd::prelude::*;
use regex_syntax::ast::Ast;
use regex_syntax::ast::{RepetitionKind, RepetitionRange};
use crate::node::{
    checked_size, is_tree, nodes_view, tree_nodes, tree_size, Labelled, Node, NodeView,
    SyntaxTree,
};
use crate::text::{decimal, push_char, push_decimal};

verus! {

#[verifier::external_type_specification]
#[verifier::external_body]
pub struct ExAst(regex_syntax::ast::Ast);

#[verifier::external_type_specification]
#[verifier::external_body]
pub struct ExRepetitionKind(RepetitionKind);

#[verifier::external_type_specification]
#[verifier::external_body]
pub struct ExAstGroupKind(regex_syntax::ast::GroupKind);

/// A repetition operator.
pub enum RepetitionOp {
    ZeroOrOne,
    ZeroOrMore,
    OneOrMore,
    Exactly(u32),
    AtLeast(u32),
    Bounded(u32, u32),
}

/// The kind of a group.
pub enum GroupForm {
    CaptureIndex(u32),
    CaptureName(String),
    NonCapturing,
}

/// What the tree builder reads of one node of the syntactic tree.
pub enum AstItem {
    Empty,
    Flags,
    Literal(char),
    Dot,
    Assertion,
    ClassUnicode,
    ClassPerl,
    ClassBracketed,
    Repetition(RepetitionOp, bool),
    Group(GroupForm),
    Alternation,
    Concat,
}

/// The text of a repetition operator.
pub open spec fn repetition_text(op: RepetitionOp) -> Seq<char> {
    match op {
        RepetitionOp::ZeroOrOne => "?"@,
        RepetitionOp::ZeroOrMore => "*"@,
        RepetitionOp::OneOrMore => "+"@,
        RepetitionOp::Exactly(n) => "{"@ + decimal(n as nat) + "}"@,
        RepetitionOp::AtLeast(n) => "{"@ + decimal(n as nat) + ",}"@,
        RepetitionOp::Bounded(m, n) => "{"@ + decimal(m as nat) + ","@ + decimal(n as nat) + "}"@,
    }
}

fn repetition_string(op: &RepetitionOp) -> (s: String)
    ensures
        s@ == repetition_text(*op),
{
    match op {
        RepetitionOp::ZeroOrOne => String::from_str("?"),
        RepetitionOp::ZeroOrMore => String::from_str("*"),
        RepetitionOp::OneOrMore => String::from_str("+"),
        RepetitionOp::Exactly(n) => {
            let mut s = String::from_str("{");
            push_decimal(&mut s, *n as u64);
            s.append("}");
            s
        },
        RepetitionOp::AtLeast(n) => {
            let mut s = String::from_str("{");
            push_decimal(&mut s, *n as u64);
            s.append(",}");
            s
        },
        RepetitionOp::Bounded(m, n) => {
            let mut s = String::from_str("{");
            push_decimal(&mut s, *m as u64);
            s.append(",");
            push_decimal(&mut s, *n as u64);
            s.append("}");
            s
        },
    }
}

impl Labelled for AstItem {
    open spec fn label_of(&self, printed: Seq<char>) -> Seq<char> {
        match self {
            AstItem::Empty => "∅"@,
            AstItem::Dot => "."@,
            AstItem::Literal(c) => seq![*c],
            AstItem::Flags | AstItem::Assertion | AstItem::ClassUnicode | AstItem::ClassPerl
            | AstItem::ClassBracketed => printed,
            AstItem::Repetition(op, greedy) => if *greedy {
                repetition_text(*op)
            } else {
                repetition_text(*op) + "?"@
            },
            AstItem::Group(GroupForm::CaptureIndex(n)) => "("@ + decimal(*n as nat) + ")"@,
            AstItem::Group(GroupForm::CaptureName(name)) => "(?<"@ + name@ + ">)"@,
            AstItem::Group(GroupForm::NonCapturing) => "(?:)"@,
            AstItem::Alternation => "|"@,
            AstItem::Concat => "·"@,
        }
    }

    open spec fn kind_of(&self) -> Seq<char> {
        match self {
            AstItem::Empty => "empty"@,
            AstItem::Flags => "flags"@,
            AstItem::Literal(_) => "literal"@,
            AstItem::Dot => "dot"@,
            AstItem::Assertion => "assertion"@,
            AstItem::ClassUnicode => "class_unicode"@,
            AstItem::ClassPerl => "class_perl"@,
            AstItem::ClassBracketed => "class_bracketed"@,
            AstItem::Repetition(..) => "repetition"@,
            AstItem::Group(_) => "group"@,
            AstItem::Alternation => "alternation"@,
            AstItem::Concat => "concat"@,
        }
    }

    fn label(&self, printed: &str) -> (s: String) {
        match self {
            AstItem::Empty => String::from_str("∅"),
            AstItem::Dot => String::from_str("."),
            AstItem::Literal(c) => {
                let mut s = String::new();
                push_char(&mut s, *c);
                proof {
                    assert(s@ =~= seq![*c]);
                }
                s
            },
            AstItem::Flags | AstItem::Assertion | AstItem::ClassUnicode | AstItem::ClassPerl
            | AstItem::ClassBracketed => String::from_str(printed),
            AstItem::Repetition(op, greedy) => {
                let mut s = repetition_string(op);
                if !*greedy {
                    s.append("?");
                }
                s
            },
            AstItem::Group(GroupForm::CaptureIndex(n)) => {
                let mut s = String::from_str("(");
                push_decimal(&mut s, *n as u64);
                s.append(")");
                s
            },
            AstItem::Group(GroupForm::CaptureName(name)) => {
                let mut s = String::from_str("(?<");
                s.append(name.as_str());
                s.append(">)");
                s
            },
            AstItem::Group(GroupForm::NonCapturing) => String::from_str("(?:)"),
            AstItem::Alternation => String::from_str("|"),
            AstItem::Concat => String::from_str("·"),
        }
    }

    fn kind(&self) -> (s: String) {
        match self {
            AstItem::Empty => String::from_str("empty"),
            AstItem::Flags => String::from_str("flags"),
            AstItem::Literal(_) => String::from_str("literal"),
            AstItem::Dot => String::from_str("dot"),
            AstItem::Assertion => String::from_str("assertion"),
            AstItem::ClassUnicode => String::from_str("class_unicode"),
            AstItem::ClassPerl => String::from_str("class_perl"),
            AstItem::ClassBracketed => String::from_str("class_bracketed"),
            AstItem::Repetition(..) => String::from_str("repetition"),
            AstItem::Group(_) => String::from_str("group"),
            AstItem::Alternation => String::from_str("alternation"),
            AstItem::Concat => String::from_str("concat"),
        }
    }
}

/// Label law: a lazy repetition is labelled as the greedy one followed by
/// `?`; a group is labelled by its index, its name or `(?:)` alone, so
/// its label never depends on the printer.
pub proof fn lemma_ast_labels(op: RepetitionOp, form: GroupForm, printed: Seq<char>, other: Seq<char>)
    ensures
        AstItem::Repetition(op, false).label_of(printed) == AstItem::Repetition(op, true).label_of(printed) + "?"@,
        AstItem::Group(form).label_of(printed) == AstItem::Group(form).label_of(other),
{
}

/// Printer law: flags, assertions and the three class kinds are labelled
/// with exactly the printer's rendering of the node, whatever it is.
pub proof fn lemma_ast_printed_labels(printed: Seq<char>)
    ensures
        AstItem::Flags.label_of(printed) == printed,
        AstItem::Assertion.label_of(printed) == printed,
        AstItem::ClassUnicode.label_of(printed) == printed,
        AstItem::ClassPerl.label_of(printed) == printed,
        AstItem::ClassBracketed.label_of(printed) == printed,
{
}

/// Kind law: the kind names one variant of the syntactic tree, so two
/// items of different variants never share a kind.
pub proof fn lemma_ast_kinds_distinct(a: AstItem, b: AstItem)
    ensures
        a.kind_of() == b.kind_of() ==> {
            &&& (a is Empty <==> b is Empty)
            &&& (a is Flags <==> b is Flags)
            &&& (a is Literal <==> b is Literal)
            &&& (a is Dot <==> b is Dot)
            &&& (a is Assertion <==> b is Assertion)
            &&& (a is ClassUnicode <==> b is ClassUnicode)
            &&& (a is ClassPerl <==> b is ClassPerl)
            &&& (a is ClassBracketed <==> b is ClassBracketed)
            &&& (a is Repetition <==> b is Repetition)
            &&& (a is Group <==> b is Group)
            &&& (a is Alternation <==> b is Alternation)
            &&& (a is Concat <==> b is Concat)
        },
        a.kind_of().len() > 0,
{
    reveal_strlit("empty");
    reveal_strlit("flags");
    reveal_strlit("literal");
    reveal_strlit("dot");
    reveal_strlit("assertion");
    reveal_strlit("class_unicode");
    reveal_strlit("class_perl");
    reveal_strlit("class_bracketed");
    reveal_strlit("repetition");
    reveal_strlit("group");
    reveal_strlit("alternation");
    reveal_strlit("concat");
    let ka = a.kind_of();
    let kb = b.kind_of();
    if ka == kb {
        assert(ka.len() == kb.len());
        assert(ka[0] == kb[0]);
        assert(ka[ka.len() - 1] == kb[kb.len() - 1]);
        if ka.len() == 5 {
            assert(ka[1] == kb[1]);
        }
        if ka.len() == 10 {
            assert(ka[1] == kb[1]);
        }
    }
}

/// Label law: the label of a node the printer does not render is never
/// empty, and the one-symbol labels of the empty expression, any
/// character, alternation, concatenation and the non-capturing group are
/// pairwise different.
pub proof fn lemma_ast_labels_shown(item: AstItem, printed: Seq<char>)
    ensures
        !(item is Flags || item is Assertion || item is ClassUnicode || item is ClassPerl
            || item is ClassBracketed) ==> item.label_of(printed).len() > 0,
        AstItem::Empty.label_of(printed) != AstItem::Dot.label_of(printed),
        AstItem::Empty.label_of(printed) != AstItem::Alternation.label_of(printed),
        AstItem::Empty.label_of(printed) != AstItem::Concat.label_of(printed),
        AstItem::Dot.label_of(printed) != AstItem::Alternation.label_of(printed),
        AstItem::Dot.label_of(printed) != AstItem::Concat.label_of(printed),
        AstItem::Alternation.label_of(printed) != AstItem::Concat.label_of(printed),
        AstItem::Group(GroupForm::NonCapturing).label_of(printed) != AstItem::Empty.label_of(printed),
{
    reveal_strlit("∅");
    reveal_strlit(".");
    reveal_strlit("|");
    reveal_strlit("·");
    reveal_strlit("(?:)");
    reveal_strlit("?");
    reveal_strlit("*");
    reveal_strlit("+");
    reveal_strlit("{");
    reveal_strlit("(");
    reveal_strlit("(?<");
    let syms = seq!["∅"@, "."@, "|"@, "·"@, "(?:)"@];
    assert forall|i: int, j: int| 0 <= i < j < 5 implies #[trigger] syms[i] != #[trigger] syms[j] by {
        assert(syms[i][0] != syms[j][0]);
    }
    assert(AstItem::Empty.label_of(printed) == syms[0]);
    assert(AstItem::Dot.label_of(printed) == syms[1]);
    assert(AstItem::Alternation.label_of(printed) == syms[2]);
    assert(AstItem::Concat.label_of(printed) == syms[3]);
    assert(AstItem::Group(GroupForm::NonCapturing).label_of(printed) == syms[4]);
    match item {
        AstItem::Repetition(op, greedy) => {
            match op {
                RepetitionOp::Exactly(n) => {
                    assert(repetition_text(op)[0] == '{');
                },
                RepetitionOp::AtLeast(n) => {
                    assert(repetition_text(op)[0] == '{');
                },
                RepetitionOp::Bounded(m, n) => {
                    assert(repetition_text(op)[0] == '{');
                },
                _ => {},
            }
            assert(repetition_text(op).len() > 0);
        },
        AstItem::Group(GroupForm::CaptureIndex(n)) => {
            assert(item.label_of(printed)[0] == '(');
        },
        AstItem::Group(GroupForm::CaptureName(name)) => {
            assert(item.label_of(printed)[0] == '(');
        },
        _ => {},
    }
}

/// What follows the opening brace and the first count in a counted
/// repetition operator.
spec fn counted_rest(op: RepetitionOp) -> Seq<char> {
    match op {
        RepetitionOp::Exactly(_) => "}"@,
        RepetitionOp::AtLeast(_) => ",}"@,
        RepetitionOp::Bounded(_, n) => ","@ + decimal(n as nat) + "}"@,
        _ => seq![],
    }
}

/// The first count of a counted repetition operator.
spec fn first_count(op: RepetitionOp) -> u32 {
    match op {
        RepetitionOp::Exactly(n) => n,
        RepetitionOp::AtLeast(n) => n,
        RepetitionOp::Bounded(m, _) => m,
        _ => 0,
    }
}

proof fn lemma_repetition_shape(op: RepetitionOp)
    ensures
        repetition_text(op).len() > 0,
        repetition_text(op).last() == '?' <==> op is ZeroOrOne,
        op is ZeroOrOne ==> repetition_text(op) == "?"@,
        op is ZeroOrMore ==> repetition_text(op) == "*"@,
        op is OneOrMore ==> repetition_text(op) == "+"@,
        op matches RepetitionOp::Exactly(n) ==> repetition_text(op) == "{"@ + decimal(n as nat) + counted_rest(op),
        op matches RepetitionOp::AtLeast(n) ==> repetition_text(op) == "{"@ + decimal(n as nat) + counted_rest(op),
        op matches RepetitionOp::Bounded(m, _) ==> repetition_text(op) == "{"@ + decimal(m as nat) + counted_rest(op),
        (op is Exactly || op is AtLeast || op is Bounded) ==> {
            &&& repetition_text(op).drop_first() == decimal(first_count(op) as nat) + counted_rest(op)
            &&& repetition_text(op)[0] == '{'
            &&& counted_rest(op).len() > 0
            &&& !crate::text::is_digit(counted_rest(op)[0])
        },
        op is Exactly ==> counted_rest(op) == "}"@,
        op is AtLeast ==> counted_rest(op).len() == 2 && counted_rest(op)[1] == '}',
        op matches RepetitionOp::Bounded(_, n) ==> counted_rest(op).len() >= 3 && counted_rest(op)[0] == ','
            && crate::text::is_digit(counted_rest(op)[1]) && decimal(n as nat) =~= counted_rest(op).subrange(
            1,
            counted_rest(op).len() - 1,
        ),
{
    reveal_strlit("?");
    reveal_strlit("*");
    reveal_strlit("+");
    reveal_strlit("{");
    reveal_strlit("}");
    reveal_strlit(",}");
    reveal_strlit(",");
    match op {
        RepetitionOp::Exactly(n) => {
            crate::text::lemma_decimal_digits(n as nat);
            assert(repetition_text(op) =~= "{"@ + decimal(n as nat) + counted_rest(op));
            assert(repetition_text(op).drop_first() =~= decimal(n as nat) + counted_rest(op));
        },
        RepetitionOp::AtLeast(n) => {
            crate::text::lemma_decimal_digits(n as nat);
            assert(repetition_text(op) =~= "{"@ + decimal(n as nat) + counted_rest(op));
            assert(repetition_text(op).drop_first() =~= decimal(n as nat) + counted_rest(op));
        },
        RepetitionOp::Bounded(m, n) => {
            crate::text::lemma_decimal_digits(m as nat);
            crate::text::lemma_decimal_digits(n as nat);
            assert(repetition_text(op) =~= "{"@ + decimal(m as nat) + counted_rest(op));
            assert(repetition_text(op).drop_first() =~= decimal(m as nat) + counted_rest(op));
            assert(counted_rest(op)[1] == decimal(n as nat)[0]);
        },
        _ => {},
    }
}

/// Repetition law: the label of a repetition names its operator and
/// whether it is lazy, so repetitions that differ in either never share a
/// label.
pub proof fn lemma_repetition_labels_injective(op1: RepetitionOp, g1: bool, op2: RepetitionOp, g2: bool, p: Seq<char>)
    ensures
        AstItem::Repetition(op1, g1).label_of(p) == AstItem::Repetition(op2, g2).label_of(p) ==> op1 == op2 && g1
            == g2,
{
    reveal_strlit("?");
    lemma_repetition_shape(op1);
    lemma_repetition_shape(op2);
    let t1 = repetition_text(op1);
    let t2 = repetition_text(op2);
    let l1 = AstItem::Repetition(op1, g1).label_of(p);
    let l2 = AstItem::Repetition(op2, g2).label_of(p);
    if l1 == l2 {
        if g1 != g2 {
            assert(l1.last() == l2.last());
            if g1 {
                assert(t1.last() == '?');
                assert(l2.drop_last() =~= t2);
                assert(t1 == "?"@);
                assert(l1.len() == 1);
            } else {
                assert(t2.last() == '?');
                assert(l1.drop_last() =~= t1);
                assert(t2 == "?"@);
                assert(l2.len() == 1);
            }
        } else {
            if !g1 {
                assert(l1.drop_last() =~= t1);
                assert(l2.drop_last() =~= t2);
            }
            assert(t1 == t2);
            lemma_repetition_text_injective(op1, op2);
        }
    }
}

proof fn lemma_repetition_text_injective(op1: RepetitionOp, op2: RepetitionOp)
    requires
        repetition_text(op1) == repetition_text(op2),
    ensures
        op1 == op2,
{
    reveal_strlit("?");
    reveal_strlit("*");
    reveal_strlit("+");
    reveal_strlit("}");
    lemma_repetition_shape(op1);
    lemma_repetition_shape(op2);
    let t = repetition_text(op1);
    assert(t[0] == repetition_text(op2)[0]);
    if t[0] == '{' {
        let a = first_count(op1);
        let b = first_count(op2);
        let r1 = counted_rest(op1);
        let r2 = counted_rest(op2);
        crate::text::lemma_decimal_digits(a as nat);
        crate::text::lemma_decimal_digits(b as nat);
        crate::text::lemma_digits_split(decimal(a as nat), r1, decimal(b as nat), r2);
        crate::text::lemma_decimal_injective(a as nat, b as nat);
        assert(r1.len() == r2.len());
        if r1.len() >= 2 {
            assert(r1[1] == r2[1]);
        }
        match (op1, op2) {
            (RepetitionOp::Bounded(_, n1), RepetitionOp::Bounded(_, n2)) => {
                crate::text::lemma_decimal_injective(n1 as nat, n2 as nat);
            },
            _ => {},
        }
    }
}

/// Group law: the label of a group names its form, so groups of different
/// forms, indices or names (by their text) never share a label.
pub proof fn lemma_group_labels_injective(f1: GroupForm, f2: GroupForm, p: Seq<char>)
    ensures
        AstItem::Group(f1).label_of(p) == AstItem::Group(f2).label_of(p) ==> match (f1, f2) {
            (GroupForm::CaptureName(a), GroupForm::CaptureName(b)) => a@ == b@,
            _ => f1 == f2,
        },
{
    reveal_strlit("(");
    reveal_strlit(")");
    reveal_strlit("(?<");
    reveal_strlit(">)");
    reveal_strlit("(?:)");
    let l1 = AstItem::Group(f1).label_of(p);
    let l2 = AstItem::Group(f2).label_of(p);
    if l1 == l2 {
        match f1 {
            GroupForm::CaptureIndex(n) => {
                crate::text::lemma_decimal_digits(n as nat);
                assert(l1[1] == decimal(n as nat)[0]);
            },
            _ => {},
        }
        match f2 {
            GroupForm::CaptureIndex(n) => {
                crate::text::lemma_decimal_digits(n as nat);
                assert(l2[1] == decimal(n as nat)[0]);
            },
            _ => {},
        }
        assert(l1[1] == l2[1]);
        match (f1, f2) {
            (GroupForm::CaptureIndex(a), GroupForm::CaptureIndex(b)) => {
                assert(decimal(a as nat) =~= l1.subrange(1, l1.len() - 1));
                assert(decimal(b as nat) =~= l2.subrange(1, l2.len() - 1));
                crate::text::lemma_decimal_injective(a as nat, b as nat);
            },
            (GroupForm::CaptureName(a), GroupForm::CaptureName(b)) => {
                assert(a@ =~= l1.subrange(3, l1.len() - 2));
                assert(b@ =~= l2.subrange(3, l2.len() - 2));
            },
            (GroupForm::CaptureName(a), GroupForm::NonCapturing) => {
                assert(l1[2] == l2[2]);
            },
            (GroupForm::NonCapturing, GroupForm::CaptureName(b)) => {
                assert(l1[2] == l2[2]);
            },
            _ => {},
        }
    }
}

/// Literal law: a literal is labelled with its character alone.
pub proof fn lemma_literal_label(c: char, p: Seq<char>)
    ensures
        AstItem::Literal(c).label_of(p).len() == 1,
        AstItem::Literal(c).label_of(p)[0] == c,
{
}

/// What `regex_syntax::ast::parse::Parser::parse` (default settings) gives
/// for `pattern`: the syntactic tree, node for node, each node's item with
/// the printer's rendering of that node; or the message of the parse error.
pub uninterp spec fn ast_parse(pattern: Seq<char>) -> Result<SyntaxTree<AstItem>, Seq<char>>;

/// `regex_syntax::ast::parse::Parser::parse` with the default settings,
/// its tree converted node for node into a [`SyntaxTree`] and its error
/// into its `Display` message. The result is named: the parser is
/// deterministic.
#[verifier::external_body]
fn parse_tree(pattern: &str) -> (r: Result<SyntaxTree<AstItem>, String>)
    ensures
        match r {
            Ok(t) => ast_parse(pattern@) == Ok::<SyntaxTree<AstItem>, Seq<char>>(t),
            Err(m) => ast_parse(pattern@) == Err::<SyntaxTree<AstItem>, Seq<char>>(m@),
        },
{
    match regex_syntax::ast::parse::Parser::new().parse(pattern) {
        Ok(ast) => Ok(ast_tree_of(&ast)),
        Err(e) => Err(e.to_string()),
    }
}

/// Converts the outside syntactic tree node for node, children in order:
/// the conversion of `parse_tree`'s result.
#[verifier::external_body]
fn ast_tree_of(ast: &Ast) -> SyntaxTree<AstItem> {
    SyntaxTree {
        item: ast_item(ast),
        printed: printer_label(ast),
        children: ast_children(ast).iter().map(ast_tree_of).collect(),
    }
}

/// The text `regex_syntax::ast::print::Printer` writes for `ast`.
#[verifier::external_body]
fn printer_label(ast: &Ast) -> String {
    let mut dst = String::new();
    regex_syntax::ast::print::Printer::new().print(ast, &mut dst).unwrap();
    dst
}

/// The repetition operator of an outside repetition kind.
#[verifier::external_body]
fn repetition_op(kind: &RepetitionKind) -> RepetitionOp {
    match kind {
        RepetitionKind::ZeroOrOne => RepetitionOp::ZeroOrOne,
        RepetitionKind::ZeroOrMore => RepetitionOp::ZeroOrMore,
        RepetitionKind::OneOrMore => RepetitionOp::OneOrMore,
        RepetitionKind::Range(RepetitionRange::Exactly(n)) => RepetitionOp::Exactly(*n),
        RepetitionKind::Range(RepetitionRange::AtLeast(n)) => RepetitionOp::AtLeast(*n),
        RepetitionKind::Range(RepetitionRange::Bounded(m, n)) => RepetitionOp::Bounded(*m, *n),
    }
}

/// The group kind of an outside group kind.
#[verifier::external_body]
fn group_kind(kind: &regex_syntax::ast::GroupKind) -> GroupForm {
    match kind {
        regex_syntax::ast::GroupKind::CaptureIndex(n) => GroupForm::CaptureIndex(*n),
        regex_syntax::ast::GroupKind::CaptureName { name, .. } => GroupForm::CaptureName(name.name.clone()),
        regex_syntax::ast::GroupKind::NonCapturing(_) => GroupForm::NonCapturing,
    }
}

/// The item of one node of the outside syntactic tree.
#[verifier::external_body]
fn ast_item(ast: &Ast) -> AstItem {
    match ast {
        Ast::Empty(_) => AstItem::Empty,
        Ast::Flags(_) => AstItem::Flags,
        Ast::Literal(x) => AstItem::Literal(x.c),
        Ast::Dot(_) => AstItem::Dot,
        Ast::Assertion(_) => AstItem::Assertion,
        Ast::ClassUnicode(_) => AstItem::ClassUnicode,
        Ast::ClassPerl(_) => AstItem::ClassPerl,
        Ast::ClassBracketed(_) => AstItem::ClassBracketed,
        Ast::Repetition(x) => AstItem::Repetition(repetition_op(&x.op.kind), x.greedy),
        Ast::Group(x) => AstItem::Group(group_kind(&x.kind)),
        Ast::Alternation(_) => AstItem::Alternation,
        Ast::Concat(_) => AstItem::Concat,
    }
}

/// The sub-trees of one node of the outside syntactic tree, in order.
#[verifier::external_body]
fn ast_children(ast: &Ast) -> &[Ast] {
    match ast {
        Ast::Repetition(x) => core::slice::from_ref(&*x.ast),
        Ast::Group(x) => core::slice::from_ref(&*x.ast),
        Ast::Alternation(x) => &x.asts,
        Ast::Concat(x) => &x.asts,
        _ => &[],
    }
}

/// Builds the node list of the syntactic tree of a pattern, one pre-order
/// visit after another.
pub struct TreeBuilder {
    builder: crate::node::TreeBuilder,
}

impl TreeBuilder {
    /// The nodes built so far.
    pub closed spec fn nodes(&self) -> Seq<NodeView> {
        nodes_view(self.builder.nodes@)
    }

    /// The indices of the nodes opened and not yet closed.
    pub closed spec fn open_nodes(&self) -> Seq<usize> {
        self.builder.stack@
    }

    pub fn new() -> (b: Self)
        ensures
            b.nodes().len() == 0,
            b.open_nodes().len() == 0,
    {
        TreeBuilder { builder: crate::node::TreeBuilder::new() }
    }

    /// Appends the nodes of `t` in pre-order under the innermost open node.
    pub fn visit(&mut self, t: &SyntaxTree<AstItem>)
        requires
            crate::node::stack_top(old(self).open_nodes()) matches Some(p) ==> p < old(self).nodes().len(),
            old(self).nodes().len() + tree_size(*t) <= usize::MAX,
        ensures
            final(self).open_nodes() == old(self).open_nodes(),
            final(self).nodes() == crate::node::attach(
                old(self).nodes(),
                crate::node::stack_top(old(self).open_nodes()),
                old(self).nodes().len() as usize,
            ) + crate::node::flat(*t, crate::node::stack_top(old(self).open_nodes()), old(self).nodes().len() as int),
    {
        proof {
            assert(self.builder.nodes@.len() == nodes_view(self.builder.nodes@).len());
        }
        self.builder.visit(t);
    }

    /// The nodes built.
    pub fn finish(self) -> (nodes: Vec<Node>)
        ensures
            nodes_view(nodes@) == self.nodes(),
    {
        self.builder.finish()
    }
}

/// The node list of the syntactic tree of `pattern`: one node per tree
/// node in pre-order, labelled and kinded by its item. A pattern the parser
/// refuses gives the parser's message; a tree with more nodes than a
/// `usize` counts gives "traversal failed".
pub fn build(pattern: &str) -> (r: Result<Vec<Node>, String>)
    ensures
        match ast_parse(pattern@) {
            Err(m) => r matches Err(e) && e@ == m,
            Ok(t) => if tree_size(t) <= usize::MAX {
                r matches Ok(nodes) && nodes_view(nodes@) == tree_nodes(t)
            } else {
                r matches Err(e) && e@ == "traversal failed"@
            },
        },
        r matches Ok(nodes) ==> {
            &&& nodes@.len() > 0
            &&& is_tree(nodes_view(nodes@))
            &&& crate::layout::pre_tree(nodes_view(nodes@), 0) == crate::layout::index_range(0, nodes@.len() as int)
        },
{
    let tree = match parse_tree(pattern) {
        Ok(t) => t,
        Err(e) => return Err(e),
    };
    match checked_size(&tree) {
        Some(_) => {
            let mut builder = TreeBuilder::new();
            builder.visit(&tree);
            let nodes = builder.finish();
            proof {
                crate::node::lemma_tree_nodes_is_tree(tree);
                crate::layout::lemma_flatten_preorder(tree);
                assert(nodes_view(nodes@) =~= tree_nodes(tree));
            }
            Ok(nodes)
        },
        None => Err(String::from_str("traversal failed")),
    }
}

} // verus!
