//! Regular expressions: a backtracking matcher in the Pike/Cox style. A
//! pattern is parsed to a syntax tree, compiled to a small instruction list
//! (`Char`, `Class`, `Split`, `Jump`, `Save`, `Match`, ...) and run with an
//! explicit backtracking stack; a step budget shared by one whole operation
//! stops catastrophic backtracking.
//!
//! Syntax: literals, `. ^ $ |`, `( )`, `(?: )`, `[ ]` and `[^ ]` with ranges,
//! `\d \D \w \W \s \S \n \t \r` and `\` before any other character,
//! `* + ? {n} {n,} {n,m}` and their lazy forms. Matching is over `char`s; `\w`
//! covers the Devanagari block.

use vstd::prelude::*;
use crate::text::{char_is_alphanumeric, spec_is_alphabetic, spec_is_numeric, spec_is_alphanumeric,
    is_whitespace, is_whitespace_spec, is_ascii_digit, is_ascii_digit_spec, push_char, push_str,
    str_chars, chars_to_string, decimal, decimal_spec};

verus! {

/// One member of a character class.
#[derive(Clone, Copy, PartialEq, Eq, Structural, Debug)]
pub enum ClassItem {
    Ch(char),
    Range(char, char),
    Digit,
    NotDigit,
    Word,
    NotWord,
    Space,
    NotSpace,
}

/// A character class: its members, possibly negated.
pub struct ClassDef {
    pub neg: bool,
    pub items: Vec<ClassItem>,
}

/// The mathematical value of a class.
pub struct ClassModel {
    pub neg: bool,
    pub items: Seq<ClassItem>,
}

impl View for ClassDef {
    type V = ClassModel;

    open spec fn view(&self) -> ClassModel {
        ClassModel { neg: self.neg, items: self.items@ }
    }
}

/// `\w`: alphanumeric, `_`, or anywhere in the Devanagari block U+0900–U+097F
/// (whose matras and halant are not alphanumeric, yet belong to words).
pub open spec fn is_word_char_spec(c: char) -> bool {
    spec_is_alphanumeric(c) || c == '_' || ('\u{900}' <= c && c <= '\u{97f}')
}

pub open spec fn item_matches(it: ClassItem, c: char) -> bool {
    match it {
        ClassItem::Ch(x) => x == c,
        ClassItem::Range(a, b) => a <= c && c <= b,
        ClassItem::Digit => is_ascii_digit_spec(c),
        ClassItem::NotDigit => !is_ascii_digit_spec(c),
        ClassItem::Word => is_word_char_spec(c),
        ClassItem::NotWord => !is_word_char_spec(c),
        ClassItem::Space => is_whitespace_spec(c),
        ClassItem::NotSpace => !is_whitespace_spec(c),
    }
}

/// `c` is in the class: some member matches, unless the class is negated.
pub open spec fn class_matches(d: ClassModel, c: char) -> bool {
    (exists|i: int| 0 <= i < d.items.len() && item_matches(#[trigger] d.items[i], c)) != d.neg
}

/// A class with a leading `^` matches exactly the characters that the same
/// members without it do not; without `^`, a character is matched exactly
/// when one of the members matches it.
pub proof fn law_class_negation(d: ClassModel, c: char)
    ensures
        class_matches(d, c) == (d.neg != exists|i: int| 0 <= i < d.items.len() && item_matches(#[trigger] d.items[i], c)),
        d.neg ==> forall|i: int| 0 <= i < d.items.len() && item_matches(#[trigger] d.items[i], c) ==> !class_matches(d, c),
        !d.neg ==> forall|i: int| 0 <= i < d.items.len() && item_matches(#[trigger] d.items[i], c) ==> class_matches(d, c),
        d.neg ==> (class_matches(d, c) <==> forall|i: int| 0 <= i < d.items.len() ==> !item_matches(#[trigger] d.items[i], c)),
{
}

/// What each class member matches: a character itself, the characters of an
/// inclusive range, `\d` the ASCII digits, `\s` spaces, tabs and line
/// breaks, `\w` word characters, `_` among them; the capital forms match the rest.
pub proof fn law_class_members(c: char, x: char, a: char, b: char)
    ensures
        item_matches(ClassItem::Ch(x), c) <==> c == x,
        item_matches(ClassItem::Range(a, b), c) <==> (a <= c && c <= b),
        item_matches(ClassItem::Digit, c) <==> ('0' <= c && c <= '9'),
        item_matches(ClassItem::NotDigit, c) <==> !item_matches(ClassItem::Digit, c),
        item_matches(ClassItem::NotWord, c) <==> !item_matches(ClassItem::Word, c),
        item_matches(ClassItem::NotSpace, c) <==> !item_matches(ClassItem::Space, c),
        (c == ' ' || c == '\u{9}' || c == '\u{a}' || c == '\u{d}') ==> item_matches(ClassItem::Space, c),
        ('a' <= c && c <= 'z') ==> !item_matches(ClassItem::Space, c) && !item_matches(ClassItem::Digit, c),
        c == '_' ==> item_matches(ClassItem::Word, c),
{
}

fn is_word_char(c: char) -> (b: bool)
    ensures
        b == is_word_char_spec(c),
{
    char_is_alphanumeric(c) || c == '_' || ('\u{900}' <= c && c <= '\u{97f}')
}

fn item_hit(it: &ClassItem, c: char) -> (b: bool)
    ensures
        b == item_matches(*it, c),
{
    match it {
        ClassItem::Ch(x) => *x == c,
        ClassItem::Range(a, b) => *a <= c && c <= *b,
        ClassItem::Digit => is_ascii_digit(c),
        ClassItem::NotDigit => !is_ascii_digit(c),
        ClassItem::Word => is_word_char(c),
        ClassItem::NotWord => !is_word_char(c),
        ClassItem::Space => is_whitespace(c),
        ClassItem::NotSpace => !is_whitespace(c),
    }
}

impl ClassDef {
    /// Whether `c` is in the class.
    pub fn matches(&self, c: char) -> (b: bool)
        ensures
            b == class_matches(self@, c),
    {
        let mut hit = false;
        let mut i: usize = 0;
        while i < self.items.len()
            invariant
                i <= self.items@.len(),
                hit == (exists|j: int| 0 <= j < i && item_matches(#[trigger] self.items@[j], c)),
            decreases self.items.len() - i,
        {
            if item_hit(&self.items[i], c) {
                hit = true;
            }
            i = i + 1;
        }
        assert(self@.items == self.items@);
        hit != self.neg
    }

    fn copy(&self) -> (r: ClassDef)
        ensures
            r@ == self@,
    {
        let mut items: Vec<ClassItem> = Vec::new();
        let mut i: usize = 0;
        while i < self.items.len()
            invariant
                i <= self.items@.len(),
                items@ == self.items@.subrange(0, i as int),
            decreases self.items.len() - i,
        {
            items.push(self.items[i]);
            i = i + 1;
            assert(items@ =~= self.items@.subrange(0, i as int));
        }
        assert(items@ =~= self.items@);
        ClassDef { neg: self.neg, items }
    }
}

/// Pattern syntax trees.
pub enum Node {
    Char(char),
    /// `.`: any character but a line break.
    Any,
    Class(ClassDef),
    /// `^`
    Start,
    /// `$`
    End,
    Concat(Vec<Node>),
    /// `a|b|c`
    Alt(Vec<Node>),
    /// `( )` (numbered) or `(?: )` (not numbered).
    Group { idx: Option<usize>, inner: Box<Node> },
    Repeat { node: Box<Node>, min: u32, max: Option<u32>, lazy: bool },
}

/// The mathematical value of a `Node`.
pub enum NodeM {
    Char(char),
    Any,
    Class(ClassModel),
    Start,
    End,
    Concat(Seq<NodeM>),
    Alt(Seq<NodeM>),
    Group(Option<nat>, Box<NodeM>),
    Repeat(Box<NodeM>, nat, Option<nat>, bool),
}

pub open spec fn node_view(n: Node) -> NodeM
    decreases n, 0int,
{
    match n {
        Node::Char(c) => NodeM::Char(c),
        Node::Any => NodeM::Any,
        Node::Class(d) => NodeM::Class(d@),
        Node::Start => NodeM::Start,
        Node::End => NodeM::End,
        Node::Concat(v) => NodeM::Concat(nodes_view(v@)),
        Node::Alt(v) => NodeM::Alt(nodes_view(v@)),
        Node::Group { idx, inner } => NodeM::Group(
            match idx {
                Some(g) => Some(g as nat),
                None => None,
            },
            Box::new(node_view(*inner)),
        ),
        Node::Repeat { node, min, max, lazy } => NodeM::Repeat(
            Box::new(node_view(*node)),
            min as nat,
            match max {
                Some(m) => Some(m as nat),
                None => None,
            },
            lazy,
        ),
    }
}

pub open spec fn nodes_view(v: Seq<Node>) -> Seq<NodeM>
    decreases v, 1int,
{
    if v.len() == 0 {
        Seq::empty()
    } else {
        nodes_view(v.drop_last()).push(node_view(v.last()))
    }
}

/// Instructions of the matching machine.
#[derive(Clone, Copy, PartialEq, Eq, Structural, Debug)]
pub enum Inst {
    Char(char),
    Any,
    /// A class, by its index in the regex's class list.
    Class(usize),
    Start,
    End,
    /// Record the current position in save slot `n`.
    Save(usize),
    /// Continue at the first target; on failure, backtrack to the second.
    Split(usize, usize),
    Jump(usize),
    /// Record the current position in the loop slot of the loop whose head
    /// is at the given instruction.
    Mark(usize),
    /// End of a loop pass: back to the loop head at the given instruction,
    /// unless the pass consumed nothing (the position equals the one recorded
    /// by the loop's `Mark`), in which case the loop ends here.
    Loop(usize),
    Match,
}

/// A compiled regular expression.
pub struct Regex {
    prog: Vec<Inst>,
    classes: Vec<ClassDef>,
    n_groups: usize,
}

/// The mathematical value of a `Regex`.
pub struct RegexModel {
    pub prog: Seq<Inst>,
    pub classes: Seq<ClassModel>,
    pub n_groups: nat,
}

pub open spec fn classes_view(v: Seq<ClassDef>) -> Seq<ClassModel> {
    v.map_values(|d: ClassDef| d@)
}

impl View for Regex {
    type V = RegexModel;

    closed spec fn view(&self) -> RegexModel {
        RegexModel {
            prog: self.prog@,
            classes: classes_view(self.classes@),
            n_groups: self.n_groups as nat,
        }
    }
}


/// Outcome of parsing a part of a pattern: the tree, the position after it and
/// the number of numbered groups so far; or an error message.
pub type ParseOut = Result<(NodeM, int, nat), Seq<char>>;

pub open spec fn err_incomplete() -> Seq<char> {
    "प्रतिमान: अधूरा"@
}

/// A number: the run of ASCII digits at `pos` (as `u32`), and the position after it.
pub open spec fn digit_run(cs: Seq<char>, pos: int) -> int
    decreases cs.len() - pos,
{
    if 0 <= pos < cs.len() && is_ascii_digit_spec(cs[pos]) {
        1 + digit_run(cs, pos + 1)
    } else {
        0
    }
}

pub open spec fn digits_value_at(cs: Seq<char>, pos: int, n: int) -> nat
    decreases n,
{
    if n <= 0 {
        0
    } else {
        digits_value_at(cs, pos, n - 1) * 10 + ((cs[pos + n - 1] as nat) - ('0' as nat)) as nat
    }
}

pub open spec fn parse_int_spec(cs: Seq<char>, pos: int) -> Option<(nat, int)> {
    let n = digit_run(cs, pos);
    if n == 0 || digits_value_at(cs, pos, n) > u32::MAX {
        None
    } else {
        Some((digits_value_at(cs, pos, n), pos + n))
    }
}

pub open spec fn at(cs: Seq<char>, pos: int, c: char) -> bool {
    0 <= pos < cs.len() && cs[pos] == c
}

/// After `{`: `n}`, `n,}` or `n,m}`; anything else is not a counter.
pub open spec fn parse_counts_spec(cs: Seq<char>, pos: int) -> Option<(nat, Option<nat>, int)> {
    match parse_int_spec(cs, pos) {
        None => None,
        Some((n, p1)) => if at(cs, p1, '}') {
            Some((n, Some(n), p1 + 1))
        } else if !at(cs, p1, ',') {
            None
        } else if at(cs, p1 + 1, '}') {
            Some((n, None, p1 + 2))
        } else {
            match parse_int_spec(cs, p1 + 1) {
                None => None,
                Some((m, p2)) => if at(cs, p2, '}') {
                    Some((n, Some(m), p2 + 1))
                } else {
                    None
                },
            }
        },
    }
}

/// The quantifier (if any) after an atom that ends at `pos`.
pub open spec fn parse_quant_spec(cs: Seq<char>, pos: int, atom: NodeM) -> Result<(NodeM, int), Seq<char>> {
    let q: Option<(nat, Option<nat>, int)> = if at(cs, pos, '*') {
        Some((0nat, None, pos + 1))
    } else if at(cs, pos, '+') {
        Some((1nat, None, pos + 1))
    } else if at(cs, pos, '?') {
        Some((0nat, Some(1nat), pos + 1))
    } else if at(cs, pos, '{') {
        parse_counts_spec(cs, pos + 1)
    } else {
        None
    };
    match q {
        None => Ok((atom, pos)),
        Some((min, max, p)) => if atom is Start || atom is End {
            Err("प्रतिमान: ^ या $ पर परिमाणक नहीं लग सकता"@)
        } else if max is Some && min > max.unwrap() {
            Err("प्रतिमान: {"@ + decimal_spec(min) + ","@ + decimal_spec(max.unwrap())
                + "} में min > max"@)
        } else if min > 1000 || (max is Some && max.unwrap() > 1000) {
            Err("प्रतिमान: परिमाणक सीमा 1000 से अधिक"@)
        } else {
            let lazy = at(cs, p, '?');
            Ok((NodeM::Repeat(Box::new(atom), min, max, lazy), if lazy {
                p + 1
            } else {
                p
            }))
        },
    }
}

/// The class member for an escaped character inside `[ ]`.
pub open spec fn class_escape(e: char) -> ClassItem {
    if e == 'd' {
        ClassItem::Digit
    } else if e == 'D' {
        ClassItem::NotDigit
    } else if e == 'w' {
        ClassItem::Word
    } else if e == 'W' {
        ClassItem::NotWord
    } else if e == 's' {
        ClassItem::Space
    } else if e == 'S' {
        ClassItem::NotSpace
    } else if e == 'n' {
        ClassItem::Ch('\n')
    } else if e == 't' {
        ClassItem::Ch('\t')
    } else if e == 'r' {
        ClassItem::Ch('\r')
    } else {
        ClassItem::Ch(e)
    }
}

pub open spec fn err_bracket() -> Seq<char> {
    "प्रतिमान: ']' अपेक्षित"@
}

pub open spec fn err_backslash() -> Seq<char> {
    "प्रतिमान: '\\' के बाद कुछ चाहिए"@
}

/// The members of a class from `pos` up to its closing `]`, and the position after it.
pub open spec fn class_items(cs: Seq<char>, pos: int, items: Seq<ClassItem>) -> Result<(Seq<ClassItem>, int), Seq<char>>
    decreases cs.len() - pos,
{
    if pos < 0 || pos >= cs.len() {
        Err(err_bracket())
    } else {
        let c = cs[pos];
        if c == ']' {
            Ok((items, pos + 1))
        } else if c == '\\' {
            if pos + 1 >= cs.len() {
                Err(err_backslash())
            } else {
                class_items(cs, pos + 2, items.push(class_escape(cs[pos + 1])))
            }
        } else if at(cs, pos + 1, '-') && pos + 2 < cs.len() && cs[pos + 2] != ']' {
            let hi0 = cs[pos + 2];
            if hi0 == '\\' {
                if pos + 3 >= cs.len() {
                    Err(err_backslash())
                } else if c > cs[pos + 3] {
                    Err("प्रतिमान: उल्टी सीमा "@ + seq![c, '-', cs[pos + 3]])
                } else {
                    class_items(cs, pos + 4, items.push(ClassItem::Range(c, cs[pos + 3])))
                }
            } else if c > hi0 {
                Err("प्रतिमान: उल्टी सीमा "@ + seq![c, '-', hi0])
            } else {
                class_items(cs, pos + 3, items.push(ClassItem::Range(c, hi0)))
            }
        } else {
            class_items(cs, pos + 1, items.push(ClassItem::Ch(c)))
        }
    }
}

/// A class after its `[`: an optional `^`, a leading `]` taken literally, then members.
pub open spec fn parse_class_spec(cs: Seq<char>, pos: int) -> Result<(NodeM, int), Seq<char>> {
    let neg = at(cs, pos, '^');
    let p1 = if neg {
        pos + 1
    } else {
        pos
    };
    let (first, p2) = if at(cs, p1, ']') {
        (seq![ClassItem::Ch(']')], p1 + 1)
    } else {
        (Seq::<ClassItem>::empty(), p1)
    };
    match class_items(cs, p2, first) {
        Err(e) => Err(e),
        Ok((items, p3)) => Ok((NodeM::Class(ClassModel { neg, items }), p3)),
    }
}

/// An escape after `\`.
pub open spec fn parse_escape_spec(cs: Seq<char>, pos: int) -> Result<(NodeM, int), Seq<char>> {
    if pos < 0 || pos >= cs.len() {
        Err(err_backslash())
    } else {
        let c = cs[pos];
        let n = if c == 'd' || c == 'D' || c == 'w' || c == 'W' || c == 's' || c == 'S' {
            NodeM::Class(ClassModel { neg: false, items: seq![class_escape(c)] })
        } else {
            match class_escape(c) {
                ClassItem::Ch(x) => NodeM::Char(x),
                _ => NodeM::Char(c),
            }
        };
        Ok((n, pos + 1))
    }
}

/// `alt := seq ('|' seq)*`
pub open spec fn parse_alt_spec(cs: Seq<char>, pos: int, ng: nat) -> ParseOut
    decreases cs.len() - pos, 4int,
{
    match parse_seq_spec(cs, pos, ng) {
        Err(e) => Err(e),
        Ok((first, p1, g1)) => if pos <= p1 <= cs.len() {
            alt_rest(cs, p1, g1, seq![first])
        } else {
            Err(err_incomplete())
        },
    }
}

pub open spec fn alt_rest(cs: Seq<char>, pos: int, ng: nat, branches: Seq<NodeM>) -> ParseOut
    decreases cs.len() - pos, 3int,
{
    if at(cs, pos, '|') {
        match parse_seq_spec(cs, pos + 1, ng) {
            Err(e) => Err(e),
            Ok((b, p2, g2)) => if pos < p2 <= cs.len() {
                alt_rest(cs, p2, g2, branches.push(b))
            } else {
                Err(err_incomplete())
            },
        }
    } else {
        Ok((if branches.len() == 1 {
            branches[0]
        } else {
            NodeM::Alt(branches)
        }, pos, ng))
    }
}

/// `seq := (atom quantifier?)*`, up to `|`, `)` or the end.
pub open spec fn parse_seq_spec(cs: Seq<char>, pos: int, ng: nat) -> ParseOut
    decreases cs.len() - pos, 2int,
{
    seq_rest(cs, pos, ng, Seq::empty())
}

pub open spec fn seq_rest(cs: Seq<char>, pos: int, ng: nat, items: Seq<NodeM>) -> ParseOut
    decreases cs.len() - pos, 1int,
{
    if pos < 0 || pos >= cs.len() || cs[pos] == '|' || cs[pos] == ')' {
        Ok((if items.len() == 1 {
            items[0]
        } else {
            NodeM::Concat(items)
        }, pos, ng))
    } else {
        match parse_atom_spec(cs, pos, ng) {
            Err(e) => Err(e),
            Ok((a, p1, g1)) => match parse_quant_spec(cs, p1, a) {
                Err(e) => Err(e),
                Ok((q, p2)) => if pos < p2 <= cs.len() {
                    seq_rest(cs, p2, g1, items.push(q))
                } else {
                    Err(err_incomplete())
                },
            },
        }
    }
}

/// One atom: a character, `.`, `^`, `$`, a group, a class or an escape.
pub open spec fn parse_atom_spec(cs: Seq<char>, pos: int, ng: nat) -> ParseOut
    decreases cs.len() - pos, 0int,
{
    if pos < 0 || pos >= cs.len() {
        Err(err_incomplete())
    } else {
        let c = cs[pos];
        let p = pos + 1;
        if c == '.' {
            Ok((NodeM::Any, p, ng))
        } else if c == '^' {
            Ok((NodeM::Start, p, ng))
        } else if c == '$' {
            Ok((NodeM::End, p, ng))
        } else if c == '(' {
            if at(cs, p, '?') && !at(cs, p + 1, ':') {
                Err("प्रतिमान: '(?' के बाद केवल ':' समर्थित"@)
            } else {
                let (idx, start, g0) = if at(cs, p, '?') {
                    (None::<nat>, p + 2, ng)
                } else {
                    (Some((ng + 1) as nat), p, (ng + 1) as nat)
                };
                match parse_alt_spec(cs, start, g0) {
                    Err(e) => Err(e),
                    Ok((inner, q, g)) => if at(cs, q, ')') {
                        Ok((NodeM::Group(idx, Box::new(inner)), q + 1, g))
                    } else {
                        Err("प्रतिमान: ')' अपेक्षित"@)
                    },
                }
            }
        } else if c == ')' {
            Err("प्रतिमान: अनपेक्षित ')'"@)
        } else if c == '[' {
            match parse_class_spec(cs, p) {
                Err(e) => Err(e),
                Ok((n, q)) => Ok((n, q, ng)),
            }
        } else if c == '*' || c == '+' || c == '?' {
            Err("प्रतिमान: परिमाणक से पहले कुछ चाहिए"@)
        } else if c == '\\' {
            match parse_escape_spec(cs, p) {
                Err(e) => Err(e),
                Ok((n, q)) => Ok((n, q, ng)),
            }
        } else {
            Ok((NodeM::Char(c), p, ng))
        }
    }
}

/// Every numbered group in the tree has a number at most `b`.
pub open spec fn groups_within(n: NodeM, b: nat) -> bool
    decreases n, 0nat,
{
    match n {
        NodeM::Concat(items) => list_within(items, b),
        NodeM::Alt(items) => list_within(items, b),
        NodeM::Group(idx, inner) => (match idx {
            Some(i) => i <= b,
            None => true,
        }) && groups_within(*inner, b),
        NodeM::Repeat(node, _, _, _) => groups_within(*node, b),
        _ => true,
    }
}

pub open spec fn list_within(items: Seq<NodeM>, b: nat) -> bool
    decreases items, 1nat,
{
    forall|i: int| 0 <= i < items.len() ==> groups_within(#[trigger] items[i], b)
}

pub proof fn lemma_within_weaken(n: NodeM, b: nat, c: nat)
    requires
        groups_within(n, b),
        b <= c,
    ensures
        groups_within(n, c),
    decreases n, 0nat,
{
    match n {
        NodeM::Concat(items) => lemma_list_within_weaken(items, b, c),
        NodeM::Alt(items) => lemma_list_within_weaken(items, b, c),
        NodeM::Group(_, inner) => lemma_within_weaken(*inner, b, c),
        NodeM::Repeat(node, _, _, _) => lemma_within_weaken(*node, b, c),
        _ => {},
    }
}

pub proof fn lemma_list_within_weaken(items: Seq<NodeM>, b: nat, c: nat)
    requires
        list_within(items, b),
        b <= c,
    ensures
        list_within(items, c),
    decreases items, 1nat,
{
    assert forall|i: int| 0 <= i < items.len() implies groups_within(#[trigger] items[i], c) by {
        lemma_within_weaken(items[i], b, c);
    }
}

/// The exec result of a parse step matches the specified one.
pub open spec fn parse_rel(r: Result<(Node, usize, usize), String>, s: ParseOut) -> bool {
    match s {
        Ok((m, p, g)) => r matches Ok((n, p2, g2)) && node_view(n) == m && p2 == p && g2 == g,
        Err(e) => r matches Err(x) && x@ == e,
    }
}

pub open spec fn step_rel(r: Result<(Node, usize), String>, s: Result<(NodeM, int), Seq<char>>) -> bool {
    match s {
        Ok((m, p)) => r matches Ok((n, p2)) && node_view(n) == m && p2 == p,
        Err(e) => r matches Err(x) && x@ == e,
    }
}

proof fn lemma_nodes_view_push(v: Seq<Node>, x: Node)
    ensures
        nodes_view(v.push(x)) == nodes_view(v).push(node_view(x)),
        nodes_view(Seq::<Node>::empty()) == Seq::<NodeM>::empty(),
{
    assert(v.push(x).drop_last() =~= v);
}

fn at_exec(cs: &Vec<char>, pos: usize, c: char) -> (b: bool)
    ensures
        b == at(cs@, pos as int, c),
{
    pos < cs.len() && cs[pos] == c
}

proof fn lemma_digits_value_grows(cs: Seq<char>, pos: int, n: int)
    requires
        n >= 0,
    ensures
        digits_value_at(cs, pos, n) <= digits_value_at(cs, pos, n + 1),
{
}

/// A decimal number at `pos` (see `parse_int_spec`).
fn parse_int(cs: &Vec<char>, pos: usize) -> (r: Option<(u32, usize)>)
    requires
        pos <= cs@.len(),
    ensures
        match parse_int_spec(cs@, pos as int) {
            Some((v, p)) => r matches Some((a, b)) && a == v && b == p,
            None => r is None,
        },
        r matches Some((_, p)) ==> pos < p <= cs@.len(),
{
    let n = cs.len();
    let mut k = pos;
    let mut v: u64 = 0;
    let mut over = false;
    while k < n && is_ascii_digit(cs[k])
        invariant
            pos <= k <= n,
            n == cs@.len(),
            forall|j: int| pos <= j < k ==> is_ascii_digit_spec(cs@[j]),
            digit_run(cs@, pos as int) == (k - pos) + digit_run(cs@, k as int),
            !over ==> v == digits_value_at(cs@, pos as int, k - pos),
            !over ==> v <= u32::MAX,
            over ==> digits_value_at(cs@, pos as int, k - pos) > u32::MAX,
        decreases n - k,
    {
        proof {
            lemma_digits_value_grows(cs@, pos as int, k - pos);
        }
        if !over {
            let d = (cs[k] as u32 - '0' as u32) as u64;
            v = v * 10 + d;
            if v > 0xffff_ffff {
                over = true;
            }
        }
        k = k + 1;
    }
    if k == pos || over {
        None
    } else {
        Some((v as u32, k))
    }
}

/// A counter after `{` (see `parse_counts_spec`).
fn parse_counts(cs: &Vec<char>, pos: usize) -> (r: Option<(u32, Option<u32>, usize)>)
    requires
        pos <= cs@.len(),
    ensures
        match parse_counts_spec(cs@, pos as int) {
            Some((n, m, p)) => r matches Some((a, b, q)) && a == n && q == p && match m {
                Some(x) => b == Some(x as u32),
                None => b is None,
            },
            None => r is None,
        },
        r matches Some((_, _, q)) ==> pos < q <= cs@.len(),
{
    let n = cs.len();
    match parse_int(cs, pos) {
        None => None,
        Some((n, p1)) => {
            if at_exec(cs, p1, '}') {
                Some((n, Some(n), p1 + 1))
            } else if !at_exec(cs, p1, ',') {
                None
            } else if at_exec(cs, p1 + 1, '}') {
                Some((n, None, p1 + 2))
            } else {
                match parse_int(cs, p1 + 1) {
                    None => None,
                    Some((m, p2)) => {
                        if at_exec(cs, p2, '}') {
                            Some((n, Some(m), p2 + 1))
                        } else {
                            None
                        }
                    },
                }
            }
        },
    }
}

fn decimal_string(n: u32) -> (s: String)
    ensures
        s@ == decimal_spec(n as nat),
{
    let d = decimal(n as u64);
    chars_to_string(d.as_slice())
}

proof fn lemma_quant_within(cs: Seq<char>, pos: int, atom: NodeM, b: nat)
    requires
        groups_within(atom, b),
    ensures
        parse_quant_spec(cs, pos, atom) matches Ok((q, _)) ==> groups_within(q, b),
{
}

proof fn lemma_push_within(v: Seq<Node>, x: Node, b: nat)
    requires
        list_within(nodes_view(v), b),
        groups_within(node_view(x), b),
    ensures
        list_within(nodes_view(v.push(x)), b),
{
    lemma_nodes_view_push(v, x);
    lemma_nodes_view(v);
    lemma_nodes_view(v.push(x));
    assert forall|i: int| 0 <= i < nodes_view(v.push(x)).len() implies groups_within(
        #[trigger] nodes_view(v.push(x))[i],
        b,
    ) by {
        if i < v.len() {
            assert(nodes_view(v.push(x))[i] == nodes_view(v)[i]);
        }
    }
}

/// The quantifier after an atom (see `parse_quant_spec`).
fn parse_quantifier(cs: &Vec<char>, pos: usize, atom: Node) -> (r: Result<(Node, usize), String>)
    requires
        pos <= cs@.len(),
    ensures
        step_rel(r, parse_quant_spec(cs@, pos as int, node_view(atom))),
        r matches Ok((_, p)) ==> pos <= p <= cs@.len(),
{
    let n = cs.len();
    let q: Option<(u32, Option<u32>, usize)> = if at_exec(cs, pos, '*') {
        Some((0, None, pos + 1))
    } else if at_exec(cs, pos, '+') {
        Some((1, None, pos + 1))
    } else if at_exec(cs, pos, '?') {
        Some((0, Some(1), pos + 1))
    } else if at_exec(cs, pos, '{') {
        parse_counts(cs, pos + 1)
    } else {
        None
    };
    match q {
        None => Ok((atom, pos)),
        Some((min, max, p)) => {
            if matches!(atom, Node::Start) || matches!(atom, Node::End) {
                return Err("प्रतिमान: ^ या $ पर परिमाणक नहीं लग सकता".to_owned());
            }
            match max {
                Some(m) => {
                    if min > m {
                        let mut e = "प्रतिमान: {".to_owned();
                        push_str(&mut e, decimal_string(min).as_str());
                        push_str(&mut e, ",");
                        push_str(&mut e, decimal_string(m).as_str());
                        push_str(&mut e, "} में min > max");
                        return Err(e);
                    }
                },
                None => {},
            }
            let too_big = match max {
                Some(m) => m > 1000,
                None => false,
            };
            if min > 1000 || too_big {
                return Err("प्रतिमान: परिमाणक सीमा 1000 से अधिक".to_owned());
            }
            let lazy = at_exec(cs, p, '?');
            let n = Node::Repeat { node: Box::new(atom), min, max, lazy };
            Ok((n, if lazy {
                p + 1
            } else {
                p
            }))
        },
    }
}

fn class_escape_exec(e: char) -> (it: ClassItem)
    ensures
        it == class_escape(e),
{
    if e == 'd' {
        ClassItem::Digit
    } else if e == 'D' {
        ClassItem::NotDigit
    } else if e == 'w' {
        ClassItem::Word
    } else if e == 'W' {
        ClassItem::NotWord
    } else if e == 's' {
        ClassItem::Space
    } else if e == 'S' {
        ClassItem::NotSpace
    } else if e == 'n' {
        ClassItem::Ch('\n')
    } else if e == 't' {
        ClassItem::Ch('\t')
    } else if e == 'r' {
        ClassItem::Ch('\r')
    } else {
        ClassItem::Ch(e)
    }
}

/// A class after `[` (see `parse_class_spec`).
fn parse_class(cs: &Vec<char>, pos: usize) -> (r: Result<(Node, usize), String>)
    requires
        pos <= cs@.len(),
    ensures
        step_rel(r, parse_class_spec(cs@, pos as int)),
        r matches Ok((_, p)) ==> pos < p <= cs@.len(),
{
    let n = cs.len();
    let neg = at_exec(cs, pos, '^');
    let p1 = if neg {
        pos + 1
    } else {
        pos
    };
    let mut items: Vec<ClassItem> = Vec::new();
    let mut p = p1;
    if at_exec(cs, p1, ']') {
        items.push(ClassItem::Ch(']'));
        p = p1 + 1;
    }
    proof {
        if at(cs@, p1 as int, ']') {
            assert(items@ =~= seq![ClassItem::Ch(']')]);
        } else {
            assert(items@ =~= Seq::<ClassItem>::empty());
        }
    }
    let ghost p2 = p;
    loop
        invariant
            pos <= p <= n,
            n == cs@.len(),
            p2 <= p,
            parse_class_spec(cs@, pos as int) == (match class_items(cs@, p as int, items@) {
                Err(e) => Err(e),
                Ok((its, q)) => Ok((NodeM::Class(ClassModel { neg, items: its }), q)),
            }),
        decreases n - p,
    {
        if p >= n {
            return Err("प्रतिमान: ']' अपेक्षित".to_owned());
        }
        let c = cs[p];
        if c == ']' {
            let node = Node::Class(ClassDef { neg, items });
            return Ok((node, p + 1));
        }
        if c == '\\' {
            if p + 1 >= n {
                return Err("प्रतिमान: '\\' के बाद कुछ चाहिए".to_owned());
            }
            items.push(class_escape_exec(cs[p + 1]));
            p = p + 2;
            continue;
        }
        if at_exec(cs, p + 1, '-') && p + 2 < n && cs[p + 2] != ']' {
            let hi0 = cs[p + 2];
            let (hi, next) = if hi0 == '\\' {
                if p + 3 >= n {
                    return Err("प्रतिमान: '\\' के बाद कुछ चाहिए".to_owned());
                }
                (cs[p + 3], p + 4)
            } else {
                (hi0, p + 3)
            };
            if c > hi {
                let mut e = "प्रतिमान: उल्टी सीमा ".to_owned();
                push_char(&mut e, c);
                push_char(&mut e, '-');
                push_char(&mut e, hi);
                assert(e@ =~= "प्रतिमान: उल्टी सीमा "@ + seq![c, '-', hi]);
                return Err(e);
            }
            items.push(ClassItem::Range(c, hi));
            p = next;
            continue;
        }
        items.push(ClassItem::Ch(c));
        p = p + 1;
    }
}

/// An escape after `\` (see `parse_escape_spec`).
fn parse_escape(cs: &Vec<char>, pos: usize) -> (r: Result<(Node, usize), String>)
    requires
        pos <= cs@.len(),
    ensures
        step_rel(r, parse_escape_spec(cs@, pos as int)),
        r matches Ok((_, p)) ==> pos < p <= cs@.len(),
{
    if pos >= cs.len() {
        return Err("प्रतिमान: '\\' के बाद कुछ चाहिए".to_owned());
    }
    let c = cs[pos];
    let n = if c == 'd' || c == 'D' || c == 'w' || c == 'W' || c == 's' || c == 'S' {
        let mut items: Vec<ClassItem> = Vec::new();
        items.push(class_escape_exec(c));
        assert(items@ =~= seq![class_escape(c)]);
        Node::Class(ClassDef { neg: false, items })
    } else {
        match class_escape_exec(c) {
            ClassItem::Ch(x) => Node::Char(x),
            _ => Node::Char(c),
        }
    };
    Ok((n, pos + 1))
}

proof fn lemma_nodes_view(v: Seq<Node>)
    ensures
        nodes_view(v).len() == v.len(),
        forall|i: int| 0 <= i < v.len() ==> #[trigger] nodes_view(v)[i] == node_view(v[i]),
    decreases v.len(),
{
    if v.len() > 0 {
        lemma_nodes_view(v.drop_last());
    }
}

/// The single node for a list of parts: the part itself when there is one.
fn one_or(mut items: Vec<Node>, alt: bool) -> (n: Node)
    ensures
        node_view(n) == (if nodes_view(items@).len() == 1 {
            nodes_view(items@)[0]
        } else if alt {
            NodeM::Alt(nodes_view(items@))
        } else {
            NodeM::Concat(nodes_view(items@))
        }),
        forall|b: nat| list_within(nodes_view(items@), b) ==> groups_within(#[trigger] node_view(n), b),
{
    proof {
        lemma_nodes_view(items@);
    }
    if items.len() == 1 {
        let ghost v = items@;
        let x = items.pop().unwrap();
        assert(x == v[0]);
        x
    } else if alt {
        Node::Alt(items)
    } else {
        Node::Concat(items)
    }
}

/// `alt := seq ('|' seq)*` (see `parse_alt_spec`).
fn parse_alt(cs: &Vec<char>, pos: usize, ng: usize) -> (r: Result<(Node, usize, usize), String>)
    requires
        pos <= cs@.len(),
        ng <= pos,
    ensures
        parse_rel(r, parse_alt_spec(cs@, pos as int, ng as nat)),
        r matches Ok((_, p, g)) ==> pos <= p <= cs@.len() && g <= p && ng <= g,
        r matches Ok((n, _, g)) ==> groups_within(node_view(n), g as nat),
    decreases cs@.len() - pos, 4int,
{
    let n = cs.len();
    let (first, p1, g1) = match parse_seq(cs, pos, ng) {
        Ok(t) => t,
        Err(e) => {
            return Err(e);
        },
    };
    let mut branches: Vec<Node> = Vec::new();
    proof {
        lemma_nodes_view(branches@);
        lemma_push_within(branches@, first, g1 as nat);
    }
    branches.push(first);
    let mut p = p1;
    let mut g = g1;
    proof {
        lemma_nodes_view_push(Seq::<Node>::empty(), first);
        assert(Seq::<Node>::empty().push(first) =~= branches@);
    }
    while at_exec(cs, p, '|')
        invariant
            pos <= p <= n,
            n == cs@.len(),
            g <= p,
            ng <= g,
            list_within(nodes_view(branches@), g as nat),
            parse_alt_spec(cs@, pos as int, ng as nat) == alt_rest(
                cs@,
                p as int,
                g as nat,
                nodes_view(branches@),
            ),
        decreases n - p,
    {
        let (b, p2, g2) = match parse_seq(cs, p + 1, g) {
            Ok(t) => t,
            Err(e) => {
                return Err(e);
            },
        };
        proof {
            lemma_nodes_view_push(branches@, b);
            lemma_list_within_weaken(nodes_view(branches@), g as nat, g2 as nat);
            lemma_push_within(branches@, b, g2 as nat);
        }
        branches.push(b);
        p = p2;
        g = g2;
    }
    let node = one_or(branches, true);
    Ok((node, p, g))
}

/// `seq := (atom quantifier?)*` (see `parse_seq_spec`).
fn parse_seq(cs: &Vec<char>, pos: usize, ng: usize) -> (r: Result<(Node, usize, usize), String>)
    requires
        pos <= cs@.len(),
        ng <= pos,
    ensures
        parse_rel(r, parse_seq_spec(cs@, pos as int, ng as nat)),
        r matches Ok((_, p, g)) ==> pos <= p <= cs@.len() && g <= p && ng <= g,
        r matches Ok((n, _, g)) ==> groups_within(node_view(n), g as nat),
    decreases cs@.len() - pos, 2int,
{
    let n = cs.len();
    let mut items: Vec<Node> = Vec::new();
    let mut p = pos;
    let mut g = ng;
    proof {
        lemma_nodes_view_push(items@, Node::Any);
        assert(items@ =~= Seq::<Node>::empty());
    }
    while p < n && cs[p] != '|' && cs[p] != ')'
        invariant
            pos <= p <= n,
            n == cs@.len(),
            g <= p,
            ng <= g,
            list_within(nodes_view(items@), g as nat),
            parse_seq_spec(cs@, pos as int, ng as nat) == seq_rest(
                cs@,
                p as int,
                g as nat,
                nodes_view(items@),
            ),
        decreases n - p,
    {
        let (a, p1, g1) = match parse_atom(cs, p, g) {
            Ok(t) => t,
            Err(e) => {
                return Err(e);
            },
        };
        let (q, p2) = match parse_quantifier(cs, p1, a) {
            Ok(t) => t,
            Err(e) => {
                return Err(e);
            },
        };
        proof {
            lemma_nodes_view_push(items@, q);
            lemma_quant_within(cs@, p1 as int, node_view(a), g1 as nat);
            lemma_list_within_weaken(nodes_view(items@), g as nat, g1 as nat);
            lemma_push_within(items@, q, g1 as nat);
        }
        items.push(q);
        p = p2;
        g = g1;
    }
    let node = one_or(items, false);
    Ok((node, p, g))
}

proof fn lemma_node_view_char(c: char)
    ensures
        node_view(Node::Char(c)) == NodeM::Char(c),
{
}

/// One atom (see `parse_atom_spec`).
fn parse_atom(cs: &Vec<char>, pos: usize, ng: usize) -> (r: Result<(Node, usize, usize), String>)
    requires
        pos <= cs@.len(),
        ng <= pos,
    ensures
        parse_rel(r, parse_atom_spec(cs@, pos as int, ng as nat)),
        r matches Ok((_, p, g)) ==> pos < p <= cs@.len() && g <= p && ng <= g,
        r matches Ok((n, _, g)) ==> groups_within(node_view(n), g as nat),
    decreases cs@.len() - pos, 0int,
{
    if pos >= cs.len() {
        return Err("प्रतिमान: अधूरा".to_owned());
    }
    let c = cs[pos];
    let p = pos + 1;
    if c == '.' {
        assert(node_view(Node::Any) == NodeM::Any);
        Ok((Node::Any, p, ng))
    } else if c == '^' {
        assert(node_view(Node::Start) == NodeM::Start);
        Ok((Node::Start, p, ng))
    } else if c == '$' {
        assert(node_view(Node::End) == NodeM::End);
        Ok((Node::End, p, ng))
    } else if c == '(' {
        if at_exec(cs, p, '?') && !at_exec(cs, p + 1, ':') {
            return Err("प्रतिमान: '(?' के बाद केवल ':' समर्थित".to_owned());
        }
        let (idx, start, g0) = if at_exec(cs, p, '?') {
            (None, p + 2, ng)
        } else {
            (Some(ng + 1), p, ng + 1)
        };
        match parse_alt(cs, start, g0) {
            Err(e) => Err(e),
            Ok((inner, q, g)) => {
                if at_exec(cs, q, ')') {
                    let nd = Node::Group { idx, inner: Box::new(inner) };
                    assert(parse_alt_spec(cs@, start as int, g0 as nat) == Ok::<(NodeM, int, nat), Seq<char>>((node_view(inner), q as int, g as nat)));
                    assert(parse_atom_spec(cs@, pos as int, ng as nat) == Ok::<(NodeM, int, nat), Seq<char>>((node_view(nd), q + 1, g as nat)));
                    Ok((nd, q + 1, g))
                } else {
                    Err("प्रतिमान: ')' अपेक्षित".to_owned())
                }
            },
        }
    } else if c == ')' {
        Err("प्रतिमान: अनपेक्षित ')'".to_owned())
    } else if c == '[' {
        let r = parse_class(cs, p);
        match r {
            Err(e) => Err(e),
            Ok((nd, q)) => {
                assert(parse_atom_spec(cs@, pos as int, ng as nat) == Ok::<(NodeM, int, nat), Seq<char>>((node_view(nd), q as int, ng as nat)));
                Ok((nd, q, ng))
            },
        }
    } else if c == '*' || c == '+' || c == '?' {
        Err("प्रतिमान: परिमाणक से पहले कुछ चाहिए".to_owned())
    } else if c == '\\' {
        let r = parse_escape(cs, p);
        match r {
            Err(e) => Err(e),
            Ok((nd, q)) => {
                assert(parse_atom_spec(cs@, pos as int, ng as nat) == Ok::<(NodeM, int, nat), Seq<char>>((node_view(nd), q as int, ng as nat)));
                Ok((nd, q, ng))
            },
        }
    } else {
        assert(parse_atom_spec(cs@, pos as int, ng as nat) == Ok::<(NodeM, int, nat), Seq<char>>((NodeM::Char(c), p as int, ng as nat)));
        let nd = Node::Char(c);
        proof {
            lemma_node_view_char(c);
        }
        Ok((nd, p, ng))
    }
}

/// Number of instructions a tree compiles to.
pub open spec fn inst_len(n: NodeM) -> nat
    decreases n, 0nat, 0nat,
{
    match n {
        NodeM::Concat(items) => list_len(items, 0),
        NodeM::Alt(bs) => alt_len(bs, 0),
        NodeM::Group(idx, inner) => inst_len(*inner) + if idx is Some {
            2nat
        } else {
            0nat
        },
        NodeM::Repeat(node, min, max, _) => copies_len(*node, min) + match max {
            Some(m) => opt_len(*node, if m > min {
                (m - min) as nat
            } else {
                0nat
            }),
            None => 3 + inst_len(*node),
        },
        _ => 1,
    }
}

pub open spec fn list_len(items: Seq<NodeM>, i: int) -> nat
    decreases items, 0nat, items.len() - i,
{
    if i < 0 || i >= items.len() {
        0
    } else {
        inst_len(items[i]) + list_len(items, i + 1)
    }
}

/// Alternatives: each but the last is preceded by a `Split` and followed by a `Jump`.
pub open spec fn alt_len(bs: Seq<NodeM>, i: int) -> nat
    decreases bs, 0nat, bs.len() - i,
{
    if i < 0 || i >= bs.len() {
        0
    } else if i + 1 < bs.len() {
        2 + inst_len(bs[i]) + alt_len(bs, i + 1)
    } else {
        inst_len(bs[i])
    }
}

/// `k` mandatory copies.
pub open spec fn copies_len(node: NodeM, k: nat) -> nat
    decreases node, 1nat, k,
{
    if k == 0 {
        0
    } else {
        inst_len(node) + copies_len(node, (k - 1) as nat)
    }
}

/// `k` optional copies, each behind a `Split`.
pub open spec fn opt_len(node: NodeM, k: nat) -> nat
    decreases node, 1nat, k,
{
    if k == 0 {
        0
    } else {
        1 + inst_len(node) + opt_len(node, (k - 1) as nat)
    }
}

/// The code for a tree placed at instruction `pc`, its classes numbered from
/// `cl`: the instructions and the classes it adds.
pub open spec fn compile_spec(n: NodeM, pc: int, cl: int) -> (Seq<Inst>, Seq<ClassModel>)
    decreases n, 0nat, 0nat,
{
    match n {
        NodeM::Char(c) => (seq![Inst::Char(c)], Seq::empty()),
        NodeM::Any => (seq![Inst::Any], Seq::empty()),
        NodeM::Class(d) => (seq![Inst::Class(cl as usize)], seq![d]),
        NodeM::Start => (seq![Inst::Start], Seq::empty()),
        NodeM::End => (seq![Inst::End], Seq::empty()),
        NodeM::Concat(items) => compile_list(items, 0, pc, cl),
        NodeM::Alt(bs) => compile_alt(bs, 0, pc, cl, pc + alt_len(bs, 0)),
        NodeM::Group(idx, inner) => match idx {
            Some(g) => {
                let (b, c) = compile_spec(*inner, pc + 1, cl);
                (seq![Inst::Save((2 * g) as usize)] + b + seq![Inst::Save((2 * g + 1) as usize)], c)
            },
            None => compile_spec(*inner, pc, cl),
        },
        NodeM::Repeat(node, min, max, lazy) => {
            let (a, ca) = compile_copies(*node, min, pc, cl);
            let p1 = pc + a.len();
            let c1 = cl + ca.len();
            let (b, cb) = match max {
                Some(m) => {
                    let k = if m > min {
                        (m - min) as nat
                    } else {
                        0nat
                    };
                    compile_opt(*node, k, p1, c1, lazy, p1 + opt_len(*node, k))
                },
                None => {
                    let mk = p1 + 1;
                    let body = p1 + 2;
                    let (x, cx) = compile_spec(*node, body, c1);
                    let end = body + x.len() + 1;
                    (seq![if lazy {
                        Inst::Split(end as usize, mk as usize)
                    } else {
                        Inst::Split(mk as usize, end as usize)
                    }, Inst::Mark(p1 as usize)] + x + seq![Inst::Loop(p1 as usize)], cx)
                },
            };
            (a + b, ca + cb)
        },
    }
}

pub open spec fn compile_list(items: Seq<NodeM>, i: int, pc: int, cl: int) -> (Seq<Inst>, Seq<ClassModel>)
    decreases items, 0nat, items.len() - i,
{
    if i < 0 || i >= items.len() {
        (Seq::empty(), Seq::empty())
    } else {
        let (a, ca) = compile_spec(items[i], pc, cl);
        let (b, cb) = compile_list(items, i + 1, pc + a.len(), cl + ca.len());
        (a + b, ca + cb)
    }
}

pub open spec fn compile_alt(bs: Seq<NodeM>, i: int, pc: int, cl: int, end: int) -> (Seq<Inst>, Seq<ClassModel>)
    decreases bs, 0nat, bs.len() - i,
{
    if i < 0 || i >= bs.len() {
        (Seq::empty(), Seq::empty())
    } else if i + 1 < bs.len() {
        let (b, cb) = compile_spec(bs[i], pc + 1, cl);
        let next = pc + 1 + b.len() + 1;
        let (r, cr) = compile_alt(bs, i + 1, next, cl + cb.len(), end);
        (seq![Inst::Split((pc + 1) as usize, next as usize)] + b + seq![Inst::Jump(end as usize)] + r, cb + cr)
    } else {
        compile_spec(bs[i], pc, cl)
    }
}

pub open spec fn compile_copies(node: NodeM, k: nat, pc: int, cl: int) -> (Seq<Inst>, Seq<ClassModel>)
    decreases node, 1nat, k,
{
    if k == 0 {
        (Seq::empty(), Seq::empty())
    } else {
        let (a, ca) = compile_spec(node, pc, cl);
        let (b, cb) = compile_copies(node, (k - 1) as nat, pc + a.len(), cl + ca.len());
        (a + b, ca + cb)
    }
}

/// `k` optional copies: each `Split` prefers the copy (or, lazily, the exit `end`).
pub open spec fn compile_opt(node: NodeM, k: nat, pc: int, cl: int, lazy: bool, end: int) -> (Seq<Inst>, Seq<ClassModel>)
    decreases node, 1nat, k,
{
    if k == 0 {
        (Seq::empty(), Seq::empty())
    } else {
        let body = pc + 1;
        let (a, ca) = compile_spec(node, body, cl);
        let (b, cb) = compile_opt(node, (k - 1) as nat, body + a.len(), cl + ca.len(), lazy, end);
        (seq![if lazy {
            Inst::Split(end as usize, body as usize)
        } else {
            Inst::Split(body as usize, end as usize)
        }] + a + b, ca + cb)
    }
}

/// The whole program: save the start, the pattern, save the end, match.
pub open spec fn program_spec(ast: NodeM) -> (Seq<Inst>, Seq<ClassModel>) {
    let (body, cls) = compile_spec(ast, 1, 0);
    (seq![Inst::Save(0)] + body + seq![Inst::Save(1), Inst::Match], cls)
}

/// Most instructions a compiled pattern may have.
pub const MAX_PROG: usize = 40000;

/// The regex for a pattern: parse errors as they are; a pattern left over
/// after the parse is an "unexpected character at position" error; a program
/// longer than the limit is refused.
pub open spec fn regex_spec(pat: Seq<char>) -> Result<RegexModel, Seq<char>> {
    match parse_alt_spec(pat, 0, 0) {
        Err(e) => Err(e),
        Ok((ast, p, ng)) => if p < pat.len() {
            Err("प्रतिमान: स्थान "@ + decimal_spec(p as nat) + " पर अनपेक्षित '"@ + seq![pat[p]]
                + "'"@)
        } else {
            let (prog, cls) = program_spec(ast);
            if prog.len() > MAX_PROG {
                Err("प्रतिमान बहुत बड़ा"@)
            } else {
                Ok(RegexModel { prog, classes: cls, n_groups: ng })
            }
        },
    }
}

/// Lengths are counted up to this cap (well above any accepted program).
pub const LEN_CAP: u64 = 1000000;

pub open spec fn capped(x: nat) -> u64 {
    if x < LEN_CAP {
        x as u64
    } else {
        LEN_CAP
    }
}

pub open spec fn sat(a: u64, b: u64) -> u64 {
    if a + b < LEN_CAP {
        (a + b) as u64
    } else {
        LEN_CAP
    }
}

pub proof fn lemma_capped_add(x: nat, y: nat)
    ensures
        capped(x + y) == sat(capped(x), capped(y)),
{
}

fn sat_add(a: u64, b: u64) -> (r: u64)
    requires
        a <= LEN_CAP,
        b <= LEN_CAP,
    ensures
        r == sat(a, b),
        r <= LEN_CAP,
{
    if a + b < LEN_CAP {
        a + b
    } else {
        LEN_CAP
    }
}

pub proof fn lemma_compile_len(n: NodeM, pc: int, cl: int)
    ensures
        compile_spec(n, pc, cl).0.len() == inst_len(n),
    decreases n, 0nat, 0nat,
{
    match n {
        NodeM::Concat(items) => lemma_list_len(items, 0, pc, cl),
        NodeM::Alt(bs) => lemma_alt_len(bs, 0, pc, cl, pc + alt_len(bs, 0)),
        NodeM::Group(idx, inner) => match idx {
            Some(g) => lemma_compile_len(*inner, pc + 1, cl),
            None => lemma_compile_len(*inner, pc, cl),
        },
        NodeM::Repeat(node, min, max, lazy) => {
            lemma_copies_len(*node, min, pc, cl);
            let (a, ca) = compile_copies(*node, min, pc, cl);
            let p1 = pc + a.len();
            let c1 = cl + ca.len();
            match max {
                Some(m) => {
                    let k = if m > min {
                        (m - min) as nat
                    } else {
                        0nat
                    };
                    lemma_opt_len(*node, k, p1, c1, lazy, p1 + opt_len(*node, k));
                },
                None => lemma_compile_len(*node, p1 + 2, c1),
            }
        },
        _ => {},
    }
}

pub proof fn lemma_list_len(items: Seq<NodeM>, i: int, pc: int, cl: int)
    ensures
        compile_list(items, i, pc, cl).0.len() == list_len(items, i),
    decreases items, 0nat, items.len() - i,
{
    if 0 <= i < items.len() {
        lemma_compile_len(items[i], pc, cl);
        let (a, ca) = compile_spec(items[i], pc, cl);
        lemma_list_len(items, i + 1, pc + a.len(), cl + ca.len());
    }
}

pub proof fn lemma_alt_len(bs: Seq<NodeM>, i: int, pc: int, cl: int, end: int)
    ensures
        compile_alt(bs, i, pc, cl, end).0.len() == alt_len(bs, i),
    decreases bs, 0nat, bs.len() - i,
{
    if 0 <= i < bs.len() {
        if i + 1 < bs.len() {
            lemma_compile_len(bs[i], pc + 1, cl);
            let (b, cb) = compile_spec(bs[i], pc + 1, cl);
            lemma_alt_len(bs, i + 1, pc + 1 + b.len() + 1, cl + cb.len(), end);
        } else {
            lemma_compile_len(bs[i], pc, cl);
        }
    }
}

pub proof fn lemma_copies_len(node: NodeM, k: nat, pc: int, cl: int)
    ensures
        compile_copies(node, k, pc, cl).0.len() == copies_len(node, k),
    decreases node, 1nat, k,
{
    if k > 0 {
        lemma_compile_len(node, pc, cl);
        let (a, ca) = compile_spec(node, pc, cl);
        lemma_copies_len(node, (k - 1) as nat, pc + a.len(), cl + ca.len());
    }
}

pub proof fn lemma_opt_len(node: NodeM, k: nat, pc: int, cl: int, lazy: bool, end: int)
    ensures
        compile_opt(node, k, pc, cl, lazy, end).0.len() == opt_len(node, k),
    decreases node, 1nat, k,
{
    if k > 0 {
        lemma_compile_len(node, pc + 1, cl);
        let (a, ca) = compile_spec(node, pc + 1, cl);
        lemma_opt_len(node, (k - 1) as nat, pc + 1 + a.len(), cl + ca.len(), lazy, end);
    }
}

fn concat_len(items: &Vec<Node>) -> (r: u64)
    ensures
        r == capped(list_len(nodes_view(items@), 0)),
    decreases items@, 1nat,
{
    let ghost v = nodes_view(items@);
    proof {
        lemma_nodes_view(items@);
    }
    let mut acc: u64 = 0;
    let mut i = items.len();
    while i > 0
        invariant
            i <= items@.len(),
            v == nodes_view(items@),
            v.len() == items@.len(),
            forall|k: int| 0 <= k < v.len() ==> #[trigger] v[k] == node_view(items@[k]),
            acc == capped(list_len(v, i as int)),
        decreases i,
    {
        let l = node_len(&items[i - 1]);
        proof {
            lemma_capped_add(inst_len(v[i - 1]), list_len(v, i as int));
        }
        acc = sat_add(l, acc);
        i = i - 1;
    }
    acc
}

fn alts_len(bs: &Vec<Node>) -> (r: u64)
    ensures
        r == capped(alt_len(nodes_view(bs@), 0)),
    decreases bs@, 1nat,
{
    let ghost v = nodes_view(bs@);
    proof {
        lemma_nodes_view(bs@);
    }
    let n = bs.len();
    if n == 0 {
        return 0;
    }
    let mut acc: u64 = node_len(&bs[n - 1]);
    assert(v[n - 1] == node_view(bs@[n - 1]));
    let mut i = n - 1;
    while i > 0
        invariant
            i < n,
            n == bs@.len(),
            v == nodes_view(bs@),
            v.len() == n,
            forall|k: int| 0 <= k < v.len() ==> #[trigger] v[k] == node_view(bs@[k]),
            acc == capped(alt_len(v, i as int)),
        decreases i,
    {
        let l = node_len(&bs[i - 1]);
        proof {
            lemma_capped_add(2, inst_len(v[i - 1]));
            lemma_capped_add(2 + inst_len(v[i - 1]), alt_len(v, i as int));
        }
        acc = sat_add(sat_add(2, l), acc);
        i = i - 1;
    }
    acc
}

/// The number of instructions the tree compiles to, capped at `LEN_CAP`.
fn node_len(n: &Node) -> (r: u64)
    ensures
        r == capped(inst_len(node_view(*n))),
    decreases n, 0nat,
{
    match n {
        Node::Concat(items) => concat_len(items),
        Node::Alt(bs) => alts_len(bs),
        Node::Group { idx, inner } => {
            let l = node_len(inner);
            proof {
                lemma_capped_add(inst_len(node_view(**inner)), 2);
            }
            match idx {
                Some(_) => sat_add(l, 2),
                None => l,
            }
        },
        Node::Repeat { node, min, max, .. } => {
            let l = node_len(node);
            let ghost nv = node_view(**node);
            let mut a: u64 = 0;
            let mut j: u32 = 0;
            while j < *min
                invariant
                    j <= *min,
                    l == capped(inst_len(nv)),
                    a == capped(copies_len(nv, j as nat)),
                decreases *min - j,
            {
                proof {
                    lemma_capped_add(inst_len(nv), copies_len(nv, j as nat));
                }
                a = sat_add(l, a);
                j = j + 1;
            }
            let b = match max {
                Some(m) => {
                    let k: u32 = if *m > *min {
                        *m - *min
                    } else {
                        0
                    };
                    let mut acc: u64 = 0;
                    let mut t: u32 = 0;
                    while t < k
                        invariant
                            t <= k,
                            l == capped(inst_len(nv)),
                            acc == capped(opt_len(nv, t as nat)),
                        decreases k - t,
                    {
                        proof {
                            lemma_capped_add(1, inst_len(nv));
                            lemma_capped_add(1 + inst_len(nv), opt_len(nv, t as nat));
                        }
                        acc = sat_add(sat_add(1, l), acc);
                        t = t + 1;
                    }
                    acc
                },
                None => {
                    proof {
                        lemma_capped_add(3, inst_len(nv));
                    }
                    sat_add(3, l)
                },
            };
            proof {
                let mx = match *max {
                    Some(m) => opt_len(nv, if m > *min {
                        (m - *min) as nat
                    } else {
                        0nat
                    }),
                    None => 3 + inst_len(nv),
                };
                lemma_capped_add(copies_len(nv, *min as nat), mx);
            }
            sat_add(a, b)
        },
        _ => 1,
    }
}

struct RxCompiler {
    prog: Vec<Inst>,
    classes: Vec<ClassDef>,
}

impl RxCompiler {
    /// Appends the code for `n` (see `compile_spec`).
    fn emit_node(&mut self, n: &Node, Ghost(b): Ghost<nat>)
        requires
            old(self).prog@.len() + inst_len(node_view(*n)) <= MAX_PROG,
            groups_within(node_view(*n), b),
            2 * b + 1 <= usize::MAX,
        ensures
            final(self).prog@ == old(self).prog@ + compile_spec(
                node_view(*n),
                old(self).prog@.len() as int,
                old(self).classes@.len() as int,
            ).0,
            classes_view(final(self).classes@) == classes_view(old(self).classes@) + compile_spec(
                node_view(*n),
                old(self).prog@.len() as int,
                old(self).classes@.len() as int,
            ).1,
        decreases n, 0nat,
    {
        let ghost pc = self.prog@.len() as int;
        let ghost cl = self.classes@.len() as int;
        proof {
            lemma_compile_len(node_view(*n), pc, cl);
        }
        match n {
            Node::Char(c) => {
                self.prog.push(Inst::Char(*c));
            },
            Node::Any => {
                self.prog.push(Inst::Any);
            },
            Node::Start => {
                self.prog.push(Inst::Start);
            },
            Node::End => {
                self.prog.push(Inst::End);
            },
            Node::Class(d) => {
                let ghost before = classes_view(self.classes@);
                self.classes.push(d.copy());
                assert(classes_view(self.classes@) =~= before.push(d@));
                let k = self.classes.len() - 1;
                self.prog.push(Inst::Class(k));
            },
            Node::Concat(items) => {
                self.emit_list(items, Ghost(b));
            },
            Node::Alt(bs) => {
                self.emit_alt(bs, Ghost(b));
            },
            Node::Group { idx, inner } => {
                match idx {
                    Some(g) => {
                        self.prog.push(Inst::Save(2 * *g));
                        self.emit_node(inner, Ghost(b));
                        self.prog.push(Inst::Save(2 * *g + 1));
                    },
                    None => {
                        self.emit_node(inner, Ghost(b));
                    },
                }
            },
            Node::Repeat { node, min, max, lazy } => {
                self.emit_repeat(node, *min, *max, *lazy, Ghost(b));
            },
        }
        assert(self.prog@ =~= old(self).prog@ + compile_spec(node_view(*n), pc, cl).0);
        assert(classes_view(self.classes@) =~= classes_view(old(self).classes@) + compile_spec(
            node_view(*n),
            pc,
            cl,
        ).1);
    }
}



proof fn lemma_opt_len_mono(node: NodeM, t: nat, k: nat)
    requires
        t <= k,
    ensures
        opt_len(node, t) <= opt_len(node, k),
    decreases k - t,
{
    if t < k {
        lemma_opt_len_mono(node, t, (k - 1) as nat);
    }
}

impl RxCompiler {
    fn emit_list(&mut self, items: &Vec<Node>, Ghost(b): Ghost<nat>)
        requires
            old(self).prog@.len() + list_len(nodes_view(items@), 0) <= MAX_PROG,
            list_within(nodes_view(items@), b),
            2 * b + 1 <= usize::MAX,
        ensures
            final(self).prog@ == old(self).prog@ + compile_list(
                nodes_view(items@),
                0,
                old(self).prog@.len() as int,
                old(self).classes@.len() as int,
            ).0,
            classes_view(final(self).classes@) == classes_view(old(self).classes@) + compile_list(
                nodes_view(items@),
                0,
                old(self).prog@.len() as int,
                old(self).classes@.len() as int,
            ).1,
        decreases items@, 1nat,
    {
        let ghost v = nodes_view(items@);
        let ghost pc = self.prog@.len() as int;
        let ghost cl = self.classes@.len() as int;
        let ghost p0 = self.prog@;
        let ghost c0 = classes_view(self.classes@);
        proof {
            lemma_nodes_view(items@);
        }
        let mut i: usize = 0;
        while i < items.len()
            invariant
                i <= items@.len(),
                v == nodes_view(items@),
                v.len() == items@.len(),
                forall|k: int| 0 <= k < v.len() ==> #[trigger] v[k] == node_view(items@[k]),
                list_within(v, b),
                2 * b + 1 <= usize::MAX,
                self.prog@.len() + list_len(v, i as int) <= MAX_PROG,
                p0 + compile_list(v, 0, pc, cl).0 == self.prog@ + compile_list(
                    v,
                    i as int,
                    self.prog@.len() as int,
                    self.classes@.len() as int,
                ).0,
                c0 + compile_list(v, 0, pc, cl).1 == classes_view(self.classes@) + compile_list(
                    v,
                    i as int,
                    self.prog@.len() as int,
                    self.classes@.len() as int,
                ).1,
            decreases items@.len() - i,
        {
            let ghost pp = self.prog@;
            let ghost cc = classes_view(self.classes@);
            let ghost (a, ca) = compile_spec(v[i as int], pp.len() as int, cc.len() as int);
            proof {
                lemma_compile_len(v[i as int], pp.len() as int, self.classes@.len() as int);
                assert(cc.len() == self.classes@.len());
            }
            self.emit_node(&items[i], Ghost(b));
            i = i + 1;
            assert(pp + (a + compile_list(v, i as int, (pp.len() + a.len()) as int, (cc.len() + ca.len()) as int).0)
                =~= self.prog@ + compile_list(v, i as int, (pp.len() + a.len()) as int, (cc.len() + ca.len()) as int).0);
            assert(cc + (ca + compile_list(v, i as int, (pp.len() + a.len()) as int, (cc.len() + ca.len()) as int).1)
                =~= classes_view(self.classes@) + compile_list(v, i as int, (pp.len() + a.len()) as int, (cc.len() + ca.len()) as int).1);
        }
        assert(self.prog@ + compile_list(v, i as int, self.prog@.len() as int, self.classes@.len() as int).0 =~= self.prog@);
        assert(classes_view(self.classes@) + compile_list(v, i as int, self.prog@.len() as int, self.classes@.len() as int).1 =~= classes_view(self.classes@));
    }

    fn emit_alt(&mut self, bs: &Vec<Node>, Ghost(b): Ghost<nat>)
        requires
            old(self).prog@.len() + alt_len(nodes_view(bs@), 0) <= MAX_PROG,
            list_within(nodes_view(bs@), b),
            2 * b + 1 <= usize::MAX,
        ensures
            final(self).prog@ == old(self).prog@ + compile_alt(
                nodes_view(bs@),
                0,
                old(self).prog@.len() as int,
                old(self).classes@.len() as int,
                (old(self).prog@.len() + alt_len(nodes_view(bs@), 0)) as int,
            ).0,
            classes_view(final(self).classes@) == classes_view(old(self).classes@) + compile_alt(
                nodes_view(bs@),
                0,
                old(self).prog@.len() as int,
                old(self).classes@.len() as int,
                (old(self).prog@.len() + alt_len(nodes_view(bs@), 0)) as int,
            ).1,
        decreases bs@, 1nat,
    {
        let ghost v = nodes_view(bs@);
        let ghost pc = self.prog@.len() as int;
        let ghost cl = self.classes@.len() as int;
        let ghost p0 = self.prog@;
        let ghost c0 = classes_view(self.classes@);
        proof {
            lemma_nodes_view(bs@);
        }
        let n = bs.len();
        if n == 0 {
            assert(self.prog@ =~= p0 + compile_alt(v, 0, pc, cl, pc + alt_len(v, 0)).0);
            assert(classes_view(self.classes@) =~= c0 + compile_alt(v, 0, pc, cl, pc + alt_len(v, 0)).1);
            return;
        }
        let total = alts_len(bs);
        let end = self.prog.len() + total as usize;
        assert(end == pc + alt_len(v, 0));
        let mut i: usize = 0;
        while i + 1 < n
            invariant
                i < n,
                n == bs@.len(),
                v == nodes_view(bs@),
                v.len() == n,
                forall|k: int| 0 <= k < v.len() ==> #[trigger] v[k] == node_view(bs@[k]),
                list_within(v, b),
                2 * b + 1 <= usize::MAX,
                end == pc + alt_len(v, 0),
                self.prog@.len() + alt_len(v, i as int) <= MAX_PROG,
                p0 + compile_alt(v, 0, pc, cl, end as int).0 == self.prog@ + compile_alt(
                    v,
                    i as int,
                    self.prog@.len() as int,
                    self.classes@.len() as int,
                    end as int,
                ).0,
                c0 + compile_alt(v, 0, pc, cl, end as int).1 == classes_view(self.classes@)
                    + compile_alt(
                    v,
                    i as int,
                    self.prog@.len() as int,
                    self.classes@.len() as int,
                    end as int,
                ).1,
            decreases n - i,
        {
            let ghost pp = self.prog@;
            let ghost cc = classes_view(self.classes@);
            let sp = self.prog.len();
            let bl = node_len(&bs[i]);
            proof {
                lemma_compile_len(v[i as int], sp + 1, cc.len() as int);
            }
            let next = sp + 1 + bl as usize + 1;
            self.prog.push(Inst::Split(sp + 1, next));
            self.emit_node(&bs[i], Ghost(b));
            self.prog.push(Inst::Jump(end));
            let ghost (x, cx) = compile_spec(v[i as int], sp + 1, cc.len() as int);
            i = i + 1;
            assert(pp + (seq![Inst::Split((sp + 1) as usize, next as usize)] + x + seq![Inst::Jump(end as usize)]
                + compile_alt(v, i as int, next as int, (cc.len() + cx.len()) as int, end as int).0)
                =~= self.prog@ + compile_alt(v, i as int, next as int, (cc.len() + cx.len()) as int, end as int).0);
            assert(cc + (cx + compile_alt(v, i as int, next as int, (cc.len() + cx.len()) as int, end as int).1)
                =~= classes_view(self.classes@) + compile_alt(v, i as int, next as int, (cc.len() + cx.len()) as int, end as int).1);
        }
        let ghost pp = self.prog@;
        let ghost cc = classes_view(self.classes@);
        proof {
            lemma_compile_len(v[i as int], pp.len() as int, cc.len() as int);
        }
        self.emit_node(&bs[i], Ghost(b));
    }

    fn emit_repeat(&mut self, node: &Box<Node>, min: u32, max: Option<u32>, lazy: bool, Ghost(b): Ghost<nat>)
        requires
            old(self).prog@.len() + inst_len(
                NodeM::Repeat(Box::new(node_view(**node)), min as nat, match max {
                    Some(m) => Some(m as nat),
                    None => None,
                }, lazy),
            ) <= MAX_PROG,
            groups_within(node_view(**node), b),
            2 * b + 1 <= usize::MAX,
        ensures
            final(self).prog@ == old(self).prog@ + compile_spec(
                NodeM::Repeat(Box::new(node_view(**node)), min as nat, match max {
                    Some(m) => Some(m as nat),
                    None => None,
                }, lazy),
                old(self).prog@.len() as int,
                old(self).classes@.len() as int,
            ).0,
            classes_view(final(self).classes@) == classes_view(old(self).classes@) + compile_spec(
                NodeM::Repeat(Box::new(node_view(**node)), min as nat, match max {
                    Some(m) => Some(m as nat),
                    None => None,
                }, lazy),
                old(self).prog@.len() as int,
                old(self).classes@.len() as int,
            ).1,
        decreases node, 1nat,
    {
        let ghost nv = node_view(**node);
        let ghost pc = self.prog@.len() as int;
        let ghost cl = self.classes@.len() as int;
        let ghost p0 = self.prog@;
        let ghost c0 = classes_view(self.classes@);
        let ghost mx: Option<nat> = match max {
            Some(m) => Some(m as nat),
            None => None,
        };
        proof {
            lemma_copies_len(nv, min as nat, pc, cl);
        }
        let mut j: u32 = 0;
        while j < min
            invariant
                j <= min,
                nv == node_view(**node),
                groups_within(nv, b),
                2 * b + 1 <= usize::MAX,
                self.prog@.len() + copies_len(nv, (min - j) as nat) + inst_len(
                    NodeM::Repeat(Box::new(nv), min as nat, mx, lazy),
                ) - copies_len(nv, min as nat) <= MAX_PROG,
                p0 + compile_copies(nv, min as nat, pc, cl).0 == self.prog@ + compile_copies(
                    nv,
                    (min - j) as nat,
                    self.prog@.len() as int,
                    self.classes@.len() as int,
                ).0,
                c0 + compile_copies(nv, min as nat, pc, cl).1 == classes_view(self.classes@)
                    + compile_copies(
                    nv,
                    (min - j) as nat,
                    self.prog@.len() as int,
                    self.classes@.len() as int,
                ).1,
            decreases min - j,
        {
            let ghost pp = self.prog@;
            let ghost cc = classes_view(self.classes@);
            proof {
                lemma_compile_len(nv, pp.len() as int, cc.len() as int);
            }
            self.emit_node(node, Ghost(b));
            let ghost (x, cx) = compile_spec(nv, pp.len() as int, cc.len() as int);
            j = j + 1;
            assert(pp + (x + compile_copies(nv, (min - j) as nat, (pp.len() + x.len()) as int, (cc.len() + cx.len()) as int).0)
                =~= self.prog@ + compile_copies(nv, (min - j) as nat, (pp.len() + x.len()) as int, (cc.len() + cx.len()) as int).0);
            assert(cc + (cx + compile_copies(nv, (min - j) as nat, (pp.len() + x.len()) as int, (cc.len() + cx.len()) as int).1)
                =~= classes_view(self.classes@) + compile_copies(nv, (min - j) as nat, (pp.len() + x.len()) as int, (cc.len() + cx.len()) as int).1);
        }
        let p1 = self.prog.len();
        let ghost c1 = self.classes@.len() as int;
        let ghost pa = self.prog@;
        let ghost ca = classes_view(self.classes@);
        assert(pa =~= p0 + compile_copies(nv, min as nat, pc, cl).0);
        assert(ca =~= c0 + compile_copies(nv, min as nat, pc, cl).1);
        let l = node_len(node);
        match max {
            Some(m) => {
                let k: u32 = if m > min {
                    m - min
                } else {
                    0
                };
                let mut end = p1;
                let mut t: u32 = 0;
                while t < k
                    invariant
                        t <= k,
                        l == capped(inst_len(nv)),
                        p1 + opt_len(nv, k as nat) <= MAX_PROG,
                        end == p1 + opt_len(nv, t as nat),
                    decreases k - t,
                {
                    proof {
                        lemma_opt_len_mono(nv, (t + 1) as nat, k as nat);
                    }
                    end = end + 1 + l as usize;
                    t = t + 1;
                }
                proof {
                    lemma_opt_len(nv, k as nat, p1 as int, c1, lazy, end as int);
                }
                let mut t: u32 = 0;
                while t < k
                    invariant
                        t <= k,
                        nv == node_view(**node),
                        groups_within(nv, b),
                        2 * b + 1 <= usize::MAX,
                        end == p1 + opt_len(nv, k as nat),
                        self.prog@.len() + opt_len(nv, (k - t) as nat) <= MAX_PROG,
                        pa + compile_opt(nv, k as nat, p1 as int, c1, lazy, end as int).0 == self.prog@
                            + compile_opt(
                            nv,
                            (k - t) as nat,
                            self.prog@.len() as int,
                            self.classes@.len() as int,
                            lazy,
                            end as int,
                        ).0,
                        ca + compile_opt(nv, k as nat, p1 as int, c1, lazy, end as int).1 == classes_view(
                            self.classes@,
                        ) + compile_opt(
                            nv,
                            (k - t) as nat,
                            self.prog@.len() as int,
                            self.classes@.len() as int,
                            lazy,
                            end as int,
                        ).1,
                    decreases k - t,
                {
                    let ghost pp = self.prog@;
                    let ghost cc = classes_view(self.classes@);
                    let sp = self.prog.len();
                    let body = sp + 1;
                    if lazy {
                        self.prog.push(Inst::Split(end, body));
                    } else {
                        self.prog.push(Inst::Split(body, end));
                    }
                    proof {
                        lemma_compile_len(nv, body as int, cc.len() as int);
                    }
                    self.emit_node(node, Ghost(b));
                    let ghost (x, cx) = compile_spec(nv, body as int, cc.len() as int);
                    t = t + 1;
                    assert(pp + (seq![if lazy {
                        Inst::Split(end as usize, body as usize)
                    } else {
                        Inst::Split(body as usize, end as usize)
                    }] + x + compile_opt(nv, (k - t) as nat, (body + x.len()) as int, (cc.len() + cx.len()) as int, lazy, end as int).0)
                        =~= self.prog@ + compile_opt(nv, (k - t) as nat, (body + x.len()) as int, (cc.len() + cx.len()) as int, lazy, end as int).0);
                    assert(cc + (cx + compile_opt(nv, (k - t) as nat, (body + x.len()) as int, (cc.len() + cx.len()) as int, lazy, end as int).1)
                        =~= classes_view(self.classes@) + compile_opt(nv, (k - t) as nat, (body + x.len()) as int, (cc.len() + cx.len()) as int, lazy, end as int).1);
                }
                assert(self.prog@ =~= pa + compile_opt(nv, k as nat, p1 as int, c1, lazy, end as int).0);
                assert(classes_view(self.classes@) =~= ca + compile_opt(nv, k as nat, p1 as int, c1, lazy, end as int).1);
            },
            None => {
                let mk = p1 + 1;
                let body = p1 + 2;
                let end = body + l as usize + 1;
                proof {
                    lemma_compile_len(nv, body as int, c1);
                }
                if lazy {
                    self.prog.push(Inst::Split(end, mk));
                } else {
                    self.prog.push(Inst::Split(mk, end));
                }
                self.prog.push(Inst::Mark(p1));
                self.emit_node(node, Ghost(b));
                self.prog.push(Inst::Loop(p1));
            },
        }
        assert(self.prog@ =~= p0 + compile_spec(NodeM::Repeat(Box::new(nv), min as nat, mx, lazy), pc, cl).0);
        assert(classes_view(self.classes@) =~= c0 + compile_spec(NodeM::Repeat(Box::new(nv), min as nat, mx, lazy), pc, cl).1);
    }
}

/// Every jump target of `code` lies in `lo..=hi`, every class index below
/// `ncl` and every save slot below `nsv`.
pub open spec fn code_ok(code: Seq<Inst>, lo: int, hi: int, ncl: int, nsv: int) -> bool {
    forall|i: int| 0 <= i < code.len() ==> inst_ok(#[trigger] code[i], lo, hi, ncl, nsv)
}

pub open spec fn inst_ok(x: Inst, lo: int, hi: int, ncl: int, nsv: int) -> bool {
    match x {
        Inst::Split(a, b) => lo <= a <= hi && lo <= b <= hi,
        Inst::Jump(a) => lo <= a <= hi,
        Inst::Mark(a) => lo <= a <= hi,
        Inst::Loop(a) => lo <= a <= hi,
        Inst::Class(k) => k < ncl,
        Inst::Save(n) => n < nsv,
        _ => true,
    }
}

proof fn lemma_code_concat(a: Seq<Inst>, b: Seq<Inst>, lo: int, hi: int, ncl: int, nsv: int)
    requires
        code_ok(a, lo, hi, ncl, nsv),
        code_ok(b, lo, hi, ncl, nsv),
    ensures
        code_ok(a + b, lo, hi, ncl, nsv),
{
    assert forall|i: int| 0 <= i < (a + b).len() implies inst_ok(#[trigger] (a + b)[i], lo, hi, ncl, nsv) by {
        if i < a.len() {
            assert((a + b)[i] == a[i]);
        } else {
            assert((a + b)[i] == b[i - a.len()]);
        }
    }
}

proof fn lemma_code_widen(a: Seq<Inst>, lo: int, hi: int, ncl: int, nsv: int, lo2: int, hi2: int, ncl2: int, nsv2: int)
    requires
        code_ok(a, lo, hi, ncl, nsv),
        lo2 <= lo,
        hi <= hi2,
        ncl <= ncl2,
        nsv <= nsv2,
    ensures
        code_ok(a, lo2, hi2, ncl2, nsv2),
{
    assert forall|i: int| 0 <= i < a.len() implies inst_ok(#[trigger] a[i], lo2, hi2, ncl2, nsv2) by {
        assert(inst_ok(a[i], lo, hi, ncl, nsv));
    }
}

/// Compiled code jumps only within itself (or to just after it), uses only
/// its own classes, and saves only into the slots of its groups.
pub proof fn lemma_compile_ok(n: NodeM, pc: int, cl: int, b: nat)
    requires
        0 <= pc,
        0 <= cl,
        pc + inst_len(n) <= MAX_PROG,
        groups_within(n, b),
        2 * b + 1 <= usize::MAX,
        cl <= pc,
    ensures
        code_ok(
            compile_spec(n, pc, cl).0,
            pc,
            pc + inst_len(n),
            cl + compile_spec(n, pc, cl).1.len(),
            (2 * b + 2) as int,
        ),
        compile_spec(n, pc, cl).1.len() <= inst_len(n),
    decreases n, 0nat, 0nat,
{
    lemma_compile_len(n, pc, cl);
    match n {
        NodeM::Concat(items) => lemma_list_ok(items, 0, pc, cl, b),
        NodeM::Alt(bs) => lemma_alt_ok(bs, 0, pc, cl, pc + alt_len(bs, 0), b),
        NodeM::Group(idx, inner) => match idx {
            Some(g) => {
                lemma_compile_ok(*inner, pc + 1, cl, b);
                let (x, cx) = compile_spec(*inner, pc + 1, cl);
                let hi = pc + inst_len(n);
                let ncl = cl + cx.len();
                lemma_code_widen(x, pc + 1, pc + 1 + inst_len(*inner), ncl, (2 * b + 2) as int, pc, hi, ncl, (2 * b + 2) as int);
                assert(code_ok(seq![Inst::Save((2 * g) as usize)], pc, hi, ncl, (2 * b + 2) as int));
                assert(code_ok(seq![Inst::Save((2 * g + 1) as usize)], pc, hi, ncl, (2 * b + 2) as int));
                lemma_code_concat(seq![Inst::Save((2 * g) as usize)], x, pc, hi, ncl, (2 * b + 2) as int);
                lemma_code_concat(seq![Inst::Save((2 * g) as usize)] + x, seq![Inst::Save((2 * g + 1) as usize)], pc, hi, ncl, (2 * b + 2) as int);
            },
            None => lemma_compile_ok(*inner, pc, cl, b),
        },
        NodeM::Repeat(node, min, max, lazy) => {
            lemma_copies_ok(*node, min, pc, cl, b);
            lemma_copies_len(*node, min, pc, cl);
            let (a, ca) = compile_copies(*node, min, pc, cl);
            let p1 = pc + a.len();
            let c1 = cl + ca.len();
            let hi = pc + inst_len(n);
            match max {
                Some(m) => {
                    let k = if m > min {
                        (m - min) as nat
                    } else {
                        0nat
                    };
                    let end = p1 + opt_len(*node, k);
                    lemma_opt_ok(*node, k, p1, c1, lazy, end, b);
                    lemma_opt_len(*node, k, p1, c1, lazy, end);
                    let (x, cx) = compile_opt(*node, k, p1, c1, lazy, end);
                    let ncl = c1 + cx.len();
                    lemma_code_widen(a, pc, p1, c1, (2 * b + 2) as int, pc, hi, ncl, (2 * b + 2) as int);
                    lemma_code_widen(x, p1, end, ncl, (2 * b + 2) as int, pc, hi, ncl, (2 * b + 2) as int);
                    lemma_code_concat(a, x, pc, hi, ncl, (2 * b + 2) as int);
                },
                None => {
                    let mk = p1 + 1;
                    let body = p1 + 2;
                    lemma_compile_ok(*node, body, c1, b);
                    let (x, cx) = compile_spec(*node, body, c1);
                    let end = body + x.len() + 1;
                    let ncl = c1 + cx.len();
                    let sp = if lazy {
                        Inst::Split(end as usize, mk as usize)
                    } else {
                        Inst::Split(mk as usize, end as usize)
                    };
                    let head = seq![sp, Inst::Mark(p1 as usize)];
                    lemma_code_widen(a, pc, p1, c1, (2 * b + 2) as int, pc, hi, ncl, (2 * b + 2) as int);
                    lemma_code_widen(x, body, body + inst_len(*node), ncl, (2 * b + 2) as int, pc, hi, ncl, (2 * b + 2) as int);
                    assert(code_ok(head, pc, hi, ncl, (2 * b + 2) as int)) by {
                        assert forall|i: int| 0 <= i < head.len() implies inst_ok(#[trigger] head[i], pc, hi, ncl, (2 * b + 2) as int) by {
                        }
                    }
                    assert(code_ok(seq![Inst::Loop(p1 as usize)], pc, hi, ncl, (2 * b + 2) as int));
                    lemma_code_concat(head, x, pc, hi, ncl, (2 * b + 2) as int);
                    lemma_code_concat(head + x, seq![Inst::Loop(p1 as usize)], pc, hi, ncl, (2 * b + 2) as int);
                    lemma_code_concat(a, head + x + seq![Inst::Loop(p1 as usize)], pc, hi, ncl, (2 * b + 2) as int);
                },
            }
        },
        NodeM::Class(d) => {},
        _ => {},
    }
}

pub proof fn lemma_list_ok(items: Seq<NodeM>, i: int, pc: int, cl: int, b: nat)
    requires
        0 <= pc,
        0 <= cl,
        pc + list_len(items, i) <= MAX_PROG,
        list_within(items, b),
        2 * b + 1 <= usize::MAX,
        cl <= pc,
    ensures
        code_ok(
            compile_list(items, i, pc, cl).0,
            pc,
            pc + list_len(items, i),
            cl + compile_list(items, i, pc, cl).1.len(),
            (2 * b + 2) as int,
        ),
        compile_list(items, i, pc, cl).1.len() <= list_len(items, i),
    decreases items, 0nat, items.len() - i,
{
    if 0 <= i < items.len() {
        lemma_compile_ok(items[i], pc, cl, b);
        lemma_compile_len(items[i], pc, cl);
        let (a, ca) = compile_spec(items[i], pc, cl);
        let p1 = pc + a.len();
        let c1 = cl + ca.len();
        lemma_list_ok(items, i + 1, p1, c1, b);
        let (r, cr) = compile_list(items, i + 1, p1, c1);
        let hi = pc + list_len(items, i);
        let ncl = c1 + cr.len();
        lemma_code_widen(a, pc, p1, c1, (2 * b + 2) as int, pc, hi, ncl, (2 * b + 2) as int);
        lemma_code_widen(r, p1, p1 + list_len(items, i + 1), ncl, (2 * b + 2) as int, pc, hi, ncl, (2 * b + 2) as int);
        lemma_code_concat(a, r, pc, hi, ncl, (2 * b + 2) as int);
    }
}

pub proof fn lemma_alt_ok(bs: Seq<NodeM>, i: int, pc: int, cl: int, end: int, b: nat)
    requires
        0 <= pc,
        0 <= cl,
        pc + alt_len(bs, i) <= end <= MAX_PROG,
        list_within(bs, b),
        2 * b + 1 <= usize::MAX,
        cl <= pc,
    ensures
        code_ok(
            compile_alt(bs, i, pc, cl, end).0,
            pc,
            end,
            cl + compile_alt(bs, i, pc, cl, end).1.len(),
            (2 * b + 2) as int,
        ),
        compile_alt(bs, i, pc, cl, end).1.len() <= alt_len(bs, i),
    decreases bs, 0nat, bs.len() - i,
{
    if 0 <= i < bs.len() {
        if i + 1 < bs.len() {
            lemma_compile_ok(bs[i], pc + 1, cl, b);
            lemma_compile_len(bs[i], pc + 1, cl);
            let (x, cx) = compile_spec(bs[i], pc + 1, cl);
            let next = pc + 1 + x.len() + 1;
            let c1 = cl + cx.len();
            lemma_alt_ok(bs, i + 1, next, c1, end, b);
            let (r, cr) = compile_alt(bs, i + 1, next, c1, end);
            let ncl = c1 + cr.len();
            let sp = Inst::Split((pc + 1) as usize, next as usize);
            let jp = Inst::Jump(end as usize);
            lemma_code_widen(x, pc + 1, pc + 1 + inst_len(bs[i]), c1, (2 * b + 2) as int, pc, end, ncl, (2 * b + 2) as int);
            lemma_code_widen(r, next, end, ncl, (2 * b + 2) as int, pc, end, ncl, (2 * b + 2) as int);
            assert(code_ok(seq![sp], pc, end, ncl, (2 * b + 2) as int));
            assert(code_ok(seq![jp], pc, end, ncl, (2 * b + 2) as int));
            lemma_code_concat(seq![sp], x, pc, end, ncl, (2 * b + 2) as int);
            lemma_code_concat(seq![sp] + x, seq![jp], pc, end, ncl, (2 * b + 2) as int);
            lemma_code_concat(seq![sp] + x + seq![jp], r, pc, end, ncl, (2 * b + 2) as int);
        } else {
            lemma_compile_ok(bs[i], pc, cl, b);
            let (x, cx) = compile_spec(bs[i], pc, cl);
            lemma_code_widen(x, pc, pc + inst_len(bs[i]), cl + cx.len(), (2 * b + 2) as int, pc, end, cl + cx.len(), (2 * b + 2) as int);
        }
    }
}

pub proof fn lemma_copies_ok(node: NodeM, k: nat, pc: int, cl: int, b: nat)
    requires
        0 <= pc,
        0 <= cl,
        pc + copies_len(node, k) <= MAX_PROG,
        groups_within(node, b),
        2 * b + 1 <= usize::MAX,
        cl <= pc,
    ensures
        code_ok(
            compile_copies(node, k, pc, cl).0,
            pc,
            pc + copies_len(node, k),
            cl + compile_copies(node, k, pc, cl).1.len(),
            (2 * b + 2) as int,
        ),
        compile_copies(node, k, pc, cl).1.len() <= copies_len(node, k),
    decreases node, 1nat, k,
{
    if k > 0 {
        lemma_compile_ok(node, pc, cl, b);
        lemma_compile_len(node, pc, cl);
        let (a, ca) = compile_spec(node, pc, cl);
        let p1 = pc + a.len();
        let c1 = cl + ca.len();
        lemma_copies_ok(node, (k - 1) as nat, p1, c1, b);
        let (r, cr) = compile_copies(node, (k - 1) as nat, p1, c1);
        let hi = pc + copies_len(node, k);
        let ncl = c1 + cr.len();
        lemma_code_widen(a, pc, p1, c1, (2 * b + 2) as int, pc, hi, ncl, (2 * b + 2) as int);
        lemma_code_widen(r, p1, p1 + copies_len(node, (k - 1) as nat), ncl, (2 * b + 2) as int, pc, hi, ncl, (2 * b + 2) as int);
        lemma_code_concat(a, r, pc, hi, ncl, (2 * b + 2) as int);
    }
}

pub proof fn lemma_opt_ok(node: NodeM, k: nat, pc: int, cl: int, lazy: bool, end: int, b: nat)
    requires
        0 <= pc,
        0 <= cl,
        pc + opt_len(node, k) <= end <= MAX_PROG,
        groups_within(node, b),
        2 * b + 1 <= usize::MAX,
        cl <= pc,
    ensures
        code_ok(
            compile_opt(node, k, pc, cl, lazy, end).0,
            pc,
            end,
            cl + compile_opt(node, k, pc, cl, lazy, end).1.len(),
            (2 * b + 2) as int,
        ),
        compile_opt(node, k, pc, cl, lazy, end).1.len() <= opt_len(node, k),
    decreases node, 1nat, k,
{
    if k > 0 {
        let body = pc + 1;
        lemma_compile_ok(node, body, cl, b);
        lemma_compile_len(node, body, cl);
        let (a, ca) = compile_spec(node, body, cl);
        let p1 = body + a.len();
        let c1 = cl + ca.len();
        lemma_opt_ok(node, (k - 1) as nat, p1, c1, lazy, end, b);
        let (r, cr) = compile_opt(node, (k - 1) as nat, p1, c1, lazy, end);
        let ncl = c1 + cr.len();
        let sp = if lazy {
            Inst::Split(end as usize, body as usize)
        } else {
            Inst::Split(body as usize, end as usize)
        };
        lemma_code_widen(a, body, p1, c1, (2 * b + 2) as int, pc, end, ncl, (2 * b + 2) as int);
        lemma_code_widen(r, p1, end, ncl, (2 * b + 2) as int, pc, end, ncl, (2 * b + 2) as int);
        assert(code_ok(seq![sp], pc, end, ncl, (2 * b + 2) as int));
        lemma_code_concat(seq![sp], a, pc, end, ncl, (2 * b + 2) as int);
        lemma_code_concat(seq![sp] + a, r, pc, end, ncl, (2 * b + 2) as int);
    }
}

/// A well-formed program: it ends with `Match`, every jump lands inside it,
/// every class and save slot it names exists.
/// Save slots of a thread: two per group (the whole match counting as group
/// 0), then one loop slot per instruction, used by the `Mark` of a loop.
pub open spec fn n_slots(m: RegexModel) -> nat {
    2 * (m.n_groups + 1) + m.prog.len()
}

/// The loop slot of the loop whose head is instruction `a`.
pub open spec fn loop_slot(m: RegexModel, a: usize) -> int {
    2 * (m.n_groups + 1) + a
}

pub open spec fn regex_wf(m: RegexModel) -> bool {
    &&& 1 <= m.prog.len() <= MAX_PROG + 1
    &&& m.prog.last() == Inst::Match
    &&& code_ok(m.prog, 0, m.prog.len() - 1, m.classes.len() as int, (2 * (m.n_groups + 1)) as int)
    &&& 2 * (m.n_groups + 1) <= usize::MAX / 2
}

/// The program with an end anchor placed after the pattern: a match must
/// then reach the end of the text.
pub open spec fn anchored_spec(m: RegexModel) -> RegexModel {
    RegexModel {
        prog: m.prog.take(m.prog.len() - 2) + seq![Inst::End, Inst::Save(1), Inst::Match],
        classes: m.classes,
        n_groups: m.n_groups,
    }
}

impl Regex {
    #[verifier::type_invariant]
    pub(crate) open spec fn inv(self) -> bool {
        regex_wf(self@)
    }
}

/// Steps one whole operation may take before it gives up.
pub const STEP_BUDGET: usize = 2000000;

/// A thread of the matcher: instruction, text position, save slots.
pub type Thread = (int, int, Seq<Option<usize>>);

/// What is left of the step budget.
pub open spec fn budget_left(steps: int) -> int {
    if steps <= STEP_BUDGET {
        STEP_BUDGET + 1 - steps
    } else {
        0
    }
}

/// Backtracking: resume the most recent thread, or fail when none is left.
/// The result (`Err` when the budget runs out) and the steps taken in all.
pub open spec fn vm_pop(m: RegexModel, text: Seq<char>, stack: Seq<Thread>, steps: int) -> (Result<Option<Seq<Option<usize>>>, ()>, int)
    decreases budget_left(steps), 1int,
{
    if stack.len() == 0 {
        (Ok(None), steps)
    } else {
        let t = stack.last();
        vm_run(m, text, t.0, t.1, t.2, stack.drop_last(), steps)
    }
}

/// Running one thread: each instruction costs a step; a failed test
/// backtracks; `Split` runs its first target and keeps the second for later.
pub open spec fn vm_run(m: RegexModel, text: Seq<char>, pc: int, pos: int, saves: Seq<Option<usize>>, stack: Seq<Thread>, steps: int) -> (Result<Option<Seq<Option<usize>>>, ()>, int)
    decreases budget_left(steps), 0int,
{
    let s1 = steps + 1;
    if s1 > STEP_BUDGET {
        (Err(()), s1)
    } else {
        match m.prog[pc] {
            Inst::Char(c) => if pos < text.len() && text[pos] == c {
                vm_run(m, text, pc + 1, pos + 1, saves, stack, s1)
            } else {
                vm_pop(m, text, stack, s1)
            },
            Inst::Any => if pos < text.len() && text[pos] != '\n' {
                vm_run(m, text, pc + 1, pos + 1, saves, stack, s1)
            } else {
                vm_pop(m, text, stack, s1)
            },
            Inst::Class(i) => if pos < text.len() && class_matches(m.classes[i as int], text[pos]) {
                vm_run(m, text, pc + 1, pos + 1, saves, stack, s1)
            } else {
                vm_pop(m, text, stack, s1)
            },
            Inst::Start => if pos == 0 {
                vm_run(m, text, pc + 1, pos, saves, stack, s1)
            } else {
                vm_pop(m, text, stack, s1)
            },
            Inst::End => if pos == text.len() {
                vm_run(m, text, pc + 1, pos, saves, stack, s1)
            } else {
                vm_pop(m, text, stack, s1)
            },
            Inst::Save(k) => vm_run(
                m,
                text,
                pc + 1,
                pos,
                saves.update(k as int, Some(pos as usize)),
                stack,
                s1,
            ),
            Inst::Split(a, b) => vm_run(m, text, a as int, pos, saves, stack.push((b as int, pos, saves)), s1),
            Inst::Jump(a) => vm_run(m, text, a as int, pos, saves, stack, s1),
            Inst::Mark(a) => vm_run(
                m,
                text,
                pc + 1,
                pos,
                saves.update(loop_slot(m, a), Some(pos as usize)),
                stack,
                s1,
            ),
            Inst::Loop(a) => if saves[loop_slot(m, a)] == Some(pos as usize) {
                vm_run(m, text, pc + 1, pos, saves, stack, s1)
            } else {
                vm_run(m, text, a as int, pos, saves, stack, s1)
            },
            Inst::Match => (Ok(Some(saves)), s1),
        }
    }
}

/// Matching exactly at `start`: the save slots of the first successful
/// thread in backtracking order.
pub open spec fn exec_at_spec(m: RegexModel, text: Seq<char>, start: int, steps: int) -> (Result<Option<Seq<Option<usize>>>, ()>, int) {
    vm_pop(m, text, seq![(0int, start, Seq::new(n_slots(m), |_i: int| None::<usize>))], steps)
}

/// The leftmost match at or after `s`: its start, end (slot 1, or the start)
/// and save slots.
pub open spec fn find_from_spec(m: RegexModel, text: Seq<char>, s: int, steps: int) -> (Result<Option<(int, int, Seq<Option<usize>>)>, ()>, int)
    decreases text.len() + 1 - s,
{
    if s < 0 || s > text.len() {
        (Ok(None), steps)
    } else {
        let (r, st) = exec_at_spec(m, text, s, steps);
        match r {
            Err(()) => (Err(()), st),
            Ok(Some(saves)) => (Ok(Some((s, match saves[1] {
                Some(e) => e as int,
                None => s,
            }, saves))), st),
            Ok(None) => find_from_spec(m, text, s + 1, st),
        }
    }
}

pub open spec fn threads_ok(stack: Seq<(usize, usize, Vec<Option<usize>>)>, plen: int, tlen: int, ns: int) -> bool {
    forall|i: int| 0 <= i < stack.len() ==> #[trigger] stack[i].0 < plen && stack[i].1 <= tlen
        && stack[i].2@.len() == ns
}

pub open spec fn threads_view(stack: Seq<(usize, usize, Vec<Option<usize>>)>) -> Seq<Thread> {
    stack.map_values(|t: (usize, usize, Vec<Option<usize>>)| (t.0 as int, t.1 as int, t.2@))
}

fn copy_saves(v: &Vec<Option<usize>>) -> (r: Vec<Option<usize>>)
    ensures
        r@ == v@,
{
    let mut r: Vec<Option<usize>> = Vec::new();
    let mut i: usize = 0;
    while i < v.len()
        invariant
            i <= v@.len(),
            r@ == v@.subrange(0, i as int),
        decreases v.len() - i,
    {
        r.push(v[i]);
        i = i + 1;
        assert(r@ =~= v@.subrange(0, i as int));
    }
    assert(r@ =~= v@);
    r
}

impl Regex {
    /// Compiles a pattern (see `regex_spec`).
    pub fn new(pattern: &str) -> (r: Result<Regex, String>)
        requires
            pattern@.len() < usize::MAX / 4,
        ensures
            match regex_spec(pattern@) {
                Ok(m) => r matches Ok(x) && x@ == m,
                Err(e) => r matches Err(x) && x@ == e,
            },
    {
        let cs = str_chars(pattern);
        let (ast, p, ng) = match parse_alt(&cs, 0, 0) {
            Ok(t) => t,
            Err(e) => {
                return Err(e);
            },
        };
        if p < cs.len() {
            let mut e = "प्रतिमान: स्थान ".to_owned();
            let d = decimal(p as u64);
            let ds = chars_to_string(d.as_slice());
            push_str(&mut e, ds.as_str());
            push_str(&mut e, " पर अनपेक्षित '");
            push_char(&mut e, cs[p]);
            push_str(&mut e, "'");
            assert(e@ =~= "प्रतिमान: स्थान "@ + decimal_spec(p as nat) + " पर अनपेक्षित '"@
                + seq![cs@[p as int]] + "'"@);
            return Err(e);
        }
        let l = node_len(&ast);
        if l > (MAX_PROG - 3) as u64 {
            proof {
                lemma_compile_len(node_view(ast), 1, 0);
            }
            return Err("प्रतिमान बहुत बड़ा".to_owned());
        }
        let mut c = RxCompiler { prog: Vec::new(), classes: Vec::new() };
        c.prog.push(Inst::Save(0));
        assert(classes_view(c.classes@) =~= Seq::<ClassModel>::empty());
        c.emit_node(&ast, Ghost(ng as nat));
        c.prog.push(Inst::Save(1));
        c.prog.push(Inst::Match);
        let ghost (body, cls) = compile_spec(node_view(ast), 1, 0);
        proof {
            lemma_compile_len(node_view(ast), 1, 0);
            lemma_compile_ok(node_view(ast), 1, 0, ng as nat);
            let len = c.prog@.len() as int;
            let nsv = (2 * (ng + 1)) as int;
            assert(c.prog@ =~= seq![Inst::Save(0)] + body + seq![Inst::Save(1), Inst::Match]);
            lemma_code_widen(body, 1, (1 + inst_len(node_view(ast))) as int, cls.len() as int, nsv, 0, len - 1, cls.len() as int, nsv);
            assert(code_ok(seq![Inst::Save(0)], 0, len - 1, cls.len() as int, nsv));
            assert(code_ok(seq![Inst::Save(1), Inst::Match], 0, len - 1, cls.len() as int, nsv));
            lemma_code_concat(seq![Inst::Save(0)], body, 0, len - 1, cls.len() as int, nsv);
            lemma_code_concat(seq![Inst::Save(0)] + body, seq![Inst::Save(1), Inst::Match], 0, len - 1, cls.len() as int, nsv);
        }
        let re = Regex { prog: c.prog, classes: c.classes, n_groups: ng };
        assert(re@ == RegexModel { prog: program_spec(node_view(ast)).0, classes: program_spec(node_view(ast)).1, n_groups: ng as nat });
        Ok(re)
    }

    /// The same pattern with an end anchor after it (see `anchored_spec`).
    pub fn anchored(&self) -> (r: Regex)
        requires
            2 <= self@.prog.len() <= MAX_PROG,
        ensures
            r@ == anchored_spec(self@),
    {
        proof {
            use_type_invariant(self);
        }
        let ghost m = self@;
        let n = self.prog.len();
        let mut prog: Vec<Inst> = Vec::new();
        let mut i: usize = 0;
        while i < n - 2
            invariant
                n == self.prog@.len(),
                2 <= n,
                i <= n - 2,
                prog@ == self.prog@.take(i as int),
            decreases n - 2 - i,
        {
            prog.push(self.prog[i]);
            i = i + 1;
            assert(prog@ =~= self.prog@.take(i as int));
        }
        prog.push(Inst::End);
        prog.push(Inst::Save(1));
        prog.push(Inst::Match);
        let mut classes: Vec<ClassDef> = Vec::new();
        let mut j: usize = 0;
        while j < self.classes.len()
            invariant
                j <= self.classes@.len(),
                classes_view(classes@) == classes_view(self.classes@).take(j as int),
            decreases self.classes.len() - j,
        {
            let ghost before = classes_view(classes@);
            classes.push(self.classes[j].copy());
            j = j + 1;
            assert(classes_view(classes@) =~= before.push(self.classes@[j - 1]@));
            assert(classes_view(classes@) =~= classes_view(self.classes@).take(j as int));
        }
        assert(classes_view(self.classes@).take(j as int) =~= classes_view(self.classes@));
        let ghost a = anchored_spec(m);
        assert(prog@ =~= a.prog);
        proof {
            let len = prog@.len() as int;
            let nsv = (2 * (m.n_groups + 1)) as int;
            assert forall|k: int| 0 <= k < len implies inst_ok(#[trigger] prog@[k], 0, len - 1, m.classes.len() as int, nsv) by {
                if k < n - 2 {
                    assert(prog@[k] == m.prog[k]);
                    assert(inst_ok(m.prog[k], 0, n - 1, m.classes.len() as int, nsv));
                }
            }
        }
        Regex { prog, classes, n_groups: self.n_groups }
    }

    /// Number of numbered groups.
    pub fn n_groups(&self) -> (n: usize)
        ensures
            n == self@.n_groups,
    {
        self.n_groups
    }
}



pub open spec fn vm_err_msg() -> Seq<char> {
    "प्रतिमान बहुत जटिल (backtracking सीमा पार)"@
}

pub open spec fn exec_rel(r: Result<Option<Vec<Option<usize>>>, String>, s: Result<Option<Seq<Option<usize>>>, ()>) -> bool {
    match s {
        Err(()) => r matches Err(e) && e@ == vm_err_msg(),
        Ok(None) => r matches Ok(None),
        Ok(Some(sv)) => r matches Ok(Some(v)) && v@ == sv,
    }
}

fn none_saves(n: usize) -> (v: Vec<Option<usize>>)
    ensures
        v@ == Seq::new(n as nat, |_i: int| None::<usize>),
{
    let mut v: Vec<Option<usize>> = Vec::new();
    let mut i: usize = 0;
    while i < n
        invariant
            i <= n,
            v@ == Seq::new(i as nat, |_i: int| None::<usize>),
        decreases n - i,
    {
        v.push(None);
        i = i + 1;
        assert(v@ =~= Seq::new(i as nat, |_i: int| None::<usize>));
    }
    v
}

impl Regex {
    /// Tries to match starting exactly at `start` (see `exec_at_spec`); the
    /// save slots on success. `steps` counts the steps of the whole operation.
    pub fn exec_at(&self, text: &[char], start: usize, steps: &mut usize) -> (r: Result<Option<Vec<Option<usize>>>, String>)
        requires
            start <= text@.len(),
            *old(steps) < usize::MAX,
        ensures
            exec_rel(r, exec_at_spec(self@, text@, start as int, *old(steps) as int).0),
            *final(steps) as int == exec_at_spec(self@, text@, start as int, *old(steps) as int).1,
            r is Ok ==> *final(steps) <= STEP_BUDGET || *final(steps) == *old(steps),
            r matches Ok(Some(v)) ==> v@.len() == n_slots(self@),
    {
        proof {
            use_type_invariant(self);
        }
        let ghost m = self@;
        let ghost total = exec_at_spec(m, text@, start as int, *old(steps) as int);
        let plen = self.prog.len();
        let base = 2 * (self.n_groups + 1);
        let n_saves = base + plen;
        let tlen = text.len();
        let mut stack: Vec<(usize, usize, Vec<Option<usize>>)> = Vec::new();
        stack.push((0, start, none_saves(n_saves)));
        assert(threads_view(stack@) =~= seq![(0int, start as int, Seq::new(n_slots(m), |_i: int| None::<usize>))]);
        let ghost s0 = *steps;
        loop
            invariant
                m == self@,
                regex_wf(m),
                plen == m.prog.len(),
                tlen == text@.len(),
                n_saves == n_slots(m),
                base == 2 * (m.n_groups + 1),
                threads_ok(stack@, plen as int, tlen as int, n_saves as int),
                vm_pop(m, text@, threads_view(stack@), *steps as int) == total,
                total == exec_at_spec(self@, text@, start as int, *old(steps) as int),
                s0 == *old(steps),
                *steps >= s0,
                *steps == s0 || *steps <= STEP_BUDGET,
                s0 < usize::MAX,
            decreases budget_left(*steps as int) + if *steps == s0 { 1int } else { 0int },
        {
            let ghost sv = threads_view(stack@);
            let popped = stack.pop();
            match popped {
                None => {
                    return Ok(None);
                },
                Some(t) => {
                    let (pc0, pos0, saves0) = t;
                    let ghost rest = threads_view(stack@);
                    assert(rest =~= sv.drop_last());
                    let mut pc = pc0;
                    let mut pos = pos0;
                    let mut saves = saves0;
                    let ghost st_entry = *steps;
                    loop
                        invariant_except_break
                            m == self@,
                            regex_wf(m),
                            plen == m.prog.len(),
                            tlen == text@.len(),
                            n_saves == n_slots(m),
                base == 2 * (m.n_groups + 1),
                            pc < plen,
                            pos <= tlen,
                            saves@.len() == n_saves,
                            threads_ok(stack@, plen as int, tlen as int, n_saves as int),
                            vm_run(m, text@, pc as int, pos as int, saves@, threads_view(stack@), *steps as int) == total,
                            total == exec_at_spec(self@, text@, start as int, *old(steps) as int),
                            s0 == *old(steps),
                            *steps >= st_entry,
                            st_entry >= s0,
                            *steps == s0 || *steps <= STEP_BUDGET,
                            s0 < usize::MAX,
                        ensures
                            m == self@,
                            regex_wf(m),
                            plen == m.prog.len(),
                            tlen == text@.len(),
                            n_saves == n_slots(m),
                base == 2 * (m.n_groups + 1),
                            threads_ok(stack@, plen as int, tlen as int, n_saves as int),
                            vm_pop(m, text@, threads_view(stack@), *steps as int) == total,
                            total == exec_at_spec(self@, text@, start as int, *old(steps) as int),
                            s0 == *old(steps),
                            *steps > st_entry,
                            st_entry >= s0,
                            *steps <= STEP_BUDGET,
                            s0 < usize::MAX,
                        decreases budget_left(*steps as int) + if *steps == s0 { 1int } else { 0int },
                    {
                        *steps = *steps + 1;
                        if *steps > STEP_BUDGET {
                            return Err("प्रतिमान बहुत जटिल (backtracking सीमा पार)".to_owned());
                        }
                        assert(inst_ok(m.prog[pc as int], 0, plen - 1, m.classes.len() as int, base as int));
                        match &self.prog[pc] {
                            Inst::Char(c) => {
                                if pos < tlen && text[pos] == *c {
                                    pc = pc + 1;
                                    pos = pos + 1;
                                } else {
                                    break;
                                }
                            },
                            Inst::Any => {
                                if pos < tlen && text[pos] != '\n' {
                                    pc = pc + 1;
                                    pos = pos + 1;
                                } else {
                                    break;
                                }
                            },
                            Inst::Class(i) => {
                                if pos < tlen && self.classes[*i].matches(text[pos]) {
                                    pc = pc + 1;
                                    pos = pos + 1;
                                } else {
                                    break;
                                }
                            },
                            Inst::Start => {
                                if pos == 0 {
                                    pc = pc + 1;
                                } else {
                                    break;
                                }
                            },
                            Inst::End => {
                                if pos == tlen {
                                    pc = pc + 1;
                                } else {
                                    break;
                                }
                            },
                            Inst::Save(k) => {
                                saves.set(*k, Some(pos));
                                pc = pc + 1;
                            },
                            Inst::Split(a, b) => {
                                let copy = copy_saves(&saves);
                                let ghost before = threads_view(stack@);
                                stack.push((*b, pos, copy));
                                assert(threads_view(stack@) =~= before.push((*b as int, pos as int, saves@)));
                                pc = *a;
                            },
                            Inst::Jump(a) => {
                                pc = *a;
                            },
                            Inst::Mark(a) => {
                                saves.set(base + *a, Some(pos));
                                pc = pc + 1;
                            },
                            Inst::Loop(a) => {
                                if saves[base + *a] == Some(pos) {
                                    pc = pc + 1;
                                } else {
                                    pc = *a;
                                }
                            },
                            Inst::Match => {
                                return Ok(Some(saves));
                            },
                        }
                    }
                },
            }
        }
    }

    /// The leftmost match at or after `from` (see `find_from_spec`): its start
    /// and end (character positions) and its save slots.
    pub fn find_from(&self, text: &[char], from: usize, steps: &mut usize) -> (r: Result<Option<(usize, usize, Vec<Option<usize>>)>, String>)
        requires
            text@.len() < usize::MAX,
            *old(steps) < usize::MAX,
        ensures
            match find_from_spec(self@, text@, from as int, *old(steps) as int).0 {
                Err(()) => r matches Err(e) && e@ == vm_err_msg(),
                Ok(None) => r matches Ok(None),
                Ok(Some((a, b, sv))) => r matches Ok(Some((x, y, v))) && x == a && y == b && v@ == sv,
            },
            *final(steps) as int == find_from_spec(self@, text@, from as int, *old(steps) as int).1,
            r is Ok ==> *final(steps) <= STEP_BUDGET || *final(steps) == *old(steps),
    {
        proof {
            use_type_invariant(self);
        }
        let ghost total = find_from_spec(self@, text@, from as int, *old(steps) as int);
        let n = text.len();
        let mut s = from;
        while s <= n
            invariant
                from <= s,
                n == text@.len(),
                n < usize::MAX,
                *steps < usize::MAX,
                find_from_spec(self@, text@, s as int, *steps as int) == total,
                total == find_from_spec(self@, text@, from as int, *old(steps) as int),
                *steps <= STEP_BUDGET || *steps == *old(steps),
            decreases n + 1 - s,
        {
            match self.exec_at(text, s, steps) {
                Err(e) => {
                    return Err(e);
                },
                Ok(Some(saves)) => {
                    proof {
                        use_type_invariant(self);
                    }
                    let end = match saves[1] {
                        Some(e) => e,
                        None => s,
                    };
                    return Ok(Some((s, end, saves)));
                },
                Ok(None) => {},
            }
            s = s + 1;
        }
        Ok(None)
    }
}


/// Every recorded position lies in `lo..=hi`.
pub open spec fn saves_in(sv: Seq<Option<usize>>, lo: int, hi: int) -> bool {
    forall|i: int| 0 <= i < sv.len() ==> (#[trigger] sv[i] matches Some(p) ==> lo <= p <= hi)
}

pub open spec fn threads_in(stack: Seq<Thread>, plen: int, lo: int, hi: int, nsv: int) -> bool {
    forall|i: int| 0 <= i < stack.len() ==> 0 <= (#[trigger] stack[i]).0 < plen && lo <= stack[i].1 <= hi
        && saves_in(stack[i].2, lo, hi) && stack[i].2.len() == nsv
}

proof fn lemma_vm_pop_bounds(m: RegexModel, text: Seq<char>, stack: Seq<Thread>, steps: int, lo: int)
    requires
        regex_wf(m),
        0 <= lo,
        text.len() <= usize::MAX,
        threads_in(stack, m.prog.len() as int, lo, text.len() as int, n_slots(m) as int),
    ensures
        vm_pop(m, text, stack, steps).0 matches Ok(Some(sv)) ==> saves_in(sv, lo, text.len() as int)
            && sv.len() == n_slots(m),
        vm_pop(m, text, stack, steps).1 >= steps,
    decreases budget_left(steps), 1int,
{
    if stack.len() > 0 {
        let t = stack.last();
        assert(threads_in(stack.drop_last(), m.prog.len() as int, lo, text.len() as int, n_slots(m) as int)) by {
            assert forall|i: int| 0 <= i < stack.drop_last().len() implies #[trigger] stack.drop_last()[i] == stack[i] by {}
        }
        lemma_vm_run_bounds(m, text, t.0, t.1, t.2, stack.drop_last(), steps, lo);
    }
}

proof fn lemma_vm_run_bounds(m: RegexModel, text: Seq<char>, pc: int, pos: int, saves: Seq<Option<usize>>, stack: Seq<Thread>, steps: int, lo: int)
    requires
        regex_wf(m),
        0 <= pc < m.prog.len(),
        0 <= lo <= pos <= text.len(),
        text.len() <= usize::MAX,
        saves.len() == n_slots(m),
        saves_in(saves, lo, text.len() as int),
        threads_in(stack, m.prog.len() as int, lo, text.len() as int, n_slots(m) as int),
    ensures
        vm_run(m, text, pc, pos, saves, stack, steps).0 matches Ok(Some(sv)) ==> saves_in(sv, lo, text.len() as int)
            && sv.len() == n_slots(m),
        vm_run(m, text, pc, pos, saves, stack, steps).1 >= steps,
    decreases budget_left(steps), 0int,
{
    let s1 = steps + 1;
    let plen = m.prog.len() as int;
    let hi = text.len() as int;
    if s1 <= STEP_BUDGET {
        assert(inst_ok(m.prog[pc], 0, plen - 1, m.classes.len() as int, (2 * (m.n_groups + 1)) as int));
        if pc == plen - 1 {
            assert(m.prog[pc] == Inst::Match);
        }
        match m.prog[pc] {
            Inst::Char(c) => {
                if pos < text.len() && text[pos] == c {
                    lemma_vm_run_bounds(m, text, pc + 1, pos + 1, saves, stack, s1, lo);
                } else {
                    lemma_vm_pop_bounds(m, text, stack, s1, lo);
                }
            },
            Inst::Any => {
                if pos < text.len() && text[pos] != '\n' {
                    lemma_vm_run_bounds(m, text, pc + 1, pos + 1, saves, stack, s1, lo);
                } else {
                    lemma_vm_pop_bounds(m, text, stack, s1, lo);
                }
            },
            Inst::Class(i) => {
                if pos < text.len() && class_matches(m.classes[i as int], text[pos]) {
                    lemma_vm_run_bounds(m, text, pc + 1, pos + 1, saves, stack, s1, lo);
                } else {
                    lemma_vm_pop_bounds(m, text, stack, s1, lo);
                }
            },
            Inst::Start => {
                if pos == 0 {
                    lemma_vm_run_bounds(m, text, pc + 1, pos, saves, stack, s1, lo);
                } else {
                    lemma_vm_pop_bounds(m, text, stack, s1, lo);
                }
            },
            Inst::End => {
                if pos == text.len() {
                    lemma_vm_run_bounds(m, text, pc + 1, pos, saves, stack, s1, lo);
                } else {
                    lemma_vm_pop_bounds(m, text, stack, s1, lo);
                }
            },
            Inst::Save(k) => {
                let sv2 = saves.update(k as int, Some(pos as usize));
                assert(k < saves.len());
                assert((pos as usize) as int == pos);
                assert(saves_in(sv2, lo, hi)) by {
                    assert forall|i: int| 0 <= i < sv2.len() implies (#[trigger] sv2[i] matches Some(p) ==> lo <= p <= hi) by {
                        if i != k {
                            assert(sv2[i] == saves[i]);
                        } else {
                            assert(sv2[i] == Some(pos as usize));
                        }
                    }
                }
                lemma_vm_run_bounds(m, text, pc + 1, pos, sv2, stack, s1, lo);
            },
            Inst::Split(a, b) => {
                let st2 = stack.push((b as int, pos, saves));
                let nsv = n_slots(m) as int;
                assert(threads_in(st2, plen, lo, hi, nsv)) by {
                    assert forall|i: int| 0 <= i < st2.len() implies 0 <= (#[trigger] st2[i]).0 < plen && lo <= st2[i].1 <= hi && saves_in(st2[i].2, lo, hi) && st2[i].2.len() == nsv by {
                        if i < stack.len() {
                            assert(st2[i] == stack[i]);
                        }
                    }
                }
                lemma_vm_run_bounds(m, text, a as int, pos, saves, st2, s1, lo);
            },
            Inst::Jump(a) => {
                lemma_vm_run_bounds(m, text, a as int, pos, saves, stack, s1, lo);
            },
            Inst::Mark(a) => {
                let k = loop_slot(m, a);
                let sv2 = saves.update(k, Some(pos as usize));
                assert(k < saves.len());
                assert((pos as usize) as int == pos);
                assert(saves_in(sv2, lo, hi)) by {
                    assert forall|i: int| 0 <= i < sv2.len() implies (#[trigger] sv2[i] matches Some(p) ==> lo <= p <= hi) by {
                        if i != k {
                            assert(sv2[i] == saves[i]);
                        } else {
                            assert(sv2[i] == Some(pos as usize));
                        }
                    }
                }
                lemma_vm_run_bounds(m, text, pc + 1, pos, sv2, stack, s1, lo);
            },
            Inst::Loop(a) => {
                if saves[loop_slot(m, a)] == Some(pos as usize) {
                    lemma_vm_run_bounds(m, text, pc + 1, pos, saves, stack, s1, lo);
                } else {
                    lemma_vm_run_bounds(m, text, a as int, pos, saves, stack, s1, lo);
                }
            },
            Inst::Match => {},
        }
    }
}

/// A match found at or after `from` starts there or later and ends within the
/// text, after its start; every group it records lies within the match's text.
pub proof fn law_match_within_text(re: RegexModel, text: Seq<char>, from: int, steps: int)
    requires
        regex_wf(re),
        0 <= from,
        text.len() <= usize::MAX,
    ensures
        find_from_spec(re, text, from, steps).0 matches Ok(Some((a, b, sv))) ==> from <= a <= b <= text.len()
            && saves_in(sv, a, text.len() as int) && sv.len() == n_slots(re),
    decreases text.len() + 1 - from,
{
    if from <= text.len() {
        let sv0 = Seq::new(n_slots(re), |_i: int| None::<usize>);
        let st = seq![(0int, from, sv0)];
        assert(threads_in(st, re.prog.len() as int, from, text.len() as int, n_slots(re) as int)) by {
            assert(saves_in(sv0, from, text.len() as int));
        }
        lemma_vm_pop_bounds(re, text, st, steps, from);
        let (r, s2) = exec_at_spec(re, text, from, steps);
        match r {
            Ok(Some(saves)) => {
                assert(saves_in(saves, from, text.len() as int));
                assert(saves.len() >= 2);
                assert(saves[1] matches Some(p) ==> from <= p <= text.len());
            },
            Ok(None) => law_match_within_text(re, text, from + 1, s2),
            Err(()) => {},
        }
    }
}

/// The steps spent by trying, one after another, each start from `s` up to
/// (not including) `a`, when none of them matches; `None` when one of them
/// matches or runs out of steps.
pub open spec fn steps_past(m: RegexModel, text: Seq<char>, s: int, a: int, steps: int) -> Option<int>
    decreases a - s,
{
    if s >= a {
        Some(steps)
    } else {
        let (r, st) = exec_at_spec(m, text, s, steps);
        if r == Ok::<Option<Seq<Option<usize>>>, ()>(None) {
            steps_past(m, text, s + 1, a, st)
        } else {
            None
        }
    }
}

/// The match found is the leftmost one: no start between `from` and the
/// start found matches, and at the start found the pattern matches, with
/// the end and the save slots that this match records.
pub proof fn law_leftmost_match(m: RegexModel, text: Seq<char>, from: int, steps: int)
    requires
        0 <= from,
    ensures
        find_from_spec(m, text, from, steps).0 matches Ok(Some((a, b, sv))) ==> {
            &&& from <= a
            &&& b == (match sv[1] {
                Some(e) => e as int,
                None => a,
            })
            &&& (steps_past(m, text, from, a, steps) matches Some(st)
                && exec_at_spec(m, text, a, st).0 == Ok::<Option<Seq<Option<usize>>>, ()>(Some(sv)))
        },
    decreases text.len() + 1 - from,
{
    if from <= text.len() {
        let (r, st) = exec_at_spec(m, text, from, steps);
        if r == Ok::<Option<Seq<Option<usize>>>, ()>(None) {
            law_leftmost_match(m, text, from + 1, st);
            match find_from_spec(m, text, from, steps).0 {
                Ok(Some((a, b, sv))) => {
                    assert(steps_past(m, text, from, a, steps) == steps_past(m, text, from + 1, a, st));
                },
                _ => {},
            }
        }
    }
}
} // verus!
