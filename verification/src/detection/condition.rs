//! The condition of a detection: a boolean expression over the names of its
//! selections, with `not`, `and`, `or`, `N of <pattern>` and
//! `all of <pattern>`.
use vstd::prelude::*;
use crate::text::{all_digits, decimal, read_decimal, chars_of, same_text};
use glob::Pattern;

verus! {

/// A boolean operator of a condition.
#[derive(Debug, Clone, Copy, PartialEq, Eq, Structural)]
pub enum BoolOp {
    Or,
    And,
}

/// How many of the selections that a pattern names have to hold.
#[derive(Debug, Clone, Copy, PartialEq, Eq, Structural)]
pub enum XOfType {
    NOf(i64),
    AllOf(),
}

/// A node of the syntax tree of a condition.
#[derive(Debug)]
pub enum ConditionNode {
    Identifier(String),
    Not(Box<ConditionNode>),
    XOf(XOfType, Box<ConditionNode>),
    BoolOp { lhs: Box<ConditionNode>, op: BoolOp, rhs: Box<ConditionNode> },
}

/// The mathematical content of a [`ConditionNode`].
pub enum NodeView {
    Identifier(Seq<char>),
    Not(Box<NodeView>),
    XOf(XOfType, Box<NodeView>),
    BoolOp { lhs: Box<NodeView>, op: BoolOp, rhs: Box<NodeView> },
}

impl View for ConditionNode {
    type V = NodeView;

    open spec fn view(&self) -> NodeView
        decreases self,
    {
        match self {
            ConditionNode::Identifier(name) => NodeView::Identifier(name@),
            ConditionNode::Not(inner) => NodeView::Not(Box::new((**inner).view())),
            ConditionNode::XOf(kind, inner) => NodeView::XOf(*kind, Box::new((**inner).view())),
            ConditionNode::BoolOp { lhs, op, rhs } => NodeView::BoolOp {
                lhs: Box::new((**lhs).view()),
                op: *op,
                rhs: Box::new((**rhs).view()),
            },
        }
    }
}

/// Where in the text of a condition parsing stopped, counted in characters.
#[derive(Debug, Clone, Copy, PartialEq, Eq, Structural)]
pub struct ParseError {
    pub position: usize,
}

/// What parsing from a position gives: a node and the position after it, or
/// the position of the error.
pub type Parsed = Result<(NodeView, int), int>;

pub open spec fn is_space(c: char) -> bool {
    c == ' ' || c == '\t' || c == '\n' || c == '\r'
}

/// The characters of which names are made: letters, digits, `_`, `*`, `?`.
pub open spec fn is_name_char(c: char) -> bool {
    ('a' <= c <= 'z') || ('A' <= c <= 'Z') || ('0' <= c <= '9') || c == '_' || c == '*' || c
        == '?'
}

/// The number of blanks that stand at `pos`.
pub open spec fn spaces_at(s: Seq<char>, pos: int) -> nat
    decreases s.len() - pos,
{
    if 0 <= pos < s.len() && is_space(s[pos]) {
        1 + spaces_at(s, pos + 1)
    } else {
        0
    }
}

/// The length of the word that stands at `pos`: the longest run of name
/// characters from there on.
pub open spec fn word_len(s: Seq<char>, pos: int) -> nat
    decreases s.len() - pos,
{
    if 0 <= pos < s.len() && is_name_char(s[pos]) {
        1 + word_len(s, pos + 1)
    } else {
        0
    }
}

/// Whether the word that stands at `pos` is exactly `word`.
pub open spec fn word_is(s: Seq<char>, pos: int, word: Seq<char>) -> bool {
    &&& 0 <= pos
    &&& pos + word.len() <= s.len()
    &&& word_len(s, pos) == word.len()
    &&& s.subrange(pos, pos + word.len()) == word
}

pub open spec fn kw_or() -> Seq<char> {
    seq!['o', 'r']
}

pub open spec fn kw_and() -> Seq<char> {
    seq!['a', 'n', 'd']
}

pub open spec fn kw_not() -> Seq<char> {
    seq!['n', 'o', 't']
}

pub open spec fn kw_of() -> Seq<char> {
    seq!['o', 'f']
}

pub open spec fn kw_all() -> Seq<char> {
    seq!['a', 'l', 'l']
}

/// Whether a word can open a quantifier: `all`, or a run of digits.
pub open spec fn is_quantity(word: Seq<char>) -> bool {
    word == kw_all() || (word.len() > 0 && all_digits(word))
}

/// The quantifier that a word writes; none for a number beyond `i64`.
pub open spec fn quantity(word: Seq<char>) -> Option<XOfType> {
    if word == kw_all() {
        Some(XOfType::AllOf())
    } else if decimal(word) <= i64::MAX {
        Some(XOfType::NOf(decimal(word) as i64))
    } else {
        None
    }
}

/// `or := and ("or" or)?`
pub open spec fn spec_or(s: Seq<char>, pos: int) -> Parsed
    decreases s.len() - pos, 3int,
{
    match spec_and(s, pos) {
        Err(e) => Err(e),
        Ok((lhs, end)) => {
            let q = end + spaces_at(s, end);
            if end >= pos && word_is(s, q, kw_or()) {
                match spec_or(s, q + 2) {
                    Err(e) => Err(e),
                    Ok((rhs, fin)) => Ok(
                        (
                            NodeView::BoolOp {
                                lhs: Box::new(lhs),
                                op: BoolOp::Or,
                                rhs: Box::new(rhs),
                            },
                            fin,
                        ),
                    ),
                }
            } else {
                Ok((lhs, end))
            }
        },
    }
}

/// `and := prefix ("and" and)?`
pub open spec fn spec_and(s: Seq<char>, pos: int) -> Parsed
    decreases s.len() - pos, 2int,
{
    match spec_prefix(s, pos) {
        Err(e) => Err(e),
        Ok((lhs, end)) => {
            let q = end + spaces_at(s, end);
            if end >= pos && word_is(s, q, kw_and()) {
                match spec_and(s, q + 3) {
                    Err(e) => Err(e),
                    Ok((rhs, fin)) => Ok(
                        (
                            NodeView::BoolOp {
                                lhs: Box::new(lhs),
                                op: BoolOp::And,
                                rhs: Box::new(rhs),
                            },
                            fin,
                        ),
                    ),
                }
            } else {
                Ok((lhs, end))
            }
        },
    }
}

/// `prefix := "not" prefix | ("all" | INT) "of" prefix | atom`
pub open spec fn spec_prefix(s: Seq<char>, pos: int) -> Parsed
    decreases s.len() - pos, 1int,
{
    let p = pos + spaces_at(s, pos);
    let e = p + word_len(s, p);
    let q = e + spaces_at(s, e);
    if pos < 0 || p > s.len() {
        Err(pos)
    } else if word_is(s, p, kw_not()) {
        match spec_prefix(s, p + 3) {
            Err(e) => Err(e),
            Ok((inner, fin)) => Ok((NodeView::Not(Box::new(inner)), fin)),
        }
    } else if is_quantity(s.subrange(p, e)) && word_is(s, q, kw_of()) {
        match quantity(s.subrange(p, e)) {
            None => Err(p),
            Some(kind) => match spec_prefix(s, q + 2) {
                Err(e) => Err(e),
                Ok((inner, fin)) => Ok((NodeView::XOf(kind, Box::new(inner)), fin)),
            },
        }
    } else {
        spec_atom(s, p)
    }
}

/// `atom := name | "(" or ")"`
pub open spec fn spec_atom(s: Seq<char>, pos: int) -> Parsed
    decreases s.len() - pos, 0int,
{
    if 0 <= pos < s.len() && s[pos] == '(' {
        match spec_or(s, pos + 1) {
            Err(e) => Err(e),
            Ok((node, end)) => {
                let q = end + spaces_at(s, end);
                if 0 <= q < s.len() && s[q] == ')' {
                    Ok((node, q + 1))
                } else {
                    Err(q)
                }
            },
        }
    } else if word_len(s, pos) > 0 {
        Ok((NodeView::Identifier(s.subrange(pos, pos + word_len(s, pos))), pos + word_len(s, pos)))
    } else {
        Err(pos)
    }
}

/// The syntax tree that the text of a condition writes, or the position at
/// which the text stops being a condition. Words are separated by blanks and
/// brackets; `not`, `and`, `or` and a quantifier before `of` are read as
/// such wherever the grammar allows them, every other word is a name.
pub open spec fn parse_condition(s: Seq<char>) -> Result<NodeView, int> {
    match spec_or(s, 0) {
        Err(e) => Err(e),
        Ok((node, end)) => {
            let q = end + spaces_at(s, end);
            if q == s.len() {
                Ok(node)
            } else {
                Err(q)
            }
        },
    }
}

/// Whether an executable parse result is the given mathematical one.
pub open spec fn agrees(r: Result<(ConditionNode, usize), ParseError>, p: Parsed) -> bool {
    match r {
        Ok((node, end)) => p == Ok::<(NodeView, int), int>((node@, end as int)),
        Err(e) => p == Err::<(NodeView, int), int>(e.position as int),
    }
}

fn skip_spaces(chars: &Vec<char>, pos: usize) -> (p: usize)
    requires
        pos <= chars.len(),
    ensures
        p == pos + spaces_at(chars@, pos as int),
        p <= chars.len(),
    decreases chars.len() - pos,
{
    if pos < chars.len() && (chars[pos] == ' ' || chars[pos] == '\t' || chars[pos] == '\n'
        || chars[pos] == '\r') {
        skip_spaces(chars, pos + 1)
    } else {
        pos
    }
}

fn name_char(c: char) -> (r: bool)
    ensures
        r == is_name_char(c),
{
    ('a' <= c && c <= 'z') || ('A' <= c && c <= 'Z') || ('0' <= c && c <= '9') || c == '_' || c
        == '*' || c == '?'
}

fn word_end(chars: &Vec<char>, pos: usize) -> (e: usize)
    requires
        pos <= chars.len(),
    ensures
        e == pos + word_len(chars@, pos as int),
        e <= chars.len(),
    decreases chars.len() - pos,
{
    if pos < chars.len() && name_char(chars[pos]) {
        word_end(chars, pos + 1)
    } else {
        pos
    }
}

fn word_is_2(chars: &Vec<char>, p: usize, e: usize, a: char, b: char) -> (r: bool)
    requires
        p <= e <= chars.len(),
        e == p + word_len(chars@, p as int),
    ensures
        r == word_is(chars@, p as int, seq![a, b]),
{
    if e - p == 2 && chars[p] == a && chars[p + 1] == b {
        assert(chars@.subrange(p as int, p + 2) =~= seq![a, b]);
        true
    } else {
        if e - p == 2 {
            assert(chars@.subrange(p as int, p + 2)[0] == chars@[p as int]);
            assert(chars@.subrange(p as int, p + 2)[1] == chars@[p + 1]);
        }
        false
    }
}

fn word_is_3(chars: &Vec<char>, p: usize, e: usize, a: char, b: char, c: char) -> (r: bool)
    requires
        p <= e <= chars.len(),
        e == p + word_len(chars@, p as int),
    ensures
        r == word_is(chars@, p as int, seq![a, b, c]),
{
    if e - p == 3 && chars[p] == a && chars[p + 1] == b && chars[p + 2] == c {
        assert(chars@.subrange(p as int, p + 3) =~= seq![a, b, c]);
        true
    } else {
        if e - p == 3 {
            assert(chars@.subrange(p as int, p + 3)[0] == chars@[p as int]);
            assert(chars@.subrange(p as int, p + 3)[1] == chars@[p + 1]);
            assert(chars@.subrange(p as int, p + 3)[2] == chars@[p + 2]);
        }
        false
    }
}

fn parse_or(input: &str, chars: &Vec<char>, pos: usize) -> (r: Result<
    (ConditionNode, usize),
    ParseError,
>)
    requires
        chars@ == input@,
        pos <= chars.len(),
    ensures
        agrees(r, spec_or(chars@, pos as int)),
        r matches Ok((_, end)) ==> pos <= end <= chars.len(),
    decreases chars.len() - pos, 3int,
{
    let (lhs, end) = match parse_and(input, chars, pos) {
        Err(e) => {
            return Err(e);
        },
        Ok(found) => found,
    };
    let q = skip_spaces(chars, end);
    let e = word_end(chars, q);
    if word_is_2(chars, q, e, 'o', 'r') {
        match parse_or(input, chars, q + 2) {
            Err(e) => Err(e),
            Ok((rhs, fin)) => Ok(
                (ConditionNode::BoolOp { lhs: Box::new(lhs), op: BoolOp::Or, rhs: Box::new(rhs) }, fin),
            ),
        }
    } else {
        Ok((lhs, end))
    }
}

fn parse_and(input: &str, chars: &Vec<char>, pos: usize) -> (r: Result<
    (ConditionNode, usize),
    ParseError,
>)
    requires
        chars@ == input@,
        pos <= chars.len(),
    ensures
        agrees(r, spec_and(chars@, pos as int)),
        r matches Ok((_, end)) ==> pos <= end <= chars.len(),
    decreases chars.len() - pos, 2int,
{
    let (lhs, end) = match parse_prefix(input, chars, pos) {
        Err(e) => {
            return Err(e);
        },
        Ok(found) => found,
    };
    let q = skip_spaces(chars, end);
    let e = word_end(chars, q);
    if word_is_3(chars, q, e, 'a', 'n', 'd') {
        match parse_and(input, chars, q + 3) {
            Err(e) => Err(e),
            Ok((rhs, fin)) => Ok(
                (
                    ConditionNode::BoolOp { lhs: Box::new(lhs), op: BoolOp::And, rhs: Box::new(rhs) },
                    fin,
                ),
            ),
        }
    } else {
        Ok((lhs, end))
    }
}

fn parse_prefix(input: &str, chars: &Vec<char>, pos: usize) -> (r: Result<
    (ConditionNode, usize),
    ParseError,
>)
    requires
        chars@ == input@,
        pos <= chars.len(),
    ensures
        agrees(r, spec_prefix(chars@, pos as int)),
        r matches Ok((_, end)) ==> pos <= end <= chars.len(),
    decreases chars.len() - pos, 1int,
{
    let p = skip_spaces(chars, pos);
    let e = word_end(chars, p);
    let q = skip_spaces(chars, e);
    let qe = word_end(chars, q);
    if word_is_3(chars, p, e, 'n', 'o', 't') {
        return match parse_prefix(input, chars, p + 3) {
            Err(e) => Err(e),
            Ok((inner, fin)) => Ok((ConditionNode::Not(Box::new(inner)), fin)),
        };
    }
    let all = word_is_3(chars, p, e, 'a', 'l', 'l');
    let number = read_decimal(chars, p, e);
    let ghost word = chars@.subrange(p as int, e as int);
    proof {
        if all {
            assert(word == kw_all());
        } else if word == kw_all() {
            assert(word.len() == 3);
            assert(word_is(chars@, p as int, kw_all()));
        }
        if e > p && !all_digits(word) {
            assert(!is_quantity(word) || word == kw_all());
        }
    }
    let digits = e > p && all_digits_in(chars, p, e);
    if (all || digits) && word_is_2(chars, q, qe, 'o', 'f') {
        let kind = if all {
            XOfType::AllOf()
        } else {
            match number {
                Some(n) => {
                    if n <= 0x7fff_ffff_ffff_ffff {
                        XOfType::NOf(n as i64)
                    } else {
                        return Err(ParseError { position: p });
                    }
                },
                None => {
                    return Err(ParseError { position: p });
                },
            }
        };
        return match parse_prefix(input, chars, q + 2) {
            Err(e) => Err(e),
            Ok((inner, fin)) => Ok((ConditionNode::XOf(kind, Box::new(inner)), fin)),
        };
    }
    parse_atom(input, chars, p)
}

fn all_digits_in(chars: &Vec<char>, from: usize, to: usize) -> (r: bool)
    requires
        from <= to <= chars.len(),
    ensures
        r == all_digits(chars@.subrange(from as int, to as int)),
{
    let ghost d = chars@.subrange(from as int, to as int);
    let mut i: usize = from;
    while i < to
        invariant
            from <= i <= to <= chars.len(),
            d == chars@.subrange(from as int, to as int),
            forall|j: int| 0 <= j < i - from ==> crate::text::is_digit(#[trigger] d[j]),
        decreases to - i,
    {
        if !('0' <= chars[i] && chars[i] <= '9') {
            assert(!crate::text::is_digit(d[i - from]));
            return false;
        }
        i += 1;
    }
    true
}

fn parse_atom(input: &str, chars: &Vec<char>, pos: usize) -> (r: Result<
    (ConditionNode, usize),
    ParseError,
>)
    requires
        chars@ == input@,
        pos <= chars.len(),
    ensures
        agrees(r, spec_atom(chars@, pos as int)),
        r matches Ok((_, end)) ==> pos <= end <= chars.len(),
    decreases chars.len() - pos, 0int,
{
    if pos < chars.len() && chars[pos] == '(' {
        let (node, end) = match parse_or(input, chars, pos + 1) {
            Err(e) => {
                return Err(e);
            },
            Ok(found) => found,
        };
        let q = skip_spaces(chars, end);
        if q < chars.len() && chars[q] == ')' {
            Ok((node, q + 1))
        } else {
            Err(ParseError { position: q })
        }
    } else {
        let e = word_end(chars, pos);
        if e > pos {
            let name = input.substring_char(pos, e).to_owned();
            Ok((ConditionNode::Identifier(name), e))
        } else {
            Err(ParseError { position: pos })
        }
    }
}

/// The parser of conditions.
pub struct ConditionParser;

impl ConditionParser {
    /// Reads the text of a condition.
    pub fn parse(input: &str) -> (r: Result<ConditionNode, ParseError>)
        ensures
            match r {
                Ok(node) => parse_condition(input@) == Ok::<NodeView, int>(node@),
                Err(e) => parse_condition(input@) == Err::<NodeView, int>(e.position as int),
            },
    {
        let chars = chars_of(input);
        match parse_or(input, &chars, 0) {
            Err(e) => Err(e),
            Ok((node, end)) => {
                let q = skip_spaces(&chars, end);
                if q == chars.len() {
                    Ok(node)
                } else {
                    Err(ParseError { position: q })
                }
            },
        }
    }
}

impl ConditionNode {
    /// Parses the text of a condition into its syntax tree.
    pub fn from_str(input: &str) -> (r: Result<ConditionNode, ParseError>)
        ensures
            match r {
                Ok(node) => parse_condition(input@) == Ok::<NodeView, int>(node@),
                Err(e) => parse_condition(input@) == Err::<NodeView, int>(e.position as int),
            },
    {
        ConditionParser::parse(input)
    }
}

/// Whether a text is a well-formed glob pattern: whether `Pattern::new` of
/// the glob crate accepts it. The glob crate reads a pattern by the path
/// separators of the platform, so this is a function of the text within
/// one build of the library, not across platforms.
pub uninterp spec fn glob_valid(pattern: Seq<char>) -> bool;

/// Whether a glob pattern matches a name: what `Pattern::matches` of the
/// glob crate returns for the compiled pattern, and `false` for a text that
/// is no pattern. The glob crate matches by the path separators of the
/// platform, so this is a function of the two texts within one build of
/// the library, not across platforms.
pub uninterp spec fn glob_match(pattern: Seq<char>, name: Seq<char>) -> bool;

/// Calls `glob::Pattern::new` and reports whether it accepted the text.
/// Nothing is proved of the result: it is named [`glob_valid`].
#[verifier::external_body]
fn is_glob(pattern: &str) -> (r: bool)
    ensures
        r == glob_valid(pattern@),
{
    Pattern::new(pattern).is_ok()
}

/// Calls `glob::Pattern::new` and then `Pattern::matches` on the name; a
/// text that is no pattern matches nothing. Nothing is proved of the result:
/// it is named [`glob_match`].
#[verifier::external_body]
fn glob_matches(pattern: &str, name: &str) -> (r: bool)
    ensures
        r == glob_match(pattern@, name@),
{
    Pattern::new(pattern).map_or(false, |compiled| compiled.matches(name))
}

/// The truth values of the selections, by name, in the order in which they
/// are held.
pub open spec fn outcomes(statement: Seq<(String, bool)>) -> Seq<(Seq<char>, bool)> {
    statement.map_values(|entry: (String, bool)| (entry.0@, entry.1))
}

/// The truth value of the selection `name`: that of the first entry with
/// this name, and `false` where there is none.
pub open spec fn truth(statement: Seq<(Seq<char>, bool)>, name: Seq<char>) -> bool
    decreases statement.len(),
{
    if statement.len() == 0 {
        false
    } else if statement[0].0 == name {
        statement[0].1
    } else {
        truth(statement.skip(1), name)
    }
}

/// Whether an entry before the entry at `i` has the same name.
pub open spec fn named_before(statement: Seq<(Seq<char>, bool)>, i: int) -> bool {
    exists|j: int| 0 <= j < i && j < statement.len() && (#[trigger] statement[j]).0 == statement[i].0
}

/// For each entry, whether the pattern picks it: whether the pattern
/// matches its name and the entry is the first of that name. A name stands
/// for one selection, that of its first entry, however often it is listed.
pub open spec fn picked(pattern: Seq<char>, statement: Seq<(Seq<char>, bool)>) -> Seq<bool> {
    Seq::new(
        statement.len(),
        |i: int| glob_match(pattern, statement[i].0) && !named_before(statement, i),
    )
}

/// The number of selections that are picked and hold.
pub open spec fn hits(picks: Seq<bool>, statement: Seq<(Seq<char>, bool)>) -> nat
    decreases picks.len(),
{
    if picks.len() == 0 || statement.len() == 0 {
        0
    } else {
        hits(picks.drop_last(), statement.drop_last()) + if picks.last() && statement.last().1 {
            1nat
        } else {
            0nat
        }
    }
}

/// Whether a quantifier is met: the pattern is well formed, and at least
/// `n` of the picked selections hold, or all of them do (which is so when
/// none is picked).
pub open spec fn quantified(
    kind: XOfType,
    valid: bool,
    picks: Seq<bool>,
    statement: Seq<(Seq<char>, bool)>,
) -> bool {
    valid && match kind {
        XOfType::NOf(n) => hits(picks, statement) >= n,
        XOfType::AllOf() => forall|i: int|
            0 <= i < picks.len() && i < statement.len() && picks[i] ==> (#[trigger] statement[i]).1,
    }
}

/// The truth value of a condition, given those of the selections. A name
/// that is no selection is false; a quantifier over anything but a name is
/// false.
pub open spec fn eval(node: NodeView, statement: Seq<(Seq<char>, bool)>) -> bool
    decreases node,
{
    match node {
        NodeView::Identifier(name) => truth(statement, name),
        NodeView::Not(inner) => !eval(*inner, statement),
        NodeView::XOf(kind, inner) => match *inner {
            NodeView::Identifier(pattern) => quantified(
                kind,
                glob_valid(pattern),
                picked(pattern, statement),
                statement,
            ),
            _ => false,
        },
        NodeView::BoolOp { lhs, op, rhs } => match op {
            BoolOp::Or => eval(*lhs, statement) || eval(*rhs, statement),
            BoolOp::And => eval(*lhs, statement) && eval(*rhs, statement),
        },
    }
}

/// Whether an entry before the entry at `i` has the same name.
#[verifier::loop_isolation(false)]
pub fn is_named_before(statement: &Vec<(String, bool)>, i: usize) -> (r: bool)
    requires
        i < statement.len(),
    ensures
        r == named_before(outcomes(statement@), i as int),
{
    let ghost all = outcomes(statement@);
    let mut j: usize = 0;
    while j < i
        invariant
            j <= i,
            forall|k: int| 0 <= k < j ==> (#[trigger] all[k]).0 != all[i as int].0,
        decreases i - j,
    {
        assert(all[j as int] == (statement[j as int].0@, statement[j as int].1));
        assert(all[i as int] == (statement[i as int].0@, statement[i as int].1));
        if same_text(statement[j].0.as_str(), statement[i].0.as_str()) {
            return true;
        }
        j += 1;
    }
    false
}

/// The truth value of the selection `name`.
#[verifier::loop_isolation(false)]
pub fn lookup_truth(statement: &Vec<(String, bool)>, name: &str) -> (r: bool)
    ensures
        r == truth(outcomes(statement@), name@),
{
    let ghost all = outcomes(statement@);
    assert(all.skip(0) == all);
    let mut i: usize = 0;
    while i < statement.len()
        invariant
            i <= statement.len(),
            truth(all, name@) == truth(all.skip(i as int), name@),
        decreases statement.len() - i,
    {
        proof {
            let rest = all.skip(i as int);
            assert(rest[0] == all[i as int]);
            assert(rest.skip(1) == all.skip(i as int + 1));
            assert(all[i as int] == (statement[i as int].0@, statement[i as int].1));
        }
        if same_text(statement[i].0.as_str(), name) {
            return statement[i].1;
        }
        i += 1;
    }
    false
}

/// Decides a quantifier from what the pattern picked: `picks[i]` says
/// whether the pattern matched the name of the `i`-th selection.
#[verifier::loop_isolation(false)]
pub fn quantify(kind: &XOfType, valid: bool, picks: &Vec<bool>, statement: &Vec<(String, bool)>) -> (r:
    bool)
    requires
        picks.len() == statement.len(),
    ensures
        r == quantified(*kind, valid, picks@, outcomes(statement@)),
{
    if !valid {
        return false;
    }
    let ghost all = outcomes(statement@);
    match kind {
        XOfType::NOf(n) => {
            let mut count: usize = 0;
            let mut i: usize = 0;
            while i < picks.len()
                invariant
                    i <= picks.len(),
                    count <= i,
                    count == hits(picks@.take(i as int), all.take(i as int)),
                decreases picks.len() - i,
            {
                proof {
                    assert(picks@.take(i + 1).drop_last() == picks@.take(i as int));
                    assert(all.take(i + 1).drop_last() == all.take(i as int));
                    assert(all[i as int] == (statement[i as int].0@, statement[i as int].1));
                }
                if picks[i] && statement[i].1 {
                    count += 1;
                }
                i += 1;
            }
            proof {
                assert(picks@.take(picks.len() as int) == picks@);
                assert(all.take(picks.len() as int) == all);
            }
            *n <= 0 || (count as u64) >= (*n as u64)
        },
        XOfType::AllOf() => {
            let mut i: usize = 0;
            while i < picks.len()
                invariant
                    i <= picks.len(),
                    forall|j: int| 0 <= j < i && picks[j] ==> (#[trigger] all[j]).1,
                decreases picks.len() - i,
            {
                assert(all[i as int] == (statement[i as int].0@, statement[i as int].1));
                if picks[i] && !statement[i].1 {
                    return false;
                }
                i += 1;
            }
            true
        },
    }
}

/// Evaluates a condition node against the truth values of the selections.
#[verifier::loop_isolation(false)]
pub fn is_match(statement: &Vec<(String, bool)>, begin: &ConditionNode) -> (r: bool)
    ensures
        r == eval(begin@, outcomes(statement@)),
    decreases begin,
{
    proof {
        reveal_with_fuel(<ConditionNode as View>::view, 2);
    }
    match begin {
        ConditionNode::Identifier(name) => lookup_truth(statement, name.as_str()),
        ConditionNode::Not(inner) => !is_match(statement, inner),
        ConditionNode::XOf(kind, inner) => {
            match &**inner {
                ConditionNode::Identifier(pattern) => {
                    let valid = is_glob(pattern.as_str());
                    let ghost all = outcomes(statement@);
                    let mut picks: Vec<bool> = Vec::new();
                    let mut i: usize = 0;
                    while i < statement.len()
                        invariant
                            i <= statement.len(),
                            picks.len() == i,
                            forall|j: int|
                                0 <= j < i ==> #[trigger] picks[j] == (glob_match(pattern@, all[j].0)
                                    && !named_before(all, j)),
                        decreases statement.len() - i,
                    {
                        assert(all[i as int] == (statement[i as int].0@, statement[i as int].1));
                        let matched = glob_matches(pattern.as_str(), statement[i].0.as_str());
                        let repeated = is_named_before(statement, i);
                        picks.push(matched && !repeated);
                        i += 1;
                    }
                    assert(picks@ =~= picked(pattern@, all));
                    quantify(kind, valid, &picks, statement)
                },
                _ => false,
            }
        },
        ConditionNode::BoolOp { lhs, op, rhs } => match op {
            BoolOp::Or => is_match(statement, lhs) || is_match(statement, rhs),
            BoolOp::And => is_match(statement, lhs) && is_match(statement, rhs),
        },
    }
}

/// The condition of a detection.
#[derive(Debug)]
pub struct Condition {
    ast: ConditionNode,
}

impl View for Condition {
    type V = NodeView;

    closed spec fn view(&self) -> NodeView {
        self.ast@
    }
}

impl Condition {
    /// Reads the text of a condition. Fails with the position at which the
    /// text stops being one.
    pub fn new(input: &str) -> (r: Result<Condition, ParseError>)
        ensures
            match r {
                Ok(c) => parse_condition(input@) == Ok::<NodeView, int>(c@),
                Err(e) => parse_condition(input@) == Err::<NodeView, int>(e.position as int),
            },
    {
        match ConditionNode::from_str(input) {
            Ok(ast) => Ok(Condition { ast }),
            Err(e) => Err(e),
        }
    }

    /// Whether the condition holds, given the truth value of each selection.
    pub fn is_match(&self, statement: &Vec<(String, bool)>) -> (r: bool)
        ensures
            r == eval(self@, outcomes(statement@)),
    {
        is_match(statement, &self.ast)
    }
}

} // verus!
