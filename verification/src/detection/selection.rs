//! A selection: field tests that must all hold of an event.
use vstd::prelude::*;
use cidr::AnyIpCidr;
use regex::RegexBuilder;
use crate::text::{
    chars_of, has_infix, has_prefix, has_suffix, is_infix, lowercase, parse_i64, same_text, split,
    split_text, texts, to_i64, to_lowercase,
};
use crate::value::{
    get_terminal_from_dotted_path, integer, resolve, resolve_or_null, views, Number, Value,
    ValueView,
};
use crate::yaml::{text_of, Yaml};

verus! {

/// Why a detection could not be built from its document.
#[derive(Debug, Clone, Copy, PartialEq, Eq, Structural)]
pub enum DetectionError {
    /// The detection is no mapping, or has no `condition` that is a string.
    InvalidDetection,
    /// A key of a selection is no string.
    InvalidKey,
    /// A field name is followed by a modifier that is not known.
    InvalidModifier,
    /// A regular expression is followed by a flag other than `i`, `m`, `s`.
    InvalidRegexFlag,
    /// The value of a regular expression is no string, or does not compile.
    InvalidRegex,
    /// A value is a mapping, or a sequence holds anything but strings,
    /// numbers and booleans.
    InvalidValueType,
    /// A selection is neither a mapping nor a sequence of strings and
    /// mappings.
    InvalidSelection,
    /// The condition is malformed at this character.
    InvalidCondition(usize),
}

/// The encodings that a base64 modifier can ask for.
#[derive(Debug, Clone, Copy, PartialEq, Eq, Structural)]
pub enum Base64Modifier {
    Utf16Le,
    Utf16Be,
    Utf16,
    Wide,
}

/// How a field test compares the value of the rule with that of the event.
#[derive(Debug, Clone, Copy, PartialEq, Eq, Structural)]
pub enum Modifier {
    All,
    StartsWith,
    EndsWith,
    Contains,
    Exists,
    Cased,
    /// The value of the rule is a regular expression, with its flags.
    Re { case_insensitive: bool, multi_line: bool, dot_matches_new_line: bool },
    Base64(Option<Base64Modifier>),
    Base64Offset,
    Lt,
    Lte,
    Gt,
    Gte,
    Cidr,
    Expand,
    FieldRef,
}

/// The addresses of a network: all of them, or a range of one family.
#[derive(Debug, Clone, Copy, PartialEq, Eq, Structural)]
#[allow(inconsistent_fields)]
pub enum IpRange {
    Any,
    V4 { first: u32, last: u32 },
    V6 { first: u128, last: u128 },
}

/// Whether a regular expression with these flags compiles: whether
/// `RegexBuilder::build` of the regex crate accepts it.
pub uninterp spec fn regex_valid(
    pattern: Seq<char>,
    case_insensitive: bool,
    multi_line: bool,
    dot_matches_new_line: bool,
) -> bool;

/// Whether a regular expression with these flags matches somewhere in a
/// text: what `Regex::is_match` of the regex crate returns for the compiled
/// expression, and `false` for one that does not compile.
pub uninterp spec fn regex_match(
    pattern: Seq<char>,
    case_insensitive: bool,
    multi_line: bool,
    dot_matches_new_line: bool,
    text: Seq<char>,
) -> bool;

/// The network that a text writes, as `AnyIpCidr::from_str` of the cidr
/// crate reads it, by its first and last address; none where the text is
/// no network.
pub uninterp spec fn cidr_range(text: Seq<char>) -> Option<IpRange>;

/// Builds the expression with `regex::RegexBuilder` and reports whether
/// `build` accepted it. Nothing is proved of the result: it is named
/// [`regex_valid`].
#[verifier::external_body]
fn regex_compiles(pattern: &str, case_insensitive: bool, multi_line: bool, dot_matches_new_line: bool) -> (r:
    bool)
    ensures
        r == regex_valid(pattern@, case_insensitive, multi_line, dot_matches_new_line),
{
    RegexBuilder::new(pattern).case_insensitive(case_insensitive).multi_line(
        multi_line,
    ).dot_matches_new_line(dot_matches_new_line).build().is_ok()
}

/// Builds the expression with `regex::RegexBuilder` and calls
/// `Regex::is_match` on the text; an expression that does not compile
/// matches nothing. Nothing is proved of the result: it is named
/// [`regex_match`].
#[verifier::external_body]
fn regex_is_match(
    pattern: &str,
    case_insensitive: bool,
    multi_line: bool,
    dot_matches_new_line: bool,
    text: &str,
) -> (r: bool)
    ensures
        r == regex_match(pattern@, case_insensitive, multi_line, dot_matches_new_line, text@),
{
    RegexBuilder::new(pattern).case_insensitive(case_insensitive).multi_line(
        multi_line,
    ).dot_matches_new_line(dot_matches_new_line).build().map_or(false, |re| re.is_match(text))
}

/// Reads a network with `AnyIpCidr::from_str` of the cidr crate and hands
/// out its first and last address as integers. Nothing is proved of the
/// result: it is named [`cidr_range`].
#[verifier::external_body]
fn parse_cidr(text: &str) -> (r: Option<IpRange>)
    ensures
        r == cidr_range(text@),
{
    match text.parse::<AnyIpCidr>() {
        Err(_) => None,
        Ok(AnyIpCidr::Any) => Some(IpRange::Any),
        Ok(AnyIpCidr::V4(net)) => Some(
            IpRange::V4 { first: net.first_address().into(), last: net.last_address().into() },
        ),
        Ok(AnyIpCidr::V6(net)) => Some(
            IpRange::V6 { first: net.first_address().into(), last: net.last_address().into() },
        ),
    }
}

/// Whether a network holds the first and the last address of another: the
/// network of all addresses holds every address and has itself no first or
/// last one.
pub open spec fn covers(outer: IpRange, inner: IpRange) -> bool {
    match (outer, inner) {
        (_, IpRange::Any) => false,
        (IpRange::Any, _) => true,
        (IpRange::V4 { first: a, last: b }, IpRange::V4 { first: c, last: d }) => a <= c <= b && a
            <= d <= b,
        (IpRange::V6 { first: a, last: b }, IpRange::V6 { first: c, last: d }) => a <= c <= b && a
            <= d <= b,
        _ => false,
    }
}

/// Whether `inner` lies within `outer`.
pub fn range_covers(outer: &IpRange, inner: &IpRange) -> (r: bool)
    ensures
        r == covers(*outer, *inner),
{
    match (outer, inner) {
        (_, IpRange::Any) => false,
        (IpRange::Any, _) => true,
        (IpRange::V4 { first: a, last: b }, IpRange::V4 { first: c, last: d }) => *a <= *c && *c
            <= *b && *a <= *d && *d <= *b,
        (IpRange::V6 { first: a, last: b }, IpRange::V6 { first: c, last: d }) => *a <= *c && *c
            <= *b && *a <= *d && *d <= *b,
        _ => false,
    }
}

/// The integer that an event holds at a field, for a comparison: a number
/// that is an integer in `i64`, or a string that writes one.
pub open spec fn comparable(log: ValueView) -> Option<i64> {
    match log {
        ValueView::Number(_) => integer(log),
        ValueView::String(s) => parse_i64(s),
        _ => None,
    }
}

/// Whether every value of `want` is among those of `have`.
pub open spec fn includes(have: Seq<ValueView>, want: Seq<ValueView>) -> bool {
    forall|i: int| 0 <= i < want.len() ==> have.contains(#[trigger] want[i])
}

/// Whether one modifier holds, for the value of the rule and the event.
pub open spec fn modifier_holds(m: Modifier, key: Seq<char>, value: ValueView, event: ValueView) -> bool {
    let log = resolve_or_null(event, key);
    match m {
        Modifier::All => log matches ValueView::Array(have) && value matches ValueView::Array(want)
            && includes(have, want),
        Modifier::StartsWith => value matches ValueView::String(v) && log matches ValueView::String(
            l,
        ) && v.is_prefix_of(l),
        Modifier::EndsWith => value matches ValueView::String(v) && log matches ValueView::String(l)
            && v.is_suffix_of(l),
        Modifier::Contains => value matches ValueView::String(v) && log matches ValueView::String(l)
            && is_infix(v, l),
        Modifier::Exists => !(log is Null),
        Modifier::Cased => value matches ValueView::String(v) && log matches ValueView::String(l)
            && l == v,
        Modifier::Re { case_insensitive, multi_line, dot_matches_new_line } => value matches ValueView::String(
            v,
        ) && log matches ValueView::String(l) && regex_match(
            v,
            case_insensitive,
            multi_line,
            dot_matches_new_line,
            l,
        ),
        Modifier::Base64(_) => false,
        Modifier::Base64Offset => false,
        Modifier::Lt => integer(value) matches Some(v) && comparable(log) matches Some(n) && n < v,
        Modifier::Lte => integer(value) matches Some(v) && comparable(log) matches Some(n) && n
            <= v,
        Modifier::Gt => integer(value) matches Some(v) && comparable(log) matches Some(n) && n > v,
        Modifier::Gte => integer(value) matches Some(v) && comparable(log) matches Some(n) && n
            >= v,
        Modifier::Cidr => value matches ValueView::String(v) && log matches ValueView::String(l)
            && cidr_range(v) matches Some(outer) && cidr_range(l) matches Some(inner) && covers(
            outer,
            inner,
        ),
        Modifier::Expand => false,
        Modifier::FieldRef => value matches ValueView::String(v) && resolve(event, v) matches Some(
            other,
        ) && log == other,
    }
}

/// Whether a sequence of values holds one that is the same as `needle`.
#[verifier::loop_isolation(false)]
pub fn holds_value(items: &Vec<Value>, needle: &Value) -> (r: bool)
    ensures
        r == views(items@).contains(needle@),
{
    let mut i: usize = 0;
    while i < items.len()
        invariant
            i <= items.len(),
            forall|j: int| 0 <= j < i ==> views(items@)[j] != needle@,
        decreases items.len() - i,
    {
        if items[i].same(needle) {
            assert(views(items@)[i as int] == needle@);
            return true;
        }
        i += 1;
    }
    false
}

/// Whether every value of `want` is among those of `have`.
#[verifier::loop_isolation(false)]
pub fn holds_all(have: &Vec<Value>, want: &Vec<Value>) -> (r: bool)
    ensures
        r == includes(views(have@), views(want@)),
{
    let mut i: usize = 0;
    while i < want.len()
        invariant
            i <= want.len(),
            forall|j: int| 0 <= j < i ==> views(have@).contains(#[trigger] views(want@)[j]),
        decreases want.len() - i,
    {
        if !holds_value(have, &want[i]) {
            assert(!views(have@).contains(views(want@)[i as int]));
            return false;
        }
        i += 1;
    }
    true
}

/// The integer of an event value, for a comparison.
pub fn comparable_of(log: &Value) -> (r: Option<i64>)
    ensures
        r == comparable(log@),
{
    match log {
        Value::Number(_) => log.as_i64(),
        Value::String(s) => to_i64(s.as_str()),
        _ => None,
    }
}

impl Modifier {
    /// Whether the modifier holds of the field `key` of the event, for the
    /// value of the rule.
    pub fn eval(&self, key: &String, value: &Value, full_log: &Value) -> (r: bool)
        ensures
            r == modifier_holds(*self, key@, value@, full_log@),
    {
        let null = Value::Null;
        let log: &Value = match get_terminal_from_dotted_path(key.as_str(), full_log) {
            Some(found) => found,
            None => &null,
        };
        assert(log@ == resolve_or_null(full_log@, key@));
        match self {
            Modifier::All => match (log.as_array(), value.as_array()) {
                (Some(have), Some(want)) => holds_all(have, want),
                _ => false,
            },
            Modifier::StartsWith => match (value.as_str(), log.as_str()) {
                (Some(v), Some(l)) => has_prefix(&chars_of(l.as_str()), &chars_of(v.as_str())),
                _ => false,
            },
            Modifier::EndsWith => match (value.as_str(), log.as_str()) {
                (Some(v), Some(l)) => has_suffix(&chars_of(l.as_str()), &chars_of(v.as_str())),
                _ => false,
            },
            Modifier::Contains => match (value.as_str(), log.as_str()) {
                (Some(v), Some(l)) => has_infix(&chars_of(l.as_str()), &chars_of(v.as_str())),
                _ => false,
            },
            Modifier::Exists => !log.is_null(),
            Modifier::Cased => match (value.as_str(), log.as_str()) {
                (Some(v), Some(l)) => same_text(l.as_str(), v.as_str()),
                _ => false,
            },
            Modifier::Re { case_insensitive, multi_line, dot_matches_new_line } => match (
                value.as_str(),
                log.as_str(),
            ) {
                (Some(v), Some(l)) => regex_is_match(
                    v.as_str(),
                    *case_insensitive,
                    *multi_line,
                    *dot_matches_new_line,
                    l.as_str(),
                ),
                _ => false,
            },
            Modifier::Base64(_) => false,
            Modifier::Base64Offset => false,
            Modifier::Lt => match (value.as_i64(), comparable_of(log)) {
                (Some(v), Some(n)) => n < v,
                _ => false,
            },
            Modifier::Lte => match (value.as_i64(), comparable_of(log)) {
                (Some(v), Some(n)) => n <= v,
                _ => false,
            },
            Modifier::Gt => match (value.as_i64(), comparable_of(log)) {
                (Some(v), Some(n)) => n > v,
                _ => false,
            },
            Modifier::Gte => match (value.as_i64(), comparable_of(log)) {
                (Some(v), Some(n)) => n >= v,
                _ => false,
            },
            Modifier::Cidr => match (value.as_str(), log.as_str()) {
                (Some(v), Some(l)) => match (parse_cidr(v.as_str()), parse_cidr(l.as_str())) {
                    (Some(outer), Some(inner)) => range_covers(&outer, &inner),
                    _ => false,
                },
                _ => false,
            },
            Modifier::Expand => false,
            Modifier::FieldRef => match value.as_str() {
                Some(v) => match get_terminal_from_dotted_path(v.as_str(), full_log) {
                    Some(other) => log.same(other),
                    None => false,
                },
                None => false,
            },
        }
    }
}

/// One test of a selection: a field with its modifiers and values.
#[derive(Debug)]
pub struct Field {
    key: String,
    values: Vec<Value>,
    modifiers: Vec<Modifier>,
}

/// The mathematical content of a [`Field`].
pub struct FieldView {
    pub key: Seq<char>,
    pub values: Seq<ValueView>,
    pub modifiers: Seq<Modifier>,
}

impl View for Field {
    type V = FieldView;

    closed spec fn view(&self) -> FieldView {
        FieldView { key: self.key@, values: views(self.values@), modifiers: self.modifiers@ }
    }
}

/// An item of a selection: a field test, or a keyword that the event has to
/// contain.
#[derive(Debug)]
pub enum MatchType {
    Field(Field),
    Exact(String),
}

/// The mathematical content of a [`MatchType`].
pub enum MatchView {
    Field(FieldView),
    Exact(Seq<char>),
}

impl View for MatchType {
    type V = MatchView;

    open spec fn view(&self) -> MatchView {
        match self {
            MatchType::Field(f) => MatchView::Field(f@),
            MatchType::Exact(s) => MatchView::Exact(s@),
        }
    }
}

/// The contents of a sequence of items.
pub open spec fn match_views(items: Seq<MatchType>) -> Seq<MatchView> {
    items.map_values(|m: MatchType| m@)
}

/// A named part of a detection: items that must all hold.
#[derive(Debug)]
pub struct Selection {
    items: Vec<MatchType>,
}

impl View for Selection {
    type V = Seq<MatchView>;

    closed spec fn view(&self) -> Seq<MatchView> {
        match_views(self.items@)
    }
}

/// What is left to do put behind what is done: the values so far in front
/// of those that follow, or the error that follows.
pub open spec fn prepend<T>(done: Seq<T>, rest: Result<Seq<T>, DetectionError>) -> Result<
    Seq<T>,
    DetectionError,
> {
    match rest {
        Ok(more) => Ok(done + more),
        Err(e) => Err(e),
    }
}

proof fn lemma_prepend<T>(done: Seq<T>, more: Seq<T>, rest: Result<Seq<T>, DetectionError>)
    ensures
        prepend(done, prepend(more, rest)) == prepend(done + more, rest),
        prepend(done, Ok(Seq::empty())) == Ok::<Seq<T>, DetectionError>(done),
{
    match rest {
        Ok(r) => {
            assert(done + (more + r) =~= (done + more) + r);
        },
        Err(_) => {},
    }
    assert(done + Seq::<T>::empty() =~= done);
}

/// Whether the bits are those of a finite binary64 number.
pub open spec fn is_finite(bits: u64) -> bool {
    (bits / 0x10_0000_0000_0000) % 0x800 != 0x7ff
}

/// The event value that a number of a rule stands for; a number that is not
/// finite stands for null.
pub open spec fn number_value(n: Number) -> ValueView {
    match n {
        Number::Float(bits) => if is_finite(bits) {
            ValueView::Number(n@)
        } else {
            ValueView::Null
        },
        _ => ValueView::Number(n@),
    }
}

/// The event value that a scalar of a rule stands for, null apart.
pub open spec fn scalar_value(y: Yaml) -> Option<ValueView> {
    match y {
        Yaml::String(s) => Some(ValueView::String(s@)),
        Yaml::Number(n) => Some(number_value(n)),
        Yaml::Bool(b) => Some(ValueView::Bool(b)),
        _ => None,
    }
}

/// The values of a sequence of scalars, in order.
pub open spec fn item_values(items: Seq<Yaml>) -> Result<Seq<ValueView>, DetectionError>
    decreases items.len(),
{
    if items.len() == 0 {
        Ok(Seq::empty())
    } else {
        match scalar_value(items[0]) {
            None => Err(DetectionError::InvalidValueType),
            Some(v) => prepend(seq![v], item_values(items.skip(1))),
        }
    }
}

/// The values that a field test compares with: one for a scalar, null
/// included, and one for each item of a sequence of strings, numbers and
/// booleans.
pub open spec fn values_of(y: Yaml) -> Result<Seq<ValueView>, DetectionError> {
    match y {
        Yaml::Null => Ok(seq![ValueView::Null]),
        Yaml::Sequence(items) => item_values(items@),
        Yaml::Mapping(_) => Err(DetectionError::InvalidValueType),
        _ => Ok(seq![scalar_value(y).unwrap()]),
    }
}

/// The modifier that a word names; the regular expression apart, which has
/// flags.
pub open spec fn modifier_named(t: Seq<char>) -> Option<Modifier> {
    if t == "all"@ {
        Some(Modifier::All)
    } else if t == "startswith"@ {
        Some(Modifier::StartsWith)
    } else if t == "endswith"@ {
        Some(Modifier::EndsWith)
    } else if t == "contains"@ {
        Some(Modifier::Contains)
    } else if t == "exists"@ {
        Some(Modifier::Exists)
    } else if t == "cased"@ {
        Some(Modifier::Cased)
    } else if t == "base64"@ {
        Some(Modifier::Base64(None))
    } else if t == "base64offset"@ {
        Some(Modifier::Base64Offset)
    } else if t == "lt"@ {
        Some(Modifier::Lt)
    } else if t == "lte"@ {
        Some(Modifier::Lte)
    } else if t == "gt"@ {
        Some(Modifier::Gt)
    } else if t == "gte"@ {
        Some(Modifier::Gte)
    } else if t == "cidr"@ {
        Some(Modifier::Cidr)
    } else if t == "expand"@ {
        Some(Modifier::Expand)
    } else if t == "fieldref"@ {
        Some(Modifier::FieldRef)
    } else {
        None
    }
}

/// Whether a word names the regular expression modifier.
pub open spec fn is_regex_word(t: Seq<char>) -> bool {
    t == "re"@ || t == "regex"@
}

/// The flags that the words after a regular expression modifier set:
/// `i`, `m` and `s`, in any order; none where another word stands there.
pub open spec fn regex_flags(tokens: Seq<Seq<char>>) -> Option<(bool, bool, bool)>
    decreases tokens.len(),
{
    if tokens.len() == 0 {
        Some((false, false, false))
    } else {
        match regex_flags(tokens.drop_last()) {
            None => None,
            Some((i, m, s)) => {
                let t = tokens.last();
                if t == "i"@ {
                    Some((true, m, s))
                } else if t == "m"@ {
                    Some((i, true, s))
                } else if t == "s"@ {
                    Some((i, m, true))
                } else {
                    None
                }
            },
        }
    }
}

/// The modifiers that the words after a field name write. A regular
/// expression takes the words after it as its flags and the value of the
/// field as its text.
pub open spec fn modifiers_of(tokens: Seq<Seq<char>>, value: Yaml) -> Result<
    Seq<Modifier>,
    DetectionError,
>
    decreases tokens.len(),
{
    if tokens.len() == 0 {
        Ok(Seq::empty())
    } else if is_regex_word(tokens[0]) {
        match text_of(value) {
            None => Err(DetectionError::InvalidRegex),
            Some(pattern) => match regex_flags(tokens.skip(1)) {
                None => Err(DetectionError::InvalidRegexFlag),
                Some((i, m, s)) => if regex_valid(pattern, i, m, s) {
                    Ok(
                        seq![
                            Modifier::Re {
                                case_insensitive: i,
                                multi_line: m,
                                dot_matches_new_line: s,
                            },
                        ],
                    )
                } else {
                    Err(DetectionError::InvalidRegex)
                },
            },
        }
    } else {
        match modifier_named(tokens[0]) {
            None => Err(DetectionError::InvalidModifier),
            Some(m) => prepend(seq![m], modifiers_of(tokens.skip(1), value)),
        }
    }
}

/// The field test that a key and its value write: the key is cut at every
/// `|` into the field name and the modifiers.
pub open spec fn field_of(key: Seq<char>, value: Yaml) -> Result<FieldView, DetectionError> {
    let tokens = split(key, '|');
    match modifiers_of(tokens.skip(1), value) {
        Err(e) => Err(e),
        Ok(modifiers) => match values_of(value) {
            Err(e) => Err(e),
            Ok(values) => Ok(FieldView { key: tokens[0], values, modifiers }),
        },
    }
}

/// The field tests that the entries of a mapping write, in order.
pub open spec fn fields_of(entries: Seq<(Yaml, Yaml)>) -> Result<Seq<MatchView>, DetectionError>
    decreases entries.len(),
{
    if entries.len() == 0 {
        Ok(Seq::empty())
    } else {
        match text_of(entries[0].0) {
            None => Err(DetectionError::InvalidKey),
            Some(key) => match field_of(key, entries[0].1) {
                Err(e) => Err(e),
                Ok(f) => prepend(seq![MatchView::Field(f)], fields_of(entries.skip(1))),
            },
        }
    }
}

/// The items that the members of a sequence write: a string is a keyword,
/// a mapping gives its field tests.
pub open spec fn keys_of(items: Seq<Yaml>) -> Result<Seq<MatchView>, DetectionError>
    decreases items.len(),
{
    if items.len() == 0 {
        Ok(Seq::empty())
    } else {
        match items[0] {
            Yaml::String(s) => prepend(seq![MatchView::Exact(s@)], keys_of(items.skip(1))),
            Yaml::Mapping(m) => match fields_of(m@) {
                Err(e) => Err(e),
                Ok(fields) => prepend(fields, keys_of(items.skip(1))),
            },
            _ => Err(DetectionError::InvalidSelection),
        }
    }
}

/// The selection that a value of a rule writes.
pub open spec fn selection_of(y: Yaml) -> Result<Seq<MatchView>, DetectionError> {
    match y {
        Yaml::Sequence(keys) => keys_of(keys@),
        Yaml::Mapping(m) => fields_of(m@),
        _ => Err(DetectionError::InvalidSelection),
    }
}

/// Whether a text matches a value with wildcards, letter case apart: a `*`
/// at the start or at the end of the value stands for any run of
/// characters there, and the rest of the value has to stand at the other
/// end, or somewhere where both are there.
pub open spec fn wildcard_holds(pattern: Seq<char>, text: Seq<char>) -> bool {
    let n = pattern.len() as int;
    let lead = n > 0 && pattern[0] == '*';
    let trail = n > 0 && pattern[n - 1] == '*';
    let stop = if n >= 2 {
        n - 1
    } else {
        1
    };
    if lead && trail {
        is_infix(lowercase(pattern.subrange(1, stop)), lowercase(text))
    } else if lead {
        lowercase(pattern.subrange(1, n)).is_suffix_of(lowercase(text))
    } else if trail {
        lowercase(pattern.subrange(0, n - 1)).is_prefix_of(lowercase(text))
    } else {
        lowercase(text) == lowercase(pattern)
    }
}

/// Whether a value of the rule matches what the event holds at the field,
/// where the field has no modifier: strings with wildcards and letter case
/// apart, numbers by value, and null where the field is missing or null.
pub open spec fn default_holds(value: ValueView, found: Option<ValueView>) -> bool {
    match found {
        Some(ValueView::String(l)) => value matches ValueView::String(v) && wildcard_holds(v, l),
        Some(ValueView::Number(n)) => value matches ValueView::Number(m) && n == m,
        Some(ValueView::Null) => value is Null,
        None => value is Null,
        _ => false,
    }
}

/// Whether one of the values matches by default.
pub open spec fn any_default(values: Seq<ValueView>, found: Option<ValueView>) -> bool {
    exists|i: int| 0 <= i < values.len() && default_holds(#[trigger] values[i], found)
}

/// Whether all the modifiers hold of one value.
pub open spec fn all_modifiers(
    modifiers: Seq<Modifier>,
    key: Seq<char>,
    value: ValueView,
    event: ValueView,
) -> bool {
    forall|i: int|
        0 <= i < modifiers.len() ==> modifier_holds(#[trigger] modifiers[i], key, value, event)
}

/// What a modifier is held against, where the values are tried one by one:
/// `All` reads the values as a whole, as an array; every other modifier
/// reads the one value that is tried.
pub open spec fn value_for(m: Modifier, values: Seq<ValueView>, i: int) -> ValueView {
    if m is All {
        ValueView::Array(values)
    } else {
        values[i]
    }
}

/// Whether the value at `i` meets every modifier.
pub open spec fn meets(
    modifiers: Seq<Modifier>,
    key: Seq<char>,
    values: Seq<ValueView>,
    i: int,
    event: ValueView,
) -> bool {
    forall|j: int|
        0 <= j < modifiers.len() ==> modifier_holds(
            #[trigger] modifiers[j],
            key,
            value_for(modifiers[j], values, i),
            event,
        )
}

/// Whether one of the values meets every modifier.
pub open spec fn any_meets(
    modifiers: Seq<Modifier>,
    key: Seq<char>,
    values: Seq<ValueView>,
    event: ValueView,
) -> bool {
    exists|i: int| 0 <= i < values.len() && #[trigger] meets(modifiers, key, values, i, event)
}

/// Whether a field test holds of an event. Without modifiers one of the
/// values has to match by default. With modifiers one of the values has to
/// meet them all, where `All` is met by the values taken together; without
/// any value the modifiers are held against the empty array.
pub open spec fn field_holds(f: FieldView, event: ValueView) -> bool {
    if f.modifiers.len() == 0 {
        any_default(f.values, resolve(event, f.key))
    } else if f.values.len() == 0 {
        all_modifiers(f.modifiers, f.key, ValueView::Array(f.values), event)
    } else {
        any_meets(f.modifiers, f.key, f.values, event)
    }
}

/// Whether an item of a selection holds of an event.
pub open spec fn item_holds(m: MatchView, event: ValueView) -> bool {
    match m {
        MatchView::Exact(s) => event matches ValueView::String(l) && is_infix(s, l),
        MatchView::Field(f) => field_holds(f, event),
    }
}

/// Whether a selection holds of an event: all of its items do.
pub open spec fn selection_holds(items: Seq<MatchView>, event: ValueView) -> bool {
    forall|i: int| 0 <= i < items.len() ==> item_holds(#[trigger] items[i], event)
}

/// Whether `text` matches `pattern` with wildcards, letter case apart.
pub fn wildcard_match(pattern: &str, text: &str) -> (r: bool)
    ensures
        r == wildcard_holds(pattern@, text@),
{
    let p = chars_of(pattern);
    let n = p.len();
    let low = to_lowercase(text);
    let t = chars_of(low.as_str());
    let lead = n > 0 && p[0] == '*';
    let trail = n > 0 && p[n - 1] == '*';
    if lead && trail {
        let stop: usize = if n >= 2 {
            n - 1
        } else {
            1
        };
        let mid = to_lowercase(pattern.substring_char(1, stop));
        has_infix(&t, &chars_of(mid.as_str()))
    } else if lead {
        let tail = to_lowercase(pattern.substring_char(1, n));
        has_suffix(&t, &chars_of(tail.as_str()))
    } else if trail {
        let head = to_lowercase(pattern.substring_char(0, n - 1));
        has_prefix(&t, &chars_of(head.as_str()))
    } else {
        let whole = to_lowercase(pattern);
        same_text(low.as_str(), whole.as_str())
    }
}

/// Whether `value` matches by default what was found at the field.
pub fn default_match(value: &Value, found: Option<&Value>) -> (r: bool)
    ensures
        r == default_holds(
            value@,
            match found {
                Some(x) => Some(x@),
                None => None,
            },
        ),
{
    match found {
        Some(Value::String(l)) => match value.as_str() {
            Some(v) => wildcard_match(v.as_str(), l.as_str()),
            None => false,
        },
        Some(Value::Number(n)) => match value {
            Value::Number(m) => n.same(m),
            _ => false,
        },
        Some(Value::Null) => value.is_null(),
        None => value.is_null(),
        _ => false,
    }
}

/// The event value of a number of a rule.
pub fn value_of_number(n: &Number) -> (r: Value)
    ensures
        r@ == number_value(*n),
{
    match n {
        Number::Float(bits) => {
            if (*bits / 0x10_0000_0000_0000) % 0x800 != 0x7ff {
                Value::Number(*n)
            } else {
                Value::Null
            }
        },
        _ => Value::Number(*n),
    }
}

/// The event value of a scalar of a rule, null apart.
pub fn value_of_scalar(y: &Yaml) -> (r: Option<Value>)
    ensures
        match r {
            Some(v) => scalar_value(*y) == Some(v@),
            None => scalar_value(*y) is None,
        },
{
    match y {
        Yaml::String(s) => Some(Value::String(s.clone())),
        Yaml::Number(n) => Some(value_of_number(n)),
        Yaml::Bool(b) => Some(Value::Bool(*b)),
        _ => None,
    }
}

/// Whether an executable result is the given mathematical one.
pub open spec fn values_agree(r: Result<Vec<Value>, DetectionError>, m: Result<
    Seq<ValueView>,
    DetectionError,
>) -> bool {
    match r {
        Ok(v) => m == Ok::<Seq<ValueView>, DetectionError>(views(v@)),
        Err(e) => m == Err::<Seq<ValueView>, DetectionError>(e),
    }
}

/// The values that a field test compares with.
#[verifier::loop_isolation(false)]
pub fn values_from(y: &Yaml) -> (r: Result<Vec<Value>, DetectionError>)
    ensures
        values_agree(r, values_of(*y)),
{
    match y {
        Yaml::Null => {
            let out = vec![Value::Null];
            assert(views(out@) =~= seq![ValueView::Null]);
            Ok(out)
        },
        Yaml::Mapping(_) => Err(DetectionError::InvalidValueType),
        Yaml::Sequence(items) => {
            let mut out: Vec<Value> = Vec::new();
            let mut i: usize = 0;
            assert(items@.skip(0) == items@);
            assert(views(out@) =~= Seq::<ValueView>::empty());
            proof {
                lemma_prepend(Seq::<ValueView>::empty(), Seq::empty(), item_values(items@));
            }
            while i < items.len()
                invariant
                    i <= items.len(),
                    item_values(items@) == prepend(views(out@), item_values(items@.skip(i as int))),
                decreases items.len() - i,
            {
                let ghost rest = items@.skip(i as int);
                assert(rest[0] == items@[i as int]);
                assert(rest.skip(1) == items@.skip(i + 1));
                match value_of_scalar(&items[i]) {
                    None => {
                        return Err(DetectionError::InvalidValueType);
                    },
                    Some(v) => {
                        proof {
                            lemma_prepend(
                                views(out@),
                                seq![v@],
                                item_values(items@.skip(i + 1)),
                            );
                            assert(views(out@.push(v)) =~= views(out@) + seq![v@]);
                        }
                        out.push(v);
                    },
                }
                i += 1;
            }
            proof {
                lemma_prepend(views(out@), Seq::empty(), Ok(Seq::empty()));
            }
            Ok(out)
        },
        _ => match value_of_scalar(y) {
            Some(v) => {
                let out = vec![v];
                assert(views(out@) =~= seq![v@]);
                Ok(out)
            },
            None => Err(DetectionError::InvalidValueType),
        },
    }
}

/// The modifier that a word names.
pub fn modifier_from(word: &str) -> (r: Option<Modifier>)
    ensures
        r == modifier_named(word@),
{
    if same_text(word, "all") {
        Some(Modifier::All)
    } else if same_text(word, "startswith") {
        Some(Modifier::StartsWith)
    } else if same_text(word, "endswith") {
        Some(Modifier::EndsWith)
    } else if same_text(word, "contains") {
        Some(Modifier::Contains)
    } else if same_text(word, "exists") {
        Some(Modifier::Exists)
    } else if same_text(word, "cased") {
        Some(Modifier::Cased)
    } else if same_text(word, "base64") {
        Some(Modifier::Base64(None))
    } else if same_text(word, "base64offset") {
        Some(Modifier::Base64Offset)
    } else if same_text(word, "lt") {
        Some(Modifier::Lt)
    } else if same_text(word, "lte") {
        Some(Modifier::Lte)
    } else if same_text(word, "gt") {
        Some(Modifier::Gt)
    } else if same_text(word, "gte") {
        Some(Modifier::Gte)
    } else if same_text(word, "cidr") {
        Some(Modifier::Cidr)
    } else if same_text(word, "expand") {
        Some(Modifier::Expand)
    } else if same_text(word, "fieldref") {
        Some(Modifier::FieldRef)
    } else {
        None
    }
}

/// The flags that the words from `from` on set.
#[verifier::loop_isolation(false)]
fn flags_from(words: &Vec<String>, from: usize) -> (r: Option<(bool, bool, bool)>)
    requires
        from <= words.len(),
    ensures
        r == regex_flags(texts(words@).skip(from as int)),
{
    let ghost tokens = texts(words@).skip(from as int);
    let mut flags = (false, false, false);
    let mut i: usize = from;
    assert(tokens.take(0).len() == 0);
    while i < words.len()
        invariant
            from <= i <= words.len(),
            regex_flags(tokens.take(i - from)) == Some(flags),
        decreases words.len() - i,
    {
        proof {
            let next = tokens.take(i - from + 1);
            assert(next.drop_last() == tokens.take(i - from));
            assert(next.last() == words[i as int]@);
        }
        let word = words[i].as_str();
        if same_text(word, "i") {
            flags = (true, flags.1, flags.2);
        } else if same_text(word, "m") {
            flags = (flags.0, true, flags.2);
        } else if same_text(word, "s") {
            flags = (flags.0, flags.1, true);
        } else {
            proof {
                lemma_flags_prefix(tokens, i - from + 1);
            }
            return None;
        }
        i += 1;
    }
    assert(tokens.take(words.len() - from) == tokens);
    Some(flags)
}

proof fn lemma_flags_prefix(tokens: Seq<Seq<char>>, k: int)
    requires
        0 <= k <= tokens.len(),
        regex_flags(tokens.take(k)) is None,
    ensures
        regex_flags(tokens) is None,
    decreases tokens.len(),
{
    if k == tokens.len() {
        assert(tokens.take(k) == tokens);
    } else {
        assert(tokens.drop_last().take(k) == tokens.take(k));
        lemma_flags_prefix(tokens.drop_last(), k);
    }
}

/// The modifiers that the words from `from` on write.
fn modifiers_from(words: &Vec<String>, from: usize, value: &Yaml) -> (r: Result<
    Vec<Modifier>,
    DetectionError,
>)
    requires
        from <= words.len(),
    ensures
        match r {
            Ok(m) => modifiers_of(texts(words@).skip(from as int), *value) == Ok::<
                Seq<Modifier>,
                DetectionError,
            >(m@),
            Err(e) => modifiers_of(texts(words@).skip(from as int), *value) == Err::<
                Seq<Modifier>,
                DetectionError,
            >(e),
        },
    decreases words.len() - from,
{
    let ghost tokens = texts(words@).skip(from as int);
    if from == words.len() {
        return Ok(Vec::new());
    }
    assert(tokens[0] == words[from as int]@);
    assert(tokens.skip(1) == texts(words@).skip(from + 1));
    let word = words[from].as_str();
    if same_text(word, "re") || same_text(word, "regex") {
        let pattern = match value.as_str() {
            None => {
                return Err(DetectionError::InvalidRegex);
            },
            Some(p) => p,
        };
        match flags_from(words, from + 1) {
            None => Err(DetectionError::InvalidRegexFlag),
            Some((i, m, s)) => {
                if regex_compiles(pattern.as_str(), i, m, s) {
                    let out = vec![
                        Modifier::Re { case_insensitive: i, multi_line: m, dot_matches_new_line: s },
                    ];
                    assert(out@ =~= seq![
                        Modifier::Re { case_insensitive: i, multi_line: m, dot_matches_new_line: s },
                    ]);
                    Ok(out)
                } else {
                    Err(DetectionError::InvalidRegex)
                }
            },
        }
    } else {
        match modifier_from(word) {
            None => Err(DetectionError::InvalidModifier),
            Some(m) => match modifiers_from(words, from + 1, value) {
                Err(e) => Err(e),
                Ok(mut rest) => {
                    let ghost before = rest@;
                    rest.insert(0, m);
                    assert(rest@ =~= seq![m] + before);
                    Ok(rest)
                },
            },
        }
    }
}

impl Field {
    /// Builds the field test that a key of a selection and its value write.
    pub fn new(key: String, value: &Yaml) -> (r: Result<Field, DetectionError>)
        ensures
            match r {
                Ok(f) => field_of(key@, *value) == Ok::<FieldView, DetectionError>(f@),
                Err(e) => field_of(key@, *value) == Err::<FieldView, DetectionError>(e),
            },
    {
        let mut words = split_text(key.as_str(), '|');
        let ghost tokens = split(key@, '|');
        assert(texts(words@)[0] == words[0]@);
        let modifiers = match modifiers_from(&words, 1, value) {
            Err(e) => {
                return Err(e);
            },
            Ok(m) => m,
        };
        let values = match values_from(value) {
            Err(e) => {
                return Err(e);
            },
            Ok(v) => v,
        };
        let name = words.swap_remove(0);
        Ok(Field { key: name, values, modifiers })
    }

    /// Whether the field test holds of an event.
    #[verifier::loop_isolation(false)]
    pub fn is_match(&self, log: &Value) -> (r: bool)
        ensures
            r == field_holds(self@, log@),
    {
        if self.modifiers.len() == 0 {
            let found = get_terminal_from_dotted_path(self.key.as_str(), log);
            let ghost target = resolve(log@, self.key@);
            let mut i: usize = 0;
            while i < self.values.len()
                invariant
                    i <= self.values.len(),
                    forall|j: int| 0 <= j < i ==> !default_holds(#[trigger] views(self.values@)[j], target),
                decreases self.values.len() - i,
            {
                if default_match(&self.values[i], found) {
                    assert(default_holds(views(self.values@)[i as int], target));
                    return true;
                }
                i += 1;
            }
            false
        } else {
            let mut copies: Vec<Value> = Vec::new();
            let mut i: usize = 0;
            while i < self.values.len()
                invariant
                    i <= self.values.len(),
                    copies.len() == i,
                    forall|j: int| 0 <= j < i ==> copies[j]@ == self.values[j]@,
                decreases self.values.len() - i,
            {
                copies.push(self.values[i].duplicate());
                i += 1;
            }
            let together = Value::Array(copies);
            proof {
                crate::value::lemma_view(together);
                assert(views(copies@) =~= views(self.values@));
            }
            if self.values.len() == 0 {
                return self.holds_of(&together, log);
            }
            let mut k: usize = 0;
            while k < self.values.len()
                invariant
                    k <= self.values.len(),
                    together@ == ValueView::Array(views(self.values@)),
                    forall|j: int|
                        0 <= j < k ==> !#[trigger] meets(
                            self.modifiers@,
                            self.key@,
                            views(self.values@),
                            j,
                            log@,
                        ),
                decreases self.values.len() - k,
            {
                if self.meets_at(k, &together, log) {
                    return true;
                }
                k += 1;
            }
            false
        }
    }

    /// Whether the value at `i` meets every modifier; `together` is the
    /// values as an array.
    #[verifier::loop_isolation(false)]
    fn meets_at(&self, i: usize, together: &Value, log: &Value) -> (r: bool)
        requires
            i < self.values.len(),
            together@ == ValueView::Array(views(self.values@)),
        ensures
            r == meets(self.modifiers@, self.key@, views(self.values@), i as int, log@),
    {
        let ghost values = views(self.values@);
        let mut j: usize = 0;
        while j < self.modifiers.len()
            invariant
                j <= self.modifiers.len(),
                forall|n: int|
                    0 <= n < j ==> modifier_holds(
                        #[trigger] self.modifiers@[n],
                        self.key@,
                        value_for(self.modifiers@[n], values, i as int),
                        log@,
                    ),
            decreases self.modifiers.len() - j,
        {
            assert(values[i as int] == self.values[i as int]@);
            let value: &Value = match self.modifiers[j] {
                Modifier::All => together,
                _ => &self.values[i],
            };
            if !self.modifiers[j].eval(&self.key, value, log) {
                return false;
            }
            j += 1;
        }
        true
    }

    /// Whether all the modifiers hold of `value`.
    #[verifier::loop_isolation(false)]
    fn holds_of(&self, value: &Value, log: &Value) -> (r: bool)
        ensures
            r == all_modifiers(self.modifiers@, self.key@, value@, log@),
    {
        let mut i: usize = 0;
        while i < self.modifiers.len()
            invariant
                i <= self.modifiers.len(),
                forall|j: int|
                    0 <= j < i ==> modifier_holds(#[trigger] self.modifiers@[j], self.key@, value@, log@),
            decreases self.modifiers.len() - i,
        {
            if !self.modifiers[i].eval(&self.key, value, log) {
                return false;
            }
            i += 1;
        }
        true
    }
}

/// Puts the field tests of a mapping behind `out`.
#[verifier::loop_isolation(false)]
fn push_fields(entries: &Vec<(Yaml, Yaml)>, out: &mut Vec<MatchType>) -> (r: Result<
    (),
    DetectionError,
>)
    ensures
        match r {
            Ok(_) => fields_of(entries@) matches Ok(fields) && match_views(final(out)@)
                == match_views(old(out)@) + fields,
            Err(e) => fields_of(entries@) == Err::<Seq<MatchView>, DetectionError>(e),
        },
{
    let ghost start = match_views(out@);
    let ghost mut done: Seq<MatchView> = Seq::empty();
    let mut i: usize = 0;
    proof {
        assert(entries@.skip(0) == entries@);
        lemma_prepend(done, Seq::empty(), fields_of(entries@));
        assert(start + done =~= start);
    }
    while i < entries.len()
        invariant
            i <= entries.len(),
            fields_of(entries@) == prepend(done, fields_of(entries@.skip(i as int))),
            match_views(out@) == start + done,
        decreases entries.len() - i,
    {
        let ghost rest = entries@.skip(i as int);
        assert(rest[0] == entries@[i as int]);
        assert(rest.skip(1) == entries@.skip(i + 1));
        let key = match entries[i].0.as_str() {
            None => {
                return Err(DetectionError::InvalidKey);
            },
            Some(k) => k.clone(),
        };
        match Field::new(key, &entries[i].1) {
            Err(e) => {
                return Err(e);
            },
            Ok(f) => {
                proof {
                    lemma_prepend(done, seq![MatchView::Field(f@)], fields_of(entries@.skip(i + 1)));
                    assert(match_views(out@.push(MatchType::Field(f))) =~= match_views(out@).push(
                        MatchView::Field(f@),
                    ));
                    assert(start + (done + seq![MatchView::Field(f@)]) =~= (start + done).push(
                        MatchView::Field(f@),
                    ));
                    done = done + seq![MatchView::Field(f@)];
                }
                out.push(MatchType::Field(f));
            },
        }
        i += 1;
    }
    proof {
        lemma_prepend(done, Seq::empty(), Ok(Seq::empty()));
    }
    Ok(())
}

impl Selection {
    /// Builds the selection that a value of a rule writes: a mapping of
    /// field tests, or a sequence of keywords and such mappings.
    #[verifier::loop_isolation(false)]
    pub fn new(value: &Yaml) -> (r: Result<Selection, DetectionError>)
        ensures
            match r {
                Ok(s) => selection_of(*value) == Ok::<Seq<MatchView>, DetectionError>(s@),
                Err(e) => selection_of(*value) == Err::<Seq<MatchView>, DetectionError>(e),
            },
    {
        match value {
            Yaml::Mapping(entries) => {
                let mut items: Vec<MatchType> = Vec::new();
                assert(match_views(items@) =~= Seq::<MatchView>::empty());
                match push_fields(entries, &mut items) {
                    Err(e) => Err(e),
                    Ok(_) => {
                        assert(Seq::<MatchView>::empty() + fields_of(entries@).unwrap() =~= fields_of(
                            entries@,
                        ).unwrap());
                        Ok(Selection { items })
                    },
                }
            },
            Yaml::Sequence(keys) => {
                let mut items: Vec<MatchType> = Vec::new();
                let mut i: usize = 0;
                proof {
                    assert(keys@.skip(0) == keys@);
                    assert(match_views(items@) =~= Seq::<MatchView>::empty());
                    lemma_prepend(Seq::<MatchView>::empty(), Seq::empty(), keys_of(keys@));
                }
                while i < keys.len()
                    invariant
                        i <= keys.len(),
                        keys_of(keys@) == prepend(match_views(items@), keys_of(keys@.skip(i as int))),
                    decreases keys.len() - i,
                {
                    let ghost rest = keys@.skip(i as int);
                    let ghost before = match_views(items@);
                    assert(rest[0] == keys@[i as int]);
                    assert(rest.skip(1) == keys@.skip(i + 1));
                    match &keys[i] {
                        Yaml::String(s) => {
                            let item = MatchType::Exact(s.clone());
                            proof {
                                lemma_prepend(before, seq![item@], keys_of(keys@.skip(i + 1)));
                                assert(match_views(items@.push(item)) =~= before + seq![item@]);
                            }
                            items.push(item);
                        },
                        Yaml::Mapping(m) => {
                            match push_fields(m, &mut items) {
                                Err(e) => {
                                    return Err(e);
                                },
                                Ok(_) => {
                                    proof {
                                        lemma_prepend(
                                            before,
                                            fields_of(m@).unwrap(),
                                            keys_of(keys@.skip(i + 1)),
                                        );
                                    }
                                },
                            }
                        },
                        _ => {
                            return Err(DetectionError::InvalidSelection);
                        },
                    }
                    i += 1;
                }
                proof {
                    lemma_prepend(match_views(items@), Seq::empty(), Ok(Seq::empty()));
                }
                Ok(Selection { items })
            },
            _ => Err(DetectionError::InvalidSelection),
        }
    }

    /// Whether the selection holds of an event: whether all of its items do.
    #[verifier::loop_isolation(false)]
    pub fn is_match(&self, log: &Value) -> (r: bool)
        ensures
            r == selection_holds(self@, log@),
    {
        let mut i: usize = 0;
        while i < self.items.len()
            invariant
                i <= self.items.len(),
                forall|j: int| 0 <= j < i ==> item_holds(#[trigger] self@[j], log@),
            decreases self.items.len() - i,
        {
            let holds = match &self.items[i] {
                MatchType::Exact(s) => match log.as_str() {
                    Some(l) => has_infix(&chars_of(l.as_str()), &chars_of(s.as_str())),
                    None => false,
                },
                MatchType::Field(f) => f.is_match(log),
            };
            assert(self@[i as int] == self.items[i as int]@);
            if !holds {
                return false;
            }
            i += 1;
        }
        true
    }
}

} // verus!
