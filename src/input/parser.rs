use vstd::prelude::*;
use crate::ast::{Value, ValueView, entries_view, lemma_entries_view_push};
use crate::text::{
    chars_of, contains_char, find, find_char, has_prefix, holds, is_space, is_space_char, is_text,
    slice, split, split_at_char, starts_with_text, string_of, trim, trimmed, unwrap, views, wrapped,
    push_chars, push_text,
};

verus! {

/// Why an example could not be read. Where a variant carries text, it is the
/// offending key or piece of the input.
#[derive(Debug, PartialEq)]
pub enum ParseError {
    MalformedEnvelope,
    EmptyInput,
    UnbalancedParens,
    MissingSeparator,
    SeparatorBeforeDimensions,
    MalformedDimensions,
    NestedParens,
    MissingDimensionValue(String),
    UnknownDimensionKey(String),
    InvalidDimensionValue(String, String),
    MissingDimension(String),
    MalformedHStack(String),
    UnquotedHStackChild(String),
    MalformedElements(String),
    UnknownElementKey(String),
    MissingElementValue(String),
    UnquotedValue(String, String),
    SynthesisFailed,
}

/// The model of a `ParseError`.
pub enum Failure {
    MalformedEnvelope,
    EmptyInput,
    UnbalancedParens,
    MissingSeparator,
    SeparatorBeforeDimensions,
    MalformedDimensions,
    NestedParens,
    MissingDimensionValue(Seq<char>),
    UnknownDimensionKey(Seq<char>),
    InvalidDimensionValue(Seq<char>, Seq<char>),
    MissingDimension(Seq<char>),
    MalformedHStack(Seq<char>),
    UnquotedHStackChild(Seq<char>),
    MalformedElements(Seq<char>),
    UnknownElementKey(Seq<char>),
    MissingElementValue(Seq<char>),
    UnquotedValue(Seq<char>, Seq<char>),
    SynthesisFailed,
}

impl View for ParseError {
    type V = Failure;

    open spec fn view(&self) -> Failure {
        match self {
            ParseError::MalformedEnvelope => Failure::MalformedEnvelope,
            ParseError::EmptyInput => Failure::EmptyInput,
            ParseError::UnbalancedParens => Failure::UnbalancedParens,
            ParseError::MissingSeparator => Failure::MissingSeparator,
            ParseError::SeparatorBeforeDimensions => Failure::SeparatorBeforeDimensions,
            ParseError::MalformedDimensions => Failure::MalformedDimensions,
            ParseError::NestedParens => Failure::NestedParens,
            ParseError::MissingDimensionValue(k) => Failure::MissingDimensionValue(k@),
            ParseError::UnknownDimensionKey(k) => Failure::UnknownDimensionKey(k@),
            ParseError::InvalidDimensionValue(k, v) => Failure::InvalidDimensionValue(k@, v@),
            ParseError::MissingDimension(k) => Failure::MissingDimension(k@),
            ParseError::MalformedHStack(t) => Failure::MalformedHStack(t@),
            ParseError::UnquotedHStackChild(t) => Failure::UnquotedHStackChild(t@),
            ParseError::MalformedElements(t) => Failure::MalformedElements(t@),
            ParseError::UnknownElementKey(k) => Failure::UnknownElementKey(k@),
            ParseError::MissingElementValue(k) => Failure::MissingElementValue(k@),
            ParseError::UnquotedValue(k, v) => Failure::UnquotedValue(k@, v@),
            ParseError::SynthesisFailed => Failure::SynthesisFailed,
        }
    }
}

// ---------------------------------------------------------------------------
// The format, stated over sequences of characters.
// ---------------------------------------------------------------------------

/// The first position at or after `i` that is not white space.
pub open spec fn skip_spaces(s: Seq<char>, i: int) -> int
    decreases s.len() - i,
{
    if 0 <= i < s.len() && is_space(s[i]) {
        skip_spaces(s, i + 1)
    } else {
        i
    }
}

/// The separator scan from position `i` at parenthesis depth `depth`: the
/// position of the `:` that follows the `)` closing the dimensions.
pub open spec fn separator_from(s: Seq<char>, i: int, depth: nat) -> Result<int, Failure>
    decreases s.len() - i,
{
    if i < 0 || i >= s.len() {
        if depth != 0 {
            Err(Failure::UnbalancedParens)
        } else {
            Err(Failure::MissingSeparator)
        }
    } else if s[i] == '(' {
        separator_from(s, i + 1, depth + 1)
    } else if s[i] == ')' {
        if depth == 0 {
            Err(Failure::UnbalancedParens)
        } else if depth == 1 {
            let j = skip_spaces(s, i + 1);
            if j < s.len() && s[j] == ':' {
                Ok(j)
            } else {
                Err(Failure::MissingSeparator)
            }
        } else {
            separator_from(s, i + 1, (depth - 1) as nat)
        }
    } else if s[i] == ':' && depth == 0 {
        Err(Failure::SeparatorBeforeDimensions)
    } else {
        separator_from(s, i + 1, depth)
    }
}

/// Where the dimensions end and the elements begin.
pub open spec fn separator(s: Seq<char>) -> Result<int, Failure> {
    separator_from(s, 0, 0)
}

pub open spec fn is_digit(c: char) -> bool {
    48 <= c as u32 <= 57
}

/// The number that a run of decimal digits spells.
pub open spec fn digits_value(s: Seq<char>) -> int
    decreases s.len(),
{
    if s.len() == 0 {
        0
    } else {
        digits_value(s.drop_last()) * 10 + (s.last() as u32 - 48)
    }
}

/// The digits of a number, after an optional sign.
pub open spec fn unsigned_part(s: Seq<char>) -> Seq<char> {
    if s.len() > 0 && (s[0] == '-' || s[0] == '+') {
        s.drop_first()
    } else {
        s
    }
}

/// The `i32` that `s` spells in base 10, with an optional sign: `None` where
/// `s` is no such number or the number does not fit.
pub open spec fn int_value(s: Seq<char>) -> Option<i32> {
    let d = unsigned_part(s);
    let n = if s.len() > 0 && s[0] == '-' {
        -digits_value(d)
    } else {
        digits_value(d)
    };
    if d.len() > 0 && (forall|k: int| 0 <= k < d.len() ==> is_digit(d[k])) && i32::MIN <= n
        <= i32::MAX {
        Some(n as i32)
    } else {
        None
    }
}

/// The width and height read so far.
pub type Dims = (Option<i32>, Option<i32>);

/// Reads one comma-separated piece of the dimensions into `st`.
pub open spec fn dimension_step(st: Dims, part: Seq<char>) -> Result<Dims, Failure> {
    let p = trim(part);
    if p.len() == 0 {
        Ok(st)
    } else {
        match find(p, ':') {
            None => Err(Failure::MissingDimensionValue(p)),
            Some(k) => {
                let key = trim(p.subrange(0, k));
                let val = trim(p.subrange(k + 1, p.len() as int));
                if key == "width"@ {
                    match int_value(val) {
                        Some(n) => Ok((Some(n), st.1)),
                        None => Err(Failure::InvalidDimensionValue(key, val)),
                    }
                } else if key == "height"@ {
                    match int_value(val) {
                        Some(n) => Ok((st.0, Some(n))),
                        None => Err(Failure::InvalidDimensionValue(key, val)),
                    }
                } else {
                    Err(Failure::UnknownDimensionKey(key))
                }
            },
        }
    }
}

/// Reads the pieces of the dimensions from the `i`-th on, in order.
pub open spec fn dimensions_from(parts: Seq<Seq<char>>, i: int, st: Dims) -> Result<Dims, Failure>
    decreases parts.len() - i,
{
    if i < 0 || i >= parts.len() {
        Ok(st)
    } else {
        match dimension_step(st, parts[i]) {
            Err(f) => Err(f),
            Ok(next) => dimensions_from(parts, i + 1, next),
        }
    }
}

/// The width and height that the dimensions text `d`, `(...)` included, gives.
pub open spec fn dimensions(d: Seq<char>) -> Result<(i32, i32), Failure> {
    if !wrapped(d, '(', ')') {
        Err(Failure::MalformedDimensions)
    } else if holds(unwrap(d), '(') || holds(unwrap(d), ')') {
        Err(Failure::NestedParens)
    } else {
        match dimensions_from(dimension_pieces(d), 0, (None, None)) {
            Err(f) => Err(f),
            Ok((None, _)) => Err(Failure::MissingDimension("width"@)),
            Ok((Some(_), None)) => Err(Failure::MissingDimension("height"@)),
            Ok((Some(w), Some(h))) => Ok((w, h)),
        }
    }
}

/// The state of the quote- and escape-aware comma scan of an element block.
pub struct SegmentScan {
    pub done: Seq<Seq<char>>,
    pub current: Seq<char>,
    pub in_quotes: bool,
    pub escaped: bool,
}

/// One character of the comma scan.
pub open spec fn segment_step(st: SegmentScan, c: char) -> SegmentScan {
    if c == '\\' && !st.escaped {
        SegmentScan { escaped: true, ..st }
    } else if c == '"' && !st.escaped {
        SegmentScan { current: st.current.push(c), in_quotes: !st.in_quotes, ..st }
    } else if c == ',' && !st.in_quotes {
        SegmentScan { done: st.done.push(st.current), current: Seq::empty(), escaped: false, ..st }
    } else {
        let added = if st.escaped && (c == '\\' || c == '"') {
            seq![c]
        } else if st.escaped {
            seq!['\\', c]
        } else {
            seq![c]
        };
        SegmentScan { current: st.current + added, escaped: false, ..st }
    }
}

/// The comma scan after all of `s`.
pub open spec fn segment_scan(s: Seq<char>) -> SegmentScan
    decreases s.len(),
{
    if s.len() == 0 {
        SegmentScan { done: Seq::empty(), current: Seq::empty(), in_quotes: false, escaped: false }
    } else {
        segment_step(segment_scan(s.drop_last()), s.last())
    }
}

/// The `key:"value"` segments of an element block's interior.
pub open spec fn segments(s: Seq<char>) -> Seq<Seq<char>> {
    segment_scan(s).done.push(segment_scan(s).current)
}

/// A quoted value's text with `\"` and `\\` read as `"` and `\`; any other
/// backslash stands for itself.
pub open spec fn unescape(s: Seq<char>) -> Seq<char>
    decreases s.len(),
{
    if s.len() == 0 {
        Seq::empty()
    } else if s[0] == '\\' && s.len() >= 2 && (s[1] == '"' || s[1] == '\\') {
        seq![s[1]] + unescape(s.subrange(2, s.len() as int))
    } else {
        seq![s[0]] + unescape(s.drop_first())
    }
}

pub open spec fn is_element_key(k: Seq<char>) -> bool {
    k == "title"@ || k == "button"@ || k == "Image"@
}

pub open spec fn is_dimension_key(k: Seq<char>) -> bool {
    k == "width"@ || k == "height"@
}

/// The key of a `key:value` piece: what precedes its first `:`, or all of it
/// where it has none, trimmed.
pub open spec fn key_of(t: Seq<char>) -> Seq<char> {
    match find(t, ':') {
        Some(k) => trim(t.subrange(0, k)),
        None => trim(t),
    }
}

/// The entry that one trimmed, non-empty segment `t` declares.
pub open spec fn element(t: Seq<char>) -> Result<(Seq<char>, ValueView), Failure> {
    let key = key_of(t);
    if !is_element_key(key) {
        Err(Failure::UnknownElementKey(key))
    } else {
        match find(t, ':') {
            None => Err(Failure::MissingElementValue(key)),
            Some(k) => {
                let v = trim(t.subrange(k + 1, t.len() as int));
                if !wrapped(v, '"', '"') {
                    Err(Failure::UnquotedValue(key, v))
                } else {
                    Ok((key, ValueView::Str(unescape(unwrap(v)))))
                }
            },
        }
    }
}

/// The entries of the segments from the `i`-th on, appended to `acc`.
pub open spec fn elements_from(
    segs: Seq<Seq<char>>,
    i: int,
    acc: Seq<(Seq<char>, ValueView)>,
) -> Result<Seq<(Seq<char>, ValueView)>, Failure>
    decreases segs.len() - i,
{
    if i < 0 || i >= segs.len() {
        Ok(acc)
    } else if trim(segs[i]).len() == 0 {
        elements_from(segs, i + 1, acc)
    } else {
        match element(trim(segs[i])) {
            Err(f) => Err(f),
            Ok(e) => elements_from(segs, i + 1, acc.push(e)),
        }
    }
}

pub open spec fn digit_char(d: nat) -> char {
    seq!['0', '1', '2', '3', '4', '5', '6', '7', '8', '9'][d as int]
}

/// The decimal digits of `n`.
pub open spec fn decimal(n: nat) -> Seq<char>
    decreases n,
{
    if n < 10 {
        seq![digit_char(n)]
    } else {
        decimal(n / 10).push(digit_char(n % 10))
    }
}

/// The key under which the `n`-th child of a row is kept.
pub open spec fn child_key(n: nat) -> Seq<char> {
    "child"@ + decimal(n)
}

/// The row children from the `i`-th piece on, appended to `acc`.
pub open spec fn row_from(
    parts: Seq<Seq<char>>,
    i: int,
    acc: Seq<(Seq<char>, ValueView)>,
) -> Result<Seq<(Seq<char>, ValueView)>, Failure>
    decreases parts.len() - i,
{
    if i < 0 || i >= parts.len() {
        Ok(acc)
    } else {
        let p = trim(parts[i]);
        if p.len() == 0 {
            row_from(parts, i + 1, acc)
        } else if !wrapped(p, '"', '"') {
            Err(Failure::UnquotedHStackChild(p))
        } else {
            row_from(parts, i + 1, acc.push((child_key(acc.len()), ValueView::Str(unwrap(p)))))
        }
    }
}

/// The elements that the trimmed element text `e` declares.
pub open spec fn elements(e: Seq<char>) -> Result<ValueView, Failure> {
    if has_prefix(e, "HStack:"@) {
        let h = trim(e.subrange("HStack:"@.len() as int, e.len() as int));
        if !wrapped(h, '{', '}') {
            Err(Failure::MalformedHStack(h))
        } else {
            match row_from(split(unwrap(h), ','), 0, Seq::empty()) {
                Err(f) => Err(f),
                Ok(children) => Ok(ValueView::Dict(seq![("HStack"@, ValueView::Dict(children))])),
            }
        }
    } else if !wrapped(e, '{', '}') {
        Err(Failure::MalformedElements(e))
    } else {
        match elements_from(element_segments(e), 0, Seq::empty()) {
            Err(f) => Err(f),
            Ok(items) => Ok(ValueView::Dict(items)),
        }
    }
}

/// The model of the dimensions mapping.
pub open spec fn dimensions_view(w: i32, h: i32) -> ValueView {
    ValueView::Dict(seq![("width"@, ValueView::Int(w)), ("height"@, ValueView::Int(h))])
}

/// The dimensions text and the element text of an envelope's interior.
pub open spec fn halves(inner: Seq<char>, c: int) -> (Seq<char>, Seq<char>) {
    (trim(inner.subrange(0, c)), trim(inner.subrange(c + 1, inner.len() as int)))
}

/// The dimensions text and the element text of `input`, where its envelope
/// and the separator between the two are in order.
pub open spec fn sections(input: Seq<char>) -> Option<(Seq<char>, Seq<char>)> {
    let t = trim(input);
    if wrapped(t, '{', '}') && unwrap(t).len() > 0 && separator(unwrap(t)) is Ok {
        Some(halves(unwrap(t), separator(unwrap(t))->Ok_0))
    } else {
        None
    }
}

/// The comma-separated pieces of a dimensions text.
pub open spec fn dimension_pieces(d: Seq<char>) -> Seq<Seq<char>> {
    split(trim(unwrap(d)), ',')
}

/// The segments of a keyed element text `{key:"value", ..}`.
pub open spec fn element_segments(e: Seq<char>) -> Seq<Seq<char>> {
    segments(trim(unwrap(e)))
}

/// What reading `input` gives: the dimensions mapping and the elements
/// mapping, or the first failure met.
pub open spec fn parse_spec(input: Seq<char>) -> Result<(ValueView, ValueView), Failure> {
    let t = trim(input);
    if !wrapped(t, '{', '}') {
        Err(Failure::MalformedEnvelope)
    } else if unwrap(t).len() == 0 {
        Err(Failure::EmptyInput)
    } else {
        match separator(unwrap(t)) {
            Err(f) => Err(f),
            Ok(c) => {
                let (d, e) = halves(unwrap(t), c);
                match dimensions(d) {
                    Err(f) => Err(f),
                    Ok((w, h)) => match elements(e) {
                        Err(f) => Err(f),
                        Ok(ev) => Ok((dimensions_view(w, h), ev)),
                    },
                }
            },
        }
    }
}

/// The human-readable text of a failure.
pub open spec fn failure_message(f: Failure) -> Seq<char> {
    match f {
        Failure::MalformedEnvelope => "Input must be enclosed in curly braces, e.g., {example}"@,
        Failure::EmptyInput => "Input must contain at least one example"@,
        Failure::UnbalancedParens => "Mismatched parenthesis in dimensions"@,
        Failure::MissingSeparator => "Expected ':' after dimensions '(...)'"@,
        Failure::SeparatorBeforeDimensions =>
            "Found ':' before dimensions '(..)' were closed or defined"@,
        Failure::MalformedDimensions =>
            "Dimensions part must be enclosed in parentheses, e.g., (width: W, height: H)"@,
        Failure::NestedParens => "Extra or mismatched parentheses within dimensions block"@,
        Failure::MissingDimensionValue(k) => "Missing dimension value for key '"@ + k + "'"@,
        Failure::UnknownDimensionKey(k) => "Unsupported dimension key: '"@ + k + "'"@,
        Failure::InvalidDimensionValue(k, v) => "Invalid "@ + k + " value '"@ + v + "'"@,
        Failure::MissingDimension(k) => "Missing "@ + k + " dimension"@,
        Failure::MalformedHStack(t) => "HStack elements must be enclosed in braces: '"@ + t + "'"@,
        Failure::UnquotedHStackChild(t) => "HStack child value must be quoted: "@ + t,
        Failure::MalformedElements(t) => "Elements must be enclosed in braces: '"@ + t + "'"@,
        Failure::UnknownElementKey(k) => "Unsupported element key '"@ + k
            + "': must be 'title', 'button', or 'Image'"@,
        Failure::MissingElementValue(k) => "Missing value for element key '"@ + k + "'"@,
        Failure::UnquotedValue(k, v) => "Value for key '"@ + k
            + "' must be enclosed in double quotes: got '"@ + v + "'"@,
        Failure::SynthesisFailed => "No matching layout found for the given examples"@,
    }
}

// ---------------------------------------------------------------------------
// The scanner.
// ---------------------------------------------------------------------------

/// Finds the `:` between the dimensions and the elements of an envelope's
/// interior, tracking parenthesis depth.
fn find_separator(inner: &Vec<char>) -> (r: Result<usize, ParseError>)
    ensures
        r matches Ok(c) ==> separator(inner@) == Ok::<int, Failure>(c as int) && c < inner@.len(),
        r matches Err(e) ==> separator(inner@) == Err::<int, Failure>(e@),
{
    let n = inner.len();
    let mut depth: usize = 0;
    let mut i: usize = 0;
    while i < n
        invariant
            n == inner.len(),
            i <= n,
            depth <= i,
            separator(inner@) == separator_from(inner@, i as int, depth as nat),
        decreases n - i,
    {
        let ch = inner[i];
        if ch == '(' {
            depth += 1;
        } else if ch == ')' {
            if depth == 0 {
                return Err(ParseError::UnbalancedParens);
            }
            if depth == 1 {
                let mut j: usize = i + 1;
                while j < n && is_space_char(inner[j])
                    invariant
                        n == inner.len(),
                        i < j <= n,
                        skip_spaces(inner@, i + 1) == skip_spaces(inner@, j as int),
                    decreases n - j,
                {
                    j += 1;
                }
                if j < n && inner[j] == ':' {
                    return Ok(j);
                }
                return Err(ParseError::MissingSeparator);
            }
            depth -= 1;
        } else if ch == ':' && depth == 0 {
            return Err(ParseError::SeparatorBeforeDimensions);
        }
        i += 1;
    }
    if depth != 0 {
        Err(ParseError::UnbalancedParens)
    } else {
        Err(ParseError::MissingSeparator)
    }
}

/// A magnitude that no `i32` reaches.
const INT_CAP: u64 = 2147483649;

/// Reads a base-10 `i32` with an optional sign.
fn parse_int(s: &Vec<char>) -> (r: Option<i32>)
    ensures
        r == int_value(s@),
{
    let n = s.len();
    let neg = n > 0 && s[0] == '-';
    let start: usize = if n > 0 && (s[0] == '-' || s[0] == '+') {
        1
    } else {
        0
    };
    let ghost d = unsigned_part(s@);
    assert(d =~= s@.subrange(start as int, n as int));
    if start == n {
        return None;
    }
    // Past this bound the number fits no `i32`, whatever follows.
    let cap: u64 = INT_CAP;
    let mut acc: u64 = 0;
    let mut k: usize = start;
    assert(s@.subrange(start as int, start as int) =~= Seq::<char>::empty());
    while k < n
        invariant
            n == s.len(),
            start <= k <= n,
            d == s@.subrange(start as int, n as int),
            d == unsigned_part(s@),
            cap == INT_CAP,
            acc <= cap,
            acc < cap ==> acc == digits_value(s@.subrange(start as int, k as int)),
            acc == cap ==> digits_value(s@.subrange(start as int, k as int)) >= cap,
            forall|j: int| start <= j < k ==> is_digit(s@[j]),
        decreases n - k,
    {
        let c = s[k];
        let cu: u32 = c as u32;
        assert(c == d[k - start]);
        if cu < 48 || cu > 57 {
            assert(!is_digit(d[k - start]));
            assert(!(forall|j: int| 0 <= j < d.len() ==> is_digit(d[j])));
            return None;
        }
        let dv: u64 = (cu - 48) as u64;
        assert(s@.subrange(start as int, k + 1).drop_last() =~= s@.subrange(start as int, k as int));
        acc = if acc >= cap {
            cap
        } else {
            let t = acc * 10 + dv;
            if t > cap {
                cap
            } else {
                t
            }
        };
        k += 1;
    }
    assert(s@.subrange(start as int, n as int) == d);
    if neg {
        if acc <= 2147483648 {
            Some((0 - (acc as i64)) as i32)
        } else {
            None
        }
    } else {
        if acc <= 2147483647 {
            Some(acc as i32)
        } else {
            None
        }
    }
}

/// Reads the dimensions text, `(...)` included, into a width and a height.
fn parse_dimensions(d: &Vec<char>) -> (r: Result<(i32, i32), ParseError>)
    ensures
        r matches Ok(p) ==> dimensions(d@) == Ok::<(i32, i32), Failure>(p),
        r matches Err(e) ==> dimensions(d@) == Err::<(i32, i32), Failure>(e@),
{
    let n = d.len();
    if !(n >= 2 && d[0] == '(' && d[n - 1] == ')') {
        return Err(ParseError::MalformedDimensions);
    }
    let content = slice(d, 1, n - 1);
    if contains_char(&content, '(') || contains_char(&content, ')') {
        return Err(ParseError::NestedParens);
    }
    let parts = split_at_char(&trimmed(&content), ',');
    let ghost ps = views(parts@);
    let mut width: Option<i32> = None;
    let mut height: Option<i32> = None;
    let mut i: usize = 0;
    while i < parts.len()
        invariant
            i <= parts.len(),
            ps == views(parts@),
            ps == split(trim(unwrap(d@)), ','),
            wrapped(d@, '(', ')'),
            !holds(unwrap(d@), '(') && !holds(unwrap(d@), ')'),
            dimensions_from(ps, 0, (None, None)) == dimensions_from(ps, i as int, (width, height)),
        decreases parts.len() - i,
    {
        assert(ps[i as int] == parts@[i as int]@);
        let p = trimmed(&parts[i]);
        if p.len() > 0 {
            match find_char(&p, ':') {
                None => {
                    return Err(ParseError::MissingDimensionValue(string_of(&p)));
                },
                Some(k) => {
                    let key = trimmed(&slice(&p, 0, k));
                    let val = trimmed(&slice(&p, k + 1, p.len()));
                    if is_text(&key, "width") {
                        match parse_int(&val) {
                            Some(x) => {
                                width = Some(x);
                            },
                            None => {
                                return Err(
                                    ParseError::InvalidDimensionValue(
                                        string_of(&key),
                                        string_of(&val),
                                    ),
                                );
                            },
                        }
                    } else if is_text(&key, "height") {
                        match parse_int(&val) {
                            Some(x) => {
                                height = Some(x);
                            },
                            None => {
                                return Err(
                                    ParseError::InvalidDimensionValue(
                                        string_of(&key),
                                        string_of(&val),
                                    ),
                                );
                            },
                        }
                    } else {
                        return Err(ParseError::UnknownDimensionKey(string_of(&key)));
                    }
                },
            }
        }
        i += 1;
    }
    match width {
        None => Err(ParseError::MissingDimension(String::from_str("width"))),
        Some(w) => match height {
            None => Err(ParseError::MissingDimension(String::from_str("height"))),
            Some(h) => Ok((w, h)),
        },
    }
}

/// Reads `\"` and `\\` in a quoted value's text as `"` and `\`.
fn unescape_chars(s: &Vec<char>) -> (r: Vec<char>)
    ensures
        r@ == unescape(s@),
{
    let n = s.len();
    let mut out: Vec<char> = Vec::new();
    let mut i: usize = 0;
    assert(s@.subrange(0, n as int) =~= s@);
    while i < n
        invariant
            n == s.len(),
            i <= n,
            out@ + unescape(s@.subrange(i as int, n as int)) == unescape(s@),
        decreases n - i,
    {
        let ghost rest = s@.subrange(i as int, n as int);
        if s[i] == '\\' && i + 1 < n && (s[i + 1] == '"' || s[i + 1] == '\\') {
            assert(rest.subrange(2, rest.len() as int) =~= s@.subrange(i + 2, n as int));
            assert(out@.push(s@[i + 1]) + unescape(s@.subrange(i + 2, n as int)) =~= out@ + (seq![
                s@[i + 1],
            ] + unescape(s@.subrange(i + 2, n as int))));
            out.push(s[i + 1]);
            i += 2;
        } else {
            assert(rest.drop_first() =~= s@.subrange(i + 1, n as int));
            assert(out@.push(s@[i as int]) + unescape(s@.subrange(i + 1, n as int)) =~= out@ + (
            seq![s@[i as int]] + unescape(s@.subrange(i + 1, n as int))));
            out.push(s[i]);
            i += 1;
        }
    }
    assert(out@ + unescape(s@.subrange(n as int, n as int)) =~= out@);
    out
}

/// Cuts an element block's interior at the commas that stand outside quotes,
/// resolving backslash escapes on the way.
fn split_segments(s: &Vec<char>) -> (r: Vec<Vec<char>>)
    ensures
        views(r@) == segments(s@),
{
    let mut done: Vec<Vec<char>> = Vec::new();
    let mut cur: Vec<char> = Vec::new();
    let mut in_quotes = false;
    let mut escaped = false;
    let mut i: usize = 0;
    assert(s@.subrange(0, 0) =~= Seq::<char>::empty());
    assert(views(done@) =~= Seq::<Seq<char>>::empty());
    assert(cur@ =~= Seq::<char>::empty());
    while i < s.len()
        invariant
            i <= s.len(),
            segment_scan(s@.subrange(0, i as int)) == (SegmentScan {
                done: views(done@),
                current: cur@,
                in_quotes,
                escaped,
            }),
        decreases s.len() - i,
    {
        let c = s[i];
        assert(s@.subrange(0, i + 1).drop_last() =~= s@.subrange(0, i as int));
        let ghost before = cur@;
        if c == '\\' && !escaped {
            escaped = true;
        } else if c == '"' && !escaped {
            cur.push(c);
            in_quotes = !in_quotes;
        } else if c == ',' && !in_quotes {
            let piece = cur;
            cur = Vec::new();
            proof {
                assert(views(done@.push(piece)) =~= views(done@).push(piece@));
                assert(cur@ =~= Seq::<char>::empty());
            }
            done.push(piece);
            escaped = false;
        } else {
            if escaped && (c == '\\' || c == '"') {
                cur.push(c);
                assert(cur@ =~= before + seq![c]);
            } else if escaped {
                cur.push('\\');
                cur.push(c);
                assert(cur@ =~= before + seq!['\\', c]);
            } else {
                cur.push(c);
                assert(cur@ =~= before + seq![c]);
            }
            escaped = false;
        }
        i += 1;
    }
    assert(s@.subrange(0, s.len() as int) =~= s@);
    proof {
        assert(views(done@.push(cur)) =~= views(done@).push(cur@));
    }
    done.push(cur);
    done
}

/// Reads one trimmed, non-empty `key:"value"` segment and appends its entry.
fn parse_element(elem: &Vec<char>, elements: &mut Vec<(String, Value)>) -> (r: Result<
    (),
    ParseError,
>)
    ensures
        r is Ok ==> element(elem@) is Ok && entries_view(final(elements)@) == entries_view(
            old(elements)@,
        ).push(element(elem@)->Ok_0),
        r matches Err(e) ==> element(elem@) == Err::<(Seq<char>, ValueView), Failure>(e@)
            && final(elements)@ == old(elements)@,
{
    let colon = find_char(elem, ':');
    let key = match colon {
        Some(k) => trimmed(&slice(elem, 0, k)),
        None => trimmed(elem),
    };
    if !(is_text(&key, "title") || is_text(&key, "button") || is_text(&key, "Image")) {
        return Err(ParseError::UnknownElementKey(string_of(&key)));
    }
    match colon {
        None => Err(ParseError::MissingElementValue(string_of(&key))),
        Some(k) => {
            let len = elem.len();
            let v = trimmed(&slice(elem, k + 1, len));
            let n = v.len();
            if !(n >= 2 && v[0] == '"' && v[n - 1] == '"') {
                return Err(ParseError::UnquotedValue(string_of(&key), string_of(&v)));
            }
            let text = unescape_chars(&slice(&v, 1, n - 1));
            let entry = (string_of(&key), Value::String(string_of(&text)));
            proof {
                lemma_entries_view_push(elements@, entry);
            }
            elements.push(entry);
            Ok(())
        },
    }
}

fn digit_char_of(d: usize) -> (c: char)
    requires
        d < 10,
    ensures
        c == digit_char(d as nat),
{
    if d == 0 {
        '0'
    } else if d == 1 {
        '1'
    } else if d == 2 {
        '2'
    } else if d == 3 {
        '3'
    } else if d == 4 {
        '4'
    } else if d == 5 {
        '5'
    } else if d == 6 {
        '6'
    } else if d == 7 {
        '7'
    } else if d == 8 {
        '8'
    } else {
        '9'
    }
}

/// The decimal digits of `n`.
fn decimal_chars(n: usize) -> (r: Vec<char>)
    ensures
        r@ == decimal(n as nat),
    decreases n,
{
    let last = digit_char_of(n % 10);
    if n < 10 {
        let mut r: Vec<char> = Vec::new();
        r.push(last);
        assert(r@ =~= seq![last]);
        r
    } else {
        let mut r = decimal_chars(n / 10);
        r.push(last);
        r
    }
}

/// The key of the `n`-th child of a row: `child0`, `child1`, ...
fn child_key_string(n: usize) -> (r: String)
    ensures
        r@ == child_key(n as nat),
{
    let mut out: Vec<char> = Vec::new();
    push_text(&mut out, "child");
    let digits = decimal_chars(n);
    push_chars(&mut out, &digits);
    assert(out@ =~= "child"@ + decimal(n as nat));
    string_of(&out)
}

/// Reads the trimmed element text: a row `HStack:{"..", ..}` or a keyed block
/// `{key:"value", ..}`.
fn parse_elements(e: &Vec<char>) -> (r: Result<Value, ParseError>)
    ensures
        r matches Ok(v) ==> elements(e@) == Ok::<ValueView, Failure>(v@),
        r matches Err(x) ==> elements(e@) == Err::<ValueView, Failure>(x@),
{
    let n = e.len();
    if starts_with_text(e, "HStack:") {
        let plen = "HStack:".unicode_len();
        let h = trimmed(&slice(e, plen, n));
        let m = h.len();
        if !(m >= 2 && h[0] == '{' && h[m - 1] == '}') {
            return Err(ParseError::MalformedHStack(string_of(&h)));
        }
        let parts = split_at_char(&slice(&h, 1, m - 1), ',');
        let ghost ps = views(parts@);
        let mut children: Vec<(String, Value)> = Vec::new();
        let mut i: usize = 0;
        while i < parts.len()
            invariant
                i <= parts.len(),
                ps == views(parts@),
                has_prefix(e@, "HStack:"@),
                h@ == trim(e@.subrange("HStack:"@.len() as int, e@.len() as int)),
                wrapped(h@, '{', '}'),
                ps == split(unwrap(h@), ','),
                row_from(ps, 0, Seq::empty()) == row_from(ps, i as int, entries_view(children@)),
            decreases parts.len() - i,
        {
            assert(ps[i as int] == parts@[i as int]@);
            let p = trimmed(&parts[i]);
            let k = p.len();
            if k > 0 {
                if !(k >= 2 && p[0] == '"' && p[k - 1] == '"') {
                    return Err(ParseError::UnquotedHStackChild(string_of(&p)));
                }
                let text = slice(&p, 1, k - 1);
                let entry = (child_key_string(children.len()), Value::String(string_of(&text)));
                proof {
                    crate::ast::lemma_entries_view_len(children@);
                    lemma_entries_view_push(children@, entry);
                }
                children.push(entry);
            }
            i += 1;
        }
        let mut outer: Vec<(String, Value)> = Vec::new();
        let entry = (String::from_str("HStack"), Value::Dict(children));
        proof {
            lemma_entries_view_push(outer@, entry);
            assert(entries_view(outer@) =~= Seq::empty());
        }
        outer.push(entry);
        assert(entries_view(outer@) =~= seq![("HStack"@, entry.1@)]);
        return Ok(Value::Dict(outer));
    }
    if !(n >= 2 && e[0] == '{' && e[n - 1] == '}') {
        return Err(ParseError::MalformedElements(string_of(e)));
    }
    let segs = split_segments(&trimmed(&slice(e, 1, n - 1)));
    let ghost ss = views(segs@);
    let mut items: Vec<(String, Value)> = Vec::new();
    let mut i: usize = 0;
    assert(entries_view(items@) =~= Seq::empty());
    while i < segs.len()
        invariant
            i <= segs.len(),
            ss == views(segs@),
            !has_prefix(e@, "HStack:"@),
            wrapped(e@, '{', '}'),
            ss == segments(trim(unwrap(e@))),
            elements_from(ss, 0, Seq::empty()) == elements_from(ss, i as int, entries_view(items@)),
        decreases segs.len() - i,
    {
        assert(ss[i as int] == segs@[i as int]@);
        let t = trimmed(&segs[i]);
        if t.len() > 0 {
            match parse_element(&t, &mut items) {
                Ok(()) => {},
                Err(x) => {
                    return Err(x);
                },
            }
        }
        i += 1;
    }
    Ok(Value::Dict(items))
}

/// `r` is what reading `input` gives, in its models.
pub open spec fn reads_as(input: Seq<char>, r: Result<(Value, Value), ParseError>) -> bool {
    &&& r matches Ok(x) ==> parse_spec(input) == Ok::<(ValueView, ValueView), Failure>(
        (x.0@, x.1@),
    )
    &&& r matches Err(e) ==> parse_spec(input) == Err::<(ValueView, ValueView), Failure>(e@)
}

/// Reads one example: its dimensions mapping (`width`, then `height`) and
/// its elements mapping.
pub fn parse(input: &str) -> (r: Result<(Value, Value), ParseError>)
    ensures
        reads_as(input@, r),
{
    let all = chars_of(input);
    let t = trimmed(&all);
    let n = t.len();
    if !(n >= 2 && t[0] == '{' && t[n - 1] == '}') {
        return Err(ParseError::MalformedEnvelope);
    }
    let inner = slice(&t, 1, n - 1);
    if inner.len() == 0 {
        return Err(ParseError::EmptyInput);
    }
    let c = match find_separator(&inner) {
        Ok(c) => c,
        Err(e) => {
            return Err(e);
        },
    };
    let len = inner.len();
    let dims = trimmed(&slice(&inner, 0, c));
    let elems = trimmed(&slice(&inner, c + 1, len));
    let (w, h) = match parse_dimensions(&dims) {
        Ok(p) => p,
        Err(e) => {
            return Err(e);
        },
    };
    let ev = match parse_elements(&elems) {
        Ok(v) => v,
        Err(e) => {
            return Err(e);
        },
    };
    let mut dv: Vec<(String, Value)> = Vec::new();
    let first = (String::from_str("width"), Value::Int(w));
    let second = (String::from_str("height"), Value::Int(h));
    proof {
        lemma_entries_view_push(dv@, first);
        lemma_entries_view_push(dv@.push(first), second);
        assert(entries_view(dv@) =~= Seq::empty());
    }
    dv.push(first);
    dv.push(second);
    assert(entries_view(dv@) =~= seq![("width"@, ValueView::Int(w)), ("height"@, ValueView::Int(h))]);
    Ok((Value::Dict(dv), ev))
}

/// Reads the examples in `input`; the format holds exactly one. A failure
/// comes back as its message.
pub fn parse_examples(input: &str) -> (r: Result<Vec<(Value, Value)>, String>)
    ensures
        r matches Ok(v) ==> v@.len() == 1 && parse_spec(input@) == Ok::<
            (ValueView, ValueView),
            Failure,
        >((v@[0].0@, v@[0].1@)),
        r matches Err(m) ==> parse_spec(input@) is Err && m@ == failure_message(
            parse_spec(input@)->Err_0,
        ),
{
    match parse(input) {
        Ok(x) => {
            let mut v: Vec<(Value, Value)> = Vec::new();
            v.push(x);
            Ok(v)
        },
        Err(e) => Err(e.message()),
    }
}

impl ParseError {
    /// A human-readable account of the failure.
    pub fn message(&self) -> (r: String)
        ensures
            r@ == failure_message(self@),
    {
        let mut out: Vec<char> = Vec::new();
        match self {
            ParseError::MalformedEnvelope => {
                push_text(&mut out, "Input must be enclosed in curly braces, e.g., {example}");
            },
            ParseError::EmptyInput => {
                push_text(&mut out, "Input must contain at least one example");
            },
            ParseError::UnbalancedParens => {
                push_text(&mut out, "Mismatched parenthesis in dimensions");
            },
            ParseError::MissingSeparator => {
                push_text(&mut out, "Expected ':' after dimensions '(...)'");
            },
            ParseError::SeparatorBeforeDimensions => {
                push_text(&mut out, "Found ':' before dimensions '(..)' were closed or defined");
            },
            ParseError::MalformedDimensions => {
                push_text(
                    &mut out,
                    "Dimensions part must be enclosed in parentheses, e.g., (width: W, height: H)",
                );
            },
            ParseError::NestedParens => {
                push_text(&mut out, "Extra or mismatched parentheses within dimensions block");
            },
            ParseError::MissingDimensionValue(k) => {
                push_text(&mut out, "Missing dimension value for key '");
                push_chars(&mut out, &chars_of(k.as_str()));
                push_text(&mut out, "'");
            },
            ParseError::UnknownDimensionKey(k) => {
                push_text(&mut out, "Unsupported dimension key: '");
                push_chars(&mut out, &chars_of(k.as_str()));
                push_text(&mut out, "'");
            },
            ParseError::InvalidDimensionValue(k, v) => {
                push_text(&mut out, "Invalid ");
                push_chars(&mut out, &chars_of(k.as_str()));
                push_text(&mut out, " value '");
                push_chars(&mut out, &chars_of(v.as_str()));
                push_text(&mut out, "'");
            },
            ParseError::MissingDimension(k) => {
                push_text(&mut out, "Missing ");
                push_chars(&mut out, &chars_of(k.as_str()));
                push_text(&mut out, " dimension");
            },
            ParseError::MalformedHStack(t) => {
                push_text(&mut out, "HStack elements must be enclosed in braces: '");
                push_chars(&mut out, &chars_of(t.as_str()));
                push_text(&mut out, "'");
            },
            ParseError::UnquotedHStackChild(t) => {
                push_text(&mut out, "HStack child value must be quoted: ");
                push_chars(&mut out, &chars_of(t.as_str()));
            },
            ParseError::MalformedElements(t) => {
                push_text(&mut out, "Elements must be enclosed in braces: '");
                push_chars(&mut out, &chars_of(t.as_str()));
                push_text(&mut out, "'");
            },
            ParseError::UnknownElementKey(k) => {
                push_text(&mut out, "Unsupported element key '");
                push_chars(&mut out, &chars_of(k.as_str()));
                push_text(&mut out, "': must be 'title', 'button', or 'Image'");
            },
            ParseError::MissingElementValue(k) => {
                push_text(&mut out, "Missing value for element key '");
                push_chars(&mut out, &chars_of(k.as_str()));
                push_text(&mut out, "'");
            },
            ParseError::UnquotedValue(k, v) => {
                push_text(&mut out, "Value for key '");
                push_chars(&mut out, &chars_of(k.as_str()));
                push_text(&mut out, "' must be enclosed in double quotes: got '");
                push_chars(&mut out, &chars_of(v.as_str()));
                push_text(&mut out, "'");
            },
            ParseError::SynthesisFailed => {
                push_text(&mut out, "No matching layout found for the given examples");
            },
        }
        string_of(&out)
    }
}

} // verus!

verus! {

// ---------------------------------------------------------------------------
// Laws of the format.
// ---------------------------------------------------------------------------

/// Reading is deterministic: two results that are each what reading the same
/// text gives are structurally equal, and fail or succeed together.
pub proof fn lemma_parse_deterministic(
    input: Seq<char>,
    r1: Result<(Value, Value), ParseError>,
    r2: Result<(Value, Value), ParseError>,
)
    requires
        reads_as(input, r1),
        reads_as(input, r2),
    ensures
        r1 is Ok <==> r2 is Ok,
        r1 matches Ok(a) ==> (r2 matches Ok(b) && a.0@ == b.0@ && a.1@ == b.1@),
        r1 matches Err(e1) ==> (r2 matches Err(e2) && e1@ == e2@),
{
}

/// A non-empty dimensions piece whose key is neither `width` nor `height`
/// fails the reading of every piece list it stands in.
proof fn lemma_dimensions_from_bad_key(parts: Seq<Seq<char>>, i: int, j: int, st: Dims)
    requires
        0 <= j <= i < parts.len(),
        trim(parts[i]).len() > 0,
        !is_dimension_key(key_of(trim(parts[i]))),
    ensures
        dimensions_from(parts, j, st) is Err,
    decreases i - j,
{
    if j < i {
        match dimension_step(st, parts[j]) {
            Err(_) => {},
            Ok(next) => lemma_dimensions_from_bad_key(parts, i, j + 1, next),
        }
    }
}

/// Any dimension key outside `width` and `height` fails the reading.
pub proof fn lemma_unknown_dimension_key_fails(
    input: Seq<char>,
    d: Seq<char>,
    e: Seq<char>,
    i: int,
)
    requires
        sections(input) == Some((d, e)),
        0 <= i < dimension_pieces(d).len(),
        trim(dimension_pieces(d)[i]).len() > 0,
        !is_dimension_key(key_of(trim(dimension_pieces(d)[i]))),
    ensures
        parse_spec(input) is Err,
{
    lemma_dimensions_from_bad_key(dimension_pieces(d), i, 0, (None, None));
}

/// A non-empty segment whose key is not an element key fails the reading of
/// every segment list it stands in.
proof fn lemma_elements_from_bad_key(
    segs: Seq<Seq<char>>,
    i: int,
    j: int,
    acc: Seq<(Seq<char>, ValueView)>,
)
    requires
        0 <= j <= i < segs.len(),
        trim(segs[i]).len() > 0,
        !is_element_key(key_of(trim(segs[i]))),
    ensures
        elements_from(segs, j, acc) is Err,
    decreases i - j,
{
    if j < i {
        if trim(segs[j]).len() == 0 {
            lemma_elements_from_bad_key(segs, i, j + 1, acc);
        } else {
            match element(trim(segs[j])) {
                Err(_) => {},
                Ok(e) => lemma_elements_from_bad_key(segs, i, j + 1, acc.push(e)),
            }
        }
    }
}

/// Any element key outside `title`, `button` and `Image` in a keyed element
/// block fails the reading.
pub proof fn lemma_unknown_element_key_fails(input: Seq<char>, d: Seq<char>, e: Seq<char>, i: int)
    requires
        sections(input) == Some((d, e)),
        !has_prefix(e, "HStack:"@),
        0 <= i < element_segments(e).len(),
        trim(element_segments(e)[i]).len() > 0,
        !is_element_key(key_of(trim(element_segments(e)[i]))),
    ensures
        parse_spec(input) is Err,
{
    lemma_elements_from_bad_key(element_segments(e), i, 0, Seq::empty());
}

/// Past an opened parenthesis, a scan that meets no `)` ends unbalanced.
proof fn lemma_separator_never_closed(s: Seq<char>, i: int, depth: nat)
    requires
        0 <= i <= s.len(),
        depth >= 1,
        forall|k: int| i <= k < s.len() ==> s[k] != ')',
    ensures
        separator_from(s, i, depth) == Err::<int, Failure>(Failure::UnbalancedParens),
    decreases s.len() - i,
{
    if i < s.len() {
        if s[i] == '(' {
            lemma_separator_never_closed(s, i + 1, depth + 1);
        } else {
            lemma_separator_never_closed(s, i + 1, depth);
        }
    }
}

proof fn lemma_separator_opened(s: Seq<char>, i: int, p: int)
    requires
        0 <= i <= p < s.len(),
        s[p] == '(',
        forall|k: int| i <= k < p ==> s[k] != ':',
        forall|k: int| i <= k < s.len() ==> s[k] != ')',
    ensures
        separator_from(s, i, 0) == Err::<int, Failure>(Failure::UnbalancedParens),
    decreases p - i,
{
    if s[i] == '(' {
        lemma_separator_never_closed(s, i + 1, 1);
    } else {
        lemma_separator_opened(s, i + 1, p);
    }
}

/// Dimensions that open a parenthesis before any `:` of the envelope's
/// interior, in an interior that holds no `)`, fail the reading as unbalanced.
pub proof fn lemma_unclosed_dimensions_fail(input: Seq<char>, p: int)
    requires
        wrapped(trim(input), '{', '}'),
        0 <= p < unwrap(trim(input)).len(),
        unwrap(trim(input))[p] == '(',
        forall|k: int| 0 <= k < p ==> unwrap(trim(input))[k] != ':',
        forall|k: int| 0 <= k < unwrap(trim(input)).len() ==> unwrap(trim(input))[k] != ')',
    ensures
        parse_spec(input) == Err::<(ValueView, ValueView), Failure>(Failure::UnbalancedParens),
{
    lemma_separator_opened(unwrap(trim(input)), 0, p);
}

} // verus!
