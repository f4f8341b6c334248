//! The textual parser and its output: the typed tree the loader consumes.
//!
//! A datum is an integer, boolean, character or string literal, a symbol,
//! a proper list `(d0 d1 ...)`, or a dotted form `(d0 d1 ... . tail)`.
//! The parser is a recursive descent over the characters of the input,
//! trying the alternatives for a datum in a fixed order (integer,
//! boolean, character, string, symbol, list).

use vstd::prelude::*;
use vstd::string::StrSliceExecFns;

verus! {

/// Why a program text was rejected.
#[derive(Clone, Copy, Debug, PartialEq, Eq, Structural)]
pub enum ParseError {
    /// No datum could be read (this also covers an integer literal too
    /// large for the fixed-width integer type).
    InvalidDatum,
    /// A datum was read but input remained; carries the next character.
    TrailingCharacter(char),
}

/// A syntactically valid datum: an atom, a proper list, or a dotted form
/// (one or more leading data followed by a tail datum after the dot).
#[derive(Debug, PartialEq, Eq)]
pub enum SchemeParserValue {
    Symbol(String),
    IntNumber(i64),
    Boolean(bool),
    Text(String),
    Character(char),
    List(Vec<SchemeParserValue>),
    Improper(Vec<SchemeParserValue>, Box<SchemeParserValue>),
}

impl SchemeParserValue {
    /// A symbol datum with the given name text.
    pub fn symbol(x: String) -> (r: Self)
        ensures
            r == SchemeParserValue::Symbol(x),
    {
        Self::Symbol(x)
    }

    /// An integer literal.
    pub fn int_number(x: i64) -> (r: Self)
        ensures
            r == SchemeParserValue::IntNumber(x),
    {
        Self::IntNumber(x)
    }

    /// A boolean literal.
    pub fn boolean(x: bool) -> (r: Self)
        ensures
            r == SchemeParserValue::Boolean(x),
    {
        Self::Boolean(x)
    }

    /// A character literal.
    pub fn character(x: char) -> (r: Self)
        ensures
            r == SchemeParserValue::Character(x),
    {
        Self::Character(x)
    }

    /// A string literal.
    pub fn string(x: String) -> (r: Self)
        ensures
            r == SchemeParserValue::Text(x),
    {
        Self::Text(x)
    }

    /// A proper list of data.
    pub fn list(x: Vec<SchemeParserValue>) -> (r: Self)
        ensures
            r == SchemeParserValue::List(x),
    {
        Self::List(x)
    }

    /// A dotted pair `(x . y)`.
    pub fn pair(x: SchemeParserValue, y: SchemeParserValue) -> (r: Self)
        ensures
            r matches SchemeParserValue::Improper(v, t) && v@ == seq![x] && *t == y,
    {
        let mut v: Vec<SchemeParserValue> = Vec::new();
        v.push(x);
        proof {
            assert(v@ =~= seq![x]);
        }
        Self::Improper(v, Box::new(y))
    }

    /// A dotted list `(x0 x1 ... . y)`.
    pub fn improper_list(x: Vec<SchemeParserValue>, y: SchemeParserValue) -> (r: Self)
        ensures
            r matches SchemeParserValue::Improper(v, t) && v == x && *t == y,
    {
        Self::Improper(x, Box::new(y))
    }
}

/// A decimal digit.
pub open spec fn is_digit_char(c: char) -> bool {
    48 <= c as int && c as int <= 57
}

/// The numeric value of one digit character.
pub open spec fn digit_val(c: char) -> int {
    c as int - 48
}

/// Where the run of digit characters starting at `pos` ends.
pub open spec fn digit_run_end(s: Seq<char>, pos: int) -> int
    decreases s.len() - pos,
{
    if pos < s.len() && is_digit_char(s[pos]) {
        digit_run_end(s, pos + 1)
    } else {
        pos
    }
}

/// The decimal value of the digits in `s[from .. to)`.
pub open spec fn digits_value(s: Seq<char>, from: int, to: int) -> int
    decreases to - from,
{
    if from >= to {
        0
    } else {
        10 * digits_value(s, from, to - 1) + digit_val(s[to - 1])
    }
}

/// Where the digit run ends: past the digits, at the first non-digit or
/// the end of input.
proof fn lemma_digit_run(s: Seq<char>, pos: int)
    requires
        0 <= pos <= s.len(),
    ensures
        pos <= digit_run_end(s, pos) <= s.len(),
        forall|j: int| pos <= j < digit_run_end(s, pos) ==> is_digit_char(#[trigger] s[j]),
        digit_run_end(s, pos) < s.len() ==> !is_digit_char(s[digit_run_end(s, pos)]),
    decreases s.len() - pos,
{
    if pos < s.len() && is_digit_char(s[pos]) {
        lemma_digit_run(s, pos + 1);
    }
}

/// A longer digit run never has a smaller value.
proof fn lemma_digits_value_mono(s: Seq<char>, from: int, m: int, to: int)
    requires
        from <= m <= to,
        forall|j: int| from <= j < to ==> is_digit_char(#[trigger] s[j]),
    ensures
        digits_value(s, from, to) >= digits_value(s, from, m) >= 0,
    decreases to - m,
{
    if m == to {
        lemma_digits_value_nonneg(s, from, m);
    } else {
        lemma_digits_value_mono(s, from, m, to - 1);
        lemma_digits_value_nonneg(s, from, to - 1);
    }
}

/// Digit runs have non-negative values.
proof fn lemma_digits_value_nonneg(s: Seq<char>, from: int, to: int)
    requires
        forall|j: int| from <= j < to ==> is_digit_char(#[trigger] s[j]),
    ensures
        digits_value(s, from, to) >= 0,
    decreases to - from,
{
    if from < to {
        lemma_digits_value_nonneg(s, from, to - 1);
    }
}

/// Parses an integer literal: a non-empty digit run whose value fits the
/// fixed-width integer type.
fn int_number(i: &str, pos: usize) -> (r: Option<(SchemeParserValue, usize)>)
    requires
        pos <= i@.len(),
    ensures
        match r {
            Some(vp) => {
                &&& pos < vp.1 <= i@.len()
                &&& vp.1 == digit_run_end(i@, pos as int)
                &&& vp.0 matches SchemeParserValue::IntNumber(x) && x as int == digits_value(
                    i@,
                    pos as int,
                    vp.1 as int,
                )
            },
            None => pos >= i@.len() || !is_digit_char(i@[pos as int]) || digits_value(
                i@,
                pos as int,
                digit_run_end(i@, pos as int),
            ) > i64::MAX,
        },
{
    let n = i.unicode_len();
    proof {
        lemma_digit_run(i@, pos as int);
    }
    if pos >= n {
        return None;
    }
    let c0 = i.get_char(pos) as u32;
    if !(48 <= c0 && c0 <= 57) {
        return None;
    }
    let ghost end = digit_run_end(i@, pos as int);
    let mut p = pos;
    let mut acc: i64 = 0;
    while p < n
        invariant
            pos <= p <= n,
            n == i@.len(),
            p <= end,
            end == digit_run_end(i@, pos as int),
            pos <= end <= n,
            forall|j: int| pos <= j < end ==> is_digit_char(#[trigger] i@[j]),
            end < n ==> !is_digit_char(i@[end as int]),
            acc as int == digits_value(i@, pos as int, p as int),
        ensures
            p == end,
            acc as int == digits_value(i@, pos as int, end),
        decreases n - p,
    {
        let cv = i.get_char(p) as u32;
        if !(48 <= cv && cv <= 57) {
            proof {
                assert(p == end) by {
                    if p < end {
                        assert(is_digit_char(i@[p as int]));
                    }
                }
            }
            break ;
        }
        let d = (cv - 48) as i64;
        proof {
            assert(is_digit_char(i@[p as int]));
            assert(p < end) by {
                if p == end {
                    assert(!is_digit_char(i@[end as int]));
                }
            }
        }
        let acc10 = match acc.checked_mul(10) {
            Some(a) => a,
            None => {
                proof {
                    lemma_digits_value_nonneg(i@, pos as int, p as int);
                    assert(digits_value(i@, pos as int, p + 1) > i64::MAX);
                    lemma_digits_value_mono(i@, pos as int, p + 1, end);
                }
                return None;
            },
        };
        let acc2 = match acc10.checked_add(d) {
            Some(a) => a,
            None => {
                proof {
                    lemma_digits_value_nonneg(i@, pos as int, p as int);
                    assert(digits_value(i@, pos as int, p + 1) > i64::MAX);
                    lemma_digits_value_mono(i@, pos as int, p + 1, end);
                }
                return None;
            },
        };
        acc = acc2;
        p += 1;
    }
    Some((SchemeParserValue::IntNumber(acc), p))
}

/// Parses a boolean literal `#t` or `#f`.
pub open spec fn boolean_at(s: Seq<char>, pos: int) -> Option<(bool, int)> {
    if pos + 2 <= s.len() && s[pos] == '#' && s[pos + 1] == 't' {
        Some((true, pos + 2))
    } else if pos + 2 <= s.len() && s[pos] == '#' && s[pos + 1] == 'f' {
        Some((false, pos + 2))
    } else {
        None
    }
}

/// Parses a boolean literal.
fn boolean(i: &str, pos: usize) -> (r: Option<(SchemeParserValue, usize)>)
    requires
        pos <= i@.len(),
    ensures
        match r {
            Some(vp) => pos < vp.1 <= i@.len() && (boolean_at(i@, pos as int) matches Some(bp)
                && vp.0 == SchemeParserValue::Boolean(bp.0) && vp.1 == bp.1),
            None => boolean_at(i@, pos as int) is None,
        },
{
    let n = i.unicode_len();
    if n - pos >= 2 && i.get_char(pos) == '#' {
        let c1 = i.get_char(pos + 1);
        if c1 == 't' {
            return Some((SchemeParserValue::Boolean(true), pos + 2));
        }
        if c1 == 'f' {
            return Some((SchemeParserValue::Boolean(false), pos + 2));
        }
    }
    None
}

/// Parses a character literal: `#\newline`, `#\space`, or `#\` followed
/// by any single character.
pub open spec fn character_at(s: Seq<char>, pos: int) -> Option<(char, int)> {
    if pos + 2 <= s.len() && s[pos] == '#' && s[pos + 1] == '\\' {
        if pos + 9 <= s.len() && s[pos + 2] == 'n' && s[pos + 3] == 'e' && s[pos + 4] == 'w'
            && s[pos + 5] == 'l' && s[pos + 6] == 'i' && s[pos + 7] == 'n' && s[pos + 8] == 'e' {
            Some(('\n', pos + 9))
        } else if pos + 7 <= s.len() && s[pos + 2] == 's' && s[pos + 3] == 'p' && s[pos + 4] == 'a'
            && s[pos + 5] == 'c' && s[pos + 6] == 'e' {
            Some((' ', pos + 7))
        } else if pos + 3 <= s.len() {
            Some((s[pos + 2], pos + 3))
        } else {
            None
        }
    } else {
        None
    }
}

/// Parses a character literal.
fn character(i: &str, pos: usize) -> (r: Option<(SchemeParserValue, usize)>)
    requires
        pos <= i@.len(),
    ensures
        match r {
            Some(vp) => pos < vp.1 <= i@.len() && (character_at(i@, pos as int) matches Some(cp)
                && vp.0 == SchemeParserValue::Character(cp.0) && vp.1 == cp.1),
            None => character_at(i@, pos as int) is None,
        },
{
    let n = i.unicode_len();
    if !(n - pos >= 2 && i.get_char(pos) == '#' && i.get_char(pos + 1) == '\\') {
        return None;
    }
    if n - pos >= 9 && i.get_char(pos + 2) == 'n' && i.get_char(pos + 3) == 'e' && i.get_char(
        pos + 4,
    ) == 'w' && i.get_char(pos + 5) == 'l' && i.get_char(pos + 6) == 'i' && i.get_char(pos + 7)
        == 'n' && i.get_char(pos + 8) == 'e' {
        return Some((SchemeParserValue::Character('\n'), pos + 9));
    }
    if n - pos >= 7 && i.get_char(pos + 2) == 's' && i.get_char(pos + 3) == 'p' && i.get_char(
        pos + 4,
    ) == 'a' && i.get_char(pos + 5) == 'c' && i.get_char(pos + 6) == 'e' {
        return Some((SchemeParserValue::Character(' '), pos + 7));
    }
    if n - pos >= 3 {
        return Some((SchemeParserValue::Character(i.get_char(pos + 2)), pos + 3));
    }
    None
}

/// The contents and end of a string literal's body, read from just after
/// the opening quote: `\"` and `\\` escape a quote and a backslash, any
/// other character stands for itself, and the body ends at the first
/// unescaped quote.
pub open spec fn string_body(s: Seq<char>, pos: int) -> Option<(Seq<char>, int)>
    decreases s.len() - pos,
{
    if pos < 0 || pos >= s.len() {
        None
    } else if s[pos] == '"' {
        Some((Seq::empty(), pos + 1))
    } else if s[pos] == '\\' {
        if pos + 2 <= s.len() && (s[pos + 1] == '"' || s[pos + 1] == '\\') {
            match string_body(s, pos + 2) {
                Some(tp) => Some((seq![s[pos + 1]] + tp.0, tp.1)),
                None => None,
            }
        } else {
            None
        }
    } else {
        match string_body(s, pos + 1) {
            Some(tp) => Some((seq![s[pos]] + tp.0, tp.1)),
            None => None,
        }
    }
}

/// Parses a string literal, including its quotes.
fn string_lit(i: &str, pos: usize) -> (r: Option<(SchemeParserValue, usize)>)
    requires
        pos <= i@.len(),
    ensures
        match r {
            Some(vp) => {
                &&& pos < vp.1 <= i@.len()
                &&& pos < i@.len() && i@[pos as int] == '"'
                &&& match string_body(i@, pos + 1) {
                    Some(tp) => vp.1 == tp.1 && (vp.0 matches SchemeParserValue::Text(t) && t@
                        == tp.0),
                    None => false,
                }
            },
            None => pos >= i@.len() || i@[pos as int] != '"' || string_body(i@, pos + 1) is None,
        },
{
    let n = i.unicode_len();
    if pos >= n || i.get_char(pos) != '"' {
        return None;
    }
    let mut p = pos + 1;
    let mut acc = String::new();
    while p < n
        invariant
            pos + 1 <= p <= n,
            n == i@.len(),
            pos < i@.len() && i@[pos as int] == '"',
            match string_body(i@, p as int) {
                Some(tp) => string_body(i@, pos + 1) matches Some(whole) && whole.0 == acc@ + tp.0
                    && whole.1 == tp.1,
                None => string_body(i@, pos + 1) is None,
            },
        decreases n - p,
    {
        let c = i.get_char(p);
        if c == '"' {
            proof {
                assert(acc@ + Seq::<char>::empty() =~= acc@);
            }
            return Some((SchemeParserValue::Text(acc), p + 1));
        }
        if c == '\\' {
            if n - p >= 2 {
                let e = i.get_char(p + 1);
                if e == '"' || e == '\\' {
                    let ghost old_acc = acc@;
                    let piece = i.substring_char(p + 1, p + 2);
                    acc.append(piece);
                    proof {
                        assert(i@.subrange(p + 1, p + 2) =~= seq![i@[p + 1]]);
                        match string_body(i@, p + 2) {
                            Some(tp) => {
                                assert((old_acc + seq![i@[p + 1]]) + tp.0 =~= old_acc + (seq![
                                    i@[p + 1],
                                ] + tp.0));
                            },
                            None => {},
                        }
                    }
                    p += 2;
                    continue ;
                }
            }
            return None;
        }
        let ghost old_acc = acc@;
        let piece = i.substring_char(p, p + 1);
        acc.append(piece);
        proof {
            assert(i@.subrange(p as int, p + 1) =~= seq![i@[p as int]]);
            match string_body(i@, p + 1) {
                Some(tp) => {
                    assert((old_acc + seq![i@[p as int]]) + tp.0 =~= old_acc + (seq![i@[p as int]]
                        + tp.0));
                },
                None => {},
            }
        }
        p += 1;
    }
    None
}

/// A character that may open a symbol: a lower-case letter or one of
/// `!$%&*/:<=>?~_^`.
pub open spec fn is_initial_char(c: char) -> bool {
    (97 <= c as int && c as int <= 122) || c == '!' || c == '$' || c == '%' || c == '&' || c == '*'
        || c == '/' || c == ':' || c == '<' || c == '=' || c == '>' || c == '?' || c == '~' || c
        == '_' || c == '^'
}

/// A character that may continue a symbol: an initial character, a digit,
/// or one of `.+-`.
pub open spec fn is_subsequent_char(c: char) -> bool {
    is_initial_char(c) || is_digit_char(c) || c == '.' || c == '+' || c == '-'
}

/// Tests whether a character may open a symbol.
fn initial_char(c: char) -> (r: bool)
    ensures
        r == is_initial_char(c),
{
    let v = c as u32;
    (97 <= v && v <= 122) || c == '!' || c == '$' || c == '%' || c == '&' || c == '*' || c == '/'
        || c == ':' || c == '<' || c == '=' || c == '>' || c == '?' || c == '~' || c == '_' || c
        == '^'
}

/// Tests whether a character may continue a symbol.
fn subsequent_char(c: char) -> (r: bool)
    ensures
        r == is_subsequent_char(c),
{
    let v = c as u32;
    initial_char(c) || (48 <= v && v <= 57) || c == '.' || c == '+' || c == '-'
}

/// Where the run of symbol-continuing characters starting at `pos` ends.
pub open spec fn subsequent_run_end(s: Seq<char>, pos: int) -> int
    decreases s.len() - pos,
{
    if pos < s.len() && is_subsequent_char(s[pos]) {
        subsequent_run_end(s, pos + 1)
    } else {
        pos
    }
}

/// Where a symbol starting at `pos` ends, with its name text: the
/// one-character operators `+` and `-` and the ellipsis `...` are
/// symbols; otherwise an initial character followed by the run of
/// continuing characters.
pub open spec fn identifier_at(s: Seq<char>, pos: int) -> Option<(Seq<char>, int)> {
    if pos < s.len() && s[pos] == '+' {
        Some((seq!['+'], pos + 1))
    } else if pos < s.len() && s[pos] == '-' {
        Some((seq!['-'], pos + 1))
    } else if pos + 3 <= s.len() && s[pos] == '.' && s[pos + 1] == '.' && s[pos + 2] == '.' {
        Some((s.subrange(pos, pos + 3), pos + 3))
    } else if pos < s.len() && is_initial_char(s[pos]) {
        Some((s.subrange(pos, subsequent_run_end(s, pos + 1)), subsequent_run_end(s, pos + 1)))
    } else {
        None
    }
}

/// The continuing run ends past `pos`, within the input, and is pinned by
/// its characterization.
proof fn lemma_subsequent_run(s: Seq<char>, pos: int)
    requires
        0 <= pos <= s.len(),
    ensures
        pos <= subsequent_run_end(s, pos) <= s.len(),
        forall|j: int| pos <= j < subsequent_run_end(s, pos) ==> is_subsequent_char(
            #[trigger] s[j],
        ),
        subsequent_run_end(s, pos) < s.len() ==> !is_subsequent_char(
            s[subsequent_run_end(s, pos)],
        ),
    decreases s.len() - pos,
{
    if pos < s.len() && is_subsequent_char(s[pos]) {
        lemma_subsequent_run(s, pos + 1);
    }
}

/// Parses a symbol.
fn identifier(i: &str, pos: usize) -> (r: Option<(SchemeParserValue, usize)>)
    requires
        pos <= i@.len(),
    ensures
        match r {
            Some(vp) => pos < vp.1 <= i@.len() && match identifier_at(i@, pos as int) {
                Some(tp) => vp.1 == tp.1 && (vp.0 matches SchemeParserValue::Symbol(t) && t@
                    == tp.0),
                None => false,
            },
            None => identifier_at(i@, pos as int) is None,
        },
{
    let n = i.unicode_len();
    if pos >= n {
        return None;
    }
    let c0 = i.get_char(pos);
    if c0 == '+' || c0 == '-' {
        let text = i.substring_char(pos, pos + 1).to_owned();
        proof {
            assert(i@.subrange(pos as int, pos + 1) =~= seq![i@[pos as int]]);
        }
        return Some((SchemeParserValue::Symbol(text), pos + 1));
    }
    if n - pos >= 3 && c0 == '.' && i.get_char(pos + 1) == '.' && i.get_char(pos + 2) == '.' {
        let text = i.substring_char(pos, pos + 3).to_owned();
        return Some((SchemeParserValue::Symbol(text), pos + 3));
    }
    if !initial_char(c0) {
        return None;
    }
    proof {
        lemma_subsequent_run(i@, pos + 1);
    }
    let ghost end = subsequent_run_end(i@, pos + 1);
    let mut p = pos + 1;
    while p < n
        invariant
            pos + 1 <= p <= n,
            n == i@.len(),
            p <= end,
            end == subsequent_run_end(i@, pos + 1),
            pos + 1 <= end <= n,
            forall|j: int| pos + 1 <= j < end ==> is_subsequent_char(#[trigger] i@[j]),
            end < n ==> !is_subsequent_char(i@[end as int]),
        ensures
            p == end,
        decreases n - p,
    {
        if !subsequent_char(i.get_char(p)) {
            proof {
                assert(p == end) by {
                    if p < end {
                        assert(is_subsequent_char(i@[p as int]));
                    }
                }
            }
            break ;
        }
        proof {
            assert(p < end) by {
                if p == end {
                    assert(!is_subsequent_char(i@[end as int]));
                }
            }
        }
        p += 1;
    }
    let text = i.substring_char(pos, p).to_owned();
    Some((SchemeParserValue::Symbol(text), p))
}

/// The shape of a parsed datum in specification terms: owned text as
/// character sequences, element vectors as sequences.
pub enum DatumView {
    Symbol(Seq<char>),
    IntNumber(i64),
    Boolean(bool),
    Text(Seq<char>),
    Character(char),
    List(Seq<DatumView>),
    Improper(Seq<DatumView>, Box<DatumView>),
}

/// The specification shape of a parsed value.
pub open spec fn view_of(v: SchemeParserValue) -> DatumView
    decreases v,
{
    match v {
        SchemeParserValue::Symbol(s) => DatumView::Symbol(s@),
        SchemeParserValue::IntNumber(x) => DatumView::IntNumber(x),
        SchemeParserValue::Boolean(b) => DatumView::Boolean(b),
        SchemeParserValue::Text(s) => DatumView::Text(s@),
        SchemeParserValue::Character(c) => DatumView::Character(c),
        SchemeParserValue::List(l) => DatumView::List(views_of(l@)),
        SchemeParserValue::Improper(l, t) => DatumView::Improper(
            views_of(l@),
            Box::new(view_of(*t)),
        ),
    }
}

/// The specification shapes of a sequence of parsed values.
pub open spec fn views_of(l: Seq<SchemeParserValue>) -> Seq<DatumView>
    decreases l,
{
    if l.len() == 0 {
        Seq::empty()
    } else {
        views_of(l.drop_last()).push(view_of(l.last()))
    }
}

/// Where an integer literal at `pos` parses to: a non-empty digit run
/// whose value fits the fixed-width integer type.
pub open spec fn int_at(s: Seq<char>, pos: int) -> Option<(i64, int)> {
    if pos < s.len() && is_digit_char(s[pos]) && digits_value(s, pos, digit_run_end(s, pos))
        <= i64::MAX {
        Some(((digits_value(s, pos, digit_run_end(s, pos))) as i64, digit_run_end(s, pos)))
    } else {
        None
    }
}

/// What one datum at `pos` parses to, trying the alternatives in the same
/// fixed order as the parser: integer, boolean, character, string,
/// symbol, then a parenthesized form.
pub open spec fn spec_datum(s: Seq<char>, pos: int) -> Option<(DatumView, int)>
    decreases s.len() - pos, 1int,
    when 0 <= pos <= s.len()
{
    match int_at(s, pos) {
        Some(xp) => Some((DatumView::IntNumber(xp.0), xp.1)),
        None => match boolean_at(s, pos) {
            Some(bp) => Some((DatumView::Boolean(bp.0), bp.1)),
            None => match character_at(s, pos) {
                Some(cp) => Some((DatumView::Character(cp.0), cp.1)),
                None => if pos < s.len() && s[pos] == '"' {
                    match string_body(s, pos + 1) {
                        Some(tp) => Some((DatumView::Text(tp.0), tp.1)),
                        None => None,
                    }
                } else {
                    match identifier_at(s, pos) {
                        Some(tp) => Some((DatumView::Symbol(tp.0), tp.1)),
                        None => spec_list(s, pos),
                    }
                },
            },
        },
    }
}

/// What a parenthesized form at `pos` parses to.
pub open spec fn spec_list(s: Seq<char>, pos: int) -> Option<(DatumView, int)>
    decreases s.len() - pos, 0int,
    when 0 <= pos <= s.len()
{
    if !(pos < s.len() && s[pos] == '(') {
        None
    } else if pos + 1 < s.len() && s[pos + 1] == ')' {
        Some((DatumView::List(Seq::empty()), pos + 2))
    } else {
        spec_list_rest(s, pos + 1, Seq::empty())
    }
}

/// What the rest of a parenthesized form parses to, with the data read so
/// far in hand: further space-separated data up to a closing parenthesis,
/// or a spaced dot, a tail datum and the closing parenthesis.
pub open spec fn spec_list_rest(s: Seq<char>, cur: int, acc: Seq<DatumView>) -> Option<
    (DatumView, int),
>
    decreases s.len() - cur, 2int,
    when 0 <= cur <= s.len()
{
    match spec_datum(s, cur) {
        None => None,
        Some(vp) => if !(cur < vp.1 <= s.len()) {
            None
        } else {
            let acc2 = acc.push(vp.0);
            let p = vp.1;
            if p < s.len() && s[p] == ')' {
                Some((DatumView::List(acc2), p + 1))
            } else if p < s.len() && s[p] == ' ' {
                if p + 3 <= s.len() && s[p + 1] == '.' && s[p + 2] == ' ' {
                    match spec_datum(s, p + 3) {
                        Some(tp) => if tp.1 < s.len() && s[tp.1] == ')' {
                            Some((DatumView::Improper(acc2, Box::new(tp.0)), tp.1 + 1))
                        } else {
                            None
                        },
                        None => None,
                    }
                } else {
                    spec_list_rest(s, p + 1, acc2)
                }
            } else {
                None
            }
        },
    }
}

/// Pushing one more parsed value extends its sequence's shapes by one.
proof fn lemma_views_of_push(l: Seq<SchemeParserValue>, v: SchemeParserValue)
    ensures
        views_of(l.push(v)) == views_of(l).push(view_of(v)),
{
    assert(l.push(v).drop_last() =~= l);
    assert(l.push(v).last() == v);
}

/// Parses one datum, trying the alternatives in a fixed order: integer,
/// boolean, character, string, symbol, then list or dotted form. A
/// successful parse always consumes at least one character.
fn datum(i: &str, pos: usize) -> (r: Option<(SchemeParserValue, usize)>)
    requires
        pos <= i@.len(),
    ensures
        match r {
            Some(vp) => pos < vp.1 <= i@.len() && spec_datum(i@, pos as int) == Some(
                (view_of(vp.0), vp.1 as int),
            ),
            None => spec_datum(i@, pos as int) is None,
        },
    decreases i@.len() - pos, 1int,
{
    if let Some(x) = int_number(i, pos) {
        proof {
            assert(digit_run_end(i@, pos as int) > pos);
            assert(is_digit_char(i@[pos as int]));
        }
        return Some(x);
    }
    if let Some(x) = boolean(i, pos) {
        return Some(x);
    }
    if let Some(x) = character(i, pos) {
        return Some(x);
    }
    if let Some(x) = string_lit(i, pos) {
        return Some(x);
    }
    if let Some(x) = identifier(i, pos) {
        return Some(x);
    }
    list(i, pos)
}

/// Parses a parenthesized form: the empty list `()`, a proper list
/// `(d0 d1 ...)` with single spaces between the data, or a dotted form
/// `(d0 d1 ... . tail)` whose dot is set off by single spaces.
#[verifier::loop_isolation(false)]
fn list(i: &str, pos: usize) -> (r: Option<(SchemeParserValue, usize)>)
    requires
        pos <= i@.len(),
    ensures
        match r {
            Some(vp) => pos < vp.1 <= i@.len() && spec_list(i@, pos as int) == Some(
                (view_of(vp.0), vp.1 as int),
            ),
            None => spec_list(i@, pos as int) is None,
        },
    decreases i@.len() - pos, 0int,
{
    let n = i.unicode_len();
    if pos >= n || i.get_char(pos) != '(' {
        return None;
    }
    let mut cur = pos + 1;
    let mut elems: Vec<SchemeParserValue> = Vec::new();
    if cur < n && i.get_char(cur) == ')' {
        proof {
            assert(views_of(elems@) =~= Seq::<DatumView>::empty());
        }
        return Some((SchemeParserValue::List(elems), cur + 1));
    }
    proof {
        assert(spec_list(i@, pos as int) == spec_list_rest(i@, pos + 1, Seq::empty()));
        assert(views_of(elems@) =~= Seq::<DatumView>::empty());
    }
    loop
        invariant
            pos + 1 <= cur <= n,
            pos < n,
            n == i@.len(),
            spec_list(i@, pos as int) == spec_list_rest(i@, cur as int, views_of(elems@)),
        decreases n - cur,
    {
        let ghost acc = views_of(elems@);
        let ghost cur0 = cur as int;
        let (v, p) = match datum(i, cur) {
            Some(x) => x,
            None => {
                return None;
            },
        };
        proof {
            lemma_views_of_push(elems@, v);
        }
        elems.push(v);
        cur = p;
        if cur < n && i.get_char(cur) == ')' {
            return Some((SchemeParserValue::List(elems), cur + 1));
        }
        if cur < n && i.get_char(cur) == ' ' {
            if n - cur >= 3 && i.get_char(cur + 1) == '.' && i.get_char(cur + 2) == ' ' {
                let (t, p2) = match datum(i, cur + 3) {
                    Some(x) => x,
                    None => {
                        return None;
                    },
                };
                if p2 < n && i.get_char(p2) == ')' {
                    return Some((SchemeParserValue::Improper(elems, Box::new(t)), p2 + 1));
                }
                return None;
            }
            cur = cur + 1;
        } else {
            return None;
        }
    }
}

/// Parses one whole program text into a datum. Fails with
/// `TrailingCharacter` if a datum was read but characters remain (the
/// error carries the first of them), and with `InvalidDatum` if no datum
/// could be read at all; in particular the empty text holds no datum.
pub fn parse(i: &str) -> (r: Result<SchemeParserValue, ParseError>)
    ensures
        match r {
            Ok(v) => spec_datum(i@, 0) == Some((view_of(v), i@.len() as int)),
            Err(e) => match e {
                ParseError::InvalidDatum => spec_datum(i@, 0) is None,
                ParseError::TrailingCharacter(c) => match spec_datum(i@, 0) {
                    Some(vp) => vp.1 < i@.len() && c == i@[vp.1],
                    None => false,
                },
            },
        },
{
    match datum(i, 0) {
        Some((v, p)) => {
            let n = i.unicode_len();
            if p < n {
                Err(ParseError::TrailingCharacter(i.get_char(p)))
            } else {
                Ok(v)
            }
        },
        None => Err(ParseError::InvalidDatum),
    }
}

} // verus!
