//! The grammar of the accepted JSON subset, written as a deterministic
//! recursive-descent reading of a character sequence.
//!
//! These spec functions are the single statement of what the parser accepts
//! and what tree each document denotes:
//!
//! - `Value := Object | Array | String | Number | "true" | "false" | "null"`
//! - `Object := '{' ( String ':' Value (',' String ':' Value)* )? '}'`
//! - `Array := '[' ( Value (',' Value)* )? ']'`
//! - `String := '"' ( unescaped-char | escape-sequence )* '"'`
//! - `Number := '-'? digit+ ('.' digit+)?` (no exponent notation)
//!
//! Whitespace (any Unicode whitespace) is insignificant around values and
//! between the tokens of containers.  Inside strings the two-character
//! escapes `\" \\ \/ \b \f \n \r \t` denote their literal characters and any
//! other escaped character denotes itself.  Duplicate object keys resolve
//! last-write-wins.  Each failing reading names the first error encountered.

use vstd::prelude::*;

use crate::json_value::JNum;
use crate::json_value::JVal;
use crate::json_value::insert_pair;
use crate::json_value::is_digit;
use crate::text::is_ws;

verus! {

/// Which literal word a reading expected.
#[derive(Debug, PartialEq, Eq, Structural, Clone, Copy)]
pub enum LiteralKind {
    True,
    False,
    Null,
}

/// Which container delimiter rule a reading violated.
#[derive(Debug, PartialEq, Eq, Structural, Clone, Copy)]
pub enum ContainerCtx {
    /// A string key (or `}`) was expected inside an object.
    ObjectKey,
    /// `,` or `}` was expected after an object member.
    ObjectDelimiter,
    /// `,` or `]` was expected after an array element.
    ArrayDelimiter,
}

/// The first structural problem a reading encountered.
#[derive(Debug, PartialEq, Eq, Structural, Clone, Copy)]
pub enum ParseError {
    /// No value-starting token at the current position.
    UnexpectedCharacter,
    /// A `true`/`false`/`null` prefix mismatch.
    UnrecognizedLiteral(LiteralKind),
    /// No closing quote before the end of input.
    UnterminatedString,
    /// A backslash as the last character of the input.
    UnterminatedEscape,
    /// No `:` after an object key.
    ExpectedColon,
    /// An object/array delimiter violation.
    MalformedContainer(ContainerCtx),
    /// A number token outside `'-'? digit+ ('.' digit+)?`.
    NumberFormat,
    /// Non-whitespace content after the top-level value.
    TrailingContent,
}

/// The outcome of reading one construct: the denoted result and the position
/// after it, or the first error.
#[verifier::ext_equal]
pub ghost enum PRes<T> {
    Good { v: T, end: int },
    Bad(ParseError),
}

/// The position of the first non-whitespace character at or after `pos`.
pub open spec fn skip_ws(s: Seq<char>, pos: int) -> int
    decreases s.len() - pos,
{
    if 0 <= pos < s.len() && is_ws(s[pos]) {
        skip_ws(s, pos + 1)
    } else {
        pos
    }
}

pub proof fn lemma_skip_ws(s: Seq<char>, pos: int)
    ensures
        pos <= skip_ws(s, pos),
        pos <= s.len() ==> skip_ws(s, pos) <= s.len(),
        0 <= pos && skip_ws(s, pos) < s.len() ==> !is_ws(s[skip_ws(s, pos)]),
    decreases s.len() - pos,
{
    if 0 <= pos < s.len() && is_ws(s[pos]) {
        lemma_skip_ws(s, pos + 1);
    }
}

/// What a two-character escape denotes; a character not in the escape table
/// denotes itself.
pub open spec fn unescape(c: char) -> char {
    if c == 'b' {
        '\u{8}'
    } else if c == 'f' {
        '\u{C}'
    } else if c == 'n' {
        '\n'
    } else if c == 'r' {
        '\r'
    } else if c == 't' {
        '\t'
    } else {
        c
    }
}

/// Reads a string body from `pos` (just after the opening quote) up to and
/// over the closing quote, resolving escapes.
pub open spec fn sstring(s: Seq<char>, pos: int) -> PRes<Seq<char>>
    decreases s.len() - pos,
{
    if !(0 <= pos < s.len()) {
        PRes::Bad(ParseError::UnterminatedString)
    } else if s[pos] == '"' {
        PRes::Good { v: Seq::empty(), end: pos + 1 }
    } else if s[pos] == '\\' {
        if pos + 1 >= s.len() {
            PRes::Bad(ParseError::UnterminatedEscape)
        } else {
            match sstring(s, pos + 2) {
                PRes::Good { v, end } => PRes::Good { v: seq![unescape(s[pos + 1])] + v, end },
                PRes::Bad(e) => PRes::Bad(e),
            }
        }
    } else {
        match sstring(s, pos + 1) {
            PRes::Good { v, end } => PRes::Good { v: seq![s[pos]] + v, end },
            PRes::Bad(e) => PRes::Bad(e),
        }
    }
}

pub proof fn lemma_sstring_bounds(s: Seq<char>, pos: int)
    ensures
        match sstring(s, pos) {
            PRes::Good { end, .. } => pos < end <= s.len(),
            PRes::Bad(_) => true,
        },
    decreases s.len() - pos,
{
    if 0 <= pos < s.len() {
        if s[pos] == '"' {
        } else if s[pos] == '\\' {
            if pos + 1 < s.len() {
                lemma_sstring_bounds(s, pos + 2);
            }
        } else {
            lemma_sstring_bounds(s, pos + 1);
        }
    }
}

/// The position of the first non-digit character at or after `pos`.
pub open spec fn digits_end(s: Seq<char>, pos: int) -> int
    decreases s.len() - pos,
{
    if 0 <= pos < s.len() && is_digit(s[pos]) {
        digits_end(s, pos + 1)
    } else {
        pos
    }
}

pub proof fn lemma_digits_end(s: Seq<char>, pos: int)
    ensures
        pos <= digits_end(s, pos),
        pos <= s.len() ==> digits_end(s, pos) <= s.len(),
        0 <= pos && digits_end(s, pos) < s.len() ==> !is_digit(s[digits_end(s, pos)]),
    decreases s.len() - pos,
{
    if 0 <= pos < s.len() && is_digit(s[pos]) {
        lemma_digits_end(s, pos + 1);
    }
}

/// Reads a number token `'-'? digit+ ('.' digit+)?` from `pos`.  A sign
/// without digits, or a dot without digits after it, is a `NumberFormat`
/// error.
pub open spec fn snumber(s: Seq<char>, pos: int) -> PRes<JNum> {
    let neg = 0 <= pos < s.len() && s[pos] == '-';
    let ipos = if neg {
        pos + 1
    } else {
        pos
    };
    let iend = digits_end(s, ipos);
    if iend == ipos {
        PRes::Bad(ParseError::NumberFormat)
    } else if iend < s.len() && s[iend] == '.' {
        let fend = digits_end(s, iend + 1);
        if fend == iend + 1 {
            PRes::Bad(ParseError::NumberFormat)
        } else {
            PRes::Good {
                v: JNum {
                    neg,
                    int_digits: s.subrange(ipos, iend),
                    frac_digits: s.subrange(iend + 1, fend),
                },
                end: fend,
            }
        }
    } else {
        PRes::Good {
            v: JNum { neg, int_digits: s.subrange(ipos, iend), frac_digits: Seq::empty() },
            end: iend,
        }
    }
}

/// The characters of a literal word.
pub open spec fn lit_chars(k: LiteralKind) -> Seq<char> {
    match k {
        LiteralKind::True => seq!['t', 'r', 'u', 'e'],
        LiteralKind::False => seq!['f', 'a', 'l', 's', 'e'],
        LiteralKind::Null => seq!['n', 'u', 'l', 'l'],
    }
}

/// The value a literal word denotes.
pub open spec fn lit_val(k: LiteralKind) -> JVal {
    match k {
        LiteralKind::True => JVal::Bool(true),
        LiteralKind::False => JVal::Bool(false),
        LiteralKind::Null => JVal::Null,
    }
}

/// Reads a literal word by exact prefix match.
pub open spec fn sliteral(s: Seq<char>, pos: int, k: LiteralKind) -> PRes<JVal> {
    if pos >= 0 && pos + lit_chars(k).len() <= s.len() && s.subrange(
        pos,
        pos + lit_chars(k).len(),
    ) == lit_chars(k) {
        PRes::Good { v: lit_val(k), end: pos + lit_chars(k).len() }
    } else {
        PRes::Bad(ParseError::UnrecognizedLiteral(k))
    }
}

/// Reads one value from `pos`, after any leading whitespace.
pub open spec fn sval(s: Seq<char>, pos: int) -> PRes<JVal>
    decreases s.len() - pos, 1int,
{
    let p = skip_ws(s, pos);
    proof {
        lemma_skip_ws(s, pos);
    }
    if !(0 <= p < s.len()) {
        PRes::Bad(ParseError::UnexpectedCharacter)
    } else if s[p] == '{' {
        sobj(s, p + 1)
    } else if s[p] == '[' {
        sarr(s, p + 1)
    } else if s[p] == '"' {
        match sstring(s, p + 1) {
            PRes::Good { v, end } => PRes::Good { v: JVal::Str(v), end },
            PRes::Bad(e) => PRes::Bad(e),
        }
    } else if s[p] == '-' || is_digit(s[p]) {
        match snumber(s, p) {
            PRes::Good { v, end } => PRes::Good { v: JVal::Num(v), end },
            PRes::Bad(e) => PRes::Bad(e),
        }
    } else if s[p] == 't' {
        sliteral(s, p, LiteralKind::True)
    } else if s[p] == 'f' {
        sliteral(s, p, LiteralKind::False)
    } else if s[p] == 'n' {
        sliteral(s, p, LiteralKind::Null)
    } else {
        PRes::Bad(ParseError::UnexpectedCharacter)
    }
}

/// Reads an object body from `pos` (just after the `{`).
pub open spec fn sobj(s: Seq<char>, pos: int) -> PRes<JVal>
    decreases s.len() - pos, 3int,
{
    let p = skip_ws(s, pos);
    proof {
        lemma_skip_ws(s, pos);
    }
    if 0 <= p < s.len() && s[p] == '}' {
        PRes::Good { v: JVal::Obj(Seq::empty()), end: p + 1 }
    } else if p > s.len() {
        PRes::Bad(ParseError::MalformedContainer(ContainerCtx::ObjectKey))
    } else {
        match smembers(s, p, Seq::empty()) {
            PRes::Good { v, end } => PRes::Good { v: JVal::Obj(v), end },
            PRes::Bad(e) => PRes::Bad(e),
        }
    }
}

/// Reads object members from `pos` (at a key, after any `{` or `,`), with
/// `acc` the members read so far.  Each member is a string key, a colon and a
/// value; members are inserted last-write-wins.
pub open spec fn smembers(s: Seq<char>, pos: int, acc: Seq<(Seq<char>, JVal)>) -> PRes<
    Seq<(Seq<char>, JVal)>,
>
    decreases s.len() - pos, 2int,
{
    let p = skip_ws(s, pos);
    proof {
        lemma_skip_ws(s, pos);
    }
    if !(0 <= p < s.len()) || s[p] != '"' {
        PRes::Bad(ParseError::MalformedContainer(ContainerCtx::ObjectKey))
    } else {
        match sstring(s, p + 1) {
            PRes::Bad(e) => PRes::Bad(e),
            PRes::Good { v: key, end: kend } => {
                let q = skip_ws(s, kend);
                proof {
                    lemma_sstring_bounds(s, p + 1);
                    lemma_skip_ws(s, kend);
                }
                if !(0 <= q < s.len()) || s[q] != ':' {
                    PRes::Bad(ParseError::ExpectedColon)
                } else {
                    match sval(s, q + 1) {
                        PRes::Bad(e) => PRes::Bad(e),
                        PRes::Good { v, end: vend } => {
                            let acc2 = insert_pair(acc, key, v);
                            let r = skip_ws(s, vend);
                            proof {
                                lemma_skip_ws(s, vend);
                            }
                            if 0 <= r < s.len() && s[r] == ',' {
                                // The reading always moves forward, so this
                                // bound holds on every reachable unfolding
                                // (`lemma_sval_advances`); it carries the
                                // termination measure.
                                if pos < r + 1 {
                                    smembers(s, r + 1, acc2)
                                } else {
                                    PRes::Bad(
                                        ParseError::MalformedContainer(ContainerCtx::ObjectDelimiter),
                                    )
                                }
                            } else if 0 <= r < s.len() && s[r] == '}' {
                                PRes::Good { v: acc2, end: r + 1 }
                            } else {
                                PRes::Bad(
                                    ParseError::MalformedContainer(ContainerCtx::ObjectDelimiter),
                                )
                            }
                        },
                    }
                }
            },
        }
    }
}

/// Reads an array body from `pos` (just after the `[`).
pub open spec fn sarr(s: Seq<char>, pos: int) -> PRes<JVal>
    decreases s.len() - pos, 3int,
{
    let p = skip_ws(s, pos);
    proof {
        lemma_skip_ws(s, pos);
    }
    if 0 <= p < s.len() && s[p] == ']' {
        PRes::Good { v: JVal::Arr(Seq::empty()), end: p + 1 }
    } else if p > s.len() {
        PRes::Bad(ParseError::UnexpectedCharacter)
    } else {
        match selems(s, p, Seq::empty()) {
            PRes::Good { v, end } => PRes::Good { v: JVal::Arr(v), end },
            PRes::Bad(e) => PRes::Bad(e),
        }
    }
}

/// Reads array elements from `pos` (at an element, after any `[` or `,`),
/// with `acc` the elements read so far.
pub open spec fn selems(s: Seq<char>, pos: int, acc: Seq<JVal>) -> PRes<Seq<JVal>>
    decreases s.len() - pos, 2int,
{
    match sval(s, pos) {
        PRes::Bad(e) => PRes::Bad(e),
        PRes::Good { v, end } => {
            let acc2 = acc.push(v);
            let r = skip_ws(s, end);
            proof {
                lemma_skip_ws(s, end);
            }
            if 0 <= r < s.len() && s[r] == ',' {
                // Always-forward bound, as in `smembers`.
                if pos < r + 1 {
                    selems(s, r + 1, acc2)
                } else {
                    PRes::Bad(ParseError::MalformedContainer(ContainerCtx::ArrayDelimiter))
                }
            } else if 0 <= r < s.len() && s[r] == ']' {
                PRes::Good { v: acc2, end: r + 1 }
            } else {
                PRes::Bad(ParseError::MalformedContainer(ContainerCtx::ArrayDelimiter))
            }
        },
    }
}

/// Reads a whole document: one value, with insignificant whitespace around
/// it; anything else after it is trailing content.
pub open spec fn parse_spec(s: Seq<char>) -> PRes<JVal> {
    match sval(s, 0) {
        PRes::Bad(e) => PRes::Bad(e),
        PRes::Good { v, end } => {
            let p = skip_ws(s, end);
            if p == s.len() {
                PRes::Good { v, end: p }
            } else {
                PRes::Bad(ParseError::TrailingContent)
            }
        },
    }
}

/// A successful reading of a value always moves forward and stays within the
/// input; so do the readings of members and elements.
pub proof fn lemma_sval_advances(s: Seq<char>, pos: int)
    ensures
        match sval(s, pos) {
            PRes::Good { end, .. } => pos < end <= s.len(),
            PRes::Bad(_) => true,
        },
    decreases s.len() - pos, 1int,
{
    let p = skip_ws(s, pos);
    lemma_skip_ws(s, pos);
    if 0 <= p < s.len() {
        if s[p] == '{' {
            lemma_sobj_advances(s, p + 1);
        } else if s[p] == '[' {
            lemma_sarr_advances(s, p + 1);
        } else if s[p] == '"' {
            lemma_sstring_bounds(s, p + 1);
        } else if s[p] == '-' || is_digit(s[p]) {
            let neg = s[p] == '-';
            let ipos = if neg {
                p + 1
            } else {
                p
            };
            lemma_digits_end(s, ipos);
            let iend = digits_end(s, ipos);
            if iend != ipos && iend < s.len() && s[iend] == '.' {
                lemma_digits_end(s, iend + 1);
            }
        } else {
        }
    }
}

pub proof fn lemma_sobj_advances(s: Seq<char>, pos: int)
    ensures
        match sobj(s, pos) {
            PRes::Good { end, .. } => pos <= end <= s.len() && (pos <= s.len() ==> pos < end),
            PRes::Bad(_) => true,
        },
    decreases s.len() - pos, 3int,
{
    let p = skip_ws(s, pos);
    lemma_skip_ws(s, pos);
    if 0 <= p < s.len() && s[p] == '}' {
    } else if p <= s.len() {
        lemma_smembers_advances(s, p, Seq::empty());
    }
}

pub proof fn lemma_smembers_advances(s: Seq<char>, pos: int, acc: Seq<(Seq<char>, JVal)>)
    ensures
        match smembers(s, pos, acc) {
            PRes::Good { end, .. } => pos < end <= s.len(),
            PRes::Bad(_) => true,
        },
    decreases s.len() - pos, 2int,
{
    let p = skip_ws(s, pos);
    lemma_skip_ws(s, pos);
    if 0 <= p < s.len() && s[p] == '"' {
        lemma_sstring_bounds(s, p + 1);
        match sstring(s, p + 1) {
            PRes::Bad(_) => {},
            PRes::Good { v: key, end: kend } => {
                let q = skip_ws(s, kend);
                lemma_skip_ws(s, kend);
                if 0 <= q < s.len() && s[q] == ':' {
                    lemma_sval_advances(s, q + 1);
                    match sval(s, q + 1) {
                        PRes::Bad(_) => {},
                        PRes::Good { v, end: vend } => {
                            let acc2 = insert_pair(acc, key, v);
                            let r = skip_ws(s, vend);
                            lemma_skip_ws(s, vend);
                            if 0 <= r < s.len() && s[r] == ',' {
                                if pos < r + 1 {
                                    lemma_smembers_advances(s, r + 1, acc2);
                                }
                            }
                        },
                    }
                }
            },
        }
    }
}

pub proof fn lemma_sarr_advances(s: Seq<char>, pos: int)
    ensures
        match sarr(s, pos) {
            PRes::Good { end, .. } => pos <= end <= s.len() && (pos <= s.len() ==> pos < end),
            PRes::Bad(_) => true,
        },
    decreases s.len() - pos, 3int,
{
    let p = skip_ws(s, pos);
    lemma_skip_ws(s, pos);
    if 0 <= p < s.len() && s[p] == ']' {
    } else if p <= s.len() {
        lemma_selems_advances(s, p, Seq::empty());
    }
}

pub proof fn lemma_selems_advances(s: Seq<char>, pos: int, acc: Seq<JVal>)
    ensures
        match selems(s, pos, acc) {
            PRes::Good { end, .. } => pos < end <= s.len(),
            PRes::Bad(_) => true,
        },
    decreases s.len() - pos, 2int,
{
    lemma_sval_advances(s, pos);
    match sval(s, pos) {
        PRes::Bad(_) => {},
        PRes::Good { v, end } => {
            let acc2 = acc.push(v);
            let r = skip_ws(s, end);
            lemma_skip_ws(s, end);
            if 0 <= r < s.len() && s[r] == ',' {
                if pos < r + 1 {
                    lemma_selems_advances(s, r + 1, acc2);
                }
            }
        },
    }
}

} // verus!
