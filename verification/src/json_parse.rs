//! The parser: a recursive-descent reading of a character buffer into a
//! value tree.
//!
//! `JsonParser` holds the decoded characters of the input and a cursor.  Each
//! method is proved to behave exactly as the corresponding reading of
//! `crate::json_grammar` says: it returns the denoted value and leaves the
//! cursor at the end of what it read, or returns the first error.

use vstd::prelude::*;

use crate::json_grammar::ContainerCtx;
use crate::json_grammar::LiteralKind;
use crate::json_grammar::PRes;
use crate::json_grammar::ParseError;
use crate::json_grammar::digits_end;
use crate::json_grammar::lemma_skip_ws;
use crate::json_grammar::lemma_sstring_bounds;
use crate::json_grammar::lemma_sval_advances;
use crate::json_grammar::lit_chars;
use crate::json_grammar::parse_spec;
use crate::json_grammar::sarr;
use crate::json_grammar::selems;
use crate::json_grammar::skip_ws;
use crate::json_grammar::sliteral;
use crate::json_grammar::smembers;
use crate::json_grammar::snumber;
use crate::json_grammar::sobj;
use crate::json_grammar::sstring;
use crate::json_grammar::sval;
use crate::json_grammar::unescape;
use crate::json_value::JVal;
use crate::json_value::JsonNumber;
use crate::json_value::JsonValue;
use crate::json_value::arr_view;
use crate::json_value::obj_view;
use crate::json_value::insert_member;
use crate::json_value::insert_pair;
use crate::json_value::has_key;
use crate::json_value::key_index;
use crate::json_value::keys_unique;
use crate::json_value::lemma_arr_view_index;
use crate::json_value::lemma_arr_view_len;
use crate::json_value::lemma_obj_view_index;
use crate::json_value::lemma_obj_view_len;
use crate::text::is_ws_char;
use crate::text::is_digit_char;
use crate::text::push_char;

verus! {

broadcast use vstd::std_specs::vec::group_vec_axioms, lemma_arr_view_len, lemma_arr_view_index, lemma_obj_view_len, lemma_obj_view_index;

impl ParseError {
    /// The human-readable description of this error.
    pub open spec fn message_spec(self) -> Seq<char> {
        match self {
            ParseError::UnexpectedCharacter => "Unexpected character"@,
            ParseError::UnrecognizedLiteral(k) => match k {
                LiteralKind::True => "Expected literal true"@,
                LiteralKind::False => "Expected literal false"@,
                LiteralKind::Null => "Expected literal null"@,
            },
            ParseError::UnterminatedString => "Unterminated string"@,
            ParseError::UnterminatedEscape => "Unterminated escape sequence in string"@,
            ParseError::ExpectedColon => "Expected ':' after key"@,
            ParseError::MalformedContainer(c) => match c {
                ContainerCtx::ObjectKey => "Expected string key"@,
                ContainerCtx::ObjectDelimiter => "Expected ',' or '}' in object"@,
                ContainerCtx::ArrayDelimiter => "Expected ',' or ']' in array"@,
            },
            ParseError::NumberFormat => "Invalid number literal"@,
            ParseError::TrailingContent => "Extra characters after JSON value"@,
        }
    }

    /// The human-readable description of this error.
    pub fn message(&self) -> (r: String)
        ensures
            r@ == self.message_spec(),
    {
        match self {
            ParseError::UnexpectedCharacter => String::from_str("Unexpected character"),
            ParseError::UnrecognizedLiteral(k) => match k {
                LiteralKind::True => String::from_str("Expected literal true"),
                LiteralKind::False => String::from_str("Expected literal false"),
                LiteralKind::Null => String::from_str("Expected literal null"),
            },
            ParseError::UnterminatedString => String::from_str("Unterminated string"),
            ParseError::UnterminatedEscape => String::from_str(
                "Unterminated escape sequence in string",
            ),
            ParseError::ExpectedColon => String::from_str("Expected ':' after key"),
            ParseError::MalformedContainer(c) => match c {
                ContainerCtx::ObjectKey => String::from_str("Expected string key"),
                ContainerCtx::ObjectDelimiter => String::from_str("Expected ',' or '}' in object"),
                ContainerCtx::ArrayDelimiter => String::from_str("Expected ',' or ']' in array"),
            },
            ParseError::NumberFormat => String::from_str("Invalid number literal"),
            ParseError::TrailingContent => String::from_str("Extra characters after JSON value"),
        }
    }
}

/// Decides `unescape`.
fn unescape_char(c: char) -> (r: char)
    ensures
        r == unescape(c),
{
    match c {
        'b' => '\u{8}',
        'f' => '\u{C}',
        'n' => '\n',
        'r' => '\r',
        't' => '\t',
        _ => c,
    }
}

/// A cursor over the decoded characters of one document.  One parser reads
/// one document: construct it with `new`, consume it with `parse`.
pub struct JsonParser {
    pub input: Vec<char>,
    pub pos: usize,
}

impl JsonParser {
    /// The cursor sits within the input.
    pub open spec fn wf(&self) -> bool {
        self.pos <= self.input.len()
    }

    /// Builds a parser over the characters of `input`, cursor at the start.
    pub fn new(input: &str) -> (p: JsonParser)
        ensures
            p.input@ == input@,
            p.pos == 0,
            p.wf(),
    {
        JsonParser { input: crate::text::chars_of(input), pos: 0 }
    }

    /// The character under the cursor, if any.
    fn current_char(&self) -> (c: Option<char>)
        ensures
            c == if self.pos < self.input@.len() {
                Some(self.input@[self.pos as int])
            } else {
                None::<char>
            },
    {
        if self.pos < self.input.len() {
            Some(self.input[self.pos])
        } else {
            None
        }
    }

    /// Moves the cursor past any whitespace.
    #[verifier::loop_isolation(false)]
    fn skip_whitespace(&mut self)
        requires
            old(self).wf(),
        ensures
            final(self).input == old(self).input,
            final(self).wf(),
            final(self).pos as int == skip_ws(old(self).input@, old(self).pos as int),
    {
        let ghost s = self.input@;
        while self.pos < self.input.len() && is_ws_char(self.input[self.pos])
            invariant
                self.input@ == s,
                self.input == old(self).input,
                self.pos <= self.input@.len(),
                skip_ws(s, old(self).pos as int) == skip_ws(s, self.pos as int),
            decreases self.input@.len() - self.pos,
        {
            self.pos = self.pos + 1;
        }
    }

    /// Reads a literal word by exact prefix match.
    fn expect_literal(&mut self, k: LiteralKind) -> (r: Result<JsonValue, ParseError>)
        requires
            old(self).wf(),
        ensures
            final(self).input == old(self).input,
            final(self).wf(),
            match sliteral(old(self).input@, old(self).pos as int, k) {
                PRes::Good { v, end } => r matches Ok(jv) && jv@ == v && final(self).pos == end,
                PRes::Bad(e) => r matches Err(e2) && e2 == e && final(self).pos == old(self).pos,
            },
    {
        let ghost s = self.input@;
        let ghost p = self.pos as int;
        let ok: bool = match k {
            LiteralKind::True => self.input.len() - self.pos >= 4 && self.input[self.pos] == 't'
                && self.input[self.pos + 1] == 'r' && self.input[self.pos + 2] == 'u'
                && self.input[self.pos + 3] == 'e',
            LiteralKind::False => self.input.len() - self.pos >= 5 && self.input[self.pos] == 'f'
                && self.input[self.pos + 1] == 'a' && self.input[self.pos + 2] == 'l'
                && self.input[self.pos + 3] == 's' && self.input[self.pos + 4] == 'e',
            LiteralKind::Null => self.input.len() - self.pos >= 4 && self.input[self.pos] == 'n'
                && self.input[self.pos + 1] == 'u' && self.input[self.pos + 2] == 'l'
                && self.input[self.pos + 3] == 'l',
        };
        proof {
            if p + lit_chars(k).len() <= s.len() {
                assert(s.subrange(p, p + lit_chars(k).len()).len() == lit_chars(k).len());
                if ok {
                    assert(s.subrange(p, p + lit_chars(k).len()) =~= lit_chars(k));
                } else {
                    if s.subrange(p, p + lit_chars(k).len()) == lit_chars(k) {
                        assert(forall|t: int|
                            0 <= t < lit_chars(k).len() ==> #[trigger] s.subrange(
                                p,
                                p + lit_chars(k).len(),
                            )[t] == s[p + t]);
                        assert(false);
                    }
                }
            }
        }
        if ok {
            match k {
                LiteralKind::True => {
                    self.pos = self.pos + 4;
                    Ok(JsonValue::Bool(true))
                },
                LiteralKind::False => {
                    self.pos = self.pos + 5;
                    Ok(JsonValue::Bool(false))
                },
                LiteralKind::Null => {
                    self.pos = self.pos + 4;
                    Ok(JsonValue::Null)
                },
            }
        } else {
            Err(ParseError::UnrecognizedLiteral(k))
        }
    }

    /// Reads a string token.  The cursor sits on the opening quote; it ends
    /// just past the closing quote.
    #[verifier::loop_isolation(false)]
    fn parse_string(&mut self) -> (r: Result<String, ParseError>)
        requires
            old(self).wf(),
            old(self).pos < old(self).input.len(),
        ensures
            final(self).input == old(self).input,
            final(self).wf(),
            match sstring(old(self).input@, old(self).pos + 1) {
                PRes::Good { v, end } => r matches Ok(st) && st@ == v && final(self).pos == end,
                PRes::Bad(e) => r matches Err(e2) && e2 == e,
            },
    {
        let ghost s = self.input@;
        let ghost start1 = self.pos + 1;
        self.pos = self.pos + 1;
        let mut out = String::new();
        while self.pos < self.input.len()
            invariant
                self.input == old(self).input,
                start1 <= self.pos <= self.input@.len(),
                match sstring(s, self.pos as int) {
                    PRes::Good { v, end } => sstring(s, start1) == PRes::Good {
                        v: out@ + v,
                        end,
                    },
                    PRes::Bad(e) => sstring(s, start1) == PRes::<Seq<char>>::Bad(e),
                },
            decreases self.input@.len() - self.pos,
        {
            let ghost ph = self.pos as int;
            let ghost out0 = out@;
            let c = self.input[self.pos];
            self.pos = self.pos + 1;
            if c == '"' {
                proof {
                    assert(out0 + Seq::<char>::empty() =~= out0);
                }
                return Ok(out);
            } else if c == '\\' {
                if self.pos >= self.input.len() {
                    return Err(ParseError::UnterminatedEscape);
                }
                let e = self.input[self.pos];
                self.pos = self.pos + 1;
                push_char(&mut out, unescape_char(e));
                proof {
                    match sstring(s, ph + 2) {
                        PRes::Good { v, end } => {
                            assert(out0 + (seq![unescape(e)] + v) =~= out0.push(unescape(e)) + v);
                        },
                        PRes::Bad(_) => {},
                    }
                }
            } else {
                push_char(&mut out, c);
                proof {
                    match sstring(s, ph + 1) {
                        PRes::Good { v, end } => {
                            assert(out0 + (seq![c] + v) =~= out0.push(c) + v);
                        },
                        PRes::Bad(_) => {},
                    }
                }
            }
        }
        Err(ParseError::UnterminatedString)
    }

    /// Reads a number token `'-'? digit+ ('.' digit+)?`.
    #[verifier::loop_isolation(false)]
    fn parse_number(&mut self) -> (r: Result<JsonNumber, ParseError>)
        requires
            old(self).wf(),
        ensures
            final(self).input == old(self).input,
            final(self).wf(),
            match snumber(old(self).input@, old(self).pos as int) {
                PRes::Good { v, end } => r matches Ok(num) && num@ == v && final(self).pos == end,
                PRes::Bad(e) => r matches Err(e2) && e2 == e,
            },
    {
        let ghost s = self.input@;
        let ghost p0 = self.pos as int;
        let neg = match self.current_char() {
            Some(c) => c == '-',
            None => false,
        };
        if neg {
            self.pos = self.pos + 1;
        }
        let istart = self.pos;
        let mut digits = String::new();
        while self.pos < self.input.len() && is_digit_char(self.input[self.pos])
            invariant
                self.input == old(self).input,
                istart <= self.pos <= self.input@.len(),
                digits@ == s.subrange(istart as int, self.pos as int),
                digits_end(s, istart as int) == digits_end(s, self.pos as int),
            decreases self.input@.len() - self.pos,
        {
            push_char(&mut digits, self.input[self.pos]);
            proof {
                assert(digits@ =~= s.subrange(istart as int, self.pos + 1));
            }
            self.pos = self.pos + 1;
        }
        assert(self.pos as int == digits_end(s, istart as int));
        if self.pos == istart {
            return Err(ParseError::NumberFormat);
        }
        let mut frac = String::new();
        if self.pos < self.input.len() && self.input[self.pos] == '.' {
            self.pos = self.pos + 1;
            let fstart = self.pos;
            while self.pos < self.input.len() && is_digit_char(self.input[self.pos])
                invariant
                    self.input == old(self).input,
                    fstart <= self.pos <= self.input@.len(),
                    frac@ == s.subrange(fstart as int, self.pos as int),
                    digits_end(s, fstart as int) == digits_end(s, self.pos as int),
                decreases self.input@.len() - self.pos,
            {
                push_char(&mut frac, self.input[self.pos]);
                proof {
                    assert(frac@ =~= s.subrange(fstart as int, self.pos + 1));
                }
                self.pos = self.pos + 1;
            }
            assert(self.pos as int == digits_end(s, fstart as int));
            if self.pos == fstart {
                return Err(ParseError::NumberFormat);
            }
        }
        let num = JsonNumber { neg, int_digits: digits, frac_digits: frac };
        proof {
            match snumber(s, p0) {
                PRes::Good { v, end } => {
                    assert(num@ =~= v);
                },
                PRes::Bad(_) => {},
            }
        }
        Ok(num)
    }

    /// Reads one value: the dispatch on the first significant character.
    #[verifier::loop_isolation(false)]
    fn parse_value(&mut self) -> (r: Result<JsonValue, ParseError>)
        requires
            old(self).wf(),
        ensures
            final(self).input == old(self).input,
            final(self).wf(),
            match sval(old(self).input@, old(self).pos as int) {
                PRes::Good { v, end } => r matches Ok(jv) && jv@ == v && final(self).pos == end,
                PRes::Bad(e) => r matches Err(e2) && e2 == e,
            },
        decreases old(self).input@.len() - old(self).pos, 1int,
    {
        let ghost s = self.input@;
        let ghost p0 = self.pos as int;
        self.skip_whitespace();
        proof {
            lemma_skip_ws(s, p0);
        }
        match self.current_char() {
            Some('{') => self.parse_object(),
            Some('[') => self.parse_array(),
            Some('"') => match self.parse_string() {
                Ok(st) => Ok(JsonValue::String(st)),
                Err(e) => Err(e),
            },
            Some(c) if c == '-' || ('0' <= c && c <= '9') => match self.parse_number() {
                Ok(n) => Ok(JsonValue::Number(n)),
                Err(e) => Err(e),
            },
            Some('t') => self.expect_literal(LiteralKind::True),
            Some('f') => self.expect_literal(LiteralKind::False),
            Some('n') => self.expect_literal(LiteralKind::Null),
            _ => Err(ParseError::UnexpectedCharacter),
        }
    }

    /// Reads an object.  The cursor sits on the `{`.
    #[verifier::loop_isolation(false)]
    fn parse_object(&mut self) -> (r: Result<JsonValue, ParseError>)
        requires
            old(self).wf(),
            old(self).pos < old(self).input.len(),
        ensures
            final(self).input == old(self).input,
            final(self).wf(),
            match sobj(old(self).input@, old(self).pos + 1) {
                PRes::Good { v, end } => r matches Ok(jv) && jv@ == v && final(self).pos == end,
                PRes::Bad(e) => r matches Err(e2) && e2 == e,
            },
        decreases old(self).input@.len() - old(self).pos, 0int,
    {
        let ghost s = self.input@;
        let ghost p0 = self.pos as int;
        let ghost target = sobj(s, p0 + 1);
        self.pos = self.pos + 1;
        self.skip_whitespace();
        proof {
            lemma_skip_ws(s, p0 + 1);
        }
        let mut object: Vec<(String, JsonValue)> = Vec::new();
        match self.current_char() {
            Some('}') => {
                self.pos = self.pos + 1;
                proof {
                    assert(obj_view(object@) =~= Seq::<(Seq<char>, JVal)>::empty());
                }
                return Ok(JsonValue::Object(object));
            },
            _ => {},
        }
        proof {
            assert(obj_view(object@) =~= Seq::<(Seq<char>, JVal)>::empty());
        }
        loop
            invariant
                self.input == old(self).input,
                self.wf(),
                p0 + 1 <= self.pos,
                keys_unique(obj_view(object@)),
                match smembers(s, self.pos as int, obj_view(object@)) {
                    PRes::Good { v, end } => target == PRes::Good { v: JVal::Obj(v), end },
                    PRes::Bad(e) => target == PRes::<JVal>::Bad(e),
                },
            decreases self.input@.len() - self.pos,
        {
            let ghost head = self.pos as int;
            let ghost accv = obj_view(object@);
            self.skip_whitespace();
            proof {
                lemma_skip_ws(s, head);
            }
            let at_quote = match self.current_char() {
                Some('"') => true,
                _ => false,
            };
            if !at_quote {
                return Err(ParseError::MalformedContainer(ContainerCtx::ObjectKey));
            }
            let ghost p = self.pos as int;
            let key = match self.parse_string() {
                Ok(k) => k,
                Err(e) => {
                    return Err(e);
                },
            };
            proof {
                lemma_sstring_bounds(s, p + 1);
            }
            let ghost kend = self.pos as int;
            self.skip_whitespace();
            proof {
                lemma_skip_ws(s, kend);
            }
            let at_colon = match self.current_char() {
                Some(':') => true,
                _ => false,
            };
            if !at_colon {
                return Err(ParseError::ExpectedColon);
            }
            let ghost q = self.pos as int;
            self.pos = self.pos + 1;
            let value = match self.parse_value() {
                Ok(v) => v,
                Err(e) => {
                    return Err(e);
                },
            };
            proof {
                lemma_sval_advances(s, q + 1);
            }
            let ghost vend = self.pos as int;
            insert_member(&mut object, key, value);
            self.skip_whitespace();
            proof {
                lemma_skip_ws(s, vend);
            }
            match self.current_char() {
                Some(',') => {
                    self.pos = self.pos + 1;
                },
                Some('}') => {
                    self.pos = self.pos + 1;
                    return Ok(JsonValue::Object(object));
                },
                _ => {
                    return Err(ParseError::MalformedContainer(ContainerCtx::ObjectDelimiter));
                },
            }
        }
    }

    /// Reads an array.  The cursor sits on the `[`.
    #[verifier::loop_isolation(false)]
    fn parse_array(&mut self) -> (r: Result<JsonValue, ParseError>)
        requires
            old(self).wf(),
            old(self).pos < old(self).input.len(),
        ensures
            final(self).input == old(self).input,
            final(self).wf(),
            match sarr(old(self).input@, old(self).pos + 1) {
                PRes::Good { v, end } => r matches Ok(jv) && jv@ == v && final(self).pos == end,
                PRes::Bad(e) => r matches Err(e2) && e2 == e,
            },
        decreases old(self).input@.len() - old(self).pos, 0int,
    {
        let ghost s = self.input@;
        let ghost p0 = self.pos as int;
        let ghost target = sarr(s, p0 + 1);
        self.pos = self.pos + 1;
        self.skip_whitespace();
        proof {
            lemma_skip_ws(s, p0 + 1);
        }
        let mut array: Vec<JsonValue> = Vec::new();
        match self.current_char() {
            Some(']') => {
                self.pos = self.pos + 1;
                proof {
                    assert(arr_view(array@) =~= Seq::<JVal>::empty());
                }
                return Ok(JsonValue::Array(array));
            },
            _ => {},
        }
        proof {
            assert(arr_view(array@) =~= Seq::<JVal>::empty());
        }
        loop
            invariant
                self.input == old(self).input,
                self.wf(),
                p0 + 1 <= self.pos,
                match selems(s, self.pos as int, arr_view(array@)) {
                    PRes::Good { v, end } => target == PRes::Good { v: JVal::Arr(v), end },
                    PRes::Bad(e) => target == PRes::<JVal>::Bad(e),
                },
            decreases self.input@.len() - self.pos,
        {
            let ghost head = self.pos as int;
            let ghost accv = arr_view(array@);
            let value = match self.parse_value() {
                Ok(v) => v,
                Err(e) => {
                    return Err(e);
                },
            };
            proof {
                lemma_sval_advances(s, head);
            }
            let ghost vend = self.pos as int;
            array.push(value);
            proof {
                assert(arr_view(array@) =~= accv.push(value@));
            }
            self.skip_whitespace();
            proof {
                lemma_skip_ws(s, vend);
            }
            match self.current_char() {
                Some(',') => {
                    self.pos = self.pos + 1;
                },
                Some(']') => {
                    self.pos = self.pos + 1;
                    return Ok(JsonValue::Array(array));
                },
                _ => {
                    return Err(ParseError::MalformedContainer(ContainerCtx::ArrayDelimiter));
                },
            }
        }
    }

    /// Reads the whole document: one value with insignificant whitespace
    /// around it.  Returns the denoted tree exactly when the grammar accepts
    /// the document, and the first error otherwise.
    pub fn parse(&mut self) -> (r: Result<JsonValue, ParseError>)
        requires
            old(self).wf(),
            old(self).pos == 0,
        ensures
            final(self).input == old(self).input,
            match parse_spec(old(self).input@) {
                PRes::Good { v, .. } => r matches Ok(jv) && jv@ == v
                    && final(self).pos == final(self).input@.len(),
                PRes::Bad(e) => r matches Err(e2) && e2 == e,
            },
    {
        let ghost s = self.input@;
        let value = match self.parse_value() {
            Ok(v) => v,
            Err(e) => {
                return Err(e);
            },
        };
        let ghost end = self.pos as int;
        self.skip_whitespace();
        proof {
            lemma_skip_ws(s, end);
        }
        if self.pos != self.input.len() {
            return Err(ParseError::TrailingContent);
        }
        Ok(value)
    }
}

/// Parses one document: the denoted tree exactly when the grammar accepts
/// it, the first error otherwise.
pub fn parse_text(input: &str) -> (r: Result<JsonValue, ParseError>)
    ensures
        match parse_spec(input@) {
            PRes::Good { v, .. } => r matches Ok(jv) && jv@ == v,
            PRes::Bad(e) => r matches Err(e2) && e2 == e,
        },
{
    let mut parser = JsonParser::new(input);
    parser.parse()
}

} // verus!
