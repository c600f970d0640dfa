//! Round-trip law: rendering any well-formed value tree and reading the text
//! back yields the same tree.

use vstd::prelude::*;

use crate::json_grammar::PRes;
use crate::json_grammar::digits_end;
use crate::json_grammar::lemma_skip_ws;
use crate::json_grammar::parse_spec;
use crate::json_grammar::sarr;
use crate::json_grammar::selems;
use crate::json_grammar::skip_ws;
use crate::json_grammar::sliteral;
use crate::json_grammar::smembers;
use crate::json_grammar::snumber;
use crate::json_grammar::sobj;
use crate::json_grammar::sstring;
use crate::json_grammar::sval;
use crate::json_grammar::unescape;
use crate::json_grammar::LiteralKind;
use crate::json_ser::esc_char;
use crate::json_ser::esc_str;
use crate::json_ser::ser_elems;
use crate::json_ser::ser_members;
use crate::json_ser::ser_num;
use crate::json_ser::ser_str;
use crate::json_ser::ser_val;
use crate::json_value::JNum;
use crate::json_value::JVal;
use crate::json_value::all_digits;
use crate::json_value::has_key;
use crate::json_value::insert_pair;
use crate::json_value::is_digit;
use crate::json_value::jval_wf;
use crate::json_value::keys_unique;
use crate::json_value::num_wf;
use crate::text::is_ws;

verus! {

/// A character that could extend a number token to its left.
pub open spec fn extends_number(c: char) -> bool {
    is_digit(c) || c == '.'
}

/// Indexing into a known window of `s`.
proof fn lemma_char_at(s: Seq<char>, pos: int, w: Seq<char>, a: int)
    requires
        0 <= pos,
        pos + w.len() <= s.len(),
        s.subrange(pos, pos + w.len()) == w,
        0 <= a < w.len(),
    ensures
        s[pos + a] == w[a],
{
    assert(s.subrange(pos, pos + w.len())[a] == w[a]);
}

/// Slicing a known window of `s`.
proof fn lemma_slice(s: Seq<char>, pos: int, w: Seq<char>, a: int, b: int)
    requires
        0 <= pos,
        pos + w.len() <= s.len(),
        s.subrange(pos, pos + w.len()) == w,
        0 <= a <= b <= w.len(),
    ensures
        s.subrange(pos + a, pos + b) == w.subrange(a, b),
{
    assert(s.subrange(pos + a, pos + b) =~= w.subrange(a, b)) by {
        assert forall|t: int| 0 <= t < b - a implies s.subrange(pos + a, pos + b)[t]
            == w.subrange(a, b)[t] by {
            assert(s.subrange(pos, pos + w.len())[a + t] == w[a + t]);
        }
    }
}

/// A run of digits reads to its end.
proof fn lemma_rt_digits(s: Seq<char>, pos: int, d: Seq<char>)
    requires
        0 <= pos,
        pos + d.len() <= s.len(),
        s.subrange(pos, pos + d.len()) == d,
        all_digits(d),
        pos + d.len() == s.len() || !is_digit(s[pos + d.len()]),
    ensures
        digits_end(s, pos) == pos + d.len(),
    decreases d.len(),
{
    if d.len() == 0 {
        assert(s.subrange(pos, pos) =~= d);
    } else {
        lemma_char_at(s, pos, d, 0);
        assert(is_digit(s[pos]));
        lemma_slice(s, pos, d, 1, d.len() as int);
        lemma_rt_digits(s, pos + 1, d.subrange(1, d.len() as int));
    }
}

/// A rendered number reads back to the same number.
proof fn lemma_rt_number(s: Seq<char>, pos: int, n: JNum)
    requires
        num_wf(n),
        0 <= pos,
        pos + ser_num(n).len() <= s.len(),
        s.subrange(pos, pos + ser_num(n).len()) == ser_num(n),
        pos + ser_num(n).len() == s.len() || !extends_number(s[pos + ser_num(n).len()]),
    ensures
        (snumber(s, pos) == PRes::Good { v: n, end: pos + ser_num(n).len() }),
{
    let w = ser_num(n);
    let sgn: int = if n.neg {
        1
    } else {
        0
    };
    let ilen = n.int_digits.len() as int;
    let flen = n.frac_digits.len() as int;
    if n.neg {
        lemma_char_at(s, pos, w, 0);
        assert(w[0] == '-');
    } else {
        lemma_char_at(s, pos, w, 0);
        assert(w[0] == n.int_digits[0]);
        assert(is_digit(n.int_digits[0]));
    }
    let ipos = pos + sgn;
    lemma_slice(s, pos, w, sgn, sgn + ilen);
    assert(w.subrange(sgn, sgn + ilen) =~= n.int_digits);
    if flen > 0 {
        lemma_char_at(s, pos, w, sgn + ilen);
        assert(w[sgn + ilen] == '.');
        lemma_rt_digits(s, ipos, n.int_digits);
        lemma_slice(s, pos, w, sgn + ilen + 1, sgn + ilen + 1 + flen);
        assert(w.subrange(sgn + ilen + 1, sgn + ilen + 1 + flen) =~= n.frac_digits);
        lemma_rt_digits(s, ipos + ilen + 1, n.frac_digits);
        assert(snumber(s, pos) == PRes::Good { v: n, end: pos + w.len() }) by {
            assert(digits_end(s, ipos) == ipos + ilen);
            assert(s[ipos + ilen] == '.');
            assert(digits_end(s, ipos + ilen + 1) == ipos + ilen + 1 + flen);
            assert(n.int_digits.len() > 0);
            let m = snumber(s, pos);
            match m {
                PRes::Good { v, end } => {
                    assert(v =~= n);
                },
                PRes::Bad(_) => {},
            }
        }
    } else {
        lemma_rt_digits(s, ipos, n.int_digits);
        assert(snumber(s, pos) == PRes::Good { v: n, end: pos + w.len() }) by {
            assert(digits_end(s, ipos) == ipos + ilen);
            assert(ipos + ilen == pos + w.len());
            let m = snumber(s, pos);
            match m {
                PRes::Good { v, end } => {
                    assert(v =~= n);
                },
                PRes::Bad(_) => {},
            }
        }
    }
}

/// A rendered (escaped) string body followed by its closing quote reads back
/// to the same characters.
proof fn lemma_rt_string(s: Seq<char>, pos: int, content: Seq<char>)
    requires
        0 <= pos,
        pos + esc_str(content).len() + 1 <= s.len(),
        s.subrange(pos, pos + esc_str(content).len()) == esc_str(content),
        s[pos + esc_str(content).len()] == '"',
    ensures
        (sstring(s, pos) == PRes::Good { v: content, end: pos + esc_str(content).len() + 1 }),
    decreases content.len(),
{
    let w = esc_str(content);
    if content.len() == 0 {
        assert(w =~= Seq::<char>::empty());
        assert(s[pos] == '"');
    } else {
        let c = content[0];
        let rest = content.subrange(1, content.len() as int);
        assert(w == esc_char(c) + esc_str(rest));
        if c == '"' || c == '\\' {
            assert(esc_char(c) =~= seq!['\\', c]);
            lemma_char_at(s, pos, w, 0);
            assert(w[0] == '\\');
            lemma_char_at(s, pos, w, 1);
            assert(w[1] == c);
            lemma_slice(s, pos, w, 2, w.len() as int);
            assert(w.subrange(2, w.len() as int) =~= esc_str(rest));
            lemma_rt_string(s, pos + 2, rest);
            assert(unescape(c) == c);
            match sstring(s, pos) {
                PRes::Good { v, end } => {
                    assert(v =~= content);
                },
                PRes::Bad(_) => {},
            }
        } else {
            assert(esc_char(c) =~= seq![c]);
            lemma_char_at(s, pos, w, 0);
            assert(w[0] == c);
            lemma_slice(s, pos, w, 1, w.len() as int);
            assert(w.subrange(1, w.len() as int) =~= esc_str(rest));
            lemma_rt_string(s, pos + 1, rest);
            match sstring(s, pos) {
                PRes::Good { v, end } => {
                    assert(v =~= content);
                },
                PRes::Bad(_) => {},
            }
        }
    }
}

/// The first character a rendering can start with: never whitespace and
/// never a closing delimiter.
proof fn lemma_ser_first(v: JVal)
    requires
        jval_wf(v),
    ensures
        ser_val(v).len() > 0,
        !is_ws(ser_val(v)[0]),
        ser_val(v)[0] != ']',
        ser_val(v)[0] != '}',
        ser_val(v)[0] != ',',
{
    match v {
        JVal::Null => {
            assert(ser_val(v)[0] == 'n');
        },
        JVal::Bool(b) => {
            if b {
                assert(ser_val(v)[0] == 't');
            } else {
                assert(ser_val(v)[0] == 'f');
            }
        },
        JVal::Num(n) => {
            if n.neg {
                assert(ser_val(v)[0] == '-');
            } else {
                assert(n.int_digits.len() > 0);
                assert(ser_num(n)[0] == n.int_digits[0]);
                assert(is_digit(ser_val(v)[0]));
            }
        },
        JVal::Str(st) => {
            assert(ser_val(v)[0] == '"');
        },
        JVal::Arr(a) => {
            assert(ser_val(v)[0] == '[');
        },
        JVal::Obj(m) => {
            assert(ser_val(v)[0] == '{');
        },
    }
}

/// A rendered value followed by nothing that could extend it reads back to
/// the same value.
#[verifier::rlimit(60)]
proof fn lemma_rt_val(s: Seq<char>, pos: int, v: JVal)
    requires
        jval_wf(v),
        0 <= pos,
        pos + ser_val(v).len() <= s.len(),
        s.subrange(pos, pos + ser_val(v).len()) == ser_val(v),
        pos + ser_val(v).len() == s.len() || !extends_number(s[pos + ser_val(v).len()]),
    ensures
        (sval(s, pos) == PRes::Good { v, end: pos + ser_val(v).len() }),
    decreases v, 0int,
{
    let w = ser_val(v);
    lemma_ser_first(v);
    lemma_char_at(s, pos, w, 0);
    assert(!is_ws(s[pos]));
    assert(skip_ws(s, pos) == pos);
    match v {
        JVal::Null => {
            assert(w =~= seq!['n', 'u', 'l', 'l']);
            lemma_char_at(s, pos, w, 1);
            lemma_char_at(s, pos, w, 2);
            lemma_char_at(s, pos, w, 3);
            assert(s.subrange(pos, pos + 4) =~= crate::json_grammar::lit_chars(
                LiteralKind::Null,
            ));
            assert(sval(s, pos) == sliteral(s, pos, LiteralKind::Null));
        },
        JVal::Bool(b) => {
            if b {
                assert(w =~= seq!['t', 'r', 'u', 'e']);
                lemma_char_at(s, pos, w, 1);
                lemma_char_at(s, pos, w, 2);
                lemma_char_at(s, pos, w, 3);
                assert(s.subrange(pos, pos + 4) =~= crate::json_grammar::lit_chars(
                    LiteralKind::True,
                ));
                assert(sval(s, pos) == sliteral(s, pos, LiteralKind::True));
            } else {
                assert(w =~= seq!['f', 'a', 'l', 's', 'e']);
                lemma_char_at(s, pos, w, 1);
                lemma_char_at(s, pos, w, 2);
                lemma_char_at(s, pos, w, 3);
                lemma_char_at(s, pos, w, 4);
                assert(s.subrange(pos, pos + 5) =~= crate::json_grammar::lit_chars(
                    LiteralKind::False,
                ));
                assert(sval(s, pos) == sliteral(s, pos, LiteralKind::False));
            }
        },
        JVal::Num(n) => {
            assert(s[pos] == '-' || is_digit(s[pos]));
            lemma_rt_number(s, pos, n);
        },
        JVal::Str(st) => {
            assert(s[pos] == '"');
            assert(w == ser_str(st));
            assert(w == seq!['"'] + esc_str(st) + seq!['"']);
            lemma_slice(s, pos, w, 1, 1 + esc_str(st).len() as int);
            assert(w.subrange(1, 1 + esc_str(st).len() as int) =~= esc_str(st));
            lemma_char_at(s, pos, w, 1 + esc_str(st).len() as int);
            assert(w[1 + esc_str(st).len() as int] == '"');
            lemma_rt_string(s, pos + 1, st);
        },
        JVal::Arr(a) => {
            assert(s[pos] == '[');
            assert(w == seq!['['] + ser_elems(a, 0) + seq![']']);
            lemma_char_at(s, pos, w, w.len() - 1);
            assert(w[w.len() - 1] == ']');
            if a.len() == 0 {
                assert(ser_elems(a, 0) =~= Seq::<char>::empty());
                assert(s[pos + 1] == ']');
                assert(skip_ws(s, pos + 1) == pos + 1);
                assert(a =~= Seq::<JVal>::empty());
                assert(sarr(s, pos + 1) == PRes::<JVal>::Good {
                    v: JVal::Arr(Seq::empty()),
                    end: pos + 2,
                });
            } else {
                lemma_slice(s, pos, w, 1, 1 + ser_elems(a, 0).len() as int);
                assert(w.subrange(1, 1 + ser_elems(a, 0).len() as int) =~= ser_elems(a, 0));
                assert(Seq::<JVal>::empty() =~= a.subrange(0, 0));
                lemma_rt_elems(s, pos + 1, a, 0, Seq::empty());
                assert(skip_ws(s, pos + 1) == pos + 1) by {
                    lemma_ser_first(a[0]);
                    assert(ser_elems(a, 0)[0] == ser_val(a[0])[0]);
                    lemma_char_at(s, pos, w, 1);
                }
                assert(s[pos + 1] != ']') by {
                    lemma_ser_first(a[0]);
                    assert(ser_elems(a, 0)[0] == ser_val(a[0])[0]);
                    lemma_char_at(s, pos, w, 1);
                }
                assert(sarr(s, pos + 1) == PRes::Good { v, end: pos + w.len() });
            }
        },
        JVal::Obj(m) => {
            assert(s[pos] == '{');
            assert(w == seq!['{'] + ser_members(m, 0) + seq!['}']);
            lemma_char_at(s, pos, w, w.len() - 1);
            assert(w[w.len() - 1] == '}');
            if m.len() == 0 {
                assert(ser_members(m, 0) =~= Seq::<char>::empty());
                assert(s[pos + 1] == '}');
                assert(skip_ws(s, pos + 1) == pos + 1);
                assert(m =~= Seq::<(Seq<char>, JVal)>::empty());
                assert(sobj(s, pos + 1) == PRes::<JVal>::Good {
                    v: JVal::Obj(Seq::empty()),
                    end: pos + 2,
                });
            } else {
                lemma_slice(s, pos, w, 1, 1 + ser_members(m, 0).len() as int);
                assert(w.subrange(1, 1 + ser_members(m, 0).len() as int) =~= ser_members(m, 0));
                assert(Seq::<(Seq<char>, JVal)>::empty() =~= m.subrange(0, 0));
                assert(ser_members(m, 0)[0] == '"') by {
                    assert(ser_str(m[0].0)[0] == '"');
                }
                lemma_char_at(s, pos, w, 1);
                assert(s[pos + 1] == '"');
                assert(skip_ws(s, pos + 1) == pos + 1);
                lemma_rt_members(s, pos + 1, m, 0, Seq::empty());
                assert(sobj(s, pos + 1) == PRes::Good { v, end: pos + w.len() });
            }
        },
    }
}

/// Rendered elements `i..` of an array, followed by `]`, read back to the
/// whole array when the first `i` are already accumulated.
proof fn lemma_rt_elems(s: Seq<char>, pos: int, a: Seq<JVal>, i: int, acc: Seq<JVal>)
    requires
        forall|j: int| 0 <= j < a.len() ==> jval_wf(#[trigger] a[j]),
        0 <= i < a.len(),
        acc == a.subrange(0, i),
        0 <= pos,
        pos + ser_elems(a, i).len() + 1 <= s.len(),
        s.subrange(pos, pos + ser_elems(a, i).len()) == ser_elems(a, i),
        s[pos + ser_elems(a, i).len()] == ']',
    ensures
        (selems(s, pos, acc) == PRes::Good { v: a, end: pos + ser_elems(a, i).len() + 1 }),
    decreases a, a.len() - i,
{
    let w = ser_elems(a, i);
    let ev = ser_val(a[i]);
    if i == a.len() - 1 {
        assert(w == ev);
        lemma_rt_val(s, pos, a[i]);
        assert(acc.push(a[i]) =~= a);
        lemma_skip_ws(s, pos + ev.len());
        assert(skip_ws(s, pos + ev.len()) == pos + ev.len());
        assert(selems(s, pos, acc) == PRes::Good { v: acc.push(a[i]), end: pos + w.len() + 1 });
    } else {
        assert(w == ev + seq![','] + ser_elems(a, i + 1));
        lemma_slice(s, pos, w, 0, ev.len() as int);
        assert(w.subrange(0, ev.len() as int) =~= ev);
        lemma_char_at(s, pos, w, ev.len() as int);
        assert(w[ev.len() as int] == ',');
        lemma_rt_val(s, pos, a[i]);
        assert(skip_ws(s, pos + ev.len()) == pos + ev.len());
        lemma_slice(s, pos, w, ev.len() as int + 1, w.len() as int);
        assert(w.subrange(ev.len() as int + 1, w.len() as int) =~= ser_elems(a, i + 1));
        assert(acc.push(a[i]) =~= a.subrange(0, i + 1));
        lemma_rt_elems(s, pos + ev.len() + 1, a, i + 1, acc.push(a[i]));
    }
}

/// Rendered members `i..` of an object, followed by `}`, read back to the
/// whole member list when the first `i` are already accumulated.
proof fn lemma_rt_members(s: Seq<char>, pos: int, m: Seq<(Seq<char>, JVal)>, i: int, acc: Seq<(Seq<char>, JVal)>)
    requires
        keys_unique(m),
        forall|j: int| 0 <= j < m.len() ==> jval_wf((#[trigger] m[j]).1),
        0 <= i < m.len(),
        acc == m.subrange(0, i),
        0 <= pos,
        pos + ser_members(m, i).len() + 1 <= s.len(),
        s.subrange(pos, pos + ser_members(m, i).len()) == ser_members(m, i),
        s[pos + ser_members(m, i).len()] == '}',
    ensures
        (smembers(s, pos, acc) == PRes::Good { v: m, end: pos + ser_members(m, i).len() + 1 }),
    decreases m, m.len() - i,
{
    let w = ser_members(m, i);
    let key = m[i].0;
    let kv = ser_str(key) + seq![':'] + ser_val(m[i].1);
    let klen = ser_str(key).len() as int;
    let vlen = ser_val(m[i].1).len() as int;
    assert(ser_str(key) == seq!['"'] + esc_str(key) + seq!['"']);
    if i == m.len() - 1 {
        assert(w == kv);
    } else {
        assert(w == kv + seq![','] + ser_members(m, i + 1));
    }
    // The key string.
    lemma_char_at(s, pos, w, 0);
    assert(w[0] == '"');
    assert(skip_ws(s, pos) == pos);
    lemma_slice(s, pos, w, 1, 1 + esc_str(key).len() as int);
    assert(w.subrange(1, 1 + esc_str(key).len() as int) =~= esc_str(key));
    lemma_char_at(s, pos, w, 1 + esc_str(key).len() as int);
    assert(w[1 + esc_str(key).len() as int] == '"');
    lemma_rt_string(s, pos + 1, key);
    assert(sstring(s, pos + 1) == PRes::Good { v: key, end: pos + klen });
    // The colon.
    lemma_char_at(s, pos, w, klen);
    assert(w[klen] == ':');
    assert(skip_ws(s, pos + klen) == pos + klen);
    // The value.
    lemma_slice(s, pos, w, klen + 1, klen + 1 + vlen);
    assert(w.subrange(klen + 1, klen + 1 + vlen) =~= ser_val(m[i].1));
    if i == m.len() - 1 {
        lemma_char_at(s, pos, w, w.len() - 1);
    } else {
        lemma_char_at(s, pos, w, klen + 1 + vlen);
        assert(w[klen + 1 + vlen] == ',');
    }
    lemma_rt_val(s, pos + klen + 1, m[i].1);
    assert(skip_ws(s, pos + klen + 1 + vlen) == pos + klen + 1 + vlen);
    // The accumulator: a fresh key is appended.
    assert(!has_key(acc, key)) by {
        if has_key(acc, key) {
            let j = choose|j: int| 0 <= j < acc.len() && acc[j].0 == key;
            assert(m[j].0 == m[i as int].0);
        }
    }
    let acc2 = insert_pair(acc, key, m[i].1);
    assert(acc2 == acc.push((key, m[i].1)));
    assert(acc2 =~= m.subrange(0, i + 1));
    if i == m.len() - 1 {
        assert(s[pos + klen + 1 + vlen] == '}');
        assert(m.subrange(0, i + 1) =~= m);
        assert(smembers(s, pos, acc) == PRes::Good { v: acc2, end: pos + w.len() + 1 });
    } else {
        lemma_slice(s, pos, w, klen + 1 + vlen + 1, w.len() as int);
        assert(w.subrange(klen + 1 + vlen + 1, w.len() as int) =~= ser_members(m, i + 1));
        lemma_rt_members(s, pos + klen + 1 + vlen + 1, m, i + 1, acc2);
    }
}

/// Structural round trip: rendering any well-formed tree and reading the
/// text back yields exactly that tree, with nothing left over.
pub proof fn lemma_round_trip(v: JVal)
    requires
        jval_wf(v),
    ensures
        (parse_spec(ser_val(v)) == PRes::Good { v, end: ser_val(v).len() as int }),
{
    let s = ser_val(v);
    assert(s.subrange(0, s.len() as int) =~= s);
    lemma_rt_val(s, 0, v);
    lemma_skip_ws(s, s.len() as int);
    assert(skip_ws(s, s.len() as int) == s.len());
}

/// Every rendering of a well-formed tree is a document the grammar accepts:
/// the success half of the parser's contract, stated on its own.
pub proof fn lemma_serialization_parses(v: JVal)
    requires
        jval_wf(v),
    ensures
        (parse_spec(ser_val(v)) is Good),
{
    lemma_round_trip(v);
}

} // verus!
