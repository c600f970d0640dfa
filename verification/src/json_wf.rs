//! Well-formedness of parsed trees: every tree the grammar accepts has
//! well-formed numbers and unique object keys.  Together with the round-trip
//! law, any parsed tree can be rendered and read back unchanged.

use vstd::prelude::*;

use crate::json_grammar::PRes;
use crate::json_grammar::digits_end;
use crate::json_grammar::lemma_digits_end;
use crate::json_grammar::lemma_skip_ws;
use crate::json_grammar::lemma_sstring_bounds;
use crate::json_grammar::parse_spec;
use crate::json_grammar::sarr;
use crate::json_grammar::selems;
use crate::json_grammar::skip_ws;
use crate::json_grammar::smembers;
use crate::json_grammar::snumber;
use crate::json_grammar::sobj;
use crate::json_grammar::sstring;
use crate::json_grammar::sval;
use crate::json_value::JVal;
use crate::json_value::has_key;
use crate::json_value::insert_pair;
use crate::json_value::is_digit;
use crate::json_value::jval_wf;
use crate::json_value::key_index;
use crate::json_value::keys_unique;
use crate::json_value::num_wf;

verus! {

/// Everything a digit scan passes over is a digit.
proof fn lemma_digits_all(s: Seq<char>, pos: int)
    ensures
        forall|k: int| pos <= k < digits_end(s, pos) ==> is_digit(#[trigger] s[k]),
    decreases s.len() - pos,
{
    if 0 <= pos < s.len() && is_digit(s[pos]) {
        lemma_digits_all(s, pos + 1);
    }
}

/// A number the grammar accepts is well-formed.
proof fn lemma_snumber_wf(s: Seq<char>, pos: int)
    ensures
        match snumber(s, pos) {
            PRes::Good { v, .. } => num_wf(v),
            PRes::Bad(_) => true,
        },
{
    let neg = 0 <= pos < s.len() && s[pos] == '-';
    let ipos = if neg {
        pos + 1
    } else {
        pos
    };
    lemma_digits_all(s, ipos);
    lemma_digits_end(s, ipos);
    let iend = digits_end(s, ipos);
    assert forall|t: int| 0 <= t < iend - ipos implies is_digit(
        #[trigger] s.subrange(ipos, iend)[t],
    ) by {
        assert(s.subrange(ipos, iend)[t] == s[ipos + t]);
        assert(is_digit(s[ipos + t]));
    }
    if iend != ipos && iend < s.len() && s[iend] == '.' {
        lemma_digits_all(s, iend + 1);
        lemma_digits_end(s, iend + 1);
        let fend = digits_end(s, iend + 1);
        assert forall|t: int| 0 <= t < fend - (iend + 1) implies is_digit(
            #[trigger] s.subrange(iend + 1, fend)[t],
        ) by {
            assert(s.subrange(iend + 1, fend)[t] == s[iend + 1 + t]);
            assert(is_digit(s[iend + 1 + t]));
        }
    }
}

/// Last-write-wins insertion keeps keys unique and values well-formed.
proof fn lemma_insert_pair_wf(acc: Seq<(Seq<char>, JVal)>, key: Seq<char>, v: JVal)
    requires
        keys_unique(acc),
        forall|i: int| 0 <= i < acc.len() ==> jval_wf((#[trigger] acc[i]).1),
        jval_wf(v),
    ensures
        keys_unique(insert_pair(acc, key, v)),
        forall|i: int|
            0 <= i < insert_pair(acc, key, v).len() ==> jval_wf(
                (#[trigger] insert_pair(acc, key, v)[i]).1,
            ),
{
    let out = insert_pair(acc, key, v);
    if has_key(acc, key) {
        let ki = key_index(acc, key);
        assert(0 <= ki < acc.len() && acc[ki].0 == key);
        assert(keys_unique(out)) by {
            assert(forall|i: int| 0 <= i < out.len() && i != ki ==> out[i] == acc[i]);
        }
    }
}

/// A value the grammar accepts is well-formed.
pub proof fn lemma_sval_wf(s: Seq<char>, pos: int)
    ensures
        match sval(s, pos) {
            PRes::Good { v, .. } => jval_wf(v),
            PRes::Bad(_) => true,
        },
    decreases s.len() - pos, 1int,
{
    let p = skip_ws(s, pos);
    lemma_skip_ws(s, pos);
    if 0 <= p < s.len() {
        if s[p] == '{' {
            lemma_sobj_wf(s, p + 1);
        } else if s[p] == '[' {
            lemma_sarr_wf(s, p + 1);
        } else if s[p] == '"' {
        } else if s[p] == '-' || is_digit(s[p]) {
            lemma_snumber_wf(s, p);
        } else {
        }
    }
}

proof fn lemma_sobj_wf(s: Seq<char>, pos: int)
    ensures
        match sobj(s, pos) {
            PRes::Good { v, .. } => jval_wf(v),
            PRes::Bad(_) => true,
        },
    decreases s.len() - pos, 3int,
{
    let p = skip_ws(s, pos);
    lemma_skip_ws(s, pos);
    if 0 <= p < s.len() && s[p] == '}' {
    } else if p <= s.len() {
        lemma_smembers_wf(s, p, Seq::empty());
    }
}

proof fn lemma_smembers_wf(s: Seq<char>, pos: int, acc: Seq<(Seq<char>, JVal)>)
    requires
        keys_unique(acc),
        forall|i: int| 0 <= i < acc.len() ==> jval_wf((#[trigger] acc[i]).1),
    ensures
        match smembers(s, pos, acc) {
            PRes::Good { v, .. } => keys_unique(v) && (forall|i: int|
                0 <= i < v.len() ==> jval_wf((#[trigger] v[i]).1)),
            PRes::Bad(_) => true,
        },
    decreases s.len() - pos, 2int,
{
    let p = skip_ws(s, pos);
    lemma_skip_ws(s, pos);
    if 0 <= p < s.len() && s[p] == '"' {
        lemma_sstring_bounds(s, p + 1);
        match sstring(s, p + 1) {
            PRes::Bad(_) => {},
            PRes::Good { v: key, end: kend } => {
                let q = skip_ws(s, kend);
                lemma_skip_ws(s, kend);
                if 0 <= q < s.len() && s[q] == ':' {
                    lemma_sval_wf(s, q + 1);
                    match sval(s, q + 1) {
                        PRes::Bad(_) => {},
                        PRes::Good { v, end: vend } => {
                            lemma_insert_pair_wf(acc, key, v);
                            let acc2 = insert_pair(acc, key, v);
                            let r = skip_ws(s, vend);
                            lemma_skip_ws(s, vend);
                            if 0 <= r < s.len() && s[r] == ',' {
                                if pos < r + 1 {
                                    lemma_smembers_wf(s, r + 1, acc2);
                                }
                            }
                        },
                    }
                }
            },
        }
    }
}

proof fn lemma_sarr_wf(s: Seq<char>, pos: int)
    ensures
        match sarr(s, pos) {
            PRes::Good { v, .. } => jval_wf(v),
            PRes::Bad(_) => true,
        },
    decreases s.len() - pos, 3int,
{
    let p = skip_ws(s, pos);
    lemma_skip_ws(s, pos);
    if 0 <= p < s.len() && s[p] == ']' {
    } else if p <= s.len() {
        lemma_selems_wf(s, p, Seq::empty());
    }
}

proof fn lemma_selems_wf(s: Seq<char>, pos: int, acc: Seq<JVal>)
    requires
        forall|i: int| 0 <= i < acc.len() ==> jval_wf(#[trigger] acc[i]),
    ensures
        match selems(s, pos, acc) {
            PRes::Good { v, .. } => forall|i: int| 0 <= i < v.len() ==> jval_wf(#[trigger] v[i]),
            PRes::Bad(_) => true,
        },
    decreases s.len() - pos, 2int,
{
    lemma_sval_wf(s, pos);
    match sval(s, pos) {
        PRes::Bad(_) => {},
        PRes::Good { v, end } => {
            let acc2 = acc.push(v);
            let r = skip_ws(s, end);
            lemma_skip_ws(s, end);
            if 0 <= r < s.len() && s[r] == ',' {
                if pos < r + 1 {
                    lemma_selems_wf(s, r + 1, acc2);
                }
            }
        },
    }
}

/// Every tree a whole document denotes is well-formed; so any parsed tree
/// can itself be rendered and read back unchanged (`lemma_round_trip`).
pub proof fn lemma_parse_wf(s: Seq<char>)
    ensures
        match parse_spec(s) {
            PRes::Good { v, .. } => jval_wf(v),
            PRes::Bad(_) => true,
        },
{
    lemma_sval_wf(s, 0);
}

} // verus!
