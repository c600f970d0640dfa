//! The serializer: renders a value tree as minimal JSON text.
//!
//! `ser_val` is the mathematical statement of the rendering: no whitespace,
//! array elements comma-joined in order, object entries comma-joined in
//! stored order, and inside strings only `"` and `\` escaped (any other
//! character, control characters included, is emitted literally).
//! `serialize_json` produces exactly that text and is total: every value
//! tree renders.

use vstd::prelude::*;

use crate::json_value::JNum;
use crate::json_value::JVal;
use crate::json_value::JsonValue;
use crate::json_value::arr_view;
use crate::json_value::obj_view;
use crate::json_value::lemma_arr_view_index;
use crate::json_value::lemma_arr_view_len;
use crate::json_value::lemma_obj_view_index;
use crate::json_value::lemma_obj_view_len;
use crate::text::push_char;

verus! {

broadcast use vstd::std_specs::vec::group_vec_axioms, lemma_arr_view_len, lemma_arr_view_index, lemma_obj_view_len, lemma_obj_view_index;

/// The text of a number: sign, integral digits, and the fractional digits
/// after a dot when there are any.
pub open spec fn ser_num(n: JNum) -> Seq<char> {
    (if n.neg {
        seq!['-']
    } else {
        Seq::empty()
    }) + n.int_digits + (if n.frac_digits.len() > 0 {
        seq!['.'] + n.frac_digits
    } else {
        Seq::empty()
    })
}

/// How one string character is emitted: `"` and `\` get a backslash, every
/// other character stands for itself.
pub open spec fn esc_char(c: char) -> Seq<char> {
    if c == '"' || c == '\\' {
        seq!['\\', c]
    } else {
        seq![c]
    }
}

/// The escaped body of a string.
pub open spec fn esc_str(s: Seq<char>) -> Seq<char>
    decreases s.len(),
{
    if s.len() == 0 {
        Seq::empty()
    } else {
        esc_char(s[0]) + esc_str(s.subrange(1, s.len() as int))
    }
}

/// The text of a string: the escaped body between double quotes.
pub open spec fn ser_str(s: Seq<char>) -> Seq<char> {
    seq!['"'] + esc_str(s) + seq!['"']
}

/// The text of a value.
pub open spec fn ser_val(v: JVal) -> Seq<char>
    decreases v, 0int,
{
    match v {
        JVal::Null => seq!['n', 'u', 'l', 'l'],
        JVal::Bool(b) => if b {
            seq!['t', 'r', 'u', 'e']
        } else {
            seq!['f', 'a', 'l', 's', 'e']
        },
        JVal::Num(n) => ser_num(n),
        JVal::Str(s) => ser_str(s),
        JVal::Arr(a) => seq!['['] + ser_elems(a, 0) + seq![']'],
        JVal::Obj(m) => seq!['{'] + ser_members(m, 0) + seq!['}'],
    }
}

/// The comma-joined text of the array elements from index `i` on.
pub open spec fn ser_elems(a: Seq<JVal>, i: int) -> Seq<char>
    decreases a, a.len() - i,
{
    if i < 0 || i >= a.len() {
        Seq::empty()
    } else if i == a.len() - 1 {
        ser_val(a[i])
    } else {
        ser_val(a[i]) + seq![','] + ser_elems(a, i + 1)
    }
}

/// The comma-joined text of the object entries from index `i` on, each
/// rendered as `"key":value`.
pub open spec fn ser_members(m: Seq<(Seq<char>, JVal)>, i: int) -> Seq<char>
    decreases m, m.len() - i,
{
    if i < 0 || i >= m.len() {
        Seq::empty()
    } else if i == m.len() - 1 {
        ser_str(m[i].0) + seq![':'] + ser_val(m[i].1)
    } else {
        ser_str(m[i].0) + seq![':'] + ser_val(m[i].1) + seq![','] + ser_members(m, i + 1)
    }
}

/// Escaping distributes over concatenation.
pub proof fn lemma_esc_str_append(a: Seq<char>, b: Seq<char>)
    ensures
        esc_str(a + b) == esc_str(a) + esc_str(b),
    decreases a.len(),
{
    if a.len() == 0 {
        assert(a + b =~= b);
        assert(esc_str(a) + esc_str(b) =~= esc_str(b));
    } else {
        lemma_esc_str_append(a.subrange(1, a.len() as int), b);
        assert((a + b).subrange(1, (a + b).len() as int) =~= a.subrange(1, a.len() as int) + b);
        assert((a + b)[0] == a[0]);
        assert(esc_char(a[0]) + (esc_str(a.subrange(1, a.len() as int)) + esc_str(b)) =~= (
        esc_char(a[0]) + esc_str(a.subrange(1, a.len() as int))) + esc_str(b));
    }
}

/// Writes a string token: quotes around the escaped characters.
fn write_string_token(s: &str, out: &mut String)
    ensures
        final(out)@ == old(out)@ + ser_str(s@),
{
    push_char(out, '"');
    let n = s.unicode_len();
    let mut i: usize = 0;
    while i < n
        invariant
            n == s@.len(),
            i <= n,
            out@ == old(out)@ + seq!['"'] + esc_str(s@.subrange(0, i as int)),
        decreases n - i,
    {
        let ghost pre = out@;
        let ghost done = s@.subrange(0, i as int);
        let c = s.get_char(i);
        if c == '"' || c == '\\' {
            push_char(out, '\\');
        }
        push_char(out, c);
        proof {
            lemma_esc_str_append(done, seq![c]);
            assert(s@.subrange(0, i + 1) =~= done + seq![c]);
            assert(seq![c].subrange(1, 1) =~= Seq::<char>::empty());
            assert(esc_str(seq![c]) =~= esc_char(c) + esc_str(Seq::<char>::empty()));
            assert(esc_str(seq![c]) =~= esc_char(c));
            assert(out@ =~= pre + esc_char(c));
            assert(out@ =~= old(out)@ + seq!['"'] + esc_str(s@.subrange(0, i + 1)));
        }
        i = i + 1;
    }
    push_char(out, '"');
    proof {
        assert(s@.subrange(0, s@.len() as int) =~= s@);
        assert(out@ =~= old(out)@ + ser_str(s@));
    }
}

/// Writes the text of `v` onto `out`.
#[verifier::loop_isolation(false)]
fn write_value(v: &JsonValue, out: &mut String)
    ensures
        final(out)@ == old(out)@ + ser_val(v@),
    decreases v,
{
    match v {
        JsonValue::Null => {
            proof {
                reveal_strlit("null");
            }
            out.append("null");
            assert(out@ =~= old(out)@ + ser_val(v@));
        },
        JsonValue::Bool(b) => {
            proof {
                reveal_strlit("true");
                reveal_strlit("false");
            }
            if *b {
                out.append("true");
            } else {
                out.append("false");
            }
            assert(out@ =~= old(out)@ + ser_val(v@));
        },
        JsonValue::Number(n) => {
            if n.neg {
                push_char(out, '-');
            }
            out.append(n.int_digits.as_str());
            let flen = n.frac_digits.as_str().unicode_len();
            if flen > 0 {
                push_char(out, '.');
                out.append(n.frac_digits.as_str());
            }
            assert(out@ =~= old(out)@ + ser_num(n@));
        },
        JsonValue::String(s) => {
            write_string_token(s.as_str(), out);
            assert(out@ =~= old(out)@ + ser_val(v@));
        },
        JsonValue::Array(arr) => {
            push_char(out, '[');
            let ghost av = arr_view(arr@);
            let n = arr.len();
            let mut i: usize = 0;
            while i < n
                invariant
                    n == arr.len(),
                    av == arr_view(arr@),
                    i <= n,
                    av.len() == n,
                    out@ + ser_elems(av, i as int) == old(out)@ + seq!['['] + ser_elems(av, 0),
                decreases n - i,
            {
                let ghost pre = out@;
                proof {
                    assert(decreases_to!(*v => *arr));
                    assert(decreases_to!(*arr => arr[i as int]));
                }
                write_value(&arr[i], out);
                proof {
                    assert(av[i as int] == arr@[i as int]@);
                }
                if i + 1 < n {
                    push_char(out, ',');
                    proof {
                        assert(ser_elems(av, i as int) == ser_val(av[i as int]) + seq![',']
                            + ser_elems(av, i + 1));
                        assert(out@ + ser_elems(av, i + 1) =~= pre + ser_elems(av, i as int));
                    }
                } else {
                    proof {
                        assert(ser_elems(av, i as int) == ser_val(av[i as int]));
                        assert(ser_elems(av, i + 1) =~= Seq::<char>::empty());
                        assert(out@ + ser_elems(av, i + 1) =~= pre + ser_elems(av, i as int));
                    }
                }
                i = i + 1;
            }
            proof {
                assert(ser_elems(av, n as int) =~= Seq::<char>::empty());
                assert(out@ =~= old(out)@ + seq!['['] + ser_elems(av, 0));
            }
            push_char(out, ']');
            assert(out@ =~= old(out)@ + ser_val(v@));
        },
        JsonValue::Object(m) => {
            push_char(out, '{');
            let ghost mv = obj_view(m@);
            let n = m.len();
            let mut i: usize = 0;
            while i < n
                invariant
                    n == m.len(),
                    mv == obj_view(m@),
                    i <= n,
                    mv.len() == n,
                    out@ + ser_members(mv, i as int) == old(out)@ + seq!['{'] + ser_members(mv, 0),
                decreases n - i,
            {
                let ghost pre = out@;
                write_string_token(m[i].0.as_str(), out);
                push_char(out, ':');
                proof {
                    assert(decreases_to!(*v => *m));
                    assert(decreases_to!(*m => m[i as int]));
                    assert(decreases_to!(m[i as int] => m[i as int].1));
                }
                write_value(&m[i].1, out);
                proof {
                    assert(mv[i as int] == (m@[i as int].0@, m@[i as int].1@));
                    assert(out@ =~= pre + ser_str(mv[i as int].0) + seq![':'] + ser_val(
                        mv[i as int].1,
                    ));
                }
                if i + 1 < n {
                    push_char(out, ',');
                    proof {
                        assert(ser_members(mv, i as int) == ser_str(mv[i as int].0) + seq![':']
                            + ser_val(mv[i as int].1) + seq![','] + ser_members(mv, i + 1));
                        assert(out@ + ser_members(mv, i + 1) =~= pre + ser_members(mv, i as int));
                    }
                } else {
                    proof {
                        assert(ser_members(mv, i as int) == ser_str(mv[i as int].0) + seq![':']
                            + ser_val(mv[i as int].1));
                        assert(ser_members(mv, i + 1) =~= Seq::<char>::empty());
                        assert(out@ + ser_members(mv, i + 1) =~= pre + ser_members(mv, i as int));
                    }
                }
                i = i + 1;
            }
            proof {
                assert(ser_members(mv, n as int) =~= Seq::<char>::empty());
                assert(out@ =~= old(out)@ + seq!['{'] + ser_members(mv, 0));
            }
            push_char(out, '}');
            assert(out@ =~= old(out)@ + ser_val(v@));
        },
    }
}

/// Renders a value tree as minimal JSON text.  Total: every tree renders,
/// and the result is exactly `ser_val` of the tree.
pub fn serialize_json(value: &JsonValue) -> (r: String)
    ensures
        r@ == ser_val(value@),
{
    let mut out = String::new();
    write_value(value, &mut out);
    out
}

} // verus!
