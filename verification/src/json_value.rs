//! The JSON value tree and its mathematical model.
//!
//! A `JsonValue` is a closed set of variants: null, booleans, numbers,
//! strings, arrays and objects.  Numbers are kept in decimal-literal form
//! (sign, integral digits, fractional digits); the grammar this library
//! accepts has no exponent notation, so this form is exact.  Objects are kept
//! as a sequence of key/value pairs whose keys are unique; inserting an
//! existing key overwrites its value (last write wins).
//!
//! The ghost mirror `JVal` states the same tree over `Seq<char>` and
//! `Seq<JVal>`; every contract in this crate speaks of values through it.

use vstd::prelude::*;

verus! {

/// A JSON number in decimal-literal form: a sign, the integral digits and the
/// fractional digits.  An empty `frac_digits` means the literal had no
/// fractional part.
#[derive(Debug, Clone, PartialEq)]
pub struct JsonNumber {
    pub neg: bool,
    pub int_digits: String,
    pub frac_digits: String,
}

/// Ghost form of `JsonNumber` over character sequences.
#[verifier::ext_equal]
pub ghost struct JNum {
    pub neg: bool,
    pub int_digits: Seq<char>,
    pub frac_digits: Seq<char>,
}

/// A JSON value tree: the in-memory representation produced by parsing and
/// consumed by serialization.
#[derive(Debug, PartialEq)]
pub enum JsonValue {
    Null,
    Bool(bool),
    Number(JsonNumber),
    String(String),
    Array(Vec<JsonValue>),
    Object(Vec<(String, JsonValue)>),
}

/// Ghost form of a JSON value tree.
#[verifier::ext_equal]
pub ghost enum JVal {
    Null,
    Bool(bool),
    Num(JNum),
    Str(Seq<char>),
    Arr(Seq<JVal>),
    Obj(Seq<(Seq<char>, JVal)>),
}

impl View for JsonNumber {
    type V = JNum;

    open spec fn view(&self) -> JNum {
        JNum { neg: self.neg, int_digits: self.int_digits@, frac_digits: self.frac_digits@ }
    }
}

/// The ghost tree standing for a sequence of array elements.
pub open spec fn arr_view(a: Seq<JsonValue>) -> Seq<JVal>
    decreases a,
{
    if a.len() == 0 {
        Seq::empty()
    } else {
        arr_view(a.subrange(0, a.len() - 1)).push(a[a.len() - 1]@)
    }
}

/// The ghost pairs standing for a sequence of object entries.
pub open spec fn obj_view(m: Seq<(String, JsonValue)>) -> Seq<(Seq<char>, JVal)>
    decreases m,
{
    if m.len() == 0 {
        Seq::empty()
    } else {
        obj_view(m.subrange(0, m.len() - 1)).push(
            (m[m.len() - 1].0@, m[m.len() - 1].1@),
        )
    }
}

impl View for JsonValue {
    type V = JVal;

    open spec fn view(&self) -> JVal
        decreases self,
    {
        match self {
            JsonValue::Null => JVal::Null,
            JsonValue::Bool(b) => JVal::Bool(*b),
            JsonValue::Number(n) => JVal::Num(n@),
            JsonValue::String(s) => JVal::Str(s@),
            JsonValue::Array(a) => JVal::Arr(arr_view(a@)),
            JsonValue::Object(m) => JVal::Obj(obj_view(m@)),
        }
    }
}

pub broadcast proof fn lemma_arr_view_len(a: Seq<JsonValue>)
    ensures
        (#[trigger] arr_view(a)).len() == a.len(),
    decreases a,
{
    if a.len() > 0 {
        lemma_arr_view_len(a.subrange(0, a.len() - 1));
        assert(arr_view(a) == arr_view(a.subrange(0, a.len() - 1)).push(a[a.len() - 1]@));
    } else {
        assert(arr_view(a) == Seq::<JVal>::empty());
    }
}

pub broadcast proof fn lemma_arr_view_index(a: Seq<JsonValue>, i: int)
    requires
        0 <= i < a.len(),
    ensures
        #[trigger] arr_view(a)[i] == a[i]@,
    decreases a,
{
    lemma_arr_view_len(a);
    lemma_arr_view_len(a.subrange(0, a.len() - 1));
    assert(arr_view(a) == arr_view(a.subrange(0, a.len() - 1)).push(a[a.len() - 1]@));
    if i < a.len() - 1 {
        lemma_arr_view_index(a.subrange(0, a.len() - 1), i);
        assert(a.subrange(0, a.len() - 1)[i] == a[i]);
    }
}

pub broadcast proof fn lemma_obj_view_len(m: Seq<(String, JsonValue)>)
    ensures
        (#[trigger] obj_view(m)).len() == m.len(),
    decreases m,
{
    if m.len() > 0 {
        lemma_obj_view_len(m.subrange(0, m.len() - 1));
        assert(obj_view(m) == obj_view(m.subrange(0, m.len() - 1)).push(
            (m[m.len() - 1].0@, m[m.len() - 1].1@),
        ));
    } else {
        assert(obj_view(m) == Seq::<(Seq<char>, JVal)>::empty());
    }
}

pub broadcast proof fn lemma_obj_view_index(m: Seq<(String, JsonValue)>, i: int)
    requires
        0 <= i < m.len(),
    ensures
        #[trigger] obj_view(m)[i] == (m[i].0@, m[i].1@),
    decreases m,
{
    lemma_obj_view_len(m);
    lemma_obj_view_len(m.subrange(0, m.len() - 1));
    assert(obj_view(m) == obj_view(m.subrange(0, m.len() - 1)).push(
        (m[m.len() - 1].0@, m[m.len() - 1].1@),
    ));
    if i < m.len() - 1 {
        lemma_obj_view_index(m.subrange(0, m.len() - 1), i);
        assert(m.subrange(0, m.len() - 1)[i] == m[i]);
    }
}

/// A decimal digit.
pub open spec fn is_digit(c: char) -> bool {
    '0' <= c && c <= '9'
}

/// All characters of a sequence are decimal digits.
pub open spec fn all_digits(s: Seq<char>) -> bool {
    forall|i: int| 0 <= i < s.len() ==> is_digit(#[trigger] s[i])
}

/// A well-formed number: at least one integral digit, and nothing but digits
/// in either digit run.  This is exactly the number grammar
/// `'-'? digit+ ('.' digit+)?` with the fractional part optional.
pub open spec fn num_wf(n: JNum) -> bool {
    &&& n.int_digits.len() > 0
    &&& all_digits(n.int_digits)
    &&& all_digits(n.frac_digits)
}

/// The index of `key` among `pairs`, if present.
pub open spec fn key_index(pairs: Seq<(Seq<char>, JVal)>, key: Seq<char>) -> int {
    choose|i: int| 0 <= i < pairs.len() && pairs[i].0 == key
}

/// Whether `key` occurs among `pairs`.
pub open spec fn has_key(pairs: Seq<(Seq<char>, JVal)>, key: Seq<char>) -> bool {
    exists|i: int| 0 <= i < pairs.len() && (#[trigger] pairs[i]).0 == key
}

/// Last-write-wins insertion: an existing key keeps its position but takes
/// the new value; a new key is appended.
pub open spec fn insert_pair(
    pairs: Seq<(Seq<char>, JVal)>,
    key: Seq<char>,
    v: JVal,
) -> Seq<(Seq<char>, JVal)> {
    if has_key(pairs, key) {
        pairs.update(key_index(pairs, key), (key, v))
    } else {
        pairs.push((key, v))
    }
}

/// The value bound to `key` among `pairs`, if any.
pub open spec fn pairs_lookup(pairs: Seq<(Seq<char>, JVal)>, key: Seq<char>) -> Option<JVal> {
    if has_key(pairs, key) {
        Some(pairs[key_index(pairs, key)].1)
    } else {
        None
    }
}

/// Object keys are unique.
pub open spec fn keys_unique(pairs: Seq<(Seq<char>, JVal)>) -> bool {
    forall|i: int, j: int|
        0 <= i < j < pairs.len() ==> (#[trigger] pairs[i]).0 != (#[trigger] pairs[j]).0
}

/// A well-formed tree: every number is well-formed and every object has
/// unique keys.  Parsing only ever produces well-formed trees.
pub open spec fn jval_wf(v: JVal) -> bool
    decreases v,
{
    match v {
        JVal::Null => true,
        JVal::Bool(_) => true,
        JVal::Num(n) => num_wf(n),
        JVal::Str(_) => true,
        JVal::Arr(a) => forall|i: int| 0 <= i < a.len() ==> jval_wf(#[trigger] a[i]),
        JVal::Obj(m) => {
            &&& keys_unique(m)
            &&& forall|i: int| 0 <= i < m.len() ==> jval_wf((#[trigger] m[i]).1)
        },
    }
}


/// Inserts a member into an object, last write wins: an existing key keeps
/// its position and takes the new value, a new key is appended.
#[verifier::loop_isolation(false)]
pub(crate) fn insert_member(object: &mut Vec<(String, JsonValue)>, key: String, value: JsonValue)
    requires
        keys_unique(obj_view(old(object)@)),
    ensures
        obj_view(final(object)@) == insert_pair(obj_view(old(object)@), key@, value@),
        keys_unique(obj_view(final(object)@)),
{
    broadcast use vstd::std_specs::vec::group_vec_axioms, lemma_obj_view_len, lemma_obj_view_index;

    let ghost pairs0 = obj_view(object@);
    let n = object.len();
    let mut j: usize = 0;
    while j < n
        invariant
            n == object.len(),
            j <= n,
            object@ == old(object)@,
            keys_unique(obj_view(object@)),
            forall|t: int| 0 <= t < j ==> obj_view(object@)[t].0 != key@,
        decreases n - j,
    {
        if object[j].0 == key {
            proof {
                lemma_obj_view_index(object@, j as int);
                assert(pairs0[j as int].0 == key@);
                assert(has_key(pairs0, key@));
                let ki = key_index(pairs0, key@);
                assert(pairs0[ki].0 == key@);
                assert(ki == j) by {
                    if ki != j {
                        assert(pairs0[ki].0 != pairs0[j as int].0);
                    }
                }
            }
            let pair = object.remove(j);
            object.insert(j, (pair.0, value));
            proof {
                assert(obj_view(object@) =~= pairs0.update(key_index(pairs0, key@), (key@, value@)));
                assert(obj_view(object@) == insert_pair(pairs0, key@, value@));
                assert(keys_unique(obj_view(object@)));
            }
            return ;
        }
        j = j + 1;
    }
    object.push((key, value));
    proof {
        assert(!has_key(pairs0, key@));
        assert(obj_view(object@) =~= pairs0.push((key@, value@)));
        assert(keys_unique(obj_view(object@)));
    }
}


impl JsonValue {
    /// The value bound to `key`, when this tree is an object holding it.
    /// Lookup in anything else, or of an absent key, is `None`.
    pub fn object_get<'a>(&'a self, key: &String) -> (r: Option<&'a JsonValue>)
        requires
            jval_wf(self@),
        ensures
            match self@ {
                JVal::Obj(pairs) => match r {
                    Some(v) => pairs_lookup(pairs, key@) == Some(v@),
                    None => (pairs_lookup(pairs, key@) is None),
                },
                _ => (r is None),
            },
    {
        broadcast use vstd::std_specs::vec::group_vec_axioms, lemma_obj_view_len, lemma_obj_view_index;

        match self {
            JsonValue::Object(members) => {
                let ghost pairs = obj_view(members@);
                let n = members.len();
                let mut j: usize = 0;
                while j < n
                    invariant
                        j <= n,
                        n == members.len(),
                        pairs == obj_view(members@),
                        self@ == JVal::Obj(pairs),
                        jval_wf(self@),
                        forall|t: int| 0 <= t < j ==> pairs[t].0 != key@,
                    decreases n - j,
                {
                    proof {
                        lemma_obj_view_len(members@);
                        lemma_obj_view_index(members@, j as int);
                    }
                    if members[j].0 == *key {
                        proof {
                            assert(pairs[j as int].0 == key@);
                            assert(has_key(pairs, key@));
                            let ki = key_index(pairs, key@);
                            assert(pairs[ki].0 == key@);
                            assert(ki == j) by {
                                if ki != j {
                                    assert(pairs[ki].0 != pairs[j as int].0);
                                }
                            }
                        }
                        return Some(&members[j].1);
                    }
                    j = j + 1;
                }
                proof {
                    assert(!has_key(pairs, key@));
                }
                None
            },
            _ => None,
        }
    }

    /// Lookup-and-replace mutation: binds `key` to `value` when this tree is
    /// an object (last write wins, as in parsing), and leaves any other tree
    /// unchanged.
    pub fn object_set(&mut self, key: String, value: JsonValue)
        requires
            jval_wf(old(self)@),
        ensures
            match old(self)@ {
                JVal::Obj(pairs) => final(self)@ == JVal::Obj(
                    insert_pair(pairs, key@, value@),
                ),
                _ => final(self)@ == old(self)@,
            },
            jval_wf(old(self)@) && (old(self)@ is Obj) ==> keys_unique(
                final(self)@->Obj_0,
            ),
    {
        match self {
            JsonValue::Object(members) => {
                insert_member(members, key, value);
            },
            _ => {},
        }
    }
}

} // verus!
