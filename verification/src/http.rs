//! HTTP request-line parsing: a request text is split into method, path,
//! headers and body.
//!
//! Two readings of the same idea.  `parse_http_request` works line by line
//! as an iterator of `\n`-separated lines would: each line loses one
//! trailing `\r`, the request line is split on whitespace runs, headers are
//! `key: value` lines up to the first empty line (last write wins on a
//! repeated key), and the body is the remaining lines joined with `\n`.
//! `parse_http_request_optimized` scans by position: it splits the request
//! line on single spaces and keeps the raw rest of the buffer as the body;
//! it demands a well-shaped request (`http_opt_spec` is `Some`), since on
//! anything else it would walk out of the buffer.

use vstd::prelude::*;

use crate::json_grammar::skip_ws;
use crate::json_grammar::lemma_skip_ws;
use crate::text::is_ws;
use crate::text::is_ws_char;
use crate::text::push_char;

#[allow(unused_imports)]
use vstd::std_specs::vec::group_vec_axioms;

verus! {

broadcast use group_vec_axioms;

/// The parts of a request.
#[verifier::ext_equal]
pub ghost struct HttpView {
    pub method: Seq<char>,
    pub path: Seq<char>,
    pub headers: Seq<(Seq<char>, Seq<char>)>,
    pub body: Seq<char>,
}

/// The headers collected so far and where the body starts.
#[verifier::ext_equal]
pub ghost struct HdrScan {
    pub pairs: Seq<(Seq<char>, Seq<char>)>,
    pub body_start: int,
}

/// The first position of `c` at or after `from`, or the length.
pub open spec fn find_char(s: Seq<char>, from: int, c: char) -> int
    decreases s.len() - from,
{
    if 0 <= from < s.len() {
        if s[from] == c {
            from
        } else {
            find_char(s, from + 1, c)
        }
    } else {
        s.len() as int
    }
}

pub proof fn lemma_find_char(s: Seq<char>, from: int, c: char)
    ensures
        from <= s.len() ==> from <= find_char(s, from, c),
        find_char(s, from, c) <= s.len(),
        find_char(s, from, c) < s.len() ==> s[find_char(s, from, c)] == c,
    decreases s.len() - from,
{
    if 0 <= from < s.len() && s[from] != c {
        lemma_find_char(s, from + 1, c);
    }
}

/// A line with one trailing carriage return removed.
pub open spec fn strip_cr(l: Seq<char>) -> Seq<char> {
    if l.len() > 0 && l[l.len() - 1] == '\r' {
        l.subrange(0, l.len() - 1)
    } else {
        l
    }
}

/// The end of the whitespace-free token starting at `from`.
pub open spec fn scan_token(s: Seq<char>, from: int) -> int
    decreases s.len() - from,
{
    if 0 <= from < s.len() && !is_ws(s[from]) {
        scan_token(s, from + 1)
    } else {
        from
    }
}

pub proof fn lemma_scan_token(s: Seq<char>, from: int)
    ensures
        from <= scan_token(s, from),
        from <= s.len() ==> scan_token(s, from) <= s.len(),
    decreases s.len() - from,
{
    if 0 <= from < s.len() && !is_ws(s[from]) {
        lemma_scan_token(s, from + 1);
    }
}

/// The first whitespace-run-delimited token of the request line.
pub open spec fn method_of(rl: Seq<char>) -> Seq<char> {
    rl.subrange(skip_ws(rl, 0), scan_token(rl, skip_ws(rl, 0)))
}

/// The second whitespace-run-delimited token of the request line.
pub open spec fn path_of(rl: Seq<char>) -> Seq<char> {
    let b = scan_token(rl, skip_ws(rl, 0));
    let c2 = skip_ws(rl, b);
    rl.subrange(c2, scan_token(rl, c2))
}

/// The first position of the two characters `": "` at or after `from`, or
/// the length.
pub open spec fn find_colon_space(l: Seq<char>, from: int) -> int
    decreases l.len() - from,
{
    if 0 <= from && from + 2 <= l.len() {
        if l[from] == ':' && l[from + 1] == ' ' {
            from
        } else {
            find_colon_space(l, from + 1)
        }
    } else {
        l.len() as int
    }
}

pub proof fn lemma_find_colon_space(l: Seq<char>, from: int)
    ensures
        from <= l.len() ==> from <= find_colon_space(l, from) <= l.len(),
        find_colon_space(l, from) < l.len() ==> find_colon_space(l, from) + 2 <= l.len(),
    decreases l.len() - from,
{
    if 0 <= from && from + 2 <= l.len() && !(l[from] == ':' && l[from + 1] == ' ') {
        lemma_find_colon_space(l, from + 1);
    }
}

/// Whether `key` occurs among the header pairs.
pub open spec fn hdr_has_key(pairs: Seq<(Seq<char>, Seq<char>)>, key: Seq<char>) -> bool {
    exists|i: int| 0 <= i < pairs.len() && (#[trigger] pairs[i]).0 == key
}

/// The index of `key` among the header pairs, if present.
pub open spec fn hdr_key_index(pairs: Seq<(Seq<char>, Seq<char>)>, key: Seq<char>) -> int {
    choose|i: int| 0 <= i < pairs.len() && pairs[i].0 == key
}

/// Header keys are unique.
pub open spec fn hdr_keys_unique(pairs: Seq<(Seq<char>, Seq<char>)>) -> bool {
    forall|i: int, j: int|
        0 <= i < j < pairs.len() ==> (#[trigger] pairs[i]).0 != (#[trigger] pairs[j]).0
}

/// Last-write-wins insertion of a header.
pub open spec fn hdr_insert(
    pairs: Seq<(Seq<char>, Seq<char>)>,
    key: Seq<char>,
    v: Seq<char>,
) -> Seq<(Seq<char>, Seq<char>)> {
    if hdr_has_key(pairs, key) {
        pairs.update(hdr_key_index(pairs, key), (key, v))
    } else {
        pairs.push((key, v))
    }
}

/// Reads header lines from `pos` until an empty line, the end, or a last
/// line without a newline; `key: value` lines are collected, anything else
/// is skipped.
pub open spec fn headers_scan(s: Seq<char>, pos: int, acc: Seq<(Seq<char>, Seq<char>)>) -> HdrScan
    decreases s.len() - pos,
{
    if !(0 <= pos < s.len()) {
        HdrScan { pairs: acc, body_start: pos }
    } else {
        let e = find_char(s, pos, '\n');
        let l = strip_cr(s.subrange(pos, e));
        proof {
            lemma_find_char(s, pos, '\n');
        }
        if l.len() == 0 {
            HdrScan { pairs: acc, body_start: e + 1 }
        } else {
            let k = find_colon_space(l, 0);
            let acc2 = if k < l.len() {
                hdr_insert(acc, l.subrange(0, k), l.subrange(k + 2, l.len() as int))
            } else {
                acc
            };
            if e >= s.len() {
                HdrScan { pairs: acc2, body_start: e + 1 }
            } else {
                headers_scan(s, e + 1, acc2)
            }
        }
    }
}

/// The remaining lines joined with `\n`, each without its trailing `\r`.
pub open spec fn body_join(s: Seq<char>, pos: int) -> Seq<char>
    decreases s.len() - pos,
{
    if !(0 <= pos < s.len()) {
        Seq::empty()
    } else {
        let e = find_char(s, pos, '\n');
        let l = strip_cr(s.subrange(pos, e));
        proof {
            lemma_find_char(s, pos, '\n');
        }
        if e >= s.len() - 1 {
            l
        } else {
            l + seq!['\n'] + body_join(s, e + 1)
        }
    }
}

/// The line-by-line reading of a request.
pub open spec fn http_lines_spec(s: Seq<char>) -> HttpView {
    let e0 = find_char(s, 0, '\n');
    let rl = strip_cr(s.subrange(0, e0));
    let hs = headers_scan(s, e0 + 1, Seq::empty());
    HttpView {
        method: method_of(rl),
        path: path_of(rl),
        headers: hs.pairs,
        body: body_join(s, hs.body_start),
    }
}

/// The position-based reading of the header section; `None` where the
/// original scan would step outside the buffer.
pub open spec fn opt_scan(s: Seq<char>, pos: int, acc: Seq<(Seq<char>, Seq<char>)>) -> Option<
    HdrScan,
>
    decreases s.len() - pos,
{
    if pos >= s.len() {
        if pos == s.len() {
            Some(HdrScan { pairs: acc, body_start: pos })
        } else {
            None
        }
    } else if pos < 0 {
        None
    } else {
        let e = find_char(s, pos, '\n');
        let l = strip_cr(s.subrange(pos, e));
        proof {
            lemma_find_char(s, pos, '\n');
        }
        if l.len() == 0 {
            if e + 1 <= s.len() {
                Some(HdrScan { pairs: acc, body_start: e + 1 })
            } else {
                None
            }
        } else {
            let k = find_colon_space(l, 0);
            let acc2 = if k < l.len() {
                hdr_insert(acc, l.subrange(0, k), l.subrange(k + 2, l.len() as int))
            } else {
                acc
            };
            if e >= s.len() {
                None
            } else {
                opt_scan(s, e + 1, acc2)
            }
        }
    }
}

/// The position-based reading of a whole request: `None` exactly where the
/// scan would step outside the buffer (a request line without a space, no
/// newline at all, or a header section that ends without a newline).
pub open spec fn http_opt_spec(s: Seq<char>) -> Option<HttpView> {
    let e0 = find_char(s, 0, '\n');
    let rl = strip_cr(s.subrange(0, e0));
    let me = find_char(rl, 0, ' ');
    if me >= rl.len() {
        None
    } else if e0 >= s.len() {
        None
    } else {
        match opt_scan(s, e0 + 1, Seq::empty()) {
            None => None,
            Some(hs) => Some(
                HttpView {
                    method: rl.subrange(0, me),
                    path: rl.subrange(me + 1, find_char(rl, me + 1, ' ')),
                    headers: hs.pairs,
                    body: s.subrange(hs.body_start, s.len() as int),
                },
            ),
        }
    }
}

/// A parsed request: method, path, headers in arrival order with unique
/// keys, and the body.
#[derive(Debug, PartialEq)]
pub struct HttpRequest {
    pub method: String,
    pub path: String,
    pub headers: Vec<(String, String)>,
    pub body: String,
}

/// The ghost pairs standing for a header list.
pub open spec fn hdr_view(m: Seq<(String, String)>) -> Seq<(Seq<char>, Seq<char>)>
    decreases m,
{
    if m.len() == 0 {
        Seq::empty()
    } else {
        hdr_view(m.subrange(0, m.len() - 1)).push((m[m.len() - 1].0@, m[m.len() - 1].1@))
    }
}

pub broadcast proof fn lemma_hdr_view_len(m: Seq<(String, String)>)
    ensures
        (#[trigger] hdr_view(m)).len() == m.len(),
    decreases m,
{
    if m.len() > 0 {
        lemma_hdr_view_len(m.subrange(0, m.len() - 1));
        assert(hdr_view(m) == hdr_view(m.subrange(0, m.len() - 1)).push(
            (m[m.len() - 1].0@, m[m.len() - 1].1@),
        ));
    } else {
        assert(hdr_view(m) == Seq::<(Seq<char>, Seq<char>)>::empty());
    }
}

pub broadcast proof fn lemma_hdr_view_index(m: Seq<(String, String)>, i: int)
    requires
        0 <= i < m.len(),
    ensures
        #[trigger] hdr_view(m)[i] == (m[i].0@, m[i].1@),
    decreases m,
{
    lemma_hdr_view_len(m);
    lemma_hdr_view_len(m.subrange(0, m.len() - 1));
    assert(hdr_view(m) == hdr_view(m.subrange(0, m.len() - 1)).push(
        (m[m.len() - 1].0@, m[m.len() - 1].1@),
    ));
    if i < m.len() - 1 {
        lemma_hdr_view_index(m.subrange(0, m.len() - 1), i);
        assert(m.subrange(0, m.len() - 1)[i] == m[i]);
    }
}

impl View for HttpRequest {
    type V = HttpView;

    open spec fn view(&self) -> HttpView {
        HttpView {
            method: self.method@,
            path: self.path@,
            headers: hdr_view(self.headers@),
            body: self.body@,
        }
    }
}


/// The first position of `c` at or after `from`, or the length.
#[verifier::loop_isolation(false)]
fn find_in(v: &Vec<char>, from: usize, c: char) -> (r: usize)
    requires
        from <= v@.len(),
    ensures
        r as int == find_char(v@, from as int, c),
        from <= r <= v@.len(),
{
    let n = v.len();
    let mut k = from;
    while k < n && v[k] != c
        invariant
            from <= k <= n,
            n == v@.len(),
            find_char(v@, from as int, c) == find_char(v@, k as int, c),
        decreases n - k,
    {
        k = k + 1;
    }
    proof {
        lemma_find_char(v@, from as int, c);
    }
    k
}

/// The first non-whitespace position at or after `from`.
#[verifier::loop_isolation(false)]
fn skip_ws_in(v: &Vec<char>, from: usize) -> (r: usize)
    requires
        from <= v@.len(),
    ensures
        r as int == skip_ws(v@, from as int),
        from <= r <= v@.len(),
{
    let n = v.len();
    let mut k = from;
    while k < n && is_ws_char(v[k])
        invariant
            from <= k <= n,
            n == v@.len(),
            skip_ws(v@, from as int) == skip_ws(v@, k as int),
        decreases n - k,
    {
        k = k + 1;
    }
    proof {
        lemma_skip_ws(v@, from as int);
    }
    k
}

/// The end of the whitespace-free token starting at `from`.
#[verifier::loop_isolation(false)]
fn scan_token_in(v: &Vec<char>, from: usize) -> (r: usize)
    requires
        from <= v@.len(),
    ensures
        r as int == scan_token(v@, from as int),
        from <= r <= v@.len(),
{
    let n = v.len();
    let mut k = from;
    while k < n && !is_ws_char(v[k])
        invariant
            from <= k <= n,
            n == v@.len(),
            scan_token(v@, from as int) == scan_token(v@, k as int),
        decreases n - k,
    {
        k = k + 1;
    }
    proof {
        lemma_scan_token(v@, from as int);
    }
    k
}

/// The first position of `": "` in a line, or its length.
#[verifier::loop_isolation(false)]
fn find_cs(line: &Vec<char>) -> (r: usize)
    ensures
        r as int == find_colon_space(line@, 0),
        r <= line@.len(),
        r < line@.len() ==> r + 2 <= line@.len(),
{
    let n = line.len();
    let mut k: usize = 0;
    while n - k >= 2
        invariant
            k <= n,
            n == line@.len(),
            find_colon_space(line@, 0) == find_colon_space(line@, k as int),
        decreases n - k,
    {
        if line[k] == ':' && line[k + 1] == ' ' {
            proof {
                lemma_find_colon_space(line@, 0);
            }
            return k;
        }
        k = k + 1;
    }
    proof {
        lemma_find_colon_space(line@, 0);
    }
    n
}

/// The characters `from..to` of a buffer, with one trailing `\r` removed.
fn line_at(v: &Vec<char>, from: usize, to: usize) -> (l: Vec<char>)
    requires
        from <= to <= v@.len(),
    ensures
        l@ == strip_cr(v@.subrange(from as int, to as int)),
{
    let mut l: Vec<char> = Vec::new();
    let mut i = from;
    #[verifier::loop_isolation(false)]
    while i < to
        invariant
            from <= i <= to,
            l@ == v@.subrange(from as int, i as int),
        decreases to - i,
    {
        l.push(v[i]);
        proof {
            assert(l@ =~= v@.subrange(from as int, i + 1));
        }
        i = i + 1;
    }
    if l.len() > 0 && l[l.len() - 1] == '\r' {
        let _ = l.pop();
        proof {
            assert(l@ =~= strip_cr(v@.subrange(from as int, to as int)));
        }
    }
    l
}

/// Inserts a header, last write wins: an existing key keeps its position and
/// takes the new value, a new key is appended.
#[verifier::loop_isolation(false)]
fn insert_header(headers: &mut Vec<(String, String)>, key: String, value: String)
    requires
        hdr_keys_unique(hdr_view(old(headers)@)),
    ensures
        hdr_view(final(headers)@) == hdr_insert(hdr_view(old(headers)@), key@, value@),
        hdr_keys_unique(hdr_view(final(headers)@)),
{
    broadcast use lemma_hdr_view_len, lemma_hdr_view_index;

    let ghost pairs0 = hdr_view(headers@);
    let n = headers.len();
    let mut j: usize = 0;
    while j < n
        invariant
            n == headers.len(),
            j <= n,
            headers@ == old(headers)@,
            hdr_keys_unique(hdr_view(headers@)),
            forall|t: int| 0 <= t < j ==> hdr_view(headers@)[t].0 != key@,
        decreases n - j,
    {
        if headers[j].0 == key {
            proof {
                lemma_hdr_view_index(headers@, j as int);
                assert(pairs0[j as int].0 == key@);
                assert(hdr_has_key(pairs0, key@));
                let ki = hdr_key_index(pairs0, key@);
                assert(pairs0[ki].0 == key@);
                assert(ki == j) by {
                    if ki != j {
                        assert(pairs0[ki].0 != pairs0[j as int].0);
                    }
                }
            }
            let pair = headers.remove(j);
            headers.insert(j, (pair.0, value));
            proof {
                assert(hdr_view(headers@) =~= pairs0.update(
                    hdr_key_index(pairs0, key@),
                    (key@, value@),
                ));
                assert(hdr_view(headers@) == hdr_insert(pairs0, key@, value@));
                assert(hdr_keys_unique(hdr_view(headers@)));
            }
            return ;
        }
        j = j + 1;
    }
    headers.push((key, value));
    proof {
        assert(!hdr_has_key(pairs0, key@));
        assert(hdr_view(headers@) =~= pairs0.push((key@, value@)));
        assert(hdr_keys_unique(hdr_view(headers@)));
    }
}

/// Parses a request line by line: whitespace-split method and path, headers
/// up to the first empty line with last write winning on a repeated key, and
/// the remaining lines re-joined with `\n` as the body.
#[verifier::loop_isolation(false)]
pub fn parse_http_request(request: &str) -> (r: HttpRequest)
    ensures
        r@ == http_lines_spec(request@),
{
    broadcast use lemma_hdr_view_len, lemma_hdr_view_index;

    let chars = crate::text::chars_of(request);
    let ghost s = chars@;
    let n = chars.len();
    let e0 = find_in(&chars, 0, '\n');
    let rl = line_at(&chars, 0, e0);
    let a = skip_ws_in(&rl, 0);
    let b = scan_token_in(&rl, a);
    let method = crate::text::string_from_range(&rl, a, b);
    let b2 = skip_ws_in(&rl, b);
    let d = scan_token_in(&rl, b2);
    let path = crate::text::string_from_range(&rl, b2, d);
    let mut headers: Vec<(String, String)> = Vec::new();
    let ghost htarget = headers_scan(s, e0 + 1, Seq::empty());
    let mut bstart: usize = n;
    let mut body = String::new();
    proof {
        assert(hdr_view(headers@) =~= Seq::<(Seq<char>, Seq<char>)>::empty());
    }
    if e0 < n {
        let mut pos: usize = e0 + 1;
        #[verifier::loop_isolation(true)]
        loop
            invariant_except_break
                htarget == headers_scan(s, pos as int, hdr_view(headers@)),
            invariant
                pos <= n,
                n == chars.len(),
                s == chars@,
                hdr_keys_unique(hdr_view(headers@)),
                bstart <= n,
            ensures
                bstart <= n,
                htarget.pairs == hdr_view(headers@),
                hdr_keys_unique(hdr_view(headers@)),
                body_join(s, htarget.body_start) == body_join(s, bstart as int),
            decreases n - pos,
        {
            if pos >= n {
                bstart = n;
                break ;
            }
            let e = find_in(&chars, pos, '\n');
            let line = line_at(&chars, pos, e);
            if line.len() == 0 {
                if e < n {
                    bstart = e + 1;
                } else {
                    bstart = n;
                }
                break ;
            }
            let k = find_cs(&line);
            if k < line.len() {
                let key = crate::text::string_from_range(&line, 0, k);
                let val = crate::text::string_from_range(&line, k + 2, line.len());
                insert_header(&mut headers, key, val);
            }
            if e >= n {
                bstart = n;
                break ;
            }
            pos = e + 1;
        }
        let ghost btarget = body_join(s, bstart as int);
        if bstart < n {
            let mut bpos = bstart;
            #[verifier::loop_isolation(true)]
            loop
                invariant_except_break
                    btarget == body@ + body_join(s, bpos as int),
                invariant
                    bpos < n,
                    n == chars.len(),
                    s == chars@,
                ensures
                    body@ == btarget,
                decreases n - bpos,
            {
                let e = find_in(&chars, bpos, '\n');
                let line = line_at(&chars, bpos, e);
                crate::text::append_chars(&mut body, &line);
                if e >= n - 1 {
                    break ;
                }
                crate::text::push_char(&mut body, '\n');
                bpos = e + 1;
            }
        }
    } else {
        proof {
            assert(htarget.pairs =~= Seq::<(Seq<char>, Seq<char>)>::empty());
        }
    }
    let r = HttpRequest { method, path, headers, body };
    proof {
        assert(r@ =~= http_lines_spec(s));
    }
    r
}

/// Parses a request by position: the request line split on single spaces,
/// headers up to the first empty line, and the raw rest of the buffer as the
/// body.  Demands a well-shaped request (`http_opt_spec` is `Some`): on
/// anything else this scan would step outside the buffer.
#[verifier::loop_isolation(false)]
pub fn parse_http_request_optimized(request: &str) -> (r: HttpRequest)
    requires
        (http_opt_spec(request@) is Some),
    ensures
        (Some(r@) == http_opt_spec(request@)),
{
    broadcast use lemma_hdr_view_len, lemma_hdr_view_index;

    let chars = crate::text::chars_of(request);
    let ghost s = chars@;
    let n = chars.len();
    let e0 = find_in(&chars, 0, '\n');
    let rl = line_at(&chars, 0, e0);
    let me = find_in(&rl, 0, ' ');
    proof {
        if me >= rl@.len() {
            assert(http_opt_spec(s) is None);
        }
        if e0 >= n {
            assert(http_opt_spec(s) is None);
        }
    }
    let method = crate::text::string_from_range(&rl, 0, me);
    let pe = find_in(&rl, me + 1, ' ');
    let path = crate::text::string_from_range(&rl, me + 1, pe);
    let mut headers: Vec<(String, String)> = Vec::new();
    let ghost starget = opt_scan(s, e0 + 1, Seq::empty());
    proof {
        assert(hdr_view(headers@) =~= Seq::<(Seq<char>, Seq<char>)>::empty());
        assert(starget is Some);
    }
    let mut bstart: usize = n;
    let mut pos: usize = e0 + 1;
    #[verifier::loop_isolation(true)]
    loop
        invariant_except_break
            starget == opt_scan(s, pos as int, hdr_view(headers@)),
        invariant
            pos <= n,
            n == chars.len(),
            s == chars@,
            hdr_keys_unique(hdr_view(headers@)),
            (starget is Some),
        ensures
            bstart <= n,
            hdr_keys_unique(hdr_view(headers@)),
            starget == Some(HdrScan { pairs: hdr_view(headers@), body_start: bstart as int }),
        decreases n - pos,
    {
        if pos >= n {
            bstart = pos;
            break ;
        }
        let e = find_in(&chars, pos, '\n');
        let line = line_at(&chars, pos, e);
        if line.len() == 0 {
            if e < n {
                bstart = e + 1;
            } else {
                // A blank final line without its newline makes the scan step
                // outside the buffer, so the requires excludes it.
                proof {
                    assert(false);
                }
                bstart = n;
            }
            break ;
        }
        let k = find_cs(&line);
        if k < line.len() {
            let key = crate::text::string_from_range(&line, 0, k);
            let val = crate::text::string_from_range(&line, k + 2, line.len());
            insert_header(&mut headers, key, val);
        }
        if e >= n {
            // A last header line without a newline makes the scan step
            // outside the buffer, so the requires excludes it.
            proof {
                assert(false);
            }
            bstart = n;
            break ;
        }
        pos = e + 1;
    }
    let body = crate::text::string_from_range(&chars, bstart, n);
    let r = HttpRequest { method, path, headers, body };
    proof {
        match http_opt_spec(s) {
            Some(tv) => {
                assert(r@ =~= tv);
            },
            None => {},
        }
    }
    r
}

} // verus!
