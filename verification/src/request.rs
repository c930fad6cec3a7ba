//! Parsing the text of an HTTP request: the request line (method, path with
//! `%`-escapes decoded, HTTP version), the `Host:` line and the other header lines;
//! looking up a header; matching the path against a route.
use vstd::prelude::*;
use vstd::utf8::*;

use crate::text::{
    blen, char_width_exec, chars_eq, chars_of, concat_chars, join_exec, split_all_exec, contains, ends_with, find, find_from_exec, join,
    lemma_blen_push, lemma_blen_single, lemma_blen_take_step, lemma_find_from, lines, lines_exec, split_all, split_once,
    matches_at, starts_with, starts_with_exec, law_trim_around, char_is_whitespace, strip_cr, string_of, subvec, trim, trim_exec, utf8_to_string,
    views,
};
use crate::{HttpMethod, MethodView, method_from};

verus! {

// ---------------------------------------------------------------------------
// The model of a request
// ---------------------------------------------------------------------------

/// What an `HttpRequest` holds.
pub struct RequestView {
    pub method: MethodView,
    pub path: Seq<char>,
    pub host: Seq<char>,
    pub version: Seq<char>,
    pub headers: Seq<Seq<char>>,
}

/// The character sequences of a vector of strings.
pub open spec fn string_views(v: Seq<String>) -> Seq<Seq<char>> {
    v.map_values(|x: String| x@)
}

/// A parsed HTTP request.
pub struct HttpRequest {
    headers: Vec<String>,
    method: HttpMethod,
    path: String,
    host: String,
    http_version: String,
}

impl View for HttpRequest {
    type V = RequestView;

    closed spec fn view(&self) -> RequestView {
        RequestView {
            method: self.method@,
            path: self.path@,
            host: self.host@,
            version: self.http_version@,
            headers: string_views(self.headers@),
        }
    }
}

// ---------------------------------------------------------------------------
// The request line: version suffix
// ---------------------------------------------------------------------------

/// Whether `char::is_numeric` holds of `c` (a Unicode number category).
pub uninterp spec fn char_is_numeric(c: char) -> bool;

/// Calls `char::is_numeric`, whose result is named `char_is_numeric`.
#[verifier::external_body]
fn is_numeric_char(c: char) -> (b: bool)
    ensures
        b == char_is_numeric(c),
{
    c.is_numeric()
}

/// A character that may stand in the version at the end of the request line.
pub open spec fn version_char(c: char) -> bool {
    char_is_numeric(c) || c == '/' || c == 'H' || c == 'T' || c == 'P' || c == '.'
}

/// Where the longest suffix of `s[..j]` made of version characters begins.
pub open spec fn version_start(s: Seq<char>, j: int) -> int
    decreases j,
{
    if 0 < j <= s.len() && version_char(s[j - 1]) {
        version_start(s, j - 1)
    } else {
        j
    }
}

// ---------------------------------------------------------------------------
// The path: `%`-escapes
// ---------------------------------------------------------------------------

/// The value of a hexadecimal digit.
pub open spec fn hex_digit(c: char) -> Option<nat> {
    if '0' <= c && c <= '9' {
        Some((c as nat - '0' as nat) as nat)
    } else if 'a' <= c && c <= 'f' {
        Some((c as nat - 'a' as nat + 10) as nat)
    } else if 'A' <= c && c <= 'F' {
        Some((c as nat - 'A' as nat + 10) as nat)
    } else {
        None
    }
}

/// The value of a sequence of hexadecimal digits.
pub open spec fn hex_value(d: Seq<char>) -> Option<nat>
    decreases d.len(),
{
    if d.len() == 0 {
        Some(0)
    } else {
        match (hex_value(d.drop_last()), hex_digit(d.last())) {
            (Some(v), Some(x)) => Some(v * 16 + x),
            _ => None,
        }
    }
}

/// `u8::from_str_radix(u, 16)`: an optional `+`, then at least one hexadecimal
/// digit, with a value that fits in a byte.
pub open spec fn parse_hex_u8(u: Seq<char>) -> Option<u8> {
    let d = if u.len() > 0 && u[0] == '+' {
        u.drop_first()
    } else {
        u
    };
    if d.len() == 0 {
        None
    } else {
        match hex_value(d) {
            Some(v) => if v <= 255 {
                Some(v as u8)
            } else {
                None
            },
            None => None,
        }
    }
}

/// A value that has grown past a byte stays past it, or the digits stop being valid.
proof fn lemma_hex_value_grows(d: Seq<char>, i: int)
    requires
        0 <= i <= d.len(),
        hex_value(d.take(i)) matches Some(v) && v > 255,
    ensures
        hex_value(d) matches Some(w) ==> w > 255,
    decreases d.len() - i,
{
    if i < d.len() {
        assert(d.take(i + 1).drop_last() =~= d.take(i));
        assert(d.take(i + 1).last() == d[i]);
        if hex_value(d.take(i + 1)) is Some {
            lemma_hex_value_grows(d, i + 1);
        } else {
            lemma_hex_none_stays(d, i + 1);
        }
    } else {
        assert(d.take(i) =~= d);
    }
}

/// An invalid prefix makes the whole sequence invalid.
proof fn lemma_hex_none_stays(d: Seq<char>, i: int)
    requires
        0 <= i <= d.len(),
        hex_value(d.take(i)) is None,
    ensures
        hex_value(d) is None,
    decreases d.len() - i,
{
    if i < d.len() {
        assert(d.take(i + 1).drop_last() =~= d.take(i));
        lemma_hex_none_stays(d, i + 1);
    } else {
        assert(d.take(i) =~= d);
    }
}

fn hex_digit_exec(c: char) -> (r: Option<u32>)
    ensures
        r matches Some(x) ==> hex_digit(c) == Some(x as nat) && x < 16,
        r is None ==> hex_digit(c) is None,
{
    if '0' <= c && c <= '9' {
        Some((c as u32) - ('0' as u32))
    } else if 'a' <= c && c <= 'f' {
        Some((c as u32) - ('a' as u32) + 10)
    } else if 'A' <= c && c <= 'F' {
        Some((c as u32) - ('A' as u32) + 10)
    } else {
        None
    }
}

/// `u8::from_str_radix(u, 16)`.
pub fn parse_hex_u8_exec(u: &Vec<char>) -> (r: Option<u8>)
    ensures
        r == parse_hex_u8(u@),
{
    let start: usize = if u.len() > 0 && u[0] == '+' {
        1
    } else {
        0
    };
    let ghost d = if u@.len() > 0 && u@[0] == '+' {
        u@.drop_first()
    } else {
        u@
    };
    assert(d =~= u@.skip(start as int));
    if start >= u.len() {
        return None;
    }
    let mut v: u32 = 0;
    let mut i: usize = start;
    while i < u.len()
        invariant
            start <= i <= u.len(),
            d =~= u@.skip(start as int),
            d == (if u@.len() > 0 && u@[0] == '+' {
                u@.drop_first()
            } else {
                u@
            }),
            start < u.len(),
            hex_value(d.take(i - start)) == Some(v as nat),
            v <= 255,
        decreases u.len() - i,
    {
        let ghost j = i - start;
        assert(d.take(j + 1).drop_last() =~= d.take(j));
        assert(d.take(j + 1).last() == u@[i as int]);
        match hex_digit_exec(u[i]) {
            Some(x) => {
                v = v * 16 + x;
                i += 1;
                assert(hex_value(d.take(j + 1)) == Some(v as nat));
                if v > 255 {
                    proof {
                        lemma_hex_value_grows(d, j + 1);
                    }
                    assert(hex_value(d) matches Some(w) ==> w > 255);
                    assert(d.len() > 0);
                    assert(parse_hex_u8(u@) is None);
                    return None;
                }
            },
            None => {
                assert(hex_value(d.take(j + 1)) is None);
                proof {
                    lemma_hex_none_stays(d, j + 1);
                }
                assert(parse_hex_u8(u@) is None);
                return None;
            },
        }
    }
    assert(d.take(u.len() - start) =~= d);
    Some(v as u8)
}

/// One escape found in the path: where its `%` stands (a character index) and
/// the bytes decoded so far.
pub type Escape = (int, Seq<u8>);

/// The escapes found so far, the pending hex text, and whether a new `%` starts a
/// new escape.
pub type ScanState = (Seq<Escape>, Seq<char>, bool);

/// One step of the scan over the path, at character index `i`.
pub open spec fn scan_step(st: ScanState, i: int, ch: char) -> ScanState {
    let (list, unicode, space) = st;
    if ch == '%' {
        (
            if space {
                list.push((i, Seq::<u8>::empty()))
            } else {
                list
            },
            Seq::<char>::empty(),
            space,
        )
    } else if list.len() == 0 {
        st
    } else if blen(unicode) < 2 {
        let u2 = unicode.push(ch);
        let list2 = if blen(u2) == 2 {
            match parse_hex_u8(u2) {
                Some(h) => list.update(
                    list.len() - 1,
                    (list.last().0, list.last().1.push(h)),
                ),
                None => list,
            }
        } else {
            list
        };
        (list2, u2, false)
    } else {
        (list, unicode, true)
    }
}

/// The scan state after the first `n` characters of `t`.
pub open spec fn scan(t: Seq<char>, n: int) -> ScanState
    decreases n,
{
    if n <= 0 {
        (Seq::empty(), Seq::empty(), true)
    } else {
        scan_step(scan(t, n - 1), n - 1, t[n - 1])
    }
}

/// The escapes of a path.
pub open spec fn escapes(t: Seq<char>) -> Seq<Escape> {
    scan(t, t.len() as int).0
}

/// The character index whose encoding starts at byte `f` of `s`, searching from `k`.
pub open spec fn char_index_at_byte(s: Seq<char>, f: int, k: int) -> Option<int>
    decreases s.len() - k,
{
    if k < 0 || k > s.len() {
        None
    } else if blen(s.take(k)) == f {
        Some(k)
    } else if k >= s.len() || blen(s.take(k)) > f {
        None
    } else {
        char_index_at_byte(s, f, k + 1)
    }
}

/// Replacing one escape by the text its bytes encode. The escape's index, shifted
/// back by `delta`, is taken as a byte offset; `3 * bytes` characters are removed
/// there and the text is inserted. `None` where the edit cannot be made: a shift
/// below zero, an offset that is not a character boundary, or too few characters
/// left to remove.
pub open spec fn apply_escape(cur: Seq<char>, delta: int, from: int, hex: Seq<u8>) -> Option<
    (Seq<char>, int),
> {
    if !valid_utf8(hex) {
        Some((cur, delta))
    } else {
        let text = decode_utf8(hex);
        let a = 3 * hex.len();
        if a > usize::MAX || from < delta {
            None
        } else {
            match char_index_at_byte(cur, from - delta, 0) {
                Some(k) => if k + a > cur.len() {
                    None
                } else {
                    Some((cur.take(k) + text + cur.skip(k + a), a - blen(text)))
                },
                None => None,
            }
        }
    }
}

/// The path after the first `n` escapes have been applied, with the current shift.
pub open spec fn apply_escapes(t: Seq<char>, list: Seq<Escape>, n: int) -> Option<
    (Seq<char>, int),
>
    decreases n,
{
    if n <= 0 {
        Some((t, 0))
    } else {
        match apply_escapes(t, list, n - 1) {
            Some((cur, delta)) => apply_escape(cur, delta, list[n - 1].0, list[n - 1].1),
            None => None,
        }
    }
}

/// The path with its escapes decoded; `None` where an escape cannot be applied.
pub open spec fn decode_path(t: Seq<char>) -> Option<Seq<char>> {
    match apply_escapes(t, escapes(t), escapes(t).len() as int) {
        Some((p, _)) => Some(p),
        None => None,
    }
}

/// The escapes held in two parallel vectors.
pub open spec fn escape_list(starts: Seq<usize>, chunks: Seq<Vec<u8>>) -> Seq<Escape> {
    Seq::new(starts.len(), |j: int| (starts[j] as int, chunks[j]@))
}

/// The escapes of the path `t`, as parallel vectors of positions and bytes.
fn scan_exec(t: &Vec<char>) -> (r: (Vec<usize>, Vec<Vec<u8>>))
    ensures
        r.0.len() == r.1.len(),
        escape_list(r.0@, r.1@) == escapes(t@),
{
    let mut starts: Vec<usize> = Vec::new();
    let mut chunks: Vec<Vec<u8>> = Vec::new();
    let mut has_cur = false;
    let mut cur_start: usize = 0;
    let mut cur_bytes: Vec<u8> = Vec::new();
    let mut unicode: Vec<char> = Vec::new();
    let mut ulen: usize = 0;
    let mut space = true;
    let mut i: usize = 0;
    assert(escape_list(starts@, chunks@) =~= Seq::<Escape>::empty());
    while i < t.len()
        invariant
            i <= t.len(),
            starts.len() == chunks.len(),
            scan(t@, i as int).0 == escape_list(starts@, chunks@) + (if has_cur {
                seq![(cur_start as int, cur_bytes@)]
            } else {
                Seq::<Escape>::empty()
            }),
            !has_cur ==> starts.len() == 0,
            scan(t@, i as int).1 == unicode@,
            scan(t@, i as int).2 == space,
            ulen == blen(unicode@),
            ulen <= 5,
        decreases t.len() - i,
    {
        let ch = t[i];
        let ghost st = scan(t@, i as int);
        let ghost old_list = escape_list(starts@, chunks@);
        assert(scan(t@, i + 1) == scan_step(st, i as int, ch));
        if ch == '%' {
            if space {
                if has_cur {
                    starts.push(cur_start);
                    chunks.push(cur_bytes);
                    assert(escape_list(starts@, chunks@) =~= old_list.push(
                        (cur_start as int, chunks@.last()@),
                    ));
                }
                has_cur = true;
                cur_start = i;
                cur_bytes = Vec::new();
                assert(cur_bytes@ =~= Seq::<u8>::empty());
            }
            unicode = Vec::new();
            ulen = 0;
            assert(unicode@ =~= Seq::<char>::empty());
            assert(scan(t@, i + 1).0 =~= escape_list(starts@, chunks@) + (if has_cur {
                seq![(cur_start as int, cur_bytes@)]
            } else {
                Seq::<Escape>::empty()
            }));
        } else if !has_cur {
        } else if ulen < 2 {
            let ghost old_bytes = cur_bytes@;
            unicode.push(ch);
            proof {
                lemma_blen_push(st.1, ch);
            }
            ulen = ulen + char_width_exec(ch);
            space = false;
            if ulen == 2 {
                match parse_hex_u8_exec(&unicode) {
                    Some(h) => {
                        cur_bytes.push(h);
                    },
                    None => {},
                }
            }
            assert(scan(t@, i + 1).0 =~= escape_list(starts@, chunks@) + seq![
                (cur_start as int, cur_bytes@),
            ]);
        } else {
            space = true;
        }
        i += 1;
    }
    if has_cur {
        let ghost old_list = escape_list(starts@, chunks@);
        starts.push(cur_start);
        chunks.push(cur_bytes);
        assert(escape_list(starts@, chunks@) =~= old_list.push((cur_start as int, chunks@.last()@)));
    }
    assert(escape_list(starts@, chunks@) =~= escapes(t@));
    (starts, chunks)
}

/// The character index whose encoding starts at byte `f` of `s`.
fn char_index_at_byte_exec(s: &Vec<char>, f: usize) -> (r: Option<usize>)
    ensures
        r matches Some(k) ==> char_index_at_byte(s@, f as int, 0) == Some(k as int),
        r is None ==> char_index_at_byte(s@, f as int, 0) is None,
{
    let mut k: usize = 0;
    let mut acc: usize = 0;
    assert(s@.take(0) =~= Seq::<char>::empty());
    loop
        invariant
            k <= s.len(),
            acc == blen(s@.take(k as int)),
            char_index_at_byte(s@, f as int, 0) == char_index_at_byte(s@, f as int, k as int),
        decreases s.len() - k,
    {
        if acc == f {
            return Some(k);
        }
        if k >= s.len() || acc > f {
            return None;
        }
        let w = char_width_exec(s[k]);
        proof {
            lemma_blen_take_step(s@, k as int);
        }
        if w > f - acc {
            assert(char_index_at_byte(s@, f as int, k + 1) is None);
            return None;
        }
        acc = acc + w;
        k = k + 1;
    }
}

/// The path after the escapes in `starts`/`chunks` have been applied in order.
fn apply_escapes_exec(t: &Vec<char>, starts: &Vec<usize>, chunks: &Vec<Vec<u8>>) -> (r: Option<
    Vec<char>,
>)
    requires
        starts.len() == chunks.len(),
    ensures
        ({
            let list = escape_list(starts@, chunks@);
            match apply_escapes(t@, list, list.len() as int) {
                Some((p, _)) => r matches Some(q) && q@ == p,
                None => r is None,
            }
        }),
{
    let ghost list = escape_list(starts@, chunks@);
    let mut cur: Vec<char> = t.clone();
    let mut delta: usize = 0;
    let mut j: usize = 0;
    while j < starts.len()
        invariant
            starts.len() == chunks.len(),
            list == escape_list(starts@, chunks@),
            j <= starts.len(),
            apply_escapes(t@, list, j as int) == Some((cur@, delta as int)),
        decreases starts.len() - j,
    {
        let ghost prev = cur@;
        assert(apply_escapes(t@, list, j + 1) == apply_escape(
            prev,
            delta as int,
            list[j as int].0,
            list[j as int].1,
        ));
        assert(list[j as int] == (starts@[j as int] as int, chunks@[j as int]@));
        let hex: Vec<u8> = chunks[j].clone();
        let hex_len = hex.len();
        assert(hex@ == chunks@[j as int]@);
        match utf8_to_string(hex) {
            None => {},
            Some(s) => {
                let text = chars_of(s.as_str());
                proof {
                    decode_utf8_encode_utf8(chunks@[j as int]@);
                }
                assert(blen(text@) == hex_len);
                let a = match hex_len.checked_mul(3) {
                    Some(a) => a,
                    None => {
                        proof {
                            lemma_apply_none_stays(t@, list, j + 1, list.len() as int);
                        }
                        return None;
                    },
                };
                let from = starts[j];
                if from < delta {
                    proof {
                            lemma_apply_none_stays(t@, list, j + 1, list.len() as int);
                        }
                        return None;
                }
                let f = from - delta;
                let k = match char_index_at_byte_exec(&cur, f) {
                    Some(k) => k,
                    None => {
                        proof {
                            lemma_apply_none_stays(t@, list, j + 1, list.len() as int);
                        }
                        return None;
                    },
                };
                proof {
                    lemma_char_index_at_byte(prev, f as int, 0);
                }
                if a > cur.len() - k {
                    proof {
                            lemma_apply_none_stays(t@, list, j + 1, list.len() as int);
                        }
                        return None;
                }
                let head = subvec(&cur, 0, k);
                let tail = subvec(&cur, k + a, cur.len());
                let mid = concat_chars(&head, &text);
                cur = concat_chars(&mid, &tail);
                assert(head@ =~= prev.take(k as int));
                assert(tail@ =~= prev.skip(k + a));
                delta = a - hex_len;
            },
        }
        j += 1;
    }
    Some(cur)
}

/// Once an escape cannot be applied, none of the later ones helps.
proof fn lemma_apply_none_stays(t: Seq<char>, list: Seq<Escape>, m: int, n: int)
    requires
        0 <= m <= n,
        apply_escapes(t, list, m) is None,
    ensures
        apply_escapes(t, list, n) is None,
    decreases n - m,
{
    if m < n {
        lemma_apply_none_stays(t, list, m, n - 1);
    }
}

proof fn lemma_char_index_at_byte(s: Seq<char>, f: int, k: int)
    requires
        0 <= k <= s.len(),
    ensures
        char_index_at_byte(s, f, k) matches Some(m) ==> k <= m <= s.len() && blen(s.take(m))
            == f,
    decreases s.len() - k,
{
    if blen(s.take(k)) == f {
    } else if k >= s.len() || blen(s.take(k)) > f {
    } else {
        lemma_char_index_at_byte(s, f, k + 1);
    }
}

/// The path with its escapes decoded; `None` where an escape cannot be applied.
pub fn decode_path_exec(t: &Vec<char>) -> (r: Option<Vec<char>>)
    ensures
        match decode_path(t@) {
            Some(p) => r matches Some(q) && q@ == p,
            None => r is None,
        },
{
    let (starts, chunks) = scan_exec(t);
    apply_escapes_exec(t, &starts, &chunks)
}

// ---------------------------------------------------------------------------
// The whole request
// ---------------------------------------------------------------------------

pub open spec fn host_prefix() -> Seq<char> {
    seq!['H', 'o', 's', 't', ':']
}

pub open spec fn host_sep() -> Seq<char> {
    seq!['H', 'o', 's', 't', ':', ' ']
}

/// The host named by a `Host:` line: what follows the first `Host: `, or the whole
/// line where there is none.
pub open spec fn host_value(line: Seq<char>) -> Seq<char> {
    split_once(line, host_sep()).last()
}

/// A request before any line is read.
pub open spec fn empty_request() -> RequestView {
    RequestView {
        method: MethodView::Custom(Seq::empty()),
        path: Seq::empty(),
        host: Seq::empty(),
        version: Seq::empty(),
        headers: Seq::empty(),
    }
}

/// The request line: the method before the first space; after it the path, then
/// the version as the longest suffix of version characters. Without a space the
/// request is left as it is.
pub open spec fn first_line(r: RequestView, line: Seq<char>) -> Option<RequestView> {
    match find(line, seq![' ']) {
        None => Some(r),
        Some(k) => {
            let rest = line.skip(k + 1);
            let vs = version_start(rest, rest.len() as int);
            match decode_path(trim(rest.take(vs))) {
                Some(p) => Some(
                    RequestView {
                        method: method_from(line.take(k)),
                        path: p,
                        version: rest.skip(vs),
                        ..r
                    },
                ),
                None => None,
            }
        },
    }
}

/// One line of the request; `seen` tells whether the request line was read.
pub open spec fn line_step(r: RequestView, seen: bool, line: Seq<char>) -> Option<
    (RequestView, bool),
> {
    if line.len() == 0 {
        Some((r, seen))
    } else if !seen {
        match first_line(r, line) {
            Some(r2) => Some((r2, true)),
            None => None,
        }
    } else if starts_with(line, host_prefix()) {
        Some((RequestView { host: host_value(line), ..r }, true))
    } else {
        Some((RequestView { headers: r.headers.push(line), ..r }, true))
    }
}

/// The request after the first `n` lines.
pub open spec fn parse_lines(ls: Seq<Seq<char>>, n: int) -> Option<(RequestView, bool)>
    decreases n,
{
    if n <= 0 {
        Some((empty_request(), false))
    } else {
        match parse_lines(ls, n - 1) {
            Some((r, seen)) => line_step(r, seen, ls[n - 1]),
            None => None,
        }
    }
}

/// The request that a text describes; `None` where its path cannot be decoded.
pub open spec fn parse_request(s: Seq<char>) -> Option<RequestView> {
    match parse_lines(lines(s), lines(s).len() as int) {
        Some((r, _)) => Some(r),
        None => None,
    }
}


// ---------------------------------------------------------------------------
// Headers and routes
// ---------------------------------------------------------------------------

pub open spec fn colon_space() -> Seq<char> {
    seq![':', ' ']
}

/// The header name looked for: `header_name` without one trailing `:`.
pub open spec fn header_key(name: Seq<char>) -> Seq<char> {
    if ends_with(name, seq![':']) {
        name.drop_last()
    } else {
        name
    }
}

/// The value of the first header from index `i` on whose name (the text before
/// the first `: `) is `name`. The outer `None` stands where the lookup cannot
/// answer: the first header that matches is the bare name, without `: ` or value.
pub open spec fn header_lookup(hs: Seq<Seq<char>>, name: Seq<char>, i: int) -> Option<
    Option<Seq<char>>,
>
    decreases hs.len() - i,
{
    if i < 0 || i >= hs.len() {
        Some(None)
    } else {
        let parts = split_once(hs[i], colon_space());
        if parts[0] == name {
            if parts.len() == 2 {
                Some(Some(parts[1]))
            } else {
                None
            }
        } else {
            header_lookup(hs, name, i + 1)
        }
    }
}

/// The state of reading a route pattern: the variable names (the last one being
/// filled) and the literal pieces between them (the last one being filled).
pub type PatternState = (Seq<Seq<char>>, Seq<Seq<char>>);

pub open spec fn pattern_step(st: PatternState, ch: char) -> PatternState {
    let (vars, slices) = st;
    let lv = vars.len() - 1;
    let ls = slices.len() - 1;
    if ch == '{' {
        (vars.update(lv, vars.last().push(ch)), slices.push(Seq::empty()))
    } else if ch == '}' {
        (vars.update(lv, vars.last().push(ch)).push(Seq::empty()), slices)
    } else if vars.last().len() == 0 {
        (vars, slices.update(ls, slices.last().push(ch)))
    } else {
        (vars.update(lv, vars.last().push(ch)), slices)
    }
}

/// The pattern state after the first `n` characters of the route `o`.
pub open spec fn pattern_scan(o: Seq<char>, n: int) -> PatternState
    decreases n,
{
    if n <= 0 {
        (seq![Seq::empty()], seq![Seq::empty()])
    } else {
        pattern_step(pattern_scan(o, n - 1), o[n - 1])
    }
}

/// The variable names of a route, each with its braces, such as `{user}`.
pub open spec fn route_variables(o: Seq<char>) -> Seq<Seq<char>> {
    pattern_scan(o, o.len() as int).0.drop_last()
}

/// The literal pieces of a route, in order.
pub open spec fn route_slices(o: Seq<char>) -> Seq<Seq<char>> {
    pattern_scan(o, o.len() as int).1
}

/// The non-empty sequences of `parts`, in order.
pub open spec fn nonempty_parts(parts: Seq<Seq<char>>) -> Seq<Seq<char>>
    decreases parts.len(),
{
    if parts.len() == 0 {
        parts
    } else if parts.last().len() == 0 {
        nonempty_parts(parts.drop_last())
    } else {
        nonempty_parts(parts.drop_last()).push(parts.last())
    }
}

/// Takes each literal piece out of the path in turn: the path must contain it,
/// and what stands before and after its first occurrence is kept, joined by a
/// space. `None` where a piece is missing.
pub open spec fn consume(sp: Seq<char>, slices: Seq<Seq<char>>, i: int) -> Option<Seq<char>>
    decreases slices.len() - i,
{
    if i < 0 || i >= slices.len() {
        Some(sp)
    } else if !contains(sp, slices[i]) {
        None
    } else {
        consume(join(nonempty_parts(split_once(sp, slices[i])), seq![' ']), slices, i + 1)
    }
}

/// Matching a request path against a route. A plain route matches the equal path
/// and binds nothing. A route with variables matches where every literal piece is
/// found in turn; the rest of the path, split at spaces, gives the variables their
/// values in order (an empty value where there are fewer parts than variables).
pub open spec fn compare_path_spec(path: Seq<char>, is_variable_path: bool, other: Seq<char>) -> (
    bool,
    Option<Seq<(Seq<char>, Seq<char>)>>,
) {
    if !is_variable_path {
        (path == other, None)
    } else {
        match consume(path, route_slices(other), 0) {
            None => (false, None),
            Some(rest) => {
                let names = route_variables(other);
                let vals = split_all(rest, seq![' ']);
                (
                    true,
                    Some(
                        Seq::new(
                            names.len(),
                            |i: int|
                                (
                                    names[i],
                                    if i < vals.len() {
                                        vals[i]
                                    } else {
                                        Seq::empty()
                                    },
                                ),
                        ),
                    ),
                )
            },
        }
    }
}

/// The character sequences of a vector of string pairs.
pub open spec fn pair_views(v: Seq<(String, String)>) -> Seq<(Seq<char>, Seq<char>)> {
    v.map_values(|x: (String, String)| (x.0@, x.1@))
}

// ---------------------------------------------------------------------------
// Executable parsing
// ---------------------------------------------------------------------------

/// A request while its lines are read.
struct ParseState {
    method: HttpMethod,
    path: Vec<char>,
    host: Vec<char>,
    version: Vec<char>,
    headers: Vec<Vec<char>>,
}

impl View for ParseState {
    type V = RequestView;

    closed spec fn view(&self) -> RequestView {
        RequestView {
            method: self.method@,
            path: self.path@,
            host: self.host@,
            version: self.version@,
            headers: views(self.headers@),
        }
    }
}

/// Reads the request line into `st`; false where its path cannot be decoded.
fn first_line_exec(st: &mut ParseState, line: &Vec<char>) -> (ok: bool)
    ensures
        ok == first_line(old(st)@, line@) is Some,
        ok ==> final(st)@ == first_line(old(st)@, line@).unwrap(),
{
    let sp: Vec<char> = vec![' '];
    assert(sp@ =~= seq![' ']);
    proof {
        lemma_find_from(line@, sp@, 0);
    }
    match find_from_exec(line, &sp, 0) {
        None => true,
        Some(k) => {
            assert(k + sp@.len() <= line@.len());
            assert(sp@.len() == 1);
            assert(k + 1 <= line.len());
            let rest = subvec(line, k + 1, line.len());
            assert(rest@ =~= line@.skip(k + 1));
            let mut vs = rest.len();
            while vs > 0 && is_version_char(rest[vs - 1])
                invariant
                    vs <= rest.len(),
                    version_start(rest@, rest.len() as int) == version_start(rest@, vs as int),
                decreases vs,
            {
                vs -= 1;
            }
            let b = subvec(&rest, 0, vs);
            let version = subvec(&rest, vs, rest.len());
            assert(b@ =~= rest@.take(vs as int));
            assert(version@ =~= rest@.skip(vs as int));
            let t = trim_exec(&b);
            match decode_path_exec(&t) {
                None => false,
                Some(p) => {
                    let name = subvec(line, 0, k);
                    assert(name@ =~= line@.take(k as int));
                    st.method = HttpMethod::from_string(string_of(&name));
                    st.path = p;
                    st.version = version;
                    true
                },
            }
        },
    }
}

/// Whether `c` may stand in the version at the end of the request line.
fn is_version_char(c: char) -> (b: bool)
    ensures
        b == version_char(c),
{
    is_numeric_char(c) || c == '/' || c == 'H' || c == 'T' || c == 'P' || c == '.'
}

/// The host named by a `Host:` line.
fn host_value_exec(line: &Vec<char>) -> (h: Vec<char>)
    ensures
        h@ == host_value(line@),
{
    let sep: Vec<char> = vec!['H', 'o', 's', 't', ':', ' '];
    assert(sep@ =~= host_sep());
    proof {
        lemma_find_from(line@, sep@, 0);
    }
    match find_from_exec(line, &sep, 0) {
        Some(k) => {
            assert(k + sep@.len() <= line@.len());
            assert(sep@.len() == 6);
            assert(k + 6 <= line.len());
            let h = subvec(line, k + 6, line.len());
            assert(h@ =~= line@.skip(k + 6));
            h
        },
        None => line.clone(),
    }
}

/// Once a line cannot be read, the request cannot be.
proof fn lemma_parse_none_stays(ls: Seq<Seq<char>>, m: int, n: int)
    requires
        0 <= m <= n,
        parse_lines(ls, m) is None,
    ensures
        parse_lines(ls, n) is None,
    decreases n - m,
{
    if m < n {
        lemma_parse_none_stays(ls, m, n - 1);
    }
}

/// Strings from character vectors.
fn strings_of(v: &Vec<Vec<char>>) -> (r: Vec<String>)
    ensures
        string_views(r@) == views(v@),
{
    let mut r: Vec<String> = Vec::new();
    let mut i: usize = 0;
    while i < v.len()
        invariant
            i <= v.len(),
            string_views(r@) == views(v@).take(i as int),
        decreases v.len() - i,
    {
        let s = string_of(&v[i]);
        let ghost before = r@;
        r.push(s);
        assert(r@ == before.push(s));
        assert(string_views(r@) =~= string_views(before).push(s@));
        i += 1;
        assert(string_views(r@) =~= views(v@).take(i as int));
    }
    assert(views(v@).take(v.len() as int) =~= views(v@));
    r
}

impl HttpRequest {
    /// Parses the text of a request. `None` exactly where the path cannot be
    /// decoded (a `%`-escape whose position cannot be edited in the path).
    pub fn parse(request_string: &String) -> (r: Option<HttpRequest>)
        ensures
            match parse_request(request_string@) {
                Some(v) => r matches Some(q) && q@ == v,
                None => r is None,
            },
    {
        let chars = chars_of(request_string.as_str());
        let ls = lines_exec(&chars);
        let ghost lv = views(ls@);
        let host_start: Vec<char> = vec!['H', 'o', 's', 't', ':'];
        assert(host_start@ =~= host_prefix());
        let mut st = ParseState {
            method: HttpMethod::Custom(String::new()),
            path: Vec::new(),
            host: Vec::new(),
            version: Vec::new(),
            headers: Vec::new(),
        };
        assert(st@ == empty_request()) by {
            assert(st.path@ =~= Seq::<char>::empty());
            assert(views(st.headers@) =~= Seq::<Seq<char>>::empty());
        }
        let mut seen = false;
        let mut i: usize = 0;
        while i < ls.len()
            invariant
                i <= ls.len(),
                lv == views(ls@),
                lv == lines(chars@),
                chars@ == request_string@,
                host_start@ == host_prefix(),
                parse_lines(lv, i as int) == Some((st@, seen)),
            decreases ls.len() - i,
        {
            let line = &ls[i];
            assert(lv[i as int] == line@);
            assert(parse_lines(lv, i + 1) == line_step(st@, seen, line@));
            if line.len() == 0 {
            } else if !seen {
                if !first_line_exec(&mut st, line) {
                    proof {
                        lemma_parse_none_stays(lv, i + 1, lv.len() as int);
                    }
                    return None;
                }
                seen = true;
            } else if starts_with_exec(line, &host_start) {
                st.host = host_value_exec(line);
            } else {
                let ghost before = views(st.headers@);
                st.headers.push(line.clone());
                assert(views(st.headers@) =~= before.push(line@));
            }
            i += 1;
        }
        let headers = strings_of(&st.headers);
        let ParseState { method, path, host, version, headers: _ } = st;
        let req = HttpRequest {
            headers,
            method,
            path: string_of(&path),
            host: string_of(&host),
            http_version: string_of(&version),
        };
        Some(req)
    }

    /// Parses the text of a request whose path can be decoded.
    pub fn new(request_string: &String) -> (r: HttpRequest)
        requires
            parse_request(request_string@) is Some,
        ensures
            r@ == parse_request(request_string@).unwrap(),
    {
        match HttpRequest::parse(request_string) {
            Some(r) => r,
            None => {
                assert(false);
                HttpRequest {
                    headers: Vec::new(),
                    method: HttpMethod::GET,
                    path: String::new(),
                    host: String::new(),
                    http_version: String::new(),
                }
            },
        }
    }

    pub fn get_http_version(&self) -> (r: &String)
        ensures
            r@ == self@.version,
    {
        &self.http_version
    }

    pub fn get_headers(&self) -> (r: &Vec<String>)
        ensures
            string_views(r@) == self@.headers,
    {
        &self.headers
    }

    pub fn get_path(&self) -> (r: &String)
        ensures
            r@ == self@.path,
    {
        &self.path
    }

    pub fn get_host(&self) -> (r: &String)
        ensures
            r@ == self@.host,
    {
        &self.host
    }

    pub fn get_method(&self) -> (r: &HttpMethod)
        ensures
            r@ == self@.method,
    {
        &self.method
    }

    /// The value of the first header named `header_name` (a trailing `:` on the
    /// name is ignored), where the first header of that name is not the bare name.
    pub fn get_header(&self, header_name: String) -> (r: Option<String>)
        requires
            header_lookup(self@.headers, header_key(header_name@), 0) is Some,
        ensures
            match header_lookup(self@.headers, header_key(header_name@), 0).unwrap() {
                Some(v) => r matches Some(s) && s@ == v,
                None => r is None,
            },
    {
        let mut name = chars_of(header_name.as_str());
        let colon: Vec<char> = vec![':'];
        assert(colon@ =~= seq![':']);
        let ghost full = name@;
        if name.len() > 0 && name[name.len() - 1] == ':' {
            name.pop();
            assert(name@ =~= full.drop_last());
            assert(ends_with(full, seq![':'])) by {
                assert(full.skip(full.len() - 1) =~= seq![':']);
            }
        } else {
            assert(!ends_with(full, seq![':'])) by {
                if full.len() >= 1 {
                    assert(full.skip(full.len() - 1)[0] == full.last());
                }
            }
        }
        assert(name@ == header_key(header_name@));
        let sep: Vec<char> = vec![':', ' '];
        assert(sep@ =~= colon_space());
        let ghost hs = self@.headers;
        let mut i: usize = 0;
        while i < self.headers.len()
            invariant
                i <= self.headers.len(),
                hs == string_views(self.headers@),
                sep@ == colon_space(),
                hs == self@.headers,
                name@ == header_key(header_name@),
                header_lookup(hs, name@, 0) is Some,
                header_lookup(hs, name@, 0) == header_lookup(hs, name@, i as int),
            decreases self.headers.len() - i,
        {
            let h = chars_of(self.headers[i].as_str());
            assert(h@ == hs[i as int]);
            proof {
                lemma_find_from(h@, sep@, 0);
            }
            match find_from_exec(&h, &sep, 0) {
                Some(k) => {
                    assert(k + 2 <= h.len());
                    let key = subvec(&h, 0, k);
                    assert(key@ =~= h@.take(k as int));
                    if chars_eq(&key, &name) {
                        let value = subvec(&h, k + 2, h.len());
                        assert(value@ =~= h@.skip(k + 2));
                        assert(split_once(h@, sep@) == seq![key@, value@]);
                        assert(header_lookup(hs, name@, i as int) == Some(Some(value@)));
                        return Some(string_of(&value));
                    }
                },
                None => {
                    if chars_eq(&h, &name) {
                        assert(header_lookup(hs, name@, i as int) is None);
                        assert(false);
                    }
                },
            }
            i += 1;
        }
        None
    }

    /// Whether the request path matches the route `other_path`, and the values of
    /// the route's variables where it has them.
    pub fn compare_path(&self, is_variable_path: bool, other_path: String) -> (r: (
        bool,
        Option<Vec<(String, String)>>,
    ))
        ensures
            r.0 == compare_path_spec(self@.path, is_variable_path, other_path@).0,
            match compare_path_spec(self@.path, is_variable_path, other_path@).1 {
                Some(vs) => r.1 matches Some(v) && pair_views(v@) == vs,
                None => r.1 is None,
            },
    {
        if !is_variable_path {
            return (self.path == other_path, None);
        }
        let o = chars_of(other_path.as_str());
        let mut done_vars: Vec<Vec<char>> = Vec::new();
        let mut cur_var: Vec<char> = Vec::new();
        let mut done_slices: Vec<Vec<char>> = Vec::new();
        let mut cur_slice: Vec<char> = Vec::new();
        let mut i: usize = 0;
        assert(pattern_scan(o@, 0) =~= (
            views(done_vars@).push(cur_var@),
            views(done_slices@).push(cur_slice@),
        ));
        while i < o.len()
            invariant
                i <= o.len(),
                pattern_scan(o@, i as int) == (
                    views(done_vars@).push(cur_var@),
                    views(done_slices@).push(cur_slice@),
                ),
            decreases o.len() - i,
        {
            let ch = o[i];
            let ghost st = pattern_scan(o@, i as int);
            let ghost dv = views(done_vars@);
            let ghost ds = views(done_slices@);
            assert(pattern_scan(o@, i + 1) == pattern_step(st, ch));
            if ch == '{' {
                cur_var.push(ch);
                done_slices.push(cur_slice);
                cur_slice = Vec::new();
                assert(views(done_slices@) =~= ds.push(st.1.last()));
                assert(pattern_scan(o@, i + 1).0 =~= views(done_vars@).push(cur_var@));
                assert(pattern_scan(o@, i + 1).1 =~= views(done_slices@).push(cur_slice@));
            } else if ch == '}' {
                cur_var.push(ch);
                done_vars.push(cur_var);
                cur_var = Vec::new();
                assert(views(done_vars@) =~= dv.push(done_vars@.last()@));
                assert(pattern_scan(o@, i + 1).0 =~= views(done_vars@).push(cur_var@));
                assert(pattern_scan(o@, i + 1).1 =~= views(done_slices@).push(cur_slice@));
            } else if cur_var.len() == 0 {
                cur_slice.push(ch);
                assert(pattern_scan(o@, i + 1).0 =~= views(done_vars@).push(cur_var@));
                assert(pattern_scan(o@, i + 1).1 =~= views(done_slices@).push(cur_slice@));
            } else {
                cur_var.push(ch);
                assert(pattern_scan(o@, i + 1).0 =~= views(done_vars@).push(cur_var@));
                assert(pattern_scan(o@, i + 1).1 =~= views(done_slices@).push(cur_slice@));
            }
            i += 1;
        }
        assert(route_variables(o@) =~= views(done_vars@));
        let ghost ds = views(done_slices@);
        done_slices.push(cur_slice);
        assert(views(done_slices@) =~= ds.push(done_slices@.last()@));
        assert(route_slices(o@) == views(done_slices@));
        let slices = done_slices;
        let space: Vec<char> = vec![' '];
        assert(space@ =~= seq![' ']);
        let mut sp = chars_of(self.path.as_str());
        let mut j: usize = 0;
        while j < slices.len()
            invariant
                j <= slices.len(),
                space@ == seq![' '],
                route_slices(o@) == views(slices@),
                o@ == other_path@,
                is_variable_path,
                consume(self@.path, views(slices@), 0) == consume(sp@, views(slices@), j as int),
            decreases slices.len() - j,
        {
            let part = &slices[j];
            assert(views(slices@)[j as int] == part@);
            proof {
                lemma_find_from(sp@, part@, 0);
            }
            match find_from_exec(&sp, part, 0) {
                None => {
                    return (false, None);
                },
                Some(k) => {
                    let pl = part.len();
                    assert(k + pl <= sp.len());
                    let before = subvec(&sp, 0, k);
                    let after = subvec(&sp, k + pl, sp.len());
                    assert(before@ =~= sp@.take(k as int));
                    assert(after@ =~= sp@.skip(k + part@.len()));
                    let ghost pieces = split_once(sp@, part@);
                    assert(pieces == seq![before@, after@]);
                    let mut kept: Vec<Vec<char>> = Vec::new();
                    let bl = before.len();
                    let al = after.len();
                    if bl > 0 {
                        kept.push(before);
                    }
                    if al > 0 {
                        kept.push(after);
                    }
                    proof {
                        reveal_with_fuel(nonempty_parts, 3);
                        assert(pieces.drop_last() =~= seq![pieces[0]]);
                        assert(seq![pieces[0]].drop_last() =~= Seq::<Seq<char>>::empty());
                        assert(views(kept@) =~= nonempty_parts(pieces));
                    }
                    sp = join_exec(&kept, &space);
                },
            }
            j += 1;
        }
        let vals = split_all_exec(&sp, &space);
        let mut vars: Vec<(String, String)> = Vec::new();
        let mut t: usize = 0;
        let ghost names = views(done_vars@);
        let ghost vv = views(vals@);
        while t < done_vars.len()
            invariant
                t <= done_vars.len(),
                names == views(done_vars@),
                vv == views(vals@),
                pair_views(vars@) =~= Seq::new(
                    t as nat,
                    |m: int|
                        (
                            names[m],
                            if m < vv.len() {
                                vv[m]
                            } else {
                                Seq::empty()
                            },
                        ),
                ),
            decreases done_vars.len() - t,
        {
            let name = string_of(&done_vars[t]);
            let value = if t < vals.len() {
                string_of(&vals[t])
            } else {
                String::new()
            };
            let ghost before = vars@;
            vars.push((name, value));
            assert(vars@ == before.push((name, value)));
            assert(pair_views(vars@) =~= pair_views(before).push((name@, value@)));
            t += 1;
        }
        (true, Some(vars))
    }
}


// ---------------------------------------------------------------------------
// Laws
// ---------------------------------------------------------------------------

proof fn lemma_scan_without_percent(t: Seq<char>, n: int)
    requires
        0 <= n <= t.len(),
        forall|i: int| 0 <= i < t.len() ==> t[i] != '%',
    ensures
        scan(t, n) == (Seq::<Escape>::empty(), Seq::<char>::empty(), true),
    decreases n,
{
    if n > 0 {
        lemma_scan_without_percent(t, n - 1);
    }
}

/// A path without `%` is left as it is.
pub proof fn law_path_without_escapes(t: Seq<char>)
    requires
        forall|i: int| 0 <= i < t.len() ==> t[i] != '%',
    ensures
        decode_path(t) == Some(t),
{
    lemma_scan_without_percent(t, t.len() as int);
}

proof fn lemma_pattern_without_braces(o: Seq<char>, n: int)
    requires
        0 <= n <= o.len(),
        forall|i: int| 0 <= i < o.len() ==> o[i] != '{' && o[i] != '}',
    ensures
        pattern_scan(o, n) == (seq![Seq::<char>::empty()], seq![o.take(n)]),
    decreases n,
{
    if n > 0 {
        lemma_pattern_without_braces(o, n - 1);
        assert(o.take(n - 1).push(o[n - 1]) =~= o.take(n));
        assert(seq![o.take(n - 1)].update(0, o.take(n - 1).push(o[n - 1])) =~= seq![o.take(n)]);
    } else {
        assert(o.take(0) =~= Seq::<char>::empty());
    }
}

/// A route with variables but without braces matches exactly the paths that
/// contain it, and binds no variable.
pub proof fn law_route_without_variables(path: Seq<char>, o: Seq<char>)
    requires
        forall|i: int| 0 <= i < o.len() ==> o[i] != '{' && o[i] != '}',
    ensures
        compare_path_spec(path, true, o).0 == contains(path, o),
        compare_path_spec(path, true, o).1 == (if contains(path, o) {
            Some(Seq::<(Seq<char>, Seq<char>)>::empty())
        } else {
            None
        }),
{
    lemma_pattern_without_braces(o, o.len() as int);
    assert(o.take(o.len() as int) =~= o);
    assert(route_slices(o) == seq![o]);
    assert(route_variables(o) =~= Seq::<Seq<char>>::empty());
    if contains(path, o) {
        let rest = join(nonempty_parts(split_once(path, o)), seq![' ']);
        assert(consume(path, seq![o], 0) == consume(rest, seq![o], 1));
        let vs = compare_path_spec(path, true, o).1.unwrap();
        assert(vs =~= Seq::<(Seq<char>, Seq<char>)>::empty());
    }
}

/// A plain route matches exactly the equal path, and binds nothing.
pub proof fn law_plain_route(path: Seq<char>, o: Seq<char>)
    ensures
        compare_path_spec(path, false, o) == (path == o, None::<Seq<(Seq<char>, Seq<char>)>>),
{
}

/// Every header line is kept whole.
pub open spec fn is_header_line(ls: Seq<Seq<char>>, n: int, h: Seq<char>) -> bool {
    exists|j: int| 0 <= j < n && ls[j] == h && h.len() > 0 && !starts_with(h, host_prefix())
}

proof fn lemma_headers_are_lines(ls: Seq<Seq<char>>, n: int)
    requires
        0 <= n <= ls.len(),
    ensures
        parse_lines(ls, n) matches Some((r, _)) ==> forall|k: int|
            0 <= k < r.headers.len() ==> is_header_line(ls, n, #[trigger] r.headers[k]),
    decreases n,
{
    if n > 0 {
        lemma_headers_are_lines(ls, n - 1);
        if let Some((r0, seen)) = parse_lines(ls, n - 1) {
            if let Some((r, _)) = parse_lines(ls, n) {
                let line = ls[n - 1];
                assert forall|k: int| 0 <= k < r.headers.len() implies is_header_line(
                    ls,
                    n,
                    #[trigger] r.headers[k],
                ) by {
                    if k < r0.headers.len() {
                        assert(r.headers[k] == r0.headers[k]);
                        assert(is_header_line(ls, n - 1, r0.headers[k]));
                        let j = choose|j: int|
                            0 <= j < n - 1 && ls[j] == r0.headers[k] && r0.headers[k].len() > 0
                                && !starts_with(r0.headers[k], host_prefix());
                        assert(0 <= j < n && ls[j] == r.headers[k]);
                    } else {
                        assert(r.headers[k] == line);
                        assert(ls[n - 1] == r.headers[k]);
                    }
                }
            }
        }
    }
}

/// Every header of a parsed request is one whole non-empty line of the text that
/// is not a `Host:` line: the `Host:` lines set the host and are not headers.
pub proof fn law_headers_are_lines(s: Seq<char>)
    ensures
        parse_request(s) matches Some(r) ==> forall|k: int|
            0 <= k < r.headers.len() ==> is_header_line(
                lines(s),
                lines(s).len() as int,
                #[trigger] r.headers[k],
            ),
{
    lemma_headers_are_lines(lines(s), lines(s).len() as int);
}


/// Whether `c` is a hexadecimal digit, in either case.
pub open spec fn is_hex_char(c: char) -> bool {
    ('0' <= c && c <= '9') || ('a' <= c && c <= 'f') || ('A' <= c && c <= 'F')
}

/// Hexadecimal digits have their usual values, and only they have one.
pub proof fn law_hex_digit_values(c: char)
    ensures
        '0' <= c <= '9' ==> hex_digit(c) == Some((c as nat - '0' as nat) as nat),
        'a' <= c <= 'f' ==> hex_digit(c) == Some((c as nat - 'a' as nat + 10) as nat),
        'A' <= c <= 'F' ==> hex_digit(c) == Some((c as nat - 'A' as nat + 10) as nat),
        is_hex_char(c) <==> hex_digit(c) is Some,
        hex_digit(c) matches Some(v) ==> v < 16,
{
}

/// A lower-case hexadecimal letter has the value of the same letter in upper case.
pub proof fn law_hex_digit_case(lower: char, upper: char)
    requires
        'a' <= lower <= 'f',
        upper as u32 + 32 == lower as u32,
    ensures
        hex_digit(lower) is Some,
        hex_digit(lower) == hex_digit(upper),
{
}

/// Two hexadecimal digits, in either case, give the byte they spell.
pub proof fn law_hex_pair(a: char, b: char)
    requires
        is_hex_char(a),
        is_hex_char(b),
    ensures
        parse_hex_u8(seq![a, b]) == Some(
            (16 * hex_digit(a).unwrap() + hex_digit(b).unwrap()) as u8,
        ),
        16 * hex_digit(a).unwrap() + hex_digit(b).unwrap() <= 255,
{
    let d = seq![a, b];
    assert(d.drop_last() =~= seq![a]);
    assert(seq![a].drop_last() =~= Seq::<char>::empty());
    assert(hex_value(Seq::<char>::empty()) == Some(0nat));
    assert(seq![a].last() == a);
    assert(d.last() == b);
    assert(hex_value(seq![a]) == Some(0 * 16 + hex_digit(a).unwrap()));
    assert(hex_value(d) == Some(16 * hex_digit(a).unwrap() + hex_digit(b).unwrap()));
}

/// The part of `h` before its first `: ` holds no `: `.
proof fn lemma_key_has_no_separator(h: Seq<char>, k: int)
    requires
        find(h, colon_space()) == Some(k),
    ensures
        find(h.take(k), colon_space()) is None,
{
    let cs = colon_space();
    lemma_find_from(h, cs, 0);
    lemma_find_from(h.take(k), cs, 0);
    if let Some(j) = find(h.take(k), cs) {
        assert(h.take(k).subrange(j, j + 2) =~= h.subrange(j, j + 2));
        assert(matches_at(h, cs, j));
        assert(false);
    }
}

/// A line `name: value`, where `name` holds no `: `, splits into that name and
/// value.
proof fn lemma_split_named(h: Seq<char>, name: Seq<char>)
    requires
        find(name, colon_space()) is None,
        starts_with(h, name + colon_space()),
    ensures
        find(h, colon_space()) == Some(name.len() as int),
        split_once(h, colon_space())[0] == name,
        split_once(h, colon_space()).len() == 2,
{
    let cs = colon_space();
    let n = name.len() as int;
    let full = name + cs;
    assert(h.take(full.len() as int) == full);
    assert(h.subrange(n, n + 2) =~= cs) by {
        assert(h[n] == full[n]);
        assert(h[n + 1] == full[n + 1]);
    }
    lemma_find_from(h, cs, 0);
    lemma_find_from(name, cs, 0);
    assert forall|j: int| 0 <= j < n implies !matches_at(h, cs, j) by {
        if matches_at(h, cs, j) {
            if j + 2 <= n {
                assert(name.subrange(j, j + 2) =~= h.subrange(j, j + 2)) by {
                    assert forall|t: int| j <= t < j + 2 implies name[t] == h[t] by {
                        assert(h[t] == full[t]);
                    }
                }
                assert(matches_at(name, cs, j));
            } else {
                assert(h.subrange(j, j + 2)[1] == h[n]);
                assert(h[n] == full[n]);
                assert(full[n] == ':');
            }
        }
    }
    assert(matches_at(h, cs, n));
    assert(h.take(n) =~= name) by {
        assert forall|t: int| 0 <= t < n implies h.take(n)[t] == name[t] by {
            assert(h[t] == full[t]);
        }
    }
}

/// A line that is exactly a name holding no `: ` splits into that name alone.
proof fn lemma_split_bare(name: Seq<char>)
    requires
        find(name, colon_space()) is None,
    ensures
        split_once(name, colon_space()) == seq![name],
{
}

/// A header that is found is the line `name: value` itself, and no earlier line
/// carries that name, with a value or bare: a line whose name merely begins with
/// `name` is never chosen.
pub proof fn law_header_found(hs: Seq<Seq<char>>, name: Seq<char>, v: Seq<char>)
    requires
        header_lookup(hs, name, 0) == Some(Some(v)),
    ensures
        exists|i: int|
            0 <= i < hs.len() && hs[i] == name + colon_space() + v && forall|j: int|
                0 <= j < i ==> hs[j] != name && !starts_with(hs[j], name + colon_space()),
{
    let i = lemma_header_found_at(hs, name, v, 0);
}

proof fn lemma_header_found_at(hs: Seq<Seq<char>>, name: Seq<char>, v: Seq<char>, i: int) -> (k: int)
    requires
        0 <= i,
        header_lookup(hs, name, i) == Some(Some(v)),
    ensures
        i <= k < hs.len(),
        hs[k] == name + colon_space() + v,
        find(name, colon_space()) is None,
        forall|j: int| i <= j < k ==> hs[j] != name && !starts_with(hs[j], name + colon_space()),
    decreases hs.len() - i,
{
    let cs = colon_space();
    let h = hs[i];
    let parts = split_once(h, cs);
    if parts[0] == name {
        let kk = find(h, cs).unwrap();
        lemma_find_from(h, cs, 0);
        lemma_key_has_no_separator(h, kk);
        assert(h.take(kk) == name);
        assert(h =~= name + cs + v) by {
            assert(h.subrange(kk, kk + 2) == cs);
            assert(h =~= h.take(kk) + h.subrange(kk, kk + 2) + h.skip(kk + 2));
        }
        i
    } else {
        let k = lemma_header_found_at(hs, name, v, i + 1);
        if h == name {
            lemma_split_bare(name);
        }
        if starts_with(h, name + cs) {
            lemma_split_named(h, name);
        }
        k
    }
}

/// A name holding no `: ` that is not found carries no line, with a value or bare.
pub proof fn law_header_absent(hs: Seq<Seq<char>>, name: Seq<char>)
    requires
        header_lookup(hs, name, 0) == Some(None::<Seq<char>>),
        find(name, colon_space()) is None,
    ensures
        forall|j: int|
            0 <= j < hs.len() ==> hs[j] != name && !starts_with(hs[j], name + colon_space()),
{
    lemma_header_absent_from(hs, name, 0);
}

proof fn lemma_header_absent_from(hs: Seq<Seq<char>>, name: Seq<char>, i: int)
    requires
        0 <= i,
        header_lookup(hs, name, i) == Some(None::<Seq<char>>),
        find(name, colon_space()) is None,
    ensures
        forall|j: int|
            i <= j < hs.len() ==> hs[j] != name && !starts_with(hs[j], name + colon_space()),
    decreases hs.len() - i,
{
    if i < hs.len() {
        let h = hs[i];
        lemma_header_absent_from(hs, name, i + 1);
        if h == name {
            lemma_split_bare(name);
        }
        if starts_with(h, name + colon_space()) {
            lemma_split_named(h, name);
        }
    }
}


proof fn lemma_scan_prefix_without_percent(t: Seq<char>, n: int)
    requires
        0 <= n <= t.len(),
        forall|i: int| 0 <= i < n ==> t[i] != '%',
    ensures
        scan(t, n) == (Seq::<Escape>::empty(), Seq::<char>::empty(), true),
    decreases n,
{
    if n > 0 {
        lemma_scan_prefix_without_percent(t, n - 1);
    }
}

/// Characters without `%` after a complete escape change no escape.
proof fn lemma_scan_tail(t: Seq<char>, start: int, n: int, list: Seq<Escape>, u: Seq<char>)
    requires
        0 <= start <= n <= t.len(),
        forall|i: int| start <= i < t.len() ==> t[i] != '%',
        scan(t, start).0 == list,
        scan(t, start).1 == u,
        list.len() > 0,
        blen(u) >= 2,
    ensures
        scan(t, n).0 == list,
        scan(t, n).1 == u,
    decreases n - start,
{
    if n > start {
        lemma_scan_tail(t, start, n - 1, list, u);
    }
}

/// An ASCII text has one byte per character.
proof fn lemma_blen_ascii_take(t: Seq<char>, k: int)
    requires
        0 <= k <= t.len(),
        forall|i: int| 0 <= i < k ==> (t[i] as u32) < 0x80,
    ensures
        blen(t.take(k)) == k,
    decreases k,
{
    if k == 0 {
        assert(t.take(0) =~= Seq::<char>::empty());
    } else {
        lemma_blen_ascii_take(t, k - 1);
        lemma_blen_take_step(t, k - 1);
    }
}

proof fn lemma_char_index_ascii(t: Seq<char>, p: int, k: int)
    requires
        0 <= k <= p <= t.len(),
        forall|i: int| 0 <= i < p ==> (t[i] as u32) < 0x80,
    ensures
        char_index_at_byte(t, p, k) == Some(p),
    decreases p - k,
{
    lemma_blen_ascii_take(t, k);
    if k < p {
        lemma_char_index_ascii(t, p, k + 1);
    }
}

/// A path with one `%`-escape of an ASCII byte after an ASCII prefix, and no other
/// `%`, decodes to the prefix, the character of that byte and the rest: the three
/// characters of the escape are replaced by the one they spell, whatever the case
/// of its hexadecimal digits.
pub proof fn law_single_escape(pre: Seq<char>, a: char, b: char, post: Seq<char>)
    requires
        forall|i: int| 0 <= i < pre.len() ==> pre[i] != '%' && (pre[i] as u32) < 0x80,
        forall|i: int| 0 <= i < post.len() ==> post[i] != '%',
        is_hex_char(a),
        is_hex_char(b),
        16 * hex_digit(a).unwrap() + hex_digit(b).unwrap() < 0x80,
    ensures
        ({
            let v = (16 * hex_digit(a).unwrap() + hex_digit(b).unwrap()) as u8;
            &&& decode_utf8(seq![v]).len() == 1
            &&& decode_utf8(seq![v])[0] as u32 == v as u32
            &&& decode_path(pre + seq!['%', a, b] + post) == Some(
                pre + decode_utf8(seq![v]) + post,
            )
        }),
{
    let t = pre + seq!['%', a, b] + post;
    let p = pre.len() as int;
    let v = (16 * hex_digit(a).unwrap() + hex_digit(b).unwrap()) as u8;
    assert forall|i: int| 0 <= i < p implies t[i] != '%' && (t[i] as u32) < 0x80 by {
        assert(t[i] == pre[i]);
    }
    assert(t[p] == '%' && t[p + 1] == a && t[p + 2] == b);
    assert forall|i: int| p + 3 <= i < t.len() implies t[i] != '%' by {
        assert(t[i] == post[i - p - 3]);
    }
    lemma_scan_prefix_without_percent(t, p);
    let e: Seq<u8> = Seq::empty();
    let l0: Seq<Escape> = seq![(p, e)];
    assert(scan(t, p + 1) == (l0, Seq::<char>::empty(), true));
    lemma_blen_single(a);
    assert(Seq::<char>::empty().push(a) =~= seq![a]);
    assert(scan(t, p + 2) == (l0, seq![a], false));
    lemma_blen_push(seq![a], b);
    assert(seq![a].push(b) =~= seq![a, b]);
    law_hex_pair(a, b);
    assert(blen(seq![a, b]) == 2);
    let l1: Seq<Escape> = seq![(p, seq![v])];
    assert(l0.update(0, (p, e.push(v))) =~= l1);
    assert(scan(t, p + 3) == (l1, seq![a, b], false));
    lemma_scan_tail(t, p + 3, t.len() as int, l1, seq![a, b]);
    assert(escapes(t) == l1);
    // The single byte is valid UTF-8 and decodes to one character.
    let bs = seq![v];
    assert((v & 0x7f) == v) by (bit_vector)
        requires
            v < 0x80,
    ;
    assert(bs[0] == v);
    assert(decode_first_scalar(bs) == v as u32);
    assert(valid_first_scalar(bs));
    assert(pop_first_scalar(bs) =~= Seq::<u8>::empty());
    assert(valid_utf8(pop_first_scalar(bs)));
    assert(valid_utf8(bs));
    assert(decode_utf8(pop_first_scalar(bs)) =~= Seq::<char>::empty());
    let text = decode_utf8(bs);
    assert(text =~= seq![decode_first_scalar(bs) as char]);
    lemma_char_index_ascii(t, p, 0);
    assert(apply_escapes(t, l1, 0) == Some((t, 0int)));
    decode_utf8_encode_utf8(bs);
    assert(t.take(p) =~= pre);
    assert(t.skip(p + 3) =~= post);
    assert(apply_escapes(t, l1, 1) == Some((pre + text + post, 3 - blen(text))));
}

/// The version read from the end of the request line is the longest suffix made of
/// version characters: each of its characters is one, and the one before it is not.
pub proof fn law_version_suffix(s: Seq<char>)
    ensures
        0 <= version_start(s, s.len() as int) <= s.len(),
        forall|i: int|
            version_start(s, s.len() as int) <= i < s.len() ==> version_char(#[trigger] s[i]),
        version_start(s, s.len() as int) > 0 ==> !version_char(
            s[version_start(s, s.len() as int) - 1],
        ),
{
    lemma_version_start(s, s.len() as int);
}

proof fn lemma_version_start(s: Seq<char>, j: int)
    requires
        0 <= j <= s.len(),
    ensures
        0 <= version_start(s, j) <= j,
        forall|i: int| version_start(s, j) <= i < j ==> version_char(#[trigger] s[i]),
        version_start(s, j) > 0 ==> !version_char(s[version_start(s, j) - 1]),
    decreases j,
{
    if 0 < j && version_char(s[j - 1]) {
        lemma_version_start(s, j - 1);
    }
}

/// A `Host: ` line names the host that follows the first `Host: `; a line without
/// `Host: ` names itself.
pub proof fn law_host_value(h: Seq<char>, line: Seq<char>)
    ensures
        host_value(host_sep() + h) == h,
        !contains(line, host_sep()) ==> host_value(line) == line,
{
    let l = host_sep() + h;
    assert(l.subrange(0, 6) =~= host_sep());
    assert(find(l, host_sep()) == Some(0int));
    assert(l.skip(6) =~= h);
}

proof fn lemma_version_start_at(s: Seq<char>, j: int, k: int)
    requires
        0 < k <= j <= s.len(),
        forall|i: int| k <= i < j ==> version_char(#[trigger] s[i]),
        !version_char(s[k - 1]),
    ensures
        version_start(s, j) == k,
    decreases j - k,
{
    if k < j {
        lemma_version_start_at(s, j - 1, k);
    }
}

/// The request line `method path version`, ended by `\r\n`, gives that method, the
/// path with its escapes decoded, and that version, where the method holds no space,
/// the path neither starts nor ends with whitespace, the version is made of version
/// characters and a space is not one (no line break anywhere); a path that cannot be
/// decoded refuses the request.
pub proof fn law_request_line(m: Seq<char>, p: Seq<char>, v: Seq<char>)
    requires
        forall|i: int| 0 <= i < m.len() ==> m[i] != ' ' && m[i] != '\n' && m[i] != '\r',
        p.len() > 0,
        !char_is_whitespace(p[0]),
        !char_is_whitespace(p.last()),
        forall|i: int| 0 <= i < p.len() ==> p[i] != '\n' && p[i] != '\r',
        forall|i: int| 0 <= i < v.len() ==> version_char(v[i]) && v[i] != '\n' && v[i] != '\r',
        !char_is_numeric(' '),
    ensures
        parse_request(m + seq![' '] + p + seq![' '] + v + seq!['\r', '\n']) == match decode_path(p) {
            Some(d) => Some(
                RequestView {
                    method: method_from(m),
                    path: d,
                    host: Seq::empty(),
                    version: v,
                    headers: Seq::empty(),
                },
            ),
            None => None,
        },
{
    let sp = seq![' '];
    let nl = seq!['\n'];
    let line = m + sp + p + sp + v;
    let s = line + seq!['\r', '\n'];
    let n = s.len() as int;
    assert(s =~= m + sp + p + sp + v + seq!['\r', '\n']);
    // The text is one line.
    assert forall|i: int| 0 <= i < line.len() implies line[i] != '\n' && line[i] != '\r' by {
        if i < m.len() {
            assert(line[i] == m[i]);
        } else if i == m.len() {
        } else if i < m.len() + 1 + p.len() {
            assert(line[i] == p[i - m.len() - 1]);
        } else if i == m.len() + 1 + p.len() {
        } else {
            assert(line[i] == v[i - m.len() - 2 - p.len()]);
        }
    }
    crate::text::lemma_find_from(s, nl, 0);
    assert(s.subrange(n - 1, n) =~= nl);
    assert(matches_at(s, nl, n - 1));
    match crate::text::find_from(s, nl, 0) {
        Some(k) => {
            if k < n - 1 {
                assert(s.subrange(k, k + 1)[0] == s[k]);
                assert(s[k] == line[k]);
            }
            assert(k == n - 1);
        },
        None => {},
    }
    assert(s.subrange(0, n - 1) =~= line.push('\r'));
    assert(line.push('\r').drop_last() =~= line);
    assert(strip_cr(s.subrange(0, n - 1)) == line);
    assert(crate::text::lines_from(s, n) =~= Seq::<Seq<char>>::empty());
    assert(lines(s) =~= seq![line]);
    // The request line.
    let ml = m.len() as int;
    crate::text::lemma_find_from(line, sp, 0);
    assert(line.subrange(ml, ml + 1) =~= sp);
    match find(line, sp) {
        Some(k) => {
            if k < ml {
                assert(line.subrange(k, k + 1)[0] == line[k]);
                assert(line[k] == m[k]);
            }
            if k > ml {
                assert(matches_at(line, sp, ml));
            }
            assert(k == ml);
        },
        None => {
            assert(matches_at(line, sp, ml));
        },
    }
    let rest = line.skip(ml + 1);
    assert(rest =~= p + sp + v);
    let pl = p.len() as int;
    assert forall|i: int| pl + 1 <= i < rest.len() implies version_char(#[trigger] rest[i]) by {
        assert(rest[i] == v[i - pl - 1]);
    }
    assert(rest[pl] == ' ');
    lemma_version_start_at(rest, rest.len() as int, pl + 1);
    assert(rest.take(pl + 1) =~= Seq::<char>::empty() + p + sp);
    law_trim_around(Seq::<char>::empty(), p, sp);
    assert(rest.skip(pl + 1) =~= v);
    assert(line.take(ml) =~= m);
    assert(line.len() > 0);
    let ls = lines(s);
    assert(ls.len() == 1);
    assert(ls[0] == line);
    assert(parse_lines(ls, 0) == Some((empty_request(), false)));
    assert(parse_lines(ls, 1) == line_step(empty_request(), false, line));
    assert(find(line, sp) == Some(ml));
    assert(version_start(rest, rest.len() as int) == pl + 1);
    assert(trim(rest.take(pl + 1)) == p);
}

} // verus!
