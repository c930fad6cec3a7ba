//! Character-sequence helpers shared by the request and response code: searching,
//! splitting, trimming, line breaking, decimal formatting and UTF-8 byte lengths.
//! Every helper is stated over `Seq<char>`, the view of `String`.
use vstd::prelude::*;
use vstd::utf8::*;

verus! {

broadcast use vstd::utf8::char_is_scalar;

// ---------------------------------------------------------------------------
// Searching
// ---------------------------------------------------------------------------

/// `p` occurs in `s` starting at index `i`.
pub open spec fn matches_at(s: Seq<char>, p: Seq<char>, i: int) -> bool {
    0 <= i && i + p.len() <= s.len() && s.subrange(i, i + p.len()) == p
}

/// The first index `k >= i` at which `p` occurs in `s`.
pub open spec fn find_from(s: Seq<char>, p: Seq<char>, i: int) -> Option<int>
    decreases s.len() + 1 - i,
{
    if i < 0 || i + p.len() > s.len() {
        None
    } else if s.subrange(i, i + p.len()) == p {
        Some(i)
    } else {
        find_from(s, p, i + 1)
    }
}

/// The first occurrence of `p` in `s`.
pub open spec fn find(s: Seq<char>, p: Seq<char>) -> Option<int> {
    find_from(s, p, 0)
}

pub open spec fn contains(s: Seq<char>, p: Seq<char>) -> bool {
    find(s, p) is Some
}

pub open spec fn starts_with(s: Seq<char>, p: Seq<char>) -> bool {
    p.len() <= s.len() && s.take(p.len() as int) == p
}

pub open spec fn ends_with(s: Seq<char>, p: Seq<char>) -> bool {
    p.len() <= s.len() && s.skip(s.len() - p.len()) == p
}

/// What `find_from` returns: the least match at or after `i`, or no match at all.
pub proof fn lemma_find_from(s: Seq<char>, p: Seq<char>, i: int)
    requires
        0 <= i,
    ensures
        match find_from(s, p, i) {
            Some(k) => i <= k && matches_at(s, p, k) && k + p.len() <= s.len() && (forall|j: int|
                i <= j < k ==> !matches_at(s, p, j)),
            None => forall|j: int| i <= j ==> !matches_at(s, p, j),
        },
    decreases s.len() + 1 - i,
{
    if i + p.len() > s.len() {
    } else if s.subrange(i, i + p.len()) == p {
    } else {
        lemma_find_from(s, p, i + 1);
    }
}

/// `s[i..i + p.len()] == p`, decided by comparing characters.
fn matches_at_exec(s: &Vec<char>, p: &Vec<char>, i: usize) -> (b: bool)
    requires
        i + p.len() <= s.len(),
    ensures
        b == (s@.subrange(i as int, i + p.len()) == p@),
{
    let mut j: usize = 0;
    while j < p.len()
        invariant
            i + p.len() <= s.len(),
            j <= p.len(),
            forall|t: int| 0 <= t < j ==> s@[i + t] == p@[t],
        decreases p.len() - j,
    {
        if s[i + j] != p[j] {
            assert(s@.subrange(i as int, i + p.len())[j as int] != p@[j as int]);
            return false;
        }
        j += 1;
    }
    assert(s@.subrange(i as int, i + p.len()) =~= p@);
    true
}

/// The first index at or after `start` where `p` occurs in `s`.
pub fn find_from_exec(s: &Vec<char>, p: &Vec<char>, start: usize) -> (r: Option<usize>)
    ensures
        r matches Some(k) ==> find_from(s@, p@, start as int) == Some(k as int),
        r is None ==> find_from(s@, p@, start as int) is None,
{
    let mut i = start;
    while p.len() <= s.len() && i <= s.len() - p.len()
        invariant
            start <= i,
            find_from(s@, p@, start as int) == find_from(s@, p@, i as int),
        decreases s.len() + 1 - i,
    {
        if matches_at_exec(s, p, i) {
            return Some(i);
        }
        if p.len() == 0 {
            assert(s@.subrange(i as int, i as int) =~= p@);
        }
        i += 1;
    }
    None
}

/// The characters `s[a..b]`.
pub fn subvec(s: &Vec<char>, a: usize, b: usize) -> (r: Vec<char>)
    requires
        a <= b <= s.len(),
    ensures
        r@ == s@.subrange(a as int, b as int),
{
    let mut r: Vec<char> = Vec::new();
    let mut i = a;
    while i < b
        invariant
            a <= i <= b <= s.len(),
            r@ == s@.subrange(a as int, i as int),
        decreases b - i,
    {
        r.push(s[i]);
        i += 1;
        assert(r@ =~= s@.subrange(a as int, i as int));
    }
    r
}

/// `a` followed by `b`.
pub fn concat_chars(a: &Vec<char>, b: &Vec<char>) -> (r: Vec<char>)
    ensures
        r@ == a@ + b@,
{
    let mut r = a.clone();
    let mut i: usize = 0;
    while i < b.len()
        invariant
            i <= b.len(),
            r@ == a@ + b@.take(i as int),
        decreases b.len() - i,
    {
        r.push(b[i]);
        i += 1;
        assert(r@ =~= a@ + b@.take(i as int));
    }
    assert(b@.take(b.len() as int) =~= b@);
    r
}

/// Whether `s` begins with `p`.
pub fn starts_with_exec(s: &Vec<char>, p: &Vec<char>) -> (b: bool)
    ensures
        b == starts_with(s@, p@),
{
    if p.len() > s.len() {
        return false;
    }
    let b = matches_at_exec(s, p, 0);
    assert(s@.subrange(0, p.len() as int) =~= s@.take(p.len() as int));
    b
}

/// Whether two character vectors are equal.
pub fn chars_eq(a: &Vec<char>, b: &Vec<char>) -> (r: bool)
    ensures
        r == (a@ == b@),
{
    if a.len() != b.len() {
        return false;
    }
    let r = matches_at_exec(a, b, 0);
    assert(a@.subrange(0, b.len() as int) =~= a@);
    r
}

/// The character sequences held by a vector of character vectors.
pub open spec fn views(v: Seq<Vec<char>>) -> Seq<Seq<char>> {
    v.map_values(|x: Vec<char>| x@)
}

// ---------------------------------------------------------------------------
// Splitting and joining
// ---------------------------------------------------------------------------

/// `s.splitn(2, p)`: the text before the first `p` and the text after it, or the
/// whole of `s` where `p` does not occur.
pub open spec fn split_once(s: Seq<char>, p: Seq<char>) -> Seq<Seq<char>> {
    match find(s, p) {
        Some(k) => seq![s.take(k), s.skip(k + p.len())],
        None => seq![s],
    }
}

/// `s[start..].split(p)`: every piece between occurrences of the non-empty `p`.
pub open spec fn split_from(s: Seq<char>, p: Seq<char>, start: int) -> Seq<Seq<char>>
    decreases s.len() + 1 - start,
{
    if start < 0 || start > s.len() || p.len() == 0 {
        seq![]
    } else {
        match find_from(s, p, start) {
            Some(k) => if start <= k && k + p.len() <= s.len() {
                seq![s.subrange(start, k)] + split_from(s, p, k + p.len())
            } else {
                seq![]
            },
            None => seq![s.subrange(start, s.len() as int)],
        }
    }
}

/// `s.split(p)` for a non-empty `p`.
pub open spec fn split_all(s: Seq<char>, p: Seq<char>) -> Seq<Seq<char>> {
    split_from(s, p, 0)
}

/// The pieces of `parts` joined by `sep`, as `[..].join(sep)` does.
pub open spec fn join(parts: Seq<Seq<char>>, sep: Seq<char>) -> Seq<char>
    decreases parts.len(),
{
    if parts.len() == 0 {
        seq![]
    } else if parts.len() == 1 {
        parts[0]
    } else {
        join(parts.drop_last(), sep) + sep + parts.last()
    }
}

/// `s.split(p)` for a non-empty `p`.
pub fn split_all_exec(s: &Vec<char>, p: &Vec<char>) -> (r: Vec<Vec<char>>)
    requires
        p.len() > 0,
    ensures
        views(r@) == split_all(s@, p@),
{
    let mut r: Vec<Vec<char>> = Vec::new();
    let mut start: usize = 0;
    loop
        invariant
            p.len() > 0,
            start <= s.len(),
            split_all(s@, p@) == views(r@) + split_from(s@, p@, start as int),
        decreases s.len() + 1 - start,
    {
        proof {
            lemma_find_from(s@, p@, start as int);
        }
        match find_from_exec(s, p, start) {
            Some(k) => {
                let piece = subvec(s, start, k);
                let ghost before = views(r@);
                r.push(piece);
                assert(views(r@) =~= before.push(piece@));
                assert(split_from(s@, p@, start as int) == seq![piece@] + split_from(
                    s@,
                    p@,
                    k + p.len(),
                ));
                assert(before + split_from(s@, p@, start as int) =~= views(r@) + split_from(
                    s@,
                    p@,
                    k + p.len(),
                ));
                start = k + p.len();
            },
            None => {
                let piece = subvec(s, start, s.len());
                let ghost before = views(r@);
                r.push(piece);
                assert(views(r@) =~= before.push(piece@));
                assert(split_from(s@, p@, start as int) == seq![piece@]);
                assert(views(r@) =~= before + split_from(s@, p@, start as int));
                return r;
            },
        }
    }
}

/// The pieces of `parts` joined by `sep`.
pub fn join_exec(parts: &Vec<Vec<char>>, sep: &Vec<char>) -> (r: Vec<char>)
    ensures
        r@ == join(views(parts@), sep@),
{
    let mut r: Vec<char> = Vec::new();
    let mut i: usize = 0;
    while i < parts.len()
        invariant
            i <= parts.len(),
            r@ == join(views(parts@).take(i as int), sep@),
        decreases parts.len() - i,
    {
        let ghost pv = views(parts@);
        assert(pv.take(i + 1).drop_last() =~= pv.take(i as int));
        if i == 0 {
            r = concat_chars(&r, &parts[i]);
            assert(join(pv.take(1), sep@) == pv[0]);
            assert(r@ =~= pv[0]);
        } else {
            r = concat_chars(&r, sep);
            r = concat_chars(&r, &parts[i]);
        }
        i += 1;
    }
    assert(views(parts@).take(parts.len() as int) =~= views(parts@));
    r
}

// ---------------------------------------------------------------------------
// Lines
// ---------------------------------------------------------------------------

/// A line that ended in `\r\n` loses its `\r`.
pub open spec fn strip_cr(l: Seq<char>) -> Seq<char> {
    if l.len() > 0 && l.last() == '\r' {
        l.drop_last()
    } else {
        l
    }
}

/// The lines of `s[start..]`, as `str::lines` breaks them: at each `\n`, dropping a
/// `\r` just before it; a final line without `\n` is kept as it is.
pub open spec fn lines_from(s: Seq<char>, start: int) -> Seq<Seq<char>>
    decreases s.len() - start,
{
    if start < 0 || start >= s.len() {
        seq![]
    } else {
        match find_from(s, seq!['\n'], start) {
            Some(k) => if start <= k < s.len() {
                seq![strip_cr(s.subrange(start, k))] + lines_from(s, k + 1)
            } else {
                seq![]
            },
            None => seq![s.subrange(start, s.len() as int)],
        }
    }
}

pub open spec fn lines(s: Seq<char>) -> Seq<Seq<char>> {
    lines_from(s, 0)
}

/// `s.lines()`.
pub fn lines_exec(s: &Vec<char>) -> (r: Vec<Vec<char>>)
    ensures
        views(r@) == lines(s@),
{
    let mut r: Vec<Vec<char>> = Vec::new();
    let mut start: usize = 0;
    let nl: Vec<char> = vec!['\n'];
    assert(nl@ =~= seq!['\n']);
    while start < s.len()
        invariant
            start <= s.len(),
            nl@ == seq!['\n'],
            lines(s@) == views(r@) + lines_from(s@, start as int),
        decreases s.len() - start,
    {
        proof {
            lemma_find_from(s@, nl@, start as int);
        }
        match find_from_exec(s, &nl, start) {
            Some(k) => {
                let mut piece = subvec(s, start, k);
                let ghost raw = piece@;
                if piece.len() > 0 && piece[piece.len() - 1] == '\r' {
                    piece.pop();
                    assert(piece@ =~= raw.drop_last());
                }
                assert(piece@ == strip_cr(raw));
                let ghost before = views(r@);
                r.push(piece);
                assert(views(r@) =~= before.push(piece@));
                assert(before + lines_from(s@, start as int) =~= views(r@) + lines_from(
                    s@,
                    k + 1,
                ));
                start = k + 1;
            },
            None => {
                let piece = subvec(s, start, s.len());
                let ghost before = views(r@);
                r.push(piece);
                assert(views(r@) =~= before.push(piece@));
                assert(views(r@) =~= before + lines_from(s@, start as int));
                return r;
            },
        }
    }
    assert(lines_from(s@, start as int) =~= Seq::<Seq<char>>::empty());
    assert(views(r@) + lines_from(s@, start as int) =~= views(r@));
    r
}

// ---------------------------------------------------------------------------
// Trimming
// ---------------------------------------------------------------------------

/// Whether `c` has the Unicode `White_Space` property, which `char::is_whitespace`
/// and `str::trim` go by: U+0009 to U+000D, U+0020, U+0085, U+00A0, U+1680,
/// U+2000 to U+200A, U+2028, U+2029, U+202F, U+205F and U+3000.
pub open spec fn char_is_whitespace(c: char) -> bool {
    let v = c as u32;
    ||| 0x9 <= v <= 0xd
    ||| v == 0x20
    ||| v == 0x85
    ||| v == 0xa0
    ||| v == 0x1680
    ||| 0x2000 <= v <= 0x200a
    ||| v == 0x2028
    ||| v == 0x2029
    ||| v == 0x202f
    ||| v == 0x205f
    ||| v == 0x3000
}

/// Whether `c` has the Unicode `White_Space` property.
pub fn is_whitespace_char(c: char) -> (b: bool)
    ensures
        b == char_is_whitespace(c),
{
    let v = c as u32;
    (0x9 <= v && v <= 0xd) || v == 0x20 || v == 0x85 || v == 0xa0 || v == 0x1680 || (0x2000 <= v
        && v <= 0x200a) || v == 0x2028 || v == 0x2029 || v == 0x202f || v == 0x205f || v == 0x3000
}

/// The first index at or after `i` that does not hold whitespace.
pub open spec fn trim_lo(s: Seq<char>, i: int) -> int
    decreases s.len() - i,
{
    if 0 <= i < s.len() && char_is_whitespace(s[i]) {
        trim_lo(s, i + 1)
    } else {
        i
    }
}

/// The end of `s[lo..j]` once trailing whitespace is removed.
pub open spec fn trim_hi(s: Seq<char>, lo: int, j: int) -> int
    decreases j - lo,
{
    if lo < j <= s.len() && char_is_whitespace(s[j - 1]) {
        trim_hi(s, lo, j - 1)
    } else {
        j
    }
}

/// `s.trim()`: `s` without leading and trailing whitespace.
pub open spec fn trim(s: Seq<char>) -> Seq<char> {
    let lo = trim_lo(s, 0);
    s.subrange(lo, trim_hi(s, lo, s.len() as int))
}

/// `s.trim()`.
pub fn trim_exec(s: &Vec<char>) -> (r: Vec<char>)
    ensures
        r@ == trim(s@),
{
    let mut lo: usize = 0;
    while lo < s.len() && is_whitespace_char(s[lo])
        invariant
            lo <= s.len(),
            trim_lo(s@, 0) == trim_lo(s@, lo as int),
        decreases s.len() - lo,
    {
        lo += 1;
    }
    let mut hi: usize = s.len();
    while lo < hi && is_whitespace_char(s[hi - 1])
        invariant
            lo <= hi <= s.len(),
            trim_lo(s@, 0) == lo,
            trim_hi(s@, lo as int, s.len() as int) == trim_hi(s@, lo as int, hi as int),
        decreases hi - lo,
    {
        hi -= 1;
    }
    subvec(s, lo, hi)
}

// ---------------------------------------------------------------------------
// UTF-8 byte lengths
// ---------------------------------------------------------------------------

/// The number of bytes in the UTF-8 encoding of `s`, which `str::len` returns.
pub open spec fn blen(s: Seq<char>) -> nat {
    encode_utf8(s).len()
}

/// The number of bytes in the UTF-8 encoding of `c`.
pub open spec fn char_width(c: char) -> nat {
    if (c as u32) < 0x80 {
        1
    } else if (c as u32) < 0x800 {
        2
    } else if (c as u32) < 0x10000 {
        3
    } else {
        4
    }
}

/// Encoding a concatenation encodes each part.
pub proof fn lemma_encode_concat(a: Seq<char>, b: Seq<char>)
    ensures
        encode_utf8(a + b) == encode_utf8(a) + encode_utf8(b),
    decreases a.len(),
{
    if a.len() == 0 {
        assert(a + b =~= b);
        assert(encode_utf8(a) + encode_utf8(b) =~= encode_utf8(b));
    } else {
        assert((a + b).drop_first() =~= a.drop_first() + b);
        lemma_encode_concat(a.drop_first(), b);
        assert((a + b)[0] == a[0]);
        assert(encode_utf8(a + b) =~= encode_scalar(a[0] as u32) + encode_utf8(a.drop_first() + b));
        assert(encode_utf8(a) + encode_utf8(b) =~= encode_scalar(a[0] as u32) + (encode_utf8(
            a.drop_first(),
        ) + encode_utf8(b)));
    }
}

/// One character takes `char_width` bytes.
pub proof fn lemma_blen_single(c: char)
    ensures
        blen(seq![c]) == char_width(c),
        1 <= char_width(c) <= 4,
{
    let s = seq![c];
    assert(s.drop_first() =~= Seq::<char>::empty());
    assert(encode_utf8(s) == encode_scalar(c as u32) + encode_utf8(s.drop_first()));
    assert(encode_utf8(s.drop_first()) =~= Seq::<u8>::empty());
    assert(is_scalar(c as u32));
}

/// Byte length adds up over a concatenation.
pub proof fn lemma_blen_concat(a: Seq<char>, b: Seq<char>)
    ensures
        blen(a + b) == blen(a) + blen(b),
{
    lemma_encode_concat(a, b);
}

/// Appending a character adds its width.
pub proof fn lemma_blen_push(a: Seq<char>, c: char)
    ensures
        blen(a.push(c)) == blen(a) + char_width(c),
{
    assert(a.push(c) =~= a + seq![c]);
    lemma_blen_concat(a, seq![c]);
    lemma_blen_single(c);
}

/// Taking one more character of `s` adds that character's width.
pub proof fn lemma_blen_take_step(s: Seq<char>, k: int)
    requires
        0 <= k < s.len(),
    ensures
        blen(s.take(k + 1)) == blen(s.take(k)) + char_width(s[k]),
{
    assert(s.take(k + 1) =~= s.take(k).push(s[k]));
    lemma_blen_push(s.take(k), s[k]);
}

/// The number of bytes `c` takes in UTF-8, as `char::len_utf8` returns.
pub fn char_width_exec(c: char) -> (w: usize)
    ensures
        w == char_width(c),
        1 <= w <= 4,
{
    let v = c as u32;
    if v < 0x80 {
        1
    } else if v < 0x800 {
        2
    } else if v < 0x10000 {
        3
    } else {
        4
    }
}

// ---------------------------------------------------------------------------
// Conversions between String and Vec<char>
// ---------------------------------------------------------------------------

/// Calls `String::push`, which appends one character.
#[verifier::external_body]
pub fn string_push(s: &mut String, c: char)
    ensures
        final(s)@ == old(s)@.push(c),
{
    s.push(c);
}

/// Calls `String::from_utf8`, which accepts exactly the valid UTF-8 byte sequences
/// and then holds the characters that they encode.
#[verifier::external_body]
pub fn utf8_to_string(bytes: Vec<u8>) -> (r: Option<String>)
    ensures
        r is Some <==> valid_utf8(bytes@),
        r matches Some(s) ==> s@ == decode_utf8(bytes@),
{
    String::from_utf8(bytes).ok()
}

/// The characters of `s`.
pub fn chars_of(s: &str) -> (v: Vec<char>)
    ensures
        v@ == s@,
{
    let mut v: Vec<char> = Vec::new();
    for c in it: s.chars()
        invariant
            v@ == it.seq().take(it.index() as int),
    {
        v.push(c);
    }
    v
}

/// The string made of the characters `v`.
pub fn string_of(v: &Vec<char>) -> (s: String)
    ensures
        s@ == v@,
{
    let mut s = String::new();
    let mut i: usize = 0;
    while i < v.len()
        invariant
            i <= v.len(),
            s@ == v@.take(i as int),
        decreases v.len() - i,
    {
        string_push(&mut s, v[i]);
        i += 1;
        assert(s@ =~= v@.take(i as int));
    }
    assert(v@.take(v.len() as int) =~= v@);
    s
}

// ---------------------------------------------------------------------------
// Decimal numbers
// ---------------------------------------------------------------------------

/// The decimal digit for `d < 10`.
pub open spec fn digit_char(d: nat) -> char {
    ((d + 48) as u32) as char
}

/// `n` written in decimal without leading zeros, as `format!("{}", n)` writes it.
pub open spec fn decimal(n: nat) -> Seq<char>
    decreases n,
{
    if n < 10 {
        seq![digit_char(n)]
    } else {
        decimal(n / 10).push(digit_char(n % 10))
    }
}

fn digit_exec(d: usize) -> (c: char)
    requires
        d < 10,
    ensures
        c == digit_char(d as nat),
{
    let b: u8 = (d as u8) + 48;
    b as char
}

fn decimal_vec(n: usize) -> (v: Vec<char>)
    ensures
        v@ == decimal(n as nat),
    decreases n,
{
    if n < 10 {
        let mut v: Vec<char> = Vec::new();
        v.push(digit_exec(n));
        assert(v@ =~= seq![digit_char(n as nat)]);
        v
    } else {
        let mut v = decimal_vec(n / 10);
        v.push(digit_exec(n % 10));
        v
    }
}

/// `n` in decimal.
pub fn decimal_string(n: usize) -> (s: String)
    ensures
        s@ == decimal(n as nat),
{
    let v = decimal_vec(n);
    string_of(&v)
}


/// Joining keeps every part, in order, with the separator between neighbours: no
/// parts give the empty text, one part gives itself, and one more part adds the
/// separator and that part at the end.
pub proof fn law_join_parts(parts: Seq<Seq<char>>, x: Seq<char>, sep: Seq<char>)
    ensures
        join(Seq::<Seq<char>>::empty(), sep) == Seq::<char>::empty(),
        join(seq![x], sep) == x,
        parts.len() > 0 ==> join(parts.push(x), sep) == join(parts, sep) + sep + x,
{
    assert(parts.push(x).drop_last() =~= parts);
}

/// The length of a joined text: the parts' lengths plus one separator between each
/// two neighbours.
pub open spec fn total_len(parts: Seq<Seq<char>>) -> nat
    decreases parts.len(),
{
    if parts.len() == 0 {
        0
    } else {
        total_len(parts.drop_last()) + parts.last().len()
    }
}

/// A joined text is as long as all its parts and the separators between them.
pub proof fn law_join_len(parts: Seq<Seq<char>>, sep: Seq<char>)
    requires
        parts.len() > 0,
    ensures
        join(parts, sep).len() == total_len(parts) + (parts.len() - 1) * sep.len(),
    decreases parts.len(),
{
    if parts.len() > 1 {
        law_join_len(parts.drop_last(), sep);
        assert((parts.len() - 1) * sep.len() == (parts.len() - 2) * sep.len() + sep.len())
            by (nonlinear_arith)
            requires
                parts.len() > 1,
        ;
        assert(join(parts, sep).len() == join(parts.drop_last(), sep).len() + sep.len()
            + parts.last().len());
    } else {
        assert(parts.drop_last().len() == 0);
        assert(total_len(parts.drop_last()) == 0);
        assert(total_len(parts) == parts[0].len());
        assert((parts.len() - 1) * sep.len() == 0);
    }
}

/// Joining `x` in front of a non-empty list of parts puts the separator between
/// `x` and the rest.
proof fn lemma_join_cons(x: Seq<char>, rest: Seq<Seq<char>>, sep: Seq<char>)
    requires
        rest.len() > 0,
    ensures
        join(seq![x] + rest, sep) == x + sep + join(rest, sep),
    decreases rest.len(),
{
    let all = seq![x] + rest;
    if rest.len() == 1 {
        assert(all.len() == 2);
        assert(all.drop_last() =~= seq![x]);
        assert(all.last() == rest[0]);
        assert(join(seq![x], sep) == x);
        assert(join(rest, sep) == rest[0]);
        assert(join(all, sep) == join(all.drop_last(), sep) + sep + all.last());
    } else {
        assert(all.drop_last() =~= seq![x] + rest.drop_last());
        lemma_join_cons(x, rest.drop_last(), sep);
        assert(all.last() == rest.last());
        assert(join(all, sep) == join(all.drop_last(), sep) + sep + all.last());
        assert(join(rest, sep) == join(rest.drop_last(), sep) + sep + rest.last());
        assert(x + sep + join(rest.drop_last(), sep) + sep + rest.last() =~= x + sep + (join(
            rest.drop_last(),
            sep,
        ) + sep + rest.last()));
    }
}

proof fn lemma_split_join_from(s: Seq<char>, p: Seq<char>, start: int)
    requires
        0 <= start <= s.len(),
        p.len() > 0,
    ensures
        split_from(s, p, start).len() > 0,
        join(split_from(s, p, start), p) == s.subrange(start, s.len() as int),
    decreases s.len() + 1 - start,
{
    lemma_find_from(s, p, start);
    match find_from(s, p, start) {
        Some(k) => {
            lemma_split_join_from(s, p, k + p.len());
            let rest = split_from(s, p, k + p.len());
            lemma_join_cons(s.subrange(start, k), rest, p);
            assert(s.subrange(start, k) + p + s.subrange(k + p.len(), s.len() as int)
                =~= s.subrange(start, s.len() as int));
        },
        None => {},
    }
}

/// Splitting at a non-empty separator and joining the pieces with it again gives
/// back the text, and no piece holds the separator.
pub proof fn law_split_join(s: Seq<char>, p: Seq<char>)
    requires
        p.len() > 0,
    ensures
        split_all(s, p).len() > 0,
        join(split_all(s, p), p) == s,
        forall|i: int| 0 <= i < split_all(s, p).len() ==> !contains(#[trigger] split_all(s, p)[i], p),
{
    lemma_split_join_from(s, p, 0);
    assert(s.subrange(0, s.len() as int) =~= s);
    lemma_split_pieces(s, p, 0);
}

proof fn lemma_split_pieces(s: Seq<char>, p: Seq<char>, start: int)
    requires
        0 <= start <= s.len(),
        p.len() > 0,
    ensures
        forall|i: int| 0 <= i < split_from(s, p, start).len() ==> !contains(
            #[trigger] split_from(s, p, start)[i],
            p,
        ),
    decreases s.len() + 1 - start,
{
    lemma_find_from(s, p, start);
    match find_from(s, p, start) {
        Some(k) => {
            lemma_split_pieces(s, p, k + p.len());
            let piece = s.subrange(start, k);
            lemma_no_match_inside(s, p, start, k);
            let all = split_from(s, p, start);
            let rest = split_from(s, p, k + p.len());
            assert forall|i: int| 0 <= i < all.len() implies !contains(#[trigger] all[i], p) by {
                if i > 0 {
                    assert(all[i] == rest[i - 1]);
                } else {
                    assert(all[i] == piece);
                }
            }
        },
        None => {
            lemma_no_match_inside(s, p, start, s.len() as int);
        },
    }
}

/// A stretch of `s` in which no match of `p` starts, as far as a match fits in
/// `s`, holds no `p`.
proof fn lemma_no_match_inside(s: Seq<char>, p: Seq<char>, a: int, b: int)
    requires
        0 <= a <= b <= s.len(),
        p.len() > 0,
        forall|j: int| a <= j < b ==> !matches_at(s, p, j),
    ensures
        !contains(s.subrange(a, b), p),
{
    let piece = s.subrange(a, b);
    lemma_find_from(piece, p, 0);
    if let Some(j) = find_from(piece, p, 0) {
        assert(matches_at(piece, p, j));
        assert(piece.subrange(j, j + p.len()) =~= s.subrange(a + j, a + j + p.len()));
        assert(matches_at(s, p, a + j));
        assert(false);
    }
}

/// The number that a text of decimal digits spells, most significant first.
pub open spec fn digits_value(s: Seq<char>) -> nat
    decreases s.len(),
{
    if s.len() == 0 {
        0
    } else {
        digits_value(s.drop_last()) * 10 + ((s.last() as u32) - ('0' as u32)) as nat
    }
}

/// `decimal(n)` is a non-empty text of ASCII digits that spells `n`, without a
/// leading zero: `0` is written as the single digit `0`.
pub proof fn law_decimal(n: nat)
    ensures
        decimal(n).len() > 0,
        forall|i: int| 0 <= i < decimal(n).len() ==> '0' <= #[trigger] decimal(n)[i] <= '9',
        n == 0 ==> decimal(n) == seq!['0'],
        n > 0 ==> decimal(n)[0] != '0',
        digits_value(decimal(n)) == n,
    decreases n,
{
    let d = decimal(n);
    if n < 10 {
        assert(d =~= seq![digit_char(n)]);
        assert(d.drop_last() =~= Seq::<char>::empty());
        assert(digit_char(n) as u32 == n + 48);
        assert(d.last() == digit_char(n));
        assert(digits_value(d.drop_last()) == 0);
        assert(digits_value(d) == digits_value(d.drop_last()) * 10 + ((d.last() as u32) - ('0' as u32)) as nat);
    } else {
        law_decimal(n / 10);
        let h = decimal(n / 10);
        assert(d == h.push(digit_char(n % 10)));
        assert(d.drop_last() =~= h);
        assert(d[0] == h[0]);
        assert forall|i: int| 0 <= i < d.len() implies '0' <= #[trigger] d[i] <= '9' by {
            if i < h.len() {
                assert(d[i] == h[i]);
            }
        }
        assert(digit_char(n % 10) as u32 == n % 10 + 48);
        assert(d.last() == digit_char(n % 10));
        assert(n == (n / 10) * 10 + n % 10);
        assert(digits_value(d) == digits_value(h) * 10 + ((d.last() as u32) - ('0' as u32)) as nat);
    }
}

proof fn lemma_trim_lo(s: Seq<char>, i: int)
    requires
        0 <= i <= s.len(),
    ensures
        i <= trim_lo(s, i) <= s.len(),
        forall|j: int| i <= j < trim_lo(s, i) ==> char_is_whitespace(#[trigger] s[j]),
        trim_lo(s, i) < s.len() ==> !char_is_whitespace(s[trim_lo(s, i)]),
    decreases s.len() - i,
{
    if i < s.len() && char_is_whitespace(s[i]) {
        lemma_trim_lo(s, i + 1);
    }
}

proof fn lemma_trim_hi(s: Seq<char>, lo: int, j: int)
    requires
        0 <= lo <= j <= s.len(),
    ensures
        lo <= trim_hi(s, lo, j) <= j,
        forall|k: int| trim_hi(s, lo, j) <= k < j ==> char_is_whitespace(#[trigger] s[k]),
        trim_hi(s, lo, j) > lo ==> !char_is_whitespace(s[trim_hi(s, lo, j) - 1]),
    decreases j - lo,
{
    if lo < j && char_is_whitespace(s[j - 1]) {
        lemma_trim_hi(s, lo, j - 1);
    }
}

/// Trimming cuts whitespace, and only whitespace, from both ends: the result is a
/// stretch of `s` with nothing but whitespace before and after it, and it neither
/// starts nor ends with whitespace.
pub proof fn law_trim(s: Seq<char>)
    ensures
        exists|a: int, b: int|
            {
                &&& 0 <= a <= b <= s.len()
                &&& trim(s) == s.subrange(a, b)
                &&& forall|i: int| 0 <= i < a ==> char_is_whitespace(#[trigger] s[i])
                &&& forall|i: int| b <= i < s.len() ==> char_is_whitespace(#[trigger] s[i])
            },
        trim(s).len() > 0 ==> !char_is_whitespace(trim(s)[0]) && !char_is_whitespace(
            trim(s).last(),
        ),
{
    let lo = trim_lo(s, 0);
    lemma_trim_lo(s, 0);
    let hi = trim_hi(s, lo, s.len() as int);
    lemma_trim_hi(s, lo, s.len() as int);
    let t = trim(s);
    assert(t == s.subrange(lo, hi));
    if t.len() > 0 {
        assert(t[0] == s[lo]);
        assert(t.last() == s[hi - 1]);
    }
    assert(0 <= lo <= hi <= s.len() && t == s.subrange(lo, hi) && (forall|i: int|
        0 <= i < lo ==> char_is_whitespace(#[trigger] s[i])) && (forall|i: int|
        hi <= i < s.len() ==> char_is_whitespace(#[trigger] s[i])));
}

/// `"\n"` when `s` ends with a line break, else nothing.
pub open spec fn final_break(s: Seq<char>) -> Seq<char> {
    if s.len() > 0 && s.last() == '\n' {
        seq!['\n']
    } else {
        seq![]
    }
}

proof fn lemma_lines_from(s: Seq<char>, start: int)
    requires
        0 <= start <= s.len(),
    ensures
        forall|i: int| 0 <= i < lines_from(s, start).len() ==> !contains(#[trigger] lines_from(s, start)[i], seq!['\n']),
        start == s.len() ==> lines_from(s, start).len() == 0,
        (forall|i: int| 0 <= i < s.len() ==> s[i] != '\r') && start < s.len() ==> {
            &&& lines_from(s, start).len() > 0
            &&& join(lines_from(s, start), seq!['\n']) + final_break(s) == s.subrange(start, s.len() as int)
        },
    decreases s.len() - start,
{
    let nl = seq!['\n'];
    let ls = lines_from(s, start);
    if start < s.len() {
        lemma_find_from(s, nl, start);
        match find_from(s, nl, start) {
            Some(k) => {
                lemma_lines_from(s, k + 1);
                let piece = s.subrange(start, k);
                let rest = lines_from(s, k + 1);
                lemma_no_match_inside(s, nl, start, k);
                assert(s.subrange(k, k + 1) == nl);
                assert(s.subrange(k, k + 1)[0] == s[k]);
                assert(s[k] == '\n');
                if piece.len() > 0 && piece.last() == '\r' {
                    assert(piece.drop_last() =~= s.subrange(start, k - 1));
                    assert forall|j: int| start <= j < k - 1 implies !matches_at(s, nl, j) by {
                        assert(start <= j < k);
                    }
                    lemma_no_match_inside(s, nl, start, k - 1);
                }
                assert(ls == seq![strip_cr(piece)] + rest);
                assert forall|i: int| 0 <= i < ls.len() implies !contains(#[trigger] ls[i], nl) by {
                    if i > 0 {
                        assert(ls[i] == rest[i - 1]);
                    }
                }
                if forall|i: int| 0 <= i < s.len() ==> s[i] != '\r' {
                    if piece.len() > 0 {
                        assert(piece.last() == s[k - 1]);
                    }
                    assert(strip_cr(piece) == piece);
                    assert(s.last() == '\n' ==> final_break(s) == nl);
                    if k + 1 == s.len() {
                        assert(rest.len() == 0);
                        assert(ls =~= seq![piece]);
                        assert(s.last() == s[k]);
                        assert(piece + nl =~= s.subrange(start, s.len() as int));
                    } else {
                        lemma_join_cons(piece, rest, nl);
                        assert(piece + nl + join(rest, nl) + final_break(s) =~= piece + nl + (join(
                            rest,
                            nl,
                        ) + final_break(s)));
                        assert(piece + nl + s.subrange(k + 1, s.len() as int) =~= s.subrange(
                            start,
                            s.len() as int,
                        ));
                    }
                }
            },
            None => {
                let piece = s.subrange(start, s.len() as int);
                lemma_no_match_inside(s, nl, start, s.len() as int);
                assert(ls == seq![piece]);
                assert(!matches_at(s, nl, s.len() - 1));
                assert(s.subrange(s.len() - 1, s.len() as int) =~= seq![s.last()]);
                assert(final_break(s) =~= Seq::<char>::empty());
                assert(join(ls, nl) == piece);
                assert(piece + final_break(s) =~= piece);
            },
        }
    }
}

/// No line holds a line break; and a text without `\r` is its lines joined by
/// `\n`, followed by the final `\n` where it ends with one.
pub proof fn law_lines(s: Seq<char>)
    ensures
        forall|i: int| 0 <= i < lines(s).len() ==> !contains(#[trigger] lines(s)[i], seq!['\n']),
        (forall|i: int| 0 <= i < s.len() ==> s[i] != '\r') ==> join(lines(s), seq!['\n'])
            + final_break(s) == s,
{
    lemma_lines_from(s, 0);
    assert(s.subrange(0, s.len() as int) =~= s);
    if s.len() == 0 {
        assert(final_break(s) =~= Seq::<char>::empty());
        assert(join(lines(s), seq!['\n']) =~= Seq::<char>::empty());
    }
}

/// Splitting once at a non-empty `p` cuts `s` at the first `p`: the two pieces
/// with `p` between them give `s` back and the first piece holds no `p`; where
/// `p` does not occur, `s` stays whole.
pub proof fn law_split_once(s: Seq<char>, p: Seq<char>)
    requires
        p.len() > 0,
    ensures
        !contains(s, p) ==> split_once(s, p) == seq![s],
        contains(s, p) ==> {
            &&& split_once(s, p).len() == 2
            &&& split_once(s, p)[0] + p + split_once(s, p)[1] == s
            &&& !contains(split_once(s, p)[0], p)
        },
{
    lemma_find_from(s, p, 0);
    if let Some(k) = find(s, p) {
        assert(s.subrange(k, k + p.len()) == p);
        assert(s.take(k) + p + s.skip(k + p.len()) =~= s);
        lemma_no_match_inside(s, p, 0, k);
        assert(s.subrange(0, k) =~= s.take(k));
    }
}

proof fn lemma_trim_lo_at(s: Seq<char>, i: int, k: int)
    requires
        0 <= i <= k < s.len(),
        forall|j: int| i <= j < k ==> char_is_whitespace(#[trigger] s[j]),
        !char_is_whitespace(s[k]),
    ensures
        trim_lo(s, i) == k,
    decreases k - i,
{
    if i < k {
        lemma_trim_lo_at(s, i + 1, k);
    }
}

proof fn lemma_trim_hi_at(s: Seq<char>, lo: int, j: int, k: int)
    requires
        lo < k <= j <= s.len(),
        forall|i: int| k <= i < j ==> char_is_whitespace(#[trigger] s[i]),
        !char_is_whitespace(s[k - 1]),
    ensures
        trim_hi(s, lo, j) == k,
    decreases j - k,
{
    if k < j {
        lemma_trim_hi_at(s, lo, j - 1, k);
    }
}

/// Trimming a text that neither starts nor ends with whitespace, with whitespace
/// around it, gives that text.
pub proof fn law_trim_around(a: Seq<char>, s: Seq<char>, b: Seq<char>)
    requires
        s.len() > 0,
        !char_is_whitespace(s[0]),
        !char_is_whitespace(s.last()),
        forall|i: int| 0 <= i < a.len() ==> char_is_whitespace(#[trigger] a[i]),
        forall|i: int| 0 <= i < b.len() ==> char_is_whitespace(#[trigger] b[i]),
    ensures
        trim(a + s + b) == s,
{
    let t = a + s + b;
    let lo = a.len() as int;
    let hi = (a.len() + s.len()) as int;
    assert(t[lo] == s[0]);
    assert forall|j: int| 0 <= j < lo implies char_is_whitespace(#[trigger] t[j]) by {
        assert(t[j] == a[j]);
    }
    lemma_trim_lo_at(t, 0, lo);
    assert(t[hi - 1] == s.last());
    assert forall|j: int| hi <= j < t.len() implies char_is_whitespace(#[trigger] t[j]) by {
        assert(t[j] == b[j - hi]);
    }
    lemma_trim_hi_at(t, lo, t.len() as int, hi);
    assert(t.subrange(lo, hi) =~= s);
}

} // verus!
