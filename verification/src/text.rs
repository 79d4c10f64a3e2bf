use vstd::prelude::*;

verus! {

/// The bytes of an ASCII character sequence.
pub open spec fn ascii(s: Seq<char>) -> Seq<u8> {
    s.map_values(|c: char| c as u8)
}

/// Copies an ASCII string literal into a byte vector.
pub fn literal(s: &str) -> (r: Vec<u8>)
    requires
        s.is_ascii(),
    ensures
        r@ == ascii(s@),
{
    broadcast use vstd::string::is_ascii_spec_bytes;

    let b = s.as_bytes();
    let mut r: Vec<u8> = Vec::new();
    let mut i: usize = 0;
    while i < b.len()
        invariant
            i <= b@.len(),
            b@.len() == s@.len(),
            forall|j: int| 0 <= j < s@.len() ==> b@[j] == s@[j] as u8,
            r@ == ascii(s@).take(i as int),
        decreases b@.len() - i,
    {
        r.push(b[i]);
        i += 1;
        assert(r@ =~= ascii(s@).take(i as int));
    }
    assert(r@ =~= ascii(s@));
    r
}

/// Appends a byte slice to a byte vector.
pub fn append(dst: &mut Vec<u8>, src: &[u8])
    ensures
        final(dst)@ == old(dst)@ + src@,
{
    let mut i: usize = 0;
    while i < src.len()
        invariant
            i <= src@.len(),
            dst@ == old(dst)@ + src@.take(i as int),
        decreases src@.len() - i,
    {
        dst.push(src[i]);
        i += 1;
        assert(dst@ =~= old(dst)@ + src@.take(i as int));
    }
    assert(src@.take(src@.len() as int) =~= src@);
}

/// Copies a byte slice into a new vector.
pub fn to_vec(src: &[u8]) -> (r: Vec<u8>)
    ensures
        r@ == src@,
{
    let mut r: Vec<u8> = Vec::new();
    append(&mut r, src);
    assert(r@ =~= src@);
    r
}

/// Copies the bytes `src[from..to]` into a new vector.
pub fn copy_range(src: &[u8], from: usize, to: usize) -> (r: Vec<u8>)
    requires
        from <= to <= src@.len(),
    ensures
        r@ == src@.subrange(from as int, to as int),
{
    let mut r: Vec<u8> = Vec::new();
    let mut i: usize = from;
    while i < to
        invariant
            from <= i <= to,
            to <= src@.len(),
            r@ == src@.subrange(from as int, i as int),
        decreases to - i,
    {
        r.push(src[i]);
        i += 1;
        assert(r@ =~= src@.subrange(from as int, i as int));
    }
    r
}

/// Byte-wise equality of two slices.
pub fn same_bytes(a: &[u8], b: &[u8]) -> (r: bool)
    ensures
        r == (a@ == b@),
{
    if a.len() != b.len() {
        return false;
    }
    let mut i: usize = 0;
    while i < a.len()
        invariant
            i <= a@.len(),
            a@.len() == b@.len(),
            a@.take(i as int) == b@.take(i as int),
        decreases a@.len() - i,
    {
        if a[i] != b[i] {
            assert(a@[i as int] != b@[i as int]);
            return false;
        }
        i += 1;
        assert(a@.take(i as int) =~= b@.take(i as int)) by {
            assert(a@.take(i as int) =~= a@.take(i - 1).push(a@[i - 1]));
            assert(b@.take(i as int) =~= b@.take(i - 1).push(b@[i - 1]));
        }
    }
    assert(a@ =~= a@.take(a@.len() as int));
    assert(b@ =~= b@.take(b@.len() as int));
    true
}

// ---------------------------------------------------------------------------
// Decimal text of integers, as `Display` writes it.

/// Decimal digits of a natural number, most significant first, without leading zeros.
pub open spec fn decimal(n: nat) -> Seq<u8>
    decreases n,
{
    if n < 10 {
        seq![(48 + n) as u8]
    } else {
        decimal(n / 10).push((48 + n % 10) as u8)
    }
}

/// Decimal text of an integer, with a leading `-` for negative values.
pub open spec fn signed_decimal(v: int) -> Seq<u8> {
    if v < 0 {
        seq![45u8] + decimal((-v) as nat)
    } else {
        decimal(v as nat)
    }
}

/// Decimal text of an unsigned integer.
pub fn decimal_text(n: u64) -> (r: Vec<u8>)
    ensures
        r@ == decimal(n as nat),
    decreases n,
{
    if n < 10 {
        let mut r: Vec<u8> = Vec::new();
        r.push((48 + n) as u8);
        assert(r@ =~= decimal(n as nat));
        r
    } else {
        let mut r = decimal_text(n / 10);
        r.push((48 + n % 10) as u8);
        r
    }
}

/// Decimal text of a signed integer.
pub fn signed_text(v: i32) -> (r: Vec<u8>)
    ensures
        r@ == signed_decimal(v as int),
{
    if v < 0 {
        let magnitude: u64 = (0i64 - (v as i64)) as u64;
        let digits = decimal_text(magnitude);
        let mut r: Vec<u8> = Vec::new();
        r.push(45u8);
        append(&mut r, digits.as_slice());
        assert(r@ =~= signed_decimal(v as int));
        r
    } else {
        decimal_text(v as u64)
    }
}

/// Decimal digits never contain a line feed.
pub proof fn lemma_decimal_digits(n: nat)
    ensures
        decimal(n).len() >= 1,
        forall|k: int| 0 <= k < decimal(n).len() ==> 48 <= #[trigger] decimal(n)[k] <= 57,
    decreases n,
{
    if n >= 10 {
        lemma_decimal_digits(n / 10);
    }
}

// ---------------------------------------------------------------------------
// Substring search, as `str::find` and `str::contains` do it on the bytes.

/// `pat` occurs in `s` at byte index `i`.
pub open spec fn occurs_at(s: Seq<u8>, pat: Seq<u8>, i: int) -> bool {
    0 <= i && i + pat.len() <= s.len() && s.subrange(i, i + pat.len()) == pat
}

/// The first index at or after `from` where `pat` occurs in `s`.
pub open spec fn find_from(s: Seq<u8>, pat: Seq<u8>, from: int) -> Option<int>
    decreases s.len() + 1 - from,
{
    if from < 0 || from + pat.len() > s.len() {
        None
    } else if occurs_at(s, pat, from) {
        Some(from)
    } else {
        find_from(s, pat, from + 1)
    }
}

/// The first index where `pat` occurs in `s`.
pub open spec fn find(s: Seq<u8>, pat: Seq<u8>) -> Option<int> {
    find_from(s, pat, 0)
}

/// What `find_from` returns is an occurrence, and none comes before it.
pub proof fn lemma_find_from(s: Seq<u8>, pat: Seq<u8>, from: int)
    requires
        0 <= from,
    ensures
        find_from(s, pat, from) matches Some(i) ==> from <= i && occurs_at(s, pat, i) && forall|
            j: int,
        | from <= j < i ==> !occurs_at(s, pat, j),
        find_from(s, pat, from) is None ==> forall|j: int|
            from <= j ==> !occurs_at(s, pat, j),
    decreases s.len() + 1 - from,
{
    if from + pat.len() > s.len() {
    } else if occurs_at(s, pat, from) {
    } else {
        lemma_find_from(s, pat, from + 1);
    }
}

/// Tests whether `pat` occurs in `s` at index `i`.
pub fn occurs_at_exec(s: &[u8], pat: &[u8], i: usize) -> (r: bool)
    ensures
        r == occurs_at(s@, pat@, i as int),
{
    let n = s.len();
    if pat.len() > n || i > n - pat.len() {
        return false;
    }
    let mut k: usize = 0;
    while k < pat.len()
        invariant
            k <= pat@.len(),
            n == s@.len(),
            i + pat@.len() <= s@.len(),
            forall|m: int| 0 <= m < k ==> s@[i + m] == pat@[m],
        decreases pat@.len() - k,
    {
        if s[i + k] != pat[k] {
            assert(s@.subrange(i as int, i + pat@.len())[k as int] != pat@[k as int]);
            return false;
        }
        k += 1;
    }
    assert(s@.subrange(i as int, i + pat@.len()) =~= pat@);
    true
}

/// The first index where `pat` occurs in `s`, as `str::find` returns it.
pub fn find_bytes(s: &[u8], pat: &[u8]) -> (r: Option<usize>)
    ensures
        r matches Some(i) ==> find(s@, pat@) == Some(i as int),
        r is None ==> find(s@, pat@) is None,
{
    if pat.len() > s.len() {
        return None;
    }
    if pat.len() == 0 {
        assert(s@.subrange(0, 0) =~= pat@);
        return Some(0);
    }
    let last = s.len() - pat.len();
    let mut i: usize = 0;
    while i <= last
        invariant
            last + pat@.len() == s@.len(),
            pat@.len() > 0,
            last < s.len(),
            i <= last + 1,
            find(s@, pat@) == find_from(s@, pat@, i as int),
        decreases last + 1 - i,
    {
        if occurs_at_exec(s, pat, i) {
            return Some(i);
        }
        i += 1;
    }
    None
}

/// Tests whether `pat` occurs anywhere in `s`, as `str::contains` does.
pub fn contains_bytes(s: &[u8], pat: &[u8]) -> (r: bool)
    ensures
        r == find(s@, pat@) is Some,
{
    find_bytes(s, pat).is_some()
}

// ---------------------------------------------------------------------------
// Unicode white space, as `char::is_whitespace` defines it, on UTF-8 bytes.

/// A one-byte white-space character: tab, line feed, vertical tab, form feed,
/// carriage return or space.
pub open spec fn is_ws1(a: u8) -> bool {
    a == 9 || a == 10 || a == 11 || a == 12 || a == 13 || a == 32
}

/// The UTF-8 encoding of U+0085 or U+00A0.
pub open spec fn is_ws2(a: u8, b: u8) -> bool {
    a == 0xC2 && (b == 0x85 || b == 0xA0)
}

/// The UTF-8 encoding of U+1680, U+2000..=U+200A, U+2028, U+2029, U+202F, U+205F or U+3000.
pub open spec fn is_ws3(a: u8, b: u8, c: u8) -> bool {
    ||| a == 0xE1 && b == 0x9A && c == 0x80
    ||| a == 0xE2 && b == 0x80 && ((0x80 <= c && c <= 0x8A) || c == 0xA8 || c == 0xA9 || c
        == 0xAF)
    ||| a == 0xE2 && b == 0x81 && c == 0x9F
    ||| a == 0xE3 && b == 0x80 && c == 0x80
}

/// The byte width of the white-space character that starts at `i`, or 0.
pub open spec fn ws_width(s: Seq<u8>, i: int) -> int {
    if 0 <= i < s.len() && is_ws1(s[i]) {
        1
    } else if 0 <= i && i + 1 < s.len() && is_ws2(s[i], s[i + 1]) {
        2
    } else if 0 <= i && i + 2 < s.len() && is_ws3(s[i], s[i + 1], s[i + 2]) {
        3
    } else {
        0
    }
}

/// The byte width of the white-space character that ends just before `e`, or 0.
pub open spec fn ws_width_back(s: Seq<u8>, e: int) -> int {
    if 1 <= e <= s.len() && is_ws1(s[e - 1]) {
        1
    } else if 2 <= e <= s.len() && is_ws2(s[e - 2], s[e - 1]) {
        2
    } else if 3 <= e <= s.len() && is_ws3(s[e - 3], s[e - 2], s[e - 1]) {
        3
    } else {
        0
    }
}

/// Byte length of the run of white space that starts at `i`.
pub open spec fn ws_run(s: Seq<u8>, i: int) -> int
    decreases s.len() - i,
{
    if 0 <= i < s.len() && ws_width(s, i) > 0 {
        ws_width(s, i) + ws_run(s, i + ws_width(s, i))
    } else {
        0
    }
}

/// Byte length of the run of white space that ends just before `e`.
pub open spec fn ws_run_back(s: Seq<u8>, e: int) -> int
    decreases e,
{
    if 0 < e <= s.len() && ws_width_back(s, e) > 0 {
        ws_width_back(s, e) + ws_run_back(s, e - ws_width_back(s, e))
    } else {
        0
    }
}

/// Byte length of the leading white space, what `trim_start` removes.
pub open spec fn leading_ws(s: Seq<u8>) -> int {
    ws_run(s, 0)
}

/// Byte length of the trailing white space, what `trim_end` removes.
pub open spec fn trailing_ws(s: Seq<u8>) -> int {
    ws_run_back(s, s.len() as int)
}

/// The text holds white space only (what `trim().is_empty()` tests).
pub open spec fn is_blank(s: Seq<u8>) -> bool {
    leading_ws(s) == s.len()
}

/// The text without leading and trailing white space, what `trim` returns.
pub open spec fn trim(s: Seq<u8>) -> Seq<u8> {
    let t = s.subrange(leading_ws(s), s.len() as int);
    t.subrange(0, t.len() - trailing_ws(t))
}

pub proof fn lemma_ws_run_bounds(s: Seq<u8>, i: int)
    requires
        0 <= i <= s.len(),
    ensures
        0 <= ws_run(s, i) <= s.len() - i,
    decreases s.len() - i,
{
    if i < s.len() && ws_width(s, i) > 0 {
        lemma_ws_run_bounds(s, i + ws_width(s, i));
    }
}

pub proof fn lemma_ws_run_back_bounds(s: Seq<u8>, e: int)
    requires
        0 <= e <= s.len(),
    ensures
        0 <= ws_run_back(s, e) <= e,
    decreases e,
{
    if 0 < e && ws_width_back(s, e) > 0 {
        lemma_ws_run_back_bounds(s, e - ws_width_back(s, e));
    }
}

/// The width of the white-space character that starts at `i`.
pub fn ws_width_exec(s: &[u8], i: usize) -> (r: usize)
    ensures
        r as int == ws_width(s@, i as int),
{
    let n = s.len();
    if i < n && (s[i] == 9 || s[i] == 10 || s[i] == 11 || s[i] == 12 || s[i] == 13 || s[i]
        == 32) {
        1
    } else if i < n && n - i > 1 && s[i] == 0xC2 && (s[i + 1] == 0x85 || s[i + 1] == 0xA0) {
        2
    } else if i < n && n - i > 2 && is_ws3_exec(s[i], s[i + 1], s[i + 2]) {
        3
    } else {
        0
    }
}

fn is_ws3_exec(a: u8, b: u8, c: u8) -> (r: bool)
    ensures
        r == is_ws3(a, b, c),
{
    (a == 0xE1 && b == 0x9A && c == 0x80) || (a == 0xE2 && b == 0x80 && ((0x80 <= c && c
        <= 0x8A) || c == 0xA8 || c == 0xA9 || c == 0xAF)) || (a == 0xE2 && b == 0x81 && c
        == 0x9F) || (a == 0xE3 && b == 0x80 && c == 0x80)
}

/// The width of the white-space character that ends just before `e`.
pub fn ws_width_back_exec(s: &[u8], e: usize) -> (r: usize)
    ensures
        r as int == ws_width_back(s@, e as int),
{
    let n = s.len();
    if 1 <= e && e <= n && (s[e - 1] == 9 || s[e - 1] == 10 || s[e - 1] == 11 || s[e - 1]
        == 12 || s[e - 1] == 13 || s[e - 1] == 32) {
        1
    } else if 2 <= e && e <= n && s[e - 2] == 0xC2 && (s[e - 1] == 0x85 || s[e - 1] == 0xA0) {
        2
    } else if 3 <= e && e <= n && is_ws3_exec(s[e - 3], s[e - 2], s[e - 1]) {
        3
    } else {
        0
    }
}

/// Byte length of the leading white space of `s`.
pub fn leading_ws_len(s: &[u8]) -> (r: usize)
    ensures
        r as int == leading_ws(s@),
        r <= s@.len(),
{
    let mut i: usize = 0;
    let n = s.len();
    proof {
        lemma_ws_run_bounds(s@, 0);
    }
    loop
        invariant
            i <= s@.len(),
            n == s@.len(),
            i + ws_run(s@, i as int) == leading_ws(s@),
        decreases s@.len() - i,
    {
        let w = ws_width_exec(s, i);
        if w == 0 {
            return i;
        }
        proof {
            lemma_ws_run_bounds(s@, i + w);
        }
        i = i + w;
    }
}

/// Byte length of the trailing white space of `s`.
pub fn trailing_ws_len(s: &[u8]) -> (r: usize)
    ensures
        r as int == trailing_ws(s@),
        r <= s@.len(),
{
    let mut e: usize = s.len();
    proof {
        lemma_ws_run_back_bounds(s@, s@.len() as int);
    }
    loop
        invariant
            e <= s@.len(),
            (s@.len() - e) + ws_run_back(s@, e as int) == trailing_ws(s@),
        decreases e,
    {
        let w = ws_width_back_exec(s, e);
        if w == 0 {
            return s.len() - e;
        }
        proof {
            lemma_ws_run_back_bounds(s@, e - w);
        }
        e = e - w;
    }
}

/// The bytes of `s` without leading and trailing white space.
pub fn trim_bytes(s: &[u8]) -> (r: Vec<u8>)
    ensures
        r@ == trim(s@),
{
    let a = leading_ws_len(s);
    let t = copy_range(s, a, s.len());
    let b = trailing_ws_len(t.as_slice());
    copy_range(t.as_slice(), 0, t.len() - b)
}

/// Tests whether `s` holds white space only.
pub fn is_blank_exec(s: &[u8]) -> (r: bool)
    ensures
        r == is_blank(s@),
{
    leading_ws_len(s) == s.len()
}

// ---------------------------------------------------------------------------
// Lines, as `str::lines` splits them.

/// Drops one carriage return at the end.
pub open spec fn strip_cr(t: Seq<u8>) -> Seq<u8> {
    if t.len() > 0 && t[t.len() - 1] == 13 {
        t.drop_last()
    } else {
        t
    }
}

/// The lines of `s[c..]`, scanning from index `i`, where the current line started at `c`.
pub open spec fn lines_scan(s: Seq<u8>, i: int, c: int) -> Seq<Seq<u8>>
    decreases s.len() - i,
{
    if i < 0 || i >= s.len() {
        if 0 <= c < s.len() {
            seq![s.subrange(c, s.len() as int)]
        } else {
            seq![]
        }
    } else if s[i] == 10 {
        seq![strip_cr(s.subrange(c, i))] + lines_scan(s, i + 1, i + 1)
    } else {
        lines_scan(s, i + 1, c)
    }
}

/// The lines of `s`: split at each line feed, a carriage return before the line feed
/// dropped, and no empty last line after a final line feed.
pub open spec fn split_lines(s: Seq<u8>) -> Seq<Seq<u8>> {
    lines_scan(s, 0, 0)
}

/// Number of line feeds in `s`.
pub open spec fn newlines(s: Seq<u8>) -> nat
    decreases s.len(),
{
    if s.len() == 0 {
        0
    } else {
        newlines(s.drop_last()) + (if s.last() == 10 {
            1nat
        } else {
            0nat
        })
    }
}

pub proof fn lemma_newlines_concat(a: Seq<u8>, b: Seq<u8>)
    ensures
        newlines(a + b) == newlines(a) + newlines(b),
    decreases b.len(),
{
    if b.len() > 0 {
        lemma_newlines_concat(a, b.drop_last());
        assert((a + b).drop_last() =~= a + b.drop_last());
    } else {
        assert(a + b =~= a);
    }
}

pub proof fn lemma_newlines_none(s: Seq<u8>)
    requires
        forall|k: int| 0 <= k < s.len() ==> s[k] != 10,
    ensures
        newlines(s) == 0,
    decreases s.len(),
{
    if s.len() > 0 {
        lemma_newlines_none(s.drop_last());
    }
}

/// The lines of a text that is empty or ends with a line feed are as many as its line feeds.
pub proof fn lemma_lines_count(s: Seq<u8>, i: int, c: int)
    requires
        0 <= c <= i <= s.len(),
        forall|k: int| c <= k < i ==> s[k] != 10,
        s.len() == 0 || s[s.len() - 1] == 10,
    ensures
        lines_scan(s, i, c).len() == newlines(s.subrange(i, s.len() as int)),
    decreases s.len() - i,
{
    if i == s.len() {
        assert(s.subrange(i, s.len() as int).len() == 0);
        if c < s.len() {
            assert(s[s.len() - 1] != 10);
        }
    } else {
        let rest = s.subrange(i + 1, s.len() as int);
        assert(s.subrange(i, s.len() as int) =~= seq![s[i]] + rest);
        lemma_newlines_concat(seq![s[i]], rest);
        assert(newlines(seq![s[i]]) == (if s[i] == 10 {
            1nat
        } else {
            0nat
        })) by {
            assert(seq![s[i]].drop_last() =~= Seq::<u8>::empty());
            assert(newlines(Seq::<u8>::empty()) == 0);
        }
        if s[i] == 10 {
            lemma_lines_count(s, i + 1, i + 1);
        } else {
            lemma_lines_count(s, i + 1, c);
        }
    }
}

/// No line of `split_lines` holds a line feed; there are no more lines than
/// bytes, and no line is longer than the text.
pub proof fn lemma_lines_shape(s: Seq<u8>, i: int, c: int)
    requires
        0 <= c <= i <= s.len(),
        forall|k: int| c <= k < i ==> s[k] != 10,
    ensures
        lines_scan(s, i, c).len() <= s.len() - c,
        forall|n: int|
            0 <= n < lines_scan(s, i, c).len() ==> #[trigger] lines_scan(s, i, c)[n].len()
                <= s.len(),
        forall|n: int, k: int|
            0 <= n < lines_scan(s, i, c).len() && 0 <= k < lines_scan(s, i, c)[n].len()
                ==> lines_scan(s, i, c)[n][k] != 10,
    decreases s.len() - i,
{
    if i == s.len() {
        if c < s.len() {
            let last = s.subrange(c, s.len() as int);
            assert(lines_scan(s, i, c) == seq![last]);
            assert forall|n: int, k: int|
                0 <= n < lines_scan(s, i, c).len() && 0 <= k < lines_scan(s, i, c)[n].len()
                    implies lines_scan(s, i, c)[n][k] != 10 by {
                assert(n == 0);
                assert(last[k] == s[c + k]);
            }
        }
    } else if s[i] == 10 {
        lemma_lines_shape(s, i + 1, i + 1);
        let head = strip_cr(s.subrange(c, i));
        assert forall|k: int| 0 <= k < head.len() implies head[k] != 10 by {
            assert(head[k] == s.subrange(c, i)[k]);
            assert(s.subrange(c, i)[k] == s[c + k]);
        }
        let rest = lines_scan(s, i + 1, i + 1);
        assert(lines_scan(s, i, c) == seq![head] + rest);
        assert forall|n: int, k: int|
            0 <= n < lines_scan(s, i, c).len() && 0 <= k < lines_scan(s, i, c)[n].len()
                implies lines_scan(s, i, c)[n][k] != 10 by {
            if n > 0 {
                assert(lines_scan(s, i, c)[n] == rest[n - 1]);
            }
        }
        assert forall|n: int| 0 <= n < lines_scan(s, i, c).len() implies #[trigger] lines_scan(
            s,
            i,
            c,
        )[n].len() <= s.len() by {
            if n > 0 {
                assert(lines_scan(s, i, c)[n] == rest[n - 1]);
            }
        }
    } else {
        lemma_lines_shape(s, i + 1, c);
        assert(lines_scan(s, i, c) == lines_scan(s, i + 1, c));
    }
}

/// The contents of a vector of byte vectors.
pub open spec fn views(v: Seq<Vec<u8>>) -> Seq<Seq<u8>> {
    v.map_values(|x: Vec<u8>| x@)
}

/// The lines of `s`, as `str::lines` yields them.
pub fn lines_of(s: &[u8]) -> (r: Vec<Vec<u8>>)
    ensures
        views(r@) == split_lines(s@),
{
    let mut r: Vec<Vec<u8>> = Vec::new();
    let mut i: usize = 0;
    let mut c: usize = 0;
    while i < s.len()
        invariant
            c <= i <= s@.len(),
            views(r@) + lines_scan(s@, i as int, c as int) == split_lines(s@),
        decreases s@.len() - i,
    {
        if s[i] == 10 {
            let mut e = i;
            if e > c && s[e - 1] == 13 {
                e = e - 1;
            }
            let line = copy_range(s, c, e);
            let ghost before = views(r@);
            proof {
                let t = s@.subrange(c as int, i as int);
                assert(line@ =~= strip_cr(t));
                assert(lines_scan(s@, i as int, c as int) == seq![line@] + lines_scan(
                    s@,
                    i + 1,
                    i + 1,
                ));
            }
            r.push(line);
            proof {
                assert(views(r@) =~= before.push(line@));
                assert(views(r@) + lines_scan(s@, i + 1, i + 1) =~= before + lines_scan(
                    s@,
                    i as int,
                    c as int,
                ));
            }
            c = i + 1;
        }
        i += 1;
    }
    if c < s.len() {
        let line = copy_range(s, c, s.len());
        let ghost before = views(r@);
        proof {
            assert(lines_scan(s@, i as int, c as int) == seq![line@]);
        }
        r.push(line);
        proof {
            assert(views(r@) =~= before.push(line@));
            assert(views(r@) =~= before + lines_scan(s@, i as int, c as int));
        }
    } else {
        assert(views(r@) =~= views(r@) + lines_scan(s@, i as int, c as int));
    }
    r
}

} // verus!
