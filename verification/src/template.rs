//! Turning a page with embedded `<? ... ?>` code into Cyth source.
//!
//! The text outside the tags becomes numbered chunks, printed by
//! `printInternal(k)` calls; the code inside the tags is de-indented.
//! A mapping gives, for each line of the generated source, the line and
//! the column offset in the page where it came from, so that compiler
//! messages can point into the page. A page is turned into source when
//! `page_parsable` accepts it.
use vstd::prelude::*;
use vstd::seq_lib::lemma_flatten_concat;
use crate::text::{
    lemma_decimal_digits, lemma_lines_count, lemma_newlines_concat, lemma_newlines_none, newlines,
    append, ascii, copy_range, decimal, decimal_text, find_from, is_blank, is_blank_exec,
    leading_ws, leading_ws_len, lemma_find_from, lemma_lines_shape, lines_of, literal,
    occurs_at, split_lines, views,
};

verus! {

/// Line and column (both from 1) reached after the bytes `s[0..p]`.
pub open spec fn position(s: Seq<u8>, p: int) -> (int, int)
    decreases p,
{
    if p <= 0 {
        (1, 1)
    } else {
        let prev = position(s, p - 1);
        if s[p - 1] == 10 {
            (prev.0 + 1, 1)
        } else {
            (prev.0, prev.1 + 1)
        }
    }
}

/// Positions count from 1: the line is one more than the line feeds before the
/// position, and the column one more than the bytes since the last of them (or
/// since the start of the page).
pub proof fn positions_count_lines_and_columns(s: Seq<u8>, p: int)
    requires
        0 <= p <= s.len(),
    ensures
        position(s, p).0 == 1 + s.subrange(0, p).filter(|b: u8| b == 10u8).len(),
        forall|j: int|
            0 <= j < p && #[trigger] s[j] == 10 && (forall|i: int| j < i < p ==> s[i] != 10)
                ==> position(s, p).1 == p - j,
        (forall|i: int| 0 <= i < p ==> s[i] != 10) ==> position(s, p).1 == p + 1,
    decreases p,
{
    let lf = |b: u8| b == 10u8;
    reveal(Seq::filter);
    if p == 0 {
        assert(s.subrange(0, 0).filter(lf) =~= Seq::<u8>::empty());
    } else {
        positions_count_lines_and_columns(s, p - 1);
        let t = s.subrange(0, p);
        assert(t.drop_last() =~= s.subrange(0, p - 1));
        assert(t.last() == s[p - 1]);
        assert(t.filter(lf) == if lf(t.last()) {
            t.drop_last().filter(lf).push(t.last())
        } else {
            t.drop_last().filter(lf)
        });
        assert forall|j: int|
            0 <= j < p && #[trigger] s[j] == 10 && (forall|i: int| j < i < p ==> s[i] != 10)
                implies position(s, p).1 == p - j by {
            if j < p - 1 {
                assert(s[p - 1] != 10);
            }
        }
        if forall|i: int| 0 <= i < p ==> s[i] != 10 {
            assert(s[p - 1] != 10);
        }
    }
}

pub proof fn lemma_position_bounds(s: Seq<u8>, p: int)
    requires
        0 <= p,
    ensures
        1 <= position(s, p).0 <= p + 1,
        1 <= position(s, p).1 <= p + 1,
    decreases p,
{
    if p > 0 {
        lemma_position_bounds(s, p - 1);
    }
}

/// What a piece of a page contributes: generated source, text chunks and
/// mapping entries (line, column offset).
#[verifier::ext_equal]
pub struct Rendering {
    pub source: Seq<u8>,
    pub texts: Seq<Seq<u8>>,
    pub map: Seq<(int, int)>,
}

pub open spec fn nothing() -> Rendering {
    Rendering { source: Seq::empty(), texts: Seq::empty(), map: Seq::empty() }
}

pub open spec fn join(a: Rendering, b: Rendering) -> Rendering {
    Rendering { source: a.source + b.source, texts: a.texts + b.texts, map: a.map + b.map }
}

pub proof fn lemma_join_assoc(a: Rendering, b: Rendering, c: Rendering)
    ensures
        join(join(a, b), c) == join(a, join(b, c)),
{
    assert(join(join(a, b), c).source =~= join(a, join(b, c)).source);
    assert(join(join(a, b), c).texts =~= join(a, join(b, c)).texts);
    assert(join(join(a, b), c).map =~= join(a, join(b, c)).map);
}

pub proof fn lemma_join_nothing(a: Rendering)
    ensures
        join(a, nothing()) == a,
        join(nothing(), a) == a,
{
    assert(join(a, nothing()).source =~= a.source);
    assert(join(a, nothing()).texts =~= a.texts);
    assert(join(a, nothing()).map =~= a.map);
    assert(join(nothing(), a).source =~= a.source);
    assert(join(nothing(), a).texts =~= a.texts);
    assert(join(nothing(), a).map =~= a.map);
}

/// Mapping entries as integers.
pub open spec fn pairs(m: Seq<(i32, i32)>) -> Seq<(int, int)> {
    m.map_values(|p: (i32, i32)| (p.0 as int, p.1 as int))
}

// ---------------------------------------------------------------------------
// De-indenting a block of code.

/// The least indentation (leading white space) of the non-blank lines among the first `n`.
pub open spec fn indent_min(lines: Seq<Seq<u8>>, n: int) -> Option<int>
    decreases n,
{
    if n <= 0 {
        None
    } else {
        let prev = indent_min(lines, n - 1);
        let line = lines[n - 1];
        if is_blank(line) {
            prev
        } else {
            match prev {
                None => Some(leading_ws(line)),
                Some(m) => Some(
                    if leading_ws(line) < m {
                        leading_ws(line)
                    } else {
                        m
                    },
                ),
            }
        }
    }
}

/// The indentation common to the non-blank lines, 0 when there is none.
pub open spec fn common_indent(lines: Seq<Seq<u8>>) -> int {
    match indent_min(lines, lines.len() as int) {
        Some(m) => m,
        None => 0,
    }
}

/// How many leading bytes of `line` are cut when the common indentation is `m`.
pub open spec fn cut(line: Seq<u8>, m: int) -> int {
    if m < leading_ws(line) {
        m
    } else {
        leading_ws(line)
    }
}

/// What line `k` of a block that starts at (`line0`, `col0`) contributes:
/// nothing when blank; otherwise the line without the common indentation and a
/// line feed, mapped to its line and to the column offset of its first kept byte.
pub open spec fn dedent_line(line: Seq<u8>, m: int, k: int, line0: int, col0: int) -> Rendering {
    if is_blank(line) {
        nothing()
    } else {
        Rendering {
            source: line.subrange(cut(line, m), line.len() as int).push(10u8),
            texts: Seq::empty(),
            map: seq![(line0 + k, (if k == 0 { col0 } else { 1 }) - 1 + cut(line, m))],
        }
    }
}

/// What the first `n` lines contribute.
pub open spec fn dedent_lines(lines: Seq<Seq<u8>>, m: int, n: int, line0: int, col0: int) -> Rendering
    decreases n,
{
    if n <= 0 {
        nothing()
    } else {
        join(
            dedent_lines(lines, m, n - 1, line0, col0),
            dedent_line(lines[n - 1], m, n - 1, line0, col0),
        )
    }
}

/// A UTF-8 continuation byte: one that does not start a character.
pub open spec fn is_continuation(b: u8) -> bool {
    0x80 <= b < 0xC0
}

/// De-indenting the block cuts no line inside a character: on each non-blank
/// line, the first byte kept does not continue a character. (The common
/// indentation is counted in bytes, and lines may be indented with white space
/// of different widths.)
pub open spec fn cuts_on_boundaries(block: Seq<u8>) -> bool {
    let lines = split_lines(block);
    forall|k: int|
        0 <= k < lines.len() && !is_blank(#[trigger] lines[k]) ==> !is_continuation(
            lines[k][cut(lines[k], common_indent(lines))],
        )
}

/// De-indenting yields no text chunks.
pub proof fn lemma_dedent_no_texts(lines: Seq<Seq<u8>>, m: int, n: int, line0: int, col0: int)
    ensures
        dedent_lines(lines, m, n, line0, col0).texts == Seq::<Seq<u8>>::empty(),
    decreases n,
{
    if n > 0 {
        lemma_dedent_no_texts(lines, m, n - 1, line0, col0);
        assert(dedent_lines(lines, m, n, line0, col0).texts =~= Seq::<Seq<u8>>::empty());
    }
}

/// A block of code de-indented by its common indentation, blank lines left out.
pub open spec fn dedent_block(block: Seq<u8>, line0: int, col0: int) -> Rendering {
    let lines = split_lines(block);
    dedent_lines(lines, common_indent(lines), lines.len() as int, line0, col0)
}

// ---------------------------------------------------------------------------
// The parts of a page.

/// `<?`
pub open spec fn open_tag() -> Seq<u8> {
    seq![60u8, 63u8]
}

/// `?>`
pub open spec fn close_tag() -> Seq<u8> {
    seq![63u8, 62u8]
}

/// The call that prints text chunk `k`: `printInternal(k)` and a line feed.
pub open spec fn print_call(k: int) -> Seq<u8> {
    ascii("printInternal("@) + decimal(k as nat) + ascii(")\n"@)
}

/// Text `s[start..end]`, chunk number `k`; an empty text contributes nothing.
pub open spec fn text_part(s: Seq<u8>, start: int, end: int, k: int) -> Rendering {
    if start < end {
        Rendering {
            source: print_call(k),
            texts: seq![s.subrange(start, end)],
            map: seq![(position(s, start).0, position(s, start).1 - 1)],
        }
    } else {
        nothing()
    }
}

/// Code `s[start..end]`.
pub open spec fn code_part(s: Seq<u8>, start: int, end: int) -> Rendering {
    dedent_block(s.subrange(start, end), position(s, start).0, position(s, start).1)
}

/// What the page contributes from `start` on, in text mode or in code mode,
/// where `k` text chunks came before.
pub open spec fn render_from(s: Seq<u8>, start: int, code: bool, k: int) -> Rendering
    decreases s.len() - start,
{
    if start < 0 || start > s.len() {
        nothing()
    } else if !code {
        match find_from(s, open_tag(), start) {
            Some(i) => {
                proof {
                    lemma_find_from(s, open_tag(), start);
                }
                join(
                    text_part(s, start, i, k),
                    render_from(
                        s,
                        i + 2,
                        true,
                        if start < i {
                            k + 1
                        } else {
                            k
                        },
                    ),
                )
            },
            None => text_part(s, start, s.len() as int, k),
        }
    } else {
        match find_from(s, close_tag(), start) {
            Some(j) => {
                proof {
                    lemma_find_from(s, close_tag(), start);
                }
                join(code_part(s, start, j), render_from(s, j + 2, false, k))
            },
            None => code_part(s, start, s.len() as int),
        }
    }
}

/// The page can be turned into source: it has no code tag opened right before
/// a `>` (`<?>` in text, which the scan reads as an opening tag followed at once
/// by a closing one), and de-indenting its code blocks cuts no character.
pub open spec fn template_ok(s: Seq<u8>, start: int, code: bool) -> bool
    decreases s.len() - start,
{
    if start < 0 || start > s.len() {
        true
    } else if !code {
        match find_from(s, open_tag(), start) {
            Some(i) => {
                proof {
                    lemma_find_from(s, open_tag(), start);
                }
                !(i + 2 < s.len() && s[i + 2] == 62) && template_ok(s, i + 2, true)
            },
            None => true,
        }
    } else {
        match find_from(s, close_tag(), start) {
            Some(j) => {
                proof {
                    lemma_find_from(s, close_tag(), start);
                }
                cuts_on_boundaries(s.subrange(start, j)) && template_ok(s, j + 2, false)
            },
            None => cuts_on_boundaries(s.subrange(start, s.len() as int)),
        }
    }
}

/// The generated source of a page.
pub open spec fn script_source(s: Seq<u8>) -> Seq<u8> {
    render_from(s, 0, false, 0).source
}

/// The text chunks of a page.
pub open spec fn script_texts(s: Seq<u8>) -> Seq<Seq<u8>> {
    render_from(s, 0, false, 0).texts
}

/// The mapping of a page: one entry per generated source line, then the end of the page.
pub open spec fn script_mapping(s: Seq<u8>) -> Seq<(int, int)> {
    render_from(s, 0, false, 0).map.push((position(s, s.len() as int).0, position(s, s.len() as int).1 - 1))
}


// ---------------------------------------------------------------------------
// Every generated piece ends its lines, one mapping entry per line.

/// A generated piece is whole lines, one mapping entry for each.
pub open spec fn whole_lines(r: Rendering) -> bool {
    &&& newlines(r.source) == r.map.len()
    &&& (r.source.len() == 0 || r.source[r.source.len() - 1] == 10)
}

proof fn lemma_join_whole_lines(a: Rendering, b: Rendering)
    requires
        whole_lines(a),
        whole_lines(b),
    ensures
        whole_lines(join(a, b)),
{
    lemma_newlines_concat(a.source, b.source);
}

proof fn lemma_indent_min_nonneg(lines: Seq<Seq<u8>>, n: int)
    requires
        n <= lines.len(),
    ensures
        indent_min(lines, n) matches Some(m) ==> m >= 0,
    decreases n,
{
    if n > 0 {
        lemma_indent_min_nonneg(lines, n - 1);
        crate::text::lemma_ws_run_bounds(lines[n - 1], 0);
    }
}

proof fn lemma_dedent_whole_lines(lines: Seq<Seq<u8>>, m: int, n: int, line0: int, col0: int)
    requires
        n <= lines.len(),
        m >= 0,
        forall|a: int, b: int| 0 <= a < lines.len() && 0 <= b < lines[a].len() ==> lines[a][b]
            != 10,
    ensures
        whole_lines(dedent_lines(lines, m, n, line0, col0)),
    decreases n,
{
    if n > 0 {
        lemma_dedent_whole_lines(lines, m, n - 1, line0, col0);
        let line = lines[n - 1];
        if !is_blank(line) {
            crate::text::lemma_ws_run_bounds(line, 0);
            let kept = line.subrange(cut(line, m), line.len() as int);
            assert forall|b: int| 0 <= b < kept.len() implies kept[b] != 10 by {
                assert(kept[b] == line[cut(line, m) + b]);
            }
            lemma_newlines_none(kept);
            assert(kept.push(10u8).drop_last() =~= kept);
        }
        lemma_join_whole_lines(
            dedent_lines(lines, m, n - 1, line0, col0),
            dedent_line(lines[n - 1], m, n - 1, line0, col0),
        );
    }
}

proof fn lemma_code_whole_lines(s: Seq<u8>, start: int, end: int)
    requires
        0 <= start <= end <= s.len(),
    ensures
        whole_lines(code_part(s, start, end)),
{
    let block = s.subrange(start, end);
    crate::text::lemma_lines_shape(block, 0, 0);
    let lines = split_lines(block);
    lemma_indent_min_nonneg(lines, lines.len() as int);
    assert(common_indent(lines) >= 0);
    lemma_dedent_whole_lines(lines, common_indent(lines), lines.len() as int, position(s, start).0, position(s, start).1);
}

proof fn lemma_print_call_whole_line(k: int)
    ensures
        newlines(print_call(k)) == 1,
        print_call(k)[print_call(k).len() - 1] == 10,
{
    reveal_strlit("printInternal(");
    reveal_strlit(")\n");
    let p = ascii("printInternal("@);
    let d = decimal(k as nat);
    let c = ascii(")\n"@);
    lemma_newlines_none(p);
    lemma_decimal_digits(k as nat);
    lemma_newlines_none(d);
    lemma_newlines_concat(p, d);
    lemma_newlines_concat(p + d, c);
    assert(c.drop_last() =~= seq![41u8]);
    lemma_newlines_none(seq![41u8]);
}

proof fn lemma_render_whole_lines(s: Seq<u8>, start: int, code: bool, k: int)
    ensures
        whole_lines(render_from(s, start, code, k)),
    decreases s.len() - start,
{
    if start < 0 || start > s.len() {
    } else if !code {
        lemma_find_from(s, open_tag(), start);
        match find_from(s, open_tag(), start) {
            Some(i) => {
                if start < i {
                    lemma_print_call_whole_line(k);
                }
                lemma_render_whole_lines(s, i + 2, true, if start < i { k + 1 } else { k });
                lemma_join_whole_lines(
                    text_part(s, start, i, k),
                    render_from(s, i + 2, true, if start < i { k + 1 } else { k }),
                );
            },
            None => {
                if start < s.len() {
                    lemma_print_call_whole_line(k);
                }
            },
        }
    } else {
        lemma_find_from(s, close_tag(), start);
        match find_from(s, close_tag(), start) {
            Some(j) => {
                lemma_code_whole_lines(s, start, j);
                lemma_render_whole_lines(s, j + 2, false, k);
                lemma_join_whole_lines(code_part(s, start, j), render_from(s, j + 2, false, k));
            },
            None => {
                lemma_code_whole_lines(s, start, s.len() as int);
            },
        }
    }
}

/// The generated source has exactly one line per mapping entry, the end of the
/// page aside: the mapping can be indexed by any source line number.
pub proof fn source_lines_match_mapping(s: Seq<u8>)
    ensures
        split_lines(script_source(s)).len() + 1 == script_mapping(s).len(),
{
    lemma_render_whole_lines(s, 0, false, 0);
    lemma_lines_count(script_source(s), 0, 0);
    assert(script_source(s).subrange(0, script_source(s).len() as int) =~= script_source(s));
}

// ---------------------------------------------------------------------------
// What de-indenting removes.

proof fn lemma_indent_min(lines: Seq<Seq<u8>>, n: int)
    requires
        0 <= n <= lines.len(),
    ensures
        indent_min(lines, n) matches Some(m) ==> {
            &&& forall|j: int|
                0 <= j < n && !is_blank(#[trigger] lines[j]) ==> m <= leading_ws(lines[j])
            &&& exists|j: int|
                0 <= j < n && !is_blank(#[trigger] lines[j]) && leading_ws(lines[j]) == m
        },
        indent_min(lines, n) is None ==> forall|j: int|
            0 <= j < n ==> is_blank(#[trigger] lines[j]),
    decreases n,
{
    if n > 0 {
        lemma_indent_min(lines, n - 1);
        let line = lines[n - 1];
        if !is_blank(line) {
            match indent_min(lines, n - 1) {
                None => {
                    assert(!is_blank(lines[n - 1]) && leading_ws(lines[n - 1]) == leading_ws(
                        line,
                    ));
                },
                Some(m) => {
                    if leading_ws(line) < m {
                        assert(!is_blank(lines[n - 1]) && leading_ws(lines[n - 1]) == leading_ws(
                            line,
                        ));
                    }
                },
            }
        }
    }
}

/// De-indenting cuts the same bytes from every non-blank line of a block: its
/// common indentation, which is the least indentation of a non-blank line.
pub proof fn dedent_cuts_common_indent(lines: Seq<Seq<u8>>, k: int)
    requires
        0 <= k < lines.len(),
        !is_blank(lines[k]),
    ensures
        cut(lines[k], common_indent(lines)) == common_indent(lines),
        exists|j: int|
            0 <= j < lines.len() && !is_blank(#[trigger] lines[j]) && leading_ws(lines[j])
                == common_indent(lines),
{
    lemma_indent_min(lines, lines.len() as int);
}

proof fn lemma_dedent_lines_kept(
    lines: Seq<Seq<u8>>,
    cm: int,
    m: int,
    n: int,
    line0: int,
    col0: int,
)
    requires
        0 <= n <= lines.len(),
        forall|k: int|
            0 <= k < lines.len() && !is_blank(#[trigger] lines[k]) ==> cut(lines[k], cm) == m,
    ensures
        dedent_lines(lines, cm, n, line0, col0).source == Seq::new(n as nat, |k: int| k).filter_map(
            |k: int|
                if is_blank(lines[k]) {
                    None
                } else {
                    Some(lines[k].subrange(m, lines[k].len() as int).push(10u8))
                },
        ).flatten(),
        dedent_lines(lines, cm, n, line0, col0).map == Seq::new(n as nat, |k: int| k).filter_map(
            |k: int|
                if is_blank(lines[k]) {
                    None
                } else {
                    Some((line0 + k, (if k == 0 { col0 } else { 1 }) - 1 + m))
                },
        ),
    decreases n,
{
    let fs = |k: int|
        if is_blank(lines[k]) {
            None
        } else {
            Some(lines[k].subrange(m, lines[k].len() as int).push(10u8))
        };
    let fm = |k: int|
        if is_blank(lines[k]) {
            None
        } else {
            Some((line0 + k, (if k == 0 { col0 } else { 1 }) - 1 + m))
        };
    if n > 0 {
        lemma_dedent_lines_kept(lines, cm, m, n - 1, line0, col0);
        let idx = Seq::new(n as nat, |k: int| k);
        let prev = Seq::new((n - 1) as nat, |k: int| k);
        assert(idx.drop_last() =~= prev);
        assert(idx.last() == n - 1);
        let line = lines[n - 1];
        if is_blank(line) {
            assert(idx.filter_map(fs) == prev.filter_map(fs));
            assert(idx.filter_map(fm) == prev.filter_map(fm));
            assert(join(dedent_lines(lines, cm, n - 1, line0, col0), nothing()).source =~= dedent_lines(lines, cm, n - 1, line0, col0).source);
            assert(join(dedent_lines(lines, cm, n - 1, line0, col0), nothing()).map =~= dedent_lines(lines, cm, n - 1, line0, col0).map);
        } else {
            let piece = line.subrange(m, line.len() as int).push(10u8);
            assert(idx.filter_map(fs) == prev.filter_map(fs) + seq![piece]);
            assert(prev.filter_map(fs) + seq![piece] =~= prev.filter_map(fs).push(piece));
            prev.filter_map(fs).lemma_flatten_push(piece);
            assert(idx.filter_map(fm) == prev.filter_map(fm) + seq![
                (line0 + (n - 1), (if n - 1 == 0 { col0 } else { 1 }) - 1 + m),
            ]);
        }
    }
}

/// De-indenting a block keeps its non-blank lines, in order, each without
/// exactly the least indentation `m` found on a non-blank line of the block
/// (the rest of the line that holds `<?` counts like any other), each ended by
/// a line feed; blank lines give nothing. Each kept line is mapped to its page
/// line and to the column of its first kept byte.
pub proof fn dedent_cuts_least_indentation(block: Seq<u8>, line0: int, col0: int, m: int)
    requires
        forall|k: int|
            0 <= k < split_lines(block).len() && !is_blank(#[trigger] split_lines(block)[k])
                ==> m <= leading_ws(split_lines(block)[k]),
        (exists|k: int|
            0 <= k < split_lines(block).len() && !is_blank(#[trigger] split_lines(block)[k])
                && leading_ws(split_lines(block)[k]) == m) || (forall|k: int|
            0 <= k < split_lines(block).len() ==> is_blank(#[trigger] split_lines(block)[k])),
    ensures
        dedent_block(block, line0, col0).source == Seq::new(
            split_lines(block).len(),
            |k: int| k,
        ).filter_map(
            |k: int|
                if is_blank(split_lines(block)[k]) {
                    None
                } else {
                    Some(
                        split_lines(block)[k].subrange(m, split_lines(block)[k].len() as int).push(
                            10u8,
                        ),
                    )
                },
        ).flatten(),
        dedent_block(block, line0, col0).map == Seq::new(split_lines(block).len(), |k: int| k).filter_map(
            |k: int|
                if is_blank(split_lines(block)[k]) {
                    None
                } else {
                    Some((line0 + k, (if k == 0 { col0 } else { 1 }) - 1 + m))
                },
        ),
{
    let lines = split_lines(block);
    let cm = common_indent(lines);
    lemma_indent_min(lines, lines.len() as int);
    assert forall|k: int|
        0 <= k < lines.len() && !is_blank(#[trigger] lines[k]) implies cut(lines[k], cm) == m by {
        let j = choose|j: int| 0 <= j < lines.len() && !is_blank(#[trigger] lines[j]) && leading_ws(lines[j]) == m;
        assert(indent_min(lines, lines.len() as int) is Some);
    }
    lemma_dedent_lines_kept(lines, cm, m, lines.len() as int, line0, col0);
}

/// A page without `<?` is a single text chunk, the whole page, and the
/// source only prints it.
pub proof fn page_without_code_is_one_chunk(s: Seq<u8>)
    requires
        s.len() > 0,
        find_from(s, open_tag(), 0) is None,
    ensures
        script_texts(s) == seq![s],
        script_source(s) == print_call(0),
{
    assert(s.subrange(0, s.len() as int) =~= s);
}

// ---------------------------------------------------------------------------
// The text chunks are the page outside the code.

/// The bytes of the page outside the code tags, from `start` on, in text mode
/// or in code mode.
pub open spec fn text_outside(s: Seq<u8>, start: int, code: bool) -> Seq<u8>
    decreases s.len() - start,
{
    if start < 0 || start > s.len() {
        Seq::empty()
    } else if !code {
        match find_from(s, open_tag(), start) {
            Some(i) => {
                proof {
                    lemma_find_from(s, open_tag(), start);
                }
                s.subrange(start, i) + text_outside(s, i + 2, true)
            },
            None => s.subrange(start, s.len() as int),
        }
    } else {
        match find_from(s, close_tag(), start) {
            Some(j) => {
                proof {
                    lemma_find_from(s, close_tag(), start);
                }
                text_outside(s, j + 2, false)
            },
            None => Seq::empty(),
        }
    }
}

proof fn lemma_text_part_flat(s: Seq<u8>, start: int, end: int, k: int)
    requires
        0 <= start <= end <= s.len(),
    ensures
        text_part(s, start, end, k).texts.flatten() == s.subrange(start, end),
{
    if start < end {
        seq![s.subrange(start, end)].lemma_flatten_one_element();
    } else {
        assert(s.subrange(start, end) =~= Seq::<u8>::empty());
    }
}

proof fn lemma_code_part_flat(s: Seq<u8>, start: int, end: int)
    ensures
        code_part(s, start, end).texts.flatten() == Seq::<u8>::empty(),
{
    let block = s.subrange(start, end);
    let lines = split_lines(block);
    lemma_dedent_no_texts(lines, common_indent(lines), lines.len() as int, position(s, start).0, position(s, start).1);
}

proof fn lemma_texts_outside(s: Seq<u8>, start: int, code: bool, k: int)
    ensures
        render_from(s, start, code, k).texts.flatten() == text_outside(s, start, code),
    decreases s.len() - start,
{
    if start < 0 || start > s.len() {
    } else if !code {
        lemma_find_from(s, open_tag(), start);
        match find_from(s, open_tag(), start) {
            Some(i) => {
                let k2 = if start < i {
                    k + 1
                } else {
                    k
                };
                lemma_texts_outside(s, i + 2, true, k2);
                lemma_text_part_flat(s, start, i, k);
                lemma_flatten_concat(text_part(s, start, i, k).texts, render_from(s, i + 2, true, k2).texts);
            },
            None => {
                lemma_text_part_flat(s, start, s.len() as int, k);
            },
        }
    } else {
        lemma_find_from(s, close_tag(), start);
        match find_from(s, close_tag(), start) {
            Some(j) => {
                lemma_texts_outside(s, j + 2, false, k);
                lemma_code_part_flat(s, start, j);
                lemma_flatten_concat(code_part(s, start, j).texts, render_from(s, j + 2, false, k).texts);
            },
            None => {
                lemma_code_part_flat(s, start, s.len() as int);
            },
        }
    }
}

/// Printing the text chunks in order gives back, unchanged, every byte of the
/// page outside the code tags.
pub proof fn texts_are_the_page_outside_code(s: Seq<u8>)
    ensures
        script_texts(s).flatten() == text_outside(s, 0, false),
{
    lemma_texts_outside(s, 0, false, 0);
}

// ---------------------------------------------------------------------------
// Executable side.

/// What has been generated so far.
pub open spec fn so_far(source: Seq<u8>, texts: Seq<Seq<u8>>, map: Seq<(int, int)>) -> Rendering {
    Rendering { source, texts, map }
}

/// The indentation common to the non-blank lines, 0 when there is none.
fn common_indent_of(lines: &Vec<Vec<u8>>) -> (m: usize)
    ensures
        m as int == common_indent(views(lines@)),
{
    let ghost ls = views(lines@);
    let mut least: Option<usize> = None;
    let mut k: usize = 0;
    while k < lines.len()
        invariant
            views(lines@) == ls,
            k <= lines@.len(),
            match least {
                None => indent_min(ls, k as int) is None,
                Some(m) => indent_min(ls, k as int) == Some(m as int),
            },
        decreases lines@.len() - k,
    {
        let l = lines[k].as_slice();
        assert(l@ == ls[k as int]);
        if !is_blank_exec(l) {
            let w = leading_ws_len(l);
            least =
            match least {
                None => Some(w),
                Some(m) => Some(
                    if w < m {
                        w
                    } else {
                        m
                    },
                ),
            };
        }
        k += 1;
    }
    match least {
        Some(m) => m,
        None => 0,
    }
}

/// Tests whether de-indenting a block of code cuts no line inside a character.
fn block_cuts_on_boundaries(block: &[u8]) -> (r: bool)
    ensures
        r == cuts_on_boundaries(block@),
{
    let lines = lines_of(block);
    let ghost ls = split_lines(block@);
    let m = common_indent_of(&lines);
    let mut k: usize = 0;
    while k < lines.len()
        invariant
            ls == split_lines(block@),
            views(lines@) == ls,
            k <= lines@.len(),
            m as int == common_indent(ls),
            forall|j: int|
                0 <= j < k && !is_blank(#[trigger] ls[j]) ==> !is_continuation(
                    ls[j][cut(ls[j], common_indent(ls))],
                ),
        decreases lines@.len() - k,
    {
        let l = lines[k].as_slice();
        assert(l@ == ls[k as int]);
        if !is_blank_exec(l) {
            let w = leading_ws_len(l);
            let c = if m < w {
                m
            } else {
                w
            };
            assert(c as int == cut(ls[k as int], common_indent(ls)));
            if 0x80 <= l[c] && l[c] < 0xC0 {
                proof {
                    let kk = k as int;
                    assert(0 <= kk < ls.len());
                    assert(!is_blank(ls[kk]));
                    assert(is_continuation(ls[kk][cut(ls[kk], common_indent(ls))]));
                    assert(!cuts_on_boundaries(block@));
                }
                return false;
            }
        }
        k += 1;
    }
    true
}

/// Removes the common indentation and the blank lines of a block of code that
/// starts at (`line`, `column`) of the page, recording in `mapping` where each
/// kept line came from.
fn dedent(input: &[u8], mapping: &mut Vec<(i32, i32)>, line: i32, column: i32) -> (r: Vec<u8>)
    requires
        1 <= line,
        1 <= column,
        line + input@.len() <= i32::MAX,
        column + input@.len() <= i32::MAX,
    ensures
        r@ == dedent_block(input@, line as int, column as int).source,
        pairs(final(mapping)@) == pairs(old(mapping)@) + dedent_block(
            input@,
            line as int,
            column as int,
        ).map,
{
    let lines = lines_of(input);
    proof {
        lemma_lines_shape(input@, 0, 0);
    }
    let ghost ls = split_lines(input@);
    let m = common_indent_of(&lines);
    let mut result: Vec<u8> = Vec::new();
    let mut line = line;
    let mut column = column;
    let ghost line0 = line as int;
    let ghost col0 = column as int;
    let ghost before = pairs(mapping@);
    assert(result@ =~= dedent_lines(ls, m as int, 0, line0, col0).source);
    assert(pairs(mapping@) =~= before + dedent_lines(ls, m as int, 0, line0, col0).map);
    let mut k: usize = 0;
    while k < lines.len()
        invariant
            views(lines@) == ls,
            k <= lines@.len(),
            ls.len() <= input@.len(),
            forall|n: int| 0 <= n < ls.len() ==> #[trigger] ls[n].len() <= input@.len(),
            m as int == common_indent(ls),
            line as int == line0 + k,
            column as int == (if k == 0 {
                col0
            } else {
                1
            }),
            line0 + input@.len() <= i32::MAX,
            col0 + input@.len() <= i32::MAX,
            1 <= col0,
            result@ == dedent_lines(ls, m as int, k as int, line0, col0).source,
            pairs(mapping@) == before + dedent_lines(ls, m as int, k as int, line0, col0).map,
        decreases lines@.len() - k,
    {
        let l = lines[k].as_slice();
        assert(l@ == ls[k as int]);
        let ghost piece = dedent_line(ls[k as int], m as int, k as int, line0, col0);
        if is_blank_exec(l) {
            proof {
                lemma_join_nothing(dedent_lines(ls, m as int, k as int, line0, col0));
            }
        } else {
            let w = leading_ws_len(l);
            let start = if m < w {
                m
            } else {
                w
            };
            let kept = copy_range(l, start, l.len());
            let ghost mapping_before = mapping@;
            append(&mut result, kept.as_slice());
            result.push(10u8);
            mapping.push((line, (column - 1) + start as i32));
            proof {
                assert(piece.source =~= kept@.push(10u8));
                assert(pairs(mapping@) =~= pairs(mapping_before).push(
                    (line as int, column - 1 + start),
                ));
            }
        }
        proof {
            let prev = dedent_lines(ls, m as int, k as int, line0, col0);
            assert(dedent_lines(ls, m as int, k + 1, line0, col0) == join(prev, piece));
            assert(result@ =~= join(prev, piece).source);
            assert(pairs(mapping@) =~= before + join(prev, piece).map);
        }
        line = line + 1;
        column = 1;
        k += 1;
    }
    proof {
        assert(ls.len() == lines@.len());
    }
    result
}


/// Turns a page into Cyth source: the generated source, the text chunks, and the
/// mapping from source lines to page positions.
///
/// Text outside `<? ... ?>` becomes chunk `k`, printed by a line
/// `printInternal(k)`; code inside the tags is de-indented. A page that ends
/// inside a tag is code up to its end. The last mapping entry is the end of the
/// page.
pub fn parse_script(input: &[u8]) -> (r: (Vec<u8>, Vec<Vec<u8>>, Vec<(i32, i32)>))
    requires
        input@.len() <= 0x7fff_fff0,
        template_ok(input@, 0, false),
    ensures
        r.0@ == script_source(input@),
        views(r.1@) == script_texts(input@),
        pairs(r.2@) == script_mapping(input@),
{
    let s = input;
    let n = s.len();
    let mut output: Vec<u8> = Vec::new();
    let mut code = false;
    let mut text: Vec<Vec<u8>> = Vec::new();
    let mut mapping: Vec<(i32, i32)> = Vec::new();
    let mut line: i32 = 1;
    let mut column: i32 = 1;
    let mut start: usize = 0;
    let mut start_line: i32 = 1;
    let mut start_column: i32 = 1;
    let ghost whole = render_from(s@, 0, false, 0);
    proof {
        lemma_join_nothing(whole);
        assert(so_far(output@, views(text@), pairs(mapping@)) =~= nothing());
    }
    let mut i: usize = 0;
    while i < n
        invariant
            n == s@.len(),
            n <= 0x7fff_fff0,
            i <= n,
            start <= n,
            start <= i + 1,
            text@.len() <= i,
            line as int == position(s@, i as int).0,
            column as int == position(s@, i as int).1,
            start_line as int == position(s@, start as int).0,
            start_column as int == position(s@, start as int).1,
            whole == render_from(s@, 0, false, 0),
            join(
                so_far(output@, views(text@), pairs(mapping@)),
                render_from(s@, start as int, code, text@.len() as int),
            ) == whole,
            template_ok(s@, start as int, code),
            !code ==> find_from(s@, open_tag(), start as int) == find_from(
                s@,
                open_tag(),
                i as int,
            ),
            code ==> find_from(s@, close_tag(), start as int) == find_from(
                s@,
                close_tag(),
                i as int,
            ),
        decreases n - i,
    {
        proof {
            lemma_position_bounds(s@, i as int);
            lemma_position_bounds(s@, start as int);
        }
        let b = s[i];
        if b == 10 {
            line = line + 1;
            column = 1;
        } else {
            column = column + 1;
        }
        assert(line as int == position(s@, i + 1).0 && column as int == position(s@, i + 1).1);
        let opens = !code && b == 60 && i + 1 < n && s[i + 1] == 63;
        let closes = code && b == 63 && i + 1 < n && s[i + 1] == 62;
        proof {
            assert(occurs_at(s@, open_tag(), i as int) ==> b == 60 && i + 1 < n && s@[i + 1]
                == 63) by {
                if occurs_at(s@, open_tag(), i as int) {
                    assert(s@.subrange(i as int, i + 2)[0] == b);
                    assert(s@.subrange(i as int, i + 2)[1] == s@[i + 1]);
                }
            }
            assert(occurs_at(s@, close_tag(), i as int) ==> b == 63 && i + 1 < n && s@[i + 1]
                == 62) by {
                if occurs_at(s@, close_tag(), i as int) {
                    assert(s@.subrange(i as int, i + 2)[0] == b);
                    assert(s@.subrange(i as int, i + 2)[1] == s@[i + 1]);
                }
            }
        }
        if opens {
            let ghost k = text@.len() as int;
            let ghost acc = so_far(output@, views(text@), pairs(mapping@));
            proof {
                assert(s@.subrange(i as int, i + 2) =~= open_tag());
                assert(find_from(s@, open_tag(), i as int) == Some(i as int));
                lemma_find_from(s@, open_tag(), start as int);
            }
            let ghost part = text_part(s@, start as int, i as int, k);
            let ghost rest = render_from(s@, i + 2, true, if start < i {
                k + 1
            } else {
                k
            });
            assert(render_from(s@, start as int, false, k) == join(part, rest));
            if start < i {
                let digits = decimal_text(text.len() as u64);
                proof {
                    reveal_strlit("printInternal(");
                    reveal_strlit(")\n");
                }
                let mut call = literal("printInternal(");
                append(&mut call, digits.as_slice());
                let close = literal(")\n");
                append(&mut call, close.as_slice());
                let ghost before_map = mapping@;
                let ghost before_text = text@;
                append(&mut output, call.as_slice());
                mapping.push((start_line, start_column - 1));
                let chunk = copy_range(s, start, i);
                text.push(chunk);
                proof {
                    assert(call@ =~= print_call(k));
                    assert(pairs(mapping@) =~= pairs(before_map).push(
                        (start_line as int, start_column - 1),
                    ));
                    assert(views(text@) =~= views(before_text).push(chunk@));
                    assert(so_far(output@, views(text@), pairs(mapping@)) =~= join(acc, part));
                }
            } else {
                proof {
                    lemma_join_nothing(acc);
                }
            }
            proof {
                lemma_join_assoc(acc, part, rest);
                assert(text@.len() == (if start < i {
                    k + 1
                } else {
                    k
                }));
                assert(template_ok(s@, i + 2, true));
                if i + 3 <= n {
                    assert(!occurs_at(s@, close_tag(), i + 1)) by {
                        if occurs_at(s@, close_tag(), i + 1) {
                            assert(s@.subrange(i + 1, i + 3)[1] == s@[i + 2]);
                        }
                    }
                }
                assert(find_from(s@, close_tag(), i + 2) == find_from(s@, close_tag(), i + 1));
            }
            start_column = column + 1;
            start_line = line;
            start = i + 2;
            code = true;
        } else if closes {
            let ghost k = text@.len() as int;
            let ghost acc = so_far(output@, views(text@), pairs(mapping@));
            proof {
                assert(s@.subrange(i as int, i + 2) =~= close_tag());
                assert(find_from(s@, close_tag(), i as int) == Some(i as int));
                lemma_find_from(s@, close_tag(), start as int);
            }
            let ghost part = code_part(s@, start as int, i as int);
            let ghost rest = render_from(s@, i + 2, false, k);
            assert(render_from(s@, start as int, true, k) == join(part, rest));
            let block = copy_range(s, start, i);
            let ghost before_map = mapping@;
            let code_text = dedent(block.as_slice(), &mut mapping, start_line, start_column);
            append(&mut output, code_text.as_slice());
            proof {
                let bl = split_lines(block@);
                lemma_dedent_no_texts(bl, common_indent(bl), bl.len() as int, start_line as int, start_column as int);
                assert(so_far(output@, views(text@), pairs(mapping@)) =~= join(acc, part));
                lemma_join_assoc(acc, part, rest);
                assert(template_ok(s@, i + 2, false));
                if i + 3 <= n {
                    assert(!occurs_at(s@, open_tag(), i + 1)) by {
                        if occurs_at(s@, open_tag(), i + 1) {
                            assert(s@.subrange(i + 1, i + 3)[0] == s@[i + 1]);
                        }
                    }
                }
                assert(find_from(s@, open_tag(), i + 2) == find_from(s@, open_tag(), i + 1));
            }
            start_column = column + 1;
            start_line = line;
            start = i + 2;
            code = false;
        } else {
            proof {
                if !code {
                    assert(!occurs_at(s@, open_tag(), i as int));
                    assert(find_from(s@, open_tag(), i as int) == find_from(
                        s@,
                        open_tag(),
                        i + 1,
                    ));
                } else {
                    assert(!occurs_at(s@, close_tag(), i as int));
                    assert(find_from(s@, close_tag(), i as int) == find_from(
                        s@,
                        close_tag(),
                        i + 1,
                    ));
                }
            }
        }
        i += 1;
    }
    let ghost k = text@.len() as int;
    let ghost acc = so_far(output@, views(text@), pairs(mapping@));
    proof {
        lemma_position_bounds(s@, start as int);
        lemma_position_bounds(s@, n as int);
    }
    if code {
        assert(render_from(s@, start as int, true, k) == code_part(s@, start as int, n as int));
        let block = copy_range(s, start, n);
        let code_text = dedent(block.as_slice(), &mut mapping, start_line, start_column);
        append(&mut output, code_text.as_slice());
        proof {
            let bl = split_lines(block@);
            lemma_dedent_no_texts(bl, common_indent(bl), bl.len() as int, start_line as int, start_column as int);
            lemma_join_nothing(acc);
        }
        assert(so_far(output@, views(text@), pairs(mapping@)) =~= whole);
    } else {
        assert(render_from(s@, start as int, false, k) == text_part(
            s@,
            start as int,
            n as int,
            k,
        ));
        if start < n {
            let digits = decimal_text(text.len() as u64);
            proof {
                reveal_strlit("printInternal(");
                reveal_strlit(")\n");
            }
            let mut call = literal("printInternal(");
            append(&mut call, digits.as_slice());
            let close = literal(")\n");
            append(&mut call, close.as_slice());
            let ghost before_map = mapping@;
            let ghost before_text = text@;
            append(&mut output, call.as_slice());
            mapping.push((start_line, start_column - 1));
            let chunk = copy_range(s, start, n);
            text.push(chunk);
            proof {
                assert(call@ =~= print_call(k));
                assert(pairs(mapping@) =~= pairs(before_map).push(
                    (start_line as int, start_column - 1),
                ));
                assert(views(text@) =~= views(before_text).push(chunk@));
                assert(so_far(output@, views(text@), pairs(mapping@)) =~= whole);
            }
        } else {
            proof {
                lemma_join_nothing(acc);
            }
        }
    }
    let ghost before_map = mapping@;
    mapping.push((line, column - 1));
    proof {
        assert(pairs(mapping@) =~= pairs(before_map).push(
            (position(s@, n as int).0, position(s@, n as int).1 - 1),
        ));
    }
    (output, text, mapping)
}


/// Tests whether a page can be turned into source: whether no code tag is
/// opened right before a `>` (`<?>` read in text), and no code block is
/// de-indented inside a character.
pub fn page_parsable(input: &[u8]) -> (r: bool)
    ensures
        r == template_ok(input@, 0, false),
{
    let s = input;
    let n = s.len();
    let mut code = false;
    let mut start: usize = 0;
    let mut i: usize = 0;
    while i < n
        invariant
            n == s@.len(),
            s@ == input@,
            i <= n,
            start <= n,
            start <= i + 1,
            template_ok(s@, 0, false) == template_ok(s@, start as int, code),
            !code ==> find_from(s@, open_tag(), start as int) == find_from(
                s@,
                open_tag(),
                i as int,
            ),
            code ==> find_from(s@, close_tag(), start as int) == find_from(
                s@,
                close_tag(),
                i as int,
            ),
        decreases n - i,
    {
        let b = s[i];
        let opens = !code && b == 60 && i + 1 < n && s[i + 1] == 63;
        let closes = code && b == 63 && i + 1 < n && s[i + 1] == 62;
        proof {
            assert(occurs_at(s@, open_tag(), i as int) ==> b == 60 && i + 1 < n && s@[i + 1]
                == 63) by {
                if occurs_at(s@, open_tag(), i as int) {
                    assert(s@.subrange(i as int, i + 2)[0] == b);
                    assert(s@.subrange(i as int, i + 2)[1] == s@[i + 1]);
                }
            }
            assert(occurs_at(s@, close_tag(), i as int) ==> b == 63 && i + 1 < n && s@[i + 1]
                == 62) by {
                if occurs_at(s@, close_tag(), i as int) {
                    assert(s@.subrange(i as int, i + 2)[0] == b);
                    assert(s@.subrange(i as int, i + 2)[1] == s@[i + 1]);
                }
            }
        }
        if opens {
            proof {
                assert(s@.subrange(i as int, i + 2) =~= open_tag());
                assert(find_from(s@, open_tag(), i as int) == Some(i as int));
                lemma_find_from(s@, open_tag(), start as int);
            }
            if i + 2 < n && s[i + 2] == 62 {
                assert(!template_ok(s@, start as int, false));
                return false;
            }
            proof {
                if i + 3 <= n {
                    assert(!occurs_at(s@, close_tag(), i + 1)) by {
                        if occurs_at(s@, close_tag(), i + 1) {
                            assert(s@.subrange(i + 1, i + 3)[1] == s@[i + 2]);
                        }
                    }
                }
                assert(find_from(s@, close_tag(), i + 2) == find_from(s@, close_tag(), i + 1));
            }
            start = i + 2;
            code = true;
        } else if closes {
            proof {
                assert(s@.subrange(i as int, i + 2) =~= close_tag());
                assert(find_from(s@, close_tag(), i as int) == Some(i as int));
                lemma_find_from(s@, close_tag(), start as int);
            }
            let block = copy_range(s, start, i);
            if !block_cuts_on_boundaries(block.as_slice()) {
                return false;
            }
            proof {
                if i + 3 <= n {
                    assert(!occurs_at(s@, open_tag(), i + 1)) by {
                        if occurs_at(s@, open_tag(), i + 1) {
                            assert(s@.subrange(i + 1, i + 3)[0] == s@[i + 1]);
                        }
                    }
                }
                assert(find_from(s@, open_tag(), i + 2) == find_from(s@, open_tag(), i + 1));
            }
            start = i + 2;
            code = false;
        } else {
            proof {
                if !code {
                    assert(!occurs_at(s@, open_tag(), i as int));
                    assert(find_from(s@, open_tag(), i as int) == find_from(
                        s@,
                        open_tag(),
                        i + 1,
                    ));
                } else {
                    assert(!occurs_at(s@, close_tag(), i as int));
                    assert(find_from(s@, close_tag(), i as int) == find_from(
                        s@,
                        close_tag(),
                        i + 1,
                    ));
                }
            }
        }
        i += 1;
    }
    if code {
        proof {
            lemma_find_from(s@, close_tag(), start as int);
        }
        let block = copy_range(s, start, n);
        block_cuts_on_boundaries(block.as_slice())
    } else {
        true
    }
}

} // verus!
