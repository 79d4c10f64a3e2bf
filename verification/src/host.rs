//! What the host does for a running script: the output and headers it
//! collects, the environment it reads, the messages it writes when the
//! script fails to compile or panics, and the response it frames.
use vstd::prelude::*;
use crate::cyth::{CyArray, CyString, cyth_new_array, cyth_new_string};
use crate::environ::{Environs, cookie_value, distinct, environ_or_empty, find_cookie};
use crate::template::pairs;
use crate::text::{
    append, ascii, contains_bytes, decimal, decimal_text, find, lemma_find_from, literal,
    occurs_at, same_bytes, signed_decimal, signed_text, views,
};

verus! {

/// The contents of Cyth strings.
pub open spec fn strings(v: Seq<CyString>) -> Seq<Seq<u8>> {
    v.map_values(|c: CyString| c.data@)
}

/// `print`: appends the string to the output.
pub fn print(output: &mut Vec<u8>, input: &CyString)
    ensures
        final(output)@ == old(output)@ + input.data@,
{
    append(output, input.data.as_slice());
}

/// `println`: appends the string and a line feed to the output.
pub fn println(output: &mut Vec<u8>, input: &CyString)
    ensures
        final(output)@ == old(output)@ + input.data@.push(10u8),
{
    append(output, input.data.as_slice());
    output.push(10u8);
    assert(output@ =~= old(output)@ + input.data@.push(10u8));
}

/// `printInternal`: appends text chunk `n` of the page to the output; an index
/// out of range appends nothing.
pub fn print_internal(output: &mut Vec<u8>, text: &Vec<Vec<u8>>, n: i32)
    ensures
        final(output)@ == if 0 <= n < text@.len() {
            old(output)@ + text@[n as int]@
        } else {
            old(output)@
        },
{
    if n >= 0 && (n as usize) < text.len() {
        append(output, text[n as usize].as_slice());
    }
}

/// `header`: appends a header line to the headers.
pub fn header(headers: &mut Vec<u8>, input: &CyString)
    ensures
        final(headers)@ == old(headers)@ + input.data@.push(10u8),
{
    append(headers, input.data.as_slice());
    headers.push(10u8);
    assert(headers@ =~= old(headers)@ + input.data@.push(10u8));
}

/// `body`: the body of the request.
pub fn body(input: &Vec<u8>) -> (r: CyString)
    ensures
        r.data@ == input@,
        r.size == input@.len() as i32,
{
    cyth_new_string(input.as_slice())
}

/// `query`: the query string of the request, empty when there is none.
pub fn query(environs: &Environs) -> (r: CyString)
    ensures
        r.data@ == environ_or_empty(environs@, ascii("QUERY_STRING"@)),
        r.size == r.data@.len() as i32,
{
    proof {
        reveal_strlit("QUERY_STRING");
    }
    let key = literal("QUERY_STRING");
    let value = environs.get_or_empty(key.as_slice());
    cyth_new_string(value.as_slice())
}

/// `getEnviron`: the value of an environment variable, empty when unset.
pub fn get_environ(environs: &Environs, key: &CyString) -> (r: CyString)
    ensures
        r.data@ == environ_or_empty(environs@, key.data@),
        r.size == r.data@.len() as i32,
{
    let value = environs.get_or_empty(key.data.as_slice());
    cyth_new_string(value.as_slice())
}

/// `getEnvirons`: the names of all environment variables, each once.
pub fn get_environs(environs: &Environs) -> (r: CyArray<CyString>)
    ensures
        distinct(strings(r.data@)),
        forall|k: Seq<u8>| environs@.contains_key(k) <==> strings(r.data@).contains(k),
        r.size == r.data@.len() as i32,
        r.capacity == r.data@.len() as i32,
{
    let names = environs.names_list();
    let mut list: Vec<CyString> = Vec::new();
    let mut i: usize = 0;
    while i < names.len()
        invariant
            i <= names@.len(),
            strings(list@) == views(names@).take(i as int),
        decreases names@.len() - i,
    {
        let ghost before = strings(list@);
        let s = cyth_new_string(names[i].as_slice());
        list.push(s);
        proof {
            assert(strings(list@) =~= before.push(s.data@));
        }
        i += 1;
        assert(strings(list@) =~= views(names@).take(i as int));
    }
    assert(strings(list@) =~= views(names@));
    cyth_new_array(list)
}

/// `cookie`: the value of a cookie of the request, empty when it has none.
pub fn cookie(environs: &Environs, name: &CyString) -> (r: CyString)
    ensures
        r.data@ == cookie_value(environ_or_empty(environs@, ascii("HTTP_COOKIE"@)), name.data@),
        r.size == r.data@.len() as i32,
{
    proof {
        reveal_strlit("HTTP_COOKIE");
    }
    let key = literal("HTTP_COOKIE");
    let header = environs.get_or_empty(key.as_slice());
    let value = find_cookie(header.as_slice(), name.data.as_slice());
    cyth_new_string(value.as_slice())
}

// ---------------------------------------------------------------------------
// Compiler messages and panics.

/// Where line `line` of the generated source came from: the mapping entry,
/// or (`line`, 0) when there is none.
pub open spec fn mapped(mapping: Seq<(int, int)>, line: int) -> (int, int) {
    if 1 <= line && line - 1 < mapping.len() {
        mapping[line - 1]
    } else {
        (line, 0)
    }
}

/// The line of a compiler message: `file:line:column-line:column: message`.
pub open spec fn error_line(
    filename: Seq<u8>,
    l1: int,
    c1: int,
    l2: int,
    c2: int,
    message: Seq<u8>,
) -> Seq<u8> {
    filename + seq![58u8] + signed_decimal(l1) + seq![58u8] + signed_decimal(c1) + seq![45u8]
        + signed_decimal(l2) + seq![58u8] + signed_decimal(c2) + seq![58u8, 32u8] + message
        + seq![10u8]
}

/// The positions a compiler message about `filename` points to: in the page
/// itself, lines and columns of the generated source are mapped back to the
/// page; in another file they stay.
pub open spec fn reported_positions(
    path: Seq<u8>,
    mapping: Seq<(int, int)>,
    filename: Seq<u8>,
    start_line: int,
    start_column: int,
    end_line: int,
    end_column: int,
) -> (int, int, int, int) {
    if filename == path {
        let s = mapped(mapping, start_line);
        let e = mapped(mapping, end_line);
        (s.0, s.1 + start_column, e.0, e.1 + end_column)
    } else {
        (start_line, start_column, end_line, end_column)
    }
}

/// A message about the page points into the page: a position on source line
/// `l` (counted from 1) with a mapping entry is reported on that entry's page
/// line, at the entry's column offset plus the message's column; a position on
/// a line without an entry is reported as it is. A message about another file
/// keeps its positions.
pub proof fn messages_point_into_the_page(
    path: Seq<u8>,
    mapping: Seq<(int, int)>,
    filename: Seq<u8>,
    start_line: int,
    start_column: int,
    end_line: int,
    end_column: int,
)
    ensures
        ({
            let p = reported_positions(
                path,
                mapping,
                filename,
                start_line,
                start_column,
                end_line,
                end_column,
            );
            &&& filename == path && 1 <= start_line <= mapping.len() ==> p.0 == mapping[start_line
                - 1].0 && p.1 == mapping[start_line - 1].1 + start_column
            &&& filename == path && 1 <= end_line <= mapping.len() ==> p.2 == mapping[end_line
                - 1].0 && p.3 == mapping[end_line - 1].1 + end_column
            &&& filename == path && !(1 <= start_line <= mapping.len()) ==> p.0 == start_line
                && p.1 == start_column
            &&& filename == path && !(1 <= end_line <= mapping.len()) ==> p.2 == end_line && p.3
                == end_column
            &&& filename != path ==> p == (start_line, start_column, end_line, end_column)
        }),
{
}

/// A frame of a panic trace on source line `l` (from 1) with a mapping entry
/// is reported on that entry's page line and column offset; on a line without
/// one, on line `l` itself with no offset.
pub proof fn panics_point_into_the_page(mapping: Seq<(int, int)>, line: int)
    ensures
        1 <= line <= mapping.len() ==> mapped(mapping, line) == mapping[line - 1],
        !(1 <= line <= mapping.len()) ==> mapped(mapping, line) == (line, 0int),
{
}

/// The page position that line `line` of the generated source maps to: the
/// mapping entry for it, or (`line`, 0) when there is none.
pub fn mapped_position(mapping: &Vec<(i32, i32)>, line: i32) -> (r: (i32, i32))
    requires
        line > i32::MIN,
    ensures
        (r.0 as int, r.1 as int) == mapped(pairs(mapping@), line as int),
{
    if line >= 1 && ((line - 1) as usize) < mapping.len() {
        mapping[(line - 1) as usize]
    } else {
        (line, 0)
    }
}

fn push_number(out: &mut Vec<u8>, v: i32)
    ensures
        final(out)@ == old(out)@ + signed_decimal(v as int),
{
    let digits = signed_text(v);
    append(out, digits.as_slice());
}

/// Appends to the output the line of a compiler message about `filename`,
/// with the positions mapped back into the page when the message is about it.
pub fn report_error(
    output: &mut Vec<u8>,
    path: &Vec<u8>,
    mapping: &Vec<(i32, i32)>,
    filename: &[u8],
    start_line: i32,
    start_column: i32,
    end_line: i32,
    end_column: i32,
    message: &[u8],
)
    requires
        filename@ == path@ ==> {
            &&& start_line > i32::MIN
            &&& end_line > i32::MIN
            &&& i32::MIN <= mapped(pairs(mapping@), start_line as int).1 + start_column
                <= i32::MAX
            &&& i32::MIN <= mapped(pairs(mapping@), end_line as int).1 + end_column <= i32::MAX
        },
    ensures
        ({
            let p = reported_positions(
                path@,
                pairs(mapping@),
                filename@,
                start_line as int,
                start_column as int,
                end_line as int,
                end_column as int,
            );
            final(output)@ == old(output)@ + error_line(filename@, p.0, p.1, p.2, p.3, message@)
        }),
{
    let (l1, c1, l2, c2) = if same_bytes(filename, path.as_slice()) {
        let (ms_line, ms_column) = mapped_position(mapping, start_line);
        let (me_line, me_column) = mapped_position(mapping, end_line);
        (ms_line, ms_column + start_column, me_line, me_column + end_column)
    } else {
        (start_line, start_column, end_line, end_column)
    };
    append(output, filename);
    output.push(58u8);
    push_number(output, l1);
    output.push(58u8);
    push_number(output, c1);
    output.push(45u8);
    push_number(output, l2);
    output.push(58u8);
    push_number(output, c2);
    output.push(58u8);
    output.push(32u8);
    append(output, message);
    output.push(10u8);
    assert(output@ =~= old(output)@ + error_line(
        filename@,
        l1 as int,
        c1 as int,
        l2 as int,
        c2 as int,
        message@,
    ));
}

/// The headers that a fatal error leaves.
pub open spec fn fatal_headers() -> Seq<u8> {
    ascii("Status: 500 Internal Server Error\nContent-Type: text/plain\n"@)
}

/// A frame of a panic trace: `  at function:line:column`.
pub open spec fn trace_line(function: Seq<u8>, line: int, column: int) -> Seq<u8> {
    ascii("  at "@) + function + seq![58u8] + signed_decimal(line) + seq![58u8] + signed_decimal(
        column,
    ) + seq![10u8]
}

/// Records a panic of the script: at line 0 and column 0 `function` is the
/// panic message, which replaces the headers with those of an internal error
/// and goes to the output; otherwise it is a frame of the trace, whose
/// position is mapped back into the page.
pub fn report_panic(
    headers: &mut Vec<u8>,
    output: &mut Vec<u8>,
    mapping: &Vec<(i32, i32)>,
    function: &[u8],
    line: i32,
    column: i32,
)
    requires
        line > i32::MIN,
        !(line == 0 && column == 0) ==> i32::MIN <= mapped(pairs(mapping@), line as int).1
            + column <= i32::MAX,
    ensures
        line == 0 && column == 0 ==> {
            &&& final(headers)@ == fatal_headers()
            &&& final(output)@ == old(output)@ + function@.push(10u8)
        },
        !(line == 0 && column == 0) ==> {
            &&& final(headers)@ == old(headers)@
            &&& final(output)@ == old(output)@ + trace_line(
                function@,
                mapped(pairs(mapping@), line as int).0,
                mapped(pairs(mapping@), line as int).1 + column,
            )
        },
{
    if line == 0 && column == 0 {
        proof {
            reveal_strlit("Status: 500 Internal Server Error\nContent-Type: text/plain\n");
        }
        *headers = literal("Status: 500 Internal Server Error\nContent-Type: text/plain\n");
        append(output, function);
        output.push(10u8);
        assert(output@ =~= old(output)@ + function@.push(10u8));
    } else {
        let (mapped_line, mapped_column) = mapped_position(mapping, line);
        proof {
            reveal_strlit("  at ");
        }
        let prefix = literal("  at ");
        append(output, prefix.as_slice());
        append(output, function);
        output.push(58u8);
        push_number(output, mapped_line);
        output.push(58u8);
        push_number(output, mapped_column + column);
        output.push(10u8);
        assert(output@ =~= old(output)@ + trace_line(
            function@,
            mapped_line as int,
            mapped_column + column,
        ));
    }
}

// ---------------------------------------------------------------------------
// The response.

/// A Content-Type that the script set, wherever it stands among its headers,
/// is kept and no second one is added; headers without one anywhere get the
/// HTML default after them.
pub proof fn default_content_type_only_when_none_is_set(headers: Seq<u8>)
    ensures
        (exists|i: int| occurs_at(headers, ascii("Content-Type:"@), i)) ==> with_content_type(
            headers,
        ) == headers,
        (forall|i: int| !occurs_at(headers, ascii("Content-Type:"@), i)) ==> with_content_type(
            headers,
        ) == headers + ascii("Content-Type: text/html; charset=UTF-8\n"@),
{
    lemma_find_from(headers, ascii("Content-Type:"@), 0);
    if exists|i: int| occurs_at(headers, ascii("Content-Type:"@), i) {
        let i = choose|i: int| occurs_at(headers, ascii("Content-Type:"@), i);
        assert(0 <= i);
    }
}


/// `Content-Type:`
pub open spec fn content_type_marker() -> Seq<u8> {
    ascii("Content-Type:"@)
}

/// The headers with the default content type added when none is set.
pub open spec fn with_content_type(headers: Seq<u8>) -> Seq<u8> {
    if find(headers, content_type_marker()) is Some {
        headers
    } else {
        headers + ascii("Content-Type: text/html; charset=UTF-8\n"@)
    }
}

/// The response: the interval line, the content length, the headers, a blank
/// line and the output.
pub open spec fn response(interval: Seq<u8>, headers: Seq<u8>, output: Seq<u8>) -> Seq<u8> {
    ascii("Interval: "@) + interval + ascii("\nContent-Length: "@) + decimal(output.len()) + seq![
        10u8,
    ] + headers + seq![10u8] + output
}

/// Completes a run: sets the HTML content type unless the script set one,
/// and frames the response with the time the run took (`interval`), the
/// length of the output, the headers and the output.
pub fn finish_response(headers: &mut Vec<u8>, output: &[u8], interval: &[u8]) -> (r: Vec<u8>)
    ensures
        final(headers)@ == with_content_type(old(headers)@),
        find(final(headers)@, content_type_marker()) is Some,
        r@ == response(interval@, final(headers)@, output@),
{
    proof {
        reveal_strlit("Content-Type:");
        reveal_strlit("Content-Type: text/html; charset=UTF-8\n");
        reveal_strlit("Interval: ");
        reveal_strlit("\nContent-Length: ");
    }
    let marker = literal("Content-Type:");
    if !contains_bytes(headers.as_slice(), marker.as_slice()) {
        let default = literal("Content-Type: text/html; charset=UTF-8\n");
        let ghost old_headers = headers@;
        append(headers, default.as_slice());
        proof {
            let h = headers@;
            assert(h.subrange(old_headers.len() as int, old_headers.len() + 13 as int) =~= marker@);
            assert(occurs_at(h, marker@, old_headers.len() as int));
            lemma_find_from(h, marker@, 0);
        }
    }
    let mut r = literal("Interval: ");
    append(&mut r, interval);
    let length_label = literal("\nContent-Length: ");
    append(&mut r, length_label.as_slice());
    let length = decimal_text(output.len() as u64);
    append(&mut r, length.as_slice());
    r.push(10u8);
    append(&mut r, headers.as_slice());
    r.push(10u8);
    append(&mut r, output);
    assert(r@ =~= response(interval@, headers@, output@));
    r
}

} // verus!
