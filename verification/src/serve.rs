//! Deciding how to answer a request, and the handles that scripts hold on
//! database connections and statements.
use vstd::prelude::*;
use crate::text::{append, ascii, literal};

verus! {

/// When a script file was last modified: seconds and nanoseconds from the
/// Unix epoch (seconds below zero for earlier times).
#[derive(PartialEq, Eq, Structural, Clone, Copy, Debug)]
pub struct FileStamp {
    pub secs: i64,
    pub nanos: u32,
}

/// How a request is answered.
#[derive(PartialEq, Eq, Structural, Clone, Copy, Debug)]
pub enum Route {
    /// The request names no script: an internal error.
    MissingScriptFilename,
    /// The script file cannot be found: not found.
    NotFound,
    /// The script is not compiled yet, or changed since: compile it, then run it.
    Compile,
    /// The compiled script is current: run it.
    Reuse,
}

/// How to answer a request, given whether it names a script, when the script
/// file was modified (`None` when it cannot be found), and when the compiled
/// copy held for that path was (`None` when there is none).
pub fn route_request(names_script: bool, modified: Option<FileStamp>, cached: Option<FileStamp>) -> (r: Route)
    ensures
        !names_script ==> r == Route::MissingScriptFilename,
        names_script && modified is None ==> r == Route::NotFound,
        names_script && modified is Some ==> (r == Route::Reuse <==> cached == modified),
        names_script && modified is Some ==> (r == Route::Compile <==> cached != modified),
{
    if !names_script {
        return Route::MissingScriptFilename;
    }
    match modified {
        None => Route::NotFound,
        Some(m) => match cached {
            Some(c) => if c == m {
                Route::Reuse
            } else {
                Route::Compile
            },
            None => Route::Compile,
        },
    }
}

/// Loading or compiling the script failed (the Cyth calls report failure as 0).
pub fn compilation_failed(load_result: i32, compilation_result: i32) -> (r: bool)
    ensures
        r == (load_result == 0 || compilation_result == 0),
{
    load_result == 0 || compilation_result == 0
}

/// The answer to a request that names no script.
pub open spec fn missing_script_filename_answer() -> Seq<u8> {
    ascii(
        "Status: 500 Internal Server Error\nContent-Type: text/plain\n\nMissing 'SCRIPT_FILENAME' environment variable"@,
    )
}

/// The answer to a request whose script cannot be found.
pub open spec fn not_found_answer() -> Seq<u8> {
    ascii("Status: 404 Not Found\nContent-Type: text/plain\n\n"@)
}

/// The answer to a request whose script does not compile: the messages.
pub open spec fn compile_failure_answer(messages: Seq<u8>) -> Seq<u8> {
    ascii("Status: 500 Internal Server Error\nContent-Type: text/plain\n\n"@) + messages
}

/// The bytes of the answer to a request that names no script.
pub fn missing_script_filename_response() -> (r: Vec<u8>)
    ensures
        r@ == missing_script_filename_answer(),
{
    proof {
        reveal_strlit(
            "Status: 500 Internal Server Error\nContent-Type: text/plain\n\nMissing 'SCRIPT_FILENAME' environment variable",
        );
    }
    literal(
        "Status: 500 Internal Server Error\nContent-Type: text/plain\n\nMissing 'SCRIPT_FILENAME' environment variable",
    )
}

/// The bytes of the answer to a request whose script cannot be found.
pub fn not_found_response() -> (r: Vec<u8>)
    ensures
        r@ == not_found_answer(),
{
    proof {
        reveal_strlit("Status: 404 Not Found\nContent-Type: text/plain\n\n");
    }
    literal("Status: 404 Not Found\nContent-Type: text/plain\n\n")
}

/// The bytes of the answer to a request whose script does not compile.
pub fn compile_failure_response(messages: &[u8]) -> (r: Vec<u8>)
    ensures
        r@ == compile_failure_answer(messages@),
{
    proof {
        reveal_strlit("Status: 500 Internal Server Error\nContent-Type: text/plain\n\n");
    }
    let mut r = literal("Status: 500 Internal Server Error\nContent-Type: text/plain\n\n");
    append(&mut r, messages);
    r
}

// ---------------------------------------------------------------------------
// Handles.

/// The index in a table of `count` entries that handle `id` names: handles
/// count from 1, so handle `id` is entry `id - 1`; `None` for any other id.
pub open spec fn handle_entry(count: int, id: int) -> Option<int> {
    if 1 <= id && id - 1 < count {
        Some(id - 1)
    } else {
        None
    }
}

/// The entry that handle `id` names in a table of `count` entries.
pub fn handle_index(count: usize, id: i32) -> (r: Option<usize>)
    requires
        id > i32::MIN,
    ensures
        r matches Some(i) ==> handle_entry(count as int, id as int) == Some(i as int),
        r is None ==> handle_entry(count as int, id as int) is None,
{
    if id >= 1 && ((id - 1) as usize) < count {
        Some((id - 1) as usize)
    } else {
        None
    }
}

/// The handle of the entry just added to a table that now holds `count`
/// entries: `count`, cut to 32 bits as a cast does.
pub fn new_handle(count: usize) -> (r: i32)
    ensures
        r == count as i32,
{
    count as i32
}

/// A handle names the entry added with it, while the table keeps growing.
pub proof fn new_handle_names_new_entry(count: int, later: int)
    requires
        1 <= count <= later,
        count <= i32::MAX,
    ensures
        handle_entry(later, count as i32 as int) == Some(count - 1),
{
}

} // verus!
