# cyth_cgi

A FastCGI server for pages that embed [Cyth](https://github.com/vldr/Cyth) code
in HTML between `<?` and `?>`, in the manner of PHP. The host logic is a Verus
library whose functions carry `requires`/`ensures` contracts proved by Verus.

- `src/` is the verified library:
  - `template.rs` turns a page into Cyth source, its text chunks and the
    mapping from source lines back to page positions;
  - `host.rs` holds what the host functions of a running page do to the output,
    the headers and the environment, how compiler messages and panics are
    reported, and how the response is framed;
  - `builtins.rs` holds the host functions that compute on their arguments
    (URL encoding, Markdown, bcrypt, UUIDs, integers, dates);
  - `environ.rs`, `numbers.rs`, `json.rs`, `serve.rs`, `cyth.rs` and `text.rs`
    hold the request environment and cookies, integer parsing, JSON values,
    request routing and database handles, the Cyth values, and byte-text
    helpers;
  - `outside.rs` holds every call into another crate, with the contract that is
    believed of it.
- `app/` is the executable: the Cyth VM's C interface, the FastCGI loop, file,
  network and SQLite access, building JSON values inside the VM, and
  floating point. It calls the
  library for every decision and computation.
- `tests/` runs the library on concrete values.
