use cyth_cgi::cyth::{cyth_char_array_to_slice, cyth_new_array, cyth_new_string, cyth_string_to_str};
use cyth_cgi::environ::{find_cookie, Environs};
use cyth_cgi::host::{
    body, cookie, finish_response, get_environ, get_environs, header, mapped_position, print,
    print_internal, query, report_error, report_panic,
};
use cyth_cgi::serve::{
    compilation_failed, compile_failure_response, handle_index, missing_script_filename_response,
    new_handle, not_found_response, route_request, FileStamp, Route,
};

fn environs(pairs: &[(&str, &str)]) -> Environs {
    let mut e = Environs::new();
    for (k, v) in pairs {
        e.insert(k.as_bytes().to_vec(), v.as_bytes().to_vec());
    }
    e
}

#[test]
fn printing_appends_to_output() {
    let mut out = b"a".to_vec();
    print(&mut out, &cyth_new_string(b"bc"));
    cyth_cgi::host::println(&mut out, &cyth_new_string(b"d"));
    assert_eq!(out, b"abcd\n");
    let text = vec![b"zero".to_vec(), b"one".to_vec()];
    print_internal(&mut out, &text, 1);
    print_internal(&mut out, &text, 2);
    print_internal(&mut out, &text, -1);
    assert_eq!(out, b"abcd\none");
}

#[test]
fn headers_are_lines() {
    let mut h = Vec::new();
    header(&mut h, &cyth_new_string(b"Status: 302 Found"));
    header(&mut h, &cyth_new_string(b"Location: /"));
    assert_eq!(h, b"Status: 302 Found\nLocation: /\n");
}

#[test]
fn environment_reads() {
    let e = environs(&[("QUERY_STRING", "a=1"), ("HTTP_COOKIE", "x=1; sid= abc ; y=2"), ("A", "1")]);
    assert_eq!(query(&e).data, b"a=1");
    assert_eq!(get_environ(&e, &cyth_new_string(b"A")).data, b"1");
    assert_eq!(get_environ(&e, &cyth_new_string(b"B")).data, b"");
    assert_eq!(cookie(&e, &cyth_new_string(b"sid")).data, b"abc");
    assert_eq!(cookie(&e, &cyth_new_string(b"y")).data, b"2");
    assert_eq!(cookie(&e, &cyth_new_string(b"z")).data, b"");
    let names = get_environs(&e);
    let mut got: Vec<Vec<u8>> = names.data.iter().map(|s| s.data.clone()).collect();
    got.sort();
    assert_eq!(got, vec![b"A".to_vec(), b"HTTP_COOKIE".to_vec(), b"QUERY_STRING".to_vec()]);
    assert_eq!(names.size, 3);
    assert_eq!(query(&environs(&[])).data, b"");
}

#[test]
fn environment_insert_replaces() {
    let mut e = environs(&[("K", "1")]);
    e.insert(b"K".to_vec(), b"2".to_vec());
    assert_eq!(e.get_or_empty(b"K"), b"2");
    assert_eq!(e.names_list().len(), 1);
}

#[test]
fn cookie_lookup_edge_cases() {
    assert_eq!(find_cookie(b"ab=1; b=2", b"b"), b"1");
    assert_eq!(find_cookie(b"a=", b"a"), b"");
    assert_eq!(find_cookie(b"a=\t x \t", b"a"), b"x");
    assert_eq!(find_cookie(b"", b"a"), b"");
}

#[test]
fn body_is_the_request_input() {
    let s = body(&b"payload".to_vec());
    assert_eq!(cyth_string_to_str(&s), b"payload");
    assert_eq!(s.size, 7);
}

#[test]
fn arrays_hold_their_items() {
    let a = cyth_new_array(vec![1u8, 2, 3]);
    assert_eq!((a.size, a.capacity), (3, 3));
    assert_eq!(cyth_char_array_to_slice(&a), &[1u8, 2, 3]);
}

#[test]
fn compiler_messages_point_into_the_page() {
    let mapping = vec![(1, 0), (2, 3), (2, 17), (3, 7)];
    let path = b"/srv/index.cy".to_vec();
    let mut out = Vec::new();
    report_error(&mut out, &path, &mapping, b"/srv/index.cy", 2, 5, 2, 9, b"unknown name");
    assert_eq!(out, b"/srv/index.cy:2:8-2:12: unknown name\n");
    let mut out = Vec::new();
    report_error(&mut out, &path, &mapping, b"<builtin>", 2, 5, 2, 9, b"x");
    assert_eq!(out, b"<builtin>:2:5-2:9: x\n");
    let mut out = Vec::new();
    report_error(&mut out, &path, &mapping, b"/srv/index.cy", 9, -1, 0, 1, b"y");
    assert_eq!(out, b"/srv/index.cy:9:-1-0:1: y\n");
}

#[test]
fn panics_become_internal_errors_with_a_trace() {
    let mapping = vec![(1, 0), (2, 3)];
    let mut headers = b"Content-Type: text/html\n".to_vec();
    let mut out = b"partial".to_vec();
    report_panic(&mut headers, &mut out, &mapping, b"Out of bounds", 0, 0);
    assert_eq!(headers, b"Status: 500 Internal Server Error\nContent-Type: text/plain\n");
    report_panic(&mut headers, &mut out, &mapping, b"main", 2, 4);
    report_panic(&mut headers, &mut out, &mapping, b"f", 7, 1);
    assert_eq!(out, b"partialOut of bounds\n  at main:2:7\n  at f:7:1\n");
}

#[test]
fn responses_have_a_content_type() {
    let mut headers = Vec::new();
    let r = finish_response(&mut headers, b"<p>hi</p>", b"1.5ms");
    assert_eq!(
        String::from_utf8(r).unwrap(),
        "Interval: 1.5ms\nContent-Length: 9\nContent-Type: text/html; charset=UTF-8\n\n<p>hi</p>"
    );
    let mut headers = b"Content-Type: text/plain\n".to_vec();
    let r = finish_response(&mut headers, b"", b"0ns");
    assert_eq!(String::from_utf8(r).unwrap(), "Interval: 0ns\nContent-Length: 0\nContent-Type: text/plain\n\n");
}

#[test]
fn requests_are_routed() {
    let t = FileStamp { secs: 10, nanos: 5 };
    let u = FileStamp { secs: 10, nanos: 6 };
    assert_eq!(route_request(false, Some(t), Some(t)), Route::MissingScriptFilename);
    assert_eq!(route_request(true, None, Some(t)), Route::NotFound);
    assert_eq!(route_request(true, Some(t), None), Route::Compile);
    assert_eq!(route_request(true, Some(u), Some(t)), Route::Compile);
    assert_eq!(route_request(true, Some(t), Some(t)), Route::Reuse);
    assert!(compilation_failed(0, 1) && compilation_failed(1, 0) && !compilation_failed(1, 1));
}

#[test]
fn error_answers() {
    assert_eq!(
        String::from_utf8(missing_script_filename_response()).unwrap(),
        "Status: 500 Internal Server Error\nContent-Type: text/plain\n\nMissing 'SCRIPT_FILENAME' environment variable"
    );
    assert_eq!(not_found_response(), b"Status: 404 Not Found\nContent-Type: text/plain\n\n");
    assert_eq!(
        compile_failure_response(b"m\n"),
        b"Status: 500 Internal Server Error\nContent-Type: text/plain\n\nm\n"
    );
}

#[test]
fn handles_count_from_one() {
    assert_eq!(handle_index(2, 1), Some(0));
    assert_eq!(handle_index(2, 2), Some(1));
    assert_eq!(handle_index(2, 3), None);
    assert_eq!(handle_index(2, 0), None);
    assert_eq!(handle_index(2, -5), None);
    assert_eq!(new_handle(3), 3);
}

#[test]
fn lines_map_back_to_the_page() {
    let mapping = vec![(1, 0), (4, 2)];
    assert_eq!(mapped_position(&mapping, 1), (1, 0));
    assert_eq!(mapped_position(&mapping, 2), (4, 2));
    assert_eq!(mapped_position(&mapping, 3), (3, 0));
    assert_eq!(mapped_position(&mapping, 0), (0, 0));
    assert_eq!(mapped_position(&mapping, -5), (-5, 0));
}
