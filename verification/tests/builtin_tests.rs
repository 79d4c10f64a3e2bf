use cyth_cgi::builtins::{
    date, hash, json_decode, markdown, now, parse_int, parse_int2, seconds_as_int, url_decode, url_encode, uuid,
    verify,
};
use cyth_cgi::cyth::cyth_new_string;
use cyth_cgi::json::Json;
use cyth_cgi::CyString;

fn cy(s: &str) -> CyString {
    cyth_new_string(s.as_bytes())
}

fn text(c: &CyString) -> String {
    assert_eq!(c.size as usize, c.data.len());
    String::from_utf8(c.data.clone()).unwrap()
}

#[test]
fn url_encode_escapes_all_but_letters_and_digits() {
    assert_eq!(text(&url_encode(&cy("foo bar?"))), "foo%20bar%3F");
    assert_eq!(text(&url_encode(&cy("a-b_c.d~e"))), "a%2Db%5Fc%2Ed%7Ee");
    assert_eq!(text(&url_encode(&cy("é"))), "%C3%A9");
    assert_eq!(text(&url_encode(&cy(""))), "");
}

#[test]
fn url_decode_reads_escapes_and_plus() {
    assert_eq!(text(&url_decode(&cy("foo%20bar%3f"))), "foo bar?");
    assert_eq!(text(&url_decode(&cy("a+b"))), "a b");
    assert_eq!(text(&url_decode(&cy("%2B"))), " ");
    assert_eq!(text(&url_decode(&cy("100%"))), "100%");
    assert_eq!(text(&url_decode(&cy("%zz%4"))), "%zz%4");
    assert_eq!(text(&url_decode(&cy("%C3%A9"))), "é");
    assert_eq!(text(&url_decode(&cy("%FF"))), "");
}

#[test]
fn url_decode_undoes_encode_without_plus() {
    for s in ["hello world", "a/b?c=d&e", "ümlaut", "tab\there"] {
        assert_eq!(text(&url_decode(&url_encode(&cy(s)))), s);
    }
    assert_eq!(text(&url_decode(&url_encode(&cy("a+b")))), "a b");
}

#[test]
fn markdown_renders_html() {
    assert_eq!(text(&markdown(&cy("# Hi"))), "<h1>Hi</h1>");
    assert_eq!(text(&markdown(&cy("<div>x</div>"))), "<div>x</div>");
}

#[test]
fn parse_int_matches_from_str_radix() {
    let inputs = [
        "", "+", "-", "0", "42", "-42", "+7", "2147483647", "2147483648", "-2147483648",
        "-2147483649", "ff", "FF", "z", "12a", " 1", "1 ", "--1", "+-1", "007", "99999999999",
    ];
    for s in inputs {
        for radix in [2u32, 8, 10, 16, 36] {
            let want = i32::from_str_radix(s, radix).unwrap_or_default();
            assert_eq!(parse_int(&cy(s), radix as i32), want, "{:?} {}", s, radix);
        }
        assert_eq!(parse_int2(&cy(s)), i32::from_str_radix(s, 10).unwrap_or_default());
    }
}

#[test]
fn parse_int_reads_back_decimals() {
    for v in [0i32, 1, -1, 123456, i32::MIN, i32::MAX] {
        assert_eq!(parse_int2(&cy(&v.to_string())), v);
    }
}

#[test]
fn hash_then_verify() {
    let h = hash(&cy("secret")).unwrap();
    let t = text(&h);
    assert_eq!(t.len(), 60);
    assert!(t.starts_with("$2b$12$"));
    assert_eq!(verify(&cy("secret"), &h), Some(1));
    assert_eq!(verify(&cy("other"), &h), Some(0));
    assert_eq!(verify(&cy("secret"), &cy("not a hash")), None);
}

#[test]
fn uuid_has_version_4_shape() {
    let u = text(&uuid());
    assert_eq!(u.len(), 36);
    for (i, c) in u.chars().enumerate() {
        if [8, 13, 18, 23].contains(&i) {
            assert_eq!(c, '-');
        } else {
            assert!(c.is_ascii_hexdigit() && !c.is_ascii_uppercase());
        }
    }
    assert_eq!(&u[14..15], "4");
    assert!("89ab".contains(&u[19..20]));
    assert_ne!(text(&uuid()), u);
}

#[test]
fn date_writes_the_given_instant() {
    let d = date(86400, &cy("%s")).unwrap();
    assert_eq!(text(&d), "86400");
    let d = date(0, &cy("%%")).unwrap();
    assert_eq!(text(&d), "%");
    let d = date(1_000_000_000, &cy("%Y")).unwrap();
    assert!(text(&d) == "2001" || text(&d) == "2002");
}

#[test]
fn date_with_an_unknown_specifier_gives_nothing() {
    assert!(date(0, &cy("%Q")).is_none());
}

#[test]
fn now_is_after_the_time_of_writing() {
    let t = now().unwrap();
    assert!(t > 1_700_000_000);
}

#[test]
fn date_without_specifiers_is_the_format() {
    assert_eq!(text(&date(12345, &cy("plain text, no fields")).unwrap()), "plain text, no fields");
    assert_eq!(text(&date(0, &cy("")).unwrap()), "");
    assert_eq!(text(&date(7, &cy("\u{3000}é\t")).unwrap()), "\u{3000}é\t");
}

#[test]
fn clock_readings_are_cut_to_32_bits() {
    assert_eq!(seconds_as_int(Some(1_700_000_000)), Some(1_700_000_000));
    assert_eq!(seconds_as_int(Some(5_000_000_000)), Some(705_032_704));
    assert_eq!(seconds_as_int(Some(3_000_000_000)), Some(-1_294_967_296));
    assert_eq!(seconds_as_int(None), None);
}

#[test]
fn date_writes_s_as_the_epoch() {
    assert_eq!(text(&date(0, &cy("%s")).unwrap()), "0");
    assert_eq!(text(&date(2_147_483_647, &cy("%s")).unwrap()), "2147483647");
    assert!(date(0, &cy("%")).is_none());
    assert!(date(0, &cy("%Y-%m-%d")).is_some());
}

#[test]
fn json_decode_reads_values() {
    let value = json_decode(&cy("{\"b\": [1, 2.5, true, null], \"a\": \"x\"}"));
    assert_eq!(
        value,
        Some(Json::Object(vec![
            ("a".to_string(), Json::Text("x".to_string())),
            (
                "b".to_string(),
                Json::Array(vec![
                    Json::Number("1".to_string()),
                    Json::Number("2.5".to_string()),
                    Json::Bool(true),
                    Json::Null,
                ])
            ),
        ]))
    );
    assert_eq!(json_decode(&cy("\"caf\\u00e9\"")), Some(Json::Text("café".to_string())));
    assert_eq!(json_decode(&cy("-7")), Some(Json::Number("-7".to_string())));
}

#[test]
fn json_decode_refuses_what_is_not_json() {
    assert_eq!(json_decode(&cy("not json")), None);
    assert_eq!(json_decode(&cy("")), None);
    assert_eq!(json_decode(&cy("[1,")), None);
}
