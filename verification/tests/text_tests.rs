use cyth_cgi::text::{
    decimal_text, find_bytes, leading_ws_len, lines_of, signed_text, trailing_ws_len, trim_bytes,
};

const SAMPLES: [&str; 12] = [
    "",
    "   ",
    "  a b  ",
    "\t\r\n x \u{a0}",
    "\u{3000}\u{2000}y\u{205f}",
    "\u{85}z\u{1680}",
    "no space",
    "\u{200b}zero width",
    "x\u{2028}",
    "\u{202f}\u{2029}",
    "é é",
    "\u{b}\u{c}v\u{b}",
];

#[test]
fn leading_white_space_matches_trim_start() {
    for s in SAMPLES {
        assert_eq!(leading_ws_len(s.as_bytes()), s.len() - s.trim_start().len(), "{:?}", s);
    }
}

#[test]
fn trailing_white_space_matches_trim_end() {
    for s in SAMPLES {
        assert_eq!(trailing_ws_len(s.as_bytes()), s.len() - s.trim_end().len(), "{:?}", s);
    }
}

#[test]
fn trim_matches_str_trim() {
    for s in SAMPLES {
        assert_eq!(trim_bytes(s.as_bytes()), s.trim().as_bytes(), "{:?}", s);
    }
}

#[test]
fn lines_match_str_lines() {
    for s in ["", "a", "a\n", "a\nb", "a\r\nb\r\n", "\n\n", "x\r", "a\rb\n", "\r\n"] {
        let got: Vec<Vec<u8>> = lines_of(s.as_bytes());
        let want: Vec<Vec<u8>> = s.lines().map(|l| l.as_bytes().to_vec()).collect();
        assert_eq!(got, want, "{:?}", s);
    }
}

#[test]
fn decimals_match_display() {
    for n in [0u64, 7, 10, 99, 100, 12345, u64::MAX] {
        assert_eq!(decimal_text(n), n.to_string().into_bytes());
    }
    for v in [0i32, -1, 42, -2147483648, 2147483647] {
        assert_eq!(signed_text(v), v.to_string().into_bytes());
    }
}

#[test]
fn find_matches_str_find() {
    let hay = "a=1; bb=2; b=3";
    for pat in ["b=", "bb=", "a=", "c=", "", "3"] {
        assert_eq!(find_bytes(hay.as_bytes(), pat.as_bytes()), hay.find(pat), "{:?}", pat);
    }
}
