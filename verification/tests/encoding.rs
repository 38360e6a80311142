use bruecke::base64::b64;
use bruecke::literal::{decode_literal, encode_literal, int_text, parse_i64, quote_str, Literal};
use bruecke::markup::between;

#[test]
fn b64_known_values() {
    assert_eq!(b64(b""), "");
    assert_eq!(b64(b"f"), "Zg==");
    assert_eq!(b64(b"fo"), "Zm8=");
    assert_eq!(b64(b"foo"), "Zm9v");
    assert_eq!(b64(b"foobar"), "Zm9vYmFy");
    assert_eq!(b64(b"Man"), "TWFu");
    assert_eq!(b64(&[0xff, 0xfe, 0xfd]), "//79");
    assert_eq!(b64(&[0x00, 0x10, 0x83, 0x10, 0x51, 0x87]), "ABCDEFGH");
}

#[test]
fn b64_length_and_concat() {
    for n in 0..20usize {
        let data: Vec<u8> = (0..n as u8).collect();
        assert_eq!(b64(&data).len(), (n + 2) / 3 * 4);
    }
    let a = b"abc";
    let b = b"xy";
    let mut ab = a.to_vec();
    ab.extend_from_slice(b);
    assert_eq!(b64(&ab), format!("{}{}", b64(a), b64(b)));
}

#[test]
fn between_finds_section() {
    let shell = "<html><style>body{}</style><body>\n<p>hi</p>\n<script>x</script></body>";
    assert_eq!(between(shell, "<style>", "</style>"), Some("body{}"));
    assert_eq!(between(shell, "<body>", "<script"), Some("\n<p>hi</p>\n"));
    assert_eq!(between(shell, "<head>", "</head>"), None);
    assert_eq!(between(shell, "<style>", "<nothing>"), None);
    assert_eq!(between("a[b]c]", "[", "]"), Some("b"));
    assert_eq!(between("xx", "", "x"), Some(""));
    assert_eq!(between("ä<é>ö", "<", ">"), Some("é"));
}

#[test]
fn between_close_searched_after_open() {
    assert_eq!(between("]a[b]", "[", "]"), Some("b"));
}

#[test]
fn quote_str_escapes() {
    assert_eq!(quote_str("Player"), "\"Player\"");
    assert_eq!(quote_str("a\"b\\c\nd\re\tf"), "\"a\\\"b\\\\c\\nd\\re\\tf\"");
}

#[test]
fn int_text_extremes() {
    assert_eq!(int_text(0), "0");
    assert_eq!(int_text(42), "42");
    assert_eq!(int_text(-7), "-7");
    assert_eq!(int_text(i64::MAX), "9223372036854775807");
    assert_eq!(int_text(i64::MIN), "-9223372036854775808");
}

fn chars(s: &str) -> Vec<char> {
    s.chars().collect()
}

#[test]
fn parse_i64_like_std() {
    for s in ["0", "+5", "-12", "007", "9223372036854775807", "-9223372036854775808",
              "9223372036854775808", "-9223372036854775809", "", "-", "+", "1a", " 1", "1.5",
              "99999999999999999999999"] {
        assert_eq!(parse_i64(&chars(s)), s.parse::<i64>().ok(), "input {:?}", s);
    }
}

fn same(a: &Literal, b: &Literal) -> bool {
    match (a, b) {
        (Literal::Null, Literal::Null) => true,
        (Literal::Bool(x), Literal::Bool(y)) => x == y,
        (Literal::Int(x), Literal::Int(y)) => x == y,
        (Literal::Text(x), Literal::Text(y)) => x == y,
        (Literal::Other(x), Literal::Other(y)) => x == y,
        _ => false,
    }
}

#[test]
fn decode_literal_cases() {
    assert!(same(&decode_literal(" null "), &Literal::Null));
    assert!(same(&decode_literal("true"), &Literal::Bool(true)));
    assert!(same(&decode_literal("false\n"), &Literal::Bool(false)));
    assert!(same(&decode_literal("42"), &Literal::Int(42)));
    assert!(same(&decode_literal("-3"), &Literal::Int(-3)));
    assert!(same(&decode_literal("\"Player\""), &Literal::Text("Player".into())));
    assert!(same(&decode_literal("\"a\\\"b\\nc\""), &Literal::Text("a\"b\nc".into())));
    assert!(same(&decode_literal("1.5"), &Literal::Other("1.5".into())));
    assert!(same(&decode_literal(" [1] "), &Literal::Other("[1]".into())));
    assert!(same(&decode_literal("\""), &Literal::Other("\"".into())));
    assert!(same(&decode_literal("\"\""), &Literal::Text("".into())));
}

#[test]
fn store_load_round_trip_values() {
    let values = vec![
        Literal::Null,
        Literal::Bool(true),
        Literal::Bool(false),
        Literal::Int(0),
        Literal::Int(i64::MIN),
        Literal::Int(i64::MAX),
        Literal::Text("plain".into()),
        Literal::Text("quote \" tab \t nl \n cr \r".into()),
        Literal::Text("  spaced  ".into()),
        Literal::Text("null".into()),
    ];
    for v in &values {
        let text = encode_literal(v);
        assert!(same(&decode_literal(&text), v), "value {:?}", text);
    }
}

#[test]
fn backslash_strings_round_trip() {
    for t in ["a\\nb", "\\", "end\\", "\\\"", "x\\\\n\ty", "\\q"] {
        let v = Literal::Text(t.into());
        let text = encode_literal(&v);
        assert!(same(&decode_literal(&text), &v), "value {:?}", text);
    }
    let text = encode_literal(&Literal::Text("a\\nb".into()));
    assert_eq!(text, "\"a\\\\nb\"");
}

#[test]
fn unknown_escapes_kept() {
    assert!(same(&decode_literal("\"a\\qb\\\""), &Literal::Text("a\\qb\\".into())));
}

fn decode_b64(s: &str) -> Vec<u8> {
    let val = |c: u8| -> u32 {
        match c {
            b'A'..=b'Z' => (c - b'A') as u32,
            b'a'..=b'z' => (c - b'a') as u32 + 26,
            b'0'..=b'9' => (c - b'0') as u32 + 52,
            b'+' => 62,
            _ => 63,
        }
    };
    let mut out = Vec::new();
    for g in s.as_bytes().chunks(4) {
        let n = (val(g[0]) << 18) | (val(g[1]) << 12)
            | (if g[2] == b'=' { 0 } else { val(g[2]) << 6 })
            | (if g[3] == b'=' { 0 } else { val(g[3]) });
        out.push((n >> 16) as u8);
        if g[2] != b'=' { out.push((n >> 8) as u8); }
        if g[3] != b'=' { out.push(n as u8); }
    }
    out
}

#[test]
fn b64_decodes_back() {
    for n in 0..40usize {
        let data: Vec<u8> = (0..n).map(|i| (i * 37 + 11) as u8).collect();
        assert_eq!(decode_b64(&b64(&data)), data);
    }
    assert_ne!(b64(&[0, 0]), b64(&[0, 0, 0]));
    assert_ne!(b64(&[1]), b64(&[2]));
}
