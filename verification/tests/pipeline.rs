use chatline::color::resolve;
use chatline::color::TerminalColor;
use chatline::emote::encode_emote_payload;
use chatline::render::admit_author;
use chatline::render::render_line;
use chatline::render::trim_bytes;
use chatline::render::wrap_bytes;
use chatline::rewrite::rewrite;
use chatline::rewrite::ByteRange;
use chatline::rewrite::EmotePlacement;

fn bytes(s: &str) -> Vec<u8> {
    s.as_bytes().to_vec()
}

#[test]
fn resolve_valid_hex_parses_exactly() {
    let c = resolve(&Some(bytes("1E90FF")));
    assert_eq!(c, TerminalColor::Rgb(30, 144, 255));
}

#[test]
fn resolve_strips_leading_hash() {
    let c = resolve(&Some(bytes("#1E90FF")));
    assert_eq!(c, TerminalColor::Rgb(30, 144, 255));
}

#[test]
fn resolve_lower_case_hex() {
    let c = resolve(&Some(bytes("a0b1c2")));
    assert_eq!(c, TerminalColor::Rgb(160, 177, 194));
}

#[test]
fn resolve_invalid_digit_gives_indexed_fallback() {
    let c = resolve(&Some(bytes("zz0000")));
    assert_eq!(c, TerminalColor::Indexed(15));
}

#[test]
fn resolve_wrong_length_gives_gray() {
    assert_eq!(resolve(&Some(bytes("fff"))), TerminalColor::Rgb(100, 100, 100));
    assert_eq!(resolve(&Some(bytes(""))), TerminalColor::Rgb(100, 100, 100));
    assert_eq!(resolve(&Some(bytes("1234567"))), TerminalColor::Rgb(100, 100, 100));
}

#[test]
fn resolve_absent_hint_gives_gray() {
    assert_eq!(resolve(&None), TerminalColor::Rgb(100, 100, 100));
}

#[test]
fn resolve_is_deterministic() {
    let h = Some(bytes("1E90FF"));
    assert_eq!(resolve(&h), resolve(&h));
    let n: Option<Vec<u8>> = None;
    assert_eq!(resolve(&n), resolve(&n));
}

#[test]
fn payload_frames_base64() {
    let img: Vec<u8> = vec![1, 2, 3, 4, 5, 6, 7, 8, 9, 10];
    let p = encode_emote_payload(&img);
    let mut expected = bytes("\x1b_Ga=T,f=100,r=1,m=0;AQIDBAUGBwgJCg==");
    expected.extend_from_slice(&[0x1b, b'\\']);
    assert_eq!(p, expected);
}

#[test]
fn payload_of_small_text_image() {
    let p = encode_emote_payload(&bytes("hello"));
    let mut expected = bytes("\x1b_Ga=T,f=100,r=1,m=0;aGVsbG8=");
    expected.extend_from_slice(&[0x1b, b'\\']);
    assert_eq!(p, expected);
}

#[test]
fn oversize_image_gives_empty_payload() {
    let img: Vec<u8> = vec![0u8; 3073];
    let p = encode_emote_payload(&img);
    assert!(p.is_empty());
}

#[test]
fn largest_renderable_image_is_kept() {
    let img: Vec<u8> = vec![7u8; 3072];
    let p = encode_emote_payload(&img);
    assert_eq!(p.len(), 21 + 4096 + 2);
}

#[test]
fn rewrite_replaces_single_range() {
    let text = bytes("hello Kappa");
    let img: Vec<u8> = vec![1, 2, 3, 4, 5, 6, 7, 8, 9, 10];
    let payload = encode_emote_payload(&img);
    let refs = vec![EmotePlacement {
        payload: payload.clone(),
        ranges: vec![ByteRange { start: 6, end: 11 }],
    }];
    let out = rewrite(&text, &refs);
    let mut expected = bytes("hello ");
    expected.extend_from_slice(&payload);
    assert_eq!(out, expected);
    let shown = String::from_utf8_lossy(&out).into_owned();
    assert!(!shown.contains("Kappa"));
}

#[test]
fn rewrite_output_length_formula() {
    let text = bytes("one two three");
    let pay_a = bytes("AB");
    let pay_b = bytes("WXYZ");
    let refs = vec![
        EmotePlacement { payload: pay_a.clone(), ranges: vec![ByteRange { start: 0, end: 3 }] },
        EmotePlacement { payload: pay_b.clone(), ranges: vec![ByteRange { start: 8, end: 13 }] },
    ];
    let out = rewrite(&text, &refs);
    assert_eq!(out.len(), text.len() - 3 - 5 + 2 + 4);
    assert_eq!(out, bytes("AB two WXYZ"));
}

#[test]
fn rewrite_is_independent_of_reference_order() {
    let text = bytes("a bb ccc dddd");
    let pay_a = bytes("1");
    let pay_b = bytes("22");
    let pay_c = bytes("333");
    let forward = vec![
        EmotePlacement { payload: pay_a.clone(), ranges: vec![ByteRange { start: 0, end: 1 }] },
        EmotePlacement { payload: pay_b.clone(), ranges: vec![ByteRange { start: 2, end: 4 }] },
        EmotePlacement { payload: pay_c.clone(), ranges: vec![ByteRange { start: 5, end: 8 }] },
    ];
    let backward = vec![
        EmotePlacement { payload: pay_c, ranges: vec![ByteRange { start: 5, end: 8 }] },
        EmotePlacement { payload: pay_b, ranges: vec![ByteRange { start: 2, end: 4 }] },
        EmotePlacement { payload: pay_a, ranges: vec![ByteRange { start: 0, end: 1 }] },
    ];
    assert_eq!(rewrite(&text, &forward), rewrite(&text, &backward));
    assert_eq!(rewrite(&text, &forward), bytes("1 22 333 dddd"));
}

#[test]
fn rewrite_same_emote_used_twice() {
    let text = bytes("Kappa and Kappa");
    let p = bytes("[k]");
    let refs = vec![EmotePlacement {
        payload: p,
        ranges: vec![ByteRange { start: 10, end: 15 }, ByteRange { start: 0, end: 5 }],
    }];
    let out = rewrite(&text, &refs);
    assert_eq!(out, bytes("[k] and [k]"));
}

#[test]
fn rewrite_empty_payload_removes_range() {
    let text = bytes("hello Kappa");
    let refs = vec![EmotePlacement {
        payload: Vec::new(),
        ranges: vec![ByteRange { start: 6, end: 11 }],
    }];
    let out = rewrite(&text, &refs);
    assert_eq!(out, bytes("hello "));
    assert_eq!(out.len(), text.len() - 5);
}

#[test]
fn rewrite_without_references_keeps_text() {
    let text = bytes("plain message");
    let out = rewrite(&text, &Vec::new());
    assert_eq!(out, text);
}

#[test]
fn bot_authors_are_denied() {
    for name in ["funtoon", "botfrobber", "cynanbot", "nightbot", "streamelements"] {
        assert!(!admit_author(&bytes(name)), "{name} should be denied");
    }
}

#[test]
fn ordinary_authors_are_admitted() {
    assert!(admit_author(&bytes("alice")));
    assert!(admit_author(&bytes("Nightbot")));
    assert!(admit_author(&bytes("")));
}

#[test]
fn trim_removes_outer_whitespace() {
    assert_eq!(trim_bytes(&bytes("  hi there \n")), bytes("hi there"));
    assert_eq!(trim_bytes(&bytes("\t\r\n ")), bytes(""));
    assert_eq!(trim_bytes(&bytes("word")), bytes("word"));
}

#[test]
fn render_paints_author_with_resolved_color() {
    let out = render_line(&bytes("alice"), &Some(bytes("1E90FF")), &bytes(" hi "), None);
    let line = out.expect("nonempty body renders");
    assert_eq!(line, "\x1b[38;2;30;144;255malice\x1b[0m hi");
}

#[test]
fn render_uses_indexed_fallback_escape() {
    let out = render_line(&bytes("bob"), &Some(bytes("zz0000")), &bytes("x"), None);
    assert_eq!(out.expect("rendered"), "\x1b[38;5;15mbob\x1b[0m x");
}

#[test]
fn render_absent_hint_paints_gray() {
    let out = render_line(&bytes("bob"), &None, &bytes("x"), None);
    assert_eq!(out.expect("rendered"), "\x1b[38;2;100;100;100mbob\x1b[0m x");
}

#[test]
fn render_suppresses_empty_body() {
    assert!(render_line(&bytes("alice"), &None, &bytes("   \n"), None).is_none());
    assert!(render_line(&bytes("alice"), &None, &bytes(""), None).is_none());
}

#[test]
fn wrap_breaks_only_at_spaces() {
    let wrapped = wrap_bytes(&bytes("one two three"), 7);
    assert_eq!(wrapped, bytes("one two\nthree"));
}

#[test]
fn wrap_keeps_long_word_whole() {
    let wrapped = wrap_bytes(&bytes("a extraordinarily b"), 5);
    assert_eq!(wrapped, bytes("a\nextraordinarily\nb"));
}

#[test]
fn wrap_wide_enough_keeps_one_line() {
    let wrapped = wrap_bytes(&bytes("short line"), 80);
    assert_eq!(wrapped, bytes("short line"));
}

#[test]
fn render_with_wrap_reflows_line() {
    let out = render_line(&bytes("ab"), &None, &bytes("wwww zzzz"), Some(30));
    let line = out.expect("rendered");
    assert_eq!(line, "\x1b[38;2;100;100;100mab\x1b[0m wwww\nzzzz");
}

#[test]
fn end_to_end_message_with_emote() {
    let author = bytes("alice");
    assert!(admit_author(&author));
    let text = bytes("hello Kappa");
    let img: Vec<u8> = vec![1, 2, 3, 4, 5, 6, 7, 8, 9, 10];
    let payload = encode_emote_payload(&img);
    let refs = vec![EmotePlacement {
        payload,
        ranges: vec![ByteRange { start: 6, end: 11 }],
    }];
    let rewritten = rewrite(&text, &refs);
    let line = render_line(&author, &Some(bytes("1E90FF")), &rewritten, None)
        .expect("line rendered");
    assert!(line.starts_with("\x1b[38;2;30;144;255malice\x1b[0m hello "));
    assert!(line.contains("AQIDBAUGBwgJCg=="));
    assert!(!line.contains("Kappa"));
}

#[test]
fn pipeline_suppresses_denied_author() {
    let out = chatline::pipeline::process_message(
        &bytes("nightbot"),
        &bytes("Nightbot"),
        &Some(bytes("1E90FF")),
        &bytes("hello everyone"),
        &Vec::new(),
        None,
    );
    assert!(out.is_none());
}

#[test]
fn pipeline_renders_admitted_author() {
    let out = chatline::pipeline::process_message(
        &bytes("alice"),
        &bytes("Alice"),
        &Some(bytes("1E90FF")),
        &bytes("hello"),
        &Vec::new(),
        None,
    );
    assert_eq!(out.expect("rendered"), "\x1b[38;2;30;144;255mAlice\x1b[0m hello");
}

#[test]
fn pipeline_suppresses_message_left_empty_by_rewrite() {
    let refs = vec![EmotePlacement {
        payload: Vec::new(),
        ranges: vec![ByteRange { start: 0, end: 5 }],
    }];
    let out = chatline::pipeline::process_message(
        &bytes("alice"),
        &bytes("Alice"),
        &None,
        &bytes("Kappa  "),
        &refs,
        None,
    );
    assert!(out.is_none());
}

#[test]
fn render_recovers_from_invalid_utf8_bytes() {
    let mut text = vec![0xffu8];
    text.extend_from_slice(b"a");
    let out = render_line(&bytes("bob"), &None, &text, None);
    let line = out.expect("rendered");
    assert_eq!(line, "\x1b[38;2;100;100;100mbob\x1b[0m \u{FFFD}a");
}
