use autosub::corrections::{apply_corrections, load_corrections, replace_byte_spans};

fn pair(a: &str, b: &str) -> (String, String) {
    (a.to_string(), b.to_string())
}

#[test]
fn corrections_match_python() {
    let pairs = load_corrections("# ghi chú\nnôn mưởng => nôn mửa\nhà nội => Hà Nội\n");
    let srt = "1\n00:00:01,000 --> 00:00:02,000\nNôn mưởng quá\n\n2\n00:00:03,000 --> 00:00:04,000\ntôi ở hà nội\n";
    assert_eq!(
        apply_corrections(srt, &pairs),
        Some("1\n00:00:01,000 --> 00:00:02,000\nNôn mửa quá\n\n2\n00:00:03,000 --> 00:00:04,000\ntôi ở Hà Nội\n".to_string())
    );
}

#[test]
fn load_skips_comments_blanks_and_lines_without_arrow() {
    let pairs = load_corrections("  # note => x\n\n\tno arrow\n  a  =>  b => c \r\n=> nothing\nempty =>\n");
    assert_eq!(pairs, vec![pair("a", "b => c"), pair("empty", "")]);
}

#[test]
fn apply_matches_case_blind_and_keeps_capital() {
    let pairs = vec![pair("sài gòn", "Sài Gòn"), pair("ok", "được")];
    assert_eq!(
        apply_corrections("SÀI GÒN ok Ok OK", &pairs),
        Some("Sài Gòn được Được Được".to_string())
    );
}

#[test]
fn apply_escapes_pattern_characters() {
    let pairs = vec![pair("a.b", "x"), pair("(c)", "[d]")];
    assert_eq!(apply_corrections("a.b acb (c) c", &pairs), Some("x acb [d] c".to_string()));
}

#[test]
fn apply_composes_text_and_rules() {
    let decomposed = "ho\u{0300}a";
    let pairs = vec![pair("hòa", "hoà")];
    assert_eq!(apply_corrections(decomposed, &pairs), Some("hoà".to_string()));
    assert_eq!(apply_corrections(decomposed, &[]), Some("hòa".to_string()));
}

#[test]
fn replace_byte_spans_checks_and_replaces() {
    let text: Vec<char> = "xin chào bạn".chars().collect();
    let right: Vec<char> = "Chào".chars().collect();
    let r = replace_byte_spans(&text, &[(4, 9)], &right).unwrap();
    assert_eq!(r.iter().collect::<String>(), "xin Chào bạn");
    let upper: Vec<char> = "Xin chào".chars().collect();
    let low: Vec<char> = "mời".chars().collect();
    let r = replace_byte_spans(&upper, &[(0, 3)], &low).unwrap();
    assert_eq!(r.iter().collect::<String>(), "Mời chào");
    assert_eq!(replace_byte_spans(&text, &[(4, 7)], &right), None);
    assert_eq!(replace_byte_spans(&text, &[(4, 10), (0, 3)], &right), None);
    assert_eq!(replace_byte_spans(&text, &[(5, 4)], &right), None);
    let same = replace_byte_spans(&text, &[], &right).unwrap();
    assert_eq!(same, text);
}
