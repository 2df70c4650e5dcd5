use autosub::align::{
    align, docx_xml_text, extract_docx, html_unescape, is_docx, parse_word_timings, plain_text,
    split_into_cue_texts, tokens_of, word_timings_from_json, Token,
};
use autosub::json::Json;
use autosub::srt::Cue;
use std::io::Write;

fn tok(text: &str, from: i64, to: i64) -> Token {
    Token { text: text.to_string(), from, to }
}

#[test]
fn parse_word_timings_matches_python() {
    let wj = r#"{"transcription": [{"tokens": [
        {"text": "[_BEG_]", "offsets": {"from": 0, "to": 0}},
        {"text": " một", "offsets": {"from": 0, "to": 300}},
        {"text": " hai", "offsets": {"from": 300, "to": 600}},
        {"text": " ba", "offsets": {"from": 600, "to": 900}},
        {"text": " bốn", "offsets": {"from": 900, "to": 1200}}
    ]}]}"#;
    let words = word_timings_from_json(wj).unwrap();
    assert_eq!(words.len(), 4);
    let exp = [("một", 0, 300), ("hai", 300, 600), ("ba", 600, 900), ("bốn", 900, 1200)];
    for (w, e) in words.iter().zip(exp.iter()) {
        assert_eq!(w.0, e.0);
        assert_eq!(w.1, e.1);
        assert_eq!(w.2, e.2);
    }
}

#[test]
fn tokens_merge_directly() {
    let tokens = vec![
        tok("[_BEG_]", 0, 0),
        tok(" một", 0, 300),
        tok(" hai", 300, 600),
    ];
    assert_eq!(
        parse_word_timings(&tokens),
        vec![("một".to_string(), 0, 300), ("hai".to_string(), 300, 600)]
    );
}

#[test]
fn json_walk_uses_defaults() {
    let j = parse_json_for_test(r#"{"transcription": [
        {"tokens": [{"text": " a", "offsets": {"from": 10.5, "to": 20}}, {"text": 7}, {"offsets": {"to": 5}}]},
        {"no_tokens": true},
        {"tokens": [{"text": "b", "offsets": {"from": 2.5e1, "to": 1e2}}]}
    ]}"#);
    let ts = tokens_of(&j);
    let got: Vec<(String, i64, i64)> = ts.iter().map(|t| (t.text.clone(), t.from, t.to)).collect();
    assert_eq!(
        got,
        vec![
            (" a".to_string(), 10, 20),
            ("".to_string(), 0, 0),
            ("".to_string(), 0, 5),
            ("b".to_string(), 25, 100),
        ]
    );
    assert_eq!(word_timings_from_json(r#"{"transcription": 3}"#).unwrap(), vec![]);
    assert!(word_timings_from_json("{not json").is_err());
}

fn parse_json_for_test(text: &str) -> Json {
    let v: serde_json::Value = serde_json::from_str(text).unwrap();
    to_json(&v)
}

fn to_json(v: &serde_json::Value) -> Json {
    match v {
        serde_json::Value::Null => Json::Null,
        serde_json::Value::Bool(b) => Json::Bool(*b),
        serde_json::Value::Number(n) => Json::Num(n.to_string()),
        serde_json::Value::String(s) => Json::Str(s.clone()),
        serde_json::Value::Array(a) => Json::Arr(a.iter().map(to_json).collect()),
        serde_json::Value::Object(o) => Json::Obj(o.iter().map(|(k, x)| (k.clone(), to_json(x))).collect()),
    }
}

#[test]
fn word_pieces_join_until_a_space() {
    let tokens = vec![tok(" xin", 0, 100), tok("chào", 100, 250), tok(" ", 250, 260), tok(" bạn", 300, 500)];
    let words = parse_word_timings(&tokens);
    assert_eq!(
        words,
        vec![("xinchào".to_string(), 0, 250), ("bạn".to_string(), 300, 500)]
    );
}

#[test]
fn split_cues_matches_python() {
    let a = split_into_cue_texts("Dòng một.\nDòng hai vẫn ngắn.", 90);
    assert_eq!(a, vec!["Dòng một.", "Dòng hai vẫn ngắn."]);
    let b = split_into_cue_texts("Một câu. Câu hai! Câu ba?", 90);
    assert_eq!(b, vec!["Một câu. Câu hai! Câu ba?"]);
}

#[test]
fn long_lines_split_by_sentence_then_words() {
    let t = split_into_cue_texts("Một câu khá dài. Câu thứ hai cũng dài!  Ba", 20);
    assert_eq!(t, vec!["Một câu khá dài.", "Câu thứ hai cũng", "dài!", "Ba"]);
    let w = split_into_cue_texts("  \n siêu-dài-không-cách  \n", 5);
    assert_eq!(w, vec!["siêu-dài-không-cách"]);
}

#[test]
fn align_matches_python() {
    let cue_texts = vec!["một hai".to_string(), "ba bốn".to_string()];
    let words = vec![
        ("một".to_string(), 0, 300),
        ("hai".to_string(), 300, 600),
        ("ba".to_string(), 600, 900),
        ("bốn".to_string(), 900, 1200),
    ];
    let cues = align(&cue_texts, &words);
    assert_eq!(
        cues,
        vec![
            Cue { start: 0, end: 600, text: "một hai".into() },
            Cue { start: 600, end: 1200, text: "ba bốn".into() },
        ]
    );
}

#[test]
fn align_without_words_spreads_by_length() {
    let cue_texts = vec!["ab".to_string(), "abcdef".to_string()];
    let cues = align(&cue_texts, &[]);
    assert_eq!(
        cues,
        vec![
            Cue { start: 0, end: 500, text: "ab".into() },
            Cue { start: 500, end: 2000, text: "abcdef".into() },
        ]
    );
}

#[test]
fn align_with_few_matches_spreads_over_speech() {
    let cue_texts = vec!["xa lạ".to_string(), "hoàn toàn".to_string()];
    let words = vec![("một".to_string(), 1000, 1500), ("hai".to_string(), 1500, 3000)];
    let cues = align(&cue_texts, &words);
    assert_eq!(cues.len(), 2);
    assert_eq!(cues[0].start, 1000);
    assert_eq!(cues[1].end, 3000);
    assert_eq!(cues[0].end, cues[1].start);
}

#[test]
fn html_entities_read_back() {
    let v: Vec<char> = "a &amp;lt; &lt;b&gt; &quot;c&quot; &#39;d&apos;".chars().collect();
    let out: String = html_unescape(&v).into_iter().collect();
    assert_eq!(out, "a < <b> \"c\" 'd'");
}

#[test]
fn docx_paragraph_text() {
    let xml = "<w:body><w:p><w:r><w:t>Xin </w:t></w:r><w:r><w:t xml:space=\"preserve\">chào &amp; hẹn</w:t></w:r></w:p><w:p></w:p><w:p><w:t>  gặp lại </w:t></w:p></w:body>";
    assert_eq!(docx_xml_text(xml), "Xin chào & hẹn\ngặp lại");
}

fn docx_bytes(xml: &str) -> Vec<u8> {
    let mut buf = std::io::Cursor::new(Vec::new());
    {
        let mut z = zip::ZipWriter::new(&mut buf);
        let opts = zip::write::SimpleFileOptions::default();
        z.start_file("word/document.xml", opts).unwrap();
        z.write_all(xml.as_bytes()).unwrap();
        z.finish().unwrap();
    }
    buf.into_inner()
}

#[test]
fn docx_from_archive_bytes() {
    let bytes = docx_bytes("<w:p><w:t>Dòng một</w:t></w:p><w:p><w:t>Dòng hai</w:t></w:p>");
    assert_eq!(extract_docx(&bytes), Ok("Dòng một\nDòng hai".to_string()));
    assert!(extract_docx(b"not a zip archive").is_err());
}

#[test]
fn docx_and_plain_text() {
    assert!(is_docx("/tmp/Bai.DOCX"));
    assert!(!is_docx("/tmp/bai.txt"));
    assert_eq!(plain_text("\u{feff}\u{feff}  xin chào \n"), "xin chào");
}
