use autosub::pipeline::{
    aligned_srt, auto_plan, ext_lower, hide_srt, is_timed, merge_plan, merge_settings,
    needs_conversion, output_video_path, parse_offset, shift_srt, style_from_json, JsonObject,
    JsonValue, RunOptions,
};

fn obj(fields: Vec<(&str, JsonValue)>) -> JsonObject {
    JsonObject { fields: fields.into_iter().map(|(k, v)| (k.to_string(), v)).collect() }
}

fn s(x: &str) -> JsonValue {
    JsonValue::Str(x.to_string())
}

#[test]
fn style_reads_fields() {
    let o = obj(vec![
        ("font", s("UTM Avo")),
        ("size", JsonValue::Num("16".into())),
        ("bold", JsonValue::Bool(true)),
        ("italic", s("yes")),
        ("fill", s("")),
        ("box", JsonValue::Bool(true)),
        ("box_opacity", s("0.25")),
        ("margin", JsonValue::Other),
    ]);
    let st = style_from_json(Some(&o)).unwrap();
    assert_eq!(st.font.as_deref(), Some("UTM Avo"));
    assert_eq!(st.size.as_deref(), Some("16"));
    assert!(st.bold);
    assert!(!st.italic);
    assert_eq!(st.fill, None);
    assert!(st.box_on);
    assert_eq!(st.box_opacity.as_deref(), Some("0.25"));
    assert_eq!(st.margin, None);
    assert!(style_from_json(None).is_none());
}

#[test]
fn offset_in_milliseconds() {
    assert_eq!(parse_offset(Some(&JsonValue::Num("1.5".into()))), 1500);
    assert_eq!(parse_offset(Some(&s(" -0.25 "))), -250);
    assert_eq!(parse_offset(Some(&s("0.0005"))), 0);
    assert_eq!(parse_offset(Some(&s("0.0015"))), 2);
    assert_eq!(parse_offset(Some(&s("1e1"))), 10_000);
    assert_eq!(parse_offset(Some(&s("2.0000001"))), 2_000);
    assert_eq!(parse_offset(Some(&JsonValue::Num("1.5e-3".into()))), 2);
    assert_eq!(parse_offset(Some(&s("-inf"))), -1_000_000_000_000_000);
    assert_eq!(parse_offset(Some(&s("1e400"))), 1_000_000_000_000_000);
    assert_eq!(parse_offset(Some(&s("1e-400"))), 0);
    assert_eq!(parse_offset(Some(&s("NaN"))), 0);
    assert_eq!(parse_offset(Some(&s("abc"))), 0);
    assert_eq!(parse_offset(Some(&JsonValue::Bool(true))), 0);
    assert_eq!(parse_offset(None), 0);
}

#[test]
fn output_paths_keep_extension() {
    assert_eq!(output_video_path("/j", "/v/clip.MOV"), "/j/output.MOV");
    assert_eq!(output_video_path("/j", "/v/clip"), "/j/output.mp4");
    assert_eq!(ext_lower("/s/Sub.SRT"), "srt");
    assert!(is_timed("/s/a.VTT"));
    assert!(is_timed("/s/a.ass"));
    assert!(!is_timed("/s/a.txt"));
    assert!(needs_conversion("/s/a.vtt"));
    assert!(!needs_conversion("/s/a.Srt"));
}

#[test]
fn auto_plan_defaults_and_modes() {
    let opts = RunOptions { language: None, mode: None, offset: Some(s("2")), style: Some(obj(vec![("box", JsonValue::Bool(true))])) };
    let p = auto_plan("/j", "/v/a.mp4", &opts);
    assert_eq!(p.lang, "vi");
    assert_eq!(p.mode, "burn");
    assert_eq!(p.wav, "/j/audio.wav");
    assert_eq!(p.srt, "/j/output.srt");
    assert_eq!(p.out, "/j/output.mp4");
    assert_eq!(p.hide_before_ms, Some(2000));
    assert!(p.style.unwrap().box_on);
    let opts = RunOptions { language: Some("en".into()), mode: Some("srt".into()), offset: Some(s("-1")), style: Some(obj(vec![])) };
    let p = auto_plan("/j", "/v/a.mp4", &opts);
    assert_eq!(p.out, "/j/output.srt");
    assert_eq!(p.hide_before_ms, None);
    assert!(p.style.is_none());
    assert_eq!(p.lang, "en");
}

#[test]
fn merge_plan_and_settings() {
    let p = merge_plan("/j", "/v/a.mkv", "/s/b.docx", "soft");
    assert!(!p.timed);
    assert_eq!(p.out, "/j/output.mkv");
    assert_eq!(p.tmp, "/j/src.srt");
    let p = merge_plan("/j", "/v/a.mkv", "/s/b.srt", "srt");
    assert!(p.timed);
    assert_eq!(p.out, "/j/output.srt");
    let m = merge_settings(&RunOptions { language: None, mode: Some("soft".into()), offset: Some(JsonValue::Num("0.5".into())), style: Some(obj(vec![])) });
    assert_eq!(m.lang, "vi");
    assert_eq!(m.mode, "soft");
    assert_eq!(m.offset_ms, 500);
    assert!(m.style.is_none());
}

const SRT: &str = "1\n00:00:01,000 --> 00:00:02,500\nmột\n\n2\n00:00:03,000 --> 00:00:05,000\nhai\n";

#[test]
fn hide_and_shift_subtitle_files() {
    assert_eq!(hide_srt(SRT, 2600), "1\n00:00:03,000 --> 00:00:05,000\nhai\n\n");
    assert_eq!(
        shift_srt(SRT, -1500),
        Some("1\n00:00:00,000 --> 00:00:01,000\nmột\n\n2\n00:00:01,500 --> 00:00:03,500\nhai\n\n".to_string())
    );
    assert_eq!(shift_srt(SRT, i64::MAX), None);
}

#[test]
fn aligned_subtitle_file() {
    let words = vec![("một".to_string(), 0, 300), ("hai".to_string(), 300, 600)];
    assert_eq!(
        aligned_srt("một\nhai", &words, 1000),
        Some("1\n00:00:01,000 --> 00:00:01,300\nmột\n\n2\n00:00:01,300 --> 00:00:01,600\nhai\n\n".to_string())
    );
    let far = vec![("một".to_string(), 0, i64::MAX)];
    assert_eq!(aligned_srt("một", &far, 0), None);
}
