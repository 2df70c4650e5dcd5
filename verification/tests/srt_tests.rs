use autosub::srt::{format_ts, hide_before, parse_srt_str, shift, write_srt_str, Cue};

const SRT_IN: &str = "1\n00:00:01,000 --> 00:00:02,500\nxin chào\n\n2\n00:00:03,000 --> 00:00:05,000\nnôn mưởng nhé\n";

fn cue(start: i64, end: i64, text: &str) -> Cue {
    Cue { start, end, text: text.to_string() }
}

#[test]
fn parse_matches_python() {
    let cues = parse_srt_str(SRT_IN);
    assert_eq!(cues, vec![cue(1000, 2500, "xin chào"), cue(3000, 5000, "nôn mưởng nhé")]);
}

#[test]
fn write_matches_python() {
    let cues = parse_srt_str(SRT_IN);
    assert_eq!(
        write_srt_str(&cues),
        "1\n00:00:01,000 --> 00:00:02,500\nxin chào\n\n2\n00:00:03,000 --> 00:00:05,000\nnôn mưởng nhé\n\n"
    );
}

#[test]
fn shift_matches_python() {
    let out = shift(&parse_srt_str(SRT_IN), 5500);
    let times: Vec<(i64, i64)> = out.iter().map(|c| (c.start, c.end)).collect();
    assert_eq!(times, vec![(6500, 8000), (8500, 10500)]);
}

#[test]
fn hide_before_matches_python() {
    let out = hide_before(&parse_srt_str(SRT_IN), 2000);
    assert_eq!(out.len(), 2);
    let times: Vec<(i64, i64)> = out.iter().map(|c| (c.start, c.end)).collect();
    assert_eq!(times, vec![(2000, 2500), (3000, 5000)]);
}

#[test]
fn format_ts_pads_and_clamps() {
    assert_eq!(format_ts(0), "00:00:00,000");
    assert_eq!(format_ts(3_723_004), "01:02:03,004");
    assert_eq!(format_ts(-5), "00:00:00,000");
    assert_eq!(format_ts(360_000_000), "100:00:00,000");
}

#[test]
fn timestamp_reads_back() {
    for t in [0i64, 1, 999, 1000, 59_999, 3_599_999, 86_400_000, 359_999_998] {
        let text = format!("1\n{} --> {}\nx\n", format_ts(t), format_ts(t + 1));
        let cues = parse_srt_str(&text);
        assert_eq!(cues.len(), 1);
        assert_eq!(cues[0].start, t);
        assert_eq!(cues[0].end, t + 1);
    }
}

#[test]
fn parse_skips_bad_blocks_and_reads_dots() {
    let raw = "\u{feff}1\nno arrow here\ntext\n\n2\n00:00:01.500 --> 00:00:02.000\n  spaced  \n\n \n3\n00:00:03,000\n";
    let cues = parse_srt_str(raw);
    assert_eq!(cues, vec![cue(1500, 2000, "spaced")]);
}

#[test]
fn parse_joins_text_lines() {
    let raw = "7\r\n00:00:00,100 --> 00:00:00,200\r\nline one\r\nline two\r\n";
    let cues = parse_srt_str(raw);
    assert_eq!(cues, vec![cue(100, 200, "line one\nline two")]);
}

#[test]
fn shift_earlier_clamps_at_zero() {
    let out = shift(&[cue(1000, 3000, "a")], -2000);
    assert_eq!((out[0].start, out[0].end), (0, 1000));
    let back = shift(&shift(&[cue(1000, 3000, "a")], 700), -700);
    assert_eq!((back[0].start, back[0].end), (1000, 3000));
}

#[test]
fn hide_before_is_idempotent_and_keeps_nonpositive() {
    let cues = vec![cue(0, 1000, "a"), cue(500, 2500, "b"), cue(3000, 4000, "c")];
    let once = hide_before(&cues, 1000);
    assert_eq!(once, vec![cue(1000, 2500, "b"), cue(3000, 4000, "c")]);
    assert_eq!(hide_before(&once, 1000), once);
    assert_eq!(hide_before(&cues, 0), cues);
}

#[test]
fn write_then_parse_gives_cues_back() {
    let cues = vec![cue(0, 1500, "một"), cue(1500, 4000, "hai\nba"), cue(4000, 4000, "")];
    assert_eq!(parse_srt_str(&write_srt_str(&cues)), cues);
}
