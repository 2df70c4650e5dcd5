use autosub::ass::Style;
use autosub::ffmpeg::{band_ass_path, burn_filter, mode_of, out_time_ms, parse_dimensions, Mode};

#[test]
fn modes_by_name() {
    assert_eq!(mode_of("srt"), Ok(Mode::Srt));
    assert_eq!(mode_of("soft"), Ok(Mode::Soft));
    assert_eq!(mode_of("burn"), Ok(Mode::Burn));
    assert_eq!(mode_of("Burn"), Err("mode không hợp lệ: Burn".to_string()));
}

#[test]
fn probed_dimensions() {
    assert_eq!(parse_dimensions("1280x720\n"), (1280, 720));
    assert_eq!(parse_dimensions(" 640 x 360 x 9"), (640, 360));
    assert_eq!(parse_dimensions("+8x-2"), (8, -2));
    assert_eq!(parse_dimensions("1280"), (1920, 1080));
    assert_eq!(parse_dimensions("axb"), (1920, 1080));
    assert_eq!(parse_dimensions(""), (1920, 1080));
}

#[test]
fn progress_times() {
    assert_eq!(out_time_ms("out_time_ms=1234567"), Some(1234567));
    assert_eq!(out_time_ms("out_time_ms= 42 "), Some(42));
    assert_eq!(out_time_ms("out_time=00:00:01"), None);
    assert_eq!(out_time_ms("out_time_ms=N/A"), None);
}

#[test]
fn burn_filters() {
    assert_eq!(burn_filter("/j/o.srt", None, None), "subtitles=f='/j/o.srt'");
    let boxed = Style { box_on: true, ..Default::default() };
    assert_eq!(burn_filter("/j/o.srt", Some(&boxed), Some("/f")), "subtitles=f='/j/o.ass':fontsdir='/f'");
    let plain = Style { bold: true, ..Default::default() };
    assert_eq!(burn_filter("C:/o.srt", Some(&plain), None), "subtitles=f='C\\:/o.srt':force_style='Bold=-1'");
    assert_eq!(band_ass_path("/j/o.srt"), "/j/o.ass");
}
