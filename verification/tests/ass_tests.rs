use autosub::ass::{
    ass_alpha, ass_bgr, ass_time, build_force_style, char_frac, esc_filter, hex_to_ass, line_width,
    wrap_width, Style,
};
use autosub::band::write_band_ass_str;
use autosub::num::Dec;
use autosub::srt::Cue;

fn d(num: i64, scale: u32) -> Dec {
    Dec { num, scale }
}

fn chars(s: &str) -> Vec<char> {
    s.chars().collect()
}

#[test]
fn helpers_match_python() {
    assert_eq!(hex_to_ass("#000000", d(0, 0)), "&H00000000");
    assert_eq!(hex_to_ass("#ffffff", d(0, 0)), "&H00FFFFFF");
    assert_eq!(hex_to_ass("#2563eb", d(25, 2)), "&H40EB6325");
    assert_eq!(ass_bgr("#000000"), "&H000000&");
    assert_eq!(ass_bgr("#2563eb"), "&HEB6325&");
    assert_eq!(ass_alpha(d(1, 0)), "&H00&");
    assert_eq!(ass_alpha(d(25, 2)), "&HBF&");
    assert_eq!(ass_time(0), "0:00:00.00");
    assert_eq!(ass_time(65_321), "0:01:05.32");
    assert_eq!(ass_time(-3000), "0:00:00.00");
}

#[test]
fn width_and_wrap_match_python() {
    let (num, den) = line_width("xin chào", d(16, 0), true);
    assert_eq!((num, den), (502_528, 10_000));
    let wrapped = wrap_width(
        &chars("đây là một câu rất dài để kiểm tra việc xuống dòng theo bề rộng hộp nền"),
        d(16, 0),
        true,
        120,
        1,
    );
    let got: Vec<String> = wrapped.iter().map(|l| l.iter().collect()).collect();
    assert_eq!(
        got,
        vec!["đây là một câu rất", "dài để kiểm tra", "việc xuống dòng", "theo bề rộng hộp", "nền"]
    );
}

fn style_box() -> Style {
    Style {
        font: Some("UTM Avo".into()),
        size: Some("16".into()),
        bold: true,
        fill: Some("#ffffff".into()),
        box_on: true,
        box_color: Some("#000000".into()),
        box_opacity: Some("0.25".into()),
        outline: Some("4".into()),
        align: Some("bottom".into()),
        margin: Some("24".into()),
        ..Default::default()
    }
}

#[test]
fn force_style_box_matches_python() {
    assert_eq!(
        build_force_style(Some(&style_box())),
        "FontName=UTM Avo,FontSize=16,Bold=-1,PrimaryColour=&H00FFFFFF,BorderStyle=3,Shadow=0,OutlineColour=&HBF000000,Outline=4.0,Alignment=2,MarginV=24"
    );
}

#[test]
fn force_style_stroke_matches_python() {
    let s = Style {
        font: Some("UTM Avo".into()),
        size: Some("18".into()),
        bold: false,
        fill: Some("#ffff00".into()),
        outline: Some("2".into()),
        outline_color: Some("#000000".into()),
        outline_opacity: Some("1.0".into()),
        align: Some("bottom".into()),
        margin: Some("30".into()),
        ..Default::default()
    };
    assert_eq!(
        build_force_style(Some(&s)),
        "FontName=UTM Avo,FontSize=18,Bold=0,PrimaryColour=&H0000FFFF,Outline=2,OutlineColour=&H00000000,Alignment=2,MarginV=30"
    );
}

#[test]
fn force_style_none_is_empty() {
    assert_eq!(build_force_style(None), "");
}

#[test]
fn force_style_box_defaults() {
    let s = Style { box_on: true, italic: true, size: Some(" 20.7 ".into()), ..Default::default() };
    assert_eq!(
        build_force_style(Some(&s)),
        "FontSize=20,Bold=0,Italic=-1,BorderStyle=3,Shadow=0,OutlineColour=&H00000000,Outline=4"
    );
    let s = Style { box_on: true, outline: Some("2.5".into()), box_opacity: Some("0".into()), ..Default::default() };
    assert_eq!(
        build_force_style(Some(&s)),
        "Bold=0,BorderStyle=3,Shadow=0,OutlineColour=&HFF000000,Outline=2.5"
    );
}

#[test]
fn band_ass_matches_python_byte_for_byte() {
    let cues = vec![
        Cue { start: 1000, end: 3000, text: "xin chào các bạn".into() },
        Cue {
            start: 3000,
            end: 8000,
            text: "đây là một câu rất dài cần xuống dòng và tách trang để kiểm tra hộp nền băng ngang ôm sát chữ".into(),
        },
    ];
    let got = write_band_ass_str(&cues, &style_box(), 1920, 1080);
    let expected = "[Script Info]\nScriptType: v4.00+\nPlayResX: 512\nPlayResY: 288\nWrapStyle: 2\nScaledBorderAndShadow: yes\n\n[V4+ Styles]\nFormat: Name, Fontname, Fontsize, PrimaryColour, SecondaryColour, OutlineColour, BackColour, Bold, Italic, Underline, StrikeOut, ScaleX, ScaleY, Spacing, Angle, BorderStyle, Outline, Shadow, Alignment, MarginL, MarginR, MarginV, Encoding\nStyle: Text,UTM Avo,16,&H00FFFFFF,&H000000FF,&H00000000,&H00000000,-1,0,0,0,100,100,0,0,1,4,0,2,20,20,24,1\n\n[Events]\nFormat: Layer, Start, End, Style, Name, MarginL, MarginR, MarginV, Effect, Text\nDialogue: 0,0:00:01.00,0:00:03.00,Text,,0,0,0,,{\\p1\\an7\\pos(0,0)\\1c&H000000&\\1a&HBF&\\bord0\\shad0}m 204 242 l 307 242 307 266 204 266{\\p0}\nDialogue: 1,0:00:01.00,0:00:03.00,Text,,0,0,0,,xin chào các bạn\nDialogue: 0,0:00:03.00,0:00:08.00,Text,,0,0,0,,{\\p1\\an7\\pos(0,0)\\1c&H000000&\\1a&HBF&\\bord0\\shad0}m 36 223 l 477 223 477 266 36 266{\\p0}\nDialogue: 1,0:00:03.00,0:00:08.00,Text,,0,0,0,,đây là một câu rất dài cần xuống dòng và tách trang để kiểm tra hộp nền\\Nbăng ngang ôm sát chữ\n";
    assert_eq!(got, expected);
}

#[test]
fn band_ass_pages_share_time() {
    let long = "một hai ba bốn năm sáu bảy tám chín mười ".repeat(6);
    let cues = vec![Cue { start: 0, end: 9000, text: long.trim().to_string() }];
    let s = Style { size: Some("16".into()), ..Default::default() };
    let got = write_band_ass_str(&cues, &s, 640, 360);
    let events: Vec<&str> = got.lines().filter(|l| l.starts_with("Dialogue: 1,")).collect();
    assert!(events.len() >= 2);
    assert!(events[0].starts_with("Dialogue: 1,0:00:00.00,"));
    assert!(events[events.len() - 1].contains(",0:00:09.00,Text"));
    for w in events.windows(2) {
        let end = w[0].split(',').nth(2).unwrap();
        let start = w[1].split(',').nth(1).unwrap();
        assert_eq!(end, start);
    }
}

#[test]
fn band_ass_braces_become_parentheses() {
    let cues = vec![Cue { start: 0, end: 1000, text: "{\\b1}x".into() }];
    let got = write_band_ass_str(&cues, &Style::default(), 1920, 1080);
    assert!(got.contains("Dialogue: 1,0:00:00.00,0:00:01.00,Text,,0,0,0,,(\\b1)x\n"));
    let empty = write_band_ass_str(&[], &Style::default(), 1920, 1080);
    assert!(empty.ends_with("Effect, Text\n\n"));
}

#[test]
fn esc_filter_escapes_specials() {
    assert_eq!(esc_filter("C:\\a'b"), "C\\:\\\\a\\'b");
    assert_eq!(esc_filter("/plain/path.srt"), "/plain/path.srt");
}

#[test]
fn char_frac_classes() {
    assert_eq!(char_frac(' ', false), 3000);
    assert_eq!(char_frac('i', false), 3200);
    assert_eq!(char_frac('M', false), 6000);
    assert_eq!(char_frac('7', false), 4200);
    assert_eq!(char_frac('Đ', false), 5200);
    assert_eq!(char_frac('a', true), 4160);
}

#[test]
fn hex_short_form_is_doubled() {
    assert_eq!(hex_to_ass("#abc", d(0, 0)), "&H00CCBBAA");
    assert_eq!(ass_bgr("##123456"), "&H563412&");
    assert_eq!(hex_to_ass("#000000", d(2, 0)), "&HFF000000");
}

#[test]
fn band_ass_takes_any_width() {
    let cues = vec![Cue { start: 0, end: 1000, text: "xin chào".into() }];
    let s = Style { size: Some("16".into()), ..Default::default() };
    let huge = write_band_ass_str(&cues, &s, i64::MAX, 1);
    assert!(huge.contains("PlayResX: 9223372036854775807\n"));
    let wide = write_band_ass_str(&cues, &s, 100_000_000_000, 1);
    assert!(wide.contains("PlayResX: 28800000000000\n"));
    let narrow = write_band_ass_str(&cues, &s, -5, 0);
    assert!(narrow.contains("PlayResX: 320\n"));
    for out in [&huge, &wide, &narrow] {
        let band = out.lines().find(|l| l.starts_with("Dialogue: 0,")).unwrap();
        let px: i128 = out.lines().find(|l| l.starts_with("PlayResX: ")).unwrap()[10..].parse().unwrap();
        let coords: Vec<i128> = band.split("}m ").nth(1).unwrap().split('{').next().unwrap()
            .split(' ').filter(|t| *t != "l").map(|t| t.parse().unwrap()).collect();
        let (x1, x2) = (coords[0], coords[2]);
        assert!(0 < x1 && x1 < x2 && x2 <= px);
        assert!((x1 + x2 - px).abs() <= 1);
    }
}
