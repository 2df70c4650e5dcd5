use autosub::num::{fmt_g, parse_dec_exec, py_float, round_half_away_exec, round_half_even_exec, Dec};
use autosub::tools::{pick_existing, resolve, try_resolve};

fn d(num: i64, scale: u32) -> Dec {
    Dec { num, scale }
}

fn text(v: Vec<char>) -> String {
    v.into_iter().collect()
}

#[test]
fn short_number_forms() {
    assert_eq!(text(fmt_g(d(16, 0))), "16");
    assert_eq!(text(fmt_g(d(1650, 2))), "16.5");
    assert_eq!(text(fmt_g(d(-25, 1))), "-2.5");
    assert_eq!(text(fmt_g(d(12345678, 4))), "1234.57");
    assert_eq!(text(fmt_g(d(1234567, 0))), "1.23457e+06");
    assert_eq!(text(fmt_g(d(1, 5))), "1e-05");
    assert_eq!(text(fmt_g(d(1, 4))), "0.0001");
    assert_eq!(text(fmt_g(d(9999995, 1))), "1e+06");
    assert_eq!(text(fmt_g(d(16_000_000, 6))), "16");
    assert_eq!(text(fmt_g(d(0, 3))), "0");
    assert_eq!(text(fmt_g(d(-1234565, 3))), "-1234.56");
    assert_eq!(text(py_float(d(4, 0))), "4.0");
    assert_eq!(text(py_float(d(25, 1))), "2.5");
    assert_eq!(text(py_float(d(15, 6))), "1.5e-05");
}

#[test]
fn decimals_parse() {
    let p = |s: &str| parse_dec_exec(&s.chars().collect::<Vec<char>>());
    assert_eq!(p("0.25"), Some(d(250_000, 6)));
    assert_eq!(p("-3"), Some(d(-3_000_000, 6)));
    assert_eq!(p("+.5"), Some(d(500_000, 6)));
    assert_eq!(p("5."), Some(d(5_000_000, 6)));
    assert_eq!(p("1e3"), Some(d(1_000_000_000, 6)));
    assert_eq!(p("2.5E-1"), Some(d(250_000, 6)));
    assert_eq!(p("2.0000001"), Some(d(2_000_000, 6)));
    assert_eq!(p("1.0000005"), Some(d(1_000_000, 6)));
    assert_eq!(p("1.0000015"), Some(d(1_000_002, 6)));
    assert_eq!(p("1e9"), None);
    assert_eq!(p("inf"), None);
    assert_eq!(p("NaN"), None);
    assert_eq!(p("."), None);
    assert_eq!(p("1e"), None);
    assert_eq!(p("e5"), None);
    assert_eq!(p("1 "), None);
}

#[test]
fn rounding_modes() {
    assert_eq!(round_half_even_exec(5, 2), 2);
    assert_eq!(round_half_even_exec(7, 2), 4);
    assert_eq!(round_half_even_exec(-5, 2), -2);
    assert_eq!(round_half_away_exec(5, 2), 3);
    assert_eq!(round_half_away_exec(-5, 2), -3);
    assert_eq!(round_half_away_exec(4, 3), 1);
}

#[test]
fn tools_fall_back_to_development_tree() {
    let t = resolve("/nonexistent/src-tauri", None, "/m/model.bin".to_string());
    assert_eq!(t.ffmpeg, "/nonexistent/src-tauri/binaries/binaries/ffmpeg");
    assert_eq!(t.fonts_dir, "/nonexistent/src-tauri/binaries/assets/fonts");
    assert_eq!(t.model, "/m/model.bin");
    let t = resolve("/nonexistent/src-tauri", Some("/res".to_string()), "m".to_string());
    assert_eq!(t.corrections_file, "/res/corrections.txt");
    assert!(try_resolve("/", None, "m".to_string()).is_none());
    assert!(try_resolve("/a/b", None, "m".to_string()).is_some());
}

#[test]
fn pick_existing_prefers_the_first_present() {
    let c = vec!["/res/ffmpeg".to_string(), "/dev/ffmpeg".to_string()];
    assert_eq!(pick_existing(&c, &[true, true]), "/res/ffmpeg");
    assert_eq!(pick_existing(&c, &[false, true]), "/dev/ffmpeg");
    assert_eq!(pick_existing(&c, &[false, false]), "/res/ffmpeg");
}
