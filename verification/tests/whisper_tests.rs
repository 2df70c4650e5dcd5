use autosub::whisper::{corrections_for, progress_percent};

#[test]
fn progress_lines() {
    assert_eq!(progress_percent("whisper_full: progress =  45%"), Some(45));
    assert_eq!(progress_percent("progress=7% and progress = 9%"), Some(7));
    assert_eq!(progress_percent("progress = %"), None);
    assert_eq!(progress_percent("progress x 5% then progress= 6%"), Some(6));
    assert_eq!(progress_percent("no report"), None);
}

#[test]
fn correction_file_steps() {
    assert_eq!(corrections_for("# only comments\n\n", "x"), Ok(None));
    assert_eq!(corrections_for("a => b\n", "A a"), Ok(Some("B b".to_string())));
}
