use autosub::align::{align, parse_word_timings, split_into_cue_texts, Token};
use autosub::ass::{line_width, wrap_width};
use autosub::corrections::apply_corrections;
use autosub::num::Dec;

fn words_of(s: &str) -> Vec<String> {
    s.split_whitespace().map(|w| w.to_string()).collect()
}

#[test]
fn wrapping_keeps_words_and_fits() {
    let text = "một hai ba\nbốn năm sáu bảy tám chín mười mười một mười hai";
    let chars: Vec<char> = text.chars().collect();
    let lines = wrap_width(&chars, Dec { num: 18, scale: 0 }, false, 60, 1);
    let lines: Vec<String> = lines.iter().map(|l| l.iter().collect()).collect();
    assert_eq!(words_of(&lines.join(" ")), words_of(text));
    for l in &lines {
        let (num, den) = line_width(l, Dec { num: 18, scale: 0 }, false);
        assert!(num <= 60 * den || !l.contains(' '));
    }
}

#[test]
fn cue_texts_keep_words_and_fit() {
    let text = "  Câu một rất là dài dòng. Câu hai!\tCâu ba không dấu chấm nhưng dài\n\nsiêu-từ-không-thể-chia-nhỏ ngắn\n";
    let max = 16;
    let pieces = split_into_cue_texts(text, max);
    assert_eq!(words_of(&pieces.join(" ")), words_of(text));
    for p in &pieces {
        assert!(!p.is_empty());
        assert!(p.chars().count() <= max || !p.contains(char::is_whitespace));
    }
}

#[test]
fn merged_words_keep_token_text() {
    let tokens = vec![
        Token { text: "[_BEG_]".into(), from: 0, to: 0 },
        Token { text: " Xin".into(), from: 0, to: 100 },
        Token { text: " chà".into(), from: 100, to: 200 },
        Token { text: "o".into(), from: 200, to: 250 },
        Token { text: "  ".into(), from: 250, to: 260 },
        Token { text: " bạn ".into(), from: 300, to: 400 },
    ];
    let words = parse_word_timings(&tokens);
    let joined: String = words.iter().map(|w| w.0.clone()).collect();
    assert_eq!(joined, "Xinchàobạn");
    assert_eq!(words.iter().map(|w| (w.1, w.2)).collect::<Vec<_>>(), vec![(0, 100), (100, 250), (300, 400)]);
}

#[test]
fn aligned_cues_do_not_overlap() {
    let texts = vec!["một hai".to_string(), "ba".to_string(), "bốn năm".to_string()];
    let words = vec![
        ("một".to_string(), 0, 500),
        ("hai".to_string(), 400, 900),
        ("ba".to_string(), 850, 1200),
        ("bốn".to_string(), 1100, 1500),
        ("năm".to_string(), 1500, 1800),
    ];
    let cues = align(&texts, &words);
    assert_eq!(cues.len(), texts.len());
    for (c, t) in cues.iter().zip(texts.iter()) {
        assert_eq!(&c.text, t);
    }
    for w in cues.windows(2) {
        assert!(w[0].end <= w[1].start);
    }
    assert_eq!((cues[0].start, cues[0].end), (0, 850));
    assert_eq!((cues[2].start, cues[2].end), (1100, 1800));
}

#[test]
fn rules_apply_one_after_another() {
    let srt = "1\n00:00:00,000 --> 00:00:01,000\nha noi va sai gon, Ha Noi\n";
    let p1 = vec![("ha noi".to_string(), "Hà Nội".to_string())];
    let p2 = vec![
        ("sai gon".to_string(), "Sài Gòn".to_string()),
        ("Hà Nội".to_string(), "Thủ đô".to_string()),
    ];
    let both: Vec<(String, String)> = p1.iter().chain(p2.iter()).cloned().collect();
    assert_eq!(apply_corrections(srt, &[]), Some(srt.to_string()));
    let step = apply_corrections(srt, &p1).unwrap();
    assert_eq!(apply_corrections(srt, &both), apply_corrections(&step, &p2));
    assert_eq!(
        apply_corrections(srt, &both).unwrap(),
        "1\n00:00:00,000 --> 00:00:01,000\nThủ đô va Sài Gòn, Thủ đô\n"
    );
}
