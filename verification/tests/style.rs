use acumen::collect::TextRow;
use acumen::style::style_of;

fn row(content: &str, length: i32) -> TextRow {
    TextRow { content: content.to_string(), length, tokens: String::new(), time: 0 }
}

fn at(content: &str, time: i64) -> TextRow {
    TextRow { content: content.to_string(), length: 2, tokens: String::new(), time }
}

#[test]
fn the_style_fingerprint_counts_what_was_really_said() {
    let rows = vec![
        row("[图片]", 0),
        row("你觉得呢？", 5),
        row("太强了！！", 5),
        row("哈哈哈哈哈笑死", 7),
        row("就这样吧。", 5),
        row("我说你好啊", 5),
    ];
    let s = style_of(&rows);
    assert_eq!(s.readable, 5, "the picture does not count");
    assert_eq!(s.question, 1);
    assert_eq!(s.exclaim, 1);
    assert_eq!(s.laugh, 1);
    assert_eq!(s.modal, 3);
    assert_eq!(s.self_ref, 1);
    assert_eq!(s.you_ref, 2);
    assert_eq!(s.chars, 5 + 5 + 7 + 5 + 5);
    assert_eq!(s.short, 4);
    assert_eq!(s.long, 0);
    assert_eq!(s.lengths, vec![5, 5, 7, 5, 5]);
    let rate = |part: u64| part as f64 / s.readable as f64;
    assert!((rate(s.question) - 0.2).abs() < 1e-9);
    assert!((rate(s.exclaim) - 0.2).abs() < 1e-9);
    assert!((rate(s.laugh) - 0.2).abs() < 1e-9);
    assert!((rate(s.modal) - 0.6).abs() < 1e-9);
    assert!(s.self_ref as f64 / s.chars as f64 * 100.0 > 0.0);
}

#[test]
fn an_empty_style_is_all_zero() {
    let s = style_of(&[row("[图片]", 0)]);
    assert_eq!(s.readable, 0);
    assert_eq!(s.question, 0);
    assert!(s.lengths.is_empty());
    assert!(s.gaps.is_empty());
    assert_eq!(s.repeat, 0);
}

#[test]
fn gaps_and_repeats_are_read_oldest_first() {
    // Read newest first.
    let rows = vec![at("好", 240), at("好", 180), at("嗯", 120), at("好", 60), at("好", 0)];
    let s = style_of(&rows);
    assert_eq!(s.gaps, vec![60, 60, 60, 60]);
    assert_eq!(s.repeat, 2);
}

#[test]
fn laughter_ellipses_and_commas_are_found_in_any_case() {
    let rows = vec![row("LOL，真的假的…", 9), row("XSWL, 233", 9), row("好吧...", 5)];
    let s = style_of(&rows);
    assert_eq!(s.laugh, 2);
    assert_eq!(s.ellipsis, 2);
    assert_eq!(s.commas, 2);
    assert_eq!(s.modal, 1);
}
