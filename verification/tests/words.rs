use acumen::collect::{top_words, TextRow};

fn tokens(t: &str) -> TextRow {
    TextRow { content: String::new(), length: 1, tokens: t.to_string(), time: 0 }
}

#[test]
fn the_words_said_more_than_once_come_first_by_count() {
    let rows = vec![
        tokens("天气 代码 天气 12 a １２"),
        tokens("天气 代码 好的 的了 １２"),
        tokens("代码 的了"),
    ];
    let stops = vec!["的了".to_string()];
    let words = top_words(&rows, &stops);
    assert_eq!(
        words,
        vec![("代码".to_string(), 3), ("天气".to_string(), 3), ("１２".to_string(), 2)]
    );
}

#[test]
fn no_words_means_an_empty_list() {
    assert!(top_words(&[], &[]).is_empty());
    assert!(top_words(&[tokens("一次 两次")], &[]).is_empty(), "said once each");
}
