use acumen::cloud::{check_cloud_size, frequencies, top_words};

#[test]
fn rejects_oversized_cloud_before_allocating() {
    assert!(check_cloud_size(u32::MAX, 600).is_err());
    assert!(check_cloud_size(2048, 2048).is_err(), "over four million pixels");
    assert!(check_cloud_size(63, 600).is_err());
    assert!(check_cloud_size(800, 600).is_ok());
    assert_eq!(
        check_cloud_size(10, 10).unwrap_err(),
        "词云尺寸须在 64—2048 像素之间，总面积不超过 400 万像素"
    );
}

#[test]
fn only_real_words_are_counted() {
    let corpus = vec![
        "今天 天气 不错".to_string(),
        "天气  真好 123 ,, ３４".to_string(),
        "a 天气\t今天".to_string(),
    ];
    let stops = vec!["不错".to_string()];
    let freq = frequencies(&corpus, &stops);
    assert_eq!(
        freq,
        vec![("今天".to_string(), 2), ("天气".to_string(), 3), ("真好".to_string(), 1)]
    );
}

#[test]
fn the_most_frequent_words_come_first_and_ties_read_in_order() {
    let freq = vec![("b".to_string(), 2), ("a".to_string(), 2), ("c".to_string(), 5)];
    assert_eq!(top_words(&freq, 2), vec![("c".to_string(), 5), ("a".to_string(), 2)]);
    assert_eq!(top_words(&freq, 0), vec![("c".to_string(), 5)], "at least one word");
    assert_eq!(top_words(&freq, 10).len(), 3);
}
