use acumen::commands::{cloud_title, parse_cloud, parse_stats, query_scope, stats_title};
use acumen::settings::{keep_latest, ChartError, GenError, StatsConfig, WordCloudConfig};

#[test]
fn statistics_commands_are_read_word_by_word() {
    let all = parse_stats("所有群今日发言排行榜").unwrap();
    assert!(all.all_groups);
    assert_eq!((all.scope, all.period, all.data, all.chart), ("跨群", "今日", "发言", "排行榜"));
    assert_eq!(stats_title(&all), "所有群今日发言排行榜");

    let mine = parse_stats("我的近30天表情包走势").unwrap();
    assert_eq!((mine.scope, mine.period, mine.data, mine.chart), ("我的", "近30天", "表情包", "走势"));
    assert!(!mine.all_groups);

    let plain = parse_stats("本周消息类型排行榜").unwrap();
    assert_eq!(plain.scope, "本群");
    assert_eq!(stats_title(&plain), "本群本周消息类型排行榜");

    assert!(parse_stats("所有群今日表情包排行榜").is_none());
    assert!(parse_stats("本群今日发言排行榜吧").is_none());
    assert!(parse_stats("今日词云").is_none());
}

#[test]
fn word_cloud_commands_need_a_scope() {
    assert_eq!(parse_cloud("本群今日词云"), Some(("本群", "今日")));
    assert_eq!(parse_cloud("跨群总词云"), Some(("跨群", "总")));
    assert_eq!(parse_cloud("今日词云"), None);
    assert_eq!(cloud_title("本群", "今日"), "本群 的 今日 词云");
}

#[test]
fn a_scope_says_whom_the_query_covers() {
    assert_eq!(query_scope("本群", Some(5), 7), Some((Some(5), None)));
    assert_eq!(query_scope("本群", None, 7), None);
    assert_eq!(query_scope("我的", Some(5), 7), Some((None, Some(7))));
    assert_eq!(query_scope("跨群", Some(5), 7), Some((None, None)));
}

#[test]
fn defaults_and_outcomes() {
    let stats = StatsConfig::default();
    assert_eq!(stats.width, 960);
    assert_eq!(stats.daily_push_time, "23:30:00");
    assert_eq!(stats.font_family, "Noto Sans CJK SC");
    let cloud = WordCloudConfig::default();
    assert_eq!(cloud.limit, 50);
    assert_eq!(cloud.max_msg, 50000);
    assert_eq!(ChartError::NoData.message(), "区间内没有数据");
    assert_eq!(GenError::Failed("坏了".into()).message(), "坏了");
    assert_eq!(GenError::Empty.message(), "区间内没有可用的聊天记录");
    let corpus: Vec<String> = (0..5).map(|i| i.to_string()).collect();
    assert_eq!(keep_latest(corpus.clone(), 2), vec!["3", "4"]);
    assert_eq!(keep_latest(corpus.clone(), 0).len(), 5);
}
