use acumen::collect::{collect_ties, order_stream, StreamRow, TextRow, Tie};

fn said(user_id: i64, group_id: i64, nick: &str, time: i64, content: &str) -> StreamRow {
    StreamRow {
        group_id,
        user_id,
        time,
        sender_nick: nick.to_string(),
        user_name: nick.to_string(),
        content: content.to_string(),
    }
}

fn own(content: &str, length: i32, time: i64) -> TextRow {
    TextRow { content: content.to_string(), length, tokens: String::new(), time }
}

/// Newest first, as the records are read.
fn newest_first(mut rows: Vec<StreamRow>) -> Vec<StreamRow> {
    rows.sort_by(|a, b| b.time.cmp(&a.time));
    rows
}

#[test]
fn ties_count_both_directions() {
    let t = 1_700_000_000;
    let stream = newest_first(vec![
        said(7, 100, "甲", t, "[@8] 你那个修好了吗"),
        said(8, 100, "乙", t + 30, "[@7] 修好了"),
        said(7, 100, "甲", t + 60, "[@8] 谢了"),
        // 丙 only spoke in the same group; no dealings with 甲.
        said(9, 100, "丙", t + 600, "路过"),
    ]);
    let own_rows = vec![own("[@8] 谢了", 4, t + 60), own("[@8] 你那个修好了吗", 9, t)];
    let ties = collect_ties(stream, 7, 5, &own_rows);
    assert_eq!(ties.len(), 1, "only 乙 dealt with 甲");
    let tie = &ties[0];
    assert_eq!(tie.user_id, 8);
    assert_eq!(tie.name, "乙");
    assert_eq!((tie.at_out, tie.at_in), (2, 1));
    assert_eq!((tie.turn_out, tie.turn_in), (1, 1));
    assert_eq!(tie.weight(), 5);
    assert_eq!(tie.last_time, t + 60);
    assert_eq!(tie.samples, vec!["谢了".to_string(), "你那个修好了吗".to_string()]);
    assert_eq!(tie.initiative(), "我这边主动");
}

#[test]
fn a_turn_needs_two_people_next_to_each_other() {
    let t = 1_700_000_000;
    let stream = newest_first(vec![
        said(7, 100, "甲", t, "[@8] 一"),
        said(7, 100, "甲", t + 5, "二"),
        said(8, 100, "乙", t + 600, "三"),
    ]);
    let own_rows = vec![own("二", 1, t + 5), own("[@8] 一", 2, t)];
    let ties = collect_ties(stream, 7, 5, &own_rows);
    let tie = &ties[0];
    assert_eq!(tie.turn_out, 0, "ten minutes later is no answer");
    assert_eq!(tie.turn_in, 0);
    assert_eq!(tie.at_out, 1, "the mention still counts");
}

#[test]
fn the_number_of_partners_is_capped() {
    let t = 1_700_000_000;
    let mut rows = Vec::new();
    let mut own_rows = Vec::new();
    for offset in 0..4i64 {
        let partner = 100 + offset;
        let text = format!("[@{}] 在吗", partner);
        rows.push(said(7, 100, "甲", t + offset * 10, &text));
        rows.push(said(partner, 100, "某人", t + offset * 10 + 2, "在"));
        own_rows.insert(0, own(&text, 5, t + offset * 10));
    }
    let two = collect_ties(newest_first(rows.clone()), 7, 2, &own_rows);
    assert_eq!(two.len(), 2);
    let none = collect_ties(newest_first(rows), 7, 0, &own_rows);
    assert!(none.is_empty(), "zero partners means none at all");
}

#[test]
fn the_busiest_partner_comes_first_and_the_latest_breaks_ties() {
    let t = 1_000;
    let stream = newest_first(vec![
        said(7, 1, "甲", t, "[@8] 一"),
        said(7, 1, "甲", t + 500, "[@9] 二"),
        said(7, 1, "甲", t + 1000, "[@9] 三"),
        said(7, 1, "甲", t + 1500, "[@10] 四"),
    ]);
    let ties: Vec<Tie> = collect_ties(stream, 7, 3, &[]);
    let order: Vec<i64> = ties.iter().map(|tie| tie.user_id).collect();
    // 9 is mentioned twice; 8 and 10 once each, 10 the more lately.
    assert_eq!(order, vec![9, 10, 8]);
    assert!(ties.iter().all(|tie| tie.samples.is_empty()));
}

#[test]
fn the_most_used_name_wins_and_a_nameless_partner_gets_the_number() {
    let t = 5_000;
    let stream = newest_first(vec![
        said(8, 1, "小乙", t, "在"),
        said(7, 1, "甲", t + 10, "嗯"),
        said(8, 1, "乙", t + 20, "好"),
        said(8, 1, "乙", t + 30, "行"),
        said(7, 1, "甲", t + 40, "[@9] 喂"),
        said(9, 1, "  ", t + 50, "来了"),
        said(7, 1, "甲", t + 60, "走"),
    ]);
    let ties = collect_ties(stream, 7, 5, &[]);
    let eight = ties.iter().find(|tie| tie.user_id == 8).unwrap();
    assert_eq!(eight.name, "乙", "two votes against one");
    let nine = ties.iter().find(|tie| tie.user_id == 9).unwrap();
    assert_eq!(nine.name, "QQ 9", "no name at all: the number stands in");
}

#[test]
fn equal_votes_go_to_the_earlier_name() {
    let t = 9_000;
    let stream = newest_first(vec![
        said(7, 1, "甲", t, "[@8] 喂"),
        said(8, 1, "bob", t + 10, "一"),
        said(8, 1, "alice", t + 20, "二"),
    ]);
    let ties = collect_ties(stream, 7, 5, &[]);
    assert_eq!(ties[0].name, "alice");
}

#[test]
fn the_stream_is_read_group_by_group_oldest_first() {
    let rows = vec![
        said(1, 2, "a", 30, "x"),
        said(2, 1, "b", 20, "y"),
        said(3, 2, "c", 10, "z"),
        said(4, 1, "d", 20, "w"),
    ];
    let ordered = order_stream(rows);
    let seen: Vec<(i64, i64, i64)> =
        ordered.iter().map(|r| (r.group_id, r.time, r.user_id)).collect();
    // Same group and second: the one read later (4) was said earlier.
    assert_eq!(seen, vec![(1, 20, 4), (1, 20, 2), (2, 10, 3), (2, 30, 1)]);
}

#[test]
fn turns_do_not_cross_groups() {
    let t = 100;
    let stream = newest_first(vec![
        said(8, 1, "乙", t, "一"),
        said(7, 2, "甲", t + 5, "二"),
    ]);
    let ties = collect_ties(stream, 7, 5, &[]);
    assert!(ties.is_empty());
}

#[test]
fn initiative_reads_only_the_mentions() {
    let tie = |at_out, at_in, turn_out, turn_in| Tie {
        user_id: 1,
        name: "某人".into(),
        at_out,
        at_in,
        turn_out,
        turn_in,
        last_time: 0,
        samples: Vec::new(),
    };
    assert_eq!(tie(29, 5, 66, 69).initiative(), "我这边主动");
    assert_eq!(tie(12, 11, 36, 29).initiative(), "两边差不多");
    assert_eq!(tie(4, 26, 20, 20).initiative(), "他那边主动");
    assert_eq!(tie(0, 0, 50, 49).initiative(), "只看接话");
    // 13 of 20 is exactly the line.
    assert_eq!(tie(13, 7, 0, 0).initiative(), "我这边主动");
    assert_eq!(tie(7, 13, 0, 0).initiative(), "他那边主动");
}
