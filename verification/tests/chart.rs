use acumen::chart::{
    allocate_strip_widths, group_bars, group_series, hour_buckets, message_type_style, nice_axis,
    palette_color, sender_bar, short_x_label, timeline, type_bars, type_series, user_bars,
    ChartDataPoint, GroupRank, RankRow, Rgb, Series, TrendRow, TypeTrend,
};

const PRIMARY: Rgb = Rgb { r: 31, g: 99, b: 80 };

#[test]
fn each_kind_keeps_its_colour_and_badge() {
    assert_eq!(message_type_style("文本"), (Rgb { r: 79, g: 92, b: 87 }, '文'));
    assert_eq!(message_type_style("图片"), (PRIMARY, '图'));
    assert_eq!(message_type_style("动画表情"), (Rgb { r: 74, g: 91, b: 58 }, '动'));
    assert_eq!(message_type_style("表情"), (Rgb { r: 122, g: 83, b: 0 }, '表'));
    assert_eq!(message_type_style("别的"), (PRIMARY, '?'));
}

#[test]
fn lines_cycle_through_the_five_hues() {
    assert_eq!(palette_color(0), PRIMARY);
    assert_eq!(palette_color(5), PRIMARY);
    assert_eq!(palette_color(7), Rgb { r: 95, g: 58, b: 150 });
}

#[test]
fn kinds_without_messages_get_no_bar_and_the_rest_rank_by_count() {
    let bars = type_bars([5, 0, 7, 5, 0, 1]);
    let seen: Vec<(String, i64, Option<char>)> =
        bars.iter().map(|b| (b.label.clone(), b.value, b.icon)).collect();
    assert_eq!(
        seen,
        vec![
            ("语音".to_string(), 7, Some('语')),
            ("文本".to_string(), 5, Some('文')),
            ("视频".to_string(), 5, Some('视')),
            ("表情".to_string(), 1, Some('表')),
        ]
    );
    assert!(type_bars([0; 6]).is_empty());
}

#[test]
fn hours_are_filed_under_their_bucket() {
    // Twelve hours from the start: twelve buckets.
    let counts = hour_buckets(0, 12 * 3600, &[(3, 4), (27, 1), (-21, 2), (15, 9)]);
    assert_eq!(counts.len(), 12);
    assert_eq!(counts[3], 7, "hour 27 and hour -21 are both three o'clock");
    assert_eq!(counts.iter().sum::<i64>(), 7, "fifteen o'clock lies beyond the period");
    // A part of an hour still gets its bucket; a whole day is capped.
    assert_eq!(hour_buckets(0, 3601, &[]).len(), 2);
    assert_eq!(hour_buckets(0, 90 * 3600, &[]).len(), 24);
    assert_eq!(hour_buckets(10, 10, &[]).len(), 1);
}

#[test]
fn only_the_kinds_that_occur_get_a_line() {
    let day = |date: &str, text: i64, face: i64| TypeTrend {
        date: date.to_string(),
        text,
        image: 0,
        voice: 0,
        video: 0,
        anim_emoji: 0,
        face,
    };
    let lines = type_series(&[day("01-01", 3, 0), day("01-02", 0, 2)]);
    assert_eq!(lines.len(), 2);
    assert_eq!(lines[0].name, "文本");
    assert_eq!(lines[1].name, "表情");
    let values: Vec<i64> = lines[1].points.iter().map(|p| p.value).collect();
    assert_eq!(values, vec![0, 2]);
    assert_eq!(lines[1].points[1].label, "01-02");
}

#[test]
fn the_busiest_ten_groups_get_a_line() {
    let mut rows = Vec::new();
    for g in 0..12i64 {
        for d in 0..2 {
            rows.push(TrendRow {
                group_name: format!("群{g}"),
                date: format!("d{d}"),
                count: g * 10 + d,
            });
        }
    }
    let lines = group_series(&rows);
    assert_eq!(lines.len(), 10);
    assert_eq!(lines[0].name, "群11");
    assert_eq!(lines[9].name, "群2");
    assert_eq!(lines[0].color, palette_color(0));
    assert_eq!(lines[6].color, palette_color(1));
    let first: Vec<(String, i64)> =
        lines[0].points.iter().map(|p| (p.label.clone(), p.value)).collect();
    assert_eq!(first, vec![("d0".to_string(), 110), ("d1".to_string(), 111)]);
}

#[test]
fn the_one_who_asked_is_starred() {
    let ranking = vec![
        RankRow { user_id: 1, nickname: "甲".to_string(), count: 9 },
        RankRow { user_id: 2, nickname: "乙".to_string(), count: 4 },
    ];
    let (bars, missing) = user_bars(&ranking, 2);
    assert_eq!(bars[0].label, "甲");
    assert_eq!(bars[1].label, "★ 乙");
    assert_eq!(bars[1].avatar_url.as_deref(), Some("https://q1.qlogo.cn/g?b=qq&nk=2&s=640"));
    assert!(!missing);
    let (_, missing) = user_bars(&ranking, 3);
    assert!(missing, "3 is not in the ranking");
    let (_, missing) = user_bars(&ranking, 0);
    assert!(!missing, "nobody asked");
}

#[test]
fn the_one_left_out_is_added_only_when_they_spoke() {
    assert!(sender_bar(3, 0, Some("丙".to_string())).is_none());
    let bar = sender_bar(3, 2, Some("丙".to_string())).unwrap();
    assert_eq!(bar.label, "★ 丙");
    assert_eq!(bar.value, 2);
    assert_eq!(bar.user_id, Some(3));
    let bar = sender_bar(3, 2, None).unwrap();
    assert_eq!(bar.label, "★ 3");
}

#[test]
fn groups_carry_their_picture() {
    let bars = group_bars(&vec![GroupRank { group_id: 42, group_name: "群".to_string(), count: 5 }]);
    assert_eq!(bars[0].avatar_url.as_deref(), Some("http://p.qlogo.cn/gh/42/42/100/"));
    assert_eq!(bars[0].label, "群");
    assert_eq!(bars[0].user_id, None);
}

#[test]
fn sparse_series_share_a_chronological_axis() {
    let series = |days: &[&str]| Series {
        name: "测试".into(),
        color: PRIMARY,
        points: days.iter().map(|d| ChartDataPoint { label: d.to_string(), value: 1 }).collect(),
    };
    assert_eq!(
        timeline(&[series(&["2026-09-01", "2026-09-03"]), series(&["2026-09-02"])]),
        ["2026-09-01", "2026-09-02", "2026-09-03"]
    );
    let (step, count) = nice_axis(195);
    assert!(step * count as i64 >= 195 && step * count as i64 <= 250);
    assert_eq!(short_x_label("中文标题-日期"), "中文标题-日期");
}

#[test]
fn strip_segments_fill_the_width_exactly() {
    let values = vec![8_120i64, 2_004, 1];
    let total: i64 = values.iter().sum();
    let (width, gap, min) = (1400, 8, 16);
    let widths = allocate_strip_widths(&values, total, width, gap, min);
    assert_eq!(widths.len(), 3);
    let laid_out: i32 = widths.iter().sum::<i32>() + gap * (values.len() as i32 - 1);
    assert_eq!(laid_out, width);
    assert!(widths.iter().all(|w| *w >= min));
    assert!(widths[0] > widths[1] && widths[1] > widths[2]);
}

#[test]
fn strip_handles_single_and_empty_totals() {
    assert_eq!(allocate_strip_widths(&[5], 5, 600, 8, 16), vec![600]);
    let widths = allocate_strip_widths(&[0, 0], 0, 600, 8, 16);
    assert_eq!(widths, vec![296, 296]);
}

#[test]
fn an_even_split_hands_the_odd_pixel_to_the_last_segment() {
    let widths = allocate_strip_widths(&[0, 0], 0, 601, 8, 16);
    assert_eq!(widths, vec![296, 297]);
    assert_eq!(widths.iter().sum::<i32>() + 8, 601);
    let widths = allocate_strip_widths(&[0, 0, 0], 0, 100, 0, 0);
    assert_eq!(widths, vec![33, 33, 34]);
}

#[test]
fn a_strip_too_narrow_for_its_minimums_gives_each_segment_the_minimum() {
    let widths = allocate_strip_widths(&[1, 1, 1], 3, 40, 8, 16);
    assert_eq!(widths, vec![16, 16, 16]);
    let widths = allocate_strip_widths(&[0, -3], 5, 600, 8, 16);
    assert_eq!(widths, vec![16, 576]);
}

#[test]
fn the_axis_takes_the_lowest_top_and_then_the_finer_grid() {
    assert_eq!(nice_axis(195), (50, 4));
    assert_eq!(nice_axis(0), (1, 2));
    assert_eq!(nice_axis(1), (1, 2));
    assert_eq!(nice_axis(7), (2, 4));
    assert_eq!(nice_axis(24), (5, 5));
    assert_eq!(nice_axis(230), (50, 5));
}

#[test]
fn dated_labels_lose_their_year() {
    assert_eq!(short_x_label("2026-08-01"), "08-01");
    assert_eq!(short_x_label("08:00"), "08:00");
}

#[test]
fn counts_of_any_sign_are_added_as_they_come() {
    let counts = hour_buckets(0, 4 * 3600, &[(1, 5), (25, -2), (2, -7)]);
    assert_eq!(counts, vec![0, 3, -7, 0]);
    let row = |name: &str, date: &str, count: i64| TrendRow {
        group_name: name.to_string(),
        date: date.to_string(),
        count,
    };
    let lines = group_series(&[row("甲", "d0", -3), row("乙", "d0", 1), row("甲", "d1", 2)]);
    assert_eq!(lines.len(), 2);
    assert_eq!(lines[0].name, "乙");
    assert_eq!(lines[1].name, "甲");
}
