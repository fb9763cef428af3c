use acumen::bilibili::{
    fail_message, first_quality, is_short_host, is_video_link, lower_qualities, part_cid,
    plan_first, quality_label, reference, stream_parts, target_key, video_id, PlanStep, VideoRef,
};
use acumen::link::{HostPart, UrlParts};
use acumen::state::{apply_claim, apply_release, apply_remember, apply_repeat, Claim, Preview, State, REPEAT_WINDOW_SECONDS};

fn url(raw: &str) -> UrlParts {
    let parsed = url::Url::parse(raw).unwrap();
    let host = match parsed.host() {
        Some(url::Host::Domain(name)) => Some(HostPart::Domain(name.to_string())),
        Some(url::Host::Ipv4(ip)) => Some(HostPart::V4(ip.octets())),
        Some(url::Host::Ipv6(ip)) => Some(HostPart::V6(ip.segments())),
        None => None,
    };
    UrlParts {
        scheme: parsed.scheme().to_string(),
        host,
        segments: parsed.path_segments().map(|parts| parts.map(String::from).collect()),
        query: parsed
            .query_pairs()
            .map(|(k, v)| (k.into_owned(), v.into_owned()))
            .collect(),
        text: parsed.to_string(),
    }
}

// ==================== links ====================

#[test]
fn only_the_video_pages_we_can_parse_are_taken_over() {
    for raw in [
        "https://www.bilibili.com/video/BV1GJ411x7h7",
        "https://b23.tv/BV1GJ411x7h7",
        "https://bili2233.cn/abc",
        "https://m.bilibili.com/video/av80433022",
    ] {
        assert!(is_video_link(raw), "{raw} 应由本插件接");
    }
    for raw in [
        "https://www.bilibili.com/bangumi/play/ep307580",
        "https://www.bilibili.com/read/cv123456",
        "https://live.bilibili.com/12345",
        "https://space.bilibili.com/486906719",
        "https://example.com/video/BV1GJ411x7h7",
        "https://v.douyin.com/c9EJkQ5hNz0/",
        "随便一句话",
    ] {
        assert!(!is_video_link(raw), "{raw} 不该由本插件接");
    }
}

#[test]
fn a_group_and_a_private_chat_do_not_share_a_key() {
    assert_eq!(target_key(Some(42), 7), 42);
    assert_eq!(target_key(None, 7), -7);
    assert_eq!(target_key(Some(0), 7), -7);
}

#[test]
fn video_pages_are_recognised_in_every_shape_we_have_seen() {
    for raw in [
        "https://www.bilibili.com/video/BV1GJ411x7h7",
        "https://www.bilibili.com/video/BV1GJ411x7h7/",
        "https://www.bilibili.com/video/BV1GJ411x7h7?spm_id_from=333.999",
        "https://m.bilibili.com/video/BV1GJ411x7h7",
        "https://www.bilibili.com/s/video/BV1GJ411x7h7",
        "https://www.bilibili.com/video/av80433022",
    ] {
        let reference = reference(&url(raw)).unwrap_or_else(|| panic!("{raw} 应该认得出"));
        assert_eq!(reference.page, 1);
    }
    assert_eq!(
        reference(&url("https://www.bilibili.com/video/BV1GJ411x7h7?p=3"))
            .unwrap()
            .page,
        3
    );
    assert_eq!(
        reference(&url("https://www.bilibili.com/video/av80433022"))
            .unwrap()
            .aid,
        Some(80433022)
    );
}

#[test]
fn bvid_keeps_its_case() {
    let reference = reference(&url("https://www.bilibili.com/video/bv1gj411x7h7")).unwrap();
    assert_eq!(reference.bvid.as_deref(), Some("BV1gj411x7h7"));
}

#[test]
fn other_pages_of_the_same_site_are_left_alone() {
    for raw in [
        "https://www.bilibili.com/bangumi/play/ep307580",
        "https://www.bilibili.com/read/cv123456",
        "https://space.bilibili.com/486906719",
        "https://live.bilibili.com/12345",
        "https://www.bilibili.com/video/",
        "https://www.bilibili.com/video/BV1GJ/other",
        "https://www.bilibili.com",
        "https://example.com/video/BV1GJ411x7h7",
    ] {
        assert!(reference(&url(raw)).is_none(), "{raw} 不该被认成稿件页");
    }
}

#[test]
fn short_link_hosts_are_known() {
    assert!(is_short_host("b23.tv"));
    assert!(is_short_host("B23.TV."));
    assert!(is_short_host("www.b23.tv"));
    assert!(is_short_host("bili2233.cn"));
    assert!(!is_short_host("bilibili.com"));
    assert!(!is_short_host("notb23.tv"));
}

#[test]
fn the_ladder_only_walks_down_from_the_preference() {
    assert_eq!(lower_qualities(&[80, 64, 32, 16], 64), vec![32, 16]);
    assert_eq!(lower_qualities(&[80, 64, 32, 16], 80), vec![64, 32, 16]);
    assert_eq!(lower_qualities(&[], 64), Vec::<u32>::new());
    assert_eq!(lower_qualities(&[16], 16), Vec::<u32>::new());
    let long: Vec<u32> = (1..=12).map(|step| step * 8).collect();
    assert_eq!(lower_qualities(&long, 96).len(), 4);
}

#[test]
fn the_ladder_is_distinct_and_descending() {
    assert_eq!(lower_qualities(&[16, 64, 32, 64, 0, 16], 80), vec![64, 32, 16]);
    let long: Vec<u32> = (1..=12).map(|step| step * 8).collect();
    assert_eq!(lower_qualities(&long, 96), vec![88, 80, 72, 64]);
}

#[test]
fn quality_labels_cover_the_usual_ladder() {
    assert_eq!(quality_label(64), "720P");
    assert_eq!(quality_label(120), "4K");
    assert_eq!(quality_label(999), "999");
}

#[test]
fn video_ids_and_queries() {
    assert_eq!(video_id("BV1GJ411x7h7"), Some((Some("BV1GJ411x7h7".to_string()), None)));
    assert_eq!(video_id("av+123"), Some((None, Some(123))));
    assert_eq!(video_id("av"), None);
    assert_eq!(video_id("bv1短"), None);
    let by_bvid = VideoRef { bvid: Some("BV1GJ411x7h7".into()), aid: None, page: 1 };
    assert_eq!(by_bvid.query(), "bvid=BV1GJ411x7h7");
    let by_aid = VideoRef { bvid: None, aid: Some(80433022), page: 1 };
    assert_eq!(by_aid.query(), "aid=80433022");
    let neither = VideoRef { bvid: None, aid: None, page: 1 };
    assert_eq!(neither.query(), "");
}

#[test]
fn site_refusals_read_as_sentences() {
    assert_eq!(fail_message(-404, None), "这条稿件不存在或已被删除");
    assert_eq!(fail_message(-509, Some("x")), "被 B 站限流了，过一会儿再试");
    assert_eq!(fail_message(-1, Some("  oops ")), "B 站回了个错误（-1 oops）");
    assert_eq!(fail_message(7, None), "B 站回了个错误（7 ）");
}

// ==================== previews ====================

fn preview(message_id: &str) -> Preview {
    Preview {
        target_id: 42,
        message_id: message_id.to_string(),
        created_ts: 100,
        url: "https://b23.tv/abc".into(),
        bvid: "BV1GJ411x7h7".into(),
        cid: 137649199,
        page: 1,
        title: "测试稿件".into(),
        duration: 213,
        extracted: false,
        requester: 7,
    }
}

fn claimed_preview(claim: &Claim) -> Option<&Preview> {
    match claim {
        Claim::Ready(preview) => Some(preview),
        _ => None,
    }
}

#[test]
fn the_same_person_pasting_the_same_link_again_does_not_get_a_second_preview() {
    let state = State {
        previews: vec![preview("m1")],
    };
    assert!(apply_repeat(&state, 42, 7, "BV1GJ411x7h7", 100));
    assert!(apply_repeat(&state, 42, 7, "BV1GJ411x7h7", 100 + REPEAT_WINDOW_SECONDS));
    assert!(!apply_repeat(&state, 42, 8, "BV1GJ411x7h7", 100));
    assert!(!apply_repeat(&state, 43, 7, "BV1GJ411x7h7", 100));
    assert!(!apply_repeat(&state, 42, 7, "BV1other", 100));
    assert!(
        !apply_repeat(&state, 42, 7, "BV1GJ411x7h7", 100 + REPEAT_WINDOW_SECONDS + 1),
        "过了窗口就该当成他又想要这条"
    );
}

#[test]
fn a_taken_preview_does_not_block_the_next_one() {
    let mut state = State {
        previews: vec![preview("m1")],
    };
    state.previews[0].extracted = true;
    assert!(
        !apply_repeat(&state, 42, 7, "BV1GJ411x7h7", 100),
        "上一张已经取过片，再贴就该给一张新的"
    );
}

#[test]
fn a_record_without_a_requester_never_matches() {
    let mut state = State {
        previews: vec![preview("m1")],
    };
    state.previews[0].requester = 0;
    assert!(!apply_repeat(&state, 42, 0, "BV1GJ411x7h7", 100));
}

#[test]
fn a_fresh_preview_can_be_claimed_exactly_once() {
    let mut state = State {
        previews: vec![preview("m1")],
    };
    let claimed = apply_claim(&mut state, 42, "m1", 0);
    assert!(matches!(claimed, Claim::Ready(_)));
    assert_eq!(
        claimed_preview(&claimed).unwrap().bvid,
        "BV1GJ411x7h7".to_string()
    );
    assert!(matches!(
        apply_claim(&mut state, 42, "m1", 0),
        Claim::AlreadyExtracted
    ));
    state.previews[0].extracted = false;
    assert!(matches!(apply_claim(&mut state, 42, "m1", 0), Claim::Ready(_)));
}

#[test]
fn another_group_or_another_message_is_not_ours() {
    let mut state = State {
        previews: vec![preview("m1")],
    };
    assert!(matches!(apply_claim(&mut state, 43, "m1", 0), Claim::Missing));
    assert!(matches!(apply_claim(&mut state, 42, "m2", 0), Claim::Missing));
}

#[test]
fn stale_previews_are_pruned_before_matching() {
    let mut state = State {
        previews: vec![preview("m1")],
    };
    assert!(matches!(
        apply_claim(&mut state, 42, "m1", 100 + 86_400),
        Claim::Missing
    ));
    assert!(state.previews.is_empty());
}

#[test]
fn a_released_take_can_be_claimed_again() {
    let mut state = State::default();
    apply_remember(&mut state, preview("m1"), 0);
    assert!(matches!(apply_claim(&mut state, 42, "m1", 0), Claim::Ready(_)));
    assert!(matches!(apply_claim(&mut state, 42, "m1", 0), Claim::AlreadyExtracted));
    apply_release(&mut state, 42, "m1");
    let again = apply_claim(&mut state, 42, "m1", 0);
    assert!(claimed_preview(&again).unwrap().extracted);
}

#[test]
fn remembering_a_preview_again_keeps_one_record() {
    let mut state = State::default();
    apply_remember(&mut state, preview("m1"), 0);
    apply_remember(&mut state, preview("m2"), 0);
    let mut newer = preview("m1");
    newer.title = "第二次".into();
    apply_remember(&mut state, newer, 0);
    assert_eq!(state.previews.len(), 2);
    assert_eq!(state.previews[0].message_id, "m2");
    assert_eq!(state.previews[1].title, "第二次");
    let mut old = preview("m3");
    old.created_ts = 5;
    apply_remember(&mut state, old, 0);
    apply_remember(&mut state, preview("m4"), 50);
    assert!(state.previews.iter().all(|p| p.message_id != "m3"), "旧记录顺手清掉");
}

#[test]
fn the_plan_takes_the_first_streams_that_fit() {
    assert_eq!(first_quality(0), 1);
    assert_eq!(first_quality(80), 80);
    let (_, step) = plan_first(80, 100, &[80, 64, 32], 80, 90);
    assert_eq!(step, PlanStep::Take);
}

#[test]
fn the_plan_walks_down_and_reports_the_smallest() {
    let (mut plan, step) = plan_first(80, 100, &[116, 80, 64, 32, 16, 64], 80, 500);
    assert_eq!(plan.ladder, vec![64, 32, 16]);
    assert_eq!(step, PlanStep::Ask(64));
    assert_eq!(plan.next(64, 300), PlanStep::Ask(32));
    assert_eq!(plan.next(32, 310), PlanStep::Ask(16));
    assert_eq!(plan.smallest, (64, 300));
    assert_eq!(plan.next(16, 200), PlanStep::TooLarge);
    assert_eq!(plan.smallest, (16, 200));
}

#[test]
fn a_plan_with_nothing_lower_gives_up_at_once() {
    let (plan, step) = plan_first(16, 10, &[16, 32], 16, 50);
    assert_eq!(step, PlanStep::TooLarge);
    assert_eq!(plan.smallest, (16, 50));
}

#[test]
fn a_link_opens_the_part_it_names() {
    assert_eq!(part_cid(2, &[11, 22, 33], 11), Some((2, 22)));
    assert_eq!(part_cid(0, &[11, 22], 11), Some((1, 11)));
    assert_eq!(part_cid(9, &[11, 22], 7), Some((9, 7)), "beyond the list: the video's own");
    assert_eq!(part_cid(1, &[0], 5), None);
}

#[test]
fn segments_keep_their_addresses_and_add_up() {
    let parts = vec![(" https://a/1 ".to_string(), 10u64), ("  ".to_string(), 5), ("https://a/2".to_string(), 7)];
    let (quality, urls, size) = stream_parts(&parts, 80, 0).unwrap();
    assert_eq!(quality, 80, "no quality reported: the one asked for");
    assert_eq!(urls, vec!["https://a/1".to_string(), "https://a/2".to_string()]);
    assert_eq!(size, 22);
    assert_eq!(stream_parts(&parts, 80, 64).unwrap().0, 64);
    assert!(stream_parts(&vec![(" ".to_string(), 3)], 80, 0).is_none());
}
