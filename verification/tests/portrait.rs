use acumen::card::{Theme, esc, fmt_num, initial, bars, headline};
use acumen::collect::{
    mentions, meaningful, pick_samples, spread, strip_at_markers, sufficiency, truncate_samples,
    said_to, pick_name, peak_index, span_days, Sufficiency, TextRow, Tie, SAMPLE_MAX_CHARS,
    SAMPLE_MIN_KEEP, SAMPLE_TOTAL_CHARS,
};
use acumen::divine::{cast_from, hexagram, line_title, Cast, Line};
use acumen::models::{axis_lean, Enneagram, Mbti};
use acumen::persona::{
    clip, fingerprint, hour_label, longest_quote, media_majority, quote_is_from_samples, system_prompt,
    tier_class, weekday_label, Accent, Passage, Persona, Tag,
};
use acumen::settings::{url, url_at, PARTNER_SPEC};

// ==================== avatar ====================

#[test]
fn the_url_carries_the_qq_number() {
    assert_eq!(
        url(3373167460),
        "https://q.qlogo.cn/headimg_dl?dst_uin=3373167460&spec=640"
    );
    assert_eq!(
        url_at(10001, PARTNER_SPEC),
        "https://q.qlogo.cn/headimg_dl?dst_uin=10001&spec=140"
    );
}

// ==================== collect ====================

fn row(content: &str, length: i32) -> TextRow {
    TextRow {
        content: content.to_string(),
        length,
        tokens: String::new(),
        time: 0,
    }
}

#[test]
fn samples_spread_over_time_and_keep_the_longest() {
    let mut rows: Vec<TextRow> = (0..24).map(|i| row(&format!("第 {i} 条发言"), 8)).collect();
    rows[0] = row("最新的一条", 5);
    rows.push(row("这是一条特别长的发言，用来验证长样本会被挑中", 25));

    let samples = pick_samples(&rows, 6);
    assert!(samples.len() <= 6, "不该超过上限: {}", samples.len());
    assert!(samples.iter().any(|s| s == "最新的一条"), "{samples:?}");
    assert!(
        samples.iter().any(|s| s.starts_with("这是一条特别长")),
        "长样本必须入选: {samples:?}"
    );
}

#[test]
fn spread_covers_both_ends() {
    assert_eq!(spread(200, 0), Vec::<usize>::new());
    assert_eq!(spread(0, 5), Vec::<usize>::new());
    assert_eq!(spread(3, 8), vec![0, 1, 2]);
    let picked = spread(200, 8);
    assert_eq!(picked.first(), Some(&0));
    assert_eq!(picked.last(), Some(&199));
    assert!(picked.windows(2).all(|pair| pair[0] < pair[1]));
}

#[test]
fn only_placeholder_messages_are_dropped() {
    assert_eq!(meaningful("哈哈哈"), Some("哈哈哈".to_string()));
    assert_eq!(meaningful("[图片]"), None);
    assert_eq!(meaningful("[表情]"), None);
    assert_eq!(meaningful("[@10001]"), None);
    assert_eq!(
        meaningful("  [图片] 这也算话"),
        Some("[图片] 这也算话".into())
    );
    assert_eq!(meaningful(""), None);
}

#[test]
fn long_samples_are_clipped_and_the_budget_holds() {
    let samples: Vec<String> = (0..400)
        .map(|i| format!("{i}{}", "字".repeat(200)))
        .collect();
    let out = truncate_samples(samples);
    assert!(out.iter().all(|s| s.chars().count() <= SAMPLE_MAX_CHARS));
    let total: usize = out.iter().map(|s| s.chars().count()).sum();
    assert!(total <= SAMPLE_TOTAL_CHARS, "总预算被突破: {total}");
    assert!(out.len() >= SAMPLE_MIN_KEEP, "至少留 {} 条", SAMPLE_MIN_KEEP);
}

#[test]
fn empty_input_yields_no_samples() {
    assert!(pick_samples(&[], 10).is_empty());
    assert!(pick_samples(&[row("[图片]", 0)], 10).is_empty());
}

#[test]
fn sufficiency_follows_how_much_evidence_there_is() {
    assert_eq!(sufficiency(0, 0), Sufficiency::Thin);
    assert_eq!(sufficiency(60, 0), Sufficiency::Thin, "条数够但天数不够");
    assert_eq!(sufficiency(60, 6), Sufficiency::Fair);
    assert_eq!(sufficiency(200, 14), Sufficiency::Enough);
    assert_eq!(Sufficiency::Enough.label(), "充分");
}

#[test]
fn mentions_are_read_out_of_the_rich_text() {
    assert_eq!(mentions("[@8] 在吗"), vec![8]);
    assert_eq!(mentions("[@8][@9] 你们在吗"), vec![8, 9]);
    assert_eq!(mentions("[@8] 喂 [@8]"), vec![8]);
    assert_eq!(mentions("[图片] 你好"), Vec::<i64>::new());
    assert_eq!(mentions("[@all] 你好"), Vec::<i64>::new());
    assert_eq!(mentions("[@abc] 你好"), Vec::<i64>::new());
    assert_eq!(mentions("[@] 你好"), Vec::<i64>::new());
}

#[test]
fn at_markers_are_stripped_before_the_model_sees_them() {
    assert_eq!(strip_at_markers("[@8] 你那个修好了吗"), " 你那个修好了吗");
    assert_eq!(strip_at_markers("[@8][@9] 都来看看"), " 都来看看");
    assert_eq!(strip_at_markers("[图片] 看这个"), "[图片] 看这个");
    assert_eq!(strip_at_markers("[@all] 在吗"), "[@all] 在吗");
}

fn tie(at_out: u64, at_in: u64, turn_out: u64, turn_in: u64) -> Tie {
    Tie {
        user_id: 1,
        name: "某人".into(),
        at_out,
        at_in,
        turn_out,
        turn_in,
        last_time: 0,
        samples: Vec::new(),
    }
}

#[test]
fn initiative_reads_the_mentions_alone() {
    assert_eq!(tie(29, 5, 66, 69).initiative(), "我这边主动");
    assert_eq!(tie(12, 11, 36, 29).initiative(), "两边差不多");
    assert_eq!(tie(4, 26, 20, 20).initiative(), "他那边主动");
    assert_eq!(tie(0, 0, 50, 49).initiative(), "只看接话");
    // exactly 13 of 20 is already a lean; exactly 7 of 20 the other way
    assert_eq!(tie(13, 7, 0, 0).initiative(), "我这边主动");
    assert_eq!(tie(7, 13, 0, 0).initiative(), "他那边主动");
    assert_eq!(tie(29, 5, 66, 69).weight(), 169);
    assert_eq!(tie(29, 5, 66, 69).out(), 95);
    assert_eq!(tie(29, 5, 66, 69).incoming(), 74);
}

#[test]
fn peaks_and_spans_come_from_plain_counts() {
    let mut hour = [0u64; 24];
    hour[23] = 40;
    hour[1] = 10;
    assert_eq!(peak_index(&hour), 23);
    assert_eq!(peak_index(&[0u64; 7]), 0);
    assert_eq!(peak_index(&[3, 5, 5, 1]), 1, "平手取先到的那一格");
    assert_eq!(peak_index(&[]), 0);
    assert_eq!(span_days(0, 86_400 * 9), 10);
    assert_eq!(span_days(100, 50), 1);
}

#[test]
fn lines_addressed_to_a_partner_are_kept_twice_at_most() {
    let rows = vec![
        row("[@42] 你那个修好了吗", 9),
        row("[@42] 你那个修好了吗", 9),
        row("[@7] 不是对你说的", 7),
        row("[@42]   ", 0),
        row("[@42] 第二句", 3),
        row("[@42] 第三句不该进来", 8),
    ];
    assert_eq!(
        said_to(42, &rows),
        vec!["你那个修好了吗".to_string(), "第二句".to_string()]
    );
    assert_eq!(pick_name("  甲  ", "乙"), "甲");
    assert_eq!(pick_name("   ", " 乙 "), "乙");
}

// ==================== divine ====================

#[test]
fn the_table_covers_every_combination_exactly_once() {
    let mut numbers: Vec<u8> = Vec::new();
    for binary in 0..64u8 {
        let hex = hexagram(binary);
        assert_eq!(hex.binary, binary);
        assert_eq!(hex.binary >> 6, 0, "卦画只该有六位：{}", hex.full);
        assert!((1..=64).contains(&hex.number));
        numbers.push(hex.number);
    }
    numbers.sort_unstable();
    assert_eq!(numbers, (1..=64).collect::<Vec<u8>>());
}

#[test]
fn a_few_hexagrams_read_as_they_should() {
    let qian = hexagram(0b111111);
    assert_eq!(qian.full, "乾为天");
    assert_eq!(qian.judgment, "元亨利贞。");
    assert_eq!(qian.trigrams(), "上乾下乾");

    let zhun = hexagram(0b010100);
    assert_eq!(zhun.name, "屯");
    assert_eq!(zhun.number, 3);
    assert_eq!(zhun.trigrams(), "上坎下震");
    assert_eq!(zhun.upper(), 0b010);
    assert_eq!(zhun.lower(), 0b100);

    let weiji = hexagram(0b101010);
    assert_eq!(weiji.full, "火水未济");
    assert_eq!(weiji.number, 64);
    assert_eq!(weiji.trigrams(), "上离下坎");
}

#[test]
fn every_name_matches_its_two_trigrams() {
    let mut images = std::collections::HashMap::new();
    for binary in 0..64u8 {
        let hex = hexagram(binary);
        let (lower, upper) = (hex.binary & 0b111, (hex.binary >> 3) & 0b111);
        if lower != upper {
            continue;
        }
        let (name, image) = hex
            .full
            .split_once('为')
            .unwrap_or_else(|| panic!("纯卦应当写作「某为某」：{}", hex.full));
        assert_eq!(name, hex.name, "{} 的卦名对不上", hex.full);
        let previous = images.insert(lower, image);
        assert!(previous.is_none(), "下卦 {lower:#05b} 出现了两次");
    }
    assert_eq!(images.len(), 8, "八个纯卦应当把八卦的象都定下来");

    for binary in 0..64u8 {
        let hex = hexagram(binary);
        let lower = hex.binary & 0b111;
        let upper = (hex.binary >> 3) & 0b111;
        if lower == upper {
            continue;
        }
        let expected = format!("{}{}{}", images[&upper], images[&lower], hex.name);
        assert_eq!(hex.full, expected, "第 {} 卦的卦画与全名不符", hex.number);
    }
}

#[test]
fn the_stalks_only_ever_land_on_four_values() {
    for seed in 0..2_000u64 {
        let cast = cast_from(seed.wrapping_mul(0x9E37_79B9_7F4A_7C15));
        for (index, line) in cast.lines.iter().enumerate() {
            assert!((6..=9).contains(&line.value()), "第 {} 爻得到 {}", index, line.value());
            assert!(matches!(cast.stalks[index], 24 | 28 | 32 | 36));
            assert_eq!(cast.stalks[index] / 4, line.value());
        }
    }
}

#[test]
fn changing_lines_flip_into_the_changed_hexagram() {
    let mut saw_changing = false;
    let mut saw_still = false;
    for seed in 0..500u64 {
        let cast = cast_from(seed);
        if cast.changing.is_empty() {
            saw_still = true;
            assert!(cast.changed.is_none(), "没有变爻就不该有之卦");
            assert_eq!(cast.rule(), "六爻皆静，以本卦卦辞为占");
            continue;
        }
        saw_changing = true;
        let changed = cast.changed.expect("有变爻就该有之卦");
        for (index, line) in cast.lines.iter().enumerate() {
            let before = (cast.primary.binary >> index) & 1 == 1;
            let after = (changed.binary >> index) & 1 == 1;
            if line.changing() {
                assert_ne!(before, after, "变爻第 {} 位没有翻过来", index);
                assert!(cast.changing.contains(&index));
            } else {
                assert_eq!(before, after, "静爻第 {} 位不该动", index);
            }
        }
        assert_eq!(cast.changing_titles().len(), cast.changing.len());
    }
    assert!(saw_changing && saw_still, "五百次里应当有静卦也有变卦");
}

#[test]
fn the_divination_rule_follows_the_count_of_changing_lines() {
    let titles: Vec<String> = (0..6).map(|index| line_title(index, index % 2 == 0)).collect();
    assert_eq!(titles, vec!["初九", "六二", "九三", "六四", "九五", "上六"]);

    let cases = [
        (0, "六爻皆静，以本卦卦辞为占"),
        (1, "一爻变，以本卦之变爻为占"),
        (2, "二爻变，以本卦两条变爻为占，上爻为主"),
        (3, "三爻变，本卦与之卦并看，以本卦为主"),
        (4, "四爻变，以之卦两条不变爻为占，下爻为主"),
        (5, "五爻变，以之卦之不变爻为占"),
        (6, "六爻皆变，以之卦卦辞为占"),
    ];
    for (count, expected) in cases {
        let mut lines = [Line::YoungYang; 6];
        let mut changing = Vec::new();
        for (index, slot) in lines.iter_mut().enumerate().take(count) {
            *slot = Line::OldYang;
            changing.push(index);
        }
        let cast = Cast {
            lines,
            stalks: [36, 32, 28, 24, 36, 32],
            primary: hexagram(0b111111),
            changed: if changing.is_empty() { None } else { Some(hexagram(0b000000)) },
            changing,
        };
        assert_eq!(cast.rule(), expected, "{count} 条变爻");
    }
}

#[test]
fn the_stalk_line_reads_from_the_first_line_up() {
    let cast = Cast {
        lines: [Line::OldYang; 6],
        stalks: [36, 32, 28, 24, 36, 32],
        primary: hexagram(0b111111),
        changed: Some(hexagram(0b000000)),
        changing: (0..6).collect(),
    };
    assert_eq!(cast.stalks_text(), "36 · 32 · 28 · 24 · 36 · 32");
    assert_eq!(cast.changing_titles().len(), 6);
}

#[test]
fn casts_are_spread_over_the_sixy_four() {
    let mut seen = std::collections::HashSet::new();
    for seed in 0..4_000u64 {
        seen.insert(cast_from(seed).primary.number);
    }
    assert!(seen.len() > 50, "四千次只起了 {} 卦", seen.len());
}

#[test]
fn the_drawn_lines_carry_yin_yang_and_movement() {
    let cast = cast_from(0x5eed);
    let drawn = cast.drawn();
    assert_eq!(drawn.len(), 6);
    for (index, line) in drawn.iter().enumerate() {
        assert_eq!(line.yang, cast.lines[index].yang());
        assert_eq!(line.changing, cast.lines[index].changing());
    }
}

#[test]
fn the_same_seed_casts_the_same_hexagram() {
    let one = cast_from(42);
    let again = cast_from(42);
    assert_eq!(one.primary.binary, again.primary.binary);
    assert_eq!(one.stalks, again.stalks);
}

// ==================== models ====================

fn mbti(e: i32, s: i32, t: i32, j: i32) -> Mbti {
    Mbti {
        energy: e,
        perceiving: s,
        deciding: t,
        lifestyle: j,
    }
}

#[test]
fn mbti_code_follows_the_signs() {
    assert_eq!(mbti(-80, -60, 40, -10).code(), "INTP");
    assert_eq!(mbti(30, 60, -40, 60).code(), "ESFJ");
    assert_eq!(mbti(0, 0, 0, 0).code(), "ESTJ");
}

#[test]
fn mbti_epithet_reads_the_code() {
    assert_eq!(mbti(-80, -60, 40, -10).epithet(), "逻辑学家");
    assert_eq!(mbti(30, 60, -40, 60).epithet(), "执政官");
    assert_eq!(mbti(-80, -60, -70, -30).epithet(), "调停者");
}

#[test]
fn axis_leans_and_poles() {
    assert_eq!(axis_lean(80), 90);
    assert_eq!(axis_lean(-30), 35);
    assert_eq!(axis_lean(0), 50);
    assert_eq!(axis_lean(200), 100);
    assert_eq!(axis_lean(-200), 0);
}

#[test]
fn out_of_range_axes_are_clamped() {
    let m = mbti(999, -999, 0, 0).sanitized();
    assert_eq!(m.energy, 100);
    assert_eq!(m.perceiving, -100);
}

#[test]
fn enneagram_wings_must_be_adjacent() {
    assert_eq!(Enneagram { number: 5, wing: 6 }.sanitized().unwrap().short(), "5w6");
    let e = Enneagram { number: 5, wing: 8 }.sanitized().unwrap();
    assert_eq!(e.wing, 0);
    assert_eq!(e.short(), "5");
    assert_eq!(Enneagram { number: 1, wing: 9 }.sanitized().unwrap().wing, 9);
    assert_eq!(Enneagram { number: 1, wing: 2 }.sanitized().unwrap().wing, 2);
    assert_eq!(Enneagram { number: 9, wing: 8 }.sanitized().unwrap().wing, 8);
    assert!(Enneagram { number: 12, wing: 0 }.sanitized().is_none());
    assert!(Enneagram { number: 0, wing: 0 }.sanitized().is_none());
}

#[test]
fn enneagram_names_and_motifs_exist() {
    for n in 1..=9u8 {
        let e = Enneagram { number: n, wing: 0 }.sanitized().unwrap();
        assert!(!e.name().is_empty(), "型 {n} 缺少常称");
        assert!(!e.motif().is_empty(), "型 {n} 缺少核心理念");
    }
}

// ==================== persona ====================

fn samples() -> Vec<String> {
    vec![
        "今天这个雨下得没完没了".to_string(),
        "凌晨三点还在改代码，明天又要废了".to_string(),
    ]
}

fn tag(dimension: &str, layer: &str, label: &str) -> Tag {
    Tag {
        dimension: dimension.into(),
        layer: layer.into(),
        label: label.into(),
        evidence: "夜间占 41%".into(),
    }
}

#[test]
fn dimensions_are_normalised_onto_the_four() {
    let persona = Persona {
        tags: vec![
            tag("活跃度", "观测", "夜里出现"),
            tag("内容偏好", "statistical", "常聊天气"),
            tag("社交关系", "推断", "爱接别人的话"),
            tag("表达风格", "inferred", "句子短"),
        ],
        ..Default::default()
    }
    .sanitize(&samples());
    let dims: Vec<&str> = persona.tags.iter().filter_map(|tag| tag.dim()).collect();
    assert_eq!(dims, vec!["活跃", "内容", "交互", "表达"]);
    assert_eq!(
        persona.tags.iter().map(|tag| tag.tier()).collect::<Vec<_>>(),
        vec!["事实", "统计", "推断", "推断"],
        "层级要归一到事实/统计/推断"
    );
}

#[test]
fn a_tag_outside_the_taxonomy_is_dropped() {
    let persona = Persona {
        tags: vec![
            tag("活跃", "事实", "夜里出现"),
            tag("星座", "推断", "大概是天蝎座"),
            Tag {
                dimension: "内容".into(),
                layer: "事实".into(),
                label: "   ".into(),
                evidence: String::new(),
            },
        ],
        ..Default::default()
    }
    .sanitize(&samples());
    assert_eq!(persona.tags.len(), 1);
    assert_eq!(persona.tags[0].label, "夜里出现");
}

#[test]
fn one_dimension_cannot_fill_the_whole_card() {
    let persona = Persona {
        tags: (0..9)
            .map(|index| tag("活跃", "事实", &format!("第{index}条")))
            .collect(),
        ..Default::default()
    }
    .sanitize(&samples());
    assert_eq!(persona.tags.len(), 4);
}

#[test]
fn models_are_cleaned_or_dropped() {
    let persona = Persona {
        mbti: Some(Mbti {
            energy: 999,
            perceiving: -999,
            deciding: 0,
            lifestyle: 0,
        }),
        enneagram: Some(Enneagram { number: 12, wing: 0 }),
        ..Default::default()
    }
    .sanitize(&samples());
    assert_eq!(persona.mbti.as_ref().unwrap().energy, 100);
    assert_eq!(persona.mbti.as_ref().unwrap().perceiving, -100);
    assert!(persona.enneagram.is_none(), "主型 12 非法，整块丢掉");
    assert!(!persona.has_models() == false, "MBTI 仍在，投影层不算空");
}

#[test]
fn quotes_must_appear_in_the_samples() {
    let persona = Persona {
        profile: vec![
            Passage {
                kind: "text".into(),
                body: "他说话像在收尾。".into(),
                ..Default::default()
            },
            Passage {
                kind: "quote".into(),
                text: "凌晨三点还在改代码，明天又要废了".into(),
                note: "原话".into(),
                ..Default::default()
            },
            Passage {
                kind: "quote".into(),
                text: "我从来没说过这句话".into(),
                note: "编的".into(),
                ..Default::default()
            },
        ],
        ..Default::default()
    }
    .sanitize(&samples());
    assert_eq!(persona.profile.len(), 2);
    assert_eq!(persona.profile[0].kind, "text");
    assert_eq!(persona.profile[1].kind, "quote");
    assert!(persona.profile[1].text.starts_with("凌晨三点"));
}

#[test]
fn quotes_tolerate_punctuation_differences() {
    let persona = Persona {
        profile: vec![Passage {
            kind: "引语".into(),
            text: "今天这个雨，下得没完没了！".into(),
            note: "原话".into(),
            ..Default::default()
        }],
        ..Default::default()
    }
    .sanitize(&samples());
    assert_eq!(persona.profile.len(), 1);
    assert_eq!(persona.profile[0].kind, "quote");
}

#[test]
fn unknown_kinds_become_prose_and_blanks_disappear() {
    let persona = Persona {
        profile: vec![
            Passage {
                kind: "段落".into(),
                body: "他说事就说事。".into(),
                ..Default::default()
            },
            Passage {
                kind: "text".into(),
                body: "   ".into(),
                ..Default::default()
            },
            Passage {
                kind: String::new(),
                body: "下一段接着说。".into(),
                ..Default::default()
            },
        ],
        ..Default::default()
    }
    .sanitize(&samples());
    assert_eq!(persona.profile.len(), 2);
    assert!(persona.profile.iter().all(|p| p.kind == "text"));
    assert_eq!(persona.profile[1].body, "下一段接着说。");
}

#[test]
fn overlong_fields_are_clipped_and_discuss_is_capped() {
    let persona = Persona {
        title: "这是一个特别特别长的综合速写".into(),
        note: "长".repeat(200),
        style: "风".repeat(300),
        discuss: (0..10).map(|i| format!("钩子 {i}")).collect(),
        profile: (0..20)
            .map(|index| Passage {
                kind: "text".into(),
                body: format!("第{index}段"),
                ..Default::default()
            })
            .collect(),
        ..Default::default()
    }
    .sanitize(&samples());
    assert_eq!(persona.title.chars().count(), 9 + 1);
    assert!(persona.note.chars().count() <= 30 + 1);
    assert!(persona.style.chars().count() <= 90 + 1);
    assert_eq!(persona.profile.len(), 6);
    assert_eq!(persona.discuss.len(), 3);
}

#[test]
fn duplicate_discussion_hooks_collapse() {
    let persona = Persona {
        discuss: vec!["同一句钩子".into(), "同一句钩子".into(), "另一句".into()],
        ..Default::default()
    }
    .sanitize(&samples());
    assert_eq!(persona.discuss, vec!["同一句钩子".to_string(), "另一句".to_string()]);
}

#[test]
fn accent_uses_the_palette_and_falls_back_deterministically() {
    let chosen = Persona {
        accent: "rose".into(),
        ..Default::default()
    };
    assert_eq!(chosen.accent(1), Accent::Rose);
    let garbage = Persona {
        accent: "chartreuse".into(),
        ..Default::default()
    };
    assert_eq!(garbage.accent(1), Accent::pick(1));
    assert_eq!(garbage.accent(1), garbage.accent(1));
}

#[test]
fn the_prompt_states_the_three_layers_and_the_two_models() {
    let system = system_prompt();
    assert!(system.contains("仪器读数"));
    assert!(system.contains("读法"));
    assert!(system.contains("投影"));
    assert!(system.contains("MBTI"));
    assert!(system.contains("九型"));
    assert!(system.contains("语言指纹"));
    assert!(system.contains("逐字"));
    assert!(system.contains("讨论的起点，不是结论"));
}

#[test]
fn accents_have_names_and_classes() {
    assert_eq!(Accent::from_name("  Indigo "), Some(Accent::Indigo));
    assert_eq!(Accent::from_name("purple"), None);
    assert_eq!(Accent::from_name("chartreuse"), None);
    assert_eq!(Accent::from_name(" Rose "), Some(Accent::Rose));
    for accent in [Accent::Amber, Accent::Rose, Accent::Mint, Accent::Indigo, Accent::Violet, Accent::Teal] {
        assert_eq!(Accent::from_name(accent.name()), Some(accent));
        let once = accent.name().trim().to_ascii_lowercase();
        assert_eq!(Accent::from_name(&once), Accent::from_name(&format!(" {} ", once.to_uppercase())));
    }
    assert_eq!(Accent::Teal.name(), "teal");
    assert_eq!(Accent::Amber.seed_class(), "seed-amber");
    assert_eq!(Accent::pick(0), Accent::Amber);
    assert_eq!(Accent::pick(-7), Accent::Rose);
    assert_eq!(Accent::pick(i64::MIN), Accent::pick(i64::MIN));
}

#[test]
fn clipping_and_fingerprints() {
    assert_eq!(clip("  手机 root 了一下午  ", 8), "手机 root…");
    assert_eq!(clip("  短  ", 8), "短");
    assert_eq!(fingerprint("Hello, 世界！ ABC"), "hello世界abc");
    assert_eq!(fingerprint("好耶😂 ★ABC★"), "好耶😂★abc★");
    assert!(quote_is_from_samples("今天这个雨，下得没完没了！", &samples()));
    let loved = vec!["我爱你啊".to_string()];
    assert!(quote_is_from_samples("我爱你，啊", &loved));
    assert!(!quote_is_from_samples("我爱你♥啊", &loved), "符号不是标点，要照样比对");
    assert!(quote_is_from_samples("今天这个雨", &samples()));
    assert!(!quote_is_from_samples("今天", &samples()), "不到四个字的不算引语");
    assert_eq!(tier_class("统计"), "derived");
    assert_eq!(tier_class("别的"), "inferred");
}

#[test]
fn hours_and_weekdays_read_like_speech() {
    assert_eq!(hour_label(0), "午夜");
    assert_eq!(hour_label(3), "凌晨 3 点");
    assert_eq!(hour_label(12), "中午");
    assert_eq!(hour_label(23), "深夜 23 点");
    assert_eq!(hour_label(47), "深夜 23 点");
    assert_eq!(weekday_label(0), "周日");
    assert_eq!(weekday_label(13), "周六");
}

#[test]
fn a_sanitised_persona_keeps_its_limits() {
    let mut tags = Vec::new();
    for dimension in ["活跃", "内容", "交互", "表达", "社交", "风格"] {
        for index in 0..6 {
            tags.push(tag(dimension, "事实", &format!("{dimension}{index}")));
        }
    }
    let persona = Persona {
        tags,
        discuss: vec!["甲".into(), " 甲 ".into(), "乙".into(), "丙".into(), "丁".into()],
        ..Default::default()
    }
    .sanitize(&samples());
    assert_eq!(persona.tags.len(), 16);
    for dimension in ["活跃", "内容", "交互", "表达"] {
        assert_eq!(persona.tags_of(dimension).len(), 4);
    }
    assert_eq!(persona.discuss, vec!["甲", "乙", "丙"]);
    let live = Persona {
        profile: vec![
            Passage { kind: "quote".into(), text: "  ".into(), ..Default::default() },
            Passage { kind: "text".into(), body: "有话".into(), ..Default::default() },
        ],
        ..Default::default()
    };
    assert_eq!(live.live_passages().len(), 1);
}

// ==================== card ====================

#[test]
fn a_pinned_theme_overrides_the_clock() {
    for mode in ["light", "Day", " 白天 ", "日间"] {
        assert_eq!(Theme::resolve(mode, 23), Theme::Light, "{mode}");
    }
    for mode in ["dark", "NIGHT", "夜晚", "夜间"] {
        assert_eq!(Theme::resolve(mode, 12), Theme::Dark, "{mode}");
    }
}

#[test]
fn theme_follows_beijing_reading_hours() {
    assert_eq!(Theme::resolve("auto", 7), Theme::Light);
    assert_eq!(Theme::resolve("auto", 18), Theme::Light);
    assert_eq!(Theme::resolve("auto", 19), Theme::Dark);
    assert_eq!(Theme::resolve("", 6), Theme::Dark);
    assert_eq!(Theme::Dark.vars(), " dark");
    assert_eq!(Theme::Light.vars(), "");
}

#[test]
fn external_text_is_escaped() {
    assert_eq!(esc("<b>\"甲\" & '乙'</b>"), "&lt;b&gt;&quot;甲&quot; &amp; &#39;乙&#39;&lt;/b&gt;");
    assert_eq!(fmt_num(0), "0");
    assert_eq!(fmt_num(999), "999");
    assert_eq!(fmt_num(1000), "1,000");
    assert_eq!(fmt_num(1234567), "1,234,567");
    assert_eq!(initial("  小明"), "小");
    assert_eq!(initial("--Ab"), "A");
    assert_eq!(initial("  !!"), "!");
    assert_eq!(initial("   "), "群");
}

#[test]
fn the_bars_are_normalised_to_the_peak() {
    let html = bars(&[0, 1, 100, 50], 2, 0, 2);
    assert_eq!(
        html,
        [
            r#"<span class="bar bar-night"><span class="bar-fill" style="height:0%"></span></span>"#,
            r#"<span class="bar bar-night"><span class="bar-fill" style="height:6%"></span></span>"#,
            r#"<span class="bar bar-peak"><span class="bar-fill" style="height:100%"></span></span>"#,
            r#"<span class="bar"><span class="bar-fill" style="height:50%"></span></span>"#,
        ]
        .join("")
    );
    let persona = Persona {
        title: "夜里的<常客>".into(),
        estimated: true,
        ..Default::default()
    };
    let html = headline(&persona);
    assert!(html.contains("夜里的&lt;常客&gt;"));
    assert!(html.contains("模型未接"));
    assert!(!html.contains("class=\"note\""));
}

#[test]
fn the_statistics_alone_quote_the_longest_line_and_count_the_pictures() {
    let lines = vec![
        "短句".to_string(),
        "   ".to_string(),
        "这一句要长一些".to_string(),
        "这一句也一样长".to_string(),
    ];
    assert_eq!(longest_quote(&lines), Some("这一句也一样长".to_string()));
    assert_eq!(longest_quote(&vec![" ".to_string(), String::new()]), None);
    let long = "字".repeat(120);
    assert_eq!(longest_quote(&vec![long]), Some(format!("{}…", "字".repeat(90))));
    assert!(media_majority(5, 10));
    assert!(!media_majority(4, 10));
    assert!(!media_majority(0, 0));
}

#[test]
fn any_sample_limit_is_accepted() {
    let rows = vec![row("第一条像样的发言", 8), row("第二条像样的发言", 8)];
    let samples = pick_samples(&rows, usize::MAX);
    assert_eq!(samples.len(), 2, "{samples:?}");
    assert_eq!(spread(usize::MAX, 3), vec![0, (usize::MAX - 1) / 2, usize::MAX - 1]);
}
