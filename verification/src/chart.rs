//! Number typesetting shared by the statistics charts.

use vstd::prelude::*;
use crate::card::{fmt_num, grouped, lemma_grouping_keeps_the_digits, lemma_without_commas_append, without_commas};
use crate::collect::{chars_before, chars_lt, lemma_chars_before_strict, lemma_chars_total};
use crate::text::{
    all_ascii, chars_of, i64_text, is_ascii_char, owned, push_str, same_chars, signed_decimal,
    slice_chars, string_of,
};

verus! {

/// The size of a signed count.
pub open spec fn magnitude(value: i64) -> u64 {
    if value < 0 {
        (-(value as int)) as u64
    } else {
        value as u64
    }
}

/// A signed count with a comma between every three digits from the right,
/// a minus sign in front when it is negative.
pub open spec fn thousands(value: i64) -> Seq<char> {
    if value < 0 {
        seq!['-'] + grouped(magnitude(value))
    } else {
        grouped(magnitude(value))
    }
}

/// The separators are all a grouped count adds: with the commas taken out,
/// it reads as the signed decimal number.
pub proof fn lemma_thousands_keep_the_number(value: i64)
    ensures
        without_commas(thousands(value)) == signed_decimal(value as int),
{
    lemma_grouping_keeps_the_digits(magnitude(value));
    if value < 0 {
        lemma_without_commas_append(seq!['-'], grouped(magnitude(value)));
        assert(without_commas(seq!['-']) =~= seq!['-']) by {
            reveal_with_fuel(without_commas, 2);
            assert(seq!['-'].drop_last() =~= Seq::<char>::empty());
            assert(seq!['-'].last() == '-');
        }
        assert(magnitude(value) as nat == (-(value as int)) as nat);
    }
}

/// Groups the digits of a count by thousands: four digits and more are hard
/// to read at a glance, in a ranking above all.
pub fn format_thousands(value: i64) -> (out: String)
    ensures
        out@ == thousands(value),
{
    let size: u64 = if value == i64::MIN {
        9223372036854775808u64
    } else if value < 0 {
        (-value) as u64
    } else {
        value as u64
    };
    let digits = fmt_num(size);
    if value < 0 {
        let mut out = String::new();
        out.push('-');
        push_str(&mut out, digits.as_str());
        assert(out@ =~= thousands(value));
        out
    } else {
        digits
    }
}


// ==================== colours ====================

/// A colour by its red, green and blue.
#[derive(Debug, Clone, Copy, PartialEq, Eq, Structural)]
pub struct Rgb {
    pub r: u8,
    pub g: u8,
    pub b: u8,
}

/// One of the five hues the charts share, as red, green and blue.
pub open spec fn hue_of(i: int) -> Rgb {
    if i == 0 {
        Rgb { r: 31, g: 99, b: 80 }
    } else if i == 1 {
        Rgb { r: 62, g: 78, b: 158 }
    } else if i == 2 {
        Rgb { r: 95, g: 58, b: 150 }
    } else if i == 3 {
        Rgb { r: 74, g: 91, b: 58 }
    } else {
        Rgb { r: 122, g: 83, b: 0 }
    }
}

/// The line colours cycle through the five hues.
pub fn palette_color(idx: usize) -> (c: Rgb)
    ensures
        c == hue_of((idx % 5) as int),
{
    let i = idx % 5;
    if i == 0 {
        Rgb { r: 31, g: 99, b: 80 }
    } else if i == 1 {
        Rgb { r: 62, g: 78, b: 158 }
    } else if i == 2 {
        Rgb { r: 95, g: 58, b: 150 }
    } else if i == 3 {
        Rgb { r: 74, g: 91, b: 58 }
    } else {
        Rgb { r: 122, g: 83, b: 0 }
    }
}

/// The six message kinds in their fixed order: text, picture, voice, video,
/// animated sticker, sticker.
pub open spec fn kind_labels() -> Seq<Seq<char>> {
    seq![
        seq!['文', '本'],
        seq!['图', '片'],
        seq!['语', '音'],
        seq!['视', '频'],
        seq!['动', '画', '表', '情'],
        seq!['表', '情'],
    ]
}

/// The colour of each kind: text in a muted ink, the others in the hues.
pub open spec fn kind_color(k: int) -> Rgb {
    if k == 0 {
        Rgb { r: 79, g: 92, b: 87 }
    } else {
        hue_of(k - 1)
    }
}

/// The one-character badge of each kind.
pub open spec fn kind_icon(k: int) -> char {
    seq!['文', '图', '语', '视', '动', '表'][k]
}

fn kind_label(k: usize) -> (label: String)
    requires
        k < 6,
    ensures
        label@ == kind_labels()[k as int],
{
    let mut out = String::new();
    if k == 0 {
        out.push('文');
        out.push('本');
    } else if k == 1 {
        out.push('图');
        out.push('片');
    } else if k == 2 {
        out.push('语');
        out.push('音');
    } else if k == 3 {
        out.push('视');
        out.push('频');
    } else if k == 4 {
        out.push('动');
        out.push('画');
        out.push('表');
        out.push('情');
    } else {
        out.push('表');
        out.push('情');
    }
    out
}

/// The colour and badge of a message kind, by its label; an unknown label
/// gets the first hue and a question mark.
pub fn message_type_style(label: &str) -> (style: (Rgb, char))
    ensures
        forall|k: int| 0 <= k < 6 && label@ == kind_labels()[k] ==> style == (kind_color(k), kind_icon(k)),
        (forall|k: int| 0 <= k < 6 ==> label@ != kind_labels()[k]) ==> style == (hue_of(0), '?'),
{
    let wanted = chars_of(label);
    let mut k: usize = 0;
    while k < 6
        invariant
            k <= 6,
            wanted@ == label@,
            forall|j: int| 0 <= j < k ==> label@ != kind_labels()[j],
        decreases 6 - k,
    {
        let name = chars_of(kind_label(k).as_str());
        if same_chars(&name, &wanted) {
            let icon = if k == 0 {
                '文'
            } else if k == 1 {
                '图'
            } else if k == 2 {
                '语'
            } else if k == 3 {
                '视'
            } else if k == 4 {
                '动'
            } else {
                '表'
            };
            let color = if k == 0 {
                Rgb { r: 79, g: 92, b: 87 }
            } else {
                palette_color(k - 1)
            };
            proof {
                assert forall|j: int| 0 <= j < 6 && label@ == kind_labels()[j] implies j == k by {
                    if j != k {
                        assert(kind_labels()[j][0] != kind_labels()[k as int][0]);
                    }
                }
            }
            return (color, icon);
        }
        k += 1;
    }
    (Rgb { r: 31, g: 99, b: 80 }, '?')
}


// ==================== bars ====================

/// One bar of a ranking, as the data gives it: the picture is fetched later.
#[derive(Debug, Clone)]
pub struct BarRow {
    pub label: String,
    pub value: i64,
    /// The person behind the bar, when it is a person.
    pub user_id: Option<i64>,
    pub avatar_url: Option<String>,
    pub theme: Rgb,
    /// The badge drawn in place of a picture.
    pub icon: Option<char>,
}

/// Kind `a` is ranked above kind `b`: more messages, or as many and earlier
/// in the fixed order.
pub open spec fn kind_before(stats: Seq<i64>, a: int, b: int) -> bool {
    stats[a] > stats[b] || (stats[a] == stats[b] && a < b)
}

/// The bar of kind `k`.
pub open spec fn kind_bar(stats: Seq<i64>, k: int, bar: BarRow) -> bool {
    &&& bar.label@ == kind_labels()[k]
    &&& bar.value == stats[k]
    &&& bar.user_id is None
    &&& bar.avatar_url is None
    &&& bar.theme == kind_color(k)
    &&& bar.icon == Some(kind_icon(k))
}

/// `ks` are the kinds with messages, most first, ties in the fixed order,
/// and `out` their bars.
pub open spec fn kinds_ranked(stats: Seq<i64>, ks: Seq<int>, out: Seq<BarRow>) -> bool {
    &&& ks.len() == out.len()
    &&& forall|i: int| 0 <= i < ks.len() ==> 0 <= #[trigger] ks[i] < 6 && stats[ks[i]] > 0 && kind_bar(stats, ks[i], out[i])
    &&& forall|i: int, j: int| 0 <= i < j < ks.len() ==> kind_before(stats, #[trigger] ks[i], #[trigger] ks[j])
    &&& forall|k: int| 0 <= k < 6 && stats[k] > 0 ==> ks.contains(k)
}

fn kind_style(k: usize) -> (style: (Rgb, char))
    requires
        k < 6,
    ensures
        style == (kind_color(k as int), kind_icon(k as int)),
{
    let icon = if k == 0 {
        '文'
    } else if k == 1 {
        '图'
    } else if k == 2 {
        '语'
    } else if k == 3 {
        '视'
    } else if k == 4 {
        '动'
    } else {
        '表'
    };
    let color = if k == 0 {
        Rgb { r: 79, g: 92, b: 87 }
    } else {
        palette_color(k - 1)
    };
    (color, icon)
}

/// The bars of the message kinds that occur, most first. `stats` holds the
/// counts of text, pictures, voice, video, animated stickers and stickers.
pub fn type_bars(stats: [i64; 6]) -> (out: Vec<BarRow>)
    ensures
        exists|ks: Seq<int>| #[trigger] kinds_ranked(stats@, ks, out@),
{
    let ghost st = stats@;
    let mut ks: Vec<usize> = Vec::new();
    let mut k: usize = 0;
    while k < 6
        invariant
            k <= 6,
            st == stats@,
            st.len() == 6,
            forall|i: int| 0 <= i < ks@.len() ==> #[trigger] ks@[i] < k && st[ks@[i] as int] > 0,
            forall|i: int, j: int|
                0 <= i < j < ks@.len() ==> kind_before(st, #[trigger] ks@[i] as int, #[trigger] ks@[j] as int),
            forall|m: int| 0 <= m < k && st[m] > 0 ==> ks@.contains(m as usize),
        decreases 6 - k,
    {
        if stats[k] > 0 {
            let mut pos: usize = 0;
            while pos < ks.len() && stats[ks[pos]] >= stats[k]
                invariant
                    pos <= ks@.len(),
                    k < 6,
                    st == stats@,
                    st.len() == 6,
                    forall|i: int| 0 <= i < ks@.len() ==> #[trigger] ks@[i] < k,
                    forall|i: int| 0 <= i < pos ==> st[#[trigger] ks@[i] as int] >= st[k as int],
                decreases ks@.len() - pos,
            {
                pos += 1;
            }
            let ghost old_ks = ks@;
            ks.insert(pos, k);
            proof {
                assert forall|i: int| 0 <= i < ks@.len() implies #[trigger] ks@[i] < k + 1 && st[ks@[i] as int] > 0 by {
                    if i < pos {
                        assert(ks@[i] == old_ks[i]);
                    } else if i > pos {
                        assert(ks@[i] == old_ks[i - 1]);
                    }
                }
                assert forall|i: int, j: int| 0 <= i < j < ks@.len() implies kind_before(
                    st,
                    #[trigger] ks@[i] as int,
                    #[trigger] ks@[j] as int,
                ) by {
                    if i < pos && j < pos {
                        assert(ks@[i] == old_ks[i] && ks@[j] == old_ks[j]);
                    } else if i < pos && j > pos {
                        assert(ks@[i] == old_ks[i] && ks@[j] == old_ks[j - 1]);
                        assert(st[old_ks[i] as int] >= st[k as int]);
                    } else if i > pos && j > pos {
                        assert(ks@[i] == old_ks[i - 1] && ks@[j] == old_ks[j - 1]);
                    } else if i == pos {
                        assert(ks@[j] == old_ks[j - 1]);
                        assert(st[old_ks[pos as int] as int] < st[k as int]);
                        assert(kind_before(st, old_ks[pos as int] as int, old_ks[j - 1] as int) || j - 1 == pos);
                    } else {
                        assert(ks@[i] == old_ks[i]);
                    }
                }
                assert forall|m: int| 0 <= m < k + 1 && st[m] > 0 implies ks@.contains(m as usize) by {
                    if m == k {
                        assert(ks@[pos as int] == k);
                    } else {
                        let i = choose|i: int| 0 <= i < old_ks.len() && old_ks[i] == m as usize;
                        if i < pos {
                            assert(ks@[i] == m as usize);
                        } else {
                            assert(ks@[i + 1] == m as usize);
                        }
                    }
                }
            }
        }
        k += 1;
    }
    let mut out: Vec<BarRow> = Vec::new();
    let mut i: usize = 0;
    while i < ks.len()
        invariant
            i <= ks@.len(),
            st == stats@,
            st.len() == 6,
            forall|j: int| 0 <= j < ks@.len() ==> #[trigger] ks@[j] < 6 && st[ks@[j] as int] > 0,
            out@.len() == i,
            forall|j: int| 0 <= j < i ==> kind_bar(st, ks@[j] as int, #[trigger] out@[j]),
        decreases ks@.len() - i,
    {
        let kk = ks[i];
        let (theme, icon) = kind_style(kk);
        out.push(
            BarRow {
                label: kind_label(kk),
                value: stats[kk],
                user_id: None,
                avatar_url: None,
                theme,
                icon: Some(icon),
            },
        );
        i += 1;
    }
    let ghost kss = ks@.map_values(|v: usize| v as int);
    assert forall|m: int| 0 <= m < 6 && st[m] > 0 implies kss.contains(m) by {
        let i = choose|i: int| 0 <= i < ks@.len() && ks@[i] == m as usize;
        assert(kss[i] == m);
    }
    assert(kinds_ranked(st, kss, out@));
    out
}


/// A person in a ranking, as counted.
#[derive(Debug, Clone)]
pub struct RankRow {
    pub user_id: i64,
    pub nickname: String,
    pub count: i64,
}

/// A group in a ranking, as counted.
#[derive(Debug, Clone)]
pub struct GroupRank {
    pub group_id: i64,
    pub group_name: String,
    pub count: i64,
}

/// The star that marks the one who asked.
pub open spec fn starred(name: Seq<char>) -> Seq<char> {
    seq!['★', ' '] + name
}

/// A person's picture on the ranking.
pub open spec fn face_address(user_id: i64) -> Seq<char> {
    "https://q1.qlogo.cn/g?b=qq&nk="@ + signed_decimal(user_id as int) + "&s=640"@
}

/// A group's picture on the ranking.
pub open spec fn group_face_address(group_id: i64) -> Seq<char> {
    "http://p.qlogo.cn/gh/"@ + signed_decimal(group_id as int) + "/"@ + signed_decimal(group_id as int)
        + "/100/"@
}

fn face_url(user_id: i64) -> (url: String)
    ensures
        url@ == face_address(user_id),
{
    let mut out = owned("https://q1.qlogo.cn/g?b=qq&nk=");
    push_str(&mut out, i64_text(user_id).as_str());
    push_str(&mut out, "&s=640");
    out
}

fn group_face_url(group_id: i64) -> (url: String)
    ensures
        url@ == group_face_address(group_id),
{
    let mut out = owned("http://p.qlogo.cn/gh/");
    let id = i64_text(group_id);
    push_str(&mut out, id.as_str());
    push_str(&mut out, "/");
    push_str(&mut out, id.as_str());
    push_str(&mut out, "/100/");
    out
}

fn star(name: &str) -> (out: String)
    ensures
        out@ == starred(name@),
{
    let mut out = String::new();
    out.push('★');
    out.push(' ');
    push_str(&mut out, name);
    out
}

/// The bar of a person in the ranking; the one who asked is starred.
pub open spec fn person_bar(r: RankRow, sender_id: i64, bar: BarRow) -> bool {
    &&& bar.label@ == if r.user_id == sender_id && sender_id != 0 {
        starred(r.nickname@)
    } else {
        r.nickname@
    }
    &&& bar.value == r.count
    &&& bar.user_id == Some(r.user_id)
    &&& bar.avatar_url matches Some(u) && u@ == face_address(r.user_id)
    &&& bar.theme == hue_of(0)
    &&& bar.icon is None
}

/// The bars of a ranking of people, in its order, the one who asked
/// starred; and whether the one who asked still has to be looked up and
/// added, being someone and not in the ranking.
pub fn user_bars(ranking: &Vec<RankRow>, sender_id: i64) -> (res: (Vec<BarRow>, bool))
    ensures
        res.0@.len() == ranking@.len(),
        forall|i: int| 0 <= i < ranking@.len() ==> person_bar(ranking@[i], sender_id, #[trigger] res.0@[i]),
        res.1 == (sender_id != 0 && forall|i: int| 0 <= i < ranking@.len() ==> #[trigger] ranking@[i].user_id
            != sender_id),
{
    let mut out: Vec<BarRow> = Vec::new();
    let mut found = false;
    let mut i: usize = 0;
    while i < ranking.len()
        invariant
            i <= ranking@.len(),
            out@.len() == i,
            forall|j: int| 0 <= j < i ==> person_bar(ranking@[j], sender_id, #[trigger] out@[j]),
            found == exists|j: int| 0 <= j < i && #[trigger] ranking@[j].user_id == sender_id && sender_id != 0,
        decreases ranking@.len() - i,
    {
        let r = &ranking[i];
        let label = if r.user_id == sender_id && sender_id != 0 {
            found = true;
            star(r.nickname.as_str())
        } else {
            r.nickname.clone()
        };
        out.push(
            BarRow {
                label,
                value: r.count,
                user_id: Some(r.user_id),
                avatar_url: Some(face_url(r.user_id)),
                theme: Rgb { r: 31, g: 99, b: 80 },
                icon: None,
            },
        );
        i += 1;
    }
    proof {
        if sender_id != 0 && !found {
            assert forall|j: int| 0 <= j < ranking@.len() implies #[trigger] ranking@[j].user_id != sender_id by {
            }
        }
        if found {
            let j = choose|j: int| 0 <= j < ranking@.len() && #[trigger] ranking@[j].user_id == sender_id && sender_id != 0;
            assert(ranking@[j].user_id == sender_id);
        }
    }
    (out, !found && sender_id != 0)
}

/// The starred bar added for the one who asked when the ranking left them
/// out: only when they said anything, under their latest name or else their
/// number.
pub fn sender_bar(sender_id: i64, count: i64, nick: Option<String>) -> (bar: Option<BarRow>)
    ensures
        count <= 0 ==> bar is None,
        count > 0 ==> (bar matches Some(b) && b.label@ == starred(
            match nick {
                Some(n) => n@,
                None => signed_decimal(sender_id as int),
            },
        ) && b.value == count && b.user_id == Some(sender_id) && (b.avatar_url matches Some(u) && u@
            == face_address(sender_id)) && b.theme == hue_of(0) && b.icon is None),
{
    if count <= 0 {
        return None;
    }
    let name = match nick {
        Some(n) => n,
        None => i64_text(sender_id),
    };
    Some(
        BarRow {
            label: star(name.as_str()),
            value: count,
            user_id: Some(sender_id),
            avatar_url: Some(face_url(sender_id)),
            theme: Rgb { r: 31, g: 99, b: 80 },
            icon: None,
        },
    )
}

/// The bars of a ranking of groups, in its order, each with the group's
/// picture.
pub fn group_bars(ranking: &Vec<GroupRank>) -> (out: Vec<BarRow>)
    ensures
        out@.len() == ranking@.len(),
        forall|i: int|
            0 <= i < ranking@.len() ==> {
                let b = #[trigger] out@[i];
                let r = ranking@[i];
                &&& b.label@ == r.group_name@
                &&& b.value == r.count
                &&& b.user_id is None
                &&& b.avatar_url matches Some(u) && u@ == group_face_address(r.group_id)
                &&& b.theme == hue_of(0)
                &&& b.icon is None
            },
{
    let mut out: Vec<BarRow> = Vec::new();
    let mut i: usize = 0;
    while i < ranking.len()
        invariant
            i <= ranking@.len(),
            out@.len() == i,
            forall|j: int|
                0 <= j < i ==> {
                    let b = #[trigger] out@[j];
                    let r = ranking@[j];
                    &&& b.label@ == r.group_name@
                    &&& b.value == r.count
                    &&& b.user_id is None
                    &&& b.avatar_url matches Some(u) && u@ == group_face_address(r.group_id)
                    &&& b.theme == hue_of(0)
                    &&& b.icon is None
                },
        decreases ranking@.len() - i,
    {
        let r = &ranking[i];
        out.push(
            BarRow {
                label: r.group_name.clone(),
                value: r.count,
                user_id: None,
                avatar_url: Some(group_face_url(r.group_id)),
                theme: Rgb { r: 31, g: 99, b: 80 },
                icon: None,
            },
        );
        i += 1;
    }
    out
}


// ==================== trends ====================

/// One point of a chart.
#[derive(Clone, Debug)]
pub struct ChartDataPoint {
    pub label: String,
    pub value: i64,
}

/// One line of a trend chart.
#[derive(Debug, Clone)]
pub struct Series {
    pub name: String,
    pub color: Rgb,
    pub points: Vec<ChartDataPoint>,
}

/// The number of hourly buckets for a period: its hours, rounded up, at
/// least one and at most a day's.
pub open spec fn bucket_total(start: i64, end: i64) -> int {
    let d = end - start;
    if d <= 0 {
        1
    } else if d > 24 * 3600 {
        24
    } else {
        (d + 3599) / 3600
    }
}

/// The messages counted for hour-of-day `b` among the first `n` counts.
pub open spec fn hour_sum(hourly: Seq<(i64, i64)>, b: int, n: int) -> int
    decreases n,
{
    if n <= 0 {
        0
    } else {
        hour_sum(hourly, b, n - 1) + if hourly[n - 1].0 % 24 == b {
            hourly[n - 1].1 as int
        } else {
            0
        }
    }
}

fn hour_of_day(hour: i64) -> (h: u64)
    ensures
        h == hour % 24,
{
    if hour >= 0 {
        (hour as u64) % 24
    } else {
        let m = (-(hour + 1)) as u64;
        let r = 23 - m % 24;
        assert(hour % 24 == 23 - m % 24) by {
            assert(hour == -(m as int) - 1);
        }
        r
    }
}

/// The hourly counts of a period of at most a day, bucket `i` being the
/// `i`-th hour of the period: counts are filed under their hour of day, and
/// those beyond the period's last hour are left out. Every bucket's running
/// total fits in an `i64`.
pub fn hour_buckets(start: i64, end: i64, hourly: &[(i64, i64)]) -> (counts: Vec<i64>)
    requires
        forall|b: int, k: int|
            0 <= b < bucket_total(start, end) && 0 <= k <= hourly@.len() ==> i64::MIN <= #[trigger] hour_sum(
                hourly@,
                b,
                k,
            ) <= i64::MAX,
    ensures
        counts@.len() == bucket_total(start, end),
        forall|b: int| 0 <= b < counts@.len() ==> #[trigger] counts@[b] == hour_sum(hourly@, b, hourly@.len() as int),
{
    let d: i128 = end as i128 - start as i128;
    let total: usize = if d <= 0 {
        1
    } else if d > 24 * 3600 {
        24
    } else {
        ((d + 3599) / 3600) as usize
    };
    let mut counts: Vec<i64> = Vec::new();
    while counts.len() < total
        invariant
            counts@.len() <= total,
            forall|b: int| 0 <= b < counts@.len() ==> #[trigger] counts@[b] == 0,
        decreases total - counts@.len(),
    {
        counts.push(0);
    }
    let ghost n = hourly@.len() as int;
    let mut k: usize = 0;
    while k < hourly.len()
        invariant
            k <= n == hourly@.len(),
            counts@.len() == total,
            total == bucket_total(start, end),
            total <= 24,
            forall|b: int, j: int|
                0 <= b < total && 0 <= j <= n ==> i64::MIN <= #[trigger] hour_sum(hourly@, b, j) <= i64::MAX,
            forall|b: int| 0 <= b < total ==> #[trigger] counts@[b] == hour_sum(hourly@, b, k as int),
        decreases n - k,
    {
        let (hour, count) = hourly[k];
        let h = hour_of_day(hour) as usize;
        if h < total {
            assert(i64::MIN <= hour_sum(hourly@, h as int, k + 1) <= i64::MAX);
            let c = counts[h] + count;
            counts.set(h, c);
        }
        k += 1;
    }
    counts
}

/// The message kinds over time, one point per day (or hour) for each kind.
#[derive(Debug, Clone)]
pub struct TypeTrend {
    pub date: String,
    pub text: i64,
    pub image: i64,
    pub voice: i64,
    pub video: i64,
    pub anim_emoji: i64,
    pub face: i64,
}

pub open spec fn kind_count(t: TypeTrend, k: int) -> i64 {
    if k == 0 {
        t.text
    } else if k == 1 {
        t.image
    } else if k == 2 {
        t.voice
    } else if k == 3 {
        t.video
    } else if k == 4 {
        t.anim_emoji
    } else {
        t.face
    }
}

/// The line of kind `k` over the trend.
pub open spec fn kind_line(trend: Seq<TypeTrend>, k: int, s: Series) -> bool {
    &&& s.name@ == kind_labels()[k]
    &&& s.color == kind_color(k)
    &&& s.points@.len() == trend.len()
    &&& forall|i: int|
        0 <= i < trend.len() ==> (#[trigger] s.points@[i]).label@ == trend[i].date@ && s.points@[i].value
            == kind_count(trend[i], k)
}

/// Kind `k` occurs somewhere in the trend.
pub open spec fn kind_seen(trend: Seq<TypeTrend>, k: int) -> bool {
    exists|i: int| 0 <= i < trend.len() && #[trigger] kind_count(trend[i], k) > 0
}

fn kind_value(t: &TypeTrend, k: usize) -> (v: i64)
    ensures
        v == kind_count(*t, k as int),
{
    if k == 0 {
        t.text
    } else if k == 1 {
        t.image
    } else if k == 2 {
        t.voice
    } else if k == 3 {
        t.video
    } else if k == 4 {
        t.anim_emoji
    } else {
        t.face
    }
}

/// The lines of the message kinds that occur, in the fixed order of kinds,
/// each in the kind's colour.
pub fn type_series(trend: &[TypeTrend]) -> (out: Vec<Series>)
    ensures
        exists|ks: Seq<int>|
            #![trigger ks.len()]
            ks.len() == out@.len() && (forall|i: int|
                0 <= i < ks.len() ==> 0 <= #[trigger] ks[i] < 6 && kind_seen(trend@, ks[i]) && kind_line(
                    trend@,
                    ks[i],
                    out@[i],
                )) && (forall|i: int, j: int| 0 <= i < j < ks.len() ==> #[trigger] ks[i] < #[trigger] ks[j])
                && (forall|k: int| 0 <= k < 6 && #[trigger] kind_seen(trend@, k) ==> ks.contains(k)),
{
    let mut out: Vec<Series> = Vec::new();
    let ghost mut ks: Seq<int> = seq![];
    let mut k: usize = 0;
    while k < 6
        invariant
            k <= 6,
            ks.len() == out@.len(),
            forall|i: int|
                0 <= i < ks.len() ==> 0 <= #[trigger] ks[i] < k && kind_seen(trend@, ks[i]) && kind_line(
                    trend@,
                    ks[i],
                    out@[i],
                ),
            forall|i: int, j: int| 0 <= i < j < ks.len() ==> #[trigger] ks[i] < #[trigger] ks[j],
            forall|m: int| 0 <= m < k && #[trigger] kind_seen(trend@, m) ==> ks.contains(m),
        decreases 6 - k,
    {
        let mut points: Vec<ChartDataPoint> = Vec::new();
        let mut seen = false;
        let mut i: usize = 0;
        while i < trend.len()
            invariant
                i <= trend@.len(),
                k < 6,
                points@.len() == i,
                forall|j: int|
                    0 <= j < i ==> (#[trigger] points@[j]).label@ == trend@[j].date@ && points@[j].value
                        == kind_count(trend@[j], k as int),
                seen == exists|j: int| 0 <= j < i && #[trigger] kind_count(trend@[j], k as int) > 0,
            decreases trend@.len() - i,
        {
            let v = kind_value(&trend[i], k);
            if v > 0 {
                seen = true;
            }
            points.push(ChartDataPoint { label: trend[i].date.clone(), value: v });
            i += 1;
        }
        if seen {
            let (color, _) = kind_style(k);
            let ghost old_ks = ks;
            out.push(Series { name: kind_label(k), color, points });
            proof {
                ks = ks.push(k as int);
                assert forall|m: int| 0 <= m < k + 1 && #[trigger] kind_seen(trend@, m) implies ks.contains(m) by {
                    if m == k {
                        assert(ks[ks.len() - 1] == m);
                    } else {
                        let j = choose|j: int| 0 <= j < old_ks.len() && old_ks[j] == m;
                        assert(ks[j] == m);
                    }
                }
            }
        } else {
            proof {
                assert(!kind_seen(trend@, k as int));
            }
        }
        k += 1;
    }
    out
}


/// One group's count for one day (or hour) of a trend.
#[derive(Debug, Clone)]
pub struct TrendRow {
    pub group_name: String,
    pub date: String,
    pub count: i64,
}

/// The groups among the first `n` rows, each once, in order of first
/// appearance.
pub open spec fn group_names(rows: Seq<TrendRow>, n: int) -> Seq<Seq<char>>
    decreases n,
{
    if n <= 0 {
        seq![]
    } else {
        let prev = group_names(rows, n - 1);
        let name = rows[n - 1].group_name@;
        if prev.contains(name) {
            prev
        } else {
            prev.push(name)
        }
    }
}

/// A group's messages among the first `n` rows.
pub open spec fn group_total(rows: Seq<TrendRow>, name: Seq<char>, n: int) -> int
    decreases n,
{
    if n <= 0 {
        0
    } else {
        group_total(rows, name, n - 1) + if rows[n - 1].group_name@ == name {
            rows[n - 1].count as int
        } else {
            0
        }
    }
}

/// A group's points among the first `n` rows: date and count, in order.
pub open spec fn group_points(rows: Seq<TrendRow>, name: Seq<char>, n: int) -> Seq<(Seq<char>, i64)>
    decreases n,
{
    if n <= 0 {
        seq![]
    } else {
        let prev = group_points(rows, name, n - 1);
        if rows[n - 1].group_name@ == name {
            prev.push((rows[n - 1].date@, rows[n - 1].count))
        } else {
            prev
        }
    }
}

pub open spec fn points_match(points: Seq<ChartDataPoint>, want: Seq<(Seq<char>, i64)>) -> bool {
    &&& points.len() == want.len()
    &&& forall|i: int| 0 <= i < points.len() ==> (#[trigger] points[i]).label@ == want[i].0 && points[i].value == want[i].1
}

/// The lines of the ten groups with the most messages, most first, each
/// with its points in order, coloured through the hues in turn. Among groups
/// with as many messages the order is not fixed.
pub open spec fn top_groups(rows: Seq<TrendRow>, out: Seq<Series>) -> bool {
    let names = group_names(rows, rows.len() as int);
    let n = rows.len() as int;
    &&& out.len() == if names.len() < 10 {
        names.len() as int
    } else {
        10
    }
    &&& forall|i: int|
        0 <= i < out.len() ==> names.contains(#[trigger] out[i].name@) && out[i].color == hue_of(i % 5)
            && points_match(out[i].points@, group_points(rows, out[i].name@, n))
    &&& forall|i: int, j: int|
        0 <= i < j < out.len() ==> #[trigger] out[i].name@ != #[trigger] out[j].name@ && group_total(
            rows,
            out[i].name@,
            n,
        ) >= group_total(rows, out[j].name@, n)
    &&& forall|k: int|
        0 <= k < names.len() ==> (exists|i: int| 0 <= i < out.len() && #[trigger] out[i].name@ == #[trigger] names[k])
            || forall|i: int| 0 <= i < out.len() ==> group_total(rows, names[k], n) <= group_total(rows, #[trigger] out[i].name@, n)
}

proof fn lemma_group_names(rows: Seq<TrendRow>, n: int)
    requires
        0 <= n <= rows.len(),
    ensures
        forall|x: Seq<char>| #[trigger] group_names(rows, n).contains(x) <==> exists|i: int| 0 <= i < n && rows[i].group_name@ == x,
        forall|i: int, j: int| 0 <= i < j < group_names(rows, n).len() ==> #[trigger] group_names(rows, n)[i] != #[trigger] group_names(rows, n)[j],
    decreases n,
{
    if n > 0 {
        lemma_group_names(rows, n - 1);
        let prev = group_names(rows, n - 1);
        let cur = group_names(rows, n);
        let name = rows[n - 1].group_name@;
        assert forall|x: Seq<char>| #[trigger] cur.contains(x) <==> exists|i: int| 0 <= i < n && rows[i].group_name@ == x by {
            if cur.contains(x) {
                if prev.contains(x) {
                    let i = choose|i: int| 0 <= i < n - 1 && rows[i].group_name@ == x;
                } else {
                    let k = choose|k: int| 0 <= k < cur.len() && cur[k] == x;
                    assert(k == prev.len());
                    assert(rows[n - 1].group_name@ == x);
                }
            }
            if exists|i: int| 0 <= i < n && rows[i].group_name@ == x {
                let i = choose|i: int| 0 <= i < n && rows[i].group_name@ == x;
                if i < n - 1 {
                    assert(prev.contains(x));
                    let k = choose|k: int| 0 <= k < prev.len() && prev[k] == x;
                    assert(cur[k] == x);
                } else if !prev.contains(name) {
                    assert(cur[prev.len() as int] == x);
                }
            }
        }
    }
}

proof fn lemma_group_absent(rows: Seq<TrendRow>, name: Seq<char>, n: int)
    requires
        0 <= n <= rows.len(),
    ensures
        (forall|i: int| 0 <= i < n ==> rows[i].group_name@ != name) ==> group_total(rows, name, n) == 0
            && group_points(rows, name, n) == Seq::<(Seq<char>, i64)>::empty(),
    decreases n,
{
    if n > 0 {
        lemma_group_absent(rows, name, n - 1);
    }
}

/// The groups of the rows with their message totals.
fn group_totals(rows: &[TrendRow]) -> (res: (Vec<String>, Vec<i64>))
    requires
        forall|name: Seq<char>, k: int|
            0 <= k <= rows@.len() ==> i64::MIN <= #[trigger] group_total(rows@, name, k) <= i64::MAX,
    ensures
        res.0@.len() == group_names(rows@, rows@.len() as int).len(),
        res.1@.len() == res.0@.len(),
        forall|j: int|
            0 <= j < res.0@.len() ==> (#[trigger] res.0@[j])@ == group_names(rows@, rows@.len() as int)[j]
                && res.1@[j] == group_total(rows@, res.0@[j]@, rows@.len() as int),
{
    let ghost s = rows@;
    let ghost n = s.len() as int;
    let mut names: Vec<String> = Vec::new();
    let mut totals: Vec<i64> = Vec::new();
    let mut k: usize = 0;
    while k < rows.len()
        invariant
            k <= n == s.len(),
            s == rows@,
            forall|name: Seq<char>, j: int|
                0 <= j <= n ==> i64::MIN <= #[trigger] group_total(s, name, j) <= i64::MAX,
            names@.len() == group_names(s, k as int).len(),
            totals@.len() == names@.len(),
            forall|j: int|
                0 <= j < names@.len() ==> (#[trigger] names@[j])@ == group_names(s, k as int)[j] && totals@[j]
                    == group_total(s, names@[j]@, k as int),
        decreases n - k,
    {
        let row = &rows[k];
        let ghost gn = group_names(s, k as int);
        proof {
            lemma_group_names(s, k as int);
        }
        let mut j: usize = 0;
        let mut slot: usize = names.len();
        while j < names.len()
            invariant
                j <= names@.len(),
                slot == names@.len() || (slot < j && names@[slot as int]@ == row.group_name@),
                slot == names@.len() ==> forall|i: int| 0 <= i < j ==> (#[trigger] names@[i])@ != row.group_name@,
            decreases names@.len() - j,
        {
            if slot == names.len() && names[j] == row.group_name {
                slot = j;
            }
            j += 1;
        }
        if slot < names.len() {
            assert(i64::MIN <= group_total(s, row.group_name@, k + 1) <= i64::MAX);
            let t = totals[slot] + row.count;
            totals.set(slot, t);
            proof {
                assert(gn.contains(row.group_name@)) by {
                    assert(gn[slot as int] == row.group_name@);
                }
                assert forall|j: int|
                    0 <= j < names@.len() implies (#[trigger] names@[j])@ == group_names(s, k + 1)[j] && totals@[j]
                        == group_total(s, names@[j]@, k + 1) by {
                    if j != slot {
                        assert(gn[j] != gn[slot as int]);
                    }
                }
            }
        } else {
            proof {
                assert(!gn.contains(row.group_name@)) by {
                    if gn.contains(row.group_name@) {
                        let i = choose|i: int| 0 <= i < gn.len() && gn[i] == row.group_name@;
                        assert(names@[i]@ == row.group_name@);
                    }
                }
                assert forall|i: int| 0 <= i < k implies s[i].group_name@ != row.group_name@ by {
                    if s[i].group_name@ == row.group_name@ {
                        assert(gn.contains(s[i].group_name@));
                    }
                }
                lemma_group_absent(s, row.group_name@, k as int);
            }
            names.push(row.group_name.clone());
            totals.push(row.count);
            proof {
                assert forall|j: int|
                    0 <= j < names@.len() implies (#[trigger] names@[j])@ == group_names(s, k + 1)[j] && totals@[j]
                        == group_total(s, names@[j]@, k + 1) by {
                    if j < names@.len() - 1 {
                        assert(names@[j]@ != row.group_name@);
                    }
                }
            }
        }
        k += 1;
    }
    (names, totals)
}


/// The positions of the `limit` largest totals, largest first.
fn top_indices(totals: &Vec<i64>, limit: usize) -> (order: Vec<usize>)
    ensures
        order@.len() == if totals@.len() < limit {
            totals@.len() as int
        } else {
            limit as int
        },
        forall|i: int| 0 <= i < order@.len() ==> #[trigger] order@[i] < totals@.len(),
        forall|i: int, j: int| 0 <= i < j < order@.len() ==> #[trigger] order@[i] != #[trigger] order@[j],
        forall|i: int, j: int|
            0 <= i < j < order@.len() ==> totals@[#[trigger] order@[i] as int] >= totals@[#[trigger] order@[j] as int],
        forall|k: int|
            0 <= k < totals@.len() ==> order@.contains(k as usize) || forall|i: int|
                0 <= i < order@.len() ==> #[trigger] totals@[k] <= totals@[#[trigger] order@[i] as int],
{
    let n = totals.len();
    let mut taken: Vec<bool> = Vec::new();
    while taken.len() < n
        invariant
            taken@.len() <= n == totals@.len(),
            forall|j: int| 0 <= j < taken@.len() ==> !taken@[j],
        decreases n - taken@.len(),
    {
        taken.push(false);
    }
    let mut order: Vec<usize> = Vec::new();
    while order.len() < limit && order.len() < n
        invariant
            n == totals@.len(),
            taken@.len() == n,
            order@.len() <= n,
            order@.len() <= limit,
            forall|i: int| 0 <= i < order@.len() ==> #[trigger] order@[i] < n,
            forall|i: int, j: int| 0 <= i < j < order@.len() ==> #[trigger] order@[i] != #[trigger] order@[j],
            forall|k: int| 0 <= k < n ==> (#[trigger] taken@[k] <==> order@.contains(k as usize)),
            forall|i: int, j: int|
                0 <= i < j < order@.len() ==> totals@[#[trigger] order@[i] as int] >= totals@[#[trigger] order@[j] as int],
            forall|k: int, i: int|
                0 <= k < n && !taken@[k] && 0 <= i < order@.len() ==> #[trigger] totals@[k] <= totals@[#[trigger] order@[i] as int],
        decreases n - order@.len(),
    {
        let mut best: usize = n;
        let mut k: usize = 0;
        while k < n
            invariant
                k <= n == totals@.len() == taken@.len(),
                best == n || (best < k && !taken@[best as int]),
                best == n ==> forall|j: int| 0 <= j < k ==> taken@[j],
                best < n ==> forall|j: int| 0 <= j < k && !taken@[j] ==> #[trigger] totals@[j] <= totals@[best as int],
            decreases n - k,
        {
            if !taken[k] && (best == n || totals[k] > totals[best]) {
                best = k;
            }
            k += 1;
        }
        if best == n {
            proof {
                let picked = order@.map_values(|v: usize| v as int);
                assert forall|j: int| 0 <= j < n implies picked.contains(j) by {
                    assert(taken@[j]);
                    let i = choose|i: int| 0 <= i < order@.len() && order@[i] == j as usize;
                    assert(picked[i] == j);
                }
                assert forall|i: int, j: int| 0 <= i < j < picked.len() implies #[trigger] picked[i] != #[trigger] picked[j] by {
                    assert(order@[i] != order@[j]);
                }
                crate::collect::lemma_all_picked(picked, n as int);
                assert(false);
            }
            return order;
        }
        let ghost old_order = order@;
        order.push(best);
        taken.set(best, true);
        proof {
            assert forall|k: int| 0 <= k < n implies (#[trigger] taken@[k] <==> order@.contains(k as usize)) by {
                if k == best {
                    assert(order@[order@.len() - 1] == k as usize);
                } else {
                    if old_order.contains(k as usize) {
                        let i = choose|i: int| 0 <= i < old_order.len() && old_order[i] == k as usize;
                        assert(order@[i] == k as usize);
                    }
                    if order@.contains(k as usize) {
                        let i = choose|i: int| 0 <= i < order@.len() && order@[i] == k as usize;
                        assert(i < old_order.len());
                    }
                }
            }
            assert forall|i: int, j: int| 0 <= i < j < order@.len() implies #[trigger] order@[i] != #[trigger] order@[j] by {
                if j == order@.len() - 1 {
                    assert(old_order.contains(order@[i]));
                }
            }
        }
    }
    proof {
        assert forall|k: int|
            0 <= k < totals@.len() implies order@.contains(k as usize) || forall|i: int|
                0 <= i < order@.len() ==> #[trigger] totals@[k] <= totals@[#[trigger] order@[i] as int] by {
            if !taken@[k] {
                assert forall|i: int| 0 <= i < order@.len() implies #[trigger] totals@[k] <= totals@[#[trigger] order@[i] as int] by {
                    assert(totals@[k] <= totals@[order@[i] as int]);
                }
            }
        }
    }
    order
}


fn points_for(rows: &[TrendRow], name: &String) -> (points: Vec<ChartDataPoint>)
    ensures
        points_match(points@, group_points(rows@, name@, rows@.len() as int)),
{
    let mut points: Vec<ChartDataPoint> = Vec::new();
    let mut k: usize = 0;
    while k < rows.len()
        invariant
            k <= rows@.len(),
            points_match(points@, group_points(rows@, name@, k as int)),
        decreases rows@.len() - k,
    {
        if rows[k].group_name == *name {
            points.push(ChartDataPoint { label: rows[k].date.clone(), value: rows[k].count });
        }
        k += 1;
    }
    points
}

/// The trend lines of the ten busiest groups, busiest first. Every group's
/// running total fits in an `i64`.
pub fn group_series(rows: &[TrendRow]) -> (out: Vec<Series>)
    requires
        forall|name: Seq<char>, k: int|
            0 <= k <= rows@.len() ==> i64::MIN <= #[trigger] group_total(rows@, name, k) <= i64::MAX,
    ensures
        top_groups(rows@, out@),
{
    let ghost s = rows@;
    let ghost n = s.len() as int;
    let ghost names_spec = group_names(s, n);
    let (names, totals) = group_totals(rows);
    let order = top_indices(&totals, 10);
    proof {
        lemma_group_names(s, n);
    }
    let mut out: Vec<Series> = Vec::new();
    let mut i: usize = 0;
    while i < order.len()
        invariant
            i <= order@.len(),
            s == rows@,
            n == s.len(),
            names@.len() == names_spec.len(),
            forall|j: int| 0 <= j < order@.len() ==> #[trigger] order@[j] < names@.len(),
            forall|j: int| 0 <= j < names@.len() ==> (#[trigger] names@[j])@ == names_spec[j],
            out@.len() == i,
            forall|j: int|
                0 <= j < i ==> (#[trigger] out@[j]).name@ == names@[order@[j] as int]@ && out@[j].color == hue_of(j % 5)
                    && points_match(out@[j].points@, group_points(s, out@[j].name@, n)),
        decreases order@.len() - i,
    {
        let name = names[order[i]].clone();
        let points = points_for(rows, &name);
        out.push(Series { name, color: palette_color(i), points });
        i += 1;
    }
    proof {
        assert forall|i: int| 0 <= i < out@.len() implies names_spec.contains(#[trigger] out@[i].name@) && out@[i].color
            == hue_of(i % 5) && points_match(out@[i].points@, group_points(s, out@[i].name@, n)) by {
            assert(names_spec[order@[i] as int] == out@[i].name@);
        }
        assert forall|i: int, j: int| 0 <= i < j < out@.len() implies #[trigger] out@[i].name@ != #[trigger] out@[j].name@
            && group_total(s, out@[i].name@, n) >= group_total(s, out@[j].name@, n) by {
            assert(order@[i] != order@[j]);
            assert(totals@[order@[i] as int] >= totals@[order@[j] as int]);
        }
        assert forall|k: int|
            0 <= k < names_spec.len() implies (exists|i: int| 0 <= i < out@.len() && #[trigger] out@[i].name@ == #[trigger] names_spec[k])
                || forall|i: int| 0 <= i < out@.len() ==> group_total(s, names_spec[k], n) <= group_total(
                s,
                #[trigger] out@[i].name@,
                n,
            ) by {
            if order@.contains(k as usize) {
                let i = choose|i: int| 0 <= i < order@.len() && order@[i] == k as usize;
                assert(out@[i].name@ == names_spec[k]);
            } else {
                assert forall|i: int| 0 <= i < out@.len() implies group_total(s, names_spec[k], n) <= group_total(
                    s,
                    #[trigger] out@[i].name@,
                    n,
                ) by {
                    assert(totals@[k] <= totals@[order@[i] as int]);
                    assert(names@[k]@ == names_spec[k]);
                }
            }
        }
    }
    out
}


// ==================== axes ====================

/// An x-axis label: a date with its year (`2026-08-01`) loses the year.
pub open spec fn short_label(s: Seq<char>) -> Seq<char> {
    if (forall|i: int| 0 <= i < s.len() ==> is_ascii_char(#[trigger] s[i])) && s.len() >= 10 && s[4] == '-' {
        s.skip(5)
    } else {
        s
    }
}

pub fn short_x_label(label: &str) -> (out: String)
    ensures
        out@ == short_label(label@),
{
    let s = chars_of(label);
    if all_ascii(&s) && s.len() >= 10 && s[4] == '-' {
        let rest = slice_chars(&s, 5, s.len());
        assert(rest@ =~= s@.skip(5));
        string_of(&rest)
    } else {
        owned(label)
    }
}

/// Some label of `v` reads `x`.
pub open spec fn holds_label(v: Seq<String>, x: Seq<char>) -> bool {
    exists|i: int| 0 <= i < v.len() && (#[trigger] v[i])@ == x
}

/// Some point of the first `s` lines, or of the first `p` points of line
/// `s`, is labelled `x`.
pub open spec fn labelled_upto(series: Seq<Series>, s: int, p: int, x: Seq<char>) -> bool {
    (exists|i: int, j: int|
        0 <= i < s && 0 <= j < series[i].points@.len() && (#[trigger] series[i].points@[j]).label@ == x)
        || (exists|j: int| 0 <= j < p && (#[trigger] series[s].points@[j]).label@ == x)
}

/// Some point of some line is labelled `x`.
pub open spec fn labelled(series: Seq<Series>, x: Seq<char>) -> bool {
    exists|i: int, j: int|
        0 <= i < series.len() && 0 <= j < series[i].points@.len() && (#[trigger] series[i].points@[j]).label@ == x
}

fn insert_label(out: &mut Vec<String>, label: &String)
    requires
        forall|i: int, j: int| 0 <= i < j < old(out)@.len() ==> chars_before((#[trigger] old(out)@[i])@, (#[trigger] old(out)@[j])@),
    ensures
        forall|i: int, j: int| 0 <= i < j < final(out)@.len() ==> chars_before((#[trigger] final(out)@[i])@, (#[trigger] final(out)@[j])@),
        forall|x: Seq<char>| #[trigger] holds_label(final(out)@, x) <==> (x == label@ || holds_label(old(out)@, x)),
{
    let ghost before = out@;
    let l = chars_of(label.as_str());
    let mut pos: usize = 0;
    while pos < out.len() && chars_lt(&chars_of(out[pos].as_str()), &l)
        invariant
            pos <= out@.len(),
            out@ == before,
            l@ == label@,
            forall|i: int| 0 <= i < pos ==> chars_before((#[trigger] out@[i])@, l@),
        decreases out@.len() - pos,
    {
        pos += 1;
    }
    if pos < out.len() && same_chars(&chars_of(out[pos].as_str()), &l) {
        proof {
            assert forall|x: Seq<char>| #[trigger] holds_label(out@, x) <==> (x == label@ || holds_label(before, x)) by {
                if x == label@ {
                    assert(out@[pos as int]@ == x);
                }
            }
        }
        return;
    }
    proof {
        if pos < out@.len() {
            lemma_chars_total(out@[pos as int]@, l@);
        }
    }
    out.insert(pos, label.clone());
    proof {
        assert forall|i: int, j: int| 0 <= i < j < out@.len() implies chars_before((#[trigger] out@[i])@, (#[trigger] out@[j])@) by {
            if i < pos && j < pos {
                assert(out@[i] == before[i] && out@[j] == before[j]);
            } else if i < pos && j > pos {
                assert(out@[i] == before[i] && out@[j] == before[j - 1]);
                lemma_chars_before_strict(before[i]@, l@, before[j - 1]@);
                if j - 1 > pos {
                    lemma_chars_before_strict(l@, before[pos as int]@, before[j - 1]@);
                }
            } else if i > pos && j > pos {
                assert(out@[i] == before[i - 1] && out@[j] == before[j - 1]);
            } else if i == pos {
                assert(out@[j] == before[j - 1]);
                if j - 1 > pos {
                    lemma_chars_before_strict(l@, before[pos as int]@, before[j - 1]@);
                }
            } else {
                assert(out@[i] == before[i]);
            }
        }
        assert forall|x: Seq<char>| #[trigger] holds_label(out@, x) <==> (x == label@ || holds_label(before, x)) by {
            if holds_label(out@, x) {
                let i = choose|i: int| 0 <= i < out@.len() && (#[trigger] out@[i])@ == x;
                if i < pos {
                    assert(out@[i] == before[i]);
                } else if i > pos {
                    assert(out@[i] == before[i - 1]);
                }
            }
            if x == label@ {
                assert(out@[pos as int]@ == x);
            } else if holds_label(before, x) {
                let i = choose|i: int| 0 <= i < before.len() && (#[trigger] before[i])@ == x;
                if i < pos {
                    assert(out@[i] == before[i]);
                } else {
                    assert(out@[i + 1] == before[i]);
                }
            }
        }
    }
}

/// The x-axis of a trend chart: every label of every line, once each, in
/// order, so sparse lines do not fold back to an earlier date.
pub fn timeline(series: &[Series]) -> (out: Vec<String>)
    ensures
        forall|i: int, j: int| 0 <= i < j < out@.len() ==> chars_before((#[trigger] out@[i])@, (#[trigger] out@[j])@),
        forall|x: Seq<char>| #[trigger] holds_label(out@, x) <==> labelled(series@, x),
{
    let mut out: Vec<String> = Vec::new();
    let mut s: usize = 0;
    while s < series.len()
        invariant
            s <= series@.len(),
            forall|i: int, j: int| 0 <= i < j < out@.len() ==> chars_before((#[trigger] out@[i])@, (#[trigger] out@[j])@),
            forall|x: Seq<char>| #[trigger] holds_label(out@, x) <==> labelled_upto(series@, s as int, 0, x),
        decreases series@.len() - s,
    {
        let mut p: usize = 0;
        while p < series[s].points.len()
            invariant
                s < series@.len(),
                p <= series@[s as int].points@.len(),
                forall|i: int, j: int| 0 <= i < j < out@.len() ==> chars_before((#[trigger] out@[i])@, (#[trigger] out@[j])@),
                forall|x: Seq<char>| #[trigger] holds_label(out@, x) <==> labelled_upto(series@, s as int, p as int, x),
            decreases series@[s as int].points@.len() - p,
        {
            let ghost before = out@;
            insert_label(&mut out, &series[s].points[p].label);
            proof {
                assert forall|x: Seq<char>| #[trigger] holds_label(out@, x) <==> labelled_upto(series@, s as int, p + 1, x) by {
                    if labelled_upto(series@, s as int, p + 1, x) && !labelled_upto(series@, s as int, p as int, x) {
                        let j = choose|j: int| 0 <= j < p + 1 && (#[trigger] series@[s as int].points@[j]).label@ == x;
                        assert(j == p);
                    }
                    if x == series@[s as int].points@[p as int].label@ {
                        assert(labelled_upto(series@, s as int, p + 1, x));
                    }
                }
            }
            p += 1;
        }
        proof {
            assert forall|x: Seq<char>| #[trigger] holds_label(out@, x) <==> labelled_upto(series@, s + 1, 0, x) by {
                if labelled_upto(series@, s as int, p as int, x) {
                    if exists|j: int| 0 <= j < p && (#[trigger] series@[s as int].points@[j]).label@ == x {
                        let j = choose|j: int| 0 <= j < p && (#[trigger] series@[s as int].points@[j]).label@ == x;
                        assert(series@[s as int].points@[j].label@ == x);
                    } else {
                        let (i, j) = choose|i: int, j: int|
                            0 <= i < s && 0 <= j < series@[i].points@.len() && (#[trigger] series@[i].points@[j]).label@ == x;
                        assert(series@[i].points@[j].label@ == x);
                    }
                }
                if labelled_upto(series@, s + 1, 0, x) {
                    let (i, j) = choose|i: int, j: int|
                        0 <= i < s + 1 && 0 <= j < series@[i].points@.len() && (#[trigger] series@[i].points@[j]).label@ == x;
                    if i == s {
                        assert(series@[s as int].points@[j].label@ == x);
                    } else {
                        assert(series@[i].points@[j].label@ == x);
                    }
                }
            }
        }
        s += 1;
    }
    proof {
        assert forall|x: Seq<char>| #[trigger] holds_label(out@, x) <==> labelled(series@, x) by {
            if labelled(series@, x) {
                let (i, j) = choose|i: int, j: int|
                    0 <= i < series@.len() && 0 <= j < series@[i].points@.len() && (#[trigger] series@[i].points@[j]).label@ == x;
                assert(series@[i].points@[j].label@ == x);
            }
            if labelled_upto(series@, s as int, 0, x) {
                if exists|i: int, j: int|
                    0 <= i < s && 0 <= j < series@[i].points@.len() && (#[trigger] series@[i].points@[j]).label@ == x {
                    let (i, j) = choose|i: int, j: int|
                        0 <= i < s && 0 <= j < series@[i].points@.len() && (#[trigger] series@[i].points@[j]).label@ == x;
                    assert(series@[i].points@[j].label@ == x);
                }
            }
        }
    }
    out
}


// ==================== the strip ====================

pub open spec fn width_sum(w: Seq<i32>) -> int
    decreases w.len(),
{
    if w.len() == 0 {
        0
    } else {
        width_sum(w.drop_last()) + w.last()
    }
}

/// The last of the widest segments among the first `n`.
pub open spec fn widest_upto(w: Seq<i32>, n: int) -> int
    decreases n,
{
    if n <= 1 {
        0
    } else {
        let b = widest_upto(w, n - 1);
        if w[n - 1] >= w[b] {
            n - 1
        } else {
            b
        }
    }
}

pub open spec fn widest(w: Seq<i32>) -> int {
    widest_upto(w, w.len() as int)
}

/// The width left for the segments once the gaps are taken out, never less
/// than every segment at its minimum.
pub open spec fn usable_width(count: int, strip_width: int, gap: int, min_width: int) -> int {
    let free = strip_width - gap * (count - 1);
    if free >= count * min_width {
        free
    } else {
        count * min_width
    }
}

/// `n / d` rounded to the nearest integer, halves away from zero, for
/// `d > 0`.
pub open spec fn round_div(n: int, d: int) -> int {
    if n >= 0 {
        (2 * n + d) / (2 * d)
    } else {
        -((-2 * n + d) / (2 * d))
    }
}

/// `n / d` with the fraction dropped (rounded toward zero), for `d > 0`.
pub open spec fn trunc_div(n: int, d: int) -> int {
    if n >= 0 {
        n / d
    } else {
        -((-n) / d)
    }
}

/// Each segment's share of the usable width, rounded, kept within an `i32`,
/// and at least the minimum.
pub open spec fn first_widths(values: Seq<i64>, total: int, usable: int, min_width: int) -> Seq<i32> {
    Seq::new(
        values.len(),
        |i: int|
            {
                let r = round_div(usable * values[i], total);
                let share = if r > i32::MAX {
                    i32::MAX as int
                } else if r < i32::MIN {
                    i32::MIN as int
                } else {
                    r
                };
                (if share >= min_width {
                    share
                } else {
                    min_width
                }) as i32
            },
    )
}

/// How far the segments run over the usable width.
pub open spec fn excess(w: Seq<i32>, usable: int) -> nat {
    if width_sum(w) > usable {
        (width_sum(w) - usable) as nat
    } else {
        0
    }
}

/// While the segments run over the usable width, the widest (the last of
/// them) gives up a pixel, as long as it is above the minimum; at most
/// `fuel` times.
pub open spec fn shave(w: Seq<i32>, usable: int, min_width: int, fuel: nat) -> Seq<i32>
    decreases fuel,
{
    if fuel == 0 || width_sum(w) <= usable || w[widest(w)] <= min_width {
        w
    } else {
        shave(w.update(widest(w), (w[widest(w)] - 1) as i32), usable, min_width, (fuel - 1) as nat)
    }
}

/// What is still missing of the usable width goes to the widest segment.
pub open spec fn top_up(w: Seq<i32>, usable: int) -> Seq<i32> {
    if width_sum(w) < usable {
        w.update(widest(w), (w[widest(w)] + usable - width_sum(w)) as i32)
    } else {
        w
    }
}

/// The widths of the segments of a strip: with something counted, the
/// shares, shaved down where they run over; with nothing counted, an even
/// split; either way topped up to the usable width.
pub open spec fn strip_widths(values: Seq<i64>, total: int, strip_width: int, gap: int, min_width: int) -> Seq<i32> {
    let count = values.len() as int;
    let usable = usable_width(count, strip_width, gap, min_width);
    if total <= 0 {
        top_up(Seq::new(values.len(), |i: int| trunc_div(usable, count) as i32), usable)
    } else {
        let w = first_widths(values, total, usable, min_width);
        top_up(shave(w, usable, min_width, excess(w, usable)), usable)
    }
}

proof fn lemma_widest(w: Seq<i32>, n: int)
    requires
        1 <= n <= w.len(),
    ensures
        0 <= widest_upto(w, n) < n,
        forall|j: int| 0 <= j < n ==> #[trigger] w[j] <= w[widest_upto(w, n)],
    decreases n,
{
    if n > 1 {
        lemma_widest(w, n - 1);
    }
}

proof fn lemma_sum_update(w: Seq<i32>, i: int, v: i32)
    requires
        0 <= i < w.len(),
    ensures
        width_sum(w.update(i, v)) == width_sum(w) - w[i] + v,
    decreases w.len(),
{
    if i < w.len() - 1 {
        lemma_sum_update(w.drop_last(), i, v);
        assert(w.update(i, v).drop_last() =~= w.drop_last().update(i, v));
    } else {
        assert(w.update(i, v).drop_last() =~= w.drop_last());
    }
}

proof fn lemma_sum_at_least(w: Seq<i32>, m: int)
    requires
        forall|j: int| 0 <= j < w.len() ==> #[trigger] w[j] >= m,
    ensures
        width_sum(w) >= w.len() * m,
    decreases w.len(),
{
    if w.len() > 0 {
        lemma_sum_at_least(w.drop_last(), m);
        let n = w.len() as int;
        assert(n * m == (n - 1) * m + m) by (nonlinear_arith);
    }
}

proof fn lemma_sum_at_most(w: Seq<i32>, m: int)
    requires
        forall|j: int| 0 <= j < w.len() ==> #[trigger] w[j] <= m,
    ensures
        width_sum(w) <= w.len() * m,
    decreases w.len(),
{
    if w.len() > 0 {
        lemma_sum_at_most(w.drop_last(), m);
        let n = w.len() as int;
        assert(n * m == (n - 1) * m + m) by (nonlinear_arith);
    }
}

fn widest_index(w: &Vec<i32>) -> (i: usize)
    requires
        w@.len() >= 1,
    ensures
        i == widest(w@),
{
    let mut best: usize = 0;
    let mut k: usize = 1;
    while k < w.len()
        invariant
            1 <= k <= w@.len(),
            best == widest_upto(w@, k as int),
        decreases w@.len() - k,
    {
        proof {
            lemma_widest(w@, k as int);
        }
        if w[k] >= w[best] {
            best = k;
        }
        k += 1;
    }
    best
}


/// An even split of `usable` into `n` parts, the fraction dropped, never
/// goes below the minimum that `usable` allows, and never overshoots it.
proof fn lemma_even_split(usable: int, n: int, m: int)
    requires
        n >= 1,
        usable >= n * m,
    ensures
        trunc_div(usable, n) >= m,
        usable >= 0 ==> trunc_div(usable, n) >= 0 && n * trunc_div(usable, n) <= usable,
        usable < 0 ==> n * trunc_div(usable, n) >= usable,
{
    if usable >= 0 {
        let q = usable / n;
        vstd::arithmetic::div_mod::lemma_fundamental_div_mod(usable, n);
        vstd::arithmetic::div_mod::lemma_mod_pos_bound(usable, n);
        vstd::arithmetic::div_mod::lemma_div_pos_is_pos(usable, n);
        let r = usable % n;
        assert(q >= m) by (nonlinear_arith)
            requires
                usable == n * q + r,
                0 <= r < n,
                usable >= n * m,
                n >= 1,
        ;
    } else {
        let a = -usable;
        let q = a / n;
        vstd::arithmetic::div_mod::lemma_fundamental_div_mod(a, n);
        vstd::arithmetic::div_mod::lemma_mod_pos_bound(a, n);
        let r = a % n;
        assert(n * (-m) == -(n * m)) by (nonlinear_arith);
        assert(q <= -m) by (nonlinear_arith)
            requires
                a == n * q + r,
                0 <= r < n,
                a <= n * (-m),
                n >= 1,
        ;
        assert(n * (-q) == -(n * q)) by (nonlinear_arith);
    }
}

proof fn lemma_sum_constant(n: nat, e: i32)
    ensures
        width_sum(Seq::new(n, |i: int| e)) == n * e,
{
    let w = Seq::new(n, |i: int| e);
    lemma_sum_at_least(w, e as int);
    lemma_sum_at_most(w, e as int);
}

/// The widths of the segments of a strip of `strip_width` pixels, one per
/// value, with `gap` pixels between them. Each segment gets its share of the
/// width left by the gaps, rounded, and at least `min_width`; while that
/// runs over, the widest segment (the last of equals) gives back a pixel at
/// a time down to the minimum. With nothing counted the width is split
/// evenly. Whatever is then missing goes to the widest segment, so the strip
/// is filled exactly: every segment at least `min_width`, and the segments
/// and the gaps together `strip_width` wide whenever that leaves room for
/// each segment at its minimum (with a minimum of zero or more, always
/// filled to the usable width).
pub fn allocate_strip_widths(values: &[i64], total_val: i64, strip_width: i32, gap: i32, min_width: i32) -> (out: Vec<i32>)
    requires
        1 <= values@.len() <= i32::MAX,
        usable_width(values@.len() as int, strip_width as int, gap as int, min_width as int) <= i32::MAX,
        usable_width(values@.len() as int, strip_width as int, gap as int, min_width as int) - (
        values@.len() - 1) * min_width <= i32::MAX,
    ensures
        out@ == strip_widths(values@, total_val as int, strip_width as int, gap as int, min_width as int),
        out@.len() == values@.len(),
        forall|i: int| 0 <= i < out@.len() ==> #[trigger] out@[i] >= min_width,
        (total_val > 0 || usable_width(values@.len() as int, strip_width as int, gap as int, min_width as int)
            >= 0) ==> width_sum(out@) == usable_width(
            values@.len() as int,
            strip_width as int,
            gap as int,
            min_width as int,
        ),
{
    let n = values.len();
    let count = n as i64;
    let g = gap as i64;
    let m = min_width as i64;
    assert(-0x4000_0000_0000_0000 <= g * (count - 1) <= 0x4000_0000_0000_0000) by (nonlinear_arith)
        requires
            i32::MIN <= g <= i32::MAX,
            1 <= count <= i32::MAX,
    ;
    assert(-0x4000_0000_0000_0000 <= count * m <= 0x4000_0000_0000_0000) by (nonlinear_arith)
        requires
            i32::MIN <= m <= i32::MAX,
            1 <= count <= i32::MAX,
    ;
    let free: i64 = strip_width as i64 - g * (count - 1);
    let floor: i64 = count * m;
    let usable: i64 = if free >= floor {
        free
    } else {
        floor
    };
    let ghost u = usable_width(n as int, strip_width as int, gap as int, min_width as int);
    assert(usable == u);
    assert(n as int * min_width as int <= u);
    let mut w: Vec<i32> = Vec::new();
    let mut sum: i64;
    let ghost pre: Seq<i32>;
    if total_val <= 0 {
        let even64: i64 = if usable >= 0 {
            usable / count
        } else {
            -((-usable) / count)
        };
        proof {
            lemma_even_split(u, n as int, min_width as int);
        }
        assert(even64 == trunc_div(u, n as int));
        assert(even64 <= i32::MAX) by {
            if usable >= 0 {
                vstd::arithmetic::div_mod::lemma_div_basics_5(usable as int, n as int);
            }
        }
        let even = even64 as i32;
        while w.len() < n
            invariant
                w@.len() <= n,
                even == trunc_div(u, n as int),
                forall|j: int| 0 <= j < w@.len() ==> #[trigger] w@[j] == even,
            decreases n - w@.len(),
        {
            w.push(even);
        }
        proof {
            pre = Seq::new(n as nat, |i: int| trunc_div(u, n as int) as i32);
            assert(w@ =~= pre);
            lemma_sum_constant(n as nat, even);
        }
        assert(-0x4000_0000_0000_0000 <= count * even64 <= 0x4000_0000_0000_0000) by (nonlinear_arith)
            requires
                i32::MIN <= even64 <= i32::MAX,
                1 <= count <= i32::MAX,
        ;
        sum = count * even64;
        assert(sum == width_sum(w@));
        assert(forall|i: int| 0 <= i < w@.len() ==> min_width <= #[trigger] w@[i]);
    } else {
        let ghost first = first_widths(values@, total_val as int, u, min_width as int);
        let mut k: usize = 0;
        while k < n
            invariant
                k <= n == values@.len(),
                usable == u,
                -0x4000_0000_0000_0000 <= usable <= i32::MAX,
                total_val > 0,
                first == first_widths(values@, total_val as int, u, min_width as int),
                w@.len() == k,
                forall|j: int| 0 <= j < k ==> #[trigger] w@[j] == first[j],
            decreases n - k,
        {
            let v = values[k];
            let ghost prod: int = (usable as int) * (v as int);
            assert(-0x2000_0000_0000_0000_0000_0000_0000_0000 <= prod <= 0x2000_0000_0000_0000_0000_0000_0000_0000) by (nonlinear_arith)
                requires
                    -0x4000_0000_0000_0000 <= usable <= i32::MAX,
                    i64::MIN <= v <= i64::MAX,
                    prod == (usable as int) * (v as int),
            ;
            let p: i128 = (usable as i128) * (v as i128);
            let den: i128 = 2 * (total_val as i128);
            let r: i128 = if p >= 0 {
                (2 * p + total_val as i128) / den
            } else {
                -((total_val as i128 - 2 * p) / den)
            };
            assert(r == round_div(prod, total_val as int));
            let share: i128 = if r > i32::MAX as i128 {
                i32::MAX as i128
            } else if r < i32::MIN as i128 {
                i32::MIN as i128
            } else {
                r
            };
            let width: i32 = if share >= min_width as i128 {
                share as i32
            } else {
                min_width
            };
            w.push(width);
            k += 1;
        }
        assert(w@ =~= first);
        // the running total
        sum = 0;
        let mut j: usize = 0;
        while j < n
            invariant
                j <= n == w@.len(),
                n <= i32::MAX,
                sum == width_sum(w@.take(j as int)),
                -(j * 0x8000_0000) <= sum <= j * 0x8000_0000,
            decreases n - j,
        {
            assert(w@.take(j + 1).drop_last() =~= w@.take(j as int));
            let ghost jj: int = j as int;
            assert(jj * 0x8000_0000 + 0x8000_0000 == (jj + 1) * 0x8000_0000) by (nonlinear_arith);
            assert((jj + 1) * 0x8000_0000 <= 0x4000_0000_0000_0000) by (nonlinear_arith)
                requires
                    jj + 1 <= i32::MAX,
            ;
            sum = sum + w[j] as i64;
            j += 1;
        }
        assert(w@.take(n as int) =~= w@);
        assert(-0x4000_0000_0000_0000 <= sum <= 0x4000_0000_0000_0000) by (nonlinear_arith)
            requires
                -(n * 0x8000_0000) <= sum <= n * 0x8000_0000,
                n <= i32::MAX,
        ;
        proof {
            assert forall|i: int| 0 <= i < w@.len() implies min_width <= #[trigger] w@[i] by {
                assert(w@[i] == first[i]);
            }
        }
        let ghost start = w@;
        let ghost mut fuel: nat = excess(w@, u);
        let mut stuck = false;
        while sum > usable && !stuck
            invariant
                w@.len() == n >= 1,
                stuck ==> w@[widest(w@)] <= min_width,
                usable == u,
                -0x4000_0000_0000_0000 <= usable <= i32::MAX,
                n as int * min_width as int <= u,
                sum == width_sum(w@),
                fuel == excess(w@, u),
                -0x4000_0000_0000_0000 <= sum <= 0x4000_0000_0000_0000,
                forall|i: int| 0 <= i < w@.len() ==> min_width <= #[trigger] w@[i],
                shave(start, u, min_width as int, excess(start, u)) == shave(w@, u, min_width as int, fuel),
            decreases excess(w@, u) + if stuck { 0int } else { 1int },
        {
            let i = widest_index(&w);
            proof {
                lemma_widest(w@, n as int);
            }
            if w[i] <= min_width {
                stuck = true;
            } else {
                let ghost before = w@;
                let next = w[i] - 1;
                w.set(i, next);
                proof {
                    lemma_sum_update(before, i as int, next);
                    assert(w@ == before.update(widest(before), (before[widest(before)] - 1) as i32));
                    fuel = (fuel - 1) as nat;
                }
                sum = sum - 1;
            }
        }
        proof {
            lemma_widest(w@, n as int);
            if sum > usable {
                assert forall|i: int| 0 <= i < w@.len() implies #[trigger] w@[i] == min_width by {
                    assert(w@[i] <= w@[widest(w@)]);
                }
                lemma_sum_at_most(w@, min_width as int);
                assert(false);
            }
            pre = w@;
            assert(pre == shave(start, u, min_width as int, excess(start, u)));
        }
    }
    // top up what is still missing
    let ghost before = w@;
    assert(before == pre);
    assert(before.len() == n);
    assert(sum == width_sum(before));
    assert(forall|i: int| 0 <= i < before.len() ==> min_width <= #[trigger] before[i]);
    assert(total_val > 0 ==> sum <= usable);
    assert(u >= 0 ==> sum <= usable);
    if sum < usable {
        let i = widest_index(&w);
        proof {
            lemma_widest(w@, n as int);
            lemma_sum_at_least(w@.update(i as int, min_width), min_width as int);
            lemma_sum_update(w@, i as int, min_width);
        }
        let grown64: i64 = w[i] as i64 + (usable - sum);
        assert((n as int) * (min_width as int) - min_width == (n - 1) * (min_width as int)) by (nonlinear_arith);
        assert(grown64 <= u - (n - 1) * min_width);
        let grown = grown64 as i32;
        w.set(i, grown);
        proof {
            lemma_sum_update(before, i as int, grown);
            assert(w@ == top_up(before, u));
        }
    } else {
        assert(w@ == top_up(before, u));
    }
    w
}


// ==================== the y-axis ====================

pub open spec fn pow10(k: nat) -> int
    decreases k,
{
    if k == 0 {
        1
    } else {
        10 * pow10((k - 1) as nat)
    }
}

/// A step the y-axis may take: 1, 2, 2.5 or 5 times a power of ten, and a
/// whole number.
pub open spec fn nice_step(s: int) -> bool {
    exists|k: nat|
        s == #[trigger] pow10(k) || s == 2 * pow10(k) || s == 5 * pow10(k) || s == 25 * pow10(k)
}

/// The cells a step needs to hold `max`.
pub open spec fn cells(max: int, s: int) -> int {
    (max + s - 1) / s
}

/// A step that holds `max` in two to five cells.
pub open spec fn fits(max: int, s: int) -> bool {
    s >= 1 && 2 <= cells(max, s) <= 5
}

/// Step `s` is at least as good as step `t`: a lower top, or as low and more
/// cells.
pub open spec fn no_worse(max: int, s: int, t: int) -> bool {
    s * cells(max, s) < t * cells(max, t) || (s * cells(max, s) == t * cells(max, t) && cells(max, s)
        >= cells(max, t))
}

proof fn lemma_pow10_grows(k: nat)
    ensures
        pow10(k) >= 1,
        pow10(k + 1) == 10 * pow10(k),
    decreases k,
{
    if k > 0 {
        lemma_pow10_grows((k - 1) as nat);
    }
}

proof fn lemma_pow10_monotone(j: nat, k: nat)
    requires
        j <= k,
    ensures
        pow10(j) <= pow10(k),
    decreases k,
{
    lemma_pow10_grows(k);
    if j < k {
        lemma_pow10_monotone(j, (k - 1) as nat);
        lemma_pow10_grows((k - 1) as nat);
    }
}

/// A step larger than `max` holds it in one cell.
proof fn lemma_big_step_does_not_fit(max: int, s: int)
    requires
        1 <= max,
        s >= max,
    ensures
        !fits(max, s),
{
    assert(cells(max, s) <= 1) by (nonlinear_arith)
        requires
            1 <= max <= s,
    ;
}

fn cells_of(max: i64, s: i64) -> (c: i64)
    requires
        max >= 1,
        s >= 1,
    ensures
        c == cells(max as int, s as int),
{
    let q = max / s;
    let r = max % s;
    assert(r != 0 ==> q < i64::MAX) by (nonlinear_arith)
        requires
            max >= 1,
            s >= 1,
            q == max / s,
            r == max % s,
    ;
    let c = if r != 0 {
        q + 1
    } else {
        q
    };
    assert(c as int == (max as int + s as int - 1) / (s as int)) by (nonlinear_arith)
        requires
            max >= 1,
            s >= 1,
            q == max / s,
            r == max % s,
            r != 0 ==> c == q + 1,
            r == 0 ==> c == q,
    ;
    c
}

/// The largest value an axis must hold: at least one.
pub open spec fn axis_top(max_val: i64) -> int {
    if max_val < 1 {
        1
    } else {
        max_val as int
    }
}

/// `axis` is the best nice step for `max`, with its cells.
pub open spec fn best_axis(max: int, axis: (i64, usize)) -> bool {
    &&& nice_step(axis.0 as int)
    &&& fits(max, axis.0 as int)
    &&& axis.1 == cells(max, axis.0 as int)
    &&& forall|s: int| nice_step(s) && #[trigger] fits(max, s) ==> no_worse(max, axis.0 as int, s)
}

/// The step and number of cells of the y-axis for values up to `max_val`:
/// of the whole steps of 1, 2, 2.5 or 5 times a power of ten that hold the
/// largest value in two to five cells, the one with the lowest top, and of
/// equal tops the one with more cells; one by two cells when none does.
pub fn nice_axis(max_val: i64) -> (axis: (i64, usize))
    ensures
        (exists|s: int| nice_step(s) && #[trigger] fits(axis_top(max_val), s)) ==> best_axis(axis_top(max_val), axis),
        !(exists|s: int| nice_step(s) && #[trigger] fits(axis_top(max_val), s)) ==> axis == (1i64, 2usize),
{
    let max: i64 = if max_val < 1 {
        1
    } else {
        max_val
    };
    let mut best: Option<(i64, i64)> = None;
    let mut p: i64 = 1;
    let ghost mut k: nat = 0;
    let mults: [i64; 4] = [1, 2, 5, 25];
    let mut done = false;
    while p <= max && !done
        invariant
            1 <= max,
            !done ==> p == pow10(k),
            done ==> pow10(k) > max,
            1 <= p,
            mults@ == seq![1i64, 2, 5, 25],
            best matches Some(b) ==> nice_step(b.0 as int) && fits(max as int, b.0 as int) && b.1 == cells(
                max as int,
                b.0 as int,
            ),
            forall|s: int| #![trigger fits(max as int, s)]
                (exists|j: nat| j < k && (s == #[trigger] pow10(j) || s == 2 * pow10(j) || s == 5 * pow10(j) || s == 25
                    * pow10(j))) && fits(max as int, s) ==> (best matches Some(b) && no_worse(max as int, b.0 as int, s)),
        decreases max - p + if done { 0int } else { 1int },
    {
        let mut i: usize = 0;
        while i < 4
            invariant
                1 <= max,
                p == pow10(k),
                1 <= p <= max,
                i <= 4,
                mults@ == seq![1i64, 2, 5, 25],
                best matches Some(b) ==> nice_step(b.0 as int) && fits(max as int, b.0 as int) && b.1 == cells(
                    max as int,
                    b.0 as int,
                ),
                forall|s: int| #![trigger fits(max as int, s)]
                    (exists|j: nat| j < k && (s == #[trigger] pow10(j) || s == 2 * pow10(j) || s == 5 * pow10(j) || s
                        == 25 * pow10(j))) && fits(max as int, s) ==> (best matches Some(b) && no_worse(
                        max as int,
                        b.0 as int,
                        s,
                    )),
                forall|t: int| 0 <= t < i && fits(max as int, mults@[t] * p) ==> (best matches Some(b) && no_worse(
                    max as int,
                    b.0 as int,
                    #[trigger] (mults@[t] * p),
                )),
            decreases 4 - i,
        {
            let m = mults[i];
            assert(m == mults@[i as int]);
            assert(m == 1 || m == 2 || m == 5 || m == 25);
            if p <= max / m {
                assert(1 <= m * p <= max) by (nonlinear_arith)
                    requires
                        p <= max / m,
                        m >= 1,
                        p >= 1,
                ;
                let s = m * p;
                let c = cells_of(max, s);
                proof {
                    assert(nice_step(s as int)) by {
                        if m == 1 {
                            assert(s == pow10(k));
                        } else if m == 2 {
                            assert(s == 2 * pow10(k));
                        } else if m == 5 {
                            assert(s == 5 * pow10(k));
                        } else {
                            assert(s == 25 * pow10(k));
                        }
                    }
                }
                if 2 <= c && c <= 5 {
                    let better = match best {
                        None => true,
                        Some((bs, bc)) => {
                            assert(0 <= (s as i128) * (c as i128) <= 0x10_0000_0000_0000_0000) by (nonlinear_arith)
                                requires
                                    1 <= s <= i64::MAX,
                                    2 <= c <= 5,
                            ;
                            assert(0 <= (bs as i128) * (bc as i128) <= 0x10_0000_0000_0000_0000) by (nonlinear_arith)
                                requires
                                    1 <= bs <= i64::MAX,
                                    2 <= bc <= 5,
                            ;
                            let top = s as i128 * c as i128;
                            let btop = bs as i128 * bc as i128;
                            top < btop || (top == btop && c > bc)
                        },
                    };
                    if better {
                        best = Some((s, c));
                    }
                }
            } else {
                proof {
                    assert((m * p) as int > max) by (nonlinear_arith)
                        requires
                            p > max / m,
                            m >= 1,
                            max >= 1,
                    ;
                    lemma_big_step_does_not_fit(max as int, (m * p) as int);
                }
            }
            i += 1;
        }
        proof {
            lemma_pow10_grows(k);
            assert forall|s: int| #![trigger fits(max as int, s)]
                (exists|j: nat| j < k + 1 && (s == #[trigger] pow10(j) || s == 2 * pow10(j) || s == 5 * pow10(j) || s
                    == 25 * pow10(j))) && fits(max as int, s) implies (best matches Some(b) && no_worse(
                    max as int,
                    b.0 as int,
                    s,
                )) by {
                let j = choose|j: nat| j < k + 1 && (s == #[trigger] pow10(j) || s == 2 * pow10(j) || s == 5 * pow10(j)
                    || s == 25 * pow10(j));
                if j == k {
                    assert(mults@[0] == 1 && mults@[1] == 2 && mults@[2] == 5 && mults@[3] == 25);
                    assert(p == pow10(k));
                    if s == pow10(k) {
                        assert(s == mults@[0] * p);
                    } else if s == 2 * pow10(k) {
                        assert(s == mults@[1] * p);
                    } else if s == 5 * pow10(k) {
                        assert(s == mults@[2] * p);
                    } else {
                        assert(s == mults@[3] * p);
                    }
                }
            }
        }
        if p > max / 10 {
            done = true;
            proof {
                assert(10 * p > max) by (nonlinear_arith)
                    requires
                        p > max / 10,
                        max >= 1,
                ;
            }
        } else {
            p = p * 10;
        }
        proof {
            k = k + 1;
        }
    }
    proof {
        assert(pow10(k) > max);
        assert forall|s: int| nice_step(s) && #[trigger] fits(max as int, s) implies (best matches Some(b) && no_worse(
            max as int,
            b.0 as int,
            s,
        )) by {
            let j = choose|j: nat| s == #[trigger] pow10(j) || s == 2 * pow10(j) || s == 5 * pow10(j) || s == 25 * pow10(j);
            if j >= k {
                lemma_pow10_monotone(k, j);
                lemma_pow10_grows(j);
                lemma_big_step_does_not_fit(max as int, s);
            }
        }
    }
    match best {
        Some((s, c)) => {
            let ghost mx = axis_top(max_val);
            assert(mx == max as int);
            assert(nice_step(s as int) && fits(mx, s as int));
            assert(forall|t: int| nice_step(t) && #[trigger] fits(mx, t) ==> no_worse(mx, s as int, t));
            let axis = (s, c as usize);
            assert(best_axis(mx, axis));
            axis
        },
        None => {
            assert(axis_top(max_val) == max as int);
            assert(!(exists|s: int| nice_step(s) && #[trigger] fits(max as int, s)));
            (1, 2)
        },
    }
}

} // verus!
