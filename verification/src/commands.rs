//! The chart and word-cloud commands: what a message asks for, and whom.
//!
//! A statistics command is `所有群` + period + `发言` + chart, or an optional
//! scope + period + data + chart; a word-cloud command is scope + period +
//! `词云`. No word of a list is a prefix of another word that could stand in
//! the same place, so reading the words left to right finds the one reading
//! there is.

use vstd::prelude::*;
use crate::text::{chars_of, owned, push_str, slice_chars, starts_with, starts_with_chars, same_chars};

verus! {

pub open spec fn scope_words() -> Seq<Seq<char>> {
    seq!["本群"@, "跨群"@, "我的"@]
}

pub open spec fn period_words() -> Seq<Seq<char>> {
    seq![
        "今日"@,
        "昨日"@,
        "本周"@,
        "上周"@,
        "近7天"@,
        "近30天"@,
        "本月"@,
        "上月"@,
        "今年"@,
        "去年"@,
        "总"@,
    ]
}

pub open spec fn data_words() -> Seq<Seq<char>> {
    seq!["发言"@, "表情包"@, "消息类型"@]
}

pub open spec fn chart_words() -> Seq<Seq<char>> {
    seq!["排行榜"@, "走势"@]
}

fn scope_table() -> (t: Vec<&'static str>)
    ensures
        t@.map_values(|s: &'static str| s@) == scope_words(),
{
    let t = vec!["本群", "跨群", "我的"];
    assert(t@.map_values(|s: &'static str| s@) =~= scope_words());
    t
}

fn period_table() -> (t: Vec<&'static str>)
    ensures
        t@.map_values(|s: &'static str| s@) == period_words(),
{
    let t = vec!["今日", "昨日", "本周", "上周", "近7天", "近30天", "本月", "上月", "今年", "去年", "总"];
    assert(t@.map_values(|s: &'static str| s@) =~= period_words());
    t
}

fn data_table() -> (t: Vec<&'static str>)
    ensures
        t@.map_values(|s: &'static str| s@) == data_words(),
{
    let t = vec!["发言", "表情包", "消息类型"];
    assert(t@.map_values(|s: &'static str| s@) =~= data_words());
    t
}

fn chart_table() -> (t: Vec<&'static str>)
    ensures
        t@.map_values(|s: &'static str| s@) == chart_words(),
{
    let t = vec!["排行榜", "走势"];
    assert(t@.map_values(|s: &'static str| s@) =~= chart_words());
    t
}

/// The first word of the list, from `i` on, that `s` starts with.
pub open spec fn leading_word(s: Seq<char>, words: Seq<Seq<char>>, i: int) -> Option<int>
    decreases words.len() - i,
{
    if i < 0 || i >= words.len() {
        None
    } else if starts_with(s, words[i]) {
        Some(i)
    } else {
        leading_word(s, words, i + 1)
    }
}

/// The first word of the list, from `i` on, that `s` is.
pub open spec fn whole_word(s: Seq<char>, words: Seq<Seq<char>>, i: int) -> Option<int>
    decreases words.len() - i,
{
    if i < 0 || i >= words.len() {
        None
    } else if s == words[i] {
        Some(i)
    } else {
        whole_word(s, words, i + 1)
    }
}

fn leading(s: &Vec<char>, words: &Vec<&'static str>) -> (r: Option<usize>)
    ensures
        match r {
            Some(i) => leading_word(s@, words@.map_values(|w: &'static str| w@), 0) == Some(
                i as int,
            ) && i < words@.len() && starts_with(s@, words@[i as int]@),
            None => leading_word(s@, words@.map_values(|w: &'static str| w@), 0) is None,
        },
{
    let ghost ws = words@.map_values(|w: &'static str| w@);
    let mut i: usize = 0;
    while i < words.len()
        invariant
            i <= words@.len(),
            ws == words@.map_values(|w: &'static str| w@),
            leading_word(s@, ws, 0) == leading_word(s@, ws, i as int),
        decreases words@.len() - i,
    {
        assert(ws[i as int] == words@[i as int]@);
        if starts_with_chars(s, &chars_of(words[i])) {
            return Some(i);
        }
        i += 1;
    }
    None
}

fn whole(s: &Vec<char>, words: &Vec<&'static str>) -> (r: Option<usize>)
    ensures
        match r {
            Some(i) => whole_word(s@, words@.map_values(|w: &'static str| w@), 0) == Some(
                i as int,
            ) && i < words@.len(),
            None => whole_word(s@, words@.map_values(|w: &'static str| w@), 0) is None,
        },
{
    let ghost ws = words@.map_values(|w: &'static str| w@);
    let mut i: usize = 0;
    while i < words.len()
        invariant
            i <= words@.len(),
            ws == words@.map_values(|w: &'static str| w@),
            whole_word(s@, ws, 0) == whole_word(s@, ws, i as int),
        decreases words@.len() - i,
    {
        assert(ws[i as int] == words@[i as int]@);
        if same_chars(s, &chars_of(words[i])) {
            return Some(i);
        }
        i += 1;
    }
    None
}

fn after(s: &Vec<char>, n: usize) -> (rest: Vec<char>)
    requires
        n <= s@.len(),
    ensures
        rest@ == s@.skip(n as int),
{
    let rest = slice_chars(s, n, s.len());
    assert(rest@ =~= s@.skip(n as int));
    rest
}

/// A statistics request: scope, period, data and chart as written, and
/// whether it spans all groups.
#[derive(Debug, Clone, Copy, PartialEq, Eq)]
pub struct StatsRequest {
    pub scope: &'static str,
    pub period: &'static str,
    pub data: &'static str,
    pub chart: &'static str,
    pub all_groups: bool,
}

pub open spec fn request_view(r: StatsRequest) -> (Seq<char>, Seq<char>, Seq<char>, Seq<char>, bool) {
    (r.scope@, r.period@, r.data@, r.chart@, r.all_groups)
}

/// `所有群` + period + `发言` + chart.
pub open spec fn global_request(s: Seq<char>) -> Option<(Seq<char>, Seq<char>, Seq<char>, Seq<char>, bool)> {
    if !starts_with(s, "所有群"@) {
        None
    } else {
        let r1 = s.skip(3);
        match leading_word(r1, period_words(), 0) {
            None => None,
            Some(p) => {
                let r2 = r1.skip(period_words()[p].len() as int);
                if !starts_with(r2, "发言"@) {
                    None
                } else {
                    match whole_word(r2.skip(2), chart_words(), 0) {
                        Some(c) => Some(("跨群"@, period_words()[p], "发言"@, chart_words()[c], true)),
                        None => None,
                    }
                }
            },
        }
    }
}

/// An optional scope (this group by default) + period + data + chart.
pub open spec fn plain_request(s: Seq<char>) -> Option<(Seq<char>, Seq<char>, Seq<char>, Seq<char>, bool)> {
    let (scope, r1) = match leading_word(s, scope_words(), 0) {
        Some(k) => (scope_words()[k], s.skip(2)),
        None => ("本群"@, s),
    };
    match leading_word(r1, period_words(), 0) {
        None => None,
        Some(p) => {
            let r2 = r1.skip(period_words()[p].len() as int);
            match leading_word(r2, data_words(), 0) {
                None => None,
                Some(d) => match whole_word(r2.skip(data_words()[d].len() as int), chart_words(), 0) {
                    Some(c) => Some((scope, period_words()[p], data_words()[d], chart_words()[c], false)),
                    None => None,
                },
            }
        },
    }
}

pub open spec fn stats_request_spec(s: Seq<char>) -> Option<(Seq<char>, Seq<char>, Seq<char>, Seq<char>, bool)> {
    match global_request(s) {
        Some(r) => Some(r),
        None => plain_request(s),
    }
}

proof fn lemma_word_lengths()
    ensures
        "所有群"@.len() == 3,
        "发言"@.len() == 2,
        forall|k: int| 0 <= k < scope_words().len() ==> #[trigger] scope_words()[k].len() == 2,
{
    reveal_strlit("所有群");
    reveal_strlit("发言");
    reveal_strlit("本群");
    reveal_strlit("跨群");
    reveal_strlit("我的");
}

fn parse_global(s: &Vec<char>, periods: &Vec<&'static str>, charts: &Vec<&'static str>) -> (r: Option<StatsRequest>)
    requires
        periods@.map_values(|w: &'static str| w@) == period_words(),
        charts@.map_values(|w: &'static str| w@) == chart_words(),
    ensures
        match r {
            Some(q) => global_request(s@) == Some(request_view(q)),
            None => global_request(s@) is None,
        },
{
    proof {
        lemma_word_lengths();
    }
    if !starts_with_chars(s, &chars_of("所有群")) {
        return None;
    }
    let r1 = after(s, 3);
    let p = match leading(&r1, periods) {
        Some(p) => p,
        None => {
            return None;
        },
    };
    proof {
        assert(periods@.map_values(|w: &'static str| w@)[p as int] == periods@[p as int]@);
    }
    let plen = chars_of(periods[p]).len();
    let r2 = after(&r1, plen);
    if !starts_with_chars(&r2, &chars_of("发言")) {
        return None;
    }
    let r3 = after(&r2, 2);
    match whole(&r3, charts) {
        Some(c) => {
            proof {
                assert(charts@.map_values(|w: &'static str| w@)[c as int] == charts@[c as int]@);
            }
            Some(StatsRequest { scope: "跨群", period: periods[p], data: "发言", chart: charts[c], all_groups: true })
        },
        None => None,
    }
}

/// Reads a statistics command; `None` when the message is not one.
pub fn parse_stats(content: &str) -> (r: Option<StatsRequest>)
    ensures
        match r {
            Some(q) => stats_request_spec(content@) == Some(request_view(q)),
            None => stats_request_spec(content@) is None,
        },
{
    proof {
        lemma_word_lengths();
    }
    let s = chars_of(content);
    let periods = period_table();
    let datas = data_table();
    let charts = chart_table();
    let scopes = scope_table();
    let global = parse_global(&s, &periods, &charts);
    match global {
        Some(q) => {
            return Some(q);
        },
        None => {},
    }
    let (scope, r1): (&'static str, Vec<char>) = match leading(&s, &scopes) {
        Some(k) => {
            proof {
                assert(scopes@.map_values(|w: &'static str| w@)[k as int] == scopes@[k as int]@);
            }
            (scopes[k], after(&s, 2))
        },
        None => {
            let r = after(&s, 0);
            assert(r@ =~= s@);
            ("本群", r)
        },
    };
    let p = match leading(&r1, &periods) {
        Some(p) => p,
        None => {
            return None;
        },
    };
    proof {
        assert(periods@.map_values(|w: &'static str| w@)[p as int] == periods@[p as int]@);
    }
    let plen = chars_of(periods[p]).len();
    let r2 = after(&r1, plen);
    let d = match leading(&r2, &datas) {
        Some(d) => d,
        None => {
            return None;
        },
    };
    proof {
        assert(datas@.map_values(|w: &'static str| w@)[d as int] == datas@[d as int]@);
    }
    let dlen = chars_of(datas[d]).len();
    let r3 = after(&r2, dlen);
    match whole(&r3, &charts) {
        Some(c) => {
            proof {
                assert(charts@.map_values(|w: &'static str| w@)[c as int] == charts@[c as int]@);
            }
            Some(StatsRequest { scope, period: periods[p], data: datas[d], chart: charts[c], all_groups: false })
        },
        None => None,
    }
}

/// A word-cloud request: scope + period + `词云`.
pub open spec fn cloud_request_spec(s: Seq<char>) -> Option<(Seq<char>, Seq<char>)> {
    match leading_word(s, scope_words(), 0) {
        None => None,
        Some(k) => {
            let r1 = s.skip(2);
            match leading_word(r1, period_words(), 0) {
                None => None,
                Some(p) => if r1.skip(period_words()[p].len() as int) == "词云"@ {
                    Some((scope_words()[k], period_words()[p]))
                } else {
                    None
                },
            }
        },
    }
}

/// Reads a word-cloud command: the scope and the period as written.
pub fn parse_cloud(content: &str) -> (r: Option<(&'static str, &'static str)>)
    ensures
        match r {
            Some((a, b)) => cloud_request_spec(content@) == Some((a@, b@)),
            None => cloud_request_spec(content@) is None,
        },
{
    proof {
        lemma_word_lengths();
    }
    let s = chars_of(content);
    let scopes = scope_table();
    let periods = period_table();
    let k = match leading(&s, &scopes) {
        Some(k) => k,
        None => {
            return None;
        },
    };
    proof {
        assert(scopes@.map_values(|w: &'static str| w@)[k as int] == scopes@[k as int]@);
    }
    let r1 = after(&s, 2);
    let p = match leading(&r1, &periods) {
        Some(p) => p,
        None => {
            return None;
        },
    };
    proof {
        assert(periods@.map_values(|w: &'static str| w@)[p as int] == periods@[p as int]@);
    }
    let plen = chars_of(periods[p]).len();
    let r2 = after(&r1, plen);
    if same_chars(&r2, &chars_of("词云")) {
        Some((scopes[k], periods[p]))
    } else {
        None
    }
}

/// Whom a query covers, by its scope: this group, every group, or the asker.
/// `None` for `本群` outside a group, which has no group to count.
pub open spec fn query_of(scope: Seq<char>, group_id: Option<i64>, user_id: i64) -> Option<
    (Option<i64>, Option<i64>),
> {
    if scope == "本群"@ {
        match group_id {
            Some(g) => Some((Some(g), None)),
            None => None,
        }
    } else if scope == "我的"@ {
        Some((None, Some(user_id)))
    } else {
        Some((None, None))
    }
}

pub fn query_scope(scope: &str, group_id: Option<i64>, user_id: i64) -> (q: Option<(Option<i64>, Option<i64>)>)
    ensures
        q == query_of(scope@, group_id, user_id),
{
    let s = chars_of(scope);
    if same_chars(&s, &chars_of("本群")) {
        match group_id {
            Some(g) => Some((Some(g), None)),
            None => None,
        }
    } else if same_chars(&s, &chars_of("我的")) {
        Some((None, Some(user_id)))
    } else {
        Some((None, None))
    }
}

/// The chart's title: the words run together, like a line of a heading.
pub fn stats_title(q: &StatsRequest) -> (title: String)
    ensures
        title@ == (if q.all_groups {
            "所有群"@
        } else {
            q.scope@
        }) + q.period@ + q.data@ + q.chart@,
{
    let mut out = if q.all_groups {
        owned("所有群")
    } else {
        owned(q.scope)
    };
    push_str(&mut out, q.period);
    push_str(&mut out, q.data);
    push_str(&mut out, q.chart);
    out
}

/// The word cloud's title: `{scope} 的 {period} 词云`.
pub fn cloud_title(scope: &str, period: &str) -> (title: String)
    ensures
        title@ == scope@ + " 的 "@ + period@ + " 词云"@,
{
    let mut out = owned(scope);
    push_str(&mut out, " 的 ");
    push_str(&mut out, period);
    push_str(&mut out, " 词云");
    out
}

} // verus!
