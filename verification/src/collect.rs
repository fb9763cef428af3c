//! Material for a persona: countable facts (how much, when, where, what kind)
//! and readable text (for the model, and for the quotes in the report).
//!
//! The database reads stay with the caller; this module holds what is done
//! with the rows once they are read: which texts are worth sampling, how the
//! samples are spread and budgeted, who is named and answered in a group, and
//! how much evidence a portrait can stand on.

use vstd::prelude::*;
use crate::text::{
    all_ws, chars_of, contains, contains_chars, find_index, i64_text, index_from, is_blank,
    lemma_index_from_bounds, lemma_trim_empty, owned, parse_i64, parses_i64, push_chars,
    same_chars, string_of, take_chars, trim, trim_str, trimmed,
};

verus! {

/// At most this many characters of one sample go to the model.
pub const SAMPLE_MAX_CHARS: usize = 90;

/// The total number of sample characters sent with one prompt.
pub const SAMPLE_TOTAL_CHARS: usize = 9000;

/// However tight the budget, this many samples are kept.
pub const SAMPLE_MIN_KEEP: usize = 8;

/// The longest few texts are always sampled.
pub const MANDATORY_LONG: usize = 3;

/// A turn: the next message in the same group, within this many seconds.
pub const TURN_WINDOW: i64 = 120;

/// At most this many of one's own lines addressed to a partner.
pub const TIE_SAMPLES: usize = 2;

/// A line addressed to a partner is cut to this many characters.
pub const TIE_SAMPLE_CHARS: usize = 60;

// ==================== the shapes ====================

/// The window of one collection.
pub struct Request {
    pub user_id: i64,
    pub start: i64,
    pub end: i64,
    /// At most this many raw records are read.
    pub max_scan: u64,
    pub max_samples: usize,
    /// At most this many partners in the report.
    pub partners: usize,
}

/// What the messages were made of.
#[derive(Debug, Default, Clone, Copy)]
pub struct Kinds {
    pub text: u64,
    pub image: u64,
    pub anim_emoji: u64,
    pub face: u64,
    pub voice: u64,
    pub video: u64,
    pub reply: u64,
    pub at: u64,
}

/// How much someone said in one group.
#[derive(Debug, Clone)]
pub struct GroupSlice {
    pub group_id: i64,
    pub name: String,
    pub count: u64,
}

/// The account between one person and another, counted from the records.
///
/// Both measures are split by direction: a mention (`[@QQ]` in the rich
/// text) and a turn (the very next message in the same group, within two
/// minutes, from the other person).
#[derive(Debug, Clone)]
pub struct Tie {
    pub user_id: i64,
    /// The name most used in the group.
    pub name: String,
    /// I mention them / they mention me.
    pub at_out: u64,
    pub at_in: u64,
    /// I answer them / they answer me.
    pub turn_out: u64,
    pub turn_in: u64,
    /// The last time the two met, by mention or turn.
    pub last_time: i64,
    /// Lines I addressed to them.
    pub samples: Vec<String>,
}

/// Who does the summoning, read from the mentions alone: a lean of at least
/// 0.65 (13/20) towards one side names that side; anything closer is even.
pub open spec fn initiative_of(at_out: int, at_in: int) -> &'static str {
    if at_out + at_in == 0 {
        "只看接话"
    } else if 20 * at_out >= 13 * (at_out + at_in) {
        "我这边主动"
    } else if 20 * at_out <= 7 * (at_out + at_in) {
        "他那边主动"
    } else {
        "两边差不多"
    }
}

impl Tie {
    /// What I sent their way.
    pub fn out(&self) -> (n: u64)
        requires
            self.at_out + self.turn_out <= u64::MAX,
        ensures
            n == self.at_out + self.turn_out,
    {
        self.at_out + self.turn_out
    }

    /// What they sent mine.
    pub fn incoming(&self) -> (n: u64)
        requires
            self.at_in + self.turn_in <= u64::MAX,
        ensures
            n == self.at_in + self.turn_in,
    {
        self.at_in + self.turn_in
    }

    /// All the traffic between the two, used for ranking.
    pub fn weight(&self) -> (n: u64)
        requires
            self.at_out + self.turn_out + self.at_in + self.turn_in <= u64::MAX,
        ensures
            n == self.at_out + self.turn_out + self.at_in + self.turn_in,
    {
        self.out() + self.incoming()
    }

    /// Who mentions whom more often. A lean short of 0.65 either way reads as
    /// even: 12 against 11 is noise, not a finding.
    pub fn initiative(&self) -> (word: &'static str)
        requires
            self.at_out + self.at_in <= u64::MAX,
        ensures
            word == initiative_of(self.at_out as int, self.at_in as int),
    {
        if self.at_out + self.at_in == 0 {
            return "只看接话";
        }
        let mine = self.at_out as u128;
        let all = self.at_out as u128 + self.at_in as u128;
        if 20 * mine >= 13 * all {
            "我这边主动"
        } else if 20 * mine <= 7 * all {
            "他那边主动"
        } else {
            "两边差不多"
        }
    }
}

// ==================== how much evidence ====================

/// How far a portrait can be trusted, by how much evidence there is.
#[derive(Debug, Clone, Copy, PartialEq, Eq, Structural)]
pub enum Sufficiency {
    Enough,
    Fair,
    Thin,
}

impl Sufficiency {
    pub fn label(self) -> (label: &'static str)
        ensures
            label == match self {
                Sufficiency::Enough => "充分",
                Sufficiency::Fair => "一般",
                Sufficiency::Thin => "有限",
            },
    {
        match self {
            Sufficiency::Enough => "充分",
            Sufficiency::Fair => "一般",
            Sufficiency::Thin => "有限",
        }
    }
}

/// Two hundred messages over at least fourteen days carry all four
/// dimensions; fifty over five carry some; less is thin.
pub fn sufficiency(total: u64, active_days: u64) -> (s: Sufficiency)
    ensures
        s == (if total >= 200 && active_days >= 14 {
            Sufficiency::Enough
        } else if total >= 50 && active_days >= 5 {
            Sufficiency::Fair
        } else {
            Sufficiency::Thin
        }),
{
    if total >= 200 && active_days >= 14 {
        Sufficiency::Enough
    } else if total >= 50 && active_days >= 5 {
        Sufficiency::Fair
    } else {
        Sufficiency::Thin
    }
}

/// The first bucket holding the most; 0 when there are none.
pub fn peak_index(values: &[u64]) -> (best: usize)
    ensures
        values@.len() == 0 ==> best == 0,
        values@.len() > 0 ==> best < values@.len() && (forall|j: int|
            0 <= j < values@.len() ==> values@[j] <= values@[best as int]) && (forall|j: int|
            0 <= j < best ==> values@[j] < values@[best as int]),
{
    let mut best: usize = 0;
    let mut i: usize = 0;
    while i < values.len()
        invariant
            i <= values@.len(),
            values@.len() > 0 ==> best < values@.len(),
            values@.len() == 0 ==> best == 0,
            best <= i || (i == 0 && best == 0),
            forall|j: int| 0 <= j < i ==> values@[j] <= values@[best as int],
            forall|j: int| 0 <= j < best ==> values@[j] < values@[best as int],
        decreases values@.len() - i,
    {
        if values[i] > values[best] {
            best = i;
        }
        i += 1;
    }
    best
}

/// The calendar span of the material in days: whole days between the first
/// and the last message, plus one.
pub fn span_days(first_time: i64, last_time: i64) -> (days: i64)
    requires
        i64::MIN <= last_time - first_time <= i64::MAX,
    ensures
        days == (if last_time - first_time > 0 {
            last_time - first_time
        } else {
            0
        }) / 86400 + 1,
        days >= 1,
{
    let seconds = if last_time - first_time > 0 {
        last_time - first_time
    } else {
        0
    };
    seconds / 86400 + 1
}

// ==================== turning text into samples ====================

/// The characters outside square brackets, read left to right with a depth
/// that never goes below zero.
pub open spec fn bracket_scan(s: Seq<char>) -> (int, Seq<char>)
    decreases s.len(),
{
    if s.len() == 0 {
        (0, seq![])
    } else {
        let (depth, rest) = bracket_scan(s.drop_last());
        let c = s.last();
        if c == '[' {
            (depth + 1, rest)
        } else if c == ']' {
            (if depth > 0 {
                depth - 1
            } else {
                0
            }, rest)
        } else if depth == 0 {
            (depth, rest.push(c))
        } else {
            (depth, rest)
        }
    }
}

proof fn lemma_bracket_depth(s: Seq<char>)
    ensures
        0 <= bracket_scan(s).0 <= s.len(),
    decreases s.len(),
{
    if s.len() > 0 {
        lemma_bracket_depth(s.drop_last());
    }
}

/// A message worth reading: trimmed, it still says something once the
/// bracketed markers (`[图片]`, `[表情]`, `[@123]`) are left out.
pub open spec fn meaningful_text(content: Seq<char>) -> Option<Seq<char>> {
    let t = trim(content);
    if t.len() == 0 || all_ws(bracket_scan(t).1) {
        None
    } else {
        Some(t)
    }
}

/// Drops records that are nothing but markers; what is kept is the trimmed
/// text with its markers in place.
pub fn meaningful(content: &str) -> (out: Option<String>)
    ensures
        match out {
            Some(t) => meaningful_text(content@) == Some(t@),
            None => meaningful_text(content@) is None,
        },
{
    let t = trim_str(content);
    if t.len() == 0 {
        return None;
    }
    let mut rest: Vec<char> = Vec::new();
    let mut depth: usize = 0;
    let mut i: usize = 0;
    while i < t.len()
        invariant
            i <= t@.len(),
            (depth as int, rest@) == bracket_scan(t@.take(i as int)),
        decreases t@.len() - i,
    {
        proof {
            assert(t@.take(i + 1).drop_last() =~= t@.take(i as int));
            lemma_bracket_depth(t@.take(i as int));
        }
        let c = t[i];
        if c == '[' {
            depth += 1;
        } else if c == ']' {
            depth = if depth > 0 {
                depth - 1
            } else {
                0
            };
        } else if depth == 0 {
            rest.push(c);
        }
        i += 1;
    }
    assert(t@.take(i as int) =~= t@);
    let rest_text = string_of(&rest);
    if is_blank(rest_text.as_str()) {
        return None;
    }
    Some(string_of(&t))
}

/// `count` indices spread evenly over `0..len`, both ends included.
pub open spec fn spread_spec(len: int, count: int) -> Seq<int> {
    if count == 0 || len == 0 {
        seq![]
    } else if count == 1 {
        seq![0]
    } else if len <= count {
        Seq::new(len as nat, |k: int| k)
    } else {
        Seq::new(count as nat, |k: int| k * (len - 1) / (count - 1))
    }
}

pub open spec fn usize_ints(v: Seq<usize>) -> Seq<int> {
    v.map_values(|x: usize| x as int)
}

/// Picks `count` indices evenly over `0..len`, the first and the last
/// included.
pub fn spread(len: usize, count: usize) -> (out: Vec<usize>)
    ensures
        usize_ints(out@) == spread_spec(len as int, count as int),
{
    if count == 0 || len == 0 {
        let out: Vec<usize> = Vec::new();
        assert(usize_ints(out@) =~= spread_spec(len as int, count as int));
        return out;
    }
    if count == 1 {
        let out: Vec<usize> = vec![0];
        assert(usize_ints(out@) =~= spread_spec(len as int, count as int));
        return out;
    }
    let mut out: Vec<usize> = Vec::new();
    if len <= count {
        let mut k: usize = 0;
        while k < len
            invariant
                k <= len,
                usize_ints(out@) == Seq::new(k as nat, |j: int| j),
            decreases len - k,
        {
            let ghost prev = out@;
            out.push(k);
            assert(usize_ints(out@) =~= usize_ints(prev).push(k as int));
            k += 1;
            assert(usize_ints(out@) =~= Seq::new(k as nat, |j: int| j));
        }
        return out;
    }
    let mut k: usize = 0;
    while k < count
        invariant
            1 < count < len,
            k <= count,
            usize_ints(out@) == Seq::new(k as nat, |j: int| j * (len - 1) / (count - 1)),
        decreases count - k,
    {
        let kk = k as u128;
        let span = (len - 1) as u128;
        let steps = (count - 1) as u128;
        assert(kk * span <= steps * span) by (nonlinear_arith)
            requires
                kk < steps + 1,
                span >= 0,
        ;
        assert(steps * span <= 0xffff_ffff_ffff_ffff * 0xffff_ffff_ffff_ffff) by (nonlinear_arith)
            requires
                steps <= 0xffff_ffff_ffff_ffff,
                span <= 0xffff_ffff_ffff_ffff,
        ;
        let wide = kk * span / steps;
        assert(wide as int == (k as int) * ((len - 1) as int) / ((count - 1) as int));
        assert((wide as int) <= span as int) by (nonlinear_arith)
            requires
                wide as int == (kk as int) * (span as int) / (steps as int),
                kk as int <= steps as int,
                steps as int > 0,
                span as int >= 0,
        ;
        let at = wide as usize;
        let ghost prev = out@;
        out.push(at);
        assert(usize_ints(out@) =~= usize_ints(prev).push(at as int));
        k += 1;
        assert(usize_ints(out@) =~= Seq::new(k as nat, |j: int| j * (len - 1) / (count - 1)));
    }
    out
}

proof fn lemma_spread_step(k: int, m: int, c: int)
    requires
        0 <= k,
        0 < c < m,
    ensures
        k * m / c < (k + 1) * m / c,
{
    assert((k + 1) * m == k * m + m) by (nonlinear_arith);
    assert(k * m / c + 1 == (k * m + c) / c) by (nonlinear_arith)
        requires
            c > 0,
            k * m >= 0,
    ;
    assert((k * m + c) / c <= (k * m + m) / c) by (nonlinear_arith)
        requires
            c > 0,
            c < m,
            k * m >= 0,
    ;
}

/// The spread starts at 0, ends at `len - 1`, climbs strictly, and never
/// asks for more than it was given.
pub proof fn lemma_spread_covers_both_ends(len: int, count: int)
    requires
        len > 0,
        count > 0,
    ensures
        spread_spec(len, count)[0] == 0,
        count > 1 ==> spread_spec(len, count).last() == len - 1,
        spread_spec(len, count).len() == if len < count {
            len
        } else {
            count
        },
        forall|i: int, j: int|
            0 <= i < j < spread_spec(len, count).len() ==> spread_spec(len, count)[i]
                < spread_spec(len, count)[j],
        forall|i: int|
            0 <= i < spread_spec(len, count).len() ==> 0 <= #[trigger] spread_spec(len, count)[i]
                < len,
{
    let s = spread_spec(len, count);
    if count > 1 && len > count {
        let m = len - 1;
        let c = count - 1;
        assert(s.last() == c * m / c);
        assert(c * m / c == m) by (nonlinear_arith)
            requires
                c > 0,
        ;
        assert forall|i: int, j: int| 0 <= i < j < s.len() implies s[i] < s[j] by {
            lemma_spread_monotone(i, j, m, c);
        }
        assert forall|i: int| 0 <= i < s.len() implies 0 <= #[trigger] s[i] < len by {
            assert(s[i] == i * m / c);
            if i < c {
                lemma_spread_monotone(i, c, m, c);
            }
            assert(0 <= i * m / c) by (nonlinear_arith)
                requires
                    i >= 0,
                    m > 0,
                    c > 0,
            ;
        }
    }
}

proof fn lemma_spread_monotone(i: int, j: int, m: int, c: int)
    requires
        0 <= i < j,
        0 < c < m,
    ensures
        i * m / c < j * m / c,
    decreases j - i,
{
    lemma_spread_step(j - 1, m, c);
    if i < j - 1 {
        lemma_spread_monotone(i, j - 1, m, c);
    }
}

/// A sample cut to its first ninety characters.
pub open spec fn sample_clip(s: Seq<char>) -> Seq<char> {
    if s.len() <= 90 {
        s
    } else {
        s.take(90)
    }
}

/// Clipping and budgeting, one text at a time: (budget left, kept, stopped).
pub open spec fn budget_scan(samples: Seq<Seq<char>>) -> (int, Seq<Seq<char>>, bool)
    decreases samples.len(),
{
    if samples.len() == 0 {
        (9000, seq![], false)
    } else {
        let (budget, kept, stopped) = budget_scan(samples.drop_last());
        let t = sample_clip(samples.last());
        if stopped || (t.len() > budget && kept.len() >= 8) {
            (budget, kept, true)
        } else {
            (if t.len() >= budget {
                0
            } else {
                budget - t.len()
            }, kept.push(t), false)
        }
    }
}

pub open spec fn string_views(v: Seq<String>) -> Seq<Seq<char>> {
    v.map_values(|s: String| s@)
}

/// Clips every sample, then keeps them in order until the character budget
/// runs out; however tight the budget, the first eight are kept.
pub fn truncate_samples(samples: Vec<String>) -> (out: Vec<String>)
    ensures
        string_views(out@) == budget_scan(string_views(samples@)).1,
{
    let mut out: Vec<String> = Vec::new();
    let mut budget: usize = SAMPLE_TOTAL_CHARS;
    let mut i: usize = 0;
    let ghost views = string_views(samples@);
    while i < samples.len()
        invariant
            i <= samples@.len(),
            views == string_views(samples@),
            budget_scan(views.take(i as int)) == (budget as int, string_views(out@), false),
        decreases samples@.len() - i,
    {
        proof {
            assert(views.take(i + 1).drop_last() =~= views.take(i as int));
        }
        let chars = chars_of(samples[i].as_str());
        let clipped = take_chars(&chars, SAMPLE_MAX_CHARS);
        let cost = clipped.len();
        assert(clipped@ == sample_clip(views[i as int]));
        if cost > budget && out.len() >= SAMPLE_MIN_KEEP {
            proof {
                lemma_budget_stops(views, i as int);
            }
            assert(views.take(i as int) =~= views.take(i as int));
            return out;
        }
        let ghost prev = out@;
        budget = if cost >= budget {
            0
        } else {
            budget - cost
        };
        let text = string_of(&clipped);
        out.push(text);
        assert(string_views(out@) =~= string_views(prev).push(clipped@));
        i += 1;
    }
    assert(views.take(i as int) =~= views);
    out
}

/// Once the scan has stopped, it stays stopped with the same result.
proof fn lemma_budget_stops(views: Seq<Seq<char>>, i: int)
    requires
        0 <= i < views.len(),
        !budget_scan(views.take(i)).2,
        sample_clip(views[i]).len() > budget_scan(views.take(i)).0,
        budget_scan(views.take(i)).1.len() >= 8,
    ensures
        budget_scan(views).1 == budget_scan(views.take(i)).1,
{
    assert(views.take(i + 1).drop_last() =~= views.take(i));
    assert(views.take(i + 1).last() == views[i]);
    lemma_budget_stays(views, i + 1, budget_scan(views.take(i)));
    assert(views.take(views.len() as int) =~= views);
}

proof fn lemma_budget_stays(views: Seq<Seq<char>>, k: int, state: (int, Seq<Seq<char>>, bool))
    requires
        0 < k <= views.len(),
        budget_scan(views.take(k)) == (state.0, state.1, true),
    ensures
        budget_scan(views.take(views.len() as int)).1 == state.1,
    decreases views.len() - k,
{
    if k < views.len() {
        assert(views.take(k + 1).drop_last() =~= views.take(k));
        lemma_budget_stays(views, k + 1, state);
    }
}

/// Every kept sample has at most ninety characters, together they stay
/// within the budget of nine thousand, and at least the first eight (or all,
/// when there are fewer) are kept.
pub proof fn lemma_samples_budget(samples: Seq<Seq<char>>)
    ensures
        forall|i: int|
            0 <= i < budget_scan(samples).1.len() ==> #[trigger] budget_scan(samples).1[i].len()
                <= 90,
        total_chars(budget_scan(samples).1) <= 9000,
        budget_scan(samples).1.len() >= if samples.len() < 8 {
            samples.len() as int
        } else {
            8
        },
{
    lemma_budget_invariant(samples);
}

/// The number of characters in a list of texts.
pub open spec fn total_chars(texts: Seq<Seq<char>>) -> int
    decreases texts.len(),
{
    if texts.len() == 0 {
        0
    } else {
        total_chars(texts.drop_last()) + texts.last().len()
    }
}

proof fn lemma_budget_invariant(samples: Seq<Seq<char>>)
    ensures
        ({
            let (budget, kept, stopped) = budget_scan(samples);
            &&& total_chars(kept) + budget == 9000
            &&& budget >= 0
            &&& total_chars(kept) <= 90 * kept.len()
            &&& (forall|i: int| 0 <= i < kept.len() ==> #[trigger] kept[i].len() <= 90)
            &&& (stopped ==> kept.len() >= 8)
            &&& kept.len() >= if samples.len() < 8 {
                samples.len() as int
            } else {
                8
            }
        }),
    decreases samples.len(),
{
    if samples.len() > 0 {
        let prefix = samples.drop_last();
        lemma_budget_invariant(prefix);
        let (budget, kept, stopped) = budget_scan(prefix);
        let t = sample_clip(samples.last());
        assert(t.len() <= 90);
        if !(stopped || (t.len() > budget && kept.len() >= 8)) {
            let k2 = kept.push(t);
            assert(k2.drop_last() =~= kept);
            assert(total_chars(k2) == total_chars(kept) + t.len());
            if t.len() > budget {
                assert(kept.len() < 8);
                assert(90 * kept.len() <= 630);
                assert(false);
            }
            assert forall|i: int| 0 <= i < k2.len() implies #[trigger] k2[i].len() <= 90 by {
                if i < kept.len() {
                    assert(k2[i] == kept[i]);
                }
            }
        }
    }
}

/// A text row as read from the records: rich text, length, tokens, time.
#[derive(Debug, Clone)]
pub struct TextRow {
    pub content: String,
    pub length: i32,
    pub tokens: String,
    pub time: i64,
}

/// The distinct readable texts, in the order of the rows (newest first).
pub open spec fn pool_of(rows: Seq<TextRow>) -> Seq<Seq<char>>
    decreases rows.len(),
{
    if rows.len() == 0 {
        seq![]
    } else {
        let prev = pool_of(rows.drop_last());
        let row = rows.last();
        match meaningful_text(row.content@) {
            Some(t) => if row.length > 0 && !prev.contains(t) {
                prev.push(t)
            } else {
                prev
            },
            None => prev,
        }
    }
}

/// Text `j` is read before text `i` when longer, or as long and newer.
pub open spec fn ranks_before(pool: Seq<Seq<char>>, j: int, i: int) -> bool {
    pool[j].len() > pool[i].len() || (pool[j].len() == pool[i].len() && j < i)
}

/// How many of the first `upto` texts rank before text `i`.
pub open spec fn rank_of(pool: Seq<Seq<char>>, i: int, upto: int) -> int
    decreases upto,
{
    if upto <= 0 {
        0
    } else {
        rank_of(pool, i, upto - 1) + if ranks_before(pool, upto - 1, i) {
            1int
        } else {
            0int
        }
    }
}

/// How many of the longest texts are always taken.
pub open spec fn long_quota(pool_len: int, limit: int) -> int {
    let m = if limit < 3 {
        limit
    } else {
        3
    };
    if m < pool_len {
        m
    } else {
        pool_len
    }
}

/// Whether text `i` is sampled: it is among the longest few, or the even
/// spread over the rest of the quota lands on it.
pub open spec fn chosen(pool: Seq<Seq<char>>, limit: int, i: int) -> bool {
    let quota = long_quota(pool.len() as int, limit);
    rank_of(pool, i, pool.len() as int) < quota || spread_spec(pool.len() as int, limit - quota).contains(i)
}

/// The sampled texts among the first `upto`, oldest position first as in the
/// pool (that is, in the pool's order).
pub open spec fn chosen_upto(pool: Seq<Seq<char>>, limit: int, upto: int) -> Seq<Seq<char>>
    decreases upto,
{
    if upto <= 0 {
        seq![]
    } else {
        let prev = chosen_upto(pool, limit, upto - 1);
        if chosen(pool, limit, upto - 1) {
            prev.push(pool[upto - 1])
        } else {
            prev
        }
    }
}

/// The samples for a persona: the longest three are always taken, the rest of
/// the quota is spread evenly over the whole time line, all of it kept in
/// the rows' order and then clipped and budgeted.
pub open spec fn samples_of(rows: Seq<TextRow>, limit: int) -> Seq<Seq<char>> {
    if limit == 0 {
        seq![]
    } else {
        let pool = pool_of(rows);
        budget_scan(chosen_upto(pool, limit, pool.len() as int)).1
    }
}

proof fn lemma_pool_len(rows: Seq<TextRow>)
    ensures
        pool_of(rows).len() <= rows.len(),
    decreases rows.len(),
{
    if rows.len() > 0 {
        lemma_pool_len(rows.drop_last());
    }
}

proof fn lemma_rank_gap(pool: Seq<Seq<char>>, i: int, j: int, upto: int)
    requires
        0 <= i < pool.len(),
        0 <= j < pool.len(),
        pool[j].len() > pool[i].len(),
        0 <= upto <= pool.len(),
    ensures
        rank_of(pool, i, upto) >= rank_of(pool, j, upto) + if j < upto {
            1int
        } else {
            0int
        },
    decreases upto,
{
    if upto > 0 {
        lemma_rank_gap(pool, i, j, upto - 1);
    }
}

proof fn lemma_rank_zero(pool: Seq<Seq<char>>, i: int, upto: int)
    requires
        0 <= i < pool.len(),
        0 <= upto <= pool.len(),
        forall|k: int| 0 <= k < pool.len() && k != i ==> #[trigger] pool[k].len() < pool[i].len(),
    ensures
        rank_of(pool, i, upto) == 0,
    decreases upto,
{
    if upto > 0 {
        lemma_rank_zero(pool, i, upto - 1);
    }
}

/// A longer text always ranks ahead of a shorter one when the longest are
/// picked.
pub proof fn lemma_longer_texts_rank_first(pool: Seq<Seq<char>>, i: int, j: int)
    requires
        0 <= i < pool.len(),
        0 <= j < pool.len(),
        pool[j].len() > pool[i].len(),
    ensures
        rank_of(pool, j, pool.len() as int) < rank_of(pool, i, pool.len() as int),
{
    lemma_rank_gap(pool, i, j, pool.len() as int);
}

/// The texts taken as the longest few are at least as long as every text
/// left out of the samples.
pub proof fn lemma_long_picks_are_the_longest(pool: Seq<Seq<char>>, limit: int, i: int, j: int)
    requires
        0 <= i < pool.len(),
        0 <= j < pool.len(),
        rank_of(pool, i, pool.len() as int) < long_quota(pool.len() as int, limit),
        !chosen(pool, limit, j),
    ensures
        pool[j].len() <= pool[i].len(),
{
    if pool[j].len() > pool[i].len() {
        lemma_longer_texts_rank_first(pool, i, j);
    }
}

proof fn lemma_rank_below(pool: Seq<Seq<char>>, i: int, upto: int)
    requires
        0 <= i < pool.len(),
        0 <= upto <= pool.len(),
    ensures
        0 <= rank_of(pool, i, upto) <= upto - if i < upto {
            1int
        } else {
            0int
        },
    decreases upto,
{
    if upto > 0 {
        lemma_rank_below(pool, i, upto - 1);
    }
}

/// The longest three texts, or as many as the limit asks for when that is
/// fewer, are always sampled.
pub proof fn lemma_the_longest_few_are_sampled(pool: Seq<Seq<char>>, limit: int, i: int)
    requires
        0 <= i < pool.len(),
        rank_of(pool, i, pool.len() as int) < 3,
        rank_of(pool, i, pool.len() as int) < limit,
    ensures
        chosen(pool, limit, i),
{
    lemma_rank_below(pool, i, pool.len() as int);
}

/// With any quota at all, a text longer than every other is always sampled.
pub proof fn lemma_the_longest_text_is_sampled(pool: Seq<Seq<char>>, limit: int, i: int)
    requires
        limit >= 1,
        0 <= i < pool.len(),
        forall|k: int| 0 <= k < pool.len() && k != i ==> #[trigger] pool[k].len() < pool[i].len(),
    ensures
        chosen(pool, limit, i),
{
    lemma_rank_zero(pool, i, pool.len() as int);
}

fn holds_text(v: &Vec<String>, s: &String) -> (b: bool)
    ensures
        b == string_views(v@).contains(s@),
{
    let mut i: usize = 0;
    while i < v.len()
        invariant
            i <= v@.len(),
            forall|j: int| 0 <= j < i ==> v@[j]@ != s@,
        decreases v@.len() - i,
    {
        if v[i] == *s {
            assert(string_views(v@)[i as int] == s@);
            return true;
        }
        i += 1;
    }
    proof {
        if string_views(v@).contains(s@) {
            let j = choose|j: int| 0 <= j < string_views(v@).len() && string_views(v@)[j] == s@;
            assert(v@[j]@ == s@);
        }
    }
    false
}

fn pool_texts(rows: &[TextRow]) -> (pool: Vec<String>)
    ensures
        string_views(pool@) == pool_of(rows@),
{
    let mut pool: Vec<String> = Vec::new();
    let mut i: usize = 0;
    while i < rows.len()
        invariant
            i <= rows@.len(),
            string_views(pool@) == pool_of(rows@.take(i as int)),
        decreases rows@.len() - i,
    {
        proof {
            assert(rows@.take(i + 1).drop_last() =~= rows@.take(i as int));
        }
        let row = &rows[i];
        if row.length > 0 {
            match meaningful(row.content.as_str()) {
                Some(text) => {
                    if !holds_text(&pool, &text) {
                        let ghost prev = pool@;
                        pool.push(text);
                        assert(string_views(pool@) =~= string_views(prev).push(text@));
                    }
                },
                None => {},
            }
        }
        i += 1;
    }
    assert(rows@.take(i as int) =~= rows@);
    pool
}

fn char_count(s: &String) -> (n: usize)
    ensures
        n == s@.len(),
{
    chars_of(s.as_str()).len()
}

fn rank_in(lens: &Vec<usize>, i: usize, Ghost(pool): Ghost<Seq<Seq<char>>>) -> (r: usize)
    requires
        i < lens@.len(),
        lens@.len() == pool.len(),
        forall|j: int| 0 <= j < pool.len() ==> lens@[j] == #[trigger] pool[j].len(),
    ensures
        r == rank_of(pool, i as int, pool.len() as int),
{
    let mut r: usize = 0;
    let mut j: usize = 0;
    while j < lens.len()
        invariant
            j <= lens@.len(),
            i < lens@.len(),
            lens@.len() == pool.len(),
            forall|k: int| 0 <= k < pool.len() ==> lens@[k] == #[trigger] pool[k].len(),
            r <= j,
            r == rank_of(pool, i as int, j as int),
        decreases lens@.len() - j,
    {
        assert(lens@[j as int] == pool[j as int].len());
        assert(lens@[i as int] == pool[i as int].len());
        if lens[j] > lens[i] || (lens[j] == lens[i] && j < i) {
            r += 1;
        }
        j += 1;
    }
    r
}

fn holds_index(v: &Vec<usize>, x: usize) -> (b: bool)
    ensures
        b == usize_ints(v@).contains(x as int),
{
    let mut i: usize = 0;
    while i < v.len()
        invariant
            i <= v@.len(),
            forall|j: int| 0 <= j < i ==> v@[j] != x,
        decreases v@.len() - i,
    {
        if v[i] == x {
            assert(usize_ints(v@)[i as int] == x as int);
            return true;
        }
        i += 1;
    }
    proof {
        if usize_ints(v@).contains(x as int) {
            let j = choose|j: int| 0 <= j < usize_ints(v@).len() && usize_ints(v@)[j] == x as int;
            assert(v@[j] == x);
        }
    }
    false
}

/// Picks samples across time: the longest few first — they say the most and
/// show how the person talks when they mean it — then evenly spaced points
/// fill the rest of the quota over the whole time line.
pub fn pick_samples(rows: &[TextRow], limit: usize) -> (out: Vec<String>)
    ensures
        string_views(out@) == samples_of(rows@, limit as int),
{
    if limit == 0 {
        let out: Vec<String> = Vec::new();
        assert(string_views(out@) =~= samples_of(rows@, limit as int));
        return out;
    }
    let pool = pool_texts(rows);
    let ghost texts = string_views(pool@);
    let n = pool.len();
    let mut lens: Vec<usize> = Vec::new();
    let mut i: usize = 0;
    while i < n
        invariant
            i <= n == pool@.len(),
            texts == string_views(pool@),
            lens@.len() == i,
            forall|j: int| 0 <= j < i ==> lens@[j] == #[trigger] texts[j].len(),
        decreases n - i,
    {
        lens.push(char_count(&pool[i]));
        i += 1;
    }
    let quota: usize = if limit < MANDATORY_LONG {
        limit
    } else {
        MANDATORY_LONG
    };
    let quota: usize = if quota < n {
        quota
    } else {
        n
    };
    let fill = limit - quota;
    proof {
        lemma_pool_len(rows@);
    }
    let spots = spread(n, fill);
    let mut picked: Vec<String> = Vec::new();
    let mut k: usize = 0;
    while k < n
        invariant
            k <= n == pool@.len() == lens@.len(),
            texts == string_views(pool@),
            texts == pool_of(rows@),
            forall|j: int| 0 <= j < n ==> lens@[j] == #[trigger] texts[j].len(),
            quota == long_quota(n as int, limit as int),
            fill == limit - quota,
            usize_ints(spots@) == spread_spec(n as int, fill as int),
            string_views(picked@) == chosen_upto(texts, limit as int, k as int),
        decreases n - k,
    {
        let rank = rank_in(&lens, k, Ghost(texts));
        let keep = rank < quota || holds_index(&spots, k);
        if keep {
            let ghost prev = picked@;
            let text = pool[k].clone();
            picked.push(text);
            assert(string_views(picked@) =~= string_views(prev).push(texts[k as int]));
        }
        k += 1;
    }
    truncate_samples(picked)
}

// ==================== mentions ====================

/// The opening of a mention marker, `[@`.
pub open spec fn open_mark() -> Seq<char> {
    seq!['[', '@']
}

pub open spec fn close_mark() -> Seq<char> {
    seq![']']
}

/// The people named by `[@QQ]` markers from `pos` on, added to `acc`: the
/// text between `[@` and the next `]`, trimmed, must read as a positive
/// integer; each person counts once.
pub open spec fn mention_scan(s: Seq<char>, pos: int, acc: Seq<i64>) -> Seq<i64>
    decreases s.len() + 1 - pos,
{
    if pos < 0 || pos > s.len() {
        acc
    } else {
        match index_from(s, open_mark(), pos) {
            None => acc,
            Some(start) => match index_from(s, close_mark(), start + 2) {
                None => acc,
                Some(end) => {
                    proof {
                        lemma_index_from_bounds(s, open_mark(), pos);
                        lemma_index_from_bounds(s, close_mark(), start + 2);
                    }
                    let next = match parses_i64(trim(s.subrange(start + 2, end))) {
                        Some(q) => if q > 0 && !acc.contains(q as i64) {
                            acc.push(q as i64)
                        } else {
                            acc
                        },
                        None => acc,
                    };
                    mention_scan(s, end, next)
                },
            },
        }
    }
}

fn holds_i64(v: &Vec<i64>, x: i64) -> (b: bool)
    ensures
        b == v@.contains(x),
{
    let mut i: usize = 0;
    while i < v.len()
        invariant
            i <= v@.len(),
            forall|j: int| 0 <= j < i ==> v@[j] != x,
        decreases v@.len() - i,
    {
        if v[i] == x {
            return true;
        }
        i += 1;
    }
    false
}

/// The people a rich text names with `[@QQ]`, each once, in order.
pub fn mentions(content: &str) -> (out: Vec<i64>)
    ensures
        out@ == mention_scan(content@, 0, seq![]),
{
    let s = chars_of(content);
    let open: Vec<char> = vec!['[', '@'];
    let close: Vec<char> = vec![']'];
    let mut out: Vec<i64> = Vec::new();
    let mut pos: usize = 0;
    let total = s.len();
    loop
        invariant
            pos <= s@.len(),
            total == s@.len(),
            s@ == content@,
            open@ == open_mark(),
            close@ == close_mark(),
            mention_scan(s@, 0, seq![]) == mention_scan(s@, pos as int, out@),
        decreases s@.len() - pos,
    {
        match find_index(&s, &open, pos) {
            None => {
                return out;
            },
            Some(start) => {
                proof {
                    lemma_index_from_bounds(s@, open@, pos as int);
                    assert(open@.len() == 2);
                    assert(start + 2 <= s@.len());
                }
                match find_index(&s, &close, start + 2) {
                    None => {
                        return out;
                    },
                    Some(end) => {
                        proof {
                            lemma_index_from_bounds(s@, close@, start + 2);
                        }
                        let body = trimmed(&crate::text::slice_chars(&s, start + 2, end));
                        match parse_i64(&body) {
                            Some(q) => {
                                if q > 0 && !holds_i64(&out, q) {
                                    out.push(q);
                                }
                            },
                            None => {},
                        }
                        pos = end;
                    },
                }
            },
        }
    }
}

/// The text with its `[@QQ]` markers taken out, from `pos` on. A bracket
/// that does not hold a number stays as it is.
pub open spec fn strip_scan(s: Seq<char>, pos: int) -> Seq<char>
    decreases s.len() + 1 - pos,
{
    if pos < 0 || pos > s.len() {
        seq![]
    } else {
        match index_from(s, open_mark(), pos) {
            None => s.subrange(pos, s.len() as int),
            Some(start) => {
                proof {
                    lemma_index_from_bounds(s, open_mark(), pos);
                    lemma_index_from_bounds(s, close_mark(), start + 2);
                }
                s.subrange(pos, start) + match index_from(s, close_mark(), start + 2) {
                    Some(end) => if parses_i64(trim(s.subrange(start + 2, end))) is Some {
                        strip_scan(s, end + 1)
                    } else {
                        open_mark() + strip_scan(s, start + 2)
                    },
                    None => open_mark() + strip_scan(s, start + 2),
                }
            },
        }
    }
}

fn append_range(out: &mut Vec<char>, s: &Vec<char>, from: usize, to: usize)
    requires
        from <= to <= s@.len(),
    ensures
        final(out)@ == old(out)@ + s@.subrange(from as int, to as int),
{
    let ghost before = out@;
    let mut k: usize = from;
    while k < to
        invariant
            from <= k <= to <= s@.len(),
            out@ == before + s@.subrange(from as int, k as int),
        decreases to - k,
    {
        out.push(s[k]);
        k += 1;
        assert(out@ =~= before + s@.subrange(from as int, k as int));
    }
}

/// Where the text resumes after the marker opened at `start`: past its `]`
/// when it holds a number, `None` when it does not.
fn numbered_end(s: &Vec<char>, close: &Vec<char>, start: usize) -> (r: Option<usize>)
    requires
        start + 2 <= s@.len(),
        close@ == close_mark(),
    ensures
        match r {
            Some(next) => index_from(s@, close_mark(), start + 2) == Some(next - 1) && parses_i64(
                trim(s@.subrange(start + 2, next - 1)),
            ) is Some && next <= s@.len() && next >= start + 3,
            None => !(index_from(s@, close_mark(), start + 2) matches Some(end) && parses_i64(
                trim(s@.subrange(start + 2, end)),
            ) is Some),
        },
{
    let total = s.len();
    match find_index(s, close, start + 2) {
        Some(end) => {
            proof {
                lemma_index_from_bounds(s@, close@, start + 2);
            }
            let body = trimmed(&crate::text::slice_chars(s, start + 2, end));
            if parse_i64(&body).is_some() {
                Some(end + 1)
            } else {
                None
            }
        },
        None => None,
    }
}

/// Takes the `[@QQ]` markers out and keeps the words: a number means nothing
/// to the model and reads like part of the text.
pub fn strip_at_markers(content: &str) -> (out: String)
    ensures
        out@ == strip_scan(content@, 0),
{
    let s = chars_of(content);
    let open: Vec<char> = vec!['[', '@'];
    let close: Vec<char> = vec![']'];
    let mut out: Vec<char> = Vec::new();
    let mut pos: usize = 0;
    let total = s.len();
    loop
        invariant
            pos <= s@.len(),
            total == s@.len(),
            s@ == content@,
            open@ == open_mark(),
            close@ == close_mark(),
            strip_scan(s@, 0) == out@ + strip_scan(s@, pos as int),
        decreases s@.len() - pos,
    {
        let ghost before = out@;
        match find_index(&s, &open, pos) {
            None => {
                append_range(&mut out, &s, pos, total);
                assert(strip_scan(s@, pos as int) == s@.subrange(pos as int, s@.len() as int));
                return string_of(&out);
            },
            Some(start) => {
                proof {
                    lemma_index_from_bounds(s@, open@, pos as int);
                    assert(open@.len() == 2);
                }
                append_range(&mut out, &s, pos, start);
                let ghost head = out@;
                let next = match numbered_end(&s, &close, start) {
                    Some(next) => next,
                    None => {
                        out.push('[');
                        out.push('@');
                        assert(out@ =~= head + open_mark());
                        start + 2
                    },
                };
                assert(strip_scan(s@, pos as int) == s@.subrange(pos as int, start as int) + strip_scan(s@, next as int)
                    || strip_scan(s@, pos as int) == s@.subrange(pos as int, start as int) + (open_mark() + strip_scan(s@, next as int)));
                assert(strip_scan(s@, 0) == out@ + strip_scan(s@, next as int));
                pos = next;
            },
        }
    }
}

/// The marker that names `partner`: `[@` + the number + `]`.
pub open spec fn marker_of(partner: i64) -> Seq<char> {
    open_mark() + crate::text::signed_decimal(partner as int) + close_mark()
}

/// What I said to `partner`, at most two distinct lines of at most sixty
/// characters, markers removed, newest first.
pub open spec fn said_scan(rows: Seq<TextRow>, partner: i64) -> Seq<Seq<char>>
    decreases rows.len(),
{
    if rows.len() == 0 {
        seq![]
    } else {
        let prev = said_scan(rows.drop_last(), partner);
        let row = rows.last();
        let t = trim(strip_scan(row.content@, 0));
        let c = if t.len() <= 60 {
            t
        } else {
            t.take(60)
        };
        if prev.len() >= 2 || !contains(row.content@, marker_of(partner)) || t.len() == 0
            || prev.contains(c) {
            prev
        } else {
            prev.push(c)
        }
    }
}

/// The lines I addressed to a partner, for the model to read the tone by.
pub fn said_to(partner: i64, own_rows: &[TextRow]) -> (out: Vec<String>)
    ensures
        string_views(out@) == said_scan(own_rows@, partner),
{
    let mut mark: Vec<char> = vec!['[', '@'];
    let digits = chars_of(i64_text(partner).as_str());
    let mut k: usize = 0;
    while k < digits.len()
        invariant
            k <= digits@.len(),
            mark@ == open_mark() + digits@.take(k as int),
        decreases digits@.len() - k,
    {
        mark.push(digits[k]);
        k += 1;
        assert(mark@ =~= open_mark() + digits@.take(k as int));
    }
    mark.push(']');
    assert(digits@.take(k as int) =~= digits@);
    assert(mark@ =~= marker_of(partner));
    let mut out: Vec<String> = Vec::new();
    let mut i: usize = 0;
    while i < own_rows.len()
        invariant
            i <= own_rows@.len(),
            mark@ == marker_of(partner),
            string_views(out@) == said_scan(own_rows@.take(i as int), partner),
        decreases own_rows@.len() - i,
    {
        proof {
            assert(own_rows@.take(i + 1).drop_last() =~= own_rows@.take(i as int));
        }
        let row = &own_rows[i];
        if out.len() < TIE_SAMPLES && contains_chars(&chars_of(row.content.as_str()), &mark) {
            let stripped = strip_at_markers(row.content.as_str());
            let t = trim_str(stripped.as_str());
            if t.len() > 0 {
                let c = string_of(&take_chars(&t, TIE_SAMPLE_CHARS));
                assert(c@ =~= (if t@.len() <= 60 {
                    t@
                } else {
                    t@.take(60)
                }));
                if !holds_text(&out, &c) {
                    let ghost prev = out@;
                    out.push(c);
                    assert(string_views(out@) =~= string_views(prev).push(c@));
                }
            }
        }
        i += 1;
    }
    assert(own_rows@.take(i as int) =~= own_rows@);
    out
}

/// The name someone goes by: the group card when there is one, otherwise the
/// nickname; both trimmed.
pub fn pick_name(nick: &str, user_name: &str) -> (name: String)
    ensures
        name@ == if trim(nick@).len() > 0 {
            trim(nick@)
        } else {
            trim(user_name@)
        },
{
    let n = trim_str(nick);
    if n.len() > 0 {
        string_of(&n)
    } else {
        string_of(&trim_str(user_name))
    }
}

/// One person's running counts in the stream.
#[derive(Debug, Default, Clone, Copy)]
pub struct TieAccum {
    pub at_out: u64,
    pub at_in: u64,
    pub turn_out: u64,
    pub turn_in: u64,
    pub last_time: i64,
}

impl TieAccum {
    /// Marks a meeting at `time`; the latest meeting is kept.
    pub fn touch(&mut self, time: i64)
        ensures
            final(self).last_time == if time > old(self).last_time {
                time
            } else {
                old(self).last_time
            },
            final(self).at_out == old(self).at_out,
            final(self).at_in == old(self).at_in,
            final(self).turn_out == old(self).turn_out,
            final(self).turn_in == old(self).turn_in,
    {
        if time > self.last_time {
            self.last_time = time;
        }
    }

    pub fn weight(&self) -> (n: u64)
        requires
            self.at_out + self.at_in + self.turn_out + self.turn_in <= u64::MAX,
        ensures
            n == self.at_out + self.at_in + self.turn_out + self.turn_in,
    {
        self.at_out + self.at_in + self.turn_out + self.turn_in
    }
}

// ==================== ties ====================

/// A record in a group's stream: who said it, where, when, under which
/// names, with which rich text.
#[derive(Debug, Clone)]
pub struct StreamRow {
    pub group_id: i64,
    pub user_id: i64,
    pub time: i64,
    pub sender_nick: String,
    pub user_name: String,
    pub content: String,
}

/// The next message answers the one before: same group, another person,
/// within two minutes.
pub open spec fn turn_between(before: StreamRow, after: StreamRow) -> bool {
    before.group_id == after.group_id && before.user_id != after.user_id && after.time - before.time
        <= TURN_WINDOW
}

/// Among the first `n` records: how often `target` answered `u`.
pub open spec fn turns_out(s: Seq<StreamRow>, target: i64, u: i64, n: int) -> nat
    decreases n,
{
    if n <= 1 {
        0
    } else {
        turns_out(s, target, u, n - 1) + if turn_between(s[n - 2], s[n - 1]) && s[n - 1].user_id
            == target && s[n - 2].user_id == u && u != target {
            1nat
        } else {
            0nat
        }
    }
}

/// Among the first `n` records: how often `u` answered `target`.
pub open spec fn turns_in(s: Seq<StreamRow>, target: i64, u: i64, n: int) -> nat
    decreases n,
{
    if n <= 1 {
        0
    } else {
        turns_in(s, target, u, n - 1) + if turn_between(s[n - 2], s[n - 1]) && s[n - 2].user_id
            == target && s[n - 1].user_id == u && u != target {
            1nat
        } else {
            0nat
        }
    }
}

/// The time of the last turn between the two among the first `n` records;
/// 0 before any.
pub open spec fn turn_last(s: Seq<StreamRow>, target: i64, u: i64, n: int) -> int
    decreases n,
{
    if n <= 1 {
        0
    } else {
        let p = turn_last(s, target, u, n - 1);
        let b = s[n - 2];
        let a = s[n - 1];
        if turn_between(b, a) && u != target && ((a.user_id == target && b.user_id == u) || (
        b.user_id == target && a.user_id == u)) && a.time > p {
            a.time as int
        } else {
            p
        }
    }
}

/// The people a record names.
pub open spec fn named_in(row: StreamRow) -> Seq<i64> {
    mention_scan(row.content@, 0, seq![])
}

/// Among the first `n` records: how often `target` named `u`.
pub open spec fn ats_out(s: Seq<StreamRow>, target: i64, u: i64, n: int) -> nat
    decreases n,
{
    if n <= 0 {
        0
    } else {
        ats_out(s, target, u, n - 1) + if s[n - 1].user_id == target && u != target && named_in(
            s[n - 1],
        ).contains(u) {
            1nat
        } else {
            0nat
        }
    }
}

/// Among the first `n` records: how often `u` named `target`.
pub open spec fn ats_in(s: Seq<StreamRow>, target: i64, u: i64, n: int) -> nat
    decreases n,
{
    if n <= 0 {
        0
    } else {
        ats_in(s, target, u, n - 1) + if s[n - 1].user_id == u && u != target && named_in(
            s[n - 1],
        ).contains(target) {
            1nat
        } else {
            0nat
        }
    }
}

/// The time of the last mention between the two among the first `n` records,
/// or `floor` when later.
pub open spec fn at_last(s: Seq<StreamRow>, target: i64, u: i64, n: int, floor: int) -> int
    decreases n,
{
    if n <= 0 {
        floor
    } else {
        let p = at_last(s, target, u, n - 1, floor);
        let r = s[n - 1];
        if u != target && ((r.user_id == target && named_in(r).contains(u)) || (r.user_id == u
            && named_in(r).contains(target))) && r.time > p {
            r.time as int
        } else {
            p
        }
    }
}

/// The account between `target` and `u` over the whole stream: mentions out
/// and in, turns out and in, and the last time they met (0 before any).
pub open spec fn account(s: Seq<StreamRow>, target: i64, u: i64) -> (nat, nat, nat, nat, int) {
    (
        ats_out(s, target, u, s.len() as int),
        ats_in(s, target, u, s.len() as int),
        turns_out(s, target, u, s.len() as int),
        turns_in(s, target, u, s.len() as int),
        at_last(s, target, u, s.len() as int, turn_last(s, target, u, s.len() as int)),
    )
}

/// The two ever met in the stream.
pub open spec fn met(s: Seq<StreamRow>, target: i64, u: i64) -> bool {
    let a = account(s, target, u);
    a.0 + a.1 + a.2 + a.3 > 0
}

pub open spec fn accum_view(a: TieAccum) -> (nat, nat, nat, nat, int) {
    (a.at_out as nat, a.at_in as nat, a.turn_out as nat, a.turn_in as nat, a.last_time as int)
}

pub open spec fn distinct_users(v: Seq<(i64, TieAccum)>) -> bool {
    forall|i: int, j: int| 0 <= i < j < v.len() ==> #[trigger] v[i].0 != #[trigger] v[j].0
}

fn slot_of(acc: &Vec<(i64, TieAccum)>, user: i64) -> (r: Option<usize>)
    ensures
        match r {
            Some(i) => i < acc@.len() && acc@[i as int].0 == user,
            None => forall|j: int| 0 <= j < acc@.len() ==> acc@[j].0 != user,
        },
{
    let mut i: usize = 0;
    while i < acc.len()
        invariant
            i <= acc@.len(),
            forall|j: int| 0 <= j < i ==> acc@[j].0 != user,
        decreases acc@.len() - i,
    {
        if acc[i].0 == user {
            return Some(i);
        }
        i += 1;
    }
    None
}

proof fn lemma_mention_scan_distinct(s: Seq<char>, pos: int, acc: Seq<i64>)
    requires
        forall|i: int, j: int| 0 <= i < j < acc.len() ==> acc[i] != acc[j],
    ensures
        forall|i: int, j: int|
            0 <= i < j < mention_scan(s, pos, acc).len() ==> mention_scan(s, pos, acc)[i]
                != mention_scan(s, pos, acc)[j],
    decreases s.len() + 1 - pos,
{
    if 0 <= pos <= s.len() {
        match index_from(s, open_mark(), pos) {
            None => {
                assert(mention_scan(s, pos, acc) == acc);
            },
            Some(start) => match index_from(s, close_mark(), start + 2) {
                None => {
                    assert(mention_scan(s, pos, acc) == acc);
                },
                Some(end) => {
                    lemma_index_from_bounds(s, open_mark(), pos);
                    lemma_index_from_bounds(s, close_mark(), start + 2);
                    let next = match parses_i64(trim(s.subrange(start + 2, end))) {
                        Some(q) => if q > 0 && !acc.contains(q as i64) {
                            acc.push(q as i64)
                        } else {
                            acc
                        },
                        None => acc,
                    };
                    assert forall|i: int, j: int| 0 <= i < j < next.len() implies next[i] != next[j] by {
                        if next.len() > acc.len() {
                            if j == acc.len() {
                                assert(next[i] == acc[i]);
                                assert(!acc.contains(next[j]));
                            } else {
                                assert(next[i] == acc[i] && next[j] == acc[j]);
                            }
                        }
                    }
                    lemma_mention_scan_distinct(s, end, next);
                    assert(mention_scan(s, pos, acc) == mention_scan(s, end, next));
                },
            },
        }
    } else {
        assert(mention_scan(s, pos, acc) == acc);
    }
}

proof fn lemma_no_turns_no_time(s: Seq<StreamRow>, target: i64, u: i64, n: int)
    requires
        turns_out(s, target, u, n) + turns_in(s, target, u, n) == 0,
    ensures
        turn_last(s, target, u, n) == 0,
    decreases n,
{
    if n > 1 {
        lemma_no_turns_no_time(s, target, u, n - 1);
    }
}

proof fn lemma_no_ats_no_time(s: Seq<StreamRow>, target: i64, u: i64, n: int, floor: int)
    requires
        ats_out(s, target, u, n) + ats_in(s, target, u, n) == 0,
    ensures
        at_last(s, target, u, n, floor) == floor,
    decreases n,
{
    if n > 0 {
        lemma_no_ats_no_time(s, target, u, n - 1, floor);
    }
}

/// The turn counts of every person, pair by pair.
fn tally_turns(stream: &[StreamRow], target: i64) -> (acc: Vec<(i64, TieAccum)>)
    ensures
        distinct_users(acc@),
        forall|i: int|
            0 <= i < acc@.len() ==> {
                let (u, a) = #[trigger] acc@[i];
                &&& a.turn_out == turns_out(stream@, target, u, stream@.len() as int)
                &&& a.turn_in == turns_in(stream@, target, u, stream@.len() as int)
                &&& a.last_time == turn_last(stream@, target, u, stream@.len() as int)
                &&& a.at_out == 0
                &&& a.at_in == 0
                &&& turns_out(stream@, target, u, stream@.len() as int) + turns_in(
                    stream@,
                    target,
                    u,
                    stream@.len() as int,
                ) > 0
            },
        forall|u: i64|
            turns_out(stream@, target, u, stream@.len() as int) + turns_in(
                stream@,
                target,
                u,
                stream@.len() as int,
            ) > 0 ==> exists|i: int| 0 <= i < acc@.len() && acc@[i].0 == u,
{
    let ghost s = stream@;
    let mut acc: Vec<(i64, TieAccum)> = Vec::new();
    let n = stream.len();
    if n == 0 {
        return acc;
    }
    let mut k: usize = 1;
    while k < n
        invariant
            1 <= k <= n == s.len(),
            s == stream@,
            distinct_users(acc@),
            forall|i: int|
                0 <= i < acc@.len() ==> {
                    let (u, a) = #[trigger] acc@[i];
                    &&& a.turn_out == turns_out(s, target, u, k as int)
                    &&& a.turn_in == turns_in(s, target, u, k as int)
                    &&& a.last_time == turn_last(s, target, u, k as int)
                    &&& a.at_out == 0
                    &&& a.at_in == 0
                    &&& turns_out(s, target, u, k as int) + turns_in(s, target, u, k as int) > 0
                    &&& a.turn_out < k
                    &&& a.turn_in < k
                },
            forall|u: i64|
                turns_out(s, target, u, k as int) + turns_in(s, target, u, k as int) > 0
                    ==> exists|i: int| 0 <= i < acc@.len() && acc@[i].0 == u,
        decreases n - k,
    {
        let before = &stream[k - 1];
        let after = &stream[k];
        let gap = after.time as i128 - before.time as i128;
        let turn = before.group_id == after.group_id && before.user_id != after.user_id && gap
            <= TURN_WINDOW as i128;
        let outgoing = turn && after.user_id == target && before.user_id != target;
        let incoming = turn && before.user_id == target && after.user_id != target;
        let partner = if outgoing {
            before.user_id
        } else {
            after.user_id
        };
        let ghost old_acc = acc@;
        let ghost kk = (k + 1) as int;
        assert(s[kk - 2] == *before && s[kk - 1] == *after);
        assert(turn == turn_between(*before, *after));
        if outgoing || incoming {
            match slot_of(&acc, partner) {
                Some(i0) => {
                    let mut a = acc[i0].1;
                    if outgoing {
                        a.turn_out = a.turn_out + 1;
                    } else {
                        a.turn_in = a.turn_in + 1;
                    }
                    a.touch(after.time);
                    acc.set(i0, (partner, a));
                },
                None => {
                    proof {
                        lemma_no_turns_no_time(s, target, partner, k as int);
                    }
                    let mut a = TieAccum { at_out: 0, at_in: 0, turn_out: 0, turn_in: 0, last_time: 0 };
                    if outgoing {
                        a.turn_out = 1;
                    } else {
                        a.turn_in = 1;
                    }
                    a.touch(after.time);
                    acc.push((partner, a));
                },
            }
        }
        proof {
            assert forall|i: int, j: int| 0 <= i < j < acc@.len() implies #[trigger] acc@[i].0
                != #[trigger] acc@[j].0 by {
                if j < old_acc.len() {
                    assert(acc@[i].0 == old_acc[i].0 && acc@[j].0 == old_acc[j].0);
                } else {
                    assert(acc@[i].0 == old_acc[i].0);
                }
            }
            assert forall|i: int| 0 <= i < acc@.len() implies {
                let (u, a) = #[trigger] acc@[i];
                &&& a.turn_out == turns_out(s, target, u, kk)
                &&& a.turn_in == turns_in(s, target, u, kk)
                &&& a.last_time == turn_last(s, target, u, kk)
                &&& a.at_out == 0
                &&& a.at_in == 0
                &&& turns_out(s, target, u, kk) + turns_in(s, target, u, kk) > 0
                &&& a.turn_out < kk
                &&& a.turn_in < kk
            } by {
                if i < old_acc.len() && !((outgoing || incoming) && old_acc[i].0 == partner) {
                    assert(acc@[i] == old_acc[i]);
                }
            }
            assert forall|u: i64|
                turns_out(s, target, u, kk) + turns_in(s, target, u, kk) > 0 implies exists|i: int|
                0 <= i < acc@.len() && acc@[i].0 == u by {
                if turns_out(s, target, u, k as int) + turns_in(s, target, u, k as int) > 0 {
                    let i = choose|i: int| 0 <= i < old_acc.len() && old_acc[i].0 == u;
                    assert(acc@[i].0 == u);
                } else {
                    assert(u == partner && (outgoing || incoming));
                    if slot_of_found(old_acc, partner) {
                        let i = choose|i: int| 0 <= i < old_acc.len() && old_acc[i].0 == partner;
                        assert(acc@[i].0 == u);
                    } else {
                        assert(acc@[old_acc.len() as int].0 == u);
                    }
                }
            }
        }
        k += 1;
    }
    acc
}

pub open spec fn slot_of_found(v: Seq<(i64, TieAccum)>, user: i64) -> bool {
    exists|i: int| 0 <= i < v.len() && v[i].0 == user
}

proof fn lemma_ats_bounded(s: Seq<StreamRow>, target: i64, u: i64, n: int)
    requires
        0 <= n,
    ensures
        ats_out(s, target, u, n) <= n,
        ats_in(s, target, u, n) <= n,
    decreases n,
{
    if n > 0 {
        lemma_ats_bounded(s, target, u, n - 1);
    }
}

/// The mention part of one record for `u`, over the first `q` people it names.
pub open spec fn names_out(row: StreamRow, ms: Seq<i64>, target: i64, u: i64, q: int) -> bool {
    row.user_id == target && u != target && ms.take(q).contains(u)
}

pub open spec fn names_in(row: StreamRow, ms: Seq<i64>, target: i64, u: i64, q: int) -> bool {
    row.user_id == u && u != target && ms.take(q).contains(target)
}

/// Adds the mentions to the turn tally, record by record.
pub fn tally_ties(stream: &[StreamRow], target: i64) -> (acc: Vec<(i64, TieAccum)>)
    ensures
        distinct_users(acc@),
        forall|i: int|
            0 <= i < acc@.len() ==> accum_view(#[trigger] acc@[i].1) == account(
                stream@,
                target,
                acc@[i].0,
            ) && met(stream@, target, acc@[i].0),
        forall|u: i64| #[trigger] met(stream@, target, u) ==> exists|i: int|
            0 <= i < acc@.len() && acc@[i].0 == u,
{
    let ghost s = stream@;
    let ghost len = s.len() as int;
    let mut acc = tally_turns(stream, target);
    let n = stream.len();
    let mut k: usize = 0;
    while k < n
        invariant
            k <= n == s.len() == len,
            s == stream@,
            distinct_users(acc@),
            forall|i: int|
                0 <= i < acc@.len() ==> {
                    let (u, a) = #[trigger] acc@[i];
                    &&& a.turn_out == turns_out(s, target, u, len)
                    &&& a.turn_in == turns_in(s, target, u, len)
                    &&& a.at_out == ats_out(s, target, u, k as int)
                    &&& a.at_in == ats_in(s, target, u, k as int)
                    &&& a.last_time == at_last(s, target, u, k as int, turn_last(s, target, u, len))
                    &&& turns_out(s, target, u, len) + turns_in(s, target, u, len) + ats_out(s, target, u, k as int)
                        + ats_in(s, target, u, k as int) > 0
                    &&& a.at_out <= k
                    &&& a.at_in <= k
                },
            forall|u: i64|
                #![trigger turns_out(s, target, u, len)]
                turns_out(s, target, u, len) + turns_in(s, target, u, len) + ats_out(s, target, u, k as int)
                    + ats_in(s, target, u, k as int) > 0 ==> exists|i: int|
                    0 <= i < acc@.len() && acc@[i].0 == u,
        decreases n - k,
    {
        let row = &stream[k];
        assert(s[k as int] == *row);
        let ms = mentions(row.content.as_str());
        proof {
            lemma_mention_scan_distinct(row.content@, 0, seq![]);
        }
        let ghost start = acc@;
        let mut q: usize = 0;
        while q < ms.len()
            invariant
                q <= ms@.len(),
                k < n == s.len() == len,
                s == stream@,
                s[k as int] == *row,
                ms@ == named_in(*row),
                forall|i: int, j: int| 0 <= i < j < ms@.len() ==> ms@[i] != ms@[j],
                distinct_users(acc@),
                forall|i: int|
                    0 <= i < acc@.len() ==> {
                        let (u, a) = #[trigger] acc@[i];
                        let p = at_last(s, target, u, k as int, turn_last(s, target, u, len));
                        let hit = names_out(*row, ms@, target, u, q as int) || names_in(*row, ms@, target, u, q as int);
                        &&& a.turn_out == turns_out(s, target, u, len)
                        &&& a.turn_in == turns_in(s, target, u, len)
                        &&& a.at_out == ats_out(s, target, u, k as int) + if names_out(*row, ms@, target, u, q as int) {
                            1nat
                        } else {
                            0nat
                        }
                        &&& a.at_in == ats_in(s, target, u, k as int) + if names_in(*row, ms@, target, u, q as int) {
                            1nat
                        } else {
                            0nat
                        }
                        &&& a.last_time == if hit && row.time > p {
                            row.time as int
                        } else {
                            p
                        }
                        &&& turns_out(s, target, u, len) + turns_in(s, target, u, len) + ats_out(s, target, u, k as int)
                            + ats_in(s, target, u, k as int) + (if hit { 1int } else { 0int }) > 0
                        &&& a.at_out <= k + 1
                        &&& a.at_in <= k + 1
                    },
                forall|u: i64|
                    #![trigger turns_out(s, target, u, len)]
                    turns_out(s, target, u, len) + turns_in(s, target, u, len) + ats_out(s, target, u, k as int)
                        + ats_in(s, target, u, k as int) > 0 || names_out(*row, ms@, target, u, q as int)
                        || names_in(*row, ms@, target, u, q as int) ==> exists|i: int|
                        0 <= i < acc@.len() && acc@[i].0 == u,
            decreases ms@.len() - q,
        {
            let m = ms[q];
            let ghost old_acc = acc@;
            let ghost qq = (q + 1) as int;
            assert(ms@.take(qq) =~= ms@.take(q as int).push(m));
            assert(!ms@.take(q as int).contains(m)) by {
                if ms@.take(q as int).contains(m) {
                    let j = choose|j: int| 0 <= j < q && ms@.take(q as int)[j] == m;
                    assert(ms@[j] == ms@[q as int]);
                }
            }
            let outgoing = row.user_id == target && m != target;
            let incoming = row.user_id != target && m == target;
            let partner = if outgoing {
                m
            } else {
                row.user_id
            };
            if outgoing || incoming {
                proof {
                        lemma_ats_bounded(s, target, partner, k as int);
                }
                match slot_of(&acc, partner) {
                    Some(i0) => {
                        let mut a = acc[i0].1;
                        proof {
                            assert(!names_out(*row, ms@, target, partner, q as int));
                            assert(!names_in(*row, ms@, target, partner, q as int)) by {
                                if names_in(*row, ms@, target, partner, q as int) {
                                    assert(ms@.take(q as int).contains(target));
                                    assert(m == target);
                                }
                            }
                        }
                        if outgoing {
                            a.at_out = a.at_out + 1;
                        } else {
                            a.at_in = a.at_in + 1;
                        }
                        a.touch(row.time);
                        acc.set(i0, (partner, a));
                    },
                    None => {
                        proof {
                            if turns_out(s, target, partner, len) + turns_in(s, target, partner, len)
                                + ats_out(s, target, partner, k as int) + ats_in(s, target, partner, k as int) > 0 {
                                let i = choose|i: int| 0 <= i < acc@.len() && acc@[i].0 == partner;
                                assert(false);
                            }
                            lemma_no_turns_no_time(s, target, partner, len);
                            lemma_no_ats_no_time(s, target, partner, k as int, turn_last(s, target, partner, len));
                        }
                        let mut a = TieAccum { at_out: 0, at_in: 0, turn_out: 0, turn_in: 0, last_time: 0 };
                        if outgoing {
                            a.at_out = 1;
                        } else {
                            a.at_in = 1;
                        }
                        a.touch(row.time);
                        acc.push((partner, a));
                    },
                }
            }
            proof {
                assert forall|i: int, j: int| 0 <= i < j < acc@.len() implies #[trigger] acc@[i].0
                    != #[trigger] acc@[j].0 by {
                    if j < old_acc.len() {
                        assert(acc@[i].0 == old_acc[i].0 && acc@[j].0 == old_acc[j].0);
                    } else {
                        assert(acc@[i].0 == old_acc[i].0);
                    }
                }
                assert forall|i: int| 0 <= i < acc@.len() && !((outgoing || incoming) && acc@[i].0 == partner) implies
                    #[trigger] acc@[i] == old_acc[i] by {}
                assert forall|u: i64| u != partner || !(outgoing || incoming) implies
                    names_out(*row, ms@, target, u, qq) == names_out(*row, ms@, target, u, q as int)
                    && names_in(*row, ms@, target, u, qq) == names_in(*row, ms@, target, u, q as int) by {
                    if names_out(*row, ms@, target, u, qq) {
                        assert(ms@.take(qq).contains(u));
                        if !ms@.take(q as int).contains(u) {
                            assert(u == m);
                        }
                    }
                    if names_in(*row, ms@, target, u, qq) {
                        if !ms@.take(q as int).contains(target) {
                            assert(m == target);
                        }
                    }
                    if names_out(*row, ms@, target, u, q as int) {
                        let j = choose|j: int| 0 <= j < q && ms@.take(q as int)[j] == u;
                        assert(ms@.take(qq)[j] == u);
                    }
                    if names_in(*row, ms@, target, u, q as int) {
                        let j = choose|j: int| 0 <= j < q && ms@.take(q as int)[j] == target;
                        assert(ms@.take(qq)[j] == target);
                    }
                }
                if outgoing || incoming {
                    assert(ms@.take(qq)[q as int] == m);
                    if outgoing {
                        assert(names_out(*row, ms@, target, partner, qq));
                        assert(!names_out(*row, ms@, target, partner, q as int));
                        assert(!names_in(*row, ms@, target, partner, qq));
                        assert(!names_in(*row, ms@, target, partner, q as int));
                    } else {
                        assert(names_in(*row, ms@, target, partner, qq));
                        assert(!names_in(*row, ms@, target, partner, q as int));
                        assert(!names_out(*row, ms@, target, partner, qq));
                        assert(!names_out(*row, ms@, target, partner, q as int));
                    }
                }
                assert forall|u: i64|
                    turns_out(s, target, u, len) + turns_in(s, target, u, len) + ats_out(s, target, u, k as int)
                        + ats_in(s, target, u, k as int) > 0 || names_out(*row, ms@, target, u, qq)
                        || names_in(*row, ms@, target, u, qq) implies exists|i: int|
                        0 <= i < acc@.len() && acc@[i].0 == u by {
                    if (outgoing || incoming) && u == partner {
                        if slot_of_found(old_acc, partner) {
                            let i = choose|i: int| 0 <= i < old_acc.len() && old_acc[i].0 == partner;
                            assert(acc@[i].0 == u);
                        } else {
                            assert(acc@[old_acc.len() as int].0 == u);
                        }
                    } else {
                        let i = choose|i: int| 0 <= i < old_acc.len() && old_acc[i].0 == u;
                        assert(acc@[i].0 == u);
                    }
                }
            }
            q += 1;
        }
        proof {
            let kk = (k + 1) as int;
            assert(ms@.take(ms@.len() as int) =~= ms@);
            assert forall|u: i64| #![trigger ats_out(s, target, u, kk)]
                ats_out(s, target, u, kk) == ats_out(s, target, u, k as int) + (if names_out(*row, ms@, target, u, ms@.len() as int) { 1nat } else { 0nat })
                && ats_in(s, target, u, kk) == ats_in(s, target, u, k as int) + (if names_in(*row, ms@, target, u, ms@.len() as int) { 1nat } else { 0nat })
                && at_last(s, target, u, kk, turn_last(s, target, u, len)) == (if (names_out(*row, ms@, target, u, ms@.len() as int) || names_in(*row, ms@, target, u, ms@.len() as int)) && row.time > at_last(s, target, u, k as int, turn_last(s, target, u, len)) {
                    row.time as int
                } else {
                    at_last(s, target, u, k as int, turn_last(s, target, u, len))
                }) by {}
            assert forall|i: int| 0 <= i < acc@.len() implies {
                let (u, a) = #[trigger] acc@[i];
                &&& a.turn_out == turns_out(s, target, u, len)
                &&& a.turn_in == turns_in(s, target, u, len)
                &&& a.at_out == ats_out(s, target, u, kk)
                &&& a.at_in == ats_in(s, target, u, kk)
                &&& a.last_time == at_last(s, target, u, kk, turn_last(s, target, u, len))
                &&& turns_out(s, target, u, len) + turns_in(s, target, u, len) + ats_out(s, target, u, kk)
                    + ats_in(s, target, u, kk) > 0
                &&& a.at_out <= kk
                &&& a.at_in <= kk
            } by {
                let u = acc@[i].0;
                assert(ats_out(s, target, u, kk) == ats_out(s, target, u, k as int) + (if names_out(*row, ms@, target, u, ms@.len() as int) { 1nat } else { 0nat }));
            }
            assert forall|u: i64|
                turns_out(s, target, u, len) + turns_in(s, target, u, len) + ats_out(s, target, u, kk)
                    + ats_in(s, target, u, kk) > 0 implies exists|i: int|
                    0 <= i < acc@.len() && acc@[i].0 == u by {
                assert(ats_out(s, target, u, kk) == ats_out(s, target, u, k as int) + (if names_out(*row, ms@, target, u, ms@.len() as int) { 1nat } else { 0nat }));
            }
        }
        k += 1;
    }
    acc
}

/// All the traffic in an account.
pub open spec fn weight_of(a: TieAccum) -> int {
    a.at_out + a.at_in + a.turn_out + a.turn_in
}

/// `a` ranks before `b`: more traffic, or as much and met more lately.
pub open spec fn outranks(a: TieAccum, b: TieAccum) -> bool {
    weight_of(a) > weight_of(b) || (weight_of(a) == weight_of(b) && a.last_time > b.last_time)
}

/// The partners for the report: the `partners` accounts with the most
/// traffic (the latest first among equals), best first.
pub open spec fn ranked(tally: Seq<(i64, TieAccum)>, partners: int, out: Seq<(i64, TieAccum)>) -> bool {
    &&& out.len() == if partners < tally.len() {
        partners
    } else {
        tally.len() as int
    }
    &&& forall|i: int, j: int| 0 <= i < j < out.len() ==> !outranks(#[trigger] out[j].1, #[trigger] out[i].1)
    &&& forall|i: int| 0 <= i < out.len() ==> tally.contains(#[trigger] out[i])
    &&& distinct_users(out)
    &&& forall|k: int|
        0 <= k < tally.len() ==> out.contains(#[trigger] tally[k]) || forall|i: int|
            0 <= i < out.len() ==> !outranks(tally[k].1, #[trigger] out[i].1)
}

/// The ties reported are ranked by all the traffic between the two, mentions
/// and reply turns both ways alike: a tie never carries less of it than one
/// after it, and nobody met and left out carries more than any reported tie;
/// with as much traffic, the one met more lately comes first.
pub proof fn lemma_ties_rank_by_all_traffic(
    s: Seq<StreamRow>,
    target: i64,
    partners: int,
    own_rows: Seq<TextRow>,
    out: Seq<Tie>,
)
    requires
        ties_report(s, target, partners, own_rows, out),
    ensures
        forall|i: int, j: int|
            0 <= i < j < out.len() ==> (#[trigger] out[i]).at_out + out[i].at_in + out[i].turn_out
                + out[i].turn_in >= (#[trigger] out[j]).at_out + out[j].at_in + out[j].turn_out + out[j].turn_in,
        forall|i: int, j: int|
            0 <= i < j < out.len() && (#[trigger] out[i]).at_out + out[i].at_in + out[i].turn_out
                + out[i].turn_in == (#[trigger] out[j]).at_out + out[j].at_in + out[j].turn_out + out[j].turn_in
                ==> out[i].last_time >= out[j].last_time,
        forall|u: i64, i: int|
            #![trigger met(s, target, u), out[i]]
            met(s, target, u) && 0 <= i < out.len() && (forall|k: int| 0 <= k < out.len() ==> (#[trigger] out[k]).user_id != u)
                ==> account(s, target, u).0 + account(s, target, u).1 + account(s, target, u).2 + account(s, target, u).3
                <= out[i].at_out + out[i].at_in + out[i].turn_out + out[i].turn_in && (account(s, target, u).0
                + account(s, target, u).1 + account(s, target, u).2 + account(s, target, u).3 == out[i].at_out
                + out[i].at_in + out[i].turn_out + out[i].turn_in ==> account(s, target, u).4 <= out[i].last_time),
{
    let r = choose|r: Seq<(i64, TieAccum)>|
        #[trigger] ties_ranked(s, target, partners, r) && out.len() == r.len() && forall|i: int|
            0 <= i < r.len() ==> tie_for(s, target, own_rows, r[i], #[trigger] out[i]);
    let tally = choose|tally: Seq<(i64, TieAccum)>| #[trigger] accounts(s, target, tally) && ranked(tally, partners, r);
    assert forall|i: int, j: int| 0 <= i < j < out.len() implies (#[trigger] out[i]).at_out + out[i].at_in
        + out[i].turn_out + out[i].turn_in >= (#[trigger] out[j]).at_out + out[j].at_in + out[j].turn_out
        + out[j].turn_in by {
        assert(tie_for(s, target, own_rows, r[i], out[i]));
        assert(tie_for(s, target, own_rows, r[j], out[j]));
        assert(!outranks(r[j].1, r[i].1));
    }
    assert forall|i: int, j: int|
        0 <= i < j < out.len() && (#[trigger] out[i]).at_out + out[i].at_in + out[i].turn_out
            + out[i].turn_in == (#[trigger] out[j]).at_out + out[j].at_in + out[j].turn_out + out[j].turn_in
            implies out[i].last_time >= out[j].last_time by {
        assert(tie_for(s, target, own_rows, r[i], out[i]));
        assert(tie_for(s, target, own_rows, r[j], out[j]));
        assert(!outranks(r[j].1, r[i].1));
    }
    assert forall|u: i64, i: int|
        #![trigger met(s, target, u), out[i]]
        met(s, target, u) && 0 <= i < out.len() && (forall|k: int| 0 <= k < out.len() ==> (#[trigger] out[k]).user_id != u)
            implies account(s, target, u).0 + account(s, target, u).1 + account(s, target, u).2 + account(s, target, u).3
            <= out[i].at_out + out[i].at_in + out[i].turn_out + out[i].turn_in && (account(s, target, u).0
            + account(s, target, u).1 + account(s, target, u).2 + account(s, target, u).3 == out[i].at_out
            + out[i].at_in + out[i].turn_out + out[i].turn_in ==> account(s, target, u).4 <= out[i].last_time) by {
        let k = choose|k: int| 0 <= k < tally.len() && tally[k].0 == u;
        assert(accum_view(tally[k].1) == account(s, target, tally[k].0));
        assert(tie_for(s, target, own_rows, r[i], out[i]));
        if r.contains(tally[k]) {
            let m = choose|m: int| 0 <= m < r.len() && r[m] == tally[k];
            assert(tie_for(s, target, own_rows, r[m], out[m]));
            assert(out[m].user_id == u);
        } else {
            assert(!outranks(tally[k].1, r[i].1));
        }
    }
}

fn weight_wide(a: &TieAccum) -> (w: u128)
    ensures
        w == weight_of(*a),
{
    a.at_out as u128 + a.at_in as u128 + a.turn_out as u128 + a.turn_in as u128
}

fn beats(a: &TieAccum, b: &TieAccum) -> (r: bool)
    ensures
        r == outranks(*a, *b),
{
    let wa = weight_wide(a);
    let wb = weight_wide(b);
    wa > wb || (wa == wb && a.last_time > b.last_time)
}

/// Ranks the accounts and keeps the first `partners`.
pub fn rank_ties(tally: &Vec<(i64, TieAccum)>, partners: usize) -> (out: Vec<(i64, TieAccum)>)
    requires
        distinct_users(tally@),
    ensures
        ranked(tally@, partners as int, out@),
{
    let n = tally.len();
    let mut taken: Vec<bool> = Vec::new();
    let mut t: usize = 0;
    while t < n
        invariant
            t <= n == tally@.len(),
            taken@.len() == t,
            forall|j: int| 0 <= j < t ==> !taken@[j],
        decreases n - t,
    {
        taken.push(false);
        t += 1;
    }
    let mut out: Vec<(i64, TieAccum)> = Vec::new();
    let ghost mut picked: Seq<int> = seq![];
    while out.len() < partners && out.len() < n
        invariant
            n == tally@.len(),
            taken@.len() == n,
            out@.len() == picked.len(),
            out@.len() <= n,
            out@.len() <= partners,
            forall|i: int| 0 <= i < picked.len() ==> 0 <= #[trigger] picked[i] < n && out@[i] == tally@[picked[i]],
            forall|i: int, j: int| 0 <= i < j < picked.len() ==> #[trigger] picked[i] != #[trigger] picked[j],
            forall|k: int| 0 <= k < n ==> (#[trigger] taken@[k] <==> picked.contains(k)),
            forall|i: int, j: int| 0 <= i < j < out@.len() ==> !outranks(#[trigger] out@[j].1, #[trigger] out@[i].1),
            forall|k: int, i: int|
                0 <= k < n && !taken@[k] && 0 <= i < out@.len() ==> !outranks(#[trigger] tally@[k].1, #[trigger] out@[i].1),
            distinct_users(tally@),
        decreases n - out@.len(),
    {
        // the first untaken account that nothing untaken outranks
        let mut best: usize = n;
        let mut k: usize = 0;
        while k < n
            invariant
                k <= n == tally@.len() == taken@.len(),
                best == n || (best < k && !taken@[best as int]),
                best == n ==> forall|j: int| 0 <= j < k ==> taken@[j],
                best < n ==> forall|j: int| 0 <= j < k && !taken@[j] ==> !outranks(#[trigger] tally@[j].1, tally@[best as int].1),
            decreases n - k,
        {
            if !taken[k] {
                if best == n || beats(&tally[k].1, &tally[best].1) {
                    proof {
                        if best < n {
                            assert forall|j: int| 0 <= j < k + 1 && !taken@[j] implies !outranks(#[trigger] tally@[j].1, tally@[k as int].1) by {
                                if j < k {
                                    assert(!outranks(tally@[j].1, tally@[best as int].1));
                                }
                            }
                        }
                    }
                    best = k;
                }
            }
            k += 1;
        }
        if best == n {
            proof {
                // every account is taken, so all of them are out already
                assert forall|j: int| 0 <= j < n implies picked.contains(j) by {
                    assert(taken@[j]);
                }
                lemma_all_picked(picked, n as int);
                assert(false);
            }
            return out;
        }
        let ghost before = out@;
        let item = (tally[best].0, tally[best].1);
        out.push(item);
        taken.set(best, true);
        proof {
            let old_picked = picked;
            picked = picked.push(best as int);
            assert forall|k: int| 0 <= k < n implies (#[trigger] taken@[k] <==> picked.contains(k)) by {
                if k == best {
                    assert(picked[picked.len() - 1] == k);
                } else {
                    if old_picked.contains(k) {
                        let i = choose|i: int| 0 <= i < old_picked.len() && old_picked[i] == k;
                        assert(picked[i] == k);
                    }
                    if picked.contains(k) {
                        let i = choose|i: int| 0 <= i < picked.len() && picked[i] == k;
                        assert(i < old_picked.len());
                        assert(old_picked[i] == k);
                    }
                }
            }
            assert forall|i: int, j: int| 0 <= i < j < picked.len() implies #[trigger] picked[i] != #[trigger] picked[j] by {
                if j == picked.len() - 1 {
                    assert(picked[i] == old_picked[i]);
                    assert(old_picked.contains(picked[i]));
                } else {
                    assert(picked[i] == old_picked[i] && picked[j] == old_picked[j]);
                }
            }
            assert forall|i: int| 0 <= i < picked.len() implies 0 <= #[trigger] picked[i] < n && out@[i] == tally@[picked[i]] by {
                if i < old_picked.len() {
                    assert(picked[i] == old_picked[i]);
                }
            }
        }
    }
    proof {
        assert forall|i: int| 0 <= i < out@.len() implies tally@.contains(#[trigger] out@[i]) by {
            assert(out@[i] == tally@[picked[i]]);
        }
        assert forall|i: int, j: int| 0 <= i < j < out@.len() implies #[trigger] out@[i].0 != #[trigger] out@[j].0 by {
            assert(out@[i] == tally@[picked[i]] && out@[j] == tally@[picked[j]]);
        }
        assert forall|k: int| 0 <= k < tally@.len() implies out@.contains(#[trigger] tally@[k]) || forall|i: int|
            0 <= i < out@.len() ==> !outranks(tally@[k].1, #[trigger] out@[i].1) by {
            if taken@[k] {
                let i = choose|i: int| 0 <= i < picked.len() && picked[i] == k;
                assert(out@[i] == tally@[k]);
            }
        }
    }
    out
}

/// Distinct indices below `n`, all of them there: there are `n` of them.
pub(crate) proof fn lemma_all_picked(picked: Seq<int>, n: int)
    requires
        0 <= n,
        forall|i: int| 0 <= i < picked.len() ==> 0 <= #[trigger] picked[i] < n,
        forall|i: int, j: int| 0 <= i < j < picked.len() ==> #[trigger] picked[i] != #[trigger] picked[j],
        forall|j: int| 0 <= j < n ==> picked.contains(j),
    ensures
        picked.len() >= n,
{
    let s = picked.to_set();
    assert(Set::new(|j: int| 0 <= j < n) <= s) by {
        assert forall|j: int| Set::new(|j: int| 0 <= j < n).contains(j) implies s.contains(j) by {
            assert(picked.contains(j));
        }
    }
    vstd::set_lib::lemma_int_range(0, n);
    assert(Set::new(|j: int| 0 <= j < n) =~= vstd::set_lib::set_int_range(0, n));
    picked.unique_seq_to_set();
    vstd::set_lib::lemma_len_subset(vstd::set_lib::set_int_range(0, n), s);
}

/// The name a record goes by: the group card when it has one, else the
/// nickname, trimmed.
pub open spec fn row_name(r: StreamRow) -> Seq<char> {
    if trim(r.sender_nick@).len() > 0 {
        trim(r.sender_nick@)
    } else {
        trim(r.user_name@)
    }
}

/// Record `j` is a vote for one of `u`'s names: `u` wrote it, `u` is not the
/// person portrayed, and it carries a name.
pub open spec fn casts_vote(s: Seq<StreamRow>, target: i64, u: i64, j: int) -> bool {
    s[j].user_id == u && u != target && row_name(s[j]).len() > 0
}

/// Among the first `n` records: how often `u` (not `target`) went by `name`.
pub open spec fn votes(s: Seq<StreamRow>, target: i64, u: i64, name: Seq<char>, n: int) -> nat
    decreases n,
{
    if n <= 0 {
        0
    } else {
        votes(s, target, u, name, n - 1) + if casts_vote(s, target, u, n - 1) && row_name(s[n - 1])
            == name {
            1nat
        } else {
            0nat
        }
    }
}

/// `a` comes before `b` in code-point order, as `str` compares.
pub open spec fn chars_before(a: Seq<char>, b: Seq<char>) -> bool
    decreases a.len(),
{
    if a.len() == 0 {
        b.len() > 0
    } else if b.len() == 0 {
        false
    } else if a[0] < b[0] {
        true
    } else if a[0] > b[0] {
        false
    } else {
        chars_before(a.drop_first(), b.drop_first())
    }
}

/// Code-point order is strict: nothing comes before itself, and it chains.
pub proof fn lemma_chars_before_strict(a: Seq<char>, b: Seq<char>, c: Seq<char>)
    ensures
        !chars_before(a, a),
        chars_before(a, b) && chars_before(b, c) ==> chars_before(a, c),
    decreases a.len(),
{
    if a.len() > 0 && b.len() > 0 && c.len() > 0 {
        lemma_chars_before_strict(a.drop_first(), b.drop_first(), c.drop_first());
    } else if a.len() > 0 {
        lemma_chars_before_strict(a.drop_first(), a.drop_first(), a.drop_first());
    }
}

/// Code-point order is total: of two different texts one comes first.
pub proof fn lemma_chars_total(a: Seq<char>, b: Seq<char>)
    ensures
        a != b ==> chars_before(a, b) || chars_before(b, a),
    decreases a.len(),
{
    if a.len() == 0 && b.len() == 0 {
        assert(a =~= b);
    } else if a.len() > 0 && b.len() > 0 && a[0] == b[0] {
        lemma_chars_total(a.drop_first(), b.drop_first());
        if a.drop_first() == b.drop_first() {
            assert(a =~= seq![a[0]] + a.drop_first());
            assert(b =~= seq![b[0]] + b.drop_first());
        }
    }
}

pub(crate) fn chars_lt(a: &Vec<char>, b: &Vec<char>) -> (r: bool)
    ensures
        r == chars_before(a@, b@),
{
    let mut i: usize = 0;
    assert(a@.skip(0) =~= a@);
    assert(b@.skip(0) =~= b@);
    while i < a.len() && i < b.len()
        invariant
            i <= a@.len(),
            i <= b@.len(),
            chars_before(a@, b@) == chars_before(a@.skip(i as int), b@.skip(i as int)),
        decreases a@.len() - i,
    {
        assert(a@.skip(i as int)[0] == a@[i as int]);
        assert(b@.skip(i as int)[0] == b@[i as int]);
        if a[i] < b[i] {
            return true;
        }
        if a[i] > b[i] {
            return false;
        }
        assert(a@.skip(i as int).drop_first() =~= a@.skip(i + 1));
        assert(b@.skip(i as int).drop_first() =~= b@.skip(i + 1));
        i += 1;
    }
    a.len() == i && b.len() > i
}

/// A better name for `u`: more votes, or as many and earlier in code-point
/// order.
pub open spec fn better_name(s: Seq<StreamRow>, target: i64, u: i64, a: Seq<char>, b: Seq<char>) -> bool {
    let n = s.len() as int;
    votes(s, target, u, a, n) > votes(s, target, u, b, n) || (votes(s, target, u, a, n) == votes(
        s,
        target,
        u,
        b,
        n,
    ) && chars_before(a, b))
}

/// The name `u` goes by in the stream: one of the names `u` wrote under,
/// and none of them better.
pub open spec fn best_name_of(s: Seq<StreamRow>, target: i64, u: i64, name: Seq<char>) -> bool {
    &&& exists|j: int| 0 <= j < s.len() && #[trigger] casts_vote(s, target, u, j) && row_name(s[j]) == name
    &&& forall|j: int|
        0 <= j < s.len() && #[trigger] casts_vote(s, target, u, j) ==> !better_name(
            s,
            target,
            u,
            row_name(s[j]),
            name,
        )
}

/// Whether `u` wrote under any name at all.
pub open spec fn has_name(s: Seq<StreamRow>, target: i64, u: i64) -> bool {
    exists|j: int| 0 <= j < s.len() && #[trigger] casts_vote(s, target, u, j)
}

/// The label for someone who never wrote under a name: `QQ` and the number.
pub open spec fn number_label(u: i64) -> Seq<char> {
    seq!['Q', 'Q', ' '] + crate::text::signed_decimal(u as int)
}

proof fn lemma_better_strict(s: Seq<StreamRow>, target: i64, u: i64, a: Seq<char>, b: Seq<char>, c: Seq<char>)
    ensures
        !better_name(s, target, u, a, a),
        better_name(s, target, u, a, b) && better_name(s, target, u, b, c) ==> better_name(
            s,
            target,
            u,
            a,
            c,
        ),
{
    lemma_chars_before_strict(a, b, c);
}

fn row_names(stream: &[StreamRow]) -> (names: Vec<Vec<char>>)
    ensures
        names@.len() == stream@.len(),
        forall|i: int| 0 <= i < names@.len() ==> (#[trigger] names@[i])@ == row_name(stream@[i]),
{
    let mut names: Vec<Vec<char>> = Vec::new();
    let mut k: usize = 0;
    while k < stream.len()
        invariant
            k <= stream@.len(),
            names@.len() == k,
            forall|i: int| 0 <= i < k ==> (#[trigger] names@[i])@ == row_name(stream@[i]),
        decreases stream@.len() - k,
    {
        let row = &stream[k];
        let name = chars_of(pick_name(row.sender_nick.as_str(), row.user_name.as_str()).as_str());
        names.push(name);
        k += 1;
    }
    names
}

fn count_votes(
    stream: &[StreamRow],
    names: &Vec<Vec<char>>,
    target: i64,
    u: i64,
    name: &Vec<char>,
) -> (c: u64)
    requires
        names@.len() == stream@.len(),
        forall|i: int| 0 <= i < names@.len() ==> (#[trigger] names@[i])@ == row_name(stream@[i]),
    ensures
        c == votes(stream@, target, u, name@, stream@.len() as int),
{
    let mut c: u64 = 0;
    let mut k: usize = 0;
    while k < stream.len()
        invariant
            k <= stream@.len() == names@.len(),
            forall|i: int| 0 <= i < names@.len() ==> (#[trigger] names@[i])@ == row_name(stream@[i]),
            c == votes(stream@, target, u, name@, k as int),
            c <= k,
        decreases stream@.len() - k,
    {
        assert(names@[k as int]@ == row_name(stream@[k as int]));
        if stream[k].user_id == u && u != target && names[k].len() > 0 && same_chars(
            &names[k],
            name,
        ) {
            c += 1;
        }
        k += 1;
    }
    c
}

/// The name `u` goes by most often among the records, ties going to the
/// earliest in code-point order; `None` when `u` never wrote under a name.
fn best_name(stream: &[StreamRow], names: &Vec<Vec<char>>, target: i64, u: i64) -> (r: Option<Vec<char>>)
    requires
        names@.len() == stream@.len(),
        forall|i: int| 0 <= i < names@.len() ==> (#[trigger] names@[i])@ == row_name(stream@[i]),
    ensures
        r is None <==> !has_name(stream@, target, u),
        r matches Some(nm) ==> best_name_of(stream@, target, u, nm@),
{
    let ghost s = stream@;
    let mut best: Option<(Vec<char>, u64)> = None;
    let mut k: usize = 0;
    while k < stream.len()
        invariant
            k <= s.len() == names@.len(),
            s == stream@,
            forall|i: int| 0 <= i < names@.len() ==> (#[trigger] names@[i])@ == row_name(s[i]),
            best is None ==> forall|j: int| 0 <= j < k ==> !#[trigger] casts_vote(s, target, u, j),
            best matches Some(b) ==> {
                &&& b.1 == votes(s, target, u, b.0@, s.len() as int)
                &&& exists|j: int| 0 <= j < k && #[trigger] casts_vote(s, target, u, j) && row_name(s[j]) == b.0@
                &&& forall|j: int|
                    0 <= j < k && #[trigger] casts_vote(s, target, u, j) ==> !better_name(
                        s,
                        target,
                        u,
                        row_name(s[j]),
                        b.0@,
                    )
            },
        decreases s.len() - k,
    {
        assert(names@[k as int]@ == row_name(s[k as int]));
        if stream[k].user_id == u && u != target && names[k].len() > 0 {
            assert(casts_vote(s, target, u, k as int));
            let ghost here = row_name(s[k as int]);
            match best {
                None => {
                    let c = count_votes(stream, names, target, u, &names[k]);
                    let nm = names[k].clone();
                    proof {
                        lemma_better_strict(s, target, u, here, here, here);
                    }
                    best = Some((nm, c));
                },
                Some(b) => {
                    let ghost old_name = b.0@;
                    if same_chars(&names[k], &b.0) {
                        proof {
                            lemma_better_strict(s, target, u, here, here, here);
                        }
                        best = Some(b);
                    } else {
                        let c = count_votes(stream, names, target, u, &names[k]);
                        if c > b.1 || (c == b.1 && chars_lt(&names[k], &b.0)) {
                            let nm = names[k].clone();
                            proof {
                                assert(better_name(s, target, u, here, old_name));
                                assert forall|j: int|
                                    0 <= j < k + 1 && #[trigger] casts_vote(s, target, u, j) implies !better_name(
                                    s,
                                    target,
                                    u,
                                    row_name(s[j]),
                                    here,
                                ) by {
                                    lemma_better_strict(s, target, u, row_name(s[j]), here, old_name);
                                    lemma_better_strict(s, target, u, here, here, here);
                                }
                            }
                            best = Some((nm, c));
                        } else {
                            best = Some(b);
                        }
                    }
                },
            }
        }
        k += 1;
    }
    match best {
        None => None,
        Some(b) => Some(b.0),
    }
}

/// `tally` is the full account book of the stream: one entry per person met,
/// each with the counts the records give.
pub open spec fn accounts(s: Seq<StreamRow>, target: i64, tally: Seq<(i64, TieAccum)>) -> bool {
    &&& distinct_users(tally)
    &&& forall|i: int|
        0 <= i < tally.len() ==> accum_view(#[trigger] tally[i].1) == account(s, target, tally[i].0)
            && met(s, target, tally[i].0)
    &&& forall|u: i64| #[trigger] met(s, target, u) ==> exists|i: int| 0 <= i < tally.len() && tally[i].0 == u
}

/// `r` is a ranking of the people met in the stream, cut at `partners`.
pub open spec fn ties_ranked(s: Seq<StreamRow>, target: i64, partners: int, r: Seq<(i64, TieAccum)>) -> bool {
    exists|tally: Seq<(i64, TieAccum)>| #[trigger] accounts(s, target, tally) && ranked(tally, partners, r)
}

/// The tie reported for one ranked account: its counts, the name the person
/// goes by (their number when they never wrote under a name), and what
/// `target` said to them.
pub open spec fn tie_for(
    s: Seq<StreamRow>,
    target: i64,
    own_rows: Seq<TextRow>,
    entry: (i64, TieAccum),
    t: Tie,
) -> bool {
    &&& t.user_id == entry.0
    &&& t.at_out == entry.1.at_out
    &&& t.at_in == entry.1.at_in
    &&& t.turn_out == entry.1.turn_out
    &&& t.turn_in == entry.1.turn_in
    &&& t.last_time == entry.1.last_time
    &&& if has_name(s, target, entry.0) {
        best_name_of(s, target, entry.0, t.name@)
    } else {
        t.name@ == number_label(entry.0)
    }
    &&& string_views(t.samples@) == said_scan(own_rows, entry.0)
}

fn number_name(u: i64) -> (out: String)
    ensures
        out@ == number_label(u),
{
    let mut out = String::new();
    out.push('Q');
    out.push('Q');
    out.push(' ');
    let digits = chars_of(i64_text(u).as_str());
    push_chars(&mut out, &digits);
    assert(out@ =~= number_label(u));
    out
}

/// The ties reported for a stream: a ranking of the people met, cut at
/// `partners`, each with its name and samples.
pub open spec fn ties_report(
    s: Seq<StreamRow>,
    target: i64,
    partners: int,
    own_rows: Seq<TextRow>,
    out: Seq<Tie>,
) -> bool {
    exists|r: Seq<(i64, TieAccum)>|
        #[trigger] ties_ranked(s, target, partners, r) && out.len() == r.len() && forall|i: int|
            0 <= i < r.len() ==> tie_for(s, target, own_rows, r[i], #[trigger] out[i])
}

#[verifier::spinoff_prover]
fn ties_in(stream: &[StreamRow], target: i64, partners: usize, own_rows: &[TextRow]) -> (out: Vec<Tie>)
    ensures
        ties_report(stream@, target, partners as int, own_rows@, out@),
{
    let ghost s = stream@;
    let tally = tally_ties(stream, target);
    assert(accounts(s, target, tally@));
    let top = rank_ties(&tally, partners);
    assert(ties_ranked(s, target, partners as int, top@));
    let names = row_names(stream);
    let mut out: Vec<Tie> = Vec::new();
    let mut k: usize = 0;
    while k < top.len()
        invariant
            k <= top@.len(),
            s == stream@,
            names@.len() == s.len(),
            forall|i: int| 0 <= i < names@.len() ==> (#[trigger] names@[i])@ == row_name(s[i]),
            out@.len() == k,
            forall|i: int| 0 <= i < k ==> tie_for(s, target, own_rows@, top@[i], #[trigger] out@[i]),
        decreases top@.len() - k,
    {
        let (u, a) = top[k];
        let name = match best_name(stream, &names, target, u) {
            Some(nm) => string_of(&nm),
            None => number_name(u),
        };
        let samples = said_to(u, own_rows);
        out.push(
            Tie {
                user_id: u,
                name,
                at_out: a.at_out,
                at_in: a.at_in,
                turn_out: a.turn_out,
                turn_in: a.turn_in,
                last_time: a.last_time,
                samples,
            },
        );
        k += 1;
    }
    out
}

/// The people `target` deals with most in a stream of group records, at most
/// `partners` of them, best first: who they are, how often each side mentions
/// and answers the other, when they last met, and what `target` said to them.
///
/// `stream` holds the records as read, newest first; turns are read between
/// neighbours once the records are put in group order, oldest first.
pub fn collect_ties(stream: Vec<StreamRow>, target: i64, partners: usize, own_rows: &[TextRow]) -> (out: Vec<Tie>)
    ensures
        exists|o: Seq<StreamRow>, p: Seq<int>|
            #[trigger] stable_order(stream@.reverse(), o, p) && ties_report(
                o,
                target,
                partners as int,
                own_rows@,
                out@,
            ),
{
    let ordered = order_stream(stream);
    ties_in(ordered.as_slice(), target, partners, own_rows)
}

/// `a` sorts no later than `b`: by group, then by time.
pub open spec fn key_le(a: StreamRow, b: StreamRow) -> bool {
    a.group_id < b.group_id || (a.group_id == b.group_id && a.time <= b.time)
}

pub open spec fn same_key(a: StreamRow, b: StreamRow) -> bool {
    a.group_id == b.group_id && a.time == b.time
}

/// `out` is `x` sorted by group and time, records with the same group and
/// time keeping their order in `x`; `p` tells where each record came from.
pub open spec fn stable_order(x: Seq<StreamRow>, out: Seq<StreamRow>, p: Seq<int>) -> bool {
    &&& p.len() == x.len()
    &&& out.len() == x.len()
    &&& forall|i: int| 0 <= i < p.len() ==> 0 <= #[trigger] p[i] < x.len() && out[i] == x[p[i]]
    &&& forall|i: int, j: int| 0 <= i < j < p.len() ==> #[trigger] p[i] != #[trigger] p[j]
    &&& forall|i: int, j: int| 0 <= i < j < out.len() ==> key_le(#[trigger] out[i], #[trigger] out[j])
    &&& forall|i: int, j: int|
        0 <= i < j < out.len() && same_key(#[trigger] out[i], #[trigger] out[j]) ==> p[i] < p[j]
}

/// Puts records read newest first into the order the turns are read in:
/// group by group, oldest first, records of the same second keeping their
/// order.
pub fn order_stream(rows: Vec<StreamRow>) -> (out: Vec<StreamRow>)
    ensures
        exists|p: Seq<int>| #[trigger] stable_order(rows@.reverse(), out@, p),
{
    let ghost x = rows@.reverse();
    let ghost n = rows@.len() as int;
    let mut rest = rows;
    let mut out: Vec<StreamRow> = Vec::new();
    let ghost mut p: Seq<int> = seq![];
    while rest.len() > 0
        invariant
            x == rows@.reverse(),
            n == rows@.len(),
            rest@.len() <= n,
            rest@ == rows@.subrange(0, rest@.len() as int),
            out@.len() == n - rest@.len(),
            p.len() == out@.len(),
            forall|i: int| 0 <= i < p.len() ==> 0 <= #[trigger] p[i] < out@.len() && out@[i] == x[p[i]],
            forall|i: int, j: int| 0 <= i < j < p.len() ==> #[trigger] p[i] != #[trigger] p[j],
            forall|i: int, j: int| 0 <= i < j < out@.len() ==> key_le(#[trigger] out@[i], #[trigger] out@[j]),
            forall|i: int, j: int|
                0 <= i < j < out@.len() && same_key(#[trigger] out@[i], #[trigger] out@[j]) ==> p[i] < p[j],
        decreases rest@.len(),
    {
        let ghost k = out@.len() as int;
        let ghost before = rest@;
        let row = rest.pop().unwrap();
        assert(row == x[k]) by {
            assert(before[before.len() - 1] == rows@[n - 1 - k]);
        }
        assert(rest@ =~= rows@.subrange(0, rest@.len() as int));
        let mut pos: usize = 0;
        while pos < out.len() && (out[pos].group_id < row.group_id || (out[pos].group_id
            == row.group_id && out[pos].time <= row.time))
            invariant
                pos <= out@.len(),
                forall|i: int| 0 <= i < pos ==> key_le(#[trigger] out@[i], row),
            decreases out@.len() - pos,
        {
            pos += 1;
        }
        let ghost old_out = out@;
        let ghost old_p = p;
        out.insert(pos, row);
        proof {
            p = old_p.insert(pos as int, k);
            assert forall|i: int| 0 <= i < p.len() implies 0 <= #[trigger] p[i] < out@.len() && out@[i] == x[p[i]] by {
                if i < pos {
                    assert(p[i] == old_p[i]);
                } else if i > pos {
                    assert(p[i] == old_p[i - 1]);
                }
            }
            assert forall|i: int, j: int| 0 <= i < j < p.len() implies #[trigger] p[i] != #[trigger] p[j] by {
                if i < pos && j < pos {
                    assert(p[i] == old_p[i] && p[j] == old_p[j]);
                } else if i < pos && j > pos {
                    assert(p[i] == old_p[i] && p[j] == old_p[j - 1]);
                } else if i > pos && j > pos {
                    assert(p[i] == old_p[i - 1] && p[j] == old_p[j - 1]);
                } else if i == pos {
                    assert(p[j] == old_p[j - 1]);
                } else {
                    assert(p[i] == old_p[i]);
                }
            }
            assert forall|i: int, j: int| 0 <= i < j < out@.len() implies key_le(#[trigger] out@[i], #[trigger] out@[j]) by {
                if i < pos && j < pos {
                    assert(out@[i] == old_out[i] && out@[j] == old_out[j]);
                } else if i < pos && j > pos {
                    assert(out@[i] == old_out[i] && out@[j] == old_out[j - 1]);
                    assert(key_le(old_out[i], row));
                } else if i > pos && j > pos {
                    assert(out@[i] == old_out[i - 1] && out@[j] == old_out[j - 1]);
                } else if i == pos {
                    assert(out@[j] == old_out[j - 1]);
                    assert(!key_le(old_out[pos as int], row));
                    assert(key_le(old_out[pos as int], old_out[j - 1]) || j - 1 == pos);
                } else {
                    assert(out@[i] == old_out[i]);
                    assert(key_le(old_out[i], row));
                }
            }
            assert forall|i: int, j: int|
                0 <= i < j < out@.len() && same_key(#[trigger] out@[i], #[trigger] out@[j]) implies p[i] < p[j] by {
                if i < pos && j < pos {
                    assert(out@[i] == old_out[i] && out@[j] == old_out[j]);
                    assert(p[i] == old_p[i] && p[j] == old_p[j]);
                } else if i < pos && j > pos {
                    assert(out@[i] == old_out[i] && out@[j] == old_out[j - 1]);
                    assert(p[i] == old_p[i] && p[j] == old_p[j - 1]);
                } else if i > pos && j > pos {
                    assert(out@[i] == old_out[i - 1] && out@[j] == old_out[j - 1]);
                    assert(p[i] == old_p[i - 1] && p[j] == old_p[j - 1]);
                } else if i == pos {
                    assert(out@[j] == old_out[j - 1]);
                    assert(!key_le(old_out[pos as int], row));
                    assert(key_le(old_out[pos as int], old_out[j - 1]) || j - 1 == pos);
                } else {
                    assert(out@[i] == old_out[i]);
                    assert(p[i] == old_p[i]);
                }
            }
        }
    }
    assert(stable_order(x, out@, p));
    out
}


proof fn lemma_no_counts_with_oneself(s: Seq<StreamRow>, target: i64, n: int)
    ensures
        turns_out(s, target, target, n) == 0,
        turns_in(s, target, target, n) == 0,
        ats_out(s, target, target, n) == 0,
        ats_in(s, target, target, n) == 0,
    decreases n,
{
    if n > 0 {
        lemma_no_counts_with_oneself(s, target, n - 1);
    }
}

/// Nobody has dealings with themself: the person portrayed never meets
/// themself in the stream.
pub proof fn lemma_no_tie_with_oneself(s: Seq<StreamRow>, target: i64)
    ensures
        !met(s, target, target),
{
    lemma_no_counts_with_oneself(s, target, s.len() as int);
}

/// The ties reported never include the person portrayed.
pub proof fn lemma_ties_leave_out_oneself(
    s: Seq<StreamRow>,
    target: i64,
    partners: int,
    own_rows: Seq<TextRow>,
    out: Seq<Tie>,
)
    requires
        ties_report(s, target, partners, own_rows, out),
    ensures
        forall|i: int| 0 <= i < out.len() ==> (#[trigger] out[i]).user_id != target,
{
    let r = choose|r: Seq<(i64, TieAccum)>|
        #[trigger] ties_ranked(s, target, partners, r) && out.len() == r.len() && forall|i: int|
            0 <= i < r.len() ==> tie_for(s, target, own_rows, r[i], #[trigger] out[i]);
    let tally = choose|tally: Seq<(i64, TieAccum)>| #[trigger] accounts(s, target, tally) && ranked(tally, partners, r);
    lemma_no_tie_with_oneself(s, target);
    assert forall|i: int| 0 <= i < out.len() implies (#[trigger] out[i]).user_id != target by {
        assert(tie_for(s, target, own_rows, r[i], out[i]));
        assert(tally.contains(r[i]));
        let k = choose|k: int| 0 <= k < tally.len() && tally[k] == r[i];
        assert(met(s, target, tally[k].0));
    }
}


/// The most words a portrait lists.
pub const TOP_WORDS: usize = 24;

/// The word lines of the rows: their tokens.
pub open spec fn token_lines(rows: Seq<TextRow>) -> Seq<Seq<char>> {
    rows.map_values(|r: TextRow| r.tokens@)
}

/// Words said more than once.
pub open spec fn repeated_words() -> spec_fn((String, u64)) -> bool {
    |p: (String, u64)| p.1 > 1
}

fn token_strings(rows: &[TextRow]) -> (lines: Vec<String>)
    ensures
        crate::cloud::line_views(lines@) == token_lines(rows@),
        lines@.len() == rows@.len(),
{
    let mut lines: Vec<String> = Vec::new();
    let mut k: usize = 0;
    while k < rows.len()
        invariant
            k <= rows@.len(),
            lines@.len() == k,
            forall|i: int| 0 <= i < k ==> (#[trigger] lines@[i])@ == rows@[i].tokens@,
        decreases rows@.len() - k,
    {
        lines.push(rows[k].tokens.clone());
        k += 1;
    }
    assert(crate::cloud::line_views(lines@) =~= token_lines(rows@));
    lines
}

/// The words a person uses most, from the tokens of their messages: words
/// of more than one character, no stop words, no bare numbers, said more
/// than once; the most frequent first, ties in code-point order, at most
/// [`TOP_WORDS`] of them.
pub fn top_words(rows: &[TextRow], stop_words: &[String]) -> (out: Vec<(String, u64)>)
    requires
        crate::cloud::corpus_chars(token_lines(rows@), rows@.len() as int) <= u64::MAX,
    ensures
        exists|table: Seq<(String, u64)>|
            #[trigger] crate::cloud::word_table(
                crate::cloud::all_tokens(token_lines(rows@), rows@.len() as int),
                crate::cloud::line_views(stop_words@),
                crate::cloud::WordRule::Portrait,
                table,
            ) && crate::cloud::ranked_words(table.filter(repeated_words()), TOP_WORDS as int, out@),
{
    let lines = token_strings(rows);
    let table = crate::cloud::count_words(lines.as_slice(), stop_words, crate::cloud::WordRule::Portrait);
    let ghost t = table@;
    let ghost pred = repeated_words();
    let mut kept: Vec<(String, u64)> = Vec::new();
    let mut k: usize = 0;
    while k < table.len()
        invariant
            k <= t.len(),
            t == table@,
            pred == repeated_words(),
            forall|i: int, j: int| 0 <= i < j < t.len() ==> (#[trigger] t[i]).0@ != (#[trigger] t[j]).0@,
            kept@ == t.take(k as int).filter(pred),
            forall|i: int| 0 <= i < kept@.len() ==> exists|j: int| 0 <= j < k && #[trigger] t[j] == #[trigger] kept@[i],
            forall|i: int, j: int| 0 <= i < j < kept@.len() ==> (#[trigger] kept@[i]).0@ != (#[trigger] kept@[j]).0@,
        decreases t.len() - k,
    {
        assert(t.take(k + 1).drop_last() =~= t.take(k as int));
        assert(t.take(k + 1).last() == t[k as int]);
        assert(pred(t[k as int]) == (t[k as int].1 > 1));
        assert(t.take(k + 1).filter(pred) == if pred(t[k as int]) {
            t.take(k as int).filter(pred).push(t[k as int])
        } else {
            t.take(k as int).filter(pred)
        }) by {
            reveal(Seq::filter);
        }
        if table[k].1 > 1 {
            let ghost before = kept@;
            kept.push((table[k].0.clone(), table[k].1));
            proof {
                assert forall|i: int, j: int| 0 <= i < j < kept@.len() implies (#[trigger] kept@[i]).0@ != (
                #[trigger] kept@[j]).0@ by {
                    if j == kept@.len() - 1 {
                        let m = choose|m: int| 0 <= m < k && #[trigger] t[m] == before[i];
                        assert(t[m].0@ != t[k as int].0@);
                    }
                }
                assert forall|i: int| 0 <= i < kept@.len() implies exists|j: int| 0 <= j < k + 1 && #[trigger] t[j] == #[trigger] kept@[i] by {
                    if i == kept@.len() - 1 {
                        assert(t[k as int] == kept@[i]);
                    } else {
                        let m = choose|m: int| 0 <= m < k && #[trigger] t[m] == before[i];
                        assert(t[m] == kept@[i]);
                    }
                }
            }
        }
        k += 1;
    }
    assert(t.take(t.len() as int) =~= t);
    assert(crate::cloud::word_table(
        crate::cloud::all_tokens(token_lines(rows@), rows@.len() as int),
        crate::cloud::line_views(stop_words@),
        crate::cloud::WordRule::Portrait,
        t,
    ));
    let out = crate::cloud::top_words(&kept, TOP_WORDS);
    assert(crate::cloud::word_cap(TOP_WORDS as int) == TOP_WORDS as int);
    out
}


/// The count a histogram slot ends with after the first `n` rows: the last
/// row for the slot wins, negative buckets and counts read as 0.
pub open spec fn slot_value(rows: Seq<(i64, i64)>, b: int, n: int) -> int
    decreases n,
{
    if n <= 0 {
        0
    } else {
        let (bucket, count) = rows[n - 1];
        if (if bucket < 0 {
            0
        } else {
            bucket as int
        }) == b {
            if count < 0 {
                0
            } else {
                count as int
            }
        } else {
            slot_value(rows, b, n - 1)
        }
    }
}

/// A histogram of `size` slots from (bucket, count) rows; rows outside the
/// slots are dropped.
pub fn fill_histogram(rows: &[(i64, i64)], size: usize) -> (slots: Vec<u64>)
    ensures
        slots@.len() == size,
        forall|b: int| 0 <= b < size ==> #[trigger] slots@[b] == slot_value(rows@, b, rows@.len() as int),
{
    let mut slots: Vec<u64> = Vec::new();
    while slots.len() < size
        invariant
            slots@.len() <= size,
            forall|b: int| 0 <= b < slots@.len() ==> #[trigger] slots@[b] == 0,
        decreases size - slots@.len(),
    {
        slots.push(0);
    }
    let mut k: usize = 0;
    while k < rows.len()
        invariant
            k <= rows@.len(),
            slots@.len() == size,
            forall|b: int| 0 <= b < size ==> #[trigger] slots@[b] == slot_value(rows@, b, k as int),
        decreases rows@.len() - k,
    {
        let (bucket, count) = rows[k];
        let slot: u64 = if bucket < 0 {
            0
        } else {
            bucket as u64
        };
        if slot < size as u64 {
            let value: u64 = if count < 0 {
                0
            } else {
                count as u64
            };
            slots.set(slot as usize, value);
        }
        k += 1;
    }
    slots
}

/// A group as the report lists it: a blank name reads as an unknown group,
/// a negative count as 0.
pub fn group_slice(group_id: i64, name: String, count: i64) -> (g: GroupSlice)
    ensures
        g.group_id == group_id,
        g.name@ == if trim(name@).len() == 0 {
            "（未知群）"@
        } else {
            name@
        },
        g.count == if count < 0 {
            0
        } else {
            count as u64
        },
{
    let blank = is_blank(name.as_str());
    GroupSlice {
        group_id,
        name: if blank {
            owned("（未知群）")
        } else {
            name
        },
        count: if count < 0 {
            0
        } else {
            count as u64
        },
    }
}

} // verus!
