//! The words of a word cloud: which tokens count, how often each occurs,
//! and which of them make it onto the picture.

use vstd::prelude::*;
use crate::collect::{chars_before, chars_lt, lemma_chars_before_strict};
use crate::text::{
    chars_of, is_ascii_punct, is_ascii_punctuation, is_whitespace, is_ws, owned, same_chars,
    string_of,
};

verus! {

/// The smallest side of a cloud, in pixels.
pub const CLOUD_MIN_SIDE: u32 = 64;

/// The largest side of a cloud, in pixels.
pub const CLOUD_MAX_SIDE: u32 = 2048;

/// The largest area of a cloud, in pixels.
pub const CLOUD_MAX_AREA: u64 = 4000000;

/// The most words a cloud shows.
pub const CLOUD_MAX_WORDS: usize = 200;

/// A cloud of this size can be drawn.
pub open spec fn cloud_size_ok(width: u32, height: u32) -> bool {
    CLOUD_MIN_SIDE <= width <= CLOUD_MAX_SIDE && CLOUD_MIN_SIDE <= height <= CLOUD_MAX_SIDE && width
        * height <= CLOUD_MAX_AREA
}

/// Refuses a cloud too small or too large to draw, before anything is
/// allocated for it.
pub fn check_cloud_size(width: u32, height: u32) -> (r: Result<(), String>)
    ensures
        r is Ok <==> cloud_size_ok(width, height),
        r matches Err(m) ==> m@ == "词云尺寸须在 64—2048 像素之间，总面积不超过 400 万像素"@,
{
    if width < CLOUD_MIN_SIDE || width > CLOUD_MAX_SIDE || height < CLOUD_MIN_SIDE || height
        > CLOUD_MAX_SIDE {
        return Err(owned("词云尺寸须在 64—2048 像素之间，总面积不超过 400 万像素"));
    }
    let w = width as u64;
    let h = height as u64;
    assert(w * h <= 2048 * 2048) by (nonlinear_arith)
        requires
            w <= 2048,
            h <= 2048,
    ;
    if w * h > CLOUD_MAX_AREA {
        return Err(owned("词云尺寸须在 64—2048 像素之间，总面积不超过 400 万像素"));
    }
    Ok(())
}

/// What `char::is_numeric` answers: the Unicode general categories Nd, Nl
/// and No.
pub uninterp spec fn unicode_numeric(c: char) -> bool;

/// `char::is_numeric`. The standard library documents that of the ASCII
/// characters exactly the digits are numeric.
#[verifier::external_body]
fn char_is_numeric(c: char) -> (b: bool)
    ensures
        b == unicode_numeric(c),
        (c as u32) < 128 ==> (b == ('0' <= c && c <= '9')),
{
    c.is_numeric()
}

/// The tokens finished among the first `n` characters, and the one under
/// way.
pub open spec fn split_scan(s: Seq<char>, n: int) -> (Seq<Seq<char>>, Seq<char>)
    decreases n,
{
    if n <= 0 {
        (seq![], seq![])
    } else {
        let (done, cur) = split_scan(s, n - 1);
        if is_ws(s[n - 1]) {
            if cur.len() > 0 {
                (done.push(cur), seq![])
            } else {
                (done, cur)
            }
        } else {
            (done, cur.push(s[n - 1]))
        }
    }
}

/// The white-space separated tokens of a line, as `str::split_whitespace`
/// yields them.
pub open spec fn tokens(s: Seq<char>) -> Seq<Seq<char>> {
    let (done, cur) = split_scan(s, s.len() as int);
    if cur.len() > 0 {
        done.push(cur)
    } else {
        done
    }
}

/// The tokens of the first `n` lines, line after line.
pub open spec fn all_tokens(lines: Seq<Seq<char>>, n: int) -> Seq<Seq<char>>
    decreases n,
{
    if n <= 0 {
        seq![]
    } else {
        all_tokens(lines, n - 1) + tokens(lines[n - 1])
    }
}

/// Which tokens a count rejects besides the short ones and the stop words.
#[derive(Debug, Clone, Copy, PartialEq, Eq, Structural)]
pub enum WordRule {
    /// The cloud leaves out tokens made of digits and punctuation alone.
    Cloud,
    /// A portrait leaves out tokens made of ASCII digits alone.
    Portrait,
}

/// A token made of what the rule leaves out.
pub open spec fn rejected(w: Seq<char>, rule: WordRule) -> bool {
    match rule {
        WordRule::Cloud => forall|i: int| 0 <= i < w.len() ==> unicode_numeric(#[trigger] w[i]) || is_ascii_punct(w[i]),
        WordRule::Portrait => forall|i: int| 0 <= i < w.len() ==> '0' <= #[trigger] w[i] && w[i] <= '9',
    }
}

/// A token is a word: longer than one character, not a stop word, and not
/// made of what the rule leaves out.
pub open spec fn counts_as(w: Seq<char>, stops: Seq<Seq<char>>, rule: WordRule) -> bool {
    &&& w.len() > 1
    &&& !stops.contains(w)
    &&& !rejected(w, rule)
}


/// How often `w` occurs among the first `n` tokens.
pub open spec fn occurrences(ts: Seq<Seq<char>>, w: Seq<char>, n: int) -> nat
    decreases n,
{
    if n <= 0 {
        0
    } else {
        occurrences(ts, w, n - 1) + if ts[n - 1] == w {
            1nat
        } else {
            0nat
        }
    }
}

pub open spec fn line_views(lines: Seq<String>) -> Seq<Seq<char>> {
    lines.map_values(|l: String| l@)
}

/// All the characters of the first `n` lines.
pub open spec fn corpus_chars(lines: Seq<Seq<char>>, n: int) -> int
    decreases n,
{
    if n <= 0 {
        0
    } else {
        corpus_chars(lines, n - 1) + lines[n - 1].len()
    }
}

proof fn lemma_split_scan_len(s: Seq<char>, n: int)
    requires
        0 <= n <= s.len(),
    ensures
        split_scan(s, n).0.len() + split_scan(s, n).1.len() <= n,
    decreases n,
{
    if n > 0 {
        lemma_split_scan_len(s, n - 1);
    }
}

/// `str::split_whitespace`, on characters.
fn split_words(v: &Vec<char>) -> (out: Vec<Vec<char>>)
    ensures
        out@.len() == tokens(v@).len(),
        forall|i: int| 0 <= i < out@.len() ==> (#[trigger] out@[i])@ == tokens(v@)[i],
        out@.len() <= v@.len(),
{
    let mut done: Vec<Vec<char>> = Vec::new();
    let mut cur: Vec<char> = Vec::new();
    let mut i: usize = 0;
    while i < v.len()
        invariant
            i <= v@.len(),
            done@.len() == split_scan(v@, i as int).0.len(),
            forall|j: int| 0 <= j < done@.len() ==> (#[trigger] done@[j])@ == split_scan(v@, i as int).0[j],
            cur@ == split_scan(v@, i as int).1,
        decreases v@.len() - i,
    {
        let c = v[i];
        if is_whitespace(c) {
            if cur.len() > 0 {
                done.push(cur);
                cur = Vec::new();
            }
        } else {
            cur.push(c);
        }
        i += 1;
    }
    proof {
        lemma_split_scan_len(v@, v@.len() as int);
    }
    if cur.len() > 0 {
        done.push(cur);
    }
    done
}

fn is_stop(w: &Vec<char>, stops: &Vec<Vec<char>>) -> (b: bool)
    ensures
        b == stops@.map_values(|s: Vec<char>| s@).contains(w@),
{
    let ghost sv = stops@.map_values(|s: Vec<char>| s@);
    let mut i: usize = 0;
    while i < stops.len()
        invariant
            i <= stops@.len(),
            sv == stops@.map_values(|s: Vec<char>| s@),
            forall|j: int| 0 <= j < i ==> sv[j] != w@,
        decreases stops@.len() - i,
    {
        if same_chars(&stops[i], w) {
            assert(sv[i as int] == w@);
            return true;
        }
        i += 1;
    }
    false
}

fn ascii_digits_only(w: &Vec<char>) -> (b: bool)
    ensures
        b == forall|i: int| 0 <= i < w@.len() ==> '0' <= #[trigger] w@[i] && w@[i] <= '9',
{
    let mut i: usize = 0;
    while i < w.len()
        invariant
            i <= w@.len(),
            forall|j: int| 0 <= j < i ==> '0' <= #[trigger] w@[j] && w@[j] <= '9',
        decreases w@.len() - i,
    {
        if !('0' <= w[i] && w[i] <= '9') {
            return false;
        }
        i += 1;
    }
    true
}

fn is_rejected(w: &Vec<char>, rule: WordRule) -> (b: bool)
    ensures
        b == rejected(w@, rule),
{
    match rule {
        WordRule::Cloud => numbers_and_marks_only(w),
        WordRule::Portrait => ascii_digits_only(w),
    }
}

fn numbers_and_marks_only(w: &Vec<char>) -> (b: bool)
    ensures
        b == forall|i: int| 0 <= i < w@.len() ==> unicode_numeric(#[trigger] w@[i]) || is_ascii_punct(w@[i]),
{
    let mut i: usize = 0;
    while i < w.len()
        invariant
            i <= w@.len(),
            forall|j: int| 0 <= j < i ==> unicode_numeric(#[trigger] w@[j]) || is_ascii_punct(w@[j]),
        decreases w@.len() - i,
    {
        if !(char_is_numeric(w[i]) || is_ascii_punctuation(w[i])) {
            return false;
        }
        i += 1;
    }
    true
}


proof fn lemma_corpus_chars_grows(lines: Seq<Seq<char>>, k: int, n: int)
    requires
        0 <= k <= n <= lines.len(),
    ensures
        0 <= corpus_chars(lines, k) <= corpus_chars(lines, n),
    decreases n,
{
    if k < n {
        lemma_corpus_chars_grows(lines, k, n - 1);
    } else if n > 0 {
        lemma_corpus_chars_grows(lines, n - 1, n - 1);
    }
}

fn views_of(lines: &[String]) -> (out: Vec<Vec<char>>)
    ensures
        out@.len() == lines@.len(),
        forall|i: int| 0 <= i < out@.len() ==> (#[trigger] out@[i])@ == lines@[i]@,
{
    let mut out: Vec<Vec<char>> = Vec::new();
    let mut i: usize = 0;
    while i < lines.len()
        invariant
            i <= lines@.len(),
            out@.len() == i,
            forall|j: int| 0 <= j < i ==> (#[trigger] out@[j])@ == lines@[j]@,
        decreases lines@.len() - i,
    {
        out.push(chars_of(lines[i].as_str()));
        i += 1;
    }
    out
}

/// The tokens of all the lines, in order.
fn flat_tokens(lines: &[String]) -> (ts: Vec<Vec<char>>)
    ensures
        ts@.len() == all_tokens(line_views(lines@), lines@.len() as int).len(),
        forall|i: int|
            0 <= i < ts@.len() ==> (#[trigger] ts@[i])@ == all_tokens(line_views(lines@), lines@.len() as int)[i],
        ts@.len() <= corpus_chars(line_views(lines@), lines@.len() as int),
{
    let ghost lv = line_views(lines@);
    let mut ts: Vec<Vec<char>> = Vec::new();
    let mut li: usize = 0;
    while li < lines.len()
        invariant
            li <= lines@.len(),
            lv == line_views(lines@),
            ts@.len() == all_tokens(lv, li as int).len(),
            forall|i: int| 0 <= i < ts@.len() ==> (#[trigger] ts@[i])@ == all_tokens(lv, li as int)[i],
            ts@.len() <= corpus_chars(lv, li as int),
        decreases lines@.len() - li,
    {
        let line = chars_of(lines[li].as_str());
        assert(line@ == lv[li as int]);
        let words = split_words(&line);
        let ghost base = ts@;
        let mut w: usize = 0;
        while w < words.len()
            invariant
                w <= words@.len(),
                ts@.len() == base.len() + w,
                forall|i: int| 0 <= i < base.len() ==> #[trigger] ts@[i] == base[i],
                forall|i: int| 0 <= i < w ==> (#[trigger] ts@[base.len() + i])@ == words@[i]@,
            decreases words@.len() - w,
        {
            ts.push(words[w].clone());
            w += 1;
        }
        proof {
            let prev = all_tokens(lv, li as int);
            let next = all_tokens(lv, li + 1);
            assert(next == prev + tokens(lv[li as int]));
            assert forall|i: int| 0 <= i < ts@.len() implies (#[trigger] ts@[i])@ == next[i] by {
                if i < base.len() {
                    assert(ts@[i] == base[i]);
                } else {
                    assert(ts@[base.len() + (i - base.len())] == ts@[i]);
                    assert(words@[i - base.len()]@ == tokens(lv[li as int])[i - base.len()]);
                }
            }
        }
        li += 1;
    }
    ts
}

proof fn lemma_unseen_never_occurs(ts: Seq<Seq<char>>, w: Seq<char>, k: int)
    requires
        0 <= k <= ts.len(),
        forall|j: int| 0 <= j < k ==> ts[j] != w,
    ensures
        occurrences(ts, w, k) == 0,
    decreases k,
{
    if k > 0 {
        lemma_unseen_never_occurs(ts, w, k - 1);
    }
}

/// The words of a corpus with how often each occurs, each word once, in
/// order of first occurrence. The corpus is read line by line and split on
/// white space; a token counts when it is a word under `rule`.
pub fn count_words(corpus: &[String], stop_words: &[String], rule: WordRule) -> (out: Vec<(String, u64)>)
    requires
        corpus_chars(line_views(corpus@), corpus@.len() as int) <= u64::MAX,
    ensures
        forall|i: int, j: int| 0 <= i < j < out@.len() ==> (#[trigger] out@[i]).0@ != (#[trigger] out@[j]).0@,
        forall|i: int|
            0 <= i < out@.len() ==> counts_as((#[trigger] out@[i]).0@, line_views(stop_words@), rule) && out@[i].1
                == occurrences(
                all_tokens(line_views(corpus@), corpus@.len() as int),
                out@[i].0@,
                all_tokens(line_views(corpus@), corpus@.len() as int).len() as int,
            ),
        forall|k: int|
            0 <= k < all_tokens(line_views(corpus@), corpus@.len() as int).len() && counts_as(
                #[trigger] all_tokens(line_views(corpus@), corpus@.len() as int)[k],
                line_views(stop_words@),
                rule,
            ) ==> exists|i: int|
                0 <= i < out@.len() && out@[i].0@ == all_tokens(line_views(corpus@), corpus@.len() as int)[k],
{
    let ghost tv = all_tokens(line_views(corpus@), corpus@.len() as int);
    let ghost stops = line_views(stop_words@);
    let ts = flat_tokens(corpus);
    let stop_chars = views_of(stop_words);
    assert(stop_chars@.map_values(|s: Vec<char>| s@) =~= stops);
    let mut words: Vec<Vec<char>> = Vec::new();
    let mut counts: Vec<u64> = Vec::new();
    let n = ts.len();
    let mut k: usize = 0;
    while k < n
        invariant
            k <= n == ts@.len() == tv.len(),
            n <= u64::MAX,
            forall|i: int| 0 <= i < ts@.len() ==> (#[trigger] ts@[i])@ == tv[i],
            stop_chars@.map_values(|s: Vec<char>| s@) == stops,
            words@.len() == counts@.len(),
            forall|i: int, j: int| 0 <= i < j < words@.len() ==> (#[trigger] words@[i])@ != (#[trigger] words@[j])@,
            forall|i: int|
                0 <= i < words@.len() ==> counts_as((#[trigger] words@[i])@, stops, rule) && counts@[i]
                    == occurrences(tv, words@[i]@, k as int) && counts@[i] <= k,
            forall|j: int|
                0 <= j < k && counts_as(#[trigger] tv[j], stops, rule) ==> exists|i: int|
                    0 <= i < words@.len() && words@[i]@ == tv[j],
        decreases n - k,
    {
        let t = &ts[k];
        let ghost old_words = words@;
        assert(t@ == tv[k as int]);
        let word = t.len() > 1 && !is_stop(t, &stop_chars) && !is_rejected(t, rule);
        let ghost mut wit: int = -1;
        if word {
            let mut slot: usize = words.len();
            let mut i: usize = 0;
            while i < words.len()
                invariant
                    i <= words@.len(),
                    slot == words@.len() || (slot < i && words@[slot as int]@ == t@),
                    slot == words@.len() ==> forall|j: int| 0 <= j < i ==> (#[trigger] words@[j])@ != t@,
                decreases words@.len() - i,
            {
                if slot == words.len() && same_chars(&words[i], t) {
                    slot = i;
                }
                i += 1;
            }
            if slot < words.len() {
                let c = counts[slot] + 1;
                counts.set(slot, c);
                proof {
                    wit = slot as int;
                }
            } else {
                proof {
                    assert forall|j: int| 0 <= j < k implies tv[j] != t@ by {
                        if tv[j] == t@ {
                            let i = choose|i: int| 0 <= i < words@.len() && words@[i]@ == tv[j];
                        }
                    }
                    lemma_unseen_never_occurs(tv, t@, k as int);
                }
                words.push(t.clone());
                counts.push(1);
                proof {
                    wit = words@.len() - 1;
                }
            }
        }
        proof {
            assert forall|j: int|
                0 <= j < k + 1 && counts_as(#[trigger] tv[j], stops, rule) implies exists|i: int|
                    0 <= i < words@.len() && words@[i]@ == tv[j] by {
                if j == k {
                    assert(words@[wit]@ == tv[j]);
                } else {
                    let i = choose|i: int| 0 <= i < old_words.len() && old_words[i]@ == tv[j];
                    assert(words@[i] == old_words[i]);
                }
            }
        }
        k += 1;
    }
    let mut out: Vec<(String, u64)> = Vec::new();
    let mut i: usize = 0;
    while i < words.len()
        invariant
            i <= words@.len() == counts@.len(),
            out@.len() == i,
            forall|j: int| 0 <= j < i ==> (#[trigger] out@[j]).0@ == words@[j]@ && out@[j].1 == counts@[j],
        decreases words@.len() - i,
    {
        out.push((string_of(&words[i]), counts[i]));
        i += 1;
    }
    proof {
        assert forall|k: int|
            0 <= k < tv.len() && counts_as(#[trigger] tv[k], stops, rule) implies exists|i: int|
                0 <= i < out@.len() && out@[i].0@ == tv[k] by {
            let i = choose|i: int| 0 <= i < words@.len() && words@[i]@ == tv[k];
            assert(out@[i].0@ == words@[i]@);
        }
    }
    out
}


/// The words of a cloud's corpus with how often each occurs, each word
/// once, in order of first occurrence.
pub fn frequencies(corpus: &[String], stop_words: &[String]) -> (out: Vec<(String, u64)>)
    requires
        corpus_chars(line_views(corpus@), corpus@.len() as int) <= u64::MAX,
    ensures
        word_table(all_tokens(line_views(corpus@), corpus@.len() as int), line_views(stop_words@), WordRule::Cloud, out@),
{
    count_words(corpus, stop_words, WordRule::Cloud)
}

/// `table` holds each word of the tokens once with how often it occurs.
pub open spec fn word_table(ts: Seq<Seq<char>>, stops: Seq<Seq<char>>, rule: WordRule, table: Seq<(String, u64)>) -> bool {
    &&& forall|i: int, j: int| 0 <= i < j < table.len() ==> (#[trigger] table[i]).0@ != (#[trigger] table[j]).0@
    &&& forall|i: int|
        0 <= i < table.len() ==> counts_as((#[trigger] table[i]).0@, stops, rule) && table[i].1 == occurrences(
            ts,
            table[i].0@,
            ts.len() as int,
        )
    &&& forall|k: int|
        0 <= k < ts.len() && counts_as(#[trigger] ts[k], stops, rule) ==> exists|i: int|
            0 <= i < table.len() && table[i].0@ == ts[k]
}

/// Word `a` goes before word `b` in the cloud: more frequent, or as
/// frequent and earlier in code-point order.
pub open spec fn word_before(a: (String, u64), b: (String, u64)) -> bool {
    a.1 > b.1 || (a.1 == b.1 && chars_before(a.0@, b.0@))
}

/// `out` is the first `cap` words of `table` in cloud order: as many as
/// there are, up to `cap`, taken from the table, each once, none ranked
/// above one before it, and no word left out ranked above one taken.
pub open spec fn ranked_words(table: Seq<(String, u64)>, cap: int, out: Seq<(String, u64)>) -> bool {
    &&& out.len() == if table.len() < cap {
        table.len() as int
    } else {
        cap
    }
    &&& forall|i: int| 0 <= i < out.len() ==> table.contains(#[trigger] out[i])
    &&& forall|i: int, j: int| 0 <= i < j < out.len() ==> (#[trigger] out[i]).0@ != (#[trigger] out[j]).0@
    &&& forall|i: int, j: int| 0 <= i < j < out.len() ==> !word_before(#[trigger] out[j], #[trigger] out[i])
    &&& forall|k: int|
        0 <= k < table.len() ==> out.contains(#[trigger] table[k]) || forall|i: int|
            0 <= i < out.len() ==> !word_before(table[k], #[trigger] out[i])
}

/// How many words a cloud asked for `limit` shows at most.
pub open spec fn word_cap(limit: int) -> int {
    if limit < 1 {
        1
    } else if limit > CLOUD_MAX_WORDS {
        CLOUD_MAX_WORDS as int
    } else {
        limit
    }
}

proof fn lemma_word_before_strict(a: (String, u64), b: (String, u64), c: (String, u64))
    ensures
        !word_before(a, a),
        word_before(a, b) && word_before(b, c) ==> word_before(a, c),
{
    lemma_chars_before_strict(a.0@, b.0@, c.0@);
}

fn goes_before(a: &(String, u64), b: &(String, u64)) -> (r: bool)
    ensures
        r == word_before(*a, *b),
{
    if a.1 != b.1 {
        return a.1 > b.1;
    }
    let x = chars_of(a.0.as_str());
    let y = chars_of(b.0.as_str());
    chars_lt(&x, &y)
}

/// The words a cloud shows: the most frequent first, ties in code-point
/// order, at most `limit` of them (kept between one and two hundred).
pub fn top_words(freq: &Vec<(String, u64)>, limit: usize) -> (out: Vec<(String, u64)>)
    requires
        forall|i: int, j: int| 0 <= i < j < freq@.len() ==> (#[trigger] freq@[i]).0@ != (#[trigger] freq@[j]).0@,
    ensures
        ranked_words(freq@, word_cap(limit as int), out@),
{
    let cap: usize = if limit < 1 {
        1
    } else if limit > CLOUD_MAX_WORDS {
        CLOUD_MAX_WORDS
    } else {
        limit
    };
    let n = freq.len();
    let mut taken: Vec<bool> = Vec::new();
    while taken.len() < n
        invariant
            taken@.len() <= n == freq@.len(),
            forall|j: int| 0 <= j < taken@.len() ==> !taken@[j],
        decreases n - taken@.len(),
    {
        taken.push(false);
    }
    let mut out: Vec<(String, u64)> = Vec::new();
    let ghost mut picked: Seq<int> = seq![];
    while out.len() < cap && out.len() < n
        invariant
            n == freq@.len(),
            taken@.len() == n,
            out@.len() == picked.len(),
            out@.len() <= n,
            out@.len() <= cap,
            forall|i: int, j: int| 0 <= i < j < freq@.len() ==> (#[trigger] freq@[i]).0@ != (#[trigger] freq@[j]).0@,
            forall|i: int| 0 <= i < picked.len() ==> 0 <= #[trigger] picked[i] < n && out@[i] == freq@[picked[i]],
            forall|i: int, j: int| 0 <= i < j < picked.len() ==> #[trigger] picked[i] != #[trigger] picked[j],
            forall|k: int| 0 <= k < n ==> (#[trigger] taken@[k] <==> picked.contains(k)),
            forall|i: int, j: int| 0 <= i < j < out@.len() ==> !word_before(#[trigger] out@[j], #[trigger] out@[i]),
            forall|k: int, i: int|
                0 <= k < n && !taken@[k] && 0 <= i < out@.len() ==> !word_before(#[trigger] freq@[k], #[trigger] out@[i]),
        decreases n - out@.len(),
    {
        let mut best: usize = n;
        let mut k: usize = 0;
        while k < n
            invariant
                k <= n == freq@.len() == taken@.len(),
                best == n || (best < k && !taken@[best as int]),
                best == n ==> forall|j: int| 0 <= j < k ==> taken@[j],
                best < n ==> forall|j: int| 0 <= j < k && !taken@[j] ==> !word_before(#[trigger] freq@[j], freq@[best as int]),
            decreases n - k,
        {
            if !taken[k] {
                if best == n || goes_before(&freq[k], &freq[best]) {
                    proof {
                        lemma_word_before_strict(freq@[k as int], freq@[k as int], freq@[k as int]);
                        if best < n {
                            assert forall|j: int| 0 <= j < k + 1 && !taken@[j] implies !word_before(
                                #[trigger] freq@[j],
                                freq@[k as int],
                            ) by {
                                lemma_word_before_strict(freq@[j], freq@[k as int], freq@[best as int]);
                            }
                        }
                    }
                    best = k;
                }
            }
            k += 1;
        }
        if best == n {
            proof {
                assert forall|j: int| 0 <= j < n implies picked.contains(j) by {
                    assert(taken@[j]);
                }
                crate::collect::lemma_all_picked(picked, n as int);
                assert(false);
            }
            return out;
        }
        let item = (freq[best].0.clone(), freq[best].1);
        assert(item == freq@[best as int]);
        out.push(item);
        taken.set(best, true);
        proof {
            let old_picked = picked;
            picked = picked.push(best as int);
            assert forall|k: int| 0 <= k < n implies (#[trigger] taken@[k] <==> picked.contains(k)) by {
                if k == best {
                    assert(picked[picked.len() - 1] == k);
                } else {
                    if old_picked.contains(k) {
                        let i = choose|i: int| 0 <= i < old_picked.len() && old_picked[i] == k;
                        assert(picked[i] == k);
                    }
                    if picked.contains(k) {
                        let i = choose|i: int| 0 <= i < picked.len() && picked[i] == k;
                        assert(i < old_picked.len());
                        assert(old_picked[i] == k);
                    }
                }
            }
            assert forall|i: int, j: int| 0 <= i < j < picked.len() implies #[trigger] picked[i] != #[trigger] picked[j] by {
                if j == picked.len() - 1 {
                    assert(picked[i] == old_picked[i]);
                    assert(old_picked.contains(picked[i]));
                } else {
                    assert(picked[i] == old_picked[i] && picked[j] == old_picked[j]);
                }
            }
            assert forall|i: int| 0 <= i < picked.len() implies 0 <= #[trigger] picked[i] < n && out@[i] == freq@[picked[i]] by {
                if i < old_picked.len() {
                    assert(picked[i] == old_picked[i]);
                }
            }
        }
    }
    proof {
        assert forall|i: int| 0 <= i < out@.len() implies freq@.contains(#[trigger] out@[i]) by {
            assert(out@[i] == freq@[picked[i]]);
        }
        assert forall|i: int, j: int| 0 <= i < j < out@.len() implies (#[trigger] out@[i]).0@ != (#[trigger] out@[j]).0@ by {
            assert(out@[i] == freq@[picked[i]] && out@[j] == freq@[picked[j]]);
        }
        assert forall|k: int| 0 <= k < freq@.len() implies out@.contains(#[trigger] freq@[k]) || forall|i: int|
            0 <= i < out@.len() ==> !word_before(freq@[k], #[trigger] out@[i]) by {
            if taken@[k] {
                let i = choose|i: int| 0 <= i < picked.len() && picked[i] == k;
                assert(out@[i] == freq@[k]);
            }
        }
    }
    out
}

} // verus!
