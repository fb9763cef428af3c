//! The countable side of a writing style: how a person's readable messages
//! end, what they carry (laughter, modal particles, commas, self and other
//! reference), how long they run, how the messages are spaced in time and
//! how often one repeats the last.
//!
//! Everything here is counted; the rates and spreads read off these counts
//! are left to the caller.

use vstd::prelude::*;
use crate::collect::{meaningful, meaningful_text, TextRow};
use crate::text::{
    char_in, char_lowercase, contains, contains_chars, same_chars, trim, trim_str, unicode_lower,
};

verus! {

/// A message of at least this many characters is long.
pub const LONG_MESSAGE: i32 = 40;

/// A message of at most this many characters is short.
pub const SHORT_MESSAGE: i32 = 5;

/// The counts a style is read from, over the readable messages.
#[derive(Debug, Clone)]
pub struct StyleCounts {
    /// Readable messages: the denominator of every rate.
    pub readable: u64,
    /// Messages ending in `?` or `？`.
    pub question: u64,
    /// Messages ending in `!` or `！`.
    pub exclaim: u64,
    /// Messages trailing off (`…`, `...`, `。。`).
    pub ellipsis: u64,
    /// Commas (`,` and `，`) over all messages.
    pub commas: u64,
    /// Messages with laughter in them.
    pub laugh: u64,
    /// Messages with a modal particle.
    pub modal: u64,
    /// Self references (`我`, `俺`, `咱`).
    pub self_ref: u64,
    /// References to the other (`你`, `您`).
    pub you_ref: u64,
    /// Characters over all messages, trimmed.
    pub chars: u64,
    /// Messages of at least [`LONG_MESSAGE`] characters.
    pub long: u64,
    /// Messages of at most [`SHORT_MESSAGE`] characters.
    pub short: u64,
    /// The recorded length of each readable message, in reading order.
    pub lengths: Vec<u64>,
    /// The gaps between consecutive messages, oldest first, in seconds.
    pub gaps: Vec<u64>,
    /// Messages saying exactly what the one before said.
    pub repeat: u64,
}

/// A message that counts for the style: it has a length, and it says more
/// than its markers.
pub open spec fn readable(r: TextRow) -> bool {
    r.length > 0 && meaningful_text(r.content@) is Some
}

/// The text of a message as the style reads it.
pub open spec fn text_of(r: TextRow) -> Seq<char> {
    trim(r.content@)
}

pub open spec fn one_if(b: bool) -> nat {
    if b {
        1
    } else {
        0
    }
}

/// The text ends in one of two characters.
pub open spec fn ends_in(t: Seq<char>, a: char, b: char) -> bool {
    t.len() > 0 && (t.last() == a || t.last() == b)
}

/// The text trails off.
pub open spec fn trails_off(t: Seq<char>) -> bool {
    contains(t, seq!['…']) || contains(t, seq!['.', '.', '.']) || contains(t, seq!['。', '。'])
}

/// How many characters of `t` are in `set`.
pub open spec fn count_in(t: Seq<char>, set: Seq<char>) -> nat
    decreases t.len(),
{
    if t.len() == 0 {
        0
    } else {
        count_in(t.drop_last(), set) + one_if(set.contains(t.last()))
    }
}

/// The text with each character lowercased.
pub open spec fn folded(t: Seq<char>) -> Seq<char>
    decreases t.len(),
{
    if t.len() == 0 {
        seq![]
    } else {
        folded(t.drop_last()) + unicode_lower(t.last())
    }
}

/// The text laughs: `哈`, `hh`, `233`, `xswl`, `lol`, `笑死` or `wwww`,
/// in any case.
pub open spec fn laughs(t: Seq<char>) -> bool {
    let l = folded(t);
    contains(l, seq!['哈']) || contains(l, seq!['h', 'h']) || contains(l, seq!['2', '3', '3'])
        || contains(l, seq!['x', 's', 'w', 'l']) || contains(l, seq!['l', 'o', 'l']) || contains(
        l,
        seq!['笑', '死'],
    ) || contains(l, seq!['w', 'w', 'w', 'w'])
}

pub open spec fn modal_set() -> Seq<char> {
    seq!['吧', '呢', '哦', '啊', '嘛', '啦', '诶', '呀']
}

pub open spec fn comma_set() -> Seq<char> {
    seq![',', '，']
}

pub open spec fn self_set() -> Seq<char> {
    seq!['我', '俺', '咱']
}

pub open spec fn you_set() -> Seq<char> {
    seq!['你', '您']
}

proof fn lemma_count_in_bounded(t: Seq<char>, set: Seq<char>)
    ensures
        count_in(t, set) <= t.len(),
    decreases t.len(),
{
    if t.len() > 0 {
        lemma_count_in_bounded(t.drop_last(), set);
    }
}

fn count_of(t: &Vec<char>, set: &Vec<char>) -> (n: u64)
    ensures
        n == count_in(t@, set@),
{
    let mut n: u64 = 0;
    let mut i: usize = 0;
    while i < t.len()
        invariant
            i <= t@.len(),
            n == count_in(t@.take(i as int), set@),
            n <= i,
        decreases t@.len() - i,
    {
        assert(t@.take(i + 1).drop_last() =~= t@.take(i as int));
        if char_in(t[i], set) {
            n += 1;
        }
        i += 1;
    }
    assert(t@.take(i as int) =~= t@);
    n
}

fn folded_chars(t: &Vec<char>) -> (out: Vec<char>)
    ensures
        out@ == folded(t@),
{
    let mut out: Vec<char> = Vec::new();
    let mut i: usize = 0;
    while i < t.len()
        invariant
            i <= t@.len(),
            out@ == folded(t@.take(i as int)),
        decreases t@.len() - i,
    {
        assert(t@.take(i + 1).drop_last() =~= t@.take(i as int));
        let low = char_lowercase(t[i]);
        let ghost base = out@;
        let mut k: usize = 0;
        while k < low.len()
            invariant
                k <= low@.len(),
                out@ == base + low@.take(k as int),
            decreases low@.len() - k,
        {
            out.push(low[k]);
            k += 1;
            assert(out@ =~= base + low@.take(k as int));
        }
        assert(low@.take(k as int) =~= low@);
        i += 1;
    }
    assert(t@.take(i as int) =~= t@);
    out
}

fn has_laugh(t: &Vec<char>) -> (b: bool)
    ensures
        b == laughs(t@),
{
    let l = folded_chars(t);
    let ha = vec!['哈'];
    let hh = vec!['h', 'h'];
    let n233 = vec!['2', '3', '3'];
    let xswl = vec!['x', 's', 'w', 'l'];
    let lol = vec!['l', 'o', 'l'];
    let xs = vec!['笑', '死'];
    let wwww = vec!['w', 'w', 'w', 'w'];
    proof {
        assert(ha@ =~= seq!['哈']);
        assert(hh@ =~= seq!['h', 'h']);
        assert(n233@ =~= seq!['2', '3', '3']);
        assert(xswl@ =~= seq!['x', 's', 'w', 'l']);
        assert(lol@ =~= seq!['l', 'o', 'l']);
        assert(xs@ =~= seq!['笑', '死']);
        assert(wwww@ =~= seq!['w', 'w', 'w', 'w']);
    }
    contains_chars(&l, &ha) || contains_chars(&l, &hh) || contains_chars(&l, &n233)
        || contains_chars(&l, &xswl) || contains_chars(&l, &lol) || contains_chars(&l, &xs)
        || contains_chars(&l, &wwww)
}

fn trails(t: &Vec<char>) -> (b: bool)
    ensures
        b == trails_off(t@),
{
    let a = vec!['…'];
    let b = vec!['.', '.', '.'];
    let c = vec!['。', '。'];
    proof {
        assert(a@ =~= seq!['…']);
        assert(b@ =~= seq!['.', '.', '.']);
        assert(c@ =~= seq!['。', '。']);
    }
    contains_chars(t, &a) || contains_chars(t, &b) || contains_chars(t, &c)
}

fn ends_with_either(t: &Vec<char>, a: char, b: char) -> (r: bool)
    ensures
        r == ends_in(t@, a, b),
{
    t.len() > 0 && (t[t.len() - 1] == a || t[t.len() - 1] == b)
}


/// What is counted of one readable message.
pub enum Mark {
    Readable,
    Question,
    Exclaim,
    Ellipsis,
    Commas,
    Laugh,
    Modal,
    SelfRef,
    YouRef,
    Chars,
    Long,
    Short,
}

/// The count one readable message adds to a mark.
pub open spec fn mark_of(r: TextRow, m: Mark) -> nat {
    let t = text_of(r);
    match m {
        Mark::Readable => 1,
        Mark::Question => one_if(ends_in(t, '?', '？')),
        Mark::Exclaim => one_if(ends_in(t, '!', '！')),
        Mark::Ellipsis => one_if(trails_off(t)),
        Mark::Commas => count_in(t, comma_set()),
        Mark::Laugh => one_if(laughs(t)),
        Mark::Modal => one_if(count_in(t, modal_set()) > 0),
        Mark::SelfRef => count_in(t, self_set()),
        Mark::YouRef => count_in(t, you_set()),
        Mark::Chars => t.len(),
        Mark::Long => one_if(r.length >= LONG_MESSAGE),
        Mark::Short => one_if(r.length <= SHORT_MESSAGE),
    }
}

/// A mark summed over the readable messages.
pub open spec fn total(rows: Seq<TextRow>, m: Mark) -> nat
    decreases rows.len(),
{
    if rows.len() == 0 {
        0
    } else {
        total(rows.drop_last(), m) + if readable(rows.last()) {
            mark_of(rows.last(), m)
        } else {
            0
        }
    }
}

/// The positions of the readable messages, in reading order.
pub open spec fn readable_ids(rows: Seq<TextRow>) -> Seq<usize>
    decreases rows.len(),
{
    if rows.len() == 0 {
        seq![]
    } else {
        let prev = readable_ids(rows.drop_last());
        if readable(rows.last()) {
            prev.push((rows.len() - 1) as usize)
        } else {
            prev
        }
    }
}

/// The recorded lengths of the readable messages, in reading order.
pub open spec fn lengths_of(rows: Seq<TextRow>) -> Seq<u64>
    decreases rows.len(),
{
    if rows.len() == 0 {
        seq![]
    } else {
        let prev = lengths_of(rows.drop_last());
        if readable(rows.last()) {
            prev.push(rows.last().length as u64)
        } else {
            prev
        }
    }
}

proof fn lemma_total_grows(rows: Seq<TextRow>, m: Mark, k: int)
    requires
        0 <= k <= rows.len(),
    ensures
        total(rows.take(k), m) <= total(rows, m),
    decreases rows.len(),
{
    if k < rows.len() {
        assert(rows.drop_last().take(k) =~= rows.take(k));
        lemma_total_grows(rows.drop_last(), m, k);
    } else {
        assert(rows.take(k) =~= rows);
    }
}

proof fn lemma_ids_below(rows: Seq<TextRow>)
    requires
        rows.len() <= usize::MAX,
    ensures
        forall|i: int| 0 <= i < readable_ids(rows).len() ==> #[trigger] readable_ids(rows)[i] < rows.len()
            && readable(rows[readable_ids(rows)[i] as int]),
        forall|i: int, j: int|
            0 <= i < j < readable_ids(rows).len() ==> #[trigger] readable_ids(rows)[i] < #[trigger] readable_ids(rows)[j],
        readable_ids(rows).len() == total(rows, Mark::Readable),
    decreases rows.len(),
{
    if rows.len() > 0 {
        lemma_ids_below(rows.drop_last());
        let prev = readable_ids(rows.drop_last());
        assert forall|i: int| 0 <= i < prev.len() implies rows[prev[i] as int] == rows.drop_last()[prev[i] as int] by {}
    }
}

/// The counts so far.
struct Running {
    readable: u64,
    question: u64,
    exclaim: u64,
    ellipsis: u64,
    commas: u64,
    laugh: u64,
    modal: u64,
    self_ref: u64,
    you_ref: u64,
    chars: u64,
    long: u64,
    short: u64,
}

spec fn running_is(c: Running, rows: Seq<TextRow>) -> bool {
    &&& c.readable == total(rows, Mark::Readable)
    &&& c.question == total(rows, Mark::Question)
    &&& c.exclaim == total(rows, Mark::Exclaim)
    &&& c.ellipsis == total(rows, Mark::Ellipsis)
    &&& c.commas == total(rows, Mark::Commas)
    &&& c.laugh == total(rows, Mark::Laugh)
    &&& c.modal == total(rows, Mark::Modal)
    &&& c.self_ref == total(rows, Mark::SelfRef)
    &&& c.you_ref == total(rows, Mark::YouRef)
    &&& c.chars == total(rows, Mark::Chars)
    &&& c.long == total(rows, Mark::Long)
    &&& c.short == total(rows, Mark::Short)
}

spec fn running_bounded(c: Running, k: int) -> bool {
    &&& c.readable <= k
    &&& c.question <= k
    &&& c.exclaim <= k
    &&& c.ellipsis <= k
    &&& c.laugh <= k
    &&& c.modal <= k
    &&& c.long <= k
    &&& c.short <= k
    &&& c.commas <= c.chars
    &&& c.self_ref <= c.chars
    &&& c.you_ref <= c.chars
}

/// Counts the marks over the messages, and lists the readable ones with
/// their lengths.
fn count_marks(rows: &[TextRow]) -> (res: (Running, Vec<usize>, Vec<u64>))
    requires
        total(rows@, Mark::Chars) <= u64::MAX,
    ensures
        running_is(res.0, rows@),
        res.1@ == readable_ids(rows@),
        res.2@ == lengths_of(rows@),
{
    let ghost s = rows@;
    let mut c = Running {
        readable: 0,
        question: 0,
        exclaim: 0,
        ellipsis: 0,
        commas: 0,
        laugh: 0,
        modal: 0,
        self_ref: 0,
        you_ref: 0,
        chars: 0,
        long: 0,
        short: 0,
    };
    let mut ids: Vec<usize> = Vec::new();
    let mut lengths: Vec<u64> = Vec::new();
    let commas = vec![',', '，'];
    let modals = vec!['吧', '呢', '哦', '啊', '嘛', '啦', '诶', '呀'];
    let me = vec!['我', '俺', '咱'];
    let you = vec!['你', '您'];
    proof {
        assert(commas@ =~= comma_set());
        assert(modals@ =~= modal_set());
        assert(me@ =~= self_set());
        assert(you@ =~= you_set());
        assert(s.take(0) =~= Seq::<TextRow>::empty());
    }
    let mut k: usize = 0;
    while k < rows.len()
        invariant
            k <= s.len(),
            s == rows@,
            total(s, Mark::Chars) <= u64::MAX,
            commas@ == comma_set(),
            modals@ == modal_set(),
            me@ == self_set(),
            you@ == you_set(),
            running_is(c, s.take(k as int)),
            running_bounded(c, k as int),
            ids@ == readable_ids(s.take(k as int)),
            lengths@ == lengths_of(s.take(k as int)),
        decreases s.len() - k,
    {
        let row = &rows[k];
        let ghost before = s.take(k as int);
        let ghost after = s.take(k + 1);
        assert(after.drop_last() =~= before);
        assert(after.last() == *row);
        proof {
            lemma_total_grows(s, Mark::Chars, k + 1);
        }
        if row.length > 0 && meaningful(row.content.as_str()).is_some() {
            let t = trim_str(row.content.as_str());
            proof {
                lemma_count_in_bounded(t@, comma_set());
                lemma_count_in_bounded(t@, self_set());
                lemma_count_in_bounded(t@, you_set());
            }
            c.readable = c.readable + 1;
            if ends_with_either(&t, '?', '？') {
                c.question = c.question + 1;
            }
            if ends_with_either(&t, '!', '！') {
                c.exclaim = c.exclaim + 1;
            }
            if trails(&t) {
                c.ellipsis = c.ellipsis + 1;
            }
            let n = t.len() as u64;
            c.commas = c.commas + count_of(&t, &commas);
            if has_laugh(&t) {
                c.laugh = c.laugh + 1;
            }
            if count_of(&t, &modals) > 0 {
                c.modal = c.modal + 1;
            }
            c.self_ref = c.self_ref + count_of(&t, &me);
            c.you_ref = c.you_ref + count_of(&t, &you);
            c.chars = c.chars + n;
            if row.length >= LONG_MESSAGE {
                c.long = c.long + 1;
            }
            if row.length <= SHORT_MESSAGE {
                c.short = c.short + 1;
            }
            ids.push(k);
            lengths.push(row.length as u64);
        }
        k += 1;
    }
    assert(s.take(k as int) =~= s);
    (c, ids, lengths)
}


/// `out` lists the positions `x` in time order, positions with the same time
/// keeping their order in `x`; `p` tells where each came from in `x`.
pub open spec fn by_time(rows: Seq<TextRow>, x: Seq<usize>, out: Seq<usize>, p: Seq<int>) -> bool {
    &&& p.len() == x.len()
    &&& out.len() == x.len()
    &&& forall|i: int| 0 <= i < p.len() ==> 0 <= #[trigger] p[i] < x.len() && out[i] == x[p[i]]
    &&& forall|i: int, j: int| 0 <= i < j < p.len() ==> #[trigger] p[i] != #[trigger] p[j]
    &&& forall|i: int, j: int|
        0 <= i < j < out.len() ==> rows[#[trigger] out[i] as int].time <= rows[#[trigger] out[j] as int].time
    &&& forall|i: int, j: int|
        0 <= i < j < out.len() && rows[#[trigger] out[i] as int].time == rows[#[trigger] out[j] as int].time
            ==> p[i] < p[j]
}

/// The gaps between consecutive messages of `order`.
pub open spec fn gaps_of(rows: Seq<TextRow>, order: Seq<usize>) -> Seq<int> {
    if order.len() < 2 {
        seq![]
    } else {
        Seq::new(
            (order.len() - 1) as nat,
            |i: int| rows[order[i + 1] as int].time - rows[order[i] as int].time,
        )
    }
}

/// Among the first `n` messages of `order`, how many say exactly what the one
/// before said.
pub open spec fn repeats(rows: Seq<TextRow>, order: Seq<usize>, n: int) -> nat
    decreases n,
{
    if n <= 1 {
        0
    } else {
        repeats(rows, order, n - 1) + one_if(
            text_of(rows[order[n - 2] as int]) == text_of(rows[order[n - 1] as int]),
        )
    }
}

/// Puts positions into time order, equal times keeping their order.
fn chronological(rows: &[TextRow], ids: &Vec<usize>) -> (out: Vec<usize>)
    requires
        forall|i: int| 0 <= i < ids@.len() ==> #[trigger] ids@[i] < rows@.len(),
    ensures
        exists|p: Seq<int>| #[trigger] by_time(rows@, ids@, out@, p),
        forall|i: int| 0 <= i < out@.len() ==> #[trigger] out@[i] < rows@.len(),
{
    let ghost x = ids@;
    let ghost r = rows@;
    let mut out: Vec<usize> = Vec::new();
    let ghost mut p: Seq<int> = seq![];
    let mut k: usize = 0;
    while k < ids.len()
        invariant
            k <= x.len(),
            x == ids@,
            r == rows@,
            forall|i: int| 0 <= i < x.len() ==> #[trigger] x[i] < r.len(),
            forall|i: int| 0 <= i < out@.len() ==> #[trigger] out@[i] < r.len(),
            out@.len() == k,
            p.len() == k,
            forall|i: int| 0 <= i < p.len() ==> 0 <= #[trigger] p[i] < k && out@[i] == x[p[i]],
            forall|i: int, j: int| 0 <= i < j < p.len() ==> #[trigger] p[i] != #[trigger] p[j],
            forall|i: int, j: int|
                0 <= i < j < out@.len() ==> r[#[trigger] out@[i] as int].time <= r[#[trigger] out@[j] as int].time,
            forall|i: int, j: int|
                0 <= i < j < out@.len() && r[#[trigger] out@[i] as int].time == r[#[trigger] out@[j] as int].time
                    ==> p[i] < p[j],
        decreases x.len() - k,
    {
        let id = ids[k];
        assert(id == x[k as int]);
        let t = rows[id].time;
        let mut pos: usize = 0;
        while pos < out.len() && rows[out[pos]].time <= t
            invariant
                pos <= out@.len(),
                forall|i: int| 0 <= i < out@.len() ==> #[trigger] out@[i] < r.len(),
                r == rows@,
                forall|i: int| 0 <= i < pos ==> r[#[trigger] out@[i] as int].time <= t,
            decreases out@.len() - pos,
        {
            pos += 1;
        }
        let ghost old_out = out@;
        let ghost old_p = p;
        out.insert(pos, id);
        proof {
            p = old_p.insert(pos as int, k as int);
            assert forall|i: int| 0 <= i < p.len() implies 0 <= #[trigger] p[i] < k + 1 && out@[i] == x[p[i]] by {
                if i < pos {
                    assert(p[i] == old_p[i]);
                } else if i > pos {
                    assert(p[i] == old_p[i - 1]);
                }
            }
            assert forall|i: int| 0 <= i < out@.len() implies #[trigger] out@[i] < r.len() by {
                assert(out@[i] == x[p[i]]);
            }
            assert forall|i: int, j: int| 0 <= i < j < p.len() implies #[trigger] p[i] != #[trigger] p[j] by {
                if i < pos && j < pos {
                    assert(p[i] == old_p[i] && p[j] == old_p[j]);
                } else if i < pos && j > pos {
                    assert(p[i] == old_p[i] && p[j] == old_p[j - 1]);
                } else if i > pos && j > pos {
                    assert(p[i] == old_p[i - 1] && p[j] == old_p[j - 1]);
                } else if i == pos {
                    assert(p[j] == old_p[j - 1]);
                } else {
                    assert(p[i] == old_p[i]);
                }
            }
            assert forall|i: int, j: int| 0 <= i < j < out@.len() implies r[#[trigger] out@[i] as int].time
                <= r[#[trigger] out@[j] as int].time by {
                if i < pos && j < pos {
                    assert(out@[i] == old_out[i] && out@[j] == old_out[j]);
                } else if i < pos && j > pos {
                    assert(out@[i] == old_out[i] && out@[j] == old_out[j - 1]);
                } else if i > pos && j > pos {
                    assert(out@[i] == old_out[i - 1] && out@[j] == old_out[j - 1]);
                } else if i == pos {
                    assert(out@[j] == old_out[j - 1]);
                    assert(r[old_out[pos as int] as int].time > t);
                    assert(r[old_out[pos as int] as int].time <= r[old_out[j - 1] as int].time || j - 1 == pos);
                } else {
                    assert(out@[i] == old_out[i]);
                }
            }
            assert forall|i: int, j: int|
                0 <= i < j < out@.len() && r[#[trigger] out@[i] as int].time == r[#[trigger] out@[j] as int].time implies p[i]
                < p[j] by {
                if i < pos && j < pos {
                    assert(out@[i] == old_out[i] && out@[j] == old_out[j]);
                    assert(p[i] == old_p[i] && p[j] == old_p[j]);
                } else if i < pos && j > pos {
                    assert(out@[i] == old_out[i] && out@[j] == old_out[j - 1]);
                    assert(p[i] == old_p[i] && p[j] == old_p[j - 1]);
                } else if i > pos && j > pos {
                    assert(out@[i] == old_out[i - 1] && out@[j] == old_out[j - 1]);
                    assert(p[i] == old_p[i - 1] && p[j] == old_p[j - 1]);
                } else if i == pos {
                    assert(out@[j] == old_out[j - 1]);
                    assert(r[old_out[pos as int] as int].time > t);
                    assert(r[old_out[pos as int] as int].time <= r[old_out[j - 1] as int].time || j - 1 == pos);
                } else {
                    assert(out@[i] == old_out[i]);
                    assert(p[i] == old_p[i]);
                }
            }
        }
        k += 1;
    }
    assert(by_time(r, x, out@, p));
    out
}


fn gaps_between(rows: &[TextRow], order: &Vec<usize>) -> (gaps: Vec<u64>)
    requires
        forall|i: int| 0 <= i < order@.len() ==> #[trigger] order@[i] < rows@.len(),
        forall|i: int, j: int|
            0 <= i < j < order@.len() ==> rows@[#[trigger] order@[i] as int].time <= rows@[#[trigger] order@[j] as int].time,
    ensures
        gaps@.len() == gaps_of(rows@, order@).len(),
        forall|i: int| 0 <= i < gaps@.len() ==> #[trigger] gaps@[i] == gaps_of(rows@, order@)[i],
{
    let mut gaps: Vec<u64> = Vec::new();
    if order.len() < 2 {
        return gaps;
    }
    let mut i: usize = 1;
    while i < order.len()
        invariant
            1 <= i <= order@.len(),
            order@.len() >= 2,
            forall|j: int| 0 <= j < order@.len() ==> #[trigger] order@[j] < rows@.len(),
            forall|a: int, b: int|
                0 <= a < b < order@.len() ==> rows@[#[trigger] order@[a] as int].time <= rows@[#[trigger] order@[b] as int].time,
            gaps@.len() == i - 1,
            forall|j: int| 0 <= j < gaps@.len() ==> #[trigger] gaps@[j] == gaps_of(rows@, order@)[j],
        decreases order@.len() - i,
    {
        let later = rows[order[i]].time;
        let earlier = rows[order[i - 1]].time;
        assert(earlier <= later);
        let gap = (later as i128 - earlier as i128) as u64;
        gaps.push(gap);
        i += 1;
    }
    gaps
}

fn count_repeats(rows: &[TextRow], order: &Vec<usize>) -> (n: u64)
    requires
        forall|i: int| 0 <= i < order@.len() ==> #[trigger] order@[i] < rows@.len(),
    ensures
        n == repeats(rows@, order@, order@.len() as int),
{
    let mut n: u64 = 0;
    if order.len() < 2 {
        return 0;
    }
    let mut i: usize = 1;
    while i < order.len()
        invariant
            1 <= i <= order@.len(),
            forall|j: int| 0 <= j < order@.len() ==> #[trigger] order@[j] < rows@.len(),
            n == repeats(rows@, order@, i as int),
            n < i,
        decreases order@.len() - i,
    {
        let before = trim_str(rows[order[i - 1]].content.as_str());
        let after = trim_str(rows[order[i]].content.as_str());
        if same_chars(&before, &after) {
            n += 1;
        }
        i += 1;
    }
    n
}

/// The style counts of a person's messages, read newest first. Only readable
/// messages count; the gaps and repeats are read in time order, messages of
/// the same second keeping their reading order.
pub fn style_of(rows: &[TextRow]) -> (c: StyleCounts)
    requires
        total(rows@, Mark::Chars) <= u64::MAX,
    ensures
        c.readable == total(rows@, Mark::Readable),
        c.question == total(rows@, Mark::Question),
        c.exclaim == total(rows@, Mark::Exclaim),
        c.ellipsis == total(rows@, Mark::Ellipsis),
        c.commas == total(rows@, Mark::Commas),
        c.laugh == total(rows@, Mark::Laugh),
        c.modal == total(rows@, Mark::Modal),
        c.self_ref == total(rows@, Mark::SelfRef),
        c.you_ref == total(rows@, Mark::YouRef),
        c.chars == total(rows@, Mark::Chars),
        c.long == total(rows@, Mark::Long),
        c.short == total(rows@, Mark::Short),
        c.lengths@ == lengths_of(rows@),
        exists|order: Seq<usize>, p: Seq<int>|
            #[trigger] by_time(rows@, readable_ids(rows@), order, p) && c.gaps@.len() == gaps_of(
                rows@,
                order,
            ).len() && (forall|i: int| 0 <= i < c.gaps@.len() ==> c.gaps@[i] == gaps_of(rows@, order)[i])
                && c.repeat == repeats(rows@, order, order.len() as int),
{
    let (counts, ids, lengths) = count_marks(rows);
    proof {
        assert(rows@.len() == rows.len());
        lemma_ids_below(rows@);
    }
    let order = chronological(rows, &ids);
    let gaps = gaps_between(rows, &order);
    let repeat = count_repeats(rows, &order);
    StyleCounts {
        readable: counts.readable,
        question: counts.question,
        exclaim: counts.exclaim,
        ellipsis: counts.ellipsis,
        commas: counts.commas,
        laugh: counts.laugh,
        modal: counts.modal,
        self_ref: counts.self_ref,
        you_ref: counts.you_ref,
        chars: counts.chars,
        long: counts.long,
        short: counts.short,
        lengths,
        gaps,
        repeat,
    }
}


/// Every share the style reports is a share: no more messages ask, exclaim,
/// trail off, laugh, carry a modal particle, run long or run short than
/// there are readable messages.
pub proof fn lemma_shares_bounded(rows: Seq<TextRow>)
    ensures
        total(rows, Mark::Question) <= total(rows, Mark::Readable),
        total(rows, Mark::Exclaim) <= total(rows, Mark::Readable),
        total(rows, Mark::Ellipsis) <= total(rows, Mark::Readable),
        total(rows, Mark::Laugh) <= total(rows, Mark::Readable),
        total(rows, Mark::Modal) <= total(rows, Mark::Readable),
        total(rows, Mark::Long) <= total(rows, Mark::Readable),
        total(rows, Mark::Short) <= total(rows, Mark::Readable),
        total(rows, Mark::Commas) <= total(rows, Mark::Chars),
        total(rows, Mark::SelfRef) <= total(rows, Mark::Chars),
        total(rows, Mark::YouRef) <= total(rows, Mark::Chars),
    decreases rows.len(),
{
    if rows.len() > 0 {
        lemma_shares_bounded(rows.drop_last());
        let t = text_of(rows.last());
        lemma_count_in_bounded(t, comma_set());
        lemma_count_in_bounded(t, self_set());
        lemma_count_in_bounded(t, you_set());
    }
}

} // verus!
