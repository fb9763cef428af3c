//! Following a recall: when someone withdraws the message that triggered the
//! bot, the bot withdraws what it said in answer.
//!
//! The bookkeeping is a small table from trigger to replies. A reply can
//! arrive before or after the recall, so both orders meet here: replies sent
//! while the trigger stands are remembered, and a recall hands them back for
//! deletion; once a trigger is recalled, every later reply is handed back at
//! once. Entries expire after half an hour and the table never holds more
//! than a fixed number of triggers. Nothing here survives a restart; the
//! clock is the caller's.

use vstd::prelude::*;
use crate::text::{owned, i64_text, push_str};

verus! {

/// How long a trigger is remembered, in milliseconds.
pub const RETENTION_MS: u64 = 1800000;

/// At most this many triggers are remembered.
pub const MAX_TRIGGERS: usize = 4096;

/// A trigger: the bot's identity, the channel, the trigger message.
pub type Key = (String, String, String);

pub struct Entry {
    /// When the trigger was first seen, in milliseconds on the caller's clock.
    pub at: u64,
    pub recalled: bool,
    pub replies: Vec<String>,
}

/// Triggers and what was said in answer.
pub struct Pending {
    entries: Vec<(Key, Entry)>,
}

pub type KeyView = (Seq<char>, Seq<char>, Seq<char>);

pub type EntryView = (u64, bool, Seq<Seq<char>>);

pub open spec fn key_view(k: Key) -> KeyView {
    (k.0@, k.1@, k.2@)
}

pub open spec fn string_views(v: Seq<String>) -> Seq<Seq<char>> {
    v.map_values(|s: String| s@)
}

pub open spec fn entry_view(e: Entry) -> EntryView {
    (e.at, e.recalled, string_views(e.replies@))
}

pub open spec fn table_view(es: Seq<(Key, Entry)>) -> Seq<(KeyView, EntryView)> {
    es.map_values(|p: (Key, Entry)| (key_view(p.0), entry_view(p.1)))
}

impl View for Pending {
    type V = Seq<(KeyView, EntryView)>;

    closed spec fn view(&self) -> Seq<(KeyView, EntryView)> {
        table_view(self.entries@)
    }
}

// ==================== the model ====================

/// Still remembered at `now`: younger than the retention (a clock that went
/// backwards counts as no time).
pub open spec fn young(at: u64, now: u64) -> bool {
    (if now >= at {
        now - at
    } else {
        0
    }) < RETENTION_MS
}

pub open spec fn keep_young(es: Seq<(KeyView, EntryView)>, now: u64) -> Seq<(KeyView, EntryView)>
    decreases es.len(),
{
    if es.len() == 0 {
        seq![]
    } else if young(es.last().1.0, now) {
        keep_young(es.drop_last(), now).push(es.last())
    } else {
        keep_young(es.drop_last(), now)
    }
}

/// The first entry, from `i` on, for trigger `k`.
pub open spec fn key_index(es: Seq<(KeyView, EntryView)>, k: KeyView, i: int) -> Option<int>
    decreases es.len() - i,
{
    if i < 0 || i >= es.len() {
        None
    } else if es[i].0 == k {
        Some(i)
    } else {
        key_index(es, k, i + 1)
    }
}

/// The first of the oldest entries among the first `n`.
pub open spec fn oldest_upto(es: Seq<(KeyView, EntryView)>, n: int) -> int
    decreases n,
{
    if n <= 1 {
        0
    } else {
        let b = oldest_upto(es, n - 1);
        if es[n - 1].1.0 < es[b].1.0 {
            n - 1
        } else {
            b
        }
    }
}

/// A new trigger in a full table pushes the oldest one out.
pub open spec fn make_room(es: Seq<(KeyView, EntryView)>, k: KeyView) -> Seq<(KeyView, EntryView)> {
    if key_index(es, k, 0) is None && es.len() >= MAX_TRIGGERS {
        es.remove(oldest_upto(es, es.len() as int))
    } else {
        es
    }
}

/// The table with an entry for `k`, and where that entry is.
pub open spec fn with_entry(es: Seq<(KeyView, EntryView)>, k: KeyView, now: u64) -> (
    Seq<(KeyView, EntryView)>,
    int,
) {
    let e1 = make_room(keep_young(es, now), k);
    match key_index(e1, k, 0) {
        Some(i) => (e1, i),
        None => (e1.push((k, (now, false, seq![]))), e1.len() as int),
    }
}

/// `replies` with each of `ids` added unless already there.
pub open spec fn append_new(replies: Seq<Seq<char>>, ids: Seq<Seq<char>>) -> Seq<Seq<char>>
    decreases ids.len(),
{
    if ids.len() == 0 {
        replies
    } else {
        let prev = append_new(replies, ids.drop_last());
        if prev.contains(ids.last()) {
            prev
        } else {
            prev.push(ids.last())
        }
    }
}

/// Replies sent for a trigger: remembered while it stands, handed back at
/// once when it has been recalled.
pub open spec fn sent_model(
    es: Seq<(KeyView, EntryView)>,
    k: KeyView,
    ids: Seq<Seq<char>>,
    now: u64,
) -> (Seq<(KeyView, EntryView)>, Seq<Seq<char>>) {
    let (e2, i) = with_entry(es, k, now);
    let e = e2[i].1;
    if e.1 {
        (e2, ids)
    } else {
        (e2.update(i, (k, (e.0, false, append_new(e.2, ids)))), seq![])
    }
}

/// A trigger recalled: it is marked, and the replies remembered so far are
/// handed back.
pub open spec fn recalled_model(es: Seq<(KeyView, EntryView)>, k: KeyView, now: u64) -> (
    Seq<(KeyView, EntryView)>,
    Seq<Seq<char>>,
) {
    let (e2, i) = with_entry(es, k, now);
    let e = e2[i].1;
    (e2.update(i, (k, (e.0, true, seq![]))), e.2)
}

/// One entry per trigger.
pub open spec fn unique_triggers(es: Seq<(KeyView, EntryView)>) -> bool {
    forall|i: int, j: int| 0 <= i < j < es.len() ==> #[trigger] es[i].0 != #[trigger] es[j].0
}

proof fn lemma_key_index(es: Seq<(KeyView, EntryView)>, k: KeyView, i: int)
    ensures
        key_index(es, k, i) matches Some(j) ==> i <= j < es.len() && es[j].0 == k,
    decreases es.len() - i,
{
    if 0 <= i < es.len() && es[i].0 != k {
        lemma_key_index(es, k, i + 1);
    }
}

// ==================== the table ====================

fn same_key(a: &Key, b: &Key) -> (r: bool)
    ensures
        r == (key_view(*a) == key_view(*b)),
{
    a.0 == b.0 && a.1 == b.1 && a.2 == b.2
}

fn copy_strings(v: &[String]) -> (out: Vec<String>)
    ensures
        string_views(out@) == string_views(v@),
{
    let mut out: Vec<String> = Vec::new();
    let mut i: usize = 0;
    while i < v.len()
        invariant
            i <= v@.len(),
            string_views(out@) == string_views(v@).take(i as int),
        decreases v@.len() - i,
    {
        let ghost prev = out@;
        let s = v[i].clone();
        out.push(s);
        assert(string_views(out@) =~= string_views(prev).push(s@));
        assert(string_views(v@).take(i + 1) =~= string_views(v@).take(i as int).push(v@[i as int]@));
        i += 1;
    }
    assert(string_views(v@).take(i as int) =~= string_views(v@));
    out
}

fn holds_string(v: &Vec<String>, s: &String) -> (b: bool)
    ensures
        b == string_views(v@).contains(s@),
{
    let mut i: usize = 0;
    while i < v.len()
        invariant
            i <= v@.len(),
            forall|j: int| 0 <= j < i ==> v@[j]@ != s@,
        decreases v@.len() - i,
    {
        if v[i] == *s {
            assert(string_views(v@)[i as int] == s@);
            return true;
        }
        i += 1;
    }
    proof {
        if string_views(v@).contains(s@) {
            let j = choose|j: int| 0 <= j < string_views(v@).len() && string_views(v@)[j] == s@;
            assert(v@[j]@ == s@);
        }
    }
    false
}

impl Pending {
    pub fn new() -> (p: Self)
        ensures
            p@ == Seq::<(KeyView, EntryView)>::empty(),
    {
        let p = Pending { entries: Vec::new() };
        assert(p@ =~= Seq::<(KeyView, EntryView)>::empty());
        p
    }

    /// How many triggers are remembered.
    pub fn len(&self) -> (n: usize)
        ensures
            n == self@.len(),
    {
        self.entries.len()
    }

    /// Whether a trigger is remembered.
    pub fn contains(&self, key: &Key) -> (b: bool)
        ensures
            b == (key_index(self@, key_view(*key), 0) is Some),
    {
        match self.find(key) {
            Some(_) => true,
            None => false,
        }
    }

    fn find(&self, key: &Key) -> (r: Option<usize>)
        ensures
            match r {
                Some(i) => key_index(self@, key_view(*key), 0) == Some(i as int) && i
                    < self@.len(),
                None => key_index(self@, key_view(*key), 0) is None,
            },
    {
        let mut i: usize = 0;
        while i < self.entries.len()
            invariant
                i <= self.entries@.len(),
                self@ == table_view(self.entries@),
                key_index(self@, key_view(*key), 0) == key_index(self@, key_view(*key), i as int),
            decreases self.entries@.len() - i,
        {
            assert(self@[i as int].0 == key_view(self.entries@[i as int].0));
            if same_key(&self.entries[i].0, key) {
                return Some(i);
            }
            i += 1;
        }
        None
    }

    fn drop_old(&mut self, now: u64)
        ensures
            final(self)@ == keep_young(old(self)@, now),
    {
        let ghost orig = self@;
        let mut i: usize = 0;
        let ghost mut j: int = 0;
        assert(orig.take(0) =~= Seq::<(KeyView, EntryView)>::empty());
        assert(orig.skip(0) =~= orig);
        while i < self.entries.len()
            invariant
                0 <= j <= orig.len(),
                orig == old(self)@,
                self@ == keep_young(orig.take(j), now) + orig.skip(j),
                i == keep_young(orig.take(j), now).len(),
                i <= self@.len(),
                self@.len() == i + orig.len() - j,
            decreases self@.len() - i,
        {
            let ghost before = self@;
            assert(orig.take(j + 1).drop_last() =~= orig.take(j));
            assert(orig.skip(j)[0] == orig[j]);
            assert(before[i as int] == orig[j]);
            assert(self@[i as int].1.0 == self.entries@[i as int].1.at);
            let at = self.entries[i].1.at;
            let age = if now >= at {
                now - at
            } else {
                0
            };
            if age < RETENTION_MS {
                assert(orig.take(j + 1).last() == orig[j]);
                assert(keep_young(orig.take(j + 1), now) == keep_young(orig.take(j), now).push(orig[j]));
                i += 1;
                proof {
                    j = j + 1;
                }
                assert(self@ =~= keep_young(orig.take(j), now) + orig.skip(j));
            } else {
                let ghost entries_before = self.entries@;
                let _gone = self.entries.remove(i);
                assert(self@ =~= before.remove(i as int));
                assert(orig.take(j + 1).last() == orig[j]);
                assert(keep_young(orig.take(j + 1), now) == keep_young(orig.take(j), now));
                assert(orig.skip(j + 1) =~= orig.skip(j).drop_first());
                proof {
                    j = j + 1;
                }
                assert(self@ =~= keep_young(orig.take(j), now) + orig.skip(j));
            }
        }
        assert(orig.take(j) =~= orig);
        assert(self@ =~= keep_young(orig, now));
    }

    fn oldest(&self) -> (b: usize)
        requires
            self@.len() > 0,
        ensures
            b == oldest_upto(self@, self@.len() as int),
            b < self@.len(),
    {
        let mut b: usize = 0;
        let mut n: usize = 1;
        while n < self.entries.len()
            invariant
                1 <= n <= self@.len(),
                self@ == table_view(self.entries@),
                b == oldest_upto(self@, n as int),
                b < n,
            decreases self@.len() - n,
        {
            assert(self@[n as int].1.0 == self.entries@[n as int].1.at);
            assert(self@[b as int].1.0 == self.entries@[b as int].1.at);
            if self.entries[n].1.at < self.entries[b].1.at {
                b = n;
            }
            n += 1;
        }
        b
    }

    /// The entry for a trigger, made when missing; the table is pruned of
    /// old triggers first and kept within its size.
    fn entry(&mut self, key: &Key, now: u64) -> (i: usize)
        ensures
            (final(self)@, i as int) == with_entry(old(self)@, key_view(*key), now),
            i < final(self)@.len(),
            final(self)@[i as int].0 == key_view(*key),
    {
        self.drop_old(now);
        let ghost e0 = self@;
        if self.find(key).is_none() && self.entries.len() >= MAX_TRIGGERS {
            let b = self.oldest();
            let _gone = self.entries.remove(b);
            assert(self@ =~= e0.remove(b as int));
        }
        assert(self@ == make_room(e0, key_view(*key)));
        match self.find(key) {
            Some(i) => {
                proof {
                    lemma_key_index(self@, key_view(*key), 0);
                }
                i
            },
            None => {
                let fresh_key: Key = (key.0.clone(), key.1.clone(), key.2.clone());
                assert(key_view(fresh_key) == key_view(*key));
                let empty: Vec<String> = Vec::new();
                assert(string_views(empty@) =~= Seq::<Seq<char>>::empty());
                let ghost before = self@;
                self.entries.push((fresh_key, Entry { at: now, recalled: false, replies: empty }));
                assert(self@ =~= before.push((key_view(*key), (now, false, seq![]))));
                self.entries.len() - 1
            },
        }
    }

    /// Records the replies sent for a trigger. When the trigger has been
    /// recalled already, they come straight back, to be deleted.
    pub fn sent(&mut self, key: Key, ids: &[String], now: u64) -> (gone: Vec<String>)
        ensures
            (final(self)@, string_views(gone@)) == sent_model(
                old(self)@,
                key_view(key),
                string_views(ids@),
                now,
            ),
    {
        let i = self.entry(&key, now);
        let ghost e2 = self@;
        let ghost entries2 = self.entries@;
        assert(e2[i as int] == (key_view(entries2[i as int].0), entry_view(entries2[i as int].1)));
        let (k, mut e) = self.entries.remove(i);
        assert(key_view(k) == key_view(key));
        if e.recalled {
            self.entries.insert(i, (k, e));
            assert(self.entries@ =~= entries2);
            assert(self@ =~= e2);
            return copy_strings(ids);
        }
        let ghost start = string_views(e.replies@);
        let mut n: usize = 0;
        while n < ids.len()
            invariant
                n <= ids@.len(),
                e.at == entries2[i as int].1.at,
                !e.recalled,
                start == e2[i as int].1.2,
                string_views(e.replies@) == append_new(start, string_views(ids@).take(n as int)),
            decreases ids@.len() - n,
        {
            assert(string_views(ids@).take(n + 1).drop_last() =~= string_views(ids@).take(n as int));
            assert(string_views(ids@).take(n + 1).last() == ids@[n as int]@);
            if !holds_string(&e.replies, &ids[n]) {
                let ghost prev = e.replies@;
                let s = ids[n].clone();
                e.replies.push(s);
                assert(string_views(e.replies@) =~= string_views(prev).push(s@));
            }
            n += 1;
        }
        assert(string_views(ids@).take(n as int) =~= string_views(ids@));
        let ghost ev = entry_view(e);
        self.entries.insert(i, (k, e));
        assert(self.entries@ =~= entries2.update(i as int, (k, e)));
        assert(self@ =~= e2.update(i as int, (key_view(key), (e2[i as int].1.0, false, append_new(start, string_views(ids@))))));
        let none: Vec<String> = Vec::new();
        assert(string_views(none@) =~= Seq::<Seq<char>>::empty());
        none
    }

    /// Marks a trigger as recalled and hands back the replies to delete.
    pub fn recalled(&mut self, key: Key, now: u64) -> (gone: Vec<String>)
        ensures
            (final(self)@, string_views(gone@)) == recalled_model(old(self)@, key_view(key), now),
    {
        let i = self.entry(&key, now);
        let ghost e2 = self@;
        let ghost entries2 = self.entries@;
        assert(e2[i as int] == (key_view(entries2[i as int].0), entry_view(entries2[i as int].1)));
        let (k, e) = self.entries.remove(i);
        let replies = e.replies;
        let empty: Vec<String> = Vec::new();
        assert(string_views(empty@) =~= Seq::<Seq<char>>::empty());
        let ghost kk = k;
        self.entries.insert(i, (k, Entry { at: e.at, recalled: true, replies: empty }));
        assert(self.entries@ =~= entries2.update(i as int, self.entries@[i as int]));
        assert(self@ =~= e2.update(i as int, (key_view(key), (e2[i as int].1.0, true, seq![]))));
        replies
    }
}

// ==================== where a reply belongs ====================

/// A reply belongs to its trigger's conversation: the same group, or for a
/// private trigger no group and the same user.
pub open spec fn same_channel_spec(
    source_group: Option<i64>,
    source_user: Option<i64>,
    packet_group: Option<i64>,
    packet_user: Option<i64>,
) -> bool {
    match source_group {
        Some(g) if g != 0 => packet_group == Some(g),
        _ => (packet_group is None || packet_group == Some(0i64)) && packet_user == source_user,
    }
}

pub fn same_channel(
    source_group: Option<i64>,
    source_user: Option<i64>,
    packet_group: Option<i64>,
    packet_user: Option<i64>,
) -> (b: bool)
    ensures
        b == same_channel_spec(source_group, source_user, packet_group, packet_user),
{
    match source_group {
        Some(g) => if g != 0 {
            return packet_group == Some(g);
        },
        None => {},
    }
    let no_group = match packet_group {
        Some(p) => p == 0,
        None => true,
    };
    no_group && packet_user == source_user
}

/// The channel of a trigger: the group number, or `private:` and the user.
pub open spec fn channel_text(group_id: Option<i64>, user_id: Option<i64>) -> Option<Seq<char>> {
    match group_id {
        Some(g) if g != 0 => Some(crate::text::signed_decimal(g as int)),
        _ => match user_id {
            Some(u) if u != 0 => Some(seq!['p', 'r', 'i', 'v', 'a', 't', 'e', ':']
                + crate::text::signed_decimal(u as int)),
            _ => None,
        },
    }
}

pub fn channel_of(group_id: Option<i64>, user_id: Option<i64>) -> (c: Option<String>)
    ensures
        match c {
            Some(s) => channel_text(group_id, user_id) == Some(s@),
            None => channel_text(group_id, user_id) is None,
        },
{
    match group_id {
        Some(g) => if g != 0 {
            return Some(i64_text(g));
        },
        None => {},
    }
    match user_id {
        Some(u) => if u != 0 {
            let mut out = owned("private:");
            push_str(&mut out, i64_text(u).as_str());
            proof {
                reveal_strlit("private:");
            }
            assert(out@ =~= seq!['p', 'r', 'i', 'v', 'a', 't', 'e', ':']
                + crate::text::signed_decimal(u as int));
            return Some(out);
        },
        None => {},
    }
    None
}

/// The id of a trigger message: its text id when it has a real one, else its
/// number when not zero.
pub open spec fn message_text(id_str: Option<Seq<char>>, id_num: Option<i64>) -> Option<Seq<char>> {
    match id_str {
        Some(s) if s.len() > 0 && s != seq!['0'] => Some(s),
        _ => match id_num {
            Some(n) if n != 0 => Some(crate::text::signed_decimal(n as int)),
            _ => None,
        },
    }
}

pub fn message_key(id_str: Option<&str>, id_num: Option<i64>) -> (id: Option<String>)
    ensures
        match id {
            Some(s) => message_text(
                match id_str {
                    Some(t) => Some(t@),
                    None => None,
                },
                id_num,
            ) == Some(s@),
            None => message_text(
                match id_str {
                    Some(t) => Some(t@),
                    None => None,
                },
                id_num,
            ) is None,
        },
{
    match id_str {
        Some(s) => {
            let chars = crate::text::chars_of(s);
            let zero: Vec<char> = vec!['0'];
            assert(zero@ =~= seq!['0']);
            if chars.len() > 0 && !crate::text::same_chars(&chars, &zero) {
                return Some(owned(s));
            }
        },
        None => {},
    }
    match id_num {
        Some(n) => if n != 0 {
            return Some(i64_text(n));
        },
        None => {},
    }
    None
}

// ==================== laws ====================

proof fn lemma_key_index_none(es: Seq<(KeyView, EntryView)>, k: KeyView, i: int)
    requires
        0 <= i,
    ensures
        key_index(es, k, i) is None <==> forall|j: int| i <= j < es.len() ==> es[j].0 != k,
    decreases es.len() - i,
{
    if i < es.len() {
        lemma_key_index_none(es, k, i + 1);
    }
}

proof fn lemma_key_index_update(
    es: Seq<(KeyView, EntryView)>,
    k: KeyView,
    i: int,
    at: int,
    v: (KeyView, EntryView),
)
    requires
        0 <= at < es.len(),
        v.0 == es[at].0,
    ensures
        key_index(es.update(at, v), k, i) == key_index(es, k, i),
    decreases es.len() - i,
{
    if 0 <= i < es.len() {
        lemma_key_index_update(es, k, i + 1, at, v);
    }
}

proof fn lemma_key_index_push(es: Seq<(KeyView, EntryView)>, k: KeyView, v: (KeyView, EntryView), i: int)
    requires
        0 <= i <= es.len(),
        key_index(es, k, i) is None,
        v.0 == k,
    ensures
        key_index(es.push(v), k, i) == Some(es.len() as int),
    decreases es.len() - i,
{
    if i < es.len() {
        assert(es.push(v)[i] == es[i]);
        lemma_key_index_push(es, k, v, i + 1);
    }
}

/// Every entry is still remembered at `now`.
pub open spec fn all_young(es: Seq<(KeyView, EntryView)>, now: u64) -> bool {
    forall|j: int| 0 <= j < es.len() ==> young(#[trigger] es[j].1.0, now)
}

proof fn lemma_keep_young(es: Seq<(KeyView, EntryView)>, now: u64)
    ensures
        all_young(keep_young(es, now), now),
        keep_young(es, now).len() <= es.len(),
        forall|j: int|
            0 <= j < keep_young(es, now).len() ==> exists|m: int|
                0 <= m < es.len() && #[trigger] keep_young(es, now)[j] == es[m],
        all_young(es, now) ==> keep_young(es, now) == es,
    decreases es.len(),
{
    if es.len() > 0 {
        let d = es.drop_last();
        lemma_keep_young(d, now);
        let kd = keep_young(d, now);
        let k = keep_young(es, now);
        assert forall|j: int| 0 <= j < k.len() implies exists|m: int|
            0 <= m < es.len() && #[trigger] k[j] == es[m] by {
            if j < kd.len() {
                assert(k[j] == kd[j]);
                let m = choose|m: int| 0 <= m < d.len() && kd[j] == d[m];
                assert(es[m] == d[m]);
            } else {
                assert(k[j] == es[es.len() - 1]);
            }
        }
        assert forall|j: int| 0 <= j < k.len() implies young(#[trigger] k[j].1.0, now) by {
            if j < kd.len() {
                assert(k[j] == kd[j]);
            }
        }
        if all_young(es, now) {
            assert forall|j: int| 0 <= j < d.len() implies young(#[trigger] d[j].1.0, now) by {
                assert(d[j] == es[j]);
            }
            assert(young(es[es.len() - 1].1.0, now));
            assert(d.push(es.last()) =~= es);
        }
    }
}

proof fn lemma_keep_young_unique(es: Seq<(KeyView, EntryView)>, now: u64)
    requires
        unique_triggers(es),
    ensures
        unique_triggers(keep_young(es, now)),
    decreases es.len(),
{
    if es.len() > 0 {
        let d = es.drop_last();
        assert forall|i: int, j: int| 0 <= i < j < d.len() implies #[trigger] d[i].0 != #[trigger] d[j].0 by {
            assert(d[i] == es[i] && d[j] == es[j]);
        }
        lemma_keep_young_unique(d, now);
        lemma_keep_young(d, now);
        let kd = keep_young(d, now);
        if young(es.last().1.0, now) {
            let k = kd.push(es.last());
            assert forall|i: int, j: int| 0 <= i < j < k.len() implies #[trigger] k[i].0 != #[trigger] k[j].0 by {
                if j < kd.len() {
                    assert(k[i] == kd[i] && k[j] == kd[j]);
                } else {
                    assert(k[i] == kd[i]);
                    assert(k[j] == es[es.len() - 1]);
                    let m = choose|m: int| 0 <= m < d.len() && kd[i] == d[m];
                    assert(es[m] == d[m]);
                }
            }
        }
    }
}

/// Facts about `with_entry`: the entry sits at the index given, for the
/// trigger asked; the table stays unique and within bounds; every entry is
/// young.
proof fn lemma_with_entry(es: Seq<(KeyView, EntryView)>, k: KeyView, now: u64)
    ensures
        ({
            let (e2, i) = with_entry(es, k, now);
            &&& 0 <= i < e2.len()
            &&& e2[i].0 == k
            &&& key_index(e2, k, 0) == Some(i)
            &&& all_young(e2, now)
            &&& (es.len() <= MAX_TRIGGERS ==> e2.len() <= MAX_TRIGGERS)
            &&& (unique_triggers(es) ==> unique_triggers(e2))
        }),
{
    let e0 = keep_young(es, now);
    lemma_keep_young(es, now);
    let e1 = make_room(e0, k);
    if key_index(e0, k, 0) is None && e0.len() >= MAX_TRIGGERS {
        let b = oldest_upto(e0, e0.len() as int);
        lemma_oldest_bound(e0, e0.len() as int);
        assert forall|j: int| 0 <= j < e1.len() implies young(#[trigger] e1[j].1.0, now) by {
            if j < b {
                assert(e1[j] == e0[j]);
            } else {
                assert(e1[j] == e0[j + 1]);
            }
        }
        lemma_key_index_none(e0, k, 0);
        assert forall|j: int| 0 <= j < e1.len() implies e1[j].0 != k by {
            if j < b {
                assert(e1[j] == e0[j]);
            } else {
                assert(e1[j] == e0[j + 1]);
            }
        }
        lemma_key_index_none(e1, k, 0);
        if unique_triggers(es) {
            lemma_keep_young_unique(es, now);
            assert forall|i: int, j: int| 0 <= i < j < e1.len() implies #[trigger] e1[i].0
                != #[trigger] e1[j].0 by {
                let ii = if i < b {
                    i
                } else {
                    i + 1
                };
                let jj = if j < b {
                    j
                } else {
                    j + 1
                };
                assert(e1[i] == e0[ii]);
                assert(e1[j] == e0[jj]);
            }
        }
    } else {
        if unique_triggers(es) {
            lemma_keep_young_unique(es, now);
        }
    }
    lemma_key_index(e1, k, 0);
    match key_index(e1, k, 0) {
        Some(i) => {},
        None => {
            let v = (k, (now, false, Seq::<Seq<char>>::empty()));
            lemma_key_index_push(e1, k, v, 0);
            let e2 = e1.push(v);
            assert(young(now, now));
            assert forall|j: int| 0 <= j < e2.len() implies young(#[trigger] e2[j].1.0, now) by {
                if j < e1.len() {
                    assert(e2[j] == e1[j]);
                }
            }
            lemma_key_index_none(e1, k, 0);
            if unique_triggers(es) {
                assert forall|i: int, j: int| 0 <= i < j < e2.len() implies #[trigger] e2[i].0
                    != #[trigger] e2[j].0 by {
                    if j < e1.len() {
                        assert(e2[i] == e1[i] && e2[j] == e1[j]);
                    } else {
                        assert(e2[i] == e1[i]);
                    }
                }
            }
        },
    }
}

proof fn lemma_oldest_bound(es: Seq<(KeyView, EntryView)>, n: int)
    requires
        1 <= n <= es.len(),
    ensures
        0 <= oldest_upto(es, n) < n,
    decreases n,
{
    if n > 1 {
        lemma_oldest_bound(es, n - 1);
    }
}

/// Asking again for the same trigger at the same moment finds the same
/// entry and leaves the table alone.
proof fn lemma_with_entry_again(
    es: Seq<(KeyView, EntryView)>,
    k: KeyView,
    now: u64,
    v: (KeyView, EntryView),
)
    requires
        v.0 == k,
        v.1.0 == with_entry(es, k, now).0[with_entry(es, k, now).1].1.0,
    ensures
        ({
            let (e2, i) = with_entry(es, k, now);
            with_entry(e2.update(i, v), k, now) == (e2.update(i, v), i)
        }),
{
    lemma_with_entry(es, k, now);
    let (e2, i) = with_entry(es, k, now);
    let t = e2.update(i, v);
    assert forall|j: int| 0 <= j < t.len() implies young(#[trigger] t[j].1.0, now) by {
        if j != i {
            assert(t[j] == e2[j]);
        }
    }
    lemma_keep_young(t, now);
    lemma_key_index_update(e2, k, 0, i, v);
}

/// The table never holds more than its bound, and one entry per trigger.
pub proof fn lemma_table_bounded(es: Seq<(KeyView, EntryView)>, k: KeyView, ids: Seq<Seq<char>>, now: u64)
    requires
        es.len() <= MAX_TRIGGERS,
        unique_triggers(es),
    ensures
        sent_model(es, k, ids, now).0.len() <= MAX_TRIGGERS,
        recalled_model(es, k, now).0.len() <= MAX_TRIGGERS,
        unique_triggers(sent_model(es, k, ids, now).0),
        unique_triggers(recalled_model(es, k, now).0),
{
    lemma_with_entry(es, k, now);
    let (e2, i) = with_entry(es, k, now);
    let e = e2[i].1;
    let s = e2.update(i, (k, (e.0, false, append_new(e.2, ids))));
    let r = e2.update(i, (k, (e.0, true, seq![])));
    assert forall|a: int, b: int| 0 <= a < b < s.len() implies #[trigger] s[a].0 != #[trigger] s[b].0 by {
        assert(s[a].0 == e2[a].0 && s[b].0 == e2[b].0);
    }
    assert forall|a: int, b: int| 0 <= a < b < r.len() implies #[trigger] r[a].0 != #[trigger] r[b].0 by {
        assert(r[a].0 == e2[a].0 && r[b].0 == e2[b].0);
    }
}

/// Replies remembered for a trigger that stands come back, each once, when
/// it is recalled at the same moment.
pub proof fn lemma_sent_then_recalled(
    es: Seq<(KeyView, EntryView)>,
    k: KeyView,
    ids: Seq<Seq<char>>,
    now: u64,
)
    ensures
        !with_entry(es, k, now).0[with_entry(es, k, now).1].1.1 ==> recalled_model(
            sent_model(es, k, ids, now).0,
            k,
            now,
        ).1 == append_new(with_entry(es, k, now).0[with_entry(es, k, now).1].1.2, ids),
{
    let (e2, i) = with_entry(es, k, now);
    let e = e2[i].1;
    if !e.1 {
        let v = (k, (e.0, false, append_new(e.2, ids)));
        lemma_with_entry(es, k, now);
        lemma_with_entry_again(es, k, now, v);
        let t = e2.update(i, v);
        assert(sent_model(es, k, ids, now).0 == t);
        assert(with_entry(t, k, now) == (t, i));
        assert(t[i] == v);
        assert(recalled_model(t, k, now).1 == v.1.2);
    }
}

/// Once a trigger is recalled, replies sent for it come straight back, and
/// a second recall finds nothing left.
pub proof fn lemma_recalled_then_sent(
    es: Seq<(KeyView, EntryView)>,
    k: KeyView,
    ids: Seq<Seq<char>>,
    now: u64,
)
    ensures
        sent_model(recalled_model(es, k, now).0, k, ids, now).1 == ids,
        recalled_model(recalled_model(es, k, now).0, k, now).1 == Seq::<Seq<char>>::empty(),
{
    let (e2, i) = with_entry(es, k, now);
    let e = e2[i].1;
    let v = (k, (e.0, true, Seq::<Seq<char>>::empty()));
    lemma_with_entry(es, k, now);
    lemma_with_entry_again(es, k, now, v);
    let t = e2.update(i, v);
    assert(recalled_model(es, k, now).0 == t);
    assert(with_entry(t, k, now) == (t, i));
    assert(t[i] == v);
    assert(sent_model(t, k, ids, now).1 == ids);
    assert(recalled_model(t, k, now).1 == v.1.2);
}

} // verus!
