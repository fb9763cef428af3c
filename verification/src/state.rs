//! Which video a preview message points at, and whether it has been taken.
//!
//! The bot answers a video link with a single preview; the heavy work starts
//! only when someone quotes that preview. This module keeps the record
//! "preview message → video" and the decisions made on it: who may claim a
//! preview, when a repeated paste is swallowed, what a failed take gives
//! back, and how stale records fall away. Reading and writing the file, the
//! lock and the clock belong to the caller.

use vstd::prelude::*;
use crate::text::owned;

verus! {

/// How long preview records are kept, in days.
pub const RETAIN_DAYS: i64 = 30;

/// Within this many seconds, the same person pasting the same video again
/// gets no second preview.
pub const REPEAT_WINDOW_SECONDS: i64 = 600;

#[derive(Debug, Clone)]
pub struct Preview {
    /// The conversation: a group number, or the negated user number for a
    /// private chat.
    pub target_id: i64,
    /// The message id of the preview.
    pub message_id: String,
    pub created_ts: i64,
    /// The link the user sent.
    pub url: String,
    pub bvid: String,
    /// The `cid` of the chosen page.
    pub cid: i64,
    pub page: u32,
    pub title: String,
    pub duration: u64,
    /// Taken already: set when a take starts, cleared by a release when it
    /// fails.
    pub extracted: bool,
    /// Who pasted the link; 0 where the record does not say.
    pub requester: i64,
}

impl Preview {
    /// A field-for-field copy.
    pub fn duplicate(&self) -> (copy: Preview)
        ensures
            copy == *self,
    {
        Preview {
            target_id: self.target_id,
            message_id: self.message_id.clone(),
            created_ts: self.created_ts,
            url: self.url.clone(),
            bvid: self.bvid.clone(),
            cid: self.cid,
            page: self.page,
            title: self.title.clone(),
            duration: self.duration,
            extracted: self.extracted,
            requester: self.requester,
        }
    }
}

#[derive(Debug, Clone, Default)]
pub struct State {
    pub previews: Vec<Preview>,
}

/// The outcome of quoting a preview to take its video.
#[derive(Debug)]
pub enum Claim {
    /// The quoted message is not a preview of ours.
    Missing,
    /// This preview has been taken already.
    AlreadyExtracted,
    /// Go ahead, with the video the preview recorded.
    Ready(Preview),
}

// ==================== the model ====================

/// The preview sent as `message_id` in conversation `target_id`.
pub open spec fn is_key(p: Preview, target_id: i64, message_id: Seq<char>) -> bool {
    p.target_id == target_id && p.message_id@ == message_id
}

/// The first record, from `i` on, for the given preview.
pub open spec fn find_key(ps: Seq<Preview>, target_id: i64, message_id: Seq<char>, i: int) -> Option<
    int,
>
    decreases ps.len() - i,
{
    if i < 0 || i >= ps.len() {
        None
    } else if is_key(ps[i], target_id, message_id) {
        Some(i)
    } else {
        find_key(ps, target_id, message_id, i + 1)
    }
}

/// The records created at or after `cutoff`, in order.
pub open spec fn fresh(ps: Seq<Preview>, cutoff: i64) -> Seq<Preview>
    decreases ps.len(),
{
    if ps.len() == 0 {
        seq![]
    } else if ps.last().created_ts >= cutoff {
        fresh(ps.drop_last(), cutoff).push(ps.last())
    } else {
        fresh(ps.drop_last(), cutoff)
    }
}

/// A record with its taken flag set to `flag`.
pub open spec fn marked(p: Preview, flag: bool) -> Preview {
    Preview { extracted: flag, ..p }
}

/// Claiming a preview: stale records go first; then the first record for the
/// preview decides — missing, taken already, or ready, in which case it is
/// marked as taken and handed out so marked.
pub open spec fn claim_model(ps: Seq<Preview>, target_id: i64, message_id: Seq<char>, cutoff: i64) -> (
    Seq<Preview>,
    Claim,
) {
    let kept = fresh(ps, cutoff);
    match find_key(kept, target_id, message_id, 0) {
        None => (kept, Claim::Missing),
        Some(i) => if kept[i].extracted {
            (kept, Claim::AlreadyExtracted)
        } else {
            (kept.update(i, marked(kept[i], true)), Claim::Ready(marked(kept[i], true)))
        },
    }
}

/// Releasing a preview after a failed take: its first record is unmarked.
pub open spec fn release_model(ps: Seq<Preview>, target_id: i64, message_id: Seq<char>) -> Seq<
    Preview,
> {
    match find_key(ps, target_id, message_id, 0) {
        None => ps,
        Some(i) => ps.update(i, marked(ps[i], false)),
    }
}

/// The records kept when a new preview is remembered: fresh ones, other than
/// earlier records of the same preview.
pub open spec fn kept_for(ps: Seq<Preview>, preview: Preview, cutoff: i64) -> Seq<Preview>
    decreases ps.len(),
{
    if ps.len() == 0 {
        seq![]
    } else {
        let prev = kept_for(ps.drop_last(), preview, cutoff);
        let p = ps.last();
        if p.created_ts >= cutoff && !is_key(p, preview.target_id, preview.message_id@) {
            prev.push(p)
        } else {
            prev
        }
    }
}

/// Remembering a preview: fresh records of other previews stay, the new one
/// goes last.
pub open spec fn remember_model(ps: Seq<Preview>, preview: Preview, cutoff: i64) -> Seq<Preview> {
    kept_for(ps, preview, cutoff).push(preview)
}

/// Whether a paste repeats one of the person's own previews that is still
/// waiting to be taken, within the repeat window.
pub open spec fn repeats(
    ps: Seq<Preview>,
    target_id: i64,
    requester: i64,
    bvid: Seq<char>,
    now: i64,
) -> bool {
    exists|i: int|
        0 <= i < ps.len() && {
            let seen = #[trigger] ps[i];
            &&& seen.target_id == target_id
            &&& seen.requester == requester
            &&& requester != 0
            &&& seen.bvid@ == bvid
            &&& !seen.extracted
            &&& now - seen.created_ts <= REPEAT_WINDOW_SECONDS
        }
}

// ==================== the decisions ====================

/// The same person, shortly after, pasting the same video while its preview
/// is still waiting to be taken: no second preview. A different person, a
/// later paste, or a preview already taken all get a new one.
pub fn apply_repeat(state: &State, target_id: i64, requester: i64, bvid: &str, now: i64) -> (b: bool)
    ensures
        b == repeats(state.previews@, target_id, requester, bvid@, now),
{
    let wanted = owned(bvid);
    let mut i: usize = 0;
    while i < state.previews.len()
        invariant
            i <= state.previews@.len(),
            wanted@ == bvid@,
            forall|j: int|
                0 <= j < i ==> !({
                    let seen = #[trigger] state.previews@[j];
                    &&& seen.target_id == target_id
                    &&& seen.requester == requester
                    &&& requester != 0
                    &&& seen.bvid@ == bvid@
                    &&& !seen.extracted
                    &&& now - seen.created_ts <= REPEAT_WINDOW_SECONDS
                }),
        decreases state.previews@.len() - i,
    {
        let seen = &state.previews[i];
        let age = now as i128 - seen.created_ts as i128;
        if seen.target_id == target_id && seen.requester == requester && requester != 0
            && seen.bvid == wanted && !seen.extracted && age <= REPEAT_WINDOW_SECONDS as i128 {
            assert(state.previews@[i as int] == *seen);
            return true;
        }
        i += 1;
    }
    false
}

fn first_key(ps: &Vec<Preview>, target_id: i64, wanted: &String) -> (r: Option<usize>)
    ensures
        match r {
            Some(i) => find_key(ps@, target_id, wanted@, 0) == Some(i as int) && i < ps@.len()
                && is_key(ps@[i as int], target_id, wanted@),
            None => find_key(ps@, target_id, wanted@, 0) is None,
        },
{
    let mut i: usize = 0;
    while i < ps.len()
        invariant
            i <= ps@.len(),
            find_key(ps@, target_id, wanted@, 0) == find_key(ps@, target_id, wanted@, i as int),
        decreases ps@.len() - i,
    {
        if ps[i].target_id == target_id && ps[i].message_id == *wanted {
            return Some(i);
        }
        i += 1;
    }
    None
}

fn drop_stale(ps: &Vec<Preview>, cutoff: i64) -> (out: Vec<Preview>)
    ensures
        out@ == fresh(ps@, cutoff),
{
    let mut out: Vec<Preview> = Vec::new();
    let mut i: usize = 0;
    while i < ps.len()
        invariant
            i <= ps@.len(),
            out@ == fresh(ps@.take(i as int), cutoff),
        decreases ps@.len() - i,
    {
        proof {
            assert(ps@.take(i + 1).drop_last() =~= ps@.take(i as int));
        }
        if ps[i].created_ts >= cutoff {
            out.push(ps[i].duplicate());
        }
        i += 1;
    }
    assert(ps@.take(i as int) =~= ps@);
    out
}

/// Claims a take: decides whether the quoted preview can be taken and, if
/// so, marks it taken at once, so that quoting it twice downloads it once.
pub fn apply_claim(state: &mut State, target_id: i64, message_id: &str, cutoff: i64) -> (claim:
    Claim)
    ensures
        (final(state).previews@, claim) == claim_model(
            old(state).previews@,
            target_id,
            message_id@,
            cutoff,
        ),
{
    let kept = drop_stale(&state.previews, cutoff);
    state.previews = kept;
    let wanted = owned(message_id);
    match first_key(&state.previews, target_id, &wanted) {
        None => Claim::Missing,
        Some(i) => {
            if state.previews[i].extracted {
                Claim::AlreadyExtracted
            } else {
                let mut taken = state.previews[i].duplicate();
                taken.extracted = true;
                let handed = taken.duplicate();
                state.previews.set(i, taken);
                Claim::Ready(handed)
            }
        },
    }
}

/// Gives a failed take back: the preview can be claimed again.
pub fn apply_release(state: &mut State, target_id: i64, message_id: &str)
    ensures
        final(state).previews@ == release_model(old(state).previews@, target_id, message_id@),
{
    let wanted = owned(message_id);
    match first_key(&state.previews, target_id, &wanted) {
        None => {},
        Some(i) => {
            let mut p = state.previews[i].duplicate();
            p.extracted = false;
            state.previews.set(i, p);
        },
    }
}

/// Remembers a preview just sent; stale records and earlier records of the
/// same preview are dropped on the way.
pub fn apply_remember(state: &mut State, preview: Preview, cutoff: i64)
    ensures
        final(state).previews@ == remember_model(old(state).previews@, preview, cutoff),
{
    let mut out: Vec<Preview> = Vec::new();
    let mut i: usize = 0;
    while i < state.previews.len()
        invariant
            i <= state.previews@.len(),
            state.previews@ == old(state).previews@,
            out@ == kept_for(state.previews@.take(i as int), preview, cutoff),
        decreases state.previews@.len() - i,
    {
        proof {
            assert(state.previews@.take(i + 1).drop_last() =~= state.previews@.take(i as int));
        }
        let seen = &state.previews[i];
        let same = seen.target_id == preview.target_id && seen.message_id == preview.message_id;
        if seen.created_ts >= cutoff && !same {
            out.push(seen.duplicate());
        }
        i += 1;
    }
    assert(state.previews@.take(i as int) =~= state.previews@);
    out.push(preview);
    state.previews = out;
}

// ==================== laws ====================

proof fn lemma_find_key_bounds(ps: Seq<Preview>, target_id: i64, message_id: Seq<char>, i: int)
    ensures
        find_key(ps, target_id, message_id, i) matches Some(j) ==> i <= j < ps.len() && is_key(
            ps[j],
            target_id,
            message_id,
        ),
    decreases ps.len() - i,
{
    if 0 <= i < ps.len() && !is_key(ps[i], target_id, message_id) {
        lemma_find_key_bounds(ps, target_id, message_id, i + 1);
    }
}

proof fn lemma_find_key_update(
    ps: Seq<Preview>,
    target_id: i64,
    message_id: Seq<char>,
    i: int,
    k: int,
    p: Preview,
)
    requires
        0 <= k < ps.len(),
        p.target_id == ps[k].target_id,
        p.message_id == ps[k].message_id,
    ensures
        find_key(ps.update(k, p), target_id, message_id, i) == find_key(
            ps,
            target_id,
            message_id,
            i,
        ),
    decreases ps.len() - i,
{
    if 0 <= i < ps.len() {
        lemma_find_key_update(ps, target_id, message_id, i + 1, k, p);
    }
}

proof fn lemma_fresh_all(ps: Seq<Preview>, cutoff: i64)
    ensures
        forall|j: int|
            0 <= j < fresh(ps, cutoff).len() ==> #[trigger] fresh(ps, cutoff)[j].created_ts
                >= cutoff,
    decreases ps.len(),
{
    if ps.len() > 0 {
        lemma_fresh_all(ps.drop_last(), cutoff);
        let f = fresh(ps.drop_last(), cutoff);
        if ps.last().created_ts >= cutoff {
            assert forall|j: int| 0 <= j < f.push(ps.last()).len() implies #[trigger] f.push(
                ps.last(),
            )[j].created_ts >= cutoff by {
                if j < f.len() {
                    assert(f.push(ps.last())[j] == f[j]);
                }
            }
        }
    }
}

proof fn lemma_fresh_same(ps: Seq<Preview>, cutoff: i64)
    requires
        forall|j: int| 0 <= j < ps.len() ==> #[trigger] ps[j].created_ts >= cutoff,
    ensures
        fresh(ps, cutoff) == ps,
    decreases ps.len(),
{
    if ps.len() > 0 {
        let d = ps.drop_last();
        assert forall|j: int| 0 <= j < d.len() implies #[trigger] d[j].created_ts >= cutoff by {
            assert(d[j] == ps[j]);
        }
        lemma_fresh_same(d, cutoff);
        assert(ps.last() == ps[ps.len() - 1]);
        assert(d.push(ps.last()) =~= ps);
    }
}

/// Whether some record is for the given preview.
pub open spec fn has_key(ps: Seq<Preview>, target_id: i64, message_id: Seq<char>) -> bool {
    exists|i: int| 0 <= i < ps.len() && is_key(#[trigger] ps[i], target_id, message_id)
}

proof fn lemma_fresh_keys(ps: Seq<Preview>, cutoff: i64, target_id: i64, message_id: Seq<char>)
    ensures
        has_key(fresh(ps, cutoff), target_id, message_id) ==> has_key(ps, target_id, message_id),
    decreases ps.len(),
{
    if ps.len() > 0 {
        let d = ps.drop_last();
        lemma_fresh_keys(d, cutoff, target_id, message_id);
        let f = fresh(ps, cutoff);
        if has_key(f, target_id, message_id) {
            let i = choose|i: int| 0 <= i < f.len() && is_key(#[trigger] f[i], target_id, message_id);
            let fd = fresh(d, cutoff);
            if i < fd.len() {
                assert(f[i] == fd[i]);
                assert(has_key(fd, target_id, message_id));
                let k = choose|k: int| 0 <= k < d.len() && is_key(#[trigger] d[k], target_id, message_id);
                assert(ps[k] == d[k]);
            } else {
                assert(f[i] == ps.last());
                assert(ps[ps.len() - 1] == ps.last());
            }
        }
    }
}

proof fn lemma_kept_for_keys(
    ps: Seq<Preview>,
    preview: Preview,
    cutoff: i64,
    target_id: i64,
    message_id: Seq<char>,
)
    ensures
        has_key(kept_for(ps, preview, cutoff), target_id, message_id) ==> has_key(
            ps,
            target_id,
            message_id,
        ) && !(target_id == preview.target_id && message_id == preview.message_id@),
    decreases ps.len(),
{
    if ps.len() > 0 {
        let d = ps.drop_last();
        lemma_kept_for_keys(d, preview, cutoff, target_id, message_id);
        let f = kept_for(ps, preview, cutoff);
        let fd = kept_for(d, preview, cutoff);
        if has_key(f, target_id, message_id) {
            let i = choose|i: int| 0 <= i < f.len() && is_key(#[trigger] f[i], target_id, message_id);
            if i < fd.len() {
                assert(f[i] == fd[i]);
                assert(has_key(fd, target_id, message_id));
                let k = choose|k: int| 0 <= k < d.len() && is_key(#[trigger] d[k], target_id, message_id);
                assert(ps[k] == d[k]);
            } else {
                assert(f[i] == ps.last());
                assert(ps[ps.len() - 1] == ps.last());
            }
        }
    }
}

proof fn lemma_find_key_last(ps: Seq<Preview>, p: Preview, target_id: i64, message_id: Seq<char>, i: int)
    requires
        0 <= i <= ps.len(),
        !has_key(ps, target_id, message_id),
        is_key(p, target_id, message_id),
    ensures
        find_key(ps.push(p), target_id, message_id, i) == Some(ps.len() as int),
    decreases ps.len() - i,
{
    if i < ps.len() {
        assert(ps.push(p)[i] == ps[i]);
        if is_key(ps[i], target_id, message_id) {
            assert(has_key(ps, target_id, message_id));
        }
        lemma_find_key_last(ps, p, target_id, message_id, i + 1);
    }
}

/// A preview is taken once: right after a claim that hands it out, the same
/// claim finds it taken already.
pub proof fn lemma_claim_once(ps: Seq<Preview>, target_id: i64, message_id: Seq<char>, cutoff: i64)
    ensures
        claim_model(ps, target_id, message_id, cutoff).1 is Ready ==> claim_model(
            claim_model(ps, target_id, message_id, cutoff).0,
            target_id,
            message_id,
            cutoff,
        ).1 is AlreadyExtracted,
{
    let kept = fresh(ps, cutoff);
    lemma_find_key_bounds(kept, target_id, message_id, 0);
    if let Some(i) = find_key(kept, target_id, message_id, 0) {
        if !kept[i].extracted {
            let ps1 = kept.update(i, marked(kept[i], true));
            lemma_fresh_all(ps, cutoff);
            assert forall|j: int| 0 <= j < ps1.len() implies #[trigger] ps1[j].created_ts
                >= cutoff by {
                assert(kept[j].created_ts >= cutoff);
            }
            lemma_fresh_same(ps1, cutoff);
            lemma_find_key_update(kept, target_id, message_id, 0, i, marked(kept[i], true));
        }
    }
}

/// A failed take given back can be claimed again, with the same outcome as
/// the first claim.
pub proof fn lemma_release_reopens(
    ps: Seq<Preview>,
    target_id: i64,
    message_id: Seq<char>,
    cutoff: i64,
)
    ensures
        claim_model(ps, target_id, message_id, cutoff).1 is Ready ==> claim_model(
            release_model(claim_model(ps, target_id, message_id, cutoff).0, target_id, message_id),
            target_id,
            message_id,
            cutoff,
        ) == claim_model(ps, target_id, message_id, cutoff),
{
    let kept = fresh(ps, cutoff);
    lemma_find_key_bounds(kept, target_id, message_id, 0);
    lemma_fresh_all(ps, cutoff);
    if let Some(i) = find_key(kept, target_id, message_id, 0) {
        if !kept[i].extracted {
            let ps1 = kept.update(i, marked(kept[i], true));
            lemma_find_key_update(kept, target_id, message_id, 0, i, marked(kept[i], true));
            let ps2 = ps1.update(i, marked(ps1[i], false));
            assert(marked(ps1[i], false) == kept[i]);
            assert(ps2 =~= kept);
            assert forall|j: int| 0 <= j < kept.len() implies #[trigger] kept[j].created_ts
                >= cutoff by {}
            lemma_fresh_same(kept, cutoff);
        }
    }
}

/// A preview just remembered, not yet taken and not stale, is there to be
/// claimed.
pub proof fn lemma_remember_then_claim(
    ps: Seq<Preview>,
    preview: Preview,
    remember_cutoff: i64,
    claim_cutoff: i64,
)
    requires
        preview.created_ts >= claim_cutoff,
        !preview.extracted,
    ensures
        claim_model(
            remember_model(ps, preview, remember_cutoff),
            preview.target_id,
            preview.message_id@,
            claim_cutoff,
        ).1 == Claim::Ready(marked(preview, true)),
{
    let t = preview.target_id;
    let m = preview.message_id@;
    let k = kept_for(ps, preview, remember_cutoff);
    let r = k.push(preview);
    assert(r.drop_last() =~= k);
    let f = fresh(k, claim_cutoff);
    assert(fresh(r, claim_cutoff) == f.push(preview));
    lemma_kept_for_keys(ps, preview, remember_cutoff, t, m);
    lemma_fresh_keys(k, claim_cutoff, t, m);
    lemma_find_key_last(f, preview, t, m, 0);
    assert(f.push(preview)[f.len() as int] == preview);
}

/// No two records for the same preview.
pub open spec fn unique_keys(ps: Seq<Preview>) -> bool {
    forall|i: int, j: int|
        0 <= i < j < ps.len() ==> !is_key(#[trigger] ps[i], #[trigger] ps[j].target_id, ps[j].message_id@)
}

proof fn lemma_fresh_unique(ps: Seq<Preview>, cutoff: i64)
    requires
        unique_keys(ps),
    ensures
        unique_keys(fresh(ps, cutoff)),
    decreases ps.len(),
{
    if ps.len() > 0 {
        let d = ps.drop_last();
        assert forall|i: int, j: int| 0 <= i < j < d.len() implies !is_key(
            #[trigger] d[i],
            #[trigger] d[j].target_id,
            d[j].message_id@,
        ) by {
            assert(d[i] == ps[i] && d[j] == ps[j]);
        }
        lemma_fresh_unique(d, cutoff);
        let fd = fresh(d, cutoff);
        if ps.last().created_ts >= cutoff {
            let l = ps.last();
            lemma_fresh_keys(d, cutoff, l.target_id, l.message_id@);
            if has_key(d, l.target_id, l.message_id@) {
                let k = choose|k: int| 0 <= k < d.len() && is_key(#[trigger] d[k], l.target_id, l.message_id@);
                assert(ps[k] == d[k]);
                assert(ps[ps.len() - 1] == l);
                assert(!is_key(ps[k], ps[ps.len() - 1].target_id, ps[ps.len() - 1].message_id@));
            }
            let f = fd.push(l);
            assert forall|i: int, j: int| 0 <= i < j < f.len() implies !is_key(
                #[trigger] f[i],
                #[trigger] f[j].target_id,
                f[j].message_id@,
            ) by {
                if j < fd.len() {
                    assert(f[i] == fd[i] && f[j] == fd[j]);
                } else {
                    assert(f[i] == fd[i]);
                    assert(f[j] == l);
                    if is_key(fd[i], l.target_id, l.message_id@) {
                        assert(has_key(fd, l.target_id, l.message_id@));
                    }
                }
            }
        }
    }
}

proof fn lemma_kept_for_unique(ps: Seq<Preview>, preview: Preview, cutoff: i64)
    requires
        unique_keys(ps),
    ensures
        unique_keys(kept_for(ps, preview, cutoff)),
    decreases ps.len(),
{
    if ps.len() > 0 {
        let d = ps.drop_last();
        assert forall|i: int, j: int| 0 <= i < j < d.len() implies !is_key(
            #[trigger] d[i],
            #[trigger] d[j].target_id,
            d[j].message_id@,
        ) by {
            assert(d[i] == ps[i] && d[j] == ps[j]);
        }
        lemma_kept_for_unique(d, preview, cutoff);
        let fd = kept_for(d, preview, cutoff);
        let l = ps.last();
        if l.created_ts >= cutoff && !is_key(l, preview.target_id, preview.message_id@) {
            lemma_kept_for_keys(d, preview, cutoff, l.target_id, l.message_id@);
            if has_key(d, l.target_id, l.message_id@) {
                let k = choose|k: int| 0 <= k < d.len() && is_key(#[trigger] d[k], l.target_id, l.message_id@);
                assert(ps[k] == d[k]);
                assert(ps[ps.len() - 1] == l);
                assert(!is_key(ps[k], ps[ps.len() - 1].target_id, ps[ps.len() - 1].message_id@));
            }
            let f = fd.push(l);
            assert forall|i: int, j: int| 0 <= i < j < f.len() implies !is_key(
                #[trigger] f[i],
                #[trigger] f[j].target_id,
                f[j].message_id@,
            ) by {
                if j < fd.len() {
                    assert(f[i] == fd[i] && f[j] == fd[j]);
                } else {
                    assert(f[i] == fd[i]);
                    assert(f[j] == l);
                    if is_key(fd[i], l.target_id, l.message_id@) {
                        assert(has_key(fd, l.target_id, l.message_id@));
                    }
                }
            }
        }
    }
}

/// Every operation keeps one record per preview; after a claim every
/// record left is fresh.
pub proof fn lemma_records_stay_unique(
    ps: Seq<Preview>,
    preview: Preview,
    target_id: i64,
    message_id: Seq<char>,
    cutoff: i64,
)
    requires
        unique_keys(ps),
    ensures
        unique_keys(claim_model(ps, target_id, message_id, cutoff).0),
        unique_keys(release_model(ps, target_id, message_id)),
        unique_keys(remember_model(ps, preview, cutoff)),
        forall|j: int|
            0 <= j < claim_model(ps, target_id, message_id, cutoff).0.len()
                ==> #[trigger] claim_model(ps, target_id, message_id, cutoff).0[j].created_ts
                >= cutoff,
{
    lemma_fresh_unique(ps, cutoff);
    lemma_fresh_all(ps, cutoff);
    let kept = fresh(ps, cutoff);
    lemma_find_key_bounds(kept, target_id, message_id, 0);
    if let Some(i) = find_key(kept, target_id, message_id, 0) {
        let u = kept.update(i, marked(kept[i], true));
        assert forall|a: int, b: int| 0 <= a < b < u.len() implies !is_key(
            #[trigger] u[a],
            #[trigger] u[b].target_id,
            u[b].message_id@,
        ) by {
            assert(!is_key(kept[a], kept[b].target_id, kept[b].message_id@));
        }
        assert forall|j: int| 0 <= j < u.len() implies #[trigger] u[j].created_ts >= cutoff by {
            assert(kept[j].created_ts >= cutoff);
        }
    }
    lemma_find_key_bounds(ps, target_id, message_id, 0);
    if let Some(i) = find_key(ps, target_id, message_id, 0) {
        let u = ps.update(i, marked(ps[i], false));
        assert forall|a: int, b: int| 0 <= a < b < u.len() implies !is_key(
            #[trigger] u[a],
            #[trigger] u[b].target_id,
            u[b].message_id@,
        ) by {
            assert(!is_key(ps[a], ps[b].target_id, ps[b].message_id@));
        }
    }
    lemma_kept_for_unique(ps, preview, cutoff);
    let k = kept_for(ps, preview, cutoff);
    lemma_kept_for_keys(ps, preview, cutoff, preview.target_id, preview.message_id@);
    let r = k.push(preview);
    assert forall|a: int, b: int| 0 <= a < b < r.len() implies !is_key(
        #[trigger] r[a],
        #[trigger] r[b].target_id,
        r[b].message_id@,
    ) by {
        if b < k.len() {
            assert(r[a] == k[a] && r[b] == k[b]);
        } else {
            assert(r[a] == k[a]);
            if is_key(k[a], preview.target_id, preview.message_id@) {
                assert(has_key(k, preview.target_id, preview.message_id@));
            }
        }
    }
}

} // verus!
