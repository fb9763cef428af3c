//! Which links are videos to take, and which video and page a link opens.
//!
//! Only video pages are taken over: bangumi, live rooms, spaces, articles and
//! feeds are left to the screenshot plugin. Share links on the short hosts are
//! taken on trust, since they only tell where they go once followed.

use vstd::prelude::*;
use crate::link::{HostView, UrlParts, UrlView, parse_url, url_parse, HostPart};
use crate::text::{
    all_ascii, all_ascii_alnum, chars_of, decimal, ends_with, ends_with_chars, is_ascii_alnum,
    is_ascii_char, lower_seq, lowered, owned, parse_unsigned, parses_unsigned, push_chars,
    same_chars, slice_chars, string_of, strip_trailing, trim, trim_end_char, trim_str,
    u64_digits, u64_text,
};

verus! {

// ==================== hosts ====================

pub open spec fn short_host_b23() -> Seq<char> {
    seq!['b', '2', '3', '.', 't', 'v']
}

pub open spec fn short_host_bili2233() -> Seq<char> {
    seq!['b', 'i', 'l', 'i', '2', '2', '3', '3', '.', 'c', 'n']
}

pub open spec fn site_host() -> Seq<char> {
    seq!['b', 'i', 'l', 'i', 'b', 'i', 'l', 'i', '.', 'c', 'o', 'm']
}

/// A host as compared: trailing dots dropped, ASCII case folded.
pub open spec fn host_key(host: Seq<char>) -> Seq<char> {
    lower_seq(trim_end_char(host, '.'))
}

/// The host is `rule` or a subdomain of it.
pub open spec fn under_domain(host: Seq<char>, rule: Seq<char>) -> bool {
    host == rule || ends_with(host, seq!['.'] + rule)
}

pub open spec fn short_host(host: Seq<char>) -> bool {
    under_domain(host_key(host), short_host_b23()) || under_domain(
        host_key(host),
        short_host_bili2233(),
    )
}

fn under(host: &Vec<char>, rule: &Vec<char>) -> (b: bool)
    ensures
        b == under_domain(host@, rule@),
{
    let mut dotted: Vec<char> = vec!['.'];
    let mut k: usize = 0;
    while k < rule.len()
        invariant
            k <= rule@.len(),
            dotted@ == seq!['.'] + rule@.take(k as int),
        decreases rule@.len() - k,
    {
        dotted.push(rule[k]);
        k += 1;
        assert(dotted@ =~= seq!['.'] + rule@.take(k as int));
    }
    assert(rule@.take(k as int) =~= rule@);
    same_chars(host, rule) || ends_with_chars(host, &dotted)
}

fn host_key_of(host: &str) -> (key: Vec<char>)
    ensures
        key@ == host_key(host@),
{
    lowered(&strip_trailing(&chars_of(host), '.'))
}

/// Whether a host is one of the share-link hosts, which only tell where they
/// lead once followed.
pub fn is_short_host(host: &str) -> (b: bool)
    ensures
        b == short_host(host@),
{
    let key = host_key_of(host);
    let b23: Vec<char> = vec!['b', '2', '3', '.', 't', 'v'];
    let bili: Vec<char> = vec!['b', 'i', 'l', 'i', '2', '2', '3', '3', '.', 'c', 'n'];
    assert(b23@ =~= short_host_b23());
    assert(bili@ =~= short_host_bili2233());
    under(&key, &b23) || under(&key, &bili)
}

// ==================== which video ====================

/// The video and page a link opens. A `BV` id and an `av` number are kept
/// as written; the site's interfaces take either.
#[derive(Debug, Clone, PartialEq, Eq)]
pub struct VideoRef {
    pub bvid: Option<String>,
    pub aid: Option<u64>,
    pub page: u32,
}

impl View for VideoRef {
    type V = (Option<Seq<char>>, Option<u64>, u32);

    open spec fn view(&self) -> (Option<Seq<char>>, Option<u64>, u32) {
        (
            match self.bvid {
                Some(b) => Some(b@),
                None => None,
            },
            self.aid,
            self.page,
        )
    }
}

/// The query that names the video to the site's interfaces.
pub open spec fn query_text(bvid: Option<Seq<char>>, aid: Option<u64>) -> Seq<char> {
    match bvid {
        Some(b) => seq!['b', 'v', 'i', 'd', '='] + b,
        None => match aid {
            Some(a) => seq!['a', 'i', 'd', '='] + decimal(a as nat),
            None => seq![],
        },
    }
}

impl VideoRef {
    pub fn query(&self) -> (q: String)
        ensures
            q@ == query_text(self@.0, self@.1),
    {
        let mut out = String::new();
        match &self.bvid {
            Some(bvid) => {
                out.push('b');
                out.push('v');
                out.push('i');
                out.push('d');
                out.push('=');
                push_chars(&mut out, &chars_of(bvid.as_str()));
            },
            None => match self.aid {
                Some(aid) => {
                    out.push('a');
                    out.push('i');
                    out.push('d');
                    out.push('=');
                    push_chars(&mut out, &u64_digits(aid));
                },
                None => {},
            },
        }
        assert(out@ =~= query_text(self@.0, self@.1));
        out
    }
}

/// A video id: `BV` and ten ASCII letters or digits, kept in their case with
/// the prefix written `BV`; or `av` and a number.
pub open spec fn video_id_spec(id: Seq<char>) -> Option<(Option<Seq<char>>, Option<u64>)> {
    if !(forall|i: int| 0 <= i < id.len() ==> is_ascii_char(#[trigger] id[i])) || id.len() < 3 {
        None
    } else {
        let prefix = lower_seq(id.take(2));
        let rest = id.skip(2);
        if prefix == seq!['b', 'v'] {
            if rest.len() == 10 && (forall|i: int| 0 <= i < rest.len() ==> is_ascii_alnum(#[trigger] rest[i])) {
                Some((Some(seq!['B', 'V'] + rest), None))
            } else {
                None
            }
        } else if prefix == seq!['a', 'v'] {
            match parses_unsigned(rest, u64::MAX as int) {
                Some(n) => Some((None, Some(n as u64))),
                None => None,
            }
        } else {
            None
        }
    }
}

/// Reads a video id; the characters after `BV` are case sensitive (they
/// encode a number), so only the prefix is folded.
pub fn video_id(id: &str) -> (r: Option<(Option<String>, Option<u64>)>)
    ensures
        match r {
            Some((b, a)) => video_id_spec(id@) == Some(
                (
                    match b {
                        Some(s) => Some(s@),
                        None => None::<Seq<char>>,
                    },
                    a,
                ),
            ),
            None => video_id_spec(id@) is None,
        },
{
    let v = chars_of(id);
    if !all_ascii(&v) || v.len() < 3 {
        return None;
    }
    let prefix = lowered(&slice_chars(&v, 0, 2));
    let rest = slice_chars(&v, 2, v.len());
    assert(v@.take(2) =~= v@.subrange(0, 2));
    assert(v@.skip(2) =~= v@.subrange(2, v@.len() as int));
    let bv: Vec<char> = vec!['b', 'v'];
    let av: Vec<char> = vec!['a', 'v'];
    assert(bv@ =~= seq!['b', 'v']);
    assert(av@ =~= seq!['a', 'v']);
    if same_chars(&prefix, &bv) {
        if rest.len() == 10 && all_ascii_alnum(&rest) {
            let mut out = String::new();
            out.push('B');
            out.push('V');
            push_chars(&mut out, &rest);
            assert(out@ =~= seq!['B', 'V'] + rest@);
            return Some((Some(out), None));
        }
        return None;
    }
    if same_chars(&prefix, &av) {
        return match parse_unsigned(&rest, u64::MAX) {
            Some(aid) => Some((None, Some(aid))),
            None => None,
        };
    }
    None
}

/// The first query value named `p`, from pair `i` on.
pub open spec fn first_p(query: Seq<(Seq<char>, Seq<char>)>, i: int) -> Option<Seq<char>>
    decreases query.len() - i,
{
    if i < 0 || i >= query.len() {
        None
    } else if query[i].0 == seq!['p'] {
        Some(query[i].1)
    } else {
        first_p(query, i + 1)
    }
}

/// The page a link opens, written `?p=3`; the first page when absent or
/// unreadable.
pub open spec fn page_spec(query: Seq<(Seq<char>, Seq<char>)>) -> u32 {
    match first_p(query, 0) {
        Some(v) => match parses_unsigned(v, u32::MAX as int) {
            Some(n) => if n > 0 {
                n as u32
            } else {
                1
            },
            None => 1,
        },
        None => 1,
    }
}

proof fn lemma_first_p_found(query: Seq<(Seq<char>, Seq<char>)>, i: int, k: int)
    requires
        0 <= i <= k < query.len(),
        query[k].0 == seq!['p'],
        forall|j: int| i <= j < k ==> (#[trigger] query[j]).0 != seq!['p'],
    ensures
        first_p(query, i) == Some(query[k].1),
    decreases k - i,
{
    if i < k {
        lemma_first_p_found(query, i + 1, k);
    }
}

proof fn lemma_first_p_absent(query: Seq<(Seq<char>, Seq<char>)>, i: int)
    requires
        0 <= i <= query.len(),
        forall|j: int| i <= j < query.len() ==> (#[trigger] query[j]).0 != seq!['p'],
    ensures
        first_p(query, i) is None,
    decreases query.len() - i,
{
    if i < query.len() {
        lemma_first_p_absent(query, i + 1);
    }
}

/// The page is read from the first query pair named `p`, wherever it stands
/// among the others: a positive number there is the page, anything else
/// (or no such pair) is the first page.
pub proof fn lemma_page_from_the_first_p(query: Seq<(Seq<char>, Seq<char>)>, k: int)
    requires
        0 <= k < query.len(),
        query[k].0 == seq!['p'],
        forall|j: int| 0 <= j < k ==> (#[trigger] query[j]).0 != seq!['p'],
    ensures
        page_spec(query) == match parses_unsigned(query[k].1, u32::MAX as int) {
            Some(n) => if n > 0 {
                n as u32
            } else {
                1u32
            },
            None => 1u32,
        },
{
    lemma_first_p_found(query, 0, k);
}

/// Without a pair named `p` the link opens the first page.
pub proof fn lemma_no_p_is_the_first_page(query: Seq<(Seq<char>, Seq<char>)>)
    requires
        forall|j: int| 0 <= j < query.len() ==> (#[trigger] query[j]).0 != seq!['p'],
    ensures
        page_spec(query) == 1,
{
    lemma_first_p_absent(query, 0);
}

pub fn page_of(url: &UrlParts) -> (page: u32)
    ensures
        page == page_spec(url@.query),
{
    let ghost q = url@.query;
    let p_key: Vec<char> = vec!['p'];
    assert(p_key@ =~= seq!['p']);
    let mut i: usize = 0;
    while i < url.query.len()
        invariant
            i <= url.query@.len(),
            q == url@.query,
            q.len() == url.query@.len(),
            p_key@ == seq!['p'],
            first_p(q, 0) == first_p(q, i as int),
        decreases url.query@.len() - i,
    {
        let pair = &url.query[i];
        assert(q[i as int] == (pair.0@, pair.1@));
        if same_chars(&chars_of(pair.0.as_str()), &p_key) {
            let value = chars_of(pair.1.as_str());
            return match parse_unsigned(&value, u32::MAX as u64) {
                Some(n) => if n > 0 {
                    n as u32
                } else {
                    1
                },
                None => 1,
            };
        }
        i += 1;
    }
    1
}

/// The first segment, from `i` on, that reads `video` in any ASCII case.
pub open spec fn video_segment(segs: Seq<Seq<char>>, i: int) -> Option<int>
    decreases segs.len() - i,
{
    if i < 0 || i >= segs.len() {
        None
    } else if lower_seq(segs[i]) == seq!['v', 'i', 'd', 'e', 'o'] {
        Some(i)
    } else {
        video_segment(segs, i + 1)
    }
}

/// The video page a link opens: a host on the site, a path segment `video`
/// and after it a video id. Anything else on the site is not a video.
pub open spec fn reference_spec(u: UrlView) -> Option<(Option<Seq<char>>, Option<u64>, u32)> {
    match u.host {
        Some(HostView::Domain(name)) => {
            let host = host_key(name);
            if !under_domain(host, site_host()) {
                None
            } else {
                match u.segments {
                    None => None,
                    Some(segs) => match video_segment(segs, 0) {
                        None => None,
                        Some(k) => if k + 1 >= segs.len() {
                            None
                        } else {
                            match video_id_spec(segs[k + 1]) {
                                Some((b, a)) => Some((b, a, page_spec(u.query))),
                                None => None,
                            }
                        },
                    },
                }
            }
        },
        _ => None,
    }
}

/// Recognises a video page; anything that is not one gives `None`.
pub fn reference(url: &UrlParts) -> (r: Option<VideoRef>)
    ensures
        match r {
            Some(v) => reference_spec(url@) == Some(v@),
            None => reference_spec(url@) is None,
        },
{
    let name = match &url.host {
        Some(HostPart::Domain(name)) => name,
        _ => {
            return None;
        },
    };
    let host = host_key_of(name.as_str());
    let site: Vec<char> = vec!['b', 'i', 'l', 'i', 'b', 'i', 'l', 'i', '.', 'c', 'o', 'm'];
    assert(site@ =~= site_host());
    if !under(&host, &site) {
        return None;
    }
    let page = page_of(url);
    let segs = match &url.segments {
        Some(segs) => segs,
        None => {
            return None;
        },
    };
    let ghost views = segs@.map_values(|s: String| s@);
    let word: Vec<char> = vec!['v', 'i', 'd', 'e', 'o'];
    assert(word@ =~= seq!['v', 'i', 'd', 'e', 'o']);
    let mut i: usize = 0;
    while i < segs.len()
        invariant
            i <= segs@.len(),
            views == segs@.map_values(|s: String| s@),
            url@.segments == Some(views),
            word@ == seq!['v', 'i', 'd', 'e', 'o'],
            page == page_spec(url@.query),
            url@.host == Some(HostView::Domain(name@)),
            under_domain(host_key(name@), site_host()),
            video_segment(views, 0) == video_segment(views, i as int),
        decreases segs@.len() - i,
    {
        assert(views[i as int] == segs@[i as int]@);
        let seg = lowered(&chars_of(segs[i].as_str()));
        if same_chars(&seg, &word) {
            if i + 1 >= segs.len() {
                return None;
            }
            assert(views[i + 1] == segs@[i + 1]@);
            return match video_id(segs[i + 1].as_str()) {
                Some((bvid, aid)) => Some(VideoRef { bvid, aid, page }),
                None => None,
            };
        }
        i += 1;
    }
    None
}

/// Whether a link is one this plugin takes: a share link, or a video page.
/// The screenshot plugin asks the same question, so the two never both act
/// on one link.
pub open spec fn video_link(raw: Seq<char>) -> bool {
    match url_parse(raw) {
        Some(u) => video_url(u),
        None => false,
    }
}

/// Whether a parsed link is a share link or a video page.
pub open spec fn video_url(u: UrlView) -> bool {
    match u.host {
        Some(HostView::Domain(name)) => short_host(name) || reference_spec(u) is Some,
        _ => false,
    }
}

pub fn is_video_link(raw: &str) -> (b: bool)
    ensures
        b == video_link(raw@),
{
    match parse_url(raw) {
        Some(url) => is_video_url(&url),
        None => false,
    }
}

pub fn is_video_url(url: &UrlParts) -> (b: bool)
    ensures
        b == video_url(url@),
{
    match &url.host {
        Some(HostPart::Domain(name)) => is_short_host(name.as_str()) || reference(url).is_some(),
        _ => false,
    }
}

/// The conversation a record belongs to: the group, or the negated user for
/// a private chat.
pub fn target_key(group_id: Option<i64>, user_id: i64) -> (key: i64)
    ensures
        key == match group_id {
            Some(g) => if g != 0 {
                g as int
            } else {
                -(if user_id > 1 {
                    user_id as int
                } else {
                    1
                })
            },
            None => -(if user_id > 1 {
                user_id as int
            } else {
                1
            }),
        },
{
    match group_id {
        Some(g) => if g != 0 {
            return g;
        },
        None => {},
    }
    if user_id > 1 {
        -user_id
    } else {
        -1
    }
}

// ==================== qualities ====================

/// The lower qualities to try after `prefer`, highest first: the distinct
/// values of `accept` strictly between 0 and `prefer`, at most four.
pub open spec fn ladder_ok(accept: Seq<u32>, prefer: u32, ladder: Seq<u32>) -> bool {
    &&& ladder.len() <= 4
    &&& forall|i: int, j: int| 0 <= i < j < ladder.len() ==> ladder[i] > ladder[j]
    &&& forall|i: int|
        0 <= i < ladder.len() ==> accept.contains(#[trigger] ladder[i]) && 0 < ladder[i] < prefer
    &&& forall|k: int|
        0 <= k < accept.len() && 0 < #[trigger] accept[k] < prefer ==> ladder.contains(accept[k])
            || (ladder.len() == 4 && accept[k] < ladder[3])
}

/// The greatest value of `accept` strictly between 0 and `bound`.
fn best_below(accept: &[u32], bound: u32) -> (r: Option<u32>)
    ensures
        match r {
            Some(q) => accept@.contains(q) && 0 < q < bound && forall|k: int|
                0 <= k < accept@.len() && 0 < #[trigger] accept@[k] < bound ==> accept@[k] <= q,
            None => forall|k: int| 0 <= k < accept@.len() ==> !(0 < #[trigger] accept@[k] < bound),
        },
{
    let mut best: Option<u32> = None;
    let mut i: usize = 0;
    while i < accept.len()
        invariant
            i <= accept@.len(),
            match best {
                Some(q) => accept@.contains(q) && 0 < q < bound && forall|k: int|
                    0 <= k < i && 0 < #[trigger] accept@[k] < bound ==> accept@[k] <= q,
                None => forall|k: int| 0 <= k < i ==> !(0 < #[trigger] accept@[k] < bound),
            },
        decreases accept@.len() - i,
    {
        let q = accept[i];
        if 0 < q && q < bound {
            match best {
                Some(b) => if q > b {
                    best = Some(q);
                },
                None => {
                    best = Some(q);
                },
            }
        }
        i += 1;
    }
    best
}

/// The qualities below the preferred one, highest first. Anonymous viewers
/// get two or three; the ladder is capped at four so that an unusually long
/// list is not walked all the way down.
pub fn lower_qualities(accept: &[u32], prefer: u32) -> (ladder: Vec<u32>)
    ensures
        ladder_ok(accept@, prefer, ladder@),
{
    let mut ladder: Vec<u32> = Vec::new();
    let mut bound = prefer;
    while ladder.len() < 4
        invariant
            ladder@.len() <= 4,
            forall|i: int, j: int| 0 <= i < j < ladder@.len() ==> ladder@[i] > ladder@[j],
            forall|i: int|
                0 <= i < ladder@.len() ==> accept@.contains(#[trigger] ladder@[i]) && 0
                    < ladder@[i] < prefer,
            ladder@.len() > 0 ==> bound == ladder@.last(),
            ladder@.len() == 0 ==> bound == prefer,
            forall|k: int|
                0 <= k < accept@.len() && 0 < #[trigger] accept@[k] < prefer ==> ladder@.contains(
                    accept@[k],
                ) || accept@[k] < bound,
        decreases 4 - ladder@.len(),
    {
        match best_below(accept, bound) {
            Some(q) => {
                let ghost prev = ladder@;
                ladder.push(q);
                assert forall|k: int|
                    0 <= k < accept@.len() && 0 < #[trigger] accept@[k] < prefer implies ladder@.contains(
                    accept@[k]) || accept@[k] < q by {
                    if prev.contains(accept@[k]) {
                        let j = choose|j: int| 0 <= j < prev.len() && prev[j] == accept@[k];
                        assert(ladder@[j] == accept@[k]);
                    } else if accept@[k] == q {
                        assert(ladder@[prev.len() as int] == q);
                    }
                }
                assert forall|i: int, j: int| 0 <= i < j < ladder@.len() implies ladder@[i]
                    > ladder@[j] by {
                    if j == prev.len() {
                        assert(prev[i] >= bound);
                    }
                }
                bound = q;
            },
            None => {
                return ladder;
            },
        }
    }
    ladder
}

/// The usual name of a quality code.
pub open spec fn quality_name(q: u32) -> Seq<char> {
    if q == 6 {
        seq!['2', '4', '0', 'P']
    } else if q == 16 {
        seq!['3', '6', '0', 'P']
    } else if q == 32 {
        seq!['4', '8', '0', 'P']
    } else if q == 64 {
        seq!['7', '2', '0', 'P']
    } else if q == 74 {
        seq!['7', '2', '0', 'P', '6', '0']
    } else if q == 80 {
        seq!['1', '0', '8', '0', 'P']
    } else if q == 112 {
        seq!['1', '0', '8', '0', 'P', '+']
    } else if q == 116 {
        seq!['1', '0', '8', '0', 'P', '6', '0']
    } else if q == 120 {
        seq!['4', 'K']
    } else if q == 125 {
        seq!['H', 'D', 'R']
    } else if q == 126 {
        seq!['杜', '比', '视', '界']
    } else if q == 127 {
        seq!['8', 'K']
    } else {
        decimal(q as nat)
    }
}

fn text_of(chars: Vec<char>) -> (s: String)
    ensures
        s@ == chars@,
{
    string_of(&chars)
}

/// The name of a quality code; an unknown code is written as its number.
pub fn quality_label(quality: u32) -> (label: String)
    ensures
        label@ == quality_name(quality),
{
    let chars: Vec<char> = if quality == 6 {
        vec!['2', '4', '0', 'P']
    } else if quality == 16 {
        vec!['3', '6', '0', 'P']
    } else if quality == 32 {
        vec!['4', '8', '0', 'P']
    } else if quality == 64 {
        vec!['7', '2', '0', 'P']
    } else if quality == 74 {
        vec!['7', '2', '0', 'P', '6', '0']
    } else if quality == 80 {
        vec!['1', '0', '8', '0', 'P']
    } else if quality == 112 {
        vec!['1', '0', '8', '0', 'P', '+']
    } else if quality == 116 {
        vec!['1', '0', '8', '0', 'P', '6', '0']
    } else if quality == 120 {
        vec!['4', 'K']
    } else if quality == 125 {
        vec!['H', 'D', 'R']
    } else if quality == 126 {
        vec!['杜', '比', '视', '界']
    } else if quality == 127 {
        vec!['8', 'K']
    } else {
        u64_digits(quality as u64)
    };
    assert(chars@ =~= quality_name(quality));
    text_of(chars)
}

/// A refusal from the site, said the way it can go into the group.
pub open spec fn failure_text(code: i64, message: Option<Seq<char>>) -> Seq<char> {
    if code == -404 || code == -400 {
        "这条稿件不存在或已被删除"@
    } else if code == -403 {
        "这条稿件看不了（可能仅限特定地区或需要登录）"@
    } else if code == -352 {
        "B 站风控拦下了这次请求（配置里填一个登录 Cookie 通常就好了）"@
    } else if code == -509 {
        "被 B 站限流了，过一会儿再试"@
    } else {
        "B 站回了个错误（"@ + crate::text::signed_decimal(code as int) + seq![' '] + trim(
            match message {
                Some(m) => m,
                None => seq![],
            },
        ) + "）"@
    }
}

pub fn fail_message(code: i64, message: Option<&str>) -> (text: String)
    ensures
        text@ == failure_text(
            code,
            match message {
                Some(m) => Some(m@),
                None => None,
            },
        ),
{
    if code == -404 || code == -400 {
        owned("这条稿件不存在或已被删除")
    } else if code == -403 {
        owned("这条稿件看不了（可能仅限特定地区或需要登录）")
    } else if code == -352 {
        owned("B 站风控拦下了这次请求（配置里填一个登录 Cookie 通常就好了）")
    } else if code == -509 {
        owned("被 B 站限流了，过一会儿再试")
    } else {
        let detail = match message {
            Some(m) => trim_str(m),
            None => trim_str(""),
        };
        proof {
            reveal_strlit("");
        }
        let mut out = owned("B 站回了个错误（");
        crate::text::push_str(&mut out, crate::text::i64_text(code).as_str());
        out.push(' ');
        push_chars(&mut out, &detail);
        crate::text::push_str(&mut out, "）");
        out
    }
}


// ==================== the quality plan ====================

/// What a quality plan does next.
#[derive(Debug, Clone, Copy, PartialEq, Eq, Structural)]
pub enum PlanStep {
    /// Ask the site for the streams at this quality.
    Ask(u32),
    /// The streams last received fit under the cap: take them.
    Take,
    /// No quality fits; the smallest seen is what to report.
    TooLarge,
}

/// A quality plan under way: the lower qualities still to try after the
/// preferred one, and the smallest streams seen so far.
#[derive(Debug)]
pub struct Planner {
    /// The largest download allowed, in bytes.
    pub cap: u64,
    /// The lower qualities, highest first.
    pub ladder: Vec<u32>,
    /// How many of them were asked for already.
    pub tried: usize,
    /// The quality and size of the smallest streams seen.
    pub smallest: (u32, u64),
}

/// The quality asked for first: the preferred one, at least 1.
pub open spec fn first_ask(prefer: u32) -> u32 {
    if prefer < 1 {
        1
    } else {
        prefer
    }
}

/// The step after the streams of the `tried`-th lower quality were seen.
pub open spec fn step_after(ladder: Seq<u32>, tried: int) -> PlanStep {
    if tried < ladder.len() {
        PlanStep::Ask(ladder[tried])
    } else {
        PlanStep::TooLarge
    }
}

pub fn first_quality(prefer: u32) -> (q: u32)
    ensures
        q == first_ask(prefer),
{
    if prefer < 1 {
        1
    } else {
        prefer
    }
}

/// Starts a plan from the answer to the first ask: `quality` and `size` of
/// the streams it offered, and the qualities the site accepts. Streams that
/// fit are taken; otherwise the lower qualities are tried from the highest.
pub fn plan_first(prefer: u32, cap: u64, accept: &[u32], quality: u32, size: u64) -> (res: (Planner, PlanStep))
    ensures
        size <= cap ==> res.1 == PlanStep::Take,
        size > cap ==> ladder_ok(accept@, first_ask(prefer), res.0.ladder@) && res.0.cap == cap && res.0.tried == 0
            && res.0.smallest == (quality, size) && res.1 == step_after(res.0.ladder@, 0),
{
    let prefer = first_quality(prefer);
    let ladder = lower_qualities(accept, prefer);
    let step = if size <= cap {
        PlanStep::Take
    } else if ladder.len() > 0 {
        PlanStep::Ask(ladder[0])
    } else {
        PlanStep::TooLarge
    };
    (Planner { cap, ladder, tried: 0, smallest: (quality, size) }, step)
}

impl Planner {
    /// Reads the answer to the last ask: streams that fit are taken;
    /// otherwise the smallest is remembered and the next lower quality is
    /// asked for, until there is none.
    pub fn next(&mut self, quality: u32, size: u64) -> (step: PlanStep)
        requires
            old(self).tried < old(self).ladder@.len(),
        ensures
            size <= old(self).cap ==> step == PlanStep::Take && *final(self) == *old(self),
            size > old(self).cap ==> final(self).cap == old(self).cap && final(self).ladder@ == old(self).ladder@
                && final(self).tried == old(self).tried + 1 && final(self).smallest == (if size < old(self).smallest.1 {
                (quality, size)
            } else {
                old(self).smallest
            }) && step == step_after(old(self).ladder@, old(self).tried + 1),
    {
        if size <= self.cap {
            return PlanStep::Take;
        }
        if size < self.smallest.1 {
            self.smallest = (quality, size);
        }
        let n = self.ladder.len();
        assert(self.tried < n);
        self.tried = self.tried + 1;
        if self.tried < self.ladder.len() {
            PlanStep::Ask(self.ladder[self.tried])
        } else {
            PlanStep::TooLarge
        }
    }
}

/// A plan never asks for more than five qualities: the preferred one and at
/// most four below it.
pub proof fn lemma_plan_is_short(accept: Seq<u32>, prefer: u32, ladder: Seq<u32>)
    requires
        ladder_ok(accept, prefer, ladder),
    ensures
        ladder.len() <= 4,
        forall|t: int| t >= ladder.len() ==> step_after(ladder, t) == PlanStep::TooLarge,
{
}


/// The part of a video a link opens: its page (at least the first) and the
/// part's id, from the list of parts or else the video's own; `None` when
/// that id is 0, a page with nothing to play.
pub fn part_cid(page: u32, part_cids: &[i64], video_cid: i64) -> (r: Option<(u32, i64)>)
    ensures
        ({
            let p = if page < 1 {
                1
            } else {
                page as int
            };
            let cid = if p - 1 < part_cids@.len() {
                part_cids@[p - 1]
            } else {
                video_cid
            };
            r == if cid == 0 {
                None
            } else {
                Some((p as u32, cid))
            }
        }),
{
    let p: u32 = if page < 1 {
        1
    } else {
        page
    };
    let index = (p - 1) as usize;
    let cid = if index < part_cids.len() {
        part_cids[index]
    } else {
        video_cid
    };
    if cid == 0 {
        None
    } else {
        Some((p, cid))
    }
}

/// The download addresses of a video's segments, trimmed, the empty ones
/// left out, and the size of all segments together; `None` when no address
/// is left. The quality is the one the site reports, or the one asked for
/// when it reports none.
pub fn stream_parts(parts: &Vec<(String, u64)>, asked: u32, reported: u32) -> (r: Option<(u32, Vec<String>, u64)>)
    requires
        part_sizes(parts@, parts@.len() as int) <= u64::MAX,
    ensures
        match r {
            Some((q, urls, size)) => {
                &&& q == (if reported == 0 {
                    asked
                } else {
                    reported
                })
                &&& urls@.len() > 0
                &&& string_views(urls@) == kept_urls(parts@, parts@.len() as int)
                &&& size == part_sizes(parts@, parts@.len() as int)
            },
            None => kept_urls(parts@, parts@.len() as int).len() == 0,
        },
{
    let mut urls: Vec<String> = Vec::new();
    let mut size: u64 = 0;
    let mut k: usize = 0;
    while k < parts.len()
        invariant
            k <= parts@.len(),
            part_sizes(parts@, parts@.len() as int) <= u64::MAX,
            string_views(urls@) == kept_urls(parts@, k as int),
            size == part_sizes(parts@, k as int),
        decreases parts@.len() - k,
    {
        proof {
            lemma_part_sizes_grow(parts@, k + 1, parts@.len() as int);
        }
        let t = trim_str(parts[k].0.as_str());
        if t.len() > 0 {
            let ghost before = urls@;
            urls.push(text_of(t));
            assert(string_views(urls@) =~= string_views(before).push(trim(parts@[k as int].0@)));
        }
        size = size + parts[k].1;
        k += 1;
    }
    if urls.len() == 0 {
        return None;
    }
    let q = if reported == 0 {
        asked
    } else {
        reported
    };
    Some((q, urls, size))
}

pub open spec fn string_views(v: Seq<String>) -> Seq<Seq<char>> {
    v.map_values(|s: String| s@)
}

/// The non-empty trimmed addresses among the first `n` segments.
pub open spec fn kept_urls(parts: Seq<(String, u64)>, n: int) -> Seq<Seq<char>>
    decreases n,
{
    if n <= 0 {
        seq![]
    } else {
        let prev = kept_urls(parts, n - 1);
        let t = trim(parts[n - 1].0@);
        if t.len() > 0 {
            prev.push(t)
        } else {
            prev
        }
    }
}

/// The size of the first `n` segments.
pub open spec fn part_sizes(parts: Seq<(String, u64)>, n: int) -> int
    decreases n,
{
    if n <= 0 {
        0
    } else {
        part_sizes(parts, n - 1) + parts[n - 1].1
    }
}

proof fn lemma_part_sizes_grow(parts: Seq<(String, u64)>, k: int, n: int)
    requires
        0 <= k <= n <= parts.len(),
    ensures
        part_sizes(parts, k) <= part_sizes(parts, n),
    decreases n,
{
    if k < n {
        lemma_part_sizes_grow(parts, k, n - 1);
    }
}

} // verus!
