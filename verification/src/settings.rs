//! Plugin settings with their defaults, the outcomes of the image
//! generators, and the avatar addresses.

use vstd::prelude::*;
use vstd::string::StringSliceAdditionalSpecFns;
use crate::text::{decimal, i64_text, owned, push_str, signed_decimal, u64_text};

verus! {

// ==================== avatars ====================

/// The side of the main avatar: the largest the CDN serves.
pub const FULL_SPEC: u32 = 640;

/// The side of a partner's avatar; the circle on the card is small.
pub const PARTNER_SPEC: u32 = 140;

/// The address of an avatar on QQ's public CDN.
pub open spec fn avatar_address(user_id: i64, spec: u32) -> Seq<char> {
    "https://q.qlogo.cn/headimg_dl?dst_uin="@ + signed_decimal(user_id as int) + "&spec="@
        + decimal(spec as nat)
}

pub fn url_at(user_id: i64, spec: u32) -> (url: String)
    ensures
        url@ == avatar_address(user_id, spec),
{
    let mut out = owned("https://q.qlogo.cn/headimg_dl?dst_uin=");
    push_str(&mut out, i64_text(user_id).as_str());
    push_str(&mut out, "&spec=");
    push_str(&mut out, u64_text(spec as u64).as_str());
    out
}

/// The main avatar, at the largest size.
pub fn url(user_id: i64) -> (url: String)
    ensures
        url@ == avatar_address(user_id, FULL_SPEC),
{
    url_at(user_id, FULL_SPEC)
}

// ==================== statistics ====================

/// Settings of the statistics plugin. Times are `HH:MM:SS`, Beijing time.
#[derive(Clone, Debug)]
pub struct StatsConfig {
    pub enabled: bool,
    /// A font file; when given and present it wins over `font_family`.
    pub font_path: String,
    pub font_family: String,
    pub width: u32,
    pub height: u32,
    /// Whether the ranking's grid lines are drawn over the bars.
    pub ranking_grid_over_bars: bool,
    /// Whether the count follows its bar rather than standing in a column.
    pub ranking_value_follows_bar: bool,
    /// Groups with fewer messages in the period are not pushed to.
    pub push_min_messages: u64,
    pub push_group_gap_min_seconds: u64,
    pub push_group_gap_max_seconds: u64,
    pub daily_push_enabled: bool,
    pub daily_push_time: String,
    pub morning_recap_enabled: bool,
    pub morning_recap_time: String,
    pub noon_brief_enabled: bool,
    pub noon_brief_time: String,
    pub weekly_recap_enabled: bool,
    pub weekly_recap_time: String,
    pub monthly_recap_enabled: bool,
    pub monthly_recap_time: String,
}

impl Default for StatsConfig {
    fn default() -> (config: Self)
        ensures
            config.enabled,
            config.font_path@ == Seq::<char>::empty(),
            config.font_family@ == "Noto Sans CJK SC"@,
            config.width == 960,
            config.height == 800,
            config.ranking_grid_over_bars,
            config.ranking_value_follows_bar,
            config.push_min_messages == 20,
            config.push_group_gap_min_seconds == 20,
            config.push_group_gap_max_seconds == 75,
            config.daily_push_enabled,
            config.daily_push_time@ == "23:30:00"@,
            config.morning_recap_enabled,
            config.morning_recap_time@ == "09:00:00"@,
            config.noon_brief_enabled,
            config.noon_brief_time@ == "12:30:00"@,
            config.weekly_recap_enabled,
            config.weekly_recap_time@ == "10:00:00"@,
            config.monthly_recap_enabled,
            config.monthly_recap_time@ == "10:20:00"@,
    {
        StatsConfig {
            enabled: true,
            font_path: String::new(),
            font_family: owned("Noto Sans CJK SC"),
            width: 960,
            height: 800,
            ranking_grid_over_bars: true,
            ranking_value_follows_bar: true,
            push_min_messages: 20,
            push_group_gap_min_seconds: 20,
            push_group_gap_max_seconds: 75,
            daily_push_enabled: true,
            daily_push_time: owned("23:30:00"),
            morning_recap_enabled: true,
            morning_recap_time: owned("09:00:00"),
            noon_brief_enabled: true,
            noon_brief_time: owned("12:30:00"),
            weekly_recap_enabled: true,
            weekly_recap_time: owned("10:00:00"),
            monthly_recap_enabled: true,
            monthly_recap_time: owned("10:20:00"),
        }
    }
}

/// Why a chart did not come out: an empty period is not a fault.
#[derive(Debug)]
pub enum ChartError {
    /// Nothing to draw in the period.
    NoData,
    /// A real failure, with its reason.
    Failed(String),
}

impl ChartError {
    pub fn message(&self) -> (text: String)
        ensures
            text@ == match self {
                ChartError::NoData => "区间内没有数据"@,
                ChartError::Failed(reason) => reason@,
            },
    {
        match self {
            ChartError::NoData => owned("区间内没有数据"),
            ChartError::Failed(reason) => reason.clone(),
        }
    }
}

// ==================== word cloud ====================

/// Settings of the word cloud.
#[derive(Clone, Debug)]
pub struct WordCloudConfig {
    pub enabled: bool,
    /// At most this many words in the picture, most frequent first.
    pub limit: usize,
    pub width: u32,
    pub height: u32,
    /// A font file; when given and present it wins over `font_family`.
    pub font_path: Option<String>,
    pub font_family: Option<String>,
    /// At most this many records are read.
    pub max_msg: usize,
}

impl Default for WordCloudConfig {
    fn default() -> (config: Self)
        ensures
            config.enabled,
            config.limit == 50,
            config.width == 800,
            config.height == 600,
            config.font_path is None,
            config.font_family is None,
            config.max_msg == 50000,
    {
        WordCloudConfig {
            enabled: true,
            limit: 50,
            width: 800,
            height: 600,
            font_path: None,
            font_family: None,
            max_msg: 50000,
        }
    }
}

/// Why a word cloud did not come out: an empty period is not a fault.
#[derive(Debug)]
pub enum GenError {
    /// No usable messages in the period.
    Empty,
    /// A real failure, with its reason.
    Failed(String),
}

impl GenError {
    pub fn message(&self) -> (text: String)
        ensures
            text@ == match self {
                GenError::Empty => "区间内没有可用的聊天记录"@,
                GenError::Failed(reason) => reason@,
            },
    {
        match self {
            GenError::Empty => owned("区间内没有可用的聊天记录"),
            GenError::Failed(reason) => reason.clone(),
        }
    }
}

/// The messages a cloud is drawn from: the latest `max_msg` of them, or all
/// when there is no cap.
pub fn keep_latest(corpus: Vec<String>, max_msg: usize) -> (kept: Vec<String>)
    ensures
        kept@ == if max_msg > 0 && corpus@.len() > max_msg {
            corpus@.skip(corpus@.len() - max_msg)
        } else {
            corpus@
        },
{
    if max_msg > 0 && corpus.len() > max_msg {
        let start = corpus.len() - max_msg;
        let mut kept: Vec<String> = Vec::new();
        let mut i = start;
        let ghost all = corpus@;
        let mut rest = corpus;
        while i < rest.len()
            invariant
                start <= i <= rest@.len(),
                rest@ == all,
                kept@ == all.subrange(start as int, i as int),
            decreases rest@.len() - i,
        {
            let s = rest[i].clone();
            kept.push(s);
            i += 1;
            assert(kept@ =~= all.subrange(start as int, i as int));
        }
        assert(all.subrange(start as int, all.len() as int) =~= all.skip(start as int));
        kept
    } else {
        corpus
    }
}

// ==================== the avatar cache ====================

/// How long a cached avatar stays fresh, in days.
pub const CACHE_EXPIRE_DAYS: u64 = 3;

/// The MD5 digest of some bytes, as the `md5` crate computes it.
pub uninterp spec fn md5_of(data: Seq<u8>) -> Seq<u8>;

/// `md5::compute`: the contract names the digest and claims nothing of how
/// it is computed.
#[verifier::external_body]
fn md5_digest(data: &[u8]) -> (digest: [u8; 16])
    ensures
        digest@ == md5_of(data@),
{
    md5::compute(data).0
}

pub open spec fn hex_digit(n: u8) -> char {
    if n < 10 {
        (('0' as u8) + n) as char
    } else {
        (('a' as u8) + n - 10) as char
    }
}

/// Bytes as lowercase hexadecimal, two digits each.
pub open spec fn hex_of(bytes: Seq<u8>) -> Seq<char>
    decreases bytes.len(),
{
    if bytes.len() == 0 {
        seq![]
    } else {
        hex_of(bytes.drop_last()) + seq![hex_digit(bytes.last() / 16), hex_digit(bytes.last() % 16)]
    }
}

fn hex_char(n: u8) -> (c: char)
    requires
        n < 16,
    ensures
        c == hex_digit(n),
{
    if n < 10 {
        (('0' as u8) + n) as char
    } else {
        (('a' as u8) + n - 10) as char
    }
}

/// The file key of an avatar known by the digest of its address: `h_` and
/// the digest in lowercase hexadecimal.
pub fn hashed_key(digest: &[u8; 16]) -> (key: String)
    ensures
        key@ == seq!['h', '_'] + hex_of(digest@),
{
    let mut out = String::new();
    out.push('h');
    out.push('_');
    let ghost start = out@;
    let mut i: usize = 0;
    while i < 16
        invariant
            i <= 16,
            digest@.len() == 16,
            start == seq!['h', '_'],
            out@ == start + hex_of(digest@.take(i as int)),
        decreases 16 - i,
    {
        let b = digest[i];
        assert(digest@.take(i + 1).drop_last() =~= digest@.take(i as int));
        out.push(hex_char(b / 16));
        out.push(hex_char(b % 16));
        i += 1;
        assert(out@ =~= start + hex_of(digest@.take(i as int)));
    }
    assert(digest@.take(16) =~= digest@);
    out
}

/// The file key of a cached avatar: the user when known, else the digest of
/// its address, else `unknown`.
pub open spec fn avatar_key(user_id: Option<i64>, url: Option<Seq<u8>>) -> Seq<char> {
    match user_id {
        Some(uid) => seq!['u', '_'] + signed_decimal(uid as int),
        None => match url {
            Some(bytes) => seq!['h', '_'] + hex_of(md5_of(bytes)),
            None => seq!['u', 'n', 'k', 'n', 'o', 'w', 'n'],
        },
    }
}

pub fn avatar_file_key(user_id: Option<i64>, url: Option<&str>) -> (key: String)
    ensures
        key@ == avatar_key(
            user_id,
            match url {
                Some(u) => Some(u.spec_bytes()),
                None => None,
            },
        ),
{
    match user_id {
        Some(uid) => {
            let mut out = String::new();
            out.push('u');
            out.push('_');
            push_str(&mut out, i64_text(uid).as_str());
            out
        },
        None => match url {
            Some(u) => hashed_key(&md5_digest(u.as_bytes())),
            None => {
                let mut out = String::new();
                out.push('u');
                out.push('n');
                out.push('k');
                out.push('n');
                out.push('o');
                out.push('w');
                out.push('n');
                out
            },
        },
    }
}

/// A cached avatar is fetched again when its age (seconds and nanoseconds
/// since it was written) is unknown or beyond the expiry.
pub fn should_refresh(age: Option<(u64, u32)>) -> (b: bool)
    ensures
        b == match age {
            Some((secs, nanos)) => secs > CACHE_EXPIRE_DAYS * 86400 || (secs == CACHE_EXPIRE_DAYS
                * 86400 && nanos > 0),
            None => true,
        },
{
    match age {
        Some((secs, nanos)) => secs > CACHE_EXPIRE_DAYS * 86400 || (secs == CACHE_EXPIRE_DAYS * 86400
            && nanos > 0),
        None => true,
    }
}

} // verus!
