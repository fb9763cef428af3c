//! Which links may be screenshotted, and how.
//!
//! The bot runs on the owner's machine and sends its screenshots back into
//! the group, so any member could have it render the control panel on
//! `127.0.0.1` or the router behind `192.168.x.x`. Links are screened before a
//! browser ever sees them: by scheme, by the video plugin's claim, by the
//! ignore list, by the sites that only show a wall, and by where the host
//! points. Resolving a domain name is the caller's part.

use vstd::prelude::*;
use crate::bilibili::{is_video_url, under_domain, video_url};
use crate::link::{HostPart, HostView, UrlParts, UrlView, parse_url, url_parse};
use crate::text::{
    chars_of, contains, contains_chars, ends_with, ends_with_chars, lower_seq, lowered, owned,
    push_chars, push_str, same_chars, string_of, strip_leading, strip_trailing, trim,
    trim_end_char, trim_start_char, trim_str,
};

verus! {

/// The user agent for WeChat articles: WeChat serves the article only to
/// its own client.
pub const WECHAT_UA: &'static str = "Mozilla/5.0 (iPhone; CPU iPhone OS 16_6 like Mac OS X) AppleWebKit/605.1.15 (KHTML, like Gecko) Mobile/15E148 MicroMessenger/8.0.42(0x18002a2f) NetType/WIFI Language/zh_CN";

/// WeChat articles are laid out for phones; they are captured this wide.
pub const WECHAT_VIEWPORT_WIDTH: u32 = 480;

/// Where WeChat sends a visitor it wants verified.
pub const WECHAT_CAPTCHA_PATH: &'static str = "/mp/wappoc_appmsgcaptcha";

/// Restores the images WeChat hides behind `data-src` and
/// `data-lazy-bgimg`, and waits up to five seconds for them to decode.
pub const WECHAT_REHYDRATE_JS: &'static str = "(() => {\n  const blankSrc = (v) => !v || v.startsWith('data:');\n  const blankBg = (v) => {\n    if (!v) return true;\n    const m = v.match(/url\\([\"']?(.*?)[\"']?\\)/);\n    return !m || m[1].startsWith('data:');\n  };\n  const pending = [];\n  for (const img of document.images) {\n    const dataSrc = img.getAttribute('data-src');\n    if (dataSrc && blankSrc(img.getAttribute('src'))) {\n      img.src = dataSrc;\n      pending.push(img);\n    }\n  }\n  for (const el of document.querySelectorAll('[data-lazy-bgimg]')) {\n    const url = el.getAttribute('data-lazy-bgimg');\n    if (url && blankBg(el.style.backgroundImage)) {\n      el.style.backgroundImage = 'url(\"' + url + '\")';\n      const probe = new Image();\n      probe.src = url;\n      pending.push(probe);\n    }\n  }\n  if (pending.length === 0) return 0;\n  const decoded = Promise.all(pending.map(n => n.decode().catch(() => {})));\n  const cap = new Promise(r => setTimeout(r, 5000));\n  return Promise.race([decoded, cap]).then(() => pending.length);\n})()";

/// The sites that show only a login wall or a verification page when
/// captured, matched by domain suffix.
pub open spec fn walled_domains() -> Seq<Seq<char>> {
    seq![
        seq!['d', 'o', 'u', 'y', 'i', 'n', '.', 'c', 'o', 'm'],
        seq!['i', 'e', 's', 'd', 'o', 'u', 'y', 'i', 'n', '.', 'c', 'o', 'm'],
        seq!['k', 'u', 'a', 'i', 's', 'h', 'o', 'u', '.', 'c', 'o', 'm'],
        seq!['x', 'i', 'a', 'o', 'h', 'o', 'n', 'g', 's', 'h', 'u', '.', 'c', 'o', 'm'],
        seq!['x', 'h', 's', 'l', 'i', 'n', 'k', '.', 'c', 'o', 'm'],
        seq!['t', 'i', 'k', 't', 'o', 'k', '.', 'c', 'o', 'm'],
        seq!['i', 'n', 's', 't', 'a', 'g', 'r', 'a', 'm', '.', 'c', 'o', 'm'],
        seq!['f', 'a', 'c', 'e', 'b', 'o', 'o', 'k', '.', 'c', 'o', 'm'],
        seq!['x', '.', 'c', 'o', 'm'],
        seq!['t', 'w', 'i', 't', 't', 'e', 'r', '.', 'c', 'o', 'm'],
        seq!['l', 'i', 'n', 'k', 'e', 'd', 'i', 'n', '.', 'c', 'o', 'm'],
        seq!['w', 'e', 'i', 'b', 'o', '.', 'c', 'o', 'm'],
        seq!['z', 'h', 'i', 'h', 'u', '.', 'c', 'o', 'm'],
        seq!['x', 'u', 'e', 'q', 'i', 'u', '.', 'c', 'o', 'm'],
        seq!['n', 'g', 'a', '.', 'c', 'n'],
        seq!['n', 'g', 'a', 'b', 'b', 's', '.', 'c', 'o', 'm'],
        seq!['r', 'e', 'd', 'd', 'i', 't', '.', 'c', 'o', 'm'],
        seq!['q', 'u', 'o', 'r', 'a', '.', 'c', 'o', 'm'],
        seq!['q', 'r', '.', '1', '6', '8', '8', '.', 'c', 'o', 'm'],
        seq!['m', '.', '1', '6', '8', '8', '.', 'c', 'o', 'm'],
    ]
}

fn walled_table() -> (rules: Vec<Vec<char>>)
    ensures
        crate::text::views(rules@) == walled_domains(),
{
    let rules = vec![
        vec!['d', 'o', 'u', 'y', 'i', 'n', '.', 'c', 'o', 'm'],
        vec!['i', 'e', 's', 'd', 'o', 'u', 'y', 'i', 'n', '.', 'c', 'o', 'm'],
        vec!['k', 'u', 'a', 'i', 's', 'h', 'o', 'u', '.', 'c', 'o', 'm'],
        vec!['x', 'i', 'a', 'o', 'h', 'o', 'n', 'g', 's', 'h', 'u', '.', 'c', 'o', 'm'],
        vec!['x', 'h', 's', 'l', 'i', 'n', 'k', '.', 'c', 'o', 'm'],
        vec!['t', 'i', 'k', 't', 'o', 'k', '.', 'c', 'o', 'm'],
        vec!['i', 'n', 's', 't', 'a', 'g', 'r', 'a', 'm', '.', 'c', 'o', 'm'],
        vec!['f', 'a', 'c', 'e', 'b', 'o', 'o', 'k', '.', 'c', 'o', 'm'],
        vec!['x', '.', 'c', 'o', 'm'],
        vec!['t', 'w', 'i', 't', 't', 'e', 'r', '.', 'c', 'o', 'm'],
        vec!['l', 'i', 'n', 'k', 'e', 'd', 'i', 'n', '.', 'c', 'o', 'm'],
        vec!['w', 'e', 'i', 'b', 'o', '.', 'c', 'o', 'm'],
        vec!['z', 'h', 'i', 'h', 'u', '.', 'c', 'o', 'm'],
        vec!['x', 'u', 'e', 'q', 'i', 'u', '.', 'c', 'o', 'm'],
        vec!['n', 'g', 'a', '.', 'c', 'n'],
        vec!['n', 'g', 'a', 'b', 'b', 's', '.', 'c', 'o', 'm'],
        vec!['r', 'e', 'd', 'd', 'i', 't', '.', 'c', 'o', 'm'],
        vec!['q', 'u', 'o', 'r', 'a', '.', 'c', 'o', 'm'],
        vec!['q', 'r', '.', '1', '6', '8', '8', '.', 'c', 'o', 'm'],
        vec!['m', '.', '1', '6', '8', '8', '.', 'c', 'o', 'm'],
    ];
    assert(crate::text::views(rules@) =~= walled_domains());
    rules
}

/// Sites that cannot be captured usefully at all: animation-driven and
/// endlessly long. This list holds whatever the walled switch says.
pub open spec fn uncapturable_domains() -> Seq<Seq<char>> {
    seq![seq!['d', 'o', 'n', 't', 'b', 'o', 'a', 'r', 'd', 'm', 'e', '.', 'c', 'o', 'm']]
}

fn uncapturable_table() -> (rules: Vec<Vec<char>>)
    ensures
        crate::text::views(rules@) == uncapturable_domains(),
{
    let rules = vec![vec!['d', 'o', 'n', 't', 'b', 'o', 'a', 'r', 'd', 'm', 'e', '.', 'c', 'o', 'm']];
    assert(crate::text::views(rules@) =~= uncapturable_domains());
    rules
}

// ==================== domain rules ====================

/// A rule as compared: trimmed, leading dots dropped, ASCII case folded.
pub open spec fn rule_key(rule: Seq<char>) -> Seq<char> {
    lower_seq(trim_start_char(trim(rule), '.'))
}

/// A rule matches a host by domain suffix, never by substring: `evil.com`
/// covers `a.evil.com` but not `evil.com.attacker.net`. An empty rule
/// matches nothing.
pub open spec fn rule_matches(host: Seq<char>, rule: Seq<char>) -> bool {
    rule_key(rule).len() > 0 && under_domain(host, rule_key(rule))
}

fn rule_matches_chars(host: &Vec<char>, rule: &Vec<char>) -> (b: bool)
    ensures
        b == rule_matches(host@, rule@),
{
    let key = lowered(&strip_leading(&crate::text::trimmed(rule), '.'));
    if key.len() == 0 {
        return false;
    }
    let mut dotted: Vec<char> = vec!['.'];
    let mut k: usize = 0;
    while k < key.len()
        invariant
            k <= key@.len(),
            dotted@ == seq!['.'] + key@.take(k as int),
        decreases key@.len() - k,
    {
        dotted.push(key[k]);
        k += 1;
        assert(dotted@ =~= seq!['.'] + key@.take(k as int));
    }
    assert(key@.take(k as int) =~= key@);
    same_chars(host, &key) || ends_with_chars(host, &dotted)
}

/// Whether an ignore rule covers a host (already trimmed of dots and folded).
pub fn domain_matches(host: &str, rule: &str) -> (b: bool)
    ensures
        b == rule_matches(host@, rule@),
{
    rule_matches_chars(&chars_of(host), &chars_of(rule))
}

/// The first rule, from `i` on, that covers the host.
pub open spec fn first_rule(host: Seq<char>, rules: Seq<Seq<char>>, i: int) -> Option<int>
    decreases rules.len() - i,
{
    if i < 0 || i >= rules.len() {
        None
    } else if rule_matches(host, rules[i]) {
        Some(i)
    } else {
        first_rule(host, rules, i + 1)
    }
}

fn find_rule(host: &Vec<char>, rules: &Vec<Vec<char>>) -> (r: Option<usize>)
    ensures
        match r {
            Some(i) => first_rule(host@, crate::text::views(rules@), 0) == Some(i as int) && i
                < rules@.len(),
            None => first_rule(host@, crate::text::views(rules@), 0) is None,
        },
{
    let ghost views = crate::text::views(rules@);
    let mut i: usize = 0;
    while i < rules.len()
        invariant
            i <= rules@.len(),
            views == crate::text::views(rules@),
            first_rule(host@, views, 0) == first_rule(host@, views, i as int),
        decreases rules@.len() - i,
    {
        assert(views[i as int] == rules@[i as int]@);
        if rule_matches_chars(host, &rules[i]) {
            return Some(i);
        }
        i += 1;
    }
    None
}

// ==================== internal addresses ====================

/// Loopback, private, link-local, unspecified, multicast, `0.0.0.0/8` and the
/// reserved `240.0.0.0/4`.
pub open spec fn v4_internal(o: [u8; 4]) -> bool {
    ||| o[0] == 127
    ||| o[0] == 10
    ||| (o[0] == 172 && 16 <= o[1] <= 31)
    ||| (o[0] == 192 && o[1] == 168)
    ||| (o[0] == 169 && o[1] == 254)
    ||| (o[0] == 0 && o[1] == 0 && o[2] == 0 && o[3] == 0)
    ||| (224 <= o[0] <= 239)
    ||| o[0] == 0
    ||| o[0] >= 240
}

pub fn v4_is_internal(o: [u8; 4]) -> (b: bool)
    ensures
        b == v4_internal(o),
{
    let first = o[0];
    first == 127 || first == 10 || (first == 172 && 16 <= o[1] && o[1] <= 31) || (first == 192
        && o[1] == 168) || (first == 169 && o[1] == 254) || (first == 0 && o[1] == 0 && o[2] == 0
        && o[3] == 0) || (224 <= first && first <= 239) || first == 0 || first >= 240
}

/// An IPv4 address mapped into IPv6 (`::ffff:a.b.c.d`).
pub open spec fn v4_mapped(s: [u16; 8]) -> bool {
    s[0] == 0 && s[1] == 0 && s[2] == 0 && s[3] == 0 && s[4] == 0 && s[5] == 0xffff
}

pub open spec fn mapped_octets(s: [u16; 8]) -> [u8; 4] {
    [(s[6] >> 8) as u8, (s[6] & 0xff) as u8, (s[7] >> 8) as u8, (s[7] & 0xff) as u8]
}

/// A mapped IPv4 address is judged as IPv4; otherwise loopback, unspecified,
/// multicast, unique-local `fc00::/7` and link-local `fe80::/10`.
pub open spec fn v6_internal(s: [u16; 8]) -> bool {
    if v4_mapped(s) {
        v4_internal(mapped_octets(s))
    } else {
        let zero_head = s[0] == 0 && s[1] == 0 && s[2] == 0 && s[3] == 0 && s[4] == 0 && s[5] == 0
            && s[6] == 0;
        ||| (zero_head && s[7] == 1)
        ||| (zero_head && s[7] == 0)
        ||| (s[0] & 0xff00) == 0xff00
        ||| (s[0] & 0xfe00) == 0xfc00
        ||| (s[0] & 0xffc0) == 0xfe80
    }
}

pub fn v6_is_internal(s: [u16; 8]) -> (b: bool)
    ensures
        b == v6_internal(s),
{
    if s[0] == 0 && s[1] == 0 && s[2] == 0 && s[3] == 0 && s[4] == 0 && s[5] == 0xffff {
        let o: [u8; 4] = [(s[6] >> 8) as u8, (s[6] & 0xff) as u8, (s[7] >> 8) as u8, (s[7] & 0xff) as u8];
        assert(o == mapped_octets(s));
        return v4_is_internal(o);
    }
    let zero_head = s[0] == 0 && s[1] == 0 && s[2] == 0 && s[3] == 0 && s[4] == 0 && s[5] == 0
        && s[6] == 0;
    (zero_head && s[7] == 1) || (zero_head && s[7] == 0) || (s[0] & 0xff00) == 0xff00 || (s[0]
        & 0xfe00) == 0xfc00 || (s[0] & 0xffc0) == 0xfe80
}

/// Whether an address literal points inside: the machine or its network.
pub open spec fn address_internal(h: HostView) -> bool {
    match h {
        HostView::V4(o) => v4_internal(o),
        HostView::V6(s) => v6_internal(s),
        HostView::Domain(_) => false,
    }
}

pub fn address_is_internal(h: &HostPart) -> (b: bool)
    ensures
        b == address_internal(crate::link::host_view(*h)),
{
    match h {
        HostPart::V4(o) => v4_is_internal(*o),
        HostPart::V6(s) => v6_is_internal(*s),
        HostPart::Domain(_) => false,
    }
}

pub open spec fn local_suffixes() -> Seq<Seq<char>> {
    seq![
        seq!['.', 'l', 'o', 'c', 'a', 'l', 'h', 'o', 's', 't'],
        seq!['.', 'l', 'o', 'c', 'a', 'l'],
        seq!['.', 'i', 'n', 't', 'e', 'r', 'n', 'a', 'l'],
        seq!['.', 'l', 'a', 'n'],
        seq!['.', 'h', 'o', 'm', 'e', '.', 'a', 'r', 'p', 'a'],
    ]
}

/// A name that stays on the machine or its network by its spelling alone:
/// `localhost` and the local suffixes.
pub open spec fn name_internal(name: Seq<char>) -> bool {
    let n = lower_seq(trim_end_char(name, '.'));
    n == seq!['l', 'o', 'c', 'a', 'l', 'h', 'o', 's', 't'] || exists|k: int|
        0 <= k < local_suffixes().len() && ends_with(n, #[trigger] local_suffixes()[k])
}

pub fn name_is_internal(name: &str) -> (b: bool)
    ensures
        b == name_internal(name@),
{
    let n = lowered(&strip_trailing(&chars_of(name), '.'));
    let localhost: Vec<char> = vec!['l', 'o', 'c', 'a', 'l', 'h', 'o', 's', 't'];
    assert(localhost@ =~= seq!['l', 'o', 'c', 'a', 'l', 'h', 'o', 's', 't']);
    if same_chars(&n, &localhost) {
        return true;
    }
    let suffixes: Vec<Vec<char>> = vec![
        vec!['.', 'l', 'o', 'c', 'a', 'l', 'h', 'o', 's', 't'],
        vec!['.', 'l', 'o', 'c', 'a', 'l'],
        vec!['.', 'i', 'n', 't', 'e', 'r', 'n', 'a', 'l'],
        vec!['.', 'l', 'a', 'n'],
        vec!['.', 'h', 'o', 'm', 'e', '.', 'a', 'r', 'p', 'a'],
    ];
    assert(crate::text::views(suffixes@) =~= local_suffixes());
    let mut k: usize = 0;
    while k < suffixes.len()
        invariant
            k <= suffixes@.len(),
            crate::text::views(suffixes@) == local_suffixes(),
            n@ == lower_seq(trim_end_char(name@, '.')),
            forall|j: int| 0 <= j < k ==> !ends_with(n@, #[trigger] local_suffixes()[j]),
        decreases suffixes@.len() - k,
    {
        assert(local_suffixes()[k as int] == suffixes@[k as int]@);
        if ends_with_chars(&n, &suffixes[k]) {
            assert(ends_with(n@, local_suffixes()[k as int]));
            return true;
        }
        k += 1;
    }
    false
}

// ==================== WeChat ====================

pub open spec fn wechat_host() -> Seq<char> {
    seq!['m', 'p', '.', 'w', 'e', 'i', 'x', 'i', 'n', '.', 'q', 'q', '.', 'c', 'o', 'm']
}

/// An article on the WeChat official-accounts platform.
pub open spec fn wechat_article(u: UrlView) -> bool {
    match u.host {
        Some(HostView::Domain(name)) => lower_seq(trim_end_char(name, '.')) == wechat_host(),
        _ => false,
    }
}

pub fn is_wechat_article(url: &UrlParts) -> (b: bool)
    ensures
        b == wechat_article(url@),
{
    match &url.host {
        Some(HostPart::Domain(name)) => {
            let n = lowered(&strip_trailing(&chars_of(name.as_str()), '.'));
            let host: Vec<char> = vec![
                'm', 'p', '.', 'w', 'e', 'i', 'x', 'i', 'n', '.', 'q', 'q', '.', 'c', 'o', 'm',
            ];
            assert(host@ =~= wechat_host());
            same_chars(&n, &host)
        },
        _ => false,
    }
}

/// WeChat articles are captured phone-wide, everything else at the
/// configured width.
pub fn capture_width(url: &UrlParts, viewport_width: u32) -> (width: u32)
    ensures
        width == if wechat_article(url@) {
            WECHAT_VIEWPORT_WIDTH
        } else {
            viewport_width
        },
{
    if is_wechat_article(url) {
        WECHAT_VIEWPORT_WIDTH
    } else {
        viewport_width
    }
}

/// Whether a page landed on WeChat's verification step.
pub fn is_verification_page(landed: &str) -> (b: bool)
    ensures
        b == contains(landed@, WECHAT_CAPTCHA_PATH@),
{
    contains_chars(&chars_of(landed), &chars_of(WECHAT_CAPTCHA_PATH))
}

// ==================== screening ====================

/// What becomes of a link.
#[derive(Debug)]
pub enum Screen {
    /// Not captured; the reason can go into the log.
    Refused(String),
    /// A domain that must be resolved first; see `after_lookup`.
    Lookup(UrlParts),
    /// Captured as it is.
    Allowed(UrlParts),
}

pub enum ScreenView {
    Refused(Seq<char>),
    Lookup(UrlView),
    Allowed(UrlView),
}

pub open spec fn screen_view(s: Screen) -> ScreenView {
    match s {
        Screen::Refused(m) => ScreenView::Refused(m@),
        Screen::Lookup(u) => ScreenView::Lookup(u@),
        Screen::Allowed(u) => ScreenView::Allowed(u@),
    }
}

/// The reason a domain is refused by the lists: the ignore list first, then
/// the uncapturable sites, then (when switched on) the walled ones.
pub open spec fn list_refusal(name: Seq<char>, ignore: Seq<Seq<char>>, block_walled: bool) -> Option<
    Seq<char>,
> {
    let n = lower_seq(trim_end_char(name, '.'));
    match first_rule(n, ignore, 0) {
        Some(i) => Some("域名 "@ + n + " 命中忽略名单 "@ + trim(ignore[i])),
        None => match first_rule(n, uncapturable_domains(), 0) {
            Some(i) => Some(uncapturable_domains()[i] + " 动画重、整页极长，截出来不能用"@),
            None => if block_walled {
                match first_rule(n, walled_domains(), 0) {
                    Some(i) => Some(walled_domains()[i] + " 截出来是登录墙或验证页，没有内容"@),
                    None => None,
                }
            } else {
                None
            },
        },
    }
}

pub open spec fn internal_refusal(u: UrlView) -> Seq<char> {
    u.text + " 指向内网/本机地址"@
}

/// The screening of a link, before any name is resolved.
pub open spec fn screen_spec(
    raw: Seq<char>,
    ignore: Seq<Seq<char>>,
    allow_private: bool,
    block_walled: bool,
) -> ScreenView {
    match url_parse(raw) {
        None => ScreenView::Refused("无法解析的链接"@),
        Some(u) => screen_parsed(u, ignore, allow_private, block_walled),
    }
}

/// The screening of a link once parsed.
pub open spec fn screen_parsed(
    u: UrlView,
    ignore: Seq<Seq<char>>,
    allow_private: bool,
    block_walled: bool,
) -> ScreenView {
    if !(u.scheme == "http"@ || u.scheme == "https"@) {
        ScreenView::Refused("不支持的协议 "@ + u.scheme)
    } else {
        match u.host {
            None => ScreenView::Refused("链接缺少主机名"@),
            Some(h) => if video_url(u) {
                ScreenView::Refused("视频站链接由视频解析插件接"@)
            } else {
                match (match h {
                    HostView::Domain(name) => list_refusal(name, ignore, block_walled),
                    _ => None,
                }) {
                    Some(reason) => ScreenView::Refused(reason),
                    None => if allow_private {
                        ScreenView::Allowed(u)
                    } else {
                        match h {
                            HostView::Domain(name) => if name_internal(name) {
                                ScreenView::Refused(internal_refusal(u))
                            } else {
                                ScreenView::Lookup(u)
                            },
                            _ => if address_internal(h) {
                                ScreenView::Refused(internal_refusal(u))
                            } else {
                                ScreenView::Allowed(u)
                            },
                        }
                    },
                }
            },
        }
    }
}

pub open spec fn string_views(v: Seq<String>) -> Seq<Seq<char>> {
    v.map_values(|s: String| s@)
}

fn list_reason(name: &str, ignore: &Vec<String>, block_walled: bool) -> (r: Option<String>)
    ensures
        match r {
            Some(m) => list_refusal(name@, string_views(ignore@), block_walled) == Some(m@),
            None => list_refusal(name@, string_views(ignore@), block_walled) is None,
        },
{
    let n = lowered(&strip_trailing(&chars_of(name), '.'));
    let mut rules: Vec<Vec<char>> = Vec::new();
    let mut i: usize = 0;
    while i < ignore.len()
        invariant
            i <= ignore@.len(),
            crate::text::views(rules@) == string_views(ignore@).take(i as int),
        decreases ignore@.len() - i,
    {
        let ghost prev = rules@;
        let c = chars_of(ignore[i].as_str());
        rules.push(c);
        assert(crate::text::views(rules@) =~= crate::text::views(prev).push(c@));
        assert(string_views(ignore@).take(i + 1) =~= string_views(ignore@).take(i as int).push(ignore@[i as int]@));
        i += 1;
    }
    assert(string_views(ignore@).take(i as int) =~= string_views(ignore@));
    match find_rule(&n, &rules) {
        Some(k) => {
            let mut out = owned("域名 ");
            push_chars(&mut out, &n);
            push_str(&mut out, " 命中忽略名单 ");
            push_chars(&mut out, &trim_str(ignore[k].as_str()));
            assert(string_views(ignore@)[k as int] == ignore@[k as int]@);
            return Some(out);
        },
        None => {},
    }
    let unc = uncapturable_table();
    match find_rule(&n, &unc) {
        Some(k) => {
            let mut out = String::new();
            push_chars(&mut out, &unc[k]);
            push_str(&mut out, " 动画重、整页极长，截出来不能用");
            return Some(out);
        },
        None => {},
    }
    if block_walled {
        let walled = walled_table();
        match find_rule(&n, &walled) {
            Some(k) => {
                let mut out = String::new();
                push_chars(&mut out, &walled[k]);
                push_str(&mut out, " 截出来是登录墙或验证页，没有内容");
                return Some(out);
            },
            None => {},
        }
    }
    None
}

fn internal_message(url: &UrlParts) -> (m: String)
    ensures
        m@ == internal_refusal(url@),
{
    let mut out = url.text.clone();
    push_str(&mut out, " 指向内网/本机地址");
    out
}

/// Screens a link before it is captured: it must parse, and then pass
/// `screen_parts`. A domain that passes is resolved by the caller and judged
/// by `after_lookup`.
pub fn check_url(raw: &str, ignore: &Vec<String>, allow_private: bool, block_walled: bool) -> (s:
    Screen)
    ensures
        screen_view(s) == screen_spec(raw@, string_views(ignore@), allow_private, block_walled),
{
    match parse_url(raw) {
        Some(url) => screen_parts(url, ignore, allow_private, block_walled),
        None => Screen::Refused(owned("无法解析的链接")),
    }
}

/// Screens a parsed link: it must be `http(s)`, have a host, not be a video
/// the video plugin takes, pass the ignore list, the uncapturable sites and
/// (when switched on) the walled ones, and — unless private hosts are
/// allowed — not point inside.
pub fn screen_parts(url: UrlParts, ignore: &Vec<String>, allow_private: bool, block_walled: bool) -> (s:
    Screen)
    ensures
        screen_view(s) == screen_parsed(url@, string_views(ignore@), allow_private, block_walled),
{
    let scheme = chars_of(url.scheme.as_str());
    if !(same_chars(&scheme, &chars_of("http")) || same_chars(&scheme, &chars_of("https"))) {
        let mut out = owned("不支持的协议 ");
        push_str(&mut out, url.scheme.as_str());
        return Screen::Refused(out);
    }
    let host = match &url.host {
        Some(h) => h,
        None => {
            return Screen::Refused(owned("链接缺少主机名"));
        },
    };
    assert(url@.host == Some(crate::link::host_view(*host)));
    if is_video_url(&url) {
        return Screen::Refused(owned("视频站链接由视频解析插件接"));
    }
    match host {
        HostPart::Domain(name) => match list_reason(name.as_str(), ignore, block_walled) {
            Some(reason) => {
                return Screen::Refused(reason);
            },
            None => {},
        },
        _ => {},
    }
    if allow_private {
        return Screen::Allowed(url);
    }
    match host {
        HostPart::Domain(name) => {
            if name_is_internal(name.as_str()) {
                Screen::Refused(internal_message(&url))
            } else {
                Screen::Lookup(url)
            }
        },
        _ => {
            if address_is_internal(host) {
                Screen::Refused(internal_message(&url))
            } else {
                Screen::Allowed(url)
            }
        },
    }
}

/// Judges a domain once resolved: refused when any address it resolves to
/// points inside. A name that did not resolve passes, and the browser fails
/// on its own.
pub fn after_lookup(url: UrlParts, addresses: &Vec<HostPart>) -> (r: Result<UrlParts, String>)
    ensures
        match r {
            Ok(u) => u@ == url@ && forall|i: int|
                0 <= i < addresses@.len() ==> !address_internal(
                    crate::link::host_view(#[trigger] addresses@[i]),
                ),
            Err(m) => m@ == internal_refusal(url@) && exists|i: int|
                0 <= i < addresses@.len() && address_internal(
                    crate::link::host_view(#[trigger] addresses@[i]),
                ),
        },
{
    let mut i: usize = 0;
    while i < addresses.len()
        invariant
            i <= addresses@.len(),
            forall|j: int|
                0 <= j < i ==> !address_internal(crate::link::host_view(#[trigger] addresses@[j])),
        decreases addresses@.len() - i,
    {
        if address_is_internal(&addresses[i]) {
            return Err(internal_message(&url));
        }
        i += 1;
    }
    Ok(url)
}

} // verus!
