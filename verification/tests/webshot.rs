use acumen::link::{HostPart, UrlParts};
use acumen::webshot::{
    address_is_internal, after_lookup, capture_width, check_url, domain_matches, is_verification_page, screen_parts,
    is_wechat_article, name_is_internal, v4_is_internal, v6_is_internal, Screen, WECHAT_REHYDRATE_JS,
    WECHAT_UA, WECHAT_VIEWPORT_WIDTH,
};

fn url(raw: &str) -> UrlParts {
    let parsed = url::Url::parse(raw).unwrap();
    let host = match parsed.host() {
        Some(url::Host::Domain(name)) => Some(HostPart::Domain(name.to_string())),
        Some(url::Host::Ipv4(ip)) => Some(HostPart::V4(ip.octets())),
        Some(url::Host::Ipv6(ip)) => Some(HostPart::V6(ip.segments())),
        None => None,
    };
    UrlParts {
        scheme: parsed.scheme().to_string(),
        host,
        segments: parsed.path_segments().map(|parts| parts.map(String::from).collect()),
        query: parsed
            .query_pairs()
            .map(|(k, v)| (k.into_owned(), v.into_owned()))
            .collect(),
        text: parsed.to_string(),
    }
}

#[test]
fn domain_rules_match_on_suffix_not_substring() {
    assert!(domain_matches("evil.com", "evil.com"));
    assert!(domain_matches("a.evil.com", "evil.com"));
    assert!(domain_matches("a.evil.com", ".evil.com"));
    assert!(domain_matches("evil.com", " Evil.COM "));
    assert!(!domain_matches("evil.com.attacker.net", "evil.com"));
    assert!(!domain_matches("notevil.com", "evil.com"));
    assert!(!domain_matches("example.com", ""));
}

#[test]
fn internal_ip_ranges_are_recognised() {
    for blocked in [
        [127, 0, 0, 1],
        [127, 1, 2, 3],
        [10, 0, 0, 1],
        [172, 16, 5, 5],
        [172, 31, 255, 255],
        [192, 168, 1, 1],
        [169, 254, 169, 254],
        [0, 0, 0, 0],
        [255, 255, 255, 255],
        [224, 0, 0, 1],
    ] {
        assert!(v4_is_internal(blocked), "{blocked:?} 应判为内网");
    }
    for blocked in [
        [0, 0, 0, 0, 0, 0, 0, 1],
        [0xfc00, 0, 0, 0, 0, 0, 0, 1],
        [0xfe80, 0, 0, 0, 0, 0, 0, 1],
        [0, 0, 0, 0, 0, 0xffff, 0x7f00, 0x0001],
    ] {
        assert!(v6_is_internal(blocked), "{blocked:?} 应判为内网");
    }
    for allowed in [[8, 8, 8, 8], [1, 1, 1, 1], [172, 32, 0, 1]] {
        assert!(!v4_is_internal(allowed), "{allowed:?} 不应判为内网");
    }
    assert!(!v6_is_internal([0x2001, 0x4860, 0x4860, 0, 0, 0, 0, 0x8888]));
    assert!(name_is_internal("LOCALHOST."));
    assert!(name_is_internal("printer.lan"));
    assert!(!name_is_internal("example.com"));
}

#[test]
fn private_and_non_http_links_are_rejected() {
    let none: Vec<String> = Vec::new();
    for raw in [
        "http://127.0.0.1:6520/panel",
        "http://localhost:3001/v1/proxy/https://x",
        "http://[::1]/",
        "http://192.168.1.1/",
        "http://169.254.169.254/latest/meta-data/",
        "http://0x7f000001/",
        "http://2130706433/",
        "http://127.0.0.1./",
        "file:///etc/passwd",
    ] {
        assert!(matches!(check_url(raw, &none, false, true), Screen::Refused(_)), "{raw} 不应放行");
    }
    assert!(matches!(check_url("https://example.com/a?b=1", &none, false, true), Screen::Lookup(_)));
    match check_url("http://192.168.1.1/", &none, false, true) {
        Screen::Refused(reason) => assert_eq!(reason, "http://192.168.1.1/ 指向内网/本机地址"),
        _ => panic!("内网地址要拦"),
    }
}

#[test]
fn ignore_list_and_opt_in_are_respected() {
    let ignore = vec!["evil.com".to_string()];
    match check_url("https://a.evil.com/x", &ignore, false, true) {
        Screen::Refused(reason) => assert_eq!(reason, "域名 a.evil.com 命中忽略名单 evil.com"),
        _ => panic!("忽略名单要生效"),
    }
    assert!(matches!(check_url("http://192.168.1.1/", &ignore, true, true), Screen::Allowed(_)));
    assert!(matches!(check_url("http://evil.com/", &ignore, true, true), Screen::Refused(_)));
}

#[test]
fn walled_sites_are_skipped() {
    let none: Vec<String> = Vec::new();
    for raw in [
        "https://v.douyin.com/c9EJkQ5hNz0/",
        "https://www.xiaohongshu.com/explore/abc",
        "https://x.com/a/status/1",
        "https://qr.1688.com/s/7HOhG7uS",
    ] {
        assert!(matches!(check_url(raw, &none, false, true), Screen::Refused(_)), "{raw} 不应放行");
    }
    for raw in [
        "https://www.bilibili.com/bangumi/play/ep307580",
        "https://mp.weixin.qq.com/s/abc",
        "https://www.1688.com/",
    ] {
        assert!(matches!(check_url(raw, &none, false, true), Screen::Lookup(_)), "{raw} 不应被拦");
    }
    assert!(matches!(
        check_url("https://v.douyin.com/c9EJkQ5hNz0/", &none, false, false),
        Screen::Lookup(_)
    ));
    assert!(matches!(check_url("https://dontboardme.com/", &none, false, false), Screen::Refused(_)));
    assert!(matches!(
        check_url("https://www.bilibili.com/video/BV1GJ411x7h7", &none, false, true),
        Screen::Refused(_)
    ));
}

#[test]
fn a_domain_that_resolves_inside_is_refused() {
    let page = url("https://rebind.example/");
    assert!(after_lookup(page.clone(), &vec![HostPart::V4([93, 184, 216, 34])]).is_ok());
    assert_eq!(
        after_lookup(page, &vec![HostPart::V4([8, 8, 8, 8]), HostPart::V4([127, 0, 0, 1])]).unwrap_err(),
        "https://rebind.example/ 指向内网/本机地址"
    );
    assert!(address_is_internal(&HostPart::V6([0, 0, 0, 0, 0, 0, 0, 0])));
}

#[test]
fn wechat_articles_get_the_mobile_ua_and_width() {
    let viewport_width = 1280;
    assert!(is_wechat_article(&url("https://mp.weixin.qq.com/s/qp_Hqw5RsoKtaXe-l3XUrA")));
    assert!(is_wechat_article(&url("https://MP.Weixin.QQ.com/s/abc")));
    assert!(is_wechat_article(&url("https://mp.weixin.qq.com./s/abc")));
    assert_eq!(
        capture_width(&url("https://mp.weixin.qq.com/s/abc"), viewport_width),
        WECHAT_VIEWPORT_WIDTH
    );
    for raw in [
        "https://weixin.qq.com/r/abc",
        "https://mp.weixin.qq.com.attacker.net/s/abc",
        "https://www.example.com/s/abc",
    ] {
        assert!(!is_wechat_article(&url(raw)), "{raw} 不该走微信那条路");
        assert_eq!(capture_width(&url(raw), viewport_width), viewport_width);
    }
    assert!(WECHAT_UA.contains("MicroMessenger"));
}

#[test]
fn verification_pages_are_not_screenshotted() {
    assert!(is_verification_page(
        "https://mp.weixin.qq.com/mp/wappoc_appmsgcaptcha?poc_token=abc&target_url=x"
    ));
    assert!(!is_verification_page(
        "https://mp.weixin.qq.com/s/qp_Hqw5RsoKtaXe-l3XUrA?nwr_flag=1#wechat_redirect"
    ));
    assert!(!is_verification_page("https://example.com/"));
}

#[test]
fn the_wechat_fix_covers_both_placeholder_shapes() {
    assert!(WECHAT_REHYDRATE_JS.contains("data-src"));
    assert!(WECHAT_REHYDRATE_JS.contains("data-lazy-bgimg"));
}

#[test]
fn parsed_links_are_screened_by_their_parts() {
    let none: Vec<String> = vec![];
    let hand = UrlParts {
        scheme: "ftp".to_string(),
        host: Some(HostPart::Domain("example.com".to_string())),
        segments: Some(vec![String::new()]),
        query: vec![],
        text: "ftp://example.com/".to_string(),
    };
    match screen_parts(hand, &none, false, true) {
        Screen::Refused(reason) => assert_eq!(reason, "不支持的协议 ftp"),
        _ => panic!("ftp 不应放行"),
    }
    match screen_parts(url("http://10.0.0.8/a"), &none, false, true) {
        Screen::Refused(reason) => assert_eq!(reason, "http://10.0.0.8/a 指向内网/本机地址"),
        _ => panic!("内网地址不应放行"),
    }
    assert!(matches!(screen_parts(url("http://10.0.0.8/a"), &none, true, true), Screen::Allowed(_)));
    assert!(matches!(screen_parts(url("https://example.com/"), &none, false, true), Screen::Lookup(_)));
    match screen_parts(url("https://www.bilibili.com/video/BV1GJ411x7h7"), &none, false, true) {
        Screen::Refused(reason) => assert_eq!(reason, "视频站链接由视频解析插件接"),
        _ => panic!("视频链接归视频插件"),
    }
}
