//! Links as the plugins read them: the parts of a URL that decide where it
//! goes. Parsing and normalising is the `url` crate's work; this module
//! holds what it hands back as plain values.

use vstd::prelude::*;
use url::{Host, Url};

verus! {

/// The host of a URL: a domain name as normalised by the parser, or an IP
/// literal by its octets or segments.
#[derive(Debug, Clone)]
pub enum HostPart {
    Domain(String),
    V4([u8; 4]),
    V6([u16; 8]),
}

/// The parts of a parsed URL the plugins look at.
#[derive(Debug, Clone)]
pub struct UrlParts {
    pub scheme: String,
    pub host: Option<HostPart>,
    /// The path split at `/`, percent-encoded as in the URL; `None` for a
    /// URL that cannot be a base.
    pub segments: Option<Vec<String>>,
    /// The query as decoded name/value pairs, in order.
    pub query: Vec<(String, String)>,
    /// The URL as the parser serialises it.
    pub text: String,
}

pub enum HostView {
    Domain(Seq<char>),
    V4([u8; 4]),
    V6([u16; 8]),
}

pub struct UrlView {
    pub scheme: Seq<char>,
    pub host: Option<HostView>,
    pub segments: Option<Seq<Seq<char>>>,
    pub query: Seq<(Seq<char>, Seq<char>)>,
    pub text: Seq<char>,
}

pub open spec fn host_view(h: HostPart) -> HostView {
    match h {
        HostPart::Domain(name) => HostView::Domain(name@),
        HostPart::V4(octets) => HostView::V4(octets),
        HostPart::V6(segments) => HostView::V6(segments),
    }
}

impl View for UrlParts {
    type V = UrlView;

    open spec fn view(&self) -> UrlView {
        UrlView {
            scheme: self.scheme@,
            host: match self.host {
                Some(h) => Some(host_view(h)),
                None => None,
            },
            segments: match self.segments {
                Some(v) => Some(v@.map_values(|s: String| s@)),
                None => None,
            },
            query: self.query@.map_values(|p: (String, String)| (p.0@, p.1@)),
            text: self.text@,
        }
    }
}

/// What `url::Url::parse` makes of a text, by the parts above; `None` where
/// it refuses the text.
pub uninterp spec fn url_parse(raw: Seq<char>) -> Option<UrlView>;

/// Parses a link with `url::Url::parse` and hands its parts back as plain
/// values. The contract claims only that the parts are what the crate's
/// parser gives for this text (named `url_parse`), nothing about how it
/// normalises.
#[verifier::external_body]
pub(crate) fn parse_url(raw: &str) -> (parts: Option<UrlParts>)
    ensures
        match parts {
            Some(p) => url_parse(raw@) == Some(p@),
            None => url_parse(raw@) is None,
        },
{
    let url = Url::parse(raw).ok()?;
    let host = match url.host() {
        Some(Host::Domain(name)) => Some(HostPart::Domain(name.into())),
        Some(Host::Ipv4(ip)) => Some(HostPart::V4(ip.octets())),
        Some(Host::Ipv6(ip)) => Some(HostPart::V6(ip.segments())),
        None => None,
    };
    let segments = url.path_segments().map(|parts| parts.map(String::from).collect());
    let query = url.query_pairs().map(|(k, v)| (k.into(), v.into())).collect();
    Some(UrlParts { scheme: url.scheme().to_string(), host, segments, query, text: url.to_string() })
}

} // verus!
