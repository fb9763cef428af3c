//! A persona: the model reads the material and returns a portrait; when the
//! model is not there, labels and the language fingerprint come straight from
//! the statistics.
//!
//! This layer holds three things: the output is one JSON object, quotes must
//! be the person's own words, and labels keep their layers apart. Dimensions
//! are four, layers are three, and a dimension nobody can recognise is not
//! printed.

use vstd::prelude::*;
use crate::models::{Enneagram, Mbti, axis_range, sanitized_reading};
use crate::text::{
    all_ws, char_in, char_lowercase, chars_of, contains, contains_any,
    contains_any_chars, contains_chars, decimal, is_ascii_punct, is_ascii_punctuation, is_blank,
    is_whitespace, is_ws, lower_seq, lowered, owned, push_chars, same_chars, string_of, take_chars,
    trim, trim_end, trim_end_in_place, trim_start, trim_str, u64_digits, unicode_lower, views,
};

verus! {

pub open spec fn dimension_keys_0() -> Seq<Seq<char>> {
    seq![
        seq!['活', '跃'],
        seq!['作', '息'],
        seq!['出', '现'],
        seq!['a', 'c', 't', 'i', 'v', 'i', 't', 'y'],
        seq!['a', 'c', 't', 'i', 'v', 'e'],
        seq!['s', 'c', 'h', 'e', 'd', 'u', 'l', 'e'],
    ]
}

fn dimension_table_0() -> (keys: Vec<Vec<char>>)
    ensures
        views(keys@) == dimension_keys_0(),
{
    let keys = vec![
        vec!['活', '跃'],
        vec!['作', '息'],
        vec!['出', '现'],
        vec!['a', 'c', 't', 'i', 'v', 'i', 't', 'y'],
        vec!['a', 'c', 't', 'i', 'v', 'e'],
        vec!['s', 'c', 'h', 'e', 'd', 'u', 'l', 'e'],
    ];
    assert(views(keys@) =~= dimension_keys_0());
    keys
}

pub open spec fn dimension_keys_1() -> Seq<Seq<char>> {
    seq![
        seq!['内', '容'],
        seq!['话', '题'],
        seq!['兴', '趣'],
        seq!['聊', '什', '么'],
        seq!['c', 'o', 'n', 't', 'e', 'n', 't'],
        seq!['t', 'o', 'p', 'i', 'c'],
    ]
}

fn dimension_table_1() -> (keys: Vec<Vec<char>>)
    ensures
        views(keys@) == dimension_keys_1(),
{
    let keys = vec![
        vec!['内', '容'],
        vec!['话', '题'],
        vec!['兴', '趣'],
        vec!['聊', '什', '么'],
        vec!['c', 'o', 'n', 't', 'e', 'n', 't'],
        vec!['t', 'o', 'p', 'i', 'c'],
    ];
    assert(views(keys@) =~= dimension_keys_1());
    keys
}

pub open spec fn dimension_keys_2() -> Seq<Seq<char>> {
    seq![
        seq!['交', '互'],
        seq!['互', '动'],
        seq!['社', '交'],
        seq!['关', '系'],
        seq!['接', '话'],
        seq!['i', 'n', 't', 'e', 'r', 'a', 'c', 't', 'i', 'o', 'n'],
        seq!['s', 'o', 'c', 'i', 'a', 'l'],
    ]
}

fn dimension_table_2() -> (keys: Vec<Vec<char>>)
    ensures
        views(keys@) == dimension_keys_2(),
{
    let keys = vec![
        vec!['交', '互'],
        vec!['互', '动'],
        vec!['社', '交'],
        vec!['关', '系'],
        vec!['接', '话'],
        vec!['i', 'n', 't', 'e', 'r', 'a', 'c', 't', 'i', 'o', 'n'],
        vec!['s', 'o', 'c', 'i', 'a', 'l'],
    ];
    assert(views(keys@) =~= dimension_keys_2());
    keys
}

pub open spec fn dimension_keys_3() -> Seq<Seq<char>> {
    seq![
        seq!['表', '达'],
        seq!['风', '格'],
        seq!['语', '言'],
        seq!['文', '风'],
        seq!['媒', '介'],
        seq!['e', 'x', 'p', 'r', 'e', 's', 's', 'i', 'o', 'n'],
        seq!['s', 't', 'y', 'l', 'e'],
    ]
}

fn dimension_table_3() -> (keys: Vec<Vec<char>>)
    ensures
        views(keys@) == dimension_keys_3(),
{
    let keys = vec![
        vec!['表', '达'],
        vec!['风', '格'],
        vec!['语', '言'],
        vec!['文', '风'],
        vec!['媒', '介'],
        vec!['e', 'x', 'p', 'r', 'e', 's', 's', 'i', 'o', 'n'],
        vec!['s', 't', 'y', 'l', 'e'],
    ];
    assert(views(keys@) =~= dimension_keys_3());
    keys
}

pub open spec fn layer_keys_0() -> Seq<Seq<char>> {
    seq![
        seq!['事', '实'],
        seq!['观', '测'],
        seq!['f', 'a', 'c', 't'],
        seq!['o', 'b', 's', 'e', 'r', 'v'],
    ]
}

fn layer_table_0() -> (keys: Vec<Vec<char>>)
    ensures
        views(keys@) == layer_keys_0(),
{
    let keys = vec![
        vec!['事', '实'],
        vec!['观', '测'],
        vec!['f', 'a', 'c', 't'],
        vec!['o', 'b', 's', 'e', 'r', 'v'],
    ];
    assert(views(keys@) =~= layer_keys_0());
    keys
}

pub open spec fn layer_keys_1() -> Seq<Seq<char>> {
    seq![
        seq!['统', '计'],
        seq!['阈', '值'],
        seq!['归', '纳'],
        seq!['d', 'e', 'r', 'i', 'v', 'e', 'd'],
        seq!['s', 't', 'a', 't', 'i', 's'],
    ]
}

fn layer_table_1() -> (keys: Vec<Vec<char>>)
    ensures
        views(keys@) == layer_keys_1(),
{
    let keys = vec![
        vec!['统', '计'],
        vec!['阈', '值'],
        vec!['归', '纳'],
        vec!['d', 'e', 'r', 'i', 'v', 'e', 'd'],
        vec!['s', 't', 'a', 't', 'i', 's'],
    ];
    assert(views(keys@) =~= layer_keys_1());
    keys
}

pub open spec fn quote_words() -> Seq<Seq<char>> {
    seq![
        seq!['q', 'u', 'o', 't', 'e'],
        seq!['引', '语'],
        seq!['引', '文'],
        seq!['他', '的', '话'],
    ]
}

fn quote_table() -> (keys: Vec<Vec<char>>)
    ensures
        views(keys@) == quote_words(),
{
    let keys = vec![
        vec!['q', 'u', 'o', 't', 'e'],
        vec!['引', '语'],
        vec!['引', '文'],
        vec!['他', '的', '话'],
    ];
    assert(views(keys@) =~= quote_words());
    keys
}

/// Full-width and CJK punctuation that fingerprints drop besides ASCII punctuation.
pub open spec fn extra_punctuation() -> Seq<char> {
    seq!['，', '。', '！', '？', '；', '：', '、', '“', '”', '‘', '’', '（', '）', '《', '》', '〈', '〉', '【', '】', '〔', '〕', '…', '—', '～', '·', '「', '」', '『', '』', '／', '＼', '｜', '＋', '－', '×', '÷', '＝', '＜', '＞']
}

fn extra_table() -> (chars: Vec<char>)
    ensures
        chars@ == extra_punctuation(),
{
    let chars = vec!['，', '。', '！', '？', '；', '：', '、', '“', '”', '‘', '’', '（', '）', '《', '》', '〈', '〉', '【', '】', '〔', '〕', '…', '—', '～', '·', '「', '」', '『', '』', '／', '＼', '｜', '＋', '－', '×', '÷', '＝', '＜', '＞'];
    assert(chars@ =~= extra_punctuation());
    chars
}

// ==================== accent ====================

/// The report's main colour. The palette is fixed; the model may only pick
/// from it.
#[derive(Debug, Clone, Copy, PartialEq, Eq, Structural)]
pub enum Accent {
    Amber,
    Rose,
    Mint,
    Indigo,
    Violet,
    Teal,
}

/// The palette in order.
pub open spec fn accent_at(index: int) -> Accent {
    if index == 0 {
        Accent::Amber
    } else if index == 1 {
        Accent::Rose
    } else if index == 2 {
        Accent::Mint
    } else if index == 3 {
        Accent::Indigo
    } else if index == 4 {
        Accent::Violet
    } else {
        Accent::Teal
    }
}

pub open spec fn accent_name(accent: Accent) -> Seq<char> {
    match accent {
        Accent::Amber => seq!['a', 'm', 'b', 'e', 'r'],
        Accent::Rose => seq!['r', 'o', 's', 'e'],
        Accent::Mint => seq!['m', 'i', 'n', 't'],
        Accent::Indigo => seq!['i', 'n', 'd', 'i', 'g', 'o'],
        Accent::Violet => seq!['v', 'i', 'o', 'l', 'e', 't'],
        Accent::Teal => seq!['t', 'e', 'a', 'l'],
    }
}

/// The palette entry a normalised name picks, if any.
pub open spec fn accent_named(name: Seq<char>) -> Option<Accent> {
    if name == accent_name(Accent::Amber) {
        Some(Accent::Amber)
    } else if name == accent_name(Accent::Rose) {
        Some(Accent::Rose)
    } else if name == accent_name(Accent::Mint) {
        Some(Accent::Mint)
    } else if name == accent_name(Accent::Indigo) {
        Some(Accent::Indigo)
    } else if name == accent_name(Accent::Violet) {
        Some(Accent::Violet)
    } else if name == accent_name(Accent::Teal) {
        Some(Accent::Teal)
    } else {
        None
    }
}

/// Every palette entry is picked by its own name, and a name that was
/// already trimmed and lowercased picks what it picked before.
pub proof fn lemma_accent_names(a: Accent, s: Seq<char>)
    ensures
        accent_named(lower_seq(trim(accent_name(a)))) == Some(a),
        accent_named(lower_seq(trim(lower_seq(trim(s))))) == accent_named(lower_seq(trim(s))),
{
    let n = accent_name(a);
    assert(!is_ws(n[0]));
    assert(!is_ws(n.last()));
    assert(trim_start(n) == n);
    assert(trim_end(n) == n);
    assert(lower_seq(n) =~= n);
    crate::text::lemma_trim_lower_settles(s);
}

/// The magnitude of a seed, as `i64::unsigned_abs` gives it.
pub open spec fn magnitude(seed: i64) -> u64 {
    if seed < 0 {
        (-(seed as int)) as u64
    } else {
        seed as u64
    }
}

impl Accent {
    pub fn name(self) -> (name: &'static str)
        ensures
            name@ == accent_name(self),
    {
        match self {
            Accent::Amber => {
                proof {
                    reveal_strlit("amber");
                }
                assert("amber"@ =~= accent_name(self));
                "amber"
            },
            Accent::Rose => {
                proof {
                    reveal_strlit("rose");
                }
                assert("rose"@ =~= accent_name(self));
                "rose"
            },
            Accent::Mint => {
                proof {
                    reveal_strlit("mint");
                }
                assert("mint"@ =~= accent_name(self));
                "mint"
            },
            Accent::Indigo => {
                proof {
                    reveal_strlit("indigo");
                }
                assert("indigo"@ =~= accent_name(self));
                "indigo"
            },
            Accent::Violet => {
                proof {
                    reveal_strlit("violet");
                }
                assert("violet"@ =~= accent_name(self));
                "violet"
            },
            Accent::Teal => {
                proof {
                    reveal_strlit("teal");
                }
                assert("teal"@ =~= accent_name(self));
                "teal"
            },
        }
    }

    /// The palette entry named by `name`, ignoring surrounding white space and
    /// ASCII case.
    pub fn from_name(name: &str) -> (accent: Option<Self>)
        ensures
            accent == accent_named(lower_seq(trim(name@))),
    {
        let wanted = lowered(&trim_str(name));
        if same_chars(&wanted, &chars_of(Accent::Amber.name())) {
            return Some(Accent::Amber);
        }
        if same_chars(&wanted, &chars_of(Accent::Rose.name())) {
            return Some(Accent::Rose);
        }
        if same_chars(&wanted, &chars_of(Accent::Mint.name())) {
            return Some(Accent::Mint);
        }
        if same_chars(&wanted, &chars_of(Accent::Indigo.name())) {
            return Some(Accent::Indigo);
        }
        if same_chars(&wanted, &chars_of(Accent::Violet.name())) {
            return Some(Accent::Violet);
        }
        if same_chars(&wanted, &chars_of(Accent::Teal.name())) {
            return Some(Accent::Teal);
        }
        None
    }

    /// The fallback colour: the same user always gets the same colour, and
    /// different users spread over the palette.
    pub fn pick(seed: i64) -> (accent: Self)
        ensures
            accent == accent_at(((magnitude(seed) as usize) % 6) as int),
    {
        let size: u64 = if seed < 0 {
            if seed == i64::MIN {
                9223372036854775808u64
            } else {
                (-seed) as u64
            }
        } else {
            seed as u64
        };
        let index = (size as usize) % 6;
        if index == 0 {
            Accent::Amber
        } else if index == 1 {
            Accent::Rose
        } else if index == 2 {
            Accent::Mint
        } else if index == 3 {
            Accent::Indigo
        } else if index == 4 {
            Accent::Violet
        } else {
            Accent::Teal
        }
    }

    /// The CSS class of the colour: `seed-` and its name.
    pub fn seed_class(self) -> (class: &'static str)
        ensures
            class@ == seq!['s', 'e', 'e', 'd', '-'] + accent_name(self),
    {
        if self == Accent::Amber {
            proof {
                reveal_strlit("seed-amber");
            }
            assert("seed-amber"@ =~= seq!['s', 'e', 'e', 'd', '-'] + accent_name(self));
            return "seed-amber";
        }
        if self == Accent::Rose {
            proof {
                reveal_strlit("seed-rose");
            }
            assert("seed-rose"@ =~= seq!['s', 'e', 'e', 'd', '-'] + accent_name(self));
            return "seed-rose";
        }
        if self == Accent::Mint {
            proof {
                reveal_strlit("seed-mint");
            }
            assert("seed-mint"@ =~= seq!['s', 'e', 'e', 'd', '-'] + accent_name(self));
            return "seed-mint";
        }
        if self == Accent::Indigo {
            proof {
                reveal_strlit("seed-indigo");
            }
            assert("seed-indigo"@ =~= seq!['s', 'e', 'e', 'd', '-'] + accent_name(self));
            return "seed-indigo";
        }
        if self == Accent::Violet {
            proof {
                reveal_strlit("seed-violet");
            }
            assert("seed-violet"@ =~= seq!['s', 'e', 'e', 'd', '-'] + accent_name(self));
            return "seed-violet";
        }
        proof {
            reveal_strlit("seed-teal");
        }
        assert("seed-teal"@ =~= seq!['s', 'e', 'e', 'd', '-'] + accent_name(self));
        "seed-teal"
    }
}

// ==================== dimensions and layers ====================

/// The canonical dimension a label's dimension name falls under: the first
/// table entry with a key word inside the trimmed, ASCII-lowercased name.
pub open spec fn dimension_spec(name: Seq<char>) -> Option<&'static str> {
    let n = lower_seq(trim(name));
    if contains_any(n, dimension_keys_0()) {
        Some("活跃")
    } else if contains_any(n, dimension_keys_1()) {
        Some("内容")
    } else if contains_any(n, dimension_keys_2()) {
        Some("交互")
    } else if contains_any(n, dimension_keys_3()) {
        Some("表达")
    } else {
        None
    }
}

/// The canonical layer; anything not recognised counts as an inference.
pub open spec fn layer_spec(name: Seq<char>) -> &'static str {
    let n = lower_seq(trim(name));
    if contains_any(n, layer_keys_0()) {
        "事实"
    } else if contains_any(n, layer_keys_1()) {
        "统计"
    } else {
        "推断"
    }
}

/// Recognises a dimension name. Models write 「活跃度」「内容偏好」 and the
/// like; containing a key word is enough.
fn dimension_of(name: &str) -> (dimension: Option<&'static str>)
    ensures
        dimension == dimension_spec(name@),
{
    let n = lowered(&trim_str(name));
    if contains_any_chars(&n, &dimension_table_0()) {
        Some("活跃")
    } else if contains_any_chars(&n, &dimension_table_1()) {
        Some("内容")
    } else if contains_any_chars(&n, &dimension_table_2()) {
        Some("交互")
    } else if contains_any_chars(&n, &dimension_table_3()) {
        Some("表达")
    } else {
        None
    }
}

/// Recognises a layer. What is not marked as observed or derived is read as
/// an inference.
fn layer_of(name: &str) -> (layer: &'static str)
    ensures
        layer == layer_spec(name@),
{
    let n = lowered(&trim_str(name));
    if contains_any_chars(&n, &layer_table_0()) {
        "事实"
    } else if contains_any_chars(&n, &layer_table_1()) {
        "统计"
    } else {
        "推断"
    }
}

/// One label. `dimension` and `layer` come from the model and are normalised
/// onto the whitelist when the persona is sanitised.
#[derive(Debug, Clone, Default)]
pub struct Tag {
    pub dimension: String,
    pub layer: String,
    pub label: String,
    pub evidence: String,
}

impl Tag {
    pub fn new(dimension: &str, layer: &str, label: String, evidence: String) -> (tag: Self)
        ensures
            tag.dimension@ == dimension@,
            tag.layer@ == layer@,
            tag.label == label,
            tag.evidence == evidence,
    {
        Self { dimension: owned(dimension), layer: owned(layer), label, evidence }
    }

    /// The normalised dimension; a label whose dimension is not recognised is
    /// dropped.
    pub fn dim(&self) -> (dimension: Option<&'static str>)
        ensures
            dimension == dimension_spec(self.dimension@),
    {
        dimension_of(self.dimension.as_str())
    }

    /// The normalised layer.
    pub fn tier(&self) -> (layer: &'static str)
        ensures
            layer == layer_spec(self.layer@),
    {
        layer_of(self.layer.as_str())
    }

    pub fn tier_class(&self) -> (class: &'static str)
        ensures
            class == tier_class_spec(layer_spec(self.layer@)@),
    {
        tier_class(self.tier())
    }
}

/// The style class of a layer, used by the legend and the badges.
pub open spec fn tier_class_spec(tier: Seq<char>) -> &'static str {
    if tier == seq!['事', '实'] {
        "observed"
    } else if tier == seq!['统', '计'] {
        "derived"
    } else {
        "inferred"
    }
}

pub fn tier_class(tier: &str) -> (class: &'static str)
    ensures
        class == tier_class_spec(tier@),
{
    let t = chars_of(tier);
    if same_chars(&t, &vec!['事', '实']) {
        "observed"
    } else if same_chars(&t, &vec!['统', '计']) {
        "derived"
    } else {
        "inferred"
    }
}

// ==================== passages ====================

/// One passage of the profile. `kind` says whether it is our words or theirs.
#[derive(Debug, Clone, Default)]
pub struct Passage {
    pub kind: String,
    pub body: String,
    pub text: String,
    pub note: String,
}

/// A passage kind reads as a quote when its trimmed, lowercased text holds
/// one of the quote words.
pub open spec fn is_quote_kind(kind: Seq<char>) -> bool {
    contains_any(lower_seq(trim(kind)), quote_words())
}

/// A passage stays on the page when its own text (the quote for a quote, the
/// body otherwise) is not blank.
pub open spec fn is_live(p: Passage) -> bool {
    if is_quote_kind(p.kind@) {
        !all_ws(p.text@)
    } else {
        !all_ws(p.body@)
    }
}

impl Passage {
    /// Whether the kind is recognised as a quote; anything else is prose.
    pub fn is_quote(&self) -> (b: bool)
        ensures
            b == is_quote_kind(self.kind@),
    {
        let kind = lowered(&trim_str(self.kind.as_str()));
        contains_any_chars(&kind, &quote_table())
    }
}

// ==================== the persona ====================

/// A persona ready for the card template.
#[derive(Debug, Clone, Default)]
pub struct Persona {
    /// A sketch in four to nine characters.
    pub title: String,
    /// One sentence, at most thirty characters.
    pub note: String,
    /// How this person talks: the model's reading, not a fact.
    pub style: String,
    /// The four MBTI axes; only when the model answered.
    pub mbti: Option<Mbti>,
    /// The Enneagram core; only when the model answered with a legal core.
    pub enneagram: Option<Enneagram>,
    /// Labels in four dimensions.
    pub tags: Vec<Tag>,
    /// Prose and quotes, in order.
    pub profile: Vec<Passage>,
    /// Hooks the group can argue about.
    pub discuss: Vec<String>,
    pub accent: String,
    /// Whether this persona was assembled from statistics alone.
    pub estimated: bool,
}

/// Whether a label's normalised dimension is the given one.
pub open spec fn tag_in(tag: Tag, dimension: Seq<char>) -> bool {
    dimension_spec(tag.dimension@) matches Some(d) && d@ == dimension
}

impl Persona {
    /// The main colour: the model's pick when it is in the palette, otherwise
    /// one fixed by the user number.
    pub fn accent(&self, seed: i64) -> (accent: Accent)
        ensures
            accent == match accent_named(lower_seq(trim(self.accent@))) {
                Some(a) => a,
                None => accent_at(((magnitude(seed) as usize) % 6) as int),
            },
    {
        match Accent::from_name(self.accent.as_str()) {
            Some(accent) => accent,
            None => Accent::pick(seed),
        }
    }

    /// Whether the projection layer stands: at least one of the two models
    /// answered.
    pub fn has_models(&self) -> (b: bool)
        ensures
            b == (self.mbti is Some || self.enneagram is Some),
    {
        self.mbti.is_some() || self.enneagram.is_some()
    }

    /// The labels under one dimension, in the model's order.
    pub fn tags_of(&self, dimension: &str) -> (out: Vec<&Tag>)
        ensures
            out@.map_values(|t: &Tag| *t) == self.tags@.filter(|t: Tag| tag_in(t, dimension@)),
    {
        let wanted = chars_of(dimension);
        let mut out: Vec<&Tag> = Vec::new();
        let mut i: usize = 0;
        while i < self.tags.len()
            invariant
                i <= self.tags@.len(),
                wanted@ == dimension@,
                out@.map_values(|t: &Tag| *t) == self.tags@.take(i as int).filter(|t: Tag| tag_in(t, dimension@)),
            decreases self.tags@.len() - i,
        {
            reveal_with_fuel(Seq::<_>::filter, 1);
            let tag = &self.tags[i];
            let keep = match tag.dim() {
                Some(d) => same_chars(&chars_of(d), &wanted),
                None => false,
            };
            if keep {
                out.push(tag);
            }
            assert(self.tags@.take(i + 1).drop_last() =~= self.tags@.take(i as int));
            i += 1;
        }
        assert(self.tags@.take(i as int) =~= self.tags@);
        out
    }

    /// The passages that actually say something; blank ones are hidden.
    pub fn live_passages(&self) -> (out: Vec<&Passage>)
        ensures
            out@.map_values(|p: &Passage| *p) == self.profile@.filter(|p: Passage| is_live(p)),
    {
        let mut out: Vec<&Passage> = Vec::new();
        let mut i: usize = 0;
        while i < self.profile.len()
            invariant
                i <= self.profile@.len(),
                out@.map_values(|p: &Passage| *p) == self.profile@.take(i as int).filter(|p: Passage| is_live(p)),
            decreases self.profile@.len() - i,
        {
            reveal_with_fuel(Seq::<_>::filter, 1);
            let passage = &self.profile[i];
            let live = if passage.is_quote() {
                !is_blank(passage.text.as_str())
            } else {
                !is_blank(passage.body.as_str())
            };
            if live {
                out.push(passage);
            }
            assert(self.profile@.take(i + 1).drop_last() =~= self.profile@.take(i as int));
            i += 1;
        }
        assert(self.profile@.take(i as int) =~= self.profile@);
        out
    }
}

// ==================== clipping and quotes ====================

/// A field cut to its limit: trimmed; when still too long, cut to `max`
/// characters, trailing white space dropped and an ellipsis added.
pub open spec fn clipped(value: Seq<char>, max: nat) -> Seq<char> {
    let t = trim(value);
    if t.len() <= max {
        t
    } else {
        trim_end(t.take(max as int)).push('…')
    }
}

/// Cuts a field to its limit and marks the cut with an ellipsis. No white
/// space is left before the ellipsis.
pub fn clip(value: &str, max: usize) -> (out: String)
    ensures
        out@ == clipped(value@, max as nat),
{
    let t = trim_str(value);
    if t.len() <= max {
        return string_of(&t);
    }
    let mut cut = take_chars(&t, max);
    trim_end_in_place(&mut cut);
    cut.push('…');
    string_of(&cut)
}

/// Whether pictures and stickers make up at least half of what someone
/// sent; nothing sent is no majority.
pub fn media_majority(visual: u64, total: u64) -> (b: bool)
    ensures
        b == (total > 0 && 2 * visual >= total),
{
    total > 0 && (visual >= total || visual >= total - visual)
}

/// Among the first `n` samples, the longest that is not blank (the last of
/// equals), by characters.
pub open spec fn longest_upto(samples: Seq<String>, n: int) -> Option<int>
    decreases n,
{
    if n <= 0 {
        None
    } else {
        let best = longest_upto(samples, n - 1);
        if !all_ws(samples[n - 1]@) && (best is None || samples[n - 1]@.len() >= samples[best->0]@.len()) {
            Some(n - 1)
        } else {
            best
        }
    }
}

proof fn lemma_longest_upto(samples: Seq<String>, n: int)
    requires
        0 <= n <= samples.len(),
    ensures
        match longest_upto(samples, n) {
            Some(k) => 0 <= k < n && !all_ws(samples[k]@) && forall|j: int|
                0 <= j < n && !all_ws(#[trigger] samples[j]@) ==> samples[j]@.len() <= samples[k]@.len(),
            None => forall|j: int| 0 <= j < n ==> all_ws(#[trigger] samples[j]@),
        },
    decreases n,
{
    if n > 0 {
        lemma_longest_upto(samples, n - 1);
    }
}

/// The quote a persona built from the statistics alone carries: the longest
/// sample that is not blank (the last of equals), clipped to 90 characters;
/// none when every sample is blank.
pub fn longest_quote(samples: &Vec<String>) -> (quote: Option<String>)
    ensures
        match longest_upto(samples@, samples@.len() as int) {
            Some(k) => quote matches Some(q) && q@ == clipped(samples@[k]@, 90),
            None => quote is None,
        },
        quote is Some <==> exists|j: int| 0 <= j < samples@.len() && !all_ws(#[trigger] samples@[j]@),
{
    let mut best: Option<usize> = None;
    let mut best_len: usize = 0;
    let mut i: usize = 0;
    while i < samples.len()
        invariant
            i <= samples@.len(),
            match longest_upto(samples@, i as int) {
                Some(k) => best == Some(k as usize) && best_len == samples@[k]@.len(),
                None => best is None,
            },
        decreases samples@.len() - i,
    {
        let text = samples[i].as_str();
        let n = chars_of(text).len();
        if !is_blank(text) && (best.is_none() || n >= best_len) {
            best = Some(i);
            best_len = n;
        }
        i += 1;
    }
    proof {
        lemma_longest_upto(samples@, samples@.len() as int);
        match longest_upto(samples@, samples@.len() as int) {
            Some(k) => {},
            None => {
                assert(!exists|j: int| 0 <= j < samples@.len() && !all_ws(#[trigger] samples@[j]@));
            },
        }
    }
    match best {
        Some(k) => Some(clip(samples[k].as_str(), 90)),
        None => None,
    }
}

/// The first index at or after `from` that holds `c`; the length when none.
pub open spec fn first_of(s: Seq<char>, c: char, from: int) -> int
    decreases s.len() - from,
{
    if from >= s.len() {
        s.len() as int
    } else if s[from] == c {
        from
    } else {
        first_of(s, c, from + 1)
    }
}

/// The last index below `n` that holds `c`; -1 when none.
pub open spec fn last_of(s: Seq<char>, c: char, n: int) -> int
    decreases n,
{
    if n <= 0 {
        -1
    } else if s[n - 1] == c {
        n - 1
    } else {
        last_of(s, c, n - 1)
    }
}

/// What is wrong with a reply that should have held a persona.
#[derive(Debug, Clone)]
pub enum ReplyError {
    /// No opening brace at all; the reply, clipped.
    NoJson(String),
    /// No closing brace after the first opening one; the reply, clipped.
    Incomplete(String),
    /// The block between the braces is not a persona; the reason.
    Unreadable(String),
}

impl ReplyError {
    /// The error as it is reported.
    pub fn message(&self) -> (text: String)
        ensures
            text@ == match self {
                ReplyError::NoJson(c) => "模型没有返回 JSON："@ + c@,
                ReplyError::Incomplete(c) => "模型返回的 JSON 不完整："@ + c@,
                ReplyError::Unreadable(c) => "模型返回的 JSON 解析失败："@ + c@,
            },
    {
        let (mut out, detail) = match self {
            ReplyError::NoJson(c) => (owned("模型没有返回 JSON："), c),
            ReplyError::Incomplete(c) => (owned("模型返回的 JSON 不完整："), c),
            ReplyError::Unreadable(c) => (owned("模型返回的 JSON 解析失败："), c),
        };
        crate::text::push_str(&mut out, detail.as_str());
        out
    }
}

/// The block a persona is read from: from the first opening brace to the
/// last closing one, whatever chatter or fences stand around it.
pub open spec fn reply_block(raw: Seq<char>) -> Result<Seq<char>, ReplyError> {
    let start = first_of(raw, '{', 0);
    let end = last_of(raw, '}', raw.len() as int);
    if start >= raw.len() {
        Err(ReplyError::NoJson(arbitrary()))
    } else if end <= start {
        Err(ReplyError::Incomplete(arbitrary()))
    } else {
        Ok(raw.subrange(start, end + 1))
    }
}

proof fn lemma_first_of(s: Seq<char>, c: char, from: int)
    requires
        0 <= from <= s.len(),
    ensures
        from <= first_of(s, c, from) <= s.len(),
        first_of(s, c, from) < s.len() ==> s[first_of(s, c, from)] == c,
        forall|k: int| from <= k < first_of(s, c, from) ==> #[trigger] s[k] != c,
    decreases s.len() - from,
{
    if from < s.len() && s[from] != c {
        lemma_first_of(s, c, from + 1);
    }
}

proof fn lemma_last_of(s: Seq<char>, c: char, n: int)
    requires
        0 <= n <= s.len(),
    ensures
        -1 <= last_of(s, c, n) < n,
        last_of(s, c, n) >= 0 ==> s[last_of(s, c, n)] == c,
        forall|k: int| last_of(s, c, n) < k < n ==> #[trigger] s[k] != c,
    decreases n,
{
    if n > 0 && s[n - 1] != c {
        lemma_last_of(s, c, n - 1);
    }
}

/// The block runs from the reply's first opening brace to its last closing
/// brace, so nested objects come out whole. It is there whenever some
/// closing brace follows an opening one; without any opening brace there is
/// no JSON, and with no closing brace after the first opening one the block
/// is incomplete.
pub proof fn lemma_reply_block_spans_the_braces(raw: Seq<char>)
    ensures
        reply_block(raw) matches Ok(b) ==> exists|start: int, end: int|
            #![trigger raw[start], raw[end]]
            0 <= start < end < raw.len() && b == raw.subrange(start, end + 1) && raw[start] == '{'
                && raw[end] == '}' && (forall|k: int| 0 <= k < start ==> #[trigger] raw[k] != '{') && (
            forall|k: int| end < k < raw.len() ==> #[trigger] raw[k] != '}'),
        (exists|i: int, j: int| 0 <= i < j < raw.len() && #[trigger] raw[i] == '{' && #[trigger] raw[j] == '}')
            ==> reply_block(raw) is Ok,
        (forall|k: int| 0 <= k < raw.len() ==> #[trigger] raw[k] != '{') ==> reply_block(raw) matches Err(
            ReplyError::NoJson(_),
        ),
        reply_block(raw) matches Err(ReplyError::Incomplete(_)) ==> exists|i: int|
            0 <= i < raw.len() && #[trigger] raw[i] == '{' && forall|j: int| i < j < raw.len() ==> #[trigger] raw[j] != '}',
{
    let start = first_of(raw, '{', 0);
    let end = last_of(raw, '}', raw.len() as int);
    lemma_first_of(raw, '{', 0);
    lemma_last_of(raw, '}', raw.len() as int);
    if start < raw.len() && end > start {
        assert(raw[start] == '{' && raw[end] == '}');
    }
    if exists|i: int, j: int| 0 <= i < j < raw.len() && #[trigger] raw[i] == '{' && #[trigger] raw[j] == '}' {
        let (i, j) = choose|i: int, j: int| 0 <= i < j < raw.len() && #[trigger] raw[i] == '{' && #[trigger] raw[j] == '}';
        assert(start <= i);
        assert(end >= j);
    }
    if start < raw.len() {
        assert(raw[start] == '{');
    }
}

/// Finds the block a persona is read from in a model's reply.
pub fn json_block(raw: &str) -> (r: Result<String, ReplyError>)
    ensures
        match (r, reply_block(raw@)) {
            (Ok(b), Ok(want)) => b@ == want,
            (Err(ReplyError::NoJson(c)), Err(ReplyError::NoJson(_))) => c@ == clipped(raw@, 120),
            (Err(ReplyError::Incomplete(c)), Err(ReplyError::Incomplete(_))) => c@ == clipped(raw@, 120),
            _ => false,
        },
{
    let s = chars_of(raw);
    let n = s.len();
    let mut start: usize = 0;
    while start < n && s[start] != '{'
        invariant
            start <= n == s@.len(),
            s@ == raw@,
            first_of(s@, '{', 0) == first_of(s@, '{', start as int),
        decreases n - start,
    {
        start += 1;
    }
    if start == n {
        return Err(ReplyError::NoJson(clip(raw, 120)));
    }
    let mut end: usize = n;
    while end > 0 && s[end - 1] != '}'
        invariant
            end <= n == s@.len(),
            s@ == raw@,
            last_of(s@, '}', n as int) == last_of(s@, '}', end as int),
        decreases end,
    {
        end -= 1;
    }
    if end == 0 || end - 1 <= start {
        return Err(ReplyError::Incomplete(clip(raw, 120)));
    }
    Ok(string_of(&crate::text::slice_chars(&s, start, end)))
}

/// Punctuation that fingerprints ignore.
pub open spec fn is_punct(c: char) -> bool {
    is_ascii_punct(c) || extra_punctuation().contains(c)
}

pub fn is_punctuation(ch: char) -> (b: bool)
    ensures
        b == is_punct(ch),
{
    is_ascii_punctuation(ch) || char_in(ch, &extra_table())
}

/// The fingerprint of a text for word-for-word comparison: white space and
/// punctuation dropped, case folded; every other character kept.
pub open spec fn finger(s: Seq<char>) -> Seq<char>
    decreases s.len(),
{
    if s.len() == 0 {
        seq![]
    } else {
        finger(s.drop_last()) + if !is_ws(s.last()) && !is_punct(s.last()) {
            unicode_lower(s.last())
        } else {
            seq![]
        }
    }
}

fn finger_chars(v: &Vec<char>) -> (out: Vec<char>)
    ensures
        out@ == finger(v@),
{
    let mut out: Vec<char> = Vec::new();
    let mut i: usize = 0;
    while i < v.len()
        invariant
            i <= v@.len(),
            out@ == finger(v@.take(i as int)),
        decreases v@.len() - i,
    {
        let c = v[i];
        assert(v@.take(i + 1).drop_last() =~= v@.take(i as int));
        if !is_whitespace(c) && !is_punctuation(c) {
            let low = char_lowercase(c);
            let mut k: usize = 0;
            let ghost base = out@;
            while k < low.len()
                invariant
                    k <= low@.len(),
                    out@ == base + low@.take(k as int),
                decreases low@.len() - k,
            {
                out.push(low[k]);
                k += 1;
                assert(out@ =~= base + low@.take(k as int));
            }
            assert(low@.take(k as int) =~= low@);
        } else {
            assert(out@ =~= out@ + Seq::<char>::empty());
        }
        i += 1;
    }
    assert(v@.take(i as int) =~= v@);
    out
}

/// The comparison fingerprint of a text.
pub fn fingerprint(value: &str) -> (out: String)
    ensures
        out@ == finger(value@),
{
    string_of(&finger_chars(&chars_of(value)))
}

/// A quote comes from the samples when its fingerprint has at least four
/// characters and sits inside the fingerprint of some sample.
pub open spec fn quoted_from(text: Seq<char>, samples: Seq<String>) -> bool {
    let f = finger(text);
    f.len() >= 4 && exists|i: int| 0 <= i < samples.len() && contains(finger(#[trigger] samples[i]@), f)
}

/// Whether a quote comes from the samples: normalised (punctuation and white
/// space dropped, case folded), it is a substring of some sample. Sanitising
/// a persona and the end-to-end checks share this one criterion.
pub fn quote_is_from_samples(text: &str, samples: &[String]) -> (b: bool)
    ensures
        b == quoted_from(text@, samples@),
{
    let wanted = finger_chars(&chars_of(text));
    if wanted.len() < 4 {
        return false;
    }
    let mut i: usize = 0;
    while i < samples.len()
        invariant
            i <= samples@.len(),
            wanted@ == finger(text@),
            finger(text@).len() >= 4,
            forall|j: int| 0 <= j < i ==> !contains(finger(#[trigger] samples@[j]@), wanted@),
        decreases samples@.len() - i,
    {
        let sample = finger_chars(&chars_of(samples[i].as_str()));
        if contains_chars(&sample, &wanted) {
            assert(contains(finger(samples@[i as int]@), finger(text@)));
            return true;
        }
        i += 1;
    }
    false
}

// ==================== labels ====================

/// An hour as people say it: 「23 点前后」 reads better than 「23:00」.
pub open spec fn hour_text(hour: int) -> Seq<char> {
    if hour == 0 {
        seq!['午', '夜']
    } else if 1 <= hour <= 4 {
        seq!['凌', '晨', ' '] + decimal(hour as nat) + seq![' ', '点']
    } else if 5 <= hour <= 7 {
        seq!['清', '晨', ' '] + decimal(hour as nat) + seq![' ', '点']
    } else if 8 <= hour <= 11 {
        seq!['上', '午', ' '] + decimal(hour as nat) + seq![' ', '点']
    } else if hour == 12 {
        seq!['中', '午']
    } else if 13 <= hour <= 17 {
        seq!['下', '午', ' '] + decimal(hour as nat) + seq![' ', '点']
    } else if 18 <= hour <= 22 {
        seq!['晚', '上', ' '] + decimal(hour as nat) + seq![' ', '点']
    } else {
        seq!['深', '夜', ' ', '2', '3', ' ', '点']
    }
}

fn part_of_day(a: char, b: char, hour: usize) -> (out: String)
    requires
        hour < 24,
    ensures
        out@ == seq![a, b, ' '] + decimal(hour as nat) + seq![' ', '点'],
{
    let mut out = String::new();
    out.push(a);
    out.push(b);
    out.push(' ');
    push_chars(&mut out, &u64_digits(hour as u64));
    out.push(' ');
    out.push('点');
    assert(out@ =~= seq![a, b, ' '] + decimal(hour as nat) + seq![' ', '点']);
    out
}

/// The label of an hour of the day (taken modulo 24).
pub fn hour_label(hour: usize) -> (out: String)
    ensures
        out@ == hour_text((hour % 24) as int),
{
    let hour = hour % 24;
    if hour == 0 {
        let mut out = String::new();
        out.push('午');
        out.push('夜');
        assert(out@ =~= hour_text(0));
        out
    } else if hour <= 4 {
        part_of_day('凌', '晨', hour)
    } else if hour <= 7 {
        part_of_day('清', '晨', hour)
    } else if hour <= 11 {
        part_of_day('上', '午', hour)
    } else if hour == 12 {
        let mut out = String::new();
        out.push('中');
        out.push('午');
        assert(out@ =~= hour_text(12));
        out
    } else if hour <= 17 {
        part_of_day('下', '午', hour)
    } else if hour <= 22 {
        part_of_day('晚', '上', hour)
    } else {
        let mut out = String::new();
        out.push('深');
        out.push('夜');
        out.push(' ');
        out.push('2');
        out.push('3');
        out.push(' ');
        out.push('点');
        assert(out@ =~= hour_text(23));
        out
    }
}

pub open spec fn weekday_name(weekday: int) -> &'static str {
    if weekday == 0 {
        "周日"
    } else if weekday == 1 {
        "周一"
    } else if weekday == 2 {
        "周二"
    } else if weekday == 3 {
        "周三"
    } else if weekday == 4 {
        "周四"
    } else if weekday == 5 {
        "周五"
    } else {
        "周六"
    }
}

/// The name of a day of the week, 0 being Sunday (taken modulo 7).
pub fn weekday_label(weekday: usize) -> (name: &'static str)
    ensures
        name == weekday_name((weekday % 7) as int),
{
    let day = weekday % 7;
    if day == 0 {
        "周日"
    } else if day == 1 {
        "周一"
    } else if day == 2 {
        "周二"
    } else if day == 3 {
        "周三"
    } else if day == 4 {
        "周四"
    } else if day == 5 {
        "周五"
    } else {
        "周六"
    }
}


// ==================== sanitising ====================

/// The four text fields a label or a passage keeps, by their character views.
pub type FieldViews = (Seq<char>, Seq<char>, Seq<char>, Seq<char>);

/// A label by its views: dimension, layer, label, evidence.
pub open spec fn tag_view(t: Tag) -> FieldViews {
    (t.dimension@, t.layer@, t.label@, t.evidence@)
}

pub open spec fn tag_views(tags: Seq<Tag>) -> Seq<FieldViews> {
    tags.map_values(|t: Tag| tag_view(t))
}

/// How many kept labels sit under dimension `d`.
pub open spec fn count_dim(kept: Seq<FieldViews>, d: Seq<char>) -> nat
    decreases kept.len(),
{
    if kept.len() == 0 {
        0
    } else {
        count_dim(kept.drop_last(), d) + if kept.last().0 == d {
            1nat
        } else {
            0nat
        }
    }
}

/// The labels that survive sanitising, in order: a label whose dimension is
/// not recognised, whose clipped label is empty, or whose dimension already
/// holds four labels is dropped; the rest carry the canonical dimension and
/// layer and clipped text.
pub open spec fn kept_tags(tags: Seq<Tag>) -> Seq<FieldViews>
    decreases tags.len(),
{
    if tags.len() == 0 {
        seq![]
    } else {
        let prev = kept_tags(tags.drop_last());
        let t = tags.last();
        match dimension_spec(t.dimension@) {
            Some(d) => {
                let label = clipped(t.label@, 12);
                if label.len() > 0 && count_dim(prev, d@) < 4 {
                    prev.push((d@, layer_spec(t.layer@)@, label, clipped(t.evidence@, 44)))
                } else {
                    prev
                }
            },
            None => prev,
        }
    }
}

/// A passage by its views: kind, body, text, note.
pub open spec fn passage_view(p: Passage) -> FieldViews {
    (p.kind@, p.body@, p.text@, p.note@)
}

pub open spec fn passage_views(ps: Seq<Passage>) -> Seq<FieldViews> {
    ps.map_values(|p: Passage| passage_view(p))
}

/// What one passage becomes: a quote stays only when it comes from the
/// samples; prose stays only when its clipped body is not empty.
pub open spec fn kept_passage(p: Passage, samples: Seq<String>) -> Option<FieldViews> {
    if is_quote_kind(p.kind@) {
        if quoted_from(p.text@, samples) {
            Some((seq!['q', 'u', 'o', 't', 'e'], seq![], clipped(p.text@, 90), clipped(p.note@, 24)))
        } else {
            None
        }
    } else {
        let body = clipped(p.body@, 200);
        if body.len() > 0 {
            Some((seq!['t', 'e', 'x', 't'], body, seq![], seq![]))
        } else {
            None
        }
    }
}

pub open spec fn kept_passages(ps: Seq<Passage>, samples: Seq<String>) -> Seq<FieldViews>
    decreases ps.len(),
{
    if ps.len() == 0 {
        seq![]
    } else {
        let prev = kept_passages(ps.drop_last(), samples);
        match kept_passage(ps.last(), samples) {
            Some(v) => prev.push(v),
            None => prev,
        }
    }
}

/// The first `n` items, or all of them when there are fewer.
pub open spec fn at_most<A>(s: Seq<A>, n: int) -> Seq<A> {
    if s.len() <= n {
        s
    } else {
        s.take(n)
    }
}

pub open spec fn string_views(v: Seq<String>) -> Seq<Seq<char>> {
    v.map_values(|s: String| s@)
}

/// The discussion hooks that survive: clipped, blanks and repeats dropped.
pub open spec fn kept_hooks(hooks: Seq<String>) -> Seq<Seq<char>>
    decreases hooks.len(),
{
    if hooks.len() == 0 {
        seq![]
    } else {
        let prev = kept_hooks(hooks.drop_last());
        let h = clipped(hooks.last()@, 40);
        if h.len() > 0 && !prev.contains(h) {
            prev.push(h)
        } else {
            prev
        }
    }
}

/// The MBTI reading with every axis clamped into range.
pub open spec fn clamped_mbti(m: Mbti) -> Mbti {
    Mbti {
        energy: axis_range(m.energy as int) as i32,
        perceiving: axis_range(m.perceiving as int) as i32,
        deciding: axis_range(m.deciding as int) as i32,
        lifestyle: axis_range(m.lifestyle as int) as i32,
    }
}

fn count_in(kept: &Vec<Tag>, d: &Vec<char>) -> (n: usize)
    ensures
        n == count_dim(tag_views(kept@), d@),
{
    let mut n: usize = 0;
    let mut i: usize = 0;
    while i < kept.len()
        invariant
            i <= kept@.len(),
            n <= i,
            n == count_dim(tag_views(kept@.take(i as int)), d@),
        decreases kept@.len() - i,
    {
        proof {
            assert(tag_views(kept@.take(i + 1)).drop_last() =~= tag_views(kept@.take(i as int)));
        }
        if same_chars(&chars_of(kept[i].dimension.as_str()), d) {
            n += 1;
        }
        i += 1;
    }
    assert(kept@.take(i as int) =~= kept@);
    n
}

fn sanitize_tags(tags: &Vec<Tag>) -> (out: Vec<Tag>)
    ensures
        tag_views(out@) == kept_tags(tags@),
{
    let mut out: Vec<Tag> = Vec::new();
    let mut i: usize = 0;
    while i < tags.len()
        invariant
            i <= tags@.len(),
            tag_views(out@) == kept_tags(tags@.take(i as int)),
        decreases tags@.len() - i,
    {
        let tag = &tags[i];
        proof {
            assert(tags@.take(i + 1).drop_last() =~= tags@.take(i as int));
        }
        let ghost prev = out@;
        match tag.dim() {
            Some(d) => {
                let label = clip(tag.label.as_str(), 12);
                if !label.as_str().is_empty() {
                    let dv = chars_of(d);
                    if count_in(&out, &dv) < 4 {
                        let t = Tag::new(d, tag.tier(), label, clip(tag.evidence.as_str(), 44));
                        out.push(t);
                        assert(tag_views(out@) =~= tag_views(prev).push(tag_view(t)));
                    }
                }
            },
            None => {},
        }
        i += 1;
    }
    assert(tags@.take(i as int) =~= tags@);
    out
}

fn sanitize_passages(ps: &Vec<Passage>, samples: &Vec<String>) -> (out: Vec<Passage>)
    ensures
        passage_views(out@) == at_most(kept_passages(ps@, samples@), 6),
{
    let mut out: Vec<Passage> = Vec::new();
    let mut i: usize = 0;
    assert(passage_views(out@) =~= at_most(kept_passages(ps@.take(0), samples@), 6));
    while i < ps.len()
        invariant
            i <= ps@.len(),
            passage_views(out@) == at_most(kept_passages(ps@.take(i as int), samples@), 6),
        decreases ps@.len() - i,
    {
        let p = &ps[i];
        proof {
            assert(ps@.take(i + 1).drop_last() =~= ps@.take(i as int));
        }
        let ghost full = kept_passages(ps@.take(i as int), samples@);
        let ghost prev = out@;
        let kept: Option<Passage> = if p.is_quote() {
            if quote_is_from_samples(p.text.as_str(), samples.as_slice()) {
                Some(
                    Passage {
                        kind: owned("quote"),
                        body: String::new(),
                        text: clip(p.text.as_str(), 90),
                        note: clip(p.note.as_str(), 24),
                    },
                )
            } else {
                None
            }
        } else {
            let body = clip(p.body.as_str(), 200);
            if body.as_str().is_empty() {
                None
            } else {
                Some(Passage { kind: owned("text"), body, text: String::new(), note: String::new() })
            }
        };
        proof {
            reveal_strlit("quote");
            reveal_strlit("text");
        }
        match kept {
            Some(k) => {
                assert(passage_view(k) == kept_passage(*p, samples@).unwrap());
                assert(passage_views(prev).len() == prev.len());
                if out.len() < 6 {
                    out.push(k);
                    assert(passage_views(out@) =~= passage_views(prev).push(passage_view(k)));
                } else {
                    assert(at_most(full.push(passage_view(k)), 6) =~= at_most(full, 6));
                }
            },
            None => {},
        }
        i += 1;
    }
    assert(ps@.take(i as int) =~= ps@);
    out
}

fn holds_text(v: &Vec<String>, s: &String) -> (b: bool)
    ensures
        b == string_views(v@).contains(s@),
{
    let mut i: usize = 0;
    while i < v.len()
        invariant
            i <= v@.len(),
            forall|j: int| 0 <= j < i ==> v@[j]@ != s@,
        decreases v@.len() - i,
    {
        if v[i] == *s {
            assert(string_views(v@)[i as int] == s@);
            return true;
        }
        i += 1;
    }
    proof {
        if string_views(v@).contains(s@) {
            let j = choose|j: int| 0 <= j < string_views(v@).len() && string_views(v@)[j] == s@;
            assert(v@[j]@ == s@);
        }
    }
    false
}

fn sanitize_hooks(hooks: &Vec<String>) -> (out: Vec<String>)
    ensures
        string_views(out@) == at_most(kept_hooks(hooks@), 3),
{
    let mut kept: Vec<String> = Vec::new();
    let mut i: usize = 0;
    while i < hooks.len()
        invariant
            i <= hooks@.len(),
            string_views(kept@) == kept_hooks(hooks@.take(i as int)),
        decreases hooks@.len() - i,
    {
        proof {
            assert(hooks@.take(i + 1).drop_last() =~= hooks@.take(i as int));
        }
        let ghost prev = kept@;
        let hook = clip(hooks[i].as_str(), 40);
        if !hook.as_str().is_empty() && !holds_text(&kept, &hook) {
            kept.push(hook);
            assert(string_views(kept@) =~= string_views(prev).push(hook@));
        }
        i += 1;
    }
    assert(hooks@.take(i as int) =~= hooks@);
    let ghost all = kept@;
    kept.truncate(3);
    assert(string_views(kept@) =~= at_most(string_views(all), 3));
    kept
}

impl Persona {
    /// Brings a model's answer into shape: field lengths, label counts,
    /// dimensions and layers, and quotes that must come from the samples.
    pub fn sanitize(self, samples: &Vec<String>) -> (out: Self)
        ensures
            out.title@ == clipped(self.title@, 9),
            out.note@ == clipped(self.note@, 30),
            out.style@ == clipped(self.style@, 90),
            out.mbti == match self.mbti {
                Some(m) => Some(clamped_mbti(m)),
                None => None::<Mbti>,
            },
            out.enneagram == match self.enneagram {
                Some(e) => sanitized_reading(e),
                None => None::<Enneagram>,
            },
            tag_views(out.tags@) == kept_tags(self.tags@),
            passage_views(out.profile@) == at_most(kept_passages(self.profile@, samples@), 6),
            string_views(out.discuss@) == at_most(kept_hooks(self.discuss@), 3),
            out.accent == self.accent,
            out.estimated == self.estimated,
    {
        let mbti = match self.mbti {
            Some(m) => Some(m.sanitized()),
            None => None,
        };
        let enneagram = match self.enneagram {
            Some(e) => e.sanitized(),
            None => None,
        };
        Persona {
            title: clip(self.title.as_str(), 9),
            note: clip(self.note.as_str(), 30),
            style: clip(self.style.as_str(), 90),
            mbti,
            enneagram,
            tags: sanitize_tags(&self.tags),
            profile: sanitize_passages(&self.profile, samples),
            discuss: sanitize_hooks(&self.discuss),
            accent: self.accent,
            estimated: self.estimated,
        }
    }
}

// ==================== laws of sanitising ====================

/// One of the four canonical dimensions.
pub open spec fn is_dimension(d: Seq<char>) -> bool {
    d == "活跃"@ || d == "内容"@ || d == "交互"@ || d == "表达"@
}

proof fn lemma_dimensions_distinct()
    ensures
        "活跃"@ != "内容"@,
        "活跃"@ != "交互"@,
        "活跃"@ != "表达"@,
        "内容"@ != "交互"@,
        "内容"@ != "表达"@,
        "交互"@ != "表达"@,
{
    reveal_strlit("活跃");
    reveal_strlit("内容");
    reveal_strlit("交互");
    reveal_strlit("表达");
    assert("活跃"@[0] != "内容"@[0]);
    assert("活跃"@[0] != "交互"@[0]);
    assert("活跃"@[0] != "表达"@[0]);
    assert("内容"@[0] != "交互"@[0]);
    assert("内容"@[0] != "表达"@[0]);
    assert("交互"@[0] != "表达"@[0]);
}

proof fn lemma_count_push(kept: Seq<FieldViews>, v: FieldViews, d: Seq<char>)
    ensures
        count_dim(kept.push(v), d) == count_dim(kept, d) + if v.0 == d {
            1nat
        } else {
            0nat
        },
{
    assert(kept.push(v).drop_last() =~= kept);
}

proof fn lemma_dimension_canonical(name: Seq<char>)
    ensures
        dimension_spec(name) matches Some(d) ==> is_dimension(d@),
{
}

/// A sanitised persona holds at most four labels under any one dimension;
/// every label sits under one of the four canonical dimensions, so there are
/// at most sixteen in all.
pub proof fn lemma_tags_bounded(tags: Seq<Tag>)
    ensures
        forall|d: Seq<char>| #[trigger] count_dim(kept_tags(tags), d) <= 4,
        forall|i: int|
            0 <= i < kept_tags(tags).len() ==> is_dimension(#[trigger] kept_tags(tags)[i].0),
        kept_tags(tags).len() <= 16,
    decreases tags.len(),
{
    reveal_strlit("活跃");
    reveal_strlit("内容");
    reveal_strlit("交互");
    reveal_strlit("表达");
    let k = kept_tags(tags);
    if tags.len() == 0 {
        assert forall|d: Seq<char>| #[trigger] count_dim(k, d) <= 4 by {}
    } else {
        lemma_tags_bounded(tags.drop_last());
        let prev = kept_tags(tags.drop_last());
        lemma_sum_of_counts(prev);
        if k.len() == prev.len() {
            assert(k == prev);
        } else {
            let t = tags.last();
            lemma_dimension_canonical(t.dimension@);
            let d = dimension_spec(t.dimension@).unwrap();
            let v = k.last();
            assert(k == prev.push(v));
            assert(v.0 == d@);
            assert forall|e: Seq<char>| #[trigger] count_dim(k, e) <= 4 by {
                lemma_count_push(prev, v, e);
            }
            assert forall|i: int| 0 <= i < k.len() implies is_dimension(#[trigger] k[i].0) by {
                if i < prev.len() {
                    assert(k[i] == prev[i]);
                }
            }
        }
        lemma_sum_of_counts(k);
    }
    lemma_sum_of_counts(k);
}

/// Every kept label under a canonical dimension: the labels are the four
/// counts added up.
proof fn lemma_sum_of_counts(k: Seq<FieldViews>)
    requires
        forall|i: int| 0 <= i < k.len() ==> is_dimension(#[trigger] k[i].0),
    ensures
        k.len() == count_dim(k, "活跃"@) + count_dim(k, "内容"@) + count_dim(k, "交互"@)
            + count_dim(k, "表达"@),
    decreases k.len(),
{
    reveal_strlit("活跃");
    reveal_strlit("内容");
    reveal_strlit("交互");
    reveal_strlit("表达");
    if k.len() > 0 {
        let p = k.drop_last();
        assert forall|i: int| 0 <= i < p.len() implies is_dimension(#[trigger] p[i].0) by {
            assert(p[i] == k[i]);
        }
        lemma_sum_of_counts(p);
        lemma_dimensions_distinct();
        assert(is_dimension(k[k.len() - 1].0));
        let v = k[k.len() - 1];
        assert(k == p.push(v));
        lemma_count_push(p, v, "活跃"@);
        lemma_count_push(p, v, "内容"@);
        lemma_count_push(p, v, "交互"@);
        lemma_count_push(p, v, "表达"@);
    }
}

/// The discussion hooks that survive never repeat, and there are at most
/// three of them.
pub proof fn lemma_hooks_distinct(hooks: Seq<String>)
    ensures
        at_most(kept_hooks(hooks), 3).len() <= 3,
        forall|i: int, j: int|
            0 <= i < j < at_most(kept_hooks(hooks), 3).len() ==> at_most(kept_hooks(hooks), 3)[i]
                != at_most(kept_hooks(hooks), 3)[j],
{
    lemma_kept_hooks_distinct(hooks);
    let k = kept_hooks(hooks);
    let r = at_most(k, 3);
    assert forall|i: int, j: int| 0 <= i < j < r.len() implies r[i] != r[j] by {
        assert(r[i] == k[i]);
        assert(r[j] == k[j]);
    }
}

proof fn lemma_kept_hooks_distinct(hooks: Seq<String>)
    ensures
        forall|i: int, j: int|
            0 <= i < j < kept_hooks(hooks).len() ==> kept_hooks(hooks)[i] != kept_hooks(hooks)[j],
    decreases hooks.len(),
{
    if hooks.len() > 0 {
        lemma_kept_hooks_distinct(hooks.drop_last());
        let prev = kept_hooks(hooks.drop_last());
        let k = kept_hooks(hooks);
        if k.len() != prev.len() {
            let h = k.last();
            assert(k == prev.push(h));
            assert forall|i: int, j: int| 0 <= i < j < k.len() implies k[i] != k[j] by {
                if j == k.len() - 1 {
                    assert(k[i] == prev[i]);
                    assert(!prev.contains(h));
                } else {
                    assert(k[i] == prev[i]);
                    assert(k[j] == prev[j]);
                }
            }
        }
    }
}

/// Every quote that survives sanitising comes from the samples, and every
/// surviving passage is either a quote or non-empty prose.
pub proof fn lemma_passages_kept_honestly(ps: Seq<Passage>, samples: Seq<String>)
    ensures
        forall|i: int|
            0 <= i < kept_passages(ps, samples).len() ==> exists|j: int|
                0 <= j < ps.len() && kept_passage(ps[j], samples) == Some(
                    #[trigger] kept_passages(ps, samples)[i],
                ),
    decreases ps.len(),
{
    if ps.len() > 0 {
        let p = ps.drop_last();
        lemma_passages_kept_honestly(p, samples);
        let prev = kept_passages(p, samples);
        let k = kept_passages(ps, samples);
        assert forall|i: int| 0 <= i < k.len() implies exists|j: int|
            0 <= j < ps.len() && kept_passage(ps[j], samples) == Some(#[trigger] k[i]) by {
            if i < prev.len() {
                assert(k[i] == prev[i]);
                let j = choose|j: int| 0 <= j < p.len() && kept_passage(p[j], samples) == Some(prev[i]);
                assert(ps[j] == p[j]);
            } else {
                assert(kept_passage(ps[ps.len() - 1], samples) == Some(k[i]));
            }
        }
    }
}

// ==================== the instructions ====================

/// What the model is told: three layers, the two rulers, the fingerprint and
/// word-for-word quotes.
pub const SYSTEM_PROMPT: &'static str = "你在做一份用户画像。\n\n用户画像是一个人留在群聊里的行为被整理成的一份读数。它分三层，从硬到软：\n\n- 仪器读数：统计量与语言指纹，全部能从原始记录里数出来，可核验。你不用算，下面会给你。\n- 读法：你读那些事实，得出四维标签、一段语言风格白描、一段综述。这一层要有依据。\n- 投影：MBTI 四轴与九型，是把行为往两套既有框架上做的读数。它是讨论的起点，不是结论。\n\n这份画像有损：没观测到的部分一句话也不许有。它更不等于本人，只是一份能拿去聊的参考。\n\n读你这份东西的人不认识他。他读完要能说出：这个人怎么说话，什么时候来，说什么，\n跟谁说话，以及一个人大概的行事与动机底色。\n\n【语言指纹怎么用】\n下面给一组「语言指纹」：提问率、感叹率、省略号、笑声、语气词、自称与对称呼密度、\n长度起伏、长短占比、发言的爆发指数、重复率。它们都是数出来的事实。你要做的不是复述\n数字，而是从它们和样本里白描这个人怎么说话：标点习惯，语气是冲是缓，是不是爱提问，\n说给自己听还是说给别人听，话是匀称还是时短时长。风格字段控制在 90 字内，一两句白描，\n写他本人，不写成通用评语。不用形容词堆砌，不写「很有个性」这种空话。\n\n【四维标签】\n标签是读法层的骨架。四个维度都要给，每个 2 到 4 条，整个画像 8 到 16 条：\n- 活跃：什么时候出现，去得勤不勤，密度如何。\n- 内容：说什么，反复说什么，哪些话题从来不碰。\n- 交互：跟谁说话，主动发起还是接话，他说的时候别人接不接。\n- 表达：怎么说。长短、句读、用不用图片表情语音。\n\n每条标签标出抽象层级，只许三种：\n- 事实：观测即得。条数、时刻、占比、媒介构成、原话。照下发的统计量写，不另编数字。\n- 统计：把观测按一个阈值归成一类，阈值要一起写出来。\n- 推断：从样本的意思里读出来的。一条必须有一条原话或一组数字顶着，顶不住的不要写。\n  推断标签不超过总数的一半。标签要说得出依据，别写成绰号。\n\n【投影：MBTI 四轴】\n给四轴各一个 -100 到 100 的整数：正 = 靠向 E（外向）/ S（实感）/ T（思考）/ J（判断），\n负 = 靠向 I（内向）/ N（直觉）/ F（情感）/ P（知觉）。绝对值越大越偏。多数人贴近中线，\n拿不准就给接近 0 的数，只在证据清楚时才给大数。这不是给人定型，是标出他往哪一侧使劲。\n四轴推出来的参考码由系统自己算，你不用给。\n\n【投影：九型】\n给一个 1 到 9 的主型和一个相邻侧翼（一号两翼 9 与 2，九号两翼 8 与 1，中间取相邻）。\n这一套答的是「他为什么这样行事」——核心的怕与求。同样按证据来，证据不足就挑最接近的。\n\n【讨论钩子】\n给 1 到 3 条群里能拿来聊的钩子。每条一句，落在具体的行为或某个投影读数上，让人能\n同意也能反驳。不许编新的数字或引语，不许反问，不评判人。\n\n【综述笔法】\n综述是血肉，四到六段，白描：照着事实写，不加修饰。\n- 一句话说一件事，写成完整的陈述句。句子短，主语清楚。\n- 每一句判断后面要有东西撑着：他说过的话、数字、时间。只有判断没有事实的句子，删掉。\n- 至少两段把引语单独成段，前后用自己的话接住它。引语必须逐字出自下发的样本，一个字\n  都不能改；找不到合适的就不给引语。\n- 不用比喻、对仗、金句、格言体，不用「不是……而是……」「既……又……」这种句式。\n- 不用评价词（很强、非常、厉害），不用模糊限定（似乎、某种、大概），不用「其实」「说到底」。\n- 数字挑着用，一段里至多两三处。同一件事只说一遍。\n- 冷静、克制。说穿，但不羞辱。\n\n不写外貌、性别、年龄、地域、收入、健康、政治立场；不臆断他做什么工作、住在哪里、\n跟谁是什么关系。\n\n只输出一个 JSON 对象，不要代码块，不要解释，不要前后缀。\n\nJSON 字段：\n{\n  \"title\": \"综合速写，4 到 9 字，是概括不是夸赞\",\n  \"note\": \"一句话概括，不超过 30 字\",\n  \"style\": \"语言风格白描，不超过 90 字\",\n  \"mbti\": {\"energy\": -40, \"perceiving\": -55, \"deciding\": 30, \"lifestyle\": -20},\n  \"enneagram\": {\"number\": 5, \"wing\": 4},\n  \"tags\": [\n    {\"dimension\":\"活跃\",\"layer\":\"事实\",\"label\":\"标签，不超过 12 字\",\"evidence\":\"撑住它的数字、时刻或原话，不超过 44 字\"}\n  ],\n  \"profile\": [\n    {\"kind\":\"text\",\"body\":\"一段综述，不超过 200 字\"},\n    {\"kind\":\"quote\",\"text\":\"逐字引用的一条发言\",\"note\":\"这句话说明什么，不超过 24 字\"}\n  ],\n  \"discuss\": [\"讨论钩子，不超过 40 字\"],\n  \"accent\": \"从 amber / rose / mint / indigo / violet / teal 里选一个当报告主色\"\n}\n\ntags 的 dimension 只能写 活跃 / 内容 / 交互 / 表达，layer 只能写 事实 / 统计 / 推断。\nmbti 四轴、enneagram 必填。profile 给 4 到 6 段，其中 2 段是 quote。discuss 给 1 到 3 条。\n写完自己看一遍：有没有对仗，有没有只下判断不给事实的句子，有没有空收尾，\n有没有同一个数字报了两遍，有没有把没观测到的事当事实写。";

pub fn system_prompt() -> (prompt: &'static str)
    ensures
        prompt == SYSTEM_PROMPT,
{
    SYSTEM_PROMPT
}

} // verus!
