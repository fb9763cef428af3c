//! Pieces of the persona card (HTML, captured to an image by the caller).
//!
//! Every dynamic text on the card is escaped; counts get thousands
//! separators; the hour bars are normalised to their peak with a visible
//! minimum; the theme follows Beijing reading hours unless pinned.

use vstd::prelude::*;
use crate::persona::Persona;
use crate::text::{
    all_ws, char_is_alphanumeric, chars_of, decimal, digit_char, is_whitespace, is_ws, lower_seq, lowered,
    owned, push_chars, push_str, same_chars, string_of, trim, trim_str, u64_digits,
    unicode_alphanumeric,
};

verus! {

/// The shortest bar drawn for an hour that has anything at all, in percent.
pub const MIN_BAR: u64 = 6;

/// Two themes; switching changes lightness only, never layout.
#[derive(Debug, Clone, Copy, PartialEq, Eq, Structural)]
pub enum Theme {
    Light,
    Dark,
}

pub open spec fn light_words() -> Seq<Seq<char>> {
    seq![seq!['l', 'i', 'g', 'h', 't'], seq!['d', 'a', 'y'], seq!['白', '天'], seq!['日', '间']]
}

pub open spec fn dark_words() -> Seq<Seq<char>> {
    seq![seq!['d', 'a', 'r', 'k'], seq!['n', 'i', 'g', 'h', 't'], seq!['夜', '晚'], seq!['夜', '间']]
}

/// A pinned mode wins; otherwise 07:00–18:59 Beijing time reads by day.
pub open spec fn theme_for(mode: Seq<char>, hour: u32) -> Theme {
    let m = lower_seq(trim(mode));
    if light_words().contains(m) {
        Theme::Light
    } else if dark_words().contains(m) {
        Theme::Dark
    } else if 7 <= hour < 19 {
        Theme::Light
    } else {
        Theme::Dark
    }
}

fn one_of(word: &Vec<char>, list: &Vec<Vec<char>>) -> (b: bool)
    ensures
        b == crate::text::views(list@).contains(word@),
{
    let mut i: usize = 0;
    while i < list.len()
        invariant
            i <= list@.len(),
            forall|j: int| 0 <= j < i ==> list@[j]@ != word@,
        decreases list@.len() - i,
    {
        if same_chars(&list[i], word) {
            assert(crate::text::views(list@)[i as int] == word@);
            return true;
        }
        i += 1;
    }
    proof {
        if crate::text::views(list@).contains(word@) {
            let j = choose|j: int|
                0 <= j < crate::text::views(list@).len() && crate::text::views(list@)[j] == word@;
            assert(list@[j]@ == word@);
        }
    }
    false
}

impl Theme {
    /// The theme for a mode and the current Beijing hour: `light`, `day`,
    /// 白天 or 日间 pin the day theme, `dark`, `night`, 夜晚 or 夜间 the night
    /// one, anything else follows the clock.
    pub fn resolve(mode: &str, hour: u32) -> (theme: Self)
        ensures
            theme == theme_for(mode@, hour),
    {
        let m = lowered(&trim_str(mode));
        let light: Vec<Vec<char>> = vec![
            vec!['l', 'i', 'g', 'h', 't'],
            vec!['d', 'a', 'y'],
            vec!['白', '天'],
            vec!['日', '间'],
        ];
        let dark: Vec<Vec<char>> = vec![
            vec!['d', 'a', 'r', 'k'],
            vec!['n', 'i', 'g', 'h', 't'],
            vec!['夜', '晚'],
            vec!['夜', '间'],
        ];
        assert(crate::text::views(light@) =~= light_words());
        assert(crate::text::views(dark@) =~= dark_words());
        if one_of(&m, &light) {
            Theme::Light
        } else if one_of(&m, &dark) {
            Theme::Dark
        } else if 7 <= hour && hour < 19 {
            Theme::Light
        } else {
            Theme::Dark
        }
    }

    /// The class the page root carries for this theme.
    pub fn vars(self) -> (class: &'static str)
        ensures
            class@ == match self {
                Theme::Light => Seq::<char>::empty(),
                Theme::Dark => seq![' ', 'd', 'a', 'r', 'k'],
            },
    {
        match self {
            Theme::Light => {
                proof {
                    reveal_strlit("");
                }
                ""
            },
            Theme::Dark => {
                proof {
                    reveal_strlit(" dark");
                }
                " dark"
            },
        }
    }
}

// ==================== text on the card ====================

/// One character made safe for HTML text and attributes.
pub open spec fn esc_char(c: char) -> Seq<char> {
    if c == '&' {
        seq!['&', 'a', 'm', 'p', ';']
    } else if c == '<' {
        seq!['&', 'l', 't', ';']
    } else if c == '>' {
        seq!['&', 'g', 't', ';']
    } else if c == '"' {
        seq!['&', 'q', 'u', 'o', 't', ';']
    } else if c == '\'' {
        seq!['&', '#', '3', '9', ';']
    } else {
        seq![c]
    }
}

pub open spec fn escaped(s: Seq<char>) -> Seq<char>
    decreases s.len(),
{
    if s.len() == 0 {
        seq![]
    } else {
        escaped(s.drop_last()) + esc_char(s.last())
    }
}

/// Escapes the five characters HTML gives meaning to.
pub fn esc(text: &str) -> (out: String)
    ensures
        out@ == escaped(text@),
{
    let v = chars_of(text);
    let mut out = String::new();
    let mut i: usize = 0;
    while i < v.len()
        invariant
            i <= v@.len(),
            v@ == text@,
            out@ == escaped(v@.take(i as int)),
        decreases v@.len() - i,
    {
        let c = v[i];
        assert(v@.take(i + 1).drop_last() =~= v@.take(i as int));
        let ghost before = out@;
        if c == '&' {
            out.push('&');
            out.push('a');
            out.push('m');
            out.push('p');
            out.push(';');
        } else if c == '<' {
            out.push('&');
            out.push('l');
            out.push('t');
            out.push(';');
        } else if c == '>' {
            out.push('&');
            out.push('g');
            out.push('t');
            out.push(';');
        } else if c == '"' {
            out.push('&');
            out.push('q');
            out.push('u');
            out.push('o');
            out.push('t');
            out.push(';');
        } else if c == '\'' {
            out.push('&');
            out.push('#');
            out.push('3');
            out.push('9');
            out.push(';');
        } else {
            out.push(c);
        }
        assert(out@ =~= before + esc_char(c));
        i += 1;
    }
    assert(v@.take(i as int) =~= v@);
    out
}

/// An escaped text holds no raw markup: no `<`, `>`, `"` or `'`, and every
/// `&` starts an entity.
pub proof fn lemma_escaped_is_inert(s: Seq<char>)
    ensures
        forall|i: int|
            0 <= i < escaped(s).len() ==> #[trigger] escaped(s)[i] != '<' && escaped(s)[i] != '>'
                && escaped(s)[i] != '"' && escaped(s)[i] != '\'',
    decreases s.len(),
{
    if s.len() > 0 {
        lemma_escaped_is_inert(s.drop_last());
        let p = escaped(s.drop_last());
        let e = esc_char(s.last());
        assert forall|i: int| 0 <= i < escaped(s).len() implies #[trigger] escaped(s)[i] != '<'
            && escaped(s)[i] != '>' && escaped(s)[i] != '"' && escaped(s)[i] != '\'' by {
            if i < p.len() {
                assert(escaped(s)[i] == p[i]);
            } else {
                assert(escaped(s)[i] == e[i - p.len()]);
            }
        }
    }
}

/// One digit of a count, with a separator before it when a group of three
/// starts there.
pub open spec fn digit_piece(d: Seq<char>, i: int) -> Seq<char> {
    if i > 0 && (d.len() - i) % 3 == 0 {
        seq![',', d[i]]
    } else {
        seq![d[i]]
    }
}

pub open spec fn grouped_upto(d: Seq<char>, n: int) -> Seq<char>
    decreases n,
{
    if n <= 0 {
        seq![]
    } else {
        grouped_upto(d, n - 1) + digit_piece(d, n - 1)
    }
}

/// A count with a comma between every three digits from the right.
pub open spec fn grouped(value: u64) -> Seq<char> {
    grouped_upto(decimal(value as nat), decimal(value as nat).len() as int)
}

/// The text with its commas taken out.
pub open spec fn without_commas(s: Seq<char>) -> Seq<char>
    decreases s.len(),
{
    if s.len() == 0 {
        seq![]
    } else {
        without_commas(s.drop_last()) + if s.last() == ',' {
            seq![]
        } else {
            seq![s.last()]
        }
    }
}

pub(crate) proof fn lemma_without_commas_append(a: Seq<char>, b: Seq<char>)
    ensures
        without_commas(a + b) == without_commas(a) + without_commas(b),
    decreases b.len(),
{
    if b.len() > 0 {
        lemma_without_commas_append(a, b.drop_last());
        assert((a + b).drop_last() =~= a + b.drop_last());
        assert(without_commas(a) + without_commas(b.drop_last()) + (if b.last() == ',' {
            seq![]
        } else {
            seq![b.last()]
        }) =~= without_commas(a) + (without_commas(b.drop_last()) + if b.last() == ',' {
            seq![]
        } else {
            seq![b.last()]
        }));
    } else {
        assert(a + b =~= a);
        assert(without_commas(a) + without_commas(b) =~= without_commas(a));
    }
}

proof fn lemma_decimal_digits(n: nat)
    ensures
        forall|i: int| 0 <= i < decimal(n).len() ==> #[trigger] decimal(n)[i] != ',',
        decimal(n).len() >= 1,
    decreases n,
{
    let c = digit_char(n % 10);
    assert(48 <= (n % 10) % 10 + 48 <= 57);
    assert(c != ',');
    if n >= 10 {
        lemma_decimal_digits(n / 10);
    }
}

/// Grouping adds nothing but separators: with the commas taken out, a
/// grouped count reads as its plain decimal digits.
pub proof fn lemma_grouping_keeps_the_digits(value: u64)
    ensures
        without_commas(grouped(value)) == decimal(value as nat),
{
    let d = decimal(value as nat);
    lemma_decimal_digits(value as nat);
    assert forall|n: int| 0 <= n <= d.len() implies #[trigger] without_commas(grouped_upto(d, n)) == d.take(n) by {
        lemma_grouped_prefix(d, n);
    }
    assert(d.take(d.len() as int) =~= d);
}

proof fn lemma_grouped_prefix(d: Seq<char>, n: int)
    requires
        0 <= n <= d.len(),
        forall|i: int| 0 <= i < d.len() ==> #[trigger] d[i] != ',',
    ensures
        without_commas(grouped_upto(d, n)) == d.take(n),
    decreases n,
{
    if n > 0 {
        lemma_grouped_prefix(d, n - 1);
        lemma_without_commas_append(grouped_upto(d, n - 1), digit_piece(d, n - 1));
        let piece = digit_piece(d, n - 1);
        if n - 1 > 0 && (d.len() - (n - 1)) % 3 == 0 {
            assert(without_commas(seq![',']) =~= Seq::<char>::empty()) by {
                reveal_with_fuel(without_commas, 2);
                assert(seq![','].drop_last() =~= Seq::<char>::empty());
                assert(seq![','].last() == ',');
            }
            lemma_without_commas_append(seq![','], seq![d[n - 1]]);
            assert(seq![',', d[n - 1]] =~= seq![','] + seq![d[n - 1]]);
            assert(without_commas(seq![d[n - 1]]) =~= seq![d[n - 1]]) by {
                reveal_with_fuel(without_commas, 2);
                assert(seq![d[n - 1]].drop_last() =~= Seq::<char>::empty());
                assert(seq![d[n - 1]].last() == d[n - 1]);
            }
        } else {
            assert(without_commas(seq![d[n - 1]]) =~= seq![d[n - 1]]) by {
                reveal_with_fuel(without_commas, 2);
                assert(seq![d[n - 1]].drop_last() =~= Seq::<char>::empty());
                assert(seq![d[n - 1]].last() == d[n - 1]);
            }
        }
        assert(d.take(n - 1) + seq![d[n - 1]] =~= d.take(n));
    } else {
        assert(d.take(0) =~= Seq::<char>::empty());
    }
}

pub fn fmt_num(value: u64) -> (out: String)
    ensures
        out@ == grouped(value),
{
    let digits = u64_digits(value);
    let n = digits.len();
    let mut out = String::new();
    let mut i: usize = 0;
    while i < n
        invariant
            i <= n == digits@.len(),
            digits@ == decimal(value as nat),
            out@ == grouped_upto(digits@, i as int),
        decreases n - i,
    {
        let ghost before = out@;
        if i > 0 && (n - i) % 3 == 0 {
            out.push(',');
        }
        out.push(digits[i]);
        assert(out@ =~= before + digit_piece(digits@, i as int));
        i += 1;
    }
    out
}

/// The first index, from `i` on, of a letter or digit.
pub open spec fn first_alnum(s: Seq<char>, i: int) -> Option<int>
    decreases s.len() - i,
{
    if i < 0 || i >= s.len() {
        None
    } else if unicode_alphanumeric(s[i]) {
        Some(i)
    } else {
        first_alnum(s, i + 1)
    }
}

/// The first index, from `i` on, of anything but white space.
pub open spec fn first_visible(s: Seq<char>, i: int) -> Option<int>
    decreases s.len() - i,
{
    if i < 0 || i >= s.len() {
        None
    } else if !is_ws(s[i]) {
        Some(i)
    } else {
        first_visible(s, i + 1)
    }
}

/// The character on the avatar when there is no picture: the first letter
/// or digit of the name, else its first visible character, else 群.
pub open spec fn initial_of(name: Seq<char>) -> Seq<char> {
    match first_alnum(name, 0) {
        Some(i) => seq![name[i]],
        None => match first_visible(name, 0) {
            Some(i) => seq![name[i]],
            None => seq!['群'],
        },
    }
}

pub fn initial(name: &str) -> (out: String)
    ensures
        out@ == initial_of(name@),
{
    let v = chars_of(name);
    let mut i: usize = 0;
    while i < v.len()
        invariant
            i <= v@.len(),
            v@ == name@,
            first_alnum(v@, 0) == first_alnum(v@, i as int),
        decreases v@.len() - i,
    {
        if char_is_alphanumeric(v[i]) {
            let mut out = String::new();
            out.push(v[i]);
            assert(out@ =~= seq![v@[i as int]]);
            return out;
        }
        i += 1;
    }
    let mut k: usize = 0;
    while k < v.len()
        invariant
            k <= v@.len(),
            v@ == name@,
            first_alnum(v@, 0) is None,
            first_visible(v@, 0) == first_visible(v@, k as int),
        decreases v@.len() - k,
    {
        if !is_whitespace(v[k]) {
            let mut out = String::new();
            out.push(v[k]);
            assert(out@ =~= seq![v@[k as int]]);
            return out;
        }
        k += 1;
    }
    let mut out = String::new();
    out.push('群');
    assert(out@ =~= seq!['群']);
    out
}

// ==================== the hour bars ====================

/// The largest of the values; 0 when there are none.
pub open spec fn max_of(values: Seq<u64>) -> u64
    decreases values.len(),
{
    if values.len() == 0 {
        0
    } else {
        let m = max_of(values.drop_last());
        if values.last() > m {
            values.last()
        } else {
            m
        }
    }
}

/// A bar's height in percent of the peak, never below the visible minimum
/// when there is anything at all.
pub open spec fn bar_height(value: u64, max: u64) -> int {
    if max == 0 || value == 0 {
        0
    } else if (value * 100) / (max as int) < MIN_BAR {
        MIN_BAR as int
    } else {
        (value * 100) / (max as int)
    }
}

/// The class of bar `index`: the peak bar when it has anything, and the
/// night slots `night_start..night_end`.
pub open spec fn bar_class(index: int, value: u64, peak: int, night_start: int, night_end: int) -> Seq<
    char,
> {
    seq!['b', 'a', 'r'] + (if index == peak && value > 0 {
        " bar-peak"@
    } else {
        seq![]
    }) + (if night_start <= index < night_end {
        " bar-night"@
    } else {
        seq![]
    })
}

pub open spec fn bar_html(index: int, value: u64, max: u64, peak: int, night_start: int, night_end: int) -> Seq<
    char,
> {
    "<span class=\""@ + bar_class(index, value, peak, night_start, night_end)
        + "\"><span class=\"bar-fill\" style=\"height:"@ + decimal(bar_height(value, max) as nat)
        + "%\"></span></span>"@
}

pub open spec fn bars_upto(
    values: Seq<u64>,
    max: u64,
    peak: int,
    night_start: int,
    night_end: int,
    n: int,
) -> Seq<char>
    decreases n,
{
    if n <= 0 {
        seq![]
    } else {
        bars_upto(values, max, peak, night_start, night_end, n - 1) + bar_html(
            n - 1,
            values[n - 1],
            max,
            peak,
            night_start,
            night_end,
        )
    }
}

fn max_value(values: &[u64]) -> (m: u64)
    ensures
        m == max_of(values@),
{
    let mut m: u64 = 0;
    let mut i: usize = 0;
    while i < values.len()
        invariant
            i <= values@.len(),
            m == max_of(values@.take(i as int)),
        decreases values@.len() - i,
    {
        assert(values@.take(i + 1).drop_last() =~= values@.take(i as int));
        if values[i] > m {
            m = values[i];
        }
        i += 1;
    }
    assert(values@.take(i as int) =~= values@);
    m
}

proof fn lemma_max_bounds(values: Seq<u64>)
    ensures
        forall|i: int| 0 <= i < values.len() ==> #[trigger] values[i] <= max_of(values),
    decreases values.len(),
{
    if values.len() > 0 {
        lemma_max_bounds(values.drop_last());
        assert forall|i: int| 0 <= i < values.len() implies #[trigger] values[i] <= max_of(values) by {
            if i < values.len() - 1 {
                assert(values[i] == values.drop_last()[i]);
            }
        }
    }
}

/// One bar per slot, heights normalised to the peak, the peak bar and the
/// night slots marked.
pub fn bars(values: &[u64], peak: usize, night_start: usize, night_end: usize) -> (html: String)
    requires
        forall|i: int| 0 <= i < values@.len() ==> #[trigger] values@[i] <= u64::MAX / 100,
    ensures
        html@ == bars_upto(
            values@,
            max_of(values@),
            peak as int,
            night_start as int,
            night_end as int,
            values@.len() as int,
        ),
{
    let max = max_value(values);
    proof {
        lemma_max_bounds(values@);
    }
    let mut out = String::new();
    let mut i: usize = 0;
    while i < values.len()
        invariant
            i <= values@.len(),
            max == max_of(values@),
            forall|j: int| 0 <= j < values@.len() ==> #[trigger] values@[j] <= u64::MAX / 100,
            forall|j: int| 0 <= j < values@.len() ==> #[trigger] values@[j] <= max,
            out@ == bars_upto(values@, max, peak as int, night_start as int, night_end as int, i as int),
        decreases values@.len() - i,
    {
        let value = values[i];
        let height: u64 = if max == 0 || value == 0 {
            0
        } else if value * 100 / max < MIN_BAR {
            MIN_BAR
        } else {
            value * 100 / max
        };
        let ghost before = out@;
        push_str(&mut out, "<span class=\"bar");
        if i == peak && value > 0 {
            push_str(&mut out, " bar-peak");
        }
        if night_start <= i && i < night_end {
            push_str(&mut out, " bar-night");
        }
        push_str(&mut out, "\"><span class=\"bar-fill\" style=\"height:");
        push_chars(&mut out, &u64_digits(height));
        push_str(&mut out, "%\"></span></span>");
        proof {
            reveal_strlit("<span class=\"bar");
            reveal_strlit("<span class=\"");
        }
        assert("<span class=\"bar"@ =~= "<span class=\""@ + seq!['b', 'a', 'r']);
        assert(out@ =~= before + bar_html(i as int, value, max, peak as int, night_start as int, night_end as int));
        i += 1;
    }
    out
}

// ==================== section pieces ====================

/// A section head: the mark and its English line, both escaped.
pub fn sec_head(mark: &str, en: &str) -> (html: String)
    ensures
        html@ == "<div class=\"sec-head\"><span class=\"sec-mark\">"@ + escaped(mark@)
            + "</span><span class=\"sec-en\">"@ + escaped(en@) + "</span></div>"@,
{
    let mut out = owned("<div class=\"sec-head\"><span class=\"sec-mark\">");
    push_str(&mut out, esc(mark).as_str());
    push_str(&mut out, "</span><span class=\"sec-en\">");
    push_str(&mut out, esc(en).as_str());
    push_str(&mut out, "</span></div>");
    out
}

/// The line that places the person: a title and a sentence, with a chip when
/// the model was not there.
pub open spec fn headline_html(title: Seq<char>, note: Seq<char>, estimated: bool) -> Seq<char> {
    let pill = if estimated {
        "<span class=\"md-chip\">模型未接，档案由观测直出</span>"@
    } else {
        seq![]
    };
    let note_html = if all_ws(note) {
        seq![]
    } else {
        "<div class=\"note\">"@ + escaped(note) + "</div>"@
    };
    "<div class=\"headline\"><div class=\"label-row\"><span class=\"label\">一句话定位</span>"@ + pill
        + "</div><div class=\"title\">"@ + escaped(
        if title.len() == 0 {
            "尚未归纳"@
        } else {
            title
        },
    ) + "</div>"@ + note_html + "</div>"@
}

pub fn headline(persona: &Persona) -> (html: String)
    ensures
        html@ == headline_html(persona.title@, persona.note@, persona.estimated),
{
    let mut out = owned(
        "<div class=\"headline\"><div class=\"label-row\"><span class=\"label\">一句话定位</span>",
    );
    if persona.estimated {
        push_str(&mut out, "<span class=\"md-chip\">模型未接，档案由观测直出</span>");
    }
    push_str(&mut out, "</div><div class=\"title\">");
    if persona.title.as_str().is_empty() {
        push_str(&mut out, esc("尚未归纳").as_str());
    } else {
        push_str(&mut out, esc(persona.title.as_str()).as_str());
    }
    push_str(&mut out, "</div>");
    if !crate::text::is_blank(persona.note.as_str()) {
        push_str(&mut out, "<div class=\"note\">");
        push_str(&mut out, esc(persona.note.as_str()).as_str());
        push_str(&mut out, "</div>");
    }
    push_str(&mut out, "</div>");
    proof {
        reveal_strlit("");
    }
    out
}

} // verus!
