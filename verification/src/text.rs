//! Character-level text helpers shared by the plugins.
//!
//! Everything here works on the character view of a string (`Seq<char>`):
//! trimming by the Unicode `White_Space` property, ASCII case folding,
//! substring search, decimal rendering and integer parsing.

use vstd::prelude::*;
use vstd::std_specs::iter::IteratorSpec;
use vstd::string::StringExecFns;

verus! {

broadcast use vstd::string::group_string_axioms;

/// `String::push` appends one character.
pub assume_specification[ String::push ](s: &mut String, ch: char)
    ensures
        final(s)@ == old(s)@.push(ch),
;

// ==================== conversions ====================

/// The characters of a string slice, in order.
pub fn chars_of(s: &str) -> (out: Vec<char>)
    ensures
        out@ == s@,
{
    let mut out: Vec<char> = Vec::new();
    let mut it = s.chars();
    loop
        invariant
            out@ + it.remaining() == s@,
            it.decrease() is Some,
        ensures
            out@ == s@,
        decreases it.decrease()->0,
    {
        match it.next() {
            Some(c) => {
                out.push(c);
            },
            None => {
                assert(out@ + it.remaining() =~= out@);
                break ;
            },
        }
    }
    out
}

/// A string holding exactly the given characters.
pub fn string_of(chars: &Vec<char>) -> (out: String)
    ensures
        out@ == chars@,
{
    let mut out = String::new();
    let mut i: usize = 0;
    while i < chars.len()
        invariant
            i <= chars.len(),
            out@ == chars@.take(i as int),
        decreases chars.len() - i,
    {
        out.push(chars[i]);
        i += 1;
        assert(out@ =~= chars@.take(i as int));
    }
    assert(chars@.take(i as int) =~= chars@);
    out
}

/// An owned copy of a string slice.
pub fn owned(s: &str) -> (out: String)
    ensures
        out@ == s@,
{
    String::from_str(s)
}

/// Appends a string slice.
pub fn push_str(out: &mut String, s: &str)
    ensures
        final(out)@ == old(out)@ + s@,
{
    out.append(s);
}

/// Appends characters.
pub fn push_chars(out: &mut String, chars: &Vec<char>)
    ensures
        final(out)@ == old(out)@ + chars@,
{
    let ghost start = out@;
    let mut i: usize = 0;
    while i < chars.len()
        invariant
            i <= chars.len(),
            out@ == start + chars@.take(i as int),
        decreases chars.len() - i,
    {
        out.push(chars[i]);
        i += 1;
        assert(out@ =~= start + chars@.take(i as int));
    }
    assert(chars@.take(i as int) =~= chars@);
}

// ==================== white space ====================

/// The Unicode `White_Space` property, which `char::is_whitespace` tests.
pub open spec fn is_ws(c: char) -> bool {
    let u = c as u32;
    ||| 9 <= u <= 13
    ||| u == 32
    ||| u == 0x85
    ||| u == 0xA0
    ||| u == 0x1680
    ||| 0x2000 <= u <= 0x200A
    ||| u == 0x2028
    ||| u == 0x2029
    ||| u == 0x202F
    ||| u == 0x205F
    ||| u == 0x3000
}

pub fn is_whitespace(c: char) -> (b: bool)
    ensures
        b == is_ws(c),
{
    let u = c as u32;
    (9 <= u && u <= 13) || u == 32 || u == 0x85 || u == 0xA0 || u == 0x1680 || (0x2000 <= u && u
        <= 0x200A) || u == 0x2028 || u == 0x2029 || u == 0x202F || u == 0x205F || u == 0x3000
}

/// Leading white space removed.
pub open spec fn trim_start(s: Seq<char>) -> Seq<char>
    decreases s.len(),
{
    if s.len() > 0 && is_ws(s[0]) {
        trim_start(s.drop_first())
    } else {
        s
    }
}

/// Trailing white space removed.
pub open spec fn trim_end(s: Seq<char>) -> Seq<char>
    decreases s.len(),
{
    if s.len() > 0 && is_ws(s.last()) {
        trim_end(s.drop_last())
    } else {
        s
    }
}

/// What `str::trim` leaves.
pub open spec fn trim(s: Seq<char>) -> Seq<char> {
    trim_end(trim_start(s))
}

/// Whether a string is empty once trimmed, i.e. all white space.
pub open spec fn all_ws(s: Seq<char>) -> bool {
    forall|i: int| 0 <= i < s.len() ==> is_ws(#[trigger] s[i])
}

pub proof fn lemma_trim_empty(s: Seq<char>)
    ensures
        (trim(s).len() == 0) == all_ws(s),
        (trim_start(s).len() == 0) == all_ws(s),
    decreases s.len(),
{
    if s.len() > 0 && is_ws(s[0]) {
        lemma_trim_empty(s.drop_first());
        if all_ws(s.drop_first()) {
            assert forall|i: int| 0 <= i < s.len() implies is_ws(#[trigger] s[i]) by {
                if i > 0 {
                    assert(s[i] == s.drop_first()[i - 1]);
                }
            }
        }
        if all_ws(s) {
            assert forall|i: int| 0 <= i < s.drop_first().len() implies is_ws(
                #[trigger] s.drop_first()[i],
            ) by {
                assert(s.drop_first()[i] == s[i + 1]);
            }
        }
    } else {
        if s.len() > 0 {
            lemma_trim_end_keeps_first(s);
        }
    }
}

proof fn lemma_trim_end_keeps_first(s: Seq<char>)
    requires
        s.len() > 0,
        !is_ws(s[0]),
    ensures
        trim_end(s).len() > 0,
        trim_end(s)[0] == s[0],
    decreases s.len(),
{
    if is_ws(s.last()) {
        if s.len() == 1 {
        } else {
            lemma_trim_end_keeps_first(s.drop_last());
        }
    }
}

proof fn lemma_trim_start_front(s: Seq<char>)
    ensures
        trim_start(s).len() == 0 || !is_ws(trim_start(s)[0]),
    decreases s.len(),
{
    if s.len() > 0 && is_ws(s[0]) {
        lemma_trim_start_front(s.drop_first());
    }
}

proof fn lemma_trim_end_back(s: Seq<char>)
    ensures
        trim_end(s).len() == 0 || !is_ws(trim_end(s).last()),
    decreases s.len(),
{
    if s.len() > 0 && is_ws(s.last()) {
        lemma_trim_end_back(s.drop_last());
    }
}

/// What `str::trim` leaves starts and ends with a character that is not
/// white space.
proof fn lemma_trimmed_ends(s: Seq<char>)
    ensures
        trim(s).len() == 0 || (!is_ws(trim(s)[0]) && !is_ws(trim(s).last())),
{
    lemma_trim_start_front(s);
    lemma_trim_end_back(trim_start(s));
    if trim_start(s).len() > 0 {
        lemma_trim_end_keeps_first(trim_start(s));
    }
}

/// Trimming and then lowercasing (ASCII) a second time changes nothing.
pub proof fn lemma_trim_lower_settles(s: Seq<char>)
    ensures
        lower_seq(trim(lower_seq(trim(s)))) == lower_seq(trim(s)),
{
    let t = trim(s);
    let l = lower_seq(t);
    lemma_trimmed_ends(s);
    if l.len() > 0 {
        assert(l[0] == lower(t[0]));
        assert(l.last() == lower(t.last()));
        assert(!is_ws(l[0]));
        assert(!is_ws(l.last()));
    }
    assert(trim_start(l) == l);
    assert(trim_end(l) == l);
    assert(lower_seq(l) =~= l);
}

/// Index of the first non-blank character, or `len` when there is none.
fn first_kept(v: &Vec<char>) -> (i: usize)
    ensures
        i <= v.len(),
        trim_start(v@) == v@.skip(i as int),
        i < v.len() ==> !is_ws(v@[i as int]),
        forall|j: int| 0 <= j < i ==> is_ws(#[trigger] v@[j]),
{
    let mut i: usize = 0;
    assert(v@.skip(0) =~= v@);
    while i < v.len() && is_whitespace(v[i])
        invariant
            i <= v.len(),
            trim_start(v@) == trim_start(v@.skip(i as int)),
            forall|j: int| 0 <= j < i ==> is_ws(#[trigger] v@[j]),
        decreases v.len() - i,
    {
        assert(v@.skip(i as int).drop_first() =~= v@.skip(i + 1));
        i += 1;
    }
    i
}

/// `str::trim`, on characters.
pub fn trimmed(v: &Vec<char>) -> (out: Vec<char>)
    ensures
        out@ == trim(v@),
{
    let start = first_kept(v);
    let mut end: usize = v.len();
    let ghost rest = v@.skip(start as int);
    assert(rest.take(end - start) =~= rest);
    while end > start && is_whitespace(v[end - 1])
        invariant
            start <= end <= v.len(),
            rest == v@.skip(start as int),
            trim_end(rest) == trim_end(rest.take(end - start)),
        decreases end,
    {
        assert(rest.take(end - start).drop_last() =~= rest.take(end - 1 - start));
        end -= 1;
    }
    let mut out: Vec<char> = Vec::new();
    let mut k: usize = start;
    while k < end
        invariant
            start <= k <= end <= v.len(),
            out@ == v@.subrange(start as int, k as int),
        decreases end - k,
    {
        out.push(v[k]);
        k += 1;
        assert(out@ =~= v@.subrange(start as int, k as int));
    }
    assert(rest.take(end - start) =~= v@.subrange(start as int, end as int));
    out
}

/// `str::trim` on a slice, as characters.
pub fn trim_str(s: &str) -> (out: Vec<char>)
    ensures
        out@ == trim(s@),
{
    trimmed(&chars_of(s))
}

/// Whether a string slice is blank (`s.trim().is_empty()`).
pub fn is_blank(s: &str) -> (b: bool)
    ensures
        b == all_ws(s@),
        b == (trim(s@).len() == 0),
{
    proof {
        lemma_trim_empty(s@);
    }
    trim_str(s).len() == 0
}

// ==================== ASCII case ====================

pub open spec fn lower(c: char) -> char {
    if 'A' <= c && c <= 'Z' {
        ((c as u32) + 32) as char
    } else {
        c
    }
}

pub open spec fn lower_seq(s: Seq<char>) -> Seq<char> {
    s.map_values(|c: char| lower(c))
}

pub fn to_lower(c: char) -> (out: char)
    ensures
        out == lower(c),
{
    if 'A' <= c && c <= 'Z' {
        ((c as u8) + 32) as char
    } else {
        c
    }
}

/// `to_ascii_lowercase`, on characters.
pub fn lowered(v: &Vec<char>) -> (out: Vec<char>)
    ensures
        out@ == lower_seq(v@),
{
    let mut out: Vec<char> = Vec::new();
    let mut i: usize = 0;
    while i < v.len()
        invariant
            i <= v.len(),
            out@ == lower_seq(v@.take(i as int)),
        decreases v.len() - i,
    {
        out.push(to_lower(v[i]));
        i += 1;
        assert(out@ =~= lower_seq(v@.take(i as int)));
    }
    assert(v@.take(i as int) =~= v@);
    out
}

// ==================== substrings ====================

/// `needle` sits in `hay` starting at `at`.
pub open spec fn occurs_at(hay: Seq<char>, needle: Seq<char>, at: int) -> bool {
    0 <= at && at + needle.len() <= hay.len() && hay.subrange(at, at + needle.len()) == needle
}

/// `str::contains` with a string pattern.
pub open spec fn contains(hay: Seq<char>, needle: Seq<char>) -> bool {
    exists|at: int| occurs_at(hay, needle, at)
}

pub open spec fn starts_with(hay: Seq<char>, needle: Seq<char>) -> bool {
    occurs_at(hay, needle, 0)
}

pub open spec fn ends_with(hay: Seq<char>, needle: Seq<char>) -> bool {
    needle.len() <= hay.len() && occurs_at(hay, needle, hay.len() - needle.len())
}

/// Whether `needle` occurs in `hay` at `at`.
pub fn matches_at(hay: &Vec<char>, needle: &Vec<char>, at: usize) -> (b: bool)
    ensures
        b == occurs_at(hay@, needle@, at as int),
{
    if at > hay.len() || needle.len() > hay.len() - at {
        return false;
    }
    let mut k: usize = 0;
    while k < needle.len()
        invariant
            at + needle.len() <= hay.len(),
            k <= needle.len(),
            forall|j: int| 0 <= j < k ==> hay@[at + j] == needle@[j],
        decreases needle.len() - k,
    {
        if hay[at + k] != needle[k] {
            assert(hay@.subrange(at as int, at + needle.len())[k as int] != needle@[k as int]);
            return false;
        }
        k += 1;
    }
    assert(hay@.subrange(at as int, at + needle.len()) =~= needle@);
    true
}

/// First place at or after `from` where `needle` occurs.
pub fn find_from(hay: &Vec<char>, needle: &Vec<char>, from: usize) -> (r: Option<usize>)
    ensures
        r matches Some(at) ==> from <= at && occurs_at(hay@, needle@, at as int) && forall|j: int|
            from <= j < at ==> !occurs_at(hay@, needle@, j),
        r is None ==> forall|j: int| from <= j ==> !occurs_at(hay@, needle@, j),
{
    if from > hay.len() {
        return None;
    }
    let mut at = from;
    while at < hay.len()
        invariant
            from <= at <= hay.len(),
            forall|j: int| from <= j < at ==> !occurs_at(hay@, needle@, j),
        decreases hay.len() - at,
    {
        if matches_at(hay, needle, at) {
            return Some(at);
        }
        at += 1;
    }
    if matches_at(hay, needle, at) {
        return Some(at);
    }
    None
}

/// The first place at or after `from` where `needle` occurs, as `str::find`
/// reports it on the rest of the text.
pub open spec fn index_from(hay: Seq<char>, needle: Seq<char>, from: int) -> Option<int>
    decreases hay.len() + 1 - from,
{
    if from < 0 || from > hay.len() {
        None
    } else if occurs_at(hay, needle, from) {
        Some(from)
    } else {
        index_from(hay, needle, from + 1)
    }
}

pub proof fn lemma_index_from_bounds(hay: Seq<char>, needle: Seq<char>, from: int)
    ensures
        index_from(hay, needle, from) matches Some(at) ==> from <= at && occurs_at(hay, needle, at)
            && at + needle.len() <= hay.len(),
    decreases hay.len() + 1 - from,
{
    if 0 <= from <= hay.len() && !occurs_at(hay, needle, from) {
        lemma_index_from_bounds(hay, needle, from + 1);
    }
}

proof fn lemma_index_from_found(hay: Seq<char>, needle: Seq<char>, from: int, at: int)
    requires
        0 <= from <= at,
        occurs_at(hay, needle, at),
        forall|j: int| from <= j < at ==> !occurs_at(hay, needle, j),
    ensures
        index_from(hay, needle, from) == Some(at),
    decreases at - from,
{
    if from < at {
        lemma_index_from_found(hay, needle, from + 1, at);
    }
}

proof fn lemma_index_from_none(hay: Seq<char>, needle: Seq<char>, from: int)
    requires
        0 <= from,
        forall|j: int| from <= j ==> !occurs_at(hay, needle, j),
    ensures
        index_from(hay, needle, from) is None,
    decreases hay.len() + 1 - from,
{
    if from <= hay.len() {
        lemma_index_from_none(hay, needle, from + 1);
    }
}

/// `index_from`, computed.
pub fn find_index(hay: &Vec<char>, needle: &Vec<char>, from: usize) -> (r: Option<usize>)
    ensures
        match r {
            Some(at) => index_from(hay@, needle@, from as int) == Some(at as int),
            None => index_from(hay@, needle@, from as int) is None,
        },
{
    let r = find_from(hay, needle, from);
    proof {
        match r {
            Some(at) => lemma_index_from_found(hay@, needle@, from as int, at as int),
            None => lemma_index_from_none(hay@, needle@, from as int),
        }
    }
    r
}

pub fn contains_chars(hay: &Vec<char>, needle: &Vec<char>) -> (b: bool)
    ensures
        b == contains(hay@, needle@),
{
    match find_from(hay, needle, 0) {
        Some(at) => true,
        None => {
            assert forall|j: int| !occurs_at(hay@, needle@, j) by {
                if 0 <= j {
                }
            }
            false
        },
    }
}

pub fn ends_with_chars(hay: &Vec<char>, needle: &Vec<char>) -> (b: bool)
    ensures
        b == ends_with(hay@, needle@),
{
    if needle.len() > hay.len() {
        false
    } else {
        matches_at(hay, needle, hay.len() - needle.len())
    }
}

pub fn starts_with_chars(hay: &Vec<char>, needle: &Vec<char>) -> (b: bool)
    ensures
        b == starts_with(hay@, needle@),
{
    matches_at(hay, needle, 0)
}

/// `hay[from..to]` as characters.
pub fn slice_chars(hay: &Vec<char>, from: usize, to: usize) -> (out: Vec<char>)
    requires
        from <= to <= hay.len(),
    ensures
        out@ == hay@.subrange(from as int, to as int),
{
    let mut out: Vec<char> = Vec::new();
    let mut k = from;
    while k < to
        invariant
            from <= k <= to <= hay.len(),
            out@ == hay@.subrange(from as int, k as int),
        decreases to - k,
    {
        out.push(hay[k]);
        k += 1;
        assert(out@ =~= hay@.subrange(from as int, k as int));
    }
    out
}

/// At most the first `max` characters.
pub fn take_chars(hay: &Vec<char>, max: usize) -> (out: Vec<char>)
    ensures
        out@ == hay@.take(if max < hay.len() { max as int } else { hay.len() as int }),
{
    let end = if max < hay.len() {
        max
    } else {
        hay.len()
    };
    slice_chars(hay, 0, end)
}

/// Whether `c` is one of `set`.
pub fn char_in(c: char, set: &Vec<char>) -> (b: bool)
    ensures
        b == set@.contains(c),
{
    let mut i: usize = 0;
    while i < set.len()
        invariant
            i <= set.len(),
            forall|j: int| 0 <= j < i ==> set@[j] != c,
        decreases set.len() - i,
    {
        if set[i] == c {
            assert(set@[i as int] == c);
            return true;
        }
        i += 1;
    }
    false
}

// ==================== decimal numbers ====================

pub open spec fn digit_char(d: nat) -> char {
    ((d % 10) + 48) as char
}

/// The decimal digits of `n`, most significant first, without leading zeros.
pub open spec fn decimal(n: nat) -> Seq<char>
    decreases n,
{
    if n < 10 {
        seq![digit_char(n)]
    } else {
        decimal(n / 10).push(digit_char(n % 10))
    }
}

/// The decimal rendering of a signed integer.
pub open spec fn signed_decimal(n: int) -> Seq<char> {
    if n < 0 {
        seq!['-'] + decimal((-n) as nat)
    } else {
        decimal(n as nat)
    }
}

fn digit_of(d: u64) -> (c: char)
    requires
        d < 10,
    ensures
        c == digit_char(d as nat),
{
    ((d as u8) + 48) as char
}

/// Decimal digits of an unsigned number.
pub fn u64_digits(n: u64) -> (out: Vec<char>)
    ensures
        out@ == decimal(n as nat),
{
    let mut out: Vec<char> = Vec::new();
    let mut m = n;
    out.push(digit_of(m % 10));
    while m >= 10
        invariant
            decimal(n as nat) == decimal(m as nat) + out@.drop_first(),
            out@.len() >= 1,
            out@[0] == digit_char(m as nat),
        decreases m,
    {
        let ghost old_out = out@;
        let ghost old_m = m;
        m = m / 10;
        out.insert(0, digit_of(m % 10));
        assert(decimal(old_m as nat) == decimal(m as nat).push(digit_char(old_m as nat)));
        assert(out@.drop_first() =~= seq![old_out[0]] + old_out.drop_first());
        assert(decimal(m as nat).push(digit_char(old_m as nat)) + old_out.drop_first()
            =~= decimal(m as nat) + (seq![old_out[0]] + old_out.drop_first()));
    }
    assert(out@ =~= seq![out@[0]] + out@.drop_first());
    out
}

/// `n.to_string()` for an unsigned number.
pub fn u64_text(n: u64) -> (out: String)
    ensures
        out@ == decimal(n as nat),
{
    string_of(&u64_digits(n))
}

/// `n.to_string()` for a signed number.
pub fn i64_text(n: i64) -> (out: String)
    ensures
        out@ == signed_decimal(n as int),
{
    if n < 0 {
        let magnitude: u64 = if n == i64::MIN {
            9223372036854775808u64
        } else {
            (-n) as u64
        };
        let mut out = String::new();
        out.push('-');
        let digits = u64_digits(magnitude);
        push_chars(&mut out, &digits);
        assert(out@ =~= seq!['-'] + decimal((-n) as nat));
        out
    } else {
        u64_text(n as u64)
    }
}

// ==================== integer parsing ====================

pub open spec fn is_digit(c: char) -> bool {
    '0' <= c && c <= '9'
}

pub open spec fn all_digits(s: Seq<char>) -> bool {
    forall|i: int| 0 <= i < s.len() ==> is_digit(#[trigger] s[i])
}

/// The value of a run of decimal digits.
pub open spec fn digits_value(s: Seq<char>) -> nat
    decreases s.len(),
{
    if s.len() == 0 {
        0
    } else {
        digits_value(s.drop_last()) * 10 + ((s.last() as u32) - 48) as nat
    }
}

/// The digits after an optional sign character.
pub open spec fn unsigned_body(s: Seq<char>) -> Seq<char> {
    if s.len() > 0 && s[0] == '+' {
        s.drop_first()
    } else {
        s
    }
}

/// What `str::parse::<u64>` accepts: an optional `+`, then at least one digit,
/// with a value that fits.
pub open spec fn parses_unsigned(s: Seq<char>, max: int) -> Option<int> {
    let body = unsigned_body(s);
    if body.len() > 0 && all_digits(body) && digits_value(body) <= max {
        Some(digits_value(body) as int)
    } else {
        None
    }
}

/// What `str::parse::<i64>` accepts: an optional `+` or `-`, then at least one
/// digit, with a value in range.
pub open spec fn parses_i64(s: Seq<char>) -> Option<int> {
    if s.len() > 0 && s[0] == '-' {
        let body = s.drop_first();
        if body.len() > 0 && all_digits(body) && digits_value(body) <= 9223372036854775808 {
            Some(-(digits_value(body) as int))
        } else {
            None
        }
    } else {
        parses_unsigned(s, i64::MAX as int)
    }
}

pub proof fn lemma_prefix_value(s: Seq<char>, k: int)
    requires
        0 <= k <= s.len(),
        all_digits(s),
    ensures
        digits_value(s.take(k)) <= digits_value(s),
    decreases s.len(),
{
    if k < s.len() {
        assert(s.drop_last().take(k) =~= s.take(k));
        lemma_prefix_value(s.drop_last(), k);
    } else {
        assert(s.take(k) =~= s);
    }
}

/// Parses a run of digits `v[from..to]` into a value not above `max`.
fn digits_upto(v: &Vec<char>, from: usize, to: usize, max: u64) -> (r: Option<u64>)
    requires
        from <= to <= v.len(),
    ensures
        ({
            let body = v@.subrange(from as int, to as int);
            match r {
                Some(x) => body.len() > 0 && all_digits(body) && digits_value(body) == x
                    && x <= max,
                None => !(body.len() > 0 && all_digits(body) && digits_value(body) <= max),
            }
        }),
{
    let ghost body = v@.subrange(from as int, to as int);
    if from == to {
        return None;
    }
    let mut acc: u64 = 0;
    let mut k = from;
    assert(body.take(0) =~= Seq::<char>::empty());
    while k < to
        invariant
            from <= k <= to <= v.len(),
            body == v@.subrange(from as int, to as int),
            all_digits(body.take(k - from)),
            acc as nat == digits_value(body.take(k - from)),
            acc <= max,
        decreases to - k,
    {
        let c = v[k];
        if !('0' <= c && c <= '9') {
            assert(body[k - from] == c);
            return None;
        }
        let d = ((c as u32) - 48) as u64;
        assert(body.take(k + 1 - from).drop_last() =~= body.take(k - from));
        assert(body.take(k + 1 - from).last() == c);
        if d > max || acc > (max - d) / 10 {
            assert(digits_value(body.take(k + 1 - from)) > max) by (nonlinear_arith)
                requires
                    digits_value(body.take(k + 1 - from)) == acc * 10 + d,
                    d > max || acc > (max - d) / 10,
            ;
            proof {
                assert(all_digits(body.take(k + 1 - from)));
                if all_digits(body) {
                    lemma_prefix_value(body, k + 1 - from);
                }
            }
            return None;
        }
        assert(acc * 10 + d <= max) by (nonlinear_arith)
            requires
                acc <= (max - d) / 10,
                d <= max,
        ;
        acc = acc * 10 + d;
        k += 1;
        assert(all_digits(body.take(k - from)));
    }
    assert(body.take(to - from) =~= body);
    Some(acc)
}

/// `s.parse::<u64>()` restricted to values up to `max`; `None` where it fails.
pub fn parse_unsigned(v: &Vec<char>, max: u64) -> (r: Option<u64>)
    ensures
        match r {
            Some(x) => parses_unsigned(v@, max as int) == Some(x as int),
            None => parses_unsigned(v@, max as int) is None,
        },
{
    let from: usize = if v.len() > 0 && v[0] == '+' {
        1
    } else {
        0
    };
    assert(unsigned_body(v@) =~= v@.subrange(from as int, v@.len() as int));
    digits_upto(v, from, v.len(), max)
}

/// `s.parse::<i64>()`; `None` where it fails.
pub fn parse_i64(v: &Vec<char>) -> (r: Option<i64>)
    ensures
        match r {
            Some(x) => parses_i64(v@) == Some(x as int),
            None => parses_i64(v@) is None,
        },
{
    if v.len() > 0 && v[0] == '-' {
        assert(v@.drop_first() =~= v@.subrange(1, v@.len() as int));
        match digits_upto(v, 1, v.len(), 9223372036854775808u64) {
            Some(m) => {
                if m == 9223372036854775808u64 {
                    Some(i64::MIN)
                } else {
                    Some(-(m as i64))
                }
            },
            None => None,
        }
    } else {
        match parse_unsigned(v, i64::MAX as u64) {
            Some(m) => Some(m as i64),
            None => None,
        }
    }
}

// ==================== keyword tables ====================

/// The character views of a list of character vectors.
pub open spec fn views(keys: Seq<Vec<char>>) -> Seq<Seq<char>> {
    keys.map_values(|v: Vec<char>| v@)
}

/// Whether `hay` contains any of `keys`.
pub open spec fn contains_any(hay: Seq<char>, keys: Seq<Seq<char>>) -> bool {
    exists|k: int| 0 <= k < keys.len() && contains(hay, #[trigger] keys[k])
}

pub fn contains_any_chars(hay: &Vec<char>, keys: &Vec<Vec<char>>) -> (b: bool)
    ensures
        b == contains_any(hay@, views(keys@)),
{
    let mut k: usize = 0;
    while k < keys.len()
        invariant
            k <= keys@.len(),
            forall|j: int| 0 <= j < k ==> !contains(hay@, #[trigger] views(keys@)[j]),
        decreases keys@.len() - k,
    {
        if contains_chars(hay, &keys[k]) {
            assert(contains(hay@, views(keys@)[k as int]));
            return true;
        }
        k += 1;
    }
    false
}

/// Drops trailing white space in place.
pub fn trim_end_in_place(v: &mut Vec<char>)
    ensures
        final(v)@ == trim_end(old(v)@),
{
    while v.len() > 0 && is_whitespace(v[v.len() - 1])
        invariant
            trim_end(old(v)@) == trim_end(v@),
        decreases v@.len(),
    {
        let ghost before = v@;
        v.pop();
        assert(before.drop_last() =~= v@);
    }
}

/// ASCII punctuation, as `char::is_ascii_punctuation` tests it.
pub open spec fn is_ascii_punct(c: char) -> bool {
    let u = c as u32;
    (33 <= u <= 47) || (58 <= u <= 64) || (91 <= u <= 96) || (123 <= u <= 126)
}

pub fn is_ascii_punctuation(c: char) -> (b: bool)
    ensures
        b == is_ascii_punct(c),
{
    let u = c as u32;
    (33 <= u && u <= 47) || (58 <= u && u <= 64) || (91 <= u && u <= 96) || (123 <= u && u
        <= 126)
}

/// What `char::to_lowercase` yields for a character: the Unicode lowercase
/// mapping, one to three characters.
pub uninterp spec fn unicode_lower(c: char) -> Seq<char>;

/// `char::to_lowercase`, collected. The standard library documents that the
/// result depends on the character alone, and that an ASCII character maps as
/// `to_ascii_lowercase` does; both are stated here and nothing more.
#[verifier::external_body]
pub fn char_lowercase(c: char) -> (out: Vec<char>)
    ensures
        out@ == unicode_lower(c),
        (c as u32) < 128 ==> out@ == seq![lower(c)],
{
    c.to_lowercase().collect()
}

/// What `char::is_alphanumeric` answers: the Unicode Alphabetic or Numeric
/// property.
pub uninterp spec fn unicode_alphanumeric(c: char) -> bool;

/// `char::is_alphanumeric`. The standard library documents that ASCII letters
/// and digits are alphanumeric and other ASCII characters are not.
#[verifier::external_body]
pub fn char_is_alphanumeric(c: char) -> (b: bool)
    ensures
        b == unicode_alphanumeric(c),
        (c as u32) < 128 ==> (b == (('a' <= c && c <= 'z') || ('A' <= c && c <= 'Z') || ('0' <= c
            && c <= '9'))),
{
    c.is_alphanumeric()
}

/// Whether two character vectors hold the same characters.
pub fn same_chars(a: &Vec<char>, b: &Vec<char>) -> (r: bool)
    ensures
        r == (a@ == b@),
{
    if a.len() != b.len() {
        return false;
    }
    let mut i: usize = 0;
    while i < a.len()
        invariant
            a@.len() == b@.len(),
            i <= a@.len(),
            forall|j: int| 0 <= j < i ==> a@[j] == b@[j],
        decreases a@.len() - i,
    {
        if a[i] != b[i] {
            return false;
        }
        i += 1;
    }
    assert(a@ =~= b@);
    true
}

// ==================== one character at the ends ====================

/// `str::trim_end_matches(c)`: every trailing `c` removed.
pub open spec fn trim_end_char(s: Seq<char>, c: char) -> Seq<char>
    decreases s.len(),
{
    if s.len() > 0 && s.last() == c {
        trim_end_char(s.drop_last(), c)
    } else {
        s
    }
}

/// `str::trim_start_matches(c)`: every leading `c` removed.
pub open spec fn trim_start_char(s: Seq<char>, c: char) -> Seq<char>
    decreases s.len(),
{
    if s.len() > 0 && s[0] == c {
        trim_start_char(s.drop_first(), c)
    } else {
        s
    }
}

pub fn strip_trailing(v: &Vec<char>, c: char) -> (out: Vec<char>)
    ensures
        out@ == trim_end_char(v@, c),
{
    let mut end: usize = v.len();
    assert(v@.take(end as int) =~= v@);
    while end > 0 && v[end - 1] == c
        invariant
            end <= v@.len(),
            trim_end_char(v@, c) == trim_end_char(v@.take(end as int), c),
        decreases end,
    {
        assert(v@.take(end as int).drop_last() =~= v@.take(end - 1));
        end -= 1;
    }
    slice_chars(v, 0, end)
}

pub fn strip_leading(v: &Vec<char>, c: char) -> (out: Vec<char>)
    ensures
        out@ == trim_start_char(v@, c),
{
    let mut start: usize = 0;
    assert(v@.skip(0) =~= v@);
    while start < v.len() && v[start] == c
        invariant
            start <= v@.len(),
            trim_start_char(v@, c) == trim_start_char(v@.skip(start as int), c),
        decreases v@.len() - start,
    {
        assert(v@.skip(start as int).drop_first() =~= v@.skip(start + 1));
        start += 1;
    }
    assert(v@.skip(start as int) =~= v@.subrange(start as int, v@.len() as int));
    slice_chars(v, start, v.len())
}

pub open spec fn is_ascii_char(c: char) -> bool {
    (c as u32) < 128
}

pub open spec fn is_ascii_alnum(c: char) -> bool {
    ('0' <= c && c <= '9') || ('a' <= c && c <= 'z') || ('A' <= c && c <= 'Z')
}

pub fn all_ascii(v: &Vec<char>) -> (b: bool)
    ensures
        b == forall|i: int| 0 <= i < v@.len() ==> is_ascii_char(#[trigger] v@[i]),
{
    let mut i: usize = 0;
    while i < v.len()
        invariant
            i <= v@.len(),
            forall|j: int| 0 <= j < i ==> is_ascii_char(#[trigger] v@[j]),
        decreases v@.len() - i,
    {
        if (v[i] as u32) >= 128 {
            assert(!is_ascii_char(v@[i as int]));
            return false;
        }
        i += 1;
    }
    true
}

pub fn all_ascii_alnum(v: &Vec<char>) -> (b: bool)
    ensures
        b == forall|i: int| 0 <= i < v@.len() ==> is_ascii_alnum(#[trigger] v@[i]),
{
    let mut i: usize = 0;
    while i < v.len()
        invariant
            i <= v@.len(),
            forall|j: int| 0 <= j < i ==> is_ascii_alnum(#[trigger] v@[j]),
        decreases v@.len() - i,
    {
        let c = v[i];
        if !(('0' <= c && c <= '9') || ('a' <= c && c <= 'z') || ('A' <= c && c <= 'Z')) {
            assert(!is_ascii_alnum(v@[i as int]));
            return false;
        }
        i += 1;
    }
    true
}

} // verus!
