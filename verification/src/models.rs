//! The projection layer of a persona: two readings of behaviour onto
//! existing frameworks — the four MBTI axes and the Enneagram core.
//!
//! Both are rulers, not verdicts. This module defines the two frameworks,
//! brings model output back into range (a score of 130, a type 12), and turns
//! the numbers into the words and percentages a card needs.

use vstd::prelude::*;
use crate::text::{decimal, chars_of, push_chars, u64_digits};

verus! {

// ==================== MBTI axes ====================

/// Each axis holds an integer in -100..=100: positive leans to the capital
/// pole (E/S/T/J), negative to the other (I/N/F/P), the magnitude is strength.
#[derive(Debug, Clone, Copy, Default)]
pub struct Mbti {
    pub energy: i32,
    pub perceiving: i32,
    pub deciding: i32,
    pub lifestyle: i32,
}

pub open spec fn clamp_to(value: int, low: int, high: int) -> int {
    if value < low {
        low
    } else if value > high {
        high
    } else {
        value
    }
}

pub open spec fn axis_range(value: int) -> int {
    clamp_to(value, -100, 100)
}

/// Integer division by two, rounding toward zero as Rust does.
pub open spec fn half_toward_zero(value: int) -> int {
    if value >= 0 {
        value / 2
    } else {
        -((-value) / 2)
    }
}

/// The pole a score sits on: zero and above take the first pole.
pub open spec fn pole(score: i32, first: char, second: char) -> char {
    if score >= 0 {
        first
    } else {
        second
    }
}

impl Mbti {
    /// The reference code, such as `INTJ`.
    pub open spec fn code_chars(self) -> Seq<char> {
        seq![
            pole(self.energy, 'E', 'I'),
            pole(self.perceiving, 'S', 'N'),
            pole(self.deciding, 'T', 'F'),
            pole(self.lifestyle, 'J', 'P'),
        ]
    }

    /// The four axes in the classic order E/I, S/N, T/F, J/P; cards draw them
    /// in this order.
    pub fn axes(&self) -> (out: [(&'static str, &'static str, i32); 4])
        ensures
            out@ == seq![
                ("E", "I", self.energy),
                ("S", "N", self.perceiving),
                ("T", "F", self.deciding),
                ("J", "P", self.lifestyle),
            ],
    {
        let out = [
            ("E", "I", self.energy),
            ("S", "N", self.perceiving),
            ("T", "F", self.deciding),
            ("J", "P", self.lifestyle),
        ];
        assert(out@ =~= seq![
            ("E", "I", self.energy),
            ("S", "N", self.perceiving),
            ("T", "F", self.deciding),
            ("J", "P", self.lifestyle),
        ]);
        out
    }

    /// The reference code derived from the four axes, such as `INTJ`. Zero and
    /// positive scores take the capital pole. It is a by-product of the
    /// spectrum, not a conclusion.
    pub fn code(&self) -> (out: String)
        ensures
            out@ == self.code_chars(),
    {
        let mut out = String::new();
        out.push(if self.energy >= 0 { 'E' } else { 'I' });
        out.push(if self.perceiving >= 0 { 'S' } else { 'N' });
        out.push(if self.deciding >= 0 { 'T' } else { 'F' });
        out.push(if self.lifestyle >= 0 { 'J' } else { 'P' });
        assert(out@ =~= self.code_chars());
        out
    }

    /// Every axis clamped back into -100..=100.
    pub fn sanitized(self) -> (out: Self)
        ensures
            out.energy == axis_range(self.energy as int),
            out.perceiving == axis_range(self.perceiving as int),
            out.deciding == axis_range(self.deciding as int),
            out.lifestyle == axis_range(self.lifestyle as int),
    {
        Self {
            energy: clamp_axis(self.energy),
            perceiving: clamp_axis(self.perceiving),
            deciding: clamp_axis(self.deciding),
            lifestyle: clamp_axis(self.lifestyle),
        }
    }

    /// The common name of the reference code, such as 建筑师.
    pub fn epithet(&self) -> (name: &'static str)
        ensures
            name == epithet_for(self.code_chars()),
    {
        let code = self.code();
        epithet_of(code.as_str())
    }
}

/// Sanitising twice is sanitising once, and a sanitised code only moves where
/// a score crossed zero — which clamping never does.
pub proof fn lemma_mbti_sanitize_stable(m: Mbti, s: Mbti)
    requires
        s.energy == axis_range(m.energy as int),
        s.perceiving == axis_range(m.perceiving as int),
        s.deciding == axis_range(m.deciding as int),
        s.lifestyle == axis_range(m.lifestyle as int),
    ensures
        axis_range(s.energy as int) == s.energy,
        axis_range(s.perceiving as int) == s.perceiving,
        axis_range(s.deciding as int) == s.deciding,
        axis_range(s.lifestyle as int) == s.lifestyle,
        s.code_chars() == m.code_chars(),
{
}

fn clamp_axis(value: i32) -> (out: i32)
    ensures
        out == axis_range(value as int),
{
    if value < -100 {
        -100
    } else if value > 100 {
        100
    } else {
        value
    }
}

/// How far an axis leans toward its capital pole, 0..=100 with 50 the
/// middle: +80 gives 90, -30 gives 35, 0 gives 50.
pub fn axis_lean(score: i32) -> (lean: u8)
    ensures
        lean == 50 + half_toward_zero(axis_range(score as int)),
        lean <= 100,
{
    let clamped = clamp_axis(score);
    let half: i32 = if clamped >= 0 {
        clamped / 2
    } else {
        -((-clamped) / 2)
    };
    (50 + half) as u8
}

/// The Chinese name of a single pole letter, drawn at the ends of an axis.
pub open spec fn pole_name(pole: char) -> &'static str {
    if pole == 'E' {
        "外向"
    } else if pole == 'I' {
        "内向"
    } else if pole == 'S' {
        "实感"
    } else if pole == 'N' {
        "直觉"
    } else if pole == 'T' {
        "思考"
    } else if pole == 'F' {
        "情感"
    } else if pole == 'J' {
        "判断"
    } else if pole == 'P' {
        "知觉"
    } else {
        ""
    }
}

pub fn pole_short(pole: char) -> (name: &'static str)
    ensures
        name == pole_name(pole),
{
    match pole {
        'E' => "外向",
        'I' => "内向",
        'S' => "实感",
        'N' => "直觉",
        'T' => "思考",
        'F' => "情感",
        'J' => "判断",
        'P' => "知觉",
        _ => "",
    }
}

/// The sixteen common names.
pub open spec fn epithet_for(code: Seq<char>) -> &'static str {
    if code == seq!['I', 'N', 'T', 'J'] {
        "建筑师"
    } else if code == seq!['I', 'N', 'T', 'P'] {
        "逻辑学家"
    } else if code == seq!['E', 'N', 'T', 'J'] {
        "指挥官"
    } else if code == seq!['E', 'N', 'T', 'P'] {
        "辩论家"
    } else if code == seq!['I', 'N', 'F', 'J'] {
        "提倡者"
    } else if code == seq!['I', 'N', 'F', 'P'] {
        "调停者"
    } else if code == seq!['E', 'N', 'F', 'J'] {
        "主人公"
    } else if code == seq!['E', 'N', 'F', 'P'] {
        "竞选者"
    } else if code == seq!['I', 'S', 'T', 'J'] {
        "物流师"
    } else if code == seq!['I', 'S', 'F', 'J'] {
        "守卫者"
    } else if code == seq!['E', 'S', 'T', 'J'] {
        "总经理"
    } else if code == seq!['E', 'S', 'F', 'J'] {
        "执政官"
    } else if code == seq!['I', 'S', 'T', 'P'] {
        "鉴赏家"
    } else if code == seq!['I', 'S', 'F', 'P'] {
        "探险家"
    } else if code == seq!['E', 'S', 'T', 'P'] {
        "企业家"
    } else if code == seq!['E', 'S', 'F', 'P'] {
        "表演者"
    } else {
        ""
    }
}

fn is_code(v: &Vec<char>, a: char, b: char, c: char, d: char) -> (r: bool)
    ensures
        r == (v@ == seq![a, b, c, d]),
{
    if v.len() == 4 && v[0] == a && v[1] == b && v[2] == c && v[3] == d {
        assert(v@ =~= seq![a, b, c, d]);
        true
    } else {
        proof {
            if v@ == seq![a, b, c, d] {
                assert(v@[0] == a && v@[1] == b && v@[2] == c && v@[3] == d);
            }
        }
        false
    }
}

fn epithet_of(code: &str) -> (name: &'static str)
    ensures
        name == epithet_for(code@),
{
    let v = chars_of(code);
    if is_code(&v, 'I', 'N', 'T', 'J') {
        "建筑师"
    } else if is_code(&v, 'I', 'N', 'T', 'P') {
        "逻辑学家"
    } else if is_code(&v, 'E', 'N', 'T', 'J') {
        "指挥官"
    } else if is_code(&v, 'E', 'N', 'T', 'P') {
        "辩论家"
    } else if is_code(&v, 'I', 'N', 'F', 'J') {
        "提倡者"
    } else if is_code(&v, 'I', 'N', 'F', 'P') {
        "调停者"
    } else if is_code(&v, 'E', 'N', 'F', 'J') {
        "主人公"
    } else if is_code(&v, 'E', 'N', 'F', 'P') {
        "竞选者"
    } else if is_code(&v, 'I', 'S', 'T', 'J') {
        "物流师"
    } else if is_code(&v, 'I', 'S', 'F', 'J') {
        "守卫者"
    } else if is_code(&v, 'E', 'S', 'T', 'J') {
        "总经理"
    } else if is_code(&v, 'E', 'S', 'F', 'J') {
        "执政官"
    } else if is_code(&v, 'I', 'S', 'T', 'P') {
        "鉴赏家"
    } else if is_code(&v, 'I', 'S', 'F', 'P') {
        "探险家"
    } else if is_code(&v, 'E', 'S', 'T', 'P') {
        "企业家"
    } else if is_code(&v, 'E', 'S', 'F', 'P') {
        "表演者"
    } else {
        ""
    }
}

// ==================== Enneagram core ====================

/// A core type one to nine plus one wing. The wing is a neighbour of the core:
/// type one's wings are 9 and 2, type nine's are 8 and 1, the others ±1.
#[derive(Debug, Clone, Copy, Default)]
pub struct Enneagram {
    pub number: u8,
    pub wing: u8,
}

/// Whether `wing` neighbours `number` on the circle of nine.
pub open spec fn neighbours(number: int, wing: int) -> bool {
    (wing + 1 == number || wing == number + 1 && number < 9) || (number == 1 && wing == 9) || (
    number == 9 && wing == 1)
}

/// What `sanitized` makes of a reading.
pub open spec fn sanitized_reading(e: Enneagram) -> Option<Enneagram> {
    if 1 <= e.number <= 9 {
        Some(
            Enneagram {
                number: e.number,
                wing: if e.wing != 0 && neighbours(e.number as int, e.wing as int) {
                    e.wing
                } else {
                    0
                },
            },
        )
    } else {
        None
    }
}

pub open spec fn short_code(e: Enneagram) -> Seq<char> {
    if e.wing == 0 {
        decimal(e.number as nat)
    } else {
        decimal(e.number as nat) + seq!['w'] + decimal(e.wing as nat)
    }
}

pub open spec fn ennea_name_of(number: u8) -> &'static str {
    if number == 1 {
        "完美主义者"
    } else if number == 2 {
        "助人者"
    } else if number == 3 {
        "成就者"
    } else if number == 4 {
        "个人主义者"
    } else if number == 5 {
        "观察者"
    } else if number == 6 {
        "忠诚者"
    } else if number == 7 {
        "活跃者"
    } else if number == 8 {
        "挑战者"
    } else if number == 9 {
        "调停者"
    } else {
        ""
    }
}

pub open spec fn ennea_motif_of(number: u8) -> &'static str {
    if number == 1 {
        "怕自己有错，用标准与修正握住世界"
    } else if number == 2 {
        "怕不被需要，用给予换一处安放"
    } else if number == 3 {
        "怕没有价值，把成绩当成自己的脸"
    } else if number == 4 {
        "怕平庸，在独有的情绪与品味里认自己"
    } else if number == 5 {
        "怕被吞没，退到知识与距离背后自保"
    } else if number == 6 {
        "怕失去依靠，在忠诚与质疑之间来回"
    } else if number == 7 {
        "怕被痛苦困住，用更多可能逃开当下"
    } else if number == 8 {
        "怕被掌控，用强度与直接护住自己"
    } else if number == 9 {
        "怕失联，用迁就来避开一切冲突"
    } else {
        ""
    }
}

impl Enneagram {
    /// Core type brought into 1..=9, wing kept only when it neighbours the
    /// core (else 0). An illegal core discards the whole reading.
    pub fn sanitized(self) -> (out: Option<Self>)
        ensures
            out == sanitized_reading(self),
    {
        if !(1 <= self.number && self.number <= 9) {
            return None;
        }
        let wing = if self.wing != 0 && adjacent(self.number, self.wing) {
            self.wing
        } else {
            0
        };
        Some(Self { number: self.number, wing })
    }

    /// The short code 「5w4」; the bare core when there is no wing.
    pub fn short(&self) -> (out: String)
        ensures
            out@ == short_code(*self),
    {
        let mut out = String::new();
        push_chars(&mut out, &u64_digits(self.number as u64));
        if self.wing != 0 {
            out.push('w');
            push_chars(&mut out, &u64_digits(self.wing as u64));
        }
        out
    }

    /// The common name of the core type, such as 观察者.
    pub fn name(&self) -> (name: &'static str)
        ensures
            name == ennea_name_of(self.number),
    {
        ennea_name(self.number)
    }

    /// The core idea of the type, printed under it.
    pub fn motif(&self) -> (motif: &'static str)
        ensures
            motif == ennea_motif_of(self.number),
    {
        ennea_motif(self.number)
    }
}

/// Sanitising is idempotent, and what survives is a legal reading: a core of
/// one to nine with no wing or a neighbouring one.
pub proof fn lemma_enneagram_sanitize_stable(e: Enneagram)
    ensures
        sanitized_reading(e) matches Some(s) ==> {
            &&& 1 <= s.number <= 9
            &&& (s.wing == 0 || neighbours(s.number as int, s.wing as int))
            &&& sanitized_reading(s) == Some(s)
        },
{
}

/// The wings on the circle of nine: a core keeps a wing exactly when the
/// wing is one of the nine types and sits one step from the core either way
/// round the circle (so 9 and 1 are neighbours); any other wing is dropped,
/// and a core outside one to nine discards the reading.
pub proof fn lemma_wings_sit_next_to_the_core(number: u8, wing: u8)
    ensures
        sanitized_reading(Enneagram { number, wing }) == if 1 <= number <= 9 {
            Some(
                Enneagram {
                    number,
                    wing: if 1 <= wing <= 9 && ((number as int - wing as int) % 9 == 1 || (wing as int
                        - number as int) % 9 == 1) {
                        wing
                    } else {
                        0
                    },
                },
            )
        } else {
            None
        },
{
}

/// Every core from two to nine keeps the type below it as its wing, and
/// every core from one to eight the type above it.
pub proof fn lemma_both_neighbours_are_wings(number: u8)
    requires
        1 <= number <= 9,
    ensures
        number >= 2 ==> sanitized_reading(Enneagram { number, wing: (number - 1) as u8 }) == Some(
            Enneagram { number, wing: (number - 1) as u8 },
        ),
        number <= 8 ==> sanitized_reading(Enneagram { number, wing: (number + 1) as u8 }) == Some(
            Enneagram { number, wing: (number + 1) as u8 },
        ),
{
    lemma_wings_sit_next_to_the_core(number, (number - 1) as u8);
    lemma_wings_sit_next_to_the_core(number, (number + 1) as u8);
}

/// Whether the wing neighbours the core.
fn adjacent(number: u8, wing: u8) -> (r: bool)
    ensures
        r == neighbours(number as int, wing as int),
{
    let number = number as u16;
    let wing = wing as u16;
    (wing + 1 == number || wing == number + 1 && number < 9) || (number == 1 && wing == 9) || (
    number == 9 && wing == 1)
}

fn ennea_name(number: u8) -> (name: &'static str)
    ensures
        name == ennea_name_of(number),
{
    match number {
        1 => "完美主义者",
        2 => "助人者",
        3 => "成就者",
        4 => "个人主义者",
        5 => "观察者",
        6 => "忠诚者",
        7 => "活跃者",
        8 => "挑战者",
        9 => "调停者",
        _ => "",
    }
}

fn ennea_motif(number: u8) -> (motif: &'static str)
    ensures
        motif == ennea_motif_of(number),
{
    match number {
        1 => "怕自己有错，用标准与修正握住世界",
        2 => "怕不被需要，用给予换一处安放",
        3 => "怕没有价值，把成绩当成自己的脸",
        4 => "怕平庸，在独有的情绪与品味里认自己",
        5 => "怕被吞没，退到知识与距离背后自保",
        6 => "怕失去依靠，在忠诚与质疑之间来回",
        7 => "怕被痛苦困住，用更多可能逃开当下",
        8 => "怕被掌控，用强度与直接护住自己",
        9 => "怕失联，用迁就来避开一切冲突",
        _ => "",
    }
}

} // verus!
