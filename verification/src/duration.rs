//! The value of a human-readable duration text (`1h 30min`, `4.2s`), summed
//! span by span in nanoseconds as the text is read left to right.
//!
//! A duration text is a run of spans, each a number (digits, whitespace
//! between them ignored, and an optional `.` with more digits) followed by a
//! unit word (ASCII letters and `µ`). A span ends where whitespace or the
//! next number's first digit begins. The scan stops for good, keeping what it
//! has summed, where the text cannot go on: a character that has no place
//! there, a number above `u64::MAX`, a fraction of more than nineteen digits,
//! a `.` with no digit after it, or a word that names no unit. It goes on
//! through spans whose values do not fit a `u64` or divide evenly: those
//! still add to the sum.
use vstd::prelude::*;
use vstd::string::StrSliceExecFns;

verus! {

/// The largest `u64`.
pub open spec fn u64_limit() -> nat {
    0xffff_ffff_ffff_ffff
}

/// One more second than `u64::MAX` seconds, in nanoseconds.
pub open spec fn nanos_limit() -> nat {
    18_446_744_073_709_551_616_000_000_000
}

/// An ASCII decimal digit.
pub open spec fn is_digit_char(c: char) -> bool {
    '0' <= c <= '9'
}

/// The value of a decimal digit.
pub open spec fn digit_value(c: char) -> nat {
    (c as int - 0x30) as nat
}

/// A character of a unit word: an ASCII letter or `µ`.
pub open spec fn is_unit_char(c: char) -> bool {
    ('a' <= c <= 'z') || ('A' <= c <= 'Z') || c == '\u{b5}'
}

/// Whitespace, as `char::is_whitespace` has it (Unicode `White_Space`).
pub open spec fn is_space_char(c: char) -> bool {
    ||| '\u{9}' <= c <= '\u{d}'
    ||| c == ' '
    ||| c == '\u{85}'
    ||| c == '\u{a0}'
    ||| c == '\u{1680}'
    ||| '\u{2000}' <= c <= '\u{200a}'
    ||| c == '\u{2028}'
    ||| c == '\u{2029}'
    ||| c == '\u{202f}'
    ||| c == '\u{205f}'
    ||| c == '\u{3000}'
}

/// Nanoseconds in one of the unit named by a word, or 0 where the word
/// names no unit. A month is 30.44 days, a year 365.25 days.
pub open spec fn unit_nanos(u: Seq<char>) -> nat {
    if u == "nanos"@ || u == "nsec"@ || u == "ns"@ {
        1
    } else if u == "usec"@ || u == "us"@ || u == "\u{b5}s"@ {
        1000
    } else if u == "millis"@ || u == "msec"@ || u == "ms"@ {
        1_000_000
    } else if u == "seconds"@ || u == "second"@ || u == "secs"@ || u == "sec"@ || u == "s"@ {
        1_000_000_000
    } else if u == "minutes"@ || u == "minute"@ || u == "min"@ || u == "mins"@ || u == "m"@ {
        60_000_000_000
    } else if u == "hours"@ || u == "hour"@ || u == "hr"@ || u == "hrs"@ || u == "h"@ {
        3_600_000_000_000
    } else if u == "days"@ || u == "day"@ || u == "d"@ {
        86_400_000_000_000
    } else if u == "weeks"@ || u == "week"@ || u == "wk"@ || u == "wks"@ || u == "w"@ {
        604_800_000_000_000
    } else if u == "months"@ || u == "month"@ || u == "M"@ {
        2_630_016_000_000_000
    } else if u == "years"@ || u == "year"@ || u == "yr"@ || u == "yrs"@ || u == "y"@ {
        31_557_600_000_000_000
    } else {
        0
    }
}

/// What the fraction `numerator / denominator` of a unit of `scale`
/// nanoseconds adds: nothing below a microsecond, whole nanoseconds up to a
/// minute, and whole seconds for longer units.
pub open spec fn fraction_nanos(scale: nat, numerator: nat, denominator: nat) -> nat {
    if scale <= 1 {
        0
    } else if scale <= 60_000_000_000 {
        numerator * scale / denominator
    } else {
        numerator * (scale / 1_000_000_000) / denominator * 1_000_000_000
    }
}

/// Where the scan of a duration text stands.
#[derive(Clone, Copy)]
pub enum ScanPhase {
    /// Before a number: only whitespace so far.
    Lead,
    /// In the digits of a number.
    Number,
    /// In the digits after a number's `.`.
    Fraction,
    /// In a unit word.
    Unit,
    /// The text cannot go on; nothing more is added.
    Stopped,
}

/// The state of the scan: the phase, the span being read (its number, its
/// fraction as `numerator / denominator`, its unit word) and the nanoseconds
/// of the spans finished before it.
pub struct DurationScan {
    pub phase: ScanPhase,
    pub number: nat,
    pub fraction: bool,
    pub numerator: nat,
    pub denominator: nat,
    pub unit: Seq<char>,
    pub total: nat,
}

/// The nanoseconds that the span being read adds once its unit word ends.
pub open spec fn span_nanos(st: DurationScan) -> nat {
    let scale = unit_nanos(st.unit);
    st.number * scale + if st.fraction {
        fraction_nanos(scale, st.numerator, st.denominator)
    } else {
        0
    }
}

/// The scan before the first character.
pub open spec fn scan_start() -> DurationScan {
    DurationScan {
        phase: ScanPhase::Lead,
        number: 0,
        fraction: false,
        numerator: 0,
        denominator: 1,
        unit: Seq::empty(),
        total: 0,
    }
}

/// A new span whose number begins with the digit `c`, after spans worth
/// `total` nanoseconds.
pub open spec fn scan_number(c: char, total: nat) -> DurationScan {
    DurationScan {
        phase: ScanPhase::Number,
        number: digit_value(c),
        fraction: false,
        numerator: 0,
        denominator: 1,
        unit: Seq::empty(),
        total,
    }
}

/// The scan stopped where it stands.
pub open spec fn scan_stop(st: DurationScan) -> DurationScan {
    DurationScan { phase: ScanPhase::Stopped, ..st }
}

/// The scan after one more character `c`.
pub open spec fn scan_step(st: DurationScan, c: char) -> DurationScan {
    match st.phase {
        ScanPhase::Stopped => st,
        ScanPhase::Lead => {
            if is_digit_char(c) {
                scan_number(c, st.total)
            } else if is_space_char(c) {
                st
            } else {
                scan_stop(st)
            }
        },
        ScanPhase::Number => {
            if is_digit_char(c) {
                let n = st.number * 10 + digit_value(c);
                if n > u64_limit() {
                    scan_stop(st)
                } else {
                    DurationScan { number: n, ..st }
                }
            } else if c == '.' {
                DurationScan {
                    phase: ScanPhase::Fraction,
                    fraction: true,
                    numerator: 0,
                    denominator: 1,
                    ..st
                }
            } else if is_unit_char(c) {
                DurationScan { phase: ScanPhase::Unit, unit: seq![c], ..st }
            } else if is_space_char(c) {
                st
            } else {
                scan_stop(st)
            }
        },
        ScanPhase::Fraction => {
            if is_digit_char(c) {
                if st.denominator * 10 > u64_limit() {
                    scan_stop(st)
                } else {
                    DurationScan {
                        numerator: st.numerator * 10 + digit_value(c),
                        denominator: st.denominator * 10,
                        ..st
                    }
                }
            } else if is_unit_char(c) && st.denominator > 1 {
                DurationScan { phase: ScanPhase::Unit, unit: seq![c], ..st }
            } else if is_space_char(c) {
                st
            } else {
                scan_stop(st)
            }
        },
        ScanPhase::Unit => {
            if is_unit_char(c) {
                DurationScan { unit: st.unit.push(c), ..st }
            } else if (is_digit_char(c) || is_space_char(c)) && unit_nanos(st.unit) > 0 {
                let total = st.total + span_nanos(st);
                if is_digit_char(c) {
                    scan_number(c, total)
                } else {
                    DurationScan { total, ..scan_start() }
                }
            } else {
                scan_stop(st)
            }
        },
    }
}

/// The scan after all of `s`.
pub open spec fn duration_scan(s: Seq<char>) -> DurationScan
    decreases s.len(),
{
    if s.len() == 0 {
        scan_start()
    } else {
        scan_step(duration_scan(s.drop_last()), s.last())
    }
}

/// The sum of a duration text's spans in nanoseconds, the last span counted
/// where its unit word runs to the end of the text.
pub open spec fn duration_nanos(s: Seq<char>) -> nat {
    let st = duration_scan(s);
    if st.phase == ScanPhase::Unit && unit_nanos(st.unit) > 0 {
        st.total + span_nanos(st)
    } else {
        st.total
    }
}

proof fn lemma_take_step(s: Seq<char>, i: int)
    requires
        0 <= i < s.len(),
    ensures
        s.take(i + 1).drop_last() == s.take(i),
        s.take(i + 1).last() == s[i],
{
    assert(s.take(i + 1).drop_last() =~= s.take(i));
}

/// The sum of the finished spans never shrinks as the scan goes on, and the
/// text's sum is at least that of any prefix.
proof fn lemma_total_grows(s: Seq<char>, i: int, j: int)
    requires
        0 <= i <= j <= s.len(),
    ensures
        duration_scan(s.take(i)).total <= duration_scan(s.take(j)).total,
        duration_scan(s.take(j)).total <= duration_nanos(s.take(j)),
    decreases j - i,
{
    if i < j {
        lemma_total_grows(s, i, j - 1);
        lemma_take_step(s, j - 1);
    }
}

/// The scan as the executable code holds it.
struct Scanner {
    phase: ScanPhase,
    number: u64,
    fraction: bool,
    numerator: u64,
    denominator: u64,
    unit: Vec<char>,
    total: u128,
}

impl View for Scanner {
    type V = DurationScan;

    closed spec fn view(&self) -> DurationScan {
        DurationScan {
            phase: self.phase,
            number: self.number as nat,
            fraction: self.fraction,
            numerator: self.numerator as nat,
            denominator: self.denominator as nat,
            unit: self.unit@,
            total: self.total as nat,
        }
    }
}

fn same_word(u: &Vec<char>, w: &str) -> (r: bool)
    ensures
        r == (u@ == w@),
{
    let n = w.unicode_len();
    if u.len() != n {
        return false;
    }
    let mut j: usize = 0;
    while j < n
        invariant
            n == w@.len(),
            u@.len() == n,
            j <= n,
            forall|k: int| 0 <= k < j ==> u@[k] == w@[k],
        decreases n - j,
    {
        if u[j] != w.get_char(j) {
            return false;
        }
        j = j + 1;
    }
    assert(u@ =~= w@);
    true
}

fn unit_scale(u: &Vec<char>) -> (r: u128)
    ensures
        r == unit_nanos(u@),
{
    if same_word(u, "nanos") || same_word(u, "nsec") || same_word(u, "ns") {
        1
    } else if same_word(u, "usec") || same_word(u, "us") || same_word(u, "\u{b5}s") {
        1000
    } else if same_word(u, "millis") || same_word(u, "msec") || same_word(u, "ms") {
        1_000_000
    } else if same_word(u, "seconds") || same_word(u, "second") || same_word(u, "secs") || same_word(
        u,
        "sec",
    ) || same_word(u, "s") {
        1_000_000_000
    } else if same_word(u, "minutes") || same_word(u, "minute") || same_word(u, "min") || same_word(
        u,
        "mins",
    ) || same_word(u, "m") {
        60_000_000_000
    } else if same_word(u, "hours") || same_word(u, "hour") || same_word(u, "hr") || same_word(
        u,
        "hrs",
    ) || same_word(u, "h") {
        3_600_000_000_000
    } else if same_word(u, "days") || same_word(u, "day") || same_word(u, "d") {
        86_400_000_000_000
    } else if same_word(u, "weeks") || same_word(u, "week") || same_word(u, "wk") || same_word(
        u,
        "wks",
    ) || same_word(u, "w") {
        604_800_000_000_000
    } else if same_word(u, "months") || same_word(u, "month") || same_word(u, "M") {
        2_630_016_000_000_000
    } else if same_word(u, "years") || same_word(u, "year") || same_word(u, "yr") || same_word(
        u,
        "yrs",
    ) || same_word(u, "y") {
        31_557_600_000_000_000
    } else {
        0
    }
}

fn digit_of(c: char) -> (d: u64)
    requires
        is_digit_char(c),
    ensures
        d == digit_value(c),
        d <= 9,
{
    let v: u32 = (c as u32) - ('0' as u32);
    v as u64
}

fn is_space(c: char) -> (r: bool)
    ensures
        r == is_space_char(c),
{
    ('\u{9}' <= c && c <= '\u{d}') || c == ' ' || c == '\u{85}' || c == '\u{a0}' || c == '\u{1680}'
        || ('\u{2000}' <= c && c <= '\u{200a}') || c == '\u{2028}' || c == '\u{2029}' || c
        == '\u{202f}' || c == '\u{205f}' || c == '\u{3000}'
}

fn is_unit_letter(c: char) -> (r: bool)
    ensures
        r == is_unit_char(c),
{
    ('a' <= c && c <= 'z') || ('A' <= c && c <= 'Z') || c == '\u{b5}'
}

/// The nanoseconds of the span being read, given the scale of its unit.
fn span_value(sc: &Scanner, scale: u128) -> (r: u128)
    requires
        scale == unit_nanos(sc.unit@),
        sc.numerator < sc.denominator,
    ensures
        r == span_nanos(sc@),
        r <= 1_200_000_000_000_000_000_000_000_000_000_000_000,
{
    let n = sc.number as u128;
    assert(scale <= 31_557_600_000_000_000);
    assert(n * scale <= 0xffff_ffff_ffff_ffffu128 * 31_557_600_000_000_000u128) by (nonlinear_arith)
        requires
            n <= 0xffff_ffff_ffff_ffffu128,
            scale <= 31_557_600_000_000_000u128,
    ;
    let whole = n * scale;
    if !sc.fraction {
        return whole;
    }
    let num = sc.numerator as u128;
    let den = sc.denominator as u128;
    let part: u128 = if scale <= 1 {
        0
    } else if scale <= 60_000_000_000 {
        assert(num * scale <= 0xffff_ffff_ffff_ffffu128 * 60_000_000_000u128) by (nonlinear_arith)
            requires
                num <= 0xffff_ffff_ffff_ffffu128,
                scale <= 60_000_000_000u128,
        ;
        assert(num * scale / (den as int) <= num * scale) by (nonlinear_arith)
            requires
                den >= 1,
        ;
        num * scale / den
    } else {
        let per = scale / 1_000_000_000;
        assert(per <= 31_557_600);
        assert(num * per <= 0xffff_ffff_ffff_ffffu128 * 31_557_600u128) by (nonlinear_arith)
            requires
                num <= 0xffff_ffff_ffff_ffffu128,
                per <= 31_557_600u128,
        ;
        assert(num * per / (den as int) <= num * per) by (nonlinear_arith)
            requires
                den >= 1,
        ;
        num * per / den * 1_000_000_000
    };
    whole + part
}

/// One step of the scan over the character `c`.
fn scanner_step(sc: Scanner, c: char) -> (r: Scanner)
    requires
        sc.numerator < sc.denominator,
        sc.total < nanos_limit(),
    ensures
        r@ == scan_step(sc@, c),
        r.numerator < r.denominator,
{
    match sc.phase {
        ScanPhase::Stopped => sc,
        ScanPhase::Lead => {
            if '0' <= c && c <= '9' {
                Scanner {
                    phase: ScanPhase::Number,
                    number: digit_of(c),
                    fraction: false,
                    numerator: 0,
                    denominator: 1,
                    unit: Vec::new(),
                    total: sc.total,
                }
            } else if is_space(c) {
                sc
            } else {
                Scanner { phase: ScanPhase::Stopped, ..sc }
            }
        },
        ScanPhase::Number => {
            if '0' <= c && c <= '9' {
                let n: u128 = sc.number as u128 * 10 + digit_of(c) as u128;
                if n > 0xffff_ffff_ffff_ffff {
                    Scanner { phase: ScanPhase::Stopped, ..sc }
                } else {
                    Scanner { number: n as u64, ..sc }
                }
            } else if c == '.' {
                Scanner {
                    phase: ScanPhase::Fraction,
                    fraction: true,
                    numerator: 0,
                    denominator: 1,
                    ..sc
                }
            } else if is_unit_letter(c) {
                let mut unit: Vec<char> = Vec::new();
                unit.push(c);
                proof {
                    assert(unit@ =~= seq![c]);
                }
                Scanner { phase: ScanPhase::Unit, unit, ..sc }
            } else if is_space(c) {
                sc
            } else {
                Scanner { phase: ScanPhase::Stopped, ..sc }
            }
        },
        ScanPhase::Fraction => {
            if '0' <= c && c <= '9' {
                let den: u128 = sc.denominator as u128 * 10;
                if den > 0xffff_ffff_ffff_ffff {
                    Scanner { phase: ScanPhase::Stopped, ..sc }
                } else {
                    let num: u128 = sc.numerator as u128 * 10 + digit_of(c) as u128;
                    assert(num < den);
                    Scanner { numerator: num as u64, denominator: den as u64, ..sc }
                }
            } else if is_unit_letter(c) && sc.denominator > 1 {
                let mut unit: Vec<char> = Vec::new();
                unit.push(c);
                proof {
                    assert(unit@ =~= seq![c]);
                }
                Scanner { phase: ScanPhase::Unit, unit, ..sc }
            } else if is_space(c) {
                sc
            } else {
                Scanner { phase: ScanPhase::Stopped, ..sc }
            }
        },
        ScanPhase::Unit => {
            if is_unit_letter(c) {
                let mut sc = sc;
                sc.unit.push(c);
                sc
            } else {
                let digit = '0' <= c && c <= '9';
                let scale = unit_scale(&sc.unit);
                if (digit || is_space(c)) && scale > 0 {
                    let total = sc.total + span_value(&sc, scale);
                    if digit {
                        Scanner {
                            phase: ScanPhase::Number,
                            number: digit_of(c),
                            fraction: false,
                            numerator: 0,
                            denominator: 1,
                            unit: Vec::new(),
                            total,
                        }
                    } else {
                        Scanner {
                            phase: ScanPhase::Lead,
                            number: 0,
                            fraction: false,
                            numerator: 0,
                            denominator: 1,
                            unit: Vec::new(),
                            total,
                        }
                    }
                } else {
                    Scanner { phase: ScanPhase::Stopped, ..sc }
                }
            }
        },
    }
}

/// Whether the sum of a duration text's spans stays below `u64::MAX + 1`
/// seconds.
pub fn duration_fits(text: &str) -> (r: bool)
    ensures
        r == (duration_nanos(text@) < nanos_limit()),
{
    let ghost s = text@;
    let limit: u128 = 18_446_744_073_709_551_616_000_000_000;
    let n = text.unicode_len();
    let mut sc = Scanner {
        phase: ScanPhase::Lead,
        number: 0,
        fraction: false,
        numerator: 0,
        denominator: 1,
        unit: Vec::new(),
        total: 0,
    };
    proof {
        assert(sc.unit@ =~= Seq::<char>::empty());
        assert(s.take(0) =~= Seq::<char>::empty());
    }
    let mut i: usize = 0;
    while i < n
        invariant
            s == text@,
            n == s.len(),
            i <= n,
            limit == nanos_limit(),
            sc@ == duration_scan(s.take(i as int)),
            sc.numerator < sc.denominator,
            sc.total < limit,
        decreases n - i,
    {
        let c = text.get_char(i);
        proof {
            lemma_take_step(s, i as int);
        }
        sc = scanner_step(sc, c);
        if sc.total >= limit {
            proof {
                lemma_total_grows(s, i + 1, n as int);
                assert(s.take(n as int) =~= s);
            }
            return false;
        }
        i = i + 1;
    }
    proof {
        assert(s.take(n as int) =~= s);
    }
    match sc.phase {
        ScanPhase::Unit => {
            let scale = unit_scale(&sc.unit);
            if scale > 0 {
                sc.total + span_value(&sc, scale) < limit
            } else {
                true
            }
        },
        _ => true,
    }
}

} // verus!
