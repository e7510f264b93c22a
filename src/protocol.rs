//! The line-oriented control protocol: a line holds sub-commands separated by
//! `COMMAND_SEP`; a sub-command is `CODE` or `CODE=ARG[=ARG...]`.
use vstd::prelude::*;
use vstd::string::*;
use crate::model::{Rgb, ACTUATOR_ONE};

verus! {

pub const COMMAND_SEP: char = ';';

pub const ARGUMENT_SEP: char = '=';

/// The Unicode `White_Space` characters, which trimming removes.
pub open spec fn is_space(c: char) -> bool {
    ||| c == '\t'
    ||| c == '\n'
    ||| c == '\u{0B}'
    ||| c == '\u{0C}'
    ||| c == '\r'
    ||| c == ' '
    ||| c == '\u{85}'
    ||| c == '\u{A0}'
    ||| c == '\u{1680}'
    ||| ('\u{2000}' <= c && c <= '\u{200A}')
    ||| c == '\u{2028}'
    ||| c == '\u{2029}'
    ||| c == '\u{202F}'
    ||| c == '\u{205F}'
    ||| c == '\u{3000}'
}

pub open spec fn trim_start(s: Seq<char>) -> Seq<char>
    decreases s.len(),
{
    if s.len() > 0 && is_space(s[0]) {
        trim_start(s.drop_first())
    } else {
        s
    }
}

pub open spec fn trim_end(s: Seq<char>) -> Seq<char>
    decreases s.len(),
{
    if s.len() > 0 && is_space(s.last()) {
        trim_end(s.drop_last())
    } else {
        s
    }
}

/// `s` without its leading and trailing white space.
pub open spec fn trim(s: Seq<char>) -> Seq<char> {
    trim_end(trim_start(s))
}

/// The pieces of `s` between occurrences of `sep`: one more piece than
/// there are separators, empty pieces included.
pub open spec fn split(s: Seq<char>, sep: char) -> Seq<Seq<char>>
    decreases s.len(),
{
    if s.len() == 0 {
        seq![Seq::<char>::empty()]
    } else {
        let r = split(s.drop_last(), sep);
        if s.last() == sep {
            r.push(Seq::<char>::empty())
        } else {
            r.update(r.len() - 1, r.last().push(s.last()))
        }
    }
}

proof fn lemma_split_nonempty(s: Seq<char>, sep: char)
    ensures
        split(s, sep).len() >= 1,
    decreases s.len(),
{
    if s.len() > 0 {
        lemma_split_nonempty(s.drop_last(), sep);
    }
}

/// The characters of `s`.
pub fn chars_of(s: &str) -> (r: Vec<char>)
    ensures
        r@ == s@,
{
    let n = s.unicode_len();
    let mut v: Vec<char> = Vec::new();
    let mut i: usize = 0;
    while i < n
        invariant
            i <= n,
            n == s@.len(),
            v@ == s@.subrange(0, i as int),
        decreases n - i,
    {
        v.push(s.get_char(i));
        i += 1;
        proof {
            assert(v@ =~= s@.subrange(0, i as int));
        }
    }
    proof {
        assert(v@ =~= s@);
    }
    v
}

pub fn is_space_char(c: char) -> (r: bool)
    ensures
        r == is_space(c),
{
    c == '\t' || c == '\n' || c == '\u{0B}' || c == '\u{0C}' || c == '\r' || c == ' ' || c
        == '\u{85}' || c == '\u{A0}' || c == '\u{1680}' || ('\u{2000}' <= c && c <= '\u{200A}')
        || c == '\u{2028}' || c == '\u{2029}' || c == '\u{202F}' || c == '\u{205F}' || c
        == '\u{3000}'
}

/// The range of `c[lo..hi]` that is left after trimming.
pub fn trim_range(c: &Vec<char>, lo: usize, hi: usize) -> (r: (usize, usize))
    requires
        lo <= hi <= c@.len(),
    ensures
        lo <= r.0 <= r.1 <= hi,
        c@.subrange(r.0 as int, r.1 as int) == trim(c@.subrange(lo as int, hi as int)),
{
    let mut a = lo;
    while a < hi && is_space_char(c[a])
        invariant
            lo <= a <= hi <= c@.len(),
            trim_start(c@.subrange(lo as int, hi as int)) == trim_start(
                c@.subrange(a as int, hi as int),
            ),
        decreases hi - a,
    {
        proof {
            let t = c@.subrange(a as int, hi as int);
            assert(t.drop_first() =~= c@.subrange(a + 1, hi as int));
        }
        a += 1;
    }
    let mut b = hi;
    while b > a && is_space_char(c[b - 1])
        invariant
            lo <= a <= b <= hi <= c@.len(),
            trim_start(c@.subrange(lo as int, hi as int)) == c@.subrange(a as int, hi as int),
            trim_end(c@.subrange(a as int, hi as int)) == trim_end(c@.subrange(a as int, b as int)),
        decreases b - a,
    {
        proof {
            let t = c@.subrange(a as int, b as int);
            assert(t.drop_last() =~= c@.subrange(a as int, b - 1));
        }
        b -= 1;
    }
    (a, b)
}

/// The ranges of the pieces of `c[lo..hi]` between occurrences of `sep`.
pub fn split_ranges(c: &Vec<char>, lo: usize, hi: usize, sep: char) -> (r: Vec<(usize, usize)>)
    requires
        lo <= hi <= c@.len(),
    ensures
        r@.len() == split(c@.subrange(lo as int, hi as int), sep).len(),
        forall|k: int|
            0 <= k < r@.len() ==> lo <= #[trigger] r@[k].0 <= r@[k].1 <= hi && c@.subrange(
                r@[k].0 as int,
                r@[k].1 as int,
            ) == split(c@.subrange(lo as int, hi as int), sep)[k],
{
    let mut done: Vec<(usize, usize)> = Vec::new();
    let mut cur = lo;
    let mut i = lo;
    proof {
        assert(c@.subrange(lo as int, lo as int) =~= Seq::<char>::empty());
    }
    while i < hi
        invariant
            lo <= cur <= i <= hi <= c@.len(),
            split(c@.subrange(lo as int, i as int), sep).len() == done@.len() + 1,
            split(c@.subrange(lo as int, i as int), sep)[done@.len() as int] == c@.subrange(
                cur as int,
                i as int,
            ),
            forall|k: int|
                0 <= k < done@.len() ==> lo <= #[trigger] done@[k].0 <= done@[k].1 <= i
                    && c@.subrange(done@[k].0 as int, done@[k].1 as int) == split(
                    c@.subrange(lo as int, i as int),
                    sep,
                )[k],
        decreases hi - i,
    {
        let ghost before = split(c@.subrange(lo as int, i as int), sep);
        proof {
            let t = c@.subrange(lo as int, i + 1);
            assert(t.drop_last() =~= c@.subrange(lo as int, i as int));
            assert(t.last() == c@[i as int]);
        }
        if c[i] == sep {
            done.push((cur, i));
            cur = i + 1;
            proof {
                assert(c@.subrange(cur as int, i + 1) =~= Seq::<char>::empty());
            }
        } else {
            proof {
                assert(c@.subrange(cur as int, i + 1) =~= c@.subrange(cur as int, i as int).push(
                    c@[i as int],
                ));
            }
        }
        i += 1;
    }
    done.push((cur, hi));
    proof {
        assert(c@.subrange(lo as int, i as int) == c@.subrange(lo as int, hi as int));
    }
    done
}

/// The value of a digit character in bases up to 16; 16 for any other character.
pub open spec fn digit_value(c: char) -> int {
    if '0' <= c && c <= '9' {
        c as int - '0' as int
    } else if 'a' <= c && c <= 'f' {
        c as int - 'a' as int + 10
    } else if 'A' <= c && c <= 'F' {
        c as int - 'A' as int + 10
    } else {
        16
    }
}

pub open spec fn all_digits(s: Seq<char>, radix: int) -> bool {
    forall|i: int| 0 <= i < s.len() ==> #[trigger] digit_value(s[i]) < radix
}

/// The number that the digits `s` write in base `radix`.
pub open spec fn digits_value(s: Seq<char>, radix: int) -> int
    decreases s.len(),
{
    if s.len() == 0 {
        0
    } else {
        digits_value(s.drop_last(), radix) * radix + digit_value(s.last())
    }
}

/// `s` without one leading `'+'`.
pub open spec fn unsigned_body(s: Seq<char>) -> Seq<char> {
    if s.len() > 0 && s[0] == '+' {
        s.drop_first()
    } else {
        s
    }
}

/// An unsigned integer in base `radix` with an optional leading `'+'`, at
/// least one digit and a value of at most `max`; `None` otherwise.
pub open spec fn unsigned_of(s: Seq<char>, radix: int, max: int) -> Option<int> {
    let d = unsigned_body(s);
    if d.len() > 0 && all_digits(d, radix) && digits_value(d, radix) <= max {
        Some(digits_value(d, radix))
    } else {
        None
    }
}

pub open spec fn min_int(a: int, b: int) -> int {
    if a <= b {
        a
    } else {
        b
    }
}

proof fn lemma_digits_value_nonneg(s: Seq<char>, radix: int)
    requires
        radix >= 1,
        all_digits(s, radix),
    ensures
        digits_value(s, radix) >= 0,
    decreases s.len(),
{
    if s.len() > 0 {
        assert(digit_value(s[s.len() - 1]) < radix);
        lemma_digits_value_nonneg(s.drop_last(), radix);
        let v = digits_value(s.drop_last(), radix);
        assert(v * radix >= 0) by (nonlinear_arith)
            requires
                v >= 0,
                radix >= 1,
        ;
    }
}

fn digit_of(c: char) -> (r: u64)
    ensures
        r == digit_value(c),
{
    if '0' <= c && c <= '9' {
        (c as u32 - '0' as u32) as u64
    } else if 'a' <= c && c <= 'f' {
        (c as u32 - 'a' as u32 + 10) as u64
    } else if 'A' <= c && c <= 'F' {
        (c as u32 - 'A' as u32 + 10) as u64
    } else {
        16
    }
}

/// Reads the digits `c[lo..hi]` in base `radix`: `None` if one of them is no
/// digit, else their value capped at `max + 1`.
fn digits_capped(c: &Vec<char>, lo: usize, hi: usize, radix: u64, max: u64) -> (r: Option<u64>)
    requires
        lo <= hi <= c@.len(),
        2 <= radix <= 16,
        max < 0x1_0000_0000,
    ensures
        r is Some <==> all_digits(c@.subrange(lo as int, hi as int), radix as int),
        r is Some ==> r->0 == min_int(
            digits_value(c@.subrange(lo as int, hi as int), radix as int),
            max + 1,
        ),
{
    let mut acc: u64 = 0;
    let mut i = lo;
    proof {
        assert(c@.subrange(lo as int, lo as int) =~= Seq::<char>::empty());
    }
    while i < hi
        invariant
            lo <= i <= hi <= c@.len(),
            2 <= radix <= 16,
            max < 0x1_0000_0000,
            all_digits(c@.subrange(lo as int, i as int), radix as int),
            acc == min_int(digits_value(c@.subrange(lo as int, i as int), radix as int), max + 1),
        decreases hi - i,
    {
        let d = digit_of(c[i]);
        let ghost t = c@.subrange(lo as int, i + 1);
        proof {
            assert(t.drop_last() =~= c@.subrange(lo as int, i as int));
            assert(t.last() == c@[i as int]);
        }
        if d >= radix {
            proof {
                assert(t[t.len() - 1] == c@[i as int]);
                assert(!all_digits(c@.subrange(lo as int, hi as int), radix as int)) by {
                    assert(c@.subrange(lo as int, hi as int)[i - lo] == c@[i as int]);
                }
            }
            return None;
        }
        let ghost v = digits_value(c@.subrange(lo as int, i as int), radix as int);
        proof {
            lemma_digits_value_nonneg(c@.subrange(lo as int, i as int), radix as int);
            assert(acc * radix <= (max + 1) * 16) by (nonlinear_arith)
                requires
                    acc <= max + 1,
                    radix <= 16,
            ;
        }
        let next = acc * radix + d;
        acc = if next > max {
            max + 1
        } else {
            next
        };
        proof {
            assert(min_int(min_int(v, max + 1) * radix + d, max + 1) == min_int(
                v * radix + d,
                max + 1,
            )) by (nonlinear_arith)
                requires
                    v >= 0,
                    radix >= 1,
                    d >= 0,
            ;
            assert(all_digits(t, radix as int)) by {
                assert forall|j: int| 0 <= j < t.len() implies #[trigger] digit_value(t[j])
                    < radix by {
                    if j < t.len() - 1 {
                        assert(t[j] == c@.subrange(lo as int, i as int)[j]);
                    }
                }
            }
        }
        i += 1;
    }
    Some(acc)
}

/// Reads an unsigned integer written as `unsigned_of` says.
pub fn parse_unsigned(c: &Vec<char>, lo: usize, hi: usize, radix: u64, max: u64) -> (r: Option<
    u64,
>)
    requires
        lo <= hi <= c@.len(),
        2 <= radix <= 16,
        max < 0x1_0000_0000,
    ensures
        r matches Some(v) ==> unsigned_of(c@.subrange(lo as int, hi as int), radix as int, max as int)
            == Some(v as int),
        r is None ==> unsigned_of(c@.subrange(lo as int, hi as int), radix as int, max as int)
            is None,
{
    let ghost s = c@.subrange(lo as int, hi as int);
    let start = if lo < hi && c[lo] == '+' {
        lo + 1
    } else {
        lo
    };
    proof {
        if lo < hi && c@[lo as int] == '+' {
            assert(s.drop_first() =~= c@.subrange(lo + 1, hi as int));
        }
        assert(unsigned_body(s) == c@.subrange(start as int, hi as int));
    }
    if start == hi {
        return None;
    }
    match digits_capped(c, start, hi, radix, max) {
        Some(v) => {
            if v > max {
                None
            } else {
                Some(v)
            }
        },
        None => None,
    }
}

/// Largest whole part that a decimal argument may have.
pub const MAX_WHOLE_UNITS: u64 = 999_999;

/// Number of fractional digits that a fixed-point value keeps.
pub const FRACTION_DIGITS: usize = 6;

/// Index of the first `'.'` of `s`, or its length.
pub open spec fn dot_index(s: Seq<char>) -> int
    decreases s.len(),
{
    if s.len() == 0 {
        0
    } else if s[0] == '.' {
        0
    } else {
        1 + dot_index(s.drop_first())
    }
}

/// The first `k` fractional digits of `f`, padded with zeros, as an integer.
pub open spec fn fraction_value(f: Seq<char>, k: nat) -> int
    decreases k,
{
    if k == 0 {
        0
    } else {
        fraction_value(f, (k - 1) as nat) * 10 + if k - 1 < f.len() {
            digit_value(f[k - 1])
        } else {
            0
        }
    }
}

pub open spec fn decimal_body(s: Seq<char>) -> Seq<char> {
    if s.len() > 0 && (s[0] == '+' || s[0] == '-') {
        s.drop_first()
    } else {
        s
    }
}

pub open spec fn whole_part(b: Seq<char>) -> Seq<char> {
    b.subrange(0, dot_index(b))
}

pub open spec fn fraction_part(b: Seq<char>) -> Seq<char> {
    if dot_index(b) < b.len() {
        b.subrange(dot_index(b) + 1, b.len() as int)
    } else {
        Seq::empty()
    }
}

/// A decimal number `[+|-]digits[.digits]` (at least one digit, a whole part
/// of at most `MAX_WHOLE_UNITS`), as a fixed-point value scaled by
/// `ACTUATOR_ONE`, truncated after `FRACTION_DIGITS` fractional digits.
/// Exponent forms (`1e-1`), `inf` and `NaN` are not part of this grammar.
pub open spec fn decimal_of(s: Seq<char>) -> Option<int> {
    let b = decimal_body(s);
    let w = whole_part(b);
    let f = fraction_part(b);
    if w.len() + f.len() > 0 && all_digits(w, 10) && all_digits(f, 10) && digits_value(w, 10)
        <= MAX_WHOLE_UNITS {
        let m = digits_value(w, 10) * ACTUATOR_ONE + fraction_value(f, FRACTION_DIGITS as nat);
        Some(
            if s.len() > 0 && s[0] == '-' {
                -m
            } else {
                m
            },
        )
    } else {
        None
    }
}

proof fn lemma_fraction_value_bounds(f: Seq<char>, k: nat)
    requires
        all_digits(f, 10),
    ensures
        0 <= fraction_value(f, k),
        k <= 6 ==> fraction_value(f, k) < pow10(k),
    decreases k,
{
    if k > 0 {
        lemma_fraction_value_bounds(f, (k - 1) as nat);
        if k - 1 < f.len() {
            assert(digit_value(f[k - 1]) < 10);
        }
    }
}

pub open spec fn pow10(k: nat) -> int
    decreases k,
{
    if k == 0 {
        1
    } else {
        10 * pow10((k - 1) as nat)
    }
}

/// Reads a fixed-point decimal written as `decimal_of` says.
pub fn parse_decimal(c: &Vec<char>, lo: usize, hi: usize) -> (r: Option<i64>)
    requires
        lo <= hi <= c@.len(),
    ensures
        r matches Some(v) ==> decimal_of(c@.subrange(lo as int, hi as int)) == Some(v as int),
        r is None ==> decimal_of(c@.subrange(lo as int, hi as int)) is None,
{
    let ghost s = c@.subrange(lo as int, hi as int);
    let negative = lo < hi && c[lo] == '-';
    let start = if lo < hi && (c[lo] == '+' || c[lo] == '-') {
        lo + 1
    } else {
        lo
    };
    let ghost b = c@.subrange(start as int, hi as int);
    proof {
        if lo < hi {
            assert(s[0] == c@[lo as int]);
        }
        assert(negative == (s.len() > 0 && s[0] == '-'));
        if lo < hi && (c@[lo as int] == '+' || c@[lo as int] == '-') {
            assert(s.drop_first() =~= b);
        } else {
            assert(s =~= b);
        }
        assert(decimal_body(s) == b);
    }
    let mut dot = start;
    while dot < hi && c[dot] != '.'
        invariant
            start <= dot <= hi <= c@.len(),
            dot_index(b) == (dot - start) + dot_index(c@.subrange(dot as int, hi as int)),
        decreases hi - dot,
    {
        proof {
            assert(c@.subrange(dot as int, hi as int).drop_first() =~= c@.subrange(
                dot + 1,
                hi as int,
            ));
        }
        dot += 1;
    }
    let ghost d = dot_index(b);
    proof {
        assert(d == dot - start);
        assert(whole_part(b) =~= c@.subrange(start as int, dot as int));
        if dot < hi {
            assert(fraction_part(b) =~= c@.subrange(dot + 1, hi as int));
        } else {
            assert(fraction_part(b) =~= c@.subrange(hi as int, hi as int));
        }
    }
    let frac_lo = if dot < hi {
        dot + 1
    } else {
        hi
    };
    if dot == start && frac_lo == hi {
        return None;
    }
    let whole = match digits_capped(c, start, dot, 10, MAX_WHOLE_UNITS) {
        Some(w) => w,
        None => {
            return None;
        },
    };
    if whole > MAX_WHOLE_UNITS {
        return None;
    }
    let ghost f = c@.subrange(frac_lo as int, hi as int);
    proof {
        assert(f == fraction_part(b));
        assert(whole_part(b) == c@.subrange(start as int, dot as int));
        assert(all_digits(whole_part(b), 10));
        assert(digits_value(whole_part(b), 10) == whole);
        assert(whole_part(b).len() == dot - start);
        assert(f.len() == hi - frac_lo);
    }
    let mut j = frac_lo;
    while j < hi
        invariant
            frac_lo <= j <= hi <= c@.len(),
            f == c@.subrange(frac_lo as int, hi as int),
            f == fraction_part(b),
            b == decimal_body(s),
            s == c@.subrange(lo as int, hi as int),
            whole_part(b).len() + f.len() > 0,
            all_digits(whole_part(b), 10),
            digits_value(whole_part(b), 10) == whole,
            whole <= MAX_WHOLE_UNITS,
            negative == (s.len() > 0 && s[0] == '-'),
            forall|i: int| 0 <= i < j - frac_lo ==> #[trigger] digit_value(f[i]) < 10,
        decreases hi - j,
    {
        if digit_of(c[j]) >= 10 {
            proof {
                assert(f[j - frac_lo] == c@[j as int]);
                assert(!all_digits(fraction_part(b), 10));
            }
            return None;
        }
        proof {
            assert(f[j - frac_lo] == c@[j as int]);
        }
        j += 1;
    }
    let mut frac: u64 = 0;
    let mut k: usize = 0;
    while k < FRACTION_DIGITS
        invariant
            k <= FRACTION_DIGITS,
            frac_lo <= hi <= c@.len(),
            f == c@.subrange(frac_lo as int, hi as int),
            all_digits(f, 10),
            f == fraction_part(b),
            b == decimal_body(s),
            s == c@.subrange(lo as int, hi as int),
            whole_part(b).len() + f.len() > 0,
            all_digits(whole_part(b), 10),
            digits_value(whole_part(b), 10) == whole,
            whole <= MAX_WHOLE_UNITS,
            negative == (s.len() > 0 && s[0] == '-'),
            frac == fraction_value(f, k as nat),
        decreases FRACTION_DIGITS - k,
    {
        proof {
            lemma_fraction_value_bounds(f, k as nat);
            assert(pow10(k as nat) <= 100_000) by {
                reveal_with_fuel(pow10, 7);
            }
        }
        let digit = if k < hi - frac_lo {
            proof {
                assert(f[k as int] == c@[frac_lo + k]);
                assert(digit_value(f[k as int]) < 10);
            }
            digit_of(c[frac_lo + k])
        } else {
            0
        };
        frac = frac * 10 + digit;
        k += 1;
    }
    proof {
        lemma_fraction_value_bounds(f, FRACTION_DIGITS as nat);
        assert(pow10(6) == 1_000_000) by {
            reveal_with_fuel(pow10, 7);
        }
    }
    let magnitude = (whole * ACTUATOR_ONE as u64 + frac) as i64;
    if negative {
        Some(-magnitude)
    } else {
        Some(magnitude)
    }
}

pub const SET_NAME: &'static str = "SET_NAME";

pub const SET_COLOR: &'static str = "SET_COLOR";

pub const ACTUATOR_MOTOR_LEFT: &'static str = "ACTUATOR_MOTOR_LEFT";

pub const ACTUATOR_MOTOR_RIGHT: &'static str = "ACTUATOR_MOTOR_RIGHT";

pub const ACTUATOR_GUN_TRIGGER: &'static str = "ACTUATOR_GUN_TRIGGER";

pub const ACTUATOR_GUN_TRAVERSE: &'static str = "ACTUATOR_GUN_TRAVERSE";

pub const QUIT: &'static str = "QUIT";

pub const QUERY_CLOSEST_BOT: &'static str = "QUERY_CLOSEST_BOT";

pub const QUERY_CLOSEST_PROJECTILE: &'static str = "QUERY_CLOSEST_PROJECTILE";

pub const QUERY_NAME_LIST: &'static str = "QUERY_NAME_LIST";

pub const QUERY_ORIENTATION: &'static str = "QUERY_ORIENTATION";

pub const QUERY_MESSAGES_FROM_USER: &'static str = "QUERY_MESSAGES_FROM_USER";

/// A read-only query; the world does not answer these yet, and the reply says so.
#[derive(PartialEq, Eq, Structural, Clone, Copy, Debug)]
pub enum Query {
    ClosestBot,
    ClosestProjectile,
    NameList,
    Orientation,
    MessagesFromUser,
}

/// An actuator input of an entity.
#[derive(PartialEq, Eq, Structural, Clone, Copy, Debug)]
pub enum Actuator {
    MotorLeft,
    MotorRight,
    GunTrigger,
    GunTraverse,
}

/// Why a sub-command was refused.
#[derive(PartialEq, Eq, Structural, Clone, Copy, Debug)]
pub enum CommandError {
    MissingName,
    MissingColor,
    InvalidHex,
    InvalidRgb,
    BadColorFormat,
    MissingValue,
    InvalidNumber,
    /// An actuator value outside `[0, 1]`.
    OutOfRange,
}

/// One decoded sub-command.
pub enum Command {
    SetName(String),
    SetColor(Rgb),
    /// An actuator and its fixed-point value.
    Actuate(Actuator, i64),
    Quit,
    Query(Query),
    /// A code that the protocol does not know.
    Unknown(String),
    /// A known code with missing or malformed arguments.
    Invalid(CommandError),
}

pub enum CommandView {
    SetName(Seq<char>),
    SetColor(Rgb),
    Actuate(Actuator, int),
    Quit,
    Query(Query),
    Unknown(Seq<char>),
    Invalid(CommandError),
}

impl View for Command {
    type V = CommandView;

    open spec fn view(&self) -> CommandView {
        match self {
            Command::SetName(n) => CommandView::SetName(n@),
            Command::SetColor(c) => CommandView::SetColor(*c),
            Command::Actuate(a, v) => CommandView::Actuate(*a, *v as int),
            Command::Quit => CommandView::Quit,
            Command::Query(q) => CommandView::Query(*q),
            Command::Unknown(code) => CommandView::Unknown(code@),
            Command::Invalid(e) => CommandView::Invalid(*e),
        }
    }
}

pub open spec fn actuator_named(code: Seq<char>) -> Option<Actuator> {
    if code == ACTUATOR_MOTOR_LEFT@ {
        Some(Actuator::MotorLeft)
    } else if code == ACTUATOR_MOTOR_RIGHT@ {
        Some(Actuator::MotorRight)
    } else if code == ACTUATOR_GUN_TRIGGER@ {
        Some(Actuator::GunTrigger)
    } else if code == ACTUATOR_GUN_TRAVERSE@ {
        Some(Actuator::GunTraverse)
    } else {
        None
    }
}

pub open spec fn query_named(code: Seq<char>) -> Option<Query> {
    if code == QUERY_CLOSEST_BOT@ {
        Some(Query::ClosestBot)
    } else if code == QUERY_CLOSEST_PROJECTILE@ {
        Some(Query::ClosestProjectile)
    } else if code == QUERY_NAME_LIST@ {
        Some(Query::NameList)
    } else if code == QUERY_ORIENTATION@ {
        Some(Query::Orientation)
    } else if code == QUERY_MESSAGES_FROM_USER@ {
        Some(Query::MessagesFromUser)
    } else {
        None
    }
}

/// The color written `RRGGBB` in hexadecimal: the low three bytes of `v`.
pub open spec fn hex_color(v: int) -> Rgb {
    Rgb {
        r: ((v / 0x10000) % 0x100) as u8,
        g: ((v / 0x100) % 0x100) as u8,
        b: (v % 0x100) as u8,
    }
}

/// The color of `SET_COLOR`'s arguments: one hexadecimal number, or three
/// decimal bytes.
pub open spec fn color_command(args: Seq<Seq<char>>) -> CommandView {
    if args.len() == 0 {
        CommandView::Invalid(CommandError::MissingColor)
    } else if args.len() == 1 {
        match unsigned_of(args[0], 16, 0xFFFF_FFFF) {
            Some(v) => CommandView::SetColor(hex_color(v)),
            None => CommandView::Invalid(CommandError::InvalidHex),
        }
    } else if args.len() == 3 {
        let r = unsigned_of(trim(args[0]), 10, 255);
        let g = unsigned_of(trim(args[1]), 10, 255);
        let b = unsigned_of(trim(args[2]), 10, 255);
        if r is Some && g is Some && b is Some {
            CommandView::SetColor(Rgb { r: r->0 as u8, g: g->0 as u8, b: b->0 as u8 })
        } else {
            CommandView::Invalid(CommandError::InvalidRgb)
        }
    } else {
        CommandView::Invalid(CommandError::BadColorFormat)
    }
}

/// The meaning of one sub-command `m`.
pub open spec fn command_of(m: Seq<char>) -> CommandView {
    let parts = split(trim(m), ARGUMENT_SEP);
    let code = trim(parts[0]);
    let args = parts.drop_first();
    if code == SET_NAME@ {
        if args.len() >= 1 {
            CommandView::SetName(args[0])
        } else {
            CommandView::Invalid(CommandError::MissingName)
        }
    } else if code == SET_COLOR@ {
        color_command(args)
    } else if actuator_named(code) is Some {
        if args.len() >= 1 {
            match decimal_of(trim(args[0])) {
                Some(v) => CommandView::Actuate(actuator_named(code)->0, v),
                None => CommandView::Invalid(CommandError::InvalidNumber),
            }
        } else {
            CommandView::Invalid(CommandError::MissingValue)
        }
    } else if code == QUIT@ {
        CommandView::Quit
    } else if query_named(code) is Some {
        CommandView::Query(query_named(code)->0)
    } else {
        CommandView::Unknown(code)
    }
}

/// The sub-commands of a line, in order.
pub open spec fn line_commands(line: Seq<char>) -> Seq<Seq<char>> {
    split(trim(line), COMMAND_SEP)
}

/// Whether `c[lo..hi]` spells `w`.
fn range_is(c: &Vec<char>, lo: usize, hi: usize, w: &str) -> (r: bool)
    requires
        lo <= hi <= c@.len(),
    ensures
        r == (c@.subrange(lo as int, hi as int) == w@),
{
    let n = w.unicode_len();
    if hi - lo != n {
        return false;
    }
    let mut i: usize = 0;
    while i < n
        invariant
            i <= n,
            n == w@.len(),
            lo + n == hi <= c@.len(),
            forall|j: int| 0 <= j < i ==> c@[lo + j] == w@[j],
        decreases n - i,
    {
        if c[lo + i] != w.get_char(i) {
            proof {
                assert(c@.subrange(lo as int, hi as int)[i as int] != w@[i as int]);
            }
            return false;
        }
        i += 1;
    }
    proof {
        assert(c@.subrange(lo as int, hi as int) =~= w@);
    }
    true
}

fn actuator_of(c: &Vec<char>, lo: usize, hi: usize) -> (r: Option<Actuator>)
    requires
        lo <= hi <= c@.len(),
    ensures
        r == actuator_named(c@.subrange(lo as int, hi as int)),
{
    if range_is(c, lo, hi, ACTUATOR_MOTOR_LEFT) {
        Some(Actuator::MotorLeft)
    } else if range_is(c, lo, hi, ACTUATOR_MOTOR_RIGHT) {
        Some(Actuator::MotorRight)
    } else if range_is(c, lo, hi, ACTUATOR_GUN_TRIGGER) {
        Some(Actuator::GunTrigger)
    } else if range_is(c, lo, hi, ACTUATOR_GUN_TRAVERSE) {
        Some(Actuator::GunTraverse)
    } else {
        None
    }
}

fn query_of(c: &Vec<char>, lo: usize, hi: usize) -> (r: Option<Query>)
    requires
        lo <= hi <= c@.len(),
    ensures
        r == query_named(c@.subrange(lo as int, hi as int)),
{
    if range_is(c, lo, hi, QUERY_CLOSEST_BOT) {
        Some(Query::ClosestBot)
    } else if range_is(c, lo, hi, QUERY_CLOSEST_PROJECTILE) {
        Some(Query::ClosestProjectile)
    } else if range_is(c, lo, hi, QUERY_NAME_LIST) {
        Some(Query::NameList)
    } else if range_is(c, lo, hi, QUERY_ORIENTATION) {
        Some(Query::Orientation)
    } else if range_is(c, lo, hi, QUERY_MESSAGES_FROM_USER) {
        Some(Query::MessagesFromUser)
    } else {
        None
    }
}

/// The text of `line` between the character positions `lo` and `hi`.
fn text_between(line: &str, lo: usize, hi: usize) -> (r: String)
    requires
        lo <= hi <= line@.len(),
    ensures
        r@ == line@.subrange(lo as int, hi as int),
{
    line.substring_char(lo, hi).to_owned()
}

/// Every range of `parts` lies within a sequence of length `n`.
pub open spec fn ranges_within(parts: Seq<(usize, usize)>, n: int) -> bool {
    forall|k: int| 0 <= k < parts.len() ==> #[trigger] range_ok(parts[k], n)
}

pub open spec fn range_ok(p: (usize, usize), n: int) -> bool {
    p.0 <= p.1 <= n
}

fn parse_color(c: &Vec<char>, parts: &Vec<(usize, usize)>) -> (r: Command)
    requires
        parts@.len() >= 1,
        ranges_within(parts@, c@.len() as int),
    ensures
        r@ == color_command(
            Seq::new(
                (parts@.len() - 1) as nat,
                |k: int| c@.subrange(parts@[k + 1].0 as int, parts@[k + 1].1 as int),
            ),
        ),
{
    let ghost args = Seq::new(
        (parts@.len() - 1) as nat,
        |k: int| c@.subrange(parts@[k + 1].0 as int, parts@[k + 1].1 as int),
    );
    let n = parts.len() - 1;
    if n == 0 {
        Command::Invalid(CommandError::MissingColor)
    } else if n == 1 {
        proof {
            assert(range_ok(parts@[1], c@.len() as int));
        }
        let (a, b) = parts[1];
        match parse_unsigned(c, a, b, 16, 0xFFFF_FFFF) {
            Some(v) => {
                let color = Rgb {
                    r: ((v / 0x10000) % 0x100) as u8,
                    g: ((v / 0x100) % 0x100) as u8,
                    b: (v % 0x100) as u8,
                };
                Command::SetColor(color)
            },
            None => Command::Invalid(CommandError::InvalidHex),
        }
    } else if n == 3 {
        proof {
            assert(range_ok(parts@[1], c@.len() as int));
            assert(range_ok(parts@[2], c@.len() as int));
            assert(range_ok(parts@[3], c@.len() as int));
        }
        let (a0, b0) = parts[1];
        let (a1, b1) = parts[2];
        let (a2, b2) = parts[3];
        let (x0, y0) = trim_range(c, a0, b0);
        let (x1, y1) = trim_range(c, a1, b1);
        let (x2, y2) = trim_range(c, a2, b2);
        let r = parse_unsigned(c, x0, y0, 10, 255);
        let g = parse_unsigned(c, x1, y1, 10, 255);
        let b = parse_unsigned(c, x2, y2, 10, 255);
        match (r, g, b) {
            (Some(r), Some(g), Some(b)) => Command::SetColor(
                Rgb { r: r as u8, g: g as u8, b: b as u8 },
            ),
            _ => Command::Invalid(CommandError::InvalidRgb),
        }
    } else {
        Command::Invalid(CommandError::BadColorFormat)
    }
}

/// Decodes the sub-command `line[lo..hi]`; `chars` holds the characters of `line`.
pub fn parse_command(line: &str, chars: &Vec<char>, lo: usize, hi: usize) -> (r: Command)
    requires
        chars@ == line@,
        lo <= hi <= chars@.len(),
    ensures
        r@ == command_of(chars@.subrange(lo as int, hi as int)),
{
    let ghost m = chars@.subrange(lo as int, hi as int);
    let (tlo, thi) = trim_range(chars, lo, hi);
    let parts = split_ranges(chars, tlo, thi, ARGUMENT_SEP);
    proof {
        lemma_split_nonempty(trim(m), ARGUMENT_SEP);
    }
    let ghost sp = split(trim(m), ARGUMENT_SEP);
    let (p0, p1) = parts[0];
    let (clo, chi) = trim_range(chars, p0, p1);
    let ghost args = sp.drop_first();
    proof {
        assert(chars@.subrange(clo as int, chi as int) == trim(sp[0]));
        assert forall|k: int| 0 <= k < args.len() implies args[k] == chars@.subrange(
            parts@[k + 1].0 as int,
            parts@[k + 1].1 as int,
        ) by {
            assert(args[k] == sp[k + 1]);
        }
    }
    if range_is(chars, clo, chi, SET_NAME) {
        if parts.len() >= 2 {
            let (a, b) = parts[1];
            Command::SetName(text_between(line, a, b))
        } else {
            Command::Invalid(CommandError::MissingName)
        }
    } else if range_is(chars, clo, chi, SET_COLOR) {
        proof {
            assert forall|k: int| 0 <= k < parts@.len() implies #[trigger] range_ok(
                parts@[k],
                chars@.len() as int,
            ) by {
                assert(tlo <= parts@[k].0 <= parts@[k].1 <= thi);
            }
        }
        let r = parse_color(chars, &parts);
        proof {
            let args2 = Seq::new(
                (parts@.len() - 1) as nat,
                |k: int| chars@.subrange(parts@[k + 1].0 as int, parts@[k + 1].1 as int),
            );
            assert(args2 =~= args);
        }
        r
    } else if let Some(act) = actuator_of(chars, clo, chi) {
        if parts.len() >= 2 {
            let (a, b) = parts[1];
            let (x, y) = trim_range(chars, a, b);
            match parse_decimal(chars, x, y) {
                Some(v) => Command::Actuate(act, v),
                None => Command::Invalid(CommandError::InvalidNumber),
            }
        } else {
            Command::Invalid(CommandError::MissingValue)
        }
    } else if range_is(chars, clo, chi, QUIT) {
        Command::Quit
    } else if let Some(q) = query_of(chars, clo, chi) {
        Command::Query(q)
    } else {
        Command::Unknown(text_between(line, clo, chi))
    }
}

/// Decodes every sub-command of `line`, in order.
pub fn parse_line(line: &str) -> (r: Vec<Command>)
    ensures
        r@.len() == line_commands(line@).len(),
        forall|k: int| 0 <= k < r@.len() ==> #[trigger] r@[k]@ == command_of(line_commands(line@)[k]),
{
    let chars = chars_of(line);
    let (lo, hi) = trim_range(&chars, 0, chars.len());
    proof {
        assert(chars@.subrange(0, chars@.len() as int) =~= line@);
    }
    let pieces = split_ranges(&chars, lo, hi, COMMAND_SEP);
    let mut out: Vec<Command> = Vec::new();
    let mut k: usize = 0;
    while k < pieces.len()
        invariant
            k <= pieces@.len(),
            chars@ == line@,
            pieces@.len() == line_commands(line@).len(),
            forall|j: int|
                0 <= j < pieces@.len() ==> lo <= #[trigger] pieces@[j].0 <= pieces@[j].1 <= hi
                    && chars@.subrange(pieces@[j].0 as int, pieces@[j].1 as int)
                    == line_commands(line@)[j],
            hi <= chars@.len(),
            out@.len() == k,
            forall|j: int| 0 <= j < k ==> #[trigger] out@[j]@ == command_of(line_commands(line@)[j]),
        decreases pieces@.len() - k,
    {
        let (a, b) = pieces[k];
        let cmd = parse_command(line, &chars, a, b);
        out.push(cmd);
        k += 1;
    }
    out
}

} // verus!
