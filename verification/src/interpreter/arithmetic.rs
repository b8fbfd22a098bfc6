//! The arithmetic scanner of `$((...))`, `(( ))`, `let` and C-style
//! `for (( ; ; ))`: literal and character validation with the shell's exact
//! error messages, number and base-N literal parsing, and the wrapping
//! `i64` operators.
use vstd::prelude::*;
use vstd::utf8::{decode_utf8, encode_utf8, is_continuation_byte};
use vstd::wrapping::i64_specs;

use crate::error::RustBashError;
use crate::text::{byte_span, lemma_after_ascii, lemma_encode_ascii, lemma_encode_concat, push_char};

verus! {

// ── Character classes (on bytes) ───────────────────────────────────

pub const TAB: u8 = 9;
pub const NEWLINE: u8 = 10;
pub const SPACE: u8 = 32;
pub const BANG: u8 = 33;
pub const DOUBLE_QUOTE: u8 = 34;
pub const HASH: u8 = 35;
pub const DOLLAR: u8 = 36;
pub const PERCENT: u8 = 37;
pub const AMPERSAND: u8 = 38;
pub const SINGLE_QUOTE: u8 = 39;
pub const OPEN_PAREN: u8 = 40;
pub const CLOSE_PAREN: u8 = 41;
pub const STAR: u8 = 42;
pub const PLUS: u8 = 43;
pub const COMMA: u8 = 44;
pub const MINUS: u8 = 45;
pub const DOT: u8 = 46;
pub const SLASH: u8 = 47;
pub const DIGIT_0: u8 = 48;
pub const DIGIT_7: u8 = 55;
pub const DIGIT_9: u8 = 57;
pub const COLON: u8 = 58;
pub const LESS: u8 = 60;
pub const EQUALS: u8 = 61;
pub const GREATER: u8 = 62;
pub const QUESTION: u8 = 63;
pub const AT: u8 = 64;
pub const UPPER_A: u8 = 65;
pub const UPPER_F: u8 = 70;
pub const UPPER_X: u8 = 88;
pub const UPPER_Z: u8 = 90;
pub const OPEN_BRACKET: u8 = 91;
pub const BACKSLASH: u8 = 92;
pub const CLOSE_BRACKET: u8 = 93;
pub const CARET: u8 = 94;
pub const UNDERSCORE: u8 = 95;
pub const LOWER_A: u8 = 97;
pub const LOWER_F: u8 = 102;
pub const LOWER_X: u8 = 120;
pub const LOWER_Z: u8 = 122;
pub const OPEN_BRACE: u8 = 123;
pub const PIPE: u8 = 124;
pub const CLOSE_BRACE: u8 = 125;
pub const TILDE: u8 = 126;

pub open spec fn is_digit(c: u8) -> bool {
    DIGIT_0 <= c <= DIGIT_9
}

pub open spec fn is_alpha(c: u8) -> bool {
    (LOWER_A <= c <= LOWER_Z) || (UPPER_A <= c <= UPPER_Z)
}

pub open spec fn is_alnum(c: u8) -> bool {
    is_digit(c) || is_alpha(c)
}

pub open spec fn is_hex_digit(c: u8) -> bool {
    is_digit(c) || (LOWER_A <= c <= LOWER_F) || (UPPER_A <= c <= UPPER_F)
}

/// A character that may continue a variable name.
pub open spec fn is_name_char(c: u8) -> bool {
    c == UNDERSCORE || is_alnum(c)
}

/// A character that may start a variable name.
pub open spec fn is_name_start(c: u8) -> bool {
    c == UNDERSCORE || is_alpha(c)
}

// ── Decimal rendering ──────────────────────────────────────────────

pub open spec fn digit_char(d: int) -> char {
    (48 + d) as char
}

/// The decimal digits of `n`, most significant first.
pub open spec fn digits_of(n: nat) -> Seq<char>
    decreases n,
{
    if n < 10 {
        seq![digit_char(n as int)]
    } else {
        digits_of(n / 10).push(digit_char((n % 10) as int))
    }
}

/// `n` written in decimal, with a leading `-` when negative.
pub open spec fn decimal(n: int) -> Seq<char> {
    if n < 0 {
        seq!['-'] + digits_of((-n) as nat)
    } else {
        digits_of(n as nat)
    }
}

pub(crate) fn push_digits(out: &mut String, n: u64)
    ensures
        final(out)@ == old(out)@ + digits_of(n as nat),
    decreases n,
{
    if n >= 10 {
        push_digits(out, n / 10);
    }
    let d: u8 = (n % 10) as u8;
    push_char(out, (48u8 + d) as char);
    assert(out@ =~= old(out)@ + digits_of(n as nat));
}

/// Appends `n` in decimal.
pub fn push_decimal(out: &mut String, n: i64)
    ensures
        final(out)@ == old(out)@ + decimal(n as int),
{
    if n < 0 {
        push_char(out, '-');
        let m: u64 = if n == i64::MIN { 9223372036854775808u64 } else { (-n) as u64 };
        push_digits(out, m);
        assert(out@ =~= old(out)@ + decimal(n as int));
    } else {
        push_digits(out, n as u64);
    }
}

// ── Runs of bytes ──────────────────────────────────────────────────

/// Byte classes the scanner reads runs of.
pub enum ByteClass {
    Digit,
    Hex,
    /// Variable-name characters: `_` and ASCII letters and digits.
    Name,
    /// Base-N digit characters: ASCII letters and digits, `@` and `_`.
    BaseDigit,
    /// Space and tab.
    Blank,
    /// Anything but `}`.
    NotCloseBrace,
}

pub open spec fn in_class(k: ByteClass, c: u8) -> bool {
    match k {
        ByteClass::Digit => is_digit(c),
        ByteClass::Hex => is_hex_digit(c),
        ByteClass::Name => is_name_char(c),
        ByteClass::BaseDigit => is_alnum(c) || c == AT || c == UNDERSCORE,
        ByteClass::Blank => c == SPACE || c == TAB,
        ByteClass::NotCloseBrace => c != CLOSE_BRACE,
    }
}

/// The end of the run of class `k` that starts at `i`.
pub open spec fn run_end(b: Seq<u8>, i: int, k: ByteClass) -> int
    decreases b.len() - i,
{
    if 0 <= i < b.len() && in_class(k, b[i]) {
        run_end(b, i + 1, k)
    } else {
        i
    }
}

pub proof fn lemma_run_end(b: Seq<u8>, i: int, k: ByteClass)
    requires
        0 <= i <= b.len(),
    ensures
        i <= run_end(b, i, k) <= b.len(),
        forall|j: int| i <= j < run_end(b, i, k) ==> in_class(k, #[trigger] b[j]),
        run_end(b, i, k) < b.len() ==> !in_class(k, b[run_end(b, i, k)]),
    decreases b.len() - i,
{
    if i < b.len() && in_class(k, b[i]) {
        lemma_run_end(b, i + 1, k);
    }
}

fn in_class_exec(k: &ByteClass, c: u8) -> (r: bool)
    ensures
        r == in_class(*k, c),
{
    match k {
        ByteClass::Digit => DIGIT_0 <= c && c <= DIGIT_9,
        ByteClass::Hex => (DIGIT_0 <= c && c <= DIGIT_9) || (LOWER_A <= c && c <= LOWER_F) || (UPPER_A <= c && c <= UPPER_F),
        ByteClass::Name => c == UNDERSCORE || (DIGIT_0 <= c && c <= DIGIT_9) || (LOWER_A <= c && c <= LOWER_Z) || (UPPER_A <= c && c <= UPPER_Z),
        ByteClass::BaseDigit => (DIGIT_0 <= c && c <= DIGIT_9) || (LOWER_A <= c && c <= LOWER_Z) || (UPPER_A <= c && c <= UPPER_Z) || c == AT || c == UNDERSCORE,
        ByteClass::Blank => c == SPACE || c == TAB,
        ByteClass::NotCloseBrace => c != CLOSE_BRACE,
    }
}

/// Skips the run of class `k` starting at `i`.
fn skip_run(b: &[u8], i: usize, k: ByteClass) -> (e: usize)
    requires
        i <= b@.len(),
    ensures
        e == run_end(b@, i as int, k),
{
    let mut j = i;
    while j < b.len() && in_class_exec(&k, b[j])
        invariant
            i <= j <= b@.len(),
            run_end(b@, i as int, k) == run_end(b@, j as int, k),
        decreases b.len() - j,
    {
        j = j + 1;
    }
    j
}

/// Bytes shown as characters one for one (the scanner only shows ASCII).
pub open spec fn ascii_chars(s: Seq<u8>) -> Seq<char> {
    s.map_values(|c: u8| c as char)
}

fn push_bytes(out: &mut String, b: &[u8], lo: usize, hi: usize)
    requires
        lo <= hi <= b@.len(),
    ensures
        final(out)@ == old(out)@ + ascii_chars(b@.subrange(lo as int, hi as int)),
{
    let mut j = lo;
    while j < hi
        invariant
            lo <= j <= hi <= b@.len(),
            out@ == old(out)@ + ascii_chars(b@.subrange(lo as int, j as int)),
        decreases hi - j,
    {
        push_char(out, b[j] as char);
        j = j + 1;
        assert(out@ =~= old(out)@ + ascii_chars(b@.subrange(lo as int, j as int)));
    }
}

// ── Number literals ────────────────────────────────────────────────

/// The value of a hexadecimal (so also octal or decimal) digit.
pub open spec fn digit_value(c: u8) -> int {
    if is_digit(c) {
        c - DIGIT_0
    } else if LOWER_A <= c <= LOWER_F {
        c - LOWER_A + 10
    } else {
        c - UPPER_A + 10
    }
}

/// The value of a run of digits in `radix`.
pub open spec fn radix_value(s: Seq<u8>, radix: int) -> int
    decreases s.len(),
{
    if s.len() == 0 {
        0
    } else {
        radix_value(s.drop_last(), radix) * radix + digit_value(s.last())
    }
}

pub open spec fn all_hex_digits(s: Seq<u8>) -> bool {
    forall|j: int| 0 <= j < s.len() ==> is_hex_digit(#[trigger] s[j])
}

/// A longer run of digits is worth at least as much.
proof fn lemma_radix_value_grows(s: Seq<u8>, k: int, radix: int)
    requires
        0 <= k <= s.len(),
        radix >= 1,
        all_hex_digits(s),
    ensures
        0 <= radix_value(s.take(k), radix) <= radix_value(s, radix),
    decreases s.len(),
{
    if s.len() > 0 {
        let p = s.drop_last();
        assert(all_hex_digits(p)) by {
            assert forall|j: int| 0 <= j < p.len() implies is_hex_digit(#[trigger] p[j]) by {
                assert(p[j] == s[j]);
            }
        }
        if k == s.len() {
            assert(s.take(k) =~= s);
            lemma_radix_value_grows(p, p.len() as int, radix);
            assert(p.take(p.len() as int) =~= p);
        } else {
            lemma_radix_value_grows(p, k, radix);
            assert(p.take(k) =~= s.take(k));
        }
        let v = radix_value(p, radix);
        assert(is_hex_digit(s[s.len() - 1]));
        assert(v * radix >= v) by (nonlinear_arith)
            requires
                v >= 0,
                radix >= 1,
        ;
    }
}

fn digit_value_exec(c: u8) -> (d: i64)
    requires
        is_hex_digit(c),
    ensures
        d == digit_value(c),
{
    if DIGIT_0 <= c && c <= DIGIT_9 {
        (c - DIGIT_0) as i64
    } else if LOWER_A <= c && c <= LOWER_F {
        (c - LOWER_A) as i64 + 10
    } else {
        (c - UPPER_A) as i64 + 10
    }
}

/// The value of `b[lo..hi]` in `radix` when it fits in an `i64`.
fn radix_accumulate(b: &[u8], lo: usize, hi: usize, radix: i64) -> (r: Option<i64>)
    requires
        lo <= hi <= b@.len(),
        2 <= radix <= 16,
        all_hex_digits(b@.subrange(lo as int, hi as int)),
    ensures
        r == if radix_value(b@.subrange(lo as int, hi as int), radix as int) <= i64::MAX {
            Some(radix_value(b@.subrange(lo as int, hi as int), radix as int) as i64)
        } else {
            None::<i64>
        },
{
    let ghost s = b@.subrange(lo as int, hi as int);
    let mut acc: i64 = 0;
    let mut j = lo;
    assert(s.take(0) =~= Seq::<u8>::empty());
    while j < hi
        invariant
            lo <= j <= hi <= b@.len(),
            2 <= radix <= 16,
            s == b@.subrange(lo as int, hi as int),
            all_hex_digits(s),
            acc as int == radix_value(s.take(j - lo), radix as int),
            acc >= 0,
        decreases hi - j,
    {
        let ghost k = j - lo;
        assert(s.take(k + 1).drop_last() =~= s.take(k));
        assert(s[k] == b@[j as int]);
        let d = digit_value_exec(b[j]);
        let next = match acc.checked_mul(radix) {
            Some(m) => m.checked_add(d),
            None => None,
        };
        match next {
            Some(n) => {
                acc = n;
                j = j + 1;
            },
            None => {
                proof {
                    lemma_radix_value_grows(s, k + 1, radix as int);
                }
                return None;
            },
        }
    }
    assert(s.take(hi - lo) =~= s);
    Some(acc)
}

/// `0x` or `0X` starts the literal at `i`.
pub open spec fn hex_prefix(b: Seq<u8>, i: int) -> bool {
    b[i] == DIGIT_0 && i + 1 < b.len() && (b[i + 1] == LOWER_X || b[i + 1] == UPPER_X)
}

/// Where the number literal starting at `i` ends: after the hex digits of
/// a `0x` literal, otherwise after the run of decimal digits.
pub open spec fn number_end(b: Seq<u8>, i: int) -> int {
    if hex_prefix(b, i) {
        run_end(b, i + 2, ByteClass::Hex)
    } else {
        run_end(b, i, ByteClass::Digit)
    }
}

pub open spec fn all_octal(s: Seq<u8>) -> bool {
    forall|j: int| 0 <= j < s.len() ==> #[trigger] s[j] <= DIGIT_7
}

/// The value of the number literal at `i` (hex after `0x`, octal after a
/// leading `0`, decimal otherwise), or the error the shell reports.
pub open spec fn number_value(b: Seq<u8>, i: int) -> Result<i64, Seq<char>> {
    let e = number_end(b, i);
    if hex_prefix(b, i) {
        let s = b.subrange(i + 2, e);
        if s.len() == 0 {
            Err("arithmetic: invalid hex number"@)
        } else if radix_value(s, 16) <= i64::MAX {
            Ok(radix_value(s, 16) as i64)
        } else {
            Err("arithmetic: invalid hex number `0x"@ + ascii_chars(s) + "`"@)
        }
    } else if b[i] == DIGIT_0 {
        let s = b.subrange(i, e);
        if all_octal(s) && radix_value(s, 8) <= i64::MAX {
            Ok(radix_value(s, 8) as i64)
        } else {
            Err("arithmetic: invalid octal number `"@ + ascii_chars(s) + "`"@)
        }
    } else {
        let s = b.subrange(i, e);
        if radix_value(s, 10) <= i64::MAX {
            Ok(radix_value(s, 10) as i64)
        } else {
            Err("arithmetic: invalid decimal number `"@ + ascii_chars(s) + "`"@)
        }
    }
}

/// An error of the scanner, carrying `m` as its message.
pub open spec fn execution_error<T>(r: Result<T, RustBashError>, m: Seq<char>) -> bool {
    r matches Err(RustBashError::Execution(e)) && e@ == m
}

fn error_with(prefix: &str, b: &[u8], lo: usize, hi: usize, suffix: &str) -> (e: RustBashError)
    requires
        lo <= hi <= b@.len(),
    ensures
        e matches RustBashError::Execution(m) && m@ == prefix@ + ascii_chars(b@.subrange(lo as int, hi as int)) + suffix@,
{
    let mut m = String::new();
    crate::text::push_str(&mut m, prefix);
    push_bytes(&mut m, b, lo, hi);
    crate::text::push_str(&mut m, suffix);
    RustBashError::Execution(m)
}

/// Scans the number literal at `*i` (a digit) and advances `*i` past it.
pub fn parse_number(bytes: &[u8], i: &mut usize) -> (r: Result<i64, RustBashError>)
    requires
        *old(i) < bytes@.len(),
        is_digit(bytes@[*old(i) as int]),
    ensures
        *final(i) == number_end(bytes@, *old(i) as int),
        match number_value(bytes@, *old(i) as int) {
            Ok(v) => r == Ok::<i64, RustBashError>(v),
            Err(m) => execution_error(r, m),
        },
{
    let ghost b = bytes@;
    let start = *i;
    if bytes[start] == DIGIT_0 && start + 1 < bytes.len() && (bytes[start + 1] == LOWER_X || bytes[start + 1] == UPPER_X) {
        let hex_start = start + 2;
        let end = skip_run(bytes, hex_start, ByteClass::Hex);
        proof {
            lemma_run_end(b, hex_start as int, ByteClass::Hex);
        }
        *i = end;
        if end == hex_start {
            return Err(RustBashError::Execution(String::from_str("arithmetic: invalid hex number")));
        }
        proof {
            assert(all_hex_digits(b.subrange(hex_start as int, end as int))) by {
                assert forall|j: int| 0 <= j < end - hex_start implies is_hex_digit(#[trigger] b.subrange(hex_start as int, end as int)[j]) by {
                    assert(in_class(ByteClass::Hex, b[hex_start + j]));
                }
            }
        }
        return match radix_accumulate(bytes, hex_start, end, 16) {
            Some(v) => Ok(v),
            None => Err(error_with("arithmetic: invalid hex number `0x", bytes, hex_start, end, "`")),
        };
    }
    let end = skip_run(bytes, start, ByteClass::Digit);
    proof {
        lemma_run_end(b, start as int, ByteClass::Digit);
        assert(all_hex_digits(b.subrange(start as int, end as int))) by {
            assert forall|j: int| 0 <= j < end - start implies is_hex_digit(#[trigger] b.subrange(start as int, end as int)[j]) by {
                assert(in_class(ByteClass::Digit, b[start + j]));
            }
        }
    }
    *i = end;
    if bytes[start] == DIGIT_0 {
        let mut j = start;
        while j < end
            invariant
                start <= j <= end <= b.len(),
                b == bytes@,
                forall|k: int| start <= k < j ==> #[trigger] b[k] <= DIGIT_7,
                *i == end,
                end == run_end(b, start as int, ByteClass::Digit),
                !hex_prefix(b, start as int),
                start == *old(i),
                b[start as int] == DIGIT_0,
            decreases end - j,
        {
            if bytes[j] > DIGIT_7 {
                proof {
                    assert(b.subrange(start as int, end as int)[j - start] == b[j as int]);
                }
                return Err(error_with("arithmetic: invalid octal number `", bytes, start, end, "`"));
            }
            j = j + 1;
        }
        proof {
            assert(all_octal(b.subrange(start as int, end as int))) by {
                assert forall|k: int| 0 <= k < end - start implies #[trigger] b.subrange(start as int, end as int)[k] <= DIGIT_7 by {
                    assert(b.subrange(start as int, end as int)[k] == b[start + k]);
                }
            }
        }
        return match radix_accumulate(bytes, start, end, 8) {
            Some(v) => Ok(v),
            None => Err(error_with("arithmetic: invalid octal number `", bytes, start, end, "`")),
        };
    }
    match radix_accumulate(bytes, start, end, 10) {
        Some(v) => Ok(v),
        None => Err(error_with("arithmetic: invalid decimal number `", bytes, start, end, "`")),
    }
}

// ── Base-N literals ────────────────────────────────────────────────

/// The value of a base-N digit: `0`-`9`, then `a`-`z` from 10; `A`-`Z`
/// also from 10 up to base 36 and from 36 above it; `@` is 62 and `_` 63.
pub open spec fn base_digit(c: char, base: int) -> Option<int> {
    let n = c as u32 as int;
    if 48 <= n <= 57 {
        Some(n - 48)
    } else if 97 <= n <= 122 {
        Some(n - 97 + 10)
    } else if 65 <= n <= 90 {
        if base <= 36 {
            Some(n - 65 + 10)
        } else {
            Some(n - 65 + 36)
        }
    } else if n == 64 {
        Some(62)
    } else if n == 95 {
        Some(63)
    } else {
        None
    }
}

/// Every character is a digit below `base`.
pub open spec fn base_digits_ok(d: Seq<char>, base: int) -> bool {
    forall|k: int| 0 <= k < d.len() ==> (#[trigger] base_digit(d[k], base) matches Some(v) && v < base)
}

/// The value of base-N digits, with wrapping `i64` arithmetic.
pub open spec fn base_value(d: Seq<char>, base: i64) -> i64
    decreases d.len(),
{
    if d.len() == 0 {
        0
    } else {
        i64_specs::wrapping_add(
            i64_specs::wrapping_mul(base_value(d.drop_last(), base), base),
            base_digit(d.last(), base as int)->0 as i64,
        )
    }
}

/// The value of `digits` in `base`, or the error the shell reports.
pub open spec fn base_n_result(base: i64, digits: Seq<char>) -> Result<i64, Seq<char>> {
    if !(2 <= base <= 64) {
        Err("arithmetic: invalid arithmetic base: "@ + decimal(base as int))
    } else if digits.len() == 0 {
        Err("arithmetic: invalid base constant `"@ + decimal(base as int) + "#`"@)
    } else if !base_digits_ok(digits, base as int) {
        Err("arithmetic: value too great for base: "@ + digits + " (base "@ + decimal(base as int) + ")"@)
    } else {
        Ok(base_value(digits, base))
    }
}

fn base_digit_exec(c: char, base: i64) -> (r: Option<i64>)
    ensures
        r == match base_digit(c, base as int) {
            Some(v) => Some(v as i64),
            None => None::<i64>,
        },
{
    let n = c as u32;
    if 48 <= n && n <= 57 {
        Some((n - 48) as i64)
    } else if 97 <= n && n <= 122 {
        Some((n - 97) as i64 + 10)
    } else if 65 <= n && n <= 90 {
        if base <= 36 {
            Some((n - 65) as i64 + 10)
        } else {
            Some((n - 65) as i64 + 36)
        }
    } else if n == 64 {
        Some(62)
    } else if n == 95 {
        Some(63)
    } else {
        None
    }
}

/// Checks and evaluates the digits of a `base#digits` literal.
pub fn parse_base_n_value(base: i64, digits: &str) -> (r: Result<i64, RustBashError>)
    ensures
        match base_n_result(base, digits@) {
            Ok(v) => r == Ok::<i64, RustBashError>(v),
            Err(m) => execution_error(r, m),
        },
{
    if !(2 <= base && base <= 64) {
        let mut m = String::from_str("arithmetic: invalid arithmetic base: ");
        push_decimal(&mut m, base);
        return Err(RustBashError::Execution(m));
    }
    let d = crate::text::chars_of(digits);
    if d.len() == 0 {
        let mut m = String::from_str("arithmetic: invalid base constant `");
        push_decimal(&mut m, base);
        crate::text::push_str(&mut m, "#`");
        return Err(RustBashError::Execution(m));
    }
    let mut result: i64 = 0;
    let mut k: usize = 0;
    assert(d@.take(0) =~= Seq::<char>::empty());
    while k < d.len()
        invariant
            k <= d@.len(),
            d@ == digits@,
            2 <= base <= 64,
            base_digits_ok(d@.take(k as int), base as int),
            result == base_value(d@.take(k as int), base),
        decreases d.len() - k,
    {
        let dv = base_digit_exec(d[k], base);
        let v = match dv {
            Some(v) if v < base => v,
            _ => {
                proof {
                    assert(!base_digits_ok(digits@, base as int)) by {
                        assert(!(base_digit(d@[k as int], base as int) matches Some(v) && v < base));
                    }
                }
                let mut m = String::from_str("arithmetic: value too great for base: ");
                crate::text::push_str(&mut m, digits);
                crate::text::push_str(&mut m, " (base ");
                push_decimal(&mut m, base);
                crate::text::push_str(&mut m, ")");
                return Err(RustBashError::Execution(m));
            },
        };
        proof {
            let t = d@.take(k + 1);
            assert(t.drop_last() =~= d@.take(k as int));
            assert(t.last() == d@[k as int]);
            assert forall|j: int| 0 <= j < t.len() implies (#[trigger] base_digit(t[j], base as int) matches Some(w) && w < base) by {
                if j < k {
                    assert(t[j] == d@.take(k as int)[j]);
                }
            }
        }
        result = result.wrapping_mul(base).wrapping_add(v);
        k = k + 1;
    }
    assert(d@.take(d@.len() as int) =~= d@);
    Ok(result)
}

// ── Quote stripping and validation ─────────────────────────────────

/// Arithmetic whitespace: space, tab and newline (`\r` is not: bash
/// rejects it in arithmetic).
pub open spec fn is_arith_space(c: u8) -> bool {
    c == SPACE || c == TAB || c == NEWLINE
}

/// The operator and punctuation characters arithmetic accepts.
pub open spec fn is_operator_char(c: u8) -> bool {
    c == PLUS || c == MINUS || c == STAR || c == SLASH || c == PERCENT || c == AMPERSAND || c == PIPE || c == CARET
        || c == TILDE || c == BANG || c == LESS || c == GREATER || c == EQUALS || c == QUESTION || c == OPEN_PAREN
        || c == CLOSE_PAREN || c == COLON || c == OPEN_BRACKET || c == CLOSE_BRACKET || c == COMMA
}

/// The closing `"` of a double-quoted region whose text starts at `j`
/// (a backslash skips the byte after it), or the end of the input.
pub open spec fn quoted_end(b: Seq<u8>, j: int) -> int
    decreases b.len() - j,
{
    if j < 0 || j >= b.len() || b[j] == DOUBLE_QUOTE {
        j
    } else if b[j] == BACKSLASH && j + 1 < b.len() {
        quoted_end(b, j + 2)
    } else {
        quoted_end(b, j + 1)
    }
}

pub proof fn lemma_quoted_end(b: Seq<u8>, j: int)
    requires
        0 <= j <= b.len(),
    ensures
        j <= quoted_end(b, j) <= b.len(),
        quoted_end(b, j) < b.len() ==> b[quoted_end(b, j)] == DOUBLE_QUOTE,
    decreases b.len() - j,
{
    if j < b.len() && b[j] != DOUBLE_QUOTE {
        if b[j] == BACKSLASH && j + 1 < b.len() {
            lemma_quoted_end(b, j + 2);
        } else {
            lemma_quoted_end(b, j + 1);
        }
    }
}

/// One step of the scanner: emit text and go on at an index, stop with an
/// error message, or descend into a double-quoted region `lo..hi` and go
/// on at `next` afterwards.
pub enum Scan {
    Emit(Seq<char>, int),
    Fail(Seq<char>),
    Quoted(int, int, int),
}

/// What follows a `$` whose next byte is at `k`: `${name}`, `$name`,
/// `$<digits>`, `$#` and `$?` become names the evaluator understands; a
/// lone or malformed `$` emits nothing.
pub open spec fn dollar_step(b: Seq<u8>, k: int) -> Scan {
    let n = b.len();
    if k < n && b[k] == OPEN_BRACE {
        let j = run_end(b, k + 1, ByteClass::NotCloseBrace);
        let inner = b.subrange(k + 1, j);
        if j < n && inner.len() > 0 && (forall|x: int| 0 <= x < inner.len() ==> is_name_char(#[trigger] inner[x])) {
            Scan::Emit(ascii_chars(inner), j + 1)
        } else {
            Scan::Emit(seq![], k)
        }
    } else if k < n && is_name_start(b[k]) {
        let e = run_end(b, k, ByteClass::Name);
        Scan::Emit(ascii_chars(b.subrange(k, e)), e)
    } else if k < n && is_digit(b[k]) {
        let e = run_end(b, k, ByteClass::Digit);
        Scan::Emit("__RB_ARITH_POS_"@ + ascii_chars(b.subrange(k, e)) + "__"@, e)
    } else if k < n && b[k] == HASH {
        Scan::Emit("__RB_ARITH_HASH__"@, k + 1)
    } else if k < n && b[k] == QUESTION {
        Scan::Emit("__RB_ARITH_QUESTION__"@, k + 1)
    } else {
        Scan::Emit(seq![], k)
    }
}

/// The scanner step for the token at `i`.
pub open spec fn step(b: Seq<u8>, i: int, strict: bool) -> Scan {
    let n = b.len();
    let c = b[i];
    if is_arith_space(c) {
        Scan::Emit(seq![c as char], i + 1)
    } else if is_digit(c) {
        let e = number_end(b, i);
        match number_value(b, i) {
            Err(m) => Scan::Fail(m),
            Ok(num) => if e < n && b[e] == DOT {
                Scan::Fail("arithmetic: syntax error: invalid arithmetic operator"@)
            } else if e < n && b[e] == HASH {
                if strict && e - i > 1 && c == DIGIT_0 {
                    Scan::Fail("arithmetic: invalid base constant `"@ + ascii_chars(b.subrange(i, e + 1)) + "`"@)
                } else {
                    let ve = run_end(b, e + 1, ByteClass::BaseDigit);
                    match base_n_result(num, ascii_chars(b.subrange(e + 1, ve))) {
                        Err(m) => Scan::Fail(m),
                        Ok(_) => Scan::Emit(ascii_chars(b.subrange(i, ve)), ve),
                    }
                }
            } else {
                Scan::Emit(ascii_chars(b.subrange(i, e)), e)
            },
        }
    } else if c == SINGLE_QUOTE {
        Scan::Fail("arithmetic: syntax error: operand expected"@)
    } else if c == DOUBLE_QUOTE {
        let j = quoted_end(b, i + 1);
        Scan::Quoted(i + 1, j, if j < n { j + 1 } else { j })
    } else if c == DOLLAR {
        dollar_step(b, i + 1)
    } else if c == BACKSLASH {
        if i + 1 < n && b[i + 1] == DOLLAR {
            Scan::Emit(seq![], i + 1)
        } else {
            Scan::Fail("arithmetic: unexpected character `\\`"@)
        }
    } else if is_name_start(c) {
        let e = run_end(b, i, ByteClass::Name);
        let j = run_end(b, e + 1, ByteClass::Blank);
        if e < n && b[e] == OPEN_BRACKET && j < n && b[j] == CLOSE_BRACKET {
            Scan::Fail(ascii_chars(b.subrange(i, e)) + ": bad array subscript"@)
        } else {
            Scan::Emit(ascii_chars(b.subrange(i, e)), e)
        }
    } else if is_operator_char(c) {
        Scan::Emit(seq![c as char], i + 1)
    } else {
        Scan::Fail("arithmetic: unexpected character `"@ + seq![c as char] + "`"@)
    }
}

/// Every step moves forward, and a quoted region lies inside the input.
pub proof fn lemma_step_progress(b: Seq<u8>, i: int, strict: bool)
    requires
        0 <= i < b.len(),
    ensures
        match step(b, i, strict) {
            Scan::Emit(_, next) => i < next <= b.len(),
            Scan::Quoted(lo, hi, next) => lo == i + 1 && lo <= hi <= next <= b.len() && i < next,
            Scan::Fail(_) => true,
        },
{
    let c = b[i];
    if is_digit(c) {
        if hex_prefix(b, i) {
            lemma_run_end(b, i + 2, ByteClass::Hex);
        } else {
            lemma_run_end(b, i, ByteClass::Digit);
        }
        let e = number_end(b, i);
        if e < b.len() {
            lemma_run_end(b, e + 1, ByteClass::BaseDigit);
        }
    } else if c == DOUBLE_QUOTE {
        lemma_quoted_end(b, i + 1);
    } else if c == DOLLAR {
        let k = i + 1;
        if k < b.len() {
            lemma_run_end(b, k + 1, ByteClass::NotCloseBrace);
            lemma_run_end(b, k, ByteClass::Name);
            lemma_run_end(b, k, ByteClass::Digit);
        }
    } else if is_name_start(c) {
        lemma_run_end(b, i, ByteClass::Name);
    }
}

/// `r` with `s` in front of its text (errors pass through).
pub open spec fn prepend(s: Seq<char>, r: Result<Seq<char>, Seq<char>>) -> Result<Seq<char>, Seq<char>> {
    match r {
        Ok(t) => Ok(s + t),
        Err(m) => Err(m),
    }
}

/// What the scanner makes of `b[i..]`: the text handed to the structural
/// parser (double quotes stripped, `$` forms mapped to names), or the
/// first error.
pub open spec fn strip_from(b: Seq<u8>, i: int, strict: bool) -> Result<Seq<char>, Seq<char>>
    decreases b.len() - i,
{
    if i < 0 || i >= b.len() {
        Ok(seq![])
    } else {
        proof {
            lemma_step_progress(b, i, strict);
        }
        match step(b, i, strict) {
            Scan::Fail(m) => Err(m),
            Scan::Emit(s, next) => prepend(s, strip_from(b, next, strict)),
            Scan::Quoted(lo, hi, next) => match strip_from(b.subrange(lo, hi), 0, strict) {
                Err(m) => Err(m),
                Ok(t) => prepend(t, strip_from(b, next, strict)),
            },
        }
    }
}

/// The strict flag only matters for a base constant: without a `#` the
/// scan comes out the same either way.
pub proof fn lemma_strict_needs_hash(b: Seq<u8>, i: int)
    requires
        forall|k: int| 0 <= k < b.len() ==> b[k] != HASH,
    ensures
        strip_from(b, i, true) == strip_from(b, i, false),
    decreases b.len() - i,
{
    if 0 <= i < b.len() {
        lemma_step_progress(b, i, true);
        lemma_step_progress(b, i, false);
        assert(step(b, i, true) == step(b, i, false)) by {
            if is_digit(b[i]) {
                if hex_prefix(b, i) {
                    lemma_run_end(b, i + 2, ByteClass::Hex);
                } else {
                    lemma_run_end(b, i, ByteClass::Digit);
                }
                let e = number_end(b, i);
                if e < b.len() {
                    assert(b[e] != HASH);
                }
            }
        }
        match step(b, i, true) {
            Scan::Fail(_) => {},
            Scan::Emit(_, next) => {
                lemma_strict_needs_hash(b, next);
            },
            Scan::Quoted(lo, hi, next) => {
                let sub = b.subrange(lo, hi);
                assert forall|k: int| 0 <= k < sub.len() implies sub[k] != HASH by {
                    assert(sub[k] == b[lo + k]);
                }
                lemma_strict_needs_hash(sub, 0);
                lemma_strict_needs_hash(b, next);
            },
        }
    }
}

/// A byte the scanner may hand on: an ASCII letter or digit, `_`, `@`,
/// `#`, blank space, or an operator character.
pub open spec fn safe_byte(c: u8) -> bool {
    is_alnum(c) || c == UNDERSCORE || c == AT || c == HASH || is_arith_space(c) || is_operator_char(c)
}

/// Every character of `t` is one of the safe ASCII bytes.
pub open spec fn safe_text(t: Seq<char>) -> bool {
    forall|k: int| 0 <= k < t.len() ==> (t[k] as u32) < 128 && safe_byte(#[trigger] t[k] as u8)
}

proof fn lemma_safe_run(b: Seq<u8>, lo: int, hi: int)
    requires
        0 <= lo <= hi <= b.len(),
        forall|j: int| lo <= j < hi ==> safe_byte(#[trigger] b[j]),
    ensures
        safe_text(ascii_chars(b.subrange(lo, hi))),
{
    assert forall|k: int| 0 <= k < ascii_chars(b.subrange(lo, hi)).len() implies (ascii_chars(b.subrange(lo, hi))[k] as u32) < 128
        && safe_byte(#[trigger] ascii_chars(b.subrange(lo, hi))[k] as u8) by {
        let c = b[lo + k];
        assert(ascii_chars(b.subrange(lo, hi))[k] == c as char);
        assert(safe_byte(c));
        assert(c < 128);
    }
}

proof fn lemma_safe_concat(a: Seq<char>, c: Seq<char>)
    requires
        safe_text(a),
        safe_text(c),
    ensures
        safe_text(a + c),
{
    assert forall|k: int| 0 <= k < (a + c).len() implies ((a + c)[k] as u32) < 128 && safe_byte(#[trigger] (a + c)[k] as u8) by {
        if k < a.len() {
            assert((a + c)[k] == a[k]);
        } else {
            assert((a + c)[k] == c[k - a.len()]);
        }
    }
}

proof fn lemma_safe_word(w: Seq<char>)
    requires
        forall|k: int| 0 <= k < w.len() ==> w[k] == '_' || ('A' <= #[trigger] w[k] <= 'Z'),
    ensures
        safe_text(w),
{
    assert forall|k: int| 0 <= k < w.len() implies (w[k] as u32) < 128 && safe_byte(#[trigger] w[k] as u8) by {
        assert(w[k] == '_' || ('A' <= w[k] <= 'Z'));
    }
}

/// Whatever one scanner step emits holds only safe ASCII.
proof fn lemma_step_safe(b: Seq<u8>, i: int, strict: bool)
    requires
        0 <= i < b.len(),
    ensures
        step(b, i, strict) matches Scan::Emit(s, _) ==> safe_text(s),
{
    let c = b[i];
    let n = b.len();
    if is_arith_space(c) || (!is_digit(c) && c != SINGLE_QUOTE && c != DOUBLE_QUOTE && c != DOLLAR && c != BACKSLASH && !is_name_start(c)
        && is_operator_char(c)) {
        assert(seq![c as char][0] == c as char);
        lemma_safe_run(seq![c], 0, 1);
        assert(ascii_chars(seq![c].subrange(0, 1)) =~= seq![c as char]);
    } else if is_digit(c) {
        if hex_prefix(b, i) {
            lemma_run_end(b, i + 2, ByteClass::Hex);
        } else {
            lemma_run_end(b, i, ByteClass::Digit);
        }
        let e = number_end(b, i);
        assert forall|j: int| i <= j < e implies safe_byte(#[trigger] b[j]) by {
            if hex_prefix(b, i) && j >= i + 2 {
                assert(is_hex_digit(b[j]));
            }
        }
        lemma_safe_run(b, i, e);
        if e < n {
            lemma_run_end(b, e + 1, ByteClass::BaseDigit);
            let ve = run_end(b, e + 1, ByteClass::BaseDigit);
            if b[e] == HASH {
                assert forall|j: int| i <= j < ve implies safe_byte(#[trigger] b[j]) by {
                    if hex_prefix(b, i) && i + 2 <= j < e {
                        assert(is_hex_digit(b[j]));
                    }
                }
                lemma_safe_run(b, i, ve);
            }
        }
    } else if c == DOLLAR {
        let k = i + 1;
        reveal_strlit("__RB_ARITH_POS_");
        reveal_strlit("__");
        reveal_strlit("__RB_ARITH_HASH__");
        reveal_strlit("__RB_ARITH_QUESTION__");
        if k < n && b[k] == OPEN_BRACE {
            lemma_run_end(b, k + 1, ByteClass::NotCloseBrace);
            let j = run_end(b, k + 1, ByteClass::NotCloseBrace);
            let inner = b.subrange(k + 1, j);
            if j < n && inner.len() > 0 && (forall|x: int| 0 <= x < inner.len() ==> is_name_char(#[trigger] inner[x])) {
                assert forall|x: int| k + 1 <= x < j implies safe_byte(#[trigger] b[x]) by {
                    assert(inner[x - (k + 1)] == b[x]);
                    assert(is_name_char(inner[x - (k + 1)]));
                }
                lemma_safe_run(b, k + 1, j);
            }
        } else if k < n && is_name_start(b[k]) {
            lemma_run_end(b, k, ByteClass::Name);
            lemma_safe_run(b, k, run_end(b, k, ByteClass::Name));
        } else if k < n && is_digit(b[k]) {
            lemma_run_end(b, k, ByteClass::Digit);
            let e = run_end(b, k, ByteClass::Digit);
            lemma_safe_run(b, k, e);
            lemma_safe_word("__RB_ARITH_POS_"@);
            lemma_safe_word("__"@);
            lemma_safe_concat("__RB_ARITH_POS_"@, ascii_chars(b.subrange(k, e)));
            lemma_safe_concat("__RB_ARITH_POS_"@ + ascii_chars(b.subrange(k, e)), "__"@);
        } else if k < n && b[k] == HASH {
            lemma_safe_word("__RB_ARITH_HASH__"@);
        } else if k < n && b[k] == QUESTION {
            lemma_safe_word("__RB_ARITH_QUESTION__"@);
        }
    } else if is_name_start(c) && c != DOLLAR {
        lemma_run_end(b, i, ByteClass::Name);
        lemma_safe_run(b, i, run_end(b, i, ByteClass::Name));
    }
}

/// Whatever the scanner hands on holds only safe ASCII: no quote, `$`,
/// backslash, carriage return or non-ASCII character survives.
pub proof fn lemma_strip_output_safe(b: Seq<u8>, i: int, strict: bool)
    ensures
        strip_from(b, i, strict) matches Ok(t) ==> safe_text(t),
    decreases b.len() - i,
{
    if 0 <= i < b.len() {
        lemma_step_progress(b, i, strict);
        lemma_step_safe(b, i, strict);
        match step(b, i, strict) {
            Scan::Fail(_) => {},
            Scan::Emit(s, next) => {
                lemma_strip_output_safe(b, next, strict);
                if let Ok(t) = strip_from(b, next, strict) {
                    lemma_safe_concat(s, t);
                }
            },
            Scan::Quoted(lo, hi, next) => {
                lemma_strip_output_safe(b.subrange(lo, hi), 0, strict);
                lemma_strip_output_safe(b, next, strict);
                if let Ok(t) = strip_from(b.subrange(lo, hi), 0, strict) {
                    if let Ok(u) = strip_from(b, next, strict) {
                        lemma_safe_concat(t, u);
                    }
                }
            },
        }
    } else {
        assert(safe_text(Seq::<char>::empty()));
    }
}

pub proof fn lemma_prepend_assoc(a: Seq<char>, b: Seq<char>, r: Result<Seq<char>, Seq<char>>)
    ensures
        prepend(a, prepend(b, r)) == prepend(a + b, r),
{
    if r is Ok {
        assert(a + (b + r->Ok_0) =~= (a + b) + r->Ok_0);
    }
}

/// Space, tab or newline.
pub fn is_arithmetic_whitespace(byte: u8) -> (r: bool)
    ensures
        r == is_arith_space(byte),
{
    byte == SPACE || byte == TAB || byte == NEWLINE
}

fn is_operator_byte(c: u8) -> (r: bool)
    ensures
        r == is_operator_char(c),
{
    c == PLUS || c == MINUS || c == STAR || c == SLASH || c == PERCENT || c == AMPERSAND || c == PIPE || c == CARET
        || c == TILDE || c == BANG || c == LESS || c == GREATER || c == EQUALS || c == QUESTION || c == OPEN_PAREN
        || c == CLOSE_PAREN || c == COLON || c == OPEN_BRACKET || c == CLOSE_BRACKET || c == COMMA
}

fn all_name_bytes(b: &[u8], lo: usize, hi: usize) -> (r: bool)
    requires
        lo <= hi <= b@.len(),
    ensures
        r == (forall|x: int| 0 <= x < hi - lo ==> is_name_char(#[trigger] b@.subrange(lo as int, hi as int)[x])),
{
    let ghost sub = b@.subrange(lo as int, hi as int);
    let mut x = lo;
    while x < hi
        invariant
            lo <= x <= hi <= b@.len(),
            sub == b@.subrange(lo as int, hi as int),
            forall|y: int| 0 <= y < x - lo ==> is_name_char(#[trigger] sub[y]),
        decreases hi - x,
    {
        let c = b[x];
        assert(sub[x - lo] == c);
        if !(c == UNDERSCORE || (DIGIT_0 <= c && c <= DIGIT_9) || (LOWER_A <= c && c <= LOWER_Z) || (UPPER_A <= c && c <= UPPER_Z)) {
            return false;
        }
        x = x + 1;
    }
    true
}

/// A scanner step taken: text emitted and the index to go on at, or the
/// step's error.
pub open spec fn scanned(st: Scan, r: Result<usize, RustBashError>, before: Seq<char>, after: Seq<char>) -> bool {
    match st {
        Scan::Emit(s, next) => r == Ok::<usize, RustBashError>(next as usize) && after == before + s,
        Scan::Fail(m) => execution_error(r, m),
        Scan::Quoted(..) => false,
    }
}

fn scan_number(b: &[u8], i: usize, strict: bool, out: &mut String) -> (r: Result<usize, RustBashError>)
    requires
        i < b@.len(),
        is_digit(b@[i as int]),
    ensures
        scanned(step(b@, i as int, strict), r, old(out)@, final(out)@),
{
    let n = b.len();
    let start = i;
    let mut i = i;
    proof {
        if hex_prefix(b@, start as int) {
            lemma_run_end(b@, start + 2, ByteClass::Hex);
        } else {
            lemma_run_end(b@, start as int, ByteClass::Digit);
        }
    }
    let num = match parse_number(b, &mut i) {
        Ok(v) => v,
        Err(e) => {
            return Err(e);
        },
    };
    proof {
        lemma_step_progress(b@, start as int, strict);
    }
    if i < n && b[i] == DOT {
        return Err(RustBashError::Execution(String::from_str("arithmetic: syntax error: invalid arithmetic operator")));
    }
    if i < n && b[i] == HASH {
        if strict && i - start > 1 && b[start] == DIGIT_0 {
            return Err(error_with("arithmetic: invalid base constant `", b, start, i + 1, "`"));
        }
        let val_start = i + 1;
        let ve = skip_run(b, val_start, ByteClass::BaseDigit);
        proof {
            lemma_run_end(b@, val_start as int, ByteClass::BaseDigit);
        }
        let mut digits = String::new();
        push_bytes(&mut digits, b, val_start, ve);
        assert(digits@ =~= ascii_chars(b@.subrange(val_start as int, ve as int)));
        match parse_base_n_value(num, digits.as_str()) {
            Ok(_) => {},
            Err(e) => {
                return Err(e);
            },
        }
        i = ve;
    }
    push_bytes(out, b, start, i);
    Ok(i)
}

fn scan_dollar(b: &[u8], i: usize, strict: bool, out: &mut String) -> (r: Result<usize, RustBashError>)
    requires
        i < b@.len(),
        b@[i as int] == DOLLAR,
    ensures
        scanned(step(b@, i as int, strict), r, old(out)@, final(out)@),
{
    let n = b.len();
    let k = i + 1;
    proof {
        if k < n {
            lemma_run_end(b@, k as int, ByteClass::Name);
            lemma_run_end(b@, k as int, ByteClass::Digit);
        }
    }
    if k < n && b[k] == OPEN_BRACE {
        let vs = k + 1;
        let j = skip_run(b, vs, ByteClass::NotCloseBrace);
        proof {
            lemma_run_end(b@, vs as int, ByteClass::NotCloseBrace);
        }
        if j < n && j > vs && all_name_bytes(b, vs, j) {
            push_bytes(out, b, vs, j);
            return Ok(j + 1);
        }
        assert(out@ =~= old(out)@ + Seq::<char>::empty());
        return Ok(k);
    }
    if k < n && (b[k] == UNDERSCORE || (LOWER_A <= b[k] && b[k] <= LOWER_Z) || (UPPER_A <= b[k] && b[k] <= UPPER_Z)) {
        let e = skip_run(b, k, ByteClass::Name);
        push_bytes(out, b, k, e);
        return Ok(e);
    }
    if k < n && DIGIT_0 <= b[k] && b[k] <= DIGIT_9 {
        let e = skip_run(b, k, ByteClass::Digit);
        crate::text::push_str(out, "__RB_ARITH_POS_");
        push_bytes(out, b, k, e);
        crate::text::push_str(out, "__");
        assert(out@ =~= old(out)@ + ("__RB_ARITH_POS_"@ + ascii_chars(b@.subrange(k as int, e as int)) + "__"@));
        return Ok(e);
    }
    if k < n && b[k] == HASH {
        crate::text::push_str(out, "__RB_ARITH_HASH__");
        return Ok(k + 1);
    }
    if k < n && b[k] == QUESTION {
        crate::text::push_str(out, "__RB_ARITH_QUESTION__");
        return Ok(k + 1);
    }
    assert(out@ =~= old(out)@ + Seq::<char>::empty());
    Ok(k)
}

fn scan_name(b: &[u8], i: usize, strict: bool, out: &mut String) -> (r: Result<usize, RustBashError>)
    requires
        i < b@.len(),
        is_name_start(b@[i as int]),
    ensures
        scanned(step(b@, i as int, strict), r, old(out)@, final(out)@),
{
    let n = b.len();
    let e = skip_run(b, i, ByteClass::Name);
    proof {
        lemma_run_end(b@, i as int, ByteClass::Name);
    }
    if e < n && b[e] == OPEN_BRACKET {
        let j = skip_run(b, e + 1, ByteClass::Blank);
        if j < n && b[j] == CLOSE_BRACKET {
            proof {
                reveal_strlit("");
            }
            let err = error_with("", b, i, e, ": bad array subscript");
            proof {
                assert(""@ + ascii_chars(b@.subrange(i as int, e as int)) =~= ascii_chars(b@.subrange(i as int, e as int)));
            }
            return Err(err);
        }
    }
    push_bytes(out, b, i, e);
    Ok(e)
}

/// The scanner step at `i` for anything but a double-quoted region.
fn scan_token(b: &[u8], i: usize, strict: bool, out: &mut String) -> (r: Result<usize, RustBashError>)
    requires
        i < b@.len(),
        b@[i as int] != DOUBLE_QUOTE,
    ensures
        scanned(step(b@, i as int, strict), r, old(out)@, final(out)@),
{
    let c = b[i];
    if is_arithmetic_whitespace(c) {
        push_char(out, c as char);
        assert(out@ =~= old(out)@ + seq![c as char]);
        return Ok(i + 1);
    }
    if DIGIT_0 <= c && c <= DIGIT_9 {
        return scan_number(b, i, strict, out);
    }
    if c == SINGLE_QUOTE {
        return Err(RustBashError::Execution(String::from_str("arithmetic: syntax error: operand expected")));
    }
    if c == DOLLAR {
        return scan_dollar(b, i, strict, out);
    }
    if c == BACKSLASH {
        if i + 1 < b.len() && b[i + 1] == DOLLAR {
            assert(out@ =~= old(out)@ + Seq::<char>::empty());
            return Ok(i + 1);
        }
        return Err(RustBashError::Execution(String::from_str("arithmetic: unexpected character `\\`")));
    }
    if c == UNDERSCORE || (LOWER_A <= c && c <= LOWER_Z) || (UPPER_A <= c && c <= UPPER_Z) {
        return scan_name(b, i, strict, out);
    }
    if !is_operator_byte(c) {
        let mut m = String::from_str("arithmetic: unexpected character `");
        push_char(&mut m, c as char);
        crate::text::push_str(&mut m, "`");
        assert(m@ =~= "arithmetic: unexpected character `"@ + seq![c as char] + "`"@);
        return Err(RustBashError::Execution(m));
    }
    push_char(out, c as char);
    assert(out@ =~= old(out)@ + seq![c as char]);
    Ok(i + 1)
}

/// Strips double quotes from arithmetic text and validates literals and
/// characters, appending what the structural parser is to read.
fn strip_bytes(b: &[u8], strict: bool, out: &mut String) -> (r: Result<(), RustBashError>)
    ensures
        match strip_from(b@, 0, strict) {
            Ok(s) => r is Ok && final(out)@ == old(out)@ + s,
            Err(m) => execution_error(r, m),
        },
    decreases b@.len(),
{
    let ghost out0 = out@;
    let ghost mut done = Seq::<char>::empty();
    let n = b.len();
    let mut i: usize = 0;
    assert(out@ =~= out0 + done);
    while i < n
        invariant
            n == b@.len(),
            i <= n,
            out@ == out0 + done,
            strip_from(b@, 0, strict) == prepend(done, strip_from(b@, i as int, strict)),
        decreases n - i,
    {
        let ghost i0 = i as int;
        let ghost before = out@;
        proof {
            lemma_step_progress(b@, i0, strict);
        }
        if b[i] == DOUBLE_QUOTE {
            let inner_start = i + 1;
            let mut j = inner_start;
            while j < n && b[j] != DOUBLE_QUOTE
                invariant
                    n == b@.len(),
                    inner_start <= j <= n,
                    quoted_end(b@, inner_start as int) == quoted_end(b@, j as int),
                decreases n - j,
            {
                if b[j] == BACKSLASH && j + 1 < n {
                    j = j + 2;
                } else {
                    j = j + 1;
                }
            }
            let inner = &b[inner_start..j];
            let next = if j < n { j + 1 } else { j };
            match strip_bytes(inner, strict, out) {
                Ok(()) => {},
                Err(e) => {
                    return Err(e);
                },
            }
            proof {
                let t = strip_from(inner@, 0, strict)->Ok_0;
                lemma_prepend_assoc(done, t, strip_from(b@, next as int, strict));
                done = done + t;
            }
            i = next;
        } else {
            match scan_token(b, i, strict, out) {
                Ok(next) => {
                    proof {
                        let t = step(b@, i0, strict)->Emit_0;
                        lemma_prepend_assoc(done, t, strip_from(b@, next as int, strict));
                        done = done + t;
                    }
                    i = next;
                },
                Err(e) => {
                    return Err(e);
                },
            }
        }
    }
    proof {
        assert(done + seq![] =~= done);
    }
    Ok(())
}

/// Double-quoted regions count as arithmetic (their quotes go), single
/// quotes are an operand error, `$` forms become plain names, number and
/// base-N literals and every other character are validated with the
/// shell's messages. Returns the text for the structural parser, which
/// holds nothing but ASCII letters, digits, `_`, `@`, `#`, blanks and
/// operator characters.
pub fn strip_and_validate(input: &str, strict_arith: bool) -> (r: Result<String, RustBashError>)
    ensures
        match strip_from(encode_utf8(input@), 0, strict_arith) {
            Ok(s) => r matches Ok(t) && t@ == s,
            Err(m) => execution_error(r, m),
        },
        r matches Ok(t) ==> safe_text(t@),
{
    let bytes = input.as_bytes();
    let mut out = String::new();
    proof {
        lemma_strip_output_safe(bytes@, 0, strict_arith);
    }
    match strip_bytes(bytes, strict_arith, &mut out) {
        Ok(()) => {
            assert(out@ =~= Seq::<char>::empty() + strip_from(bytes@, 0, strict_arith)->Ok_0);
            Ok(out)
        },
        Err(e) => Err(e),
    }
}

// ── Operators ──────────────────────────────────────────────────────

/// Binary operators of shell arithmetic.
#[derive(Debug, Clone, Copy, PartialEq, Eq, Structural)]
pub enum ArithBinaryOp {
    Comma,
    LogicalOr,
    LogicalAnd,
    BitwiseOr,
    BitwiseXor,
    BitwiseAnd,
    Equals,
    NotEquals,
    LessThan,
    GreaterThan,
    LessThanOrEqualTo,
    GreaterThanOrEqualTo,
    ShiftLeft,
    ShiftRight,
    Add,
    Subtract,
    Multiply,
    Modulo,
    Divide,
    Power,
}

/// Quotient rounded toward zero.
pub open spec fn trunc_div(x: int, d: int) -> int {
    if x == 0 {
        0
    } else if x > 0 && d > 0 {
        x / d
    } else if x < 0 && d < 0 {
        (-x) / (-d)
    } else if x < 0 {
        -((-x) / d)
    } else {
        -(x / (-d))
    }
}

/// Remainder with the sign of the dividend.
pub open spec fn trunc_rem(x: int, d: int) -> int {
    if x == 0 {
        0
    } else if x > 0 && d > 0 {
        x % d
    } else if x < 0 && d < 0 {
        -((-x) % (-d))
    } else if x < 0 {
        -((-x) % d)
    } else {
        x % (-d)
    }
}

/// `base` to the power `exp`.
pub open spec fn pow(base: int, exp: nat) -> int
    decreases exp,
{
    if exp == 0 {
        1
    } else {
        base * pow(base, (exp - 1) as nat)
    }
}

pub open spec fn from_bool(b: bool) -> i64 {
    if b {
        1
    } else {
        0
    }
}

/// The value of `lhs op rhs` with wrapping `i64` arithmetic, or the error
/// the shell reports (division by zero, negative exponent).
pub open spec fn binary_result(op: ArithBinaryOp, lhs: i64, rhs: i64) -> Result<i64, Seq<char>> {
    match op {
        ArithBinaryOp::Add => Ok(i64_specs::wrapping_add(lhs, rhs)),
        ArithBinaryOp::Subtract => Ok(i64_specs::wrapping_sub(lhs, rhs)),
        ArithBinaryOp::Multiply => Ok(i64_specs::wrapping_mul(lhs, rhs)),
        ArithBinaryOp::Divide => if rhs == 0 {
            Err("arithmetic: division by zero"@)
        } else {
            Ok(i64_specs::signed_crop(trunc_div(lhs as int, rhs as int)))
        },
        ArithBinaryOp::Modulo => if rhs == 0 {
            Err("arithmetic: division by zero"@)
        } else {
            Ok(trunc_rem(lhs as int, rhs as int) as i64)
        },
        ArithBinaryOp::Power => if rhs < 0 {
            Err("arithmetic: exponent less than 0"@)
        } else {
            Ok(i64_specs::signed_crop(pow(lhs as int, rhs as nat)))
        },
        ArithBinaryOp::ShiftLeft => Ok(i64_specs::wrapping_shl(lhs, rhs as u32)),
        ArithBinaryOp::ShiftRight => Ok(i64_specs::wrapping_shr(lhs, rhs as u32)),
        ArithBinaryOp::BitwiseAnd => Ok(lhs & rhs),
        ArithBinaryOp::BitwiseOr => Ok(lhs | rhs),
        ArithBinaryOp::BitwiseXor => Ok(lhs ^ rhs),
        ArithBinaryOp::Equals => Ok(from_bool(lhs == rhs)),
        ArithBinaryOp::NotEquals => Ok(from_bool(lhs != rhs)),
        ArithBinaryOp::LessThan => Ok(from_bool(lhs < rhs)),
        ArithBinaryOp::GreaterThan => Ok(from_bool(lhs > rhs)),
        ArithBinaryOp::LessThanOrEqualTo => Ok(from_bool(lhs <= rhs)),
        ArithBinaryOp::GreaterThanOrEqualTo => Ok(from_bool(lhs >= rhs)),
        _ => Ok(0),
    }
}

/// Comma and the logical operators short-circuit in the evaluator; every
/// other operator is computed here.
pub open spec fn is_computed(op: ArithBinaryOp) -> bool {
    !(op is Comma || op is LogicalOr || op is LogicalAnd)
}

/// Applies a computed binary operator to two values.
pub fn apply_binary_arith(op: &ArithBinaryOp, lhs: i64, rhs: i64) -> (r: Result<i64, RustBashError>)
    requires
        is_computed(*op),
    ensures
        match binary_result(*op, lhs, rhs) {
            Ok(v) => r == Ok::<i64, RustBashError>(v),
            Err(m) => execution_error(r, m),
        },
{
    match op {
        ArithBinaryOp::Add => Ok(lhs.wrapping_add(rhs)),
        ArithBinaryOp::Subtract => Ok(lhs.wrapping_sub(rhs)),
        ArithBinaryOp::Multiply => Ok(lhs.wrapping_mul(rhs)),
        ArithBinaryOp::Divide => {
            if rhs == 0 {
                return Err(RustBashError::Execution(String::from_str("arithmetic: division by zero")));
            }
            if lhs == i64::MIN && rhs == -1 {
                assert(trunc_div(lhs as int, rhs as int) == 0x8000_0000_0000_0000);
                assert(i64_specs::signed_crop(0x8000_0000_0000_0000) == i64::MIN);
                return Ok(i64::MIN);
            }
            match lhs.checked_div(rhs) {
                Some(q) => Ok(q),
                None => {
                    proof {
                        assert(false) by (nonlinear_arith)
                            requires
                                rhs != 0,
                                !(lhs == i64::MIN && rhs == -1),
                                trunc_div(lhs as int, rhs as int) < i64::MIN || trunc_div(lhs as int, rhs as int) > i64::MAX,
                        ;
                    }
                    Ok(0)
                },
            }
        },
        ArithBinaryOp::Modulo => {
            if rhs == 0 {
                return Err(RustBashError::Execution(String::from_str("arithmetic: division by zero")));
            }
            if lhs == i64::MIN && rhs == -1 {
                assert(trunc_rem(lhs as int, rhs as int) == 0);
                return Ok(0);
            }
            match lhs.checked_rem(rhs) {
                Some(m) => Ok(m),
                None => {
                    proof {
                        assert(false) by (nonlinear_arith)
                            requires
                                rhs != 0,
                                !(lhs == i64::MIN && rhs == -1),
                                trunc_rem(lhs as int, rhs as int) < i64::MIN || trunc_rem(lhs as int, rhs as int) > i64::MAX,
                        ;
                    }
                    Ok(0)
                },
            }
        },
        ArithBinaryOp::Power => wrapping_pow(lhs, rhs),
        ArithBinaryOp::ShiftLeft => Ok(lhs.wrapping_shl(rhs as u32)),
        ArithBinaryOp::ShiftRight => Ok(lhs.wrapping_shr(rhs as u32)),
        ArithBinaryOp::BitwiseAnd => Ok(lhs & rhs),
        ArithBinaryOp::BitwiseOr => Ok(lhs | rhs),
        ArithBinaryOp::BitwiseXor => Ok(lhs ^ rhs),
        ArithBinaryOp::Equals => Ok(if lhs == rhs { 1 } else { 0 }),
        ArithBinaryOp::NotEquals => Ok(if lhs != rhs { 1 } else { 0 }),
        ArithBinaryOp::LessThan => Ok(if lhs < rhs { 1 } else { 0 }),
        ArithBinaryOp::GreaterThan => Ok(if lhs > rhs { 1 } else { 0 }),
        ArithBinaryOp::LessThanOrEqualTo => Ok(if lhs <= rhs { 1 } else { 0 }),
        ArithBinaryOp::GreaterThanOrEqualTo => Ok(if lhs >= rhs { 1 } else { 0 }),
        _ => Ok(0),
    }
}

/// Reduction into `i64` depends only on the value modulo 2^64.
proof fn lemma_crop_mod(x: int)
    ensures
        i64_specs::signed_crop(x) as int % 0x1_0000_0000_0000_0000 == x % 0x1_0000_0000_0000_0000,
{
    let m: int = 0x1_0000_0000_0000_0000;
    let r = x % m;
    if r > i64::MAX {
        vstd::arithmetic::div_mod::lemma_mod_sub_multiples_vanish(r, m);
        assert((r - m) % m == r % m);
        vstd::arithmetic::div_mod::lemma_mod_twice(x, m);
    } else {
        vstd::arithmetic::div_mod::lemma_mod_twice(x, m);
    }
}

/// Congruent bases give congruent powers.
proof fn lemma_pow_mod(a: int, b: int, k: nat)
    requires
        a % 0x1_0000_0000_0000_0000 == b % 0x1_0000_0000_0000_0000,
    ensures
        pow(a, k) % 0x1_0000_0000_0000_0000 == pow(b, k) % 0x1_0000_0000_0000_0000,
    decreases k,
{
    let m: int = 0x1_0000_0000_0000_0000;
    if k > 0 {
        lemma_pow_mod(a, b, (k - 1) as nat);
        let pa = pow(a, (k - 1) as nat);
        let pb = pow(b, (k - 1) as nat);
        vstd::arithmetic::div_mod::lemma_mul_mod_noop(a, pa, m);
        vstd::arithmetic::div_mod::lemma_mul_mod_noop(b, pb, m);
    }
}

/// Squaring the base halves the exponent.
proof fn lemma_pow_square(b: int, q: nat)
    ensures
        pow(b, 2 * q) == pow(b * b, q),
        pow(b, 2 * q + 1) == b * pow(b * b, q),
    decreases q,
{
    if q > 0 {
        lemma_pow_square(b, (q - 1) as nat);
        let x = pow(b, (2 * (q - 1)) as nat);
        assert(pow(b, 2 * q) == b * (b * x));
        assert(b * (b * x) == (b * b) * x) by (nonlinear_arith);
    }
}

/// `(r * b) * X` and `r * (b * X)` agree modulo 2^64 after cropping `r * b`.
proof fn lemma_crop_mul_assoc(r: int, b: int, x: int)
    ensures
        i64_specs::signed_crop(i64_specs::signed_crop(r * b) as int * x) == i64_specs::signed_crop(r * (b * x)),
{
    let m: int = 0x1_0000_0000_0000_0000;
    let c = i64_specs::signed_crop(r * b) as int;
    lemma_crop_mod(r * b);
    vstd::arithmetic::div_mod::lemma_mul_mod_noop_left(c, x, m);
    vstd::arithmetic::div_mod::lemma_mul_mod_noop_left(r * b, x, m);
    assert((r * b) * x == r * (b * x)) by (nonlinear_arith);
}

/// `base` to the power `exp` with wrapping `i64` arithmetic; a negative
/// exponent is an error.
pub fn wrapping_pow(base: i64, exp: i64) -> (r: Result<i64, RustBashError>)
    ensures
        exp < 0 ==> execution_error(r, "arithmetic: exponent less than 0"@),
        exp >= 0 ==> r == Ok::<i64, RustBashError>(i64_specs::signed_crop(pow(base as int, exp as nat))),
{
    if exp < 0 {
        return Err(RustBashError::Execution(String::from_str("arithmetic: exponent less than 0")));
    }
    let ghost m: int = 0x1_0000_0000_0000_0000;
    let mut result: i64 = 1;
    let mut b: i64 = base;
    let mut e: u64 = exp as u64;
    proof {
        assert(1 * pow(base as int, exp as nat) == pow(base as int, exp as nat));
    }
    while e > 0
        invariant
            i64_specs::signed_crop(result * pow(b as int, e as nat)) == i64_specs::signed_crop(pow(base as int, exp as nat)),
        decreases e,
    {
        let ghost m: int = 0x1_0000_0000_0000_0000;
        let ghost r0 = result as int;
        let ghost b0 = b as int;
        let ghost e0 = e as nat;
        let q = e / 2;
        proof {
            lemma_pow_square(b0, q as nat);
            let b2 = i64_specs::signed_crop(b0 * b0) as int;
            lemma_crop_mod(b0 * b0);
            lemma_pow_mod(b2, b0 * b0, q as nat);
        }
        if e % 2 == 1 {
            result = result.wrapping_mul(b);
            proof {
                let b2 = i64_specs::signed_crop(b0 * b0) as int;
                let x2 = pow(b2, q as nat);
                let x = pow(b0 * b0, q as nat);
                assert(e0 == 2 * q + 1);
                // crop(crop(r0*b0) * x2) == crop(r0 * (b0 * x2)) and x2 ≡ x
                lemma_crop_mul_assoc(r0, b0, x2);
                vstd::arithmetic::div_mod::lemma_mul_mod_noop_right(r0 * b0, x2, m);
                vstd::arithmetic::div_mod::lemma_mul_mod_noop_right(r0 * b0, x, m);
                assert(r0 * (b0 * x2) == (r0 * b0) * x2) by (nonlinear_arith);
                assert(r0 * (b0 * x) == (r0 * b0) * x) by (nonlinear_arith);
                assert((r0 * b0) * x2 % m == (r0 * b0) * x % m);
                assert(i64_specs::signed_crop(r0 * (b0 * x2)) == i64_specs::signed_crop(r0 * (b0 * x)));
            }
        } else {
            proof {
                let b2 = i64_specs::signed_crop(b0 * b0) as int;
                let x2 = pow(b2, q as nat);
                let x = pow(b0 * b0, q as nat);
                assert(e0 == 2 * q);
                vstd::arithmetic::div_mod::lemma_mul_mod_noop_right(r0, x2, m);
                vstd::arithmetic::div_mod::lemma_mul_mod_noop_right(r0, x, m);
                assert(i64_specs::signed_crop(r0 * x2) == i64_specs::signed_crop(r0 * x));
            }
        }
        e = q;
        b = b.wrapping_mul(b);
    }
    proof {
        assert(pow(b as int, 0) == 1);
        assert(result * 1 == result);
        lemma_crop_mod(result as int);
        assert(i64_specs::signed_crop(result as int) == result) by {
            vstd::arithmetic::div_mod::lemma_fundamental_div_mod(result as int, m);
        }
    }
    Ok(result)
}

// ── Expression text ────────────────────────────────────────────────

/// Unary operators of shell arithmetic.
#[derive(Debug, Clone, Copy, PartialEq, Eq, Structural)]
pub enum ArithUnaryOp {
    UnaryPlus,
    UnaryMinus,
    BitwiseNot,
    LogicalNot,
}

/// Increment and decrement operators.
#[derive(Debug, Clone, Copy, PartialEq, Eq, Structural)]
pub enum ArithStepOp {
    PrefixIncrement,
    PrefixDecrement,
    PostfixIncrement,
    PostfixDecrement,
}

/// A parsed arithmetic expression.
#[derive(Debug)]
pub enum ArithExpr {
    Literal(i64),
    Reference(ArithTarget),
    UnaryOp(ArithUnaryOp, Box<ArithExpr>),
    BinaryOp(ArithBinaryOp, Box<ArithExpr>, Box<ArithExpr>),
    Conditional(Box<ArithExpr>, Box<ArithExpr>, Box<ArithExpr>),
    Assignment(ArithTarget, Box<ArithExpr>),
    BinaryAssignment(ArithBinaryOp, ArithTarget, Box<ArithExpr>),
    UnaryAssignment(ArithStepOp, ArithTarget),
}

/// What an arithmetic expression reads or assigns.
#[derive(Debug)]
pub enum ArithTarget {
    Variable(String),
    ArrayElement(String, Box<ArithExpr>),
}

/// The text of a binary operator.
pub open spec fn op_symbol(op: ArithBinaryOp) -> Seq<char> {
    match op {
        ArithBinaryOp::Comma => ","@,
        ArithBinaryOp::LogicalOr => "||"@,
        ArithBinaryOp::LogicalAnd => "&&"@,
        ArithBinaryOp::BitwiseOr => "|"@,
        ArithBinaryOp::BitwiseXor => "^"@,
        ArithBinaryOp::BitwiseAnd => "&"@,
        ArithBinaryOp::Equals => "=="@,
        ArithBinaryOp::NotEquals => "!="@,
        ArithBinaryOp::LessThan => "<"@,
        ArithBinaryOp::GreaterThan => ">"@,
        ArithBinaryOp::LessThanOrEqualTo => "<="@,
        ArithBinaryOp::GreaterThanOrEqualTo => ">="@,
        ArithBinaryOp::ShiftLeft => "<<"@,
        ArithBinaryOp::ShiftRight => ">>"@,
        ArithBinaryOp::Add => "+"@,
        ArithBinaryOp::Subtract => "-"@,
        ArithBinaryOp::Multiply => "*"@,
        ArithBinaryOp::Modulo => "%"@,
        ArithBinaryOp::Divide => "/"@,
        ArithBinaryOp::Power => "**"@,
    }
}

/// The text of a binary operator.
pub fn binary_op_symbol(op: &ArithBinaryOp) -> (s: &'static str)
    ensures
        s@ == op_symbol(*op),
{
    match op {
        ArithBinaryOp::Comma => ",",
        ArithBinaryOp::LogicalOr => "||",
        ArithBinaryOp::LogicalAnd => "&&",
        ArithBinaryOp::BitwiseOr => "|",
        ArithBinaryOp::BitwiseXor => "^",
        ArithBinaryOp::BitwiseAnd => "&",
        ArithBinaryOp::Equals => "==",
        ArithBinaryOp::NotEquals => "!=",
        ArithBinaryOp::LessThan => "<",
        ArithBinaryOp::GreaterThan => ">",
        ArithBinaryOp::LessThanOrEqualTo => "<=",
        ArithBinaryOp::GreaterThanOrEqualTo => ">=",
        ArithBinaryOp::ShiftLeft => "<<",
        ArithBinaryOp::ShiftRight => ">>",
        ArithBinaryOp::Add => "+",
        ArithBinaryOp::Subtract => "-",
        ArithBinaryOp::Multiply => "*",
        ArithBinaryOp::Modulo => "%",
        ArithBinaryOp::Divide => "/",
        ArithBinaryOp::Power => "**",
    }
}

pub open spec fn unary_symbol(op: ArithUnaryOp) -> Seq<char> {
    match op {
        ArithUnaryOp::LogicalNot => "!"@,
        ArithUnaryOp::BitwiseNot => "~"@,
        ArithUnaryOp::UnaryPlus => "+"@,
        ArithUnaryOp::UnaryMinus => "-"@,
    }
}

/// An expression written back as text, without whitespace (used for
/// associative-array keys and error messages).
pub open spec fn render(e: ArithExpr) -> Seq<char>
    decreases e,
{
    match e {
        ArithExpr::Literal(n) => decimal(n as int),
        ArithExpr::Reference(t) => render_target(t),
        ArithExpr::UnaryOp(op, inner) => unary_symbol(op) + render(*inner),
        ArithExpr::BinaryOp(op, l, r) => render(*l) + op_symbol(op) + render(*r),
        ArithExpr::Conditional(c, t, f) => render(*c) + "?"@ + render(*t) + ":"@ + render(*f),
        ArithExpr::Assignment(t, v) => render_target(t) + "="@ + render(*v),
        ArithExpr::BinaryAssignment(op, t, v) => render_target(t) + op_symbol(op) + "="@ + render(*v),
        ArithExpr::UnaryAssignment(op, t) => match op {
            ArithStepOp::PrefixIncrement => "++"@ + render_target(t),
            ArithStepOp::PrefixDecrement => "--"@ + render_target(t),
            ArithStepOp::PostfixIncrement => render_target(t) + "++"@,
            ArithStepOp::PostfixDecrement => render_target(t) + "--"@,
        },
    }
}

/// A target written back as text: `name` or `name[index]`.
pub open spec fn render_target(t: ArithTarget) -> Seq<char>
    decreases t,
{
    match t {
        ArithTarget::Variable(name) => name@,
        ArithTarget::ArrayElement(name, idx) => name@ + "["@ + render(*idx) + "]"@,
    }
}

fn push_rendered(out: &mut String, e: &ArithExpr)
    ensures
        final(out)@ == old(out)@ + render(*e),
    decreases e,
{
    match e {
        ArithExpr::Literal(n) => {
            push_decimal(out, *n);
        },
        ArithExpr::Reference(t) => {
            push_target(out, t);
        },
        ArithExpr::UnaryOp(op, inner) => {
            let sym = match op {
                ArithUnaryOp::LogicalNot => "!",
                ArithUnaryOp::BitwiseNot => "~",
                ArithUnaryOp::UnaryPlus => "+",
                ArithUnaryOp::UnaryMinus => "-",
            };
            crate::text::push_str(out, sym);
            push_rendered(out, inner);
        },
        ArithExpr::BinaryOp(op, l, r) => {
            push_rendered(out, l);
            crate::text::push_str(out, binary_op_symbol(op));
            push_rendered(out, r);
        },
        ArithExpr::Conditional(c, t, f) => {
            push_rendered(out, c);
            crate::text::push_str(out, "?");
            push_rendered(out, t);
            crate::text::push_str(out, ":");
            push_rendered(out, f);
        },
        ArithExpr::Assignment(t, v) => {
            push_target(out, t);
            crate::text::push_str(out, "=");
            push_rendered(out, v);
        },
        ArithExpr::BinaryAssignment(op, t, v) => {
            push_target(out, t);
            crate::text::push_str(out, binary_op_symbol(op));
            crate::text::push_str(out, "=");
            push_rendered(out, v);
        },
        ArithExpr::UnaryAssignment(op, t) => {
            match op {
                ArithStepOp::PrefixIncrement => {
                    crate::text::push_str(out, "++");
                    push_target(out, t);
                },
                ArithStepOp::PrefixDecrement => {
                    crate::text::push_str(out, "--");
                    push_target(out, t);
                },
                ArithStepOp::PostfixIncrement => {
                    push_target(out, t);
                    crate::text::push_str(out, "++");
                },
                ArithStepOp::PostfixDecrement => {
                    push_target(out, t);
                    crate::text::push_str(out, "--");
                },
            }
        },
    }
    assert(out@ =~= old(out)@ + render(*e));
}

fn push_target(out: &mut String, t: &ArithTarget)
    ensures
        final(out)@ == old(out)@ + render_target(*t),
    decreases t,
{
    match t {
        ArithTarget::Variable(name) => {
            crate::text::push_str(out, name.as_str());
        },
        ArithTarget::ArrayElement(name, idx) => {
            crate::text::push_str(out, name.as_str());
            crate::text::push_str(out, "[");
            push_rendered(out, idx);
            crate::text::push_str(out, "]");
        },
    }
    assert(out@ =~= old(out)@ + render_target(*t));
}

/// Renders an index expression as text for associative keys and error
/// messages. Whitespace is not kept, so a key written with spaces renders
/// compacted.
pub fn render_index_for_message(expr: &ArithExpr) -> (s: String)
    ensures
        s@ == render(*expr),
{
    let mut out = String::new();
    push_rendered(&mut out, expr);
    assert(out@ =~= render(*expr));
    out
}

/// Renders an assignment target as text.
pub fn render_target_for_message(target: &ArithTarget) -> (s: String)
    ensures
        s@ == render_target(*target),
{
    let mut out = String::new();
    push_target(&mut out, target);
    assert(out@ =~= render_target(*target));
    out
}

// ── Quoted associative subscripts ──────────────────────────────────

/// Bytes a backslash escapes inside a double-quoted key: `"`, `\\`, `$`
/// and backquote.
pub open spec fn is_key_escapable(c: u8) -> bool {
    c == DOUBLE_QUOTE || c == BACKSLASH || c == DOLLAR || c == 96
}

/// The bytes of a quoted key body from `j` up to the closing `quote` (or
/// the end), and where it stopped. In double quotes a backslash before an
/// escapable byte yields that byte; single quotes are verbatim.
pub open spec fn key_scan(b: Seq<u8>, j: int, quote: u8) -> (Seq<u8>, int)
    decreases b.len() - j,
{
    if j < 0 || j >= b.len() || b[j] == quote {
        (seq![], j)
    } else if quote == DOUBLE_QUOTE && b[j] == BACKSLASH && j + 1 < b.len() && is_key_escapable(b[j + 1]) {
        let (t, e) = key_scan(b, j + 2, quote);
        (seq![b[j + 1]] + t, e)
    } else {
        let (t, e) = key_scan(b, j + 1, quote);
        (seq![b[j]] + t, e)
    }
}

pub proof fn lemma_key_scan(b: Seq<u8>, j: int, quote: u8)
    requires
        0 <= j <= b.len(),
    ensures
        j <= key_scan(b, j, quote).1 <= b.len(),
    decreases b.len() - j,
{
    if j < b.len() && b[j] != quote {
        if quote == DOUBLE_QUOTE && b[j] == BACKSLASH && j + 1 < b.len() && is_key_escapable(b[j + 1]) {
            lemma_key_scan(b, j + 2, quote);
        } else {
            lemma_key_scan(b, j + 1, quote);
        }
    }
}

/// The key bytes of a subscript quoted at `start` and the index just past
/// its `]`, or `None` when the quote is not closed or no `]` follows.
pub open spec fn quoted_key(b: Seq<u8>, start: int) -> Option<(Seq<u8>, int)> {
    let (t, e) = key_scan(b, start + 1, b[start]);
    let k = run_end(b, e + 1, ByteClass::Blank);
    if e >= b.len() {
        None
    } else if k < b.len() && b[k] == CLOSE_BRACKET {
        Some((t, k + 1))
    } else {
        None
    }
}

/// Reads the quoted key that starts at `start` (a quote character): the
/// key is the verbatim text between the quotes (in double quotes with the
/// escapes `\"`, `\\`, `\$` and `` \` `` undone), and the index just past
/// the closing `]` comes with it.
#[verifier::rlimit(40)]
#[verifier::spinoff_prover]
pub fn take_quoted_key(expr: &str, start: usize) -> (r: Option<(String, usize)>)
    requires
        start < encode_utf8(expr@).len(),
        encode_utf8(expr@)[start as int] == DOUBLE_QUOTE || encode_utf8(expr@)[start as int] == SINGLE_QUOTE,
    ensures
        match quoted_key(encode_utf8(expr@), start as int) {
            Some((t, e)) => r matches Some(p) && encode_utf8(p.0@) == t && p.0@ == decode_utf8(t) && p.1 == e,
            None => r is None,
        },
{
    let bytes = expr.as_bytes();
    let ghost b = bytes@;
    let n = bytes.len();
    let quote = bytes[start];
    let mut i = start + 1;
    let mut seg = start + 1;
    let mut inner = String::new();
    proof {
        broadcast use vstd::utf8::encode_utf8_valid_utf8;
        lemma_key_scan(b, i as int, quote);
        if start + 1 < n {
            lemma_after_ascii(b, start as int);
        }
        assert(b.subrange(seg as int, i as int) =~= Seq::<u8>::empty());
        assert(encode_utf8(inner@) =~= Seq::<u8>::empty());
    }
    while i < n && bytes[i] != quote
        invariant
            b == bytes@,
            b == encode_utf8(expr@),
            n == b.len(),
            start < seg <= i <= n,
            quote == b[start as int],
            quote == DOUBLE_QUOTE || quote == SINGLE_QUOTE,
            seg == n || !is_continuation_byte(b[seg as int]),
            encode_utf8(inner@) + b.subrange(seg as int, i as int) + key_scan(b, i as int, quote).0 == key_scan(b, start + 1, quote).0,
            key_scan(b, i as int, quote).1 == key_scan(b, start + 1, quote).1,
        decreases n - i,
    {
        let ghost i0 = i as int;
        if quote == DOUBLE_QUOTE && bytes[i] == BACKSLASH && i + 1 < n && (bytes[i + 1] == DOUBLE_QUOTE || bytes[i + 1] == BACKSLASH || bytes[i + 1] == DOLLAR || bytes[i + 1] == 96) {
            let ghost before = encode_utf8(inner@);
            let ghost pre = inner@;
            let ghost span = b.subrange(seg as int, i0);
            let piece = byte_span(expr, seg, i);
            crate::text::push_str(&mut inner, piece);
            let ghost mid = inner@;
            push_char(&mut inner, bytes[i + 1] as char);
            proof {
                broadcast use vstd::utf8::encode_utf8_valid_utf8;
                lemma_encode_concat(pre, piece@);
                lemma_encode_ascii(b[i0 + 1]);
                assert(inner@ =~= mid + seq![b[i0 + 1] as char]);
                lemma_encode_concat(mid, seq![b[i0 + 1] as char]);
                if i0 + 2 < n {
                    lemma_after_ascii(b, i0 + 1);
                }
                let t = key_scan(b, i0 + 2, quote).0;
                assert(encode_utf8(inner@) =~= before + span + seq![b[i0 + 1]]);
                assert(b.subrange(i0 + 2, i0 + 2) =~= Seq::<u8>::empty());
                assert(encode_utf8(inner@) + b.subrange(i0 + 2, i0 + 2) + t =~= before + span + (seq![b[i0 + 1]] + t));
            }
            i = i + 2;
            seg = i;
        } else {
            proof {
                let t = key_scan(b, i0 + 1, quote).0;
                assert(b.subrange(seg as int, i0 + 1) =~= b.subrange(seg as int, i0) + seq![b[i0]]);
                assert(encode_utf8(inner@) + b.subrange(seg as int, i0 + 1) + t =~= encode_utf8(inner@) + b.subrange(seg as int, i0) + (
                seq![b[i0]] + t));
            }
            i = i + 1;
        }
    }
    let ghost pre = inner@;
    let piece = byte_span(expr, seg, i);
    crate::text::push_str(&mut inner, piece);
    proof {
        broadcast use vstd::utf8::encode_utf8_valid_utf8;
        broadcast use vstd::utf8::encode_utf8_decode_utf8;
        lemma_encode_concat(pre, piece@);
        assert(encode_utf8(inner@) =~= encode_utf8(pre) + b.subrange(seg as int, i as int));
        assert(key_scan(b, i as int, quote).0 =~= Seq::<u8>::empty());
        assert(encode_utf8(inner@) =~= encode_utf8(pre) + b.subrange(seg as int, i as int) + key_scan(b, i as int, quote).0);
        assert(decode_utf8(encode_utf8(inner@)) == inner@);
    }
    if i >= n {
        return None;
    }
    let k = skip_run(bytes, i + 1, ByteClass::Blank);
    if k < n && bytes[k] == CLOSE_BRACKET {
        Some((inner, k + 1))
    } else {
        None
    }
}

/// The placeholder name standing for the `k`-th quoted key.
pub open spec fn placeholder(k: int) -> Seq<char> {
    "__RB_ASSOC_KEY_"@ + digits_of(k as nat) + "__"@
}

/// A quoted subscript `name[ "key" ]` of an associative array starts at
/// `i`: the name ends at `e`, the quote sits at `j`, and the key reads.
pub open spec fn quoted_subscript_at(b: Seq<u8>, i: int, assoc: Seq<Seq<char>>) -> bool {
    let e = run_end(b, i, ByteClass::Name);
    let j = run_end(b, e + 1, ByteClass::Blank);
    &&& e < b.len()
    &&& b[e] == OPEN_BRACKET
    &&& assoc.contains(ascii_chars(b.subrange(i, e)))
    &&& j < b.len()
    &&& (b[j] == SINGLE_QUOTE || b[j] == DOUBLE_QUOTE)
    &&& quoted_key(b, j) is Some
}

/// The text of `b[i..]` with quoted subscripts of associative arrays
/// replaced by placeholders numbered from `count`, and the placeholders
/// with their keys, in order.
pub open spec fn substitute_from(b: Seq<u8>, i: int, assoc: Seq<Seq<char>>, count: int) -> (Seq<char>, Seq<(Seq<char>, Seq<char>)>)
    decreases b.len() - i,
{
    if i < 0 || i >= b.len() {
        (seq![], seq![])
    } else if is_name_start(b[i]) {
        let e = run_end(b, i, ByteClass::Name);
        let name = ascii_chars(b.subrange(i, e));
        proof {
            lemma_run_end(b, i, ByteClass::Name);
        }
        if quoted_subscript_at(b, i, assoc) {
            let j = run_end(b, e + 1, ByteClass::Blank);
            let (key, end) = quoted_key(b, j)->0;
            proof {
                lemma_run_end(b, e + 1, ByteClass::Blank);
                lemma_key_scan(b, j + 1, b[j]);
                lemma_run_end(b, key_scan(b, j + 1, b[j]).1 + 1, ByteClass::Blank);
            }
            let (rest, phs) = substitute_from(b, end, assoc, count + 1);
            (name + "["@ + placeholder(count) + "]"@ + rest, seq![(placeholder(count), decode_utf8(key))] + phs)
        } else {
            let (rest, phs) = substitute_from(b, e, assoc, count);
            (name + rest, phs)
        }
    } else {
        let (rest, phs) = substitute_from(b, i + 1, assoc, count);
        (seq![b[i] as char] + rest, phs)
    }
}

/// The values of a list of placeholders with their keys.
pub open spec fn pairs_view(v: Seq<(String, String)>) -> Seq<(Seq<char>, Seq<char>)> {
    v.map_values(|p: (String, String)| (p.0@, p.1@))
}

fn contains_name(names: &Vec<String>, b: &[u8], lo: usize, hi: usize) -> (r: bool)
    requires
        lo <= hi <= b@.len(),
    ensures
        r == crate::vfs::overlay_tree::strings_view(names@).contains(ascii_chars(b@.subrange(lo as int, hi as int))),
{
    let mut name = String::new();
    push_bytes(&mut name, b, lo, hi);
    let target = crate::text::chars_of(name.as_str());
    let ghost want = ascii_chars(b@.subrange(lo as int, hi as int));
    assert(name@ =~= want);
    let ghost sv = crate::vfs::overlay_tree::strings_view(names@);
    let mut k: usize = 0;
    while k < names.len()
        invariant
            k <= names@.len(),
            target@ == want,
            lo <= hi <= b@.len(),
            want == ascii_chars(b@.subrange(lo as int, hi as int)),
            sv == crate::vfs::overlay_tree::strings_view(names@),
            forall|x: int| 0 <= x < k ==> sv[x] != want,
        decreases names.len() - k,
    {
        let c = crate::text::chars_of(names[k].as_str());
        if crate::text::compare_chars(&c, &target) == 0 {
            assert(sv[k as int] == want);
            assert(0 <= k < sv.len());
            assert(sv.contains(want));
            assert(want == ascii_chars(b@.subrange(lo as int, hi as int)));
            return true;
        }
        k = k + 1;
    }
    proof {
        if sv.contains(want) {
            let x = choose|x: int| 0 <= x < sv.len() && sv[x] == want;
            assert(sv[x] != want);
        }
    }
    false
}

/// Replaces `name["..."]` and `name['...']` on associative arrays (the
/// names in `assoc_arrays`) with placeholder identifiers the structural
/// parser accepts, returning the new text and each placeholder with the
/// exact key text it stands for.
pub fn substitute_quoted_assoc_subscripts(expr: &str, assoc_arrays: &Vec<String>) -> (r: (String, Vec<(String, String)>))
    ensures
        ({
            let (t, phs) = substitute_from(encode_utf8(expr@), 0, crate::vfs::overlay_tree::strings_view(assoc_arrays@), 0);
            r.0@ == t && pairs_view(r.1@) == phs
        }),
{
    let bytes = expr.as_bytes();
    let ghost b = bytes@;
    let ghost assoc = crate::vfs::overlay_tree::strings_view(assoc_arrays@);
    let n = bytes.len();
    let mut out = String::new();
    let mut placeholders: Vec<(String, String)> = Vec::new();
    let mut i: usize = 0;
    assert(out@ + substitute_from(b, 0, assoc, 0).0 =~= substitute_from(b, 0, assoc, 0).0);
    assert(pairs_view(placeholders@) + substitute_from(b, 0, assoc, 0).1 =~= substitute_from(b, 0, assoc, 0).1);
    while i < n
        invariant
            b == bytes@,
            b == encode_utf8(expr@),
            n == b.len(),
            i <= n,
            assoc == crate::vfs::overlay_tree::strings_view(assoc_arrays@),
            out@ + substitute_from(b, i as int, assoc, placeholders@.len() as int).0 == substitute_from(b, 0, assoc, 0).0,
            pairs_view(placeholders@) + substitute_from(b, i as int, assoc, placeholders@.len() as int).1 == substitute_from(b, 0, assoc, 0).1,
        decreases n - i,
    {
        let ghost i0 = i as int;
        let ghost count = placeholders@.len() as int;
        let ghost out0 = out@;
        let ghost ph0 = pairs_view(placeholders@);
        let c = bytes[i];
        if c == UNDERSCORE || (LOWER_A <= c && c <= LOWER_Z) || (UPPER_A <= c && c <= UPPER_Z) {
            let e = skip_run(bytes, i, ByteClass::Name);
            proof {
                lemma_run_end(b, i0, ByteClass::Name);
            }
            if e < n && bytes[e] == OPEN_BRACKET && contains_name(assoc_arrays, bytes, i, e) {
                let j = skip_run(bytes, e + 1, ByteClass::Blank);
                proof {
                    lemma_run_end(b, e + 1, ByteClass::Blank);
                }
                if j < n && (bytes[j] == SINGLE_QUOTE || bytes[j] == DOUBLE_QUOTE) {
                    match take_quoted_key(expr, j) {
                        Some((key, end)) => {
                            proof {
                                lemma_key_scan(b, j + 1, b[j as int]);
                                let ks = key_scan(b, j + 1, b[j as int]).1;
                                lemma_run_end(b, ks + 1, ByteClass::Blank);
                                reveal_strlit("[");
                                reveal_strlit("]");
                            }
                            let mut ph = String::from_str("__RB_ASSOC_KEY_");
                            push_digits(&mut ph, placeholders.len() as u64);
                            crate::text::push_str(&mut ph, "__");
                            push_bytes(&mut out, bytes, i, e);
                            push_char(&mut out, '[');
                            crate::text::push_str(&mut out, ph.as_str());
                            push_char(&mut out, ']');
                            placeholders.push((ph, key));
                            proof {
                                let name = ascii_chars(b.subrange(i0, e as int));
                                let (rest, phs) = substitute_from(b, end as int, assoc, count + 1);
                                assert(out@ =~= out0 + (name + "["@ + placeholder(count) + "]"@));
                                assert(out@ + rest =~= out0 + (name + "["@ + placeholder(count) + "]"@ + rest));
                                assert(pairs_view(placeholders@) =~= ph0 + seq![(placeholder(count), key@)]);
                                assert(pairs_view(placeholders@) + phs =~= ph0 + (seq![(placeholder(count), key@)] + phs));
                            }
                            i = end;
                            continue;
                        },
                        None => {},
                    }
                }
            }
            push_bytes(&mut out, bytes, i, e);
            proof {
                let rest = substitute_from(b, e as int, assoc, count).0;
                assert(out@ + rest =~= out0 + (ascii_chars(b.subrange(i0, e as int)) + rest));
            }
            i = e;
            continue;
        }
        push_char(&mut out, c as char);
        proof {
            let rest = substitute_from(b, i0 + 1, assoc, count).0;
            assert(out@ + rest =~= out0 + (seq![c as char] + rest));
        }
        i = i + 1;
    }
    proof {
        assert(out@ + Seq::<char>::empty() =~= out@);
        assert(pairs_view(placeholders@) + Seq::<(Seq<char>, Seq<char>)>::empty() =~= pairs_view(placeholders@));
    }
    (out, placeholders)
}

} // verus!
