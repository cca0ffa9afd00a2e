//! The plain-text image format.
//!
//! A file starts with the line `P3`, a line with the width and the height,
//! and the line `255`. One line for each pixel follows, with the red, green
//! and blue channel in decimal and a single space between them. Numbers
//! are written without padding: no leading zeros, no plus sign, and a
//! minus sign only before a number other than zero.

use vstd::prelude::*;
use crate::image::Rgb;

verus! {

/// The character `-`.
pub const MINUS: u8 = 45;

/// The character that parts two numbers of a line.
pub const SPACE: u8 = 32;

/// The character that ends a line.
pub const NEWLINE: u8 = 10;

/// The character `0`; the other digits follow it in order.
pub const ZERO: u8 = 48;

/// The character `2`.
pub const TWO: u8 = 50;

/// The character `3`.
pub const THREE: u8 = 51;

/// The character `5`.
pub const FIVE: u8 = 53;

/// The character `9`.
pub const NINE: u8 = 57;

/// The character `P`.
pub const LETTER_P: u8 = 80;

/// Whether a character is a decimal digit.
pub open spec fn is_digit(b: u8) -> bool {
    ZERO <= b <= NINE
}

/// The line `P3`.
pub open spec fn opening() -> Seq<u8> {
    seq![LETTER_P, THREE, NEWLINE]
}

/// The end of the size line, and the line `255`.
pub open spec fn closing() -> Seq<u8> {
    seq![NEWLINE, TWO, FIVE, FIVE, NEWLINE]
}

/// The decimal digits of a natural number.
pub open spec fn decimal(n: nat) -> Seq<u8>
    decreases n,
{
    if n < 10 {
        seq![(ZERO + n) as u8]
    } else {
        decimal(n / 10).push((ZERO + n % 10) as u8)
    }
}

/// A whole number in decimal, with a minus sign if it is negative.
pub open spec fn signed_decimal(v: int) -> Seq<u8> {
    if v < 0 {
        seq![MINUS] + decimal((-v) as nat)
    } else {
        decimal(v as nat)
    }
}

/// The three lines that open a file.
pub open spec fn header(width: nat, height: nat) -> Seq<u8> {
    opening() + decimal(width) + seq![SPACE] + decimal(height) + closing()
}

/// The line of one pixel.
pub open spec fn line(c: Rgb) -> Seq<u8> {
    signed_decimal(c.r as int) + seq![SPACE] + signed_decimal(c.g as int) + seq![SPACE]
        + signed_decimal(c.b as int) + seq![NEWLINE]
}

/// The lines of all pixels.
pub open spec fn body(colors: Seq<Rgb>) -> Seq<u8>
    decreases colors.len(),
{
    if colors.len() == 0 {
        Seq::empty()
    } else {
        body(colors.drop_last()) + line(colors.last())
    }
}

/// The text of an image.
pub open spec fn ppm_text(width: nat, height: nat, colors: Seq<Rgb>) -> Seq<u8> {
    header(width, height) + body(colors)
}

/// Appends the decimal digits of `n`.
pub fn push_decimal(out: &mut Vec<u8>, n: u64)
    ensures
        final(out)@ == old(out)@ + decimal(n as nat),
    decreases n,
{
    if n < 10 {
        out.push(ZERO + n as u8);
        assert(out@ =~= old(out)@ + decimal(n as nat));
    } else {
        push_decimal(out, n / 10);
        out.push(ZERO + (n % 10) as u8);
        assert(out@ =~= old(out)@ + decimal(n as nat));
    }
}

/// Appends a whole number in decimal.
pub fn push_signed(out: &mut Vec<u8>, v: i32)
    ensures
        final(out)@ == old(out)@ + signed_decimal(v as int),
{
    if v < 0 {
        out.push(MINUS);
        let magnitude: u64 = (-(v as i64)) as u64;
        push_decimal(out, magnitude);
        assert(out@ =~= old(out)@ + signed_decimal(v as int));
    } else {
        push_decimal(out, v as u64);
    }
}

/// Appends the three lines that open a file.
pub fn push_header(out: &mut Vec<u8>, width: usize, height: usize)
    ensures
        final(out)@ == old(out)@ + header(width as nat, height as nat),
{
    out.push(LETTER_P);
    out.push(THREE);
    out.push(NEWLINE);
    push_decimal(out, width as u64);
    out.push(SPACE);
    push_decimal(out, height as u64);
    out.push(NEWLINE);
    out.push(TWO);
    out.push(FIVE);
    out.push(FIVE);
    out.push(NEWLINE);
    assert(out@ =~= old(out)@ + header(width as nat, height as nat));
}

/// Appends the line of one pixel.
pub fn push_line(out: &mut Vec<u8>, c: Rgb)
    ensures
        final(out)@ == old(out)@ + line(c),
{
    push_signed(out, c.r);
    out.push(SPACE);
    push_signed(out, c.g);
    out.push(SPACE);
    push_signed(out, c.b);
    out.push(NEWLINE);
    assert(out@ =~= old(out)@ + line(c));
}

/// Where the run of digits that starts at `i` ends: the first index from
/// `i` on that holds no digit, or the end of the text.
pub open spec fn run_end(s: Seq<u8>, i: int) -> int
    decreases s.len() - i,
{
    if 0 <= i < s.len() && is_digit(s[i]) {
        run_end(s, i + 1)
    } else {
        i
    }
}

/// The number that the digits from `i` up to `j` spell.
pub open spec fn run_value(s: Seq<u8>, i: int, j: int) -> nat
    decreases j - i,
{
    if j <= i {
        0
    } else {
        (run_value(s, i, j - 1) * 10 + (s[j - 1] - ZERO)) as nat
    }
}

/// The natural number written at `i`, with the index behind it: the whole
/// run of digits there, which must not be empty, must not start with a
/// needless zero, and must not spell more than `limit`.
pub open spec fn nat_at(s: Seq<u8>, i: int, limit: nat) -> Option<(nat, int)> {
    let j = run_end(s, i);
    if j <= i || (j > i + 1 && s[i] == ZERO) || run_value(s, i, j) > limit {
        None
    } else {
        Some((run_value(s, i, j), j))
    }
}

/// The whole number written at `i`, with the index behind it. It has to
/// fit 32 bits, and zero takes no sign.
pub open spec fn int_at(s: Seq<u8>, i: int) -> Option<(int, int)> {
    if 0 <= i < s.len() && s[i] == MINUS {
        match nat_at(s, i + 1, 0x8000_0000) {
            Some((n, j)) => if n == 0 {
                None
            } else {
                Some((-(n as int), j))
            },
            None => None,
        }
    } else {
        match nat_at(s, i, 0x7fff_ffff) {
            Some((n, j)) => Some((n as int, j)),
            None => None,
        }
    }
}

/// Whether the character `b` stands at `i`.
pub open spec fn char_at(s: Seq<u8>, i: int, b: u8) -> bool {
    0 <= i < s.len() && s[i] == b
}

/// The pixel line written at `i`, with the index behind it.
pub open spec fn line_at(s: Seq<u8>, i: int) -> Option<(Rgb, int)> {
    match int_at(s, i) {
        None => None,
        Some((r, j1)) => if !char_at(s, j1, SPACE) {
            None
        } else {
            match int_at(s, j1 + 1) {
                None => None,
                Some((g, j2)) => if !char_at(s, j2, SPACE) {
                    None
                } else {
                    match int_at(s, j2 + 1) {
                        None => None,
                        Some((b, j3)) => if !char_at(s, j3, NEWLINE) {
                            None
                        } else {
                            Some((Rgb { r: r as i32, g: g as i32, b: b as i32 }, j3 + 1))
                        },
                    }
                },
            }
        },
    }
}

/// The `count` pixel lines written from `i` on, with the index behind
/// them.
pub open spec fn lines_at(s: Seq<u8>, i: int, count: nat) -> Option<(Seq<Rgb>, int)>
    decreases count,
{
    if count == 0 {
        Some((Seq::empty(), i))
    } else {
        match lines_at(s, i, (count - 1) as nat) {
            None => None,
            Some((colors, j)) => match line_at(s, j) {
                None => None,
                Some((c, k)) => Some((colors.push(c), k)),
            },
        }
    }
}

/// Whether the text starts with the line `P3`.
pub open spec fn opening_at(s: Seq<u8>) -> bool {
    char_at(s, 0, LETTER_P) && char_at(s, 1, THREE) && char_at(s, 2, NEWLINE)
}

/// Whether the end of the size line and the line `255` stand at `i`.
pub open spec fn closing_at(s: Seq<u8>, i: int) -> bool {
    char_at(s, i, NEWLINE) && char_at(s, i + 1, TWO) && char_at(s, i + 2, FIVE) && char_at(
        s,
        i + 3,
        FIVE,
    ) && char_at(s, i + 4, NEWLINE)
}

/// The image that a text spells: its width, its height and its colours.
/// The text has to be an opening, as many pixel lines as the size asks
/// for, and nothing more; the size has to fit the machine.
pub open spec fn parse_spec(s: Seq<u8>) -> Option<(nat, nat, Seq<Rgb>)> {
    if !opening_at(s) {
        None
    } else {
        match nat_at(s, 3, usize::MAX as nat) {
            None => None,
            Some((width, j1)) => if !char_at(s, j1, SPACE) {
                None
            } else {
                match nat_at(s, j1 + 1, usize::MAX as nat) {
                    None => None,
                    Some((height, j2)) => if !closing_at(s, j2) || width * height
                        > usize::MAX {
                        None
                    } else {
                        match lines_at(s, j2 + 5, width * height) {
                            None => None,
                            Some((colors, end)) => if end == s.len() {
                                Some((width, height, colors))
                            } else {
                                None
                            },
                        }
                    },
                }
            },
        }
    }
}

/// A run of digits ends where the first character that is no digit
/// stands.
proof fn lemma_run_end(s: Seq<u8>, i: int, j: int)
    requires
        0 <= i <= j <= s.len(),
        forall|k: int| i <= k < j ==> is_digit(#[trigger] s[k]),
        j == s.len() || !is_digit(s[j]),
    ensures
        run_end(s, i) == j,
    decreases j - i,
{
    if i < j {
        lemma_run_end(s, i + 1, j);
    }
}

/// What a run of digits is: digits from its start to its end, and no
/// digit behind it.
proof fn lemma_run_is_digits(s: Seq<u8>, i: int)
    requires
        0 <= i <= s.len(),
    ensures
        i <= run_end(s, i) <= s.len(),
        forall|k: int| i <= k < run_end(s, i) ==> is_digit(#[trigger] s[k]),
        run_end(s, i) == s.len() || !is_digit(s[run_end(s, i)]),
    decreases s.len() - i,
{
    if i < s.len() && is_digit(s[i]) {
        lemma_run_is_digits(s, i + 1);
    }
}

/// More digits never spell less.
proof fn lemma_run_value_grows(s: Seq<u8>, i: int, j: int, k: int)
    requires
        i <= j <= k,
        forall|m: int| i <= m < k ==> is_digit(#[trigger] s[m]),
    ensures
        run_value(s, i, j) <= run_value(s, i, k),
    decreases k - j,
{
    if j < k {
        lemma_run_value_grows(s, i, j, k - 1);
        assert(is_digit(s[k - 1]));
    }
}

/// Tells a digit from other characters.
fn digit_here(b: u8) -> (r: bool)
    ensures
        r == is_digit(b),
{
    ZERO <= b && b <= NINE
}

/// Reads the natural number at `i`.
fn read_nat(text: &Vec<u8>, i: usize, limit: u64) -> (r: Option<(u64, usize)>)
    requires
        i <= text.len(),
    ensures
        match r {
            Some((n, j)) => nat_at(text@, i as int, limit as nat) == Some((n as nat, j as int))
                && i < j <= text.len(),
            None => nat_at(text@, i as int, limit as nat) is None,
        },
{
    let ghost s = text@;
    let n = text.len();
    let mut j: usize = i;
    let mut value: u64 = 0;
    while j < n && digit_here(text[j])
        invariant
            i <= j <= n,
            n == text.len(),
            s == text@,
            forall|k: int| i <= k < j ==> is_digit(#[trigger] s[k]),
            value == run_value(s, i as int, j as int),
            value <= limit,
        ensures
            j == n || !is_digit(s[j as int]),
        decreases n - j,
    {
        let d = text[j] - ZERO;
        let next: u128 = (value as u128) * 10 + (d as u128);
        if next > limit as u128 {
            proof {
                lemma_run_is_digits(s, i as int);
                let end = run_end(s, i as int);
                if end < j + 1 {
                    assert(is_digit(s[end]));
                }
                lemma_run_value_grows(s, i as int, j + 1, end);
            }
            return None;
        }
        value = next as u64;
        j = j + 1;
    }
    proof {
        lemma_run_end(s, i as int, j as int);
    }
    if j == i || (j > i + 1 && text[i] == ZERO) {
        None
    } else {
        Some((value, j))
    }
}

/// Reads the whole number at `i`.
fn read_int(text: &Vec<u8>, i: usize) -> (r: Option<(i32, usize)>)
    requires
        i <= text.len(),
    ensures
        match r {
            Some((v, j)) => int_at(text@, i as int) == Some((v as int, j as int)) && i < j
                <= text.len(),
            None => int_at(text@, i as int) is None,
        },
{
    if i < text.len() && text[i] == MINUS {
        match read_nat(text, i + 1, 0x8000_0000) {
            Some((m, j)) => {
                if m == 0 {
                    None
                } else {
                    let v: i64 = -(m as i64);
                    Some((v as i32, j))
                }
            },
            None => None,
        }
    } else {
        match read_nat(text, i, 0x7fff_ffff) {
            Some((m, j)) => Some((m as i32, j)),
            None => None,
        }
    }
}

/// Tells whether the character `b` stands at `i`.
fn char_here(text: &Vec<u8>, i: usize, b: u8) -> (r: bool)
    ensures
        r == char_at(text@, i as int, b),
{
    i < text.len() && text[i] == b
}

/// Tells whether the end of the size line and the line `255` stand at
/// `i`.
fn closing_here(text: &Vec<u8>, i: usize) -> (r: bool)
    ensures
        r == closing_at(text@, i as int),
{
    i < text.len() && text.len() - i >= 5 && text[i] == NEWLINE && text[i + 1] == TWO && text[i
        + 2] == FIVE && text[i + 3] == FIVE && text[i + 4] == NEWLINE
}

/// Reads the pixel line at `i`.
fn read_line(text: &Vec<u8>, i: usize) -> (r: Option<(Rgb, usize)>)
    requires
        i <= text.len(),
    ensures
        match r {
            Some((c, j)) => line_at(text@, i as int) == Some((c, j as int)) && i < j
                <= text.len(),
            None => line_at(text@, i as int) is None,
        },
{
    let (r, j1) = match read_int(text, i) {
        Some(read) => read,
        None => {
            return None;
        },
    };
    if !char_here(text, j1, SPACE) {
        return None;
    }
    let (g, j2) = match read_int(text, j1 + 1) {
        Some(read) => read,
        None => {
            return None;
        },
    };
    if !char_here(text, j2, SPACE) {
        return None;
    }
    let (b, j3) = match read_int(text, j2 + 1) {
        Some(read) => read,
        None => {
            return None;
        },
    };
    if !char_here(text, j3, NEWLINE) {
        return None;
    }
    Some((Rgb { r, g, b }, j3 + 1))
}

/// Reads `count` pixel lines from `start` on.
fn read_lines(text: &Vec<u8>, start: usize, count: usize) -> (r: Option<(Vec<Rgb>, usize)>)
    requires
        start <= text.len(),
    ensures
        match r {
            Some((colors, end)) => lines_at(text@, start as int, count as nat) == Some(
                (colors@, end as int),
            ) && end <= text.len(),
            None => lines_at(text@, start as int, count as nat) is None,
        },
{
    let mut colors: Vec<Rgb> = Vec::new();
    let mut pos: usize = start;
    let mut k: usize = 0;
    while k < count
        invariant
            k <= count,
            pos <= text.len(),
            colors.len() == k,
            lines_at(text@, start as int, k as nat) == Some((colors@, pos as int)),
        decreases count - k,
    {
        match read_line(text, pos) {
            Some((c, next)) => {
                colors.push(c);
                pos = next;
            },
            None => {
                proof {
                    lemma_lines_stop(text@, start as int, (k + 1) as nat, count as nat);
                }
                return None;
            },
        }
        k = k + 1;
    }
    Some((colors, pos))
}

/// Reads an image from its text: the width, the height and the colours of
/// the pixels, or nothing where the text is no image.
pub fn parse_ppm(text: &Vec<u8>) -> (r: Option<(usize, usize, Vec<Rgb>)>)
    ensures
        match r {
            Some((width, height, colors)) => parse_spec(text@) == Some(
                (width as nat, height as nat, colors@),
            ),
            None => parse_spec(text@) is None,
        },
{
    if !(char_here(text, 0, LETTER_P) && char_here(text, 1, THREE) && char_here(text, 2, NEWLINE)) {
        return None;
    }
    let (w, j1) = match read_nat(text, 3, usize::MAX as u64) {
        Some(read) => read,
        None => {
            return None;
        },
    };
    if !char_here(text, j1, SPACE) {
        return None;
    }
    let (h, j2) = match read_nat(text, j1 + 1, usize::MAX as u64) {
        Some(read) => read,
        None => {
            return None;
        },
    };
    if !closing_here(text, j2) {
        return None;
    }
    let width = w as usize;
    let height = h as usize;
    let count = match width.checked_mul(height) {
        Some(count) => count,
        None => {
            return None;
        },
    };
    match read_lines(text, j2 + 5, count) {
        Some((colors, end)) => {
            if end == text.len() {
                Some((width, height, colors))
            } else {
                None
            }
        },
        None => None,
    }
}

/// Where fewer lines cannot be read, more cannot either.
proof fn lemma_lines_stop(s: Seq<u8>, i: int, few: nat, many: nat)
    requires
        few <= many,
        lines_at(s, i, few) is None,
    ensures
        lines_at(s, i, many) is None,
    decreases many - few,
{
    if few < many {
        lemma_lines_stop(s, i, few, (many - 1) as nat);
    }
}

/// A run of digits without a needless zero is the decimal form of the
/// number it spells.
proof fn lemma_canonical_run(s: Seq<u8>, i: int, j: int)
    requires
        0 <= i < j <= s.len(),
        forall|k: int| i <= k < j ==> is_digit(#[trigger] s[k]),
        j == i + 1 || s[i] != ZERO,
    ensures
        s.subrange(i, j) == decimal(run_value(s, i, j)),
        s[i] != ZERO ==> run_value(s, i, j) > 0,
    decreases j - i,
{
    assert(is_digit(s[j - 1]));
    assert(is_digit(s[i]));
    if j == i + 1 {
        assert(run_value(s, i, i) == 0);
        assert(run_value(s, i, j) == s[i] - ZERO);
        assert(s.subrange(i, j) =~= seq![s[i]]);
    } else {
        lemma_canonical_run(s, i, j - 1);
        let before = run_value(s, i, j - 1);
        let all = run_value(s, i, j);
        assert(all == before * 10 + (s[j - 1] - ZERO));
        assert(all / 10 == before && all % 10 == s[j - 1] - ZERO);
        assert(s.subrange(i, j) =~= s.subrange(i, j - 1).push(s[j - 1]));
    }
}

/// The decimal form of a number is a run of digits without a needless
/// zero that spells the number.
proof fn lemma_decimal_run(s: Seq<u8>, i: int, j: int, n: nat)
    requires
        0 <= i <= j <= s.len(),
        s.subrange(i, j) == decimal(n),
    ensures
        i < j,
        forall|k: int| i <= k < j ==> is_digit(#[trigger] s[k]),
        j == i + 1 || s[i] != ZERO,
        n > 0 ==> s[i] != ZERO,
        run_value(s, i, j) == n,
    decreases n,
{
    let t = s.subrange(i, j);
    if n < 10 {
        assert(t.len() == 1);
        assert(t[0] == s[i]);
        assert(run_value(s, i, i) == 0);
    } else {
        let shorter = decimal(n / 10);
        assert(t == shorter.push((ZERO + n % 10) as u8));
        assert(t.len() == shorter.len() + 1);
        assert(s.subrange(i, j - 1) =~= shorter) by {
            assert forall|k: int| 0 <= k < shorter.len() implies s.subrange(i, j - 1)[k]
                == shorter[k] by {
                assert(t[k] == shorter[k]);
            }
        }
        lemma_decimal_run(s, i, j - 1, n / 10);
        assert(t[j - 1 - i] == s[j - 1]);
        assert(s[j - 1] == ZERO + n % 10);
    }
}

/// What a successful reading of a natural number says of the text.
proof fn lemma_nat_at_sound(s: Seq<u8>, i: int, limit: nat)
    requires
        0 <= i <= s.len(),
        nat_at(s, i, limit) is Some,
    ensures
        ({
            let (n, j) = nat_at(s, i, limit)->0;
            &&& i < j <= s.len()
            &&& n <= limit
            &&& s.subrange(i, j) == decimal(n)
            &&& is_digit(s[i])
        }),
{
    lemma_run_is_digits(s, i);
    lemma_canonical_run(s, i, run_end(s, i));
}

/// The decimal form of a number that no digit follows is read back as
/// that number.
proof fn lemma_nat_at_complete(s: Seq<u8>, i: int, j: int, n: nat, limit: nat)
    requires
        0 <= i <= j <= s.len(),
        s.subrange(i, j) == decimal(n),
        j == s.len() || !is_digit(s[j]),
        n <= limit,
    ensures
        nat_at(s, i, limit) == Some((n, j)),
{
    lemma_decimal_run(s, i, j, n);
    lemma_run_end(s, i, j);
}

/// What a successful reading of a whole number says of the text.
proof fn lemma_int_at_sound(s: Seq<u8>, i: int)
    requires
        0 <= i <= s.len(),
        int_at(s, i) is Some,
    ensures
        ({
            let (v, j) = int_at(s, i)->0;
            &&& i < j <= s.len()
            &&& -0x8000_0000 <= v <= 0x7fff_ffff
            &&& s.subrange(i, j) == signed_decimal(v)
        }),
{
    if i < s.len() && s[i] == 45 {
        lemma_nat_at_sound(s, i + 1, 0x8000_0000);
        let (n, j) = nat_at(s, i + 1, 0x8000_0000)->0;
        assert(s.subrange(i, j) =~= seq![MINUS] + s.subrange(i + 1, j));
    } else {
        lemma_nat_at_sound(s, i, 0x7fff_ffff);
    }
}

/// A whole number in decimal that no digit follows is read back as that
/// number.
proof fn lemma_int_at_complete(s: Seq<u8>, i: int, j: int, v: int)
    requires
        0 <= i <= j <= s.len(),
        s.subrange(i, j) == signed_decimal(v),
        j == s.len() || !is_digit(s[j]),
        -0x8000_0000 <= v <= 0x7fff_ffff,
    ensures
        int_at(s, i) == Some((v, j)),
{
    let t = s.subrange(i, j);
    if v < 0 {
        let digits = decimal((-v) as nat);
        assert(t == seq![MINUS] + digits);
        assert(t[0] == MINUS);
        assert(t[0] == s[i]);
        assert(s.subrange(i + 1, j) =~= digits) by {
            assert forall|k: int| 0 <= k < digits.len() implies s.subrange(i + 1, j)[k]
                == digits[k] by {
                assert(t[k + 1] == digits[k]);
            }
        }
        lemma_nat_at_complete(s, i + 1, j, (-v) as nat, 0x8000_0000);
    } else {
        lemma_decimal_run(s, i, j, v as nat);
        assert(is_digit(s[i]));
        lemma_nat_at_complete(s, i, j, v as nat, 0x7fff_ffff);
    }
}

/// A stretch of text that is two texts in a row holds each of them in its
/// place.
proof fn lemma_split(s: Seq<u8>, i: int, j: int, a: Seq<u8>, b: Seq<u8>)
    requires
        0 <= i <= j <= s.len(),
        s.subrange(i, j) == a + b,
    ensures
        i + a.len() + b.len() == j,
        s.subrange(i, i + a.len()) == a,
        s.subrange(i + a.len(), j) == b,
{
    let t = s.subrange(i, j);
    assert(t.len() == a.len() + b.len());
    assert forall|k: int| 0 <= k < a.len() implies s.subrange(i, i + a.len())[k] == a[k] by {
        assert(t[k] == a[k]);
    }
    assert forall|k: int| 0 <= k < b.len() implies s.subrange(i + a.len(), j)[k] == b[k] by {
        assert(t[a.len() + k] == b[k]);
    }
    assert(s.subrange(i, i + a.len()) =~= a);
    assert(s.subrange(i + a.len(), j) =~= b);
}

/// Two stretches of text in a row are one stretch.
proof fn lemma_join(s: Seq<u8>, i: int, m: int, j: int)
    requires
        0 <= i <= m <= j <= s.len(),
    ensures
        s.subrange(i, j) == s.subrange(i, m) + s.subrange(m, j),
{
    assert(s.subrange(i, j) =~= s.subrange(i, m) + s.subrange(m, j));
}

/// A single character, as a stretch of text.
proof fn lemma_single(s: Seq<u8>, i: int, b: u8)
    requires
        0 <= i < s.len(),
    ensures
        s.subrange(i, i + 1) == seq![b] <==> s[i] == b,
{
    if s[i] == b {
        assert(s.subrange(i, i + 1) =~= seq![b]);
    } else {
        assert(s.subrange(i, i + 1)[0] == s[i]);
        assert(seq![b][0] == b);
    }
}

/// What a successful reading of a pixel line says of the text.
proof fn lemma_line_at_sound(s: Seq<u8>, i: int)
    requires
        0 <= i <= s.len(),
        line_at(s, i) is Some,
    ensures
        ({
            let (c, j) = line_at(s, i)->0;
            &&& i < j <= s.len()
            &&& s.subrange(i, j) == line(c)
        }),
{
    let (c, j) = line_at(s, i)->0;
    lemma_int_at_sound(s, i);
    let (r, j1) = int_at(s, i)->0;
    lemma_int_at_sound(s, j1 + 1);
    let (g, j2) = int_at(s, j1 + 1)->0;
    lemma_int_at_sound(s, j2 + 1);
    let (b, j3) = int_at(s, j2 + 1)->0;
    lemma_single(s, j1, SPACE);
    lemma_single(s, j2, SPACE);
    lemma_single(s, j3, NEWLINE);
    lemma_join(s, i, j1, j1 + 1);
    lemma_join(s, i, j1 + 1, j2);
    lemma_join(s, i, j2, j2 + 1);
    lemma_join(s, i, j2 + 1, j3);
    lemma_join(s, i, j3, j3 + 1);
}

/// The line of a pixel is read back as that pixel.
proof fn lemma_line_at_complete(s: Seq<u8>, i: int, j: int, c: Rgb)
    requires
        0 <= i <= j <= s.len(),
        s.subrange(i, j) == line(c),
    ensures
        line_at(s, i) == Some((c, j)),
{
    let red = signed_decimal(c.r as int);
    let green = signed_decimal(c.g as int);
    let blue = signed_decimal(c.b as int);
    let j1 = i + red.len();
    let j2 = j1 + 1 + green.len();
    let j3 = j2 + 1 + blue.len();
    lemma_split(s, i, j, red + seq![SPACE] + green + seq![SPACE] + blue, seq![NEWLINE]);
    lemma_split(s, i, j - 1, red + seq![SPACE] + green + seq![SPACE], blue);
    lemma_split(s, i, j2 + 1, red + seq![SPACE] + green, seq![SPACE]);
    lemma_split(s, i, j2, red + seq![SPACE], green);
    lemma_split(s, i, j1 + 1, red, seq![SPACE]);
    lemma_single(s, j1, SPACE);
    lemma_single(s, j2, SPACE);
    lemma_single(s, j3, NEWLINE);
    lemma_int_at_complete(s, i, j1, c.r as int);
    lemma_int_at_complete(s, j1 + 1, j2, c.g as int);
    lemma_int_at_complete(s, j2 + 1, j3, c.b as int);
}

/// What a successful reading of pixel lines says of the text.
proof fn lemma_lines_at_sound(s: Seq<u8>, i: int, count: nat)
    requires
        0 <= i <= s.len(),
        lines_at(s, i, count) is Some,
    ensures
        ({
            let (colors, j) = lines_at(s, i, count)->0;
            &&& i <= j <= s.len()
            &&& colors.len() == count
            &&& s.subrange(i, j) == body(colors)
        }),
    decreases count,
{
    if count == 0 {
        assert(s.subrange(i, i) =~= Seq::<u8>::empty());
    } else {
        lemma_lines_at_sound(s, i, (count - 1) as nat);
        let (before, m) = lines_at(s, i, (count - 1) as nat)->0;
        lemma_line_at_sound(s, m);
        let (c, j) = line_at(s, m)->0;
        let colors = before.push(c);
        assert(colors.drop_last() =~= before);
        assert(colors.last() == c);
        lemma_join(s, i, m, j);
    }
}

/// The lines of pixels are read back as those pixels.
proof fn lemma_lines_at_complete(s: Seq<u8>, i: int, j: int, colors: Seq<Rgb>)
    requires
        0 <= i <= j <= s.len(),
        s.subrange(i, j) == body(colors),
    ensures
        lines_at(s, i, colors.len()) == Some((colors, j)),
    decreases colors.len(),
{
    if colors.len() == 0 {
        assert(colors =~= Seq::<Rgb>::empty());
        assert(s.subrange(i, j).len() == 0);
    } else {
        let before = colors.drop_last();
        lemma_split(s, i, j, body(before), line(colors.last()));
        let m = i + body(before).len();
        lemma_lines_at_complete(s, i, m, before);
        lemma_line_at_complete(s, m, j, colors.last());
        assert(before.push(colors.last()) =~= colors);
    }
}

/// Whether an image of this size with these colours can be held: the
/// colours fill the grid, and the size fits the machine.
pub open spec fn holdable(width: nat, height: nat, colors: Seq<Rgb>) -> bool {
    &&& width <= usize::MAX
    &&& height <= usize::MAX
    &&& width * height <= usize::MAX
    &&& colors.len() == width * height
}

/// What a successful reading of the opening says of the text.
proof fn lemma_header_sound(s: Seq<u8>, width: nat, j1: int, height: nat, j2: int)
    requires
        opening_at(s),
        nat_at(s, 3, usize::MAX as nat) == Some((width, j1)),
        char_at(s, j1, SPACE),
        nat_at(s, j1 + 1, usize::MAX as nat) == Some((height, j2)),
        closing_at(s, j2),
    ensures
        width <= usize::MAX,
        height <= usize::MAX,
        0 <= j2 + 5 <= s.len(),
        s.subrange(0, j2 + 5) == header(width, height),
{
    lemma_nat_at_sound(s, 3, usize::MAX as nat);
    lemma_nat_at_sound(s, j1 + 1, usize::MAX as nat);
    let opening = opening();
    let closing = closing();
    assert(s.subrange(0, 3) =~= opening);
    assert(s.subrange(j1, j1 + 1) =~= seq![SPACE]);
    assert(s.subrange(j2, j2 + 5) =~= closing);
    lemma_join(s, 0, 3, j1);
    lemma_join(s, 0, j1, j1 + 1);
    lemma_join(s, 0, j1 + 1, j2);
    lemma_join(s, 0, j2, j2 + 5);
}

/// Law: a text that spells an image is the text of that image, letter for
/// letter.
pub proof fn lemma_text_of_parse(s: Seq<u8>)
    requires
        parse_spec(s) is Some,
    ensures
        ({
            let (width, height, colors) = parse_spec(s)->0;
            &&& holdable(width, height, colors)
            &&& s == ppm_text(width, height, colors)
        }),
{
    let (w, j1) = nat_at(s, 3, usize::MAX as nat)->0;
    let (h, j2) = nat_at(s, j1 + 1, usize::MAX as nat)->0;
    lemma_header_sound(s, w, j1, h, j2);
    lemma_lines_at_sound(s, j2 + 5, w * h);
    lemma_join(s, 0, j2 + 5, s.len() as int);
    assert(s.subrange(0, s.len() as int) =~= s);
}

/// The opening of a file is read back as the size it states.
proof fn lemma_header_complete(s: Seq<u8>, m: int, width: nat, height: nat)
    requires
        0 <= m <= s.len(),
        s.subrange(0, m) == header(width, height),
        width <= usize::MAX,
        height <= usize::MAX,
    ensures
        ({
            let j1: int = 3int + decimal(width).len();
            let j2: int = j1 + 1 + decimal(height).len();
            &&& m == j2 + 5
            &&& opening_at(s)
            &&& nat_at(s, 3, usize::MAX as nat) == Some((width, j1))
            &&& char_at(s, j1, SPACE)
            &&& nat_at(s, j1 + 1, usize::MAX as nat) == Some((height, j2))
            &&& closing_at(s, j2)
        }),
{
    let opening = opening();
    let closing = closing();
    let w = decimal(width);
    let h = decimal(height);
    let j1: int = 3int + w.len();
    let j2: int = j1 + 1 + h.len();
    lemma_split(s, 0, m, opening + w + seq![SPACE] + h, closing);
    lemma_split(s, 0, j2, opening + w + seq![SPACE], h);
    lemma_split(s, 0, j1 + 1, opening + w, seq![SPACE]);
    lemma_split(s, 0, j1, opening, w);
    let head = s.subrange(0, 3);
    assert(head[0] == s[0] && head[1] == s[1] && head[2] == s[2]);
    lemma_single(s, j1, SPACE);
    let tail = s.subrange(j2, j2 + 5);
    assert(tail[0] == s[j2] && tail[1] == s[j2 + 1] && tail[2] == s[j2 + 2]);
    assert(tail[3] == s[j2 + 3] && tail[4] == s[j2 + 4]);
    lemma_nat_at_complete(s, 3, j1, width, usize::MAX as nat);
    lemma_nat_at_complete(s, j1 + 1, j2, height, usize::MAX as nat);
}

/// A text whose parts are read one after the other is read as a whole.
proof fn lemma_parts_make_image(
    s: Seq<u8>,
    width: nat,
    j1: int,
    height: nat,
    j2: int,
    colors: Seq<Rgb>,
)
    requires
        opening_at(s),
        nat_at(s, 3, usize::MAX as nat) == Some((width, j1)),
        char_at(s, j1, SPACE),
        nat_at(s, j1 + 1, usize::MAX as nat) == Some((height, j2)),
        closing_at(s, j2),
        width * height <= usize::MAX,
        lines_at(s, j2 + 5, width * height) == Some((colors, s.len() as int)),
    ensures
        parse_spec(s) == Some((width, height, colors)),
{
}

/// Law: writing an image and reading the text gives the image back, with
/// its size and every colour.
pub proof fn lemma_round_trip(width: nat, height: nat, colors: Seq<Rgb>)
    requires
        holdable(width, height, colors),
    ensures
        parse_spec(ppm_text(width, height, colors)) == Some((width, height, colors)),
{
    let s = ppm_text(width, height, colors);
    let n: int = s.len() as int;
    let m: int = header(width, height).len() as int;
    let j1: int = 3int + decimal(width).len();
    let j2: int = j1 + 1 + decimal(height).len();
    assert(s.subrange(0, n) =~= s);
    lemma_split(s, 0, n, header(width, height), body(colors));
    lemma_header_complete(s, m, width, height);
    lemma_lines_at_complete(s, m, n, colors);
    lemma_parts_make_image(s, width, j1, height, j2, colors);
}

/// Law: two images with the same text are the same image.
pub proof fn lemma_text_tells_image(
    width: nat,
    height: nat,
    colors: Seq<Rgb>,
    other_width: nat,
    other_height: nat,
    other_colors: Seq<Rgb>,
)
    requires
        holdable(width, height, colors),
        holdable(other_width, other_height, other_colors),
        ppm_text(width, height, colors) == ppm_text(other_width, other_height, other_colors),
    ensures
        width == other_width,
        height == other_height,
        colors == other_colors,
{
    lemma_round_trip(width, height, colors);
    lemma_round_trip(other_width, other_height, other_colors);
}

} // verus!
