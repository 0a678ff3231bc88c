//! Byte counts as text of a fixed width.

use vstd::prelude::*;
use vstd::string::*;

verus! {

/// The byte count from which on a unit is used, and the largest scaled
/// value that is shown without going to the next unit.
pub const UNIT_LIMIT: usize = 1100;

/// The character of a decimal digit.
pub open spec fn digit(d: int) -> char {
    if d == 0 {
        '0'
    } else if d == 1 {
        '1'
    } else if d == 2 {
        '2'
    } else if d == 3 {
        '3'
    } else if d == 4 {
        '4'
    } else if d == 5 {
        '5'
    } else if d == 6 {
        '6'
    } else if d == 7 {
        '7'
    } else if d == 8 {
        '8'
    } else {
        '9'
    }
}

/// The decimal numeral of `n`.
pub open spec fn decimal(n: nat) -> Seq<char>
    decreases n,
{
    if n < 10 {
        seq![digit(n as int)]
    } else {
        decimal(n / 10).push(digit((n % 10) as int))
    }
}

/// `n` spaces.
pub open spec fn spaces(n: int) -> Seq<char> {
    Seq::new(if n > 0 { n as nat } else { 0 }, |i: int| ' ')
}

/// `text` after as many spaces as bring it to `width` characters; `text`
/// itself if it is longer.
pub open spec fn right_justified(text: Seq<char>, width: int) -> Seq<char> {
    spaces(width - text.len()) + text
}

/// `text` before as many spaces as bring it to `width` characters; `text`
/// itself if it is longer.
pub open spec fn left_justified(text: Seq<char>, width: int) -> Seq<char> {
    text + spaces(width - text.len())
}

/// How many times a byte count is divided by 1024 before it is shown: not
/// at all below the limit; from the limit on once, and then again as long
/// as the scaled value exceeds the limit, four times at most.
pub open spec fn unit_steps(n: nat) -> nat {
    if n < UNIT_LIMIT {
        0
    } else if n <= UNIT_LIMIT * 0x400 {
        1
    } else if n <= UNIT_LIMIT * 0x10_0000 {
        2
    } else if n <= UNIT_LIMIT * 0x4000_0000 {
        3
    } else {
        4
    }
}

/// 1024 to the power of `steps`, for the steps that occur.
pub open spec fn unit_size(steps: nat) -> nat {
    if steps == 0 {
        1
    } else if steps == 1 {
        0x400
    } else if steps == 2 {
        0x10_0000
    } else if steps == 3 {
        0x4000_0000
    } else {
        0x100_0000_0000
    }
}

/// The letter of the unit that is reached after `steps` divisions.
pub open spec fn unit_letter(steps: nat) -> char {
    if steps <= 1 {
        'K'
    } else if steps == 2 {
        'M'
    } else if steps == 3 {
        'G'
    } else {
        'T'
    }
}

/// `n / size` in tenths, rounded to the nearest tenth, and to the even one
/// where two are equally near.
pub open spec fn tenths(n: nat, size: nat) -> nat {
    let whole = (n * 10) / size;
    let rest = (n * 10) % size;
    if 2 * rest > size || (2 * rest == size && whole % 2 == 1) {
        whole + 1
    } else {
        whole
    }
}

/// A number of tenths, written with one decimal.
pub open spec fn one_decimal(t: nat) -> Seq<char> {
    decimal(t / 10) + seq!['.', digit((t % 10) as int)]
}

/// A byte count as text: below the limit the count itself before `" B"`,
/// from the limit on the scaled count with one decimal before a space, the
/// unit letter and `B`. The number is right-justified in what `width`
/// leaves for it.
pub open spec fn filesize_text(n: nat, width: nat) -> Seq<char> {
    let steps = unit_steps(n);
    if steps == 0 {
        right_justified(decimal(n), width - 2) + seq![' ', 'B']
    } else {
        right_justified(one_decimal(tenths(n, unit_size(steps))), width - 3) + seq![
            ' ',
            unit_letter(steps),
            'B',
        ]
    }
}

/// The decimal numeral of `n` has at least one digit.
pub proof fn lemma_decimal_len(n: nat)
    ensures
        decimal(n).len() >= 1,
        n < 10 <==> decimal(n).len() == 1,
    decreases n,
{
    if n >= 10 {
        lemma_decimal_len(n / 10);
    }
}

/// A rendered byte count is exactly as wide as asked for, unless the text
/// needs more room than that: then it is as wide as it would be for the
/// width zero.
pub proof fn lemma_filesize_width(n: nat, width: nat)
    ensures
        filesize_text(n, width).len() == if width >= filesize_text(n, 0).len() {
            width
        } else {
            filesize_text(n, 0).len()
        },
{
    lemma_decimal_len(n);
    lemma_decimal_len(tenths(n, unit_size(unit_steps(n))) / 10);
}

/// A count below the limit is shown in bytes; the limit is the first count
/// that is shown in a unit.
pub proof fn lemma_unit_boundary()
    ensures
        unit_steps(1099) == 0,
        unit_steps(1100) == 1,
        forall|n: nat| unit_steps(n) == 0 <==> n < 1100,
{
}

/// The text of one decimal digit.
fn digit_str(d: u8) -> (s: &'static str)
    requires
        d < 10,
    ensures
        s@ == seq![digit(d as int)],
{
    proof {
        reveal_strlit("0");
        reveal_strlit("1");
        reveal_strlit("2");
        reveal_strlit("3");
        reveal_strlit("4");
        reveal_strlit("5");
        reveal_strlit("6");
        reveal_strlit("7");
        reveal_strlit("8");
        reveal_strlit("9");
    }
    let s = if d == 0 {
        "0"
    } else if d == 1 {
        "1"
    } else if d == 2 {
        "2"
    } else if d == 3 {
        "3"
    } else if d == 4 {
        "4"
    } else if d == 5 {
        "5"
    } else if d == 6 {
        "6"
    } else if d == 7 {
        "7"
    } else if d == 8 {
        "8"
    } else {
        "9"
    };
    assert(s@ =~= seq![digit(d as int)]);
    s
}

/// Appends the decimal numeral of `n` to `out`.
pub fn push_decimal(out: &mut String, n: u128)
    ensures
        final(out)@ == old(out)@ + decimal(n as nat),
    decreases n,
{
    if n >= 10 {
        push_decimal(out, n / 10);
    }
    out.append(digit_str((n % 10) as u8));
    assert(final(out)@ =~= old(out)@ + decimal(n as nat));
}

/// Appends `n` spaces to `out`.
pub fn push_spaces(out: &mut String, n: usize)
    ensures
        final(out)@ == old(out)@ + spaces(n as int),
{
    let mut i: usize = 0;
    assert(out@ =~= old(out)@ + spaces(0));
    while i < n
        invariant
            i <= n,
            out@ == old(out)@ + spaces(i as int),
        decreases n - i,
    {
        proof {
            reveal_strlit(" ");
        }
        out.append(" ");
        i += 1;
        assert(out@ =~= old(out)@ + spaces(i as int));
    }
}

/// Ten to the power of `k`.
pub open spec fn pow10(k: nat) -> nat
    decreases k,
{
    if k == 0 {
        1
    } else {
        10 * pow10((k - 1) as nat)
    }
}

/// A number below ten to the power of `k` has at most `k` digits.
pub proof fn lemma_decimal_bound(n: nat, k: nat)
    requires
        k >= 1,
        n < pow10(k),
    ensures
        decimal(n).len() <= k,
    decreases n,
{
    if n >= 10 {
        assert(pow10(1) == 10) by {
            reveal_with_fuel(pow10, 2);
        }
        if k == 1 {
            assert(false);
        }
        lemma_decimal_bound(n / 10, (k - 1) as nat);
    }
}

/// The number of digits of the decimal numeral of `n`.
pub fn decimal_width(n: u128) -> (w: usize)
    ensures
        w == decimal(n as nat).len(),
        1 <= w <= 39,
{
    let mut rest: u128 = n;
    let mut w: usize = 1;
    proof {
        assert(pow10(39) == 1_000_000_000_000_000_000_000_000_000_000_000_000_000) by {
            reveal_with_fuel(pow10, 40);
        }
        lemma_decimal_bound(n as nat, 39);
        lemma_decimal_len(n as nat);
    }
    while rest >= 10
        invariant
            1 <= w,
            w + decimal(rest as nat).len() == decimal(n as nat).len() + 1,
            decimal(n as nat).len() <= 39,
        decreases rest,
    {
        proof {
            lemma_decimal_len(rest as nat);
            lemma_decimal_len(rest as nat / 10);
        }
        rest = rest / 10;
        w += 1;
    }
    proof {
        lemma_decimal_len(rest as nat);
    }
    w
}

/// `n / size` in tenths, rounded to the nearest and, between two, to the
/// even one.
pub fn rounded_tenths(n: u128, size: u128) -> (t: u128)
    requires
        size > 0,
        n * 10 < u128::MAX,
    ensures
        t == tenths(n as nat, size as nat),
{
    let scaled: u128 = n * 10;
    let whole: u128 = scaled / size;
    let rest: u128 = scaled % size;
    // `rest > size - rest` says `2 * rest > size` without leaving the type.
    if rest > size - rest || (rest == size - rest && whole % 2 == 1) {
        whole + 1
    } else {
        whole
    }
}

/// The size and the letter of the unit in which a count from the limit on
/// is shown.
fn unit_of(n: u128) -> (unit: (u128, &'static str))
    requires
        n >= UNIT_LIMIT,
    ensures
        unit.0 == unit_size(unit_steps(n as nat)),
        unit.1@ == seq![unit_letter(unit_steps(n as nat))],
{
    proof {
        reveal_strlit("K");
        reveal_strlit("M");
        reveal_strlit("G");
        reveal_strlit("T");
    }
    let unit: (u128, &'static str) = if n <= 1100 * 0x400 {
        (0x400, "K")
    } else if n <= 1100 * 0x10_0000 {
        (0x10_0000, "M")
    } else if n <= 1100 * 0x4000_0000 {
        (0x4000_0000, "G")
    } else {
        (0x100_0000_0000, "T")
    };
    assert(unit.1@ =~= seq![unit_letter(unit_steps(n as nat))]);
    unit
}

/// A number of tenths with one decimal, right-justified in `room`
/// characters.
fn tenths_text(t: u128, room: usize) -> (text: String)
    ensures
        text@ == right_justified(one_decimal(t as nat), room as int),
{
    let mut out = String::new();
    let digits = decimal_width(t / 10) + 2;
    if room > digits {
        push_spaces(&mut out, room - digits);
    }
    assert(out@ =~= spaces(room - one_decimal(t as nat).len()));
    push_decimal(&mut out, t / 10);
    proof {
        reveal_strlit(".");
    }
    out.append(".");
    out.append(digit_str((t % 10) as u8));
    assert(out@ =~= right_justified(one_decimal(t as nat), room as int));
    out
}

/// A decimal numeral, right-justified in `room` characters.
fn number_text(n: u128, room: usize) -> (text: String)
    ensures
        text@ == right_justified(decimal(n as nat), room as int),
{
    let mut out = String::new();
    let digits = decimal_width(n);
    if room > digits {
        push_spaces(&mut out, room - digits);
    }
    assert(out@ =~= spaces(room - decimal(n as nat).len()));
    push_decimal(&mut out, n);
    out
}

/// A byte count, to be shown with a binary unit.
#[derive(Clone, Copy, Debug)]
pub struct Filesize(pub usize);

impl Filesize {
    /// The count as text of `width` characters: see [`filesize_text`].
    pub fn to_text(&self, width: usize) -> (text: String)
        ensures
            text@ == filesize_text(self.0 as nat, width as nat),
    {
        let n: u128 = self.0 as u128;
        if n < 1100 {
            let mut out = number_text(n, width.saturating_sub(2));
            proof {
                reveal_strlit(" B");
                assert(spaces(width.saturating_sub(2) - decimal(n as nat).len()) =~= spaces(
                    width - 2 - decimal(n as nat).len(),
                )) by {
                    lemma_decimal_len(n as nat);
                }
            }
            out.append(" B");
            assert(out@ =~= filesize_text(self.0 as nat, width as nat));
            out
        } else {
            let (size, letter) = unit_of(n);
            let t = rounded_tenths(n, size);
            let mut out = tenths_text(t, width.saturating_sub(3));
            proof {
                reveal_strlit(" ");
                reveal_strlit("B");
                assert(spaces(width.saturating_sub(3) - one_decimal(t as nat).len()) =~= spaces(
                    width - 3 - one_decimal(t as nat).len(),
                ));
            }
            out.append(" ");
            out.append(letter);
            out.append("B");
            assert(out@ =~= filesize_text(self.0 as nat, width as nat));
            out
        }
    }
}

} // verus!
