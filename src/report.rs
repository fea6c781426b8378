use vstd::prelude::*;
use crate::text::push_char;

verus! {

pub const KB: u64 = 1024;
pub const MB: u64 = 1024 * 1024;
pub const GB: u64 = 1024 * 1024 * 1024;

pub open spec fn digit_char(d: nat) -> char {
    if d == 0 { '0' } else if d == 1 { '1' } else if d == 2 { '2' } else if d == 3 { '3' } else if d == 4 { '4' } else if d == 5 { '5' } else if d == 6 { '6' } else if d == 7 { '7' } else if d == 8 { '8' } else { '9' }
}

/// The decimal digits of `n`, most significant first.
pub open spec fn decimal(n: nat) -> Seq<char>
    decreases n,
{
    if n < 10 {
        seq![digit_char(n)]
    } else {
        decimal(n / 10).push(digit_char(n % 10))
    }
}

/// `size / unit` in hundredths, rounded to the nearest, ties to even.
pub open spec fn scaled_hundredths(size: nat, unit: nat) -> nat
    recommends
        unit > 0,
{
    let q = size * 100 / unit;
    let r = size * 100 % unit;
    if 2 * r > unit || (2 * r == unit && q % 2 == 1) {
        q + 1
    } else {
        q
    }
}

/// A number of hundredths written with two decimals.
pub open spec fn two_decimals(h: nat) -> Seq<char> {
    decimal(h / 100) + seq!['.', digit_char((h / 10) % 10), digit_char(h % 10)]
}

/// A byte count as people read it: in GB, MB or KB with two decimals from
/// one KB up, else in bytes.
pub open spec fn size_text(size: u64) -> Seq<char> {
    if size >= GB {
        two_decimals(scaled_hundredths(size as nat, GB as nat)) + " GB"@
    } else if size >= MB {
        two_decimals(scaled_hundredths(size as nat, MB as nat)) + " MB"@
    } else if size >= KB {
        two_decimals(scaled_hundredths(size as nat, KB as nat)) + " KB"@
    } else {
        decimal(size as nat) + " bytes"@
    }
}

fn digit(d: u128) -> (c: char)
    requires
        d < 10,
    ensures
        c == digit_char(d as nat),
{
    if d == 0 { '0' } else if d == 1 { '1' } else if d == 2 { '2' } else if d == 3 { '3' } else if d == 4 { '4' } else if d == 5 { '5' } else if d == 6 { '6' } else if d == 7 { '7' } else if d == 8 { '8' } else { '9' }
}

/// Appends the decimal digits of `n`.
fn push_decimal(s: &mut String, n: u128)
    ensures
        final(s)@ == old(s)@ + decimal(n as nat),
    decreases n,
{
    if n < 10 {
        push_char(s, digit(n));
        assert(final(s)@ =~= old(s)@ + decimal(n as nat));
    } else {
        push_decimal(s, n / 10);
        push_char(s, digit(n % 10));
        assert(final(s)@ =~= old(s)@ + decimal(n as nat));
    }
}

/// `size / unit` in hundredths with two decimals, rounded ties to even.
fn push_scaled(s: &mut String, size: u64, unit: u64)
    requires
        unit > 0,
    ensures
        final(s)@ == old(s)@ + two_decimals(scaled_hundredths(size as nat, unit as nat)),
{
    let wide: u128 = size as u128 * 100;
    let q = wide / (unit as u128);
    let r = wide % (unit as u128);
    let h: u128 = if 2 * r > unit as u128 || (2 * r == unit as u128 && q % 2 == 1) { q + 1 } else { q };
    assert(h == scaled_hundredths(size as nat, unit as nat));
    push_decimal(s, h / 100);
    push_char(s, '.');
    push_char(s, digit((h / 10) % 10));
    push_char(s, digit(h % 10));
    assert(final(s)@ =~= old(s)@ + two_decimals(h as nat));
}

/// Writes a byte count for display: `"1.50 KB"`, `"2.00 MB"`, `"512 bytes"`.
pub fn format_size(size: u64) -> (r: String)
    ensures
        r@ == size_text(size),
{
    let mut r = String::new();
    if size >= GB {
        push_scaled(&mut r, size, GB);
        r.append(" GB");
    } else if size >= MB {
        push_scaled(&mut r, size, MB);
        r.append(" MB");
    } else if size >= KB {
        push_scaled(&mut r, size, KB);
        r.append(" KB");
    } else {
        push_decimal(&mut r, size as u128);
        r.append(" bytes");
    }
    r
}

} // verus!
