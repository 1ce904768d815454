//! Numbers as text: decimal and hexadecimal digits, and memory sizes in
//! binary units.
use vstd::prelude::*;
use vstd::string::StringExecFns;

verus! {

/// Lowercase digit of `d` in base 16 (and base 10 for `d < 10`).
pub open spec fn digit_char(d: nat) -> char {
    if d == 0 {
        '0'
    } else if d == 1 {
        '1'
    } else if d == 2 {
        '2'
    } else if d == 3 {
        '3'
    } else if d == 4 {
        '4'
    } else if d == 5 {
        '5'
    } else if d == 6 {
        '6'
    } else if d == 7 {
        '7'
    } else if d == 8 {
        '8'
    } else if d == 9 {
        '9'
    } else if d == 10 {
        'a'
    } else if d == 11 {
        'b'
    } else if d == 12 {
        'c'
    } else if d == 13 {
        'd'
    } else if d == 14 {
        'e'
    } else {
        'f'
    }
}

/// `n` in decimal, without leading zeros.
pub open spec fn decimal(n: nat) -> Seq<char>
    decreases n,
{
    if n < 10 {
        seq![digit_char(n)]
    } else {
        decimal(n / 10) + seq![digit_char(n % 10)]
    }
}

/// The last `width` hex digits of `n`, zero-padded.
pub open spec fn hex_padded(n: nat, width: nat) -> Seq<char>
    decreases width,
{
    if width == 0 {
        Seq::empty()
    } else {
        hex_padded(n / 16, (width - 1) as nat) + seq![digit_char(n % 16)]
    }
}

/// The one-character string of digit `d`.
fn digit_str(d: u64) -> (r: &'static str)
    requires
        d < 16,
    ensures
        r@ == seq![digit_char(d as nat)],
{
    let digits = "0123456789abcdef";
    proof {
        reveal_strlit("0123456789abcdef");
    }
    let r = digits.substring_char(d as usize, d as usize + 1);
    proof {
        assert(r@ =~= seq![digit_char(d as nat)]);
    }
    r
}

/// `n` in decimal.
pub fn decimal_string(n: u64) -> (r: String)
    ensures
        r@ == decimal(n as nat),
    decreases n,
{
    if n < 10 {
        let mut s = String::new();
        s.append(digit_str(n));
        s
    } else {
        let mut s = decimal_string(n / 10);
        s.append(digit_str(n % 10));
        s
    }
}

/// The last `width` hex digits of `n`, zero-padded.
pub fn hex_padded_string(n: u64, width: u64) -> (r: String)
    ensures
        r@ == hex_padded(n as nat, width as nat),
    decreases width,
{
    if width == 0 {
        String::new()
    } else {
        let mut s = hex_padded_string(n / 16, width - 1);
        s.append(digit_str(n % 16));
        s
    }
}

pub open spec fn size_text(size: nat) -> Seq<char> {
    if size < 2048 {
        decimal(size) + " B"@
    } else if size / 1024 < 2048 {
        decimal(size / 1024) + " KiB"@
    } else if size / 1024 / 1024 < 2048 {
        decimal(size / 1024 / 1024) + " MiB"@
    } else {
        decimal(size / 1024 / 1024 / 1024) + " GiB"@
    }
}

/// A memory size in the largest binary unit that keeps the number under
/// 2048, rounded down: `"2047 B"`, `"2 KiB"`, `"3 MiB"`, `"5 GiB"`.
pub fn human_readable_size(size: usize) -> (r: String)
    ensures
        r@ == size_text(size as nat),
{
    let t: usize = 2048;
    if size < t {
        let mut s = decimal_string(size as u64);
        s.append(" B");
        s
    } else if size / 1024 < t {
        let mut s = decimal_string((size / 1024) as u64);
        s.append(" KiB");
        s
    } else if size / 1024 / 1024 < t {
        let mut s = decimal_string((size / 1024 / 1024) as u64);
        s.append(" MiB");
        s
    } else {
        let mut s = decimal_string((size / 1024 / 1024 / 1024) as u64);
        s.append(" GiB");
        s
    }
}

} // verus!
