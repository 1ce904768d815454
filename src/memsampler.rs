//! What the memory sampler decides: how a reply to a memory read is read, how
//! the word it carries becomes a sample, and which ELF symbols can be sampled.
use crate::gdbremote::{hex_value, Response};
use crate::utils::{hex_padded, hex_padded_string};
use vstd::prelude::*;
use vstd::string::StringExecFns;

verus! {

/// ELF symbol types (`st_info & 0xf`) of data objects.
pub const STT_OBJECT: u8 = 1;

pub const STT_COMMON: u8 = 5;

pub const STT_TLS: u8 = 6;

/// Value of a string of hex digits.
pub open spec fn hex_digits_value(s: Seq<u8>) -> nat
    decreases s.len(),
{
    if s.len() == 0 {
        0
    } else {
        hex_digits_value(s.drop_last()) * 16 + hex_value(s.last())->0 as nat
    }
}

pub open spec fn all_hex(s: Seq<u8>) -> bool {
    forall|i: int| 0 <= i < s.len() ==> #[trigger] hex_value(s[i]) is Some
}

/// A `u32` written in base 16, as Rust reads one: an optional `+`, then at
/// least one hex digit (either case), with a value that fits.
pub open spec fn parse_hex_u32(s: Seq<u8>) -> Option<u32> {
    let d = if s.len() > 0 && s[0] == 0x2b {
        s.skip(1)
    } else {
        s
    };
    if d.len() == 0 || !all_hex(d) || hex_digits_value(d) > u32::MAX {
        None
    } else {
        Some(hex_digits_value(d) as u32)
    }
}

/// Reads the hex text of a memory read reply as a `u32`.
pub fn parse_hex_value(data: &[u8]) -> (r: Option<u32>)
    ensures
        r == parse_hex_u32(data@),
{
    let ghost s = data@;
    let n = data.len();
    let mut i: usize = 0;
    if n > 0 && data[0] == 0x2b {
        i = 1;
    }
    let ghost d = s.skip(i as int);
    if i == n {
        return None;
    }
    let start = i;
    let mut acc: u64 = 0;
    let mut overflowed = false;
    while i < n
        invariant
            start <= i <= n,
            n == s.len(),
            s == data@,
            start < n,
            d == s.skip(start as int),
            d == (if s.len() > 0 && s[0] == 0x2b {
                s.skip(1)
            } else {
                s
            }),
            forall|j: int| start <= j < i ==> #[trigger] hex_value(s[j]) is Some,
            !overflowed ==> acc == hex_digits_value(s.subrange(start as int, i as int)),
            !overflowed ==> acc <= u32::MAX,
            overflowed ==> hex_digits_value(s.subrange(start as int, i as int)) > u32::MAX,
        decreases n - i,
    {
        let h = crate::gdbremote::hex_value_of(data[i]);
        match h {
            None => {
                proof {
                    assert(hex_value(d[i - start]) is None);
                    assert(!all_hex(d));
                }
                return None;
            },
            Some(v) => {
                proof {
                    let p = s.subrange(start as int, i + 1);
                    assert(p.drop_last() =~= s.subrange(start as int, i as int));
                }
                if !overflowed {
                    acc = acc * 16 + v as u64;
                    if acc > u32::MAX as u64 {
                        overflowed = true;
                    }
                }
                i += 1;
            },
        }
    }
    proof {
        assert(s.subrange(start as int, i as int) =~= d);
        assert forall|j: int| 0 <= j < d.len() implies #[trigger] hex_value(d[j]) is Some by {
            assert(d[j] == s[start + j]);
        }
        assert(all_hex(d));
    }
    if overflowed {
        None
    } else {
        Some(acc as u32)
    }
}

/// `v` with its four bytes in reverse order.
pub open spec fn byte_swapped(v: u32) -> u32 {
    ((v % 256) * 16777216 + ((v / 256) % 256) * 65536 + ((v / 65536) % 256) * 256 + v
        / 16777216) as u32
}

/// The bits of the `f32` that a memory word read over GDB holds: the hex
/// text gives the bytes in memory order, most significant first, while the
/// target stores the float little-endian.
pub fn memory_word_bits(value: u32) -> (r: u32)
    ensures
        r == byte_swapped(value),
{
    (value % 256) * 16777216 + ((value / 256) % 256) * 65536 + ((value / 65536) % 256) * 256
        + value / 16777216
}

/// What a reply to a memory read means to the sampler.
#[derive(Clone, Copy, Debug, PartialEq, Eq, Structural)]
pub enum ReadOutcome {
    /// OpenOCD's `O` packet, sent while the target runs: wait on.
    KeepAlive,
    /// The word read, as hex text read into an integer.
    Value(u32),
    /// Anything else.
    Unexpected,
}

/// Reads a reply to `m <addr>,4`.
pub fn classify_read_response(response: &Response) -> (r: ReadOutcome)
    ensures
        match response {
            Response::ACK => r == ReadOutcome::Unexpected,
            Response::Packet(data) => if data@ == seq![0x4fu8] {
                r == ReadOutcome::KeepAlive
            } else {
                match parse_hex_u32(data@) {
                    Some(v) => r == ReadOutcome::Value(v),
                    None => r == ReadOutcome::Unexpected,
                }
            },
        },
{
    match response {
        Response::ACK => ReadOutcome::Unexpected,
        Response::Packet(data) => {
            if data.len() == 1 && data[0] == 0x4f {
                proof {
                    assert(data@ =~= seq![0x4fu8]);
                }
                ReadOutcome::KeepAlive
            } else {
                match parse_hex_value(data.as_slice()) {
                    Some(v) => ReadOutcome::Value(v),
                    None => ReadOutcome::Unexpected,
                }
            }
        },
    }
}

/// Whether a symbol can be sampled: a data object of exactly four bytes at
/// an address that fits 32 bits.
pub open spec fn samplable_symbol(symbol_type: u8, value: u64, size: u64) -> bool {
    size == 4 && (symbol_type == STT_COMMON || symbol_type == STT_OBJECT || symbol_type
        == STT_TLS) && value <= u32::MAX
}

/// The signal that an ELF symbol offers, named `"<name> (0x<addr:08x>)"`;
/// `None` for a symbol that cannot be sampled.
pub fn elf_symbol_signal(name: &str, symbol_type: u8, value: u64, size: u64) -> (r: Option<
    (u32, String),
>)
    ensures
        !samplable_symbol(symbol_type, value, size) ==> r is None,
        samplable_symbol(symbol_type, value, size) ==> match r {
            Some((id, label)) => id == value && label@ == name@ + " (0x"@ + hex_padded(
                value as nat,
                8,
            ) + ")"@,
            None => false,
        },
{
    if size != 4 {
        return None;
    }
    if !(symbol_type == STT_COMMON || symbol_type == STT_OBJECT || symbol_type == STT_TLS) {
        return None;
    }
    if value > u32::MAX as u64 {
        return None;
    }
    let mut label = String::new();
    label.append(name);
    label.append(" (0x");
    let hex = hex_padded_string(value, 8);
    label.append(hex.as_str());
    label.append(")");
    proof {
        assert(label@ =~= name@ + " (0x"@ + hex_padded(value as nat, 8) + ")"@);
    }
    Some((value as u32, label))
}

} // verus!
