//! What the library reads from OpenOCD's Telnet console: the RTT channel
//! listing, the lines of a console session, and the values its replies carry.
use crate::gdbremote::copy_range;
use crate::memsampler::{parse_hex_u32, parse_hex_value};
use vstd::prelude::*;
use vstd::string::StringSliceAdditionalSpecFns;
use vstd::utf8::valid_utf8;

verus! {

#[derive(Clone, Copy, Debug, PartialEq, Eq, Structural)]
pub enum RTTChannelDirection {
    Up,
    Down,
}

/// One RTT channel of the target, as `rtt channels` lists it.
#[derive(Clone, Debug)]
pub struct RTTChannel {
    pub id: u32,
    pub name: String,
    pub buffer_size: u32,
    pub flags: u32,
    pub direction: RTTChannelDirection,
}

/// What a channel holds, as plain values.
pub open spec fn channel_view(c: RTTChannel) -> (u32, Seq<char>, u32, u32, RTTChannelDirection) {
    (c.id, c.name@, c.buffer_size, c.flags, c.direction)
}

pub open spec fn starts_with(s: Seq<char>, prefix: Seq<char>) -> bool {
    prefix.len() <= s.len() && s.take(prefix.len() as int) == prefix
}

pub open spec fn is_digit(c: char) -> bool {
    '0' <= c <= '9'
}

/// Decimal value of a string of digits.
pub open spec fn digits_value(s: Seq<char>) -> nat
    decreases s.len(),
{
    if s.len() == 0 {
        0
    } else {
        digits_value(s.drop_last()) * 10 + (s.last() as u32 - '0' as u32) as nat
    }
}

pub open spec fn all_digits(s: Seq<char>) -> bool {
    forall|i: int| 0 <= i < s.len() ==> is_digit(#[trigger] s[i])
}

/// An unsigned 32-bit number in decimal, as Rust reads one: an optional `+`,
/// then at least one digit, with a value that fits.
pub open spec fn parse_u32(s: Seq<char>) -> Option<u32> {
    let d = if s.len() > 0 && s[0] == '+' {
        s.skip(1)
    } else {
        s
    };
    if d.len() == 0 || !all_digits(d) {
        None
    } else if digits_value(d) > u32::MAX {
        None
    } else {
        Some(digits_value(d) as u32)
    }
}

/// Index of the first `": "` of `s`, or -1.
pub open spec fn separator_index(s: Seq<char>) -> int
    decreases s.len(),
{
    if s.len() < 2 {
        -1
    } else if s[0] == ':' && s[1] == ' ' {
        0
    } else {
        let k = separator_index(s.skip(1));
        if k < 0 {
            -1
        } else {
            k + 1
        }
    }
}

pub open spec fn is_ascii_whitespace(c: char) -> bool {
    c == ' ' || c == '\t' || c == '\n' || c == '\x0C' || c == '\r'
}

/// `s` without its leading ASCII whitespace.
pub open spec fn skip_whitespace(s: Seq<char>) -> Seq<char>
    decreases s.len(),
{
    if s.len() > 0 && is_ascii_whitespace(s[0]) {
        skip_whitespace(s.skip(1))
    } else {
        s
    }
}

/// Length of the leading run of non-whitespace of `s`.
pub open spec fn token_length(s: Seq<char>) -> nat
    decreases s.len(),
{
    if s.len() > 0 && !is_ascii_whitespace(s[0]) {
        1 + token_length(s.skip(1))
    } else {
        0
    }
}

/// The first whitespace-separated token of `s` (empty if none), and what
/// follows it.
pub open spec fn next_token(s: Seq<char>) -> (Seq<char>, Seq<char>) {
    let t = skip_whitespace(s);
    let n = token_length(t) as int;
    (t.take(n), t.skip(n))
}

/// The direction that a listing line opens, if it opens one.
pub open spec fn line_direction(s: Seq<char>) -> Option<RTTChannelDirection> {
    if starts_with(s, "Up-channels:"@) {
        Some(RTTChannelDirection::Up)
    } else if starts_with(s, "Down-channels:"@) {
        Some(RTTChannelDirection::Down)
    } else {
        None
    }
}

/// The channel that a listing line `<id>: <name> <size> <flags>` describes:
/// the id before the first `": "`, then the first three whitespace-separated
/// tokens of the text up to the next `": "`.
pub open spec fn line_channel(s: Seq<char>) -> Option<(u32, Seq<char>, u32, u32)> {
    let k = separator_index(s);
    if k < 0 {
        None
    } else {
        let rest = s.skip(k + 2);
        let k2 = separator_index(rest);
        let description = if k2 < 0 {
            rest
        } else {
            rest.take(k2)
        };
        let (name, r1) = next_token(description);
        let (size, r2) = next_token(r1);
        let (flags, _) = next_token(r2);
        match (parse_u32(s.take(k)), parse_u32(size), parse_u32(flags)) {
            (Some(id), Some(size), Some(flags)) => if name.len() == 0 {
                None
            } else {
                Some((id, name, size, flags))
            },
            _ => None,
        }
    }
}

/// The channels that `lines` list, with `direction` the direction that the
/// lines before them opened.
pub open spec fn listed_channels(
    lines: Seq<Seq<char>>,
    direction: Option<RTTChannelDirection>,
) -> Seq<(u32, Seq<char>, u32, u32, RTTChannelDirection)>
    decreases lines.len(),
{
    if lines.len() == 0 {
        Seq::empty()
    } else {
        let line = lines[0];
        let rest = lines.skip(1);
        match line_direction(line) {
            Some(d) => listed_channels(rest, Some(d)),
            None => match (line_channel(line), direction) {
                (Some((id, name, size, flags)), Some(d)) => seq![(id, name, size, flags, d)]
                    + listed_channels(rest, direction),
                _ => listed_channels(rest, direction),
            },
        }
    }
}

/// `s` starts with `prefix`.
pub fn str_starts_with(s: &str, prefix: &str) -> (r: bool)
    ensures
        r == starts_with(s@, prefix@),
{
    let n = s.unicode_len();
    let m = prefix.unicode_len();
    if m > n {
        return false;
    }
    let mut i: usize = 0;
    while i < m
        invariant
            i <= m <= n,
            n == s@.len(),
            m == prefix@.len(),
            forall|j: int| 0 <= j < i ==> s@[j] == prefix@[j],
        decreases m - i,
    {
        if s.get_char(i) != prefix.get_char(i) {
            proof {
                assert(s@.take(m as int)[i as int] != prefix@[i as int]);
            }
            return false;
        }
        i += 1;
    }
    proof {
        assert(s@.take(m as int) =~= prefix@);
    }
    true
}

/// `parse_u32` of `s[from..to]`.
pub fn parse_u32_in(s: &str, from: usize, to: usize) -> (r: Option<u32>)
    requires
        from <= to <= s@.len(),
    ensures
        r == parse_u32(s@.subrange(from as int, to as int)),
{
    let ghost t = s@.subrange(from as int, to as int);
    let mut i = from;
    if i < to && s.get_char(i) == '+' {
        i += 1;
    }
    let ghost d = s@.subrange(i as int, to as int);
    proof {
        assert(d =~= (if t.len() > 0 && t[0] == '+' {
            t.skip(1)
        } else {
            t
        }));
    }
    if i == to {
        return None;
    }
    let start = i;
    let mut acc: u64 = 0;
    let mut overflowed = false;
    while i < to
        invariant
            start <= i <= to <= s@.len(),
            start < to,
            d == s@.subrange(start as int, to as int),
            t == s@.subrange(from as int, to as int),
            d == (if t.len() > 0 && t[0] == '+' {
                t.skip(1)
            } else {
                t
            }),
            forall|j: int| start <= j < i ==> is_digit(#[trigger] s@[j]),
            !overflowed ==> acc == digits_value(s@.subrange(start as int, i as int)),
            !overflowed ==> acc <= u32::MAX,
            overflowed ==> digits_value(s@.subrange(start as int, i as int)) > u32::MAX,
        decreases to - i,
    {
        let c = s.get_char(i);
        if !('0' <= c && c <= '9') {
            proof {
                assert(!is_digit(d[i - start]));
                assert(!all_digits(d));
                assert(parse_u32(t) is None);
            }
            return None;
        }
        proof {
            let p = s@.subrange(start as int, i + 1);
            assert(p.drop_last() =~= s@.subrange(start as int, i as int));
        }
        if !overflowed {
            acc = acc * 10 + (c as u32 - '0' as u32) as u64;
            if acc > u32::MAX as u64 {
                overflowed = true;
            }
        }
        i += 1;
    }
    proof {
        assert(s@.subrange(start as int, i as int) == d);
        assert forall|j: int| 0 <= j < d.len() implies is_digit(#[trigger] d[j]) by {
            assert(d[j] == s@[start + j]);
        }
        assert(all_digits(d));
    }
    if overflowed {
        None
    } else {
        Some(acc as u32)
    }
}

/// Position of the first `": "` in `s[from..to]`, relative to `from`.
fn separator_in(s: &str, from: usize, to: usize) -> (r: Option<usize>)
    requires
        from <= to <= s@.len(),
    ensures
        match r {
            Some(k) => separator_index(s@.subrange(from as int, to as int)) == k as int,
            None => separator_index(s@.subrange(from as int, to as int)) < 0,
        },
{
    let ghost t = s@.subrange(from as int, to as int);
    let mut i = from;
    while to - i >= 2 && !(s.get_char(i) == ':' && s.get_char(i + 1) == ' ')
        invariant
            from <= i <= to <= s@.len(),
            t == s@.subrange(from as int, to as int),
            separator_index(t) == (if separator_index(s@.subrange(i as int, to as int)) < 0 {
                -1
            } else {
                separator_index(s@.subrange(i as int, to as int)) + (i - from)
            }),
        decreases to - i,
    {
        proof {
            assert(s@.subrange(i as int, to as int).skip(1) =~= s@.subrange(i + 1, to as int));
        }
        i += 1;
    }
    if to - i >= 2 {
        Some(i - from)
    } else {
        None
    }
}

fn whitespace_char(c: char) -> (r: bool)
    ensures
        r == is_ascii_whitespace(c),
{
    c == ' ' || c == '\t' || c == '\n' || c == '\x0C' || c == '\r'
}

/// End of the whitespace run that starts at `from`, before `to`.
fn skip_whitespace_in(s: &str, from: usize, to: usize) -> (r: usize)
    requires
        from <= to <= s@.len(),
    ensures
        from <= r <= to,
        s@.subrange(r as int, to as int) == skip_whitespace(s@.subrange(from as int, to as int)),
{
    let mut i = from;
    while i < to && whitespace_char(s.get_char(i))
        invariant
            from <= i <= to <= s@.len(),
            skip_whitespace(s@.subrange(i as int, to as int)) == skip_whitespace(
                s@.subrange(from as int, to as int),
            ),
        decreases to - i,
    {
        proof {
            assert(s@.subrange(i as int, to as int).skip(1) =~= s@.subrange(i + 1, to as int));
        }
        i += 1;
    }
    i
}

/// End of the run of non-whitespace that starts at `from`, before `to`.
fn token_end_in(s: &str, from: usize, to: usize) -> (r: usize)
    requires
        from <= to <= s@.len(),
    ensures
        from <= r <= to,
        r - from == token_length(s@.subrange(from as int, to as int)),
{
    let mut i = from;
    while i < to && !whitespace_char(s.get_char(i))
        invariant
            from <= i <= to <= s@.len(),
            token_length(s@.subrange(from as int, to as int)) == (i - from) + token_length(
                s@.subrange(i as int, to as int),
            ),
        decreases to - i,
    {
        proof {
            assert(s@.subrange(i as int, to as int).skip(1) =~= s@.subrange(i + 1, to as int));
        }
        i += 1;
    }
    i
}

proof fn lemma_separator_bound(s: Seq<char>)
    ensures
        separator_index(s) >= -1,
        separator_index(s) >= 0 ==> separator_index(s) + 2 <= s.len(),
    decreases s.len(),
{
    if s.len() >= 2 && !(s[0] == ':' && s[1] == ' ') {
        lemma_separator_bound(s.skip(1));
    }
}

/// The channel that a listing line describes (see `line_channel`).
#[verifier::rlimit(40)]
pub fn parse_channel_line(line: &str) -> (r: Option<(u32, String, u32, u32)>)
    ensures
        match line_channel(line@) {
            None => r is None,
            Some((id, name, size, flags)) => match r {
                Some((a, b, c, d)) => a == id && b@ == name && c == size && d == flags,
                None => false,
            },
        },
{
    let ghost s = line@;
    let n = line.unicode_len();
    proof {
        assert(s.subrange(0, n as int) =~= s);
        lemma_separator_bound(s);
    }
    let k = match separator_in(line, 0, n) {
        None => {
            return None;
        },
        Some(k) => k,
    };
    let rest_from = k + 2;
    let ghost rest = s.skip(rest_from as int);
    proof {
        assert(rest =~= s.subrange(rest_from as int, n as int));
        lemma_separator_bound(rest);
    }
    let desc_to = match separator_in(line, rest_from, n) {
        None => n,
        Some(k2) => rest_from + k2,
    };
    let ghost description = s.subrange(rest_from as int, desc_to as int);
    proof {
        let k2 = separator_index(rest);
        if k2 >= 0 {
            assert(rest.take(k2) =~= description);
        } else {
            assert(rest =~= description);
        }
    }
    let a = skip_whitespace_in(line, rest_from, desc_to);
    let b = token_end_in(line, a, desc_to);
    let c = skip_whitespace_in(line, b, desc_to);
    let d = token_end_in(line, c, desc_to);
    let e = skip_whitespace_in(line, d, desc_to);
    let f = token_end_in(line, e, desc_to);
    proof {
        let t1 = s.subrange(a as int, desc_to as int);
        assert(t1.take(b - a) =~= s.subrange(a as int, b as int));
        assert(t1.skip(b - a) =~= s.subrange(b as int, desc_to as int));
        let t2 = s.subrange(c as int, desc_to as int);
        assert(t2.take(d - c) =~= s.subrange(c as int, d as int));
        assert(t2.skip(d - c) =~= s.subrange(d as int, desc_to as int));
        let t3 = s.subrange(e as int, desc_to as int);
        assert(t3.take(f - e) =~= s.subrange(e as int, f as int));
        assert(s.take(k as int) =~= s.subrange(0, k as int));
    }
    let id = parse_u32_in(line, 0, k);
    let size = parse_u32_in(line, c, d);
    let flags = parse_u32_in(line, e, f);
    match (id, size, flags) {
        (Some(id), Some(size), Some(flags)) => {
            if b == a {
                None
            } else {
                let name = line.substring_char(a, b).to_owned();
                Some((id, name, size, flags))
            }
        },
        _ => None,
    }
}

/// The direction that a listing line opens (see `line_direction`).
pub fn parse_direction_line(line: &str) -> (r: Option<RTTChannelDirection>)
    ensures
        r == line_direction(line@),
{
    if str_starts_with(line, "Up-channels:") {
        Some(RTTChannelDirection::Up)
    } else if str_starts_with(line, "Down-channels:") {
        Some(RTTChannelDirection::Down)
    } else {
        None
    }
}

/// The lines as character sequences.
pub open spec fn lines_view(lines: Seq<String>) -> Seq<Seq<char>> {
    lines.map_values(|l: String| l@)
}

/// Parses the output of `rtt channels`:
///
/// ```text
/// Up-channels:
/// 0: Terminal 1024 0
/// 2: JScope_T4F4F4F4F4 4096 0
/// Down-channels:
/// 0: Terminal 16 0
/// ```
///
/// Each channel line takes the direction of the last header above it; a
/// channel line under no header, and any line that is neither, is skipped.
pub fn parse_rtt_channels(lines: &[String]) -> (r: Vec<RTTChannel>)
    ensures
        r@.map_values(|c: RTTChannel| channel_view(c)) == listed_channels(lines_view(lines@), None),
{
    let ghost all = lines_view(lines@);
    let mut channels: Vec<RTTChannel> = Vec::new();
    let mut direction: Option<RTTChannelDirection> = None;
    let mut i: usize = 0;
    proof {
        assert(all.skip(0) =~= all);
        assert(channels@.map_values(|c: RTTChannel| channel_view(c)) + listed_channels(all, None)
            =~= listed_channels(all, None));
    }
    while i < lines.len()
        invariant
            i <= lines@.len(),
            all == lines_view(lines@),
            listed_channels(all, None) == channels@.map_values(|c: RTTChannel| channel_view(c))
                + listed_channels(all.skip(i as int), direction),
        decreases lines.len() - i,
    {
        let line = lines[i].as_str();
        let ghost before = channels@.map_values(|c: RTTChannel| channel_view(c));
        proof {
            assert(all.skip(i as int).skip(1) =~= all.skip(i + 1));
            assert(all.skip(i as int)[0] == line@);
        }
        match parse_direction_line(line) {
            Some(d) => {
                direction = Some(d);
            },
            None => {
                match (parse_channel_line(line), direction) {
                    (Some((id, name, buffer_size, flags)), Some(d)) => {
                        channels.push(RTTChannel { id, name, buffer_size, flags, direction: d });
                        proof {
                            let after = channels@.map_values(|c: RTTChannel| channel_view(c));
                            assert(after =~= before.push((id, name@, buffer_size, flags, d)));
                            assert(before + (seq![(id, name@, buffer_size, flags, d)]
                                + listed_channels(all.skip(i + 1), direction)) =~= after
                                + listed_channels(all.skip(i + 1), direction));
                        }
                    },
                    _ => {},
                }
            },
        }
        i += 1;
    }
    proof {
        assert(all.skip(i as int).len() == 0);
        let v = channels@.map_values(|c: RTTChannel| channel_view(c));
        assert(v + Seq::empty() =~= v);
    }
    channels
}

/// Errors of an OpenOCD console session.
#[derive(Debug)]
pub enum TelnetInterfaceError {
    IOError(String),
    TelnetError(String),
    Timeout,
    UnexpectedResponse(Vec<u8>),
}

/// Default deadline of one console command, in milliseconds.
pub const DEFAULT_TIMEOUT_MS: u64 = 200;

/// Index of the first `x` in `b`, or -1.
pub open spec fn first_index(b: Seq<u8>, x: u8) -> int
    decreases b.len(),
{
    if b.len() == 0 {
        -1
    } else if b[0] == x {
        0
    } else {
        let k = first_index(b.skip(1), x);
        if k < 0 {
            -1
        } else {
            k + 1
        }
    }
}

proof fn lemma_first_index_bound(b: Seq<u8>, x: u8)
    ensures
        -1 <= first_index(b, x) < b.len(),
        first_index(b, x) >= 0 ==> b[first_index(b, x)] == x,
    decreases b.len(),
{
    if b.len() > 0 && b[0] != x {
        lemma_first_index_bound(b.skip(1), x);
    }
}

/// Lines that OpenOCD writes around its asynchronous log output start with
/// two backspaces.
pub open spec fn is_repaint_line(line: Seq<u8>) -> bool {
    line.len() >= 2 && line[0] == 8 && line[1] == 8
}

/// The next line at the front of a console buffer, ending in `\r\n`, and
/// what follows it; repaint lines are skipped. `None` until the first `\n`
/// of what is left has arrived, preceded by `\r`.
pub open spec fn next_line(b: Seq<u8>) -> Option<(Seq<u8>, Seq<u8>)>
    decreases b.len(),
{
    let i = first_index(b, 0x0a);
    if i < 1 || i >= b.len() || b[i - 1] != 0x0d {
        None
    } else if is_repaint_line(b.take(i + 1)) {
        next_line(b.skip(i + 1))
    } else {
        Some((b.take(i + 1), b.skip(i + 1)))
    }
}

/// `b` without its `0x00` bytes (the printer's no-operation).
pub open spec fn without_nuls(b: Seq<u8>) -> Seq<u8>
    decreases b.len(),
{
    if b.len() == 0 {
        Seq::empty()
    } else if b.last() == 0 {
        without_nuls(b.drop_last())
    } else {
        without_nuls(b.drop_last()).push(b.last())
    }
}

pub open spec fn ends_with(b: Seq<u8>, suffix: Seq<u8>) -> bool {
    suffix.len() <= b.len() && b.skip(b.len() - suffix.len()) == suffix
}

/// The console side of an OpenOCD Telnet session: what the connection
/// delivers is gathered here, and prompts and lines are taken from it.
pub struct TelnetInterface {
    timeout_ms: u64,
    buffer: Vec<u8>,
}

impl TelnetInterface {
    /// Bytes received and not yet taken.
    pub closed spec fn pending(&self) -> Seq<u8> {
        self.buffer@
    }

    pub closed spec fn spec_timeout(&self) -> u64 {
        self.timeout_ms
    }

    pub fn new() -> (r: TelnetInterface)
        ensures
            r.pending() == Seq::<u8>::empty(),
            r.spec_timeout() == DEFAULT_TIMEOUT_MS,
    {
        TelnetInterface { timeout_ms: DEFAULT_TIMEOUT_MS, buffer: Vec::new() }
    }

    /// Deadline of each later command, in milliseconds.
    pub fn set_timeout(&mut self, timeout_ms: u64)
        ensures
            final(self).spec_timeout() == timeout_ms,
            final(self).pending() == old(self).pending(),
    {
        self.timeout_ms = timeout_ms;
    }

    pub fn timeout(&self) -> (r: u64)
        ensures
            r == self.spec_timeout(),
    {
        self.timeout_ms
    }

    /// Takes in the data of one read of the connection, dropping `0x00`
    /// bytes; returns how many bytes were read.
    pub fn read_into_buffer(&mut self, data: &[u8]) -> (r: usize)
        ensures
            r == data@.len(),
            final(self).pending() == old(self).pending() + without_nuls(data@),
            final(self).spec_timeout() == old(self).spec_timeout(),
    {
        let mut i: usize = 0;
        proof {
            assert(data@.take(0) =~= Seq::<u8>::empty());
            assert(self.buffer@ + Seq::<u8>::empty() =~= self.buffer@);
        }
        while i < data.len()
            invariant
                i <= data@.len(),
                self.buffer@ == old(self).buffer@ + without_nuls(data@.take(i as int)),
                self.timeout_ms == old(self).timeout_ms,
            decreases data.len() - i,
        {
            proof {
                assert(data@.take(i + 1).drop_last() =~= data@.take(i as int));
            }
            if data[i] != 0 {
                self.buffer.push(data[i]);
                proof {
                    assert(self.buffer@ =~= old(self).buffer@ + without_nuls(data@.take(i + 1)));
                }
            }
            i += 1;
        }
        proof {
            assert(data@.take(i as int) =~= data@);
        }
        data.len()
    }

    /// Takes the prompt `"> "` if the buffer ends with it, clearing the
    /// buffer; the caller waits for it before each command.
    pub fn take_prompt(&mut self) -> (r: bool)
        ensures
            r == ends_with(old(self).pending(), seq![0x3eu8, 0x20u8]),
            r ==> final(self).pending() == Seq::<u8>::empty(),
            !r ==> final(self).pending() == old(self).pending(),
            final(self).spec_timeout() == old(self).spec_timeout(),
    {
        let n = self.buffer.len();
        if n >= 2 && self.buffer[n - 2] == 0x3e && self.buffer[n - 1] == 0x20 {
            proof {
                assert(self.buffer@.skip(n - 2) =~= seq![0x3eu8, 0x20u8]);
            }
            self.buffer.clear();
            true
        } else {
            proof {
                if n >= 2 {
                    assert(self.buffer@.skip(n - 2)[0] == self.buffer@[n - 2]);
                    assert(self.buffer@.skip(n - 2)[1] == self.buffer@[n - 1]);
                }
            }
            false
        }
    }

    /// Takes the next complete line (with its `\\r\\n`) from the buffer,
    /// skipping repaint lines; `None` while no complete line is there.
    pub fn read_line(&mut self) -> (r: Option<Vec<u8>>)
        ensures
            final(self).spec_timeout() == old(self).spec_timeout(),
            match next_line(old(self).pending()) {
                None => r is None,
                Some((line, rest)) => r is Some && r->0@ == line && final(self).pending() == rest,
            },
    {
        loop
            invariant
                self.timeout_ms == old(self).timeout_ms,
                next_line(old(self).buffer@) == next_line(self.buffer@),
            decreases self.buffer@.len(),
        {
            let n = self.buffer.len();
            let mut i: usize = 0;
            let ghost b = self.buffer@;
            proof {
                assert(b.skip(0) =~= b);
                lemma_first_index_bound(b, 0x0a);
            }
            while i < n && self.buffer[i] != 0x0a
                invariant
                    i <= n,
                    n == b.len(),
                    b == self.buffer@,
                    first_index(b, 0x0a) == (if first_index(b.skip(i as int), 0x0a) < 0 {
                        -1
                    } else {
                        first_index(b.skip(i as int), 0x0a) + i
                    }),
                decreases n - i,
            {
                proof {
                    assert(b.skip(i as int).skip(1) =~= b.skip(i + 1));
                }
                i += 1;
            }
            proof {
                if i < n {
                    assert(b.skip(i as int)[0] == 0x0a);
                } else {
                    assert(b.skip(i as int).len() == 0);
                }
            }
            if i == n || i < 1 || self.buffer[i - 1] != 0x0d {
                return None;
            }
            let line = copy_range(self.buffer.as_slice(), 0, i + 1);
            let rest = copy_range(self.buffer.as_slice(), i + 1, n);
            proof {
                assert(line@ =~= b.take(i + 1));
                assert(rest@ =~= b.skip(i + 1));
            }
            self.buffer = rest;
            if !(line.len() >= 2 && line[0] == 8 && line[1] == 8) {
                return Some(line);
            }
        }
    }
}

/// `line` ends with the echo of `command`: the command and `\r\n`.
pub open spec fn is_echo_of(line: Seq<u8>, command: Seq<u8>) -> bool {
    ends_with(line, command + seq![0x0du8, 0x0au8])
}

/// The line that carries `command` to the console: the command and `\r\n`.
pub fn command_line(command: &str) -> (r: Vec<u8>)
    ensures
        r@ == command.spec_bytes() + seq![0x0du8, 0x0au8],
{
    let bytes = command.as_bytes();
    let mut r = copy_range(bytes, 0, bytes.len());
    proof {
        assert(bytes@.subrange(0, bytes@.len() as int) =~= bytes@);
    }
    r.push(0x0d);
    r.push(0x0a);
    r
}

/// `line` ends with `suffix`.
pub fn bytes_end_with(line: &[u8], suffix: &[u8]) -> (r: bool)
    ensures
        r == ends_with(line@, suffix@),
{
    if suffix.len() > line.len() {
        return false;
    }
    let n = line.len();
    let off = n - suffix.len();
    let mut j: usize = 0;
    while j < suffix.len()
        invariant
            n == line@.len(),
            off + suffix@.len() == line@.len(),
            j <= suffix@.len(),
            forall|k: int| 0 <= k < j ==> line@[off + k] == suffix@[k],
        decreases suffix.len() - j,
    {
        if line[off + j] != suffix[j] {
            proof {
                assert(line@.skip(off as int)[j as int] != suffix@[j as int]);
            }
            return false;
        }
        j += 1;
    }
    proof {
        assert(line@.skip(off as int) =~= suffix@);
    }
    true
}

/// The error of a wait for a matching line that ran out of time: the lines
/// that did not match, if any came, else a timeout.
pub fn wait_timeout_error(discarded: Vec<u8>) -> (r: TelnetInterfaceError)
    ensures
        discarded@.len() > 0 ==> r is UnexpectedResponse && r->UnexpectedResponse_0@ == discarded@,
        discarded@.len() == 0 ==> r is Timeout,
{
    if discarded.len() > 0 {
        TelnetInterfaceError::UnexpectedResponse(discarded)
    } else {
        TelnetInterfaceError::Timeout
    }
}

/// Index of the last occurrence of `pattern` in `b`, or -1.
pub open spec fn last_occurrence(b: Seq<u8>, pattern: Seq<u8>) -> int
    decreases b.len(),
{
    if b.len() < pattern.len() || b.len() == 0 {
        -1
    } else if b.skip(b.len() - pattern.len()) == pattern {
        b.len() - pattern.len()
    } else {
        last_occurrence(b.drop_last(), pattern)
    }
}

/// The text of a line without its `\r\n`, if it ends so.
pub open spec fn line_text(line: Seq<u8>) -> Option<Seq<u8>> {
    if ends_with(line, seq![0x0du8, 0x0au8]) {
        Some(line.take(line.len() - 2))
    } else {
        None
    }
}

/// What follows the last `sep` of `t` (all of `t` if none).
pub open spec fn after_last(t: Seq<u8>, sep: Seq<u8>) -> Seq<u8> {
    let k = last_occurrence(t, sep);
    if k < 0 {
        t
    } else {
        t.skip(k + sep.len())
    }
}

/// The control block address that `rtt start` reports, in the line
/// `rtt: Control block found at 0x<hex>\r\n`: the hex after the last `" 0x"`.
pub open spec fn control_block_address(line: Seq<u8>) -> Option<u32> {
    if !valid_utf8(line) {
        None
    } else {
        match line_text(line) {
            None => None,
            Some(t) => parse_hex_u32(after_last(t, seq![0x20u8, 0x30u8, 0x78u8])),
        }
    }
}

/// `b[..end]` ends with `pattern`.
fn ends_with_at(b: &[u8], end: usize, pattern: &[u8]) -> (r: bool)
    requires
        pattern@.len() <= end <= b@.len(),
    ensures
        r == ends_with(b@.take(end as int), pattern@),
{
    let m = pattern.len();
    let off = end - m;
    let mut j: usize = 0;
    while j < m
        invariant
            m == pattern@.len(),
            off + m == end,
            end <= b@.len(),
            j <= m,
            forall|k: int| 0 <= k < j ==> b@[off + k] == pattern@[k],
        decreases m - j,
    {
        if b[off + j] != pattern[j] {
            proof {
                assert(b@.take(end as int).skip(off as int)[j as int] != pattern@[j as int]);
            }
            return false;
        }
        j += 1;
    }
    proof {
        assert(b@.take(end as int).skip(off as int) =~= pattern@);
    }
    true
}

fn last_occurrence_in(b: &[u8], to: usize, pattern: &[u8]) -> (r: Option<usize>)
    requires
        to <= b@.len(),
        pattern@.len() > 0,
    ensures
        match r {
            Some(k) => last_occurrence(b@.take(to as int), pattern@) == k as int && k
                + pattern@.len() <= to,
            None => last_occurrence(b@.take(to as int), pattern@) < 0,
        },
{
    let m = pattern.len();
    let mut end = to;
    proof {
        assert(b@.take(to as int) =~= b@.take(end as int));
    }
    while end >= m && !ends_with_at(b, end, pattern)
        invariant
            end <= to <= b@.len(),
            m == pattern@.len(),
            m > 0,
            last_occurrence(b@.take(to as int), pattern@) == last_occurrence(
                b@.take(end as int),
                pattern@,
            ),
        decreases end,
    {
        proof {
            assert(b@.take(end as int).drop_last() =~= b@.take(end - 1));
        }
        end -= 1;
    }
    if end >= m {
        Some(end - m)
    } else {
        None
    }
}

/// Reads the control block address from the reply to `rtt start`.
pub fn parse_control_block_address(line: &[u8]) -> (r: Option<u32>)
    ensures
        r == control_block_address(line@),
{
    let n = line.len();
    if crate::gdbremote::string_from_utf8(copy_range(line, 0, n)).is_none() {
        proof {
            assert(line@.subrange(0, n as int) =~= line@);
        }
        return None;
    }
    proof {
        assert(line@.subrange(0, n as int) =~= line@);
    }
    let crlf: [u8; 2] = [0x0d, 0x0a];
    if !bytes_end_with(line, crlf.as_slice()) {
        proof {
            assert(crlf@ =~= seq![0x0du8, 0x0au8]);
        }
        return None;
    }
    proof {
        assert(crlf@ =~= seq![0x0du8, 0x0au8]);
    }
    let t_len = n - 2;
    let sep: [u8; 3] = [0x20, 0x30, 0x78];
    proof {
        assert(sep@ =~= seq![0x20u8, 0x30u8, 0x78u8]);
    }
    let start = match last_occurrence_in(line, t_len, sep.as_slice()) {
        None => 0,
        Some(k) => k + 3,
    };
    let digits = copy_range(line, start, t_len);
    proof {
        let t = line@.take(t_len as int);
        let k = last_occurrence(t, sep@);
        if k < 0 {
            assert(digits@ =~= t);
        } else {
            assert(digits@ =~= t.skip(k + 3));
        }
    }
    parse_hex_value(digits.as_slice())
}

pub open spec fn is_digit_byte(c: u8) -> bool {
    0x30 <= c <= 0x39
}

/// Decimal value of a string of digit bytes.
pub open spec fn decimal_value(s: Seq<u8>) -> nat
    decreases s.len(),
{
    if s.len() == 0 {
        0
    } else {
        decimal_value(s.drop_last()) * 10 + (s.last() - 0x30) as nat
    }
}

pub open spec fn all_digit_bytes(s: Seq<u8>) -> bool {
    forall|i: int| 0 <= i < s.len() ==> is_digit_byte(#[trigger] s[i])
}

/// A `usize` in decimal, as Rust reads one: an optional `+`, then at least
/// one digit, with a value that fits.
pub open spec fn parse_decimal_usize(s: Seq<u8>) -> Option<usize> {
    let d = if s.len() > 0 && s[0] == 0x2b {
        s.skip(1)
    } else {
        s
    };
    if d.len() == 0 || !all_digit_bytes(d) || decimal_value(d) > usize::MAX {
        None
    } else {
        Some(decimal_value(d) as usize)
    }
}

/// `parse_decimal_usize` of `b[from..to]`.
fn parse_decimal_in(b: &[u8], from: usize, to: usize) -> (r: Option<usize>)
    requires
        from <= to <= b@.len(),
    ensures
        r == parse_decimal_usize(b@.subrange(from as int, to as int)),
{
    let ghost t = b@.subrange(from as int, to as int);
    let mut i = from;
    if i < to && b[i] == 0x2b {
        i += 1;
    }
    let ghost d = b@.subrange(i as int, to as int);
    proof {
        assert(d =~= (if t.len() > 0 && t[0] == 0x2b {
            t.skip(1)
        } else {
            t
        }));
    }
    if i == to {
        return None;
    }
    let start = i;
    let mut acc: usize = 0;
    let mut overflowed = false;
    while i < to
        invariant
            start <= i <= to <= b@.len(),
            start < to,
            d == b@.subrange(start as int, to as int),
            t == b@.subrange(from as int, to as int),
            d == (if t.len() > 0 && t[0] == 0x2b {
                t.skip(1)
            } else {
                t
            }),
            forall|j: int| start <= j < i ==> is_digit_byte(#[trigger] b@[j]),
            !overflowed ==> acc == decimal_value(b@.subrange(start as int, i as int)),
            overflowed ==> decimal_value(b@.subrange(start as int, i as int)) > usize::MAX,
        decreases to - i,
    {
        let c = b[i];
        if !(0x30 <= c && c <= 0x39) {
            proof {
                assert(!is_digit_byte(d[i - start]));
                assert(!all_digit_bytes(d));
            }
            return None;
        }
        proof {
            let p = b@.subrange(start as int, i + 1);
            assert(p.drop_last() =~= b@.subrange(start as int, i as int));
        }
        if !overflowed {
            match acc.checked_mul(10) {
                None => {
                    overflowed = true;
                },
                Some(m) => match m.checked_add((c - 0x30) as usize) {
                    None => {
                        overflowed = true;
                    },
                    Some(v) => {
                        acc = v;
                    },
                },
            }
        }
        i += 1;
    }
    proof {
        assert(b@.subrange(start as int, i as int) == d);
        assert forall|j: int| 0 <= j < d.len() implies is_digit_byte(#[trigger] d[j]) by {
            assert(d[j] == b@[start + j]);
        }
        assert(all_digit_bytes(d));
    }
    if overflowed {
        None
    } else {
        Some(acc)
    }
}

/// The speed in the reply to `adapter speed`, in the line
/// `adapter speed: <n> kHz\r\n`: the first word after the last `": "`.
pub open spec fn adapter_speed(line: Seq<u8>) -> Option<usize> {
    if !valid_utf8(line) {
        None
    } else {
        match line_text(line) {
            None => None,
            Some(t) => {
                let a = after_last(t, seq![0x3au8, 0x20u8]);
                let k = first_index(a, 0x20);
                parse_decimal_usize(
                    if k < 0 {
                        a
                    } else {
                        a.take(k)
                    },
                )
            },
        }
    }
}

/// Reads the speed from a reply to `adapter speed`.
pub fn parse_adapter_speed(line: &[u8]) -> (r: Option<usize>)
    ensures
        r == adapter_speed(line@),
{
    let n = line.len();
    proof {
        assert(line@.subrange(0, n as int) =~= line@);
    }
    if crate::gdbremote::string_from_utf8(copy_range(line, 0, n)).is_none() {
        return None;
    }
    let crlf: [u8; 2] = [0x0d, 0x0a];
    proof {
        assert(crlf@ =~= seq![0x0du8, 0x0au8]);
    }
    if !bytes_end_with(line, crlf.as_slice()) {
        return None;
    }
    let t_len = n - 2;
    let sep: [u8; 2] = [0x3a, 0x20];
    proof {
        assert(sep@ =~= seq![0x3au8, 0x20u8]);
    }
    let start = match last_occurrence_in(line, t_len, sep.as_slice()) {
        None => 0,
        Some(k) => k + 2,
    };
    let ghost t = line@.take(t_len as int);
    let ghost a = after_last(t, sep@);
    proof {
        assert(a =~= line@.subrange(start as int, t_len as int));
        assert(a.skip(0) =~= a);
    }
    let mut i = start;
    while i < t_len && line[i] != 0x20
        invariant
            start <= i <= t_len < n,
            n == line@.len(),
            a == line@.subrange(start as int, t_len as int),
            first_index(a, 0x20) == (if first_index(a.skip(i - start), 0x20) < 0 {
                -1
            } else {
                first_index(a.skip(i - start), 0x20) + (i - start)
            }),
        decreases t_len - i,
    {
        proof {
            assert(a.skip(i - start).skip(1) =~= a.skip(i + 1 - start));
        }
        i += 1;
    }
    proof {
        if i < t_len {
            assert(a.skip(i - start)[0] == 0x20);
            assert(a.take(i - start) =~= line@.subrange(start as int, i as int));
        } else {
            assert(a.skip(i - start).len() == 0);
            assert(a =~= line@.subrange(start as int, i as int));
        }
    }
    parse_decimal_in(line, start, i)
}

/// `pattern` occurs in `b`.
pub open spec fn contains_bytes(b: Seq<u8>, pattern: Seq<u8>) -> bool {
    exists|i: int| bytes_at(b, pattern, i)
}

pub open spec fn bytes_at(b: Seq<u8>, pattern: Seq<u8>, i: int) -> bool {
    0 <= i && i + pattern.len() <= b.len() && b.subrange(i, i + pattern.len()) == pattern
}

/// The target reported a halt requested by the debugger: the line is valid
/// UTF-8 and holds `halted due to debug-request`.
pub open spec fn is_halt_report(line: Seq<u8>) -> bool {
    valid_utf8(line) && contains_bytes(line, "halted due to debug-request"@.map_values(
        |c: char| c as u8,
    ))
}

/// Whether `line` reports a halt requested by the debugger.
pub fn reports_halt(line: &[u8]) -> (r: bool)
    ensures
        r == is_halt_report(line@),
{
    let n = line.len();
    proof {
        assert(line@.subrange(0, n as int) =~= line@);
    }
    if crate::gdbremote::string_from_utf8(copy_range(line, 0, n)).is_none() {
        return false;
    }
    let pattern = "halted due to debug-request";
    proof {
        reveal_strlit("halted due to debug-request");
        vstd::string::is_ascii_spec_bytes(pattern);
    }
    let p = pattern.as_bytes();
    proof {
        assert(p@ =~= pattern@.map_values(|c: char| c as u8));
    }
    let m = p.len();
    if m > n {
        proof {
            assert forall|k: int| !bytes_at(line@, p@, k) by {}
        }
        return false;
    }
    let mut i: usize = 0;
    while i <= n - m
        invariant
            n == line@.len(),
            m == p@.len(),
            m <= n,
            m > 0,
            i <= n - m + 1,
            valid_utf8(line@),
            p@ == "halted due to debug-request"@.map_values(|c: char| c as u8),
            forall|k: int| 0 <= k < i ==> !bytes_at(line@, p@, k),
        decreases n - m + 1 - i,
    {
        if ends_with_at(line, i + m, p) {
            proof {
                assert(line@.take(i + m).skip(i as int) =~= line@.subrange(i as int, i + m));
                assert(bytes_at(line@, p@, i as int));
            }
            return true;
        }
        proof {
            assert(line@.take(i + m).skip(i as int) =~= line@.subrange(i as int, i + m));
        }
        i += 1;
    }
    proof {
        assert forall|k: int| !bytes_at(line@, p@, k) by {
            if 0 <= k && k + m <= n {
                assert(k < i);
            }
        }
    }
    false
}

} // verus!
