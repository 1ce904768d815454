//! Framing of the GDB remote serial protocol (`$<payload>#<cc>`), and the
//! receive side of a GDB remote session: a byte buffer that the transport
//! feeds and from which acknowledgements and packets are taken.
use vstd::arithmetic::div_mod::lemma_add_mod_noop;
use vstd::prelude::*;
use vstd::string::StringSliceAdditionalSpecFns;
use vstd::utf8::{decode_utf8, valid_utf8};

verus! {

/// Default deadline for one `read_response`, in milliseconds.
pub const DEFAULT_TIMEOUT_MS: u64 = 200;

/// Largest chunk the transport hands over in one read.
pub const MAX_PACKET_SIZE: usize = 1024;

pub const START_BYTE: u8 = 0x24;  // '$'

pub const END_BYTE: u8 = 0x23;  // '#'

pub const ACK_BYTE: u8 = 0x2b;  // '+'

/// Sum of all bytes of `s`.
pub open spec fn byte_sum(s: Seq<u8>) -> nat
    decreases s.len(),
{
    if s.len() == 0 {
        0
    } else {
        byte_sum(s.drop_last()) + s.last() as nat
    }
}

/// The protocol checksum: the byte sum modulo 256.
pub open spec fn checksum(s: Seq<u8>) -> u8 {
    (byte_sum(s) % 256) as u8
}

/// Lowercase ASCII hex digit of a nibble.
pub open spec fn hex_digit(n: u8) -> u8 {
    if n < 10 {
        (0x30 + n) as u8
    } else {
        (0x61 + n - 10) as u8
    }
}

/// Value of an ASCII hex digit, either case.
pub open spec fn hex_value(c: u8) -> Option<u8> {
    if 0x30 <= c <= 0x39 {
        Some((c - 0x30) as u8)
    } else if 0x61 <= c <= 0x66 {
        Some((c - 0x61 + 10) as u8)
    } else if 0x41 <= c <= 0x46 {
        Some((c - 0x41 + 10) as u8)
    } else {
        None
    }
}

/// The frame that carries `payload`: `$`, the payload, `#`, two lowercase hex
/// digits of its checksum.
pub open spec fn gdb_frame(payload: Seq<u8>) -> Seq<u8> {
    seq![START_BYTE] + payload + seq![
        END_BYTE,
        hex_digit(checksum(payload) / 16),
        hex_digit(checksum(payload) % 16),
    ]
}

/// Value of the two checksum characters read as an unsigned base-16 number
/// that fits a byte (a leading `+` is allowed, as for any unsigned number).
pub open spec fn checksum_field(c1: u8, c2: u8) -> Option<u8> {
    if c1 == ACK_BYTE {
        hex_value(c2)
    } else {
        match (hex_value(c1), hex_value(c2)) {
            (Some(h), Some(l)) => Some((h * 16 + l) as u8),
            _ => None,
        }
    }
}

/// `p` is the position of the first `#` of `b`.
pub open spec fn is_first_end(b: Seq<u8>, p: int) -> bool {
    0 <= p < b.len() && b[p] == END_BYTE && forall|i: int| 0 <= i < p ==> b[i] != END_BYTE
}

/// The payload of the frame at the start of `b`, if it holds a well-formed
/// one with a matching checksum; bytes after the checksum are not looked at.
pub open spec fn parse_frame(b: Seq<u8>) -> Option<Seq<u8>> {
    if b.len() < 4 || b[0] != START_BYTE || !(exists|p: int| is_first_end(b, p)) {
        None
    } else {
        let p = choose|p: int| is_first_end(b, p);
        if b.len() < p + 3 {
            None
        } else if checksum_field(b[p + 1], b[p + 2]) == Some(checksum(b.subrange(1, p))) {
            Some(b.subrange(1, p))
        } else {
            None
        }
    }
}

/// Errors of a GDB remote session.
#[derive(Debug)]
pub enum GDBRemoteError {
    IOError(String),
    ParseError(String),
    Timeout,
    EndOfStream,
}

proof fn lemma_checksum_step(s: Seq<u8>, i: int)
    requires
        0 <= i < s.len(),
    ensures
        checksum(s.subrange(0, i + 1)) == ((checksum(s.subrange(0, i)) as int + s[i] as int)
            % 256),
{
    let t = s.subrange(0, i + 1);
    assert(t.drop_last() =~= s.subrange(0, i));
    lemma_add_mod_noop(byte_sum(s.subrange(0, i)) as int, s[i] as int, 256);
    assert((s[i] as int) % 256 == s[i] as int);
}

/// Checksum of `bytes`.
pub fn byte_checksum(bytes: &[u8]) -> (r: u8)
    ensures
        r == checksum(bytes@),
{
    let mut c: u8 = 0;
    let mut i: usize = 0;
    proof {
        assert(bytes@.subrange(0, 0).len() == 0);
    }
    while i < bytes.len()
        invariant
            i <= bytes@.len(),
            c == checksum(bytes@.subrange(0, i as int)),
        decreases bytes.len() - i,
    {
        proof {
            lemma_checksum_step(bytes@, i as int);
        }
        c = ((c as u16 + bytes[i] as u16) % 256) as u8;
        i += 1;
    }
    proof {
        assert(bytes@.subrange(0, bytes@.len() as int) =~= bytes@);
    }
    c
}

fn hex_digit_of(n: u8) -> (r: u8)
    requires
        n < 16,
    ensures
        r == hex_digit(n),
{
    if n < 10 {
        0x30 + n
    } else {
        0x61 + n - 10
    }
}

/// Value of an ASCII hex digit, either case.
pub fn hex_value_of(c: u8) -> (r: Option<u8>)
    ensures
        r == hex_value(c),
{
    if 0x30 <= c && c <= 0x39 {
        Some(c - 0x30)
    } else if 0x61 <= c && c <= 0x66 {
        Some(c - 0x61 + 10)
    } else if 0x41 <= c && c <= 0x46 {
        Some(c - 0x41 + 10)
    } else {
        None
    }
}

fn checksum_field_of(c1: u8, c2: u8) -> (r: Option<u8>)
    ensures
        r == checksum_field(c1, c2),
{
    if c1 == ACK_BYTE {
        hex_value_of(c2)
    } else {
        match (hex_value_of(c1), hex_value_of(c2)) {
            (Some(h), Some(l)) => Some(h * 16 + l),
            _ => None,
        }
    }
}

/// Copy of `bytes[from..to]`.
pub fn copy_range(bytes: &[u8], from: usize, to: usize) -> (r: Vec<u8>)
    requires
        from <= to <= bytes@.len(),
    ensures
        r@ == bytes@.subrange(from as int, to as int),
{
    let mut r: Vec<u8> = Vec::with_capacity(to - from);
    let mut i: usize = from;
    while i < to
        invariant
            from <= i <= to <= bytes@.len(),
            r@ == bytes@.subrange(from as int, i as int),
        decreases to - i,
    {
        r.push(bytes[i]);
        i += 1;
        proof {
            assert(r@ =~= bytes@.subrange(from as int, i as int));
        }
    }
    r
}

/// Frames `data` as a GDB remote packet: `$<data>#<cc>`, where `cc` is the
/// byte sum of `data` modulo 256 in two lowercase hex digits.
pub fn build_gdb_packet(data: &str) -> (r: Vec<u8>)
    ensures
        r@ == gdb_frame(data.spec_bytes()),
{
    let bytes = data.as_bytes();
    let checksum = byte_checksum(bytes);
    let mut result: Vec<u8> = Vec::new();
    result.push(START_BYTE);
    let mut i: usize = 0;
    while i < bytes.len()
        invariant
            i <= bytes@.len(),
            result@ == seq![START_BYTE] + bytes@.subrange(0, i as int),
        decreases bytes.len() - i,
    {
        result.push(bytes[i]);
        i += 1;
        proof {
            assert(result@ =~= seq![START_BYTE] + bytes@.subrange(0, i as int));
        }
    }
    result.push(END_BYTE);
    result.push(hex_digit_of(checksum / 16));
    result.push(hex_digit_of(checksum % 16));
    proof {
        assert(bytes@.subrange(0, bytes@.len() as int) =~= bytes@);
        assert(result@ =~= gdb_frame(data.spec_bytes()));
    }
    result
}

/// Parses the frame at the start of `bytes` and returns its payload; any
/// malformed frame, or one whose checksum does not match, is a `ParseError`.
pub fn parse_gdb_packet(bytes: &[u8]) -> (r: Result<Vec<u8>, GDBRemoteError>)
    ensures
        match parse_frame(bytes@) {
            Some(p) => r is Ok && r->Ok_0@ == p,
            None => r is Err && r->Err_0 is ParseError,
        },
{
    if bytes.len() < 4 {
        return Err(GDBRemoteError::ParseError("packet too short".to_owned()));
    }
    if bytes[0] != START_BYTE {
        return Err(GDBRemoteError::ParseError("missing initial $".to_owned()));
    }
    let mut pound_i: usize = 0;
    while pound_i < bytes.len() && bytes[pound_i] != END_BYTE
        invariant
            pound_i <= bytes@.len(),
            forall|i: int| 0 <= i < pound_i ==> bytes@[i] != END_BYTE,
        decreases bytes.len() - pound_i,
    {
        pound_i += 1;
    }
    if pound_i == bytes.len() {
        proof {
            assert forall|p: int| !is_first_end(bytes@, p) by {
                if 0 <= p < bytes@.len() {
                    assert(bytes@[p] != END_BYTE);
                }
            }
        }
        return Err(GDBRemoteError::ParseError("no final # found".to_owned()));
    }
    proof {
        assert(is_first_end(bytes@, pound_i as int));
        assert forall|q: int| is_first_end(bytes@, q) implies q == pound_i by {
            if q < pound_i {
                assert(bytes@[q] != END_BYTE);
            } else if q > pound_i {
                assert(bytes@[pound_i as int] == END_BYTE);
            }
        }
    }
    if bytes.len() - pound_i < 3 {
        return Err(
            GDBRemoteError::ParseError("packet too short (can't hold checksum)".to_owned()),
        );
    }
    let contents = copy_range(bytes, 1, pound_i);
    let contents_checksum = byte_checksum(contents.as_slice());
    match checksum_field_of(bytes[pound_i + 1], bytes[pound_i + 2]) {
        None => Err(GDBRemoteError::ParseError("couldn't parse checksum as hex string".to_owned())),
        Some(packet_checksum) => {
            if contents_checksum != packet_checksum {
                Err(GDBRemoteError::ParseError("checksum didn't match".to_owned()))
            } else {
                Ok(contents)
            }
        },
    }
}

proof fn lemma_hex_digit_value(n: u8)
    requires
        n < 16,
    ensures
        hex_value(hex_digit(n)) == Some(n),
        hex_digit(n) != ACK_BYTE,
{
}

/// Framing a payload that holds no `#` and parsing the frame gives the
/// payload back.
pub proof fn lemma_gdb_packet_round_trip(payload: Seq<u8>)
    requires
        forall|i: int| 0 <= i < payload.len() ==> payload[i] != END_BYTE,
    ensures
        parse_frame(gdb_frame(payload)) == Some(payload),
{
    let b = gdb_frame(payload);
    let p: int = payload.len() as int + 1;
    let c = checksum(payload);
    assert(b[p] == END_BYTE);
    assert forall|i: int| 0 <= i < p implies b[i] != END_BYTE by {
        if i > 0 {
            assert(b[i] == payload[i - 1]);
        }
    }
    assert(is_first_end(b, p));
    assert forall|q: int| is_first_end(b, q) implies q == p by {
        if q > p {
            assert(b[p] == END_BYTE);
        }
    }
    assert(b.subrange(1, p) =~= payload);
    lemma_hex_digit_value(c / 16);
    lemma_hex_digit_value(c % 16);
    assert(b[p + 1] == hex_digit(c / 16));
    assert(b[p + 2] == hex_digit(c % 16));
    assert(((c / 16) * 16 + c % 16) as u8 == c);
}

/// A frame whose transmitted checksum is not the byte sum of its payload
/// modulo 256 is rejected.
pub proof fn lemma_checksum_mismatch_rejected(b: Seq<u8>, p: int)
    requires
        is_first_end(b, p),
        p + 3 <= b.len(),
        checksum_field(b[p + 1], b[p + 2]) != Some(checksum(b.subrange(1, p))),
    ensures
        parse_frame(b) is None,
{
    if b.len() >= 4 && b[0] == START_BYTE {
        assert forall|q: int| is_first_end(b, q) implies q == p by {
            if q < p {
                assert(b[q] == END_BYTE);
            } else if q > p {
                assert(b[p] == END_BYTE);
            }
        }
    }
}

/// `b` holds a first `#` with the two checksum bytes after it.
pub open spec fn frame_complete(b: Seq<u8>) -> bool {
    exists|p: int| is_first_end(b, p) && p + 3 <= b.len()
}

/// The front of a receive buffer can never become a response: it starts with
/// a byte other than `+` and `$`, or holds a complete frame that does not
/// parse or fails its checksum.
pub open spec fn is_corrupt(b: Seq<u8>) -> bool {
    b.len() > 0 && b[0] != ACK_BYTE && (b[0] != START_BYTE || (frame_complete(b) && parse_frame(
        b,
    ) is None))
}

/// Whether `bytes` holds a first `#` followed by two more bytes.
pub fn has_complete_frame(bytes: &[u8]) -> (r: bool)
    ensures
        r == frame_complete(bytes@),
{
    let mut i: usize = 0;
    while i < bytes.len() && bytes[i] != END_BYTE
        invariant
            i <= bytes@.len(),
            forall|k: int| 0 <= k < i ==> bytes@[k] != END_BYTE,
        decreases bytes.len() - i,
    {
        i += 1;
    }
    if i == bytes.len() {
        proof {
            assert forall|p: int| !(is_first_end(bytes@, p) && p + 3 <= bytes@.len()) by {
                if 0 <= p < bytes@.len() {
                    assert(bytes@[p] != END_BYTE);
                }
            }
        }
        return false;
    }
    proof {
        assert(is_first_end(bytes@, i as int));
        assert forall|q: int| is_first_end(bytes@, q) implies q == i by {
            if q < i {
                assert(bytes@[q] != END_BYTE);
            } else if q > i {
                assert(bytes@[i as int] == END_BYTE);
            }
        }
    }
    bytes.len() - i >= 3
}

/// When a byte of the transport reached the host.
#[derive(Clone, Copy, Debug, PartialEq, Eq, Structural)]
pub enum Timestamp {
    /// Taken by the kernel's TCP stack, in microseconds since the Unix epoch.
    ByTcpStack(u64),
    /// Read from the wall clock right after the system call, in microseconds
    /// since the Unix epoch.
    Fallback(u64),
}

/// What the server sent: an acknowledgement, or a packet's payload.
#[derive(Debug)]
pub enum Response {
    ACK,
    Packet(Vec<u8>),
}

/// Relies on `String::from_utf8`: it succeeds exactly on valid UTF-8, and the
/// string then holds the decoded characters.
#[verifier::external_body]
pub(crate) fn string_from_utf8(bytes: Vec<u8>) -> (r: Option<String>)
    ensures
        r is Some <==> valid_utf8(bytes@),
        r is Some ==> r->0@ == decode_utf8(bytes@),
{
    String::from_utf8(bytes).ok()
}

/// `a` and `b` hold the same bytes.
pub fn bytes_equal(a: &[u8], b: &[u8]) -> (r: bool)
    ensures
        r == (a@ == b@),
{
    if a.len() != b.len() {
        return false;
    }
    let mut i: usize = 0;
    while i < a.len()
        invariant
            i <= a@.len() == b@.len(),
            forall|j: int| 0 <= j < i ==> a@[j] == b@[j],
        decreases a.len() - i,
    {
        if a[i] != b[i] {
            return false;
        }
        i += 1;
    }
    proof {
        assert(a@ =~= b@);
    }
    true
}

impl Response {
    pub fn is_ack(&self) -> (r: bool)
        ensures
            r == (self is ACK),
    {
        match self {
            Response::ACK => true,
            _ => false,
        }
    }

    pub fn is_packet(&self) -> (r: bool)
        ensures
            r == (self is Packet),
    {
        match self {
            Response::Packet(_) => true,
            _ => false,
        }
    }

    /// The response is a packet whose payload is the bytes of `contents`.
    pub fn is_packet_with(&self, contents: &str) -> (r: bool)
        ensures
            r == (self is Packet && self->Packet_0@ == contents.spec_bytes()),
    {
        match self {
            Response::Packet(data) => bytes_equal(data.as_slice(), contents.as_bytes()),
            _ => false,
        }
    }

    /// Readable form: `<ACK>`, or the payload where it is valid UTF-8.
    pub fn to_string(&self) -> (r: Option<String>)
        ensures
            self is ACK ==> r is Some && r->0@ == "<ACK>"@,
            self is Packet ==> (r is Some <==> valid_utf8(self->Packet_0@)),
            self is Packet && r is Some ==> r->0@ == decode_utf8(self->Packet_0@),
    {
        match self {
            Response::ACK => Some("<ACK>".to_owned()),
            Response::Packet(data) => string_from_utf8(data.clone()),
        }
    }
}

/// The next response at the start of a receive buffer, with the number of
/// bytes it takes: an acknowledgement, else a complete valid frame.
pub open spec fn next_response(b: Seq<u8>) -> Option<(Option<Seq<u8>>, nat)> {
    if b.len() > 0 && b[0] == ACK_BYTE {
        Some((None, 1))
    } else {
        match parse_frame(b) {
            Some(p) => Some((Some(p), p.len() + 4)),
            None => None,
        }
    }
}

/// `b` holds a `$` or a `+`.
pub open spec fn holds_marker(b: Seq<u8>) -> bool {
    exists|i: int| 0 <= i < b.len() && (b[i] == START_BYTE || b[i] == ACK_BYTE)
}

/// Receive side of a GDB remote session. The transport hands it what it
/// reads (`feed_buffer_from_stream`); acknowledgements and packets are then
/// taken from the front of the buffer (`read_response`), each with the
/// timestamp of the last read that brought a `$` or a `+`.
pub struct GDBRemote {
    timeout_ms: u64,
    data_buffer: Vec<u8>,
    last_rx_packet_timestamp: Option<Timestamp>,
}

impl GDBRemote {
    /// Every `$` or `+` in the buffer came with a timestamp.
    #[verifier::type_invariant]
    spec fn inv(self) -> bool {
        self.last_rx_packet_timestamp is None ==> !holds_marker(self.data_buffer@)
    }

    /// Bytes received and not yet taken.
    pub closed spec fn buffer(&self) -> Seq<u8> {
        self.data_buffer@
    }

    /// Timestamp of the last read that brought a `$` or a `+`.
    pub closed spec fn last_timestamp(&self) -> Option<Timestamp> {
        self.last_rx_packet_timestamp
    }

    pub closed spec fn spec_timeout(&self) -> u64 {
        self.timeout_ms
    }

    /// A session with an empty buffer and the default timeout.
    pub fn new() -> (r: GDBRemote)
        ensures
            r.buffer() == Seq::<u8>::empty(),
            r.last_timestamp() is None,
            r.spec_timeout() == DEFAULT_TIMEOUT_MS,
    {
        GDBRemote { timeout_ms: DEFAULT_TIMEOUT_MS, data_buffer: Vec::new(), last_rx_packet_timestamp: None }
    }

    /// Deadline of each later `read_response`, in milliseconds.
    pub fn set_timeout(&mut self, timeout_ms: u64)
        ensures
            final(self).spec_timeout() == timeout_ms,
            final(self).buffer() == old(self).buffer(),
            final(self).last_timestamp() == old(self).last_timestamp(),
    {
        proof {
            use_type_invariant(&*self);
        }
        self.timeout_ms = timeout_ms;
    }

    pub fn timeout(&self) -> (r: u64)
        ensures
            r == self.spec_timeout(),
    {
        self.timeout_ms
    }

    /// Takes in the bytes of one read of the transport, received at
    /// `timestamp`. A read of no bytes means that the stream has ended.
    pub fn feed_buffer_from_stream(&mut self, received: &[u8], timestamp: Timestamp) -> (r: Result<
        (),
        GDBRemoteError,
    >)
        ensures
            final(self).spec_timeout() == old(self).spec_timeout(),
            received@.len() == 0 ==> r is Err && r->Err_0 is EndOfStream && final(self).buffer()
                == old(self).buffer() && final(self).last_timestamp() == old(self).last_timestamp(),
            received@.len() > 0 ==> r is Ok && final(self).buffer() == old(self).buffer()
                + received@ && final(self).last_timestamp() == (if holds_marker(received@) {
                Some(timestamp)
            } else {
                old(self).last_timestamp()
            }),
    {
        proof {
            use_type_invariant(&*self);
        }
        if received.len() == 0 {
            return Err(GDBRemoteError::EndOfStream);
        }
        let mut has_marker = false;
        let mut i: usize = 0;
        while i < received.len()
            invariant
                i <= received@.len(),
                has_marker == exists|j: int|
                    0 <= j < i && (received@[j] == START_BYTE || received@[j] == ACK_BYTE),
            decreases received.len() - i,
        {
            if received[i] == START_BYTE || received[i] == ACK_BYTE {
                has_marker = true;
            }
            i += 1;
        }
        let mut data_buffer = self.data_buffer.clone();
        let ghost before = data_buffer@;
        data_buffer.extend_from_slice(received);
        let last = if has_marker {
            Some(timestamp)
        } else {
            self.last_rx_packet_timestamp
        };
        proof {
            if last is None {
                assert forall|j: int| 0 <= j < data_buffer@.len() implies !(data_buffer@[j]
                    == START_BYTE || data_buffer@[j] == ACK_BYTE) by {
                    if j >= before.len() {
                        assert(data_buffer@[j] == received@[j - before.len()]);
                    } else {
                        assert(data_buffer@[j] == before[j]);
                    }
                }
            }
        }
        *self = GDBRemote { timeout_ms: self.timeout_ms, data_buffer, last_rx_packet_timestamp: last };
        Ok(())
    }

    fn drop_front(&mut self, n: usize)
        requires
            n <= old(self).buffer().len(),
        ensures
            final(self).buffer() == old(self).buffer().skip(n as int),
            final(self).last_timestamp() == old(self).last_timestamp(),
            final(self).spec_timeout() == old(self).spec_timeout(),
    {
        proof {
            use_type_invariant(&*self);
        }
        let rest = copy_range(self.data_buffer.as_slice(), n, self.data_buffer.len());
        proof {
            assert(rest@ =~= self.data_buffer@.skip(n as int));
            if self.last_rx_packet_timestamp is None {
                assert forall|j: int| 0 <= j < rest@.len() implies !(rest@[j] == START_BYTE
                    || rest@[j] == ACK_BYTE) by {
                    assert(rest@[j] == self.data_buffer@[j + n]);
                }
            }
        }
        *self = GDBRemote {
            timeout_ms: self.timeout_ms,
            data_buffer: rest,
            last_rx_packet_timestamp: self.last_rx_packet_timestamp,
        };
    }

    /// Takes an acknowledgement from the front of the buffer, if one is there.
    fn eat_ack(&mut self) -> (r: Option<()>)
        ensures
            final(self).spec_timeout() == old(self).spec_timeout(),
            final(self).last_timestamp() == old(self).last_timestamp(),
            (old(self).buffer().len() > 0 && old(self).buffer()[0] == ACK_BYTE) ==> r is Some
                && final(self).buffer() == old(self).buffer().skip(1),
            !(old(self).buffer().len() > 0 && old(self).buffer()[0] == ACK_BYTE) ==> r is None
                && final(self).buffer() == old(self).buffer(),
    {
        if self.data_buffer.len() > 0 && self.data_buffer[0] == ACK_BYTE {
            self.drop_front(1);
            Some(())
        } else {
            None
        }
    }

    /// Takes a complete, valid frame from the front of the buffer.
    fn eat_packet(&mut self) -> (r: Result<Vec<u8>, GDBRemoteError>)
        ensures
            final(self).spec_timeout() == old(self).spec_timeout(),
            final(self).last_timestamp() == old(self).last_timestamp(),
            match parse_frame(old(self).buffer()) {
                Some(p) => r is Ok && r->Ok_0@ == p && final(self).buffer() == old(self).buffer().skip(
                    p.len() as int + 4,
                ),
                None => r is Err && r->Err_0 is ParseError && final(self).buffer() == old(
                    self,
                ).buffer(),
            },
    {
        let available = self.data_buffer.len();
        let packet = parse_gdb_packet(self.data_buffer.as_slice());
        match packet {
            Ok(payload) => {
                proof {
                    let b = self.data_buffer@;
                    let p = choose|p: int| is_first_end(b, p);
                    assert(b.subrange(1, p).len() == p - 1);
                    assert(payload@.len() + 4 <= available);
                }
                self.drop_front(payload.len() + 4);
                Ok(payload)
            },
            Err(e) => Err(e),
        }
    }

    /// Takes the next response from the front of the buffer, with the
    /// timestamp of the read that brought it. `Ok(None)` while a frame that
    /// starts with `$` is still incomplete (or the buffer is empty): the caller
    /// feeds more bytes, or gives up at the deadline. A buffer whose front is
    /// neither an acknowledgement nor the start of a frame, or holds a complete
    /// frame that is malformed or fails its checksum, is a `ParseError`; the
    /// buffer is then left as it was.
    pub fn read_response(&mut self) -> (r: Result<Option<(Response, Timestamp)>, GDBRemoteError>)
        ensures
            final(self).spec_timeout() == old(self).spec_timeout(),
            final(self).last_timestamp() == old(self).last_timestamp(),
            match next_response(old(self).buffer()) {
                None => {
                    &&& final(self).buffer() == old(self).buffer()
                    &&& is_corrupt(old(self).buffer()) ==> r is Err && r->Err_0 is ParseError
                    &&& !is_corrupt(old(self).buffer()) ==> r is Ok && r->Ok_0 is None
                },
                Some((payload, n)) => {
                    &&& final(self).buffer() == old(self).buffer().skip(n as int)
                    &&& match r {
                        Ok(Some((response, timestamp))) => {
                            &&& old(self).last_timestamp() == Some(timestamp)
                            &&& match payload {
                                None => response is ACK,
                                Some(p) => response is Packet && response->Packet_0@ == p,
                            }
                        },
                        _ => false,
                    }
                },
            },
    {
        proof {
            use_type_invariant(&*self);
        }
        if let Some(()) = self.eat_ack() {
            proof {
                assert(holds_marker(old(self).buffer()));
            }
            let timestamp = self.last_rx_packet_timestamp.unwrap();
            return Ok(Some((Response::ACK, timestamp)));
        }
        let ghost b = self.data_buffer@;
        match self.eat_packet() {
            Ok(data) => {
                proof {
                    assert(b[0] == START_BYTE);
                    assert(holds_marker(b));
                }
                let timestamp = self.last_rx_packet_timestamp.unwrap();
                Ok(Some((Response::Packet(data), timestamp)))
            },
            Err(e) => {
                if self.data_buffer.len() == 0 {
                    Ok(None)
                } else if self.data_buffer[0] != START_BYTE {
                    Err(GDBRemoteError::ParseError("unexpected byte before packet".to_owned()))
                } else if has_complete_frame(self.data_buffer.as_slice()) {
                    Err(e)
                } else {
                    Ok(None)
                }
            },
        }
    }

    /// The frame to write for a packet carrying `contents`.
    pub fn send_packet(&self, contents: &str) -> (r: Vec<u8>)
        ensures
            r@ == gdb_frame(contents.spec_bytes()),
    {
        build_gdb_packet(contents)
    }
}

} // verus!
