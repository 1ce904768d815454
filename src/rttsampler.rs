//! The typed binary packet stream of an RTT scope channel: the packet schema
//! that the channel's name encodes (`JScope_T4F4I2`), and the decoding of one
//! packet into field values.
use crate::find::{contains_text, str_contains};
use crate::openocd::{RTTChannel, RTTChannelDirection};
use crate::utils::{decimal, decimal_string};
use vstd::prelude::*;
use vstd::string::StringExecFns;

verus! {

#[derive(Clone, Copy, Debug, PartialEq, Eq, Structural)]
pub enum RTTScopePacketFieldType {
    Boolean,
    Float,
    Signed,
    Unsigned,
}

/// One field of a packet: its kind and its width in bytes.
#[derive(Clone, Copy, Debug, PartialEq, Eq, Structural)]
pub struct RTTScopePacketField {
    pub type_: RTTScopePacketFieldType,
    pub size: u8,
}

/// The layout of one packet: an optional leading little-endian `u32`
/// timestamp in microseconds, then the fields in order.
#[derive(Clone, Debug)]
pub struct RTTScopePacketStructure {
    pub has_u32_us_time: bool,
    pub fields: Vec<RTTScopePacketField>,
}

/// One decoded field. A float keeps its IEEE 754 bits.
#[derive(Clone, Copy, Debug, PartialEq, Eq, Structural)]
pub enum FieldValue {
    Boolean(bool),
    Float(u32),
    Signed(i32),
    Unsigned(u32),
}

/// The kinds and widths that the naming convention allows:
/// `B1, F4, I1, I2, I4, U1, U2, U4`.
pub open spec fn valid_field(f: RTTScopePacketField) -> bool {
    match f.type_ {
        RTTScopePacketFieldType::Boolean => f.size == 1,
        RTTScopePacketFieldType::Float => f.size == 4,
        _ => f.size == 1 || f.size == 2 || f.size == 4,
    }
}

pub open spec fn size_of_char(c: char) -> Option<u8> {
    if c == '1' {
        Some(1u8)
    } else if c == '2' {
        Some(2u8)
    } else if c == '4' {
        Some(4u8)
    } else {
        None
    }
}

/// The field that a kind letter (either case) and a width digit describe.
pub open spec fn field_of(kind: char, width: char) -> Option<RTTScopePacketField> {
    match size_of_char(width) {
        None => None,
        Some(size) => if (kind == 'b' || kind == 'B') && size == 1 {
            Some(RTTScopePacketField { type_: RTTScopePacketFieldType::Boolean, size })
        } else if (kind == 'f' || kind == 'F') && size == 4 {
            Some(RTTScopePacketField { type_: RTTScopePacketFieldType::Float, size })
        } else if kind == 'i' || kind == 'I' {
            Some(RTTScopePacketField { type_: RTTScopePacketFieldType::Signed, size })
        } else if kind == 'u' || kind == 'U' {
            Some(RTTScopePacketField { type_: RTTScopePacketFieldType::Unsigned, size })
        } else {
            None
        },
    }
}

/// The fields of `s` read two characters at a time; a last single character
/// is ignored.
pub open spec fn parse_fields(s: Seq<char>) -> Option<Seq<RTTScopePacketField>>
    decreases s.len(),
{
    if s.len() < 2 {
        Some(Seq::empty())
    } else {
        match field_of(s[0], s[1]) {
            None => None,
            Some(f) => match parse_fields(s.skip(2)) {
                None => None,
                Some(rest) => Some(seq![f] + rest),
            },
        }
    }
}

/// Index of the last `c` in `s`, or -1.
pub open spec fn last_index_of(s: Seq<char>, c: char) -> int
    decreases s.len(),
{
    if s.len() == 0 {
        -1
    } else if s.last() == c {
        s.len() - 1
    } else {
        last_index_of(s.drop_last(), c)
    }
}

/// What follows the last `_` of a channel name (all of it if none).
pub open spec fn schema_suffix(name: Seq<char>) -> Seq<char> {
    name.skip(last_index_of(name, '_') + 1)
}

pub open spec fn has_time_prefix(s: Seq<char>) -> bool {
    s.len() >= 2 && (s[0] == 't' || s[0] == 'T') && s[1] == '4'
}

/// The schema that a channel name encodes: whether a timestamp leads, and
/// the fields; `None` where a pair of characters names no valid field.
pub open spec fn parse_schema(name: Seq<char>) -> Option<(bool, Seq<RTTScopePacketField>)> {
    let suffix = schema_suffix(name);
    let timed = has_time_prefix(suffix);
    let body = if timed {
        suffix.skip(2)
    } else {
        suffix
    };
    match parse_fields(body) {
        None => None,
        Some(fields) => Some((timed, fields)),
    }
}

/// Total width of `fields`.
pub open spec fn sum_sizes(fields: Seq<RTTScopePacketField>) -> nat
    decreases fields.len(),
{
    if fields.len() == 0 {
        0
    } else {
        fields[0].size as nat + sum_sizes(fields.skip(1))
    }
}

pub open spec fn time_size(has_time: bool) -> nat {
    if has_time {
        4
    } else {
        0
    }
}

/// Width of one packet in bytes.
pub open spec fn spec_packet_size(p: RTTScopePacketStructure) -> nat {
    time_size(p.has_u32_us_time) + sum_sizes(p.fields@)
}

pub open spec fn le_u16(b0: u8, b1: u8) -> nat {
    b0 as nat + 256 * b1 as nat
}

pub open spec fn le_u32(b0: u8, b1: u8, b2: u8, b3: u8) -> nat {
    b0 as nat + 256 * b1 as nat + 65536 * b2 as nat + 16777216 * b3 as nat
}

/// Two's complement reading of an unsigned value of `bits` bits.
pub open spec fn signed_of(v: nat, bits: nat) -> int {
    if v >= pow2(bits) / 2 {
        v - pow2(bits)
    } else {
        v as int
    }
}

pub open spec fn pow2(bits: nat) -> nat {
    if bits == 8 {
        256
    } else if bits == 16 {
        65536
    } else {
        4294967296
    }
}

/// Little-endian unsigned value of `b` (1, 2 or 4 bytes).
pub open spec fn le_unsigned(b: Seq<u8>) -> nat {
    if b.len() == 1 {
        b[0] as nat
    } else if b.len() == 2 {
        le_u16(b[0], b[1])
    } else {
        le_u32(b[0], b[1], b[2], b[3])
    }
}

/// The value of field `f` held in `b`; `None` where `b` is not exactly as
/// wide as the field or the field's width does not fit its kind.
pub open spec fn decode_field(f: RTTScopePacketField, b: Seq<u8>) -> Option<FieldValue> {
    if b.len() != f.size || f.size == 0 {
        None
    } else {
        match f.type_ {
            RTTScopePacketFieldType::Boolean => Some(FieldValue::Boolean(b[0] != 0)),
            RTTScopePacketFieldType::Float => if f.size == 4 {
                Some(FieldValue::Float(le_unsigned(b) as u32))
            } else {
                None
            },
            RTTScopePacketFieldType::Signed => if f.size == 1 || f.size == 2 || f.size == 4 {
                Some(FieldValue::Signed(signed_of(le_unsigned(b), 8 * f.size as nat) as i32))
            } else {
                None
            },
            RTTScopePacketFieldType::Unsigned => if f.size == 1 || f.size == 2 || f.size == 4 {
                Some(FieldValue::Unsigned(le_unsigned(b) as u32))
            } else {
                None
            },
        }
    }
}

/// The fields read one after the other from the front of `b`.
pub open spec fn decode_fields(fields: Seq<RTTScopePacketField>, b: Seq<u8>) -> Option<
    Seq<FieldValue>,
>
    decreases fields.len(),
{
    if fields.len() == 0 {
        Some(Seq::empty())
    } else {
        let n = fields[0].size as int;
        match decode_field(fields[0], b.take(n)) {
            None => None,
            Some(v) => match decode_fields(fields.skip(1), b.skip(n)) {
                None => None,
                Some(rest) => Some(seq![v] + rest),
            },
        }
    }
}

/// One packet read from the front of `b`: the timestamp where the schema
/// has one, then the field values.
pub open spec fn decode_packet(p: RTTScopePacketStructure, b: Seq<u8>) -> Option<
    (Option<u32>, Seq<FieldValue>),
> {
    let time = if p.has_u32_us_time {
        Some(le_u32(b[0], b[1], b[2], b[3]) as u32)
    } else {
        None
    };
    match decode_fields(p.fields@, b.skip(time_size(p.has_u32_us_time) as int)) {
        None => None,
        Some(values) => Some((time, values)),
    }
}

fn size_of_char_exec(c: char) -> (r: Option<u8>)
    ensures
        r == size_of_char(c),
{
    if c == '1' {
        Some(1)
    } else if c == '2' {
        Some(2)
    } else if c == '4' {
        Some(4)
    } else {
        None
    }
}

fn field_of_chars(kind: char, width: char) -> (r: Option<RTTScopePacketField>)
    ensures
        r == field_of(kind, width),
        r is Some ==> valid_field(r->0),
{
    match size_of_char_exec(width) {
        None => None,
        Some(size) => {
            if (kind == 'b' || kind == 'B') && size == 1 {
                Some(RTTScopePacketField { type_: RTTScopePacketFieldType::Boolean, size })
            } else if (kind == 'f' || kind == 'F') && size == 4 {
                Some(RTTScopePacketField { type_: RTTScopePacketFieldType::Float, size })
            } else if kind == 'i' || kind == 'I' {
                Some(RTTScopePacketField { type_: RTTScopePacketFieldType::Signed, size })
            } else if kind == 'u' || kind == 'U' {
                Some(RTTScopePacketField { type_: RTTScopePacketFieldType::Unsigned, size })
            } else {
                None
            }
        },
    }
}

proof fn lemma_last_index_of(s: Seq<char>, c: char, j: int)
    requires
        0 <= j <= s.len(),
        forall|k: int| j <= k < s.len() ==> s[k] != c,
        j == 0 || s[j - 1] == c,
    ensures
        last_index_of(s, c) == j - 1,
    decreases s.len(),
{
    if s.len() > 0 && s.len() != j {
        lemma_last_index_of(s.drop_last(), c, j);
    }
}

impl RTTScopePacketField {
    /// The field described by the first two characters of `description`: a
    /// kind letter among `b f i u` (either case) and a width among `1 2 4`.
    pub fn parse(description: &str) -> (r: Option<RTTScopePacketField>)
        ensures
            description@.len() < 2 ==> r is None,
            description@.len() >= 2 ==> r == field_of(description@[0], description@[1]),
    {
        if description.unicode_len() < 2 {
            return None;
        }
        field_of_chars(description.get_char(0), description.get_char(1))
    }

    /// The value held in `bytes`, which must be exactly as wide as the field.
    pub fn decode(&self, bytes: &[u8]) -> (r: Option<FieldValue>)
        ensures
            r == decode_field(*self, bytes@),
    {
        if bytes.len() != self.size as usize || self.size == 0 {
            return None;
        }
        let n = bytes.len();
        let v: u32 = if n == 1 {
            bytes[0] as u32
        } else if n == 2 {
            bytes[0] as u32 + bytes[1] as u32 * 256
        } else if n == 4 {
            bytes[0] as u32 + bytes[1] as u32 * 256 + bytes[2] as u32 * 65536 + bytes[3] as u32
                * 16777216
        } else {
            0
        };
        match self.type_ {
            RTTScopePacketFieldType::Boolean => Some(FieldValue::Boolean(bytes[0] != 0)),
            RTTScopePacketFieldType::Float => {
                if n == 4 {
                    Some(FieldValue::Float(v))
                } else {
                    None
                }
            },
            RTTScopePacketFieldType::Signed => {
                if n == 1 {
                    Some(FieldValue::Signed(if v >= 128 { v as i32 - 256 } else { v as i32 }))
                } else if n == 2 {
                    Some(
                        FieldValue::Signed(if v >= 32768 { v as i32 - 65536 } else { v as i32 }),
                    )
                } else if n == 4 {
                    Some(
                        FieldValue::Signed(
                            if v >= 2147483648 {
                                (v as i64 - 4294967296) as i32
                            } else {
                                v as i32
                            },
                        ),
                    )
                } else {
                    None
                }
            },
            RTTScopePacketFieldType::Unsigned => {
                if n == 1 || n == 2 || n == 4 {
                    Some(FieldValue::Unsigned(v))
                } else {
                    None
                }
            },
        }
    }
}

fn le_u32_at(bytes: &[u8], at: usize) -> (r: u32)
    requires
        at + 4 <= bytes@.len(),
    ensures
        r == le_u32(bytes@[at as int], bytes@[at + 1], bytes@[at + 2], bytes@[at + 3]),
{
    bytes[at] as u32 + bytes[at + 1] as u32 * 256 + bytes[at + 2] as u32 * 65536 + bytes[at + 3]
        as u32 * 16777216
}

impl RTTScopePacketStructure {
    /// Width of one packet in bytes: 4 for the timestamp, if any, plus the
    /// widths of the fields.
    pub fn packet_size(&self) -> (r: usize)
        requires
            spec_packet_size(*self) <= usize::MAX,
        ensures
            r == spec_packet_size(*self),
    {
        let mut total: usize = if self.has_u32_us_time {
            4
        } else {
            0
        };
        let mut i: usize = 0;
        proof {
            assert(self.fields@.skip(0) =~= self.fields@);
        }
        while i < self.fields.len()
            invariant
                i <= self.fields@.len(),
                total + sum_sizes(self.fields@.skip(i as int)) == spec_packet_size(*self),
                spec_packet_size(*self) <= usize::MAX,
            decreases self.fields.len() - i,
        {
            proof {
                assert(self.fields@.skip(i as int).skip(1) =~= self.fields@.skip(i + 1));
            }
            total = total + self.fields[i].size as usize;
            i += 1;
        }
        proof {
            assert(self.fields@.skip(i as int).len() == 0);
        }
        total
    }

    /// Reads one packet from the front of `bytes`: the timestamp where the
    /// schema has one, then each field from its exact width, little-endian.
    /// `None` where a field's width does not fit its kind.
    pub fn decode_bytes(&self, bytes: &[u8]) -> (r: Option<(Option<u32>, Vec<FieldValue>)>)
        requires
            bytes@.len() >= spec_packet_size(*self),
        ensures
            match decode_packet(*self, bytes@) {
                None => r is None,
                Some((time, values)) => match r {
                    Some((t, v)) => t == time && v@ == values,
                    None => false,
                },
            },
    {
        let time = if self.has_u32_us_time {
            Some(le_u32_at(bytes, 0))
        } else {
            None
        };
        let mut pos: usize = if self.has_u32_us_time {
            4
        } else {
            0
        };
        let ghost body = bytes@.skip(pos as int);
        let blen = bytes.len();
        let mut values: Vec<FieldValue> = Vec::new();
        let mut i: usize = 0;
        proof {
            assert(self.fields@.skip(0) =~= self.fields@);
            assert(values@ + decode_fields(self.fields@, body)->0 =~= decode_fields(
                self.fields@,
                body,
            )->0);
        }
        while i < self.fields.len()
            invariant
                i <= self.fields@.len(),
                body == bytes@.skip(time_size(self.has_u32_us_time) as int),
                time_size(self.has_u32_us_time) <= pos,
                pos + sum_sizes(self.fields@.skip(i as int)) == spec_packet_size(*self),
                spec_packet_size(*self) <= bytes@.len(),
                blen == bytes@.len(),
                decode_fields(self.fields@, body) == match decode_fields(
                    self.fields@.skip(i as int),
                    bytes@.skip(pos as int),
                ) {
                    None => None,
                    Some(rest) => Some(values@ + rest),
                },
            decreases self.fields.len() - i,
        {
            let field = self.fields[i];
            let n = field.size as usize;
            proof {
                assert(self.fields@.skip(i as int).skip(1) =~= self.fields@.skip(i + 1));
                assert(self.fields@.skip(i as int)[0] == field);
                assert(sum_sizes(self.fields@.skip(i as int)) == n + sum_sizes(
                    self.fields@.skip(i + 1),
                ));
                assert(bytes@.skip(pos as int).skip(n as int) =~= bytes@.skip(pos + n));
            }
            let chunk = crate::gdbremote::copy_range(bytes, pos, pos + n);
            proof {
                assert(chunk@ =~= bytes@.skip(pos as int).take(n as int));
            }
            match field.decode(chunk.as_slice()) {
                None => {
                    return None;
                },
                Some(v) => {
                    proof {
                        let rest = decode_fields(self.fields@.skip(i + 1), bytes@.skip(pos + n));
                        if let Some(rs) = rest {
                            assert(values@.push(v) + rs =~= values@ + (seq![v] + rs));
                        }
                    }
                    values.push(v);
                    pos = pos + n;
                    i += 1;
                },
            }
        }
        proof {
            assert(self.fields@.skip(i as int).len() == 0);
            assert(values@ + Seq::<FieldValue>::empty() =~= values@);
        }
        Some((time, values))
    }
}

/// Parses the packet schema that an RTT channel name encodes, after its last
/// `_`: an optional `T4` (a leading `u32` timestamp in microseconds), then
/// pairs of a kind (`B F I U`, either case) and a width (`1 2 4`) among
/// `B1 F4 I1 I2 I4 U1 U2 U4`. A last single character is ignored; any other
/// pair makes the name invalid.
pub fn parse_scope_packet_structure(channel_name: &str) -> (r: Option<RTTScopePacketStructure>)
    ensures
        match parse_schema(channel_name@) {
            None => r is None,
            Some((timed, fields)) => match r {
                Some(p) => p.has_u32_us_time == timed && p.fields@ == fields,
                None => false,
            },
        },
        r is Some ==> forall|i: int|
            0 <= i < r->0.fields@.len() ==> valid_field(#[trigger] r->0.fields@[i]),
{
    let ghost s = channel_name@;
    let n = channel_name.unicode_len();
    let mut start: usize = n;
    while start > 0 && channel_name.get_char(start - 1) != '_'
        invariant
            start <= n,
            n == s.len(),
            s == channel_name@,
            forall|k: int| start <= k < s.len() ==> s[k] != '_',
        decreases start,
    {
        start -= 1;
    }
    proof {
        lemma_last_index_of(s, '_', start as int);
    }
    let ghost suffix = s.skip(start as int);
    let timed = n - start >= 2 && (channel_name.get_char(start) == 't' || channel_name.get_char(
        start,
    ) == 'T') && channel_name.get_char(start + 1) == '4';
    let mut i: usize = if timed {
        start + 2
    } else {
        start
    };
    proof {
        assert(timed == has_time_prefix(suffix));
        if timed {
            assert(suffix.skip(2) =~= s.skip(i as int));
        }
    }
    let mut fields: Vec<RTTScopePacketField> = Vec::new();
    while n - i >= 2
        invariant
            start <= i <= n,
            n == s.len(),
            s == channel_name@,
            suffix == s.skip(start as int),
            last_index_of(s, '_') == start - 1,
            timed == has_time_prefix(suffix),
            parse_fields(if timed { suffix.skip(2) } else { suffix }) == match parse_fields(
                s.skip(i as int),
            ) {
                None => None,
                Some(rest) => Some(fields@ + rest),
            },
            forall|k: int| 0 <= k < fields@.len() ==> valid_field(#[trigger] fields@[k]),
        decreases n - i,
    {
        proof {
            assert(s.skip(i as int).skip(2) =~= s.skip(i + 2));
            assert(s.skip(i as int)[0] == s[i as int]);
            assert(s.skip(i as int)[1] == s[i + 1]);
        }
        match field_of_chars(channel_name.get_char(i), channel_name.get_char(i + 1)) {
            None => {
                return None;
            },
            Some(f) => {
                proof {
                    if let Some(rs) = parse_fields(s.skip(i + 2)) {
                        assert(fields@.push(f) + rs =~= fields@ + (seq![f] + rs));
                    }
                }
                fields.push(f);
                i = i + 2;
            },
        }
    }
    proof {
        assert(s.skip(i as int).len() < 2);
        assert(fields@ + Seq::<RTTScopePacketField>::empty() =~= fields@);
        assert(schema_suffix(s) == suffix);
    }
    Some(RTTScopePacketStructure { has_u32_us_time: timed, fields })
}

proof fn lemma_decode_fields_length(fields: Seq<RTTScopePacketField>, b: Seq<u8>)
    requires
        forall|i: int| 0 <= i < fields.len() ==> valid_field(#[trigger] fields[i]),
        b.len() >= sum_sizes(fields),
    ensures
        decode_fields(fields, b) is Some,
        decode_fields(fields, b)->0.len() == fields.len(),
    decreases fields.len(),
{
    if fields.len() > 0 {
        let n = fields[0].size as int;
        assert(valid_field(fields[0]));
        assert forall|i: int| 0 <= i < fields.skip(1).len() implies valid_field(
            #[trigger] fields.skip(1)[i],
        ) by {
            assert(fields.skip(1)[i] == fields[i + 1]);
        }
        lemma_decode_fields_length(fields.skip(1), b.skip(n));
    }
}

/// Decoding a packet of a schema whose fields are all valid, from a buffer
/// as wide as one packet, gives one value per field.
pub proof fn lemma_decode_gives_one_value_per_field(p: RTTScopePacketStructure, b: Seq<u8>)
    requires
        forall|i: int| 0 <= i < p.fields@.len() ==> valid_field(#[trigger] p.fields@[i]),
        b.len() == spec_packet_size(p),
    ensures
        match decode_packet(p, b) {
            Some((_, values)) => values.len() == p.fields@.len(),
            None => false,
        },
{
    lemma_decode_fields_length(p.fields@, b.skip(time_size(p.has_u32_us_time) as int));
}

/// The whole packets at the front of `b`, in order.
pub open spec fn split_packets(b: Seq<u8>, size: nat) -> Seq<Seq<u8>>
    decreases b.len(),
{
    if size == 0 || b.len() < size {
        Seq::empty()
    } else {
        seq![b.take(size as int)] + split_packets(b.skip(size as int), size)
    }
}

/// What is left of `b` after its whole packets.
pub open spec fn leftover(b: Seq<u8>, size: nat) -> Seq<u8>
    decreases b.len(),
{
    if size == 0 || b.len() < size {
        b
    } else {
        leftover(b.skip(size as int), size)
    }
}

/// Takes the whole packets from the front of the stream buffer, leaving an
/// incomplete one, if any, for the next read.
pub fn take_packets(buffer: &mut Vec<u8>, packet_size: usize) -> (r: Vec<Vec<u8>>)
    requires
        packet_size > 0,
    ensures
        r@.map_values(|v: Vec<u8>| v@) == split_packets(old(buffer)@, packet_size as nat),
        final(buffer)@ == leftover(old(buffer)@, packet_size as nat),
{
    let mut packets: Vec<Vec<u8>> = Vec::new();
    let mut pos: usize = 0;
    let n = buffer.len();
    let ghost b = buffer@;
    proof {
        assert(b.skip(0) =~= b);
        assert(packets@.map_values(|v: Vec<u8>| v@) + split_packets(b, packet_size as nat)
            =~= split_packets(b, packet_size as nat));
    }
    while n - pos >= packet_size
        invariant
            pos <= n,
            n == b.len(),
            b == buffer@,
            packet_size > 0,
            split_packets(b, packet_size as nat) == packets@.map_values(|v: Vec<u8>| v@)
                + split_packets(b.skip(pos as int), packet_size as nat),
            leftover(b, packet_size as nat) == leftover(b.skip(pos as int), packet_size as nat),
        decreases n - pos,
    {
        let packet = crate::gdbremote::copy_range(buffer.as_slice(), pos, pos + packet_size);
        let ghost before = packets@.map_values(|v: Vec<u8>| v@);
        proof {
            assert(packet@ =~= b.skip(pos as int).take(packet_size as int));
            assert(b.skip(pos as int).skip(packet_size as int) =~= b.skip(pos + packet_size));
        }
        packets.push(packet);
        proof {
            assert(packets@.map_values(|v: Vec<u8>| v@) =~= before.push(packet@));
            assert(before.push(packet@) + split_packets(b.skip(pos + packet_size), packet_size as nat)
                =~= before + (seq![packet@] + split_packets(
                b.skip(pos + packet_size),
                packet_size as nat,
            )));
        }
        pos = pos + packet_size;
    }
    let rest = crate::gdbremote::copy_range(buffer.as_slice(), pos, n);
    proof {
        assert(rest@ =~= b.skip(pos as int));
        let v = packets@.map_values(|v: Vec<u8>| v@);
        assert(v + Seq::<Seq<u8>>::empty() =~= v);
    }
    *buffer = rest;
    packets
}

/// Name of a field kind.
pub open spec fn kind_name(t: RTTScopePacketFieldType) -> Seq<char> {
    match t {
        RTTScopePacketFieldType::Boolean => "Boolean"@,
        RTTScopePacketFieldType::Float => "Float"@,
        RTTScopePacketFieldType::Signed => "Signed"@,
        RTTScopePacketFieldType::Unsigned => "Unsigned"@,
    }
}

/// Display name of the signal of field `i`: `y<i> (<kind>, <size> bytes)`.
pub open spec fn signal_name(i: nat, f: RTTScopePacketField) -> Seq<char> {
    "y"@ + decimal(i) + " ("@ + kind_name(f.type_) + ", "@ + decimal(f.size as nat) + " bytes)"@
}

fn kind_name_str(t: RTTScopePacketFieldType) -> (r: &'static str)
    ensures
        r@ == kind_name(t),
{
    match t {
        RTTScopePacketFieldType::Boolean => "Boolean",
        RTTScopePacketFieldType::Float => "Float",
        RTTScopePacketFieldType::Signed => "Signed",
        RTTScopePacketFieldType::Unsigned => "Unsigned",
    }
}

/// The signals that a packet schema offers: one per field, its id the
/// field's index.
pub fn schema_signals(p: &RTTScopePacketStructure) -> (r: Vec<(u32, String)>)
    requires
        p.fields@.len() <= u32::MAX,
    ensures
        r@.len() == p.fields@.len(),
        forall|i: int|
            0 <= i < r@.len() ==> #[trigger] r@[i].0 == i && r@[i].1@ == signal_name(
                i as nat,
                p.fields@[i],
            ),
{
    let mut r: Vec<(u32, String)> = Vec::new();
    let mut i: usize = 0;
    while i < p.fields.len()
        invariant
            i <= p.fields@.len() <= u32::MAX,
            r@.len() == i,
            forall|k: int|
                0 <= k < i ==> #[trigger] r@[k].0 == k && r@[k].1@ == signal_name(
                    k as nat,
                    p.fields@[k],
                ),
        decreases p.fields.len() - i,
    {
        let f = p.fields[i];
        let mut name = String::new();
        name.append("y");
        let index = decimal_string(i as u64);
        name.append(index.as_str());
        name.append(" (");
        name.append(kind_name_str(f.type_));
        name.append(", ");
        let size = decimal_string(f.size as u64);
        name.append(size.as_str());
        name.append(" bytes)");
        proof {
            assert(name@ =~= signal_name(i as nat, f));
        }
        r.push((i as u32, name));
        i += 1;
    }
    r
}

/// Lowercase form of a string, as `str::to_lowercase` gives it.
pub uninterp spec fn lowercase_of(s: Seq<char>) -> Seq<char>;

/// Relies on `str::to_lowercase`: its result depends on the characters alone.
#[verifier::external_body]
fn to_lowercase(s: &str) -> (r: String)
    ensures
        r@ == lowercase_of(s@),
{
    s.to_lowercase()
}

/// A channel that can carry scope packets: an up channel whose lowercased
/// name holds `scope`.
pub open spec fn is_scope_channel_spec(direction: RTTChannelDirection, lowered: Seq<char>) -> bool {
    direction == RTTChannelDirection::Up && contains_text(lowered, "scope"@)
}

/// Whether a channel, given its lowercased name, can carry scope packets.
pub fn is_scope_channel(direction: RTTChannelDirection, lowered_name: &str) -> (r: bool)
    ensures
        r == is_scope_channel_spec(direction, lowered_name@),
{
    direction == RTTChannelDirection::Up && str_contains(lowered_name, "scope")
}

/// Index of the first channel that can carry scope packets.
pub fn find_scope_channel(channels: &[RTTChannel]) -> (r: Option<usize>)
    ensures
        match r {
            Some(i) => i < channels@.len() && is_scope_channel_spec(
                channels@[i as int].direction,
                lowercase_of(channels@[i as int].name@),
            ) && forall|j: int|
                0 <= j < i ==> !is_scope_channel_spec(
                    #[trigger] channels@[j].direction,
                    lowercase_of(channels@[j].name@),
                ),
            None => forall|j: int|
                0 <= j < channels@.len() ==> !is_scope_channel_spec(
                    #[trigger] channels@[j].direction,
                    lowercase_of(channels@[j].name@),
                ),
        },
{
    let mut i: usize = 0;
    while i < channels.len()
        invariant
            i <= channels@.len(),
            forall|j: int|
                0 <= j < i ==> !is_scope_channel_spec(
                    #[trigger] channels@[j].direction,
                    lowercase_of(channels@[j].name@),
                ),
        decreases channels.len() - i,
    {
        let lowered = to_lowercase(channels[i].name.as_str());
        if is_scope_channel(channels[i].direction, lowered.as_str()) {
            return Some(i);
        }
        i += 1;
    }
    None
}

/// The IEEE 754 single-precision number with these bits is a NaN: all
/// exponent bits set and a nonzero fraction.
pub open spec fn is_nan_bits(bits: u32) -> bool {
    (bits / 8388608) % 256 == 255 && bits % 8388608 != 0
}

pub fn nan_bits(bits: u32) -> (r: bool)
    ensures
        r == is_nan_bits(bits),
{
    (bits / 8388608) % 256 == 255 && bits % 8388608 != 0
}

/// For each float field, in order, whether its value is a NaN.
pub open spec fn float_nan_flags(fields: Seq<RTTScopePacketField>, values: Seq<FieldValue>) -> Seq<
    bool,
>
    decreases fields.len(),
{
    if fields.len() == 0 || values.len() == 0 {
        Seq::empty()
    } else {
        let rest = float_nan_flags(fields.skip(1), values.skip(1));
        match (fields[0].type_, values[0]) {
            (RTTScopePacketFieldType::Float, FieldValue::Float(bits)) => seq![is_nan_bits(bits)]
                + rest,
            _ => rest,
        }
    }
}

/// What one packet, read at a candidate alignment, says of that alignment.
#[derive(Clone, Debug)]
pub struct AlignmentEvidence {
    /// Whether the timestamp grew since the previous packet read at this
    /// alignment, where both have one.
    pub time_increased: Option<bool>,
    /// For each float field, whether it holds a NaN.
    pub float_is_nan: Vec<bool>,
}

/// The evidence that the packet `current` gives, after `previous`.
pub open spec fn evidence_of(
    p: RTTScopePacketStructure,
    previous: Option<Seq<u8>>,
    current: Seq<u8>,
) -> (Option<bool>, Seq<bool>) {
    let cur = decode_packet(p, current);
    let prev = match previous {
        Some(b) => decode_packet(p, b),
        None => None,
    };
    let time = match (prev, cur) {
        (Some((Some(pt), _)), Some((Some(t), _))) => Some(t > pt),
        _ => None,
    };
    let flags = match cur {
        Some((_, values)) => float_nan_flags(p.fields@, values),
        None => Seq::empty(),
    };
    (time, flags)
}

/// The byte stream of an RTT scope channel read from an unknown offset, and
/// the bookkeeping of the search for the packet alignment: every possible
/// offset is tried, one group of packets at a time. How each piece of
/// evidence weighs on the probability of an offset is the caller's part.
pub struct AutoSyncer {
    packet_structure: RTTScopePacketStructure,
    packet_size: usize,
    buffer: Vec<u8>,
    last_decoded_at: Vec<Option<usize>>,
}

impl AutoSyncer {
    pub closed spec fn structure(&self) -> RTTScopePacketStructure {
        self.packet_structure
    }

    pub closed spec fn spec_packet_size(&self) -> nat {
        self.packet_size as nat
    }

    /// The bytes received so far.
    pub closed spec fn received(&self) -> Seq<u8> {
        self.buffer@
    }

    /// Where the last packet tried at each offset started.
    pub closed spec fn last_decoded(&self) -> Seq<Option<usize>> {
        self.last_decoded_at@
    }

    pub open spec fn wf(&self) -> bool {
        &&& self.spec_packet_size() == spec_packet_size(self.structure())
        &&& self.spec_packet_size() > 0
        &&& self.last_decoded().len() == self.spec_packet_size()
        &&& forall|o: int|
            0 <= o < self.last_decoded().len() && #[trigger] self.last_decoded()[o] is Some
                ==> self.last_decoded()[o]->0 + self.spec_packet_size() <= self.received().len()
    }

    /// A search with no bytes yet, every offset still untried.
    pub fn new(packet_structure: &RTTScopePacketStructure) -> (r: AutoSyncer)
        requires
            0 < spec_packet_size(*packet_structure) <= usize::MAX,
        ensures
            r.wf(),
            r.structure().has_u32_us_time == packet_structure.has_u32_us_time,
            r.structure().fields@ == packet_structure.fields@,
            r.received() == Seq::<u8>::empty(),
            forall|o: int| 0 <= o < r.last_decoded().len() ==> #[trigger] r.last_decoded()[o] is None,
    {
        let size = packet_structure.packet_size();
        let mut last: Vec<Option<usize>> = Vec::new();
        let mut i: usize = 0;
        while i < size
            invariant
                i <= size,
                last@.len() == i,
                forall|o: int| 0 <= o < i ==> #[trigger] last@[o] is None,
            decreases size - i,
        {
            last.push(None);
            i += 1;
        }
        let copy = RTTScopePacketStructure {
            has_u32_us_time: packet_structure.has_u32_us_time,
            fields: crate::rttsampler::copy_fields(&packet_structure.fields),
        };
        AutoSyncer { packet_structure: copy, packet_size: size, buffer: Vec::new(), last_decoded_at: last }
    }

    pub fn packet_size(&self) -> (r: usize)
        ensures
            r == self.spec_packet_size(),
    {
        self.packet_size
    }

    /// Appends received bytes.
    pub fn extend_from_slice(&mut self, bytes: &[u8])
        requires
            old(self).wf(),
        ensures
            final(self).wf(),
            final(self).received() == old(self).received() + bytes@,
            final(self).structure() == old(self).structure(),
            final(self).last_decoded() == old(self).last_decoded(),
    {
        self.buffer.extend_from_slice(bytes);
    }

    /// Where the next group of packets starts, once enough bytes have come to
    /// read one packet at every offset from there: just after the last
    /// packet tried at offset 0, or at the start.
    pub fn next_group(&self) -> (r: Option<usize>)
        requires
            self.wf(),
        ensures
            ({
                let from = match self.last_decoded()[0] {
                    Some(i) => i + self.spec_packet_size(),
                    None => 0,
                };
                &&& from + 2 * self.spec_packet_size() <= self.received().len() ==> r == Some(
                    from as usize,
                )
                &&& from + 2 * self.spec_packet_size() > self.received().len() ==> r is None
            }),
    {
        let size = self.packet_size;
        let n = self.buffer.len();
        let from = match self.last_decoded_at[0] {
            Some(i) => {
                proof {
                    assert(self.last_decoded()[0] is Some);
                }
                i + size
            },
            None => 0,
        };
        if self.buffer.len() >= from && self.buffer.len() - from >= size && self.buffer.len() - from
            - size >= size {
            Some(from)
        } else {
            None
        }
    }

    /// The evidence that the packet at `offset` of the group starting at
    /// `from` gives, after the last packet tried at that offset; the packet
    /// then counts as tried.
    pub fn try_offset(&mut self, from: usize, offset: usize) -> (r: AlignmentEvidence)
        requires
            old(self).wf(),
            offset < old(self).spec_packet_size(),
            from + offset + old(self).spec_packet_size() <= old(self).received().len(),
        ensures
            final(self).wf(),
            final(self).received() == old(self).received(),
            final(self).structure() == old(self).structure(),
            final(self).last_decoded() == old(self).last_decoded().update(
                offset as int,
                Some((from + offset) as usize),
            ),
            ({
                let size = old(self).spec_packet_size() as int;
                let previous = match old(self).last_decoded()[offset as int] {
                    Some(i) => Some(old(self).received().subrange(i as int, i + size)),
                    None => None,
                };
                let current = old(self).received().subrange(
                    from + offset,
                    from + offset + size,
                );
                evidence_of(old(self).structure(), previous, current) == (
                    r.time_increased,
                    r.float_is_nan@,
                )
            }),
    {
        let size = self.packet_size;
        let n = self.buffer.len();
        let start = from + offset;
        let current = crate::gdbremote::copy_range(self.buffer.as_slice(), start, start + size);
        let cur = self.packet_structure.decode_bytes(current.as_slice());
        let prev = match self.last_decoded_at[offset] {
            Some(i) => {
                proof {
                    assert(self.last_decoded()[offset as int] is Some);
                    assert(i + size <= n);
                }
                let bytes = crate::gdbremote::copy_range(self.buffer.as_slice(), i, i + size);
                self.packet_structure.decode_bytes(bytes.as_slice())
            },
            None => None,
        };
        let time_increased = match (&prev, &cur) {
            (Some((Some(pt), _)), Some((Some(t), _))) => Some(*t > *pt),
            _ => None,
        };
        let float_is_nan = match &cur {
            Some((_, values)) => nan_flags(&self.packet_structure.fields, values),
            None => Vec::new(),
        };
        self.last_decoded_at.set(offset, Some(start));
        AlignmentEvidence { time_increased, float_is_nan }
    }

    /// The received bytes from `offset` on: the stream aligned on packets
    /// once `offset` is the alignment found.
    pub fn get_synced_data(&self, offset: usize) -> (r: Vec<u8>)
        requires
            offset <= self.received().len(),
        ensures
            r@ == self.received().skip(offset as int),
    {
        let r = crate::gdbremote::copy_range(self.buffer.as_slice(), offset, self.buffer.len());
        proof {
            assert(r@ =~= self.received().skip(offset as int));
        }
        r
    }
}

/// `float_nan_flags` of decoded values.
fn nan_flags(fields: &Vec<RTTScopePacketField>, values: &Vec<FieldValue>) -> (r: Vec<bool>)
    ensures
        r@ == float_nan_flags(fields@, values@),
{
    let mut r: Vec<bool> = Vec::new();
    let mut i: usize = 0;
    proof {
        assert(fields@.skip(0) =~= fields@);
        assert(values@.skip(0) =~= values@);
        assert(r@ + float_nan_flags(fields@, values@) =~= float_nan_flags(fields@, values@));
    }
    while i < fields.len() && i < values.len()
        invariant
            i <= fields@.len(),
            i <= values@.len(),
            float_nan_flags(fields@, values@) == r@ + float_nan_flags(
                fields@.skip(i as int),
                values@.skip(i as int),
            ),
        decreases fields.len() - i,
    {
        proof {
            assert(fields@.skip(i as int).skip(1) =~= fields@.skip(i + 1));
            assert(values@.skip(i as int).skip(1) =~= values@.skip(i + 1));
        }
        match (fields[i].type_, values[i]) {
            (RTTScopePacketFieldType::Float, FieldValue::Float(bits)) => {
                let ghost before = r@;
                r.push(nan_bits(bits));
                proof {
                    assert(before.push(is_nan_bits(bits)) + float_nan_flags(
                        fields@.skip(i + 1),
                        values@.skip(i + 1),
                    ) =~= before + (seq![is_nan_bits(bits)] + float_nan_flags(
                        fields@.skip(i + 1),
                        values@.skip(i + 1),
                    )));
                }
            },
            _ => {},
        }
        i += 1;
    }
    proof {
        assert(r@ + Seq::<bool>::empty() =~= r@);
    }
    r
}

/// Copy of a list of fields.
pub fn copy_fields(fields: &Vec<RTTScopePacketField>) -> (r: Vec<RTTScopePacketField>)
    ensures
        r@ == fields@,
{
    let mut r: Vec<RTTScopePacketField> = Vec::new();
    let mut i: usize = 0;
    while i < fields.len()
        invariant
            i <= fields@.len(),
            r@ == fields@.take(i as int),
        decreases fields.len() - i,
    {
        r.push(fields[i]);
        i += 1;
        proof {
            assert(r@ =~= fields@.take(i as int));
        }
    }
    proof {
        assert(fields@.take(i as int) =~= fields@);
    }
    r
}

} // verus!
