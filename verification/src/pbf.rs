//! A protocol buffer writer with just the field types the glyph schema uses: varints, zig-zag
//! encoded signed varints, and length-delimited fields, one of which is a nested message.

use vstd::prelude::*;
use vstd::string::StringSliceAdditionalSpecFns;

verus! {

/// The base-128 varint encoding of `value`: seven bits per byte, least significant group first,
/// with the high bit set on every byte but the last.
pub open spec fn varint(value: nat) -> Seq<u8>
    decreases value,
{
    if value < 128 {
        seq![value as u8]
    } else {
        seq![(value % 128 + 128) as u8] + varint(value / 128)
    }
}

/// The key that opens a field: the tag shifted past the three wire type bits, as a 32 bit value.
pub open spec fn field_key(tag: u32, wire_type: u32) -> Seq<u8> {
    varint(((tag << 3u32) | wire_type) as nat)
}

/// The zig-zag mapping of a signed value onto an unsigned one: 0, -1, 1, -2, 2, ... become
/// 0, 1, 2, 3, 4, ...
pub open spec fn zigzag(value: i32) -> nat {
    if value >= 0 {
        (2 * value) as nat
    } else {
        (-2 * value - 1) as nat
    }
}

/// A varint field.
pub open spec fn uint32_field_bytes(tag: u32, value: u32) -> Seq<u8> {
    field_key(tag, 0) + varint(value as nat)
}

/// A zig-zag encoded varint field.
pub open spec fn sint32_field_bytes(tag: u32, value: i32) -> Seq<u8> {
    field_key(tag, 0) + varint(zigzag(value))
}

/// A length-delimited field: a string, a byte string, or a nested message.
pub open spec fn bytes_field_bytes(tag: u32, value: Seq<u8>) -> Seq<u8> {
    field_key(tag, 2) + varint(value.len()) + value
}

/// Reads a varint off the front of `bytes`: the value and how many bytes it took.
pub open spec fn parse_varint(bytes: Seq<u8>) -> Option<(nat, nat)>
    decreases bytes.len(),
{
    if bytes.len() == 0 {
        None
    } else if bytes[0] < 128 {
        Some((bytes[0] as nat, 1))
    } else {
        match parse_varint(bytes.drop_first()) {
            Some((rest, length)) => Some((((bytes[0] - 128) + 128 * rest) as nat, length + 1)),
            None => None,
        }
    }
}

/// Reads a length-delimited field off the front of `bytes`: its key, its contents, and whatever
/// follows it.
pub open spec fn parse_bytes_field(bytes: Seq<u8>) -> Option<(nat, Seq<u8>, Seq<u8>)> {
    match parse_varint(bytes) {
        Some((key, key_length)) => {
            let after_key = bytes.skip(key_length as int);
            match parse_varint(after_key) {
                Some((length, length_length)) => {
                    let body = after_key.skip(length_length as int);
                    if length <= body.len() {
                        Some((key, body.take(length as int), body.skip(length as int)))
                    } else {
                        None
                    }
                },
                None => None,
            }
        },
        None => None,
    }
}

/// The inverse of [`zigzag`].
pub open spec fn unzigzag(value: nat) -> int {
    if value % 2 == 0 {
        (value / 2) as int
    } else {
        -((value + 1) / 2)
    }
}

/// A varint is never empty, and is as long as its value needs seven-bit groups.
pub proof fn lemma_varint_length(value: nat)
    ensures
        varint(value).len() >= 1,
        value < 128 <==> varint(value).len() == 1,
    decreases value,
{
    if value >= 128 {
        lemma_varint_length(value / 128);
    }
}

/// Reading a varint back gives the value that was written, and consumes exactly its bytes,
/// whatever follows it.
pub proof fn lemma_varint_roundtrip(value: nat, rest: Seq<u8>)
    ensures
        parse_varint(varint(value) + rest) == Some((value, varint(value).len())),
    decreases value,
{
    let bytes = varint(value) + rest;
    if value < 128 {
        assert(bytes[0] == value as u8);
    } else {
        lemma_varint_roundtrip(value / 128, rest);
        assert(bytes.drop_first() =~= varint(value / 128) + rest);
        assert(bytes[0] == (value % 128 + 128) as u8);
    }
}

/// Reading a zig-zag encoded value back gives the signed value that was written.
pub proof fn lemma_zigzag_roundtrip(value: i32)
    ensures
        unzigzag(zigzag(value)) == value as int,
        zigzag(value) < 0x1_0000_0000,
{
}

/// A length-delimited field reads back as its key, exactly its contents, and whatever followed it.
pub proof fn lemma_bytes_field_roundtrip(tag: u32, value: Seq<u8>, rest: Seq<u8>)
    ensures
        parse_bytes_field(bytes_field_bytes(tag, value) + rest) == Some(
            (((tag << 3u32) | 2u32) as nat, value, rest),
        ),
{
    let key = ((tag << 3u32) | 2u32) as nat;
    let bytes = bytes_field_bytes(tag, value) + rest;
    let after_key = varint(value.len()) + value + rest;
    assert(bytes =~= varint(key) + after_key);
    lemma_varint_roundtrip(key, after_key);
    assert(bytes.skip(varint(key).len() as int) =~= after_key);
    lemma_varint_roundtrip(value.len(), value + rest);
    assert(after_key =~= varint(value.len()) + (value + rest));
    assert(after_key.skip(varint(value.len()).len() as int) =~= value + rest);
    assert((value + rest).take(value.len() as int) =~= value);
    assert((value + rest).skip(value.len() as int) =~= rest);
}

/// The bytes of a protocol buffer, written front to back.
pub struct PbfWriter {
    buf: Vec<u8>,
}

impl View for PbfWriter {
    type V = Seq<u8>;

    closed spec fn view(&self) -> Seq<u8> {
        self.buf@
    }
}

/// The low seven bits of a value and the rest of it, as the varint loop splits them.
proof fn lemma_split_seven(value: u64)
    ensures
        (value & 0x7f) as nat == value as nat % 128,
        (value >> 7u64) as nat == value as nat / 128,
        value >> 7u64 == 0 <==> value < 128,
        ((value & 0x7f) as u8 | 0x80u8) == (value as nat % 128 + 128) as u8,
        (value & 0x7f) as u8 == (value as nat % 128) as u8,
{
    assert((value & 0x7f) == value % 128) by (bit_vector);
    assert((value >> 7u64) == value / 128) by (bit_vector);
    assert(((value & 0x7f) as u8 | 0x80u8) == ((value % 128) + 128) as u8) by (bit_vector);
}

impl PbfWriter {
    /// An empty buffer.
    pub fn new() -> (w: Self)
        ensures
            w@ == Seq::<u8>::empty(),
    {
        PbfWriter { buf: Vec::new() }
    }

    /// The bytes written.
    pub fn finish(self) -> (bytes: Vec<u8>)
        ensures
            bytes@ == self@,
    {
        self.buf
    }

    /// Appends the varint encoding of `value`.
    pub fn varint(&mut self, value: u64)
        ensures
            final(self)@ == old(self)@ + varint(value as nat),
    {
        let mut rest = value;
        loop
            invariant
                self.buf@ + varint(rest as nat) == old(self)@ + varint(value as nat),
            decreases rest,
        {
            proof {
                lemma_split_seven(rest);
            }
            let byte = (rest & 0x7f) as u8;
            let ghost before = self.buf@;
            let ghost current = rest;
            rest = rest >> 7;
            if rest == 0 {
                self.buf.push(byte);
                assert(self.buf@ =~= before + varint(current as nat));
                return;
            }
            self.buf.push(byte | 0x80);
            assert(self.buf@ + varint(rest as nat) =~= before + varint(current as nat));
        }
    }

    /// Appends the key of a field: its tag and wire type.
    pub fn key(&mut self, tag: u32, wire_type: u32)
        ensures
            final(self)@ == old(self)@ + field_key(tag, wire_type),
    {
        self.varint(((tag << 3) | wire_type) as u64);
    }

    /// Appends a varint field.
    pub fn uint32_field(&mut self, tag: u32, value: u32)
        ensures
            final(self)@ == old(self)@ + uint32_field_bytes(tag, value),
    {
        self.key(tag, 0);
        self.varint(value as u64);
        assert(self@ =~= old(self)@ + uint32_field_bytes(tag, value));
    }

    /// Appends a zig-zag encoded signed field, which is what MapLibre's `readSVarint` decodes.
    pub fn sint32_field(&mut self, tag: u32, value: i32)
        ensures
            final(self)@ == old(self)@ + sint32_field_bytes(tag, value),
    {
        self.key(tag, 0);
        let encoded = ((value << 1) ^ (value >> 31)) as u32;
        assert(((value << 1u32) ^ (value >> 31u32)) as u32 == (if value >= 0 {
            (2 * value) as u32
        } else {
            (-2 * value - 1) as u32
        })) by (bit_vector);
        self.varint(encoded as u64);
        assert(self@ =~= old(self)@ + sint32_field_bytes(tag, value));
    }

    /// Appends a length-delimited field holding `value`.
    pub fn bytes_field(&mut self, tag: u32, value: &[u8])
        ensures
            final(self)@ == old(self)@ + bytes_field_bytes(tag, value@),
    {
        self.key(tag, 2);
        self.varint(value.len() as u64);
        let ghost before = self.buf@;
        self.buf.extend_from_slice(value);
        assert(self.buf@ =~= before + value@) by {
            assert forall|i: int| 0 <= i < self.buf@.len() implies self.buf@[i] == (before
                + value@)[i] by {
                if i >= before.len() {
                    assert(cloned::<u8>(value@[i - before.len()], self.buf@[i]));
                }
            }
        }
        assert(self@ =~= old(self)@ + bytes_field_bytes(tag, value@));
    }

    /// Appends a length-delimited field holding a string's UTF-8 bytes.
    pub fn string_field(&mut self, tag: u32, value: &str)
        ensures
            final(self)@ == old(self)@ + bytes_field_bytes(tag, value.spec_bytes()),
    {
        self.bytes_field(tag, value.as_bytes());
    }

    /// Opens a length-delimited submessage: writes its key and reserves a single byte for its
    /// length, returning where that byte is. The submessage's fields follow, and
    /// [`Self::end_message`] fills the length in once they are written.
    pub fn begin_message(&mut self, tag: u32) -> (length_position: usize)
        ensures
            final(self)@ == old(self)@ + field_key(tag, 2) + seq![0u8],
            length_position == old(self)@.len() + field_key(tag, 2).len(),
    {
        self.key(tag, 2);
        let length_position = self.buf.len();
        self.buf.push(0);
        length_position
    }

    /// Closes the submessage whose length byte is at `length_position`, replacing that byte by
    /// the varint length of everything written after it. The common case of a length under 128
    /// fits the reserved byte; a longer one grows it in place.
    pub fn end_message(&mut self, length_position: usize)
        requires
            length_position < old(self)@.len(),
        ensures
            final(self)@ == old(self)@.take(length_position as int) + varint(
                (old(self)@.len() - length_position - 1) as nat,
            ) + old(self)@.skip(length_position + 1),
    {
        let total = self.buf.len();
        let start = length_position + 1;
        let length = total - start;
        let ghost body = self.buf@.skip(start as int);
        if length < 0x80 {
            self.buf.set(length_position, length as u8);
            assert(self.buf@ =~= old(self)@.take(length_position as int) + varint(length as nat)
                + body);
            return;
        }
        let mut length_bytes = PbfWriter::new();
        length_bytes.varint(length as u64);
        let length_bytes = length_bytes.finish();
        replace_byte(&mut self.buf, length_position, length_bytes);
    }
}

/// Replaces the byte at `at` by the bytes of `with`.
fn replace_byte(buf: &mut Vec<u8>, at: usize, with: Vec<u8>)
    requires
        at < old(buf)@.len(),
    ensures
        final(buf)@ == old(buf)@.take(at as int) + with@ + old(buf)@.skip(at + 1),
{
    let ghost front = old(buf)@.take(at as int);
    let ghost back = old(buf)@.skip(at + 1);
    buf.remove(at);
    assert(buf@ =~= front + with@.take(0) + back);
    let mut k: usize = 0;
    while k < with.len()
        invariant
            0 <= k <= with@.len(),
            front.len() == at,
            buf@ == front + with@.take(k as int) + back,
        decreases with@.len() - k,
    {
        let length = buf.len();
        assert(at + k <= length);
        buf.insert(at + k, with[k]);
        assert(buf@ =~= front + with@.take(k + 1) + back);
        k += 1;
    }
    assert(with@.take(with@.len() as int) =~= with@);
}

} // verus!
