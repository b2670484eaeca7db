//! The protobuf wire format: keys, values, and messages made of fields.

use vstd::prelude::*;
use vstd::slice::slice_subrange;

use crate::order;
use crate::pb::WireError;

verus! {

/// Little-endian base-128 form of `v`: seven bits per byte, lowest first, the
/// high bit set on all bytes but the last.
pub open spec fn leb(v: nat) -> Seq<u8>
    decreases v,
{
    if v < 128 {
        seq![v as u8]
    } else {
        seq![(128 + v % 128) as u8] + leb(v / 128)
    }
}

/// The integer at the start of `b`, of which `depth` bytes have been read
/// before, and how many bytes it takes. Ten bytes at most make an integer,
/// and the tenth is at most 1.
pub open spec fn varint(b: Seq<u8>, depth: nat) -> Option<(nat, nat)>
    decreases b.len(),
{
    if b.len() == 0 || depth >= 10 {
        None
    } else if b[0] < 128 {
        if depth == 9 && b[0] >= 2 {
            None
        } else {
            Some((b[0] as nat, 1))
        }
    } else {
        match varint(b.drop_first(), depth + 1) {
            Some((v, n)) => Some(((b[0] - 128 + 128 * v) as nat, n + 1)),
            None => None,
        }
    }
}

/// Largest integer, exclusive, that `k + 1` more bytes can hold.
pub open spec fn capacity(k: nat) -> nat
    decreases k,
{
    if k == 0 {
        2
    } else {
        128 * capacity((k - 1) as nat)
    }
}

/// Reading an integer gives back the integer that was written.
proof fn lemma_varint(v: nat, k: nat, rest: Seq<u8>)
    requires
        k <= 9,
        v < capacity(k),
    ensures
        varint(leb(v) + rest, (9 - k) as nat) == Some((v, leb(v).len())),
    decreases k,
{
    let b = leb(v) + rest;
    if v < 128 {
        assert(b[0] == v);
    } else {
        assert(k > 0);
        assert(b[0] == 128 + v % 128);
        assert(b.drop_first() =~= leb(v / 128) + rest);
        lemma_varint(v / 128, (k - 1) as nat, rest);
        assert(v % 128 + 128 * (v / 128) == v);
    }
}

proof fn lemma_capacity_u64()
    ensures
        capacity(9) == 0x1_0000_0000_0000_0000,
{
    reveal_with_fuel(capacity, 2);
    assert(capacity(1) == 256);
    assert(capacity(2) == 0x8000);
    assert(capacity(3) == 0x40_0000);
    assert(capacity(4) == 0x2000_0000);
    assert(capacity(5) == 0x10_0000_0000);
    assert(capacity(6) == 0x800_0000_0000);
    assert(capacity(7) == 0x4_0000_0000_0000);
    assert(capacity(8) == 0x200_0000_0000_0000);
}

/// Writing a 64-bit integer and reading it gives the integer back, and leaves
/// what follows it.
pub proof fn law_varint_round_trip(v: u64, rest: Seq<u8>)
    ensures
        varint(leb(v as nat) + rest, 0) == Some((v as nat, leb(v as nat).len())),
        (leb(v as nat) + rest).skip(leb(v as nat).len() as int) == rest,
        leb(v as nat).len() > 0,
{
    lemma_capacity_u64();
    lemma_varint(v as nat, 9, rest);
    assert((leb(v as nat) + rest).skip(leb(v as nat).len() as int) =~= rest);
}

/// An integer that is read takes some of the bytes and fits 64 bits.
pub(crate) proof fn lemma_varint_bounds(b: Seq<u8>, depth: nat)
    requires
        depth <= 9,
    ensures
        varint(b, depth) matches Some((v, n)) ==> 0 < n <= b.len() && v < capacity((9 - depth) as nat),
    decreases b.len(),
{
    if b.len() > 0 && b[0] >= 128 && depth < 9 {
        lemma_varint_bounds(b.drop_first(), depth + 1);
    } else if b.len() > 0 && b[0] < 128 && depth < 9 {
        assert(capacity((9 - depth) as nat) >= 128) by {
            lemma_capacity_at_least((9 - depth) as nat);
        }
    } else if b.len() > 0 && b[0] >= 128 {
        assert(varint(b.drop_first(), 10) is None);
    }
}

proof fn lemma_capacity_at_least(k: nat)
    requires
        k > 0,
    ensures
        capacity(k) >= 256,
    decreases k,
{
    reveal_with_fuel(capacity, 2);
    if k > 1 {
        lemma_capacity_at_least((k - 1) as nat);
    }
}

/// Calls `prost::encoding::encode_varint`: appends the base-128 form.
#[verifier::external_body]
pub(crate) fn put_varint(v: u64, out: &mut Vec<u8>)
    ensures
        final(out)@ == old(out)@ + leb(v as nat),
{
    prost::encoding::encode_varint(v, out)
}

/// Calls `prost::encoding::decode_varint`: the integer at the start of `buf`
/// and what follows it, or an error when there is no integer.
#[verifier::external_body]
pub(crate) fn get_varint<'a>(buf: &'a [u8]) -> (r: Result<(u64, &'a [u8]), WireError>)
    ensures
        match r {
            Ok((v, rest)) => varint(buf@, 0) matches Some((x, n)) && x == v && rest@ == buf@.skip(n as int),
            Err(e) => varint(buf@, 0) is None && e == WireError::InvalidVarint,
        },
{
    let mut rest = buf;
    let v = prost::encoding::decode_varint(&mut rest).map_err(|_| WireError::InvalidVarint)?;
    Ok((v, rest))
}

/// What skipping the group `tag`, whose start key has been read from before
/// `bytes`, gives: the bytes that follow the group when it is well-formed,
/// or else what is wrong, in words.
pub uninterp spec fn group_skipped(bytes: Seq<u8>, tag: u32) -> Result<Seq<u8>, Seq<char>>;

/// Calls `prost::encoding::skip_field` on a group: what follows the group, or
/// the text of the error when it is malformed or nested too deeply. What
/// makes a group well-formed, and how the text goes, is left to the name.
/// Skipping consumes bytes and adds none.
#[verifier::external_body]
pub(crate) fn skip_group<'a>(buf: &'a [u8], tag: u32) -> (r: Result<&'a [u8], String>)
    ensures
        match r {
            Ok(rest) => group_skipped(buf@, tag) == Ok::<Seq<u8>, Seq<char>>(rest@) && rest@.len()
                <= buf@.len(),
            Err(e) => group_skipped(buf@, tag) == Err::<Seq<u8>, Seq<char>>(e@),
        },
{
    let mut rest = buf;
    let ctx = prost::encoding::DecodeContext::default();
    prost::encoding::skip_field(prost::encoding::WireType::StartGroup, tag, &mut rest, ctx)
        .map_err(|e| e.to_string())?;
    Ok(rest)
}

/// A message of one level consists of fields that can be skipped one level
/// down; `bytes` are its length and its fields.
pub uninterp spec fn skips_nested(bytes: Seq<u8>) -> bool;

/// Calls `prost::encoding::message::merge` on the message without fields,
/// `()`, whose fields are all unknown: whether each of them can be skipped at
/// the depth of a nested message. What that takes is left to the name.
#[verifier::external_body]
fn nested_skip(buf: &[u8]) -> (r: bool)
    ensures
        r == skips_nested(buf@),
{
    let mut rest = buf;
    let ctx = prost::encoding::DecodeContext::default();
    let wire = prost::encoding::WireType::LengthDelimited;
    prost::encoding::message::merge(wire, &mut (), &mut rest, ctx).is_ok()
}

/// Calls `String::from_utf8`: the string that `bytes` are the UTF-8 form of,
/// if they are.
#[verifier::external_body]
pub(crate) fn utf8_string(bytes: &[u8]) -> (r: Option<String>)
    ensures
        match r {
            Some(s) => vstd::utf8::valid_utf8(bytes@) && s@ == vstd::utf8::decode_utf8(bytes@),
            None => !vstd::utf8::valid_utf8(bytes@),
        },
{
    String::from_utf8(bytes.to_vec()).ok()
}

/// Wire type of integers.
pub const VARINT: u8 = 0;

/// Wire type of eight-byte values.
pub const FIXED64: u8 = 1;

/// Wire type of strings, bytes and messages.
pub const DELIMITED: u8 = 2;

/// Wire type that starts a group.
pub const START_GROUP: u8 = 3;

/// Wire type that ends a group.
pub const END_GROUP: u8 = 4;

/// Wire type of four-byte values.
pub const FIXED32: u8 = 5;

/// Value of a field as it stands on the wire.
pub enum Raw<'a> {
    Varint(u64),
    Bytes(&'a [u8]),
    /// A value of a wire type that no message here uses.
    Other,
}

/// Contents of a [`Raw`].
#[verifier::ext_equal]
pub ghost enum RawView {
    Varint(u64),
    Bytes(Seq<u8>),
    Other,
}

impl<'a> View for Raw<'a> {
    type V = RawView;

    open spec fn view(&self) -> RawView {
        match *self {
            Raw::Varint(v) => RawView::Varint(v),
            Raw::Bytes(b) => RawView::Bytes(b@),
            Raw::Other => RawView::Other,
        }
    }
}

/// Key of field `tag` with a value of this wire type.
pub open spec fn key(tag: u32, wire: u8) -> Seq<u8> {
    leb((tag * 8 + wire) as nat)
}

/// The key at the start of `b`: field, wire type, and what follows.
pub open spec fn read_key(b: Seq<u8>) -> Result<(u32, u8, Seq<u8>), WireError> {
    match varint(b, 0) {
        Some((v, n)) => if v > u32::MAX || v / 8 == 0 || v % 8 > 5 {
            Err(WireError::InvalidKey)
        } else {
            Ok(((v / 8) as u32, (v % 8) as u8, b.skip(n as int)))
        },
        None => Err(WireError::InvalidKey),
    }
}

/// The length and the contents of a message whose only field is the group
/// `tag` that starts before `group`.
pub open spec fn lone_group(tag: u32, group: Seq<u8>) -> Seq<u8> {
    let field = key(tag, START_GROUP) + group;
    leb(field.len()) + field
}

/// The value at the start of `b` of a field with this key, and what follows.
/// In a nested message, groups are nested less deeply.
pub open spec fn read_value(b: Seq<u8>, tag: u32, wire: u8, deep: bool) -> Result<(RawView, Seq<u8>), WireError> {
    if wire == VARINT {
        match varint(b, 0) {
            Some((v, n)) => Ok((RawView::Varint(v as u64), b.skip(n as int))),
            None => Err(WireError::InvalidVarint),
        }
    } else if wire == DELIMITED {
        match varint(b, 0) {
            Some((len, n)) => if len > b.len() - n {
                Err(WireError::BufferUnderflow)
            } else {
                Ok((RawView::Bytes(b.subrange(n as int, (n + len) as int)), b.skip((n + len) as int)))
            },
            None => Err(WireError::InvalidVarint),
        }
    } else if wire == FIXED64 || wire == FIXED32 {
        let width: int = if wire == FIXED64 {
            8
        } else {
            4
        };
        if b.len() < width {
            Err(WireError::BufferUnderflow)
        } else {
            Ok((RawView::Other, b.skip(width)))
        }
    } else if wire == START_GROUP {
        match group_skipped(b, tag) {
            Ok(rest) => if deep && !skips_nested(lone_group(tag, b.take(b.len() - rest.len()))) {
                Err(WireError::InvalidGroup)
            } else {
                Ok((RawView::Other, rest))
            },
            Err(_) => Err(WireError::InvalidGroup),
        }
    } else {
        Err(WireError::InvalidGroup)
    }
}

/// The field at the start of `b`: its number, its value, and what follows.
pub open spec fn read_field(b: Seq<u8>, deep: bool) -> Result<(u32, RawView, Seq<u8>), WireError> {
    match read_key(b) {
        Err(e) => Err(e),
        Ok((tag, wire, rest)) => match read_value(rest, tag, wire, deep) {
            Err(e) => Err(e),
            Ok((value, after)) => Ok((tag, value, after)),
        },
    }
}

/// Reads a key.
pub(crate) fn get_key<'a>(buf: &'a [u8]) -> (r: Result<(u32, u8, &'a [u8]), WireError>)
    ensures
        match r {
            Ok((tag, wire, rest)) => read_key(buf@) == Ok::<(u32, u8, Seq<u8>), WireError>(
                (tag, wire, rest@),
            ) && rest@.len() < buf@.len(),
            Err(e) => read_key(buf@) == Err::<(u32, u8, Seq<u8>), WireError>(e),
        },
{
    proof {
        lemma_varint_bounds(buf@, 0);
    }
    match get_varint(buf) {
        Ok((v, rest)) => {
            if v > u32::MAX as u64 || v / 8 == 0 || v % 8 > 5 {
                return Err(WireError::InvalidKey);
            }
            Ok(((v / 8) as u32, (v % 8) as u8, rest))
        },
        Err(_) => Err(WireError::InvalidKey),
    }
}

/// Whether a group of a nested message can be skipped; `body` starts with the
/// group, and `len` bytes of it belong to the group.
fn fits_nested(tag: u32, body: &[u8], len: usize) -> (r: bool)
    requires
        len <= body@.len(),
        tag < 0x2000_0000,
    ensures
        r == skips_nested(lone_group(tag, body@.take(len as int))),
{
    let mut field: Vec<u8> = Vec::new();
    put_varint(tag as u64 * 8 + START_GROUP as u64, &mut field);
    let group = slice_subrange(body, 0, len);
    assert(group@ =~= body@.take(len as int));
    let mut i: usize = 0;
    let ghost start = field@;
    assert(start =~= key(tag, START_GROUP));
    while i < group.len()
        invariant
            i <= group@.len(),
            field@ == start + group@.take(i as int),
        decreases group@.len() - i,
    {
        field.push(group[i]);
        assert(field@ =~= start + group@.take(i + 1));
        i = i + 1;
    }
    assert(group@.take(group@.len() as int) =~= group@);
    let mut buf: Vec<u8> = Vec::new();
    put_varint(field.len() as u64, &mut buf);
    let ghost prefix = buf@;
    let mut k: usize = 0;
    while k < field.len()
        invariant
            k <= field@.len(),
            buf@ == prefix + field@.take(k as int),
        decreases field@.len() - k,
    {
        buf.push(field[k]);
        assert(buf@ =~= prefix + field@.take(k + 1));
        k = k + 1;
    }
    assert(buf@ =~= lone_group(tag, body@.take(len as int)));
    nested_skip(buf.as_slice())
}

/// Reads a field.
pub(crate) fn get_field<'a>(buf: &'a [u8], deep: bool) -> (r: Result<(u32, Raw<'a>, &'a [u8]), WireError>)
    ensures
        match r {
            Ok((tag, raw, rest)) => read_field(buf@, deep) == Ok::<(u32, RawView, Seq<u8>), WireError>(
                (tag, raw@, rest@),
            ) && rest@.len() < buf@.len(),
            Err(e) => read_field(buf@, deep) == Err::<(u32, RawView, Seq<u8>), WireError>(e),
        },
{
    let (tag, wire, body) = match get_key(buf) {
        Ok(k) => k,
        Err(e) => {
            return Err(e);
        },
    };
    proof {
        lemma_varint_bounds(body@, 0);
        lemma_capacity_u64();
    }
    if wire == VARINT {
        match get_varint(body) {
            Ok((v, rest)) => Ok((tag, Raw::Varint(v), rest)),
            Err(e) => Err(e),
        }
    } else if wire == DELIMITED {
        match get_varint(body) {
            Ok((len, rest)) => {
                if len > rest.len() as u64 {
                    return Err(WireError::BufferUnderflow);
                }
                let n: usize = len as usize;
                let value = slice_subrange(rest, 0, n);
                let after = slice_subrange(rest, n, rest.len());
                proof {
                    let (_, n_used) = varint(body@, 0)->0;
                    let used = n_used as int;
                    assert(value@ =~= body@.subrange(used, used + n));
                    assert(after@ =~= body@.skip(used + n));
                }
                Ok((tag, Raw::Bytes(value), after))
            },
            Err(e) => Err(e),
        }
    } else if wire == FIXED64 || wire == FIXED32 {
        let width: usize = if wire == FIXED64 {
            8
        } else {
            4
        };
        if body.len() < width {
            return Err(WireError::BufferUnderflow);
        }
        let after = slice_subrange(body, width, body.len());
        assert(after@ =~= body@.skip(width as int));
        Ok((tag, Raw::Other, after))
    } else if wire == START_GROUP {
        match skip_group(body, tag) {
            Ok(rest) => {
                if deep && !fits_nested(tag, body, body.len() - rest.len()) {
                    return Err(WireError::InvalidGroup);
                }
                Ok((tag, Raw::Other, rest))
            },
            Err(_) => Err(WireError::InvalidGroup),
        }
    } else {
        Err(WireError::InvalidGroup)
    }
}

/// A message made of numbered fields.
pub trait Message: Sized + View {
    /// The message without fields.
    spec fn blank() -> Self::V;

    /// The message after one more field.
    spec fn applied(v: Self::V, tag: u32, raw: RawView) -> Result<Self::V, WireError>;

    /// The encoding of the message.
    spec fn encoding(v: Self::V) -> Seq<u8>;

    fn new_blank() -> (r: Self)
        ensures
            r@ == Self::blank(),
    ;

    /// Takes one more field.
    fn merge_field(&mut self, tag: u32, raw: Raw) -> (r: Result<(), WireError>)
        ensures
            match r {
                Ok(()) => Self::applied(old(self)@, tag, raw@) == Ok::<Self::V, WireError>(final(self)@),
                Err(e) => Self::applied(old(self)@, tag, raw@) == Err::<Self::V, WireError>(e),
            },
    ;

    /// Appends the encoding of the message.
    fn encode(&self, out: &mut Vec<u8>)
        ensures
            final(out)@ == old(out)@ + Self::encoding(self@),
    ;

    /// The encoding of the message.
    fn encode_to_vec(&self) -> (r: Vec<u8>)
        ensures
            r@ == Self::encoding(self@),
    {
        let mut out: Vec<u8> = Vec::new();
        self.encode(&mut out);
        assert(out@ =~= Self::encoding(self@));
        out
    }
}

/// The message that `bytes` encode.
pub fn decode_message<M: Message>(bytes: &[u8]) -> (r: Result<M, WireError>)
    ensures
        match r {
            Ok(m) => merged::<M>(M::blank(), bytes@) == Ok::<M::V, WireError>(m@),
            Err(e) => merged::<M>(M::blank(), bytes@) == Err::<M::V, WireError>(e),
        },
{
    let mut m = M::new_blank();
    match merge(&mut m, bytes, false) {
        Ok(()) => Ok(m),
        Err(e) => Err(e),
    }
}

/// The message `v` after the fields that `b` holds. A field takes some of the
/// bytes, so that fewer are left.
pub open spec fn merged_at<M: Message>(v: M::V, b: Seq<u8>, deep: bool) -> Result<M::V, WireError>
    decreases b.len(),
{
    if b.len() == 0 {
        Ok(v)
    } else {
        match read_field(b, deep) {
            Err(e) => Err(e),
            Ok((tag, raw, rest)) => match M::applied(v, tag, raw) {
                Err(e) => Err(e),
                Ok(v1) => if rest.len() < b.len() {
                    merged_at::<M>(v1, rest, deep)
                } else {
                    Ok(v1)
                },
            },
        }
    }
}

/// The message `v`, which is nested in none, after the fields that `b` holds.
pub open spec fn merged<M: Message>(v: M::V, b: Seq<u8>) -> Result<M::V, WireError> {
    merged_at::<M>(v, b, false)
}

/// Takes the fields that `bytes` hold.
pub(crate) fn merge<M: Message>(m: &mut M, bytes: &[u8], deep: bool) -> (r: Result<(), WireError>)
    ensures
        match r {
            Ok(()) => merged_at::<M>(old(m)@, bytes@, deep) == Ok::<M::V, WireError>(final(m)@),
            Err(e) => merged_at::<M>(old(m)@, bytes@, deep) == Err::<M::V, WireError>(e),
        },
{
    let mut rest: &[u8] = bytes;
    while rest.len() > 0
        invariant
            merged_at::<M>(m@, rest@, deep) == merged_at::<M>(old(m)@, bytes@, deep),
        decreases rest@.len(),
    {
        let (tag, raw, after) = match get_field(rest, deep) {
            Ok(f) => f,
            Err(e) => {
                return Err(e);
            },
        };
        if let Err(e) = m.merge_field(tag, raw) {
            return Err(e);
        }
        rest = after;
    }
    Ok(())
}

/// The 64-bit integer by which a signed one stands on the wire.
pub open spec fn extended(v: i32) -> u64 {
    if v >= 0 {
        v as u64
    } else {
        (0x1_0000_0000_0000_0000 + v) as u64
    }
}

/// The signed integer in the low half of a 64-bit one.
pub open spec fn low_signed(x: u64) -> i32 {
    let low = x % 0x1_0000_0000;
    if low < 0x8000_0000 {
        low as i32
    } else {
        (low - 0x1_0000_0000) as i32
    }
}

/// The unsigned integer in the low half of a 64-bit one.
pub open spec fn low_unsigned(x: u64) -> u32 {
    (x % 0x1_0000_0000) as u32
}

/// An integer field and what follows it.
pub open spec fn with_varint(tag: u32, v: u64, tail: Seq<u8>) -> Seq<u8> {
    key(tag, VARINT) + leb(v as nat) + tail
}

/// A length-delimited field and what follows it.
pub open spec fn with_bytes(tag: u32, b: Seq<u8>, tail: Seq<u8>) -> Seq<u8> {
    key(tag, DELIMITED) + leb(b.len()) + b + tail
}

/// A signed integer field, left out when 0, and what follows it.
pub open spec fn with_int32(tag: u32, v: i32, tail: Seq<u8>) -> Seq<u8> {
    if v == 0 {
        tail
    } else {
        with_varint(tag, extended(v), tail)
    }
}

/// An unsigned integer field, left out when 0, and what follows it.
pub open spec fn with_uint32(tag: u32, v: u32, tail: Seq<u8>) -> Seq<u8> {
    if v == 0 {
        tail
    } else {
        with_varint(tag, v as u64, tail)
    }
}

/// A bytes field, left out when empty, and what follows it.
pub open spec fn with_blob(tag: u32, b: Seq<u8>, tail: Seq<u8>) -> Seq<u8> {
    if b.len() == 0 {
        tail
    } else {
        with_bytes(tag, b, tail)
    }
}

/// A string field, left out when empty, and what follows it.
pub open spec fn with_text(tag: u32, s: Seq<char>, tail: Seq<u8>) -> Seq<u8> {
    with_blob(tag, vstd::utf8::encode_utf8(s), tail)
}

/// A field for each of `items`, and what follows them.
pub open spec fn with_blobs(tag: u32, items: Seq<Seq<u8>>, tail: Seq<u8>) -> Seq<u8>
    decreases items.len(),
{
    if items.len() == 0 {
        tail
    } else {
        with_bytes(tag, items[0], with_blobs(tag, items.drop_first(), tail))
    }
}

/// UTF-8 forms of a list of strings.
pub open spec fn utf8_list(items: Seq<Seq<char>>) -> Seq<Seq<u8>> {
    items.map_values(|s: Seq<char>| vstd::utf8::encode_utf8(s))
}

/// The value of a signed integer field.
pub open spec fn int32_of(raw: RawView) -> Result<i32, WireError> {
    match raw {
        RawView::Varint(v) => Ok(low_signed(v)),
        _ => Err(WireError::UnexpectedWireType),
    }
}

/// The value of an unsigned integer field.
pub open spec fn uint32_of(raw: RawView) -> Result<u32, WireError> {
    match raw {
        RawView::Varint(v) => Ok(low_unsigned(v)),
        _ => Err(WireError::UnexpectedWireType),
    }
}

/// The value of a bytes field.
pub open spec fn blob_of(raw: RawView) -> Result<Seq<u8>, WireError> {
    match raw {
        RawView::Bytes(b) => Ok(b),
        _ => Err(WireError::UnexpectedWireType),
    }
}

/// The value of a string field.
pub open spec fn text_of(raw: RawView) -> Result<Seq<char>, WireError> {
    match raw {
        RawView::Bytes(b) => if vstd::utf8::valid_utf8(b) {
            Ok(vstd::utf8::decode_utf8(b))
        } else {
            Err(WireError::InvalidUtf8)
        },
        _ => Err(WireError::UnexpectedWireType),
    }
}

/// A field that holds a message, and what follows it.
pub open spec fn with_message<M: Message>(tag: u32, v: M::V, tail: Seq<u8>) -> Seq<u8> {
    with_bytes(tag, M::encoding(v), tail)
}

/// The message `v` after the fields that a field holds.
pub open spec fn nested_of<M: Message>(v: M::V, raw: RawView) -> Result<M::V, WireError> {
    match raw {
        RawView::Bytes(b) => merged_at::<M>(v, b, true),
        _ => Err(WireError::UnexpectedWireType),
    }
}

/// Field numbers of messages here.
pub open spec fn small(tag: u32) -> bool {
    1 <= tag < 0x1000_0000
}

/// Reading an integer field gives back what was written.
proof fn lemma_read_varint(deep: bool, tag: u32, v: u64, tail: Seq<u8>)
    requires
        small(tag),
    ensures
        read_field(with_varint(tag, v, tail), deep) == Ok::<(u32, RawView, Seq<u8>), WireError>(
            (tag, RawView::Varint(v), tail),
        ),
        tail.len() < with_varint(tag, v, tail).len(),
{
    let k = (tag * 8 + VARINT) as u64;
    let body = leb(v as nat) + tail;
    law_varint_round_trip(k, body);
    law_varint_round_trip(v, tail);
    assert(with_varint(tag, v, tail) =~= leb(k as nat) + body);
    assert(k as nat / 8 == tag && k as nat % 8 == 0);
}

/// Reading a length-delimited field gives back what was written.
proof fn lemma_read_bytes(deep: bool, tag: u32, b: Seq<u8>, tail: Seq<u8>)
    requires
        small(tag),
        b.len() <= u64::MAX,
    ensures
        read_field(with_bytes(tag, b, tail), deep) == Ok::<(u32, RawView, Seq<u8>), WireError>(
            (tag, RawView::Bytes(b), tail),
        ),
        tail.len() < with_bytes(tag, b, tail).len(),
{
    let k = (tag * 8 + DELIMITED) as u64;
    let len = b.len() as u64;
    let body = leb(len as nat) + (b + tail);
    law_varint_round_trip(k, body);
    law_varint_round_trip(len, b + tail);
    assert(with_bytes(tag, b, tail) =~= leb(k as nat) + body);
    assert(k as nat / 8 == tag && k as nat % 8 == 2);
    let n = leb(len as nat).len() as int;
    assert(body.subrange(n, n + b.len()) =~= b);
    assert(body.skip(n + b.len()) =~= tail);
}

/// Decoding an integer field applies it.
pub(crate) proof fn lemma_merge_varint<M: Message>(deep: bool, m: M::V, tag: u32, v: u64, tail: Seq<u8>)
    requires
        small(tag),
    ensures
        merged_at::<M>(m, with_varint(tag, v, tail), deep) == (match M::applied(m, tag, RawView::Varint(v)) {
            Ok(m1) => merged_at::<M>(m1, tail, deep),
            Err(e) => Err(e),
        }),
{
    lemma_read_varint(deep, tag, v, tail);
}

/// Decoding a length-delimited field applies it.
pub(crate) proof fn lemma_merge_bytes<M: Message>(deep: bool, m: M::V, tag: u32, b: Seq<u8>, tail: Seq<u8>)
    requires
        small(tag),
        b.len() <= u64::MAX,
    ensures
        merged_at::<M>(m, with_bytes(tag, b, tail), deep) == (match M::applied(m, tag, RawView::Bytes(b)) {
            Ok(m1) => merged_at::<M>(m1, tail, deep),
            Err(e) => Err(e),
        }),
{
    lemma_read_bytes(deep, tag, b, tail);
}

/// Widening and narrowing again gives the integer back.
pub proof fn law_integers_round_trip(a: i32, b: u32)
    ensures
        low_signed(extended(a)) == a,
        low_unsigned(b as u64) == b,
{
}

/// A string's UTF-8 form reads as the string.
pub proof fn law_text_round_trip(s: Seq<char>)
    ensures
        text_of(RawView::Bytes(vstd::utf8::encode_utf8(s))) == Ok::<Seq<char>, WireError>(s),
{
    vstd::utf8::encode_utf8_valid_utf8(s);
    vstd::utf8::encode_utf8_decode_utf8(s);
}

/// Decoding a string field applies it; one that was left out is empty.
pub(crate) proof fn lemma_merge_text<M: Message>(deep: bool, m: M::V, tag: u32, s: Seq<char>, tail: Seq<u8>)
    requires
        small(tag),
        vstd::utf8::encode_utf8(s).len() <= u64::MAX,
    ensures
        text_of(RawView::Bytes(vstd::utf8::encode_utf8(s))) == Ok::<Seq<char>, WireError>(s),
        vstd::utf8::encode_utf8(s).len() == 0 ==> s == Seq::<char>::empty() && with_text(tag, s, tail) == tail,
        vstd::utf8::encode_utf8(s).len() > 0 ==> merged_at::<M>(m, with_text(tag, s, tail), deep) == (
        match M::applied(m, tag, RawView::Bytes(vstd::utf8::encode_utf8(s))) {
            Ok(m1) => merged_at::<M>(m1, tail, deep),
            Err(e) => Err(e),
        }),
{
    law_text_round_trip(s);
    lemma_merge_bytes::<M>(deep, m, tag, vstd::utf8::encode_utf8(s), tail);
    if vstd::utf8::encode_utf8(s).len() == 0 {
        vstd::utf8::encode_utf8_decode_utf8(s);
        assert(vstd::utf8::encode_utf8(s) =~= Seq::<u8>::empty());
        assert(vstd::utf8::encode_utf8(Seq::<char>::empty()) =~= Seq::<u8>::empty());
        vstd::utf8::encode_utf8_decode_utf8(Seq::<char>::empty());
    }
}

fn put_key(tag: u32, wire: u8, out: &mut Vec<u8>)
    requires
        small(tag),
        wire < 8,
    ensures
        final(out)@ == old(out)@ + key(tag, wire),
{
    put_varint(tag as u64 * 8 + wire as u64, out);
}

/// Appends a signed integer field.
pub(crate) fn put_int32(tag: u32, v: i32, out: &mut Vec<u8>)
    requires
        small(tag),
    ensures
        forall|tail: Seq<u8>| final(out)@ + tail == old(out)@ + #[trigger] with_int32(tag, v, tail),
{
    if v != 0 {
        let wide: u64 = if v >= 0 {
            v as u64
        } else {
            u64::MAX - ((-(v + 1)) as u64)
        };
        assert(wide == extended(v));
        put_key(tag, VARINT, out);
        put_varint(wide, out);
    }
    assert forall|tail: Seq<u8>| out@ + tail == old(out)@ + #[trigger] with_int32(tag, v, tail) by {
        assert(out@ + tail =~= old(out)@ + with_int32(tag, v, tail));
    }
}

/// Appends an unsigned integer field.
pub(crate) fn put_uint32(tag: u32, v: u32, out: &mut Vec<u8>)
    requires
        small(tag),
    ensures
        forall|tail: Seq<u8>| final(out)@ + tail == old(out)@ + #[trigger] with_uint32(tag, v, tail),
{
    if v != 0 {
        put_key(tag, VARINT, out);
        put_varint(v as u64, out);
    }
    assert forall|tail: Seq<u8>| out@ + tail == old(out)@ + #[trigger] with_uint32(tag, v, tail) by {
        assert(out@ + tail =~= old(out)@ + with_uint32(tag, v, tail));
    }
}

/// Appends a length-delimited field.
pub(crate) fn put_bytes(tag: u32, b: &[u8], out: &mut Vec<u8>)
    requires
        small(tag),
    ensures
        b@.len() <= u64::MAX,
        forall|tail: Seq<u8>| final(out)@ + tail == old(out)@ + #[trigger] with_bytes(tag, b@, tail),
{
    put_key(tag, DELIMITED, out);
    put_varint(b.len() as u64, out);
    out.extend_from_slice(b);
    assert forall|tail: Seq<u8>| out@ + tail == old(out)@ + #[trigger] with_bytes(tag, b@, tail) by {
        assert(out@ + tail =~= old(out)@ + with_bytes(tag, b@, tail));
    }
}

/// Appends a bytes field.
pub(crate) fn put_blob(tag: u32, b: &[u8], out: &mut Vec<u8>)
    requires
        small(tag),
    ensures
        forall|tail: Seq<u8>| final(out)@ + tail == old(out)@ + #[trigger] with_blob(tag, b@, tail),
{
    if b.len() > 0 {
        put_bytes(tag, b, out);
    }
    assert forall|tail: Seq<u8>| out@ + tail == old(out)@ + #[trigger] with_blob(tag, b@, tail) by {
        if b@.len() > 0 {
            assert(out@ + tail == old(out)@ + with_bytes(tag, b@, tail));
        }
    }
}

/// Appends a string field.
pub(crate) fn put_text(tag: u32, s: &String, out: &mut Vec<u8>)
    requires
        small(tag),
    ensures
        forall|tail: Seq<u8>| final(out)@ + tail == old(out)@ + #[trigger] with_text(tag, s@, tail),
{
    put_blob(tag, s.as_str().as_bytes(), out);
    assert forall|tail: Seq<u8>| out@ + tail == old(out)@ + #[trigger] with_text(tag, s@, tail) by {
        assert(with_text(tag, s@, tail) == with_blob(tag, vstd::utf8::encode_utf8(s@), tail));
    }
}

/// Takes a signed integer field.
pub(crate) fn take_int32(raw: Raw) -> (r: Result<i32, WireError>)
    ensures
        r == int32_of(raw@),
{
    match raw {
        Raw::Varint(v) => {
            let low: u64 = v % 0x1_0000_0000;
            if low < 0x8000_0000 {
                Ok(low as i32)
            } else {
                Ok(-((0xffff_ffff - low) as i32) - 1)
            }
        },
        _ => Err(WireError::UnexpectedWireType),
    }
}

/// Takes an unsigned integer field.
pub(crate) fn take_uint32(raw: Raw) -> (r: Result<u32, WireError>)
    ensures
        r == uint32_of(raw@),
{
    match raw {
        Raw::Varint(v) => Ok((v % 0x1_0000_0000) as u32),
        _ => Err(WireError::UnexpectedWireType),
    }
}

/// Takes a bytes field.
pub(crate) fn take_blob(raw: Raw) -> (r: Result<Vec<u8>, WireError>)
    ensures
        match r {
            Ok(b) => blob_of(raw@) == Ok::<Seq<u8>, WireError>(b@),
            Err(e) => blob_of(raw@) == Err::<Seq<u8>, WireError>(e),
        },
{
    match raw {
        Raw::Bytes(b) => Ok(crate::pb::copy_bytes(b)),
        _ => Err(WireError::UnexpectedWireType),
    }
}

/// Takes a string field.
pub(crate) fn take_text(raw: Raw) -> (r: Result<String, WireError>)
    ensures
        match r {
            Ok(s) => text_of(raw@) == Ok::<Seq<char>, WireError>(s@),
            Err(e) => text_of(raw@) == Err::<Seq<char>, WireError>(e),
        },
{
    match raw {
        Raw::Bytes(b) => match utf8_string(b) {
            Some(s) => Ok(s),
            None => Err(WireError::InvalidUtf8),
        },
        _ => Err(WireError::UnexpectedWireType),
    }
}

/// Takes a field that holds a message.
pub(crate) fn take_nested<M: Message>(m: &mut M, raw: Raw) -> (r: Result<(), WireError>)
    ensures
        match r {
            Ok(()) => nested_of::<M>(old(m)@, raw@) == Ok::<M::V, WireError>(final(m)@),
            Err(e) => nested_of::<M>(old(m)@, raw@) == Err::<M::V, WireError>(e),
        },
{
    match raw {
        Raw::Bytes(b) => merge(m, b, true),
        _ => Err(WireError::UnexpectedWireType),
    }
}

/// Appends a field that holds a message.
pub(crate) fn put_message<M: Message>(tag: u32, m: &M, out: &mut Vec<u8>)
    requires
        small(tag),
    ensures
        M::encoding(m@).len() <= u64::MAX,
        final(out)@ == old(out)@ + with_message::<M>(tag, m@, Seq::empty()),
{
    let body = m.encode_to_vec();
    put_bytes(tag, body.as_slice(), out);
    assert(out@ + Seq::<u8>::empty() == old(out)@ + with_bytes(tag, body@, Seq::empty()));
    assert(out@ + Seq::<u8>::empty() =~= out@);
}

/// Appends a string field for each of `items`.
pub(crate) fn put_texts(tag: u32, items: &Vec<String>, out: &mut Vec<u8>)
    requires
        small(tag),
    ensures
        forall|tail: Seq<u8>| final(out)@ + tail == old(out)@ + #[trigger] with_blobs(
            tag,
            utf8_list(order::spelled(items@)),
            tail,
        ),
{
    let ghost all = utf8_list(order::spelled(items@));
    let mut i: usize = 0;
    assert(all.skip(0) =~= all);
    while i < items.len()
        invariant
            small(tag),
            i <= items@.len(),
            all == utf8_list(order::spelled(items@)),
            forall|tail: Seq<u8>|
                out@ + with_blobs(tag, all.skip(i as int), tail) == old(out)@ + #[trigger] with_blobs(
                    tag,
                    all,
                    tail,
                ),
        decreases items@.len() - i,
    {
        let ghost before = out@;
        assert(all.skip(i as int).drop_first() =~= all.skip(i + 1));
        assert(all.skip(i as int)[0] == vstd::utf8::encode_utf8(items@[i as int]@));
        put_bytes(tag, items[i].as_str().as_bytes(), out);
        assert forall|tail: Seq<u8>|
            out@ + with_blobs(tag, all.skip(i + 1), tail) == old(out)@ + #[trigger] with_blobs(
                tag,
                all,
                tail,
            ) by {
            let t = with_blobs(tag, all.skip(i + 1), tail);
            assert(out@ + t == before + with_bytes(tag, all.skip(i as int)[0], t));
        }
        i = i + 1;
    }
    assert forall|tail: Seq<u8>| out@ + tail == old(out)@ + #[trigger] with_blobs(tag, all, tail) by {
        assert(with_blobs(tag, all.skip(i as int), tail) == tail);
    }
}

} // verus!
