//! Messages of the Reed-Solomon strategy.

use vstd::prelude::*;

use crate::pb;
use crate::pb::wire;
use crate::pb::wire::{Message, Raw, RawView};
use crate::pb::WireError;

verus! {

/// Describes an encoded message: its shape and the digests of its shards.
#[derive(Debug, PartialEq, Eq)]
pub struct Preamble {
    pub num_data: i32,
    pub num_parity: i32,
    pub length: i32,
    pub hashes: Vec<Vec<u8>>,
    pub hash: Vec<u8>,
}

/// Contents of a [`Preamble`].
#[verifier::ext_equal]
pub ghost struct PreambleView {
    pub num_data: i32,
    pub num_parity: i32,
    pub length: i32,
    pub hashes: Seq<Seq<u8>>,
    pub hash: Seq<u8>,
}

impl View for Preamble {
    type V = PreambleView;

    open spec fn view(&self) -> PreambleView {
        PreambleView {
            num_data: self.num_data,
            num_parity: self.num_parity,
            length: self.length,
            hashes: pb::contents(self.hashes@),
            hash: self.hash@,
        }
    }
}

impl Clone for Preamble {
    fn clone(&self) -> (r: Self)
        ensures
            r@ == self@,
    {
        Preamble {
            num_data: self.num_data,
            num_parity: self.num_parity,
            length: self.length,
            hashes: pb::copy_list(&self.hashes),
            hash: pb::copy_bytes(self.hash.as_slice()),
        }
    }
}

impl Preamble {
    /// The preamble that `bytes` encode.
    pub fn decode(bytes: &[u8]) -> (r: Result<Preamble, WireError>)
        ensures
            match r {
                Ok(m) => wire::merged::<Preamble>(Preamble::blank(), bytes@) == Ok::<
                    PreambleView,
                    WireError,
                >(m@),
                Err(e) => wire::merged::<Preamble>(Preamble::blank(), bytes@) == Err::<
                    PreambleView,
                    WireError,
                >(e),
            },
    {
        wire::decode_message(bytes)
    }
}

impl Message for Preamble {
    open spec fn blank() -> PreambleView {
        PreambleView {
            num_data: 0,
            num_parity: 0,
            length: 0,
            hashes: Seq::empty(),
            hash: Seq::empty(),
        }
    }

    open spec fn applied(v: PreambleView, tag: u32, raw: RawView) -> Result<PreambleView, WireError> {
        if tag == 1 {
            match wire::int32_of(raw) {
                Ok(num_data) => Ok(PreambleView { num_data, ..v }),
                Err(e) => Err(e),
            }
        } else if tag == 2 {
            match wire::int32_of(raw) {
                Ok(num_parity) => Ok(PreambleView { num_parity, ..v }),
                Err(e) => Err(e),
            }
        } else if tag == 3 {
            match wire::int32_of(raw) {
                Ok(length) => Ok(PreambleView { length, ..v }),
                Err(e) => Err(e),
            }
        } else if tag == 4 {
            match wire::blob_of(raw) {
                Ok(h) => Ok(PreambleView { hashes: v.hashes.push(h), ..v }),
                Err(e) => Err(e),
            }
        } else if tag == 5 {
            match wire::blob_of(raw) {
                Ok(hash) => Ok(PreambleView { hash, ..v }),
                Err(e) => Err(e),
            }
        } else {
            Ok(v)
        }
    }

    open spec fn encoding(v: PreambleView) -> Seq<u8> {
        wire::with_int32(
            1,
            v.num_data,
            wire::with_int32(
                2,
                v.num_parity,
                wire::with_int32(
                    3,
                    v.length,
                    wire::with_blobs(4, v.hashes, wire::with_blob(5, v.hash, Seq::empty())),
                ),
            ),
        )
    }

    fn new_blank() -> (r: Self) {
        let r = Preamble {
            num_data: 0,
            num_parity: 0,
            length: 0,
            hashes: Vec::new(),
            hash: Vec::new(),
        };
        assert(r@ =~= Self::blank());
        r
    }

    fn merge_field(&mut self, tag: u32, raw: Raw) -> (r: Result<(), WireError>) {
        if tag == 1 {
            match wire::take_int32(raw) {
                Ok(v) => {
                    self.num_data = v;
                    Ok(())
                },
                Err(e) => Err(e),
            }
        } else if tag == 2 {
            match wire::take_int32(raw) {
                Ok(v) => {
                    self.num_parity = v;
                    Ok(())
                },
                Err(e) => Err(e),
            }
        } else if tag == 3 {
            match wire::take_int32(raw) {
                Ok(v) => {
                    self.length = v;
                    Ok(())
                },
                Err(e) => Err(e),
            }
        } else if tag == 4 {
            match wire::take_blob(raw) {
                Ok(h) => {
                    let ghost before = pb::contents(self.hashes@);
                    self.hashes.push(h);
                    assert(pb::contents(self.hashes@) =~= before.push(h@));
                    Ok(())
                },
                Err(e) => Err(e),
            }
        } else if tag == 5 {
            match wire::take_blob(raw) {
                Ok(h) => {
                    self.hash = h;
                    Ok(())
                },
                Err(e) => Err(e),
            }
        } else {
            Ok(())
        }
    }

    fn encode(&self, out: &mut Vec<u8>) {
        let ghost t5 = wire::with_blob(5, self@.hash, Seq::empty());
        let ghost t4 = wire::with_blobs(4, self@.hashes, t5);
        let ghost t3 = wire::with_int32(3, self@.length, t4);
        let ghost t2 = wire::with_int32(2, self@.num_parity, t3);
        wire::put_int32(1, self.num_data, out);
        assert(out@ + t2 == old(out)@ + Self::encoding(self@));
        wire::put_int32(2, self.num_parity, out);
        assert(out@ + t3 == old(out)@ + Self::encoding(self@));
        wire::put_int32(3, self.length, out);
        assert(out@ + t4 == old(out)@ + Self::encoding(self@));
        let mut i: usize = 0;
        assert(self@.hashes.skip(0) =~= self@.hashes);
        while i < self.hashes.len()
            invariant
                i <= self.hashes@.len(),
                out@ + wire::with_blobs(4, self@.hashes.skip(i as int), t5) == old(out)@ + Self::encoding(self@),
            decreases self.hashes@.len() - i,
        {
            assert(self@.hashes.skip(i as int).drop_first() =~= self@.hashes.skip(i + 1));
            assert(self@.hashes.skip(i as int)[0] == self.hashes@[i as int]@);
            wire::put_bytes(4, self.hashes[i].as_slice(), out);
            i = i + 1;
        }
        assert(out@ + t5 == old(out)@ + Self::encoding(self@));
        wire::put_blob(5, self.hash.as_slice(), out);
        assert(out@ + Seq::<u8>::empty() =~= out@);
    }
}

proof fn lemma_hashes_merge(m: PreambleView, hashes: Seq<Seq<u8>>, tail: Seq<u8>)
    requires
        forall|i: int| 0 <= i < hashes.len() ==> (#[trigger] hashes[i]).len() <= u64::MAX,
    ensures
        wire::merged::<Preamble>(m, wire::with_blobs(4, hashes, tail)) == wire::merged::<Preamble>(
            PreambleView { hashes: m.hashes + hashes, ..m },
            tail,
        ),
    decreases hashes.len(),
{
    if hashes.len() == 0 {
        assert(m.hashes + hashes =~= m.hashes);
    } else {
        let rest = hashes.drop_first();
        wire::lemma_merge_bytes::<Preamble>(false, m, 4, hashes[0], wire::with_blobs(4, rest, tail));
        let m1 = PreambleView { hashes: m.hashes.push(hashes[0]), ..m };
        assert forall|i: int| 0 <= i < rest.len() implies (#[trigger] rest[i]).len() <= u64::MAX by {
            assert(rest[i] == hashes[i + 1]);
        }
        lemma_hashes_merge(m1, rest, tail);
        assert(m1.hashes + rest =~= m.hashes + hashes);
    }
}

/// Decoding the encoding of a preamble gives the preamble back.
pub proof fn law_preamble_round_trip(v: PreambleView)
    requires
        v.hash.len() <= u64::MAX,
        forall|i: int| 0 <= i < v.hashes.len() ==> (#[trigger] v.hashes[i]).len() <= u64::MAX,
    ensures
        wire::merged::<Preamble>(Preamble::blank(), Preamble::encoding(v)) == Ok::<
            PreambleView,
            WireError,
        >(v),
{
    let t5 = wire::with_blob(5, v.hash, Seq::empty());
    let t4 = wire::with_blobs(4, v.hashes, t5);
    let t3 = wire::with_int32(3, v.length, t4);
    let t2 = wire::with_int32(2, v.num_parity, t3);
    let m0 = Preamble::blank();
    let m1 = PreambleView { num_data: v.num_data, ..m0 };
    let m2 = PreambleView { num_parity: v.num_parity, ..m1 };
    let m3 = PreambleView { length: v.length, ..m2 };
    wire::law_integers_round_trip(v.num_data, 0);
    wire::law_integers_round_trip(v.num_parity, 0);
    wire::law_integers_round_trip(v.length, 0);
    wire::lemma_merge_varint::<Preamble>(false, m0, 1, wire::extended(v.num_data), t2);
    assert(wire::merged::<Preamble>(m0, Preamble::encoding(v)) == wire::merged::<Preamble>(m1, t2));
    wire::lemma_merge_varint::<Preamble>(false, m1, 2, wire::extended(v.num_parity), t3);
    wire::lemma_merge_varint::<Preamble>(false, m2, 3, wire::extended(v.length), t4);
    lemma_hashes_merge(m3, v.hashes, t5);
    let m4 = PreambleView { hashes: m3.hashes + v.hashes, ..m3 };
    assert(m4.hashes =~= v.hashes);
    wire::lemma_merge_bytes::<Preamble>(false, m4, 5, v.hash, Seq::empty());
    if v.hash.len() == 0 {
        assert(v.hash =~= m4.hash);
    }
    assert(PreambleView { hash: v.hash, ..m4 } =~= v);
}

/// Identifies a chunk of the Reed-Solomon strategy by its shard index.
#[derive(Debug, Clone, Copy, PartialEq, Eq, Structural)]
pub struct ChunkIdent {
    pub index: i32,
}

impl View for ChunkIdent {
    type V = ChunkIdent;

    open spec fn view(&self) -> ChunkIdent {
        *self
    }
}

impl ChunkIdent {
    /// The identifier that `bytes` encode.
    pub fn decode(bytes: &[u8]) -> (r: Result<ChunkIdent, WireError>)
        ensures
            r == wire::merged::<ChunkIdent>(ChunkIdent::blank(), bytes@),
    {
        wire::decode_message(bytes)
    }
}

impl Message for ChunkIdent {
    open spec fn blank() -> ChunkIdent {
        ChunkIdent { index: 0 }
    }

    open spec fn applied(v: ChunkIdent, tag: u32, raw: RawView) -> Result<ChunkIdent, WireError> {
        if tag == 1 {
            match wire::int32_of(raw) {
                Ok(index) => Ok(ChunkIdent { index }),
                Err(e) => Err(e),
            }
        } else {
            Ok(v)
        }
    }

    open spec fn encoding(v: ChunkIdent) -> Seq<u8> {
        wire::with_int32(1, v.index, Seq::empty())
    }

    fn new_blank() -> (r: Self) {
        ChunkIdent { index: 0 }
    }

    fn merge_field(&mut self, tag: u32, raw: Raw) -> (r: Result<(), WireError>) {
        if tag == 1 {
            match wire::take_int32(raw) {
                Ok(v) => {
                    self.index = v;
                    Ok(())
                },
                Err(e) => Err(e),
            }
        } else {
            Ok(())
        }
    }

    fn encode(&self, out: &mut Vec<u8>) {
        wire::put_int32(1, self.index, out);
        assert(out@ + Seq::<u8>::empty() =~= out@);
    }
}

/// Decoding the encoding of a chunk identifier gives it back.
pub proof fn law_chunk_ident_round_trip(v: ChunkIdent)
    ensures
        wire::merged::<ChunkIdent>(ChunkIdent::blank(), ChunkIdent::encoding(v)) == Ok::<
            ChunkIdent,
            WireError,
        >(v),
{
    wire::law_integers_round_trip(v.index, 0);
    wire::lemma_merge_varint::<ChunkIdent>(false, ChunkIdent::blank(),
        1,
        wire::extended(v.index),
        Seq::empty(),
    );
}

} // verus!
