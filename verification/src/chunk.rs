use vstd::prelude::*;
use vstd::slice::{slice_subrange, slice_to_vec};

use crate::endian::{be32_at, u32_be_bytes, u32_from_be_exec};
use crate::error::Error;

verus! {

/// The mathematical content of one chunk: its type tag and its payload bytes.
/// The wire size field is determined by the payload and is not part of the
/// model.
pub ghost struct ChunkModel {
    pub tag: u32,
    pub payload: Seq<u8>,
}

/// A chunk whose payload length is representable in the 32-bit size field.
pub open spec fn chunk_model_wf(c: ChunkModel) -> bool {
    c.payload.len() <= u32::MAX
}

/// The wire bytes of one chunk: payload length and tag, each as four
/// big-endian bytes, then the payload itself.
pub open spec fn spec_chunk_bytes(c: ChunkModel) -> Seq<u8> {
    u32_be_bytes(c.payload.len() as u32) + u32_be_bytes(c.tag) + c.payload
}

/// The wire bytes of a chunk sequence: each chunk's encoding, concatenated in
/// order.
pub open spec fn spec_encode(cs: Seq<ChunkModel>) -> Seq<u8>
    decreases cs.len(),
{
    if cs.len() == 0 {
        Seq::empty()
    } else {
        spec_chunk_bytes(cs[0]) + spec_encode(cs.drop_first())
    }
}

/// Decoding a byte stream into a chunk sequence.  An empty input is an empty
/// sequence; one to seven remaining bytes are a truncated header
/// (`UnexpectedEOF`); a header whose declared payload length exceeds the
/// remaining bytes is a truncated payload (`Other`).  Tags and payload
/// contents are never inspected.
pub open spec fn spec_decode(b: Seq<u8>) -> Result<Seq<ChunkModel>, Error>
    decreases b.len(),
{
    if b.len() == 0 {
        Ok(Seq::empty())
    } else if b.len() < 8 {
        Err(Error::UnexpectedEOF)
    } else {
        let size = be32_at(b, 0) as int;
        if b.len() - 8 < size {
            Err(Error::Other)
        } else {
            let c = ChunkModel { tag: be32_at(b, 4), payload: b.subrange(8, 8 + size) };
            match spec_decode(b.skip(8 + size)) {
                Ok(rest) => Ok(seq![c] + rest),
                Err(e) => Err(e),
            }
        }
    }
}

/// One TLV unit: a 32-bit size, a 32-bit type tag, and exactly `size` payload
/// bytes.
#[derive(Debug)]
pub struct Chunk {
    size: u32,
    type_index: u32,
    data: Vec<u8>,
}

impl View for Chunk {
    type V = ChunkModel;

    closed spec fn view(&self) -> ChunkModel {
        ChunkModel { tag: self.type_index, payload: self.data@ }
    }
}

impl DeepView for Chunk {
    type V = ChunkModel;

    open spec fn deep_view(&self) -> ChunkModel {
        self.view()
    }
}

impl Chunk {
    /// The size field always counts exactly the payload bytes.
    #[verifier::type_invariant]
    spec fn size_matches(self) -> bool {
        self.size as int == self.data@.len()
    }

    /// Builds a chunk, enforcing the construction-time guard that the payload
    /// must be strictly shorter than `u32::MAX - 8` bytes.
    pub fn new(type_index: u32, data: &[u8]) -> (r: Result<Self, Error>)
        ensures
            match r {
                Ok(c) => data@.len() < u32::MAX - 8 && c@ == (ChunkModel {
                    tag: type_index,
                    payload: data@,
                }),
                Err(e) => data@.len() >= u32::MAX - 8 && e == Error::ChunkTooLarge,
            },
    {
        if (data.len() as u64) < (u32::MAX - 8) as u64 {
            Ok(Self { size: data.len() as u32, type_index, data: slice_to_vec(data) })
        } else {
            Err(Error::ChunkTooLarge)
        }
    }

    /// The wire encoding of this chunk alone.
    pub fn to_owned_bytes(&self) -> (r: Vec<u8>)
        ensures
            r@ == spec_chunk_bytes(self@),
    {
        proof {
            use_type_invariant(self);
        }
        let mut result: Vec<u8> = Vec::new();
        result.push((self.size >> 24) as u8);
        result.push((self.size >> 16) as u8);
        result.push((self.size >> 8) as u8);
        result.push(self.size as u8);
        result.push((self.type_index >> 24) as u8);
        result.push((self.type_index >> 16) as u8);
        result.push((self.type_index >> 8) as u8);
        result.push(self.type_index as u8);
        append_bytes(&mut result, self.data.as_slice());
        proof {
            assert(result@ =~= spec_chunk_bytes(self@));
        }
        result
    }

    pub fn get_type(&self) -> (r: u32)
        ensures
            r == self@.tag,
    {
        self.type_index
    }

    pub fn get_data(&self) -> (r: &[u8])
        ensures
            r@ == self@.payload,
    {
        self.data.as_slice()
    }
}

/// An ordered sequence of chunks, as carried on the wire.
#[derive(Debug)]
pub struct Chunks(Vec<Chunk>);

impl View for Chunks {
    type V = Seq<ChunkModel>;

    closed spec fn view(&self) -> Seq<ChunkModel> {
        self.0.deep_view()
    }
}

impl Chunks {
    pub fn from_vec(chunks: Vec<Chunk>) -> (r: Self)
        ensures
            r@ == chunks.deep_view(),
    {
        Self(chunks)
    }

    /// Splits a byte stream into chunks, exactly as `spec_decode` describes.
    pub fn from_bytes(bytes: &[u8]) -> (r: Result<Self, Error>)
        ensures
            match r {
                Ok(cs) => spec_decode(bytes@) == Ok::<Seq<ChunkModel>, Error>(cs@),
                Err(e) => spec_decode(bytes@) == Err::<Seq<ChunkModel>, Error>(e),
            },
    {
        let n = bytes.len();
        let mut chunks: Vec<Chunk> = Vec::new();
        let mut i: usize = 0;
        proof {
            assert(bytes@.skip(0) =~= bytes@);
            assert(chunks.deep_view() =~= Seq::<ChunkModel>::empty());
            if let Ok(rest) = spec_decode(bytes@) {
                assert(chunks.deep_view() + rest =~= rest);
            }
        }
        while i < n
            invariant
                i <= n,
                spec_decode(bytes@) == (match spec_decode(bytes@.skip(i as int)) {
                    Ok(rest) => Ok::<Seq<ChunkModel>, Error>(chunks.deep_view() + rest),
                    Err(e) => Err::<Seq<ChunkModel>, Error>(e),
                }),
            decreases n - i,
        {
            let ghost rem = bytes@.skip(i as int);
            if n - i < 8 {
                return Err(Error::UnexpectedEOF);
            }
            let size = u32_from_be_exec(bytes[i], bytes[i + 1], bytes[i + 2], bytes[i + 3]);
            let type_index = u32_from_be_exec(
                bytes[i + 4],
                bytes[i + 5],
                bytes[i + 6],
                bytes[i + 7],
            );
            proof {
                assert(rem.len() == n - i);
                assert(rem[0] == bytes@[i as int]);
                assert(be32_at(rem, 0) == size);
                assert(be32_at(rem, 4) == type_index);
            }
            if ((n - i - 8) as u64) < (size as u64) {
                return Err(Error::Other);
            }
            let size_us = size as usize;
            let data = slice_to_vec(slice_subrange(bytes, i + 8, i + 8 + size_us));
            proof {
                assert(data@ =~= rem.subrange(8, 8 + size as int));
            }
            proof {
                assert(spec_decode(rem) == (match spec_decode(rem.skip(8 + size as int)) {
                    Ok(rest) => Ok::<Seq<ChunkModel>, Error>(
                        seq![ChunkModel { tag: type_index, payload: data@ }] + rest,
                    ),
                    Err(e) => Err::<Seq<ChunkModel>, Error>(e),
                }));
            }
            let chunk = Chunk { size, type_index, data };
            let ghost prev = chunks.deep_view();
            chunks.push(chunk);
            i = i + 8 + size_us;
            proof {
                assert(chunks.deep_view() =~= prev.push(chunk@));
                assert(bytes@.skip(i as int) =~= rem.skip(8 + size as int));
                lemma_compose_decode(prev, chunk@, bytes@, i as int);
            }
        }
        proof {
            assert(bytes@.skip(n as int) =~= Seq::<u8>::empty());
        }
        Ok(Self(chunks))
    }

    /// The wire encoding of the whole sequence.
    pub fn to_bytes(&self) -> (r: Vec<u8>)
        ensures
            r@ == spec_encode(self@),
    {
        let mut bytes: Vec<u8> = Vec::new();
        let n = self.0.len();
        let mut i: usize = 0;
        while i < n
            invariant
                i <= n,
                bytes@ == spec_encode(self@.take(i as int)),
            decreases n - i,
        {
            let ci: &Chunk = &self.0[i];
            let piece = ci.to_owned_bytes();
            append_bytes(&mut bytes, piece.as_slice());
            proof {
                assert(self@.take(i + 1).drop_last() =~= self@.take(i as int));
                lemma_encode_push(self@.take(i as int), self@[i as int]);
                assert(self@.take(i + 1) =~= self@.take(i as int).push(self@[i as int]));
            }
            i = i + 1;
        }
        proof {
            assert(self@.take(n as int) =~= self@);
        }
        bytes
    }

    pub fn iter(&self) -> (r: &Vec<Chunk>)
        ensures
            r.deep_view() == self@,
    {
        &self.0
    }

    pub fn into_iter(self) -> (r: Vec<Chunk>)
        ensures
            r.deep_view() == self@,
    {
        self.0
    }
}

/// Appends all of `src` to `dst`.
pub fn append_bytes(dst: &mut Vec<u8>, src: &[u8])
    ensures
        final(dst)@ == old(dst)@ + src@,
{
    let n = src.len();
    let mut i: usize = 0;
    while i < n
        invariant
            i <= n,
            dst@ == old(dst)@ + src@.take(i as int),
        decreases n - i,
    {
        dst.push(src[i]);
        proof {
            assert(old(dst)@ + src@.take(i + 1) =~= (old(dst)@ + src@.take(i as int)).push(
                src@[i as int],
            ));
        }
        i = i + 1;
    }
    proof {
        assert(old(dst)@ + src@.take(n as int) =~= old(dst)@ + src@);
    }
}

/// Encoding one more chunk appends its bytes to the encoding so far.
pub proof fn lemma_encode_push(cs: Seq<ChunkModel>, c: ChunkModel)
    ensures
        spec_encode(cs.push(c)) == spec_encode(cs) + spec_chunk_bytes(c),
    decreases cs.len(),
{
    if cs.len() == 0 {
        let s = cs.push(c);
        assert(s[0] == c);
        assert(s.drop_first().len() == 0);
        assert(spec_encode(s.drop_first()) == Seq::<u8>::empty());
        assert(spec_encode(s) == spec_chunk_bytes(c) + Seq::<u8>::empty());
        assert(spec_chunk_bytes(c) + Seq::<u8>::empty() =~= spec_chunk_bytes(c));
        assert(spec_encode(cs) == Seq::<u8>::empty());
        assert(spec_encode(cs) + spec_chunk_bytes(c) =~= spec_chunk_bytes(c));
    } else {
        lemma_encode_push(cs.drop_first(), c);
        assert(cs.push(c).drop_first() =~= cs.drop_first().push(c));
        assert(cs.push(c)[0] == cs[0]);
        assert(spec_chunk_bytes(cs[0]) + (spec_encode(cs.drop_first()) + spec_chunk_bytes(c))
            =~= (spec_chunk_bytes(cs[0]) + spec_encode(cs.drop_first())) + spec_chunk_bytes(c));
    }
}

/// Decoding a buffer that starts with one whole chunk's bytes yields that
/// chunk, then whatever the rest of the buffer decodes to.
pub proof fn lemma_decode_chunk_prefix(c: ChunkModel, tail: Seq<u8>)
    requires
        chunk_model_wf(c),
    ensures
        spec_decode(spec_chunk_bytes(c) + tail) == (match spec_decode(tail) {
            Ok(rest) => Ok::<Seq<ChunkModel>, Error>(seq![c] + rest),
            Err(e) => Err::<Seq<ChunkModel>, Error>(e),
        }),
{
    let cb = spec_chunk_bytes(c);
    let b = cb + tail;
    let len = c.payload.len() as int;
    crate::endian::lemma_u32_be_round_trip(c.payload.len() as u32);
    crate::endian::lemma_u32_be_round_trip(c.tag);
    assert(cb.len() == 8 + len);
    assert forall|k: int| 0 <= k < 4 implies b[k] == u32_be_bytes(c.payload.len() as u32)[k] by {
        assert(b[k] == cb[k]);
    }
    assert(be32_at(b, 0) == c.payload.len() as u32);
    assert forall|k: int| 0 <= k < 4 implies b[4 + k] == u32_be_bytes(c.tag)[k] by {
        assert(b[4 + k] == cb[4 + k]);
    }
    assert(be32_at(b, 4) == c.tag);
    assert(b.subrange(8, 8 + len) =~= c.payload);
    assert(b.skip(8 + len) =~= tail);
}

/// Chunk codec round trip: decoding the encoding of any chunk sequence gives
/// back exactly that sequence.
#[verifier::rlimit(60)]
pub proof fn lemma_codec_round_trip(cs: Seq<ChunkModel>)
    requires
        forall|i: int| 0 <= i < cs.len() ==> chunk_model_wf(#[trigger] cs[i]),
    ensures
        spec_decode(spec_encode(cs)) == Ok::<Seq<ChunkModel>, Error>(cs),
    decreases cs.len(),
{
    if cs.len() == 0 {
        assert(spec_encode(cs).len() == 0);
        assert(cs =~= Seq::<ChunkModel>::empty());
    } else {
        let rest = cs.drop_first();
        assert forall|i: int| 0 <= i < rest.len() implies chunk_model_wf(#[trigger] rest[i]) by {
            assert(rest[i] == cs[i + 1]);
        }
        lemma_codec_round_trip(rest);
        lemma_decode_chunk_prefix(cs[0], spec_encode(rest));
        assert(spec_decode(spec_chunk_bytes(cs[0]) + spec_encode(rest)) == Ok::<
            Seq<ChunkModel>,
            Error,
        >(seq![cs[0]] + rest));
        assert(spec_encode(cs) == spec_chunk_bytes(cs[0]) + spec_encode(rest));
        assert(seq![cs[0]] + rest =~= cs);
    }
}

/// Truncation: a buffer that ends inside the final chunk's declared payload
/// never decodes and never yields a short chunk; it fails with the
/// truncated-payload error.
pub proof fn lemma_truncated_payload(cs: Seq<ChunkModel>, declared: u32, tag: u32, partial: Seq<u8>)
    requires
        forall|i: int| 0 <= i < cs.len() ==> chunk_model_wf(#[trigger] cs[i]),
        partial.len() < declared,
    ensures
        spec_decode(spec_encode(cs) + u32_be_bytes(declared) + u32_be_bytes(tag) + partial)
            == Err::<Seq<ChunkModel>, Error>(Error::Other),
    decreases cs.len(),
{
    let t = u32_be_bytes(declared) + u32_be_bytes(tag) + partial;
    crate::endian::lemma_u32_be_round_trip(declared);
    assert forall|k: int| 0 <= k < 4 implies t[k] == u32_be_bytes(declared)[k] by {}
    assert(be32_at(t, 0) == declared);
    assert(t.len() - 8 < declared);
    assert(spec_decode(t) == Err::<Seq<ChunkModel>, Error>(Error::Other));
    if cs.len() == 0 {
        assert(spec_encode(cs) + u32_be_bytes(declared) + u32_be_bytes(tag) + partial =~= t);
    } else {
        lemma_truncated_payload(cs.drop_first(), declared, tag, partial);
        let tail = spec_encode(cs.drop_first()) + u32_be_bytes(declared) + u32_be_bytes(tag)
            + partial;
        lemma_decode_chunk_prefix(cs[0], tail);
        assert(spec_encode(cs) + u32_be_bytes(declared) + u32_be_bytes(tag) + partial
            =~= spec_chunk_bytes(cs[0]) + tail);
    }
}

/// Truncation: a buffer that ends inside a chunk header (one to seven bytes
/// where a header should start) never decodes; it fails with `UnexpectedEOF`.
pub proof fn lemma_truncated_header(cs: Seq<ChunkModel>, extra: Seq<u8>)
    requires
        forall|i: int| 0 <= i < cs.len() ==> chunk_model_wf(#[trigger] cs[i]),
        1 <= extra.len() < 8,
    ensures
        spec_decode(spec_encode(cs) + extra) == Err::<Seq<ChunkModel>, Error>(
            Error::UnexpectedEOF,
        ),
    decreases cs.len(),
{
    if cs.len() == 0 {
        assert(spec_encode(cs) + extra =~= extra);
    } else {
        lemma_truncated_header(cs.drop_first(), extra);
        let tail = spec_encode(cs.drop_first()) + extra;
        lemma_decode_chunk_prefix(cs[0], tail);
        assert(spec_encode(cs) + extra =~= spec_chunk_bytes(cs[0]) + tail);
    }
}

/// Used by `from_bytes`: consuming one decoded chunk commutes with collecting
/// the chunks already decoded.
proof fn lemma_compose_decode(prev: Seq<ChunkModel>, c: ChunkModel, b: Seq<u8>, i: int)
    requires
        0 <= i <= b.len(),
    ensures
        (match spec_decode(b.skip(i)) {
            Ok(rest) => Ok::<Seq<ChunkModel>, Error>(prev.push(c) + rest),
            Err(e) => Err::<Seq<ChunkModel>, Error>(e),
        }) == (match (match spec_decode(b.skip(i)) {
            Ok(rest) => Ok::<Seq<ChunkModel>, Error>(seq![c] + rest),
            Err(e) => Err::<Seq<ChunkModel>, Error>(e),
        }) {
            Ok(rest) => Ok::<Seq<ChunkModel>, Error>(prev + rest),
            Err(e) => Err::<Seq<ChunkModel>, Error>(e),
        }),
{
    match spec_decode(b.skip(i)) {
        Ok(rest) => {
            assert(prev.push(c) + rest =~= prev + (seq![c] + rest));
        },
        Err(_) => {},
    }
}

} // verus!
