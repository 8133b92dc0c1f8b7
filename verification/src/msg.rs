//! The messages of the toy CDN wire protocol, and the binary form of trace
//! events: fixed-size little-endian frames, eight bytes of key, and for
//! origin responses a fixed-size opaque payload.
use vstd::prelude::*;

use crate::RequestEvent;
use crate::RequestId;
use crate::TimeUnit;
use crate::codec::Codec;
use crate::codec::CodecSize;
use vstd::bytes::spec_u64_from_le_bytes;
use vstd::bytes::spec_u64_to_le_bytes;
use vstd::bytes::u64_from_le_bytes;
use vstd::bytes::u64_to_le_bytes;

verus! {

broadcast use vstd::std_specs::vec::group_vec_axioms;

/// The number of opaque payload bytes in an origin response.
pub const PAYLOAD_SIZE: usize = 8;

impl Codec for RequestEvent<RequestId> {
    open spec fn encoding(&self) -> Seq<u8> {
        spec_u64_to_le_bytes(self.key) + spec_u64_to_le_bytes(self.timestamp)
    }

    proof fn lemma_prefix_free(a: Self, b: Self, ra: Seq<u8>, rb: Seq<u8>) {
        vstd::bytes::lemma_auto_spec_u64_to_from_le_bytes();
        let whole = a.encoding() + ra;
        assert(spec_u64_to_le_bytes(a.key) =~= whole.subrange(0, 8));
        assert(spec_u64_to_le_bytes(b.key) =~= whole.subrange(0, 8));
        assert(spec_u64_to_le_bytes(a.timestamp) =~= whole.subrange(8, 16));
        assert(spec_u64_to_le_bytes(b.timestamp) =~= whole.subrange(8, 16));
        assert(a.encoding() =~= b.encoding());
    }

    proof fn lemma_encoding_positive(v: Self) {
        vstd::bytes::lemma_auto_spec_u64_to_from_le_bytes();
    }

    fn size_in_bytes(&self) -> (n: usize) {
        proof {
            vstd::bytes::lemma_auto_spec_u64_to_from_le_bytes();
        }
        16
    }

    fn size_static() -> (r: CodecSize)
        ensures
            r == CodecSize::Static(16),
    {
        proof {
            vstd::bytes::lemma_auto_spec_u64_to_from_le_bytes();
        }
        CodecSize::Static(16)
    }

    fn to_bytes(&self, out: &mut Vec<u8>) {
        let mut k = u64_to_le_bytes(self.key);
        out.append(&mut k);
        let mut t = u64_to_le_bytes(self.timestamp);
        out.append(&mut t);
        proof {
            assert(final(out)@ =~= old(out)@ + self.encoding());
        }
    }

    fn from_bytes(input: &Vec<u8>, pos: usize) -> (r: Option<(Self, usize)>) {
        proof {
            vstd::bytes::lemma_auto_spec_u64_to_from_le_bytes();
        }
        if input.len() - pos >= 16 {
            let ks = vstd::slice::slice_subrange(input.as_slice(), pos, pos + 8);
            let key = u64_from_le_bytes(ks);
            let ts = vstd::slice::slice_subrange(input.as_slice(), pos + 8, pos + 16);
            let timestamp = u64_from_le_bytes(ts);
            let ev = RequestEvent { key, timestamp };
            proof {
                assert(ev.encoding() =~= input@.subrange(pos as int, pos + 16));
            }
            Some((ev, pos + 16))
        } else {
            None
        }
    }
}

/// A message on the TCP stream between CDN node and origin: one key.
#[derive(Debug, Eq, PartialEq, Clone, Copy, Structural)]
pub struct Message {
    pub key: RequestId,
}

impl Message {
    /// A message carrying `key`.
    pub fn new(key: RequestId) -> (r: Self)
        ensures
            r.key == key,
    {
        Message { key }
    }
}

impl Codec for Message {
    open spec fn encoding(&self) -> Seq<u8> {
        spec_u64_to_le_bytes(self.key)
    }

    proof fn lemma_prefix_free(a: Self, b: Self, ra: Seq<u8>, rb: Seq<u8>) {
        vstd::bytes::lemma_auto_spec_u64_to_from_le_bytes();
        let whole = a.encoding() + ra;
        assert(spec_u64_to_le_bytes(a.key) =~= whole.subrange(0, 8));
        assert(spec_u64_to_le_bytes(b.key) =~= whole.subrange(0, 8));
        assert(a.encoding() =~= b.encoding());
    }

    proof fn lemma_encoding_positive(v: Self) {
        vstd::bytes::lemma_auto_spec_u64_to_from_le_bytes();
    }

    fn size_in_bytes(&self) -> (n: usize) {
        proof {
            vstd::bytes::lemma_auto_spec_u64_to_from_le_bytes();
        }
        8
    }

    fn size_static() -> (r: CodecSize)
        ensures
            r == CodecSize::Static(8),
    {
        proof {
            vstd::bytes::lemma_auto_spec_u64_to_from_le_bytes();
        }
        CodecSize::Static(8)
    }

    fn to_bytes(&self, out: &mut Vec<u8>) {
        let mut k = u64_to_le_bytes(self.key);
        out.append(&mut k);
    }

    fn from_bytes(input: &Vec<u8>, pos: usize) -> (r: Option<(Self, usize)>) {
        proof {
            vstd::bytes::lemma_auto_spec_u64_to_from_le_bytes();
        }
        if input.len() - pos >= 8 {
            let ks = vstd::slice::slice_subrange(input.as_slice(), pos, pos + 8);
            let key = u64_from_le_bytes(ks);
            let m = Message { key };
            proof {
                assert(m.encoding() =~= input@.subrange(pos as int, pos + 8));
            }
            Some((m, pos + 8))
        } else {
            None
        }
    }
}

/// The request frame a CDN node sends to the origin: eight bytes of key.
#[derive(Debug, Eq, PartialEq, Clone, Copy, Structural)]
pub struct CdnRequestMessage {
    pub key: RequestId,
}

impl CdnRequestMessage {
    /// A request frame for `key`.
    pub fn new(key: RequestId) -> (r: Self)
        ensures
            r.key == key,
    {
        CdnRequestMessage { key }
    }
}

impl Codec for CdnRequestMessage {
    open spec fn encoding(&self) -> Seq<u8> {
        spec_u64_to_le_bytes(self.key)
    }

    proof fn lemma_prefix_free(a: Self, b: Self, ra: Seq<u8>, rb: Seq<u8>) {
        vstd::bytes::lemma_auto_spec_u64_to_from_le_bytes();
        let whole = a.encoding() + ra;
        assert(spec_u64_to_le_bytes(a.key) =~= whole.subrange(0, 8));
        assert(spec_u64_to_le_bytes(b.key) =~= whole.subrange(0, 8));
        assert(a.encoding() =~= b.encoding());
    }

    proof fn lemma_encoding_positive(v: Self) {
        vstd::bytes::lemma_auto_spec_u64_to_from_le_bytes();
    }

    fn size_in_bytes(&self) -> (n: usize) {
        proof {
            vstd::bytes::lemma_auto_spec_u64_to_from_le_bytes();
        }
        8
    }

    fn size_static() -> (r: CodecSize)
        ensures
            r == CodecSize::Static(8),
    {
        proof {
            vstd::bytes::lemma_auto_spec_u64_to_from_le_bytes();
        }
        CodecSize::Static(8)
    }

    fn to_bytes(&self, out: &mut Vec<u8>) {
        let mut k = u64_to_le_bytes(self.key);
        out.append(&mut k);
    }

    fn from_bytes(input: &Vec<u8>, pos: usize) -> (r: Option<(Self, usize)>) {
        proof {
            vstd::bytes::lemma_auto_spec_u64_to_from_le_bytes();
        }
        if input.len() - pos >= 8 {
            let ks = vstd::slice::slice_subrange(input.as_slice(), pos, pos + 8);
            let key = u64_from_le_bytes(ks);
            let m = CdnRequestMessage { key };
            proof {
                assert(m.encoding() =~= input@.subrange(pos as int, pos + 8));
            }
            Some((m, pos + 8))
        } else {
            None
        }
    }
}

/// The opaque payload of an origin response: exactly `N` bytes whose content
/// the CDN node ignores.
#[derive(Debug, Eq, PartialEq, Clone)]
pub struct FixedSizeResponsePayload<const N: usize> {
    pub content: Vec<u8>,
}

impl<const N: usize> FixedSizeResponsePayload<N> {
    /// Exactly `N` bytes of payload.
    pub open spec fn wf(&self) -> bool {
        self.content@.len() == N
    }

    /// A payload of the given bytes.
    pub fn new(content: Vec<u8>) -> (r: Self)
        requires
            content@.len() == N,
        ensures
            r.content@ == content@,
            r.wf(),
    {
        FixedSizeResponsePayload { content }
    }

    /// The all-zero payload.
    pub fn zeroed() -> (r: Self)
        ensures
            r.wf(),
            forall|i: int| 0 <= i < N ==> r.content@[i] == 0u8,
    {
        let mut content: Vec<u8> = Vec::new();
        let mut i: usize = 0;
        while i < N
            invariant
                i <= N,
                content@.len() == i,
                forall|j: int| 0 <= j < i ==> content@[j] == 0u8,
            decreases N - i,
        {
            content.push(0u8);
            i += 1;
        }
        FixedSizeResponsePayload { content }
    }
}

/// The response frame the origin sends back: the key, then `PAYLOAD_SIZE`
/// opaque payload bytes.
#[derive(Debug, Eq, PartialEq, Clone)]
pub struct OriginResponseMessage {
    pub key: RequestId,
    pub payload: FixedSizeResponsePayload<PAYLOAD_SIZE>,
}

impl OriginResponseMessage {
    /// A well-formed response frame.
    pub open spec fn wf(&self) -> bool {
        self.payload.wf()
    }

    /// A response frame for `key` with the given payload.
    pub fn new(key: RequestId, payload: FixedSizeResponsePayload<PAYLOAD_SIZE>) -> (r: Self)
        requires
            payload.wf(),
        ensures
            r.key == key,
            r.payload.content@ == payload.content@,
            r.wf(),
    {
        OriginResponseMessage { key, payload }
    }

    /// The frame's bytes: the key, little-endian, then the payload.
    pub open spec fn frame(&self) -> Seq<u8> {
        spec_u64_to_le_bytes(self.key) + self.payload.content@
    }

    /// Append the frame's bytes to `out`.
    pub fn to_bytes(&self, out: &mut Vec<u8>)
        requires
            self.wf(),
        ensures
            final(out)@ == old(out)@ + self.frame(),
            final(out)@.len() == old(out)@.len() + 8 + PAYLOAD_SIZE,
    {
        proof {
            vstd::bytes::lemma_auto_spec_u64_to_from_le_bytes();
        }
        let mut k = u64_to_le_bytes(self.key);
        out.append(&mut k);
        let mut i: usize = 0;
        let ghost mid = out@;
        while i < self.payload.content.len()
            invariant
                i <= self.payload.content@.len(),
                out@ == mid + self.payload.content@.take(i as int),
            decreases self.payload.content@.len() - i,
        {
            out.push(self.payload.content[i]);
            proof {
                assert(mid + self.payload.content@.take(i as int) + seq![
                    self.payload.content@[i as int],
                ] =~= mid + self.payload.content@.take(i + 1));
            }
            i += 1;
        }
        proof {
            assert(self.payload.content@.take(self.payload.content@.len() as int)
                =~= self.payload.content@);
            assert(mid + self.payload.content@ =~= old(out)@ + self.frame());
        }
    }

    /// Read one frame starting at `input[pos]`: `None` exactly when fewer
    /// than a frame's worth of bytes remain.
    pub fn from_bytes(input: &Vec<u8>, pos: usize) -> (r: Option<(Self, usize)>)
        requires
            pos <= input@.len(),
        ensures
            pos + 8 + PAYLOAD_SIZE <= input@.len() ==> match r {
                Some(q) => q.0.wf() && q.1 == pos + 8 + PAYLOAD_SIZE && q.0.frame()
                    == input@.subrange(pos as int, q.1 as int),
                None => false,
            },
            pos + 8 + PAYLOAD_SIZE > input@.len() ==> r is None,
    {
        proof {
            vstd::bytes::lemma_auto_spec_u64_to_from_le_bytes();
        }
        if input.len() - pos >= 8 + PAYLOAD_SIZE {
            let ks = vstd::slice::slice_subrange(input.as_slice(), pos, pos + 8);
            let key = u64_from_le_bytes(ks);
            let ps = vstd::slice::slice_subrange(
                input.as_slice(),
                pos + 8,
                pos + 8 + PAYLOAD_SIZE,
            );
            let content = vstd::slice::slice_to_vec(ps);
            let m = OriginResponseMessage {
                key,
                payload: FixedSizeResponsePayload { content },
            };
            proof {
                assert(m.frame() =~= input@.subrange(pos as int, pos + 8 + PAYLOAD_SIZE));
            }
            Some((m, pos + 8 + PAYLOAD_SIZE))
        } else {
            None
        }
    }
}

} // verus!
