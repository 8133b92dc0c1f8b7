//! A little-endian binary codec for trace records. Every encodable type has a
//! mathematical `encoding`; writing appends exactly that byte sequence, and
//! reading recognises exactly the byte sequences that are encodings, returning
//! a value with the encoding it found. Encodings are prefix-free, so what a
//! reader finds is unambiguous.
use vstd::prelude::*;

use vstd::bytes::spec_u16_from_le_bytes;
use vstd::bytes::spec_u16_to_le_bytes;
use vstd::bytes::spec_u32_from_le_bytes;
use vstd::bytes::spec_u32_to_le_bytes;
use vstd::bytes::spec_u64_from_le_bytes;
use vstd::bytes::u16_from_le_bytes;
use vstd::bytes::u16_to_le_bytes;
use vstd::bytes::u32_from_le_bytes;
use vstd::bytes::u32_to_le_bytes;
use vstd::bytes::spec_u64_to_le_bytes;
use vstd::bytes::u64_from_le_bytes;
use vstd::bytes::u64_to_le_bytes;

verus! {

broadcast use vstd::std_specs::vec::group_vec_axioms;

/// The size of a type's encodings: fixed for every value, or value-dependent.
#[derive(Debug, Clone, Copy, PartialEq, Eq, Structural)]
pub enum CodecSize {
    Static(usize),
    Dynamic,
}

impl CodecSize {
    /// The size of a pair of adjacent fields: the sum when both are fixed.
    pub fn add_const(self, rhs: CodecSize) -> (r: CodecSize)
        requires
            (self, rhs) matches (CodecSize::Static(a), CodecSize::Static(b)) ==> a + b
                <= usize::MAX,
        ensures
            r == match (self, rhs) {
                (CodecSize::Static(a), CodecSize::Static(b)) => CodecSize::Static(
                    (a + b) as usize,
                ),
                _ => CodecSize::Dynamic,
            },
    {
        match (self, rhs) {
            (CodecSize::Static(a), CodecSize::Static(b)) => CodecSize::Static(a + b),
            _ => CodecSize::Dynamic,
        }
    }

    /// The size of `rhs` adjacent fields of this size.
    pub fn mul_const(self, rhs: usize) -> (r: CodecSize)
        requires
            self matches CodecSize::Static(a) ==> a * rhs <= usize::MAX,
        ensures
            r == match self {
                CodecSize::Static(a) => CodecSize::Static((a * rhs) as usize),
                _ => CodecSize::Dynamic,
            },
    {
        match self {
            CodecSize::Static(a) => CodecSize::Static(a * rhs),
            _ => CodecSize::Dynamic,
        }
    }

    /// The fixed size. Value-dependent sizes are not accepted here.
    pub fn get_size_or_panic(self) -> (r: usize)
        requires
            self matches CodecSize::Static(a),
        ensures
            self == CodecSize::Static(r),
    {
        match self {
            CodecSize::Static(a) => a,
            CodecSize::Dynamic => 0,
        }
    }
}

/// Whether the encoding of `v` appears in `b` starting at `pos`.
pub open spec fn is_encoded_at<T: Codec>(b: Seq<u8>, pos: int, v: T) -> bool {
    &&& 0 <= pos
    &&& pos + v.encoding().len() <= b.len()
    &&& b.subrange(pos, pos + v.encoding().len()) == v.encoding()
}

/// A type with a little-endian binary encoding.
pub trait Codec: Sized {
    /// The bytes that encode this value.
    spec fn encoding(&self) -> Seq<u8>;

    /// No encoding is a proper prefix of another: two encodings followed by
    /// arbitrary suffixes agree only if the encodings agree.
    proof fn lemma_prefix_free(a: Self, b: Self, ra: Seq<u8>, rb: Seq<u8>)
        requires
            a.encoding() + ra == b.encoding() + rb,
        ensures
            a.encoding() == b.encoding(),
    ;

    /// Every encoding takes at least one byte.
    proof fn lemma_encoding_positive(v: Self)
        ensures
            v.encoding().len() >= 1,
    ;

    /// The number of bytes this value encodes to.
    fn size_in_bytes(&self) -> (n: usize)
        requires
            self.encoding().len() <= usize::MAX,
        ensures
            n == self.encoding().len(),
    ;

    /// The compile-time size of the encodings, where it is fixed.
    fn size_static() -> (r: CodecSize)
        ensures
            r matches CodecSize::Static(n) ==> forall|v: Self| (#[trigger] v.encoding()).len()
                == n,
    ;

    /// Append this value's encoding to `out`.
    fn to_bytes(&self, out: &mut Vec<u8>)
        ensures
            final(out)@ == old(out)@ + self.encoding(),
    ;

    /// Read one value whose encoding starts at `input[pos]`: the value found
    /// and the position just after it, or `None` when no value is encoded
    /// there.
    fn from_bytes(input: &Vec<u8>, pos: usize) -> (r: Option<(Self, usize)>)
        requires
            pos <= input@.len(),
        ensures
            match r {
                Some(q) => q.1 == pos + q.0.encoding().len() && q.1 <= input@.len()
                    && input@.subrange(pos as int, q.1 as int) == q.0.encoding(),
                None => forall|v: Self|
                    pos + (#[trigger] v.encoding()).len() <= input@.len() ==> input@.subrange(
                        pos as int,
                        pos + v.encoding().len(),
                    ) != v.encoding(),
            },
    ;
}

/// Whatever starts at one position of a byte string is the encoding of at
/// most one value, ending at one place: decoding is unambiguous.
pub proof fn lemma_unique_decoding<T: Codec>(b: Seq<u8>, pos: int, v1: T, v2: T)
    requires
        is_encoded_at(b, pos, v1),
        is_encoded_at(b, pos, v2),
    ensures
        v1.encoding() == v2.encoding(),
{
    let e1 = v1.encoding();
    let e2 = v2.encoding();
    assert(e1 + b.subrange(pos + e1.len(), b.len() as int) =~= b.subrange(pos, b.len() as int));
    assert(e2 + b.subrange(pos + e2.len(), b.len() as int) =~= b.subrange(pos, b.len() as int));
    T::lemma_prefix_free(
        v1,
        v2,
        b.subrange(pos + e1.len(), b.len() as int),
        b.subrange(pos + e2.len(), b.len() as int),
    );
}

impl Codec for u64 {
    open spec fn encoding(&self) -> Seq<u8> {
        spec_u64_to_le_bytes(*self)
    }

    proof fn lemma_prefix_free(a: Self, b: Self, ra: Seq<u8>, rb: Seq<u8>) {
        vstd::bytes::lemma_auto_spec_u64_to_from_le_bytes();
        assert(a.encoding() =~= (a.encoding() + ra).subrange(0, 8));
        assert(b.encoding() =~= (b.encoding() + rb).subrange(0, 8));
    }

    proof fn lemma_encoding_positive(v: Self) {
        vstd::bytes::lemma_auto_spec_u64_to_from_le_bytes();
    }

    fn size_in_bytes(&self) -> (n: usize) {
        proof {
            vstd::bytes::lemma_auto_spec_u64_to_from_le_bytes();
        }
        8
    }

    fn size_static() -> (r: CodecSize)
        ensures
            r == CodecSize::Static(8),
    {
        proof {
            vstd::bytes::lemma_auto_spec_u64_to_from_le_bytes();
        }
        CodecSize::Static(8)
    }

    fn to_bytes(&self, out: &mut Vec<u8>) {
        let mut bytes = u64_to_le_bytes(*self);
        out.append(&mut bytes);
    }

    fn from_bytes(input: &Vec<u8>, pos: usize) -> (r: Option<(Self, usize)>) {
        proof {
            vstd::bytes::lemma_auto_spec_u64_to_from_le_bytes();
        }
        if input.len() - pos >= 8 {
            let s = vstd::slice::slice_subrange(input.as_slice(), pos, pos + 8);
            let x = u64_from_le_bytes(s);
            proof {
                assert(x.encoding() =~= input@.subrange(pos as int, pos + 8));
            }
            Some((x, pos + 8))
        } else {
            None
        }
    }
}


/// A decoding failure: the input bytes from the read position are not the
/// encoding of any value of the expected type.
#[derive(Debug, Clone, Copy, PartialEq, Eq, Structural)]
pub enum CodecError {
    Malformed,
}

impl Codec for u8 {
    open spec fn encoding(&self) -> Seq<u8> {
        seq![*self]
    }

    proof fn lemma_prefix_free(a: Self, b: Self, ra: Seq<u8>, rb: Seq<u8>) {
        assert((a.encoding() + ra)[0] == a);
        assert((b.encoding() + rb)[0] == b);
        assert(a.encoding() =~= b.encoding());
    }

    proof fn lemma_encoding_positive(v: Self) {
    }

    fn size_in_bytes(&self) -> (n: usize) {
        1
    }

    fn size_static() -> (r: CodecSize)
        ensures
            r == CodecSize::Static(1),
    {
        CodecSize::Static(1)
    }

    fn to_bytes(&self, out: &mut Vec<u8>) {
        out.push(*self);
        proof {
            assert(final(out)@ =~= old(out)@ + self.encoding());
        }
    }

    fn from_bytes(input: &Vec<u8>, pos: usize) -> (r: Option<(Self, usize)>) {
        if pos < input.len() {
            let x = input[pos];
            proof {
                assert(x.encoding() =~= input@.subrange(pos as int, pos + 1));
            }
            Some((x, pos + 1))
        } else {
            None
        }
    }
}

impl Codec for u16 {
    open spec fn encoding(&self) -> Seq<u8> {
        spec_u16_to_le_bytes(*self)
    }

    proof fn lemma_prefix_free(a: Self, b: Self, ra: Seq<u8>, rb: Seq<u8>) {
        vstd::bytes::lemma_auto_spec_u16_to_from_le_bytes();
        assert(a.encoding() =~= (a.encoding() + ra).subrange(0, 2));
        assert(b.encoding() =~= (b.encoding() + rb).subrange(0, 2));
    }

    proof fn lemma_encoding_positive(v: Self) {
        vstd::bytes::lemma_auto_spec_u16_to_from_le_bytes();
    }

    fn size_in_bytes(&self) -> (n: usize) {
        proof {
            vstd::bytes::lemma_auto_spec_u16_to_from_le_bytes();
        }
        2
    }

    fn size_static() -> (r: CodecSize)
        ensures
            r == CodecSize::Static(2),
    {
        proof {
            vstd::bytes::lemma_auto_spec_u16_to_from_le_bytes();
        }
        CodecSize::Static(2)
    }

    fn to_bytes(&self, out: &mut Vec<u8>) {
        let mut bytes = u16_to_le_bytes(*self);
        out.append(&mut bytes);
    }

    fn from_bytes(input: &Vec<u8>, pos: usize) -> (r: Option<(Self, usize)>) {
        proof {
            vstd::bytes::lemma_auto_spec_u16_to_from_le_bytes();
        }
        if input.len() - pos >= 2 {
            let s = vstd::slice::slice_subrange(input.as_slice(), pos, pos + 2);
            let x = u16_from_le_bytes(s);
            proof {
                assert(x.encoding() =~= input@.subrange(pos as int, pos + 2));
            }
            Some((x, pos + 2))
        } else {
            None
        }
    }
}

impl Codec for u32 {
    open spec fn encoding(&self) -> Seq<u8> {
        spec_u32_to_le_bytes(*self)
    }

    proof fn lemma_prefix_free(a: Self, b: Self, ra: Seq<u8>, rb: Seq<u8>) {
        vstd::bytes::lemma_auto_spec_u32_to_from_le_bytes();
        assert(a.encoding() =~= (a.encoding() + ra).subrange(0, 4));
        assert(b.encoding() =~= (b.encoding() + rb).subrange(0, 4));
    }

    proof fn lemma_encoding_positive(v: Self) {
        vstd::bytes::lemma_auto_spec_u32_to_from_le_bytes();
    }

    fn size_in_bytes(&self) -> (n: usize) {
        proof {
            vstd::bytes::lemma_auto_spec_u32_to_from_le_bytes();
        }
        4
    }

    fn size_static() -> (r: CodecSize)
        ensures
            r == CodecSize::Static(4),
    {
        proof {
            vstd::bytes::lemma_auto_spec_u32_to_from_le_bytes();
        }
        CodecSize::Static(4)
    }

    fn to_bytes(&self, out: &mut Vec<u8>) {
        let mut bytes = u32_to_le_bytes(*self);
        out.append(&mut bytes);
    }

    fn from_bytes(input: &Vec<u8>, pos: usize) -> (r: Option<(Self, usize)>) {
        proof {
            vstd::bytes::lemma_auto_spec_u32_to_from_le_bytes();
        }
        if input.len() - pos >= 4 {
            let s = vstd::slice::slice_subrange(input.as_slice(), pos, pos + 4);
            let x = u32_from_le_bytes(s);
            proof {
                assert(x.encoding() =~= input@.subrange(pos as int, pos + 4));
            }
            Some((x, pos + 4))
        } else {
            None
        }
    }
}

/// The encodings of the elements of `s`, concatenated.
pub open spec fn seq_encoding<T: Codec>(s: Seq<T>) -> Seq<u8>
    decreases s.len(),
{
    if s.len() == 0 {
        Seq::empty()
    } else {
        s[0].encoding() + seq_encoding(s.drop_first())
    }
}

/// Concatenated encodings split at any element boundary.
proof fn lemma_seq_encoding_split<T: Codec>(s: Seq<T>, i: int)
    requires
        0 <= i <= s.len(),
    ensures
        seq_encoding(s) == seq_encoding(s.take(i)) + seq_encoding(s.skip(i)),
    decreases i,
{
    if i == 0 {
        assert(s.take(0) =~= Seq::<T>::empty());
        assert(s.skip(0) =~= s);
        assert(seq_encoding(s.take(0)) + seq_encoding(s.skip(0)) =~= seq_encoding(s));
    } else {
        let d = s.drop_first();
        lemma_seq_encoding_split(d, i - 1);
        assert(s.take(i)[0] == s[0]);
        assert(s.take(i).drop_first() =~= d.take(i - 1));
        assert(s.skip(i) =~= d.skip(i - 1));
        assert(seq_encoding(s.take(i)) == s[0].encoding() + seq_encoding(d.take(i - 1)));
        assert(seq_encoding(s) == s[0].encoding() + seq_encoding(d));
        assert(s[0].encoding() + (seq_encoding(d.take(i - 1)) + seq_encoding(d.skip(i - 1))) =~= (
        s[0].encoding() + seq_encoding(d.take(i - 1))) + seq_encoding(d.skip(i - 1)));
    }
}

/// Appending one element appends its encoding.
proof fn lemma_seq_encoding_push<T: Codec>(s: Seq<T>, v: T)
    ensures
        seq_encoding(s.push(v)) == seq_encoding(s) + v.encoding(),
    decreases s.len(),
{
    if s.len() == 0 {
        assert(s.push(v).drop_first() =~= Seq::<T>::empty());
        assert(s.push(v)[0] == v);
        assert(seq_encoding(s.push(v).drop_first()) =~= Seq::<u8>::empty());
        assert(seq_encoding(s.push(v)) == v.encoding() + seq_encoding(s.push(v).drop_first()));
        assert(v.encoding() + Seq::<u8>::empty() =~= v.encoding());
        assert(seq_encoding(s) + v.encoding() =~= v.encoding());
    } else {
        assert(s.push(v)[0] == s[0]);
        assert(s.push(v).drop_first() =~= s.drop_first().push(v));
        lemma_seq_encoding_push(s.drop_first(), v);
        assert(s[0].encoding() + (seq_encoding(s.drop_first()) + v.encoding()) =~= (s[0].encoding()
            + seq_encoding(s.drop_first())) + v.encoding());
    }
}

/// Two elementwise decodings of one byte string agree as far as the shorter
/// one goes: the element encodings align.
proof fn lemma_seq_encoding_aligned<T: Codec>(b: Seq<u8>, s1: Seq<T>, s2: Seq<T>)
    requires
        s1.len() <= s2.len(),
        seq_encoding(s1).len() <= b.len(),
        b.subrange(0, seq_encoding(s1).len() as int) == seq_encoding(s1),
        seq_encoding(s2).len() <= b.len(),
        b.subrange(0, seq_encoding(s2).len() as int) == seq_encoding(s2),
    ensures
        seq_encoding(s2.take(s1.len() as int)) == seq_encoding(s1),
    decreases s1.len(),
{
    if s1.len() == 0 {
        assert(s2.take(0) =~= Seq::<T>::empty());
        assert(seq_encoding(s2.take(0)) =~= seq_encoding(s1));
    } else {
        let e1 = s1[0].encoding();
        let e2 = s2[0].encoding();
        assert(e1 + (b.skip(e1.len() as int)) =~= b) by {
            assert(seq_encoding(s1) == e1 + seq_encoding(s1.drop_first()));
            assert forall|j: int| 0 <= j < e1.len() implies b[j] == e1[j] by {
                assert(seq_encoding(s1)[j] == e1[j]);
                assert(b.subrange(0, seq_encoding(s1).len() as int)[j] == b[j]);
            }
        }
        assert(e2 + (b.skip(e2.len() as int)) =~= b) by {
            assert(seq_encoding(s2) == e2 + seq_encoding(s2.drop_first()));
            assert forall|j: int| 0 <= j < e2.len() implies b[j] == e2[j] by {
                assert(seq_encoding(s2)[j] == e2[j]);
                assert(b.subrange(0, seq_encoding(s2).len() as int)[j] == b[j]);
            }
        }
        T::lemma_prefix_free(s1[0], s2[0], b.skip(e1.len() as int), b.skip(e2.len() as int));
        let l = e1.len();
        let b2 = b.skip(l as int);
        let d1 = s1.drop_first();
        let d2 = s2.drop_first();
        assert(seq_encoding(s1) == e1 + seq_encoding(d1));
        assert(seq_encoding(s2) == e2 + seq_encoding(d2));
        assert(b2.subrange(0, seq_encoding(d1).len() as int) =~= seq_encoding(d1)) by {
            assert forall|j: int| 0 <= j < seq_encoding(d1).len() implies b2[j] == seq_encoding(
                d1,
            )[j] by {
                assert(b[l + j] == seq_encoding(s1)[l + j]);
                assert(seq_encoding(s1)[l + j] == seq_encoding(d1)[j]);
            }
        }
        assert(b2.subrange(0, seq_encoding(d2).len() as int) =~= seq_encoding(d2)) by {
            assert forall|j: int| 0 <= j < seq_encoding(d2).len() implies b2[j] == seq_encoding(
                d2,
            )[j] by {
                assert(b[l + j] == seq_encoding(s2)[l + j]);
                assert(seq_encoding(s2)[l + j] == seq_encoding(d2)[j]);
            }
        }
        lemma_seq_encoding_aligned(b2, d1, d2);
        assert(s2.take(s1.len() as int)[0] == s2[0]);
        assert(s2.take(s1.len() as int).drop_first() =~= d2.take(d1.len() as int));
        assert(seq_encoding(s2.take(s1.len() as int)) == e2 + seq_encoding(d2.take(
            d1.len() as int,
        )));
    }
}

impl<T: Codec> Codec for Vec<T> {
    open spec fn encoding(&self) -> Seq<u8> {
        spec_u64_to_le_bytes(self@.len() as u64) + seq_encoding(self@)
    }

    proof fn lemma_prefix_free(a: Self, b: Self, ra: Seq<u8>, rb: Seq<u8>) {
        vstd::bytes::lemma_auto_spec_u64_to_from_le_bytes();
        let la = spec_u64_to_le_bytes(a@.len() as u64);
        let lb = spec_u64_to_le_bytes(b@.len() as u64);
        let whole = a.encoding() + ra;
        assert(la =~= whole.subrange(0, 8));
        assert(lb =~= whole.subrange(0, 8));
        assert(spec_u64_from_le_bytes(la) == a@.len() as u64);
        assert(spec_u64_from_le_bytes(lb) == b@.len() as u64);
        vstd::std_specs::vec::axiom_spec_len(&a);
        vstd::std_specs::vec::axiom_spec_len(&b);
        assert(a@.len() <= usize::MAX && b@.len() <= usize::MAX);
        assert(a@.len() == b@.len());
        let body = whole.skip(8);
        assert(seq_encoding(a@) + ra =~= body);
        assert(seq_encoding(b@) + rb =~= body);
        assert(body.subrange(0, seq_encoding(a@).len() as int) =~= seq_encoding(a@));
        assert(body.subrange(0, seq_encoding(b@).len() as int) =~= seq_encoding(b@));
        if seq_encoding(a@).len() <= seq_encoding(b@).len() {
            lemma_seq_encoding_aligned(body, a@, b@);
            assert(b@.take(a@.len() as int) =~= b@);
        } else {
            lemma_seq_encoding_aligned(body, b@, a@);
            assert(a@.take(b@.len() as int) =~= a@);
        }
        assert(a.encoding() =~= b.encoding());
    }

    proof fn lemma_encoding_positive(v: Self) {
        vstd::bytes::lemma_auto_spec_u64_to_from_le_bytes();
    }

    fn size_in_bytes(&self) -> (n: usize)
    {
        proof {
            vstd::bytes::lemma_auto_spec_u64_to_from_le_bytes();
        }
        let mut n: usize = 8;
        let mut i: usize = 0;
        while i < self.len()
            invariant
                i <= self@.len(),
                self.encoding().len() <= usize::MAX,
                n == 8 + seq_encoding(self@.take(i as int)).len(),
                n <= self.encoding().len(),
            decreases self@.len() - i,
        {
            proof {
                vstd::bytes::lemma_auto_spec_u64_to_from_le_bytes();
                lemma_seq_encoding_push(self@.take(i as int), self@[i as int]);
                assert(self@.take(i + 1) =~= self@.take(i as int).push(self@[i as int]));
                lemma_seq_encoding_split(self@, i + 1);
                assert(seq_encoding(self@).len() >= seq_encoding(self@.take(i + 1)).len()) by {
                    assert(seq_encoding(self@) == seq_encoding(self@.take(i + 1)) + seq_encoding(
                        self@.skip(i + 1),
                    ));
                }
                assert(self.encoding().len() == 8 + seq_encoding(self@).len());
            }
            let e = slice_index_codec(self, i).size_in_bytes();
            n = n + e;
            i += 1;
        }
        proof {
            assert(self@.take(self@.len() as int) =~= self@);
        }
        n
    }

    fn size_static() -> (r: CodecSize)
        ensures
            r == CodecSize::Dynamic,
    {
        CodecSize::Dynamic
    }

    fn to_bytes(&self, out: &mut Vec<u8>) {
        proof {
            vstd::bytes::lemma_auto_spec_u64_to_from_le_bytes();
        }
        let mut bytes = u64_to_le_bytes(self.len() as u64);
        out.append(&mut bytes);
        let ghost base = out@;
        let mut i: usize = 0;
        while i < self.len()
            invariant
                i <= self@.len(),
                out@ == base + seq_encoding(self@.take(i as int)),
                base == old(out)@ + spec_u64_to_le_bytes(self@.len() as u64),
            decreases self@.len() - i,
        {
            slice_index_codec(self, i).to_bytes(out);
            proof {
                lemma_seq_encoding_push(self@.take(i as int), self@[i as int]);
                assert(self@.take(i + 1) =~= self@.take(i as int).push(self@[i as int]));
                assert((base + seq_encoding(self@.take(i as int))) + self@[i as int].encoding()
                    =~= base + seq_encoding(self@.take(i + 1)));
            }
            i += 1;
        }
        proof {
            assert(self@.take(self@.len() as int) =~= self@);
            assert(base + seq_encoding(self@) =~= old(out)@ + self.encoding());
        }
    }

    fn from_bytes(input: &Vec<u8>, pos: usize) -> (r: Option<(Self, usize)>) {
        proof {
            vstd::bytes::lemma_auto_spec_u64_to_from_le_bytes();
        }
        if input.len() - pos < 8 {
            proof {
                assert forall|v: Vec<T>|
                    pos + (#[trigger] v.encoding()).len() <= input@.len() implies input@.subrange(
                    pos as int,
                    pos + v.encoding().len(),
                ) != v.encoding() by {
                    assert(v.encoding().len() >= 8);
                }
            }
            return None;
        }
        let s = vstd::slice::slice_subrange(input.as_slice(), pos, pos + 8);
        let count64 = u64_from_le_bytes(s);
        proof {
            assert(input@.subrange(pos as int, pos + 8) == s@);
        }
        if count64 > (usize::MAX as u64) {
            proof {
                assert forall|v: Vec<T>|
                    pos + (#[trigger] v.encoding()).len() <= input@.len() implies input@.subrange(
                    pos as int,
                    pos + v.encoding().len(),
                ) != v.encoding() by {
                    if pos + v.encoding().len() <= input@.len() && input@.subrange(
                        pos as int,
                        pos + v.encoding().len(),
                    ) == v.encoding() {
                        let ve = v.encoding();
                        assert(spec_u64_to_le_bytes(v@.len() as u64) =~= input@.subrange(
                            pos as int,
                            pos + 8,
                        )) by {
                            assert forall|j: int|
                                0 <= j < 8 implies #[trigger] input@.subrange(
                                pos as int,
                                pos + 8,
                            )[j] == spec_u64_to_le_bytes(v@.len() as u64)[j] by {
                                assert(input@.subrange(pos as int, pos + ve.len() as int)[j]
                                    == ve[j]);
                            }
                        }
                        assert(v@.len() as u64 == count64);
                        vstd::std_specs::vec::axiom_spec_len(&v);
                        assert(v@.len() <= usize::MAX);
                        assert((v@.len() as u64) <= (usize::MAX as u64));
                        assert(false);
                    }
                }
            }
            return None;
        }
        let count = count64 as usize;
        let mut acc: Vec<T> = Vec::new();
        let mut cur: usize = pos + 8;
        let mut i: usize = 0;
        while i < count
            invariant
                i <= count,
                count == count64,
                pos + 8 <= cur <= input@.len(),
                count64 <= usize::MAX,
                input@.subrange(pos as int, pos + 8) == spec_u64_to_le_bytes(count64),
                acc@.len() == i,
                cur == pos + 8 + seq_encoding(acc@).len(),
                input@.subrange(pos + 8, cur as int) == seq_encoding(acc@),
            decreases count - i,
        {
            match T::from_bytes(input, cur) {
                Some((v, next)) => {
                    proof {
                        lemma_seq_encoding_push(acc@, v);
                        assert(input@.subrange(pos + 8, next as int) =~= seq_encoding(acc@)
                            + v.encoding());
                    }
                    acc.push(v);
                    cur = next;
                },
                None => {
                    proof {
                        lemma_vec_decode_fails::<T>(input@, pos as int, count64, acc@, cur as int);
                    }
                    return None;
                },
            }
            i += 1;
        }
        proof {
            vstd::bytes::lemma_auto_spec_u64_to_from_le_bytes();
            assert(acc.encoding() =~= input@.subrange(pos as int, cur as int));
        }
        Some((acc, cur))
    }
}

/// When an element fails to decode after `done` elements were read, no vector
/// at all is encoded at `pos`.
proof fn lemma_vec_decode_fails<T: Codec>(
    b: Seq<u8>,
    pos: int,
    count64: u64,
    done: Seq<T>,
    cur: int,
)
    requires
        0 <= pos,
        pos + 8 <= cur <= b.len(),
        b.subrange(pos, pos + 8) == spec_u64_to_le_bytes(count64),
        done.len() < count64,
        cur == pos + 8 + seq_encoding(done).len(),
        b.subrange(pos + 8, cur) == seq_encoding(done),
        forall|e: T|
            cur + (#[trigger] e.encoding()).len() <= b.len() ==> b.subrange(
                cur,
                cur + e.encoding().len(),
            ) != e.encoding(),
    ensures
        forall|v: Vec<T>|
            pos + (#[trigger] v.encoding()).len() <= b.len() ==> b.subrange(
                pos,
                pos + v.encoding().len(),
            ) != v.encoding(),
{
    vstd::bytes::lemma_auto_spec_u64_to_from_le_bytes();
    assert forall|v: Vec<T>|
        pos + (#[trigger] v.encoding()).len() <= b.len() implies b.subrange(
        pos,
        pos + v.encoding().len(),
    ) != v.encoding() by {
        if pos + v.encoding().len() <= b.len() && b.subrange(pos, pos + v.encoding().len())
            == v.encoding() {
            let ve = v.encoding();
            assert(spec_u64_to_le_bytes(v@.len() as u64) =~= b.subrange(pos, pos + 8)) by {
                assert forall|j: int| 0 <= j < 8 implies #[trigger] b.subrange(pos, pos + 8)[j]
                    == spec_u64_to_le_bytes(v@.len() as u64)[j] by {
                    assert(b.subrange(pos, pos + ve.len() as int)[j] == ve[j]);
                }
            }
            assert(v@.len() as u64 == count64);
            let body = b.skip(pos + 8);
            assert(body.subrange(0, seq_encoding(v@).len() as int) =~= seq_encoding(v@)) by {
                assert forall|j: int| 0 <= j < seq_encoding(v@).len() implies body[j]
                    == seq_encoding(v@)[j] by {
                    assert(b.subrange(pos, pos + ve.len() as int)[8 + j] == ve[8 + j]);
                    assert(ve[8 + j] == seq_encoding(v@)[j]);
                }
            }
            assert(body.subrange(0, seq_encoding(done).len() as int) =~= seq_encoding(done)) by {
                assert forall|j: int| 0 <= j < seq_encoding(done).len() implies body[j]
                    == seq_encoding(done)[j] by {
                    assert(b.subrange(pos + 8, cur)[j] == seq_encoding(done)[j]);
                }
            }
            lemma_seq_encoding_aligned(body, done, v@);
            let i = done.len() as int;
            lemma_seq_encoding_split(v@, i);
            let rest = v@.skip(i);
            assert(rest.len() >= 1);
            let e = rest[0];
            assert(seq_encoding(rest) == e.encoding() + seq_encoding(rest.drop_first()));
            assert(seq_encoding(v@.take(i)).len() == seq_encoding(done).len());
            assert(cur + e.encoding().len() <= b.len()) by {
                assert(seq_encoding(v@).len() >= seq_encoding(v@.take(i)).len()
                    + e.encoding().len());
            }
            assert(b.subrange(cur, cur + e.encoding().len() as int) =~= e.encoding()) by {
                assert forall|j: int| 0 <= j < e.encoding().len() implies b[cur + j]
                    == e.encoding()[j] by {
                    let off = seq_encoding(done).len() + j;
                    assert(body[off] == seq_encoding(v@)[off]);
                    assert(seq_encoding(v@)[off] == seq_encoding(rest)[j]) by {
                        assert(seq_encoding(v@) == seq_encoding(v@.take(i)) + seq_encoding(rest));
                    }
                    assert(seq_encoding(rest)[j] == e.encoding()[j]);
                    assert(b[cur + j] == body[off]);
                }
            }
            assert(false);
        }
    }
}

/// The `i`-th element of an encodable vector.
fn slice_index_codec<T: Codec>(v: &Vec<T>, i: usize) -> (r: &T)
    requires
        i < v@.len(),
    ensures
        *r == v@[i as int],
{
    &v[i]
}


/// Append the encodings of all `items` to `out`, in order.
pub fn repeat_write_till_end<T: Codec>(out: &mut Vec<u8>, items: &Vec<T>)
    ensures
        final(out)@ == old(out)@ + seq_encoding(items@),
{
    let mut i: usize = 0;
    while i < items.len()
        invariant
            i <= items@.len(),
            out@ == old(out)@ + seq_encoding(items@.take(i as int)),
        decreases items@.len() - i,
    {
        slice_index_codec(items, i).to_bytes(out);
        proof {
            lemma_seq_encoding_push(items@.take(i as int), items@[i as int]);
            assert(items@.take(i + 1) =~= items@.take(i as int).push(items@[i as int]));
            assert((old(out)@ + seq_encoding(items@.take(i as int))) + items@[i as int].encoding()
                =~= old(out)@ + seq_encoding(items@.take(i + 1)));
        }
        i += 1;
    }
    proof {
        assert(items@.take(items@.len() as int) =~= items@);
    }
}

/// Append the length of `items` as a 64-bit count, then all their encodings.
pub fn repeat_write_with_known_len<T: Codec>(out: &mut Vec<u8>, items: &Vec<T>, len: usize)
    requires
        len == items@.len(),
    ensures
        final(out)@ == old(out)@ + spec_u64_to_le_bytes(len as u64) + seq_encoding(items@),
{
    let mut bytes = u64_to_le_bytes(len as u64);
    out.append(&mut bytes);
    repeat_write_till_end(out, items);
    proof {
        assert((old(out)@ + spec_u64_to_le_bytes(len as u64)) + seq_encoding(items@) =~= old(out)@
            + spec_u64_to_le_bytes(len as u64) + seq_encoding(items@));
    }
}

/// Reads values of one type from a byte string until its end. Iteration ends
/// silently both at a clean end of the input and at a trailing remnant that
/// encodes no value, as a reader of a stream does at end-of-file.
pub struct ReadTillEndIterator<'a, T: Codec> {
    input: &'a Vec<u8>,
    pos: usize,
    done: bool,
    _phantom: core::marker::PhantomData<T>,
}

/// Start reading values of one type at `pos`, until the input ends.
pub fn repeat_read_till_end<'a, T: Codec>(input: &'a Vec<u8>, pos: usize) -> (r:
    ReadTillEndIterator<'a, T>)
    requires
        pos <= input@.len(),
    ensures
        r.wf(),
        r.position() == pos,
        !r.done(),
        r.source() == input@,
{
    ReadTillEndIterator { input, pos, done: false, _phantom: core::marker::PhantomData }
}

impl<'a, T: Codec> ReadTillEndIterator<'a, T> {
    /// The bytes being read.
    pub closed spec fn source(&self) -> Seq<u8> {
        self.input@
    }

    /// The current read position.
    pub closed spec fn position(&self) -> usize {
        self.pos
    }

    /// Whether iteration has ended on a byte that starts no value.
    pub closed spec fn done(&self) -> bool {
        self.done
    }

    pub closed spec fn wf(&self) -> bool {
        self.pos <= self.input@.len()
    }

    /// The next value, or `None` once the input is exhausted: either cleanly,
    /// or at a trailing remnant (such as a truncated final item) that encodes
    /// no value.
    pub fn next(&mut self) -> (r: Option<T>)
        requires
            old(self).wf(),
        ensures
            final(self).wf(),
            final(self).source() == old(self).source(),
            old(self).done() ==> r is None && *final(self) == *old(self),
            !old(self).done() && old(self).position() == old(self).source().len() ==> r is None
                && *final(self) == *old(self),
            !old(self).done() && old(self).position() < old(self).source().len() ==> match r {
                Some(v) => is_encoded_at(old(self).source(), old(self).position() as int, v)
                    && final(self).position() == old(self).position() + v.encoding().len()
                    && !final(self).done(),
                None => (forall|v: T|
                    !is_encoded_at(old(self).source(), old(self).position() as int, v)) && final(self).done(),
            },
    {
        if self.done {
            return None;
        }
        if self.pos >= self.input.len() {
            return None;
        }
        match T::from_bytes(self.input, self.pos) {
            Some((v, next)) => {
                proof {
                    T::lemma_encoding_positive(v);
                }
                self.pos = next;
                Some(v)
            },
            None => {
                self.done = true;
                None
            },
        }
    }
}

/// Reads a 64-bit count, then that many values of one type.
pub struct ReadWithKnownLenIterator<'a, T: Codec> {
    input: &'a Vec<u8>,
    pos: usize,
    remaining: u64,
    failed: bool,
    _phantom: core::marker::PhantomData<T>,
}

/// Read the element count at `pos` and return a reader of that many values,
/// or `None` when not even the count can be read.
pub fn repeat_read_with_known_len<'a, T: Codec>(input: &'a Vec<u8>, pos: usize) -> (r: Option<
    ReadWithKnownLenIterator<'a, T>,
>)
    requires
        pos <= input@.len(),
    ensures
        pos + 8 <= input@.len() ==> match r {
            Some(it) => it.wf() && it.source() == input@ && it.position() == pos + 8
                && !it.has_failed() && it.remaining_count() == spec_u64_from_le_bytes(
                input@.subrange(pos as int, pos + 8),
            ),
            None => false,
        },
        pos + 8 > input@.len() ==> r is None,
{
    if input.len() - pos < 8 {
        return None;
    }
    let s = vstd::slice::slice_subrange(input.as_slice(), pos, pos + 8);
    let count = u64_from_le_bytes(s);
    Some(
        ReadWithKnownLenIterator {
            input,
            pos: pos + 8,
            remaining: count,
            failed: false,
            _phantom: core::marker::PhantomData,
        },
    )
}

impl<'a, T: Codec> ReadWithKnownLenIterator<'a, T> {
    /// The bytes being read.
    pub closed spec fn source(&self) -> Seq<u8> {
        self.input@
    }

    /// The current read position.
    pub closed spec fn position(&self) -> usize {
        self.pos
    }

    /// How many values are still to be read.
    pub closed spec fn remaining_count(&self) -> u64 {
        self.remaining
    }

    /// Whether a decoding error has been hit.
    pub closed spec fn has_failed(&self) -> bool {
        self.failed
    }

    pub closed spec fn wf(&self) -> bool {
        self.pos <= self.input@.len()
    }

    /// The next value, `None` once the announced count has been read, or an
    /// error when the bytes at the current position encode no value.
    pub fn next(&mut self) -> (r: Option<Result<T, CodecError>>)
        requires
            old(self).wf(),
        ensures
            final(self).wf(),
            final(self).source() == old(self).source(),
            old(self).has_failed() ==> r is None && *final(self) == *old(self),
            !old(self).has_failed() && old(self).remaining_count() == 0 ==> r is None && *final(self) == *old(self),
            !old(self).has_failed() && old(self).remaining_count() > 0 ==> match r {
                Some(q) => match q {
                    Ok(v) => is_encoded_at(old(self).source(), old(self).position() as int, v)
                        && final(self).position() == old(self).position() + v.encoding().len()
                        && final(self).remaining_count() == old(self).remaining_count() - 1
                        && !final(self).has_failed(),
                    Err(e) => (forall|v: T|
                        !is_encoded_at(old(self).source(), old(self).position() as int, v))
                        && final(self).has_failed(),
                },
                None => false,
            },
    {
        if self.failed {
            return None;
        }
        if self.remaining == 0 {
            return None;
        }
        match T::from_bytes(self.input, self.pos) {
            Some((v, next)) => {
                proof {
                    T::lemma_encoding_positive(v);
                }
                self.pos = next;
                self.remaining = self.remaining - 1;
                Some(Ok(v))
            },
            None => {
                self.failed = true;
                Some(Err(CodecError::Malformed))
            },
        }
    }
}

} // verus!


