//! What a lexer reads from: text or bytes, read in fixed-size chunks and
//! sliced by byte ranges.

use vstd::prelude::*;

use vstd::string::StringSliceAdditionalSpecFns;

verus! {

/// A slice of a source: something whose bytes can be had.
pub trait Slice<'source>: Sized {
    /// The bytes of the slice.
    spec fn slice_bytes(&self) -> Seq<u8>;

    /// The bytes of the slice.
    fn as_bytes(&self) -> (r: &'source [u8])
        ensures
            r@ == self.slice_bytes(),
    ;
}

impl<'source> Slice<'source> for &'source str {
    open spec fn slice_bytes(&self) -> Seq<u8> {
        (**self).spec_bytes()
    }

    fn as_bytes(&self) -> (r: &'source [u8]) {
        (**self).as_bytes()
    }
}

impl<'source> Slice<'source> for &'source [u8] {
    open spec fn slice_bytes(&self) -> Seq<u8> {
        (**self)@
    }

    fn as_bytes(&self) -> (r: &'source [u8]) {
        *self
    }
}

/// A fixed number of bytes read at once: one byte, or a reference to an
/// array of bytes.
pub trait Chunk<'source>: Sized + Copy {
    /// The number of bytes.
    spec fn spec_size() -> nat;

    /// The bytes of the chunk.
    spec fn chunk_bytes(&self) -> Seq<u8>;

    /// The number of bytes.
    fn size() -> (r: usize)
        ensures
            r == Self::spec_size(),
    ;

    /// The chunk holding the given bytes.
    fn from_slice(bytes: &'source [u8]) -> (r: Self)
        requires
            bytes@.len() == Self::spec_size(),
        ensures
            r.chunk_bytes() == bytes@,
    ;
}

impl<'source> Chunk<'source> for u8 {
    open spec fn spec_size() -> nat {
        1
    }

    open spec fn chunk_bytes(&self) -> Seq<u8> {
        seq![*self]
    }

    fn size() -> (r: usize) {
        1
    }

    fn from_slice(bytes: &'source [u8]) -> (r: u8) {
        let r = bytes[0];
        proof {
            assert(bytes@ =~= seq![r]);
        }
        r
    }
}

/// `<&[u8; N]>::try_from` on a slice of `N` bytes: the same bytes, as an
/// array.
#[verifier::external_body]
fn as_array<'source, const N: usize>(bytes: &'source [u8]) -> (r: &'source [u8; N])
    requires
        bytes@.len() == N,
    ensures
        r@ == bytes@,
{
    bytes.try_into().unwrap()
}

impl<'source, const N: usize> Chunk<'source> for &'source [u8; N] {
    open spec fn spec_size() -> nat {
        N as nat
    }

    open spec fn chunk_bytes(&self) -> Seq<u8> {
        (**self)@
    }

    fn size() -> (r: usize) {
        N
    }

    fn from_slice(bytes: &'source [u8]) -> (r: &'source [u8; N]) {
        as_array(bytes)
    }
}

/// The bytes `start..end` of a slice.
fn sub_bytes<'source>(bytes: &'source [u8], start: usize, end: usize) -> (r: &'source [u8])
    requires
        start <= end <= bytes@.len(),
    ensures
        r@ == bytes@.subrange(start as int, end as int),
{
    vstd::slice::slice_subrange(bytes, start, end)
}

/// What a lexer reads from.
pub trait Source {
    /// The bytes of the source.
    spec fn source_bytes(&self) -> Seq<u8>;

    /// Whether the source may be cut at `index`.
    spec fn boundary(&self, index: int) -> bool;

    /// The length of the source in bytes.
    fn len(&self) -> (r: usize)
        ensures
            r == self.source_bytes().len(),
    ;

    /// Read a chunk at `offset`, or `None` when it would reach past the
    /// end.
    fn read<'a, C: Chunk<'a>>(&'a self, offset: usize) -> (r: Option<C>)
        requires
            C::spec_size() >= 1,
        ensures
            match r {
                Some(c) => offset + C::spec_size() <= self.source_bytes().len() && c.chunk_bytes()
                    == self.source_bytes().subrange(offset as int, offset + C::spec_size()),
                None => offset + C::spec_size() > self.source_bytes().len(),
            },
    ;

    /// The bytes `start..end` of the source, or `None` when that is not a
    /// range of the source cut at boundaries.
    fn slice(&self, start: usize, end: usize) -> (r: Option<&Self>)
        ensures
            match r {
                Some(s) => start <= end <= self.source_bytes().len() && self.boundary(start as int) && self.boundary(end as int)
                    && s.source_bytes() == self.source_bytes().subrange(start as int, end as int),
                None => !(start <= end <= self.source_bytes().len() && self.boundary(start as int) && self.boundary(end as int)),
            },
    ;

    /// The first boundary at or after `index`.
    fn find_boundary(&self, index: usize) -> (r: usize)
        requires
            index <= self.source_bytes().len(),
        ensures
            index <= r <= self.source_bytes().len(),
            self.boundary(r as int),
            forall|i: int| index <= i < r ==> !self.boundary(i),
    ;

    /// Whether `index` is within the source and the source may be cut
    /// there.
    fn is_boundary(&self, index: usize) -> (r: bool)
        ensures
            r == (index <= self.source_bytes().len() && self.boundary(index as int)),
    ;
}

/// Reading `size` bytes at `k` in the slice `start..end` of a source
/// reads the bytes at `start + k` in the source.
pub proof fn law_read_within_slice(whole: Seq<u8>, start: int, end: int, k: int, size: int)
    requires
        0 <= start <= end <= whole.len(),
        0 <= k,
        0 <= size,
        k + size <= end - start,
    ensures
        whole.subrange(start, end).subrange(k, k + size) == whole.subrange(start + k, start + k + size),
{
    assert(whole.subrange(start, end).subrange(k, k + size) =~= whole.subrange(start + k, start + k + size));
}

impl Source for [u8] {
    open spec fn source_bytes(&self) -> Seq<u8> {
        self@
    }

    /// Bytes may be cut anywhere.
    open spec fn boundary(&self, index: int) -> bool {
        0 <= index <= self@.len()
    }

    fn len(&self) -> (r: usize) {
        self.len()
    }

    fn read<'a, C: Chunk<'a>>(&'a self, offset: usize) -> (r: Option<C>) {
        let size = C::size();
        if offset <= self.len() && size <= self.len() - offset {
            Some(C::from_slice(sub_bytes(self, offset, offset + size)))
        } else {
            None
        }
    }

    fn slice(&self, start: usize, end: usize) -> (r: Option<&[u8]>) {
        if start <= end && end <= self.len() {
            Some(sub_bytes(self, start, end))
        } else {
            None
        }
    }

    fn find_boundary(&self, index: usize) -> (r: usize) {
        index
    }

    fn is_boundary(&self, index: usize) -> (r: bool) {
        index <= self.len()
    }
}

/// A boundary of a valid encoding before `end` is a boundary of its
/// first `end` bytes when `end` is itself a boundary.
proof fn lemma_prefix_boundary(bytes: Seq<u8>, start: int, end: int)
    requires
        vstd::utf8::valid_utf8(bytes),
        0 <= start <= end <= bytes.len(),
        vstd::utf8::is_char_boundary(bytes, start),
        vstd::utf8::is_char_boundary(bytes, end),
    ensures
        vstd::utf8::valid_utf8(bytes.subrange(0, end)),
        vstd::utf8::is_char_boundary(bytes.subrange(0, end), start),
{
    let prefix = bytes.subrange(0, end);
    vstd::utf8::valid_utf8_split(bytes, end);
    vstd::utf8::is_char_boundary_start_end_of_seq(prefix);
    if start < end {
        vstd::utf8::is_char_boundary_iff_not_is_continuation_byte(bytes, start);
        vstd::utf8::is_char_boundary_iff_not_is_continuation_byte(prefix, start);
    }
}

impl Source for str {
    open spec fn source_bytes(&self) -> Seq<u8> {
        self.spec_bytes()
    }

    /// Text may be cut only between characters.
    open spec fn boundary(&self, index: int) -> bool {
        0 <= index <= self.spec_bytes().len() && vstd::utf8::is_char_boundary(self.spec_bytes(), index)
    }

    fn len(&self) -> (r: usize) {
        self.as_bytes().len()
    }

    fn read<'a, C: Chunk<'a>>(&'a self, offset: usize) -> (r: Option<C>) {
        let bytes = self.as_bytes();
        let size = C::size();
        if offset <= bytes.len() && size <= bytes.len() - offset {
            Some(C::from_slice(sub_bytes(bytes, offset, offset + size)))
        } else {
            None
        }
    }

    fn slice(&self, start: usize, end: usize) -> (r: Option<&str>) {
        let n = self.as_bytes().len();
        if start <= end && end <= n && self.is_char_boundary(start) && self.is_char_boundary(end) {
            proof {
                vstd::utf8::encode_utf8_valid_utf8(self@);
                lemma_prefix_boundary(self.spec_bytes(), start as int, end as int);
            }
            let (prefix, _) = self.split_at(end);
            let (_, middle) = prefix.split_at(start);
            proof {
                assert(middle.spec_bytes() =~= self.spec_bytes().subrange(start as int, end as int));
            }
            Some(middle)
        } else {
            None
        }
    }

    fn find_boundary(&self, index: usize) -> (r: usize) {
        proof {
            vstd::utf8::encode_utf8_valid_utf8(self@);
            vstd::utf8::is_char_boundary_start_end_of_seq(self.spec_bytes());
        }
        let n = self.as_bytes().len();
        let start = index;
        let mut at = index;
        while !self.is_char_boundary(at)
            invariant
                n == self.spec_bytes().len(),
                start <= at <= self.spec_bytes().len(),
                vstd::utf8::is_char_boundary(self.spec_bytes(), self.spec_bytes().len() as int),
                forall|i: int| start <= i < at ==> !self.boundary(i),
            decreases self.spec_bytes().len() - at,
        {
            at = at + 1;
        }
        at
    }

    fn is_boundary(&self, index: usize) -> (r: bool) {
        index <= self.as_bytes().len() && self.is_char_boundary(index)
    }
}

} // verus!
