use vstd::prelude::*;
use crate::util::{default_strides_slice, idx_ints, packed_strides};
use crate::util::idx::Idx;
use crate::util::nd_copy::{copied, region_disjoint, region_fits, NdCopier};
use crate::util::layout::seq_prod;
use crate::util::nd_iter_unordered::usize_ints;
use crate::error::{Error, ErrorKind};

verus! {

/// The bytes behind a [`StridedBuf`].
enum StridedBufData<'a> {
    /// A read-only borrowed slice.
    Slice(&'a [u8]),
    /// A writable borrowed slice.
    SliceMut(&'a mut [u8]),
    /// An owned buffer.
    Owned(Vec<u8>),
}

/// A strided view over a region of array bytes: a block of bytes and one byte stride per
/// dimension. Element `(i0, .., in)` lives at byte offset `i0 * strides[0] + .. + in * strides[n]`
/// from the start of the bytes.
pub struct StridedBuf<'a> {
    data: StridedBufData<'a>,
    strides: Vec<usize>,
}

impl<'a> StridedBuf<'a> {
    /// The bytes the view covers.
    pub closed spec fn bytes(&self) -> Seq<u8> {
        match &self.data {
            StridedBufData::Slice(s) => s@,
            StridedBufData::SliceMut(s) => s@,
            StridedBufData::Owned(buf) => buf@,
        }
    }

    /// Whether the bytes can be written through the view.
    pub closed spec fn writable(&self) -> bool {
        !(self.data is Slice)
    }

    /// The byte stride of each dimension.
    pub closed spec fn stride_seq(&self) -> Seq<usize> {
        self.strides@
    }

    /// A read-only view of `data` with the byte `strides`.
    pub fn from_slice(data: &'a [u8], strides: &[usize]) -> (r: Self)
        ensures
            r.bytes() == data@,
            r.stride_seq() == strides@,
            !r.writable(),
    {
        StridedBuf { data: StridedBufData::Slice(data), strides: copy_strides(strides) }
    }

    /// A writable view of `data` with the byte `strides`.
    pub fn from_slice_mut(data: &'a mut [u8], strides: &[usize]) -> (r: Self)
        ensures
            r.bytes() == old(data)@,
            r.stride_seq() == strides@,
            r.writable(),
    {
        StridedBuf { data: StridedBufData::SliceMut(data), strides: copy_strides(strides) }
    }

    /// A writable view of an owned buffer with the byte `strides`.
    pub fn from_vec(buf: Vec<u8>, strides: &[usize]) -> (r: StridedBuf<'static>)
        ensures
            r.bytes() == buf@,
            r.stride_seq() == strides@,
            r.writable(),
    {
        StridedBuf { data: StridedBufData::Owned(buf), strides: copy_strides(strides) }
    }

    /// Whether the bytes can be written through the view.
    pub fn is_writable(&self) -> (r: bool)
        ensures
            r == self.writable(),
    {
        match &self.data {
            StridedBufData::Slice(_) => false,
            _ => true,
        }
    }

    /// The byte stride of each dimension.
    pub fn strides(&self) -> (r: &[usize])
        ensures
            r@ == self.stride_seq(),
    {
        self.strides.as_slice()
    }

    /// The bytes and the byte strides.
    pub fn data(&self) -> (r: (&[u8], &[usize]))
        ensures
            r.0@ == self.bytes(),
            r.1@ == self.stride_seq(),
    {
        let data: &[u8] = match &self.data {
            StridedBufData::Slice(s) => *s,
            StridedBufData::SliceMut(s) => &**s,
            StridedBufData::Owned(buf) => buf.as_slice(),
        };
        (data, self.strides.as_slice())
    }

    /// The bytes, for writing.
    pub fn data_mut(&mut self) -> (r: &mut [u8])
        requires
            old(self).writable(),
        ensures
            r@ == old(self).bytes(),
            final(self).bytes() == final(r)@,
            final(self).stride_seq() == old(self).stride_seq(),
            final(self).writable(),
    {
        match &mut self.data {
            StridedBufData::SliceMut(s) => &mut **s,
            StridedBufData::Owned(buf) => buf.as_mut_slice(),
            StridedBufData::Slice(_) => vstd::pervasive::unreached(),
        }
    }

    /// Whether the strides are exactly the row-major packed strides of `shape` for elements of
    /// `itemsize` bytes (computed modulo `usize`'s range, as the layout's offsets are).
    pub fn is_contiguous(&self, shape: &[usize], itemsize: usize) -> (r: bool)
        ensures
            r == (self.stride_seq().len() == shape@.len() && forall|d: int|
                0 <= d < shape@.len() ==> #[trigger] self.stride_seq()[d] as int == packed_strides(
                    idx_ints(shape@),
                    itemsize as int,
                )[d] % usize::modulus()),
    {
        let packed = default_strides_slice(shape, itemsize);
        if self.strides.len() != packed.len() {
            return false;
        }
        let n = packed.len();
        let mut d: usize = 0;
        let mut same = true;
        while d < n
            invariant
                d <= n,
                n == packed@.len(),
                n == shape@.len(),
                n == self.strides@.len(),
                same <==> forall|e: int| 0 <= e < d ==> #[trigger] self.strides@[e] == packed@[e],
            decreases n - d,
        {
            if self.strides[d] != packed[d] {
                same = false;
            }
            d += 1;
        }
        proof {
            assert(forall|e: int|
                0 <= e < n ==> #[trigger] packed@[e].as_int() == packed_strides(
                    idx_ints(shape@),
                    itemsize as int,
                )[e] % usize::modulus());
            if same {
                assert forall|e: int| 0 <= e < shape@.len() implies #[trigger] self.stride_seq()[e]
                    as int == packed_strides(idx_ints(shape@), itemsize as int)[e]
                    % usize::modulus() by {
                    assert(self.strides@[e] == packed@[e]);
                    assert(packed@[e].as_int() == packed@[e] as int);
                }
            } else {
                let e = choose|e: int| 0 <= e < d && self.strides@[e] != packed@[e];
                assert(packed@[e].as_int() == packed@[e] as int);
                assert(self.stride_seq()[e] as int != packed_strides(idx_ints(shape@), itemsize as int)[e]
                    % usize::modulus());
            }
        }
        same
    }

    /// The same bytes under new byte `strides`.
    pub fn with_strides(self, strides: &[usize]) -> (r: Self)
        ensures
            r.bytes() == self.bytes(),
            r.writable() == self.writable(),
            r.stride_seq() == strides@,
    {
        let StridedBuf { data, strides: _ } = self;
        StridedBuf { data, strides: copy_strides(strides) }
    }

    /// The view shifted `n` bytes forward, with the same strides.
    pub fn with_offset(self, n: usize) -> (r: Self)
        requires
            n <= self.bytes().len(),
        ensures
            r.bytes() == self.bytes().skip(n as int),
            r.writable() == self.writable(),
            r.stride_seq() == self.stride_seq(),
    {
        let StridedBuf { data, strides } = self;
        let data = match data {
            StridedBufData::Slice(s) => {
                let (_, rest) = s.split_at(n);
                StridedBufData::Slice(rest)
            },
            StridedBufData::SliceMut(s) => {
                let (_, rest) = s.split_at_mut(n);
                StridedBufData::SliceMut(rest)
            },
            StridedBufData::Owned(buf) => {
                let (_, rest) = buf.as_slice().split_at(n);
                StridedBufData::Owned(copy_bytes(rest))
            },
        };
        let r = StridedBuf { data, strides };
        assert(r.bytes() =~= self.bytes().skip(n as int));
        r
    }

    /// Copies every element of the region `shape` from `src`, laid out at `src_strides`, into
    /// this writable view at its own strides, elements of `itemsize` bytes, as [`copied`] states.
    pub fn copy_from(&mut self, src: &[u8], src_strides: &[usize], shape: &[usize], itemsize: usize)
        requires
            old(self).writable(),
            src_strides@.len() == shape@.len(),
            old(self).stride_seq().len() == shape@.len(),
            seq_prod(usize_ints(shape@)) <= usize::MAX,
            region_fits(shape@, src_strides@, itemsize as int, src@.len() as int),
            region_fits(shape@, old(self).stride_seq(), itemsize as int, old(self).bytes().len() as int),
            region_disjoint(shape@, old(self).stride_seq(), itemsize as int),
        ensures
            final(self).bytes() == copied(
                old(self).bytes(),
                src@,
                shape@,
                src_strides@,
                old(self).stride_seq(),
                itemsize as int,
            ),
            final(self).stride_seq() == old(self).stride_seq(),
            final(self).writable(),
    {
        let copier = NdCopier::new(itemsize);
        let StridedBuf { data, strides } = self;
        let dst: &mut [u8] = match data {
            StridedBufData::SliceMut(s) => &mut **s,
            StridedBufData::Owned(buf) => buf.as_mut_slice(),
            StridedBufData::Slice(_) => vstd::pervasive::unreached(),
        };
        copier.copy(src, dst, shape, src_strides, strides.as_slice());
    }

    /// A read-only view of the same bytes with the same strides.
    pub fn view(&self) -> (r: StridedBuf<'_>)
        ensures
            r.bytes() == self.bytes(),
            r.stride_seq() == self.stride_seq(),
            !r.writable(),
    {
        let (data, strides) = self.data();
        StridedBuf { data: StridedBufData::Slice(data), strides: copy_strides(strides) }
    }
}

/// A copy of `s`.
fn copy_bytes(s: &[u8]) -> (r: Vec<u8>)
    ensures
        r@ == s@,
{
    let mut v: Vec<u8> = Vec::new();
    let mut i: usize = 0;
    while i < s.len()
        invariant
            i <= s@.len(),
            v@ == s@.subrange(0, i as int),
        decreases s@.len() - i,
    {
        v.push(s[i]);
        i += 1;
    }
    assert(v@ == s@);
    v
}

/// A copy of `s`.
fn copy_strides(s: &[usize]) -> (r: Vec<usize>)
    ensures
        r@ == s@,
{
    let mut v: Vec<usize> = Vec::new();
    let mut i: usize = 0;
    while i < s.len()
        invariant
            i <= s@.len(),
            v@ == s@.subrange(0, i as int),
        decreases s@.len() - i,
    {
        v.push(s[i]);
        i += 1;
    }
    assert(v@ == s@);
    v
}


/// Checks a caller-given destination for a read of an array of `array_shape`: none is fine;
/// otherwise it must have one stride per dimension and be writable, else `InvalidArgument`.
pub fn check_out_buf(out: Option<&StridedBuf>, array_shape: &[u64]) -> (r: Result<(), Error>)
    ensures
        r is Ok <==> match out {
            None => true,
            Some(o) => o.stride_seq().len() == array_shape@.len() && o.writable(),
        },
        r matches Err(e) ==> e.kind == ErrorKind::InvalidArgument,
{
    match out {
        None => Ok(()),
        Some(o) => {
            if o.strides().len() != array_shape.len() {
                return Err(Error::new(ErrorKind::InvalidArgument));
            }
            if !o.is_writable() {
                return Err(Error::new(ErrorKind::InvalidArgument));
            }
            Ok(())
        },
    }
}

} // verus!
