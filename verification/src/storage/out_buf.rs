use vstd::prelude::*;

verus! {

/// Where the bytes of an [`OutBuf`] live.
enum OutBufInner<'a> {
    /// Not allocated yet: the first demand for a writable slice allocates it.
    Lazy,
    /// A caller-provided buffer.
    Borrowed(&'a mut [u8]),
    /// A buffer allocated on demand.
    Tmp(Vec<u8>),
}

/// The destination of a read: a caller-provided byte buffer ([`OutBuf::new`]) or one allocated
/// on the first demand ([`OutBuf::new_lazy`]).
pub struct OutBuf<'a>(OutBufInner<'a>);

/// The number of items in the first `k` ranges of the index box `index` (the product of their
/// lengths).
pub open spec fn box_items(index: Seq<core::ops::Range<u64>>, k: int) -> int
    decreases k,
{
    if k <= 0 {
        1
    } else {
        box_items(index, k - 1) * (index[k - 1].end - index[k - 1].start)
    }
}

/// The index box is well formed and its item count, computed range by range, fits in a `u64`.
pub open spec fn box_fits(index: Seq<core::ops::Range<u64>>) -> bool {
    &&& forall|d: int| 0 <= d < index.len() ==> #[trigger] index[d].start <= index[d].end
    &&& forall|k: int| 0 <= k <= index.len() ==> #[trigger] box_items(index, k) <= u64::MAX
}

impl<'a> OutBuf<'a> {
    /// The buffer's contents, or `None` while a lazy buffer is not allocated.
    pub closed spec fn contents(&self) -> Option<Seq<u8>> {
        match &self.0 {
            OutBufInner::Lazy => None,
            OutBufInner::Borrowed(b) => Some(b@),
            OutBufInner::Tmp(v) => Some(v@),
        }
    }

    /// Writes into the caller-provided `buf`.
    pub fn new(buf: &'a mut [u8]) -> (r: Self)
        ensures
            r.contents() == Some(old(buf)@),
    {
        OutBuf(OutBufInner::Borrowed(buf))
    }

    /// Allocates on the first demand for a writable slice.
    pub fn new_lazy() -> (r: Self)
        ensures
            r.contents() is None,
    {
        OutBuf(OutBufInner::Lazy)
    }

    /// A writable slice for a read of the index box `index` with elements of `itemsize` bytes: a
    /// lazy buffer is first allocated (zeroed) with room for exactly that many bytes.
    pub fn get_mut(&mut self, index: &[core::ops::Range<u64>], itemsize: usize) -> (r: &mut [u8])
        requires
            old(self).contents() is None ==> box_fits(index@) && box_items(index@, index@.len() as int)
                * itemsize <= usize::MAX,
        ensures
            old(self).contents() matches Some(c) ==> r@ == c,
            old(self).contents() is None ==> r@ == Seq::new(
                (box_items(index@, index@.len() as int) * itemsize) as nat,
                |i: int| 0u8,
            ),
            final(self).contents() == Some(final(r)@),
    {
        if let OutBufInner::Lazy = &self.0 {
            let nbytes = box_bytes(index, itemsize);
            self.0 = OutBufInner::Tmp(vec![0u8; nbytes]);
        }
        match &mut self.0 {
            OutBufInner::Borrowed(b) => &mut **b,
            OutBufInner::Tmp(v) => v.as_mut_slice(),
            OutBufInner::Lazy => vstd::pervasive::unreached(),
        }
    }

    /// The buffer's contents, or `None` while a lazy buffer is not allocated.
    pub fn as_slice(&self) -> (r: Option<&[u8]>)
        ensures
            match self.contents() {
                Some(c) => r matches Some(s) && s@ == c,
                None => r is None,
            },
    {
        match &self.0 {
            OutBufInner::Lazy => None,
            OutBufInner::Borrowed(b) => Some(&**b),
            OutBufInner::Tmp(v) => Some(v.as_slice()),
        }
    }

    /// The buffer's contents for writing, or `None` while a lazy buffer is not allocated.
    pub fn as_mut_slice(&mut self) -> (r: Option<&mut [u8]>)
        ensures
            match old(self).contents() {
                Some(c) => r matches Some(s) && s@ == c && final(self).contents() == Some(final(s)@),
                None => r is None && final(self).contents() is None,
            },
    {
        match &mut self.0 {
            OutBufInner::Lazy => None,
            OutBufInner::Borrowed(b) => Some(&mut **b),
            OutBufInner::Tmp(v) => Some(v.as_mut_slice()),
        }
    }
}

/// The byte size of a read of the index box `index`.
fn box_bytes(index: &[core::ops::Range<u64>], itemsize: usize) -> (r: usize)
    requires
        box_fits(index@),
        box_items(index@, index@.len() as int) * itemsize <= usize::MAX,
    ensures
        r == box_items(index@, index@.len() as int) * itemsize,
{
    let n = index.len();
    let mut items: u64 = 1;
    let mut k: usize = 0;
    while k < n
        invariant
            k <= n,
            n == index@.len(),
            box_fits(index@),
            items == box_items(index@, k as int),
        decreases n - k,
    {
        assert(box_items(index@, k as int + 1) <= u64::MAX);
        items = items * (index[k].end - index[k].start);
        k += 1;
    }
    if itemsize == 0 {
        return 0;
    }
    assert(items <= items * itemsize) by (nonlinear_arith)
        requires
            itemsize >= 1,
    ;
    (items as usize) * itemsize
}

} // verus!
