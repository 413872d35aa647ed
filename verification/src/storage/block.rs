use vstd::prelude::*;
use crate::error::{Error, ErrorKind};
use crate::storage::params::{BlockSize, Itemsize};

verus! {

// ---------------------------------------------------------------------------
// Where the compressed blocks lie
// ---------------------------------------------------------------------------

/// The locations of two blocks within the compressed data buffer: block `2i` uses lane `0` of
/// entry `i`, block `2i + 1` lane `1`.
///
/// A location is an `(offset, len)` pair; block lengths always fit in `u32`, so two blocks share
/// one 24-byte entry without padding.
#[derive(Clone, Copy)]
pub struct BlockLocation2 {
    /// Byte offset into the data buffer where each block's compressed data begins.
    pub offset: [u64; 2],
    /// Byte length of each block's compressed data.
    pub len: [u32; 2],
}

impl BlockLocation2 {
    /// An entry with both lanes at offset 0 and length 0.
    pub fn empty() -> (r: Self)
        ensures
            r.offset@ == seq![0u64, 0u64],
            r.len@ == seq![0u32, 0u32],
    {
        BlockLocation2 { offset: [0, 0], len: [0, 0] }
    }
}

/// The offset of block `i` in a table of packed locations.
pub open spec fn location_offset(locs: Seq<BlockLocation2>, i: int) -> int {
    locs[i / 2].offset@[i % 2] as int
}

/// The length of block `i` in a table of packed locations.
pub open spec fn location_len(locs: Seq<BlockLocation2>, i: int) -> int {
    locs[i / 2].len@[i % 2] as int
}

/// The number of entries that hold the locations of `nblocks` blocks.
pub open spec fn entries_for(nblocks: int) -> int {
    (nblocks + 1) / 2
}

/// Every one of the `nblocks` blocks lies within `data_len` bytes.
pub open spec fn locations_in_bounds(locs: Seq<BlockLocation2>, nblocks: int, data_len: int) -> bool {
    forall|i: int|
        0 <= i < nblocks ==> #[trigger] location_offset(locs, i) + location_len(locs, i) <= data_len
}

/// The entry of block `i`, and the lane within it: `i >> 1` and `i & 1`.
proof fn lemma_lane(i: u64)
    ensures
        i >> 1u64 == i / 2,
        i & 1u64 == i % 2,
{
    assert(i >> 1u64 == i / 2) by (bit_vector);
    assert(i & 1u64 == i % 2) by (bit_vector);
}

// ---------------------------------------------------------------------------
// The block table
// ---------------------------------------------------------------------------

/// Compressed 1-d storage of items, divided into independently encoded blocks of `block_size`
/// items each.
///
/// The compressed bytes of all blocks live in one buffer, in any order; block `i` occupies
/// `location_len` bytes starting at `location_offset`, which gives random access to any block
/// without scanning the compressed data. All blocks are full: the number of items is the number
/// of blocks times `block_size`.
pub struct BlockTable {
    block_data: Vec<u8>,
    blocks_loc: Vec<BlockLocation2>,
    nitems: u64,
    block_size: BlockSize,
}

impl BlockTable {
    /// The compressed bytes of all blocks.
    pub closed spec fn data(&self) -> Seq<u8> {
        self.block_data@
    }

    /// The packed block locations.
    pub closed spec fn locations(&self) -> Seq<BlockLocation2> {
        self.blocks_loc@
    }

    /// The number of items.
    pub closed spec fn item_count(&self) -> u64 {
        self.nitems
    }

    /// The number of items per block.
    pub closed spec fn items_per_block(&self) -> BlockSize {
        self.block_size
    }

    /// The number of blocks.
    pub open spec fn block_count(&self) -> int {
        self.item_count() as int / (self.items_per_block() as int)
    }

    /// The compressed bytes of block `i`.
    pub open spec fn block_bytes_of(&self, i: int) -> Seq<u8> {
        self.data().subrange(
            location_offset(self.locations(), i),
            location_offset(self.locations(), i) + location_len(self.locations(), i),
        )
    }

    /// The table is consistent: blocks are non-empty, the items fill whole blocks, there is one
    /// location per block, and every block lies within the data.
    pub open spec fn wf(&self) -> bool {
        &&& self.items_per_block() > 0
        &&& self.item_count() as int % (self.items_per_block() as int) == 0
        &&& self.locations().len() == entries_for(self.block_count())
        &&& locations_in_bounds(self.locations(), self.block_count(), self.data().len() as int)
    }

    /// Builds a table from pre-encoded data: `block_data` holds the compressed bytes of
    /// `nblocks` blocks of `block_size` items each, whose locations `blocks_loc` packs two per
    /// entry. Refuses a block size of 0.
    pub fn new(
        block_data: Vec<u8>,
        blocks_loc: Vec<BlockLocation2>,
        nblocks: u64,
        block_size: BlockSize,
    ) -> (r: Result<Self, Error>)
        requires
            nblocks * block_size <= u64::MAX,
            blocks_loc@.len() == entries_for(nblocks as int),
            locations_in_bounds(blocks_loc@, nblocks as int, block_data@.len() as int),
        ensures
            r is Err <==> block_size == 0,
            r matches Err(e) ==> e.kind == ErrorKind::InvalidArgument,
            r matches Ok(t) ==> {
                &&& t.wf()
                &&& t.data() == block_data@
                &&& t.locations() == blocks_loc@
                &&& t.item_count() == nblocks * block_size
                &&& t.items_per_block() == block_size
                &&& t.block_count() == nblocks
            },
    {
        if block_size == 0 {
            return Err(Error::new(ErrorKind::InvalidArgument));
        }
        let nitems = nblocks * block_size as u64;
        proof {
            vstd::arithmetic::div_mod::lemma_div_multiples_vanish(nblocks as int, block_size as int);
            vstd::arithmetic::div_mod::lemma_mod_multiples_basic(nblocks as int, block_size as int);
            assert(nitems as int == block_size as int * nblocks as int) by (nonlinear_arith)
                requires
                    nitems == nblocks * block_size,
            ;
        }
        Ok(BlockTable { block_data, blocks_loc, nitems, block_size })
    }

    /// The number of items.
    pub fn nitems(&self) -> (r: u64)
        ensures
            r == self.item_count(),
    {
        self.nitems
    }

    /// The number of items per block.
    pub fn block_size(&self) -> (r: BlockSize)
        ensures
            r == self.items_per_block(),
    {
        self.block_size
    }

    /// The number of blocks.
    pub fn nblocks(&self) -> (r: u64)
        requires
            self.wf(),
        ensures
            r == self.block_count(),
    {
        self.nitems / self.block_size as u64
    }

    /// The byte offset and length of block `block_idx`'s compressed data.
    pub fn block_location(&self, block_idx: u64) -> (r: (u64, BlockSize))
        requires
            self.wf(),
            block_idx < self.block_count(),
        ensures
            r.0 == location_offset(self.locations(), block_idx as int),
            r.1 == location_len(self.locations(), block_idx as int),
    {
        let nloc = self.blocks_loc.len();
        proof {
            lemma_lane(block_idx);
            assert(block_idx / 2 < nloc);
        }
        let entry = (block_idx >> 1u64) as usize;
        let lane = (block_idx & 1u64) as usize;
        let loc = &self.blocks_loc[entry];
        proof {
            assert(entry as int == block_idx as int / 2);
            assert(lane as int == block_idx as int % 2);
            assert(*loc == self.locations()[block_idx as int / 2]);
        }
        (loc.offset[lane], loc.len[lane])
    }

    /// The compressed bytes of block `block_idx`.
    pub fn block_bytes(&self, block_idx: u64) -> (r: &[u8])
        requires
            self.wf(),
            block_idx < self.block_count(),
        ensures
            r@ == self.block_bytes_of(block_idx as int),
    {
        let (offset, len) = self.block_location(block_idx);
        let dlen = self.block_data.len();
        proof {
            assert(location_offset(self.locations(), block_idx as int) + location_len(
                self.locations(),
                block_idx as int,
            ) <= self.data().len());
            assert(offset + len <= dlen);
        }
        let (_, rest) = self.block_data.as_slice().split_at(offset as usize);
        let (bytes, _) = rest.split_at(len as usize);
        proof {
            assert(bytes@ =~= self.block_bytes_of(block_idx as int));
        }
        bytes
    }
}

// ---------------------------------------------------------------------------
// Building a table block by block
// ---------------------------------------------------------------------------

/// Builds a [`BlockTable`] in memory from compressed blocks handed over one at a time, in any
/// order.
pub struct OwnedBlockTableBuilder {
    block_data: Vec<u8>,
    blocks_loc: Vec<BlockLocation2>,
    block_size: BlockSize,
    nblocks: u64,
}

impl OwnedBlockTableBuilder {
    /// The compressed bytes appended so far.
    pub closed spec fn data(&self) -> Seq<u8> {
        self.block_data@
    }

    /// The packed block locations recorded so far.
    pub closed spec fn locations(&self) -> Seq<BlockLocation2> {
        self.blocks_loc@
    }

    /// The number of blocks of the table being built.
    pub closed spec fn block_count(&self) -> u64 {
        self.nblocks
    }

    /// The number of items per block.
    pub closed spec fn items_per_block(&self) -> BlockSize {
        self.block_size
    }

    /// The bytes recorded for block `i`.
    pub open spec fn block_bytes_of(&self, i: int) -> Seq<u8> {
        self.data().subrange(
            location_offset(self.locations(), i),
            location_offset(self.locations(), i) + location_len(self.locations(), i),
        )
    }

    /// There is one location per block, and every block lies within the data.
    pub open spec fn wf(&self) -> bool {
        &&& self.locations().len() == entries_for(self.block_count() as int)
        &&& locations_in_bounds(self.locations(), self.block_count() as int, self.data().len() as int)
    }

    /// Starts building a table of `nblocks` blocks of `block_size` items, every block empty.
    pub fn start(nblocks: u64, block_size: BlockSize) -> (r: Self)
        requires
            nblocks < u64::MAX,
            entries_for(nblocks as int) <= usize::MAX,
        ensures
            r.wf(),
            r.data() == Seq::<u8>::empty(),
            r.block_count() == nblocks,
            r.items_per_block() == block_size,
            forall|i: int| 0 <= i < nblocks ==> #[trigger] location_len(r.locations(), i) == 0,
    {
        let n = ((nblocks + 1) / 2) as usize;
        let mut blocks_loc: Vec<BlockLocation2> = Vec::new();
        let mut k: usize = 0;
        while k < n
            invariant
                k <= n,
                blocks_loc@.len() == k,
                forall|j: int|
                    #![trigger blocks_loc@[j]]
                    0 <= j < k ==> blocks_loc@[j].offset@ == seq![0u64, 0u64] && blocks_loc@[j].len@
                        == seq![0u32, 0u32],
            decreases n - k,
        {
            blocks_loc.push(BlockLocation2::empty());
            k += 1;
        }
        let r = OwnedBlockTableBuilder { block_data: Vec::new(), blocks_loc, block_size, nblocks };
        proof {
            assert(n as int == (nblocks + 1) / 2);
            assert forall|i: int| 0 <= i < nblocks implies #[trigger] location_len(r.locations(), i)
                == 0 && location_offset(r.locations(), i) == 0 by {
                assert(0 <= i / 2 < n);
                assert(r.locations()[i / 2] == blocks_loc@[i / 2]);
                assert(r.locations()[i / 2].len@ == seq![0u32, 0u32]);
                assert(r.locations()[i / 2].offset@ == seq![0u64, 0u64]);
            }
        }
        r
    }

    /// Appends block `block_index`'s compressed bytes to the data and records their location:
    /// the block now starts where the data ended and is `compressed.len()` bytes long. The bytes
    /// already appended and the other blocks' locations stay as they were.
    pub fn write_compressed_block(&mut self, block_index: u64, compressed: &[u8]) -> (r: Result<
        (),
        Error,
    >)
        requires
            old(self).wf(),
            block_index < old(self).block_count(),
            compressed@.len() <= u32::MAX,
            old(self).data().len() + compressed@.len() <= u64::MAX,
        ensures
            r is Ok,
            final(self).wf(),
            final(self).block_count() == old(self).block_count(),
            final(self).items_per_block() == old(self).items_per_block(),
            final(self).data() == old(self).data() + compressed@,
            location_offset(final(self).locations(), block_index as int) == old(self).data().len(),
            location_len(final(self).locations(), block_index as int) == compressed@.len(),
            final(self).block_bytes_of(block_index as int) == compressed@,
            forall|i: int|
                0 <= i < old(self).block_count() && i != block_index ==> {
                    &&& location_offset(final(self).locations(), i) == location_offset(
                        old(self).locations(),
                        i,
                    )
                    &&& #[trigger] location_len(final(self).locations(), i) == location_len(
                        old(self).locations(),
                        i,
                    )
                    &&& final(self).block_bytes_of(i) == old(self).block_bytes_of(i)
                },
    {
        proof {
            lemma_lane(block_index);
        }
        let offset = self.block_data.len() as u64;
        let ghost old_data = self.block_data@;
        let ghost old_locs = self.blocks_loc@;
        let mut k: usize = 0;
        while k < compressed.len()
            invariant
                k <= compressed@.len(),
                self.block_data@ == old_data + compressed@.subrange(0, k as int),
                self.blocks_loc@ == old_locs,
                self.nblocks == old(self).nblocks,
                self.block_size == old(self).block_size,
            decreases compressed.len() - k,
        {
            self.block_data.push(compressed[k]);
            proof {
                assert(compressed@.subrange(0, k as int + 1) =~= compressed@.subrange(0, k as int).push(
                    compressed@[k as int],
                ));
            }
            k += 1;
        }
        proof {
            assert(compressed@.subrange(0, compressed@.len() as int) =~= compressed@);
        }
        proof {
            assert(block_index / 2 < self.blocks_loc@.len());
        }
        let entry = (block_index >> 1u64) as usize;
        let lane = (block_index & 1u64) as usize;
        let mut loc = self.blocks_loc[entry];
        loc.offset[lane] = offset;
        loc.len[lane] = compressed.len() as u32;
        self.blocks_loc.set(entry, loc);
        proof {
            assert(entry as int == block_index as int / 2);
            assert(lane as int == block_index as int % 2);
            assert(self.locations()[block_index as int / 2] == loc);
            assert(loc.offset@[lane as int] == offset);
            assert(loc.len@[lane as int] == compressed@.len());
            assert(location_offset(self.locations(), block_index as int) == old_data.len());
            assert(location_len(self.locations(), block_index as int) == compressed@.len());
            let e = block_index as int / 2;
            let l = block_index as int % 2;
            assert forall|i: int|
                0 <= i < old(self).block_count() && i != block_index implies {
                &&& location_offset(self.locations(), i) == location_offset(old_locs, i)
                &&& location_len(self.locations(), i) == location_len(old_locs, i)
            } by {
                if i / 2 == e {
                    assert(i % 2 != l);
                }
            }
            assert forall|i: int|
                0 <= i < self.block_count() implies #[trigger] location_offset(self.locations(), i)
                + location_len(self.locations(), i) <= self.data().len() by {
                if i != block_index {
                    assert(location_offset(old_locs, i) + location_len(old_locs, i) <= old_data.len());
                }
            }
            assert forall|i: int|
                0 <= i < old(self).block_count() && i != block_index implies self.block_bytes_of(i)
                == old(self).block_bytes_of(i) by {
                assert(location_offset(old_locs, i) + location_len(old_locs, i) <= old_data.len());
                assert(self.block_bytes_of(i) =~= old(self).block_bytes_of(i));
            }
            assert(self.block_bytes_of(block_index as int) =~= compressed@);
        }
        Ok(())
    }

    /// Completes the table. Refuses a block size of 0.
    pub fn finalize(self) -> (r: Result<BlockTable, Error>)
        requires
            self.wf(),
            self.block_count() * self.items_per_block() <= u64::MAX,
        ensures
            r is Err <==> self.items_per_block() == 0,
            r matches Err(e) ==> e.kind == ErrorKind::InvalidArgument,
            r matches Ok(t) ==> {
                &&& t.wf()
                &&& t.data() == self.data()
                &&& t.locations() == self.locations()
                &&& t.block_count() == self.block_count()
                &&& t.items_per_block() == self.items_per_block()
                &&& t.item_count() == self.block_count() * self.items_per_block()
            },
    {
        BlockTable::new(self.block_data, self.blocks_loc, self.nblocks, self.block_size)
    }
}

/// What a finished table gives back of what was written: the compressed bytes of every block
/// are those the builder recorded for it.
pub proof fn lemma_table_keeps_blocks(builder: OwnedBlockTableBuilder, table: BlockTable, i: int)
    requires
        builder.wf(),
        table.data() == builder.data(),
        table.locations() == builder.locations(),
        0 <= i < builder.block_count(),
    ensures
        table.block_bytes_of(i) == builder.block_bytes_of(i),
{
}


// ---------------------------------------------------------------------------
// Building a table from data
// ---------------------------------------------------------------------------

/// `data_len` bytes split into whole blocks of `block_size` items of `itemsize` bytes: both sizes
/// are positive, the bytes make whole items and the items make whole blocks.
pub open spec fn splits_into_blocks(data_len: int, itemsize: int, block_size: int) -> bool {
    &&& itemsize > 0
    &&& block_size > 0
    &&& data_len % itemsize == 0
    &&& (data_len / itemsize) % block_size == 0
}

/// Checks that `data_len` bytes split into whole blocks of `block_size` items of `itemsize`
/// bytes, and gives the number of items, the number of blocks and the bytes of one block; else
/// `InvalidArgument`.
pub fn split_into_blocks(data_len: usize, itemsize: Itemsize, block_size: BlockSize) -> (r: Result<
    (u64, u64, u64),
    Error,
>)
    ensures
        r is Ok <==> splits_into_blocks(data_len as int, itemsize as int, block_size as int),
        r matches Err(e) ==> e.kind == ErrorKind::InvalidArgument,
        r matches Ok((nitems, nblocks, block_bytes)) ==> {
            &&& nitems == data_len as int / itemsize as int
            &&& nblocks == nitems as int / block_size as int
            &&& nblocks * block_size == nitems
            &&& block_bytes == block_size as int * itemsize as int
            &&& nblocks * block_bytes == data_len
        },
{
    if itemsize == 0 || block_size == 0 {
        return Err(Error::new(ErrorKind::InvalidArgument));
    }
    let isz = itemsize as u64;
    let len = data_len as u64;
    if len % isz != 0 {
        return Err(Error::new(ErrorKind::InvalidArgument));
    }
    let nitems = len / isz;
    let bs = block_size as u64;
    if nitems % bs != 0 {
        return Err(Error::new(ErrorKind::InvalidArgument));
    }
    let nblocks = nitems / bs;
    proof {
        vstd::arithmetic::div_mod::lemma_fundamental_div_mod(len as int, isz as int);
        vstd::arithmetic::div_mod::lemma_fundamental_div_mod(nitems as int, bs as int);
        assert(nblocks * bs == nitems) by (nonlinear_arith)
            requires
                nitems == bs * nblocks + nitems % bs,
                nitems % bs == 0,
        ;
        assert(nitems * isz == len) by (nonlinear_arith)
            requires
                len == isz * nitems + len % isz,
                len % isz == 0,
        ;
        assert(nblocks * (bs * isz) == len) by (nonlinear_arith)
            requires
                nblocks * bs == nitems,
                nitems * isz == len,
        ;
        assert(bs * isz <= 0xffff_ffff * 0xffff) by (nonlinear_arith)
            requires
                bs <= 0xffff_ffff,
                isz <= 0xffff,
        ;
    }
    Ok((nitems, nblocks, bs * isz))
}

/// The total length of the first `k` encoded blocks.
pub open spec fn encoded_len(blocks: Seq<Vec<u8>>, k: int) -> int
    decreases k,
{
    if k <= 0 {
        0
    } else {
        encoded_len(blocks, k - 1) + blocks[k - 1]@.len()
    }
}

proof fn lemma_encoded_len_mono(blocks: Seq<Vec<u8>>, j: int, k: int)
    requires
        0 <= j <= k <= blocks.len(),
    ensures
        encoded_len(blocks, j) <= encoded_len(blocks, k),
    decreases k - j,
{
    if j < k {
        lemma_encoded_len_mono(blocks, j, k - 1);
    }
}

/// Builds the table of `data_len` bytes of items of `itemsize` bytes split into blocks of
/// `block_size` items, from the compressed bytes of each block, `encoded[i]` for block `i`, laid
/// one after another. `InvalidArgument` when the data does not split into whole blocks
/// ([`splits_into_blocks`]) or when there is not one encoded block per block.
pub fn build_from_encoded_blocks(
    data_len: usize,
    itemsize: Itemsize,
    block_size: BlockSize,
    encoded: &[Vec<u8>],
) -> (r: Result<BlockTable, Error>)
    requires
        encoded@.len() < u64::MAX,
        forall|i: int| 0 <= i < encoded@.len() ==> #[trigger] encoded@[i]@.len() <= u32::MAX,
        encoded_len(encoded@, encoded@.len() as int) <= u64::MAX,
    ensures
        r is Ok <==> splits_into_blocks(data_len as int, itemsize as int, block_size as int)
            && encoded@.len() == data_len as int / itemsize as int / block_size as int,
        r matches Err(e) ==> e.kind == ErrorKind::InvalidArgument,
        r matches Ok(t) ==> {
            &&& t.wf()
            &&& t.items_per_block() == block_size
            &&& t.item_count() == data_len as int / itemsize as int
            &&& t.block_count() == encoded@.len()
            &&& forall|i: int| 0 <= i < encoded@.len() ==> #[trigger] t.block_bytes_of(i) == encoded@[i]@
        },
{
    let (nitems, nblocks, _block_bytes) = match split_into_blocks(data_len, itemsize, block_size) {
        Ok(v) => v,
        Err(e) => return Err(e),
    };
    if encoded.len() as u64 != nblocks {
        return Err(Error::new(ErrorKind::InvalidArgument));
    }
    let mut builder = OwnedBlockTableBuilder::start(nblocks, block_size);
    let n = encoded.len();
    let mut i: usize = 0;
    while i < n
        invariant
            i <= n,
            n == encoded@.len(),
            n == nblocks,
            builder.wf(),
            builder.block_count() == nblocks,
            builder.items_per_block() == block_size,
            builder.data().len() == encoded_len(encoded@, i as int),
            encoded_len(encoded@, n as int) <= u64::MAX,
            forall|k: int| 0 <= k < n ==> #[trigger] encoded@[k]@.len() <= u32::MAX,
            forall|k: int| 0 <= k < i ==> #[trigger] builder.block_bytes_of(k) == encoded@[k]@,
        decreases n - i,
    {
        proof {
            lemma_encoded_len_mono(encoded@, i as int + 1, n as int);
        }
        let ghost before = builder;
        let _ = builder.write_compressed_block(i as u64, encoded[i].as_slice());
        proof {
            assert forall|k: int| 0 <= k < i + 1 implies #[trigger] builder.block_bytes_of(k) == encoded@[k]@ by {
                if k < i {
                    assert(before.block_bytes_of(k) == encoded@[k]@);
                }
            }
        }
        i += 1;
    }
    let ghost done = builder;
    let r = builder.finalize();
    proof {
        if r is Ok {
            let t = r->Ok_0;
            assert forall|k: int| 0 <= k < n implies #[trigger] t.block_bytes_of(k) == encoded@[k]@ by {
                lemma_table_keeps_blocks(done, t, k);
            }
        }
    }
    r
}

} // verus!
