//! Assembly of the output stream from the header and the decoded blocks.
use vstd::prelude::*;
use crate::block::{Block, Blocks};

verus! {

/// The order in which decoded blocks are written after the header.
#[derive(Debug, Clone, Copy, PartialEq, Eq, Structural)]
pub enum BlockOrder {
    /// In storage order.
    AsParsed,
    /// Last stored block first, as `decode` writes them.
    Reversed,
}

/// The byte sequences of `bs`, joined in order.
pub open spec fn concat(bs: Seq<Seq<u8>>) -> Seq<u8>
    decreases bs.len(),
{
    if bs.len() == 0 {
        seq![]
    } else {
        concat(bs.drop_last()) + bs.last()
    }
}

/// The byte sequences of `bs`, joined last first.
pub open spec fn concat_reversed(bs: Seq<Seq<u8>>) -> Seq<u8>
    decreases bs.len(),
{
    if bs.len() == 0 {
        seq![]
    } else {
        concat_reversed(bs.drop_first()) + bs[0]
    }
}

/// The byte sequences of `bs`, joined in `order`.
pub open spec fn arranged(bs: Seq<Seq<u8>>, order: BlockOrder) -> Seq<u8> {
    match order {
        BlockOrder::AsParsed => concat(bs),
        BlockOrder::Reversed => concat_reversed(bs),
    }
}

/// The decoded bytes of each block.
pub open spec fn block_datas(bs: Seq<Block>) -> Seq<Seq<u8>> {
    bs.map_values(|b: Block| b.data@)
}

/// Writes `header` and then the bytes of the blocks, in `order`.
pub fn assemble(header: &[u8], blocks: &Blocks, order: BlockOrder) -> (r: Vec<u8>)
    ensures
        r@ == header@ + arranged(block_datas(blocks.0@), order),
{
    let ghost ds = block_datas(blocks.0@);
    let mut out: Vec<u8> = vstd::slice::slice_to_vec(header);
    let n = blocks.0.len();
    match order {
        BlockOrder::AsParsed => {
            let mut i: usize = 0;
            proof {
                assert(ds.take(0) =~= Seq::<Seq<u8>>::empty());
                assert(out@ =~= header@ + concat(ds.take(0)));
            }
            while i < n
                invariant
                    n == blocks.0@.len(),
                    ds == block_datas(blocks.0@),
                    i <= n,
                    out@ == header@ + concat(ds.take(i as int)),
                decreases n - i,
            {
                proof {
                    assert(ds.take(i + 1).drop_last() =~= ds.take(i as int));
                }
                crate::frames::append_bytes(&mut out, blocks.0[i].data.as_slice());
                proof {
                    assert(out@ =~= header@ + (concat(ds.take(i as int)) + ds[i as int]));
                }
                i = i + 1;
            }
            proof {
                assert(ds.take(i as int) =~= ds);
            }
        },
        BlockOrder::Reversed => {
            let mut i: usize = n;
            proof {
                assert(ds.subrange(n as int, n as int) =~= Seq::<Seq<u8>>::empty());
                assert(out@ =~= header@ + concat_reversed(ds.subrange(n as int, n as int)));
            }
            while i > 0
                invariant
                    n == blocks.0@.len(),
                    ds == block_datas(blocks.0@),
                    i <= n,
                    out@ == header@ + concat_reversed(ds.subrange(i as int, n as int)),
                decreases i,
            {
                proof {
                    assert(ds.subrange(i - 1, n as int).drop_first() =~= ds.subrange(
                        i as int,
                        n as int,
                    ));
                }
                crate::frames::append_bytes(&mut out, blocks.0[i - 1].data.as_slice());
                proof {
                    assert(out@ =~= header@ + (concat_reversed(ds.subrange(i as int, n as int))
                        + ds[i - 1]));
                }
                i = i - 1;
            }
            proof {
                assert(ds.subrange(0, n as int) =~= ds);
            }
        },
    }
    out
}

} // verus!
