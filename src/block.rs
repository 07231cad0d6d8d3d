//! Extraction of the block bodies that follow the record table.
use vstd::prelude::*;
use crate::format::{read_u32_le, u32_le, DecodeError};
use crate::frames::{
    collect_frames, decode_frames, failed_offsets, frame_outputs, frame_size_of, frame_table,
    frames_from, joined, output_cap, MAX_FRAME_OUTPUT,
};
use crate::header::{BlockIdentifier, BlockIdentifiers, BlockKind};

verus! {

/// The reconstructed bytes of one block.
#[derive(Debug, Clone, PartialEq)]
pub struct Block {
    /// The record the block was read by.
    pub id: BlockIdentifier,
    /// The decoded bytes.
    pub data: Vec<u8>,
    /// Offsets of the frame headers whose frames did not decompress; always
    /// empty for a verbatim block.
    pub failed_frames: Vec<usize>,
}

/// The blocks of a container, in storage order.
#[derive(Debug, Clone, PartialEq)]
pub struct Blocks(pub Vec<Block>);

/// What a block holds: its bytes and the offsets of its failed frames.
pub open spec fn block_view(b: Block) -> (Seq<u8>, Seq<usize>) {
    (b.data@, b.failed_frames@)
}

/// A block stored as frames at `o` with stored length `stored`.
pub open spec fn framed_content(s: Seq<u8>, o: int, stored: int) -> Result<
    (Seq<u8>, Seq<usize>),
    DecodeError,
> {
    if o < 0 || o + 4 > s.len() {
        Err(DecodeError::TruncatedInput)
    } else {
        match frames_from(s, o + 4, stored) {
            None => Err(DecodeError::TruncatedInput),
            Some(fs) => {
                let outs = frame_outputs(s, fs, output_cap(u32_le(s, o)) as nat);
                Ok((joined(outs), failed_offsets(fs, outs)))
            },
        }
    }
}

/// The block that record `id` describes, stored at `o`.
pub open spec fn block_content(s: Seq<u8>, o: int, id: BlockIdentifier) -> Result<
    (Seq<u8>, Seq<usize>),
    DecodeError,
> {
    if o < 0 || o + id.length > s.len() {
        Err(DecodeError::TruncatedInput)
    } else {
        match id.kind {
            BlockKind::Copy => Ok((s.subrange(o, o + id.length), seq![])),
            BlockKind::Lz4 => framed_content(s, o, id.length as int),
        }
    }
}

/// Total stored length of the blocks of `ids`.
pub open spec fn span(ids: Seq<BlockIdentifier>) -> int
    decreases ids.len(),
{
    if ids.len() == 0 {
        0
    } else {
        span(ids.drop_last()) + ids.last().length
    }
}

/// The blocks of `ids`, laid out back to back from `start`.
pub open spec fn blocks_spec(s: Seq<u8>, start: int, ids: Seq<BlockIdentifier>) -> Result<
    Seq<(Seq<u8>, Seq<usize>)>,
    DecodeError,
>
    decreases ids.len(),
{
    if ids.len() == 0 {
        Ok(seq![])
    } else {
        match blocks_spec(s, start, ids.drop_last()) {
            Err(e) => Err(e),
            Ok(prev) => match block_content(s, start + span(ids.drop_last()), ids.last()) {
                Err(e) => Err(e),
                Ok(b) => Ok(prev.push(b)),
            },
        }
    }
}

/// Every frame of a successful walk lies inside the input.
pub proof fn lemma_frames_in_bounds(s: Seq<u8>, p: int, stored: int)
    requires
        s.len() <= usize::MAX,
        frames_from(s, p, stored) is Some,
    ensures
        forall|i: int|
            0 <= i < frames_from(s, p, stored)->Some_0.len() ==> {
                let f = #[trigger] frames_from(s, p, stored)->Some_0[i];
                f.offset + 4 + f.size <= s.len()
            },
    decreases s.len() - p,
{
    let size = frame_size_of(u32_le(s, p));
    if size < stored && p + 4 + size <= s.len() {
        lemma_frames_in_bounds(s, p + 4 + size, stored);
        let fs = frames_from(s, p, stored)->Some_0;
        let rest = frames_from(s, p + 4 + size, stored)->Some_0;
        assert forall|i: int| 0 < i < fs.len() implies fs[i] == rest[i - 1] by {}
    }
}

/// Decodes a block stored as frames at `at` with stored length `stored`.
pub fn decode_framed(input: &[u8], at: usize, stored: usize) -> (r: Result<
    (Vec<u8>, Vec<usize>),
    DecodeError,
>)
    ensures
        match r {
            Ok(c) => framed_content(input@, at as int, stored as int) == Ok::<_, DecodeError>(
                (c.0@, c.1@),
            ),
            Err(e) => framed_content(input@, at as int, stored as int) == Err::<
                (Seq<u8>, Seq<usize>),
                _,
            >(e),
        },
{
    if input.len() < 4 || at > input.len() - 4 {
        return Err(DecodeError::TruncatedInput);
    }
    let total = read_u32_le(input, at);
    let cap: usize = if total < 65536 {
        total as usize
    } else {
        MAX_FRAME_OUTPUT
    };
    let frames = match frame_table(input, at + 4, stored) {
        Some(fs) => fs,
        None => return Err(DecodeError::TruncatedInput),
    };
    proof {
        lemma_frames_in_bounds(input@, at + 4, stored as int);
    }
    let outputs = decode_frames(input, &frames, cap);
    Ok(collect_frames(&frames, &outputs))
}

/// Decodes the block that record `id` describes, stored at `at`.
pub fn block(id: BlockIdentifier, input: &[u8], at: usize) -> (r: Result<Block, DecodeError>)
    ensures
        match r {
            Ok(b) => b.id == id && block_content(input@, at as int, id) == Ok::<_, DecodeError>(
                block_view(b),
            ),
            Err(e) => block_content(input@, at as int, id) == Err::<(Seq<u8>, Seq<usize>), _>(
                e,
            ),
        },
{
    if at > input.len() || id.length > input.len() - at {
        return Err(DecodeError::TruncatedInput);
    }
    match id.kind {
        BlockKind::Copy => {
            let data = vstd::slice::slice_to_vec(
                vstd::slice::slice_subrange(input, at, at + id.length),
            );
            Ok(Block { id, data, failed_frames: Vec::new() })
        },
        BlockKind::Lz4 => match decode_framed(input, at, id.length) {
            Ok((data, failed_frames)) => Ok(Block { id, data, failed_frames }),
            Err(e) => Err(e),
        },
    }
}

/// Decodes the blocks of `ids`, laid out back to back from `start`.
pub fn blocks(ids: &BlockIdentifiers, input: &[u8], start: usize) -> (r: Result<
    Blocks,
    DecodeError,
>)
    ensures
        match r {
            Ok(bs) => blocks_spec(input@, start as int, ids.0@) == Ok::<_, DecodeError>(
                bs.0@.map_values(|b: Block| block_view(b)),
            ) && bs.0@.len() == ids.0@.len() && forall|i: int|
                0 <= i < ids.0@.len() ==> (#[trigger] bs.0@[i]).id == ids.0@[i],
            Err(e) => blocks_spec(input@, start as int, ids.0@) == Err::<
                Seq<(Seq<u8>, Seq<usize>)>,
                _,
            >(e),
        },
{
    let mut out: Vec<Block> = Vec::new();
    let mut at: usize = start;
    let mut i: usize = 0;
    proof {
        assert(ids.0@.take(0) =~= Seq::<BlockIdentifier>::empty());
        assert(out@.map_values(|b: Block| block_view(b)) =~= Seq::<(Seq<u8>, Seq<usize>)>::empty());
    }
    while i < ids.0.len()
        invariant
            i <= ids.0@.len(),
            out@.len() == i,
            at as int == start + span(ids.0@.take(i as int)),
            blocks_spec(input@, start as int, ids.0@.take(i as int)) == Ok::<_, DecodeError>(
                out@.map_values(|b: Block| block_view(b)),
            ),
            forall|k: int| 0 <= k < i ==> (#[trigger] out@[k]).id == ids.0@[k],
        decreases ids.0@.len() - i,
    {
        let id = ids.0[i];
        proof {
            assert(ids.0@.take(i + 1).drop_last() =~= ids.0@.take(i as int));
        }
        match block(id, input, at) {
            Ok(b) => {
                proof {
                    assert(out@.push(b).map_values(|b: Block| block_view(b)) =~= out@.map_values(
                        |b: Block| block_view(b),
                    ).push(block_view(b)));
                }
                let n = input.len();
                assert(at + id.length <= n);
                out.push(b);
                at = at + id.length;
                i = i + 1;
            },
            Err(e) => {
                proof {
                    lemma_blocks_error_persists(input@, start as int, ids.0@, i as int);
                }
                return Err(e);
            },
        }
    }
    proof {
        assert(ids.0@.take(i as int) =~= ids.0@);
    }
    Ok(Blocks(out))
}

/// Once a prefix of the blocks fails, so does the whole sequence.
pub proof fn lemma_blocks_error_persists(
    s: Seq<u8>,
    start: int,
    ids: Seq<BlockIdentifier>,
    i: int,
)
    requires
        0 <= i < ids.len(),
        blocks_spec(s, start, ids.take(i + 1)) is Err,
    ensures
        blocks_spec(s, start, ids) == blocks_spec(s, start, ids.take(i + 1)),
    decreases ids.len() - i,
{
    if i + 1 < ids.len() {
        assert(ids.take(i + 2).drop_last() =~= ids.take(i + 1));
        lemma_blocks_error_persists(s, start, ids, i + 1);
    } else {
        assert(ids.take(i + 1) =~= ids);
    }
}

} // verus!
