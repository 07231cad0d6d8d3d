//! The container facade: header, record table, blocks and output in one call.
use vstd::prelude::*;
use crate::assemble::{arranged, assemble, block_datas, BlockOrder};
use crate::block::{block_view, blocks, blocks_spec, Block, Blocks};
use crate::format::DecodeError;
use crate::header::{header_len, header_spec, ident_at, table_from, BlockIdentifier, Header};

verus! {

/// A decoded container: its header, record table and blocks.
#[derive(Debug, Clone, PartialEq)]
pub struct EddsFile {
    pub header: Header,
    pub blocks: Blocks,
}

/// The header bytes, record table and decoded blocks of the container `s`.
pub open spec fn container_spec(s: Seq<u8>) -> Result<
    (Seq<u8>, Seq<BlockIdentifier>, Seq<(Seq<u8>, Seq<usize>)>),
    DecodeError,
> {
    match header_spec(s) {
        Err(e) => Err(e),
        Ok((h, t)) => match blocks_spec(s, (h.len() + 8 * t.len()) as int, t) {
            Err(e) => Err(e),
            Ok(bs) => Ok((h, t, bs)),
        },
    }
}

/// The output stream for the container `s`: its header bytes, then the
/// decoded blocks in `order`.
pub open spec fn decode_spec(s: Seq<u8>, order: BlockOrder) -> Result<Seq<u8>, DecodeError> {
    match container_spec(s) {
        Err(e) => Err(e),
        Ok((h, t, bs)) => Ok(h + arranged(bs.map_values(|b: (Seq<u8>, Seq<usize>)| b.0), order)),
    }
}

/// How frames that did not decompress are treated.
#[derive(Debug, Clone, Copy, PartialEq, Eq, Structural)]
pub enum FramePolicy {
    /// Skip them and report their offsets.
    Lenient,
    /// Fail the whole decode with `DecompressionError`.
    Strict,
}

/// The offsets of the failed frames of all blocks, in storage order.
pub open spec fn failed_in(bs: Seq<(Seq<u8>, Seq<usize>)>) -> Seq<usize>
    decreases bs.len(),
{
    if bs.len() == 0 {
        seq![]
    } else {
        failed_in(bs.drop_last()) + bs.last().1
    }
}

/// A record table read from `at` ends inside the input.
pub proof fn lemma_table_in_bounds(s: Seq<u8>, at: int)
    requires
        0 <= at <= s.len(),
        table_from(s, at) is Ok,
    ensures
        at + 8 * table_from(s, at)->Ok_0.len() <= s.len(),
    decreases s.len() - at,
{
    if at + 8 <= s.len() {
        if ident_at(s, at) is Ok {
            lemma_table_in_bounds(s, at + 8);
        }
    }
}

impl EddsFile {
    /// Decodes the header, the record table and every block of `input`.
    pub fn new(input: &[u8]) -> (r: Result<EddsFile, DecodeError>)
        ensures
            match r {
                Ok(f) => container_spec(input@) == Ok::<_, DecodeError>(
                    (
                        f.header.flags.0@,
                        f.header.block_identifiers.0@,
                        f.blocks.0@.map_values(|b: Block| block_view(b)),
                    ),
                ) && f.blocks.0@.len() == f.header.block_identifiers.0@.len() && forall|i: int|
                    0 <= i < f.blocks.0@.len() ==> (#[trigger] f.blocks.0@[i]).id
                        == f.header.block_identifiers.0@[i],
                Err(e) => container_spec(input@) == Err::<
                    (Seq<u8>, Seq<BlockIdentifier>, Seq<(Seq<u8>, Seq<usize>)>),
                    _,
                >(e),
            },
    {
        let header = match Header::from_bytes(input) {
            Ok(h) => h,
            Err(e) => return Err(e),
        };
        let n = input.len();
        proof {
            let hl = header_len(input@);
            assert(header.flags.0@.len() == hl);
            lemma_table_in_bounds(input@, hl);
        }
        let start = header.len();
        match blocks(&header.block_identifiers, input, start) {
            Ok(blocks) => Ok(EddsFile { header, blocks }),
            Err(e) => Err(e),
        }
    }

    /// The output stream: the header bytes, then the blocks in `order`.
    pub fn to_dds(&self, order: BlockOrder) -> (r: Vec<u8>)
        ensures
            r@ == self.header.flags.0@ + arranged(block_datas(self.blocks.0@), order),
    {
        assemble(self.header.flags.0.as_slice(), &self.blocks, order)
    }
}

/// Decodes the container `input` into a DDS stream, with the blocks written
/// last stored first.
pub fn decode(input: &[u8]) -> (r: Result<Vec<u8>, DecodeError>)
    ensures
        match r {
            Ok(v) => decode_spec(input@, BlockOrder::Reversed) == Ok::<_, DecodeError>(v@),
            Err(e) => decode_spec(input@, BlockOrder::Reversed) == Err::<Seq<u8>, _>(e),
        },
{
    match EddsFile::new(input) {
        Ok(f) => {
            let out = f.to_dds(BlockOrder::Reversed);
            proof {
                let bs = f.blocks.0@.map_values(|b: Block| block_view(b));
                assert(bs.map_values(|b: (Seq<u8>, Seq<usize>)| b.0) =~= block_datas(f.blocks.0@));
            }
            Ok(out)
        },
        Err(e) => Err(e),
    }
}

/// Decodes the container `input` into a DDS stream with the blocks in
/// `order`, and lists the offsets of the frames that did not decompress. Under
/// `FramePolicy::Strict` any such frame fails the decode instead.
pub fn decode_with(input: &[u8], order: BlockOrder, policy: FramePolicy) -> (r: Result<
    (Vec<u8>, Vec<usize>),
    DecodeError,
>)
    ensures
        match decode_spec(input@, order) {
            Err(e) => r == Err::<(Vec<u8>, Vec<usize>), _>(e),
            Ok(out) => {
                let failed = failed_in(container_spec(input@)->Ok_0.2);
                if policy == FramePolicy::Strict && failed.len() > 0 {
                    r == Err::<(Vec<u8>, Vec<usize>), _>(DecodeError::DecompressionError)
                } else {
                    r matches Ok(p) && p.0@ == out && p.1@ == failed
                }
            },
        },
{
    let f = match EddsFile::new(input) {
        Ok(f) => f,
        Err(e) => return Err(e),
    };
    let ghost bs = f.blocks.0@.map_values(|b: Block| block_view(b));
    let mut failed: Vec<usize> = Vec::new();
    let mut i: usize = 0;
    proof {
        assert(bs.take(0) =~= Seq::<(Seq<u8>, Seq<usize>)>::empty());
    }
    while i < f.blocks.0.len()
        invariant
            i <= f.blocks.0@.len(),
            bs == f.blocks.0@.map_values(|b: Block| block_view(b)),
            failed@ == failed_in(bs.take(i as int)),
        decreases f.blocks.0@.len() - i,
    {
        proof {
            assert(bs.take(i + 1).drop_last() =~= bs.take(i as int));
        }
        let offsets = &f.blocks.0[i].failed_frames;
        let mut j: usize = 0;
        let ghost before = failed@;
        while j < offsets.len()
            invariant
                j <= offsets@.len(),
                failed@ == before + offsets@.take(j as int),
            decreases offsets@.len() - j,
        {
            proof {
                assert(offsets@.take(j + 1) =~= offsets@.take(j as int).push(offsets@[j as int]));
            }
            failed.push(offsets[j]);
            j = j + 1;
        }
        proof {
            assert(offsets@.take(j as int) =~= offsets@);
        }
        i = i + 1;
    }
    proof {
        assert(bs.take(i as int) =~= bs);
    }
    if policy == FramePolicy::Strict && failed.len() > 0 {
        return Err(DecodeError::DecompressionError);
    }
    let out = f.to_dds(order);
    proof {
        assert(bs.map_values(|b: (Seq<u8>, Seq<usize>)| b.0) =~= block_datas(f.blocks.0@));
    }
    Ok((out, failed))
}

} // verus!
