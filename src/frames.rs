//! The frame layout of a block stored as LZ4 frames.
//!
//! Such a block starts with a 32-bit total uncompressed size. Frames follow,
//! each a 32-bit header and that many compressed bytes. The header's low 31
//! bits give the frame size and its top bit is a reserved flag. A header
//! whose size is at least the block's stored length is a sentinel: it ends
//! the frames and is not consumed.
use vstd::prelude::*;
use crate::format::{read_u32_le, u32_le};
use crate::lz4::{decompress_block, lz4_block_decoded, MAX_FRAME_INPUT};

verus! {

/// Largest output that one frame may decompress to.
pub const MAX_FRAME_OUTPUT: usize = 65536;

/// One compressed frame of a framed block.
#[derive(Debug, Clone, Copy, PartialEq, Eq, Structural)]
pub struct Frame {
    /// Position of the frame's four-byte header in the input.
    pub offset: usize,
    /// Number of compressed bytes after the header.
    pub size: usize,
    /// The reserved top bit of the header.
    pub flag: bool,
}

/// The frame size that a header value holds: its low 31 bits.
pub open spec fn frame_size_of(h: int) -> int {
    if h >= 0x8000_0000 {
        h - 0x8000_0000
    } else {
        h
    }
}

/// Puts `f` in front of the frames that follow it.
pub open spec fn prepend_frames(f: Seq<Frame>, r: Option<Seq<Frame>>) -> Option<Seq<Frame>> {
    match r {
        Some(t) => Some(f + t),
        None => None,
    }
}

/// The frames whose headers start at `p`, up to the sentinel, in a block of
/// stored length `stored`; `None` when a read runs past the input.
pub open spec fn frames_from(s: Seq<u8>, p: int, stored: int) -> Option<Seq<Frame>>
    decreases s.len() - p,
{
    if p < 0 || p + 4 > s.len() {
        None
    } else {
        let h = u32_le(s, p);
        let size = frame_size_of(h);
        if size >= stored {
            Some(seq![])
        } else if p + 4 + size > s.len() {
            None
        } else {
            prepend_frames(
                seq![Frame { offset: p as usize, size: size as usize, flag: h >= 0x8000_0000 }],
                frames_from(s, p + 4 + size, stored),
            )
        }
    }
}

/// The compressed bytes of frame `f`.
pub open spec fn frame_bytes(s: Seq<u8>, f: Frame) -> Seq<u8> {
    s.subrange(f.offset + 4, f.offset + 4 + f.size)
}

/// The output bound of each frame of a block whose total size field is `total`.
pub open spec fn output_cap(total: int) -> int {
    if total < 65536 {
        total
    } else {
        65536
    }
}

/// What becomes of one frame: what the decompressor makes of it, or `None`
/// (a failed frame) when it is longer than the decompressor takes.
pub open spec fn frame_output(s: Seq<u8>, f: Frame, cap: nat) -> Option<Seq<u8>> {
    if f.size > MAX_FRAME_INPUT {
        None
    } else {
        lz4_block_decoded(frame_bytes(s, f), cap)
    }
}

/// What becomes of each frame.
pub open spec fn frame_outputs(s: Seq<u8>, fs: Seq<Frame>, cap: nat) -> Seq<Option<Seq<u8>>> {
    Seq::new(fs.len(), |i: int| frame_output(s, fs[i], cap))
}

/// The outputs of the frames that decompressed, in frame order.
pub open spec fn joined(outs: Seq<Option<Seq<u8>>>) -> Seq<u8>
    decreases outs.len(),
{
    if outs.len() == 0 {
        seq![]
    } else {
        joined(outs.drop_last()) + match outs.last() {
            Some(d) => d,
            None => seq![],
        }
    }
}

/// The offsets of the frames that did not decompress, in frame order.
pub open spec fn failed_offsets(fs: Seq<Frame>, outs: Seq<Option<Seq<u8>>>) -> Seq<usize>
    decreases fs.len(),
{
    if fs.len() == 0 || outs.len() == 0 {
        seq![]
    } else {
        let before = failed_offsets(fs.drop_last(), outs.drop_last());
        match outs.last() {
            Some(_) => before,
            None => before.push(fs.last().offset),
        }
    }
}

/// Views a list of frame outputs.
pub open spec fn outputs_view(v: Seq<Option<Vec<u8>>>) -> Seq<Option<Seq<u8>>> {
    v.map_values(
        |o: Option<Vec<u8>>|
            match o {
                Some(d) => Some(d@),
                None => None,
            },
    )
}

/// Walks the frame headers that start at `at`, up to the sentinel.
pub fn frame_table(input: &[u8], at: usize, stored: usize) -> (r: Option<Vec<Frame>>)
    ensures
        match r {
            Some(fs) => frames_from(input@, at as int, stored as int) == Some(fs@),
            None => frames_from(input@, at as int, stored as int) is None,
        },
{
    let mut fs: Vec<Frame> = Vec::new();
    let mut p: usize = at;
    loop
        invariant
            frames_from(input@, at as int, stored as int) == prepend_frames(
                fs@,
                frames_from(input@, p as int, stored as int),
            ),
        decreases input@.len() - p,
    {
        if input.len() < 4 || p > input.len() - 4 {
            return None;
        }
        let h = read_u32_le(input, p);
        let flag = h >= 0x8000_0000;
        let size: u32 = if flag {
            h - 0x8000_0000
        } else {
            h
        };
        if size as usize >= stored {
            proof {
                assert(fs@ + seq![] =~= fs@);
            }
            return Some(fs);
        }
        if size as usize > input.len() - 4 - p {
            return None;
        }
        let f = Frame { offset: p, size: size as usize, flag };
        proof {
            let rest = frames_from(input@, p + 4 + size, stored as int);
            assert(frames_from(input@, p as int, stored as int) == prepend_frames(seq![f], rest));
            match rest {
                Some(t) => assert(fs@ + (seq![f] + t) =~= fs@.push(f) + t),
                None => {},
            }
        }
        fs.push(f);
        p = p + 4 + size as usize;
    }
}

/// Appends `src` to `out`.
pub fn append_bytes(out: &mut Vec<u8>, src: &[u8])
    ensures
        final(out)@ == old(out)@ + src@,
{
    let mut i: usize = 0;
    while i < src.len()
        invariant
            i <= src@.len(),
            out@ == old(out)@ + src@.take(i as int),
        decreases src@.len() - i,
    {
        proof {
            assert(src@.take(i + 1) =~= src@.take(i as int).push(src@[i as int]));
        }
        out.push(src[i]);
        i = i + 1;
    }
    proof {
        assert(src@.take(i as int) =~= src@);
    }
}

/// Joins the outputs of a block's frames, in frame order, and lists the
/// offsets of the frames that did not decompress.
pub fn collect_frames(frames: &Vec<Frame>, outputs: &Vec<Option<Vec<u8>>>) -> (r: (
    Vec<u8>,
    Vec<usize>,
))
    requires
        frames@.len() == outputs@.len(),
    ensures
        r.0@ == joined(outputs_view(outputs@)),
        r.1@ == failed_offsets(frames@, outputs_view(outputs@)),
{
    let ghost ov = outputs_view(outputs@);
    let mut data: Vec<u8> = Vec::new();
    let mut failed: Vec<usize> = Vec::new();
    let mut i: usize = 0;
    while i < outputs.len()
        invariant
            i <= outputs@.len(),
            frames@.len() == outputs@.len(),
            ov == outputs_view(outputs@),
            data@ == joined(ov.take(i as int)),
            failed@ == failed_offsets(frames@.take(i as int), ov.take(i as int)),
        decreases outputs@.len() - i,
    {
        proof {
            assert(ov.take(i + 1).drop_last() =~= ov.take(i as int));
            assert(frames@.take(i + 1).drop_last() =~= frames@.take(i as int));
        }
        match &outputs[i] {
            Some(d) => {
                append_bytes(&mut data, d.as_slice());
            },
            None => {
                failed.push(frames[i].offset);
            },
        }
        i = i + 1;
    }
    proof {
        assert(ov.take(i as int) =~= ov);
        assert(frames@.take(i as int) =~= frames@);
    }
    (data, failed)
}

/// Decompresses each frame, with output bound `cap`; a frame longer than
/// the decompressor takes is not handed to it and counts as failed.
pub fn decode_frames(input: &[u8], frames: &Vec<Frame>, cap: usize) -> (r: Vec<Option<Vec<u8>>>)
    requires
        forall|i: int|
            0 <= i < frames@.len() ==> frames@[i].offset + 4 + frames@[i].size <= input@.len(),
    ensures
        outputs_view(r@) == frame_outputs(input@, frames@, cap as nat),
{
    let mut outs: Vec<Option<Vec<u8>>> = Vec::new();
    let mut i: usize = 0;
    while i < frames.len()
        invariant
            i <= frames@.len(),
            forall|k: int|
                0 <= k < frames@.len() ==> frames@[k].offset + 4 + frames@[k].size
                    <= input@.len(),
            outputs_view(outs@) =~= frame_outputs(input@, frames@.take(i as int), cap as nat),
        decreases frames@.len() - i,
    {
        let f = frames[i];
        let n = input.len();
        assert(f.offset + 4 + f.size <= n);
        let bytes = vstd::slice::slice_subrange(input, f.offset + 4, f.offset + 4 + f.size);
        let out = if f.size > MAX_FRAME_INPUT {
            None
        } else {
            match decompress_block(bytes, cap) {
                Ok(v) => Some(v),
                Err(_) => None,
            }
        };
        let ghost prev = outs@;
        proof {
            assert(bytes@ == frame_bytes(input@, frames@[i as int]));
            assert(outputs_view(seq![out])[0] == frame_output(input@, frames@[i as int], cap as nat));
        }
        outs.push(out);
        i = i + 1;
        proof {
            let ov = outputs_view(outs@);
            let fo = frame_outputs(input@, frames@.take(i as int), cap as nat);
            assert(outputs_view(prev) == frame_outputs(input@, frames@.take(i - 1), cap as nat));
            assert forall|k: int| 0 <= k < ov.len() implies ov[k] == fo[k] by {
                if k < i - 1 {
                    assert(outs@[k] == prev[k]);
                    assert(ov[k] == outputs_view(prev)[k]);
                }
            }
            assert(ov =~= fo);
        }
    }
    proof {
        assert(frames@.take(i as int) =~= frames@);
    }
    outs
}

} // verus!
