//! Properties of the decoder, stated over its specification and proved.
use vstd::prelude::*;
use crate::assemble::{arranged, concat, concat_reversed, BlockOrder};
use crate::block::{block_content, blocks_spec, framed_content, lemma_blocks_error_persists, span};
use crate::convert::{container_spec, decode_spec};
use crate::format::{u32_le, DecodeError};
use crate::frames::{
    failed_offsets, frame_output, frame_outputs, frame_size_of, frames_from, joined, output_cap,
};
use crate::header::{
    has_dx10, header_len, header_spec, ident_at, prepend_table, table_from, tag_kind,
    BlockIdentifier, BlockKind,
};

verus! {

/// The header takes exactly 148 bytes when the DX10 tag stands at offset 84,
/// and exactly 128 bytes otherwise.
pub proof fn lemma_header_length(s: Seq<u8>)
    requires
        header_spec(s) is Ok,
    ensures
        header_spec(s)->Ok_0.0.len() == if has_dx10(s) {
            148int
        } else {
            128int
        },
{
}

/// Whether the record at `at` ends a record table: too few bytes remain, or
/// its tag names no block kind.
pub open spec fn ends_table(s: Seq<u8>, at: int) -> bool {
    ident_at(s, at) == Err::<BlockIdentifier, _>(DecodeError::TruncatedInput) || ident_at(s, at)
        == Err::<BlockIdentifier, _>(DecodeError::InvalidMagic)
}

/// Reading `k` valid records from `at` yields them, in order, in front of
/// whatever follows them.
pub proof fn lemma_table_prefix(s: Seq<u8>, at: int, ids: Seq<BlockIdentifier>)
    requires
        0 <= at,
        forall|i: int| 0 <= i < ids.len() ==> ident_at(s, at + 8 * i) == Ok::<_, DecodeError>(#[trigger] ids[i]),
    ensures
        table_from(s, at) == prepend_table(ids, table_from(s, at + 8 * ids.len())),
    decreases ids.len(),
{
    if ids.len() == 0 {
        match table_from(s, at) {
            Ok(t) => assert(seq![] + t =~= t),
            Err(_) => {},
        }
    } else {
        let rest = ids.drop_first();
        assert forall|i: int| 0 <= i < rest.len() implies ident_at(s, (at + 8) + 8 * i) == Ok::<
            _,
            DecodeError,
        >(#[trigger] rest[i]) by {
            assert(ident_at(s, at + 8 * (i + 1)) == Ok::<_, DecodeError>(ids[i + 1]));
        }
        lemma_table_prefix(s, at + 8, rest);
        assert(ident_at(s, at + 8 * 0) == Ok::<_, DecodeError>(ids[0]));
        assert(at + 8 + 8 * rest.len() == at + 8 * ids.len());
        match table_from(s, at + 8 * ids.len()) {
            Ok(t) => {
                assert(seq![ids[0]] + (rest + t) =~= ids + t);
            },
            Err(_) => {},
        }
    }
}

/// A table of `N` valid records, followed by a record that ends the table,
/// decodes to those `N` records in input order; the header and table then
/// take `8 * N` bytes after the header.
pub proof fn lemma_valid_table(s: Seq<u8>, ids: Seq<BlockIdentifier>)
    requires
        header_len(s) <= s.len(),
        forall|i: int|
            0 <= i < ids.len() ==> ident_at(s, header_len(s) + 8 * i) == Ok::<_, DecodeError>(
                #[trigger] ids[i],
            ),
        ends_table(s, header_len(s) + 8 * ids.len()),
    ensures
        table_from(s, header_len(s)) == Ok::<_, DecodeError>(ids),
        header_spec(s) == Ok::<_, DecodeError>((s.subrange(0, header_len(s)), ids)),
{
    let at = header_len(s);
    lemma_table_prefix(s, at, ids);
    assert(table_from(s, at + 8 * ids.len()) == Ok::<_, DecodeError>(Seq::<BlockIdentifier>::empty()));
    assert(ids + Seq::<BlockIdentifier>::empty() =~= ids);
}

/// A record of either kind whose length field is `-1` (all bits set), after
/// valid records, makes the whole decode fail with `InvalidBlockLength`.
pub proof fn lemma_negative_length_fails(
    s: Seq<u8>,
    ids: Seq<BlockIdentifier>,
    order: BlockOrder,
)
    requires
        header_len(s) <= s.len(),
        forall|i: int|
            0 <= i < ids.len() ==> ident_at(s, header_len(s) + 8 * i) == Ok::<_, DecodeError>(
                #[trigger] ids[i],
            ),
        header_len(s) + 8 * ids.len() + 8 <= s.len(),
        tag_kind(s, header_len(s) + 8 * ids.len()) is Some,
        s[header_len(s) + 8 * ids.len() + 4] == 0xffu8,
        s[header_len(s) + 8 * ids.len() + 5] == 0xffu8,
        s[header_len(s) + 8 * ids.len() + 6] == 0xffu8,
        s[header_len(s) + 8 * ids.len() + 7] == 0xffu8,
    ensures
        container_spec(s) == Err::<
            (Seq<u8>, Seq<BlockIdentifier>, Seq<(Seq<u8>, Seq<usize>)>),
            _,
        >(DecodeError::InvalidBlockLength),
        decode_spec(s, order) == Err::<Seq<u8>, _>(DecodeError::InvalidBlockLength),
{
    let at = header_len(s);
    let r = at + 8 * ids.len();
    lemma_table_prefix(s, at, ids);
    assert(u32_le(s, r + 4) == 0xffff_ffff);
    assert(ident_at(s, r) == Err::<BlockIdentifier, _>(DecodeError::InvalidBlockLength));
    assert(table_from(s, r) == Err::<Seq<BlockIdentifier>, _>(DecodeError::InvalidBlockLength));
}

/// A container whose one block is stored verbatim decodes to its header and
/// that block's bytes, in either order. The block's bytes must not
/// themselves begin with a record, or they would be read as one.
pub proof fn lemma_verbatim_round_trip(
    h: Seq<u8>,
    len_field: Seq<u8>,
    b: Seq<u8>,
    order: BlockOrder,
)
    requires
        h.len() == 128,
        !has_dx10(h),
        len_field.len() == 4,
        u32_le(len_field, 0) == b.len(),
        b.len() < 0x8000_0000,
        b.len() < 8 || tag_kind(b, 0) is None,
    ensures
        ({
            let s = h + seq![0x43u8, 0x4fu8, 0x50u8, 0x59u8] + len_field + b;
            decode_spec(s, order) == Ok::<_, DecodeError>(h + b)
        }),
{
    let tag = seq![0x43u8, 0x4fu8, 0x50u8, 0x59u8];
    let s = h + tag + len_field + b;
    assert(!has_dx10(s)) by {
        assert(s[84] == h[84] && s[85] == h[85] && s[86] == h[86] && s[87] == h[87]);
    }
    assert(s.subrange(0, 128) =~= h);
    assert(tag_kind(s, 128) == Some(BlockKind::Copy));
    assert(u32_le(s, 132) == u32_le(len_field, 0));
    let id = BlockIdentifier { kind: BlockKind::Copy, length: b.len() as usize };
    assert(ident_at(s, 128) == Ok::<_, DecodeError>(id));
    if 136 + 8 <= s.len() {
        assert(s[136] == b[0] && s[137] == b[1] && s[138] == b[2] && s[139] == b[3]);
        assert(tag_kind(s, 136) == tag_kind(b, 0));
    }
    assert(ends_table(s, 136));
    lemma_valid_table(s, seq![id]);
    assert(seq![id].drop_last() =~= Seq::<BlockIdentifier>::empty());
    assert(s.subrange(136, 136 + b.len() as int) =~= b);
    assert(block_content(s, 136, id) == Ok::<_, DecodeError>((b, Seq::<usize>::empty())));
    let bs = seq![(b, Seq::<usize>::empty())];
    let none = Seq::<BlockIdentifier>::empty();
    assert(blocks_spec(s, 136, none) == Ok::<_, DecodeError>(Seq::<(Seq<u8>, Seq<usize>)>::empty()));
    assert(span(none) == 0);
    assert(seq![id].last() == id);
    assert(Seq::<(Seq<u8>, Seq<usize>)>::empty().push((b, Seq::<usize>::empty())) =~= bs);
    assert(blocks_spec(s, 136, seq![id]) == Ok::<_, DecodeError>(bs));
    let ds = bs.map_values(|x: (Seq<u8>, Seq<usize>)| x.0);
    assert(ds =~= seq![b]);
    assert(seq![b].drop_last() =~= Seq::<Seq<u8>>::empty());
    assert(seq![b].drop_first() =~= Seq::<Seq<u8>>::empty());
    assert(concat(Seq::<Seq<u8>>::empty()) == Seq::<u8>::empty());
    assert(concat_reversed(Seq::<Seq<u8>>::empty()) == Seq::<u8>::empty());
    assert(seq![b].last() == b);
    assert(concat(seq![b]) =~= b);
    assert(concat_reversed(seq![b]) =~= b);
}

/// The record of a verbatim block: the tag `COPY` and a length field.
pub open spec fn copy_record(len_field: Seq<u8>) -> Seq<u8> {
    seq![0x43u8, 0x4fu8, 0x50u8, 0x59u8] + len_field
}

/// A `COPY` record with a non-negative length field reads as a verbatim block
/// of that length.
pub proof fn lemma_copy_record_at(s: Seq<u8>, at: int, len_field: Seq<u8>)
    requires
        0 <= at,
        at + 8 <= s.len(),
        len_field.len() == 4,
        u32_le(len_field, 0) < 0x8000_0000,
        s.subrange(at, at + 8) == copy_record(len_field),
    ensures
        ident_at(s, at) == Ok::<_, DecodeError>(
            BlockIdentifier { kind: BlockKind::Copy, length: u32_le(len_field, 0) as usize },
        ),
{
    let r = copy_record(len_field);
    assert forall|k: int| 0 <= k < 8 implies s[at + k] == #[trigger] r[k] by {
        assert(s.subrange(at, at + 8)[k] == s[at + k]);
    }
    assert(s[at] == r[0] && s[at + 1] == r[1] && s[at + 2] == r[2] && s[at + 3] == r[3]);
    assert(s[at + 4] == r[4] && s[at + 5] == r[5] && s[at + 6] == r[6] && s[at + 7] == r[7]);
    assert(r[4] == len_field[0] && r[5] == len_field[1] && r[6] == len_field[2] && r[7]
        == len_field[3]);
}

/// Three verbatim blocks `a`, `b`, `c` stored back to back from `start`
/// decode to those bytes, in that order.
pub proof fn lemma_three_copy_blocks(
    s: Seq<u8>,
    start: int,
    a: Seq<u8>,
    b: Seq<u8>,
    c: Seq<u8>,
)
    requires
        0 <= start,
        a.len() <= usize::MAX && b.len() <= usize::MAX && c.len() <= usize::MAX,
        s.subrange(start, start + (a + b + c).len()) == a + b + c,
        start + (a + b + c).len() <= s.len(),
    ensures
        blocks_spec(
            s,
            start,
            seq![
                BlockIdentifier { kind: BlockKind::Copy, length: a.len() as usize },
                BlockIdentifier { kind: BlockKind::Copy, length: b.len() as usize },
                BlockIdentifier { kind: BlockKind::Copy, length: c.len() as usize },
            ],
        ) == Ok::<_, DecodeError>(
            seq![(a, Seq::<usize>::empty()), (b, Seq::<usize>::empty()), (c, Seq::<usize>::empty())],
        ),
{
    let ida = BlockIdentifier { kind: BlockKind::Copy, length: a.len() as usize };
    let idb = BlockIdentifier { kind: BlockKind::Copy, length: b.len() as usize };
    let idc = BlockIdentifier { kind: BlockKind::Copy, length: c.len() as usize };
    let ids = seq![ida, idb, idc];
    let none = Seq::<BlockIdentifier>::empty();
    let ids1 = seq![ida];
    let ids2 = seq![ida, idb];
    assert(ids1.drop_last() =~= none);
    assert(ids2.drop_last() =~= ids1);
    assert(ids.drop_last() =~= ids2);
    assert(span(none) == 0);
    assert(span(ids1) == a.len());
    assert(span(ids2) == a.len() + b.len());
    let body = a + b + c;
    let pa = start + a.len() as int;
    let pb = pa + b.len() as int;
    assert(s.subrange(start, pa) =~= body.subrange(0, a.len() as int));
    assert(s.subrange(pa, pb) =~= body.subrange(a.len() as int, (a.len() + b.len()) as int));
    assert(s.subrange(pb, pb + c.len() as int) =~= body.subrange(
        (a.len() + b.len()) as int,
        body.len() as int,
    ));
    assert(body.subrange(0, a.len() as int) =~= a);
    assert(body.subrange(a.len() as int, (a.len() + b.len()) as int) =~= b);
    assert(body.subrange((a.len() + b.len()) as int, body.len() as int) =~= c);
    let e = Seq::<usize>::empty();
    assert(blocks_spec(s, start, none) == Ok::<_, DecodeError>(
        Seq::<(Seq<u8>, Seq<usize>)>::empty(),
    ));
    assert(blocks_spec(s, start, ids1) == Ok::<_, DecodeError>(seq![(a, e)])) by {
        assert(Seq::<(Seq<u8>, Seq<usize>)>::empty().push((a, e)) =~= seq![(a, e)]);
    }
    assert(blocks_spec(s, start, ids2) == Ok::<_, DecodeError>(seq![(a, e), (b, e)])) by {
        assert(seq![(a, e)].push((b, e)) =~= seq![(a, e), (b, e)]);
    }
    assert(seq![(a, e), (b, e)].push((c, e)) =~= seq![(a, e), (b, e), (c, e)]);
}

/// A container of three verbatim blocks `a`, `b`, `c`, stored in that order,
/// decodes to its header followed by `c`, `b`, `a`. The blocks' bytes must
/// not themselves begin with a record, or they would be read as one.
pub proof fn lemma_three_blocks_reversed(
    h: Seq<u8>,
    la: Seq<u8>,
    lb: Seq<u8>,
    lc: Seq<u8>,
    a: Seq<u8>,
    b: Seq<u8>,
    c: Seq<u8>,
)
    requires
        h.len() == 128,
        !has_dx10(h),
        la.len() == 4 && lb.len() == 4 && lc.len() == 4,
        u32_le(la, 0) == a.len() && a.len() < 0x8000_0000,
        u32_le(lb, 0) == b.len() && b.len() < 0x8000_0000,
        u32_le(lc, 0) == c.len() && c.len() < 0x8000_0000,
        (a + b + c).len() < 8 || tag_kind(a + b + c, 0) is None,
    ensures
        decode_spec(
            h + copy_record(la) + copy_record(lb) + copy_record(lc) + (a + b + c),
            BlockOrder::Reversed,
        ) == Ok::<_, DecodeError>(h + (c + b + a)),
{
    let body = a + b + c;
    let s = h + copy_record(la) + copy_record(lb) + copy_record(lc) + body;
    assert(s.subrange(0, 128) =~= h);
    assert(s.subrange(128, 136) =~= copy_record(la));
    assert(s.subrange(136, 144) =~= copy_record(lb));
    assert(s.subrange(144, 152) =~= copy_record(lc));
    assert(s.subrange(152, 152 + body.len() as int) =~= body);
    assert(!has_dx10(s)) by {
        assert(s[84] == h[84] && s[85] == h[85] && s[86] == h[86] && s[87] == h[87]);
    }
    lemma_copy_record_at(s, 128, la);
    lemma_copy_record_at(s, 136, lb);
    lemma_copy_record_at(s, 144, lc);
    if 152 + 8 <= s.len() {
        assert(s[152] == body[0] && s[153] == body[1] && s[154] == body[2] && s[155] == body[3]);
        assert(tag_kind(s, 152) == tag_kind(body, 0));
    }
    assert(ends_table(s, 152));
    let ida = BlockIdentifier { kind: BlockKind::Copy, length: a.len() as usize };
    let idb = BlockIdentifier { kind: BlockKind::Copy, length: b.len() as usize };
    let idc = BlockIdentifier { kind: BlockKind::Copy, length: c.len() as usize };
    let ids = seq![ida, idb, idc];
    assert forall|i: int|
        0 <= i < ids.len() implies ident_at(s, header_len(s) + 8 * i) == Ok::<_, DecodeError>(
        #[trigger] ids[i],
    ) by {
        if i == 0 {
        } else if i == 1 {
        } else {
        }
    }
    lemma_valid_table(s, ids);
    lemma_three_copy_blocks(s, 152, a, b, c);
    let e = Seq::<usize>::empty();
    let bs = seq![(a, e), (b, e), (c, e)];
    assert(bs.map_values(|x: (Seq<u8>, Seq<usize>)| x.0) =~= seq![a, b, c]);
    lemma_reversed_order(a, b, c);
    assert(h + (c + b + a) =~= h + (c + b + a));
}

/// When every frame decompresses, the joined output is the frames' outputs
/// concatenated in order, and no frame is reported as failed.
pub proof fn lemma_joined_all_decoded(fs: Seq<crate::frames::Frame>, outs: Seq<Option<Seq<u8>>>)
    requires
        fs.len() == outs.len(),
        forall|i: int| 0 <= i < outs.len() ==> (#[trigger] outs[i]) is Some,
    ensures
        joined(outs) == concat(outs.map_values(|o: Option<Seq<u8>>| o->Some_0)),
        failed_offsets(fs, outs) == Seq::<usize>::empty(),
    decreases outs.len(),
{
    if outs.len() > 0 {
        lemma_joined_all_decoded(fs.drop_last(), outs.drop_last());
        let m = outs.map_values(|o: Option<Seq<u8>>| o->Some_0);
        assert(m.drop_last() =~= outs.drop_last().map_values(|o: Option<Seq<u8>>| o->Some_0));
        assert(outs.last() is Some);
    }
}

/// A block stored as frames `f1 .. fk`, each of which decompresses, decodes
/// to their outputs concatenated in frame order, with no failed frame.
pub proof fn lemma_framed_block(s: Seq<u8>, o: int, id: BlockIdentifier)
    requires
        id.kind == BlockKind::Lz4,
        0 <= o,
        o + id.length <= s.len(),
        o + 4 <= s.len(),
        frames_from(s, o + 4, id.length as int) is Some,
        ({
            let fs = frames_from(s, o + 4, id.length as int)->Some_0;
            let cap = output_cap(u32_le(s, o)) as nat;
            forall|i: int|
                0 <= i < fs.len() ==> (#[trigger] frame_output(s, fs[i], cap))
                    is Some
        }),
    ensures
        ({
            let fs = frames_from(s, o + 4, id.length as int)->Some_0;
            let cap = output_cap(u32_le(s, o)) as nat;
            block_content(s, o, id) == Ok::<_, DecodeError>(
                (
                    concat(
                        Seq::new(
                            fs.len(),
                            |i: int| frame_output(s, fs[i], cap)->Some_0,
                        ),
                    ),
                    Seq::<usize>::empty(),
                ),
            )
        }),
{
    let fs = frames_from(s, o + 4, id.length as int)->Some_0;
    let cap = output_cap(u32_le(s, o)) as nat;
    let outs = frame_outputs(s, fs, cap);
    assert forall|i: int| 0 <= i < outs.len() implies (#[trigger] outs[i]) is Some by {
        assert(outs[i] == frame_output(s, fs[i], cap));
    }
    lemma_joined_all_decoded(fs, outs);
    assert(outs.map_values(|x: Option<Seq<u8>>| x->Some_0) =~= Seq::new(
        fs.len(),
        |i: int| frame_output(s, fs[i], cap)->Some_0,
    ));
}

/// Each block starts where the one before it ends: the cursor moves past a
/// block by exactly its stored length, whatever the block holds.
pub proof fn lemma_cursor_advance(ids: Seq<BlockIdentifier>, i: int)
    requires
        0 <= i < ids.len(),
    ensures
        span(ids.take(i + 1)) == span(ids.take(i)) + ids[i].length,
{
    assert(ids.take(i + 1).drop_last() =~= ids.take(i));
}

/// A verbatim block stored after a framed block is read exactly the framed
/// block's stored length further on, however many frames that block holds.
pub proof fn lemma_block_after_framed(
    s: Seq<u8>,
    start: int,
    framed: BlockIdentifier,
    copy: BlockIdentifier,
)
    requires
        0 <= start,
        framed.kind == BlockKind::Lz4,
        copy.kind == BlockKind::Copy,
        block_content(s, start, framed) is Ok,
        start + framed.length + copy.length <= s.len(),
    ensures
        blocks_spec(s, start, seq![framed, copy]) == Ok::<_, DecodeError>(
            seq![
                block_content(s, start, framed)->Ok_0,
                (
                    s.subrange(start + framed.length, start + framed.length + copy.length),
                    Seq::<usize>::empty(),
                ),
            ],
        ),
{
    let ids = seq![framed, copy];
    let none = Seq::<BlockIdentifier>::empty();
    assert(seq![framed].drop_last() =~= none);
    assert(ids.drop_last() =~= seq![framed]);
    assert(span(none) == 0);
    assert(span(seq![framed]) == framed.length);
    let first = block_content(s, start, framed)->Ok_0;
    assert(blocks_spec(s, start, none) == Ok::<_, DecodeError>(
        Seq::<(Seq<u8>, Seq<usize>)>::empty(),
    ));
    assert(blocks_spec(s, start, seq![framed]) == Ok::<_, DecodeError>(seq![first])) by {
        assert(Seq::<(Seq<u8>, Seq<usize>)>::empty().push(first) =~= seq![first]);
    }
    let second = (
        s.subrange(start + framed.length, start + framed.length + copy.length),
        Seq::<usize>::empty(),
    );
    assert(seq![first].push(second) =~= seq![first, second]);
}

/// A frame header whose size is at least the block's stored length ends the
/// frames at once: it is not read as a frame.
pub proof fn lemma_sentinel(s: Seq<u8>, p: int, stored: int)
    requires
        0 <= p,
        p + 4 <= s.len(),
        frame_size_of(u32_le(s, p)) >= stored,
    ensures
        frames_from(s, p, stored) == Some(Seq::<crate::frames::Frame>::empty()),
{
}

/// A framed block whose first frame header is a sentinel decodes to no bytes
/// and no failed frames.
pub proof fn lemma_sentinel_block(s: Seq<u8>, o: int, stored: int)
    requires
        0 <= o,
        o + 8 <= s.len(),
        frame_size_of(u32_le(s, o + 4)) >= stored,
    ensures
        framed_content(s, o, stored) == Ok::<_, DecodeError>(
            (Seq::<u8>::empty(), Seq::<usize>::empty()),
        ),
{
    lemma_sentinel(s, o + 4, stored);
}

/// Blocks `a`, `b`, `c`, processed in that order, are written as `c`, `b`, `a`.
pub proof fn lemma_reversed_order(a: Seq<u8>, b: Seq<u8>, c: Seq<u8>)
    ensures
        arranged(seq![a, b, c], BlockOrder::Reversed) == c + b + a,
{
    let s = seq![a, b, c];
    assert(s.drop_first() =~= seq![b, c]);
    assert(seq![b, c].drop_first() =~= seq![c]);
    assert(seq![c].drop_first() =~= Seq::<Seq<u8>>::empty());
    assert(concat_reversed(Seq::<Seq<u8>>::empty()) == Seq::<u8>::empty());
    assert(concat_reversed(seq![c]) =~= c);
    assert(concat_reversed(seq![b, c]) =~= c + b);
    assert(concat_reversed(s) =~= c + b + a);
}

/// A block whose stored length runs past the end of the input makes the
/// whole decode fail with `TruncatedInput`, once the blocks before it decode.
pub proof fn lemma_truncated_block(s: Seq<u8>, i: int, order: BlockOrder)
    requires
        header_spec(s) is Ok,
        ({
            let (h, t) = header_spec(s)->Ok_0;
            let start = (h.len() + 8 * t.len()) as int;
            &&& 0 <= i < t.len()
            &&& blocks_spec(s, start, t.take(i)) is Ok
            &&& start + span(t.take(i)) + t[i].length > s.len()
        }),
    ensures
        container_spec(s) == Err::<
            (Seq<u8>, Seq<BlockIdentifier>, Seq<(Seq<u8>, Seq<usize>)>),
            _,
        >(DecodeError::TruncatedInput),
        decode_spec(s, order) == Err::<Seq<u8>, _>(DecodeError::TruncatedInput),
{
    let (h, t) = header_spec(s)->Ok_0;
    let start = (h.len() + 8 * t.len()) as int;
    assert(t.take(i + 1).drop_last() =~= t.take(i));
    assert(t.take(i + 1).last() == t[i]);
    assert(blocks_spec(s, start, t.take(i + 1)) == Err::<Seq<(Seq<u8>, Seq<usize>)>, _>(
        DecodeError::TruncatedInput,
    ));
    lemma_blocks_error_persists(s, start, t, i);
}

} // verus!
