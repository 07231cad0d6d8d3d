//! The header decoder and the block record table that follows it.
use vstd::prelude::*;
use crate::format::{
    i32_le, read_i32_le, DecodeError, BASE_HEADER_LEN, DX10_TAG_OFFSET, EXTENDED_HEADER_LEN,
    RECORD_LEN,
};

verus! {

/// How a block body is stored.
#[derive(Debug, Clone, Copy, PartialEq, Eq, Structural)]
pub enum BlockKind {
    /// Stored verbatim (tag `COPY`).
    Copy,
    /// Stored as a sequence of LZ4 block frames (tag `LZ4 `).
    Lz4,
}

/// One decoded block record: its kind and its stored length, which
/// `from_bytes` never leaves negative.
#[derive(Debug, Clone, Copy, PartialEq, Eq, Structural)]
pub enum BlockHeader {
    Copy(i32),
    Lz4(i32),
}

/// A validated block record: its kind and its (non-negative) stored length.
#[derive(Debug, Clone, Copy, PartialEq, Eq, Structural)]
pub struct BlockIdentifier {
    pub kind: BlockKind,
    pub length: usize,
}

/// The block record table, in storage order.
#[derive(Debug, Clone, PartialEq)]
pub struct BlockIdentifiers(pub Vec<BlockIdentifier>);

/// The raw header bytes, carried through unchanged.
#[derive(Debug, Clone, PartialEq)]
pub struct HeaderFlags(pub Vec<u8>);

/// The raw header bytes and the block record table after them.
#[derive(Debug, Clone, PartialEq)]
pub struct Header {
    pub flags: HeaderFlags,
    pub block_identifiers: BlockIdentifiers,
}

/// Whether the DX10 tag stands at its offset.
pub open spec fn has_dx10(s: Seq<u8>) -> bool {
    &&& s.len() >= 88
    &&& s[84] == 0x44u8
    &&& s[85] == 0x58u8
    &&& s[86] == 0x31u8
    &&& s[87] == 0x30u8
}

/// Length of the header that `s` starts with.
pub open spec fn header_len(s: Seq<u8>) -> int {
    if has_dx10(s) {
        148
    } else {
        128
    }
}

/// The block kind named by the tag `s[at..at + 4]`, if any.
pub open spec fn tag_kind(s: Seq<u8>, at: int) -> Option<BlockKind> {
    if s[at] == 0x43u8 && s[at + 1] == 0x4fu8 && s[at + 2] == 0x50u8 && s[at + 3] == 0x59u8 {
        Some(BlockKind::Copy)
    } else if s[at] == 0x4cu8 && s[at + 1] == 0x5au8 && s[at + 2] == 0x34u8 && s[at + 3]
        == 0x20u8 {
        Some(BlockKind::Lz4)
    } else {
        None
    }
}

/// The record stored in the eight bytes `s[at..at + 8]`: a tag that names
/// no kind is `InvalidMagic`, a negative length `InvalidBlockLength`.
pub open spec fn record_at(s: Seq<u8>, at: int) -> Result<BlockHeader, DecodeError> {
    match tag_kind(s, at) {
        None => Err(DecodeError::InvalidMagic),
        Some(kind) => if i32_le(s, at + 4) < 0 {
            Err(DecodeError::InvalidBlockLength)
        } else {
            match kind {
                BlockKind::Copy => Ok(BlockHeader::Copy(i32_le(s, at + 4) as i32)),
                BlockKind::Lz4 => Ok(BlockHeader::Lz4(i32_le(s, at + 4) as i32)),
            }
        },
    }
}

/// The validated record at `at`: truncated, of an unknown kind, of a
/// negative length, or a block identifier.
pub open spec fn ident_at(s: Seq<u8>, at: int) -> Result<BlockIdentifier, DecodeError> {
    if at < 0 || at + 8 > s.len() {
        Err(DecodeError::TruncatedInput)
    } else {
        match record_at(s, at) {
            Ok(h) => h.identifier_spec(),
            Err(e) => Err(e),
        }
    }
}

/// Puts `prefix` in front of a decoded table.
pub open spec fn prepend_table(
    prefix: Seq<BlockIdentifier>,
    r: Result<Seq<BlockIdentifier>, DecodeError>,
) -> Result<Seq<BlockIdentifier>, DecodeError> {
    match r {
        Ok(t) => Ok(prefix + t),
        Err(e) => Err(e),
    }
}

/// The record table starting at `at`: records are read while eight bytes
/// remain and their tag names a kind; a negative length is an error.
pub open spec fn table_from(s: Seq<u8>, at: int) -> Result<Seq<BlockIdentifier>, DecodeError>
    decreases s.len() - at,
{
    if at < 0 || at + 8 > s.len() {
        Ok(seq![])
    } else {
        match ident_at(s, at) {
            Ok(id) => prepend_table(seq![id], table_from(s, at + 8)),
            Err(DecodeError::InvalidBlockLength) => Err(DecodeError::InvalidBlockLength),
            Err(_) => Ok(seq![]),
        }
    }
}

/// The header and record table that `s` starts with.
pub open spec fn header_spec(s: Seq<u8>) -> Result<(Seq<u8>, Seq<BlockIdentifier>), DecodeError> {
    if header_len(s) > s.len() {
        Err(DecodeError::TruncatedInput)
    } else {
        match table_from(s, header_len(s)) {
            Ok(t) => Ok((s.subrange(0, header_len(s)), t)),
            Err(e) => Err(e),
        }
    }
}

impl BlockKind {
    /// The kind named by a four-byte tag; `None` for any other slice.
    pub fn from_tag(tag: &[u8]) -> (r: Option<BlockKind>)
        ensures
            r == if tag@.len() == 4 {
                tag_kind(tag@, 0)
            } else {
                None
            },
    {
        if tag.len() != 4 {
            None
        } else if tag[0] == 0x43u8 && tag[1] == 0x4fu8 && tag[2] == 0x50u8 && tag[3] == 0x59u8 {
            Some(BlockKind::Copy)
        } else if tag[0] == 0x4cu8 && tag[1] == 0x5au8 && tag[2] == 0x34u8 && tag[3] == 0x20u8 {
            Some(BlockKind::Lz4)
        } else {
            None
        }
    }
}

impl BlockHeader {
    /// The record as an identifier: a negative stored length is an error.
    pub open spec fn identifier_spec(self) -> Result<BlockIdentifier, DecodeError> {
        match self {
            BlockHeader::Copy(n) => if n < 0 {
                Err(DecodeError::InvalidBlockLength)
            } else {
                Ok(BlockIdentifier { kind: BlockKind::Copy, length: n as usize })
            },
            BlockHeader::Lz4(n) => if n < 0 {
                Err(DecodeError::InvalidBlockLength)
            } else {
                Ok(BlockIdentifier { kind: BlockKind::Lz4, length: n as usize })
            },
        }
    }

    /// Decodes one eight-byte record; a tag that names no kind is
    /// `InvalidMagic`, a negative length `InvalidBlockLength`.
    pub fn from_bytes(buffer: &[u8; 8]) -> (r: Result<BlockHeader, DecodeError>)
        ensures
            r == record_at(buffer@, 0),
    {
        let b: &[u8] = buffer.as_slice();
        let tag = vstd::slice::slice_subrange(b, 0, 4);
        let kind = match BlockKind::from_tag(tag) {
            Some(k) => k,
            None => return Err(DecodeError::InvalidMagic),
        };
        let n = read_i32_le(b, 4);
        if n < 0 {
            return Err(DecodeError::InvalidBlockLength);
        }
        match kind {
            BlockKind::Copy => Ok(BlockHeader::Copy(n)),
            BlockKind::Lz4 => Ok(BlockHeader::Lz4(n)),
        }
    }

    /// The record as an identifier: a negative stored length is `InvalidBlockLength`.
    pub fn identifier(self) -> (r: Result<BlockIdentifier, DecodeError>)
        ensures
            r == self.identifier_spec(),
    {
        match self {
            BlockHeader::Copy(n) => if n < 0 {
                Err(DecodeError::InvalidBlockLength)
            } else {
                Ok(BlockIdentifier { kind: BlockKind::Copy, length: n as usize })
            },
            BlockHeader::Lz4(n) => if n < 0 {
                Err(DecodeError::InvalidBlockLength)
            } else {
                Ok(BlockIdentifier { kind: BlockKind::Lz4, length: n as usize })
            },
        }
    }
}

/// Reads the header that `input` starts with: 148 bytes when the DX10 tag
/// stands at offset 84, else 128.
pub fn header_flags(input: &[u8]) -> (r: Result<HeaderFlags, DecodeError>)
    ensures
        match r {
            Ok(h) => header_len(input@) <= input@.len() && h.0@ == input@.subrange(
                0,
                header_len(input@),
            ),
            Err(e) => header_len(input@) > input@.len() && e == DecodeError::TruncatedInput,
        },
{
    let t = DX10_TAG_OFFSET;
    let extended = input.len() >= t + 4 && input[t] == 0x44u8 && input[t + 1] == 0x58u8
        && input[t + 2] == 0x31u8 && input[t + 3] == 0x30u8;
    let len = if extended {
        EXTENDED_HEADER_LEN
    } else {
        BASE_HEADER_LEN
    };
    if input.len() < len {
        return Err(DecodeError::TruncatedInput);
    }
    Ok(HeaderFlags(vstd::slice::slice_to_vec(vstd::slice::slice_subrange(input, 0, len))))
}

/// Reads the record at `at` and validates it.
pub fn block_identifier(input: &[u8], at: usize) -> (r: Result<BlockIdentifier, DecodeError>)
    ensures
        r == ident_at(input@, at as int),
{
    if input.len() < RECORD_LEN || at > input.len() - RECORD_LEN {
        return Err(DecodeError::TruncatedInput);
    }
    let record: [u8; 8] = [
        input[at],
        input[at + 1],
        input[at + 2],
        input[at + 3],
        input[at + 4],
        input[at + 5],
        input[at + 6],
        input[at + 7],
    ];
    proof {
        assert(record@ =~= input@.subrange(at as int, at + 8));
    }
    match BlockHeader::from_bytes(&record) {
        Ok(h) => h.identifier(),
        Err(e) => Err(e),
    }
}

/// Reads the record table that starts at `start`.
pub fn block_identifiers(input: &[u8], start: usize) -> (r: Result<BlockIdentifiers, DecodeError>)
    ensures
        match r {
            Ok(t) => table_from(input@, start as int) == Ok::<_, DecodeError>(t.0@),
            Err(e) => table_from(input@, start as int) == Err::<Seq<BlockIdentifier>, _>(e),
        },
{
    let mut ids: Vec<BlockIdentifier> = Vec::new();
    let mut at: usize = start;
    while input.len() >= RECORD_LEN && at <= input.len() - RECORD_LEN
        invariant
            start <= at,
            table_from(input@, start as int) == prepend_table(ids@, table_from(input@, at as int)),
        ensures
            table_from(input@, start as int) == prepend_table(ids@, table_from(input@, at as int)),
            table_from(input@, at as int) == Ok::<Seq<BlockIdentifier>, DecodeError>(seq![]),
        decreases input@.len() - at,
    {
        match block_identifier(input, at) {
            Ok(id) => {
                proof {
                    let rest = table_from(input@, at + 8);
                    assert(table_from(input@, at as int) == prepend_table(seq![id], rest));
                    match rest {
                        Ok(t) => assert(ids@ + (seq![id] + t) =~= ids@.push(id) + t),
                        Err(e) => {},
                    }
                }
                ids.push(id);
                at = at + RECORD_LEN;
            },
            Err(DecodeError::InvalidBlockLength) => {
                return Err(DecodeError::InvalidBlockLength);
            },
            Err(_) => {
                break;
            },
        }
    }
    proof {
        assert(ids@ + seq![] =~= ids@);
    }
    Ok(BlockIdentifiers(ids))
}

impl Header {
    /// Reads the header and the record table after it.
    pub fn from_bytes(buffer: &[u8]) -> (r: Result<Header, DecodeError>)
        ensures
            match r {
                Ok(h) => header_spec(buffer@) == Ok::<_, DecodeError>(
                    (h.flags.0@, h.block_identifiers.0@),
                ),
                Err(e) => header_spec(buffer@) == Err::<(Seq<u8>, Seq<BlockIdentifier>), _>(e),
            },
    {
        let flags = match header_flags(buffer) {
            Ok(f) => f,
            Err(e) => return Err(e),
        };
        let start = flags.0.len();
        match block_identifiers(buffer, start) {
            Ok(block_identifiers) => Ok(Header { flags, block_identifiers }),
            Err(e) => Err(e),
        }
    }

    /// Number of input bytes the header and its record table take.
    pub fn len(&self) -> (r: usize)
        requires
            self.flags.0@.len() + 8 * self.block_identifiers.0@.len() <= usize::MAX,
        ensures
            r == self.flags.0@.len() + 8 * self.block_identifiers.0@.len(),
    {
        self.flags.0.len() + RECORD_LEN * self.block_identifiers.0.len()
    }
}

} // verus!
