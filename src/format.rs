use vstd::prelude::*;
use vstd::bytes::*;
use vstd::utf8::*;

verus! {

/// Header magic: `N E P A K 0x01 0x00 0x00`.
pub const MAGIC: [u8; 8] = [0x4E, 0x45, 0x50, 0x41, 0x4B, 0x01, 0x00, 0x00];

/// Footer magic: `N E P A K E N D`.
pub const FOOTER_MAGIC: [u8; 8] = [0x4E, 0x45, 0x50, 0x41, 0x4B, 0x45, 0x4E, 0x44];

/// Length of the file header.
pub const HEADER_LEN: u64 = 8;

/// Length of the footer at the end of every archive.
pub const FOOTER_LEN: u64 = 32;

/// Largest byte length of a logical path.
pub const MAX_PATH_LEN: usize = 65535;

/// The header magic as a byte sequence.
pub open spec fn header_magic() -> Seq<u8> {
    seq![0x4Eu8, 0x45u8, 0x50u8, 0x41u8, 0x4Bu8, 0x01u8, 0x00u8, 0x00u8]
}

/// The footer magic as a byte sequence.
pub open spec fn footer_magic() -> Seq<u8> {
    seq![0x4Eu8, 0x45u8, 0x50u8, 0x41u8, 0x4Bu8, 0x45u8, 0x4Eu8, 0x44u8]
}

/// The magic constants hold the bytes their spec functions name.
pub proof fn lemma_magic_views()
    ensures
        MAGIC@ == header_magic(),
        FOOTER_MAGIC@ == footer_magic(),
{
    assert(MAGIC@ =~= header_magic());
    assert(FOOTER_MAGIC@ =~= footer_magic());
}

} // verus!

verus! {

/// How an entry's payload encodes its content.
#[derive(Debug, Clone, Copy, PartialEq, Eq, Structural)]
pub enum PayloadKind {
    Raw,
    Zstd,
}

/// The on-disk tag byte of a payload kind.
pub open spec fn kind_tag(k: PayloadKind) -> u8 {
    match k {
        PayloadKind::Raw => 0u8,
        PayloadKind::Zstd => 1u8,
    }
}

/// One archived file as described by the index.
#[derive(Debug, Clone, PartialEq, Eq)]
pub struct Entry {
    pub path: String,
    pub payload_offset: u64,
    pub payload_len: u64,
    pub raw_len: u64,
    pub raw_hash: [u8; 32],
    pub payload_kind: PayloadKind,
}

/// Mathematical view of an [`Entry`].
pub ghost struct EntryView {
    pub path: Seq<char>,
    pub payload_offset: u64,
    pub payload_len: u64,
    pub raw_len: u64,
    pub raw_hash: Seq<u8>,
    pub payload_kind: PayloadKind,
}

impl View for Entry {
    type V = EntryView;

    open spec fn view(&self) -> EntryView {
        EntryView {
            path: self.path@,
            payload_offset: self.payload_offset,
            payload_len: self.payload_len,
            raw_len: self.raw_len,
            raw_hash: self.raw_hash@,
            payload_kind: self.payload_kind,
        }
    }
}

/// The UTF-8 bytes of a logical path.
pub open spec fn path_bytes(p: Seq<char>) -> Seq<u8> {
    encode_utf8(p)
}

/// The bytes of one index record.
pub open spec fn record_bytes(e: EntryView) -> Seq<u8> {
    spec_u16_to_le_bytes(path_bytes(e.path).len() as u16) + path_bytes(e.path)
        + spec_u64_to_le_bytes(e.payload_offset) + spec_u64_to_le_bytes(e.payload_len)
        + spec_u64_to_le_bytes(e.raw_len) + seq![kind_tag(e.payload_kind)] + e.raw_hash
}

/// The concatenated records of `es`, in order.
pub open spec fn records_bytes(es: Seq<EntryView>) -> Seq<u8>
    decreases es.len(),
{
    if es.len() == 0 {
        Seq::empty()
    } else {
        records_bytes(es.drop_last()) + record_bytes(es.last())
    }
}

/// The index region describing `es`: magic, entry count, records.
pub open spec fn index_bytes(es: Seq<EntryView>) -> Seq<u8> {
    header_magic() + spec_u32_to_le_bytes(es.len() as u32) + records_bytes(es)
}

/// The footer bytes: magic, index offset, index length, index tag, reserved zero.
pub open spec fn footer_bytes(index_offset: u64, index_len: u64, tag: u32) -> Seq<u8> {
    footer_magic() + spec_u64_to_le_bytes(index_offset) + spec_u64_to_le_bytes(index_len)
        + spec_u32_to_le_bytes(tag) + spec_u32_to_le_bytes(0)
}

/// A path that an index record can hold.
pub open spec fn path_fits(p: Seq<char>) -> bool {
    path_bytes(p).len() <= MAX_PATH_LEN
}

} // verus!
