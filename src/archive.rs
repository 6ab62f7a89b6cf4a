use vstd::prelude::*;
use vstd::bytes::*;
use crate::builder::{SourceFile, files_view, entry_views, index_tag};
use crate::digest::{blake3_of, zstd_content_of, zstd_decodes, blake3_digest, zstd_decompress};
use crate::error::{PakError, PakResult, is_invalid};
use crate::format::{Entry, EntryView, PayloadKind, HEADER_LEN, FOOTER_LEN, MAGIC, header_magic, footer_magic, lemma_magic_views};
use crate::path::{passes_filter, selected};
use crate::io::{hex32, hex_of};
use crate::text::{append_chars, decimal, decimal_of, string_of};
use crate::reader::{read_footer, parse_index, index_entries, index_error, strictly_sorted, footer_region};

verus! {

broadcast use vstd::string::group_string_axioms;

/// The index offset that the footer of `image` records.
pub open spec fn footer_index_offset(image: Seq<u8>) -> u64 {
    spec_u64_from_le_bytes(footer_region(image).subrange(8, 16))
}

/// The index length that the footer of `image` records.
pub open spec fn footer_index_len(image: Seq<u8>) -> u64 {
    spec_u64_from_le_bytes(footer_region(image).subrange(16, 24))
}

/// The index tag that the footer of `image` records.
pub open spec fn footer_index_tag(image: Seq<u8>) -> u32 {
    spec_u32_from_le_bytes(footer_region(image).subrange(24, 28))
}

/// The index region that the footer of `image` points at.
pub open spec fn index_region(image: Seq<u8>) -> Seq<u8> {
    image.subrange(
        footer_index_offset(image) as int,
        footer_index_offset(image) + footer_index_len(image),
    )
}

/// Header, footer magic and index bounds are in order.
pub open spec fn frame_ok(image: Seq<u8>) -> bool {
    &&& image.len() >= FOOTER_LEN
    &&& image.subrange(0, 8) == header_magic()
    &&& footer_region(image).subrange(0, 8) == footer_magic()
    &&& footer_index_offset(image) + footer_index_len(image) <= image.len()
}

/// The entries of a well-formed archive image, or `None` when the image is
/// rejected before its payloads are looked at.
pub open spec fn archive_entries(image: Seq<u8>) -> Option<Seq<EntryView>> {
    if !frame_ok(image) || index_tag(index_region(image)) != footer_index_tag(image) {
        None
    } else {
        match index_entries(index_region(image)) {
            Some(es) => if strictly_sorted(es) {
                Some(es)
            } else {
                None
            },
            None => None,
        }
    }
}

/// The message of the error that reading the index of `image` reports when
/// the image is rejected.
pub open spec fn read_error(image: Seq<u8>) -> Seq<char> {
    if image.len() < FOOTER_LEN {
        "file too small"@
    } else if image.subrange(0, 8) != header_magic() {
        "bad header magic"@
    } else if footer_region(image).subrange(0, 8) != footer_magic() {
        "bad footer magic"@
    } else if footer_index_offset(image) + footer_index_len(image) > image.len() {
        "index outside file"@
    } else {
        index_error(index_region(image), footer_index_tag(image))
    }
}

/// Opens an archive image and reads its index: header magic, footer, index
/// bounds, index tag, records and order.
pub fn read_entries(image: &[u8]) -> (r: PakResult<Vec<Entry>>)
    ensures
        r is Ok <==> archive_entries(image@) is Some,
        r matches Ok(v) ==> archive_entries(image@) == Some(entry_views(v@)),
        r is Err ==> is_invalid(r, read_error(image@)),
{
    if image.len() < 32 {
        return Err(PakError::Invalid(String::from_str("file too small")));
    }
    proof {
        lemma_magic_views();
    }
    let mut k: usize = 0;
    while k < 8
        invariant
            k <= 8,
            image@.len() >= 32,
            forall|j: int| 0 <= j < k ==> image@[j] == MAGIC@[j],
        decreases 8 - k,
    {
        if image[k] != MAGIC[k] {
            proof {
                assert(image@.subrange(0, 8)[k as int] != header_magic()[k as int]);
            }
            return Err(PakError::Invalid(String::from_str("bad header magic")));
        }
        k += 1;
    }
    assert(image@.subrange(0, 8) =~= header_magic());
    let footer = read_footer(image)?;
    let file_len = image.len();
    if footer.index_len > file_len as u64 || footer.index_offset > file_len as u64 - footer.index_len {
        return Err(PakError::Invalid(String::from_str("index outside file")));
    }
    let start = footer.index_offset as usize;
    let end = start + footer.index_len as usize;
    let index = &image[start..end];
    assert(index@ == index_region(image@));
    parse_index(index, footer.index_hash)
}

/// The content that an entry's payload decodes to.
pub open spec fn decoded(payload: Seq<u8>, kind: PayloadKind) -> Seq<u8> {
    match kind {
        PayloadKind::Raw => payload,
        PayloadKind::Zstd => zstd_content_of(payload),
    }
}

/// Whether a payload decodes: raw payloads always do.
pub open spec fn decodes(payload: Seq<u8>, kind: PayloadKind) -> bool {
    match kind {
        PayloadKind::Raw => true,
        PayloadKind::Zstd => zstd_decodes(payload),
    }
}

/// The payload bytes of `e` in `image`.
pub open spec fn payload_bytes(image: Seq<u8>, e: EntryView) -> Seq<u8> {
    image.subrange(e.payload_offset as int, e.payload_offset + e.payload_len)
}

/// The payload of `e` lies after the header and inside the image.
pub open spec fn payload_in_bounds(image: Seq<u8>, e: EntryView) -> bool {
    e.payload_offset >= HEADER_LEN && e.payload_offset + e.payload_len <= image.len()
}

/// The payload of `e` is in bounds and decodes to `raw_len` bytes whose
/// BLAKE3 digest is `raw_hash`.
pub open spec fn entry_intact(image: Seq<u8>, e: EntryView) -> bool {
    &&& payload_in_bounds(image, e)
    &&& decodes(payload_bytes(image, e), e.payload_kind)
    &&& decoded(payload_bytes(image, e), e.payload_kind).len() == e.raw_len
    &&& blake3_of(decoded(payload_bytes(image, e), e.payload_kind))@ == e.raw_hash
}

fn with_path(prefix: &str, path: &String) -> (r: String)
    ensures
        r@ == prefix@ + path@,
{
    String::from_str(prefix).concat(path.as_str())
}

fn decode_payload(payload: &[u8], kind: PayloadKind) -> (r: PakResult<Vec<u8>>)
    ensures
        r matches Ok(v) ==> v@ == decoded(payload@, kind),
        r is Ok <==> decodes(payload@, kind),
        r is Err ==> r matches Err(PakError::Io(_)),
{
    match kind {
        PayloadKind::Raw => Ok(vstd::slice::slice_to_vec(payload)),
        PayloadKind::Zstd => match zstd_decompress(payload) {
            Ok(v) => Ok(v),
            Err(m) => Err(PakError::Io(m)),
        },
    }
}

/// The error that verifying `e` against `image` reports when `e` is not
/// intact, by the first check that fails: offset, bounds, decoding, length,
/// digest.
pub open spec fn verify_failure<T>(image: Seq<u8>, e: EntryView, r: PakResult<T>) -> bool {
    if e.payload_offset < HEADER_LEN {
        is_invalid(r, "payload offset under header: "@ + e.path)
    } else if e.payload_offset + e.payload_len > image.len() {
        is_invalid(r, "payload outside file: "@ + e.path)
    } else if !decodes(payload_bytes(image, e), e.payload_kind) {
        r matches Err(PakError::Io(_))
    } else if decoded(payload_bytes(image, e), e.payload_kind).len() != e.raw_len {
        is_invalid(r, "raw size mismatch: "@ + e.path)
    } else {
        is_invalid(r, "hash mismatch: "@ + e.path)
    }
}

/// Checks one entry's payload against the image: bounds, decoded length and digest.
pub fn verify_entry(image: &[u8], e: &Entry) -> (r: PakResult<()>)
    ensures
        r is Ok <==> entry_intact(image@, e@),
        r is Err ==> verify_failure(image@, e@, r),
{
    if e.payload_offset < 8 {
        return Err(PakError::Invalid(with_path("payload offset under header: ", &e.path)));
    }
    let file_len = image.len() as u64;
    if e.payload_len > file_len || e.payload_offset > file_len - e.payload_len {
        return Err(PakError::Invalid(with_path("payload outside file: ", &e.path)));
    }
    let start = e.payload_offset as usize;
    let end = start + e.payload_len as usize;
    let raw = decode_payload(&image[start..end], e.payload_kind)?;
    if raw.len() as u64 != e.raw_len {
        return Err(PakError::Invalid(with_path("raw size mismatch: ", &e.path)));
    }
    let got = blake3_digest(raw.as_slice());
    let mut k: usize = 0;
    while k < 32
        invariant
            k <= 32,
            e.payload_offset >= HEADER_LEN,
            payload_in_bounds(image@, e@),
            raw@ == decoded(payload_bytes(image@, e@), e.payload_kind),
            decodes(payload_bytes(image@, e@), e.payload_kind),
            raw@.len() == e.raw_len,
            got == blake3_of(raw@),
            forall|j: int| 0 <= j < k ==> got@[j] == e.raw_hash@[j],
        decreases 32 - k,
    {
        if got[k] != e.raw_hash[k] {
            proof {
                assert(got@[k as int] != e.raw_hash@[k as int]);
                assert(got@ != e.raw_hash@);
            }
            return Err(PakError::Invalid(with_path("hash mismatch: ", &e.path)));
        }
        k += 1;
    }
    assert(got@ =~= e.raw_hash@);
    Ok(())
}

/// `es[i]` is the first entry of `es` that is not intact.
pub open spec fn first_not_intact(image: Seq<u8>, es: Seq<EntryView>, i: int) -> bool {
    &&& 0 <= i < es.len()
    &&& !entry_intact(image, es[i])
    &&& forall|j: int| 0 <= j < i ==> entry_intact(image, #[trigger] es[j])
}

/// Verifies a whole archive image and returns its entry count. A rejected
/// index gives the reader's error; otherwise the first entry that is not
/// intact gives its error.
pub fn verify(image: &[u8]) -> (r: PakResult<u64>)
    ensures
        r matches Ok(n) ==> (archive_entries(image@) matches Some(es) && n == es.len() && (forall|
            i: int,
        | 0 <= i < es.len() ==> entry_intact(image@, #[trigger] es[i]))),
        archive_entries(image@) is None ==> is_invalid(r, read_error(image@)),
        archive_entries(image@) matches Some(es) ==> ((forall|i: int|
            0 <= i < es.len() ==> entry_intact(image@, #[trigger] es[i])) ==> r == Ok::<u64, PakError>(
            es.len() as u64,
        )),
        archive_entries(image@) matches Some(es) ==> (forall|i: int|
            #[trigger] first_not_intact(image@, es, i) ==> verify_failure(image@, es[i], r)),
{
    let entries = read_entries(image)?;
    let ghost es = entry_views(entries@);
    let mut i: usize = 0;
    while i < entries.len()
        invariant
            i <= entries@.len(),
            es == entry_views(entries@),
            archive_entries(image@) == Some(es),
            forall|j: int| 0 <= j < i ==> entry_intact(image@, #[trigger] es[j]),
        decreases entries@.len() - i,
    {
        match verify_entry(image, &entries[i]) {
            Ok(()) => {},
            Err(err) => {
                proof {
                    assert(es[i as int] == entries@[i as int]@);
                    assert forall|k: int| #[trigger] first_not_intact(image@, es, k) implies k == i by {
                        if k < i {
                            assert(entry_intact(image@, es[k]));
                        } else if k > i {
                            assert(entry_intact(image@, es[i as int]));
                        }
                    }
                }
                return Err(err);
            },
        }
        i += 1;
    }
    Ok(entries.len() as u64)
}

/// The files that extracting `es` from `image` through `filters` writes:
/// each selected entry's path with its decoded content, in index order.
pub open spec fn extracted(image: Seq<u8>, es: Seq<EntryView>, filters: Seq<String>) -> Seq<(Seq<char>, Seq<u8>)>
    decreases es.len(),
{
    if es.len() == 0 {
        Seq::empty()
    } else {
        let rest = extracted(image, es.drop_last(), filters);
        let e = es.last();
        if selected(e.path, filters) {
            rest.push((e.path, decoded(payload_bytes(image, e), e.payload_kind)))
        } else {
            rest
        }
    }
}

/// The payload of `e` lies inside the image and decodes to content whose
/// BLAKE3 digest is `raw_hash`.
pub open spec fn entry_extractable(image: Seq<u8>, e: EntryView) -> bool {
    &&& e.payload_offset + e.payload_len <= image.len()
    &&& decodes(payload_bytes(image, e), e.payload_kind)
    &&& blake3_of(decoded(payload_bytes(image, e), e.payload_kind))@ == e.raw_hash
}

/// The error that extracting `e` from `image` reports when `e` is not
/// extractable, by the first check that fails: bounds, decoding, digest.
pub open spec fn extract_failure<T>(image: Seq<u8>, e: EntryView, r: PakResult<T>) -> bool {
    if e.payload_offset + e.payload_len > image.len() {
        is_invalid(r, "payload outside file: "@ + e.path)
    } else if !decodes(payload_bytes(image, e), e.payload_kind) {
        r matches Err(PakError::Io(_))
    } else {
        is_invalid(r, "hash mismatch for "@ + e.path)
    }
}

/// Reads and checks one entry's content for extraction.
pub fn extract_entry(image: &[u8], e: &Entry) -> (r: PakResult<Vec<u8>>)
    ensures
        r is Ok <==> entry_extractable(image@, e@),
        r matches Ok(v) ==> v@ == decoded(payload_bytes(image@, e@), e.payload_kind),
        r is Err ==> extract_failure(image@, e@, r),
{
    let file_len = image.len() as u64;
    if e.payload_len > file_len || e.payload_offset > file_len - e.payload_len {
        return Err(PakError::Invalid(with_path("payload outside file: ", &e.path)));
    }
    let start = e.payload_offset as usize;
    let end = start + e.payload_len as usize;
    let raw = decode_payload(&image[start..end], e.payload_kind)?;
    let got = blake3_digest(raw.as_slice());
    let mut k: usize = 0;
    while k < 32
        invariant
            k <= 32,
            e.payload_offset + e.payload_len <= image@.len(),
            raw@ == decoded(payload_bytes(image@, e@), e.payload_kind),
            decodes(payload_bytes(image@, e@), e.payload_kind),
            got == blake3_of(raw@),
            forall|j: int| 0 <= j < k ==> got@[j] == e.raw_hash@[j],
        decreases 32 - k,
    {
        if got[k] != e.raw_hash[k] {
            proof {
                assert(got@[k as int] != e.raw_hash@[k as int]);
                assert(got@ != e.raw_hash@);
            }
            return Err(PakError::Invalid(with_path("hash mismatch for ", &e.path)));
        }
        k += 1;
    }
    assert(got@ =~= e.raw_hash@);
    Ok(raw)
}

/// `es[i]` is the first entry of `es` that passes `filters` and is not
/// extractable.
pub open spec fn first_unextractable(image: Seq<u8>, es: Seq<EntryView>, filters: Seq<String>, i: int) -> bool {
    &&& 0 <= i < es.len()
    &&& selected(es[i].path, filters)
    &&& !entry_extractable(image, es[i])
    &&& forall|j: int|
        0 <= j < i && selected(es[j].path, filters) ==> entry_extractable(image, #[trigger] es[j])
}

/// Extracts the entries of an archive image that pass `filters` (all of
/// them when `filters` is empty): their paths and checked contents. A
/// rejected index gives the reader's error; otherwise the first selected
/// entry that is not extractable gives its error.
pub fn extract(image: &[u8], filters: &Vec<String>) -> (r: PakResult<Vec<SourceFile>>)
    ensures
        r matches Ok(out) ==> (archive_entries(image@) matches Some(es) && files_view(out@)
            == extracted(image@, es, filters@) && (forall|i: int|
            0 <= i < es.len() && selected(es[i].path, filters@) ==> entry_extractable(
                image@,
                #[trigger] es[i],
            ))),
        archive_entries(image@) is None ==> is_invalid(r, read_error(image@)),
        archive_entries(image@) matches Some(es) ==> ((forall|i: int|
            0 <= i < es.len() && selected(es[i].path, filters@) ==> entry_extractable(
                image@,
                #[trigger] es[i],
            )) ==> r is Ok),
        archive_entries(image@) matches Some(es) ==> (forall|i: int|
            #[trigger] first_unextractable(image@, es, filters@, i) ==> extract_failure(image@, es[i], r)),
{
    let entries = read_entries(image)?;
    let ghost es = entry_views(entries@);
    let mut out: Vec<SourceFile> = Vec::new();
    let mut i: usize = 0;
    proof {
        assert(es.take(0) =~= Seq::<EntryView>::empty());
    }
    while i < entries.len()
        invariant
            i <= entries@.len(),
            es == entry_views(entries@),
            archive_entries(image@) == Some(es),
            files_view(out@) == extracted(image@, es.take(i as int), filters@),
            forall|j: int|
                0 <= j < i && selected(es[j].path, filters@) ==> entry_extractable(image@, #[trigger] es[j]),
        decreases entries@.len() - i,
    {
        let e = &entries[i];
        proof {
            assert(es.take(i + 1).drop_last() =~= es.take(i as int));
            assert(es.take(i + 1).last() == e@);
        }
        if passes_filter(e.path.as_str(), filters) {
            match extract_entry(image, e) {
                Ok(data) => {
                    let ghost before = files_view(out@);
                    out.push(SourceFile { path: e.path.clone(), data });
                    assert(files_view(out@) =~= before.push((e.path@, data@)));
                },
                Err(err) => {
                    proof {
                        assert(es[i as int] == e@);
                        assert forall|k: int| #[trigger] first_unextractable(image@, es, filters@, k) implies k == i by {
                            if k < i {
                                assert(entry_extractable(image@, es[k]));
                            } else if k > i {
                                assert(entry_extractable(image@, es[i as int]));
                            }
                        }
                    }
                    return Err(err);
                },
            }
        }
        i += 1;
    }
    proof {
        assert(es.take(i as int) =~= es);
    }
    Ok(out)
}

/// Public description of one entry, for listings and inspectors.
#[derive(Debug, Clone)]
pub struct EntryInfo {
    pub path: String,
    pub payload_offset: u64,
    pub payload_len: u64,
    pub raw_len: u64,
    /// "raw" or "zstd"
    pub payload_kind: &'static str,
    /// BLAKE3 digest of the raw content, as 64 lowercase hex digits.
    pub raw_hash_hex: String,
}

/// The name of a payload kind in listings.
pub open spec fn kind_name(k: PayloadKind) -> Seq<char> {
    match k {
        PayloadKind::Raw => "raw"@,
        PayloadKind::Zstd => "zstd"@,
    }
}

/// `info` describes `e`.
pub open spec fn describes(info: EntryInfo, e: EntryView) -> bool {
    &&& info.path@ == e.path
    &&& info.payload_offset == e.payload_offset
    &&& info.payload_len == e.payload_len
    &&& info.raw_len == e.raw_len
    &&& info.payload_kind@ == kind_name(e.payload_kind)
    &&& info.raw_hash_hex@ == hex_of(e.raw_hash)
}

/// The public description of `e`.
pub fn entry_info(e: &Entry) -> (r: EntryInfo)
    ensures
        describes(r, e@),
{
    let kind = match e.payload_kind {
        PayloadKind::Raw => "raw",
        PayloadKind::Zstd => "zstd",
    };
    EntryInfo {
        path: e.path.clone(),
        payload_offset: e.payload_offset,
        payload_len: e.payload_len,
        raw_len: e.raw_len,
        payload_kind: kind,
        raw_hash_hex: hex32(&e.raw_hash),
    }
}

/// Reads the index of an archive image and describes each entry, in index order.
pub fn entries(image: &[u8]) -> (r: PakResult<Vec<EntryInfo>>)
    ensures
        r is Ok <==> archive_entries(image@) is Some,
        r is Err ==> is_invalid(r, read_error(image@)),
        r matches Ok(v) ==> (archive_entries(image@) matches Some(es) && v@.len() == es.len()
            && forall|i: int| 0 <= i < es.len() ==> describes(#[trigger] v@[i], es[i])),
{
    let list = read_entries(image)?;
    let ghost es = entry_views(list@);
    let mut out: Vec<EntryInfo> = Vec::new();
    let mut i: usize = 0;
    while i < list.len()
        invariant
            i <= list@.len(),
            es == entry_views(list@),
            archive_entries(image@) == Some(es),
            out@.len() == i,
            forall|j: int| 0 <= j < i ==> describes(#[trigger] out@[j], es[j]),
        decreases list@.len() - i,
    {
        out.push(entry_info(&list[i]));
        i += 1;
    }
    Ok(out)
}

/// The name of a payload kind in verbose listings.
pub open spec fn kind_label(k: PayloadKind) -> Seq<char> {
    match k {
        PayloadKind::Raw => "Raw"@,
        PayloadKind::Zstd => "Zstd"@,
    }
}

/// The listing line of an entry: its path, and in verbose mode its offsets,
/// lengths, kind and digest.
pub open spec fn list_line(e: EntryView, verbose: bool) -> Seq<char> {
    if !verbose {
        e.path
    } else {
        e.path + "  off="@ + decimal_of(e.payload_offset as nat) + " len="@ + decimal_of(
            e.payload_len as nat,
        ) + " raw="@ + decimal_of(e.raw_len as nat) + " kind="@ + kind_label(e.payload_kind)
            + " hash="@ + hex_of(e.raw_hash)
    }
}

fn line_of(e: &Entry, verbose: bool) -> (r: String)
    ensures
        r@ == list_line(e@, verbose),
{
    if !verbose {
        return e.path.clone();
    }
    let mut out: Vec<char> = Vec::new();
    append_chars(&mut out, e.path.as_str());
    append_chars(&mut out, "  off=");
    append_chars(&mut out, decimal(e.payload_offset).as_str());
    append_chars(&mut out, " len=");
    append_chars(&mut out, decimal(e.payload_len).as_str());
    append_chars(&mut out, " raw=");
    append_chars(&mut out, decimal(e.raw_len).as_str());
    append_chars(&mut out, " kind=");
    match e.payload_kind {
        PayloadKind::Raw => append_chars(&mut out, "Raw"),
        PayloadKind::Zstd => append_chars(&mut out, "Zstd"),
    }
    append_chars(&mut out, " hash=");
    append_chars(&mut out, hex32(&e.raw_hash).as_str());
    assert(out@ =~= list_line(e@, verbose));
    string_of(out)
}

/// The listing of an archive image: one line per entry, in index order.
pub fn list(image: &[u8], verbose: bool) -> (r: PakResult<Vec<String>>)
    ensures
        r is Ok <==> archive_entries(image@) is Some,
        r is Err ==> is_invalid(r, read_error(image@)),
        r matches Ok(v) ==> (archive_entries(image@) matches Some(es) && v@.len() == es.len()
            && forall|i: int| 0 <= i < es.len() ==> (#[trigger] v@[i])@ == list_line(es[i], verbose)),
{
    let all = read_entries(image)?;
    let ghost es = entry_views(all@);
    let mut out: Vec<String> = Vec::new();
    let mut i: usize = 0;
    while i < all.len()
        invariant
            i <= all@.len(),
            es == entry_views(all@),
            archive_entries(image@) == Some(es),
            out@.len() == i,
            forall|j: int| 0 <= j < i ==> (#[trigger] out@[j])@ == list_line(es[j], verbose),
        decreases all@.len() - i,
    {
        out.push(line_of(&all[i], verbose));
        i += 1;
    }
    Ok(out)
}

} // verus!
