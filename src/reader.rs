use vstd::prelude::*;
use vstd::bytes::*;
use vstd::utf8::*;
use crate::builder::{compute_index_tag, entry_views, index_tag};
use crate::error::{PakError, PakResult, is_invalid};
use crate::format::{Entry, EntryView, PayloadKind, FOOTER_LEN, MAGIC, FOOTER_MAGIC, header_magic, footer_magic, index_bytes, path_bytes, record_bytes, records_bytes, kind_tag, lemma_magic_views, path_fits};
use crate::io::{read_exact, read_u8, read_u16, read_u32, read_u64, truncated_msg};
use crate::order::{bytes_lt, bytes_less};
use crate::text::string_from_utf8;

verus! {

broadcast use vstd::string::group_string_axioms;

/// The location and tag of the index, as the footer records them.
#[derive(Debug, Clone, Copy, PartialEq, Eq, Structural)]
pub struct Footer {
    pub index_offset: u64,
    pub index_len: u64,
    pub index_hash: u32,
}

/// Entries strictly ascending by path bytes.
pub open spec fn strictly_sorted(es: Seq<EntryView>) -> bool {
    forall|i: int|
        0 <= i < es.len() - 1 ==> bytes_lt(
            path_bytes(#[trigger] es[i].path),
            path_bytes(es[i + 1].path),
        )
}

/// The footer of an archive image: the last 32 bytes.
pub open spec fn footer_region(image: Seq<u8>) -> Seq<u8> {
    image.subrange(image.len() - FOOTER_LEN, image.len() as int)
}

/// Whether two byte sequences are equal.
fn same_bytes(a: &[u8], b: &[u8]) -> (r: bool)
    ensures
        r == (a@ == b@),
{
    if a.len() != b.len() {
        return false;
    }
    let mut i: usize = 0;
    while i < a.len()
        invariant
            i <= a@.len(),
            a@.len() == b@.len(),
            forall|k: int| 0 <= k < i ==> a@[k] == b@[k],
        decreases a@.len() - i,
    {
        if a[i] != b[i] {
            return false;
        }
        i += 1;
    }
    assert(a@ =~= b@);
    true
}

/// Reads the footer at the end of an archive image.
pub fn read_footer(image: &[u8]) -> (r: PakResult<Footer>)
    ensures
        image@.len() < FOOTER_LEN ==> is_invalid(r, "file too small"@),
        image@.len() >= FOOTER_LEN && footer_region(image@).subrange(0, 8) != footer_magic()
            ==> is_invalid(r, "bad footer magic"@),
        image@.len() >= FOOTER_LEN && footer_region(image@).subrange(0, 8) == footer_magic()
            ==> r == Ok::<Footer, PakError>(
            Footer {
                index_offset: spec_u64_from_le_bytes(footer_region(image@).subrange(8, 16)),
                index_len: spec_u64_from_le_bytes(footer_region(image@).subrange(16, 24)),
                index_hash: spec_u32_from_le_bytes(footer_region(image@).subrange(24, 28)),
            },
        ),
{
    if image.len() < 32 {
        return Err(PakError::Invalid(String::from_str("file too small")));
    }
    let tail = &image[image.len() - 32..image.len()];
    proof {
        lemma_magic_views();
        assert(tail@ == footer_region(image@));
    }
    if !same_bytes(&tail[0..8], FOOTER_MAGIC.as_slice()) {
        proof {
            assert(tail@.subrange(0, 8) =~= footer_region(image@).subrange(0, 8));
        }
        return Err(PakError::Invalid(String::from_str("bad footer magic")));
    }
    proof {
        assert(tail@.subrange(0, 8) =~= footer_region(image@).subrange(0, 8));
        assert(tail@.subrange(8, 16) =~= footer_region(image@).subrange(8, 16));
        assert(tail@.subrange(16, 24) =~= footer_region(image@).subrange(16, 24));
        assert(tail@.subrange(24, 28) =~= footer_region(image@).subrange(24, 28));
    }
    let index_offset = u64_from_le_bytes(&tail[8..16]);
    let index_len = u64_from_le_bytes(&tail[16..24]);
    let index_hash = u32_from_le_bytes(&tail[24..28]);
    Ok(Footer { index_offset, index_len, index_hash })
}

fn read_bytes(buf: &[u8], pos: &mut usize, n: usize) -> (r: PakResult<Vec<u8>>)
    ensures
        *old(pos) + n <= buf@.len() ==> r is Ok && r->Ok_0@ == buf@.subrange(
            *old(pos) as int,
            *old(pos) + n,
        ) && *final(pos) == *old(pos) + n,
        *old(pos) + n > buf@.len() ==> is_invalid(r, truncated_msg()),
{
    if n > buf.len() || *pos > buf.len() - n {
        return Err(PakError::Invalid(String::from_str("unexpected end of data")));
    }
    let start = *pos;
    let v = vstd::slice::slice_to_vec(&buf[start..start + n]);
    *pos = start + n;
    Ok(v)
}

/// Length of the fixed part of a record after its path bytes: three
/// 64-bit fields, the kind byte and the 32-byte digest.
pub const RECORD_TAIL_LEN: usize = 57;


/// The record that starts at `p` in `b`, with the position after it, or
/// `None` when no well-formed record starts there.
pub open spec fn record_at(b: Seq<u8>, p: int) -> Option<(EntryView, int)> {
    if p < 0 || p + 2 > b.len() {
        None
    } else {
        let n = spec_u16_from_le_bytes(b.subrange(p, p + 2)) as int;
        let q = p + 2 + n;
        if q + RECORD_TAIL_LEN > b.len() {
            None
        } else if !valid_utf8(b.subrange(p + 2, q)) {
            None
        } else if b[q + 24] > 1 {
            None
        } else {
            Some(
                (
                    EntryView {
                        path: decode_utf8(b.subrange(p + 2, q)),
                        payload_offset: spec_u64_from_le_bytes(b.subrange(q, q + 8)),
                        payload_len: spec_u64_from_le_bytes(b.subrange(q + 8, q + 16)),
                        raw_len: spec_u64_from_le_bytes(b.subrange(q + 16, q + 24)),
                        payload_kind: if b[q + 24] == 0 {
                            PayloadKind::Raw
                        } else {
                            PayloadKind::Zstd
                        },
                        raw_hash: b.subrange(q + 25, q + 57),
                    },
                    q + RECORD_TAIL_LEN,
                ),
            )
        }
    }
}

/// The `count` consecutive records that start at `p` in `b`, with the
/// position after the last one.
pub open spec fn records_at(b: Seq<u8>, p: int, count: nat) -> Option<(Seq<EntryView>, int)>
    decreases count,
{
    if count == 0 {
        Some((Seq::empty(), p))
    } else {
        match records_at(b, p, (count - 1) as nat) {
            None => None,
            Some((es, q)) => match record_at(b, q) {
                None => None,
                Some((e, q2)) => Some((es.push(e), q2)),
            },
        }
    }
}

/// The entry count that an index region declares.
pub open spec fn declared_count(index: Seq<u8>) -> u32 {
    spec_u32_from_le_bytes(index.subrange(8, 12))
}

/// The entries that the index region `index` describes, or `None` when it is
/// malformed: a bad magic, a truncated or undecodable record.
pub open spec fn index_entries(index: Seq<u8>) -> Option<Seq<EntryView>> {
    if index.len() < 12 || index.subrange(0, 8) != header_magic() {
        None
    } else {
        match records_at(index, 12, declared_count(index) as nat) {
            None => None,
            Some((es, _)) => Some(es),
        }
    }
}

/// The message of the error that reading a record at `p` in `b` reports:
/// truncation, a path that is not UTF-8, or an unknown payload kind.
pub open spec fn record_error(b: Seq<u8>, p: int) -> Seq<char> {
    if p < 0 || p + 2 > b.len() {
        truncated_msg()
    } else {
        let n = spec_u16_from_le_bytes(b.subrange(p, p + 2)) as int;
        let q = p + 2 + n;
        if q + RECORD_TAIL_LEN > b.len() {
            truncated_msg()
        } else if !valid_utf8(b.subrange(p + 2, q)) {
            "path is not utf8"@
        } else {
            "unknown payload kind"@
        }
    }
}

/// The message of the error for the first of `count` records at `p` that
/// does not decode.
pub open spec fn first_record_error(b: Seq<u8>, p: int, count: nat) -> Seq<char>
    decreases count,
{
    if count == 0 {
        Seq::empty()
    } else {
        match records_at(b, p, (count - 1) as nat) {
            None => first_record_error(b, p, (count - 1) as nat),
            Some((_, q)) => record_error(b, q),
        }
    }
}

proof fn lemma_first_record_error(b: Seq<u8>, p: int, k: nat, m: nat, q: int)
    requires
        k < m,
        records_at(b, p, k) matches Some((_, q0)) && q0 == q,
        record_at(b, q) is None,
    ensures
        records_at(b, p, m) is None,
        first_record_error(b, p, m) == record_error(b, q),
    decreases m - k,
{
    if m > k + 1 {
        lemma_first_record_error(b, p, k, (m - 1) as nat, q);
    }
}

/// The message of the error that parsing the index region `index`, recorded
/// with tag `tag`, reports when the region is rejected.
pub open spec fn index_error(index: Seq<u8>, tag: u32) -> Seq<char> {
    if index_tag(index) != tag {
        "index hash mismatch"@
    } else if index.len() < 8 {
        truncated_msg()
    } else if index.subrange(0, 8) != header_magic() {
        "bad index magic"@
    } else if index.len() < 12 {
        truncated_msg()
    } else {
        match records_at(index, 12, declared_count(index) as nat) {
            None => first_record_error(index, 12, declared_count(index) as nat),
            Some(_) => "index is not sorted"@,
        }
    }
}

/// Reads one index record at `*pos`.
fn read_record(buf: &[u8], pos: &mut usize) -> (r: PakResult<Entry>)
    ensures
        r is Ok <==> record_at(buf@, *old(pos) as int) is Some,
        r matches Ok(e) ==> record_at(buf@, *old(pos) as int) == Some((e@, *final(pos) as int)),
        r is Err ==> is_invalid(r, record_error(buf@, *old(pos) as int)),
{
    let ghost b = buf@;
    let ghost start = *pos as int;
    let n = read_u16(buf, pos)?;
    let p0 = *pos;
    assert(n == spec_u16_from_le_bytes(b.subrange(start, start + 2)));
    if n as usize > buf.len() || p0 > buf.len() - n as usize || buf.len() - (p0 + n as usize) < RECORD_TAIL_LEN {
        return Err(PakError::Invalid(String::from_str("unexpected end of data")));
    }
    let raw_path = read_bytes(buf, pos, n as usize)?;
    let path = match string_from_utf8(raw_path) {
        Some(s) => s,
        None => {
            return Err(PakError::Invalid(String::from_str("path is not utf8")));
        },
    };
    let payload_offset = read_u64(buf, pos)?;
    let payload_len = read_u64(buf, pos)?;
    let raw_len = read_u64(buf, pos)?;
    let tag = read_u8(buf, pos)?;
    let payload_kind = if tag == 0 {
        PayloadKind::Raw
    } else if tag == 1 {
        PayloadKind::Zstd
    } else {
        return Err(PakError::Invalid(String::from_str("unknown payload kind")));
    };
    let raw_hash = read_exact::<32>(buf, pos)?;
    let e = Entry { path, payload_offset, payload_len, raw_len, raw_hash, payload_kind };
    assert(e@ == record_at(b, start).unwrap().0);
    Ok(e)
}

/// Parses and checks the index region `index`, whose footer recorded the tag
/// `expected_tag`: the tag, the magic, every record, and the order of paths.
pub fn parse_index(index: &[u8], expected_tag: u32) -> (r: PakResult<Vec<Entry>>)
    ensures
        r is Err ==> is_invalid(r, index_error(index@, expected_tag)),
        index_tag(index@) != expected_tag ==> r is Err,
        index_tag(index@) == expected_tag ==> match index_entries(index@) {
            None => r is Err,
            Some(es) => if strictly_sorted(es) {
                r is Ok && entry_views(r->Ok_0@) == es
            } else {
                is_invalid(r, "index is not sorted"@)
            },
        },
{
    let tag = compute_index_tag(index);
    if tag != expected_tag {
        return Err(PakError::Invalid(String::from_str("index hash mismatch")));
    }
    let mut pos: usize = 0;
    let magic = read_exact::<8>(index, &mut pos)?;
    proof {
        lemma_magic_views();
    }
    if !same_bytes(magic.as_slice(), MAGIC.as_slice()) {
        return Err(PakError::Invalid(String::from_str("bad index magic")));
    }
    let count = read_u32(index, &mut pos)?;
    let mut out: Vec<Entry> = Vec::new();
    let mut i: u32 = 0;
    proof {
        assert(entry_views(out@) =~= Seq::<EntryView>::empty());
    }
    while i < count
        invariant
            12 <= pos,
            i <= count,
            out@.len() == i,
            index@.len() >= 12,
            index_tag(index@) == expected_tag,
            index@.subrange(0, 8) == header_magic(),
            count == declared_count(index@),
            records_at(index@, 12, i as nat) == Some((entry_views(out@), pos as int)),
        decreases count - i,
    {
        let ghost p0 = pos as int;
        let e = match read_record(index, &mut pos) {
            Ok(e) => e,
            Err(err) => {
                proof {
                    lemma_first_record_error(index@, 12, i as nat, count as nat, p0);
                }
                return Err(err);
            },
        };
        let ghost old_out = entry_views(out@);
        out.push(e);
        proof {
            assert(entry_views(out@) =~= old_out.push(e@));
        }
        i += 1;
    }
    let mut j: usize = 1;
    while j < out.len()
        invariant
            1 <= j,
            out@.len() == count,
            index_tag(index@) == expected_tag,
            index_entries(index@) == Some(entry_views(out@)),
            forall|k: int| 0 <= k < j - 1 && k < out@.len() - 1 ==> bytes_lt(
                path_bytes(#[trigger] entry_views(out@)[k].path),
                path_bytes(entry_views(out@)[k + 1].path),
            ),
        decreases out@.len() - j,
    {
        if !bytes_less(out[j - 1].path.as_str().as_bytes(), out[j].path.as_str().as_bytes()) {
            proof {
                let es = entry_views(out@);
                assert(es[j - 1] == out@[j - 1]@);
                assert(es[j as int] == out@[j as int]@);
                assert(!bytes_lt(path_bytes(es[j - 1].path), path_bytes(es[(j - 1) + 1].path)));
            }
            return Err(PakError::Invalid(String::from_str("index is not sorted")));
        }
        j += 1;
    }
    Ok(out)
}

/// Every path of `es` fits a record and every digest is 32 bytes long.
pub open spec fn encodable(es: Seq<EntryView>) -> bool {
    &&& es.len() <= u32::MAX
    &&& forall|i: int| 0 <= i < es.len() ==> path_fits(#[trigger] es[i].path)
    &&& forall|i: int| 0 <= i < es.len() ==> (#[trigger] es[i].raw_hash).len() == 32
}

proof fn lemma_record_at_decodes(b: Seq<u8>, q: int, e: EntryView)
    requires
        0 <= q,
        path_fits(e.path),
        e.raw_hash.len() == 32,
        q + record_bytes(e).len() <= b.len(),
        b.subrange(q, q + record_bytes(e).len()) == record_bytes(e),
    ensures
        record_at(b, q) == Some((e, q + record_bytes(e).len())),
{
    lemma_auto_spec_u16_to_from_le_bytes();
    lemma_auto_spec_u64_to_from_le_bytes();
    encode_utf8_valid_utf8(e.path);
    encode_utf8_decode_utf8(e.path);
    let pb = path_bytes(e.path);
    let n = pb.len() as int;
    let r = record_bytes(e);
    let q2 = q + 2 + n;
    assert(r.len() == 2 + n + 57);
    assert(b.subrange(q, q + 2) =~= r.subrange(0, 2));
    assert(r.subrange(0, 2) =~= spec_u16_to_le_bytes(n as u16));
    assert(spec_u16_from_le_bytes(b.subrange(q, q + 2)) == n as u16);
    let w = b.subrange(q, q + r.len());
    assert forall|i: int| 0 <= i < r.len() implies b[q + i] == r[i] by {
        assert(w[i] == b[q + i]);
    }
    let m = 2 + n;
    assert(r.subrange(2, m) =~= pb);
    assert(r.subrange(m, m + 8) =~= spec_u64_to_le_bytes(e.payload_offset));
    assert(r.subrange(m + 8, m + 16) =~= spec_u64_to_le_bytes(e.payload_len));
    assert(r.subrange(m + 16, m + 24) =~= spec_u64_to_le_bytes(e.raw_len));
    assert(r[m + 24] == kind_tag(e.payload_kind));
    assert(r.subrange(m + 25, m + 57) =~= e.raw_hash);
    assert(b.subrange(q + 2, q2) =~= r.subrange(2, m));
    assert(b.subrange(q2, q2 + 8) =~= r.subrange(m, m + 8));
    assert(b.subrange(q2 + 8, q2 + 16) =~= r.subrange(m + 8, m + 16));
    assert(b.subrange(q2 + 16, q2 + 24) =~= r.subrange(m + 16, m + 24));
    assert(b[q2 + 24] == r[m + 24]);
    assert(b.subrange(q2 + 25, q2 + 57) =~= r.subrange(m + 25, m + 57));
    let d = record_at(b, q).unwrap().0;
    assert(d.payload_kind == e.payload_kind);
    assert(d == e);
}

proof fn lemma_records_prefix(es: Seq<EntryView>, m: int)
    requires
        0 <= m <= es.len(),
    ensures
        records_bytes(es.take(m)).len() <= records_bytes(es).len(),
        records_bytes(es) .subrange(0, records_bytes(es.take(m)).len() as int) == records_bytes(
            es.take(m),
        ),
    decreases es.len() - m,
{
    if m == es.len() {
        assert(es.take(m) =~= es);
    } else {
        lemma_records_prefix(es, m + 1);
        let t = es.take(m + 1);
        assert(t.drop_last() =~= es.take(m));
        let a = records_bytes(es.take(m));
        let full = records_bytes(es);
        let mid = records_bytes(t);
        assert(mid == a + record_bytes(t.last()));
        assert(full.subrange(0, a.len() as int) =~= mid.subrange(0, a.len() as int));
        assert(mid.subrange(0, a.len() as int) =~= a);
    }
}

proof fn lemma_records_at_decodes(es: Seq<EntryView>, k: nat)
    requires
        encodable(es),
        k <= es.len(),
    ensures
        records_at(index_bytes(es), 12, k) == Some(
            (es.take(k as int), 12 + records_bytes(es.take(k as int)).len() as int),
        ),
    decreases k,
{
    let b = index_bytes(es);
    lemma_auto_spec_u32_to_from_le_bytes();
    assert(spec_u32_to_le_bytes(es.len() as u32).len() == 4);
    if k == 0 {
        assert(es.take(0) =~= Seq::<EntryView>::empty());
    } else {
        lemma_records_at_decodes(es, (k - 1) as nat);
        let t = es.take(k as int);
        let before = es.take(k - 1);
        assert(t.drop_last() =~= before);
        let e = es[k - 1];
        assert(t.last() == e);
        let q: int = 12 + records_bytes(before).len() as int;
        lemma_records_prefix(es, k as int);
        let rt = records_bytes(t);
        assert(rt == records_bytes(before) + record_bytes(e));
        let all = records_bytes(es);
        assert(b == header_magic() + spec_u32_to_le_bytes(es.len() as u32) + all);
        let lr: int = record_bytes(e).len() as int;
        assert(b.subrange(q, q + lr) =~= all.subrange(q - 12, q - 12 + lr));
        assert(all.subrange(q - 12, q - 12 + lr) =~= rt.subrange(q - 12, q - 12 + lr));
        assert(rt.subrange(q - 12, q - 12 + lr) =~= record_bytes(e));
        lemma_record_at_decodes(b, q, e);
        assert(es.take(k - 1).push(e) =~= t);
    }
}

/// Decoding the index region that describes `es` gives back `es`.
pub proof fn lemma_index_round_trip(es: Seq<EntryView>)
    requires
        encodable(es),
    ensures
        index_entries(index_bytes(es)) == Some(es),
{
    let b = index_bytes(es);
    lemma_auto_spec_u32_to_from_le_bytes();
    lemma_records_at_decodes(es, es.len());
    assert(b.subrange(0, 8) =~= header_magic());
    assert(b.subrange(8, 12) =~= spec_u32_to_le_bytes(es.len() as u32));
    assert(declared_count(b) == es.len());
    assert(es.take(es.len() as int) =~= es);
}

} // verus!
