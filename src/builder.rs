use vstd::prelude::*;
use vstd::bytes::*;
use crate::digest::{blake3_of, zstd_frame_of, blake3_digest, zstd_compress};
use crate::error::{PakError, PakResult, is_invalid};
use crate::format::{Entry, EntryView, PayloadKind, HEADER_LEN, MAGIC, FOOTER_MAGIC, MAX_PATH_LEN, header_magic, index_bytes, footer_bytes, path_bytes, record_bytes, records_bytes, path_fits, lemma_magic_views};
use crate::io::{write_u32, write_u64};
use crate::order::{bytes_lt, bytes_less};

verus! {

broadcast use vstd::string::group_string_axioms;

/// One file to archive: its logical path and its content.
#[derive(Debug, Clone, PartialEq, Eq)]
pub struct SourceFile {
    pub path: String,
    pub data: Vec<u8>,
}

/// Mathematical view of a [`SourceFile`]: (logical path, content).
pub type FileView = (Seq<char>, Seq<u8>);

impl View for SourceFile {
    type V = FileView;

    open spec fn view(&self) -> FileView {
        (self.path@, self.data@)
    }
}

/// The views of a list of source files.
pub open spec fn files_view(v: Seq<SourceFile>) -> Seq<FileView> {
    v.map_values(|f: SourceFile| f@)
}

/// The views of a list of entries.
pub open spec fn entry_views(v: Seq<Entry>) -> Seq<EntryView> {
    v.map_values(|e: Entry| e@)
}

/// The sort key of a file: its path's UTF-8 bytes.
pub open spec fn path_key(f: FileView) -> Seq<u8> {
    path_bytes(f.0)
}

/// `s` with `x` inserted after every element whose key is not greater.
pub open spec fn insert_sorted(s: Seq<FileView>, x: FileView) -> Seq<FileView>
    decreases s.len(),
{
    if s.len() == 0 {
        seq![x]
    } else if bytes_lt(path_key(x), path_key(s.last())) {
        insert_sorted(s.drop_last(), x).push(s.last())
    } else {
        s.push(x)
    }
}

/// The stable sort of `s` by path bytes.
pub open spec fn sort_by_path(s: Seq<FileView>) -> Seq<FileView>
    decreases s.len(),
{
    if s.len() == 0 {
        s
    } else {
        insert_sorted(sort_by_path(s.drop_last()), s.last())
    }
}

/// The compression level actually used for a requested level.
pub open spec fn level_used(level: i32) -> i32 {
    if level < 1 {
        1
    } else if level > 22 {
        22
    } else {
        level
    }
}

/// The compression level used for a requested level: clamped to 1..=22.
pub fn compression_level(level: i32) -> (r: i32)
    ensures
        r == level_used(level),
        1 <= r <= 22,
{
    if level < 1 {
        1
    } else if level > 22 {
        22
    } else {
        level
    }
}

/// The payload stored for `data`.
pub open spec fn payload_of(data: Seq<u8>, compress: bool, level: i32) -> Seq<u8> {
    if compress {
        zstd_frame_of(data, level_used(level))
    } else {
        data
    }
}

/// The payload kind a build stores.
pub open spec fn kind_of(compress: bool) -> PayloadKind {
    if compress {
        PayloadKind::Zstd
    } else {
        PayloadKind::Raw
    }
}

/// The payloads of `files`, concatenated in order.
pub open spec fn payload_region(files: Seq<FileView>, compress: bool, level: i32) -> Seq<u8>
    decreases files.len(),
{
    if files.len() == 0 {
        Seq::empty()
    } else {
        payload_region(files.drop_last(), compress, level) + payload_of(
            files.last().1,
            compress,
            level,
        )
    }
}

/// The index entries that describe `files` stored in order after the header.
pub open spec fn planned_entries(files: Seq<FileView>, compress: bool, level: i32) -> Seq<EntryView>
    decreases files.len(),
{
    if files.len() == 0 {
        Seq::empty()
    } else {
        let before = files.drop_last();
        let f = files.last();
        planned_entries(before, compress, level).push(
            EntryView {
                path: f.0,
                payload_offset: (HEADER_LEN + payload_region(before, compress, level).len()) as u64,
                payload_len: payload_of(f.1, compress, level).len() as u64,
                raw_len: f.1.len() as u64,
                raw_hash: blake3_of(f.1)@,
                payload_kind: kind_of(compress),
            },
        )
    }
}

/// The 32-bit index tag: the first 4 bytes of the index's BLAKE3 digest, little-endian.
pub open spec fn index_tag(index: Seq<u8>) -> u32 {
    spec_u32_from_le_bytes(blake3_of(index)@.subrange(0, 4))
}

/// The archive that stores `files` in the given order.
pub open spec fn archive_image(files: Seq<FileView>, compress: bool, level: i32) -> Seq<u8> {
    let payloads = payload_region(files, compress, level);
    let index = index_bytes(planned_entries(files, compress, level));
    header_magic() + payloads + index + footer_bytes(
        (HEADER_LEN + payloads.len()) as u64,
        index.len() as u64,
        index_tag(index),
    )
}

/// The archive that a build of `files` produces: sorted by path, then stored.
pub open spec fn built_image(files: Seq<FileView>, compress: bool, level: i32) -> Seq<u8> {
    archive_image(sort_by_path(files), compress, level)
}

/// The 32-bit tag of an index region.
pub fn compute_index_tag(index: &[u8]) -> (r: u32)
    ensures
        r == index_tag(index@),
{
    let h = blake3_digest(index);
    u32_from_le_bytes(&h[0..4])
}

fn key_of(f: &SourceFile) -> (r: &[u8])
    ensures
        r@ == path_key(f@),
{
    f.path.as_str().as_bytes()
}

/// Sorts `files` by path bytes, keeping the given order among equal paths.
pub fn sort_files(files: Vec<SourceFile>) -> (r: Vec<SourceFile>)
    ensures
        files_view(r@) == sort_by_path(files_view(files@)),
{
    let ghost all = files_view(files@);
    let mut rest = files;
    let mut out: Vec<SourceFile> = Vec::new();
    let ghost mut k: int = 0;
    while rest.len() > 0
        invariant
            0 <= k <= all.len(),
            rest@.len() == all.len() - k,
            files_view(rest@) == all.skip(k),
            files_view(out@) == sort_by_path(all.take(k)),
        decreases rest.len(),
    {
        let ghost before = rest@;
        let x = rest.remove(0);
        proof {
            assert(files_view(before)[0] == all[k]);
            assert(rest@ =~= before.subrange(1, before.len() as int));
            assert(files_view(before) == all.skip(k));
            assert forall|i: int| 0 <= i < rest@.len() implies files_view(rest@)[i] == all.skip(k + 1)[i] by {
                assert(rest@[i] == before[i + 1]);
                assert(files_view(before)[i + 1] == all.skip(k)[i + 1]);
            }
            assert(files_view(rest@) =~= all.skip(k + 1));
            assert(all.take(k + 1).drop_last() =~= all.take(k));
            assert(all[k] == x@);
        }
        let ghost xv = x@;
        let ghost sv = files_view(out@);
        let mut j: usize = out.len();
        proof {
            assert(sv.take(j as int) =~= sv);
            assert(sv.skip(j as int) =~= Seq::<FileView>::empty());
        }
        while j > 0 && bytes_less(key_of(&x), key_of(&out[j - 1]))
            invariant
                j <= out@.len(),
                sv == files_view(out@),
                xv == x@,
                insert_sorted(sv, xv) == insert_sorted(sv.take(j as int), xv) + sv.skip(j as int),
            decreases j,
        {
            proof {
                let t = sv.take(j as int);
                assert(t.drop_last() =~= sv.take(j - 1));
                assert(t.last() == sv[j - 1]);
                assert(sv.skip(j - 1) =~= seq![sv[j - 1]] + sv.skip(j as int));
                assert(insert_sorted(t, xv) == insert_sorted(sv.take(j - 1), xv).push(sv[j - 1]));
                assert(insert_sorted(t, xv) + sv.skip(j as int) =~= insert_sorted(sv.take(j - 1), xv)
                    + sv.skip(j - 1));
            }
            j -= 1;
        }
        proof {
            if j == 0 {
                assert(sv.take(0) =~= Seq::<FileView>::empty());
            } else {
                assert(sv.take(j as int).last() == sv[j - 1]);
            }
            assert(insert_sorted(sv.take(j as int), xv) =~= sv.take(j as int).push(xv));
        }
        out.insert(j, x);
        proof {
            assert(files_view(out@) =~= sv.take(j as int).push(xv) + sv.skip(j as int));
            k = k + 1;
        }
    }
    proof {
        assert(all.take(k) =~= all);
    }
    out
}

fn append_record(out: &mut Vec<u8>, e: &Entry)
    requires
        path_fits(e.path@),
    ensures
        final(out)@ == old(out)@ + record_bytes(e@),
{
    let p = e.path.as_str().as_bytes();
    let n = u16_to_le_bytes(p.len() as u16);
    out.extend_from_slice(n.as_slice());
    out.extend_from_slice(p);
    write_u64(out, e.payload_offset);
    write_u64(out, e.payload_len);
    write_u64(out, e.raw_len);
    let tag: u8 = match e.payload_kind {
        PayloadKind::Raw => 0,
        PayloadKind::Zstd => 1,
    };
    out.push(tag);
    out.extend_from_slice(e.raw_hash.as_slice());
    proof {
        assert(final(out)@ =~= old(out)@ + record_bytes(e@));
    }
}

/// The index region describing `entries`, in their order.
pub fn encode_index(entries: &Vec<Entry>) -> (r: Vec<u8>)
    requires
        entries@.len() <= u32::MAX,
        forall|i: int| 0 <= i < entries@.len() ==> path_fits(#[trigger] entries@[i].path@),
    ensures
        r@ == index_bytes(entry_views(entries@)),
{
    let ghost es = entry_views(entries@);
    let mut out: Vec<u8> = Vec::new();
    out.extend_from_slice(MAGIC.as_slice());
    write_u32(&mut out, entries.len() as u32);
    proof {
        lemma_magic_views();
        assert(es.take(0) =~= Seq::<EntryView>::empty());
        assert(out@ =~= header_magic() + spec_u32_to_le_bytes(es.len() as u32) + records_bytes(es.take(0)));
    }
    let mut i: usize = 0;
    while i < entries.len()
        invariant
            i <= entries@.len(),
            es == entry_views(entries@),
            forall|j: int| 0 <= j < entries@.len() ==> path_fits(#[trigger] entries@[j].path@),
            out@ == header_magic() + spec_u32_to_le_bytes(es.len() as u32) + records_bytes(es.take(i as int)),
        decreases entries@.len() - i,
    {
        append_record(&mut out, &entries[i]);
        proof {
            assert(es.take(i + 1).drop_last() =~= es.take(i as int));
            assert(es.take(i + 1).last() == entries@[i as int]@);
        }
        i += 1;
    }
    proof {
        assert(es.take(i as int) =~= es);
    }
    out
}

/// The footer that points at an index region.
pub fn encode_footer(index_offset: u64, index_len: u64, tag: u32) -> (r: Vec<u8>)
    ensures
        r@ == footer_bytes(index_offset, index_len, tag),
{
    let mut out: Vec<u8> = Vec::new();
    out.extend_from_slice(FOOTER_MAGIC.as_slice());
    write_u64(&mut out, index_offset);
    write_u64(&mut out, index_len);
    write_u32(&mut out, tag);
    write_u32(&mut out, 0);
    proof {
        lemma_magic_views();
        assert(out@ =~= footer_bytes(index_offset, index_len, tag));
    }
    out
}

/// Message of the error raised for a logical path longer than an index record holds.
pub open spec fn too_long_msg() -> Seq<char> {
    "path too long"@
}

/// Message of the error raised when the entry count does not fit the index.
pub open spec fn too_many_msg() -> Seq<char> {
    "too many entries"@
}

/// Every path of `files` fits an index record.
pub open spec fn all_paths_fit(files: Seq<FileView>) -> bool {
    forall|i: int| 0 <= i < files.len() ==> path_fits(#[trigger] files[i].0)
}

proof fn lemma_insert_sorted_len(s: Seq<FileView>, x: FileView)
    ensures
        insert_sorted(s, x).len() == s.len() + 1,
    decreases s.len(),
{
    if s.len() > 0 {
        lemma_insert_sorted_len(s.drop_last(), x);
    }
}

proof fn lemma_insert_sorted_multiset(s: Seq<FileView>, x: FileView)
    ensures
        insert_sorted(s, x).to_multiset() == s.to_multiset().insert(x),
    decreases s.len(),
{
    broadcast use vstd::seq_lib::group_to_multiset_ensures, vstd::multiset::group_multiset_axioms;

    if s.len() == 0 {
        assert(seq![x] =~= s.push(x));
    } else if bytes_lt(path_key(x), path_key(s.last())) {
        lemma_insert_sorted_multiset(s.drop_last(), x);
        assert(s =~= s.drop_last().push(s.last()));
        assert(insert_sorted(s, x).to_multiset() =~= s.to_multiset().insert(x));
    }
}

/// Sorting by path keeps exactly the given files.
pub proof fn lemma_sort_by_path_multiset(s: Seq<FileView>)
    ensures
        sort_by_path(s).to_multiset() == s.to_multiset(),
        sort_by_path(s).len() == s.len(),
    decreases s.len(),
{
    broadcast use vstd::seq_lib::group_to_multiset_ensures, vstd::multiset::group_multiset_axioms;

    if s.len() > 0 {
        lemma_sort_by_path_multiset(s.drop_last());
        lemma_insert_sorted_multiset(sort_by_path(s.drop_last()), s.last());
        lemma_insert_sorted_len(sort_by_path(s.drop_last()), s.last());
        assert(s =~= s.drop_last().push(s.last()));
    }
}

/// Sorting keeps every path fitting an index record.
pub proof fn lemma_sorted_keeps_fit(files: Seq<FileView>)
    requires
        all_paths_fit(files),
    ensures
        all_paths_fit(sort_by_path(files)),
{
    broadcast use vstd::seq_lib::group_to_multiset_ensures;

    lemma_sort_by_path_multiset(files);
    let t = sort_by_path(files);
    assert forall|i: int| 0 <= i < t.len() implies path_fits(#[trigger] t[i].0) by {
        assert(t.contains(t[i]));
        assert(t.to_multiset().count(t[i]) > 0);
        assert(files.contains(t[i]));
    }
}

/// Receives the progress reports of a build, in the order they happen.
pub trait ProgressSink {
    fn report(&mut self, progress: BuildProgress);
}

/// A progress sink that ignores every report.
pub struct NoProgress;

impl ProgressSink for NoProgress {
    fn report(&mut self, progress: BuildProgress) {
    }
}

/// Builds the archive image of `files`: sorted by path bytes, each payload
/// stored raw or as a zstd frame at the clamped level, then the index and
/// the footer.
pub fn build(files: Vec<SourceFile>, compress: bool, zstd_level: i32) -> (r: PakResult<Vec<u8>>)
    ensures
        r matches Ok(img) ==> img@ == built_image(files_view(files@), compress, zstd_level),
        is_invalid(r, too_long_msg()) <==> !all_paths_fit(files_view(files@)),
        is_invalid(r, too_many_msg()) <==> all_paths_fit(files_view(files@)) && files@.len() > u32::MAX,
        all_paths_fit(files_view(files@)) && files@.len() <= u32::MAX ==> r is Ok,
{
    build_with_progress(files, compress, zstd_level, &mut NoProgress)
}

/// [`build`], reporting to `progress` as each stage starts and ends and
/// after each payload.
pub fn build_with_progress<S: ProgressSink>(
    files: Vec<SourceFile>,
    compress: bool,
    zstd_level: i32,
    progress: &mut S,
) -> (r: PakResult<Vec<u8>>)
    ensures
        r matches Ok(img) ==> img@ == built_image(files_view(files@), compress, zstd_level),
        is_invalid(r, too_long_msg()) <==> !all_paths_fit(files_view(files@)),
        is_invalid(r, too_many_msg()) <==> all_paths_fit(files_view(files@)) && files@.len() > u32::MAX,
        all_paths_fit(files_view(files@)) && files@.len() <= u32::MAX ==> r is Ok,
{
    let ghost fv = files_view(files@);
    let mut k: usize = 0;
    while k < files.len()
        invariant
            k <= files@.len(),
            fv == files_view(files@),
            forall|i: int| 0 <= i < k ==> path_fits(#[trigger] fv[i].0),
        decreases files@.len() - k,
    {
        if files[k].path.as_str().as_bytes().len() > MAX_PATH_LEN {
            proof {
                reveal_strlit("path too long");
                reveal_strlit("too many entries");
                assert(!path_fits(fv[k as int].0));
                assert(!all_paths_fit(fv));
                assert("path too long"@.len() != "too many entries"@.len());
            }
            return Err(PakError::Invalid(String::from_str("path too long")));
        }
        k += 1;
    }
    assert(all_paths_fit(fv));
    if files.len() > u32::MAX as usize {
        proof {
            reveal_strlit("path too long");
            reveal_strlit("too many entries");
            assert("path too long"@.len() != "too many entries"@.len());
        }
        return Err(PakError::Invalid(String::from_str("too many entries")));
    }
    let level = compression_level(zstd_level);
    let n = files.len();
    let sorted = sort_files(files);
    let ghost sv = files_view(sorted@);
    proof {
        lemma_sort_by_path_multiset(fv);
        lemma_sorted_keeps_fit(fv);
        lemma_magic_views();
    }
    let total = n as u64;
    progress.report(BuildProgress { stage: BuildStage::WritingPayloads, done: 0, total, current: None });
    let mut out: Vec<u8> = Vec::new();
    out.extend_from_slice(MAGIC.as_slice());
    let mut entries: Vec<Entry> = Vec::new();
    let mut i: usize = 0;
    proof {
        assert(sv.take(0) =~= Seq::<FileView>::empty());
        assert(out@ =~= header_magic() + payload_region(sv.take(0), compress, zstd_level));
        assert(entry_views(entries@) =~= planned_entries(sv.take(0), compress, zstd_level));
    }
    while i < sorted.len()
        invariant
            i <= sorted@.len(),
            sorted@.len() == n,
            n <= u32::MAX,
            sv == files_view(sorted@),
            sv == sort_by_path(fv),
            all_paths_fit(sv),
            all_paths_fit(fv),
            fv.len() == n,
            fv == files_view(files@),
            level == level_used(zstd_level),
            out@ == header_magic() + payload_region(sv.take(i as int), compress, zstd_level),
            entry_views(entries@) == planned_entries(sv.take(i as int), compress, zstd_level),
            entries@.len() == i,
            forall|j: int| 0 <= j < i ==> (#[trigger] entries@[j]).path@ == sv[j].0,
        decreases sorted@.len() - i,
    {
        let f = &sorted[i];
        let ghost before = out@;
        let payload_offset = out.len() as u64;
        let raw_hash = blake3_digest(f.data.as_slice());
        let payload_len: u64;
        let kind: PayloadKind;
        if compress {
            match zstd_compress(f.data.as_slice(), level) {
                Ok(p) => {
                    out.extend_from_slice(p.as_slice());
                    payload_len = p.len() as u64;
                },
                Err(e) => {
                    return Err(PakError::Io(e));
                },
            }
            kind = PayloadKind::Zstd;
        } else {
            out.extend_from_slice(f.data.as_slice());
            payload_len = f.data.len() as u64;
            kind = PayloadKind::Raw;
        }
        let e = Entry {
            path: f.path.clone(),
            payload_offset,
            payload_len,
            raw_len: f.data.len() as u64,
            raw_hash,
            payload_kind: kind,
        };
        let current = Some(f.path.clone());
        entries.push(e);
        proof {
            let t = sv.take(i + 1);
            assert(t.drop_last() =~= sv.take(i as int));
            assert(t.last() == sv[i as int]);
            assert(sv[i as int] == f@);
            assert(out@ =~= header_magic() + payload_region(t, compress, zstd_level));
            assert(entry_views(entries@) =~= planned_entries(t, compress, zstd_level));
        }
        i += 1;
        progress.report(BuildProgress { stage: BuildStage::WritingPayloads, done: i as u64, total, current });
    }
    proof {
        assert(sv.take(i as int) =~= sv);
        assert forall|j: int| 0 <= j < entries@.len() implies path_fits(#[trigger] entries@[j].path@) by {
            assert(path_fits(sv[j].0));
        }
    }
    progress.report(BuildProgress { stage: BuildStage::WritingIndex, done: 0, total: 1, current: None });
    let index_offset = out.len() as u64;
    let index = encode_index(&entries);
    let tag = compute_index_tag(index.as_slice());
    out.extend_from_slice(index.as_slice());
    progress.report(BuildProgress { stage: BuildStage::WritingIndex, done: 1, total: 1, current: None });
    progress.report(BuildProgress { stage: BuildStage::Finalizing, done: 0, total: 1, current: None });
    let footer = encode_footer(index_offset, index.len() as u64, tag);
    out.extend_from_slice(footer.as_slice());
    progress.report(BuildProgress { stage: BuildStage::Finalizing, done: 1, total: 1, current: None });
    proof {
        assert(out@ =~= built_image(fv, compress, zstd_level));
    }
    Ok(out)
}

/// The stages of a build, in the order they are reported.
#[derive(Debug, Clone, Copy, PartialEq, Eq, Structural)]
pub enum BuildStage {
    Scanning,
    WritingPayloads,
    WritingIndex,
    Finalizing,
}

impl BuildStage {
    /// The stage's name for display.
    pub fn as_str(self) -> (r: &'static str)
        ensures
            r@ == match self {
                BuildStage::Scanning => "Scanning"@,
                BuildStage::WritingPayloads => "Writing payloads"@,
                BuildStage::WritingIndex => "Writing index"@,
                BuildStage::Finalizing => "Finalizing"@,
            },
    {
        match self {
            BuildStage::Scanning => "Scanning",
            BuildStage::WritingPayloads => "Writing payloads",
            BuildStage::WritingIndex => "Writing index",
            BuildStage::Finalizing => "Finalizing",
        }
    }
}

/// One progress report of a build: stage, work done of total, current item.
#[derive(Debug, Clone)]
pub struct BuildProgress {
    pub stage: BuildStage,
    pub done: u64,
    pub total: u64,
    pub current: Option<String>,
}

} // verus!
