use vstd::prelude::*;
use vstd::bytes::*;
use vstd::utf8::*;
use crate::archive::{
    archive_entries, decoded, decodes, entry_intact, entry_extractable, extracted, footer_index_len, footer_index_offset,
    footer_index_tag, frame_ok, index_region, payload_bytes,
};
use crate::builder::{
    FileView, all_paths_fit, archive_image, built_image, index_tag, insert_sorted, kind_of,
    path_key, payload_of, payload_region, planned_entries, sort_by_path,
    lemma_sort_by_path_multiset, lemma_sorted_keeps_fit,
};
use crate::digest::blake3_of;
use crate::format::{
    EntryView, PayloadKind, HEADER_LEN, footer_bytes, footer_magic, header_magic, index_bytes,
    path_bytes, path_fits,
};
use crate::order::{
    bytes_lt, lemma_bytes_lt_asymmetric, lemma_bytes_lt_irreflexive, lemma_bytes_lt_total,
    lemma_bytes_lt_transitive,
};
use crate::reader::{encodable, footer_region, lemma_index_round_trip, strictly_sorted};

verus! {

/// No two files share a logical path.
pub open spec fn distinct_paths(files: Seq<FileView>) -> bool {
    forall|i: int, j: int| 0 <= i < files.len() && 0 <= j < files.len() && i != j ==> #[trigger] files[i].0 != #[trigger] files[j].0
}

proof fn lemma_planned_take(files: Seq<FileView>, c: bool, l: i32, m: int)
    requires
        0 <= m <= files.len(),
    ensures
        planned_entries(files, c, l).len() == files.len(),
        planned_entries(files, c, l).take(m) == planned_entries(files.take(m), c, l),
    decreases files.len(),
{
    if files.len() == 0 {
        assert(files.take(m) =~= files);
        assert(planned_entries(files, c, l).take(m) =~= planned_entries(files, c, l));
    } else if m == files.len() {
        lemma_planned_take(files.drop_last(), c, l, m - 1);
        assert(files.take(m) =~= files);
        assert(planned_entries(files, c, l).take(m) =~= planned_entries(files, c, l));
    } else {
        lemma_planned_take(files.drop_last(), c, l, m);
        assert(files.drop_last().take(m) =~= files.take(m));
        assert(planned_entries(files, c, l).take(m) =~= planned_entries(files.drop_last(), c, l).take(m));
    }
}

proof fn lemma_planned_at(files: Seq<FileView>, c: bool, l: i32, k: int)
    requires
        0 <= k < files.len(),
    ensures
        planned_entries(files, c, l)[k] == (EntryView {
            path: files[k].0,
            payload_offset: (HEADER_LEN + payload_region(files.take(k), c, l).len()) as u64,
            payload_len: payload_of(files[k].1, c, l).len() as u64,
            raw_len: files[k].1.len() as u64,
            raw_hash: blake3_of(files[k].1)@,
            payload_kind: kind_of(c),
        }),
{
    lemma_planned_take(files, c, l, k + 1);
    let t = files.take(k + 1);
    assert(t.drop_last() =~= files.take(k));
    assert(t.last() == files[k]);
    lemma_planned_take(t.drop_last(), c, l, 0);
    assert(planned_entries(t, c, l)[k] == planned_entries(t, c, l).last());
    assert(planned_entries(files, c, l)[k] == planned_entries(files, c, l).take(k + 1)[k]);
}

proof fn lemma_region_prefix(files: Seq<FileView>, c: bool, l: i32, m: int)
    requires
        0 <= m <= files.len(),
    ensures
        payload_region(files.take(m), c, l).len() <= payload_region(files, c, l).len(),
        payload_region(files, c, l).subrange(0, payload_region(files.take(m), c, l).len() as int)
            == payload_region(files.take(m), c, l),
    decreases files.len() - m,
{
    if m == files.len() {
        assert(files.take(m) =~= files);
    } else {
        lemma_region_prefix(files, c, l, m + 1);
        let t = files.take(m + 1);
        assert(t.drop_last() =~= files.take(m));
        let a = payload_region(files.take(m), c, l);
        let mid = payload_region(t, c, l);
        let full = payload_region(files, c, l);
        assert(full.subrange(0, a.len() as int) =~= mid.subrange(0, a.len() as int));
        assert(mid.subrange(0, a.len() as int) =~= a);
    }
}

proof fn lemma_payload_at(files: Seq<FileView>, c: bool, l: i32, k: int)
    requires
        0 <= k < files.len(),
    ensures
        ({
            let off = payload_region(files.take(k), c, l).len();
            let p = payload_of(files[k].1, c, l);
            &&& off + p.len() <= payload_region(files, c, l).len()
            &&& payload_region(files, c, l).subrange(off as int, (off + p.len()) as int) == p
        }),
{
    lemma_region_prefix(files, c, l, k + 1);
    let t = files.take(k + 1);
    assert(t.drop_last() =~= files.take(k));
    assert(t.last() == files[k]);
    let a = payload_region(files.take(k), c, l);
    let mid = payload_region(t, c, l);
    let full = payload_region(files, c, l);
    let p = payload_of(files[k].1, c, l);
    assert(mid == a + p);
    assert(full.subrange(a.len() as int, (a.len() + p.len()) as int) =~= mid.subrange(a.len() as int, (a.len() + p.len()) as int));
    assert(mid.subrange(a.len() as int, (a.len() + p.len()) as int) =~= p);
}

/// Paths of `files` ascend strictly by their bytes.
pub open spec fn files_strictly_sorted(files: Seq<FileView>) -> bool {
    forall|i: int| 0 <= i < files.len() - 1 ==> bytes_lt(path_key(#[trigger] files[i]), path_key(files[i + 1]))
}

proof fn lemma_planned_sorted(files: Seq<FileView>, c: bool, l: i32)
    requires
        files_strictly_sorted(files),
    ensures
        strictly_sorted(planned_entries(files, c, l)),
{
    let es = planned_entries(files, c, l);
    lemma_planned_take(files, c, l, 0);
    assert forall|i: int| 0 <= i < es.len() - 1 implies bytes_lt(
        path_bytes(#[trigger] es[i].path),
        path_bytes(es[i + 1].path),
    ) by {
        lemma_planned_at(files, c, l, i);
        lemma_planned_at(files, c, l, i + 1);
        assert(bytes_lt(path_key(files[i]), path_key(files[i + 1])));
    }
}

proof fn lemma_planned_encodable(files: Seq<FileView>, c: bool, l: i32)
    requires
        all_paths_fit(files),
        files.len() <= u32::MAX,
    ensures
        encodable(planned_entries(files, c, l)),
{
    let es = planned_entries(files, c, l);
    lemma_planned_take(files, c, l, 0);
    assert forall|i: int| 0 <= i < es.len() implies path_fits(#[trigger] es[i].path) by {
        lemma_planned_at(files, c, l, i);
    }
    assert forall|i: int| 0 <= i < es.len() implies (#[trigger] es[i].raw_hash).len() == 32 by {
        lemma_planned_at(files, c, l, i);
    }
}

/// The entries that a stored archive's reader finds: the planned ones.
proof fn lemma_archive_entries_of_image(files: Seq<FileView>, c: bool, l: i32)
    requires
        all_paths_fit(files),
        files.len() <= u32::MAX,
        files_strictly_sorted(files),
        archive_image(files, c, l).len() <= u64::MAX,
    ensures
        archive_entries(archive_image(files, c, l)) == Some(planned_entries(files, c, l)),
{
    lemma_auto_spec_u64_to_from_le_bytes();
    lemma_auto_spec_u32_to_from_le_bytes();
    let img = archive_image(files, c, l);
    let payloads = payload_region(files, c, l);
    let es = planned_entries(files, c, l);
    let index = index_bytes(es);
    let off = (HEADER_LEN + payloads.len()) as u64;
    let len = index.len() as u64;
    let foot = footer_bytes(off, len, index_tag(index));
    assert(foot.len() == 32);
    assert(img == header_magic() + payloads + index + foot);
    assert(img.subrange(0, 8) =~= header_magic());
    assert(footer_region(img) =~= foot);
    assert(foot.subrange(0, 8) =~= footer_magic());
    assert(foot.subrange(8, 16) =~= spec_u64_to_le_bytes(off));
    assert(foot.subrange(16, 24) =~= spec_u64_to_le_bytes(len));
    assert(foot.subrange(24, 28) =~= spec_u32_to_le_bytes(index_tag(index)));
    assert(footer_index_offset(img) == off);
    assert(footer_index_len(img) == len);
    assert(footer_index_tag(img) == index_tag(index));
    assert(index_region(img) =~= index);
    assert(frame_ok(img));
    lemma_planned_encodable(files, c, l);
    lemma_index_round_trip(es);
    lemma_planned_sorted(files, c, l);
}

proof fn lemma_stored_payloads(files: Seq<FileView>, c: bool, l: i32, k: int)
    requires
        0 <= k < files.len(),
        archive_image(files, c, l).len() <= u64::MAX,
    ensures
        payload_bytes(archive_image(files, c, l), planned_entries(files, c, l)[k]) == payload_of(files[k].1, c, l),
        planned_entries(files, c, l)[k].payload_offset >= HEADER_LEN,
        planned_entries(files, c, l)[k].payload_offset + planned_entries(files, c, l)[k].payload_len
            <= archive_image(files, c, l).len(),
{
    let img = archive_image(files, c, l);
    let payloads = payload_region(files, c, l);
    lemma_planned_at(files, c, l, k);
    lemma_payload_at(files, c, l, k);
    let a = payload_region(files.take(k), c, l).len() as int;
    let p = payload_of(files[k].1, c, l);
    assert(img.subrange(8 + a, 8 + a + p.len()) =~= payloads.subrange(a, a + p.len()));
}

/// Keys of `t` never descend.
pub open spec fn keys_ascending(t: Seq<FileView>) -> bool {
    forall|i: int| 0 <= i < t.len() - 1 ==> !bytes_lt(path_key(t[i + 1]), path_key(#[trigger] t[i]))
}

proof fn lemma_insert_sorted_last(s: Seq<FileView>, x: FileView)
    ensures
        insert_sorted(s, x).len() == s.len() + 1,
        insert_sorted(s, x).last() == x || (s.len() > 0 && insert_sorted(s, x).last() == s.last()),
    decreases s.len(),
{
    if s.len() > 0 && bytes_lt(path_key(x), path_key(s.last())) {
        lemma_insert_sorted_last(s.drop_last(), x);
    }
}

proof fn lemma_insert_sorted_ascending(s: Seq<FileView>, x: FileView)
    requires
        keys_ascending(s),
    ensures
        keys_ascending(insert_sorted(s, x)),
    decreases s.len(),
{
    let r = insert_sorted(s, x);
    if s.len() == 0 {
    } else if bytes_lt(path_key(x), path_key(s.last())) {
        let d = s.drop_last();
        assert(keys_ascending(d)) by {
            assert forall|i: int| 0 <= i < d.len() - 1 implies !bytes_lt(path_key(d[i + 1]), path_key(#[trigger] d[i])) by {
                assert(d[i] == s[i] && d[i + 1] == s[i + 1]);
            }
        }
        lemma_insert_sorted_ascending(d, x);
        lemma_insert_sorted_last(d, x);
        let r2 = insert_sorted(d, x);
        assert(r == r2.push(s.last()));
        if r2.last() == x {
            lemma_bytes_lt_asymmetric(path_key(x), path_key(s.last()));
        } else {
            assert(d.last() == s[s.len() - 2]);
        }
        assert forall|i: int| 0 <= i < r.len() - 1 implies !bytes_lt(path_key(r[i + 1]), path_key(#[trigger] r[i])) by {
            if i < r.len() - 2 {
                assert(r[i] == r2[i] && r[i + 1] == r2[i + 1]);
            } else {
                assert(r[i] == r2.last());
            }
        }
    } else {
        assert forall|i: int| 0 <= i < r.len() - 1 implies !bytes_lt(path_key(r[i + 1]), path_key(#[trigger] r[i])) by {
            if i < r.len() - 2 {
                assert(r[i] == s[i] && r[i + 1] == s[i + 1]);
            }
        }
    }
}

proof fn lemma_sort_ascending(s: Seq<FileView>)
    ensures
        keys_ascending(sort_by_path(s)),
    decreases s.len(),
{
    if s.len() > 0 {
        lemma_sort_ascending(s.drop_last());
        lemma_insert_sorted_ascending(sort_by_path(s.drop_last()), s.last());
    }
}

proof fn lemma_count_two(t: Seq<FileView>, i: int, j: int)
    requires
        0 <= i < t.len(),
        0 <= j < t.len(),
        i != j,
        t[i] == t[j],
    ensures
        t.to_multiset().count(t[i]) >= 2,
{
    broadcast use vstd::seq_lib::group_to_multiset_ensures, vstd::multiset::group_multiset_axioms;

    let x = t[i];
    let r = t.remove(j);
    t.to_multiset_ensures();
    r.to_multiset_ensures();
    let k = if i < j { i } else { i - 1 };
    assert(r[k] == x);
    assert(r.contains(x));
    assert(r.to_multiset().count(x) > 0);
    assert(r.to_multiset() == t.to_multiset().remove(t[j]));
    assert(t.to_multiset().remove(x).count(x) > 0);
    assert(t.to_multiset().count(x) > 0);
}

proof fn lemma_distinct_transfer(a: Seq<FileView>, t: Seq<FileView>)
    requires
        a.to_multiset() == t.to_multiset(),
        distinct_paths(a),
    ensures
        distinct_paths(t),
{
    broadcast use vstd::seq_lib::group_to_multiset_ensures, vstd::multiset::group_multiset_axioms;

    a.to_multiset_ensures();
    t.to_multiset_ensures();
    assert forall|i: int, j: int| 0 <= i < t.len() && 0 <= j < t.len() && i != j implies #[trigger] t[i].0 != #[trigger] t[j].0 by {
        if t[i].0 == t[j].0 {
            assert(t.contains(t[i]));
            assert(t.contains(t[j]));
            assert(t.to_multiset().count(t[i]) > 0);
            assert(t.to_multiset().count(t[j]) > 0);
            assert(a.to_multiset().count(t[i]) > 0);
            assert(a.to_multiset().count(t[j]) > 0);
            assert(a.contains(t[i]));
            assert(a.contains(t[j]));
            let p = choose|p: int| 0 <= p < a.len() && a[p] == t[i];
            let q = choose|q: int| 0 <= q < a.len() && a[q] == t[j];
            if p == q {
                let x = t[i];
                lemma_count_two(t, i, j);
                let ra = a.remove(p);
                ra.to_multiset_ensures();
                assert(ra.to_multiset() == a.to_multiset().remove(x));
                assert(ra.to_multiset().count(x) >= 1);
                assert(ra.contains(x));
                let r = choose|r: int| 0 <= r < ra.len() && ra[r] == x;
                let r2 = if r < p { r } else { r + 1 };
                assert(a[r2] == x);
                assert(a[p].0 != a[r2].0);
            } else {
                assert(a[p].0 != a[q].0);
            }
        }
    }
}

proof fn lemma_strict_from_distinct(t: Seq<FileView>)
    requires
        keys_ascending(t),
        distinct_paths(t),
    ensures
        files_strictly_sorted(t),
{
    assert forall|i: int| 0 <= i < t.len() - 1 implies bytes_lt(path_key(#[trigger] t[i]), path_key(t[i + 1])) by {
        lemma_bytes_lt_total(path_key(t[i]), path_key(t[i + 1]));
        if path_key(t[i]) == path_key(t[i + 1]) {
            encode_utf8_decode_utf8(t[i].0);
            encode_utf8_decode_utf8(t[i + 1].0);
            assert(t[i].0 != t[i + 1].0);
        }
    }
}

proof fn lemma_strict_pairwise(t: Seq<FileView>, i: int, j: int)
    requires
        files_strictly_sorted(t),
        0 <= i < j < t.len(),
    ensures
        bytes_lt(path_key(t[i]), path_key(t[j])),
    decreases j - i,
{
    if j > i + 1 {
        lemma_strict_pairwise(t, i, j - 1);
        lemma_bytes_lt_transitive(path_key(t[i]), path_key(t[j - 1]), path_key(t[j]));
    }
}

proof fn lemma_sorted_unique(t1: Seq<FileView>, t2: Seq<FileView>)
    requires
        files_strictly_sorted(t1),
        files_strictly_sorted(t2),
        t1.to_multiset() == t2.to_multiset(),
    ensures
        t1 == t2,
    decreases t1.len(),
{
    broadcast use vstd::seq_lib::group_to_multiset_ensures, vstd::multiset::group_multiset_axioms;

    t1.to_multiset_ensures();
    t2.to_multiset_ensures();
    assert(t1.len() == t2.len());
    if t1.len() == 0 {
        assert(t1 =~= t2);
    } else {
        let n = t1.len() - 1;
        let x = t1.last();
        let y = t2.last();
        assert(t1.contains(x));
        assert(t1.to_multiset().count(x) > 0);
        assert(t2.to_multiset().count(x) > 0);
        assert(t2.contains(x));
        assert(t2.contains(y));
        assert(t2.to_multiset().count(y) > 0);
        assert(t1.to_multiset().count(y) > 0);
        assert(t1.contains(y));
        if x != y {
            let j = choose|j: int| 0 <= j < t2.len() && t2[j] == x;
            let i = choose|i: int| 0 <= i < t1.len() && t1[i] == y;
            lemma_strict_pairwise(t2, j, n);
            lemma_strict_pairwise(t1, i, n);
            lemma_bytes_lt_asymmetric(path_key(x), path_key(y));
        }
        let d1 = t1.drop_last();
        let d2 = t2.drop_last();
        d1.to_multiset_ensures();
        d2.to_multiset_ensures();
        assert(t1.remove(n) =~= d1);
        assert(t2.remove(n) =~= d2);
        assert(d1.to_multiset() == t1.to_multiset().remove(x));
        assert(d2.to_multiset() == t2.to_multiset().remove(y));
        assert(files_strictly_sorted(d1)) by {
            assert forall|i: int| 0 <= i < d1.len() - 1 implies bytes_lt(path_key(#[trigger] d1[i]), path_key(d1[i + 1])) by {
                assert(d1[i] == t1[i] && d1[i + 1] == t1[i + 1]);
            }
        }
        assert(files_strictly_sorted(d2)) by {
            assert forall|i: int| 0 <= i < d2.len() - 1 implies bytes_lt(path_key(#[trigger] d2[i]), path_key(d2[i + 1])) by {
                assert(d2[i] == t2[i] && d2[i + 1] == t2[i + 1]);
            }
        }
        lemma_sorted_unique(d1, d2);
        assert(t1 =~= d1.push(x));
        assert(t2 =~= d2.push(y));
    }
}

proof fn lemma_sorted_files_strict(files: Seq<FileView>)
    requires
        distinct_paths(files),
    ensures
        files_strictly_sorted(sort_by_path(files)),
        sort_by_path(files).to_multiset() == files.to_multiset(),
        sort_by_path(files).len() == files.len(),
{
    lemma_sort_by_path_multiset(files);
    lemma_sort_ascending(files);
    lemma_distinct_transfer(files, sort_by_path(files));
    lemma_strict_from_distinct(sort_by_path(files));
}

/// A build depends on which files are handed over, not on their order: two
/// lists holding the same files, no two with the same path, build the same
/// archive bytes.
pub proof fn lemma_build_order_independent(a: Seq<FileView>, b: Seq<FileView>, compress: bool, level: i32)
    requires
        a.to_multiset() == b.to_multiset(),
        distinct_paths(a),
    ensures
        built_image(a, compress, level) == built_image(b, compress, level),
{
    lemma_sorted_files_strict(a);
    lemma_distinct_transfer(a, b);
    lemma_sorted_files_strict(b);
    lemma_sorted_unique(sort_by_path(a), sort_by_path(b));
}

/// Every file's content length fits the index's 64-bit field.
pub open spec fn contents_fit(files: Seq<FileView>) -> bool {
    forall|i: int| 0 <= i < files.len() ==> (#[trigger] files[i].1).len() <= u64::MAX
}

/// Every file's payload decodes back to the file's content. Raw payloads
/// always do; a zstd payload does when its frame decompresses to its input.
pub open spec fn payloads_round_trip(files: Seq<FileView>, compress: bool, level: i32) -> bool {
    forall|i: int|
        0 <= i < files.len() ==> decodes(payload_of(#[trigger] files[i].1, compress, level), kind_of(compress))
            && decoded(payload_of(files[i].1, compress, level), kind_of(compress)) == files[i].1
}

proof fn lemma_round_trip_sorted(files: Seq<FileView>, compress: bool, level: i32)
    requires
        payloads_round_trip(files, compress, level),
        contents_fit(files),
    ensures
        payloads_round_trip(sort_by_path(files), compress, level),
        contents_fit(sort_by_path(files)),
{
    broadcast use vstd::seq_lib::group_to_multiset_ensures;

    lemma_sort_by_path_multiset(files);
    let t = sort_by_path(files);
    files.to_multiset_ensures();
    t.to_multiset_ensures();
    assert forall|i: int| 0 <= i < t.len() implies decodes(payload_of(#[trigger] t[i].1, compress, level), kind_of(compress))
        && decoded(payload_of(t[i].1, compress, level), kind_of(compress)) == t[i].1 by {
        assert(t.contains(t[i]));
        assert(t.to_multiset().count(t[i]) > 0);
        assert(files.to_multiset().count(t[i]) > 0);
        assert(files.contains(t[i]));
        let j = choose|j: int| 0 <= j < files.len() && files[j] == t[i];
        assert(decoded(payload_of(files[j].1, compress, level), kind_of(compress)) == files[j].1);
        assert(decodes(payload_of(files[j].1, compress, level), kind_of(compress)));
    }
    assert forall|i: int| 0 <= i < t.len() implies (#[trigger] t[i].1).len() <= u64::MAX by {
        assert(t.contains(t[i]));
        assert(t.to_multiset().count(t[i]) > 0);
        assert(files.to_multiset().count(t[i]) > 0);
        assert(files.contains(t[i]));
        let j = choose|j: int| 0 <= j < files.len() && files[j] == t[i];
        assert(files[j].1.len() <= u64::MAX);
    }
}

proof fn lemma_entries_intact(files: Seq<FileView>, compress: bool, level: i32)
    requires
        all_paths_fit(files),
        files.len() <= u32::MAX,
        files_strictly_sorted(files),
        payloads_round_trip(files, compress, level),
        contents_fit(files),
        archive_image(files, compress, level).len() <= u64::MAX,
    ensures
        archive_entries(archive_image(files, compress, level)) == Some(planned_entries(files, compress, level)),
        planned_entries(files, compress, level).len() == files.len(),
        forall|i: int|
            0 <= i < files.len() ==> {
                let e = #[trigger] planned_entries(files, compress, level)[i];
                let img = archive_image(files, compress, level);
                &&& entry_intact(img, e)
                &&& entry_extractable(img, e)
                &&& e.payload_kind == kind_of(compress)
                &&& e.path == files[i].0
                &&& decoded(payload_bytes(img, e), e.payload_kind) == files[i].1
            },
{
    lemma_archive_entries_of_image(files, compress, level);
    lemma_planned_take(files, compress, level, 0);
    let img = archive_image(files, compress, level);
    assert forall|i: int| 0 <= i < files.len() implies {
        let e = #[trigger] planned_entries(files, compress, level)[i];
        &&& entry_intact(img, e)
        &&& entry_extractable(img, e)
        &&& e.payload_kind == kind_of(compress)
        &&& e.path == files[i].0
        &&& decoded(payload_bytes(img, e), e.payload_kind) == files[i].1
    } by {
        lemma_planned_at(files, compress, level, i);
        lemma_stored_payloads(files, compress, level, i);
        lemma_payload_at(files, compress, level, i);
        assert(decoded(payload_of(files[i].1, compress, level), kind_of(compress)) == files[i].1);
    }
}

/// A build of files whose paths are distinct and fit the index, and whose
/// lengths fit 64 bits, reads back whenever every payload decodes to its
/// content (always so for a raw build): the reader finds one entry per file,
/// and every payload is in bounds, has its recorded length and its recorded
/// BLAKE3 digest.
pub proof fn lemma_build_then_verify(files: Seq<FileView>, compress: bool, level: i32)
    requires
        all_paths_fit(files),
        files.len() <= u32::MAX,
        distinct_paths(files),
        payloads_round_trip(files, compress, level),
        contents_fit(files),
        built_image(files, compress, level).len() <= u64::MAX,
    ensures
        archive_entries(built_image(files, compress, level)) matches Some(es) && es.len() == files.len()
            && forall|i: int|
            0 <= i < es.len() ==> entry_intact(built_image(files, compress, level), #[trigger] es[i])
                && es[i].payload_kind == kind_of(compress),
{
    lemma_sorted_files_strict(files);
    lemma_sorted_keeps_fit(files);
    lemma_round_trip_sorted(files, compress, level);
    lemma_entries_intact(sort_by_path(files), compress, level);
}

proof fn lemma_extracted_prefix(img: Seq<u8>, es: Seq<EntryView>, files: Seq<FileView>, m: int)
    requires
        0 <= m <= es.len(),
        es.len() == files.len(),
        forall|i: int|
            0 <= i < es.len() ==> (#[trigger] es[i]).path == files[i].0 && decoded(
                payload_bytes(img, es[i]),
                es[i].payload_kind,
            ) == files[i].1,
    ensures
        extracted(img, es.take(m), Seq::empty()) == files.take(m),
    decreases m,
{
    if m == 0 {
        assert(es.take(0) =~= Seq::<EntryView>::empty());
        assert(files.take(0) =~= Seq::<FileView>::empty());
    } else {
        lemma_extracted_prefix(img, es, files, m - 1);
        assert(es.take(m).drop_last() =~= es.take(m - 1));
        assert(es.take(m).last() == es[m - 1]);
        assert(files.take(m) =~= files.take(m - 1).push(files[m - 1]));
    }
}

/// A build of files whose paths are distinct and fit the index, and whose
/// lengths fit 64 bits, extracts without filters to exactly those files
/// whenever every payload decodes to its content (always so for a raw
/// build): every entry passes its digest check, and the extracted
/// (path, content) list is the given list sorted by path, holding the same
/// files.
pub proof fn lemma_build_then_extract(files: Seq<FileView>, compress: bool, level: i32)
    requires
        all_paths_fit(files),
        files.len() <= u32::MAX,
        distinct_paths(files),
        payloads_round_trip(files, compress, level),
        contents_fit(files),
        built_image(files, compress, level).len() <= u64::MAX,
    ensures
        archive_entries(built_image(files, compress, level)) matches Some(es) && (forall|i: int|
            0 <= i < es.len() ==> entry_extractable(built_image(files, compress, level), #[trigger] es[i])
                && es[i].payload_kind == kind_of(compress)) && extracted(
            built_image(files, compress, level),
            es,
            Seq::empty(),
        ) == sort_by_path(files),
        sort_by_path(files).to_multiset() == files.to_multiset(),
{
    lemma_sorted_files_strict(files);
    lemma_sorted_keeps_fit(files);
    lemma_round_trip_sorted(files, compress, level);
    let t = sort_by_path(files);
    lemma_entries_intact(t, compress, level);
    let es = planned_entries(t, compress, level);
    lemma_extracted_prefix(built_image(files, compress, level), es, t, es.len() as int);
    assert(es.take(es.len() as int) =~= es);
    assert(t.take(t.len() as int) =~= t);
}
proof fn lemma_entries_pairwise(es: Seq<EntryView>, i: int, j: int)
    requires
        strictly_sorted(es),
        0 <= i < j < es.len(),
    ensures
        bytes_lt(path_bytes(es[i].path), path_bytes(es[j].path)),
    decreases j - i,
{
    if j > i + 1 {
        lemma_entries_pairwise(es, i, j - 1);
        lemma_bytes_lt_transitive(
            path_bytes(es[i].path),
            path_bytes(es[j - 1].path),
            path_bytes(es[j].path),
        );
    }
}

/// In an archive that the reader accepts, entries ascend strictly by path
/// bytes, so no path occurs twice.
pub proof fn lemma_accepted_entries_ascend(image: Seq<u8>)
    requires
        archive_entries(image) is Some,
    ensures
        ({
            let es = archive_entries(image)->0;
            &&& forall|i: int, j: int|
                0 <= i < j < es.len() ==> bytes_lt(path_bytes(#[trigger] es[i].path), path_bytes(#[trigger] es[j].path))
            &&& forall|i: int, j: int|
                0 <= i < j < es.len() ==> #[trigger] es[i].path != #[trigger] es[j].path
        }),
{
    let es = archive_entries(image)->0;
    assert forall|i: int, j: int| 0 <= i < j < es.len() implies bytes_lt(path_bytes(#[trigger] es[i].path), path_bytes(#[trigger] es[j].path)) by {
        lemma_entries_pairwise(es, i, j);
    }
    assert forall|i: int, j: int| 0 <= i < j < es.len() implies #[trigger] es[i].path != #[trigger] es[j].path by {
        lemma_entries_pairwise(es, i, j);
        if es[i].path == es[j].path {
            lemma_bytes_lt_irreflexive(path_bytes(es[i].path));
        }
    }
}

/// Building no files gives the header, an empty payload region, an index of
/// magic and a zero count, and the footer pointing at it; the reader finds
/// no entries in it.
pub proof fn lemma_empty_build(compress: bool, level: i32)
    ensures
        ({
            let index = index_bytes(Seq::empty());
            &&& index == header_magic() + spec_u32_to_le_bytes(0)
            &&& built_image(Seq::empty(), compress, level) == header_magic() + index + footer_bytes(
                HEADER_LEN,
                index.len() as u64,
                index_tag(index),
            )
            &&& archive_entries(built_image(Seq::empty(), compress, level)) == Some(Seq::<EntryView>::empty())
        }),
{
    let files = Seq::<FileView>::empty();
    lemma_auto_spec_u32_to_from_le_bytes();
    assert(sort_by_path(files) == files);
    assert(planned_entries(files, compress, level) == Seq::<EntryView>::empty());
    let index = index_bytes(Seq::<EntryView>::empty());
    assert(index =~= header_magic() + spec_u32_to_le_bytes(0));
    assert(payload_region(files, compress, level) =~= Seq::<u8>::empty());
    assert(built_image(files, compress, level) =~= header_magic() + index + footer_bytes(
        HEADER_LEN,
        index.len() as u64,
        index_tag(index),
    ));
    assert(archive_image(files, compress, level).len() == 8 + 12 + 32) by {
        lemma_auto_spec_u64_to_from_le_bytes();
    }
    assert(files_strictly_sorted(files));
    assert(all_paths_fit(files));
    lemma_archive_entries_of_image(files, compress, level);
}

/// Each entry of a build of files whose paths are distinct and fit the index
/// describes its file, in path order: the path, the content length, the
/// content's BLAKE3 digest, the payload kind, and the stored payload, which
/// is the content itself in a raw build and its zstd frame otherwise. An
/// empty file thus has `raw_len` 0, and in a raw build an empty payload.
pub proof fn lemma_build_entries_describe_files(files: Seq<FileView>, compress: bool, level: i32)
    requires
        all_paths_fit(files),
        files.len() <= u32::MAX,
        distinct_paths(files),
        built_image(files, compress, level).len() <= u64::MAX,
    ensures
        archive_entries(built_image(files, compress, level)) matches Some(es) && es.len() == files.len()
            && forall|i: int|
            0 <= i < es.len() ==> {
                let f = sort_by_path(files)[i];
                &&& (#[trigger] es[i]).path == f.0
                &&& es[i].raw_len == f.1.len() as u64
                &&& es[i].raw_hash == blake3_of(f.1)@
                &&& es[i].payload_kind == kind_of(compress)
                &&& payload_bytes(built_image(files, compress, level), es[i]) == payload_of(f.1, compress, level)
            },
{
    lemma_sorted_files_strict(files);
    lemma_sorted_keeps_fit(files);
    let t = sort_by_path(files);
    lemma_archive_entries_of_image(t, compress, level);
    lemma_planned_take(t, compress, level, 0);
    let es = planned_entries(t, compress, level);
    assert forall|i: int| 0 <= i < es.len() implies {
        let f = t[i];
        &&& (#[trigger] es[i]).path == f.0
        &&& es[i].raw_len == f.1.len() as u64
        &&& es[i].raw_hash == blake3_of(f.1)@
        &&& es[i].payload_kind == kind_of(compress)
        &&& payload_bytes(built_image(files, compress, level), es[i]) == payload_of(f.1, compress, level)
    } by {
        lemma_planned_at(t, compress, level, i);
        lemma_stored_payloads(t, compress, level, i);
    }
}

} // verus!
