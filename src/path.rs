use vstd::prelude::*;
use crate::error::{PakError, PakResult, is_invalid};
use crate::text::{append_chars, chars_of, string_of};

verus! {

broadcast use vstd::string::group_string_axioms;

/// `pat` occurs in `s` as a contiguous run of characters.
pub open spec fn occurs_in(pat: Seq<char>, s: Seq<char>) -> bool {
    exists|i: int| 0 <= i <= s.len() - pat.len() && #[trigger] s.subrange(i, i + pat.len()) == pat
}

fn matches_at(s: &Vec<char>, pat: &Vec<char>, i: usize) -> (r: bool)
    requires
        i + pat@.len() <= s@.len(),
        s@.len() <= usize::MAX,
    ensures
        r == (s@.subrange(i as int, i + pat@.len()) == pat@),
{
    let mut k: usize = 0;
    while k < pat.len()
        invariant
            i + pat@.len() <= s@.len(),
            s@.len() <= usize::MAX,
            k <= pat@.len(),
            forall|j: int| 0 <= j < k ==> s@[i + j] == pat@[j],
        decreases pat@.len() - k,
    {
        if s[i + k] != pat[k] {
            assert(s@.subrange(i as int, i + pat@.len())[k as int] != pat@[k as int]);
            return false;
        }
        k += 1;
    }
    assert(s@.subrange(i as int, i + pat@.len()) =~= pat@);
    true
}

/// Whether `pat` occurs in `s`.
pub fn contains_str(s: &str, pat: &str) -> (r: bool)
    ensures
        r == occurs_in(pat@, s@),
{
    let sc = chars_of(s);
    let pc = chars_of(pat);
    if pc.len() > sc.len() {
        return false;
    }
    let last = sc.len() - pc.len();
    let mut i: usize = 0;
    loop
        invariant
            pc@.len() <= sc@.len(),
            sc@.len() <= usize::MAX,
            last == sc@.len() - pc@.len(),
            sc@ == s@,
            pc@ == pat@,
            i <= last,
            forall|j: int| 0 <= j < i ==> #[trigger] s@.subrange(j, j + pat@.len()) != pat@,
        decreases last - i,
    {
        if matches_at(&sc, &pc, i) {
            return true;
        }
        if i == last {
            return false;
        }
        i += 1;
    }
}

/// A logical path is excluded when it contains a non-empty exclude string.
pub open spec fn excluded(path: Seq<char>, excludes: Seq<String>) -> bool {
    exists|i: int|
        0 <= i < excludes.len() && (#[trigger] excludes[i])@.len() > 0 && occurs_in(excludes[i]@, path)
}

/// Whether `norm_path` contains any of the non-empty `excludes`.
pub fn should_exclude(norm_path: &str, excludes: &Vec<String>) -> (r: bool)
    ensures
        r == excluded(norm_path@, excludes@),
{
    let mut i: usize = 0;
    while i < excludes.len()
        invariant
            i <= excludes@.len(),
            forall|j: int|
                0 <= j < i ==> !((#[trigger] excludes@[j])@.len() > 0 && occurs_in(excludes@[j]@, norm_path@)),
        decreases excludes@.len() - i,
    {
        let e = excludes[i].as_str();
        if e.unicode_len() > 0 && contains_str(norm_path, e) {
            return true;
        }
        i += 1;
    }
    false
}

/// An entry passes the filters when none are given or one occurs in its path.
pub open spec fn selected(path: Seq<char>, filters: Seq<String>) -> bool {
    filters.len() == 0 || exists|i: int| 0 <= i < filters.len() && occurs_in((#[trigger] filters[i])@, path)
}

/// Whether an entry at `path` passes `filters`.
pub fn passes_filter(path: &str, filters: &Vec<String>) -> (r: bool)
    ensures
        r == selected(path@, filters@),
{
    if filters.len() == 0 {
        return true;
    }
    let mut i: usize = 0;
    while i < filters.len()
        invariant
            i <= filters@.len(),
            filters@.len() > 0,
            forall|j: int| 0 <= j < i ==> !occurs_in((#[trigger] filters@[j])@, path@),
        decreases filters@.len() - i,
    {
        if contains_str(path, filters[i].as_str()) {
            return true;
        }
        i += 1;
    }
    false
}

/// `s` with every backslash turned into a forward slash.
pub open spec fn slashed(s: Seq<char>) -> Seq<char> {
    s.map_values(|c: char| if c == '\\' { '/' } else { c })
}

/// `s` without its leading forward slashes.
pub open spec fn without_leading_slashes(s: Seq<char>) -> Seq<char>
    decreases s.len(),
{
    if s.len() > 0 && s[0] == '/' {
        without_leading_slashes(s.drop_first())
    } else {
        s
    }
}

/// The components joined by forward slashes, with no slash added after a
/// part that already ends in one (a root component).
pub open spec fn joined(parts: Seq<Seq<char>>) -> Seq<char>
    decreases parts.len(),
{
    if parts.len() == 0 {
        Seq::empty()
    } else if parts.len() == 1 {
        parts[0]
    } else {
        let j = joined(parts.drop_last());
        if j.len() > 0 && j.last() == '/' {
            j + parts.last()
        } else {
            j + seq!['/'] + parts.last()
        }
    }
}

/// The character sequences of a list of strings.
pub open spec fn strings_view(v: Seq<String>) -> Seq<Seq<char>> {
    v.map_values(|s: String| s@)
}

/// The components of `root` start the components of `file`.
pub open spec fn under_root(root: Seq<Seq<char>>, file: Seq<Seq<char>>) -> bool {
    root.len() <= file.len() && file.take(root.len() as int) == root
}

/// The logical relative path of `file` under `root`: the remaining components
/// joined by `/`, leading slashes removed, backslashes mapped to `/`.
pub open spec fn relative_path(root: Seq<Seq<char>>, file: Seq<Seq<char>>) -> Seq<char> {
    slashed(without_leading_slashes(joined(file.skip(root.len() as int))))
}

fn slash_all(s: Vec<char>) -> (r: Vec<char>)
    ensures
        r@ == slashed(s@),
{
    let mut out: Vec<char> = Vec::new();
    let mut i: usize = 0;
    while i < s.len()
        invariant
            i <= s@.len(),
            out@ == slashed(s@.take(i as int)),
        decreases s@.len() - i,
    {
        let c = if s[i] == '\\' { '/' } else { s[i] };
        out.push(c);
        i += 1;
        assert(out@ =~= slashed(s@.take(i as int)));
    }
    assert(s@.take(i as int) =~= s@);
    out
}

fn strip_leading_slashes(s: &Vec<char>) -> (r: Vec<char>)
    ensures
        r@ == without_leading_slashes(s@),
{
    let mut i: usize = 0;
    assert(s@.skip(0) =~= s@);
    while i < s.len() && s[i] == '/'
        invariant
            i <= s@.len(),
            without_leading_slashes(s@) == without_leading_slashes(s@.skip(i as int)),
        decreases s@.len() - i,
    {
        assert(s@.skip(i as int).drop_first() =~= s@.skip(i + 1));
        i += 1;
    }
    let mut out: Vec<char> = Vec::new();
    let mut j: usize = i;
    while j < s.len()
        invariant
            i <= j <= s@.len(),
            out@ == s@.subrange(i as int, j as int),
        decreases s@.len() - j,
    {
        out.push(s[j]);
        j += 1;
        assert(out@ =~= s@.subrange(i as int, j as int));
    }
    assert(out@ =~= s@.skip(i as int));
    out
}

fn join_parts(parts: &Vec<String>, from: usize) -> (r: Vec<char>)
    requires
        from <= parts@.len(),
    ensures
        r@ == joined(strings_view(parts@).skip(from as int)),
{
    let ghost all = strings_view(parts@).skip(from as int);
    let mut out: Vec<char> = Vec::new();
    let mut i: usize = from;
    proof {
        assert(all.take(0) =~= Seq::<Seq<char>>::empty());
    }
    while i < parts.len()
        invariant
            from <= i <= parts@.len(),
            all == strings_view(parts@).skip(from as int),
            out@ == joined(all.take(i - from)),
        decreases parts@.len() - i,
    {
        let ghost t = all.take(i - from + 1);
        proof {
            assert(t.drop_last() =~= all.take(i - from));
            assert(t.last() == parts@[i as int]@);
        }
        if i > from {
            if out.len() == 0 || out[out.len() - 1] != '/' {
                out.push('/');
            }
        } else {
            assert(all.take(0) =~= Seq::<Seq<char>>::empty());
        }
        append_chars(&mut out, parts[i].as_str());
        i += 1;
        proof {
            if t.len() == 1 {
                assert(out@ =~= joined(t));
            } else {
                assert(out@ =~= joined(t));
            }
        }
    }
    proof {
        assert(all.take(i - from) =~= all);
    }
    out
}

/// Message of the error raised for a file that is its root itself.
pub open spec fn empty_rel_msg() -> Seq<char> {
    "empty relative path"@
}

/// The logical relative path of a file under the input root, both given as
/// their path components.
pub fn normalize_rel_path(input_root: &Vec<String>, file_path: &Vec<String>) -> (r: PakResult<String>)
    ensures
        !under_root(strings_view(input_root@), strings_view(file_path@)) ==> (r matches Err(
            PakError::Outside(m),
        ) && m@ == joined(strings_view(file_path@))),
        under_root(strings_view(input_root@), strings_view(file_path@)) ==> {
            let rel = relative_path(strings_view(input_root@), strings_view(file_path@));
            &&& rel.len() == 0 ==> is_invalid(r, empty_rel_msg())
            &&& rel.len() > 0 ==> (r matches Ok(s) && s@ == rel)
        },
{
    let ghost rv = strings_view(input_root@);
    let ghost fv = strings_view(file_path@);
    let mut inside = input_root.len() <= file_path.len();
    let mut i: usize = 0;
    while inside && i < input_root.len()
        invariant
            i <= input_root@.len(),
            inside ==> input_root@.len() <= file_path@.len(),
            inside ==> forall|k: int| 0 <= k < i ==> fv[k] == rv[k],
            !inside ==> !under_root(rv, fv),
            rv == strings_view(input_root@),
            fv == strings_view(file_path@),
        decreases input_root@.len() - i,
    {
        if input_root[i] != file_path[i] {
            inside = false;
            assert(fv.take(rv.len() as int)[i as int] != rv[i as int]);
        }
        i += 1;
    }
    if !inside {
        let whole = join_parts(file_path, 0);
        assert(fv.skip(0) =~= fv);
        return Err(PakError::Outside(string_of(whole)));
    }
    assert(fv.take(rv.len() as int) =~= rv);
    let joined_rest = join_parts(file_path, input_root.len());
    let trimmed = strip_leading_slashes(&joined_rest);
    let out = slash_all(trimmed);
    if out.len() == 0 {
        return Err(PakError::Invalid(String::from_str("empty relative path")));
    }
    Ok(string_of(out))
}

/// The logical path of `rel` under `prefix`: `rel` itself for an empty
/// prefix, else the prefix with backslashes mapped to `/` and a trailing `/`
/// added if missing, followed by `rel` without its leading slashes.
pub open spec fn prefixed_path(prefix: Seq<char>, rel: Seq<char>) -> Seq<char> {
    if prefix.len() == 0 {
        rel
    } else {
        let p = slashed(prefix);
        let p2 = if p.last() == '/' {
            p
        } else {
            p.push('/')
        };
        p2 + without_leading_slashes(rel)
    }
}

/// Applies the mount prefix to a relative path.
pub fn prefixed(prefix: &str, rel: &str) -> (r: String)
    ensures
        r@ == prefixed_path(prefix@, rel@),
{
    let pc = chars_of(prefix);
    if pc.len() == 0 {
        return string_of(chars_of(rel));
    }
    let mut p = slash_all(pc);
    if p[p.len() - 1] != '/' {
        p.push('/');
    }
    let rc = chars_of(rel);
    let r = strip_leading_slashes(&rc);
    let mut i: usize = 0;
    let ghost start = p@;
    while i < r.len()
        invariant
            i <= r@.len(),
            p@ == start + r@.take(i as int),
        decreases r@.len() - i,
    {
        p.push(r[i]);
        i += 1;
        assert(p@ =~= start + r@.take(i as int));
    }
    assert(r@.take(i as int) =~= r@);
    string_of(p)
}

/// The character sequence of an optional string.
pub open spec fn opt_view(o: Option<String>) -> Option<Seq<char>> {
    match o {
        Some(s) => Some(s@),
        None => None,
    }
}

/// The logical path under which a scanned file is archived, or `None` when
/// an exclude string drops it.
pub open spec fn logical_path_of(
    root: Seq<Seq<char>>,
    file: Seq<Seq<char>>,
    prefix: Seq<char>,
    excludes: Seq<String>,
) -> Option<Seq<char>> {
    let p = prefixed_path(prefix, relative_path(root, file));
    if excluded(p, excludes) {
        None
    } else {
        Some(p)
    }
}

/// Turns one scanned file into its logical path: relative to the input root,
/// under the prefix, and dropped (`None`) when an exclude string matches.
pub fn logical_path(
    input_root: &Vec<String>,
    file_path: &Vec<String>,
    prefix: &str,
    excludes: &Vec<String>,
) -> (r: PakResult<Option<String>>)
    ensures
        !under_root(strings_view(input_root@), strings_view(file_path@)) ==> (r matches Err(
            PakError::Outside(m),
        ) && m@ == joined(strings_view(file_path@))),
        under_root(strings_view(input_root@), strings_view(file_path@)) && relative_path(
            strings_view(input_root@),
            strings_view(file_path@),
        ).len() == 0 ==> is_invalid(r, empty_rel_msg()),
        under_root(strings_view(input_root@), strings_view(file_path@)) && relative_path(
            strings_view(input_root@),
            strings_view(file_path@),
        ).len() > 0 ==> r is Ok && opt_view(r->Ok_0) == logical_path_of(
            strings_view(input_root@),
            strings_view(file_path@),
            prefix@,
            excludes@,
        ),
{
    let rel = normalize_rel_path(input_root, file_path)?;
    let logical = prefixed(prefix, rel.as_str());
    if should_exclude(logical.as_str(), excludes) {
        Ok(None)
    } else {
        Ok(Some(logical))
    }
}

} // verus!
