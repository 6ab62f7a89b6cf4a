use vstd::prelude::*;
use crate::path::{slashed};
use crate::builder::{compression_level, level_used};
use crate::text::{append_chars, chars_of, string_of};

verus! {

broadcast use vstd::string::group_string_axioms;

/// Unicode White_Space: the characters that `char::is_whitespace` accepts.
pub open spec fn is_white_space(c: char) -> bool {
    let u = c as u32;
    (0x9 <= u && u <= 0xD) || u == 0x20 || u == 0x85 || u == 0xA0 || u == 0x1680 || (0x2000 <= u
        && u <= 0x200A) || u == 0x2028 || u == 0x2029 || u == 0x202F || u == 0x205F || u == 0x3000
}

/// `s` without its leading whitespace.
pub open spec fn trim_start_ws(s: Seq<char>) -> Seq<char>
    decreases s.len(),
{
    if s.len() > 0 && is_white_space(s[0]) {
        trim_start_ws(s.drop_first())
    } else {
        s
    }
}

/// `s` without its trailing whitespace.
pub open spec fn trim_end_ws(s: Seq<char>) -> Seq<char>
    decreases s.len(),
{
    if s.len() > 0 && is_white_space(s.last()) {
        trim_end_ws(s.drop_last())
    } else {
        s
    }
}

/// `s` without its leading and trailing whitespace.
pub open spec fn trimmed(s: Seq<char>) -> Seq<char> {
    trim_end_ws(trim_start_ws(s))
}

fn white_space(c: char) -> (r: bool)
    ensures
        r == is_white_space(c),
{
    let u = c as u32;
    (0x9 <= u && u <= 0xD) || u == 0x20 || u == 0x85 || u == 0xA0 || u == 0x1680 || (0x2000 <= u
        && u <= 0x200A) || u == 0x2028 || u == 0x2029 || u == 0x202F || u == 0x205F || u == 0x3000
}

/// `s` without its leading and trailing whitespace, as `str::trim` gives it.
pub fn trim_text(s: &str) -> (r: String)
    ensures
        r@ == trimmed(s@),
{
    let cs = chars_of(s);
    let mut i: usize = 0;
    assert(cs@.skip(0) =~= cs@);
    while i < cs.len() && white_space(cs[i])
        invariant
            i <= cs@.len(),
            cs@ == s@,
            trim_start_ws(s@) == trim_start_ws(cs@.skip(i as int)),
        decreases cs@.len() - i,
    {
        assert(cs@.skip(i as int).drop_first() =~= cs@.skip(i + 1));
        i += 1;
    }
    let ghost t = cs@.skip(i as int);
    assert(trim_start_ws(s@) == t);
    let mut j: usize = cs.len();
    assert(t.take(t.len() as int) =~= t);
    while j > i && white_space(cs[j - 1])
        invariant
            i <= j <= cs@.len(),
            t == cs@.skip(i as int),
            trim_end_ws(t) == trim_end_ws(t.take(j - i)),
        decreases j,
    {
        assert(t.take(j - i).drop_last() =~= t.take(j - i - 1));
        assert(t.take(j - i).last() == cs@[j - 1]);
        j -= 1;
    }
    let mut out: Vec<char> = Vec::new();
    let mut k: usize = i;
    while k < j
        invariant
            i <= k <= j,
            j <= cs@.len(),
            out@ == cs@.subrange(i as int, k as int),
        decreases j - k,
    {
        out.push(cs[k]);
        k += 1;
        assert(out@ =~= cs@.subrange(i as int, k as int));
    }
    assert(out@ =~= t.take(j - i));
    if j > i {
        assert(t.take(j - i).last() == cs@[j - 1]);
    }
    string_of(out)
}

/// The extension that a path names, as std's path rules read it.
pub uninterp spec fn extension_of(p: Seq<char>) -> Option<Seq<char>>;

/// Relies on `Path::extension`: the extension of the path's final component,
/// a function of the path text alone under the target's path syntax.
#[verifier::external_body]
pub(crate) fn path_extension(p: &str) -> (r: Option<String>)
    ensures
        r matches Some(e) ==> extension_of(p@) == Some(e@),
        r is None ==> extension_of(p@) is None,
{
    std::path::Path::new(p).extension().and_then(|e| e.to_str()).map(|e| e.to_string())
}

/// A mount prefix as typed: trimmed, backslashes mapped to `/`, a lone `.`
/// meaning none, and a trailing `/` added when non-empty.
pub open spec fn prefix_of(s: Seq<char>) -> Seq<char> {
    let t = slashed(trimmed(s));
    let u = if t == seq!['.'] {
        Seq::empty()
    } else {
        t
    };
    if u.len() > 0 && u.last() != '/' {
        u.push('/')
    } else {
        u
    }
}

/// Normalizes a mount prefix typed by a user.
pub fn normalize_prefix(s: &str) -> (r: String)
    ensures
        r@ == prefix_of(s@),
{
    let t = trim_text(s);
    let tc = chars_of(t.as_str());
    let mut out: Vec<char> = Vec::new();
    let mut i: usize = 0;
    while i < tc.len()
        invariant
            i <= tc@.len(),
            tc@ == t@,
            out@ == slashed(tc@.take(i as int)),
        decreases tc@.len() - i,
    {
        out.push(if tc[i] == '\\' { '/' } else { tc[i] });
        i += 1;
        assert(out@ =~= slashed(tc@.take(i as int)));
    }
    assert(tc@.take(i as int) =~= tc@);
    if out.len() == 1 && out[0] == '.' {
        assert(out@ =~= seq!['.']);
        out = Vec::new();
    } else {
        assert(out@ != seq!['.']);
    }
    if out.len() > 0 && out[out.len() - 1] != '/' {
        out.push('/');
    }
    string_of(out)
}

/// The comma-separated fields of `s`.
pub open spec fn comma_fields(s: Seq<char>) -> Seq<Seq<char>>
    decreases s.len(),
{
    if s.len() == 0 {
        seq![Seq::empty()]
    } else {
        let r = comma_fields(s.drop_last());
        if s.last() == ',' {
            r.push(Seq::empty())
        } else {
            r.update(r.len() - 1, r.last().push(s.last()))
        }
    }
}

/// The trimmed fields of `fields` that are not empty, in order.
pub open spec fn kept_fields(fields: Seq<Seq<char>>) -> Seq<Seq<char>>
    decreases fields.len(),
{
    if fields.len() == 0 {
        Seq::empty()
    } else {
        let r = kept_fields(fields.drop_last());
        if trimmed(fields.last()).len() > 0 {
            r.push(trimmed(fields.last()))
        } else {
            r
        }
    }
}

/// The exclude strings of a comma-separated list.
pub open spec fn csv_items(s: Seq<char>) -> Seq<Seq<char>> {
    kept_fields(comma_fields(s))
}

proof fn lemma_comma_fields_nonempty(s: Seq<char>)
    ensures
        comma_fields(s).len() >= 1,
    decreases s.len(),
{
    if s.len() > 0 {
        lemma_comma_fields_nonempty(s.drop_last());
    }
}

fn keep_field(out: &mut Vec<String>, field: Vec<char>)
    ensures
        trimmed(field@).len() > 0 ==> final(out)@.len() == old(out)@.len() + 1 && final(out)@.drop_last() == old(out)@ && final(out)@.last()@ == trimmed(field@),
        trimmed(field@).len() == 0 ==> final(out)@ == old(out)@,
{
    let f = string_of(field);
    let t = trim_text(f.as_str());
    if t.as_str().unicode_len() > 0 {
        out.push(t);
        assert(final(out)@.drop_last() =~= old(out)@);
    }
}

/// Splits a comma-separated list into its trimmed, non-empty items.
pub fn split_excludes(s: &str) -> (r: Vec<String>)
    ensures
        r@.map_values(|x: String| x@) == csv_items(s@),
{
    let cs = chars_of(s);
    let mut out: Vec<String> = Vec::new();
    let mut field: Vec<char> = Vec::new();
    let mut i: usize = 0;
    proof {
        assert(cs@.take(0) =~= Seq::<char>::empty());
    }
    while i < cs.len()
        invariant
            i <= cs@.len(),
            cs@ == s@,
            comma_fields(cs@.take(i as int)).len() >= 1,
            comma_fields(cs@.take(i as int)).last() == field@,
            out@.map_values(|x: String| x@) == kept_fields(comma_fields(cs@.take(i as int)).drop_last()),
        decreases cs@.len() - i,
    {
        let c = cs[i];
        let ghost t = cs@.take(i + 1);
        proof {
            assert(t.drop_last() =~= cs@.take(i as int));
            assert(t.last() == c);
            lemma_comma_fields_nonempty(t.drop_last());
        }
        if c == ',' {
            let done = field;
            field = Vec::new();
            let ghost before = out@.map_values(|x: String| x@);
            keep_field(&mut out, done);
            proof {
                let r = comma_fields(t.drop_last());
                assert(comma_fields(t) == r.push(Seq::empty()));
                assert(comma_fields(t).drop_last() =~= r);
                assert(r =~= r.drop_last().push(r.last()));
                assert(out@.map_values(|x: String| x@) =~= kept_fields(r));
            }
        } else {
            field.push(c);
            proof {
                let r = comma_fields(t.drop_last());
                assert(comma_fields(t).drop_last() =~= r.drop_last());
                assert(comma_fields(t).last() =~= field@);
            }
        }
        i += 1;
    }
    proof {
        assert(cs@.take(i as int) =~= cs@);
    }
    let ghost r = comma_fields(cs@);
    keep_field(&mut out, field);
    proof {
        assert(r =~= r.drop_last().push(r.last()));
        assert(out@.map_values(|x: String| x@) =~= kept_fields(r));
    }
    out
}

/// A path with the `.pak` extension ensured: kept when its extension is
/// already `pak`, else `pak` appended after a dot.
pub open spec fn pak_path_of(p: Seq<char>) -> Seq<char> {
    if extension_of(p) == Some("pak"@) {
        p
    } else {
        let u = if p.len() > 0 && p.last() == '.' {
            p
        } else {
            p.push('.')
        };
        u + "pak"@
    }
}

/// An output path typed in a form: trimmed, empty when blank, else with the
/// `.pak` extension ensured.
pub open spec fn with_pak_ext(p: Seq<char>) -> Seq<char> {
    let t = trimmed(p);
    if t.len() == 0 {
        Seq::empty()
    } else {
        pak_path_of(t)
    }
}

/// `p` with the `.pak` extension ensured.
pub fn ensure_pak_ext(p: &str) -> (r: String)
    ensures
        r@ == pak_path_of(p@),
{
    let ext = path_extension(p);
    let is_pak = match ext {
        Some(e) => e == String::from_str("pak"),
        None => false,
    };
    if is_pak {
        return String::from_str(p);
    }
    let mut out = chars_of(p);
    if out.len() == 0 || out[out.len() - 1] != '.' {
        out.push('.');
    }
    append_chars(&mut out, "pak");
    string_of(out)
}

/// The fields of a build request as a user typed them.
#[derive(Debug, Clone, Default)]
pub struct BuildForm {
    pub input_dir: String,
    pub output_pak: String,
    pub prefix: String,
    pub excludes_csv: String,
    pub compress: bool,
    pub zstd_level: i32,
}

/// Message when the input directory field is blank.
pub open spec fn no_input_msg() -> Seq<char> {
    "Input directory is empty"@
}

/// Message when the input directory is not a directory.
pub open spec fn not_dir_msg() -> Seq<char> {
    "Input directory does not exist or is not a directory"@
}

/// Message when the output field is blank.
pub open spec fn no_output_msg() -> Seq<char> {
    "Output .pak path is empty"@
}

/// The arguments of a build: input, output, prefix, excludes, compress, level.
pub type BuildArgs = (String, String, String, Vec<String>, bool, i32);

/// Whether `r` is the error `msg`.
pub open spec fn fails_with(r: Result<BuildArgs, String>, msg: Seq<char>) -> bool {
    r matches Err(m) && m@ == msg
}

impl BuildForm {
    /// The mount prefix, normalized.
    pub fn normalized_prefix(&self) -> (r: String)
        ensures
            r@ == prefix_of(self.prefix@),
    {
        normalize_prefix(self.prefix.as_str())
    }

    /// The exclude strings of the comma-separated field.
    pub fn excludes(&self) -> (r: Vec<String>)
        ensures
            r@.map_values(|x: String| x@) == csv_items(self.excludes_csv@),
    {
        split_excludes(self.excludes_csv.as_str())
    }

    /// `p` trimmed, with a `.pak` extension unless it already has one; empty
    /// when `p` is blank.
    pub fn ensure_pak_ext(p: &str) -> (r: String)
        ensures
            r@ == with_pak_ext(p@),
    {
        let t = trim_text(p);
        if t.as_str().unicode_len() == 0 {
            return String::new();
        }
        ensure_pak_ext(t.as_str())
    }

    /// Checks the form and turns it into build arguments. `input_is_dir`
    /// tells whether the trimmed input path names an existing directory.
    pub fn to_args(&self, input_is_dir: bool) -> (r: Result<BuildArgs, String>)
        ensures
            trimmed(self.input_dir@).len() == 0 ==> fails_with(r, no_input_msg()),
            trimmed(self.input_dir@).len() > 0 && !input_is_dir ==> fails_with(r, not_dir_msg()),
            trimmed(self.input_dir@).len() > 0 && input_is_dir && with_pak_ext(self.output_pak@).len()
                == 0 ==> fails_with(r, no_output_msg()),
            trimmed(self.input_dir@).len() > 0 && input_is_dir && with_pak_ext(self.output_pak@).len()
                > 0 ==> (r matches Ok(a) && {
                &&& a.0@ == trimmed(self.input_dir@)
                &&& a.1@ == with_pak_ext(self.output_pak@)
                &&& a.2@ == prefix_of(self.prefix@)
                &&& a.3@.map_values(|x: String| x@) == csv_items(self.excludes_csv@)
                &&& a.4 == self.compress
                &&& a.5 == if self.compress {
                    level_used(self.zstd_level)
                } else {
                    0
                }
            }),
    {
        let input = trim_text(self.input_dir.as_str());
        if input.as_str().unicode_len() == 0 {
            return Err(String::from_str("Input directory is empty"));
        }
        if !input_is_dir {
            return Err(String::from_str("Input directory does not exist or is not a directory"));
        }
        let output = Self::ensure_pak_ext(self.output_pak.as_str());
        if output.as_str().unicode_len() == 0 {
            return Err(String::from_str("Output .pak path is empty"));
        }
        let prefix = self.normalized_prefix();
        let excludes = self.excludes();
        let level: i32 = if self.compress {
            compression_level(self.zstd_level)
        } else {
            0
        };
        Ok((input, output, prefix, excludes, self.compress, level))
    }
}

/// Checks the output path typed in the wizard: it must not be blank.
pub fn validate_output(p: &str) -> (r: Result<(), String>)
    ensures
        trimmed(p@).len() == 0 <==> r is Err,
        r matches Err(m) ==> m@ == "Output path is empty"@,
{
    let t = trim_text(p);
    if t.as_str().unicode_len() == 0 {
        Err(String::from_str("Output path is empty"))
    } else {
        Ok(())
    }
}

} // verus!
