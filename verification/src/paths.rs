//! File-name rules of the gzip front end and of the converter: the default
//! output of a compression or a decompression, the checks before an output
//! is written, and the temporary file of an in-place rewrite.
//!
//! Paths are handled as their text. How `std::path` splits a path into its
//! components is not restated here: each path operation that the rules use
//! is one call into `std::path`, and its result is named by a spec function.

use vstd::prelude::*;
use crate::text::{strip_suffix, concat_str, without_suffix, has_suffix};

verus! {

/// What `Path::file_name` gives, as text, for the path whose text is `path`.
pub uninterp spec fn path_file_name(path: Seq<char>) -> Option<Seq<char>>;

/// The text of the path that `PathBuf::set_file_name` makes of the path
/// `path` and the file name `name`.
pub uninterp spec fn path_with_file_name(path: Seq<char>, name: Seq<char>) -> Seq<char>;

/// What `Path::parent` gives, as text, for the path whose text is `path`.
pub uninterp spec fn path_parent(path: Seq<char>) -> Option<Seq<char>>;

/// Whether `Path`'s `==` holds between the paths whose texts are `a` and `b`.
pub uninterp spec fn path_eq(a: Seq<char>, b: Seq<char>) -> bool;

/// The text of the path that `Path::with_extension` makes of the path
/// `path` and the extension `ext`.
pub uninterp spec fn path_with_extension(path: Seq<char>, ext: Seq<char>) -> Seq<char>;

/// Calls `Path::file_name` on `path` and gives the file name back as text.
/// The contract claims only that the result is the one the name
/// [`path_file_name`] stands for: what `std::path` takes a file name to be
/// is not restated.
#[verifier::external_body]
fn file_name_of(path: &str) -> (r: Option<String>)
    ensures
        match r {
            Some(s) => path_file_name(path@) == Some(s@),
            None => path_file_name(path@) is None,
        },
{
    match std::path::Path::new(path).file_name() {
        Some(n) => match n.to_str() {
            Some(s) => Some(s.to_string()),
            None => None,
        },
        None => None,
    }
}

/// Calls `PathBuf::set_file_name` on the path `path` with the file name
/// `name`, and gives the new path back as text. The contract claims only
/// that the result is the one the name [`path_with_file_name`] stands for.
#[verifier::external_body]
fn with_file_name(path: &str, name: &str) -> (r: String)
    ensures
        r@ == path_with_file_name(path@, name@),
{
    let mut p = std::path::Path::new(path).to_path_buf();
    p.set_file_name(name);
    p.to_string_lossy().into_owned()
}

/// Calls `Path::parent` on `path` and gives the parent back as text. The
/// contract claims only that the result is the one the name [`path_parent`]
/// stands for.
#[verifier::external_body]
fn parent_of(path: &str) -> (r: Option<String>)
    ensures
        match r {
            Some(s) => path_parent(path@) == Some(s@),
            None => path_parent(path@) is None,
        },
{
    match std::path::Path::new(path).parent() {
        Some(p) => Some(p.to_string_lossy().into_owned()),
        None => None,
    }
}

/// Compares the paths `a` and `b` with `Path`'s `==`. The contract claims
/// only that the result is the one the name [`path_eq`] stands for: how
/// paths are compared component by component is not restated.
#[verifier::external_body]
fn paths_equal(a: &str, b: &str) -> (r: bool)
    ensures
        r == path_eq(a@, b@),
{
    std::path::Path::new(a) == std::path::Path::new(b)
}

/// Calls `Path::with_extension` on `path` with the extension `ext`, and
/// gives the new path back as text. The contract claims only that the
/// result is the one the name [`path_with_extension`] stands for. The
/// extension may hold no path separator (`/`, nor `\\` on Windows), since
/// std panics on one.
#[verifier::external_body]
fn with_extension(path: &str, ext: &str) -> (r: String)
    requires
        !ext@.contains('/'),
        !ext@.contains('\\'),
    ensures
        r@ == path_with_extension(path@, ext@),
{
    std::path::Path::new(path).with_extension(ext).to_string_lossy().into_owned()
}

/// The file name of a compressed output: the input's file name, or the
/// whole input path when it has none, followed by `.gz`.
pub open spec fn compressed_name(file_name: Option<Seq<char>>, input: Seq<char>) -> Seq<char> {
    match file_name {
        Some(s) => s + ".gz"@,
        None => input + ".gz"@,
    }
}

/// The file name of a decompressed output: the input's file name without
/// its `.gz` suffix; with `.out` appended when it has no such suffix; the
/// whole input path followed by `.out` when there is no file name.
pub open spec fn decompressed_name(file_name: Option<Seq<char>>, input: Seq<char>) -> Seq<char> {
    match file_name {
        Some(s) => match without_suffix(s, ".gz"@) {
            Some(p) => p,
            None => s + ".out"@,
        },
        None => input + ".out"@,
    }
}

/// The file name for the compressed output of `input`, given the input's
/// file name as `Path::file_name` finds it.
pub fn compressed_file_name(file_name: Option<&str>, input: &str) -> (r: String)
    ensures
        r@ == compressed_name(
            match file_name {
                Some(s) => Some(s@),
                None => None,
            },
            input@,
        ),
{
    match file_name {
        Some(s) => concat_str(s, ".gz"),
        None => concat_str(input, ".gz"),
    }
}

/// The file name for the decompressed output of `input`, given the input's
/// file name as `Path::file_name` finds it.
pub fn decompressed_file_name(file_name: Option<&str>, input: &str) -> (r: String)
    ensures
        r@ == decompressed_name(
            match file_name {
                Some(s) => Some(s@),
                None => None,
            },
            input@,
        ),
{
    match file_name {
        Some(s) => match strip_suffix(s, ".gz") {
            Some(p) => p.to_owned(),
            None => concat_str(s, ".out"),
        },
        None => concat_str(input, ".out"),
    }
}

/// The default output path for compressing `input`: `<input>.gz`.
pub fn default_output_for_compress(input: &str) -> (r: String)
    ensures
        r@ == path_with_file_name(input@, compressed_name(path_file_name(input@), input@)),
{
    let name = file_name_of(input);
    let new_name = match &name {
        Some(s) => compressed_file_name(Some(s.as_str()), input),
        None => compressed_file_name(None, input),
    };
    with_file_name(input, new_name.as_str())
}

/// The default output path for decompressing `input`: the `.gz` suffix
/// removed, or `.out` appended.
pub fn default_output_for_decompress(input: &str) -> (r: String)
    ensures
        r@ == path_with_file_name(input@, decompressed_name(path_file_name(input@), input@)),
{
    let name = file_name_of(input);
    let new_name = match &name {
        Some(s) => decompressed_file_name(Some(s.as_str()), input),
        None => decompressed_file_name(None, input),
    };
    with_file_name(input, new_name.as_str())
}

/// Removing `.gz` from a name that `.gz` was appended to gives the name
/// back: the decompressed output of a compressed output has the original
/// file name.
pub proof fn lemma_decompressed_name_undoes_compressed_name(name: Seq<char>, a: Seq<char>, b: Seq<char>)
    ensures
        decompressed_name(Some(compressed_name(Some(name), a)), b) == name,
{
    let c = name + ".gz"@;
    assert(c.subrange(c.len() - ".gz"@.len(), c.len() as int) =~= ".gz"@);
    assert(has_suffix(c, ".gz"@));
    assert(c.subrange(0, c.len() - ".gz"@.len()) =~= name);
}

/// The compressed output is named `<name>.gz`: the input's file name, or
/// the whole input when it has none, followed by the three characters
/// `.gz`. It is therefore never the input's own name.
pub proof fn lemma_compressed_name_appends_gz(name: Seq<char>, input: Seq<char>)
    ensures
        compressed_name(Some(name), input) == name + ".gz"@,
        compressed_name(None, input) == input + ".gz"@,
        compressed_name(Some(name), input).len() == name.len() + 3,
        compressed_name(Some(name), input).subrange(0, name.len() as int) == name,
        compressed_name(Some(name), input) != name,
{
    reveal_strlit(".gz");
    let c = name + ".gz"@;
    assert(c.subrange(0, name.len() as int) =~= name);
    assert(c.len() != name.len());
}

/// The decompressed output drops a final `.gz` from the input's file name;
/// a file name that does not end in `.gz` gets `.out` appended, as does the
/// whole input when it has no file name.
pub proof fn lemma_decompressed_name_rules(name: Seq<char>, input: Seq<char>)
    ensures
        decompressed_name(Some(name + ".gz"@), input) == name,
        (name.len() < 3 || name.subrange(name.len() - 3, name.len() as int) != ".gz"@)
            ==> decompressed_name(Some(name), input) == name + ".out"@,
        decompressed_name(None, input) == input + ".out"@,
{
    reveal_strlit(".gz");
    lemma_decompressed_name_undoes_compressed_name(name, input, input);
    assert(compressed_name(Some(name), input) == name + ".gz"@);
}

/// What must happen before an output file is written.
pub enum WritePlan {
    /// The output exists and overwriting was not asked for.
    Refuse,
    /// The output's parent directory is to be created first.
    CreateParent(String),
    /// Nothing is to be done.
    Ready,
}

/// What to do before writing an output, given the output's parent as
/// `Path::parent` finds it, whether the output exists, and whether
/// overwriting was asked for.
pub fn plan_for_parent(parent: Option<&str>, exists: bool, force: bool) -> (r: WritePlan)
    ensures
        exists && !force ==> r is Refuse,
        !(exists && !force) ==> match parent {
            Some(p) => if p@.len() > 0 {
                r matches WritePlan::CreateParent(d) && d@ == p@
            } else {
                r is Ready
            },
            None => r is Ready,
        },
{
    if exists && !force {
        return WritePlan::Refuse;
    }
    match parent {
        Some(p) => {
            if p.unicode_len() > 0 {
                WritePlan::CreateParent(p.to_owned())
            } else {
                WritePlan::Ready
            }
        },
        None => WritePlan::Ready,
    }
}

/// Decides what to do before writing `output`, given whether it exists and
/// whether overwriting was asked for.
pub fn writable_plan(output: &str, exists: bool, force: bool) -> (r: WritePlan)
    ensures
        exists && !force ==> r is Refuse,
        !(exists && !force) ==> match path_parent(output@) {
            Some(p) => if p.len() > 0 {
                r matches WritePlan::CreateParent(d) && d@ == p
            } else {
                r is Ready
            },
            None => r is Ready,
        },
{
    let parent = parent_of(output);
    match &parent {
        Some(p) => plan_for_parent(Some(p.as_str()), exists, force),
        None => plan_for_parent(None, exists, force),
    }
}

/// Whether two paths name the same file, given their canonical forms where
/// these could be found: the canonical forms are compared when both were
/// found, the paths as given otherwise.
pub fn same_path_resolved(
    canonical_a: Option<&str>,
    canonical_b: Option<&str>,
    a: &str,
    b: &str,
) -> (r: bool)
    ensures
        r == match (canonical_a, canonical_b) {
            (Some(x), Some(y)) => path_eq(x@, y@),
            _ => path_eq(a@, b@),
        },
{
    match (canonical_a, canonical_b) {
        (Some(x), Some(y)) => paths_equal(x, y),
        _ => paths_equal(a, b),
    }
}

/// Picks the temporary file of an in-place rewrite of `path` from two
/// candidates: `with_tmp` unless it is `path` itself, else `appended` unless
/// that is `path` itself too, else none.
pub fn pick_temp_path(
    with_tmp: String,
    with_tmp_is_path: bool,
    appended: String,
    appended_is_path: bool,
) -> (r: Option<String>)
    ensures
        !with_tmp_is_path ==> r == Some(with_tmp),
        with_tmp_is_path && !appended_is_path ==> r == Some(appended),
        with_tmp_is_path && appended_is_path ==> r is None,
{
    if !with_tmp_is_path {
        Some(with_tmp)
    } else if !appended_is_path {
        Some(appended)
    } else {
        None
    }
}

/// The temporary file that an in-place rewrite of `path` goes through:
/// `path` with the extension `tmp`, or, when that is `path` itself (as for
/// `x.tmp`), `path` followed by `.tmp`. Never a path equal to `path`: none
/// when both candidates are.
pub fn temp_path_for(path: &str) -> (r: Option<String>)
    ensures
        r matches Some(t) ==> !path_eq(t@, path@),
        !path_eq(path_with_extension(path@, "tmp"@), path@) ==> (r matches Some(t) && t@
            == path_with_extension(path@, "tmp"@)),
        path_eq(path_with_extension(path@, "tmp"@), path@) && !path_eq(path@ + ".tmp"@, path@)
            ==> (r matches Some(t) && t@ == path@ + ".tmp"@),
        path_eq(path_with_extension(path@, "tmp"@), path@) && path_eq(path@ + ".tmp"@, path@)
            ==> r is None,
{
    proof {
        reveal_strlit("tmp");
    }
    let with_tmp = with_extension(path, "tmp");
    let with_tmp_is_path = paths_equal(with_tmp.as_str(), path);
    let appended = concat_str(path, ".tmp");
    let appended_is_path = paths_equal(appended.as_str(), path);
    pick_temp_path(with_tmp, with_tmp_is_path, appended, appended_is_path)
}

} // verus!
