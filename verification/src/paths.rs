//! Paths held as UTF-8 strings, with `std::path` doing the component work.
//!
//! `Path::file_name`, `Path::parent` and `Path::join` parse components by
//! rules that `std` documents only in outline, so their results carry names;
//! what the documentation states outright (an absolute path replaces the base
//! in a join; how an extension and a stem follow from the file name) is
//! stated and computed here.
use vstd::prelude::*;

use vstd::string::StrSliceExecFns;

use crate::text::string_from_chars;

verus! {

/// What `Path::file_name` gives for the path `p`: its final component,
/// unless that is `..`, a root, or missing.
pub uninterp spec fn path_file_name(p: Seq<char>) -> Option<Seq<char>>;

/// What `Path::parent` gives for the path `p`: the path without its final
/// component, or nothing for a root or the empty path.
pub uninterp spec fn path_parent(p: Seq<char>) -> Option<Seq<char>>;

/// What `Path::join` gives when `rel` is joined onto `base`.
pub uninterp spec fn path_join(base: Seq<char>, rel: Seq<char>) -> Seq<char>;

/// `Path::file_name` on a UTF-8 path; the name of a UTF-8 path is UTF-8.
#[verifier::external_body]
pub(crate) fn file_name(p: &str) -> (name: Option<String>)
    ensures
        name matches Some(n) ==> path_file_name(p@) == Some(n@),
        name is None ==> path_file_name(p@) is None,
{
    std::path::Path::new(p).file_name().map(|n| n.to_string_lossy().into_owned())
}

/// `Path::parent` on a UTF-8 path.
#[verifier::external_body]
pub(crate) fn parent(p: &str) -> (dir: Option<String>)
    ensures
        dir matches Some(d) ==> path_parent(p@) == Some(d@),
        dir is None ==> path_parent(p@) is None,
{
    std::path::Path::new(p).parent().map(|d| d.to_string_lossy().into_owned())
}

/// `Path::join`: `rel` appended to `base` with a separator where one is
/// needed; an absolute `rel` (one that starts with `/`) replaces `base`.
#[verifier::external_body]
pub(crate) fn join(base: &str, rel: &str) -> (joined: String)
    ensures
        joined@ == path_join(base@, rel@),
        rel@.len() > 0 && rel@[0] == '/' ==> joined@ == rel@,
{
    std::path::Path::new(base).join(rel).to_string_lossy().into_owned()
}

/// Whether `p` is absolute: on Unix, whether it starts with the root `/`.
pub open spec fn is_absolute(p: Seq<char>) -> bool {
    p.len() > 0 && p[0] == '/'
}

/// The index of the last `'.'` in `name[..end]`, or -1.
pub open spec fn last_dot(name: Seq<char>, end: int) -> int
    decreases end,
{
    if end <= 0 || end > name.len() {
        -1
    } else if name[end - 1] == '.' {
        end - 1
    } else {
        last_dot(name, end - 1)
    }
}

/// The extension of a file name, as `Path::extension` documents it: none if
/// the name has no `.`, or only a leading one; otherwise what follows the
/// final `.`.
pub open spec fn name_extension(name: Seq<char>) -> Option<Seq<char>> {
    let d = last_dot(name, name.len() as int);
    if d <= 0 {
        None
    } else {
        Some(name.subrange(d + 1, name.len() as int))
    }
}

/// The stem of a file name, as `Path::file_stem` documents it: the whole
/// name if it has no `.`, or only a leading one; otherwise what precedes the
/// final `.`.
pub open spec fn name_stem(name: Seq<char>) -> Seq<char> {
    let d = last_dot(name, name.len() as int);
    if d <= 0 {
        name
    } else {
        name.subrange(0, d)
    }
}

/// `Path::extension` of the path `p`.
pub open spec fn path_extension(p: Seq<char>) -> Option<Seq<char>> {
    match path_file_name(p) {
        Some(name) => name_extension(name),
        None => None,
    }
}

/// `Path::file_stem` of the path `p`.
pub open spec fn path_stem(p: Seq<char>) -> Option<Seq<char>> {
    match path_file_name(p) {
        Some(name) => Some(name_stem(name)),
        None => None,
    }
}

proof fn lemma_last_dot_bounds(name: Seq<char>, end: int)
    requires
        0 <= end <= name.len(),
    ensures
        -1 <= last_dot(name, end) < end,
        last_dot(name, end) >= 0 ==> name[last_dot(name, end)] == '.',
    decreases end,
{
    if end > 0 && name[end - 1] != '.' {
        lemma_last_dot_bounds(name, end - 1);
    }
}

/// Where the last `'.'` of `name` is, if any.
fn find_last_dot(name: &Vec<char>) -> (d: Option<usize>)
    ensures
        d matches Some(i) ==> i == last_dot(name@, name@.len() as int) && i < name@.len(),
        d is None ==> last_dot(name@, name@.len() as int) == -1,
{
    let mut end = name.len();
    proof {
        lemma_last_dot_bounds(name@, name@.len() as int);
    }
    while end > 0
        invariant
            end <= name@.len(),
            last_dot(name@, name@.len() as int) == last_dot(name@, end as int),
        decreases end,
    {
        if name[end - 1] == '.' {
            return Some(end - 1);
        }
        end -= 1;
    }
    None
}

/// The extension of a file name.
pub fn extension_of_name(name: &Vec<char>) -> (ext: Option<Vec<char>>)
    ensures
        ext matches Some(e) ==> name_extension(name@) == Some(e@),
        ext is None ==> name_extension(name@) is None,
{
    let n = name.len();
    match find_last_dot(name) {
        Some(d) => {
            assert(d < n);
            if d == 0 {
                None
            } else {
                Some(crate::text::slice_chars(name, d + 1, name.len()))
            }
        },
        None => None,
    }
}

/// The stem of a file name.
pub fn stem_of_name(name: &Vec<char>) -> (stem: Vec<char>)
    ensures
        stem@ == name_stem(name@),
{
    match find_last_dot(name) {
        Some(d) => {
            if d == 0 {
                crate::text::slice_chars(name, 0, name.len())
            } else {
                crate::text::slice_chars(name, 0, d)
            }
        },
        None => {
            proof {
                assert(name@.subrange(0, name@.len() as int) == name@);
            }
            crate::text::slice_chars(name, 0, name.len())
        },
    }
}

/// The extension of the path `p`.
pub fn extension(p: &str) -> (ext: Option<String>)
    ensures
        ext matches Some(e) ==> path_extension(p@) == Some(e@),
        ext is None ==> path_extension(p@) is None,
{
    match file_name(p) {
        Some(name) => {
            let chars = crate::text::chars_of(name.as_str());
            match extension_of_name(&chars) {
                Some(e) => Some(string_from_chars(e.as_slice())),
                None => None,
            }
        },
        None => None,
    }
}

/// The stem of the path `p`.
pub fn file_stem(p: &str) -> (stem: Option<String>)
    ensures
        stem matches Some(s) ==> path_stem(p@) == Some(s@),
        stem is None ==> path_stem(p@) is None,
{
    match file_name(p) {
        Some(name) => {
            let chars = crate::text::chars_of(name.as_str());
            let s = stem_of_name(&chars);
            Some(string_from_chars(s.as_slice()))
        },
        None => None,
    }
}

/// `p` made absolute against the working directory `cwd`, as a relative
/// path joined onto it; `None` where `p` is relative and there is no
/// working directory to join it to.
pub open spec fn absolutized(p: Seq<char>, cwd: Option<Seq<char>>) -> Option<Seq<char>> {
    if is_absolute(p) {
        Some(p)
    } else {
        match cwd {
            Some(dir) => Some(path_join(dir, p)),
            None => None,
        }
    }
}

/// An absolute path is kept; a relative one is joined onto `cwd`.
pub fn absolutize(p: &str, cwd: Option<&str>) -> (r: Option<String>)
    ensures
        r matches Some(s) ==> absolutized(p@, match cwd {
            Some(d) => Some(d@),
            None => None,
        }) == Some(s@),
        r is None ==> absolutized(p@, match cwd {
            Some(d) => Some(d@),
            None => None,
        }) is None,
{
    let absolute = !p.is_empty() && p.get_char(0) == '/';
    if absolute {
        Some(p.to_string())
    } else {
        match cwd {
            Some(dir) => Some(join(dir, p)),
            None => None,
        }
    }
}

} // verus!
