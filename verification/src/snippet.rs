//! Search-result snippets: the text around the first case-insensitive match
//! of the query, with the query marked, or the first lines of the content.
use vstd::prelude::*;
use vstd::string::StringSliceAdditionalSpecFns;
use vstd::utf8::{decode_utf8, encode_utf8, is_char_boundary, valid_utf8};

use crate::text::{chars_of, join_lines, join_with_newlines, lines, split_lines, string_from_chars, trim, trim_chars};

verus! {

broadcast use {
    vstd::string::group_string_axioms,
    vstd::utf8::encode_utf8_valid_utf8,
    vstd::utf8::encode_utf8_decode_utf8,
    vstd::utf8::is_char_boundary_start_end_of_seq,
};

/// What `str::to_lowercase` gives for `s`: each character mapped to its
/// Unicode lowercase form.
pub uninterp spec fn lowercase(s: Seq<char>) -> Seq<char>;

/// `str::to_lowercase`.
#[verifier::external_body]
fn to_lowercase(s: &str) -> (lower: String)
    ensures
        lower@ == lowercase(s@),
{
    s.to_lowercase()
}

/// Whether `needle` occurs in `hay` at position `i`.
pub open spec fn occurs_at<T>(hay: Seq<T>, needle: Seq<T>, i: int) -> bool {
    0 <= i && i + needle.len() <= hay.len() && hay.subrange(i, i + needle.len()) == needle
}

/// The first position at or after `i` where `needle` occurs in `hay`.
pub open spec fn first_occurrence<T>(hay: Seq<T>, needle: Seq<T>, i: int) -> Option<int>
    decreases hay.len() + 1 - i,
{
    if i < 0 || i + needle.len() > hay.len() {
        None
    } else if occurs_at(hay, needle, i) {
        Some(i)
    } else {
        first_occurrence(hay, needle, i + 1)
    }
}

fn occurs_at_u8(hay: &[u8], needle: &[u8], i: usize) -> (r: bool)
    requires
        i + needle@.len() <= hay@.len(),
    ensures
        r == occurs_at(hay@, needle@, i as int),
{
    let n = needle.len();
    let mut j: usize = 0;
    while j < n
        invariant
            n == needle@.len(),
            i + n <= hay.len(),
            j <= n,
            hay@.subrange(i as int, i + j) == needle@.subrange(0, j as int),
        decreases n - j,
    {
        if hay[i + j] != needle[j] {
            proof {
                assert(hay@.subrange(i as int, i + n)[j as int] == hay@[i + j]);
            }
            return false;
        }
        proof {
            assert(hay@.subrange(i as int, i + j + 1) == hay@.subrange(i as int, i + j).push(hay@[i + j]));
            assert(needle@.subrange(0, j + 1) == needle@.subrange(0, j as int).push(needle@[j as int]));
        }
        j += 1;
    }
    proof {
        assert(needle@.subrange(0, n as int) == needle@);
    }
    true
}

/// Where `needle` first occurs in `hay`, if it does.
pub fn find_bytes(hay: &[u8], needle: &[u8]) -> (r: Option<usize>)
    ensures
        r matches Some(i) ==> first_occurrence(hay@, needle@, 0) == Some(i as int),
        r is None ==> first_occurrence(hay@, needle@, 0) is None,
{
    let n = needle.len();
    if n > hay.len() {
        return None;
    }
    if n == 0 {
        proof {
            assert(hay@.subrange(0, 0) == needle@);
        }
        return Some(0);
    }
    let mut i: usize = 0;
    while i <= hay.len() - n
        invariant
            n == needle@.len(),
            0 < n <= hay.len(),
            i <= hay.len() - n + 1,
            first_occurrence(hay@, needle@, 0) == first_occurrence(hay@, needle@, i as int),
        decreases hay.len() - n + 1 - i,
    {
        if occurs_at_u8(hay, needle, i) {
            return Some(i);
        }
        i += 1;
    }
    None
}

proof fn lemma_first_occurrence_char(hay: Seq<char>, needle: Seq<char>, i: int)
    requires
        0 <= i,
    ensures
        first_occurrence(hay, needle, i) matches Some(k) ==> i <= k && occurs_at(hay, needle, k),
    decreases hay.len() + 1 - i,
{
    if i + needle.len() <= hay.len() && !occurs_at(hay, needle, i) {
        lemma_first_occurrence_char(hay, needle, i + 1);
    }
}

fn occurs_at_char(hay: &[char], needle: &[char], i: usize) -> (r: bool)
    requires
        i + needle@.len() <= hay@.len(),
    ensures
        r == occurs_at(hay@, needle@, i as int),
{
    let n = needle.len();
    let mut j: usize = 0;
    while j < n
        invariant
            n == needle@.len(),
            i + n <= hay.len(),
            j <= n,
            hay@.subrange(i as int, i + j) == needle@.subrange(0, j as int),
        decreases n - j,
    {
        if hay[i + j] != needle[j] {
            proof {
                assert(hay@.subrange(i as int, i + n)[j as int] == hay@[i + j]);
            }
            return false;
        }
        proof {
            assert(hay@.subrange(i as int, i + j + 1) == hay@.subrange(i as int, i + j).push(hay@[i + j]));
            assert(needle@.subrange(0, j + 1) == needle@.subrange(0, j as int).push(needle@[j as int]));
        }
        j += 1;
    }
    proof {
        assert(needle@.subrange(0, n as int) == needle@);
    }
    true
}

/// Where `needle` first occurs in `hay`, if it does.
pub fn find_chars(hay: &[char], needle: &[char]) -> (r: Option<usize>)
    ensures
        r matches Some(i) ==> first_occurrence(hay@, needle@, 0) == Some(i as int),
        r is None ==> first_occurrence(hay@, needle@, 0) is None,
{
    let n = needle.len();
    if n > hay.len() {
        return None;
    }
    if n == 0 {
        proof {
            assert(hay@.subrange(0, 0) == needle@);
        }
        return Some(0);
    }
    let mut i: usize = 0;
    while i <= hay.len() - n
        invariant
            n == needle@.len(),
            0 < n <= hay.len(),
            i <= hay.len() - n + 1,
            first_occurrence(hay@, needle@, 0) == first_occurrence(hay@, needle@, i as int),
        decreases hay.len() - n + 1 - i,
    {
        if occurs_at_char(hay, needle, i) {
            return Some(i);
        }
        i += 1;
    }
    None
}

/// The byte range of `content` that a snippet shows: from 40 bytes before
/// the first match of the lowercased query in the lowercased content to 80
/// bytes past the query's length after it, clipped to the content; none if
/// there is no match.
pub open spec fn snippet_window(content: Seq<char>, query: Seq<char>) -> Option<(int, int)> {
    let len = encode_utf8(content).len() as int;
    let qlen = encode_utf8(query).len() as int;
    match first_occurrence(encode_utf8(lowercase(content)), encode_utf8(lowercase(query)), 0) {
        None => None,
        Some(i) => Some(
            (if i >= 40 { i - 40 } else { 0 }, if i + qlen + 80 < len { i + qlen + 80 } else { len }),
        ),
    }
}

/// Locating the snippet window ignores the case of the query: two queries
/// with the same lowercase form and the same length give the same window in
/// any content.
pub proof fn law_snippet_window_ignores_query_case(content: Seq<char>, q1: Seq<char>, q2: Seq<char>)
    requires
        lowercase(q1) == lowercase(q2),
        encode_utf8(q1).len() == encode_utf8(q2).len(),
    ensures
        snippet_window(content, q1) == snippet_window(content, q2),
{
}

/// `s` with the first occurrence of `q` wrapped in square brackets.
pub open spec fn mark_first(s: Seq<char>, q: Seq<char>) -> Seq<char> {
    match first_occurrence(s, q, 0) {
        Some(i) => s.subrange(0, i) + seq!['['] + q + seq![']'] + s.subrange(i + q.len(), s.len() as int),
        None => s,
    }
}

/// The snippet for `content` and `query`: the trimmed text of the window
/// around the first case-insensitive match with the query marked, or the
/// first four lines when there is no match; none where the window does not
/// fall on character boundaries of `content` (the cases where slicing the
/// string would fail).
pub open spec fn snippet_text(content: Seq<char>, query: Seq<char>) -> Option<Seq<char>> {
    match snippet_window(content, query) {
        None => {
            let ls = lines(content);
            Some(join_lines(ls.take(if ls.len() < 4 { ls.len() as int } else { 4 })))
        },
        Some(w) => {
            let bytes = encode_utf8(content);
            if w.0 <= w.1 && is_char_boundary(bytes, w.0) && is_char_boundary(bytes, w.1) {
                Some(mark_first(trim(decode_utf8(bytes.subrange(w.0, w.1))), query))
            } else {
                None
            }
        },
    }
}

/// The snippet a search hit shows for `query` in `content`.
pub fn generate_snippet(content: &str, query: &str) -> (r: Option<String>)
    ensures
        r matches Some(s) ==> snippet_text(content@, query@) == Some(s@),
        r is None ==> snippet_text(content@, query@) is None,
{
    let lowered_content = to_lowercase(content);
    let lowered_query = to_lowercase(query);
    let content_text = lowered_content.as_str();
    let query_text = lowered_query.as_str();
    let found = find_bytes(content_text.as_bytes(), query_text.as_bytes());
    match found {
        None => {
            let chars = chars_of(content);
            let ls = split_lines(&chars);
            let mut first: Vec<Vec<char>> = Vec::new();
            let mut k: usize = 0;
            let ghost lsv = ls@.map_values(|l: Vec<char>| l@);
            while k < ls.len() && k < 4
                invariant
                    k <= ls@.len(),
                    k <= 4,
                    lsv == ls@.map_values(|l: Vec<char>| l@),
                    first@.map_values(|l: Vec<char>| l@) == lsv.take(k as int),
                decreases ls.len() - k,
            {
                let line = crate::text::slice_chars(&ls[k], 0, ls[k].len());
                proof {
                    assert(ls@[k as int]@.subrange(0, ls@[k as int]@.len() as int) == ls@[k as int]@);
                }
                first.push(line);
                proof {
                    assert(lsv[k as int] == ls@[k as int]@);
                    assert(lsv.take(k + 1) == lsv.take(k as int).push(lsv[k as int]));
                    assert(first@.map_values(|l: Vec<char>| l@) =~= lsv.take(k + 1));
                }
                k += 1;
            }
            proof {
                assert(lsv == lines(content@));
                assert(lsv.len() == ls@.len());
                assert(k == (if lsv.len() < 4 { lsv.len() as int } else { 4 }));
                assert(content_text@ == lowercase(content@));
                assert(snippet_window(content@, query@) is None);
            }
            let joined = join_with_newlines(&first);
            Some(string_from_chars(joined.as_slice()))
        },
        Some(index) => {
            let bytes_len = content.as_bytes().len();
            let query_len = query.as_bytes().len();
            let start = if index >= 40 {
                index - 40
            } else {
                0
            };
            let end = if index < bytes_len && query_len < bytes_len - index && 80 < bytes_len - index - query_len {
                index + query_len + 80
            } else {
                bytes_len
            };
            proof {
                assert(content_text@ == lowercase(content@));
                assert(bytes_len == encode_utf8(content@).len());
                assert(query_len == encode_utf8(query@).len());
                assert(snippet_window(content@, query@) == Some((start as int, end as int)));
            }
            if start > end || !content.is_char_boundary(start) || !content.is_char_boundary(end) {
                return None;
            }
            let ghost bytes = content.spec_bytes();
            let (head, _) = content.split_at(end);
            proof {
                let hb = head.spec_bytes();
                assert(hb == bytes.subrange(0, end as int));
                if start < end {
                    vstd::utf8::is_char_boundary_iff_not_is_continuation_byte(bytes, start as int);
                    vstd::utf8::is_char_boundary_iff_not_is_continuation_byte(hb, start as int);
                    assert(hb[start as int] == bytes[start as int]);
                }
            }
            let (_, mid) = head.split_at(start);
            proof {
                assert(mid.spec_bytes() == bytes.subrange(start as int, end as int));
                assert(decode_utf8(encode_utf8(mid@)) == mid@);
            }
            let chars = chars_of(mid);
            let trimmed = trim_chars(&chars);
            let q = chars_of(query);
            match find_chars(trimmed.as_slice(), q.as_slice()) {
                Some(i) => {
                    proof {
                        lemma_first_occurrence_char(trimmed@, q@, 0);
                    }
                    let mut out = crate::text::slice_chars(&trimmed, 0, i);
                    out.push('[');
                    let mut j: usize = 0;
                    let ghost head_part = out@;
                    while j < q.len()
                        invariant
                            j <= q@.len(),
                            out@ == head_part + q@.take(j as int),
                        decreases q.len() - j,
                    {
                        out.push(q[j]);
                        proof {
                            assert(q@.take(j + 1) == q@.take(j as int).push(q@[j as int]));
                        }
                        j += 1;
                    }
                    out.push(']');
                    proof {
                        assert(q@.take(q@.len() as int) == q@);
                        lemma_first_occurrence_char(trimmed@, q@, 0);
                    }
                    let trimmed_len = trimmed.len();
                    let q_len = q.len();
                    assert(i + q_len <= trimmed_len);
                    let tail = crate::text::slice_chars(&trimmed, i + q_len, trimmed_len);
                    let mut k: usize = 0;
                    let ghost before_tail = out@;
                    while k < tail.len()
                        invariant
                            k <= tail@.len(),
                            out@ == before_tail + tail@.take(k as int),
                        decreases tail.len() - k,
                    {
                        out.push(tail[k]);
                        proof {
                            assert(tail@.take(k + 1) == tail@.take(k as int).push(tail@[k as int]));
                        }
                        k += 1;
                    }
                    proof {
                        assert(tail@.take(tail@.len() as int) == tail@);
                    }
                    Some(string_from_chars(out.as_slice()))
                },
                None => Some(string_from_chars(trimmed.as_slice())),
            }
        },
    }
}

} // verus!
