//! What the index stores about a file, and how a file becomes index
//! records: classification, titles, content-addressed ids, heading-aware
//! chunking of documents, references with line suffixes, line slicing,
//! snippets and related-file ranking.
use vstd::prelude::*;

use crate::paths::{extension, file_name, path_extension, path_file_name, path_parent, path_join, path_stem};
use crate::text::{
    chars_of, decimal, decimal_chars, has_prefix, join_lines, join_with_newlines, lines, skip_leading,
    skip_leading_ws, slice_chars, split_lines, starts_with, string_from_chars, trim, trim_chars,
    trim_start, trim_start_char,
};

verus! {

// ---------------------------------------------------------------------------
// Records

/// A file as the index stores it and gives it back.
pub struct IndexedFile {
    pub docid: String,
    pub collection: String,
    pub path: String,
    pub virtual_path: String,
    pub kind: String,
    pub title: String,
    pub language: Option<String>,
    pub context: Option<String>,
    pub content: String,
    pub line_start: usize,
    pub line_end: usize,
}

/// A symbol definition or reference found by a symbol search.
pub struct SymbolHit {
    pub name: String,
    pub kind: String,
    pub match_type: String,
    pub file: String,
    pub collection: String,
    pub line_start: usize,
    pub line_end: usize,
    pub language: Option<String>,
}

/// A file related to another through the symbols they share.
pub struct RelatedHit {
    pub file: String,
    pub collection: String,
    pub score: usize,
    pub shared_symbols: Vec<String>,
}

/// What the index holds.
pub struct Status {
    pub indexed_files: usize,
    pub indexed_docs: usize,
    pub indexed_code: usize,
    pub collections: usize,
    pub has_vector_index: bool,
    pub vector_runtime: String,
}

/// Restricts a search to documents or to code.
#[derive(Debug, Clone, Copy, PartialEq, Eq, Structural)]
pub enum SearchKind {
    Doc,
    Code,
}

/// How a lexical search is run.
#[derive(Debug, Clone, Copy, PartialEq, Eq, Structural)]
pub struct SearchOptions {
    pub kind: Option<SearchKind>,
    pub include_full_content: bool,
}

/// Whether a symbol search looks for definitions or references.
#[derive(Debug, Clone, Copy, PartialEq, Eq, Structural)]
pub enum SymbolMode {
    Definitions,
    References,
}

/// Which lines of a file to show: from line `start` (1-based), at most
/// `max_lines` of them, optionally numbered.
#[derive(Debug, Clone, Copy, PartialEq, Eq, Structural)]
pub struct LineSlice {
    pub start: usize,
    pub max_lines: Option<usize>,
    pub line_numbers: bool,
}

/// A section of a file as the lexical index stores it.
pub struct ChunkRecord {
    pub chunk_docid: String,
    pub title: String,
    pub content: String,
    pub line_start: usize,
    pub line_end: usize,
}

/// The mathematical value of a chunk.
pub struct ChunkView {
    pub chunk_docid: Seq<char>,
    pub title: Seq<char>,
    pub content: Seq<char>,
    pub line_start: nat,
    pub line_end: nat,
}

impl View for ChunkRecord {
    type V = ChunkView;

    open spec fn view(&self) -> ChunkView {
        ChunkView {
            chunk_docid: self.chunk_docid@,
            title: self.title@,
            content: self.content@,
            line_start: self.line_start as nat,
            line_end: self.line_end as nat,
        }
    }
}

/// The status of an index holding these counts: lexical search is ready,
/// vector search is not built yet.
pub fn status_report(indexed_files: usize, indexed_docs: usize, indexed_code: usize, collections: usize) -> (s: Status)
    ensures
        s.indexed_files == indexed_files,
        s.indexed_docs == indexed_docs,
        s.indexed_code == indexed_code,
        s.collections == collections,
        !s.has_vector_index,
        s.vector_runtime@ == "pending"@,
{
    Status {
        indexed_files,
        indexed_docs,
        indexed_code,
        collections,
        has_vector_index: false,
        vector_runtime: "pending".to_string(),
    }
}

// ---------------------------------------------------------------------------
// Classification and titles

/// Documents are Markdown, MDX, plain text and reStructuredText files.
pub open spec fn is_doc_extension(ext: Option<Seq<char>>) -> bool {
    match ext {
        Some(e) => e == "md"@ || e == "mdx"@ || e == "txt"@ || e == "rst"@,
        None => false,
    }
}

/// `"doc"` for a document, `"code"` for anything else.
pub open spec fn kind_of(path: Seq<char>) -> Seq<char> {
    if is_doc_extension(path_extension(path)) {
        "doc"@
    } else {
        "code"@
    }
}

fn str_eq(a: &str, b: &str) -> (r: bool)
    ensures
        r == (a@ == b@),
{
    let x = chars_of(a);
    let y = chars_of(b);
    if x.len() != y.len() {
        return false;
    }
    let r = starts_with(&x, &y);
    proof {
        assert(x@.subrange(0, y@.len() as int) == x@);
    }
    r
}

/// Classifies the file at `path` by its extension.
pub fn classify_kind(path: &str) -> (kind: &'static str)
    ensures
        kind@ == kind_of(path@),
{
    let doc = match extension(path) {
        Some(e) => str_eq(e.as_str(), "md") || str_eq(e.as_str(), "mdx") || str_eq(e.as_str(), "txt")
            || str_eq(e.as_str(), "rst"),
        None => false,
    };
    if doc {
        "doc"
    } else {
        "code"
    }
}

/// The index of the first line of `ls` that starts with `'#'`, or `ls.len()`.
pub open spec fn first_heading(ls: Seq<Seq<char>>, i: int) -> int
    decreases ls.len() - i,
{
    if i < 0 || i >= ls.len() {
        ls.len() as int
    } else if ls[i].len() > 0 && ls[i][0] == '#' {
        i
    } else {
        first_heading(ls, i + 1)
    }
}

/// The text of a heading line: without its leading `#`s and surrounding
/// whitespace.
pub open spec fn heading_text(line: Seq<char>) -> Seq<char> {
    trim(trim_start_char(line, '#'))
}

/// The title of a file: for a document, the text of its first heading line
/// when that text is not empty; otherwise the file name, or `"untitled"`.
pub open spec fn title_of(path: Seq<char>, content: Seq<char>) -> Seq<char> {
    let ls = lines(content);
    let h = first_heading(ls, 0);
    if kind_of(path) == "doc"@ && h < ls.len() && heading_text(ls[h]).len() > 0 {
        heading_text(ls[h])
    } else {
        match path_file_name(path) {
            Some(n) => n,
            None => "untitled"@,
        }
    }
}

/// The text of a heading line.
fn heading_of(line: &Vec<char>) -> (h: Vec<char>)
    ensures
        h@ == heading_text(line@),
{
    let n = skip_leading(line, '#');
    let rest = slice_chars(line, n, line.len());
    trim_chars(&rest)
}

/// The index of the first heading line.
fn find_heading(ls: &Vec<Vec<char>>) -> (i: usize)
    ensures
        i == first_heading(ls@.map_values(|l: Vec<char>| l@), 0),
        i <= ls@.len(),
{
    let ghost views = ls@.map_values(|l: Vec<char>| l@);
    let mut i: usize = 0;
    proof {
        lemma_first_heading_bounds(views, 0);
    }
    while i < ls.len()
        invariant
            i <= ls@.len(),
            views == ls@.map_values(|l: Vec<char>| l@),
            first_heading(views, 0) == first_heading(views, i as int),
        decreases ls.len() - i,
    {
        if ls[i].len() > 0 && ls[i][0] == '#' {
            assert(views[i as int] == ls@[i as int]@);
            return i;
        }
        assert(views[i as int] == ls@[i as int]@);
        i += 1;
    }
    i
}

proof fn lemma_first_heading_bounds(ls: Seq<Seq<char>>, i: int)
    requires
        0 <= i <= ls.len(),
    ensures
        i <= first_heading(ls, i) <= ls.len(),
    decreases ls.len() - i,
{
    if i < ls.len() && !(ls[i].len() > 0 && ls[i][0] == '#') {
        lemma_first_heading_bounds(ls, i + 1);
    }
}

/// The title of the file at `path` with `content`.
pub fn infer_title(path: &str, content: &str) -> (title: String)
    ensures
        title@ == title_of(path@, content@),
{
    if str_eq(classify_kind(path), "doc") {
        let chars = chars_of(content);
        let ls = split_lines(&chars);
        let h = find_heading(&ls);
        if h < ls.len() {
            let text = heading_of(&ls[h]);
            proof {
                assert(ls@.map_values(|l: Vec<char>| l@)[h as int] == ls@[h as int]@);
            }
            if text.len() > 0 {
                return string_from_chars(text.as_slice());
            }
        }
    }
    match file_name(path) {
        Some(n) => n,
        None => "untitled".to_string(),
    }
}

// ---------------------------------------------------------------------------
// Content-addressed ids

/// The BLAKE3 hash of the UTF-8 encoding of `data`, in lowercase hex.
pub uninterp spec fn blake3_hex(data: Seq<char>) -> Seq<char>;

/// `blake3::hash` of the UTF-8 bytes of `data`, encoded by `Hash::to_hex`:
/// 64 lowercase hexadecimal digits.
#[verifier::external_body]
fn blake3_hex_digest(data: &str) -> (digest: String)
    ensures
        digest@ == blake3_hex(data@),
        digest@.len() == 64,
{
    blake3::hash(data.as_bytes()).to_hex().to_string()
}

/// The id of a file: the first 12 hex digits of the hash of its collection
/// name, relative path and content, hashed one after another.
pub open spec fn docid_of(collection: Seq<char>, relative_path: Seq<char>, content: Seq<char>) -> Seq<char> {
    blake3_hex(collection + relative_path + content).subrange(0, 12)
}

/// The id of a chunk: the first 16 hex digits of the hash of its file's
/// collection name and relative path, the chunk's position in decimal, and
/// the chunk's content.
pub open spec fn chunk_docid_of(
    collection: Seq<char>,
    relative_path: Seq<char>,
    index: nat,
    content: Seq<char>,
) -> Seq<char> {
    blake3_hex(collection + relative_path + decimal(index) + content).subrange(0, 16)
}

/// The first `n` characters of a digest.
fn digest_prefix(digest: &String, n: usize) -> (p: String)
    requires
        n <= digest@.len(),
    ensures
        p@ == digest@.subrange(0, n as int),
{
    let chars = chars_of(digest.as_str());
    let prefix = slice_chars(&chars, 0, n);
    string_from_chars(prefix.as_slice())
}

/// The id of a file.
pub fn docid_for(collection: &str, relative_path: &str, content: &str) -> (id: String)
    ensures
        id@ == docid_of(collection@, relative_path@, content@),
{
    let mut data = collection.to_string();
    data.append(relative_path);
    data.append(content);
    let digest = blake3_hex_digest(data.as_str());
    digest_prefix(&digest, 12)
}

/// The id of a chunk.
pub fn chunk_docid_for(collection: &str, relative_path: &str, index: usize, content: &str) -> (id: String)
    ensures
        id@ == chunk_docid_of(collection@, relative_path@, index as nat, content@),
{
    let mut data = collection.to_string();
    data.append(relative_path);
    let digits = decimal_chars(index);
    let number = string_from_chars(digits.as_slice());
    data.append(number.as_str());
    data.append(content);
    let digest = blake3_hex_digest(data.as_str());
    digest_prefix(&digest, 16)
}

// ---------------------------------------------------------------------------
// Chunking

/// A chunk of `lines`, the `index`-th of its file, starting at line `start`.
pub open spec fn make_chunk(
    collection: Seq<char>,
    relative_path: Seq<char>,
    index: nat,
    title: Seq<char>,
    ls: Seq<Seq<char>>,
    start: nat,
) -> ChunkView {
    let content = join_lines(ls);
    ChunkView {
        chunk_docid: chunk_docid_of(collection, relative_path, index, content),
        title: title,
        content: content,
        line_start: start,
        line_end: if ls.len() > 0 { (start + ls.len() - 1) as nat } else { start },
    }
}

/// Whether `line` opens or closes a fenced code block.
pub open spec fn is_fence(line: Seq<char>) -> bool {
    has_prefix(trim_start(line), seq!['`', '`', '`'])
}

/// Whether `line` is a heading line.
pub open spec fn is_heading(line: Seq<char>) -> bool {
    line.len() > 0 && line[0] == '#'
}

/// Where Markdown chunking stands after some lines: the chunks closed so
/// far, and the title, lines, first line number and fence state of the
/// chunk being gathered.
pub struct MarkdownState {
    pub chunks: Seq<ChunkView>,
    pub title: Seq<char>,
    pub lines: Seq<Seq<char>>,
    pub start: nat,
    pub in_fence: bool,
}

/// Markdown chunking of the line `line`, numbered `line_no`: a heading outside
/// a code fence closes the chunk being gathered (if it has lines) and opens
/// one titled by the heading; every line joins the chunk being gathered.
pub open spec fn markdown_step(
    collection: Seq<char>,
    relative_path: Seq<char>,
    st: MarkdownState,
    line: Seq<char>,
    line_no: nat,
) -> MarkdownState {
    let in_fence = if is_fence(line) { !st.in_fence } else { st.in_fence };
    if !in_fence && is_heading(line) {
        let chunks = if st.lines.len() > 0 {
            st.chunks.push(make_chunk(collection, relative_path, st.chunks.len(), st.title, st.lines, st.start))
        } else {
            st.chunks
        };
        MarkdownState { chunks: chunks, title: heading_text(line), lines: seq![line], start: line_no, in_fence: in_fence }
    } else {
        MarkdownState {
            chunks: st.chunks,
            title: st.title,
            lines: st.lines.push(line),
            start: st.start,
            in_fence: in_fence,
        }
    }
}

/// Markdown chunking after the first `n` lines of `ls`.
pub open spec fn markdown_fold(
    collection: Seq<char>,
    relative_path: Seq<char>,
    ls: Seq<Seq<char>>,
    fallback_title: Seq<char>,
    n: int,
) -> MarkdownState
    decreases n,
{
    if n <= 0 {
        MarkdownState { chunks: Seq::empty(), title: fallback_title, lines: Seq::empty(), start: 1, in_fence: false }
    } else {
        markdown_step(
            collection,
            relative_path,
            markdown_fold(collection, relative_path, ls, fallback_title, n - 1),
            ls[n - 1],
            n as nat,
        )
    }
}

/// The chunks of a Markdown document: one per heading outside code fences,
/// plus one for any lines before the first heading, each titled by its
/// heading (or `fallback_title`).
pub open spec fn markdown_chunks(
    collection: Seq<char>,
    relative_path: Seq<char>,
    content: Seq<char>,
    fallback_title: Seq<char>,
) -> Seq<ChunkView> {
    let ls = lines(content);
    let st = markdown_fold(collection, relative_path, ls, fallback_title, ls.len() as int);
    if st.lines.len() > 0 {
        st.chunks.push(make_chunk(collection, relative_path, st.chunks.len(), st.title, st.lines, st.start))
    } else {
        st.chunks
    }
}

/// The chunk of `ls` starting at line `start_line`, the `index`-th of its file.
pub fn build_chunk(
    collection: &str,
    relative_path: &str,
    index: usize,
    title: &Vec<char>,
    ls: &Vec<Vec<char>>,
    start_line: usize,
) -> (chunk: ChunkRecord)
    requires
        start_line + ls@.len() <= usize::MAX + 1,
    ensures
        chunk@ == make_chunk(collection@, relative_path@, index as nat, title@, ls@.map_values(|l: Vec<char>| l@), start_line as nat),
{
    let content_chars = join_with_newlines(ls);
    let content = string_from_chars(content_chars.as_slice());
    let end_line = if ls.len() > 0 { start_line + (ls.len() - 1) } else { start_line };
    ChunkRecord {
        chunk_docid: chunk_docid_for(collection, relative_path, index, content.as_str()),
        title: string_from_chars(title.as_slice()),
        content,
        line_start: start_line,
        line_end: if end_line > start_line { end_line } else { start_line },
    }
}

/// Whether `line` opens or closes a fence.
fn fence_line(line: &Vec<char>) -> (r: bool)
    ensures
        r == is_fence(line@),
{
    let n = skip_leading_ws(line);
    let rest = slice_chars(line, n, line.len());
    let ticks: Vec<char> = vec!['`', '`', '`'];
    starts_with(&rest, &ticks)
}

/// Splits a Markdown document into chunks at its headings, leaving headings
/// inside fenced code blocks alone.
pub fn chunk_markdown(collection: &str, relative_path: &str, content: &str, fallback_title: &str) -> (chunks: Vec<
    ChunkRecord,
>)
    ensures
        chunks@.map_values(|c: ChunkRecord| c@) == markdown_chunks(collection@, relative_path@, content@, fallback_title@),
{
    let chars = chars_of(content);
    let ls = split_lines(&chars);
    let ghost lsv = ls@.map_values(|l: Vec<char>| l@);
    let mut chunks: Vec<ChunkRecord> = Vec::new();
    let mut current_title = chars_of(fallback_title);
    let mut current_lines: Vec<Vec<char>> = Vec::new();
    let mut current_start: usize = 1;
    let mut in_code_fence = false;
    let mut line_no: usize = 0;
    while line_no < ls.len()
        invariant
            lsv == ls@.map_values(|l: Vec<char>| l@),
            lsv == lines(content@),
            line_no <= ls@.len(),
            1 <= current_start <= line_no + 1,
            current_lines@.len() <= line_no,
            line_no > 0 ==> current_start + current_lines@.len() == line_no + 1,
            line_no == 0 ==> current_lines@.len() == 0,
            ({
                let st = markdown_fold(collection@, relative_path@, lsv, fallback_title@, line_no as int);
                &&& chunks@.map_values(|c: ChunkRecord| c@) == st.chunks
                &&& current_title@ == st.title
                &&& current_lines@.map_values(|l: Vec<char>| l@) == st.lines
                &&& current_start == st.start
                &&& in_code_fence == st.in_fence
            }),
        decreases ls.len() - line_no,
    {
        let line = &ls[line_no];
        assert(lsv[line_no as int] == line@);
        line_no += 1;
        if fence_line(line) {
            in_code_fence = !in_code_fence;
        }
        if !in_code_fence && line.len() > 0 && line[0] == '#' {
            if current_lines.len() > 0 {
                let chunk = build_chunk(collection, relative_path, chunks.len(), &current_title, &current_lines, current_start);
                chunks.push(chunk);
            }
            current_lines = Vec::new();
            current_title = heading_of(line);
            current_start = line_no;
        }
        let copy = slice_chars(line, 0, line.len());
        proof {
            assert(line@.subrange(0, line@.len() as int) == line@);
        }
        current_lines.push(copy);
        proof {
            assert(current_lines@.map_values(|l: Vec<char>| l@) =~= markdown_fold(
                collection@,
                relative_path@,
                lsv,
                fallback_title@,
                line_no as int,
            ).lines);
        }
    }
    if current_lines.len() > 0 {
        let chunk = build_chunk(collection, relative_path, chunks.len(), &current_title, &current_lines, current_start);
        chunks.push(chunk);
    }
    chunks
}

/// Chunks `cs` run over the lines `ls` without gap or overlap from line 1 up
/// to the line before `next`, each holding the text of its lines.
pub open spec fn chunks_tile(cs: Seq<ChunkView>, ls: Seq<Seq<char>>, next: nat) -> bool {
    &&& (cs.len() == 0 ==> next == 1)
    &&& (cs.len() > 0 ==> cs[0].line_start == 1 && cs.last().line_end + 1 == next)
    &&& forall|k: int| 0 < k < cs.len() ==> #[trigger] cs[k].line_start == cs[k - 1].line_end + 1
    &&& forall|k: int| 0 <= k < cs.len() ==> {
        let c = #[trigger] cs[k];
        &&& 1 <= c.line_start <= c.line_end < next
        &&& c.content == join_lines(ls.subrange(c.line_start - 1, c.line_end as int))
    }
}

proof fn lemma_markdown_fold_tiles(
    collection: Seq<char>,
    relative_path: Seq<char>,
    ls: Seq<Seq<char>>,
    fallback_title: Seq<char>,
    n: int,
)
    requires
        0 <= n <= ls.len(),
    ensures
        ({
            let st = markdown_fold(collection, relative_path, ls, fallback_title, n);
            &&& chunks_tile(st.chunks, ls, st.start)
            &&& st.start >= 1
            &&& (n == 0 ==> st.lines.len() == 0 && st.start == 1)
            &&& (n > 0 ==> st.lines.len() > 0 && st.start + st.lines.len() == n + 1 && st.lines
                == ls.subrange(st.start - 1, n))
        }),
    decreases n,
{
    if n > 0 {
        lemma_markdown_fold_tiles(collection, relative_path, ls, fallback_title, n - 1);
        let st = markdown_fold(collection, relative_path, ls, fallback_title, n - 1);
        let line = ls[n - 1];
        let next = markdown_fold(collection, relative_path, ls, fallback_title, n);
        let in_fence = if is_fence(line) { !st.in_fence } else { st.in_fence };
        if !in_fence && is_heading(line) {
            assert(next.lines =~= ls.subrange(n - 1, n));
            if st.lines.len() > 0 {
                let c = make_chunk(collection, relative_path, st.chunks.len(), st.title, st.lines, st.start);
                assert(c.line_end == n - 1);
                assert(next.chunks == st.chunks.push(c));
                assert forall|k: int| 0 < k < next.chunks.len() implies #[trigger] next.chunks[k].line_start
                    == next.chunks[k - 1].line_end + 1 by {
                    if k < st.chunks.len() {
                        assert(next.chunks[k] == st.chunks[k]);
                    }
                }
                assert forall|k: int| 0 <= k < next.chunks.len() implies {
                    let c = #[trigger] next.chunks[k];
                    &&& 1 <= c.line_start <= c.line_end < next.start
                    &&& c.content == join_lines(ls.subrange(c.line_start - 1, c.line_end as int))
                } by {
                    if k < st.chunks.len() {
                        assert(next.chunks[k] == st.chunks[k]);
                    }
                }
            }
        } else {
            assert(st.lines.push(line) =~= ls.subrange(st.start - 1, n));
        }
    }
}

/// Whether, after the first `n` lines of `ls`, a fenced code block is open:
/// an odd number of those lines open or close a fence.
pub open spec fn fence_open_after(ls: Seq<Seq<char>>, n: int) -> bool
    decreases n,
{
    if n <= 0 {
        false
    } else {
        let before = fence_open_after(ls, n - 1);
        if has_prefix(trim_start(ls[n - 1]), seq!['`', '`', '`']) {
            !before
        } else {
            before
        }
    }
}

/// Whether line `k` of `ls` lies inside a fenced code block, counting the
/// line itself.
pub open spec fn inside_fence(ls: Seq<Seq<char>>, k: int) -> bool {
    fence_open_after(ls, k + 1)
}

/// Whether line `k` of `ls` is a heading outside code fences: it starts
/// with `#`, whatever the number of `#`.
pub open spec fn heading_line(ls: Seq<Seq<char>>, k: int) -> bool {
    &&& 0 <= k < ls.len()
    &&& !inside_fence(ls, k)
    &&& ls[k].len() > 0
    &&& ls[k][0] == '#'
}

/// Whether one of the chunks `cs` starts at line `line_no` with title `title`.
pub open spec fn opens_chunk(cs: Seq<ChunkView>, line_no: int, title: Seq<char>) -> bool {
    exists|j: int| 0 <= j < cs.len() && #[trigger] cs[j].line_start == line_no && cs[j].title == title
}

proof fn lemma_markdown_fold_headings(
    collection: Seq<char>,
    relative_path: Seq<char>,
    ls: Seq<Seq<char>>,
    fallback_title: Seq<char>,
    n: int,
)
    requires
        0 <= n <= ls.len(),
    ensures
        ({
            let st = markdown_fold(collection, relative_path, ls, fallback_title, n);
            &&& st.in_fence == inside_fence(ls, n - 1)
            &&& forall|k: int| #[trigger] heading_line(ls, k) && k < n ==> opens_chunk(st.chunks, k + 1, heading_text(ls[k]))
                || (st.start == k + 1 && st.title == heading_text(ls[k]))
        }),
    decreases n,
{
    if n > 0 {
        lemma_markdown_fold_headings(collection, relative_path, ls, fallback_title, n - 1);
        lemma_markdown_fold_tiles(collection, relative_path, ls, fallback_title, n - 1);
        let st = markdown_fold(collection, relative_path, ls, fallback_title, n - 1);
        let next = markdown_fold(collection, relative_path, ls, fallback_title, n);
        let line = ls[n - 1];
        let in_fence = if is_fence(line) { !st.in_fence } else { st.in_fence };
        assert(in_fence == inside_fence(ls, n - 1));
        if !in_fence && is_heading(line) {
            assert forall|k: int| #[trigger] heading_line(ls, k) && k < n implies opens_chunk(next.chunks, k + 1, heading_text(ls[k]))
                || (next.start == k + 1 && next.title == heading_text(ls[k])) by {
                if k < n - 1 {
                    if opens_chunk(st.chunks, k + 1, heading_text(ls[k])) {
                        let j = choose|j: int| 0 <= j < st.chunks.len() && #[trigger] st.chunks[j].line_start == k + 1
                            && st.chunks[j].title == heading_text(ls[k]);
                        assert(next.chunks[j] == st.chunks[j]);
                        assert(opens_chunk(next.chunks, k + 1, heading_text(ls[k])));
                    } else {
                        let c = make_chunk(collection, relative_path, st.chunks.len(), st.title, st.lines, st.start);
                        assert(st.lines.len() > 0);
                        assert(next.chunks == st.chunks.push(c));
                        assert(next.chunks[st.chunks.len() as int] == c);
                        assert(st.start == k + 1 && st.title == heading_text(ls[k]));
                        assert(next.chunks[st.chunks.len() as int].line_start == k + 1);
                        assert(next.chunks[st.chunks.len() as int].title == heading_text(ls[k]));
                        assert(opens_chunk(next.chunks, k + 1, heading_text(ls[k])));
                    }
                } else {
                    assert(next.start == n && next.title == heading_text(line));
                }
            }
        } else {
            assert forall|k: int| #[trigger] heading_line(ls, k) && k < n implies opens_chunk(next.chunks, k + 1, heading_text(ls[k]))
                || (next.start == k + 1 && next.title == heading_text(ls[k])) by {
                if k == n - 1 {
                    assert(is_heading(line));
                }
            }
        }
    }
}

/// Every line outside code fences that starts with `#`, at any heading
/// level, starts a chunk of its own: the chunk's first line is that line and
/// its title is the line's heading text.
pub proof fn law_markdown_headings_open_chunks(
    collection: Seq<char>,
    relative_path: Seq<char>,
    content: Seq<char>,
    fallback_title: Seq<char>,
    k: int,
)
    requires
        heading_line(lines(content), k),
    ensures
        opens_chunk(
            markdown_chunks(collection, relative_path, content, fallback_title),
            k + 1,
            heading_text(lines(content)[k]),
        ),
{
    let ls = lines(content);
    let n = ls.len() as int;
    lemma_markdown_fold_headings(collection, relative_path, ls, fallback_title, n);
    lemma_markdown_fold_tiles(collection, relative_path, ls, fallback_title, n);
    let st = markdown_fold(collection, relative_path, ls, fallback_title, n);
    let cs = markdown_chunks(collection, relative_path, content, fallback_title);
    let c = make_chunk(collection, relative_path, st.chunks.len(), st.title, st.lines, st.start);
    assert(cs == st.chunks.push(c));
    assert(heading_line(ls, k));
    if opens_chunk(st.chunks, k + 1, heading_text(ls[k])) {
        let j = choose|j: int| 0 <= j < st.chunks.len() && #[trigger] st.chunks[j].line_start == k + 1
            && st.chunks[j].title == heading_text(ls[k]);
        assert(cs[j] == st.chunks[j]);
        assert(opens_chunk(cs, k + 1, heading_text(ls[k])));
    } else {
        assert(cs[st.chunks.len() as int] == c);
        assert(st.start == k + 1 && st.title == heading_text(ls[k]));
        assert(cs[st.chunks.len() as int].line_start == k + 1);
        assert(cs[st.chunks.len() as int].title == heading_text(ls[k]));
        assert(opens_chunk(cs, k + 1, heading_text(ls[k])));
    }
}

/// Markdown chunks cover the document's lines in order: there are chunks
/// exactly when there are lines, the first starts at line 1, each starts on
/// the line after the previous one ends, the last ends on the last line, and
/// each holds the text of its lines joined by newlines.
pub proof fn law_markdown_chunks_cover_lines(
    collection: Seq<char>,
    relative_path: Seq<char>,
    content: Seq<char>,
    fallback_title: Seq<char>,
)
    ensures
        ({
            let cs = markdown_chunks(collection, relative_path, content, fallback_title);
            let ls = lines(content);
            &&& (cs.len() == 0 <==> ls.len() == 0)
            &&& chunks_tile(cs, ls, (ls.len() + 1) as nat)
        }),
{
    let ls = lines(content);
    let n = ls.len() as int;
    lemma_markdown_fold_tiles(collection, relative_path, ls, fallback_title, n);
    let st = markdown_fold(collection, relative_path, ls, fallback_title, n);
    let cs = markdown_chunks(collection, relative_path, content, fallback_title);
    if st.lines.len() > 0 {
        let c = make_chunk(collection, relative_path, st.chunks.len(), st.title, st.lines, st.start);
        assert(cs == st.chunks.push(c));
        assert(c.line_end == n);
        assert forall|k: int| 0 < k < cs.len() implies #[trigger] cs[k].line_start == cs[k - 1].line_end + 1 by {
            if k < st.chunks.len() {
                assert(cs[k] == st.chunks[k]);
            }
        }
        assert forall|k: int| 0 <= k < cs.len() implies {
            let c = #[trigger] cs[k];
            &&& 1 <= c.line_start <= c.line_end < n + 1
            &&& c.content == join_lines(ls.subrange(c.line_start - 1, c.line_end as int))
        } by {
            if k < st.chunks.len() {
                assert(cs[k] == st.chunks[k]);
            }
        }
    }
}

/// The chunks of a file: a document is chunked at its headings; any other
/// file is one chunk titled like the file, covering all its lines.
pub open spec fn file_chunks(
    collection: Seq<char>,
    relative_path: Seq<char>,
    absolute_path: Seq<char>,
    content: Seq<char>,
) -> Seq<ChunkView> {
    let title = title_of(absolute_path, content);
    if kind_of(absolute_path) == "doc"@ {
        markdown_chunks(collection, relative_path, content, title)
    } else {
        let n = lines(content).len();
        seq![
            ChunkView {
                chunk_docid: chunk_docid_of(collection, relative_path, 0, content),
                title: title,
                content: content,
                line_start: 1,
                line_end: if n > 0 { n } else { 1 },
            },
        ]
    }
}

/// The number of lines of `content`, at least one.
pub fn line_count(content: &str) -> (n: usize)
    ensures
        n == (if lines(content@).len() > 0 { lines(content@).len() } else { 1 }),
{
    let chars = chars_of(content);
    let ls = split_lines(&chars);
    proof {
        assert(ls@.map_values(|l: Vec<char>| l@).len() == ls@.len());
    }
    if ls.len() > 0 {
        ls.len()
    } else {
        1
    }
}

/// Splits a file into the chunks the lexical index holds.
pub fn chunk_file(collection: &str, relative_path: &str, absolute_path: &str, content: &str) -> (chunks: Vec<
    ChunkRecord,
>)
    ensures
        chunks@.map_values(|c: ChunkRecord| c@) == file_chunks(collection@, relative_path@, absolute_path@, content@),
{
    let path_title = infer_title(absolute_path, content);
    if str_eq(classify_kind(absolute_path), "doc") {
        return chunk_markdown(collection, relative_path, content, path_title.as_str());
    }
    let chunk = ChunkRecord {
        chunk_docid: chunk_docid_for(collection, relative_path, 0, content),
        title: path_title,
        content: content.to_string(),
        line_start: 1,
        line_end: line_count(content),
    };
    let mut chunks = Vec::new();
    chunks.push(chunk);
    proof {
        assert(chunks@.map_values(|c: ChunkRecord| c@) =~= file_chunks(
            collection@,
            relative_path@,
            absolute_path@,
            content@,
        ));
    }
    chunks
}

// ---------------------------------------------------------------------------
// Errors

/// Why looking up or slicing a file failed.
#[derive(Debug, PartialEq, Eq)]
pub enum IndexError {
    /// Line numbers count from 1; line 0 was asked for.
    LineNumbersStartAtOne,
    /// The line asked for is past the end of the file.
    LineOutOfRange(usize),
    /// The database path has no file stem to name the lexical index by.
    InvalidDatabasePath,
    /// The database path has no directory to put the lexical index in.
    DatabasePathHasNoParent,
}

/// The message each error is reported with.
pub open spec fn index_error_text(e: IndexError) -> Seq<char> {
    match e {
        IndexError::LineNumbersStartAtOne => "line numbers are 1-based"@,
        IndexError::LineOutOfRange(n) => "line "@ + decimal(n as nat) + " is out of range"@,
        IndexError::InvalidDatabasePath => "invalid database path for lexical index"@,
        IndexError::DatabasePathHasNoParent => "database path has no parent"@,
    }
}

impl IndexError {
    /// The human-readable message for this error.
    pub fn message(&self) -> (m: String)
        ensures
            m@ == index_error_text(*self),
    {
        match self {
            IndexError::LineNumbersStartAtOne => "line numbers are 1-based".to_string(),
            IndexError::LineOutOfRange(n) => {
                let mut m = "line ".to_string();
                let digits = decimal_chars(*n);
                let number = string_from_chars(digits.as_slice());
                m.append(number.as_str());
                m.append(" is out of range");
                m
            },
            IndexError::InvalidDatabasePath => "invalid database path for lexical index".to_string(),
            IndexError::DatabasePathHasNoParent => "database path has no parent".to_string(),
        }
    }
}

// ---------------------------------------------------------------------------
// References and line slices

/// The index of the last `':'` in `s[..end]`, or -1.
pub open spec fn last_colon(s: Seq<char>, end: int) -> int
    decreases end,
{
    if end <= 0 || end > s.len() {
        -1
    } else if s[end - 1] == ':' {
        end - 1
    } else {
        last_colon(s, end - 1)
    }
}

/// A reference split from its `:line` suffix: when the text after the last
/// `':'` is all ASCII digits, the reference is what precedes it and the line
/// is the digits' value (none if there are no digits or the value does not
/// fit in a `usize`); otherwise the input is the reference and there is no
/// line.
pub open spec fn split_line_suffix(input: Seq<char>) -> (Seq<char>, Option<nat>) {
    let c = last_colon(input, input.len() as int);
    if c < 0 {
        (input, None)
    } else {
        let suffix = input.subrange(c + 1, input.len() as int);
        if crate::text::all_digits(suffix) {
            (
                input.subrange(0, c),
                if suffix.len() > 0 && crate::text::digits_value(suffix) <= usize::MAX {
                    Some(crate::text::digits_value(suffix))
                } else {
                    None
                },
            )
        } else {
            (input, None)
        }
    }
}

proof fn lemma_last_colon_bounds(s: Seq<char>, end: int)
    requires
        0 <= end <= s.len(),
    ensures
        -1 <= last_colon(s, end) < end,
    decreases end,
{
    if end > 0 && s[end - 1] != ':' {
        lemma_last_colon_bounds(s, end - 1);
    }
}

/// Splits `reference:line` into the reference and the line number.
pub fn parse_line_suffix(input: &str) -> (r: (String, Option<usize>))
    ensures
        r.0@ == split_line_suffix(input@).0,
        r.1 matches Some(n) ==> split_line_suffix(input@).1 == Some(n as nat),
        r.1 is None ==> split_line_suffix(input@).1 is None,
{
    let chars = chars_of(input);
    let mut end = chars.len();
    proof {
        lemma_last_colon_bounds(chars@, chars@.len() as int);
    }
    while end > 0 && chars[end - 1] != ':'
        invariant
            end <= chars@.len(),
            last_colon(chars@, chars@.len() as int) == last_colon(chars@, end as int),
        decreases end,
    {
        end -= 1;
    }
    if end == 0 {
        return (input.to_string(), None);
    }
    let colon = end - 1;
    let suffix = slice_chars(&chars, colon + 1, chars.len());
    let mut all = true;
    let mut i: usize = 0;
    while i < suffix.len()
        invariant
            i <= suffix@.len(),
            all == (forall|j: int| 0 <= j < i ==> '0' <= #[trigger] suffix@[j] && suffix@[j] <= '9'),
        decreases suffix.len() - i,
    {
        if !('0' <= suffix[i] && suffix[i] <= '9') {
            all = false;
        }
        i += 1;
    }
    if all {
        let reference = slice_chars(&chars, 0, colon);
        (string_from_chars(reference.as_slice()), crate::text::parse_decimal(&suffix))
    } else {
        (input.to_string(), None)
    }
}

/// A reference with the line slice that applies to it.
pub struct ParsedReference {
    pub reference: String,
    pub slice: Option<LineSlice>,
}

impl ParsedReference {
    /// The slice a reference gets: a `:line` suffix starts it at that line,
    /// keeping the length and numbering of `fallback`; without one,
    /// `fallback` applies as it is.
    pub open spec fn slice_for(line: Option<usize>, fallback: Option<LineSlice>) -> Option<LineSlice> {
        match line {
            Some(start) => Some(
                LineSlice {
                    start: start,
                    max_lines: match fallback {
                        Some(f) => f.max_lines,
                        None => None,
                    },
                    line_numbers: match fallback {
                        Some(f) => f.line_numbers,
                        None => false,
                    },
                },
            ),
            None => fallback,
        }
    }

    /// Parses `input` as a reference with an optional `:line` suffix.
    pub fn parse(input: &str, fallback: Option<LineSlice>) -> (p: ParsedReference)
        ensures
            p.reference@ == split_line_suffix(input@).0,
            p.slice == ParsedReference::slice_for(
                match split_line_suffix(input@).1 {
                    Some(n) => Some(n as usize),
                    None => None,
                },
                fallback,
            ),
    {
        let (reference, line_start) = parse_line_suffix(input);
        let slice = match line_start {
            Some(start) => Some(
                LineSlice {
                    start,
                    max_lines: match fallback {
                        Some(f) => f.max_lines,
                        None => None,
                    },
                    line_numbers: match fallback {
                        Some(f) => f.line_numbers,
                        None => false,
                    },
                },
            ),
            None => fallback,
        };
        ParsedReference { reference, slice }
    }
}

/// How a stored file is looked up: by its id (`#docid`), by its virtual
/// path (`sifter://...`), or by its path on disk.
#[derive(Debug, PartialEq, Eq)]
pub enum LookupKey {
    Docid(String),
    VirtualPath(String),
    FilePath(String),
}

/// The lookup a reference calls for: `#` references name a file by id
/// (leading `#`s dropped), `sifter://` references by virtual path, and any
/// other reference by path.
pub open spec fn lookup_of(reference: Seq<char>) -> (u8, Seq<char>) {
    if reference.len() > 0 && reference[0] == '#' {
        (0, trim_start_char(reference, '#'))
    } else if has_prefix(reference, "sifter://"@) {
        (1, reference)
    } else {
        (2, reference)
    }
}

impl LookupKey {
    /// The kind of lookup (0 for an id, 1 for a virtual path, 2 for a path)
    /// and the key looked up.
    pub open spec fn spec_parts(&self) -> (u8, Seq<char>) {
        match self {
            LookupKey::Docid(k) => (0, k@),
            LookupKey::VirtualPath(k) => (1, k@),
            LookupKey::FilePath(k) => (2, k@),
        }
    }
}

/// The lookup for `reference`.
pub fn lookup_key(reference: &str) -> (key: LookupKey)
    ensures
        key.spec_parts() == lookup_of(reference@),
{
    let chars = chars_of(reference);
    if chars.len() > 0 && chars[0] == '#' {
        let n = skip_leading(&chars, '#');
        let rest = slice_chars(&chars, n, chars.len());
        return LookupKey::Docid(string_from_chars(rest.as_slice()));
    }
    let scheme = chars_of("sifter://");
    if starts_with(&chars, &scheme) {
        LookupKey::VirtualPath(reference.to_string())
    } else {
        LookupKey::FilePath(reference.to_string())
    }
}

/// Whether a reference is a glob pattern (holds `*` or `?`).
pub open spec fn is_glob(reference: Seq<char>) -> bool {
    reference.contains('*') || reference.contains('?')
}

/// Whether `reference` is a glob pattern.
pub fn is_glob_reference(reference: &str) -> (r: bool)
    ensures
        r == is_glob(reference@),
{
    let chars = chars_of(reference);
    let mut i: usize = 0;
    while i < chars.len()
        invariant
            i <= chars@.len(),
            chars@ == reference@,
            forall|j: int| 0 <= j < i ==> chars@[j] != '*' && chars@[j] != '?',
        decreases chars.len() - i,
    {
        if chars[i] == '*' || chars[i] == '?' {
            proof {
                if chars@[i as int] == '*' {
                    assert(reference@.contains('*'));
                } else {
                    assert(reference@.contains('?'));
                }
            }
            return true;
        }
        i += 1;
    }
    false
}

/// How much an edge of each kind counts toward relatedness: an import
/// counts three, anything else one.
pub open spec fn weight_of(kind: Seq<char>) -> nat {
    if kind == "import"@ {
        3
    } else {
        1
    }
}

/// The weight of a relation of kind `kind`.
pub fn relation_weight(kind: &str) -> (w: usize)
    ensures
        w == weight_of(kind@),
{
    if str_eq(kind, "import") {
        3
    } else {
        1
    }
}

/// Where the lexical index of the database at `db_path` lives: beside it,
/// named by its stem with `.tantivy` appended.
pub open spec fn lexical_dir_of(db_path: Seq<char>) -> Result<Seq<char>, IndexError> {
    match path_stem(db_path) {
        None => Err(IndexError::InvalidDatabasePath),
        Some(stem) => match path_parent(db_path) {
            None => Err(IndexError::DatabasePathHasNoParent),
            Some(dir) => Ok(path_join(dir, stem + ".tantivy"@)),
        },
    }
}

/// The directory of the lexical index that goes with the database at `db_path`.
pub fn lexical_index_dir(db_path: &str) -> (r: Result<String, IndexError>)
    ensures
        r matches Ok(d) ==> lexical_dir_of(db_path@) == Ok::<Seq<char>, IndexError>(d@),
        r matches Err(e) ==> lexical_dir_of(db_path@) == Err::<Seq<char>, IndexError>(e),
{
    let stem = match crate::paths::file_stem(db_path) {
        Some(s) => s,
        None => {
            return Err(IndexError::InvalidDatabasePath);
        },
    };
    let dir = match crate::paths::parent(db_path) {
        Some(d) => d,
        None => {
            return Err(IndexError::DatabasePathHasNoParent);
        },
    };
    let mut name = stem;
    name.append(".tantivy");
    Ok(crate::paths::join(dir.as_str(), name.as_str()))
}

/// `d` right-aligned in a field four characters wide, as `{:>4}` lays it out.
pub open spec fn pad4(d: Seq<char>) -> Seq<char> {
    if d.len() < 4 {
        Seq::new((4 - d.len()) as nat, |i: int| ' ') + d
    } else {
        d
    }
}

/// `line` prefixed with its line number `n`, as in `"  12: text"`.
pub open spec fn numbered_line(n: nat, line: Seq<char>) -> Seq<char> {
    pad4(decimal(n)) + seq![':', ' '] + line
}

/// Each line of `ls` numbered, the first with `first`.
pub open spec fn numbered(ls: Seq<Seq<char>>, first: nat) -> Seq<Seq<char>> {
    Seq::new(ls.len(), |i: int| numbered_line((first + i) as nat, ls[i]))
}

/// Where a slice starting at 1-based line `start` ends in a file of `len`
/// lines: after `max_lines` lines, or at the end of the file.
pub open spec fn slice_end(start: nat, max_lines: Option<usize>, len: nat) -> int {
    match max_lines {
        Some(m) => if start - 1 + m < len { start - 1 + m } else { len as int },
        None => len as int,
    }
}

/// The lines a slice selects.
pub open spec fn selected_lines(content: Seq<char>, slice: LineSlice) -> Seq<Seq<char>> {
    let ls = lines(content);
    ls.subrange(slice.start - 1, slice_end(slice.start as nat, slice.max_lines, ls.len()))
}

/// The text a slice shows: its lines, numbered if asked, joined by newlines.
pub open spec fn sliced_text(content: Seq<char>, slice: LineSlice) -> Seq<char> {
    let sel = selected_lines(content, slice);
    join_lines(if slice.line_numbers { numbered(sel, slice.start as nat) } else { sel })
}

/// The file's fields other than its content and line range are unchanged.
pub open spec fn same_identity(a: IndexedFile, b: IndexedFile) -> bool {
    &&& a.docid == b.docid
    &&& a.collection == b.collection
    &&& a.path == b.path
    &&& a.virtual_path == b.virtual_path
    &&& a.kind == b.kind
    &&& a.title == b.title
    &&& a.language == b.language
    &&& a.context == b.context
}

/// `d` padded to a width of four.
fn pad_number(n: usize) -> (out: Vec<char>)
    ensures
        out@ == pad4(decimal(n as nat)),
{
    let digits = decimal_chars(n);
    let mut out: Vec<char> = Vec::new();
    if digits.len() < 4 {
        let pad = 4 - digits.len();
        let mut k: usize = 0;
        while k < pad
            invariant
                k <= pad,
                pad == 4 - digits@.len(),
                out@ == Seq::new(k as nat, |i: int| ' '),
            decreases pad - k,
        {
            out.push(' ');
            proof {
                assert(out@ =~= Seq::new((k + 1) as nat, |i: int| ' '));
            }
            k += 1;
        }
    }
    let mut j: usize = 0;
    let ghost prefix = out@;
    while j < digits.len()
        invariant
            j <= digits@.len(),
            out@ == prefix + digits@.take(j as int),
        decreases digits.len() - j,
    {
        out.push(digits[j]);
        proof {
            assert(digits@.take(j + 1) == digits@.take(j as int).push(digits@[j as int]));
        }
        j += 1;
    }
    proof {
        assert(digits@.take(digits@.len() as int) == digits@);
        if digits@.len() >= 4 {
            assert(prefix == Seq::<char>::empty());
        }
    }
    out
}

/// Narrows `file` to the lines that `slice` selects, numbering them if it
/// asks for that; an empty file is left as it is.
pub fn apply_line_slice(file: &mut IndexedFile, slice: LineSlice) -> (r: Result<(), IndexError>)
    ensures
        slice.start == 0 ==> r == Err::<(), IndexError>(IndexError::LineNumbersStartAtOne) && *final(file)
            == *old(file),
        slice.start > 0 && lines(old(file).content@).len() == 0 ==> r is Ok && *final(file) == *old(file),
        slice.start > lines(old(file).content@).len() > 0 ==> r == Err::<(), IndexError>(
            IndexError::LineOutOfRange(slice.start),
        ) && *final(file) == *old(file),
        0 < slice.start <= lines(old(file).content@).len() ==> {
            let sel = selected_lines(old(file).content@, slice);
            &&& r is Ok
            &&& same_identity(*final(file), *old(file))
            &&& final(file).content@ == sliced_text(old(file).content@, slice)
            &&& final(file).line_start == slice.start
            &&& final(file).line_end == slice.start + (if sel.len() > 0 { sel.len() - 1 } else { 0 })
        },
{
    if slice.start == 0 {
        return Err(IndexError::LineNumbersStartAtOne);
    }
    let chars = chars_of(file.content.as_str());
    let all_lines = split_lines(&chars);
    let ghost lsv = all_lines@.map_values(|l: Vec<char>| l@);
    assert(lsv.len() == all_lines@.len());
    if all_lines.len() == 0 {
        return Ok(());
    }
    if slice.start > all_lines.len() {
        return Err(IndexError::LineOutOfRange(slice.start));
    }
    let zero_based_start = slice.start - 1;
    let end = match slice.max_lines {
        Some(max_lines) => {
            if max_lines < all_lines.len() - zero_based_start {
                zero_based_start + max_lines
            } else {
                all_lines.len()
            }
        },
        None => all_lines.len(),
    };
    let mut shown: Vec<Vec<char>> = Vec::new();
    let mut k: usize = zero_based_start;
    let ghost sel = lsv.subrange(zero_based_start as int, end as int);
    while k < end
        invariant
            zero_based_start <= k <= end <= all_lines@.len(),
            slice.start == zero_based_start + 1,
            lsv == all_lines@.map_values(|l: Vec<char>| l@),
            sel == lsv.subrange(zero_based_start as int, end as int),
            shown@.map_values(|l: Vec<char>| l@) == (if slice.line_numbers {
                numbered(sel, slice.start as nat)
            } else {
                sel
            }).take(k - zero_based_start),
        decreases end - k,
    {
        let line = &all_lines[k];
        let ghost before = shown@.map_values(|l: Vec<char>| l@);
        let item = if slice.line_numbers {
            let mut numbered_text = pad_number(slice.start + (k - zero_based_start));
            numbered_text.push(':');
            numbered_text.push(' ');
            let ghost head = numbered_text@;
            let mut j: usize = 0;
            while j < line.len()
                invariant
                    j <= line@.len(),
                    numbered_text@ == head + line@.take(j as int),
                decreases line.len() - j,
            {
                numbered_text.push(line[j]);
                proof {
                    assert(line@.take(j + 1) == line@.take(j as int).push(line@[j as int]));
                }
                j += 1;
            }
            proof {
                assert(line@.take(line@.len() as int) == line@);
                assert(numbered_text@ == numbered(sel, slice.start as nat)[k - zero_based_start]);
            }
            numbered_text
        } else {
            let copy = slice_chars(line, 0, line.len());
            proof {
                assert(line@.subrange(0, line@.len() as int) == line@);
            }
            copy
        };
        shown.push(item);
        proof {
            let target = if slice.line_numbers { numbered(sel, slice.start as nat) } else { sel };
            assert(target.take(k + 1 - zero_based_start) == target.take(k - zero_based_start).push(
                target[k - zero_based_start],
            ));
            assert(shown@.map_values(|l: Vec<char>| l@) == before.push(item@));
        }
        k += 1;
    }
    let joined = join_with_newlines(&shown);
    proof {
        let target = if slice.line_numbers { numbered(sel, slice.start as nat) } else { sel };
        assert(target.take(end - zero_based_start) == target);
        assert(lsv == lines(old(file).content@));
    }
    file.content = string_from_chars(joined.as_slice());
    file.line_start = slice.start;
    let count = end - zero_based_start;
    file.line_end = slice.start + if count > 0 { count - 1 } else { 0 };
    Ok(())
}

proof fn lemma_last_colon_skips(s: Seq<char>, c: int, end: int)
    requires
        0 <= c < end <= s.len(),
        s[c] == ':',
        forall|k: int| c < k < end ==> s[k] != ':',
    ensures
        last_colon(s, end) == c,
    decreases end - c,
{
    if end - 1 > c {
        lemma_last_colon_skips(s, c, end - 1);
    }
}

/// A reference with a line number `n` appended as `:n` splits back into the
/// reference and `n`, whatever colons the reference itself holds.
pub proof fn law_line_suffix_round_trip(reference: Seq<char>, n: nat)
    requires
        n <= usize::MAX,
    ensures
        split_line_suffix(reference + seq![':'] + decimal(n)) == (reference, Some(n)),
{
    crate::text::lemma_decimal_digits(n);
    let d = decimal(n);
    let s = reference + seq![':'] + d;
    let c = reference.len() as int;
    assert forall|k: int| c < k < s.len() implies s[k] != ':' by {
        assert(s[k] == d[k - c - 1]);
        assert('0' <= d[k - c - 1] && d[k - c - 1] <= '9');
    }
    lemma_last_colon_skips(s, c, s.len() as int);
    assert(s.subrange(c + 1, s.len() as int) == d);
    assert(s.subrange(0, c) == reference);
}

// ---------------------------------------------------------------------------
// Related files

/// A stored relation edge: the file it was found in and the symbol it names.
pub struct RelationRow {
    pub docid: String,
    pub path: String,
    pub collection: String,
    pub name: String,
    pub kind: String,
}

/// The mathematical value of a relation edge.
pub struct RelationView {
    pub docid: Seq<char>,
    pub path: Seq<char>,
    pub collection: Seq<char>,
    pub name: Seq<char>,
    pub kind: Seq<char>,
}

impl View for RelationRow {
    type V = RelationView;

    open spec fn view(&self) -> RelationView {
        RelationView {
            docid: self.docid@,
            path: self.path@,
            collection: self.collection@,
            name: self.name@,
            kind: self.kind@,
        }
    }
}

/// What is gathered about one related file: where it is, its score, and the
/// target's symbols it shares.
pub struct RelatedAcc {
    pub docid: Seq<char>,
    pub file: Seq<char>,
    pub collection: Seq<char>,
    pub score: nat,
    pub shared: Set<Seq<char>>,
}

/// The position of the file `docid` among `accs`, or `accs.len()`.
pub open spec fn find_doc(accs: Seq<RelatedAcc>, docid: Seq<char>, i: int) -> int
    decreases accs.len() - i,
{
    if i < 0 || i >= accs.len() {
        accs.len() as int
    } else if accs[i].docid == docid {
        i
    } else {
        find_doc(accs, docid, i + 1)
    }
}

/// One edge counted: an edge naming one of the target's symbols adds its
/// weight to its file's score and the symbol to the file's shared symbols; a
/// file is recorded with the path and collection of its first such edge.
pub open spec fn related_step(accs: Seq<RelatedAcc>, row: RelationView, targets: Set<Seq<char>>) -> Seq<RelatedAcc> {
    if !targets.contains(row.name) {
        accs
    } else {
        let i = find_doc(accs, row.docid, 0);
        if i < accs.len() {
            accs.update(
                i,
                RelatedAcc {
                    docid: accs[i].docid,
                    file: accs[i].file,
                    collection: accs[i].collection,
                    score: accs[i].score + weight_of(row.kind),
                    shared: accs[i].shared.insert(row.name),
                },
            )
        } else {
            accs.push(
                RelatedAcc {
                    docid: row.docid,
                    file: row.path,
                    collection: row.collection,
                    score: weight_of(row.kind),
                    shared: set![row.name],
                },
            )
        }
    }
}

/// The files gathered from the first `n` edges, in order of first appearance.
pub open spec fn related_accs(rows: Seq<RelationView>, targets: Set<Seq<char>>, n: int) -> Seq<RelatedAcc>
    decreases n,
{
    if n <= 0 {
        Seq::empty()
    } else {
        related_step(related_accs(rows, targets, n - 1), rows[n - 1], targets)
    }
}

/// The files gathered by counting the first `n` edges of `rows` on top of
/// those already gathered in `accs`.
pub open spec fn gather(accs: Seq<RelatedAcc>, rows: Seq<RelationView>, targets: Set<Seq<char>>, n: int) -> Seq<
    RelatedAcc,
>
    decreases n,
{
    if n <= 0 {
        accs
    } else {
        related_step(gather(accs, rows, targets, n - 1), rows[n - 1], targets)
    }
}

/// The names the target's own relation edges refer to.
pub open spec fn reference_names(target_rows: Seq<RelationView>) -> Set<Seq<char>> {
    target_rows.map_values(|r: RelationView| r.name).to_set()
}

/// The names the target imports.
pub open spec fn import_names(target_rows: Seq<RelationView>) -> Set<Seq<char>> {
    Set::new(
        |n: Seq<char>|
            exists|i: int| 0 <= i < target_rows.len() && #[trigger] target_rows[i].name == n && target_rows[i].kind == "import"@,
    )
}

/// A definition in another file, counted as an edge from the target: it
/// weighs as an import when the target imports the name, as a mention
/// otherwise.
pub open spec fn dependency_edge(def: RelationView, imports: Set<Seq<char>>) -> RelationView {
    RelationView {
        docid: def.docid,
        path: def.path,
        collection: def.collection,
        name: def.name,
        kind: if imports.contains(def.name) {
            "import"@
        } else {
            "mention"@
        },
    }
}

/// The files related to a target, in order of first appearance: first the
/// files whose edges name one of the target's symbols (`rows`), then the
/// files that define a name the target refers to (`defs`, each weighed by
/// how the target refers to it).
pub open spec fn related_to(
    target_symbols: Set<Seq<char>>,
    target_rows: Seq<RelationView>,
    rows: Seq<RelationView>,
    defs: Seq<RelationView>,
) -> Seq<RelatedAcc> {
    let deps = defs.map_values(|d: RelationView| dependency_edge(d, import_names(target_rows)));
    gather(related_accs(rows, target_symbols, rows.len() as int), deps, reference_names(target_rows), deps.len() as int)
}

/// Ranking order: higher score first, then file path ascending.
pub open spec fn ranks_before(a: RelatedAcc, b: RelatedAcc) -> bool {
    a.score > b.score || (a.score == b.score && crate::strmap::lex_lt(a.file, b.file))
}

/// The first position at or after `i` whose file `x` ranks before.
pub open spec fn first_outranked(s: Seq<RelatedAcc>, x: RelatedAcc, i: int) -> int
    decreases s.len() - i,
{
    if i < 0 || i >= s.len() {
        s.len() as int
    } else if ranks_before(x, s[i]) {
        i
    } else {
        first_outranked(s, x, i + 1)
    }
}

/// The files ranked, in a stable sort on ranking order.
pub open spec fn ranked(s: Seq<RelatedAcc>) -> Seq<RelatedAcc>
    decreases s.len(),
{
    if s.len() == 0 {
        Seq::empty()
    } else {
        let r = ranked(s.drop_last());
        r.insert(first_outranked(r, s.last(), 0), s.last())
    }
}

/// A related hit as the gathered file it reports: same file, collection and
/// score, and the shared symbols listed once each in ascending order.
pub open spec fn reports(hit: RelatedHit, acc: RelatedAcc) -> bool {
    let names = hit.shared_symbols@.map_values(|n: String| n@);
    &&& hit.file@ == acc.file
    &&& hit.collection@ == acc.collection
    &&& hit.score == acc.score
    &&& crate::strmap::keys_sorted(names)
    &&& names.to_set() == acc.shared
}

/// What is kept while counting a related file.
struct RelatedAccumulator {
    docid: String,
    file: String,
    collection: String,
    score: usize,
    shared_symbols: crate::strmap::StrMap<()>,
}

impl View for RelatedAccumulator {
    type V = RelatedAcc;

    closed spec fn view(&self) -> RelatedAcc {
        RelatedAcc {
            docid: self.docid@,
            file: self.file@,
            collection: self.collection@,
            score: self.score as nat,
            shared: self.shared_symbols@.dom(),
        }
    }
}

proof fn lemma_find_doc(accs: Seq<RelatedAcc>, docid: Seq<char>, i: int)
    requires
        0 <= i <= accs.len(),
    ensures
        i <= find_doc(accs, docid, i) <= accs.len(),
        find_doc(accs, docid, i) < accs.len() ==> accs[find_doc(accs, docid, i)].docid == docid,
    decreases accs.len() - i,
{
    if i < accs.len() && accs[i].docid != docid {
        lemma_find_doc(accs, docid, i + 1);
    }
}

proof fn lemma_first_outranked(s: Seq<RelatedAcc>, x: RelatedAcc, i: int)
    requires
        0 <= i <= s.len(),
    ensures
        i <= first_outranked(s, x, i) <= s.len(),
    decreases s.len() - i,
{
    if i < s.len() && !ranks_before(x, s[i]) {
        lemma_first_outranked(s, x, i + 1);
    }
}

proof fn lemma_step_scores(accs: Seq<RelatedAcc>, row: RelationView, targets: Set<Seq<char>>, bound: nat)
    requires
        forall|k: int| 0 <= k < accs.len() ==> #[trigger] accs[k].score <= bound,
    ensures
        forall|k: int|
            0 <= k < related_step(accs, row, targets).len() ==> #[trigger] related_step(accs, row, targets)[k].score
                <= bound + 3,
{
    lemma_find_doc(accs, row.docid, 0);
}

/// Whether `name` is one of `targets`.
fn is_target(targets: &Vec<String>, name: &str) -> (r: bool)
    ensures
        r == targets@.map_values(|t: String| t@).to_set().contains(name@),
{
    let ghost views = targets@.map_values(|t: String| t@);
    let mut i: usize = 0;
    while i < targets.len()
        invariant
            i <= targets@.len(),
            views == targets@.map_values(|t: String| t@),
            forall|j: int| 0 <= j < i ==> views[j] != name@,
        decreases targets.len() - i,
    {
        if str_eq(targets[i].as_str(), name) {
            proof {
                assert(views[i as int] == name@);
                assert(views.contains(name@));
            }
            return true;
        }
        i += 1;
    }
    proof {
        if views.contains(name@) {
            let j = choose|j: int| 0 <= j < views.len() && views[j] == name@;
            assert(false);
        }
    }
    false
}

/// Whether one of the edges `es` belongs to the gathered file `a`: same
/// file id, path and collection.
pub open spec fn edge_of(a: RelatedAcc, es: Seq<RelationView>) -> bool {
    exists|j: int| 0 <= j < es.len() && #[trigger] es[j].docid == a.docid && es[j].path == a.file && es[j].collection == a.collection
}

proof fn lemma_step_keeps_edges(accs: Seq<RelatedAcc>, row: RelationView, targets: Set<Seq<char>>, es: Seq<RelationView>)
    requires
        forall|i: int| 0 <= i < accs.len() ==> edge_of(#[trigger] accs[i], es),
        edge_of(
            RelatedAcc { docid: row.docid, file: row.path, collection: row.collection, score: 0, shared: Set::empty() },
            es,
        ),
    ensures
        forall|i: int| 0 <= i < related_step(accs, row, targets).len() ==> edge_of(
            #[trigger] related_step(accs, row, targets)[i],
            es,
        ),
{
    let next = related_step(accs, row, targets);
    lemma_find_doc(accs, row.docid, 0);
    assert forall|i: int| 0 <= i < next.len() implies edge_of(#[trigger] next[i], es) by {
        if targets.contains(row.name) {
            let f = find_doc(accs, row.docid, 0);
            if f < accs.len() {
                assert(edge_of(accs[i], es));
                let j = choose|j: int| 0 <= j < es.len() && #[trigger] es[j].docid == accs[i].docid && es[j].path == accs[i].file
                    && es[j].collection == accs[i].collection;
                assert(es[j].docid == next[i].docid);
            } else if i < accs.len() {
                assert(next[i] == accs[i]);
            } else {
                let j = choose|j: int| 0 <= j < es.len() && #[trigger] es[j].docid == row.docid && es[j].path == row.path
                    && es[j].collection == row.collection;
                assert(es[j].docid == next[i].docid);
            }
        } else {
            assert(next[i] == accs[i]);
        }
    }
}

proof fn lemma_related_accs_edges(rows: Seq<RelationView>, targets: Set<Seq<char>>, n: int, es: Seq<RelationView>)
    requires
        0 <= n <= rows.len(),
        forall|j: int| 0 <= j < n ==> #[trigger] es[j] == rows[j],
        n <= es.len(),
    ensures
        forall|i: int| 0 <= i < related_accs(rows, targets, n).len() ==> edge_of(
            #[trigger] related_accs(rows, targets, n)[i],
            es,
        ),
    decreases n,
{
    if n > 0 {
        lemma_related_accs_edges(rows, targets, n - 1, es);
        let r = rows[n - 1];
        assert(es[n - 1] == r);
        lemma_step_keeps_edges(related_accs(rows, targets, n - 1), r, targets, es);
    }
}

proof fn lemma_gather_edges(
    accs: Seq<RelatedAcc>,
    deps: Seq<RelationView>,
    targets: Set<Seq<char>>,
    m: int,
    es: Seq<RelationView>,
    offset: int,
)
    requires
        0 <= m <= deps.len(),
        0 <= offset,
        offset + m <= es.len(),
        forall|j: int| 0 <= j < m ==> (#[trigger] deps[j]).docid == es[offset + j].docid && deps[j].path == es[offset
            + j].path && deps[j].collection == es[offset + j].collection,
        forall|i: int| 0 <= i < accs.len() ==> edge_of(#[trigger] accs[i], es),
    ensures
        forall|i: int| 0 <= i < gather(accs, deps, targets, m).len() ==> edge_of(
            #[trigger] gather(accs, deps, targets, m)[i],
            es,
        ),
    decreases m,
{
    if m > 0 {
        lemma_gather_edges(accs, deps, targets, m - 1, es, offset);
        let d = deps[m - 1];
        assert(es[offset + m - 1].docid == d.docid);
        lemma_step_keeps_edges(gather(accs, deps, targets, m - 1), d, targets, es);
    }
}

/// Every file ranked as related is a file that one of the edges names, and
/// it carries that edge's path and collection: either an edge of another
/// file that names one of the target's symbols, or a definition in another
/// file of a name the target refers to.
pub proof fn law_related_files_come_from_edges(
    target_symbols: Set<Seq<char>>,
    target_rows: Seq<RelationView>,
    rows: Seq<RelationView>,
    defs: Seq<RelationView>,
)
    ensures
        forall|i: int| 0 <= i < ranked(related_to(target_symbols, target_rows, rows, defs)).len() ==> edge_of(
            #[trigger] ranked(related_to(target_symbols, target_rows, rows, defs))[i],
            rows + defs,
        ),
{
    let es = rows + defs;
    let deps = defs.map_values(|d: RelationView| dependency_edge(d, import_names(target_rows)));
    let start = related_accs(rows, target_symbols, rows.len() as int);
    lemma_related_accs_edges(rows, target_symbols, rows.len() as int, es);
    lemma_gather_edges(start, deps, reference_names(target_rows), deps.len() as int, es, rows.len() as int);
    let all = related_to(target_symbols, target_rows, rows, defs);
    law_ranked_order(all);
    let r = ranked(all);
    assert forall|i: int| 0 <= i < r.len() implies edge_of(#[trigger] r[i], es) by {
        assert(r.contains(r[i]));
        assert(all.contains(r[i]));
        let k = choose|k: int| 0 <= k < all.len() && all[k] == r[i];
        assert(edge_of(all[k], es));
    }
}

/// Whether one of the edges `es` names the file of `hit`, with its path and
/// collection.
pub open spec fn names_file_of(es: Seq<RelationView>, hit: RelatedHit) -> bool {
    exists|j: int| 0 <= j < es.len() && #[trigger] es[j].path == hit.file@ && es[j].collection == hit.collection@
}

/// Counts one edge into the files gathered so far.
fn count_edge(accs: &mut Vec<RelatedAccumulator>, targets: &Vec<String>, row: &RelationRow, Ghost(bound): Ghost<nat>)
    requires
        forall|k: int| 0 <= k < old(accs)@.len() ==> #[trigger] old(accs)@[k]@.score <= bound,
        bound + 3 <= usize::MAX,
    ensures
        final(accs)@.map_values(|a: RelatedAccumulator| a@) == related_step(
            old(accs)@.map_values(|a: RelatedAccumulator| a@),
            row@,
            targets@.map_values(|t: String| t@).to_set(),
        ),
{
    let ghost before = accs@.map_values(|a: RelatedAccumulator| a@);
    let ghost tset = targets@.map_values(|t: String| t@).to_set();
    proof {
        lemma_find_doc(before, row@.docid, 0);
    }
    if is_target(targets, row.name.as_str()) {
        let mut i: usize = 0;
        while i < accs.len() && !str_eq(accs[i].docid.as_str(), row.docid.as_str())
            invariant
                i <= accs@.len(),
                before == accs@.map_values(|a: RelatedAccumulator| a@),
                find_doc(before, row@.docid, 0) == find_doc(before, row@.docid, i as int),
            decreases accs.len() - i,
        {
            assert(before[i as int] == accs@[i as int]@);
            i += 1;
        }
        if i < accs.len() {
            assert(before[i as int] == accs@[i as int]@);
            let weight = relation_weight(row.kind.as_str());
            proof {
                assert(old(accs)@[i as int]@ == before[i as int]);
                assert(old(accs)@[i as int]@.score <= bound);
            }
            let mut acc = accs.remove(i);
            acc.score = acc.score + weight;
            acc.shared_symbols.insert(row.name.clone(), ());
            proof {
                assert(acc.shared_symbols@.dom() =~= before[i as int].shared.insert(row@.name));
            }
            accs.insert(i, acc);
            proof {
                assert(accs@.map_values(|a: RelatedAccumulator| a@) =~= related_step(before, row@, tset));
            }
        } else {
            let mut shared = crate::strmap::StrMap::new();
            shared.insert(row.name.clone(), ());
            let acc = RelatedAccumulator {
                docid: row.docid.clone(),
                file: row.path.clone(),
                collection: row.collection.clone(),
                score: relation_weight(row.kind.as_str()),
                shared_symbols: shared,
            };
            proof {
                assert(acc@.shared =~= set![row@.name]);
            }
            accs.push(acc);
            proof {
                assert(accs@.map_values(|a: RelatedAccumulator| a@) =~= related_step(before, row@, tset));
            }
        }
    }
}

/// Whether one of the target's edges imports `name`.
fn imports_name(target_rows: &Vec<RelationRow>, name: &str) -> (r: bool)
    ensures
        r == import_names(target_rows@.map_values(|t: RelationRow| t@)).contains(name@),
{
    let ghost tv = target_rows@.map_values(|t: RelationRow| t@);
    let mut i: usize = 0;
    while i < target_rows.len()
        invariant
            i <= target_rows@.len(),
            tv == target_rows@.map_values(|t: RelationRow| t@),
            forall|j: int| 0 <= j < i ==> !(#[trigger] tv[j].name == name@ && tv[j].kind == "import"@),
        decreases target_rows.len() - i,
    {
        assert(tv[i as int] == target_rows@[i as int]@);
        if str_eq(target_rows[i].name.as_str(), name) && str_eq(target_rows[i].kind.as_str(), "import") {
            proof {
                assert(tv[i as int].name == name@ && tv[i as int].kind == "import"@);
            }
            return true;
        }
        i += 1;
    }
    false
}

/// The files related to a target: each file holding edges that name one of
/// `target_symbols` (the symbols the target defines) scores the weights of
/// those edges, and each file defining a name that the target's own edges
/// `target_rows` refer to scores the weight of an import for a name the
/// target imports and of a mention otherwise, once per definition. A file
/// lists the names it shares with the target; files come highest score
/// first, then by path.
pub fn rank_related(
    target_symbols: &Vec<String>,
    target_rows: &Vec<RelationRow>,
    rows: &Vec<RelationRow>,
    definitions: &Vec<RelationRow>,
) -> (hits: Vec<RelatedHit>)
    requires
        (rows@.len() + definitions@.len()) * 3 <= usize::MAX,
    ensures
        ({
            let expected = ranked(
                related_to(
                    target_symbols@.map_values(|t: String| t@).to_set(),
                    target_rows@.map_values(|r: RelationRow| r@),
                    rows@.map_values(|r: RelationRow| r@),
                    definitions@.map_values(|r: RelationRow| r@),
                ),
            );
            &&& hits@.len() == expected.len()
            &&& forall|i: int| 0 <= i < hits@.len() ==> reports(#[trigger] hits@[i], expected[i])
        }),
        // Each hit is a file named by one of the edges, with that edge's path and collection.
        forall|i: int| 0 <= i < hits@.len() ==> names_file_of(
            rows@.map_values(|r: RelationRow| r@) + definitions@.map_values(|r: RelationRow| r@),
            #[trigger] hits@[i],
        ),
{
    let ghost targets = target_symbols@.map_values(|t: String| t@).to_set();
    let ghost rv = rows@.map_values(|r: RelationRow| r@);
    let ghost tv = target_rows@.map_values(|r: RelationRow| r@);
    let ghost dv = definitions@.map_values(|r: RelationRow| r@);
    let ghost deps = dv.map_values(|d: RelationView| dependency_edge(d, import_names(tv)));
    let mut accs: Vec<RelatedAccumulator> = Vec::new();
    let mut n: usize = 0;
    while n < rows.len()
        invariant
            n <= rows@.len(),
            (rows@.len() + definitions@.len()) * 3 <= usize::MAX,
            targets == target_symbols@.map_values(|t: String| t@).to_set(),
            rv == rows@.map_values(|r: RelationRow| r@),
            accs@.map_values(|a: RelatedAccumulator| a@) == related_accs(rv, targets, n as int),
            forall|k: int| 0 <= k < accs@.len() ==> #[trigger] accs@[k]@.score <= 3 * n,
        decreases rows.len() - n,
    {
        assert(rv[n as int] == rows@[n as int]@);
        let ghost before = accs@.map_values(|a: RelatedAccumulator| a@);
        count_edge(&mut accs, target_symbols, &rows[n], Ghost((3 * n) as nat));
        proof {
            lemma_step_scores(before, rv[n as int], targets, (3 * n) as nat);
            assert forall|k: int| 0 <= k < accs@.len() implies #[trigger] accs@[k]@.score <= 3 * (n + 1) by {
                assert(accs@[k]@ == accs@.map_values(|a: RelatedAccumulator| a@)[k]);
            }
        }
        n += 1;
    }
    // The names the target refers to.
    let mut names: Vec<String> = Vec::new();
    let mut t: usize = 0;
    while t < target_rows.len()
        invariant
            t <= target_rows@.len(),
            tv == target_rows@.map_values(|r: RelationRow| r@),
            names@.map_values(|s: String| s@) == tv.take(t as int).map_values(|r: RelationView| r.name),
        decreases target_rows.len() - t,
    {
        let ghost old_names = names@.map_values(|s: String| s@);
        names.push(target_rows[t].name.clone());
        proof {
            assert(tv[t as int] == target_rows@[t as int]@);
            assert(tv.take(t + 1) =~= tv.take(t as int).push(tv[t as int]));
            assert(names@.map_values(|s: String| s@) =~= old_names.push(tv[t as int].name));
        }
        t += 1;
    }
    proof {
        assert(tv.take(t as int) =~= tv);
        assert(names@.map_values(|s: String| s@).to_set() == reference_names(tv));
    }
    let ghost start = accs@.map_values(|a: RelatedAccumulator| a@);
    let mut m: usize = 0;
    while m < definitions.len()
        invariant
            m <= definitions@.len(),
            (rows@.len() + definitions@.len()) * 3 <= usize::MAX,
            tv == target_rows@.map_values(|r: RelationRow| r@),
            dv == definitions@.map_values(|r: RelationRow| r@),
            deps == dv.map_values(|d: RelationView| dependency_edge(d, import_names(tv))),
            names@.map_values(|s: String| s@).to_set() == reference_names(tv),
            accs@.map_values(|a: RelatedAccumulator| a@) == gather(start, deps, reference_names(tv), m as int),
            forall|k: int| 0 <= k < accs@.len() ==> #[trigger] accs@[k]@.score <= 3 * (rows@.len() + m),
        decreases definitions.len() - m,
    {
        let def = &definitions[m];
        assert(dv[m as int] == def@);
        let kind = if imports_name(target_rows, def.name.as_str()) {
            "import".to_string()
        } else {
            "mention".to_string()
        };
        let edge = RelationRow {
            docid: def.docid.clone(),
            path: def.path.clone(),
            collection: def.collection.clone(),
            name: def.name.clone(),
            kind,
        };
        proof {
            assert(edge@ == deps[m as int]);
        }
        let ghost before = accs@.map_values(|a: RelatedAccumulator| a@);
        count_edge(&mut accs, &names, &edge, Ghost((3 * (rows@.len() + m)) as nat));
        proof {
            lemma_step_scores(before, edge@, reference_names(tv), (3 * (rows@.len() + m)) as nat);
            assert forall|k: int| 0 <= k < accs@.len() implies #[trigger] accs@[k]@.score <= 3 * (rows@.len() + m + 1) by {
                assert(accs@[k]@ == accs@.map_values(|a: RelatedAccumulator| a@)[k]);
            }
        }
        m += 1;
    }
    proof {
        assert(accs@.map_values(|a: RelatedAccumulator| a@) == related_to(targets, tv, rv, dv));
    }
    // Rank the gathered files.
    let ghost gathered = accs@.map_values(|a: RelatedAccumulator| a@);
    let mut order: Vec<RelatedAccumulator> = Vec::new();
    let mut k: usize = 0;
    let total = accs.len();
    let mut pending = accs;
    // Take the gathered files one at a time from the front.
    while pending.len() > 0
        invariant
            pending@.len() + k == total,
            total == gathered.len(),
            gathered == accs@.map_values(|a: RelatedAccumulator| a@),
            forall|j: int| 0 <= j < pending@.len() ==> #[trigger] pending@[j]@ == gathered[j + k],
            order@.map_values(|a: RelatedAccumulator| a@) == ranked(gathered.take(k as int)),
        decreases pending.len(),
    {
        let x = pending.remove(0);
        let ghost sorted = order@.map_values(|a: RelatedAccumulator| a@);
        assert(x@ == gathered[k as int]);
        let mut p: usize = 0;
        proof {
            lemma_first_outranked(sorted, x@, 0);
        }
        loop
            invariant
                p <= order@.len(),
                sorted == order@.map_values(|a: RelatedAccumulator| a@),
                first_outranked(sorted, x@, 0) == first_outranked(sorted, x@, p as int),
            ensures
                p == first_outranked(sorted, x@, 0),
            decreases order.len() - p,
        {
            if p >= order.len() {
                break;
            }
            assert(sorted[p as int] == order@[p as int]@);
            let y = &order[p];
            let before_y = if x.score != y.score {
                x.score > y.score
            } else {
                let a = chars_of(x.file.as_str());
                let b = chars_of(y.file.as_str());
                crate::strmap::compare_chars(&a, &b) == Some(true)
            };
            if before_y {
                break;
            }
            p += 1;
        }
        order.insert(p, x);
        proof {
            let prefix = gathered.take(k + 1);
            assert(prefix.drop_last() == gathered.take(k as int));
            assert(prefix.last() == gathered[k as int]);
            assert(order@.map_values(|a: RelatedAccumulator| a@) =~= sorted.insert(p as int, x@));
        }
        k += 1;
    }
    proof {
        assert(gathered.take(k as int) == gathered);
    }
    // Report the ranked files.
    let mut hits: Vec<RelatedHit> = Vec::new();
    let ghost expected = order@.map_values(|a: RelatedAccumulator| a@);
    let mut i: usize = 0;
    while i < order.len()
        invariant
            i <= order@.len(),
            expected == order@.map_values(|a: RelatedAccumulator| a@),
            hits@.len() == i,
            forall|j: int| 0 <= j < i ==> reports(#[trigger] hits@[j], expected[j]),
        decreases order.len() - i,
    {
        let acc = &order[i];
        assert(expected[i as int] == acc@);
        let mut names: Vec<String> = Vec::new();
        let count = acc.shared_symbols.len();
        proof {
            use_type_invariant(&acc.shared_symbols);
            acc.shared_symbols.lemma_well_formed();
        }
        let mut j: usize = 0;
        while j < count
            invariant
                j <= count,
                count == acc.shared_symbols.keys().len(),
                names@.map_values(|n: String| n@) == acc.shared_symbols.keys().take(j as int),
            decreases count - j,
        {
            let name = acc.shared_symbols.key_at(j);
            let copy = name.clone();
            let ghost old_names = names@.map_values(|n: String| n@);
            names.push(copy);
            proof {
                assert(copy@ == acc.shared_symbols.keys()[j as int]);
                assert(names@.map_values(|n: String| n@) =~= old_names.push(copy@));
                assert(acc.shared_symbols.keys().take(j + 1) =~= acc.shared_symbols.keys().take(j as int).push(
                    acc.shared_symbols.keys()[j as int],
                ));
            }
            j += 1;
        }
        let hit = RelatedHit {
            file: acc.file.clone(),
            collection: acc.collection.clone(),
            score: acc.score,
            shared_symbols: names,
        };
        proof {
            let keys = acc.shared_symbols.keys();
            assert(keys.take(count as int) == keys);
            assert forall|a: int, b: int| 0 <= a < b < keys.len() implies crate::strmap::lex_lt(#[trigger] keys[a], #[trigger] keys[b]) by {}
            assert(keys.to_set() =~= acc.shared_symbols@.dom()) by {
                assert forall|s: Seq<char>| keys.to_set().contains(s) <==> acc.shared_symbols@.dom().contains(s) by {
                    assert(acc.shared_symbols@.contains_key(s) <==> keys.contains(s));
                }
            }
        }
        hits.push(hit);
        i += 1;
    }
    proof {
        let tsyms = target_symbols@.map_values(|t: String| t@).to_set();
        let tv2 = target_rows@.map_values(|r: RelationRow| r@);
        let rv2 = rows@.map_values(|r: RelationRow| r@);
        let dv2 = definitions@.map_values(|r: RelationRow| r@);
        let es = rv2 + dv2;
        let expected = ranked(related_to(tsyms, tv2, rv2, dv2));
        law_related_files_come_from_edges(tsyms, tv2, rv2, dv2);
        assert forall|i: int| 0 <= i < hits@.len() implies names_file_of(es, #[trigger] hits@[i]) by {
            assert(reports(hits@[i], expected[i]));
            assert(edge_of(expected[i], es));
            let j = choose|j: int| 0 <= j < es.len() && #[trigger] es[j].docid == expected[i].docid && es[j].path
                == expected[i].file && es[j].collection == expected[i].collection;
            assert(es[j].path == hits@[i].file@);
        }
    }
    hits
}

proof fn lemma_ranks_before_transitive(a: RelatedAcc, b: RelatedAcc, c: RelatedAcc)
    requires
        ranks_before(a, b),
        ranks_before(b, c),
    ensures
        ranks_before(a, c),
{
    if a.score == b.score && b.score == c.score {
        crate::strmap::lemma_lex_transitive(a.file, b.file, c.file, 0);
    }
}

/// In ranked order, no file ranks before a file listed ahead of it.
pub open spec fn in_rank_order(s: Seq<RelatedAcc>) -> bool {
    forall|i: int, j: int| 0 <= i < j < s.len() ==> !ranks_before(#[trigger] s[j], #[trigger] s[i])
}

/// Ranking lists every gathered file once and in ranking order: higher
/// scores first, equal scores by path.
pub proof fn law_ranked_order(s: Seq<RelatedAcc>)
    ensures
        ranked(s).len() == s.len(),
        in_rank_order(ranked(s)),
        forall|x: RelatedAcc| #[trigger] ranked(s).contains(x) <==> s.contains(x),
    decreases s.len(),
{
    if s.len() > 0 {
        let rest = s.drop_last();
        let x = s.last();
        law_ranked_order(rest);
        let r = ranked(rest);
        lemma_first_outranked(r, x, 0);
        let p = first_outranked(r, x, 0);
        lemma_first_outranked_spec(r, x, 0);
        let out = r.insert(p, x);
        assert(ranked(s) == out);
        assert forall|i: int, j: int| 0 <= i < j < out.len() implies !ranks_before(#[trigger] out[j], #[trigger] out[i]) by {
            if j < p {
                assert(out[i] == r[i] && out[j] == r[j]);
            } else if j == p {
                assert(out[i] == r[i]);
                assert(!ranks_before(x, r[i]));
            } else if i < p {
                assert(out[i] == r[i] && out[j] == r[j - 1]);
            } else if i == p {
                assert(out[j] == r[j - 1]);
                assert(ranks_before(x, r[p]));
                if ranks_before(r[j - 1], x) {
                    lemma_ranks_before_transitive(r[j - 1], x, r[p]);
                    if j - 1 > p {
                        assert(!ranks_before(r[j - 1], r[p]));
                    } else {
                        assert(!(r[p].score > r[p].score));
                        crate::strmap::lemma_lex_irreflexive(r[p].file, 0);
                    }
                }
            } else {
                assert(out[i] == r[i - 1] && out[j] == r[j - 1]);
            }
        }
        assert forall|y: RelatedAcc| #[trigger] out.contains(y) <==> s.contains(y) by {
            if out.contains(y) {
                let k = choose|k: int| 0 <= k < out.len() && out[k] == y;
                if k == p {
                    assert(s[s.len() - 1] == y);
                } else {
                    let kk = if k < p { k } else { k - 1 };
                    assert(r[kk] == y);
                    assert(r.contains(y));
                    assert(rest.contains(y));
                    let m = choose|m: int| 0 <= m < rest.len() && rest[m] == y;
                    assert(s[m] == y);
                }
            }
            if s.contains(y) {
                let m = choose|m: int| 0 <= m < s.len() && s[m] == y;
                if m == s.len() - 1 {
                    assert(out[p] == y);
                } else {
                    assert(rest[m] == y);
                    assert(rest.contains(y));
                    assert(r.contains(y));
                    let k = choose|k: int| 0 <= k < r.len() && r[k] == y;
                    if k < p {
                        assert(out[k] == y);
                    } else {
                        assert(out[k + 1] == y);
                    }
                }
            }
        }
    }
}

proof fn lemma_first_outranked_spec(s: Seq<RelatedAcc>, x: RelatedAcc, i: int)
    requires
        0 <= i <= s.len(),
    ensures
        forall|k: int| i <= k < first_outranked(s, x, i) ==> !ranks_before(x, #[trigger] s[k]),
        first_outranked(s, x, i) < s.len() ==> ranks_before(x, s[first_outranked(s, x, i)]),
    decreases s.len() - i,
{
    if i < s.len() && !ranks_before(x, s[i]) {
        lemma_first_outranked_spec(s, x, i + 1);
    }
}

} // verus!
