//! The decisions of the command-line front end: which output format a
//! command uses, what a search or show command asks for, and how text is
//! escaped for XML and CSV output.
use vstd::prelude::*;

use crate::index::{is_glob, is_glob_reference, LineSlice, SearchKind, SearchOptions, SymbolMode};
use crate::text::{chars_of, string_from_chars};

verus! {

/// The output flags a command was given.
#[derive(Debug, Clone, Copy, PartialEq, Eq, Structural)]
pub struct OutputFlags {
    pub json: bool,
    pub csv: bool,
    pub md: bool,
    pub xml: bool,
    pub files: bool,
    pub full: bool,
}

/// How results are printed.
#[derive(Debug, Clone, Copy, PartialEq, Eq, Structural)]
pub enum OutputFormat {
    Json,
    Csv,
    Markdown,
    Xml,
    Files,
    Human,
}

/// The format the flags select: CSV, Markdown, XML or a file list when asked
/// for; otherwise JSON when asked for or when output does not go to a
/// terminal, and human-readable output on a terminal.
pub open spec fn format_of(flags: OutputFlags, stdout_is_terminal: bool) -> OutputFormat {
    if flags.csv {
        OutputFormat::Csv
    } else if flags.md {
        OutputFormat::Markdown
    } else if flags.xml {
        OutputFormat::Xml
    } else if flags.files {
        OutputFormat::Files
    } else if flags.json || !stdout_is_terminal {
        OutputFormat::Json
    } else {
        OutputFormat::Human
    }
}

/// The output format for `flags`.
pub fn output_format(flags: OutputFlags, stdout_is_terminal: bool) -> (f: OutputFormat)
    ensures
        f == format_of(flags, stdout_is_terminal),
{
    if flags.csv {
        OutputFormat::Csv
    } else if flags.md {
        OutputFormat::Markdown
    } else if flags.xml {
        OutputFormat::Xml
    } else if flags.files {
        OutputFormat::Files
    } else if flags.json || !stdout_is_terminal {
        OutputFormat::Json
    } else {
        OutputFormat::Human
    }
}

/// The warning an index update gives when it indexed no file.
pub open spec fn empty_index_text() -> Seq<char> {
    "no files were indexed; inspect the collection path, mask and ignore rules"@
}

/// The warning for an index update that indexed `indexed_files` files: one
/// exactly when nothing was indexed.
pub fn empty_index_warning(indexed_files: usize) -> (w: Option<String>)
    ensures
        w is Some <==> indexed_files == 0,
        w matches Some(text) ==> text@ == empty_index_text(),
{
    if indexed_files == 0 {
        Some("no files were indexed; inspect the collection path, mask and ignore rules".to_string())
    } else {
        None
    }
}

/// The hint a search on a terminal gives when it finds nothing.
pub open spec fn no_results_text() -> Seq<char> {
    "no results; try a broader query, or run `sifter index update` after files change"@
}

/// The hint for a search that found `result_count` results printed in
/// `format`: one exactly when nothing was found and the output is for a
/// person at a terminal.
pub fn no_results_hint(result_count: usize, format: OutputFormat) -> (h: Option<String>)
    ensures
        h is Some <==> (result_count == 0 && format == OutputFormat::Human),
        h matches Some(text) ==> text@ == no_results_text(),
{
    if result_count == 0 && format == OutputFormat::Human {
        Some("no results; try a broader query, or run `sifter index update` after files change".to_string())
    } else {
        None
    }
}

/// The arguments of a search command.
pub struct SearchRequest {
    pub query: Option<String>,
    pub semantic: bool,
    pub hybrid: bool,
    pub symbol: Option<String>,
    pub refs: bool,
    pub related: Option<String>,
    pub docs: bool,
    pub code: bool,
    pub full: bool,
    pub files_output: bool,
}

/// What a search command does.
pub enum SearchPlan {
    /// Look a symbol up.
    Symbol { name: String, mode: SymbolMode },
    /// List the files related to a reference.
    Related { reference: String },
    /// Report that vector search is not available, naming the command.
    VectorPending { command: String, query: String },
    /// Run a lexical search; list only the files when `files_only`.
    Lexical { query: String, options: SearchOptions, files_only: bool },
}

/// Why a command cannot run.
#[derive(Debug, PartialEq, Eq)]
pub enum UsageError {
    /// A search without a symbol or related reference needs a query.
    MissingQuery,
    /// `show` needs at least one reference.
    MissingReference,
}

/// The message each usage error is reported with.
pub open spec fn usage_error_text(e: UsageError) -> Seq<char> {
    match e {
        UsageError::MissingQuery => "search requires a query"@,
        UsageError::MissingReference => "show requires at least one reference"@,
    }
}

impl UsageError {
    /// The human-readable message for this error.
    pub fn message(&self) -> (m: String)
        ensures
            m@ == usage_error_text(*self),
    {
        match self {
            UsageError::MissingQuery => "search requires a query".to_string(),
            UsageError::MissingReference => "show requires at least one reference".to_string(),
        }
    }
}

/// What a search command does: a symbol lookup (references when `--refs`,
/// definitions otherwise) if a symbol is given; else related files if a
/// reference is given; else it needs a query, and then reports vector search
/// as pending for `--semantic` and `--hybrid`, and otherwise runs a lexical
/// search restricted to documents for `--docs` or code for `--code`.
pub fn search_plan(req: SearchRequest) -> (r: Result<SearchPlan, UsageError>)
    ensures
        req.symbol matches Some(s) ==> (r matches Ok(SearchPlan::Symbol { name, mode }) && name@ == s@ && mode
            == (if req.refs { SymbolMode::References } else { SymbolMode::Definitions })),
        req.symbol is None && req.related is Some ==> (r matches Ok(SearchPlan::Related { reference })
            && reference@ == req.related->0@),
        req.symbol is None && req.related is None && req.query is None ==> r == Err::<SearchPlan, UsageError>(
            UsageError::MissingQuery,
        ),
        req.symbol is None && req.related is None && req.query is Some ==> {
            let q = req.query->0;
            if req.semantic || req.hybrid {
                r matches Ok(SearchPlan::VectorPending { command, query }) && query@ == q@ && command@ == (if req.semantic {
                    "search --semantic"@
                } else {
                    "search --hybrid"@
                })
            } else {
                r matches Ok(SearchPlan::Lexical { query, options, files_only }) && query@ == q@ && files_only
                    == req.files_output && options.include_full_content == req.full && options.kind == (if req.docs {
                    Some(SearchKind::Doc)
                } else if req.code {
                    Some(SearchKind::Code)
                } else {
                    None
                })
            }
        },
{
    if let Some(name) = req.symbol {
        let mode = if req.refs {
            SymbolMode::References
        } else {
            SymbolMode::Definitions
        };
        return Ok(SearchPlan::Symbol { name, mode });
    }
    if let Some(reference) = req.related {
        return Ok(SearchPlan::Related { reference });
    }
    let query = match req.query {
        Some(q) => q,
        None => {
            return Err(UsageError::MissingQuery);
        },
    };
    if req.semantic {
        return Ok(SearchPlan::VectorPending { command: "search --semantic".to_string(), query });
    }
    if req.hybrid {
        return Ok(SearchPlan::VectorPending { command: "search --hybrid".to_string(), query });
    }
    let kind = if req.docs {
        Some(SearchKind::Doc)
    } else if req.code {
        Some(SearchKind::Code)
    } else {
        None
    };
    Ok(
        SearchPlan::Lexical {
            query,
            options: SearchOptions { kind, include_full_content: req.full },
            files_only: req.files_output,
        },
    )
}

/// What a show command does: fetch one file, or several (by list or glob).
pub struct ShowPlan {
    pub single: bool,
    pub slice: Option<LineSlice>,
}

/// What `show` does with `references`: a single reference that is not a glob
/// is fetched on its own; anything else is fetched as a list. A line limit or
/// line numbering slices each file from its first line.
pub fn show_plan(references: &Vec<String>, max_lines: Option<usize>, line_numbers: bool) -> (r: Result<
    ShowPlan,
    UsageError,
>)
    ensures
        references@.len() == 0 ==> r == Err::<ShowPlan, UsageError>(UsageError::MissingReference),
        references@.len() > 0 ==> (r matches Ok(p) && p.single == (references@.len() == 1 && !is_glob(
            references@[0]@,
        )) && p.slice == (if max_lines is Some || line_numbers {
            Some(LineSlice { start: 1, max_lines: max_lines, line_numbers: line_numbers })
        } else {
            None
        })),
{
    if references.len() == 0 {
        return Err(UsageError::MissingReference);
    }
    let slice = if max_lines.is_some() || line_numbers {
        Some(LineSlice { start: 1, max_lines, line_numbers })
    } else {
        None
    };
    let single = references.len() == 1 && !is_glob_reference(references[0].as_str());
    Ok(ShowPlan { single, slice })
}

// ---------------------------------------------------------------------------
// Escaping

/// `&`, `<` and `>` replaced by their XML entities.
pub open spec fn xml_escaped(s: Seq<char>) -> Seq<char>
    decreases s.len(),
{
    if s.len() == 0 {
        Seq::empty()
    } else {
        let c = s.last();
        xml_escaped(s.drop_last()) + if c == '&' {
            "&amp;"@
        } else if c == '<' {
            "&lt;"@
        } else if c == '>' {
            "&gt;"@
        } else {
            seq![c]
        }
    }
}

/// Escapes text for an XML element.
pub fn xml_escape(input: &str) -> (out: String)
    ensures
        out@ == xml_escaped(input@),
{
    let chars = chars_of(input);
    let mut out = String::new();
    let mut i: usize = 0;
    while i < chars.len()
        invariant
            i <= chars@.len(),
            chars@ == input@,
            out@ == xml_escaped(chars@.take(i as int)),
        decreases chars.len() - i,
    {
        let c = chars[i];
        proof {
            assert(chars@.take(i + 1).drop_last() == chars@.take(i as int));
            assert(chars@.take(i + 1).last() == c);
        }
        if c == '&' {
            out.append("&amp;");
        } else if c == '<' {
            out.append("&lt;");
        } else if c == '>' {
            out.append("&gt;");
        } else {
            let one: Vec<char> = vec![c];
            let s = string_from_chars(one.as_slice());
            proof {
                assert(one@ == seq![c]);
            }
            out.append(s.as_str());
        }
        i += 1;
    }
    proof {
        assert(chars@.take(chars@.len() as int) == chars@);
    }
    out
}

/// Each `"` doubled.
pub open spec fn quotes_doubled(s: Seq<char>) -> Seq<char>
    decreases s.len(),
{
    if s.len() == 0 {
        Seq::empty()
    } else {
        quotes_doubled(s.drop_last()) + if s.last() == '"' {
            seq!['"', '"']
        } else {
            seq![s.last()]
        }
    }
}

/// A CSV cell holding `text`: in double quotes, with inner quotes doubled.
pub fn csv_cell(text: &str) -> (cell: String)
    ensures
        cell@ == seq!['"'] + quotes_doubled(text@) + seq!['"'],
{
    let chars = chars_of(text);
    let mut out: Vec<char> = Vec::new();
    out.push('"');
    let mut i: usize = 0;
    while i < chars.len()
        invariant
            i <= chars@.len(),
            chars@ == text@,
            out@ == seq!['"'] + quotes_doubled(chars@.take(i as int)),
        decreases chars.len() - i,
    {
        let c = chars[i];
        proof {
            assert(chars@.take(i + 1).drop_last() == chars@.take(i as int));
            assert(chars@.take(i + 1).last() == c);
        }
        let ghost before = out@;
        if c == '"' {
            out.push('"');
            out.push('"');
        } else {
            out.push(c);
        }
        proof {
            assert(out@ =~= seq!['"'] + quotes_doubled(chars@.take(i + 1)));
        }
        i += 1;
    }
    out.push('"');
    proof {
        assert(chars@.take(chars@.len() as int) == chars@);
    }
    string_from_chars(out.as_slice())
}

// ---------------------------------------------------------------------------
// CSV and XML layout

/// `parts` joined with `,` between neighbours.
pub open spec fn comma_joined(parts: Seq<Seq<char>>) -> Seq<char>
    decreases parts.len(),
{
    if parts.len() == 0 {
        Seq::empty()
    } else if parts.len() == 1 {
        parts[0]
    } else {
        comma_joined(parts.drop_last()) + seq![','] + parts.last()
    }
}

/// A CSV header line: the column names separated by commas.
pub fn csv_header(headers: &Vec<String>) -> (line: String)
    ensures
        line@ == comma_joined(headers@.map_values(|h: String| h@)),
{
    let ghost hv = headers@.map_values(|h: String| h@);
    let mut line = String::new();
    let mut i: usize = 0;
    while i < headers.len()
        invariant
            i <= headers@.len(),
            hv == headers@.map_values(|h: String| h@),
            line@ == comma_joined(hv.take(i as int)),
        decreases headers.len() - i,
    {
        proof {
            assert(hv.take(i + 1).drop_last() =~= hv.take(i as int));
            assert(hv.take(i + 1).last() == headers@[i as int]@);
        }
        if i > 0 {
            line.append(",");
            proof {
                reveal_strlit(",");
            }
        } else {
            proof {
                assert(line@ =~= Seq::<char>::empty());
            }
        }
        line.append(headers[i].as_str());
        proof {
            assert(line@ =~= comma_joined(hv.take(i + 1)));
        }
        i += 1;
    }
    proof {
        assert(hv.take(i as int) =~= hv);
    }
    line
}

/// A CSV data line: each value in its quoted cell, separated by commas.
pub fn csv_row(values: &Vec<String>) -> (line: String)
    ensures
        line@ == comma_joined(values@.map_values(|v: String| seq!['"'] + quotes_doubled(v@) + seq!['"'])),
{
    let mut cells: Vec<String> = Vec::new();
    let mut i: usize = 0;
    while i < values.len()
        invariant
            i <= values@.len(),
            cells@.len() == i,
            forall|k: int| 0 <= k < i ==> (#[trigger] cells@[k])@ == seq!['"'] + quotes_doubled(values@[k]@) + seq!['"'],
        decreases values.len() - i,
    {
        cells.push(csv_cell(values[i].as_str()));
        i += 1;
    }
    proof {
        assert(cells@.map_values(|c: String| c@) =~= values@.map_values(
            |v: String| seq!['"'] + quotes_doubled(v@) + seq!['"'],
        ));
    }
    csv_header(&cells)
}

/// The opening tag of an element.
pub fn xml_open(tag: &str) -> (line: String)
    ensures
        line@ == seq!['<'] + tag@ + seq!['>'],
{
    let mut line = "<".to_string();
    line.append(tag);
    line.append(">");
    proof {
        reveal_strlit("<");
        reveal_strlit(">");
        assert(line@ =~= seq!['<'] + tag@ + seq!['>']);
    }
    line
}

/// The closing tag of an element.
pub fn xml_close(tag: &str) -> (line: String)
    ensures
        line@ == seq!['<', '/'] + tag@ + seq!['>'],
{
    let mut line = "</".to_string();
    line.append(tag);
    line.append(">");
    proof {
        reveal_strlit("</");
        reveal_strlit(">");
        assert(line@ =~= seq!['<', '/'] + tag@ + seq!['>']);
    }
    line
}

/// An element with no value: `<tag />`.
pub fn xml_empty(tag: &str) -> (line: String)
    ensures
        line@ == seq!['<'] + tag@ + seq![' ', '/', '>'],
{
    let mut line = "<".to_string();
    line.append(tag);
    line.append(" />");
    proof {
        reveal_strlit("<");
        reveal_strlit(" />");
        assert(line@ =~= seq!['<'] + tag@ + seq![' ', '/', '>']);
    }
    line
}

/// An element holding the text `text`, escaped.
pub fn xml_leaf(tag: &str, text: &str) -> (line: String)
    ensures
        line@ == seq!['<'] + tag@ + seq!['>'] + xml_escaped(text@) + seq!['<', '/'] + tag@ + seq!['>'],
{
    let mut line = xml_open(tag);
    let escaped = xml_escape(text);
    line.append(escaped.as_str());
    let close = xml_close(tag);
    line.append(close.as_str());
    proof {
        assert(line@ =~= seq!['<'] + tag@ + seq!['>'] + xml_escaped(text@) + seq!['<', '/'] + tag@ + seq!['>']);
    }
    line
}

} // verus!
