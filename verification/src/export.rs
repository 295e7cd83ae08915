//! Renderers to other formats. Everything here computes text; writing
//! it to disk is the caller's business.

use vstd::prelude::*;
use crate::Error;
use crate::adr::{Adr, AdrView, status_text};
use crate::text::{
    chars_of, extend_chars, is_prefix, join_lines, join_lines_exec, lower_seq, lower_string,
    seq_views, slice_range, split_lines, split_lines_exec, starts_with_chars, str_eq, string_of,
};

verus! {

/// A target format for rendering records.
#[derive(Debug, Clone, Copy, PartialEq, Eq, Structural)]
pub enum ExportFormat {
    /// A word-processor document.
    Docx,
    /// A web page.
    Html,
    /// A structured data document.
    Json,
    /// The record's own markdown.
    Markdown,
}

/// The lower-case name of a format.
pub open spec fn format_text(f: ExportFormat) -> Seq<char> {
    match f {
        ExportFormat::Docx => "docx"@,
        ExportFormat::Html => "html"@,
        ExportFormat::Json => "json"@,
        ExportFormat::Markdown => "markdown"@,
    }
}

/// The format a name denotes, case-insensitively, with the common
/// shorthands.
pub open spec fn format_of_text(s: Seq<char>) -> Option<ExportFormat> {
    let l = lower_seq(s);
    if l == "docx"@ || l == "word"@ {
        Some(ExportFormat::Docx)
    } else if l == "html"@ {
        Some(ExportFormat::Html)
    } else if l == "json"@ {
        Some(ExportFormat::Json)
    } else if l == "markdown"@ || l == "md"@ {
        Some(ExportFormat::Markdown)
    } else {
        None
    }
}

impl ExportFormat {
    /// The lower-case name of this format.
    pub fn to_text(&self) -> (r: String)
        ensures
            r@ == format_text(*self),
    {
        match self {
            ExportFormat::Docx => String::from_str("docx"),
            ExportFormat::Html => String::from_str("html"),
            ExportFormat::Json => String::from_str("json"),
            ExportFormat::Markdown => String::from_str("markdown"),
        }
    }

    /// Parse a format name; an unknown name is the typed error.
    pub fn parse_format(s: &str) -> (r: Result<ExportFormat, Error>)
        ensures
            match r {
                Ok(f) => format_of_text(s@) == Some(f),
                Err(e) => format_of_text(s@) is None && e is InvalidFormat,
            },
    {
        let l = lower_string(s);
        if str_eq(l.as_str(), "docx") || str_eq(l.as_str(), "word") {
            Ok(ExportFormat::Docx)
        } else if str_eq(l.as_str(), "html") {
            Ok(ExportFormat::Html)
        } else if str_eq(l.as_str(), "json") {
            Ok(ExportFormat::Json)
        } else if str_eq(l.as_str(), "markdown") || str_eq(l.as_str(), "md") {
            Ok(ExportFormat::Markdown)
        } else {
            Err(Error::InvalidFormat { format: String::from_str(s) })
        }
    }
}

impl core::str::FromStr for ExportFormat {
    type Err = Error;

    fn from_str(s: &str) -> Result<ExportFormat, Error> {
        ExportFormat::parse_format(s)
    }
}

/// What a batch of renderings produced.
#[derive(Debug)]
pub struct ExportResult {
    /// How many records were rendered.
    pub exported: usize,
    /// Where the renderings went.
    pub files: Vec<String>,
    /// What failed, one message each.
    pub errors: Vec<String>,
}

impl Default for ExportResult {
    /// An empty result.
    fn default() -> (r: Self)
        ensures
            r.exported == 0,
            r.files@.len() == 0,
            r.errors@.len() == 0,
    {
        ExportResult { exported: 0, files: Vec::new(), errors: Vec::new() }
    }
}

/// A JSON character, escaped for a string literal: quotes and
/// backslashes escaped, newlines and other controls as their common
/// short forms, everything else itself.
pub open spec fn json_esc_char(c: char) -> Seq<char> {
    if c == '"' {
        seq!['\\', '"']
    } else if c == '\\' {
        seq!['\\', '\\']
    } else if c == '\n' {
        seq!['\\', 'n']
    } else if c == '\r' {
        seq!['\\', 'r']
    } else if c == '\t' {
        seq!['\\', 't']
    } else {
        seq![c]
    }
}

/// A string's characters, escaped for a JSON string literal.
pub open spec fn json_esc(s: Seq<char>) -> Seq<char>
    decreases s.len(),
{
    if s.len() == 0 {
        Seq::empty()
    } else {
        json_esc_char(s[0]) + json_esc(s.skip(1))
    }
}

/// A JSON string literal.
pub open spec fn json_str(s: Seq<char>) -> Seq<char> {
    seq!['"'] + json_esc(s) + seq!['"']
}

/// Escape a string for a JSON literal.
fn json_esc_exec(s: &str) -> (r: Vec<char>)
    ensures
        r@ == json_esc(s@),
{
    let v = chars_of(s);
    let mut r: Vec<char> = Vec::new();
    let mut i: usize = 0;
    proof {
        assert(v@.skip(0) =~= v@);
        assert(r@ + json_esc(v@.skip(0)) =~= json_esc(v@));
    }
    while i < v.len()
        invariant
            i <= v@.len(),
            v@ == s@,
            json_esc(s@) == r@ + json_esc(v@.skip(i as int)),
        decreases v@.len() - i,
    {
        let c = v[i];
        proof {
            assert(v@.skip(i as int)[0] == v@[i as int]);
            assert(v@.skip(i as int).skip(1) =~= v@.skip(i + 1));
        }
        let ghost pre = r@;
        if c == '"' {
            r.push('\\');
            r.push('"');
        } else if c == '\\' {
            r.push('\\');
            r.push('\\');
        } else if c == '\n' {
            r.push('\\');
            r.push('n');
        } else if c == '\r' {
            r.push('\\');
            r.push('r');
        } else if c == '\t' {
            r.push('\\');
            r.push('t');
        } else {
            r.push(c);
        }
        proof {
            assert(r@ =~= pre + json_esc_char(v@[i as int]));
            assert(json_esc(s@) =~= r@ + json_esc(v@.skip(i + 1)));
        }
        i = i + 1;
    }
    proof {
        assert(v@.skip(v@.len() as int) =~= Seq::<char>::empty());
        assert(json_esc(s@) =~= r@);
    }
    r
}

/// Append a JSON string literal.
fn push_json_str(out: &mut Vec<char>, s: &str)
    ensures
        final(out)@ == old(out)@ + json_str(s@),
{
    out.push('"');
    let e = json_esc_exec(s);
    extend_chars(out, &e);
    out.push('"');
    proof {
        assert(out@ =~= old(out)@ + json_str(s@));
    }
}

/// Append a literal piece.
fn push_lit(out: &mut Vec<char>, s: &str)
    ensures
        final(out)@ == old(out)@ + s@,
{
    let v = chars_of(s);
    extend_chars(out, &v);
}

/// A JSON array of string literals.
pub open spec fn json_str_array(items: Seq<Seq<char>>) -> Seq<char> {
    seq!['['] + json_items(items) + seq![']']
}

/// The comma-separated literals of an array.
pub open spec fn json_items(items: Seq<Seq<char>>) -> Seq<char>
    decreases items.len(),
{
    if items.len() == 0 {
        Seq::empty()
    } else if items.len() == 1 {
        json_str(items[0])
    } else {
        json_str(items[0]) + seq![','] + json_items(items.skip(1))
    }
}

/// Append a JSON array of string literals.
fn push_json_array(out: &mut Vec<char>, items: &Vec<String>)
    ensures
        final(out)@ == old(out)@ + json_str_array(items.deep_view()),
{
    out.push('[');
    let ghost base = out@;
    let mut i: usize = 0;
    proof {
        assert(json_items(items.deep_view().take(0)) =~= Seq::<char>::empty());
        assert(out@ =~= base + json_items(items.deep_view().take(0)));
    }
    while i < items.len()
        invariant
            i <= items@.len(),
            out@ == base + json_items(items.deep_view().take(i as int)),
        decreases items@.len() - i,
    {
        if i > 0 {
            out.push(',');
        }
        push_json_str(out, items[i].as_str());
        proof {
            lemma_json_items_snoc(items.deep_view().take(i as int), items.deep_view()[i as int]);
            assert(items.deep_view().take(i as int).push(items.deep_view()[i as int])
                =~~= items.deep_view().take(i + 1));
            if i == 0 {
                assert(json_items(items.deep_view().take(1)) =~= json_str(
                    items.deep_view()[0],
                ));
                assert(out@ =~= base + json_items(items.deep_view().take(1)));
            } else {
                assert(out@ =~= base + json_items(items.deep_view().take(i + 1)));
            }
        }
        i = i + 1;
    }
    out.push(']');
    proof {
        assert(items.deep_view().take(items@.len() as int) =~~= items.deep_view());
        assert(out@ =~= old(out)@ + json_str_array(items.deep_view()));
    }
}

/// One more item extends the comma-separated literals.
proof fn lemma_json_items_snoc(items: Seq<Seq<char>>, x: Seq<char>)
    ensures
        json_items(items.push(x)) == if items.len() == 0 {
            json_str(x)
        } else {
            json_items(items) + seq![','] + json_str(x)
        },
    decreases items.len(),
{
    let p = items.push(x);
    if items.len() == 0 {
        assert(p[0] == x);
        assert(p.len() == 1);
    } else if items.len() == 1 {
        assert(p[0] == items[0]);
        assert(p.skip(1) =~= seq![x]);
        assert(json_items(p.skip(1)) == json_str(x));
    } else {
        lemma_json_items_snoc(items.skip(1), x);
        assert(p[0] == items[0]);
        assert(p.skip(1) =~= items.skip(1).push(x));
        assert(json_items(items) + seq![','] + json_str(x) =~= json_str(p[0]) + seq![','] + (
        json_items(items.skip(1)) + seq![','] + json_str(x)));
    }
}

/// The JSON document of one record: its identity, status, date, the
/// people involved, and the body.
pub open spec fn json_of(a: AdrView) -> Seq<char> {
    seq!['{'] + "\"id\":"@ + json_str(a.id) + seq![','] + "\"commit\":"@ + json_str(a.commit)
        + seq![','] + "\"title\":"@ + json_str(a.frontmatter.title) + seq![','] + "\"status\":"@
        + json_str(status_text(a.frontmatter.status)) + seq![','] + "\"date\":"@ + (
    match a.frontmatter.date {
        Some(d) => json_str(crate::date::date_only_str(d)),
        None => "null"@,
    }) + seq![','] + "\"tags\":"@ + json_str_array(a.frontmatter.tags) + seq![','] + "\"authors\":"@
        + json_str_array(a.frontmatter.authors) + seq![','] + "\"deciders\":"@ + json_str_array(
        a.frontmatter.deciders,
    ) + seq![','] + "\"body\":"@ + json_str(a.body) + seq!['}']
}

/// Renderer to JSON.
#[derive(Debug)]
pub struct JsonExporter {
    /// Whether output favors readability over compactness. The
    /// rendering itself is one canonical form either way.
    pub pretty: bool,
}

impl JsonExporter {
    /// A renderer with readable output.
    pub fn new() -> (r: JsonExporter)
        ensures
            r.pretty,
    {
        JsonExporter { pretty: true }
    }

    /// The same renderer with compact output.
    pub fn compact(self) -> (r: JsonExporter)
        ensures
            !r.pretty,
    {
        JsonExporter { pretty: false }
    }

    /// Render one record as a JSON document.
    pub fn render(&self, adr: &Adr) -> (r: String)
        ensures
            r@ == json_of(adr@),
    {
        let mut out: Vec<char> = Vec::new();
        out.push('{');
        push_lit(&mut out, "\"id\":");
        push_json_str(&mut out, adr.id.as_str());
        out.push(',');
        push_lit(&mut out, "\"commit\":");
        push_json_str(&mut out, adr.commit.as_str());
        out.push(',');
        push_lit(&mut out, "\"title\":");
        push_json_str(&mut out, adr.frontmatter.title.as_str());
        out.push(',');
        push_lit(&mut out, "\"status\":");
        let st = adr.frontmatter.status.to_text();
        push_json_str(&mut out, st.as_str());
        out.push(',');
        push_lit(&mut out, "\"date\":");
        match &adr.frontmatter.date {
            Some(d) => {
                let dv = crate::date::render_date_only(d);
                let ds = string_of(&dv);
                push_json_str(&mut out, ds.as_str());
            },
            None => {
                push_lit(&mut out, "null");
            },
        }
        out.push(',');
        push_lit(&mut out, "\"tags\":");
        push_json_array(&mut out, &adr.frontmatter.tags);
        out.push(',');
        push_lit(&mut out, "\"authors\":");
        push_json_array(&mut out, &adr.frontmatter.authors);
        out.push(',');
        push_lit(&mut out, "\"deciders\":");
        push_json_array(&mut out, &adr.frontmatter.deciders);
        out.push(',');
        push_lit(&mut out, "\"body\":");
        push_json_str(&mut out, adr.body.as_str());
        out.push('}');
        proof {
            assert(out@ =~= json_of(adr@));
        }
        string_of(&out)
    }
}

/// One line of markdown turned into its HTML element.
pub open spec fn html_line(l: Seq<char>) -> Seq<char> {
    if is_prefix("# "@, l) {
        "<h1>"@ + l.skip(2) + "</h1>"@
    } else if is_prefix("## "@, l) {
        "<h2>"@ + l.skip(3) + "</h2>"@
    } else if is_prefix("### "@, l) {
        "<h3>"@ + l.skip(4) + "</h3>"@
    } else if is_prefix("- "@, l) {
        "<li>"@ + l.skip(2) + "</li>"@
    } else if l.len() == 0 {
        l
    } else {
        "<p>"@ + l + "</p>"@
    }
}

/// A markdown text as line-by-line HTML.
pub open spec fn html_of(s: Seq<char>) -> Seq<char> {
    join_lines(split_lines(s).map_values(|l: Seq<char>| html_line(l)))
}

/// Renderer to HTML.
#[derive(Debug)]
pub struct HtmlExporter {
    /// Whether the page carries inline styling.
    pub include_style: bool,
    /// Whether a batch rendering also produces an index page.
    pub generate_index: bool,
}

impl HtmlExporter {
    /// A renderer with styling and an index page.
    pub fn new() -> (r: HtmlExporter)
        ensures
            r.include_style,
            r.generate_index,
    {
        HtmlExporter { include_style: true, generate_index: true }
    }

    /// The same renderer without inline styling.
    pub fn without_style(self) -> (r: HtmlExporter)
        ensures
            !r.include_style,
            r.generate_index == self.generate_index,
    {
        HtmlExporter { include_style: false, ..self }
    }

    /// The same renderer without an index page.
    pub fn without_index(self) -> (r: HtmlExporter)
        ensures
            r.include_style == self.include_style,
            !r.generate_index,
    {
        HtmlExporter { generate_index: false, ..self }
    }

    /// Turn markdown into simple line-by-line HTML: headings, list
    /// items, and paragraphs.
    pub fn markdown_to_html(&self, content: &str) -> (r: String)
        ensures
            r@ == html_of(content@),
    {
        let cv = chars_of(content);
        let lines = split_lines_exec(&cv);
        let mut out: Vec<Vec<char>> = Vec::new();
        let mut i: usize = 0;
        let ghost mapped = split_lines(content@).map_values(|l: Seq<char>| html_line(l));
        proof {
            assert(seq_views(out@) =~~= mapped.take(0));
        }
        while i < lines.len()
            invariant
                i <= lines@.len(),
                seq_views(lines@) == split_lines(content@),
                mapped == split_lines(content@).map_values(|l: Seq<char>| html_line(l)),
                seq_views(out@) == mapped.take(i as int),
            decreases lines@.len() - i,
        {
            let line = &lines[i];
            let h1 = chars_of("# ");
            let h2 = chars_of("## ");
            let h3 = chars_of("### ");
            let li = chars_of("- ");
            let mut piece: Vec<char> = Vec::new();
            if starts_with_chars(line, &h3) {
                push_lit(&mut piece, "<h3>");
                let rest = slice_range(line, h3.len(), line.len());
                extend_chars(&mut piece, &rest);
                push_lit(&mut piece, "</h3>");
                proof {
                    reveal_strlit("### ");
                    assert(rest@ =~= lines@[i as int]@.skip(4));
                    assert(!is_prefix("# "@, lines@[i as int]@)) by {
                        reveal_strlit("# ");
                        reveal_strlit("### ");
                        assert(lines@[i as int]@.subrange(0, 4)[1] == lines@[i as int]@[1]);
                        if is_prefix("# "@, lines@[i as int]@) {
                            assert(lines@[i as int]@.subrange(0, 2)[1] == lines@[i as int]@[1]);
                        }
                    }
                    assert(!is_prefix("## "@, lines@[i as int]@)) by {
                        reveal_strlit("## ");
                        reveal_strlit("### ");
                        assert(lines@[i as int]@.subrange(0, 4)[2] == lines@[i as int]@[2]);
                        if is_prefix("## "@, lines@[i as int]@) {
                            assert(lines@[i as int]@.subrange(0, 3)[2] == lines@[i as int]@[2]);
                        }
                    }
                    reveal_strlit("<h3>");
                    reveal_strlit("</h3>");
                    assert(piece@ =~= html_line(lines@[i as int]@));
                }
            } else if starts_with_chars(line, &h2) {
                push_lit(&mut piece, "<h2>");
                let rest = slice_range(line, h2.len(), line.len());
                extend_chars(&mut piece, &rest);
                push_lit(&mut piece, "</h2>");
                proof {
                    reveal_strlit("## ");
                    assert(rest@ =~= lines@[i as int]@.skip(3));
                    assert(!is_prefix("# "@, lines@[i as int]@)) by {
                        reveal_strlit("# ");
                        reveal_strlit("## ");
                        assert(lines@[i as int]@.subrange(0, 3)[1] == lines@[i as int]@[1]);
                        if is_prefix("# "@, lines@[i as int]@) {
                            assert(lines@[i as int]@.subrange(0, 2)[1] == lines@[i as int]@[1]);
                        }
                    }
                    reveal_strlit("<h2>");
                    reveal_strlit("</h2>");
                    assert(piece@ =~= html_line(lines@[i as int]@));
                }
            } else if starts_with_chars(line, &h1) {
                push_lit(&mut piece, "<h1>");
                let rest = slice_range(line, h1.len(), line.len());
                extend_chars(&mut piece, &rest);
                push_lit(&mut piece, "</h1>");
                proof {
                    reveal_strlit("# ");
                    assert(rest@ =~= lines@[i as int]@.skip(2));
                    reveal_strlit("<h1>");
                    reveal_strlit("</h1>");
                    assert(piece@ =~= html_line(lines@[i as int]@));
                }
            } else if starts_with_chars(line, &li) {
                push_lit(&mut piece, "<li>");
                let rest = slice_range(line, li.len(), line.len());
                extend_chars(&mut piece, &rest);
                push_lit(&mut piece, "</li>");
                proof {
                    reveal_strlit("- ");
                    assert(rest@ =~= lines@[i as int]@.skip(2));
                    assert(!is_prefix("# "@, lines@[i as int]@)) by {
                        reveal_strlit("# ");
                        reveal_strlit("- ");
                        assert(lines@[i as int]@.subrange(0, 2)[0] == lines@[i as int]@[0]);
                        if is_prefix("# "@, lines@[i as int]@) {
                            assert(lines@[i as int]@.subrange(0, 2)[0] == lines@[i as int]@[0]);
                        }
                    }
                    reveal_strlit("<li>");
                    reveal_strlit("</li>");
                    assert(piece@ =~= html_line(lines@[i as int]@));
                }
            } else if line.len() == 0 {
                proof {
                    assert(piece@ =~= html_line(lines@[i as int]@));
                }
            } else {
                push_lit(&mut piece, "<p>");
                let rest = slice_range(line, 0, line.len());
                extend_chars(&mut piece, &rest);
                push_lit(&mut piece, "</p>");
                proof {
                    assert(rest@ =~= lines@[i as int]@);
                    reveal_strlit("<p>");
                    reveal_strlit("</p>");
                    assert(piece@ =~= html_line(lines@[i as int]@));
                }
            }
            let ghost pre = out@;
            out.push(piece);
            i = i + 1;
            proof {
                assert(seq_views(out@) =~~= seq_views(pre).push(html_line(lines@[i - 1]@)));
                assert(mapped.take(i as int) =~~= mapped.take(i - 1).push(mapped[i - 1]));
                assert(seq_views(out@) =~~= mapped.take(i as int));
            }
        }
        proof {
            assert(mapped.take(lines@.len() as int) =~~= mapped);
            assert(out@.len() >= 1);
        }
        let joined = join_lines_exec(&out);
        string_of(&joined)
    }
}

/// Renderer to a word-processor document. The binary document format
/// itself is not produced by this crate; the renderer carries only the
/// options a front end needs.
#[derive(Debug)]
pub struct DocxExporter {
    /// Whether the metadata block is included in the output.
    pub include_frontmatter: bool,
}

impl DocxExporter {
    /// A renderer without the metadata block.
    pub fn new() -> (r: DocxExporter)
        ensures
            !r.include_frontmatter,
    {
        DocxExporter { include_frontmatter: false }
    }

    /// The same renderer with the metadata block included.
    pub fn with_frontmatter(self) -> (r: DocxExporter)
        ensures
            r.include_frontmatter,
    {
        DocxExporter { include_frontmatter: true }
    }
}

} // verus!