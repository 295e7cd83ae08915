//! The record data model: status, links, frontmatter metadata, and the
//! record itself, with its markdown (de)serialization.
//!
//! A record document is a frontmatter block delimited by `---` lines —
//! a key/value block holding the metadata — followed by a blank line
//! and the free-text body. The codec here is the crate's own: its
//! grammar covers scalar fields (plain or quoted), block lists for
//! tags, authors and deciders, two-field list items for links, and
//! open extension keys kept verbatim. Field-level round-tripping is
//! proved in [`lemma_markdown_round_trip`].

use vstd::prelude::*;
use crate::Error;
use crate::date::{parse_date_spec, date_only_str, FlexibleDate};
use crate::text::{
    chars_of, string_of, chars_eq, str_eq, lower_string, lower_seq, eq_ignore_case, is_space,
    leading_spaces, trailing_spaces, trim_spec, trim_chars, split_lines, join_lines, split_lines_exec,
    join_lines_exec, line_ok, lines_ok, seq_views, is_prefix, starts_with_chars, slice_range,
    extend_chars,
};

verus! {

/// Status of a record.
#[derive(Debug, Clone, Copy, PartialEq, Eq, Hash, Structural)]
pub enum AdrStatus {
    /// Proposed but not yet accepted.
    Proposed,
    /// Accepted.
    Accepted,
    /// Deprecated.
    Deprecated,
    /// Superseded by another record.
    Superseded,
    /// Rejected.
    Rejected,
}

impl Default for AdrStatus {
    /// The default status of a fresh record.
    fn default() -> (r: Self)
        ensures
            r == AdrStatus::Proposed,
    {
        AdrStatus::Proposed
    }
}

/// The lower-case text of a status.
pub open spec fn status_text(s: AdrStatus) -> Seq<char> {
    match s {
        AdrStatus::Proposed => "proposed"@,
        AdrStatus::Accepted => "accepted"@,
        AdrStatus::Deprecated => "deprecated"@,
        AdrStatus::Superseded => "superseded"@,
        AdrStatus::Rejected => "rejected"@,
    }
}

/// The status a piece of text denotes, matched case-insensitively.
pub open spec fn status_of_text(s: Seq<char>) -> Option<AdrStatus> {
    if eq_ignore_case(s, "proposed"@) {
        Some(AdrStatus::Proposed)
    } else if eq_ignore_case(s, "accepted"@) {
        Some(AdrStatus::Accepted)
    } else if eq_ignore_case(s, "deprecated"@) {
        Some(AdrStatus::Deprecated)
    } else if eq_ignore_case(s, "superseded"@) {
        Some(AdrStatus::Superseded)
    } else if eq_ignore_case(s, "rejected"@) {
        Some(AdrStatus::Rejected)
    } else {
        None
    }
}

/// The status a piece of text denotes when it must be exactly the
/// lower-case form, as the frontmatter block requires.
pub open spec fn status_of_exact(s: Seq<char>) -> Option<AdrStatus> {
    if s == "proposed"@ {
        Some(AdrStatus::Proposed)
    } else if s == "accepted"@ {
        Some(AdrStatus::Accepted)
    } else if s == "deprecated"@ {
        Some(AdrStatus::Deprecated)
    } else if s == "superseded"@ {
        Some(AdrStatus::Superseded)
    } else if s == "rejected"@ {
        Some(AdrStatus::Rejected)
    } else {
        None
    }
}

impl AdrStatus {
    /// The lower-case text of this status.
    pub fn to_text(&self) -> (r: String)
        ensures
            r@ == status_text(*self),
    {
        match self {
            AdrStatus::Proposed => String::from_str("proposed"),
            AdrStatus::Accepted => String::from_str("accepted"),
            AdrStatus::Deprecated => String::from_str("deprecated"),
            AdrStatus::Superseded => String::from_str("superseded"),
            AdrStatus::Rejected => String::from_str("rejected"),
        }
    }

    /// Parse a status from text, case-insensitively; unknown text is an
    /// [`Error::InvalidStatus`] listing the valid values.
    pub fn parse_status(s: &str) -> (r: Result<AdrStatus, Error>)
        ensures
            match r {
                Ok(st) => status_of_text(s@) == Some(st),
                Err(e) => status_of_text(s@) is None && (e matches Error::InvalidStatus {
                    status,
                    valid,
                } && status@ == s@ && valid.deep_view() == seq![
                    "proposed"@,
                    "accepted"@,
                    "deprecated"@,
                    "superseded"@,
                    "rejected"@,
                ]),
            },
    {
        proof {
            lemma_status_literals_lower();
        }
        let low = lower_string(s);
        if str_eq(low.as_str(), "proposed") {
            Ok(AdrStatus::Proposed)
        } else if str_eq(low.as_str(), "accepted") {
            Ok(AdrStatus::Accepted)
        } else if str_eq(low.as_str(), "deprecated") {
            Ok(AdrStatus::Deprecated)
        } else if str_eq(low.as_str(), "superseded") {
            Ok(AdrStatus::Superseded)
        } else if str_eq(low.as_str(), "rejected") {
            Ok(AdrStatus::Rejected)
        } else {
            let mut valid: Vec<String> = Vec::new();
            valid.push(String::from_str("proposed"));
            valid.push(String::from_str("accepted"));
            valid.push(String::from_str("deprecated"));
            valid.push(String::from_str("superseded"));
            valid.push(String::from_str("rejected"));
            proof {
                assert(valid.deep_view() =~~= seq![
                    "proposed"@,
                    "accepted"@,
                    "deprecated"@,
                    "superseded"@,
                    "rejected"@,
                ]);
            }
            Err(Error::InvalidStatus { status: String::from_str(s), valid })
        }
    }

    /// The exactly-lower-case reading used by the frontmatter block.
    pub fn parse_exact(s: &str) -> (r: Option<AdrStatus>)
        ensures
            r == status_of_exact(s@),
    {
        if str_eq(s, "proposed") {
            Some(AdrStatus::Proposed)
        } else if str_eq(s, "accepted") {
            Some(AdrStatus::Accepted)
        } else if str_eq(s, "deprecated") {
            Some(AdrStatus::Deprecated)
        } else if str_eq(s, "superseded") {
            Some(AdrStatus::Superseded)
        } else if str_eq(s, "rejected") {
            Some(AdrStatus::Rejected)
        } else {
            None
        }
    }
}

/// The five status words are already lower-case.
proof fn lemma_status_literals_lower()
    ensures
        lower_seq("proposed"@) == "proposed"@,
        lower_seq("accepted"@) == "accepted"@,
        lower_seq("deprecated"@) == "deprecated"@,
        lower_seq("superseded"@) == "superseded"@,
        lower_seq("rejected"@) == "rejected"@,
{
    reveal_strlit("proposed");
    reveal_strlit("accepted");
    reveal_strlit("deprecated");
    reveal_strlit("superseded");
    reveal_strlit("rejected");
    assert(lower_seq("proposed"@) =~= "proposed"@);
    assert(lower_seq("accepted"@) =~= "accepted"@);
    assert(lower_seq("deprecated"@) =~= "deprecated"@);
    assert(lower_seq("superseded"@) =~= "superseded"@);
    assert(lower_seq("rejected"@) =~= "rejected"@);
}

impl core::str::FromStr for AdrStatus {
    type Err = Error;

    fn from_str(s: &str) -> Result<AdrStatus, Error> {
        AdrStatus::parse_status(s)
    }
}

/// A typed relation to another record.
#[derive(Debug, Clone, PartialEq, Eq)]
pub struct AdrLink {
    /// The kind of relationship.
    pub rel: String,
    /// The id of the related record.
    pub target: String,
}

/// The mathematical image of a link.
#[verifier::ext_equal]
pub struct LinkView {
    pub rel: Seq<char>,
    pub target: Seq<char>,
}

impl View for AdrLink {
    type V = LinkView;

    open spec fn view(&self) -> LinkView {
        LinkView { rel: self.rel@, target: self.target@ }
    }
}

/// Frontmatter metadata of a record.
#[derive(Debug, Clone)]
pub struct AdrFrontmatter {
    /// The record id, when the document names one.
    pub id: Option<String>,
    /// The record title.
    pub title: String,
    /// The current status.
    pub status: AdrStatus,
    /// When the record was made.
    pub date: Option<FlexibleDate>,
    /// Tags for categorization, in order.
    pub tags: Vec<String>,
    /// Authors.
    pub authors: Vec<String>,
    /// Decision makers.
    pub deciders: Vec<String>,
    /// Relations to other records.
    pub links: Vec<AdrLink>,
    /// The record's body format name.
    pub format: Option<String>,
    /// Id of a record this one supersedes.
    pub supersedes: Option<String>,
    /// Id of the record that superseded this one.
    pub superseded_by: Option<String>,
    /// Open extension keys, kept verbatim in order.
    pub custom: Vec<(String, String)>,
}

/// The mathematical image of the frontmatter.
#[verifier::ext_equal]
pub struct FmView {
    pub id: Option<Seq<char>>,
    pub title: Seq<char>,
    pub status: AdrStatus,
    pub date: Option<FlexibleDate>,
    pub tags: Seq<Seq<char>>,
    pub authors: Seq<Seq<char>>,
    pub deciders: Seq<Seq<char>>,
    pub links: Seq<LinkView>,
    pub format: Option<Seq<char>>,
    pub supersedes: Option<Seq<char>>,
    pub superseded_by: Option<Seq<char>>,
    pub custom: Seq<(Seq<char>, Seq<char>)>,
}

/// The view of an optional string.
pub open spec fn opt_view(o: Option<String>) -> Option<Seq<char>> {
    match o {
        Some(s) => Some(s@),
        None => None,
    }
}

impl View for AdrFrontmatter {
    type V = FmView;

    open spec fn view(&self) -> FmView {
        FmView {
            id: opt_view(self.id),
            title: self.title@,
            status: self.status,
            date: self.date,
            tags: self.tags.deep_view(),
            authors: self.authors.deep_view(),
            deciders: self.deciders.deep_view(),
            links: self.links@.map_values(|l: AdrLink| l@),
            format: opt_view(self.format),
            supersedes: opt_view(self.supersedes),
            superseded_by: opt_view(self.superseded_by),
            custom: self.custom@.map_values(|p: (String, String)| (p.0@, p.1@)),
        }
    }
}

/// A decision record.
#[derive(Debug, Clone)]
pub struct Adr {
    /// The record id.
    pub id: String,
    /// The revision the record is attached to.
    pub commit: String,
    /// The metadata block.
    pub frontmatter: AdrFrontmatter,
    /// The free-text body.
    pub body: String,
}

/// The mathematical image of a record.
#[verifier::ext_equal]
pub struct AdrView {
    pub id: Seq<char>,
    pub commit: Seq<char>,
    pub frontmatter: FmView,
    pub body: Seq<char>,
}

impl View for Adr {
    type V = AdrView;

    open spec fn view(&self) -> AdrView {
        AdrView { id: self.id@, commit: self.commit@, frontmatter: self.frontmatter@, body: self.body@ }
    }
}

// ---------------------------------------------------------------------
// Serialization: the frontmatter block as a sequence of lines.
// ---------------------------------------------------------------------
/// The delimiter line of the frontmatter block.
pub open spec fn dashes() -> Seq<char> {
    seq!['-', '-', '-']
}

/// A `key: value` line.
pub open spec fn kv_line(k: Seq<char>, v: Seq<char>) -> Seq<char> {
    k + seq![':', ' '] + v
}

/// The line (or no line) of an optional scalar field.
pub open spec fn opt_lines(k: Seq<char>, o: Option<Seq<char>>) -> Seq<Seq<char>> {
    match o {
        Some(v) => seq![kv_line(k, v)],
        None => Seq::empty(),
    }
}

/// The lines of a block list: the bare key, then one `- item` line each.
/// An empty list contributes no lines.
pub open spec fn list_lines(k: Seq<char>, items: Seq<Seq<char>>) -> Seq<Seq<char>> {
    if items.len() == 0 {
        Seq::empty()
    } else {
        seq![k + seq![':']] + items.map_values(|it: Seq<char>| seq!['-', ' '] + it)
    }
}

/// The two lines of one link item.
pub open spec fn link_item_lines(l: LinkView) -> Seq<Seq<char>> {
    seq![seq!['-', ' '] + kv_line("rel"@, l.rel), seq![' ', ' '] + kv_line("target"@, l.target)]
}

/// The lines of the links list.
pub open spec fn link_lines(links: Seq<LinkView>) -> Seq<Seq<char>> {
    if links.len() == 0 {
        Seq::empty()
    } else {
        seq!["links"@ + seq![':']] + links.map_values(|l: LinkView| link_item_lines(l)).flatten()
    }
}

/// The lines of the open extension keys, kept verbatim.
pub open spec fn custom_lines(cs: Seq<(Seq<char>, Seq<char>)>) -> Seq<Seq<char>> {
    cs.map_values(|p: (Seq<char>, Seq<char>)| kv_line(p.0, p.1))
}

/// The line (or no line) of the date field, in date-only form.
pub open spec fn date_lines(o: Option<FlexibleDate>) -> Seq<Seq<char>> {
    match o {
        Some(d) => seq![kv_line("date"@, date_only_str(d))],
        None => Seq::empty(),
    }
}

/// Every line of the frontmatter block, in emission order.
pub open spec fn fm_lines(fm: FmView) -> Seq<Seq<char>> {
    opt_lines("id"@, fm.id) + seq![kv_line("title"@, fm.title)] + seq![
        kv_line("status"@, status_text(fm.status)),
    ] + date_lines(fm.date) + list_lines("tags"@, fm.tags) + list_lines("authors"@, fm.authors)
        + list_lines("deciders"@, fm.deciders) + link_lines(fm.links) + opt_lines(
        "format"@,
        fm.format,
    ) + opt_lines("supersedes"@, fm.supersedes) + opt_lines("superseded_by"@, fm.superseded_by)
        + custom_lines(fm.custom)
}

/// Every line of the full document: delimiters, metadata, a blank
/// separator, and the body's own lines.
pub open spec fn doc_lines(fm: FmView, body: Seq<char>) -> Seq<Seq<char>> {
    seq![dashes()] + fm_lines(fm) + seq![dashes(), Seq::<char>::empty()] + split_lines(body)
}

/// The rendered markdown document of a record.
pub open spec fn adr_markdown(fm: FmView, body: Seq<char>) -> Seq<char> {
    join_lines(doc_lines(fm, body))
}

/// Build a `key: value` line.
fn kv_line_exec(k: &Vec<char>, v: &Vec<char>) -> (r: Vec<char>)
    ensures
        r@ == kv_line(k@, v@),
{
    let mut r = slice_range(k, 0, k.len());
    proof {
        assert(r@ =~= k@);
    }
    r.push(':');
    r.push(' ');
    extend_chars(&mut r, v);
    proof {
        assert(r@ =~= kv_line(k@, v@));
    }
    r
}

/// Push the lines of one optional scalar field.
fn push_opt_lines(out: &mut Vec<Vec<char>>, k: &Vec<char>, o: &Option<String>)
    ensures
        seq_views(final(out)@) == seq_views(old(out)@) + opt_lines(k@, opt_view(*o)),
{
    match o {
        Some(s) => {
            let v = chars_of(s.as_str());
            let line = kv_line_exec(k, &v);
            out.push(line);
            proof {
                assert(seq_views(out@) =~~= seq_views(old(out)@) + opt_lines(k@, opt_view(*o)));
            }
        },
        None => {
            proof {
                assert(seq_views(out@) =~~= seq_views(old(out)@) + opt_lines(k@, opt_view(*o)));
            }
        },
    }
}

/// Push the lines of one block list.
fn push_list_lines(out: &mut Vec<Vec<char>>, k: &Vec<char>, items: &Vec<String>)
    ensures
        seq_views(final(out)@) == seq_views(old(out)@) + list_lines(k@, items.deep_view()),
{
    if items.len() == 0 {
        proof {
            assert(items.deep_view().len() == 0);
            assert(seq_views(out@) =~~= seq_views(old(out)@) + list_lines(k@, items.deep_view()));
        }
        return ;
    }
    let mut keyline = slice_range(k, 0, k.len());
    proof {
        assert(keyline@ =~= k@);
    }
    keyline.push(':');
    out.push(keyline);
    let ghost mapped = items.deep_view().map_values(|it: Seq<char>| seq!['-', ' '] + it);
    let mut i: usize = 0;
    proof {
        assert(seq_views(out@) =~~= seq_views(old(out)@) + seq![k@ + seq![':']] + mapped.take(0));
    }
    while i < items.len()
        invariant
            i <= items@.len(),
            items@.len() >= 1,
            mapped == items.deep_view().map_values(|it: Seq<char>| seq!['-', ' '] + it),
            seq_views(out@) == seq_views(old(out)@) + seq![k@ + seq![':']] + mapped.take(i as int),
        decreases items@.len() - i,
    {
        let mut line: Vec<char> = Vec::new();
        line.push('-');
        line.push(' ');
        let item = chars_of(items[i].as_str());
        extend_chars(&mut line, &item);
        proof {
            assert(line@ =~= mapped[i as int]);
        }
        let ghost pre = out@;
        out.push(line);
        i = i + 1;
        proof {
            assert(seq_views(out@) =~~= seq_views(pre).push(mapped[i - 1]));
            assert(mapped.take(i as int) =~= mapped.take(i - 1).push(mapped[i - 1]));
            assert(seq_views(out@) =~~= seq_views(old(out)@) + seq![k@ + seq![':']] + mapped.take(
                i as int,
            ));
        }
    }
    proof {
        assert(mapped.take(items@.len() as int) =~= mapped);
        assert(seq_views(out@) =~~= seq_views(old(out)@) + list_lines(k@, items.deep_view()));
    }
}

/// Push the lines of the links list.
fn push_link_lines(out: &mut Vec<Vec<char>>, links: &Vec<AdrLink>)
    ensures
        seq_views(final(out)@) == seq_views(old(out)@) + link_lines(
            links@.map_values(|l: AdrLink| l@),
        ),
{
    let ghost lviews = links@.map_values(|l: AdrLink| l@);
    if links.len() == 0 {
        proof {
            assert(seq_views(out@) =~~= seq_views(old(out)@) + link_lines(lviews));
        }
        return ;
    }
    let mut keyline = chars_of("links");
    proof {
        reveal_strlit("links");
    }
    keyline.push(':');
    out.push(keyline);
    let ghost mapped = lviews.map_values(|l: LinkView| link_item_lines(l));
    let mut i: usize = 0;
    proof {
        assert(mapped.take(0).flatten() =~~= Seq::<Seq<char>>::empty());
        assert(seq_views(out@) =~~= seq_views(old(out)@) + seq!["links"@ + seq![':']] + mapped.take(
            0,
        ).flatten());
    }
    while i < links.len()
        invariant
            i <= links@.len(),
            links@.len() >= 1,
            lviews == links@.map_values(|l: AdrLink| l@),
            mapped == lviews.map_values(|l: LinkView| link_item_lines(l)),
            seq_views(out@) == seq_views(old(out)@) + seq!["links"@ + seq![':']] + mapped.take(
                i as int,
            ).flatten(),
        decreases links@.len() - i,
    {
        let mut rel_line: Vec<char> = Vec::new();
        rel_line.push('-');
        rel_line.push(' ');
        let relk = chars_of("rel");
        let relv = chars_of(links[i].rel.as_str());
        let rkv = kv_line_exec(&relk, &relv);
        extend_chars(&mut rel_line, &rkv);
        let mut tgt_line: Vec<char> = Vec::new();
        tgt_line.push(' ');
        tgt_line.push(' ');
        let tk = chars_of("target");
        let tv = chars_of(links[i].target.as_str());
        let tkv = kv_line_exec(&tk, &tv);
        extend_chars(&mut tgt_line, &tkv);
        proof {
            assert(rel_line@ =~= link_item_lines(lviews[i as int])[0]);
            assert(tgt_line@ =~= link_item_lines(lviews[i as int])[1]);
        }
        let ghost pre = out@;
        out.push(rel_line);
        out.push(tgt_line);
        i = i + 1;
        proof {
            assert(seq_views(out@) =~~= seq_views(pre).push(link_item_lines(lviews[i - 1])[0]).push(
                link_item_lines(lviews[i - 1])[1],
            ));
            assert(mapped.take(i as int) =~= mapped.take(i - 1).push(mapped[i - 1]));
            vstd::seq_lib::lemma_flatten_concat(mapped.take(i - 1), seq![mapped[i - 1]]);
            assert(mapped.take(i - 1) + seq![mapped[i - 1]] =~= mapped.take(i as int));
            seq![mapped[i - 1]].lemma_flatten_one_element();
            assert(seq![mapped[i - 1]].flatten() =~~= mapped[i - 1]);
            assert(seq_views(out@) =~~= seq_views(old(out)@) + seq!["links"@ + seq![':']]
                + mapped.take(i as int).flatten());
        }
    }
    proof {
        assert(mapped.take(links@.len() as int) =~~= mapped);
        assert(seq_views(out@) =~~= seq_views(old(out)@) + link_lines(lviews));
    }
}

/// Push the verbatim lines of the extension keys.
fn push_custom_lines(out: &mut Vec<Vec<char>>, cs: &Vec<(String, String)>)
    ensures
        seq_views(final(out)@) == seq_views(old(out)@) + custom_lines(
            cs@.map_values(|p: (String, String)| (p.0@, p.1@)),
        ),
{
    let ghost cviews = cs@.map_values(|p: (String, String)| (p.0@, p.1@));
    let mut i: usize = 0;
    proof {
        assert(seq_views(out@) =~~= seq_views(old(out)@) + custom_lines(cviews.take(0)));
    }
    while i < cs.len()
        invariant
            i <= cs@.len(),
            cviews == cs@.map_values(|p: (String, String)| (p.0@, p.1@)),
            seq_views(out@) == seq_views(old(out)@) + custom_lines(cviews.take(i as int)),
        decreases cs@.len() - i,
    {
        let k = chars_of(cs[i].0.as_str());
        let v = chars_of(cs[i].1.as_str());
        let line = kv_line_exec(&k, &v);
        let ghost pre = out@;
        out.push(line);
        i = i + 1;
        proof {
            assert(seq_views(out@) =~~= seq_views(pre).push(kv_line(cviews[i - 1].0, cviews[i - 1].1)));
            assert(cviews.take(i as int) =~= cviews.take(i - 1).push(cviews[i - 1]));
            assert(custom_lines(cviews.take(i as int)) =~~= custom_lines(cviews.take(i - 1)).push(
                kv_line(cviews[i - 1].0, cviews[i - 1].1),
            ));
            assert(seq_views(out@) =~~= seq_views(old(out)@) + custom_lines(cviews.take(i as int)));
        }
    }
    proof {
        assert(cviews.take(cs@.len() as int) =~= cviews);
    }
}

/// Build every line of the frontmatter block.
fn fm_lines_exec(fm: &AdrFrontmatter) -> (r: Vec<Vec<char>>)
    ensures
        seq_views(r@) == fm_lines(fm@),
{
    let mut lines: Vec<Vec<char>> = Vec::new();
    let idk = chars_of("id");
    push_opt_lines(&mut lines, &idk, &fm.id);
    let titlek = chars_of("title");
    let titlev = chars_of(fm.title.as_str());
    let title_line = kv_line_exec(&titlek, &titlev);
    lines.push(title_line);
    let statusk = chars_of("status");
    let statust = fm.status.to_text();
    let statusv = chars_of(statust.as_str());
    let status_line = kv_line_exec(&statusk, &statusv);
    lines.push(status_line);
    match &fm.date {
        Some(d) => {
            let datek = chars_of("date");
            let datev = crate::date::render_date_only(d);
            let date_line = kv_line_exec(&datek, &datev);
            lines.push(date_line);
        },
        None => {},
    }
    proof {
        assert(seq_views(lines@) =~~= opt_lines("id"@, fm@.id) + seq![kv_line("title"@, fm@.title)]
            + seq![kv_line("status"@, status_text(fm@.status))] + date_lines(fm@.date));
    }
    let tagsk = chars_of("tags");
    push_list_lines(&mut lines, &tagsk, &fm.tags);
    let authorsk = chars_of("authors");
    push_list_lines(&mut lines, &authorsk, &fm.authors);
    let decidersk = chars_of("deciders");
    push_list_lines(&mut lines, &decidersk, &fm.deciders);
    push_link_lines(&mut lines, &fm.links);
    proof {
        assert(seq_views(lines@) =~~= opt_lines("id"@, fm@.id) + seq![kv_line("title"@, fm@.title)]
            + seq![kv_line("status"@, status_text(fm@.status))] + date_lines(fm@.date) + list_lines(
            "tags"@,
            fm@.tags,
        ) + list_lines("authors"@, fm@.authors) + list_lines("deciders"@, fm@.deciders)
            + link_lines(fm@.links));
    }
    let formatk = chars_of("format");
    push_opt_lines(&mut lines, &formatk, &fm.format);
    let ssk = chars_of("supersedes");
    push_opt_lines(&mut lines, &ssk, &fm.supersedes);
    let sbk = chars_of("superseded_by");
    push_opt_lines(&mut lines, &sbk, &fm.superseded_by);
    push_custom_lines(&mut lines, &fm.custom);
    proof {
        assert(seq_views(lines@) =~~= fm_lines(fm@));
    }
    lines
}

impl Adr {
    /// Render the record as a markdown document: the frontmatter block
    /// between `---` delimiters, a blank line, and the body. Values are
    /// emitted verbatim on single lines, so field-level round-tripping
    /// holds for single-line values that do not begin like a quote or a
    /// flow collection (see [`lemma_markdown_round_trip`]).
    pub fn to_markdown(&self) -> (r: Result<String, Error>)
        ensures
            r matches Ok(s) && s@ == adr_markdown(self.frontmatter@, self.body@),
    {
        let mut lines: Vec<Vec<char>> = Vec::new();
        let mut dash: Vec<char> = Vec::new();
        dash.push('-');
        dash.push('-');
        dash.push('-');
        lines.push(dash);
        proof {
            assert(seq_views(lines@) =~~= seq![dashes()]);
        }
        let fml = fm_lines_exec(&self.frontmatter);
        let mut fi: usize = 0;
        while fi < fml.len()
            invariant
                fi <= fml@.len(),
                seq_views(fml@) == fm_lines(self.frontmatter@),
                seq_views(lines@) == seq![dashes()] + seq_views(fml@).take(fi as int),
            decreases fml@.len() - fi,
        {
            let l = slice_range(&fml[fi], 0, fml[fi].len());
            proof {
                assert(l@ =~= seq_views(fml@)[fi as int]);
            }
            let ghost pre = lines@;
            lines.push(l);
            fi = fi + 1;
            proof {
                assert(seq_views(lines@) =~~= seq_views(pre).push(seq_views(fml@)[fi - 1]));
                assert(seq_views(fml@).take(fi as int) =~= seq_views(fml@).take(fi - 1).push(
                    seq_views(fml@)[fi - 1],
                ));
                assert(seq_views(lines@) =~~= seq![dashes()] + seq_views(fml@).take(fi as int));
            }
        }
        proof {
            assert(seq_views(fml@).take(fml@.len() as int) =~= seq_views(fml@));
            assert(seq_views(lines@) =~~= seq![dashes()] + fm_lines(self.frontmatter@));
        }
        // The closing delimiter, the separating blank line, the body.
        let mut dash2: Vec<char> = Vec::new();
        dash2.push('-');
        dash2.push('-');
        dash2.push('-');
        lines.push(dash2);
        let blank: Vec<char> = Vec::new();
        lines.push(blank);
        let bodyv = chars_of(self.body.as_str());
        let body_lines = split_lines_exec(&bodyv);
        let mut bi: usize = 0;
        proof {
            assert(seq_views(lines@) =~~= seq![dashes()] + fm_lines(self.frontmatter@) + seq![
                dashes(),
                Seq::<char>::empty(),
            ] + seq_views(body_lines@).take(0));
        }
        while bi < body_lines.len()
            invariant
                bi <= body_lines@.len(),
                seq_views(lines@) == seq![dashes()] + fm_lines(self.frontmatter@) + seq![
                    dashes(),
                    Seq::<char>::empty(),
                ] + seq_views(body_lines@).take(bi as int),
                seq_views(body_lines@) == split_lines(self.body@),
            decreases body_lines@.len() - bi,
        {
            let bl = slice_range(&body_lines[bi], 0, body_lines[bi].len());
            proof {
                assert(bl@ =~= seq_views(body_lines@)[bi as int]);
            }
            let ghost pre = lines@;
            lines.push(bl);
            bi = bi + 1;
            proof {
                assert(seq_views(lines@) =~~= seq_views(pre).push(seq_views(body_lines@)[bi - 1]));
                assert(seq_views(body_lines@).take(bi as int) =~= seq_views(body_lines@).take(
                    bi - 1,
                ).push(seq_views(body_lines@)[bi - 1]));
                assert(seq_views(lines@) =~~= seq![dashes()] + fm_lines(self.frontmatter@) + seq![
                    dashes(),
                    Seq::<char>::empty(),
                ] + seq_views(body_lines@).take(bi as int));
            }
        }
        proof {
            assert(seq_views(body_lines@).take(seq_views(body_lines@).len() as int) =~= seq_views(
                body_lines@,
            ));
            assert(seq_views(lines@) =~~= doc_lines(self.frontmatter@, self.body@));
        }
        let joined = join_lines_exec(&lines);
        let s = string_of(&joined);
        Ok(s)
    }
}

// ---------------------------------------------------------------------
// Parsing: a line-by-line state machine over the frontmatter block.
// ---------------------------------------------------------------------
/// What the parser is in the middle of reading.
pub enum Target {
    TNone,
    TTags,
    TAuthors,
    TDeciders,
    TLinks,
}

/// A link item read half-way: one of its two fields is still missing.
pub enum Pend {
    PNone,
    PRel(Seq<char>),
    PTarget(Seq<char>),
}

/// The parser state between lines.
#[verifier::ext_equal]
pub struct PState {
    pub ok: bool,
    pub seen_title: bool,
    pub fm: FmView,
    pub pend: Pend,
    pub target: Target,
}

/// The frontmatter every parse starts from.
pub open spec fn fm_empty() -> FmView {
    FmView {
        id: None,
        title: Seq::empty(),
        status: AdrStatus::Proposed,
        date: None,
        tags: Seq::empty(),
        authors: Seq::empty(),
        deciders: Seq::empty(),
        links: Seq::empty(),
        format: None,
        supersedes: None,
        superseded_by: None,
        custom: Seq::empty(),
    }
}

/// The initial parser state.
pub open spec fn init_state() -> PState {
    PState {
        ok: true,
        seen_title: false,
        fm: fm_empty(),
        pend: Pend::PNone,
        target: Target::TNone,
    }
}

/// The failed state.
pub open spec fn fail(st: PState) -> PState {
    PState { ok: false, ..st }
}

/// A line of nothing but whitespace.
pub open spec fn blank_line(l: Seq<char>) -> bool {
    leading_spaces(l) == l.len()
}

/// The position of the first colon of a line.
pub open spec fn first_colon_from(l: Seq<char>, i: int) -> Option<int>
    decreases l.len() - i,
{
    if i < 0 || i >= l.len() {
        None
    } else if l[i] == ':' {
        Some(i)
    } else {
        first_colon_from(l, i + 1)
    }
}

/// A scalar value: plain text, or text between a pair of matching
/// quotes. A value opening a quote or a flow collection without
/// closing it is rejected.
pub open spec fn scalar_of(v: Seq<char>) -> Option<Seq<char>> {
    if v.len() == 0 {
        Some(v)
    } else if v[0] == '\'' || v[0] == '"' {
        if v.len() >= 2 && v[v.len() - 1] == v[0] {
            Some(v.subrange(1, v.len() - 1))
        } else {
            None
        }
    } else if v[0] == '[' || v[0] == '{' {
        None
    } else {
        Some(v)
    }
}

/// The scalar value after a key's colon: a space, then the value.
pub open spec fn value_of_after(a: Seq<char>) -> Option<Seq<char>> {
    if a.len() >= 1 && a[0] == ' ' {
        scalar_of(a.skip(1))
    } else {
        None
    }
}

/// One list item under the current target.
pub open spec fn step_item(st: PState, item: Seq<char>) -> PState {
    match st.target {
        Target::TTags => match scalar_of(item) {
            Some(v) => PState { fm: FmView { tags: st.fm.tags.push(v), ..st.fm }, ..st },
            None => fail(st),
        },
        Target::TAuthors => match scalar_of(item) {
            Some(v) => PState { fm: FmView { authors: st.fm.authors.push(v), ..st.fm }, ..st },
            None => fail(st),
        },
        Target::TDeciders => match scalar_of(item) {
            Some(v) => PState { fm: FmView { deciders: st.fm.deciders.push(v), ..st.fm }, ..st },
            None => fail(st),
        },
        Target::TLinks => {
            if !(st.pend is PNone) {
                fail(st)
            } else {
                match first_colon_from(item, 0) {
                    None => fail(st),
                    Some(cp) => {
                        let k = item.take(cp);
                        match value_of_after(item.skip(cp + 1)) {
                            None => fail(st),
                            Some(v) => if k == "rel"@ {
                                PState { pend: Pend::PRel(v), ..st }
                            } else if k == "target"@ {
                                PState { pend: Pend::PTarget(v), ..st }
                            } else {
                                fail(st)
                            },
                        }
                    },
                }
            }
        },
        Target::TNone => fail(st),
    }
}

/// An indented continuation line; only a link item's second field.
pub open spec fn step_continuation(st: PState, key: Seq<char>, after: Seq<char>) -> PState {
    if !(st.target is TLinks) {
        fail(st)
    } else {
        match value_of_after(after) {
            None => fail(st),
            Some(v) => if key == "rel"@ {
                match st.pend {
                    Pend::PTarget(tv) => PState {
                        fm: FmView {
                            links: st.fm.links.push(LinkView { rel: v, target: tv }),
                            ..st.fm
                        },
                        pend: Pend::PNone,
                        ..st
                    },
                    _ => fail(st),
                }
            } else if key == "target"@ {
                match st.pend {
                    Pend::PRel(rv) => PState {
                        fm: FmView {
                            links: st.fm.links.push(LinkView { rel: rv, target: v }),
                            ..st.fm
                        },
                        pend: Pend::PNone,
                        ..st
                    },
                    _ => fail(st),
                }
            } else {
                fail(st)
            },
        }
    }
}

/// A top-level `key: value` or `key:` line.
pub open spec fn step_key(st: PState, key: Seq<char>, after: Seq<char>) -> PState {
    if !(st.pend is PNone) {
        fail(st)
    } else if key == "tags"@ {
        if after.len() == 0 {
            PState { target: Target::TTags, ..st }
        } else {
            fail(st)
        }
    } else if key == "authors"@ {
        if after.len() == 0 {
            PState { target: Target::TAuthors, ..st }
        } else {
            fail(st)
        }
    } else if key == "deciders"@ {
        if after.len() == 0 {
            PState { target: Target::TDeciders, ..st }
        } else {
            fail(st)
        }
    } else if key == "links"@ {
        if after.len() == 0 {
            PState { target: Target::TLinks, ..st }
        } else {
            fail(st)
        }
    } else if key == "id"@ {
        match value_of_after(after) {
            Some(v) => PState {
                fm: FmView { id: Some(v), ..st.fm },
                target: Target::TNone,
                ..st
            },
            None => fail(st),
        }
    } else if key == "title"@ {
        match value_of_after(after) {
            Some(v) => PState {
                fm: FmView { title: v, ..st.fm },
                seen_title: true,
                target: Target::TNone,
                ..st
            },
            None => fail(st),
        }
    } else if key == "status"@ {
        match value_of_after(after) {
            Some(v) => match status_of_exact(v) {
                Some(stv) => PState {
                    fm: FmView { status: stv, ..st.fm },
                    target: Target::TNone,
                    ..st
                },
                None => fail(st),
            },
            None => fail(st),
        }
    } else if key == "date"@ {
        match value_of_after(after) {
            Some(v) => match parse_date_spec(v) {
                Some(d) => PState {
                    fm: FmView { date: Some(d), ..st.fm },
                    target: Target::TNone,
                    ..st
                },
                None => fail(st),
            },
            None => fail(st),
        }
    } else if key == "format"@ {
        match value_of_after(after) {
            Some(v) => PState {
                fm: FmView { format: Some(v), ..st.fm },
                target: Target::TNone,
                ..st
            },
            None => fail(st),
        }
    } else if key == "supersedes"@ {
        match value_of_after(after) {
            Some(v) => PState {
                fm: FmView { supersedes: Some(v), ..st.fm },
                target: Target::TNone,
                ..st
            },
            None => fail(st),
        }
    } else if key == "superseded_by"@ {
        match value_of_after(after) {
            Some(v) => PState {
                fm: FmView { superseded_by: Some(v), ..st.fm },
                target: Target::TNone,
                ..st
            },
            None => fail(st),
        }
    } else {
        // An open extension key, kept verbatim.
        if after.len() == 0 {
            PState {
                fm: FmView { custom: st.fm.custom.push((key, Seq::empty())), ..st.fm },
                target: Target::TNone,
                ..st
            }
        } else if after[0] == ' ' {
            PState {
                fm: FmView { custom: st.fm.custom.push((key, after.skip(1))), ..st.fm },
                target: Target::TNone,
                ..st
            }
        } else {
            fail(st)
        }
    }
}

/// Read one line of the frontmatter block.
pub open spec fn step(st: PState, line: Seq<char>) -> PState {
    if !st.ok {
        st
    } else if blank_line(line) {
        st
    } else {
        let lead = leading_spaces(line);
        let t = line.skip(lead);
        if t == seq!['-'] || is_prefix(seq!['-', ' '], t) {
            let item = if t == seq!['-'] {
                Seq::empty()
            } else {
                t.skip(2)
            };
            step_item(st, item)
        } else {
            match first_colon_from(t, 0) {
                None => fail(st),
                Some(cp) => {
                    let key = t.take(cp);
                    let after = t.skip(cp + 1);
                    if lead > 0 {
                        step_continuation(st, key, after)
                    } else {
                        step_key(st, key, after)
                    }
                },
            }
        }
    }
}

/// Fold the parser over the lines of the block.
pub open spec fn fold_lines(st: PState, lines: Seq<Seq<char>>) -> PState
    decreases lines.len(),
{
    if lines.len() == 0 {
        st
    } else {
        fold_lines(step(st, lines[0]), lines.skip(1))
    }
}

/// The end of the block: a parse succeeds when nothing failed, a title
/// was read, and no link item is left half-read.
pub open spec fn finalize(st: PState) -> Option<FmView> {
    if st.ok && st.seen_title && st.pend is PNone {
        Some(st.fm)
    } else {
        None
    }
}

/// What parsing a frontmatter block yields.
pub open spec fn parse_fm_lines(lines: Seq<Seq<char>>) -> Option<FmView> {
    finalize(fold_lines(init_state(), lines))
}

/// Executable counterpart of [`Target`].
enum TargetE {
    ENone,
    ETags,
    EAuthors,
    EDeciders,
    ELinks,
}

impl TargetE {
    spec fn view_t(&self) -> Target {
        match self {
            TargetE::ENone => Target::TNone,
            TargetE::ETags => Target::TTags,
            TargetE::EAuthors => Target::TAuthors,
            TargetE::EDeciders => Target::TDeciders,
            TargetE::ELinks => Target::TLinks,
        }
    }
}

/// Executable counterpart of [`Pend`].
enum PendE {
    EPNone,
    EPRel(String),
    EPTarget(String),
}

impl PendE {
    spec fn view_p(&self) -> Pend {
        match self {
            PendE::EPNone => Pend::PNone,
            PendE::EPRel(s) => Pend::PRel(s@),
            PendE::EPTarget(s) => Pend::PTarget(s@),
        }
    }
}

/// Executable parser state.
struct StE {
    ok: bool,
    seen_title: bool,
    fm: AdrFrontmatter,
    pend: PendE,
    target: TargetE,
}

impl StE {
    spec fn view_s(&self) -> PState {
        PState {
            ok: self.ok,
            seen_title: self.seen_title,
            fm: self.fm@,
            pend: self.pend.view_p(),
            target: self.target.view_t(),
        }
    }
}

/// The empty frontmatter a parse starts from.
fn fm_empty_exec() -> (r: AdrFrontmatter)
    ensures
        r@ == fm_empty(),
{
    let r = AdrFrontmatter {
        id: None,
        title: String::new(),
        status: AdrStatus::Proposed,
        date: None,
        tags: Vec::new(),
        authors: Vec::new(),
        deciders: Vec::new(),
        links: Vec::new(),
        format: None,
        supersedes: None,
        superseded_by: None,
        custom: Vec::new(),
    };
    proof {
        assert(r@.tags =~= fm_empty().tags);
        assert(r@.authors =~= fm_empty().authors);
        assert(r@.deciders =~= fm_empty().deciders);
        assert(r@.links =~= fm_empty().links);
        assert(r@.custom =~= fm_empty().custom);
    }
    r
}

/// Strip the leading whitespace of a line.
fn lstrip_exec(line: &Vec<char>) -> (r: (usize, Vec<char>))
    ensures
        r.0 == leading_spaces(line@),
        r.1@ == line@.skip(leading_spaces(line@)),
{
    proof {
        crate::text::lemma_leading_spaces_bound(line@);
    }
    let mut lo: usize = 0;
    while lo < line.len() && (line[lo] == ' ' || line[lo] == '\t' || line[lo] == '\n' || line[lo]
        == '\r')
        invariant
            lo <= line@.len(),
            forall|k: int| 0 <= k < lo ==> is_space(line@[k]),
            lo <= leading_spaces(line@),
        decreases line@.len() - lo,
    {
        proof {
            crate::text::lemma_leading_spaces_bound(line@);
            if lo + 1 > leading_spaces(line@) {
                assert(!is_space(line@[leading_spaces(line@)]));
            }
        }
        lo = lo + 1;
    }
    proof {
        crate::text::lemma_leading_spaces_bound(line@);
        assert(lo == leading_spaces(line@));
    }
    let t = slice_range(line, lo, line.len());
    proof {
        assert(t@ =~= line@.skip(leading_spaces(line@)));
    }
    (lo, t)
}

/// Find the first colon of a line.
fn first_colon_exec(t: &Vec<char>) -> (r: Option<usize>)
    ensures
        match r {
            Some(i) => first_colon_from(t@, 0) == Some(i as int) && i < t@.len(),
            None => first_colon_from(t@, 0) is None,
        },
{
    let mut i: usize = 0;
    while i < t.len()
        invariant
            i <= t@.len(),
            first_colon_from(t@, 0) == first_colon_from(t@, i as int),
        decreases t@.len() - i,
    {
        if t[i] == ':' {
            return Some(i);
        }
        i = i + 1;
    }
    None
}

/// Read a scalar value, stripping one pair of matching quotes.
fn scalar_of_exec(v: &Vec<char>) -> (r: Option<Vec<char>>)
    ensures
        match r {
            Some(x) => scalar_of(v@) == Some(x@),
            None => scalar_of(v@) is None,
        },
{
    if v.len() == 0 {
        let e: Vec<char> = Vec::new();
        proof {
            assert(e@ =~= v@);
        }
        return Some(e);
    }
    let c0 = v[0];
    if c0 == '\'' || c0 == '"' {
        if v.len() >= 2 && v[v.len() - 1] == c0 {
            let inner = slice_range(v, 1, v.len() - 1);
            return Some(inner);
        }
        return None;
    }
    if c0 == '[' || c0 == '{' {
        return None;
    }
    Some(slice_range(v, 0, v.len()))
}

/// Read the value after a key's colon.
fn value_of_after_exec(a: &Vec<char>) -> (r: Option<Vec<char>>)
    ensures
        match r {
            Some(x) => value_of_after(a@) == Some(x@),
            None => value_of_after(a@) is None,
        },
{
    if a.len() >= 1 && a[0] == ' ' {
        let rest = slice_range(a, 1, a.len());
        proof {
            assert(rest@ =~= a@.skip(1));
        }
        scalar_of_exec(&rest)
    } else {
        None
    }
}

/// Process one line, the executable mirror of [`step`].
#[verifier::rlimit(60)]
fn step_exec(st: StE, line: &Vec<char>) -> (r: StE)
    ensures
        r.view_s() == step(st.view_s(), line@),
{
    if !st.ok {
        return st;
    }
    let (lead, t) = lstrip_exec(line);
    if t.len() == 0 {
        proof {
            crate::text::lemma_leading_spaces_bound(line@);
            assert(blank_line(line@));
        }
        return st;
    }
    assert(!blank_line(line@)) by {
        crate::text::lemma_leading_spaces_bound(line@);
    }
    let mut dash_space: Vec<char> = Vec::new();
    dash_space.push('-');
    dash_space.push(' ');
    proof {
        assert(dash_space@ =~= seq!['-', ' ']);
    }
    let is_single_dash = t.len() == 1 && t[0] == '-';
    proof {
        if is_single_dash {
            assert(t@ =~= seq!['-']);
        } else {
            assert(t@ != seq!['-']);
        }
    }
    if is_single_dash || starts_with_chars(&t, &dash_space) {
        let item: Vec<char> = if is_single_dash {
            Vec::new()
        } else {
            slice_range(&t, 2, t.len())
        };
        proof {
            if !is_single_dash {
                assert(item@ =~= t@.skip(2));
            } else {
                assert(item@ =~= Seq::<char>::empty());
            }
        }
        return step_item_exec(st, &item);
    }
    match first_colon_exec(&t) {
        None => {
            let r = StE { ok: false, ..st };
            return r;
        },
        Some(cp) => {
            let key = slice_range(&t, 0, cp);
            let after = slice_range(&t, cp + 1, t.len());
            proof {
                assert(key@ =~= t@.take(cp as int));
                assert(after@ =~= t@.skip(cp + 1));
            }
            if lead > 0 {
                return step_continuation_exec(st, &key, &after);
            }
            return step_key_exec(st, &key, &after);
        },
    }
}

/// One list item, the executable mirror of [`step_item`].
fn step_item_exec(st: StE, item: &Vec<char>) -> (r: StE)
    requires
        st.ok,
    ensures
        r.view_s() == step_item(st.view_s(), item@),
{
    let StE { ok, seen_title, mut fm, pend, target } = st;
    match &target {
        TargetE::ETags => match scalar_of_exec(item) {
            Some(v) => {
                fm.tags.push(string_of(&v));
                let r = StE { ok, seen_title, fm, pend, target };
                proof {
                    assert(r.view_s().fm.tags =~= step_item(st.view_s(), item@).fm.tags);
                }
                r
            },
            None => StE { ok: false, seen_title, fm, pend, target },
        },
        TargetE::EAuthors => match scalar_of_exec(item) {
            Some(v) => {
                fm.authors.push(string_of(&v));
                let r = StE { ok, seen_title, fm, pend, target };
                proof {
                    assert(r.view_s().fm.authors =~= step_item(st.view_s(), item@).fm.authors);
                }
                r
            },
            None => StE { ok: false, seen_title, fm, pend, target },
        },
        TargetE::EDeciders => match scalar_of_exec(item) {
            Some(v) => {
                fm.deciders.push(string_of(&v));
                let r = StE { ok, seen_title, fm, pend, target };
                proof {
                    assert(r.view_s().fm.deciders =~= step_item(st.view_s(), item@).fm.deciders);
                }
                r
            },
            None => StE { ok: false, seen_title, fm, pend, target },
        },
        TargetE::ELinks => {
            let pending = match &pend {
                PendE::EPNone => false,
                _ => true,
            };
            if pending {
                return StE { ok: false, seen_title, fm, pend, target };
            }
            let n = item.len();
            match first_colon_exec(item) {
                None => StE { ok: false, seen_title, fm, pend, target },
                Some(cp) => {
                    let k = slice_range(item, 0, cp);
                    let a = slice_range(item, cp + 1, n);
                    proof {
                        assert(k@ =~= item@.take(cp as int));
                        assert(a@ =~= item@.skip(cp + 1));
                    }
                    match value_of_after_exec(&a) {
                        None => StE { ok: false, seen_title, fm, pend, target },
                        Some(v) => {
                            let relk = chars_of("rel");
                            let tgtk = chars_of("target");
                            if chars_eq(&k, &relk) {
                                StE {
                                    ok,
                                    seen_title,
                                    fm,
                                    pend: PendE::EPRel(string_of(&v)),
                                    target,
                                }
                            } else if chars_eq(&k, &tgtk) {
                                StE {
                                    ok,
                                    seen_title,
                                    fm,
                                    pend: PendE::EPTarget(string_of(&v)),
                                    target,
                                }
                            } else {
                                StE { ok: false, seen_title, fm, pend, target }
                            }
                        },
                    }
                },
            }
        },
        TargetE::ENone => StE { ok: false, seen_title, fm, pend, target },
    }
}

/// An indented continuation line, mirror of [`step_continuation`].
fn step_continuation_exec(st: StE, key: &Vec<char>, after: &Vec<char>) -> (r: StE)
    requires
        st.ok,
    ensures
        r.view_s() == step_continuation(st.view_s(), key@, after@),
{
    let StE { ok, seen_title, mut fm, pend, target } = st;
    let in_links = match &target {
        TargetE::ELinks => true,
        _ => false,
    };
    if !in_links {
        return StE { ok: false, seen_title, fm, pend, target };
    }
    match value_of_after_exec(after) {
        None => StE { ok: false, seen_title, fm, pend, target },
        Some(v) => {
            let relk = chars_of("rel");
            let tgtk = chars_of("target");
            if chars_eq(key, &relk) {
                match pend {
                    PendE::EPTarget(tv) => {
                        fm.links.push(AdrLink { rel: string_of(&v), target: tv });
                        let r = StE { ok, seen_title, fm, pend: PendE::EPNone, target };
                        proof {
                            assert(r.view_s().fm.links =~= step_continuation(
                                st.view_s(),
                                key@,
                                after@,
                            ).fm.links);
                        }
                        r
                    },
                    p => StE { ok: false, seen_title, fm, pend: p, target },
                }
            } else if chars_eq(key, &tgtk) {
                match pend {
                    PendE::EPRel(rv) => {
                        fm.links.push(AdrLink { rel: rv, target: string_of(&v) });
                        let r = StE { ok, seen_title, fm, pend: PendE::EPNone, target };
                        proof {
                            assert(r.view_s().fm.links =~= step_continuation(
                                st.view_s(),
                                key@,
                                after@,
                            ).fm.links);
                        }
                        r
                    },
                    p => StE { ok: false, seen_title, fm, pend: p, target },
                }
            } else {
                StE { ok: false, seen_title, fm, pend, target }
            }
        },
    }
}

/// A top-level key line, mirror of [`step_key`].
#[verifier::rlimit(100)]
fn step_key_exec(st: StE, key: &Vec<char>, after: &Vec<char>) -> (r: StE)
    requires
        st.ok,
    ensures
        r.view_s() == step_key(st.view_s(), key@, after@),
{
    let StE { ok, seen_title, mut fm, pend, target } = st;
    let pending = match &pend {
        PendE::EPNone => false,
        _ => true,
    };
    if pending {
        return StE { ok: false, seen_title, fm, pend, target };
    }
    let tagsk = chars_of("tags");
    let authorsk = chars_of("authors");
    let decidersk = chars_of("deciders");
    let linksk = chars_of("links");
    if chars_eq(key, &tagsk) {
        if after.len() == 0 {
            return StE { ok, seen_title, fm, pend, target: TargetE::ETags };
        }
        return StE { ok: false, seen_title, fm, pend, target };
    }
    if chars_eq(key, &authorsk) {
        if after.len() == 0 {
            return StE { ok, seen_title, fm, pend, target: TargetE::EAuthors };
        }
        return StE { ok: false, seen_title, fm, pend, target };
    }
    if chars_eq(key, &decidersk) {
        if after.len() == 0 {
            return StE { ok, seen_title, fm, pend, target: TargetE::EDeciders };
        }
        return StE { ok: false, seen_title, fm, pend, target };
    }
    if chars_eq(key, &linksk) {
        if after.len() == 0 {
            return StE { ok, seen_title, fm, pend, target: TargetE::ELinks };
        }
        return StE { ok: false, seen_title, fm, pend, target };
    }
    let idk = chars_of("id");
    let titlek = chars_of("title");
    let statusk = chars_of("status");
    let datek = chars_of("date");
    let formatk = chars_of("format");
    let ssk = chars_of("supersedes");
    let sbk = chars_of("superseded_by");
    if chars_eq(key, &idk) {
        match value_of_after_exec(after) {
            Some(v) => {
                fm.id = Some(string_of(&v));
                return StE { ok, seen_title, fm, pend, target: TargetE::ENone };
            },
            None => {
                return StE { ok: false, seen_title, fm, pend, target };
            },
        }
    }
    if chars_eq(key, &titlek) {
        match value_of_after_exec(after) {
            Some(v) => {
                fm.title = string_of(&v);
                return StE { ok, seen_title: true, fm, pend, target: TargetE::ENone };
            },
            None => {
                return StE { ok: false, seen_title, fm, pend, target };
            },
        }
    }
    if chars_eq(key, &statusk) {
        match value_of_after_exec(after) {
            Some(v) => {
                let vs = string_of(&v);
                match AdrStatus::parse_exact(vs.as_str()) {
                    Some(stv) => {
                        fm.status = stv;
                        return StE { ok, seen_title, fm, pend, target: TargetE::ENone };
                    },
                    None => {
                        return StE { ok: false, seen_title, fm, pend, target };
                    },
                }
            },
            None => {
                return StE { ok: false, seen_title, fm, pend, target };
            },
        }
    }
    if chars_eq(key, &datek) {
        match value_of_after_exec(after) {
            Some(v) => {
                match crate::date::parse_date_chars(&v) {
                    Some(d) => {
                        fm.date = Some(d);
                        return StE { ok, seen_title, fm, pend, target: TargetE::ENone };
                    },
                    None => {
                        return StE { ok: false, seen_title, fm, pend, target };
                    },
                }
            },
            None => {
                return StE { ok: false, seen_title, fm, pend, target };
            },
        }
    }
    if chars_eq(key, &formatk) {
        match value_of_after_exec(after) {
            Some(v) => {
                fm.format = Some(string_of(&v));
                return StE { ok, seen_title, fm, pend, target: TargetE::ENone };
            },
            None => {
                return StE { ok: false, seen_title, fm, pend, target };
            },
        }
    }
    if chars_eq(key, &ssk) {
        match value_of_after_exec(after) {
            Some(v) => {
                fm.supersedes = Some(string_of(&v));
                return StE { ok, seen_title, fm, pend, target: TargetE::ENone };
            },
            None => {
                return StE { ok: false, seen_title, fm, pend, target };
            },
        }
    }
    if chars_eq(key, &sbk) {
        match value_of_after_exec(after) {
            Some(v) => {
                fm.superseded_by = Some(string_of(&v));
                return StE { ok, seen_title, fm, pend, target: TargetE::ENone };
            },
            None => {
                return StE { ok: false, seen_title, fm, pend, target };
            },
        }
    }
    // An open extension key, kept verbatim.
    if after.len() == 0 {
        let ghost oldc = fm@.custom;
        fm.custom.push((string_of(key), String::new()));
        let r = StE { ok, seen_title, fm, pend, target: TargetE::ENone };
        proof {
            assert(r.view_s().fm.custom =~= step_key(st.view_s(), key@, after@).fm.custom);
        }
        return r;
    }
    if after[0] == ' ' {
        let raw = slice_range(after, 1, after.len());
        proof {
            assert(raw@ =~= after@.skip(1));
        }
        fm.custom.push((string_of(key), string_of(&raw)));
        let r = StE { ok, seen_title, fm, pend, target: TargetE::ENone };
        proof {
            assert(r.view_s().fm.custom =~= step_key(st.view_s(), key@, after@).fm.custom);
        }
        return r;
    }
    StE { ok: false, seen_title, fm, pend, target }
}

// ---------------------------------------------------------------------
// The document level: delimiters, metadata block, body.
// ---------------------------------------------------------------------
/// What parsing a whole document yields.
pub enum MdParse {
    /// The document does not start with the opening delimiter.
    NoOpen,
    /// The opening delimiter is never matched by a closing one.
    NoClose,
    /// The metadata block itself is malformed.
    BadFm,
    /// A parsed document: metadata and trimmed body.
    Parsed(FmView, Seq<char>),
}

/// The first line at or after `k` that begins with the delimiter.
pub open spec fn first_close_from(lines: Seq<Seq<char>>, k: int) -> Option<int>
    decreases lines.len() - k,
{
    if k < 0 || k >= lines.len() {
        None
    } else if is_prefix(dashes(), lines[k]) {
        Some(k)
    } else {
        first_close_from(lines, k + 1)
    }
}

/// What parsing a document yields: trim, check the opening delimiter,
/// find the closing one, read the block, trim the remainder as body.
pub open spec fn parse_markdown_spec(content: Seq<char>) -> MdParse {
    let c = trim_spec(content);
    if !is_prefix(dashes(), c) {
        MdParse::NoOpen
    } else {
        let lines = split_lines(c);
        match first_close_from(lines, 1) {
            None => MdParse::NoClose,
            Some(k) => {
                let yaml_lines = seq![lines[0].skip(3)] + lines.subrange(1, k);
                let body = trim_spec(join_lines(seq![lines[k].skip(3)] + lines.skip(k + 1)));
                match parse_fm_lines(yaml_lines) {
                    None => MdParse::BadFm,
                    Some(fm) => MdParse::Parsed(fm, body),
                }
            },
        }
    }
}

/// The first line of a split is the longest newline-free prefix.
pub proof fn lemma_split_first(s: Seq<char>)
    ensures
        split_lines(s).len() >= 1,
        is_prefix(split_lines(s)[0], s),
        line_ok(split_lines(s)[0]),
        split_lines(s)[0].len() < s.len() ==> s[split_lines(s)[0].len() as int] == '\n',
    decreases s.len(),
{
    if s.len() == 0 {
        assert(s.subrange(0, 0) =~= split_lines(s)[0]);
    } else if s[0] == '\n' {
        assert(split_lines(s)[0] =~= Seq::<char>::empty());
        assert(s.subrange(0, 0) =~= Seq::<char>::empty());
    } else {
        lemma_split_first(s.skip(1));
        let r0 = split_lines(s.skip(1))[0];
        let l0 = split_lines(s)[0];
        assert(l0 == seq![s[0]] + r0);
        assert(l0.len() == 1 + r0.len());
        assert(s.subrange(0, l0.len() as int) =~= l0) by {
            assert(s.skip(1).subrange(0, r0.len() as int) == r0);
            assert(forall|j: int| 0 <= j < r0.len() ==> s.skip(1)[j] == s[j + 1]);
        }
        if l0.len() < s.len() {
            assert(s.skip(1)[r0.len() as int] == s[l0.len() as int]);
        }
    }
}

/// Fold over one more line at the end.
pub proof fn lemma_fold_snoc(st: PState, lines: Seq<Seq<char>>, x: Seq<char>)
    ensures
        fold_lines(st, lines.push(x)) == step(fold_lines(st, lines), x),
    decreases lines.len(),
{
    if lines.len() == 0 {
        assert(lines.push(x)[0] == x);
        assert(lines.push(x).skip(1) =~= Seq::<Seq<char>>::empty());
        assert(fold_lines(step(st, x), Seq::<Seq<char>>::empty()) == step(st, x));
        assert(fold_lines(st, lines) == st);
    } else {
        assert(lines.push(x)[0] == lines[0]);
        assert(lines.push(x).skip(1) =~= lines.skip(1).push(x));
        lemma_fold_snoc(step(st, lines[0]), lines.skip(1), x);
    }
}

/// Build the `None` result of [`finalize`] into executable form.
fn finalize_exec(st: StE) -> (r: Option<AdrFrontmatter>)
    ensures
        match r {
            Some(fm) => finalize(st.view_s()) == Some(fm@),
            None => finalize(st.view_s()) is None,
        },
{
    let pend_none = match &st.pend {
        PendE::EPNone => true,
        _ => false,
    };
    if st.ok && st.seen_title && pend_none {
        Some(st.fm)
    } else {
        None
    }
}

/// Find the closing delimiter line at or after index 1.
fn find_close_exec(lines: &Vec<Vec<char>>) -> (r: Option<usize>)
    requires
        lines@.len() >= 1,
    ensures
        match r {
            Some(k) => first_close_from(seq_views(lines@), 1) == Some(k as int) && 1 <= k
                < lines@.len() && is_prefix(dashes(), seq_views(lines@)[k as int]),
            None => first_close_from(seq_views(lines@), 1) is None,
        },
{
    let mut dash3: Vec<char> = Vec::new();
    dash3.push('-');
    dash3.push('-');
    dash3.push('-');
    proof {
        assert(dash3@ =~= dashes());
    }
    let mut k: usize = 1;
    while k < lines.len()
        invariant
            1 <= k <= lines@.len(),
            dash3@ == dashes(),
            first_close_from(seq_views(lines@), 1) == first_close_from(seq_views(lines@), k as int),
        decreases lines@.len() - k,
    {
        if starts_with_chars(&lines[k], &dash3) {
            proof {
                assert(seq_views(lines@)[k as int] == lines@[k as int]@);
            }
            return Some(k);
        }
        proof {
            assert(seq_views(lines@)[k as int] == lines@[k as int]@);
        }
        k = k + 1;
    }
    None
}

impl Adr {
    /// Create a fresh record with the given id and title: not yet
    /// attached to a revision, status proposed, dated now, empty body.
    pub fn new(id: String, title: String) -> (r: Adr)
        ensures
            r@.id == id@,
            r@.commit == ""@,
            r@.body == ""@,
            r@.frontmatter.id == Some(id@),
            r@.frontmatter.title == title@,
            r@.frontmatter.status == AdrStatus::Proposed,
            r@.frontmatter.date matches Some(d) && d.wf(),
            r@.frontmatter.tags.len() == 0,
            r@.frontmatter.authors.len() == 0,
            r@.frontmatter.deciders.len() == 0,
            r@.frontmatter.links.len() == 0,
            r@.frontmatter.format is None,
            r@.frontmatter.supersedes is None,
            r@.frontmatter.superseded_by is None,
            r@.frontmatter.custom.len() == 0,
    {
        let mut fm = AdrFrontmatter::default();
        fm.id = Some(id.clone());
        fm.title = title;
        let r = Adr { id, commit: String::new(), frontmatter: fm, body: String::new() };
        proof {
            reveal_strlit("");
            assert(r@.commit =~= ""@);
            assert(r@.body =~= ""@);
        }
        r
    }

    /// Parse a record out of a markdown document.
    pub fn from_markdown(id: String, commit: String, content: &str) -> (r: Result<Adr, Error>)
        ensures
            match r {
                Ok(adr) => {
                    &&& adr@.id == id@
                    &&& adr@.commit == commit@
                    &&& parse_markdown_spec(content@) == MdParse::Parsed(
                        adr@.frontmatter,
                        adr@.body,
                    )
                },
                Err(e) => (e matches Error::ParseError { message } && (match parse_markdown_spec(
                    content@,
                ) {
                    MdParse::NoOpen => message@
                        == "a record must start with a frontmatter block (---)"@,
                    MdParse::NoClose => message@ == "the frontmatter block must be closed with ---"@,
                    MdParse::BadFm => message@ == "invalid frontmatter block"@,
                    MdParse::Parsed(_, _) => false,
                })),
            },
    {
        match Self::parse_frontmatter(content) {
            Ok((fm, body)) => Ok(Adr { id, commit, frontmatter: fm, body }),
            Err(e) => Err(e),
        }
    }

    /// Split a document into its metadata block and body.
    #[verifier::rlimit(60)]
    fn parse_frontmatter(content: &str) -> (r: Result<(AdrFrontmatter, String), Error>)
        ensures
            match r {
                Ok((fm, body)) => parse_markdown_spec(content@) == MdParse::Parsed(fm@, body@),
                Err(e) => (e matches Error::ParseError { message } && (match parse_markdown_spec(
                    content@,
                ) {
                    MdParse::NoOpen => message@
                        == "a record must start with a frontmatter block (---)"@,
                    MdParse::NoClose => message@ == "the frontmatter block must be closed with ---"@,
                    MdParse::BadFm => message@ == "invalid frontmatter block"@,
                    MdParse::Parsed(_, _) => false,
                })),
            },
    {
        let cv = chars_of(content);
        let c = trim_chars(&cv);
        let mut dash3: Vec<char> = Vec::new();
        dash3.push('-');
        dash3.push('-');
        dash3.push('-');
        proof {
            assert(dash3@ =~= dashes());
        }
        if !starts_with_chars(&c, &dash3) {
            return Err(
                Error::ParseError {
                    message: String::from_str(
                        "a record must start with a frontmatter block (---)",
                    ),
                },
            );
        }
        let lines = split_lines_exec(&c);
        proof {
            lemma_split_first(c@);
            assert(seq_views(lines@)[0] == lines@[0]@);
            // The first line holds at least the three dashes.
            if lines@[0]@.len() < 3 {
                assert(c@[lines@[0]@.len() as int] == '\n');
                assert(c@.subrange(0, 3)[lines@[0]@.len() as int] == c@[lines@[0]@.len() as int]);
                assert(false);
            }
        }
        let k = match find_close_exec(&lines) {
            Some(k) => k,
            None => {
                return Err(
                    Error::ParseError {
                        message: String::from_str(
                            "the frontmatter block must be closed with ---",
                        ),
                    },
                );
            },
        };
        // Fold the parser over the block's lines.
        let ghost yaml_lines = seq![seq_views(lines@)[0].skip(3)] + seq_views(lines@).subrange(
            1,
            k as int,
        );
        let mut st = StE {
            ok: true,
            seen_title: false,
            fm: fm_empty_exec(),
            pend: PendE::EPNone,
            target: TargetE::ENone,
        };
        proof {
            assert(st.view_s() == init_state());
        }
        let first_rest = slice_range(&lines[0], 3, lines[0].len());
        proof {
            assert(first_rest@ =~= seq_views(lines@)[0].skip(3));
        }
        st = step_exec(st, &first_rest);
        proof {
            assert(yaml_lines.take(1) =~= seq![seq_views(lines@)[0].skip(3)]);
            assert(yaml_lines.take(1) =~= Seq::<Seq<char>>::empty().push(first_rest@));
            lemma_fold_snoc(init_state(), Seq::<Seq<char>>::empty(), first_rest@);
            assert(st.view_s() == fold_lines(init_state(), yaml_lines.take(1)));
        }
        let mut i: usize = 1;
        while i < k
            invariant
                1 <= i <= k < lines@.len(),
                yaml_lines == seq![seq_views(lines@)[0].skip(3)] + seq_views(lines@).subrange(
                    1,
                    k as int,
                ),
                yaml_lines.len() == k,
                st.view_s() == fold_lines(init_state(), yaml_lines.take(i as int)),
            decreases k - i,
        {
            st = step_exec(st, &lines[i]);
            i = i + 1;
            proof {
                assert(yaml_lines[i - 1] == lines@[i - 1]@);
                assert(yaml_lines.take(i as int) =~= yaml_lines.take(i - 1).push(
                    yaml_lines[i - 1],
                ));
                lemma_fold_snoc(init_state(), yaml_lines.take(i - 1), yaml_lines[i - 1]);
            }
        }
        proof {
            assert(yaml_lines.take(k as int) =~= yaml_lines);
        }
        let fm = match finalize_exec(st) {
            Some(fm) => fm,
            None => {
                return Err(
                    Error::ParseError {
                        message: String::from_str("invalid frontmatter block"),
                    },
                );
            },
        };
        // Everything after the closing delimiter, trimmed, is the body.
        let mut body_parts: Vec<Vec<char>> = Vec::new();
        proof {
            // The closing line holds at least the three dashes.
            assert(seq_views(lines@)[k as int] == lines@[k as int]@);
        }
        let close_rest = slice_range(&lines[k], 3, lines[k].len());
        body_parts.push(close_rest);
        let nl = lines.len();
        let mut j: usize = k + 1;
        proof {
            assert(seq_views(body_parts@) =~~= seq![seq_views(lines@)[k as int].skip(3)]
                + seq_views(lines@).subrange(k + 1, k + 1));
        }
        while j < lines.len()
            invariant
                k < lines@.len(),
                k + 1 <= j <= lines@.len(),
                seq_views(body_parts@) == seq![seq_views(lines@)[k as int].skip(3)] + seq_views(
                    lines@,
                ).subrange(k + 1, j as int),
            decreases lines@.len() - j,
        {
            let part = slice_range(&lines[j], 0, lines[j].len());
            proof {
                assert(part@ =~= seq_views(lines@)[j as int]);
            }
            let ghost pre = body_parts@;
            body_parts.push(part);
            j = j + 1;
            proof {
                assert(seq_views(body_parts@) =~~= seq_views(pre).push(
                    seq_views(lines@)[j - 1],
                ));
                assert(seq_views(pre).push(seq_views(lines@)[j - 1]) =~~= seq![
                    seq_views(lines@)[k as int].skip(3),
                ] + seq_views(lines@).subrange(k + 1, j as int));
            }
        }
        proof {
            assert(seq_views(lines@).subrange(k + 1, lines@.len() as int) =~= seq_views(
                lines@,
            ).skip(k + 1));
        }
        let body_joined = join_lines_exec(&body_parts);
        let body_trimmed = trim_chars(&body_joined);
        let body = string_of(&body_trimmed);
        let slice_len = lines[k].len();
        proof {
            assert(c@ == trim_spec(content@));
        }
        Ok((fm, body))
    }

    /// The record's title.
    pub fn title(&self) -> (r: &str)
        ensures
            r@ == self@.frontmatter.title,
    {
        self.frontmatter.title.as_str()
    }

    /// The record's status.
    pub fn status(&self) -> (r: &AdrStatus)
        ensures
            *r == self@.frontmatter.status,
    {
        &self.frontmatter.status
    }

    /// Whether the record carries the given tag, compared
    /// case-insensitively (ASCII folding).
    pub fn has_tag(&self, tag: &str) -> (r: bool)
        ensures
            r == exists|i: int|
                0 <= i < self@.frontmatter.tags.len() && eq_ignore_case(
                    #[trigger] self@.frontmatter.tags[i],
                    tag@,
                ),
    {
        let tagl = lower_string(tag);
        let tv = chars_of(tagl.as_str());
        let mut i: usize = 0;
        while i < self.frontmatter.tags.len()
            invariant
                i <= self@.frontmatter.tags.len(),
                tv@ == lower_seq(tag@),
                forall|j: int| 0 <= j < i ==> !eq_ignore_case(
                    #[trigger] self@.frontmatter.tags[j],
                    tag@,
                ),
            decreases self@.frontmatter.tags.len() - i,
        {
            let cl = lower_string(self.frontmatter.tags[i].as_str());
            let cv = chars_of(cl.as_str());
            if chars_eq(&cv, &tv) {
                proof {
                    assert(eq_ignore_case(self@.frontmatter.tags[i as int], tag@));
                }
                return true;
            }
            proof {
                assert(!eq_ignore_case(self@.frontmatter.tags[i as int], tag@));
            }
            i = i + 1;
        }
        false
    }
}

impl Default for AdrFrontmatter {
    /// A fresh metadata block: proposed, dated now, everything else
    /// empty.
    fn default() -> (r: Self)
        ensures
            r@.id is None,
            r@.title == Seq::<char>::empty(),
            r@.status == AdrStatus::Proposed,
            r@.date matches Some(d) && d.wf(),
            r@.tags.len() == 0,
            r@.authors.len() == 0,
            r@.deciders.len() == 0,
            r@.links.len() == 0,
            r@.format is None,
            r@.supersedes is None,
            r@.superseded_by is None,
            r@.custom.len() == 0,
    {
        let mut fm = fm_empty_exec();
        fm.date = Some(crate::date::today());
        fm
    }
}


// ---------------------------------------------------------------------
// The round trip: parsing what was serialized yields the same record.
// ---------------------------------------------------------------------
/// A value that survives a trip through a `key: value` line: one line,
/// and nothing the scalar reader would strip or reject.
pub open spec fn val_ok(v: Seq<char>) -> bool {
    line_ok(v) && (v.len() == 0 || (v[0] != '\'' && v[0] != '"' && v[0] != '[' && v[0] != '{'))
}

/// The view of an optional value survives the trip.
pub open spec fn val_ok_opt(o: Option<Seq<char>>) -> bool {
    match o {
        Some(v) => val_ok(v),
        None => true,
    }
}

/// An extension key that survives the trip: one line, no colon, not
/// starting like a list item or a delimiter, and none of the fixed keys.
pub open spec fn key_ok(k: Seq<char>) -> bool {
    &&& k.len() >= 1
    &&& line_ok(k)
    &&& forall|i: int| 0 <= i < k.len() ==> k[i] != ':'
    &&& !is_space(k[0])
    &&& k[0] != '-'
    &&& k != "id"@ && k != "title"@ && k != "status"@ && k != "date"@
    &&& k != "tags"@ && k != "authors"@ && k != "deciders"@ && k != "links"@
    &&& k != "format"@ && k != "supersedes"@ && k != "superseded_by"@
}

/// A frontmatter whose serialized form parses back to itself.
pub open spec fn fm_serializable(fm: FmView) -> bool {
    &&& val_ok_opt(fm.id)
    &&& val_ok(fm.title)
    &&& (match fm.date {
        Some(d) => d.wf() && d.hour == 0 && d.minute == 0 && d.second == 0,
        None => true,
    })
    &&& forall|i: int| 0 <= i < fm.tags.len() ==> val_ok(#[trigger] fm.tags[i])
    &&& forall|i: int| 0 <= i < fm.authors.len() ==> val_ok(#[trigger] fm.authors[i])
    &&& forall|i: int| 0 <= i < fm.deciders.len() ==> val_ok(#[trigger] fm.deciders[i])
    &&& forall|i: int| 0 <= i < fm.links.len() ==> val_ok((#[trigger] fm.links[i]).rel) && val_ok(
        fm.links[i].target,
    )
    &&& val_ok_opt(fm.format)
    &&& val_ok_opt(fm.supersedes)
    &&& val_ok_opt(fm.superseded_by)
    &&& forall|i: int| 0 <= i < fm.custom.len() ==> key_ok((#[trigger] fm.custom[i]).0) && line_ok(
        fm.custom[i].1,
    )
}

/// Scanning from any point before the first colon finds it.
proof fn lemma_first_colon_at(l: Seq<char>, cp: int, i: int)
    requires
        0 <= i <= cp < l.len(),
        l[cp] == ':',
        forall|j: int| i <= j < cp ==> l[j] != ':',
    ensures
        first_colon_from(l, i) == Some(cp),
    decreases cp - i,
{
    if i < cp {
        lemma_first_colon_at(l, cp, i + 1);
    }
}

/// The shape of a `key: value` line, for a colon-free key.
proof fn lemma_kv_shape(key: Seq<char>, v: Seq<char>)
    requires
        key.len() >= 1,
        forall|i: int| 0 <= i < key.len() ==> key[i] != ':',
    ensures
        first_colon_from(kv_line(key, v), 0) == Some(key.len() as int),
        kv_line(key, v).take(key.len() as int) == key,
        kv_line(key, v).skip(key.len() as int + 1) == seq![' '] + v,
        kv_line(key, v)[0] == key[0],
        kv_line(key, v).len() == key.len() + 2 + v.len(),
{
    let l = kv_line(key, v);
    assert(l[key.len() as int] == ':');
    assert(forall|j: int| 0 <= j < key.len() ==> l[j] == key[j]);
    lemma_first_colon_at(l, key.len() as int, 0);
    assert(l.take(key.len() as int) =~= key);
    assert(l.skip(key.len() as int + 1) =~= seq![' '] + v);
}

/// How `step` reads a top-level `key: value` line.
proof fn lemma_step_kv(st: PState, key: Seq<char>, v: Seq<char>)
    requires
        st.ok,
        key.len() >= 1,
        line_ok(key),
        line_ok(v),
        forall|i: int| 0 <= i < key.len() ==> key[i] != ':',
        !is_space(key[0]),
        key[0] != '-',
    ensures
        step(st, kv_line(key, v)) == step_key(st, key, seq![' '] + v),
{
    let l = kv_line(key, v);
    lemma_kv_shape(key, v);
    assert(!is_space(l[0]));
    assert(leading_spaces(l) == 0);
    assert(l.skip(0) =~= l);
    assert(!blank_line(l));
    assert(l != seq!['-']) by {
        assert(l[0] != '-');
    }
    assert(!is_prefix(seq!['-', ' '], l)) by {
        if is_prefix(seq!['-', ' '], l) {
            assert(l.subrange(0, 2)[0] == l[0]);
        }
    }
}

/// How `step` reads a bare list key line.
proof fn lemma_step_bare_key(st: PState, key: Seq<char>)
    requires
        st.ok,
        key.len() >= 1,
        line_ok(key),
        forall|i: int| 0 <= i < key.len() ==> key[i] != ':',
        !is_space(key[0]),
        key[0] != '-',
    ensures
        step(st, key + seq![':']) == step_key(st, key, Seq::empty()),
{
    let l = key + seq![':'];
    assert(l[key.len() as int] == ':');
    assert(forall|j: int| 0 <= j < key.len() ==> l[j] == key[j]);
    lemma_first_colon_at(l, key.len() as int, 0);
    assert(l.take(key.len() as int) =~= key);
    assert(l.skip(key.len() as int + 1) =~= Seq::<char>::empty());
    assert(!is_space(l[0]));
    assert(leading_spaces(l) == 0);
    assert(l.skip(0) =~= l);
    assert(!blank_line(l));
    assert(l != seq!['-']) by {
        assert(l[0] != '-');
    }
    assert(!is_prefix(seq!['-', ' '], l)) by {
        if is_prefix(seq!['-', ' '], l) {
            assert(l.subrange(0, 2)[0] == l[0]);
        }
    }
}

/// How `step` reads a `- item` line.
proof fn lemma_step_dash_item(st: PState, it: Seq<char>)
    requires
        st.ok,
        line_ok(it),
    ensures
        step(st, seq!['-', ' '] + it) == step_item(st, it),
{
    let l = seq!['-', ' '] + it;
    assert(l[0] == '-');
    assert(!is_space(l[0]));
    assert(leading_spaces(l) == 0);
    assert(l.skip(0) =~= l);
    assert(!blank_line(l));
    assert(l != seq!['-']) by {
        assert(l.len() >= 2);
    }
    assert(is_prefix(seq!['-', ' '], l)) by {
        assert(l.subrange(0, 2) =~= seq!['-', ' ']);
    }
    assert(l.skip(2) =~= it);
}

/// How `step` reads an indented `key: value` continuation line.
proof fn lemma_step_indented_kv(st: PState, key: Seq<char>, v: Seq<char>)
    requires
        st.ok,
        key.len() >= 1,
        line_ok(key),
        line_ok(v),
        forall|i: int| 0 <= i < key.len() ==> key[i] != ':',
        !is_space(key[0]),
        key[0] != '-',
    ensures
        step(st, seq![' ', ' '] + kv_line(key, v)) == step_continuation(st, key, seq![' '] + v),
{
    let inner = kv_line(key, v);
    let l = seq![' ', ' '] + inner;
    lemma_kv_shape(key, v);
    assert(l[0] == ' ' && l[1] == ' ');
    assert(l[2] == key[0]);
    assert(!is_space(l[2]));
    assert(leading_spaces(l) == 2) by {
        assert(inner[0] == key[0]);
        assert(leading_spaces(inner) == 0);
        assert((seq![' '] + inner)[0] == ' ');
        assert((seq![' '] + inner).skip(1) =~= inner);
        assert(leading_spaces(seq![' '] + inner) == 1 + leading_spaces(inner));
        assert(l.skip(1) =~= seq![' '] + inner);
        assert(leading_spaces(l) == 1 + leading_spaces(l.skip(1)));
    }
    assert(!blank_line(l));
    let t = l.skip(2);
    assert(t =~= inner);
    assert(t != seq!['-']) by {
        assert(t[0] != '-');
    }
    assert(!is_prefix(seq!['-', ' '], t)) by {
        if is_prefix(seq!['-', ' '], t) {
            assert(t.subrange(0, 2)[0] == t[0]);
        }
    }
}

/// Folding distributes over concatenated line blocks.
proof fn lemma_fold_concat(st: PState, a: Seq<Seq<char>>, b: Seq<Seq<char>>)
    ensures
        fold_lines(st, a + b) == fold_lines(fold_lines(st, a), b),
    decreases a.len(),
{
    if a.len() == 0 {
        assert(a + b =~= b);
    } else {
        assert((a + b)[0] == a[0]);
        assert((a + b).skip(1) =~= a.skip(1) + b);
        lemma_fold_concat(step(st, a[0]), a.skip(1), b);
    }
}

/// Reading the serialized `id` line.
proof fn lemma_fold_id(st: PState, v: Seq<char>)
    requires
        st.ok,
        st.pend is PNone,
        val_ok(v),
    ensures
        step(st, kv_line("id"@, v)) == (PState { fm: FmView { id: Some(v), ..st.fm }, target: Target::TNone, ..st }),
{
    reveal_strlit("id");
    reveal_strlit("title");
    reveal_strlit("status");
    reveal_strlit("date");
    reveal_strlit("tags");
    reveal_strlit("authors");
    reveal_strlit("deciders");
    reveal_strlit("links");
    reveal_strlit("format");
    reveal_strlit("supersedes");
    reveal_strlit("superseded_by");
    reveal_strlit("rel");
    reveal_strlit("target");
    assert("id"@.len() >= 1);
    lemma_step_kv(st, "id"@, v);
    assert((seq![' '] + v).skip(1) =~= v);
    assert(scalar_of(v) == Some(v));
}

/// Reading the serialized `title` line.
proof fn lemma_fold_title(st: PState, v: Seq<char>)
    requires
        st.ok,
        st.pend is PNone,
        val_ok(v),
    ensures
        step(st, kv_line("title"@, v)) == (PState { fm: FmView { title: v, ..st.fm }, seen_title: true, target: Target::TNone, ..st }),
{
    reveal_strlit("id");
    reveal_strlit("title");
    reveal_strlit("status");
    reveal_strlit("date");
    reveal_strlit("tags");
    reveal_strlit("authors");
    reveal_strlit("deciders");
    reveal_strlit("links");
    reveal_strlit("format");
    reveal_strlit("supersedes");
    reveal_strlit("superseded_by");
    reveal_strlit("rel");
    reveal_strlit("target");
    assert("title"@.len() >= 1);
    lemma_step_kv(st, "title"@, v);
    assert((seq![' '] + v).skip(1) =~= v);
    assert(scalar_of(v) == Some(v));
}

/// Reading the serialized `format` line.
proof fn lemma_fold_format(st: PState, v: Seq<char>)
    requires
        st.ok,
        st.pend is PNone,
        val_ok(v),
    ensures
        step(st, kv_line("format"@, v)) == (PState { fm: FmView { format: Some(v), ..st.fm }, target: Target::TNone, ..st }),
{
    reveal_strlit("id");
    reveal_strlit("title");
    reveal_strlit("status");
    reveal_strlit("date");
    reveal_strlit("tags");
    reveal_strlit("authors");
    reveal_strlit("deciders");
    reveal_strlit("links");
    reveal_strlit("format");
    reveal_strlit("supersedes");
    reveal_strlit("superseded_by");
    reveal_strlit("rel");
    reveal_strlit("target");
    assert("format"@.len() >= 1);
    lemma_step_kv(st, "format"@, v);
    assert((seq![' '] + v).skip(1) =~= v);
    assert(scalar_of(v) == Some(v));
}

/// Reading the serialized `supersedes` line.
proof fn lemma_fold_supersedes(st: PState, v: Seq<char>)
    requires
        st.ok,
        st.pend is PNone,
        val_ok(v),
    ensures
        step(st, kv_line("supersedes"@, v)) == (PState { fm: FmView { supersedes: Some(v), ..st.fm }, target: Target::TNone, ..st }),
{
    reveal_strlit("id");
    reveal_strlit("title");
    reveal_strlit("status");
    reveal_strlit("date");
    reveal_strlit("tags");
    reveal_strlit("authors");
    reveal_strlit("deciders");
    reveal_strlit("links");
    reveal_strlit("format");
    reveal_strlit("supersedes");
    reveal_strlit("superseded_by");
    reveal_strlit("rel");
    reveal_strlit("target");
    assert("supersedes"@.len() >= 1);
    lemma_step_kv(st, "supersedes"@, v);
    assert((seq![' '] + v).skip(1) =~= v);
    assert(scalar_of(v) == Some(v));
}

/// Reading the serialized `superseded_by` line.
proof fn lemma_fold_superseded_by(st: PState, v: Seq<char>)
    requires
        st.ok,
        st.pend is PNone,
        val_ok(v),
    ensures
        step(st, kv_line("superseded_by"@, v)) == (PState { fm: FmView { superseded_by: Some(v), ..st.fm }, target: Target::TNone, ..st }),
{
    reveal_strlit("id");
    reveal_strlit("title");
    reveal_strlit("status");
    reveal_strlit("date");
    reveal_strlit("tags");
    reveal_strlit("authors");
    reveal_strlit("deciders");
    reveal_strlit("links");
    reveal_strlit("format");
    reveal_strlit("supersedes");
    reveal_strlit("superseded_by");
    reveal_strlit("rel");
    reveal_strlit("target");
    assert("superseded_by"@.len() >= 1);
    lemma_step_kv(st, "superseded_by"@, v);
    assert((seq![' '] + v).skip(1) =~= v);
    assert(scalar_of(v) == Some(v));
}

/// Reading the serialized `status` line.
proof fn lemma_fold_status(st: PState, stv: AdrStatus)
    requires
        st.ok,
        st.pend is PNone,
    ensures
        step(st, kv_line("status"@, status_text(stv))) == (PState {
            fm: FmView { status: stv, ..st.fm },
            target: Target::TNone,
            ..st
        }),
{
    reveal_strlit("id");
    reveal_strlit("title");
    reveal_strlit("status");
    reveal_strlit("date");
    reveal_strlit("tags");
    reveal_strlit("authors");
    reveal_strlit("deciders");
    reveal_strlit("links");
    reveal_strlit("format");
    reveal_strlit("supersedes");
    reveal_strlit("superseded_by");
    reveal_strlit("proposed");
    reveal_strlit("accepted");
    reveal_strlit("deprecated");
    reveal_strlit("superseded");
    reveal_strlit("rejected");
    let v = status_text(stv);
    assert(line_ok(v) && v.len() >= 1 && v[0] != '\'' && v[0] != '"' && v[0] != '[' && v[0]
        != '{');
    lemma_step_kv(st, "status"@, v);
    assert((seq![' '] + v).skip(1) =~= v);
    assert(scalar_of(v) == Some(v));
    assert(status_of_exact(v) == Some(stv));
}

/// Reading the serialized `date` line.
proof fn lemma_fold_date(st: PState, d: FlexibleDate)
    requires
        st.ok,
        st.pend is PNone,
        d.wf(),
        d.hour == 0,
        d.minute == 0,
        d.second == 0,
    ensures
        step(st, kv_line("date"@, date_only_str(d))) == (PState {
            fm: FmView { date: Some(d), ..st.fm },
            target: Target::TNone,
            ..st
        }),
{
    reveal_strlit("id");
    reveal_strlit("title");
    reveal_strlit("status");
    reveal_strlit("date");
    reveal_strlit("tags");
    reveal_strlit("authors");
    reveal_strlit("deciders");
    reveal_strlit("links");
    reveal_strlit("format");
    reveal_strlit("supersedes");
    reveal_strlit("superseded_by");
    let v = date_only_str(d);
    crate::date::lemma_date_only_str_shape(d);
    assert(line_ok(v)) by {
        assert(forall|i: int| 0 <= i < v.len() ==> v[i] != '\n') by {
            assert(forall|i: int|
                0 <= i < v.len() ==> (crate::text::is_digit(#[trigger] v[i]) || v[i] == '-')) by {
                crate::date::lemma_date_only_digits(d);
            }
        }
    }
    assert(v[0] != '\'' && v[0] != '"' && v[0] != '[' && v[0] != '{');
    lemma_step_kv(st, "date"@, v);
    assert((seq![' '] + v).skip(1) =~= v);
    assert(scalar_of(v) == Some(v));
    crate::date::lemma_date_round_trip(d);
}

/// Reading a block list: the bare key line, then one item line each.
proof fn lemma_fold_tags(st: PState, items: Seq<Seq<char>>)
    requires
        st.ok,
        st.pend is PNone,
        forall|i: int| 0 <= i < items.len() ==> val_ok(#[trigger] items[i]),
        items.len() >= 1,
    ensures
        fold_lines(st, list_lines("tags"@, items)) == (PState {
            fm: FmView { tags: st.fm.tags + items, ..st.fm },
            target: Target::TTags,
            ..st
        }),
{
    reveal_strlit("tags");
    lemma_step_bare_key(st, "tags"@);
    let st1 = PState { target: Target::TTags, ..st };
    let mapped = items.map_values(|it: Seq<char>| seq!['-', ' '] + it);
    assert(list_lines("tags"@, items) == seq!["tags"@ + seq![':']] + mapped);
    lemma_fold_concat(st, seq!["tags"@ + seq![':']], mapped);
    assert(fold_lines(st, seq!["tags"@ + seq![':']]) == st1) by {
        assert(seq!["tags"@ + seq![':']].skip(1) =~= Seq::<Seq<char>>::empty());
        assert(step(st, "tags"@ + seq![':']) == st1);
        assert(fold_lines(st1, Seq::<Seq<char>>::empty()) == st1);
    }
    lemma_fold_tag_items(st1, items);
    assert(fold_lines(st1, mapped) == (PState {
        fm: FmView { tags: st1.fm.tags + items, ..st1.fm },
        ..st1
    }));
}

/// Reading the item lines of the tags list.
proof fn lemma_fold_tag_items(st: PState, items: Seq<Seq<char>>)
    requires
        st.ok,
        st.pend is PNone,
        st.target is TTags,
        forall|i: int| 0 <= i < items.len() ==> val_ok(#[trigger] items[i]),
    ensures
        fold_lines(st, items.map_values(|it: Seq<char>| seq!['-', ' '] + it)) == (PState {
            fm: FmView { tags: st.fm.tags + items, ..st.fm },
            ..st
        }),
    decreases items.len(),
{
    let mapped = items.map_values(|it: Seq<char>| seq!['-', ' '] + it);
    if items.len() == 0 {
        assert(st.fm.tags + items =~= st.fm.tags);
        assert((PState { fm: FmView { tags: st.fm.tags + items, ..st.fm }, ..st }) =~~= st);
    } else {
        lemma_step_dash_item(st, items[0]);
        assert(scalar_of(items[0]) == Some(items[0]));
        let st1 = PState { fm: FmView { tags: st.fm.tags.push(items[0]), ..st.fm }, ..st };
        assert(step(st, mapped[0]) == st1);
        assert(mapped.skip(1) =~= items.skip(1).map_values(|it: Seq<char>| seq!['-', ' '] + it));
        assert(forall|i: int| 0 <= i < items.skip(1).len() ==> val_ok(#[trigger] items.skip(
            1,
        )[i])) by {
            assert(forall|i: int| 0 <= i < items.skip(1).len() ==> items.skip(1)[i] == items[i
                + 1]);
        }
        lemma_fold_tag_items(st1, items.skip(1));
        assert(st1.fm.tags + items.skip(1) =~= st.fm.tags + items);
    }
}

/// Reading the authors list.
proof fn lemma_fold_authors(st: PState, items: Seq<Seq<char>>)
    requires
        st.ok,
        st.pend is PNone,
        forall|i: int| 0 <= i < items.len() ==> val_ok(#[trigger] items[i]),
        items.len() >= 1,
    ensures
        fold_lines(st, list_lines("authors"@, items)) == (PState {
            fm: FmView { authors: st.fm.authors + items, ..st.fm },
            target: Target::TAuthors,
            ..st
        }),
{
    reveal_strlit("id");
    reveal_strlit("title");
    reveal_strlit("status");
    reveal_strlit("date");
    reveal_strlit("tags");
    reveal_strlit("authors");
    reveal_strlit("deciders");
    reveal_strlit("links");
    reveal_strlit("format");
    reveal_strlit("supersedes");
    reveal_strlit("superseded_by");
    lemma_step_bare_key(st, "authors"@);
    let st1 = PState { target: Target::TAuthors, ..st };
    let mapped = items.map_values(|it: Seq<char>| seq!['-', ' '] + it);
    assert(list_lines("authors"@, items) == seq!["authors"@ + seq![':']] + mapped);
    lemma_fold_concat(st, seq!["authors"@ + seq![':']], mapped);
    assert(fold_lines(st, seq!["authors"@ + seq![':']]) == st1) by {
        assert(seq!["authors"@ + seq![':']].skip(1) =~= Seq::<Seq<char>>::empty());
        assert(step(st, "authors"@ + seq![':']) == st1);
        assert(fold_lines(st1, Seq::<Seq<char>>::empty()) == st1);
    }
    lemma_fold_author_items(st1, items);
}

/// Reading the item lines of the authors list.
proof fn lemma_fold_author_items(st: PState, items: Seq<Seq<char>>)
    requires
        st.ok,
        st.pend is PNone,
        st.target is TAuthors,
        forall|i: int| 0 <= i < items.len() ==> val_ok(#[trigger] items[i]),
    ensures
        fold_lines(st, items.map_values(|it: Seq<char>| seq!['-', ' '] + it)) == (PState {
            fm: FmView { authors: st.fm.authors + items, ..st.fm },
            ..st
        }),
    decreases items.len(),
{
    let mapped = items.map_values(|it: Seq<char>| seq!['-', ' '] + it);
    if items.len() == 0 {
        assert(st.fm.authors + items =~= st.fm.authors);
        assert((PState { fm: FmView { authors: st.fm.authors + items, ..st.fm }, ..st }) =~~= st);
    } else {
        lemma_step_dash_item(st, items[0]);
        assert(scalar_of(items[0]) == Some(items[0]));
        let st1 = PState { fm: FmView { authors: st.fm.authors.push(items[0]), ..st.fm }, ..st };
        assert(step(st, mapped[0]) == st1);
        assert(mapped.skip(1) =~= items.skip(1).map_values(|it: Seq<char>| seq!['-', ' '] + it));
        assert(forall|i: int| 0 <= i < items.skip(1).len() ==> val_ok(#[trigger] items.skip(
            1,
        )[i])) by {
            assert(forall|i: int| 0 <= i < items.skip(1).len() ==> items.skip(1)[i] == items[i
                + 1]);
        }
        lemma_fold_author_items(st1, items.skip(1));
        assert(st1.fm.authors + items.skip(1) =~= st.fm.authors + items);
    }
}

/// Reading the deciders list.
proof fn lemma_fold_deciders(st: PState, items: Seq<Seq<char>>)
    requires
        st.ok,
        st.pend is PNone,
        forall|i: int| 0 <= i < items.len() ==> val_ok(#[trigger] items[i]),
        items.len() >= 1,
    ensures
        fold_lines(st, list_lines("deciders"@, items)) == (PState {
            fm: FmView { deciders: st.fm.deciders + items, ..st.fm },
            target: Target::TDeciders,
            ..st
        }),
{
    reveal_strlit("id");
    reveal_strlit("title");
    reveal_strlit("status");
    reveal_strlit("date");
    reveal_strlit("tags");
    reveal_strlit("authors");
    reveal_strlit("deciders");
    reveal_strlit("links");
    reveal_strlit("format");
    reveal_strlit("supersedes");
    reveal_strlit("superseded_by");
    lemma_step_bare_key(st, "deciders"@);
    let st1 = PState { target: Target::TDeciders, ..st };
    let mapped = items.map_values(|it: Seq<char>| seq!['-', ' '] + it);
    assert(list_lines("deciders"@, items) == seq!["deciders"@ + seq![':']] + mapped);
    lemma_fold_concat(st, seq!["deciders"@ + seq![':']], mapped);
    assert(fold_lines(st, seq!["deciders"@ + seq![':']]) == st1) by {
        assert(seq!["deciders"@ + seq![':']].skip(1) =~= Seq::<Seq<char>>::empty());
        assert(step(st, "deciders"@ + seq![':']) == st1);
        assert(fold_lines(st1, Seq::<Seq<char>>::empty()) == st1);
    }
    lemma_fold_decider_items(st1, items);
}

/// Reading the item lines of the deciders list.
proof fn lemma_fold_decider_items(st: PState, items: Seq<Seq<char>>)
    requires
        st.ok,
        st.pend is PNone,
        st.target is TDeciders,
        forall|i: int| 0 <= i < items.len() ==> val_ok(#[trigger] items[i]),
    ensures
        fold_lines(st, items.map_values(|it: Seq<char>| seq!['-', ' '] + it)) == (PState {
            fm: FmView { deciders: st.fm.deciders + items, ..st.fm },
            ..st
        }),
    decreases items.len(),
{
    let mapped = items.map_values(|it: Seq<char>| seq!['-', ' '] + it);
    if items.len() == 0 {
        assert(st.fm.deciders + items =~= st.fm.deciders);
        assert((PState { fm: FmView { deciders: st.fm.deciders + items, ..st.fm }, ..st }) =~~= st);
    } else {
        lemma_step_dash_item(st, items[0]);
        assert(scalar_of(items[0]) == Some(items[0]));
        let st1 = PState { fm: FmView { deciders: st.fm.deciders.push(items[0]), ..st.fm }, ..st };
        assert(step(st, mapped[0]) == st1);
        assert(mapped.skip(1) =~= items.skip(1).map_values(|it: Seq<char>| seq!['-', ' '] + it));
        assert(forall|i: int| 0 <= i < items.skip(1).len() ==> val_ok(#[trigger] items.skip(
            1,
        )[i])) by {
            assert(forall|i: int| 0 <= i < items.skip(1).len() ==> items.skip(1)[i] == items[i
                + 1]);
        }
        lemma_fold_decider_items(st1, items.skip(1));
        assert(st1.fm.deciders + items.skip(1) =~= st.fm.deciders + items);
    }
}

/// Reading the links list.
proof fn lemma_fold_links(st: PState, links: Seq<LinkView>)
    requires
        st.ok,
        st.pend is PNone,
        forall|i: int|
            0 <= i < links.len() ==> val_ok((#[trigger] links[i]).rel) && val_ok(links[i].target),
        links.len() >= 1,
    ensures
        fold_lines(st, link_lines(links)) == (PState {
            fm: FmView { links: st.fm.links + links, ..st.fm },
            target: Target::TLinks,
            ..st
        }),
{
    reveal_strlit("id");
    reveal_strlit("title");
    reveal_strlit("status");
    reveal_strlit("date");
    reveal_strlit("tags");
    reveal_strlit("authors");
    reveal_strlit("deciders");
    reveal_strlit("links");
    reveal_strlit("format");
    reveal_strlit("supersedes");
    reveal_strlit("superseded_by");
    lemma_step_bare_key(st, "links"@);
    let st1 = PState { target: Target::TLinks, ..st };
    let mapped = links.map_values(|l: LinkView| link_item_lines(l));
    assert(link_lines(links) == seq!["links"@ + seq![':']] + mapped.flatten());
    lemma_fold_concat(st, seq!["links"@ + seq![':']], mapped.flatten());
    assert(fold_lines(st, seq!["links"@ + seq![':']]) == st1) by {
        assert(seq!["links"@ + seq![':']].skip(1) =~= Seq::<Seq<char>>::empty());
        assert(step(st, "links"@ + seq![':']) == st1);
        assert(fold_lines(st1, Seq::<Seq<char>>::empty()) == st1);
    }
    lemma_fold_link_items(st1, links);
}

/// Reading the two-line items of the links list.
proof fn lemma_fold_link_items(st: PState, links: Seq<LinkView>)
    requires
        st.ok,
        st.pend is PNone,
        st.target is TLinks,
        forall|i: int|
            0 <= i < links.len() ==> val_ok((#[trigger] links[i]).rel) && val_ok(links[i].target),
    ensures
        fold_lines(st, links.map_values(|l: LinkView| link_item_lines(l)).flatten()) == (PState {
            fm: FmView { links: st.fm.links + links, ..st.fm },
            ..st
        }),
    decreases links.len(),
{
    reveal_strlit("rel");
    reveal_strlit("target");
    let mapped = links.map_values(|l: LinkView| link_item_lines(l));
    if links.len() == 0 {
        assert(mapped.flatten() =~~= Seq::<Seq<char>>::empty());
        assert(st.fm.links + links =~= st.fm.links);
        assert((PState { fm: FmView { links: st.fm.links + links, ..st.fm }, ..st }) =~~= st);
    } else {
        let l0 = links[0];
        // The flattened lines start with the first item's two lines.
        assert(mapped =~~= seq![link_item_lines(l0)] + links.skip(1).map_values(
            |l: LinkView| link_item_lines(l),
        ));
        vstd::seq_lib::lemma_flatten_concat(
            seq![link_item_lines(l0)],
            links.skip(1).map_values(|l: LinkView| link_item_lines(l)),
        );
        seq![link_item_lines(l0)].lemma_flatten_one_element();
        let rest_flat = links.skip(1).map_values(|l: LinkView| link_item_lines(l)).flatten();
        assert(mapped.flatten() == link_item_lines(l0) + rest_flat);
        // The first line opens a pending link with its rel.
        let rel_line = seq!['-', ' '] + kv_line("rel"@, l0.rel);
        assert("rel"@.len() >= 1 && "rel"@[0] != '-' && !is_space("rel"@[0]));
        assert(forall|i: int| 0 <= i < "rel"@.len() ==> "rel"@[i] != ':');
        lemma_step_dash_item(st, kv_line("rel"@, l0.rel));
        lemma_kv_shape("rel"@, l0.rel);
        assert((seq![' '] + l0.rel).skip(1) =~= l0.rel);
        assert(scalar_of(l0.rel) == Some(l0.rel));
        let st1 = PState { pend: Pend::PRel(l0.rel), ..st };
        assert(step(st, rel_line) == st1);
        // The second line completes it with the target.
        let tgt_line = seq![' ', ' '] + kv_line("target"@, l0.target);
        assert("target"@.len() >= 1 && "target"@[0] != '-' && !is_space("target"@[0]));
        assert(forall|i: int| 0 <= i < "target"@.len() ==> "target"@[i] != ':');
        lemma_step_indented_kv(st1, "target"@, l0.target);
        assert((seq![' '] + l0.target).skip(1) =~= l0.target);
        assert(scalar_of(l0.target) == Some(l0.target));
        let st2 = PState {
            fm: FmView { links: st.fm.links.push(l0), ..st.fm },
            pend: Pend::PNone,
            ..st1
        };
        assert(step(st1, tgt_line) == st2) by {
            assert(LinkView { rel: l0.rel, target: l0.target } =~= l0);
        }
        // Fold the two lines, then the remaining items.
        lemma_fold_concat(st, link_item_lines(l0), rest_flat);
        assert(fold_lines(st, link_item_lines(l0)) == st2) by {
            assert(link_item_lines(l0)[0] == rel_line);
            assert(link_item_lines(l0).skip(1) =~= seq![tgt_line]);
            assert(seq![tgt_line][0] == tgt_line);
            assert(seq![tgt_line].skip(1) =~= Seq::<Seq<char>>::empty());
            assert(fold_lines(st2, Seq::<Seq<char>>::empty()) == st2);
            assert(fold_lines(st1, seq![tgt_line]) == st2);
            assert(fold_lines(st, link_item_lines(l0)) == fold_lines(st1, seq![tgt_line]));
        }
        assert forall|i: int|
            0 <= i < links.skip(1).len() implies val_ok((#[trigger] links.skip(1)[i]).rel) && val_ok(
            links.skip(1)[i].target,
        ) by {
            assert(links.skip(1)[i] == links[i + 1]);
            assert(val_ok(links[i + 1].rel) && val_ok(links[i + 1].target));
        }
        lemma_fold_link_items(st2, links.skip(1));
        assert(st2.fm.links + links.skip(1) =~= st.fm.links + links);
    }
}

/// Reading the verbatim extension lines.
proof fn lemma_fold_custom(st: PState, cs: Seq<(Seq<char>, Seq<char>)>)
    requires
        st.ok,
        st.pend is PNone,
        forall|i: int|
            0 <= i < cs.len() ==> key_ok((#[trigger] cs[i]).0) && crate::text::line_ok(cs[i].1),
    ensures
        fold_lines(st, custom_lines(cs)) == (PState {
            fm: FmView { custom: st.fm.custom + cs, ..st.fm },
            target: if cs.len() == 0 {
                st.target
            } else {
                Target::TNone
            },
            ..st
        }),
    decreases cs.len(),
{
    if cs.len() == 0 {
        assert(custom_lines(cs) =~~= Seq::<Seq<char>>::empty());
        assert(st.fm.custom + cs =~= st.fm.custom);
        assert((PState { fm: FmView { custom: st.fm.custom + cs, ..st.fm }, target: st.target, ..st
        }) =~~= st);
    } else {
        let (k0, v0) = cs[0];
        lemma_step_kv(st, k0, v0);
        assert((seq![' '] + v0).skip(1) =~= v0);
        let st1 = PState {
            fm: FmView { custom: st.fm.custom.push((k0, v0)), ..st.fm },
            target: Target::TNone,
            ..st
        };
        assert(step(st, kv_line(k0, v0)) == st1) by {
            assert((seq![' '] + v0).len() >= 1 && (seq![' '] + v0)[0] == ' ');
        }
        assert(custom_lines(cs)[0] == kv_line(k0, v0));
        assert(custom_lines(cs).skip(1) =~~= custom_lines(cs.skip(1)));
        assert forall|i: int|
            0 <= i < cs.skip(1).len() implies key_ok((#[trigger] cs.skip(1)[i]).0)
            && crate::text::line_ok(cs.skip(1)[i].1) by {
            assert(cs.skip(1)[i] == cs[i + 1]);
            assert(key_ok(cs[i + 1].0) && crate::text::line_ok(cs[i + 1].1));
        }
        lemma_fold_custom(st1, cs.skip(1));
        assert(st1.fm.custom + cs.skip(1) =~= st.fm.custom + cs);
        assert(fold_lines(st, custom_lines(cs)) == fold_lines(st1, custom_lines(cs.skip(1))));
    }
}

/// Folding no lines changes nothing.
proof fn lemma_fold_nil(st: PState)
    ensures
        fold_lines(st, Seq::empty()) == st,
{
}

/// Folding a single line is one step.
proof fn lemma_fold_one(st: PState, l: Seq<char>)
    ensures
        fold_lines(st, seq![l]) == step(st, l),
{
    assert(seq![l][0] == l);
    assert(seq![l].skip(1) =~= Seq::<Seq<char>>::empty());
    assert(fold_lines(step(st, l), Seq::<Seq<char>>::empty()) == step(st, l));
}

/// Reading the whole serialized metadata block from the initial state
/// recovers the metadata exactly.
/// Reading the first half of the block: scalars, date, lists, links.
#[verifier::rlimit(100)]
proof fn lemma_fold_fm_a(fm: FmView)
    requires
        fm_serializable(fm),
    ensures
        ({
            let f = fold_lines(
                init_state(),
                opt_lines("id"@, fm.id) + seq![kv_line("title"@, fm.title)] + seq![
                    kv_line("status"@, status_text(fm.status)),
                ] + date_lines(fm.date) + list_lines("tags"@, fm.tags) + list_lines(
                    "authors"@,
                    fm.authors,
                ) + list_lines("deciders"@, fm.deciders) + link_lines(fm.links),
            );
            f.ok && f.seen_title && f.pend is PNone && f.fm == (FmView {
                format: None,
                supersedes: None,
                superseded_by: None,
                custom: Seq::empty(),
                ..fm
            })
        }),
{
    let s0 = init_state();
    let l1 = opt_lines("id"@, fm.id);
    let l2 = seq![kv_line("title"@, fm.title)];
    let l3 = seq![kv_line("status"@, status_text(fm.status))];
    let l4 = date_lines(fm.date);
    let l5 = list_lines("tags"@, fm.tags);
    let l6 = list_lines("authors"@, fm.authors);
    let l7 = list_lines("deciders"@, fm.deciders);
    let l8 = link_lines(fm.links);
    let p1 = l1;
    let p2 = p1 + l2;
    let p3 = p2 + l3;
    let p4 = p3 + l4;
    let p5 = p4 + l5;
    let p6 = p5 + l6;
    let p7 = p6 + l7;
    let p8 = p7 + l8;
    lemma_fold_concat(s0, p1, l2);
    lemma_fold_concat(s0, p2, l3);
    lemma_fold_concat(s0, p3, l4);
    lemma_fold_concat(s0, p4, l5);
    lemma_fold_concat(s0, p5, l6);
    lemma_fold_concat(s0, p6, l7);
    lemma_fold_concat(s0, p7, l8);
    let s1 = fold_lines(s0, p1);
    match fm.id {
        Some(v) => {
            lemma_fold_one(s0, kv_line("id"@, v));
            lemma_fold_id(s0, v);
        },
        None => {
            lemma_fold_nil(s0);
        },
    }
    let s2 = fold_lines(s0, p2);
    lemma_fold_one(s1, kv_line("title"@, fm.title));
    lemma_fold_title(s1, fm.title);
    let s3 = fold_lines(s0, p3);
    lemma_fold_one(s2, kv_line("status"@, status_text(fm.status)));
    lemma_fold_status(s2, fm.status);
    let s4 = fold_lines(s0, p4);
    match fm.date {
        Some(d) => {
            lemma_fold_one(s3, kv_line("date"@, date_only_str(d)));
            lemma_fold_date(s3, d);
        },
        None => {
            lemma_fold_nil(s3);
        },
    }
    assert(s4.ok && s4.pend is PNone && s4.seen_title);
    let s5 = fold_lines(s0, p5);
    if fm.tags.len() == 0 {
        lemma_fold_nil(s4);
    } else {
        lemma_fold_tags(s4, fm.tags);
    }
    assert(s5.fm.tags =~= fm.tags);
    let s6 = fold_lines(s0, p6);
    if fm.authors.len() == 0 {
        lemma_fold_nil(s5);
    } else {
        lemma_fold_authors(s5, fm.authors);
    }
    assert(s6.fm.authors =~= fm.authors);
    let s7 = fold_lines(s0, p7);
    if fm.deciders.len() == 0 {
        lemma_fold_nil(s6);
    } else {
        lemma_fold_deciders(s6, fm.deciders);
    }
    assert(s7.fm.deciders =~= fm.deciders);
    let s8 = fold_lines(s0, p8);
    if fm.links.len() == 0 {
        lemma_fold_nil(s7);
    } else {
        assert forall|i: int|
            0 <= i < fm.links.len() implies val_ok((#[trigger] fm.links[i]).rel) && val_ok(
            fm.links[i].target,
        ) by {
            assert(val_ok(fm.links[i].rel) && val_ok(fm.links[i].target));
        }
        lemma_fold_links(s7, fm.links);
    }
    assert(s8.fm.links =~= fm.links);
    assert(s8.ok && s8.pend is PNone && s8.seen_title);
    assert(s8.fm =~~= (FmView {
        format: None,
        supersedes: None,
        superseded_by: None,
        custom: Seq::empty(),
        ..fm
    }));
}

/// Reading the whole serialized metadata block from the initial state
/// recovers the metadata exactly.
#[verifier::rlimit(100)]
proof fn lemma_fold_fm_lines(fm: FmView)
    requires
        fm_serializable(fm),
    ensures
        fold_lines(init_state(), fm_lines(fm)).ok,
        fold_lines(init_state(), fm_lines(fm)).seen_title,
        fold_lines(init_state(), fm_lines(fm)).pend is PNone,
        fold_lines(init_state(), fm_lines(fm)).fm == fm,
        parse_fm_lines(fm_lines(fm)) == Some(fm),
{
    let s0 = init_state();
    let p8 = opt_lines("id"@, fm.id) + seq![kv_line("title"@, fm.title)] + seq![
        kv_line("status"@, status_text(fm.status)),
    ] + date_lines(fm.date) + list_lines("tags"@, fm.tags) + list_lines("authors"@, fm.authors)
        + list_lines("deciders"@, fm.deciders) + link_lines(fm.links);
    let l9 = opt_lines("format"@, fm.format);
    let l10 = opt_lines("supersedes"@, fm.supersedes);
    let l11 = opt_lines("superseded_by"@, fm.superseded_by);
    let l12 = custom_lines(fm.custom);
    let p9 = p8 + l9;
    let p10 = p9 + l10;
    let p11 = p10 + l11;
    let p12 = p11 + l12;
    assert(fm_lines(fm) == p12);
    lemma_fold_concat(s0, p8, l9);
    lemma_fold_concat(s0, p9, l10);
    lemma_fold_concat(s0, p10, l11);
    lemma_fold_concat(s0, p11, l12);
    lemma_fold_fm_a(fm);
    let s8 = fold_lines(s0, p8);
    let s9 = fold_lines(s0, p9);
    match fm.format {
        Some(v) => {
            lemma_fold_one(s8, kv_line("format"@, v));
            lemma_fold_format(s8, v);
        },
        None => {
            lemma_fold_nil(s8);
        },
    }
    let s10 = fold_lines(s0, p10);
    match fm.supersedes {
        Some(v) => {
            lemma_fold_one(s9, kv_line("supersedes"@, v));
            lemma_fold_supersedes(s9, v);
        },
        None => {
            lemma_fold_nil(s9);
        },
    }
    let s11 = fold_lines(s0, p11);
    match fm.superseded_by {
        Some(v) => {
            lemma_fold_one(s10, kv_line("superseded_by"@, v));
            lemma_fold_superseded_by(s10, v);
        },
        None => {
            lemma_fold_nil(s10);
        },
    }
    assert(s11.ok && s11.pend is PNone && s11.seen_title);
    let s12 = fold_lines(s0, p12);
    lemma_fold_custom(s11, fm.custom);
    assert(s12.fm.custom =~= fm.custom);
    assert(s12.ok && s12.pend is PNone && s12.seen_title);
    assert(s12.fm =~~= fm);
}

/// A line fit for the metadata block: newline-free and not mistakable
/// for a delimiter.
pub open spec fn good_line(l: Seq<char>) -> bool {
    line_ok(l) && !is_prefix(dashes(), l)
}

/// Every line of the serialized metadata block is fit.
proof fn lemma_fm_lines_good(fm: FmView)
    requires
        fm_serializable(fm),
    ensures
        forall|i: int| 0 <= i < fm_lines(fm).len() ==> good_line(#[trigger] fm_lines(fm)[i]),
{
    reveal_strlit("id");
    reveal_strlit("title");
    reveal_strlit("status");
    reveal_strlit("date");
    reveal_strlit("tags");
    reveal_strlit("authors");
    reveal_strlit("deciders");
    reveal_strlit("links");
    reveal_strlit("format");
    reveal_strlit("supersedes");
    reveal_strlit("superseded_by");
    reveal_strlit("rel");
    reveal_strlit("target");
    reveal_strlit("proposed");
    reveal_strlit("accepted");
    reveal_strlit("deprecated");
    reveal_strlit("superseded");
    reveal_strlit("rejected");
    assert forall|i: int| 0 <= i < fm_lines(fm).len() implies good_line(
        #[trigger] fm_lines(fm)[i],
    ) by {
        lemma_fm_line_cases(fm, i);
    }
}

/// Each line of the block is a key line, an item line, or a link line,
/// and each of those is fit.
proof fn lemma_kv_good(key: Seq<char>, v: Seq<char>)
    requires
        key.len() >= 1,
        line_ok(key),
        line_ok(v),
        key[0] != '-',
    ensures
        good_line(kv_line(key, v)),
{
    let l = kv_line(key, v);
    assert(forall|j: int| 0 <= j < l.len() ==> l[j] != '\n') by {
        assert(forall|j: int| 0 <= j < key.len() ==> l[j] == key[j]);
        assert(l[key.len() as int] == ':' && l[key.len() as int + 1] == ' ');
        assert(forall|j: int| key.len() + 2 <= j < l.len() ==> l[j] == v[j - key.len() - 2]);
    }
    assert(!is_prefix(dashes(), l)) by {
        if is_prefix(dashes(), l) {
            assert(l.subrange(0, 3)[0] == l[0]);
        }
    }
}

/// A bare key line is fit.
proof fn lemma_bare_good(key: Seq<char>)
    requires
        key.len() >= 1,
        line_ok(key),
        key[0] != '-',
    ensures
        good_line(key + seq![':']),
{
    let l = key + seq![':'];
    assert(forall|j: int| 0 <= j < l.len() ==> l[j] != '\n') by {
        assert(forall|j: int| 0 <= j < key.len() ==> l[j] == key[j]);
    }
    assert(!is_prefix(dashes(), l)) by {
        if is_prefix(dashes(), l) {
            assert(l.subrange(0, 3)[0] == l[0]);
        }
    }
}

/// An item line is fit.
proof fn lemma_item_good(it: Seq<char>)
    requires
        line_ok(it),
    ensures
        good_line(seq!['-', ' '] + it),
{
    let l = seq!['-', ' '] + it;
    assert(forall|j: int| 0 <= j < l.len() ==> l[j] != '\n') by {
        assert(l[0] == '-' && l[1] == ' ');
        assert(forall|j: int| 2 <= j < l.len() ==> l[j] == it[j - 2]);
    }
    assert(!is_prefix(dashes(), l)) by {
        if is_prefix(dashes(), l) {
            assert(l.subrange(0, 3)[1] == l[1]);
        }
    }
}

/// An indented line is fit.
proof fn lemma_indent_good(inner: Seq<char>)
    requires
        line_ok(inner),
    ensures
        good_line(seq![' ', ' '] + inner),
{
    let l = seq![' ', ' '] + inner;
    assert(forall|j: int| 0 <= j < l.len() ==> l[j] != '\n') by {
        assert(l[0] == ' ' && l[1] == ' ');
        assert(forall|j: int| 2 <= j < l.len() ==> l[j] == inner[j - 2]);
    }
    assert(!is_prefix(dashes(), l)) by {
        if is_prefix(dashes(), l) {
            assert(l.subrange(0, 3)[0] == l[0]);
        }
    }
}

/// Case analysis for one line of the serialized block.
#[verifier::rlimit(100)]
proof fn lemma_fm_line_cases(fm: FmView, i: int)
    requires
        fm_serializable(fm),
        0 <= i < fm_lines(fm).len(),
    ensures
        good_line(fm_lines(fm)[i]),
{
    reveal_strlit("id");
    reveal_strlit("title");
    reveal_strlit("status");
    reveal_strlit("date");
    reveal_strlit("tags");
    reveal_strlit("authors");
    reveal_strlit("deciders");
    reveal_strlit("links");
    reveal_strlit("format");
    reveal_strlit("supersedes");
    reveal_strlit("superseded_by");
    reveal_strlit("rel");
    reveal_strlit("target");
    reveal_strlit("proposed");
    reveal_strlit("accepted");
    reveal_strlit("deprecated");
    reveal_strlit("superseded");
    reveal_strlit("rejected");
    let l1 = opt_lines("id"@, fm.id);
    let l2 = seq![kv_line("title"@, fm.title)];
    let l3 = seq![kv_line("status"@, status_text(fm.status))];
    let l4 = date_lines(fm.date);
    let l5 = list_lines("tags"@, fm.tags);
    let l6 = list_lines("authors"@, fm.authors);
    let l7 = list_lines("deciders"@, fm.deciders);
    let l8 = link_lines(fm.links);
    let l9 = opt_lines("format"@, fm.format);
    let l10 = opt_lines("supersedes"@, fm.supersedes);
    let l11 = opt_lines("superseded_by"@, fm.superseded_by);
    let l12 = custom_lines(fm.custom);
    lemma_opt_good("id"@, fm.id);
    lemma_kv_good("title"@, fm.title);
    lemma_kv_good("status"@, status_text(fm.status));
    match fm.date {
        Some(d) => {
            crate::date::lemma_date_only_digits(d);
            assert(line_ok(date_only_str(d))) by {
                assert(forall|j: int|
                    0 <= j < date_only_str(d).len() ==> #[trigger] date_only_str(d)[j] != '\n');
            }
            lemma_kv_good("date"@, date_only_str(d));
        },
        None => {},
    }
    lemma_list_good("tags"@, fm.tags);
    lemma_list_good("authors"@, fm.authors);
    lemma_list_good("deciders"@, fm.deciders);
    lemma_links_good(fm.links);
    lemma_opt_good("format"@, fm.format);
    lemma_opt_good("supersedes"@, fm.supersedes);
    lemma_opt_good("superseded_by"@, fm.superseded_by);
    lemma_custom_good(fm.custom);
    let s = fm_lines(fm);
    assert(s == l1 + l2 + l3 + l4 + l5 + l6 + l7 + l8 + l9 + l10 + l11 + l12);
    let b1 = l1.len();
    let b2 = b1 + l2.len();
    let b3 = b2 + l3.len();
    let b4 = b3 + l4.len();
    let b5 = b4 + l5.len();
    let b6 = b5 + l6.len();
    let b7 = b6 + l7.len();
    let b8 = b7 + l8.len();
    let b9 = b8 + l9.len();
    let b10 = b9 + l10.len();
    let b11 = b10 + l11.len();
    if i < b1 {
        assert(s[i] == l1[i]);
    } else if i < b2 {
        assert(s[i] == l2[i - b1]);
    } else if i < b3 {
        assert(s[i] == l3[i - b2]);
    } else if i < b4 {
        assert(s[i] == l4[i - b3]);
    } else if i < b5 {
        assert(s[i] == l5[i - b4]);
    } else if i < b6 {
        assert(s[i] == l6[i - b5]);
    } else if i < b7 {
        assert(s[i] == l7[i - b6]);
    } else if i < b8 {
        assert(s[i] == l8[i - b7]);
    } else if i < b9 {
        assert(s[i] == l9[i - b8]);
    } else if i < b10 {
        assert(s[i] == l10[i - b9]);
    } else if i < b11 {
        assert(s[i] == l11[i - b10]);
    } else {
        assert(s[i] == l12[i - b11]);
    }
}

/// The lines of an optional scalar are fit.
proof fn lemma_opt_good(key: Seq<char>, o: Option<Seq<char>>)
    requires
        key.len() >= 1,
        line_ok(key),
        key[0] != '-',
        val_ok_opt(o),
    ensures
        forall|j: int| 0 <= j < opt_lines(key, o).len() ==> good_line(#[trigger] opt_lines(
            key,
            o,
        )[j]),
{
    match o {
        Some(v) => {
            lemma_kv_good(key, v);
        },
        None => {},
    }
}

/// The lines of a block list are fit.
proof fn lemma_list_good(key: Seq<char>, items: Seq<Seq<char>>)
    requires
        key.len() >= 1,
        line_ok(key),
        key[0] != '-',
        forall|i: int| 0 <= i < items.len() ==> val_ok(#[trigger] items[i]),
    ensures
        forall|j: int| 0 <= j < list_lines(key, items).len() ==> good_line(#[trigger] list_lines(
            key,
            items,
        )[j]),
{
    if items.len() > 0 {
        lemma_bare_good(key);
        let ls = list_lines(key, items);
        assert forall|j: int| 0 <= j < ls.len() implies good_line(#[trigger] ls[j]) by {
            if j > 0 {
                assert(ls[j] == seq!['-', ' '] + items[j - 1]);
                lemma_item_good(items[j - 1]);
            }
        }
    }
}

/// The lines of the links list are fit.
proof fn lemma_links_good(links: Seq<LinkView>)
    requires
        forall|i: int|
            0 <= i < links.len() ==> val_ok((#[trigger] links[i]).rel) && val_ok(links[i].target),
    ensures
        forall|j: int| 0 <= j < link_lines(links).len() ==> good_line(
            #[trigger] link_lines(links)[j],
        ),
{
    reveal_strlit("links");
    reveal_strlit("rel");
    reveal_strlit("target");
    if links.len() > 0 {
        lemma_bare_good("links"@);
        let mapped = links.map_values(|l: LinkView| link_item_lines(l));
        let flat = mapped.flatten();
        lemma_link_flat(links);
        let ls = link_lines(links);
        assert forall|j: int| 0 <= j < ls.len() implies good_line(#[trigger] ls[j]) by {
            if j > 0 {
                assert(ls[j] == flat[j - 1]);
                let q = (j - 1) / 2;
                let r = (j - 1) % 2;
                assert(flat[j - 1] == link_item_lines(links[q])[r]);
                lemma_kv_good("rel"@, links[q].rel);
                lemma_kv_good("target"@, links[q].target);
                lemma_item_good(kv_line("rel"@, links[q].rel));
                lemma_indent_good(kv_line("target"@, links[q].target));
            }
        }
    }
}

/// The flattened link lines, indexed: two lines per link.
proof fn lemma_link_flat(links: Seq<LinkView>)
    ensures
        links.map_values(|l: LinkView| link_item_lines(l)).flatten().len() == 2 * links.len(),
        forall|j: int|
            0 <= j < 2 * links.len() ==> links.map_values(|l: LinkView| link_item_lines(l)).flatten(
            )[j] == (#[trigger] link_item_lines(links[j / 2]))[j % 2],
    decreases links.len(),
{
    let mapped = links.map_values(|l: LinkView| link_item_lines(l));
    if links.len() == 0 {
        assert(mapped.flatten() =~~= Seq::<Seq<char>>::empty());
    } else {
        lemma_link_flat(links.skip(1));
        let rest = links.skip(1).map_values(|l: LinkView| link_item_lines(l));
        assert(mapped =~~= seq![link_item_lines(links[0])] + rest);
        vstd::seq_lib::lemma_flatten_concat(seq![link_item_lines(links[0])], rest);
        seq![link_item_lines(links[0])].lemma_flatten_one_element();
        assert(mapped.flatten() == link_item_lines(links[0]) + rest.flatten());
        assert forall|j: int| 0 <= j < 2 * links.len() implies mapped.flatten()[j]
            == link_item_lines(links[j / 2])[j % 2] by {
            if j >= 2 {
                assert(mapped.flatten()[j] == rest.flatten()[j - 2]);
                assert(rest.flatten()[j - 2] == link_item_lines(links.skip(1)[(j - 2) / 2])[(j - 2)
                    % 2]);
                assert(links.skip(1)[(j - 2) / 2] == links[(j - 2) / 2 + 1]);
                assert((j - 2) / 2 + 1 == j / 2 && (j - 2) % 2 == j % 2) by (nonlinear_arith)
                    requires
                        j >= 2,
                ;
            } else {
                assert(mapped.flatten()[j] == link_item_lines(links[0])[j]);
            }
        }
    }
}

/// The verbatim extension lines are fit.
proof fn lemma_custom_good(cs: Seq<(Seq<char>, Seq<char>)>)
    requires
        forall|i: int| 0 <= i < cs.len() ==> key_ok((#[trigger] cs[i]).0) && line_ok(cs[i].1),
    ensures
        forall|j: int| 0 <= j < custom_lines(cs).len() ==> good_line(#[trigger] custom_lines(
            cs,
        )[j]),
{
    assert forall|j: int| 0 <= j < custom_lines(cs).len() implies good_line(
        #[trigger] custom_lines(cs)[j],
    ) by {
        assert(custom_lines(cs)[j] == kv_line(cs[j].0, cs[j].1));
        assert(key_ok(cs[j].0) && line_ok(cs[j].1));
        lemma_kv_good(cs[j].0, cs[j].1);
    }
}

/// The first line is a prefix of the joined text.
proof fn lemma_join_prefix(ls: Seq<Seq<char>>)
    requires
        ls.len() >= 1,
    ensures
        is_prefix(ls[0], join_lines(ls)),
{
    if ls.len() == 1 {
        assert(join_lines(ls).subrange(0, ls[0].len() as int) =~= ls[0]);
    } else {
        assert(join_lines(ls) == ls[0] + seq!['\n'] + join_lines(ls.skip(1)));
        assert(join_lines(ls).subrange(0, ls[0].len() as int) =~= ls[0]);
    }
}

/// A trimmed, nonempty text neither starts nor ends with whitespace.
proof fn lemma_trim_fixed(s: Seq<char>)
    requires
        trim_spec(s) == s,
        s.len() > 0,
    ensures
        !is_space(s[0]),
        !is_space(s[s.len() - 1]),
        leading_spaces(s) == 0,
        trailing_spaces(s) == 0,
{
    crate::text::lemma_leading_spaces_bound(s);
    crate::text::lemma_trailing_spaces_bound(s);
    if leading_spaces(s) == s.len() {
        assert(trim_spec(s).len() == 0);
    } else {
        assert(trim_spec(s).len() == s.len() - leading_spaces(s) - trailing_spaces(s));
        assert(leading_spaces(s) == 0 && trailing_spaces(s) == 0);
    }
}

/// Prepending any character to a text with some non-space leaves the
/// count of trailing spaces alone.
proof fn lemma_trailing_cons(c: char, x: Seq<char>)
    requires
        exists|i: int| 0 <= i < x.len() && !is_space(#[trigger] x[i]),
    ensures
        trailing_spaces(seq![c] + x) == trailing_spaces(x),
    decreases x.len(),
{
    let y = seq![c] + x;
    assert(x.len() >= 1);
    assert(y[y.len() - 1] == x[x.len() - 1]);
    if !is_space(x[x.len() - 1]) {
    } else {
        let i = choose|i: int| 0 <= i < x.len() && !is_space(#[trigger] x[i]);
        assert(i < x.len() - 1);
        let xt = x.take(x.len() - 1);
        assert(xt[i] == x[i]);
        lemma_trailing_cons(c, xt);
        assert(y.take(y.len() - 1) =~= seq![c] + xt);
    }
}

/// Dropping a leading newline does not change the trimmed text.
proof fn lemma_trim_cons_newline(x: Seq<char>)
    ensures
        trim_spec(seq!['\n'] + x) == trim_spec(x),
{
    let y = seq!['\n'] + x;
    crate::text::lemma_leading_spaces_bound(x);
    crate::text::lemma_trailing_spaces_bound(x);
    assert(y[0] == '\n' && is_space(y[0]));
    assert(y.skip(1) =~= x);
    assert(leading_spaces(y) == 1 + leading_spaces(x));
    if leading_spaces(x) == x.len() {
        assert(leading_spaces(y) == y.len());
        assert(trim_spec(y) == Seq::<char>::empty());
        assert(trim_spec(x) =~= Seq::<char>::empty());
    } else {
        assert(!is_space(x[leading_spaces(x)]));
        assert(exists|i: int| 0 <= i < x.len() && !is_space(#[trigger] x[i])) by {
            assert(!is_space(x[leading_spaces(x)]));
        }
        lemma_trailing_cons('\n', x);
        assert(trim_spec(y) =~= trim_spec(x));
    }
}

/// The first delimiter line at or after `f`, found at `m`.
proof fn lemma_first_close_at(lines: Seq<Seq<char>>, f: int, m: int)
    requires
        1 <= f <= m < lines.len(),
        is_prefix(dashes(), lines[m]),
        forall|j: int| f <= j < m ==> !is_prefix(dashes(), #[trigger] lines[j]),
    ensures
        first_close_from(lines, f) == Some(m),
    decreases m - f,
{
    if f < m {
        lemma_first_close_at(lines, f + 1, m);
    }
}

/// Parsing a serialized record recovers the metadata and the body
/// exactly: the round trip over the document form.
#[verifier::rlimit(100)]
pub proof fn lemma_markdown_round_trip(fm: FmView, body: Seq<char>)
    requires
        fm_serializable(fm),
        trim_spec(body) == body,
    ensures
        parse_markdown_spec(adr_markdown(fm, body)) == MdParse::Parsed(fm, body),
{
    let fl = fm_lines(fm);
    let b = split_lines(body);
    let d = doc_lines(fm, body);
    let doc = adr_markdown(fm, body);
    lemma_fm_lines_good(fm);
    crate::text::lemma_split_lines_ok(body);
    crate::text::lemma_split_lines_len(body);
    crate::text::lemma_join_split(body);
    assert(line_ok(dashes()));
    assert(lines_ok(d)) by {
        assert forall|i: int| 0 <= i < d.len() implies line_ok(#[trigger] d[i]) by {
            if i == 0 {
            } else if i < 1 + fl.len() {
                assert(d[i] == fl[i - 1]);
                assert(good_line(fl[i - 1]));
            } else if i == 1 + fl.len() {
                assert(d[i] == dashes());
            } else if i == 2 + fl.len() {
                assert(d[i] =~= Seq::<char>::empty());
            } else {
                assert(d[i] == b[i - 3 - fl.len()]);
            }
        }
    }
    // The serialized document, trimmed, splits back into its lines.
    let pre = seq![dashes()] + fl + seq![dashes(), Seq::<char>::empty()];
    assert(d == pre + b);
    crate::text::lemma_join_concat(pre, b);
    assert(doc == join_lines(pre) + seq!['\n'] + body);
    let c = trim_spec(doc);
    let pre1 = seq![dashes()] + fl + seq![dashes()];
    let lines_c = if body.len() > 0 {
        d
    } else {
        pre1
    };
    if body.len() > 0 {
        lemma_trim_fixed(body);
        assert(doc[doc.len() - 1] == body[body.len() - 1]);
        lemma_join_prefix(d);
        assert(doc[0] == dashes()[0]) by {
            assert(doc.subrange(0, 3)[0] == doc[0]);
        }
        assert(!is_space(doc[0]) && !is_space(doc[doc.len() - 1]));
        crate::text::lemma_trim_id(doc);
        assert(c == doc);
        crate::text::lemma_split_join(d);
        assert(split_lines(c) == d);
    } else {
        assert(b =~~= seq![Seq::<char>::empty()]);
        assert(pre =~~= pre1 + seq![Seq::<char>::empty()]);
        crate::text::lemma_join_concat(pre1, seq![Seq::<char>::empty()]);
        assert(join_lines(seq![Seq::<char>::empty()]) =~= Seq::<char>::empty());
        assert(join_lines(pre) =~= join_lines(pre1) + seq!['\n']);
        assert(doc =~= join_lines(pre1) + seq!['\n', '\n']);
        // The last character before the two newlines is a dash.
        let pj = join_lines(pre1);
        let pre0 = seq![dashes()] + fl;
        assert(pre1 =~~= pre0 + seq![dashes()]);
        crate::text::lemma_join_concat(pre0, seq![dashes()]);
        assert(join_lines(seq![dashes()]) == dashes());
        assert(pj =~= join_lines(pre0) + seq!['\n'] + dashes());
        assert(pj.len() >= 1 && pj[pj.len() - 1] == '-');
        assert(!is_space(pj[pj.len() - 1]));
        lemma_join_prefix(pre1);
        assert(pj[0] == dashes()[0]) by {
            assert(pj.subrange(0, 3)[0] == pj[0]);
        }
        assert(leading_spaces(doc) == 0) by {
            assert(doc[0] == pj[0]);
        }
        assert(trailing_spaces(doc) == 2) by {
            assert(doc[doc.len() - 1] == '\n');
            assert(doc.take(doc.len() - 1) =~= pj + seq!['\n']);
            assert((pj + seq!['\n'])[pj.len() as int] == '\n');
            assert((pj + seq!['\n']).take(pj.len() as int) =~= pj);
            assert(trailing_spaces(pj) == 0) by {
                crate::text::lemma_trailing_spaces_bound(pj);
                if trailing_spaces(pj) > 0 {
                    assert(is_space(pj[pj.len() - 1]));
                }
            }
            assert(trailing_spaces(pj + seq!['\n']) == 1 + trailing_spaces(pj));
            assert(trailing_spaces(doc) == 1 + trailing_spaces(doc.take(doc.len() - 1)));
        }
        assert(c =~= pj) by {
            crate::text::lemma_leading_spaces_bound(doc);
            assert(leading_spaces(doc) < doc.len());
        }
        crate::text::lemma_split_join(pre1);
        assert(split_lines(c) == pre1);
    }
    // The opening delimiter is there, and the closing one is found at
    // the end of the metadata block.
    let lines = split_lines(c);
    assert(lines == lines_c);
    assert(lines[0] == dashes());
    lemma_join_prefix(lines_c);
    assert(is_prefix(dashes(), c)) by {
        assert(join_lines(lines_c) == c);
        assert(c.subrange(0, 3) =~= lines_c[0].subrange(0, 3));
        assert(lines_c[0].subrange(0, 3) =~= dashes());
    }
    let k = 1 + fl.len() as int;
    assert(lines[k] == dashes());
    assert(is_prefix(dashes(), lines[k])) by {
        assert(dashes().subrange(0, 3) =~= dashes());
    }
    assert forall|j: int| 1 <= j < k implies !is_prefix(dashes(), #[trigger] lines[j]) by {
        assert(lines[j] == fl[j - 1]);
        assert(good_line(fl[j - 1]));
    }
    lemma_first_close_at(lines, 1, k);
    // The metadata lines fold back to the metadata.
    let yaml_lines = seq![lines[0].skip(3)] + lines.subrange(1, k);
    assert(lines[0].skip(3) =~= Seq::<char>::empty());
    assert(lines.subrange(1, k) =~~= fl);
    lemma_fold_fm_lines(fm);
    assert(parse_fm_lines(yaml_lines) == Some(fm)) by {
        let e = Seq::<char>::empty();
        assert(yaml_lines =~~= seq![e] + fl);
        lemma_fold_concat(init_state(), seq![e], fl);
        lemma_fold_one(init_state(), e);
        assert(blank_line(e));
        assert(step(init_state(), e) == init_state());
        assert(fold_lines(init_state(), seq![e] + fl) == fold_lines(init_state(), fl));
    }
    // What follows the closing delimiter trims back to the body.
    let tail = seq![lines[k].skip(3)] + lines.skip(k + 1);
    assert(lines[k].skip(3) =~= Seq::<char>::empty());
    if body.len() > 0 {
        assert(lines.skip(k + 1) =~~= seq![Seq::<char>::empty()] + b);
        let e = Seq::<char>::empty();
        assert(tail =~~= seq![e, e] + b);
        assert(seq![e, e] + b =~~= seq![e] + (seq![e] + b));
        crate::text::lemma_join_concat(seq![e], seq![e] + b);
        crate::text::lemma_join_concat(seq![e], b);
        assert(join_lines(seq![e]) == e);
        assert(join_lines(tail) =~= seq!['\n', '\n'] + body);
        assert(seq!['\n', '\n'] + body =~= seq!['\n'] + (seq!['\n'] + body));
        lemma_trim_cons_newline(seq!['\n'] + body);
        lemma_trim_cons_newline(body);
        assert(trim_spec(join_lines(tail)) == body);
    } else {
        assert(lines.skip(k + 1) =~~= Seq::<Seq<char>>::empty());
        assert(tail =~~= seq![Seq::<char>::empty()]);
        assert(join_lines(tail) =~= Seq::<char>::empty());
        assert(trim_spec(join_lines(tail)) =~= body);
    }
}

} // verus!
