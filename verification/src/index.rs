//! The search index: a derived, explicitly rebuilt projection of the
//! records, persisted as one aggregate note on an anchor commit.
//!
//! The index is a cache. Creating, updating or deleting a record does
//! not refresh it; a caller rebuilds it before trusting the results.

use vstd::prelude::*;
use crate::Error;
use crate::adr::Adr;
use crate::git::{Git, GitView, note_at, set_note, resolve_rev};
use crate::notes::NotesManager;
use crate::text::{
    all_digits, chars_of, contains_chars, contains_seq, dec_str, dec_val, extend_chars, format_u32,
    lemma_lower_idempotent, lower_chars, lower_seq, lower_string, parse_u32_chars, slice_range,
    string_of,
};

verus! {

/// One record's projection in the index.
#[derive(Debug, Clone)]
pub struct IndexEntry {
    /// The record id.
    pub id: String,
    /// The commit the record sits on.
    pub commit: String,
    /// The record title.
    pub title: String,
    /// The status text.
    pub status: String,
    /// The tags.
    pub tags: Vec<String>,
    /// The lower-cased aggregate of title, tags and body, used for
    /// substring matching.
    pub text: String,
}

/// The mathematical image of an entry.
#[verifier::ext_equal]
pub struct EntryView {
    pub id: Seq<char>,
    pub commit: Seq<char>,
    pub title: Seq<char>,
    pub status: Seq<char>,
    pub tags: Seq<Seq<char>>,
    pub text: Seq<char>,
}

impl View for IndexEntry {
    type V = EntryView;

    open spec fn view(&self) -> EntryView {
        EntryView {
            id: self.id@,
            commit: self.commit@,
            title: self.title@,
            status: self.status@,
            tags: self.tags.deep_view(),
            text: self.text@,
        }
    }
}

/// Whether an entry answers a query: the lower-cased query occurs in
/// the aggregate text, the id, or the title. Case folding is over the
/// ASCII letters.
pub open spec fn entry_matches(e: EntryView, q: Seq<char>) -> bool {
    ||| contains_seq(e.text, lower_seq(q))
    ||| contains_seq(lower_seq(e.id), lower_seq(q))
    ||| contains_seq(lower_seq(e.title), lower_seq(q))
}

/// The aggregate text of a record: title, tags and body joined by
/// single spaces, lower-cased.
pub open spec fn aggregate_text(title: Seq<char>, tags: Seq<Seq<char>>, body: Seq<char>) -> Seq<
    char,
> {
    lower_seq(title + seq![' '] + join_spaces(tags) + seq![' '] + body)
}

/// Join parts with single spaces.
pub open spec fn join_spaces(parts: Seq<Seq<char>>) -> Seq<char>
    decreases parts.len(),
{
    if parts.len() == 0 {
        Seq::empty()
    } else if parts.len() == 1 {
        parts[0]
    } else {
        parts[0] + seq![' '] + join_spaces(parts.skip(1))
    }
}

/// Join parts with single spaces, executable form.
fn join_spaces_exec(parts: &Vec<String>) -> (r: Vec<char>)
    ensures
        r@ == join_spaces(parts.deep_view()),
{
    let mut r: Vec<char> = Vec::new();
    if parts.len() == 0 {
        proof {
            assert(r@ =~= join_spaces(parts.deep_view()));
        }
        return r;
    }
    let first = chars_of(parts[0].as_str());
    extend_chars(&mut r, &first);
    proof {
        assert(parts.deep_view().take(1) =~~= seq![parts.deep_view()[0]]);
        assert(join_spaces(parts.deep_view().take(1)) == parts.deep_view()[0]);
        assert(r@ =~= parts.deep_view()[0]);
    }
    let mut i: usize = 1;
    while i < parts.len()
        invariant
            1 <= i <= parts@.len(),
            r@ == join_spaces(parts.deep_view().take(i as int)),
        decreases parts@.len() - i,
    {
        r.push(' ');
        let p = chars_of(parts[i].as_str());
        extend_chars(&mut r, &p);
        proof {
            lemma_join_spaces_snoc(parts.deep_view().take(i as int), parts.deep_view()[i as int]);
            assert(parts.deep_view().take(i as int).push(parts.deep_view()[i as int])
                =~~= parts.deep_view().take(i + 1));
            assert(r@ =~= join_spaces(parts.deep_view().take(i as int)) + seq![' ']
                + parts.deep_view()[i as int]);
        }
        i = i + 1;
    }
    proof {
        assert(parts.deep_view().take(parts@.len() as int) =~~= parts.deep_view());
    }
    r
}

/// Joining one more part appends a space and the part.
proof fn lemma_join_spaces_snoc(parts: Seq<Seq<char>>, x: Seq<char>)
    requires
        parts.len() >= 1,
    ensures
        join_spaces(parts.push(x)) == join_spaces(parts) + seq![' '] + x,
    decreases parts.len(),
{
    if parts.len() == 1 {
        let p = parts.push(x);
        assert(p[0] == parts[0]);
        assert(p.skip(1) =~= seq![x]);
        assert(join_spaces(p.skip(1)) == x);
    } else {
        lemma_join_spaces_snoc(parts.skip(1), x);
        let p = parts.push(x);
        assert(p[0] == parts[0]);
        assert(p.skip(1) =~= parts.skip(1).push(x));
        assert(join_spaces(parts) + seq![' '] + x =~= p[0] + seq![' '] + (join_spaces(
            parts.skip(1),
        ) + seq![' '] + x));
    }
}

impl IndexEntry {
    /// Project a record into an index entry.
    pub fn from_adr(adr: &Adr) -> (r: IndexEntry)
        ensures
            r@.id == adr@.id,
            r@.commit == adr@.commit,
            r@.title == adr@.frontmatter.title,
            r@.status == crate::adr::status_text(adr@.frontmatter.status),
            r@.tags == adr@.frontmatter.tags,
            r@.text == aggregate_text(
                adr@.frontmatter.title,
                adr@.frontmatter.tags,
                adr@.body,
            ),
    {
        let mut textv = chars_of(adr.frontmatter.title.as_str());
        textv.push(' ');
        let joined = join_spaces_exec(&adr.frontmatter.tags);
        extend_chars(&mut textv, &joined);
        textv.push(' ');
        let bodyv = chars_of(adr.body.as_str());
        extend_chars(&mut textv, &bodyv);
        proof {
            assert(textv@ =~= adr@.frontmatter.title + seq![' '] + join_spaces(
                adr@.frontmatter.tags,
            ) + seq![' '] + adr@.body);
        }
        let lowered = lower_chars(&textv);
        let mut tags: Vec<String> = Vec::new();
        let mut i: usize = 0;
        while i < adr.frontmatter.tags.len()
            invariant
                i <= adr.frontmatter.tags@.len(),
                tags.deep_view() == adr.frontmatter.tags.deep_view().take(i as int),
            decreases adr.frontmatter.tags@.len() - i,
        {
            let ghost pre = tags.deep_view();
            tags.push(adr.frontmatter.tags[i].clone());
            i = i + 1;
            proof {
                assert(tags.deep_view() =~~= pre.push(adr.frontmatter.tags@[i - 1]@));
                assert(adr.frontmatter.tags.deep_view().take(i as int)
                    =~~= adr.frontmatter.tags.deep_view().take(i - 1).push(
                    adr.frontmatter.tags@[i - 1]@,
                ));
            }
        }
        proof {
            assert(adr.frontmatter.tags.deep_view().take(adr.frontmatter.tags@.len() as int)
                =~~= adr.frontmatter.tags.deep_view());
        }
        IndexEntry {
            id: adr.id.clone(),
            commit: adr.commit.clone(),
            title: adr.frontmatter.title.clone(),
            status: adr.frontmatter.status.to_text(),
            tags,
            text: string_of(&lowered),
        }
    }

    /// Whether this entry answers a query, case-insensitively.
    pub fn matches(&self, query: &str) -> (r: bool)
        ensures
            r == entry_matches(self@, query@),
    {
        let ql = lower_string(query);
        let qv = chars_of(ql.as_str());
        let tv = chars_of(self.text.as_str());
        if contains_chars(&tv, &qv) {
            return true;
        }
        let idv = chars_of(self.id.as_str());
        let idl = lower_chars(&idv);
        if contains_chars(&idl, &qv) {
            return true;
        }
        let titv = chars_of(self.title.as_str());
        let titl = lower_chars(&titv);
        contains_chars(&titl, &qv)
    }
}

/// The entries answering a query, in index order.
pub open spec fn search_spec(entries: Seq<(Seq<char>, EntryView)>, q: Seq<char>) -> Seq<EntryView>
    decreases entries.len(),
{
    if entries.len() == 0 {
        Seq::empty()
    } else {
        let rest = search_spec(entries.skip(1), q);
        if entry_matches(entries[0].1, q) {
            seq![entries[0].1] + rest
        } else {
            rest
        }
    }
}

/// Matching is insensitive to the query's case: a query and its
/// lower-cased form select the same entries.
pub proof fn lemma_search_case_insensitive(entries: Seq<(Seq<char>, EntryView)>, q: Seq<char>)
    ensures
        search_spec(entries, q) == search_spec(entries, lower_seq(q)),
    decreases entries.len(),
{
    lemma_lower_idempotent(q);
    if entries.len() > 0 {
        lemma_search_case_insensitive(entries.skip(1), q);
    }
}

/// The search index: entries by record id, and a format version.
#[derive(Debug, Clone)]
pub struct SearchIndex {
    /// The entries, one per record id.
    pub entries: EntryMap,
    /// The version of the persisted format.
    pub version: u32,
}

/// The mathematical image of the index.
#[verifier::ext_equal]
pub struct IndexView {
    pub entries: Seq<(Seq<char>, EntryView)>,
    pub version: u32,
}

impl View for SearchIndex {
    type V = IndexView;

    open spec fn view(&self) -> IndexView {
        IndexView { entries: self.entries@, version: self.version }
    }
}

/// The entries of the index, keyed by record id.
#[derive(Debug, Clone)]
pub struct EntryMap {
    items: Vec<(String, IndexEntry)>,
}

impl View for EntryMap {
    type V = Seq<(Seq<char>, EntryView)>;

    closed spec fn view(&self) -> Seq<(Seq<char>, EntryView)> {
        self.items@.map_values(|p: (String, IndexEntry)| (p.0@, p.1@))
    }
}

/// The first entry bound to a key.
pub open spec fn entry_get(s: Seq<(Seq<char>, EntryView)>, k: Seq<char>) -> Option<EntryView>
    decreases s.len(),
{
    if s.len() == 0 {
        None
    } else if s[0].0 == k {
        Some(s[0].1)
    } else {
        entry_get(s.skip(1), k)
    }
}

/// The entries with a key rebound: the first binding replaced, or a
/// new one appended.
pub open spec fn entry_set(
    s: Seq<(Seq<char>, EntryView)>,
    k: Seq<char>,
    v: EntryView,
) -> Seq<(Seq<char>, EntryView)>
    decreases s.len(),
{
    if s.len() == 0 {
        seq![(k, v)]
    } else if s[0].0 == k {
        seq![(k, v)] + s.skip(1)
    } else {
        seq![s[0]] + entry_set(s.skip(1), k, v)
    }
}

/// The entries with every binding of a key removed.
pub open spec fn entry_remove(s: Seq<(Seq<char>, EntryView)>, k: Seq<char>) -> Seq<
    (Seq<char>, EntryView),
>
    decreases s.len(),
{
    if s.len() == 0 {
        s
    } else if s[0].0 == k {
        entry_remove(s.skip(1), k)
    } else {
        seq![s[0]] + entry_remove(s.skip(1), k)
    }
}

impl EntryMap {
    /// An empty map.
    pub fn new() -> (r: EntryMap)
        ensures
            r@ == Seq::<(Seq<char>, EntryView)>::empty(),
    {
        let r = EntryMap { items: Vec::new() };
        proof {
            assert(r@ =~~= Seq::<(Seq<char>, EntryView)>::empty());
        }
        r
    }

    /// How many entries the map holds.
    pub fn len(&self) -> (r: usize)
        ensures
            r == self@.len(),
    {
        self.items.len()
    }

    /// Whether the map holds nothing.
    pub fn is_empty(&self) -> (r: bool)
        ensures
            r == (self@.len() == 0),
    {
        self.items.len() == 0
    }

    /// Whether a key is bound.
    pub fn contains_key(&self, k: &str) -> (r: bool)
        ensures
            r == (entry_get(self@, k@) is Some),
    {
        let mut i: usize = 0;
        proof {
            assert(self@.skip(0) =~= self@);
        }
        while i < self.items.len()
            invariant
                i <= self.items@.len(),
                entry_get(self@, k@) == entry_get(self@.skip(i as int), k@),
            decreases self.items@.len() - i,
        {
            proof {
                assert(self@.skip(i as int)[0] == (self.items@[i as int].0@, self.items@[
                    i as int].1@));
                assert(self@.skip(i as int).skip(1) =~= self@.skip(i + 1));
            }
            if crate::text::str_eq(self.items[i].0.as_str(), k) {
                return true;
            }
            i = i + 1;
        }
        proof {
            assert(self@.skip(self.items@.len() as int) =~= Seq::<
                (Seq<char>, EntryView),
            >::empty());
        }
        false
    }

    /// The entry bound to a key.
    pub fn get(&self, k: &str) -> (r: Option<&IndexEntry>)
        ensures
            match r {
                Some(e) => entry_get(self@, k@) == Some(e@),
                None => entry_get(self@, k@) is None,
            },
    {
        let mut i: usize = 0;
        proof {
            assert(self@.skip(0) =~= self@);
        }
        while i < self.items.len()
            invariant
                i <= self.items@.len(),
                entry_get(self@, k@) == entry_get(self@.skip(i as int), k@),
            decreases self.items@.len() - i,
        {
            proof {
                assert(self@.skip(i as int)[0] == (self.items@[i as int].0@, self.items@[
                    i as int].1@));
                assert(self@.skip(i as int).skip(1) =~= self@.skip(i + 1));
            }
            if crate::text::str_eq(self.items[i].0.as_str(), k) {
                return Some(&self.items[i].1);
            }
            i = i + 1;
        }
        proof {
            assert(self@.skip(self.items@.len() as int) =~= Seq::<
                (Seq<char>, EntryView),
            >::empty());
        }
        None
    }

    /// Bind a key, replacing its first binding.
    pub fn insert(&mut self, k: String, v: IndexEntry)
        ensures
            final(self)@ == entry_set(old(self)@, k@, v@),
    {
        let mut i: usize = 0;
        proof {
            assert(self@.skip(0) =~= self@);
            assert(self@.take(0) + entry_set(self@.skip(0), k@, v@) =~= entry_set(self@, k@, v@));
        }
        while i < self.items.len()
            invariant
                i <= self.items@.len(),
                self.items@ == old(self).items@,
                entry_set(self@, k@, v@) == self@.take(i as int) + entry_set(
                    self@.skip(i as int),
                    k@,
                    v@,
                ),
            decreases self.items@.len() - i,
        {
            proof {
                assert(self@.skip(i as int)[0] == (self.items@[i as int].0@, self.items@[
                    i as int].1@));
                assert(self@.skip(i as int).skip(1) =~= self@.skip(i + 1));
            }
            if crate::text::str_eq(self.items[i].0.as_str(), k.as_str()) {
                let ghost pre = self@;
                self.items.set(i, (k, v));
                proof {
                    assert(entry_set(pre.skip(i as int), k@, v@) =~= seq![(k@, v@)] + pre.skip(
                        i + 1,
                    ));
                    assert(self@ =~~= pre.take(i as int) + (seq![(k@, v@)] + pre.skip(i + 1)));
                    assert(self@ =~~= entry_set(pre, k@, v@));
                }
                return ;
            }
            i = i + 1;
            proof {
                assert(self@.take(i as int) =~= self@.take(i - 1) + seq![self@[i - 1]]);
                assert(entry_set(self@, k@, v@) =~= self@.take(i as int) + entry_set(
                    self@.skip(i as int),
                    k@,
                    v@,
                ));
            }
        }
        let ghost pre = self@;
        self.items.push((k, v));
        proof {
            assert(pre.skip(pre.len() as int) =~= Seq::<(Seq<char>, EntryView)>::empty());
            assert(entry_set(pre.skip(pre.len() as int), k@, v@) =~= seq![(k@, v@)]);
            assert(pre.take(pre.len() as int) =~= pre);
            assert(self@ =~~= pre + seq![(k@, v@)]);
            assert(self@ =~~= entry_set(pre, k@, v@));
        }
    }

    /// Remove every binding of a key.
    pub fn remove(&mut self, k: &str)
        ensures
            final(self)@ == entry_remove(old(self)@, k@),
    {
        let mut out: Vec<(String, IndexEntry)> = Vec::new();
        let mut i: usize = 0;
        proof {
            assert(self@.skip(0) =~= self@);
            assert(out@.map_values(|p: (String, IndexEntry)| (p.0@, p.1@)) =~~= Seq::<
                (Seq<char>, EntryView),
            >::empty());
        }
        while i < self.items.len()
            invariant
                i <= self.items@.len(),
                self.items@ == old(self).items@,
                entry_remove(self@, k@) == out@.map_values(|p: (String, IndexEntry)| (p.0@, p.1@))
                    + entry_remove(self@.skip(i as int), k@),
            decreases self.items@.len() - i,
        {
            proof {
                assert(self@.skip(i as int)[0] == (self.items@[i as int].0@, self.items@[
                    i as int].1@));
                assert(self@.skip(i as int).skip(1) =~= self@.skip(i + 1));
            }
            if !crate::text::str_eq(self.items[i].0.as_str(), k) {
                let ghost preo = out@.map_values(|p: (String, IndexEntry)| (p.0@, p.1@));
                let item = (self.items[i].0.clone(), clone_entry(&self.items[i].1));
                out.push(item);
                proof {
                    assert(out@.map_values(|p: (String, IndexEntry)| (p.0@, p.1@)) =~~= preo
                        + seq![self@[i as int]]);
                    assert(entry_remove(self@, k@) =~= out@.map_values(
                        |p: (String, IndexEntry)| (p.0@, p.1@),
                    ) + entry_remove(self@.skip(i + 1), k@));
                }
            }
            i = i + 1;
        }
        proof {
            assert(self@.skip(self.items@.len() as int) =~= Seq::<
                (Seq<char>, EntryView),
            >::empty());
            assert(entry_remove(self@, k@) =~= out@.map_values(
                |p: (String, IndexEntry)| (p.0@, p.1@),
            ));
        }
        self.items = out;
    }

    /// Every entry, in index order.
    pub fn values(&self) -> (r: Vec<IndexEntry>)
        ensures
            r@.map_values(|e: IndexEntry| e@) == self@.map_values(
                |p: (Seq<char>, EntryView)| p.1,
            ),
    {
        let mut r: Vec<IndexEntry> = Vec::new();
        let mut i: usize = 0;
        while i < self.items.len()
            invariant
                i <= self.items@.len(),
                r@.map_values(|e: IndexEntry| e@) == self@.map_values(
                    |p: (Seq<char>, EntryView)| p.1,
                ).take(i as int),
            decreases self.items@.len() - i,
        {
            let ghost pre = r@.map_values(|e: IndexEntry| e@);
            let e = clone_entry(&self.items[i].1);
            r.push(e);
            i = i + 1;
            proof {
                assert(r@.map_values(|e: IndexEntry| e@) =~~= pre.push(self@[i - 1].1));
                assert(self@.map_values(|p: (Seq<char>, EntryView)| p.1).take(i as int)
                    =~~= self@.map_values(|p: (Seq<char>, EntryView)| p.1).take(i - 1).push(
                    self@[i - 1].1,
                ));
            }
        }
        proof {
            assert(self@.map_values(|p: (Seq<char>, EntryView)| p.1).take(self.items@.len() as int)
                =~~= self@.map_values(|p: (Seq<char>, EntryView)| p.1));
        }
        r
    }
}

/// Clone an index entry.
pub fn clone_entry(e: &IndexEntry) -> (r: IndexEntry)
    ensures
        r@ == e@,
{
    let mut tags: Vec<String> = Vec::new();
    let mut i: usize = 0;
    while i < e.tags.len()
        invariant
            i <= e.tags@.len(),
            tags.deep_view() == e.tags.deep_view().take(i as int),
        decreases e.tags@.len() - i,
    {
        let ghost pre = tags.deep_view();
        tags.push(e.tags[i].clone());
        i = i + 1;
        proof {
            assert(tags.deep_view() =~~= pre.push(e.tags@[i - 1]@));
            assert(e.tags.deep_view().take(i as int) =~~= e.tags.deep_view().take(i - 1).push(
                e.tags@[i - 1]@,
            ));
        }
    }
    proof {
        assert(e.tags.deep_view().take(e.tags@.len() as int) =~~= e.tags.deep_view());
    }
    let r = IndexEntry {
        id: e.id.clone(),
        commit: e.commit.clone(),
        title: e.title.clone(),
        status: e.status.clone(),
        tags,
        text: e.text.clone(),
    };
    proof {
        assert(r@ =~~= e@);
    }
    r
}

impl SearchIndex {
    /// A fresh, empty index in the current format version.
    pub fn new() -> (r: SearchIndex)
        ensures
            r@.entries.len() == 0,
            r@.version == 1,
    {
        SearchIndex { entries: EntryMap::new(), version: 1 }
    }

    /// Add or replace the entry under the entry's own id.
    pub fn upsert(&mut self, entry: IndexEntry)
        ensures
            final(self)@.entries == entry_set(old(self)@.entries, entry@.id, entry@),
            final(self)@.version == old(self)@.version,
    {
        let k = entry.id.clone();
        self.entries.insert(k, entry);
    }

    /// Remove the entry of an id.
    pub fn remove(&mut self, id: &str)
        ensures
            final(self)@.entries == entry_remove(old(self)@.entries, id@),
            final(self)@.version == old(self)@.version,
    {
        self.entries.remove(id);
    }

    /// Every entry answering the query, in index order. A pure reading
    /// of the current index state: nothing is changed by searching.
    pub fn search(&self, query: &str) -> (r: Vec<IndexEntry>)
        ensures
            r@.map_values(|e: IndexEntry| e@) == search_spec(self@.entries, query@),
    {
        let all = self.entries.values();
        let mut r: Vec<IndexEntry> = Vec::new();
        let mut i: usize = 0;
        proof {
            assert(self@.entries.skip(0) =~= self@.entries);
            assert(r@.map_values(|e: IndexEntry| e@) =~~= Seq::<EntryView>::empty());
            assert(all@.map_values(|e: IndexEntry| e@).len() == all@.len());
            assert(self@.entries.map_values(|p: (Seq<char>, EntryView)| p.1).len()
                == self@.entries.len());
        }
        while i < all.len()
            invariant
                i <= all@.len(),
                all@.map_values(|e: IndexEntry| e@) == self@.entries.map_values(
                    |p: (Seq<char>, EntryView)| p.1,
                ),
                all@.len() == self@.entries.len(),
                search_spec(self@.entries, query@) == r@.map_values(|e: IndexEntry| e@)
                    + search_spec(self@.entries.skip(i as int), query@),
            decreases all@.len() - i,
        {
            proof {
                assert(self@.entries.skip(i as int)[0] == self@.entries[i as int]);
                assert(self@.entries.skip(i as int).skip(1) =~= self@.entries.skip(i + 1));
                assert(all@.map_values(|e: IndexEntry| e@)[i as int] == self@.entries[i as int].1);
            }
            if all[i].matches(query) {
                let ghost pre = r@.map_values(|e: IndexEntry| e@);
                let e = clone_entry(&all[i]);
                r.push(e);
                proof {
                    assert(r@.map_values(|e: IndexEntry| e@) =~~= pre.push(
                        self@.entries[i as int].1,
                    ));
                    assert(search_spec(self@.entries, query@) =~= r@.map_values(
                        |e: IndexEntry| e@,
                    ) + search_spec(self@.entries.skip(i + 1), query@));
                }
            }
            i = i + 1;
        }
        proof {
            assert(self@.entries.skip(self@.entries.len() as int) =~= Seq::<
                (Seq<char>, EntryView),
            >::empty());
            assert(search_spec(self@.entries, query@) =~= r@.map_values(|e: IndexEntry| e@));
        }
        r
    }

    /// Every entry, in index order.
    pub fn all(&self) -> (r: Vec<IndexEntry>)
        ensures
            r@.map_values(|e: IndexEntry| e@) == self@.entries.map_values(
                |p: (Seq<char>, EntryView)| p.1,
            ),
    {
        self.entries.values()
    }
}

impl Default for SearchIndex {
    /// An empty index with the version left at zero; [`SearchIndex::new`]
    /// is the constructor that stamps the current format version.
    fn default() -> (r: Self)
        ensures
            r@.entries.len() == 0,
            r@.version == 0,
    {
        SearchIndex { entries: EntryMap::new(), version: 0 }
    }
}

// ---------------------------------------------------------------------
// Persistence: the whole index as one blob of length-prefixed fields.
// ---------------------------------------------------------------------
/// A number field: canonical digits, closed by a semicolon.
pub open spec fn enc_num(n: int) -> Seq<char> {
    dec_str(n) + seq![';']
}

/// A string field: its length in canonical digits, a colon, the text.
pub open spec fn enc_str(s: Seq<char>) -> Seq<char> {
    dec_str(s.len() as int) + seq![':'] + s
}

/// One entry: id, commit, title, status, the tag count and each tag,
/// then the aggregate text.
pub open spec fn enc_entry(e: EntryView) -> Seq<char>
{
    enc_str(e.id) + enc_str(e.commit) + enc_str(e.title) + enc_str(e.status) + enc_num(
        e.tags.len() as int,
    ) + enc_tags(e.tags) + enc_str(e.text)
}

/// The tags, one string field each.
pub open spec fn enc_tags(tags: Seq<Seq<char>>) -> Seq<char>
    decreases tags.len(),
{
    if tags.len() == 0 {
        Seq::empty()
    } else {
        enc_str(tags[0]) + enc_tags(tags.skip(1))
    }
}

/// The entries, keyed implicitly by each entry's own id field.
pub open spec fn enc_entries(entries: Seq<(Seq<char>, EntryView)>) -> Seq<char>
    decreases entries.len(),
{
    if entries.len() == 0 {
        Seq::empty()
    } else {
        enc_entry(entries[0].1) + enc_entries(entries.skip(1))
    }
}

/// The whole index: version, entry count, the entries.
pub open spec fn encode_index(iv: IndexView) -> Seq<char> {
    enc_num(iv.version as int) + enc_num(iv.entries.len() as int) + enc_entries(iv.entries)
}

/// Append a number field.
fn push_num(out: &mut Vec<char>, n: u32)
    ensures
        final(out)@ == old(out)@ + enc_num(n as int),
{
    let d = format_u32(n);
    extend_chars(out, &d);
    out.push(';');
    proof {
        assert(out@ =~= old(out)@ + enc_num(n as int));
    }
}

/// Append a number field of a machine-sized count.
fn push_num_usize(out: &mut Vec<char>, n: usize)
    ensures
        final(out)@ == old(out)@ + enc_num(n as int),
{
    let d = format_usize(n);
    extend_chars(out, &d);
    out.push(';');
    proof {
        assert(out@ =~= old(out)@ + enc_num(n as int));
    }
}

/// Append a string field.
fn push_str_field(out: &mut Vec<char>, s: &str)
    ensures
        final(out)@ == old(out)@ + enc_str(s@),
{
    let sv = chars_of(s);
    let n = sv.len();
    let d = format_usize(n);
    extend_chars(out, &d);
    out.push(':');
    extend_chars(out, &sv);
    proof {
        assert(out@ =~= old(out)@ + enc_str(s@));
    }
}

/// Render a usize as its canonical decimal digits.
fn format_usize(n: usize) -> (r: Vec<char>)
    ensures
        r@ == dec_str(n as int),
{
    if n == 0 {
        let mut r: Vec<char> = Vec::new();
        r.push('0');
        proof {
            assert(r@ =~= dec_str(0));
        }
        return r;
    }
    let mut cur = n;
    let mut acc: Vec<char> = Vec::new();
    proof {
        assert(dec_str(n as int) =~= dec_str(n as int) + acc@);
    }
    while cur > 0
        invariant
            n > 0,
            cur > 0 ==> dec_str(n as int) == dec_str(cur as int) + acc@,
            cur == 0 ==> dec_str(n as int) == acc@,
        decreases cur,
    {
        let d = cur % 10;
        let c = ((48 + d) as u8) as char;
        proof {
            assert(c == crate::text::digit_char(d as int));
        }
        let ghost oacc = acc@;
        acc.insert(0, c);
        let ghost prev = cur;
        cur = cur / 10;
        proof {
            assert(acc@ =~= seq![c] + oacc);
            if prev >= 10 {
                assert(dec_str(prev as int) == dec_str(prev as int / 10).push(
                    crate::text::digit_char(prev as int % 10),
                ));
                assert(dec_str(prev as int) + oacc =~= dec_str(cur as int) + (seq![c] + oacc));
                assert(dec_str(cur as int) + acc@ =~= dec_str(n as int));
            } else {
                assert(cur == 0);
                assert(dec_str(prev as int) == seq![c]);
                assert(dec_str(prev as int) + oacc =~= seq![c] + oacc);
                assert(acc@ =~= dec_str(n as int));
            }
        }
    }
    acc
}

/// Serialize the whole index.
#[verifier::rlimit(100)]
pub fn encode_index_exec(ix: &SearchIndex) -> (r: String)
    ensures
        r@ == encode_index(ix@),
{
    let mut out: Vec<char> = Vec::new();
    push_num(&mut out, ix.version);
    let all = ix.entries.values();
    let n = all.len();
    proof {
        assert(all@.map_values(|e: IndexEntry| e@).len() == all@.len());
        assert(ix@.entries.map_values(|p: (Seq<char>, EntryView)| p.1).len()
            == ix@.entries.len());
    }
    push_num_usize(&mut out, n);
    let ghost evs = ix@.entries;
    let mut i: usize = 0;
    proof {
        assert(out@ =~= enc_num(ix@.version as int) + enc_num(evs.len() as int) + enc_entries(
            evs.take(0),
        ));
    }
    while i < all.len()
        invariant
            i <= all@.len(),
            all@.map_values(|e: IndexEntry| e@) == evs.map_values(|p: (Seq<char>, EntryView)| p.1),
            all@.len() == evs.len(),
            out@ == enc_num(ix@.version as int) + enc_num(evs.len() as int) + enc_entries(
                evs.take(i as int),
            ),
        decreases all@.len() - i,
    {
        let ghost pre = out@;
        let e = &all[i];
        proof {
            assert(all@.map_values(|e: IndexEntry| e@)[i as int] == evs[i as int].1);
        }
        push_str_field(&mut out, e.id.as_str());
        push_str_field(&mut out, e.commit.as_str());
        push_str_field(&mut out, e.title.as_str());
        push_str_field(&mut out, e.status.as_str());
        let tn = e.tags.len();
        proof {
            assert(e.tags.deep_view().len() == e.tags@.len());
        }
        push_num_usize(&mut out, tn);
        let mut t: usize = 0;
        proof {
            assert(out@ =~= pre + enc_str(evs[i as int].1.id) + enc_str(evs[i as int].1.commit)
                + enc_str(evs[i as int].1.title) + enc_str(evs[i as int].1.status) + enc_num(
                evs[i as int].1.tags.len() as int,
            ) + enc_tags(evs[i as int].1.tags.take(0)));
        }
        while t < e.tags.len()
            invariant
                t <= e.tags@.len(),
                e@ == evs[i as int].1,
                out@ == pre + enc_str(evs[i as int].1.id) + enc_str(evs[i as int].1.commit)
                    + enc_str(evs[i as int].1.title) + enc_str(evs[i as int].1.status) + enc_num(
                    evs[i as int].1.tags.len() as int,
                ) + enc_tags(evs[i as int].1.tags.take(t as int)),
            decreases e.tags@.len() - t,
        {
            push_str_field(&mut out, e.tags[t].as_str());
            t = t + 1;
            proof {
                lemma_enc_tags_snoc(evs[i as int].1.tags.take(t - 1), evs[i as int].1.tags[t - 1]);
                assert(evs[i as int].1.tags.take(t - 1).push(evs[i as int].1.tags[t - 1])
                    =~~= evs[i as int].1.tags.take(t as int));
                assert(out@ =~= pre + enc_str(evs[i as int].1.id) + enc_str(evs[i as int].1.commit)
                    + enc_str(evs[i as int].1.title) + enc_str(evs[i as int].1.status) + enc_num(
                    evs[i as int].1.tags.len() as int,
                ) + enc_tags(evs[i as int].1.tags.take(t as int)));
            }
        }
        proof {
            assert(evs[i as int].1.tags.take(evs[i as int].1.tags.len() as int) =~~= evs[
                i as int].1.tags);
        }
        push_str_field(&mut out, e.text.as_str());
        i = i + 1;
        proof {
            assert(out@ =~= pre + enc_entry(evs[i - 1].1));
            lemma_enc_entries_snoc(evs.take(i - 1), evs[i - 1]);
            assert(evs.take(i - 1).push(evs[i - 1]) =~~= evs.take(i as int));
            assert(out@ =~= enc_num(ix@.version as int) + enc_num(evs.len() as int) + enc_entries(
                evs.take(i as int),
            ));
        }
    }
    proof {
        assert(evs.take(evs.len() as int) =~~= evs);
        assert(out@ =~= encode_index(ix@));
    }
    string_of(&out)
}

/// Encoding one more tag appends its field.
proof fn lemma_enc_tags_snoc(tags: Seq<Seq<char>>, x: Seq<char>)
    ensures
        enc_tags(tags.push(x)) == enc_tags(tags) + enc_str(x),
    decreases tags.len(),
{
    if tags.len() == 0 {
        let p = tags.push(x);
        assert(p[0] == x);
        assert(p.skip(1) =~= Seq::<Seq<char>>::empty());
        assert(enc_tags(p.skip(1)) =~= Seq::<char>::empty());
        assert(enc_tags(p) =~= enc_str(x));
        assert(enc_tags(tags) + enc_str(x) =~= enc_str(x));
    } else {
        lemma_enc_tags_snoc(tags.skip(1), x);
        let p = tags.push(x);
        assert(p[0] == tags[0]);
        assert(p.skip(1) =~= tags.skip(1).push(x));
        assert(enc_tags(tags) + enc_str(x) =~= enc_str(tags[0]) + (enc_tags(tags.skip(1))
            + enc_str(x)));
    }
}

/// Encoding one more entry appends its fields.
proof fn lemma_enc_entries_snoc(entries: Seq<(Seq<char>, EntryView)>, x: (Seq<char>, EntryView))
    ensures
        enc_entries(entries.push(x)) == enc_entries(entries) + enc_entry(x.1),
    decreases entries.len(),
{
    if entries.len() == 0 {
        let p = entries.push(x);
        assert(p[0] == x);
        assert(p.skip(1) =~= Seq::<(Seq<char>, EntryView)>::empty());
        assert(enc_entries(p.skip(1)) =~= Seq::<char>::empty());
        assert(enc_entries(p) =~= enc_entry(x.1));
        assert(enc_entries(entries) + enc_entry(x.1) =~= enc_entry(x.1));
    } else {
        lemma_enc_entries_snoc(entries.skip(1), x);
        let p = entries.push(x);
        assert(p[0] == entries[0]);
        assert(p.skip(1) =~= entries.skip(1).push(x));
        assert(enc_entries(entries) + enc_entry(x.1) =~= enc_entry(entries[0].1) + (enc_entries(
            entries.skip(1),
        ) + enc_entry(x.1)));
    }
}

/// Digits in canonical form (no leading zero) are the canonical
/// rendering of their value.
proof fn lemma_canonical_digits(d: Seq<char>)
    requires
        d.len() >= 1,
        all_digits(d),
        d.len() > 1 ==> d[0] != '0',
    ensures
        d == dec_str(dec_val(d)),
    decreases d.len(),
{
    crate::text::lemma_dec_val_acc_mono(d, 0);
    if d.len() == 1 {
        assert(d.skip(1) =~= Seq::<char>::empty());
        assert(dec_val(d) == crate::text::digit_val(d[0])) by {
            assert(crate::text::dec_val_acc(d.skip(1), 0 * 10 + crate::text::digit_val(d[0]))
                == 0 * 10 + crate::text::digit_val(d[0]));
        }
        assert(dec_val(d) == crate::text::digit_val(d[0]));
        assert(dec_val(d) < 10);
        vstd::utf8::char_u32_cast(d[0], d[0] as u32);
        assert(crate::text::digit_char(crate::text::digit_val(d[0])) == d[0]);
        assert(dec_str(dec_val(d)) =~= d);
    } else {
        let dp = d.take(d.len() - 1);
        let last = d[d.len() - 1];
        assert(all_digits(dp)) by {
            assert(forall|k: int| 0 <= k < dp.len() ==> dp[k] == d[k]);
        }
        assert(dp[0] == d[0] && dp[0] != '0');
        lemma_canonical_digits(dp);
        crate::text::lemma_dec_val_acc_snoc(dp, last, 0);
        assert(dp.push(last) =~= d);
        assert(dec_val(d) == dec_val(dp) * 10 + crate::text::digit_val(last));
        assert(dec_val(dp) >= 1) by {
            assert(crate::text::digit_val(dp[0]) >= 1);
            assert(crate::text::dec_val_acc(dp, 0) == crate::text::dec_val_acc(
                dp.skip(1),
                0 * 10 + crate::text::digit_val(dp[0]),
            ));
            assert(all_digits(dp.skip(1))) by {
                assert(forall|k: int| 0 <= k < dp.skip(1).len() ==> dp.skip(1)[k] == dp[k + 1]);
            }
            crate::text::lemma_dec_val_acc_mono(dp.skip(1), crate::text::digit_val(dp[0]));
        }
        let n = dec_val(d);
        assert(n >= 10) by (nonlinear_arith)
            requires
                n == dec_val(dp) * 10 + crate::text::digit_val(last),
                dec_val(dp) >= 1,
                crate::text::digit_val(last) >= 0,
        ;
        assert(n / 10 == dec_val(dp) && n % 10 == crate::text::digit_val(last))
            by (nonlinear_arith)
            requires
                n == dec_val(dp) * 10 + crate::text::digit_val(last),
                0 <= crate::text::digit_val(last) < 10,
        ;
        vstd::utf8::char_u32_cast(last, last as u32);
        assert(crate::text::digit_char(crate::text::digit_val(last)) == last);
        assert(dec_str(n) == dec_str(n / 10).push(crate::text::digit_char(n % 10)));
        assert(dec_str(n) =~= d);
    }
}


/// Two number fields closed by the same non-digit terminator cannot
/// both begin the same text unless they are the same number.
pub proof fn lemma_num_prefix_unique(s: Seq<char>, term: char, m: int, n: int)
    requires
        !crate::text::is_digit(term),
        m >= 0,
        n >= 0,
        crate::text::is_prefix(dec_str(m) + seq![term], s),
        crate::text::is_prefix(dec_str(n) + seq![term], s),
    ensures
        m == n,
{
    crate::text::lemma_dec_str_val(m);
    crate::text::lemma_dec_str_val(n);
    let d1 = dec_str(m);
    let d2 = dec_str(n);
    assert forall|k: int| 0 <= k < d1.len() + 1 implies s[k] == (d1 + seq![term])[k] by {
        assert(s.subrange(0, d1.len() as int + 1)[k] == s[k]);
    }
    assert forall|k: int| 0 <= k < d2.len() + 1 implies s[k] == (d2 + seq![term])[k] by {
        assert(s.subrange(0, d2.len() as int + 1)[k] == s[k]);
    }
    if d1.len() < d2.len() {
        assert(s[d1.len() as int] == term);
        assert(s[d1.len() as int] == d2[d1.len() as int]);
        assert(crate::text::is_digit(d2[d1.len() as int]));
        assert(false);
    }
    if d2.len() < d1.len() {
        assert(s[d2.len() as int] == term);
        assert(s[d2.len() as int] == d1[d2.len() as int]);
        assert(crate::text::is_digit(d1[d2.len() as int]));
        assert(false);
    }
    assert(d1.len() == d2.len());
    assert forall|k: int| 0 <= k < d1.len() implies d1[k] == d2[k] by {
        assert(s[k] == (d1 + seq![term])[k]);
        assert(s[k] == (d2 + seq![term])[k]);
    }
    assert(d1 =~= d2);
    assert(dec_val(d1) == dec_val(d2));
}

/// A digit run bounded by a non-digit pins any number field that
/// begins the text at its start: the field's digits are the whole run.
proof fn lemma_digit_prefix_run(v: Seq<char>, pos: int, j: int, d: Seq<char>, term: char)
    requires
        0 <= pos <= j <= v.len(),
        forall|k: int| pos <= k < j ==> crate::text::is_digit(#[trigger] v[k]),
        j == v.len() || !crate::text::is_digit(v[j]),
        all_digits(d),
        d.len() >= 1,
        !crate::text::is_digit(term),
        crate::text::is_prefix(d + seq![term], v.skip(pos)),
    ensures
        pos + d.len() == j,
        d == v.subrange(pos, j),
{
    let s = v.skip(pos);
    assert(forall|k: int| 0 <= k < d.len() + 1 ==> s[k] == (d + seq![term])[k]) by {
        assert(forall|k: int|
            0 <= k < d.len() + 1 ==> s.subrange(0, d.len() + 1 as int)[k] == s[k]);
    }
    if pos + d.len() < j {
        assert(v[pos + d.len()] == s[d.len() as int]);
        assert(s[d.len() as int] == term);
        assert(crate::text::is_digit(v[pos + d.len()]));
        assert(false);
    }
    if pos + d.len() > j {
        assert(pos + d.len() + 1 <= v.len());
        assert(j < v.len());
        assert(!crate::text::is_digit(v[j as int]));
        assert(v[j as int] == s[j - pos]);
        assert(s[j - pos] == d[j - pos]);
        assert(crate::text::is_digit(d[j - pos]));
        assert(false);
    }
    assert(d =~= v.subrange(pos, j));
}

/// Read a number field closed by `term`: canonical digits, the
/// terminator. `None` exactly when no number field stands here.
fn read_num_field(v: &Vec<char>, pos: usize, term: char) -> (r: Option<(usize, usize)>)
    requires
        pos <= v@.len(),
        !crate::text::is_digit(term),
    ensures
        match r {
            Some((n, np)) => pos < np <= v@.len() && v@.subrange(pos as int, np as int) == dec_str(
                n as int,
            ) + seq![term] && (forall|m: int|
                0 <= m && crate::text::is_prefix(
                    dec_str(m) + seq![term],
                    v@.skip(pos as int),
                ) ==> m == n as int),
            None => forall|m: int|
                0 <= m <= usize::MAX ==> !crate::text::is_prefix(
                    dec_str(m) + seq![term],
                    v@.skip(pos as int),
                ),
        },
{
    let mut j = pos;
    let n = v.len();
    while j < n && '0' <= v[j] && v[j] <= '9'
        invariant
            pos <= j <= n,
            n == v@.len(),
            forall|k: int| pos <= k < j ==> crate::text::is_digit(#[trigger] v@[k]),
        decreases n - j,
    {
        j = j + 1;
    }
    proof {
        assert(j == v@.len() || !crate::text::is_digit(v@[j as int]));
    }
    if j == pos {
        proof {
            assert forall|m: int|
                0 <= m <= usize::MAX implies !crate::text::is_prefix(
                dec_str(m) + seq![term],
                v@.skip(pos as int),
            ) by {
                if crate::text::is_prefix(dec_str(m) + seq![term], v@.skip(pos as int)) {
                    crate::text::lemma_dec_str_val(m);
                    lemma_digit_prefix_run(v@, pos as int, j as int, dec_str(m), term);
                }
            }
        }
        return None;
    }
    if j - pos > 1 && v[pos] == '0' {
        proof {
            assert forall|m: int|
                0 <= m <= usize::MAX implies !crate::text::is_prefix(
                dec_str(m) + seq![term],
                v@.skip(pos as int),
            ) by {
                if crate::text::is_prefix(dec_str(m) + seq![term], v@.skip(pos as int)) {
                    crate::text::lemma_dec_str_val(m);
                    lemma_digit_prefix_run(v@, pos as int, j as int, dec_str(m), term);
                    crate::text::lemma_dec_str_no_leading_zero(m);
                    assert(dec_str(m)[0] == v@[pos as int]);
                }
            }
        }
        return None;
    }
    if j == n || v[j] != term {
        proof {
            assert forall|m: int|
                0 <= m <= usize::MAX implies !crate::text::is_prefix(
                dec_str(m) + seq![term],
                v@.skip(pos as int),
            ) by {
                if crate::text::is_prefix(dec_str(m) + seq![term], v@.skip(pos as int)) {
                    crate::text::lemma_dec_str_val(m);
                    lemma_digit_prefix_run(v@, pos as int, j as int, dec_str(m), term);
                    let s = v@.skip(pos as int);
                    assert(s.subrange(0, dec_str(m).len() + 1 as int)[dec_str(m).len() as int]
                        == s[dec_str(m).len() as int]);
                    assert(s[dec_str(m).len() as int] == term);
                    assert(v@[j as int] == term);
                }
            }
        }
        return None;
    }
    let digits = slice_range(v, pos, j);
    proof {
        assert(digits@ =~= v@.subrange(pos as int, j as int));
        assert(all_digits(digits@));
    }
    match crate::text::parse_usize_chars(&digits) {
        Some(value) => {
            proof {
                lemma_canonical_digits(digits@);
                assert(v@.subrange(pos as int, j + 1) =~= digits@ + seq![term]);
                assert(crate::text::is_prefix(
                    dec_str(value as int) + seq![term],
                    v@.skip(pos as int),
                )) by {
                    assert(v@.skip(pos as int).subrange(0, j + 1 - pos) =~= v@.subrange(
                        pos as int,
                        j + 1,
                    ));
                }
                assert forall|m: int|
                    0 <= m && crate::text::is_prefix(
                        dec_str(m) + seq![term],
                        v@.skip(pos as int),
                    ) implies m == value as int by {
                    lemma_num_prefix_unique(
                        v@.skip(pos as int),
                        term,
                        m,
                        value as int,
                    );
                }
            }
            Some((value, j + 1))
        },
        None => {
            proof {
                assert forall|m: int|
                    0 <= m <= usize::MAX implies !crate::text::is_prefix(
                    dec_str(m) + seq![term],
                    v@.skip(pos as int),
                ) by {
                    if crate::text::is_prefix(dec_str(m) + seq![term], v@.skip(pos as int)) {
                        crate::text::lemma_dec_str_val(m);
                        lemma_digit_prefix_run(v@, pos as int, j as int, dec_str(m), term);
                        assert(dec_val(digits@) == m);
                    }
                }
            }
            None
        },
    }
}

/// Read a string field: its length, a colon, the text. `None` exactly
/// when no string field stands here.
fn read_str_field(v: &Vec<char>, pos: usize) -> (r: Option<(String, usize)>)
    requires
        pos <= v@.len(),
    ensures
        match r {
            Some((s, np)) => pos < np <= v@.len() && v@.subrange(pos as int, np as int) == enc_str(
                s@,
            ) && (forall|t: Seq<char>|
                crate::text::is_prefix(#[trigger] enc_str(t), v@.skip(pos as int)) ==> t == s@),
            None => forall|t: Seq<char>|
                !crate::text::is_prefix(#[trigger] enc_str(t), v@.skip(pos as int)),
        },
{
    let vlen = v.len();
    let parsed = read_num_field(v, pos, ':');
    match parsed {
        Some((n, mid)) => {
            let len = n;
            if len > vlen - mid {
                proof {
                    assert forall|t: Seq<char>|
                        !crate::text::is_prefix(
                        #[trigger] enc_str(t),
                        v@.skip(pos as int),
                    ) by {
                        if crate::text::is_prefix(enc_str(t), v@.skip(pos as int)) {
                            lemma_enc_str_prefix_carries_num(t, v@.skip(pos as int));
                            assert(t.len() as int == n as int);
                            crate::text::lemma_dec_str_val(n as int);
                            assert(enc_str(t).len() >= (mid - pos) + t.len()) by {
                                assert(dec_str(t.len() as int).len() + 1 == mid - pos) by {
                                    assert(v@.subrange(pos as int, mid as int).len() == mid
                                        - pos);
                                }
                            }
                            assert(pos + enc_str(t).len() <= v@.len());
                        }
                    }
                }
                return None;
            }
            let sv = slice_range(v, mid, mid + len);
            let st = string_of(&sv);
            proof {
                assert(st@ =~= v@.subrange(mid as int, mid + len as int));
                assert(st@.len() == n as int);
                assert(v@.subrange(pos as int, mid + len as int) =~= dec_str(n as int)
                    + seq![':'] + st@);
                assert forall|t: Seq<char>|
                    crate::text::is_prefix(
                        #[trigger] enc_str(t),
                        v@.skip(pos as int),
                    ) implies t == st@ by {
                    lemma_enc_str_prefix_carries_num(t, v@.skip(pos as int));
                    assert(t.len() as int == n as int);
                    let s = v@.skip(pos as int);
                    assert(forall|k: int|
                        0 <= k < enc_str(t).len() ==> s.subrange(0, enc_str(t).len() as int)[k]
                            == s[k]);
                    assert(forall|k: int|
                        0 <= k < t.len() ==> t[k] == enc_str(t)[dec_str(t.len() as int).len() + 1
                            + k]);
                    assert(dec_str(t.len() as int).len() == (mid - pos) - 1);
                    assert(forall|k: int| 0 <= k < t.len() ==> t[k] == s[(mid - pos) + k]);
                    assert(forall|k: int|
                        0 <= k < t.len() ==> #[trigger] s[(mid - pos) + k] == v@[mid + k]);
                    assert(t =~= st@);
                }
            }
            Some((st, mid + len))
        },
        None => {
            proof {
                assert forall|t: Seq<char>|
                    !crate::text::is_prefix(#[trigger] enc_str(t), v@.skip(pos as int)) by {
                    if crate::text::is_prefix(enc_str(t), v@.skip(pos as int)) {
                        if t.len() <= usize::MAX {
                            lemma_enc_str_prefix_carries_num(t, v@.skip(pos as int));
                        } else {
                            assert(enc_str(t).len() >= t.len());
                            assert(v@.skip(pos as int).len() <= v@.len());
                            assert(v@.len() <= vlen);
                        }
                    }
                }
            }
            None
        },
    }
}

/// A string field's prefix carries a number field's prefix.
proof fn lemma_enc_str_prefix_carries_num(t: Seq<char>, s: Seq<char>)
    requires
        crate::text::is_prefix(enc_str(t), s),
    ensures
        crate::text::is_prefix(dec_str(t.len() as int) + seq![':'], s),
{
    let head = dec_str(t.len() as int) + seq![':'];
    assert(enc_str(t) =~= head + t);
    assert(head.len() <= enc_str(t).len());
    assert(s.subrange(0, head.len() as int) =~= head) by {
        assert(forall|k: int|
            0 <= k < head.len() ==> s.subrange(0, enc_str(t).len() as int)[k] == s[k]);
        assert(forall|k: int| 0 <= k < head.len() ==> enc_str(t)[k] == head[k]);
    }
}

/// An index whose entries are keyed by their own ids, as every index
/// this module builds or decodes is.
pub open spec fn index_keyed(ixv: IndexView) -> bool {
    forall|i: int|
        0 <= i < ixv.entries.len() ==> (#[trigger] ixv.entries[i]).0 == ixv.entries[i].1.id
}

/// A keyed index whose encoding is the given blob.
pub open spec fn matches_blob(ixv: IndexView, v: Seq<char>) -> bool {
    index_keyed(ixv) && encode_index(ixv) == v
}

/// The tag fields, then a continuation.
pub open spec fn enc_tags_then(tags: Seq<Seq<char>>, rest: Seq<char>) -> Seq<char>
    decreases tags.len(),
{
    if tags.len() == 0 {
        rest
    } else {
        enc_str(tags[0]) + enc_tags_then(tags.skip(1), rest)
    }
}

/// One entry's fields, then a continuation, associated so that each
/// consumed field leaves the remainder as one piece.
pub open spec fn enc_entry_then(e: EntryView, rest: Seq<char>) -> Seq<char> {
    enc_str(e.id) + (enc_str(e.commit) + (enc_str(e.title) + (enc_str(e.status) + (enc_num(
        e.tags.len() as int,
    ) + enc_tags_then(e.tags, enc_str(e.text) + rest)))))
}

/// The flat tag encoding, re-associated onto a continuation.
proof fn lemma_enc_tags_then(tags: Seq<Seq<char>>, rest: Seq<char>)
    ensures
        enc_tags(tags) + rest == enc_tags_then(tags, rest),
    decreases tags.len(),
{
    if tags.len() == 0 {
        assert(enc_tags(tags) + rest =~= rest);
    } else {
        lemma_enc_tags_then(tags.skip(1), rest);
        assert(enc_tags(tags) + rest =~= enc_str(tags[0]) + (enc_tags(tags.skip(1)) + rest));
    }
}

/// The flat entry encoding, re-associated onto a continuation.
proof fn lemma_enc_entry_then(e: EntryView, rest: Seq<char>)
    ensures
        enc_entry(e) + rest == enc_entry_then(e, rest),
{
    lemma_enc_tags_then(e.tags, enc_str(e.text) + rest);
    assert(enc_entry(e) + rest =~= enc_str(e.id) + (enc_str(e.commit) + (enc_str(e.title) + (
    enc_str(e.status) + (enc_num(e.tags.len() as int) + (enc_tags(e.tags) + (enc_str(e.text)
        + rest)))))));
    assert(enc_tags(e.tags) + (enc_str(e.text) + rest) =~= enc_tags(e.tags) + enc_str(e.text)
        + rest);
}

/// The head of a split text is a prefix of it.
proof fn lemma_prefix_of_concat(a: Seq<char>, b: Seq<char>, s: Seq<char>)
    requires
        s == a + b,
    ensures
        crate::text::is_prefix(a, s),
{
    assert(s.subrange(0, a.len() as int) =~= a);
}

/// Consuming a known head moves the remainder forward.
proof fn lemma_skip_after(v: Seq<char>, p: int, p2: int, a: Seq<char>, b: Seq<char>)
    requires
        0 <= p <= p2 <= v.len(),
        v.skip(p) == a + b,
        v.subrange(p, p2) == a,
    ensures
        v.skip(p2) == b,
{
    assert(v.skip(p).len() == a.len() + b.len());
    assert(p2 - p == a.len());
    assert(v.skip(p2) =~= b) by {
        assert(forall|i: int| 0 <= i < b.len() ==> v.skip(p2)[i] == v[p2 + i]);
        assert(forall|i: int| 0 <= i < b.len() ==> #[trigger] v.skip(p)[p2 - p + i] == v[p2 + i]);
        assert(forall|i: int| 0 <= i < b.len() ==> (a + b)[a.len() + i] == b[i]);
    }
}

/// Every encoded entry costs at least one character.
proof fn lemma_enc_entries_len_ge(entries: Seq<(Seq<char>, EntryView)>)
    ensures
        enc_entries(entries).len() >= entries.len(),
    decreases entries.len(),
{
    if entries.len() > 0 {
        lemma_enc_entries_len_ge(entries.skip(1));
    }
}

/// Every encoded tag costs at least one character.
proof fn lemma_enc_tags_len_ge(tags: Seq<Seq<char>>)
    ensures
        enc_tags(tags).len() >= tags.len(),
    decreases tags.len(),
{
    if tags.len() > 0 {
        lemma_enc_tags_len_ge(tags.skip(1));
    }
}

/// The remainder an index matching the blob leaves at the cursor,
/// unfolded to the current entry's first field.
proof fn lemma_step_entry(v: Seq<char>, pos: int, k: int, count: int)
    requires
        0 <= pos <= v.len(),
        0 <= k < count,
        forall|ixv: IndexView|
            #[trigger] matches_blob(ixv, v) ==> ixv.entries.len() == count && enc_entries(
                ixv.entries.skip(k),
            ) == v.skip(pos),
    ensures
        forall|ixv: IndexView|
            #[trigger] matches_blob(ixv, v) ==> v.skip(pos) == enc_entry_then(
                ixv.entries[k].1,
                enc_entries(ixv.entries.skip(k + 1)),
            ) && crate::text::is_prefix(enc_str(ixv.entries[k].1.id), v.skip(pos)),
{
    assert forall|ixv: IndexView|
        #[trigger] matches_blob(ixv, v) implies v.skip(pos) == enc_entry_then(
        ixv.entries[k].1,
        enc_entries(ixv.entries.skip(k + 1)),
    ) && crate::text::is_prefix(enc_str(ixv.entries[k].1.id), v.skip(pos)) by {
        let e = ixv.entries[k].1;
        let rest = enc_entries(ixv.entries.skip(k + 1));
        assert(ixv.entries.skip(k)[0] == ixv.entries[k]);
        assert(ixv.entries.skip(k).skip(1) =~= ixv.entries.skip(k + 1));
        assert(enc_entries(ixv.entries.skip(k)) == enc_entry(e) + rest);
        lemma_enc_entry_then(e, rest);
        lemma_prefix_of_concat(
            enc_str(e.id),
            enc_str(e.commit) + (enc_str(e.title) + (enc_str(e.status) + (enc_num(
                e.tags.len() as int,
            ) + enc_tags_then(e.tags, enc_str(e.text) + rest)))),
            v.skip(pos),
        );
    }
}

/// Consuming the id field.
proof fn lemma_step_id(v: Seq<char>, pos: int, p1: int, k: int, count: int, idv: Seq<char>)
    requires
        0 <= pos <= p1 <= v.len(),
        0 <= k < count,
        forall|ixv: IndexView|
            #[trigger] matches_blob(ixv, v) ==> v.skip(pos) == enc_entry_then(
                ixv.entries[k].1,
                enc_entries(ixv.entries.skip(k + 1)),
            ),
        v.subrange(pos, p1) == enc_str(idv),
        forall|t: Seq<char>| crate::text::is_prefix(#[trigger] enc_str(t), v.skip(pos)) ==> t
            == idv,
    ensures
        forall|ixv: IndexView|
            #[trigger] matches_blob(ixv, v) ==> ixv.entries[k].1.id == idv && v.skip(p1)
                == enc_str(ixv.entries[k].1.commit) + (enc_str(ixv.entries[k].1.title) + (enc_str(
                ixv.entries[k].1.status,
            ) + (enc_num(ixv.entries[k].1.tags.len() as int) + enc_tags_then(
                ixv.entries[k].1.tags,
                enc_str(ixv.entries[k].1.text) + enc_entries(ixv.entries.skip(k + 1)),
            )))) && crate::text::is_prefix(enc_str(ixv.entries[k].1.commit), v.skip(p1)),
{
    assert forall|ixv: IndexView|
        #[trigger] matches_blob(ixv, v) implies ixv.entries[k].1.id == idv && v.skip(p1)
        == enc_str(ixv.entries[k].1.commit) + (enc_str(ixv.entries[k].1.title) + (enc_str(
        ixv.entries[k].1.status,
    ) + (enc_num(ixv.entries[k].1.tags.len() as int) + enc_tags_then(
        ixv.entries[k].1.tags,
        enc_str(ixv.entries[k].1.text) + enc_entries(ixv.entries.skip(k + 1)),
    )))) && crate::text::is_prefix(enc_str(ixv.entries[k].1.commit), v.skip(p1)) by {
        let e = ixv.entries[k].1;
        let rest = enc_entries(ixv.entries.skip(k + 1));
        let t1 = enc_str(e.commit) + (enc_str(e.title) + (enc_str(e.status) + (enc_num(
            e.tags.len() as int,
        ) + enc_tags_then(e.tags, enc_str(e.text) + rest))));
        lemma_prefix_of_concat(enc_str(e.id), t1, v.skip(pos));
        assert(e.id == idv);
        lemma_skip_after(v, pos, p1, enc_str(e.id), t1);
        lemma_prefix_of_concat(
            enc_str(e.commit),
            enc_str(e.title) + (enc_str(e.status) + (enc_num(e.tags.len() as int) + enc_tags_then(
                e.tags,
                enc_str(e.text) + rest,
            ))),
            v.skip(p1),
        );
    }
}

/// Consuming the commit field.
proof fn lemma_step_commit(v: Seq<char>, p1: int, p2: int, k: int, cv: Seq<char>)
    requires
        0 <= p1 <= p2 <= v.len(),
        k >= 0,
        forall|ixv: IndexView|
            #[trigger] matches_blob(ixv, v) ==> v.skip(p1) == enc_str(ixv.entries[k].1.commit) + (
            enc_str(ixv.entries[k].1.title) + (enc_str(ixv.entries[k].1.status) + (enc_num(
                ixv.entries[k].1.tags.len() as int,
            ) + enc_tags_then(
                ixv.entries[k].1.tags,
                enc_str(ixv.entries[k].1.text) + enc_entries(ixv.entries.skip(k + 1)),
            )))),
        v.subrange(p1, p2) == enc_str(cv),
        forall|t: Seq<char>| crate::text::is_prefix(#[trigger] enc_str(t), v.skip(p1)) ==> t == cv,
    ensures
        forall|ixv: IndexView|
            #[trigger] matches_blob(ixv, v) ==> ixv.entries[k].1.commit == cv && v.skip(p2)
                == enc_str(ixv.entries[k].1.title) + (enc_str(ixv.entries[k].1.status) + (enc_num(
                ixv.entries[k].1.tags.len() as int,
            ) + enc_tags_then(
                ixv.entries[k].1.tags,
                enc_str(ixv.entries[k].1.text) + enc_entries(ixv.entries.skip(k + 1)),
            ))) && crate::text::is_prefix(enc_str(ixv.entries[k].1.title), v.skip(p2)),
{
    assert forall|ixv: IndexView|
        #[trigger] matches_blob(ixv, v) implies ixv.entries[k].1.commit == cv && v.skip(p2)
        == enc_str(ixv.entries[k].1.title) + (enc_str(ixv.entries[k].1.status) + (enc_num(
        ixv.entries[k].1.tags.len() as int,
    ) + enc_tags_then(
        ixv.entries[k].1.tags,
        enc_str(ixv.entries[k].1.text) + enc_entries(ixv.entries.skip(k + 1)),
    ))) && crate::text::is_prefix(enc_str(ixv.entries[k].1.title), v.skip(p2)) by {
        let e = ixv.entries[k].1;
        let rest = enc_entries(ixv.entries.skip(k + 1));
        let t2 = enc_str(e.title) + (enc_str(e.status) + (enc_num(e.tags.len() as int)
            + enc_tags_then(e.tags, enc_str(e.text) + rest)));
        lemma_prefix_of_concat(enc_str(e.commit), t2, v.skip(p1));
        assert(e.commit == cv);
        lemma_skip_after(v, p1, p2, enc_str(e.commit), t2);
        lemma_prefix_of_concat(
            enc_str(e.title),
            enc_str(e.status) + (enc_num(e.tags.len() as int) + enc_tags_then(
                e.tags,
                enc_str(e.text) + rest,
            )),
            v.skip(p2),
        );
    }
}

/// Consuming the title field.
proof fn lemma_step_title(v: Seq<char>, p2: int, p3: int, k: int, tv: Seq<char>)
    requires
        0 <= p2 <= p3 <= v.len(),
        k >= 0,
        forall|ixv: IndexView|
            #[trigger] matches_blob(ixv, v) ==> v.skip(p2) == enc_str(ixv.entries[k].1.title) + (
            enc_str(ixv.entries[k].1.status) + (enc_num(ixv.entries[k].1.tags.len() as int)
                + enc_tags_then(
                ixv.entries[k].1.tags,
                enc_str(ixv.entries[k].1.text) + enc_entries(ixv.entries.skip(k + 1)),
            ))),
        v.subrange(p2, p3) == enc_str(tv),
        forall|t: Seq<char>| crate::text::is_prefix(#[trigger] enc_str(t), v.skip(p2)) ==> t == tv,
    ensures
        forall|ixv: IndexView|
            #[trigger] matches_blob(ixv, v) ==> ixv.entries[k].1.title == tv && v.skip(p3)
                == enc_str(ixv.entries[k].1.status) + (enc_num(
                ixv.entries[k].1.tags.len() as int,
            ) + enc_tags_then(
                ixv.entries[k].1.tags,
                enc_str(ixv.entries[k].1.text) + enc_entries(ixv.entries.skip(k + 1)),
            )) && crate::text::is_prefix(enc_str(ixv.entries[k].1.status), v.skip(p3)),
{
    assert forall|ixv: IndexView|
        #[trigger] matches_blob(ixv, v) implies ixv.entries[k].1.title == tv && v.skip(p3)
        == enc_str(ixv.entries[k].1.status) + (enc_num(ixv.entries[k].1.tags.len() as int)
        + enc_tags_then(
        ixv.entries[k].1.tags,
        enc_str(ixv.entries[k].1.text) + enc_entries(ixv.entries.skip(k + 1)),
    )) && crate::text::is_prefix(enc_str(ixv.entries[k].1.status), v.skip(p3)) by {
        let e = ixv.entries[k].1;
        let rest = enc_entries(ixv.entries.skip(k + 1));
        let t3 = enc_str(e.status) + (enc_num(e.tags.len() as int) + enc_tags_then(
            e.tags,
            enc_str(e.text) + rest,
        ));
        lemma_prefix_of_concat(enc_str(e.title), t3, v.skip(p2));
        assert(e.title == tv);
        lemma_skip_after(v, p2, p3, enc_str(e.title), t3);
        lemma_prefix_of_concat(
            enc_str(e.status),
            enc_num(e.tags.len() as int) + enc_tags_then(e.tags, enc_str(e.text) + rest),
            v.skip(p3),
        );
    }
}

/// Consuming the status field.
proof fn lemma_step_status(v: Seq<char>, p3: int, p4: int, k: int, sv: Seq<char>)
    requires
        0 <= p3 <= p4 <= v.len(),
        k >= 0,
        forall|ixv: IndexView|
            #[trigger] matches_blob(ixv, v) ==> v.skip(p3) == enc_str(ixv.entries[k].1.status) + (
            enc_num(ixv.entries[k].1.tags.len() as int) + enc_tags_then(
                ixv.entries[k].1.tags,
                enc_str(ixv.entries[k].1.text) + enc_entries(ixv.entries.skip(k + 1)),
            )),
        v.subrange(p3, p4) == enc_str(sv),
        forall|t: Seq<char>| crate::text::is_prefix(#[trigger] enc_str(t), v.skip(p3)) ==> t == sv,
    ensures
        forall|ixv: IndexView|
            #[trigger] matches_blob(ixv, v) ==> ixv.entries[k].1.status == sv && v.skip(p4) == (
            dec_str(ixv.entries[k].1.tags.len() as int) + seq![';']) + enc_tags_then(
                ixv.entries[k].1.tags,
                enc_str(ixv.entries[k].1.text) + enc_entries(ixv.entries.skip(k + 1)),
            ) && crate::text::is_prefix(
                dec_str(ixv.entries[k].1.tags.len() as int) + seq![';'],
                v.skip(p4),
            ),
{
    assert forall|ixv: IndexView|
        #[trigger] matches_blob(ixv, v) implies ixv.entries[k].1.status == sv && v.skip(p4) == (
    dec_str(ixv.entries[k].1.tags.len() as int) + seq![';']) + enc_tags_then(
        ixv.entries[k].1.tags,
        enc_str(ixv.entries[k].1.text) + enc_entries(ixv.entries.skip(k + 1)),
    ) && crate::text::is_prefix(
        dec_str(ixv.entries[k].1.tags.len() as int) + seq![';'],
        v.skip(p4),
    ) by {
        let e = ixv.entries[k].1;
        let rest = enc_entries(ixv.entries.skip(k + 1));
        let t4 = enc_num(e.tags.len() as int) + enc_tags_then(e.tags, enc_str(e.text) + rest);
        lemma_prefix_of_concat(enc_str(e.status), t4, v.skip(p3));
        assert(e.status == sv);
        lemma_skip_after(v, p3, p4, enc_str(e.status), t4);
        assert(v.skip(p4) =~= (dec_str(e.tags.len() as int) + seq![';']) + enc_tags_then(
            e.tags,
            enc_str(e.text) + rest,
        ));
        lemma_prefix_of_concat(
            dec_str(e.tags.len() as int) + seq![';'],
            enc_tags_then(e.tags, enc_str(e.text) + rest),
            v.skip(p4),
        );
    }
}

/// Consuming the tag count.
proof fn lemma_step_tag_count(v: Seq<char>, p4: int, p5: int, k: int, count: int, tc: int)
    requires
        0 <= p4 <= p5 <= v.len(),
        k >= 0,
        tc >= 0,
        forall|ixv: IndexView|
            #[trigger] matches_blob(ixv, v) ==> ixv.entries.len() == count && v.skip(p4) == (
            dec_str(ixv.entries[k].1.tags.len() as int) + seq![';']) + enc_tags_then(
                ixv.entries[k].1.tags,
                enc_str(ixv.entries[k].1.text) + enc_entries(ixv.entries.skip(k + 1)),
            ),
        v.subrange(p4, p5) == dec_str(tc) + seq![';'],
        forall|m: int|
            0 <= m && crate::text::is_prefix(dec_str(m) + seq![';'], v.skip(p4)) ==> m == tc,
    ensures
        forall|ixv: IndexView|
            #[trigger] matches_blob(ixv, v) ==> ixv.entries.len() == count
                && ixv.entries[k].1.tags.len() == tc && enc_tags_then(
                ixv.entries[k].1.tags.skip(0),
                enc_str(ixv.entries[k].1.text) + enc_entries(ixv.entries.skip(k + 1)),
            ) == v.skip(p5),
{
    assert forall|ixv: IndexView|
        #[trigger] matches_blob(ixv, v) implies ixv.entries.len() == count
        && ixv.entries[k].1.tags.len() == tc && enc_tags_then(
        ixv.entries[k].1.tags.skip(0),
        enc_str(ixv.entries[k].1.text) + enc_entries(ixv.entries.skip(k + 1)),
    ) == v.skip(p5) by {
        let e = ixv.entries[k].1;
        let rest = enc_entries(ixv.entries.skip(k + 1));
        lemma_prefix_of_concat(
            dec_str(e.tags.len() as int) + seq![';'],
            enc_tags_then(e.tags, enc_str(e.text) + rest),
            v.skip(p4),
        );
        assert(e.tags.len() as int == tc);
        lemma_skip_after(
            v,
            p4,
            p5,
            dec_str(tc) + seq![';'],
            enc_tags_then(e.tags, enc_str(e.text) + rest),
        );
        assert(e.tags.skip(0) =~= e.tags);
    }
}

/// The next tag field at the cursor.
proof fn lemma_step_tag_pre(v: Seq<char>, tp: int, k: int, t: int, tc: int)
    requires
        0 <= tp <= v.len(),
        k >= 0,
        0 <= t < tc,
        forall|ixv: IndexView|
            #[trigger] matches_blob(ixv, v) ==> ixv.entries[k].1.tags.len() == tc && enc_tags_then(
                ixv.entries[k].1.tags.skip(t),
                enc_str(ixv.entries[k].1.text) + enc_entries(ixv.entries.skip(k + 1)),
            ) == v.skip(tp),
    ensures
        forall|ixv: IndexView|
            #[trigger] matches_blob(ixv, v) ==> crate::text::is_prefix(
                enc_str(ixv.entries[k].1.tags[t]),
                v.skip(tp),
            ),
{
    assert forall|ixv: IndexView|
        #[trigger] matches_blob(ixv, v) implies crate::text::is_prefix(
        enc_str(ixv.entries[k].1.tags[t]),
        v.skip(tp),
    ) by {
        let e = ixv.entries[k].1;
        let rest = enc_entries(ixv.entries.skip(k + 1));
        assert(e.tags.skip(t)[0] == e.tags[t]);
        assert(e.tags.skip(t).skip(1) =~= e.tags.skip(t + 1));
        assert(enc_tags_then(e.tags.skip(t), enc_str(e.text) + rest) == enc_str(e.tags[t])
            + enc_tags_then(e.tags.skip(t + 1), enc_str(e.text) + rest));
        lemma_prefix_of_concat(
            enc_str(e.tags[t]),
            enc_tags_then(e.tags.skip(t + 1), enc_str(e.text) + rest),
            v.skip(tp),
        );
    }
}

/// Consuming one tag field.
proof fn lemma_step_tag(v: Seq<char>, tp: int, np: int, k: int, t: int, tc: int, tagv: Seq<char>)
    requires
        0 <= tp <= np <= v.len(),
        k >= 0,
        0 <= t < tc,
        forall|ixv: IndexView|
            #[trigger] matches_blob(ixv, v) ==> ixv.entries[k].1.tags.len() == tc && enc_tags_then(
                ixv.entries[k].1.tags.skip(t),
                enc_str(ixv.entries[k].1.text) + enc_entries(ixv.entries.skip(k + 1)),
            ) == v.skip(tp),
        v.subrange(tp, np) == enc_str(tagv),
        forall|x: Seq<char>| crate::text::is_prefix(#[trigger] enc_str(x), v.skip(tp)) ==> x
            == tagv,
    ensures
        forall|ixv: IndexView|
            #[trigger] matches_blob(ixv, v) ==> ixv.entries[k].1.tags[t] == tagv && enc_tags_then(
                ixv.entries[k].1.tags.skip(t + 1),
                enc_str(ixv.entries[k].1.text) + enc_entries(ixv.entries.skip(k + 1)),
            ) == v.skip(np),
{
    assert forall|ixv: IndexView|
        #[trigger] matches_blob(ixv, v) implies ixv.entries[k].1.tags[t] == tagv && enc_tags_then(
        ixv.entries[k].1.tags.skip(t + 1),
        enc_str(ixv.entries[k].1.text) + enc_entries(ixv.entries.skip(k + 1)),
    ) == v.skip(np) by {
        let e = ixv.entries[k].1;
        let rest = enc_entries(ixv.entries.skip(k + 1));
        assert(e.tags.skip(t)[0] == e.tags[t]);
        assert(e.tags.skip(t).skip(1) =~= e.tags.skip(t + 1));
        assert(enc_tags_then(e.tags.skip(t), enc_str(e.text) + rest) == enc_str(e.tags[t])
            + enc_tags_then(e.tags.skip(t + 1), enc_str(e.text) + rest));
        lemma_prefix_of_concat(
            enc_str(e.tags[t]),
            enc_tags_then(e.tags.skip(t + 1), enc_str(e.text) + rest),
            v.skip(tp),
        );
        assert(e.tags[t] == tagv);
        lemma_skip_after(
            v,
            tp,
            np,
            enc_str(e.tags[t]),
            enc_tags_then(e.tags.skip(t + 1), enc_str(e.text) + rest),
        );
    }
}

/// The text field at the cursor, once every tag is consumed.
proof fn lemma_step_text_pre(v: Seq<char>, tp: int, k: int, tc: int)
    requires
        0 <= tp <= v.len(),
        k >= 0,
        tc >= 0,
        forall|ixv: IndexView|
            #[trigger] matches_blob(ixv, v) ==> ixv.entries[k].1.tags.len() == tc && enc_tags_then(
                ixv.entries[k].1.tags.skip(tc),
                enc_str(ixv.entries[k].1.text) + enc_entries(ixv.entries.skip(k + 1)),
            ) == v.skip(tp),
    ensures
        forall|ixv: IndexView|
            #[trigger] matches_blob(ixv, v) ==> v.skip(tp) == enc_str(ixv.entries[k].1.text)
                + enc_entries(ixv.entries.skip(k + 1)) && crate::text::is_prefix(
                enc_str(ixv.entries[k].1.text),
                v.skip(tp),
            ),
{
    assert forall|ixv: IndexView|
        #[trigger] matches_blob(ixv, v) implies v.skip(tp) == enc_str(ixv.entries[k].1.text)
        + enc_entries(ixv.entries.skip(k + 1)) && crate::text::is_prefix(
        enc_str(ixv.entries[k].1.text),
        v.skip(tp),
    ) by {
        let e = ixv.entries[k].1;
        let rest = enc_entries(ixv.entries.skip(k + 1));
        assert(e.tags.skip(tc as int).len() == 0);
        assert(enc_tags_then(e.tags.skip(tc as int), enc_str(e.text) + rest) == enc_str(e.text)
            + rest);
        lemma_prefix_of_concat(enc_str(e.text), rest, v.skip(tp));
    }
}

/// Consuming the text field closes the entry.
proof fn lemma_step_text(v: Seq<char>, tp: int, p7: int, k: int, textv: Seq<char>)
    requires
        0 <= tp <= p7 <= v.len(),
        k >= 0,
        forall|ixv: IndexView|
            #[trigger] matches_blob(ixv, v) ==> v.skip(tp) == enc_str(ixv.entries[k].1.text)
                + enc_entries(ixv.entries.skip(k + 1)),
        v.subrange(tp, p7) == enc_str(textv),
        forall|x: Seq<char>| crate::text::is_prefix(#[trigger] enc_str(x), v.skip(tp)) ==> x
            == textv,
    ensures
        forall|ixv: IndexView|
            #[trigger] matches_blob(ixv, v) ==> enc_entries(ixv.entries.skip(k + 1)) == v.skip(p7),
{
    assert forall|ixv: IndexView|
        #[trigger] matches_blob(ixv, v) implies enc_entries(ixv.entries.skip(k + 1)) == v.skip(
        p7,
    ) by {
        let e = ixv.entries[k].1;
        let rest = enc_entries(ixv.entries.skip(k + 1));
        lemma_prefix_of_concat(enc_str(e.text), rest, v.skip(tp));
        assert(e.text == textv);
        lemma_skip_after(v, tp, p7, enc_str(e.text), rest);
    }
}

/// Decode a serialized index: `Some` exactly for the blobs the encoder
/// produces from an id-keyed index, and the result re-encodes to the
/// very same text.
#[verifier::rlimit(100)]
pub fn decode_index_chars(v: &Vec<char>) -> (r: Option<SearchIndex>)
    ensures
        match r {
            Some(ix) => encode_index(ix@) == v@ && index_keyed(ix@),
            None => forall|ixv: IndexView| !matches_blob(ixv, v@),
        },
{
    let vlen = v.len();
    proof {
        assert(v@.skip(0) =~= v@);
        assert forall|ixv: IndexView|
            #[trigger] matches_blob(ixv, v@) implies crate::text::is_prefix(
            dec_str(ixv.version as int) + seq![';'],
            v@.skip(0),
        ) by {
            assert(v@.skip(0) =~= (dec_str(ixv.version as int) + seq![';']) + (enc_num(
                ixv.entries.len() as int,
            ) + enc_entries(ixv.entries)));
            lemma_prefix_of_concat(
                dec_str(ixv.version as int) + seq![';'],
                enc_num(ixv.entries.len() as int) + enc_entries(ixv.entries),
                v@.skip(0),
            );
        }
    }
    let (version_n, pos1) = match read_num_field(v, 0, ';') {
        Some(p) => p,
        None => {
            return None;
        },
    };
    if version_n > u32::MAX as usize {
        return None;
    }
    let version = version_n as u32;
    proof {
        assert forall|ixv: IndexView|
            #[trigger] matches_blob(ixv, v@) implies ixv.version as int == version as int
            && v@.skip(pos1 as int) == enc_num(ixv.entries.len() as int) + enc_entries(
            ixv.entries,
        ) && crate::text::is_prefix(
            dec_str(ixv.entries.len() as int) + seq![';'],
            v@.skip(pos1 as int),
        ) by {
            assert(v@.skip(0) =~= (dec_str(ixv.version as int) + seq![';']) + (enc_num(
                ixv.entries.len() as int,
            ) + enc_entries(ixv.entries)));
            assert(ixv.version as int == version_n as int);
            lemma_skip_after(
                v@,
                0,
                pos1 as int,
                dec_str(version_n as int) + seq![';'],
                enc_num(ixv.entries.len() as int) + enc_entries(ixv.entries),
            );
            assert(v@.skip(pos1 as int) =~= (dec_str(ixv.entries.len() as int) + seq![';'])
                + enc_entries(ixv.entries));
            lemma_prefix_of_concat(
                dec_str(ixv.entries.len() as int) + seq![';'],
                enc_entries(ixv.entries),
                v@.skip(pos1 as int),
            );
        }
    }
    let (count, pos2) = match read_num_field(v, pos1, ';') {
        Some(p) => p,
        None => {
            proof {
                assert forall|ixv: IndexView| !matches_blob(ixv, v@) by {
                    if matches_blob(ixv, v@) {
                        if ixv.entries.len() > usize::MAX {
                            lemma_enc_entries_len_ge(ixv.entries);
                            assert(v@.skip(pos1 as int).len() >= ixv.entries.len());
                            assert(v@.len() <= vlen);
                        }
                    }
                }
            }
            return None;
        },
    };
    let ghost header = enc_num(version as int) + enc_num(count as int);
    proof {
        assert(v@.subrange(0, pos2 as int) =~= header) by {
            assert(v@.subrange(0, pos1 as int) == dec_str(version_n as int) + seq![';']);
            assert(v@.subrange(pos1 as int, pos2 as int) == dec_str(count as int) + seq![';']);
            assert(forall|i: int| 0 <= i < pos2 ==> v@.subrange(0, pos2 as int)[i] == v@[i]);
            assert(forall|i: int| 0 <= i < pos1 ==> v@.subrange(0, pos1 as int)[i] == v@[i]);
            assert(forall|i: int|
                0 <= i < pos2 - pos1 ==> v@.subrange(pos1 as int, pos2 as int)[i] == v@[pos1 + i]);
        }
    }
    let mut pos = pos2;
    let mut items: Vec<(String, IndexEntry)> = Vec::new();
    let mut k: usize = 0;
    proof {
        assert(items@.map_values(|p: (String, IndexEntry)| (p.0@, p.1@)) =~~= Seq::<
            (Seq<char>, EntryView),
        >::empty());
        assert(header + enc_entries(items@.map_values(|p: (String, IndexEntry)| (p.0@, p.1@)))
            =~= v@.subrange(0, pos as int));
        assert forall|ixv: IndexView|
            #[trigger] matches_blob(ixv, v@) implies ixv.entries.len() == count as int
            && enc_entries(ixv.entries.skip(k as int)) == v@.skip(pos as int) by {
            assert(ixv.entries.len() == count as int);
            lemma_skip_after(
                v@,
                pos1 as int,
                pos2 as int,
                dec_str(count as int) + seq![';'],
                enc_entries(ixv.entries),
            );
            assert(ixv.entries.skip(0) =~= ixv.entries);
        }
    }
    while k < count
        invariant
            k <= count,
            pos <= v@.len(),
            vlen == v@.len(),
            items@.len() == k,
            header == enc_num(version as int) + enc_num(count as int),
            header + enc_entries(items@.map_values(|p: (String, IndexEntry)| (p.0@, p.1@)))
                == v@.subrange(0, pos as int),
            forall|i: int| 0 <= i < items@.len() ==> (#[trigger] items@[i]).0@ == items@[i].1@.id,
            forall|ixv: IndexView|
                #[trigger] matches_blob(ixv, v@) ==> ixv.entries.len() == count as int
                    && enc_entries(ixv.entries.skip(k as int)) == v@.skip(pos as int),
        decreases count - k,
    {
        let ghost pre_entries = items@.map_values(|p: (String, IndexEntry)| (p.0@, p.1@));
        let ghost pre_pos = pos as int;
        proof {
            lemma_step_entry(v@, pos as int, k as int, count as int);
        }
        let (id, p1) = match read_str_field(v, pos) {
            Some(p) => p,
            None => {
                return None;
            },
        };
        proof {
            lemma_step_id(v@, pos as int, p1 as int, k as int, count as int, id@);
        }
        let (commit, p2) = match read_str_field(v, p1) {
            Some(p) => p,
            None => {
                return None;
            },
        };
        proof {
            lemma_step_commit(v@, p1 as int, p2 as int, k as int, commit@);
        }
        let (title, p3) = match read_str_field(v, p2) {
            Some(p) => p,
            None => {
                return None;
            },
        };
        proof {
            lemma_step_title(v@, p2 as int, p3 as int, k as int, title@);
        }
        let (status, p4) = match read_str_field(v, p3) {
            Some(p) => p,
            None => {
                return None;
            },
        };
        proof {
            lemma_step_status(v@, p3 as int, p4 as int, k as int, status@);
        }
        let (tag_count, p5) = match read_num_field(v, p4, ';') {
            Some(p) => p,
            None => {
                proof {
                    assert forall|ixv: IndexView| !matches_blob(ixv, v@) by {
                        if matches_blob(ixv, v@) {
                            let e = ixv.entries[k as int].1;
                            if e.tags.len() > usize::MAX {
                                lemma_enc_tags_then_len_ge(
                                    e.tags,
                                    enc_str(e.text) + enc_entries(ixv.entries.skip(k + 1)),
                                );
                                assert(v@.skip(p4 as int).len() >= e.tags.len());
                            }
                        }
                    }
                }
                return None;
            },
        };
        proof {
            lemma_step_tag_count(
                v@,
                p4 as int,
                p5 as int,
                k as int,
                count as int,
                tag_count as int,
            );
        }
        let mut tags: Vec<String> = Vec::new();
        let mut t: usize = 0;
        let mut tp = p5;
        proof {
            assert(tags.deep_view() =~~= Seq::<Seq<char>>::empty());
            assert(enc_tags(tags.deep_view()) =~= Seq::<char>::empty());
            assert(v@.subrange(p4 as int, tp as int) =~= dec_str(tag_count as int) + seq![';']
                + enc_tags(tags.deep_view()));
        }
        while t < tag_count
            invariant
                t <= tag_count,
                k < count,
                p4 <= p5 <= tp <= v@.len(),
                tags@.len() == t,
                v@.subrange(p4 as int, tp as int) == dec_str(tag_count as int) + seq![';']
                    + enc_tags(tags.deep_view()),
                forall|ixv: IndexView|
                    #[trigger] matches_blob(ixv, v@) ==> ixv.entries.len() == count as int
                        && ixv.entries[k as int].1.tags.len() == tag_count as int && enc_tags_then(
                        ixv.entries[k as int].1.tags.skip(t as int),
                        enc_str(ixv.entries[k as int].1.text) + enc_entries(
                            ixv.entries.skip(k + 1),
                        ),
                    ) == v@.skip(tp as int),
            decreases tag_count - t,
        {
            proof {
                lemma_step_tag_pre(v@, tp as int, k as int, t as int, tag_count as int);
            }
            let ghost pre_tags = tags.deep_view();
            let (tag, np) = match read_str_field(v, tp) {
                Some(p) => p,
                None => {
                    return None;
                },
            };
            proof {
                lemma_step_tag(
                    v@,
                    tp as int,
                    np as int,
                    k as int,
                    t as int,
                    tag_count as int,
                    tag@,
                );
                lemma_enc_tags_snoc(pre_tags, tag@);
            }
            tags.push(tag);
            proof {
                assert(tags.deep_view() =~~= pre_tags.push(tag@));
                assert(v@.subrange(p4 as int, np as int) =~= v@.subrange(p4 as int, tp as int)
                    + v@.subrange(tp as int, np as int));
                assert(v@.subrange(p4 as int, np as int) =~= dec_str(tag_count as int) + seq![';']
                    + enc_tags(tags.deep_view()));
            }
            tp = np;
            t = t + 1;
        }
        proof {
            lemma_step_text_pre(v@, tp as int, k as int, tag_count as int);
        }
        let (text, p7) = match read_str_field(v, tp) {
            Some(p) => p,
            None => {
                return None;
            },
        };
        proof {
            lemma_step_text(v@, tp as int, p7 as int, k as int, text@);
        }
        let key = id.clone();
        let entry = IndexEntry { id, commit, title, status, tags, text };
        proof {
            assert(tags_len_fits(entry@.tags, tag_count as int));
        }
        items.push((key, entry));
        pos = p7;
        k = k + 1;
        proof {
            let evs = items@.map_values(|p: (String, IndexEntry)| (p.0@, p.1@));
            assert(evs =~~= pre_entries.push((entry@.id, entry@)));
            lemma_enc_entries_snoc(pre_entries, (entry@.id, entry@));
            assert(v@.subrange(pre_pos, p7 as int) =~= v@.subrange(pre_pos, p1 as int)
                + v@.subrange(p1 as int, p2 as int) + v@.subrange(p2 as int, p3 as int)
                + v@.subrange(p3 as int, p4 as int) + v@.subrange(p4 as int, tp as int)
                + v@.subrange(tp as int, p7 as int));
            assert(v@.subrange(pre_pos, p7 as int) =~= enc_entry(entry@));
            assert(v@.subrange(0, p7 as int) =~= v@.subrange(0, pre_pos) + v@.subrange(
                pre_pos,
                p7 as int,
            ));
            assert(header + enc_entries(evs) =~= v@.subrange(0, pos as int));
        }
    }
    if pos != vlen {
        proof {
            assert forall|ixv: IndexView| !matches_blob(ixv, v@) by {
                if matches_blob(ixv, v@) {
                    assert(ixv.entries.skip(count as int) =~= Seq::<
                        (Seq<char>, EntryView),
                    >::empty());
                    assert(enc_entries(ixv.entries.skip(count as int)) =~= Seq::<char>::empty());
                    assert(v@.skip(pos as int).len() == 0);
                }
            }
        }
        return None;
    }
    let ix = SearchIndex { entries: EntryMap { items }, version };
    proof {
        assert(v@.subrange(0, v@.len() as int) =~= v@);
        assert(encode_index(ix@) =~= v@);
        assert(index_keyed(ix@));
    }
    Some(ix)
}

/// The tag fields with a continuation cost at least one character per
/// tag plus the continuation.
proof fn lemma_enc_tags_then_len_ge(tags: Seq<Seq<char>>, rest: Seq<char>)
    ensures
        enc_tags_then(tags, rest).len() >= tags.len(),
    decreases tags.len(),
{
    if tags.len() > 0 {
        lemma_enc_tags_then_len_ge(tags.skip(1), rest);
    }
}

// The tag count a decoded entry was read under equals its tag number.
#[verifier::inline]
spec fn tags_len_fits(tags: Seq<Seq<char>>, n: int) -> bool {
    tags.len() == n
}

/// Equal concatenations with an equal head have equal tails.
proof fn lemma_concat_cancel(a: Seq<char>, b: Seq<char>, c: Seq<char>)
    requires
        a + b == a + c,
    ensures
        b == c,
{
    assert((a + b).len() == a.len() + b.len());
    assert((a + c).len() == a.len() + c.len());
    assert(b.len() == c.len());
    assert(b =~= c) by {
        assert(forall|i: int| 0 <= i < b.len() ==> (a + b)[a.len() + i] == b[i]);
        assert(forall|i: int| 0 <= i < c.len() ==> (a + c)[a.len() + i] == c[i]);
    }
}

/// Two string fields at the head of the same text are the same field.
proof fn lemma_str_head_unique(s: Seq<char>, t1: Seq<char>, r1: Seq<char>, t2: Seq<char>, r2: Seq<char>)
    requires
        s == enc_str(t1) + r1,
        s == enc_str(t2) + r2,
    ensures
        t1 == t2,
        r1 == r2,
{
    lemma_prefix_of_concat(enc_str(t1), r1, s);
    lemma_prefix_of_concat(enc_str(t2), r2, s);
    lemma_enc_str_prefix_carries_num(t1, s);
    lemma_enc_str_prefix_carries_num(t2, s);
    lemma_num_prefix_unique(s, ':', t1.len() as int, t2.len() as int);
    crate::text::lemma_dec_str_val(t1.len() as int);
    assert(enc_str(t1).len() == enc_str(t2).len());
    assert(t1 =~= t2) by {
        assert(forall|i: int| 0 <= i < enc_str(t1).len() ==> s.subrange(0, enc_str(t1).len() as int)[i]
            == s[i]);
        assert(forall|i: int| 0 <= i < enc_str(t2).len() ==> s.subrange(0, enc_str(t2).len() as int)[i]
            == s[i]);
        assert(forall|i: int|
            0 <= i < t1.len() ==> enc_str(t1)[dec_str(t1.len() as int).len() + 1 + i] == t1[i]);
        assert(forall|i: int|
            0 <= i < t2.len() ==> enc_str(t2)[dec_str(t2.len() as int).len() + 1 + i] == t2[i]);
    }
    lemma_concat_cancel(enc_str(t1), r1, r2);
}

/// Two number fields at the head of the same text are the same field.
proof fn lemma_num_head_unique(s: Seq<char>, term: char, m: int, r1: Seq<char>, n: int, r2: Seq<char>)
    requires
        !crate::text::is_digit(term),
        m >= 0,
        n >= 0,
        s == (dec_str(m) + seq![term]) + r1,
        s == (dec_str(n) + seq![term]) + r2,
    ensures
        m == n,
        r1 == r2,
{
    lemma_prefix_of_concat(dec_str(m) + seq![term], r1, s);
    lemma_prefix_of_concat(dec_str(n) + seq![term], r2, s);
    lemma_num_prefix_unique(s, term, m, n);
    lemma_concat_cancel(dec_str(m) + seq![term], r1, r2);
}

/// Equal tag encodings of equally many tags onto continuations are
/// equal tag lists with equal continuations.
proof fn lemma_tags_then_injective(
    ta: Seq<Seq<char>>,
    tb: Seq<Seq<char>>,
    ra: Seq<char>,
    rb: Seq<char>,
)
    requires
        ta.len() == tb.len(),
        enc_tags_then(ta, ra) == enc_tags_then(tb, rb),
    ensures
        ta == tb,
        ra == rb,
    decreases ta.len(),
{
    if ta.len() == 0 {
        assert(ta =~= tb);
    } else {
        let s = enc_tags_then(ta, ra);
        assert(s == enc_str(ta[0]) + enc_tags_then(ta.skip(1), ra));
        assert(s == enc_str(tb[0]) + enc_tags_then(tb.skip(1), rb));
        lemma_str_head_unique(
            s,
            ta[0],
            enc_tags_then(ta.skip(1), ra),
            tb[0],
            enc_tags_then(tb.skip(1), rb),
        );
        lemma_tags_then_injective(ta.skip(1), tb.skip(1), ra, rb);
        assert(ta =~~= tb) by {
            assert(forall|i: int| 1 <= i < ta.len() ==> ta[i] == ta.skip(1)[i - 1] && tb[i]
                == tb.skip(1)[i - 1]);
        }
    }
}

/// Equal entry encodings of equally many keyed entries are equal.
proof fn lemma_enc_entries_injective(
    ea: Seq<(Seq<char>, EntryView)>,
    eb: Seq<(Seq<char>, EntryView)>,
)
    requires
        ea.len() == eb.len(),
        enc_entries(ea) == enc_entries(eb),
        forall|i: int| 0 <= i < ea.len() ==> (#[trigger] ea[i]).0 == ea[i].1.id,
        forall|i: int| 0 <= i < eb.len() ==> (#[trigger] eb[i]).0 == eb[i].1.id,
    ensures
        ea == eb,
    decreases ea.len(),
{
    if ea.len() == 0 {
        assert(ea =~= eb);
    } else {
        let s = enc_entries(ea);
        let a = ea[0].1;
        let b = eb[0].1;
        let resta = enc_entries(ea.skip(1));
        let restb = enc_entries(eb.skip(1));
        assert(ea.skip(0) =~= ea);
        assert(eb.skip(0) =~= eb);
        assert(enc_entries(ea) == enc_entry(a) + resta);
        assert(enc_entries(eb) == enc_entry(b) + restb);
        lemma_enc_entry_then(a, resta);
        lemma_enc_entry_then(b, restb);
        assert(s == enc_entry_then(a, resta));
        assert(s == enc_entry_then(b, restb));
        lemma_str_head_unique(
            s,
            a.id,
            enc_str(a.commit) + (enc_str(a.title) + (enc_str(a.status) + (enc_num(
                a.tags.len() as int,
            ) + enc_tags_then(a.tags, enc_str(a.text) + resta)))),
            b.id,
            enc_str(b.commit) + (enc_str(b.title) + (enc_str(b.status) + (enc_num(
                b.tags.len() as int,
            ) + enc_tags_then(b.tags, enc_str(b.text) + restb)))),
        );
        let s1 = enc_str(a.commit) + (enc_str(a.title) + (enc_str(a.status) + (enc_num(
            a.tags.len() as int,
        ) + enc_tags_then(a.tags, enc_str(a.text) + resta))));
        lemma_str_head_unique(
            s1,
            a.commit,
            enc_str(a.title) + (enc_str(a.status) + (enc_num(a.tags.len() as int) + enc_tags_then(
                a.tags,
                enc_str(a.text) + resta,
            ))),
            b.commit,
            enc_str(b.title) + (enc_str(b.status) + (enc_num(b.tags.len() as int) + enc_tags_then(
                b.tags,
                enc_str(b.text) + restb,
            ))),
        );
        let s2 = enc_str(a.title) + (enc_str(a.status) + (enc_num(a.tags.len() as int)
            + enc_tags_then(a.tags, enc_str(a.text) + resta)));
        lemma_str_head_unique(
            s2,
            a.title,
            enc_str(a.status) + (enc_num(a.tags.len() as int) + enc_tags_then(
                a.tags,
                enc_str(a.text) + resta,
            )),
            b.title,
            enc_str(b.status) + (enc_num(b.tags.len() as int) + enc_tags_then(
                b.tags,
                enc_str(b.text) + restb,
            )),
        );
        let s3 = enc_str(a.status) + (enc_num(a.tags.len() as int) + enc_tags_then(
            a.tags,
            enc_str(a.text) + resta,
        ));
        lemma_str_head_unique(
            s3,
            a.status,
            enc_num(a.tags.len() as int) + enc_tags_then(a.tags, enc_str(a.text) + resta),
            b.status,
            enc_num(b.tags.len() as int) + enc_tags_then(b.tags, enc_str(b.text) + restb),
        );
        let s4 = enc_num(a.tags.len() as int) + enc_tags_then(a.tags, enc_str(a.text) + resta);
        assert(s4 == (dec_str(a.tags.len() as int) + seq![';']) + enc_tags_then(
            a.tags,
            enc_str(a.text) + resta,
        )) by {
            assert(s4 =~= (dec_str(a.tags.len() as int) + seq![';']) + enc_tags_then(
                a.tags,
                enc_str(a.text) + resta,
            ));
        }
        assert(s4 == (dec_str(b.tags.len() as int) + seq![';']) + enc_tags_then(
            b.tags,
            enc_str(b.text) + restb,
        )) by {
            assert(s4 =~= (dec_str(b.tags.len() as int) + seq![';']) + enc_tags_then(
                b.tags,
                enc_str(b.text) + restb,
            ));
        }
        lemma_num_head_unique(
            s4,
            ';',
            a.tags.len() as int,
            enc_tags_then(a.tags, enc_str(a.text) + resta),
            b.tags.len() as int,
            enc_tags_then(b.tags, enc_str(b.text) + restb),
        );
        lemma_tags_then_injective(a.tags, b.tags, enc_str(a.text) + resta, enc_str(b.text) + restb);
        lemma_str_head_unique(enc_str(a.text) + resta, a.text, resta, b.text, restb);
        assert(a =~~= b);
        assert(forall|i: int| 0 <= i < ea.skip(1).len() ==> (#[trigger] ea.skip(1)[i]) == ea[i
            + 1]);
        assert(forall|i: int| 0 <= i < eb.skip(1).len() ==> (#[trigger] eb.skip(1)[i]) == eb[i
            + 1]);
        lemma_enc_entries_injective(ea.skip(1), eb.skip(1));
        assert(ea[0] == eb[0]) by {
            assert(ea[0].0 == a.id && eb[0].0 == b.id);
        }
        assert(ea =~~= eb) by {
            assert(forall|i: int| 1 <= i < ea.len() ==> ea[i] == ea.skip(1)[i - 1] && eb[i]
                == eb.skip(1)[i - 1]);
        }
    }
}

/// Two keyed indexes with the same encoding are the same index.
pub proof fn lemma_encode_injective(a: IndexView, b: IndexView)
    requires
        index_keyed(a),
        index_keyed(b),
        encode_index(a) == encode_index(b),
    ensures
        a == b,
{
    let s = encode_index(a);
    assert(s == (dec_str(a.version as int) + seq![';']) + (enc_num(a.entries.len() as int)
        + enc_entries(a.entries))) by {
        assert(s =~= (dec_str(a.version as int) + seq![';']) + (enc_num(a.entries.len() as int)
            + enc_entries(a.entries)));
    }
    assert(s == (dec_str(b.version as int) + seq![';']) + (enc_num(b.entries.len() as int)
        + enc_entries(b.entries))) by {
        assert(s =~= (dec_str(b.version as int) + seq![';']) + (enc_num(b.entries.len() as int)
            + enc_entries(b.entries)));
    }
    lemma_num_head_unique(
        s,
        ';',
        a.version as int,
        enc_num(a.entries.len() as int) + enc_entries(a.entries),
        b.version as int,
        enc_num(b.entries.len() as int) + enc_entries(b.entries),
    );
    let s1 = enc_num(a.entries.len() as int) + enc_entries(a.entries);
    assert(s1 == (dec_str(a.entries.len() as int) + seq![';']) + enc_entries(a.entries)) by {
        assert(s1 =~= (dec_str(a.entries.len() as int) + seq![';']) + enc_entries(a.entries));
    }
    assert(s1 == (dec_str(b.entries.len() as int) + seq![';']) + enc_entries(b.entries)) by {
        assert(s1 =~= (dec_str(b.entries.len() as int) + seq![';']) + enc_entries(b.entries));
    }
    lemma_num_head_unique(
        s1,
        ';',
        a.entries.len() as int,
        enc_entries(a.entries),
        b.entries.len() as int,
        enc_entries(b.entries),
    );
    lemma_enc_entries_injective(a.entries, b.entries);
    assert(a =~~= b);
}

/// The note everything index-related is stored on: the repository's
/// root commit when there is one, else the head, else a well-known
/// constant address for a repository with no commits at all.
pub open spec fn anchor_commit(gv: GitView) -> Seq<char> {
    if gv.commits.len() > 0 {
        gv.commits[0]
    } else if gv.repo && gv.head_id is Some {
        gv.head_id->0
    } else {
        "4b825dc642cb6eb9a060e54bf8d69288fbee4904"@
    }
}

/// The persisted index blob, when the anchor resolves and carries one.
pub open spec fn stored_index_blob(gv: GitView) -> Option<Seq<char>> {
    match resolve_rev(gv, anchor_commit(gv)) {
        Some(rc) => note_at(gv.notes, "adr-index"@, rc),
        None => None,
    }
}

/// Manager for the persisted search index.
#[derive(Debug)]
pub struct IndexManager {
    git: Git,
}

impl IndexManager {
    /// The image of the repository state the manager is bound to.
    pub closed spec fn gitv(&self) -> GitView {
        self.git@
    }

    /// Bind a manager to a repository state.
    pub fn new(git: Git) -> (r: IndexManager)
        ensures
            r.gitv() == git@,
    {
        IndexManager { git }
    }

    /// The commit the index note is stored on.
    pub fn index_commit(&self) -> (r: String)
        ensures
            r@ == anchor_commit(self.gitv()),
    {
        let commits = self.git.commits_list();
        if commits.len() > 0 {
            let c = commits[0].clone();
            proof {
                assert(commits.deep_view().len() == commits@.len());
                assert(commits.deep_view()[0] == commits@[0]@);
            }
            return c;
        }
        proof {
            assert(commits.deep_view().len() == commits@.len());
        }
        match self.git.head() {
            Ok(h) => h,
            Err(_) => String::from_str("4b825dc642cb6eb9a060e54bf8d69288fbee4904"),
        }
    }

    /// Load the index from its note; a missing note is an empty index.
    pub fn load(&self) -> (r: Result<SearchIndex, Error>)
        ensures
            match r {
                Ok(ix) => index_keyed(ix@) && (match stored_index_blob(self.gitv()) {
                    Some(c) => encode_index(ix@) == c,
                    None => ix@.entries.len() == 0 && ix@.version == 1,
                }),
                Err(e) => e is ParseError && (stored_index_blob(self.gitv()) matches Some(c)
                    && (forall|ixv: IndexView| !matches_blob(ixv, c))),
            },
    {
        let commit = self.index_commit();
        let content = match self.git.notes_show("adr-index", commit.as_str()) {
            Ok(Some(c)) => Some(c),
            Ok(None) => None,
            Err(_) => None,
        };
        match content {
            Some(c) => {
                let cv = chars_of(c.as_str());
                match decode_index_chars(&cv) {
                    Some(ix) => Ok(ix),
                    None => Err(
                        Error::ParseError {
                            message: String::from_str("the stored index blob does not parse"),
                        },
                    ),
                }
            },
            None => Ok(SearchIndex::new()),
        }
    }

    /// Save the index as the note on the anchor commit.
    pub fn save(&mut self, index: &SearchIndex) -> (r: Result<(), Error>)
        ensures
            match r {
                Ok(()) => resolve_rev(old(self).gitv(), anchor_commit(old(self).gitv()))
                    matches Some(rc) && final(self).gitv() == (GitView {
                    notes: set_note(
                        old(self).gitv().notes,
                        "adr-index"@,
                        rc,
                        encode_index(index@),
                    ),
                    ..old(self).gitv()
                }),
                Err(e) => resolve_rev(old(self).gitv(), anchor_commit(old(self).gitv())) is None
                    && *final(self) == *old(self) && e is Git,
            },
    {
        let commit = self.index_commit();
        let content = encode_index_exec(index);
        self.git.notes_add("adr-index", commit.as_str(), content.as_str())
    }

    /// Recompute the index from the store's full listing and replace
    /// the persisted copy wholesale. Nothing refreshes it in between:
    /// the index is stale the moment the store changes, until the next
    /// rebuild.
    pub fn rebuild(&mut self, notes: &NotesManager) -> (r: Result<SearchIndex, Error>)
        ensures
            match r {
                Ok(ix) => {
                    &&& ix@.version == 1
                    &&& exists|l: Seq<crate::adr::AdrView>|
                        crate::notes::sorted_by_id(l) && (crate::notes::entries_wf(notes.gitv())
                            ==> l.to_multiset() == notes.records().to_multiset()) && ix@.entries
                            == #[trigger] index_entries_of(l)
                    &&& index_keyed(ix@)
                    &&& resolve_rev(old(self).gitv(), anchor_commit(old(self).gitv()))
                        matches Some(rc) && final(self).gitv() == (GitView {
                        notes: set_note(
                            old(self).gitv().notes,
                            "adr-index"@,
                            rc,
                            encode_index(ix@),
                        ),
                        ..old(self).gitv()
                    })
                },
                Err(_) => *final(self) == *old(self),
            },
            crate::notes::entries_wf(notes.gitv()) && resolve_rev(
                old(self).gitv(),
                anchor_commit(old(self).gitv()),
            ) is Some ==> r is Ok,
    {
        let adrs = match notes.list() {
            Ok(a) => a,
            Err(e) => {
                return Err(e);
            },
        };
        let mut index = SearchIndex::new();
        let mut i: usize = 0;
        proof {
            assert(index@.entries =~~= index_entries_of(
                crate::notes::adrs_view(adrs@).take(0),
            ));
        }
        while i < adrs.len()
            invariant
                i <= adrs@.len(),
                index@.version == 1,
                index@.entries == index_entries_of(crate::notes::adrs_view(adrs@).take(i as int)),
            decreases adrs@.len() - i,
        {
            let entry = IndexEntry::from_adr(&adrs[i]);
            proof {
                assert(entry@ =~~= entry_of(crate::notes::adrs_view(adrs@)[i as int]));
            }
            index.upsert(entry);
            i = i + 1;
            proof {
                assert(crate::notes::adrs_view(adrs@).take(i as int)
                    =~~= crate::notes::adrs_view(adrs@).take(i - 1).push(
                    crate::notes::adrs_view(adrs@)[i - 1],
                ));
                lemma_index_entries_snoc(
                    crate::notes::adrs_view(adrs@).take(i - 1),
                    crate::notes::adrs_view(adrs@)[i - 1],
                );
            }
        }
        proof {
            assert(crate::notes::adrs_view(adrs@).take(adrs@.len() as int) =~~= crate::notes::adrs_view(
                adrs@,
            ));
        }
        proof {
            lemma_index_entries_keyed(crate::notes::adrs_view(adrs@).take(adrs@.len() as int));
        }
        match self.save(&index) {
            Ok(()) => {
                proof {
                    let l = crate::notes::adrs_view(adrs@);
                    assert(crate::notes::sorted_by_id(l) && (crate::notes::entries_wf(notes.gitv())
                        ==> l.to_multiset() == notes.records().to_multiset()) && index@.entries
                        == index_entries_of(l));
                    assert(exists|l: Seq<crate::adr::AdrView>|
                        crate::notes::sorted_by_id(l) && (crate::notes::entries_wf(notes.gitv())
                            ==> l.to_multiset() == notes.records().to_multiset()) && index@.entries
                            == #[trigger] index_entries_of(l));
                }
                Ok(index)
            },
            Err(e) => Err(e),
        }
    }

    /// Search the persisted index: load it and read out the matching
    /// entries.
    pub fn search(&self, query: &str) -> (r: Result<Vec<IndexEntry>, Error>)
        ensures
            match r {
                Ok(l) => exists|ixv: IndexView|
                    index_keyed(ixv) && (match stored_index_blob(self.gitv()) {
                        Some(c) => encode_index(ixv) == c,
                        None => ixv.entries.len() == 0,
                    }) && l@.map_values(|e: IndexEntry| e@) == search_spec(
                        #[trigger] ixv.entries,
                        query@,
                    ),
                Err(e) => e is ParseError && (stored_index_blob(self.gitv()) matches Some(c)
                    && (forall|ixv: IndexView| !matches_blob(ixv, c))),
            },
    {
        let ix = match self.load() {
            Ok(ix) => ix,
            Err(e) => {
                return Err(e);
            },
        };
        let r = self.run_query(&ix, query);
        proof {
            let ixv = ix@;
            assert(index_keyed(ixv) && (match stored_index_blob(self.gitv()) {
                Some(c) => encode_index(ixv) == c,
                None => ixv.entries.len() == 0,
            }) && r@.map_values(|e: IndexEntry| e@) == search_spec(ixv.entries, query@));
        }
        Ok(r)
    }

    /// Read the matching entries out of a loaded index.
    fn run_query(&self, ix: &SearchIndex, query: &str) -> (r: Vec<IndexEntry>)
        ensures
            r@.map_values(|e: IndexEntry| e@) == search_spec(ix@.entries, query@),
    {
        ix.search(query)
    }
}

/// The projection of a record into its index entry.
pub open spec fn entry_of(a: crate::adr::AdrView) -> EntryView {
    EntryView {
        id: a.id,
        commit: a.commit,
        title: a.frontmatter.title,
        status: crate::adr::status_text(a.frontmatter.status),
        tags: a.frontmatter.tags,
        text: aggregate_text(a.frontmatter.title, a.frontmatter.tags, a.body),
    }
}

/// The index entries a record listing builds, in order, each upserted
/// under its record's id.
pub open spec fn index_entries_of(adrs: Seq<crate::adr::AdrView>) -> Seq<(Seq<char>, EntryView)>
    decreases adrs.len(),
{
    if adrs.len() == 0 {
        Seq::empty()
    } else {
        entry_set(
            index_entries_of(adrs.drop_last()),
            adrs.last().id,
            entry_of(adrs.last()),
        )
    }
}

/// Rebinding a key to an entry carrying it keeps every key on its
/// entry's id.
proof fn lemma_entry_set_keyed(s: Seq<(Seq<char>, EntryView)>, k: Seq<char>, v: EntryView)
    requires
        forall|i: int| 0 <= i < s.len() ==> (#[trigger] s[i]).0 == s[i].1.id,
        k == v.id,
    ensures
        forall|i: int|
            0 <= i < entry_set(s, k, v).len() ==> (#[trigger] entry_set(s, k, v)[i]).0 == entry_set(
                s,
                k,
                v,
            )[i].1.id,
    decreases s.len(),
{
    if s.len() == 0 {
    } else if s[0].0 == k {
        assert forall|i: int|
            0 <= i < entry_set(s, k, v).len() implies (#[trigger] entry_set(s, k, v)[i]).0
            == entry_set(s, k, v)[i].1.id by {
            if i > 0 {
                assert(entry_set(s, k, v)[i] == s.skip(1)[i - 1]);
                assert(s.skip(1)[i - 1] == s[i]);
            }
        }
    } else {
        assert(forall|i: int| 0 <= i < s.skip(1).len() ==> (#[trigger] s.skip(1)[i]) == s[i + 1]);
        lemma_entry_set_keyed(s.skip(1), k, v);
        assert forall|i: int|
            0 <= i < entry_set(s, k, v).len() implies (#[trigger] entry_set(s, k, v)[i]).0
            == entry_set(s, k, v)[i].1.id by {
            if i > 0 {
                assert(entry_set(s, k, v)[i] == entry_set(s.skip(1), k, v)[i - 1]);
            }
        }
    }
}

/// The built index keys every entry by its record's id.
proof fn lemma_index_entries_keyed(adrs: Seq<crate::adr::AdrView>)
    ensures
        forall|i: int|
            0 <= i < index_entries_of(adrs).len() ==> (#[trigger] index_entries_of(adrs)[i]).0
                == index_entries_of(adrs)[i].1.id,
    decreases adrs.len(),
{
    if adrs.len() > 0 {
        lemma_index_entries_keyed(adrs.drop_last());
        lemma_entry_set_keyed(
            index_entries_of(adrs.drop_last()),
            adrs.last().id,
            entry_of(adrs.last()),
        );
    }
}

/// Building over one more record is one more upsert.
proof fn lemma_index_entries_snoc(adrs: Seq<crate::adr::AdrView>, a: crate::adr::AdrView)
    ensures
        index_entries_of(adrs.push(a)) == entry_set(index_entries_of(adrs), a.id, entry_of(a)),
{
    let p = adrs.push(a);
    assert(p.drop_last() =~= adrs);
    assert(p.last() == a);
}

} // verus!