//! The record store: CRUD over the notes of the records namespace,
//! id allocation, and synchronization with a remote.

use vstd::prelude::*;
use crate::Error;
use crate::adr::{Adr, AdrView, MdParse, parse_markdown_spec, adr_markdown};
use crate::config::AdrConfig;
use crate::git::{
    Git, GitView, notes_in, note_at, set_note, remove_note, kv_get, kv_remote, resolve_rev,
    short_of, lemma_set_note_in, lemma_kv_set_get,
};
use crate::text::{
    all_digits, chars_of, chars_le, contains_chars, contains_seq, dec_str, dec_val, extend_chars,
    is_prefix, lex_le, lemma_lex_total, lemma_lex_trans, lemma_dec_str_val, lemma_zero_pad,
    parse_u32_chars, slice_range, starts_with_chars, str_eq, string_of, zero_pad,
    lemma_dec_str_len, pow10,
};
use crate::date::format_padded;

verus! {

/// The notes namespace that holds the records.
pub fn adr_notes_ref() -> (r: &'static str)
    ensures
        r@ == "adr"@,
{
    "adr"
}

/// The notes namespace that holds attached artifacts.
pub fn artifacts_notes_ref() -> (r: &'static str)
    ensures
        r@ == "adr-artifacts"@,
{
    "adr-artifacts"
}

/// The record a store entry denotes: its parsed document, under the
/// id the document names, or the prefixed short commit id without one.
pub open spec fn entry_adr(e: (Seq<char>, Seq<char>), prefix: Seq<char>) -> Option<AdrView> {
    match parse_markdown_spec(e.1) {
        MdParse::Parsed(fm, body) => Some(
            AdrView {
                id: match fm.id {
                    Some(i) => i,
                    None => prefix + short_of(e.0),
                },
                commit: e.0,
                frontmatter: fm,
                body: body,
            },
        ),
        _ => None,
    }
}

/// The records a namespace's entries denote, in store order; entries
/// that do not parse are skipped.
pub open spec fn parsed_entries(entries: Seq<(Seq<char>, Seq<char>)>, prefix: Seq<char>) -> Seq<
    AdrView,
>
    decreases entries.len(),
{
    if entries.len() == 0 {
        Seq::empty()
    } else {
        let rest = parsed_entries(entries.skip(1), prefix);
        match entry_adr(entries[0], prefix) {
            Some(a) => seq![a] + rest,
            None => rest,
        }
    }
}

/// Records sorted by id, lexicographically by code point.
pub open spec fn sorted_by_id(s: Seq<AdrView>) -> bool {
    forall|i: int, j: int| 0 <= i < j < s.len() ==> lex_le(#[trigger] s[i].id, #[trigger] s[j].id)
}

/// A record inserted into an id-sorted sequence: before the first
/// record whose id is not below it.
pub open spec fn insert_by_id(s: Seq<AdrView>, a: AdrView) -> Seq<AdrView>
    decreases s.len(),
{
    if s.len() == 0 {
        seq![a]
    } else if lex_le(a.id, s[0].id) {
        seq![a] + s
    } else {
        seq![s[0]] + insert_by_id(s.skip(1), a)
    }
}

/// The listing order of a sequence of records: each inserted in turn.
pub open spec fn sort_records(s: Seq<AdrView>) -> Seq<AdrView>
    decreases s.len(),
{
    if s.len() == 0 {
        Seq::empty()
    } else {
        insert_by_id(sort_records(s.drop_last()), s.last())
    }
}

/// The first record whose id answers the query.
pub open spec fn first_match(s: Seq<AdrView>, q: Seq<char>) -> Option<AdrView>
    decreases s.len(),
{
    if s.len() == 0 {
        None
    } else if id_matches(s[0].id, q) {
        Some(s[0])
    } else {
        first_match(s.skip(1), q)
    }
}

/// Insertion adds exactly the inserted record to the multiset.
pub proof fn lemma_insert_by_id_multiset(s: Seq<AdrView>, a: AdrView)
    ensures
        insert_by_id(s, a).to_multiset() == s.to_multiset().insert(a),
    decreases s.len(),
{
    broadcast use vstd::seq_lib::group_to_multiset_ensures;

    if s.len() == 0 {
        assert(insert_by_id(s, a) =~= Seq::<AdrView>::empty().push(a));
        assert(insert_by_id(s, a).to_multiset() =~= s.to_multiset().insert(a));
    } else if lex_le(a.id, s[0].id) {
        lemma_cons_multiset(a, s);
    } else {
        lemma_insert_by_id_multiset(s.skip(1), a);
        lemma_cons_multiset(s[0], insert_by_id(s.skip(1), a));
        lemma_cons_multiset(s[0], s.skip(1));
        assert(seq![s[0]] + s.skip(1) =~= s);
        assert(insert_by_id(s, a).to_multiset() =~= s.to_multiset().insert(a));
    }
}

/// The listing order holds the same records as the input.
pub proof fn lemma_sort_records_multiset(s: Seq<AdrView>)
    ensures
        sort_records(s).to_multiset() == s.to_multiset(),
    decreases s.len(),
{
    broadcast use vstd::seq_lib::group_to_multiset_ensures;

    if s.len() > 0 {
        lemma_sort_records_multiset(s.drop_last());
        lemma_insert_by_id_multiset(sort_records(s.drop_last()), s.last());
        assert(s.drop_last().push(s.last()) =~= s);
        assert(s.drop_last().push(s.last()).to_multiset() =~= s.drop_last().to_multiset().insert(
            s.last(),
        ));
    }
}

/// The first match is one of the records.
pub proof fn lemma_first_match_contains(s: Seq<AdrView>, q: Seq<char>)
    ensures
        first_match(s, q) matches Some(a) ==> s.contains(a) && id_matches(a.id, q),
    decreases s.len(),
{
    if s.len() > 0 && !id_matches(s[0].id, q) {
        lemma_first_match_contains(s.skip(1), q);
        if first_match(s.skip(1), q) is Some {
            let a = first_match(s.skip(1), q)->0;
            let j = choose|j: int| 0 <= j < s.skip(1).len() && s.skip(1)[j] == a;
            assert(s[j + 1] == a);
        }
    }
}

/// A record among the parsed entries stems from some store entry.
pub proof fn lemma_record_entry(entries: Seq<(Seq<char>, Seq<char>)>, prefix: Seq<char>, a: AdrView)
    requires
        parsed_entries(entries, prefix).contains(a),
    ensures
        exists|j: int|
            0 <= j < entries.len() && entry_adr(#[trigger] entries[j], prefix) == Some(a),
    decreases entries.len(),
{
    if entries.len() > 0 {
        let rest = parsed_entries(entries.skip(1), prefix);
        match entry_adr(entries[0], prefix) {
            Some(b) => {
                if a == b {
                } else {
                    assert((seq![b] + rest).contains(a));
                    let k = choose|k: int| 0 <= k < (seq![b] + rest).len() && (seq![b] + rest)[k]
                        == a;
                    assert(rest[k - 1] == a);
                    assert(rest.contains(a));
                    lemma_record_entry(entries.skip(1), prefix, a);
                    let j = choose|j: int|
                        0 <= j < entries.skip(1).len() && entry_adr(
                            #[trigger] entries.skip(1)[j],
                            prefix,
                        ) == Some(a);
                    assert(entries[j + 1] == entries.skip(1)[j]);
                }
            },
            None => {
                lemma_record_entry(entries.skip(1), prefix, a);
                let j = choose|j: int|
                    0 <= j < entries.skip(1).len() && entry_adr(
                        #[trigger] entries.skip(1)[j],
                        prefix,
                    ) == Some(a);
                assert(entries[j + 1] == entries.skip(1)[j]);
            },
        }
    }
}

/// In a well-formed store, a record matched by id sits on a commit
/// that resolves to itself and still carries its note.
proof fn lemma_delete_target_facts(gv: GitView, prefix: Seq<char>, a: AdrView, q: Seq<char>)
    requires
        entries_wf(gv),
        first_match(sort_records(parsed_entries(notes_in(gv.notes, "adr"@), prefix)), q) == Some(a),
    ensures
        resolve_rev(gv, a.commit) == Some(a.commit),
        note_at(gv.notes, "adr"@, a.commit) is Some,
{
    broadcast use vstd::seq_lib::group_to_multiset_ensures;

    let entries = notes_in(gv.notes, "adr"@);
    let records = parsed_entries(entries, prefix);
    lemma_first_match_contains(sort_records(records), q);
    lemma_sort_records_multiset(records);
    assert(sort_records(records).to_multiset().count(a) > 0);
    assert(records.to_multiset().count(a) > 0);
    assert(records.contains(a));
    lemma_record_entry(entries, prefix, a);
    let j = choose|j: int|
        0 <= j < entries.len() && entry_adr(#[trigger] entries[j], prefix) == Some(a);
    assert(a.commit == entries[j].0);
    assert(gv.commits.contains(a.commit) && a.commit != "HEAD"@);
    lemma_kv_get_unique(entries, j);
}

/// A bound key's first binding stands somewhere in the list.
pub proof fn lemma_kv_get_exists(s: Seq<(Seq<char>, Seq<char>)>, k: Seq<char>)
    ensures
        kv_get(s, k) matches Some(v) ==> exists|j: int|
            0 <= j < s.len() && #[trigger] s[j] == (k, v),
    decreases s.len(),
{
    if s.len() > 0 {
        if s[0].0 == k {
            assert(s[0] == (k, s[0].1));
        } else {
            lemma_kv_get_exists(s.skip(1), k);
            if kv_get(s.skip(1), k) is Some {
                let v = kv_get(s.skip(1), k)->0;
                let j = choose|j: int| 0 <= j < s.skip(1).len() && #[trigger] s.skip(1)[j] == (
                    k,
                    v,
                );
                assert(s[j + 1] == (k, v));
            }
        }
    }
}

/// Parsing distributes over splitting the entries.
pub proof fn lemma_parsed_concat(
    a: Seq<(Seq<char>, Seq<char>)>,
    b: Seq<(Seq<char>, Seq<char>)>,
    prefix: Seq<char>,
)
    ensures
        parsed_entries(a + b, prefix) == parsed_entries(a, prefix) + parsed_entries(b, prefix),
    decreases a.len(),
{
    if a.len() == 0 {
        assert(a + b =~= b);
        assert(parsed_entries(a, prefix) + parsed_entries(b, prefix) =~= parsed_entries(b, prefix));
    } else {
        lemma_parsed_concat(a.skip(1), b, prefix);
        let t = a + b;
        assert(t[0] == a[0]);
        assert(t.skip(1) =~= a.skip(1) + b);
        match entry_adr(a[0], prefix) {
            Some(x) => {
                assert(parsed_entries(a, prefix) + parsed_entries(b, prefix) =~= seq![x] + (
                parsed_entries(a.skip(1), prefix) + parsed_entries(b, prefix)));
            },
            None => {},
        }
    }
}

/// The numeric suffix of an id under a prefix, when the whole remainder
/// is a number that fits.
pub open spec fn suffix_num(id: Seq<char>, prefix: Seq<char>) -> Option<int> {
    if is_prefix(prefix, id) && id.len() > prefix.len() && all_digits(
        id.skip(prefix.len() as int),
    ) && dec_val(id.skip(prefix.len() as int)) <= u32::MAX {
        Some(dec_val(id.skip(prefix.len() as int)))
    } else {
        None
    }
}

/// The greatest numeric suffix among the records, or zero.
pub open spec fn max_suffix(s: Seq<AdrView>, prefix: Seq<char>) -> int
    decreases s.len(),
{
    if s.len() == 0 {
        0
    } else {
        let rest = max_suffix(s.skip(1), prefix);
        match suffix_num(s[0].id, prefix) {
            Some(n) => if n > rest {
                n
            } else {
                rest
            },
            None => rest,
        }
    }
}

/// The record id of a number: the prefix, then the number left-padded
/// with zeros to the configured width.
pub open spec fn format_id_spec(prefix: Seq<char>, digits: int, n: int) -> Seq<char> {
    prefix + zero_pad(dec_str(n), digits)
}

/// The views of a record vector.
pub open spec fn adrs_view(s: Seq<Adr>) -> Seq<AdrView> {
    s.map_values(|a: Adr| a@)
}

/// Whether a record id answers a query: it equals or contains it.
pub open spec fn id_matches(id: Seq<char>, query: Seq<char>) -> bool {
    contains_seq(id, query)
}

/// A well-formed records namespace: every entry sits on a commit the
/// repository knows, under its own name, and no commit holds two
/// entries. Every state reached through this store's own operations is
/// of this shape.
pub open spec fn entries_wf(gv: GitView) -> bool {
    let es = notes_in(gv.notes, "adr"@);
    &&& gv.repo
    &&& forall|i: int|
        0 <= i < es.len() ==> gv.commits.contains((#[trigger] es[i]).0) && es[i].0 != "HEAD"@
    &&& forall|i: int, j: int| 0 <= i < j < es.len() ==> (#[trigger] es[i]).0 != (#[trigger] es[j]).0
}

/// Manager for record storage in the notes namespace.
#[derive(Debug)]
pub struct NotesManager {
    git: Git,
    config: AdrConfig,
}

impl NotesManager {
    /// The image of the repository state the manager is bound to.
    pub closed spec fn gitv(&self) -> GitView {
        self.git@
    }

    /// The image of the configuration the manager runs under.
    pub closed spec fn cfgv(&self) -> crate::config::ConfigView {
        self.config@
    }

    /// The records namespace of the manager's repository state.
    pub open spec fn entries(&self) -> Seq<(Seq<char>, Seq<char>)> {
        notes_in(self.gitv().notes, "adr"@)
    }

    /// The records the store holds, in store order.
    pub open spec fn records(&self) -> Seq<AdrView> {
        parsed_entries(self.entries(), self.cfgv().prefix)
    }

    /// Bind a manager to a repository state and a configuration.
    pub fn new(git: Git, config: AdrConfig) -> (r: NotesManager)
        ensures
            r.gitv() == git@,
            r.cfgv() == config@,
    {
        NotesManager { git, config }
    }

    /// The repository state.
    pub fn git(&self) -> (r: &Git)
        ensures
            r@ == self.gitv(),
    {
        &self.git
    }

    /// The configuration.
    pub fn config(&self) -> (r: &AdrConfig)
        ensures
            r@ == self.cfgv(),
    {
        &self.config
    }

    /// List every record of the store, sorted by id as plain text.
    /// Entries that fail to parse are skipped, never fatal; ids beyond
    /// the configured digit width sort textually, not numerically.
    pub fn list(&self) -> (r: Result<Vec<Adr>, Error>)
        ensures
            match r {
                Ok(l) => sorted_by_id(adrs_view(l@)) && (entries_wf(self.gitv()) ==> adrs_view(
                    l@,
                ).to_multiset() == self.records().to_multiset() && adrs_view(l@) == sort_records(
                    self.records(),
                )),
                Err(e) => e is Git,
            },
            entries_wf(self.gitv()) ==> r is Ok,
    {
        let raw = match self.git.notes_list("adr") {
            Ok(raw) => raw,
            Err(e) => {
                return Err(e);
            },
        };
        let mut out: Vec<Adr> = Vec::new();
        let mut i: usize = 0;
        proof {
            assert(self.entries().skip(0) =~= self.entries());
            assert(self.entries().take(0) =~= Seq::<(Seq<char>, Seq<char>)>::empty());
            assert(adrs_view(out@) =~~= Seq::<AdrView>::empty());
            broadcast use vstd::seq_lib::group_to_multiset_ensures;

        }
        while i < raw.len()
            invariant
                i <= raw@.len(),
                raw@.len() == self.entries().len(),
                forall|j: int| 0 <= j < raw@.len() ==> (#[trigger] raw@[j].1)@ == self.entries(
                )[j].0,
                sorted_by_id(adrs_view(out@)),
                entries_wf(self.gitv()) ==> adrs_view(out@).to_multiset().add(
                    parsed_entries(self.entries().skip(i as int), self.cfgv().prefix).to_multiset(),
                ) == self.records().to_multiset(),
                entries_wf(self.gitv()) ==> adrs_view(out@) == sort_records(
                    parsed_entries(self.entries().take(i as int), self.cfgv().prefix),
                ),
            decreases raw@.len() - i,
        {
            let commit = raw[i].1.clone();
            let ghost entry = self.entries()[i as int];
            proof {
                assert(self.entries().skip(i as int)[0] == entry);
                assert(self.entries().skip(i as int).skip(1) =~= self.entries().skip(i + 1));
                broadcast use vstd::seq_lib::group_to_multiset_ensures;

            }
            let content = match self.git.notes_show("adr", commit.as_str()) {
                Ok(Some(content)) => Some(content),
                Ok(None) => None,
                Err(e) => {
                    return Err(e);
                },
            };
            match content {
                Some(content) => {
                    proof {
                        if entries_wf(self.gitv()) {
                            lemma_entry_readback(self.gitv(), self.entries(), i as int);
                        }
                    }
                    match self.read_entry(commit, content.as_str()) {
                        Ok(Some(adr)) => {
                            proof {
                                if entries_wf(self.gitv()) {
                                    assert(content@ == entry.1);
                                    assert(entry_adr(entry, self.cfgv().prefix) == Some(adr@));
                                    assert(parsed_entries(
                                        self.entries().skip(i as int),
                                        self.cfgv().prefix,
                                    ) == seq![adr@] + parsed_entries(
                                        self.entries().skip(i + 1),
                                        self.cfgv().prefix,
                                    ));
                                }
                            }
                            let ghost pre_sorted = adrs_view(out@);
                            insert_sorted(&mut out, adr);
                            proof {
                                broadcast use vstd::seq_lib::group_to_multiset_ensures;

                                if entries_wf(self.gitv()) {
                                    let pfx = self.cfgv().prefix;
                                    let pi = parsed_entries(self.entries().take(i as int), pfx);
                                    lemma_parsed_concat(
                                        self.entries().take(i as int),
                                        seq![entry],
                                        pfx,
                                    );
                                    assert(self.entries().take(i + 1) =~= self.entries().take(
                                        i as int,
                                    ) + seq![entry]);
                                    assert(parsed_entries(seq![entry], pfx) =~= seq![adr@]) by {
                                        assert(seq![entry][0] == entry);
                                        assert(seq![entry].skip(1) =~= Seq::<
                                            (Seq<char>, Seq<char>),
                                        >::empty());
                                        assert(parsed_entries(seq![entry].skip(1), pfx) =~= Seq::<
                                            AdrView,
                                        >::empty());
                                    }
                                    let pi1 = parsed_entries(self.entries().take(i + 1), pfx);
                                    assert(pi1 =~= pi.push(adr@));
                                    assert(pi1.drop_last() =~= pi);
                                    assert(sort_records(pi1) == insert_by_id(
                                        sort_records(pi),
                                        adr@,
                                    ));
                                    assert(adrs_view(out@) =~~= sort_records(pi1));
                                    assert((seq![adr@] + parsed_entries(
                                        self.entries().skip(i + 1),
                                        self.cfgv().prefix,
                                    )).to_multiset() =~= parsed_entries(
                                        self.entries().skip(i + 1),
                                        self.cfgv().prefix,
                                    ).to_multiset().insert(adr@)) by {
                                        lemma_cons_multiset(
                                            adr@,
                                            parsed_entries(
                                                self.entries().skip(i + 1),
                                                self.cfgv().prefix,
                                            ),
                                        );
                                    }
                                    assert(adrs_view(out@).to_multiset().add(
                                        parsed_entries(
                                            self.entries().skip(i + 1),
                                            self.cfgv().prefix,
                                        ).to_multiset(),
                                    ) =~= self.records().to_multiset());
                                }
                            }
                        },
                        Ok(None) => {
                            proof {
                                if entries_wf(self.gitv()) {
                                    assert(content@ == entry.1);
                                    assert(entry_adr(entry, self.cfgv().prefix) is None);
                                    assert(parsed_entries(
                                        self.entries().skip(i as int),
                                        self.cfgv().prefix,
                                    ) == parsed_entries(
                                        self.entries().skip(i + 1),
                                        self.cfgv().prefix,
                                    ));
                                    let pfx = self.cfgv().prefix;
                                    lemma_parsed_concat(
                                        self.entries().take(i as int),
                                        seq![entry],
                                        pfx,
                                    );
                                    assert(self.entries().take(i + 1) =~= self.entries().take(
                                        i as int,
                                    ) + seq![entry]);
                                    assert(parsed_entries(seq![entry], pfx) =~= Seq::<
                                        AdrView,
                                    >::empty()) by {
                                        assert(seq![entry][0] == entry);
                                        assert(seq![entry].skip(1) =~= Seq::<
                                            (Seq<char>, Seq<char>),
                                        >::empty());
                                        assert(parsed_entries(seq![entry].skip(1), pfx) =~= Seq::<
                                            AdrView,
                                        >::empty());
                                    }
                                    assert(parsed_entries(self.entries().take(i + 1), pfx)
                                        =~= parsed_entries(self.entries().take(i as int), pfx));
                                }
                            }
                        },
                        Err(e) => {
                            proof {
                                if entries_wf(self.gitv()) {
                                    assert(self.gitv().commits.contains(entry.0));
                                    assert(resolve_rev(self.gitv(), commit@) == Some(commit@));
                                    assert(false);
                                }
                            }
                        },
                    }
                },
                None => {
                    proof {
                        if entries_wf(self.gitv()) {
                            lemma_entry_readback(self.gitv(), self.entries(), i as int);
                            assert(commit@ == entry.0);
                            assert(resolve_rev(self.gitv(), commit@) == Some(entry.0));
                            assert(note_at(self.gitv().notes, "adr"@, entry.0) is Some);
                            assert(false);
                        }
                    }
                },
            }
            i = i + 1;
        }
        proof {
            assert(self.entries().skip(raw@.len() as int) =~= Seq::<
                (Seq<char>, Seq<char>),
            >::empty());
            broadcast use vstd::seq_lib::group_to_multiset_ensures;

            assert(parsed_entries(self.entries().skip(raw@.len() as int), self.cfgv().prefix)
                =~= Seq::<AdrView>::empty());
            assert(self.entries().take(raw@.len() as int) =~= self.entries());
            if entries_wf(self.gitv()) {
                assert(adrs_view(out@).to_multiset() =~= self.records().to_multiset());
                assert(adrs_view(out@) == sort_records(self.records()));
            }
        }
        Ok(out)
    }

    /// Read one entry: resolve its id and parse it. `Ok(None)` is an
    /// entry that does not parse; a commit the repository does not know
    /// cannot be given a fallback id and is an error.
    fn read_entry(&self, commit: String, content: &str) -> (r: Result<Option<Adr>, Error>)
        ensures
            match r {
                Ok(Some(a)) => entry_adr((commit@, content@), self.cfgv().prefix) == Some(a@),
                Ok(None) => entry_adr((commit@, content@), self.cfgv().prefix) is None,
                Err(e) => e is Git && (parse_markdown_spec(content@) matches MdParse::Parsed(
                    fm,
                    _,
                ) && fm.id is None && (resolve_rev(self.gitv(), commit@) != Some(commit@)
                    || commit@ == "HEAD"@)),
            },
    {
        match Adr::from_markdown(String::new(), commit.clone(), content) {
            Ok(mut adr) => {
                match &adr.frontmatter.id {
                    Some(id) => {
                        let nid = id.clone();
                        adr.id = nid;
                        proof {
                            assert(adr@.frontmatter.id == Some(adr@.id));
                            assert(parse_markdown_spec(content@) == MdParse::Parsed(
                                adr@.frontmatter,
                                adr@.body,
                            ));
                            assert(entry_adr((commit@, content@), self.cfgv().prefix) == Some(
                                adr@,
                            ));
                        }
                        Ok(Some(adr))
                    },
                    None => {
                        // Fall back to the prefixed short commit id.
                        let short = match self.git.short_hash(commit.as_str()) {
                            Ok(s) => s,
                            Err(e) => {
                                return Err(e);
                            },
                        };
                        if !str_eq(commit.as_str(), "HEAD") {
                            let mut idv = chars_of(self.config.prefix.as_str());
                            let sv = chars_of(short.as_str());
                            extend_chars(&mut idv, &sv);
                            adr.id = string_of(&idv);
                            proof {
                                assert(commit@ != "HEAD"@);
                                assert(resolve_rev(self.gitv(), commit@) is Some);
                                assert(resolve_rev(self.gitv(), commit@) == Some(commit@));
                                assert(short@ == short_of(commit@));
                                assert(adr@.id =~= self.cfgv().prefix + short_of(commit@));
                                assert(parse_markdown_spec(content@) == MdParse::Parsed(
                                    adr@.frontmatter,
                                    adr@.body,
                                ));
                                assert(entry_adr((commit@, content@), self.cfgv().prefix) == Some(
                                    adr@,
                                ));
                            }
                            Ok(Some(adr))
                        } else {
                            Err(Self::odd_commit_name())
                        }
                    },
                }
            },
            Err(_) => {
                Ok(None)
            },
        }
    }

    /// The error for an entry recorded under an unusable revision name.
    fn odd_commit_name() -> (r: Error)
        ensures
            r is Git,
    {
        Error::Git {
            message: String::from_str("an entry's revision cannot be resolved"),
            command: vec![String::from_str("rev-parse")],
            exit_code: 1,
            stderr: String::new(),
        }
    }

    /// Fetch a record by id: the first record, in sorted order, whose
    /// id equals or contains the query. A fragment matching several
    /// records resolves deterministically to the first.
    pub fn get(&self, id: &str) -> (r: Result<Adr, Error>)
        ensures
            r matches Ok(a) ==> id_matches(a@.id, id@),
            entries_wf(self.gitv()) ==> match r {
                Ok(a) => first_match(sort_records(self.records()), id@) == Some(a@),
                Err(e) => e is AdrNotFound && first_match(sort_records(self.records()), id@)
                    is None,
            },
    {
        let adrs = match self.list() {
            Ok(adrs) => adrs,
            Err(e) => {
                proof {
                    assert(!entries_wf(self.gitv()));
                }
                return Err(e);
            },
        };
        let qv = chars_of(id);
        let mut i: usize = 0;
        proof {
            assert(adrs_view(adrs@).skip(0) =~= adrs_view(adrs@));
        }
        while i < adrs.len()
            invariant
                i <= adrs@.len(),
                qv@ == id@,
                entries_wf(self.gitv()) ==> adrs_view(adrs@) == sort_records(self.records()),
                first_match(adrs_view(adrs@), id@) == first_match(
                    adrs_view(adrs@).skip(i as int),
                    id@,
                ),
            decreases adrs@.len() - i,
        {
            proof {
                assert(adrs_view(adrs@).skip(i as int)[0] == adrs_view(adrs@)[i as int]);
                assert(adrs_view(adrs@).skip(i as int).skip(1) =~= adrs_view(adrs@).skip(i + 1));
            }
            let idv = chars_of(adrs[i].id.as_str());
            if contains_chars(&idv, &qv) {
                let a = clone_adr(&adrs[i]);
                proof {
                    assert(adrs_view(adrs@)[i as int] == a@);
                    assert(first_match(adrs_view(adrs@), id@) == Some(a@));
                }
                return Ok(a);
            }
            i = i + 1;
        }
        proof {
            assert(adrs_view(adrs@).skip(adrs@.len() as int) =~= Seq::<AdrView>::empty());
            assert(first_match(adrs_view(adrs@), id@) is None);
        }
        Err(Error::AdrNotFound { id: String::from_str(id) })
    }

    /// Fetch the record attached to a revision: a direct read, not a
    /// scan. On a well-formed store, a revision carrying a parsing note
    /// is found, a missing note is the not-found error, and a note that
    /// does not parse is the parse error.
    pub fn get_by_commit(&self, commit: &str) -> (r: Result<Adr, Error>)
        ensures
            r matches Ok(a) ==> resolve_rev(self.gitv(), commit@) matches Some(c) && note_at(
                self.gitv().notes,
                "adr"@,
                c,
            ) matches Some(content) && entry_adr((c, content), self.cfgv().prefix) == Some(a@),
            entries_wf(self.gitv()) ==> match r {
                Ok(_) => true,
                Err(e) => match resolve_rev(self.gitv(), commit@) {
                    Some(c) => match note_at(self.gitv().notes, "adr"@, c) {
                        Some(content) => e is ParseError && entry_adr(
                            (c, content),
                            self.cfgv().prefix,
                        ) is None,
                        None => e is AdrNotFound,
                    },
                    None => e is AdrNotFound,
                },
            },
    {
        let resolved = match self.git.notes_show("adr", commit) {
            Ok(Some(content)) => Some(content),
            Ok(None) => None,
            Err(_) => None,
        };
        match resolved {
            Some(content) => {
                let full = self.resolve_full(commit);
                match full {
                    Some(cid) => {
                        proof {
                            if entries_wf(self.gitv()) {
                                lemma_kv_get_exists(self.entries(), cid@);
                                let j = choose|j: int|
                                    0 <= j < self.entries().len() && #[trigger] self.entries()[j]
                                        == (cid@, content@);
                                assert(self.gitv().commits.contains(cid@) && cid@ != "HEAD"@);
                                assert(resolve_rev(self.gitv(), cid@) == Some(cid@));
                            }
                        }
                        match self.read_entry(cid, content.as_str()) {
                            Ok(Some(a)) => Ok(a),
                            Ok(None) => Err(
                                Error::ParseError {
                                    message: String::from_str(
                                        "the note at this revision does not parse as a record",
                                    ),
                                },
                            ),
                            Err(e) => {
                                proof {
                                    if entries_wf(self.gitv()) {
                                        assert(false);
                                    }
                                }
                                Err(e)
                            },
                        }
                    },
                    None => {
                        proof {
                            assert(false);
                        }
                        Err(Error::AdrNotFound { id: String::from_str(commit) })
                    },
                }
            },
            None => Err(Error::AdrNotFound { id: String::from_str(commit) }),
        }
    }

    /// Resolve a revision to its commit id.
    fn resolve_full(&self, rev: &str) -> (r: Option<String>)
        ensures
            match r {
                Some(c) => resolve_rev(self.gitv(), rev@) == Some(c@),
                None => resolve_rev(self.gitv(), rev@) is None,
            },
    {
        match self.git.short_hash(rev) {
            Ok(_) => {},
            Err(_) => {
                return None;
            },
        }
        if str_eq(rev, "HEAD") {
            match self.git.head() {
                Ok(h) => Some(h),
                Err(_) => None,
            }
        } else {
            Some(String::from_str(rev))
        }
    }

    /// Write a record: to its commit when it names one, else to the
    /// current head; any note already there is overwritten, not merged.
    /// Writing succeeds whenever the target revision resolves to
    /// itself.
    pub fn create(&mut self, adr: &Adr) -> (r: Result<(), Error>)
        ensures
            match r {
                Ok(()) => ({
                    let target = if adr@.commit.len() == 0 {
                        old(self).gitv().head_id.unwrap()
                    } else {
                        adr@.commit
                    };
                    &&& (adr@.commit.len() == 0 ==> old(self).gitv().head_id is Some)
                    &&& resolve_rev(old(self).gitv(), target) == Some(target)
                    &&& final(self).gitv() == (GitView {
                        notes: set_note(
                            old(self).gitv().notes,
                            "adr"@,
                            target,
                            adr_markdown(adr@.frontmatter, adr@.body),
                        ),
                        ..old(self).gitv()
                    })
                    &&& final(self).cfgv() == old(self).cfgv()
                }),
                Err(e) => *final(self) == *old(self) && e is Git,
            },
            (adr@.commit.len() == 0 && (old(self).gitv().head_id matches Some(h) && resolve_rev(
                old(self).gitv(),
                h,
            ) == Some(h))) ==> r is Ok,
            (adr@.commit.len() > 0 && resolve_rev(old(self).gitv(), adr@.commit) == Some(
                adr@.commit,
            )) ==> r is Ok,
    {
        let commit = if self.adr_commit_empty(adr) {
            match self.git.head() {
                Ok(h) => h,
                Err(e) => {
                    return Err(e);
                },
            }
        } else {
            adr.commit.clone()
        };
        let content = match adr.to_markdown() {
            Ok(c) => c,
            Err(e) => {
                return Err(Self::odd_commit_name());
            },
        };
        let full = match self.resolve_full(commit.as_str()) {
            Some(c) => c,
            None => {
                return Err(Self::odd_commit_name());
            },
        };
        if !str_eq(commit.as_str(), full.as_str()) {
            return Err(Self::odd_commit_name());
        }
        let r = self.git.notes_add("adr", commit.as_str(), content.as_str());
        match r {
            Ok(()) => Ok(()),
            Err(e) => Err(e),
        }
    }

    /// Whether a record names no commit.
    fn adr_commit_empty(&self, adr: &Adr) -> (r: bool)
        ensures
            r == (adr@.commit.len() == 0),
    {
        adr.commit.unicode_len() == 0
    }

    /// Rewrite an existing record in place. The record must still be
    /// found under its id; the note at its own commit is then replaced,
    /// so a record cannot be moved to another commit by updating it.
    pub fn update(&mut self, adr: &Adr) -> (r: Result<(), Error>)
        ensures
            match r {
                Ok(()) => resolve_rev(old(self).gitv(), adr@.commit) == Some(adr@.commit) && final(self).gitv() == (GitView {
                    notes: set_note(
                        old(self).gitv().notes,
                        "adr"@,
                        adr@.commit,
                        adr_markdown(adr@.frontmatter, adr@.body),
                    ),
                    ..old(self).gitv()
                }) && final(self).cfgv() == old(self).cfgv() && (entries_wf(old(self).gitv())
                    ==> first_match(sort_records(old(self).records()), adr@.id) is Some),
                Err(_) => *final(self) == *old(self),
            },
            entries_wf(old(self).gitv()) && first_match(sort_records(old(self).records()), adr@.id)
                is Some && resolve_rev(old(self).gitv(), adr@.commit) == Some(adr@.commit) ==> r
                is Ok,
            entries_wf(old(self).gitv()) && (r matches Err(e) && e is AdrNotFound) ==> first_match(
                sort_records(old(self).records()),
                adr@.id,
            ) is None,
            entries_wf(old(self).gitv()) && first_match(sort_records(old(self).records()), adr@.id)
                is None ==> (r matches Err(e) && e is AdrNotFound),
    {
        match self.get(adr.id.as_str()) {
            Ok(_) => {},
            Err(e) => {
                return Err(e);
            },
        }
        let content = match adr.to_markdown() {
            Ok(c) => c,
            Err(_) => {
                return Err(Self::odd_commit_name());
            },
        };
        let full = match self.resolve_full(adr.commit.as_str()) {
            Some(c) => c,
            None => {
                return Err(Self::odd_commit_name());
            },
        };
        if !str_eq(adr.commit.as_str(), full.as_str()) {
            return Err(Self::odd_commit_name());
        }
        self.git.notes_add("adr", adr.commit.as_str(), content.as_str())
    }

    /// Remove a record: resolve it by id, then remove the note at its
    /// commit. On a well-formed store a matching record is removed,
    /// and only a missing record is an error.
    pub fn delete(&mut self, id: &str) -> (r: Result<(), Error>)
        ensures
            match r {
                Ok(()) => exists|a: AdrView|
                    id_matches(#[trigger] a.id, id@) && resolve_rev(old(self).gitv(), a.commit)
                        is Some && (entries_wf(old(self).gitv()) ==> first_match(
                        sort_records(old(self).records()),
                        id@,
                    ) == Some(a)) && final(self).gitv() == (GitView {
                        notes: remove_note(
                            old(self).gitv().notes,
                            "adr"@,
                            resolve_rev(old(self).gitv(), a.commit)->0,
                        ),
                        ..old(self).gitv()
                    }) && final(self).cfgv() == old(self).cfgv(),
                Err(_) => *final(self) == *old(self),
            },
            entries_wf(old(self).gitv()) && first_match(sort_records(old(self).records()), id@)
                is Some ==> r is Ok,
            entries_wf(old(self).gitv()) && r is Err ==> (r matches Err(e) && e is AdrNotFound)
                && first_match(sort_records(old(self).records()), id@) is None,
    {
        let adr = match self.get(id) {
            Ok(a) => a,
            Err(e) => {
                return Err(e);
            },
        };
        proof {
            if entries_wf(self.gitv()) {
                lemma_delete_target_facts(self.gitv(), self.cfgv().prefix, adr@, id@);
            }
        }
        let r = self.git.notes_remove("adr", adr.commit.as_str());
        match r {
            Ok(()) => {
                proof {
                    let a = adr@;
                    assert(id_matches(a.id, id@) && resolve_rev(old(self).gitv(), a.commit)
                        is Some && (entries_wf(old(self).gitv()) ==> first_match(
                        sort_records(old(self).records()),
                        id@,
                    ) == Some(a)) && final(self).gitv() == (GitView {
                        notes: remove_note(
                            old(self).gitv().notes,
                            "adr"@,
                            resolve_rev(old(self).gitv(), a.commit)->0,
                        ),
                        ..old(self).gitv()
                    }) && final(self).cfgv() == old(self).cfgv());
                }
                Ok(())
            },
            Err(e) => {
                proof {
                    if entries_wf(self.gitv()) {
                        assert(false);
                    }
                }
                Err(e)
            },
        }
    }

    /// The next free record number: one more than the greatest numeric
    /// suffix among the stored records. Numbers of deleted records are
    /// reused when they were the greatest; the scan is not atomic, and
    /// two racing writers can be handed the same number.
    pub fn next_number(&self) -> (r: Result<u32, Error>)
        ensures
            match r {
                Ok(n) => entries_wf(self.gitv()) ==> n as int == max_suffix(
                    self.records(),
                    self.cfgv().prefix,
                ) + 1,
                Err(e) => e is Git,
            },
            entries_wf(self.gitv()) && max_suffix(self.records(), self.cfgv().prefix) < u32::MAX
                ==> r is Ok,
    {
        let raw = match self.git.notes_list("adr") {
            Ok(raw) => raw,
            Err(e) => {
                return Err(e);
            },
        };
        let prefix_chars = chars_of(self.config.prefix.as_str());
        let mut max_num: u32 = 0;
        let mut i: usize = 0;
        proof {
            assert(self.entries().skip(0) =~= self.entries());
            lemma_max_suffix_nonneg(self.records(), self.cfgv().prefix);
        }
        while i < raw.len()
            invariant
                i <= raw@.len(),
                raw@.len() == self.entries().len(),
                prefix_chars@ == self.cfgv().prefix,
                forall|j: int| 0 <= j < raw@.len() ==> (#[trigger] raw@[j].1)@ == self.entries(
                )[j].0,
                max_num <= u32::MAX - 1,
                entries_wf(self.gitv()) ==> max_suffix(self.records(), self.cfgv().prefix)
                    == if max_suffix(
                    parsed_entries(self.entries().skip(i as int), self.cfgv().prefix),
                    self.cfgv().prefix,
                ) > max_num as int {
                    max_suffix(
                        parsed_entries(self.entries().skip(i as int), self.cfgv().prefix),
                        self.cfgv().prefix,
                    )
                } else {
                    max_num as int
                },
            decreases raw@.len() - i,
        {
            let commit = raw[i].1.clone();
            let ghost entry = self.entries()[i as int];
            proof {
                assert(self.entries().skip(i as int)[0] == entry);
                assert(self.entries().skip(i as int).skip(1) =~= self.entries().skip(i + 1));
                lemma_note_at_is_entry(self.gitv().notes, "adr"@, self.entries(), i as int);
            }
            proof {
                if entries_wf(self.gitv()) {
                    lemma_entry_readback(self.gitv(), self.entries(), i as int);
                }
            }
            let content = match self.git.notes_show("adr", commit.as_str()) {
                Ok(Some(content)) => content,
                Ok(None) => {
                    proof {
                        if entries_wf(self.gitv()) {
                            assert(false);
                        }
                    }
                    return Err(Self::odd_commit_name());
                },
                Err(e) => {
                    return Err(e);
                },
            };
            match self.read_entry(commit, content.as_str()) {
                Ok(Some(adr)) => {
                    proof {
                        if entries_wf(self.gitv()) {
                            assert(content@ == entry.1);
                            assert(entry_adr(entry, self.cfgv().prefix) == Some(adr@));
                            assert(parsed_entries(self.entries().skip(i as int), self.cfgv().prefix)
                                == seq![adr@] + parsed_entries(
                                self.entries().skip(i + 1),
                                self.cfgv().prefix,
                            ));
                            let ps = seq![adr@] + parsed_entries(
                                self.entries().skip(i + 1),
                                self.cfgv().prefix,
                            );
                            assert(ps[0] == adr@);
                            assert(ps.skip(1) =~= parsed_entries(
                                self.entries().skip(i + 1),
                                self.cfgv().prefix,
                            ));
                        }
                    }
                    let idv = chars_of(adr.id.as_str());
                    if starts_with_chars(&idv, &prefix_chars) && idv.len() > prefix_chars.len() {
                        let restv = slice_range(&idv, prefix_chars.len(), idv.len());
                        proof {
                            assert(restv@ =~= adr@.id.skip(self.cfgv().prefix.len() as int));
                        }
                        match parse_u32_chars(&restv) {
                            Some(n) => {
                                proof {
                                    assert(suffix_num(adr@.id, self.cfgv().prefix) == Some(
                                        n as int,
                                    ));
                                }
                                if n > max_num {
                                    if n == u32::MAX {
                                        proof {
                                            if entries_wf(self.gitv()) {
                                                lemma_max_suffix_head_bound(
                                                    parsed_entries(
                                                        self.entries().skip(i as int),
                                                        self.cfgv().prefix,
                                                    ),
                                                    self.cfgv().prefix,
                                                );
                                            }
                                        }
                                        return Err(Self::odd_commit_name());
                                    }
                                    max_num = n;
                                }
                            },
                            None => {
                                proof {
                                    assert(suffix_num(adr@.id, self.cfgv().prefix) is None);
                                }
                            },
                        }
                    } else {
                        proof {
                            assert(suffix_num(adr@.id, self.cfgv().prefix) is None);
                        }
                    }
                },
                Ok(None) => {
                    proof {
                        if entries_wf(self.gitv()) {
                            assert(content@ == entry.1);
                            assert(entry_adr(entry, self.cfgv().prefix) is None);
                            assert(parsed_entries(self.entries().skip(i as int), self.cfgv().prefix)
                                == parsed_entries(self.entries().skip(i + 1), self.cfgv().prefix));
                        }
                    }
                },
                Err(e) => {
                    proof {
                        if entries_wf(self.gitv()) {
                            assert(commit@ == entry.0);
                            assert(resolve_rev(self.gitv(), commit@) == Some(commit@));
                            assert(commit@ != "HEAD"@);
                            assert(false);
                        }
                    }
                    return Err(e);
                },
            }
            i = i + 1;
        }
        proof {
            assert(self.entries().skip(raw@.len() as int) =~= Seq::<
                (Seq<char>, Seq<char>),
            >::empty());
            assert(parsed_entries(self.entries().skip(raw@.len() as int), self.cfgv().prefix)
                =~= Seq::<AdrView>::empty());
        }
        Ok(max_num + 1)
    }

    /// The record id of a number: prefix plus zero-padded digits.
    pub fn format_id(&self, number: u32) -> (r: String)
        ensures
            r@ == format_id_spec(self.cfgv().prefix, self.cfgv().digits as int, number as int),
    {
        let mut v = chars_of(self.config.prefix.as_str());
        let padded = format_padded(number, self.config.digits as usize);
        extend_chars(&mut v, &padded);
        string_of(&v)
    }

    /// Synchronize the records and artifacts namespaces with a remote.
    /// Fetch failures are tolerated — the remote may not have the
    /// namespaces yet; each fetched namespace is either untouched or
    /// replaced by the remote's copy. A failure pushing the records
    /// namespace is fatal; one pushing the artifacts namespace is not.
    /// After a successful push the remote's copies of both namespaces
    /// equal the local ones.
    pub fn sync(&mut self, remote: &str, push: bool, fetch: bool) -> (r: Result<(), Error>)
        ensures
            r matches Err(e) ==> push && e is Git && kv_remote(
                old(self).gitv().remotes,
                remote@,
            ) is None,
            push && kv_remote(old(self).gitv().remotes, remote@) is Some ==> r is Ok,
            !push ==> r is Ok,
            final(self).gitv().config == old(self).gitv().config,
            final(self).gitv().commits == old(self).gitv().commits,
            final(self).gitv().head_id == old(self).gitv().head_id,
            final(self).gitv().work_dir == old(self).gitv().work_dir,
            final(self).gitv().repo == old(self).gitv().repo,
            final(self).cfgv() == old(self).cfgv(),
            !fetch ==> final(self).gitv().notes == old(self).gitv().notes,
            !push || r is Err ==> final(self).gitv().remotes == old(self).gitv().remotes,
            forall|q: Seq<char>|
                q != "adr"@ && q != "adr-artifacts"@ ==> notes_in(
                    #[trigger] final(self).gitv().notes,
                    q,
                ) == notes_in(old(self).gitv().notes, q),
            fetch ==> (notes_in(final(self).gitv().notes, "adr"@) == notes_in(
                old(self).gitv().notes,
                "adr"@,
            ) || (kv_remote(old(self).gitv().remotes, remote@) matches Some(store) && notes_in(
                final(self).gitv().notes,
                "adr"@,
            ) == notes_in(store, "adr"@))),
            fetch ==> (notes_in(final(self).gitv().notes, "adr-artifacts"@) == notes_in(
                old(self).gitv().notes,
                "adr-artifacts"@,
            ) || (kv_remote(old(self).gitv().remotes, remote@) matches Some(store) && notes_in(
                final(self).gitv().notes,
                "adr-artifacts"@,
            ) == notes_in(store, "adr-artifacts"@))),
            r is Ok && push ==> (kv_remote(final(self).gitv().remotes, remote@) matches Some(store)
                && notes_in(store, "adr"@) == notes_in(final(self).gitv().notes, "adr"@)
                && notes_in(store, "adr-artifacts"@) == notes_in(
                final(self).gitv().notes,
                "adr-artifacts"@,
            )),
    {
        proof {
            reveal_strlit("adr");
            reveal_strlit("adr-artifacts");
            assert("adr"@ != "adr-artifacts"@) by {
                assert("adr"@.len() != "adr-artifacts"@.len());
            }
        }
        let ghost s0 = self.gitv();
        if fetch {
            let r1 = self.git.notes_fetch(remote, "adr");
            let ghost s1 = self.gitv();
            proof {
                match r1 {
                    Ok(()) => {
                        let store = kv_remote(s0.remotes, remote@)->0;
                        crate::git::lemma_notes_in_concat(
                            crate::git::drop_ns(s0.notes, "adr"@),
                            crate::git::as_ns(notes_in(store, "adr"@), "adr"@),
                            "adr"@,
                        );
                        crate::git::lemma_drop_ns(s0.notes, "adr"@, "adr"@);
                        crate::git::lemma_as_ns(notes_in(store, "adr"@), "adr"@, "adr"@);
                        assert(notes_in(s1.notes, "adr"@) =~= notes_in(store, "adr"@));
                        assert(forall|q: Seq<char>| q != "adr"@ ==> notes_in(
                            #[trigger] s1.notes,
                            q,
                        ) == notes_in(s0.notes, q)) by {
                            assert forall|q: Seq<char>| q != "adr"@ implies notes_in(
                                #[trigger] s1.notes,
                                q,
                            ) == notes_in(s0.notes, q) by {
                                crate::git::lemma_notes_in_concat(
                                    crate::git::drop_ns(s0.notes, "adr"@),
                                    crate::git::as_ns(notes_in(store, "adr"@), "adr"@),
                                    q,
                                );
                                crate::git::lemma_drop_ns(s0.notes, "adr"@, q);
                                crate::git::lemma_as_ns(notes_in(store, "adr"@), "adr"@, q);
                                assert(notes_in(s1.notes, q) =~= notes_in(s0.notes, q));
                            }
                        }
                    },
                    Err(_) => {},
                }
            }
            let r2 = self.git.notes_fetch(remote, "adr-artifacts");
            proof {
                let s2 = self.gitv();
                match r2 {
                    Ok(()) => {
                        let store = kv_remote(s1.remotes, remote@)->0;
                        assert(s1.remotes == s0.remotes);
                        assert forall|q: Seq<char>| q != "adr-artifacts"@ implies notes_in(
                            #[trigger] s2.notes,
                            q,
                        ) == notes_in(s1.notes, q) by {
                            crate::git::lemma_notes_in_concat(
                                crate::git::drop_ns(s1.notes, "adr-artifacts"@),
                                crate::git::as_ns(
                                    notes_in(store, "adr-artifacts"@),
                                    "adr-artifacts"@,
                                ),
                                q,
                            );
                            crate::git::lemma_drop_ns(s1.notes, "adr-artifacts"@, q);
                            crate::git::lemma_as_ns(
                                notes_in(store, "adr-artifacts"@),
                                "adr-artifacts"@,
                                q,
                            );
                            assert(notes_in(s2.notes, q) =~= notes_in(s1.notes, q));
                        }
                        crate::git::lemma_notes_in_concat(
                            crate::git::drop_ns(s1.notes, "adr-artifacts"@),
                            crate::git::as_ns(notes_in(store, "adr-artifacts"@), "adr-artifacts"@),
                            "adr-artifacts"@,
                        );
                        crate::git::lemma_drop_ns(s1.notes, "adr-artifacts"@, "adr-artifacts"@);
                        crate::git::lemma_as_ns(
                            notes_in(store, "adr-artifacts"@),
                            "adr-artifacts"@,
                            "adr-artifacts"@,
                        );
                        assert(notes_in(s2.notes, "adr-artifacts"@) =~= notes_in(
                            store,
                            "adr-artifacts"@,
                        ));
                    },
                    Err(_) => {},
                }
            }
        }
        let ghost sf = self.gitv();
        if push {
            let rp = self.git.notes_push(remote, "adr");
            match rp {
                Ok(()) => {},
                Err(e) => {
                    return Err(e);
                },
            }
            let ghost sp1 = self.gitv();
            proof {
                let store1 = kv_remote(sp1.remotes, remote@)->0;
                crate::git::lemma_notes_in_concat(
                    crate::git::drop_ns(kv_remote(sf.remotes, remote@)->0, "adr"@),
                    crate::git::as_ns(notes_in(sf.notes, "adr"@), "adr"@),
                    "adr"@,
                );
                crate::git::lemma_drop_ns(kv_remote(sf.remotes, remote@)->0, "adr"@, "adr"@);
                crate::git::lemma_as_ns(notes_in(sf.notes, "adr"@), "adr"@, "adr"@);
                assert(notes_in(store1, "adr"@) =~= notes_in(sf.notes, "adr"@));
            }
            let rp2 = self.git.notes_push(remote, "adr-artifacts");
            proof {
                let sp2 = self.gitv();
                let store1 = kv_remote(sp1.remotes, remote@)->0;
                match rp2 {
                    Ok(()) => {
                        let store2 = kv_remote(sp2.remotes, remote@)->0;
                        crate::git::lemma_notes_in_concat(
                            crate::git::drop_ns(store1, "adr-artifacts"@),
                            crate::git::as_ns(
                                notes_in(sp1.notes, "adr-artifacts"@),
                                "adr-artifacts"@,
                            ),
                            "adr"@,
                        );
                        crate::git::lemma_drop_ns(store1, "adr-artifacts"@, "adr"@);
                        crate::git::lemma_as_ns(
                            notes_in(sp1.notes, "adr-artifacts"@),
                            "adr-artifacts"@,
                            "adr"@,
                        );
                        assert(notes_in(store2, "adr"@) =~= notes_in(store1, "adr"@));
                        crate::git::lemma_notes_in_concat(
                            crate::git::drop_ns(store1, "adr-artifacts"@),
                            crate::git::as_ns(
                                notes_in(sp1.notes, "adr-artifacts"@),
                                "adr-artifacts"@,
                            ),
                            "adr-artifacts"@,
                        );
                        crate::git::lemma_drop_ns(store1, "adr-artifacts"@, "adr-artifacts"@);
                        crate::git::lemma_as_ns(
                            notes_in(sp1.notes, "adr-artifacts"@),
                            "adr-artifacts"@,
                            "adr-artifacts"@,
                        );
                        assert(notes_in(store2, "adr-artifacts"@) =~= notes_in(
                            sp1.notes,
                            "adr-artifacts"@,
                        ));
                    },
                    Err(_) => {
                        // The remote was just pushed to, so it is known.
                        assert(false);
                    },
                }
            }
        }
        Ok(())
    }
}

/// Clone a record.
pub fn clone_adr(a: &Adr) -> (r: Adr)
    ensures
        r@ == a@,
{
    let mut tags: Vec<String> = Vec::new();
    let mut authors: Vec<String> = Vec::new();
    let mut deciders: Vec<String> = Vec::new();
    let mut links: Vec<crate::adr::AdrLink> = Vec::new();
    let mut custom: Vec<(String, String)> = Vec::new();
    let mut i: usize = 0;
    while i < a.frontmatter.tags.len()
        invariant
            i <= a.frontmatter.tags@.len(),
            tags.deep_view() == a.frontmatter.tags.deep_view().take(i as int),
        decreases a.frontmatter.tags@.len() - i,
    {
        let ghost pre = tags.deep_view();
        tags.push(a.frontmatter.tags[i].clone());
        i = i + 1;
        proof {
            assert(tags.deep_view() =~~= pre.push(a.frontmatter.tags@[i - 1]@));
            assert(a.frontmatter.tags.deep_view().take(i as int) =~~= a.frontmatter.tags.deep_view(
            ).take(i - 1).push(a.frontmatter.tags@[i - 1]@));
        }
    }
    let mut i2: usize = 0;
    while i2 < a.frontmatter.authors.len()
        invariant
            i2 <= a.frontmatter.authors@.len(),
            authors.deep_view() == a.frontmatter.authors.deep_view().take(i2 as int),
        decreases a.frontmatter.authors@.len() - i2,
    {
        let ghost pre = authors.deep_view();
        authors.push(a.frontmatter.authors[i2].clone());
        i2 = i2 + 1;
        proof {
            assert(authors.deep_view() =~~= pre.push(a.frontmatter.authors@[i2 - 1]@));
            assert(a.frontmatter.authors.deep_view().take(i2 as int)
                =~~= a.frontmatter.authors.deep_view().take(i2 - 1).push(
                a.frontmatter.authors@[i2 - 1]@,
            ));
        }
    }
    let mut i3: usize = 0;
    while i3 < a.frontmatter.deciders.len()
        invariant
            i3 <= a.frontmatter.deciders@.len(),
            deciders.deep_view() == a.frontmatter.deciders.deep_view().take(i3 as int),
        decreases a.frontmatter.deciders@.len() - i3,
    {
        let ghost pre = deciders.deep_view();
        deciders.push(a.frontmatter.deciders[i3].clone());
        i3 = i3 + 1;
        proof {
            assert(deciders.deep_view() =~~= pre.push(a.frontmatter.deciders@[i3 - 1]@));
            assert(a.frontmatter.deciders.deep_view().take(i3 as int)
                =~~= a.frontmatter.deciders.deep_view().take(i3 - 1).push(
                a.frontmatter.deciders@[i3 - 1]@,
            ));
        }
    }
    let ghost lview = a.frontmatter.links@.map_values(|l: crate::adr::AdrLink| l@);
    let mut i4: usize = 0;
    while i4 < a.frontmatter.links.len()
        invariant
            i4 <= a.frontmatter.links@.len(),
            lview == a.frontmatter.links@.map_values(|l: crate::adr::AdrLink| l@),
            links@.map_values(|l: crate::adr::AdrLink| l@) == lview.take(i4 as int),
        decreases a.frontmatter.links@.len() - i4,
    {
        let l = crate::adr::AdrLink {
            rel: a.frontmatter.links[i4].rel.clone(),
            target: a.frontmatter.links[i4].target.clone(),
        };
        let ghost pre = links@.map_values(|l: crate::adr::AdrLink| l@);
        links.push(l);
        i4 = i4 + 1;
        proof {
            assert(links@.map_values(|l: crate::adr::AdrLink| l@) =~~= pre.push(lview[i4 - 1]));
            assert(lview.take(i4 as int) =~~= lview.take(i4 - 1).push(lview[i4 - 1]));
        }
    }
    let ghost cview = a.frontmatter.custom@.map_values(|p: (String, String)| (p.0@, p.1@));
    let mut i5: usize = 0;
    while i5 < a.frontmatter.custom.len()
        invariant
            i5 <= a.frontmatter.custom@.len(),
            cview == a.frontmatter.custom@.map_values(|p: (String, String)| (p.0@, p.1@)),
            custom@.map_values(|p: (String, String)| (p.0@, p.1@)) == cview.take(i5 as int),
        decreases a.frontmatter.custom@.len() - i5,
    {
        let p = (a.frontmatter.custom[i5].0.clone(), a.frontmatter.custom[i5].1.clone());
        let ghost pre = custom@.map_values(|p: (String, String)| (p.0@, p.1@));
        custom.push(p);
        i5 = i5 + 1;
        proof {
            assert(custom@.map_values(|p: (String, String)| (p.0@, p.1@)) =~~= pre.push(
                cview[i5 - 1],
            ));
            assert(cview.take(i5 as int) =~~= cview.take(i5 - 1).push(cview[i5 - 1]));
        }
    }
    let fm = crate::adr::AdrFrontmatter {
        id: match &a.frontmatter.id {
            Some(s) => Some(s.clone()),
            None => None,
        },
        title: a.frontmatter.title.clone(),
        status: a.frontmatter.status,
        date: a.frontmatter.date,
        tags,
        authors,
        deciders,
        links,
        format: match &a.frontmatter.format {
            Some(s) => Some(s.clone()),
            None => None,
        },
        supersedes: match &a.frontmatter.supersedes {
            Some(s) => Some(s.clone()),
            None => None,
        },
        superseded_by: match &a.frontmatter.superseded_by {
            Some(s) => Some(s.clone()),
            None => None,
        },
        custom,
    };
    let r = Adr {
        id: a.id.clone(),
        commit: a.commit.clone(),
        frontmatter: fm,
        body: a.body.clone(),
    };
    proof {
        assert(fm@.tags =~~= a.frontmatter@.tags);
        assert(fm@.authors =~~= a.frontmatter@.authors);
        assert(fm@.deciders =~~= a.frontmatter@.deciders);
        assert(fm@.links =~~= a.frontmatter@.links);
        assert(fm@.custom =~~= a.frontmatter@.custom);
        assert(r@ =~~= a@);
    }
    r
}

/// Inserting at the first not-below position is [`insert_by_id`].
proof fn lemma_insert_by_id_at(s: Seq<AdrView>, a: AdrView, k: int)
    requires
        0 <= k <= s.len(),
        forall|j: int| 0 <= j < k ==> !lex_le(a.id, (#[trigger] s[j]).id),
        k < s.len() ==> lex_le(a.id, s[k].id),
    ensures
        insert_by_id(s, a) == s.take(k) + seq![a] + s.skip(k),
    decreases k,
{
    if k == 0 {
        if s.len() == 0 {
            assert(insert_by_id(s, a) =~= s.take(0) + seq![a] + s.skip(0));
        } else {
            assert(s.take(0) + seq![a] + s.skip(0) =~= seq![a] + s);
        }
    } else {
        assert(!lex_le(a.id, s[0].id));
        assert(forall|j: int| 0 <= j < k - 1 ==> !lex_le(a.id, (#[trigger] s.skip(1)[j]).id)) by {
            assert(forall|j: int| 0 <= j < s.skip(1).len() ==> s.skip(1)[j] == s[j + 1]);
        }
        assert(k - 1 < s.skip(1).len() ==> lex_le(a.id, s.skip(1)[k - 1].id)) by {
            if k - 1 < s.skip(1).len() {
                assert(s.skip(1)[k - 1] == s[k]);
            }
        }
        lemma_insert_by_id_at(s.skip(1), a, k - 1);
        assert(insert_by_id(s, a) == seq![s[0]] + insert_by_id(s.skip(1), a));
        assert(seq![s[0]] + (s.skip(1).take(k - 1) + seq![a] + s.skip(1).skip(k - 1)) =~= s.take(
            k,
        ) + seq![a] + s.skip(k));
    }
}

/// Insert a record into a sorted vector, keeping it sorted.
fn insert_sorted(out: &mut Vec<Adr>, a: Adr)
    requires
        sorted_by_id(adrs_view(old(out)@)),
    ensures
        sorted_by_id(adrs_view(final(out)@)),
        adrs_view(final(out)@).to_multiset() == adrs_view(old(out)@).to_multiset().insert(a@),
        adrs_view(final(out)@) == insert_by_id(adrs_view(old(out)@), a@),
{
    let av = chars_of(a.id.as_str());
    let mut k: usize = 0;
    loop
        invariant_except_break
            k <= out@.len(),
            av@ == a@.id,
            out@ == old(out)@,
            forall|j: int| 0 <= j < k ==> !lex_le(a@.id, (#[trigger] adrs_view(out@)[j]).id),
        ensures
            k <= out@.len(),
            out@ == old(out)@,
            forall|j: int| 0 <= j < k ==> !lex_le(a@.id, (#[trigger] adrs_view(out@)[j]).id),
            k < out@.len() ==> lex_le(a@.id, adrs_view(out@)[k as int].id),
        decreases out@.len() - k,
    {
        if k == out.len() {
            break ;
        }
        let bv = chars_of(out[k].id.as_str());
        if chars_le(&av, &bv) {
            break ;
        }
        k = k + 1;
    }
    proof {
        assert(forall|j: int| 0 <= j < k ==> lex_le(
            (#[trigger] adrs_view(out@)[j]).id,
            a@.id,
        )) by {
            assert forall|j: int| 0 <= j < k implies lex_le(
                (#[trigger] adrs_view(out@)[j]).id,
                a@.id,
            ) by {
                lemma_lex_total(a@.id, adrs_view(out@)[j].id);
            }
        }
    }
    let ghost pre = out@;
    let ghost kk = k as int;
    out.insert(k, a);
    proof {
        broadcast use vstd::seq_lib::group_to_multiset_ensures;

        assert(adrs_view(out@) =~~= adrs_view(pre).insert(kk, a@));
        lemma_insert_by_id_at(adrs_view(pre), a@, kk);
        assert(adrs_view(pre).insert(kk, a@) =~~= adrs_view(pre).take(kk) + seq![a@] + adrs_view(
            pre,
        ).skip(kk));
        assert(adrs_view(out@) =~~= insert_by_id(adrs_view(pre), a@));
        let newv = adrs_view(out@);
        let prev = adrs_view(pre);
        // Sortedness of the spliced sequence.
        assert forall|i: int, j: int| 0 <= i < j < newv.len() implies lex_le(
            (#[trigger] newv[i]).id,
            (#[trigger] newv[j]).id,
        ) by {
            let oi = if i < kk {
                i
            } else {
                i - 1
            };
            let oj = if j < kk {
                j
            } else {
                j - 1
            };
            if i == kk {
                // a versus a later element.
                assert(newv[j] == prev[oj]);
                if oj >= kk {
                    assert(!lex_le(a@.id, prev[oj].id) ==> false) by {
                        if kk < prev.len() {
                            if oj == kk {
                                assert(lex_le(a@.id, prev[kk].id));
                            } else {
                                assert(lex_le(a@.id, prev[kk].id));
                                assert(lex_le(prev[kk].id, prev[oj].id));
                                lemma_lex_trans(a@.id, prev[kk].id, prev[oj].id);
                            }
                        }
                    }
                }
            } else if j == kk {
                assert(newv[i] == prev[oi]);
                assert(oi < kk);
                assert(lex_le(prev[oi].id, a@.id));
            } else {
                assert(newv[i] == prev[oi]);
                assert(newv[j] == prev[oj]);
                if oi == oj {
                    assert(lex_le(prev[oi].id, prev[oi].id)) by {
                        lemma_lex_total(prev[oi].id, prev[oi].id);
                    }
                } else {
                    assert(oi < oj);
                }
            }
        }
        // The multiset gains exactly the inserted record.
        let t = out@;
        assert(t.remove(kk) =~= pre);
        assert(t[kk] == a);
        assert(adrs_view(t).remove(kk) =~~= adrs_view(pre));
        assert(adrs_view(t)[kk] == a@);
        assert(adrs_view(t).remove(kk).to_multiset() =~= adrs_view(t).to_multiset().remove(
            adrs_view(t)[kk],
        ));
        assert(adrs_view(t).to_multiset().count(a@) > 0) by {
            assert(adrs_view(t).contains(a@));
        }
        assert(adrs_view(t).to_multiset() =~= adrs_view(pre).to_multiset().insert(a@));
    }
}

/// One parsed entry at the head contributes one record to the multiset.
proof fn lemma_cons_multiset(a: AdrView, rest: Seq<AdrView>)
    ensures
        (seq![a] + rest).to_multiset() == rest.to_multiset().insert(a),
{
    broadcast use vstd::seq_lib::group_to_multiset_ensures;

    let t = seq![a] + rest;
    assert(t.remove(0) =~= rest);
    assert(t[0] == a);
    assert(t.remove(0).to_multiset() =~= t.to_multiset().remove(a));
    assert(t.to_multiset().count(a) > 0) by {
        assert(t.contains(a));
    }
    assert(t.to_multiset() =~= rest.to_multiset().insert(a));
}

/// The greatest suffix is never negative.
proof fn lemma_max_suffix_nonneg(s: Seq<AdrView>, prefix: Seq<char>)
    ensures
        max_suffix(s, prefix) >= 0,
    decreases s.len(),
{
    if s.len() > 0 {
        lemma_max_suffix_nonneg(s.skip(1), prefix);
        match suffix_num(s[0].id, prefix) {
            Some(n) => {
                assert(n >= 0) by {
                    crate::text::lemma_dec_val_acc_mono(
                        s[0].id.skip(prefix.len() as int),
                        0,
                    );
                }
            },
            None => {},
        }
    }
}

/// The head of the remaining parsed records bounds the maximum.
proof fn lemma_max_suffix_head_bound(s: Seq<AdrView>, prefix: Seq<char>)
    requires
        s.len() > 0,
    ensures
        match suffix_num(s[0].id, prefix) {
            Some(n) => max_suffix(s, prefix) >= n,
            None => true,
        },
{
}

/// In a well-formed store, each listed entry reads back by its commit.
proof fn lemma_entry_readback(gv: GitView, entries: Seq<(Seq<char>, Seq<char>)>, i: int)
    requires
        entries == notes_in(gv.notes, "adr"@),
        entries_wf(gv),
        0 <= i < entries.len(),
    ensures
        resolve_rev(gv, entries[i].0) == Some(entries[i].0),
        note_at(gv.notes, "adr"@, entries[i].0) == Some(entries[i].1),
{
    assert(gv.commits.contains(entries[i].0) && entries[i].0 != "HEAD"@);
    lemma_kv_get_unique(entries, i);
}

/// With pairwise distinct keys, lookup of an entry's key finds it.
proof fn lemma_kv_get_unique(entries: Seq<(Seq<char>, Seq<char>)>, i: int)
    requires
        0 <= i < entries.len(),
        forall|a: int, b: int|
            0 <= a < b < entries.len() ==> (#[trigger] entries[a]).0 != (#[trigger] entries[b]).0,
    ensures
        kv_get(entries, entries[i].0) == Some(entries[i].1),
    decreases i,
{
    if i == 0 {
    } else {
        assert(entries[0].0 != entries[i].0);
        assert(entries.skip(1)[i - 1] == entries[i]);
        assert(forall|a: int, b: int|
            0 <= a < b < entries.skip(1).len() ==> (#[trigger] entries.skip(1)[a]).0 != (
            #[trigger] entries.skip(1)[b]).0) by {
            assert(forall|a: int|
                0 <= a < entries.skip(1).len() ==> entries.skip(1)[a] == entries[a + 1]);
        }
        lemma_kv_get_unique(entries.skip(1), i - 1);
    }
}

/// Entries listed from the store read back by commit.
proof fn lemma_note_at_is_entry(
    ts: Seq<(Seq<char>, Seq<char>, Seq<char>)>,
    ns: Seq<char>,
    entries: Seq<(Seq<char>, Seq<char>)>,
    i: int,
)
    requires
        entries == notes_in(ts, ns),
        0 <= i < entries.len(),
    ensures
        kv_get(entries, entries[i].0) is Some,
        kv_get(entries, entries[i].0) == note_at(ts, ns, entries[i].0),
{
    lemma_kv_get_present(entries, i);
}

/// A key present in the list is found by lookup.
proof fn lemma_kv_get_present(entries: Seq<(Seq<char>, Seq<char>)>, i: int)
    requires
        0 <= i < entries.len(),
    ensures
        kv_get(entries, entries[i].0) is Some,
    decreases i,
{
    if i > 0 {
        if entries[0].0 == entries[i].0 {
        } else {
            assert(entries.skip(1)[i - 1] == entries[i]);
            lemma_kv_get_present(entries.skip(1), i - 1);
        }
    }
}

} // verus!