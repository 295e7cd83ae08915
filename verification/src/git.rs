//! An explicit model of the version-control state the store runs over.
//!
//! [`Git`] holds what the rest of the crate reads and writes: whether
//! the working directory is a repository, the commit history and head,
//! the key/value configuration, the notes namespaces, and the known
//! remotes with their own copies of the namespaces. Every operation is
//! specified against the [`GitView`] image of that state.
//!
//! A real working copy is driven by an unverified front end that loads
//! this state, runs the verified operations, and writes the outcome
//! back through its own adapter.

use vstd::prelude::*;
use crate::Error;
use crate::text::{
    chars_of, is_space, leading_spaces, lemma_leading_spaces_bound, slice_range, split_lines,
    split_lines_exec, str_eq, string_of,
};

verus! {

/// The version-control state.
#[derive(Debug, Clone)]
pub struct Git {
    /// The working directory path.
    work_dir: String,
    /// Whether the directory is inside a repository.
    repo: bool,
    /// Every commit id, in creation order; the first is the root.
    commits: Vec<String>,
    /// The current head commit id, when there is one.
    head_id: Option<String>,
    /// The key/value configuration, keys unique.
    config: Vec<(String, String)>,
    /// The notes: one content per (namespace, commit), pairs unique.
    notes: Vec<(String, String, String)>,
    /// The known remotes and their copies of the notes.
    remotes: Vec<(String, Vec<(String, String, String)>)>,
}

/// The mathematical image of the state.
#[verifier::ext_equal]
pub struct GitView {
    pub work_dir: Seq<char>,
    pub repo: bool,
    pub commits: Seq<Seq<char>>,
    pub head_id: Option<Seq<char>>,
    pub config: Seq<(Seq<char>, Seq<char>)>,
    pub notes: Seq<(Seq<char>, Seq<char>, Seq<char>)>,
    pub remotes: Seq<(Seq<char>, Seq<(Seq<char>, Seq<char>, Seq<char>)>)>,
}

/// The views of a pair vector.
pub open spec fn pairs_view(s: Seq<(String, String)>) -> Seq<(Seq<char>, Seq<char>)> {
    s.map_values(|p: (String, String)| (p.0@, p.1@))
}

/// The views of a triple vector.
pub open spec fn triples_view(s: Seq<(String, String, String)>) -> Seq<
    (Seq<char>, Seq<char>, Seq<char>),
> {
    s.map_values(|p: (String, String, String)| (p.0@, p.1@, p.2@))
}

impl View for Git {
    type V = GitView;

    closed spec fn view(&self) -> GitView {
        GitView {
            work_dir: self.work_dir@,
            repo: self.repo,
            commits: self.commits.deep_view(),
            head_id: match self.head_id {
                Some(h) => Some(h@),
                None => None,
            },
            config: pairs_view(self.config@),
            notes: triples_view(self.notes@),
            remotes: self.remotes@.map_values(
                |r: (String, Vec<(String, String, String)>)| (r.0@, triples_view(r.1@)),
            ),
        }
    }
}

/// The first value bound to a key in an association list.
pub open spec fn kv_get(s: Seq<(Seq<char>, Seq<char>)>, k: Seq<char>) -> Option<Seq<char>>
    decreases s.len(),
{
    if s.len() == 0 {
        None
    } else if s[0].0 == k {
        Some(s[0].1)
    } else {
        kv_get(s.skip(1), k)
    }
}

/// The list with `k` bound to `v`: the first binding replaced, or a
/// new one appended.
pub open spec fn kv_set(s: Seq<(Seq<char>, Seq<char>)>, k: Seq<char>, v: Seq<char>) -> Seq<
    (Seq<char>, Seq<char>),
>
    decreases s.len(),
{
    if s.len() == 0 {
        seq![(k, v)]
    } else if s[0].0 == k {
        seq![(k, v)] + s.skip(1)
    } else {
        seq![s[0]] + kv_set(s.skip(1), k, v)
    }
}

/// The list with every binding of `k` removed.
pub open spec fn kv_unset(s: Seq<(Seq<char>, Seq<char>)>, k: Seq<char>) -> Seq<
    (Seq<char>, Seq<char>),
>
    decreases s.len(),
{
    if s.len() == 0 {
        s
    } else if s[0].0 == k {
        kv_unset(s.skip(1), k)
    } else {
        seq![s[0]] + kv_unset(s.skip(1), k)
    }
}

/// Reading a key after writing it gives the written value.
pub proof fn lemma_kv_set_get(s: Seq<(Seq<char>, Seq<char>)>, k: Seq<char>, v: Seq<char>)
    ensures
        kv_get(kv_set(s, k, v), k) == Some(v),
    decreases s.len(),
{
    if s.len() == 0 {
        let t = kv_set(s, k, v);
        assert(t[0] == (k, v));
        assert(t[0].0 == k);
    } else if s[0].0 == k {
        let t = kv_set(s, k, v);
        assert(t[0] == (k, v));
    } else {
        lemma_kv_set_get(s.skip(1), k, v);
        let t = kv_set(s, k, v);
        assert(t[0] == s[0]);
        assert(t.skip(1) =~= kv_set(s.skip(1), k, v));
    }
}

/// Reading another key after a write is unchanged.
pub proof fn lemma_kv_set_other(
    s: Seq<(Seq<char>, Seq<char>)>,
    k: Seq<char>,
    v: Seq<char>,
    k2: Seq<char>,
)
    requires
        k2 != k,
    ensures
        kv_get(kv_set(s, k, v), k2) == kv_get(s, k2),
    decreases s.len(),
{
    if s.len() == 0 {
        let t = kv_set(s, k, v);
        assert(t[0] == (k, v));
        assert(t[0].0 == k);
        assert(t.skip(1) =~= Seq::<(Seq<char>, Seq<char>)>::empty());
        assert(kv_get(t, k2) == kv_get(t.skip(1), k2));
        assert(kv_get(t.skip(1), k2) is None);
    } else if s[0].0 == k {
        let t = kv_set(s, k, v);
        assert(t[0] == (k, v));
        assert(t[0].0 == k);
        assert(t.skip(1) =~= s.skip(1));
        assert(kv_get(t, k2) == kv_get(s.skip(1), k2));
        assert(kv_get(s, k2) == kv_get(s.skip(1), k2));
    } else {
        lemma_kv_set_other(s.skip(1), k, v, k2);
        let t = kv_set(s, k, v);
        assert(t[0] == s[0]);
        assert(t.skip(1) =~= kv_set(s.skip(1), k, v));
        if s[0].0 == k2 {
            assert(kv_get(t, k2) == Some(t[0].1));
            assert(kv_get(s, k2) == Some(s[0].1));
        } else {
            assert(kv_get(t, k2) == kv_get(t.skip(1), k2));
            assert(kv_get(s, k2) == kv_get(s.skip(1), k2));
        }
    }
}

/// Reading a key after removing it finds nothing.
pub proof fn lemma_kv_unset_get(s: Seq<(Seq<char>, Seq<char>)>, k: Seq<char>)
    ensures
        kv_get(kv_unset(s, k), k) is None,
    decreases s.len(),
{
    if s.len() > 0 {
        lemma_kv_unset_get(s.skip(1), k);
        if s[0].0 != k {
            let t = kv_unset(s, k);
            assert(t[0] == s[0]);
            assert(t.skip(1) =~= kv_unset(s.skip(1), k));
        }
    }
}

/// Look a key up in a pair vector.
fn kv_get_exec(s: &Vec<(String, String)>, k: &str) -> (r: Option<String>)
    ensures
        match r {
            Some(v) => kv_get(pairs_view(s@), k@) == Some(v@),
            None => kv_get(pairs_view(s@), k@) is None,
        },
{
    let mut i: usize = 0;
    proof {
        assert(pairs_view(s@).skip(0) =~= pairs_view(s@));
    }
    while i < s.len()
        invariant
            i <= s@.len(),
            kv_get(pairs_view(s@), k@) == kv_get(pairs_view(s@).skip(i as int), k@),
        decreases s@.len() - i,
    {
        proof {
            assert(pairs_view(s@).skip(i as int)[0] == (s@[i as int].0@, s@[i as int].1@));
            assert(pairs_view(s@).skip(i as int).skip(1) =~= pairs_view(s@).skip(i + 1));
        }
        if str_eq(s[i].0.as_str(), k) {
            let v = s[i].1.clone();
            return Some(v);
        }
        i = i + 1;
    }
    proof {
        assert(pairs_view(s@).skip(s@.len() as int) =~= Seq::<(Seq<char>, Seq<char>)>::empty());
    }
    None
}

/// Bind a key in a pair vector, replacing the first binding.
fn kv_set_exec(s: &mut Vec<(String, String)>, k: &str, v: &str)
    ensures
        pairs_view(final(s)@) == kv_set(pairs_view(old(s)@), k@, v@),
{
    let mut i: usize = 0;
    proof {
        assert(pairs_view(s@).skip(0) =~= pairs_view(s@));
        assert(pairs_view(s@).take(0) + kv_set(pairs_view(s@).skip(0), k@, v@) =~= kv_set(
            pairs_view(s@),
            k@,
            v@,
        ));
    }
    while i < s.len()
        invariant
            i <= s@.len(),
            s@ == old(s)@,
            forall|j: int| 0 <= j < i ==> pairs_view(s@)[j].0 != k@,
            kv_set(pairs_view(s@), k@, v@) == pairs_view(s@).take(i as int) + kv_set(
                pairs_view(s@).skip(i as int),
                k@,
                v@,
            ),
        decreases s@.len() - i,
    {
        proof {
            assert(pairs_view(s@).skip(i as int)[0] == (s@[i as int].0@, s@[i as int].1@));
            assert(pairs_view(s@).skip(i as int).skip(1) =~= pairs_view(s@).skip(i + 1));
        }
        if str_eq(s[i].0.as_str(), k) {
            let kv = (String::from_str(k), String::from_str(v));
            let ghost pre = s@;
            s.set(i, kv);
            proof {
                let pv = pairs_view(pre);
                assert(kv_set(pv.skip(i as int), k@, v@) =~= seq![(k@, v@)] + pv.skip(i + 1));
                assert(pairs_view(s@) =~= pv.take(i as int) + (seq![(k@, v@)] + pv.skip(i + 1)));
                assert(pairs_view(s@) =~= kv_set(pv, k@, v@));
            }
            return ;
        }
        i = i + 1;
        proof {
            assert(pairs_view(s@).take(i as int) =~= pairs_view(s@).take(i - 1) + seq![
                pairs_view(s@)[i - 1],
            ]);
            assert(kv_set(pairs_view(s@), k@, v@) =~= pairs_view(s@).take(i as int) + kv_set(
                pairs_view(s@).skip(i as int),
                k@,
                v@,
            ));
        }
    }
    let kv = (String::from_str(k), String::from_str(v));
    let ghost pre = s@;
    s.push(kv);
    proof {
        let pv = pairs_view(pre);
        assert(pv.skip(pv.len() as int) =~= Seq::<(Seq<char>, Seq<char>)>::empty());
        assert(kv_set(pv.skip(pv.len() as int), k@, v@) =~= seq![(k@, v@)]);
        assert(pv.take(pv.len() as int) =~= pv);
        assert(pairs_view(s@) =~= pv + seq![(k@, v@)]);
        assert(pairs_view(s@) =~= kv_set(pv, k@, v@));
    }
}

/// Remove every binding of a key from a pair vector.
fn kv_unset_exec(s: &mut Vec<(String, String)>, k: &str)
    ensures
        pairs_view(final(s)@) == kv_unset(pairs_view(old(s)@), k@),
{
    let mut out: Vec<(String, String)> = Vec::new();
    let mut i: usize = 0;
    proof {
        assert(pairs_view(s@).skip(0) =~= pairs_view(s@));
        assert(pairs_view(out@) =~= Seq::<(Seq<char>, Seq<char>)>::empty());
        assert(pairs_view(out@) + kv_unset(pairs_view(s@).skip(0), k@) =~= kv_unset(
            pairs_view(s@),
            k@,
        ));
    }
    while i < s.len()
        invariant
            i <= s@.len(),
            s@ == old(s)@,
            kv_unset(pairs_view(s@), k@) == pairs_view(out@) + kv_unset(
                pairs_view(s@).skip(i as int),
                k@,
            ),
        decreases s@.len() - i,
    {
        proof {
            assert(pairs_view(s@).skip(i as int)[0] == (s@[i as int].0@, s@[i as int].1@));
            assert(pairs_view(s@).skip(i as int).skip(1) =~= pairs_view(s@).skip(i + 1));
        }
        if !str_eq(s[i].0.as_str(), k) {
            let ghost preo = out@;
            let pair = (s[i].0.clone(), s[i].1.clone());
            out.push(pair);
            proof {
                assert(pairs_view(out@) =~= pairs_view(preo) + seq![pairs_view(s@)[i as int]]);
                assert(kv_unset(pairs_view(s@).skip(i as int), k@) == seq![pairs_view(s@)[i as int]]
                    + kv_unset(pairs_view(s@).skip(i + 1), k@));
                assert(kv_unset(pairs_view(s@), k@) =~= pairs_view(out@) + kv_unset(
                    pairs_view(s@).skip(i + 1),
                    k@,
                ));
            }
        }
        i = i + 1;
    }
    proof {
        assert(pairs_view(s@).skip(s@.len() as int) =~= Seq::<(Seq<char>, Seq<char>)>::empty());
        assert(kv_unset(pairs_view(s@), k@) =~= pairs_view(out@));
    }
    *s = out;
}

// ---------------------------------------------------------------------
// The note store: one content per (namespace, commit).
// ---------------------------------------------------------------------
/// The notes of one namespace, as (commit, content) pairs in order.
pub open spec fn notes_in(
    ts: Seq<(Seq<char>, Seq<char>, Seq<char>)>,
    ns: Seq<char>,
) -> Seq<(Seq<char>, Seq<char>)>
    decreases ts.len(),
{
    if ts.len() == 0 {
        Seq::empty()
    } else if ts[0].0 == ns {
        seq![(ts[0].1, ts[0].2)] + notes_in(ts.skip(1), ns)
    } else {
        notes_in(ts.skip(1), ns)
    }
}

/// The content of the note at a commit of a namespace.
pub open spec fn note_at(
    ts: Seq<(Seq<char>, Seq<char>, Seq<char>)>,
    ns: Seq<char>,
    c: Seq<char>,
) -> Option<Seq<char>> {
    kv_get(notes_in(ts, ns), c)
}

/// The store without one namespace.
pub open spec fn drop_ns(ts: Seq<(Seq<char>, Seq<char>, Seq<char>)>, ns: Seq<char>) -> Seq<
    (Seq<char>, Seq<char>, Seq<char>),
>
    decreases ts.len(),
{
    if ts.len() == 0 {
        ts
    } else if ts[0].0 == ns {
        drop_ns(ts.skip(1), ns)
    } else {
        seq![ts[0]] + drop_ns(ts.skip(1), ns)
    }
}

/// A namespace's pairs as triples of that namespace.
pub open spec fn as_ns(entries: Seq<(Seq<char>, Seq<char>)>, ns: Seq<char>) -> Seq<
    (Seq<char>, Seq<char>, Seq<char>),
> {
    entries.map_values(|e: (Seq<char>, Seq<char>)| (ns, e.0, e.1))
}

/// The store with a note written: the first note of that namespace
/// and commit replaced, or a new triple appended.
pub open spec fn set_note(
    ts: Seq<(Seq<char>, Seq<char>, Seq<char>)>,
    ns: Seq<char>,
    c: Seq<char>,
    v: Seq<char>,
) -> Seq<(Seq<char>, Seq<char>, Seq<char>)>
    decreases ts.len(),
{
    if ts.len() == 0 {
        seq![(ns, c, v)]
    } else if ts[0].0 == ns && ts[0].1 == c {
        seq![(ns, c, v)] + ts.skip(1)
    } else {
        seq![ts[0]] + set_note(ts.skip(1), ns, c, v)
    }
}

/// The store with every note of a namespace and commit removed.
pub open spec fn remove_note(
    ts: Seq<(Seq<char>, Seq<char>, Seq<char>)>,
    ns: Seq<char>,
    c: Seq<char>,
) -> Seq<(Seq<char>, Seq<char>, Seq<char>)>
    decreases ts.len(),
{
    if ts.len() == 0 {
        ts
    } else if ts[0].0 == ns && ts[0].1 == c {
        remove_note(ts.skip(1), ns, c)
    } else {
        seq![ts[0]] + remove_note(ts.skip(1), ns, c)
    }
}

/// Writing a note rewrites its namespace's pairs as a key/value write.
pub proof fn lemma_set_note_in(
    ts: Seq<(Seq<char>, Seq<char>, Seq<char>)>,
    ns: Seq<char>,
    c: Seq<char>,
    v: Seq<char>,
)
    ensures
        notes_in(set_note(ts, ns, c, v), ns) == kv_set(notes_in(ts, ns), c, v),
    decreases ts.len(),
{
    if ts.len() == 0 {
        let t = set_note(ts, ns, c, v);
        assert(t[0] == (ns, c, v));
        assert(t.skip(1) =~= Seq::<(Seq<char>, Seq<char>, Seq<char>)>::empty());
        assert(notes_in(t.skip(1), ns) =~= Seq::<(Seq<char>, Seq<char>)>::empty());
        assert(notes_in(t, ns) == seq![(t[0].1, t[0].2)] + notes_in(t.skip(1), ns));
        assert(notes_in(t, ns) =~= seq![(c, v)]);
        assert(kv_set(notes_in(ts, ns), c, v) =~= seq![(c, v)]);
    } else if ts[0].0 == ns && ts[0].1 == c {
        let t = set_note(ts, ns, c, v);
        assert(t[0] == (ns, c, v));
        assert(t.skip(1) =~= ts.skip(1));
        assert(notes_in(t, ns) == seq![(c, v)] + notes_in(ts.skip(1), ns));
        assert(notes_in(ts, ns) == seq![(ts[0].1, ts[0].2)] + notes_in(ts.skip(1), ns));
        assert(notes_in(ts, ns)[0].0 == c);
        assert(kv_set(notes_in(ts, ns), c, v) =~= seq![(c, v)] + notes_in(ts, ns).skip(1));
        assert(notes_in(ts, ns).skip(1) =~= notes_in(ts.skip(1), ns));
    } else {
        lemma_set_note_in(ts.skip(1), ns, c, v);
        let t = set_note(ts, ns, c, v);
        assert(t[0] == ts[0]);
        assert(t.skip(1) =~= set_note(ts.skip(1), ns, c, v));
        if ts[0].0 == ns {
            assert(notes_in(t, ns) == seq![(ts[0].1, ts[0].2)] + notes_in(t.skip(1), ns));
            assert(notes_in(ts, ns) == seq![(ts[0].1, ts[0].2)] + notes_in(ts.skip(1), ns));
            assert(notes_in(ts, ns)[0].0 == ts[0].1);
            assert(notes_in(ts, ns).skip(1) =~= notes_in(ts.skip(1), ns));
            assert(kv_set(notes_in(ts, ns), c, v) =~= seq![(ts[0].1, ts[0].2)] + kv_set(
                notes_in(ts.skip(1), ns),
                c,
                v,
            ));
        } else {
            assert(notes_in(t, ns) == notes_in(t.skip(1), ns));
            assert(notes_in(ts, ns) == notes_in(ts.skip(1), ns));
        }
    }
}

/// Writing a note leaves every other namespace alone.
pub proof fn lemma_set_note_other(
    ts: Seq<(Seq<char>, Seq<char>, Seq<char>)>,
    ns: Seq<char>,
    c: Seq<char>,
    v: Seq<char>,
    ns2: Seq<char>,
)
    requires
        ns2 != ns,
    ensures
        notes_in(set_note(ts, ns, c, v), ns2) == notes_in(ts, ns2),
    decreases ts.len(),
{
    if ts.len() == 0 {
        let t = set_note(ts, ns, c, v);
        assert(t[0] == (ns, c, v));
        assert(t.skip(1) =~= Seq::<(Seq<char>, Seq<char>, Seq<char>)>::empty());
        assert(t[0].0 == ns);
        assert(notes_in(t, ns2) == notes_in(t.skip(1), ns2));
        assert(notes_in(t.skip(1), ns2) =~= Seq::<(Seq<char>, Seq<char>)>::empty());
        assert(notes_in(t, ns2) =~= notes_in(ts, ns2));
    } else if ts[0].0 == ns && ts[0].1 == c {
        let t = set_note(ts, ns, c, v);
        assert(t[0] == (ns, c, v));
        assert(t.skip(1) =~= ts.skip(1));
    } else {
        lemma_set_note_other(ts.skip(1), ns, c, v, ns2);
        let t = set_note(ts, ns, c, v);
        assert(t[0] == ts[0]);
        assert(t.skip(1) =~= set_note(ts.skip(1), ns, c, v));
    }
}

/// Removing a note rewrites its namespace's pairs as a key removal.
pub proof fn lemma_remove_note_in(
    ts: Seq<(Seq<char>, Seq<char>, Seq<char>)>,
    ns: Seq<char>,
    c: Seq<char>,
)
    ensures
        notes_in(remove_note(ts, ns, c), ns) == kv_unset(notes_in(ts, ns), c),
    decreases ts.len(),
{
    if ts.len() > 0 {
        lemma_remove_note_in(ts.skip(1), ns, c);
        if ts[0].0 == ns && ts[0].1 == c {
            assert(notes_in(ts, ns) == seq![(ts[0].1, ts[0].2)] + notes_in(ts.skip(1), ns));
            assert(notes_in(ts, ns)[0].0 == c);
            assert(notes_in(ts, ns).skip(1) =~= notes_in(ts.skip(1), ns));
        } else {
            let t = remove_note(ts, ns, c);
            assert(t[0] == ts[0]);
            assert(t.skip(1) =~= remove_note(ts.skip(1), ns, c));
            if ts[0].0 == ns {
                assert(notes_in(t, ns) == seq![(ts[0].1, ts[0].2)] + notes_in(t.skip(1), ns));
                assert(notes_in(ts, ns) == seq![(ts[0].1, ts[0].2)] + notes_in(ts.skip(1), ns));
                assert(notes_in(ts, ns)[0].0 == ts[0].1);
                assert(notes_in(ts, ns).skip(1) =~= notes_in(ts.skip(1), ns));
                assert(kv_unset(notes_in(ts, ns), c) =~= seq![(ts[0].1, ts[0].2)] + kv_unset(
                    notes_in(ts.skip(1), ns),
                    c,
                ));
            }
        }
    }
}

/// Removing a note leaves every other namespace alone.
pub proof fn lemma_remove_note_other(
    ts: Seq<(Seq<char>, Seq<char>, Seq<char>)>,
    ns: Seq<char>,
    c: Seq<char>,
    ns2: Seq<char>,
)
    requires
        ns2 != ns,
    ensures
        notes_in(remove_note(ts, ns, c), ns2) == notes_in(ts, ns2),
    decreases ts.len(),
{
    if ts.len() > 0 {
        lemma_remove_note_other(ts.skip(1), ns, c, ns2);
        if ts[0].0 == ns && ts[0].1 == c {
        } else {
            let t = remove_note(ts, ns, c);
            assert(t[0] == ts[0]);
            assert(t.skip(1) =~= remove_note(ts.skip(1), ns, c));
        }
    }
}

/// A dropped namespace reads as empty; others are untouched.
pub proof fn lemma_drop_ns(ts: Seq<(Seq<char>, Seq<char>, Seq<char>)>, ns: Seq<char>, q: Seq<char>)
    ensures
        notes_in(drop_ns(ts, ns), ns) == Seq::<(Seq<char>, Seq<char>)>::empty(),
        q != ns ==> notes_in(drop_ns(ts, ns), q) == notes_in(ts, q),
    decreases ts.len(),
{
    if ts.len() > 0 {
        lemma_drop_ns(ts.skip(1), ns, q);
        if ts[0].0 != ns {
            let t = drop_ns(ts, ns);
            assert(t[0] == ts[0]);
            assert(t.skip(1) =~= drop_ns(ts.skip(1), ns));
        }
    }
}

/// Notes read from a namespace laid down by [`as_ns`] read back.
pub proof fn lemma_as_ns(entries: Seq<(Seq<char>, Seq<char>)>, ns: Seq<char>, q: Seq<char>)
    ensures
        notes_in(as_ns(entries, ns), ns) == entries,
        q != ns ==> notes_in(as_ns(entries, ns), q) == Seq::<(Seq<char>, Seq<char>)>::empty(),
    decreases entries.len(),
{
    let t = as_ns(entries, ns);
    if entries.len() > 0 {
        lemma_as_ns(entries.skip(1), ns, q);
        assert(t[0] == (ns, entries[0].0, entries[0].1));
        assert(t.skip(1) =~= as_ns(entries.skip(1), ns));
        assert(notes_in(t, ns) == seq![(entries[0].0, entries[0].1)] + notes_in(t.skip(1), ns));
        assert(notes_in(t, ns) =~= entries);
    } else {
        assert(t.len() == 0);
        assert(notes_in(t, ns) =~= Seq::<(Seq<char>, Seq<char>)>::empty());
    }
}

/// Reading a namespace after appending another's triples.
pub proof fn lemma_notes_in_concat(
    a: Seq<(Seq<char>, Seq<char>, Seq<char>)>,
    b: Seq<(Seq<char>, Seq<char>, Seq<char>)>,
    q: Seq<char>,
)
    ensures
        notes_in(a + b, q) == notes_in(a, q) + notes_in(b, q),
    decreases a.len(),
{
    if a.len() == 0 {
        assert(a + b =~= b);
        assert(notes_in(a, q) + notes_in(b, q) =~= notes_in(b, q));
    } else {
        lemma_notes_in_concat(a.skip(1), b, q);
        let t = a + b;
        assert(t[0] == a[0]);
        assert(t.skip(1) =~= a.skip(1) + b);
        if a[0].0 == q {
            assert(notes_in(t, q) == seq![(a[0].1, a[0].2)] + notes_in(a.skip(1) + b, q));
            assert(notes_in(a, q) + notes_in(b, q) =~= seq![(a[0].1, a[0].2)] + (notes_in(
                a.skip(1),
                q,
            ) + notes_in(b, q)));
        }
    }
}

/// Look a note up in a triple vector.
fn note_at_exec(ts: &Vec<(String, String, String)>, ns: &str, c: &str) -> (r: Option<String>)
    ensures
        match r {
            Some(v) => note_at(triples_view(ts@), ns@, c@) == Some(v@),
            None => note_at(triples_view(ts@), ns@, c@) is None,
        },
{
    let mut i: usize = 0;
    proof {
        assert(triples_view(ts@).skip(0) =~= triples_view(ts@));
    }
    while i < ts.len()
        invariant
            i <= ts@.len(),
            note_at(triples_view(ts@), ns@, c@) == note_at(
                triples_view(ts@).skip(i as int),
                ns@,
                c@,
            ),
        decreases ts@.len() - i,
    {
        proof {
            assert(triples_view(ts@).skip(i as int)[0] == (
                ts@[i as int].0@,
                ts@[i as int].1@,
                ts@[i as int].2@,
            ));
            assert(triples_view(ts@).skip(i as int).skip(1) =~= triples_view(ts@).skip(i + 1));
            lemma_note_at_head(triples_view(ts@).skip(i as int), ns@, c@);
        }
        if str_eq(ts[i].0.as_str(), ns) && str_eq(ts[i].1.as_str(), c) {
            let v = ts[i].2.clone();
            return Some(v);
        }
        i = i + 1;
    }
    proof {
        assert(triples_view(ts@).skip(ts@.len() as int) =~= Seq::<
            (Seq<char>, Seq<char>, Seq<char>),
        >::empty());
    }
    None
}

/// `note_at` of a nonempty store steps to its tail unless the head matches.
proof fn lemma_note_at_head(ts: Seq<(Seq<char>, Seq<char>, Seq<char>)>, ns: Seq<char>, c: Seq<char>)
    requires
        ts.len() > 0,
    ensures
        ts[0].0 == ns && ts[0].1 == c ==> note_at(ts, ns, c) == Some(ts[0].2),
        !(ts[0].0 == ns && ts[0].1 == c) ==> note_at(ts, ns, c) == note_at(ts.skip(1), ns, c),
{
    if ts[0].0 == ns {
        assert(notes_in(ts, ns) == seq![(ts[0].1, ts[0].2)] + notes_in(ts.skip(1), ns));
        assert(notes_in(ts, ns)[0] == (ts[0].1, ts[0].2));
        assert(notes_in(ts, ns).skip(1) =~= notes_in(ts.skip(1), ns));
    } else {
        assert(notes_in(ts, ns) == notes_in(ts.skip(1), ns));
    }
}

/// The notes of one namespace, in order.
fn notes_in_exec(ts: &Vec<(String, String, String)>, ns: &str) -> (r: Vec<(String, String)>)
    ensures
        pairs_view(r@) == notes_in(triples_view(ts@), ns@),
{
    let mut out: Vec<(String, String)> = Vec::new();
    let mut i: usize = 0;
    proof {
        assert(triples_view(ts@).skip(0) =~= triples_view(ts@));
        assert(pairs_view(out@) + notes_in(triples_view(ts@).skip(0), ns@) =~= notes_in(
            triples_view(ts@),
            ns@,
        ));
    }
    while i < ts.len()
        invariant
            i <= ts@.len(),
            notes_in(triples_view(ts@), ns@) == pairs_view(out@) + notes_in(
                triples_view(ts@).skip(i as int),
                ns@,
            ),
        decreases ts@.len() - i,
    {
        proof {
            assert(triples_view(ts@).skip(i as int)[0] == (
                ts@[i as int].0@,
                ts@[i as int].1@,
                ts@[i as int].2@,
            ));
            assert(triples_view(ts@).skip(i as int).skip(1) =~= triples_view(ts@).skip(i + 1));
        }
        if str_eq(ts[i].0.as_str(), ns) {
            let ghost preo = out@;
            let pair = (ts[i].1.clone(), ts[i].2.clone());
            out.push(pair);
            proof {
                assert(pairs_view(out@) =~= pairs_view(preo) + seq![
                    (ts@[i as int].1@, ts@[i as int].2@),
                ]);
                assert(notes_in(triples_view(ts@), ns@) =~= pairs_view(out@) + notes_in(
                    triples_view(ts@).skip(i + 1),
                    ns@,
                ));
            }
        }
        i = i + 1;
    }
    proof {
        assert(triples_view(ts@).skip(ts@.len() as int) =~= Seq::<
            (Seq<char>, Seq<char>, Seq<char>),
        >::empty());
        assert(notes_in(triples_view(ts@), ns@) =~= pairs_view(out@));
    }
    out
}

/// Write a note: replace the first match or append.
fn set_note_exec(ts: &mut Vec<(String, String, String)>, ns: &str, c: &str, v: &str)
    ensures
        triples_view(final(ts)@) == set_note(triples_view(old(ts)@), ns@, c@, v@),
{
    let mut i: usize = 0;
    proof {
        assert(triples_view(ts@).skip(0) =~= triples_view(ts@));
        assert(triples_view(ts@).take(0) + set_note(triples_view(ts@).skip(0), ns@, c@, v@)
            =~= set_note(triples_view(ts@), ns@, c@, v@));
    }
    while i < ts.len()
        invariant
            i <= ts@.len(),
            ts@ == old(ts)@,
            set_note(triples_view(ts@), ns@, c@, v@) == triples_view(ts@).take(i as int)
                + set_note(triples_view(ts@).skip(i as int), ns@, c@, v@),
        decreases ts@.len() - i,
    {
        proof {
            assert(triples_view(ts@).skip(i as int)[0] == (
                ts@[i as int].0@,
                ts@[i as int].1@,
                ts@[i as int].2@,
            ));
            assert(triples_view(ts@).skip(i as int).skip(1) =~= triples_view(ts@).skip(i + 1));
        }
        if str_eq(ts[i].0.as_str(), ns) && str_eq(ts[i].1.as_str(), c) {
            let t = (String::from_str(ns), String::from_str(c), String::from_str(v));
            let ghost pre = ts@;
            ts.set(i, t);
            proof {
                let tv = triples_view(pre);
                assert(set_note(tv.skip(i as int), ns@, c@, v@) =~= seq![(ns@, c@, v@)] + tv.skip(
                    i + 1,
                ));
                assert(triples_view(ts@) =~= tv.take(i as int) + (seq![(ns@, c@, v@)] + tv.skip(
                    i + 1,
                )));
                assert(triples_view(ts@) =~= set_note(tv, ns@, c@, v@));
            }
            return ;
        }
        i = i + 1;
        proof {
            assert(triples_view(ts@).take(i as int) =~= triples_view(ts@).take(i - 1) + seq![
                triples_view(ts@)[i - 1],
            ]);
            assert(set_note(triples_view(ts@), ns@, c@, v@) =~= triples_view(ts@).take(i as int)
                + set_note(triples_view(ts@).skip(i as int), ns@, c@, v@));
        }
    }
    let t = (String::from_str(ns), String::from_str(c), String::from_str(v));
    let ghost pre = ts@;
    ts.push(t);
    proof {
        let tv = triples_view(pre);
        assert(tv.skip(tv.len() as int) =~= Seq::<(Seq<char>, Seq<char>, Seq<char>)>::empty());
        assert(set_note(tv.skip(tv.len() as int), ns@, c@, v@) =~= seq![(ns@, c@, v@)]);
        assert(tv.take(tv.len() as int) =~= tv);
        assert(triples_view(ts@) =~= tv + seq![(ns@, c@, v@)]);
        assert(triples_view(ts@) =~= set_note(tv, ns@, c@, v@));
    }
}

/// Remove every note of a namespace and commit.
fn remove_note_exec(ts: &mut Vec<(String, String, String)>, ns: &str, c: &str)
    ensures
        triples_view(final(ts)@) == remove_note(triples_view(old(ts)@), ns@, c@),
{
    let mut out: Vec<(String, String, String)> = Vec::new();
    let mut i: usize = 0;
    proof {
        assert(triples_view(ts@).skip(0) =~= triples_view(ts@));
        assert(triples_view(out@) =~= Seq::<(Seq<char>, Seq<char>, Seq<char>)>::empty());
        assert(triples_view(out@) + remove_note(triples_view(ts@).skip(0), ns@, c@) =~= remove_note(
            triples_view(ts@),
            ns@,
            c@,
        ));
    }
    while i < ts.len()
        invariant
            i <= ts@.len(),
            ts@ == old(ts)@,
            remove_note(triples_view(ts@), ns@, c@) == triples_view(out@) + remove_note(
                triples_view(ts@).skip(i as int),
                ns@,
                c@,
            ),
        decreases ts@.len() - i,
    {
        proof {
            assert(triples_view(ts@).skip(i as int)[0] == (
                ts@[i as int].0@,
                ts@[i as int].1@,
                ts@[i as int].2@,
            ));
            assert(triples_view(ts@).skip(i as int).skip(1) =~= triples_view(ts@).skip(i + 1));
        }
        if !(str_eq(ts[i].0.as_str(), ns) && str_eq(ts[i].1.as_str(), c)) {
            let ghost preo = out@;
            let t = (ts[i].0.clone(), ts[i].1.clone(), ts[i].2.clone());
            out.push(t);
            proof {
                assert(triples_view(out@) =~= triples_view(preo) + seq![
                    triples_view(ts@)[i as int],
                ]);
                assert(remove_note(triples_view(ts@), ns@, c@) =~= triples_view(out@) + remove_note(
                    triples_view(ts@).skip(i + 1),
                    ns@,
                    c@,
                ));
            }
        }
        i = i + 1;
    }
    proof {
        assert(triples_view(ts@).skip(ts@.len() as int) =~= Seq::<
            (Seq<char>, Seq<char>, Seq<char>),
        >::empty());
        assert(remove_note(triples_view(ts@), ns@, c@) =~= triples_view(out@));
    }
    *ts = out;
}

/// Replace one namespace of a store with the given pairs.
fn replace_ns_exec(ts: &mut Vec<(String, String, String)>, ns: &str, entries: &Vec<(String, String)>)
    ensures
        triples_view(final(ts)@) == drop_ns(triples_view(old(ts)@), ns@) + as_ns(
            pairs_view(entries@),
            ns@,
        ),
{
    let mut out: Vec<(String, String, String)> = Vec::new();
    let mut i: usize = 0;
    proof {
        assert(triples_view(ts@).skip(0) =~= triples_view(ts@));
        assert(triples_view(out@) =~= Seq::<(Seq<char>, Seq<char>, Seq<char>)>::empty());
        assert(triples_view(out@) + drop_ns(triples_view(ts@).skip(0), ns@) =~= drop_ns(
            triples_view(ts@),
            ns@,
        ));
    }
    while i < ts.len()
        invariant
            i <= ts@.len(),
            ts@ == old(ts)@,
            drop_ns(triples_view(ts@), ns@) == triples_view(out@) + drop_ns(
                triples_view(ts@).skip(i as int),
                ns@,
            ),
        decreases ts@.len() - i,
    {
        proof {
            assert(triples_view(ts@).skip(i as int)[0] == (
                ts@[i as int].0@,
                ts@[i as int].1@,
                ts@[i as int].2@,
            ));
            assert(triples_view(ts@).skip(i as int).skip(1) =~= triples_view(ts@).skip(i + 1));
        }
        if !str_eq(ts[i].0.as_str(), ns) {
            let ghost preo = out@;
            let t = (ts[i].0.clone(), ts[i].1.clone(), ts[i].2.clone());
            out.push(t);
            proof {
                assert(triples_view(out@) =~= triples_view(preo) + seq![
                    triples_view(ts@)[i as int],
                ]);
                assert(drop_ns(triples_view(ts@), ns@) =~= triples_view(out@) + drop_ns(
                    triples_view(ts@).skip(i + 1),
                    ns@,
                ));
            }
        }
        i = i + 1;
    }
    proof {
        assert(triples_view(ts@).skip(ts@.len() as int) =~= Seq::<
            (Seq<char>, Seq<char>, Seq<char>),
        >::empty());
        assert(drop_ns(triples_view(ts@), ns@) =~= triples_view(out@));
    }
    let ghost dropped = triples_view(out@);
    let mut j: usize = 0;
    while j < entries.len()
        invariant
            j <= entries@.len(),
            triples_view(out@) == dropped + as_ns(pairs_view(entries@).take(j as int), ns@),
        decreases entries@.len() - j,
    {
        let ghost preo = out@;
        let t = (String::from_str(ns), entries[j].0.clone(), entries[j].1.clone());
        out.push(t);
        j = j + 1;
        proof {
            assert(triples_view(out@) =~= triples_view(preo) + seq![
                (ns@, entries@[j - 1].0@, entries@[j - 1].1@),
            ]);
            assert(as_ns(pairs_view(entries@).take(j as int), ns@) =~= as_ns(
                pairs_view(entries@).take(j - 1),
                ns@,
            ) + seq![(ns@, entries@[j - 1].0@, entries@[j - 1].1@)]);
        }
    }
    proof {
        assert(pairs_view(entries@).take(entries@.len() as int) =~= pairs_view(entries@));
        assert(triples_view(out@) =~= dropped + as_ns(pairs_view(entries@), ns@));
    }
    *ts = out;
}

// ---------------------------------------------------------------------
// The adapter's surface.
// ---------------------------------------------------------------------
/// The revision a name resolves to: `HEAD`, or a known commit id.
pub open spec fn resolve_rev(gv: GitView, rev: Seq<char>) -> Option<Seq<char>> {
    if !gv.repo {
        None
    } else if rev == "HEAD"@ {
        gv.head_id
    } else if gv.commits.contains(rev) {
        Some(rev)
    } else {
        None
    }
}

/// The short form of a commit id: its first seven characters.
pub open spec fn short_of(c: Seq<char>) -> Seq<char> {
    if c.len() <= 7 {
        c
    } else {
        c.take(7)
    }
}

impl Default for Git {
    /// The same fresh state as [`Git::new`].
    fn default() -> (r: Git)
        ensures
            r@.work_dir == "."@,
            !r@.repo,
    {
        Git::new()
    }
}

impl Git {
    /// A fresh state for the current directory; not yet a repository.
    pub fn new() -> (r: Git)
        ensures
            r@.work_dir == "."@,
            !r@.repo,
            r@.commits.len() == 0,
            r@.head_id is None,
            r@.config.len() == 0,
            r@.notes.len() == 0,
            r@.remotes.len() == 0,
    {
        let r = Git {
            work_dir: String::from_str("."),
            repo: false,
            commits: Vec::new(),
            head_id: None,
            config: Vec::new(),
            notes: Vec::new(),
            remotes: Vec::new(),
        };
        proof {
            assert(r@.commits =~= Seq::<Seq<char>>::empty());
            assert(r@.config =~= Seq::<(Seq<char>, Seq<char>)>::empty());
            assert(r@.notes =~= Seq::<(Seq<char>, Seq<char>, Seq<char>)>::empty());
            assert(r@.remotes =~= Seq::<
                (Seq<char>, Seq<(Seq<char>, Seq<char>, Seq<char>)>),
            >::empty());
        }
        r
    }

    /// A fresh state for the given working directory.
    pub fn with_work_dir(path: &str) -> (r: Git)
        ensures
            r@.work_dir == path@,
            !r@.repo,
            r@.commits.len() == 0,
            r@.head_id is None,
            r@.config.len() == 0,
            r@.notes.len() == 0,
            r@.remotes.len() == 0,
    {
        let mut r = Git::new();
        r.work_dir = String::from_str(path);
        r
    }

    /// The known commit ids, in creation order.
    pub fn commits_list(&self) -> (r: &Vec<String>)
        ensures
            r.deep_view() == self@.commits,
    {
        &self.commits
    }

    /// The working directory.
    pub fn work_dir(&self) -> (r: &str)
        ensures
            r@ == self@.work_dir,
    {
        self.work_dir.as_str()
    }

    /// Mark the directory as a repository with no commits yet.
    pub fn init_repository(&mut self)
        ensures
            final(self)@ == (GitView { repo: true, ..old(self)@ }),
    {
        self.repo = true;
    }

    /// Record a new commit and move the head to it.
    pub fn add_commit(&mut self, id: &str) -> (r: Result<(), Error>)
        ensures
            match r {
                Ok(()) => old(self)@.repo && id@.len() > 0 && !old(self)@.commits.contains(id@)
                    && final(self)@ == (GitView {
                    commits: old(self)@.commits.push(id@),
                    head_id: Some(id@),
                    ..old(self)@
                }),
                Err(e) => (!old(self)@.repo || id@.len() == 0 || old(self)@.commits.contains(id@))
                    && *final(self) == *old(self) && e is Validation,
            },
    {
        if !self.repo || id.unicode_len() == 0 {
            return Err(
                Error::Validation {
                    message: String::from_str("a commit needs a repository and a nonempty id"),
                },
            );
        }
        let mut i: usize = 0;
        while i < self.commits.len()
            invariant
                i <= self.commits@.len(),
                forall|j: int| 0 <= j < i ==> self.commits@[j]@ != id@,
                self == old(self),
            decreases self.commits@.len() - i,
        {
            if str_eq(self.commits[i].as_str(), id) {
                proof {
                    assert(self@.commits[i as int] == id@);
                }
                return Err(
                    Error::Validation {
                        message: String::from_str("a commit with this id already exists"),
                    },
                );
            }
            i = i + 1;
        }
        proof {
            assert(forall|j: int| 0 <= j < self@.commits.len() ==> self@.commits[j] != id@);
            assert(!self@.commits.contains(id@));
        }
        let ghost pre = self@;
        self.commits.push(String::from_str(id));
        self.head_id = Some(String::from_str(id));
        proof {
            assert(self@.commits =~= pre.commits.push(id@));
            assert(self@ =~~= (GitView {
                commits: pre.commits.push(id@),
                head_id: Some(id@),
                ..pre
            }));
        }
        Ok(())
    }

    /// Register a remote by name, with an empty copy of the notes.
    pub fn add_remote(&mut self, name: &str) -> (r: Result<(), Error>)
        ensures
            match r {
                Ok(()) => kv_remote(old(self)@.remotes, name@) is None && final(self)@ == (GitView {
                    remotes: old(self)@.remotes.push(
                        (name@, Seq::<(Seq<char>, Seq<char>, Seq<char>)>::empty()),
                    ),
                    ..old(self)@
                }),
                Err(e) => kv_remote(old(self)@.remotes, name@) is Some && *final(self) == *old(self)
                    && e is Validation,
            },
    {
        let mut i: usize = 0;
        proof {
            assert(self@.remotes.skip(0) =~= self@.remotes);
        }
        while i < self.remotes.len()
            invariant
                i <= self.remotes@.len(),
                self == old(self),
                kv_remote(self@.remotes, name@) == kv_remote(self@.remotes.skip(i as int), name@),
            decreases self.remotes@.len() - i,
        {
            proof {
                assert(self@.remotes.skip(i as int)[0] == self@.remotes[i as int]);
                assert(self@.remotes[i as int].0 == self.remotes@[i as int].0@);
                assert(self@.remotes.skip(i as int).skip(1) =~= self@.remotes.skip(i + 1));
            }
            if str_eq(self.remotes[i].0.as_str(), name) {
                return Err(
                    Error::Validation {
                        message: String::from_str("a remote with this name already exists"),
                    },
                );
            }
            i = i + 1;
        }
        proof {
            assert(self@.remotes.skip(self.remotes@.len() as int) =~= Seq::<
                (Seq<char>, Seq<(Seq<char>, Seq<char>, Seq<char>)>),
            >::empty());
        }
        let ghost pre = self@;
        let store: Vec<(String, String, String)> = Vec::new();
        self.remotes.push((String::from_str(name), store));
        proof {
            assert(self@.remotes =~~= pre.remotes.push(
                (name@, Seq::<(Seq<char>, Seq<char>, Seq<char>)>::empty()),
            ));
            assert(self@ =~~= (GitView {
                remotes: pre.remotes.push(
                    (name@, Seq::<(Seq<char>, Seq<char>, Seq<char>)>::empty()),
                ),
                ..pre
            }));
        }
        Ok(())
    }

    /// Whether the working directory is a repository.
    pub fn check_repository(&self) -> (r: Result<(), Error>)
        ensures
            r is Ok <==> self@.repo,
            r matches Err(e) ==> e is NotARepository,
    {
        if self.repo {
            Ok(())
        } else {
            Err(Error::NotARepository { path: Some(self.work_dir.clone()) })
        }
    }

    /// The repository's root directory.
    pub fn repo_root(&self) -> (r: Result<String, Error>)
        ensures
            r matches Ok(p) ==> self@.repo && p@ == self@.work_dir,
            r matches Err(e) ==> !self@.repo && e is NotARepository,
    {
        if self.repo {
            Ok(self.work_dir.clone())
        } else {
            Err(Error::NotARepository { path: Some(self.work_dir.clone()) })
        }
    }

    /// The current head commit id.
    pub fn head(&self) -> (r: Result<String, Error>)
        ensures
            match r {
                Ok(h) => self@.repo && self@.head_id == Some(h@),
                Err(e) => (!self@.repo || self@.head_id is None) && e is Git,
            },
    {
        if !self.repo {
            return Err(Self::command_failure("rev-parse"));
        }
        match &self.head_id {
            Some(h) => Ok(h.clone()),
            None => Err(Self::command_failure("rev-parse")),
        }
    }

    /// The short form of a revision: the first seven characters of the
    /// commit it resolves to.
    pub fn short_hash(&self, commit: &str) -> (r: Result<String, Error>)
        ensures
            match r {
                Ok(s) => resolve_rev(self@, commit@) matches Some(c) && s@ == short_of(c),
                Err(e) => resolve_rev(self@, commit@) is None && e is Git,
            },
    {
        match self.resolve(commit) {
            Some(c) => {
                let cv = chars_of(c.as_str());
                if cv.len() <= 7 {
                    Ok(c)
                } else {
                    let sv = slice_range(&cv, 0, 7);
                    proof {
                        assert(sv@ =~= short_of(c@));
                    }
                    Ok(string_of(&sv))
                }
            },
            None => Err(Self::command_failure("rev-parse")),
        }
    }

    /// Resolve a revision name to a commit id.
    fn resolve(&self, rev: &str) -> (r: Option<String>)
        ensures
            match r {
                Some(c) => resolve_rev(self@, rev@) == Some(c@),
                None => resolve_rev(self@, rev@) is None,
            },
    {
        if !self.repo {
            return None;
        }
        if str_eq(rev, "HEAD") {
            match &self.head_id {
                Some(h) => {
                    return Some(h.clone());
                },
                None => {
                    return None;
                },
            }
        }
        let mut i: usize = 0;
        while i < self.commits.len()
            invariant
                i <= self.commits@.len(),
                self@.repo,
                rev@ != "HEAD"@,
                forall|j: int| 0 <= j < i ==> self@.commits[j] != rev@,
            decreases self.commits@.len() - i,
        {
            if str_eq(self.commits[i].as_str(), rev) {
                proof {
                    assert(self@.commits[i as int] == rev@);
                    assert(self@.commits.contains(rev@));
                    assert(self@.repo);
                    assert(rev@ != "HEAD"@);
                    assert(resolve_rev(self@, rev@) == Some(rev@));
                }
                return Some(String::from_str(rev));
            }
            i = i + 1;
        }
        proof {
            assert(!self@.commits.contains(rev@));
        }
        None
    }

    /// A subprocess-style failure of the modeled adapter.
    fn command_failure(what: &str) -> (r: Error)
        ensures
            r is Git,
    {
        Error::Git {
            message: String::from_str("the operation cannot be carried out on this state"),
            command: vec![String::from_str(what)],
            exit_code: 1,
            stderr: String::new(),
        }
    }

    /// Read a configuration value.
    pub fn config_get(&self, key: &str) -> (r: Result<Option<String>, Error>)
        ensures
            match r {
                Ok(Some(v)) => kv_get(self@.config, key@) == Some(v@),
                Ok(None) => kv_get(self@.config, key@) is None,
                Err(_) => false,
            },
    {
        Ok(kv_get_exec(&self.config, key))
    }

    /// Write a configuration value.
    pub fn config_set(&mut self, key: &str, value: &str) -> (r: Result<(), Error>)
        ensures
            match r {
                Ok(()) => old(self)@.repo && final(self)@ == (GitView {
                    config: kv_set(old(self)@.config, key@, value@),
                    ..old(self)@
                }),
                Err(e) => !old(self)@.repo && *final(self) == *old(self) && e is Git,
            },
    {
        if !self.repo {
            return Err(Self::command_failure("config"));
        }
        let ghost pre = self@;
        kv_set_exec(&mut self.config, key, value);
        proof {
            assert(self@ =~~= (GitView { config: kv_set(pre.config, key@, value@), ..pre }));
        }
        Ok(())
    }

    /// Remove a configuration key; removing an absent key is no error.
    pub fn config_unset(&mut self, key: &str, all: bool) -> (r: Result<(), Error>)
        ensures
            match r {
                Ok(()) => old(self)@.repo && final(self)@ == (GitView {
                    config: kv_unset(old(self)@.config, key@),
                    ..old(self)@
                }),
                Err(e) => !old(self)@.repo && *final(self) == *old(self) && e is Git,
            },
    {
        if !self.repo {
            return Err(Self::command_failure("config"));
        }
        let _ = all;
        let ghost pre = self@;
        kv_unset_exec(&mut self.config, key);
        proof {
            assert(self@ =~~= (GitView { config: kv_unset(pre.config, key@), ..pre }));
        }
        Ok(())
    }

    /// Read the note attached to a revision; any failure to resolve or
    /// find it reads as no note at all.
    pub fn notes_show(&self, notes_ref: &str, commit: &str) -> (r: Result<Option<String>, Error>)
        ensures
            match r {
                Ok(Some(v)) => resolve_rev(self@, commit@) matches Some(c) && note_at(
                    self@.notes,
                    notes_ref@,
                    c,
                ) == Some(v@),
                Ok(None) => resolve_rev(self@, commit@) matches Some(c) ==> note_at(
                    self@.notes,
                    notes_ref@,
                    c,
                ) is None,
                Err(_) => false,
            },
    {
        match self.resolve(commit) {
            Some(c) => Ok(note_at_exec(&self.notes, notes_ref, c.as_str())),
            None => Ok(None),
        }
    }

    /// Attach a note to a revision, overwriting any note already there.
    pub fn notes_add(&mut self, notes_ref: &str, commit: &str, content: &str) -> (r: Result<
        (),
        Error,
    >)
        ensures
            match r {
                Ok(()) => resolve_rev(old(self)@, commit@) matches Some(c) && final(self)@
                    == (GitView { notes: set_note(old(self)@.notes, notes_ref@, c, content@), ..old(self)@ }),
                Err(e) => resolve_rev(old(self)@, commit@) is None && *final(self) == *old(self)
                    && e is Git,
            },
    {
        match self.resolve(commit) {
            Some(c) => {
                let ghost pre = self@;
                set_note_exec(&mut self.notes, notes_ref, c.as_str(), content);
                proof {
                    assert(self@ =~~= (GitView {
                        notes: set_note(pre.notes, notes_ref@, c@, content@),
                        ..pre
                    }));
                }
                Ok(())
            },
            None => Err(Self::command_failure("notes add")),
        }
    }

    /// Remove the note attached to a revision.
    pub fn notes_remove(&mut self, notes_ref: &str, commit: &str) -> (r: Result<(), Error>)
        ensures
            match r {
                Ok(()) => resolve_rev(old(self)@, commit@) matches Some(c) && note_at(
                    old(self)@.notes,
                    notes_ref@,
                    c,
                ) is Some && final(self)@ == (GitView {
                    notes: remove_note(old(self)@.notes, notes_ref@, c),
                    ..old(self)@
                }),
                Err(e) => *final(self) == *old(self) && e is Git && (resolve_rev(
                    old(self)@,
                    commit@,
                ) matches Some(c) ==> note_at(old(self)@.notes, notes_ref@, c) is None),
            },
    {
        match self.resolve(commit) {
            Some(c) => {
                match note_at_exec(&self.notes, notes_ref, c.as_str()) {
                    Some(_) => {
                        let ghost pre = self@;
                        remove_note_exec(&mut self.notes, notes_ref, c.as_str());
                        proof {
                            assert(self@ =~~= (GitView {
                                notes: remove_note(pre.notes, notes_ref@, c@),
                                ..pre
                            }));
                        }
                        Ok(())
                    },
                    None => Err(Self::command_failure("notes remove")),
                }
            },
            None => Err(Self::command_failure("notes remove")),
        }
    }

    /// List the notes of a namespace as (note id, commit) pairs. The
    /// model does not compute note object ids; the first component is
    /// left empty.
    pub fn notes_list(&self, notes_ref: &str) -> (r: Result<Vec<(String, String)>, Error>)
        ensures
            match r {
                Ok(l) => l@.len() == notes_in(self@.notes, notes_ref@).len() && forall|i: int|
                    0 <= i < l@.len() ==> (#[trigger] l@[i].1)@ == notes_in(
                        self@.notes,
                        notes_ref@,
                    )[i].0 && l@[i].0@ == Seq::<char>::empty(),
                Err(_) => false,
            },
    {
        let entries = notes_in_exec(&self.notes, notes_ref);
        let mut out: Vec<(String, String)> = Vec::new();
        let mut i: usize = 0;
        while i < entries.len()
            invariant
                i <= entries@.len(),
                pairs_view(entries@) == notes_in(self@.notes, notes_ref@),
                out@.len() == i,
                forall|j: int| 0 <= j < i ==> (#[trigger] out@[j].1)@ == notes_in(
                    self@.notes,
                    notes_ref@,
                )[j].0 && out@[j].0@ == Seq::<char>::empty(),
            decreases entries@.len() - i,
        {
            let pair = (String::new(), entries[i].0.clone());
            out.push(pair);
            proof {
                assert(pairs_view(entries@)[i as int] == (entries@[i as int].0@, entries@[
                    i as int].1@));
            }
            i = i + 1;
        }
        Ok(out)
    }

    /// Push one notes namespace to a remote, replacing the remote's copy.
    pub fn notes_push(&mut self, remote: &str, notes_ref: &str) -> (r: Result<(), Error>)
        ensures
            match r {
                Ok(()) => kv_remote(old(self)@.remotes, remote@) matches Some(store) && final(self)@.notes == old(self)@.notes && final(self)@.config == old(self)@.config && final(self)@.commits == old(self)@.commits && final(self)@.head_id == old(self)@.head_id
                    && final(self)@.work_dir == old(self)@.work_dir && final(self)@.repo == old(
                    self,
                )@.repo && kv_remote(final(self)@.remotes, remote@) == Some(
                    drop_ns(store, notes_ref@) + as_ns(
                        notes_in(old(self)@.notes, notes_ref@),
                        notes_ref@,
                    ),
                ),
                Err(e) => kv_remote(old(self)@.remotes, remote@) is None && *final(self) == *old(self) && e is Git,
            },
    {
        let entries = notes_in_exec(&self.notes, notes_ref);
        self.update_remote(remote, notes_ref, &entries)
    }

    /// Fetch one notes namespace from a remote, replacing the local copy.
    /// A remote that lacks the namespace is a failure, as the transport
    /// reports one for a missing reference.
    pub fn notes_fetch(&mut self, remote: &str, notes_ref: &str) -> (r: Result<(), Error>)
        ensures
            match r {
                Ok(()) => kv_remote(old(self)@.remotes, remote@) matches Some(store) && notes_in(
                    store,
                    notes_ref@,
                ).len() > 0 && final(self)@ == (GitView {
                    notes: drop_ns(old(self)@.notes, notes_ref@) + as_ns(
                        notes_in(store, notes_ref@),
                        notes_ref@,
                    ),
                    ..old(self)@
                }),
                Err(e) => *final(self) == *old(self) && e is Git && (kv_remote(
                    old(self)@.remotes,
                    remote@,
                ) matches Some(store) ==> notes_in(store, notes_ref@).len() == 0),
            },
    {
        let found = self.find_remote(remote);
        match found {
            Some(ri) => {
                let entries = notes_in_exec(&self.remotes[ri].1, notes_ref);
                if entries.len() == 0 {
                    proof {
                        assert(notes_in(self@.remotes[ri as int].1, notes_ref@).len() == 0);
                    }
                    return Err(Self::command_failure("fetch"));
                }
                let ghost pre = self@;
                replace_ns_exec(&mut self.notes, notes_ref, &entries);
                proof {
                    assert(self@ =~~= (GitView {
                        notes: drop_ns(pre.notes, notes_ref@) + as_ns(
                            notes_in(pre.remotes[ri as int].1, notes_ref@),
                            notes_ref@,
                        ),
                        ..pre
                    }));
                }
                Ok(())
            },
            None => Err(Self::command_failure("fetch")),
        }
    }

    /// The index of a remote by name.
    fn find_remote(&self, remote: &str) -> (r: Option<usize>)
        ensures
            match r {
                Some(i) => i < self@.remotes.len() && self@.remotes[i as int].0 == remote@
                    && kv_remote(self@.remotes, remote@) == Some(self@.remotes[i as int].1)
                    && forall|j: int| 0 <= j < i ==> self@.remotes[j].0 != remote@,
                None => kv_remote(self@.remotes, remote@) is None,
            },
    {
        let mut i: usize = 0;
        proof {
            assert(self@.remotes.skip(0) =~= self@.remotes);
        }
        while i < self.remotes.len()
            invariant
                i <= self.remotes@.len(),
                forall|j: int| 0 <= j < i ==> self@.remotes[j].0 != remote@,
                kv_remote(self@.remotes, remote@) == kv_remote(
                    self@.remotes.skip(i as int),
                    remote@,
                ),
            decreases self.remotes@.len() - i,
        {
            proof {
                assert(self@.remotes.skip(i as int)[0] == self@.remotes[i as int]);
                assert(self@.remotes[i as int].0 == self.remotes@[i as int].0@);
                assert(self@.remotes.skip(i as int).skip(1) =~= self@.remotes.skip(i + 1));
            }
            if str_eq(self.remotes[i].0.as_str(), remote) {
                return Some(i);
            }
            i = i + 1;
        }
        proof {
            assert(self@.remotes.skip(self.remotes@.len() as int) =~= Seq::<
                (Seq<char>, Seq<(Seq<char>, Seq<char>, Seq<char>)>),
            >::empty());
        }
        None
    }

    /// Replace one namespace of a remote's copy with the given pairs.
    fn update_remote(&mut self, remote: &str, notes_ref: &str, entries: &Vec<(String, String)>) -> (r:
        Result<(), Error>)
        ensures
            match r {
                Ok(()) => kv_remote(old(self)@.remotes, remote@) matches Some(store) && final(self)@.notes == old(self)@.notes && final(self)@.config == old(self)@.config && final(self)@.commits == old(self)@.commits && final(self)@.head_id == old(self)@.head_id
                    && final(self)@.work_dir == old(self)@.work_dir && final(self)@.repo == old(
                    self,
                )@.repo && kv_remote(final(self)@.remotes, remote@) == Some(
                    drop_ns(store, notes_ref@) + as_ns(pairs_view(entries@), notes_ref@),
                ),
                Err(e) => kv_remote(old(self)@.remotes, remote@) is None && *final(self) == *old(self) && e is Git,
            },
    {
        let found = self.find_remote(remote);
        match found {
            Some(ri) => {
                let ghost pre = self@;
                let mut entry = self.remotes.remove(ri);
                replace_ns_exec(&mut entry.1, notes_ref, entries);
                let ghost mid = self.remotes@;
                self.remotes.insert(ri, entry);
                proof {
                    let newstore = drop_ns(pre.remotes[ri as int].1, notes_ref@) + as_ns(
                        pairs_view(entries@),
                        notes_ref@,
                    );
                    assert(self@.remotes =~~= pre.remotes.update(
                        ri as int,
                        (remote@, newstore),
                    ));
                    lemma_kv_remote_update(pre.remotes, ri as int, remote@, newstore);
                    assert(self@.notes =~~= pre.notes);
                    assert(self@.config =~~= pre.config);
                    assert(self@.commits =~~= pre.commits);
                }
                Ok(())
            },
            None => Err(Self::command_failure("push")),
        }
    }
}

/// The store of a remote, by name.
pub open spec fn kv_remote(
    s: Seq<(Seq<char>, Seq<(Seq<char>, Seq<char>, Seq<char>)>)>,
    name: Seq<char>,
) -> Option<Seq<(Seq<char>, Seq<char>, Seq<char>)>>
    decreases s.len(),
{
    if s.len() == 0 {
        None
    } else if s[0].0 == name {
        Some(s[0].1)
    } else {
        kv_remote(s.skip(1), name)
    }
}

/// Updating the first entry of a name rebinds that name.
proof fn lemma_kv_remote_update(
    s: Seq<(Seq<char>, Seq<(Seq<char>, Seq<char>, Seq<char>)>)>,
    i: int,
    name: Seq<char>,
    store: Seq<(Seq<char>, Seq<char>, Seq<char>)>,
)
    requires
        0 <= i < s.len(),
        s[i].0 == name,
        forall|j: int| 0 <= j < i ==> s[j].0 != name,
    ensures
        kv_remote(s.update(i, (name, store)), name) == Some(store),
    decreases i,
{
    let t = s.update(i, (name, store));
    if i == 0 {
        assert(t[0] == (name, store));
    } else {
        assert(t[0] == s[0]);
        assert(s[0].0 != name);
        assert(t.skip(1) =~~= s.skip(1).update(i - 1, (name, store)));
        assert(forall|j: int| 0 <= j < i - 1 ==> s.skip(1)[j].0 != name) by {
            assert(forall|j: int| 0 <= j < i - 1 ==> s.skip(1)[j] == s[j + 1]);
        }
        assert(s.skip(1)[i - 1] == s[i]);
        lemma_kv_remote_update(s.skip(1), i - 1, name, store);
    }
}


/// The first whitespace position of a line at or after `i`, or its end.
pub open spec fn first_space_from(l: Seq<char>, i: int) -> int
    decreases l.len() - i,
{
    if i < 0 || i >= l.len() {
        l.len() as int
    } else if is_space(l[i]) {
        i
    } else {
        first_space_from(l, i + 1)
    }
}

/// The first two whitespace-separated tokens of a line, when it has
/// at least two.
pub open spec fn line_pair(l: Seq<char>) -> Option<(Seq<char>, Seq<char>)> {
    let a = leading_spaces(l);
    let b = first_space_from(l, a);
    let c = b + leading_spaces(l.skip(b));
    let d = first_space_from(l, c);
    if a < b && c < d {
        Some((l.subrange(a, b), l.subrange(c, d)))
    } else {
        None
    }
}

/// The token pairs of a listing's lines, in order; lines without two
/// tokens contribute nothing.
pub open spec fn listing_pairs(lines: Seq<Seq<char>>) -> Seq<(Seq<char>, Seq<char>)>
    decreases lines.len(),
{
    if lines.len() == 0 {
        Seq::empty()
    } else {
        let rest = listing_pairs(lines.skip(1));
        match line_pair(lines[0]) {
            Some(p) => seq![p] + rest,
            None => rest,
        }
    }
}

/// The (note object, commit) pairs a raw notes listing denotes: per
/// line, its first two whitespace-separated tokens.
pub open spec fn listing_of(s: Seq<char>) -> Seq<(Seq<char>, Seq<char>)> {
    listing_pairs(split_lines(s))
}

/// Find the first whitespace at or after `i`.
fn first_space_exec(l: &Vec<char>, i: usize) -> (r: usize)
    requires
        i <= l@.len(),
    ensures
        r as int == first_space_from(l@, i as int),
        i <= r <= l@.len(),
{
    let mut j = i;
    let n = l.len();
    while j < n && !(l[j] == ' ' || l[j] == '\t' || l[j] == '\n' || l[j] == '\r')
        invariant
            i <= j <= n,
            n == l@.len(),
            first_space_from(l@, i as int) == first_space_from(l@, j as int),
        decreases n - j,
    {
        j = j + 1;
    }
    j
}

/// Count the leading whitespace at or after `i`.
fn skip_spaces_exec(l: &Vec<char>, i: usize) -> (r: usize)
    requires
        i <= l@.len(),
    ensures
        r as int == i + leading_spaces(l@.skip(i as int)),
        i <= r <= l@.len(),
{
    proof {
        lemma_leading_spaces_bound(l@.skip(i as int));
    }
    let mut j = i;
    let n = l.len();
    while j < n && (l[j] == ' ' || l[j] == '\t' || l[j] == '\n' || l[j] == '\r')
        invariant
            i <= j <= n,
            n == l@.len(),
            forall|k: int| i <= k < j ==> is_space(#[trigger] l@[k]),
            j - i <= leading_spaces(l@.skip(i as int)),
        decreases n - j,
    {
        proof {
            lemma_leading_spaces_bound(l@.skip(i as int));
            if j + 1 - i > leading_spaces(l@.skip(i as int)) {
                assert(l@.skip(i as int)[leading_spaces(l@.skip(i as int))] == l@[i
                    + leading_spaces(l@.skip(i as int))]);
            }
            assert(l@.skip(i as int)[j - i] == l@[j as int]);
        }
        j = j + 1;
    }
    proof {
        lemma_leading_spaces_bound(l@.skip(i as int));
        assert(forall|k: int| 0 <= k < j - i ==> l@.skip(i as int)[k] == l@[i + k]);
        if (j - i) < leading_spaces(l@.skip(i as int)) {
            assert(is_space(l@.skip(i as int)[j - i]));
            assert(l@.skip(i as int)[j - i] == l@[j as int]);
        }
    }
    j
}

/// The first two tokens of one line.
fn line_pair_exec(l: &Vec<char>) -> (r: Option<(String, String)>)
    ensures
        match r {
            Some(p) => line_pair(l@) == Some((p.0@, p.1@)),
            None => line_pair(l@) is None,
        },
{
    let a = skip_spaces_exec(l, 0);
    proof {
        assert(l@.skip(0) =~= l@);
    }
    let b = first_space_exec(l, a);
    if a >= b {
        return None;
    }
    let c = skip_spaces_exec(l, b);
    let d = first_space_exec(l, c);
    if c >= d {
        return None;
    }
    let t1 = slice_range(l, a, b);
    let t2 = slice_range(l, c, d);
    Some((string_of(&t1), string_of(&t2)))
}

/// Parse a raw notes listing into its (note object, commit) pairs.
pub fn parse_notes_listing(s: &str) -> (r: Vec<(String, String)>)
    ensures
        pairs_view(r@) == listing_of(s@),
{
    let sv = chars_of(s);
    let lines = split_lines_exec(&sv);
    let mut out: Vec<(String, String)> = Vec::new();
    let mut i: usize = 0;
    let ghost lv = crate::text::seq_views(lines@);
    proof {
        assert(lv.skip(0) =~= lv);
        assert(pairs_view(out@) + listing_pairs(lv.skip(0)) =~= listing_pairs(lv));
    }
    while i < lines.len()
        invariant
            i <= lines@.len(),
            lv == crate::text::seq_views(lines@),
            lv == split_lines(s@),
            listing_pairs(lv) == pairs_view(out@) + listing_pairs(lv.skip(i as int)),
        decreases lines@.len() - i,
    {
        proof {
            assert(lv.skip(i as int)[0] == lv[i as int]);
            assert(lv.skip(i as int).skip(1) =~= lv.skip(i + 1));
            assert(lines@[i as int]@ == lv[i as int]);
        }
        match line_pair_exec(&lines[i]) {
            Some(p) => {
                let ghost preo = pairs_view(out@);
                out.push(p);
                proof {
                    assert(pairs_view(out@) =~= preo + seq![(out@[out@.len() - 1].0@, out@[
                        out@.len() - 1].1@)]);
                    assert(listing_pairs(lv) =~= pairs_view(out@) + listing_pairs(lv.skip(i + 1)));
                }
            },
            None => {},
        }
        i = i + 1;
    }
    proof {
        assert(lv.skip(lines@.len() as int) =~= Seq::<Seq<char>>::empty());
        assert(listing_pairs(lv) =~= pairs_view(out@));
    }
    out
}

} // verus!
