//! Small verified utilities over strings and character sequences.
//!
//! Everything in the crate works over `Seq<char>` views; the helpers here
//! convert between `String`/`&str` and `Vec<char>`, and give executable
//! versions of the usual sequence predicates (prefix, substring search,
//! lexicographic order, trimming, line splitting).

use vstd::prelude::*;

verus! {

/// Relies on String::push: appends one character at the end.
#[verifier::external_body]
pub fn push_char(s: &mut String, c: char)
    ensures
        final(s)@ == old(s)@.push(c),
{
    s.push(c);
}

/// Collect the characters of a string slice into a vector.
pub fn chars_of(s: &str) -> (r: Vec<char>)
    ensures
        r@ == s@,
{
    let n = s.unicode_len();
    let mut r: Vec<char> = Vec::new();
    let mut i: usize = 0;
    while i < n
        invariant
            n == s@.len(),
            i <= n,
            r@ == s@.subrange(0, i as int),
        decreases n - i,
    {
        r.push(s.get_char(i));
        i = i + 1;
        proof {
            assert(r@ =~= s@.subrange(0, i as int));
        }
    }
    proof {
        assert(r@ =~= s@);
    }
    r
}

/// Build a string from a sequence of characters.
pub fn string_of(v: &Vec<char>) -> (r: String)
    ensures
        r@ == v@,
{
    let mut r = String::new();
    let mut i: usize = 0;
    while i < v.len()
        invariant
            i <= v@.len(),
            r@ == v@.subrange(0, i as int),
        decreases v@.len() - i,
    {
        push_char(&mut r, v[i]);
        i = i + 1;
        proof {
            assert(r@ =~= v@.subrange(0, i as int));
        }
    }
    proof {
        assert(r@ =~= v@);
    }
    r
}

/// `p` is a prefix of `s`.
pub open spec fn is_prefix(p: Seq<char>, s: Seq<char>) -> bool {
    p.len() <= s.len() && s.subrange(0, p.len() as int) == p
}

/// `n` occurs in `h` starting at position `i`.
pub open spec fn occurs_at(h: Seq<char>, n: Seq<char>, i: int) -> bool {
    0 <= i && i + n.len() <= h.len() && h.subrange(i, i + n.len() as int) == n
}

/// `n` occurs somewhere in `h`.
pub open spec fn contains_seq(h: Seq<char>, n: Seq<char>) -> bool {
    exists|i: int| occurs_at(h, n, i)
}

/// Test whether `n` occurs in `h` starting at `i`.
fn occurs_at_exec(h: &Vec<char>, n: &Vec<char>, i: usize) -> (r: bool)
    requires
        i + n@.len() <= h@.len(),
    ensures
        r == occurs_at(h@, n@, i as int),
{
    let hl = h.len();
    let mut j: usize = 0;
    while j < n.len()
        invariant
            i + n@.len() <= h@.len(),
            hl == h@.len(),
            j <= n@.len(),
            forall|k: int| 0 <= k < j ==> h@[i + k] == n@[k],
        decreases n@.len() - j,
    {
        if h[i + j] != n[j] {
            proof {
                assert(h@.subrange(i as int, i + n@.len() as int)[j as int] == h@[i + j]);
            }
            return false;
        }
        j = j + 1;
    }
    proof {
        assert(h@.subrange(i as int, i + n@.len() as int) =~= n@);
    }
    true
}

/// Substring search: does `n` occur anywhere in `h`?
pub fn contains_chars(h: &Vec<char>, n: &Vec<char>) -> (r: bool)
    ensures
        r == contains_seq(h@, n@),
{
    if n.len() > h.len() {
        proof {
            assert(forall|i: int| !occurs_at(h@, n@, i));
        }
        return false;
    }
    if n.len() == 0 {
        proof {
            assert(h@.subrange(0, 0) =~= n@);
            assert(occurs_at(h@, n@, 0));
        }
        return true;
    }
    let mut i: usize = 0;
    let hl = h.len();
    let last = hl - n.len();
    while i <= last
        invariant
            1 <= n@.len() <= h@.len(),
            hl == h@.len(),
            last == h@.len() - n@.len(),
            i <= last + 1,
            forall|k: int| 0 <= k < i ==> !occurs_at(h@, n@, k),
        decreases last + 1 - i,
    {
        if occurs_at_exec(h, n, i) {
            return true;
        }
        i = i + 1;
    }
    proof {
        assert(forall|k: int| occurs_at(h@, n@, k) ==> 0 <= k <= last);
    }
    false
}

/// Lower-case image of one character, for the ASCII letters only.
pub open spec fn lower_char(c: char) -> char {
    if 'A' <= c && c <= 'Z' {
        (c as u8 + 32) as char
    } else {
        c
    }
}

/// Lower-case image of a character sequence, ASCII letters only.
pub open spec fn lower_seq(s: Seq<char>) -> Seq<char> {
    s.map_values(|c: char| lower_char(c))
}

/// Lower-casing is idempotent.
pub proof fn lemma_lower_idempotent(s: Seq<char>)
    ensures
        lower_seq(lower_seq(s)) == lower_seq(s),
{
    assert forall|c: char| #[trigger] lower_char(lower_char(c)) == lower_char(c) by {
        if 'A' <= c && c <= 'Z' {
            assert(lower_char(c) == ((c as u8 + 32) as char));
            assert(c as u8 >= 65 && c as u8 <= 90);
            assert((c as u8 + 32) >= 97 && (c as u8 + 32) <= 122);
            assert(!('A' <= lower_char(c) && lower_char(c) <= 'Z'));
        }
    }
    assert(lower_seq(lower_seq(s)) =~= lower_seq(s));
}

/// Lower-case an ASCII letter; other characters pass through.
pub fn lower_char_exec(c: char) -> (r: char)
    ensures
        r == lower_char(c),
{
    if 'A' <= c && c <= 'Z' {
        ((c as u8) + 32) as char
    } else {
        c
    }
}

/// Lower-case every ASCII letter of a character vector.
pub fn lower_chars(v: &Vec<char>) -> (r: Vec<char>)
    ensures
        r@ == lower_seq(v@),
{
    let mut r: Vec<char> = Vec::new();
    let mut i: usize = 0;
    while i < v.len()
        invariant
            i <= v@.len(),
            r@ == lower_seq(v@.subrange(0, i as int)),
        decreases v@.len() - i,
    {
        r.push(lower_char_exec(v[i]));
        i = i + 1;
        proof {
            assert(r@ =~= lower_seq(v@.subrange(0, i as int)));
        }
    }
    proof {
        assert(v@.subrange(0, v@.len() as int) =~= v@);
    }
    r
}

/// Lower-case every ASCII letter of a string.
pub fn lower_string(s: &str) -> (r: String)
    ensures
        r@ == lower_seq(s@),
{
    let v = chars_of(s);
    let l = lower_chars(&v);
    string_of(&l)
}

/// Case-insensitive equality of two character sequences (ASCII folding).
pub open spec fn eq_ignore_case(a: Seq<char>, b: Seq<char>) -> bool {
    lower_seq(a) == lower_seq(b)
}

/// Character-sequence equality, decided character by character.
pub fn chars_eq(a: &Vec<char>, b: &Vec<char>) -> (r: bool)
    ensures
        r == (a@ == b@),
{
    if a.len() != b.len() {
        return false;
    }
    let mut i: usize = 0;
    while i < a.len()
        invariant
            a@.len() == b@.len(),
            i <= a@.len(),
            forall|k: int| 0 <= k < i ==> a@[k] == b@[k],
        decreases a@.len() - i,
    {
        if a[i] != b[i] {
            return false;
        }
        i = i + 1;
    }
    proof {
        assert(a@ =~= b@);
    }
    true
}

/// String equality over the character views.
pub fn str_eq(a: &str, b: &str) -> (r: bool)
    ensures
        r == (a@ == b@),
{
    let va = chars_of(a);
    let vb = chars_of(b);
    chars_eq(&va, &vb)
}

/// Lexicographic order on character sequences, by code point.
pub open spec fn lex_le(a: Seq<char>, b: Seq<char>) -> bool
    decreases a.len(),
{
    if a.len() == 0 {
        true
    } else if b.len() == 0 {
        false
    } else if a[0] == b[0] {
        lex_le(a.skip(1), b.skip(1))
    } else {
        (a[0] as u32) < (b[0] as u32)
    }
}

/// The lexicographic order is total.
pub proof fn lemma_lex_total(a: Seq<char>, b: Seq<char>)
    ensures
        lex_le(a, b) || lex_le(b, a),
    decreases a.len(),
{
    if a.len() == 0 || b.len() == 0 {
    } else if a[0] == b[0] {
        lemma_lex_total(a.skip(1), b.skip(1));
    } else {
        vstd::utf8::char_u32_cast(a[0], a[0] as u32);
        vstd::utf8::char_u32_cast(b[0], b[0] as u32);
        assert((a[0] as u32) != (b[0] as u32));
    }
}

/// The lexicographic order is transitive.
pub proof fn lemma_lex_trans(a: Seq<char>, b: Seq<char>, c: Seq<char>)
    requires
        lex_le(a, b),
        lex_le(b, c),
    ensures
        lex_le(a, c),
    decreases a.len(),
{
    if a.len() == 0 || b.len() == 0 || c.len() == 0 {
    } else if a[0] == b[0] && b[0] == c[0] {
        lemma_lex_trans(a.skip(1), b.skip(1), c.skip(1));
    }
}

/// Decide the lexicographic order on two character vectors.
pub fn chars_le(a: &Vec<char>, b: &Vec<char>) -> (r: bool)
    ensures
        r == lex_le(a@, b@),
{
    let mut i: usize = 0;
    proof {
        assert(a@.skip(0) =~= a@);
        assert(b@.skip(0) =~= b@);
    }
    loop
        invariant
            i <= a@.len(),
            i <= b@.len(),
            forall|k: int| 0 <= k < i ==> a@[k] == b@[k],
            lex_le(a@, b@) == lex_le(a@.skip(i as int), b@.skip(i as int)),
        ensures
            lex_le(a@, b@) == lex_le(a@.skip(i as int), b@.skip(i as int)),
            i <= a@.len() && i <= b@.len(),
            (i == a@.len()) || (i == b@.len()) || a@[i as int] != b@[i as int],
        decreases a@.len() - i,
    {
        if i == a.len() || i == b.len() {
            break;
        }
        if a[i] != b[i] {
            break;
        }
        proof {
            assert(a@.skip(i as int)[0] == a@[i as int]);
            assert(b@.skip(i as int)[0] == b@[i as int]);
            assert(a@.skip(i as int).skip(1) =~= a@.skip(i + 1));
            assert(b@.skip(i as int).skip(1) =~= b@.skip(i + 1));
        }
        i = i + 1;
    }
    if i == a.len() {
        proof {
            assert(a@.skip(i as int).len() == 0);
        }
        true
    } else if i == b.len() {
        proof {
            assert(b@.skip(i as int).len() == 0);
            assert(a@.skip(i as int).len() > 0);
        }
        false
    } else {
        proof {
            assert(a@.skip(i as int)[0] == a@[i as int]);
            assert(b@.skip(i as int)[0] == b@[i as int]);
        }
        (a[i] as u32) < (b[i] as u32)
    }
}

/// Whitespace characters recognized by trimming.
pub open spec fn is_space(c: char) -> bool {
    c == ' ' || c == '\t' || c == '\n' || c == '\r'
}

/// Number of leading whitespace characters.
pub open spec fn leading_spaces(s: Seq<char>) -> int
    decreases s.len(),
{
    if s.len() == 0 {
        0
    } else if is_space(s[0]) {
        1 + leading_spaces(s.skip(1))
    } else {
        0
    }
}

/// Number of trailing whitespace characters.
pub open spec fn trailing_spaces(s: Seq<char>) -> int
    decreases s.len(),
{
    if s.len() == 0 {
        0
    } else if is_space(s[s.len() - 1]) {
        1 + trailing_spaces(s.take(s.len() - 1))
    } else {
        0
    }
}

pub proof fn lemma_leading_spaces_bound(s: Seq<char>)
    ensures
        0 <= leading_spaces(s) <= s.len(),
        forall|k: int| 0 <= k < leading_spaces(s) ==> is_space(s[k]),
        leading_spaces(s) < s.len() ==> !is_space(s[leading_spaces(s)]),
    decreases s.len(),
{
    if s.len() > 0 && is_space(s[0]) {
        lemma_leading_spaces_bound(s.skip(1));
        assert forall|k: int| 0 <= k < leading_spaces(s) implies is_space(s[k]) by {
            if k > 0 {
                assert(s.skip(1)[k - 1] == s[k]);
            }
        }
        if leading_spaces(s) < s.len() {
            assert(s.skip(1)[leading_spaces(s) - 1] == s[leading_spaces(s)]);
        }
    }
}

pub proof fn lemma_trailing_spaces_bound(s: Seq<char>)
    ensures
        0 <= trailing_spaces(s) <= s.len(),
        forall|k: int| s.len() - trailing_spaces(s) <= k < s.len() ==> is_space(s[k]),
        trailing_spaces(s) < s.len() ==> !is_space(s[s.len() - trailing_spaces(s) - 1]),
    decreases s.len(),
{
    if s.len() > 0 && is_space(s[s.len() - 1]) {
        let t = s.take(s.len() - 1);
        lemma_trailing_spaces_bound(t);
        assert forall|k: int| s.len() - trailing_spaces(s) <= k < s.len() implies is_space(
            s[k],
        ) by {
            if k < s.len() - 1 {
                assert(t[k] == s[k]);
            }
        }
        if trailing_spaces(s) < s.len() {
            assert(t[t.len() - trailing_spaces(t) - 1] == s[s.len() - trailing_spaces(s) - 1]);
        }
    }
}

/// The whitespace-trimmed interior of a sequence.
pub open spec fn trim_spec(s: Seq<char>) -> Seq<char> {
    if leading_spaces(s) == s.len() {
        Seq::empty()
    } else {
        s.subrange(leading_spaces(s), s.len() - trailing_spaces(s))
    }
}

/// A sequence with no whitespace at either end is its own trim.
pub proof fn lemma_trim_id(s: Seq<char>)
    requires
        s.len() > 0 ==> !is_space(s[0]) && !is_space(s[s.len() - 1]),
    ensures
        trim_spec(s) == s,
{
    if s.len() > 0 {
        assert(leading_spaces(s) == 0);
        assert(trailing_spaces(s) == 0);
        assert(trim_spec(s) =~= s);
    } else {
        assert(trim_spec(s) =~= s);
    }
}

/// Trim whitespace from both ends of a character vector.
pub fn trim_chars(v: &Vec<char>) -> (r: Vec<char>)
    ensures
        r@ == trim_spec(v@),
{
    proof {
        lemma_leading_spaces_bound(v@);
        lemma_trailing_spaces_bound(v@);
    }
    let mut lo: usize = 0;
    while lo < v.len() && (v[lo] == ' ' || v[lo] == '\t' || v[lo] == '\n' || v[lo] == '\r')
        invariant
            lo <= v@.len(),
            forall|k: int| 0 <= k < lo ==> is_space(v@[k]),
            lo <= leading_spaces(v@),
        decreases v@.len() - lo,
    {
        proof {
            lemma_leading_spaces_bound(v@);
            if lo + 1 > leading_spaces(v@) {
                assert(!is_space(v@[leading_spaces(v@)]));
            }
        }
        lo = lo + 1;
    }
    proof {
        lemma_leading_spaces_bound(v@);
        assert(lo == leading_spaces(v@));
    }
    if lo == v.len() {
        let r: Vec<char> = Vec::new();
        proof {
            assert(trim_spec(v@) =~= r@);
        }
        return r;
    }
    let mut hi: usize = v.len();
    while hi > lo && (v[hi - 1] == ' ' || v[hi - 1] == '\t' || v[hi - 1] == '\n' || v[hi - 1]
        == '\r')
        invariant
            lo < v@.len(),
            lo == leading_spaces(v@),
            lo <= hi <= v@.len(),
            forall|k: int| hi <= k < v@.len() ==> is_space(v@[k]),
            v@.len() - hi <= trailing_spaces(v@),
        decreases hi,
    {
        proof {
            lemma_trailing_spaces_bound(v@);
            if v@.len() - (hi - 1) > trailing_spaces(v@) {
                assert(!is_space(v@[v@.len() - trailing_spaces(v@) - 1]));
            }
        }
        hi = hi - 1;
    }
    proof {
        lemma_trailing_spaces_bound(v@);
        lemma_leading_spaces_bound(v@);
        assert(!is_space(v@[lo as int]));
        assert(hi > lo);
        assert(v@.len() - hi == trailing_spaces(v@));
    }
    let mut r: Vec<char> = Vec::new();
    let mut i: usize = lo;
    while i < hi
        invariant
            lo <= i <= hi <= v@.len(),
            r@ == v@.subrange(lo as int, i as int),
        decreases hi - i,
    {
        r.push(v[i]);
        i = i + 1;
        proof {
            assert(r@ =~= v@.subrange(lo as int, i as int));
        }
    }
    proof {
        assert(r@ =~= trim_spec(v@));
    }
    r
}

/// Split a sequence at every newline; the separators are not kept.
pub open spec fn split_lines(s: Seq<char>) -> Seq<Seq<char>>
    decreases s.len(),
{
    if s.len() == 0 {
        seq![Seq::empty()]
    } else if s[0] == '\n' {
        seq![Seq::<char>::empty()] + split_lines(s.skip(1))
    } else {
        let rest = split_lines(s.skip(1));
        seq![seq![s[0]] + rest[0]] + rest.skip(1)
    }
}

pub proof fn lemma_split_lines_len(s: Seq<char>)
    ensures
        split_lines(s).len() >= 1,
    decreases s.len(),
{
    if s.len() > 0 {
        lemma_split_lines_len(s.skip(1));
    }
}

/// Join a sequence of lines with newlines.
pub open spec fn join_lines(lines: Seq<Seq<char>>) -> Seq<char>
    decreases lines.len(),
{
    if lines.len() == 0 {
        Seq::empty()
    } else if lines.len() == 1 {
        lines[0]
    } else {
        lines[0] + seq!['\n'] + join_lines(lines.skip(1))
    }
}

/// A line with no interior newline.
pub open spec fn line_ok(l: Seq<char>) -> bool {
    forall|k: int| 0 <= k < l.len() ==> l[k] != '\n'
}

/// All lines are free of newlines.
pub open spec fn lines_ok(lines: Seq<Seq<char>>) -> bool {
    forall|i: int| 0 <= i < lines.len() ==> line_ok(#[trigger] lines[i])
}

proof fn lemma_split_prepend(l: Seq<char>, rest: Seq<char>)
    requires
        line_ok(l),
    ensures
        split_lines(l + rest) == seq![l + split_lines(rest)[0]] + split_lines(rest).skip(1),
    decreases l.len(),
{
    lemma_split_lines_len(rest);
    if l.len() == 0 {
        assert(l + rest =~= rest);
        assert(l + split_lines(rest)[0] =~= split_lines(rest)[0]);
        lemma_split_lines_len(l + rest);
        assert(split_lines(rest) =~= seq![split_lines(rest)[0]] + split_lines(rest).skip(1));
    } else {
        let s = l + rest;
        assert(s[0] == l[0]);
        assert(s[0] != '\n');
        assert(s.skip(1) =~= l.skip(1) + rest);
        assert(line_ok(l.skip(1)));
        lemma_split_prepend(l.skip(1), rest);
        let subrest = split_lines(l.skip(1) + rest);
        assert(split_lines(s) == seq![seq![s[0]] + subrest[0]] + subrest.skip(1));
        assert(subrest[0] == l.skip(1) + split_lines(rest)[0]);
        assert(seq![s[0]] + subrest[0] =~= l + split_lines(rest)[0]);
        assert(subrest.skip(1) == split_lines(rest).skip(1));
    }
}

/// Splitting what `join_lines` built gives back the lines.
pub proof fn lemma_split_join(lines: Seq<Seq<char>>)
    requires
        lines.len() >= 1,
        lines_ok(lines),
    ensures
        split_lines(join_lines(lines)) == lines,
    decreases lines.len(),
{
    if lines.len() == 1 {
        lemma_split_single(lines[0]);
        assert(join_lines(lines) == lines[0]);
        assert(split_lines(join_lines(lines)) =~= lines);
    } else {
        let tail = lines.skip(1);
        assert(lines_ok(tail));
        lemma_split_join(tail);
        let j = join_lines(lines);
        assert(j == lines[0] + seq!['\n'] + join_lines(tail));
        assert(j =~= lines[0] + (seq!['\n'] + join_lines(tail)));
        assert(line_ok(lines[0]));
        lemma_split_prepend(lines[0], seq!['\n'] + join_lines(tail));
        let r = split_lines(seq!['\n'] + join_lines(tail));
        assert((seq!['\n'] + join_lines(tail))[0] == '\n');
        assert((seq!['\n'] + join_lines(tail)).skip(1) =~= join_lines(tail));
        assert(r == seq![Seq::<char>::empty()] + split_lines(join_lines(tail)));
        assert(r == seq![Seq::<char>::empty()] + tail);
        assert(r[0] =~= Seq::<char>::empty());
        assert(lines[0] + r[0] =~= lines[0]);
        assert(r.skip(1) =~= tail);
        assert(split_lines(j) =~= lines);
    }
}

proof fn lemma_split_single(l: Seq<char>)
    requires
        line_ok(l),
    ensures
        split_lines(l) == seq![l],
    decreases l.len(),
{
    if l.len() > 0 {
        lemma_split_single(l.skip(1));
        let rest = split_lines(l.skip(1));
        assert(rest[0] == l.skip(1));
        assert(seq![l[0]] + rest[0] =~= l);
        assert(rest.skip(1) =~= Seq::<Seq<char>>::empty());
        assert(split_lines(l) =~~= seq![l]);
    } else {
        assert(l =~= Seq::<char>::empty());
        assert(split_lines(l) =~~= seq![l]);
    }
}

/// The character views of a sequence of vectors.
pub open spec fn seq_views(s: Seq<Vec<char>>) -> Seq<Seq<char>> {
    s.map_values(|v: Vec<char>| v@)
}

/// Append every character of `src` to `dst`.
pub fn extend_chars(dst: &mut Vec<char>, src: &Vec<char>)
    ensures
        final(dst)@ == old(dst)@ + src@,
{
    let mut k: usize = 0;
    while k < src.len()
        invariant
            k <= src@.len(),
            dst@ == old(dst)@ + src@.subrange(0, k as int),
        decreases src@.len() - k,
    {
        dst.push(src[k]);
        k = k + 1;
        proof {
            assert(dst@ =~= old(dst)@ + src@.subrange(0, k as int));
        }
    }
    proof {
        assert(dst@ =~= old(dst)@ + src@);
    }
}

/// Split a character vector into its lines.
pub fn split_lines_exec(v: &Vec<char>) -> (r: Vec<Vec<char>>)
    ensures
        seq_views(r@) == split_lines(v@),
        r@.len() >= 1,
{
    let mut out: Vec<Vec<char>> = Vec::new();
    let mut cur: Vec<char> = Vec::new();
    let mut i: usize = 0;
    proof {
        assert(v@.skip(0) =~= v@);
    }
    while i < v.len()
        invariant
            i <= v@.len(),
            seq_views(out@) + seq![cur@ + split_lines(v@.skip(i as int))[0]] + split_lines(
                v@.skip(i as int),
            ).skip(1) == split_lines(v@),
        decreases v@.len() - i,
    {
        let c = v[i];
        proof {
            lemma_split_lines_len(v@.skip(i + 1));
            assert(v@.skip(i as int)[0] == v@[i as int]);
            assert(v@.skip(i as int).skip(1) =~= v@.skip(i + 1));
        }
        let ghost tail = v@.skip(i as int);
        let ghost tail1 = v@.skip(i + 1);
        if c == '\n' {
            let done = cur;
            cur = Vec::new();
            out.push(done);
            proof {
                assert(split_lines(tail) == seq![Seq::<char>::empty()] + split_lines(tail1));
                assert(split_lines(tail)[0] =~= Seq::<char>::empty());
                assert(split_lines(tail).skip(1) =~= split_lines(tail1));
                assert(split_lines(tail1) =~= seq![split_lines(tail1)[0]] + split_lines(
                    tail1,
                ).skip(1));
                assert(seq_views(out@) + seq![cur@ + split_lines(tail1)[0]] + split_lines(
                    tail1,
                ).skip(1) =~= split_lines(v@));
            }
        } else {
            let ghost oc = cur@;
            cur.push(c);
            proof {
                assert(split_lines(tail) == seq![seq![v@[i as int]] + split_lines(tail1)[0]]
                    + split_lines(tail1).skip(1));
                assert(split_lines(tail).skip(1) =~= split_lines(tail1).skip(1));
                assert(cur@ + split_lines(tail1)[0] =~= oc + split_lines(tail)[0]);
                assert(seq_views(out@) + seq![cur@ + split_lines(tail1)[0]] + split_lines(
                    tail1,
                ).skip(1) =~= split_lines(v@));
            }
        }
        i = i + 1;
    }
    proof {
        assert(v@.skip(v@.len() as int) =~= Seq::<char>::empty());
        assert(split_lines(v@.skip(v@.len() as int)) == seq![Seq::<char>::empty()]);
    }
    out.push(cur);
    proof {
        assert(seq_views(out@) =~= split_lines(v@));
    }
    out
}

proof fn lemma_join_snoc(lines: Seq<Seq<char>>, x: Seq<char>)
    requires
        lines.len() >= 1,
    ensures
        join_lines(lines.push(x)) == join_lines(lines) + seq!['\n'] + x,
    decreases lines.len(),
{
    if lines.len() == 1 {
        let p = lines.push(x);
        assert(p.len() == 2);
        assert(p[0] == lines[0]);
        assert(p.skip(1) =~= seq![x]);
        assert(join_lines(p.skip(1)) == x);
    } else {
        lemma_join_snoc(lines.skip(1), x);
        let p = lines.push(x);
        assert(p[0] == lines[0]);
        assert(p.skip(1) =~= lines.skip(1).push(x));
        assert(join_lines(p) == p[0] + seq!['\n'] + join_lines(lines.skip(1).push(x)));
        assert(join_lines(lines) + seq!['\n'] + x =~= p[0] + seq!['\n'] + (join_lines(
            lines.skip(1),
        ) + seq!['\n'] + x));
    }
}

/// Join lines with newlines, executable form.
pub fn join_lines_exec(lines: &Vec<Vec<char>>) -> (r: Vec<char>)
    requires
        lines@.len() >= 1,
    ensures
        r@ == join_lines(seq_views(lines@)),
{
    let mut r: Vec<char> = Vec::new();
    extend_chars(&mut r, &lines[0]);
    proof {
        assert(seq_views(lines@).take(1) =~= seq![lines@[0]@]);
        assert(join_lines(seq_views(lines@).take(1)) == lines@[0]@);
        assert(r@ =~= lines@[0]@);
    }
    let mut i: usize = 1;
    while i < lines.len()
        invariant
            1 <= i <= lines@.len(),
            r@ == join_lines(seq_views(lines@).take(i as int)),
        decreases lines@.len() - i,
    {
        r.push('\n');
        extend_chars(&mut r, &lines[i]);
        proof {
            let sv = seq_views(lines@);
            lemma_join_snoc(sv.take(i as int), sv[i as int]);
            assert(sv.take(i as int).push(sv[i as int]) =~= sv.take(i + 1));
            assert(r@ =~= join_lines(sv.take(i as int)) + seq!['\n'] + sv[i as int]);
        }
        i = i + 1;
    }
    proof {
        assert(seq_views(lines@).take(lines@.len() as int) =~= seq_views(lines@));
    }
    r
}

/// Joining distributes over concatenation, with a separating newline.
pub proof fn lemma_join_concat(a: Seq<Seq<char>>, b: Seq<Seq<char>>)
    requires
        a.len() >= 1,
        b.len() >= 1,
    ensures
        join_lines(a + b) == join_lines(a) + seq!['\n'] + join_lines(b),
    decreases a.len(),
{
    if a.len() == 1 {
        let c = a + b;
        assert(c[0] == a[0]);
        assert(c.skip(1) =~= b);
        assert(join_lines(c) == c[0] + seq!['\n'] + join_lines(b));
        assert(join_lines(a) == a[0]);
    } else {
        lemma_join_concat(a.skip(1), b);
        let c = a + b;
        assert(c[0] == a[0]);
        assert(c.skip(1) =~= a.skip(1) + b);
        assert(join_lines(c) == c[0] + seq!['\n'] + join_lines(a.skip(1) + b));
        assert(join_lines(a) + seq!['\n'] + join_lines(b) =~= a[0] + seq!['\n'] + (join_lines(
            a.skip(1),
        ) + seq!['\n'] + join_lines(b)));
    }
}

/// Joining what `split_lines` produced gives back the text.
pub proof fn lemma_join_split(s: Seq<char>)
    ensures
        join_lines(split_lines(s)) == s,
    decreases s.len(),
{
    lemma_split_lines_len(s);
    if s.len() == 0 {
    } else if s[0] == '\n' {
        lemma_join_split(s.skip(1));
        lemma_split_lines_len(s.skip(1));
        let parts = seq![Seq::<char>::empty()] + split_lines(s.skip(1));
        lemma_join_concat(seq![Seq::<char>::empty()], split_lines(s.skip(1)));
        assert(join_lines(seq![Seq::<char>::empty()]) == Seq::<char>::empty());
        assert(join_lines(parts) =~= s);
    } else {
        lemma_join_split(s.skip(1));
        let rest = split_lines(s.skip(1));
        let parts = seq![seq![s[0]] + rest[0]] + rest.skip(1);
        if rest.len() == 1 {
            assert(parts.len() == 1);
            assert(join_lines(parts) == parts[0]);
            assert(join_lines(rest) == rest[0]);
            assert(parts[0] =~= seq![s[0]] + join_lines(rest));
            assert(join_lines(parts) =~= s);
        } else {
            assert(parts[0] == seq![s[0]] + rest[0]);
            assert(parts.skip(1) =~= rest.skip(1));
            assert(join_lines(parts) == parts[0] + seq!['\n'] + join_lines(rest.skip(1)));
            assert(join_lines(rest) == rest[0] + seq!['\n'] + join_lines(rest.skip(1)));
            assert(join_lines(parts) =~= seq![s[0]] + join_lines(rest));
            assert(seq![s[0]] + join_lines(rest) =~= s);
        }
    }
}

/// No line of a split holds a newline.
pub proof fn lemma_split_lines_ok(s: Seq<char>)
    ensures
        lines_ok(split_lines(s)),
    decreases s.len(),
{
    lemma_split_lines_len(s);
    if s.len() == 0 {
        assert forall|i: int| 0 <= i < split_lines(s).len() implies line_ok(
            #[trigger] split_lines(s)[i],
        ) by {}
    } else if s[0] == '\n' {
        lemma_split_lines_ok(s.skip(1));
        let parts = seq![Seq::<char>::empty()] + split_lines(s.skip(1));
        assert forall|i: int| 0 <= i < parts.len() implies line_ok(#[trigger] parts[i]) by {
            if i > 0 {
                assert(parts[i] == split_lines(s.skip(1))[i - 1]);
            }
        }
    } else {
        lemma_split_lines_ok(s.skip(1));
        let rest = split_lines(s.skip(1));
        let parts = seq![seq![s[0]] + rest[0]] + rest.skip(1);
        assert forall|i: int| 0 <= i < parts.len() implies line_ok(#[trigger] parts[i]) by {
            if i == 0 {
                assert(line_ok(rest[0]));
                assert(forall|k: int| 0 <= k < parts[0].len() ==> parts[0][k] != '\n') by {
                    assert(forall|k: int| 1 <= k < parts[0].len() ==> parts[0][k] == rest[0][k
                        - 1]);
                }
            } else {
                assert(parts[i] == rest[i]);
            }
        }
    }
}

/// Powers of ten.
pub open spec fn pow10(k: nat) -> int
    decreases k,
{
    if k == 0 {
        1
    } else {
        10 * pow10((k - 1) as nat)
    }
}

/// A number below `10^k` has at most `k` digits.
pub proof fn lemma_dec_str_len(n: int, k: nat)
    requires
        0 <= n < pow10(k),
        k >= 1,
    ensures
        dec_str(n).len() <= k,
    decreases n,
{
    if n < 10 {
    } else {
        assert(pow10(k) == 10 * pow10((k - 1) as nat));
        assert(n / 10 < pow10((k - 1) as nat)) by (nonlinear_arith)
            requires
                n < 10 * pow10((k - 1) as nat),
                n >= 10,
        ;
        assert(pow10((k - 1) as nat) >= 1) by {
            lemma_pow10_pos((k - 1) as nat);
        }
        assert(k >= 2) by {
            if k == 1 {
                assert(pow10(1nat) == 10);
            }
        }
        lemma_dec_str_len(n / 10, (k - 1) as nat);
    }
}

/// Powers of ten are positive.
pub proof fn lemma_pow10_pos(k: nat)
    ensures
        pow10(k) >= 1,
    decreases k,
{
    if k > 0 {
        lemma_pow10_pos((k - 1) as nat);
    }
}

/// Does `v` start with `p`?
pub fn starts_with_chars(v: &Vec<char>, p: &Vec<char>) -> (r: bool)
    ensures
        r == is_prefix(p@, v@),
{
    if p.len() > v.len() {
        return false;
    }
    let mut i: usize = 0;
    while i < p.len()
        invariant
            p@.len() <= v@.len(),
            i <= p@.len(),
            forall|k: int| 0 <= k < i ==> v@[k] == p@[k],
        decreases p@.len() - i,
    {
        if v[i] != p[i] {
            proof {
                assert(v@.subrange(0, p@.len() as int)[i as int] == v@[i as int]);
            }
            return false;
        }
        i = i + 1;
    }
    proof {
        assert(v@.subrange(0, p@.len() as int) =~= p@);
    }
    true
}

/// Copy the range `[lo, hi)` of a character vector.
pub fn slice_range(v: &Vec<char>, lo: usize, hi: usize) -> (r: Vec<char>)
    requires
        lo <= hi <= v@.len(),
    ensures
        r@ == v@.subrange(lo as int, hi as int),
{
    let mut r: Vec<char> = Vec::new();
    let mut i: usize = lo;
    while i < hi
        invariant
            lo <= i <= hi <= v@.len(),
            r@ == v@.subrange(lo as int, i as int),
        decreases hi - i,
    {
        r.push(v[i]);
        i = i + 1;
        proof {
            assert(r@ =~= v@.subrange(lo as int, i as int));
        }
    }
    r
}

/// A decimal digit.
pub open spec fn is_digit(c: char) -> bool {
    '0' <= c && c <= '9'
}

/// The numeric value of a digit character.
pub open spec fn digit_val(c: char) -> int {
    c as int - '0' as int
}

/// Every character is a decimal digit.
pub open spec fn all_digits(s: Seq<char>) -> bool {
    forall|k: int| 0 <= k < s.len() ==> is_digit(#[trigger] s[k])
}

/// The value of a digit string, folded from the left.
pub open spec fn dec_val_acc(s: Seq<char>, acc: int) -> int
    decreases s.len(),
{
    if s.len() == 0 {
        acc
    } else {
        dec_val_acc(s.skip(1), acc * 10 + digit_val(s[0]))
    }
}

/// The value of a digit string.
pub open spec fn dec_val(s: Seq<char>) -> int {
    dec_val_acc(s, 0)
}

/// Reading digits never decreases the accumulated value.
pub proof fn lemma_dec_val_acc_mono(s: Seq<char>, acc: int)
    requires
        all_digits(s),
        acc >= 0,
    ensures
        dec_val_acc(s, acc) >= acc,
        dec_val_acc(s, acc) >= 0,
    decreases s.len(),
{
    if s.len() > 0 {
        assert(is_digit(s[0]));
        assert(all_digits(s.skip(1))) by {
            assert(forall|k: int| 0 <= k < s.skip(1).len() ==> s.skip(1)[k] == s[k + 1]);
        }
        lemma_dec_val_acc_mono(s.skip(1), acc * 10 + digit_val(s[0]));
    }
}

/// Appending one digit multiplies the value by ten and adds the digit.
pub proof fn lemma_dec_val_acc_snoc(s: Seq<char>, c: char, acc: int)
    ensures
        dec_val_acc(s.push(c), acc) == dec_val_acc(s, acc) * 10 + digit_val(c),
    decreases s.len(),
{
    if s.len() == 0 {
        assert(s.push(c)[0] == c);
        assert(s.push(c).skip(1) =~= Seq::<char>::empty());
        assert(dec_val_acc(s.push(c).skip(1), acc * 10 + digit_val(c)) == acc * 10 + digit_val(
            c,
        ));
    } else {
        assert(s.push(c)[0] == s[0]);
        assert(s.push(c).skip(1) =~= s.skip(1).push(c));
        lemma_dec_val_acc_snoc(s.skip(1), c, acc * 10 + digit_val(s[0]));
    }
}

/// The digit character for a value below ten.
pub open spec fn digit_char(d: int) -> char {
    ((48 + d) as u8) as char
}

/// The canonical decimal digits of a natural number.
pub open spec fn dec_str(n: int) -> Seq<char>
    decreases n,
{
    if n <= 0 {
        seq![digit_char(0)]
    } else if n < 10 {
        seq![digit_char(n)]
    } else {
        dec_str(n / 10).push(digit_char(n % 10))
    }
}

/// Facts about a digit character for a value below ten.
pub proof fn lemma_digit_char(d: int)
    requires
        0 <= d < 10,
    ensures
        is_digit(digit_char(d)),
        digit_val(digit_char(d)) == d,
{
}

/// The canonical digits evaluate back to the number.
pub proof fn lemma_dec_str_val(n: int)
    requires
        n >= 0,
    ensures
        dec_str(n).len() >= 1,
        all_digits(dec_str(n)),
        dec_val(dec_str(n)) == n,
    decreases n,
{
    if n < 10 {
        lemma_digit_char(if n <= 0 {
            0
        } else {
            n
        });
        let s = dec_str(n);
        assert(s.skip(1) =~= Seq::<char>::empty());
        assert(dec_val_acc(s.skip(1), 0 * 10 + digit_val(s[0])) == 0 * 10 + digit_val(s[0]));
        assert(dec_val_acc(s, 0) == digit_val(s[0]));
    } else {
        lemma_dec_str_val(n / 10);
        lemma_digit_char(n % 10);
        lemma_dec_val_acc_snoc(dec_str(n / 10), digit_char(n % 10), 0);
        assert(all_digits(dec_str(n))) by {
            let p = dec_str(n / 10);
            let w = p.push(digit_char(n % 10));
            assert(forall|k: int| 0 <= k < p.len() ==> w[k] == p[k]);
        }
        assert(n / 10 * 10 + n % 10 == n) by (nonlinear_arith)
            requires
                n >= 10,
        ;
    }
}

/// Left-pad a digit string with zeros up to width `w`.
pub open spec fn zero_pad(s: Seq<char>, w: int) -> Seq<char>
    decreases w - s.len(),
{
    if s.len() >= w {
        s
    } else {
        zero_pad(seq![digit_char(0)] + s, w)
    }
}

/// Padding preserves the numeric value and sets the length.
pub proof fn lemma_zero_pad(s: Seq<char>, w: int)
    requires
        all_digits(s),
    ensures
        zero_pad(s, w).len() == if s.len() >= w {
            s.len() as int
        } else {
            w
        },
        all_digits(zero_pad(s, w)),
        dec_val(zero_pad(s, w)) == dec_val(s),
    decreases w - s.len(),
{
    if s.len() < w {
        lemma_digit_char(0);
        let p = seq![digit_char(0)] + s;
        assert(all_digits(p)) by {
            assert(forall|k: int| 1 <= k < p.len() ==> p[k] == s[k - 1]);
        }
        assert(p[0] == digit_char(0));
        assert(p.skip(1) =~= s);
        assert(dec_val(p) == dec_val_acc(s, 0));
        lemma_zero_pad(p, w);
    }
}

/// Parse a digit string into a number, rejecting empty input,
/// non-digits, and values above `u32::MAX`.
pub fn parse_u32_chars(v: &Vec<char>) -> (r: Option<u32>)
    ensures
        match r {
            Some(k) => v@.len() >= 1 && all_digits(v@) && k as int == dec_val(v@),
            None => v@.len() == 0 || !all_digits(v@) || dec_val(v@) > u32::MAX,
        },
{
    if v.len() == 0 {
        return None;
    }
    let mut val: u32 = 0;
    let mut i: usize = 0;
    while i < v.len()
        invariant
            v@.len() >= 1,
            i <= v@.len(),
            all_digits(v@.take(i as int)),
            val as int == dec_val(v@.take(i as int)),
        decreases v@.len() - i,
    {
        let c = v[i];
        if !('0' <= c && c <= '9') {
            return None;
        }
        let d = (c as u32) - 48;
        proof {
            assert(digit_val(c) == d);
            lemma_dec_val_acc_snoc(v@.take(i as int), c, 0);
            assert(v@.take(i + 1) =~= v@.take(i as int).push(c));
        }
        if val > (u32::MAX - d) / 10 {
            // The value can only grow from here on.
            proof {
                assert(val as int * 10 + d > u32::MAX) by (nonlinear_arith)
                    requires
                        val as int > (u32::MAX as int - d) / 10,
                        0 <= d < 10,
                ;
                if all_digits(v@) {
                    lemma_dec_val_acc_mono(v@.skip(i + 1), dec_val(v@.take(i + 1)) );
                    lemma_dec_val_take_skip(v@, i + 1);
                }
            }
            return None;
        }
        val = val * 10 + d;
        i = i + 1;
    }
    proof {
        assert(v@.take(v@.len() as int) =~= v@);
    }
    Some(val)
}

/// The value of a full string folds through any split point.
pub proof fn lemma_dec_val_take_skip(s: Seq<char>, i: int)
    requires
        0 <= i <= s.len(),
    ensures
        dec_val(s) == dec_val_acc(s.skip(i), dec_val(s.take(i))),
    decreases i,
{
    if i > 0 {
        lemma_dec_val_take_skip(s, i - 1);
        // One step: moving s[i-1] from the remainder into the prefix.
        let p = s.take(i - 1);
        lemma_dec_val_acc_snoc(p, s[i - 1], 0);
        assert(s.take(i) =~= p.push(s[i - 1]));
        assert(s.skip(i - 1)[0] == s[i - 1]);
        assert(s.skip(i - 1).skip(1) =~= s.skip(i));
        assert(dec_val_acc(s.skip(i - 1), dec_val(p)) == dec_val_acc(
            s.skip(i),
            dec_val(p) * 10 + digit_val(s[i - 1]),
        ));
    } else {
        assert(s.skip(0) =~= s);
        assert(s.take(0) =~= Seq::<char>::empty());
    }
}

/// Parse a digit string into a machine-sized number, rejecting empty
/// input, non-digits, and values above `usize::MAX`.
pub fn parse_usize_chars(v: &Vec<char>) -> (r: Option<usize>)
    ensures
        match r {
            Some(k) => v@.len() >= 1 && all_digits(v@) && k as int == dec_val(v@),
            None => v@.len() == 0 || !all_digits(v@) || dec_val(v@) > usize::MAX,
        },
{
    if v.len() == 0 {
        return None;
    }
    let mut val: usize = 0;
    let mut i: usize = 0;
    while i < v.len()
        invariant
            v@.len() >= 1,
            i <= v@.len(),
            all_digits(v@.take(i as int)),
            val as int == dec_val(v@.take(i as int)),
        decreases v@.len() - i,
    {
        let c = v[i];
        if !('0' <= c && c <= '9') {
            return None;
        }
        let d = ((c as u32) - 48) as usize;
        proof {
            assert(digit_val(c) == d);
            lemma_dec_val_acc_snoc(v@.take(i as int), c, 0);
            assert(v@.take(i + 1) =~= v@.take(i as int).push(c));
        }
        if val > (usize::MAX - d) / 10 {
            // The value can only grow from here on.
            proof {
                assert(val as int * 10 + d > usize::MAX) by (nonlinear_arith)
                    requires
                        val as int > (usize::MAX as int - d) / 10,
                        0 <= d < 10,
                ;
                if all_digits(v@) {
                    lemma_dec_val_acc_mono(v@.skip(i + 1), dec_val(v@.take(i + 1)));
                    lemma_dec_val_take_skip(v@, i + 1);
                }
            }
            return None;
        }
        val = val * 10 + d;
        i = i + 1;
    }
    proof {
        assert(v@.take(v@.len() as int) =~= v@);
    }
    Some(val)
}

/// The canonical digits of a number carry no leading zero.
pub proof fn lemma_dec_str_no_leading_zero(n: int)
    requires
        n >= 0,
    ensures
        dec_str(n).len() > 1 ==> dec_str(n)[0] != '0',
    decreases n,
{
    if n >= 10 {
        lemma_dec_str_no_leading_zero(n / 10);
        lemma_dec_str_val(n / 10);
        assert(dec_str(n) == dec_str(n / 10).push(digit_char(n % 10)));
        assert(dec_str(n)[0] == dec_str(n / 10)[0]);
        if dec_str(n / 10).len() == 1 {
            assert(n / 10 >= 1);
            if n / 10 >= 10 {
                lemma_dec_str_val(n / 10 / 10);
                assert(dec_str(n / 10) == dec_str(n / 10 / 10).push(digit_char(n / 10 % 10)));
                assert(dec_str(n / 10).len() >= 2);
                assert(false);
            }
            assert(dec_str(n / 10) == seq![digit_char(n / 10)]);
            lemma_digit_char(n / 10);
            assert(digit_val(digit_char(n / 10)) >= 1);
            assert(digit_val('0') == 0);
            assert(dec_str(n / 10)[0] != '0');
        }
    }
}

/// Render a number as its canonical decimal digits.
pub fn format_u32(n: u32) -> (r: Vec<char>)
    ensures
        r@ == dec_str(n as int),
{
    if n == 0 {
        let mut r: Vec<char> = Vec::new();
        r.push('0');
        proof {
            assert(digit_char(0) == '0') by {
                lemma_digit_char(0);
                vstd::utf8::char_u32_cast((48 as u8) as char, 48);
            }
            assert(r@ =~= dec_str(0));
        }
        return r;
    }
    let mut cur = n;
    let mut acc: Vec<char> = Vec::new();
    proof {
        assert(dec_str(n as int) =~= dec_str(n as int) + acc@);
    }
    while cur > 0
        invariant
            n > 0,
            cur > 0 ==> dec_str(n as int) == dec_str(cur as int) + acc@,
            cur == 0 ==> dec_str(n as int) == acc@,
        decreases cur,
    {
        let d = cur % 10;
        let c = ((48 + d) as u8) as char;
        proof {
            assert(c == digit_char(d as int));
        }
        let ghost oacc = acc@;
        acc.insert(0, c);
        let ghost prev = cur;
        cur = cur / 10;
        proof {
            assert(acc@ =~= seq![c] + oacc);
            if prev >= 10 {
                assert(dec_str(prev as int) == dec_str(prev as int / 10).push(
                    digit_char(prev as int % 10),
                ));
                assert(dec_str(prev as int) + oacc =~= dec_str(cur as int) + (seq![c] + oacc));
                assert(dec_str(cur as int) + acc@ =~= dec_str(n as int));
            } else {
                assert(cur == 0);
                assert(dec_str(prev as int) == seq![c]);
                assert(dec_str(prev as int) + oacc =~= seq![c] + oacc);
                assert(acc@ =~= dec_str(n as int));
            }
        }
    }
    acc
}

} // verus!
