use vstd::prelude::*;

verus! {

/// `s` ends with `suffix`.
pub open spec fn ends_with(s: Seq<char>, suffix: Seq<char>) -> bool {
    s.len() >= suffix.len() && s.subrange(s.len() - suffix.len(), s.len() as int) == suffix
}

/// The contents of a sequence of strings.
pub open spec fn views(v: Seq<String>) -> Seq<Seq<char>> {
    v.map_values(|s: String| s@)
}

/// The note-file extension, with its dot.
pub open spec fn md_ext() -> Seq<char> {
    seq!['.', 'm', 'd']
}

/// A path (relative, slash-separated) names a markdown note: its file name
/// has the `md` extension, and is not the bare dot-file `.md`.
pub open spec fn is_note_path(p: Seq<char>) -> bool {
    ends_with(p, md_ext()) && p != md_ext() && !ends_with(p, seq!['/'] + md_ext())
}

/// The identifier of a note: its relative path without the extension.
pub open spec fn identifier_of(p: Seq<char>) -> Seq<char> {
    p.subrange(0, p.len() - 3)
}

/// Distinct note paths have distinct identifiers.
pub proof fn lemma_identifier_injective(p: Seq<char>, q: Seq<char>)
    requires
        is_note_path(p),
        is_note_path(q),
        identifier_of(p) == identifier_of(q),
    ensures
        p == q,
{
    assert(p =~= identifier_of(p) + md_ext());
    assert(q =~= identifier_of(q) + md_ext());
}

/// Membership in a sequence with one more element.
pub(crate) proof fn lemma_contains_push<A>(s: Seq<A>, x: A, y: A)
    ensures
        s.push(x).contains(y) <==> (s.contains(y) || y == x),
{
    if s.contains(y) {
        let j = choose|j: int| 0 <= j < s.len() && s[j] == y;
        assert(s.push(x)[j] == y);
    }
    if y == x {
        assert(s.push(x)[s.len() as int] == y);
    }
    if s.push(x).contains(y) {
        let j = choose|j: int| 0 <= j < s.push(x).len() && s.push(x)[j] == y;
        if j < s.len() {
            assert(s[j] == y);
        }
    }
}

/// Membership in a concatenation.
pub(crate) proof fn lemma_contains_add<A>(a: Seq<A>, b: Seq<A>, y: A)
    ensures
        (a + b).contains(y) <==> (a.contains(y) || b.contains(y)),
{
    if a.contains(y) {
        let j = choose|j: int| 0 <= j < a.len() && a[j] == y;
        assert((a + b)[j] == y);
    }
    if b.contains(y) {
        let j = choose|j: int| 0 <= j < b.len() && b[j] == y;
        assert((a + b)[a.len() + j] == y);
    }
    if (a + b).contains(y) {
        let j = choose|j: int| 0 <= j < (a + b).len() && (a + b)[j] == y;
        if j < a.len() {
            assert(a[j] == y);
        } else {
            assert(b[j - a.len()] == y);
        }
    }
}

/// Exec test of `ends_with`.
pub fn has_suffix(s: &str, suffix: &str) -> (r: bool)
    ensures
        r == ends_with(s@, suffix@),
{
    let n = s.unicode_len();
    let k = suffix.unicode_len();
    if k > n {
        return false;
    }
    let base = n - k;
    let mut i: usize = 0;
    while i < k
        invariant
            n == s@.len(),
            k == suffix@.len(),
            base == n - k,
            i <= k,
            forall|j: int| 0 <= j < i ==> s@[base + j] == suffix@[j],
        decreases k - i,
    {
        if s.get_char(base + i) != suffix.get_char(i) {
            assert(s@.subrange(base as int, n as int)[i as int] != suffix@[i as int]);
            return false;
        }
        i = i + 1;
    }
    assert(s@.subrange(base as int, n as int) =~= suffix@);
    true
}

/// Whether the relative path `p` names a note file.
pub fn is_note_file(p: &str) -> (r: bool)
    ensures
        r == is_note_path(p@),
{
    proof {
        reveal_strlit(".md");
        reveal_strlit("/.md");
        assert(".md"@ =~= md_ext());
        assert("/.md"@ =~= seq!['/'] + md_ext());
    }
    let md = has_suffix(p, ".md");
    let dot_md = has_suffix(p, "/.md");
    let bare = p.unicode_len() == 3;
    proof {
        if md && bare {
            assert(p@ =~= p@.subrange(0, 3));
        }
    }
    md && !dot_md && !bare
}

/// The identifier of the note at relative path `p`, or `None` where `p` names
/// no note file.
pub fn note_identifier(p: &str) -> (r: Option<String>)
    ensures
        r matches Some(id) <==> is_note_path(p@),
        r matches Some(id) ==> id@ == identifier_of(p@),
{
    if is_note_file(p) {
        let n = p.unicode_len();
        Some(p.substring_char(0, n - 3).to_owned())
    } else {
        None
    }
}

} // verus!
