use vstd::prelude::*;
use crate::ident::views;

verus! {

/// A square bracket.
pub open spec fn is_bracket(c: char) -> bool {
    c == '[' || c == ']'
}

/// Length of the run of characters other than square brackets that starts at
/// position `i` of `t`.
pub open spec fn run_len(t: Seq<char>, i: int) -> nat
    decreases t.len() - i,
{
    if i < 0 || i >= t.len() || is_bracket(t[i]) {
        0
    } else {
        1 + run_len(t, i + 1)
    }
}

/// A link `[[capture]]` starts at position `i` of `t`: two opening brackets,
/// a non-empty run without brackets, two closing brackets.
pub open spec fn link_at(t: Seq<char>, i: int) -> bool {
    let n = run_len(t, i + 2);
    0 <= i && i + 3 + n < t.len() && t[i] == '[' && t[i + 1] == '[' && n > 0 && t[i + 2 + n]
        == ']' && t[i + 3 + n] == ']'
}

/// The captures of the links of `t` found by a left-to-right scan from
/// position `i`, each match resuming the scan right after it.
pub open spec fn links_from(t: Seq<char>, i: int) -> Seq<Seq<char>>
    decreases t.len() - i,
{
    if i < 0 || i >= t.len() {
        seq![]
    } else if link_at(t, i) {
        let n = run_len(t, i + 2);
        seq![t.subrange(i + 2, i + 2 + n)] + links_from(t, i + 4 + n)
    } else {
        links_from(t, i + 1)
    }
}

/// The captures of all links `[[capture]]` in a note body, in order of
/// occurrence.
pub open spec fn links_of(t: Seq<char>) -> Seq<Seq<char>> {
    links_from(t, 0)
}

/// Relies on `str::chars`: the characters of `s`, in order.
#[verifier::external_body]
fn chars_of(s: &str) -> (r: Vec<char>)
    ensures
        r@ == s@,
{
    s.chars().collect()
}

/// The captures of the links of a note body: each non-overlapping occurrence
/// of `[[capture]]`, where the capture is one or more characters other than
/// square brackets.
pub fn extract_links(text: &str) -> (r: Vec<String>)
    ensures
        views(r@) == links_of(text@),
{
    let t = chars_of(text);
    let n = t.len();
    let mut r: Vec<String> = Vec::new();
    let mut i: usize = 0;
    while i < n
        invariant
            n == t@.len(),
            t@ == text@,
            i <= n,
            views(r@) + links_from(text@, i as int) == links_of(text@),
        decreases n - i,
    {
        let ghost prev = views(r@);
        if i + 1 < n && t[i] == '[' && t[i + 1] == '[' {
            let start = i + 2;
            let mut j = start;
            while j < n && t[j] != '[' && t[j] != ']'
                invariant
                    n == t@.len(),
                    start <= j <= n,
                    run_len(t@, start as int) == (j - start) + run_len(t@, j as int),
                decreases n - j,
            {
                j = j + 1;
            }
            assert(run_len(t@, j as int) == 0);
            if j > start && j < n - 1 && t[j] == ']' && t[j + 1] == ']' {
                assert(link_at(t@, i as int));
                let cap = text.substring_char(start, j).to_owned();
                r.push(cap);
                assert(views(r@) =~= prev.push(t@.subrange(start as int, j as int)));
                assert(views(r@) + links_from(text@, j + 2) =~= prev + links_from(text@, i as int));
                i = j + 2;
                continue;
            }
            assert(!link_at(t@, i as int));
        }
        i = i + 1;
    }
    assert(views(r@) =~= links_of(text@));
    r
}

} // verus!
