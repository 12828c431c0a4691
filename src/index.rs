use vstd::prelude::*;
use vstd::seq_lib::{to_multiset_build, to_multiset_insert};
use crate::ident::{
    ends_with, has_suffix, identifier_of, is_note_file, is_note_path, lemma_contains_push, views,
};

verus! {

/// One entry of a directory, as the index builder sees it: its path relative
/// to the tree root, its kind, and its modification time (nanoseconds since
/// the Unix epoch).
pub struct Child {
    pub path: String,
    pub is_dir: bool,
    pub is_file: bool,
    pub modified: u128,
}

/// The name of the configuration directory, which is never indexed.
pub open spec fn config_dir_name() -> Seq<char> {
    seq!['.', 'z', 'e', 't', 't', 'l']
}

/// The file name of a directory's own index document.
pub open spec fn index_file_name() -> Seq<char> {
    seq!['_', 'i', 'n', 'd', 'e', 'x', '.', 'm', 'd']
}

/// What a subdirectory's entry appends to the subdirectory's path.
pub open spec fn index_suffix() -> Seq<char> {
    seq!['/', '_', 'i', 'n', 'd', 'e', 'x']
}

/// The relative path's first segment is hidden.
pub open spec fn is_hidden(p: Seq<char>) -> bool {
    p.len() > 0 && p[0] == '.'
}

/// The path's last segment is `name`.
pub open spec fn has_last_segment(p: Seq<char>, name: Seq<char>) -> bool {
    p == name || ends_with(p, seq!['/'] + name)
}

/// The child gets an entry in its directory's index.
pub open spec fn is_listed(c: Child) -> bool {
    !is_hidden(c.path@) && !has_last_segment(c.path@, config_dir_name()) && (c.is_dir || (
    c.is_file && is_note_path(c.path@) && !has_last_segment(c.path@, index_file_name())))
}

/// The entry of a listed child: a subdirectory links to its own index, a note
/// by its identifier.
pub open spec fn item_text(c: Child) -> Seq<char> {
    if c.is_dir {
        c.path@ + index_suffix()
    } else {
        identifier_of(c.path@)
    }
}

/// Places `x` in `t` after the children modified strictly later than it.
pub open spec fn place(x: Child, t: Seq<Child>) -> Seq<Child>
    decreases t.len(),
{
    if t.len() == 0 {
        seq![x]
    } else if t[0].modified > x.modified {
        seq![t[0]] + place(x, t.drop_first())
    } else {
        seq![x] + t
    }
}

/// The children ordered most recently modified first; children modified at
/// the same time keep their order.
pub open spec fn by_recency(s: Seq<Child>) -> Seq<Child>
    decreases s.len(),
{
    if s.len() == 0 {
        s
    } else {
        place(s[0], by_recency(s.drop_first()))
    }
}

/// The listed children of `t`, in order.
pub open spec fn listed(t: Seq<Child>) -> Seq<Child>
    decreases t.len(),
{
    if t.len() == 0 {
        seq![]
    } else if is_listed(t.last()) {
        listed(t.drop_last()).push(t.last())
    } else {
        listed(t.drop_last())
    }
}

/// The entries of an index over the children `t`, in order.
pub open spec fn index_items(t: Seq<Child>) -> Seq<Seq<char>> {
    listed(t).map_values(|c: Child| item_text(c))
}

/// The paths of the subdirectories among the children `l`, in order.
pub open spec fn dirs_among(l: Seq<Child>) -> Seq<Seq<char>>
    decreases l.len(),
{
    if l.len() == 0 {
        seq![]
    } else if l.last().is_dir {
        dirs_among(l.drop_last()).push(l.last().path@)
    } else {
        dirs_among(l.drop_last())
    }
}

/// The paths of the listed subdirectories among `t`, in order.
pub open spec fn subdirs(t: Seq<Child>) -> Seq<Seq<char>> {
    dirs_among(listed(t))
}

/// The children, most recently modified first.
pub fn sort_by_recency(children: Vec<Child>) -> (r: Vec<Child>)
    ensures
        r@ == by_recency(children@),
{
    let ghost s = children@;
    let mut rest = children;
    let mut out: Vec<Child> = Vec::new();
    assert(s.skip(s.len() as int) =~= seq![]);
    while rest.len() > 0
        invariant
            rest@.len() <= s.len(),
            rest@ == s.take(rest@.len() as int),
            out@ == by_recency(s.skip(rest@.len() as int)),
        decreases rest.len(),
    {
        let k = rest.len() - 1;
        let c = rest.pop().unwrap();
        assert(c == s[k as int]);
        assert(rest@ =~= s.take(k as int));
        assert(s.skip(k as int).drop_first() =~= s.skip(k + 1));
        assert(s.skip(k as int)[0] == c);
        let mut p: usize = 0;
        while p < out.len() && out[p].modified > c.modified
            invariant
                p <= out@.len(),
                forall|j: int| 0 <= j < p ==> out@[j].modified > c.modified,
            decreases out.len() - p,
        {
            p = p + 1;
        }
        proof {
            let q = lemma_place_inserts(c, out@);
            if q < p {
                assert(out@[q].modified > c.modified);
            }
            if p < q {
                assert(out@[p as int].modified > c.modified);
            }
        }
        out.insert(p, c);
    }
    assert(s.skip(0) =~= s);
    out
}

/// Exec test of `has_last_segment`; `slash_name` is `name` behind a slash.
fn last_segment_is(p: &str, name: &str, slash_name: &str) -> (r: bool)
    requires
        slash_name@ == seq!['/'] + name@,
    ensures
        r == has_last_segment(p@, name@),
{
    let tail = has_suffix(p, name);
    let whole = tail && p.unicode_len() == name.unicode_len();
    proof {
        assert(p@ =~= p@.subrange(0, p@.len() as int));
        assert(name@ =~= name@.subrange(0, name@.len() as int));
    }
    whole || has_suffix(p, slash_name)
}

/// Exec test of `is_listed`.
pub fn is_listed_child(c: &Child) -> (r: bool)
    ensures
        r == is_listed(*c),
{
    proof {
        reveal_strlit(".zettl");
        reveal_strlit("/.zettl");
        reveal_strlit("_index.md");
        reveal_strlit("/_index.md");
        assert(".zettl"@ =~= config_dir_name());
        assert("/.zettl"@ =~= seq!['/'] + config_dir_name());
        assert("_index.md"@ =~= index_file_name());
        assert("/_index.md"@ =~= seq!['/'] + index_file_name());
    }
    let p = c.path.as_str();
    let hidden = p.unicode_len() > 0 && p.get_char(0) == '.';
    let config = last_segment_is(p, ".zettl", "/.zettl");
    if hidden || config {
        return false;
    }
    if c.is_dir {
        return true;
    }
    c.is_file && is_note_file(p) && !last_segment_is(p, "_index.md", "/_index.md")
}

/// The entry text of a listed child.
fn item_of(c: &Child) -> (r: String)
    requires
        is_listed(*c),
    ensures
        r@ == item_text(*c),
{
    if c.is_dir {
        let mut s = c.path.clone();
        proof {
            reveal_strlit("/_index");
            assert("/_index"@ =~= index_suffix());
        }
        s.append("/_index");
        s
    } else {
        let n = c.path.as_str().unicode_len();
        c.path.as_str().substring_char(0, n - 3).to_owned()
    }
}

/// The entries of a directory's index and the subdirectories to index next:
/// the listed children, most recently modified first, each as its entry
/// text; and the paths of the listed subdirectories in that order.
pub fn get_index_items(children: Vec<Child>) -> (r: (Vec<String>, Vec<String>))
    ensures
        views(r.0@) == index_items(by_recency(children@)),
        views(r.1@) == subdirs(by_recency(children@)),
{
    let sorted = sort_by_recency(children);
    let ghost t = sorted@;
    let mut items: Vec<String> = Vec::new();
    let mut dirs: Vec<String> = Vec::new();
    let mut i: usize = 0;
    while i < sorted.len()
        invariant
            t == sorted@,
            i <= t.len(),
            views(items@) == index_items(t.take(i as int)),
            views(dirs@) == subdirs(t.take(i as int)),
        decreases sorted.len() - i,
    {
        let c = &sorted[i];
        let ghost items0 = views(items@);
        let ghost dirs0 = views(dirs@);
        assert(t.take(i + 1).drop_last() =~= t.take(i as int));
        assert(t.take(i + 1).last() == t[i as int]);
        if is_listed_child(c) {
            let item = item_of(c);
            items.push(item);
            assert(listed(t.take(i + 1)) == listed(t.take(i as int)).push(t[i as int]));
            assert(views(items@) =~= items0.push(item_text(t[i as int])));
            assert(index_items(t.take(i + 1)) =~= index_items(t.take(i as int)).push(
                item_text(t[i as int]),
            ));
            if c.is_dir {
                dirs.push(c.path.clone());
                assert(views(dirs@) =~= dirs0.push(c.path@));
            }
            assert(listed(t.take(i + 1)).drop_last() =~= listed(t.take(i as int)));
        }
        i = i + 1;
    }
    assert(t.take(t.len() as int) =~= t);
    (items, dirs)
}

/// Each child is modified no later than the one before it.
pub open spec fn newest_first(t: Seq<Child>) -> bool {
    forall|i: int, j: int| 0 <= i < j < t.len() ==> t[i].modified >= t[j].modified
}

/// Placing a child inserts it before the first child modified no later.
proof fn lemma_place_inserts(x: Child, t: Seq<Child>) -> (p: int)
    ensures
        0 <= p <= t.len(),
        forall|j: int| 0 <= j < p ==> t[j].modified > x.modified,
        p == t.len() || t[p].modified <= x.modified,
        place(x, t) == t.insert(p, x),
    decreases t.len(),
{
    if t.len() == 0 {
        assert(place(x, t) =~= t.insert(0, x));
        0
    } else if t[0].modified > x.modified {
        let q = lemma_place_inserts(x, t.drop_first());
        assert(place(x, t) =~= t.insert(q + 1, x));
        assert forall|j: int| 0 <= j < q + 1 implies t[j].modified > x.modified by {
            if j > 0 {
                assert(t[j] == t.drop_first()[j - 1]);
            }
        }
        if q + 1 < t.len() {
            assert(t[q + 1] == t.drop_first()[q]);
        }
        q + 1
    } else {
        assert(place(x, t) =~= t.insert(0, x));
        0
    }
}

/// Ordering by recency yields a permutation of the children, most recently
/// modified first.
pub proof fn lemma_by_recency(s: Seq<Child>)
    ensures
        by_recency(s).to_multiset() == s.to_multiset(),
        newest_first(by_recency(s)),
    decreases s.len(),
{
    if s.len() > 0 {
        let rest = s.drop_first();
        let t = by_recency(rest);
        lemma_by_recency(rest);
        let p = lemma_place_inserts(s[0], t);
        to_multiset_insert(t, p, s[0]);
        assert(rest.insert(0, s[0]) =~= s);
        to_multiset_insert(rest, 0, s[0]);
        let u = t.insert(p, s[0]);
        assert forall|i: int, j: int| 0 <= i < j < u.len() implies u[i].modified >= u[j].modified by {
            if j < p {
            } else if j == p {
            } else if i < p {
            } else if i == p {
                assert(t[p].modified >= t[j - 1].modified);
            } else {
            }
        }
    }
}

/// The listed children are children of `t`, each as often as in `t`, and
/// keep the order of `t`.
proof fn lemma_listed_from(t: Seq<Child>)
    ensures
        forall|x: Child| listed(t).contains(x) ==> t.contains(x),
        forall|c: Child|
            listed(t).to_multiset().count(c) == if is_listed(c) {
                t.to_multiset().count(c)
            } else {
                0
            },
        newest_first(t) ==> newest_first(listed(t)),
    decreases t.len(),
{
    if t.len() == 0 {
        broadcast use vstd::seq_lib::group_to_multiset_ensures;

        assert forall|c: Child| listed(t).to_multiset().count(c) == 0 && t.to_multiset().count(c)
            == 0 by {
            assert(!listed(t).contains(c));
            assert(!t.contains(c));
        }
    } else {
        let pre = t.drop_last();
        lemma_listed_from(pre);
        assert(pre.push(t.last()) =~= t);
        to_multiset_build(pre, t.last());
        if is_listed(t.last()) {
            to_multiset_build(listed(pre), t.last());
        }
        assert forall|x: Child| listed(t).contains(x) implies t.contains(x) by {
            lemma_contains_push(listed(pre), t.last(), x);
            lemma_contains_push(pre, t.last(), x);
        }
        if newest_first(t) {
            assert forall|i: int, j: int| 0 <= i < j < pre.len() implies pre[i].modified
                >= pre[j].modified by {
                assert(pre[i] == t[i] && pre[j] == t[j]);
            }
            assert(newest_first(pre));
        }
        if newest_first(t) && is_listed(t.last()) {
            let l = listed(t);
            let lp = listed(pre);
            assert forall|i: int, j: int| 0 <= i < j < l.len() implies l[i].modified
                >= l[j].modified by {
                assert(l[i] == lp[i]);
                if j == l.len() - 1 {
                    assert(lp.contains(l[i]));
                    assert(pre.contains(l[i]));
                    let k = choose|k: int| 0 <= k < pre.len() && pre[k] == l[i];
                    assert(t[k] == l[i]);
                    assert(l[j] == t[t.len() - 1]);
                } else {
                    assert(l[j] == lp[j]);
                }
            }
        }
    }
}

/// A directory's index has one entry per listed child (neither hidden, nor
/// the configuration directory, nor a file other than a note, nor the index
/// document itself), as many times as that child occurs, and lists them most
/// recently modified first.
pub proof fn lemma_index_lists_children(children: Seq<Child>)
    ensures
        forall|c: Child|
            listed(by_recency(children)).to_multiset().count(c) == if is_listed(c) {
                children.to_multiset().count(c)
            } else {
                0
            },
        newest_first(listed(by_recency(children))),
        index_items(by_recency(children)).len() == listed(by_recency(children)).len(),
        forall|k: int|
            0 <= k < listed(by_recency(children)).len() ==> index_items(by_recency(children))[k]
                == item_text(listed(by_recency(children))[k]),
{
    lemma_by_recency(children);
    lemma_listed_from(by_recency(children));
}

/// A listed subdirectory's entry is its path followed by `/_index`, never its
/// bare path.
pub proof fn lemma_subdirectory_entry(c: Child)
    requires
        is_listed(c),
        c.is_dir,
    ensures
        item_text(c) == c.path@ + index_suffix(),
        item_text(c) != c.path@,
{
    assert(item_text(c).len() != c.path@.len());
}

/// Listing a sequence with a child in front.
proof fn lemma_listed_prepend(a: Child, u: Seq<Child>)
    ensures
        listed(seq![a] + u) == if is_listed(a) {
            seq![a] + listed(u)
        } else {
            listed(u)
        },
    decreases u.len(),
{
    if u.len() == 0 {
        assert(seq![a] + u =~= seq![a]);
        assert(seq![a].drop_last() =~= Seq::<Child>::empty());
        assert(listed(seq![a].drop_last()) =~= Seq::<Child>::empty());
        assert(seq![a].last() == a);
        assert(listed(u) =~= Seq::<Child>::empty());
        assert(seq![a] + listed(u) =~= seq![a]);
        assert(Seq::<Child>::empty().push(a) =~= seq![a]);
    } else {
        lemma_listed_prepend(a, u.drop_last());
        assert((seq![a] + u).drop_last() =~= seq![a] + u.drop_last());
        assert((seq![a] + u).last() == u.last());
        if is_listed(a) && is_listed(u.last()) {
            assert(listed(u) == listed(u.drop_last()).push(u.last()));
            assert(seq![a] + listed(u) =~= (seq![a] + listed(u.drop_last())).push(u.last()));
        }
    }
}

/// Listing commutes with placing a child into a sequence ordered newest first.
proof fn lemma_listed_place(x: Child, t: Seq<Child>)
    requires
        newest_first(t),
    ensures
        listed(place(x, t)) == if is_listed(x) {
            place(x, listed(t))
        } else {
            listed(t)
        },
    decreases t.len(),
{
    if t.len() == 0 {
        lemma_listed_prepend(x, t);
        assert(seq![x] + t =~= seq![x]);
    } else if t[0].modified > x.modified {
        let rest = t.drop_first();
        assert forall|i: int, j: int| 0 <= i < j < rest.len() implies rest[i].modified
            >= rest[j].modified by {
            assert(rest[i] == t[i + 1] && rest[j] == t[j + 1]);
        }
        lemma_listed_place(x, rest);
        lemma_listed_prepend(t[0], place(x, rest));
        lemma_listed_prepend(t[0], rest);
        assert(seq![t[0]] + rest =~= t);
        if is_listed(x) && is_listed(t[0]) {
            assert((seq![t[0]] + listed(rest)).drop_first() =~= listed(rest));
        }
    } else {
        lemma_listed_prepend(x, t);
        if is_listed(x) {
            lemma_listed_from(t);
            let l = listed(t);
            if l.len() > 0 {
                assert(l.contains(l[0]));
                assert(t.contains(l[0]));
                let k = choose|k: int| 0 <= k < t.len() && t[k] == l[0];
                if k > 0 {
                    assert(t[0].modified >= t[k].modified);
                }
            }
        }
    }
}

/// Adding a child that is not listed (such as the directory's own index
/// document, which every build rewrites) changes neither the entries of the
/// directory's index nor the subdirectories to index next.
pub proof fn lemma_unlisted_child_ignored(s: Seq<Child>, k: int, c: Child)
    requires
        0 <= k <= s.len(),
        !is_listed(c),
    ensures
        listed(by_recency(s.insert(k, c))) == listed(by_recency(s)),
        index_items(by_recency(s.insert(k, c))) == index_items(by_recency(s)),
        subdirs(by_recency(s.insert(k, c))) == subdirs(by_recency(s)),
    decreases s.len(),
{
    let u = s.insert(k, c);
    if k == 0 {
        assert(u.drop_first() =~= s);
        lemma_by_recency(s);
        lemma_listed_place(c, by_recency(s));
    } else {
        let rest = s.drop_first();
        lemma_unlisted_child_ignored(rest, k - 1, c);
        assert(u.drop_first() =~= rest.insert(k - 1, c));
        assert(u[0] == s[0]);
        lemma_by_recency(rest.insert(k - 1, c));
        lemma_by_recency(rest);
        lemma_listed_place(s[0], by_recency(rest.insert(k - 1, c)));
        lemma_listed_place(s[0], by_recency(rest));
    }
}

/// A directory's own index document is never listed in it.
pub proof fn lemma_own_index_unlisted(c: Child)
    requires
        has_last_segment(c.path@, index_file_name()),
        !c.is_dir,
    ensures
        !is_listed(c),
{
}

/// Rebuilding a directory's index after the previous build wrote its own
/// index document there gives the same document but for the front matter,
/// which carries the build time.
pub proof fn lemma_rebuild_same_body(s: Seq<Child>, k: int, c: Child, title: Seq<char>)
    requires
        0 <= k <= s.len(),
        has_last_segment(c.path@, index_file_name()),
        !c.is_dir,
    ensures
        index_body(title, index_items(by_recency(s.insert(k, c)))) == index_body(
            title,
            index_items(by_recency(s)),
        ),
{
    lemma_own_index_unlisted(c);
    lemma_unlisted_child_ignored(s, k, c);
}

/// Two listed children with the same entry have the same path.
proof fn lemma_item_text_injective(a: Child, b: Child)
    requires
        is_listed(a),
        is_listed(b),
        item_text(a) == item_text(b),
    ensures
        a.path@ == b.path@,
{
    let suffix = index_suffix();
    if a.is_dir && b.is_dir {
        assert(a.path@ =~= item_text(a).subrange(0, item_text(a).len() - 7));
        assert(b.path@ =~= item_text(b).subrange(0, item_text(b).len() - 7));
    } else if !a.is_dir && !b.is_dir {
        crate::ident::lemma_identifier_injective(a.path@, b.path@);
    } else {
        let (d, f) = if a.is_dir {
            (a, b)
        } else {
            (b, a)
        };
        let p = f.path@;
        assert(p =~= identifier_of(p) + seq!['.', 'm', 'd']);
        assert(p =~= d.path@ + seq!['/'] + index_file_name());
        assert(p.subrange(p.len() - 10, p.len() as int) =~= seq!['/'] + index_file_name());
    }
}

/// Counting entries: among listed children where only `c` has `c`'s path,
/// `c`'s entry occurs as often as `c`, and so does its path among the
/// subdirectories when `c` is one.
proof fn lemma_entry_count(l: Seq<Child>, c: Child)
    requires
        is_listed(c),
        forall|i: int| 0 <= i < l.len() ==> is_listed(#[trigger] l[i]),
        forall|i: int| 0 <= i < l.len() && (#[trigger] l[i]).path@ == c.path@ ==> l[i] == c,
    ensures
        l.map_values(|x: Child| item_text(x)).to_multiset().count(item_text(c)) == l.to_multiset().count(c),
        c.is_dir ==> dirs_among(l).to_multiset().count(c.path@) == l.to_multiset().count(c),
    decreases l.len(),
{
    broadcast use vstd::multiset::group_multiset_axioms;
    broadcast use vstd::seq_lib::group_to_multiset_ensures;

    let m = l.map_values(|x: Child| item_text(x));
    if l.len() == 0 {
        assert(!m.contains(item_text(c)));
        assert(!l.contains(c));
        assert(!dirs_among(l).contains(c.path@));
    } else {
        let pre = l.drop_last();
        let y = l.last();
        assert forall|i: int| 0 <= i < pre.len() implies is_listed(#[trigger] pre[i]) by {
            assert(pre[i] == l[i]);
        }
        assert forall|i: int| 0 <= i < pre.len() && (#[trigger] pre[i]).path@ == c.path@ implies pre[i] == c by {
            assert(pre[i] == l[i]);
        }
        lemma_entry_count(pre, c);
        assert(pre.push(y) =~= l);
        assert(pre.map_values(|x: Child| item_text(x)).push(item_text(y)) =~= m);
        to_multiset_build(pre, y);
        to_multiset_build(pre.map_values(|x: Child| item_text(x)), item_text(y));
        assert(is_listed(l[l.len() - 1]));
        if item_text(y) == item_text(c) {
            lemma_item_text_injective(y, c);
            assert(l[l.len() - 1] == c);
        }
        if y.is_dir {
            to_multiset_build(dirs_among(pre), y.path@);
            if y.path@ == c.path@ {
                assert(l[l.len() - 1] == c);
            }
        }
    }
}

/// In a directory whose children have distinct paths, a listed subdirectory
/// has exactly one entry, its path followed by `/_index`, and is queued
/// exactly once for indexing.
pub proof fn lemma_subdirectory_listed_once(children: Seq<Child>, k: int)
    requires
        0 <= k < children.len(),
        forall|i: int, j: int|
            0 <= i < children.len() && 0 <= j < children.len() && i != j ==> children[i].path@
                != children[j].path@,
        is_listed(children[k]),
        children[k].is_dir,
    ensures
        index_items(by_recency(children)).to_multiset().count(children[k].path@ + index_suffix())
            == 1,
        subdirs(by_recency(children)).to_multiset().count(children[k].path@) == 1,
{
    broadcast use vstd::seq_lib::group_to_multiset_ensures;

    let c = children[k];
    let t = by_recency(children);
    let l = listed(t);
    lemma_by_recency(children);
    lemma_listed_from(t);
    lemma_index_lists_children(children);
    assert forall|i: int| 0 <= i < l.len() implies is_listed(#[trigger] l[i]) by {
        assert(l.to_multiset().count(l[i]) > 0);
    }
    assert forall|i: int| 0 <= i < l.len() && (#[trigger] l[i]).path@ == c.path@ implies l[i] == c by {
        assert(l.contains(l[i]));
        assert(t.contains(l[i]));
        assert(children.to_multiset().count(l[i]) > 0);
        assert(children.contains(l[i]));
        let j = choose|j: int| 0 <= j < children.len() && children[j] == l[i];
        if j != k {
            assert(children[j].path@ != children[k].path@);
        }
    }
    lemma_entry_count(l, c);
    assert(children.remove(k).insert(k, c) =~= children);
    assert(!children.remove(k).contains(c)) by {
        if children.remove(k).contains(c) {
            let j = choose|j: int| 0 <= j < children.remove(k).len() && children.remove(k)[j] == c;
            if j < k {
                assert(children[j] == c);
            } else {
                assert(children[j + 1] == c);
            }
        }
    }
    assert(l.map_values(|x: Child| item_text(x)) =~= index_items(t));
}

/// Why a directory's index document could not be composed.
#[derive(Debug, PartialEq, Eq, Structural)]
pub enum BuildError {
    /// Reading or writing the tree failed.
    Filesystem,
    /// The directory has no base name to title its index with.
    MissingMetadata,
    /// The front matter could not be encoded.
    Serialization,
}

/// The heck crate's title case of `s`.
pub uninterp spec fn title_case_of(s: Seq<char>) -> Seq<char>;

/// Relies on heck's `TitleCase::to_title_case`: words split at case changes
/// and separators, each capitalised, joined by spaces.
#[verifier::external_body]
fn title_case(s: &str) -> (r: String)
    ensures
        r@ == title_case_of(s@),
{
    <str as heck::TitleCase>::to_title_case(s)
}

/// What serde_yaml writes for a mapping of the given string keys to string
/// values, in that order.
pub uninterp spec fn yaml_mapping_of(pairs: Seq<(Seq<char>, Seq<char>)>) -> Seq<char>;

#[verifier::external_type_specification]
#[verifier::external_body]
pub struct ExYamlError(serde_yaml::Error);

/// Relies on `serde_yaml::to_string` of a `serde_yaml::Mapping`, which keeps
/// its keys in insertion order; the emitter writes into a `Vec` and does not
/// fail on string keys and values.
#[verifier::external_body]
fn yaml_mapping(pairs: &Vec<(String, String)>) -> (r: Result<String, serde_yaml::Error>)
    ensures
        r is Ok,
        r matches Ok(y) ==> y@ == yaml_mapping_of(
            pairs@.map_values(|p: (String, String)| (p.0@, p.1@)),
        ),
{
    let m: serde_yaml::Mapping = pairs.iter().map(
        |(k, v)| (serde_yaml::Value::from(k.as_str()), serde_yaml::Value::from(v.as_str())),
    ).collect();
    serde_yaml::to_string(&m)
}

/// A decimal digit.
pub open spec fn is_digit(c: char) -> bool {
    '0' <= c <= '9'
}

/// A time written `YYYY-MM-DD HH:MM:SS`: the year in at least four digits
/// (behind a sign outside years 0 to 9999), then two digits each for month,
/// day, hour, minute and second.
pub open spec fn is_timestamp(s: Seq<char>) -> bool {
    let n = s.len() as int;
    n >= 19 && (is_digit(s[0]) || s[0] == '+' || s[0] == '-') && (forall|i: int|
        1 <= i < n - 15 ==> is_digit(#[trigger] s[i])) && s[n - 15] == '-' && is_digit(s[n - 14])
        && is_digit(s[n - 13]) && s[n - 12] == '-' && is_digit(s[n - 11]) && is_digit(s[n - 10])
        && s[n - 9] == ' ' && is_digit(s[n - 8]) && is_digit(s[n - 7]) && s[n - 6] == ':'
        && is_digit(s[n - 5]) && is_digit(s[n - 4]) && s[n - 3] == ':' && is_digit(s[n - 2])
        && is_digit(s[n - 1])
}

/// Relies on chrono's `Local::now` and `DateTime::format`: the current local
/// time written after `pattern`, a valid strftime pattern. `%Y` writes four
/// digits, or a sign and at least four digits outside years 0 to 9999; the
/// other fields two zero-padded digits each.
#[verifier::external_body]
fn local_now(pattern: &str) -> (r: String)
    requires
        pattern@ == "%Y-%m-%d %H:%M:%S"@,
    ensures
        is_timestamp(r@),
{
    chrono::Local::now().format(pattern).to_string()
}

/// The front matter of a generated document.
pub open spec fn front_matter_text(title: Seq<char>, author: Seq<char>, created: Seq<char>) -> Seq<
    char,
> {
    yaml_mapping_of(seq![("title"@, title), ("author"@, author), ("created"@, created)])
}

/// The title of the index of a directory named `dir_name`.
pub open spec fn index_title_text(dir_name: Seq<char>) -> Seq<char> {
    title_case_of(dir_name) + " Index"@
}

/// One list line per entry, skipping hidden entries.
pub open spec fn entry_lines(items: Seq<Seq<char>>) -> Seq<char>
    decreases items.len(),
{
    if items.len() == 0 {
        seq![]
    } else if is_hidden(items.last()) {
        entry_lines(items.drop_last())
    } else {
        entry_lines(items.drop_last()) + "- [["@ + items.last() + "]]\n"@
    }
}

/// What follows the front matter of an index document: the separator, the
/// heading and the entry lines.
pub open spec fn index_body(title: Seq<char>, items: Seq<Seq<char>>) -> Seq<char> {
    "---\n"@ + "\n# "@ + title + "\n\n"@ + entry_lines(items)
}

/// The title of the index of a directory named `dir_name`.
pub fn index_title(dir_name: &str) -> (r: String)
    ensures
        r@ == index_title_text(dir_name@),
{
    let mut t = title_case(dir_name);
    t.append(" Index");
    t
}

/// The title of a new note whose file stem is `stem`.
pub fn note_title(stem: &str) -> (r: String)
    ensures
        r@ == title_case_of(stem@),
{
    title_case(stem)
}

/// The name under which a note at path `p` (relative to its section of the
/// tree) is listed: its identifier, unless `p` names no note or an index
/// document.
pub fn list_name(p: &str) -> (r: Option<String>)
    ensures
        r matches Some(n) <==> is_note_path(p@) && !has_last_segment(p@, index_file_name()),
        r matches Some(n) ==> n@ == identifier_of(p@),
{
    proof {
        reveal_strlit("_index.md");
        reveal_strlit("/_index.md");
        assert("_index.md"@ =~= index_file_name());
        assert("/_index.md"@ =~= seq!['/'] + index_file_name());
    }
    if last_segment_is(p, "_index.md", "/_index.md") {
        None
    } else {
        crate::ident::note_identifier(p)
    }
}

/// The front matter of a generated document.
pub fn front_matter(title: &str, author: &str, created: &str) -> (r: Result<String, BuildError>)
    ensures
        r is Ok,
        r matches Ok(y) ==> y@ == front_matter_text(title@, author@, created@),
{
    let mut pairs: Vec<(String, String)> = Vec::new();
    pairs.push(("title".to_owned(), title.to_owned()));
    pairs.push(("author".to_owned(), author.to_owned()));
    pairs.push(("created".to_owned(), created.to_owned()));
    assert(pairs@.map_values(|p: (String, String)| (p.0@, p.1@)) =~= seq![
        ("title"@, title@),
        ("author"@, author@),
        ("created"@, created@),
    ]);
    match yaml_mapping(&pairs) {
        Ok(y) => Ok(y),
        Err(_) => Err(BuildError::Serialization),
    }
}

/// An index document: the given front matter, then the separator, the heading
/// and one line `- [[entry]]` per entry not starting with a dot.
pub fn index_document(front_matter: &str, title: &str, items: &Vec<String>) -> (r: String)
    ensures
        r@ == front_matter@ + index_body(title@, views(items@)),
{
    let mut out = front_matter.to_owned();
    out.append("---\n");
    out.append("\n# ");
    out.append(title);
    out.append("\n\n");
    let ghost head = out@;
    let mut i: usize = 0;
    while i < items.len()
        invariant
            i <= items@.len(),
            out@ == head + entry_lines(views(items@).take(i as int)),
        decreases items.len() - i,
    {
        let item = items[i].as_str();
        assert(views(items@).take(i + 1).drop_last() =~= views(items@).take(i as int));
        assert(views(items@).take(i + 1).last() == item@);
        let hidden = item.unicode_len() > 0 && item.get_char(0) == '.';
        if !hidden {
            out.append("- [[");
            out.append(item);
            out.append("]]\n");
        }
        assert(out@ =~= head + entry_lines(views(items@).take(i + 1)));
        i = i + 1;
    }
    assert(views(items@).take(i as int) =~= views(items@));
    assert(out@ =~= front_matter@ + index_body(title@, views(items@)));
    out
}

/// The metadata block at the head of a generated document; `created` is the
/// generation time, written `YYYY-MM-DD HH:MM:SS`.
pub struct FrontMatter {
    pub title: String,
    pub author: String,
    pub created: String,
}

impl FrontMatter {
    /// This front matter as YAML.
    pub fn to_yaml(&self) -> (r: Result<String, BuildError>)
        ensures
            r is Ok,
            r matches Ok(y) ==> y@ == front_matter_text(self.title@, self.author@, self.created@),
    {
        front_matter(self.title.as_str(), self.author.as_str(), self.created.as_str())
    }
}

/// The skeleton of a new note: the given front matter, the separator and a
/// heading with the note's title.
pub fn skeleton_document(front_matter: &str, title: &str) -> (r: String)
    ensures
        r@ == front_matter@ + "---\n"@ + "\n# "@ + title@ + "\n"@,
{
    let mut out = front_matter.to_owned();
    out.append("---\n");
    out.append("\n# ");
    out.append(title);
    out.append("\n");
    out
}

/// The index document of a directory with base name `dir_name` (none at the
/// filesystem root), by `author`, created at `created`, listing `items`.
pub fn compose_index(dir_name: Option<String>, author: &str, created: &str, items: &Vec<String>) -> (r:
    Result<String, BuildError>)
    ensures
        dir_name is None ==> r == Err::<String, BuildError>(BuildError::MissingMetadata),
        dir_name matches Some(d) ==> r matches Ok(doc) && doc@ == front_matter_text(
            index_title_text(d@),
            author@,
            created@,
        ) + index_body(index_title_text(d@), views(items@)),
{
    match dir_name {
        None => Err(BuildError::MissingMetadata),
        Some(d) => {
            let title = index_title(d.as_str());
            let fm = front_matter(title.as_str(), author, created)?;
            Ok(index_document(fm.as_str(), title.as_str(), items))
        },
    }
}

/// The contents of the index document of a directory and the subdirectories
/// to index after it, from the directory's base name (none at the filesystem
/// root), the author, and the directory's children; the document is dated
/// now, in local time.
pub fn index_file_contents(dir_name: Option<String>, author: &str, children: Vec<Child>) -> (r:
    Result<(String, Vec<String>), BuildError>)
    ensures
        dir_name is None ==> r matches Err(BuildError::MissingMetadata),
        dir_name matches Some(d) ==> r matches Ok((doc, dirs)) && views(dirs@) == subdirs(
            by_recency(children@),
        ) && exists|created: Seq<char>|
            is_timestamp(created) && doc@ == front_matter_text(index_title_text(d@), author@, created) + index_body(
                index_title_text(d@),
                index_items(by_recency(children@)),
            ),
{
    let (items, dirs) = get_index_items(children);
    let created = local_now("%Y-%m-%d %H:%M:%S");
    match compose_index(dir_name, author, created.as_str(), &items) {
        Ok(doc) => Ok((doc, dirs)),
        Err(e) => Err(e),
    }
}

} // verus!
