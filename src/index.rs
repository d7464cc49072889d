//! The staging index: the paths queued for the next commit, each with a
//! blob id and a mode, unique by path and kept in insertion order.
use crate::refs::{trim, trim_text};
use crate::worktree::{lookup_path, map_get, pairs_view, PathMapView};
use vstd::prelude::*;

verus! {

/// One staged path.
#[derive(Clone, Debug)]
pub struct IndexEntry {
    pub path: String,
    pub sha: String,
    pub mode: String,
}

pub struct IndexEntryView {
    pub path: Seq<char>,
    pub sha: Seq<char>,
    pub mode: Seq<char>,
}

impl View for IndexEntry {
    type V = IndexEntryView;

    open spec fn view(&self) -> IndexEntryView {
        IndexEntryView { path: self.path@, sha: self.sha@, mode: self.mode@ }
    }
}

/// The staged entries, in the order their paths were first staged.
#[derive(Clone, Debug)]
pub struct Index {
    pub entries: Vec<IndexEntry>,
}

pub open spec fn index_view(v: Seq<IndexEntry>) -> Seq<IndexEntryView> {
    v.map_values(|e: IndexEntry| e@)
}

impl View for Index {
    type V = Seq<IndexEntryView>;

    open spec fn view(&self) -> Seq<IndexEntryView> {
        index_view(self.entries@)
    }
}

/// Each path is staged at most once.
pub open spec fn distinct_paths(es: Seq<IndexEntryView>) -> bool {
    forall|i: int, j: int|
        0 <= i < j < es.len() ==> #[trigger] es[i].path != #[trigger] es[j].path
}

/// Is `p` staged?
pub open spec fn staged(es: Seq<IndexEntryView>, p: Seq<char>) -> bool {
    exists|i: int| 0 <= i < es.len() && #[trigger] es[i].path == p
}

pub open spec fn has_prefix(s: Seq<char>, p: Seq<char>) -> bool {
    p.len() <= s.len() && s.subrange(0, p.len() as int) == p
}

/// Does a non-empty prefix of the ignore list begin `p`?
pub open spec fn is_ignored(p: Seq<char>, ignore: Seq<Seq<char>>) -> bool {
    exists|i: int|
        0 <= i < ignore.len() && #[trigger] ignore[i].len() > 0 && has_prefix(p, ignore[i])
}

pub open spec fn texts(v: Seq<String>) -> Seq<Seq<char>> {
    v.map_values(|s: String| s@)
}

/// Where path `p` is first staged, or -1.
pub open spec fn path_index(es: Seq<IndexEntryView>, p: Seq<char>) -> int
    decreases es.len(),
{
    if es.len() == 0 {
        -1
    } else {
        let k = path_index(es.drop_last(), p);
        if k >= 0 {
            k
        } else if es.last().path == p {
            es.len() - 1
        } else {
            -1
        }
    }
}

/// The entries after staging `e`: an entry at the same path is replaced
/// where it stands; a new path is appended unless the ignore list covers
/// it.
pub open spec fn after_add(es: Seq<IndexEntryView>, e: IndexEntryView, ignore: Seq<Seq<char>>) -> Seq<
    IndexEntryView,
> {
    if path_index(es, e.path) >= 0 {
        es.update(path_index(es, e.path), e)
    } else if is_ignored(e.path, ignore) {
        es
    } else {
        es.push(e)
    }
}

proof fn lemma_path_index(es: Seq<IndexEntryView>, p: Seq<char>)
    ensures
        -1 <= path_index(es, p) < es.len(),
        path_index(es, p) >= 0 ==> es[path_index(es, p)].path == p && forall|j: int|
            0 <= j < path_index(es, p) ==> #[trigger] es[j].path != p,
        path_index(es, p) < 0 ==> forall|j: int| 0 <= j < es.len() ==> #[trigger] es[j].path != p,
    decreases es.len(),
{
    if es.len() > 0 {
        let d = es.drop_last();
        lemma_path_index(d, p);
        assert forall|j: int| 0 <= j < d.len() implies #[trigger] es[j] == d[j] by {}
    }
}

/// The entries without those at path `p`, in order.
pub open spec fn without_path(es: Seq<IndexEntryView>, p: Seq<char>) -> Seq<IndexEntryView>
    decreases es.len(),
{
    if es.len() == 0 {
        seq![]
    } else if es.last().path == p {
        without_path(es.drop_last(), p)
    } else {
        without_path(es.drop_last(), p).push(es.last())
    }
}

/// Every staged entry has its id in the path map.
pub open spec fn matches_head(es: Seq<IndexEntryView>, m: PathMapView) -> bool {
    forall|i: int| 0 <= i < es.len() ==> map_get(m, #[trigger] es[i].path) == Some(es[i].sha)
}

proof fn lemma_without_path(es: Seq<IndexEntryView>, p: Seq<char>)
    ensures
        forall|k: int|
            0 <= k < without_path(es, p).len() ==> exists|i: int|
                0 <= i < es.len() && #[trigger] without_path(es, p)[k] == es[i],
        forall|k: int| 0 <= k < without_path(es, p).len() ==> #[trigger] without_path(es, p)[k].path != p,
        distinct_paths(es) ==> distinct_paths(without_path(es, p)),
    decreases es.len(),
{
    if es.len() > 0 {
        let d = es.drop_last();
        lemma_without_path(d, p);
        let w = without_path(d, p);
        assert forall|k: int| 0 <= k < w.len() implies exists|i: int|
            0 <= i < es.len() && #[trigger] w[k] == es[i] by {
            let i = choose|i: int| 0 <= i < d.len() && #[trigger] w[k] == d[i];
            assert(es[i] == d[i]);
        }
        if es.last().path != p {
            let w2 = w.push(es.last());
            assert(w2[w.len() as int] == es[es.len() - 1]);
            assert forall|k: int| 0 <= k < w2.len() implies exists|i: int|
                0 <= i < es.len() && #[trigger] w2[k] == es[i] by {
                if k < w.len() {
                    assert(w2[k] == w[k]);
                } else {
                    assert(w2[k] == es[es.len() - 1]);
                }
            }
            if distinct_paths(es) {
                assert(distinct_paths(d)) by {
                    assert forall|a: int, b: int| 0 <= a < b < d.len() implies #[trigger] d[a].path
                        != #[trigger] d[b].path by {
                        assert(d[a] == es[a] && d[b] == es[b]);
                    }
                }
                assert forall|a: int, b: int| 0 <= a < b < w2.len() implies #[trigger] w2[a].path
                    != #[trigger] w2[b].path by {
                    if b < w.len() {
                        assert(w2[a] == w[a] && w2[b] == w[b]);
                    } else {
                        assert(w2[a] == w[a]);
                        let i = choose|i: int| 0 <= i < d.len() && #[trigger] w[a] == d[i];
                        assert(d[i] == es[i]);
                        assert(es[i].path != es[es.len() - 1].path);
                    }
                }
            }
        }
    }
}

/// Every staged entry has its id in the path map of the current commit.
pub fn index_matches_head(index: &Index, head: &Vec<(String, String)>) -> (r: bool)
    ensures
        r == matches_head(index@, pairs_view(head@)),
{
    let mut i: usize = 0;
    while i < index.entries.len()
        invariant
            i <= index@.len(),
            forall|j: int|
                0 <= j < i ==> map_get(pairs_view(head@), #[trigger] index@[j].path) == Some(
                    index@[j].sha,
                ),
        decreases index.entries.len() - i,
    {
        let e = &index.entries[i];
        match lookup_path(head, &e.path) {
            Some(h) => {
                if !h.eq(&e.sha) {
                    proof {
                        assert(index@[i as int] == e@);
                        assert(map_get(pairs_view(head@), index@[i as int].path) != Some(
                            index@[i as int].sha,
                        ));
                    }
                    return false;
                }
            },
            None => {
                proof {
                    assert(index@[i as int] == e@);
                }
                return false;
            },
        }
        i = i + 1;
    }
    true
}

fn starts_with_text(s: &String, p: &String) -> (r: bool)
    ensures
        r == has_prefix(s@, p@),
{
    let n = p.as_str().unicode_len();
    if n > s.as_str().unicode_len() {
        return false;
    }
    let mut i: usize = 0;
    while i < n
        invariant
            i <= n,
            n == p@.len(),
            n <= s@.len(),
            forall|j: int| 0 <= j < i ==> s@[j] == p@[j],
        decreases n - i,
    {
        if s.as_str().get_char(i) != p.as_str().get_char(i) {
            proof {
                assert(s@.subrange(0, n as int)[i as int] != p@[i as int]);
            }
            return false;
        }
        i = i + 1;
    }
    proof {
        assert(s@.subrange(0, n as int) =~= p@);
    }
    true
}

/// Does a non-empty prefix of `ignore` begin `path`?
pub fn ignored(path: &String, ignore: &Vec<String>) -> (r: bool)
    ensures
        r == is_ignored(path@, texts(ignore@)),
{
    let mut i: usize = 0;
    while i < ignore.len()
        invariant
            i <= ignore@.len(),
            forall|j: int|
                0 <= j < i ==> !(#[trigger] texts(ignore@)[j].len() > 0 && has_prefix(
                    path@,
                    texts(ignore@)[j],
                )),
        decreases ignore.len() - i,
    {
        let line = &ignore[i];
        if !line.as_str().is_empty() && starts_with_text(path, line) {
            proof {
                assert(texts(ignore@)[i as int] == line@);
            }
            return true;
        }
        i = i + 1;
    }
    false
}

impl IndexEntry {
    /// A field-by-field copy.
    pub fn copy(&self) -> (r: IndexEntry)
        ensures
            r@ == self@,
    {
        IndexEntry { path: self.path.clone(), sha: self.sha.clone(), mode: self.mode.clone() }
    }
}

impl Index {
    /// An empty index.
    pub fn new() -> (r: Index)
        ensures
            r@ == Seq::<IndexEntryView>::empty(),
    {
        Index { entries: Vec::new() }
    }

    /// Where path `p` is staged, if it is.
    pub fn position(&self, p: &String) -> (r: Option<usize>)
        ensures
            match r {
                Some(i) => i < self@.len() && self@[i as int].path == p@,
                None => !staged(self@, p@),
            },
    {
        let mut i: usize = 0;
        while i < self.entries.len()
            invariant
                i <= self@.len(),
                forall|j: int| 0 <= j < i ==> self@[j].path != p@,
            decreases self.entries.len() - i,
        {
            if self.entries[i].path.eq(p) {
                return Some(i);
            }
            i = i + 1;
        }
        None
    }

    /// Stages `entry`: an entry at the same path is replaced where it
    /// stands; a new path is appended unless the ignore list covers it.
    /// The ignore list is consulted on first staging only.
    pub fn add(&mut self, entry: IndexEntry, ignore: &Vec<String>)
        requires
            distinct_paths(old(self)@),
        ensures
            distinct_paths(final(self)@),
            forall|i: int|
                0 <= i < old(self)@.len() && #[trigger] old(self)@[i].path == entry@.path
                    ==> final(self)@ == old(self)@.update(i, entry@),
            !staged(old(self)@, entry@.path) && is_ignored(entry@.path, texts(ignore@))
                ==> final(self)@ == old(self)@,
            !staged(old(self)@, entry@.path) && !is_ignored(entry@.path, texts(ignore@))
                ==> final(self)@ == old(self)@.push(entry@),
            final(self)@ == after_add(old(self)@, entry@, texts(ignore@)),
    {
        proof {
            lemma_path_index(old(self)@, entry@.path);
        }
        match self.position(&entry.path) {
            Some(i) => {
                let ghost e = entry@;
                self.entries.set(i, entry);
                proof {
                    assert(final(self)@ =~= old(self)@.update(i as int, e));
                    assert forall|j: int|
                        0 <= j < old(self)@.len() && #[trigger] old(self)@[j].path == e.path
                            implies j == i by {
                        if j != i {
                            assert(old(self)@[j].path != old(self)@[i as int].path);
                        }
                    }
                }
            },
            None => {
                if !ignored(&entry.path, ignore) {
                    let ghost e = entry@;
                    self.entries.push(entry);
                    proof {
                        assert(final(self)@ =~= old(self)@.push(e));
                    }
                }
            },
        }
    }

    /// Unstages path `p`; a path that is not staged changes nothing.
    pub fn remove(&mut self, p: &String)
        ensures
            final(self)@ == without_path(old(self)@, p@),
            distinct_paths(old(self)@) ==> distinct_paths(final(self)@),
            !staged(final(self)@, p@),
    {
        proof {
            lemma_without_path(old(self)@, p@);
        }
        let mut kept: Vec<IndexEntry> = Vec::new();
        let mut i: usize = 0;
        let ghost es = self@;
        while i < self.entries.len()
            invariant
                i <= es.len(),
                es == self@,
                es == old(self)@,
                index_view(kept@) == without_path(es.subrange(0, i as int), p@),
            decreases self.entries.len() - i,
        {
            proof {
                assert(es.subrange(0, i + 1).drop_last() =~= es.subrange(0, i as int));
                assert(es.subrange(0, i + 1).last() == es[i as int]);
            }
            if !self.entries[i].path.eq(p) {
                let ghost before = kept@;
                kept.push(self.entries[i].copy());
                proof {
                    assert(index_view(kept@) =~= index_view(before).push(es[i as int]));
                }
            }
            i = i + 1;
        }
        proof {
            assert(es.subrange(0, i as int) =~= es);
        }
        self.entries = kept;
    }
}

/// The first position at or after `from` that holds `c`, or `s.len()`.
pub open spec fn find_char(s: Seq<char>, c: char, from: int) -> int
    decreases s.len() - from,
{
    if from >= s.len() {
        s.len() as int
    } else if s[from] == c {
        from
    } else {
        find_char(s, c, from + 1)
    }
}

/// What one line of an ignore file contributes: its trimmed text, unless
/// that is blank or a `#` comment.
pub open spec fn ignore_entry(line: Seq<char>) -> Seq<Seq<char>> {
    let t = trim(line);
    if t.len() == 0 || t[0] == '#' {
        seq![]
    } else {
        seq![t]
    }
}

/// The path prefixes that an ignore file lists, line by line.
pub open spec fn ignore_list(text: Seq<char>) -> Seq<Seq<char>>
    decreases text.len(),
{
    if text.len() == 0 {
        seq![]
    } else {
        let j = find_char(text, '\n', 0);
        if j >= text.len() {
            ignore_entry(text)
        } else if 0 <= j {
            ignore_entry(text.subrange(0, j)) + ignore_list(text.subrange(j + 1, text.len() as int))
        } else {
            seq![]
        }
    }
}

proof fn lemma_find_char_bounds(s: Seq<char>, c: char, from: int)
    requires
        0 <= from <= s.len(),
    ensures
        from <= find_char(s, c, from) <= s.len(),
    decreases s.len() - from,
{
    if from < s.len() && s[from] != c {
        lemma_find_char_bounds(s, c, from + 1);
    }
}

fn find_newline(s: &str) -> (r: usize)
    ensures
        r == find_char(s@, '\n', 0),
{
    let n = s.unicode_len();
    let mut i: usize = 0;
    while i < n
        invariant
            i <= n,
            n == s@.len(),
            find_char(s@, '\n', 0) == find_char(s@, '\n', i as int),
        decreases n - i,
    {
        if s.get_char(i) == '\n' {
            return i;
        }
        i = i + 1;
    }
    n
}

/// The path prefixes an ignore file lists: see `ignore_list`.
pub fn ignore_prefixes(text: &str) -> (r: Vec<String>)
    ensures
        texts(r@) == ignore_list(text@),
{
    let mut out: Vec<String> = Vec::new();
    let mut rest: &str = text;
    proof {
        assert(texts(out@) + ignore_list(rest@) =~= ignore_list(text@));
    }
    while rest.unicode_len() > 0
        invariant
            texts(out@) + ignore_list(rest@) == ignore_list(text@),
        decreases rest@.len(),
    {
        let n = rest.unicode_len();
        let j = find_newline(rest);
        proof {
            lemma_find_char_bounds(rest@, '\n', 0);
        }
        let line = trim_text(rest.substring_char(0, j));
        let ghost before = texts(out@);
        let keep = !line.as_str().is_empty() && line.as_str().get_char(0) != '#';
        if keep {
            out.push(line);
        }
        proof {
            if keep {
                assert(texts(out@) =~= before + ignore_entry(rest@.subrange(0, j as int)));
            } else {
                assert(texts(out@) =~= before + ignore_entry(rest@.subrange(0, j as int)));
            }
        }
        if j >= n {
            proof {
                assert(rest@.subrange(0, j as int) =~= rest@);
                assert(ignore_list(rest@) == ignore_entry(rest@));
                assert(texts(out@) =~= ignore_list(text@));
            }
            return out;
        }
        let ghost old_rest = rest@;
        rest = rest.substring_char(j + 1, n);
        proof {
            assert(before + (ignore_entry(old_rest.subrange(0, j as int)) + ignore_list(rest@))
                =~= texts(out@) + ignore_list(rest@));
        }
    }
    proof {
        assert(texts(out@) + ignore_list(rest@) =~= texts(out@));
    }
    out
}

} // verus!
