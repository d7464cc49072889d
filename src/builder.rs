//! Turning the staging index into trees and a new commit, and the other
//! decisions of the mutating commands.
use crate::bytes::lacks_char;
use crate::commit::{commit_bytes, opt_view, Commit, CommitView, Signature, SignatureView};
use crate::error::Error;
use crate::hexcode::{is_lower_hex_char, is_object_id};
use crate::index::{
    after_add, distinct_paths, find_char, index_matches_head, matches_head, texts, without_path,
    Index, IndexEntry, IndexEntryView,
};
use crate::objects::{
    entries_view, tree_bytes, valid_entries, valid_entry, Tree, TreeEntry, TreeEntryView,
};
use crate::refs::{head_of, opt_str, parse_head, ref_text, Head, HeadView};
use crate::store::{after_write, lookup, object_id, raw_result, sound, ObjectKind, ObjectStore};
use crate::worktree::{
    commit_paths, is_dir_mode_text, is_file_mode_text, load_tree_map_from_commit, lookup_path,
    map_get, pairs_view,
};
use vstd::prelude::*;
use vstd::string::StringExecFns;

verus! {

/// Is every character of `s` a lowercase hex digit, forty of them?
pub fn is_object_id_text(s: &str) -> (r: bool)
    ensures
        r == is_object_id(s@),
{
    let n = s.unicode_len();
    if n != 40 {
        return false;
    }
    let mut i: usize = 0;
    while i < n
        invariant
            i <= n,
            n == s@.len(),
            forall|k: int| 0 <= k < i ==> is_lower_hex_char(#[trigger] s@[k]),
        decreases n - i,
    {
        let c = s.get_char(i);
        if !(('0' <= c && c <= '9') || ('a' <= c && c <= 'f')) {
            return false;
        }
        i = i + 1;
    }
    true
}

/// Does `s` hold character `c`?
pub fn holds_char(s: &str, c: char) -> (r: bool)
    ensures
        r == s@.contains(c),
{
    let n = s.unicode_len();
    let mut i: usize = 0;
    while i < n
        invariant
            i <= n,
            n == s@.len(),
            forall|k: int| 0 <= k < i ==> s@[k] != c,
        decreases n - i,
    {
        if s.get_char(i) == c {
            return true;
        }
        i = i + 1;
    }
    false
}

/// The store only grows: what was there keeps its place.
pub open spec fn extends(a: Seq<(Seq<char>, Seq<u8>)>, b: Seq<(Seq<char>, Seq<u8>)>) -> bool {
    a.len() <= b.len() && b.subrange(0, a.len() as int) == a
}

/// A staged path still to place in a tree: the part below the directory
/// being built, with its id and mode.
pub struct Pending {
    pub rest: String,
    pub sha: String,
    pub mode: String,
}

pub struct PendingView {
    pub rest: Seq<char>,
    pub sha: Seq<char>,
    pub mode: Seq<char>,
}

impl View for Pending {
    type V = PendingView;

    open spec fn view(&self) -> PendingView {
        PendingView { rest: self.rest@, sha: self.sha@, mode: self.mode@ }
    }
}

pub open spec fn pendings(v: Seq<Pending>) -> Seq<PendingView> {
    v.map_values(|p: Pending| p@)
}

/// A path with no `/` left is a file of the directory being built.
pub open spec fn is_file_item(p: PendingView) -> bool {
    find_char(p.rest, '/', 0) >= p.rest.len()
}

/// The subdirectory a deeper path goes into: its first segment.
pub open spec fn dir_name(p: PendingView) -> Seq<char> {
    p.rest.subrange(0, find_char(p.rest, '/', 0))
}

/// A deeper path as seen from inside its subdirectory.
pub open spec fn below_path(p: PendingView) -> PendingView {
    PendingView {
        rest: p.rest.subrange(find_char(p.rest, '/', 0) + 1, p.rest.len() as int),
        ..p
    }
}

/// The paths that go into subdirectory `n`, in order, as seen from inside.
pub open spec fn below(items: Seq<PendingView>, n: Seq<char>) -> Seq<PendingView>
    decreases items.len(),
{
    if items.len() == 0 {
        seq![]
    } else {
        let r = below(items.drop_last(), n);
        let p = items.last();
        if !is_file_item(p) && dir_name(p) == n {
            r.push(below_path(p))
        } else {
            r
        }
    }
}

/// Is item `k` the first that goes into its subdirectory?
pub open spec fn first_of_dir(items: Seq<PendingView>, k: int) -> bool {
    forall|j: int|
        0 <= j < k ==> is_file_item(#[trigger] items[j]) || dir_name(items[j]) != dir_name(
            items[k],
        )
}

pub open spec fn subdir_mode() -> Seq<char> {
    seq!['4', '0', '0', '0', '0']
}

/// The entries of one directory level from the first `upto` items: a file
/// where a path has no `/` left, and a subdirectory, named by its first
/// segment, where the first path into it occurs. `None` where a
/// subdirectory's tree has no id.
pub open spec fn level_entries(items: Seq<PendingView>, upto: int, fuel: nat) -> Option<
    Seq<TreeEntryView>,
>
    decreases fuel, upto,
{
    if upto <= 0 || upto > items.len() {
        if upto <= 0 {
            Some(seq![])
        } else {
            None
        }
    } else {
        match level_entries(items, upto - 1, fuel) {
            None => None,
            Some(es) => {
                let p = items[upto - 1];
                if is_file_item(p) {
                    Some(es.push(TreeEntryView { mode: p.mode, name: p.rest, sha: p.sha }))
                } else if !first_of_dir(items, upto - 1) {
                    Some(es)
                } else if fuel == 0 {
                    None
                } else {
                    match tree_id(below(items, dir_name(p)), (fuel - 1) as nat) {
                        Some(h) => Some(
                            es.push(TreeEntryView { mode: subdir_mode(), name: dir_name(p), sha: h }),
                        ),
                        None => None,
                    }
                }
            },
        }
    }
}

/// The id of the tree that the items make, its subtrees nested at most
/// `fuel` deep; `None` where an entry is one the tree codec cannot write.
pub open spec fn tree_id(items: Seq<PendingView>, fuel: nat) -> Option<Seq<char>>
    decreases fuel, items.len() + 1,
{
    match level_entries(items, items.len() as int, fuel) {
        Some(es) => if valid_entries(es) {
            Some(object_id(ObjectKind::Tree, tree_bytes(es)))
        } else {
            None
        },
        None => None,
    }
}

proof fn lemma_level_grows(items: Seq<PendingView>, j: int, m: int, fuel: nat)
    requires
        0 <= j <= m <= items.len(),
    ensures
        level_entries(items, j, fuel) is None ==> level_entries(items, m, fuel) is None,
        level_entries(items, j, fuel) is Some && level_entries(items, m, fuel) is Some ==> {
            let x = level_entries(items, j, fuel)->Some_0;
            let y = level_entries(items, m, fuel)->Some_0;
            x.len() <= y.len() && forall|k: int| 0 <= k < x.len() ==> #[trigger] y[k] == x[k]
        },
    decreases m - j,
{
    if j < m {
        lemma_level_grows(items, j, m - 1, fuel);
    }
}

/// Every tree that the items make is stored: the root and, below it, each
/// subdirectory's tree.
pub open spec fn built(s: Seq<(Seq<char>, Seq<u8>)>, items: Seq<PendingView>, fuel: nat) -> bool
    decreases fuel, items.len() + 1,
{
    tree_id(items, fuel) is Some && lookup(s, tree_id(items, fuel)->Some_0) is Some
        && built_level(s, items, items.len() as int, fuel)
}

/// The subdirectory trees of the first `upto` items are stored.
pub open spec fn built_level(
    s: Seq<(Seq<char>, Seq<u8>)>,
    items: Seq<PendingView>,
    upto: int,
    fuel: nat,
) -> bool
    decreases fuel, upto,
{
    if upto <= 0 || upto > items.len() {
        true
    } else {
        built_level(s, items, upto - 1, fuel) && (is_file_item(items[upto - 1]) || !first_of_dir(
            items,
            upto - 1,
        ) || (fuel > 0 && built(s, below(items, dir_name(items[upto - 1])), (fuel - 1) as nat)))
    }
}

pub proof fn lemma_lookup_extends(s: Seq<(Seq<char>, Seq<u8>)>, t: Seq<(Seq<char>, Seq<u8>)>, h: Seq<char>)
    requires
        extends(s, t),
        lookup(s, h) is Some,
    ensures
        lookup(t, h) == lookup(s, h),
    decreases s.len(),
{
    if s[0].0 != h {
        assert(t[0] == s[0]);
        assert(t.drop_first().subrange(0, s.drop_first().len() as int) =~= s.drop_first());
        lemma_lookup_extends(s.drop_first(), t.drop_first(), h);
    } else {
        assert(t[0] == s[0]);
    }
}

proof fn lemma_built_extends(
    s: Seq<(Seq<char>, Seq<u8>)>,
    t: Seq<(Seq<char>, Seq<u8>)>,
    items: Seq<PendingView>,
    upto: int,
    fuel: nat,
)
    requires
        extends(s, t),
    ensures
        built_level(s, items, upto, fuel) ==> built_level(t, items, upto, fuel),
        upto == items.len() && built(s, items, fuel) ==> built(t, items, fuel),
    decreases fuel, upto,
{
    if 0 < upto <= items.len() {
        lemma_built_extends(s, t, items, upto - 1, fuel);
        if fuel > 0 {
            let b = below(items, dir_name(items[upto - 1]));
            lemma_built_extends(s, t, b, b.len() as int, (fuel - 1) as nat);
        }
    }
    if upto == items.len() && built(s, items, fuel) {
        lemma_lookup_extends(s, t, tree_id(items, fuel)->Some_0);
    }
}

proof fn lemma_built_level_prefix(s: Seq<(Seq<char>, Seq<u8>)>, items: Seq<PendingView>, j: int, m: int, fuel: nat)
    requires
        0 <= j <= m <= items.len(),
        built_level(s, items, m, fuel),
    ensures
        built_level(s, items, j, fuel),
    decreases m - j,
{
    if j < m {
        lemma_built_level_prefix(s, items, j, m - 1, fuel);
    }
}

proof fn lemma_extends_refl(s: Seq<(Seq<char>, Seq<u8>)>)
    ensures
        extends(s, s),
{
    assert(s.subrange(0, s.len() as int) =~= s);
}

proof fn lemma_extends_trans(a: Seq<(Seq<char>, Seq<u8>)>, b: Seq<(Seq<char>, Seq<u8>)>, c: Seq<(Seq<char>, Seq<u8>)>)
    requires
        extends(a, b),
        extends(b, c),
    ensures
        extends(a, c),
{
    assert(c.subrange(0, a.len() as int) =~= b.subrange(0, a.len() as int));
}

/// Where the first `/` of `s` stands, or its length.
fn slash_at(s: &str) -> (r: usize)
    ensures
        r == find_char(s@, '/', 0),
        r <= s@.len(),
{
    let n = s.unicode_len();
    let mut i: usize = 0;
    while i < n
        invariant
            i <= n,
            n == s@.len(),
            find_char(s@, '/', 0) == find_char(s@, '/', i as int),
        decreases n - i,
    {
        if s.get_char(i) == '/' {
            return i;
        }
        i = i + 1;
    }
    n
}

/// Does the entry satisfy what the tree codec asks of it?
fn entry_ok(e: &TreeEntry) -> (r: bool)
    ensures
        r == valid_entry(e@),
{
    let mode_ok = is_file_mode_text(&e.mode) || is_dir_mode_text(&e.mode);
    let name_ok = !holds_char(e.name.as_str(), '\0');
    let sha_ok = is_object_id_text(e.sha.as_str());
    proof {
        if name_ok {
            assert forall|i: int| 0 <= i < e.name@.len() implies #[trigger] e.name@[i] != '\0' by {
                if e.name@[i] == '\0' {
                    assert(e.name@.contains('\0'));
                }
            }
        } else {
            let i = choose|i: int| 0 <= i < e.name@.len() && e.name@[i] == '\0';
            assert(!lacks_char(e.name@, '\0'));
        }
    }
    mode_ok && name_ok && sha_ok
}

/// The first segment of a path that has a `/`.
fn first_segment(s: &str, k: usize) -> (r: String)
    requires
        k < s@.len(),
    ensures
        r@ == s@.subrange(0, k as int),
{
    s.substring_char(0, k).to_owned()
}

/// Is item `i`, a deeper path into `name`, the first into it?
fn first_into(items: &Vec<Pending>, i: usize, name: &String) -> (r: bool)
    requires
        i < items@.len(),
        !is_file_item(pendings(items@)[i as int]),
        name@ == dir_name(pendings(items@)[i as int]),
    ensures
        r == first_of_dir(pendings(items@), i as int),
{
    let ghost iv = pendings(items@);
    let mut j: usize = 0;
    while j < i
        invariant
            j <= i < items@.len(),
            iv == pendings(items@),
            name@ == dir_name(iv[i as int]),
            forall|k: int| 0 <= k < j ==> is_file_item(#[trigger] iv[k]) || dir_name(iv[k]) != name@,
        decreases i - j,
    {
        let rest = items[j].rest.as_str();
        let k = slash_at(rest);
        if k < rest.unicode_len() {
            let seg = first_segment(rest, k);
            if seg.eq(name) {
                proof {
                    assert(iv[j as int] == items@[j as int]@);
                }
                return false;
            }
        }
        proof {
            assert(iv[j as int] == items@[j as int]@);
        }
        j = j + 1;
    }
    true
}

/// The paths that go into subdirectory `name`: see `below`.
fn collect_below(items: &Vec<Pending>, name: &String) -> (r: Vec<Pending>)
    ensures
        pendings(r@) == below(pendings(items@), name@),
{
    let ghost iv = pendings(items@);
    let mut r: Vec<Pending> = Vec::new();
    let mut i: usize = 0;
    while i < items.len()
        invariant
            i <= items@.len(),
            iv == pendings(items@),
            pendings(r@) == below(iv.subrange(0, i as int), name@),
        decreases items.len() - i,
    {
        proof {
            assert(iv.subrange(0, i + 1).drop_last() =~= iv.subrange(0, i as int));
            assert(iv.subrange(0, i + 1).last() == items@[i as int]@);
        }
        let p = &items[i];
        let rest = p.rest.as_str();
        let n = rest.unicode_len();
        let k = slash_at(rest);
        if k < n {
            let seg = first_segment(rest, k);
            if seg.eq(name) {
                let q = Pending {
                    rest: rest.substring_char(k + 1, n).to_owned(),
                    sha: p.sha.clone(),
                    mode: p.mode.clone(),
                };
                let ghost before = pendings(r@);
                let ghost qv = q@;
                r.push(q);
                proof {
                    assert(pendings(r@) =~= before.push(qv));
                }
            }
        }
        i = i + 1;
    }
    proof {
        assert(iv.subrange(0, i as int) =~= iv);
    }
    r
}

/// Writes the tree of one directory level, its subdirectories first, and
/// returns its id: see `tree_id`. It fails only where `tree_id` has no
/// id, with `InvalidInput`; when every tree it makes is stored already it
/// changes nothing.
fn build_dir(store: &mut ObjectStore, items: &Vec<Pending>, fuel: usize) -> (r: Result<
    String,
    Error,
>)
    ensures
        extends(old(store)@, final(store)@),
        r is Ok ==> tree_id(pendings(items@), fuel as nat) == Some(r->Ok_0@) && built(
            final(store)@,
            pendings(items@),
            fuel as nat,
        ),
        r is Err ==> r->Err_0 == Error::InvalidInput && tree_id(pendings(items@), fuel as nat)
            is None,
        built(old(store)@, pendings(items@), fuel as nat) ==> final(store)@ == old(store)@,
        sound(old(store)@) ==> sound(final(store)@),
    decreases fuel,
{
    let ghost iv = pendings(items@);
    let ghost f = fuel as nat;
    let mut entries: Vec<TreeEntry> = Vec::new();
    let mut i: usize = 0;
    proof {
        assert(old(store)@.subrange(0, old(store)@.len() as int) =~= old(store)@);
        assert(entries_view(entries@) =~= Seq::<TreeEntryView>::empty());
    }
    while i < items.len()
        invariant
            i <= items@.len(),
            iv == pendings(items@),
            f == fuel as nat,
            extends(old(store)@, store@),
            level_entries(iv, i as int, f) == Some(entries_view(entries@)),
            valid_entries(entries_view(entries@)),
            built_level(store@, iv, i as int, f),
            built(old(store)@, iv, f) ==> store@ == old(store)@,
            sound(old(store)@) ==> sound(store@),
        decreases items.len() - i,
    {
        let p = &items[i];
        proof {
            assert(iv[i as int] == p@);
        }
        let rest = p.rest.as_str();
        let n = rest.unicode_len();
        let k = slash_at(rest);
        let e = if k == n {
            let e = TreeEntry { mode: p.mode.clone(), name: p.rest.clone(), sha: p.sha.clone() };
            proof {
                assert(is_file_item(iv[i as int]));
                assert(level_entries(iv, i + 1, f) == Some(entries_view(entries@).push(e@)));
                assert(built_level(store@, iv, i + 1, f));
            }
            e
        } else {
            let name = first_segment(rest, k);
            proof {
                assert(!is_file_item(iv[i as int]));
                assert(name@ == dir_name(iv[i as int]));
            }
            if !first_into(items, i, &name) {
                proof {
                    assert(level_entries(iv, i + 1, f) == Some(entries_view(entries@)));
                    assert(built_level(store@, iv, i + 1, f));
                }
                i = i + 1;
                continue;
            }
            if fuel == 0 {
                proof {
                    lemma_level_grows(iv, i + 1, iv.len() as int, f);
                }
                return Err(Error::InvalidInput);
            }
            let below_items = collect_below(items, &name);
            let ghost mid = store@;
            let h = match build_dir(store, &below_items, fuel - 1) {
                Ok(h) => h,
                Err(err) => {
                    proof {
                        assert(store@.subrange(0, old(store)@.len() as int) =~= mid.subrange(
                            0,
                            old(store)@.len() as int,
                        ));
                        lemma_level_grows(iv, i + 1, iv.len() as int, f);
                    }
                    return Err(err);
                },
            };
            proof {
                assert(store@.subrange(0, old(store)@.len() as int) =~= mid.subrange(
                    0,
                    old(store)@.len() as int,
                ));
                reveal_strlit("40000");
                lemma_built_extends(mid, store@, iv, i as int, f);
                let b = below(iv, dir_name(iv[i as int]));
                assert(built(store@, b, (f - 1) as nat));
                assert(built_level(store@, iv, i + 1, f));
                if built(old(store)@, iv, f) {
                    lemma_built_level_prefix(old(store)@, iv, i + 1, iv.len() as int, f);
                    assert(built(old(store)@, b, (f - 1) as nat));
                }
            }
            let e = TreeEntry { mode: String::from_str("40000"), name, sha: h };
            proof {
                assert(e@.mode =~= subdir_mode());
                assert(level_entries(iv, i + 1, f) == Some(entries_view(entries@).push(e@)));
            }
            e
        };
        if !entry_ok(&e) {
            proof {
                lemma_level_grows(iv, i + 1, iv.len() as int, f);
                let es = entries_view(entries@).push(e@);
                if level_entries(iv, iv.len() as int, f) is Some {
                    let y = level_entries(iv, iv.len() as int, f)->Some_0;
                    assert(es[entries@.len() as int] == e@);
                    assert(y[entries@.len() as int] == e@);
                    assert(!valid_entries(y));
                }
            }
            return Err(Error::InvalidInput);
        }
        let ghost before = entries_view(entries@);
        entries.push(e);
        proof {
            assert(entries_view(entries@) =~= before.push(e@));
        }
        i = i + 1;
    }
    let tree = Tree { entries };
    let payload = tree.encode();
    let ghost before = store@;
    let r = store.write(ObjectKind::Tree, payload.as_slice());
    proof {
        crate::store::lemma_rewrite_is_noop(before, ObjectKind::Tree, payload@);
        assert(after_write(before, ObjectKind::Tree, payload@).subrange(0, before.len() as int)
            =~= before);
        assert(store@.subrange(0, old(store)@.len() as int) =~= before.subrange(
            0,
            old(store)@.len() as int,
        ));
        assert(iv.subrange(0, iv.len() as int) =~= iv);
        assert(tree_id(iv, f) == Some(object_id(ObjectKind::Tree, payload@)));
        lemma_built_extends(before, store@, iv, iv.len() as int, f);
        if built(old(store)@, iv, f) {
            assert(before == old(store)@);
        }
    }
    r
}

/// Writes a tree per directory of the staged paths, subdirectories first,
/// and returns the id of the root tree: see `tree_id`, with the nesting
/// bounded by the longest path (each level takes at least two characters
/// of it). It fails only where an entry is one the tree codec cannot
/// write (a malformed id, a NUL in a name), with `InvalidInput`. All the
/// trees it makes are then stored, so a second run over the same index
/// changes nothing.
pub fn build_tree_from_index(store: &mut ObjectStore, index: &Index) -> (r: Result<String, Error>)
    ensures
        extends(old(store)@, final(store)@),
        r is Ok ==> tree_id(staged_items(index@), longest_path(index@)) == Some(r->Ok_0@)
            && built(final(store)@, staged_items(index@), longest_path(index@)),
        r is Err ==> r->Err_0 == Error::InvalidInput && tree_id(
            staged_items(index@),
            longest_path(index@),
        ) is None,
        built(old(store)@, staged_items(index@), longest_path(index@)) ==> final(store)@ == old(
            store,
        )@,
        sound(old(store)@) ==> sound(final(store)@),
{
    let mut items: Vec<Pending> = Vec::new();
    let mut longest: usize = 0;
    let mut i: usize = 0;
    while i < index.entries.len()
        invariant
            i <= index.entries@.len(),
            pendings(items@) == staged_items(index@.subrange(0, i as int)),
            longest == longest_path(index@.subrange(0, i as int)),
        decreases index.entries.len() - i,
    {
        let e = &index.entries[i];
        let n = e.path.as_str().unicode_len();
        if n > longest {
            longest = n;
        }
        let q = Pending { rest: e.path.clone(), sha: e.sha.clone(), mode: e.mode.clone() };
        let ghost before = pendings(items@);
        let ghost qv = q@;
        items.push(q);
        proof {
            assert(index@.subrange(0, i + 1) =~= index@.subrange(0, i as int).push(index@[i as int]));
            assert(pendings(items@) =~= before.push(qv));
            assert(staged_items(index@.subrange(0, i + 1)) =~= staged_items(index@.subrange(0, i as int)).push(qv));
            assert(index@.subrange(0, i + 1).drop_last() =~= index@.subrange(0, i as int));
        }
        i = i + 1;
    }
    proof {
        assert(index@.subrange(0, i as int) =~= index@);
    }
    build_dir(store, &items, longest)
}

/// The length of the longest staged path.
pub open spec fn longest_path(es: Seq<IndexEntryView>) -> nat
    decreases es.len(),
{
    if es.len() == 0 {
        0
    } else {
        let m = longest_path(es.drop_last());
        if es.last().path.len() > m {
            es.last().path.len()
        } else {
            m
        }
    }
}

/// The staged entries as paths still to place, from the root.
pub open spec fn staged_items(es: Seq<IndexEntryView>) -> Seq<PendingView> {
    es.map_values(|e: IndexEntryView| PendingView { rest: e.path, sha: e.sha, mode: e.mode })
}

/// The commit record that `write_commit` stores.
pub open spec fn new_commit(
    tree: Seq<char>,
    parent: Option<Seq<char>>,
    author: SignatureView,
    message: Seq<char>,
) -> CommitView {
    CommitView { tree, parent, author, committer: author, message }
}

/// Stores a commit of `tree` on top of `parent`, written and committed by
/// `author`, and returns its id.
pub fn write_commit(
    store: &mut ObjectStore,
    tree: &str,
    parent: Option<String>,
    author: &Signature,
    message: &str,
) -> (r: Result<String, Error>)
    ensures
        r is Ok,
        r->Ok_0@ == object_id(
            ObjectKind::Commit,
            commit_bytes(new_commit(tree@, opt_view(parent), author@, message@)),
        ),
        final(store)@ == after_write(
            old(store)@,
            ObjectKind::Commit,
            commit_bytes(new_commit(tree@, opt_view(parent), author@, message@)),
        ),
        lookup(old(store)@, r->Ok_0@) is None ==> raw_result(final(store)@, r->Ok_0@) == Ok::<
            Seq<u8>,
            Error,
        >(
            crate::store::framed(
                ObjectKind::Commit,
                commit_bytes(new_commit(tree@, opt_view(parent), author@, message@)),
            ),
        ),
        sound(old(store)@) ==> sound(final(store)@),
{
    let c = Commit {
        tree: tree.to_owned(),
        parent,
        author: author.copy(),
        committer: author.copy(),
        message: message.to_owned(),
    };
    let payload = c.encode();
    store.write(ObjectKind::Commit, payload.as_slice())
}

/// The identity to commit as: the configured name and email, each falling
/// back to a placeholder where it is unset or could not be read.
pub fn get_author_info(
    name: Result<Option<String>, ConfigError>,
    email: Result<Option<String>, ConfigError>,
) -> (r: (String, String))
    ensures
        r.0@ == match name {
            Ok(Some(n)) => n@,
            _ => "You"@,
        },
        r.1@ == match email {
            Ok(Some(e)) => e@,
            _ => "you@example.com"@,
        },
{
    let n = match name {
        Ok(Some(n)) => n,
        _ => String::from_str("You"),
    };
    let e = match email {
        Ok(Some(e)) => e,
        _ => String::from_str("you@example.com"),
    };
    (n, e)
}

/// Why reading the configuration failed.
#[derive(Clone, Debug)]
pub enum ConfigError {
    IoError(String),
    ParseError(String),
    HomeDirNotFound,
}

/// What a commit request came to.
#[derive(Clone, Debug)]
pub enum CommitOutcome {
    /// The index is empty.
    NothingToCommit,
    /// Every staged entry is already in HEAD's tree.
    UpToDate,
    /// A new commit, with its id.
    Created(String),
}

/// A commit is due: the index is not empty, and there is no commit yet or
/// the index differs from the tree of the one there is.
pub open spec fn should_commit(
    s: Seq<(Seq<char>, Seq<u8>)>,
    index: Seq<IndexEntryView>,
    head: Option<Seq<char>>,
) -> bool {
    index.len() > 0 && match head {
        None => true,
        Some(h) => commit_paths(s, h) is Ok && !matches_head(index, commit_paths(s, h)->Ok_0),
    }
}

/// Commits the index on top of `head` (the commit HEAD resolves to, if
/// any): nothing when the index is empty or matches HEAD's tree; otherwise
/// the trees and a commit are written and the new id returned, for the
/// caller to move HEAD's branch (or detached HEAD) to.
pub fn commit(
    store: &mut ObjectStore,
    index: &Index,
    head: Option<&str>,
    author: &Signature,
    message: &str,
) -> (r: Result<CommitOutcome, Error>)
    requires
        old(store)@.len() < usize::MAX,
    ensures
        extends(old(store)@, final(store)@),
        index@.len() == 0 ==> r is Ok && r->Ok_0 is NothingToCommit && final(store)@ == old(store)@,
        index@.len() > 0 && head is Some ==> match commit_paths(old(store)@, head->0@) {
            Ok(m) => matches_head(index@, m) ==> r is Ok && r->Ok_0 is UpToDate && final(store)@
                == old(store)@,
            Err(e) => r == Err::<CommitOutcome, Error>(e) && final(store)@ == old(store)@,
        },
        sound(old(store)@) ==> sound(final(store)@),
        r is Ok && r->Ok_0 is Created ==> should_commit(old(store)@, index@, opt_str(head)),
        should_commit(old(store)@, index@, opt_str(head)) ==> match tree_id(
            staged_items(index@),
            longest_path(index@),
        ) {
            None => r == Err::<CommitOutcome, Error>(Error::InvalidInput),
            Some(t) => r is Ok && r->Ok_0 is Created && r->Ok_0->Created_0@ == object_id(
                ObjectKind::Commit,
                commit_bytes(new_commit(t, opt_str(head), author@, message@)),
            ) && lookup(final(store)@, r->Ok_0->Created_0@) is Some && built(
                final(store)@,
                staged_items(index@),
                longest_path(index@),
            ),
        },
{
    proof {
        assert(old(store)@.subrange(0, old(store)@.len() as int) =~= old(store)@);
    }
    if index.entries.len() == 0 {
        return Ok(CommitOutcome::NothingToCommit);
    }
    match head {
        Some(h) => match load_tree_map_from_commit(store, h) {
            Ok(m) => {
                if index_matches_head(index, &m) {
                    return Ok(CommitOutcome::UpToDate);
                }
            },
            Err(e) => {
                return Err(e);
            },
        },
        None => {},
    }
    let tree = match build_tree_from_index(store, index) {
        Ok(t) => t,
        Err(e) => {
            return Err(e);
        },
    };
    let parent = match head {
        Some(h) => Some(h.to_owned()),
        None => None,
    };
    let ghost mid = store@;
    let ghost pv = opt_view(parent);
    let id = match write_commit(store, tree.as_str(), parent, author, message) {
        Ok(id) => id,
        Err(e) => {
            return Err(e);
        },
    };
    proof {
        let p = commit_bytes(new_commit(tree@, pv, author@, message@));
        crate::store::lemma_rewrite_is_noop(mid, ObjectKind::Commit, p);
        assert(after_write(mid, ObjectKind::Commit, p).subrange(0, mid.len() as int) =~= mid);
        assert(store@.subrange(0, old(store)@.len() as int) =~= mid.subrange(0, old(store)@.len() as int));
        assert(pv == opt_str(head));
        let items = staged_items(index@);
        lemma_built_extends(mid, store@, items, items.len() as int, longest_path(index@));
    }
    Ok(CommitOutcome::Created(id))
}

/// The file to write when HEAD moves to commit `id`, relative to the
/// metadata directory, and its text.
pub struct HeadUpdate {
    pub path: String,
    pub text: String,
}

/// Where a new commit is recorded: in the branch ref that a symbolic HEAD
/// names, or in HEAD itself when it is detached.
pub fn update_head(head: &str, id: &str) -> (r: HeadUpdate)
    ensures
        r.text@ == id@ + seq!['\n'],
        r.path@ == match head_of(head@) {
            HeadView::Symbolic(p) => p,
            HeadView::Detached(_) => "HEAD"@,
        },
{
    let text = ref_text(id);
    match parse_head(head) {
        Head::Symbolic(p) => HeadUpdate { path: p, text },
        Head::Detached(_) => HeadUpdate { path: String::from_str("HEAD"), text },
    }
}

/// The mode of a regular file, `100644`.
pub open spec fn regular_mode() -> Seq<char> {
    seq!['1', '0', '0', '6', '4', '4']
}

/// What `reset` did to the path.
#[derive(Clone, Copy, Debug, PartialEq, Eq, Structural)]
pub enum ResetOutcome {
    /// The index entry now holds HEAD's id again.
    Unstaged,
    /// The path is not in HEAD, so it left the index.
    Removed,
}

/// Resets one path of the index to HEAD (`head` is HEAD's path map): a
/// path that HEAD records is staged again with HEAD's id; any other path
/// is unstaged.
pub fn reset(index: &mut Index, head: &Vec<(String, String)>, path: &String, ignore: &Vec<String>) -> (r:
    ResetOutcome)
    requires
        distinct_paths(old(index)@),
    ensures
        distinct_paths(final(index)@),
        match map_get(pairs_view(head@), path@) {
            Some(h) => r == ResetOutcome::Unstaged && final(index)@ == after_add(
                old(index)@,
                IndexEntryView { path: path@, sha: h, mode: regular_mode() },
                texts(ignore@),
            ),
            None => r == ResetOutcome::Removed && final(index)@ == without_path(
                old(index)@,
                path@,
            ),
        },
{
    match lookup_path(head, path) {
        Some(h) => {
            let ghost hv = h@;
            proof {
                reveal_strlit("100644");
                assert("100644"@ =~= regular_mode());
            }
            let e = IndexEntry { path: path.clone(), sha: h, mode: String::from_str("100644") };
            index.add(e, ignore);
            ResetOutcome::Unstaged
        },
        None => {
            index.remove(path);
            ResetOutcome::Removed
        },
    }
}

/// The id of a file's content as a blob, stored when `write` is set.
pub fn hash_object(store: &mut ObjectStore, content: &[u8], write: bool) -> (r: Result<String, Error>)
    ensures
        r is Ok,
        r->Ok_0@ == object_id(ObjectKind::Blob, content@),
        write ==> final(store)@ == after_write(old(store)@, ObjectKind::Blob, content@),
        write && lookup(old(store)@, r->Ok_0@) is None ==> raw_result(final(store)@, r->Ok_0@)
            == Ok::<Seq<u8>, Error>(crate::store::framed(ObjectKind::Blob, content@)),
        !write ==> final(store)@ == old(store)@,
        sound(old(store)@) ==> sound(final(store)@),
{
    if write {
        store.write(ObjectKind::Blob, content)
    } else {
        Ok(crate::store::hash_payload(ObjectKind::Blob, content))
    }
}

/// Stages a file: its content is stored as a blob and the index records
/// `path` (repository-relative, with forward slashes) with its id and the
/// regular file mode.
pub fn add_file(
    store: &mut ObjectStore,
    index: &mut Index,
    path: &String,
    content: &[u8],
    ignore: &Vec<String>,
) -> (r: Result<(), Error>)
    requires
        distinct_paths(old(index)@),
    ensures
        distinct_paths(final(index)@),
        r is Ok,
        final(store)@ == after_write(old(store)@, ObjectKind::Blob, content@),
        lookup(old(store)@, object_id(ObjectKind::Blob, content@)) is None ==> raw_result(
            final(store)@,
            object_id(ObjectKind::Blob, content@),
        ) == Ok::<Seq<u8>, Error>(crate::store::framed(ObjectKind::Blob, content@)),
        sound(old(store)@) ==> sound(final(store)@),
        final(index)@ == after_add(
            old(index)@,
            IndexEntryView {
                path: path@,
                sha: object_id(ObjectKind::Blob, content@),
                mode: regular_mode(),
            },
            texts(ignore@),
        ),
{
    let sha = match store.write(ObjectKind::Blob, content) {
        Ok(s) => s,
        Err(e) => {
            return Err(e);
        },
    };
    proof {
        reveal_strlit("100644");
        assert("100644"@ =~= regular_mode());
    }
    let e = IndexEntry { path: path.clone(), sha, mode: String::from_str("100644") };
    index.add(e, ignore);
    Ok(())
}

} // verus!
