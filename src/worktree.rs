//! Reconciling a working tree with stored trees: the path map of a tree,
//! the status of live files against it, and the files a restore writes.
use crate::error::Error;
use crate::objects::{is_dir_mode, is_file_mode, TreeEntryView};
use crate::store::{
    hash_payload, lemma_read_blob_id, object_id, read_result, sound, Object, ObjectKind, ObjectStore,
    ObjectView,
};
use vstd::prelude::*;
use vstd::string::StringExecFns;
use vstd::utf8::encode_utf8;

verus! {

/// A path map: repository-relative paths with the blob ids they hold.
pub type PathMapView = Seq<(Seq<char>, Seq<char>)>;

pub open spec fn pairs_view(v: Seq<(String, String)>) -> PathMapView {
    v.map_values(|x: (String, String)| (x.0@, x.1@))
}

/// `name` under directory `prefix`, with a forward slash between.
pub open spec fn join_path(prefix: Seq<char>, name: Seq<char>) -> Seq<char> {
    if prefix.len() == 0 {
        name
    } else {
        prefix + seq!['/'] + name
    }
}

/// The path map of tree `h`, its paths under `prefix`: files are listed in
/// entry order, subdirectories are walked where they stand, and entries of
/// an unknown mode are passed over. `fuel` bounds the nesting, so that a
/// store whose trees contain themselves gives an error.
pub open spec fn tree_paths(
    s: Seq<(Seq<char>, Seq<u8>)>,
    h: Seq<char>,
    prefix: Seq<char>,
    fuel: nat,
) -> Result<PathMapView, Error>
    decreases fuel, 0nat,
{
    if fuel == 0 {
        Err(Error::CorruptObject)
    } else {
        match read_result(s, h) {
            Ok(ObjectView::Tree(es)) => entry_paths(s, es, prefix, (fuel - 1) as nat),
            Ok(_) => Err(Error::CorruptObject),
            Err(e) => Err(e),
        }
    }
}

/// The path map of a run of entries under `prefix`.
pub open spec fn entry_paths(
    s: Seq<(Seq<char>, Seq<u8>)>,
    es: Seq<TreeEntryView>,
    prefix: Seq<char>,
    fuel: nat,
) -> Result<PathMapView, Error>
    decreases fuel, es.len(),
{
    if es.len() == 0 {
        Ok(seq![])
    } else {
        match entry_paths(s, es.drop_last(), prefix, fuel) {
            Err(e) => Err(e),
            Ok(m) => {
                let e = es.last();
                let p = join_path(prefix, e.name);
                if is_file_mode(e.mode) {
                    Ok(m.push((p, e.sha)))
                } else if is_dir_mode(e.mode) {
                    match tree_paths(s, e.sha, p, fuel) {
                        Ok(sub) => Ok(m + sub),
                        Err(e) => Err(e),
                    }
                } else {
                    Ok(m)
                }
            },
        }
    }
}

/// The path map of the tree of the commit `c`.
pub open spec fn commit_paths(s: Seq<(Seq<char>, Seq<u8>)>, c: Seq<char>) -> Result<
    PathMapView,
    Error,
> {
    match read_result(s, c) {
        Ok(ObjectView::Commit(cv)) => tree_paths(s, cv.tree, seq![], (s.len() + 1) as nat),
        Ok(_) => Err(Error::InvalidInput),
        Err(e) => Err(e),
    }
}

fn mode_is(m: &String, want: &[u8]) -> (r: bool)
    ensures
        r == (encode_utf8(m@) == want@),
{
    let ms = m.as_str();
    let b = ms.as_bytes();
    assert(b@ == encode_utf8(m@));
    if b.len() != want.len() {
        return false;
    }
    let mut i: usize = 0;
    while i < b.len()
        invariant
            i <= b@.len(),
            b@.len() == want@.len(),
            b@ == encode_utf8(m@),
            forall|j: int| 0 <= j < i ==> b@[j] == want@[j],
        decreases b.len() - i,
    {
        if b[i] != want[i] {
            proof {
                assert(b@[i as int] != want@[i as int]);
                assert(encode_utf8(m@) != want@);
            }
            return false;
        }
        i = i + 1;
    }
    proof {
        assert(b@ =~= want@);
    }
    true
}

/// Is `m` one of the two file modes?
pub fn is_file_mode_text(m: &String) -> (r: bool)
    ensures
        r == is_file_mode(m@),
{
    let f: Vec<u8> = vec![49u8, 48, 48, 54, 52, 52];
    let x: Vec<u8> = vec![49u8, 48, 48, 55, 53, 53];
    mode_is(m, f.as_slice()) || mode_is(m, x.as_slice())
}

/// Is `m` the subdirectory mode?
pub fn is_dir_mode_text(m: &String) -> (r: bool)
    ensures
        r == is_dir_mode(m@),
{
    let d: Vec<u8> = vec![52u8, 48, 48, 48, 48];
    mode_is(m, d.as_slice())
}

/// `name` under `prefix`.
pub fn join(prefix: &String, name: &String) -> (r: String)
    ensures
        r@ == join_path(prefix@, name@),
{
    if prefix.as_str().is_empty() {
        name.clone()
    } else {
        let p = prefix.clone().concat("/");
        proof {
            reveal_strlit("/");
            assert(p@ == prefix@ + seq!['/']);
        }
        p.concat(name.as_str())
    }
}

proof fn lemma_err_sticks(
    s: Seq<(Seq<char>, Seq<u8>)>,
    es: Seq<TreeEntryView>,
    j: int,
    prefix: Seq<char>,
    fuel: nat,
)
    requires
        0 <= j <= es.len(),
        entry_paths(s, es.subrange(0, j), prefix, fuel) is Err,
    ensures
        entry_paths(s, es, prefix, fuel) == entry_paths(s, es.subrange(0, j), prefix, fuel),
    decreases es.len() - j,
{
    if j < es.len() {
        assert(es.subrange(0, j + 1).drop_last() =~= es.subrange(0, j));
        lemma_err_sticks(s, es, j + 1, prefix, fuel);
    } else {
        assert(es.subrange(0, j) =~= es);
    }
}

fn build_tree_map_recursive(
    store: &ObjectStore,
    h: &String,
    prefix: &String,
    fuel: usize,
    out: &mut Vec<(String, String)>,
) -> (r: Result<(), Error>)
    ensures
        match tree_paths(store@, h@, prefix@, fuel as nat) {
            Ok(m) => r is Ok && pairs_view(final(out)@) == pairs_view(old(out)@) + m,
            Err(e) => r == Err::<(), Error>(e),
        },
    decreases fuel,
{
    if fuel == 0 {
        return Err(Error::CorruptObject);
    }
    let tree = match store.read(h.as_str()) {
        Ok(Object::Tree(t)) => t,
        Ok(_) => {
            return Err(Error::CorruptObject);
        },
        Err(e) => {
            return Err(e);
        },
    };
    let ghost es = tree@;
    let ghost f = (fuel - 1) as nat;
    let ghost start = pairs_view(out@);
    let mut i: usize = 0;
    proof {
        assert(es.subrange(0, 0) =~= Seq::<TreeEntryView>::empty());
        assert(start + Seq::<(Seq<char>, Seq<char>)>::empty() =~= start);
    }
    while i < tree.entries.len()
        invariant
            i <= es.len(),
            es == tree@,
            fuel > 0,
            f == fuel - 1,
            start == pairs_view(old(out)@),
            tree_paths(store@, h@, prefix@, fuel as nat) == entry_paths(store@, es, prefix@, f),
            entry_paths(store@, es.subrange(0, i as int), prefix@, f) is Ok,
            pairs_view(out@) == start + entry_paths(
                store@,
                es.subrange(0, i as int),
                prefix@,
                f,
            )->Ok_0,
        decreases tree.entries.len() - i,
    {
        let e = &tree.entries[i];
        let ghost m = entry_paths(store@, es.subrange(0, i as int), prefix@, f)->Ok_0;
        let ghost before = out@;
        proof {
            assert(es.subrange(0, i + 1).drop_last() =~= es.subrange(0, i as int));
            assert(es.subrange(0, i + 1).last() == e@);
        }
        let p = join(prefix, &e.name);
        if is_file_mode_text(&e.mode) {
            out.push((p, e.sha.clone()));
            proof {
                assert(pairs_view(out@) =~= pairs_view(before).push((p@, e.sha@)));
            }
        } else if is_dir_mode_text(&e.mode) {
            match build_tree_map_recursive(store, &e.sha, &p, fuel - 1, out) {
                Ok(()) => {},
                Err(err) => {
                    proof {
                        lemma_err_sticks(store@, es, i + 1, prefix@, f);
                    }
                    return Err(err);
                },
            }
        }
        proof {
            assert(pairs_view(out@) =~= start + entry_paths(
                store@,
                es.subrange(0, i + 1),
                prefix@,
                f,
            )->Ok_0);
        }
        i = i + 1;
    }
    proof {
        assert(es.subrange(0, i as int) =~= es);
    }
    Ok(())
}

/// The path map of tree `h`: see `tree_paths`; the nesting is bounded by
/// the number of stored objects, which no tree within the store exceeds.
pub fn build_tree_map(store: &ObjectStore, h: &String) -> (r: Result<Vec<(String, String)>, Error>)
    requires
        store@.len() < usize::MAX,
    ensures
        match tree_paths(store@, h@, seq![], (store@.len() + 1) as nat) {
            Ok(m) => r is Ok && pairs_view(r->Ok_0@) == m,
            Err(e) => r == Err::<Vec<(String, String)>, Error>(e),
        },
{
    let mut out: Vec<(String, String)> = Vec::new();
    let prefix = String::new();
    proof {
        assert(pairs_view(out@) =~= Seq::<(Seq<char>, Seq<char>)>::empty());
    }
    match build_tree_map_recursive(store, h, &prefix, store.len() + 1, &mut out) {
        Ok(()) => {
            proof {
                assert(pairs_view(out@) =~= Seq::<(Seq<char>, Seq<char>)>::empty() + pairs_view(out@));
            }
            Ok(out)
        },
        Err(e) => Err(e),
    }
}

/// The path map of the tree of commit `c`: see `commit_paths`.
pub fn load_tree_map_from_commit(store: &ObjectStore, c: &str) -> (r: Result<
    Vec<(String, String)>,
    Error,
>)
    requires
        store@.len() < usize::MAX,
    ensures
        match commit_paths(store@, c@) {
            Ok(m) => r is Ok && pairs_view(r->Ok_0@) == m,
            Err(e) => r == Err::<Vec<(String, String)>, Error>(e),
        },
{
    match store.read(c) {
        Ok(Object::Commit(cm)) => build_tree_map(store, &cm.tree),
        Ok(_) => Err(Error::InvalidInput),
        Err(e) => Err(e),
    }
}

/// A live or restored file: its path and its content.
pub open spec fn files_view(v: Seq<(String, Vec<u8>)>) -> Seq<(Seq<char>, Seq<u8>)> {
    v.map_values(|x: (String, Vec<u8>)| (x.0@, x.1@))
}

pub open spec fn texts_view(v: Seq<String>) -> Seq<Seq<char>> {
    v.map_values(|x: String| x@)
}

/// The id recorded for path `p`: that of its last occurrence.
pub open spec fn map_get(m: PathMapView, p: Seq<char>) -> Option<Seq<char>>
    decreases m.len(),
{
    if m.len() == 0 {
        None
    } else if m.last().0 == p {
        Some(m.last().1)
    } else {
        map_get(m.drop_last(), p)
    }
}

/// Is `p` among the paths of the files?
pub open spec fn has_path(fs: Seq<(Seq<char>, Seq<u8>)>, p: Seq<char>) -> bool {
    exists|i: int| 0 <= i < fs.len() && #[trigger] fs[i].0 == p
}

/// No path occurs twice.
pub open spec fn unique_paths(m: PathMapView) -> bool {
    forall|i: int, j: int| 0 <= i < j < m.len() ==> #[trigger] m[i].0 != #[trigger] m[j].0
}

/// The live files, in walk order, whose path is recorded with another id.
pub open spec fn modified_paths(m: PathMapView, fs: Seq<(Seq<char>, Seq<u8>)>) -> Seq<Seq<char>>
    decreases fs.len(),
{
    if fs.len() == 0 {
        seq![]
    } else {
        let rest = modified_paths(m, fs.drop_last());
        let f = fs.last();
        match map_get(m, f.0) {
            Some(h) => if h != object_id(ObjectKind::Blob, f.1) {
                rest.push(f.0)
            } else {
                rest
            },
            None => rest,
        }
    }
}

/// The live files, in walk order, whose path is not recorded.
pub open spec fn untracked_paths(m: PathMapView, fs: Seq<(Seq<char>, Seq<u8>)>) -> Seq<Seq<char>>
    decreases fs.len(),
{
    if fs.len() == 0 {
        seq![]
    } else {
        let rest = untracked_paths(m, fs.drop_last());
        if map_get(m, fs.last().0) is None {
            rest.push(fs.last().0)
        } else {
            rest
        }
    }
}

/// The recorded paths, in map order and each once, that no live file has.
pub open spec fn deleted_paths(m: PathMapView, fs: Seq<(Seq<char>, Seq<u8>)>) -> Seq<Seq<char>>
    decreases m.len(),
{
    if m.len() == 0 {
        seq![]
    } else {
        let rest = deleted_paths(m.drop_last(), fs);
        if has_path(fs, m.last().0) || rest.contains(m.last().0) {
            rest
        } else {
            rest.push(m.last().0)
        }
    }
}

/// The three lists of a status report.
pub struct StatusReport {
    pub modified: Vec<String>,
    pub deleted: Vec<String>,
    pub untracked: Vec<String>,
}

impl StatusReport {
    /// Nothing modified, deleted or untracked.
    pub fn is_clean(&self) -> (r: bool)
        ensures
            r == (self.modified@.len() == 0 && self.deleted@.len() == 0
                && self.untracked@.len() == 0),
    {
        self.modified.len() == 0 && self.deleted.len() == 0 && self.untracked.len() == 0
    }
}

/// The id recorded for `p`: see `map_get`.
pub fn lookup_path(m: &Vec<(String, String)>, p: &String) -> (r: Option<String>)
    ensures
        match r {
            Some(h) => map_get(pairs_view(m@), p@) == Some(h@),
            None => map_get(pairs_view(m@), p@) is None,
        },
{
    let mut i: usize = m.len();
    proof {
        assert(pairs_view(m@).subrange(0, i as int) =~= pairs_view(m@));
    }
    while i > 0
        invariant
            i <= m@.len(),
            map_get(pairs_view(m@), p@) == map_get(pairs_view(m@).subrange(0, i as int), p@),
        decreases i,
    {
        let ghost v = pairs_view(m@).subrange(0, i as int);
        proof {
            assert(v.drop_last() =~= pairs_view(m@).subrange(0, i - 1));
        }
        if m[i - 1].0.eq(p) {
            return Some(m[i - 1].1.clone());
        }
        i = i - 1;
    }
    None
}

/// Does `v` hold `p`?
fn contains_text(v: &Vec<String>, p: &String) -> (r: bool)
    ensures
        r == texts_view(v@).contains(p@),
{
    let mut i: usize = 0;
    while i < v.len()
        invariant
            i <= v@.len(),
            forall|j: int| 0 <= j < i ==> texts_view(v@)[j] != p@,
        decreases v.len() - i,
    {
        if v[i].eq(p) {
            proof {
                assert(texts_view(v@)[i as int] == p@);
            }
            return true;
        }
        i = i + 1;
    }
    false
}

/// Does some file have path `p`?
pub fn contains_path(fs: &Vec<(String, Vec<u8>)>, p: &String) -> (r: bool)
    ensures
        r == has_path(files_view(fs@), p@),
{
    let mut i: usize = 0;
    while i < fs.len()
        invariant
            i <= fs@.len(),
            forall|j: int| 0 <= j < i ==> files_view(fs@)[j].0 != p@,
        decreases fs.len() - i,
    {
        if fs[i].0.eq(p) {
            proof {
                assert(files_view(fs@)[i as int].0 == p@);
            }
            return true;
        }
        i = i + 1;
    }
    false
}

/// Compares live files with a path map (empty where there is no commit
/// yet): a file recorded with another id is modified, one not recorded is
/// untracked, and a recorded path that no file has is deleted.
pub fn status_diff(head: &Vec<(String, String)>, files: &Vec<(String, Vec<u8>)>) -> (r:
    StatusReport)
    ensures
        texts_view(r.modified@) == modified_paths(pairs_view(head@), files_view(files@)),
        texts_view(r.untracked@) == untracked_paths(pairs_view(head@), files_view(files@)),
        texts_view(r.deleted@) == deleted_paths(pairs_view(head@), files_view(files@)),
{
    let ghost m = pairs_view(head@);
    let ghost fs = files_view(files@);
    let mut modified: Vec<String> = Vec::new();
    let mut untracked: Vec<String> = Vec::new();
    let mut i: usize = 0;
    while i < files.len()
        invariant
            i <= fs.len(),
            m == pairs_view(head@),
            fs == files_view(files@),
            texts_view(modified@) == modified_paths(m, fs.subrange(0, i as int)),
            texts_view(untracked@) == untracked_paths(m, fs.subrange(0, i as int)),
        decreases files.len() - i,
    {
        proof {
            assert(fs.subrange(0, i + 1).drop_last() =~= fs.subrange(0, i as int));
            assert(fs.subrange(0, i + 1).last() == fs[i as int]);
        }
        let path = &files[i].0;
        let id = hash_payload(ObjectKind::Blob, files[i].1.as_slice());
        match lookup_path(head, path) {
            Some(h) => {
                if !h.eq(&id) {
                    modified.push(path.clone());
                    proof {
                        assert(texts_view(modified@) =~= modified_paths(m, fs.subrange(0, i as int)).push(path@));
                    }
                }
            },
            None => {
                untracked.push(path.clone());
                proof {
                    assert(texts_view(untracked@) =~= untracked_paths(m, fs.subrange(0, i as int)).push(path@));
                }
            },
        }
        i = i + 1;
    }
    proof {
        assert(fs.subrange(0, i as int) =~= fs);
    }
    let mut deleted: Vec<String> = Vec::new();
    let mut j: usize = 0;
    while j < head.len()
        invariant
            j <= m.len(),
            m == pairs_view(head@),
            fs == files_view(files@),
            texts_view(deleted@) == deleted_paths(m.subrange(0, j as int), fs),
        decreases head.len() - j,
    {
        proof {
            assert(m.subrange(0, j + 1).drop_last() =~= m.subrange(0, j as int));
            assert(m.subrange(0, j + 1).last() == m[j as int]);
        }
        let path = &head[j].0;
        if !contains_path(files, path) && !contains_text(&deleted, path) {
            deleted.push(path.clone());
            proof {
                assert(texts_view(deleted@) =~= deleted_paths(m.subrange(0, j as int), fs).push(path@));
            }
        }
        j = j + 1;
    }
    proof {
        assert(m.subrange(0, j as int) =~= m);
    }
    StatusReport { modified, deleted, untracked }
}

/// The files that restoring a path map writes: each path with the content
/// of its blob, in map order.
pub open spec fn restore_files(s: Seq<(Seq<char>, Seq<u8>)>, m: PathMapView) -> Result<
    Seq<(Seq<char>, Seq<u8>)>,
    Error,
>
    decreases m.len(),
{
    if m.len() == 0 {
        Ok(seq![])
    } else {
        match restore_files(s, m.drop_last()) {
            Err(e) => Err(e),
            Ok(fs) => match read_result(s, m.last().1) {
                Ok(ObjectView::Blob(c)) => Ok(fs.push((m.last().0, c))),
                Ok(_) => Err(Error::CorruptObject),
                Err(e) => Err(e),
            },
        }
    }
}

/// The files that restoring commit `c` writes into an emptied working tree.
pub open spec fn restore_plan(s: Seq<(Seq<char>, Seq<u8>)>, c: Seq<char>) -> Result<
    Seq<(Seq<char>, Seq<u8>)>,
    Error,
> {
    match commit_paths(s, c) {
        Ok(m) => restore_files(s, m),
        Err(e) => Err(e),
    }
}

proof fn lemma_restore_err_sticks(s: Seq<(Seq<char>, Seq<u8>)>, m: PathMapView, j: int)
    requires
        0 <= j <= m.len(),
        restore_files(s, m.subrange(0, j)) is Err,
    ensures
        restore_files(s, m) == restore_files(s, m.subrange(0, j)),
    decreases m.len() - j,
{
    if j < m.len() {
        assert(m.subrange(0, j + 1).drop_last() =~= m.subrange(0, j));
        lemma_restore_err_sticks(s, m, j + 1);
    } else {
        assert(m.subrange(0, j) =~= m);
    }
}

/// The files to write when checking out commit `c`: see `restore_plan`.
/// The working tree is emptied first, all but the metadata directory.
pub fn restore_commit(store: &ObjectStore, c: &str) -> (r: Result<Vec<(String, Vec<u8>)>, Error>)
    requires
        store@.len() < usize::MAX,
    ensures
        match restore_plan(store@, c@) {
            Ok(fs) => r is Ok && files_view(r->Ok_0@) == fs,
            Err(e) => r == Err::<Vec<(String, Vec<u8>)>, Error>(e),
        },
{
    let map = match load_tree_map_from_commit(store, c) {
        Ok(m) => m,
        Err(e) => {
            return Err(e);
        },
    };
    let ghost m = pairs_view(map@);
    let mut out: Vec<(String, Vec<u8>)> = Vec::new();
    let mut i: usize = 0;
    proof {
        assert(m.subrange(0, 0) =~= Seq::<(Seq<char>, Seq<char>)>::empty());
        assert(files_view(out@) =~= Seq::<(Seq<char>, Seq<u8>)>::empty());
    }
    while i < map.len()
        invariant
            i <= m.len(),
            m == pairs_view(map@),
            restore_plan(store@, c@) == restore_files(store@, m),
            restore_files(store@, m.subrange(0, i as int)) == Ok::<Seq<(Seq<char>, Seq<u8>)>, Error>(files_view(out@)),
        decreases map.len() - i,
    {
        proof {
            assert(m.subrange(0, i + 1).drop_last() =~= m.subrange(0, i as int));
            assert(m.subrange(0, i + 1).last() == m[i as int]);
        }
        let ghost before = out@;
        match store.read(map[i].1.as_str()) {
            Ok(Object::Blob(content)) => {
                let ghost cv = content@;
                out.push((map[i].0.clone(), content));
                proof {
                    assert(files_view(out@) =~= files_view(before).push((m[i as int].0, cv)));
                }
            },
            Ok(_) => {
                proof {
                    lemma_restore_err_sticks(store@, m, i + 1);
                }
                return Err(Error::CorruptObject);
            },
            Err(e) => {
                proof {
                    lemma_restore_err_sticks(store@, m, i + 1);
                }
                return Err(e);
            },
        }
        i = i + 1;
    }
    proof {
        assert(m.subrange(0, i as int) =~= m);
    }
    Ok(out)
}

/// Each path of a path map that restores records the blob id of the
/// content restored there: the SHA-1 of that content under the blob
/// framing.
pub proof fn lemma_restore_shape(s: Seq<(Seq<char>, Seq<u8>)>, m: PathMapView)
    requires
        sound(s),
        restore_files(s, m) is Ok,
    ensures
        restore_files(s, m)->Ok_0.len() == m.len(),
        forall|i: int|
            0 <= i < m.len() ==> #[trigger] restore_files(s, m)->Ok_0[i].0 == m[i].0 && m[i].1
                == object_id(ObjectKind::Blob, restore_files(s, m)->Ok_0[i].1),
    decreases m.len(),
{
    if m.len() > 0 {
        lemma_restore_shape(s, m.drop_last());
        let fs = restore_files(s, m)->Ok_0;
        let c = fs.last().1;
        lemma_read_blob_id(s, m.last().1, c);
        assert forall|i: int| 0 <= i < m.len() implies #[trigger] fs[i].0 == m[i].0 && m[i].1
            == object_id(ObjectKind::Blob, fs[i].1) by {
            if i < m.len() - 1 {
                assert(fs[i] == restore_files(s, m.drop_last())->Ok_0[i]);
                assert(m[i] == m.drop_last()[i]);
            }
        }
    }
}

proof fn lemma_map_get_unique(m: PathMapView, i: int)
    requires
        unique_paths(m),
        0 <= i < m.len(),
    ensures
        map_get(m, m[i].0) == Some(m[i].1),
    decreases m.len(),
{
    if i < m.len() - 1 {
        assert(m[i].0 != m[m.len() - 1].0);
        let d = m.drop_last();
        assert(unique_paths(d)) by {
            assert forall|a: int, b: int| 0 <= a < b < d.len() implies #[trigger] d[a].0
                != #[trigger] d[b].0 by {
                assert(d[a] == m[a] && d[b] == m[b]);
            }
        }
        assert(d[i] == m[i]);
        lemma_map_get_unique(d, i);
    }
}

proof fn lemma_clean_files(m: PathMapView, fs: Seq<(Seq<char>, Seq<u8>)>)
    requires
        forall|i: int|
            0 <= i < fs.len() ==> map_get(m, #[trigger] fs[i].0) == Some(
                object_id(ObjectKind::Blob, fs[i].1),
            ),
    ensures
        modified_paths(m, fs) == Seq::<Seq<char>>::empty(),
        untracked_paths(m, fs) == Seq::<Seq<char>>::empty(),
    decreases fs.len(),
{
    if fs.len() > 0 {
        let d = fs.drop_last();
        assert forall|i: int| 0 <= i < d.len() implies map_get(m, #[trigger] d[i].0) == Some(
            object_id(ObjectKind::Blob, d[i].1),
        ) by {
            assert(d[i] == fs[i]);
        }
        lemma_clean_files(m, d);
        assert(map_get(m, fs[fs.len() - 1].0) == Some(
            object_id(ObjectKind::Blob, fs[fs.len() - 1].1),
        ));
    }
}

proof fn lemma_none_deleted(m: PathMapView, fs: Seq<(Seq<char>, Seq<u8>)>)
    requires
        forall|j: int| 0 <= j < m.len() ==> has_path(fs, #[trigger] m[j].0),
    ensures
        deleted_paths(m, fs) == Seq::<Seq<char>>::empty(),
    decreases m.len(),
{
    if m.len() > 0 {
        let d = m.drop_last();
        assert forall|j: int| 0 <= j < d.len() implies has_path(fs, #[trigger] d[j].0) by {
            assert(d[j] == m[j]);
        }
        lemma_none_deleted(d, fs);
        assert(has_path(fs, m[m.len() - 1].0));
    }
}

/// Every path in the path map of a commit records the blob id of its
/// content, as hashing that content under the blob framing gives it.
pub proof fn lemma_committed_blob_ids(s: Seq<(Seq<char>, Seq<u8>)>, c: Seq<char>)
    requires
        sound(s),
        restore_plan(s, c) is Ok,
    ensures
        restore_plan(s, c)->Ok_0.len() == commit_paths(s, c)->Ok_0.len(),
        forall|i: int|
            0 <= i < commit_paths(s, c)->Ok_0.len() ==> (#[trigger] commit_paths(s, c)->Ok_0[i]).0
                == restore_plan(s, c)->Ok_0[i].0 && commit_paths(s, c)->Ok_0[i].1 == object_id(
                ObjectKind::Blob,
                restore_plan(s, c)->Ok_0[i].1,
            ),
{
    let m = commit_paths(s, c)->Ok_0;
    let fs = restore_plan(s, c)->Ok_0;
    lemma_restore_shape(s, m);
    assert forall|i: int| 0 <= i < m.len() implies (#[trigger] m[i]).0 == fs[i].0 && m[i].1
        == object_id(ObjectKind::Blob, fs[i].1) by {
        assert(fs[i] == restore_files(s, m)->Ok_0[i]);
    }
}

/// Right after a commit is restored, the status of the restored files
/// against that commit is clean: nothing modified, untracked or deleted.
/// This holds where the commit's tree records each path once.
pub proof fn lemma_restore_then_status_clean(s: Seq<(Seq<char>, Seq<u8>)>, c: Seq<char>)
    requires
        sound(s),
        restore_plan(s, c) is Ok,
        unique_paths(commit_paths(s, c)->Ok_0),
    ensures
        modified_paths(commit_paths(s, c)->Ok_0, restore_plan(s, c)->Ok_0) == Seq::<
            Seq<char>,
        >::empty(),
        untracked_paths(commit_paths(s, c)->Ok_0, restore_plan(s, c)->Ok_0) == Seq::<
            Seq<char>,
        >::empty(),
        deleted_paths(commit_paths(s, c)->Ok_0, restore_plan(s, c)->Ok_0) == Seq::<
            Seq<char>,
        >::empty(),
{
    let m = commit_paths(s, c)->Ok_0;
    let fs = restore_plan(s, c)->Ok_0;
    lemma_restore_shape(s, m);
    assert forall|i: int| 0 <= i < fs.len() implies map_get(m, #[trigger] fs[i].0) == Some(
        object_id(ObjectKind::Blob, fs[i].1),
    ) by {
        assert(fs[i].0 == m[i].0);
        lemma_map_get_unique(m, i);
    }
    lemma_clean_files(m, fs);
    assert forall|j: int| 0 <= j < m.len() implies has_path(fs, #[trigger] m[j].0) by {
        assert(fs[j].0 == m[j].0);
    }
    lemma_none_deleted(m, fs);
}

} // verus!
