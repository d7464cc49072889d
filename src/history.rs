//! Reading the commit chain, and listing branches.
use crate::commit::{Commit, CommitView};
use crate::error::Error;
use crate::refs::{branch_of, create_branch, current_branch_name, opt_text, trim, trim_text};
use crate::store::{read_result, Object, ObjectStore, ObjectView};
use vstd::prelude::*;

verus! {

/// The commit stored under `h`, if `h` reads as one.
pub open spec fn commit_at(s: Seq<(Seq<char>, Seq<u8>)>, h: Seq<char>) -> Option<CommitView> {
    match read_result(s, h) {
        Ok(ObjectView::Commit(c)) => Some(c),
        _ => None,
    }
}

/// The commits from `h` back along the parents, newest first, for at most
/// `fuel` steps; it ends at a commit without a parent or at an id that
/// does not read as a commit.
pub open spec fn history(s: Seq<(Seq<char>, Seq<u8>)>, h: Seq<char>, fuel: nat) -> Seq<
    (Seq<char>, CommitView),
>
    decreases fuel,
{
    if fuel == 0 {
        seq![]
    } else {
        match commit_at(s, h) {
            Some(c) => seq![(h, c)] + match c.parent {
                Some(p) => history(s, p, (fuel - 1) as nat),
                None => seq![],
            },
            None => seq![],
        }
    }
}

pub open spec fn log_view(v: Seq<(String, Commit)>) -> Seq<(Seq<char>, CommitView)> {
    v.map_values(|x: (String, Commit)| (x.0@, x.1@))
}

/// The commit stored under `sha`: see `commit_at`.
pub fn read_commit(store: &ObjectStore, sha: &str) -> (r: Option<Commit>)
    ensures
        match r {
            Some(c) => commit_at(store@, sha@) == Some(c@),
            None => commit_at(store@, sha@) is None,
        },
{
    match store.read(sha) {
        Ok(Object::Commit(c)) => Some(c),
        _ => None,
    }
}

/// The commits from `head` back to the first, newest first. A chain is
/// never longer than the store, so a parent link that loops ends there.
pub fn log(store: &ObjectStore, head: &str) -> (r: Vec<(String, Commit)>)
    requires
        store@.len() < usize::MAX,
    ensures
        log_view(r@) == history(store@, head@, (store@.len() + 1) as nat),
{
    let mut out: Vec<(String, Commit)> = Vec::new();
    let mut current = head.to_owned();
    let mut fuel: usize = store.len() + 1;
    proof {
        assert(log_view(out@) + history(store@, current@, fuel as nat) =~= history(
            store@,
            head@,
            (store@.len() + 1) as nat,
        ));
    }
    while fuel > 0
        invariant
            log_view(out@) + history(store@, current@, fuel as nat) == history(
                store@,
                head@,
                (store@.len() + 1) as nat,
            ),
        decreases fuel,
    {
        let ghost before = log_view(out@);
        match read_commit(store, current.as_str()) {
            Some(c) => {
                let next = c.parent.clone();
                let ghost cv = c@;
                let ghost cur = current@;
                out.push((current, c));
                proof {
                    assert(log_view(out@) =~= before.push((cur, cv)));
                }
                match next {
                    Some(p) => {
                        proof {
                            assert(before + history(store@, cur, fuel as nat) =~= log_view(out@)
                                + history(store@, p@, (fuel - 1) as nat));
                        }
                        current = p;
                    },
                    None => {
                        proof {
                            assert(before + history(store@, cur, fuel as nat) =~= log_view(out@));
                        }
                        return out;
                    },
                }
            },
            None => {
                proof {
                    assert(before + history(store@, current@, fuel as nat) =~= before);
                }
                return out;
            },
        }
        fuel = fuel - 1;
    }
    proof {
        assert(log_view(out@) + history(store@, current@, 0) =~= log_view(out@));
    }
    out
}

/// The branches, each marked when HEAD follows it, and HEAD's own text
/// when no branch is followed.
pub struct BranchListing {
    pub branches: Vec<(String, bool)>,
    pub detached: Option<String>,
}

/// The listing of branch `names` against HEAD's text `head`: each name in
/// order, marked where HEAD follows it, and HEAD's trimmed text when it
/// follows no branch.
pub open spec fn lists(l: BranchListing, names: Seq<String>, head: Seq<char>) -> bool {
    &&& l.branches@.len() == names.len()
    &&& forall|i: int|
        0 <= i < names.len() ==> (#[trigger] l.branches@[i]).0@ == names[i]@ && l.branches@[i].1
            == (branch_of(head) == Some(names[i]@))
    &&& opt_text(l.detached) == if branch_of(head) is None {
        Some(trim(head))
    } else {
        None
    }
}

/// Lists branch `names` against HEAD's text `head`: see `lists`.
pub fn list_branches(names: &Vec<String>, head: &str) -> (r: BranchListing)
    ensures
        lists(r, names@, head@),
{
    let current = current_branch_name(head);
    let mut branches: Vec<(String, bool)> = Vec::new();
    let mut i: usize = 0;
    while i < names.len()
        invariant
            i <= names@.len(),
            opt_text(current) == branch_of(head@),
            branches@.len() == i,
            forall|k: int|
                0 <= k < i ==> (#[trigger] branches@[k]).0@ == names@[k]@ && branches@[k].1 == (
                branch_of(head@) == Some(names@[k]@)),
        decreases names.len() - i,
    {
        let marked = match &current {
            Some(c) => c.eq(&names[i]),
            None => false,
        };
        branches.push((names[i].clone(), marked));
        i = i + 1;
    }
    let detached = match current {
        Some(_) => None,
        None => Some(trim_text(head)),
    };
    BranchListing { branches, detached }
}

/// What a branch request comes to.
pub enum BranchAction {
    /// Write this text to the new branch's ref file.
    Create(String),
    /// Show this listing.
    List(BranchListing),
}

/// Creates branch `name` (see `create_branch`), or lists the branches when
/// no name is given. `exists` says whether the name's ref file is there,
/// `head` is HEAD's text, `head_commit` the commit it resolves to, and
/// `names` the branches there are.
pub fn branch(
    name: Option<&str>,
    exists: bool,
    head: &str,
    head_commit: Option<&str>,
    names: &Vec<String>,
) -> (r: Result<BranchAction, Error>)
    ensures
        name is Some ==> match create_branch_result(name->0@, exists, opt_str_view(head_commit)) {
            Ok(t) => r is Ok && r->Ok_0 is Create && r->Ok_0->Create_0@ == t,
            Err(e) => r == Err::<BranchAction, Error>(e),
        },
        name is None ==> r is Ok && r->Ok_0 is List && lists(r->Ok_0->List_0, names@, head@),
{
    match name {
        Some(n) => match create_branch(n, exists, head_commit) {
            Ok(t) => Ok(BranchAction::Create(t)),
            Err(e) => Err(e),
        },
        None => Ok(BranchAction::List(list_branches(names, head))),
    }
}

pub open spec fn opt_str_view(o: Option<&str>) -> Option<Seq<char>> {
    match o {
        Some(s) => Some(s@),
        None => None,
    }
}

/// What creating a branch gives: see `create_branch`.
pub open spec fn create_branch_result(name: Seq<char>, exists: bool, head: Option<Seq<char>>) -> Result<
    Seq<char>,
    Error,
> {
    if !crate::refs::valid_branch_name(name) {
        Err(Error::InvalidInput)
    } else if exists {
        Err(Error::AlreadyExists)
    } else {
        Ok(
            match head {
                Some(h) => h + seq!['\n'],
                None => seq!['\n'],
            },
        )
    }
}

} // verus!
