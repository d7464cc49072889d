//! HEAD and branch refs: what the HEAD file says, the commit it resolves
//! to, and the texts written when HEAD or a branch moves.
use crate::error::Error;
use crate::index::has_prefix;
use vstd::prelude::*;
use vstd::string::StringExecFns;

verus! {

/// ASCII whitespace, as trimmed from ref and HEAD files.
pub open spec fn is_space(c: char) -> bool {
    c == ' ' || c == '\t' || c == '\n' || c == '\r' || c == '\x0C'
}

/// `s` without leading or trailing whitespace.
pub open spec fn trim(s: Seq<char>) -> Seq<char>
    decreases s.len(),
{
    if s.len() > 0 && is_space(s[0]) {
        trim(s.drop_first())
    } else if s.len() > 0 && is_space(s.last()) {
        trim(s.drop_last())
    } else {
        s
    }
}

/// `ref: `, which opens a symbolic HEAD.
pub open spec fn ref_tag() -> Seq<char> {
    seq!['r', 'e', 'f', ':', ' ']
}

/// `refs/heads/`, the directory of branch refs.
pub open spec fn heads_dir() -> Seq<char> {
    seq!['r', 'e', 'f', 's', '/', 'h', 'e', 'a', 'd', 's', '/']
}

/// Where HEAD points: a ref path, or a commit id written in place.
pub enum Head {
    Symbolic(String),
    Detached(String),
}

pub enum HeadView {
    Symbolic(Seq<char>),
    Detached(Seq<char>),
}

impl View for Head {
    type V = HeadView;

    open spec fn view(&self) -> HeadView {
        match self {
            Head::Symbolic(s) => HeadView::Symbolic(s@),
            Head::Detached(s) => HeadView::Detached(s@),
        }
    }
}

/// What HEAD's text says: after `ref: ` the trimmed ref path; otherwise
/// the trimmed text is a commit id (empty where there is none yet).
pub open spec fn head_of(t: Seq<char>) -> HeadView {
    if has_prefix(t, ref_tag()) {
        HeadView::Symbolic(trim(t.subrange(5, t.len() as int)))
    } else {
        HeadView::Detached(trim(t))
    }
}

/// The commit that a ref file's text names: `None` for a missing or blank
/// file.
pub open spec fn ref_commit(t: Option<Seq<char>>) -> Option<Seq<char>> {
    match t {
        None => None,
        Some(t) => if trim(t).len() == 0 {
            None
        } else {
            Some(trim(t))
        },
    }
}

/// The commit HEAD resolves to: through the ref it names when symbolic
/// (`target` is that ref file's text, `None` when it is missing), or its
/// own trimmed text when detached; none for an unborn branch.
pub open spec fn resolved_head(head: Seq<char>, target: Option<Seq<char>>) -> Option<Seq<char>> {
    match head_of(head) {
        HeadView::Symbolic(_) => ref_commit(target),
        HeadView::Detached(h) => ref_commit(Some(h)),
    }
}

/// The branch a symbolic HEAD follows, if it is under `refs/heads/`.
pub open spec fn branch_of(head: Seq<char>) -> Option<Seq<char>> {
    if has_prefix(head, ref_tag() + heads_dir()) {
        Some(trim(head.subrange(16, head.len() as int)))
    } else {
        None
    }
}

/// A name a branch may have: not blank, and without a path separator.
pub open spec fn valid_branch_name(n: Seq<char>) -> bool {
    trim(n).len() > 0 && !n.contains('/') && !n.contains('\\')
}

proof fn lemma_trim_range(s: Seq<char>, i: int, j: int)
    requires
        0 <= i <= j <= s.len(),
        forall|k: int| 0 <= k < i ==> is_space(#[trigger] s[k]),
        forall|k: int| j <= k < s.len() ==> is_space(#[trigger] s[k]),
        i < j ==> !is_space(s[i]) && !is_space(s[j - 1]),
    ensures
        trim(s) == s.subrange(i, j),
    decreases s.len(),
{
    if s.len() > 0 && is_space(s[0]) {
        let d = s.drop_first();
        if i == 0 {
            assert(j == 0);
            assert forall|k: int| 0 <= k < d.len() implies is_space(#[trigger] d[k]) by {
                assert(d[k] == s[k + 1]);
            }
            lemma_trim_range(d, 0, 0);
            assert(d.subrange(0, 0) =~= s.subrange(0, 0));
        } else {
            assert forall|k: int| 0 <= k < i - 1 implies is_space(#[trigger] d[k]) by {
                assert(d[k] == s[k + 1]);
            }
            assert forall|k: int| j - 1 <= k < d.len() implies is_space(#[trigger] d[k]) by {
                assert(d[k] == s[k + 1]);
            }
            if i < j {
                assert(d[i - 1] == s[i] && d[j - 2] == s[j - 1]);
            }
            lemma_trim_range(d, i - 1, j - 1);
            assert(d.subrange(i - 1, j - 1) =~= s.subrange(i, j));
        }
    } else if s.len() > 0 && is_space(s.last()) {
        let d = s.drop_last();
        if i > 0 {
            assert(is_space(s[0]));
        }
        assert(i == 0);
        if j == s.len() {
            assert(i < j);
            assert(!is_space(s[j - 1]));
        }
        assert(j < s.len());
        assert forall|k: int| j <= k < d.len() implies is_space(#[trigger] d[k]) by {
            assert(d[k] == s[k]);
        }
        if i < j {
            assert(d[i] == s[i] && d[j - 1] == s[j - 1]);
        }
        lemma_trim_range(d, i, j);
        assert(d.subrange(i, j) =~= s.subrange(i, j));
    } else {
        if i > 0 {
            assert(is_space(s[0]));
        }
        if j < s.len() {
            assert(is_space(s[s.len() - 1]));
        }
        assert(s.subrange(0, s.len() as int) =~= s);
    }
}

fn is_space_char(c: char) -> (r: bool)
    ensures
        r == is_space(c),
{
    c == ' ' || c == '\t' || c == '\n' || c == '\r' || c == '\x0C'
}

/// `s` without leading or trailing whitespace.
pub fn trim_text(s: &str) -> (r: String)
    ensures
        r@ == trim(s@),
{
    let n = s.unicode_len();
    let mut i: usize = 0;
    while i < n && is_space_char(s.get_char(i))
        invariant
            i <= n,
            n == s@.len(),
            forall|k: int| 0 <= k < i ==> is_space(#[trigger] s@[k]),
        decreases n - i,
    {
        i = i + 1;
    }
    let mut j: usize = n;
    while j > i && is_space_char(s.get_char(j - 1))
        invariant
            i <= j <= n,
            n == s@.len(),
            forall|k: int| j <= k < n ==> is_space(#[trigger] s@[k]),
        decreases j,
    {
        j = j - 1;
    }
    proof {
        lemma_trim_range(s@, i as int, j as int);
    }
    s.substring_char(i, j).to_owned()
}

/// `s` from character `from` on.
fn tail_text(s: &str, from: usize) -> (r: &str)
    requires
        from <= s@.len(),
    ensures
        r@ == s@.subrange(from as int, s@.len() as int),
{
    s.substring_char(from, s.unicode_len())
}

fn prefix_is(s: &str, p: &str) -> (r: bool)
    ensures
        r == has_prefix(s@, p@),
{
    let n = p.unicode_len();
    if n > s.unicode_len() {
        return false;
    }
    let mut i: usize = 0;
    while i < n
        invariant
            i <= n,
            n == p@.len(),
            n <= s@.len(),
            forall|j: int| 0 <= j < i ==> s@[j] == p@[j],
        decreases n - i,
    {
        if s.get_char(i) != p.get_char(i) {
            proof {
                assert(s@.subrange(0, n as int)[i as int] != p@[i as int]);
            }
            return false;
        }
        i = i + 1;
    }
    proof {
        assert(s@.subrange(0, n as int) =~= p@);
    }
    true
}

/// Reads HEAD's text: see `head_of`.
pub fn parse_head(text: &str) -> (r: Head)
    ensures
        r@ == head_of(text@),
{
    proof {
        reveal_strlit("ref: ");
        assert("ref: "@ =~= ref_tag());
    }
    if prefix_is(text, "ref: ") {
        Head::Symbolic(trim_text(tail_text(text, 5)))
    } else {
        Head::Detached(trim_text(text))
    }
}

/// The commit a ref file's text names: see `ref_commit`.
pub fn ref_target(text: Option<&str>) -> (r: Option<String>)
    ensures
        opt_text(r) == ref_commit(opt_str(text)),
{
    match text {
        None => None,
        Some(t) => {
            let v = trim_text(t);
            if v.as_str().is_empty() {
                None
            } else {
                Some(v)
            }
        },
    }
}

pub open spec fn opt_text(o: Option<String>) -> Option<Seq<char>> {
    match o {
        Some(s) => Some(s@),
        None => None,
    }
}

pub open spec fn opt_str(o: Option<&str>) -> Option<Seq<char>> {
    match o {
        Some(s) => Some(s@),
        None => None,
    }
}

/// The commit HEAD resolves to: see `resolved_head`. `target` is the text
/// of the ref file that a symbolic HEAD names, `None` where it is missing.
pub fn resolve_head(head: &str, target: Option<&str>) -> (r: Option<String>)
    ensures
        opt_text(r) == resolved_head(head@, opt_str(target)),
{
    match parse_head(head) {
        Head::Symbolic(_) => ref_target(target),
        Head::Detached(h) => ref_target(Some(h.as_str())),
    }
}

/// The branch HEAD follows: see `branch_of`.
pub fn current_branch_name(head: &str) -> (r: Option<String>)
    ensures
        opt_text(r) == branch_of(head@),
{
    proof {
        reveal_strlit("ref: refs/heads/");
        assert(ref_tag() + heads_dir() =~= "ref: refs/heads/"@);
    }
    if prefix_is(head, "ref: refs/heads/") {
        Some(trim_text(tail_text(head, 16)))
    } else {
        None
    }
}

/// The ref path of branch `name`, `refs/heads/<name>`.
pub fn branch_ref_path(name: &str) -> (r: String)
    ensures
        r@ == heads_dir() + name@,
{
    proof {
        reveal_strlit("refs/heads/");
    }
    String::from_str("refs/heads/").concat(name)
}

/// HEAD's text when it follows branch `name`: `ref: refs/heads/<name>`
/// and a newline.
pub fn head_for_branch(name: &str) -> (r: String)
    ensures
        r@ == ref_tag() + heads_dir() + name@ + seq!['\n'],
{
    proof {
        reveal_strlit("ref: refs/heads/");
        reveal_strlit("\n");
    }
    String::from_str("ref: refs/heads/").concat(name).concat("\n")
}

/// The text of a ref file, or of a detached HEAD, naming commit `id`.
pub fn ref_text(id: &str) -> (r: String)
    ensures
        r@ == id@ + seq!['\n'],
{
    proof {
        reveal_strlit("\n");
    }
    String::from_str(id).concat("\n")
}

fn has_char(s: &str, c: char) -> (r: bool)
    ensures
        r == s@.contains(c),
{
    let n = s.unicode_len();
    let mut i: usize = 0;
    while i < n
        invariant
            i <= n,
            n == s@.len(),
            forall|k: int| 0 <= k < i ==> s@[k] != c,
        decreases n - i,
    {
        if s.get_char(i) == c {
            return true;
        }
        i = i + 1;
    }
    false
}

/// Checks a new branch's name: see `valid_branch_name`.
pub fn check_branch_name(name: &str) -> (r: Result<(), Error>)
    ensures
        r is Ok <==> valid_branch_name(name@),
        r is Err ==> r == Err::<(), Error>(Error::InvalidInput),
{
    if has_char(name, '/') || has_char(name, '\\') || trim_text(name).as_str().is_empty() {
        Err(Error::InvalidInput)
    } else {
        Ok(())
    }
}

/// The text of a new branch's ref file. The name must be valid and unused
/// (`exists` says whether its ref file is there); the branch starts at the
/// commit HEAD resolves to, or empty on an unborn branch.
pub fn create_branch(name: &str, exists: bool, head_commit: Option<&str>) -> (r: Result<
    String,
    Error,
>)
    ensures
        !valid_branch_name(name@) ==> r == Err::<String, Error>(Error::InvalidInput),
        valid_branch_name(name@) && exists ==> r == Err::<String, Error>(Error::AlreadyExists),
        valid_branch_name(name@) && !exists ==> r is Ok && r->Ok_0@ == match head_commit {
            Some(h) => h@ + seq!['\n'],
            None => seq!['\n'],
        },
{
    match check_branch_name(name) {
        Err(e) => {
            return Err(e);
        },
        Ok(()) => {},
    }
    if exists {
        return Err(Error::AlreadyExists);
    }
    match head_commit {
        Some(h) => Ok(ref_text(h)),
        None => {
            proof {
                reveal_strlit("\n");
            }
            Ok(String::from_str("\n"))
        },
    }
}

/// HEAD's text in a new repository: following branch `master`, which has
/// no commit yet.
pub fn initial_head() -> (r: String)
    ensures
        r@ == ref_tag() + heads_dir() + seq!['m', 'a', 's', 't', 'e', 'r'],
        head_of(r@) == HeadView::Symbolic(heads_dir() + seq!['m', 'a', 's', 't', 'e', 'r']),
{
    proof {
        reveal_strlit("ref: refs/heads/master");
    }
    let r = String::from_str("ref: refs/heads/master");
    proof {
        let t = heads_dir() + seq!['m', 'a', 's', 't', 'e', 'r'];
        assert(r@ =~= ref_tag() + t);
        assert(r@.subrange(0, 5) =~= ref_tag());
        assert(r@.subrange(5, r@.len() as int) =~= t);
        lemma_trim_range(t, 0, t.len() as int);
        assert(t.subrange(0, t.len() as int) =~= t);
    }
    r
}

} // verus!
