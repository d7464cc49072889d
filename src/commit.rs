//! The commit record and the codec of its text payload.
use crate::bytes::{
    dec_bytes, dec_of, dec_value, find, find_byte, is_numeral, lacks, lacks_char,
    copy_range, lemma_dec_of_numeral, lemma_find_byte_after, lemma_find_byte_bounds,
    lemma_find_shift, lemma_lacks_concat,
    lemma_numeral_lacks,
    lemma_utf8_lacks_ascii, parse_dec, push_all, text_of_range,
};
use crate::error::Error;
use crate::hexcode::is_object_id;
use vstd::prelude::*;
use vstd::string::StringExecFns;
use vstd::utf8::*;

verus! {

broadcast use vstd::utf8::encode_utf8_decode_utf8, vstd::utf8::encode_utf8_valid_utf8;

/// Who made a commit, and when: a name, an email, seconds since the Unix
/// epoch, and the UTC offset as written (such as `+0000`).
#[derive(Clone, Debug)]
pub struct Signature {
    pub name: String,
    pub email: String,
    pub timestamp: u64,
    pub offset: String,
}

pub struct SignatureView {
    pub name: Seq<char>,
    pub email: Seq<char>,
    pub timestamp: u64,
    pub offset: Seq<char>,
}

impl View for Signature {
    type V = SignatureView;

    open spec fn view(&self) -> SignatureView {
        SignatureView {
            name: self.name@,
            email: self.email@,
            timestamp: self.timestamp,
            offset: self.offset@,
        }
    }
}

/// A snapshot record: the root tree, at most one parent, who wrote it and
/// who committed it, and the message.
#[derive(Clone, Debug)]
pub struct Commit {
    pub tree: String,
    pub parent: Option<String>,
    pub author: Signature,
    pub committer: Signature,
    pub message: String,
}

pub struct CommitView {
    pub tree: Seq<char>,
    pub parent: Option<Seq<char>>,
    pub author: SignatureView,
    pub committer: SignatureView,
    pub message: Seq<char>,
}

pub open spec fn opt_view(o: Option<String>) -> Option<Seq<char>> {
    match o {
        Some(s) => Some(s@),
        None => None,
    }
}

impl View for Commit {
    type V = CommitView;

    open spec fn view(&self) -> CommitView {
        CommitView {
            tree: self.tree@,
            parent: opt_view(self.parent),
            author: self.author@,
            committer: self.committer@,
            message: self.message@,
        }
    }
}

pub open spec fn tree_tag() -> Seq<u8> {
    seq![116u8, 114, 101, 101, 32]
}

pub open spec fn parent_tag() -> Seq<u8> {
    seq![112u8, 97, 114, 101, 110, 116, 32]
}

pub open spec fn author_tag() -> Seq<u8> {
    seq![97u8, 117, 116, 104, 111, 114, 32]
}

pub open spec fn committer_tag() -> Seq<u8> {
    seq![99u8, 111, 109, 109, 105, 116, 116, 101, 114, 32]
}

/// `<name> <<email>> <timestamp> <offset>`
pub open spec fn signature_bytes(s: SignatureView) -> Seq<u8> {
    encode_utf8(s.name) + seq![32u8, 60] + encode_utf8(s.email) + seq![62u8, 32] + dec_of(
        s.timestamp as nat,
    ) + seq![32u8] + encode_utf8(s.offset)
}

/// The header lines of a commit, each ending in a newline.
pub open spec fn header_bytes(c: CommitView) -> Seq<u8> {
    let t = tree_tag() + encode_utf8(c.tree) + seq![10u8];
    let p = match c.parent {
        Some(p) => parent_tag() + encode_utf8(p) + seq![10u8],
        None => seq![],
    };
    t + p + (author_tag() + signature_bytes(c.author) + seq![10u8]) + (committer_tag()
        + signature_bytes(c.committer) + seq![10u8])
}

/// The payload of a commit: the header lines, a blank line, and the
/// message with a newline after it.
pub open spec fn commit_bytes(c: CommitView) -> Seq<u8> {
    header_bytes(c) + seq![10u8] + encode_utf8(c.message) + seq![10u8]
}

/// A signature that reads back as written: no `<` or newline in the name,
/// no `>` or newline in the email, no newline in the offset.
pub open spec fn valid_signature(s: SignatureView) -> bool {
    lacks_char(s.name, '<') && lacks_char(s.name, '\n') && lacks_char(s.email, '>')
        && lacks_char(s.email, '\n') && lacks_char(s.offset, '\n')
}

/// A commit that reads back as written: full ids and valid signatures.
pub open spec fn valid_commit(c: CommitView) -> bool {
    is_object_id(c.tree) && (c.parent is Some ==> is_object_id(c.parent->0)) && valid_signature(
        c.author,
    ) && valid_signature(c.committer)
}

pub open spec fn starts_with(s: Seq<u8>, p: Seq<u8>) -> bool {
    p.len() <= s.len() && s.subrange(0, p.len() as int) == p
}

/// The first position at or after `from` where a newline follows a newline,
/// or `d.len()`.
pub open spec fn find_blank(d: Seq<u8>, from: int) -> int
    decreases d.len() - from,
{
    if from + 1 >= d.len() {
        d.len() as int
    } else if d[from] == 10 && d[from + 1] == 10 {
        from
    } else {
        find_blank(d, from + 1)
    }
}

/// The raw values of the known header lines seen so far; a later line of a
/// kind replaces an earlier one.
pub struct Headers {
    pub tree: Option<Seq<u8>>,
    pub parent: Option<Seq<u8>>,
    pub author: Option<Seq<u8>>,
    pub committer: Option<Seq<u8>>,
}

pub open spec fn no_headers() -> Headers {
    Headers { tree: None, parent: None, author: None, committer: None }
}

/// What one header line adds: lines are known by their prefix, and others
/// are passed over.
#[verifier::opaque]
pub open spec fn apply_line(line: Seq<u8>, h: Headers) -> Headers {
    if starts_with(line, tree_tag()) {
        Headers { tree: Some(line.subrange(5, line.len() as int)), ..h }
    } else if starts_with(line, parent_tag()) {
        Headers { parent: Some(line.subrange(7, line.len() as int)), ..h }
    } else if starts_with(line, author_tag()) {
        Headers { author: Some(line.subrange(7, line.len() as int)), ..h }
    } else if starts_with(line, committer_tag()) {
        Headers { committer: Some(line.subrange(10, line.len() as int)), ..h }
    } else {
        h
    }
}

/// The headers that newline-separated lines give, on top of `h`.
pub open spec fn fold_lines(b: Seq<u8>, h: Headers) -> Headers
    decreases b.len(),
{
    if b.len() == 0 {
        h
    } else {
        let j = find_byte(b, 10u8, 0);
        let next = if j < b.len() {
            b.subrange(j + 1, b.len() as int)
        } else {
            Seq::<u8>::empty()
        };
        if 0 <= j <= b.len() && next.len() < b.len() {
            fold_lines(next, apply_line(b.subrange(0, j), h))
        } else {
            h
        }
    }
}

/// The signature that a line reads as, if any: the name runs to ` <`, the
/// email to the next `>`, then a space, the decimal timestamp, a space and
/// the offset.
pub open spec fn signature_of(l: Seq<u8>) -> Option<SignatureView> {
    let p = find_byte(l, 60u8, 0);
    let q = find_byte(l, 62u8, p + 1);
    let r = find_byte(l, 32u8, q + 2);
    if 1 <= p && p < l.len() && l[p - 1] == 32 && q + 1 < l.len() && l[q + 1] == 32 && r
        < l.len() && is_numeral(l.subrange(q + 2, r)) && dec_value(l.subrange(q + 2, r))
        <= u64::MAX && valid_utf8(l.subrange(0, p - 1)) && valid_utf8(l.subrange(p + 1, q))
        && valid_utf8(l.subrange(r + 1, l.len() as int)) {
        Some(
            SignatureView {
                name: decode_utf8(l.subrange(0, p - 1)),
                email: decode_utf8(l.subrange(p + 1, q)),
                timestamp: dec_value(l.subrange(q + 2, r)) as u64,
                offset: decode_utf8(l.subrange(r + 1, l.len() as int)),
            },
        )
    } else {
        None
    }
}

/// The message part: what follows the blank line, less one trailing newline.
pub open spec fn message_part(b: Seq<u8>) -> Seq<u8> {
    if b.len() > 0 && b.last() == 10 {
        b.drop_last()
    } else {
        b
    }
}

/// The commit that a payload reads as, `None` where it is malformed: there
/// must be a blank line, a tree line, and author and committer lines that
/// parse, all in UTF-8.
pub open spec fn commit_of(d: Seq<u8>) -> Option<CommitView> {
    let k = find_blank(d, 0);
    if k >= d.len() {
        None
    } else {
        let h = fold_lines(d.subrange(0, k + 1), no_headers());
        let m = message_part(d.subrange(k + 2, d.len() as int));
        match (h.tree, h.author, h.committer) {
            (Some(t), Some(a), Some(c)) => match (signature_of(a), signature_of(c)) {
                (Some(sa), Some(sc)) => if valid_utf8(t) && valid_utf8(m) && (h.parent is Some
                    ==> valid_utf8(h.parent->0)) {
                    Some(
                        CommitView {
                            tree: decode_utf8(t),
                            parent: match h.parent {
                                Some(p) => Some(decode_utf8(p)),
                                None => None,
                            },
                            author: sa,
                            committer: sc,
                            message: decode_utf8(m),
                        },
                    )
                } else {
                    None
                },
                _ => None,
            },
            _ => None,
        }
    }
}

proof fn lemma_text_lacks(s: Seq<char>, c: char, b: u8)
    requires
        b < 128,
        c == b as char,
        lacks_char(s, c),
    ensures
        lacks(encode_utf8(s), b),
{
    lemma_utf8_lacks_ascii(s, b);
}

proof fn lemma_id_lacks(s: Seq<char>, b: u8)
    requires
        is_object_id(s),
        b < 48,
    ensures
        lacks(encode_utf8(s), b),
{
    assert forall|i: int| 0 <= i < s.len() implies #[trigger] s[i] != b as char by {
        assert(crate::hexcode::is_lower_hex_char(s[i]));
    }
    lemma_utf8_lacks_ascii(s, b);
}

/// A valid signature reads back from its bytes.
#[verifier::rlimit(60)]
pub proof fn lemma_signature_round_trip(s: SignatureView)
    requires
        valid_signature(s),
    ensures
        signature_of(signature_bytes(s)) == Some(s),
        lacks(signature_bytes(s), 10u8),
{
    let n = encode_utf8(s.name);
    let e = encode_utf8(s.email);
    let d = dec_of(s.timestamp as nat);
    let o = encode_utf8(s.offset);
    let l = signature_bytes(s);
    lemma_text_lacks(s.name, '<', 60u8);
    lemma_text_lacks(s.name, '\n', 10u8);
    lemma_text_lacks(s.email, '>', 62u8);
    lemma_text_lacks(s.email, '\n', 10u8);
    lemma_text_lacks(s.offset, '\n', 10u8);
    lemma_dec_of_numeral(s.timestamp as nat);
    lemma_numeral_lacks(d, 32u8);
    lemma_numeral_lacks(d, 10u8);
    let a1 = n + seq![32u8];
    assert(l =~= a1.push(60u8) + (e + seq![62u8, 32] + d + seq![32u8] + o));
    assert forall|i: int| 0 <= i < a1.len() implies #[trigger] a1[i] != 60u8 by {
        if i < n.len() {
            assert(a1[i] == n[i]);
        }
    }
    lemma_find_byte_after(a1, 60u8, e + seq![62u8, 32] + d + seq![32u8] + o, 0);
    let p = a1.len() as int;
    let a2 = n + seq![32u8, 60] + e;
    assert(l =~= a2.push(62u8) + (seq![32u8] + d + seq![32u8] + o));
    assert forall|i: int| p + 1 <= i < a2.len() implies #[trigger] a2[i] != 62u8 by {
        assert(a2[i] == e[i - p - 1]);
    }
    lemma_find_byte_after(a2, 62u8, seq![32u8] + d + seq![32u8] + o, p + 1);
    let q = a2.len() as int;
    let a3 = n + seq![32u8, 60] + e + seq![62u8, 32] + d;
    assert(l =~= a3.push(32u8) + o);
    assert forall|i: int| q + 2 <= i < a3.len() implies #[trigger] a3[i] != 32u8 by {
        assert(a3[i] == d[i - q - 2]);
    }
    lemma_find_byte_after(a3, 32u8, o, q + 2);
    let r = a3.len() as int;
    assert(l.subrange(0, p - 1) =~= n);
    assert(l.subrange(p + 1, q) =~= e);
    assert(l.subrange(q + 2, r) =~= d);
    assert(l.subrange(r + 1, l.len() as int) =~= o);
    lemma_lacks_concat(n, seq![32u8, 60], 10u8);
    lemma_lacks_concat(n + seq![32u8, 60], e, 10u8);
    lemma_lacks_concat(n + seq![32u8, 60] + e, seq![62u8, 32], 10u8);
    lemma_lacks_concat(n + seq![32u8, 60] + e + seq![62u8, 32], d, 10u8);
    lemma_lacks_concat(a3, seq![32u8], 10u8);
    lemma_lacks_concat(a3 + seq![32u8], o, 10u8);
    assert(a3 + seq![32u8] + o =~= l);
}

/// A line ending in a newline, with no other newline and no blank line
/// before its end.
pub open spec fn line_block(s: Seq<u8>) -> bool {
    &&& s.len() > 0
    &&& s[0] != 10
    &&& s.last() == 10
    &&& forall|i: int| 0 <= i < s.len() - 1 && #[trigger] s[i] == 10 ==> s[i + 1] != 10
}

proof fn lemma_line_block(l: Seq<u8>)
    requires
        l.len() > 0,
        lacks(l, 10u8),
    ensures
        line_block(l.push(10u8)),
{
    let s = l.push(10u8);
    assert(s[0] == l[0]);
    assert forall|i: int| 0 <= i < s.len() - 1 && #[trigger] s[i] == 10 implies s[i + 1] != 10 by {
        assert(s[i] == l[i]);
    }
}

proof fn lemma_line_block_concat(a: Seq<u8>, b: Seq<u8>)
    requires
        line_block(a),
        line_block(b),
    ensures
        line_block(a + b),
{
    let s = a + b;
    assert(s[0] == a[0]);
    assert(s.last() == b.last());
    assert forall|i: int| 0 <= i < s.len() - 1 && #[trigger] s[i] == 10 implies s[i + 1] != 10 by {
        if i < a.len() - 1 {
            assert(s[i] == a[i] && s[i + 1] == a[i + 1]);
        } else if i == a.len() - 1 {
            assert(s[i + 1] == b[0]);
        } else {
            assert(s[i] == b[i - a.len()] && s[i + 1] == b[i + 1 - a.len()]);
        }
    }
}

proof fn lemma_find_blank_at(d: Seq<u8>, from: int, k: int)
    requires
        0 <= from <= k,
        k + 1 < d.len(),
        d[k] == 10 && d[k + 1] == 10,
        forall|i: int| from <= i < k && #[trigger] d[i] == 10 ==> d[i + 1] != 10,
    ensures
        find_blank(d, from) == k,
    decreases k - from,
{
    if from < k {
        lemma_find_blank_at(d, from + 1, k);
    }
}

proof fn lemma_fold_step(l: Seq<u8>, rest: Seq<u8>, h: Headers)
    requires
        lacks(l, 10u8),
    ensures
        fold_lines(l.push(10u8) + rest, h) == fold_lines(rest, apply_line(l, h)),
{
    let b = l.push(10u8) + rest;
    assert(b =~= l.push(10u8) + rest);
    lemma_find_byte_after(l, 10u8, rest, 0);
    assert(b.subrange(0, l.len() as int) =~= l);
    assert(b.subrange(l.len() as int + 1, b.len() as int) =~= rest);
}

proof fn lemma_tag_line(tag: Seq<u8>, v: Seq<u8>)
    ensures
        starts_with(tag + v, tag),
        (tag + v).subrange(tag.len() as int, (tag + v).len() as int) == v,
{
    assert((tag + v).subrange(0, tag.len() as int) =~= tag);
    assert((tag + v).subrange(tag.len() as int, (tag + v).len() as int) =~= v);
}

proof fn lemma_not_tag(line: Seq<u8>, tag: Seq<u8>)
    requires
        line.len() > 0,
        tag.len() > 0,
        line[0] != tag[0],
    ensures
        !starts_with(line, tag),
{
    if tag.len() <= line.len() {
        assert(line.subrange(0, tag.len() as int)[0] == line[0]);
    }
}

/// The header lines that a valid commit writes.
pub open spec fn expected_headers(c: CommitView) -> Headers {
    Headers {
        tree: Some(encode_utf8(c.tree)),
        parent: match c.parent {
            Some(p) => Some(encode_utf8(p)),
            None => None,
        },
        author: Some(signature_bytes(c.author)),
        committer: Some(signature_bytes(c.committer)),
    }
}

proof fn lemma_apply_tree(v: Seq<u8>, h: Headers)
    ensures
        apply_line(tree_tag() + v, h) == (Headers { tree: Some(v), ..h }),
{
    reveal(apply_line);
    lemma_tag_line(tree_tag(), v);
}

proof fn lemma_apply_parent(v: Seq<u8>, h: Headers)
    ensures
        apply_line(parent_tag() + v, h) == (Headers { parent: Some(v), ..h }),
{
    reveal(apply_line);
    let l = parent_tag() + v;
    assert(l[0] == 112u8);
    lemma_not_tag(l, tree_tag());
    lemma_tag_line(parent_tag(), v);
}

proof fn lemma_apply_author(v: Seq<u8>, h: Headers)
    ensures
        apply_line(author_tag() + v, h) == (Headers { author: Some(v), ..h }),
{
    reveal(apply_line);
    let l = author_tag() + v;
    assert(l[0] == 97u8);
    lemma_not_tag(l, tree_tag());
    lemma_not_tag(l, parent_tag());
    lemma_tag_line(author_tag(), v);
}

proof fn lemma_apply_committer(v: Seq<u8>, h: Headers)
    ensures
        apply_line(committer_tag() + v, h) == (Headers { committer: Some(v), ..h }),
{
    reveal(apply_line);
    let l = committer_tag() + v;
    assert(l[0] == 99u8);
    lemma_not_tag(l, tree_tag());
    lemma_not_tag(l, parent_tag());
    lemma_not_tag(l, author_tag());
    lemma_tag_line(committer_tag(), v);
}

proof fn lemma_lines_lack_newline(c: CommitView)
    requires
        valid_commit(c),
    ensures
        lacks(tree_tag() + encode_utf8(c.tree), 10u8),
        lacks(author_tag() + signature_bytes(c.author), 10u8),
        lacks(committer_tag() + signature_bytes(c.committer), 10u8),
        c.parent is Some ==> lacks(parent_tag() + encode_utf8(c.parent->0), 10u8),
{
    lemma_signature_round_trip(c.author);
    lemma_signature_round_trip(c.committer);
    lemma_id_lacks(c.tree, 10u8);
    lemma_lacks_concat(tree_tag(), encode_utf8(c.tree), 10u8);
    lemma_lacks_concat(author_tag(), signature_bytes(c.author), 10u8);
    lemma_lacks_concat(committer_tag(), signature_bytes(c.committer), 10u8);
    if c.parent is Some {
        lemma_id_lacks(c.parent->0, 10u8);
        lemma_lacks_concat(parent_tag(), encode_utf8(c.parent->0), 10u8);
    }
}

proof fn lemma_header_block(c: CommitView)
    requires
        valid_commit(c),
    ensures
        line_block(header_bytes(c)),
{
    lemma_lines_lack_newline(c);
    let tl = tree_tag() + encode_utf8(c.tree);
    let al = author_tag() + signature_bytes(c.author);
    let cl = committer_tag() + signature_bytes(c.committer);
    lemma_line_block(tl);
    lemma_line_block(al);
    lemma_line_block(cl);
    lemma_line_block_concat(al.push(10u8), cl.push(10u8));
    let tail = al.push(10u8) + cl.push(10u8);
    let hb = header_bytes(c);
    match c.parent {
        Some(p) => {
            let pl = parent_tag() + encode_utf8(p);
            lemma_line_block(pl);
            lemma_line_block_concat(pl.push(10u8), tail);
            lemma_line_block_concat(tl.push(10u8), pl.push(10u8) + tail);
            assert(hb =~= tl.push(10u8) + (pl.push(10u8) + tail));
        },
        None => {
            lemma_line_block_concat(tl.push(10u8), tail);
            assert(hb =~= tl.push(10u8) + tail);
        },
    }
}

proof fn lemma_header_fold(c: CommitView)
    requires
        valid_commit(c),
    ensures
        fold_lines(header_bytes(c), no_headers()) == expected_headers(c),
{
    lemma_lines_lack_newline(c);
    let tl = tree_tag() + encode_utf8(c.tree);
    let al = author_tag() + signature_bytes(c.author);
    let cl = committer_tag() + signature_bytes(c.committer);
    let tail = al.push(10u8) + cl.push(10u8);
    let h0 = no_headers();
    lemma_apply_tree(encode_utf8(c.tree), h0);
    let h1 = apply_line(tl, h0);
    let hb = header_bytes(c);
    let h2 = match c.parent {
        Some(p) => apply_line(parent_tag() + encode_utf8(p), h1),
        None => h1,
    };
    lemma_apply_author(signature_bytes(c.author), h2);
    let h3 = apply_line(al, h2);
    lemma_apply_committer(signature_bytes(c.committer), h3);
    let h4 = apply_line(cl, h3);
    lemma_fold_step(al, cl.push(10u8), h2);
    lemma_fold_step(cl, Seq::<u8>::empty(), h3);
    assert(cl.push(10u8) + Seq::<u8>::empty() =~= cl.push(10u8));
    match c.parent {
        Some(p) => {
            let pl = parent_tag() + encode_utf8(p);
            lemma_apply_parent(encode_utf8(p), h1);
            assert(hb =~= tl.push(10u8) + (pl.push(10u8) + tail));
            lemma_fold_step(tl, pl.push(10u8) + tail, h0);
            lemma_fold_step(pl, tail, h1);
        },
        None => {
            assert(hb =~= tl.push(10u8) + tail);
            lemma_fold_step(tl, tail, h0);
        },
    }
    assert(h4 == expected_headers(c));
}

/// Decoding the encoding of a valid commit gives back the same record, with
/// its parent, author, committer and message.
pub proof fn lemma_commit_round_trip(c: CommitView)
    requires
        valid_commit(c),
    ensures
        commit_of(commit_bytes(c)) == Some(c),
{
    lemma_header_block(c);
    lemma_header_fold(c);
    lemma_signature_round_trip(c.author);
    lemma_signature_round_trip(c.committer);
    let hb = header_bytes(c);
    let m = encode_utf8(c.message);
    let d = commit_bytes(c);
    assert(d =~= hb + (seq![10u8] + m + seq![10u8]));
    let k = hb.len() - 1;
    assert(d[k] == 10 && d[k + 1] == 10);
    assert forall|i: int| 0 <= i < k && #[trigger] d[i] == 10 implies d[i + 1] != 10 by {
        assert(d[i] == hb[i] && d[i + 1] == hb[i + 1]);
    }
    lemma_find_blank_at(d, 0, k);
    assert(d.subrange(0, k + 1) =~= hb);
    assert(d.subrange(k + 2, d.len() as int) =~= m.push(10u8));
    assert(m.push(10u8).drop_last() =~= m);
}

impl Signature {
    /// A field-by-field copy.
    pub fn copy(&self) -> (r: Signature)
        ensures
            r@ == self@,
    {
        Signature {
            name: self.name.clone(),
            email: self.email.clone(),
            timestamp: self.timestamp,
            offset: self.offset.clone(),
        }
    }
}

fn push_signature(out: &mut Vec<u8>, s: &Signature)
    ensures
        final(out)@ == old(out)@ + signature_bytes(s@),
{
    push_all(out, s.name.as_str().as_bytes());
    out.push(32u8);
    out.push(60u8);
    push_all(out, s.email.as_str().as_bytes());
    out.push(62u8);
    out.push(32u8);
    let d = dec_bytes(s.timestamp);
    push_all(out, d.as_slice());
    out.push(32u8);
    push_all(out, s.offset.as_str().as_bytes());
    proof {
        assert(final(out)@ =~= old(out)@ + signature_bytes(s@));
    }
}

/// Reads a signature line: see `signature_of`.
pub fn parse_signature(l: &[u8]) -> (r: Option<Signature>)
    ensures
        match r {
            Some(s) => signature_of(l@) == Some(s@),
            None => signature_of(l@) is None,
        },
{
    let p = find(l, 60u8, 0);
    proof {
        lemma_find_byte_bounds(l@, 60u8, 0);
    }
    if p == 0 || p >= l.len() || l[p - 1] != 32u8 {
        return None;
    }
    let q = find(l, 62u8, p + 1);
    proof {
        lemma_find_byte_bounds(l@, 62u8, p + 1);
    }
    if q >= l.len() || q + 1 >= l.len() || l[q + 1] != 32u8 {
        return None;
    }
    let r = find(l, 32u8, q + 2);
    proof {
        lemma_find_byte_bounds(l@, 32u8, q + 2);
    }
    if r >= l.len() {
        return None;
    }
    let ts = match parse_dec(vstd::slice::slice_subrange(l, q + 2, r)) {
        Some(t) => t,
        None => {
            return None;
        },
    };
    let name = match text_of_range(l, 0, p - 1) {
        Some(t) => t,
        None => {
            return None;
        },
    };
    let email = match text_of_range(l, p + 1, q) {
        Some(t) => t,
        None => {
            return None;
        },
    };
    let offset = match text_of_range(l, r + 1, l.len()) {
        Some(t) => t,
        None => {
            return None;
        },
    };
    Some(Signature { name, email, timestamp: ts, offset })
}

fn push_tag(out: &mut Vec<u8>, tag: &[u8])
    ensures
        final(out)@ == old(out)@ + tag@,
{
    push_all(out, tag);
}

/// Does `d[from..to]` start with `tag`?
fn starts_with_at(d: &[u8], from: usize, to: usize, tag: &[u8]) -> (r: bool)
    requires
        from <= to <= d@.len(),
    ensures
        r == starts_with(d@.subrange(from as int, to as int), tag@),
{
    if tag.len() > to - from {
        return false;
    }
    let mut i: usize = 0;
    while i < tag.len()
        invariant
            i <= tag@.len(),
            tag@.len() <= to - from,
            from <= to <= d@.len(),
            forall|j: int| 0 <= j < i ==> d@[from + j] == tag@[j],
        decreases tag.len() - i,
    {
        if d[from + i] != tag[i] {
            proof {
                assert(d@.subrange(from as int, to as int).subrange(0, tag@.len() as int)[i as int]
                    != tag@[i as int]);
            }
            return false;
        }
        i = i + 1;
    }
    proof {
        assert(d@.subrange(from as int, to as int).subrange(0, tag@.len() as int) =~= tag@);
    }
    true
}

pub open spec fn range_view(d: Seq<u8>, o: Option<(usize, usize)>) -> Option<Seq<u8>> {
    match o {
        Some((a, b)) => Some(d.subrange(a as int, b as int)),
        None => None,
    }
}

pub open spec fn ranges_ok(d: Seq<u8>, o: Option<(usize, usize)>) -> bool {
    match o {
        Some((a, b)) => a <= b <= d.len(),
        None => true,
    }
}

/// Decodes an optional range as text; `None` where the range is not UTF-8.
fn text_of_opt(d: &[u8], o: Option<(usize, usize)>) -> (r: Option<Option<String>>)
    requires
        ranges_ok(d@, o),
    ensures
        match range_view(d@, o) {
            Some(b) => if valid_utf8(b) {
                r is Some && r->0 is Some && r->0->0@ == decode_utf8(b)
            } else {
                r is None
            },
            None => r is Some && r->0 is None,
        },
{
    match o {
        Some((a, b)) => match text_of_range(d, a, b) {
            Some(t) => Some(Some(t)),
            None => None,
        },
        None => Some(None),
    }
}

/// The first blank line: see `find_blank`.
fn find_blank_from_start(d: &[u8]) -> (k: usize)
    ensures
        k == find_blank(d@, 0),
{
    let mut i: usize = 0;
    if d.len() == 0 {
        return 0;
    }
    while i < d.len() - 1
        invariant
            d@.len() > 0,
            i <= d@.len(),
            find_blank(d@, 0) == find_blank(d@, i as int),
        decreases d.len() - i,
    {
        if d[i] == 10u8 && d[i + 1] == 10u8 {
            return i;
        }
        i = i + 1;
    }
    d.len()
}

proof fn lemma_find_blank_bounds(d: Seq<u8>, from: int)
    requires
        0 <= from,
    ensures
        find_blank(d, from) < d.len() ==> find_blank(d, from) + 1 < d.len() && d[find_blank(
            d,
            from,
        )] == 10 && d[find_blank(d, from) + 1] == 10,
    decreases d.len() - from,
{
    if from + 1 < d.len() && !(d[from] == 10 && d[from + 1] == 10) {
        lemma_find_blank_bounds(d, from + 1);
    }
}

proof fn lemma_find_byte_before(d: Seq<u8>, b: u8, from: int, k: int)
    requires
        0 <= from <= k < d.len(),
        d[k] == b,
    ensures
        find_byte(d, b, from) <= k,
{
    lemma_find_byte_bounds(d, b, from);
}

pub open spec fn headers_of(d: Seq<u8>, t: Option<(usize, usize)>, p: Option<(usize, usize)>, a: Option<(usize, usize)>, c: Option<(usize, usize)>) -> Headers {
    Headers {
        tree: range_view(d, t),
        parent: range_view(d, p),
        author: range_view(d, a),
        committer: range_view(d, c),
    }
}

impl Commit {
    /// Reads a commit payload: see `commit_of`.
    pub fn parse(data: &[u8]) -> (r: Result<Commit, Error>)
        ensures
            match r {
                Ok(c) => commit_of(data@) == Some(c@),
                Err(e) => commit_of(data@) is None && e == Error::CorruptObject,
            },
    {
        let k = find_blank_from_start(data);
        if k >= data.len() {
            return Err(Error::CorruptObject);
        }
        proof {
            lemma_find_blank_bounds(data@, 0);
        }
        let ghost d = data@;
        let end = k + 1;
        let hdr = copy_range(data, 0, end);
        let ghost hb = hdr@;
        let tt: Vec<u8> = vec![116u8, 114, 101, 101, 32];
        let pt: Vec<u8> = vec![112u8, 97, 114, 101, 110, 116, 32];
        let at: Vec<u8> = vec![97u8, 117, 116, 104, 111, 114, 32];
        let ct: Vec<u8> = vec![99u8, 111, 109, 109, 105, 116, 116, 101, 114, 32];
        let mut tree: Option<(usize, usize)> = None;
        let mut parent: Option<(usize, usize)> = None;
        let mut author: Option<(usize, usize)> = None;
        let mut committer: Option<(usize, usize)> = None;
        let mut pos: usize = 0;
        proof {
            assert(hb.subrange(0, end as int) =~= hb);
            assert(d[k as int] == 10);
            assert(hb[k as int] == 10);
        }
        while pos < end
            invariant
                hb == hdr@,
                hb.len() == end,
                end == k + 1,
                hb[k as int] == 10,
                pos <= end,
                tt@ == tree_tag(),
                pt@ == parent_tag(),
                at@ == author_tag(),
                ct@ == committer_tag(),
                ranges_ok(hb, tree),
                ranges_ok(hb, parent),
                ranges_ok(hb, author),
                ranges_ok(hb, committer),
                fold_lines(hb, no_headers()) == fold_lines(
                    hb.subrange(pos as int, end as int),
                    headers_of(hb, tree, parent, author, committer),
                ),
            decreases end - pos,
        {
            let j = find(hdr.as_slice(), 10u8, pos);
            proof {
                lemma_find_byte_before(hb, 10u8, pos as int, k as int);
                lemma_find_byte_bounds(hb, 10u8, pos as int);
                lemma_find_shift(hb, pos as int, 10u8, 0);
            }
            let ghost before = headers_of(hb, tree, parent, author, committer);
            let ghost line = hb.subrange(pos as int, j as int);
            if starts_with_at(hdr.as_slice(), pos, j, tt.as_slice()) {
                tree = Some((pos + 5, j));
            } else if starts_with_at(hdr.as_slice(), pos, j, pt.as_slice()) {
                parent = Some((pos + 7, j));
            } else if starts_with_at(hdr.as_slice(), pos, j, at.as_slice()) {
                author = Some((pos + 7, j));
            } else if starts_with_at(hdr.as_slice(), pos, j, ct.as_slice()) {
                committer = Some((pos + 10, j));
            }
            proof {
                reveal(apply_line);
                let b = hb.subrange(pos as int, end as int);
                assert(b.subrange(0, j - pos) =~= line);
                assert(b.subrange(j - pos + 1, b.len() as int) =~= hb.subrange(j + 1, end as int));
                if starts_with(line, tree_tag()) {
                    assert(line.subrange(5, line.len() as int) =~= hb.subrange(pos + 5, j as int));
                } else if starts_with(line, parent_tag()) {
                    assert(line.subrange(7, line.len() as int) =~= hb.subrange(pos + 7, j as int));
                } else if starts_with(line, author_tag()) {
                    assert(line.subrange(7, line.len() as int) =~= hb.subrange(pos + 7, j as int));
                } else if starts_with(line, committer_tag()) {
                    assert(line.subrange(10, line.len() as int) =~= hb.subrange(
                        pos + 10,
                        j as int,
                    ));
                }
                assert(apply_line(line, before) == headers_of(hb, tree, parent, author, committer));
            }
            pos = j + 1;
        }
        let ghost h = headers_of(hb, tree, parent, author, committer);
        proof {
            assert(hb.subrange(pos as int, end as int) =~= Seq::<u8>::empty());
            assert(d.subrange(0, k + 1) =~= hb);
        }
        let (ta, tb) = match tree {
            Some(x) => x,
            None => {
                return Err(Error::CorruptObject);
            },
        };
        let (aa, ab) = match author {
            Some(x) => x,
            None => {
                return Err(Error::CorruptObject);
            },
        };
        let (ca, cb) = match committer {
            Some(x) => x,
            None => {
                return Err(Error::CorruptObject);
            },
        };
        let author_line = copy_range(hdr.as_slice(), aa, ab);
        let author_sig = match parse_signature(author_line.as_slice()) {
            Some(x) => x,
            None => {
                return Err(Error::CorruptObject);
            },
        };
        let committer_line = copy_range(hdr.as_slice(), ca, cb);
        let committer_sig = match parse_signature(committer_line.as_slice()) {
            Some(x) => x,
            None => {
                return Err(Error::CorruptObject);
            },
        };
        let tree_text = match text_of_range(hdr.as_slice(), ta, tb) {
            Some(x) => x,
            None => {
                return Err(Error::CorruptObject);
            },
        };
        let parent_text = match text_of_opt(hdr.as_slice(), parent) {
            Some(x) => x,
            None => {
                return Err(Error::CorruptObject);
            },
        };
        let ms = k + 2;
        let me = if data.len() > ms && data[data.len() - 1] == 10u8 {
            data.len() - 1
        } else {
            data.len()
        };
        proof {
            let body = d.subrange(ms as int, d.len() as int);
            if body.len() > 0 && body.last() == 10 {
                assert(body.drop_last() =~= d.subrange(ms as int, me as int));
            } else {
                assert(body =~= d.subrange(ms as int, me as int));
            }
        }
        let message = match text_of_range(data, ms, me) {
            Some(x) => x,
            None => {
                return Err(Error::CorruptObject);
            },
        };
        let c = Commit {
            tree: tree_text,
            parent: parent_text,
            author: author_sig,
            committer: committer_sig,
            message,
        };
        proof {
            assert(c@.parent == match h.parent {
                Some(p) => Some(decode_utf8(p)),
                None => None,
            });
        }
        Ok(c)
    }

    /// The text payload of this commit.
    pub fn encode(&self) -> (r: Vec<u8>)
        ensures
            r@ == commit_bytes(self@),
    {
        let mut out: Vec<u8> = Vec::new();
        let tt: Vec<u8> = vec![116u8, 114, 101, 101, 32];
        push_tag(&mut out, tt.as_slice());
        push_all(&mut out, self.tree.as_str().as_bytes());
        out.push(10u8);
        let ghost t = out@;
        let ghost pb: Seq<u8> = Seq::empty();
        match &self.parent {
            Some(p) => {
                let pt: Vec<u8> = vec![112u8, 97, 114, 101, 110, 116, 32];
                push_tag(&mut out, pt.as_slice());
                push_all(&mut out, p.as_str().as_bytes());
                out.push(10u8);
                proof {
                    pb = parent_tag() + encode_utf8(p@) + seq![10u8];
                    assert(out@ =~= t + pb);
                }
            },
            None => {
                proof {
                    assert(out@ =~= t + pb);
                }
            },
        }
        let at: Vec<u8> = vec![97u8, 117, 116, 104, 111, 114, 32];
        push_tag(&mut out, at.as_slice());
        push_signature(&mut out, &self.author);
        out.push(10u8);
        let ct: Vec<u8> = vec![99u8, 111, 109, 109, 105, 116, 116, 101, 114, 32];
        push_tag(&mut out, ct.as_slice());
        push_signature(&mut out, &self.committer);
        out.push(10u8);
        out.push(10u8);
        push_all(&mut out, self.message.as_str().as_bytes());
        out.push(10u8);
        proof {
            assert(tt@ =~= tree_tag());
            assert(header_bytes(self@) =~= t + pb + (author_tag() + signature_bytes(self.author@)
                + seq![10u8]) + (committer_tag() + signature_bytes(self.committer@) + seq![10u8]));
            assert(out@ =~= commit_bytes(self@));
        }
        out
    }
}

/// The decimal digit character for a value below ten.
pub open spec fn digit_char(d: int) -> char {
    if d == 0 {
        '0'
    } else if d == 1 {
        '1'
    } else if d == 2 {
        '2'
    } else if d == 3 {
        '3'
    } else if d == 4 {
        '4'
    } else if d == 5 {
        '5'
    } else if d == 6 {
        '6'
    } else if d == 7 {
        '7'
    } else if d == 8 {
        '8'
    } else {
        '9'
    }
}

/// A UTC offset in seconds as `+hh:mm` or `-hh:mm`, the sign that of the
/// offset.
pub open spec fn offset_chars(secs: int) -> Seq<char> {
    let a = if secs < 0 {
        -secs
    } else {
        secs
    };
    let h = a / 3600;
    let m = (a % 3600) / 60;
    seq![
        if secs < 0 {
            '-'
        } else {
            '+'
        },
        digit_char(h / 10),
        digit_char(h % 10),
        ':',
        digit_char(m / 10),
        digit_char(m % 10),
    ]
}

fn digit_text(d: u32) -> (r: &'static str)
    requires
        d < 10,
    ensures
        r@ == seq![digit_char(d as int)],
{
    proof {
        reveal_strlit("0");
        reveal_strlit("1");
        reveal_strlit("2");
        reveal_strlit("3");
        reveal_strlit("4");
        reveal_strlit("5");
        reveal_strlit("6");
        reveal_strlit("7");
        reveal_strlit("8");
        reveal_strlit("9");
    }
    if d == 0 {
        "0"
    } else if d == 1 {
        "1"
    } else if d == 2 {
        "2"
    } else if d == 3 {
        "3"
    } else if d == 4 {
        "4"
    } else if d == 5 {
        "5"
    } else if d == 6 {
        "6"
    } else if d == 7 {
        "7"
    } else if d == 8 {
        "8"
    } else {
        "9"
    }
}

/// Writes a UTC offset given in seconds, less than a day either way: see
/// `offset_chars`.
pub fn offset_text(secs: i32) -> (r: String)
    requires
        -86400 < secs < 86400,
    ensures
        r@ == offset_chars(secs as int),
{
    let a: u32 = if secs < 0 {
        (-secs) as u32
    } else {
        secs as u32
    };
    let h = a / 3600;
    let m = (a % 3600) / 60;
    proof {
        reveal_strlit("-");
        reveal_strlit("+");
        reveal_strlit(":");
    }
    let sign = if secs < 0 {
        "-"
    } else {
        "+"
    };
    let r = String::from_str(sign).concat(digit_text(h / 10)).concat(digit_text(h % 10)).concat(
        ":",
    ).concat(digit_text(m / 10)).concat(digit_text(m % 10));
    proof {
        assert(r@ =~= offset_chars(secs as int));
    }
    r
}

} // verus!
