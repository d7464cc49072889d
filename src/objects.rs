//! The three kinds of stored object and the codecs of their payloads.
use crate::bytes::{
    find, find_byte, lacks, lacks_char, lemma_find_byte_after, lemma_find_byte_bounds, lemma_find_shift,
    lemma_utf8_lacks_ascii, push_all, text_of_range,
};
use crate::error::Error;
use crate::hexcode::{
    from_hex, hex_digit, hex_of, hex_value, is_hex_byte, is_lower_hex_char, is_object_id, to_hex,
    unhex,
};
use vstd::prelude::*;
use vstd::utf8::*;

verus! {

broadcast use vstd::utf8::encode_utf8_decode_utf8, vstd::utf8::encode_utf8_valid_utf8;

/// One line of a directory listing: a mode, a single path segment and the
/// id of the blob or tree it names.
#[derive(Clone, Debug)]
pub struct TreeEntry {
    pub mode: String,
    pub name: String,
    pub sha: String,
}

pub struct TreeEntryView {
    pub mode: Seq<char>,
    pub name: Seq<char>,
    pub sha: Seq<char>,
}

impl View for TreeEntry {
    type V = TreeEntryView;

    open spec fn view(&self) -> TreeEntryView {
        TreeEntryView { mode: self.mode@, name: self.name@, sha: self.sha@ }
    }
}

/// A directory listing, in the order its entries were given.
#[derive(Clone, Debug)]
pub struct Tree {
    pub entries: Vec<TreeEntry>,
}

pub open spec fn entries_view(v: Seq<TreeEntry>) -> Seq<TreeEntryView> {
    v.map_values(|e: TreeEntry| e@)
}

impl View for Tree {
    type V = Seq<TreeEntryView>;

    open spec fn view(&self) -> Seq<TreeEntryView> {
        entries_view(self.entries@)
    }
}

/// The bytes of the mode of a regular file, `100644`.
pub open spec fn file_mode() -> Seq<u8> {
    seq![49u8, 48, 48, 54, 52, 52]
}

/// The bytes of the mode of an executable file, `100755`.
pub open spec fn exec_mode() -> Seq<u8> {
    seq![49u8, 48, 48, 55, 53, 53]
}

/// The bytes of the mode of a subdirectory, `40000`.
pub open spec fn dir_mode() -> Seq<u8> {
    seq![52u8, 48, 48, 48, 48]
}

/// Is `m` one of the three modes an entry may have?
pub open spec fn is_mode(m: Seq<char>) -> bool {
    let b = encode_utf8(m);
    b == file_mode() || b == exec_mode() || b == dir_mode()
}

/// Does `m` name a file (either of the two file modes)?
pub open spec fn is_file_mode(m: Seq<char>) -> bool {
    let b = encode_utf8(m);
    b == file_mode() || b == exec_mode()
}

/// Does `m` name a subdirectory?
pub open spec fn is_dir_mode(m: Seq<char>) -> bool {
    encode_utf8(m) == dir_mode()
}

/// An entry that the tree codec can write: a known mode, a name without
/// NUL, and a full id.
pub open spec fn valid_entry(e: TreeEntryView) -> bool {
    is_mode(e.mode) && lacks_char(e.name, '\0') && is_object_id(e.sha)
}

pub open spec fn valid_entries(es: Seq<TreeEntryView>) -> bool {
    forall|i: int| 0 <= i < es.len() ==> valid_entry(#[trigger] es[i])
}

/// The twenty raw bytes that a hex id stands for.
pub open spec fn raw_id(sha: Seq<char>) -> Seq<u8> {
    unhex(encode_utf8(sha))
}

/// `<mode> <name>\0` followed by the raw id.
pub open spec fn entry_bytes(e: TreeEntryView) -> Seq<u8> {
    encode_utf8(e.mode).push(32u8) + encode_utf8(e.name).push(0u8) + raw_id(e.sha)
}

/// The payload of a tree: its entries' encodings one after the other.
pub open spec fn tree_bytes(es: Seq<TreeEntryView>) -> Seq<u8>
    decreases es.len(),
{
    if es.len() == 0 {
        seq![]
    } else {
        entry_bytes(es[0]) + tree_bytes(es.drop_first())
    }
}

/// The entry at the front of a tree payload and the length it takes up:
/// the mode runs to the first space, the name to the next NUL, and twenty
/// raw id bytes follow.
pub open spec fn entry_head(d: Seq<u8>) -> Option<(TreeEntryView, int)> {
    let sp = find_byte(d, 32u8, 0);
    let nul = find_byte(d, 0u8, sp + 1);
    if sp < d.len() && nul + 21 <= d.len() && valid_utf8(d.subrange(0, sp)) && valid_utf8(
        d.subrange(sp + 1, nul),
    ) {
        Some(
            (
                TreeEntryView {
                    mode: decode_utf8(d.subrange(0, sp)),
                    name: decode_utf8(d.subrange(sp + 1, nul)),
                    sha: hex_of(d.subrange(nul + 1, nul + 21)),
                },
                nul + 21,
            ),
        )
    } else {
        None
    }
}

/// The entries that a tree payload holds, `None` where it is malformed.
pub open spec fn tree_entries(d: Seq<u8>) -> Option<Seq<TreeEntryView>>
    decreases d.len(),
{
    if d.len() == 0 {
        Some(seq![])
    } else {
        match entry_head(d) {
            Some((e, j)) => if 0 < j <= d.len() {
                match tree_entries(d.subrange(j, d.len() as int)) {
                    Some(rest) => Some(seq![e] + rest),
                    None => None,
                }
            } else {
                None
            },
            None => None,
        }
    }
}

pub open spec fn prepend<T>(p: Seq<T>, o: Option<Seq<T>>) -> Option<Seq<T>> {
    match o {
        Some(r) => Some(p + r),
        None => None,
    }
}

pub proof fn lemma_tree_bytes_push(es: Seq<TreeEntryView>, e: TreeEntryView)
    ensures
        tree_bytes(es.push(e)) == tree_bytes(es) + entry_bytes(e),
    decreases es.len(),
{
    if es.len() == 0 {
        assert(es.push(e).drop_first() =~= Seq::<TreeEntryView>::empty());
        assert(es.push(e)[0] == e);
        assert(tree_bytes(es.push(e).drop_first()) == Seq::<u8>::empty());
        assert(tree_bytes(es.push(e)) =~= entry_bytes(e) + Seq::<u8>::empty());
        assert(tree_bytes(es) + entry_bytes(e) =~= entry_bytes(e));
    } else {
        assert(es.push(e).drop_first() =~= es.drop_first().push(e));
        lemma_tree_bytes_push(es.drop_first(), e);
        assert(es.push(e)[0] == es[0]);
        assert(tree_bytes(es.push(e)) =~= entry_bytes(es[0]) + tree_bytes(es.drop_first())
            + entry_bytes(e));
    }
}

proof fn lemma_digit_round(c: char)
    requires
        is_lower_hex_char(c),
    ensures
        hex_value(c as u8) < 16,
        hex_digit(hex_value(c as u8)) == c,
{
    let v = c as u32;
    vstd::utf8::char_u32_cast(c, v);
    if c <= '9' {
        assert(((hex_value(c as u8) + 48) as u8) as u32 == v);
    } else {
        assert(((hex_value(c as u8) + 87) as u8) as u32 == v);
    }
}

/// Raw bytes written out in hex and read back are unchanged in the other
/// direction too: a lowercase id survives the trip to raw bytes.
pub proof fn lemma_id_round_trip(sha: Seq<char>)
    requires
        is_object_id(sha),
    ensures
        hex_of(raw_id(sha)) == sha,
        raw_id(sha).len() == 20,
{
    assert(is_ascii_chars(sha)) by {
        assert forall|i: int| 0 <= i < sha.len() implies '\0' <= #[trigger] sha[i] <= '\u{7f}' by {
            assert(is_lower_hex_char(sha[i]));
        }
    }
    is_ascii_chars_encode_utf8(sha);
    let b = encode_utf8(sha);
    let u = unhex(b);
    assert forall|j: int| 0 <= j < 40 implies #[trigger] hex_of(u)[j] == sha[j] by {
        let k = j / 2;
        lemma_digit_round(sha[2 * k]);
        lemma_digit_round(sha[2 * k + 1]);
        let hi = hex_value(b[2 * k]);
        let lo = hex_value(b[2 * k + 1]);
        assert(b[2 * k] == sha[2 * k] as u8);
        assert(b[2 * k + 1] == sha[2 * k + 1] as u8);
        assert(u[k] == (hi * 16 + lo) as u8);
        assert(((hi * 16 + lo) as u8) / 16 == hi && ((hi * 16 + lo) as u8) % 16 == lo) by {
            assert(hi < 16 && lo < 16);
            assert((hi * 16 + lo) < 256) by (nonlinear_arith)
                requires
                    hi < 16,
                    lo < 16,
            ;
            assert((hi * 16 + lo) / 16 == hi && (hi * 16 + lo) % 16 == lo) by (nonlinear_arith)
                requires
                    hi < 16,
                    lo < 16,
            ;
        }
        if j % 2 == 0 {
            assert(j == 2 * k);
        } else {
            assert(j == 2 * k + 1);
        }
    }
    assert(hex_of(u) =~= sha);
}

proof fn lemma_entry_head_of(e: TreeEntryView, rest: Seq<u8>)
    requires
        valid_entry(e),
    ensures
        entry_head(entry_bytes(e) + rest) == Some((e, entry_bytes(e).len() as int)),
        (entry_bytes(e) + rest).subrange(entry_bytes(e).len() as int, (entry_bytes(e)
            + rest).len() as int) == rest,
{
    let m = encode_utf8(e.mode);
    let n = encode_utf8(e.name);
    let r = raw_id(e.sha);
    lemma_id_round_trip(e.sha);
    let d = entry_bytes(e) + rest;
    assert(lacks(m, 32u8) && lacks(m, 0u8)) by {
        assert(m == file_mode() || m == exec_mode() || m == dir_mode());
    }
    lemma_utf8_lacks_ascii(e.name, 0u8);
    assert(d =~= m.push(32u8) + (n.push(0u8) + r + rest));
    lemma_find_byte_after(m, 32u8, n.push(0u8) + r + rest, 0);
    let a = m.push(32u8) + n;
    assert(lacks(a, 0u8)) by {
        assert forall|i: int| 0 <= i < a.len() implies #[trigger] a[i] != 0u8 by {
            if i < m.len() {
                assert(a[i] == m[i]);
            } else if i > m.len() {
                assert(a[i] == n[i - m.len() - 1]);
            }
        }
    }
    assert(d =~= a.push(0u8) + (r + rest));
    lemma_find_byte_after(a, 0u8, r + rest, m.len() as int + 1);
    let sp = m.len() as int;
    let nul = a.len() as int;
    assert(d.subrange(0, sp) =~= m);
    assert(d.subrange(sp + 1, nul) =~= n);
    assert(d.subrange(nul + 1, nul + 21) =~= r);
    assert(d.subrange(entry_bytes(e).len() as int, d.len() as int) =~= rest);
}

/// Decoding the encoding of valid entries gives back the same entries in
/// the same order.
pub proof fn lemma_tree_round_trip(es: Seq<TreeEntryView>)
    requires
        valid_entries(es),
    ensures
        tree_entries(tree_bytes(es)) == Some(es),
    decreases es.len(),
{
    if es.len() > 0 {
        let e = es[0];
        let rest = es.drop_first();
        assert(valid_entry(e));
        assert(valid_entries(rest)) by {
            assert forall|i: int| 0 <= i < rest.len() implies valid_entry(#[trigger] rest[i]) by {
                assert(rest[i] == es[i + 1]);
            }
        }
        lemma_entry_head_of(e, tree_bytes(rest));
        lemma_tree_round_trip(rest);
        assert(seq![e] + rest =~= es);
    }
}

/// The bytes of an id are its characters, each a hex digit.
pub proof fn lemma_id_bytes(sha: Seq<char>)
    requires
        is_object_id(sha),
    ensures
        encode_utf8(sha).len() == 40,
        forall|i: int| 0 <= i < 40 ==> is_hex_byte(#[trigger] encode_utf8(sha)[i]),
{
    assert(is_ascii_chars(sha)) by {
        assert forall|i: int| 0 <= i < sha.len() implies '\0' <= #[trigger] sha[i] <= '\u{7f}' by {
            assert(is_lower_hex_char(sha[i]));
        }
    }
    is_ascii_chars_encode_utf8(sha);
    assert forall|i: int| 0 <= i < 40 implies is_hex_byte(#[trigger] encode_utf8(sha)[i]) by {
        assert(is_lower_hex_char(sha[i]));
        assert(encode_utf8(sha)[i] == sha[i] as u8);
    }
}

/// The twenty raw bytes of a full id.
pub fn id_to_raw(sha: &str) -> (r: Vec<u8>)
    requires
        is_object_id(sha@),
    ensures
        r@ == raw_id(sha@),
        r@.len() == 20,
{
    proof {
        lemma_id_bytes(sha@);
        lemma_id_round_trip(sha@);
    }
    match from_hex(sha.as_bytes()) {
        Some(raw) => raw,
        None => {
            proof {
                assert(false);
            }
            Vec::new()
        },
    }
}

impl Tree {
    /// The payload of this tree: per entry, `<mode> <name>\0` and the raw id.
    pub fn encode(&self) -> (r: Vec<u8>)
        requires
            valid_entries(self@),
        ensures
            r@ == tree_bytes(self@),
    {
        let mut out: Vec<u8> = Vec::new();
        let mut i: usize = 0;
        while i < self.entries.len()
            invariant
                i <= self.entries@.len(),
                valid_entries(self@),
                out@ == tree_bytes(self@.subrange(0, i as int)),
            decreases self.entries.len() - i,
        {
            let e = &self.entries[i];
            assert(valid_entry(self@[i as int]));
            let start = out.len();
            push_all(&mut out, e.mode.as_str().as_bytes());
            out.push(32u8);
            push_all(&mut out, e.name.as_str().as_bytes());
            out.push(0u8);
            let raw = id_to_raw(e.sha.as_str());
            push_all(&mut out, raw.as_slice());
            proof {
                lemma_tree_bytes_push(self@.subrange(0, i as int), e@);
                assert(self@.subrange(0, i + 1) =~= self@.subrange(0, i as int).push(e@));
                assert(out@ =~= tree_bytes(self@.subrange(0, i as int)) + entry_bytes(e@));
            }
            i = i + 1;
        }
        proof {
            assert(self@.subrange(0, self@.len() as int) =~= self@);
        }
        out
    }

    /// Reads a tree payload back into its entries, in order.
    pub fn parse(data: &[u8]) -> (r: Result<Tree, Error>)
        ensures
            match r {
                Ok(t) => tree_entries(data@) == Some(t@),
                Err(e) => tree_entries(data@) is None && e == Error::CorruptObject,
            },
    {
        let mut entries: Vec<TreeEntry> = Vec::new();
        let mut i: usize = 0;
        let ghost d = data@;
        proof {
            assert(d.subrange(0, d.len() as int) =~= d);
            assert(entries_view(entries@) =~= Seq::<TreeEntryView>::empty());
            match tree_entries(d) {
                Some(all) => {
                    assert(Seq::<TreeEntryView>::empty() + all =~= all);
                },
                None => {},
            }
        }
        while i < data.len()
            invariant
                d == data@,
                i <= d.len(),
                tree_entries(d) == prepend(
                    entries_view(entries@),
                    tree_entries(d.subrange(i as int, d.len() as int)),
                ),
            decreases data.len() - i,
        {
            let ghost rest = d.subrange(i as int, d.len() as int);
            let sp = find(data, 32u8, i);
            proof {
                lemma_find_shift(d, i as int, 32u8, 0);
                lemma_find_byte_bounds(d, 32u8, i as int);
            }
            if sp >= data.len() {
                return Err(Error::CorruptObject);
            }
            let nul = find(data, 0u8, sp + 1);
            proof {
                lemma_find_shift(d, i as int, 0u8, (sp - i) + 1);
                lemma_find_byte_bounds(d, 0u8, sp + 1);
            }
            if nul >= data.len() || data.len() - nul < 21 {
                return Err(Error::CorruptObject);
            }
            proof {
                assert(rest.subrange(0, sp - i) =~= d.subrange(i as int, sp as int));
                assert(rest.subrange(sp - i + 1, nul - i) =~= d.subrange(sp + 1, nul as int));
                assert(rest.subrange(nul - i + 1, nul - i + 21) =~= d.subrange(
                    nul + 1,
                    nul + 21,
                ));
            }
            let mode = match text_of_range(data, i, sp) {
                Some(m) => m,
                None => {
                    return Err(Error::CorruptObject);
                },
            };
            let name = match text_of_range(data, sp + 1, nul) {
                Some(n) => n,
                None => {
                    return Err(Error::CorruptObject);
                },
            };
            let sha = to_hex(vstd::slice::slice_subrange(data, nul + 1, nul + 21));
            let e = TreeEntry { mode, name, sha };
            proof {
                assert(entry_head(rest) == Some((e@, (nul + 21 - i) as int)));
                assert(rest.subrange(nul + 21 - i, rest.len() as int) =~= d.subrange(
                    nul + 21,
                    d.len() as int,
                ));
                assert(entries_view(entries@.push(e)) =~= entries_view(entries@).push(e@));
                assert(entries_view(entries@).push(e@) =~= entries_view(entries@) + seq![e@]);
                match tree_entries(d.subrange(nul + 21, d.len() as int)) {
                    Some(tail) => {
                        assert(entries_view(entries@) + (seq![e@] + tail) =~= entries_view(
                            entries@,
                        ).push(e@) + tail);
                    },
                    None => {},
                }
            }
            entries.push(e);
            i = nul + 21;
        }
        proof {
            assert(d.subrange(i as int, d.len() as int) =~= Seq::<u8>::empty());
            assert(entries_view(entries@) + Seq::<TreeEntryView>::empty() =~= entries_view(
                entries@,
            ));
        }
        Ok(Tree { entries })
    }
}

} // verus!
