//! The content-addressed object store: objects are framed as
//! `<kind> <length>\0<payload>`, named by the SHA-1 of that framing in hex,
//! and kept zlib-compressed.
use crate::bytes::{
    copy_range, dec_bytes, dec_of, find, find_byte, lemma_dec_of_numeral, lemma_find_byte_after,
    lemma_find_byte_bounds, push_all,
};
use crate::commit::{commit_bytes, commit_of, lemma_commit_round_trip, valid_commit, Commit, CommitView};
use crate::crypto::{deflated, inflated, sha1_digest, sha1_of, zlib_compress, zlib_decompress};
use crate::error::Error;
use crate::hexcode::{hex_of, to_hex};
use crate::objects::{lemma_tree_round_trip, tree_bytes, tree_entries, valid_entries, Tree, TreeEntryView};
use vstd::prelude::*;

verus! {

/// The three kinds of object.
#[derive(Clone, Copy, Debug, PartialEq, Eq, Structural)]
pub enum ObjectKind {
    Blob,
    Tree,
    Commit,
}

/// A decoded object.
pub enum Object {
    Blob(Vec<u8>),
    Tree(Tree),
    Commit(Commit),
}

pub enum ObjectView {
    Blob(Seq<u8>),
    Tree(Seq<TreeEntryView>),
    Commit(CommitView),
}

impl View for Object {
    type V = ObjectView;

    open spec fn view(&self) -> ObjectView {
        match self {
            Object::Blob(b) => ObjectView::Blob(b@),
            Object::Tree(t) => ObjectView::Tree(t@),
            Object::Commit(c) => ObjectView::Commit(c@),
        }
    }
}

/// The kind's name as it stands in the frame header.
pub open spec fn kind_tag(k: ObjectKind) -> Seq<u8> {
    match k {
        ObjectKind::Blob => seq![98u8, 108, 111, 98],
        ObjectKind::Tree => seq![116u8, 114, 101, 101],
        ObjectKind::Commit => seq![99u8, 111, 109, 109, 105, 116],
    }
}

/// The canonical encoding `<kind> <length>\0<payload>` that is hashed and
/// stored.
pub open spec fn framed(k: ObjectKind, payload: Seq<u8>) -> Seq<u8> {
    kind_tag(k) + seq![32u8] + dec_of(payload.len()) + seq![0u8] + payload
}

/// The id of an object: the SHA-1 of its framing, in lowercase hex.
pub open spec fn object_id(k: ObjectKind, payload: Seq<u8>) -> Seq<char> {
    hex_of(sha1_of(framed(k, payload)))
}

/// The kind that a frame header names, if any.
pub open spec fn kind_of(t: Seq<u8>) -> Option<ObjectKind> {
    if t == kind_tag(ObjectKind::Blob) {
        Some(ObjectKind::Blob)
    } else if t == kind_tag(ObjectKind::Tree) {
        Some(ObjectKind::Tree)
    } else if t == kind_tag(ObjectKind::Commit) {
        Some(ObjectKind::Commit)
    } else {
        None
    }
}

/// The kind and payload of a decompressed object: the header runs to the
/// first NUL, names a known kind and, after a space, the length of the
/// payload in decimal without leading zeros.
pub open spec fn frame_parts(raw: Seq<u8>) -> Option<(ObjectKind, Seq<u8>)> {
    let z = find_byte(raw, 0u8, 0);
    let sp = find_byte(raw, 32u8, 0);
    if z >= raw.len() || sp >= z {
        None
    } else {
        let payload = raw.subrange(z + 1, raw.len() as int);
        if raw.subrange(sp + 1, z) != dec_of(payload.len()) {
            None
        } else {
            match kind_of(raw.subrange(0, sp)) {
                Some(k) => Some((k, payload)),
                None => None,
            }
        }
    }
}

/// What a decompressed object reads as: its payload decoded by its kind.
pub open spec fn object_of(raw: Seq<u8>) -> Result<ObjectView, Error> {
    match frame_parts(raw) {
        None => Err(Error::CorruptObject),
        Some((ObjectKind::Blob, p)) => Ok(ObjectView::Blob(p)),
        Some((ObjectKind::Tree, p)) => match tree_entries(p) {
            Some(es) => Ok(ObjectView::Tree(es)),
            None => Err(Error::CorruptObject),
        },
        Some((ObjectKind::Commit, p)) => match commit_of(p) {
            Some(c) => Ok(ObjectView::Commit(c)),
            None => Err(Error::CorruptObject),
        },
    }
}

/// One stored object: its id and its compressed framing.
#[derive(Clone, Debug)]
pub struct StoredObject {
    pub hash: String,
    pub data: Vec<u8>,
}

/// The objects of a repository, in the order they were added. Each id is
/// looked up at its first occurrence.
pub struct ObjectStore {
    pub objects: Vec<StoredObject>,
}

pub open spec fn stored_view(v: Seq<StoredObject>) -> Seq<(Seq<char>, Seq<u8>)> {
    v.map_values(|o: StoredObject| (o.hash@, o.data@))
}

impl View for ObjectStore {
    type V = Seq<(Seq<char>, Seq<u8>)>;

    open spec fn view(&self) -> Seq<(Seq<char>, Seq<u8>)> {
        stored_view(self.objects@)
    }
}

/// The stored bytes under id `h`: those of its first occurrence.
pub open spec fn lookup(s: Seq<(Seq<char>, Seq<u8>)>, h: Seq<char>) -> Option<Seq<u8>>
    decreases s.len(),
{
    if s.len() == 0 {
        None
    } else if s[0].0 == h {
        Some(s[0].1)
    } else {
        lookup(s.drop_first(), h)
    }
}

/// The store after writing a payload: unchanged where its id is present,
/// else with the compressed framing added under that id.
pub open spec fn after_write(s: Seq<(Seq<char>, Seq<u8>)>, k: ObjectKind, p: Seq<u8>) -> Seq<
    (Seq<char>, Seq<u8>),
> {
    if lookup(s, object_id(k, p)) is Some {
        s
    } else {
        s.push((object_id(k, p), deflated(framed(k, p))))
    }
}

/// The decompressed framing stored under id `h`: ids under two characters
/// are malformed; the object must be present and decompress.
pub open spec fn raw_result(s: Seq<(Seq<char>, Seq<u8>)>, h: Seq<char>) -> Result<Seq<u8>, Error> {
    if h.len() < 2 {
        Err(Error::InvalidInput)
    } else {
        match lookup(s, h) {
            None => Err(Error::NotFound),
            Some(d) => match inflated(d) {
                None => Err(Error::CorruptObject),
                Some(raw) => Ok(raw),
            },
        }
    }
}

/// What reading id `h` from the store gives.
pub open spec fn read_result(s: Seq<(Seq<char>, Seq<u8>)>, h: Seq<char>) -> Result<
    ObjectView,
    Error,
> {
    match raw_result(s, h) {
        Err(e) => Err(e),
        Ok(raw) => object_of(raw),
    }
}

/// The payload stored under id `h`, of whatever kind, once its header
/// checks out.
pub open spec fn payload_result(s: Seq<(Seq<char>, Seq<u8>)>, h: Seq<char>) -> Result<
    Seq<u8>,
    Error,
> {
    match raw_result(s, h) {
        Err(e) => Err(e),
        Ok(raw) => match frame_parts(raw) {
            Some((_, p)) => Ok(p),
            None => Err(Error::CorruptObject),
        },
    }
}

pub proof fn lemma_lookup_push(s: Seq<(Seq<char>, Seq<u8>)>, x: (Seq<char>, Seq<u8>), h: Seq<char>)
    ensures
        lookup(s.push(x), h) == if lookup(s, h) is Some {
            lookup(s, h)
        } else if x.0 == h {
            Some(x.1)
        } else {
            None
        },
    decreases s.len(),
{
    if s.len() > 0 {
        assert(s.push(x).drop_first() =~= s.drop_first().push(x));
        lemma_lookup_push(s.drop_first(), x, h);
    } else {
        assert(s.push(x).drop_first() =~= s);
    }
}

/// Writing the same payload again leaves the store as it was: the id is
/// the same each time and the second write adds nothing.
pub proof fn lemma_rewrite_is_noop(s: Seq<(Seq<char>, Seq<u8>)>, k: ObjectKind, p: Seq<u8>)
    ensures
        after_write(after_write(s, k, p), k, p) == after_write(s, k, p),
        after_write(after_write(s, k, p), k, p).len() == after_write(s, k, p).len(),
        lookup(after_write(s, k, p), object_id(k, p)) is Some,
{
    lemma_lookup_push(s, (object_id(k, p), deflated(framed(k, p))), object_id(k, p));
}

/// The framing of a payload.
pub fn frame(k: ObjectKind, payload: &[u8]) -> (r: Vec<u8>)
    ensures
        r@ == framed(k, payload@),
{
    let mut out: Vec<u8> = match k {
        ObjectKind::Blob => vec![98u8, 108, 111, 98],
        ObjectKind::Tree => vec![116u8, 114, 101, 101],
        ObjectKind::Commit => vec![99u8, 111, 109, 109, 105, 116],
    };
    out.push(32u8);
    let d = dec_bytes(payload.len() as u64);
    push_all(&mut out, d.as_slice());
    out.push(0u8);
    push_all(&mut out, payload);
    proof {
        assert(out@ =~= framed(k, payload@));
    }
    out
}

/// The id that a payload of kind `k` gets, without storing it.
pub fn hash_payload(k: ObjectKind, payload: &[u8]) -> (r: String)
    ensures
        r@ == object_id(k, payload@),
{
    let f = frame(k, payload);
    let digest = sha1_digest(f.as_slice());
    to_hex(digest.as_slice())
}

fn same_text(a: &String, b: &String) -> (r: bool)
    ensures
        r == (a@ == b@),
{
    a.eq(b)
}

fn range_is(d: &[u8], from: usize, to: usize, tag: &[u8]) -> (r: bool)
    requires
        from <= to <= d@.len(),
    ensures
        r == (d@.subrange(from as int, to as int) == tag@),
{
    if tag.len() != to - from {
        return false;
    }
    let mut i: usize = 0;
    while i < to - from
        invariant
            from <= to <= d@.len(),
            i <= to - from,
            tag@.len() == to - from,
            forall|j: int| 0 <= j < i ==> d@[from + j] == tag@[j],
        decreases to - from - i,
    {
        if d[from + i] != tag[i] {
            proof {
                assert(d@.subrange(from as int, to as int)[i as int] != tag@[i as int]);
            }
            return false;
        }
        i = i + 1;
    }
    proof {
        assert(d@.subrange(from as int, to as int) =~= tag@);
    }
    true
}

/// The kind named by `d[0..to]`: see `kind_of`.
fn kind_named(d: &[u8], to: usize) -> (r: Option<ObjectKind>)
    requires
        to <= d@.len(),
    ensures
        r == kind_of(d@.subrange(0, to as int)),
{
    let blob: Vec<u8> = vec![98u8, 108, 111, 98];
    let tree: Vec<u8> = vec![116u8, 114, 101, 101];
    let commit: Vec<u8> = vec![99u8, 111, 109, 109, 105, 116];
    if range_is(d, 0, to, blob.as_slice()) {
        Some(ObjectKind::Blob)
    } else if range_is(d, 0, to, tree.as_slice()) {
        Some(ObjectKind::Tree)
    } else if range_is(d, 0, to, commit.as_slice()) {
        Some(ObjectKind::Commit)
    } else {
        None
    }
}

/// Splits a decompressed object into kind and payload: see `frame_parts`.
pub fn split_frame(raw: &[u8]) -> (r: Option<(ObjectKind, Vec<u8>)>)
    ensures
        match r {
            Some((k, p)) => frame_parts(raw@) == Some((k, p@)),
            None => frame_parts(raw@) is None,
        },
{
    let z = find(raw, 0u8, 0);
    let sp = find(raw, 32u8, 0);
    proof {
        lemma_find_byte_bounds(raw@, 0u8, 0);
        lemma_find_byte_bounds(raw@, 32u8, 0);
    }
    if z >= raw.len() || sp >= z {
        return None;
    }
    let plen = raw.len() - z - 1;
    let declared = dec_bytes(plen as u64);
    if !range_is(raw, sp + 1, z, declared.as_slice()) {
        return None;
    }
    match kind_named(raw, sp) {
        Some(k) => Some((k, copy_range(raw, z + 1, raw.len()))),
        None => None,
    }
}

/// Reads a decompressed object: see `object_of`.
pub fn decode_object(raw: &[u8]) -> (r: Result<Object, Error>)
    ensures
        match r {
            Ok(o) => object_of(raw@) == Ok::<ObjectView, Error>(o@),
            Err(e) => object_of(raw@) == Err::<ObjectView, Error>(e),
        },
{
    match split_frame(raw) {
        None => Err(Error::CorruptObject),
        Some((ObjectKind::Blob, payload)) => Ok(Object::Blob(payload)),
        Some((ObjectKind::Tree, payload)) => match Tree::parse(payload.as_slice()) {
            Ok(t) => Ok(Object::Tree(t)),
            Err(e) => Err(e),
        },
        Some((ObjectKind::Commit, payload)) => match Commit::parse(payload.as_slice()) {
            Ok(c) => Ok(Object::Commit(c)),
            Err(e) => Err(e),
        },
    }
}

impl Object {
    /// Reads the object stored under `sha`: see `read_result`.
    pub fn read(store: &ObjectStore, sha: &str) -> (r: Result<Object, Error>)
        ensures
            match r {
                Ok(o) => read_result(store@, sha@) == Ok::<ObjectView, Error>(o@),
                Err(e) => read_result(store@, sha@) == Err::<ObjectView, Error>(e),
            },
    {
        store.read(sha)
    }
}

/// The payload stored under `hash`: see `payload_result`.
pub fn cat_file(store: &ObjectStore, hash: &str) -> (r: Result<Vec<u8>, Error>)
    ensures
        match r {
            Ok(p) => payload_result(store@, hash@) == Ok::<Seq<u8>, Error>(p@),
            Err(e) => payload_result(store@, hash@) == Err::<Seq<u8>, Error>(e),
        },
{
    match store.read_raw(hash) {
        Err(e) => Err(e),
        Ok(raw) => match split_frame(raw.as_slice()) {
            Some((_, p)) => Ok(p),
            None => Err(Error::CorruptObject),
        },
    }
}

impl ObjectStore {
    /// The decompressed framing stored under `hash`: see `raw_result`.
    pub fn read_raw(&self, hash: &str) -> (r: Result<Vec<u8>, Error>)
        ensures
            match r {
                Ok(raw) => raw_result(self@, hash@) == Ok::<Seq<u8>, Error>(raw@),
                Err(e) => raw_result(self@, hash@) == Err::<Seq<u8>, Error>(e),
            },
    {
        if hash.unicode_len() < 2 {
            return Err(Error::InvalidInput);
        }
        let data = match self.get(hash) {
            Some(d) => d,
            None => {
                return Err(Error::NotFound);
            },
        };
        let raw = match zlib_decompress(data.as_slice()) {
            Some(r) => r,
            None => {
                return Err(Error::CorruptObject);
            },
        };
        Ok(raw)
    }

    /// Reads the object stored under `hash`: see `read_result`.
    pub fn read(&self, hash: &str) -> (r: Result<Object, Error>)
        ensures
            match r {
                Ok(o) => read_result(self@, hash@) == Ok::<ObjectView, Error>(o@),
                Err(e) => read_result(self@, hash@) == Err::<ObjectView, Error>(e),
            },
    {
        match self.read_raw(hash) {
            Err(e) => Err(e),
            Ok(raw) => decode_object(raw.as_slice()),
        }
    }

    /// An empty store.
    pub fn new() -> (r: ObjectStore)
        ensures
            r@ == Seq::<(Seq<char>, Seq<u8>)>::empty(),
    {
        ObjectStore { objects: Vec::new() }
    }

    /// The number of stored objects.
    pub fn len(&self) -> (r: usize)
        ensures
            r == self@.len(),
    {
        self.objects.len()
    }

    /// The stored bytes under `hash`, if any.
    pub fn get(&self, hash: &str) -> (r: Option<&Vec<u8>>)
        ensures
            match r {
                Some(d) => lookup(self@, hash@) == Some(d@),
                None => lookup(self@, hash@) is None,
            },
    {
        let h = hash.to_owned();
        let mut i: usize = 0;
        proof {
            assert(self@.subrange(0, self@.len() as int) =~= self@);
        }
        while i < self.objects.len()
            invariant
                i <= self@.len(),
                h@ == hash@,
                lookup(self@, hash@) == lookup(self@.subrange(i as int, self@.len() as int), hash@),
            decreases self.objects.len() - i,
        {
            let o = &self.objects[i];
            proof {
                let rest = self@.subrange(i as int, self@.len() as int);
                assert(rest[0] == (o.hash@, o.data@));
                assert(rest.drop_first() =~= self@.subrange(i + 1, self@.len() as int));
            }
            if same_text(&o.hash, &h) {
                return Some(&o.data);
            }
            i = i + 1;
        }
        None
    }

    /// Is an object stored under `hash`?
    pub fn contains(&self, hash: &str) -> (r: bool)
        ensures
            r == lookup(self@, hash@) is Some,
    {
        self.get(hash).is_some()
    }

    /// Adds compressed bytes under an id, as read from storage; an id that
    /// is present already keeps what it has.
    pub fn insert_stored(&mut self, hash: String, data: Vec<u8>)
        ensures
            lookup(old(self)@, hash@) is Some ==> final(self)@ == old(self)@,
            lookup(old(self)@, hash@) is None ==> final(self)@ == old(self)@.push((hash@, data@)),
    {
        if !self.contains(hash.as_str()) {
            let ghost h = hash@;
            let ghost d = data@;
            self.objects.push(StoredObject { hash, data });
            proof {
                assert(final(self)@ =~= old(self)@.push((h, d)));
            }
        }
    }

    /// Stores a payload under its id and returns the id; it always
    /// succeeds. Where the id is present the store is left as it is;
    /// otherwise the compressed framing is added, and reads back as that
    /// framing.
    pub fn write(&mut self, k: ObjectKind, payload: &[u8]) -> (r: Result<String, Error>)
        ensures
            r is Ok,
            r->Ok_0@ == object_id(k, payload@),
            final(self)@ == after_write(old(self)@, k, payload@),
            lookup(old(self)@, object_id(k, payload@)) is None ==> raw_result(
                final(self)@,
                object_id(k, payload@),
            ) == Ok::<Seq<u8>, Error>(framed(k, payload@)),
            sound(old(self)@) ==> sound(final(self)@),
    {
        let f = frame(k, payload);
        let digest = sha1_digest(f.as_slice());
        let id = to_hex(digest.as_slice());
        if self.contains(id.as_str()) {
            return Ok(id);
        }
        match zlib_compress(f.as_slice()) {
            Some(data) => {
                let ghost h = id@;
                let ghost dv = data@;
                self.objects.push(StoredObject { hash: id.clone(), data });
                proof {
                    assert(final(self)@ =~= old(self)@.push((h, dv)));
                    lemma_lookup_push(old(self)@, (h, dv), h);
                    assert(h.len() == 40);
                    if sound(old(self)@) {
                        assert forall|i: int| 0 <= i < final(self)@.len() implies entry_sound(
                            #[trigger] final(self)@[i],
                        ) by {
                            if i < old(self)@.len() {
                                assert(final(self)@[i] == old(self)@[i]);
                            }
                        }
                    }
                }
                Ok(id)
            },
            None => {
                proof {
                    assert(false);
                }
                Ok(id)
            },
        }
    }
}

/// A stored entry whose bytes decompress to a framing that hashes to its id.
pub open spec fn entry_sound(e: (Seq<char>, Seq<u8>)) -> bool {
    match inflated(e.1) {
        Some(raw) => hex_of(sha1_of(raw)) == e.0,
        None => false,
    }
}

/// Every stored object sits under the digest of its content, as `write`
/// keeps it; objects read in from elsewhere are not checked.
pub open spec fn sound(s: Seq<(Seq<char>, Seq<u8>)>) -> bool {
    forall|i: int| 0 <= i < s.len() ==> entry_sound(#[trigger] s[i])
}

pub proof fn lemma_lookup_entry(s: Seq<(Seq<char>, Seq<u8>)>, h: Seq<char>)
    requires
        lookup(s, h) is Some,
    ensures
        exists|i: int| 0 <= i < s.len() && #[trigger] s[i] == (h, lookup(s, h)->0),
    decreases s.len(),
{
    if s[0].0 != h {
        lemma_lookup_entry(s.drop_first(), h);
        let i = choose|i: int|
            0 <= i < s.drop_first().len() && #[trigger] s.drop_first()[i] == (h, lookup(s, h)->0);
        assert(s[i + 1] == s.drop_first()[i]);
    } else {
        assert(s[0] == (h, lookup(s, h)->0));
    }
}

/// What was written reads back: the framing of a blob, of valid tree
/// entries or of a valid commit decodes to the same object.
pub proof fn lemma_framed_reads_back(p: Seq<u8>, es: Seq<TreeEntryView>, c: CommitView)
    ensures
        object_of(framed(ObjectKind::Blob, p)) == Ok::<ObjectView, Error>(ObjectView::Blob(p)),
        valid_entries(es) ==> object_of(framed(ObjectKind::Tree, tree_bytes(es))) == Ok::<
            ObjectView,
            Error,
        >(ObjectView::Tree(es)),
        valid_commit(c) ==> object_of(framed(ObjectKind::Commit, commit_bytes(c))) == Ok::<
            ObjectView,
            Error,
        >(ObjectView::Commit(c)),
{
    lemma_frame_parts(ObjectKind::Blob, p);
    lemma_frame_parts(ObjectKind::Tree, tree_bytes(es));
    lemma_frame_parts(ObjectKind::Commit, commit_bytes(c));
    if valid_entries(es) {
        lemma_tree_round_trip(es);
    }
    if valid_commit(c) {
        lemma_commit_round_trip(c);
    }
}

/// A framing splits back into its kind and payload.
pub proof fn lemma_frame_parts(k: ObjectKind, p: Seq<u8>)
    ensures
        frame_parts(framed(k, p)) == Some((k, p)),
{
    let t = kind_tag(k);
    let d = dec_of(p.len());
    lemma_dec_of_numeral(p.len());
    let raw = framed(k, p);
    assert(forall|i: int| 0 <= i < t.len() ==> #[trigger] t[i] != 32u8 && t[i] != 0u8);
    assert(raw =~= t.push(32u8) + (d + seq![0u8] + p));
    lemma_find_byte_after(t, 32u8, d + seq![0u8] + p, 0);
    let a = t + seq![32u8] + d;
    assert forall|i: int| 0 <= i < a.len() implies #[trigger] a[i] != 0u8 by {
        if i < t.len() {
            assert(a[i] == t[i]);
        } else if i > t.len() {
            assert(a[i] == d[i - t.len() - 1]);
        }
    }
    assert(raw =~= a.push(0u8) + p);
    lemma_find_byte_after(a, 0u8, p, 0);
    assert(raw.subrange(0, t.len() as int) =~= t);
    assert(raw.subrange(t.len() as int + 1, a.len() as int) =~= d);
    assert(raw.subrange(a.len() as int + 1, raw.len() as int) =~= p);
}

/// In a sound store, a blob that reads back under an id has that id: the
/// id is the digest of the stored framing, and the header is canonical.
pub proof fn lemma_read_blob_id(s: Seq<(Seq<char>, Seq<u8>)>, h: Seq<char>, c: Seq<u8>)
    requires
        sound(s),
        read_result(s, h) == Ok::<ObjectView, Error>(ObjectView::Blob(c)),
    ensures
        h == object_id(ObjectKind::Blob, c),
{
    let raw = raw_result(s, h)->Ok_0;
    lemma_lookup_entry(s, h);
    let i = choose|i: int| 0 <= i < s.len() && #[trigger] s[i] == (h, lookup(s, h)->0);
    assert(entry_sound(s[i]));
    let z = find_byte(raw, 0u8, 0);
    let sp = find_byte(raw, 32u8, 0);
    lemma_find_byte_bounds(raw, 0u8, 0);
    lemma_find_byte_bounds(raw, 32u8, 0);
    assert(raw.subrange(0, sp) == kind_tag(ObjectKind::Blob));
    assert(raw =~= raw.subrange(0, sp) + seq![32u8] + raw.subrange(sp + 1, z) + seq![0u8]
        + raw.subrange(z + 1, raw.len() as int));
    assert(raw == framed(ObjectKind::Blob, c));
}

} // verus!
