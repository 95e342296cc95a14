use vstd::prelude::*;

use crate::blob::{blob_encoding, Blob};
use crate::digest::{sha1_digest, sha1_of};
use crate::enc::{decimal_bytes, decimal_octets, lemma_decimal_leading, push_bytes};
use crate::mode::Mode;
use crate::oid::{vec_u8_eq, OID};
use crate::order::{
    lemma_name_lt_asymmetric, lemma_name_lt_irreflexive, lemma_name_lt_transitive,
    lemma_name_lt_trichotomy, name_less, name_lt,
};

verus! {

/// Errors of directory-object construction and tree building.
#[derive(Clone, Copy, Debug, PartialEq, Eq, Structural)]
pub enum TreeError {
    /// An entry name was inserted twice into one directory.
    DuplicateEntryName,
    /// An entry name was empty.
    EmptyName,
    /// The root of a tree build was not a directory.
    NotADirectory,
}

/// One record of a directory object: the entry's name (the raw bytes of
/// one path segment), its mode, and the child object's identifier.
#[derive(Debug)]
pub struct TreeEntry {
    pub name: Vec<u8>,
    pub mode: Mode,
    pub oid: OID,
}

/// The mathematical content of one directory entry.
#[verifier::ext_equal]
pub ghost struct EntryModel {
    pub name: Seq<u8>,
    pub mode: Mode,
    pub oid: Seq<u8>,
}

impl View for TreeEntry {
    type V = EntryModel;

    open spec fn view(&self) -> EntryModel {
        EntryModel { name: self.name@, mode: self.mode, oid: self.oid@ }
    }
}

/// Entries stand in canonical order: strictly ascending raw-byte name
/// order, which also makes names unique.
pub open spec fn sorted_entries(s: Seq<EntryModel>) -> bool {
    forall|i: int, j: int| 0 <= i < j < s.len() ==> name_lt(#[trigger] s[i].name, #[trigger] s[j].name)
}

/// Some entry of `s` bears the name `n`.
pub open spec fn contains_name(s: Seq<EntryModel>, n: Seq<u8>) -> bool {
    exists|i: int| 0 <= i < s.len() && (#[trigger] s[i].name) == n
}

/// Where inserting into canonical order puts a new entry: before the
/// first entry whose name is greater.
pub open spec fn sorted_insert(s: Seq<EntryModel>, e: EntryModel) -> Seq<EntryModel>
    decreases s.len(),
{
    if s.len() == 0 {
        seq![e]
    } else if name_lt(e.name, s[0].name) {
        seq![e] + s
    } else {
        seq![s[0]] + sorted_insert(s.drop_first(), e)
    }
}

/// The canonical encoding of one entry: the six-digit octal mode, one
/// space, the raw name, NUL, then the child's raw identifier bytes.
pub open spec fn entry_encoding(e: EntryModel) -> Seq<u8> {
    e.mode.octal_octets() + seq![0x20u8] + e.name + seq![0u8] + e.oid
}

/// The concatenated encodings of a directory's entries, in order.
pub open spec fn entries_encoding(s: Seq<EntryModel>) -> Seq<u8>
    decreases s.len(),
{
    if s.len() == 0 {
        Seq::empty()
    } else {
        entry_encoding(s[0]) + entries_encoding(s.drop_first())
    }
}

/// The canonical encoding of a directory object: "tree ", the decimal
/// byte length of the entry block, NUL, then the entry block.
pub open spec fn tree_encoding(s: Seq<EntryModel>) -> Seq<u8> {
    seq![0x74u8, 0x72, 0x65, 0x65, 0x20] + decimal_octets(entries_encoding(s).len()) + seq![0u8]
        + entries_encoding(s)
}

/// A directory object: an ordered collection of entries, unique by name,
/// held in canonical order from construction on. Built empty, populated
/// entry by entry, then read out; no entry mutates after insertion.
#[derive(Debug)]
pub struct Tree {
    entries: Vec<TreeEntry>,
}

impl View for Tree {
    type V = Seq<EntryModel>;

    closed spec fn view(&self) -> Seq<EntryModel> {
        Seq::new(self.entries@.len(), |i: int| self.entries@[i]@)
    }
}

impl Tree {
    /// Well-formed: entries in canonical order (so names are unique),
    /// every name nonempty, every child identifier twenty bytes.
    pub open spec fn wf(self) -> bool {
        &&& sorted_entries(self@)
        &&& forall|i: int| 0 <= i < self@.len() ==> (#[trigger] self@[i].name).len() > 0
        &&& forall|i: int| 0 <= i < self@.len() ==> (#[trigger] self@[i].oid).len() == 20
    }

    /// An empty directory object.
    pub fn new() -> (r: Tree)
        ensures
            r@ == Seq::<EntryModel>::empty(),
            r.wf(),
    {
        let t = Tree { entries: Vec::new() };
        proof {
            assert(t@ =~= Seq::<EntryModel>::empty());
        }
        t
    }

    /// Insert one entry, keeping canonical order. Fails with `EmptyName`
    /// on a zero-length name and with `DuplicateEntryName` when the name
    /// is already present; the directory is unchanged on failure.
    #[verifier::rlimit(60)]
    #[verifier::loop_isolation(false)]
    pub fn add(&mut self, name: Vec<u8>, mode: Mode, oid: OID) -> (r: Result<(), TreeError>)
        requires
            old(self).wf(),
            oid.wf(),
        ensures
            final(self).wf(),
            (r is Ok <==> (name@.len() > 0 && !contains_name(old(self)@, name@))),
            name@.len() == 0 ==> r == Err::<(), TreeError>(TreeError::EmptyName) && final(self)@
                == old(self)@,
            (name@.len() > 0 && contains_name(old(self)@, name@)) ==> r == Err::<(), TreeError>(
                TreeError::DuplicateEntryName,
            ) && final(self)@ == old(self)@,
            r is Ok ==> final(self)@ == sorted_insert(
                old(self)@,
                EntryModel { name: name@, mode: mode, oid: oid@ },
            ),
    {
        if name.len() == 0 {
            return Err(TreeError::EmptyName);
        }
        let ghost em = EntryModel { name: name@, mode: mode, oid: oid@ };
        let n: usize = self.entries.len();
        let mut i: usize = 0;
        while i < n
            invariant
                n == self@.len(),
                i <= n,
                forall|j: int| 0 <= j < i ==> (#[trigger] self@[j].name) != name@,
            decreases n - i,
        {
            if vec_u8_eq(&self.entries[i].name, &name) {
                proof {
                    assert(self@[i as int].name == name@);
                    assert(contains_name(self@, name@));
                }
                return Err(TreeError::DuplicateEntryName);
            }
            i += 1;
        }
        assert(!contains_name(self@, name@));
        let mut pos: usize = 0;
        while pos < n && name_less(&self.entries[pos].name, &name)
            invariant
                n == self@.len(),
                pos <= n,
                forall|j: int| 0 <= j < pos ==> name_lt(#[trigger] self@[j].name, name@),
            decreases n - pos,
        {
            pos += 1;
        }
        proof {
            if pos < self@.len() {
                lemma_name_lt_trichotomy(self@[pos as int].name, name@);
                assert(self@[pos as int].name != name@);
                assert(name_lt(name@, self@[pos as int].name));
            }
        }
        let ghost s0 = self@;
        self.entries.insert(pos, TreeEntry { name, mode, oid });
        proof {
            let p: int = pos as int;
            s0.insert_ensures(p, em);
            assert(self@ =~= s0.insert(p, em));
            lemma_sorted_insert_at(s0, em, p);
            assert forall|x: int, y: int| 0 <= x < y < self@.len() implies name_lt(
                #[trigger] self@[x].name,
                #[trigger] self@[y].name,
            ) by {
                if x == p {
                    assert(self@[x] == em);
                    if y - 1 == p {
                        assert(self@[y] == s0[p]);
                    } else {
                        assert(self@[y] == s0[y - 1]);
                        assert(name_lt(s0[p].name, s0[y - 1].name));
                        lemma_name_lt_transitive(em.name, s0[p].name, s0[y - 1].name);
                    }
                } else if y == p {
                    assert(self@[x] == s0[x]);
                    assert(self@[y] == em);
                    assert(name_lt(s0[x].name, em.name));
                } else if x < p && y > p {
                    assert(self@[x] == s0[x]);
                    assert(self@[y] == s0[y - 1]);
                    assert(name_lt(s0[x].name, s0[y - 1].name));
                } else if y < p {
                    assert(self@[x] == s0[x]);
                    assert(self@[y] == s0[y]);
                    assert(name_lt(s0[x].name, s0[y].name));
                } else {
                    assert(self@[x] == s0[x - 1]);
                    assert(self@[y] == s0[y - 1]);
                    assert(name_lt(s0[x - 1].name, s0[y - 1].name));
                }
            }
            assert forall|k: int| 0 <= k < self@.len() implies (#[trigger] self@[k].name).len()
                > 0 by {
                if k < p {
                    assert(self@[k] == s0[k]);
                } else if k == p {
                    assert(self@[k] == em);
                } else {
                    assert(self@[k] == s0[k - 1]);
                }
            }
            assert forall|k: int| 0 <= k < self@.len() implies (#[trigger] self@[k].oid).len()
                == 20 by {
                if k < p {
                    assert(self@[k] == s0[k]);
                } else if k == p {
                    assert(self@[k] == em);
                } else {
                    assert(self@[k] == s0[k - 1]);
                }
            }
        }
        Ok(())
    }

    /// Look an entry up by exact name.
    pub fn get(&self, name: &Vec<u8>) -> (r: Option<&TreeEntry>)
        ensures
            (r is Some <==> contains_name(self@, name@)),
            (r matches Some(e) ==> e@.name == name@ && exists|i: int|
                0 <= i < self@.len() && self@[i] == e@),
    {
        let mut i: usize = 0;
        while i < self.entries.len()
            invariant
                i <= self@.len(),
                self@.len() == self.entries@.len(),
                forall|j: int| 0 <= j < i ==> (#[trigger] self@[j].name) != name@,
            decreases self.entries.len() - i,
        {
            if vec_u8_eq(&self.entries[i].name, name) {
                let e = &self.entries[i];
                proof {
                    assert(self@[i as int] == e@);
                    assert(self@[i as int].name == name@);
                    assert(contains_name(self@, name@));
                }
                return Some(e);
            }
            i += 1;
        }
        None
    }

    /// The entries in canonical order.
    pub fn entries(&self) -> (r: &Vec<TreeEntry>)
        ensures
            r@.len() == self@.len(),
            forall|i: int| 0 <= i < self@.len() ==> (#[trigger] r@[i])@ == self@[i],
    {
        &self.entries
    }

    /// The canonical encoding: "tree ", the decimal byte length of the
    /// entry block, NUL, then per entry in canonical order the octal
    /// mode, a space, the name, NUL and the raw child identifier.
    pub fn as_bytes(&self) -> (r: Vec<u8>)
        ensures
            r@ == tree_encoding(self@),
    {
        let mut content: Vec<u8> = Vec::new();
        let mut i: usize = 0;
        while i < self.entries.len()
            invariant
                i <= self@.len(),
                self@.len() == self.entries@.len(),
                content@ == entries_encoding(self@.take(i as int)),
            decreases self.entries.len() - i,
        {
            let e = &self.entries[i];
            let mode_bytes = e.mode.octal_bytes();
            push_bytes(&mut content, &mode_bytes);
            content.push(0x20);
            push_bytes(&mut content, &e.name);
            content.push(0);
            push_bytes(&mut content, e.oid.as_bytes());
            proof {
                let t0 = self@.take(i as int);
                let t1 = self@.take(i + 1);
                assert(t1 =~= t0.push(self@[i as int]));
                lemma_entries_encoding_snoc(t0, self@[i as int]);
                assert(content@ =~= entries_encoding(t0) + entry_encoding(self@[i as int]));
            }
            i += 1;
        }
        proof {
            assert(self@.take(self@.len() as int) =~= self@);
        }
        let mut out: Vec<u8> = vec![0x74u8, 0x72, 0x65, 0x65, 0x20];
        let len_bytes = decimal_bytes(content.len());
        push_bytes(&mut out, &len_bytes);
        out.push(0);
        push_bytes(&mut out, &content);
        proof {
            assert(out@ =~= tree_encoding(self@));
        }
        out
    }

    /// The identifier: the digest of the canonical encoding.
    pub fn id(&self) -> (r: OID)
        ensures
            r@ == sha1_of(tree_encoding(self@)),
            r.wf(),
    {
        let encoded = self.as_bytes();
        OID::from_digest(sha1_digest(&encoded))
    }
}

/// A child object while a tree is assembled: either a nested directory
/// object or a file object. A directory records only the child's
/// identifier; the child object itself stays independently addressable.
#[derive(Debug)]
pub enum TreeItem {
    Tree(Tree),
    Blob(Blob),
}

impl TreeItem {
    /// The canonical encoding of the child object, whichever kind it is.
    pub open spec fn encoding(self) -> Seq<u8> {
        match self {
            TreeItem::Tree(t) => tree_encoding(t@),
            TreeItem::Blob(b) => blob_encoding(b@),
        }
    }

    /// The identifier of the child object.
    pub fn id(&self) -> (r: OID)
        ensures
            r@ == sha1_of(self.encoding()),
            r.wf(),
    {
        match self {
            TreeItem::Blob(b) => b.id(),
            TreeItem::Tree(t) => t.id(),
        }
    }

    /// Is this child a directory object?
    pub fn is_tree(&self) -> (r: bool)
        ensures
            r == (self is Tree),
    {
        match self {
            TreeItem::Blob(_) => false,
            TreeItem::Tree(_) => true,
        }
    }

    /// Is this child a file object?
    pub fn is_blob(&self) -> (r: bool)
        ensures
            r == (self is Blob),
    {
        match self {
            TreeItem::Blob(_) => true,
            TreeItem::Tree(_) => false,
        }
    }
}

/// Inserting an entry whose place is `pos` — after everything smaller,
/// before the first greater name — is what `sorted_insert` does.
proof fn lemma_sorted_insert_at(s: Seq<EntryModel>, e: EntryModel, pos: int)
    requires
        sorted_entries(s),
        0 <= pos <= s.len(),
        forall|j: int| 0 <= j < pos ==> name_lt((#[trigger] s[j]).name, e.name),
        pos < s.len() ==> name_lt(e.name, s[pos].name),
    ensures
        sorted_insert(s, e) == s.insert(pos, e),
    decreases s.len(),
{
    if s.len() == 0 {
        assert(sorted_insert(s, e) =~= s.insert(0, e));
    } else if pos == 0 {
        assert(sorted_insert(s, e) == seq![e] + s);
        assert(seq![e] + s =~= s.insert(0, e));
    } else {
        assert(name_lt(s[0].name, e.name));
        lemma_name_lt_asymmetric(e.name, s[0].name);
        let d = s.drop_first();
        assert forall|x: int, y: int| 0 <= x < y < d.len() implies name_lt(
            (#[trigger] d[x]).name,
            (#[trigger] d[y]).name,
        ) by {
            assert(s[x + 1] == d[x]);
            assert(s[y + 1] == d[y]);
        }
        assert forall|j: int| 0 <= j < pos - 1 implies name_lt((#[trigger] d[j]).name, e.name) by {
            assert(s[j + 1] == d[j]);
        }
        lemma_sorted_insert_at(d, e, pos - 1);
        assert(sorted_insert(s, e) == seq![s[0]] + d.insert(pos - 1, e));
        assert(seq![s[0]] + d.insert(pos - 1, e) =~= s.insert(pos, e));
    }
}

/// Appending one entry extends the entry block by that entry's encoding.
proof fn lemma_entries_encoding_snoc(s: Seq<EntryModel>, e: EntryModel)
    ensures
        entries_encoding(s.push(e)) == entries_encoding(s) + entry_encoding(e),
    decreases s.len(),
{
    let t = s.push(e);
    if s.len() == 0 {
        assert(t.len() == 1);
        assert(t[0] == e);
        assert(t.drop_first() =~= Seq::<EntryModel>::empty());
        assert(entries_encoding(t) == entry_encoding(t[0]) + entries_encoding(t.drop_first()));
        assert(entries_encoding(Seq::<EntryModel>::empty()) =~= Seq::<u8>::empty());
        assert(entries_encoding(s) =~= Seq::<u8>::empty());
        assert(entries_encoding(t) =~= entries_encoding(s) + entry_encoding(e));
    } else {
        assert(t.len() == s.len() + 1);
        assert(t[0] == s[0]);
        assert(t.drop_first() =~= s.drop_first().push(e));
        lemma_entries_encoding_snoc(s.drop_first(), e);
        assert(entries_encoding(t) == entry_encoding(s[0]) + entries_encoding(
            s.drop_first().push(e),
        ));
        assert(entries_encoding(t) == entry_encoding(s[0]) + (entries_encoding(s.drop_first())
            + entry_encoding(e)));
        assert(entry_encoding(s[0]) + (entries_encoding(s.drop_first()) + entry_encoding(e)) =~= (
        entry_encoding(s[0]) + entries_encoding(s.drop_first())) + entry_encoding(e));
        assert(entries_encoding(s) == entry_encoding(s[0]) + entries_encoding(s.drop_first()));
    }
}

/// An entry sequence holds a name exactly when its head bears it or its
/// tail holds it.
proof fn lemma_contains_name_cons(x: EntryModel, s: Seq<EntryModel>, n: Seq<u8>)
    ensures
        contains_name(seq![x] + s, n) <==> (x.name == n || contains_name(s, n)),
{
    let t = seq![x] + s;
    assert(t[0] == x);
    if contains_name(t, n) {
        let i: int = choose|i: int| 0 <= i < t.len() && (#[trigger] t[i].name) == n;
        if i > 0 {
            assert(s[i - 1] == t[i]);
            assert(contains_name(s, n));
        }
    }
    if x.name == n {
        assert(t[0].name == n);
        assert(contains_name(t, n));
    }
    if contains_name(s, n) {
        let i: int = choose|i: int| 0 <= i < s.len() && (#[trigger] s[i].name) == n;
        assert(t[i + 1] == s[i]);
        assert(t[i + 1].name == n);
        assert(contains_name(t, n));
    }
}

/// Inserting an entry adds exactly its name to the names present.
pub proof fn lemma_sorted_insert_contains(s: Seq<EntryModel>, e: EntryModel, n: Seq<u8>)
    ensures
        contains_name(sorted_insert(s, e), n) <==> (contains_name(s, n) || e.name == n),
    decreases s.len(),
{
    if s.len() == 0 {
        assert(sorted_insert(s, e) =~= seq![e] + Seq::<EntryModel>::empty());
        lemma_contains_name_cons(e, Seq::<EntryModel>::empty(), n);
        assert(!contains_name(s, n));
        assert(!contains_name(Seq::<EntryModel>::empty(), n));
    } else if name_lt(e.name, s[0].name) {
        lemma_contains_name_cons(e, s, n);
    } else {
        let d = s.drop_first();
        lemma_sorted_insert_contains(d, e, n);
        lemma_contains_name_cons(s[0], sorted_insert(d, e), n);
        assert(s =~= seq![s[0]] + d);
        lemma_contains_name_cons(s[0], d, n);
    }
}

/// Inserting in order keeps exactly the old entries plus the new one.
pub proof fn lemma_sorted_insert_multiset(s: Seq<EntryModel>, e: EntryModel)
    ensures
        sorted_insert(s, e).to_multiset() == s.to_multiset().insert(e),
    decreases s.len(),
{
    broadcast use vstd::seq_lib::group_to_multiset_ensures;
    broadcast use vstd::multiset::group_multiset_axioms;

    if s.len() == 0 {
        assert(sorted_insert(s, e) =~= s.push(e));
    } else if name_lt(e.name, s[0].name) {
        assert(seq![e] + s =~= s.insert(0, e));
        vstd::seq_lib::to_multiset_insert(s, 0, e);
    } else {
        let d = s.drop_first();
        let si = sorted_insert(d, e);
        lemma_sorted_insert_multiset(d, e);
        assert(seq![s[0]] + si =~= si.insert(0, s[0]));
        vstd::seq_lib::to_multiset_insert(si, 0, s[0]);
        assert(s =~= d.insert(0, s[0]));
        vstd::seq_lib::to_multiset_insert(d, 0, s[0]);
        assert(d.to_multiset().insert(e).insert(s[0]) =~= d.to_multiset().insert(s[0]).insert(e));
    }
}

/// Inserting an entry whose name is fresh keeps the entries in canonical
/// order.
pub proof fn lemma_sorted_insert_sorted(s: Seq<EntryModel>, e: EntryModel)
    requires
        sorted_entries(s),
        !contains_name(s, e.name),
    ensures
        sorted_entries(sorted_insert(s, e)),
    decreases s.len(),
{
    if s.len() == 0 {
    } else if name_lt(e.name, s[0].name) {
        let t = seq![e] + s;
        assert forall|x: int, y: int| 0 <= x < y < t.len() implies name_lt(
            (#[trigger] t[x]).name,
            (#[trigger] t[y]).name,
        ) by {
            if x == 0 {
                assert(t[x] == e);
                assert(t[y] == s[y - 1]);
                if y > 1 {
                    assert(name_lt(s[0].name, s[y - 1].name));
                    lemma_name_lt_transitive(e.name, s[0].name, s[y - 1].name);
                }
            } else {
                assert(t[x] == s[x - 1]);
                assert(t[y] == s[y - 1]);
                assert(name_lt(s[x - 1].name, s[y - 1].name));
            }
        }
    } else {
        let d = s.drop_first();
        assert forall|x: int, y: int| 0 <= x < y < d.len() implies name_lt(
            (#[trigger] d[x]).name,
            (#[trigger] d[y]).name,
        ) by {
            assert(d[x] == s[x + 1]);
            assert(d[y] == s[y + 1]);
        }
        assert(!contains_name(d, e.name)) by {
            if contains_name(d, e.name) {
                let k: int = choose|k: int| 0 <= k < d.len() && (#[trigger] d[k].name) == e.name;
                assert(s[k + 1].name == e.name);
                assert(contains_name(s, e.name));
            }
        }
        lemma_sorted_insert_sorted(d, e);
        let si = sorted_insert(d, e);
        assert(s[0].name != e.name) by {
            if s[0].name == e.name {
                assert(contains_name(s, e.name));
            }
        }
        assert(!name_lt(e.name, s[0].name));
        lemma_name_lt_trichotomy(e.name, s[0].name);
        assert(name_lt(s[0].name, e.name));
        let t = seq![s[0]] + si;
        assert forall|x: int, y: int| 0 <= x < y < t.len() implies name_lt(
            (#[trigger] t[x]).name,
            (#[trigger] t[y]).name,
        ) by {
            if x == 0 {
                assert(t[y] == si[y - 1]);
                let m = si[y - 1].name;
                assert(contains_name(si, m));
                lemma_sorted_insert_contains(d, e, m);
                if m == e.name {
                    assert(name_lt(s[0].name, e.name));
                } else {
                    assert(contains_name(d, m));
                    let k: int = choose|k: int| 0 <= k < d.len() && (#[trigger] d[k].name) == m;
                    assert(d[k] == s[k + 1]);
                    assert(name_lt(s[0].name, s[k + 1].name));
                }
            } else {
                assert(t[x] == si[x - 1]);
                assert(t[y] == si[y - 1]);
                assert(name_lt(si[x - 1].name, si[y - 1].name));
            }
        }
    }
}

/// Law: canonical order is unique — two entry sequences in canonical
/// order that hold the same entries are the same sequence. This is what
/// makes a directory object independent of insertion order.
pub proof fn lemma_sorted_entries_unique(t1: Seq<EntryModel>, t2: Seq<EntryModel>)
    requires
        sorted_entries(t1),
        sorted_entries(t2),
        t1.to_multiset() == t2.to_multiset(),
    ensures
        t1 == t2,
    decreases t1.len(),
{
    broadcast use vstd::seq_lib::group_to_multiset_ensures;
    broadcast use vstd::multiset::group_multiset_axioms;

    vstd::seq_lib::to_multiset_len(t1);
    vstd::seq_lib::to_multiset_len(t2);
    if t1.len() == 0 {
        assert(t1.to_multiset().len() == 0);
        assert(t2.to_multiset().len() == t2.len());
        assert(t1 =~= t2);
    } else {
        assert(t2.to_multiset().len() == t1.to_multiset().len());
        assert(t2.len() == t1.len());
        let e0 = t1[0];
        let f0 = t2[0];
        assert(t1.contains(e0));
        assert(t2.contains(f0));
        assert(t1.to_multiset().contains(e0));
        assert(t2.to_multiset().contains(e0));
        assert(t2.contains(e0));
        assert(t1.to_multiset().contains(f0));
        assert(t1.contains(f0));
        let i: int = choose|i: int| 0 <= i < t2.len() && t2[i] == e0;
        let j: int = choose|j: int| 0 <= j < t1.len() && t1[j] == f0;
        if i != 0 {
            assert(name_lt(t2[0].name, t2[i].name));
            assert(name_lt(f0.name, e0.name));
            if j == 0 {
                assert(e0 == f0);
                lemma_name_lt_irreflexive(e0.name);
                assert(false);
            } else {
                assert(name_lt(t1[0].name, t1[j].name));
                assert(name_lt(e0.name, f0.name));
                lemma_name_lt_asymmetric(e0.name, f0.name);
                assert(false);
            }
        }
        assert(t2[0] == e0);
        let d1 = t1.drop_first();
        let d2 = t2.drop_first();
        assert(d1 =~= t1.remove(0));
        assert(d2 =~= t2.remove(0));
        assert(d1.to_multiset() == t1.to_multiset().remove(e0));
        assert(d2.to_multiset() == t2.to_multiset().remove(e0));
        assert forall|x: int, y: int| 0 <= x < y < d1.len() implies name_lt(
            (#[trigger] d1[x]).name,
            (#[trigger] d1[y]).name,
        ) by {
            assert(d1[x] == t1[x + 1]);
            assert(d1[y] == t1[y + 1]);
        }
        assert forall|x: int, y: int| 0 <= x < y < d2.len() implies name_lt(
            (#[trigger] d2[x]).name,
            (#[trigger] d2[y]).name,
        ) by {
            assert(d2[x] == t2[x + 1]);
            assert(d2[y] == t2[y + 1]);
        }
        lemma_sorted_entries_unique(d1, d2);
        assert(t1 =~= t2) by {
            assert forall|k: int| 0 <= k < t1.len() implies t1[k] == t2[k] by {
                if k > 0 {
                    assert(d1[k - 1] == d2[k - 1]);
                }
            }
        }
    }
}

/// Law: two well-formed directory objects holding the same entries —
/// whatever order those entries were inserted in — are equal, so their
/// canonical encodings and their identifiers coincide.
pub proof fn lemma_order_independent_identifier(t1: Tree, t2: Tree)
    requires
        t1.wf(),
        t2.wf(),
        t1@.to_multiset() == t2@.to_multiset(),
    ensures
        t1@ == t2@,
        tree_encoding(t1@) == tree_encoding(t2@),
        sha1_of(tree_encoding(t1@)) == sha1_of(tree_encoding(t2@)),
{
    lemma_sorted_entries_unique(t1@, t2@);
}

/// Law: the empty directory's canonical encoding differs from every
/// non-empty directory's, so its identifier is a fixed value of its own
/// (distinct as far as the digest is collision-free).
pub proof fn lemma_empty_tree_distinct(s: Seq<EntryModel>)
    requires
        s.len() > 0,
    ensures
        tree_encoding(s) != tree_encoding(Seq::<EntryModel>::empty()),
{
    let blk = entries_encoding(s);
    assert(blk == entry_encoding(s[0]) + entries_encoding(s.drop_first()));
    assert(entry_encoding(s[0]).len() >= 8);
    assert(blk.len() >= 8);
    lemma_decimal_leading(blk.len());
    lemma_decimal_leading(0);
    let te = tree_encoding(s);
    let t0 = tree_encoding(Seq::<EntryModel>::empty());
    assert(entries_encoding(Seq::<EntryModel>::empty()) =~= Seq::<u8>::empty());
    assert(decimal_octets(0) =~= seq![0x30u8]);
    assert(te.len() >= 7);
    assert(te[5] == decimal_octets(blk.len())[0]);
    assert(t0[5] == 0x30);
    assert(te[5] != t0[5]);
    assert(te != t0);
}

} // verus!
