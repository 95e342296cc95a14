use vstd::prelude::*;

use crate::blob::{blob_encoding, Blob};
use crate::digest::sha1_of;
use crate::enc::copy_bytes;
use crate::mode::Mode;
use crate::tree::{
    contains_name, lemma_sorted_entries_unique, lemma_sorted_insert_contains,
    lemma_sorted_insert_multiset, lemma_sorted_insert_sorted, sorted_entries, sorted_insert,
    tree_encoding, EntryModel, Tree, TreeError, TreeItem,
};

verus! {

/// One directory child as read off the filesystem: the raw bytes of its
/// name (a single path segment) and what was found at it.
#[derive(Debug)]
pub struct FsEntry {
    pub name: Vec<u8>,
    pub node: FsNode,
}

/// A filesystem subtree held as plain values, the form the tree builder
/// consumes: a regular file carries its content and its permission bits
/// (the low nine bits of a POSIX file mode; zero where the platform has
/// none), a symbolic link carries its target text — not the target's
/// content — and a directory carries its children in whatever order the
/// filesystem listed them.
#[derive(Debug)]
pub enum FsNode {
    File { content: Vec<u8>, permissions: u32 },
    Symlink { target: Vec<u8> },
    Dir { children: Vec<FsEntry> },
}

impl FsNode {
    /// The mode the entry for this node gets, decided by its kind and
    /// its permission bits.
    pub open spec fn mode(self) -> Mode {
        match self {
            FsNode::File { permissions, .. } => Mode::spec_classify(false, false, permissions),
            FsNode::Symlink { .. } => Mode::SymbolicLink,
            FsNode::Dir { .. } => Mode::Directory,
        }
    }

    /// The canonical encoding of the object this subtree builds: a blob
    /// envelope for files and link targets, a tree envelope over the
    /// children's entries for directories.
    pub open spec fn encoding(self) -> Seq<u8>
        decreases self,
    {
        match self {
            FsNode::File { content, .. } => blob_encoding(content@),
            FsNode::Symlink { target } => blob_encoding(target@),
            FsNode::Dir { children } => tree_encoding(dir_entries(children@)),
        }
    }

    /// The entries of the directory object this node builds (empty for
    /// non-directories).
    pub open spec fn dir_model(self) -> Seq<EntryModel> {
        match self {
            FsNode::Dir { children } => dir_entries(children@),
            _ => Seq::<EntryModel>::empty(),
        }
    }

    /// Does every directory of the subtree satisfy the entry invariants:
    /// child names nonempty and pairwise distinct?
    pub open spec fn build_ok(self) -> bool
        decreases self,
    {
        match self {
            FsNode::File { .. } => true,
            FsNode::Symlink { .. } => true,
            FsNode::Dir { children } => {
                &&& (forall|k: int|
                    0 <= k < children@.len() ==> (#[trigger] children@[k]).name@.len() > 0)
                &&& (forall|k: int, l: int|
                    0 <= k < l < children@.len() ==> (#[trigger] children@[k]).name@ != (
                    #[trigger] children@[l]).name@)
                &&& (forall|k: int|
                    0 <= k < children@.len() ==> (#[trigger] children@[k]).node.build_ok())
            },
        }
    }
}

/// The directory entry one child contributes: its name, its node's mode,
/// and the identifier of the object its node builds.
pub open spec fn fs_entry_model(e: FsEntry) -> EntryModel
    decreases e,
{
    EntryModel { name: e.name@, mode: e.node.mode(), oid: sha1_of(e.node.encoding()) }
}

/// The entries of the directory object built from the given children:
/// each child's entry, brought into canonical order — the listing order
/// itself leaves no trace.
pub open spec fn dir_entries(c: Seq<FsEntry>) -> Seq<EntryModel>
    decreases c,
{
    if c.len() == 0 {
        Seq::<EntryModel>::empty()
    } else {
        sorted_insert(dir_entries(c.drop_last()), fs_entry_model(c.last()))
    }
}

/// The names present among built directory entries are exactly the
/// children's names.
pub proof fn lemma_dir_entries_contains(c: Seq<FsEntry>, nm: Seq<u8>)
    ensures
        contains_name(dir_entries(c), nm) <==> (exists|k: int|
            0 <= k < c.len() && (#[trigger] c[k]).name@ == nm),
    decreases c.len(),
{
    if c.len() == 0 {
        assert(!contains_name(dir_entries(c), nm));
    } else {
        let d = c.drop_last();
        lemma_dir_entries_contains(d, nm);
        lemma_sorted_insert_contains(dir_entries(d), fs_entry_model(c.last()), nm);
        assert(c.last() == c[c.len() - 1]);
        if contains_name(dir_entries(c), nm) {
            if contains_name(dir_entries(d), nm) {
                let k: int = choose|k: int| 0 <= k < d.len() && (#[trigger] d[k]).name@ == nm;
                assert(c[k] == d[k]);
            }
        }
        if exists|k: int| 0 <= k < c.len() && (#[trigger] c[k]).name@ == nm {
            let k: int = choose|k: int| 0 <= k < c.len() && (#[trigger] c[k]).name@ == nm;
            if k < c.len() - 1 {
                assert(d[k] == c[k]);
                assert(contains_name(dir_entries(d), nm));
            }
        }
    }
}

/// The entry each child contributes, in listing order.
pub open spec fn dir_entry_models(c: Seq<FsEntry>) -> Seq<EntryModel> {
    Seq::new(c.len(), |i: int| fs_entry_model(c[i]))
}

/// Building from children with pairwise-distinct names gives entries in
/// canonical order, and exactly the children's entries.
pub proof fn lemma_dir_entries_props(c: Seq<FsEntry>)
    requires
        forall|k: int, l: int|
            0 <= k < l < c.len() ==> (#[trigger] c[k]).name@ != (#[trigger] c[l]).name@,
    ensures
        sorted_entries(dir_entries(c)),
        dir_entries(c).to_multiset() == dir_entry_models(c).to_multiset(),
    decreases c.len(),
{
    broadcast use vstd::seq_lib::group_to_multiset_ensures;

    if c.len() == 0 {
        assert(dir_entry_models(c) =~= Seq::<EntryModel>::empty());
        assert(dir_entries(c) =~= Seq::<EntryModel>::empty());
    } else {
        let d = c.drop_last();
        let em = fs_entry_model(c.last());
        assert forall|k: int, l: int| 0 <= k < l < d.len() implies (#[trigger] d[k]).name@ != (
        #[trigger] d[l]).name@ by {
            assert(d[k] == c[k]);
            assert(d[l] == c[l]);
        }
        lemma_dir_entries_props(d);
        assert(!contains_name(dir_entries(d), em.name)) by {
            lemma_dir_entries_contains(d, em.name);
            if exists|k: int| 0 <= k < d.len() && (#[trigger] d[k]).name@ == em.name {
                let k: int = choose|k: int| 0 <= k < d.len() && (#[trigger] d[k]).name@ == em.name;
                assert(c[k] == d[k]);
                assert(c.last() == c[c.len() - 1]);
                assert(c[k].name@ == c[c.len() - 1].name@);
            }
        }
        lemma_sorted_insert_sorted(dir_entries(d), em);
        lemma_sorted_insert_multiset(dir_entries(d), em);
        assert(dir_entry_models(c) =~= dir_entry_models(d).push(em)) by {
            assert forall|i: int| 0 <= i < c.len() implies dir_entry_models(c)[i] == dir_entry_models(
                d,
            ).push(em)[i] by {
                if i < c.len() - 1 {
                    assert(d[i] == c[i]);
                } else {
                    assert(c.last() == c[i]);
                }
            }
        }
        vstd::seq_lib::to_multiset_build(dir_entry_models(d), em);
    }
}

/// Law: the directory object built from a directory's children does not
/// depend on the order the filesystem listed them in — children that are
/// the same set of (name, mode, content-derived identifier) entries build
/// the same entry sequence, so the same encoding and the same identifier.
pub proof fn lemma_build_order_independent(c1: Seq<FsEntry>, c2: Seq<FsEntry>)
    requires
        forall|k: int, l: int|
            0 <= k < l < c1.len() ==> (#[trigger] c1[k]).name@ != (#[trigger] c1[l]).name@,
        forall|k: int, l: int|
            0 <= k < l < c2.len() ==> (#[trigger] c2[k]).name@ != (#[trigger] c2[l]).name@,
        dir_entry_models(c1).to_multiset() == dir_entry_models(c2).to_multiset(),
    ensures
        dir_entries(c1) == dir_entries(c2),
        tree_encoding(dir_entries(c1)) == tree_encoding(dir_entries(c2)),
        sha1_of(tree_encoding(dir_entries(c1))) == sha1_of(tree_encoding(dir_entries(c2))),
{
    lemma_dir_entries_props(c1);
    lemma_dir_entries_props(c2);
    lemma_sorted_entries_unique(dir_entries(c1), dir_entries(c2));
}

impl Tree {
    /// Build the directory object for a whole filesystem subtree,
    /// depth-first and bottom-up: a file object for each file or link, a
    /// directory object for each directory, each child entered under its
    /// name with its mode and its child's identifier. Fails with
    /// `NotADirectory` when the root is not a directory, and with
    /// `EmptyName` or `DuplicateEntryName` when some directory's children
    /// break the entry invariants; nothing partial is ever returned.
    #[verifier::loop_isolation(false)]
    pub fn from_fs(node: &FsNode) -> (r: Result<Tree, TreeError>)
        ensures
            (r is Ok <==> (node is Dir && node.build_ok())),
            (r matches Ok(t) ==> t.wf() && t@ == node.dir_model()),
            !(node is Dir) ==> r == Err::<Tree, TreeError>(TreeError::NotADirectory),
            (node is Dir && !node.build_ok()) ==> (r == Err::<Tree, TreeError>(
                TreeError::EmptyName,
            ) || r == Err::<Tree, TreeError>(TreeError::DuplicateEntryName)),
        decreases *node,
    {
        match node {
            FsNode::File { .. } => Err(TreeError::NotADirectory),
            FsNode::Symlink { .. } => Err(TreeError::NotADirectory),
            FsNode::Dir { children } => {
                let mut tree = Tree::new();
                let n: usize = children.len();
                let mut i: usize = 0;
                proof {
                    assert(children@.take(0) =~= Seq::<FsEntry>::empty());
                }
                while i < n
                    invariant
                        i <= n,
                        tree.wf(),
                        tree@ == dir_entries(children@.take(i as int)),
                        forall|k: int| 0 <= k < i ==> (#[trigger] children@[k]).name@.len() > 0,
                        forall|k: int, l: int|
                            0 <= k < l < i ==> (#[trigger] children@[k]).name@ != (
                            #[trigger] children@[l]).name@,
                        forall|k: int| 0 <= k < i ==> (#[trigger] children@[k]).node.build_ok(),
                    decreases n - i,
                {
                    let child = &children[i];
                    proof {
                        assert(decreases_to!(*node => *children));
                        assert(decreases_to!(*children => children@[i as int]));
                        assert(decreases_to!(children@[i as int] => children@[i as int].node));
                    }
                    let item: TreeItem = match &child.node {
                        FsNode::Dir { .. } => {
                            match Tree::from_fs(&child.node) {
                                Ok(t) => TreeItem::Tree(t),
                                Err(e) => {
                                    proof {
                                        assert(!children@[i as int].node.build_ok());
                                        assert(!node.build_ok());
                                    }
                                    return Err(e);
                                },
                            }
                        },
                        FsNode::File { content, .. } => TreeItem::Blob(Blob::from_bytes(content)),
                        FsNode::Symlink { target } => TreeItem::Blob(Blob::from_bytes(target)),
                    };
                    let oid = item.id();
                    let mode = match &child.node {
                        FsNode::Dir { .. } => Mode::Directory,
                        FsNode::Symlink { .. } => Mode::SymbolicLink,
                        FsNode::File { permissions, .. } => Mode::classify(
                            false,
                            false,
                            *permissions,
                        ),
                    };
                    proof {
                        assert(item.encoding() == children@[i as int].node.encoding());
                        assert(oid@ == sha1_of(children@[i as int].node.encoding()));
                        assert(mode == children@[i as int].node.mode());
                    }
                    let name = copy_bytes(&child.name);
                    let ghost t_before = tree@;
                    let ghost em = fs_entry_model(children@[i as int]);
                    match tree.add(name, mode, oid) {
                        Ok(_) => {},
                        Err(e) => {
                            proof {
                                if name@.len() == 0 {
                                    assert(children@[i as int].name@.len() == 0);
                                    assert(!node.build_ok());
                                } else {
                                    assert(contains_name(t_before, name@));
                                    lemma_dir_entries_contains(children@.take(i as int), name@);
                                    let k: int = choose|k: int|
                                        0 <= k < i && (#[trigger] children@.take(i as int)[k]).name@
                                            == name@;
                                    assert(children@[k].name@ == children@[i as int].name@);
                                    assert(!node.build_ok());
                                }
                            }
                            return Err(e);
                        },
                    }
                    proof {
                        assert(!contains_name(t_before, name@));
                        lemma_dir_entries_contains(children@.take(i as int), name@);
                        assert forall|k: int| 0 <= k < i implies (#[trigger] children@[k]).name@
                            != children@[i as int].name@ by {
                            if children@[k].name@ == children@[i as int].name@ {
                                assert((children@.take(i as int)[k]).name@ == name@);
                                assert(contains_name(t_before, name@));
                            }
                        }
                        assert(tree@ == sorted_insert(t_before, em));
                        let t1 = children@.take(i + 1);
                        assert(t1.drop_last() =~= children@.take(i as int));
                        assert(t1.last() == children@[i as int]);
                        assert(tree@ == dir_entries(t1));
                    }
                    i += 1;
                }
                proof {
                    assert(children@.take(n as int) =~= children@);
                    assert(node.build_ok());
                }
                Ok(tree)
            },
        }
    }
}

} // verus!
