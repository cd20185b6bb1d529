//! Trees: flattening a stored tree into file paths, and building a tree
//! object from the contents of a directory.
use vstd::prelude::*;
use vstd::utf8::*;
use crate::object::{blake3_digest, hash_bytes, encode, ObjectHash, Tree, TreeEntry, TreeEntryKind, TreeEntryView};
use crate::order::{bytes_lt, lemma_sorted_by_name_unique, names_determine, sort_by_name, sorted_by_name, Named};
use crate::status::{distinct_paths, pairs_view, path_map, unchanged_tree_shows_no_change, walk_files};
use crate::wire::{blob_bytes, encode_blob_data, tree_bytes};
use crate::object::str_eq;

verus! {

/// The path of an entry named `name` inside the directory at `prefix`;
/// the root directory has the empty prefix.
pub open spec fn join_path(prefix: Seq<char>, name: Seq<char>) -> Seq<char> {
    if prefix.len() == 0 {
        name
    } else {
        prefix + "/"@ + name
    }
}

/// An entry of a tree, with the path it has below the tree's own path.
pub struct TreeItem {
    pub path: String,
    pub kind: TreeEntryKind,
    pub hash: ObjectHash,
}

pub open spec fn item_view(i: TreeItem) -> (Seq<char>, TreeEntryKind, Seq<u8>) {
    (i.path@, i.kind, i.hash@)
}

pub open spec fn items_of(prefix: Seq<char>, es: Seq<TreeEntryView>) -> Seq<
    (Seq<char>, TreeEntryKind, Seq<u8>),
> {
    es.map_values(|e: TreeEntryView| (join_path(prefix, e.name), e.kind, e.hash))
}

fn join(prefix: &str, name: &str) -> (r: String)
    ensures
        r@ == join_path(prefix@, name@),
{
    if prefix.is_empty() {
        name.to_owned()
    } else {
        let mut p = prefix.to_owned();
        p.append("/");
        p.append(name);
        p
    }
}

/// The entries of `tree`, which lies at `prefix`, with their full paths.
pub fn expand_tree(prefix: &str, tree: &Tree) -> (items: Vec<TreeItem>)
    ensures
        items@.map_values(|i: TreeItem| item_view(i)) == items_of(prefix@, tree@),
{
    let mut items: Vec<TreeItem> = Vec::new();
    let mut i: usize = 0;
    while i < tree.entries.len()
        invariant
            i <= tree.entries@.len(),
            items@.map_values(|i: TreeItem| item_view(i)) == items_of(prefix@, tree@.take(i as int)),
        decreases tree.entries@.len() - i,
    {
        let e = &tree.entries[i];
        let ghost before = items@.map_values(|i: TreeItem| item_view(i));
        let item = TreeItem { path: join(prefix, e.name.as_str()), kind: e.kind, hash: e.hash };
        assert(item_view(item) == (join_path(prefix@, e@.name), e@.kind, e@.hash));
        items.push(item);
        assert(items@.map_values(|i: TreeItem| item_view(i)) =~= before.push(item_view(item)));
        assert(tree@.take(i + 1) =~= tree@.take(i as int).push(e@));
        assert(items_of(prefix@, tree@.take(i + 1)) =~= items_of(prefix@, tree@.take(i as int)).push(
            (join_path(prefix@, e@.name), e@.kind, e@.hash),
        ));
        i = i + 1;
        assert(items@.map_values(|i: TreeItem| item_view(i)) =~= items_of(
            prefix@,
            tree@.take(i as int),
        ));
    }
    assert(tree@.take(i as int) =~= tree@);
    items
}

/// A depth-first walk over stored trees that finds their files, each tree's
/// entries in order and a subtree's files where the subtree stands.
///
/// The caller asks which tree to load next, loads it, and hands it back.
pub struct TreeWalk {
    /// Entries still to look at, each with its full path; the last comes
    /// next.
    pub pending: Vec<TreeItem>,
    /// Files found so far, each with the hash of its blob.
    pub files: Vec<(String, ObjectHash)>,
}

pub open spec fn items_view(s: Seq<TreeItem>) -> Seq<(Seq<char>, TreeEntryKind, Seq<u8>)> {
    s.map_values(|i: TreeItem| item_view(i))
}

/// Taking entries off the end of `pending`: files join `files`, and the
/// first subtree met is the one to load next. Yields the entries left, the
/// files, and that subtree with its path, if any.
pub open spec fn walk_to_tree(
    pending: Seq<(Seq<char>, TreeEntryKind, Seq<u8>)>,
    files: Seq<(Seq<char>, Seq<u8>)>,
) -> (Seq<(Seq<char>, TreeEntryKind, Seq<u8>)>, Seq<(Seq<char>, Seq<u8>)>, Option<(Seq<char>, Seq<u8>)>)
    decreases pending.len(),
{
    if pending.len() == 0 {
        (pending, files, None)
    } else if pending.last().1 == TreeEntryKind::Blob {
        walk_to_tree(pending.drop_last(), files.push((pending.last().0, pending.last().2)))
    } else {
        (pending.drop_last(), files, Some((pending.last().0, pending.last().2)))
    }
}

pub open spec fn opt_pair_view(r: Option<(String, ObjectHash)>) -> Option<(Seq<char>, Seq<u8>)> {
    match r {
        Some(p) => Some((p.0@, p.1@)),
        None => None,
    }
}

impl TreeWalk {
    /// A walk that starts at the root tree `root`.
    pub fn new(root: ObjectHash) -> (w: TreeWalk)
        ensures
            items_view(w.pending@) == seq![(Seq::<char>::empty(), TreeEntryKind::Tree, root@)],
            w.files@.len() == 0,
    {
        let mut pending = Vec::new();
        pending.push(TreeItem { path: String::new(), kind: TreeEntryKind::Tree, hash: root });
        let w = TreeWalk { pending, files: Vec::new() };
        assert(items_view(w.pending@) =~= seq![(Seq::<char>::empty(), TreeEntryKind::Tree, root@)]);
        w
    }

    /// The next tree to load, with its path, after recording the files that
    /// come before it; `None` when the walk is done.
    pub fn next_tree(&mut self) -> (r: Option<(String, ObjectHash)>)
        ensures
            walk_to_tree(items_view(old(self).pending@), pairs_view(old(self).files@)) == (
                items_view(final(self).pending@),
                pairs_view(final(self).files@),
                opt_pair_view(r),
            ),
    {
        let ghost target = walk_to_tree(items_view(self.pending@), pairs_view(self.files@));
        while self.pending.len() > 0
            invariant
                walk_to_tree(items_view(self.pending@), pairs_view(self.files@)) == target,
                target == walk_to_tree(items_view(old(self).pending@), pairs_view(old(self).files@)),
            decreases self.pending@.len(),
        {
            let ghost p0 = items_view(self.pending@);
            let ghost f0 = pairs_view(self.files@);
            let item = self.pending.pop().unwrap();
            assert(items_view(self.pending@) =~= p0.drop_last());
            assert(item_view(item) == p0.last());
            if item.kind == TreeEntryKind::Tree {
                assert(walk_to_tree(p0, f0) == (p0.drop_last(), f0, Some((p0.last().0, p0.last().2))));
                return Some((item.path, item.hash));
            }
            self.files.push((item.path, item.hash));
            assert(pairs_view(self.files@) =~= f0.push((p0.last().0, p0.last().2)));
        }
        None
    }

    /// Records that the tree at `prefix` has been loaded: its entries, with
    /// their full paths, are the next to look at, first entry first.
    pub fn visit(&mut self, prefix: &str, tree: &Tree)
        ensures
            items_view(final(self).pending@) == items_view(old(self).pending@) + items_of(
                prefix@,
                tree@,
            ).reverse(),
            final(self).files@ == old(self).files@,
    {
        let items = expand_tree(prefix, tree);
        let ghost iv = items_view(items@);
        let ghost p0 = items_view(self.pending@);
        let mut j: usize = items.len();
        while j > 0
            invariant
                j <= items@.len(),
                iv == items_view(items@),
                items_view(self.pending@) == p0 + iv.skip(j as int).reverse(),
                self.files@ == old(self).files@,
            decreases j,
        {
            let ghost before = items_view(self.pending@);
            let item = TreeItem { path: items[j - 1].path.clone(), kind: items[j - 1].kind, hash: items[j - 1].hash };
            self.pending.push(item);
            assert(items_view(self.pending@) =~= before.push(iv[j - 1]));
            assert(iv.skip(j - 1).reverse() =~= iv.skip(j as int).reverse().push(iv[j - 1]));
            j = j - 1;
        }
        assert(iv.skip(0) =~= iv);
    }

    /// The files found, each with its blob hash.
    pub fn into_files(self) -> (files: Vec<(String, ObjectHash)>)
        ensures
            files@ == self.files@,
    {
        self.files
    }
}


/// The name that the repository's own directory has; it is never recorded.
pub open spec fn repo_dir_name() -> Seq<char> {
    ".cntl"@
}

/// Whether a directory entry is left out of snapshots: the repository's own
/// directory, at any depth.
pub fn is_ignored_name(name: &str) -> (r: bool)
    ensures
        r == (name@ == repo_dir_name()),
{
    str_eq(name, ".cntl")
}

/// What a directory entry holds: a file's bytes, or the hash of the tree
/// already written for a subdirectory.
pub enum ChildContent {
    File { data: Vec<u8> },
    Dir { tree: ObjectHash },
}

/// One entry of a directory being snapshotted.
pub struct DirChild {
    /// The name, as text.
    pub name: String,
    /// The name as the file system stores it, by which entries are sorted.
    pub os_name: Vec<u8>,
    pub content: ChildContent,
}

impl Named for DirChild {
    open spec fn name_key(&self) -> Seq<u8> {
        self.os_name@
    }

    fn name_bytes(&self) -> (r: &[u8]) {
        self.os_name.as_slice()
    }
}

/// The type of a stored object, as the object table names it.
#[derive(Debug, Clone, Copy, PartialEq, Eq, Structural)]
pub enum ObjectKind {
    Blob,
    Tree,
    Commit,
}

pub open spec fn kind_name(k: ObjectKind) -> Seq<char> {
    match k {
        ObjectKind::Blob => "blob"@,
        ObjectKind::Tree => "tree"@,
        ObjectKind::Commit => "commit"@,
    }
}

impl ObjectKind {
    /// The type name stored beside the object.
    pub fn table_name(&self) -> (r: &'static str)
        ensures
            r@ == kind_name(*self),
    {
        match self {
            ObjectKind::Blob => "blob",
            ObjectKind::Tree => "tree",
            ObjectKind::Commit => "commit",
        }
    }
}

/// An object to store: its hash, type and bytes.
pub struct NewObject {
    pub hash: ObjectHash,
    pub kind: ObjectKind,
    pub bytes: Vec<u8>,
}

pub open spec fn new_object_view(o: NewObject) -> (Seq<u8>, ObjectKind, Seq<u8>) {
    (o.hash@, o.kind, o.bytes@)
}

/// An object with its content address: the blake3 digest of its bytes.
pub open spec fn addressed(kind: ObjectKind, bytes: Seq<u8>) -> (Seq<u8>, ObjectKind, Seq<u8>) {
    (blake3_digest(bytes), kind, bytes)
}

/// The tree entry that a directory entry becomes.
pub open spec fn child_entry(c: DirChild) -> TreeEntryView {
    match c.content {
        ChildContent::File { data } => TreeEntryView {
            name: c.name@,
            kind: TreeEntryKind::Blob,
            hash: blake3_digest(blob_bytes(data@)),
        },
        ChildContent::Dir { tree } => TreeEntryView {
            name: c.name@,
            kind: TreeEntryKind::Tree,
            hash: tree@,
        },
    }
}

/// The entries of a directory, in the given order, without the
/// repository's own directory.
pub open spec fn snapshot_entries(cs: Seq<DirChild>) -> Seq<TreeEntryView>
    decreases cs.len(),
{
    if cs.len() == 0 {
        Seq::empty()
    } else if cs.last().name@ == repo_dir_name() {
        snapshot_entries(cs.drop_last())
    } else {
        snapshot_entries(cs.drop_last()).push(child_entry(cs.last()))
    }
}

/// The blobs of the files of a directory, in the given order, without the
/// repository's own directory.
pub open spec fn snapshot_blobs(cs: Seq<DirChild>) -> Seq<(Seq<u8>, ObjectKind, Seq<u8>)>
    decreases cs.len(),
{
    if cs.len() == 0 {
        Seq::empty()
    } else if cs.last().name@ == repo_dir_name() {
        snapshot_blobs(cs.drop_last())
    } else {
        match cs.last().content {
            ChildContent::File { data } => snapshot_blobs(cs.drop_last()).push(
                addressed(ObjectKind::Blob, blob_bytes(data@)),
            ),
            ChildContent::Dir { .. } => snapshot_blobs(cs.drop_last()),
        }
    }
}

/// A directory written as a tree: the objects to store (the blob of each
/// file, then the tree itself) and the tree's hash.
pub struct WrittenTree {
    pub hash: ObjectHash,
    pub objects: Vec<NewObject>,
}

/// `hash` and `objects` are what snapshotting a directory with the entries
/// `children` gives: the entries sorted by name, the blobs of the files,
/// then the tree, stored under the hash of its encoding.
pub open spec fn snapshot_written(
    children: Seq<DirChild>,
    hash: Seq<u8>,
    objects: Seq<(Seq<u8>, ObjectKind, Seq<u8>)>,
) -> bool {
    exists|sorted: Seq<DirChild>|
        {
            &&& #[trigger] sorted_by_name(sorted)
            &&& sorted.to_multiset() =~= children.to_multiset()
            &&& objects == snapshot_blobs(sorted) + seq![
                addressed(ObjectKind::Tree, tree_bytes(snapshot_entries(sorted))),
            ]
            &&& hash == blake3_digest(tree_bytes(snapshot_entries(sorted)))
        }
}

/// No two entries have the same name, as in a directory.
pub open spec fn distinct_names(cs: Seq<DirChild>) -> bool {
    forall|i: int, j: int| 0 <= i < j < cs.len() ==> #[trigger] cs[i].os_name@ != #[trigger] cs[j].os_name@
}

/// Snapshots a directory: its entries sorted by name, the repository's own
/// directory left out, each file stored as a blob and each subdirectory by
/// the tree already written for it.
pub fn write_tree(children: Vec<DirChild>) -> (w: WrittenTree)
    ensures
        snapshot_written(
            children@,
            w.hash@,
            w.objects@.map_values(|o: NewObject| new_object_view(o)),
        ),
        forall|i: int|
            0 <= i < children@.len() && children@[i].name@ != repo_dir_name()
                && #[trigger] children@[i].content is File ==> w.objects@.map_values(
                |o: NewObject| new_object_view(o),
            ).contains(
                (
                    blake3_digest(blob_bytes(children@[i].content->File_data@)),
                    ObjectKind::Blob,
                    blob_bytes(children@[i].content->File_data@),
                ),
            ),
{
    let sorted = sort_by_name(children);
    let mut objects: Vec<NewObject> = Vec::new();
    let mut entries: Vec<TreeEntry> = Vec::new();
    let mut i: usize = 0;
    while i < sorted.len()
        invariant
            i <= sorted@.len(),
            objects@.map_values(|o: NewObject| new_object_view(o)) == snapshot_blobs(
                sorted@.take(i as int),
            ),
            entries@.map_values(|e: TreeEntry| e@) == snapshot_entries(sorted@.take(i as int)),
        decreases sorted@.len() - i,
    {
        let c = &sorted[i];
        assert(sorted@.take(i + 1).drop_last() =~= sorted@.take(i as int));
        assert(sorted@.take(i + 1).last() == *c);
        let ghost ov = objects@.map_values(|o: NewObject| new_object_view(o));
        let ghost ev = entries@.map_values(|e: TreeEntry| e@);
        if !is_ignored_name(c.name.as_str()) {
            match &c.content {
                ChildContent::File { data } => {
                    let bytes = encode_blob_data(data.as_slice());
                    let hash = hash_bytes(bytes.as_slice());
                    let o = NewObject { hash, kind: ObjectKind::Blob, bytes };
                    assert(new_object_view(o) == addressed(ObjectKind::Blob, blob_bytes(data@)));
                    objects.push(o);
                    assert(objects@.map_values(|o: NewObject| new_object_view(o)) =~= ov.push(
                        new_object_view(o),
                    ));
                    let e = TreeEntry { name: c.name.clone(), kind: TreeEntryKind::Blob, hash };
                    assert(e@ == child_entry(*c));
                    entries.push(e);
                    assert(entries@.map_values(|e: TreeEntry| e@) =~= ev.push(e@));
                },
                ChildContent::Dir { tree } => {
                    let e = TreeEntry { name: c.name.clone(), kind: TreeEntryKind::Tree, hash: *tree };
                    assert(e@ == child_entry(*c));
                    entries.push(e);
                    assert(entries@.map_values(|e: TreeEntry| e@) =~= ev.push(e@));
                },
            }
        }
        i = i + 1;
    }
    assert(sorted@.take(i as int) =~= sorted@);
    let tree = Tree { entries };
    let bytes = encode(&tree);
    let hash = hash_bytes(bytes.as_slice());
    let ghost ov = objects@.map_values(|o: NewObject| new_object_view(o));
    let o = NewObject { hash, kind: ObjectKind::Tree, bytes };
    objects.push(o);
    assert(objects@.map_values(|o: NewObject| new_object_view(o)) =~= ov.push(new_object_view(o)));
    let w = WrittenTree { hash, objects };
    assert(sorted_by_name(sorted@));
    assert(sorted@.to_multiset() =~= children@.to_multiset());
    assert(w.objects@.map_values(|o: NewObject| new_object_view(o)) == snapshot_blobs(sorted@) + seq![
        addressed(ObjectKind::Tree, tree_bytes(snapshot_entries(sorted@))),
    ]);
    assert(w.hash@ == blake3_digest(tree_bytes(snapshot_entries(sorted@))));
    proof {
        snapshot_stores_every_blob(
            children@,
            w.hash@,
            w.objects@.map_values(|o: NewObject| new_object_view(o)),
        );
    }
    w
}


/// Law: the order in which a directory's entries are handed over does not
/// change what is written for it, as long as no two share a name: the same
/// objects, and the same tree hash.
pub proof fn snapshot_ignores_order(
    a: Seq<DirChild>,
    b: Seq<DirChild>,
    hash_a: Seq<u8>,
    objects_a: Seq<(Seq<u8>, ObjectKind, Seq<u8>)>,
    hash_b: Seq<u8>,
    objects_b: Seq<(Seq<u8>, ObjectKind, Seq<u8>)>,
)
    requires
        distinct_names(a),
        a.to_multiset() == b.to_multiset(),
        snapshot_written(a, hash_a, objects_a),
        snapshot_written(b, hash_b, objects_b),
    ensures
        hash_a == hash_b,
        objects_a == objects_b,
{
    let sa = choose|sorted: Seq<DirChild>|
        {
            &&& #[trigger] sorted_by_name(sorted)
            &&& sorted.to_multiset() =~= a.to_multiset()
            &&& objects_a == snapshot_blobs(sorted) + seq![
                addressed(ObjectKind::Tree, tree_bytes(snapshot_entries(sorted))),
            ]
            &&& hash_a == blake3_digest(tree_bytes(snapshot_entries(sorted)))
        };
    let sb = choose|sorted: Seq<DirChild>|
        {
            &&& #[trigger] sorted_by_name(sorted)
            &&& sorted.to_multiset() =~= b.to_multiset()
            &&& objects_b == snapshot_blobs(sorted) + seq![
                addressed(ObjectKind::Tree, tree_bytes(snapshot_entries(sorted))),
            ]
            &&& hash_b == blake3_digest(tree_bytes(snapshot_entries(sorted)))
        };
    lemma_distinct_names_determine(a);
    lemma_sorted_by_name_unique(sa, sb);
}

/// Law: a snapshot never records the repository's own directory.
pub proof fn snapshot_excludes_repo_dir(cs: Seq<DirChild>)
    ensures
        forall|i: int| 0 <= i < snapshot_entries(cs).len() ==> #[trigger] snapshot_entries(cs)[i].name
            != repo_dir_name(),
    decreases cs.len(),
{
    if cs.len() > 0 {
        snapshot_excludes_repo_dir(cs.drop_last());
    }
}

/// Law: the entries of a snapshot keep the order of the directory entries
/// they come from, so entries sorted by name give a tree sorted by name,
/// where each name is the text its bytes encode.
pub proof fn snapshot_keeps_order(cs: Seq<DirChild>)
    requires
        sorted_by_name(cs),
        forall|i: int| 0 <= i < cs.len() ==> #[trigger] cs[i].os_name@ == encode_utf8(cs[i].name@),
    ensures
        forall|i: int, j: int|
            0 <= i < j < snapshot_entries(cs).len() ==> !crate::order::text_lt(
                #[trigger] snapshot_entries(cs)[j].name,
                #[trigger] snapshot_entries(cs)[i].name,
            ),
    decreases cs.len(),
{
    lemma_snapshot_from(cs);
    if cs.len() > 0 {
        let init = cs.drop_last();
        assert forall|i: int, j: int| 0 <= i < j < init.len() implies !bytes_lt(
            #[trigger] init[j].name_key(),
            #[trigger] init[i].name_key(),
        ) by {
            assert(init[i] == cs[i] && init[j] == cs[j]);
        }
        assert forall|i: int| 0 <= i < init.len() implies #[trigger] init[i].os_name@ == encode_utf8(
            init[i].name@,
        ) by {
            assert(init[i] == cs[i]);
        }
        snapshot_keeps_order(init);
        lemma_snapshot_from(init);
        let e = snapshot_entries(cs);
        let e0 = snapshot_entries(init);
        if cs.last().name@ != repo_dir_name() {
            assert forall|i: int, j: int| 0 <= i < j < e.len() implies !crate::order::text_lt(
                #[trigger] e[j].name,
                #[trigger] e[i].name,
            ) by {
                if j == e.len() - 1 {
                    let k = choose|k: int| 0 <= k < init.len() && init[k].name@ == e0[i].name;
                    assert(e[i] == e0[i]);
                    assert(cs[k] == init[k]);
                    assert(!bytes_lt(cs[cs.len() - 1].name_key(), cs[k].name_key()));
                    assert(cs[k].os_name@ == encode_utf8(cs[k].name@));
                    assert(cs[cs.len() - 1].os_name@ == encode_utf8(cs[cs.len() - 1].name@));
                } else {
                    assert(e[i] == e0[i] && e[j] == e0[j]);
                }
            }
        }
    }
}

proof fn lemma_snapshot_from(cs: Seq<DirChild>)
    ensures
        forall|i: int| 0 <= i < snapshot_entries(cs).len() ==> exists|k: int|
            0 <= k < cs.len() && cs[k].name@ == #[trigger] snapshot_entries(cs)[i].name,
    decreases cs.len(),
{
    if cs.len() > 0 {
        let init = cs.drop_last();
        lemma_snapshot_from(init);
        assert forall|i: int| 0 <= i < snapshot_entries(cs).len() implies exists|k: int|
            0 <= k < cs.len() && cs[k].name@ == #[trigger] snapshot_entries(cs)[i].name by {
            if i < snapshot_entries(init).len() {
                let k = choose|k: int| 0 <= k < init.len() && init[k].name@ == snapshot_entries(init)[i].name;
                assert(cs[k] == init[k]);
            } else {
                assert(cs[cs.len() - 1].name@ == snapshot_entries(cs)[i].name);
            }
        }
    }
}

/// A directory as it stands on disk: each entry a name with a file's bytes
/// or a subdirectory's own entries.
pub enum FsNode {
    File { data: Seq<u8> },
    Dir { entries: Seq<(Seq<char>, FsNode)> },
}

/// The tree entries that snapshotting the entries `es` from index `i` on
/// gives, in their order, without the repository's own directory: a file
/// by the hash of its blob, a subdirectory by the hash of its own tree.
pub open spec fn dir_entries(es: Seq<(Seq<char>, FsNode)>, i: int) -> Seq<TreeEntryView>
    decreases es, es.len() - i,
{
    if i < 0 || i >= es.len() {
        Seq::empty()
    } else if es[i].0 == repo_dir_name() {
        dir_entries(es, i + 1)
    } else {
        let e = match es[i].1 {
            FsNode::File { data } => TreeEntryView {
                name: es[i].0,
                kind: TreeEntryKind::Blob,
                hash: blake3_digest(blob_bytes(data)),
            },
            FsNode::Dir { entries } => TreeEntryView {
                name: es[i].0,
                kind: TreeEntryKind::Tree,
                hash: blake3_digest(tree_bytes(dir_entries(entries, 0))),
            },
        };
        seq![e] + dir_entries(es, i + 1)
    }
}

/// The hash of the tree written for a directory with the entries `es`.
pub open spec fn dir_hash(es: Seq<(Seq<char>, FsNode)>) -> Seq<u8> {
    blake3_digest(tree_bytes(dir_entries(es, 0)))
}

/// The files below the entries `es` from index `i` on, where they lie at
/// `prefix`, each with the hash of its blob: depth first, in entry order,
/// without the repository's own directory.
pub open spec fn dir_files(prefix: Seq<char>, es: Seq<(Seq<char>, FsNode)>, i: int) -> Seq<
    (Seq<char>, Seq<u8>),
>
    decreases es, es.len() - i,
{
    if i < 0 || i >= es.len() {
        Seq::empty()
    } else if es[i].0 == repo_dir_name() {
        dir_files(prefix, es, i + 1)
    } else {
        match es[i].1 {
            FsNode::File { data } => seq![(join_path(prefix, es[i].0), blake3_digest(blob_bytes(data)))]
                + dir_files(prefix, es, i + 1),
            FsNode::Dir { entries } => dir_files(join_path(prefix, es[i].0), entries, 0) + dir_files(
                prefix,
                es,
                i + 1,
            ),
        }
    }
}

/// How many subdirectories lie below the entries `es` from index `i` on.
pub open spec fn dir_count(es: Seq<(Seq<char>, FsNode)>, i: int) -> nat
    decreases es, es.len() - i,
{
    if i < 0 || i >= es.len() {
        0
    } else if es[i].0 == repo_dir_name() {
        dir_count(es, i + 1)
    } else {
        match es[i].1 {
            FsNode::File { .. } => dir_count(es, i + 1),
            FsNode::Dir { entries } => 1 + dir_count(entries, 0) + dir_count(es, i + 1),
        }
    }
}

/// `store` gives back, under its hash, the tree of every subdirectory
/// below the entries `es` from index `i` on.
pub open spec fn trees_stored(
    store: Map<Seq<u8>, Seq<TreeEntryView>>,
    es: Seq<(Seq<char>, FsNode)>,
    i: int,
) -> bool
    decreases es, es.len() - i,
{
    if i < 0 || i >= es.len() {
        true
    } else if es[i].0 == repo_dir_name() {
        trees_stored(store, es, i + 1)
    } else {
        &&& match es[i].1 {
            FsNode::File { .. } => true,
            FsNode::Dir { entries } => {
                &&& store.contains_key(dir_hash(entries))
                &&& store[dir_hash(entries)] == dir_entries(entries, 0)
                &&& trees_stored(store, entries, 0)
            },
        }
        &&& trees_stored(store, es, i + 1)
    }
}

/// The files that a tree walk finds when each tree it asks for is loaded
/// from `store`: `None` when a tree is missing or `fuel` trees did not
/// suffice.
pub open spec fn walk_with(
    store: Map<Seq<u8>, Seq<TreeEntryView>>,
    pending: Seq<(Seq<char>, TreeEntryKind, Seq<u8>)>,
    files: Seq<(Seq<char>, Seq<u8>)>,
    fuel: nat,
) -> Option<Seq<(Seq<char>, Seq<u8>)>>
    decreases fuel,
{
    let (rest, found, next) = walk_to_tree(pending, files);
    match next {
        None => Some(found),
        Some((path, hash)) => if fuel == 0 || !store.contains_key(hash) {
            None
        } else {
            walk_with(store, rest + items_of(path, store[hash]).reverse(), found, (fuel - 1) as nat)
        },
    }
}

proof fn lemma_walk_pops_file(
    store: Map<Seq<u8>, Seq<TreeEntryView>>,
    pending: Seq<(Seq<char>, TreeEntryKind, Seq<u8>)>,
    files: Seq<(Seq<char>, Seq<u8>)>,
    fuel: nat,
)
    requires
        pending.len() > 0,
        pending.last().1 == TreeEntryKind::Blob,
    ensures
        walk_with(store, pending, files, fuel) == walk_with(
            store,
            pending.drop_last(),
            files.push((pending.last().0, pending.last().2)),
            fuel,
        ),
{
    assert(walk_to_tree(pending, files) == walk_to_tree(
        pending.drop_last(),
        files.push((pending.last().0, pending.last().2)),
    ));
}

proof fn lemma_walk_loads_tree(
    store: Map<Seq<u8>, Seq<TreeEntryView>>,
    rest: Seq<(Seq<char>, TreeEntryKind, Seq<u8>)>,
    path: Seq<char>,
    hash: Seq<u8>,
    files: Seq<(Seq<char>, Seq<u8>)>,
    fuel: nat,
)
    requires
        store.contains_key(hash),
    ensures
        walk_with(store, rest.push((path, TreeEntryKind::Tree, hash)), files, fuel + 1) == walk_with(
            store,
            rest + items_of(path, store[hash]).reverse(),
            files,
            fuel,
        ),
{
    let p = rest.push((path, TreeEntryKind::Tree, hash));
    assert(p.drop_last() =~= rest);
    assert(walk_to_tree(p, files) == (rest, files, Some((path, hash))));
}

proof fn lemma_walk_entries(
    store: Map<Seq<u8>, Seq<TreeEntryView>>,
    pending: Seq<(Seq<char>, TreeEntryKind, Seq<u8>)>,
    files: Seq<(Seq<char>, Seq<u8>)>,
    prefix: Seq<char>,
    es: Seq<(Seq<char>, FsNode)>,
    i: int,
    fuel: nat,
)
    requires
        0 <= i <= es.len(),
        trees_stored(store, es, i),
    ensures
        walk_with(
            store,
            pending + items_of(prefix, dir_entries(es, i)).reverse(),
            files,
            fuel + dir_count(es, i),
        ) == walk_with(store, pending, files + dir_files(prefix, es, i), fuel),
    decreases es, es.len() - i,
{
    if i == es.len() {
        assert(items_of(prefix, dir_entries(es, i)).reverse() =~= Seq::empty());
        assert(pending + items_of(prefix, dir_entries(es, i)).reverse() =~= pending);
        assert(files + dir_files(prefix, es, i) =~= files);
    } else if es[i].0 == repo_dir_name() {
        lemma_walk_entries(store, pending, files, prefix, es, i + 1, fuel);
    } else {
        let rest_items = items_of(prefix, dir_entries(es, i + 1));
        let e = dir_entries(es, i)[0];
        let item = (join_path(prefix, e.name), e.kind, e.hash);
        assert(dir_entries(es, i) =~= seq![e] + dir_entries(es, i + 1));
        assert(items_of(prefix, dir_entries(es, i)) =~= seq![item] + rest_items);
        let below = pending + rest_items.reverse();
        assert(pending + items_of(prefix, dir_entries(es, i)).reverse() =~= below.push(item));
        match es[i].1 {
            FsNode::File { data } => {
                assert(below.push(item).drop_last() =~= below);
                lemma_walk_pops_file(store, below.push(item), files, fuel + dir_count(es, i));
                lemma_walk_entries(store, pending, files.push((item.0, item.2)), prefix, es, i + 1, fuel);
                assert(files.push((item.0, item.2)) + dir_files(prefix, es, i + 1) =~= files + dir_files(
                    prefix,
                    es,
                    i,
                ));
            },
            FsNode::Dir { entries } => {
                assert(decreases_to!(es => es[i]));
                let path = join_path(prefix, es[i].0);
                let f1 = (fuel + dir_count(es, i + 1)) as nat;
                lemma_walk_loads_tree(
                    store,
                    below,
                    path,
                    dir_hash(entries),
                    files,
                    (f1 + dir_count(entries, 0)) as nat,
                );
                lemma_walk_entries(store, below, files, path, entries, 0, f1);
                lemma_walk_entries(
                    store,
                    pending,
                    files + dir_files(path, entries, 0),
                    prefix,
                    es,
                    i + 1,
                    fuel,
                );
                assert(files + dir_files(path, entries, 0) + dir_files(prefix, es, i + 1) =~= files
                    + dir_files(prefix, es, i));
            },
        }
    }
}

/// Law: the tree written for a directory, walked back with each tree
/// loaded from a store that holds the trees written for it, yields exactly
/// the directory's files, each with the hash of its blob, depth first in
/// entry order; the walk loads one tree per directory.
pub proof fn walk_finds_snapshot_files(store: Map<Seq<u8>, Seq<TreeEntryView>>, es: Seq<(Seq<char>, FsNode)>)
    requires
        store.contains_key(dir_hash(es)),
        store[dir_hash(es)] == dir_entries(es, 0),
        trees_stored(store, es, 0),
    ensures
        walk_with(
            store,
            seq![(Seq::<char>::empty(), TreeEntryKind::Tree, dir_hash(es))],
            Seq::empty(),
            dir_count(es, 0) + 1,
        ) == Some(dir_files(Seq::<char>::empty(), es, 0)),
{
    let empty_items = Seq::<(Seq<char>, TreeEntryKind, Seq<u8>)>::empty();
    let no_files = Seq::<(Seq<char>, Seq<u8>)>::empty();
    assert(seq![(Seq::<char>::empty(), TreeEntryKind::Tree, dir_hash(es))] =~= empty_items.push(
        (Seq::<char>::empty(), TreeEntryKind::Tree, dir_hash(es)),
    ));
    lemma_walk_loads_tree(store, empty_items, Seq::empty(), dir_hash(es), no_files, dir_count(es, 0));
    lemma_walk_entries(store, empty_items, no_files, Seq::empty(), es, 0, 0);
    assert(no_files + dir_files(Seq::<char>::empty(), es, 0) =~= dir_files(Seq::<char>::empty(), es, 0));
    assert(walk_to_tree(empty_items, dir_files(Seq::<char>::empty(), es, 0)) == (
        empty_items,
        dir_files(Seq::<char>::empty(), es, 0),
        None::<(Seq<char>, Seq<u8>)>,
    ));
}

/// Law: after a commit, with no file changed since, status finds nothing:
/// the working files, in whatever order they are listed and each with the
/// hash of its blob, match the files that walking back the committed tree
/// yields, so no file is modified, new or deleted.
pub proof fn committed_tree_is_clean(
    store: Map<Seq<u8>, Seq<TreeEntryView>>,
    es: Seq<(Seq<char>, FsNode)>,
    files: Seq<(Seq<char>, Seq<u8>)>,
)
    requires
        store.contains_key(dir_hash(es)),
        store[dir_hash(es)] == dir_entries(es, 0),
        trees_stored(store, es, 0),
        distinct_paths(files),
        path_map(files) == path_map(dir_files(Seq::<char>::empty(), es, 0)),
    ensures
        walk_with(
            store,
            seq![(Seq::<char>::empty(), TreeEntryKind::Tree, dir_hash(es))],
            Seq::empty(),
            dir_count(es, 0) + 1,
        ) matches Some(head) && walk_files(files, path_map(head)).0.len() == 0 && walk_files(
            files,
            path_map(head),
        ).1.dom().len() == 0,
{
    walk_finds_snapshot_files(store, es);
    unchanged_tree_shows_no_change(files, dir_files(Seq::<char>::empty(), es, 0));
}

/// A directory entry handed to `write_tree` holds what an entry on disk
/// holds: the same name, a file's bytes, or for a subdirectory the hash of
/// the tree written for it.
pub open spec fn child_matches(c: DirChild, e: (Seq<char>, FsNode)) -> bool {
    &&& c.name@ == e.0
    &&& match (c.content, e.1) {
        (ChildContent::File { data }, FsNode::File { data: d }) => data@ == d,
        (ChildContent::Dir { tree }, FsNode::Dir { entries }) => tree@ == dir_hash(entries),
        _ => false,
    }
}

pub open spec fn children_match(cs: Seq<DirChild>, es: Seq<(Seq<char>, FsNode)>) -> bool {
    &&& cs.len() == es.len()
    &&& forall|i: int| 0 <= i < cs.len() ==> child_matches(#[trigger] cs[i], es[i])
}

proof fn lemma_snapshot_matches(cs: Seq<DirChild>, es: Seq<(Seq<char>, FsNode)>, k: int)
    requires
        children_match(cs, es),
        0 <= k <= cs.len(),
    ensures
        snapshot_entries(cs.take(k)) + dir_entries(es, k) == dir_entries(es, 0),
    decreases k,
{
    if k == 0 {
        assert(cs.take(0) =~= Seq::<DirChild>::empty());
        assert(snapshot_entries(cs.take(0)) + dir_entries(es, 0) =~= dir_entries(es, 0));
    } else {
        lemma_snapshot_matches(cs, es, k - 1);
        let j = k - 1;
        assert(cs.take(k).drop_last() =~= cs.take(j));
        assert(cs.take(k).last() == cs[j]);
        assert(child_matches(cs[j], es[j]));
        if es[j].0 != repo_dir_name() {
            assert(child_entry(cs[j]) == dir_entries(es, j)[0]);
            assert(dir_entries(es, j) =~= seq![child_entry(cs[j])] + dir_entries(es, k));
            assert(snapshot_entries(cs.take(k)) + dir_entries(es, k) =~= snapshot_entries(cs.take(j))
                + dir_entries(es, j));
        }
    }
}

proof fn lemma_distinct_names_determine(a: Seq<DirChild>)
    requires
        distinct_names(a),
    ensures
        names_determine(a.to_multiset()),
{
    a.to_multiset_ensures();
    assert forall|x: DirChild, y: DirChild|
        a.to_multiset().contains(x) && a.to_multiset().contains(y) && #[trigger] x.name_key()
            == #[trigger] y.name_key() implies x == y by {
        assert(a.to_multiset().count(x) > 0);
        assert(a.to_multiset().count(y) > 0);
        let i = choose|i: int| 0 <= i < a.len() && a[i] == x;
        let j = choose|j: int| 0 <= j < a.len() && a[j] == y;
        if i < j {
            assert(a[i].os_name@ != a[j].os_name@);
        } else if j < i {
            assert(a[j].os_name@ != a[i].os_name@);
        }
    }
}

/// Law: what `write_tree` writes for the entries of a directory, listed by
/// name, is that directory's tree: its hash is the directory's tree hash
/// and the last object is the tree itself.
pub proof fn written_tree_is_dir_tree(
    cs: Seq<DirChild>,
    es: Seq<(Seq<char>, FsNode)>,
    hash: Seq<u8>,
    objects: Seq<(Seq<u8>, ObjectKind, Seq<u8>)>,
)
    requires
        children_match(cs, es),
        sorted_by_name(cs),
        distinct_names(cs),
        snapshot_written(cs, hash, objects),
    ensures
        hash == dir_hash(es),
        objects.len() > 0,
        objects.last() == addressed(ObjectKind::Tree, tree_bytes(dir_entries(es, 0))),
{
    let s = choose|sorted: Seq<DirChild>|
        {
            &&& #[trigger] sorted_by_name(sorted)
            &&& sorted.to_multiset() =~= cs.to_multiset()
            &&& objects == snapshot_blobs(sorted) + seq![
                addressed(ObjectKind::Tree, tree_bytes(snapshot_entries(sorted))),
            ]
            &&& hash == blake3_digest(tree_bytes(snapshot_entries(sorted)))
        };
    lemma_distinct_names_determine(cs);
    lemma_sorted_by_name_unique(cs, s);
    lemma_snapshot_matches(cs, es, cs.len() as int);
    assert(cs.take(cs.len() as int) =~= cs);
    assert(dir_entries(es, cs.len() as int) =~= Seq::<TreeEntryView>::empty());
    assert(snapshot_entries(cs) + Seq::<TreeEntryView>::empty() =~= snapshot_entries(cs));
}

proof fn lemma_snapshot_blobs_has(cs: Seq<DirChild>, j: int)
    requires
        0 <= j < cs.len(),
        cs[j].name@ != repo_dir_name(),
        cs[j].content is File,
    ensures
        snapshot_blobs(cs).contains(
            (
                blake3_digest(blob_bytes(cs[j].content->File_data@)),
                ObjectKind::Blob,
                blob_bytes(cs[j].content->File_data@),
            ),
        ),
    decreases cs.len(),
{
    let d = cs[j].content->File_data@;
    let o = (blake3_digest(blob_bytes(d)), ObjectKind::Blob, blob_bytes(d));
    if j == cs.len() - 1 {
        let s = snapshot_blobs(cs);
        assert(s == snapshot_blobs(cs.drop_last()).push(o));
        assert(s[s.len() - 1] == o);
    } else {
        assert(cs.drop_last()[j] == cs[j]);
        lemma_snapshot_blobs_has(cs.drop_last(), j);
        let prev = snapshot_blobs(cs.drop_last());
        let k = choose|k: int| 0 <= k < prev.len() && prev[k] == o;
        if cs.last().name@ != repo_dir_name() {
            match cs.last().content {
                ChildContent::File { data } => {
                    assert(snapshot_blobs(cs) == prev.push(addressed(ObjectKind::Blob, blob_bytes(data@))));
                    assert(snapshot_blobs(cs)[k] == o);
                },
                ChildContent::Dir { .. } => {},
            }
        }
    }
}

/// Law: snapshotting a directory stores the blob of every file in it (the
/// repository's own directory aside), empty files included: an object of
/// kind blob whose bytes are the blob's encoding, under the hash of those
/// bytes, which is the hash the tree records for the file.
pub proof fn snapshot_stores_every_blob(
    cs: Seq<DirChild>,
    hash: Seq<u8>,
    objects: Seq<(Seq<u8>, ObjectKind, Seq<u8>)>,
)
    requires
        snapshot_written(cs, hash, objects),
    ensures
        forall|i: int|
            0 <= i < cs.len() && cs[i].name@ != repo_dir_name() && #[trigger] cs[i].content is File
                ==> objects.contains(
                (
                    blake3_digest(blob_bytes(cs[i].content->File_data@)),
                    ObjectKind::Blob,
                    blob_bytes(cs[i].content->File_data@),
                ),
            ),
{
    let s = choose|sorted: Seq<DirChild>|
        {
            &&& #[trigger] sorted_by_name(sorted)
            &&& sorted.to_multiset() =~= cs.to_multiset()
            &&& objects == snapshot_blobs(sorted) + seq![
                addressed(ObjectKind::Tree, tree_bytes(snapshot_entries(sorted))),
            ]
            &&& hash == blake3_digest(tree_bytes(snapshot_entries(sorted)))
        };
    cs.to_multiset_ensures();
    s.to_multiset_ensures();
    assert forall|i: int|
        0 <= i < cs.len() && cs[i].name@ != repo_dir_name() && #[trigger] cs[i].content is File
            implies objects.contains(
            (
                blake3_digest(blob_bytes(cs[i].content->File_data@)),
                ObjectKind::Blob,
                blob_bytes(cs[i].content->File_data@),
            ),
        ) by {
        assert(cs.contains(cs[i]));
        assert(s.to_multiset().count(cs[i]) > 0);
        let j = choose|j: int| 0 <= j < s.len() && s[j] == cs[i];
        lemma_snapshot_blobs_has(s, j);
        let b = snapshot_blobs(s);
        let o = (
            blake3_digest(blob_bytes(cs[i].content->File_data@)),
            ObjectKind::Blob,
            blob_bytes(cs[i].content->File_data@),
        );
        let k = choose|k: int| 0 <= k < b.len() && b[k] == o;
        assert(objects[k] == o);
    }
}

} // verus!
