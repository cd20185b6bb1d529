//! Comparing the working tree with the snapshot that HEAD records.
use vstd::prelude::*;
use vstd::utf8::*;
use crate::object::{blake3_digest, hash_bytes, ObjectHash};
use crate::order::{bytes_lt, compare_text, sort_by_name, sorted_by_name, text_lt, lemma_text_lt_order, Named, TextOrder};
use crate::wire::{blob_bytes, encode_blob_data};

verus! {

/// How many leading bytes are inspected for NUL when deciding whether
/// content is binary.
pub open spec fn binary_probe_len() -> int {
    8192
}

/// Content counts as binary when a NUL byte occurs among its first 8192
/// bytes.
pub open spec fn is_binary_spec(bytes: Seq<u8>) -> bool {
    exists|i: int| 0 <= i < bytes.len() && i < binary_probe_len() && bytes[i] == 0
}

/// Whether content is binary: a NUL byte among its first 8192 bytes.
pub fn is_binary(bytes: &[u8]) -> (r: bool)
    ensures
        r == is_binary_spec(bytes@),
{
    let check_len = if bytes.len() < 8192 {
        bytes.len()
    } else {
        8192
    };
    let mut i: usize = 0;
    while i < check_len
        invariant
            i <= check_len,
            check_len <= bytes@.len(),
            check_len as int == if bytes@.len() < 8192 {
                bytes@.len() as int
            } else {
                8192
            },
            forall|j: int| 0 <= j < i ==> bytes@[j] != 0,
        decreases check_len - i,
    {
        if bytes[i] == 0 {
            return true;
        }
        i = i + 1;
    }
    false
}

/// The identity of a working-tree file: the hash of the blob that holds
/// its bytes.
pub fn blob_hash(data: &[u8]) -> (h: ObjectHash)
    ensures
        h@ == blake3_digest(blob_bytes(data@)),
{
    let bytes = encode_blob_data(data);
    hash_bytes(bytes.as_slice())
}

/// A path with the hash of the object stored for it.
pub type PathHash = (String, ObjectHash);

impl Named for (String, ObjectHash) {
    open spec fn name_key(&self) -> Seq<u8> {
        encode_utf8(self.0@)
    }

    fn name_bytes(&self) -> (r: &[u8]) {
        self.0.as_str().as_bytes()
    }
}

/// A difference between the working tree and HEAD.
#[derive(Debug)]
pub enum Change {
    /// The file exists in both, with other content; `head` is its HEAD blob.
    Modified { path: String, head: ObjectHash },
    /// The file exists only in the working tree.
    Added { path: String },
    /// The file exists only in HEAD; `head` is its blob.
    Deleted { path: String, head: ObjectHash },
}

pub enum ChangeView {
    Modified { path: Seq<char>, head: Seq<u8> },
    Added { path: Seq<char> },
    Deleted { path: Seq<char>, head: Seq<u8> },
}

impl View for Change {
    type V = ChangeView;

    open spec fn view(&self) -> ChangeView {
        match self {
            Change::Modified { path, head } => ChangeView::Modified { path: path@, head: head@ },
            Change::Added { path } => ChangeView::Added { path: path@ },
            Change::Deleted { path, head } => ChangeView::Deleted { path: path@, head: head@ },
        }
    }
}

pub open spec fn pairs_view(s: Seq<(String, ObjectHash)>) -> Seq<(Seq<char>, Seq<u8>)> {
    s.map_values(|p: (String, ObjectHash)| (p.0@, p.1@))
}

/// The files that HEAD records, as a map from path to blob hash; a later
/// entry for a path replaces an earlier one.
pub open spec fn path_map(s: Seq<(Seq<char>, Seq<u8>)>) -> Map<Seq<char>, Seq<u8>>
    decreases s.len(),
{
    if s.len() == 0 {
        Map::empty()
    } else {
        path_map(s.drop_last()).insert(s.last().0, s.last().1)
    }
}

/// Walking the working-tree files in order against the HEAD files not yet
/// matched: a file with HEAD content is unchanged, one with other content is
/// modified, one without a HEAD entry is added; a matched entry is used up.
/// Yields the changes found and the HEAD files left.
pub open spec fn walk_files(files: Seq<(Seq<char>, Seq<u8>)>, head: Map<Seq<char>, Seq<u8>>) -> (
    Seq<ChangeView>,
    Map<Seq<char>, Seq<u8>>,
)
    decreases files.len(),
{
    if files.len() == 0 {
        (Seq::empty(), head)
    } else {
        let (cs, m) = walk_files(files.drop_last(), head);
        let f = files.last();
        if m.contains_key(f.0) {
            if m[f.0] == f.1 {
                (cs, m.remove(f.0))
            } else {
                (cs.push(ChangeView::Modified { path: f.0, head: m[f.0] }), m.remove(f.0))
            }
        } else {
            (cs.push(ChangeView::Added { path: f.0 }), m)
        }
    }
}

/// `d` lists the map, one entry per key, in byte order of the keys.
pub open spec fn sorted_listing(d: Seq<(Seq<char>, Seq<u8>)>, m: Map<Seq<char>, Seq<u8>>) -> bool {
    &&& forall|i: int, j: int| 0 <= i < j < d.len() ==> text_lt(#[trigger] d[i].0, #[trigger] d[j].0)
    &&& forall|i: int| 0 <= i < d.len() ==> m.contains_key(#[trigger] d[i].0) && m[d[i].0] == d[i].1
    &&& forall|k: Seq<char>| #[trigger] m.contains_key(k) ==> exists|i: int| 0 <= i < d.len() && d[i].0 == k
}

pub open spec fn deletions(d: Seq<(Seq<char>, Seq<u8>)>) -> Seq<ChangeView> {
    d.map_values(|p: (Seq<char>, Seq<u8>)| ChangeView::Deleted { path: p.0, head: p.1 })
}

/// The keys of `v` are distinct and `v` lists exactly the map `m`.
pub open spec fn represents(v: Seq<(Seq<char>, Seq<u8>)>, m: Map<Seq<char>, Seq<u8>>) -> bool {
    &&& forall|i: int, j: int| 0 <= i < j < v.len() ==> #[trigger] v[i].0 != #[trigger] v[j].0
    &&& forall|i: int| 0 <= i < v.len() ==> m.contains_key(#[trigger] v[i].0) && m[v[i].0] == v[i].1
    &&& forall|k: Seq<char>| #[trigger] m.contains_key(k) ==> exists|i: int| 0 <= i < v.len() && v[i].0 == k
}

pub(crate) fn find_path(v: &Vec<(String, ObjectHash)>, path: &str) -> (r: Option<usize>)
    ensures
        match r {
            Some(i) => i < v@.len() && v@[i as int].0@ == path@,
            None => forall|i: int| 0 <= i < v@.len() ==> #[trigger] v@[i].0@ != path@,
        },
{
    let mut i: usize = 0;
    while i < v.len()
        invariant
            i <= v@.len(),
            forall|j: int| 0 <= j < i ==> #[trigger] v@[j].0@ != path@,
        decreases v@.len() - i,
    {
        if compare_text(v[i].0.as_str(), path) == TextOrder::Equal {
            return Some(i);
        }
        i = i + 1;
    }
    None
}

/// The HEAD files as a list with one entry per path.
pub(crate) fn head_table(head: &Vec<(String, ObjectHash)>) -> (t: Vec<(String, ObjectHash)>)
    ensures
        represents(pairs_view(t@), path_map(pairs_view(head@))),
{
    let mut t: Vec<(String, ObjectHash)> = Vec::new();
    let mut i: usize = 0;
    while i < head.len()
        invariant
            i <= head@.len(),
            represents(pairs_view(t@), path_map(pairs_view(head@.take(i as int)))),
        decreases head@.len() - i,
    {
        let ghost hv = pairs_view(head@.take(i as int));
        let ghost tv = pairs_view(t@);
        let ghost m = path_map(hv);
        let path = head[i].0.clone();
        let hash = head[i].1;
        assert(pairs_view(head@.take(i + 1)).drop_last() =~= hv);
        assert(pairs_view(head@.take(i + 1)).last() == (path@, hash@));
        let ghost m2 = m.insert(path@, hash@);
        assert(path_map(pairs_view(head@.take(i + 1))) == m2);
        match find_path(&t, path.as_str()) {
            Some(j) => {
                t.set(j, (path, hash));
                proof {
                    let nt = pairs_view(t@);
                    assert(nt =~= tv.update(j as int, (path@, hash@)));
                    assert forall|a: int, b: int| 0 <= a < b < nt.len() implies #[trigger] nt[a].0
                        != #[trigger] nt[b].0 by {
                        assert(tv[a].0 != tv[b].0);
                    }
                    assert forall|a: int| 0 <= a < nt.len() implies m2.contains_key(#[trigger] nt[a].0)
                        && m2[nt[a].0] == nt[a].1 by {
                        if a != j {
                            assert(tv[a].0 != tv[j as int].0);
                        }
                    }
                    assert forall|k: Seq<char>| #[trigger] m2.contains_key(k) implies exists|a: int|
                        0 <= a < nt.len() && nt[a].0 == k by {
                        if k == path@ {
                            assert(nt[j as int].0 == k);
                        } else {
                            let a = choose|a: int| 0 <= a < tv.len() && tv[a].0 == k;
                            assert(nt[a].0 == k);
                        }
                    }
                }
            },
            None => {
                t.push((path, hash));
                proof {
                    let nt = pairs_view(t@);
                    assert(nt =~= tv.push((path@, hash@)));
                    assert forall|a: int, b: int| 0 <= a < b < nt.len() implies #[trigger] nt[a].0
                        != #[trigger] nt[b].0 by {
                        if b < tv.len() {
                            assert(tv[a].0 != tv[b].0);
                        } else {
                            assert(pairs_view(t@)[a].0 == tv[a].0);
                        }
                    }
                    assert forall|a: int| 0 <= a < nt.len() implies m2.contains_key(#[trigger] nt[a].0)
                        && m2[nt[a].0] == nt[a].1 by {
                        if a < tv.len() {
                            assert(tv[a].0 != path@);
                        }
                    }
                    assert forall|k: Seq<char>| #[trigger] m2.contains_key(k) implies exists|a: int|
                        0 <= a < nt.len() && nt[a].0 == k by {
                        if k == path@ {
                            assert(nt[nt.len() - 1].0 == k);
                        } else {
                            let a = choose|a: int| 0 <= a < tv.len() && tv[a].0 == k;
                            assert(nt[a].0 == k);
                        }
                    }
                }
            },
        }
        i = i + 1;
    }
    assert(head@.take(i as int) =~= head@);
    t
}


fn hash_eq(a: &ObjectHash, b: &ObjectHash) -> (r: bool)
    ensures
        r == (a@ == b@),
{
    let mut i: usize = 0;
    while i < 32
        invariant
            i <= 32,
            a@.len() == 32,
            b@.len() == 32,
            forall|j: int| 0 <= j < i ==> a@[j] == b@[j],
        decreases 32 - i,
    {
        if a[i] != b[i] {
            return false;
        }
        i = i + 1;
    }
    assert(a@ =~= b@);
    true
}

proof fn lemma_count_two<T>(s: Seq<T>, i: int, j: int)
    requires
        0 <= i < s.len(),
        0 <= j < s.len(),
        i != j,
        s[i] == s[j],
    ensures
        s.to_multiset().count(s[i]) >= 2,
{
    let x = s[i];
    let r = s.remove(i);
    s.to_multiset_ensures();
    r.to_multiset_ensures();
    s.remove_ensures(i);
    if j < i {
        assert(r[j] == x);
    } else {
        assert(r[j - 1] == x);
    }
    assert(r.contains(x));
    assert(r.to_multiset().count(x) > 0);
    assert(s.to_multiset().count(x) > 0);
}

proof fn lemma_two_positions<T>(s: Seq<T>, x: T)
    requires
        s.to_multiset().count(x) >= 2,
    ensures
        exists|p: int, q: int| 0 <= p < s.len() && 0 <= q < s.len() && p != q && s[p] == x && s[q] == x,
{
    s.to_multiset_ensures();
    assert(s.contains(x));
    let p = choose|p: int| 0 <= p < s.len() && s[p] == x;
    let r = s.remove(p);
    r.to_multiset_ensures();
    s.remove_ensures(p);
    assert(r.to_multiset().count(x) >= 1);
    assert(r.contains(x));
    let q1 = choose|q1: int| 0 <= q1 < r.len() && r[q1] == x;
    if q1 < p {
        assert(s[q1] == x);
    } else {
        assert(s[q1 + 1] == x);
    }
}

proof fn lemma_perm_represents(
    a: Seq<(String, ObjectHash)>,
    b: Seq<(String, ObjectHash)>,
    m: Map<Seq<char>, Seq<u8>>,
)
    requires
        a.to_multiset() =~= b.to_multiset(),
        represents(pairs_view(a), m),
    ensures
        represents(pairs_view(b), m),
{
    a.to_multiset_ensures();
    b.to_multiset_ensures();
    let av = pairs_view(a);
    let bv = pairs_view(b);
    assert forall|i: int| 0 <= i < b.len() implies exists|p: int| 0 <= p < a.len() && a[p] == #[trigger] b[i] by {
        assert(b.to_multiset().count(b[i]) > 0);
        assert(a.contains(b[i]));
    }
    assert forall|i: int, j: int| 0 <= i < j < bv.len() implies #[trigger] bv[i].0 != #[trigger] bv[j].0 by {
        if bv[i].0 == bv[j].0 {
            let p = choose|p: int| 0 <= p < a.len() && a[p] == b[i];
            let q = choose|q: int| 0 <= q < a.len() && a[q] == b[j];
            if p != q {
                if p < q {
                    assert(av[p].0 != av[q].0);
                } else {
                    assert(av[q].0 != av[p].0);
                }
            } else {
                lemma_count_two(b, i, j);
                lemma_two_positions(a, b[i]);
                let (p2, q2) = choose|p2: int, q2: int|
                    0 <= p2 < a.len() && 0 <= q2 < a.len() && p2 != q2 && a[p2] == b[i] && a[q2]
                        == b[i];
                if p2 < q2 {
                    assert(av[p2].0 != av[q2].0);
                } else {
                    assert(av[q2].0 != av[p2].0);
                }
            }
        }
    }
    assert forall|i: int| 0 <= i < bv.len() implies m.contains_key(#[trigger] bv[i].0) && m[bv[i].0]
        == bv[i].1 by {
        let p = choose|p: int| 0 <= p < a.len() && a[p] == b[i];
        assert(av[p] == bv[i]);
    }
    assert forall|k: Seq<char>| #[trigger] m.contains_key(k) implies exists|i: int|
        0 <= i < bv.len() && bv[i].0 == k by {
        let p = choose|p: int| 0 <= p < av.len() && av[p].0 == k;
        assert(a.to_multiset().count(a[p]) > 0);
        assert(b.contains(a[p]));
        let i = choose|i: int| 0 <= i < b.len() && b[i] == a[p];
        assert(bv[i].0 == k);
    }
}

proof fn lemma_remove_represents(v: Seq<(Seq<char>, Seq<u8>)>, m: Map<Seq<char>, Seq<u8>>, j: int)
    requires
        represents(v, m),
        0 <= j < v.len(),
    ensures
        represents(v.remove(j), m.remove(v[j].0)),
{
    let r = v.remove(j);
    let k0 = v[j].0;
    let m2 = m.remove(k0);
    v.remove_ensures(j);
    assert forall|a: int, b: int| 0 <= a < b < r.len() implies #[trigger] r[a].0 != #[trigger] r[b].0 by {
        let a1 = if a < j { a } else { a + 1 };
        let b1 = if b < j { b } else { b + 1 };
        assert(r[a] == v[a1] && r[b] == v[b1]);
        assert(v[a1].0 != v[b1].0);
    }
    assert forall|a: int| 0 <= a < r.len() implies m2.contains_key(#[trigger] r[a].0) && m2[r[a].0]
        == r[a].1 by {
        let a1 = if a < j { a } else { a + 1 };
        assert(r[a] == v[a1]);
        if a1 < j {
            assert(v[a1].0 != v[j].0);
        } else {
            assert(v[j].0 != v[a1].0);
        }
    }
    assert forall|k: Seq<char>| #[trigger] m2.contains_key(k) implies exists|a: int|
        0 <= a < r.len() && r[a].0 == k by {
        let a1 = choose|a1: int| 0 <= a1 < v.len() && v[a1].0 == k;
        if a1 < j {
            assert(r[a1].0 == k);
        } else {
            assert(a1 != j);
            assert(r[a1 - 1].0 == k);
        }
    }
}

pub open spec fn changes_view(s: Seq<Change>) -> Seq<ChangeView> {
    s.map_values(|c: Change| c@)
}

/// The differences between the working tree and HEAD: for each working-tree
/// file in the given order, whether it is modified or added, then each HEAD
/// file that the working tree lacks, in byte order of the paths. `files`
/// pairs each working-tree path with the hash of its blob, `head` each
/// path that HEAD records with its blob hash.
pub fn working_tree_changes(files: &Vec<(String, ObjectHash)>, head: &Vec<(String, ObjectHash)>) -> (r:
    Vec<Change>)
    ensures
        exists|d: Seq<(Seq<char>, Seq<u8>)>|
            {
                &&& #[trigger] sorted_listing(
                    d,
                    walk_files(pairs_view(files@), path_map(pairs_view(head@))).1,
                )
                &&& changes_view(r@) == walk_files(pairs_view(files@), path_map(pairs_view(head@))).0
                    + deletions(d)
            },
{
    let ghost hm = path_map(pairs_view(head@));
    let mut table = head_table(head);
    let mut out: Vec<Change> = Vec::new();
    let mut i: usize = 0;
    while i < files.len()
        invariant
            i <= files@.len(),
            hm == path_map(pairs_view(head@)),
            represents(pairs_view(table@), walk_files(pairs_view(files@.take(i as int)), hm).1),
            changes_view(out@) == walk_files(pairs_view(files@.take(i as int)), hm).0,
        decreases files@.len() - i,
    {
        let ghost fv = pairs_view(files@.take(i as int));
        let ghost w = walk_files(fv, hm);
        let ghost tv = pairs_view(table@);
        assert(pairs_view(files@.take(i + 1)).drop_last() =~= fv);
        assert(pairs_view(files@.take(i + 1)).last() == (files@[i as int].0@, files@[i as int].1@));
        let path = files[i].0.as_str();
        match find_path(&table, path) {
            Some(j) => {
                proof {
                    assert(tv[j as int].0 == path@);
                    lemma_remove_represents(tv, w.1, j as int);
                    assert(pairs_view(table@.remove(j as int)) =~= tv.remove(j as int));
                }
                if !hash_eq(&table[j].1, &files[i].1) {
                    let ghost before = changes_view(out@);
                    out.push(Change::Modified { path: files[i].0.clone(), head: table[j].1 });
                    assert(changes_view(out@) =~= before.push(
                        ChangeView::Modified { path: path@, head: tv[j as int].1 },
                    ));
                }
                table.remove(j);
            },
            None => {
                proof {
                    if w.1.contains_key(path@) {
                        let a = choose|a: int| 0 <= a < tv.len() && tv[a].0 == path@;
                        assert(table@[a].0@ != path@);
                    }
                }
                let ghost before = changes_view(out@);
                out.push(Change::Added { path: files[i].0.clone() });
                assert(changes_view(out@) =~= before.push(ChangeView::Added { path: path@ }));
            },
        }
        i = i + 1;
    }
    assert(files@.take(i as int) =~= files@);
    let ghost mfinal = walk_files(pairs_view(files@), hm).1;
    let ghost before_sort = table@;
    let sorted = sort_by_name(table);
    proof {
        lemma_perm_represents(before_sort, sorted@, mfinal);
    }
    let ghost dv = pairs_view(sorted@);
    proof {
        assert forall|a: int, b: int| 0 <= a < b < dv.len() implies text_lt(
            #[trigger] dv[a].0,
            #[trigger] dv[b].0,
        ) by {
            assert(!bytes_lt(sorted@[b].name_key(), sorted@[a].name_key()));
            assert(dv[a].0 != dv[b].0);
            lemma_text_lt_order(dv[a].0, dv[b].0, dv[b].0);
        }
    }
    let ghost head_part = changes_view(out@);
    let mut k: usize = 0;
    while k < sorted.len()
        invariant
            k <= sorted@.len(),
            dv == pairs_view(sorted@),
            changes_view(out@) == head_part + deletions(dv.take(k as int)),
        decreases sorted@.len() - k,
    {
        let ghost before = changes_view(out@);
        out.push(Change::Deleted { path: sorted[k].0.clone(), head: sorted[k].1 });
        assert(dv[k as int] == (sorted@[k as int].0@, sorted@[k as int].1@));
        assert(changes_view(out@) =~= before.push(
            ChangeView::Deleted { path: dv[k as int].0, head: dv[k as int].1 },
        ));
        assert(deletions(dv.take(k + 1)) =~= deletions(dv.take(k as int)).push(
            ChangeView::Deleted { path: dv[k as int].0, head: dv[k as int].1 },
        ));
        k = k + 1;
        assert(changes_view(out@) =~= head_part + deletions(dv.take(k as int)));
    }
    assert(dv.take(k as int) =~= dv);
    assert(sorted_listing(dv, mfinal));
    out
}


/// The status line of a change when it is of the group `group` (0:
/// modified, 1: new, 2: deleted).
pub open spec fn group_line(c: ChangeView, group: int) -> Option<Seq<char>> {
    match c {
        ChangeView::Modified { path, .. } => if group == 0 {
            Some("\tmodified:   "@ + path)
        } else {
            None
        },
        ChangeView::Added { path } => if group == 1 {
            Some("\tnew file:   "@ + path)
        } else {
            None
        },
        ChangeView::Deleted { path, .. } => if group == 2 {
            Some("\tdeleted:    "@ + path)
        } else {
            None
        },
    }
}

/// The status lines of the changes of one group, in order.
pub open spec fn group_lines(cs: Seq<ChangeView>, group: int) -> Seq<Seq<char>>
    decreases cs.len(),
{
    if cs.len() == 0 {
        Seq::empty()
    } else {
        match group_line(cs.last(), group) {
            Some(l) => group_lines(cs.drop_last(), group).push(l),
            None => group_lines(cs.drop_last(), group),
        }
    }
}

/// `\tnew file:   path` for each path.
pub open spec fn untracked_lines(files: Seq<Seq<char>>) -> Seq<Seq<char>> {
    files.map_values(|p: Seq<char>| "\tnew file:   "@ + p)
}

/// What `cntl status` prints: without a HEAD commit, every working-tree
/// file as untracked; with one, the changes grouped as modified, new and
/// deleted, or that the tree is clean.
pub open spec fn status_report(has_head: bool, files: Seq<Seq<char>>, changes: Seq<ChangeView>) -> Seq<
    Seq<char>,
> {
    if !has_head {
        seq!["No commits yet."@, Seq::empty()] + if files.len() == 0 {
            seq!["nothing to commit (working tree empty)"@]
        } else {
            seq!["Untracked files:"@] + untracked_lines(files)
        }
    } else if changes.len() == 0 {
        seq!["nothing to commit, working tree clean"@]
    } else {
        seq!["Changes since last commit:"@] + group_lines(changes, 0) + group_lines(changes, 1)
            + group_lines(changes, 2)
    }
}

fn push_prefixed(lines: &mut Vec<String>, prefix: &str, path: &str)
    ensures
        strings_view(final(lines)@) == strings_view(old(lines)@).push(prefix@ + path@),
{
    let mut l = prefix.to_owned();
    l.append(path);
    lines.push(l);
    assert(strings_view(final(lines)@) =~= strings_view(old(lines)@).push(prefix@ + path@));
}

pub open spec fn strings_view(s: Seq<String>) -> Seq<Seq<char>> {
    s.map_values(|x: String| x@)
}

fn push_group(lines: &mut Vec<String>, changes: &Vec<Change>, group: u8)
    requires
        group < 3,
    ensures
        strings_view(final(lines)@) == strings_view(old(lines)@) + group_lines(
            changes_view(changes@),
            group as int,
        ),
{
    let ghost start = strings_view(lines@);
    let mut i: usize = 0;
    while i < changes.len()
        invariant
            i <= changes@.len(),
            group < 3,
            strings_view(lines@) == start + group_lines(changes_view(changes@.take(i as int)), group as int),
        decreases changes@.len() - i,
    {
        let ghost cv = changes_view(changes@.take(i + 1));
        assert(cv.drop_last() =~= changes_view(changes@.take(i as int)));
        assert(cv.last() == changes@[i as int]@);
        match &changes[i] {
            Change::Modified { path, .. } => if group == 0 {
                push_prefixed(lines, "\tmodified:   ", path.as_str());
            },
            Change::Added { path } => if group == 1 {
                push_prefixed(lines, "\tnew file:   ", path.as_str());
            },
            Change::Deleted { path, .. } => if group == 2 {
                push_prefixed(lines, "\tdeleted:    ", path.as_str());
            },
        }
        i = i + 1;
        assert(strings_view(lines@) =~= start + group_lines(
            changes_view(changes@.take(i as int)),
            group as int,
        ));
    }
    assert(changes@.take(i as int) =~= changes@);
}

/// The lines that `cntl status` prints, given whether HEAD names a commit,
/// the working-tree files and the changes against HEAD.
pub fn status_lines(has_head: bool, files: &Vec<String>, changes: &Vec<Change>) -> (lines: Vec<String>)
    ensures
        strings_view(lines@) == status_report(has_head, strings_view(files@), changes_view(changes@)),
        has_head ==> ((strings_view(lines@) == seq!["nothing to commit, working tree clean"@]) <==> changes@.len()
            == 0),
{
    proof {
        status_lists_every_change(strings_view(files@), changes_view(changes@));
    }
    let mut lines: Vec<String> = Vec::new();
    if !has_head {
        lines.push("No commits yet.".to_owned());
        lines.push(String::new());
        if files.len() == 0 {
            lines.push("nothing to commit (working tree empty)".to_owned());
        } else {
            lines.push("Untracked files:".to_owned());
            let ghost start = strings_view(lines@);
            let mut i: usize = 0;
            while i < files.len()
                invariant
                    i <= files@.len(),
                    strings_view(lines@) == start + untracked_lines(strings_view(files@.take(i as int))),
                decreases files@.len() - i,
            {
                push_prefixed(&mut lines, "\tnew file:   ", files[i].as_str());
                i = i + 1;
                assert(untracked_lines(strings_view(files@.take(i as int))) =~= untracked_lines(
                    strings_view(files@.take(i - 1)),
                ).push("\tnew file:   "@ + files@[i - 1]@));
                assert(strings_view(lines@) =~= start + untracked_lines(
                    strings_view(files@.take(i as int)),
                ));
            }
            assert(files@.take(i as int) =~= files@);
        }
        assert(strings_view(lines@) =~= status_report(
            has_head,
            strings_view(files@),
            changes_view(changes@),
        ));
        return lines;
    }
    if changes.len() == 0 {
        lines.push("nothing to commit, working tree clean".to_owned());
        assert(strings_view(lines@) =~= status_report(
            has_head,
            strings_view(files@),
            changes_view(changes@),
        ));
        return lines;
    }
    lines.push("Changes since last commit:".to_owned());
    assert(strings_view(lines@) =~= seq!["Changes since last commit:"@]);
    push_group(&mut lines, changes, 0);
    push_group(&mut lines, changes, 1);
    push_group(&mut lines, changes, 2);
    lines
}


/// Law: whether content is binary depends on its first 8192 bytes only:
/// bytes after them change nothing.
pub proof fn binary_ignores_tail(a: Seq<u8>, rest: Seq<u8>)
    requires
        a.len() >= binary_probe_len(),
    ensures
        is_binary_spec(a + rest) == is_binary_spec(a),
{
    if is_binary_spec(a + rest) {
        let i = choose|i: int| 0 <= i < (a + rest).len() && i < binary_probe_len() && (a + rest)[i] == 0;
        assert(a[i] == 0);
    }
    if is_binary_spec(a) {
        let i = choose|i: int| 0 <= i < a.len() && i < binary_probe_len() && a[i] == 0;
        assert((a + rest)[i] == 0);
    }
}

/// The paths of a list are distinct.
pub open spec fn distinct_paths(s: Seq<(Seq<char>, Seq<u8>)>) -> bool {
    forall|i: int, j: int| 0 <= i < j < s.len() ==> #[trigger] s[i].0 != #[trigger] s[j].0
}

/// The paths of a list.
pub open spec fn path_set(s: Seq<(Seq<char>, Seq<u8>)>) -> Set<Seq<char>> {
    Set::new(|k: Seq<char>| exists|i: int| 0 <= i < s.len() && s[i].0 == k)
}

proof fn lemma_walk_unchanged(files: Seq<(Seq<char>, Seq<u8>)>, head: Map<Seq<char>, Seq<u8>>)
    requires
        distinct_paths(files),
        forall|i: int| 0 <= i < files.len() ==> head.contains_key(#[trigger] files[i].0) && head[files[i].0] == files[i].1,
    ensures
        walk_files(files, head).0.len() == 0,
        walk_files(files, head).1 =~= head.remove_keys(path_set(files)),
    decreases files.len(),
{
    if files.len() > 0 {
        let init = files.drop_last();
        assert forall|i: int, j: int| 0 <= i < j < init.len() implies #[trigger] init[i].0 != #[trigger] init[j].0 by {
            assert(files[i].0 != files[j].0);
        }
        assert forall|i: int| 0 <= i < init.len() implies head.contains_key(#[trigger] init[i].0) && head[init[i].0] == init[i].1 by {
            assert(files[i] == init[i]);
        }
        lemma_walk_unchanged(init, head);
        let f = files.last();
        let m = walk_files(init, head).1;
        assert(!path_set(init).contains(f.0)) by {
            if path_set(init).contains(f.0) {
                let i = choose|i: int| 0 <= i < init.len() && init[i].0 == f.0;
                assert(files[i].0 != files[files.len() - 1].0);
            }
        }
        assert(head.contains_key(files[files.len() - 1].0));
        assert(m.contains_key(f.0));
        assert(path_set(files) =~= path_set(init).insert(f.0)) by {
            assert forall|k: Seq<char>| path_set(files).contains(k) implies path_set(init).insert(f.0).contains(k) by {
                let i = choose|i: int| 0 <= i < files.len() && files[i].0 == k;
                if i < init.len() {
                    assert(init[i].0 == k);
                }
            }
            assert forall|k: Seq<char>| path_set(init).insert(f.0).contains(k) implies path_set(files).contains(k) by {
                if k == f.0 {
                    assert(files[files.len() - 1].0 == k);
                } else {
                    let i = choose|i: int| 0 <= i < init.len() && init[i].0 == k;
                    assert(files[i].0 == k);
                }
            }
        }
        assert(m.remove(f.0) =~= head.remove_keys(path_set(files)));
    }
}

/// Law: a working tree whose files are exactly those that HEAD records,
/// with the same content, shows no change.
pub proof fn unchanged_tree_shows_no_change(
    files: Seq<(Seq<char>, Seq<u8>)>,
    head: Seq<(Seq<char>, Seq<u8>)>,
)
    requires
        distinct_paths(files),
        path_map(files) =~= path_map(head),
    ensures
        walk_files(files, path_map(head)).0.len() == 0,
        walk_files(files, path_map(head)).1.dom().len() == 0,
{
    lemma_path_map_distinct(files);
    let m = path_map(head);
    lemma_walk_unchanged(files, m);
    let rest = walk_files(files, m).1;
    assert(rest.dom() =~= Set::<Seq<char>>::empty()) by {
        assert forall|k: Seq<char>| !rest.dom().contains(k) by {
            if m.contains_key(k) {
                let i = choose|i: int| 0 <= i < files.len() && files[i].0 == k;
                assert(path_set(files).contains(k));
            }
        }
    }
}

proof fn lemma_path_map_distinct(files: Seq<(Seq<char>, Seq<u8>)>)
    requires
        distinct_paths(files),
    ensures
        forall|i: int| 0 <= i < files.len() ==> path_map(files).contains_key(#[trigger] files[i].0) && path_map(files)[files[i].0] == files[i].1,
        forall|k: Seq<char>| #[trigger] path_map(files).contains_key(k) ==> exists|i: int| 0 <= i < files.len() && files[i].0 == k,
    decreases files.len(),
{
    if files.len() > 0 {
        let init = files.drop_last();
        assert forall|i: int, j: int| 0 <= i < j < init.len() implies #[trigger] init[i].0 != #[trigger] init[j].0 by {
            assert(files[i].0 != files[j].0);
        }
        lemma_path_map_distinct(init);
        assert forall|i: int| 0 <= i < files.len() implies path_map(files).contains_key(#[trigger] files[i].0) && path_map(files)[files[i].0] == files[i].1 by {
            if i < files.len() - 1 {
                assert(init[i] == files[i]);
                assert(files[i].0 != files[files.len() - 1].0);
            }
        }
        assert forall|k: Seq<char>| #[trigger] path_map(files).contains_key(k) implies exists|i: int| 0 <= i < files.len() && files[i].0 == k by {
            if k != files.last().0 {
                assert(path_map(files) == path_map(init).insert(files.last().0, files.last().1));
                assert(path_map(init).contains_key(k));
                let i = choose|i: int| 0 <= i < init.len() && init[i].0 == k;
                assert(init[i] == files[i]);
                assert(files[i].0 == k);
            } else {
                assert(files[files.len() - 1].0 == k);
            }
        }
    }
}

/// The line that names one change: its kind and its path.
pub open spec fn change_line(c: ChangeView) -> Seq<char> {
    match c {
        ChangeView::Modified { path, .. } => "\tmodified:   "@ + path,
        ChangeView::Added { path } => "\tnew file:   "@ + path,
        ChangeView::Deleted { path, .. } => "\tdeleted:    "@ + path,
    }
}

pub open spec fn change_group(c: ChangeView) -> int {
    match c {
        ChangeView::Modified { .. } => 0,
        ChangeView::Added { .. } => 1,
        ChangeView::Deleted { .. } => 2,
    }
}

proof fn lemma_group_lines_count(cs: Seq<ChangeView>)
    ensures
        group_lines(cs, 0).len() + group_lines(cs, 1).len() + group_lines(cs, 2).len() == cs.len(),
    decreases cs.len(),
{
    if cs.len() > 0 {
        lemma_group_lines_count(cs.drop_last());
    }
}

proof fn lemma_group_lines_has(cs: Seq<ChangeView>, i: int)
    requires
        0 <= i < cs.len(),
    ensures
        group_lines(cs, change_group(cs[i])).contains(change_line(cs[i])),
    decreases cs.len(),
{
    let g = change_group(cs[i]);
    let last = cs.len() - 1;
    if i == last {
        assert(group_line(cs.last(), g) == Some(change_line(cs[i])));
        let s = group_lines(cs, g);
        assert(s[s.len() - 1] == change_line(cs[i]));
    } else {
        lemma_group_lines_has(cs.drop_last(), i);
        assert(cs.drop_last()[i] == cs[i]);
        let prev = group_lines(cs.drop_last(), g);
        let k = choose|k: int| 0 <= k < prev.len() && prev[k] == change_line(cs[i]);
        match group_line(cs.last(), g) {
            Some(l) => {
                assert(group_lines(cs, g) == prev.push(l));
                assert(prev.push(l)[k] == change_line(cs[i]));
            },
            None => {},
        }
    }
}

/// Law: with a HEAD commit, `cntl status` says the tree is clean exactly
/// when nothing changed; otherwise it prints the header, then exactly one
/// line for each change, naming its kind and its path.
pub proof fn status_lists_every_change(files: Seq<Seq<char>>, changes: Seq<ChangeView>)
    ensures
        (status_report(true, files, changes) == seq!["nothing to commit, working tree clean"@]) <==> changes.len()
            == 0,
        changes.len() > 0 ==> status_report(true, files, changes)[0] == "Changes since last commit:"@,
        changes.len() > 0 ==> status_report(true, files, changes).len() == changes.len() + 1,
        forall|i: int|
            0 <= i < changes.len() ==> status_report(true, files, changes).contains(
                #[trigger] change_line(changes[i]),
            ),
{
    reveal_strlit("nothing to commit, working tree clean");
    reveal_strlit("Changes since last commit:");
    lemma_group_lines_count(changes);
    let r = status_report(true, files, changes);
    if changes.len() > 0 {
        let a = group_lines(changes, 0);
        let b = group_lines(changes, 1);
        let c = group_lines(changes, 2);
        assert(r == seq!["Changes since last commit:"@] + a + b + c);
        assert(r[0] == "Changes since last commit:"@);
        assert(r[0][0] != "nothing to commit, working tree clean"@[0]);
        assert forall|i: int| 0 <= i < changes.len() implies r.contains(
            #[trigger] change_line(changes[i]),
        ) by {
            lemma_group_lines_has(changes, i);
            let g = change_group(changes[i]);
            let s = group_lines(changes, g);
            let k = choose|k: int| 0 <= k < s.len() && s[k] == change_line(changes[i]);
            if g == 0 {
                assert(r[1 + k] == a[k]);
            } else if g == 1 {
                assert(r[1 + a.len() + k] == b[k]);
            } else {
                assert(r[1 + a.len() + b.len() + k] == c[k]);
            }
        }
    }
}

} // verus!
