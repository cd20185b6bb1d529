//! `cntl restore`: which content each named file gets back from HEAD.
use vstd::prelude::*;
use crate::object::ObjectHash;
use crate::status::{find_path, head_table, pairs_view, path_map};

verus! {

/// Why files could not be restored.
#[derive(Debug)]
pub enum RestoreError {
    /// HEAD names no commit, so there is nothing to restore from.
    NoCommits,
    /// The path is not a file that HEAD records.
    NotInHead { path: String },
}

/// Every path is a file that the HEAD files record.
pub open spec fn all_in_head(head: Map<Seq<char>, Seq<u8>>, paths: Seq<String>) -> bool {
    forall|i: int| 0 <= i < paths.len() ==> head.contains_key(#[trigger] paths[i]@)
}

/// The content that `cntl restore` writes back for each of `paths`: the
/// blob that HEAD records for it, given HEAD's files (`has_head` false when
/// there is no commit yet). The first path that HEAD does not record is
/// refused, and then nothing is restored.
pub fn restore_targets(has_head: bool, head: &Vec<(String, ObjectHash)>, paths: &Vec<String>) -> (r:
    Result<Vec<(String, ObjectHash)>, RestoreError>)
    ensures
        !has_head ==> r matches Err(RestoreError::NoCommits),
        has_head && all_in_head(path_map(pairs_view(head@)), paths@) ==> (r matches Ok(v) && pairs_view(v@)
            == paths@.map_values(|p: String| (p@, path_map(pairs_view(head@))[p@]))),
        has_head && !all_in_head(path_map(pairs_view(head@)), paths@) ==> (r matches Err(
            RestoreError::NotInHead { path },
        ) && exists|i: int|
            0 <= i < paths@.len() && paths@[i]@ == path@ && !path_map(pairs_view(head@)).contains_key(
                path@,
            ) && forall|j: int| 0 <= j < i ==> path_map(pairs_view(head@)).contains_key(#[trigger] paths@[j]@)),
{
    if !has_head {
        return Err(RestoreError::NoCommits);
    }
    let ghost m = path_map(pairs_view(head@));
    let table = head_table(head);
    let mut out: Vec<(String, ObjectHash)> = Vec::new();
    let mut i: usize = 0;
    while i < paths.len()
        invariant
            i <= paths@.len(),
            has_head,
            m == path_map(pairs_view(head@)),
            crate::status::represents(pairs_view(table@), m),
            all_in_head(m, paths@.take(i as int)),
            pairs_view(out@) == paths@.take(i as int).map_values(|p: String| (p@, m[p@])),
        decreases paths@.len() - i,
    {
        let p = &paths[i];
        match find_path(&table, p.as_str()) {
            Some(k) => {
                proof {
                    let t = pairs_view(table@);
                    assert(t[k as int] == (table@[k as int].0@, table@[k as int].1@));
                    assert(m.contains_key(t[k as int].0) && m[t[k as int].0] == t[k as int].1);
                }
                let ghost before = pairs_view(out@);
                out.push((p.clone(), table[k].1));
                assert(pairs_view(out@) =~= before.push((p@, m[p@])));
                assert(paths@.take(i + 1) =~= paths@.take(i as int).push(*p));
                assert(paths@.take(i + 1).map_values(|p: String| (p@, m[p@])) =~= paths@.take(
                    i as int,
                ).map_values(|p: String| (p@, m[p@])).push((p@, m[p@])));
                assert forall|j: int| 0 <= j < i + 1 implies m.contains_key(
                    #[trigger] paths@.take(i + 1)[j]@,
                ) by {
                    if j < i {
                        assert(paths@.take(i + 1)[j] == paths@.take(i as int)[j]);
                    }
                }
            },
            None => {
                proof {
                    if m.contains_key(p@) {
                        let t = pairs_view(table@);
                        let k = choose|k: int| 0 <= k < t.len() && t[k].0 == p@;
                        assert(table@[k].0@ != p@);
                    }
                    assert forall|j: int| 0 <= j < i implies m.contains_key(#[trigger] paths@[j]@) by {
                        assert(paths@.take(i as int)[j] == paths@[j]);
                    }
                }
                return Err(RestoreError::NotInHead { path: p.clone() });
            },
        }
        i = i + 1;
    }
    assert(paths@.take(i as int) =~= paths@);
    Ok(out)
}

} // verus!
