//! References: HEAD names a branch, and a branch names a commit.
use vstd::prelude::*;
use vstd::utf8::*;
use crate::commit::head_from_bytes;
use crate::object::{str_eq, ObjectHash};
use crate::order::{compare_bytes, TextOrder};
use crate::wire::string_from_utf8;

verus! {

/// Why HEAD could not be resolved.
#[derive(Debug)]
pub enum HeadError {
    /// The refs hold no HEAD.
    Missing,
    /// HEAD does not name a branch ref.
    NotABranch,
    /// The branch that HEAD names does not hold a 32-byte commit hash.
    BadBranchTarget,
}

/// The name of the symbolic reference to the current branch.
pub open spec fn head_ref() -> Seq<char> {
    "HEAD"@
}

/// The bytes with which every branch ref's name begins.
pub open spec fn branch_prefix() -> Seq<u8> {
    encode_utf8("refs/heads/"@)
}

/// The branch that HEAD names in a new repository.
pub open spec fn default_branch() -> Seq<char> {
    "refs/heads/main"@
}

/// The refs as names and targets.
pub open spec fn refs_view(refs: Seq<(String, Vec<u8>)>) -> Seq<(Seq<char>, Seq<u8>)> {
    refs.map_values(|r: (String, Vec<u8>)| (r.0@, r.1@))
}

/// The target of the first ref named `name`, if any.
pub open spec fn ref_target(refs: Seq<(Seq<char>, Seq<u8>)>, name: Seq<char>) -> Option<Seq<u8>>
    decreases refs.len(),
{
    if refs.len() == 0 {
        None
    } else if refs[0].0 == name {
        Some(refs[0].1)
    } else {
        ref_target(refs.drop_first(), name)
    }
}

/// A target that names a branch: UTF-8 text of `refs/heads/` and a
/// branch name after it.
pub open spec fn names_branch(target: Seq<u8>) -> bool {
    &&& valid_utf8(target)
    &&& target.len() > branch_prefix().len()
    &&& target.take(branch_prefix().len() as int) == branch_prefix()
}

/// The branch ref that HEAD names.
pub open spec fn head_branch_of(refs: Seq<(Seq<char>, Seq<u8>)>) -> Result<Seq<char>, HeadError> {
    match ref_target(refs, head_ref()) {
        None => Err(HeadError::Missing),
        Some(t) => if names_branch(t) {
            Ok(decode_utf8(t))
        } else {
            Err(HeadError::NotABranch)
        },
    }
}

/// The commit that HEAD resolves to, one hop through the branch it names:
/// none while that branch does not exist yet.
pub open spec fn head_commit_of(refs: Seq<(Seq<char>, Seq<u8>)>) -> Result<Option<Seq<u8>>, HeadError> {
    match head_branch_of(refs) {
        Err(e) => Err(e),
        Ok(b) => match ref_target(refs, b) {
            None => Ok(None),
            Some(t) => if t.len() == 32 {
                Ok(Some(t))
            } else {
                Err(HeadError::BadBranchTarget)
            },
        },
    }
}

/// The refs after `name` is set to `target`: every ref of that name takes
/// the target, or a new ref is added where there is none.
pub open spec fn set_ref(refs: Seq<(Seq<char>, Seq<u8>)>, name: Seq<char>, target: Seq<u8>) -> Seq<
    (Seq<char>, Seq<u8>),
> {
    if ref_target(refs, name) is Some {
        refs.map_values(
            |r: (Seq<char>, Seq<u8>)|
                if r.0 == name {
                    (r.0, target)
                } else {
                    r
                },
        )
    } else {
        refs.push((name, target))
    }
}

pub open spec fn branch_view(r: Result<String, HeadError>) -> Result<Seq<char>, HeadError> {
    match r {
        Ok(s) => Ok(s@),
        Err(e) => Err(e),
    }
}

pub open spec fn commit_view(r: Result<Option<ObjectHash>, HeadError>) -> Result<Option<Seq<u8>>, HeadError> {
    match r {
        Ok(Some(h)) => Ok(Some(h@)),
        Ok(None) => Ok(None),
        Err(e) => Err(e),
    }
}

/// The refs of a new repository: HEAD naming `refs/heads/main`, which
/// does not exist until the first commit.
pub fn initial_refs() -> (refs: Vec<(String, Vec<u8>)>)
    ensures
        refs_view(refs@) == seq![(head_ref(), encode_utf8(default_branch()))],
{
    let mut refs: Vec<(String, Vec<u8>)> = Vec::new();
    let target = vstd::slice::slice_to_vec("refs/heads/main".as_bytes());
    refs.push(("HEAD".to_owned(), target));
    assert(refs_view(refs@) =~= seq![(head_ref(), encode_utf8(default_branch()))]);
    refs
}

/// Index of the first ref named `name`.
fn find_ref(refs: &Vec<(String, Vec<u8>)>, name: &str) -> (r: Option<usize>)
    ensures
        match r {
            Some(i) => i < refs@.len() && ref_target(refs_view(refs@), name@) == Some(refs@[i as int].1@),
            None => ref_target(refs_view(refs@), name@) is None,
        },
{
    let ghost rv = refs_view(refs@);
    let mut i: usize = 0;
    assert(rv.skip(0) =~= rv);
    while i < refs.len()
        invariant
            i <= refs@.len(),
            rv == refs_view(refs@),
            ref_target(rv, name@) == ref_target(rv.skip(i as int), name@),
        decreases refs@.len() - i,
    {
        assert(rv.skip(i as int)[0] == rv[i as int]);
        if str_eq(refs[i].0.as_str(), name) {
            return Some(i);
        }
        assert(rv.skip(i as int).drop_first() =~= rv.skip(i + 1));
        i = i + 1;
    }
    assert(rv.skip(i as int).len() == 0);
    None
}

/// Whether a target names a branch.
fn is_branch_target(t: &[u8]) -> (r: bool)
    ensures
        r == (t@.len() > branch_prefix().len() && t@.take(branch_prefix().len() as int)
            == branch_prefix()),
{
    let p = "refs/heads/".as_bytes();
    if t.len() <= p.len() {
        return false;
    }
    let head = vstd::slice::slice_subrange(t, 0, p.len());
    assert(head@ =~= t@.take(p@.len() as int));
    compare_bytes(head, p) == TextOrder::Equal
}

/// The branch ref that HEAD names, given all refs.
pub fn head_branch(refs: &Vec<(String, Vec<u8>)>) -> (r: Result<String, HeadError>)
    ensures
        branch_view(r) == head_branch_of(refs_view(refs@)),
{
    let i = match find_ref(refs, "HEAD") {
        Some(i) => i,
        None => return Err(HeadError::Missing),
    };
    let t = &refs[i].1;
    if !is_branch_target(t.as_slice()) {
        return Err(HeadError::NotABranch);
    }
    match string_from_utf8(t.clone()) {
        Some(s) => {
            proof {
                encode_utf8_decode_utf8(s@);
            }
            Ok(s)
        },
        None => Err(HeadError::NotABranch),
    }
}

/// The commit that HEAD resolves to, given all refs: HEAD names a branch,
/// and the branch, once it exists, holds the commit's hash.
pub fn resolve_head(refs: &Vec<(String, Vec<u8>)>) -> (r: Result<Option<ObjectHash>, HeadError>)
    ensures
        commit_view(r) == head_commit_of(refs_view(refs@)),
{
    let b = head_branch(refs)?;
    match find_ref(refs, b.as_str()) {
        None => Ok(None),
        Some(j) => match head_from_bytes(refs[j].1.as_slice()) {
            Some(h) => Ok(Some(h)),
            None => Err(HeadError::BadBranchTarget),
        },
    }
}

proof fn lemma_ref_target_push(refs: Seq<(Seq<char>, Seq<u8>)>, name: Seq<char>, target: Seq<u8>, m: Seq<char>)
    requires
        ref_target(refs, name) is None,
    ensures
        ref_target(refs.push((name, target)), m) == if m == name {
            Some(target)
        } else {
            ref_target(refs, m)
        },
    decreases refs.len(),
{
    if refs.len() == 0 {
        assert(refs.push((name, target)).drop_first() =~= Seq::<(Seq<char>, Seq<u8>)>::empty());
    } else {
        assert(refs.push((name, target)).drop_first() =~= refs.drop_first().push((name, target)));
        lemma_ref_target_push(refs.drop_first(), name, target, m);
    }
}

proof fn lemma_ref_target_map_other(
    refs: Seq<(Seq<char>, Seq<u8>)>,
    name: Seq<char>,
    target: Seq<u8>,
    m: Seq<char>,
)
    requires
        m != name,
    ensures
        ref_target(
            refs.map_values(
                |r: (Seq<char>, Seq<u8>)|
                    if r.0 == name {
                        (r.0, target)
                    } else {
                        r
                    },
            ),
            m,
        ) == ref_target(refs, m),
    decreases refs.len(),
{
    let f = |r: (Seq<char>, Seq<u8>)|
        if r.0 == name {
            (r.0, target)
        } else {
            r
        };
    let s = refs.map_values(f);
    if refs.len() > 0 {
        assert(s[0] == f(refs[0]));
        assert(s.drop_first() =~= refs.drop_first().map_values(f));
        lemma_ref_target_map_other(refs.drop_first(), name, target, m);
    }
}

proof fn lemma_ref_target_replace(refs: Seq<(Seq<char>, Seq<u8>)>, name: Seq<char>, target: Seq<u8>, m: Seq<char>)
    requires
        ref_target(refs, name) is Some,
    ensures
        ref_target(set_ref(refs, name, target), m) == if m == name {
            Some(target)
        } else {
            ref_target(refs, m)
        },
    decreases refs.len(),
{
    let f = |r: (Seq<char>, Seq<u8>)|
        if r.0 == name {
            (r.0, target)
        } else {
            r
        };
    let s = refs.map_values(f);
    assert(set_ref(refs, name, target) == s);
    assert(s[0] == f(refs[0]));
    if m != name {
        lemma_ref_target_map_other(refs, name, target, m);
    } else if refs[0].0 != name {
        assert(ref_target(refs.drop_first(), name) is Some);
        assert(s.drop_first() =~= refs.drop_first().map_values(f));
        assert(set_ref(refs.drop_first(), name, target) == s.drop_first());
        lemma_ref_target_replace(refs.drop_first(), name, target, m);
    }
}

proof fn lemma_set_ref(refs: Seq<(Seq<char>, Seq<u8>)>, name: Seq<char>, target: Seq<u8>, m: Seq<char>)
    ensures
        ref_target(set_ref(refs, name, target), m) == if m == name {
            Some(target)
        } else {
            ref_target(refs, m)
        },
{
    if ref_target(refs, name) is Some {
        lemma_ref_target_replace(refs, name, target, m);
    } else {
        lemma_ref_target_push(refs, name, target, m);
    }
}

proof fn lemma_prefix_bytes()
    ensures
        branch_prefix().len() == 11,
        encode_utf8(head_ref()).len() == 4,
        encode_utf8(default_branch()).len() == 15,
        encode_utf8(default_branch()).take(11) == branch_prefix(),
{
    reveal_strlit("refs/heads/");
    reveal_strlit("HEAD");
    reveal_strlit("refs/heads/main");
    let p = "refs/heads/"@;
    let h = "HEAD"@;
    let d = "refs/heads/main"@;
    assert(is_ascii_chars(p));
    assert(is_ascii_chars(h));
    assert(is_ascii_chars(d));
    is_ascii_chars_encode_utf8(p);
    is_ascii_chars_encode_utf8(h);
    is_ascii_chars_encode_utf8(d);
    assert forall|i: int| 0 <= i < 11 implies encode_utf8(d).take(11)[i] == encode_utf8(p)[i] by {
        assert(d[i] == p[i]);
    }
    assert(encode_utf8(d).take(11) =~= encode_utf8(p));
}

/// A branch that HEAD may name is never HEAD itself.
proof fn lemma_branch_is_not_head(t: Seq<u8>)
    requires
        names_branch(t),
    ensures
        decode_utf8(t) != head_ref(),
{
    lemma_prefix_bytes();
    decode_utf8_encode_utf8(t);
}

/// Law: a new repository's HEAD names `refs/heads/main`, and resolves to
/// no commit until the first one is made.
pub proof fn new_repository_has_no_commit()
    ensures
        head_branch_of(seq![(head_ref(), encode_utf8(default_branch()))]) == Ok::<Seq<char>, HeadError>(
            default_branch(),
        ),
        head_commit_of(seq![(head_ref(), encode_utf8(default_branch()))]) == Ok::<
            Option<Seq<u8>>,
            HeadError,
        >(None),
{
    let refs = seq![(head_ref(), encode_utf8(default_branch()))];
    lemma_prefix_bytes();
    encode_utf8_decode_utf8(default_branch());
    encode_utf8_valid_utf8(default_branch());
    assert(refs.drop_first().len() == 0);
    assert(ref_target(refs, head_ref()) == Some(encode_utf8(default_branch())));
    assert(names_branch(encode_utf8(default_branch())));
    lemma_branch_is_not_head(encode_utf8(default_branch()));
    assert(ref_target(refs.drop_first(), default_branch()) is None);
}

/// Law: a commit sets the branch that HEAD names to the new commit's hash
/// and leaves HEAD as it is; HEAD then still names that branch and
/// resolves to the new commit.
pub proof fn commit_moves_head_branch(refs: Seq<(Seq<char>, Seq<u8>)>, hash: Seq<u8>)
    requires
        head_branch_of(refs) is Ok,
        hash.len() == 32,
    ensures
        head_branch_of(set_ref(refs, head_branch_of(refs)->Ok_0, hash)) == head_branch_of(refs),
        head_commit_of(set_ref(refs, head_branch_of(refs)->Ok_0, hash)) == Ok::<
            Option<Seq<u8>>,
            HeadError,
        >(Some(hash)),
{
    let b = head_branch_of(refs)->Ok_0;
    let t = ref_target(refs, head_ref())->0;
    lemma_branch_is_not_head(t);
    lemma_set_ref(refs, b, hash, head_ref());
    lemma_set_ref(refs, b, hash, b);
}

} // verus!
