//! The byte format of stored objects. Every object is written field by field
//! in declaration order: unsigned integers and lengths as LEB128 varints,
//! signed integers zig-zag mapped first, raw bytes (`u8`, hash arrays) as
//! themselves, text and byte vectors as a length followed by their bytes,
//! `Option` as a tag byte, and enum variants by their index.
use vstd::prelude::*;
use vstd::utf8::*;
use crate::object::{opt_hash_view, ObjectError, ObjectHash, Blob, Commit, CommitView, Tree, TreeEntry, TreeEntryKind, TreeEntryView};

verus! {

// ---------------------------------------------------------------------
// Encoding, as mathematical functions
// ---------------------------------------------------------------------

/// LEB128 varint: seven bits per byte, least significant group first, high
/// bit set on every byte but the last.
pub open spec fn varint(n: nat) -> Seq<u8>
    decreases n,
{
    if n < 128 {
        seq![n as u8]
    } else {
        seq![(n % 128 + 128) as u8] + varint(n / 128)
    }
}

/// Zig-zag mapping of a signed integer onto the naturals.
pub open spec fn zigzag(v: int) -> nat {
    if v >= 0 {
        (2 * v) as nat
    } else {
        (-2 * v - 1) as nat
    }
}

/// Inverse of the zig-zag mapping.
pub open spec fn unzigzag(z: nat) -> int {
    if z % 2 == 0 {
        (z / 2) as int
    } else {
        -((z / 2) as int) - 1
    }
}

/// A byte vector: its length, then its bytes.
pub open spec fn bytes_field(b: Seq<u8>) -> Seq<u8> {
    varint(b.len()) + b
}

/// A string: the length of its UTF-8 encoding, then that encoding.
pub open spec fn text_field(c: Seq<char>) -> Seq<u8> {
    bytes_field(encode_utf8(c))
}

/// Variant index of a tree entry kind.
pub open spec fn kind_index(k: TreeEntryKind) -> nat {
    match k {
        TreeEntryKind::Blob => 0,
        TreeEntryKind::Tree => 1,
    }
}

pub open spec fn entry_bytes(e: TreeEntryView) -> Seq<u8> {
    text_field(e.name) + varint(kind_index(e.kind)) + e.hash
}

/// The entries of a tree, one after another.
pub open spec fn entries_bytes(es: Seq<TreeEntryView>) -> Seq<u8>
    decreases es.len(),
{
    if es.len() == 0 {
        Seq::empty()
    } else {
        entries_bytes(es.drop_last()) + entry_bytes(es.last())
    }
}

/// Encoded form of a blob with the given content.
pub open spec fn blob_bytes(data: Seq<u8>) -> Seq<u8> {
    bytes_field(data)
}

/// Encoded form of a tree with the given entries.
pub open spec fn tree_bytes(es: Seq<TreeEntryView>) -> Seq<u8> {
    varint(es.len()) + entries_bytes(es)
}

pub open spec fn opt_hash_bytes(p: Option<Seq<u8>>) -> Seq<u8> {
    match p {
        None => seq![0u8],
        Some(h) => seq![1u8] + h,
    }
}

/// Encoded form of a commit.
pub open spec fn commit_bytes(c: CommitView) -> Seq<u8> {
    opt_hash_bytes(c.parent) + c.tree + text_field(c.author_name) + text_field(c.author_email)
        + varint(zigzag(c.timestamp_utc as int)) + text_field(c.message)
}

// ---------------------------------------------------------------------
// Encoding, executable
// ---------------------------------------------------------------------

fn push_varint(out: &mut Vec<u8>, n: u64)
    ensures
        final(out)@ == old(out)@ + varint(n as nat),
    decreases n,
{
    if n < 128 {
        out.push(n as u8);
        assert(final(out)@ =~= old(out)@ + varint(n as nat));
    } else {
        out.push((n % 128 + 128) as u8);
        push_varint(out, n / 128);
        assert(final(out)@ =~= old(out)@ + varint(n as nat));
    }
}

fn push_bytes(out: &mut Vec<u8>, b: &[u8])
    ensures
        final(out)@ == old(out)@ + b@,
{
    let mut i: usize = 0;
    while i < b.len()
        invariant
            i <= b@.len(),
            out@ == old(out)@ + b@.take(i as int),
        decreases b@.len() - i,
    {
        out.push(b[i]);
        i = i + 1;
        assert(out@ =~= old(out)@ + b@.take(i as int));
    }
    assert(b@.take(i as int) =~= b@);
}

fn push_bytes_field(out: &mut Vec<u8>, b: &[u8])
    ensures
        final(out)@ == old(out)@ + bytes_field(b@),
{
    push_varint(out, b.len() as u64);
    push_bytes(out, b);
    assert(final(out)@ =~= old(out)@ + bytes_field(b@));
}

fn push_text_field(out: &mut Vec<u8>, s: &String)
    ensures
        final(out)@ == old(out)@ + text_field(s@),
{
    let b = s.as_str().as_bytes();
    push_bytes_field(out, b);
}

fn push_entry(out: &mut Vec<u8>, e: &TreeEntry)
    ensures
        final(out)@ == old(out)@ + entry_bytes(e@),
{
    push_text_field(out, &e.name);
    match e.kind {
        TreeEntryKind::Blob => push_varint(out, 0),
        TreeEntryKind::Tree => push_varint(out, 1),
    }
    push_bytes(out, e.hash.as_slice());
    assert(final(out)@ =~= old(out)@ + entry_bytes(e@));
}

/// Encodes a blob holding `data`.
pub fn encode_blob(b: &Blob) -> (out: Vec<u8>)
    ensures
        out@ == blob_bytes(b@),
{
    encode_blob_data(b.data.as_slice())
}

/// Encodes the blob that holds the given bytes.
pub fn encode_blob_data(data: &[u8]) -> (out: Vec<u8>)
    ensures
        out@ == blob_bytes(data@),
{
    let mut out = Vec::new();
    push_bytes_field(&mut out, data);
    assert(out@ =~= blob_bytes(data@));
    out
}

/// Encodes a tree.
pub fn encode_tree(t: &Tree) -> (out: Vec<u8>)
    ensures
        out@ == tree_bytes(t@),
{
    let mut out = Vec::new();
    push_varint(&mut out, t.entries.len() as u64);
    let ghost head = out@;
    let mut i: usize = 0;
    while i < t.entries.len()
        invariant
            i <= t.entries@.len(),
            head == varint(t.entries@.len() as nat),
            out@ == head + entries_bytes(t@.take(i as int)),
        decreases t.entries@.len() - i,
    {
        push_entry(&mut out, &t.entries[i]);
        assert(t@.take(i + 1).drop_last() =~= t@.take(i as int));
        i = i + 1;
        assert(out@ =~= head + entries_bytes(t@.take(i as int)));
    }
    assert(t@.take(i as int) =~= t@);
    out
}

/// Encodes a commit.
pub fn encode_commit(c: &Commit) -> (out: Vec<u8>)
    ensures
        out@ == commit_bytes(c@),
{
    let mut out = Vec::new();
    match &c.parent {
        None => out.push(0u8),
        Some(h) => {
            out.push(1u8);
            push_bytes(&mut out, h.as_slice());
        },
    }
    push_bytes(&mut out, c.tree.as_slice());
    push_text_field(&mut out, &c.author_name);
    push_text_field(&mut out, &c.author_email);
    push_varint(&mut out, zigzag_i64(c.timestamp_utc));
    push_text_field(&mut out, &c.message);
    assert(out@ =~= commit_bytes(c@));
    out
}

fn zigzag_i64(v: i64) -> (z: u64)
    ensures
        z as nat == zigzag(v as int),
{
    if v >= 0 {
        (v as u64) * 2
    } else {
        let m: i64 = -(v + 1);
        (m as u64) * 2 + 1
    }
}


// ---------------------------------------------------------------------
// Decoding, as mathematical functions. Each parser looks at the front of
// its input and yields the value read and the number of bytes it used;
// bytes after those are left alone.
// ---------------------------------------------------------------------

/// A varint of at most `k` bytes whose last byte, when it is the `k`-th,
/// is at most `last_max`.
pub open spec fn parse_varint(s: Seq<u8>, k: nat, last_max: u8) -> Option<(nat, nat)>
    decreases k,
{
    if k == 0 || s.len() == 0 {
        None
    } else if s[0] < 128 {
        if k == 1 && s[0] > last_max {
            None
        } else {
            Some((s[0] as nat, 1))
        }
    } else {
        match parse_varint(s.drop_first(), (k - 1) as nat, last_max) {
            Some((v, n)) => Some((((s[0] - 128) + 128 * v) as nat, n + 1)),
            None => None,
        }
    }
}

/// A 64-bit varint: at most ten bytes, the tenth at most 1.
pub open spec fn parse_u64(s: Seq<u8>) -> Option<(nat, nat)> {
    parse_varint(s, 10, 1)
}

/// A 32-bit varint: at most five bytes, the fifth at most 15.
pub open spec fn parse_u32(s: Seq<u8>) -> Option<(nat, nat)> {
    parse_varint(s, 5, 15)
}

pub open spec fn parse_bytes_field(s: Seq<u8>) -> Option<(Seq<u8>, nat)> {
    match parse_u64(s) {
        Some((n, k)) => if k + n <= s.len() {
            Some((s.subrange(k as int, (k + n) as int), k + n))
        } else {
            None
        },
        None => None,
    }
}

pub open spec fn parse_text_field(s: Seq<u8>) -> Option<(Seq<char>, nat)> {
    match parse_bytes_field(s) {
        Some((b, k)) => if valid_utf8(b) {
            Some((decode_utf8(b), k))
        } else {
            None
        },
        None => None,
    }
}

pub open spec fn parse_hash(s: Seq<u8>) -> Option<(Seq<u8>, nat)> {
    if s.len() >= 32 {
        Some((s.take(32), 32))
    } else {
        None
    }
}

pub open spec fn parse_kind(s: Seq<u8>) -> Option<(TreeEntryKind, nat)> {
    match parse_u32(s) {
        Some((i, k)) => if i == 0 {
            Some((TreeEntryKind::Blob, k))
        } else if i == 1 {
            Some((TreeEntryKind::Tree, k))
        } else {
            None
        },
        None => None,
    }
}

pub open spec fn parse_entry(s: Seq<u8>) -> Option<(TreeEntryView, nat)> {
    match parse_text_field(s) {
        Some((name, k1)) => match parse_kind(s.skip(k1 as int)) {
            Some((kind, k2)) => match parse_hash(s.skip((k1 + k2) as int)) {
                Some((hash, k3)) => Some(
                    (TreeEntryView { name, kind, hash }, k1 + k2 + k3),
                ),
                None => None,
            },
            None => None,
        },
        None => None,
    }
}

/// `count` tree entries, one after another.
pub open spec fn parse_entries(s: Seq<u8>, count: nat) -> Option<(Seq<TreeEntryView>, nat)>
    decreases count,
{
    if count == 0 {
        Some((Seq::empty(), 0))
    } else {
        match parse_entries(s, (count - 1) as nat) {
            Some((es, k1)) => match parse_entry(s.skip(k1 as int)) {
                Some((e, k2)) => Some((es.push(e), k1 + k2)),
                None => None,
            },
            None => None,
        }
    }
}

pub open spec fn parse_blob(s: Seq<u8>) -> Option<(Seq<u8>, nat)> {
    parse_bytes_field(s)
}

pub open spec fn parse_tree(s: Seq<u8>) -> Option<(Seq<TreeEntryView>, nat)> {
    match parse_u64(s) {
        Some((n, k1)) => match parse_entries(s.skip(k1 as int), n) {
            Some((es, k2)) => Some((es, k1 + k2)),
            None => None,
        },
        None => None,
    }
}

pub open spec fn parse_opt_hash(s: Seq<u8>) -> Option<(Option<Seq<u8>>, nat)> {
    if s.len() == 0 {
        None
    } else if s[0] == 0 {
        Some((None, 1))
    } else if s[0] == 1 {
        match parse_hash(s.skip(1)) {
            Some((h, k)) => Some((Some(h), k + 1)),
            None => None,
        }
    } else {
        None
    }
}

pub open spec fn parse_i64(s: Seq<u8>) -> Option<(i64, nat)> {
    match parse_u64(s) {
        Some((z, k)) => Some((unzigzag(z) as i64, k)),
        None => None,
    }
}

pub open spec fn parse_commit(s: Seq<u8>) -> Option<(CommitView, nat)> {
    match parse_opt_hash(s) {
        Some((parent, k1)) => match parse_hash(s.skip(k1 as int)) {
            Some((tree, k2)) => match parse_text_field(s.skip((k1 + k2) as int)) {
                Some((author_name, k3)) => match parse_text_field(s.skip((k1 + k2 + k3) as int)) {
                    Some((author_email, k4)) => match parse_i64(
                        s.skip((k1 + k2 + k3 + k4) as int),
                    ) {
                        Some((timestamp_utc, k5)) => match parse_text_field(
                            s.skip((k1 + k2 + k3 + k4 + k5) as int),
                        ) {
                            Some((message, k6)) => Some(
                                (
                                    CommitView {
                                        parent,
                                        tree,
                                        author_name,
                                        author_email,
                                        timestamp_utc,
                                        message,
                                    },
                                    k1 + k2 + k3 + k4 + k5 + k6,
                                ),
                            ),
                            None => None,
                        },
                        None => None,
                    },
                    None => None,
                },
                None => None,
            },
            None => None,
        },
        None => None,
    }
}


// ---------------------------------------------------------------------
// Decoding, executable
// ---------------------------------------------------------------------

pub open spec fn pow128(k: nat) -> nat
    decreases k,
{
    if k == 0 {
        1
    } else {
        128 * pow128((k - 1) as nat)
    }
}

/// Every value a `k`-byte varint with last byte at most `last_max` can hold
/// lies below this bound.
pub open spec fn varint_bound(k: nat, last_max: u8) -> nat {
    pow128((k - 1) as nat) * (last_max + 1) as nat
}

proof fn lemma_pow128_grows(k: nat)
    ensures
        pow128(k) >= 1,
        k >= 1 ==> pow128(k) >= 128,
    decreases k,
{
    if k > 0 {
        lemma_pow128_grows((k - 1) as nat);
    }
}

proof fn lemma_varint_bound(k: nat, last_max: u8)
    requires
        k >= 1,
    ensures
        varint_bound(k, last_max) >= last_max + 1,
        k == 1 ==> varint_bound(k, last_max) == last_max + 1,
        k >= 2 ==> varint_bound(k, last_max) == 128 * varint_bound((k - 1) as nat, last_max),
{
    let l = (last_max + 1) as nat;
    lemma_pow128_grows((k - 1) as nat);
    let p = pow128((k - 1) as nat);
    assert(p * l >= l) by (nonlinear_arith)
        requires
            p >= 1,
    ;
    if k == 1 {
        assert(p == 1);
        assert(p * l == l) by (nonlinear_arith)
            requires
                p == 1,
        ;
    } else {
        let q = pow128((k - 2) as nat);
        assert(p == 128 * q);
        assert(p * l == 128 * (q * l)) by (nonlinear_arith)
            requires
                p == 128 * q,
        ;
    }
}

proof fn lemma_parse_varint_bound(s: Seq<u8>, k: nat, last_max: u8)
    requires
        last_max < 128,
    ensures
        parse_varint(s, k, last_max) matches Some((v, n)) ==> 1 <= n <= k && n <= s.len() && v
            < varint_bound(k, last_max),
    decreases k,
{
    if k == 0 || s.len() == 0 {
    } else if s[0] < 128 {
        lemma_varint_bound(k, last_max);
        if k > 1 {
            lemma_varint_bound((k - 1) as nat, last_max);
        }
    } else {
        lemma_parse_varint_bound(s.drop_first(), (k - 1) as nat, last_max);
        if let Some((v2, n2)) = parse_varint(s.drop_first(), (k - 1) as nat, last_max) {
            lemma_varint_bound(k, last_max);
            let b = s[0] - 128;
            assert(b + 128 * v2 < 128 * varint_bound((k - 1) as nat, last_max));
        }
    }
}

fn read_varint(s: &[u8], pos: usize, k: u64, last_max: u8) -> (r: Option<(u64, usize)>)
    requires
        pos <= s@.len(),
        1 <= k <= 10,
        last_max < 128,
        varint_bound(k as nat, last_max) <= 0x1_0000_0000_0000_0000,
    ensures
        match r {
            Some((v, n)) => parse_varint(s@.skip(pos as int), k as nat, last_max) == Some(
                (v as nat, n as nat),
            ),
            None => parse_varint(s@.skip(pos as int), k as nat, last_max) is None,
        },
    decreases k,
{
    if pos >= s.len() {
        return None;
    }
    let b = s[pos];
    assert(s@.skip(pos as int)[0] == b);
    if b < 128 {
        if k == 1 && b > last_max {
            None
        } else {
            assert(parse_varint(s@.skip(pos as int), k as nat, last_max) == Some(
                (b as nat, 1nat),
            ));
            Some((b as u64, 1))
        }
    } else if k == 1 {
        None
    } else {
        proof {
            lemma_varint_bound(k as nat, last_max);
            lemma_varint_bound((k - 1) as nat, last_max);
            assert(s@.skip(pos as int).drop_first() =~= s@.skip(pos + 1));
        }
        match read_varint(s, pos + 1, k - 1, last_max) {
            None => None,
            Some((v, n)) => {
                proof {
                    lemma_parse_varint_bound(s@.skip(pos + 1), (k - 1) as nat, last_max);
                }
                let r = (b - 128) as u64 + 128 * v;
                assert(parse_varint(s@.skip(pos as int), k as nat, last_max) == Some(
                    (r as nat, (n + 1) as nat),
                ));
                Some((r, n + 1))
            },
        }
    }
}

fn read_u64(s: &[u8], pos: usize) -> (r: Option<(u64, usize)>)
    requires
        pos <= s@.len(),
    ensures
        match r {
            Some((v, n)) => parse_u64(s@.skip(pos as int)) == Some((v as nat, n as nat)),
            None => parse_u64(s@.skip(pos as int)) is None,
        },
{
    proof {
        reveal_with_fuel(pow128, 10);
        assert(pow128(9) == 0x8000_0000_0000_0000);
        assert(varint_bound(10, 1) == pow128(9) * 2);
        assert(varint_bound(10, 1) == 0x1_0000_0000_0000_0000);
    }
    read_varint(s, pos, 10, 1)
}

fn read_u32(s: &[u8], pos: usize) -> (r: Option<(u64, usize)>)
    requires
        pos <= s@.len(),
    ensures
        match r {
            Some((v, n)) => parse_u32(s@.skip(pos as int)) == Some((v as nat, n as nat)),
            None => parse_u32(s@.skip(pos as int)) is None,
        },
{
    proof {
        reveal_with_fuel(pow128, 5);
        assert(pow128(4) == 0x1000_0000);
        assert(varint_bound(5, 15) == pow128(4) * 16);
        assert(varint_bound(5, 15) == 0x1_0000_0000);
    }
    read_varint(s, pos, 5, 15)
}

/// Makes a `String` of UTF-8 bytes with `String::from_utf8`, which accepts
/// exactly the valid UTF-8 byte strings and keeps their bytes unchanged.
#[verifier::external_body]
pub(crate) fn string_from_utf8(bytes: Vec<u8>) -> (r: Option<String>)
    ensures
        r is Some <==> valid_utf8(bytes@),
        r matches Some(s) ==> encode_utf8(s@) == bytes@,
{
    String::from_utf8(bytes).ok()
}

fn read_bytes_field(s: &[u8], pos: usize) -> (r: Option<(Vec<u8>, usize)>)
    requires
        pos <= s@.len(),
    ensures
        match r {
            Some((b, n)) => parse_bytes_field(s@.skip(pos as int)) == Some((b@, n as nat)),
            None => parse_bytes_field(s@.skip(pos as int)) is None,
        },
{
    match read_u64(s, pos) {
        None => None,
        Some((n, k)) => {
            proof {
                lemma_parse_varint_bound(s@.skip(pos as int), 10, 1);
            }
            let avail = s.len() - pos - k;
            if n > avail as u64 {
                None
            } else {
                let start = pos + k;
                let end = start + n as usize;
                let b = vstd::slice::slice_to_vec(vstd::slice::slice_subrange(s, start, end));
                assert(b@ =~= s@.skip(pos as int).subrange(k as int, (k + n) as int));
                Some((b, k + n as usize))
            }
        },
    }
}

fn read_text_field(s: &[u8], pos: usize) -> (r: Option<(String, usize)>)
    requires
        pos <= s@.len(),
    ensures
        match r {
            Some((t, n)) => parse_text_field(s@.skip(pos as int)) == Some((t@, n as nat)),
            None => parse_text_field(s@.skip(pos as int)) is None,
        },
{
    match read_bytes_field(s, pos) {
        None => None,
        Some((b, n)) => {
            match string_from_utf8(b) {
                None => None,
                Some(t) => {
                    proof {
                        encode_utf8_decode_utf8(t@);
                    }
                    Some((t, n))
                },
            }
        },
    }
}

fn read_hash(s: &[u8], pos: usize) -> (r: Option<(ObjectHash, usize)>)
    requires
        pos <= s@.len(),
    ensures
        match r {
            Some((h, n)) => parse_hash(s@.skip(pos as int)) == Some((h@, n as nat)),
            None => parse_hash(s@.skip(pos as int)) is None,
        },
{
    if s.len() - pos < 32 {
        return None;
    }
    let mut h: ObjectHash = [0u8; 32];
    let mut i: usize = 0;
    while i < 32
        invariant
            i <= 32,
            pos + 32 <= s.len(),
            h@.len() == 32,
            forall|j: int| 0 <= j < i ==> h@[j] == s@[pos + j],
        decreases 32 - i,
    {
        h[i] = s[pos + i];
        i = i + 1;
    }
    assert(h@ =~= s@.skip(pos as int).take(32));
    Some((h, 32))
}

fn read_kind(s: &[u8], pos: usize) -> (r: Option<(TreeEntryKind, usize)>)
    requires
        pos <= s@.len(),
    ensures
        match r {
            Some((kind, n)) => parse_kind(s@.skip(pos as int)) == Some((kind, n as nat)),
            None => parse_kind(s@.skip(pos as int)) is None,
        },
{
    match read_u32(s, pos) {
        None => None,
        Some((i, n)) => if i == 0 {
            Some((TreeEntryKind::Blob, n))
        } else if i == 1 {
            Some((TreeEntryKind::Tree, n))
        } else {
            None
        },
    }
}

proof fn lemma_skip_skip(s: Seq<u8>, a: int, b: int)
    requires
        0 <= a,
        0 <= b,
        a + b <= s.len(),
    ensures
        s.skip(a).skip(b) == s.skip(a + b),
{
    assert(s.skip(a).skip(b) =~= s.skip(a + b));
}

proof fn lemma_parse_lengths(s: Seq<u8>)
    ensures
        parse_u64(s) matches Some((v, n)) ==> n <= s.len(),
        parse_u32(s) matches Some((v, n)) ==> n <= s.len(),
        parse_bytes_field(s) matches Some((v, n)) ==> n <= s.len(),
        parse_text_field(s) matches Some((v, n)) ==> n <= s.len(),
        parse_kind(s) matches Some((v, n)) ==> n <= s.len(),
        parse_hash(s) matches Some((v, n)) ==> n <= s.len(),
{
    lemma_parse_varint_bound(s, 10, 1);
    lemma_parse_varint_bound(s, 5, 15);
}

fn read_entry(s: &[u8], pos: usize) -> (r: Option<(TreeEntry, usize)>)
    requires
        pos <= s@.len(),
    ensures
        match r {
            Some((e, n)) => parse_entry(s@.skip(pos as int)) == Some((e@, n as nat)) && pos + n
                <= s@.len(),
            None => parse_entry(s@.skip(pos as int)) is None,
        },
{
    let ghost t = s@.skip(pos as int);
    let slen = s.len();
    proof {
        lemma_parse_lengths(t);
    }
    let (name, k1) = match read_text_field(s, pos) {
        None => return None,
        Some(x) => x,
    };
    proof {
        lemma_skip_skip(s@, pos as int, k1 as int);
        lemma_parse_lengths(t.skip(k1 as int));
    }
    let (kind, k2) = match read_kind(s, pos + k1) {
        None => return None,
        Some(x) => x,
    };
    proof {
        lemma_skip_skip(s@, pos as int, (k1 + k2) as int);
        lemma_skip_skip(s@, (pos + k1) as int, k2 as int);
        lemma_parse_lengths(t.skip((k1 + k2) as int));
    }
    let (hash, k3) = match read_hash(s, pos + k1 + k2) {
        None => return None,
        Some(x) => x,
    };
    Some((TreeEntry { name, kind, hash }, k1 + k2 + k3))
}

proof fn lemma_parse_entry_length(s: Seq<u8>)
    ensures
        parse_entry(s) matches Some((e, n)) ==> 1 <= n <= s.len(),
{
    lemma_parse_lengths(s);
    if let Some((name, k1)) = parse_text_field(s) {
        lemma_parse_lengths(s.skip(k1 as int));
        if let Some((kind, k2)) = parse_kind(s.skip(k1 as int)) {
            lemma_parse_lengths(s.skip((k1 + k2) as int));
        }
    }
}

fn read_entries(s: &[u8], pos: usize, count: u64) -> (r: Option<(Vec<TreeEntry>, usize)>)
    requires
        pos <= s@.len(),
    ensures
        match r {
            Some((es, n)) => parse_entries(s@.skip(pos as int), count as nat) == Some(
                (es@.map_values(|e: TreeEntry| e@), n as nat),
            ) && pos + n <= s@.len(),
            None => parse_entries(s@.skip(pos as int), count as nat) is None,
        },
{
    let ghost t = s@.skip(pos as int);
    let mut es: Vec<TreeEntry> = Vec::new();
    let mut used: usize = 0;
    let mut i: u64 = 0;
    while i < count
        invariant
            i <= count,
            pos <= s@.len(),
            t == s@.skip(pos as int),
            pos + used <= s.len(),
            parse_entries(t, i as nat) == Some((es@.map_values(|e: TreeEntry| e@), used as nat)),
        decreases count - i,
    {
        proof {
            lemma_skip_skip(s@, pos as int, used as int);
        }
        match read_entry(s, pos + used) {
            None => {
                assert(parse_entries(t, (i + 1) as nat) is None);
                proof {
                    lemma_parse_entries_none_grows(t, (i + 1) as nat, count as nat);
                }
                return None;
            },
            Some((e, n)) => {
                let ghost prev = es@.map_values(|e: TreeEntry| e@);
                es.push(e);
                used = used + n;
                i = i + 1;
                assert(es@.map_values(|e: TreeEntry| e@) =~= prev.push(e@));
            },
        }
    }
    Some((es, used))
}

proof fn lemma_parse_entries_none_grows(s: Seq<u8>, i: nat, count: nat)
    requires
        parse_entries(s, i) is None,
        i <= count,
    ensures
        parse_entries(s, count) is None,
    decreases count - i,
{
    if i < count {
        lemma_parse_entries_none_grows(s, i + 1, count);
    }
}


proof fn lemma_parse_entries_length(s: Seq<u8>, count: nat)
    ensures
        parse_entries(s, count) matches Some((es, n)) ==> n <= s.len(),
    decreases count,
{
    if count > 0 {
        lemma_parse_entries_length(s, (count - 1) as nat);
        if let Some((es, k1)) = parse_entries(s, (count - 1) as nat) {
            lemma_parse_entry_length(s.skip(k1 as int));
        }
    }
}

/// Reads a blob from the front of `bytes`.
pub fn decode_blob(bytes: &[u8]) -> (r: Result<Blob, ObjectError>)
    ensures
        match parse_blob(bytes@) {
            Some((v, _)) => r matches Ok(b) && b@ == v,
            None => r matches Err(ObjectError::Decode),
        },
{
    assert(bytes@.skip(0) =~= bytes@);
    match read_bytes_field(bytes, 0) {
        Some((data, _)) => Ok(Blob { data }),
        None => Err(ObjectError::Decode),
    }
}

/// Reads a tree from the front of `bytes`.
pub fn decode_tree(bytes: &[u8]) -> (r: Result<Tree, ObjectError>)
    ensures
        match parse_tree(bytes@) {
            Some((v, _)) => r matches Ok(t) && t@ == v,
            None => r matches Err(ObjectError::Decode),
        },
{
    assert(bytes@.skip(0) =~= bytes@);
    proof {
        lemma_parse_lengths(bytes@);
    }
    match read_u64(bytes, 0) {
        None => Err(ObjectError::Decode),
        Some((n, k)) => match read_entries(bytes, k, n) {
            None => Err(ObjectError::Decode),
            Some((entries, _)) => Ok(Tree { entries }),
        },
    }
}

fn read_opt_hash(s: &[u8], pos: usize) -> (r: Option<(Option<ObjectHash>, usize)>)
    requires
        pos <= s@.len(),
    ensures
        match r {
            Some((h, n)) => parse_opt_hash(s@.skip(pos as int)) == Some((opt_hash_view(h), n as nat)),
            None => parse_opt_hash(s@.skip(pos as int)) is None,
        },
{
    if pos >= s.len() {
        return None;
    }
    let tag = s[pos];
    assert(s@.skip(pos as int)[0] == tag);
    if tag == 0 {
        Some((None, 1))
    } else if tag == 1 {
        proof {
            lemma_skip_skip(s@, pos as int, 1);
        }
        match read_hash(s, pos + 1) {
            None => None,
            Some((h, n)) => Some((Some(h), n + 1)),
        }
    } else {
        None
    }
}

fn unzigzag_u64(z: u64) -> (v: i64)
    ensures
        v as int == unzigzag(z as nat),
{
    if z % 2 == 0 {
        (z / 2) as i64
    } else {
        -((z / 2) as i64) - 1
    }
}

fn read_i64(s: &[u8], pos: usize) -> (r: Option<(i64, usize)>)
    requires
        pos <= s@.len(),
    ensures
        match r {
            Some((v, n)) => parse_i64(s@.skip(pos as int)) == Some((v, n as nat)),
            None => parse_i64(s@.skip(pos as int)) is None,
        },
{
    match read_u64(s, pos) {
        None => None,
        Some((z, n)) => Some((unzigzag_u64(z), n)),
    }
}

/// Reads a commit from the front of `bytes`.
pub fn decode_commit(bytes: &[u8]) -> (r: Result<Commit, ObjectError>)
    ensures
        match parse_commit(bytes@) {
            Some((v, _)) => r matches Ok(c) && c@ == v,
            None => r matches Err(ObjectError::Decode),
        },
{
    let s = bytes;
    let slen = s.len();
    assert(s@.skip(0) =~= s@);
    let ghost t = s@;
    let (parent, k1) = match read_opt_hash(s, 0) {
        None => return Err(ObjectError::Decode),
        Some(x) => x,
    };
    proof {
        if t.len() > 0 && t[0] == 1 {
            lemma_parse_lengths(t.skip(1));
        }
        lemma_parse_lengths(t.skip(k1 as int));
    }
    let (tree, k2) = match read_hash(s, k1) {
        None => return Err(ObjectError::Decode),
        Some(x) => x,
    };
    let p3 = k1 + k2;
    proof {
        lemma_skip_skip(t, k1 as int, k2 as int);
        lemma_parse_lengths(t.skip(p3 as int));
    }
    let (author_name, k3) = match read_text_field(s, p3) {
        None => return Err(ObjectError::Decode),
        Some(x) => x,
    };
    let p4 = p3 + k3;
    proof {
        lemma_skip_skip(t, p3 as int, k3 as int);
        lemma_parse_lengths(t.skip(p4 as int));
    }
    let (author_email, k4) = match read_text_field(s, p4) {
        None => return Err(ObjectError::Decode),
        Some(x) => x,
    };
    let p5 = p4 + k4;
    proof {
        lemma_skip_skip(t, p4 as int, k4 as int);
        lemma_parse_lengths(t.skip(p5 as int));
    }
    let (timestamp_utc, k5) = match read_i64(s, p5) {
        None => return Err(ObjectError::Decode),
        Some(x) => x,
    };
    let p6 = p5 + k5;
    proof {
        lemma_skip_skip(t, p5 as int, k5 as int);
        lemma_parse_lengths(t.skip(p6 as int));
    }
    let (message, k6) = match read_text_field(s, p6) {
        None => return Err(ObjectError::Decode),
        Some(x) => x,
    };
    proof {
        lemma_skip_skip(t, p6 as int, k6 as int);
    }
    Ok(Commit { parent, tree, author_name, author_email, timestamp_utc, message })
}


// ---------------------------------------------------------------------
// Reading back what was written
// ---------------------------------------------------------------------

/// A tree entry that an encoder can write: a 32-byte hash and a name whose
/// UTF-8 length fits in 64 bits.
pub open spec fn wf_entry(e: TreeEntryView) -> bool {
    &&& e.hash.len() == 32
    &&& encode_utf8(e.name).len() < 0x1_0000_0000_0000_0000
}

pub open spec fn wf_tree(es: Seq<TreeEntryView>) -> bool {
    &&& es.len() < 0x1_0000_0000_0000_0000
    &&& forall|i: int| 0 <= i < es.len() ==> wf_entry(#[trigger] es[i])
}

pub open spec fn wf_commit(c: CommitView) -> bool {
    &&& (c.parent matches Some(h) ==> h.len() == 32)
    &&& c.tree.len() == 32
    &&& encode_utf8(c.author_name).len() < 0x1_0000_0000_0000_0000
    &&& encode_utf8(c.author_email).len() < 0x1_0000_0000_0000_0000
    &&& encode_utf8(c.message).len() < 0x1_0000_0000_0000_0000
}

proof fn lemma_varint_roundtrip(n: nat, rest: Seq<u8>, k: nat, last_max: u8)
    requires
        1 <= k,
        last_max < 128,
        n < varint_bound(k, last_max),
    ensures
        parse_varint(varint(n) + rest, k, last_max) == Some((n, varint(n).len())),
    decreases n,
{
    let s = varint(n) + rest;
    lemma_varint_bound(k, last_max);
    if n < 128 {
        assert(s[0] == n as u8);
    } else {
        lemma_varint_roundtrip(n / 128, rest, (k - 1) as nat, last_max);
        assert(s[0] == (n % 128 + 128) as u8);
        assert(s.drop_first() =~= varint(n / 128) + rest);
    }
}

proof fn lemma_u64_roundtrip(n: nat, rest: Seq<u8>)
    requires
        n < 0x1_0000_0000_0000_0000,
    ensures
        parse_u64(varint(n) + rest) == Some((n, varint(n).len())),
{
    reveal_with_fuel(pow128, 10);
    assert(varint_bound(10, 1) == pow128(9) * 2);
    lemma_varint_roundtrip(n, rest, 10, 1);
}

proof fn lemma_bytes_field_roundtrip(b: Seq<u8>, rest: Seq<u8>)
    requires
        b.len() < 0x1_0000_0000_0000_0000,
    ensures
        parse_bytes_field(bytes_field(b) + rest) == Some((b, bytes_field(b).len())),
{
    let s = bytes_field(b) + rest;
    assert(s =~= varint(b.len()) + (b + rest));
    lemma_u64_roundtrip(b.len(), b + rest);
    let k = varint(b.len()).len();
    assert(s.subrange(k as int, (k + b.len()) as int) =~= b);
}

proof fn lemma_text_field_roundtrip(c: Seq<char>, rest: Seq<u8>)
    requires
        encode_utf8(c).len() < 0x1_0000_0000_0000_0000,
    ensures
        parse_text_field(text_field(c) + rest) == Some((c, text_field(c).len())),
{
    lemma_bytes_field_roundtrip(encode_utf8(c), rest);
    encode_utf8_valid_utf8(c);
    encode_utf8_decode_utf8(c);
}

proof fn lemma_hash_roundtrip(h: Seq<u8>, rest: Seq<u8>)
    requires
        h.len() == 32,
    ensures
        parse_hash(h + rest) == Some((h, 32nat)),
{
    assert((h + rest).take(32) =~= h);
}

proof fn lemma_entry_roundtrip(e: TreeEntryView, rest: Seq<u8>)
    requires
        wf_entry(e),
    ensures
        parse_entry(entry_bytes(e) + rest) == Some((e, entry_bytes(e).len())),
{
    let s = entry_bytes(e) + rest;
    let t = text_field(e.name);
    let kv = varint(kind_index(e.kind));
    assert(s =~= t + (kv + e.hash + rest));
    lemma_text_field_roundtrip(e.name, kv + e.hash + rest);
    assert(s.skip(t.len() as int) =~= kv + (e.hash + rest));
    reveal_with_fuel(pow128, 5);
    assert(varint_bound(5, 15) == pow128(4) * 16);
    lemma_varint_roundtrip(kind_index(e.kind), e.hash + rest, 5, 15);
    assert(s.skip((t.len() + kv.len()) as int) =~= e.hash + rest);
    lemma_hash_roundtrip(e.hash, rest);
}

proof fn lemma_entries_roundtrip(es: Seq<TreeEntryView>, rest: Seq<u8>)
    requires
        forall|i: int| 0 <= i < es.len() ==> wf_entry(#[trigger] es[i]),
    ensures
        parse_entries(entries_bytes(es) + rest, es.len()) == Some((es, entries_bytes(es).len())),
    decreases es.len(),
{
    if es.len() > 0 {
        let init = es.drop_last();
        let last = es.last();
        assert(wf_entry(es[es.len() - 1]));
        assert forall|i: int| 0 <= i < init.len() implies wf_entry(#[trigger] init[i]) by {
            assert(init[i] == es[i]);
        }
        let s = entries_bytes(es) + rest;
        assert(s =~= entries_bytes(init) + (entry_bytes(last) + rest));
        lemma_entries_roundtrip(init, entry_bytes(last) + rest);
        assert(s.skip(entries_bytes(init).len() as int) =~= entry_bytes(last) + rest);
        lemma_entry_roundtrip(last, rest);
        assert(init.push(last) =~= es);
    }
}

/// Law: decoding the encoding of a blob gives the blob back, whatever bytes
/// follow the encoding.
pub proof fn blob_roundtrip(data: Seq<u8>, rest: Seq<u8>)
    requires
        data.len() < 0x1_0000_0000_0000_0000,
    ensures
        parse_blob(blob_bytes(data) + rest) == Some((data, blob_bytes(data).len())),
{
    lemma_bytes_field_roundtrip(data, rest);
}

/// Law: decoding the encoding of a tree gives the tree back, whatever bytes
/// follow the encoding.
pub proof fn tree_roundtrip(es: Seq<TreeEntryView>, rest: Seq<u8>)
    requires
        wf_tree(es),
    ensures
        parse_tree(tree_bytes(es) + rest) == Some((es, tree_bytes(es).len())),
{
    let s = tree_bytes(es) + rest;
    let v = varint(es.len());
    assert(s =~= v + (entries_bytes(es) + rest));
    lemma_u64_roundtrip(es.len(), entries_bytes(es) + rest);
    assert(s.skip(v.len() as int) =~= entries_bytes(es) + rest);
    lemma_entries_roundtrip(es, rest);
}

/// Law: decoding the encoding of a commit gives the commit back, whatever
/// bytes follow the encoding.
#[verifier::spinoff_prover]
#[verifier::rlimit(100)]
pub proof fn commit_roundtrip(c: CommitView, rest: Seq<u8>)
    requires
        wf_commit(c),
    ensures
        parse_commit(commit_bytes(c) + rest) == Some((c, commit_bytes(c).len())),
{
    let b1 = opt_hash_bytes(c.parent);
    let b2 = c.tree;
    let b3 = text_field(c.author_name);
    let b4 = text_field(c.author_email);
    let z = zigzag(c.timestamp_utc as int);
    let b5 = varint(z);
    let b6 = text_field(c.message);
    let r5 = b6 + rest;
    let r4 = b5 + r5;
    let r3 = b4 + r4;
    let r2 = b3 + r3;
    let r1 = b2 + r2;
    let s = commit_bytes(c) + rest;
    assert(s =~= b1 + r1);
    let k1 = b1.len();
    let k2 = 32nat;
    let k3 = b3.len();
    let k4 = b4.len();
    let k5 = b5.len();
    assert(parse_opt_hash(s) == Some((c.parent, k1))) by {
        match c.parent {
            None => {},
            Some(h) => {
                assert(s.skip(1) =~= h + r1);
                lemma_hash_roundtrip(h, r1);
            },
        }
    }
    assert(s.skip(k1 as int) == r1) by {
        lemma_skip_concat(b1, r1);
    }
    assert(parse_hash(s.skip(k1 as int)) == Some((b2, k2))) by {
        lemma_hash_roundtrip(b2, r2);
    }
    assert(s.skip((k1 + k2) as int) == r2) by {
        lemma_skip_concat(b2, r2);
        lemma_skip_skip(s, k1 as int, k2 as int);
    }
    assert(parse_text_field(s.skip((k1 + k2) as int)) == Some((c.author_name, k3))) by {
        lemma_text_field_roundtrip(c.author_name, r3);
    }
    assert(s.skip((k1 + k2 + k3) as int) == r3) by {
        lemma_skip_concat(b3, r3);
        lemma_skip_skip(s, (k1 + k2) as int, k3 as int);
    }
    assert(parse_text_field(s.skip((k1 + k2 + k3) as int)) == Some((c.author_email, k4))) by {
        lemma_text_field_roundtrip(c.author_email, r4);
    }
    assert(s.skip((k1 + k2 + k3 + k4) as int) == r4) by {
        lemma_skip_concat(b4, r4);
        lemma_skip_skip(s, (k1 + k2 + k3) as int, k4 as int);
    }
    assert(parse_i64(s.skip((k1 + k2 + k3 + k4) as int)) == Some((c.timestamp_utc, k5))) by {
        assert(z < 0x1_0000_0000_0000_0000);
        lemma_u64_roundtrip(z, r5);
        assert(unzigzag(z) == c.timestamp_utc as int);
    }
    assert(s.skip((k1 + k2 + k3 + k4 + k5) as int) == r5) by {
        lemma_skip_concat(b5, r5);
        lemma_skip_skip(s, (k1 + k2 + k3 + k4) as int, k5 as int);
    }
    assert(parse_text_field(s.skip((k1 + k2 + k3 + k4 + k5) as int)) == Some(
        (c.message, b6.len()),
    )) by {
        lemma_text_field_roundtrip(c.message, rest);
    }
    assert(commit_bytes(c).len() == k1 + k2 + k3 + k4 + k5 + b6.len());
    lemma_parse_commit_steps(s, c, k1, k2, k3, k4, k5, b6.len());
}

proof fn lemma_parse_commit_steps(
    s: Seq<u8>,
    c: CommitView,
    k1: nat,
    k2: nat,
    k3: nat,
    k4: nat,
    k5: nat,
    k6: nat,
)
    requires
        parse_opt_hash(s) == Some((c.parent, k1)),
        parse_hash(s.skip(k1 as int)) == Some((c.tree, k2)),
        parse_text_field(s.skip((k1 + k2) as int)) == Some((c.author_name, k3)),
        parse_text_field(s.skip((k1 + k2 + k3) as int)) == Some((c.author_email, k4)),
        parse_i64(s.skip((k1 + k2 + k3 + k4) as int)) == Some((c.timestamp_utc, k5)),
        parse_text_field(s.skip((k1 + k2 + k3 + k4 + k5) as int)) == Some((c.message, k6)),
    ensures
        parse_commit(s) == Some((c, k1 + k2 + k3 + k4 + k5 + k6)),
{
}

proof fn lemma_skip_concat(a: Seq<u8>, b: Seq<u8>)
    ensures
        (a + b).skip(a.len() as int) == b,
{
    assert((a + b).skip(a.len() as int) =~= b);
}


/// Law: blobs with the same encoding are the same blob.
pub proof fn blob_encoding_injective(a: Seq<u8>, b: Seq<u8>)
    requires
        a.len() < 0x1_0000_0000_0000_0000,
        b.len() < 0x1_0000_0000_0000_0000,
        blob_bytes(a) == blob_bytes(b),
    ensures
        a == b,
{
    blob_roundtrip(a, Seq::empty());
    blob_roundtrip(b, Seq::empty());
    assert(blob_bytes(a) + Seq::<u8>::empty() =~= blob_bytes(a));
    assert(blob_bytes(b) + Seq::<u8>::empty() =~= blob_bytes(b));
}

/// Law: trees with the same encoding are the same tree.
pub proof fn tree_encoding_injective(a: Seq<TreeEntryView>, b: Seq<TreeEntryView>)
    requires
        wf_tree(a),
        wf_tree(b),
        tree_bytes(a) == tree_bytes(b),
    ensures
        a == b,
{
    tree_roundtrip(a, Seq::empty());
    tree_roundtrip(b, Seq::empty());
    assert(tree_bytes(a) + Seq::<u8>::empty() =~= tree_bytes(a));
    assert(tree_bytes(b) + Seq::<u8>::empty() =~= tree_bytes(b));
}

/// Law: commits with the same encoding are the same commit.
pub proof fn commit_encoding_injective(a: CommitView, b: CommitView)
    requires
        wf_commit(a),
        wf_commit(b),
        commit_bytes(a) == commit_bytes(b),
    ensures
        a == b,
{
    commit_roundtrip(a, Seq::empty());
    commit_roundtrip(b, Seq::empty());
    assert(commit_bytes(a) + Seq::<u8>::empty() =~= commit_bytes(a));
    assert(commit_bytes(b) + Seq::<u8>::empty() =~= commit_bytes(b));
}

} // verus!
