//! Byte-wise ordering of text, the order in which `String`s compare, and
//! sorting by it.
use vstd::prelude::*;
use vstd::multiset::Multiset;
use vstd::utf8::*;

verus! {

/// Lexicographic order on byte strings: the first differing byte decides,
/// and a proper prefix comes first.
pub open spec fn bytes_lt(a: Seq<u8>, b: Seq<u8>) -> bool
    decreases a.len(),
{
    if a.len() == 0 {
        b.len() > 0
    } else if b.len() == 0 {
        false
    } else if a[0] != b[0] {
        a[0] < b[0]
    } else {
        bytes_lt(a.drop_first(), b.drop_first())
    }
}

/// Order on text: by the bytes of the UTF-8 encodings.
pub open spec fn text_lt(a: Seq<char>, b: Seq<char>) -> bool {
    bytes_lt(encode_utf8(a), encode_utf8(b))
}

/// Each text is below every later one: sorted, and no text occurs twice.
pub open spec fn texts_strictly_sorted(s: Seq<Seq<char>>) -> bool {
    forall|i: int, j: int| 0 <= i < j < s.len() ==> text_lt(#[trigger] s[i], #[trigger] s[j])
}

pub proof fn lemma_bytes_lt_irreflexive(a: Seq<u8>)
    ensures
        !bytes_lt(a, a),
    decreases a.len(),
{
    if a.len() > 0 {
        lemma_bytes_lt_irreflexive(a.drop_first());
    }
}

pub proof fn lemma_bytes_lt_asymmetric(a: Seq<u8>, b: Seq<u8>)
    ensures
        bytes_lt(a, b) ==> !bytes_lt(b, a),
    decreases a.len(),
{
    if a.len() > 0 && b.len() > 0 && a[0] == b[0] {
        lemma_bytes_lt_asymmetric(a.drop_first(), b.drop_first());
    }
}

pub proof fn lemma_bytes_lt_transitive(a: Seq<u8>, b: Seq<u8>, c: Seq<u8>)
    ensures
        bytes_lt(a, b) && bytes_lt(b, c) ==> bytes_lt(a, c),
    decreases a.len(),
{
    if a.len() > 0 && b.len() > 0 && c.len() > 0 {
        lemma_bytes_lt_transitive(a.drop_first(), b.drop_first(), c.drop_first());
    }
}

pub proof fn lemma_bytes_lt_total(a: Seq<u8>, b: Seq<u8>)
    ensures
        a != b ==> bytes_lt(a, b) || bytes_lt(b, a),
    decreases a.len(),
{
    if a.len() > 0 && b.len() > 0 && a[0] == b[0] {
        lemma_bytes_lt_total(a.drop_first(), b.drop_first());
        if a.drop_first() == b.drop_first() {
            assert(a =~= seq![a[0]] + a.drop_first());
            assert(b =~= seq![b[0]] + b.drop_first());
        }
    } else if a.len() == 0 && b.len() == 0 {
        assert(a =~= b);
    }
}

/// The order on text is a strict total order.
pub proof fn lemma_text_lt_order(a: Seq<char>, b: Seq<char>, c: Seq<char>)
    ensures
        !text_lt(a, a),
        text_lt(a, b) ==> !text_lt(b, a),
        text_lt(a, b) && text_lt(b, c) ==> text_lt(a, c),
        a != b ==> text_lt(a, b) || text_lt(b, a),
{
    lemma_bytes_lt_irreflexive(encode_utf8(a));
    lemma_bytes_lt_asymmetric(encode_utf8(a), encode_utf8(b));
    lemma_bytes_lt_transitive(encode_utf8(a), encode_utf8(b), encode_utf8(c));
    lemma_bytes_lt_total(encode_utf8(a), encode_utf8(b));
    encode_utf8_decode_utf8(a);
    encode_utf8_decode_utf8(b);
}

/// The order on bytes is a strict total order.
pub proof fn lemma_bytes_lt_order(a: Seq<u8>, b: Seq<u8>, c: Seq<u8>)
    ensures
        !bytes_lt(a, a),
        bytes_lt(a, b) ==> !bytes_lt(b, a),
        bytes_lt(a, b) && bytes_lt(b, c) ==> bytes_lt(a, c),
        a != b ==> bytes_lt(a, b) || bytes_lt(b, a),
{
    lemma_bytes_lt_irreflexive(a);
    lemma_bytes_lt_asymmetric(a, b);
    lemma_bytes_lt_transitive(a, b, c);
    lemma_bytes_lt_total(a, b);
}

proof fn lemma_bytes_lt_skip(a: Seq<u8>, b: Seq<u8>, i: int)
    requires
        0 <= i <= a.len(),
        i <= b.len(),
        a.take(i) == b.take(i),
    ensures
        bytes_lt(a, b) == bytes_lt(a.skip(i), b.skip(i)),
    decreases i,
{
    if i > 0 {
        assert(a[0] == a.take(i)[0]);
        assert(b[0] == b.take(i)[0]);
        assert(a.drop_first().take(i - 1) =~= a.take(i).drop_first());
        assert(b.drop_first().take(i - 1) =~= b.take(i).drop_first());
        lemma_bytes_lt_skip(a.drop_first(), b.drop_first(), i - 1);
        assert(a.drop_first().skip(i - 1) =~= a.skip(i));
        assert(b.drop_first().skip(i - 1) =~= b.skip(i));
    } else {
        assert(a.skip(0) =~= a);
        assert(b.skip(0) =~= b);
    }
}

/// Outcome of comparing two texts.
#[derive(Debug, Clone, Copy, PartialEq, Eq, Structural)]
pub enum TextOrder {
    Less,
    Equal,
    Greater,
}

/// Compares two byte strings lexicographically, as `[u8]` compare.
pub fn compare_bytes(x: &[u8], y: &[u8]) -> (r: TextOrder)
    ensures
        (r == TextOrder::Less) == bytes_lt(x@, y@),
        (r == TextOrder::Equal) == (x@ == y@),
        (r == TextOrder::Greater) == bytes_lt(y@, x@),
{
    proof {
        lemma_bytes_lt_order(x@, y@, y@);
        lemma_bytes_lt_order(y@, x@, x@);
    }
    let mut i: usize = 0;
    while i < x.len() && i < y.len()
        invariant
            i <= x@.len(),
            i <= y@.len(),
            x@.take(i as int) == y@.take(i as int),
        decreases x@.len() - i,
    {
        if x[i] != y[i] {
            proof {
                lemma_bytes_lt_skip(x@, y@, i as int);
                assert(x@.skip(i as int)[0] == x@[i as int]);
                assert(y@.skip(i as int)[0] == y@[i as int]);
                lemma_bytes_lt_skip(y@, x@, i as int);
            }
            if x[i] < y[i] {
                return TextOrder::Less;
            } else {
                return TextOrder::Greater;
            }
        }
        assert(x@.take(i + 1) =~= x@.take(i as int).push(x@[i as int]));
        assert(y@.take(i + 1) =~= y@.take(i as int).push(y@[i as int]));
        i = i + 1;
    }
    proof {
        lemma_bytes_lt_skip(x@, y@, i as int);
        lemma_bytes_lt_skip(y@, x@, i as int);
    }
    if x.len() == y.len() {
        assert(x@ =~= x@.take(i as int));
        assert(y@ =~= y@.take(i as int));
        TextOrder::Equal
    } else if x.len() < y.len() {
        TextOrder::Less
    } else {
        TextOrder::Greater
    }
}

/// Compares two texts byte-wise, as `String`s compare.
pub fn compare_text(a: &str, b: &str) -> (r: TextOrder)
    ensures
        (r == TextOrder::Less) == text_lt(a@, b@),
        (r == TextOrder::Equal) == (a@ == b@),
        (r == TextOrder::Greater) == text_lt(b@, a@),
{
    proof {
        encode_utf8_decode_utf8(a@);
        encode_utf8_decode_utf8(b@);
    }
    compare_bytes(a.as_bytes(), b.as_bytes())
}


/// Something that is ordered by its name, taken as bytes.
pub trait Named {
    /// The bytes of the name.
    spec fn name_key(&self) -> Seq<u8>;

    fn name_bytes(&self) -> (r: &[u8])
        ensures
            r@ == self.name_key(),
    ;
}

impl Named for String {
    open spec fn name_key(&self) -> Seq<u8> {
        encode_utf8(self@)
    }

    fn name_bytes(&self) -> (r: &[u8]) {
        self.as_str().as_bytes()
    }
}

/// Each name is at most every later one, byte-wise.
pub open spec fn sorted_by_name<T: Named>(s: Seq<T>) -> bool {
    forall|i: int, j: int|
        0 <= i < j < s.len() ==> !bytes_lt(#[trigger] s[j].name_key(), #[trigger] s[i].name_key())
}

proof fn lemma_insert_multiset<T>(s: Seq<T>, i: int, x: T)
    requires
        0 <= i <= s.len(),
    ensures
        s.insert(i, x).to_multiset() =~= s.to_multiset().insert(x),
{
    let t = s.insert(i, x);
    s.insert_ensures(i, x);
    assert(t.remove(i) =~= s);
    t.to_multiset_ensures();
    assert(t.contains(x)) by {
        assert(t[i] == x);
    }
    assert(t.to_multiset().count(x) > 0);
}

/// Sorts by name, byte-wise, keeping every element.
pub fn sort_by_name<T: Named>(v: Vec<T>) -> (r: Vec<T>)
    ensures
        sorted_by_name(r@),
        r@.to_multiset() =~= v@.to_multiset(),
{
    let ghost orig = v@;
    let mut rest = v;
    let mut out: Vec<T> = Vec::new();
    proof {
        broadcast use vstd::seq_lib::group_to_multiset_ensures;
    }
    while rest.len() > 0
        invariant
            sorted_by_name(out@),
            out@.to_multiset().add(rest@.to_multiset()) =~= orig.to_multiset(),
        decreases rest@.len(),
    {
        proof {
            broadcast use vstd::seq_lib::group_to_multiset_ensures;
        }
        let ghost before = rest@;
        let x = rest.remove(0);
        let mut pos: usize = 0;
        while pos < out.len()
            invariant
                pos <= out@.len(),
                forall|k: int| 0 <= k < pos ==> !bytes_lt(x.name_key(), #[trigger] out@[k].name_key()),
            ensures
                pos <= out@.len(),
                forall|k: int| 0 <= k < pos ==> !bytes_lt(x.name_key(), #[trigger] out@[k].name_key()),
                pos < out@.len() ==> bytes_lt(x.name_key(), out@[pos as int].name_key()),
            decreases out@.len() - pos,
        {
            if compare_bytes(x.name_bytes(), out[pos].name_bytes()) == TextOrder::Less {
                break;
            }
            pos = pos + 1;
        }
        let ghost prev = out@;
        proof {
            assert forall|i: int, j: int|
                0 <= i < j < prev.insert(pos as int, x).len() implies !bytes_lt(
                #[trigger] prev.insert(pos as int, x)[j].name_key(),
                #[trigger] prev.insert(pos as int, x)[i].name_key(),
            ) by {
                let t = prev.insert(pos as int, x);
                prev.insert_ensures(pos as int, x);
                if j < pos {
                    assert(t[i] == prev[i] && t[j] == prev[j]);
                } else if j == pos {
                    assert(t[i] == prev[i] && t[j] == x);
                } else if i == pos {
                    assert(t[i] == x && t[j] == prev[j - 1]);
                    let a = prev[pos as int].name_key();
                    let b = prev[j - 1].name_key();
                    lemma_bytes_lt_order(x.name_key(), a, b);
                    lemma_bytes_lt_order(b, x.name_key(), a);
                    lemma_bytes_lt_order(a, b, a);
                    if pos as int != j - 1 {
                        assert(!bytes_lt(b, a));
                    }
                } else if i < pos {
                    assert(t[i] == prev[i] && t[j] == prev[j - 1]);
                } else {
                    assert(t[i] == prev[i - 1] && t[j] == prev[j - 1]);
                }
            }
            lemma_insert_multiset(prev, pos as int, x);
            assert(before.remove(0) =~= rest@);
            assert(before[0] == x);
        }
        out.insert(pos, x);
    }
    out
}

/// Within `m`, an item's name determines the item.
pub open spec fn names_determine<T: Named>(m: Multiset<T>) -> bool {
    forall|x: T, y: T|
        m.contains(x) && m.contains(y) && #[trigger] x.name_key() == #[trigger] y.name_key() ==> x == y
}

/// Two orderings by name of the same items, no two of which share a name,
/// are the same sequence.
pub proof fn lemma_sorted_by_name_unique<T: Named>(a: Seq<T>, b: Seq<T>)
    requires
        sorted_by_name(a),
        sorted_by_name(b),
        a.to_multiset() == b.to_multiset(),
        names_determine(a.to_multiset()),
    ensures
        a == b,
    decreases a.len(),
{
    a.to_multiset_ensures();
    b.to_multiset_ensures();
    if a.len() == 0 {
        assert(b.len() == 0);
        assert(a =~= b);
    } else {
        let x = a[0];
        let y = b[0];
        assert(a.contains(x));
        assert(b.contains(y));
        assert(b.to_multiset().count(x) > 0);
        assert(a.to_multiset().count(y) > 0);
        let k = choose|k: int| 0 <= k < b.len() && b[k] == x;
        let j = choose|j: int| 0 <= j < a.len() && a[j] == y;
        lemma_bytes_lt_order(x.name_key(), y.name_key(), x.name_key());
        if x.name_key() != y.name_key() {
            if k > 0 {
                assert(!bytes_lt(b[k].name_key(), b[0].name_key()));
            }
            if j > 0 {
                assert(!bytes_lt(a[j].name_key(), a[0].name_key()));
            }
        }
        assert(x == y);
        let a2 = a.drop_first();
        let b2 = b.drop_first();
        assert(a2 =~= a.remove(0));
        assert(b2 =~= b.remove(0));
        a2.to_multiset_ensures();
        assert(a2.to_multiset() == b2.to_multiset());
        assert forall|p: T, q: T|
            a2.to_multiset().contains(p) && a2.to_multiset().contains(q) && #[trigger] p.name_key()
                == #[trigger] q.name_key() implies p == q by {
            assert(a.to_multiset().contains(p));
            assert(a.to_multiset().contains(q));
        }
        assert forall|i: int, l: int| 0 <= i < l < a2.len() implies !bytes_lt(
            #[trigger] a2[l].name_key(),
            #[trigger] a2[i].name_key(),
        ) by {
            assert(a2[l] == a[l + 1] && a2[i] == a[i + 1]);
        }
        assert forall|i: int, l: int| 0 <= i < l < b2.len() implies !bytes_lt(
            #[trigger] b2[l].name_key(),
            #[trigger] b2[i].name_key(),
        ) by {
            assert(b2[l] == b[l + 1] && b2[i] == b[i + 1]);
        }
        lemma_sorted_by_name_unique(a2, b2);
        assert(a =~= seq![x] + a2);
        assert(b =~= seq![y] + b2);
    }
}

} // verus!
