//! The order of map keys: the lexicographic order of their UTF-8 bytes,
//! which is the order of `str`.

use vstd::prelude::*;
use vstd::utf8::encode_utf8;

verus! {

/// Lexicographic order on byte strings.
pub open spec fn bytes_lt(a: Seq<u8>, b: Seq<u8>) -> bool
    decreases a.len(),
{
    if a.len() == 0 {
        b.len() > 0
    } else if b.len() == 0 {
        false
    } else if a[0] != b[0] {
        a[0] < b[0]
    } else {
        bytes_lt(a.drop_first(), b.drop_first())
    }
}

/// Order on keys: `a` sorts before `b`.
pub open spec fn key_lt(a: Seq<char>, b: Seq<char>) -> bool {
    bytes_lt(encode_utf8(a), encode_utf8(b))
}

pub proof fn lemma_bytes_lt_irreflexive(a: Seq<u8>)
    ensures
        !bytes_lt(a, a),
    decreases a.len(),
{
    if a.len() > 0 {
        lemma_bytes_lt_irreflexive(a.drop_first());
    }
}

pub proof fn lemma_bytes_lt_transitive(a: Seq<u8>, b: Seq<u8>, c: Seq<u8>)
    requires
        bytes_lt(a, b),
        bytes_lt(b, c),
    ensures
        bytes_lt(a, c),
    decreases a.len(),
{
    if a.len() > 0 && b.len() > 0 && c.len() > 0 && a[0] == b[0] && b[0] == c[0] {
        lemma_bytes_lt_transitive(a.drop_first(), b.drop_first(), c.drop_first());
    }
}

pub proof fn lemma_bytes_lt_total(a: Seq<u8>, b: Seq<u8>)
    requires
        a != b,
    ensures
        bytes_lt(a, b) || bytes_lt(b, a),
    decreases a.len(),
{
    if a.len() > 0 && b.len() > 0 && a[0] == b[0] {
        if a.drop_first() == b.drop_first() {
            assert(a =~= seq![a[0]] + a.drop_first());
            assert(b =~= seq![b[0]] + b.drop_first());
        }
        lemma_bytes_lt_total(a.drop_first(), b.drop_first());
    } else if a.len() == 0 && b.len() == 0 {
        assert(a =~= b);
    }
}

pub proof fn lemma_bytes_lt_asymmetric(a: Seq<u8>, b: Seq<u8>)
    requires
        bytes_lt(a, b),
    ensures
        !bytes_lt(b, a),
{
    if bytes_lt(b, a) {
        lemma_bytes_lt_transitive(a, b, a);
        lemma_bytes_lt_irreflexive(a);
    }
}

/// Distinct keys have distinct encodings.
pub proof fn lemma_encode_injective(a: Seq<char>, b: Seq<char>)
    requires
        encode_utf8(a) == encode_utf8(b),
    ensures
        a == b,
{
    vstd::utf8::encode_utf8_decode_utf8(a);
    vstd::utf8::encode_utf8_decode_utf8(b);
}

/// `key_lt` is a strict total order.
pub proof fn lemma_key_order(a: Seq<char>, b: Seq<char>, c: Seq<char>)
    ensures
        !key_lt(a, a),
        key_lt(a, b) ==> !key_lt(b, a),
        key_lt(a, b) && key_lt(b, c) ==> key_lt(a, c),
        a != b ==> key_lt(a, b) || key_lt(b, a),
{
    lemma_bytes_lt_irreflexive(encode_utf8(a));
    if key_lt(a, b) {
        lemma_bytes_lt_asymmetric(encode_utf8(a), encode_utf8(b));
    }
    if key_lt(a, b) && key_lt(b, c) {
        lemma_bytes_lt_transitive(encode_utf8(a), encode_utf8(b), encode_utf8(c));
    }
    if a != b {
        if encode_utf8(a) == encode_utf8(b) {
            lemma_encode_injective(a, b);
        }
        lemma_bytes_lt_total(encode_utf8(a), encode_utf8(b));
    }
}

/// The result of comparing two keys.
#[derive(Clone, Copy, Debug, PartialEq, Eq, Structural)]
pub enum KeyOrder {
    Less,
    Equal,
    Greater,
}

/// Compare two keys in the order of their UTF-8 bytes.
pub fn compare_keys(a: &str, b: &str) -> (r: KeyOrder)
    ensures
        r == KeyOrder::Less <==> key_lt(a@, b@),
        r == KeyOrder::Equal <==> a@ == b@,
        r == KeyOrder::Greater <==> key_lt(b@, a@),
{
    let ab = a.as_bytes();
    let bb = b.as_bytes();
    let ghost sa = encode_utf8(a@);
    let ghost sb = encode_utf8(b@);
    proof {
        lemma_key_order(a@, b@, b@);
        lemma_key_order(b@, a@, a@);
        assert(sa.skip(0) =~= sa);
        assert(sb.skip(0) =~= sb);
    }
    let mut i: usize = 0;
    while i < ab.len() && i < bb.len()
        invariant
            ab@ == sa,
            bb@ == sb,
            sa == encode_utf8(a@),
            sb == encode_utf8(b@),
            i <= sa.len(),
            i <= sb.len(),
            sa.take(i as int) == sb.take(i as int),
            bytes_lt(sa, sb) == bytes_lt(sa.skip(i as int), sb.skip(i as int)),
            bytes_lt(sb, sa) == bytes_lt(sb.skip(i as int), sa.skip(i as int)),
        decreases sa.len() - i,
    {
        assert(sa.skip(i as int)[0] == sa[i as int]);
        assert(sb.skip(i as int)[0] == sb[i as int]);
        if ab[i] < bb[i] {
            assert(bytes_lt(sa, sb));
            proof {
                lemma_key_order(a@, b@, b@);
            }
            assert(!bytes_lt(sb, sa));
            return KeyOrder::Less;
        }
        if ab[i] > bb[i] {
            assert(bytes_lt(sb, sa));
            proof {
                lemma_key_order(b@, a@, a@);
            }
            assert(!bytes_lt(sa, sb));
            return KeyOrder::Greater;
        }
        assert(sa.skip(i as int).drop_first() =~= sa.skip(i + 1));
        assert(sb.skip(i as int).drop_first() =~= sb.skip(i + 1));
        assert(sa.take(i + 1) =~= sa.take(i as int).push(sa[i as int]));
        assert(sb.take(i + 1) =~= sb.take(i as int).push(sb[i as int]));
        i = i + 1;
    }
    if ab.len() < bb.len() {
        assert(sa.skip(i as int).len() == 0);
        assert(bytes_lt(sa, sb));
        KeyOrder::Less
    } else if ab.len() > bb.len() {
        assert(sb.skip(i as int).len() == 0);
        assert(bytes_lt(sb, sa));
        KeyOrder::Greater
    } else {
        proof {
            assert(sa =~= sa.take(i as int));
            assert(sb =~= sb.take(i as int));
            lemma_encode_injective(a@, b@);
        }
        KeyOrder::Equal
    }
}

} // verus!
