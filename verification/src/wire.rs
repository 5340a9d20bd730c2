//! The byte formats of the fast map snapshot: unsigned LEB128 numbers,
//! little-endian peer identifiers, and postcard's encoding of a list of
//! strings.

use vstd::prelude::*;
use vstd::utf8::{decode_utf8, encode_utf8, valid_utf8};

verus! {

/// The unsigned LEB128 encoding of `x`: seven bits per byte, lowest
/// first, the high bit set on every byte but the last.
pub open spec fn uleb128(x: nat) -> Seq<u8>
    decreases x,
{
    if x < 128 {
        seq![x as u8]
    } else {
        seq![(x % 128 + 128) as u8] + uleb128(x / 128)
    }
}

/// Reading an unsigned LEB128 number from `b`, as its `depth`-th byte
/// onwards: the value and the bytes after it, or nothing when `b` ends
/// first or the number does not fit in 64 bits (the tenth byte may only be
/// 0 or 1). Longer encodings than needed are read too.
pub open spec fn uleb_take_at(b: Seq<u8>, depth: nat) -> Option<(nat, Seq<u8>)>
    decreases 10 - depth,
{
    if depth >= 10 || b.len() == 0 {
        None
    } else if depth == 9 && b[0] > 1 {
        None
    } else if b[0] < 128 {
        Some((b[0] as nat, b.drop_first()))
    } else {
        match uleb_take_at(b.drop_first(), depth + 1) {
            Some((v, r)) => Some((((b[0] - 128) + 128 * v) as nat, r)),
            None => None,
        }
    }
}

/// Reading an unsigned LEB128 number from the start of `b`.
pub open spec fn uleb_take(b: Seq<u8>) -> Option<(nat, Seq<u8>)> {
    uleb_take_at(b, 0)
}

/// One more than the largest value that can be read from the `depth`-th
/// byte onwards.
pub open spec fn uleb_bound(depth: nat) -> nat
    decreases 9 - depth,
{
    if depth >= 9 {
        2
    } else {
        128 * uleb_bound(depth + 1)
    }
}

pub proof fn lemma_uleb_bound_zero()
    ensures
        uleb_bound(0) == 0x1_0000_0000_0000_0000,
{
    reveal_with_fuel(uleb_bound, 10);
    assert(uleb_bound(9) == 2);
    assert(uleb_bound(0) == 0x1_0000_0000_0000_0000);
}

proof fn lemma_uleb_bound_positive(depth: nat)
    ensures
        uleb_bound(depth) >= 128 || depth >= 9,
        uleb_bound(depth) >= 2,
    decreases 9 - depth,
{
    if depth < 9 {
        lemma_uleb_bound_positive(depth + 1);
    }
}

/// Reading back an encoding gives the value and the bytes after it.
pub proof fn lemma_uleb_roundtrip_at(x: nat, rest: Seq<u8>, depth: nat)
    requires
        depth <= 9,
        x < uleb_bound(depth),
    ensures
        uleb_take_at(uleb128(x) + rest, depth) == Some((x, rest)),
    decreases x,
{
    let b = uleb128(x) + rest;
    if x < 128 {
        assert(b[0] == x as u8);
        assert(b.drop_first() =~= rest);
        if depth == 9 {
            assert(uleb_bound(9) == 2);
        }
    } else {
        lemma_uleb_bound_positive(depth);
        if depth == 9 {
            assert(uleb_bound(9) == 2);
        }
        assert(depth < 9);
        assert(x / 128 < uleb_bound(depth + 1));
        lemma_uleb_roundtrip_at(x / 128, rest, depth + 1);
        assert(b[0] == (x % 128 + 128) as u8);
        assert(b.drop_first() =~= uleb128(x / 128) + rest);
    }
}

pub proof fn lemma_uleb_roundtrip(x: u64, rest: Seq<u8>)
    ensures
        uleb_take(uleb128(x as nat) + rest) == Some((x as nat, rest)),
{
    lemma_uleb_bound_zero();
    lemma_uleb_roundtrip_at(x as nat, rest, 0);
}

/// The eight little-endian bytes of `p`.
pub open spec fn le_bytes(p: u64) -> Seq<u8> {
    seq![
        (p % 0x100) as u8,
        ((p / 0x100) % 0x100) as u8,
        ((p / 0x1_0000) % 0x100) as u8,
        ((p / 0x100_0000) % 0x100) as u8,
        ((p / 0x1_0000_0000) % 0x100) as u8,
        ((p / 0x100_0000_0000) % 0x100) as u8,
        ((p / 0x1_0000_0000_0000) % 0x100) as u8,
        ((p / 0x100_0000_0000_0000) % 0x100) as u8,
    ]
}

/// The number whose little-endian bytes start `b`.
pub open spec fn le_value(b: Seq<u8>) -> int {
    b[0] + 0x100 * b[1] + 0x1_0000 * b[2] + 0x100_0000 * b[3] + 0x1_0000_0000 * b[4] + 0x100_0000_0000 * b[5]
        + 0x1_0000_0000_0000 * b[6] + 0x100_0000_0000_0000 * b[7]
}

/// The little-endian bytes of every number of `ps`, one after the other.
pub open spec fn le_concat(ps: Seq<u64>) -> Seq<u8>
    decreases ps.len(),
{
    if ps.len() == 0 {
        Seq::empty()
    } else {
        le_concat(ps.drop_last()) + le_bytes(ps.last())
    }
}

pub proof fn lemma_le_roundtrip(p: u64)
    ensures
        le_value(le_bytes(p)) == p,
{
    let b = le_bytes(p);
    assert(b[0] == p % 0x100);
    assert(b[7] == (p / 0x100_0000_0000_0000) % 0x100);
    assert(p == (p % 0x100) + 0x100 * ((p / 0x100) % 0x100) + 0x1_0000 * ((p / 0x1_0000) % 0x100) + 0x100_0000 * ((p
        / 0x100_0000) % 0x100) + 0x1_0000_0000 * ((p / 0x1_0000_0000) % 0x100) + 0x100_0000_0000 * ((p / 0x100_0000_0000)
        % 0x100) + 0x1_0000_0000_0000 * ((p / 0x1_0000_0000_0000) % 0x100) + 0x100_0000_0000_0000 * ((p
        / 0x100_0000_0000_0000) % 0x100)) by (bit_vector);
}

/// Append the little-endian bytes of `p`.
pub fn push_le_bytes(out: &mut Vec<u8>, p: u64)
    ensures
        final(out)@ == old(out)@ + le_bytes(p),
{
    out.push((p % 0x100) as u8);
    out.push(((p / 0x100) % 0x100) as u8);
    out.push(((p / 0x1_0000) % 0x100) as u8);
    out.push(((p / 0x100_0000) % 0x100) as u8);
    out.push(((p / 0x1_0000_0000) % 0x100) as u8);
    out.push(((p / 0x100_0000_0000) % 0x100) as u8);
    out.push(((p / 0x1_0000_0000_0000) % 0x100) as u8);
    out.push(((p / 0x100_0000_0000_0000) % 0x100) as u8);
    assert(out@ =~= old(out)@ + le_bytes(p));
}

/// The number whose little-endian bytes are the first eight of `b`.
pub fn read_le_u64(b: &[u8]) -> (r: u64)
    requires
        b@.len() >= 8,
    ensures
        r == le_value(b@),
{
    (b[0] as u64) + 0x100 * (b[1] as u64) + 0x1_0000 * (b[2] as u64) + 0x100_0000 * (b[3] as u64) + 0x1_0000_0000 * (
    b[4] as u64) + 0x100_0000_0000 * (b[5] as u64) + 0x1_0000_0000_0000 * (b[6] as u64) + 0x100_0000_0000_0000 * (
    b[7] as u64)
}

/// The views of a list of strings.
pub open spec fn strings_view(s: Seq<String>) -> Seq<Seq<char>> {
    s.map_values(|x: String| x@)
}

/// postcard's encoding of one string: its UTF-8 length as a LEB128
/// number, then its UTF-8 bytes.
pub open spec fn wire_string(s: Seq<char>) -> Seq<u8> {
    uleb128(encode_utf8(s).len()) + encode_utf8(s)
}

/// The encodings of the strings of `ks`, one after the other.
pub open spec fn wire_string_list(ks: Seq<Seq<char>>) -> Seq<u8>
    decreases ks.len(),
{
    if ks.len() == 0 {
        Seq::empty()
    } else {
        wire_string_list(ks.drop_last()) + wire_string(ks.last())
    }
}

/// postcard's encoding of a list of strings: the number of strings as a
/// LEB128 number, then each string.
pub open spec fn wire_strings(ks: Seq<Seq<char>>) -> Seq<u8> {
    uleb128(ks.len()) + wire_string_list(ks)
}

/// The encoding of `ks` followed by `tail`.
pub open spec fn strings_then(ks: Seq<Seq<char>>, tail: Seq<u8>) -> Seq<u8> {
    wire_strings(ks) + tail
}

/// What `postcard::take_from_bytes::<Vec<String>>` makes of `bytes`: the
/// strings and the bytes after them, or nothing when it fails.
pub uninterp spec fn postcard_take_strings(bytes: Seq<u8>) -> Option<(Seq<Seq<char>>, Seq<u8>)>;

/// One string read from the start of `b` in postcard's format: a LEB128
/// length, then that many bytes, which must be valid UTF-8.
pub open spec fn wire_string_take(b: Seq<u8>) -> Option<(Seq<char>, Seq<u8>)> {
    match uleb_take(b) {
        Some((n, r)) => if n <= r.len() && valid_utf8(r.take(n as int)) {
            Some((decode_utf8(r.take(n as int)), r.skip(n as int)))
        } else {
            None
        },
        None => None,
    }
}

/// `n` strings read one after the other from the start of `b`.
pub open spec fn wire_strings_take_n(b: Seq<u8>, n: nat) -> Option<(Seq<Seq<char>>, Seq<u8>)>
    decreases n,
{
    if n == 0 {
        Some((Seq::empty(), b))
    } else {
        match wire_string_take(b) {
            Some((s, r)) => match wire_strings_take_n(r, (n - 1) as nat) {
                Some((ss, r2)) => Some((seq![s] + ss, r2)),
                None => None,
            },
            None => None,
        }
    }
}

/// A list of strings read from the start of `b` in postcard's format: a
/// LEB128 count, then the strings; nothing where a number is cut short or
/// too long, a string runs past the end, or its bytes are not UTF-8.
pub open spec fn wire_strings_take(b: Seq<u8>) -> Option<(Seq<Seq<char>>, Seq<u8>)> {
    match uleb_take(b) {
        Some((n, r)) => wire_strings_take_n(r, n),
        None => None,
    }
}

/// The encodings of `s` and then `ks` are the encodings of `seq![s] + ks`.
proof fn lemma_wire_string_list_front(s: Seq<char>, ks: Seq<Seq<char>>)
    ensures
        wire_string_list(seq![s] + ks) == wire_string(s) + wire_string_list(ks),
    decreases ks.len(),
{
    if ks.len() == 0 {
        assert(seq![s] + ks =~= seq![s]);
        assert(seq![s].drop_last() =~= Seq::<Seq<char>>::empty());
        assert(wire_string_list(Seq::<Seq<char>>::empty()) == Seq::<u8>::empty());
        assert(seq![s].last() == s);
        assert(wire_string_list(seq![s]) == wire_string_list(seq![s].drop_last()) + wire_string(s));
        assert(wire_string_list(seq![s]) =~= wire_string(s));
    } else {
        lemma_wire_string_list_front(s, ks.drop_last());
        assert((seq![s] + ks).drop_last() =~= seq![s] + ks.drop_last());
        assert((seq![s] + ks).last() == ks.last());
        assert(wire_string_list(seq![s] + ks) =~= wire_string(s) + wire_string_list(ks));
    }
}

/// One string reads back from its encoding.
proof fn lemma_wire_string_roundtrip(s: Seq<char>, rest: Seq<u8>)
    requires
        encode_utf8(s).len() < 0x1_0000_0000_0000_0000,
    ensures
        wire_string_take(wire_string(s) + rest) == Some((s, rest)),
{
    let e = encode_utf8(s);
    lemma_uleb_bound_zero();
    lemma_uleb_roundtrip_at(e.len(), e + rest, 0);
    assert(wire_string(s) + rest =~= uleb128(e.len()) + (e + rest));
    assert((e + rest).take(e.len() as int) =~= e);
    assert((e + rest).skip(e.len() as int) =~= rest);
    vstd::utf8::encode_utf8_valid_utf8(s);
    vstd::utf8::encode_utf8_decode_utf8(s);
}

/// The strings of `ks` read back, one after the other, from their
/// encodings.
proof fn lemma_wire_strings_take_n(ks: Seq<Seq<char>>, tail: Seq<u8>)
    requires
        forall|i: int| 0 <= i < ks.len() ==> encode_utf8(#[trigger] ks[i]).len() < 0x1_0000_0000_0000_0000,
    ensures
        wire_strings_take_n(wire_string_list(ks) + tail, ks.len()) == Some((ks, tail)),
    decreases ks.len(),
{
    if ks.len() > 0 {
        let s = ks[0];
        let rs = ks.drop_first();
        assert(ks =~= seq![s] + rs);
        lemma_wire_string_list_front(s, rs);
        assert(wire_string_list(ks) + tail =~= wire_string(s) + (wire_string_list(rs) + tail));
        lemma_wire_string_roundtrip(s, wire_string_list(rs) + tail);
        assert forall|i: int| 0 <= i < rs.len() implies encode_utf8(#[trigger] rs[i]).len() < 0x1_0000_0000_0000_0000 by {
            assert(rs[i] == ks[i + 1]);
        }
        lemma_wire_strings_take_n(rs, tail);
    }
}

/// A list of strings reads back from its encoding in postcard's format,
/// with what follows it.
pub proof fn law_wire_strings_read_back(ks: Seq<Seq<char>>, tail: Seq<u8>)
    requires
        ks.len() < 0x1_0000_0000_0000_0000,
        forall|i: int| 0 <= i < ks.len() ==> encode_utf8(#[trigger] ks[i]).len() < 0x1_0000_0000_0000_0000,
    ensures
        wire_strings_take(strings_then(ks, tail)) == Some((ks, tail)),
{
    lemma_uleb_bound_zero();
    lemma_uleb_roundtrip_at(ks.len(), wire_string_list(ks) + tail, 0);
    assert(strings_then(ks, tail) =~= uleb128(ks.len()) + (wire_string_list(ks) + tail));
    lemma_wire_strings_take_n(ks, tail);
}

/// Append the unsigned LEB128 encoding of `x`, with
/// `leb128::write::unsigned`; writing to a vector does not fail.
#[verifier::external_body]
pub(crate) fn write_uleb128(out: &mut Vec<u8>, x: u64)
    ensures
        final(out)@ == old(out)@ + uleb128(x as nat),
{
    let _ = leb128::write::unsigned(out, x);
}

/// Read an unsigned LEB128 number from the start of `bytes` with
/// `leb128::read::unsigned`: the number and the bytes after it, exactly as
/// `uleb_take` says; nothing where it reports an error.
#[verifier::external_body]
pub(crate) fn read_uleb128<'a>(bytes: &'a [u8]) -> (r: Option<(u64, &'a [u8])>)
    ensures
        match r {
            Some((v, rest)) => uleb_take(bytes@) == Some((v as nat, rest@)),
            None => uleb_take(bytes@) is None,
        },
{
    let mut rest = bytes;
    match leb128::read::unsigned(&mut rest) {
        Ok(v) => Some((v, rest)),
        Err(_) => None,
    }
}

/// Append postcard's encoding of `keys` with `postcard::to_extend`, which
/// cannot fail on a vector of strings written to a vector.
#[verifier::external_body]
pub(crate) fn write_postcard_strings(out: &mut Vec<u8>, keys: &Vec<String>)
    ensures
        final(out)@ == old(out)@ + wire_strings(strings_view(keys@)),
{
    let buf = std::mem::take(out);
    *out = postcard::to_extend(keys, buf).unwrap();
}

/// Read a list of strings from the start of `bytes` with
/// `postcard::take_from_bytes`: the strings and the bytes after them,
/// nothing where postcard reports an error. Postcard reads its lengths as
/// numbers of the width of `usize`; where that is 64 bits, what it reads is
/// `wire_strings_take`. On narrower targets it also refuses LEB128 numbers
/// longer than that width needs, and only the name is stated there; on
/// every target it reads back its own encoding.
#[verifier::external_body]
pub(crate) fn take_postcard_strings<'a>(bytes: &'a [u8]) -> (r: Option<(Vec<String>, &'a [u8])>)
    ensures
        match r {
            Some((v, rest)) => postcard_take_strings(bytes@) == Some((strings_view(v@), rest@)),
            None => postcard_take_strings(bytes@) is None,
        },
        usize::BITS == 64 ==> match r {
            Some((v, rest)) => wire_strings_take(bytes@) == Some((strings_view(v@), rest@)),
            None => wire_strings_take(bytes@) is None,
        },
        forall|x: (Seq<Seq<char>>, Seq<u8>)|
            bytes@ == #[trigger] strings_then(x.0, x.1) ==> r is Some && strings_view(r.unwrap().0@) == x.0
                && r.unwrap().1@ == x.1,
{
    match postcard::take_from_bytes::<Vec<String>>(bytes) {
        Ok((v, rest)) => Some((v, rest)),
        Err(_) => None,
    }
}

} // verus!
