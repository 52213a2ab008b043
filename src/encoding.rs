//! Little-endian, length-prefixed byte encoding shared by block hashing,
//! signed messages and the wire format.

use vstd::prelude::*;
use vstd::bytes::*;
use vstd::slice::{slice_subrange, slice_to_vec};

verus! {

/// The eight little-endian bytes of `x`.
pub open spec fn u64_bytes(x: u64) -> Seq<u8> {
    spec_u64_to_le_bytes(x)
}

/// A byte string preceded by its length, so that concatenations stay decodable.
pub open spec fn field_bytes(b: Seq<u8>) -> Seq<u8> {
    u64_bytes(b.len() as u64) + b
}

/// No encoding is a proper prefix of another: equal bytes after different
/// remainders mean equal encodings.
pub open spec fn prefix_free<T>(f: spec_fn(T) -> Seq<u8>) -> bool {
    forall|x: T, y: T, r1: Seq<u8>, r2: Seq<u8>|
        #[trigger] (f(x) + r1) == #[trigger] (f(y) + r2) ==> f(x) == f(y)
}

/// Equal concatenations whose first parts have one length agree part by part.
pub proof fn lemma_cut(a: Seq<u8>, b: Seq<u8>, r1: Seq<u8>, r2: Seq<u8>)
    requires
        a + r1 == b + r2,
        a.len() == b.len(),
    ensures
        a == b,
        r1 == r2,
{
    assert(a =~= (a + r1).subrange(0, a.len() as int));
    assert(b =~= (b + r2).subrange(0, b.len() as int));
    assert(r1 =~= (a + r1).subrange(a.len() as int, (a + r1).len() as int));
    assert(r2 =~= (b + r2).subrange(b.len() as int, (b + r2).len() as int));
}

/// A `u64` encoding is read back whatever follows it.
pub proof fn lemma_u64_prefix(x: u64, y: u64, r1: Seq<u8>, r2: Seq<u8>)
    requires
        u64_bytes(x) + r1 == u64_bytes(y) + r2,
    ensures
        x == y,
        r1 == r2,
{
    lemma_auto_spec_u64_to_from_le_bytes();
    lemma_cut(u64_bytes(x), u64_bytes(y), r1, r2);
    lemma_u64_bytes_injective(x, y);
}

/// A length-prefixed string is read back whatever follows it.
pub proof fn lemma_field_prefix(a: Seq<u8>, b: Seq<u8>, r1: Seq<u8>, r2: Seq<u8>)
    requires
        a.len() <= u64::MAX,
        b.len() <= u64::MAX,
        field_bytes(a) + r1 == field_bytes(b) + r2,
    ensures
        a == b,
        r1 == r2,
{
    assert(field_bytes(a) + r1 =~= u64_bytes(a.len() as u64) + (a + r1));
    assert(field_bytes(b) + r2 =~= u64_bytes(b.len() as u64) + (b + r2));
    lemma_u64_prefix(a.len() as u64, b.len() as u64, a + r1, b + r2);
    lemma_cut(a, b, r1, r2);
}

/// The encodings of a sequence's items, one after another.
pub open spec fn concat_bytes<T>(s: Seq<T>, f: spec_fn(T) -> Seq<u8>) -> Seq<u8>
    decreases s.len(),
{
    if s.len() == 0 {
        Seq::empty()
    } else {
        concat_bytes(s.drop_last(), f) + f(s.last())
    }
}

/// The encoding of the first `i` items is a prefix of the whole encoding,
/// and the next item's encoding follows it.
pub proof fn lemma_concat_prefix<T>(s: Seq<T>, f: spec_fn(T) -> Seq<u8>, i: int)
    requires
        0 <= i < s.len(),
    ensures
        concat_bytes(s.take(i + 1), f) == concat_bytes(s.take(i), f) + f(s[i]),
        concat_bytes(s.take(i + 1), f).len() <= concat_bytes(s, f).len(),
        concat_bytes(s, f).subrange(0, concat_bytes(s.take(i + 1), f).len() as int)
            == concat_bytes(s.take(i + 1), f),
    decreases s.len() - i,
{
    assert(s.take(i + 1).drop_last() =~= s.take(i));
    if i + 1 == s.len() {
        assert(s.take(i + 1) =~= s);
        assert(concat_bytes(s, f).subrange(0, concat_bytes(s, f).len() as int) =~= concat_bytes(s, f));
    } else {
        lemma_concat_prefix(s, f, i + 1);
        let a = concat_bytes(s.take(i + 1), f);
        let b = concat_bytes(s.take(i + 2), f);
        assert(b.subrange(0, a.len() as int) =~= a);
        assert(concat_bytes(s, f).subrange(0, a.len() as int) =~= b.subrange(0, a.len() as int));
    }
}

/// The encoding of two sequences one after the other.
pub proof fn lemma_concat_append<T>(a: Seq<T>, b: Seq<T>, f: spec_fn(T) -> Seq<u8>)
    ensures
        concat_bytes(a + b, f) == concat_bytes(a, f) + concat_bytes(b, f),
    decreases b.len(),
{
    if b.len() == 0 {
        assert(a + b =~= a);
        assert(concat_bytes(a, f) + concat_bytes(b, f) =~= concat_bytes(a, f));
    } else {
        lemma_concat_append(a, b.drop_last(), f);
        assert((a + b).drop_last() =~= a + b.drop_last());
        assert((a + b).last() == b.last());
        assert(concat_bytes(a + b, f) =~= concat_bytes(a, f) + concat_bytes(b, f));
    }
}

/// The encoding of a sequence, cut around its item `i`.
pub proof fn lemma_concat_split_at<T>(s: Seq<T>, f: spec_fn(T) -> Seq<u8>, i: int)
    requires
        0 <= i < s.len(),
    ensures
        concat_bytes(s, f) == concat_bytes(s.take(i), f) + (f(s[i]) + concat_bytes(s.skip(i + 1), f)),
{
    let one = seq![s[i]];
    assert(s =~= s.take(i) + (one + s.skip(i + 1)));
    lemma_concat_append(s.take(i), one + s.skip(i + 1), f);
    lemma_concat_append(one, s.skip(i + 1), f);
    assert(one.drop_last() =~= Seq::<T>::empty());
    assert(concat_bytes(one.drop_last(), f) == Seq::<u8>::empty());
    assert(one.last() == s[i]);
    assert(concat_bytes(one, f) =~= f(s[i]));
}

/// Sequences of one length whose encodings are equal up to what follows
/// them, under a prefix-free item encoding, agree item by item.
pub proof fn lemma_concat_prefix_free<T>(
    s: Seq<T>,
    t: Seq<T>,
    f: spec_fn(T) -> Seq<u8>,
    r1: Seq<u8>,
    r2: Seq<u8>,
)
    requires
        prefix_free(f),
        s.len() == t.len(),
        concat_bytes(s, f) + r1 == concat_bytes(t, f) + r2,
    ensures
        concat_bytes(s, f) == concat_bytes(t, f),
        r1 == r2,
        forall|i: int| 0 <= i < s.len() ==> f(#[trigger] s[i]) == f(t[i]),
    decreases s.len(),
{
    if s.len() == 0 {
        assert(concat_bytes(s, f) + r1 =~= r1);
        assert(concat_bytes(t, f) + r2 =~= r2);
    } else {
        lemma_concat_split_at(s, f, 0);
        lemma_concat_split_at(t, f, 0);
        assert(s.take(0) =~= Seq::<T>::empty());
        assert(t.take(0) =~= Seq::<T>::empty());
        assert(concat_bytes(s.take(0), f) == Seq::<u8>::empty());
        assert(concat_bytes(t.take(0), f) == Seq::<u8>::empty());
        let xs = concat_bytes(s.skip(1), f) + r1;
        let xt = concat_bytes(t.skip(1), f) + r2;
        assert(concat_bytes(s, f) + r1 =~= f(s[0]) + xs);
        assert(concat_bytes(t, f) + r2 =~= f(t[0]) + xt);
        assert(f(s[0]) == f(t[0]));
        lemma_cut(f(s[0]), f(t[0]), xs, xt);
        lemma_concat_prefix_free(s.skip(1), t.skip(1), f, r1, r2);
        assert forall|i: int| 0 <= i < s.len() implies f(#[trigger] s[i]) == f(t[i]) by {
            if i > 0 {
                assert(s.skip(1)[i - 1] == s[i]);
                assert(t.skip(1)[i - 1] == t[i]);
            }
        }
        assert(concat_bytes(s, f) =~= f(s[0]) + concat_bytes(s.skip(1), f));
        assert(concat_bytes(t, f) =~= f(t[0]) + concat_bytes(t.skip(1), f));
    }
}

/// When every item takes at least eight bytes, so does each item of the whole.
pub proof fn lemma_concat_len<T>(s: Seq<T>, f: spec_fn(T) -> Seq<u8>)
    requires
        forall|x: T| #[trigger] f(x).len() >= 8,
    ensures
        concat_bytes(s, f).len() >= 8 * s.len(),
    decreases s.len(),
{
    if s.len() > 0 {
        lemma_concat_len(s.drop_last(), f);
        assert(f(s.last()).len() >= 8);
    }
}

/// The encoding of a `u64` determines the number.
pub proof fn lemma_u64_bytes_injective(x: u64, y: u64)
    ensures
        u64_bytes(x).len() == 8,
        u64_bytes(x) == u64_bytes(y) ==> x == y,
{
    lemma_auto_spec_u64_to_from_le_bytes();
}

/// Appends the eight little-endian bytes of `x`.
pub fn push_u64(buf: &mut Vec<u8>, x: u64)
    ensures
        final(buf)@ == old(buf)@ + u64_bytes(x),
{
    let mut b = u64_to_le_bytes(x);
    buf.append(&mut b);
}

/// Appends a byte string preceded by its length.
pub fn push_field(buf: &mut Vec<u8>, data: &Vec<u8>)
    ensures
        final(buf)@ == old(buf)@ + field_bytes(data@),
{
    push_u64(buf, data.len() as u64);
    let mut i: usize = 0;
    let ghost start = buf@;
    while i < data.len()
        invariant
            i <= data@.len(),
            buf@ == start + data@.subrange(0, i as int),
        decreases data@.len() - i,
    {
        buf.push(data[i]);
        i = i + 1;
        assert(data@.subrange(0, i as int) == data@.subrange(0, i - 1) + seq![data@[i - 1]]);
    }
    assert(data@.subrange(0, data@.len() as int) == data@);
    assert(buf@ == old(buf)@ + (u64_bytes(data@.len() as u64) + data@));
}

/// Whether two byte strings are equal.
pub fn bytes_eq(a: &Vec<u8>, b: &Vec<u8>) -> (r: bool)
    ensures
        r == (a@ == b@),
{
    if a.len() != b.len() {
        return false;
    }
    let mut i: usize = 0;
    while i < a.len()
        invariant
            i <= a@.len(),
            a@.len() == b@.len(),
            forall|j: int| 0 <= j < i ==> a@[j] == b@[j],
        decreases a@.len() - i,
    {
        if a[i] != b[i] {
            return false;
        }
        i = i + 1;
    }
    assert(a@ =~= b@);
    true
}

/// A copy of a byte string.
pub fn copy_bytes(b: &Vec<u8>) -> (r: Vec<u8>)
    ensures
        r@ == b@,
{
    let mut r: Vec<u8> = Vec::new();
    let mut i: usize = 0;
    while i < b.len()
        invariant
            i <= b@.len(),
            r@ == b@.take(i as int),
        decreases b@.len() - i,
    {
        r.push(b[i]);
        i = i + 1;
        assert(r@ =~= b@.take(i as int));
    }
    assert(b@.take(b@.len() as int) =~= b@);
    r
}

/// Splitting a range of a sequence at an inner point.
pub proof fn lemma_subrange_split(s: Seq<u8>, a: int, b: int, c: int)
    requires
        0 <= a <= b <= c <= s.len(),
    ensures
        s.subrange(a, c) == s.subrange(a, b) + s.subrange(b, c),
{
    assert(s.subrange(a, c) =~= s.subrange(a, b) + s.subrange(b, c));
}

/// Reads a little-endian `u64` at `pos`; none when fewer than eight bytes remain.
pub fn read_u64(buf: &Vec<u8>, pos: usize) -> (r: Option<(u64, usize)>)
    ensures
        match r {
            Some((x, p)) => pos + 8 == p <= buf@.len() && buf@.subrange(pos as int, p as int)
                == u64_bytes(x),
            None => pos + 8 > buf@.len(),
        },
{
    if pos > buf.len() || buf.len() - pos < 8 {
        return None;
    }
    let x = u64_from_le_bytes(slice_subrange(buf.as_slice(), pos, pos + 8));
    proof {
        lemma_auto_spec_u64_to_from_le_bytes();
        assert(spec_u64_to_le_bytes(spec_u64_from_le_bytes(buf@.subrange(pos as int, pos + 8)))
            == buf@.subrange(pos as int, pos + 8));
    }
    Some((x, pos + 8))
}

/// Reads a length-prefixed byte string at `pos`. It succeeds wherever the
/// bytes at `pos` hold the encoding of some string `e`.
pub(crate) fn read_field(buf: &Vec<u8>, pos: usize, Ghost(e): Ghost<Seq<u8>>) -> (r: Option<(Vec<u8>, usize)>)
    ensures
        r is Some ==> pos <= r.unwrap().1 <= buf@.len() && buf@.subrange(
            pos as int,
            r.unwrap().1 as int,
        ) == field_bytes(r.unwrap().0@),
        pos + field_bytes(e).len() <= buf@.len() && buf@.subrange(
            pos as int,
            pos + field_bytes(e).len(),
        ) == field_bytes(e) ==> r is Some && r.unwrap().1 == pos + field_bytes(e).len(),
{
    proof {
        lemma_auto_spec_u64_to_from_le_bytes();
        let fe = field_bytes(e);
        if pos + fe.len() <= buf@.len() && buf@.subrange(pos as int, pos + fe.len()) == fe {
            assert(buf@.subrange(pos as int, pos + 8) =~= fe.subrange(0, 8));
            assert(fe.subrange(0, 8) =~= u64_bytes(e.len() as u64));
        }
    }
    let (n, p) = match read_u64(buf, pos) {
        Some(v) => v,
        None => return None,
    };
    proof {
        lemma_u64_bytes_injective(n, e.len() as u64);
    }
    if n > (buf.len() - p) as u64 {
        return None;
    }
    let end = p + n as usize;
    let v = slice_to_vec(slice_subrange(buf.as_slice(), p, end));
    proof {
        lemma_subrange_split(buf@, pos as int, p as int, end as int);
    }
    Some((v, end))
}

/// A range that holds `x + y` holds `x`, then `y`.
pub proof fn lemma_subrange_parts(buf: Seq<u8>, pos: int, x: Seq<u8>, y: Seq<u8>)
    requires
        0 <= pos,
        pos + x.len() + y.len() <= buf.len(),
        buf.subrange(pos, pos + x.len() + y.len()) == x + y,
    ensures
        buf.subrange(pos, pos + x.len()) == x,
        buf.subrange(pos + x.len(), pos + x.len() + y.len()) == y,
{
    assert(buf.subrange(pos, pos + x.len()) =~= (x + y).subrange(0, x.len() as int));
    assert(buf.subrange(pos + x.len(), pos + x.len() + y.len()) =~= (x + y).subrange(
        x.len() as int,
        (x.len() + y.len()) as int,
    ));
}

} // verus!
