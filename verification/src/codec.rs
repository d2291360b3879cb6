//! Batch decoding and encoding: a byte buffer whose length is an exact
//! multiple of a record shape's wire size holds that many records, back to
//! back, in producer emission order.

use crate::records::FromBytes;
use vstd::arithmetic::div_mod::{lemma_mod_sub_multiples_vanish, lemma_small_mod};
use vstd::prelude::*;
use vstd::slice::slice_subrange;

verus! {

/// The records held by a byte buffer, first chunk first. Trailing bytes that
/// do not fill a whole record are ignored; callers reject such buffers before
/// decoding.
pub open spec fn spec_decode_batch<T: FromBytes>(b: Seq<u8>) -> Seq<T>
    decreases b.len(),
{
    if T::spec_size() <= 0 || b.len() < T::spec_size() {
        Seq::empty()
    } else {
        seq![T::spec_from_bytes(b.take(T::spec_size()))] + spec_decode_batch::<T>(
            b.skip(T::spec_size()),
        )
    }
}

/// The wire bytes of a sequence of records, concatenated in order.
pub open spec fn spec_encode_batch<T: FromBytes>(rs: Seq<T>) -> Seq<u8>
    decreases rs.len(),
{
    if rs.len() == 0 {
        Seq::empty()
    } else {
        rs[0].spec_to_bytes() + spec_encode_batch::<T>(rs.skip(1))
    }
}

/// A buffer whose length is an exact multiple of the wire size decodes to
/// records that re-encode, field for field, to exactly the original buffer.
pub proof fn lemma_decode_then_encode_is_identity<T: FromBytes>(b: Seq<u8>)
    requires
        b.len() as int % T::spec_size() == 0,
    ensures
        spec_encode_batch::<T>(spec_decode_batch::<T>(b)) == b,
    decreases b.len(),
{
    T::lemma_size_positive();
    let sz = T::spec_size();
    if b.len() == 0 {
        assert(spec_encode_batch::<T>(spec_decode_batch::<T>(b)) =~= b);
    } else {
        if b.len() < sz {
            lemma_small_mod(b.len(), sz as nat);
            assert(false);
        }
        let head = b.take(sz);
        let tail = b.skip(sz);
        lemma_mod_sub_multiples_vanish(b.len() as int, sz);
        assert(tail.len() as int % sz == 0);
        lemma_decode_then_encode_is_identity::<T>(tail);
        T::lemma_bytes_round_trip(head);
        let decoded = spec_decode_batch::<T>(b);
        assert(decoded == seq![T::spec_from_bytes(head)] + spec_decode_batch::<T>(tail));
        assert(decoded.len() > 0);
        assert(decoded[0] == T::spec_from_bytes(head));
        assert(decoded.skip(1) =~= spec_decode_batch::<T>(tail));
        assert(spec_encode_batch::<T>(decoded) =~= head + spec_encode_batch::<T>(
            spec_decode_batch::<T>(tail),
        ));
        assert(spec_encode_batch::<T>(decoded) =~= b);
    }
}

/// Decode a buffer into the batch of records it holds.
pub fn decode_batch<T: FromBytes>(buf: &[u8]) -> (r: Vec<T>)
    requires
        buf@.len() as int % T::spec_size() == 0,
    ensures
        r@ == spec_decode_batch::<T>(buf@),
{
    proof {
        T::lemma_size_positive();
    }
    let sz = T::wire_size();
    let n = buf.len();
    let mut r: Vec<T> = Vec::new();
    let mut off: usize = 0;
    proof {
        assert(buf@.skip(0) =~= buf@);
        assert(r@ + spec_decode_batch::<T>(buf@) =~= spec_decode_batch::<T>(buf@));
    }
    while off < n
        invariant
            sz as int == T::spec_size(),
            0 < sz,
            n == buf@.len(),
            off <= n,
            off as int % sz as int == 0,
            n as int % sz as int == 0,
            spec_decode_batch::<T>(buf@) =~= r@ + spec_decode_batch::<T>(buf@.skip(off as int)),
        decreases n - off,
    {
        proof {
            lemma_mod_sub_multiples_vanish((n - off) as int, sz as int);
            // off and n are both multiples of sz, so their positive difference
            // is at least sz.
            if n - off < sz {
                lemma_small_mod((n - off) as nat, sz as nat);
                assert((n - off) as int % sz as int != 0);
                lemma_mod_diff_zero(n as int, off as int, sz as int);
                assert(false);
            }
            assert(off + sz <= n);
        }
        let chunk = slice_subrange(buf, off, off + sz);
        let rec = T::from_bytes(chunk);
        r.push(rec);
        proof {
            let tail = buf@.skip(off as int);
            assert(tail.take(sz as int) =~= buf@.subrange(off as int, off as int + sz as int));
            assert(tail.skip(sz as int) =~= buf@.skip(off as int + sz as int));
            assert(spec_decode_batch::<T>(tail) == seq![T::spec_from_bytes(chunk@)]
                + spec_decode_batch::<T>(buf@.skip(off as int + sz as int)));
            lemma_mod_add_multiple(off as int, sz as int);
        }
        off = off + sz;
    }
    proof {
        assert(buf@.skip(n as int) =~= Seq::<u8>::empty());
        assert(spec_decode_batch::<T>(Seq::<u8>::empty()) =~= Seq::<T>::empty());
        assert(r@ =~= spec_decode_batch::<T>(buf@));
    }
    r
}

/// Both `x` and `y` being multiples of `m` makes their difference one too.
proof fn lemma_mod_diff_zero(x: int, y: int, m: int)
    requires
        m > 0,
        x % m == 0,
        y % m == 0,
        y <= x,
    ensures
        (x - y) % m == 0,
{
    let qx = x / m;
    let qy = y / m;
    vstd::arithmetic::div_mod::lemma_fundamental_div_mod(x, m);
    vstd::arithmetic::div_mod::lemma_fundamental_div_mod(y, m);
    assert(x - y == (qx - qy) * m) by {
        assert(x == qx * m);
        assert(y == qy * m);
        assert(qx * m - qy * m == (qx - qy) * m) by (nonlinear_arith);
    }
    vstd::arithmetic::div_mod::lemma_mod_multiples_basic(qx - qy, m);
}

/// Adding one multiple of `m` to a multiple of `m` stays a multiple.
proof fn lemma_mod_add_multiple(x: int, m: int)
    requires
        m > 0,
        x % m == 0,
    ensures
        (x + m) % m == 0,
{
    vstd::arithmetic::div_mod::lemma_mod_add_multiples_vanish(x, m);
}

/// Encode a batch of records into one contiguous buffer.
pub fn encode_batch<T: FromBytes>(records: &Vec<T>) -> (out: Vec<u8>)
    ensures
        out@ == spec_encode_batch::<T>(records@),
{
    let mut out: Vec<u8> = Vec::new();
    let mut i: usize = 0;
    proof {
        assert(records@.skip(0) =~= records@);
        assert(out@ + spec_encode_batch::<T>(records@) =~= spec_encode_batch::<T>(records@));
    }
    while i < records.len()
        invariant
            i <= records@.len(),
            spec_encode_batch::<T>(records@) =~= out@ + spec_encode_batch::<T>(
                records@.skip(i as int),
            ),
        decreases records@.len() - i,
    {
        let mut b = (&records[i]).to_bytes();
        out.append(&mut b);
        proof {
            let tail = records@.skip(i as int);
            assert(tail[0] == records@[i as int]);
            assert(tail.skip(1) =~= records@.skip(i as int + 1));
            assert(spec_encode_batch::<T>(tail) == records@[i as int].spec_to_bytes()
                + spec_encode_batch::<T>(records@.skip(i as int + 1)));
        }
        i = i + 1;
    }
    proof {
        assert(records@.skip(records@.len() as int) =~= Seq::<T>::empty());
        assert(out@ =~= spec_encode_batch::<T>(records@));
    }
    out
}

} // verus!
