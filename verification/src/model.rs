//! The mathematical model of a byte stream.
//!
//! A store, and the logical stream a cache presents over it, are both modelled
//! as a `Seq<u8>` together with a position.  Reading past the end of the
//! sequence yields the fill byte zero; writing past the end first fills the
//! gap with zero and then lays the data down.  The same two functions,
//! `read_at` and `write_at`, describe direct access to a store and access
//! through the cache: the cache is an identity byte mapping.

use vstd::prelude::*;

verus! {

use vstd::arithmetic::div_mod::lemma_div_pos_is_pos;
use vstd::arithmetic::div_mod::lemma_fundamental_div_mod;
use vstd::arithmetic::div_mod::lemma_fundamental_div_mod_converse_div;
use vstd::arithmetic::div_mod::lemma_mod_division_less_than_divisor;
use vstd::arithmetic::div_mod::lemma_mod_multiples_basic;
use vstd::arithmetic::mul::lemma_mul_is_commutative;
use vstd::arithmetic::mul::lemma_mul_nonnegative;

/// The byte at position `i` of `s`, or the fill byte zero anywhere else.
pub open spec fn byte_at(s: Seq<u8>, i: int) -> u8 {
    if 0 <= i < s.len() {
        s[i]
    } else {
        0
    }
}

/// The stream after `data` lands at position `pos`: bytes inside the window
/// come from `data`, bytes outside it keep their value, and a gap between the
/// old end and `pos` fills with zero.  Writing nothing changes nothing.
pub open spec fn write_at(s: Seq<u8>, pos: int, data: Seq<u8>) -> Seq<u8> {
    if data.len() == 0 {
        s
    } else {
        let n = if s.len() >= pos + data.len() {
            s.len() as int
        } else {
            pos + data.len()
        };
        Seq::new(
            n as nat,
            |i: int|
                if pos <= i < pos + data.len() {
                    data[i - pos]
                } else {
                    byte_at(s, i)
                },
        )
    }
}

/// The `n` bytes of the stream from position `pos` on, zero past the end.
pub open spec fn read_at(s: Seq<u8>, pos: int, n: int) -> Seq<u8> {
    Seq::new(n as nat, |i: int| byte_at(s, pos + i))
}

/// The first position of the size-`sz` aligned chunk that holds position `i`.
pub open spec fn chunk_start(i: int, sz: int) -> int {
    (i / sz) * sz
}

/// Whether `n` is a power of two.
pub open spec fn is_power_of_two(n: int) -> bool
    decreases n,
{
    if n <= 0 {
        false
    } else if n == 1 {
        true
    } else {
        n % 2 == 0 && is_power_of_two(n / 2)
    }
}

/// A chunk start is aligned, lies at or before its member, and its chunk
/// covers the member.
pub proof fn lemma_chunk_start(i: int, sz: int)
    requires
        sz >= 1,
        0 <= i,
    ensures
        chunk_start(i, sz) % sz == 0,
        0 <= chunk_start(i, sz) <= i < chunk_start(i, sz) + sz,
{
    lemma_fundamental_div_mod(i, sz);
    lemma_mod_division_less_than_divisor(i, sz);
    lemma_div_pos_is_pos(i, sz);
    lemma_mul_nonnegative(i / sz, sz);
    lemma_mul_is_commutative(i / sz, sz);
    lemma_mod_multiples_basic(i / sz, sz);
}

/// Every position of an aligned chunk has that chunk's start.
pub proof fn lemma_chunk_start_of_member(i: int, cs: int, sz: int)
    requires
        sz >= 1,
        0 <= cs,
        cs % sz == 0,
        cs <= i < cs + sz,
    ensures
        chunk_start(i, sz) == cs,
{
    lemma_fundamental_div_mod(cs, sz);
    lemma_mul_is_commutative(cs / sz, sz);
    assert(cs == (cs / sz) * sz);
    lemma_fundamental_div_mod_converse_div(i, sz, cs / sz, i - cs);
    lemma_mul_is_commutative(i / sz, sz);
}

/// Two distinct aligned chunks cover disjoint position ranges.
pub proof fn lemma_distinct_chunks_disjoint(s1: int, s2: int, sz: int, i: int)
    requires
        sz >= 1,
        0 <= s1,
        0 <= s2,
        s1 % sz == 0,
        s2 % sz == 0,
        s1 != s2,
        s1 <= i < s1 + sz,
    ensures
        !(s2 <= i < s2 + sz),
{
    if s2 <= i < s2 + sz {
        lemma_chunk_start_of_member(i, s1, sz);
        lemma_chunk_start_of_member(i, s2, sz);
    }
}

/// What each byte of `write_at(s, pos, data)` is, at any position at all.
pub proof fn lemma_byte_at_write_at(s: Seq<u8>, pos: int, data: Seq<u8>, i: int)
    requires
        0 <= pos,
    ensures
        byte_at(write_at(s, pos, data), i) == if pos <= i < pos + data.len() {
            data[i - pos]
        } else {
            byte_at(s, i)
        },
{
}

/// Writing takes a stream of length `l` to one of length `max(l, pos + |data|)`,
/// except that writing nothing leaves the length alone.
pub proof fn lemma_write_at_len(s: Seq<u8>, pos: int, data: Seq<u8>)
    requires
        0 <= pos,
    ensures
        data.len() > 0 ==> write_at(s, pos, data).len() == if s.len() >= pos + data.len() {
            s.len() as int
        } else {
            pos + data.len()
        },
        data.len() == 0 ==> write_at(s, pos, data) == s,
{
}

/// Zero-extending a stream changes no byte anywhere: the appended bytes are
/// the fill value that already lay past the end.
pub proof fn lemma_byte_at_zero_ext(s: Seq<u8>, e: int, x: int)
    requires
        s.len() <= e,
    ensures
        byte_at(read_at(s, 0, e), x) == byte_at(s, x),
{
}

/// Zero-extending twice is zero-extending once, to the further end.
pub proof fn lemma_zero_ext_compose(s: Seq<u8>, e1: int, e2: int)
    requires
        s.len() <= e1 <= e2,
    ensures
        read_at(read_at(s, 0, e1), 0, e2) == read_at(s, 0, e2),
{
    assert forall|i: int| 0 <= i < e2 implies read_at(read_at(s, 0, e1), 0, e2)[i] == read_at(
        s,
        0,
        e2,
    )[i] by {
        lemma_byte_at_zero_ext(s, e1, i);
    }
    assert(read_at(read_at(s, 0, e1), 0, e2) =~= read_at(s, 0, e2));
}

/// Round trip: reading back a write, from the position it went to and for its
/// length, returns exactly the bytes written.
pub proof fn lemma_round_trip(s: Seq<u8>, pos: int, data: Seq<u8>)
    requires
        0 <= pos,
    ensures
        read_at(write_at(s, pos, data), pos, data.len() as int) == data,
{
    let r = read_at(write_at(s, pos, data), pos, data.len() as int);
    assert forall|i: int| 0 <= i < data.len() implies r[i] == data[i] by {
        lemma_byte_at_write_at(s, pos, data, pos + i);
    }
    assert(r =~= data);
}

/// Extension: a write past the current end fills the gap with zero and grows
/// the stream to exactly cover the write; reading the gap afterwards returns
/// the fill value.
pub proof fn lemma_extension(s: Seq<u8>, pos: int, data: Seq<u8>)
    requires
        s.len() <= pos,
        1 <= data.len(),
    ensures
        write_at(s, pos, data).len() == pos + data.len(),
        forall|i: int| s.len() <= i < pos ==> write_at(s, pos, data)[i] == 0,
        read_at(write_at(s, pos, data), s.len() as int, pos - s.len()) =~= Seq::new(
            (pos - s.len()) as nat,
            |i: int| 0u8,
        ),
{
    assert forall|i: int| s.len() <= i < pos implies write_at(s, pos, data)[i] == 0 by {
        lemma_byte_at_write_at(s, pos, data, i);
    }
}

/// Two writes laid down back to back are one write of the concatenation.
pub proof fn lemma_write_at_append(s: Seq<u8>, pos: int, d1: Seq<u8>, d2: Seq<u8>)
    requires
        0 <= pos,
    ensures
        write_at(write_at(s, pos, d1), pos + d1.len(), d2) == write_at(s, pos, d1 + d2),
{
    let lhs = write_at(write_at(s, pos, d1), pos + d1.len(), d2);
    let rhs = write_at(s, pos, d1 + d2);
    if d1.len() == 0 && d2.len() == 0 {
        assert(d1 + d2 =~= d1);
        assert(lhs =~= rhs);
    } else {
        assert((d1 + d2).len() == d1.len() + d2.len());
        assert forall|i: int| true implies byte_at(lhs, i) == byte_at(rhs, i) by {
            lemma_byte_at_write_at(write_at(s, pos, d1), pos + d1.len(), d2, i);
            lemma_byte_at_write_at(s, pos, d1, i);
            lemma_byte_at_write_at(s, pos, d1 + d2, i);
        }
        assert(lhs.len() == rhs.len()) by {
            lemma_write_at_len(s, pos, d1);
            lemma_write_at_len(write_at(s, pos, d1), pos + d1.len(), d2);
            lemma_write_at_len(s, pos, d1 + d2);
        }
        assert forall|i: int| 0 <= i < lhs.len() implies lhs[i] == rhs[i] by {
            assert(byte_at(lhs, i) == byte_at(rhs, i));
        }
        assert(lhs =~= rhs);
    }
}

} // verus!
