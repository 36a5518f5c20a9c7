//! Little-endian integers and length-prefixed byte runs: the primitives every
//! wire encoding in this crate is built from.

use vstd::prelude::*;
use vstd::utf8::*;
use vstd::string::*;

verus! {

/// The eight little-endian bytes of `n`.
pub open spec fn u64_le(n: u64) -> Seq<u8> {
    seq![
        n as u8,
        (n >> 8) as u8,
        (n >> 16) as u8,
        (n >> 24) as u8,
        (n >> 32) as u8,
        (n >> 40) as u8,
        (n >> 48) as u8,
        (n >> 56) as u8,
    ]
}

/// The value read back from eight little-endian bytes.
pub open spec fn le_u64(b: Seq<u8>) -> u64
    recommends
        b.len() == 8,
{
    ((b[0] as u64) | ((b[1] as u64) << 8) | ((b[2] as u64) << 16) | ((b[3] as u64) << 24)
        | ((b[4] as u64) << 32) | ((b[5] as u64) << 40) | ((b[6] as u64) << 48) | ((b[7] as u64)
        << 56)) as u64
}

pub proof fn lemma_u64_le_round_trip(n: u64)
    ensures
        u64_le(n).len() == 8,
        le_u64(u64_le(n)) == n,
{
    assert(((n as u8) as u64) | ((((n >> 8) as u8) as u64) << 8) | ((((n >> 16) as u8) as u64)
        << 16) | ((((n >> 24) as u8) as u64) << 24) | ((((n >> 32) as u8) as u64) << 32) | ((((n
        >> 40) as u8) as u64) << 40) | ((((n >> 48) as u8) as u64) << 48) | ((((n >> 56) as u8)
        as u64) << 56) == n) by (bit_vector);
}

/// Reading eight bytes and writing the value back reproduces the bytes.
pub proof fn lemma_le_u64_round_trip(s: Seq<u8>)
    requires
        s.len() == 8,
    ensures
        u64_le(le_u64(s)) == s,
{
    let b0 = s[0];
    let b1 = s[1];
    let b2 = s[2];
    let b3 = s[3];
    let b4 = s[4];
    let b5 = s[5];
    let b6 = s[6];
    let b7 = s[7];
    let x = ((b0 as u64) | ((b1 as u64) << 8) | ((b2 as u64) << 16) | ((b3 as u64) << 24) | ((
    b4 as u64) << 32) | ((b5 as u64) << 40) | ((b6 as u64) << 48) | ((b7 as u64) << 56)) as u64;
    assert(x as u8 == b0 && (x >> 8) as u8 == b1 && (x >> 16) as u8 == b2 && (x >> 24) as u8 == b3
        && (x >> 32) as u8 == b4 && (x >> 40) as u8 == b5 && (x >> 48) as u8 == b6 && (x >> 56)
        as u8 == b7) by (bit_vector)
        requires
            x == ((b0 as u64) | ((b1 as u64) << 8) | ((b2 as u64) << 16) | ((b3 as u64) << 24) | ((
            b4 as u64) << 32) | ((b5 as u64) << 40) | ((b6 as u64) << 48) | ((b7 as u64) << 56))
                as u64,
    ;
    assert(u64_le(le_u64(s)) =~= s);
}

/// The two's-complement image of a signed 64-bit value.
pub open spec fn twos_of(x: i64) -> u64 {
    if x >= 0 {
        x as u64
    } else {
        (x + 0x1_0000_0000_0000_0000) as u64
    }
}

/// The signed 64-bit value behind a two's-complement image.
pub open spec fn from_twos(n: u64) -> i64 {
    if n < 0x8000_0000_0000_0000 {
        n as i64
    } else {
        (n - 0x1_0000_0000_0000_0000) as i64
    }
}

pub proof fn lemma_twos_round_trip(x: i64)
    ensures
        from_twos(twos_of(x)) == x,
{
}

pub proof fn lemma_twos_round_trip_rev(n: u64)
    ensures
        twos_of(from_twos(n)) == n,
{
}

pub fn i64_to_twos(x: i64) -> (r: u64)
    ensures
        r == twos_of(x),
{
    if x >= 0 {
        x as u64
    } else {
        (x - i64::MIN) as u64 + 0x8000_0000_0000_0000u64
    }
}

pub fn twos_to_i64(n: u64) -> (r: i64)
    ensures
        r == from_twos(n),
{
    if n < 0x8000_0000_0000_0000u64 {
        n as i64
    } else {
        ((n - 0x8000_0000_0000_0000u64) as i64) + i64::MIN
    }
}

/// Splits a concatenation sitting inside `b` back into its two halves.
pub proof fn lemma_split_concat(b: Seq<u8>, i: int, x: Seq<u8>, y: Seq<u8>)
    requires
        0 <= i,
        i + x.len() + y.len() <= b.len(),
        b.subrange(i, i + x.len() + y.len()) == x + y,
    ensures
        b.subrange(i, i + x.len()) == x,
        b.subrange(i + x.len(), i + x.len() + y.len()) == y,
{
    assert(b.subrange(i, i + x.len()) =~= (x + y).subrange(0, x.len() as int));
    assert((x + y).subrange(0, x.len() as int) =~= x);
    assert(b.subrange(i + x.len(), i + x.len() + y.len()) =~= (x + y).subrange(
        x.len() as int,
        x.len() + y.len() as int,
    ));
    assert((x + y).subrange(x.len() as int, x.len() + y.len() as int) =~= y);
}

/// A byte run on the wire: its length as eight little-endian bytes, then the
/// bytes themselves.
pub open spec fn enc_bytes(b: Seq<u8>) -> Seq<u8> {
    u64_le(b.len() as u64) + b
}

/// A string on the wire: the byte run of its UTF-8 encoding.
pub open spec fn enc_str(s: Seq<char>) -> Seq<u8> {
    enc_bytes(encode_utf8(s))
}

pub fn push_u64_le(out: &mut Vec<u8>, n: u64)
    ensures
        final(out)@ == old(out)@ + u64_le(n),
{
    out.push(n as u8);
    out.push((n >> 8) as u8);
    out.push((n >> 16) as u8);
    out.push((n >> 24) as u8);
    out.push((n >> 32) as u8);
    out.push((n >> 40) as u8);
    out.push((n >> 48) as u8);
    out.push((n >> 56) as u8);
    assert(out@ =~= old(out)@ + u64_le(n));
}

pub fn read_u64_le(b: &Vec<u8>, off: usize) -> (r: u64)
    requires
        off + 8 <= b@.len(),
    ensures
        r == le_u64(b@.subrange(off as int, off as int + 8)),
{
    let blen = b.len();
    let r: u64 = (b[off] as u64) | ((b[off + 1] as u64) << 8) | ((b[off + 2] as u64) << 16) | ((b[
        off + 3] as u64) << 24) | ((b[off + 4] as u64) << 32) | ((b[off + 5] as u64) << 40) | ((b[
        off + 6] as u64) << 48) | ((b[off + 7] as u64) << 56);
    proof {
        let s = b@.subrange(off as int, off as int + 8);
        assert(s[0] == b@[off as int]);
        assert(s[7] == b@[off as int + 7]);
    }
    r
}

/// Appends the raw bytes of `b` to `out`.
pub fn push_raw(out: &mut Vec<u8>, b: &Vec<u8>)
    ensures
        final(out)@ == old(out)@ + b@,
{
    let mut i: usize = 0;
    while i < b.len()
        invariant
            i <= b@.len(),
            out@ == old(out)@ + b@.subrange(0, i as int),
        decreases b@.len() - i,
    {
        out.push(b[i]);
        i = i + 1;
        assert(out@ =~= old(out)@ + b@.subrange(0, i as int));
    }
    assert(out@ =~= old(out)@ + b@);
}

/// Appends a length-prefixed byte run to `out`.
pub fn push_len_bytes(out: &mut Vec<u8>, b: &Vec<u8>)
    ensures
        final(out)@ == old(out)@ + enc_bytes(b@),
{
    push_u64_le(out, b.len() as u64);
    push_raw(out, b);
    assert(out@ =~= old(out)@ + enc_bytes(b@));
}

/// Appends a length-prefixed string run to `out`.
pub fn push_str_run(out: &mut Vec<u8>, s: &str)
    ensures
        final(out)@ == old(out)@ + enc_str(s@),
{
    let bytes = s.as_bytes_vec();
    push_len_bytes(out, &bytes);
}

/// Copies `b[off..end]` out as a fresh vector.
pub fn copy_range(b: &Vec<u8>, off: usize, end: usize) -> (r: Vec<u8>)
    requires
        off <= end <= b@.len(),
    ensures
        r@ == b@.subrange(off as int, end as int),
{
    let mut out: Vec<u8> = Vec::new();
    let mut i: usize = off;
    while i < end
        invariant
            off <= i <= end <= b@.len(),
            out@ == b@.subrange(off as int, i as int),
        decreases end - i,
    {
        out.push(b[i]);
        i = i + 1;
        assert(out@ =~= b@.subrange(off as int, i as int));
    }
    out
}

/// Relies on String::from_utf8: `Some` exactly on valid UTF-8, decoding it.
#[verifier::external_body]
pub fn string_from_utf8(v: Vec<u8>) -> (r: Option<String>)
    ensures
        r is Some <==> valid_utf8(v@),
        r matches Some(s) ==> s@ == decode_utf8(v@),
{
    String::from_utf8(v).ok()
}

/// Reads a length-prefixed byte run starting at `off`; `Some` holds the run
/// and the offset just past it.
pub fn read_len_bytes(b: &Vec<u8>, off: usize) -> (r: Option<(Vec<u8>, usize)>)
    requires
        off <= b@.len(),
    ensures
        r matches Some(p) ==> {
            &&& off + 8 <= p.1 <= b@.len()
            &&& b@.subrange(off as int, p.1 as int) == enc_bytes(p.0@)
        },
        forall|bs: Seq<u8>|
            off + 8 + bs.len() <= b@.len() && b@.subrange(
                off as int,
                off + 8 + bs.len() as int,
            ) == #[trigger] enc_bytes(bs) ==> {
                &&& r matches Some(p)
                &&& p.0@ == bs
                &&& p.1 == off + 8 + bs.len()
            },
{
    if b.len() - off < 8 {
        proof {
            assert forall|bs: Seq<u8>|
                off + 8 + bs.len() <= b@.len() && b@.subrange(off as int, off + 8 + bs.len() as int)
                    == #[trigger] enc_bytes(bs) implies false by {}
        }
        return None;
    }
    let n = read_u64_le(b, off);
    if n > (b.len() - off - 8) as u64 {
        proof {
            assert forall|bs: Seq<u8>|
                off + 8 + bs.len() <= b@.len() && b@.subrange(off as int, off + 8 + bs.len() as int)
                    == #[trigger] enc_bytes(bs) implies false by {
                lemma_len_prefix_agrees(b@, off as int, bs);
                lemma_u64_le_round_trip(bs.len() as u64);
            }
        }
        return None;
    }
    let end = off + 8 + (n as usize);
    let run = copy_range(b, off + 8, end);
    proof {
        lemma_u64_le_round_trip(run@.len() as u64);
        lemma_le_u64_round_trip(b@.subrange(off as int, off as int + 8));
        assert(b@.subrange(off as int, off as int + 8) == u64_le(n));
        assert(b@.subrange(off as int, end as int) =~= enc_bytes(run@));
        assert forall|bs: Seq<u8>|
            off + 8 + bs.len() <= b@.len() && b@.subrange(off as int, off + 8 + bs.len() as int)
                == #[trigger] enc_bytes(bs) implies run@ == bs && end == off + 8 + bs.len() by {
            lemma_len_prefix_agrees(b@, off as int, bs);
            lemma_u64_le_round_trip(bs.len() as u64);
            assert(bs =~= b@.subrange(off + 8, off + 8 + bs.len() as int));
        }
    }
    Some((run, end))
}

/// If an encoded run sits at `off` in `b`, the eight bytes at `off` are the
/// little-endian length of that run.
proof fn lemma_len_prefix_agrees(b: Seq<u8>, off: int, bs: Seq<u8>)
    requires
        0 <= off,
        off + 8 + bs.len() <= b.len(),
        b.subrange(off, off + 8 + bs.len() as int) == enc_bytes(bs),
    ensures
        b.subrange(off, off + 8) == u64_le(bs.len() as u64),
        b.subrange(off + 8, off + 8 + bs.len() as int) == bs,
{
    let whole = b.subrange(off, off + 8 + bs.len() as int);
    assert(b.subrange(off, off + 8) =~= whole.subrange(0, 8));
    assert(whole.subrange(0, 8) =~= u64_le(bs.len() as u64));
    assert(b.subrange(off + 8, off + 8 + bs.len() as int) =~= whole.subrange(
        8,
        8 + bs.len() as int,
    ));
    assert(whole.subrange(8, 8 + bs.len() as int) =~= bs);
}

/// Reads a length-prefixed string run starting at `off`.
pub fn read_str_run(b: &Vec<u8>, off: usize) -> (r: Option<(String, usize)>)
    requires
        off <= b@.len(),
    ensures
        r matches Some(p) ==> {
            &&& off + 8 <= p.1 <= b@.len()
            &&& b@.subrange(off as int, p.1 as int) == enc_str(p.0@)
        },
        forall|sv: Seq<char>|
            off + enc_str(sv).len() <= b@.len() && b@.subrange(
                off as int,
                off + enc_str(sv).len() as int,
            ) == #[trigger] enc_str(sv) ==> {
                &&& r matches Some(p)
                &&& p.0@ == sv
                &&& p.1 == off + enc_str(sv).len()
            },
{
    broadcast use vstd::utf8::encode_utf8_valid_utf8, vstd::utf8::encode_utf8_decode_utf8, vstd::utf8::decode_utf8_encode_utf8;

    let run = read_len_bytes(b, off);
    match run {
        None => {
            proof {
                assert forall|sv: Seq<char>|
                    off + enc_str(sv).len() <= b@.len() && b@.subrange(
                        off as int,
                        off + enc_str(sv).len() as int,
                    ) == #[trigger] enc_str(sv) implies false by {
                    assert(enc_str(sv) == enc_bytes(encode_utf8(sv)));
                }
            }
            None
        },
        Some((bytes, end)) => {
            let ghost bytes_view = bytes@;
            match string_from_utf8(bytes) {
                None => {
                    proof {
                        assert forall|sv: Seq<char>|
                            off + enc_str(sv).len() <= b@.len() && b@.subrange(
                                off as int,
                                off + enc_str(sv).len() as int,
                            ) == #[trigger] enc_str(sv) implies false by {
                            assert(enc_str(sv) == enc_bytes(encode_utf8(sv)));
                            assert(bytes_view == encode_utf8(sv));
                        }
                    }
                    None
                },
                Some(s) => {
                    proof {
                        assert(b@.subrange(off as int, end as int) == enc_bytes(bytes_view));
                        assert(encode_utf8(s@) == bytes_view);
                        assert forall|sv: Seq<char>|
                            off + enc_str(sv).len() <= b@.len() && b@.subrange(
                                off as int,
                                off + enc_str(sv).len() as int,
                            ) == #[trigger] enc_str(sv) implies s@ == sv && end == off + enc_str(
                            sv,
                        ).len() by {
                            assert(enc_str(sv) == enc_bytes(encode_utf8(sv)));
                            assert(bytes_view == encode_utf8(sv));
                            assert(decode_utf8(encode_utf8(sv)) == sv);
                        }
                    }
                    Some((s, end))
                },
            }
        },
    }
}

} // verus!
