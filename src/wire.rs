use vstd::prelude::*;

verus! {

/// Eight bytes, most significant first.
pub open spec fn be8(x: u64) -> Seq<u8> {
    seq![
        (x >> 56u64) as u8, (x >> 48u64) as u8, (x >> 40u64) as u8, (x >> 32u64) as u8,
        (x >> 24u64) as u8, (x >> 16u64) as u8, (x >> 8u64) as u8, x as u8,
    ]
}

/// Four bytes, most significant first.
pub open spec fn be4(x: u32) -> Seq<u8> {
    seq![(x >> 24u32) as u8, (x >> 16u32) as u8, (x >> 8u32) as u8, x as u8]
}

/// The integer held by the first eight bytes of `s`, most significant first.
pub open spec fn read_be8(s: Seq<u8>) -> u64
    recommends
        s.len() >= 8,
{
    (s[0] as u64) << 56u64 | (s[1] as u64) << 48u64 | (s[2] as u64) << 40u64 | (s[3] as u64)
        << 32u64 | (s[4] as u64) << 24u64 | (s[5] as u64) << 16u64 | (s[6] as u64) << 8u64
        | (s[7] as u64)
}

/// The integer held by the first four bytes of `s`, most significant first.
pub open spec fn read_be4(s: Seq<u8>) -> u32
    recommends
        s.len() >= 4,
{
    (s[0] as u32) << 24u32 | (s[1] as u32) << 16u32 | (s[2] as u32) << 8u32 | (s[3] as u32)
}

/// A byte string prefixed by its length.
pub open spec fn field(b: Seq<u8>) -> Seq<u8> {
    be8(b.len() as u64) + b
}

/// Splits an eight-byte integer off the front of `s`.
pub open spec fn take_u64(s: Seq<u8>) -> Option<(u64, Seq<u8>)> {
    if s.len() < 8 {
        None
    } else {
        Some((read_be8(s), s.skip(8)))
    }
}

/// Splits a length-prefixed byte string off the front of `s`.
pub open spec fn take_field(s: Seq<u8>) -> Option<(Seq<u8>, Seq<u8>)> {
    match take_u64(s) {
        None => None,
        Some((n, rest)) => if n <= rest.len() {
            Some((rest.take(n as int), rest.skip(n as int)))
        } else {
            None
        },
    }
}

pub proof fn lemma_be8_bits(x: u64)
    ensures
        ((x >> 56u64) as u8 as u64) << 56u64 | ((x >> 48u64) as u8 as u64) << 48u64 | ((x
            >> 40u64) as u8 as u64) << 40u64 | ((x >> 32u64) as u8 as u64) << 32u64 | ((x
            >> 24u64) as u8 as u64) << 24u64 | ((x >> 16u64) as u8 as u64) << 16u64 | ((x
            >> 8u64) as u8 as u64) << 8u64 | (x as u8 as u64) == x,
{
    assert(((x >> 56u64) as u8 as u64) << 56u64 | ((x >> 48u64) as u8 as u64) << 48u64 | ((x
        >> 40u64) as u8 as u64) << 40u64 | ((x >> 32u64) as u8 as u64) << 32u64 | ((x
        >> 24u64) as u8 as u64) << 24u64 | ((x >> 16u64) as u8 as u64) << 16u64 | ((x
        >> 8u64) as u8 as u64) << 8u64 | (x as u8 as u64) == x) by (bit_vector);
}

pub proof fn lemma_be4_bits(x: u32)
    ensures
        ((x >> 24u32) as u8 as u32) << 24u32 | ((x >> 16u32) as u8 as u32) << 16u32 | ((x
            >> 8u32) as u8 as u32) << 8u32 | (x as u8 as u32) == x,
{
    assert(((x >> 24u32) as u8 as u32) << 24u32 | ((x >> 16u32) as u8 as u32) << 16u32 | ((x
        >> 8u32) as u8 as u32) << 8u32 | (x as u8 as u32) == x) by (bit_vector);
}

/// Reading back eight written bytes gives the integer, whatever follows.
pub proof fn lemma_read_be8(x: u64, rest: Seq<u8>)
    ensures
        take_u64(be8(x) + rest) == Some((x, rest)),
{
    let s = be8(x) + rest;
    lemma_be8_bits(x);
    assert(s.skip(8) =~= rest);
}

/// Reading back four written bytes gives the integer, whatever follows.
pub proof fn lemma_read_be4(x: u32, rest: Seq<u8>)
    ensures
        (be4(x) + rest).len() >= 4,
        read_be4(be4(x) + rest) == x,
        (be4(x) + rest).skip(4) == rest,
{
    lemma_be4_bits(x);
    assert((be4(x) + rest).skip(4) =~= rest);
}

/// Reading back a written field gives its bytes, whatever follows.
pub proof fn lemma_take_field(b: Seq<u8>, rest: Seq<u8>)
    requires
        b.len() <= u64::MAX,
    ensures
        take_field(field(b) + rest) == Some((b, rest)),
{
    let s = field(b) + rest;
    assert(s =~= be8(b.len() as u64) + (b + rest));
    lemma_read_be8(b.len() as u64, b + rest);
    assert((b + rest).take(b.len() as int) =~= b);
    assert((b + rest).skip(b.len() as int) =~= rest);
}

/// Appends eight bytes of `x`, most significant first.
pub fn push_be8(out: &mut Vec<u8>, x: u64)
    ensures
        final(out)@ == old(out)@ + be8(x),
{
    out.push((x >> 56u64) as u8);
    out.push((x >> 48u64) as u8);
    out.push((x >> 40u64) as u8);
    out.push((x >> 32u64) as u8);
    out.push((x >> 24u64) as u8);
    out.push((x >> 16u64) as u8);
    out.push((x >> 8u64) as u8);
    out.push(x as u8);
    assert(final(out)@ =~= old(out)@ + be8(x));
}

/// Appends four bytes of `x`, most significant first.
pub fn push_be4(out: &mut Vec<u8>, x: u32)
    ensures
        final(out)@ == old(out)@ + be4(x),
{
    out.push((x >> 24u32) as u8);
    out.push((x >> 16u32) as u8);
    out.push((x >> 8u32) as u8);
    out.push(x as u8);
    assert(final(out)@ =~= old(out)@ + be4(x));
}

/// Appends `b` prefixed by its length.
pub fn push_field(out: &mut Vec<u8>, b: &[u8])
    ensures
        final(out)@ == old(out)@ + field(b@),
{
    push_be8(out, b.len() as u64);
    let ghost start = out@;
    let mut i: usize = 0;
    while i < b.len()
        invariant
            i <= b.len(),
            out@ == start + b@.take(i as int),
        decreases b.len() - i,
    {
        out.push(b[i]);
        i += 1;
        assert(out@ =~= start + b@.take(i as int));
    }
    assert(b@.take(b.len() as int) =~= b@);
    assert(out@ =~= old(out)@ + field(b@));
}

/// Reads the eight-byte integer at `pos`, if eight bytes are left there.
pub fn read_u64_at(b: &[u8], pos: usize) -> (r: Option<(u64, usize)>)
    requires
        pos <= b.len(),
    ensures
        match r {
            None => take_u64(b@.skip(pos as int)) is None,
            Some((x, next)) => next <= b.len() && take_u64(b@.skip(pos as int)) == Some(
                (x, b@.skip(next as int)),
            ),
        },
{
    if b.len() - pos < 8 {
        return None;
    }
    let x: u64 = (b[pos] as u64) << 56u64 | (b[pos + 1] as u64) << 48u64 | (b[pos + 2] as u64)
        << 40u64 | (b[pos + 3] as u64) << 32u64 | (b[pos + 4] as u64) << 24u64 | (b[pos
        + 5] as u64) << 16u64 | (b[pos + 6] as u64) << 8u64 | (b[pos + 7] as u64);
    let ghost s = b@.skip(pos as int);
    assert(s.skip(8) =~= b@.skip(pos + 8));
    Some((x, pos + 8))
}

/// Reads the length-prefixed byte string at `pos`, if it is whole.
pub fn read_field_at(b: &[u8], pos: usize) -> (r: Option<(Vec<u8>, usize)>)
    requires
        pos <= b.len(),
    ensures
        match r {
            None => take_field(b@.skip(pos as int)) is None,
            Some((v, next)) => next <= b.len() && take_field(b@.skip(pos as int)) == Some(
                (v@, b@.skip(next as int)),
            ),
        },
{
    let (n, start): (u64, usize) = match read_u64_at(b, pos) {
        None => return None,
        Some(p) => p,
    };
    if n > (b.len() - start) as u64 {
        return None;
    }
    let end: usize = start + n as usize;
    let mut v: Vec<u8> = Vec::new();
    let mut i: usize = start;
    while i < end
        invariant
            start <= i <= end <= b.len(),
            v@ == b@.subrange(start as int, i as int),
        decreases end - i,
    {
        v.push(b[i]);
        i += 1;
        assert(v@ =~= b@.subrange(start as int, i as int));
    }
    let ghost rest = b@.skip(start as int);
    assert(rest.take(n as int) =~= v@);
    assert(rest.skip(n as int) =~= b@.skip(end as int));
    Some((v, end))
}

} // verus!
