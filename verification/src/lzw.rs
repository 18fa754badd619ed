//! The LZW-coded image data of a GIF frame.
//!
//! The encoder emits a valid GIF LZW code stream in its simplest form: a
//! clear code, then the pixel indices as literal codes, with a further clear
//! code inserted before the decoder's dictionary would force a wider code,
//! and an end-of-information code at the end. Every code is therefore
//! `min_code_size + 1` bits wide. The stream favors simplicity over
//! compression ratio; any conforming decoder accepts it. Codes are packed
//! least-significant-bit first and framed into data sub-blocks of at most
//! 255 bytes, terminated by an empty block.

use vstd::arithmetic::power2::{
    lemma2_to64, lemma_pow2_adds, lemma_pow2_strictly_increases, pow2,
};
use vstd::prelude::*;

verus! {

/// The indices read as literal codes, in order.
pub open spec fn as_codes(indices: Seq<u8>) -> Seq<u16> {
    Seq::new(indices.len(), |i: int| indices[i] as u16)
}

/// The literal codes for `indices`, with a clear code inserted after every
/// `cap` literals (the final group carries no trailing clear code).
pub open spec fn literal_groups(indices: Seq<u8>, cap: int, clear: u16) -> Seq<u16>
    decreases indices.len(),
{
    if cap < 1 || indices.len() <= cap {
        as_codes(indices)
    } else {
        as_codes(indices.take(cap)) + seq![clear] + literal_groups(indices.skip(cap), cap, clear)
    }
}

/// The full code stream of one frame with minimum code size `m`: a leading
/// clear code, the literal groups, and the end-of-information code.
pub open spec fn code_seq(indices: Seq<u8>, m: nat) -> Seq<u16> {
    let clear = pow2(m) as u16;
    seq![clear] + literal_groups(indices, pow2(m) - 2, clear) + seq![(pow2(m) + 1) as u16]
}

/// The bytes produced by packing `codes`, each `width` bits wide,
/// least-significant-bit first, starting from a partial byte of `nbits`
/// bits holding the value `buf`; a final partial byte is zero-padded.
pub open spec fn pack_rec(codes: Seq<u16>, width: nat, buf: nat, nbits: nat) -> Seq<u8>
    decreases codes.len(), nbits,
{
    if nbits >= 8 {
        seq![(buf % 256) as u8] + pack_rec(codes, width, buf / 256, (nbits - 8) as nat)
    } else if codes.len() == 0 {
        if nbits > 0 {
            seq![(buf % 256) as u8]
        } else {
            Seq::<u8>::empty()
        }
    } else {
        pack_rec(codes.skip(1), width, buf + (codes[0] as nat) * pow2(nbits), nbits + width)
    }
}

/// The bytes produced by packing `codes` at `width` bits per code.
pub open spec fn pack(codes: Seq<u16>, width: nat) -> Seq<u8> {
    pack_rec(codes, width, 0, 0)
}

/// `bytes` framed as GIF data sub-blocks: blocks of at most 255 bytes, each
/// preceded by its length, terminated by a zero-length block.
pub open spec fn sub_blocks(bytes: Seq<u8>) -> Seq<u8>
    decreases bytes.len(),
{
    if bytes.len() == 0 {
        seq![0u8]
    } else if bytes.len() <= 255 {
        seq![bytes.len() as u8] + bytes + seq![0u8]
    } else {
        seq![255u8] + bytes.take(255) + sub_blocks(bytes.skip(255))
    }
}

/// The encoded image data of one frame: the minimum code size byte, then
/// the packed code stream in sub-blocks.
pub open spec fn frame_data(indices: Seq<u8>, m: nat) -> Seq<u8> {
    seq![m as u8] + sub_blocks(pack(code_seq(indices, m), m + 1))
}

/// Two to the given power, as a machine word.
pub(crate) fn pow2_u32(n: u32) -> (r: u32)
    requires
        n <= 24,
    ensures
        r == pow2(n as nat),
{
    proof {
        lemma2_to64();
    }
    let mut r: u32 = 1;
    let mut i: u32 = 0;
    while i < n
        invariant
            i <= n <= 24,
            r == pow2(i as nat),
        decreases n - i,
    {
        proof {
            lemma_pow2_strictly_increases(i as nat, 24);
            lemma_pow2_adds(i as nat, 1);
            lemma2_to64();
        }
        r = r * 2;
        i += 1;
    }
    r
}

/// The literal codes for the index range `pos .. pos + count`.
spec fn literals_of(indices: Seq<u8>, pos: int, count: int) -> Seq<u16> {
    Seq::new(count as nat, |t: int| indices[pos + t] as u16)
}

/// Appends `count` pixel indices, starting at `pos`, as literal codes.
fn push_literals(codes: &mut Vec<u16>, indices: &Vec<u8>, pos: usize, count: usize)
    requires
        pos + count <= indices@.len(),
    ensures
        final(codes)@ == old(codes)@ + literals_of(indices@, pos as int, count as int),
{
    let ghost base = codes@;
    let ilen: usize = indices.len();
    let mut j: usize = 0;
    while j < count
        invariant
            ilen == indices@.len(),
            pos + count <= ilen,
            j <= count,
            codes@ == base + literals_of(indices@, pos as int, j as int),
        decreases count - j,
    {
        let x = indices[pos + j];
        codes.push(x as u16);
        proof {
            let s1 = literals_of(indices@, pos as int, j as int);
            let s2 = literals_of(indices@, pos as int, j + 1);
            assert(s2 =~= s1.push(x as u16));
            assert(base + s2 =~= (base + s1).push(x as u16));
        }
        j += 1;
    }
}

/// Every literal code comes from an index, so it is bounded by the bound on
/// the indices; used to bound the whole code stream.
proof fn lemma_literals_bound(indices: Seq<u8>, pos: int, count: int, bound: nat)
    requires
        0 <= pos,
        0 <= count,
        pos + count <= indices.len(),
        forall|i: int| 0 <= i < indices.len() ==> indices[i] < bound,
    ensures
        forall|t: int|
            0 <= t < count ==> #[trigger] literals_of(indices, pos, count)[t] < bound,
{
    assert forall|t: int|
        0 <= t < count implies #[trigger] literals_of(indices, pos, count)[t] < bound by {
        assert(indices.subrange(pos, pos + count)[t] == indices[pos + t]);
    }
}

/// Builds the code stream for one frame's pixel indices: leading clear
/// code, literal groups separated by clear codes, end-of-information code.
fn build_codes(indices: &Vec<u8>, m: u32) -> (codes: Vec<u16>)
    requires
        2 <= m <= 8,
        forall|i: int| 0 <= i < indices@.len() ==> indices@[i] < pow2(m as nat),
    ensures
        codes@ == code_seq(indices@, m as nat),
        forall|i: int| 0 <= i < codes@.len() ==> #[trigger] codes@[i] < pow2(m as nat + 1),
{
    proof {
        lemma2_to64();
        lemma_pow2_adds(m as nat, 1);
    }
    let p: u32 = pow2_u32(m);
    let clear: u16 = p as u16;
    let eoi: u16 = clear + 1;
    let cap: usize = (p - 2) as usize;
    let ilen: usize = indices.len();
    let ghost mn = m as nat;
    let ghost capi = cap as int;
    let mut codes: Vec<u16> = Vec::new();
    codes.push(clear);
    assert(codes@ =~= seq![clear]);
    proof {
        assert(indices@.skip(0) =~= indices@);
    }

    let mut pos: usize = 0;
    while ilen - pos > cap
        invariant
            2 <= m <= 8,
            p == pow2(mn),
            4 <= p <= 256,
            clear == p,
            eoi == p + 1,
            cap == p - 2,
            capi == cap,
            ilen == indices@.len(),
            pos <= ilen,
            pow2(mn + 1) == 2 * pow2(mn),
            forall|i: int| 0 <= i < indices@.len() ==> indices@[i] < pow2(mn),
            forall|i: int| 0 <= i < codes@.len() ==> #[trigger] codes@[i] < pow2(mn + 1),
            seq![clear] + literal_groups(indices@, capi, clear) == codes@ + literal_groups(
                indices@.skip(pos as int),
                capi,
                clear,
            ),
        decreases ilen - pos,
    {
        let ghost base = codes@;
        let ghost rem = indices@.skip(pos as int);
        push_literals(&mut codes, indices, pos, cap);
        codes.push(clear);
        let ghost grp = literals_of(indices@, pos as int, capi);
        pos += cap;
        proof {
            lemma_literals_bound(indices@, pos - capi, capi, pow2(mn));
            assert forall|i: int| 0 <= i < codes@.len() implies #[trigger] codes@[i] < pow2(
                mn + 1,
            ) by {
                if i < base.len() {
                    assert(codes@[i] == base[i]);
                } else if i < base.len() + capi {
                    assert(codes@[i] == grp[i - base.len()]);
                } else {
                    assert(codes@[i] == clear);
                }
            }
            // The group just written matches one unfolding of `literal_groups`.
            assert(rem.len() > capi);
            assert(rem.skip(capi) =~= indices@.skip(pos as int));
            assert(as_codes(rem.take(capi)) =~= grp);
            assert(literal_groups(rem, capi, clear) == as_codes(rem.take(capi)) + seq![clear]
                + literal_groups(indices@.skip(pos as int), capi, clear));
            assert(codes@ + literal_groups(indices@.skip(pos as int), capi, clear) =~= base
                + literal_groups(rem, capi, clear));
        }
    }

    // The final group: at most `cap` literals, no trailing clear code.
    let ghost base = codes@;
    let ghost rem = indices@.skip(pos as int);
    let last_len: usize = ilen - pos;
    push_literals(&mut codes, indices, pos, last_len);
    proof {
        lemma_literals_bound(indices@, pos as int, last_len as int, pow2(mn));
        let grp = literals_of(indices@, pos as int, last_len as int);
        assert(as_codes(rem) =~= grp);
        assert(literal_groups(rem, capi, clear) == as_codes(rem));
        assert forall|i: int| 0 <= i < codes@.len() implies #[trigger] codes@[i] < pow2(
            mn + 1,
        ) by {
            if i >= base.len() {
                assert(codes@[i] == grp[i - base.len()]);
            }
        }
        assert(codes@ =~= seq![clear] + literal_groups(indices@, capi, clear));
    }
    codes.push(eoi);
    proof {
        assert(p - 2 == pow2(mn) - 2);
        assert(codes@ =~= seq![clear] + literal_groups(indices@, pow2(mn) - 2, clear) + seq![eoi]);
        assert(codes@ == code_seq(indices@, mn));
        assert forall|i: int| 0 <= i < codes@.len() implies #[trigger] codes@[i] < pow2(
            mn + 1,
        ) by {
            if i == codes@.len() - 1 {
                assert(codes@[i] == eoi);
            }
        }
    }
    codes
}

/// Packs the codes, `width` bits each, least-significant-bit first, into
/// bytes, zero-padding the final partial byte.
fn pack_codes(codes: &Vec<u16>, width: u32) -> (out: Vec<u8>)
    requires
        1 <= width <= 16,
        forall|i: int| 0 <= i < codes@.len() ==> codes@[i] < pow2(width as nat),
    ensures
        out@ == pack(codes@, width as nat),
{
    let ghost w = width as nat;
    let mut out: Vec<u8> = Vec::new();
    let mut buf: u32 = 0;
    let mut nbits: u32 = 0;
    let mut i: usize = 0;
    proof {
        lemma2_to64();
        assert(codes@.skip(0) =~= codes@);
    }
    while i < codes.len()
        invariant
            1 <= width <= 16,
            w == width,
            i <= codes@.len(),
            forall|k: int| 0 <= k < codes@.len() ==> codes@[k] < pow2(w),
            nbits < 8,
            buf < pow2(nbits as nat),
            pack(codes@, w) == out@ + pack_rec(codes@.skip(i as int), w, buf as nat, nbits as nat),
        decreases codes@.len() - i,
    {
        let c: u32 = codes[i] as u32;
        let pw: u32 = pow2_u32(nbits);
        proof {
            lemma_pow2_adds(nbits as nat, w);
            lemma_pow2_strictly_increases(nbits as nat + w, 24);
            lemma2_to64();
            assert(buf + c * pw < pow2(nbits as nat + w)) by (nonlinear_arith)
                requires
                    buf < pow2(nbits as nat),
                    c < pow2(w),
                    pw == pow2(nbits as nat),
                    pow2(nbits as nat + w) == pow2(nbits as nat) * pow2(w),
            ;
            // One unfolding of the packing recursion for this code.
            assert(codes@.skip(i as int).skip(1) =~= codes@.skip(i as int + 1));
            assert(codes@.skip(i as int)[0] == codes@[i as int]);
        }
        buf = buf + c * pw;
        nbits = nbits + width;
        i += 1;
        while nbits >= 8
            invariant
                nbits <= 24,
                buf < pow2(nbits as nat),
                pack(codes@, w) == out@ + pack_rec(
                    codes@.skip(i as int),
                    w,
                    buf as nat,
                    nbits as nat,
                ),
            decreases nbits,
        {
            proof {
                lemma_pow2_adds(8, (nbits - 8) as nat);
                lemma2_to64();
                assert(buf / 256 < pow2((nbits - 8) as nat)) by (nonlinear_arith)
                    requires
                        buf < pow2(nbits as nat),
                        pow2(nbits as nat) == 256 * pow2((nbits - 8) as nat),
                ;
                let rest = pack_rec(
                    codes@.skip(i as int),
                    w,
                    (buf / 256) as nat,
                    (nbits - 8) as nat,
                );
                assert((out@ + seq![(buf % 256) as u8]) + rest =~= out@ + (seq![(buf % 256) as u8]
                    + rest));
            }
            let b: u8 = (buf % 256) as u8;
            out.push(b);
            buf = buf / 256;
            nbits = nbits - 8;
        }
    }
    proof {
        assert(codes@.skip(codes@.len() as int) =~= Seq::<u16>::empty());
    }
    if nbits > 0 {
        proof {
            lemma_pow2_strictly_increases(nbits as nat, 8);
            lemma2_to64();
            let rest = pack_rec(Seq::<u16>::empty(), w, buf as nat, nbits as nat);
            assert(rest =~= seq![(buf % 256) as u8]);
            assert((out@ + rest) =~= out@.push((buf % 256) as u8));
        }
        let b: u8 = (buf % 256) as u8;
        out.push(b);
    } else {
        proof {
            assert(pack_rec(Seq::<u16>::empty(), w, buf as nat, 0) =~= Seq::<u8>::empty());
            assert(out@ + Seq::<u8>::empty() =~= out@);
        }
    }
    out
}

/// Appends `data` to `out` framed as GIF data sub-blocks.
fn write_sub_blocks(out: &mut Vec<u8>, data: &Vec<u8>)
    ensures
        final(out)@ == old(out)@ + sub_blocks(data@),
{
    let dlen: usize = data.len();
    proof {
        assert(data@.skip(0) =~= data@);
    }
    let mut pos: usize = 0;
    while dlen - pos > 255
        invariant
            dlen == data@.len(),
            pos <= dlen,
            out@ + sub_blocks(data@.skip(pos as int)) == old(out)@ + sub_blocks(data@),
        decreases dlen - pos,
    {
        let ghost rem = data@.skip(pos as int);
        let ghost base = out@;
        out.push(255);
        push_bytes(out, data, pos, 255);
        pos += 255;
        proof {
            assert(rem.skip(255) =~= data@.skip(pos as int));
            assert(rem.take(255) =~= data@.subrange(pos - 255, pos as int));
            assert(sub_blocks(rem) == seq![255u8] + rem.take(255) + sub_blocks(
                data@.skip(pos as int),
            ));
            assert(out@ + sub_blocks(data@.skip(pos as int)) =~= base + sub_blocks(rem));
        }
    }
    let ghost rem = data@.skip(pos as int);
    let ghost base = out@;
    let last_len: usize = dlen - pos;
    if last_len == 0 {
        out.push(0);
        proof {
            assert(sub_blocks(rem) =~= seq![0u8]);
            assert(out@ =~= base + sub_blocks(rem));
        }
    } else {
        out.push(last_len as u8);
        push_bytes(out, data, pos, last_len);
        out.push(0);
        proof {
            assert(rem =~= data@.subrange(pos as int, pos + last_len));
            assert(rem.len() == last_len);
            assert(sub_blocks(rem) == seq![rem.len() as u8] + rem + seq![0u8]);
            assert(out@ =~= base + sub_blocks(rem));
        }
    }
}

/// Appends the byte range `pos .. pos + count` of `data` to `out`.
fn push_bytes(out: &mut Vec<u8>, data: &Vec<u8>, pos: usize, count: usize)
    requires
        pos + count <= data@.len(),
    ensures
        final(out)@ == old(out)@ + data@.subrange(pos as int, pos as int + count as int),
{
    let ghost base = out@;
    let dlen: usize = data.len();
    let mut j: usize = 0;
    while j < count
        invariant
            dlen == data@.len(),
            pos + count <= dlen,
            j <= count,
            out@ == base + data@.subrange(pos as int, pos + j),
        decreases count - j,
    {
        let x = data[pos + j];
        out.push(x);
        proof {
            let s1 = data@.subrange(pos as int, pos + j);
            let s2 = data@.subrange(pos as int, pos + j + 1);
            assert(s2 =~= s1.push(x));
            assert(base + s2 =~= (base + s1).push(x));
        }
        j += 1;
    }
}

/// Appends the encoded image data of one frame: the minimum code size `m`,
/// then the frame's pixel indices as an LZW code stream in sub-blocks.
pub fn write_frame_data(out: &mut Vec<u8>, indices: &Vec<u8>, m: u32)
    requires
        2 <= m <= 8,
        forall|i: int| 0 <= i < indices@.len() ==> indices@[i] < pow2(m as nat),
    ensures
        final(out)@ == old(out)@ + frame_data(indices@, m as nat),
{
    let ghost base = out@;
    out.push(m as u8);
    let codes = build_codes(indices, m);
    let packed = pack_codes(&codes, m + 1);
    write_sub_blocks(out, &packed);
    proof {
        assert(out@ =~= base + frame_data(indices@, m as nat));
    }
}

} // verus!
