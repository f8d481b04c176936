//! The decoder itself.
use vstd::prelude::*;
use vstd::arithmetic::div_mod::{lemma_fundamental_div_mod, lemma_fundamental_div_mod_converse};
use crate::format::{apply_reference, copied_span, decode_from, decoded};

verus! {

/// Position `j` of a tile that starts at a multiple `c` of `d` is `j` modulo `d`,
/// and a whole tile ends at a multiple of `d` again.
proof fn lemma_tile_offset(c: int, d: int, j: int)
    requires
        0 < d,
        0 <= c,
        c % d == 0,
        0 <= j < d,
    ensures
        (c + j) % d == j,
        (c + d) % d == 0,
{
    lemma_fundamental_div_mod(c, d);
    let q = c / d;
    assert(c + j == q * d + j) by (nonlinear_arith)
        requires c == d * q + 0;
    lemma_fundamental_div_mod_converse(c + j, d, q, j);
    assert(c + d == (q + 1) * d + 0) by (nonlinear_arith)
        requires c == d * q + 0;
    lemma_fundamental_div_mod_converse(c + d, d, q + 1, 0);
}

/// Applies the back-reference encoded as `b0`, `b1` to `out`.
///
/// The copy goes tile by tile: each tile is the window of `distance` bytes
/// that ends where `out` ended before the call, or the part of it that the
/// length leaves for the last tile. The window is never written, so a copy
/// longer than its distance repeats it.
fn append_reference(out: &mut Vec<u8>, b0: u8, b1: u8) -> (ok: bool)
    ensures
        match apply_reference(old(out)@, b0, b1) {
            Some(next) => ok && final(out)@ == next,
            None => !ok && final(out)@ == old(out)@,
        },
{
    assert(b0 >> 2u8 <= 63u8) by (bit_vector);
    let length: usize = (b0 >> 2u8) as usize + 3;
    let distance: usize = (b0 & 3u8) as usize * 256 + b1 as usize;
    let pivot: usize = out.len();
    if distance == 0 || distance > pivot {
        return false;
    }
    let start: usize = pivot - distance;
    let ghost prior = out@;
    let mut copied: usize = 0;
    while copied < length
        invariant
            copied <= length <= 66,
            0 < distance <= pivot,
            start == pivot - distance,
            pivot == prior.len(),
            copied as int % distance as int == 0 || copied == length,
            out@ == prior + copied_span(prior, distance as nat, copied as nat),
        decreases length - copied,
    {
        let mut j: usize = 0;
        while j < distance && copied + j < length
            invariant
                copied < length <= 66,
                0 < distance <= pivot,
                start == pivot - distance,
                pivot == prior.len(),
                copied as int % distance as int == 0,
                j <= distance,
                copied + j <= length,
                out@ == prior + copied_span(prior, distance as nat, (copied + j) as nat),
            decreases distance - j,
        {
            let b = out[start + j];
            proof {
                lemma_tile_offset(copied as int, distance as int, j as int);
            }
            out.push(b);
            assert(out@ =~= prior + copied_span(prior, distance as nat, (copied + j + 1) as nat));
            j += 1;
        }
        proof {
            if j == distance {
                lemma_tile_offset(copied as int, distance as int, 0);
            }
        }
        copied += j;
    }
    true
}

/// Decodes the compressed stream `bs` into exactly `size` bytes.
///
/// Decoding stops as soon as `size` bytes have been produced, even in the
/// middle of a group; a back-reference that passes `size` is applied whole
/// and the output then cut to `size`. The result is `None` where the stream
/// is malformed (a back-reference cut off by the end of the input, or one
/// whose distance is zero or exceeds the output produced so far) or where it
/// ends before `size` bytes have been produced.
pub fn decompress(bs: &[u8], size: usize) -> (r: Option<Vec<u8>>)
    ensures
        match r {
            Some(v) => decoded(bs@, size as nat) == Some(v@),
            None => decoded(bs@, size as nat) is None,
        },
{
    let ghost full = decode_from(bs@, size as nat, 0, 0, 8, Seq::empty());
    let blen: usize = bs.len();
    let mut out: Vec<u8> = Vec::with_capacity(blen);
    let mut pos: usize = 0;
    while pos < blen && out.len() < size
        invariant
            blen == bs@.len(),
            pos <= blen,
            full == decode_from(bs@, size as nat, 0, 0, 8, Seq::empty()),
            decode_from(bs@, size as nat, pos as nat, 0, 8, out@) == full,
        decreases blen - pos,
    {
        let control: u8 = bs[pos];
        pos += 1;
        assert(decode_from(bs@, size as nat, pos as nat, control, 0, out@) == full);
        let ghost entry = pos;
        let mut i: u8 = 0;
        while i < 8 && pos < blen && out.len() < size
            invariant
                blen == bs@.len(),
                1 <= entry <= pos <= blen,
                i <= 8,
                full == decode_from(bs@, size as nat, 0, 0, 8, Seq::empty()),
                decode_from(bs@, size as nat, pos as nat, control, i as nat, out@) == full,
            decreases 8 - i,
        {
            if (control >> i) & 1u8 == 0u8 {
                out.push(bs[pos]);
                pos += 1;
            } else {
                if pos + 1 >= blen {
                    return None;
                }
                let b0: u8 = bs[pos];
                let b1: u8 = bs[pos + 1];
                pos += 2;
                if !append_reference(&mut out, b0, b1) {
                    return None;
                }
            }
            i += 1;
        }
        assert(decode_from(bs@, size as nat, pos as nat, control, i as nat, out@)
            == decode_from(bs@, size as nat, pos as nat, 0, 8, out@));
    }
    assert(full == Some(out@));
    if out.len() < size {
        return None;
    }
    out.truncate(size);
    Some(out)
}

} // verus!
