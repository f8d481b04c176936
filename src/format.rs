//! Mathematical model of the compressed format.
use vstd::prelude::*;

verus! {

/// Length of the copy that a back-reference with first byte `b0` asks for:
/// the upper six bits plus three, so between 3 and 66.
pub open spec fn ref_length(b0: u8) -> nat {
    (b0 >> 2u8) as nat + 3
}

/// Distance behind the end of the output that a back-reference with bytes
/// `b0`, `b1` reads from: the low two bits of `b0` above the eight bits of `b1`.
pub open spec fn ref_distance(b0: u8, b1: u8) -> nat {
    (b0 & 3u8) as nat * 256 + b1 as nat
}

/// Whether operation `bit` of a group with control byte `ctrl` is a
/// back-reference.
pub open spec fn is_reference(ctrl: u8, bit: nat) -> bool {
    (ctrl >> (bit as u8)) & 1u8 != 0u8
}

/// The bytes that a copy of `length` bytes from `distance` bytes behind the
/// end of `out` appends: byte `k` is `out[out.len() - distance + k % distance]`,
/// so that a copy longer than its distance repeats the window.
pub open spec fn copied_span(out: Seq<u8>, distance: nat, length: nat) -> Seq<u8>
    recommends
        0 < distance <= out.len(),
{
    Seq::new(length, |k: int| out[out.len() - distance + k % (distance as int)])
}

/// The output after applying a back-reference encoded as `b0`, `b1` to `out`,
/// or `None` where its distance is zero or reaches before the start of `out`.
pub open spec fn apply_reference(out: Seq<u8>, b0: u8, b1: u8) -> Option<Seq<u8>> {
    let distance = ref_distance(b0, b1);
    if distance == 0 || distance > out.len() {
        None
    } else {
        Some(out + copied_span(out, distance, ref_length(b0)))
    }
}

/// Decoding from a given state: `pos` is the next unread byte of `bs`, `ctrl`
/// the control byte of the current group and `bit` the index of its next
/// operation (8 once the group is done), `out` the output so far.
///
/// Decoding stops, successfully, as soon as `out` holds `size` bytes or the
/// input is used up between operations. A back-reference cut off by the end
/// of the input, or one with an invalid distance, is a failure.
pub open spec fn decode_from(bs: Seq<u8>, size: nat, pos: nat, ctrl: u8, bit: nat, out: Seq<u8>) -> Option<Seq<u8>>
    decreases bs.len() - pos, 8 - bit,
{
    if out.len() >= size || pos >= bs.len() {
        Some(out)
    } else if bit >= 8 {
        decode_from(bs, size, pos + 1, bs[pos as int], 0, out)
    } else if !is_reference(ctrl, bit) {
        decode_from(bs, size, pos + 1, ctrl, bit + 1, out.push(bs[pos as int]))
    } else if pos + 1 >= bs.len() {
        None
    } else {
        match apply_reference(out, bs[pos as int], bs[pos + 1int]) {
            None => None,
            Some(next) => decode_from(bs, size, pos + 2, ctrl, bit + 1, next),
        }
    }
}

/// What decoding `bs` with target length `size` gives: exactly `size` bytes,
/// or `None` where the stream is malformed or ends before `size` bytes.
pub open spec fn decoded(bs: Seq<u8>, size: nat) -> Option<Seq<u8>> {
    match decode_from(bs, size, 0, 0, 8, Seq::empty()) {
        Some(out) => if out.len() >= size {
            Some(out.take(size as int))
        } else {
            None
        },
        None => None,
    }
}

} // verus!
