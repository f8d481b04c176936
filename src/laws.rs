//! Properties of the format, stated over the model in `format` and proved.
use vstd::prelude::*;
use crate::format::{apply_reference, copied_span, decode_from, decoded, is_reference, ref_distance, ref_length};

verus! {

/// A successful decode gives exactly as many bytes as were asked for.
pub proof fn lemma_decoded_length(bs: Seq<u8>, size: nat)
    ensures
        decoded(bs, size) matches Some(out) ==> out.len() == size,
{
}

/// Decoding depends on the stream and the target length alone: equal
/// arguments give byte-identical results.
pub proof fn lemma_decoded_deterministic(bs1: Seq<u8>, bs2: Seq<u8>, size: nat)
    requires
        bs1 == bs2,
    ensures
        decoded(bs1, size) == decoded(bs2, size),
{
}

/// Decoding never takes back a byte it produced: whatever it returns from a
/// state starts with the output of that state.
pub proof fn lemma_output_grows(bs: Seq<u8>, size: nat, pos: nat, ctrl: u8, bit: nat, out: Seq<u8>)
    ensures
        decode_from(bs, size, pos, ctrl, bit, out) matches Some(o) ==> out.len() <= o.len() && o.take(
            out.len() as int,
        ) == out,
    decreases bs.len() - pos, 8 - bit,
{
    if out.len() >= size || pos >= bs.len() {
        assert(out.take(out.len() as int) =~= out);
    } else if bit >= 8 {
        lemma_output_grows(bs, size, pos + 1, bs[pos as int], 0, out);
    } else if !is_reference(ctrl, bit) {
        let next = out.push(bs[pos as int]);
        lemma_output_grows(bs, size, pos + 1, ctrl, bit + 1, next);
        if let Some(o) = decode_from(bs, size, pos, ctrl, bit, out) {
            assert(o.take(out.len() as int) =~= next.take(out.len() as int));
        }
    } else if pos + 1 < bs.len() {
        if let Some(next) = apply_reference(out, bs[pos as int], bs[pos + 1int]) {
            lemma_output_grows(bs, size, pos + 2, ctrl, bit + 1, next);
            if let Some(o) = decode_from(bs, size, pos, ctrl, bit, out) {
                assert(o.take(out.len() as int) =~= next.take(out.len() as int));
            }
        }
    }
}

/// A control byte of zero followed by eight bytes decodes, with a target of
/// eight, to exactly those eight bytes, whatever follows them.
pub proof fn lemma_literal_group(lits: Seq<u8>, rest: Seq<u8>)
    requires
        lits.len() == 8,
    ensures
        decoded(seq![0u8] + lits + rest, 8) == Some(lits),
{
    let bs = seq![0u8] + lits + rest;
    lemma_literal_run(bs, 8, 1, 0, Seq::empty(), 8);
    assert(Seq::<u8>::empty() + bs.subrange(1, 9) =~= lits);
    assert(lits.take(8) =~= lits);
}

/// `k` operations of a group with a zero control byte copy the next `k`
/// bytes one for one, as long as neither the input nor the target runs out.
proof fn lemma_literal_run(bs: Seq<u8>, size: nat, pos: nat, bit: nat, out: Seq<u8>, k: nat)
    requires
        bit + k <= 8,
        pos + k <= bs.len(),
        out.len() + k <= size,
    ensures
        decode_from(bs, size, pos, 0, bit, out) == decode_from(
            bs,
            size,
            pos + k,
            0,
            bit + k,
            out + bs.subrange(pos as int, (pos + k) as int),
        ),
    decreases k,
{
    if k == 0 {
        assert(out + bs.subrange(pos as int, pos as int) =~= out);
    } else {
        assert(forall|b: u8| (0u8 >> b) & 1u8 == 0u8) by (bit_vector);
        assert(!is_reference(0, bit));
        let next = out.push(bs[pos as int]);
        lemma_literal_run(bs, size, pos + 1, bit + 1, next, (k - 1) as nat);
        assert(next + bs.subrange(pos + 1int, (pos + k) as int) =~= out + bs.subrange(pos as int, (pos + k) as int));
    }
}

/// Reference encoding of `data` by literals alone: groups of eight bytes,
/// each behind a zero control byte, the last group possibly shorter.
pub open spec fn literal_stream(data: Seq<u8>) -> Seq<u8>
    decreases data.len(),
{
    if data.len() == 0 {
        Seq::empty()
    } else if data.len() <= 8 {
        seq![0u8] + data
    } else {
        seq![0u8] + data.take(8) + literal_stream(data.skip(8))
    }
}

/// Any byte sequence, encoded by literals alone, decodes back to itself.
pub proof fn lemma_literal_round_trip(data: Seq<u8>)
    ensures
        decoded(literal_stream(data), data.len()) == Some(data),
{
    lemma_literal_stream_from(Seq::empty(), data, Seq::empty());
    assert(Seq::<u8>::empty() + literal_stream(data) =~= literal_stream(data));
    assert(Seq::<u8>::empty() + data =~= data);
    assert(data.take(data.len() as int) =~= data);
}

proof fn lemma_literal_stream_from(pre: Seq<u8>, data: Seq<u8>, out: Seq<u8>)
    ensures
        decode_from(pre + literal_stream(data), out.len() + data.len(), pre.len(), 0, 8, out) == Some(
            out + data,
        ),
    decreases data.len(),
{
    let bs = pre + literal_stream(data);
    let size = out.len() + data.len();
    let pos = pre.len();
    if data.len() == 0 {
        assert(out + data =~= out);
    } else if data.len() <= 8 {
        assert(bs[pos as int] == 0u8);
        lemma_literal_run(bs, size, pos + 1, 0, out, data.len());
        assert(bs.subrange(pos + 1int, (pos + 1 + data.len()) as int) =~= data);
    } else {
        assert(bs[pos as int] == 0u8);
        lemma_literal_run(bs, size, pos + 1, 0, out, 8);
        assert(bs.subrange(pos + 1int, (pos + 9) as int) =~= data.take(8));
        let pre2 = pre + seq![0u8] + data.take(8);
        let out2 = out + data.take(8);
        let rest = data.skip(8);
        assert(bs =~= pre2 + literal_stream(rest));
        lemma_literal_stream_from(pre2, rest, out2);
        assert(out2 + rest =~= out + data);
    }
}

/// With `...XY` at the end of the output, the back-reference `0x00 0x02`
/// (length 3, distance 2) appends `XYX`.
pub proof fn lemma_minimal_reference(prior: Seq<u8>, x: u8, y: u8)
    ensures
        ref_length(0) == 3,
        ref_distance(0, 2) == 2,
        apply_reference(prior + seq![x, y], 0, 2) == Some(prior + seq![x, y] + seq![x, y, x]),
{
    let out = prior + seq![x, y];
    assert(0u8 >> 2u8 == 0u8) by (bit_vector);
    assert(0u8 & 3u8 == 0u8) by (bit_vector);
    let span = copied_span(out, 2, 3);
    assert(span[0] == out[out.len() - 2 + 0int % 2]);
    assert(span[1] == out[out.len() - 2 + 1int % 2]);
    assert(span[2] == out[out.len() - 2 + 2int % 2]);
    assert(span =~= seq![x, y, x]);
}

/// With `A` at the end of the output, the back-reference `0x08 0x01`
/// (length 5, distance 1) appends `AAAAA`.
pub proof fn lemma_single_byte_repeat(prior: Seq<u8>, a: u8)
    ensures
        ref_length(8) == 5,
        ref_distance(8, 1) == 1,
        apply_reference(prior.push(a), 8, 1) == Some(prior.push(a) + seq![a, a, a, a, a]),
{
    let out = prior.push(a);
    assert(8u8 >> 2u8 == 2u8) by (bit_vector);
    assert(8u8 & 3u8 == 0u8) by (bit_vector);
    assert(copied_span(out, 1, 5) =~= seq![a, a, a, a, a]);
}

/// Once the target length is reached decoding stops: bytes after the part of
/// the stream that a successful decode read are never looked at.
pub proof fn lemma_stops_at_target(bs: Seq<u8>, junk: Seq<u8>, size: nat)
    requires
        decoded(bs, size) is Some,
    ensures
        decoded(bs + junk, size) == decoded(bs, size),
{
    lemma_stops_from(bs, junk, size, 0, 0, 8, Seq::empty());
}

proof fn lemma_stops_from(bs: Seq<u8>, junk: Seq<u8>, size: nat, pos: nat, ctrl: u8, bit: nat, out: Seq<u8>)
    requires
        decode_from(bs, size, pos, ctrl, bit, out) matches Some(o) && o.len() >= size,
    ensures
        decode_from(bs + junk, size, pos, ctrl, bit, out) == decode_from(bs, size, pos, ctrl, bit, out),
    decreases bs.len() - pos, 8 - bit,
{
    let all = bs + junk;
    if out.len() >= size {
    } else if bit >= 8 {
        assert(all[pos as int] == bs[pos as int]);
        lemma_stops_from(bs, junk, size, pos + 1, bs[pos as int], 0, out);
    } else if !is_reference(ctrl, bit) {
        assert(all[pos as int] == bs[pos as int]);
        lemma_stops_from(bs, junk, size, pos + 1, ctrl, bit + 1, out.push(bs[pos as int]));
    } else {
        assert(all[pos as int] == bs[pos as int]);
        assert(all[pos + 1int] == bs[pos + 1int]);
        let next = apply_reference(out, bs[pos as int], bs[pos + 1int])->Some_0;
        lemma_stops_from(bs, junk, size, pos + 2, ctrl, bit + 1, next);
    }
}

/// Decoding with a smaller target gives the same bytes, cut shorter: the
/// target only decides where decoding stops and where the output is cut.
pub proof fn lemma_smaller_target(bs: Seq<u8>, size: nat, smaller: nat)
    requires
        smaller <= size,
        decoded(bs, size) is Some,
    ensures
        decoded(bs, smaller) == Some(decoded(bs, size)->Some_0.take(smaller as int)),
{
    lemma_smaller_from(bs, size, smaller, 0, 0, 8, Seq::empty());
    let o = decode_from(bs, size, 0, 0, 8, Seq::empty())->Some_0;
    let o2 = decode_from(bs, smaller, 0, 0, 8, Seq::empty())->Some_0;
    assert(o2.take(smaller as int) =~= o.take(size as int).take(smaller as int));
}

proof fn lemma_smaller_from(bs: Seq<u8>, size: nat, smaller: nat, pos: nat, ctrl: u8, bit: nat, out: Seq<u8>)
    requires
        smaller <= size,
        decode_from(bs, size, pos, ctrl, bit, out) matches Some(o) && o.len() >= size,
    ensures
        decode_from(bs, smaller, pos, ctrl, bit, out) matches Some(o2) && o2.len() >= smaller
            && o2.len() <= decode_from(bs, size, pos, ctrl, bit, out)->Some_0.len()
            && decode_from(bs, size, pos, ctrl, bit, out)->Some_0.take(o2.len() as int) == o2,
    decreases bs.len() - pos, 8 - bit,
{
    if out.len() >= smaller {
        lemma_output_grows(bs, size, pos, ctrl, bit, out);
    } else if bit >= 8 {
        lemma_smaller_from(bs, size, smaller, pos + 1, bs[pos as int], 0, out);
    } else if !is_reference(ctrl, bit) {
        lemma_smaller_from(bs, size, smaller, pos + 1, ctrl, bit + 1, out.push(bs[pos as int]));
    } else {
        let next = apply_reference(out, bs[pos as int], bs[pos + 1int])->Some_0;
        lemma_smaller_from(bs, size, smaller, pos + 2, ctrl, bit + 1, next);
    }
}

/// A back-reference whose distance is zero or reaches before the start of
/// the output is rejected: decoding fails at it.
pub proof fn lemma_invalid_reference_rejected(
    bs: Seq<u8>,
    size: nat,
    pos: nat,
    ctrl: u8,
    bit: nat,
    out: Seq<u8>,
)
    requires
        out.len() < size,
        bit < 8,
        is_reference(ctrl, bit),
        pos + 1 < bs.len(),
        ref_distance(bs[pos as int], bs[pos + 1int]) == 0 || ref_distance(bs[pos as int], bs[pos + 1int]) > out.len(),
    ensures
        apply_reference(out, bs[pos as int], bs[pos + 1int]) is None,
        decode_from(bs, size, pos, ctrl, bit, out) is None,
{
}

/// A stream whose first operation is a back-reference is malformed: there is
/// no output yet for it to refer to.
pub proof fn lemma_leading_reference_rejected(ctrl: u8, b0: u8, b1: u8, rest: Seq<u8>, size: nat)
    requires
        size > 0,
        ctrl & 1u8 != 0u8,
    ensures
        decoded(seq![ctrl, b0, b1] + rest, size) is None,
{
    let bs = seq![ctrl, b0, b1] + rest;
    assert(ctrl >> 0u8 == ctrl) by (bit_vector);
    assert(bs[0] == ctrl && bs[1] == b0 && bs[2] == b1);
    lemma_invalid_reference_rejected(bs, size, 1, ctrl, 0, Seq::empty());
}

} // verus!
