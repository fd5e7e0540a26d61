//! Chaining of swap steps into one multicall: the first step's calldata gets
//! the input amount written at its amount offset; each later step's amount
//! field is patched at run time from the previous step's return data.
use vstd::prelude::*;

use crate::primitives::Word;

verus! {

/// The eight bytes of a limb, most significant first.
pub open spec fn limb_bytes(l: u64) -> Seq<u8> {
    seq![
        ((l >> 56u64) & 0xffu64) as u8,
        ((l >> 48u64) & 0xffu64) as u8,
        ((l >> 40u64) & 0xffu64) as u8,
        ((l >> 32u64) & 0xffu64) as u8,
        ((l >> 24u64) & 0xffu64) as u8,
        ((l >> 16u64) & 0xffu64) as u8,
        ((l >> 8u64) & 0xffu64) as u8,
        (l & 0xffu64) as u8,
    ]
}

/// The limb that eight bytes denote, most significant first.
pub open spec fn limb_of(b: Seq<u8>) -> u64 {
    (b[0] as u64) << 56u64 | (b[1] as u64) << 48u64 | (b[2] as u64) << 40u64 | (b[3] as u64) << 32u64 | (
    b[4] as u64) << 24u64 | (b[5] as u64) << 16u64 | (b[6] as u64) << 8u64 | (b[7] as u64)
}

/// The 32-byte big-endian form of a word, as it stands in calldata.
pub open spec fn be_bytes(w: Word) -> Seq<u8> {
    limb_bytes(w.l3) + limb_bytes(w.l2) + limb_bytes(w.l1) + limb_bytes(w.l0)
}

/// The word that 32 big-endian bytes denote.
pub open spec fn word_of_be(b: Seq<u8>) -> Word {
    Word {
        l3: limb_of(b.subrange(0, 8)),
        l2: limb_of(b.subrange(8, 16)),
        l1: limb_of(b.subrange(16, 24)),
        l0: limb_of(b.subrange(24, 32)),
    }
}

proof fn lemma_limb_round_trip(l: u64)
    ensures
        limb_of(limb_bytes(l)) == l,
{
    let b = limb_bytes(l);
    let b0 = b[0];
    let b1 = b[1];
    let b2 = b[2];
    let b3 = b[3];
    let b4 = b[4];
    let b5 = b[5];
    let b6 = b[6];
    let b7 = b[7];
    assert((b0 as u64) << 56u64 | (b1 as u64) << 48u64 | (b2 as u64) << 40u64 | (b3 as u64) << 32u64 | (
    b4 as u64) << 24u64 | (b5 as u64) << 16u64 | (b6 as u64) << 8u64 | (b7 as u64) == l) by (bit_vector)
        requires
            b0 == ((l >> 56u64) & 0xffu64) as u8,
            b1 == ((l >> 48u64) & 0xffu64) as u8,
            b2 == ((l >> 40u64) & 0xffu64) as u8,
            b3 == ((l >> 32u64) & 0xffu64) as u8,
            b4 == ((l >> 24u64) & 0xffu64) as u8,
            b5 == ((l >> 16u64) & 0xffu64) as u8,
            b6 == ((l >> 8u64) & 0xffu64) as u8,
            b7 == (l & 0xffu64) as u8,
    ;
}

/// Reading back the 32 bytes written for a word gives the word.
pub proof fn lemma_word_round_trip(w: Word)
    ensures
        be_bytes(w).len() == 32,
        word_of_be(be_bytes(w)) == w,
{
    let b = be_bytes(w);
    assert(b.subrange(0, 8) =~= limb_bytes(w.l3));
    assert(b.subrange(8, 16) =~= limb_bytes(w.l2));
    assert(b.subrange(16, 24) =~= limb_bytes(w.l1));
    assert(b.subrange(24, 32) =~= limb_bytes(w.l0));
    lemma_limb_round_trip(w.l0);
    lemma_limb_round_trip(w.l1);
    lemma_limb_round_trip(w.l2);
    lemma_limb_round_trip(w.l3);
}

fn limb_to_bytes(l: u64) -> (r: [u8; 8])
    ensures
        r@ == limb_bytes(l),
{
    let r = [
        ((l >> 56u64) & 0xffu64) as u8,
        ((l >> 48u64) & 0xffu64) as u8,
        ((l >> 40u64) & 0xffu64) as u8,
        ((l >> 32u64) & 0xffu64) as u8,
        ((l >> 24u64) & 0xffu64) as u8,
        ((l >> 16u64) & 0xffu64) as u8,
        ((l >> 8u64) & 0xffu64) as u8,
        (l & 0xffu64) as u8,
    ];
    proof {
        assert(r@ =~= limb_bytes(l));
    }
    r
}

/// Writes `w` big-endian into the 32 bytes of `buf` from `offset`.
pub fn write_word(buf: &mut Vec<u8>, offset: usize, w: Word)
    requires
        offset + 32 <= old(buf)@.len(),
    ensures
        final(buf)@.len() == old(buf)@.len(),
        final(buf)@.subrange(offset as int, offset + 32) == be_bytes(w),
        forall|i: int| 0 <= i < old(buf)@.len() && !(offset <= i < offset + 32) ==> final(buf)@[i] == old(buf)@[i],
{
    let limbs = [w.l3, w.l2, w.l1, w.l0];
    let ghost bytes = be_bytes(w);
    let mut j: usize = 0;
    while j < 4
        invariant
            0 <= j <= 4,
            offset + 32 <= buf.len(),
            buf@.len() == old(buf)@.len(),
            limbs@ == seq![w.l3, w.l2, w.l1, w.l0],
            bytes == be_bytes(w),
            forall|i: int| 0 <= i < 8 * j ==> buf@[offset + i] == bytes[i],
            forall|i: int| 0 <= i < old(buf)@.len() && !(offset <= i < offset + 8 * j) ==> buf@[i] == old(buf)@[i],
        decreases 4 - j,
    {
        let lb = limb_to_bytes(limbs[j]);
        let mut k: usize = 0;
        while k < 8
            invariant
                0 <= k <= 8,
                j < 4,
                offset + 32 <= buf.len(),
                buf@.len() == old(buf)@.len(),
                limbs@ == seq![w.l3, w.l2, w.l1, w.l0],
                lb@ == limb_bytes(limbs@[j as int]),
                bytes == be_bytes(w),
                forall|i: int| 0 <= i < 8 * j + k ==> buf@[offset + i] == bytes[i],
                forall|i: int|
                    0 <= i < old(buf)@.len() && !(offset <= i < offset + 8 * j + k) ==> buf@[i] == old(buf)@[i],
            decreases 8 - k,
        {
            proof {
                let t = limb_bytes(w.l3) + limb_bytes(w.l2) + limb_bytes(w.l1) + limb_bytes(w.l0);
                assert(bytes == t);
                assert(bytes[8 * j + k] == lb@[k as int]) by {
                    if j == 0 {
                        assert(t[k as int] == limb_bytes(w.l3)[k as int]);
                    } else if j == 1 {
                        assert(t[8 + k] == limb_bytes(w.l2)[k as int]);
                    } else if j == 2 {
                        assert(t[16 + k] == limb_bytes(w.l1)[k as int]);
                    } else {
                        assert(t[24 + k] == limb_bytes(w.l0)[k as int]);
                    }
                }
            }
            buf.set(offset + 8 * j + k, lb[k]);
            k = k + 1;
        }
        j = j + 1;
    }
    proof {
        assert(buf@.subrange(offset as int, offset + 32) =~= be_bytes(w));
    }
}

/// Reads the word stored big-endian in the 32 bytes of `buf` from `offset`.
pub fn read_word(buf: &Vec<u8>, offset: usize) -> (r: Word)
    requires
        offset + 32 <= buf@.len(),
    ensures
        r == word_of_be(buf@.subrange(offset as int, offset + 32)),
{
    let mut limbs: [u64; 4] = [0, 0, 0, 0];
    let ghost b = buf@.subrange(offset as int, offset + 32);
    let mut j: usize = 0;
    while j < 4
        invariant
            0 <= j <= 4,
            offset + 32 <= buf.len(),
            b == buf@.subrange(offset as int, offset + 32),
            forall|q: int| 0 <= q < j ==> limbs@[q] == limb_of(b.subrange(8 * q, 8 * q + 8)),
        decreases 4 - j,
    {
        let base = offset + 8 * j;
        let l: u64 = (buf[base] as u64) << 56u64 | (buf[base + 1] as u64) << 48u64 | (buf[base + 2] as u64)
            << 40u64 | (buf[base + 3] as u64) << 32u64 | (buf[base + 4] as u64) << 24u64 | (buf[base + 5] as u64)
            << 16u64 | (buf[base + 6] as u64) << 8u64 | (buf[base + 7] as u64);
        proof {
            let s = b.subrange(8 * j, 8 * j + 8);
            assert(s[0] == buf@[base as int]);
            assert(s[1] == buf@[base + 1]);
            assert(s[2] == buf@[base + 2]);
            assert(s[3] == buf@[base + 3]);
            assert(s[4] == buf@[base + 4]);
            assert(s[5] == buf@[base + 5]);
            assert(s[6] == buf@[base + 6]);
            assert(s[7] == buf@[base + 7]);
        }
        limbs[j] = l;
        j = j + 1;
    }
    Word { l3: limbs[0], l2: limbs[1], l1: limbs[2], l0: limbs[3] }
}

/// A swap step as its pool's encoder built it: the call data, where in it the
/// input amount goes, and where in its return data the output amount comes.
#[derive(Debug)]
pub struct StepCall {
    pub calldata: Vec<u8>,
    pub in_amount_offset: usize,
    pub out_amount_return_offset: usize,
}

/// Where a step's input amount comes from when the multicall runs: the
/// 32-byte output amount at `return_offset` in the return data of step
/// `from_step`, written into this step's call data at `calldata_offset`.
#[derive(Clone, Copy, Debug, PartialEq, Eq, Structural)]
pub struct AmountPatch {
    pub from_step: usize,
    pub return_offset: usize,
    pub calldata_offset: usize,
}

/// A step of the encoded multicall.
#[derive(Debug)]
pub struct EncodedStep {
    pub calldata: Vec<u8>,
    pub patch: Option<AmountPatch>,
}

/// Why a swap line cannot be encoded.
#[derive(Clone, Copy, Debug, PartialEq, Eq, Structural)]
pub enum EncodeError {
    /// There is no step.
    Empty,
    /// A step's amount field does not lie within its call data.
    AmountOutsideCalldata,
}

/// Every step's 32-byte amount field lies within its call data.
pub open spec fn offsets_fit(steps: Seq<StepCall>) -> bool {
    forall|k: int| 0 <= k < steps.len() ==> (#[trigger] steps[k]).in_amount_offset + 32 <= steps[k].calldata@.len()
}

/// Encodes a swap line: the first step's amount field holds `amount_in`; each
/// later step's amount field is patched from the output amount of the step
/// before it. Call data is otherwise copied.
pub fn encode_swap_line(steps: Vec<StepCall>, amount_in: Word) -> (r: Result<Vec<EncodedStep>, EncodeError>)
    ensures
        steps@.len() == 0 ==> r == Err::<Vec<EncodedStep>, EncodeError>(EncodeError::Empty),
        steps@.len() > 0 && !offsets_fit(steps@) ==> r == Err::<Vec<EncodedStep>, EncodeError>(
            EncodeError::AmountOutsideCalldata,
        ),
        steps@.len() > 0 && offsets_fit(steps@) ==> r is Ok && ({
            let e = r->Ok_0@;
            &&& e.len() == steps@.len()
            &&& e[0].patch is None
            &&& e[0].calldata@.len() == steps@[0].calldata@.len()
            &&& e[0].calldata@.subrange(
                steps@[0].in_amount_offset as int,
                steps@[0].in_amount_offset + 32,
            ) == be_bytes(amount_in)
            &&& word_of_be(
                e[0].calldata@.subrange(steps@[0].in_amount_offset as int, steps@[0].in_amount_offset + 32),
            ) == amount_in
            &&& forall|i: int|
                0 <= i < e[0].calldata@.len() && !(steps@[0].in_amount_offset <= i
                    < steps@[0].in_amount_offset + 32) ==> e[0].calldata@[i] == steps@[0].calldata@[i]
            &&& forall|k: int|
                0 < k < e.len() ==> (#[trigger] e[k]).calldata@ == steps@[k].calldata@ && e[k].patch == Some(
                    AmountPatch {
                        from_step: (k - 1) as usize,
                        return_offset: steps@[k - 1].out_amount_return_offset,
                        calldata_offset: steps@[k].in_amount_offset,
                    },
                )
        }),
{
    if steps.len() == 0 {
        return Err(EncodeError::Empty);
    }
    let mut i: usize = 0;
    while i < steps.len()
        invariant
            0 <= i <= steps@.len(),
            forall|k: int| 0 <= k < i ==> (#[trigger] steps@[k]).in_amount_offset + 32 <= steps@[k].calldata@.len(),
        decreases steps@.len() - i,
    {
        if steps[i].calldata.len() < 32 || steps[i].in_amount_offset > steps[i].calldata.len() - 32 {
            return Err(EncodeError::AmountOutsideCalldata);
        }
        i = i + 1;
    }
    let ghost s = steps@;
    assert(s.len() == steps.len());
    let mut out: Vec<EncodedStep> = Vec::new();
    let mut k: usize = 0;
    let mut prev_return: usize = 0;
    let mut steps = steps;
    let mut rest: Vec<StepCall> = Vec::new();
    while steps.len() > 0
        invariant
            rest@.len() + steps@.len() == s.len(),
            forall|q: int| 0 <= q < steps@.len() ==> steps@[q] == s[q],
            forall|q: int| 0 <= q < rest@.len() ==> rest@[q] == s[s.len() - 1 - q],
        decreases steps@.len(),
    {
        let c = steps.pop().unwrap();
        rest.push(c);
    }
    while rest.len() > 0
        invariant
            k == out@.len(),
            rest@.len() + out@.len() == s.len(),
            s.len() <= usize::MAX,
            forall|q: int| 0 <= q < rest@.len() ==> rest@[q] == s[s.len() - 1 - q],
            s.len() > 0,
            offsets_fit(s),
            k > 0 ==> prev_return == s[k - 1].out_amount_return_offset,
            k > 0 ==> out@[0].patch is None && out@[0].calldata@.len() == s[0].calldata@.len()
                && out@[0].calldata@.subrange(s[0].in_amount_offset as int, s[0].in_amount_offset + 32)
                == be_bytes(amount_in) && forall|i: int|
                0 <= i < out@[0].calldata@.len() && !(s[0].in_amount_offset <= i < s[0].in_amount_offset + 32)
                    ==> out@[0].calldata@[i] == s[0].calldata@[i],
            forall|q: int|
                0 < q < k ==> (#[trigger] out@[q]).calldata@ == s[q].calldata@ && out@[q].patch == Some(
                    AmountPatch {
                        from_step: (q - 1) as usize,
                        return_offset: s[q - 1].out_amount_return_offset,
                        calldata_offset: s[q].in_amount_offset,
                    },
                ),
        decreases rest@.len(),
    {
        let c = rest.pop().unwrap();
        proof {
            assert(c == s[k as int]);
            assert(s[k as int].in_amount_offset + 32 <= s[k as int].calldata@.len());
        }
        let StepCall { mut calldata, in_amount_offset, out_amount_return_offset } = c;
        if k == 0 {
            write_word(&mut calldata, in_amount_offset, amount_in);
            out.push(EncodedStep { calldata, patch: None });
        } else {
            let patch = AmountPatch { from_step: k - 1, return_offset: prev_return, calldata_offset: in_amount_offset };
            out.push(EncodedStep { calldata, patch: Some(patch) });
        }
        prev_return = out_amount_return_offset;
        k = k + 1;
    }
    proof {
        lemma_word_round_trip(amount_in);
    }
    Ok(out)
}

/// The input amount the first step of an encoded line carries, read back
/// from its call data at `offset`.
pub fn encoded_amount_in(encoded: &Vec<EncodedStep>, offset: usize) -> (r: Option<Word>)
    ensures
        r is Some <==> (encoded@.len() > 0 && offset + 32 <= encoded@[0].calldata@.len()),
        r is Some ==> r->0 == word_of_be(encoded@[0].calldata@.subrange(offset as int, offset + 32)),
{
    if encoded.len() == 0 {
        return None;
    }
    let first = &encoded[0].calldata;
    if first.len() < 32 || offset > first.len() - 32 {
        return None;
    }
    Some(read_word(first, offset))
}

} // verus!
