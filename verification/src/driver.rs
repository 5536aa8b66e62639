//! Payload driver: splits the payload into words and threads the accumulator.
//!
//! The payload is cut into four-byte chunks in source order and encoded in
//! reverse, because each encoded word ends in a `PUSH EAX` and the stack
//! grows downward: the last chunk is pushed first and therefore lands
//! deepest, so after all pushes the payload reappears in source order at the
//! low addresses. The accumulator value left by one word is the starting
//! value of the next.
//!
//! A payload whose length is not a multiple of four ends in a short chunk;
//! its word value is the chunk read little-endian with the missing high
//! lanes as zero, so the pushed word carries trailing zero bytes.

use vstd::prelude::*;

use crate::bytes::{bytes_of, chunk_value, pad4};
use crate::encoder::{
    can_encode, generate, generate_ok, spec_can_encode, spec_word_feasible, Instruction,
};
use crate::EncodeError;

verus! {

/// One encoded payload word: the arithmetic instructions, to be followed by
/// a single `PUSH EAX`.
#[derive(Debug)]
pub struct EncodedWord {
    pub instructions: Vec<Instruction>,
}

/// Number of chunks a payload of `len` bytes is cut into; a short tail
/// counts as one chunk.
pub open spec fn spec_num_chunks(len: int) -> int {
    len / 4 + if len % 4 == 0 {
        0int
    } else {
        1int
    }
}

/// The `c`-th chunk in source order; the last one may be short.
pub open spec fn spec_chunk(p: Seq<u8>, c: int) -> Seq<u8> {
    p.subrange(
        4 * c,
        if 4 * c + 4 <= p.len() {
            4 * c + 4
        } else {
            p.len() as int
        },
    )
}

/// Target value of the `w`-th encoded word: words are emitted in reverse
/// chunk order, and a short tail is zero-extended on the high side.
pub open spec fn spec_target(p: Seq<u8>, w: int) -> int {
    chunk_value(spec_chunk(p, spec_num_chunks(p.len() as int) - 1 - w))
}

/// Accumulator value assumed before the `w`-th encoded word.
pub open spec fn spec_prev(p: Seq<u8>, start: u32, w: int) -> int {
    if w <= 0 {
        start as int
    } else {
        spec_target(p, w - 1)
    }
}

/// Encodes a whole payload: gates the alphabet, then encodes the four-byte
/// chunks in reverse order, threading the accumulator from `start_value`
/// through each word's target.
///
/// The result is `Ok` exactly when the alphabet is workable and every word
/// of the chain is encodable; the error names whichever condition failed.
#[verifier::rlimit(60)]
pub fn encode_payload(payload: &[u8], start_value: u32, good_bytes: &[u8]) -> (r: Result<
    Vec<EncodedWord>,
    EncodeError,
>)
    ensures
        ({
            let p = payload@;
            let a = good_bytes@;
            let n = spec_num_chunks(p.len() as int);
            &&& (r is Ok <==> spec_can_encode(a) && (forall|w: int|
                0 <= w < n ==> spec_word_feasible(
                    a,
                    (spec_prev(p, start_value, w)) as u32,
                    (spec_target(p, w)) as u32,
                )))
            &&& match r {
                Ok(words) => {
                    &&& words@.len() == n
                    &&& forall|w: int|
                        0 <= w < n ==> generate_ok(
                            a,
                            (spec_prev(p, start_value, w)) as u32,
                            (spec_target(p, w)) as u32,
                            (#[trigger] words@[w]).instructions@,
                        )
                },
                Err(e) => {
                    &&& (e == EncodeError::InfeasibleAlphabet <==> !spec_can_encode(a))
                    &&& (e == EncodeError::InfeasibleAlphabet || e
                        == EncodeError::WordNotEncodable)
                },
            }
        }),
{
    let ghost p = payload@;
    let ghost a = good_bytes@;
    if !can_encode(good_bytes) {
        return Err(EncodeError::InfeasibleAlphabet);
    }
    let len = payload.len();
    let n = len / 4 + if len % 4 == 0 {
        0
    } else {
        1
    };
    let mut words: Vec<EncodedWord> = Vec::new();
    let mut previous: u32 = start_value;
    let mut w: usize = 0;
    while w < n
        invariant
            p == payload@,
            a == good_bytes@,
            spec_can_encode(a),
            len == p.len(),
            n == spec_num_chunks(p.len() as int),
            w <= n,
            words@.len() == w,
            previous == spec_prev(p, start_value, w as int),
            forall|ww: int|
                0 <= ww < w ==> generate_ok(
                    a,
                    (spec_prev(p, start_value, ww)) as u32,
                    (spec_target(p, ww)) as u32,
                    (#[trigger] words@[ww]).instructions@,
                ),
            forall|ww: int|
                0 <= ww < w ==> spec_word_feasible(
                    a,
                    (spec_prev(p, start_value, ww)) as u32,
                    (spec_target(p, ww)) as u32,
                ),
        decreases n - w,
    {
        proof {
            vstd::arithmetic::div_mod::lemma_fundamental_div_mod(len as int, 4);
        }
        let c = n - 1 - w;
        let lo = 4 * c;
        let hi = if len - lo >= 4 {
            lo + 4
        } else {
            len
        };
        let chunk = vstd::slice::slice_subrange(payload, lo, hi);
        let wanted = compose_chunk(chunk);
        proof {
            assert(chunk@ =~= spec_chunk(p, c as int));
            assert(wanted == spec_target(p, w as int));
        }
        match generate(previous, wanted, good_bytes) {
            Ok(instrs) => {
                words.push(EncodedWord { instructions: instrs });
            },
            Err(e) => {
                proof {
                    assert(!spec_word_feasible(
                        a,
                        (spec_prev(p, start_value, w as int)) as u32,
                        (spec_target(p, w as int)) as u32,
                    ));
                }
                return Err(e);
            },
        }
        previous = wanted;
        w = w + 1;
    }
    Ok(words)
}

/// Little-endian value of one payload chunk.
fn compose_chunk(chunk: &[u8]) -> (r: u32)
    ensures
        r == chunk_value(chunk@),
{
    crate::bytes::compose(chunk)
}

/// The reverse-ordered target values of a payload, one per encoded word.
pub open spec fn spec_targets(p: Seq<u8>) -> Seq<u32> {
    Seq::new(spec_num_chunks(p.len() as int) as nat, |w: int| (spec_target(p, w)) as u32)
}

/// Bytes of a descending stack after pushing the given words in order: the
/// last word pushed sits at the lowest address, and each word's bytes appear
/// little-endian.
pub open spec fn stack_image(targets: Seq<u32>) -> Seq<u8>
    decreases targets.len(),
{
    if targets.len() == 0 {
        Seq::empty()
    } else {
        bytes_of(targets.last()) + stack_image(targets.drop_last())
    }
}

/// End-to-end composition: for a payload whose length is a multiple of four,
/// pushing the reverse-ordered word targets onto a descending stack
/// reproduces the payload byte for byte.
pub proof fn lemma_stack_reconstruction(p: Seq<u8>)
    requires
        p.len() % 4 == 0,
    ensures
        stack_image(spec_targets(p)) == p,
    decreases p.len(),
{
    let n = spec_num_chunks(p.len() as int);
    let targets = spec_targets(p);
    vstd::arithmetic::div_mod::lemma_fundamental_div_mod(p.len() as int, 4);
    if p.len() == 0 {
        assert(targets.len() == 0);
        assert(stack_image(targets) =~= p);
    } else {
        assert(n >= 1);
        let head = spec_chunk(p, 0);
        assert(head =~= p.subrange(0, 4));
        assert(pad4(head) =~= head);
        crate::bytes::lemma_le32_bound(head);
        crate::bytes::lemma_bytes_of_le32(head);
        assert(targets.last() == (spec_target(p, n - 1)) as u32);
        assert(spec_chunk(p, 0) == head);
        assert(bytes_of(targets.last()) == head);
        let rest = p.skip(4);
        vstd::arithmetic::div_mod::lemma_fundamental_div_mod_converse(
            rest.len() as int,
            4,
            p.len() as int / 4 - 1,
            0,
        );
        lemma_stack_reconstruction(rest);
        assert(targets.drop_last() =~= spec_targets(rest)) by {
            assert(spec_num_chunks(rest.len() as int) == n - 1);
            assert(forall|w: int|
                0 <= w < n - 1 ==> #[trigger] spec_chunk(p, n - 1 - w) =~= spec_chunk(
                    rest,
                    n - 2 - w,
                ));
        }
        assert(head + stack_image(spec_targets(rest)) =~= p);
    }
}

} // verus!
