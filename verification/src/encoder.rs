//! Word encoder: lane-wise search for arithmetic immediates.
//!
//! For a pair `(initial, target)` of 32-bit words and an alphabet of allowed
//! byte values, the encoder looks for the smallest `k` in `1..=4` and `k`
//! immediates, every byte of which lies in the alphabet, such that adding
//! (or subtracting, when `SUB EAX, imm32` is available) their sum to the
//! accumulator turns `initial` into `target` modulo 2^32.
//!
//! The search runs one 8-bit lane at a time, low lane first: a column sum at
//! lane `b` depends only on the lane-`b` bytes of the immediates plus the
//! carry out of lane `b - 1`, so four searches over `k`-tuples of alphabet
//! bytes replace one search over 32-bit values.

use vstd::prelude::*;

use crate::bytes::{bytes_of, decompose, le32};

verus! {

/// Opcode of `PUSH EAX`.
pub const PUSH_EAX: u8 = 0x50;

/// Opcode of `ADD EAX, imm32`.
pub const ADD_EAX: u8 = 0x05;

/// Opcode of `SUB EAX, imm32`.
pub const SUB_EAX: u8 = 0x2D;

/// An alphabet is workable when `PUSH EAX` and at least one of the two
/// arithmetic opcodes can be emitted from it.
pub open spec fn spec_can_encode(a: Seq<u8>) -> bool {
    a.contains(PUSH_EAX) && (a.contains(SUB_EAX) || a.contains(ADD_EAX))
}

/// `SUB` is preferred over `ADD` whenever its opcode is in the alphabet.
pub open spec fn spec_is_sub(a: Seq<u8>) -> bool {
    a.contains(SUB_EAX)
}

/// Sum of the first `n` bytes of a lane tuple.
pub open spec fn byte_sum_first(t: Seq<u8>, n: int) -> int
    decreases n,
{
    if n <= 0 {
        0
    } else {
        byte_sum_first(t, n - 1) + t[n - 1]
    }
}

/// Sum of all bytes of a lane tuple.
pub open spec fn byte_sum(t: Seq<u8>) -> int {
    byte_sum_first(t, t.len() as int)
}

/// A sum of `n` bytes lies between 0 and `255 * n`.
pub proof fn lemma_byte_sum_first_bounds(t: Seq<u8>, n: int)
    requires
        0 <= n <= t.len(),
    ensures
        0 <= byte_sum_first(t, n) <= 255 * n,
    decreases n,
{
    if n > 0 {
        lemma_byte_sum_first_bounds(t, n - 1);
    }
}

/// Column total of one lane: the fixed side of the lane equation plus the
/// carry in plus the tuple's byte sum.
pub open spec fn lane_total(base: u8, carry: u8, t: Seq<u8>) -> int {
    base + carry + byte_sum(t)
}

/// A tuple solves a lane when the low 8 bits of its column total equal the
/// lane's compare byte.
pub open spec fn tuple_matches(t: Seq<u8>, base: u8, cmp: u8, carry: u8) -> bool {
    lane_total(base, carry, t) % 0x100 == cmp
}

/// Carry handed from this lane into the next one.
pub open spec fn carry_out(t: Seq<u8>, base: u8, carry: u8) -> int {
    lane_total(base, carry, t) / 0x100
}

/// Side of the lane equation that joins the carry and the column sum:
/// the target byte under `SUB`, the initial byte under `ADD`.
pub open spec fn base_byte(is_sub: bool, target_bytes: Seq<u8>, initial_bytes: Seq<u8>, lane: int) -> u8 {
    if is_sub {
        target_bytes[lane]
    } else {
        initial_bytes[lane]
    }
}

/// Side of the lane equation that the low 8 bits of the column total must
/// reproduce: the initial byte under `SUB`, the target byte under `ADD`.
pub open spec fn cmp_byte(is_sub: bool, target_bytes: Seq<u8>, initial_bytes: Seq<u8>, lane: int) -> u8 {
    if is_sub {
        initial_bytes[lane]
    } else {
        target_bytes[lane]
    }
}

/// First matching `k`-tuple, in lexicographic order over the alphabet as
/// given, among the tuples that extend `prefix` and whose next byte is drawn
/// from position `i` of the alphabet onward.
pub open spec fn find_tuple(
    a: Seq<u8>,
    i: int,
    k: int,
    prefix: Seq<u8>,
    base: u8,
    cmp: u8,
    carry: u8,
) -> Option<Seq<u8>>
    decreases k - prefix.len(), a.len() - i,
{
    if prefix.len() >= k || i < 0 || i >= a.len() {
        None
    } else {
        let ext = prefix.push(a[i]);
        let found = if ext.len() == k {
            if tuple_matches(ext, base, cmp, carry) {
                Some(ext)
            } else {
                None
            }
        } else {
            find_tuple(a, 0, k, ext, base, cmp, carry)
        };
        if found is Some {
            found
        } else {
            find_tuple(a, i + 1, k, prefix, base, cmp, carry)
        }
    }
}

/// First matching `k`-tuple for one lane.
pub open spec fn find_lane(a: Seq<u8>, k: int, base: u8, cmp: u8, carry: u8) -> Option<Seq<u8>> {
    find_tuple(a, 0, k, Seq::empty(), base, cmp, carry)
}

/// Whatever `find_tuple` returns extends its prefix with alphabet bytes to
/// length `k` and solves the lane equation.
pub proof fn lemma_find_tuple_ok(
    a: Seq<u8>,
    i: int,
    k: int,
    prefix: Seq<u8>,
    base: u8,
    cmp: u8,
    carry: u8,
)
    requires
        0 <= i <= a.len(),
        0 <= prefix.len() < k,
        find_tuple(a, i, k, prefix, base, cmp, carry) is Some,
    ensures
        find_tuple(a, i, k, prefix, base, cmp, carry)->Some_0.len() == k,
        forall|j: int|
            0 <= j < prefix.len() ==> find_tuple(a, i, k, prefix, base, cmp, carry)->Some_0[j]
                == prefix[j],
        forall|j: int|
            prefix.len() <= j < k ==> a.contains(
                #[trigger] find_tuple(a, i, k, prefix, base, cmp, carry)->Some_0[j],
            ),
        tuple_matches(find_tuple(a, i, k, prefix, base, cmp, carry)->Some_0, base, cmp, carry),
    decreases k - prefix.len(), a.len() - i,
{
    let ext = prefix.push(a[i]);
    let found = if ext.len() == k {
        if tuple_matches(ext, base, cmp, carry) {
            Some(ext)
        } else {
            None
        }
    } else {
        find_tuple(a, 0, k, ext, base, cmp, carry)
    };
    if found is Some {
        let t = found->Some_0;
        assert(a.contains(a[i]));
        if ext.len() == k {
            assert(t == ext);
            assert(forall|j: int| prefix.len() <= j < k ==> #[trigger] t[j] == a[i]);
        } else {
            lemma_find_tuple_ok(a, 0, k, ext, base, cmp, carry);
            assert(t[prefix.len() as int] == ext[prefix.len() as int]);
            assert(ext[prefix.len() as int] == a[i]);
            assert(forall|j: int|
                prefix.len() < j < k ==> a.contains(#[trigger] t[j]));
            assert(forall|j: int|
                0 <= j < prefix.len() ==> #[trigger] t[j] == ext[j] && ext[j] == prefix[j]);
        }
    } else {
        lemma_find_tuple_ok(a, i + 1, k, prefix, base, cmp, carry);
    }
}

/// The enumeration misses nothing: when `find_tuple` comes back empty, no
/// tuple that extends `prefix`, draws its next byte from position `idx` of
/// the alphabet onward and its later bytes from anywhere in the alphabet,
/// solves the lane equation.
proof fn lemma_find_tuple_complete(
    a: Seq<u8>,
    i: int,
    k: int,
    prefix: Seq<u8>,
    base: u8,
    cmp: u8,
    carry: u8,
    t: Seq<u8>,
    idx: int,
)
    requires
        0 <= prefix.len() < k,
        0 <= i <= idx < a.len(),
        find_tuple(a, i, k, prefix, base, cmp, carry) is None,
        t.len() == k,
        forall|j: int| 0 <= j < prefix.len() ==> #[trigger] t[j] == prefix[j],
        t[prefix.len() as int] == a[idx],
        forall|j: int| prefix.len() < j < k ==> a.contains(#[trigger] t[j]),
    ensures
        !tuple_matches(t, base, cmp, carry),
    decreases k - prefix.len(), a.len() - i,
{
    let ext = prefix.push(a[i]);
    if t[prefix.len() as int] == a[i] {
        assert(forall|j: int| 0 <= j < ext.len() ==> #[trigger] t[j] == ext[j]);
        if prefix.len() + 1 == k {
            assert(t =~= ext);
        } else {
            assert(find_tuple(a, 0, k, ext, base, cmp, carry) is None);
            let pos = ext.len() as int;
            assert(a.contains(t[pos]));
            let idx2 = choose|x: int| 0 <= x < a.len() && a[x] == t[pos];
            lemma_find_tuple_complete(a, 0, k, ext, base, cmp, carry, t, idx2);
        }
    } else {
        assert(i < idx);
        assert(find_tuple(a, i + 1, k, prefix, base, cmp, carry) is None);
        lemma_find_tuple_complete(a, i + 1, k, prefix, base, cmp, carry, t, idx);
    }
}

/// The lane search is complete: when it finds nothing at count `k`, no
/// `k`-tuple of alphabet bytes at all solves the lane equation — so a failed
/// count is genuinely unsolvable lane by lane, not merely unexplored.
pub proof fn lemma_lane_search_complete(
    a: Seq<u8>,
    k: int,
    base: u8,
    cmp: u8,
    carry: u8,
    t: Seq<u8>,
)
    requires
        1 <= k,
        find_lane(a, k, base, cmp, carry) is None,
        t.len() == k,
        forall|j: int| 0 <= j < k ==> a.contains(#[trigger] t[j]),
    ensures
        !tuple_matches(t, base, cmp, carry),
{
    assert(a.contains(t[0]));
    let idx = choose|x: int| 0 <= x < a.len() && a[x] == t[0];
    lemma_find_tuple_complete(a, 0, k, Seq::empty(), base, cmp, carry, t, idx);
}

/// Linear scan for one byte value.
pub fn contains_byte(a: &[u8], x: u8) -> (r: bool)
    ensures
        r == a@.contains(x),
{
    let mut i: usize = 0;
    while i < a.len()
        invariant
            i <= a@.len(),
            forall|j: int| 0 <= j < i ==> a@[j] != x,
        decreases a@.len() - i,
    {
        if a[i] == x {
            return true;
        }
        i = i + 1;
    }
    false
}

/// Alphabet gate: `PUSH EAX` must be allowed, and at least one of
/// `SUB EAX, imm32` and `ADD EAX, imm32`.
pub fn can_encode(good_bytes: &[u8]) -> (r: bool)
    ensures
        r == spec_can_encode(good_bytes@),
{
    contains_byte(good_bytes, PUSH_EAX) && (contains_byte(good_bytes, SUB_EAX) || contains_byte(
        good_bytes,
        ADD_EAX,
    ))
}

/// Column total of a candidate tuple, computed in 32 bits.
fn column_total(bytes: &Vec<u8>, base: u8, carry: u8) -> (r: u32)
    requires
        bytes@.len() <= 4,
    ensures
        r == lane_total(base, carry, bytes@),
        r <= 1530,
{
    let mut total: u32 = base as u32 + carry as u32;
    let mut i: usize = 0;
    while i < bytes.len()
        invariant
            i <= bytes@.len() <= 4,
            total == base + carry + byte_sum_first(bytes@, i as int),
            total <= 510 + 255 * i,
        decreases bytes@.len() - i,
    {
        proof {
            lemma_byte_sum_first_bounds(bytes@, i as int);
        }
        total = total + bytes[i] as u32;
        i = i + 1;
    }
    total
}

/// Depth-first enumeration of the lane tuples that extend the bytes already
/// chosen in `bytes`, in lexicographic order over `good_bytes`.
///
/// On success the chosen tuple is left in `bytes` and the lane's carry out is
/// returned; on failure `bytes` is as it was and no extension of it matches.
pub fn generate_instruction_byte(
    instruction_count: u8,
    deep: u8,
    good_bytes: &[u8],
    target_bytes: &Vec<u8>,
    initial_bytes: &Vec<u8>,
    carry: u8,
    byte_number: usize,
    is_sub: bool,
    bytes: &mut Vec<u8>,
) -> (r: Option<u8>)
    requires
        1 <= instruction_count <= 4,
        deep == old(bytes)@.len(),
        deep < instruction_count,
        byte_number < 4,
        target_bytes@.len() == 4,
        initial_bytes@.len() == 4,
    ensures
        ({
            let base = base_byte(is_sub, target_bytes@, initial_bytes@, byte_number as int);
            let cmp = cmp_byte(is_sub, target_bytes@, initial_bytes@, byte_number as int);
            let sought = find_tuple(
                good_bytes@,
                0,
                instruction_count as int,
                old(bytes)@,
                base,
                cmp,
                carry,
            );
            match r {
                Some(c) => {
                    &&& sought == Some(final(bytes)@)
                    &&& final(bytes)@.len() == instruction_count
                    &&& c == carry_out(final(bytes)@, base, carry)
                },
                None => {
                    &&& sought is None
                    &&& final(bytes)@ == old(bytes)@
                },
            }
        }),
    decreases instruction_count - deep,
{
    let ghost a = good_bytes@;
    let ghost k = instruction_count as int;
    let ghost prefix = old(bytes)@;
    let ghost base = base_byte(is_sub, target_bytes@, initial_bytes@, byte_number as int);
    let ghost cmp = cmp_byte(is_sub, target_bytes@, initial_bytes@, byte_number as int);
    let mut idx: usize = 0;
    while idx < good_bytes.len()
        invariant
            1 <= instruction_count <= 4,
            deep == prefix.len(),
            deep < instruction_count,
            byte_number < 4,
            target_bytes@.len() == 4,
            initial_bytes@.len() == 4,
            a == good_bytes@,
            k == instruction_count as int,
            base == base_byte(is_sub, target_bytes@, initial_bytes@, byte_number as int),
            cmp == cmp_byte(is_sub, target_bytes@, initial_bytes@, byte_number as int),
            idx <= a.len(),
            prefix == old(bytes)@,
            bytes@ == prefix,
            find_tuple(a, 0, k, prefix, base, cmp, carry) == find_tuple(
                a,
                idx as int,
                k,
                prefix,
                base,
                cmp,
                carry,
            ),
        decreases a.len() - idx,
    {
        let good_byte = good_bytes[idx];
        let ghost ext = prefix.push(good_byte);
        bytes.push(good_byte);
        if instruction_count - deep > 1 {
            let result = generate_instruction_byte(
                instruction_count,
                deep + 1,
                good_bytes,
                target_bytes,
                initial_bytes,
                carry,
                byte_number,
                is_sub,
                bytes,
            );
            if result.is_some() {
                proof {
                    assert(find_tuple(a, idx as int, k, prefix, base, cmp, carry) == find_tuple(
                        a,
                        0,
                        k,
                        ext,
                        base,
                        cmp,
                        carry,
                    ));
                }
                return result;
            }
            let _ = bytes.pop();
            proof {
                assert(ext.drop_last() =~= prefix);
                assert(find_tuple(a, idx as int, k, prefix, base, cmp, carry) == find_tuple(
                    a,
                    idx as int + 1,
                    k,
                    prefix,
                    base,
                    cmp,
                    carry,
                ));
            }
        } else {
            let total = column_total(bytes, if is_sub {
                target_bytes[byte_number]
            } else {
                initial_bytes[byte_number]
            }, carry);
            let single_compare = if is_sub {
                initial_bytes[byte_number]
            } else {
                target_bytes[byte_number]
            };
            proof {
                assert(total & 0xff == total % 0x100) by (bit_vector);
                assert(total <= 1530 ==> ((total >> 8) & 0xff) == total / 0x100) by (bit_vector);
            }
            if (total & 0xff) as u8 == single_compare {
                let c = ((total >> 8) & 0xff) as u8;
                proof {
                    assert(bytes@ == ext);
                    assert(tuple_matches(ext, base, cmp, carry));
                    assert(find_tuple(a, idx as int, k, prefix, base, cmp, carry) == Some(ext));
                }
                return Some(c);
            }
            let _ = bytes.pop();
            proof {
                assert(ext.drop_last() =~= prefix);
                assert(!tuple_matches(ext, base, cmp, carry));
                assert(find_tuple(a, idx as int, k, prefix, base, cmp, carry) == find_tuple(
                    a,
                    idx as int + 1,
                    k,
                    prefix,
                    base,
                    cmp,
                    carry,
                ));
            }
        }
        idx = idx + 1;
    }
    None
}

/// One emitted instruction: an arithmetic opcode and its four-byte
/// little-endian immediate.
#[derive(Debug)]
pub struct Instruction {
    pub opcode: u8,
    pub imm: Vec<u8>,
}

impl Instruction {
    /// An instruction always carries exactly four immediate bytes.
    pub open spec fn wf(&self) -> bool {
        self.imm@.len() == 4
    }
}

/// Lane tuples found so far, prepended to the outcome of the remaining lanes.
pub open spec fn with_prefix(pre: Seq<Seq<u8>>, rest: Option<Seq<Seq<u8>>>) -> Option<
    Seq<Seq<u8>>,
> {
    match rest {
        None => None,
        Some(r) => Some(pre + r),
    }
}

/// The lane tuples held in a vector of byte vectors.
pub open spec fn lanes_view(w: Seq<Vec<u8>>) -> Seq<Seq<u8>> {
    Seq::new(w.len(), |b: int| w[b]@)
}

/// Greedy chained lane search from lane `lane` on, with carry `carry` coming
/// in: each lane takes the first matching tuple and hands its carry out to
/// the next lane. The carry out of lane 3 is discarded, which is the mod-2^32
/// wraparound.
pub open spec fn chain_from(
    a: Seq<u8>,
    k: int,
    tb: Seq<u8>,
    ib: Seq<u8>,
    is_sub: bool,
    lane: int,
    carry: u8,
) -> Option<Seq<Seq<u8>>>
    decreases 4 - lane,
{
    if lane >= 4 {
        Some(Seq::empty())
    } else {
        let base = base_byte(is_sub, tb, ib, lane);
        let cmp = cmp_byte(is_sub, tb, ib, lane);
        match find_lane(a, k, base, cmp, carry) {
            None => None,
            Some(t) => {
                let c2 = carry_out(t, base, carry) as u8;
                with_prefix(seq![t], chain_from(a, k, tb, ib, is_sub, lane + 1, c2))
            },
        }
    }
}

/// Outcome of the whole four-lane search at immediate count `k`.
pub open spec fn encode_search(a: Seq<u8>, k: int, tb: Seq<u8>, ib: Seq<u8>, is_sub: bool) -> Option<
    Seq<Seq<u8>>,
> {
    chain_from(a, k, tb, ib, is_sub, 0, 0)
}

/// Carry flowing into lane `lane` of the chained search at count `k`.
pub open spec fn carry_into(
    a: Seq<u8>,
    k: int,
    tb: Seq<u8>,
    ib: Seq<u8>,
    is_sub: bool,
    lane: int,
) -> u8
    decreases lane,
{
    if lane <= 0 {
        0
    } else {
        let prev = carry_into(a, k, tb, ib, is_sub, lane - 1);
        let base = base_byte(is_sub, tb, ib, lane - 1);
        let cmp = cmp_byte(is_sub, tb, ib, lane - 1);
        match find_lane(a, k, base, cmp, prev) {
            None => 0,
            Some(t) => carry_out(t, base, prev) as u8,
        }
    }
}

/// A successful chained search returns four lane tuples of length `k`, made
/// of alphabet bytes, each solving its lane equation under the chained carry.
pub proof fn lemma_chain_props(a: Seq<u8>, k: int, tb: Seq<u8>, ib: Seq<u8>, is_sub: bool)
    requires
        1 <= k <= 4,
        encode_search(a, k, tb, ib, is_sub) is Some,
    ensures
        encode_search(a, k, tb, ib, is_sub)->Some_0.len() == 4,
        forall|b: int|
            0 <= b < 4 ==> find_lane(
                a,
                k,
                base_byte(is_sub, tb, ib, b),
                cmp_byte(is_sub, tb, ib, b),
                carry_into(a, k, tb, ib, is_sub, b),
            ) == Some(#[trigger] encode_search(a, k, tb, ib, is_sub)->Some_0[b]),
        forall|b: int|
            0 <= b < 4 ==> (#[trigger] encode_search(a, k, tb, ib, is_sub)->Some_0[b]).len() == k,
        forall|b: int, j: int|
            0 <= b < 4 && 0 <= j < k ==> a.contains(
                #[trigger] encode_search(a, k, tb, ib, is_sub)->Some_0[b][j],
            ),
        forall|b: int|
            0 <= b < 4 ==> tuple_matches(
                #[trigger] encode_search(a, k, tb, ib, is_sub)->Some_0[b],
                base_byte(is_sub, tb, ib, b),
                cmp_byte(is_sub, tb, ib, b),
                carry_into(a, k, tb, ib, is_sub, b),
            ),
{
    let b0 = base_byte(is_sub, tb, ib, 0);
    let m0 = cmp_byte(is_sub, tb, ib, 0);
    let b1 = base_byte(is_sub, tb, ib, 1);
    let m1 = cmp_byte(is_sub, tb, ib, 1);
    let b2 = base_byte(is_sub, tb, ib, 2);
    let m2 = cmp_byte(is_sub, tb, ib, 2);
    let b3 = base_byte(is_sub, tb, ib, 3);
    let m3 = cmp_byte(is_sub, tb, ib, 3);
    assert(carry_into(a, k, tb, ib, is_sub, 0) == 0);
    assert(find_lane(a, k, b0, m0, 0) is Some);
    let t0 = find_lane(a, k, b0, m0, 0)->Some_0;
    let c1 = carry_out(t0, b0, 0) as u8;
    assert(carry_into(a, k, tb, ib, is_sub, 1) == c1);
    assert(chain_from(a, k, tb, ib, is_sub, 1, c1) is Some);
    assert(find_lane(a, k, b1, m1, c1) is Some);
    let t1 = find_lane(a, k, b1, m1, c1)->Some_0;
    let c2 = carry_out(t1, b1, c1) as u8;
    assert(carry_into(a, k, tb, ib, is_sub, 2) == c2);
    assert(chain_from(a, k, tb, ib, is_sub, 2, c2) is Some);
    assert(find_lane(a, k, b2, m2, c2) is Some);
    let t2 = find_lane(a, k, b2, m2, c2)->Some_0;
    let c3 = carry_out(t2, b2, c2) as u8;
    assert(carry_into(a, k, tb, ib, is_sub, 3) == c3);
    assert(chain_from(a, k, tb, ib, is_sub, 3, c3) is Some);
    assert(find_lane(a, k, b3, m3, c3) is Some);
    let t3 = find_lane(a, k, b3, m3, c3)->Some_0;
    let c4 = carry_out(t3, b3, c3) as u8;
    assert(chain_from(a, k, tb, ib, is_sub, 4, c4) == Some(Seq::<Seq<u8>>::empty()));
    assert(chain_from(a, k, tb, ib, is_sub, 3, c3)->Some_0 =~= seq![t3]);
    assert(chain_from(a, k, tb, ib, is_sub, 2, c2)->Some_0 =~= seq![t2, t3]);
    assert(chain_from(a, k, tb, ib, is_sub, 1, c1)->Some_0 =~= seq![t1, t2, t3]);
    let lanes = encode_search(a, k, tb, ib, is_sub)->Some_0;
    assert(lanes =~= seq![t0, t1, t2, t3]);
    assert(lanes[0] == t0 && lanes[1] == t1 && lanes[2] == t2 && lanes[3] == t3);
    lemma_find_tuple_ok(a, 0, k, Seq::empty(), b0, m0, 0);
    lemma_find_tuple_ok(a, 0, k, Seq::empty(), b1, m1, c1);
    lemma_find_tuple_ok(a, 0, k, Seq::empty(), b2, m2, c2);
    lemma_find_tuple_ok(a, 0, k, Seq::empty(), b3, m3, c3);
    assert(forall|b: int, j: int|
        0 <= b < 4 && 0 <= j < k ==> a.contains(#[trigger] lanes[b][j])) by {
        assert(forall|j: int| 0 <= j < k ==> a.contains(#[trigger] t0[j]));
        assert(forall|j: int| 0 <= j < k ==> a.contains(#[trigger] t1[j]));
        assert(forall|j: int| 0 <= j < k ==> a.contains(#[trigger] t2[j]));
        assert(forall|j: int| 0 <= j < k ==> a.contains(#[trigger] t3[j]));
    }
}

/// A failed chained search pins the blame on a lane: some lane's search came
/// back empty under the carry the earlier lanes handed it (and by the
/// completeness of the lane search, no tuple of alphabet bytes solves it).
pub proof fn lemma_chain_failure(a: Seq<u8>, k: int, tb: Seq<u8>, ib: Seq<u8>, is_sub: bool)
    requires
        1 <= k <= 4,
        encode_search(a, k, tb, ib, is_sub) is None,
    ensures
        exists|b: int|
            0 <= b < 4 && find_lane(
                a,
                k,
                base_byte(is_sub, tb, ib, b),
                cmp_byte(is_sub, tb, ib, b),
                carry_into(a, k, tb, ib, is_sub, b),
            ) is None,
{
    let b0 = base_byte(is_sub, tb, ib, 0);
    let m0 = cmp_byte(is_sub, tb, ib, 0);
    assert(carry_into(a, k, tb, ib, is_sub, 0) == 0);
    if find_lane(a, k, b0, m0, 0) is None {
        assert(0 <= 0 < 4 && find_lane(
            a,
            k,
            base_byte(is_sub, tb, ib, 0),
            cmp_byte(is_sub, tb, ib, 0),
            carry_into(a, k, tb, ib, is_sub, 0),
        ) is None);
    } else {
        let t0 = find_lane(a, k, b0, m0, 0)->Some_0;
        let c1 = carry_out(t0, b0, 0) as u8;
        assert(carry_into(a, k, tb, ib, is_sub, 1) == c1);
        assert(chain_from(a, k, tb, ib, is_sub, 1, c1) is None);
        let b1 = base_byte(is_sub, tb, ib, 1);
        let m1 = cmp_byte(is_sub, tb, ib, 1);
        if find_lane(a, k, b1, m1, c1) is None {
            assert(0 <= 1 < 4 && find_lane(
                a,
                k,
                base_byte(is_sub, tb, ib, 1),
                cmp_byte(is_sub, tb, ib, 1),
                carry_into(a, k, tb, ib, is_sub, 1),
            ) is None);
        } else {
            let t1 = find_lane(a, k, b1, m1, c1)->Some_0;
            let c2 = carry_out(t1, b1, c1) as u8;
            assert(carry_into(a, k, tb, ib, is_sub, 2) == c2);
            assert(chain_from(a, k, tb, ib, is_sub, 2, c2) is None);
            let b2 = base_byte(is_sub, tb, ib, 2);
            let m2 = cmp_byte(is_sub, tb, ib, 2);
            if find_lane(a, k, b2, m2, c2) is None {
                assert(0 <= 2 < 4 && find_lane(
                    a,
                    k,
                    base_byte(is_sub, tb, ib, 2),
                    cmp_byte(is_sub, tb, ib, 2),
                    carry_into(a, k, tb, ib, is_sub, 2),
                ) is None);
            } else {
                let t2 = find_lane(a, k, b2, m2, c2)->Some_0;
                let c3 = carry_out(t2, b2, c2) as u8;
                assert(carry_into(a, k, tb, ib, is_sub, 3) == c3);
                assert(chain_from(a, k, tb, ib, is_sub, 3, c3) is None);
                let b3 = base_byte(is_sub, tb, ib, 3);
                let m3 = cmp_byte(is_sub, tb, ib, 3);
                let c4 = if find_lane(a, k, b3, m3, c3) is Some {
                    carry_out(find_lane(a, k, b3, m3, c3)->Some_0, b3, c3) as u8
                } else {
                    0
                };
                assert(chain_from(a, k, tb, ib, is_sub, 4, c4) is Some);
                assert(find_lane(a, k, b3, m3, c3) is None);
                assert(0 <= 3 < 4 && find_lane(
                    a,
                    k,
                    base_byte(is_sub, tb, ib, 3),
                    cmp_byte(is_sub, tb, ib, 3),
                    carry_into(a, k, tb, ib, is_sub, 3),
                ) is None);
            }
        }
    }
}

/// Runs the four-lane search at a fixed immediate count, chaining the
/// carries, and on success leaves the four lane tuples in `word`.
pub fn generate_instruction(
    instruction_count: u8,
    good_bytes: &[u8],
    word: &mut Vec<Vec<u8>>,
    target_bytes: &Vec<u8>,
    initial_bytes: &Vec<u8>,
) -> (r: bool)
    requires
        1 <= instruction_count <= 4,
        target_bytes@.len() == 4,
        initial_bytes@.len() == 4,
    ensures
        ({
            let sought = encode_search(
                good_bytes@,
                instruction_count as int,
                target_bytes@,
                initial_bytes@,
                spec_is_sub(good_bytes@),
            );
            &&& r == (sought is Some)
            &&& r ==> sought == Some(lanes_view(final(word)@))
        }),
{
    let ghost a = good_bytes@;
    let ghost k = instruction_count as int;
    let ghost sub = spec_is_sub(good_bytes@);
    let is_sub = contains_byte(good_bytes, SUB_EAX);
    let mut out: Vec<Vec<u8>> = Vec::new();
    let mut carry: u8 = 0;
    let mut byte_number: usize = 0;
    while byte_number < 4
        invariant
            1 <= instruction_count <= 4,
            target_bytes@.len() == 4,
            initial_bytes@.len() == 4,
            a == good_bytes@,
            k == instruction_count as int,
            sub == spec_is_sub(good_bytes@),
            is_sub == sub,
            byte_number <= 4,
            out@.len() == byte_number,
            chain_from(a, k, target_bytes@, initial_bytes@, sub, 0, 0) == with_prefix(
                lanes_view(out@),
                chain_from(a, k, target_bytes@, initial_bytes@, sub, byte_number as int, carry),
            ),
        decreases 4 - byte_number,
    {
        let ghost lanes_before = lanes_view(out@);
        let mut lane_bytes: Vec<u8> = Vec::new();
        let result = generate_instruction_byte(
            instruction_count,
            0,
            good_bytes,
            target_bytes,
            initial_bytes,
            carry,
            byte_number,
            is_sub,
            &mut lane_bytes,
        );
        match result {
            Some(c) => {
                proof {
                    let base = base_byte(sub, target_bytes@, initial_bytes@, byte_number as int);
                    let t = lane_bytes@;
                    assert(find_lane(a, k, base, cmp_byte(sub, target_bytes@, initial_bytes@, byte_number as int), carry) == Some(t));
                    lemma_byte_sum_first_bounds(t, t.len() as int);
                    assert(carry_out(t, base, carry) == c);
                    assert(carry_out(t, base, carry) as u8 == c);
                    assert(lanes_view(out@.push(lane_bytes)) =~= lanes_before.push(t));
                    match chain_from(a, k, target_bytes@, initial_bytes@, sub, byte_number as int + 1, c) {
                        Some(rest) => {
                            assert(lanes_before + (seq![t] + rest) =~= lanes_before.push(t) + rest);
                        },
                        None => {},
                    }
                }
                out.push(lane_bytes);
                carry = c;
            },
            None => {
                proof {
                    assert(chain_from(a, k, target_bytes@, initial_bytes@, sub, byte_number as int, carry) is None);
                }
                return false;
            },
        }
        byte_number = byte_number + 1;
    }
    proof {
        assert(chain_from(a, k, target_bytes@, initial_bytes@, sub, 4, carry) == Some(
            Seq::<Seq<u8>>::empty(),
        ));
        assert(lanes_view(out@) + Seq::<Seq<u8>>::empty() =~= lanes_view(out@));
    }
    *word = out;
    true
}

/// Column sums of the four lanes, weighted by the lanes' little-endian
/// multipliers: the total amount the immediates add to the accumulator.
pub open spec fn weighted_sum(lanes: Seq<Seq<u8>>) -> int
    recommends
        lanes.len() == 4,
{
    byte_sum(lanes[0]) + 0x100 * byte_sum(lanes[1]) + 0x10000 * byte_sum(lanes[2]) + 0x1000000
        * byte_sum(lanes[3])
}

/// The four bytes of immediate `j`, read across the lane tuples.
pub open spec fn imm_of_lanes(lanes: Seq<Seq<u8>>, j: int) -> Seq<u8> {
    Seq::new(4, |b: int| lanes[b][j])
}

/// Sum of the values of the first `n` immediates.
pub open spec fn imm_sum_first(s: Seq<Instruction>, n: int) -> int
    decreases n,
{
    if n <= 0 {
        0
    } else {
        imm_sum_first(s, n - 1) + le32(s[n - 1].imm@)
    }
}

/// Sum of the values of all immediates of an encoded word.
pub open spec fn imm_sum(s: Seq<Instruction>) -> int {
    imm_sum_first(s, s.len() as int)
}

/// Arithmetic soundness of an encoded word: executing the instructions from
/// `initial` leaves `target` in the accumulator, modulo 2^32.
pub open spec fn word_sound(initial: u32, target: u32, is_sub: bool, s: Seq<Instruction>) -> bool {
    if is_sub {
        (target + imm_sum(s)) % 0x100000000 == initial
    } else {
        (initial + imm_sum(s)) % 0x100000000 == target
    }
}

/// A matching lane tuple satisfies the exact column equation
/// `base + carry + sum == 256 * carry_out + cmp`.
proof fn lemma_lane_equation(t: Seq<u8>, base: u8, cmp: u8, carry: u8, k: int)
    requires
        t.len() == k,
        1 <= k <= 4,
        tuple_matches(t, base, cmp, carry),
    ensures
        0 <= byte_sum(t) <= 1020,
        0 <= carry_out(t, base, carry) <= 5,
        base + carry + byte_sum(t) == 0x100 * carry_out(t, base, carry) + cmp,
{
    lemma_byte_sum_first_bounds(t, t.len() as int);
    vstd::arithmetic::div_mod::lemma_fundamental_div_mod(lane_total(base, carry, t), 0x100);
}

/// Arithmetic soundness of a successful chained search: the weighted column
/// sums move the accumulator from `initial` to `target` modulo 2^32 (the
/// direction depending on the opcode).
pub proof fn lemma_chain_sound(a: Seq<u8>, k: int, tb: Seq<u8>, ib: Seq<u8>, is_sub: bool)
    requires
        1 <= k <= 4,
        tb.len() == 4,
        ib.len() == 4,
        encode_search(a, k, tb, ib, is_sub) is Some,
    ensures
        weighted_sum(encode_search(a, k, tb, ib, is_sub)->Some_0) >= 0,
        is_sub ==> (le32(tb) + weighted_sum(encode_search(a, k, tb, ib, is_sub)->Some_0))
            % 0x100000000 == le32(ib),
        !is_sub ==> (le32(ib) + weighted_sum(encode_search(a, k, tb, ib, is_sub)->Some_0))
            % 0x100000000 == le32(tb),
{
    lemma_chain_props(a, k, tb, ib, is_sub);
    let lanes = encode_search(a, k, tb, ib, is_sub)->Some_0;
    let b0 = base_byte(is_sub, tb, ib, 0);
    let m0 = cmp_byte(is_sub, tb, ib, 0);
    let b1 = base_byte(is_sub, tb, ib, 1);
    let m1 = cmp_byte(is_sub, tb, ib, 1);
    let b2 = base_byte(is_sub, tb, ib, 2);
    let m2 = cmp_byte(is_sub, tb, ib, 2);
    let b3 = base_byte(is_sub, tb, ib, 3);
    let m3 = cmp_byte(is_sub, tb, ib, 3);
    let c0 = carry_into(a, k, tb, ib, is_sub, 0);
    let c1 = carry_into(a, k, tb, ib, is_sub, 1);
    let c2 = carry_into(a, k, tb, ib, is_sub, 2);
    let c3 = carry_into(a, k, tb, ib, is_sub, 3);
    assert(c0 == 0);
    lemma_lane_equation(lanes[0], b0, m0, c0, k);
    lemma_lane_equation(lanes[1], b1, m1, c1, k);
    lemma_lane_equation(lanes[2], b2, m2, c2, k);
    lemma_lane_equation(lanes[3], b3, m3, c3, k);
    let q1 = carry_out(lanes[0], b0, c0);
    let q2 = carry_out(lanes[1], b1, c1);
    let q3 = carry_out(lanes[2], b2, c2);
    let q4 = carry_out(lanes[3], b3, c3);
    assert(c1 == q1);
    assert(c2 == q2);
    assert(c3 == q3);
    let base_word = if is_sub {
        le32(tb)
    } else {
        le32(ib)
    };
    let cmp_word = if is_sub {
        le32(ib)
    } else {
        le32(tb)
    };
    assert(base_word == b0 + 0x100 * b1 + 0x10000 * b2 + 0x1000000 * b3);
    assert(cmp_word == m0 + 0x100 * m1 + 0x10000 * m2 + 0x1000000 * m3);
    assert(base_word + weighted_sum(lanes) == 0x100000000 * q4 + cmp_word);
    vstd::arithmetic::div_mod::lemma_fundamental_div_mod_converse(
        base_word + weighted_sum(lanes),
        0x100000000,
        q4,
        cmp_word,
    );
}

/// Reading the found lane tuples column-wise as immediates preserves the
/// total: the immediate values sum to the weighted column sums.
pub proof fn lemma_transpose(lanes: Seq<Seq<u8>>, instrs: Seq<Instruction>, n: int)
    requires
        lanes.len() == 4,
        forall|b: int| 0 <= b < 4 ==> (#[trigger] lanes[b]).len() == instrs.len(),
        forall|j: int|
            0 <= j < instrs.len() ==> (#[trigger] instrs[j]).imm@ == imm_of_lanes(lanes, j),
        0 <= n <= instrs.len(),
    ensures
        imm_sum_first(instrs, n) == byte_sum_first(lanes[0], n) + 0x100 * byte_sum_first(
            lanes[1],
            n,
        ) + 0x10000 * byte_sum_first(lanes[2], n) + 0x1000000 * byte_sum_first(lanes[3], n),
    decreases n,
{
    if n > 0 {
        lemma_transpose(lanes, instrs, n - 1);
        assert(instrs[n - 1].imm@ == imm_of_lanes(lanes, n - 1));
        assert(le32(imm_of_lanes(lanes, n - 1)) == lanes[0][n - 1] + 0x100 * lanes[1][n - 1]
            + 0x10000 * lanes[2][n - 1] + 0x1000000 * lanes[3][n - 1]);
    }
}

/// Immediate count the encoder settles on: the least `k` in `1..=4` at which
/// the chained search succeeds, or 5 when all four fail.
pub open spec fn spec_first_k(a: Seq<u8>, tb: Seq<u8>, ib: Seq<u8>, is_sub: bool) -> int {
    if encode_search(a, 1, tb, ib, is_sub) is Some {
        1
    } else if encode_search(a, 2, tb, ib, is_sub) is Some {
        2
    } else if encode_search(a, 3, tb, ib, is_sub) is Some {
        3
    } else if encode_search(a, 4, tb, ib, is_sub) is Some {
        4
    } else {
        5
    }
}

/// Minimality within the lane-search heuristic: at every immediate count
/// below the one settled on, the chained search yields no four-lane solution.
pub proof fn lemma_first_k_minimal(a: Seq<u8>, tb: Seq<u8>, ib: Seq<u8>, is_sub: bool)
    ensures
        forall|kk: int|
            1 <= kk < spec_first_k(a, tb, ib, is_sub) ==> encode_search(a, kk, tb, ib, is_sub)
                is None,
        spec_first_k(a, tb, ib, is_sub) <= 4 ==> encode_search(
            a,
            spec_first_k(a, tb, ib, is_sub),
            tb,
            ib,
            is_sub,
        ) is Some,
{
}

/// Everything a successful word encoding promises: the instruction list is
/// the transposed outcome of the chained lane search at the first successful
/// immediate count, every emitted byte lies in the alphabet, and the
/// instructions move the accumulator from `initial` to `target` modulo 2^32.
pub open spec fn generate_ok(a: Seq<u8>, initial: u32, target: u32, instrs: Seq<Instruction>) -> bool {
    let sub = spec_is_sub(a);
    let tb = bytes_of(target);
    let ib = bytes_of(initial);
    let fk = spec_first_k(a, tb, ib, sub);
    &&& 1 <= fk <= 4
    &&& instrs.len() == fk
    &&& forall|j: int|
        0 <= j < instrs.len() ==> (#[trigger] instrs[j]).opcode == (if sub {
            SUB_EAX
        } else {
            ADD_EAX
        })
    &&& forall|j: int|
        0 <= j < instrs.len() ==> (#[trigger] instrs[j]).imm@ == imm_of_lanes(
            encode_search(a, fk, tb, ib, sub)->Some_0,
            j,
        )
    &&& forall|j: int| 0 <= j < instrs.len() ==> (#[trigger] instrs[j]).wf()
    &&& forall|j: int| 0 <= j < instrs.len() ==> a.contains((#[trigger] instrs[j]).opcode)
    &&& forall|j: int, b: int|
        0 <= j < instrs.len() && 0 <= b < 4 ==> a.contains(#[trigger] instrs[j].imm@[b])
    &&& word_sound(initial, target, sub, instrs)
}

/// A word is encodable exactly when the chained search succeeds at some
/// immediate count up to four.
pub open spec fn spec_word_feasible(a: Seq<u8>, initial: u32, target: u32) -> bool {
    spec_first_k(a, bytes_of(target), bytes_of(initial), spec_is_sub(a)) <= 4
}

/// Encodes one word: finds the shortest sequence of at most four immediates
/// drawn from the alphabet that takes the accumulator from `initial` to
/// `target`, under the opcode the alphabet admits (`SUB` preferred).
///
/// On success every returned instruction carries the chosen opcode and an
/// immediate whose bytes all lie in the alphabet, and executing the sequence
/// from `initial` yields `target` modulo 2^32. Failure means the chained
/// lane search found no solution at any count up to four.
pub fn generate(initial: u32, target: u32, good_bytes: &[u8]) -> (r: Result<
    Vec<Instruction>,
    crate::EncodeError,
>)
    requires
        good_bytes@.contains(SUB_EAX) || good_bytes@.contains(ADD_EAX),
    ensures
        ({
            let aseq = good_bytes@;
            let sub = spec_is_sub(aseq);
            let tb = bytes_of(target);
            let ib = bytes_of(initial);
            let fk = spec_first_k(aseq, tb, ib, sub);
            match r {
                Ok(instrs) => generate_ok(aseq, initial, target, instrs@),
                Err(e) => {
                    &&& fk == 5
                    &&& e == crate::EncodeError::WordNotEncodable
                },
            }
        }),
{
    let ghost aseq = good_bytes@;
    let ghost sub = spec_is_sub(aseq);
    let ghost tb = bytes_of(target);
    let ghost ib = bytes_of(initial);
    let target_bytes = decompose(target);
    let initial_bytes = decompose(initial);
    let is_sub = contains_byte(good_bytes, SUB_EAX);
    let opcode = if is_sub {
        SUB_EAX
    } else {
        ADD_EAX
    };
    let mut instruction_count: u8 = 1;
    while instruction_count <= 4
        invariant
            1 <= instruction_count <= 5,
            aseq == good_bytes@,
            sub == spec_is_sub(aseq),
            is_sub == sub,
            opcode == (if sub {
                SUB_EAX
            } else {
                ADD_EAX
            }),
            aseq.contains(SUB_EAX) || aseq.contains(ADD_EAX),
            tb == bytes_of(target),
            ib == bytes_of(initial),
            target_bytes@ == tb,
            initial_bytes@ == ib,
            target_bytes@.len() == 4,
            initial_bytes@.len() == 4,
            forall|kk: int|
                1 <= kk < instruction_count ==> encode_search(aseq, kk, tb, ib, sub) is None,
        decreases 5 - instruction_count,
    {
        let mut word: Vec<Vec<u8>> = Vec::new();
        if generate_instruction(instruction_count, good_bytes, &mut word, &target_bytes,
            &initial_bytes) {
            let ghost k = instruction_count as int;
            let ghost lanes = encode_search(aseq, k, tb, ib, sub)->Some_0;
            proof {
                lemma_chain_props(aseq, k, tb, ib, sub);
                assert(lanes_view(word@) == lanes);
                assert(word@.len() == 4);
                assert(forall|b: int| 0 <= b < 4 ==> (#[trigger] word@[b])@ == lanes[b]);
            }
            let mut instrs: Vec<Instruction> = Vec::new();
            let mut j: usize = 0;
            while j < instruction_count as usize
                invariant
                    1 <= instruction_count <= 4,
                    k == instruction_count as int,
                    j <= instruction_count as usize,
                    aseq == good_bytes@,
                    sub == spec_is_sub(aseq),
                    is_sub == sub,
                    opcode == (if sub {
                        SUB_EAX
                    } else {
                        ADD_EAX
                    }),
                    encode_search(aseq, k, tb, ib, sub) == Some(lanes),
                    lanes.len() == 4,
                    forall|b: int| 0 <= b < 4 ==> (#[trigger] lanes[b]).len() == k,
                    word@.len() == 4,
                    forall|b: int| 0 <= b < 4 ==> (#[trigger] word@[b])@ == lanes[b],
                    instrs@.len() == j,
                    forall|jj: int|
                        0 <= jj < j ==> (#[trigger] instrs@[jj]).opcode == opcode,
                    forall|jj: int|
                        0 <= jj < j ==> (#[trigger] instrs@[jj]).imm@ == imm_of_lanes(lanes, jj),
                decreases instruction_count as usize - j,
            {
                let mut imm: Vec<u8> = Vec::new();
                imm.push(word[0][j]);
                imm.push(word[1][j]);
                imm.push(word[2][j]);
                imm.push(word[3][j]);
                proof {
                    assert(imm@ =~= imm_of_lanes(lanes, j as int));
                }
                instrs.push(Instruction { opcode, imm });
                j = j + 1;
            }
            proof {
                assert(spec_first_k(aseq, tb, ib, sub) == k);
                lemma_chain_sound(aseq, k, tb, ib, sub);
                lemma_transpose(lanes, instrs@, k);
                assert(imm_sum(instrs@) == weighted_sum(lanes));
                crate::bytes::lemma_le32_bytes_of(target);
                crate::bytes::lemma_le32_bytes_of(initial);
                assert(word_sound(initial, target, sub, instrs@));
                assert(forall|jj: int, b: int|
                    0 <= jj < instrs@.len() && 0 <= b < 4 ==> aseq.contains(
                        #[trigger] instrs@[jj].imm@[b],
                    )) by {
                    assert(forall|jj: int, b: int|
                        0 <= jj < instrs@.len() && 0 <= b < 4 ==> #[trigger] instrs@[jj].imm@[b]
                            == lanes[b][jj]);
                }
            }
            return Ok(instrs);
        }
        instruction_count = instruction_count + 1;
    }
    Err(crate::EncodeError::WordNotEncodable)
}

} // verus!
