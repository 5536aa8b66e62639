use alpha_encode::driver::{encode_payload, EncodedWord};
use alpha_encode::encoder::{can_encode, generate, Instruction};
use alpha_encode::EncodeError;

/// Little-endian value of an instruction's immediate.
fn imm_value(ins: &Instruction) -> u32 {
    (ins.imm[0] as u32)
        | ((ins.imm[1] as u32) << 8)
        | ((ins.imm[2] as u32) << 16)
        | ((ins.imm[3] as u32) << 24)
}

/// Accumulator value after executing one encoded word from `initial`.
fn run_word(initial: u32, word: &[Instruction], alphabet: &[u8]) -> u32 {
    let is_sub = alphabet.contains(&0x2D);
    let mut acc = initial;
    for ins in word {
        assert_eq!(ins.opcode, if is_sub { 0x2D } else { 0x05 });
        if is_sub {
            acc = acc.wrapping_sub(imm_value(ins));
        } else {
            acc = acc.wrapping_add(imm_value(ins));
        }
    }
    acc
}

/// Every opcode and immediate byte of every instruction lies in the alphabet.
fn assert_closure(words: &[EncodedWord], alphabet: &[u8]) {
    assert!(alphabet.contains(&0x50));
    for word in words {
        for ins in &word.instructions {
            assert!(alphabet.contains(&ins.opcode));
            assert_eq!(ins.imm.len(), 4);
            for b in &ins.imm {
                assert!(alphabet.contains(b));
            }
        }
    }
}

/// Bytes a descending stack holds after pushing all the words: the last word
/// pushed lands at the lowest address.
fn stack_bytes(initial: u32, words: &[EncodedWord], alphabet: &[u8]) -> Vec<u8> {
    let mut targets = Vec::new();
    let mut prev = initial;
    for word in words {
        let t = run_word(prev, &word.instructions, alphabet);
        targets.push(t);
        prev = t;
    }
    let mut bytes = Vec::new();
    for t in targets.iter().rev() {
        bytes.extend_from_slice(&t.to_le_bytes());
    }
    bytes
}

#[test]
fn tiny_alphabet_add_word() {
    // Alphabet {0x05, 0x50, 0x01}, payload \x01\x00\x00\x00, start zero.
    // The alphabet is workable (ADD is chosen); any instructions that come
    // back must rebuild the word from bytes of the alphabet, and if the
    // search finds none, the failure concerns the word, not the alphabet.
    let alphabet = [0x05u8, 0x50, 0x01];
    let payload = [0x01u8, 0x00, 0x00, 0x00];
    match encode_payload(&payload, 0, &alphabet) {
        Ok(words) => {
            assert_eq!(words.len(), 1);
            assert_closure(&words, &alphabet);
            assert_eq!(run_word(0, &words[0].instructions, &alphabet), 0x00000001);
        }
        Err(e) => assert_eq!(e, EncodeError::WordNotEncodable),
    }
}

#[test]
fn printable_alphabet_bin_sh() {
    // Full printable ASCII, payload "/bin/sh\0", start zero: SUB is chosen,
    // every emitted byte is printable, and the stack reproduces the payload.
    let alphabet: Vec<u8> = (0x20u8..0x7F).collect();
    let payload = *b"/bin/sh\x00";
    let words = encode_payload(&payload, 0, &alphabet).expect("printable alphabet must encode");
    assert_eq!(words.len(), 2);
    assert_closure(&words, &alphabet);
    for word in &words {
        assert!(!word.instructions.is_empty() && word.instructions.len() <= 4);
        assert_eq!(word.instructions[0].opcode, 0x2D);
    }
    assert_eq!(stack_bytes(0, &words, &alphabet), payload.to_vec());
}

#[test]
fn missing_push_is_fatal() {
    // 0x50 absent: fatal before any word is encoded.
    let alphabet = [0x05u8, 0x2D, 0x41, 0x42];
    assert!(!can_encode(&alphabet));
    let r = encode_payload(b"\x41\x41\x41\x41", 0, &alphabet);
    assert_eq!(r.unwrap_err(), EncodeError::InfeasibleAlphabet);
}

#[test]
fn missing_arithmetic_is_fatal() {
    // 0x50 present but neither 0x05 nor 0x2D: fatal.
    let alphabet = [0x50u8, 0x41, 0x42, 0x43];
    assert!(!can_encode(&alphabet));
    let r = encode_payload(b"\x41\x41\x41\x41", 0, &alphabet);
    assert_eq!(r.unwrap_err(), EncodeError::InfeasibleAlphabet);
}

#[test]
fn eight_byte_payload_gives_two_words() {
    // A payload of length 8 yields exactly two groups of 1..=4 arithmetic
    // instructions, each followed by one PUSH EAX, in reverse chunk order.
    let alphabet: Vec<u8> = (0x20u8..0x7F).collect();
    let payload = *b"AAAABBBB";
    let words = encode_payload(&payload, 0, &alphabet).expect("feasible alphabet");
    assert_eq!(words.len(), 2);
    for word in &words {
        let k = word.instructions.len();
        assert!((1..=4).contains(&k));
    }
    // Reverse order: the first word's target is the second chunk.
    assert_eq!(
        run_word(0, &words[0].instructions, &alphabet),
        u32::from_le_bytes(*b"BBBB")
    );
    assert_eq!(
        run_word(
            u32::from_le_bytes(*b"BBBB"),
            &words[1].instructions,
            &alphabet
        ),
        u32::from_le_bytes(*b"AAAA")
    );
}

#[test]
fn sub_identity_word_uses_zero_immediate() {
    // initial == target with SUB and 0x00 available: one immediate of zero.
    let alphabet = [0x50u8, 0x2D, 0x00];
    let instrs = generate(0x11223344, 0x11223344, &alphabet).expect("zero immediate exists");
    assert_eq!(instrs.len(), 1);
    assert_eq!(instrs[0].opcode, 0x2D);
    assert_eq!(imm_value(&instrs[0]), 0);
}

#[test]
fn add_identity_word_uses_zero_immediate() {
    // initial == target with ADD and 0x00 available: one immediate of zero.
    let alphabet = [0x50u8, 0x05, 0x00];
    let instrs = generate(0xDEADBEEF, 0xDEADBEEF, &alphabet).expect("zero immediate exists");
    assert_eq!(instrs.len(), 1);
    assert_eq!(instrs[0].opcode, 0x05);
    assert_eq!(imm_value(&instrs[0]), 0);
}

#[test]
fn unsatisfiable_lane_advances_count() {
    // initial == target without 0x00: no single immediate sums every lane to
    // zero, so the search must move past count one; two immediates whose
    // byte sums wrap each lane succeed.
    let alphabet = [0x50u8, 0x2D, 0x80, 0x7F, 0x01];
    let instrs = generate(0, 0, &alphabet).expect("wrapping pair exists");
    assert_eq!(instrs.len(), 2);
    let sum = (imm_value(&instrs[0]) as u64).wrapping_add(imm_value(&instrs[1]) as u64);
    assert_eq!(sum % 0x1_0000_0000, 0);
}

#[test]
fn two_opcode_alphabet_cannot_encode_zero() {
    // Only the opcode bytes themselves available: no lane-zero column sum is
    // a multiple of 256, so every count fails and the word error is raised.
    let alphabet = [0x50u8, 0x2D];
    assert!(can_encode(&alphabet));
    let r = generate(0, 0, &alphabet);
    assert_eq!(r.unwrap_err(), EncodeError::WordNotEncodable);
}

#[test]
fn sub_preferred_over_add() {
    // Both arithmetic opcodes present: SUB wins.
    let alphabet: Vec<u8> = (0x00u8..=0xFF).collect();
    let instrs = generate(5, 3, &alphabet).expect("full alphabet encodes everything");
    assert_eq!(instrs[0].opcode, 0x2D);
    let mut acc: u32 = 5;
    for ins in &instrs {
        acc = acc.wrapping_sub(imm_value(ins));
    }
    assert_eq!(acc, 3);
}

#[test]
fn short_tail_is_zero_extended() {
    // A five-byte payload makes two chunks; the one-byte tail reads as a
    // word with zero high lanes and is encoded first.
    let alphabet: Vec<u8> = (0x00u8..=0xFF).collect();
    let payload = [0x11u8, 0x22, 0x33, 0x44, 0x55];
    let words = encode_payload(&payload, 0, &alphabet).expect("full alphabet");
    assert_eq!(words.len(), 2);
    assert_eq!(run_word(0, &words[0].instructions, &alphabet), 0x00000055);
}

#[test]
fn empty_payload_yields_no_words() {
    let alphabet: Vec<u8> = (0x20u8..0x7F).collect();
    let words = encode_payload(&[], 0, &alphabet).expect("nothing to encode");
    assert!(words.is_empty());
}

#[test]
fn nonzero_start_value_is_respected() {
    let alphabet: Vec<u8> = (0x20u8..0x7F).collect();
    let start = u32::from_le_bytes(*b"WXYZ");
    let payload = *b"/bin";
    let words = encode_payload(&payload, start, &alphabet).expect("printable");
    assert_eq!(words.len(), 1);
    assert_eq!(
        run_word(start, &words[0].instructions, &alphabet),
        u32::from_le_bytes(*b"/bin")
    );
}
