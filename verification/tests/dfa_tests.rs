use utf8_dfa::{DFABuilder, Distance};

#[test]
fn test_utf8_dfa_builder() {
    let mut dfa_builder = DFABuilder::with_capacity(2);
    dfa_builder.add_state(0, Distance::Exact(1u8), 1);
    dfa_builder.add_state(1, Distance::Exact(0u8), 0);
    dfa_builder.set_initial_state(1u32);
    let dfa = dfa_builder.build();
    let parity_num_letters = |s: &str| dfa.eval(s.as_bytes()).to_u8();

    assert_eq!(parity_num_letters("abcdef"), 0u8);
    assert_eq!(parity_num_letters("a"), 1u8);
    assert_eq!(parity_num_letters("a\u{3042}"), 0u8);
    assert_eq!(parity_num_letters("\u{2764}"), 1u8);
    assert_eq!(parity_num_letters("\u{2764}\u{2764}"), 0u8);
    assert_eq!(parity_num_letters("\u{2764}a"), 0u8);
    assert_eq!(parity_num_letters("\u{3042}"), 1u8);
    assert_eq!(parity_num_letters("\u{3042}\u{3042}"), 0u8);
}

// Every state has a successor for every byte value, and it is in range.
#[test]
fn test_transition_totality() {
    let mut builder = DFABuilder::with_capacity(2);
    builder.add_state(0, Distance::Exact(1), 1);
    builder.add_state(1, Distance::Exact(0), 0);
    builder.set_initial_state(1);
    let dfa = builder.build();
    let n = dfa.num_states() as u32;
    assert!(n > 0);
    for state in 0..n {
        for byte in 0u32..256 {
            let next = dfa.transition(state, byte as u8);
            assert!(next < n);
        }
    }
}

// Repeated evaluation of the same input gives the same distance.
#[test]
fn test_eval_deterministic() {
    let mut builder = DFABuilder::with_capacity(2);
    builder.add_state(0, Distance::Exact(1), 1);
    builder.add_state(1, Distance::Exact(0), 0);
    builder.set_initial_state(1);
    let dfa = builder.build();
    for input in ["", "a", "abc", "\u{3042}\u{2764}xy"] {
        let first = dfa.eval(input.as_bytes());
        for _ in 0..3 {
            assert_eq!(dfa.eval(input.as_bytes()), first);
        }
    }
}

// Shared default successors reuse the same interned predecessor chain: the
// first registration allocates the caller state, the default successor and
// three predecessor states; each further one allocates only its own state.
#[test]
fn test_predecessor_chain_deduplicated() {
    let mut builder = DFABuilder::with_capacity(8);
    builder.add_state(0, Distance::Exact(0), 0);
    builder.set_initial_state(0);
    let dfa_one = builder.build();
    // state 0 itself plus the three predecessor states for its default chain
    assert_eq!(dfa_one.num_states(), 4);

    let mut builder = DFABuilder::with_capacity(8);
    for id in 0..6u32 {
        builder.add_state(id, Distance::Exact(0), 0);
    }
    builder.set_initial_state(0);
    let dfa_many = builder.build();
    // five more registrations with the same default successor add exactly
    // one state each, never new predecessor states
    assert_eq!(dfa_many.num_states(), 4 + 5);
}

// An explicit multi-byte edge lands on its destination's distance, not on
// the default chain's.
#[test]
fn test_explicit_transition_overrides_default() {
    let mut builder = DFABuilder::with_capacity(4);
    let handle = builder.add_state(0, Distance::Exact(0), 0);
    handle.add_transition(&mut builder, '\u{3042}', 1);
    builder.add_state(1, Distance::Exact(1), 1);
    builder.set_initial_state(0);
    let dfa = builder.build();
    // the explicit character reaches state 1
    assert_eq!(dfa.eval("\u{3042}".as_bytes()).to_u8(), 1);
    // a three-byte character with a different lead byte follows the default path
    assert_eq!(dfa.eval("\u{4e00}".as_bytes()).to_u8(), 0);
    // a single-byte character still follows the default path
    assert_eq!(dfa.eval("a".as_bytes()).to_u8(), 0);
}

// Two multi-byte characters sharing a byte prefix keep their own targets.
#[test]
fn test_prefix_sharing_keeps_destinations_apart() {
    // U+2764 and U+2765 encode as E2 9D A4 and E2 9D A5: a shared two-byte
    // prefix with distinct final bytes.
    let mut builder = DFABuilder::with_capacity(8);
    let handle = builder.add_state(0, Distance::Exact(0), 0);
    handle.add_transition(&mut builder, '\u{2764}', 1);
    handle.add_transition(&mut builder, '\u{2765}', 2);
    builder.add_state(1, Distance::Exact(1), 1);
    builder.add_state(2, Distance::Exact(2), 2);
    builder.set_initial_state(0);
    let dfa = builder.build();
    assert_eq!(dfa.eval("\u{2764}".as_bytes()).to_u8(), 1);
    assert_eq!(dfa.eval("\u{2765}".as_bytes()).to_u8(), 2);
    // an unrelated three-byte character still defaults
    assert_eq!(dfa.eval("\u{3042}".as_bytes()).to_u8(), 0);
}

// Two-byte characters with distinct lead bytes keep their own targets too.
#[test]
fn test_two_byte_transitions_independent() {
    let mut builder = DFABuilder::with_capacity(8);
    let handle = builder.add_state(0, Distance::Exact(0), 0);
    handle.add_transition(&mut builder, '\u{e9}', 1); // C3 A9
    handle.add_transition(&mut builder, '\u{f8}', 2); // C3 B8, shares C3
    builder.add_state(1, Distance::Exact(1), 1);
    builder.add_state(2, Distance::Exact(2), 2);
    builder.set_initial_state(0);
    let dfa = builder.build();
    assert_eq!(dfa.eval("\u{e9}".as_bytes()).to_u8(), 1);
    assert_eq!(dfa.eval("\u{f8}".as_bytes()).to_u8(), 2);
    assert_eq!(dfa.eval("\u{111}".as_bytes()).to_u8(), 0); // C4 91 defaults
}

// A four-byte explicit edge also lands on its destination.
#[test]
fn test_four_byte_transition() {
    let mut builder = DFABuilder::with_capacity(4);
    let handle = builder.add_state(0, Distance::Exact(0), 0);
    handle.add_transition(&mut builder, '\u{1f600}', 1); // F0 9F 98 80
    builder.add_state(1, Distance::Exact(1), 1);
    builder.set_initial_state(0);
    let dfa = builder.build();
    assert_eq!(dfa.eval("\u{1f600}".as_bytes()).to_u8(), 1);
    assert_eq!(dfa.eval("\u{7ffff}".as_bytes()).to_u8(), 0); // F1 BF BF BF, defaults
}

// A single-byte explicit edge overrides just that byte of the row.
#[test]
fn test_single_byte_transition() {
    let mut builder = DFABuilder::with_capacity(4);
    let handle = builder.add_state(0, Distance::Exact(0), 0);
    handle.add_transition(&mut builder, 'x', 1);
    builder.add_state(1, Distance::Exact(1), 1);
    builder.set_initial_state(0);
    let dfa = builder.build();
    assert_eq!(dfa.eval("x".as_bytes()).to_u8(), 1);
    assert_eq!(dfa.eval("y".as_bytes()).to_u8(), 0);
}

// Reads never mutate the automaton: repeated accessor calls agree, and a
// long mix of queries leaves evaluation results unchanged.
#[test]
fn test_reads_are_idempotent() {
    let mut builder = DFABuilder::with_capacity(2);
    builder.add_state(0, Distance::Exact(1), 1);
    builder.add_state(1, Distance::Exact(0), 0);
    builder.set_initial_state(1);
    let dfa = builder.build();
    let n = dfa.num_states();
    let init = dfa.initial_state();
    let d0 = dfa.distance(0);
    let t00 = dfa.transition(0, 0);
    for _ in 0..4 {
        assert_eq!(dfa.num_states(), n);
        assert_eq!(dfa.initial_state(), init);
        assert_eq!(dfa.distance(0), d0);
        assert_eq!(dfa.transition(0, 0), t00);
    }
    let before = dfa.eval("abc".as_bytes());
    for state in 0..n as u32 {
        let _ = dfa.distance(state);
        for byte in 0u32..256 {
            let _ = dfa.transition(state, byte as u8);
        }
    }
    assert_eq!(dfa.eval("abc".as_bytes()), before);
}

// The initial state may be named before its own registration.
#[test]
fn test_set_initial_state_before_add_state() {
    let mut builder = DFABuilder::with_capacity(2);
    builder.set_initial_state(7);
    builder.add_state(7, Distance::Exact(3), 7);
    let dfa = builder.build();
    assert_eq!(dfa.eval("".as_bytes()).to_u8(), 3);
    assert_eq!(dfa.eval("q".as_bytes()).to_u8(), 3);
}

#[test]
fn test_distance_to_u8() {
    assert_eq!(Distance::Exact(0).to_u8(), 0);
    assert_eq!(Distance::Exact(3).to_u8(), 3);
    assert_eq!(Distance::AtLeast(2).to_u8(), 2);
    assert_eq!(Distance::AtLeast(255).to_u8(), 255);
}

#[test]
fn test_encode_char() {
    assert_eq!(utf8_dfa::utf8::encode_char('a'), vec![0x61]);
    assert_eq!(utf8_dfa::utf8::encode_char('\u{e9}'), vec![0xC3, 0xA9]);
    assert_eq!(utf8_dfa::utf8::encode_char('\u{3042}'), vec![0xE3, 0x81, 0x82]);
    assert_eq!(
        utf8_dfa::utf8::encode_char('\u{1f600}'),
        vec![0xF0, 0x9F, 0x98, 0x80]
    );
}
