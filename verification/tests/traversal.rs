use t9vm::Instr;
use t9vm::Instruction;
use t9vm::T9Error;
use t9vm::T9Vm;

fn s(len: u8) -> u8 {
    Instr::from_len_instr(len, Instruction::S_NotWordNoChildrenNotLast).0
}
fn t(len: u8) -> u8 {
    Instr::from_len_instr(len, Instruction::T_NotWordNoChildrenIsLast).0
}
fn u(len: u8) -> u8 {
    Instr::from_len_instr(len, Instruction::U_NotWordHasChildrenNotLast).0
}
fn v(len: u8) -> u8 {
    Instr::from_len_instr(len, Instruction::V_NotWordHasChildrenIsLast).0
}
fn w(len: u8) -> u8 {
    Instr::from_len_instr(len, Instruction::W_IsWordNoChildrenNotLast).0
}
fn x(len: u8) -> u8 {
    Instr::from_len_instr(len, Instruction::X_IsWordNoChildrenIsLast).0
}
fn y(len: u8) -> u8 {
    Instr::from_len_instr(len, Instruction::Y_IsWordHasChildrenNotLast).0
}
fn z(len: u8) -> u8 {
    Instr::from_len_instr(len, Instruction::Z_IsWordHasChildrenIsLast).0
}

const PRIO: u8 = 0;

fn demo_program() -> Vec<u8> {
    vec![
        y(1), PRIO, b'a',
        y(4), PRIO, b'a', b'r', b'o', b'n',
        x(1), PRIO, b's',
        y(1), PRIO, b'b',
        x(2), PRIO, b'l', b'e',
        u(2), b'p', b'p',
        y(2), PRIO, b'l', b'e',
        w(2), PRIO, b't', b's',
        x(1), PRIO, b's',
        z(4), PRIO, b'n', b'o', b't', b'e',
        v(1), b'_',
        z(1), PRIO, b'a',
        z(1), PRIO, b'b',
        y(1), PRIO, b'c',
        x(1), PRIO, b'd',
        z(1), PRIO, b'e',
        x(1), PRIO, b'f',
        x(1), PRIO, b's',
        x(4), PRIO, b'b', b'i', b't', b'e',
    ]
}

fn collect_words(vm: &mut T9Vm) -> Vec<String> {
    let mut outs: Vec<String> = Vec::new();
    loop {
        match vm.next_word() {
            Ok(Some(word)) => outs.push(word),
            Ok(None) => break,
            Err(e) => panic!("unexpected traversal error: {:?}", e),
        }
    }
    outs
}

#[test]
fn smoke() {
    let program = demo_program();
    let expected = [
        String::from("a"),
        String::from("aaron"),
        String::from("aarons"),
        String::from("ab"),
        String::from("able"),
        String::from("apple"),
        String::from("applets"),
        String::from("apples"),
        String::from("appnote"),
        String::from("appnote_a"),
        String::from("appnote_ab"),
        String::from("appnote_abc"),
        String::from("appnote_abcd"),
        String::from("appnote_abe"),
        String::from("appnote_abef"),
        String::from("as"),
        String::from("bite"),
    ];

    let mut vm = T9Vm::new(program);
    let outs = collect_words(&mut vm);

    assert_eq!(expected.as_slice(), outs.as_slice());
}

#[test]
fn sorted() {
    assert!("a" < "as");
    assert!("as" < "asd");
    assert!("as" < "at");
}

#[test]
fn replay_after_reset() {
    let mut vm = T9Vm::new(demo_program());
    let first = collect_words(&mut vm);
    vm.reset();
    let second = collect_words(&mut vm);
    assert_eq!(first, second);
    assert_eq!(first.len(), 17);
}

#[test]
fn empty_program() {
    let mut vm = T9Vm::new(Vec::new());
    assert_eq!(vm.next_word(), Ok(None));
    assert_eq!(vm.next_word(), Ok(None));
}

#[test]
fn single_word_node() {
    let mut vm = T9Vm::new(vec![x(1), PRIO, b'q']);
    assert_eq!(vm.next_word(), Ok(Some(String::from("q"))));
    assert_eq!(vm.next_word(), Ok(None));
    assert_eq!(vm.next_word(), Ok(None));
}

#[test]
fn exhaustion_is_permanent() {
    let mut vm = T9Vm::new(demo_program());
    let outs = collect_words(&mut vm);
    assert_eq!(outs.len(), 17);
    assert_eq!(vm.next_word(), Ok(None));
    assert_eq!(vm.next_word(), Ok(None));
}

#[test]
fn invalid_opcode_at_start() {
    let mut vm = T9Vm::new(vec![s(0)]);
    assert_eq!(vm.next_word(), Err(T9Error::InvalidOpcode));

    let mut vm = T9Vm::new(vec![t(0)]);
    assert_eq!(vm.next_word(), Err(T9Error::InvalidOpcode));
}

#[test]
fn invalid_opcode_reached_later() {
    // The first node yields a word; its child is a dead-end opcode, which the
    // second call must report as a distinct malformed-program error.
    let mut vm = T9Vm::new(vec![y(1), PRIO, b'a', t(1), b'b']);
    assert_eq!(vm.next_word(), Ok(Some(String::from("a"))));
    assert_eq!(vm.next_word(), Err(T9Error::InvalidOpcode));
}

#[test]
fn truncated_missing_priority_byte() {
    let mut vm = T9Vm::new(vec![x(1)]);
    assert_eq!(vm.next_word(), Err(T9Error::Truncated));
}

#[test]
fn truncated_missing_payload() {
    let mut vm = T9Vm::new(vec![v(2), b'p']);
    assert_eq!(vm.next_word(), Err(T9Error::Truncated));
}

#[test]
fn word_bytes_must_be_text() {
    let mut vm = T9Vm::new(vec![x(1), PRIO, 0xFF]);
    assert_eq!(vm.next_word(), Err(T9Error::InvalidText));
}

#[test]
fn multibyte_text_is_decoded() {
    // 0xC3 0xA9 is the two-byte encoding of 'e' with an acute accent: the
    // word comes back as that one character, not as raw bytes.
    let mut vm = T9Vm::new(vec![x(2), PRIO, 0xC3, 0xA9]);
    let word = vm.next_word().unwrap().unwrap();
    assert_eq!(word.chars().count(), 1);
    assert_eq!(word, "\u{e9}");
    assert_eq!(vm.next_word(), Ok(None));
}

#[test]
fn reset_recovers_after_error() {
    // One good word, then a dead-end opcode: after a reset the good word is
    // produced again.
    let mut vm = T9Vm::new(vec![y(1), PRIO, b'a', s(0)]);
    assert_eq!(vm.next_word(), Ok(Some(String::from("a"))));
    assert_eq!(vm.next_word(), Err(T9Error::InvalidOpcode));
    vm.reset();
    assert_eq!(vm.next_word(), Ok(Some(String::from("a"))));
}

#[test]
fn longest_payload() {
    let mut program = vec![x(31), PRIO];
    let mut expected = String::new();
    let mut i = 0u8;
    while i < 31 {
        program.push(b'a' + (i % 26));
        expected.push((b'a' + (i % 26)) as char);
        i += 1;
    }
    let mut vm = T9Vm::new(program);
    assert_eq!(vm.next_word(), Ok(Some(expected)));
    assert_eq!(vm.next_word(), Ok(None));
}

#[test]
fn zero_length_root_word() {
    // A word node with an empty payload yields the empty word.
    let mut vm = T9Vm::new(vec![y(0), PRIO, x(1), PRIO, b'a']);
    assert_eq!(vm.next_word(), Ok(Some(String::new())));
    assert_eq!(vm.next_word(), Ok(Some(String::from("a"))));
    assert_eq!(vm.next_word(), Ok(None));
}

#[test]
fn sibling_order_is_not_enforced() {
    // The engine emits in program order even when a later sibling stores a
    // prefix of an earlier word: sibling ordering and the trie shape are the
    // encoder's business, not checked at traversal time.
    let mut vm = T9Vm::new(vec![w(2), PRIO, b'a', b'b', x(1), PRIO, b'a']);
    assert_eq!(vm.next_word(), Ok(Some(String::from("ab"))));
    assert_eq!(vm.next_word(), Ok(Some(String::from("a"))));
    assert_eq!(vm.next_word(), Ok(None));
}

#[test]
fn word_length_equals_payload_sum() {
    // Along the demo program, each word's byte length is the sum of the
    // payload lengths on the path that produced it; spot-check the deepest
    // one: appnote_abcd = 3 + 4 + 1 + 1 + 1 + 1 + 1 bytes.
    let mut vm = T9Vm::new(demo_program());
    let outs = collect_words(&mut vm);
    assert_eq!(outs[12].len(), 12);
    assert_eq!(outs[12], "appnote_abcd");
}
