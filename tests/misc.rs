use ensicoin::cli::{is_port, PortError};
use ensicoin::script::{verify_script, ScriptOp, Stack, WrongOPCode};

#[test]
fn ports_above_1024_are_accepted() {
    assert_eq!(is_port("4224"), Ok(4224));
    assert_eq!(is_port("65535"), Ok(65535));
    assert_eq!(is_port("1025"), Ok(1025));
}

#[test]
fn other_ports_are_refused() {
    assert_eq!(is_port("1024"), Err(PortError::OutOfRange));
    assert_eq!(is_port("80"), Err(PortError::OutOfRange));
    assert_eq!(is_port("65536"), Err(PortError::OutOfRange));
    assert_eq!(is_port("99999999999"), Err(PortError::OutOfRange));
    assert_eq!(is_port(""), Err(PortError::NotANumber));
    assert_eq!(is_port("42a4"), Err(PortError::NotANumber));
}

#[test]
fn stack_push_pop_dup() {
    let mut s: Stack<u8> = Stack::new();
    assert_eq!(s.dup(), Err(()));
    s.push(&3);
    s.dup().unwrap();
    s.push(&4);
    assert_eq!(s.pop(), Some(4));
    assert_eq!(s.pop(), Some(3));
    assert_eq!(s.pop(), Some(3));
    assert_eq!(s.pop(), None);
}

#[test]
fn script_operation_codes() {
    assert_eq!(ScriptOp::try_from(0x00), Ok(ScriptOp::OP_FALSE));
    assert_eq!(ScriptOp::try_from(0x4B), Ok(ScriptOp::NA(0x4B)));
    assert_eq!(ScriptOp::try_from(0x50), Ok(ScriptOp::OP_TRUE));
    assert_eq!(ScriptOp::try_from(0x64), Ok(ScriptOp::OP_DUP));
    assert_eq!(ScriptOp::try_from(0x78), Ok(ScriptOp::OP_EQUAL));
    assert_eq!(ScriptOp::try_from(0x8C), Ok(ScriptOp::OP_VERIFY));
    assert_eq!(ScriptOp::try_from(0xA0), Ok(ScriptOp::OP_HASH));
    assert_eq!(ScriptOp::try_from(0xAA), Ok(ScriptOp::OP_CHECKSIG));
    assert_eq!(ScriptOp::try_from(0x4C), Err(WrongOPCode));
    assert!(verify_script(&[1, 2, 3]));
}
