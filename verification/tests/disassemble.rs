//! Decoding instructions.

use pika::elsewhere;
use pika::mem::access::MockMemoryAccess;
use pika::mem::disassemble::disassemble_at;

#[test]
fn disassemble_errors_on_non_linux() {
    let mut mock = MockMemoryAccess::new(1);
    mock.add_region(0x1000, vec![0x90; 64]); // NOP sled
    let result = elsewhere::disassemble_at(&mut mock, 1, 0x1000, 5);
    assert!(result.is_err());
    assert!(result.unwrap_err().message().contains("requires Linux"));
}

#[test]
fn instructions_are_shown() {
    let mut mock = MockMemoryAccess::new(1);
    let mut code = vec![0x90; 256];
    code[..5].copy_from_slice(&[0x48, 0x89, 0x5c, 0x24, 0x08]);
    mock.add_region(0x14000_1000, code);
    let v = disassemble_at(&mut mock, 1, 0x14000_1000, 3).unwrap();
    assert_eq!(v.len(), 3);
    assert_eq!(v[0].address, "0x140001000");
    assert_eq!(v[0].bytes, "48 89 5c 24 08");
    assert_eq!(v[0].mnemonic, "mov");
    assert_eq!(v[0].op_str, "qword ptr [rsp + 8], rbx");
    assert_eq!(v[1].address, "0x140001005");
    assert_eq!(v[1].mnemonic, "nop");
    assert_eq!(v[2].bytes, "90");
}

#[test]
fn unreadable_code_is_an_error() {
    let mut mock = MockMemoryAccess::new(1);
    assert!(disassemble_at(&mut mock, 1, 0x1000, 3).is_err());
}
