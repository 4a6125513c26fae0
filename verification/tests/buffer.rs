use bf_jit::code::MachineCode;

#[test]
fn new_buffer_is_empty() {
    let code = MachineCode::new();
    assert_eq!(code.len(), 0);
    assert_eq!(code.get(), &Vec::<u8>::new());
}

#[test]
fn emit_byte_appends() {
    let mut code = MachineCode::new();
    code.emit_byte(0xC3);
    code.emit_byte(0x90);
    assert_eq!(code.get(), &vec![0xC3, 0x90]);
    assert_eq!(code.len(), 2);
}

#[test]
fn emit_bytes_appends_in_order() {
    let mut code = MachineCode::new();
    code.emit_bytes(&[1, 2, 3]);
    code.emit_bytes(&[]);
    code.emit_bytes(&[4]);
    assert_eq!(code.get(), &vec![1, 2, 3, 4]);
}

#[test]
fn emit_u16_is_little_endian() {
    let mut code = MachineCode::new();
    code.emit_u16(0xABCD);
    assert_eq!(code.get(), &vec![0xCD, 0xAB]);
}

#[test]
fn emit_u32_is_little_endian() {
    let mut code = MachineCode::new();
    code.emit_u32(0x1234_5678);
    assert_eq!(code.get(), &vec![0x78, 0x56, 0x34, 0x12]);
}

#[test]
fn emit_u64_is_little_endian() {
    let mut code = MachineCode::new();
    code.emit_u64(0x0102_0304_0506_0708);
    assert_eq!(code.get(), &vec![0x08, 0x07, 0x06, 0x05, 0x04, 0x03, 0x02, 0x01]);
}

#[test]
fn emitted_numbers_match_the_standard_encoding() {
    for n in [0u32, 1, 0xFF, 0x100, 0xFFFF, 0x1_0000, 0x7FFF_FFFF, 0x8000_0000, u32::MAX] {
        let mut code = MachineCode::new();
        code.emit_u32(n);
        assert_eq!(code.get().as_slice(), &n.to_le_bytes());
    }
    for n in [0u64, 1, 0xFFFF_FFFF, 0x1_0000_0000, 0x0123_4567_89AB_CDEF, u64::MAX] {
        let mut code = MachineCode::new();
        code.emit_u64(n);
        assert_eq!(code.get().as_slice(), &n.to_le_bytes());
    }
    for n in [0u16, 1, 0xFF, 0x100, u16::MAX] {
        let mut code = MachineCode::new();
        code.emit_u16(n);
        assert_eq!(code.get().as_slice(), &n.to_le_bytes());
    }
}

#[test]
fn replace_u32_overwrites_a_field_in_place() {
    let mut code = MachineCode::new();
    code.emit_bytes(&[0xAA, 0, 0, 0, 0, 0xBB]);
    code.replace_u32(1, 5, 0xDEAD_BEEF);
    assert_eq!(code.get(), &vec![0xAA, 0xEF, 0xBE, 0xAD, 0xDE, 0xBB]);
    assert_eq!(code.len(), 6);
}

#[test]
fn replace_u32_at_the_end() {
    let mut code = MachineCode::new();
    code.emit_bytes(&[9, 9, 0, 0, 0, 0]);
    code.replace_u32(2, 6, 1);
    assert_eq!(code.get(), &vec![9, 9, 1, 0, 0, 0]);
}

#[test]
fn replace_u32_of_a_shorter_stretch_grows_the_buffer() {
    let mut code = MachineCode::new();
    code.emit_bytes(&[1, 2, 3, 4]);
    code.replace_u32(1, 3, 0x0A0B_0C0D);
    assert_eq!(code.get(), &vec![1, 0x0D, 0x0C, 0x0B, 0x0A, 4]);
}

#[test]
fn replace_u32_of_an_empty_stretch_inserts() {
    let mut code = MachineCode::new();
    code.emit_bytes(&[1, 2]);
    code.replace_u32(1, 1, 0x0000_00FF);
    assert_eq!(code.get(), &vec![1, 0xFF, 0, 0, 0, 2]);
}

#[test]
fn replace_u32_of_a_longer_stretch_shrinks_the_buffer() {
    let mut code = MachineCode::new();
    code.emit_bytes(&[1, 2, 3, 4, 5, 6, 7]);
    code.replace_u32(1, 7, 0);
    assert_eq!(code.get(), &vec![1, 0, 0, 0, 0]);
}
