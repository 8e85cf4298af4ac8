use wasm_dylink::error::LinkError;
use wasm_dylink::marshal::{read_name, read_text, MAX_NAME_LEN};

fn memory_with(text: &[u8], offset: usize, size: usize) -> Vec<u8> {
    let mut memory = vec![0xffu8; size];
    memory[offset..offset + text.len()].copy_from_slice(text);
    memory
}

#[test]
fn ceiling_is_4096_bytes() {
    assert_eq!(MAX_NAME_LEN, 4096);
}

#[test]
fn reads_ascii_text_back() {
    let memory = memory_with(b"libmath.wasm", 16, 64);
    assert_eq!(read_text(&memory, 16, 12), Ok("libmath.wasm".to_string()));
}

#[test]
fn reads_multi_byte_text_back() {
    let text = "grüße/日本語/🦀.wasm";
    let memory = memory_with(text.as_bytes(), 3, 100);
    assert_eq!(read_text(&memory, 3, text.len()), Ok(text.to_string()));
}

#[test]
fn reads_only_the_bytes_asked_for() {
    let memory = memory_with(b"mul_by_3", 0, 8);
    assert_eq!(read_text(&memory, 0, 3), Ok("mul".to_string()));
    assert_eq!(read_text(&memory, 4, 4), Ok("by_3".to_string()));
}

#[test]
fn empty_text_is_read_anywhere_inside_memory() {
    let memory = vec![0xffu8; 8];
    assert_eq!(read_text(&memory, 0, 0), Ok(String::new()));
    assert_eq!(read_text(&memory, 8, 0), Ok(String::new()));
    assert_eq!(read_text(&[], 0, 0), Ok(String::new()));
}

#[test]
fn text_may_end_with_the_memory() {
    let memory = memory_with(b"tail", 60, 64);
    assert_eq!(read_text(&memory, 60, 4), Ok("tail".to_string()));
    assert_eq!(read_text(&memory, 60, 5), Err(LinkError::MemoryReadFault));
    assert_eq!(read_text(&memory, 61, 4), Err(LinkError::MemoryReadFault));
}

#[test]
fn text_of_ceiling_length_is_read() {
    let text = vec![b'a'; 4096];
    let memory = memory_with(&text, 10, 5000);
    let expected: String = "a".repeat(4096);
    assert_eq!(read_text(&memory, 10, 4096), Ok(expected));
}

#[test]
fn length_over_ceiling_is_too_large() {
    let memory = vec![b'a'; 10000];
    assert_eq!(read_text(&memory, 0, 4097), Err(LinkError::BufferTooLarge));
    assert_eq!(read_text(&memory, 0, usize::MAX), Err(LinkError::BufferTooLarge));
}

#[test]
fn length_over_ceiling_comes_before_bounds() {
    let memory = vec![b'a'; 10];
    assert_eq!(read_text(&memory, 0, 5000), Err(LinkError::BufferTooLarge));
    assert_eq!(read_text(&memory, 500, 5000), Err(LinkError::BufferTooLarge));
}

#[test]
fn range_outside_memory_is_a_fault() {
    let memory = vec![b'a'; 10];
    assert_eq!(read_text(&memory, 8, 3), Err(LinkError::MemoryReadFault));
    assert_eq!(read_text(&memory, 11, 0), Err(LinkError::MemoryReadFault));
    assert_eq!(read_text(&memory, usize::MAX, 1), Err(LinkError::MemoryReadFault));
    assert_eq!(read_text(&memory, usize::MAX, 4096), Err(LinkError::MemoryReadFault));
    assert_eq!(read_text(&[], 0, 1), Err(LinkError::MemoryReadFault));
}

#[test]
fn bytes_that_are_not_utf8_are_refused() {
    let memory = memory_with(&[b'o', b'k', 0xff, b'!'], 0, 4);
    assert_eq!(read_text(&memory, 0, 4), Err(LinkError::InvalidEncoding));
    assert_eq!(read_text(&memory, 0, 2), Ok("ok".to_string()));
}

#[test]
fn cut_through_a_character_is_refused() {
    let text = "é";
    let memory = memory_with(text.as_bytes(), 0, 2);
    assert_eq!(read_text(&memory, 0, 2), Ok("é".to_string()));
    assert_eq!(read_text(&memory, 0, 1), Err(LinkError::InvalidEncoding));
    assert_eq!(read_text(&memory, 1, 1), Err(LinkError::InvalidEncoding));
}

#[test]
fn surrogates_and_overlong_forms_are_refused() {
    assert_eq!(read_text(&[0xed, 0xa0, 0x80], 0, 3), Err(LinkError::InvalidEncoding));
    assert_eq!(read_text(&[0xc0, 0xaf], 0, 2), Err(LinkError::InvalidEncoding));
    assert_eq!(read_text(&[0xf4, 0x90, 0x80, 0x80], 0, 4), Err(LinkError::InvalidEncoding));
}

#[test]
fn name_is_read_from_abi_integers() {
    let memory = memory_with(b"plugin.wasm", 5, 32);
    assert_eq!(read_name(Some(&memory), 5, 11), Ok("plugin.wasm".to_string()));
    assert_eq!(read_name(Some(&memory), 5, 0), Ok(String::new()));
}

#[test]
fn name_length_over_ceiling_is_too_large_whatever_else_holds() {
    let memory = vec![b'a'; 10];
    assert_eq!(read_name(Some(&memory), 0, 4097), Err(LinkError::BufferTooLarge));
    assert_eq!(read_name(Some(&memory), -1, 4097), Err(LinkError::BufferTooLarge));
    assert_eq!(read_name(None, 0, i32::MAX), Err(LinkError::BufferTooLarge));
}

#[test]
fn name_of_ceiling_length_is_read() {
    let memory = vec![b'z'; 4096];
    assert_eq!(read_name(Some(&memory), 0, 4096), Ok("z".repeat(4096)));
}

#[test]
fn negative_address_or_length_is_a_fault() {
    let memory = vec![b'a'; 10];
    assert_eq!(read_name(Some(&memory), -1, 2), Err(LinkError::MemoryReadFault));
    assert_eq!(read_name(Some(&memory), 0, -1), Err(LinkError::MemoryReadFault));
    assert_eq!(read_name(Some(&memory), i32::MIN, i32::MIN), Err(LinkError::MemoryReadFault));
    assert_eq!(read_name(Some(&memory), 9, 2), Err(LinkError::MemoryReadFault));
}

#[test]
fn guest_without_memory_is_a_fault() {
    assert_eq!(read_name(None, 0, 0), Err(LinkError::MemoryReadFault));
    assert_eq!(read_name(None, 0, 4096), Err(LinkError::MemoryReadFault));
}
