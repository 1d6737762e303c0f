use dns_resolver::byte_packet_buffer::BytePacketBuffer;
use dns_resolver::errors::BytePacketBufferError;

#[test]
fn u16_and_u32_round_trip_through_the_buffer() {
    let mut buffer = BytePacketBuffer::new();
    buffer.write_u16(0xABCD).unwrap();
    buffer.write_u32(0x01020304).unwrap();
    assert_eq!(buffer.pos, 6);
    assert_eq!(&buffer.buff[0..6], &[0xAB, 0xCD, 0x01, 0x02, 0x03, 0x04]);

    buffer.seek(0);
    assert_eq!(buffer.read_u16().unwrap(), 0xABCD);
    assert_eq!(buffer.read_u32().unwrap(), 0x01020304);
}

#[test]
fn reads_past_the_capacity_fail() {
    let mut buffer = BytePacketBuffer::new();
    buffer.seek(512);
    assert_eq!(buffer.read(), Err(BytePacketBufferError::PosOutOfRange));
    assert_eq!(buffer.read_u16(), Err(BytePacketBufferError::PosOutOfRange));
    assert_eq!(buffer.get(512), Err(BytePacketBufferError::PosOutOfRange));
}

#[test]
fn set_u16_overwrites_in_place() {
    let mut buffer = BytePacketBuffer::new();
    buffer.seek(10);
    buffer.set_u16(4, 0x1234);
    assert_eq!(buffer.buff[4], 0x12);
    assert_eq!(buffer.buff[5], 0x34);
    assert_eq!(buffer.pos, 10);
}

#[test]
fn qname_writes_labels_and_reads_them_back() {
    let mut buffer = BytePacketBuffer::new();
    buffer.write_qname(&b"google.com".to_vec()).unwrap();
    assert_eq!(
        &buffer.buff[0..12],
        &[6, b'g', b'o', b'o', b'g', b'l', b'e', 3, b'c', b'o', b'm', 0]
    );

    buffer.seek(0);
    let mut name = Vec::new();
    buffer.read_qname(&mut name).unwrap();
    assert_eq!(name, b"google.com".to_vec());
    assert_eq!(buffer.pos, 12);
}

#[test]
fn qname_lowercases_on_read() {
    let mut buffer = BytePacketBuffer::new();
    buffer.write_qname(&b"GooGLE.CoM".to_vec()).unwrap();
    buffer.seek(0);
    let mut name = Vec::new();
    buffer.read_qname(&mut name).unwrap();
    assert_eq!(name, b"google.com".to_vec());
}

#[test]
fn empty_qname_is_one_zero_byte() {
    let mut buffer = BytePacketBuffer::new();
    buffer.write_qname(&Vec::new()).unwrap();
    assert_eq!(buffer.pos, 1);
    assert_eq!(buffer.buff[0], 0);

    buffer.seek(0);
    let mut name = Vec::new();
    buffer.read_qname(&mut name).unwrap();
    assert!(name.is_empty());
}

#[test]
fn sixty_three_byte_label_encodes() {
    let mut buffer = BytePacketBuffer::new();
    let label = vec![b'a'; 63];
    assert!(buffer.write_qname(&label).is_ok());
    assert_eq!(buffer.buff[0], 63);
    assert_eq!(buffer.pos, 65);
}

#[test]
fn sixty_four_byte_label_is_refused() {
    let mut buffer = BytePacketBuffer::new();
    let label = vec![b'a'; 64];
    assert_eq!(
        buffer.write_qname(&label),
        Err(BytePacketBufferError::LabelLengthTooBig { length: 64 })
    );
}

#[test]
fn pointer_reads_the_name_it_points_to() {
    let mut buffer = BytePacketBuffer::new();
    // The name sits at offset 20; a pure pointer to it sits at 100.
    buffer.seek(20);
    buffer.write_qname(&b"example.com".to_vec()).unwrap();
    buffer.set(100, 0xC0);
    buffer.set(101, 20);

    buffer.seek(20);
    let mut direct = Vec::new();
    buffer.read_qname(&mut direct).unwrap();

    buffer.seek(100);
    let mut via_pointer = Vec::new();
    buffer.read_qname(&mut via_pointer).unwrap();

    assert_eq!(via_pointer, direct);
    assert_eq!(via_pointer, b"example.com".to_vec());
    // After a jump the cursor resumes right behind the pointer.
    assert_eq!(buffer.pos, 102);
}

#[test]
fn six_pointer_chain_exceeds_the_jump_limit() {
    let mut buffer = BytePacketBuffer::new();
    // Six pointers, each to the next; the sixth jump trips the guard.
    for k in 0..6 {
        let at = 10 + 2 * k;
        if k < 5 {
            buffer.set(at, 0xC0);
            buffer.set(at + 1, (at + 2) as u8);
        } else {
            buffer.set(at, 0xC0);
            buffer.set(at + 1, 10);
        }
    }
    buffer.seek(10);
    let mut name = Vec::new();
    assert_eq!(
        buffer.read_qname(&mut name),
        Err(BytePacketBufferError::MaxJumpsExceeded { limit: 5 })
    );
}
