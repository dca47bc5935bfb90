use c2pa_fonts::bytes::read_u32;
use c2pa_fonts::{C2paTable, Error, MAJOR_VERSION, MINOR_VERSION};

#[test]
fn encode_decode_embedded_only() {
    let table = C2paTable::new(None, Some(b"\x00\x01\x02\x03".to_vec()));
    let decoded = C2paTable::decode(&table.encode()).unwrap();
    assert_eq!(decoded, table);
    assert_eq!(decoded.active_manifest_uri, None);
    assert_eq!(decoded.manifest_store.unwrap(), b"\x00\x01\x02\x03");
}

#[test]
fn encode_decode_remote_only() {
    let table = C2paTable::new(Some("https://example.com/m.c2pa".into()), None);
    let decoded = C2paTable::decode(&table.encode()).unwrap();
    assert_eq!(decoded, table);
    assert_eq!(decoded.manifest_store, None);
}

#[test]
fn encode_decode_both() {
    let table = C2paTable::new(
        Some("urn:c2pa:manifest".into()),
        Some(b"\xCA\xFE\xBA\xBE".to_vec()),
    );
    let bytes = table.encode();
    let decoded = C2paTable::decode(&bytes).unwrap();
    assert_eq!(decoded, table);
}

#[test]
fn null_offsets_when_absent() {
    let bytes = C2paTable::new(None, None).encode();
    assert_eq!(read_u32(&bytes, 4), 0); // uri offset
    assert_eq!(read_u32(&bytes, 12), 0); // store offset
}

#[test]
fn rejects_truncated_header() {
    assert!(matches!(
        C2paTable::decode(&[0u8; 8]),
        Err(Error::InvalidTable(_))
    ));
}

#[test]
fn rejects_out_of_bounds_offset() {
    let mut bytes = C2paTable::new(None, Some(b"data".to_vec())).encode();
    // Corrupt the store length to exceed the table.
    bytes[16..20].copy_from_slice(&9999u32.to_be_bytes());
    assert!(matches!(
        C2paTable::decode(&bytes),
        Err(Error::InvalidTable(_))
    ));
}

#[test]
fn encoded_layout_is_exact() {
    let table = C2paTable::new(Some("ab".into()), Some(vec![7, 8, 9]));
    let bytes = table.encode();
    assert_eq!(
        bytes,
        vec![
            0, 0, 0, 1, // versions 0.1
            0, 0, 0, 20, // uri offset
            0, 2, // uri length
            0, 0, // reserved
            0, 0, 0, 22, // store offset
            0, 0, 0, 3, // store length
            b'a', b'b', 7, 8, 9
        ]
    );
    assert_eq!((MAJOR_VERSION, MINOR_VERSION), (0, 1));
}

#[test]
fn rejects_invalid_utf8_uri() {
    let mut bytes = C2paTable::new(Some("ab".into()), None).encode();
    bytes[20] = 0xFF;
    assert!(matches!(
        C2paTable::decode(&bytes),
        Err(Error::InvalidTable(_))
    ));
}

#[test]
fn empty_fields_are_written_as_absent() {
    let table = C2paTable::new(Some(String::new()), Some(Vec::new()));
    let decoded = C2paTable::decode(&table.encode()).unwrap();
    assert_eq!(decoded.active_manifest_uri, None);
    assert_eq!(decoded.manifest_store, None);
}

#[test]
fn decode_errors_carry_their_messages() {
    match C2paTable::decode(&[0u8; 4]) {
        Err(Error::InvalidTable(m)) => assert_eq!(m, "table shorter than 20-byte header"),
        other => panic!("unexpected {other:?}"),
    }
    // URI at offset 20, 9999 bytes long, in a 20-byte record.
    let mut data = vec![0u8; 20];
    data[4..8].copy_from_slice(&20u32.to_be_bytes());
    data[8..10].copy_from_slice(&9999u16.to_be_bytes());
    match C2paTable::decode(&data) {
        Err(Error::InvalidTable(m)) => {
            assert_eq!(m, "active manifest URI extends past end of table")
        }
        other => panic!("unexpected {other:?}"),
    }
    // A URI that is not UTF-8.
    let mut data = vec![0u8; 22];
    data[4..8].copy_from_slice(&20u32.to_be_bytes());
    data[8..10].copy_from_slice(&2u16.to_be_bytes());
    data[20] = 0xFF;
    data[21] = 0xFE;
    match C2paTable::decode(&data) {
        Err(Error::InvalidTable(m)) => assert_eq!(m, "active manifest URI is not valid UTF-8"),
        other => panic!("unexpected {other:?}"),
    }
    // A store past the end.
    let mut data = vec![0u8; 20];
    data[12..16].copy_from_slice(&20u32.to_be_bytes());
    data[16..20].copy_from_slice(&4u32.to_be_bytes());
    match C2paTable::decode(&data) {
        Err(Error::InvalidTable(m)) => assert_eq!(m, "manifest store extends past end of table"),
        other => panic!("unexpected {other:?}"),
    }
}
