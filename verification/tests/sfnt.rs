use c2pa_fonts::bytes::{read_u16, read_u32, table_checksum};
use c2pa_fonts::sfnt::{
    checksum_adjustment_valid, locate_tables, SfntFont, Table, DIRECTORY_RECORD_LEN,
    HEAD_CHECKSUM_ADJUSTMENT_OFFSET, HEAD_TAG, OFFSET_TABLE_LEN,
};
use c2pa_fonts::Error;

fn write_u32(out: &mut [u8], off: usize, v: u32) {
    out[off..off + 4].copy_from_slice(&v.to_be_bytes());
}

/// Build a minimal but structurally valid font for tests.
fn sample_font() -> Vec<u8> {
    let mut head = vec![0u8; 54];
    write_u32(&mut head, 0, 0x0001_0000); // version
    write_u32(&mut head, 12, 0x5F0F_3CF5); // magicNumber
    let cmap = vec![0u8; 20];
    let glyf = b"glyphdata!".to_vec(); // length 10, needs padding
    SfntFont {
        sfnt_version: 0x0001_0000,
        tables: vec![
            Table {
                tag: *b"glyf",
                data: glyf,
            },
            Table {
                tag: *b"cmap",
                data: cmap,
            },
            Table {
                tag: HEAD_TAG,
                data: head,
            },
        ],
    }
    .serialize()
}

#[test]
fn parse_roundtrip_preserves_tables() {
    let font = sample_font();
    let parsed = SfntFont::parse(&font).unwrap();
    assert_eq!(parsed.tables.len(), 3);
    assert_eq!(parsed.table(b"glyf").unwrap().data, b"glyphdata!");
    assert_eq!(parsed.table(b"cmap").unwrap().data.len(), 20);
}

#[test]
fn directory_is_sorted_by_tag() {
    let font = sample_font();
    let n = read_u16(&font, 4) as usize;
    let mut tags = Vec::new();
    for i in 0..n {
        let rec = OFFSET_TABLE_LEN + i * DIRECTORY_RECORD_LEN;
        tags.push([font[rec], font[rec + 1], font[rec + 2], font[rec + 3]]);
    }
    let mut sorted = tags.clone();
    sorted.sort();
    assert_eq!(tags, sorted);
}

#[test]
fn offsets_are_four_byte_aligned() {
    let font = sample_font();
    let n = read_u16(&font, 4) as usize;
    for i in 0..n {
        let rec = OFFSET_TABLE_LEN + i * DIRECTORY_RECORD_LEN;
        assert_eq!(read_u32(&font, rec + 8) % 4, 0);
    }
}

#[test]
fn checksum_adjustment_is_valid() {
    let font = sample_font();
    assert!(checksum_adjustment_valid(&font).unwrap());
}

#[test]
fn tampering_invalidates_checksum_adjustment() {
    let mut font = sample_font();
    let last = font.len() - 1;
    font[last] ^= 0xFF;
    assert!(!checksum_adjustment_valid(&font).unwrap());
}

#[test]
fn rejects_collections() {
    let mut data = vec![0u8; 12];
    data[..4].copy_from_slice(b"ttcf");
    assert!(matches!(SfntFont::parse(&data), Err(Error::Collection)));
}

#[test]
fn rejects_woff() {
    let mut data = vec![0u8; 12];
    data[..4].copy_from_slice(b"wOFF");
    assert!(matches!(SfntFont::parse(&data), Err(Error::Woff)));
    data[..4].copy_from_slice(b"wOF2");
    assert!(matches!(SfntFont::parse(&data), Err(Error::Woff)));
}

#[test]
fn rejects_non_sfnt() {
    let data = b"not a font at all!!!".to_vec();
    assert!(matches!(SfntFont::parse(&data), Err(Error::NotSfnt)));
}

#[test]
fn locate_tables_matches_parse() {
    let font = sample_font();
    let locs = locate_tables(&font).unwrap();
    assert_eq!(locs.len(), 3);
    for loc in &locs {
        // Directory record checksum field sits at record_offset + 4.
        assert!(loc.record_offset + DIRECTORY_RECORD_LEN <= font.len());
        assert!(loc.data_offset + loc.length <= font.len());
    }
    let head = locs.iter().find(|l| l.tag == HEAD_TAG).unwrap();
    assert!(head.length >= HEAD_CHECKSUM_ADJUSTMENT_OFFSET + 4);
}

#[test]
fn serialized_layout_is_exact() {
    // One table "abcd" of 5 bytes, no head table.
    let out = SfntFont {
        sfnt_version: 0x0001_0000,
        tables: vec![Table {
            tag: *b"abcd",
            data: vec![1, 2, 3, 4, 5],
        }],
    }
    .serialize();
    let expected: Vec<u8> = vec![
        0, 1, 0, 0, // version
        0, 1, // numTables
        0, 16, // searchRange
        0, 0, // entrySelector
        0, 0, // rangeShift
        b'a', b'b', b'c', b'd', // tag
        0x06, 0x02, 0x03, 0x04, // checksum 0x01020304 + 0x05000000
        0, 0, 0, 28, // offset
        0, 0, 0, 5, // length
        1, 2, 3, 4, 5, 0, 0, 0, // data + padding
    ];
    assert_eq!(out, expected);
}

#[test]
fn rejects_truncated_directory_and_tables() {
    let mut data = sample_font();
    data.truncate(20);
    assert!(matches!(SfntFont::parse(&data), Err(Error::InvalidFont(_))));
    let mut data = sample_font();
    let last = data.len() - 5;
    data.truncate(last);
    assert!(matches!(SfntFont::parse(&data), Err(Error::InvalidFont(_))));
    assert!(matches!(SfntFont::parse(&[0u8; 4]), Err(Error::NotSfnt)));
}

#[test]
fn set_and_remove_table_keep_one_entry_per_tag() {
    let mut font = SfntFont::parse(&sample_font()).unwrap();
    font.set_table(*b"glyf", vec![9]);
    assert_eq!(font.tables.len(), 3);
    assert_eq!(font.tables[2].tag, *b"glyf");
    assert_eq!(font.table(b"glyf").unwrap().data, vec![9]);
    font.remove_table(b"glyf");
    assert!(font.table(b"glyf").is_none());
    assert_eq!(font.tables.len(), 2);
}

#[test]
fn search_fields_follow_table_count() {
    let tables: Vec<Table> = (0..5u8)
        .map(|i| Table {
            tag: [b'a', b'a', b'a', b'a' + i],
            data: vec![],
        })
        .collect();
    let out = SfntFont {
        sfnt_version: 0x0001_0000,
        tables,
    }
    .serialize();
    assert_eq!(read_u16(&out, 4), 5);
    assert_eq!(read_u16(&out, 6), 64); // 4 * 16
    assert_eq!(read_u16(&out, 8), 2); // log2(4)
    assert_eq!(read_u16(&out, 10), 16); // 5 * 16 - 64
}

#[test]
fn directory_checksums_match_table_data() {
    let font = sample_font();
    let parsed = SfntFont::parse(&font).unwrap();
    for (i, t) in parsed.tables.iter().enumerate() {
        let stored = read_u32(&font, OFFSET_TABLE_LEN + i * DIRECTORY_RECORD_LEN + 4);
        let mut data = t.data.clone();
        if t.tag == HEAD_TAG {
            data[HEAD_CHECKSUM_ADJUSTMENT_OFFSET..HEAD_CHECKSUM_ADJUSTMENT_OFFSET + 4]
                .copy_from_slice(&[0, 0, 0, 0]);
        }
        assert_eq!(stored, table_checksum(&data));
    }
    // cmap is all zeros; glyf is "glyphdata!" padded.
    let cmap_index = parsed.tables.iter().position(|t| &t.tag == b"cmap").unwrap();
    let stored = read_u32(&font, OFFSET_TABLE_LEN + cmap_index * DIRECTORY_RECORD_LEN + 4);
    assert_eq!(stored, 0);
}

#[test]
fn parse_errors_carry_their_messages() {
    let mut data = sample_font();
    data.truncate(20);
    match SfntFont::parse(&data) {
        Err(Error::InvalidFont(m)) => assert_eq!(m, "table directory truncated"),
        other => panic!("unexpected {other:?}"),
    }
    // The last table in tag order is `head`; cutting the file short leaves it
    // extending past the end.
    let mut data = sample_font();
    let last = data.len() - 5;
    data.truncate(last);
    match SfntFont::parse(&data) {
        Err(Error::InvalidFont(m)) => assert_eq!(m, "table head extends past end of file"),
        other => panic!("unexpected {other:?}"),
    }
    match locate_tables(&data) {
        Err(Error::InvalidFont(m)) => assert_eq!(m, "table extends past end of file"),
        other => panic!("unexpected {other:?}"),
    }
}

#[test]
fn whole_font_sums_to_the_magic_number() {
    assert_eq!(table_checksum(&sample_font()), 0xB1B0_AFBA);
}
