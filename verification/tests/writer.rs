use c2pa_fonts::writer::{embed_writable, fill_writable, remove_writable, reserve_writable};
use c2pa_fonts::sfnt::{checksum_adjustment_valid, SfntFont, Table};
use c2pa_fonts::{
    embed_manifest, fill_manifest, read_manifest, read_manifest_uri, remove_manifest,
    reserve_manifest, C2paTable, Error, ManifestSource, C2PA_TAG,
};

fn sample_font() -> Vec<u8> {
    let mut head = vec![0u8; 54];
    head[0..4].copy_from_slice(&0x0001_0000u32.to_be_bytes());
    head[12..16].copy_from_slice(&0x5F0F_3CF5u32.to_be_bytes());
    SfntFont {
        sfnt_version: 0x0001_0000,
        tables: vec![
            Table { tag: *b"glyf", data: b"glyphdata!".to_vec() },
            Table { tag: *b"cmap", data: vec![0u8; 20] },
            Table { tag: *b"head", data: head },
        ],
    }
    .serialize()
}

#[test]
fn embed_adds_c2pa_table() {
    let font = sample_font();
    let out = embed_manifest(&font, ManifestSource::embedded(b"manifest".to_vec())).unwrap();
    let parsed = SfntFont::parse(&out).unwrap();
    assert!(parsed.table(&C2PA_TAG).is_some());
    assert_eq!(parsed.tables.len(), 4);
}

#[test]
fn embed_keeps_font_valid() {
    let font = sample_font();
    let out = embed_manifest(&font, ManifestSource::embedded(b"manifest".to_vec())).unwrap();
    assert!(checksum_adjustment_valid(&out).unwrap());
}

#[test]
fn embed_replaces_existing_table() {
    let font = sample_font();
    let first = embed_manifest(&font, ManifestSource::embedded(b"old".to_vec())).unwrap();
    let second = embed_manifest(&first, ManifestSource::embedded(b"new".to_vec())).unwrap();
    let parsed = SfntFont::parse(&second).unwrap();
    assert_eq!(
        parsed.tables.iter().filter(|t| t.tag == C2PA_TAG).count(),
        1
    );
    assert_eq!(
        C2paTable::decode(&parsed.table(&C2PA_TAG).unwrap().data)
            .unwrap()
            .manifest_store
            .unwrap(),
        b"new"
    );
}

#[test]
fn embed_preserves_other_tables() {
    let font = sample_font();
    let out = embed_manifest(&font, ManifestSource::embedded(b"m".to_vec())).unwrap();
    let parsed = SfntFont::parse(&out).unwrap();
    assert_eq!(parsed.table(b"glyf").unwrap().data, b"glyphdata!");
    assert_eq!(parsed.table(b"cmap").unwrap().data.len(), 20);
}

#[test]
fn remove_strips_table_and_stays_valid() {
    let font = sample_font();
    let embedded = embed_manifest(&font, ManifestSource::embedded(b"m".to_vec())).unwrap();
    let removed = remove_manifest(&embedded).unwrap();
    let parsed = SfntFont::parse(&removed).unwrap();
    assert!(parsed.table(&C2PA_TAG).is_none());
    assert!(checksum_adjustment_valid(&removed).unwrap());
}

#[test]
fn reserve_then_fill_changes_only_excluded_bytes() {
    let reserved = reserve_manifest(&sample_font(), 48, None).unwrap();
    let signed = vec![0xABu8; 48];
    let filled = fill_manifest(&reserved.font, &signed).unwrap();
    assert_eq!(filled.len(), reserved.font.len());

    let mut excluded = vec![false; filled.len()];
    for e in &reserved.exclusions {
        for i in e.start..e.start + e.length {
            excluded[i as usize] = true;
        }
    }
    for i in 0..filled.len() {
        if !excluded[i] {
            assert_eq!(
                reserved.font[i], filled[i],
                "byte {i} changed outside exclusions"
            );
        }
    }
}

#[test]
fn filled_font_is_valid_and_readable() {
    let reserved = reserve_manifest(&sample_font(), 16, Some("urn:c2pa:m".into())).unwrap();
    let filled = fill_manifest(&reserved.font, b"0123456789abcdef").unwrap();
    assert!(checksum_adjustment_valid(&filled).unwrap());
    assert_eq!(read_manifest(&filled).unwrap(), b"0123456789abcdef");
    assert_eq!(
        read_manifest_uri(&filled).unwrap().as_deref(),
        Some("urn:c2pa:m")
    );
}

#[test]
fn fill_rejects_oversized_manifest() {
    let reserved = reserve_manifest(&sample_font(), 8, None).unwrap();
    assert!(matches!(
        fill_manifest(&reserved.font, b"nine bytes"),
        Err(Error::InvalidTable(_))
    ));
}

#[test]
fn fill_pads_shorter_manifest() {
    let reserved = reserve_manifest(&sample_font(), 32, None).unwrap();
    let filled = fill_manifest(&reserved.font, b"short").unwrap();
    assert!(checksum_adjustment_valid(&filled).unwrap());
    let store = read_manifest(&filled).unwrap();
    assert_eq!(store.len(), 32);
    assert_eq!(&store[..5], b"short");
    assert!(store[5..].iter().all(|&b| b == 0));
}

#[test]
fn reserve_rejects_zero_size() {
    assert!(matches!(
        reserve_manifest(&sample_font(), 0, None),
        Err(Error::InvalidTable(_))
    ));
}

#[test]
fn empty_source_is_rejected() {
    let font = sample_font();
    let empty = ManifestSource {
        active_manifest_uri: None,
        manifest_store: None,
    };
    assert!(matches!(
        embed_manifest(&font, empty),
        Err(Error::InvalidTable(_))
    ));
}

#[test]
fn reserved_offset_points_at_zeroed_store() {
    let reserved = reserve_manifest(&sample_font(), 24, None).unwrap();
    assert_eq!(reserved.reserve_size, 24);
    let off = reserved.manifest_offset as usize;
    assert!(reserved.font[off..off + 24].iter().all(|&b| b == 0));
    // The C2PA table's header (20 bytes, no URI) precedes the store.
    assert_eq!(&reserved.font[off - 20..off - 16], &[0, 0, 0, 1]);
}

#[test]
fn fill_without_table_is_not_found() {
    assert!(matches!(
        fill_manifest(&sample_font(), b"x"),
        Err(Error::NotFound)
    ));
    let remote = embed_manifest(&sample_font(), ManifestSource::remote("u")).unwrap();
    assert!(matches!(
        fill_manifest(&remote, b"x"),
        Err(Error::InvalidTable(_))
    ));
}

#[test]
fn fill_writes_manifest_at_reported_offset() {
    let reserved = reserve_manifest(&sample_font(), 12, Some("urn:x".into())).unwrap();
    let off = reserved.manifest_offset as usize;
    let filled = fill_manifest(&reserved.font, b"abcdefg").unwrap();
    assert_eq!(&filled[off..off + 7], b"abcdefg");
    assert!(filled[off + 7..off + 12].iter().all(|&b| b == 0));
    assert_eq!(filled.len(), reserved.font.len());
}

#[test]
fn removed_manifest_reads_as_not_found() {
    let embedded =
        embed_manifest(&sample_font(), ManifestSource::both("urn:y", b"store".to_vec())).unwrap();
    let removed = remove_manifest(&embedded).unwrap();
    assert!(matches!(read_manifest(&removed), Err(Error::NotFound)));
    assert!(matches!(read_manifest_uri(&removed), Err(Error::NotFound)));
    assert!(checksum_adjustment_valid(&removed).unwrap());
}

#[test]
fn refilling_keeps_exclusions() {
    let reserved = reserve_manifest(&sample_font(), 20, None).unwrap();
    let filled = fill_manifest(&reserved.font, &[7u8; 20]).unwrap();
    assert_eq!(
        c2pa_fonts::data_hash_exclusions(&filled).unwrap(),
        reserved.exclusions
    );
    let again = fill_manifest(&filled, &[9u8; 3]).unwrap();
    assert_eq!(c2pa_fonts::data_hash_exclusions(&again).unwrap(), reserved.exclusions);
    assert_eq!(read_manifest(&again).unwrap()[..3], [9u8; 3]);
}

#[test]
fn writability_checks_accept_ordinary_fonts() {
    let font = sample_font();
    assert!(embed_writable(&font, &ManifestSource::embedded(b"m".to_vec())));
    assert!(reserve_writable(&font, 64, &Some("urn:z".to_string())));
    let reserved = reserve_manifest(&font, 64, None).unwrap();
    assert!(fill_writable(&reserved.font, &[1u8; 10]));
    assert!(remove_writable(&reserved.font));
    // Inputs the operations reject with an error need no room.
    assert!(embed_writable(b"not a font", &ManifestSource::remote("u")));
    assert!(fill_writable(&font, b"x"));
}

#[test]
fn short_trailing_head_cannot_be_serialized() {
    let font = SfntFont {
        sfnt_version: 0x0001_0000,
        tables: vec![Table { tag: *b"head", data: vec![0u8; 4] }],
    };
    assert!(!font.serializable());
    let fine = SfntFont {
        sfnt_version: 0x0001_0000,
        tables: vec![
            Table { tag: *b"head", data: vec![0u8; 4] },
            Table { tag: *b"name", data: vec![0u8; 8] },
        ],
    };
    assert!(fine.serializable());
}

#[test]
fn writer_errors_carry_their_messages() {
    match reserve_manifest(&sample_font(), 0, None) {
        Err(Error::InvalidTable(m)) => assert_eq!(m, "reserve_size must be non-zero"),
        other => panic!("unexpected {other:?}"),
    }
    let reserved = reserve_manifest(&sample_font(), 8, None).unwrap();
    match fill_manifest(&reserved.font, b"nine bytes") {
        Err(Error::InvalidTable(m)) => {
            assert_eq!(m, "signed manifest is 10 bytes but only 8 were reserved")
        }
        other => panic!("unexpected {other:?}"),
    }
    let remote = embed_manifest(&sample_font(), ManifestSource::remote("u")).unwrap();
    match fill_manifest(&remote, b"x") {
        Err(Error::InvalidTable(m)) => assert_eq!(m, "reserved font has no manifest store"),
        other => panic!("unexpected {other:?}"),
    }
    let empty = ManifestSource { active_manifest_uri: None, manifest_store: None };
    match embed_manifest(&sample_font(), empty) {
        Err(Error::InvalidTable(m)) => {
            assert_eq!(m, "manifest source has neither a URI nor an embedded store")
        }
        other => panic!("unexpected {other:?}"),
    }
}

#[test]
fn four_byte_reservation_points_at_the_store() {
    let reserved = reserve_manifest(&sample_font(), 4, None).unwrap();
    assert_eq!(reserved.manifest_offset, 96);
    assert_eq!(&reserved.font[96..100], &[0, 0, 0, 0]);
    assert!(reserved
        .exclusions
        .iter()
        .any(|e| e.start == 96 && e.length == 4));
    let filled = fill_manifest(&reserved.font, b"abcd").unwrap();
    assert_eq!(&filled[96..100], b"abcd");
}

#[test]
fn removing_after_embedding_matches_removing_from_the_font() {
    let font = sample_font();
    let embedded =
        embed_manifest(&font, ManifestSource::both("urn:a", b"store".to_vec())).unwrap();
    assert_eq!(remove_manifest(&embedded).unwrap(), remove_manifest(&font).unwrap());
}

fn two_head_font() -> Vec<u8> {
    let mut head = vec![0u8; 54];
    head[0..4].copy_from_slice(&0x0001_0000u32.to_be_bytes());
    SfntFont {
        sfnt_version: 0x0001_0000,
        tables: vec![
            Table { tag: *b"head", data: head.clone() },
            Table { tag: *b"glyf", data: b"glyphdata!".to_vec() },
            Table { tag: *b"head", data: head },
        ],
    }
    .serialize()
}

#[test]
fn reservation_with_two_head_tables_points_at_the_store() {
    let reserved = reserve_manifest(&two_head_font(), 16, Some("https://example.com/m".to_string())).unwrap();
    let off = reserved.manifest_offset as usize;
    assert!(reserved.exclusions.iter().any(|e| e.start == reserved.manifest_offset && e.length == 16));
    assert_eq!(&reserved.font[off..off + 16], &[0u8; 16][..]);
    assert_eq!(read_manifest(&reserved.font).unwrap(), vec![0u8; 16]);
    let filled = fill_manifest(&reserved.font, b"signed").unwrap();
    assert_eq!(&filled[off..off + 6], b"signed");
}

#[test]
fn embedding_keeps_every_head_table() {
    let font = two_head_font();
    let before = SfntFont::parse(&font).unwrap();
    let out = embed_manifest(&font, ManifestSource::embedded(b"manifest".to_vec())).unwrap();
    let after = SfntFont::parse(&out).unwrap();
    for t in &before.tables {
        assert!(after.tables.iter().any(|u| u.tag == t.tag
            && u.data.len() == t.data.len()
            && u.data.iter().enumerate().all(|(j, b)| (t.tag == *b"head" && (8..12).contains(&j)) || *b == t.data[j])));
    }
}
