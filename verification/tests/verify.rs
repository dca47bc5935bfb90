use c2pa_fonts::sfnt::{SfntFont, Table};
use c2pa_fonts::{embed_manifest, verify, Error, ManifestSource, C2PA_TAG};

fn sample_font() -> Vec<u8> {
    let mut head = vec![0u8; 54];
    head[0..4].copy_from_slice(&0x0001_0000u32.to_be_bytes());
    head[12..16].copy_from_slice(&0x5F0F_3CF5u32.to_be_bytes());
    SfntFont {
        sfnt_version: 0x0001_0000,
        tables: vec![
            Table { tag: *b"glyf", data: b"glyphdata!".to_vec() },
            Table { tag: *b"cmap", data: vec![0u8; 20] },
            Table { tag: *b"head", data: head },
        ],
    }
    .serialize()
}

#[test]
fn compliant_embedded_font() {
    let font = embed_manifest(&sample_font(), ManifestSource::embedded(b"m".to_vec())).unwrap();
    let report = verify(&font).unwrap();
    assert!(report.is_compliant());
    assert!(report.has_embedded_manifest);
    assert_eq!(report.table_version, Some((0, 1)));
}

#[test]
fn compliant_remote_font() {
    let font =
        embed_manifest(&sample_font(), ManifestSource::remote("https://x/m.c2pa")).unwrap();
    let report = verify(&font).unwrap();
    assert!(report.is_compliant());
    assert!(report.has_remote_uri);
    assert!(!report.has_embedded_manifest);
}

#[test]
fn font_without_table_is_not_compliant() {
    let report = verify(&sample_font()).unwrap();
    assert!(!report.has_c2pa_table);
    assert!(!report.is_compliant());
}

#[test]
fn tampered_font_fails_checksum() {
    let mut font =
        embed_manifest(&sample_font(), ManifestSource::embedded(b"m".to_vec())).unwrap();
    let last = font.len() - 1;
    font[last] ^= 0xFF;
    let report = verify(&font).unwrap();
    assert!(!report.checksum_valid);
    assert!(!report.is_compliant());
}

#[test]
fn two_c2pa_tables_are_rejected() {
    let mut font = SfntFont::parse(&sample_font()).unwrap();
    font.tables.push(Table { tag: C2PA_TAG, data: vec![0u8; 20] });
    font.tables.push(Table { tag: C2PA_TAG, data: vec![0u8; 20] });
    let bytes = font.serialize();
    assert!(matches!(verify(&bytes), Err(Error::InvalidTable(_))));
}

#[test]
fn several_c2pa_tables_are_counted_in_the_message() {
    let mut font = SfntFont::parse(&sample_font()).unwrap();
    font.tables.push(Table { tag: C2PA_TAG, data: vec![0u8; 20] });
    font.tables.push(Table { tag: C2PA_TAG, data: vec![0u8; 20] });
    match verify(&font.serialize()) {
        Err(Error::InvalidTable(m)) => {
            assert_eq!(m, "font contains 2 C2PA tables; at most one is allowed")
        }
        other => panic!("unexpected {other:?}"),
    }
}
