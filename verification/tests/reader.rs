use c2pa_fonts::sfnt::{SfntFont, Table};
use c2pa_fonts::{embed_manifest, read_c2pa_table, read_manifest, read_manifest_uri, Error, ManifestSource};

fn sample_font() -> Vec<u8> {
    let mut head = vec![0u8; 54];
    head[0..4].copy_from_slice(&0x0001_0000u32.to_be_bytes());
    head[12..16].copy_from_slice(&0x5F0F_3CF5u32.to_be_bytes());
    SfntFont {
        sfnt_version: 0x0001_0000,
        tables: vec![
            Table { tag: *b"glyf", data: b"glyphdata!".to_vec() },
            Table { tag: *b"cmap", data: vec![0u8; 20] },
            Table { tag: *b"head", data: head },
        ],
    }
    .serialize()
}

#[test]
fn read_embedded_manifest() {
    let font = sample_font();
    let embedded =
        embed_manifest(&font, ManifestSource::embedded(b"\x00\x01\x02".to_vec())).unwrap();
    assert_eq!(read_manifest(&embedded).unwrap(), b"\x00\x01\x02");
}

#[test]
fn read_remote_uri() {
    let font = sample_font();
    let embedded =
        embed_manifest(&font, ManifestSource::remote("https://example.com/m.c2pa")).unwrap();
    assert_eq!(
        read_manifest_uri(&embedded).unwrap().as_deref(),
        Some("https://example.com/m.c2pa")
    );
}

#[test]
fn read_manifest_missing_table() {
    let font = sample_font();
    assert!(matches!(read_manifest(&font), Err(Error::NotFound)));
}

#[test]
fn read_manifest_remote_only_is_invalid() {
    let font = sample_font();
    let embedded =
        embed_manifest(&font, ManifestSource::remote("https://example.com/m.c2pa")).unwrap();
    assert!(matches!(
        read_manifest(&embedded),
        Err(Error::InvalidTable(_))
    ));
}

#[test]
fn read_both_fields_and_version() {
    let embedded = embed_manifest(
        &sample_font(),
        ManifestSource::both("urn:c2pa:x", b"store".to_vec()),
    )
    .unwrap();
    let table = read_c2pa_table(&embedded).unwrap();
    assert_eq!((table.major_version, table.minor_version), (0, 1));
    assert_eq!(table.active_manifest_uri.as_deref(), Some("urn:c2pa:x"));
    assert_eq!(table.manifest_store.as_deref(), Some(&b"store"[..]));
    assert!(matches!(read_manifest_uri(b"nope"), Err(Error::NotSfnt)));
}
