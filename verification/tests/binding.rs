use c2pa_fonts::sfnt::{SfntFont, Table};
use c2pa_fonts::{data_hash_exclusions, embed_manifest, reserve_manifest, Error, ManifestSource};

fn sample_font() -> Vec<u8> {
    let mut head = vec![0u8; 54];
    head[0..4].copy_from_slice(&0x0001_0000u32.to_be_bytes());
    head[12..16].copy_from_slice(&0x5F0F_3CF5u32.to_be_bytes());
    SfntFont {
        sfnt_version: 0x0001_0000,
        tables: vec![
            Table { tag: *b"glyf", data: b"glyphdata!".to_vec() },
            Table { tag: *b"cmap", data: vec![0u8; 20] },
            Table { tag: *b"head", data: head },
        ],
    }
    .serialize()
}

#[test]
fn exclusions_cover_store_and_two_checksums() {
    let reserved = reserve_manifest(&sample_font(), 64, None).unwrap();
    let ex = data_hash_exclusions(&reserved.font).unwrap();
    assert_eq!(ex.len(), 3);
    // The store exclusion is the 64-byte reserved region.
    assert!(ex.iter().any(|e| e.length == 64));
    // Two 4-byte checksum exclusions.
    assert_eq!(ex.iter().filter(|e| e.length == 4).count(), 2);
}

#[test]
fn exclusions_sorted_and_in_bounds() {
    let reserved = reserve_manifest(&sample_font(), 32, None).unwrap();
    let ex = data_hash_exclusions(&reserved.font).unwrap();
    for w in ex.windows(2) {
        assert!(w[0].start <= w[1].start);
    }
    for e in &ex {
        assert!((e.start + e.length) as usize <= reserved.font.len());
    }
}

#[test]
fn no_table_is_not_found() {
    assert!(matches!(
        data_hash_exclusions(&sample_font()),
        Err(Error::NotFound)
    ));
}

#[test]
fn exclusion_positions_are_exact() {
    // Tables sort as C2PA, cmap, glyf, head; the directory has 4 records.
    let reserved = reserve_manifest(&sample_font(), 8, None).unwrap();
    let ex = data_hash_exclusions(&reserved.font).unwrap();
    let data_start = 12 + 4 * 16;
    let c2pa_off = data_start as u64; // C2PA data first
    let head_off = c2pa_off + 28 + 20 + 12; // C2PA (28) + cmap (20) + glyf (12 padded)
    assert_eq!(ex[0].start, 12 + 4); // C2PA record checksum
    assert_eq!(ex[0].length, 4);
    assert_eq!(ex[1].start, c2pa_off + 20); // store after 20-byte header
    assert_eq!(ex[1].length, 8);
    assert_eq!(ex[2].start, head_off + 8);
    assert_eq!(ex[2].length, 4);
}

#[test]
fn remote_only_table_has_nothing_to_bind() {
    let font = embed_manifest(&sample_font(), ManifestSource::remote("urn:x")).unwrap();
    assert!(matches!(
        data_hash_exclusions(&font),
        Err(Error::InvalidTable(_))
    ));
}

#[test]
fn exclusion_errors_carry_their_messages() {
    let remote = embed_manifest(&sample_font(), ManifestSource::remote("u")).unwrap();
    match data_hash_exclusions(&remote) {
        Err(Error::InvalidTable(m)) => assert_eq!(m, "no embedded manifest store to bind"),
        other => panic!("unexpected {other:?}"),
    }
}

#[test]
fn editing_excluded_bytes_keeps_exclusions() {
    let reserved = reserve_manifest(&sample_font(), 24, None).unwrap();
    let mut edited = reserved.font.clone();
    for e in &reserved.exclusions {
        for i in e.start..e.start + e.length {
            edited[i as usize] ^= 0xA5;
        }
    }
    assert_eq!(data_hash_exclusions(&edited).unwrap(), reserved.exclusions);
}
