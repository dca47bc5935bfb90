use c2pa_fonts::sfnt::{SfntFont, Table};
use c2pa_fonts::validate::hard_binding_valid;
use c2pa_fonts::{
    compute_data_hash, data_hash_exclusions, data_hash_ranges, fill_manifest, reserve_manifest,
    validate, validation_of, verify_data_hash, Error,
};
use c2pa::ValidationState;

fn sample_font() -> Vec<u8> {
    let mut head = vec![0u8; 54];
    head[0..4].copy_from_slice(&0x0001_0000u32.to_be_bytes());
    head[12..16].copy_from_slice(&0x5F0F_3CF5u32.to_be_bytes());
    SfntFont {
        sfnt_version: 0x0001_0000,
        tables: vec![
            Table { tag: *b"glyf", data: b"glyphdata!".to_vec() },
            Table { tag: *b"cmap", data: vec![0u8; 20] },
            Table { tag: *b"head", data: head },
        ],
    }
    .serialize()
}

fn codes(list: &[&str]) -> Vec<String> {
    list.iter().map(|s| s.to_string()).collect()
}

#[test]
fn data_hash_ranges_follow_exclusions() {
    let reserved = reserve_manifest(&sample_font(), 40, None).unwrap();
    let ranges = data_hash_ranges(&reserved.font).unwrap();
    let ex = data_hash_exclusions(&reserved.font).unwrap();
    assert_eq!(ranges.len(), ex.len());
    assert_eq!(ranges.len(), 3);
}

#[test]
fn sha256_data_hash_has_32_bytes() {
    let reserved = reserve_manifest(&sample_font(), 40, None).unwrap();
    let h = compute_data_hash(&reserved.font, "sha256").unwrap();
    assert_eq!(h.len(), 32);
}

#[test]
fn own_data_hash_verifies_and_another_does_not() {
    let reserved = reserve_manifest(&sample_font(), 40, None).unwrap();
    let h = compute_data_hash(&reserved.font, "sha256").unwrap();
    assert!(verify_data_hash(&reserved.font, &h, "sha256").unwrap());
    let mut other = h.clone();
    other[0] ^= 0xFF;
    assert!(!verify_data_hash(&reserved.font, &other, "sha256").unwrap());
}

#[test]
fn filling_keeps_the_data_hash() {
    let reserved = reserve_manifest(&sample_font(), 48, Some("urn:c2pa:m".into())).unwrap();
    let h = compute_data_hash(&reserved.font, "sha256").unwrap();
    let filled = fill_manifest(&reserved.font, &[0x5Au8; 30]).unwrap();
    assert!(verify_data_hash(&filled, &h, "sha256").unwrap());
}

#[test]
fn changing_a_bound_byte_breaks_the_data_hash() {
    let reserved = reserve_manifest(&sample_font(), 48, None).unwrap();
    let h = compute_data_hash(&reserved.font, "sha256").unwrap();
    let parsed = SfntFont::parse(&reserved.font).unwrap();
    assert!(parsed.table(b"glyf").is_some());
    // The last byte of the file lies in the glyf table's padding or data,
    // outside every exclusion.
    let mut tampered = reserved.font.clone();
    let last = tampered.len() - 1;
    let ex = data_hash_exclusions(&reserved.font).unwrap();
    assert!(ex.iter().all(|e| (last as u64) < e.start || (last as u64) >= e.start + e.length));
    tampered[last] ^= 0x01;
    assert!(!verify_data_hash(&tampered, &h, "sha256").unwrap());
}

#[test]
fn unknown_hash_algorithm_is_a_validation_error() {
    let reserved = reserve_manifest(&sample_font(), 16, None).unwrap();
    assert!(matches!(
        compute_data_hash(&reserved.font, "no-such-alg"),
        Err(Error::Validation(_))
    ));
}

#[test]
fn data_hash_without_table_is_not_found() {
    assert!(matches!(compute_data_hash(&sample_font(), "sha256"), Err(Error::NotFound)));
    assert!(matches!(
        verify_data_hash(&sample_font(), &[0u8; 32], "sha256"),
        Err(Error::NotFound)
    ));
}

#[test]
fn hard_binding_needs_a_match_and_no_data_hash_failure() {
    let reserved = reserve_manifest(&sample_font(), 16, None).unwrap();
    let font = &reserved.font;
    assert!(hard_binding_valid(font, &codes(&["assertion.dataHash.match"]), &[]));
    assert!(hard_binding_valid(
        font,
        &codes(&["claimSignature.validated", "assertion.dataHash.match"]),
        &codes(&["signingCredential.untrusted"]),
    ));
    assert!(!hard_binding_valid(font, &codes(&["claimSignature.validated"]), &[]));
    assert!(!hard_binding_valid(
        font,
        &codes(&["assertion.dataHash.match"]),
        &codes(&["assertion.dataHash.mismatch"]),
    ));
    assert!(!hard_binding_valid(&sample_font(), &codes(&["assertion.dataHash.match"]), &[]));
}

#[test]
fn validating_a_font_without_table_is_not_found() {
    assert!(matches!(validate(&sample_font()), Err(Error::NotFound)));
}

#[test]
fn validating_a_placeholder_store_fails_or_does_not_bind() {
    let reserved = reserve_manifest(&sample_font(), 16, None).unwrap();
    match validate(&reserved.font) {
        Err(Error::Validation(_)) => {}
        Ok(v) => assert!(!v.hard_binding_valid),
        Err(e) => panic!("unexpected error {e:?}"),
    }
}

#[test]
fn validation_report_carries_the_reported_codes() {
    let reserved = reserve_manifest(&sample_font(), 16, None).unwrap();
    let success = codes(&["claimSignature.validated", "assertion.dataHash.match"]);
    let failure = codes(&["signingCredential.untrusted"]);
    let v = validation_of(
        &reserved.font,
        Some((success.clone(), failure.clone())),
        ValidationState::Valid,
        "{}".to_string(),
    );
    assert_eq!(v.success_codes, success);
    assert_eq!(v.failure_codes, failure);
    assert!(v.hard_binding_valid);
    assert_eq!(v.state, ValidationState::Valid);
    assert_eq!(v.manifest_json, "{}");
    let none = validation_of(&reserved.font, None, ValidationState::Invalid, String::new());
    assert!(none.success_codes.is_empty() && none.failure_codes.is_empty());
    assert!(!none.hard_binding_valid);
}
