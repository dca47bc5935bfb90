use c2pa_fonts::Error;

/// The C2PA standard defines no font-specific codes, so none may appear.
#[test]
fn no_variant_claims_a_status_code() {
    for e in [
        Error::NotFound,
        Error::NotSfnt,
        Error::Collection,
        Error::Woff,
        Error::InvalidFont("x".into()),
        Error::InvalidTable("x".into()),
        Error::Validation("x".into()),
        Error::Io(std::io::Error::other("x")),
    ] {
        assert_eq!(e.code(), None, "{e:?} claimed a status code");
    }
}

/// A font with no C2PA table is unsigned; an unparseable one is a different
/// problem, and a delegated validation failure is different again.
#[test]
fn only_a_missing_table_means_unsigned() {
    assert!(Error::NotFound.is_no_manifest_located());
    for e in [
        Error::NotSfnt,
        Error::Woff,
        Error::InvalidTable("x".into()),
        Error::Validation("x".into()),
    ] {
        assert!(!e.is_no_manifest_located(), "{e:?} misreported as unsigned");
    }
}

#[test]
fn io_errors_convert_into_io_variant() {
    let e: Error = std::io::Error::other("disk").into();
    assert!(matches!(e, Error::Io(_)));
    assert!(!e.is_no_manifest_located());
}

#[test]
fn messages_describe_each_error() {
    assert_eq!(Error::NotFound.message(), "no C2PA table found in font");
    assert_eq!(Error::NotSfnt.message(), "not a supported SFNT (TrueType/OpenType) font");
    assert_eq!(Error::Collection.message(), "font collections (ttcf) are not supported");
    assert_eq!(
        Error::Woff.message(),
        "WOFF/WOFF2 fonts are not supported; decompress to SFNT first"
    );
    assert_eq!(Error::InvalidFont("bad".into()).message(), "invalid font: bad");
    assert_eq!(Error::InvalidTable("short".into()).message(), "invalid C2PA table: short");
    assert_eq!(Error::Validation("sig".into()).message(), "validation failed: sig");
    assert_eq!(Error::Io(std::io::Error::other("disk")).message(), "I/O error: disk");
}
