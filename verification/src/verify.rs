//! Checking a font's C2PA embedding for compliance.
use vstd::prelude::*;
use vstd::string::StringExecFns;
use crate::error::{decimal, decimal_string, Error, ErrorKind};
use crate::sfnt::{
    adjustment_valid, checksum_adjustment_valid, find_index, lemma_first_from, parse_detail,
    parse_font, tag_eq, SfntFont, TableModel,
};
use crate::table::{c2pa_tag, decode_detail, decode_table, lemma_c2pa_tag, C2paTable, C2PA_TAG};

verus! {

/// The result of checking a font's C2PA embedding for compliance.
#[derive(Debug, Clone, PartialEq, Eq)]
pub struct Compliance {
    /// The font contains exactly one `C2PA` table.
    pub has_c2pa_table: bool,
    /// `(majorVersion, minorVersion)` of the C2PA table, if present.
    pub table_version: Option<(u16, u16)>,
    /// The table carries an embedded Manifest Store.
    pub has_embedded_manifest: bool,
    /// The table carries a remote manifest URI.
    pub has_remote_uri: bool,
    /// The `head.checkSumAdjustment` matches the font's current bytes.
    pub checksum_valid: bool,
}

impl Compliance {
    /// A font is compliant when it has a well-formed `C2PA` table referencing
    /// at least one manifest, and its SFNT checksums are intact.
    pub fn is_compliant(&self) -> (r: bool)
        ensures
            r == (self.has_c2pa_table && (self.has_embedded_manifest || self.has_remote_uri)
                && self.checksum_valid),
    {
        self.has_c2pa_table && (self.has_embedded_manifest || self.has_remote_uri)
            && self.checksum_valid
    }
}

/// Number of tables among the first `k` with `tag`.
pub open spec fn count_tag(ts: Seq<TableModel>, tag: Seq<u8>, k: int) -> int
    decreases k,
{
    if k <= 0 {
        0
    } else {
        count_tag(ts, tag, k - 1) + if ts[k - 1].tag == tag { 1int } else { 0 }
    }
}

/// Counting the first `k` tables with `tag` counts them in the prefix.
pub proof fn lemma_count_tag(ts: Seq<TableModel>, tag: Seq<u8>, k: int)
    requires
        0 <= k <= ts.len(),
    ensures
        count_tag(ts, tag, k) == crate::sfnt::tag_count(ts.subrange(0, k), tag),
    decreases k,
{
    if k > 0 {
        lemma_count_tag(ts, tag, k - 1);
        assert(ts.subrange(0, k).drop_last() =~= ts.subrange(0, k - 1));
    }
}

/// The compliance report of the font in `d`, or the kind of error: the parse
/// error, `InvalidTable` for more than one `C2PA` table or a malformed one.
pub open spec fn compliance_of(d: Seq<u8>) -> Result<Compliance, ErrorKind> {
    match parse_font(d) {
        Err(k) => Err(k),
        Ok(f) => if count_tag(f.tables, c2pa_tag(), f.tables.len() as int) > 1 {
            Err(ErrorKind::InvalidTable)
        } else {
            let checksum_valid = adjustment_valid(d) == Ok::<bool, ErrorKind>(true);
            let i = find_index(f.tables, c2pa_tag());
            if i >= f.tables.len() {
                Ok(
                    Compliance {
                        has_c2pa_table: false,
                        table_version: None,
                        has_embedded_manifest: false,
                        has_remote_uri: false,
                        checksum_valid,
                    },
                )
            } else {
                match decode_table(f.tables[i].data) {
                    None => Err(ErrorKind::InvalidTable),
                    Some(t) => Ok(
                        Compliance {
                            has_c2pa_table: true,
                            table_version: Some((t.major, t.minor)),
                            has_embedded_manifest: t.store is Some,
                            has_remote_uri: t.uri is Some,
                            checksum_valid,
                        },
                    ),
                }
            }
        },
    }
}

/// The text of the message for a font with `count` `C2PA` tables.
pub open spec fn too_many_text(count: usize) -> Seq<char> {
    "font contains "@ + decimal(count as nat) + " C2PA tables; at most one is allowed"@
}

/// The message of the error checking the font in `d` gives: the font's, one
/// naming the number of `C2PA` tables when there are several, or the
/// record's.
pub open spec fn compliance_detail(d: Seq<u8>) -> Seq<char> {
    match parse_font(d) {
        Err(_) => parse_detail(d),
        Ok(f) => {
            let n = count_tag(f.tables, c2pa_tag(), f.tables.len() as int);
            let i = find_index(f.tables, c2pa_tag());
            if n > 1 {
                too_many_text(n as usize)
            } else if i >= f.tables.len() {
                Seq::empty()
            } else {
                decode_detail(f.tables[i].data)
            }
        },
    }
}

/// Verify a font's C2PA embedding (see [`compliance_of`]). Structural
/// failures that prevent parsing (a non-SFNT file, a truncated directory,
/// more than one `C2PA` table, or a malformed `C2PA` table) are errors.
pub fn verify(font: &[u8]) -> (r: Result<Compliance, Error>)
    ensures
        match (r, compliance_of(font@)) {
            (Ok(c), Ok(m)) => c == m,
            (Err(e), Err(k)) => e.kind() == k && e.detail() == compliance_detail(font@),
            _ => false,
        },
{
    let parsed = SfntFont::parse(font)?;
    let ghost ts = parsed@.tables;
    proof {
        lemma_c2pa_tag();
        lemma_first_from(ts, c2pa_tag(), 0);
    }
    let mut c2pa_count: usize = 0;
    let mut i: usize = 0;
    while i < parsed.tables.len()
        invariant
            ts == parsed@.tables,
            i <= ts.len(),
            c2pa_count == count_tag(ts, c2pa_tag(), i as int),
            c2pa_count <= i,
        decreases parsed.tables.len() - i,
    {
        assert(ts[i as int] == parsed.tables@[i as int]@);
        if tag_eq(&parsed.tables[i].tag, &C2PA_TAG) {
            c2pa_count = c2pa_count + 1;
        }
        i = i + 1;
    }
    if c2pa_count > 1 {
        return Err(Error::InvalidTable(too_many_message(c2pa_count)));
    }

    let checksum_valid = checksum_adjustment_valid(font)?;

    let table = match parsed.table(&C2PA_TAG) {
        Some(t) => t,
        None => {
            return Ok(
                Compliance {
                    has_c2pa_table: false,
                    table_version: None,
                    has_embedded_manifest: false,
                    has_remote_uri: false,
                    checksum_valid,
                },
            );
        },
    };

    let decoded = C2paTable::decode(table.data.as_slice())?;
    Ok(
        Compliance {
            has_c2pa_table: true,
            table_version: Some((decoded.major_version, decoded.minor_version)),
            has_embedded_manifest: decoded.manifest_store.is_some(),
            has_remote_uri: decoded.active_manifest_uri.is_some(),
            checksum_valid,
        },
    )
}

/// The message for a font with more than one `C2PA` table.
fn too_many_message(count: usize) -> (r: String)
    ensures
        r@ == too_many_text(count),
{
    let mut r = String::from_str("font contains ");
    let digits = decimal_string(count);
    r.append(digits.as_str());
    r.append(" C2PA tables; at most one is allowed");
    r
}

} // verus!
