//! Embedding, reserving, filling and removing a font's `C2PA` table.
use vstd::prelude::*;
use vstd::string::StringExecFns;
use vstd::slice::slice_to_vec;
use crate::binding::{
    exclusions_detail, exclusions_of, listed_exclusions, sorted_by_start, store_exclusion, Exclusion,
};
use crate::bytes::zeros;
use crate::error::{decimal, decimal_string, Error, ErrorKind};
use crate::sfnt::{
    can_serialize, find_index, lemma_first_from, parse_detail, parse_font, serialize_font, without_tag,
    FontModel, SfntFont, TableModel,
};
use crate::table::{
    c2pa_tag, decode_detail, decode_table, encode_table, encoded_len, lemma_c2pa_tag, opt_bytes, opt_chars,
    C2paTable, C2paTableModel, C2PA_TAG, MAJOR_VERSION, MINOR_VERSION,
};

verus! {

/// What to write into a font's `C2PA` table: an embedded Manifest Store, a
/// remote manifest URI, or both.
#[derive(Debug, Clone)]
pub struct ManifestSource {
    pub active_manifest_uri: Option<String>,
    pub manifest_store: Option<Vec<u8>>,
}

impl ManifestSource {
    /// Embed a Manifest Store directly in the font.
    pub fn embedded(manifest_store: Vec<u8>) -> (r: Self)
        ensures
            r.active_manifest_uri is None,
            opt_bytes(r.manifest_store) == Some(manifest_store@),
    {
        ManifestSource { active_manifest_uri: None, manifest_store: Some(manifest_store) }
    }

    /// Reference a remote (or side-car) manifest by URI.
    pub fn remote(uri: &str) -> (r: Self)
        ensures
            opt_chars(r.active_manifest_uri) == Some(uri@),
            r.manifest_store is None,
    {
        ManifestSource { active_manifest_uri: Some(uri.to_owned()), manifest_store: None }
    }

    /// Embed a Manifest Store and record the active manifest URI.
    pub fn both(uri: &str, manifest_store: Vec<u8>) -> (r: Self)
        ensures
            opt_chars(r.active_manifest_uri) == Some(uri@),
            opt_bytes(r.manifest_store) == Some(manifest_store@),
    {
        ManifestSource {
            active_manifest_uri: Some(uri.to_owned()),
            manifest_store: Some(manifest_store),
        }
    }
}

/// A `C2PA` table of the current version with the given URI and store.
pub open spec fn new_table(uri: Option<Seq<char>>, store: Option<Seq<u8>>) -> C2paTableModel {
    C2paTableModel { major: MAJOR_VERSION, minor: MINOR_VERSION, uri, store }
}

/// `f` with every `C2PA` table removed and the record of `t` appended as the
/// `C2PA` table.
pub open spec fn with_c2pa(f: FontModel, t: C2paTableModel) -> FontModel {
    FontModel {
        version: f.version,
        tables: without_tag(f.tables, c2pa_tag()).push(TableModel { tag: c2pa_tag(), data: encode_table(t) }),
    }
}

/// `f` without its `C2PA` tables.
pub open spec fn without_c2pa(f: FontModel) -> FontModel {
    FontModel { version: f.version, tables: without_tag(f.tables, c2pa_tag()) }
}

/// Whether `t` can be written into `f` within machine limits: its record
/// fits in memory and the resulting font can be serialized.
pub open spec fn writable(f: FontModel, t: C2paTableModel) -> bool {
    encoded_len(t) <= usize::MAX && can_serialize(with_c2pa(f, t))
}

/// The font and table that embedding a source writes, or the kind of error:
/// a source with neither URI nor store is `InvalidTable`.
pub open spec fn embed_target(d: Seq<u8>, uri: Option<Seq<char>>, store: Option<Seq<u8>>) -> Result<
    (FontModel, C2paTableModel),
    ErrorKind,
> {
    if uri is None && store is None {
        Err(ErrorKind::InvalidTable)
    } else {
        match parse_font(d) {
            Err(k) => Err(k),
            Ok(f) => Ok((f, new_table(uri, store))),
        }
    }
}

/// The bytes of the font with the table written, or the error.
pub open spec fn written(target: Result<(FontModel, C2paTableModel), ErrorKind>) -> Result<Seq<u8>, ErrorKind> {
    match target {
        Err(k) => Err(k),
        Ok((f, t)) => Ok(serialize_font(with_c2pa(f, t))),
    }
}

/// Whether a target, when there is one, is writable.
pub open spec fn target_writable(target: Result<(FontModel, C2paTableModel), ErrorKind>) -> bool {
    target matches Ok((f, t)) ==> writable(f, t)
}

/// The message of the error embedding gives: a source with neither URI nor
/// store, or the font's.
pub open spec fn embed_detail(d: Seq<u8>, uri: Option<Seq<char>>, store: Option<Seq<u8>>) -> Seq<char> {
    if uri is None && store is None {
        "manifest source has neither a URI nor an embedded store"@
    } else {
        parse_detail(d)
    }
}

/// Embed a C2PA manifest into a font by inserting (or replacing) its `C2PA`
/// table; the font is re-serialized (see [`embed_target`] and
/// [`serialize_font`]).
pub fn embed_manifest(font: &[u8], source: ManifestSource) -> (r: Result<Vec<u8>, Error>)
    requires
        target_writable(
            embed_target(font@, opt_chars(source.active_manifest_uri), opt_bytes(source.manifest_store)),
        ),
    ensures
        match (
            r,
            written(
                embed_target(font@, opt_chars(source.active_manifest_uri), opt_bytes(source.manifest_store)),
            ),
        ) {
            (Ok(v), Ok(s)) => v@ == s,
            (Err(e), Err(k)) => e.kind() == k && e.detail() == embed_detail(
                font@,
                opt_chars(source.active_manifest_uri),
                opt_bytes(source.manifest_store),
            ),
            _ => false,
        },
{
    if source.active_manifest_uri.is_none() && source.manifest_store.is_none() {
        return Err(
            Error::InvalidTable(
                "manifest source has neither a URI nor an embedded store".to_string(),
            ),
        );
    }
    let mut parsed = SfntFont::parse(font)?;
    let table = C2paTable::new(source.active_manifest_uri, source.manifest_store);
    let encoded = table.encode();
    parsed.set_table(C2PA_TAG, encoded);
    proof {
        lemma_c2pa_tag();
    }
    Ok(parsed.serialize())
}

/// A font with a reserved (placeholder) Manifest Store, ready for the
/// hash-then-sign step of the hard-binding flow.
#[derive(Debug, Clone)]
pub struct ReservedFont {
    /// The serialized font with a zero-filled Manifest Store of `reserve_size`.
    pub font: Vec<u8>,
    /// The `c2pa.hash.data` exclusion ranges for this layout.
    pub exclusions: Vec<Exclusion>,
    /// Absolute byte offset of the reserved Manifest Store within `font`.
    pub manifest_offset: u64,
    /// Byte length of the reserved Manifest Store.
    pub reserve_size: usize,
}

/// The font and table that reserving `n` bytes writes: a zero-filled store
/// of `n` bytes and the given URI. Reserving nothing is `InvalidTable`.
pub open spec fn reserve_target(d: Seq<u8>, n: usize, uri: Option<Seq<char>>) -> Result<
    (FontModel, C2paTableModel),
    ErrorKind,
> {
    if n == 0 {
        Err(ErrorKind::InvalidTable)
    } else {
        match parse_font(d) {
            Err(k) => Err(k),
            Ok(f) => Ok((f, new_table(uri, Some(zeros(n as nat))))),
        }
    }
}

/// What reserving `n` bytes gives: the serialized font, its exclusions and
/// the start of its Manifest Store's exclusion, or the kind of error.
pub open spec fn reserved_of(d: Seq<u8>, n: usize, uri: Option<Seq<char>>) -> Result<
    (Seq<u8>, Seq<Exclusion>, u64),
    ErrorKind,
> {
    match written(reserve_target(d, n, uri)) {
        Err(k) => Err(k),
        Ok(s) => match exclusions_of(s) {
            Err(k) => Err(k),
            Ok(ex) => Ok((s, ex, store_exclusion(s).start)),
        },
    }
}

/// The message of the error reserving gives: a zero size, the font's, or
/// the exclusions' of the font written.
pub open spec fn reserved_detail(d: Seq<u8>, n: usize, uri: Option<Seq<char>>) -> Seq<char> {
    if n == 0 {
        "reserve_size must be non-zero"@
    } else {
        match written(reserve_target(d, n, uri)) {
            Err(_) => parse_detail(d),
            Ok(s) => exclusions_detail(s),
        }
    }
}

/// Reserve space for a manifest of `reserve_size` bytes in a font's `C2PA`
/// table, returning the font-with-placeholder and its hard-binding
/// exclusions (see [`reserved_of`]).
///
/// This is the first step of the placeholder-then-fill flow: reserve, then
/// hash the returned font over the returned exclusions, then sign a manifest
/// of at most `reserve_size` bytes, then [`fill_manifest`].
pub fn reserve_manifest(font: &[u8], reserve_size: usize, active_manifest_uri: Option<String>) -> (r:
    Result<ReservedFont, Error>)
    requires
        target_writable(reserve_target(font@, reserve_size, opt_chars(active_manifest_uri))),
    ensures
        match (r, reserved_of(font@, reserve_size, opt_chars(active_manifest_uri))) {
            (Ok(rf), Ok((s, ex, off))) => rf.font@ == s && rf.exclusions@ == ex && rf.manifest_offset
                == off && rf.reserve_size == reserve_size,
            (Err(e), Err(k)) => e.kind() == k && e.detail() == reserved_detail(
                font@,
                reserve_size,
                opt_chars(active_manifest_uri),
            ),
            _ => false,
        },
{
    if reserve_size == 0 {
        return Err(Error::InvalidTable("reserve_size must be non-zero".to_string()));
    }
    let store: Vec<u8> = vec![0u8; reserve_size];
    assert(store@ =~= zeros(reserve_size as nat));
    let source = ManifestSource { active_manifest_uri, manifest_store: Some(store) };
    let serialized = embed_manifest(font, source)?;

    let listed = listed_exclusions(serialized.as_slice())?;
    let manifest_offset = listed[0].start;
    let exclusions = sorted_by_start(listed);
    Ok(ReservedFont { font: serialized, exclusions, manifest_offset, reserve_size })
}

/// The font and table that filling a reserved font with `signed` writes: the
/// first `C2PA` table's URI and a store of the reserved length holding
/// `signed` followed by zeros. Errors: the font's parse error, `NotFound`
/// without a `C2PA` table, `InvalidTable` for a malformed table, a table
/// without a store, or a manifest longer than the reserved store.
pub open spec fn fill_target(d: Seq<u8>, signed: Seq<u8>) -> Result<(FontModel, C2paTableModel), ErrorKind> {
    match parse_font(d) {
        Err(k) => Err(k),
        Ok(f) => {
            let i = find_index(f.tables, c2pa_tag());
            if i >= f.tables.len() {
                Err(ErrorKind::NotFound)
            } else {
                match decode_table(f.tables[i].data) {
                    None => Err(ErrorKind::InvalidTable),
                    Some(t) => match t.store {
                        None => Err(ErrorKind::InvalidTable),
                        Some(st) => if signed.len() > st.len() {
                            Err(ErrorKind::InvalidTable)
                        } else {
                            Ok(
                                (
                                    f,
                                    new_table(
                                        t.uri,
                                        Some(signed + zeros((st.len() - signed.len()) as nat)),
                                    ),
                                ),
                            )
                        },
                    },
                }
            }
        },
    }
}

/// The text of the message for a signed manifest of `signed` bytes larger
/// than a reserved store of `reserved` bytes.
pub open spec fn too_large_text(signed: usize, reserved: usize) -> Seq<char> {
    "signed manifest is "@ + decimal(signed as nat) + " bytes but only "@ + decimal(reserved as nat)
        + " were reserved"@
}

/// The message of the error filling gives: the font's, none for a missing
/// table, the record's, a table without a store, or a manifest too large.
pub open spec fn fill_detail(d: Seq<u8>, signed: Seq<u8>) -> Seq<char> {
    match parse_font(d) {
        Err(_) => parse_detail(d),
        Ok(f) => {
            let i = find_index(f.tables, c2pa_tag());
            if i >= f.tables.len() {
                Seq::empty()
            } else {
                match decode_table(f.tables[i].data) {
                    None => decode_detail(f.tables[i].data),
                    Some(t) => match t.store {
                        None => "reserved font has no manifest store"@,
                        Some(st) => too_large_text(signed.len() as usize, st.len() as usize),
                    },
                }
            }
        },
    }
}

/// Fill a reserved font's Manifest Store with signed manifest bytes (see
/// [`fill_target`]).
///
/// A shorter manifest is zero-padded to the reserved size so the store region,
/// and therefore the hard-binding exclusions and offsets, are unchanged. The
/// font is re-serialized so the `C2PA` table checksum and
/// `head.checkSumAdjustment` are recomputed.
pub fn fill_manifest(reserved_font: &[u8], signed_manifest: &[u8]) -> (r: Result<Vec<u8>, Error>)
    requires
        target_writable(fill_target(reserved_font@, signed_manifest@)),
    ensures
        match (r, written(fill_target(reserved_font@, signed_manifest@))) {
            (Ok(v), Ok(s)) => v@ == s,
            (Err(e), Err(k)) => e.kind() == k && e.detail() == fill_detail(reserved_font@, signed_manifest@),
            _ => false,
        },
{
    let mut parsed = SfntFont::parse(reserved_font)?;
    proof {
        lemma_c2pa_tag();
        lemma_first_from(parsed@.tables, c2pa_tag(), 0);
    }
    let existing = match parsed.table(&C2PA_TAG) {
        Some(t) => t,
        None => {
            return Err(Error::NotFound);
        },
    };
    let table = C2paTable::decode(existing.data.as_slice())?;
    let reserved = match &table.manifest_store {
        Some(s) => s.len(),
        None => {
            return Err(Error::InvalidTable("reserved font has no manifest store".to_string()));
        },
    };
    if signed_manifest.len() > reserved {
        return Err(Error::InvalidTable(too_large_message(signed_manifest.len(), reserved)));
    }
    let mut store = slice_to_vec(signed_manifest);
    store.resize(reserved, 0);
    assert(store@ =~= signed_manifest@ + zeros((reserved - signed_manifest@.len()) as nat));
    let filled = C2paTable::new(table.active_manifest_uri, Some(store));
    let encoded = filled.encode();
    parsed.set_table(C2PA_TAG, encoded);
    Ok(parsed.serialize())
}

/// Remove the `C2PA` table from a font, if present, returning the
/// re-serialized font.
pub fn remove_manifest(font: &[u8]) -> (r: Result<Vec<u8>, Error>)
    requires
        parse_font(font@) matches Ok(f) ==> can_serialize(without_c2pa(f)),
    ensures
        match (r, parse_font(font@)) {
            (Ok(v), Ok(f)) => v@ == serialize_font(without_c2pa(f)),
            (Err(e), Err(k)) => e.kind() == k && e.detail() == parse_detail(font@),
            _ => false,
        },
{
    let mut parsed = SfntFont::parse(font)?;
    parsed.remove_table(&C2PA_TAG);
    proof {
        lemma_c2pa_tag();
    }
    Ok(parsed.serialize())
}

/// A copy of an optional URI.
fn copy_uri(uri: &Option<String>) -> (r: Option<String>)
    ensures
        opt_chars(r) == opt_chars(*uri),
{
    match uri {
        Some(s) => Some(s.clone()),
        None => None,
    }
}

/// Whether writing `table` as the `C2PA` table of `font` stays within
/// machine limits (see [`writable`]).
fn writable_into(font: SfntFont, table: C2paTable) -> (r: bool)
    ensures
        r == writable(font@, table@),
{
    if !table.encodable() {
        return false;
    }
    let mut font = font;
    let encoded = table.encode();
    font.set_table(C2PA_TAG, encoded);
    proof {
        lemma_c2pa_tag();
    }
    font.serializable()
}

/// Whether [`embed_manifest`] can write `source` into `font` within machine
/// limits: its precondition. Inputs that embedding rejects with an error
/// qualify.
pub fn embed_writable(font: &[u8], source: &ManifestSource) -> (r: bool)
    ensures
        r == target_writable(
            embed_target(font@, opt_chars(source.active_manifest_uri), opt_bytes(source.manifest_store)),
        ),
{
    if source.active_manifest_uri.is_none() && source.manifest_store.is_none() {
        return true;
    }
    let parsed = match SfntFont::parse(font) {
        Ok(p) => p,
        Err(_) => {
            return true;
        },
    };
    let store = match &source.manifest_store {
        Some(v) => Some(slice_to_vec(v.as_slice())),
        None => None,
    };
    let table = C2paTable::new(copy_uri(&source.active_manifest_uri), store);
    writable_into(parsed, table)
}

/// Whether [`reserve_manifest`] can reserve `reserve_size` bytes in `font`
/// within machine limits: its precondition.
pub fn reserve_writable(font: &[u8], reserve_size: usize, active_manifest_uri: &Option<String>) -> (r:
    bool)
    ensures
        r == target_writable(reserve_target(font@, reserve_size, opt_chars(*active_manifest_uri))),
{
    if reserve_size == 0 {
        return true;
    }
    let parsed = match SfntFont::parse(font) {
        Ok(p) => p,
        Err(_) => {
            return true;
        },
    };
    let store: Vec<u8> = vec![0u8; reserve_size];
    assert(store@ =~= zeros(reserve_size as nat));
    let table = C2paTable::new(copy_uri(active_manifest_uri), Some(store));
    writable_into(parsed, table)
}

/// Whether [`fill_manifest`] can fill `reserved_font` with `signed_manifest`
/// within machine limits: its precondition.
pub fn fill_writable(reserved_font: &[u8], signed_manifest: &[u8]) -> (r: bool)
    ensures
        r == target_writable(fill_target(reserved_font@, signed_manifest@)),
{
    let parsed = match SfntFont::parse(reserved_font) {
        Ok(p) => p,
        Err(_) => {
            return true;
        },
    };
    proof {
        lemma_c2pa_tag();
        lemma_first_from(parsed@.tables, c2pa_tag(), 0);
    }
    let existing = match parsed.table(&C2PA_TAG) {
        Some(t) => t,
        None => {
            return true;
        },
    };
    let table = match C2paTable::decode(existing.data.as_slice()) {
        Ok(t) => t,
        Err(_) => {
            return true;
        },
    };
    let reserved = match &table.manifest_store {
        Some(s) => s.len(),
        None => {
            return true;
        },
    };
    if signed_manifest.len() > reserved {
        return true;
    }
    let mut store = slice_to_vec(signed_manifest);
    store.resize(reserved, 0);
    assert(store@ =~= signed_manifest@ + zeros((reserved - signed_manifest@.len()) as nat));
    let filled = C2paTable::new(table.active_manifest_uri, Some(store));
    writable_into(parsed, filled)
}

/// Whether [`remove_manifest`] can write `font` without its `C2PA` table
/// within machine limits: its precondition.
pub fn remove_writable(font: &[u8]) -> (r: bool)
    ensures
        r == (parse_font(font@) matches Ok(f) ==> can_serialize(without_c2pa(f))),
{
    let mut parsed = match SfntFont::parse(font) {
        Ok(p) => p,
        Err(_) => {
            return true;
        },
    };
    parsed.remove_table(&C2PA_TAG);
    proof {
        lemma_c2pa_tag();
    }
    parsed.serializable()
}

/// The message for a signed manifest larger than the reserved store.
fn too_large_message(signed: usize, reserved: usize) -> (r: String)
    ensures
        r@ == too_large_text(signed, reserved),
{
    let mut r = String::from_str("signed manifest is ");
    let s = decimal_string(signed);
    r.append(s.as_str());
    r.append(" bytes but only ");
    let t = decimal_string(reserved);
    r.append(t.as_str());
    r.append(" were reserved");
    r
}

} // verus!
