//! Hard-binding hashes and end-to-end validation, delegating hashing,
//! signature, trust and assertion checks to the c2pa SDK.
use vstd::prelude::*;
use vstd::string::{StrSliceExecFns, StringExecFns};
use c2pa::validation_results::StatusCodes;
use c2pa::validation_status::ValidationStatus;
use c2pa::{Context, HashRange, Reader, ValidationResults, ValidationState};
use c2pa::Error as SdkError;
use crate::binding::{data_hash_exclusions, exclusions_detail, exclusions_of, Exclusion};
use crate::error::{Error, ErrorKind};
use crate::reader::{manifest_detail, manifest_of, read_manifest};

verus! {

/// The c2pa SDK's hash range.
#[verifier::external_type_specification]
#[verifier::external_body]
pub struct ExHashRange(c2pa::HashRange);

/// The c2pa SDK's error.
#[verifier::external_type_specification]
#[verifier::external_body]
pub struct ExSdkError(SdkError);

/// The c2pa SDK's settings context.
#[verifier::external_type_specification]
#[verifier::external_body]
pub struct ExContext(c2pa::Context);

/// The c2pa SDK's manifest store reader.
#[verifier::external_type_specification]
#[verifier::external_body]
pub struct ExReader(c2pa::Reader);

/// The c2pa SDK's validation results.
#[verifier::external_type_specification]
#[verifier::external_body]
pub struct ExValidationResults(c2pa::ValidationResults);

/// The c2pa SDK's status codes of one manifest: its public `success`,
/// `informational` and `failure` lists of statuses.
#[verifier::external_type_specification]
pub struct ExStatusCodes(c2pa::validation_results::StatusCodes);

/// One c2pa SDK validation status.
#[verifier::external_type_specification]
#[verifier::external_body]
pub struct ExValidationStatus(c2pa::validation_status::ValidationStatus);

/// The c2pa SDK's overall validation state.
#[verifier::external_type_specification]
#[verifier::external_body]
pub struct ExValidationState(c2pa::ValidationState);

/// `ValidationState` is `Copy`; its derived `clone` returns the same state.
pub assume_specification[ <c2pa::ValidationState as Clone>::clone ](s: &ValidationState) -> (r: ValidationState)
    ensures
        r == *s,
;

/// MIME type passed to the c2pa SDK for the font stream. The SDK does not
/// parse the font (the manifest is supplied out of band); the string only
/// selects the data-hash validation path.
pub const FONT_MIME: &'static str = "font/sfnt";

/// The hash range `HashRange::new(start, length)` builds.
pub uninterp spec fn hash_range(start: u64, length: u64) -> HashRange;

/// The digest `c2pa::hash_stream_by_alg` computes with algorithm `alg` over
/// `font`, skipping `ranges`; `None` when it fails (an unsupported algorithm,
/// an empty font, or a range past the end).
pub uninterp spec fn c2pa_data_hash(alg: Seq<char>, font: Seq<u8>, ranges: Seq<HashRange>) -> Option<Seq<u8>>;

impl Exclusion {
    /// This exclusion as a c2pa SDK hash range (`HashRange::new`). The result
    /// is named by [`hash_range`]; what it holds is not stated.
    #[verifier::external_body]
    pub fn to_hash_range(self) -> (r: HashRange)
        ensures
            r == hash_range(self.start, self.length),
    {
        HashRange::new(self.start, self.length)
    }
}

/// The hash ranges of a sequence of exclusions, in order.
pub open spec fn ranges_of(ex: Seq<Exclusion>) -> Seq<HashRange> {
    ex.map_values(|e: Exclusion| hash_range(e.start, e.length))
}

/// Hash `font` with `alg`, skipping `ranges` (`c2pa::hash_stream_by_alg` on an
/// in-memory cursor, ranges as exclusions). The digest, or the failure, is
/// named by [`c2pa_data_hash`].
#[verifier::external_body]
fn hash_excluding(alg: &str, font: &[u8], ranges: Vec<HashRange>) -> (r: Result<Vec<u8>, SdkError>)
    ensures
        match r {
            Ok(h) => c2pa_data_hash(alg@, font@, ranges@) == Some(h@),
            Err(_) => c2pa_data_hash(alg@, font@, ranges@) is None,
        },
{
    c2pa::hash_stream_by_alg(alg, &mut std::io::Cursor::new(font), Some(ranges), true)
}

/// The font's exclusion ranges as c2pa SDK hash ranges, ready to attach to a
/// `c2pa.hash.data` assertion (see [`exclusions_of`]).
pub fn data_hash_ranges(font: &[u8]) -> (r: Result<Vec<HashRange>, Error>)
    ensures
        match (r, exclusions_of(font@)) {
            (Ok(v), Ok(ex)) => v@ == ranges_of(ex),
            (Err(e), Err(k)) => e.kind() == k && e.detail() == exclusions_detail(font@),
            _ => false,
        },
{
    let exclusions = data_hash_exclusions(font)?;
    let mut ranges: Vec<HashRange> = Vec::new();
    let mut i: usize = 0;
    while i < exclusions.len()
        invariant
            i <= exclusions@.len(),
            ranges@ == ranges_of(exclusions@.take(i as int)),
        decreases exclusions.len() - i,
    {
        let e = exclusions[i];
        ranges.push(e.to_hash_range());
        assert(ranges_of(exclusions@.take(i + 1)) =~= ranges_of(exclusions@.take(i as int)).push(
            hash_range(e.start, e.length),
        ));
        i = i + 1;
    }
    assert(exclusions@.take(exclusions@.len() as int) =~= exclusions@);
    Ok(ranges)
}

/// The `c2pa.hash.data` value of the font in `d` over its own exclusions, or
/// the kind of error: the exclusions' error, or `Validation` when the hasher
/// fails.
pub open spec fn data_hash_of(d: Seq<u8>, alg: Seq<char>) -> Result<Seq<u8>, ErrorKind> {
    match exclusions_of(d) {
        Err(k) => Err(k),
        Ok(ex) => match c2pa_data_hash(alg, d, ranges_of(ex)) {
            Some(h) => Ok(h),
            None => Err(ErrorKind::Validation),
        },
    }
}

/// Compute the `c2pa.hash.data` value over the font using the font's own
/// exclusion ranges, via the same hasher the c2pa SDK uses at validation
/// time (see [`data_hash_of`]).
pub fn compute_data_hash(font: &[u8], alg: &str) -> (r: Result<Vec<u8>, Error>)
    ensures
        match (r, data_hash_of(font@, alg@)) {
            (Ok(h), Ok(s)) => h@ == s,
            (Err(e), Err(k)) => e.kind() == k && (exclusions_of(font@) is Err ==> e.detail()
                == exclusions_detail(font@)),
            _ => false,
        },
{
    let ranges = data_hash_ranges(font)?;
    match hash_excluding(alg, font, ranges) {
        Ok(h) => Ok(h),
        Err(e) => Err(Error::Validation(e.to_string())),
    }
}

/// Verify that the font's bytes hash to `expected` under its exclusion
/// ranges: `Ok(true)` exactly when the computed hash equals `expected`.
pub fn verify_data_hash(font: &[u8], expected: &[u8], alg: &str) -> (r: Result<bool, Error>)
    ensures
        match (r, data_hash_of(font@, alg@)) {
            (Ok(b), Ok(s)) => b == (s == expected@),
            (Err(e), Err(k)) => e.kind() == k && (exclusions_of(font@) is Err ==> e.detail()
                == exclusions_detail(font@)),
            _ => false,
        },
{
    let h = compute_data_hash(font, alg)?;
    Ok(bytes_eq(h.as_slice(), expected))
}

/// Whether two byte strings are equal.
fn bytes_eq(a: &[u8], b: &[u8]) -> (r: bool)
    ensures
        r == (a@ == b@),
{
    if a.len() != b.len() {
        return false;
    }
    let mut i: usize = 0;
    while i < a.len()
        invariant
            a@.len() == b@.len(),
            i <= a@.len(),
            forall|j: int| 0 <= j < i ==> a@[j] == b@[j],
        decreases a.len() - i,
    {
        if a[i] != b[i] {
            return false;
        }
        i = i + 1;
    }
    assert(a@ =~= b@);
    true
}

/// The outcome of validating a font's C2PA manifest end to end.
#[derive(Debug, Clone)]
pub struct Validation {
    /// Whether the `c2pa.hash.data` hard binding holds: this crate's exclusion
    /// geometry is well-formed and the c2pa SDK confirmed the data hash
    /// matches the font's bytes over those exclusions.
    pub hard_binding_valid: bool,
    /// Overall validation state from the c2pa SDK (signature, trust, assertions).
    pub state: ValidationState,
    /// Success status codes reported for the active manifest.
    pub success_codes: Vec<String>,
    /// Failure status codes reported for the active manifest.
    pub failure_codes: Vec<String>,
    /// The validated manifest store as JSON.
    pub manifest_json: String,
}

/// Whether `s` begins with `p`.
pub open spec fn starts_with(s: Seq<char>, p: Seq<char>) -> bool {
    p.len() <= s.len() && s.subrange(0, p.len() as int) == p
}

/// The hard binding holds when the font's exclusion geometry can be derived
/// (so the `C2PA` table and its store region are intact), the delegated
/// validator reported `assertion.dataHash.match`, and it reported no failure
/// code starting with `assertion.dataHash`.
pub open spec fn hard_binding_holds(d: Seq<u8>, success: Seq<String>, failure: Seq<String>) -> bool {
    &&& exclusions_of(d) is Ok
    &&& exists|i: int| 0 <= i < success.len() && success[i]@ == "assertion.dataHash.match"@
    &&& !exists|j: int| 0 <= j < failure.len() && starts_with(failure[j]@, "assertion.dataHash"@)
}

/// Whether the hard binding holds, given the status codes the delegated
/// validator reported (see [`hard_binding_holds`]).
pub fn hard_binding_valid(font: &[u8], success: &[String], failure: &[String]) -> (r: bool)
    ensures
        r == hard_binding_holds(font@, success@, failure@),
{
    if data_hash_exclusions(font).is_err() {
        return false;
    }
    let matched_code = String::from_str("assertion.dataHash.match");
    let mut matched = false;
    let mut i: usize = 0;
    while i < success.len()
        invariant
            i <= success@.len(),
            matched_code@ == "assertion.dataHash.match"@,
            matched == exists|k: int| 0 <= k < i && success@[k]@ == "assertion.dataHash.match"@,
        decreases success.len() - i,
    {
        if success[i] == matched_code {
            matched = true;
        }
        i = i + 1;
    }
    let prefix = "assertion.dataHash";
    let prefix_string = String::from_str(prefix);
    let plen = prefix.unicode_len();
    let mut broken = false;
    let mut j: usize = 0;
    while j < failure.len()
        invariant
            j <= failure@.len(),
            prefix_string@ == prefix@,
            plen == prefix@.len(),
            broken == exists|k: int| 0 <= k < j && starts_with(failure@[k]@, prefix@),
        decreases failure.len() - j,
    {
        let code = failure[j].as_str();
        if code.unicode_len() >= plen {
            let head = String::from_str(code.substring_char(0, plen));
            if head == prefix_string {
                broken = true;
            }
        }
        j = j + 1;
    }
    matched && !broken
}

/// A settings context with the c2pa SDK defaults (`Context::new`).
#[verifier::external_body]
fn default_context() -> Context {
    Context::new()
}

/// A reader using `context` (`Reader::from_context`).
#[verifier::external_body]
fn reader_from_context(context: Context) -> Reader {
    Reader::from_context(context)
}

/// Load and validate a manifest store against the asset bytes
/// (`Reader::with_manifest_data_and_stream` on an in-memory cursor). The
/// outcome depends on trust settings and the current time, so nothing is
/// stated of it. This library hands it only a font, the Manifest Store read
/// from that font, and [`FONT_MIME`].
#[verifier::external_body]
fn with_manifest_data(reader: Reader, store: &[u8], format: &str, font: &[u8]) -> (r: Result<
    Reader,
    SdkError,
>)
    requires
        manifest_of(font@) == Ok::<Seq<u8>, ErrorKind>(store@),
        format@ == FONT_MIME@,
{
    reader.with_manifest_data_and_stream(store, format, std::io::Cursor::new(font))
}

/// The reader's validation results, if any (`Reader::validation_results`).
#[verifier::external_body]
fn validation_results(reader: &Reader) -> Option<&ValidationResults> {
    reader.validation_results()
}

/// The status codes of the active manifest (`ValidationResults::active_manifest`).
#[verifier::external_body]
fn active_manifest(results: &ValidationResults) -> Option<&StatusCodes> {
    results.active_manifest()
}

/// The success statuses (the `success` list, as `StatusCodes::success`
/// returns it).
fn success_statuses(codes: &StatusCodes) -> (r: &Vec<ValidationStatus>)
    ensures
        r@ == codes.success@,
{
    &codes.success
}

/// The failure statuses (the `failure` list, as `StatusCodes::failure`
/// returns it).
fn failure_statuses(codes: &StatusCodes) -> (r: &Vec<ValidationStatus>)
    ensures
        r@ == codes.failure@,
{
    &codes.failure
}

/// The code of a status (`ValidationStatus::code`), as an owned string.
#[verifier::external_body]
fn status_code(status: &ValidationStatus) -> String {
    status.code().to_string()
}

/// The overall validation state (`Reader::validation_state`).
#[verifier::external_body]
fn validation_state(reader: &Reader) -> ValidationState {
    reader.validation_state()
}

/// The manifest store as JSON (`Reader::json`).
#[verifier::external_body]
fn reader_json(reader: &Reader) -> String {
    reader.json()
}

/// The codes of a list of statuses, in order.
fn codes_of(statuses: &Vec<ValidationStatus>) -> (r: Vec<String>)
    ensures
        r@.len() == statuses@.len(),
{
    let mut out: Vec<String> = Vec::new();
    let mut i: usize = 0;
    while i < statuses.len()
        invariant
            i <= statuses@.len(),
            out@.len() == i,
        decreases statuses.len() - i,
    {
        out.push(status_code(&statuses[i]));
        i = i + 1;
    }
    out
}

/// The codes the SDK reported for the active manifest `active`: one per
/// success status, in order, then one per failure status, in order.
fn active_codes(active: &StatusCodes) -> (r: (Vec<String>, Vec<String>))
    ensures
        r.0@.len() == active.success@.len(),
        r.1@.len() == active.failure@.len(),
{
    (codes_of(success_statuses(active)), codes_of(failure_statuses(active)))
}

/// The report of validating `font`, given what the delegated validator
/// reported for the active manifest (success and failure codes, or `None`
/// when it reported none), its overall state and the manifest store as JSON.
pub fn validation_of(
    font: &[u8],
    reported: Option<(Vec<String>, Vec<String>)>,
    state: ValidationState,
    manifest_json: String,
) -> (v: Validation)
    ensures
        match reported {
            Some((success, failure)) => v.success_codes@ == success@ && v.failure_codes@ == failure@,
            None => v.success_codes@.len() == 0 && v.failure_codes@.len() == 0,
        },
        v.hard_binding_valid == hard_binding_holds(font@, v.success_codes@, v.failure_codes@),
        v.state == state,
        v.manifest_json@ == manifest_json@,
{
    let (success_codes, failure_codes) = match reported {
        Some(codes) => codes,
        None => (Vec::new(), Vec::new()),
    };
    let hard_binding_valid = hard_binding_valid(
        font,
        success_codes.as_slice(),
        failure_codes.as_slice(),
    );
    Validation { hard_binding_valid, state, success_codes, failure_codes, manifest_json }
}

/// Validate a font's C2PA manifest end to end.
///
/// This crate locates and extracts the Manifest Store and owns the
/// format-specific hard binding: it derives the `c2pa.hash.data` exclusion
/// ranges from the font structure, while the c2pa SDK performs the hash
/// comparison over those exclusions and all signature, trust and assertion
/// validation, with default settings.
///
/// Reading the store fails exactly as [`read_manifest`] does; the SDK is
/// handed the store read and the font; a failure of the SDK is a
/// `Validation` error; otherwise the report is [`validation_of`] what the SDK
/// reported, so `hard_binding_valid` is [`hard_binding_holds`] of the
/// reported codes.
pub fn validate(font: &[u8]) -> (r: Result<Validation, Error>)
    ensures
        manifest_of(font@) matches Err(k) ==> (r matches Err(e) && e.kind() == k && e.detail()
            == manifest_detail(font@)),
        r matches Ok(v) ==> manifest_of(font@) is Ok && v.hard_binding_valid == hard_binding_holds(
            font@,
            v.success_codes@,
            v.failure_codes@,
        ),
        r matches Err(e) ==> manifest_of(font@) is Err || e.kind() == ErrorKind::Validation,
{
    let store = read_manifest(font)?;
    let reader = match with_manifest_data(
        reader_from_context(default_context()),
        store.as_slice(),
        FONT_MIME,
        font,
    ) {
        Ok(reader) => reader,
        Err(e) => {
            return Err(Error::Validation(e.to_string()));
        },
    };
    let reported = match validation_results(&reader) {
        Some(results) => match active_manifest(results) {
            Some(active) => Some(active_codes(active)),
            None => None,
        },
        None => None,
    };
    Ok(validation_of(font, reported, validation_state(&reader), reader_json(&reader)))
}

} // verus!
