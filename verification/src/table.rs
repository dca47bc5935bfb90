//! The `C2PA` font table record: encoding and decoding.
use vstd::prelude::*;
use vstd::utf8::{decode_utf8, encode_utf8, valid_utf8};
use vstd::slice::{slice_subrange, slice_to_vec};
use crate::bytes::{lemma_be16_roundtrip, lemma_be32_roundtrip, be16_bytes, be32_bytes, get_be16, get_be32, push_u16, push_u32, read_u16, read_u32};
use crate::error::{Error, ErrorKind};

verus! {

broadcast use vstd::utf8::encode_utf8_valid_utf8, vstd::utf8::encode_utf8_decode_utf8;

/// SFNT table tag identifying the C2PA table (`"C2PA"`).
pub const C2PA_TAG: [u8; 4] = [0x43, 0x32, 0x50, 0x41];

/// Major version written into new C2PA tables. The format is preliminary, so
/// this crate emits version 0.1.
pub const MAJOR_VERSION: u16 = 0;

/// Minor version written into new C2PA tables.
pub const MINOR_VERSION: u16 = 1;

/// Fixed portion of the C2PA table record, preceding the URI and manifest data.
pub const HEADER_LEN: usize = 20;

/// The tag `"C2PA"` as a byte sequence.
pub open spec fn c2pa_tag() -> Seq<u8> {
    seq![0x43u8, 0x32u8, 0x50u8, 0x41u8]
}

/// `C2PA_TAG` holds the bytes of `"C2PA"`.
pub proof fn lemma_c2pa_tag()
    ensures
        C2PA_TAG@ == c2pa_tag(),
{
    assert(C2PA_TAG@ =~= c2pa_tag());
}

/// A decoded C2PA font table.
///
/// The table may carry a URI to the active manifest, an embedded Manifest
/// Store, or both.
#[derive(Debug, Clone, PartialEq, Eq)]
pub struct C2paTable {
    pub major_version: u16,
    pub minor_version: u16,
    pub active_manifest_uri: Option<String>,
    pub manifest_store: Option<Vec<u8>>,
}

/// The mathematical content of a [`C2paTable`].
pub struct C2paTableModel {
    pub major: u16,
    pub minor: u16,
    pub uri: Option<Seq<char>>,
    pub store: Option<Seq<u8>>,
}

/// The characters of an optional string.
pub open spec fn opt_chars(s: Option<String>) -> Option<Seq<char>> {
    match s {
        Some(s) => Some(s@),
        None => None,
    }
}

/// The bytes of an optional byte vector.
pub open spec fn opt_bytes(v: Option<Vec<u8>>) -> Option<Seq<u8>> {
    match v {
        Some(v) => Some(v@),
        None => None,
    }
}

impl View for C2paTable {
    type V = C2paTableModel;

    open spec fn view(&self) -> C2paTableModel {
        C2paTableModel {
            major: self.major_version,
            minor: self.minor_version,
            uri: opt_chars(self.active_manifest_uri),
            store: opt_bytes(self.manifest_store),
        }
    }
}

/// The UTF-8 bytes of the URI, empty when there is none.
pub open spec fn uri_bytes(uri: Option<Seq<char>>) -> Seq<u8> {
    match uri {
        Some(c) => encode_utf8(c),
        None => Seq::empty(),
    }
}

/// The store bytes, empty when there is none.
pub open spec fn store_bytes(store: Option<Seq<u8>>) -> Seq<u8> {
    match store {
        Some(b) => b,
        None => Seq::empty(),
    }
}

/// Length of the encoded record of `t`.
pub open spec fn encoded_len(t: C2paTableModel) -> int {
    20 + uri_bytes(t.uri).len() as int + store_bytes(t.store).len() as int
}

/// The 20-byte fixed header of the record of `t`.
pub open spec fn table_header(t: C2paTableModel) -> Seq<u8> {
    let uri = uri_bytes(t.uri);
    let store = store_bytes(t.store);
    let uri_offset: u32 = if uri.len() == 0 { 0 } else { 20 };
    let store_offset: u32 = if store.len() == 0 { 0 } else { (20 + uri.len()) as u32 };
    be16_bytes(t.major) + be16_bytes(t.minor) + be32_bytes(uri_offset) + be16_bytes(
        uri.len() as u16,
    ) + be16_bytes(0) + be32_bytes(store_offset) + be32_bytes(store.len() as u32)
}

/// The encoded record: a 20-byte big-endian header (versions, URI offset and
/// length, a reserved `u16`, store offset and length), then the URI bytes,
/// then the store bytes. An absent or empty field has offset zero.
pub open spec fn encode_table(t: C2paTableModel) -> Seq<u8> {
    table_header(t) + uri_bytes(t.uri) + store_bytes(t.store)
}

/// Whether `len` bytes at `off` lie inside `d`.
pub open spec fn in_bounds(d: Seq<u8>, off: int, len: int) -> bool {
    off + len <= d.len()
}

/// The table decoded from `d`, or `None` when `d` is not a well-formed record:
/// shorter than the header, a present field extending past the end, or a URI
/// that is not valid UTF-8. An offset of zero means the field is absent.
pub open spec fn decode_table(d: Seq<u8>) -> Option<C2paTableModel> {
    if d.len() < 20 {
        None
    } else {
        let uo = get_be32(d, 4) as int;
        let ul = get_be16(d, 8) as int;
        let so = get_be32(d, 12) as int;
        let sl = get_be32(d, 16) as int;
        let uri_ok = uo == 0 || (in_bounds(d, uo, ul) && valid_utf8(d.subrange(uo, uo + ul)));
        let store_ok = so == 0 || in_bounds(d, so, sl);
        if uri_ok && store_ok {
            Some(
                C2paTableModel {
                    major: get_be16(d, 0),
                    minor: get_be16(d, 2),
                    uri: if uo == 0 {
                        None
                    } else {
                        Some(decode_utf8(d.subrange(uo, uo + ul)))
                    },
                    store: if so == 0 {
                        None
                    } else {
                        Some(d.subrange(so, so + sl))
                    },
                },
            )
        } else {
            None
        }
    }
}

/// The message of the error decoding `d` gives (see [`decode_table`]): a
/// short header, then the URI's and the store's range overflowing the
/// address space or passing the end, or an invalid URI, in that order.
pub open spec fn decode_detail(d: Seq<u8>) -> Seq<char> {
    let uo = get_be32(d, 4) as int;
    let ul = get_be16(d, 8) as int;
    let so = get_be32(d, 12) as int;
    let sl = get_be32(d, 16) as int;
    if d.len() < 20 {
        "table shorter than 20-byte header"@
    } else if uo != 0 && uo + ul > usize::MAX {
        "active manifest URI length overflow"@
    } else if uo != 0 && !in_bounds(d, uo, ul) {
        "active manifest URI extends past end of table"@
    } else if uo != 0 && !valid_utf8(d.subrange(uo, uo + ul)) {
        "active manifest URI is not valid UTF-8"@
    } else if so + sl > usize::MAX {
        "manifest store length overflow"@
    } else {
        "manifest store extends past end of table"@
    }
}

/// Decode UTF-8 bytes into a string (`std::str::from_utf8`, then an owned copy).
///
/// `std::str::from_utf8` succeeds exactly on valid UTF-8, and the string it
/// returns has the given bytes.
#[verifier::external_body]
fn utf8_to_string(bytes: &[u8]) -> (r: Option<String>)
    ensures
        r is Some <==> valid_utf8(bytes@),
        r matches Some(s) ==> encode_utf8(s@) == bytes@,
{
    match std::str::from_utf8(bytes) {
        Ok(s) => Some(s.to_string()),
        Err(_) => None,
    }
}

/// The `length` bytes at `offset`, or an `InvalidTable` error when they do not
/// lie inside `data`.
fn slice<'a>(data: &'a [u8], offset: usize, length: usize, overflow: &str, past_end: &str) -> (r:
    Result<&'a [u8], Error>)
    ensures
        match r {
            Ok(s) => offset + length <= data@.len() && s@ == data@.subrange(
                offset as int,
                offset + length,
            ),
            Err(e) => offset + length > data@.len() && e.kind() == ErrorKind::InvalidTable
                && e.detail() == if offset + length > usize::MAX {
                overflow@
            } else {
                past_end@
            },
        },
{
    let n = data.len();
    let end = match offset.checked_add(length) {
        Some(end) => end,
        None => {
            return Err(Error::InvalidTable(overflow.to_string()));
        },
    };
    if end > n {
        return Err(Error::InvalidTable(past_end.to_string()));
    }
    Ok(slice_subrange(data, offset, end))
}

impl C2paTable {
    /// A table of the current version carrying the given URI and store.
    pub fn new(active_manifest_uri: Option<String>, manifest_store: Option<Vec<u8>>) -> (r: Self)
        ensures
            r@ == (C2paTableModel {
                major: MAJOR_VERSION,
                minor: MINOR_VERSION,
                uri: opt_chars(active_manifest_uri),
                store: opt_bytes(manifest_store),
            }),
    {
        C2paTable {
            major_version: MAJOR_VERSION,
            minor_version: MINOR_VERSION,
            active_manifest_uri,
            manifest_store,
        }
    }

    /// Whether the record of this table fits in memory, so that it can be
    /// encoded.
    pub fn encodable(&self) -> (r: bool)
        ensures
            r == (encoded_len(self@) <= usize::MAX),
    {
        let uri_len: usize = match &self.active_manifest_uri {
            Some(s) => s.as_str().as_bytes().len(),
            None => 0,
        };
        let store_len: usize = match &self.manifest_store {
            Some(v) => v.len(),
            None => 0,
        };
        assert(uri_len == uri_bytes(self@.uri).len());
        assert(store_len == store_bytes(self@.store).len());
        uri_len <= usize::MAX - HEADER_LEN && store_len <= usize::MAX - HEADER_LEN - uri_len
    }

    /// Encode the table record (see [`encode_table`]).
    pub fn encode(&self) -> (out: Vec<u8>)
        requires
            encoded_len(self@) <= usize::MAX,
        ensures
            out@ == encode_table(self@),
    {
        let empty: Vec<u8> = Vec::new();
        let uri: &[u8] = match &self.active_manifest_uri {
            Some(s) => s.as_str().as_bytes(),
            None => empty.as_slice(),
        };
        let store: &[u8] = match &self.manifest_store {
            Some(v) => v.as_slice(),
            None => empty.as_slice(),
        };
        assert(uri@ == uri_bytes(self@.uri));
        assert(store@ == store_bytes(self@.store));
        let uri_offset: u32 = if uri.len() == 0 { 0 } else { HEADER_LEN as u32 };
        let store_offset: u32 = if store.len() == 0 { 0 } else { (HEADER_LEN + uri.len()) as u32 };
        let mut out: Vec<u8> = Vec::new();
        push_u16(&mut out, self.major_version);
        push_u16(&mut out, self.minor_version);
        push_u32(&mut out, uri_offset);
        push_u16(&mut out, uri.len() as u16);
        push_u16(&mut out, 0);
        push_u32(&mut out, store_offset);
        push_u32(&mut out, store.len() as u32);
        assert(out@ =~= table_header(self@));
        out.extend_from_slice(uri);
        out.extend_from_slice(store);
        assert(out@ =~= encode_table(self@));
        out
    }

    /// Decode a table record (see [`decode_table`]); a malformed record is an
    /// `InvalidTable` error.
    pub fn decode(data: &[u8]) -> (r: Result<Self, Error>)
        ensures
            match r {
                Ok(t) => decode_table(data@) == Some(t@),
                Err(e) => decode_table(data@) is None && e.kind() == ErrorKind::InvalidTable
                    && e.detail() == decode_detail(data@),
            },
    {
        if data.len() < HEADER_LEN {
            return Err(Error::InvalidTable("table shorter than 20-byte header".to_string()));
        }
        let major_version = read_u16(data, 0);
        let minor_version = read_u16(data, 2);
        let uri_offset = read_u32(data, 4) as usize;
        let uri_length = read_u16(data, 8) as usize;
        let store_offset = read_u32(data, 12) as usize;
        let store_length = read_u32(data, 16) as usize;

        let active_manifest_uri = if uri_offset == 0 {
            None
        } else {
            let bytes = slice(
                data,
                uri_offset,
                uri_length,
                "active manifest URI length overflow",
                "active manifest URI extends past end of table",
            )?;
            match utf8_to_string(bytes) {
                Some(s) => {
                    proof {
                        vstd::utf8::decode_utf8_encode_utf8(bytes@);
                    }
                    Some(s)
                },
                None => {
                    return Err(
                        Error::InvalidTable("active manifest URI is not valid UTF-8".to_string()),
                    );
                },
            }
        };

        let manifest_store = if store_offset == 0 {
            None
        } else {
            let bytes = slice(
                data,
                store_offset,
                store_length,
                "manifest store length overflow",
                "manifest store extends past end of table",
            )?;
            Some(slice_to_vec(bytes))
        };

        let r = C2paTable { major_version, minor_version, active_manifest_uri, manifest_store };
        assert(decode_table(data@) == Some(r@));
        Ok(r)
    }
}

/// A non-empty string has a non-empty UTF-8 encoding.
pub proof fn lemma_encode_utf8_nonempty(c: Seq<char>)
    ensures
        c.len() > 0 <==> encode_utf8(c).len() > 0,
{
    if c.len() > 0 {
        assert(encode_utf8(c) == vstd::utf8::encode_scalar(c[0] as u32) + encode_utf8(c.drop_first()));
    }
}

/// `t` with empty fields made absent, as decoding its record gives it.
pub open spec fn normalized(t: C2paTableModel) -> C2paTableModel {
    C2paTableModel {
        major: t.major,
        minor: t.minor,
        uri: if uri_bytes(t.uri).len() == 0 { None } else { t.uri },
        store: if store_bytes(t.store).len() == 0 { None } else { t.store },
    }
}

/// Whether the record of `t` can be read back: the URI's UTF-8 length fits
/// the 16-bit length field and the record fits the 32-bit offsets.
pub open spec fn fits_fields(t: C2paTableModel) -> bool {
    uri_bytes(t.uri).len() <= u16::MAX && encoded_len(t) <= u32::MAX
}

/// Whether `t` survives an encode/decode round trip unchanged: its record
/// can be read back and its URI and store are each absent or non-empty (an
/// empty field is written as absent).
pub open spec fn round_trips(t: C2paTableModel) -> bool {
    &&& fits_fields(t)
    &&& (t.uri matches Some(u) ==> u.len() > 0)
    &&& (t.store matches Some(b) ==> b.len() > 0)
}

/// Decoding an encoded table gives the table back with empty fields made
/// absent, for every table whose record fits its fields.
pub proof fn lemma_decode_encode_normalized(t: C2paTableModel)
    requires
        fits_fields(t),
    ensures
        decode_table(encode_table(t)) == Some(normalized(t)),
{
    let uri = uri_bytes(t.uri);
    let store = store_bytes(t.store);
    let e = encode_table(t);
    let uri_offset: u32 = if uri.len() == 0 { 0 } else { 20 };
    let store_offset: u32 = if store.len() == 0 { 0 } else { (20 + uri.len()) as u32 };
    lemma_be16_roundtrip(t.major);
    lemma_be16_roundtrip(t.minor);
    lemma_be32_roundtrip(uri_offset);
    lemma_be16_roundtrip(uri.len() as u16);
    lemma_be32_roundtrip(store_offset);
    lemma_be32_roundtrip(store.len() as u32);
    assert(e.subrange(0, 2) =~= be16_bytes(t.major));
    assert(e.subrange(2, 4) =~= be16_bytes(t.minor));
    assert(e.subrange(4, 8) =~= be32_bytes(uri_offset));
    assert(e.subrange(8, 10) =~= be16_bytes(uri.len() as u16));
    assert(e.subrange(12, 16) =~= be32_bytes(store_offset));
    assert(e.subrange(16, 20) =~= be32_bytes(store.len() as u32));
    assert(get_be16(e, 0) == get_be16(e.subrange(0, 2), 0));
    assert(get_be16(e, 2) == get_be16(e.subrange(2, 4), 0));
    assert(get_be32(e, 4) == get_be32(e.subrange(4, 8), 0));
    assert(get_be16(e, 8) == get_be16(e.subrange(8, 10), 0));
    assert(get_be32(e, 12) == get_be32(e.subrange(12, 16), 0));
    assert(get_be32(e, 16) == get_be32(e.subrange(16, 20), 0));
    let ul = uri.len() as int;
    let sl = store.len() as int;
    assert(e.subrange(20, 20 + ul) =~= uri);
    assert(e.subrange(20 + ul, 20 + ul + sl) =~= store);
    if let Some(u) = t.uri {
        if uri.len() > 0 {
            assert(decode_utf8(e.subrange(20, 20 + ul)) == u);
        }
    }
}

/// The layout of an encoded record: its length, the store offset and length
/// in its header, and the header and URI before the store.
pub proof fn lemma_encode_fields(t: C2paTableModel)
    requires
        fits_fields(t),
    ensures
        encode_table(t).len() == encoded_len(t),
        get_be32(encode_table(t), 12) == if store_bytes(t.store).len() == 0 {
            0
        } else {
            20 + uri_bytes(t.uri).len()
        },
        get_be32(encode_table(t), 16) == store_bytes(t.store).len(),
        forall|j: int|
            20 + uri_bytes(t.uri).len() <= j < encoded_len(t) ==> #[trigger] encode_table(t)[j]
                == store_bytes(t.store)[j - 20 - uri_bytes(t.uri).len()],
{
    let uri = uri_bytes(t.uri);
    let store = store_bytes(t.store);
    let e = encode_table(t);
    let store_offset: u32 = if store.len() == 0 { 0 } else { (20 + uri.len()) as u32 };
    lemma_be32_roundtrip(store_offset);
    lemma_be32_roundtrip(store.len() as u32);
    assert(table_header(t).len() == 20);
    assert(e.subrange(12, 16) =~= be32_bytes(store_offset));
    assert(e.subrange(16, 20) =~= be32_bytes(store.len() as u32));
    assert(get_be32(e, 12) == get_be32(e.subrange(12, 16), 0));
    assert(get_be32(e, 16) == get_be32(e.subrange(16, 20), 0));
}

/// Two tables with the same versions, the same URI bytes and stores of the
/// same length encode to records of the same length that agree before the
/// store.
pub proof fn lemma_encode_same_header(a: C2paTableModel, b: C2paTableModel)
    requires
        a.major == b.major,
        a.minor == b.minor,
        uri_bytes(a.uri) == uri_bytes(b.uri),
        store_bytes(a.store).len() == store_bytes(b.store).len(),
    ensures
        encode_table(a).len() == encode_table(b).len(),
        forall|j: int|
            0 <= j < 20 + uri_bytes(a.uri).len() ==> #[trigger] encode_table(a)[j] == encode_table(b)[j],
{
    assert(table_header(a) == table_header(b));
    assert(table_header(a).len() == 20);
}

/// Decoding an encoded table gives the table back, for every table that
/// [`round_trips`].
pub proof fn lemma_decode_encode(t: C2paTableModel)
    requires
        round_trips(t),
    ensures
        decode_table(encode_table(t)) == Some(t),
{
    lemma_decode_encode_normalized(t);
    if let Some(u) = t.uri {
        lemma_encode_utf8_nonempty(u);
    }
    assert(normalized(t) == t);
}

} // verus!
