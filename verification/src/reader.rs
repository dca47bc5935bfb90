//! Reading the `C2PA` table of a font.
use vstd::prelude::*;
use crate::error::{Error, ErrorKind};
use crate::sfnt::{find_index, lemma_first_from, parse_detail, parse_font, SfntFont};
use crate::table::{
    c2pa_tag, decode_detail, decode_table, lemma_c2pa_tag, C2paTable, C2paTableModel, C2PA_TAG,
};

verus! {

/// The decoded `C2PA` table of the font in `d` (its first table with that
/// tag), or the kind of error reading it gives: the font's parse error,
/// `NotFound` without such a table, `InvalidTable` for a malformed record.
pub open spec fn c2pa_table_of(d: Seq<u8>) -> Result<C2paTableModel, ErrorKind> {
    match parse_font(d) {
        Err(k) => Err(k),
        Ok(f) => {
            let i = find_index(f.tables, c2pa_tag());
            if i >= f.tables.len() {
                Err(ErrorKind::NotFound)
            } else {
                match decode_table(f.tables[i].data) {
                    Some(t) => Ok(t),
                    None => Err(ErrorKind::InvalidTable),
                }
            }
        },
    }
}

/// The message of the error reading the `C2PA` table of `d` gives: the
/// font's, none for a missing table, or the record's.
pub open spec fn c2pa_detail(d: Seq<u8>) -> Seq<char> {
    match parse_font(d) {
        Err(_) => parse_detail(d),
        Ok(f) => {
            let i = find_index(f.tables, c2pa_tag());
            if i >= f.tables.len() {
                Seq::empty()
            } else {
                decode_detail(f.tables[i].data)
            }
        },
    }
}

/// The embedded Manifest Store of the font in `d`; a table carrying only a
/// URI is `InvalidTable`.
pub open spec fn manifest_of(d: Seq<u8>) -> Result<Seq<u8>, ErrorKind> {
    match c2pa_table_of(d) {
        Err(k) => Err(k),
        Ok(t) => match t.store {
            Some(s) => Ok(s),
            None => Err(ErrorKind::InvalidTable),
        },
    }
}

/// The message of the error reading the Manifest Store of `d` gives.
pub open spec fn manifest_detail(d: Seq<u8>) -> Seq<char> {
    if c2pa_table_of(d) is Ok {
        "C2PA table has no embedded manifest store"@
    } else {
        c2pa_detail(d)
    }
}

/// The active manifest URI of the font in `d`, if its table carries one.
pub open spec fn manifest_uri_of(d: Seq<u8>) -> Result<Option<Seq<char>>, ErrorKind> {
    match c2pa_table_of(d) {
        Err(k) => Err(k),
        Ok(t) => Ok(t.uri),
    }
}

/// Read and decode the `C2PA` table from a font (see [`c2pa_table_of`]).
pub fn read_c2pa_table(font: &[u8]) -> (r: Result<C2paTable, Error>)
    ensures
        match (r, c2pa_table_of(font@)) {
            (Ok(t), Ok(m)) => t@ == m,
            (Err(e), Err(k)) => e.kind() == k && e.detail() == c2pa_detail(font@),
            _ => false,
        },
{
    let parsed = SfntFont::parse(font)?;
    proof {
        lemma_c2pa_tag();
        lemma_first_from(parsed@.tables, c2pa_tag(), 0);
    }
    let table = match parsed.table(&C2PA_TAG) {
        Some(t) => t,
        None => {
            return Err(Error::NotFound);
        },
    };
    C2paTable::decode(table.data.as_slice())
}

/// Read the embedded C2PA Manifest Store from a font (see [`manifest_of`]):
/// `NotFound` if the font has no `C2PA` table, `InvalidTable` if the table
/// carries only a remote URI.
pub fn read_manifest(font: &[u8]) -> (r: Result<Vec<u8>, Error>)
    ensures
        match (r, manifest_of(font@)) {
            (Ok(v), Ok(s)) => v@ == s,
            (Err(e), Err(k)) => e.kind() == k && e.detail() == manifest_detail(font@),
            _ => false,
        },
{
    let table = read_c2pa_table(font)?;
    match table.manifest_store {
        Some(store) => Ok(store),
        None => Err(Error::InvalidTable("C2PA table has no embedded manifest store".to_string())),
    }
}

/// Read the active manifest URI from a font's `C2PA` table, if present (see
/// [`manifest_uri_of`]).
pub fn read_manifest_uri(font: &[u8]) -> (r: Result<Option<String>, Error>)
    ensures
        match (r, manifest_uri_of(font@)) {
            (Ok(u), Ok(m)) => crate::table::opt_chars(u) == m,
            (Err(e), Err(k)) => e.kind() == k && e.detail() == c2pa_detail(font@),
            _ => false,
        },
{
    let table = read_c2pa_table(font)?;
    Ok(table.active_manifest_uri)
}

} // verus!
