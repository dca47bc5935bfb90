//! C2PA manifest embedding, hard binding and verification for OpenType/TrueType
//! (SFNT) fonts.
//!
//! A C2PA Manifest Store and/or a remote manifest URI is stored in a `C2PA`
//! SFNT table. Embedding re-serializes the font so the table directory,
//! offsets and checksums (including `head.checkSumAdjustment`) stay valid,
//! and the `c2pa.hash.data` hard binding excludes exactly the bytes that
//! filling a reserved manifest changes.
//!
//! Every operation states its result over a model of the bytes: `sfnt`
//! models fonts and their serialization, `table` the `C2PA` record, and
//! `binding` the exclusion geometry. `laws` proves what the operations
//! promise together: a serialized font reads back, its checksum holds,
//! embedded manifests read back, embedding keeps the other tables, and
//! filling a reserved font changes no byte outside its exclusions. `layout`,
//! `sorting` and `refill` hold the lemmas those proofs use. Signature, trust
//! and data-hash computation are delegated to the `c2pa` SDK (`validate`).
pub mod binding;
pub mod bytes;
pub mod error;
pub mod layout;
pub mod laws;
pub mod reader;
pub mod refill;
pub mod sfnt;
pub mod sorting;
pub mod table;
pub mod validate;
pub mod verify;
pub mod writer;

pub use binding::{data_hash_exclusions, Exclusion};
pub use error::{Error, ErrorKind};
pub use reader::{read_c2pa_table, read_manifest, read_manifest_uri};
pub use sfnt::{checksum_adjustment_valid, locate_tables, SfntFont, Table, TableLoc};
pub use table::{C2paTable, C2PA_TAG, MAJOR_VERSION, MINOR_VERSION};
pub use validate::{
    compute_data_hash, data_hash_ranges, validate, validation_of, verify_data_hash, Validation,
};
pub use verify::{verify, Compliance};
pub use writer::{
    embed_manifest, fill_manifest, remove_manifest, reserve_manifest, ManifestSource, ReservedFont,
};
