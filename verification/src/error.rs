//! Errors from reading, writing or validating a font's `C2PA` table.
use vstd::prelude::*;
use vstd::string::StringExecFns;

verus! {

/// The standard library's I/O error, carried by [`Error::Io`].
#[verifier::external_type_specification]
#[verifier::external_body]
pub struct ExIoError(std::io::Error);

/// Errors from reading, writing, or validating a font's `C2PA` table.
#[derive(Debug)]
pub enum Error {
    /// No `C2PA` table is present in the font.
    NotFound,
    /// The font is not a supported SFNT (TrueType/OpenType) file.
    NotSfnt,
    /// Font collections (`ttcf`) are not supported.
    Collection,
    /// WOFF/WOFF2 wrapped fonts are not supported; decompress to SFNT first.
    Woff,
    /// The SFNT structure could not be parsed.
    InvalidFont(String),
    /// The `C2PA` table could not be parsed or violates the format.
    InvalidTable(String),
    /// Hard-binding or delegated validation failed.
    Validation(String),
    /// An underlying I/O failure.
    Io(std::io::Error),
}

/// The variant of an [`Error`], without its message.
#[derive(Debug, Clone, Copy, PartialEq, Eq, Structural)]
pub enum ErrorKind {
    NotFound,
    NotSfnt,
    Collection,
    Woff,
    InvalidFont,
    InvalidTable,
    Validation,
    Io,
}

impl Error {
    /// The text an error carries: that of `InvalidFont`, `InvalidTable` and
    /// `Validation`, and empty for the other variants.
    pub open spec fn detail(&self) -> Seq<char> {
        match self {
            Error::InvalidFont(s) => s@,
            Error::InvalidTable(s) => s@,
            Error::Validation(s) => s@,
            _ => Seq::empty(),
        }
    }

    /// The variant of this error.
    pub open spec fn kind(&self) -> ErrorKind {
        match self {
            Error::NotFound => ErrorKind::NotFound,
            Error::NotSfnt => ErrorKind::NotSfnt,
            Error::Collection => ErrorKind::Collection,
            Error::Woff => ErrorKind::Woff,
            Error::InvalidFont(_) => ErrorKind::InvalidFont,
            Error::InvalidTable(_) => ErrorKind::InvalidTable,
            Error::Validation(_) => ErrorKind::Validation,
            Error::Io(_) => ErrorKind::Io,
        }
    }

    /// The registered C2PA validation status code for this error, or `None`
    /// when the condition carries no status code.
    ///
    /// The C2PA standard defines no font-specific codes: a missing table means
    /// the font carries no provenance, which is not a failure, and the parsing
    /// variants occur before any manifest is located. A delegated validation
    /// failure carries its own status codes in the validation report.
    pub fn code(&self) -> (r: Option<&'static str>)
        ensures
            r is None,
    {
        None
    }

    /// Whether this error means the font carries no provenance at all, as
    /// opposed to provenance that was found and rejected.
    pub fn is_no_manifest_located(&self) -> (r: bool)
        ensures
            r == (self.kind() == ErrorKind::NotFound),
    {
        match self {
            Error::NotFound => true,
            _ => false,
        }
    }
}

impl Error {
    /// The human-readable description of this error.
    pub fn message(&self) -> (r: String)
        ensures
            match self {
                Error::NotFound => r@ == "no C2PA table found in font"@,
                Error::NotSfnt => r@ == "not a supported SFNT (TrueType/OpenType) font"@,
                Error::Collection => r@ == "font collections (ttcf) are not supported"@,
                Error::Woff => r@ == "WOFF/WOFF2 fonts are not supported; decompress to SFNT first"@,
                Error::InvalidFont(s) => r@ == "invalid font: "@ + s@,
                Error::InvalidTable(s) => r@ == "invalid C2PA table: "@ + s@,
                Error::Validation(s) => r@ == "validation failed: "@ + s@,
                Error::Io(_) => exists|t: Seq<char>| r@ == "I/O error: "@ + t,
            },
    {
        match self {
            Error::NotFound => String::from_str("no C2PA table found in font"),
            Error::NotSfnt => String::from_str("not a supported SFNT (TrueType/OpenType) font"),
            Error::Collection => String::from_str("font collections (ttcf) are not supported"),
            Error::Woff => String::from_str(
                "WOFF/WOFF2 fonts are not supported; decompress to SFNT first",
            ),
            Error::InvalidFont(s) => {
                let mut r = String::from_str("invalid font: ");
                r.append(s.as_str());
                r
            },
            Error::InvalidTable(s) => {
                let mut r = String::from_str("invalid C2PA table: ");
                r.append(s.as_str());
                r
            },
            Error::Validation(s) => {
                let mut r = String::from_str("validation failed: ");
                r.append(s.as_str());
                r
            },
            Error::Io(e) => {
                let mut r = String::from_str("I/O error: ");
                let detail = e.to_string();
                r.append(detail.as_str());
                assert(r@ == "I/O error: "@ + detail@);
                r
            },
        }
    }
}

impl From<std::io::Error> for Error {
    fn from(e: std::io::Error) -> (r: Self) {
        Error::Io(e)
    }
}

impl vstd::std_specs::convert::FromSpecImpl<std::io::Error> for Error {
    open spec fn obeys_from_spec() -> bool {
        true
    }

    open spec fn from_spec(e: std::io::Error) -> Self {
        Error::Io(e)
    }
}

/// The decimal digit `d` (for `d` below ten) as a character.
pub open spec fn digit_char(d: nat) -> char {
    seq!['0', '1', '2', '3', '4', '5', '6', '7', '8', '9'][d as int]
}

/// The decimal form of `n`, most significant digit first, with no leading
/// zeros: how an unsigned integer is displayed.
pub open spec fn decimal(n: nat) -> Seq<char>
    decreases n,
{
    if n < 10 {
        seq![digit_char(n)]
    } else {
        decimal(n / 10).push(digit_char(n % 10))
    }
}

/// The decimal digit `d` as a one-character string.
fn digit_str(d: usize) -> (r: &'static str)
    requires
        d < 10,
    ensures
        r@ == seq![digit_char(d as nat)],
{
    match d {
        0 => {
            proof { reveal_strlit("0"); }
            "0"
        },
        1 => {
            proof { reveal_strlit("1"); }
            "1"
        },
        2 => {
            proof { reveal_strlit("2"); }
            "2"
        },
        3 => {
            proof { reveal_strlit("3"); }
            "3"
        },
        4 => {
            proof { reveal_strlit("4"); }
            "4"
        },
        5 => {
            proof { reveal_strlit("5"); }
            "5"
        },
        6 => {
            proof { reveal_strlit("6"); }
            "6"
        },
        7 => {
            proof { reveal_strlit("7"); }
            "7"
        },
        8 => {
            proof { reveal_strlit("8"); }
            "8"
        },
        _ => {
            proof { reveal_strlit("9"); }
            "9"
        },
    }
}

/// The decimal form of `n`, as a `usize` is displayed.
pub(crate) fn decimal_string(n: usize) -> (r: String)
    ensures
        r@ == decimal(n as nat),
    decreases n,
{
    if n < 10 {
        String::from_str(digit_str(n))
    } else {
        let mut r = decimal_string(n / 10);
        let last = digit_str(n % 10);
        r.append(last);
        assert(decimal(n as nat) =~= decimal((n / 10) as nat) + seq![digit_char((n % 10) as nat)]);
        r
    }
}

} // verus!
