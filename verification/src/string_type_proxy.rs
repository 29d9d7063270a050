//! Keys as callers hand them in: text, or bytes that have yet to be shown
//! to be text.

use vstd::prelude::*;
use vstd::std_specs::convert::FromSpecImpl;
use vstd::string::StringSliceAdditionalSpecFns;
use vstd::utf8::valid_utf8;

verus! {

/// The bytes of a key are not UTF-8 text.
#[derive(Debug, Clone, Copy, PartialEq, Eq, Structural)]
pub struct KeyDecodeError {}

/// Where the bytes of a key come from.
pub enum KeySource<'a> {
    /// A string slice, which is text already.
    Text(&'a str),
    /// A byte sequence that the caller keeps alive during the call.
    Bytes(&'a [u8]),
}

/// A key on its way to the table. It borrows from its source and is gone
/// when the call is over.
pub struct StringType<'a> {
    pub source: KeySource<'a>,
}

/// `core::str::from_utf8` on a byte slice. It answers with the same bytes
/// seen as a string slice when they are well-formed UTF-8, and with an
/// error, here `None`, when they are not.
#[verifier::external_body]
fn text_of(bytes: &[u8]) -> (text: Option<&str>)
    ensures
        text is Some <==> valid_utf8(bytes@),
        text matches Some(s) ==> s.spec_bytes() == bytes@,
{
    match core::str::from_utf8(bytes) {
        Ok(s) => Some(s),
        Err(_) => None,
    }
}

impl<'a> StringType<'a> {
    /// The bytes of the key as the source holds them.
    pub open spec fn spec_bytes(&self) -> Seq<u8> {
        match self.source {
            KeySource::Text(s) => s.spec_bytes(),
            KeySource::Bytes(b) => b@,
        }
    }

    /// Whether the key is text: a string slice is, and bytes are when they
    /// are well-formed UTF-8.
    pub open spec fn decodes(&self) -> bool {
        match self.source {
            KeySource::Text(_) => true,
            KeySource::Bytes(b) => valid_utf8(b@),
        }
    }

    /// The key as a string slice. Bytes are decoded first; they fail with
    /// [`KeyDecodeError`] exactly when they are not UTF-8 text, and are
    /// never cut short.
    pub fn as_str_ref(&self) -> (r: Result<&'a str, KeyDecodeError>)
        ensures
            r is Ok <==> self.decodes(),
            r matches Ok(s) ==> s.spec_bytes() == self.spec_bytes(),
    {
        match self.source {
            KeySource::Text(s) => Ok(s),
            KeySource::Bytes(b) => match text_of(b) {
                Some(s) => Ok(s),
                None => Err(KeyDecodeError {}),
            },
        }
    }
}

impl<'a> From<&'a str> for StringType<'a> {
    fn from(string: &'a str) -> (key: Self) {
        StringType { source: KeySource::Text(string) }
    }
}

impl<'a> FromSpecImpl<&'a str> for StringType<'a> {
    open spec fn obeys_from_spec() -> bool {
        true
    }

    open spec fn from_spec(string: &'a str) -> Self {
        StringType { source: KeySource::Text(string) }
    }
}

impl<'a> From<&'a [u8]> for StringType<'a> {
    fn from(string: &'a [u8]) -> (key: Self) {
        StringType { source: KeySource::Bytes(string) }
    }
}

impl<'a> FromSpecImpl<&'a [u8]> for StringType<'a> {
    open spec fn obeys_from_spec() -> bool {
        true
    }

    open spec fn from_spec(string: &'a [u8]) -> Self {
        StringType { source: KeySource::Bytes(string) }
    }
}

impl<'a> From<&'a mut [u8]> for StringType<'a> {
    fn from(string: &'a mut [u8]) -> (key: Self) {
        let shared: &'a [u8] = string;
        StringType { source: KeySource::Bytes(shared) }
    }
}

impl<'a> FromSpecImpl<&'a mut [u8]> for StringType<'a> {
    open spec fn obeys_from_spec() -> bool {
        true
    }

    open spec fn from_spec(string: &'a mut [u8]) -> Self {
        StringType { source: KeySource::Bytes(&*string) }
    }
}

} // verus!
