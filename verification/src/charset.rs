//! Character encodings, by the labels of the WHATWG Encoding standard.

use vstd::prelude::*;

verus! {

/// Whether `label` names an encoding.
pub uninterp spec fn known_label(label: Seq<char>) -> bool;

/// The text that `bytes` hold in the encoding that `label` names, if they
/// are valid in it.
pub uninterp spec fn decoded(label: Seq<char>, bytes: Seq<u8>) -> Option<Seq<char>>;

/// `encoding::label::encoding_from_whatwg_label`: tells whether the registry
/// of encodings has one for `label`. The answer depends on the label alone.
#[verifier::external_body]
fn label_is_known(label: &str) -> (r: bool)
    ensures
        r == known_label(label@),
{
    encoding::label::encoding_from_whatwg_label(label).is_some()
}

/// `encoding::types::Encoding::decode` with `DecoderTrap::Strict`, on the
/// encoding that `encoding_from_whatwg_label` gives for `label`: the text
/// that `bytes` hold, or nothing where a byte sequence is invalid. The
/// outcome depends on the label and the bytes alone.
#[verifier::external_body]
fn decode_strict(label: &str, bytes: &[u8]) -> (r: Option<String>)
    ensures
        match r {
            Some(text) => decoded(label@, bytes@) == Some(text@),
            None => decoded(label@, bytes@) is None,
        },
{
    match encoding::label::encoding_from_whatwg_label(label) {
        Some(codec) => codec.decode(bytes, encoding::types::DecoderTrap::Strict).ok(),
        None => None,
    }
}

/// A character encoding.
pub struct Charset {
    label: String,
}

impl View for Charset {
    type V = Seq<char>;

    /// The label that names the encoding.
    closed spec fn view(&self) -> Seq<char> {
        self.label@
    }
}

impl Charset {
    /// UTF-8, the encoding of a catalog that declares none.
    pub fn utf8() -> (r: Charset)
        ensures
            r@ == "utf-8"@,
    {
        Charset { label: "utf-8".to_owned() }
    }

    /// The encoding that `label` names, if it names one.
    pub fn for_label(label: &str) -> (r: Option<Charset>)
        ensures
            match r {
                Some(charset) => known_label(label@) && charset@ == label@,
                None => !known_label(label@),
            },
    {
        if label_is_known(label) {
            Some(Charset { label: label.to_owned() })
        } else {
            None
        }
    }

    /// The label that names the encoding.
    pub fn label(&self) -> (r: &str)
        ensures
            r@ == self@,
    {
        self.label.as_str()
    }

    /// Decodes `bytes`, which must be valid in this encoding.
    pub fn decode(&self, bytes: &[u8]) -> (r: Option<String>)
        ensures
            match r {
                Some(text) => decoded(self@, bytes@) == Some(text@),
                None => decoded(self@, bytes@) is None,
            },
    {
        decode_strict(self.label.as_str(), bytes)
    }
}

} // verus!
