//! Encoding a value in a format given at run time.
use crate::compact::ser::{canonic, encodable};
use crate::human::ser::{human, views};
use crate::utf8::string_from_utf8;
use crate::value::Value;
use vstd::prelude::*;
use vstd::utf8::{encode_utf8, valid_utf8};

verus! {

/// Why an encoding failed, in words.
#[derive(Debug, PartialEq, Eq, Clone)]
pub struct EncodeError {
    pub msg: String,
}

/// Describes how values are to be encoded.
#[derive(Debug, PartialEq, Eq, Clone, Copy, Structural)]
pub enum Format {
    /// The canonic encoding.
    Canonic,
    /// The human-readable encoding, with the given number of spaces for each level of
    /// indentation; 0 for one line.
    HumanReadable(usize),
}

/// The encoding of a value in the given format, where `texts` holds the decimal texts of
/// the value's finite floats.
pub open spec fn encoding(t: crate::value::Tree, f: Format, texts: Seq<Seq<u8>>) -> Seq<u8> {
    match f {
        Format::Canonic => canonic(t),
        Format::HumanReadable(indent) => human(t, indent as nat, Seq::empty(), texts, 0),
    }
}

/// Whether a value can be encoded in the given format with the given table of float texts:
/// in the canonic encoding, if no collection in it is too long; in the human-readable one,
/// if the table has one text for each of its finite floats, each a decimal float literal.
pub open spec fn can_encode(t: crate::value::Tree, f: Format, texts: Seq<Seq<u8>>) -> bool {
    match f {
        Format::Canonic => encodable(t),
        Format::HumanReadable(_) => crate::human::ser::texts_accepted(t, texts),
    }
}

/// A structure that serializes values in a format given at run time.
pub struct VVSerializer {
    out: Vec<u8>,
    format: Format,
}

impl View for VVSerializer {
    type V = Seq<u8>;

    closed spec fn view(&self) -> Seq<u8> {
        self.out@
    }
}

impl VVSerializer {
    /// The format that the serializer writes.
    pub closed spec fn format(&self) -> Format {
        self.format
    }

    /// A serializer that has written nothing yet.
    pub fn new(format: Format) -> (s: Self)
        ensures
            s@ == Seq::<u8>::empty(),
            s.format() == format,
    {
        VVSerializer { out: Vec::new(), format }
    }

    /// What has been written.
    pub fn into_vec(self) -> (out: Vec<u8>)
        ensures
            out@ == self@,
    {
        self.out
    }

    /// Writes a value in the serializer's format. `float_texts` holds the decimal texts of
    /// the value's finite floats; the canonic encoding has no use for it. Where the value
    /// cannot be encoded, what was written before stays, and no more is said of what is
    /// written.
    pub fn serialize_value(&mut self, value: &Value, float_texts: &[Vec<u8>]) -> (r: Result<
        (),
        EncodeError,
    >)
        requires
            value.wf(),
        ensures
            final(self).format() == old(self).format(),
            r.is_ok() == can_encode(value@, old(self).format(), views(float_texts@)),
            r.is_ok() ==> final(self)@ == old(self)@ + encoding(
                value@,
                old(self).format(),
                views(float_texts@),
            ),
    {
        match self.format {
            Format::Canonic => {
                match crate::compact::ser::push_value(&mut self.out, value) {
                    Ok(()) => Ok(()),
                    Err(_) => Err(
                        EncodeError {
                            msg: "collection length cannot exceed 2^63 - 1".to_owned(),
                        },
                    ),
                }
            },
            Format::HumanReadable(indent) => {
                let needed = crate::human::ser::finite_floats(value);
                if needed.len() != float_texts.len() || !crate::human::ser::all_float_literals(
                    float_texts,
                ) {
                    return Err(
                        EncodeError {
                            msg: "one decimal float literal is needed for each finite float".to_owned(),
                        },
                    );
                }
                let prefix: Vec<u8> = Vec::new();
                assert(prefix@ =~= Seq::<u8>::empty());
                let _end = crate::human::ser::push_human(
                    &mut self.out,
                    value,
                    indent,
                    prefix.as_slice(),
                    float_texts,
                    0,
                );
                Ok(())
            },
        }
    }
}

/// The encoding of a value in the given format (see [`VVSerializer::serialize_value`]).
pub fn to_vec(value: &Value, f: Format, float_texts: &[Vec<u8>]) -> (r: Result<
    Vec<u8>,
    EncodeError,
>)
    requires
        value.wf(),
    ensures
        r.is_ok() == can_encode(value@, f, views(float_texts@)),
        r.is_ok() ==> r.unwrap()@ == encoding(value@, f, views(float_texts@)),
{
    let mut serializer = VVSerializer::new(f);
    match serializer.serialize_value(value, float_texts) {
        Ok(()) => {
            let out = serializer.into_vec();
            assert(out@ =~= encoding(value@, f, views(float_texts@)));
            Ok(out)
        },
        Err(e) => Err(e),
    }
}

/// The human-readable encoding of a value as a string. Float texts that make the encoding
/// something else than UTF-8 are refused.
pub fn to_string(value: &Value, indentation: usize, float_texts: &[Vec<u8>]) -> (r: Result<
    String,
    EncodeError,
>)
    requires
        value.wf(),
    ensures
        ({
            let f = Format::HumanReadable(indentation);
            let text = encoding(value@, f, views(float_texts@));
            &&& r.is_ok() == (can_encode(value@, f, views(float_texts@)) && valid_utf8(text))
            &&& r.is_ok() ==> encode_utf8(r.unwrap()@) == text
        }),
{
    match to_vec(value, Format::HumanReadable(indentation), float_texts) {
        Err(e) => Err(e),
        Ok(bytes) => match string_from_utf8(bytes) {
            Some(s) => Ok(s),
            None => Err(EncodeError { msg: "the float texts are not UTF-8".to_owned() }),
        },
    }
}

} // verus!
