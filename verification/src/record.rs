//! One record of a constant pool: its model, its layout in bytes, and how it
//! is read, renamed and written.

use crate::cursor::{ByteReader, ByteWriter};
use crate::endian::{lemma_u16_be_inverse, lemma_u16_be_round_trip, u16_from_be, u16_to_be};
use crate::error::FormatError;
use crate::pattern::{renamed_text, RenamePattern, MAX_TEXT_LEN};
use crate::tag::{fixed_length, length_for, PayloadLength, TAG_UTF8};
use crate::text::{decode_lossy, decoded};
use vstd::prelude::*;
use vstd::slice::slice_to_vec;

verus! {

/// A record as a value: a text, or a tag with the bytes that follow it.
pub enum Record {
    /// A text record; `text` is what follows the length field.
    Utf8 { text: Seq<u8> },
    /// A record of any other tag.
    Fixed { tag: u8, payload: Seq<u8> },
}

impl Record {
    /// A record that can stand in a constant pool: a text fits the 16-bit
    /// length field, and any other payload has the size that its tag asks for.
    pub open spec fn wf(self) -> bool {
        match self {
            Record::Utf8 { text } => text.len() <= MAX_TEXT_LEN,
            Record::Fixed { tag, payload } => tag != TAG_UTF8 && payload.len() == fixed_length(
                tag,
            ),
        }
    }

    /// The bytes of the record in a class file.
    pub open spec fn to_bytes(self) -> Seq<u8> {
        match self {
            Record::Utf8 { text } => seq![TAG_UTF8] + u16_to_be(text.len() as u16) + text,
            Record::Fixed { tag, payload } => seq![tag] + payload,
        }
    }

    /// The record after the rename. A text is decoded, has every match of
    /// `from` replaced by `to`, and is encoded again; it fails where the new
    /// text no longer fits. Any other record is kept.
    pub open spec fn renamed(self, from: Seq<char>, to: Seq<char>) -> Result<Record, FormatError> {
        match self {
            Record::Utf8 { text } => match renamed_text(decoded(text), from, to) {
                Ok(bytes) => Ok(Record::Utf8 { text: bytes }),
                Err(e) => Err(e),
            },
            Record::Fixed { tag, payload } => Ok(self),
        }
    }
}

/// The record at the front of `s` and what follows it, or `Truncated` where
/// `s` ends before the record does.
pub open spec fn parse_record(s: Seq<u8>) -> Result<(Record, Seq<u8>), FormatError> {
    if s.len() < 1 {
        Err(FormatError::Truncated)
    } else if s[0] == TAG_UTF8 {
        if s.len() < 3 {
            Err(FormatError::Truncated)
        } else {
            let n = u16_from_be(s[1], s[2]) as int;
            if s.len() < 3 + n {
                Err(FormatError::Truncated)
            } else {
                Ok((Record::Utf8 { text: s.subrange(3, 3 + n) }, s.skip(3 + n)))
            }
        }
    } else {
        let n = fixed_length(s[0]) as int;
        if s.len() < 1 + n {
            Err(FormatError::Truncated)
        } else {
            Ok((Record::Fixed { tag: s[0], payload: s.subrange(1, 1 + n) }, s.skip(1 + n)))
        }
    }
}

/// A record that was parsed is well formed, and its bytes followed by the
/// rest are the input again.
pub proof fn lemma_parse_then_bytes(s: Seq<u8>)
    requires
        parse_record(s) is Ok,
    ensures
        parse_record(s)->Ok_0.0.wf(),
        parse_record(s)->Ok_0.0.to_bytes() + parse_record(s)->Ok_0.1 == s,
{
    let (rec, rest) = parse_record(s)->Ok_0;
    if s[0] == TAG_UTF8 {
        let n = u16_from_be(s[1], s[2]);
        lemma_u16_be_round_trip(s[1], s[2]);
        assert(u16_to_be(n) =~= seq![s[1], s[2]]);
        assert(rec.to_bytes() + rest =~= s);
    } else {
        assert(rec.to_bytes() + rest =~= s);
    }
}

/// The bytes of a well-formed record, followed by anything, parse to that
/// record and leave what followed.
pub proof fn lemma_bytes_then_parse(rec: Record, rest: Seq<u8>)
    requires
        rec.wf(),
    ensures
        parse_record(rec.to_bytes() + rest) == Ok::<(Record, Seq<u8>), FormatError>((rec, rest)),
{
    let s = rec.to_bytes() + rest;
    match rec {
        Record::Utf8 { text } => {
            let n = text.len() as u16;
            lemma_u16_be_inverse(n);
            assert(s[0] == TAG_UTF8);
            assert(s[1] == u16_to_be(n)[0]);
            assert(s[2] == u16_to_be(n)[1]);
            assert(s.subrange(3, 3 + n) =~= text);
            assert(s.skip(3 + n) =~= rest);
        },
        Record::Fixed { tag, payload } => {
            assert(s[0] == tag);
            assert(s.subrange(1, 1 + payload.len() as int) =~= payload);
            assert(s.skip(1 + payload.len() as int) =~= rest);
        },
    }
}

/// One record of a constant pool.
#[derive(Clone, Debug, PartialEq, Eq)]
pub enum ConstantPoolRecord {
    /// A text record; `text` is what follows the length field.
    Utf8 { text: Vec<u8> },
    /// A record of any other tag, with the bytes that follow the tag.
    Fixed { tag: u8, payload: Vec<u8> },
}

impl View for ConstantPoolRecord {
    type V = Record;

    open spec fn view(&self) -> Record {
        match self {
            ConstantPoolRecord::Utf8 { text } => Record::Utf8 { text: text@ },
            ConstantPoolRecord::Fixed { tag, payload } => Record::Fixed {
                tag: *tag,
                payload: payload@,
            },
        }
    }
}

impl ConstantPoolRecord {
    /// Whether the record can be written: see [`Record::wf`].
    pub fn is_well_formed(&self) -> (ok: bool)
        ensures
            ok == self@.wf(),
    {
        match self {
            ConstantPoolRecord::Utf8 { text } => text.len() <= MAX_TEXT_LEN,
            ConstantPoolRecord::Fixed { tag, payload } => match length_for(*tag) {
                PayloadLength::Variable => false,
                PayloadLength::Fixed(n) => payload.len() == n,
            },
        }
    }

    /// Reads the record at the reader's position. On success the reader
    /// stands behind the record.
    pub fn read<'a>(reader: &mut ByteReader<'a>) -> (r: Result<Self, FormatError>)
        ensures
            final(reader).buffer() == old(reader).buffer(),
            match r {
                Ok(rec) => {
                    &&& parse_record(old(reader).remaining()) == Ok::<
                        (Record, Seq<u8>),
                        FormatError,
                    >((rec@, final(reader).remaining()))
                    &&& rec@.wf()
                    &&& final(reader).position() == old(reader).position()
                        + rec@.to_bytes().len()
                },
                Err(e) => parse_record(old(reader).remaining()) == Err::<
                    (Record, Seq<u8>),
                    FormatError,
                >(e),
            },
    {
        let ghost s = reader.remaining();
        let tag = match reader.read_u8() {
            Ok(tag) => tag,
            Err(e) => {
                return Err(e);
            },
        };
        match length_for(tag) {
            PayloadLength::Variable => {
                let length = match reader.read_u16() {
                    Ok(length) => length,
                    Err(e) => {
                        return Err(e);
                    },
                };
                let text = match reader.read_exact(length as usize) {
                    Ok(text) => text,
                    Err(e) => {
                        return Err(e);
                    },
                };
                let rec = ConstantPoolRecord::Utf8 { text: slice_to_vec(text) };
                proof {
                    assert(s.skip(1)[0] == s[1]);
                    assert(s.skip(1)[1] == s[2]);
                    assert(text@ =~= s.subrange(3, 3 + length));
                    assert(reader.remaining() =~= s.skip(3 + length));
                    lemma_parse_then_bytes(s);
                }
                Ok(rec)
            },
            PayloadLength::Fixed(n) => {
                let payload = match reader.read_exact(n) {
                    Ok(payload) => payload,
                    Err(e) => {
                        return Err(e);
                    },
                };
                let rec = ConstantPoolRecord::Fixed { tag, payload: slice_to_vec(payload) };
                proof {
                    assert(payload@ =~= s.subrange(1, 1 + n));
                    assert(reader.remaining() =~= s.skip(1 + n));
                    lemma_parse_then_bytes(s);
                }
                Ok(rec)
            },
        }
    }

    /// Renames the record: a text has every match of the source prefix
    /// replaced, any other record is handed back as it is.
    pub fn rename(self, pattern: &RenamePattern) -> (r: Result<Self, FormatError>)
        ensures
            match r {
                Ok(rec) => self@.renamed(pattern.source@, pattern.target@) == Ok::<
                    Record,
                    FormatError,
                >(rec@),
                Err(e) => self@.renamed(pattern.source@, pattern.target@) == Err::<
                    Record,
                    FormatError,
                >(e),
            },
            self@ is Fixed ==> r is Ok && r->Ok_0@ == self@,
            r is Ok && self@.wf() ==> r->Ok_0@.wf(),
    {
        match self {
            ConstantPoolRecord::Utf8 { text } => {
                let decoded = decode_lossy(text.as_slice());
                match pattern.rename_text(decoded.as_str()) {
                    Ok(replaced) => Ok(
                        ConstantPoolRecord::Utf8 {
                            text: slice_to_vec(replaced.as_str().as_bytes()),
                        },
                    ),
                    Err(e) => Err(e),
                }
            },
            ConstantPoolRecord::Fixed { tag, payload } => Ok(
                ConstantPoolRecord::Fixed { tag, payload },
            ),
        }
    }

    /// Appends the bytes of the record to `writer`.
    pub fn write(&self, writer: &mut ByteWriter)
        requires
            self@.wf(),
        ensures
            final(writer)@ == old(writer)@ + self@.to_bytes(),
    {
        match self {
            ConstantPoolRecord::Utf8 { text } => {
                writer.write_u8(TAG_UTF8);
                writer.write_u16(text.len() as u16);
                writer.write_all(text.as_slice());
                assert(writer@ =~= old(writer)@ + self@.to_bytes());
            },
            ConstantPoolRecord::Fixed { tag, payload } => {
                writer.write_u8(*tag);
                writer.write_all(payload.as_slice());
                assert(writer@ =~= old(writer)@ + self@.to_bytes());
            },
        }
    }
}

} // verus!
