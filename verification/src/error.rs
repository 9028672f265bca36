//! Top-level error type, and the texts of the format modules' errors.
//!
//! One variant per module error, so that callers at the CLI boundary can
//! handle any parse/write failure uniformly.

use crate::job::se_bank::SeBankError;
use crate::job::JobError;
use crate::ogg::OggError;
use crate::sm::{SmError, SmErrorView};
use crate::ssc::{SscError, SscErrorView};
use crate::ssq::{SsqError, SsqErrorView};
use crate::util::io::IoError;
use crate::util::text::{
    debug_text, dec, dec_string, digits_fixed, fixed_string, quoted, signed_dec, signed_dec_string,
    with_number,
};
use crate::wavm::WavmError;
use crate::xsb::XsbError;
use crate::xwb::adpcm::AdpcmError;
use crate::xwb::container::XwbError;
use vstd::prelude::*;
use vstd::string::StringExecFns;

verus! {

#[derive(Debug)]
pub enum Error {
    Sm(SmError),
    Ssq(SsqError),
    Ssc(SscError),
    Ogg(OggError),
    Wavm(WavmError),
    Xwb(XwbError),
    Xsb(XsbError),
    Adpcm(AdpcmError),
    Job(JobError),
    SeBank(SeBankError),
    Io(String),
    /// Placeholder variant kept while not all module errors are wired.
    NotImplemented,
}

/// An `OggError` with its text as a character sequence.
#[verifier::ext_equal]
pub enum OggErrorView {
    Decode(Seq<char>),
    Encode(Seq<char>),
}

impl View for OggError {
    type V = OggErrorView;

    open spec fn view(&self) -> OggErrorView {
        match self {
            OggError::Decode(s) => OggErrorView::Decode(s@),
            OggError::Encode(s) => OggErrorView::Encode(s@),
        }
    }
}

/// An `XsbError` with its text as a character sequence.
#[verifier::ext_equal]
pub enum XsbErrorView {
    BadCode { code: Seq<char> },
}

impl View for XsbError {
    type V = XsbErrorView;

    open spec fn view(&self) -> XsbErrorView {
        match self {
            XsbError::BadCode { code } => XsbErrorView::BadCode { code: code@ },
        }
    }
}

/// An `Error` with its texts as character sequences.
#[verifier::ext_equal]
pub enum ErrorView {
    Sm(SmErrorView),
    Ssq(SsqErrorView),
    Ssc(SscErrorView),
    Ogg(OggErrorView),
    Wavm(WavmError),
    Xwb(XwbError),
    Xsb(XsbErrorView),
    Adpcm(AdpcmError),
    Job(JobError),
    SeBank(SeBankError),
    Io(Seq<char>),
    NotImplemented,
}

impl View for Error {
    type V = ErrorView;

    open spec fn view(&self) -> ErrorView {
        match self {
            Error::Sm(e) => ErrorView::Sm(e@),
            Error::Ssq(e) => ErrorView::Ssq(e@),
            Error::Ssc(e) => ErrorView::Ssc(e@),
            Error::Ogg(e) => ErrorView::Ogg(e@),
            Error::Wavm(e) => ErrorView::Wavm(*e),
            Error::Xwb(e) => ErrorView::Xwb(*e),
            Error::Xsb(e) => ErrorView::Xsb(e@),
            Error::Adpcm(e) => ErrorView::Adpcm(*e),
            Error::Job(e) => ErrorView::Job(*e),
            Error::SeBank(e) => ErrorView::SeBank(*e),
            Error::Io(s) => ErrorView::Io(s@),
            Error::NotImplemented => ErrorView::NotImplemented,
        }
    }
}

impl OggErrorView {
    pub open spec fn text(self) -> Seq<char> {
        match self {
            OggErrorView::Decode(s) => "OGG decode error: "@ + s,
            OggErrorView::Encode(s) => "OGG encode error: "@ + s,
        }
    }
}

impl OggError {
    /// The error in words.
    pub fn message(&self) -> (text: String)
        ensures
            text@ == self@.text(),
    {
        match self {
            OggError::Decode(s) => "OGG decode error: ".to_owned().concat(s.as_str()),
            OggError::Encode(s) => "OGG encode error: ".to_owned().concat(s.as_str()),
        }
    }
}

impl WavmError {
    pub open spec fn text(self) -> Seq<char> {
        match self {
            WavmError::Empty => "WAVM data is empty"@,
            WavmError::UnalignedData { len, block_size } => "WAVM data length "@ + dec(len as nat)
                + " is not a multiple of the stereo block size ("@ + dec(block_size as nat) + ")"@,
        }
    }

    /// The error in words.
    pub fn message(&self) -> (text: String)
        ensures
            text@ == self.text(),
    {
        match self {
            WavmError::Empty => "WAVM data is empty".to_owned(),
            WavmError::UnalignedData { len, block_size } => with_number(
                "WAVM data length ",
                *len as u128,
                " is not a multiple of the stereo block size (",
            ).concat(dec_string(*block_size as u128).as_str()).concat(")"),
        }
    }
}

impl AdpcmError {
    pub open spec fn text(self) -> Seq<char> {
        match self {
            AdpcmError::BlockTooShort { expected, actual } =>
            "block too short: expected at least "@ + dec(expected as nat) + " bytes, got "@ + dec(
                actual as nat,
            ),
            AdpcmError::BadPredictor { index } => "predictor index "@ + dec(index as nat)
                + " out of range (max 6)"@,
        }
    }

    /// The error in words.
    pub fn message(&self) -> (text: String)
        ensures
            text@ == self.text(),
    {
        match self {
            AdpcmError::BlockTooShort { expected, actual } => with_number(
                "block too short: expected at least ",
                *expected as u128,
                " bytes, got ",
            ).concat(dec_string(*actual as u128).as_str()),
            AdpcmError::BadPredictor { index } => with_number(
                "predictor index ",
                *index as u128,
                " out of range (max 6)",
            ),
        }
    }
}

impl IoError {
    pub open spec fn text(self) -> Seq<char> {
        match self {
            IoError::UnexpectedEof { offset, wanted, remaining } =>
            "unexpected end of buffer at byte "@ + dec(offset as nat) + ": wanted "@ + dec(
                wanted as nat,
            ) + " byte(s), "@ + dec(remaining as nat) + " remaining"@,
        }
    }

    /// The error in words.
    pub fn message(&self) -> (text: String)
        ensures
            text@ == self.text(),
    {
        match self {
            IoError::UnexpectedEof { offset, wanted, remaining } => with_number(
                "unexpected end of buffer at byte ",
                *offset as u128,
                ": wanted ",
            ).concat(dec_string(*wanted as u128).as_str()).concat(" byte(s), ").concat(
                dec_string(*remaining as u128).as_str(),
            ).concat(" remaining"),
        }
    }
}

impl XwbError {
    pub open spec fn text(self) -> Seq<char> {
        match self {
            XwbError::BadMagic => "invalid magic at byte 0: expected WBND"@,
            XwbError::UnsupportedVersion { version } => "unsupported version "@ + dec(
                version as nat,
            ) + " (expected 43)"@,
            XwbError::SegmentOutOfBounds { index, offset, length, file_len } => "segment "@ + dec(
                index as nat,
            ) + " extends beyond file (offset "@ + dec(offset as nat) + " + length "@ + dec(
                length as nat,
            ) + " > file size "@ + dec(file_len as nat) + ")"@,
            XwbError::EntryDataOutOfBounds { index } => "entry "@ + dec(index as nat)
                + " data extends beyond wave-data segment"@,
            XwbError::NoEntries => "bank contains no entries"@,
            XwbError::Adpcm(e) => "ADPCM decode error: "@ + e.text(),
            XwbError::Io(e) => "read error: "@ + e.text(),
        }
    }

    /// The error in words.
    pub fn message(&self) -> (text: String)
        ensures
            text@ == self.text(),
    {
        match self {
            XwbError::BadMagic => "invalid magic at byte 0: expected WBND".to_owned(),
            XwbError::UnsupportedVersion { version } => with_number(
                "unsupported version ",
                *version as u128,
                " (expected 43)",
            ),
            XwbError::SegmentOutOfBounds { index, offset, length, file_len } => with_number(
                "segment ",
                *index as u128,
                " extends beyond file (offset ",
            ).concat(dec_string(*offset as u128).as_str()).concat(" + length ").concat(
                dec_string(*length as u128).as_str(),
            ).concat(" > file size ").concat(dec_string(*file_len as u128).as_str()).concat(")"),
            XwbError::EntryDataOutOfBounds { index } => with_number(
                "entry ",
                *index as u128,
                " data extends beyond wave-data segment",
            ),
            XwbError::NoEntries => "bank contains no entries".to_owned(),
            XwbError::Adpcm(e) => "ADPCM decode error: ".to_owned().concat(e.message().as_str()),
            XwbError::Io(e) => "read error: ".to_owned().concat(e.message().as_str()),
        }
    }
}

impl XsbErrorView {
    pub open spec fn text(self) -> Seq<char> {
        match self {
            XsbErrorView::BadCode { code } =>
            "song code must be 1-16 ASCII alphanumeric characters, got "@ + debug_text(code),
        }
    }
}

impl XsbError {
    /// The error in words.
    pub fn message(&self) -> (text: String)
        ensures
            text@ == self@.text(),
    {
        match self {
            XsbError::BadCode { code } =>
            "song code must be 1-16 ASCII alphanumeric characters, got ".to_owned().concat(
                quoted(code.as_str()).as_str(),
            ),
        }
    }
}

impl SsqErrorView {
    pub open spec fn text(self) -> Seq<char> {
        match self {
            SsqErrorView::Io(e) => "I/O error while parsing SSQ: "@ + e.text(),
            SsqErrorView::MalformedChunk { offset, reason } => "malformed chunk at byte "@ + dec(
                offset as nat,
            ) + ": "@ + reason,
            SsqErrorView::UnexpectedChunkType { ty, offset } => "unexpected chunk type "@ + dec(
                ty as nat,
            ) + " at byte "@ + dec(offset as nat) + " (not yet supported by this parser)"@,
            SsqErrorView::MissingTempoChunk =>
            "SSQ file is missing the required tempo chunk (type 1)"@,
            SsqErrorView::DuplicateTempoChunk =>
            "SSQ file contains multiple tempo chunks; exactly one is required"@,
            SsqErrorView::MissingEventsChunk =>
            "SSQ file is missing the required events chunk (type 2)"@,
            SsqErrorView::DuplicateEventsChunk =>
            "SSQ file contains multiple events chunks; exactly one is required"@,
            SsqErrorView::InvalidTps { offset } => "tempo chunk at byte "@ + dec(offset as nat)
                + " has invalid TPS value 0"@,
            SsqErrorView::InvalidDifficultyCode { code, offset } => "step chunk at byte "@ + dec(
                offset as nat,
            ) + " has invalid difficulty code 0x"@ + digits_fixed(code as nat, 16, 4),
            SsqErrorView::FreezeWithoutHead { freeze_offset, tick, panel } =>
            "step chunk at byte "@ + dec(freeze_offset as nat) + ": freeze-end at tick "@
                + signed_dec(tick as int) + " has no matching head for panel "@ + dec(panel as nat),
            SsqErrorView::CannotWriteTps { tps } => "SSQ writer refuses to emit TPS="@ + dec(
                tps as nat,
            ) + "; only modern TPS=1000 is supported"@,
            SsqErrorView::Write(s) => "SSQ write failed: "@ + s,
            SsqErrorView::NonIntegerBeat { beat, beat_den } => "cannot serialize beat "@
                + signed_dec(beat as int) + "/"@ + dec(beat_den as nat)
                + " — not an integer measure-tick at TPS=1000"@,
            SsqErrorView::MineChunkLengthMismatch { offset, declared, param3, expected } =>
            "mine chunk at byte "@ + dec(offset as nat) + ": declared length "@ + dec(
                declared as nat,
            ) + " does not match entry count "@ + dec(param3 as nat) + " (expected "@ + dec(
                expected as nat,
            ) + ")"@,
            SsqErrorView::InvalidMinePanels { panels } =>
            "mines::write_chunk refuses to emit shock-mask panels 0x"@ + digits_fixed(
                panels as nat,
                16,
                2,
            ) + " (reserved for step-chunk shocks)"@,
        }
    }
}

impl SsqError {
    /// The error in words.
    pub fn message(&self) -> (text: String)
        ensures
            text@ == self@.text(),
    {
        match self {
            SsqError::Io(e) => "I/O error while parsing SSQ: ".to_owned().concat(
                e.message().as_str(),
            ),
            SsqError::MalformedChunk { offset, reason } => with_number(
                "malformed chunk at byte ",
                *offset as u128,
                ": ",
            ).concat(reason.as_str()),
            SsqError::UnexpectedChunkType { ty, offset } => with_number(
                "unexpected chunk type ",
                *ty as u128,
                " at byte ",
            ).concat(dec_string(*offset as u128).as_str()).concat(
                " (not yet supported by this parser)",
            ),
            SsqError::MissingTempoChunk =>
            "SSQ file is missing the required tempo chunk (type 1)".to_owned(),
            SsqError::DuplicateTempoChunk =>
            "SSQ file contains multiple tempo chunks; exactly one is required".to_owned(),
            SsqError::MissingEventsChunk =>
            "SSQ file is missing the required events chunk (type 2)".to_owned(),
            SsqError::DuplicateEventsChunk =>
            "SSQ file contains multiple events chunks; exactly one is required".to_owned(),
            SsqError::InvalidTps { offset } => with_number(
                "tempo chunk at byte ",
                *offset as u128,
                " has invalid TPS value 0",
            ),
            SsqError::InvalidDifficultyCode { code, offset } => with_number(
                "step chunk at byte ",
                *offset as u128,
                " has invalid difficulty code 0x",
            ).concat(fixed_string(*code as u128, 16, 4).as_str()),
            SsqError::FreezeWithoutHead { freeze_offset, tick, panel } => with_number(
                "step chunk at byte ",
                *freeze_offset as u128,
                ": freeze-end at tick ",
            ).concat(signed_dec_string(*tick as i64).as_str()).concat(
                " has no matching head for panel ",
            ).concat(dec_string(*panel as u128).as_str()),
            SsqError::CannotWriteTps { tps } => with_number(
                "SSQ writer refuses to emit TPS=",
                *tps as u128,
                "; only modern TPS=1000 is supported",
            ),
            SsqError::Write(s) => "SSQ write failed: ".to_owned().concat(s.as_str()),
            SsqError::NonIntegerBeat { beat, beat_den } => "cannot serialize beat ".to_owned().concat(
                signed_dec_string(*beat).as_str(),
            ).concat("/").concat(dec_string(*beat_den as u128).as_str()).concat(
                " — not an integer measure-tick at TPS=1000",
            ),
            SsqError::MineChunkLengthMismatch { offset, declared, param3, expected } => with_number(
                "mine chunk at byte ",
                *offset as u128,
                ": declared length ",
            ).concat(dec_string(*declared as u128).as_str()).concat(
                " does not match entry count ",
            ).concat(dec_string(*param3 as u128).as_str()).concat(" (expected ").concat(
                dec_string(*expected as u128).as_str(),
            ).concat(")"),
            SsqError::InvalidMinePanels { panels } =>
            "mines::write_chunk refuses to emit shock-mask panels 0x".to_owned().concat(
                fixed_string(*panels as u128, 16, 2).as_str(),
            ).concat(" (reserved for step-chunk shocks)"),
        }
    }
}

impl ErrorView {
    /// The text of the error.
    pub open spec fn text(self) -> Seq<char> {
        match self {
            ErrorView::Sm(e) => "SM error: "@ + e.text(),
            ErrorView::Ssq(e) => "SSQ error: "@ + e.text(),
            ErrorView::Ssc(e) => "SSC error: "@ + e.text(),
            ErrorView::Ogg(e) => "OGG error: "@ + e.text(),
            ErrorView::Wavm(e) => "WAVM error: "@ + e.text(),
            ErrorView::Xwb(e) => "XWB error: "@ + e.text(),
            ErrorView::Xsb(e) => "XSB error: "@ + e.text(),
            ErrorView::Adpcm(e) => "ADPCM error: "@ + e.text(),
            ErrorView::Job(e) => e.text(),
            ErrorView::SeBank(e) => e.text(),
            ErrorView::Io(s) => "I/O error: "@ + s,
            ErrorView::NotImplemented => "not yet implemented"@,
        }
    }
}

impl Error {
    /// The error in words.
    pub fn message(&self) -> (text: String)
        ensures
            text@ == self@.text(),
    {
        match self {
            Error::Sm(e) => "SM error: ".to_owned().concat(e.message().as_str()),
            Error::Ssq(e) => "SSQ error: ".to_owned().concat(e.message().as_str()),
            Error::Ssc(e) => "SSC error: ".to_owned().concat(e.message().as_str()),
            Error::Ogg(e) => "OGG error: ".to_owned().concat(e.message().as_str()),
            Error::Wavm(e) => "WAVM error: ".to_owned().concat(e.message().as_str()),
            Error::Xwb(e) => "XWB error: ".to_owned().concat(e.message().as_str()),
            Error::Xsb(e) => "XSB error: ".to_owned().concat(e.message().as_str()),
            Error::Adpcm(e) => "ADPCM error: ".to_owned().concat(e.message().as_str()),
            Error::Job(e) => e.message(),
            Error::SeBank(e) => e.message(),
            Error::Io(s) => "I/O error: ".to_owned().concat(s.as_str()),
            Error::NotImplemented => "not yet implemented".to_owned(),
        }
    }
}

} // verus!
