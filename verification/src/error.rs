//! Errors of the index.

use vstd::prelude::*;

verus! {

/// What is wrong with a stored layer.
#[derive(Clone, Copy, Debug, PartialEq, Eq, Structural)]
pub enum LayerFormatError {
    BadMagic,
    UnsupportedVersion,
    BadLayout,
    Truncated,
    LabelNotUtf8,
    ChunkIndexOutOfRange,
    ParentDirOutOfRange,
    InconsistentPathRecord,
    PathNotUtf8,
    FilenameOffsetSplitsChar,
    NoSuchLayer,
}

impl LayerFormatError {
    pub open spec fn text(self) -> Seq<char> {
        match self {
            LayerFormatError::BadMagic => "bad magic"@,
            LayerFormatError::UnsupportedVersion => "unsupported version"@,
            LayerFormatError::BadLayout => "bad layout"@,
            LayerFormatError::Truncated => "truncated"@,
            LayerFormatError::LabelNotUtf8 => "label is not utf-8"@,
            LayerFormatError::ChunkIndexOutOfRange => "chunk index out of range"@,
            LayerFormatError::ParentDirOutOfRange => "parent dir out of range"@,
            LayerFormatError::InconsistentPathRecord => "inconsistent path record"@,
            LayerFormatError::PathNotUtf8 => "path is not utf-8"@,
            LayerFormatError::FilenameOffsetSplitsChar => "filename offset splits a char"@,
            LayerFormatError::NoSuchLayer => "no such layer"@,
        }
    }

    pub fn message(&self) -> (r: &'static str)
        ensures
            r@ == self.text(),
    {
        match self {
            LayerFormatError::BadMagic => "bad magic",
            LayerFormatError::UnsupportedVersion => "unsupported version",
            LayerFormatError::BadLayout => "bad layout",
            LayerFormatError::Truncated => "truncated",
            LayerFormatError::LabelNotUtf8 => "label is not utf-8",
            LayerFormatError::ChunkIndexOutOfRange => "chunk index out of range",
            LayerFormatError::ParentDirOutOfRange => "parent dir out of range",
            LayerFormatError::InconsistentPathRecord => "inconsistent path record",
            LayerFormatError::PathNotUtf8 => "path is not utf-8",
            LayerFormatError::FilenameOffsetSplitsChar => "filename offset splits a char",
            LayerFormatError::NoSuchLayer => "no such layer",
        }
    }
}

#[derive(Clone, Copy, Debug, PartialEq, Eq, Structural)]
pub enum Error {
    /// A background pass holds a snapshot of the tables.
    IndexBusy,
    LayerFormat(LayerFormatError),
}

} // verus!
