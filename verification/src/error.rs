//! The ways in which a stage can reject its input.

use vstd::prelude::*;

verus! {

/// Why a stage refused to run.
#[derive(Debug, Clone, Copy, PartialEq, Eq, Structural)]
pub enum Error {
    /// A column named by the caller is not in the table.
    MissingColumn,
    /// A column that must hold numbers holds text.
    NotNumeric,
    /// A column of that name is already in the table.
    DuplicateColumn,
    /// A column or mask whose length differs from the height of the table.
    LengthMismatch,
    /// A row index at or beyond the height of the table.
    RowOutOfRange,
    /// Tables to be stacked whose columns differ in number, name or kind.
    ColumnMismatch,
    /// An empty list of feature columns.
    NoFeatures,
    /// A learning rate below zero.
    NegativeRate,
    /// Model parts whose lengths disagree, or a deviation that is not
    /// greater than zero.
    InvalidModel,
    /// No table to read.
    NoData,
}

/// What an error is about.
#[derive(Debug, Clone, Copy, PartialEq, Eq, Structural)]
pub enum ErrorKind {
    /// The table does not have the shape that the stage needs.
    Schema,
    /// The parameters are invalid, whatever the table holds.
    Config,
    /// There is no input.
    Storage,
}

impl Error {
    /// What the error is about.
    pub open spec fn kind_of(self) -> ErrorKind {
        match self {
            Error::NoFeatures => ErrorKind::Config,
            Error::NegativeRate => ErrorKind::Config,
            Error::InvalidModel => ErrorKind::Config,
            Error::NoData => ErrorKind::Storage,
            _ => ErrorKind::Schema,
        }
    }

    /// Tells what the error is about.
    pub fn kind(&self) -> (kind: ErrorKind)
        ensures
            kind == self.kind_of(),
    {
        match self {
            Error::MissingColumn => ErrorKind::Schema,
            Error::NotNumeric => ErrorKind::Schema,
            Error::DuplicateColumn => ErrorKind::Schema,
            Error::LengthMismatch => ErrorKind::Schema,
            Error::RowOutOfRange => ErrorKind::Schema,
            Error::ColumnMismatch => ErrorKind::Schema,
            Error::NoFeatures => ErrorKind::Config,
            Error::NegativeRate => ErrorKind::Config,
            Error::InvalidModel => ErrorKind::Config,
            Error::NoData => ErrorKind::Storage,
        }
    }
}

} // verus!
