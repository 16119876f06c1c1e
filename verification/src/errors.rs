use vstd::prelude::*;

verus! {

/// The error kinds the store can report.
///
/// An absent key is not an error: lookups return `None` for it.
#[derive(Clone, Copy, Debug, PartialEq, Eq, Structural)]
pub enum DbError {
    /// `create` was asked for a database file that already exists.
    AlreadyExists,
    /// `use` was asked for a database file that does not exist.
    NotFound,
    /// The header page does not begin with the expected magic bytes.
    BadMagic,
    /// A page could not be decoded as a B-tree node.
    CorruptPage,
    /// A single node is too large to fit in one page.
    EncodeTooLarge,
    /// A read or write fell outside the file image.
    IoFailure,
    /// `set` or `get` was called before any database was opened.
    NoActiveDatabase,
}

impl DbError {
    /// A short description, for callers that render errors as text.
    pub fn message(&self) -> (r: &'static str)
        ensures
            r@ == match *self {
                DbError::AlreadyExists => "database already exists"@,
                DbError::NotFound => "database not found"@,
                DbError::BadMagic => "bad magic in header"@,
                DbError::CorruptPage => "corrupt page"@,
                DbError::EncodeTooLarge => "node too large for a page"@,
                DbError::IoFailure => "read or write out of bounds"@,
                DbError::NoActiveDatabase => "no active database"@,
            },
    {
        match *self {
            DbError::AlreadyExists => "database already exists",
            DbError::NotFound => "database not found",
            DbError::BadMagic => "bad magic in header",
            DbError::CorruptPage => "corrupt page",
            DbError::EncodeTooLarge => "node too large for a page",
            DbError::IoFailure => "read or write out of bounds",
            DbError::NoActiveDatabase => "no active database",
        }
    }
}

} // verus!
