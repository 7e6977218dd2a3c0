use vstd::prelude::*;

pub mod dates;
pub mod item;
pub mod library;
pub mod text;

verus! {

/// The error kinds that the circulation and catalog operations report.
#[derive(Clone, Copy, Debug, PartialEq, Eq, Structural)]
pub enum LibError {
    ItemNotFound,
    MemberNotFound,
    NoCopiesAvailable,
    ItemNotCheckedOut,
    AlreadyCheckedOut,
    InvalidInput,
    LoadFailed,
}

impl LibError {
    /// The display text of each error kind.
    pub open spec fn spec_message(self) -> Seq<char> {
        match self {
            LibError::ItemNotFound => "Invalid Item ID!"@,
            LibError::MemberNotFound => "Invalid Member ID!"@,
            LibError::NoCopiesAvailable => "No available copies left!"@,
            LibError::ItemNotCheckedOut => "This item was not checked out by this member"@,
            LibError::AlreadyCheckedOut => "This item is already checked out by this member"@,
            LibError::InvalidInput => "Not a valid numeric ID"@,
            LibError::LoadFailed => "No items loaded from the catalog source"@,
        }
    }

    /// The display text of this error, for the presentation layer.
    pub fn message(&self) -> (r: String)
        ensures
            r@ == self.spec_message(),
    {
        match self {
            LibError::ItemNotFound => "Invalid Item ID!".to_owned(),
            LibError::MemberNotFound => "Invalid Member ID!".to_owned(),
            LibError::NoCopiesAvailable => "No available copies left!".to_owned(),
            LibError::ItemNotCheckedOut => "This item was not checked out by this member".to_owned(),
            LibError::AlreadyCheckedOut => "This item is already checked out by this member".to_owned(),
            LibError::InvalidInput => "Not a valid numeric ID".to_owned(),
            LibError::LoadFailed => "No items loaded from the catalog source".to_owned(),
        }
    }
}

} // verus!
