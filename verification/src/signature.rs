//! The stamp that an author leaves on a commit.

use vstd::prelude::*;

verus! {

/// A point in time, as a commit records it.
#[derive(Debug, Copy, Clone, PartialEq, Eq, Structural)]
pub struct Time {
    /// Seconds since the start of 1970, UTC.
    pub seconds: i64,
    /// The distance of the author's clock from UTC, in seconds.
    pub offset: i32,
}

/// Who made a commit, and when.
#[derive(Debug, Clone, PartialEq, Eq)]
pub struct Signature {
    /// The name of the author.
    pub name: Vec<u8>,
    /// The email address of the author.
    pub email: Vec<u8>,
    /// When the commit was made.
    pub time: Time,
}

/// A signature as a mathematical value.
pub ghost struct SignatureView {
    /// The name of the author.
    pub name: Seq<u8>,
    /// The email address of the author.
    pub email: Seq<u8>,
    /// When the commit was made.
    pub time: Time,
}

impl View for Signature {
    type V = SignatureView;

    open spec fn view(&self) -> SignatureView {
        SignatureView { name: self.name@, email: self.email@, time: self.time }
    }
}

impl Signature {
    /// The seconds since the start of 1970 at which the commit was made.
    pub fn seconds(&self) -> (seconds: i64)
        ensures
            seconds == self.time.seconds,
    {
        self.time.seconds
    }
}

} // verus!
