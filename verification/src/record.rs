//! A plate together with the moment it was seen.

use vstd::prelude::*;

verus! {

/// A point in time as the system clock gives it. Nothing is known of its
/// inside here: it is carried along and handed back.
#[verifier::external_type_specification]
#[verifier::external_body]
pub struct ExSystemTime(std::time::SystemTime);

/// Reads the system clock with `SystemTime::now`. Nothing is promised of the
/// moment that comes back.
#[verifier::external_body]
pub(crate) fn current_time() -> (now: std::time::SystemTime) {
    std::time::SystemTime::now()
}

/// A plate that was found, and when.
#[derive(Debug)]
pub struct Record {
    identifier: String,
    observed_at: std::time::SystemTime,
}

/// A [`Record`] as a mathematical value.
pub ghost struct RecordView {
    pub identifier: Seq<char>,
    pub observed_at: std::time::SystemTime,
}

impl View for Record {
    type V = RecordView;

    closed spec fn view(&self) -> RecordView {
        RecordView { identifier: self.identifier@, observed_at: self.observed_at }
    }
}

impl Record {
    #[verifier::type_invariant]
    spec fn named(self) -> bool {
        self.identifier@.len() > 0
    }

    /// A record of `identifier` seen at `observed_at`; none when the
    /// identifier is empty.
    pub fn new(identifier: String, observed_at: std::time::SystemTime) -> (record: Option<Self>)
        ensures
            match record {
                Some(r) => identifier@.len() > 0 && r@ == (RecordView {
                    identifier: identifier@,
                    observed_at,
                }),
                None => identifier@.len() == 0,
            },
    {
        if identifier.as_str().is_empty() {
            None
        } else {
            Some(Record { identifier, observed_at })
        }
    }

    /// The plate.
    pub fn identifier(&self) -> (id: &String)
        ensures
            id@ == self@.identifier,
            id@.len() > 0,
    {
        proof {
            use_type_invariant(self);
        }
        &self.identifier
    }

    /// When the plate was seen.
    pub fn observed_at(&self) -> (at: std::time::SystemTime)
        ensures
            at == self@.observed_at,
    {
        self.observed_at
    }
}

} // verus!
