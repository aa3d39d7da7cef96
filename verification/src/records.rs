//! Classroom records as the store keeps them: the availability mask of a
//! room travels as JSON text.

use crate::model::Classroom;
use vstd::prelude::*;

verus! {

/// The error type of `serde_json`, carried through without being read.
#[verifier::external_type_specification]
#[verifier::external_body]
pub struct ExJsonError(serde_json::Error);

/// The slots of an availability list, as values.
pub open spec fn slots_of(v: Seq<(String, i16)>) -> Seq<(Seq<char>, i16)> {
    Seq::new(v.len(), |i: int| (v[i].0@, v[i].1))
}

/// The availability mask of a room, as a value.
pub open spec fn mask_of(av: Option<Vec<(String, i16)>>) -> Option<Seq<(Seq<char>, i16)>> {
    match av {
        Some(v) => Some(slots_of(v@)),
        None => None,
    }
}

/// The JSON text that `serde_json` writes for an availability mask.
pub uninterp spec fn availability_json(mask: Option<Seq<(Seq<char>, i16)>>) -> Seq<char>;

/// The availability list that `serde_json` reads from a text; `None` where
/// it reads none.
pub uninterp spec fn parsed_availability(text: Seq<char>) -> Option<Seq<(Seq<char>, i16)>>;

/// Why a record could not be written.
#[derive(Debug, Clone, Copy, PartialEq, Eq)]
pub enum RecordError {
    /// The availability mask could not be put into JSON.
    Availability,
}

/// `serde_json::to_string` on an availability mask.  Trusted: where the
/// call succeeds, the text is the one that the mask, as a value, always
/// gives.  Nothing is claimed of when it succeeds.
#[verifier::external_body]
fn availability_to_json(av: &Option<Vec<(String, i16)>>) -> (r: Result<String, serde_json::Error>)
    ensures
        r matches Ok(s) ==> s@ == availability_json(mask_of(*av)),
{
    serde_json::to_string(av)
}

/// `serde_json::from_str` for a list of (day, module) pairs.  Trusted:
/// whether a list is read and which one depends on the text alone.
#[verifier::external_body]
fn availability_from_json(text: &str) -> (r: Result<Vec<(String, i16)>, serde_json::Error>)
    ensures
        match r {
            Ok(v) => parsed_availability(text@) == Some(slots_of(v@)),
            Err(_) => parsed_availability(text@) is None,
        },
{
    serde_json::from_str(text)
}

/// The list that was read, or the empty list where none was.
pub fn availability_or_empty(parsed: Result<Vec<(String, i16)>, serde_json::Error>) -> (r: Vec<
    (String, i16),
>)
    ensures
        match parsed {
            Ok(v) => r == v,
            Err(_) => r@.len() == 0,
        },
{
    match parsed {
        Ok(v) => v,
        Err(_) => Vec::new(),
    }
}

/// The classroom that a stored record denotes.  The availability text
/// that holds no list gives a room that is never available.
pub fn classroom_from_record(
    id: Option<i16>,
    building_id: Option<String>,
    building_number: i16,
    building_type: Option<String>,
    capacity: Option<i16>,
    availability: &str,
) -> (c: Classroom)
    ensures
        c.id == id,
        c.building_id == building_id,
        c.building_number == building_number,
        c.building_type == building_type,
        c.capacity == capacity,
        c.availability is Some,
        mask_of(c.availability) == Some(
            match parsed_availability(availability@) {
                Some(m) => m,
                None => Seq::empty(),
            },
        ),
{
    let list = availability_or_empty(availability_from_json(availability));
    proof {
        if parsed_availability(availability@) is None {
            assert(slots_of(list@) =~= Seq::empty());
        }
    }
    Classroom { id, building_id, building_number, building_type, capacity, availability: Some(list) }
}

/// What becomes of the outcome of writing an availability mask as JSON:
/// the text that was written, or the error of the record where none was.
pub fn written_or_error(written: Result<String, serde_json::Error>) -> (r: Result<
    String,
    RecordError,
>)
    ensures
        match written {
            Ok(s) => r == Ok::<String, RecordError>(s),
            Err(_) => r == Err::<String, RecordError>(RecordError::Availability),
        },
{
    match written {
        Ok(s) => Ok(s),
        Err(_) => Err(RecordError::Availability),
    }
}

/// The availability text under which a classroom is stored.
pub fn availability_record(c: &Classroom) -> (r: Result<String, RecordError>)
    ensures
        r matches Ok(s) ==> s@ == availability_json(mask_of(c.availability)),
{
    written_or_error(availability_to_json(&c.availability))
}

} // verus!
