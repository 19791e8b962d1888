//! What the library promises, from what goes in to what comes out.
//!
//! Each law speaks of the records, payloads, topics and times that are handed
//! over and of the words and states that come back, for all of them.

use vstd::prelude::*;

pub mod minds;
pub mod monitors;
pub mod narrations;
pub mod payloads;
pub mod records;
pub mod reports;
pub mod stores;
pub mod structs;
pub mod texts;
pub mod times;
pub mod turns;

verus! {

/// Whether a text has a part somewhere.
pub open spec fn shows(whole: Seq<char>, part: Seq<char>) -> bool {
    exists|a: Seq<char>, b: Seq<char>| whole == #[trigger] (a + part + b)
}

/// Whether a text ends with a part.
pub open spec fn ends(whole: Seq<char>, part: Seq<char>) -> bool {
    exists|a: Seq<char>| whole == #[trigger] (a + part)
}

} // verus!
