// vercmp's answer read as an ordering, and the one decision it settles.
use crate::text::trim;
use crate::update::{i64_text, trimmed_i64, Kind, Report, State, NOT_COMPARED};
use std::cmp::Ordering;
use vstd::prelude::*;

verus! {

/// The sign of the integer vercmp printed.
pub open spec fn order_of(text: Seq<char>) -> Option<Ordering> {
    match i64_text(trim(text)) {
        Some(n) => Some(
            if n > 0 {
                Ordering::Greater
            } else if n == 0 {
                Ordering::Equal
            } else {
                Ordering::Less
            },
        ),
        None => None,
    }
}

/// Sample input: "1\n", which vercmp prints when its first argument is the newer one.
pub fn vercmp_order(text: &str) -> (r: Option<Ordering>)
    ensures
        r == order_of(text@),
{
    match trimmed_i64(text) {
        Some(n) => if n > 0 {
            Some(Ordering::Greater)
        } else if n == 0 {
            Some(Ordering::Equal)
        } else {
            Some(Ordering::Less)
        },
        None => None,
    }
}

/// The one decision: a version the owner's source can install, set against the installed one by vercmp.
pub fn decide(kind: Kind, installed: Option<String>, offer: String, order: Option<Ordering>) -> (r: Report)
    ensures
        r.kind == kind,
        r.installed == installed,
        r.latest == Some(offer),
        r.state == (match order {
            Some(Ordering::Greater) => State::Available,
            Some(_) => State::Current,
            None => State::Failed(NOT_COMPARED),
        }),
{
    let state = match order {
        Some(Ordering::Greater) => State::Available,
        Some(_) => State::Current,
        None => State::Failed(NOT_COMPARED),
    };
    Report { state, kind, installed, latest: Some(offer) }
}

} // verus!
