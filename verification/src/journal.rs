//! Rules for the fields of a journal entry that are derived, not entered.
use vstd::prelude::*;

verus! {

/// The status of an entry: `"closed"` once its exit price is known, else
/// `"open"`.
pub open spec fn status_of(has_exit_price: bool) -> Seq<char> {
    if has_exit_price {
        "closed"@
    } else {
        "open"@
    }
}

/// The status of an entry whose exit price is (or is not) known.
pub fn trade_status(has_exit_price: bool) -> (res: String)
    ensures
        res@ == status_of(has_exit_price),
{
    if has_exit_price {
        "closed".to_string()
    } else {
        "open".to_string()
    }
}

/// The stored plan flag: 0 when the trader says the plan was not followed,
/// else 1 (the plan counts as followed when nothing is said).
pub open spec fn plan_flag(followed_plan: Option<bool>) -> i64 {
    match followed_plan {
        Some(false) => 0,
        _ => 1,
    }
}

/// The stored plan flag for an entry.
pub fn followed_plan_flag(followed_plan: Option<bool>) -> (res: i64)
    ensures
        res == plan_flag(followed_plan),
{
    if followed_plan.unwrap_or(true) {
        1
    } else {
        0
    }
}

} // verus!
