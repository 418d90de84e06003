//! Orders of the auction: free-form JSON, of which two fields are read.
use vstd::prelude::*;

use crate::double::Double;

verus! {

/// A JSON value, carried as it came.
#[verifier::external_type_specification]
#[verifier::external_body]
pub struct ExValue(serde_json::Value);

/// The numbers among the fields of a JSON object, by name, as the bits of
/// the binary64 number that `as_f64` reads; empty where the value is no
/// object.
pub uninterp spec fn number_fields(value: serde_json::Value) -> Map<Seq<char>, u64>;

/// The fields of a JSON object that hold an unsigned integer, by name, as
/// `as_u64` reads them; empty where the value is no object.
pub uninterp spec fn unsigned_fields(value: serde_json::Value) -> Map<Seq<char>, u64>;

/// `serde_json::Value::get` by a name, then `Value::as_f64`: the number that
/// the field holds, if the value is an object with such a field and the
/// field is a number.  A JSON number is always finite.
#[verifier::external_body]
fn number_field(value: &serde_json::Value, name: &str) -> (bits: Option<u64>)
    ensures
        bits == (if number_fields(*value).contains_key(name@) {
            Some(number_fields(*value)[name@])
        } else {
            None
        }),
        bits matches Some(b) ==> (Double { bits: b }).finite(),
{
    value.get(name).and_then(|v| v.as_f64()).map(|x| x.to_bits())
}

/// `serde_json::Value::get` by a name, then `Value::as_u64`: the unsigned
/// integer that the field holds, if the value is an object with such a field
/// and the field is an unsigned integer.
#[verifier::external_body]
fn unsigned_field(value: &serde_json::Value, name: &str) -> (number: Option<u64>)
    ensures
        number == (if unsigned_fields(*value).contains_key(name@) {
            Some(unsigned_fields(*value)[name@])
        } else {
            None
        }),
{
    value.get(name).and_then(|v| v.as_u64())
}

/// The derived `Clone` of `serde_json::Value`: the copy is equal to the
/// value in all its parts.
pub assume_specification[ <serde_json::Value as Clone>::clone ](
    value: &serde_json::Value,
) -> (copy: serde_json::Value)
    ensures
        copy == *value,
;

/// What an order bids; an order without a number bids nothing.
pub open spec fn bid_of(order: serde_json::Value) -> Double {
    if number_fields(order).contains_key("bid"@) {
        Double { bits: number_fields(order)["bid"@] }
    } else {
        Double { bits: 0 }
    }
}

/// The priority of an order, the lowest first; an order without one comes
/// last.
pub open spec fn priority_of(order: serde_json::Value) -> u64 {
    if unsigned_fields(order).contains_key("priority"@) {
        unsigned_fields(order)["priority"@]
    } else {
        u64::MAX
    }
}

/// The bid that a reading of the field gives.
pub fn bid_or_zero(bits: Option<u64>) -> (bid: Double)
    ensures
        bits matches Some(b) ==> bid == (Double { bits: b }),
        bits is None ==> bid == (Double { bits: 0 }),
{
    match bits {
        Some(b) => Double { bits: b },
        None => Double { bits: 0 },
    }
}

/// The priority that a reading of the field gives.
pub fn priority_or_last(number: Option<u64>) -> (priority: u64)
    ensures
        number matches Some(n) ==> priority == n,
        number is None ==> priority == u64::MAX,
{
    match number {
        Some(n) => n,
        None => u64::MAX,
    }
}

/// Reads what an order bids.
pub fn read_bid(order: &serde_json::Value) -> (bid: Double)
    ensures
        bid == bid_of(*order),
        bid.finite(),
        number_fields(*order).contains_key("bid"@) ==> bid.bits == number_fields(*order)["bid"@],
        !number_fields(*order).contains_key("bid"@) ==> bid.bits == 0,
{
    bid_or_zero(number_field(order, "bid"))
}

/// Reads the priority of an order.
pub fn read_priority(order: &serde_json::Value) -> (priority: u64)
    ensures
        priority == priority_of(*order),
        unsigned_fields(*order).contains_key("priority"@) ==> priority == unsigned_fields(
            *order,
        )["priority"@],
        !unsigned_fields(*order).contains_key("priority"@) ==> priority
            == 0xffff_ffff_ffff_ffff,
{
    priority_or_last(unsigned_field(order, "priority"))
}

} // verus!
