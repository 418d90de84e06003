//! What callers are answered and observers are told.
use vstd::prelude::*;

use crate::events::Event;
use crate::rejection::Rejection;
use crate::{auth, order, shim};

verus! {

/// A key opens the protected routes exactly if it is the one that is
/// configured; where none is, every request passes.
pub proof fn which_keys_open(expected: Option<Seq<char>>, provided: Option<Seq<char>>)
    ensures
        expected is None ==> auth::opens(expected, provided),
        expected matches Some(key) ==> (auth::opens(expected, provided) <==> provided is Some
            && provided->Some_0 == key),
{
}

/// Which status a refusal has: 413 for too many intents, 401 for a wrong key,
/// 404 for what is not found, and 400 for all else.
pub proof fn which_status_a_refusal_has(why: Rejection)
    ensures
        why.status_code() == 413 <==> why == Rejection::TooManyIntents,
        why.status_code() == 401 <==> why == Rejection::InvalidApiKey,
        why.status_code() == 404 <==> why == Rejection::OrderNotFound || why
            == Rejection::JobNotFound,
        why.status_code() == 400 || why.status_code() == 413 || why.status_code() == 401
            || why.status_code() == 404,
{
}

/// A span is marked as failed exactly for what is wrong with an intent, with
/// a bulk of them or with the terms of a block; the other refusals leave no
/// mark.
pub proof fn which_refusals_mark_a_span(why: Rejection)
    ensures
        why.span_text() is Some <==> why == Rejection::ProfitNotPositive || why
            == Rejection::NoResources || why == Rejection::TooManyResources || why
            == Rejection::NoIntents || why == Rejection::TooManyIntents || why
            == Rejection::UnknownAlgorithm || why == Rejection::FeeRateOutOfRange,
{
}

/// Two refusals that are not the same tell the caller different details.
pub proof fn details_tell_refusals_apart(a: Rejection, b: Rejection)
    requires
        a.detail_text() == b.detail_text(),
    ensures
        a == b,
{
    reveal_strlit("profit must be positive");
    reveal_strlit("resources must be non-empty");
    reveal_strlit("too many resources");
    reveal_strlit("intents must be non-empty");
    reveal_strlit("too many intents");
    reveal_strlit("algorithm must be 'fifo' or 'greedy'");
    reveal_strlit("fee_rate must be between 0.0 and 1.0");
    reveal_strlit("count must be positive");
    reveal_strlit("invalid profit range");
    reveal_strlit("resource pool must be non-empty");
    reveal_strlit("invalid API key");
    reveal_strlit("not found");
    reveal_strlit("job not found");
    let s = a.detail_text();
    let t = b.detail_text();
    assert(s.len() == t.len());
    assert(s[0] == t[0]);
}

/// Every event belongs to a trace but the end of a background proof and the
/// shutdown.
pub proof fn which_events_are_traced(event: Event)
    ensures
        event.is_traced() <==> !(event is ZkJobDone || event is Shutdown),
{
}

/// An answer is a success from 200 on and below 300.
pub proof fn which_answers_succeed(status: u16)
    ensures
        shim::is_success(status) <==> status / 100 == 2,
{
}

/// What is read of an order: the number of its bid, and nothing bid without
/// one; the number of its priority, and the last place without one.
pub proof fn what_is_read_of_an_order(value: serde_json::Value)
    ensures
        order::number_fields(value).contains_key("bid"@) ==> order::bid_of(value).bits
            == order::number_fields(value)["bid"@],
        !order::number_fields(value).contains_key("bid"@) ==> order::bid_of(value).bits == 0,
        order::unsigned_fields(value).contains_key("priority"@) ==> order::priority_of(value)
            == order::unsigned_fields(value)["priority"@],
        !order::unsigned_fields(value).contains_key("priority"@) ==> order::priority_of(value)
            == 0xffff_ffff_ffff_ffff,
{
}

} // verus!
