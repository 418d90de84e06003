//! The shim between a consensus engine and the server: where it forwards a
//! request to, and what it makes of the answer.
use vstd::prelude::*;

verus! {

/// What came of a request that was forwarded.
#[derive(Debug)]
pub enum Upstream<B> {
    /// The server could not be reached.
    Unreachable(String),
    /// The server answered, but the body could not be read.
    Unreadable(String),
    /// The server answered.
    Answered { status: u16, body: B },
}

/// The server that requests go to: the one that is set, or the local one.
pub fn target_base(var: Option<&str>) -> (base: String)
    ensures
        match var {
            Some(set) => base@ == set@,
            None => base@ == "http://127.0.0.1:8080"@,
        },
{
    match var {
        Some(set) => set.to_owned(),
        None => "http://127.0.0.1:8080".to_owned(),
    }
}

/// Where a request to prepare a proposal goes.
pub fn prepare_url(base: &str) -> (url: String)
    ensures
        url@ == base@ + "/abci/prepare_proposal"@,
{
    let mut url: String = base.to_owned();
    url.append("/abci/prepare_proposal");
    url
}

/// Where a request to process a proposal goes.
pub fn process_url(base: &str) -> (url: String)
    ensures
        url@ == base@ + "/abci/process_proposal"@,
{
    let mut url: String = base.to_owned();
    url.append("/abci/process_proposal");
    url
}

/// The status code tells of success.
pub open spec fn is_success(status: u16) -> bool {
    200 <= status < 300
}

/// What the caller of the shim is answered: the body of a successful answer;
/// 502 with the cause where there is no readable answer; and the status of an
/// answer that tells of no success.
pub fn relay<B>(up: Upstream<B>) -> (r: Result<B, (u16, String)>)
    ensures
        match up {
            Upstream::Unreachable(why) => r == Err::<B, (u16, String)>((502, why)),
            Upstream::Unreadable(why) => r == Err::<B, (u16, String)>((502, why)),
            Upstream::Answered { status, body } => if is_success(status) {
                r == Ok::<B, (u16, String)>(body)
            } else {
                r is Err && r->Err_0.0 == status && r->Err_0.1@ == "upstream error"@
            },
        },
        r is Ok <==> (up matches Upstream::Answered { status, body } && status / 100 == 2),
{
    match up {
        Upstream::Unreachable(why) => Err((502, why)),
        Upstream::Unreadable(why) => Err((502, why)),
        Upstream::Answered { status, body } => if 200 <= status && status < 300 {
            Ok(body)
        } else {
            Err((status, "upstream error".to_owned()))
        },
    }
}

} // verus!
