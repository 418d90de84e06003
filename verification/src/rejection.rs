//! Why a request is turned down.
use vstd::prelude::*;

verus! {

#[derive(Clone, Copy, Debug, PartialEq, Eq, Structural)]
pub enum Rejection {
    ProfitNotPositive,
    NoResources,
    TooManyResources,
    NoIntents,
    TooManyIntents,
    UnknownAlgorithm,
    FeeRateOutOfRange,
    CountNotPositive,
    InvalidProfitRange,
    EmptyResourcePool,
    InvalidApiKey,
    OrderNotFound,
    JobNotFound,
}

impl Rejection {
    /// The status code of the answer.
    pub open spec fn status_code(self) -> u16 {
        match self {
            Rejection::TooManyIntents => 413,
            Rejection::InvalidApiKey => 401,
            Rejection::OrderNotFound => 404,
            Rejection::JobNotFound => 404,
            _ => 400,
        }
    }

    /// The detail that the answer gives.
    pub open spec fn detail_text(self) -> Seq<char> {
        match self {
            Rejection::ProfitNotPositive => "profit must be positive"@,
            Rejection::NoResources => "resources must be non-empty"@,
            Rejection::TooManyResources => "too many resources"@,
            Rejection::NoIntents => "intents must be non-empty"@,
            Rejection::TooManyIntents => "too many intents"@,
            Rejection::UnknownAlgorithm => "algorithm must be 'fifo' or 'greedy'"@,
            Rejection::FeeRateOutOfRange => "fee_rate must be between 0.0 and 1.0"@,
            Rejection::CountNotPositive => "count must be positive"@,
            Rejection::InvalidProfitRange => "invalid profit range"@,
            Rejection::EmptyResourcePool => "resource pool must be non-empty"@,
            Rejection::InvalidApiKey => "invalid API key"@,
            Rejection::OrderNotFound => "not found"@,
            Rejection::JobNotFound => "job not found"@,
        }
    }

    /// The message that marks the active span as failed, if it is marked.
    pub open spec fn span_text(self) -> Option<Seq<char>> {
        match self {
            Rejection::ProfitNotPositive => Some("profit must be positive"@),
            Rejection::NoResources => Some("resources must be non-empty"@),
            Rejection::TooManyResources => Some("too many resources for one intent"@),
            Rejection::NoIntents => Some("intents must be non-empty"@),
            Rejection::TooManyIntents => Some("too many intents in bulk request"@),
            Rejection::UnknownAlgorithm => Some("invalid algorithm"@),
            Rejection::FeeRateOutOfRange => Some("invalid fee_rate"@),
            _ => None,
        }
    }

    pub fn status(self) -> (code: u16)
        ensures
            code == self.status_code(),
    {
        match self {
            Rejection::TooManyIntents => 413,
            Rejection::InvalidApiKey => 401,
            Rejection::OrderNotFound => 404,
            Rejection::JobNotFound => 404,
            _ => 400,
        }
    }

    pub fn detail(self) -> (text: &'static str)
        ensures
            text@ == self.detail_text(),
    {
        match self {
            Rejection::ProfitNotPositive => "profit must be positive",
            Rejection::NoResources => "resources must be non-empty",
            Rejection::TooManyResources => "too many resources",
            Rejection::NoIntents => "intents must be non-empty",
            Rejection::TooManyIntents => "too many intents",
            Rejection::UnknownAlgorithm => "algorithm must be 'fifo' or 'greedy'",
            Rejection::FeeRateOutOfRange => "fee_rate must be between 0.0 and 1.0",
            Rejection::CountNotPositive => "count must be positive",
            Rejection::InvalidProfitRange => "invalid profit range",
            Rejection::EmptyResourcePool => "resource pool must be non-empty",
            Rejection::InvalidApiKey => "invalid API key",
            Rejection::OrderNotFound => "not found",
            Rejection::JobNotFound => "job not found",
        }
    }

    pub fn span_message(self) -> (message: Option<&'static str>)
        ensures
            match message {
                Some(m) => self.span_text() == Some(m@),
                None => self.span_text() is None,
            },
    {
        match self {
            Rejection::ProfitNotPositive => Some("profit must be positive"),
            Rejection::NoResources => Some("resources must be non-empty"),
            Rejection::TooManyResources => Some("too many resources for one intent"),
            Rejection::NoIntents => Some("intents must be non-empty"),
            Rejection::TooManyIntents => Some("too many intents in bulk request"),
            Rejection::UnknownAlgorithm => Some("invalid algorithm"),
            Rejection::FeeRateOutOfRange => Some("invalid fee_rate"),
            _ => None,
        }
    }
}

} // verus!
