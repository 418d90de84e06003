//! Filling the mempool with random intents, for demonstrations.
use vstd::prelude::*;

use crate::double::{Double, HUNDRED_BITS};
use crate::intent::{copy_strings, Intent, SubmitIntent, SubmitView};
use crate::mempool::AppState;
use crate::random::shuffle;
use crate::rejection::Rejection;
use crate::{intent, mempool};

verus! {

/// Five, the least profit that is drawn by default.
pub const FIVE_BITS: u64 = 0x4014_0000_0000_0000;

/// A hundred and twenty, the highest profit that is drawn by default.
pub const HUNDRED_TWENTY_BITS: u64 = 0x405e_0000_0000_0000;

/// What a client wants the mempool to be filled with.
#[derive(Debug)]
pub struct SeedRequest {
    pub count: i32,
    pub min_profit: Double,
    pub max_profit: Double,
    pub resource_pool: Option<Vec<String>>,
}

/// What chance gives for one intent: a profit within the range, and whether
/// it needs one resource or two.
#[derive(Clone, Copy, Debug)]
pub struct SeedDraw {
    pub profit: Double,
    pub single: bool,
}

/// How many intents are made where the request does not say.
pub fn default_seed_count() -> (n: i32)
    ensures
        n == 50,
{
    50
}

/// The least profit where the request does not say.
pub fn default_min_profit() -> (profit: Double)
    ensures
        profit == (Double { bits: FIVE_BITS }),
{
    Double { bits: FIVE_BITS }
}

/// The highest profit where the request does not say.
pub fn default_max_profit() -> (profit: Double)
    ensures
        profit == (Double { bits: HUNDRED_TWENTY_BITS }),
{
    Double { bits: HUNDRED_TWENTY_BITS }
}

/// The resources that are drawn from where the request names none.
pub open spec fn default_pool() -> Seq<Seq<char>> {
    seq![
        "pair:ETH/USDC"@,
        "pair:WBTC/ETH"@,
        "pair:SOL/USDC"@,
        "dex:uniswap"@,
        "dex:curve"@,
        "bridge:wormhole"@,
        "bridge:layerzero"@,
    ]
}

/// The resources that a request draws from.
pub open spec fn pool_of(req: SeedRequest) -> Seq<Seq<char>> {
    match req.resource_pool {
        Some(pool) => intent::texts(pool@),
        None => default_pool(),
    }
}

/// Why a request is turned down, if it is.
pub open spec fn seed_verdict(req: SeedRequest) -> Option<Rejection> {
    let zero = Double { bits: 0 };
    if req.count <= 0 {
        Some(Rejection::CountNotPositive)
    } else if req.min_profit.at_most(zero) || req.max_profit.at_most(zero) || req.max_profit.below(
        req.min_profit,
    ) {
        Some(Rejection::InvalidProfitRange)
    } else if pool_of(req).len() == 0 {
        Some(Rejection::EmptyResourcePool)
    } else {
        None
    }
}

/// A profit in whole cents.
pub open spec fn in_cents(profit: Double) -> Double {
    let hundred = Double { bits: HUNDRED_BITS };
    profit.product(hundred).whole().quotient(hundred)
}

/// The client under whose name the intent at a place is submitted.
pub open spec fn seed_client(i: int) -> Seq<char> {
    if i % 5 == 0 {
        "seed-0"@
    } else if i % 5 == 1 {
        "seed-1"@
    } else if i % 5 == 2 {
        "seed-2"@
    } else if i % 5 == 3 {
        "seed-3"@
    } else {
        "seed-4"@
    }
}

/// How many of the resources an intent takes.
pub open spec fn wanted(single: bool, available: nat) -> int {
    if single || available < 2 {
        if available < 1 {
            0
        } else {
            1
        }
    } else {
        2
    }
}

/// The submission at place `i` that a draw and the shuffled resources give.
pub open spec fn seeded(i: int, draw: SeedDraw, choices: Seq<Seq<char>>) -> SubmitView {
    SubmitView {
        profit: in_cents(draw.profit),
        resources: choices.take(wanted(draw.single, choices.len())),
        client_id: Some(seed_client(i)),
    }
}

/// The submission comes out of the draw and some order of the resources.
pub open spec fn seeded_from(s: SubmitView, i: int, draw: SeedDraw, pool: Seq<String>) -> bool {
    exists|choices: Seq<String>|
        choices.to_multiset() == pool.to_multiset() && s == seeded(
            i,
            draw,
            #[trigger] intent::texts(choices),
        )
}

/// The submissions come, one for one, out of the draws and some orders of the
/// resources.
pub open spec fn all_seeded(
    list: Seq<SubmitView>,
    draws: Seq<SeedDraw>,
    pool: Seq<String>,
) -> bool {
    &&& list.len() == draws.len()
    &&& forall|i: int|
        0 <= i < list.len() ==> seeded_from(#[trigger] list[i], i, draws[i], pool)
}

/// The name of the client at a place.
fn client_name(i: usize) -> (name: String)
    ensures
        name@ == seed_client(i as int),
{
    let name: &str = if i % 5 == 0 {
        "seed-0"
    } else if i % 5 == 1 {
        "seed-1"
    } else if i % 5 == 2 {
        "seed-2"
    } else if i % 5 == 3 {
        "seed-3"
    } else {
        "seed-4"
    };
    name.to_owned()
}

/// Makes the submission at place `i` out of a draw and shuffled resources.
pub fn make_seeded(i: usize, draw: SeedDraw, choices: &Vec<String>) -> (s: SubmitIntent)
    ensures
        s@ == seeded(i as int, draw, intent::texts(choices@)),
{
    let hundred: Double = Double { bits: HUNDRED_BITS };
    let count: usize = if draw.single || choices.len() < 2 {
        if choices.len() < 1 {
            0
        } else {
            1
        }
    } else {
        2
    };
    let mut picked: Vec<String> = Vec::new();
    let mut j: usize = 0;
    while j < count
        invariant
            j <= count <= choices@.len(),
            picked@.len() == j,
            forall|k: int| 0 <= k < j ==> #[trigger] picked@[k] == choices@[k],
        decreases count - j,
    {
        picked.push(choices[j].clone());
        j = j + 1;
    }
    assert(intent::texts(picked@) =~= intent::texts(choices@).take(count as int));
    SubmitIntent {
        profit: draw.profit.times(hundred).round().divided_by(hundred),
        resources: picked,
        client_id: Some(client_name(i)),
    }
}

/// Makes a submission out of every draw, with resources in random order.
fn make_all(pool: &Vec<String>, draws: &Vec<SeedDraw>) -> (list: Vec<SubmitIntent>)
    ensures
        all_seeded(intent::submissions(list@), draws@, pool@),
{
    let mut list: Vec<SubmitIntent> = Vec::new();
    let mut i: usize = 0;
    while i < draws.len()
        invariant
            i <= draws@.len(),
            list@.len() == i,
            forall|k: int|
                0 <= k < i ==> seeded_from(#[trigger] list@[k]@, k, draws@[k], pool@),
        decreases draws@.len() - i,
    {
        let mut choices: Vec<String> = copy_strings(pool);
        shuffle(&mut choices);
        let made: SubmitIntent = make_seeded(i, draws[i], &choices);
        assert(seeded_from(made@, i as int, draws@[i as int], pool@)) by {
            assert(made@ == seeded(i as int, draws@[i as int], intent::texts(choices@)));
        }
        list.push(made);
        i = i + 1;
    }
    assert forall|k: int| 0 <= k < list@.len() implies seeded_from(
        #[trigger] intent::submissions(list@)[k],
        k,
        draws@[k],
        pool@,
    ) by {
        assert(intent::submissions(list@)[k] == list@[k]@);
    }
    list
}

/// The default resources as strings.
fn make_default_pool() -> (pool: Vec<String>)
    ensures
        intent::texts(pool@) == default_pool(),
{
    let mut pool: Vec<String> = Vec::new();
    pool.push("pair:ETH/USDC".to_owned());
    pool.push("pair:WBTC/ETH".to_owned());
    pool.push("pair:SOL/USDC".to_owned());
    pool.push("dex:uniswap".to_owned());
    pool.push("dex:curve".to_owned());
    pool.push("bridge:wormhole".to_owned());
    pool.push("bridge:layerzero".to_owned());
    assert(intent::texts(pool@) =~= default_pool());
    pool
}

/// Checks a request, and gives the resources that it draws from.
pub fn check_seed(req: &SeedRequest) -> (r: Result<Vec<String>, Rejection>)
    ensures
        match seed_verdict(*req) {
            Some(why) => r == Err::<Vec<String>, Rejection>(why),
            None => r is Ok && intent::texts(r->Ok_0@) == pool_of(*req),
        },
{
    let zero: Double = Double { bits: 0 };
    if req.count <= 0 {
        return Err(Rejection::CountNotPositive);
    }
    if req.min_profit.is_at_most(zero) || req.max_profit.is_at_most(zero)
        || req.max_profit.is_below(req.min_profit) {
        return Err(Rejection::InvalidProfitRange);
    }
    let pool: Vec<String> = match &req.resource_pool {
        Some(given) => copy_strings(given),
        None => make_default_pool(),
    };
    assert(intent::texts(pool@).len() == pool@.len());
    if pool.len() == 0 {
        return Err(Rejection::EmptyResourcePool);
    }
    Ok(pool)
}

impl AppState {
    /// Submits as many intents as the request asks for, made out of the draws
    /// and of resources in random order.
    pub fn seed_mempool(&mut self, req: &SeedRequest, draws: &Vec<SeedDraw>) -> (r: Result<
        Vec<Intent>,
        Rejection,
    >)
        requires
            old(self).wf(),
            seed_verdict(*req) is None ==> draws@.len() == req.count,
        ensures
            final(self).wf(),
            match seed_verdict(*req) {
                Some(why) => r == Err::<Vec<Intent>, Rejection>(why) && *final(self) == *old(self),
                None => exists|pool: Seq<String>, list: Seq<SubmitView>|
                    intent::texts(pool) == pool_of(*req) && #[trigger] all_seeded(
                        list,
                        draws@,
                        pool,
                    ) && mempool::bulk_outcome(*old(self), list, *final(self), r),
            },
    {
        match check_seed(req) {
            Err(why) => Err(why),
            Ok(pool) => {
                let list: Vec<SubmitIntent> = make_all(&pool, draws);
                let ghost made = intent::submissions(list@);
                let r: Result<Vec<Intent>, Rejection> = self.submit_intents_bulk(list);
                assert(all_seeded(made, draws@, pool@));
                r
            },
        }
    }
}

} // verus!
