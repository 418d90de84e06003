//! Laws of seeding.
use vstd::arithmetic::power2::*;
use vstd::prelude::*;

use crate::double::{Double, HUNDRED_BITS};
use crate::intent::SubmitView;
use crate::laws::{amounts, mempool as mempool_laws, nearest, precision};
use crate::rejection::Rejection;
use crate::seed::{SeedDraw, SeedRequest};
use crate::rounding::HIDDEN_BIT;
use crate::{intent, mempool, rounding, seed};

verus! {

/// A seeded submission needs one resource or two, one where it was drawn to
/// need one, and all of them are in the pool.
pub proof fn resources_come_from_the_pool(
    s: SubmitView,
    i: int,
    draw: SeedDraw,
    pool: Seq<String>,
)
    requires
        seed::seeded_from(s, i, draw, pool),
        pool.len() > 0,
    ensures
        1 <= s.resources.len() <= 2,
        draw.single ==> s.resources.len() == 1,
        s.resources.len() <= pool.len(),
        forall|k: int|
            0 <= k < s.resources.len() ==> intent::texts(pool).contains(#[trigger] s.resources[k]),
{
    let choices = choose|choices: Seq<String>|
        choices.to_multiset() == pool.to_multiset() && s == seed::seeded(
            i,
            draw,
            #[trigger] intent::texts(choices),
        );
    choices.to_multiset_ensures();
    pool.to_multiset_ensures();
    assert forall|k: int| 0 <= k < s.resources.len() implies intent::texts(pool).contains(
        #[trigger] s.resources[k],
    ) by {
        assert(s.resources[k] == choices[k]@);
        assert(choices.contains(choices[k]));
        assert(pool.to_multiset().count(choices[k]) > 0);
        assert(pool.contains(choices[k]));
        let p = choose|p: int| 0 <= p < pool.len() && pool[p] == choices[k];
        assert(intent::texts(pool)[p] == s.resources[k]);
    }
}

/// Which requests are served: those that ask for an intent at least, between
/// two profits above zero in their order, out of a pool that is not empty.
pub proof fn which_requests_seed(req: SeedRequest)
    ensures
        ({
            let zero = Double { bits: 0 };
            let ranged = !req.min_profit.at_most(zero) && !req.max_profit.at_most(zero)
                && !req.max_profit.below(req.min_profit);
            let stocked = req.resource_pool matches Some(pool) ==> pool@.len() > 0;
            let why = seed::seed_verdict(req);
            &&& why is None <==> req.count > 0 && ranged && stocked
            &&& why == Some(Rejection::CountNotPositive) <==> req.count <= 0
            &&& why == Some(Rejection::InvalidProfitRange) <==> req.count > 0 && !ranged
            &&& why == Some(Rejection::EmptyResourcePool) <==> req.count > 0 && ranged && !stocked
        }),
{
}

/// What is drawn from: the pool of the request, each name in its place, or
/// seven names where it gives none.
pub proof fn what_is_drawn_from(req: SeedRequest, i: int)
    ensures
        req.resource_pool matches Some(pool) ==> {
            &&& seed::pool_of(req).len() == pool@.len()
            &&& 0 <= i < pool@.len() ==> seed::pool_of(req)[i] == pool@[i]@
        },
        req.resource_pool is None ==> {
            let names = seed::pool_of(req);
            &&& names.len() == 7
            &&& names[0] == "pair:ETH/USDC"@
            &&& names[1] == "pair:WBTC/ETH"@
            &&& names[2] == "pair:SOL/USDC"@
            &&& names[3] == "dex:uniswap"@
            &&& names[4] == "dex:curve"@
            &&& names[5] == "bridge:wormhole"@
            &&& names[6] == "bridge:layerzero"@
        },
{
}

/// The clients take turns: five names that end in 0 to 4.
pub proof fn clients_take_turns(i: int)
    requires
        0 <= i,
    ensures
        seed::seed_client(i) == "seed-"@.push("01234"@[i % 5]),
        seed::seed_client(i + 5) == seed::seed_client(i),
{
    reveal_strlit("seed-");
    reveal_strlit("01234");
    reveal_strlit("seed-0");
    reveal_strlit("seed-1");
    reveal_strlit("seed-2");
    reveal_strlit("seed-3");
    reveal_strlit("seed-4");
    assert(seed::seed_client(i) =~= "seed-"@.push("01234"@[i % 5]));
}

/// A value that a list holds twice stands at two places of it.
proof fn lemma_two_places(s: Seq<String>, v: String)
    requires
        s.to_multiset().count(v) >= 2,
    ensures
        exists|p: int, q: int|
            0 <= p < s.len() && 0 <= q < s.len() && p != q && #[trigger] s[p] == v && #[trigger] s[q]
                == v,
{
    s.to_multiset_ensures();
    assert(s.contains(v));
    let p = choose|p: int| 0 <= p < s.len() && s[p] == v;
    let rest = s.remove(p);
    rest.to_multiset_ensures();
    assert(rest.to_multiset() =~= s.to_multiset().remove(v));
    assert(rest.to_multiset().count(v) >= 1);
    assert(rest.contains(v));
    let k = choose|k: int| 0 <= k < rest.len() && rest[k] == v;
    let q = if k < p {
        k
    } else {
        k + 1
    };
    assert(s[q] == v);
    assert(s[p] == v && s[q] == v && p != q);
}

/// A seeded submission has its draw's profit in whole cents and the name of
/// the client whose turn it is.  It names one resource of the pool where it
/// was drawn to need one or the pool has no more, and else those at two
/// different places of the pool.
pub proof fn what_a_seeded_submission_holds(
    s: SubmitView,
    i: int,
    draw: SeedDraw,
    pool: Seq<String>,
) -> (at: (int, int))
    requires
        seed::seeded_from(s, i, draw, pool),
        pool.len() > 0,
        0 <= i,
    ensures
        ({
            let hundred = Double { bits: 0x4059_0000_0000_0000 };
            &&& s.profit == draw.profit.product(hundred).whole().quotient(hundred)
            &&& s.client_id == Some("seed-"@.push("01234"@[i % 5]))
            &&& s.resources.len() == (if draw.single || pool.len() == 1 {
                1nat
            } else {
                2nat
            })
            &&& 0 <= at.0 < pool.len()
            &&& s.resources[0] == pool[at.0]@
            &&& s.resources.len() == 2 ==> 0 <= at.1 < pool.len() && at.0 != at.1 && s.resources[1]
                == pool[at.1]@
        }),
{
    clients_take_turns(i);
    let choices = choose|choices: Seq<String>|
        choices.to_multiset() == pool.to_multiset() && s == seed::seeded(
            i,
            draw,
            #[trigger] intent::texts(choices),
        );
    choices.to_multiset_ensures();
    pool.to_multiset_ensures();
    assert(choices.len() == pool.len());
    let a = choices[0];
    assert(choices.contains(a));
    assert(pool.to_multiset().count(a) > 0);
    assert(pool.contains(a));
    let p = choose|p: int| 0 <= p < pool.len() && pool[p] == a;
    assert(s.resources[0] == intent::texts(choices)[0]);
    if s.resources.len() == 2 {
        let b = choices[1];
        assert(s.resources[1] == intent::texts(choices)[1]);
        assert(choices.contains(b));
        assert(pool.to_multiset().count(b) > 0);
        assert(pool.contains(b));
        if a == b {
            let rest = choices.remove(0);
            rest.to_multiset_ensures();
            assert(rest.to_multiset() =~= choices.to_multiset().remove(a));
            assert(rest[0] == b);
            assert(rest.contains(b));
            assert(rest.to_multiset().count(b) > 0);
            assert(choices.to_multiset().count(a) >= 2);
            lemma_two_places(pool, a);
            let (x, y) = choose|x: int, y: int|
                0 <= x < pool.len() && 0 <= y < pool.len() && x != y && #[trigger] pool[x] == a
                    && #[trigger] pool[y] == a;
            (x, y)
        } else {
            let q = choose|q: int| 0 <= q < pool.len() && pool[q] == b;
            (p, q)
        }
    } else {
        (p, p)
    }
}

/// Profits in whole cents are ordered as the profits are.
pub proof fn cents_keep_order(small: Double, large: Double)
    requires
        amounts::amount(small),
        small.at_most(large),
    ensures
        amounts::amount(seed::in_cents(small)),
        seed::in_cents(small).at_most(seed::in_cents(large)),
{
    let hundred = Double { bits: HUNDRED_BITS };
    amounts::products_keep_order(small, large, hundred);
    amounts::whole_numbers_keep_order(small.product(hundred), large.product(hundred));
    amounts::quotients_keep_order(
        small.product(hundred).whole(),
        large.product(hundred).whole(),
        hundred,
    );
}

/// A profit in whole cents lies within half a cent of the profit, but for
/// rounding: by no more than a `2^51`th of a cent and of the profit.
pub proof fn cents_are_near(profit: Double)
    requires
        amounts::amount(profit),
        !profit.negative(),
        profit.finite(),
        profit.product(Double { bits: HUNDRED_BITS }).finite(),
    ensures
        ({
            let v = profit.value();
            let c = seed::in_cents(profit).value();
            200 * HIDDEN_BIT * nearest::apart(c, v) <= (HIDDEN_BIT + 2) * nearest::one() + 300 * v
        }),
{
    let hundred = Double { bits: HUNDRED_BITS };
    let o = nearest::one();
    let h = HIDDEN_BIT as int;
    lemma_pow2_pos(1074);
    lemma_hundred();
    assert(rounding::units(0) == 0);
    rounding::lemma_units_increase(0, profit.magnitude());
    let v = profit.value();
    let product = profit.product(hundred);
    let num = v * (100 * o);
    assert(num >= 0) by (nonlinear_arith)
        requires
            num == v * (100 * o),
            v >= 0,
            o > 0,
    ;
    rounding::lemma_nearest_exists(num, o);
    rounding::lemma_units_increase(0, product.magnitude());
    precision::rounding_error(num, o);
    let x = product.value();
    assert(x == rounding::units(product.magnitude()));
    assert(2 * h * (x - 100 * v) <= precision::larger(100 * v, h) && 2 * h * (100 * v - x)
        <= precision::larger(100 * v, h)) by {
        assert(num == (100 * v) * o) by (nonlinear_arith)
            requires
                num == v * (100 * o),
        ;
        lemma_scaled_down(x, 100 * v, o, h);
    }
    nearest::whole_numbers_are_the_nearest(product);
    let whole = product.whole();
    let w = whole.value();
    assert(!whole.negative());
    rounding::lemma_units_increase(0, whole.magnitude());
    let over = w * o;
    assert(over >= 0) by (nonlinear_arith)
        requires
            over == w * o,
            w >= 0,
            o > 0,
    ;
    let cents = seed::in_cents(profit);
    let den = 100 * o;
    rounding::lemma_nearest_exists(over, den);
    // Dividing by a hundred does not reach infinity.
    assert(rounding::rounded(over, den) <= whole.magnitude()) by {
        rounding::lemma_rounded_exact(whole.magnitude(), w, 1);
        assert(over * 1 <= w * den) by (nonlinear_arith)
            requires
                over == w * o,
                den == 100 * o,
                w >= 0,
                o > 0,
        ;
        rounding::lemma_rounded_ordered(over, den, w, 1);
    }
    precision::rounding_error(over, den);
    rounding::lemma_units_increase(0, cents.magnitude());
    let c = cents.value();
    assert(c == rounding::units(cents.magnitude()));
    assert(2 * h * (100 * c - w) <= precision::larger(w, 100 * h) && 2 * h * (w - 100 * c)
        <= precision::larger(w, 100 * h)) by {
        assert(c * den == (100 * c) * o) by (nonlinear_arith)
            requires
                den == 100 * o,
        ;
        assert(h * den == (100 * h) * o) by (nonlinear_arith)
            requires
                den == 100 * o,
        ;
        lemma_scaled_down(100 * c, w, o, 100 * h);
    }
    assert(o >= 200 * h) by {
        lemma2_to64();
        lemma2_to64_rest();
        lemma_pow2_strictly_increases(62, 1074);
    }
    lemma_half_a_cent(o, v, x, w, c, nearest::apart(c, v));
}

/// A hundred is worth a hundred ones.
proof fn lemma_hundred()
    ensures
        rounding::units(HUNDRED_BITS as int) == 100 * nearest::one(),
{
    let h = HIDDEN_BIT as int;
    assert(HUNDRED_BITS as int / h == 0x405);
    assert(HUNDRED_BITS as int % h == 0x9_0000_0000_0000);
    lemma_pow2_adds(46, 1028);
    lemma2_to64();
    lemma2_to64_rest();
    let g = pow2(1028) as int;
    assert(0x19_0000_0000_0000 * g == 100 * (0x4000_0000_0000 * g)) by (nonlinear_arith);
}

/// A bound on multiples of one is a bound on what they are multiples of.
proof fn lemma_scaled_down(got: int, exact: int, o: int, least: int)
    requires
        o > 0,
        2 * HIDDEN_BIT * (got * o - exact * o) <= precision::larger(exact * o, least * o),
        2 * HIDDEN_BIT * (exact * o - got * o) <= precision::larger(exact * o, least * o),
    ensures
        2 * HIDDEN_BIT * (got - exact) <= precision::larger(exact, least),
        2 * HIDDEN_BIT * (exact - got) <= precision::larger(exact, least),
{
    let h = HIDDEN_BIT as int;
    let most = precision::larger(exact, least);
    assert(precision::larger(exact * o, least * o) == most * o) by (nonlinear_arith)
        requires
            o > 0,
            most == (if exact < least {
                least
            } else {
                exact
            }),
            precision::larger(exact * o, least * o) == (if exact * o < least * o {
                least * o
            } else {
                exact * o
            }),
    ;
    assert(2 * h * (got - exact) <= most && 2 * h * (exact - got) <= most) by (nonlinear_arith)
        requires
            o > 0,
            2 * h * (got * o - exact * o) <= most * o,
            2 * h * (exact * o - got * o) <= most * o,
    ;
}

/// Three roundings, added up.
proof fn lemma_half_a_cent(o: int, v: int, x: int, w: int, c: int, d: int)
    requires
        o >= 200 * HIDDEN_BIT,
        v >= 0,
        w >= 0,
        2 * HIDDEN_BIT * (x - 100 * v) <= precision::larger(100 * v, HIDDEN_BIT as int),
        2 * HIDDEN_BIT * (100 * v - x) <= precision::larger(100 * v, HIDDEN_BIT as int),
        2 * nearest::apart(w, x) <= o,
        2 * HIDDEN_BIT * (100 * c - w) <= precision::larger(w, 100 * HIDDEN_BIT),
        2 * HIDDEN_BIT * (w - 100 * c) <= precision::larger(w, 100 * HIDDEN_BIT),
        d == nearest::apart(c, v),
    ensures
        200 * HIDDEN_BIT * d <= (HIDDEN_BIT + 2) * o + 300 * v,
{
    let h = HIDDEN_BIT as int;
    assert(h == 0x10_0000_0000_0000);
    let e1 = precision::larger(100 * v, h);
    let e2 = precision::larger(w, 100 * h);
    assert(e1 <= 100 * v + h);
    assert(e2 <= w + 100 * h);
    let a = 2 * h * (x - 100 * v);
    let b = 2 * h * (w - x);
    let e = 2 * h * (100 * c - w);
    let hv = h * v;
    let ho = h * o;
    let hx = h * x;
    let hw = h * w;
    let hc = h * c;
    assert(a == 2 * hx - 200 * hv && b == 2 * hw - 2 * hx && e == 200 * hc - 2 * hw) by (nonlinear_arith)
        requires
            a == 2 * h * (x - 100 * v),
            b == 2 * h * (w - x),
            e == 2 * h * (100 * c - w),
            hv == h * v,
            hx == h * x,
            hw == h * w,
            hc == h * c,
    ;
    assert(-(100 * v + h) <= a <= 100 * v + h) by (nonlinear_arith)
        requires
            a == 2 * h * (x - 100 * v),
            2 * h * (x - 100 * v) <= 100 * v + h,
            2 * h * (100 * v - x) <= 100 * v + h,
    ;
    assert(-ho <= b <= ho) by (nonlinear_arith)
        requires
            b == 2 * h * (w - x),
            ho == h * o,
            h > 0,
            2 * (w - x) <= o,
            2 * (x - w) <= o,
    ;
    assert(-(w + 100 * h) <= e <= w + 100 * h) by (nonlinear_arith)
        requires
            e == 2 * h * (100 * c - w),
            2 * h * (100 * c - w) <= w + 100 * h,
            2 * h * (w - 100 * c) <= w + 100 * h,
    ;
    assert(w <= 200 * v + o) by (nonlinear_arith)
        requires
            2 * hw <= 2 * hx + ho,
            2 * hx <= 200 * hv + 100 * v + h,
            hw == h * w,
            hv == h * v,
            ho == h * o,
            h == 0x10_0000_0000_0000,
            v >= 0,
            o >= 200 * h,
    ;
    assert(200 * h * d == 200 * hc - 200 * hv || 200 * h * d == 200 * hv - 200 * hc) by (nonlinear_arith)
        requires
            d == c - v || d == v - c,
            hc == h * c,
            hv == h * v,
    ;
    assert((h + 2) * o == ho + 2 * o) by (nonlinear_arith)
        requires
            ho == h * o,
    ;
}

/// A seeded profit lies between the least and the highest profit of the
/// request, all three in whole cents.
pub proof fn profits_lie_in_range(
    s: SubmitView,
    i: int,
    draw: SeedDraw,
    pool: Seq<String>,
    least: Double,
    highest: Double,
)
    requires
        seed::seeded_from(s, i, draw, pool),
        amounts::amount(least),
        least.at_most(draw.profit),
        draw.profit.at_most(highest),
    ensures
        seed::in_cents(least).at_most(s.profit),
        s.profit.at_most(seed::in_cents(highest)),
{
    cents_keep_order(least, draw.profit);
    cents_keep_order(draw.profit, highest);
}

/// Seeding admits every submission where the least profit of the request is
/// above zero in whole cents.
pub proof fn seeding_succeeds(
    list: Seq<SubmitView>,
    draws: Seq<SeedDraw>,
    pool: Seq<String>,
    least: Double,
)
    requires
        seed::all_seeded(list, draws, pool),
        pool.len() > 0,
        seed::in_cents(least).positive(),
        amounts::amount(least),
        forall|i: int| 0 <= i < draws.len() ==> least.at_most((#[trigger] draws[i]).profit),
    ensures
        mempool::leading(list) == draws.len(),
{
    assert forall|i: int| 0 <= i < list.len() implies mempool::verdict(#[trigger] list[i])
        is None by {
        assert(seed::seeded_from(list[i], i, draws[i], pool));
        resources_come_from_the_pool(list[i], i, draws[i], pool);
        assert(least.at_most(draws[i].profit));
        cents_keep_order(least, draws[i].profit);
    }
    mempool_laws::all_pass_together(list);
}

} // verus!
