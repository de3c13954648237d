//! Tick normalization and price-zone calculations.

use vstd::prelude::*;

use vstd::arithmetic::div_mod::{lemma_fundamental_div_mod, lemma_mod_multiples_basic};

use crate::{pow10, FinancialError, FinancialResult};

verus! {

/// What tick normalization computes: the nearest multiple of `tick`,
/// with half-to-even rounding at the midpoint. A price already on the
/// grid is returned unchanged.
pub open spec fn spec_normalize_tick(price: u128, tick: nat) -> int {
    let rem = price as int % tick as int;
    let base = price - rem;
    if rem == 0 {
        price as int
    } else if rem > tick / 2 {
        base + tick
    } else if rem == tick / 2 {
        if (base / tick as int) % 2 == 0 {
            base
        } else {
            base + tick
        }
    } else {
        base
    }
}

/// The normalized price is a multiple of the tick.
pub proof fn lemma_normalize_on_grid(price: u128, tick: nat)
    requires
        tick > 0,
    ensures
        spec_normalize_tick(price, tick) % tick as int == 0,
{
    let t = tick as int;
    let rem = price as int % t;
    let q = price as int / t;
    lemma_fundamental_div_mod(price as int, t);
    assert(price - rem == q * t);
    lemma_mod_multiples_basic(q, t);
    lemma_mod_multiples_basic(q + 1, t);
    assert((q + 1) * t == q * t + t) by (nonlinear_arith);
}

/// Normalizing twice is the same as normalizing once: the first result
/// lies on the tick grid, so the second pass returns it unchanged.
pub proof fn lemma_normalize_idempotent(price: u128, tick: nat)
    requires
        tick > 0,
        spec_normalize_tick(price, tick) <= u128::MAX,
    ensures
        spec_normalize_tick(spec_normalize_tick(price, tick) as u128, tick) == spec_normalize_tick(
            price,
            tick,
        ),
{
    lemma_normalize_on_grid(price, tick);
    let r = spec_normalize_tick(price, tick);
    assert(0 <= price as int % tick as int <= price as int) by (nonlinear_arith)
        requires
            tick > 0,
    ;
    assert(r >= 0);
    assert((r as u128) as int % tick as int == 0);
}

/// Normalize a scaled price to the tick grid, rounding half to even.
/// A zero tick is rejected with `DivisionByZero`.
pub fn normalize_price_to_tick(price: u128, tick_size: u128) -> (r: FinancialResult<u128>)
    requires
        tick_size > 0 ==> spec_normalize_tick(price, tick_size as nat) <= u128::MAX,
    ensures
        tick_size == 0 ==> r == FinancialResult::<u128>::Err(FinancialError::DivisionByZero),
        tick_size != 0 ==> r == FinancialResult::<u128>::Ok(
            spec_normalize_tick(price, tick_size as nat) as u128,
        ),
{
    if tick_size == 0 {
        return Err(FinancialError::DivisionByZero);
    }

    let remainder = price % tick_size;
    proof {
        assert(remainder <= price) by (nonlinear_arith)
            requires
                tick_size > 0,
                remainder == price % tick_size,
        ;
    }
    if remainder == 0 {
        return Ok(price);
    }

    let half_tick = tick_size / 2;
    if remainder > half_tick {
        Ok(price - remainder + tick_size)
    } else if remainder == half_tick {
        let base = price - remainder;
        if (base / tick_size) % 2 == 0 {
            Ok(base)
        } else {
            Ok(base + tick_size)
        }
    } else {
        Ok(price - remainder)
    }
}

/// The zone containing a price: `floor(price / zone) * zone`, where the
/// zone width is `zone_ticks` whole ticks at `price_precision` decimal
/// places. Zero ticks are rejected with `InvalidValue`.
pub fn calculate_zone(price: u128, zone_ticks: u128, price_precision: u32) -> (r: FinancialResult<
    u128,
>)
    requires
        price_precision <= 38,
        zone_ticks * pow10(price_precision as nat) <= u128::MAX,
    ensures
        zone_ticks == 0 ==> r == FinancialResult::<u128>::Err(FinancialError::InvalidValue),
        zone_ticks != 0 ==> {
            let tick = zone_ticks * pow10(price_precision as nat);
            r == FinancialResult::<u128>::Ok(((price as int / tick) * tick) as u128)
        },
{
    if zone_ticks == 0 {
        return Err(FinancialError::InvalidValue);
    }

    let multiplier = crate::pow10_u128(price_precision);
    proof {
        crate::lemma_pow10_positive(price_precision as nat);
    }
    let tick_size = zone_ticks * multiplier;
    proof {
        assert(tick_size >= 1) by (nonlinear_arith)
            requires
                tick_size == zone_ticks * multiplier,
                zone_ticks >= 1,
                multiplier >= 1,
        ;
    }

    let quotient = price / tick_size;
    proof {
        assert(quotient * tick_size <= price) by (nonlinear_arith)
            requires
                tick_size > 0,
                quotient == price / tick_size,
        ;
    }
    let zone = quotient * tick_size;
    Ok(zone)
}

/// Normalize a price to the tick grid; an alias for
/// `normalize_price_to_tick` kept for zone-based callers.
pub fn price_to_zone(price: u128, tick_size: u128) -> (r: FinancialResult<u128>)
    requires
        tick_size > 0 ==> spec_normalize_tick(price, tick_size as nat) <= u128::MAX,
    ensures
        tick_size == 0 ==> r == FinancialResult::<u128>::Err(FinancialError::DivisionByZero),
        tick_size != 0 ==> r == FinancialResult::<u128>::Ok(
            spec_normalize_tick(price, tick_size as nat) as u128,
        ),
{
    normalize_price_to_tick(price, tick_size)
}

/// Whether a price lies in the inclusive zone `[zone_min, zone_max]`.
pub fn is_price_in_zone(price: u128, zone_min: u128, zone_max: u128) -> (r: bool)
    ensures
        r == (zone_min <= price && price <= zone_max),
{
    price >= zone_min && price <= zone_max
}

/// The inclusive-exclusive zone `[start, start + zone_size)` containing
/// a price, with `start = floor(price / zone_size) * zone_size`.
pub fn calculate_zone_boundaries(price: u128, zone_size: u128) -> (r: FinancialResult<
    (u128, u128),
>)
    requires
        zone_size > 0 ==> (price as int / zone_size as int) * zone_size + zone_size <= u128::MAX,
    ensures
        zone_size == 0 ==> r == FinancialResult::<(u128, u128)>::Err(FinancialError::InvalidValue),
        zone_size != 0 ==> {
            let start = (price as int / zone_size as int) * zone_size;
            r == FinancialResult::<(u128, u128)>::Ok(
                (start as u128, (start + zone_size) as u128),
            )
        },
{
    if zone_size == 0 {
        return Err(FinancialError::InvalidValue);
    }

    let quotient = price / zone_size;
    proof {
        assert(quotient * zone_size <= price) by (nonlinear_arith)
            requires
                zone_size > 0,
                quotient == price / zone_size,
        ;
    }
    let zone_start = quotient * zone_size;
    let zone_end = zone_start + zone_size;

    Ok((zone_start, zone_end))
}

/// Whether position `i` of `s` is a local extremum: strictly above or
/// strictly below both neighbours.
pub open spec fn is_local_extremum(s: Seq<u128>, i: int) -> bool {
    &&& 1 <= i < s.len() - 1
    &&& ((s[i] > s[i - 1] && s[i] > s[i + 1]) || (s[i] < s[i - 1] && s[i] < s[i + 1]))
}

/// Whether `v` occurs at some local extremum of `s`.
pub open spec fn is_extremum_value(s: Seq<u128>, v: u128) -> bool {
    exists|i: int| is_local_extremum(s, i) && s[i] == v
}

/// Insert a value into a strictly sorted vector, keeping it strictly
/// sorted and unique; a value already present is left alone.
fn insert_unique_sorted(v: &mut Vec<u128>, x: u128)
    requires
        forall|p: int, q: int| 0 <= p < q < old(v)@.len() ==> old(v)@[p] < old(v)@[q],
    ensures
        forall|p: int, q: int| 0 <= p < q < final(v)@.len() ==> final(v)@[p] < final(v)@[q],
        forall|y: u128| final(v)@.contains(y) <==> (old(v)@.contains(y) || y == x),
{
    let mut i: usize = 0;
    while i < v.len() && v[i] < x
        invariant
            i <= v@.len(),
            forall|p: int, q: int| 0 <= p < q < v@.len() ==> v@[p] < v@[q],
            v@ == old(v)@,
            forall|p: int| 0 <= p < i ==> v@[p] < x,
        decreases v@.len() - i,
    {
        i = i + 1;
    }

    if i < v.len() && v[i] == x {
        proof {
            assert(v@.contains(x));
        }
        return ;
    }

    v.insert(i, x);

    proof {
        let old_s = old(v)@;
        let new_s = v@;
        assert forall|y: u128| new_s.contains(y) implies (old_s.contains(y) || y == x) by {
            let j = choose|j: int| 0 <= j < new_s.len() && new_s[j] == y;
            if j < i {
                assert(old_s[j] == y);
            } else if j > i {
                assert(old_s[j - 1] == y);
            }
        }
        assert forall|y: u128| old_s.contains(y) implies new_s.contains(y) by {
            let j = choose|j: int| 0 <= j < old_s.len() && old_s[j] == y;
            if j < i {
                assert(new_s[j] == y);
            } else {
                assert(new_s[j + 1] == y);
            }
        }
        assert(new_s.contains(x)) by {
            assert(new_s[i as int] == x);
        }
    }
}

/// The smallest distinct local-extremum values of a price history, at
/// most `num_levels` of them, in strictly increasing order. An empty
/// history or a zero level count is rejected with `InvalidValue`.
pub fn calculate_support_resistance(prices: &Vec<u128>, num_levels: usize) -> (r: FinancialResult<
    Vec<u128>,
>)
    ensures
        (prices@.len() == 0 || num_levels == 0) <==> r is Err,
        r is Err ==> r == FinancialResult::<Vec<u128>>::Err(FinancialError::InvalidValue),
        r is Ok ==> {
            let out = r->Ok_0@;
            &&& out.len() <= num_levels
            &&& (forall|p: int, q: int| 0 <= p < q < out.len() ==> out[p] < out[q])
            &&& (forall|j: int| 0 <= j < out.len() ==> is_extremum_value(prices@, out[j]))
            &&& (forall|y: u128|
                is_extremum_value(prices@, y) && out.len() > 0 && y <= out[out.len() - 1]
                    ==> out.contains(y))
            &&& (out.len() < num_levels ==> forall|y: u128|
                is_extremum_value(prices@, y) ==> out.contains(y))
        },
{
    if prices.len() == 0 || num_levels == 0 {
        return Err(FinancialError::InvalidValue);
    }

    let mut levels: Vec<u128> = Vec::new();

    if prices.len() >= 2 {
        let mut i: usize = 1;
        while i < prices.len() - 1
            invariant
                1 <= i <= prices@.len() - 1,
                prices@.len() >= 2,
                forall|p: int, q: int| 0 <= p < q < levels@.len() ==> levels@[p] < levels@[q],
                forall|y: u128|
                    levels@.contains(y) <==> exists|j: int|
                        1 <= j < i && is_local_extremum(prices@, j) && prices@[j] == y,
            decreases prices@.len() - i,
        {
            let prev = prices[i - 1];
            let curr = prices[i];
            let next = prices[i + 1];

            if (curr > prev && curr > next) || (curr < prev && curr < next) {
                insert_unique_sorted(&mut levels, curr);
                proof {
                    assert(is_local_extremum(prices@, i as int));
                }
            }
            i = i + 1;

            proof {
                assert forall|y: u128| levels@.contains(y) implies exists|j: int|
                    1 <= j < i && is_local_extremum(prices@, j) && prices@[j] == y by {
                }
            }
        }
    }

    proof {
        assert forall|y: u128| is_extremum_value(prices@, y) implies levels@.contains(y) by {
            let j = choose|j: int| is_local_extremum(prices@, j) && prices@[j] == y;
            assert(1 <= j < prices@.len() - 1);
        }
    }

    let ghost ls = levels@;
    levels.truncate(num_levels);

    proof {
        let outs = levels@;
        assert forall|y: u128|
            is_extremum_value(prices@, y) && outs.len() > 0 && y <= outs[outs.len() - 1]
                implies outs.contains(y) by {
            assert(ls.contains(y));
            let j = choose|j: int| 0 <= j < ls.len() && ls[j] == y;
            if j >= outs.len() {
                assert(ls[outs.len() - 1] == outs[outs.len() - 1]);
                assert(ls[outs.len() - 1] < ls[j]);
                assert(false);
            }
            assert(0 <= j < outs.len() && outs[j] == y);
        }
        assert forall|y: u128|
            outs.len() < num_levels && is_extremum_value(prices@, y) implies outs.contains(y) by {
            assert(outs.len() == ls.len());
            assert(ls.contains(y));
            let j = choose|j: int| 0 <= j < ls.len() && ls[j] == y;
            assert(outs[j] == y);
        }
        assert forall|j: int| 0 <= j < outs.len() implies is_extremum_value(
            prices@,
            outs[j],
        ) by {
            assert(outs[j] == ls[j]);
            assert(ls.contains(ls[j]));
        }
    }

    Ok(levels)
}

} // verus!
