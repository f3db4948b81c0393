//! Median price aggregation over several oracle sources, with staleness and
//! outlier rejection.
use vstd::prelude::*;
use vstd::relations::{sorted_by, total_ordering};

verus! {

broadcast use vstd::seq_lib::group_to_multiset_ensures;

/// Reasons for which a price aggregation is refused.
#[derive(Copy, Clone, Debug, PartialEq, Eq, Structural)]
pub enum Error {
    NotEnoughSources,
    NotEnoughValidPrices,
    NotEnoughReliableSources,
    InvalidPrice,
    /// Fewer than three non-stale oracle records were available.
    OracleStaleness,
}

/// A price record returned by an oracle source, with the Unix time (seconds)
/// of its last update.
#[derive(Copy, Clone, Debug, PartialEq, Eq, Structural)]
pub struct OracleRecord {
    /// The current price (must be > 0).
    pub price: i128,
    /// Unix timestamp (seconds) of the last price update.
    pub timestamp: u64,
}

/// `x` clamped to the range of `i128`.
pub open spec fn clamp_i128(x: int) -> i128 {
    if x > i128::MAX {
        i128::MAX
    } else if x < i128::MIN {
        i128::MIN
    } else {
        x as i128
    }
}

/// `x * y` saturated at the bounds of `i128`.
fn saturating_mul(x: i128, y: i128) -> (r: i128)
    ensures
        r == clamp_i128(x * y),
{
    match x.checked_mul(y) {
        Some(v) => v,
        None => {
            proof {
                if (x < 0) != (y < 0) {
                    assert(x * y <= 0) by (nonlinear_arith)
                        requires (x < 0) != (y < 0);
                } else {
                    assert(x * y >= 0) by (nonlinear_arith)
                        requires (x < 0) == (y < 0);
                }
            }
            if (x < 0) != (y < 0) {
                i128::MIN
            } else {
                i128::MAX
            }
        },
    }
}

/// Quotient of `x` by 2 rounded toward zero, as Rust's signed division does.
pub open spec fn half_toward_zero(x: int) -> int {
    if x >= 0 {
        x / 2
    } else {
        -((-x) / 2)
    }
}

/// The ordering prices are sorted by.
pub open spec fn price_leq() -> spec_fn(i128, i128) -> bool {
    |a: i128, b: i128| a <= b
}

/// Prices in ascending order.
pub open spec fn is_sorted(s: Seq<i128>) -> bool {
    forall|i: int, j: int| 0 <= i <= j < s.len() ==> s[i] <= s[j]
}

/// The ascending arrangement of `s`.
pub open spec fn spec_sorted(s: Seq<i128>) -> Seq<i128> {
    s.sort_by(price_leq())
}

/// The middle element, or the two middle elements' mean rounded toward zero.
pub open spec fn spec_median(s: Seq<i128>) -> int {
    let mid = s.len() / 2;
    if s.len() % 2 == 1 {
        s[mid as int] as int
    } else {
        half_toward_zero(s[mid - 1] + s[mid as int])
    }
}

/// The median is computable: the sequence is not empty and, for an even
/// length, the two middle elements' sum fits in an `i128`.
pub open spec fn median_fits(s: Seq<i128>) -> bool {
    let mid = s.len() / 2;
    &&& s.len() > 0
    &&& s.len() % 2 == 0 ==> i128::MIN <= s[mid - 1] + s[mid as int] <= i128::MAX
}

/// A price is kept when it deviates from the median by at most 5% of it
/// (both sides computed with saturation).
pub open spec fn keeps_price(price: i128, median: i128) -> bool {
    let diff = if price > median { price - median } else { median - price };
    clamp_i128(diff * 100) <= clamp_i128(median * 5)
}

/// The prices within 5% of `median`, in order.
pub open spec fn spec_filter_outliers(s: Seq<i128>, median: i128) -> Seq<i128>
    decreases s.len(),
{
    if s.len() == 0 {
        seq![]
    } else {
        let prev = spec_filter_outliers(s.drop_last(), median);
        if keeps_price(s.last(), median) {
            prev.push(s.last())
        } else {
            prev
        }
    }
}

/// A record no older than `max_age` seconds at time `now` (an update from the
/// future has age zero).
pub open spec fn is_fresh(now: u64, max_age: u64, r: OracleRecord) -> bool {
    (if now >= r.timestamp { now - r.timestamp } else { 0 }) <= max_age
}

/// Number of sources that answered with a fresh record.
pub open spec fn count_fresh(now: u64, max_age: u64, rs: Seq<Option<OracleRecord>>) -> nat
    decreases rs.len(),
{
    if rs.len() == 0 {
        0
    } else {
        let prev = count_fresh(now, max_age, rs.drop_last());
        match rs.last() {
            Some(r) => if is_fresh(now, max_age, r) {
                prev + 1
            } else {
                prev
            },
            None => prev,
        }
    }
}

/// Positive prices of the fresh records, in source order.
pub open spec fn valid_prices(now: u64, max_age: u64, rs: Seq<Option<OracleRecord>>) -> Seq<i128>
    decreases rs.len(),
{
    if rs.len() == 0 {
        seq![]
    } else {
        let prev = valid_prices(now, max_age, rs.drop_last());
        match rs.last() {
            Some(r) => if is_fresh(now, max_age, r) && r.price > 0 {
                prev.push(r.price)
            } else {
                prev
            },
            None => prev,
        }
    }
}

/// The aggregate of the sources' answers (`None` for a source that failed to
/// answer) at time `now`: the median of the prices within 5% of the median of
/// the fresh positive prices.
pub open spec fn spec_aggregate(now: u64, max_age: u64, rs: Seq<Option<OracleRecord>>) -> Result<i128, Error> {
    if rs.len() < 3 {
        Err(Error::NotEnoughSources)
    } else if count_fresh(now, max_age, rs) < 3 {
        Err(Error::OracleStaleness)
    } else {
        let prices = valid_prices(now, max_age, rs);
        if prices.len() < 3 {
            Err(Error::NotEnoughValidPrices)
        } else {
            let sorted = spec_sorted(prices);
            let median = spec_median(sorted) as i128;
            let filtered = spec_filter_outliers(sorted, median);
            if filtered.len() < 3 {
                Err(Error::NotEnoughReliableSources)
            } else {
                Ok(spec_median(filtered) as i128)
            }
        }
    }
}

/// Both medians that the aggregation takes are computable.
pub open spec fn aggregate_fits(now: u64, max_age: u64, rs: Seq<Option<OracleRecord>>) -> bool {
    let prices = valid_prices(now, max_age, rs);
    let sorted = spec_sorted(prices);
    let filtered = spec_filter_outliers(sorted, spec_median(sorted) as i128);
    rs.len() >= 3 && count_fresh(now, max_age, rs) >= 3 && prices.len() >= 3 ==> {
        &&& median_fits(sorted)
        &&& filtered.len() >= 3 ==> median_fits(filtered)
    }
}

/// A source that did not answer, or answered with a stale record, changes
/// nothing but the number of sources: the aggregate of at least three
/// sources is the same without it.
pub proof fn lemma_ignored_source(now: u64, max_age: u64, rs: Seq<Option<OracleRecord>>, extra: Option<OracleRecord>)
    requires
        rs.len() >= 3,
        extra matches Some(r) ==> !is_fresh(now, max_age, r),
    ensures
        count_fresh(now, max_age, rs.push(extra)) == count_fresh(now, max_age, rs),
        valid_prices(now, max_age, rs.push(extra)) == valid_prices(now, max_age, rs),
        spec_aggregate(now, max_age, rs.push(extra)) == spec_aggregate(now, max_age, rs),
{
    assert(rs.push(extra).drop_last() =~= rs);
}

proof fn lemma_price_leq_total()
    ensures
        total_ordering(price_leq()),
{
}

proof fn lemma_valid_prices_positive(now: u64, max_age: u64, rs: Seq<Option<OracleRecord>>)
    ensures
        forall|i: int| 0 <= i < valid_prices(now, max_age, rs).len() ==> #[trigger] valid_prices(now, max_age, rs)[i] > 0,
        valid_prices(now, max_age, rs).len() <= count_fresh(now, max_age, rs) <= rs.len(),
    decreases rs.len(),
{
    if rs.len() > 0 {
        lemma_valid_prices_positive(now, max_age, rs.drop_last());
    }
}

proof fn lemma_positive_preserved(a: Seq<i128>, b: Seq<i128>)
    requires
        forall|i: int| 0 <= i < a.len() ==> #[trigger] a[i] > 0,
        b.to_multiset() == a.to_multiset(),
    ensures
        forall|i: int| 0 <= i < b.len() ==> #[trigger] b[i] > 0,
{
    assert forall|i: int| 0 <= i < b.len() implies #[trigger] b[i] > 0 by {
        assert(b.contains(b[i]));
        vstd::seq_lib::to_multiset_contains(b, b[i]);
        vstd::seq_lib::to_multiset_contains(a, b[i]);
        assert(a.contains(b[i]));
    }
}

proof fn lemma_median_positive(s: Seq<i128>)
    requires
        s.len() > 0,
        forall|i: int| 0 <= i < s.len() ==> #[trigger] s[i] > 0,
    ensures
        spec_median(s) > 0,
{
    let mid = s.len() / 2;
    if s.len() % 2 == 0 {
        assert(s[mid - 1] > 0 && s[mid as int] > 0);
    } else {
        assert(s[mid as int] > 0);
    }
}

proof fn lemma_filter_positive(s: Seq<i128>, m: i128)
    requires
        forall|i: int| 0 <= i < s.len() ==> #[trigger] s[i] > 0,
    ensures
        forall|i: int| 0 <= i < spec_filter_outliers(s, m).len() ==> #[trigger] spec_filter_outliers(s, m)[i] > 0,
    decreases s.len(),
{
    if s.len() > 0 {
        let rest = s.drop_last();
        assert forall|i: int| 0 <= i < rest.len() implies #[trigger] rest[i] > 0 by {
            assert(rest[i] == s[i]);
        }
        lemma_filter_positive(rest, m);
        assert(s.last() == s[s.len() - 1]);
        let prev = spec_filter_outliers(rest, m);
        let cur = spec_filter_outliers(s, m);
        assert forall|i: int| 0 <= i < cur.len() implies #[trigger] cur[i] > 0 by {
            if i < prev.len() {
                assert(cur[i] == prev[i]);
            }
        }
    }
}

proof fn lemma_median_bounded(s: Seq<i128>)
    requires
        s.len() > 0,
        forall|i: int| 0 <= i < s.len() ==> #[trigger] s[i] > 0,
    ensures
        0 < spec_median(s) <= i128::MAX,
{
    lemma_median_positive(s);
}

/// Every aggregate is a positive price: only positive prices are ever
/// collected, and a median of positive prices is positive.
pub proof fn lemma_aggregate_positive(now: u64, max_age: u64, rs: Seq<Option<OracleRecord>>)
    ensures
        spec_aggregate(now, max_age, rs) matches Ok(p) ==> p > 0,
{
    let prices = valid_prices(now, max_age, rs);
    if rs.len() >= 3 && count_fresh(now, max_age, rs) >= 3 && prices.len() >= 3 {
        lemma_valid_prices_positive(now, max_age, rs);
        lemma_price_leq_total();
        prices.lemma_sort_by_ensures(price_leq());
        let sorted = spec_sorted(prices);
        lemma_positive_preserved(prices, sorted);
        assert(sorted.len() == prices.len()) by {
            assert(sorted.to_multiset().len() == sorted.len());
            assert(prices.to_multiset().len() == prices.len());
        }
        lemma_median_bounded(sorted);
        let median = spec_median(sorted) as i128;
        let filtered = spec_filter_outliers(sorted, median);
        lemma_filter_positive(sorted, median);
        if filtered.len() >= 3 {
            lemma_median_bounded(filtered);
        }
    }
}

proof fn lemma_filter_outliers_is_filter(s: Seq<i128>, m: i128)
    ensures
        spec_filter_outliers(s, m) == s.filter(|x: i128| keeps_price(x, m)),
    decreases s.len(),
{
    let pred = |x: i128| keeps_price(x, m);
    reveal(Seq::filter);
    if s.len() > 0 {
        lemma_filter_outliers_is_filter(s.drop_last(), m);
        assert(s.drop_last().filter(|x: i128| keeps_price(x, m)) == s.drop_last().filter(pred));
        assert(s.filter(pred) == (if pred(s.last()) {
            s.drop_last().filter(pred).push(s.last())
        } else {
            s.drop_last().filter(pred)
        }));
    } else {
        assert(s.filter(pred) == s);
    }
    assert(s.filter(|x: i128| keeps_price(x, m)) == s.filter(pred));
}

/// An aggregate is the median of the prices that lie within 5% of the median
/// of all fresh positive prices. Stated over any ascending arrangement `s`
/// of the fresh positive prices: with `m` the middle of `s` (the mean of the
/// two middle prices, rounded toward zero, for an even count) and `k` the
/// prices of `s` within 5% of `m`, an `Ok` aggregate is the middle of `k`,
/// and `k` holds at least three prices.
pub proof fn lemma_aggregate_is_median_of_kept(now: u64, max_age: u64, rs: Seq<Option<OracleRecord>>, s: Seq<i128>)
    requires
        forall|i: int, j: int| 0 <= i <= j < s.len() ==> s[i] <= s[j],
        s.to_multiset() == valid_prices(now, max_age, rs).to_multiset(),
    ensures
        spec_aggregate(now, max_age, rs) matches Ok(p) ==> {
            let n = s.len() as int;
            let m: int = if n % 2 == 1 { s[n / 2] as int } else { half_toward_zero(s[n / 2 - 1] + s[n / 2]) };
            let k = s.filter(|x: i128| keeps_price(x, m as i128));
            let kl = k.len() as int;
            &&& kl >= 3
            &&& p == (if kl % 2 == 1 { k[kl / 2] as int } else { half_toward_zero(k[kl / 2 - 1] + k[kl / 2]) })
        },
{
    let v = valid_prices(now, max_age, rs);
    if spec_aggregate(now, max_age, rs) is Ok {
        lemma_price_leq_total();
        v.lemma_sort_by_ensures(price_leq());
        let sorted = spec_sorted(v);
        assert(sorted_by(s, price_leq())) by {
            assert forall|i: int, j: int| 0 <= i < j < s.len() implies #[trigger] (price_leq())(s[i], s[j]) by {}
        }
        vstd::seq_lib::lemma_sorted_unique(s, sorted, price_leq());
        assert(s == sorted);
        lemma_valid_prices_positive(now, max_age, rs);
        lemma_positive_preserved(v, sorted);
        assert(sorted.len() == v.len()) by {
            assert(sorted.to_multiset().len() == sorted.len());
            assert(v.to_multiset().len() == v.len());
        }
        lemma_median_bounded(sorted);
        let m = spec_median(sorted) as i128;
        let filtered = spec_filter_outliers(sorted, m);
        lemma_filter_positive(sorted, m);
        lemma_filter_outliers_is_filter(sorted, m);
        lemma_median_bounded(filtered);
    }
}

impl OracleAggregator {
    /// Sorts the prices in ascending order.
    pub fn sort_prices(prices: Vec<i128>) -> (sorted: Vec<i128>)
        ensures
            is_sorted(sorted@),
            sorted@.to_multiset() == prices@.to_multiset(),
            sorted@ == spec_sorted(prices@),
    {
        let ghost input = prices@;
        let mut prices = prices;
        let n = prices.len();
        let mut i: usize = 0;
        while i < n
            invariant
                n == prices.len(),
                i <= n,
                prices@.to_multiset() == input.to_multiset(),
                forall|a: int, b: int| n - i <= a <= b < n ==> prices@[a] <= prices@[b],
                forall|a: int, b: int| 0 <= a < n - i <= b < n ==> prices@[a] <= prices@[b],
            decreases n - i,
        {
            let mut j: usize = 0;
            while j < n - i - 1
                invariant
                    n == prices.len(),
                    i < n,
                    j <= n - i - 1,
                    prices@.to_multiset() == input.to_multiset(),
                    forall|a: int, b: int| n - i <= a <= b < n ==> prices@[a] <= prices@[b],
                    forall|a: int, b: int| 0 <= a < n - i <= b < n ==> prices@[a] <= prices@[b],
                    forall|a: int| 0 <= a <= j ==> prices@[a] <= prices@[j as int],
                decreases n - i - 1 - j,
            {
                let current = prices[j];
                let next = prices[j + 1];
                if current > next {
                    proof {
                        broadcast use vstd::seq_lib::to_multiset_update;
                        broadcast use vstd::multiset::group_multiset_axioms;

                        let s0 = prices@;
                        let s1 = s0.update(j as int, next);
                        let s2 = s1.update(j + 1, current);
                        assert(s2.to_multiset() =~= s0.to_multiset());
                    }
                    prices.set(j, next);
                    prices.set(j + 1, current);
                }
                j += 1;
            }
            i += 1;
        }
        proof {
            lemma_price_leq_total();
            input.lemma_sort_by_ensures(price_leq());
            assert(sorted_by(prices@, price_leq()));
            vstd::seq_lib::lemma_sorted_unique(prices@, spec_sorted(input), price_leq());
        }
        prices
    }

    /// Aggregates the answers of the oracle sources at time `now`
    /// (`responses[i]` is `None` when source `i` failed to answer): refuses
    /// fewer than three sources, fewer than three fresh records, fewer than
    /// three positive fresh prices, and fewer than three prices within 5% of
    /// their median; otherwise returns the median of those.
    pub fn aggregate_price(now: u64, max_age_seconds: u64, responses: &Vec<Option<OracleRecord>>) -> (r: Result<i128, Error>)
        requires
            responses@.len() <= u32::MAX,
            aggregate_fits(now, max_age_seconds, responses@),
        ensures
            r == spec_aggregate(now, max_age_seconds, responses@),
    {
        match Self::checked_aggregate_price(now, max_age_seconds, responses) {
            Some(r) => r,
            None => Err(Error::InvalidPrice),
        }
    }

    /// `aggregate_price`, or `None` where one of its medians overflows.
    pub fn checked_aggregate_price(now: u64, max_age_seconds: u64, responses: &Vec<Option<OracleRecord>>) -> (r: Option<Result<i128, Error>>)
        requires
            responses@.len() <= u32::MAX,
        ensures
            r == (if aggregate_fits(now, max_age_seconds, responses@) {
                Some(spec_aggregate(now, max_age_seconds, responses@))
            } else {
                None
            }),
    {
        if responses.len() < 3 {
            return Some(Err(Error::NotEnoughSources));
        }
        let mut fresh_count: u32 = 0;
        let mut prices: Vec<i128> = Vec::new();
        let mut idx: usize = 0;
        while idx < responses.len()
            invariant
                idx <= responses@.len(),
                responses@.len() <= u32::MAX,
                fresh_count == count_fresh(now, max_age_seconds, responses@.take(idx as int)),
                prices@ == valid_prices(now, max_age_seconds, responses@.take(idx as int)),
            decreases responses.len() - idx,
        {
            proof {
                assert(responses@.take(idx + 1).drop_last() =~= responses@.take(idx as int));
                lemma_valid_prices_positive(now, max_age_seconds, responses@.take(idx as int));
            }
            if let Some(record) = responses[idx] {
                let age = now.saturating_sub(record.timestamp);
                if age <= max_age_seconds {
                    fresh_count += 1;
                    if record.price > 0 {
                        prices.push(record.price);
                    }
                }
            }
            idx += 1;
        }
        proof {
            assert(responses@.take(responses@.len() as int) =~= responses@);
        }
        if fresh_count < 3 {
            return Some(Err(Error::OracleStaleness));
        }
        if prices.len() < 3 {
            return Some(Err(Error::NotEnoughValidPrices));
        }
        let ghost valid = prices@;
        proof {
            lemma_valid_prices_positive(now, max_age_seconds, responses@);
        }
        let sorted = Self::sort_prices(prices);
        proof {
            lemma_positive_preserved(valid, sorted@);
        }
        if !Self::median_computable(&sorted) {
            return None;
        }
        let median = Self::median(&sorted);
        proof {
            lemma_median_positive(sorted@);
        }
        let filtered = Self::filter_outliers(&sorted, median);
        if filtered.len() < 3 {
            return Some(Err(Error::NotEnoughReliableSources));
        }
        if !Self::median_computable(&filtered) {
            return None;
        }
        Some(Ok(Self::median(&filtered)))
    }

    /// Whether `median` can compute the median of `prices`.
    fn median_computable(prices: &Vec<i128>) -> (b: bool)
        ensures
            b == median_fits(prices@),
    {
        let len = prices.len();
        if len == 0 {
            return false;
        }
        if len % 2 == 1 {
            return true;
        }
        let mid = len / 2;
        prices[mid - 1].checked_add(prices[mid]).is_some()
    }

    /// The median of sorted prices: the middle one, or the mean of the two
    /// middle ones rounded toward zero.
    pub fn median(prices: &Vec<i128>) -> (m: i128)
        requires
            median_fits(prices@),
        ensures
            m == spec_median(prices@),
    {
        let len = prices.len();
        let mid = len / 2;
        if len % 2 == 1 {
            prices[mid]
        } else {
            let low = prices[mid - 1];
            let high = prices[mid];
            (low + high) / 2
        }
    }

    /// Keeps the prices within 5% of `median`.
    pub fn filter_outliers(prices: &Vec<i128>, median: i128) -> (filtered: Vec<i128>)
        requires
            forall|i: int|
                0 <= i < prices@.len() ==> i128::MIN <= #[trigger] prices@[i] - median <= i128::MAX && i128::MIN
                    <= median - prices@[i] <= i128::MAX,
        ensures
            filtered@ == spec_filter_outliers(prices@, median),
    {
        let mut filtered = Vec::new();
        let threshold = saturating_mul(median, 5);
        let mut idx: usize = 0;
        while idx < prices.len()
            invariant
                idx <= prices.len(),
                threshold == clamp_i128(median * 5),
                filtered@ == spec_filter_outliers(prices@.take(idx as int), median),
                forall|i: int|
                    0 <= i < prices@.len() ==> i128::MIN <= #[trigger] prices@[i] - median <= i128::MAX && i128::MIN
                        <= median - prices@[i] <= i128::MAX,
            decreases prices.len() - idx,
        {
            let price = prices[idx];
            assert(prices@.take(idx + 1).drop_last() =~= prices@.take(idx as int));
            if saturating_mul(Self::abs_diff(price, median), 100) <= threshold {
                filtered.push(price);
            }
            idx += 1;
        }
        assert(prices@.take(prices.len() as int) =~= prices@);
        filtered
    }

    /// `|left - right|`.
    pub fn abs_diff(left: i128, right: i128) -> (r: i128)
        requires
            i128::MIN <= left - right <= i128::MAX,
            i128::MIN <= right - left <= i128::MAX,
        ensures
            r == if left > right { left - right } else { right - left },
    {
        if left > right {
            left - right
        } else {
            right - left
        }
    }
}

/// The price aggregator.
pub struct OracleAggregator;

}
