//! Integer decisions taken on the list of a day's temperature markets: their
//! order by threshold, the bucket a forecast lands in, the contiguous band of
//! four buckets, and the resolved winner.

use vstd::prelude::*;

use crate::bucket::{self, parse_bucket, Bucket};
use crate::text::{self, chars_of, contains_exec, starts_with_exec};

verus! {

/// The sort key of a market question: its bucket threshold, or `i32::MAX`
/// when the question is missing or names no bucket.
pub open spec fn question_key(question: Option<String>) -> i32 {
    match question {
        Some(q) => match bucket::spec_parse_bucket(q@) {
            Some(b) => b.threshold,
            None => i32::MAX,
        },
        None => i32::MAX,
    }
}

/// The sort keys of a list of questions.
pub open spec fn question_keys(questions: Seq<Option<String>>) -> Seq<i32> {
    questions.map_values(|q: Option<String>| question_key(q))
}

/// Market `a` comes before market `b` when sorted stably by key.
pub open spec fn ranks_before(keys: Seq<i32>, a: int, b: int) -> bool {
    keys[a] < keys[b] || (keys[a] == keys[b] && a < b)
}

/// `order` lists every position of `keys` exactly once, by ascending key,
/// positions with equal keys keeping their relative order.
pub open spec fn is_stable_order(keys: Seq<i32>, order: Seq<usize>) -> bool {
    &&& order.len() == keys.len()
    &&& forall|i: int| 0 <= i < order.len() ==> #[trigger] order[i] < keys.len()
    &&& forall|k: usize| k < keys.len() ==> #[trigger] order.contains(k)
    &&& forall|i: int, j: int|
        0 <= i < j < order.len() ==> ranks_before(keys, #[trigger] order[i] as int, #[trigger] order[j] as int)
}

/// The sort key of one question.
pub fn question_key_exec(question: &Option<String>) -> (r: i32)
    ensures
        r == question_key(*question),
{
    match question {
        Some(q) => match parse_bucket(q.as_str()) {
            Some(b) => b.threshold,
            None => i32::MAX,
        },
        None => i32::MAX,
    }
}

/// The order in which `sort_by_key` on the bucket threshold arranges the
/// markets with these questions (unparsable questions last), as positions
/// into `questions`.
pub fn order_by_bucket_threshold(questions: &Vec<Option<String>>) -> (order: Vec<usize>)
    ensures
        is_stable_order(question_keys(questions@), order@),
{
    let n = questions.len();
    let mut keys: Vec<i32> = Vec::new();
    let mut i: usize = 0;
    while i < n
        invariant
            n == questions@.len(),
            i <= n,
            keys@ == question_keys(questions@).take(i as int),
        decreases n - i,
    {
        let key = question_key_exec(&questions[i]);
        keys.push(key);
        i = i + 1;
        assert(keys@ =~= question_keys(questions@).take(i as int));
    }
    assert(keys@ =~= question_keys(questions@));
    let ghost all_keys = keys@;
    let mut order: Vec<usize> = Vec::new();
    let mut next: usize = 0;
    while next < n
        invariant
            n == keys@.len(),
            all_keys == keys@,
            next <= n,
            order@.len() == next,
            forall|i: int| 0 <= i < order@.len() ==> #[trigger] order@[i] < next,
            forall|k: usize| k < next ==> #[trigger] order@.contains(k),
            forall|i: int, j: int|
                0 <= i < j < order@.len() ==> ranks_before(all_keys, #[trigger] order@[i] as int, #[trigger] order@[j] as int),
        decreases n - next,
    {
        let key = keys[next];
        let mut p: usize = 0;
        while p < order.len() && keys[order[p]] <= key
            invariant
                p <= order@.len(),
                n == keys@.len(),
                all_keys == keys@,
                forall|i: int| 0 <= i < order@.len() ==> #[trigger] order@[i] < next,
                next < n,
                key == keys@[next as int],
                forall|i: int| 0 <= i < p ==> keys@[#[trigger] order@[i] as int] <= key,
            decreases order@.len() - p,
        {
            p = p + 1;
        }
        let ghost old_order = order@;
        assert(forall|i: int| p <= i < old_order.len() ==> keys@[#[trigger] old_order[i] as int] > key) by {
            assert forall|i: int| p <= i < old_order.len() implies keys@[#[trigger] old_order[i] as int] > key by {
                if i > p {
                    assert(ranks_before(all_keys, old_order[p as int] as int, old_order[i] as int));
                }
            }
        }
        order.insert(p, next);
        assert(order@ =~= old_order.subrange(0, p as int).push(next) + old_order.subrange(p as int, old_order.len() as int));
        assert forall|k: usize| k < next + 1 implies #[trigger] order@.contains(k) by {
            if k == next {
                assert(order@[p as int] == next);
            } else {
                assert(old_order.contains(k));
                let w = choose|w: int| 0 <= w < old_order.len() && old_order[w] == k;
                if w < p {
                    assert(order@[w] == k);
                } else {
                    assert(order@[w + 1] == k);
                }
            }
        }
        assert forall|i: int, j: int|
            0 <= i < j < order@.len() implies ranks_before(all_keys, #[trigger] order@[i] as int, #[trigger] order@[j] as int) by {
            if i < p && j < p {
                assert(order@[i] == old_order[i] && order@[j] == old_order[j]);
            } else if i < p && j == p {
                assert(order@[i] == old_order[i]);
            } else if i < p {
                assert(order@[i] == old_order[i] && order@[j] == old_order[j - 1]);
            } else if i == p {
                assert(order@[j] == old_order[j - 1]);
            } else {
                assert(order@[i] == old_order[i - 1] && order@[j] == old_order[j - 1]);
            }
        }
        next = next + 1;
    }
    order
}

proof fn lemma_stable_orders_agree_at(keys: Seq<i32>, a: Seq<usize>, b: Seq<usize>, i: int)
    requires
        is_stable_order(keys, a),
        is_stable_order(keys, b),
        0 <= i < a.len(),
    ensures
        a[i] == b[i],
    decreases i,
{
    if a[i] != b[i] {
        let x = a[i];
        let y = b[i];
        assert(a.contains(y));
        let j = choose|j: int| 0 <= j < a.len() && a[j] == y;
        assert(b.contains(x));
        let m = choose|m: int| 0 <= m < b.len() && b[m] == x;
        if j < i {
            lemma_stable_orders_agree_at(keys, a, b, j);
            assert(ranks_before(keys, b[j] as int, b[i] as int));
        } else if m < i {
            lemma_stable_orders_agree_at(keys, a, b, m);
            assert(ranks_before(keys, a[m] as int, a[i] as int));
        } else {
            assert(ranks_before(keys, a[i] as int, a[j] as int));
            assert(ranks_before(keys, b[i] as int, b[m] as int));
        }
    }
}

/// The threshold order of a list of markets is determined by their keys
/// alone: any two stable orders of the same keys are the same order.
pub proof fn lemma_stable_order_is_unique(keys: Seq<i32>, a: Seq<usize>, b: Seq<usize>)
    requires
        is_stable_order(keys, a),
        is_stable_order(keys, b),
    ensures
        a == b,
{
    assert forall|i: int| 0 <= i < a.len() implies a[i] == b[i] by {
        lemma_stable_orders_agree_at(keys, a, b, i);
    }
    assert(a =~= b);
}

/// Question `question` names a bucket that holds the rounded temperature `t`.
pub open spec fn question_holds(question: Option<String>, t: int) -> bool {
    match question {
        Some(q) => match bucket::spec_parse_bucket(q@) {
            Some(b) => bucket::bucket_holds(b, t),
            None => false,
        },
        None => false,
    }
}

/// The first market whose bucket holds the rounded temperature, if any: the
/// bucket a forecast of that temperature predicts.
pub fn predicted_market_index(questions: &Vec<Option<String>>, rounded_temperature: i32) -> (r: Option<usize>)
    ensures
        r matches Some(i) ==> i < questions@.len() && question_holds(questions@[i as int], rounded_temperature as int)
            && forall|j: int| 0 <= j < i ==> !question_holds(#[trigger] questions@[j], rounded_temperature as int),
        r is None ==> forall|j: int| 0 <= j < questions@.len() ==> !question_holds(#[trigger] questions@[j], rounded_temperature as int),
{
    let mut i: usize = 0;
    while i < questions.len()
        invariant
            i <= questions@.len(),
            forall|j: int| 0 <= j < i ==> !question_holds(#[trigger] questions@[j], rounded_temperature as int),
        decreases questions@.len() - i,
    {
        let holds = match &questions[i] {
            Some(q) => match parse_bucket(q.as_str()) {
                Some(b) => b.contains(rounded_temperature),
                None => false,
            },
            None => false,
        };
        if holds {
            return Some(i);
        }
        i = i + 1;
    }
    None
}

/// Start of the legacy band for the bucket at `legacy_index` among `market_count` markets.
pub open spec fn spec_legacy_band_start(legacy_index: int, market_count: int) -> int {
    vstd::math::min(
        if legacy_index >= 2 {
            legacy_index - 2
        } else {
            0
        },
        market_count - 4,
    )
}

/// The legacy band always lies inside the market list and holds the legacy
/// bucket; where the list leaves room, it takes the two buckets below and
/// the one above it.
pub proof fn lemma_legacy_band_holds_legacy_bucket(legacy_index: int, market_count: int)
    requires
        market_count >= 4,
        0 <= legacy_index < market_count,
    ensures
        0 <= spec_legacy_band_start(legacy_index, market_count),
        spec_legacy_band_start(legacy_index, market_count) + 4 <= market_count,
        spec_legacy_band_start(legacy_index, market_count) <= legacy_index < spec_legacy_band_start(
            legacy_index,
            market_count,
        ) + 4,
        2 <= legacy_index < market_count - 1 ==> spec_legacy_band_start(legacy_index, market_count)
            == legacy_index - 2,
{
}

/// Start of the legacy band of four buckets around `legacy_index`: two
/// buckets below it where the list allows, never running past its end.
pub fn legacy_band_start(legacy_index: usize, market_count: usize) -> (r: usize)
    requires
        market_count >= 4,
    ensures
        r == spec_legacy_band_start(legacy_index as int, market_count as int),
{
    let below = if legacy_index >= 2 {
        legacy_index - 2
    } else {
        0
    };
    if below < market_count - 4 {
        below
    } else {
        market_count - 4
    }
}


/// Some bucket of `buckets` holds the rounded temperature `t`.
pub open spec fn any_holds(buckets: Seq<Bucket>, t: int) -> bool {
    exists|i: int| 0 <= i < buckets.len() && bucket::bucket_holds(#[trigger] buckets[i], t)
}

/// How many of the rounded temperatures `temps` some bucket of `buckets` holds.
pub open spec fn covered_count(buckets: Seq<Bucket>, temps: Seq<i32>) -> nat
    decreases temps.len(),
{
    if temps.len() == 0 {
        0
    } else {
        covered_count(buckets, temps.drop_last()) + if any_holds(buckets, temps.last() as int) {
            1nat
        } else {
            0nat
        }
    }
}

/// Counts the rounded temperatures that fall in at least one of the buckets.
pub fn count_covered(buckets: &Vec<Bucket>, temps: &Vec<i32>) -> (r: usize)
    ensures
        r == covered_count(buckets@, temps@),
{
    let mut count: usize = 0;
    let mut i: usize = 0;
    while i < temps.len()
        invariant
            i <= temps@.len(),
            count == covered_count(buckets@, temps@.take(i as int)),
            count <= i,
        decreases temps@.len() - i,
    {
        let t = temps[i];
        let mut hit = false;
        let mut k: usize = 0;
        while k < buckets.len()
            invariant
                k <= buckets@.len(),
                hit <==> exists|j: int| 0 <= j < k && bucket::bucket_holds(#[trigger] buckets@[j], t as int),
            decreases buckets@.len() - k,
        {
            if buckets[k].contains(t) {
                hit = true;
            }
            k = k + 1;
        }
        assert(temps@.take(i + 1).drop_last() =~= temps@.take(i as int));
        if hit {
            count = count + 1;
        }
        i = i + 1;
    }
    assert(temps@.take(temps@.len() as int) =~= temps@);
    count
}

/// The buckets named by `questions`, skipping those that name none.
pub open spec fn named_buckets(questions: Seq<Option<String>>) -> Seq<Bucket>
    decreases questions.len(),
{
    if questions.len() == 0 {
        seq![]
    } else {
        let rest = named_buckets(questions.drop_last());
        match questions.last() {
            Some(q) => match bucket::spec_parse_bucket(q@) {
                Some(b) => rest.push(b),
                None => rest,
            },
            None => rest,
        }
    }
}

/// The buckets named by the questions of markets `start` up to `end`.
pub fn band_buckets(questions: &Vec<Option<String>>, start: usize, end: usize) -> (r: Vec<Bucket>)
    requires
        start <= end <= questions@.len(),
    ensures
        r@ == named_buckets(questions@.subrange(start as int, end as int)),
{
    let mut r: Vec<Bucket> = Vec::new();
    let mut i = start;
    assert(questions@.subrange(start as int, start as int) =~= seq![]);
    while i < end
        invariant
            start <= i <= end <= questions@.len(),
            r@ == named_buckets(questions@.subrange(start as int, i as int)),
        decreases end - i,
    {
        assert(questions@.subrange(start as int, i + 1).drop_last() =~= questions@.subrange(
            start as int,
            i as int,
        ));
        match &questions[i] {
            Some(q) => match parse_bucket(q.as_str()) {
                Some(b) => r.push(b),
                None => {},
            },
            None => {},
        }
        i = i + 1;
    }
    r
}

/// The integer half of evaluating a four-bucket band `start..end`: `None`
/// unless the range spans four markets inside the list, a price is quoted for
/// every market, and all four questions name a bucket; otherwise how many
/// rounded member maxima the band's buckets cover.
pub fn evaluate_band_coverage(
    questions: &Vec<Option<String>>,
    price_count: usize,
    start: usize,
    end: usize,
    rounded_members: &Vec<i32>,
) -> (r: Option<usize>)
    ensures
        r is Some <==> (end - start == 4 && end <= questions@.len() && price_count == questions@.len()
            && named_buckets(questions@.subrange(start as int, end as int)).len() == 4),
        r matches Some(c) ==> c == covered_count(
            named_buckets(questions@.subrange(start as int, end as int)),
            rounded_members@,
        ),
{
    if end < start || end - start != 4 || end > questions.len() || price_count != questions.len() {
        return None;
    }
    let buckets = band_buckets(questions, start, end);
    if buckets.len() != 4 {
        return None;
    }
    Some(count_covered(&buckets, rounded_members))
}

/// Whether the band of four markets starting at `start` includes market `index`.
pub fn band_covers(start: usize, index: usize) -> (r: bool)
    ensures
        r == (start <= index < start + 4),
{
    start <= index && index - start < 4
}

/// A decimal number `mantissa / 10^scale`, as `rust_decimal::Decimal` holds one.
#[derive(Clone, Copy, Debug, PartialEq, Eq, Structural)]
pub struct DecimalPrice {
    pub mantissa: i128,
    pub scale: u32,
}

/// `p` is a value `rust_decimal::Decimal` can hold: a 96-bit mantissa and a scale of at most 28.
pub open spec fn valid_decimal(p: DecimalPrice) -> bool {
    &&& p.scale <= 28
    &&& -0x1_0000_0000_0000_0000_0000_0000 < p.mantissa < 0x1_0000_0000_0000_0000_0000_0000
}

/// Ten to the power `n`.
pub open spec fn pow10(n: nat) -> int
    decreases n,
{
    if n == 0 {
        1
    } else {
        10 * pow10((n - 1) as nat)
    }
}

/// The YES price `p` is at least 0.99: the market resolved YES.
pub open spec fn settles_yes(p: DecimalPrice) -> bool {
    p.mantissa * 100 >= 99 * pow10(p.scale as nat)
}

/// A market whose YES price is quoted and resolved YES.
pub open spec fn resolved_yes(price: Option<DecimalPrice>) -> bool {
    match price {
        Some(p) => settles_yes(p),
        None => false,
    }
}

proof fn lemma_pow10_bound(n: nat)
    requires
        n <= 28,
    ensures
        1 <= pow10(n) <= pow10(28),
    decreases 28 - n,
{
    if n < 28 {
        lemma_pow10_bound(n + 1);
        assert(pow10(n + 1) == 10 * pow10(n));
    } else {
        lemma_pow10_positive(n);
    }
}

proof fn lemma_pow10_positive(n: nat)
    ensures
        pow10(n) >= 1,
    decreases n,
{
    if n > 0 {
        lemma_pow10_positive((n - 1) as nat);
    }
}

/// Whether a YES price of at least 0.99 is quoted.
pub fn settles_yes_exec(price: &Option<DecimalPrice>) -> (r: bool)
    requires
        *price matches Some(p) ==> valid_decimal(p),
    ensures
        r == resolved_yes(*price),
{
    match price {
        None => false,
        Some(p) => {
            proof {
                reveal_with_fuel(pow10, 30);
                assert(pow10(28) == 10_000_000_000_000_000_000_000_000_000);
                lemma_pow10_bound(p.scale as nat);
            }
            let mut scale_power: i128 = 1;
            let mut k: u32 = 0;
            while k < p.scale
                invariant
                    k <= p.scale <= 28,
                    scale_power == pow10(k as nat),
                    pow10(28) == 10_000_000_000_000_000_000_000_000_000,
                decreases p.scale - k,
            {
                proof {
                    lemma_pow10_bound((k + 1) as nat);
                }
                scale_power = scale_power * 10;
                k = k + 1;
            }
            p.mantissa * 100 >= 99 * scale_power
        },
    }
}

/// The first market that resolved YES (`None` when none did): the winner of a
/// resolved event, its markets listed in threshold order.
pub fn winner_index(yes_prices: &Vec<Option<DecimalPrice>>) -> (r: Option<usize>)
    requires
        forall|i: int| 0 <= i < yes_prices@.len() ==> (#[trigger] yes_prices@[i] matches Some(p) ==> valid_decimal(p)),
    ensures
        r matches Some(i) ==> i < yes_prices@.len() && resolved_yes(yes_prices@[i as int])
            && forall|j: int| 0 <= j < i ==> !resolved_yes(#[trigger] yes_prices@[j]),
        r is None ==> forall|j: int| 0 <= j < yes_prices@.len() ==> !resolved_yes(#[trigger] yes_prices@[j]),
{
    let mut i: usize = 0;
    while i < yes_prices.len()
        invariant
            i <= yes_prices@.len(),
            forall|j: int| 0 <= j < yes_prices@.len() ==> (#[trigger] yes_prices@[j] matches Some(p) ==> valid_decimal(p)),
            forall|j: int| 0 <= j < i ==> !resolved_yes(#[trigger] yes_prices@[j]),
        decreases yes_prices@.len() - i,
    {
        if settles_yes_exec(&yes_prices[i]) {
            return Some(i);
        }
        i = i + 1;
    }
    None
}

/// How far a price point stamped `t` lies from `entry` (`u64::MAX` when unstamped).
pub open spec fn point_distance(t: Option<i64>, entry: i64) -> int {
    match t {
        Some(x) => if x >= entry {
            x - entry
        } else {
            entry - x
        },
        None => u64::MAX as int,
    }
}

/// The price point nearest to the entry time, the first one among equally
/// near points; `None` when there is no point.
pub fn nearest_point_index(times: &Vec<Option<i64>>, entry_timestamp: i64) -> (r: Option<usize>)
    ensures
        r is None <==> times@.len() == 0,
        r matches Some(i) ==> i < times@.len() && (forall|j: int|
            0 <= j < times@.len() ==> point_distance(times@[i as int], entry_timestamp) <= point_distance(#[trigger] times@[j], entry_timestamp))
            && (forall|j: int| 0 <= j < i ==> point_distance(times@[i as int], entry_timestamp) < point_distance(#[trigger] times@[j], entry_timestamp)),
{
    if times.len() == 0 {
        return None;
    }
    let mut best: usize = 0;
    let mut best_distance: u64 = distance_exec(times[0], entry_timestamp);
    let mut i: usize = 1;
    while i < times.len()
        invariant
            1 <= i <= times@.len(),
            best < i,
            best_distance == point_distance(times@[best as int], entry_timestamp),
            forall|j: int| 0 <= j < i ==> best_distance <= point_distance(#[trigger] times@[j], entry_timestamp),
            forall|j: int| 0 <= j < best ==> best_distance < point_distance(#[trigger] times@[j], entry_timestamp),
        decreases times@.len() - i,
    {
        let d = distance_exec(times[i], entry_timestamp);
        if d < best_distance {
            best = i;
            best_distance = d;
        }
        i = i + 1;
    }
    Some(best)
}

/// The distance of one price point from the entry time.
fn distance_exec(t: Option<i64>, entry_timestamp: i64) -> (r: u64)
    ensures
        r == point_distance(t, entry_timestamp),
{
    match t {
        Some(x) => {
            let d = x as i128 - entry_timestamp as i128;
            if d >= 0 {
                d as u64
            } else {
                (-d) as u64
            }
        },
        None => u64::MAX,
    }
}

/// Two optional group identifiers are present and equal.
pub open spec fn same_group(a: Option<Vec<u8>>, b: Option<Vec<u8>>) -> bool {
    match (a, b) {
        (Some(x), Some(y)) => x@ == y@,
        _ => false,
    }
}

/// Whether two byte strings are equal.
fn same_bytes(a: &Vec<u8>, b: &Vec<u8>) -> (r: bool)
    ensures
        r == (a@ == b@),
{
    if a.len() != b.len() {
        return false;
    }
    let mut i: usize = 0;
    while i < a.len()
        invariant
            a@.len() == b@.len(),
            i <= a@.len(),
            forall|j: int| 0 <= j < i ==> a@[j] == b@[j],
        decreases a@.len() - i,
    {
        if a[i] != b[i] {
            return false;
        }
        i = i + 1;
    }
    assert(a@ =~= b@);
    true
}

/// Whether the markets form one exhaustive negative-risk group: there is at
/// least one, every one is flagged negative-risk, and all carry the first
/// market's group identifier.
pub fn is_exhaustive_neg_risk_group(neg_risk: &Vec<Option<bool>>, group_ids: &Vec<Option<Vec<u8>>>) -> (r: bool)
    requires
        neg_risk@.len() == group_ids@.len(),
    ensures
        r == (neg_risk@.len() > 0
            && (forall|i: int| 0 <= i < neg_risk@.len() ==> #[trigger] neg_risk@[i] == Some(true))
            && (forall|i: int| 0 <= i < group_ids@.len() ==> same_group(#[trigger] group_ids@[i], group_ids@[0]))),
{
    let n = neg_risk.len();
    if n == 0 {
        return false;
    }
    let mut i: usize = 0;
    while i < n
        invariant
            n == neg_risk@.len(),
            i <= n,
            forall|j: int| 0 <= j < i ==> #[trigger] neg_risk@[j] == Some(true),
        decreases n - i,
    {
        match neg_risk[i] {
            Some(true) => {},
            _ => {
                return false;
            },
        }
        i = i + 1;
    }
    let first = match &group_ids[0] {
        Some(g) => g,
        None => {
            assert(!same_group(group_ids@[0], group_ids@[0]));
            return false;
        },
    };
    let mut k: usize = 0;
    while k < n
        invariant
            n == group_ids@.len(),
            k <= n,
            group_ids@[0] == Some(*first),
            forall|j: int| 0 <= j < k ==> same_group(#[trigger] group_ids@[j], group_ids@[0]),
        decreases n - k,
    {
        let same = match &group_ids[k] {
            Some(g) => same_bytes(g, first),
            None => false,
        };
        if !same {
            return false;
        }
        k = k + 1;
    }
    true
}


/// The phrase every question of a Tokyo daily-high market contains.
pub open spec fn market_phrase() -> Seq<char> {
    seq!['h', 'i', 'g', 'h', 'e', 's', 't', ' ', 't', 'e', 'm', 'p', 'e', 'r', 'a', 't', 'u', 'r', 'e', ' ', 'i', 'n', ' ', 'T', 'o', 'k', 'y', 'o']
}

/// A market is one of the open Tokyo daily-high markets of `target_day`:
/// it ends that day, its question names the series, and it is not closed.
pub open spec fn spec_tracked_open_market(
    question: Option<String>,
    end_day: Option<i32>,
    closed: Option<bool>,
    target_day: i32,
) -> bool {
    &&& end_day == Some(target_day)
    &&& question matches Some(q) && text::contains_seq(q@, market_phrase())
    &&& closed != Some(true)
}

/// Whether a market found by the search is one of the open Tokyo daily-high
/// markets of `target_day`.
pub fn is_tracked_open_market(
    question: &Option<String>,
    end_day: Option<i32>,
    closed: Option<bool>,
    target_day: i32,
) -> (r: bool)
    ensures
        r == spec_tracked_open_market(*question, end_day, closed, target_day),
        r ==> end_day == Some(target_day),
{
    let phrase: [char; 28] = ['h', 'i', 'g', 'h', 'e', 's', 't', ' ', 't', 'e', 'm', 'p', 'e', 'r', 'a', 't', 'u', 'r', 'e', ' ', 'i', 'n', ' ', 'T', 'o', 'k', 'y', 'o'];
    assert(phrase@ =~= market_phrase());
    let ends_that_day = match end_day {
        Some(d) => d == target_day,
        None => false,
    };
    let names_series = match question {
        Some(q) => contains_exec(&chars_of(q.as_str()), &phrase),
        None => false,
    };
    let is_closed = match closed {
        Some(c) => c,
        None => false,
    };
    ends_that_day && names_series && !is_closed
}

/// The name of the ensemble's control run series.
pub open spec fn control_series_name() -> Seq<char> {
    seq!['t', 'e', 'm', 'p', 'e', 'r', 'a', 't', 'u', 'r', 'e', '_', '2', 'm']
}

/// The prefix of the ensemble's member series names.
pub open spec fn member_series_prefix() -> Seq<char> {
    seq!['t', 'e', 'm', 'p', 'e', 'r', 'a', 't', 'u', 'r', 'e', '_', '2', 'm', '_', 'm', 'e', 'm', 'b', 'e', 'r']
}

/// Whether an hourly series of the ensemble response is one of the
/// temperature runs: the control run or a member run.
pub fn is_ensemble_temperature_series(name: &str) -> (r: bool)
    ensures
        r == (name@ == control_series_name() || text::starts_with_seq(name@, member_series_prefix())),
{
    let base: [char; 14] = ['t', 'e', 'm', 'p', 'e', 'r', 'a', 't', 'u', 'r', 'e', '_', '2', 'm'];
    let member: [char; 21] = ['t', 'e', 'm', 'p', 'e', 'r', 'a', 't', 'u', 'r', 'e', '_', '2', 'm', '_', 'm', 'e', 'm', 'b', 'e', 'r'];
    assert(base@ =~= control_series_name());
    assert(member@ =~= member_series_prefix());
    let chars = chars_of(name);
    let is_control = chars.len() == base.len() && starts_with_exec(&chars, &base);
    proof {
        if chars@.len() == base@.len() {
            assert(chars@ =~= chars@.subrange(0, base@.len() as int));
        }
    }
    is_control || starts_with_exec(&chars, &member)
}

/// A question that names a bucket sorts by that bucket's threshold; one that
/// names none, or a missing question, sorts with the largest key, `i32::MAX`.
pub proof fn lemma_question_key_is_threshold(question: Option<String>)
    ensures
        question_key(question) == match question {
            Some(q) => match bucket::spec_parse_bucket(q@) {
                Some(b) => b.threshold,
                None => i32::MAX,
            },
            None => i32::MAX,
        },
{
}

/// The threshold of the bucket `question` names, if it names one.
pub open spec fn named_threshold(question: Option<String>) -> Option<i32> {
    match question {
        Some(q) => match bucket::spec_parse_bucket(q@) {
            Some(b) => Some(b.threshold),
            None => None,
        },
        None => None,
    }
}

/// The threshold order lists the markets by ascending bucket threshold: of
/// two markets that both name a bucket, the lower threshold comes first, and
/// one naming no bucket comes after every market naming a bucket below
/// `i32::MAX`.
pub proof fn lemma_threshold_order_ascends(questions: Seq<Option<String>>, order: Seq<usize>, i: int, j: int)
    requires
        is_stable_order(question_keys(questions), order),
        0 <= i < j < order.len(),
    ensures
        match (named_threshold(questions[order[i] as int]), named_threshold(questions[order[j] as int])) {
            (Some(ti), Some(tj)) => ti <= tj,
            (None, Some(tj)) => tj == i32::MAX,
            _ => true,
        },
{
    let keys = question_keys(questions);
    assert(ranks_before(keys, order[i] as int, order[j] as int));
    assert(keys[order[i] as int] == question_key(questions[order[i] as int]));
    assert(keys[order[j] as int] == question_key(questions[order[j] as int]));
}

/// A tracked market ends on the target day, names the series and is not
/// closed; a market ending on any other day is never tracked, so no market is
/// tracked for two target days.
pub proof fn lemma_tracked_market_ends_on_target_day(
    question: Option<String>,
    end_day: Option<i32>,
    closed: Option<bool>,
    target_day: i32,
    other_day: i32,
)
    ensures
        spec_tracked_open_market(question, end_day, closed, target_day) ==> end_day == Some(target_day)
            && closed != Some(true) && question is Some,
        end_day != Some(target_day) ==> !spec_tracked_open_market(question, end_day, closed, target_day),
        other_day != target_day ==> !(spec_tracked_open_market(question, end_day, closed, target_day)
            && spec_tracked_open_market(question, end_day, closed, other_day)),
        closed == Some(true) ==> !spec_tracked_open_market(question, end_day, closed, target_day),
{
}

} // verus!
