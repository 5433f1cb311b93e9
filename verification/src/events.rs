//! Selecting the resolved Tokyo daily-high events of a backtest or a
//! settlement from the closed events of the series: their dates, the longest
//! market list of each date, the resolved winner, and the most recent ones.

use vstd::prelude::*;

use crate::markets::{self, order_by_bucket_threshold, winner_index, DecimalPrice};
use crate::text::{self, chars_of, starts_with_exec};

verus! {

/// The title every event of the series begins with.
pub open spec fn series_title_prefix() -> Seq<char> {
    seq!['H', 'i', 'g', 'h', 'e', 's', 't', ' ', 't', 'e', 'm', 'p', 'e', 'r', 'a', 't', 'u', 'r', 'e', ' ', 'i', 'n', ' ', 'T', 'o', 'k', 'y', 'o']
}

/// The optional date bounds of a backtest are consistent: `since` does not
/// come after `until`.
pub fn bounds_in_order(since: Option<i32>, until: Option<i32>) -> (r: bool)
    ensures
        r == match (since, until) {
            (Some(s), Some(u)) => s <= u,
            _ => true,
        },
{
    match (since, until) {
        (Some(s), Some(u)) => s <= u,
        _ => true,
    }
}

/// The dates and count of resolved events a backtest or settlement asks for.
#[derive(Clone, Copy, Debug, PartialEq, Eq, Structural)]
pub struct ResolvedEventQuery {
    pub since: Option<i32>,
    pub until: Option<i32>,
    pub recent: usize,
}

/// `day` lies within the optional bounds `since` and `until`.
pub open spec fn within_bounds(since: Option<i32>, until: Option<i32>, day: int) -> bool {
    &&& (since matches Some(s) ==> s <= day)
    &&& (until matches Some(u) ==> day <= u)
}

impl ResolvedEventQuery {
    /// A query for the events from `since` through `until`, keeping only the
    /// `recent` latest ones when neither bound is given; `None` when `recent` is zero.
    pub fn new(since: Option<i32>, until: Option<i32>, recent: usize) -> (r: Option<Self>)
        ensures
            r is Some <==> recent > 0,
            r matches Some(q) ==> q.since == since && q.until == until && q.recent == recent,
    {
        if recent == 0 {
            None
        } else {
            Some(ResolvedEventQuery { since, until, recent })
        }
    }

    /// Whether a closed event of the series that ended on `day` and carries
    /// `title` belongs to the query.
    pub fn admits(&self, day: i32, title: Option<&str>) -> (r: bool)
        ensures
            r == (within_bounds(self.since, self.until, day as int) && match title {
                Some(t) => text::starts_with_seq(t@, series_title_prefix()),
                None => false,
            }),
            self.since matches Some(s) && day < s ==> !r,
            self.until matches Some(u) && day > u ==> !r,
    {
        match self.since {
            Some(s) => if day < s {
                return false;
            },
            None => {},
        }
        match self.until {
            Some(u) => if day > u {
                return false;
            },
            None => {},
        }
        match title {
            None => false,
            Some(t) => {
                let prefix: [char; 28] = ['H', 'i', 'g', 'h', 'e', 's', 't', ' ', 't', 'e', 'm', 'p', 'e', 'r', 'a', 't', 'u', 'r', 'e', ' ', 'i', 'n', ' ', 'T', 'o', 'k', 'y', 'o'];
                assert(prefix@ =~= series_title_prefix());
                starts_with_exec(&chars_of(t), &prefix)
            },
        }
    }
}


/// The market list an event of the series brought for its date: which
/// candidate it is and how many markets it lists.
#[derive(Clone, Copy, Debug, PartialEq, Eq, Structural)]
pub struct DayCandidate {
    pub day: i32,
    pub candidate: usize,
    pub market_count: usize,
}

/// Dates strictly ascend along `s`.
pub open spec fn days_ascending(s: Seq<DayCandidate>) -> bool {
    forall|i: int, j: int| 0 <= i < j < s.len() ==> #[trigger] s[i].day < #[trigger] s[j].day
}

/// The entry of `s` for `day`, if there is one.
pub open spec fn entry_for(s: Seq<DayCandidate>, day: i32) -> Option<DayCandidate> {
    if exists|i: int| 0 <= i < s.len() && #[trigger] s[i].day == day {
        Some(s[choose|i: int| 0 <= i < s.len() && #[trigger] s[i].day == day])
    } else {
        None
    }
}

/// The entry for `day` after an event offering `offer` for that day: the
/// offer wins when the day had none or listed fewer markets.
pub open spec fn after_offer(previous: Option<DayCandidate>, offer: DayCandidate) -> Option<DayCandidate> {
    match previous {
        None => Some(offer),
        Some(p) => if offer.market_count > p.market_count {
            Some(offer)
        } else {
            Some(p)
        },
    }
}

proof fn lemma_entry_at(s: Seq<DayCandidate>, i: int)
    requires
        days_ascending(s),
        0 <= i < s.len(),
    ensures
        entry_for(s, s[i].day) == Some(s[i]),
{
    let day = s[i].day;
    assert(s[i].day == day);
    let k = choose|k: int| 0 <= k < s.len() && #[trigger] s[k].day == day;
    if k < i {
        assert(s[k].day < s[i].day);
    } else if k > i {
        assert(s[i].day < s[k].day);
    }
}

/// The longest market list seen for each date, dates ascending: what the
/// series scan keeps while it pages through the closed events.
pub struct LongestListByDay {
    entries: Vec<DayCandidate>,
}

impl LongestListByDay {
    /// The entries, dates ascending.
    pub closed spec fn entries_view(&self) -> Seq<DayCandidate> {
        self.entries@
    }

    #[verifier::type_invariant]
    spec fn ascending(&self) -> bool {
        days_ascending(self.entries@)
    }

    /// No date seen yet.
    pub fn new() -> (r: Self)
        ensures
            r.entries_view() == Seq::<DayCandidate>::empty(),
    {
        LongestListByDay { entries: Vec::new() }
    }

    /// Records an event of `day` listing `market_count` markets: it replaces
    /// the day's entry only when it lists more markets than that entry.
    pub fn offer(&mut self, day: i32, candidate: usize, market_count: usize)
        ensures
            days_ascending(final(self).entries_view()),
            forall|d: i32|
                #![trigger entry_for(final(self).entries_view(), d)]
                entry_for(final(self).entries_view(), d) == if d == day {
                    after_offer(
                        entry_for(old(self).entries_view(), d),
                        DayCandidate { day, candidate, market_count },
                    )
                } else {
                    entry_for(old(self).entries_view(), d)
                },
    {
        proof {
            use_type_invariant(&*self);
        }
        let offer = DayCandidate { day, candidate, market_count };
        let n = self.entries.len();
        let mut p: usize = 0;
        while p < n && self.entries[p].day < day
            invariant
                n == self.entries@.len(),
                p <= n,
                days_ascending(self.entries@),
                forall|i: int| 0 <= i < p ==> #[trigger] self.entries@[i].day < day,
            decreases n - p,
        {
            p = p + 1;
        }
        let ghost old_entries = self.entries@;
        assert forall|i: int| p < i < n implies #[trigger] old_entries[i].day > day by {
            assert(old_entries[p as int].day < old_entries[i].day);
        }
        if p < n && self.entries[p].day == day {
            proof {
                lemma_entry_at(old_entries, p as int);
            }
            if market_count > self.entries[p].market_count {
                let mut entries: Vec<DayCandidate> = Vec::new();
                std::mem::swap(&mut entries, &mut self.entries);
                entries.set(p, offer);
                assert(days_ascending(entries@)) by {
                    assert forall|i: int, j: int| 0 <= i < j < entries@.len() implies #[trigger] entries@[i].day < #[trigger] entries@[j].day by {
                        assert(old_entries[i].day < old_entries[j].day);
                    }
                }
                proof {
                    assert forall|d: i32| #![trigger entry_for(entries@, d)] entry_for(entries@, d) == if d == day {
                        after_offer(entry_for(old_entries, d), offer)
                    } else {
                        entry_for(old_entries, d)
                    } by {
                        if d == day {
                            lemma_entry_at(entries@, p as int);
                        } else if exists|i: int| 0 <= i < old_entries.len() && #[trigger] old_entries[i].day == d {
                            let i = choose|i: int| 0 <= i < old_entries.len() && #[trigger] old_entries[i].day == d;
                            lemma_entry_at(old_entries, i);
                            lemma_entry_at(entries@, i);
                        } else {
                            assert(!exists|i: int| 0 <= i < entries@.len() && #[trigger] entries@[i].day == d) by {
                                if exists|i: int| 0 <= i < entries@.len() && #[trigger] entries@[i].day == d {
                                    let i = choose|i: int| 0 <= i < entries@.len() && #[trigger] entries@[i].day == d;
                                    assert(old_entries[i].day == d);
                                }
                            }
                        }
                    }
                }
                self.entries = entries;
            }
        } else {
            let mut entries: Vec<DayCandidate> = Vec::new();
                std::mem::swap(&mut entries, &mut self.entries);
            entries.insert(p, offer);
            assert(entries@ =~= old_entries.subrange(0, p as int).push(offer) + old_entries.subrange(p as int, n as int));
            assert(days_ascending(entries@)) by {
                assert forall|i: int, j: int| 0 <= i < j < entries@.len() implies #[trigger] entries@[i].day < #[trigger] entries@[j].day by {
                    if j < p {
                        assert(old_entries[i].day < old_entries[j].day);
                    } else if j == p {
                    } else if i < p {
                        assert(entries@[j] == old_entries[j - 1]);
                    } else if i == p {
                        assert(entries@[j] == old_entries[j - 1]);
                    } else {
                        assert(old_entries[i - 1].day < old_entries[j - 1].day);
                    }
                }
            }
            proof {
                assert(!exists|i: int| 0 <= i < old_entries.len() && #[trigger] old_entries[i].day == day) by {
                    if exists|i: int| 0 <= i < old_entries.len() && #[trigger] old_entries[i].day == day {
                        let i = choose|i: int| 0 <= i < old_entries.len() && #[trigger] old_entries[i].day == day;
                        if i < p {
                        } else if i == p {
                        } else {
                        }
                    }
                }
                assert forall|d: i32| #![trigger entry_for(entries@, d)] entry_for(entries@, d) == if d == day {
                    after_offer(entry_for(old_entries, d), offer)
                } else {
                    entry_for(old_entries, d)
                } by {
                    if d == day {
                        lemma_entry_at(entries@, p as int);
                    } else if exists|i: int| 0 <= i < old_entries.len() && #[trigger] old_entries[i].day == d {
                        let i = choose|i: int| 0 <= i < old_entries.len() && #[trigger] old_entries[i].day == d;
                        lemma_entry_at(old_entries, i);
                        if i < p {
                            lemma_entry_at(entries@, i);
                        } else {
                            assert(entries@[i + 1] == old_entries[i]);
                            lemma_entry_at(entries@, i + 1);
                        }
                    } else {
                        assert(!exists|i: int| 0 <= i < entries@.len() && #[trigger] entries@[i].day == d) by {
                            if exists|i: int| 0 <= i < entries@.len() && #[trigger] entries@[i].day == d {
                                let i = choose|i: int| 0 <= i < entries@.len() && #[trigger] entries@[i].day == d;
                                if i < p {
                                    assert(old_entries[i].day == d);
                                } else if i > p {
                                    assert(old_entries[i - 1].day == d);
                                }
                            }
                        }
                    }
                }
            }
            self.entries = entries;
        }
    }

    /// The kept entries, dates ascending.
    pub fn into_entries(self) -> (r: Vec<DayCandidate>)
        ensures
            r@ == self.entries_view(),
            days_ascending(r@),
    {
        proof {
            use_type_invariant(&self);
        }
        self.entries
    }
}


/// The markets an event of the series listed for its date: their questions
/// and YES prices, in the order the event listed them.
pub struct CandidateMarkets {
    pub day: i32,
    pub questions: Vec<Option<String>>,
    pub yes_prices: Vec<Option<DecimalPrice>>,
}

/// The candidate's lists line up and hold only prices a decimal can hold.
pub open spec fn well_formed_candidate(c: CandidateMarkets) -> bool {
    &&& c.questions@.len() == c.yes_prices@.len()
    &&& forall|i: int| 0 <= i < c.yes_prices@.len() ==> (#[trigger] c.yes_prices@[i] matches Some(p) ==> markets::valid_decimal(p))
}

/// A candidate settles as a resolved event: it lists at least four markets
/// and one of them resolved YES.
pub open spec fn resolves(c: CandidateMarkets) -> bool {
    &&& c.questions@.len() >= 4
    &&& exists|i: int| 0 <= i < c.yes_prices@.len() && markets::resolved_yes(#[trigger] c.yes_prices@[i])
}

/// `order` sorts the candidate's markets stably by bucket threshold and
/// `winner` is the first position, in that order, of a market that resolved YES.
pub open spec fn sorted_with_winner(c: CandidateMarkets, order: Seq<usize>, winner: int) -> bool {
    &&& markets::is_stable_order(markets::question_keys(c.questions@), order)
    &&& 0 <= winner < order.len()
    &&& markets::resolved_yes(c.yes_prices@[order[winner] as int])
    &&& forall|p: int| 0 <= p < winner ==> !markets::resolved_yes(c.yes_prices@[#[trigger] order[p] as int])
}

/// Sorts one candidate's markets by bucket threshold and finds its winner:
/// `None` unless it lists at least four markets and one resolved YES.
pub fn resolve_event(candidate: &CandidateMarkets) -> (r: Option<(Vec<usize>, usize)>)
    requires
        well_formed_candidate(*candidate),
    ensures
        r is Some <==> resolves(*candidate),
        r matches Some((order, winner)) ==> sorted_with_winner(*candidate, order@, winner as int),
{
    let order = order_by_bucket_threshold(&candidate.questions);
    let ghost keys = markets::question_keys(candidate.questions@);
    let mut sorted_prices: Vec<Option<DecimalPrice>> = Vec::new();
    let mut p: usize = 0;
    while p < order.len()
        invariant
            markets::is_stable_order(keys, order@),
            keys.len() == candidate.questions@.len(),
            well_formed_candidate(*candidate),
            p <= order@.len(),
            sorted_prices@.len() == p,
            forall|k: int| 0 <= k < p ==> #[trigger] sorted_prices@[k] == candidate.yes_prices@[order@[k] as int],
        decreases order@.len() - p,
    {
        let at = order[p];
        sorted_prices.push(candidate.yes_prices[at]);
        p = p + 1;
    }
    let winner = winner_index(&sorted_prices);
    match winner {
        None => {
            assert(!resolves(*candidate)) by {
                if exists|i: int| 0 <= i < candidate.yes_prices@.len() && markets::resolved_yes(#[trigger] candidate.yes_prices@[i]) {
                    let i = choose|i: int| 0 <= i < candidate.yes_prices@.len() && markets::resolved_yes(#[trigger] candidate.yes_prices@[i]);
                    assert(order@.contains(i as usize));
                    let k = choose|k: int| 0 <= k < order@.len() && order@[k] == i as usize;
                    assert(sorted_prices@[k] == candidate.yes_prices@[i]);
                }
            }
            None
        },
        Some(w) => {
            assert(markets::resolved_yes(candidate.yes_prices@[order@[w as int] as int]));
            if candidate.questions.len() < 4 {
                None
            } else {
                assert(forall|q: int| 0 <= q < w ==> !markets::resolved_yes(candidate.yes_prices@[#[trigger] order@[q] as int])) by {
                    assert forall|q: int| 0 <= q < w implies !markets::resolved_yes(candidate.yes_prices@[#[trigger] order@[q] as int]) by {
                        assert(sorted_prices@[q] == candidate.yes_prices@[order@[q] as int]);
                    }
                }
                Some((order, w))
            }
        },
    }
}

/// A resolved event: which candidate it came from, its date, its markets'
/// threshold order (positions into the candidate's lists) and the position,
/// in that order, of the winning market.
pub struct ResolvedEvent {
    pub source: usize,
    pub day: i32,
    pub order: Vec<usize>,
    pub winner_index: usize,
}

/// Positions, ascending, of the candidates that settle as resolved events.
pub open spec fn resolving_positions(candidates: Seq<CandidateMarkets>) -> Seq<usize>
    decreases candidates.len(),
{
    if candidates.len() == 0 {
        seq![]
    } else {
        let rest = resolving_positions(candidates.drop_last());
        if resolves(candidates.last()) {
            rest.push((candidates.len() - 1) as usize)
        } else {
            rest
        }
    }
}

/// The last `recent` of `positions` when no date bound was given, else all of them.
pub open spec fn keep_recent(positions: Seq<usize>, bounded: bool, recent: nat) -> Seq<usize> {
    if !bounded && positions.len() > recent {
        positions.skip(positions.len() - recent)
    } else {
        positions
    }
}

/// `e` is candidate `c` resolved.
pub open spec fn describes(e: ResolvedEvent, c: CandidateMarkets) -> bool {
    &&& e.day == c.day
    &&& sorted_with_winner(c, e.order@, e.winner_index as int)
}

impl ResolvedEventQuery {
    /// The resolved events among `candidates` (the longest market list of
    /// each admitted date, in date order): every candidate that settles,
    /// in the given order, only the `recent` latest when no date bound was given.
    pub fn select_resolved_events(&self, candidates: &Vec<CandidateMarkets>) -> (r: Vec<ResolvedEvent>)
        requires
            forall|i: int| 0 <= i < candidates@.len() ==> well_formed_candidate(#[trigger] candidates@[i]),
        ensures
            r@.map_values(|e: ResolvedEvent| e.source) == keep_recent(
                resolving_positions(candidates@),
                self.since is Some || self.until is Some,
                self.recent as nat,
            ),
            forall|k: int| 0 <= k < r@.len() ==> #[trigger] r@[k].source < candidates@.len()
                && describes(r@[k], candidates@[r@[k].source as int]),
    {
        let mut events: Vec<ResolvedEvent> = Vec::new();
        let mut i: usize = 0;
        while i < candidates.len()
            invariant
                i <= candidates@.len(),
                forall|j: int| 0 <= j < candidates@.len() ==> well_formed_candidate(#[trigger] candidates@[j]),
                events@.map_values(|e: ResolvedEvent| e.source) == resolving_positions(candidates@.take(i as int)),
                forall|k: int| 0 <= k < events@.len() ==> #[trigger] events@[k].source < i
                    && describes(events@[k], candidates@[events@[k].source as int]),
            decreases candidates@.len() - i,
        {
            let c = &candidates[i];
            assert(candidates@.take(i + 1).drop_last() =~= candidates@.take(i as int));
            assert(candidates@.take(i + 1).last() == candidates@[i as int]);
            match resolve_event(c) {
                Some((order, winner)) => {
                    events.push(ResolvedEvent { source: i, day: c.day, order, winner_index: winner });
                    assert(events@.map_values(|e: ResolvedEvent| e.source) =~= resolving_positions(candidates@.take(i as int)).push(i));
                },
                None => {
                    assert(events@.map_values(|e: ResolvedEvent| e.source) =~= resolving_positions(candidates@.take(i + 1)));
                },
            }
            i = i + 1;
        }
        assert(candidates@.take(candidates@.len() as int) =~= candidates@);
        if self.since.is_none() && self.until.is_none() && events.len() > self.recent {
            let ghost all = events@;
            let tail = events.split_off(events.len() - self.recent);
            assert(tail@.map_values(|e: ResolvedEvent| e.source) =~= all.map_values(|e: ResolvedEvent| e.source).skip(all.len() - self.recent));
            tail
        } else {
            events
        }
    }
}


/// Without date bounds, only the last `recent` resolved events remain, in
/// their order; with a bound, all remain.
pub proof fn lemma_keep_recent_keeps_latest(positions: Seq<usize>, bounded: bool, recent: nat)
    ensures
        bounded ==> keep_recent(positions, bounded, recent) == positions,
        !bounded ==> keep_recent(positions, bounded, recent).len() == vstd::math::min(
            positions.len() as int,
            recent as int,
        ),
        forall|k: int|
            0 <= k < keep_recent(positions, bounded, recent).len() ==> #[trigger] keep_recent(
                positions,
                bounded,
                recent,
            )[k] == positions[positions.len() - keep_recent(positions, bounded, recent).len() + k],
{
}

/// Each date bound filters on its own: a date before `since` or after
/// `until` is out whatever the other bound is, a date between the given
/// bounds is in, and dropping a bound never excludes a date that was in.
pub proof fn lemma_each_bound_filters_alone(since: Option<i32>, until: Option<i32>, day: int)
    ensures
        since matches Some(s) && day < s ==> !within_bounds(since, until, day),
        until matches Some(u) && day > u ==> !within_bounds(since, until, day),
        (since matches Some(s) ==> s <= day) && (until matches Some(u) ==> day <= u) ==> within_bounds(
            since,
            until,
            day,
        ),
        within_bounds(since, until, day) ==> within_bounds(None, until, day) && within_bounds(
            since,
            None,
            day,
        ),
        within_bounds(None, None, day),
{
}

} // verus!
