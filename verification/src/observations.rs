//! Picking the METAR observations of a Tokyo date: which reports fall on the
//! date, and which is the latest of them carrying a raw report.

use vstd::prelude::*;

use crate::calendar::{self, tokyo_day_of_timestamp};

verus! {

/// An observation stamped `stamp` falls on the Tokyo date `day`.
pub open spec fn observed_on(stamp: Option<i64>, day: i32) -> bool {
    match stamp {
        Some(t) => calendar::valid_day(calendar::utc_day_of(t as int)) && calendar::tokyo_day_of(t as int)
            == day,
        None => false,
    }
}

/// Observation `i` falls on `day` and carries a raw report.
pub open spec fn reportable(stamps: Seq<Option<i64>>, has_report: Seq<bool>, day: i32, i: int) -> bool {
    observed_on(stamps[i], day) && has_report[i]
}

/// The observations of one Tokyo date.
pub struct ObservationSelection {
    /// For each observation, whether it falls on the date.
    pub on_date: Vec<bool>,
    /// The latest observation of the date that carries a raw report, the
    /// first one among equally late reports.
    pub latest_report: Option<usize>,
}

/// Selects the observations of `target_day` from their Unix timestamps and
/// whether each carries a raw report.
pub fn select_observations(stamps: &Vec<Option<i64>>, has_report: &Vec<bool>, target_day: i32) -> (r: ObservationSelection)
    requires
        stamps@.len() == has_report@.len(),
        forall|i: int|
            0 <= i < stamps@.len() ==> (#[trigger] stamps@[i] matches Some(t) ==> (calendar::valid_day(
                calendar::utc_day_of(t as int),
            ) ==> calendar::valid_day(calendar::tokyo_day_of(t as int)))),
    ensures
        r.on_date@.len() == stamps@.len(),
        forall|i: int| 0 <= i < stamps@.len() ==> #[trigger] r.on_date@[i] == observed_on(stamps@[i], target_day),
        r.latest_report is None <==> !exists|i: int| 0 <= i < stamps@.len() && reportable(stamps@, has_report@, target_day, i),
        r.latest_report matches Some(k) ==> k < stamps@.len() && reportable(stamps@, has_report@, target_day, k as int)
            && (forall|j: int| 0 <= j < stamps@.len() && reportable(stamps@, has_report@, target_day, j) ==> stamps@[j]->0 <= stamps@[k as int]->0)
            && (forall|j: int| 0 <= j < k && reportable(stamps@, has_report@, target_day, j) ==> stamps@[j]->0 < stamps@[k as int]->0),
{
    let mut on_date: Vec<bool> = Vec::new();
    let mut latest: Option<usize> = None;
    let mut i: usize = 0;
    while i < stamps.len()
        invariant
            i <= stamps@.len(),
            stamps@.len() == has_report@.len(),
            forall|j: int|
                0 <= j < stamps@.len() ==> (#[trigger] stamps@[j] matches Some(t) ==> (calendar::valid_day(
                    calendar::utc_day_of(t as int),
                ) ==> calendar::valid_day(calendar::tokyo_day_of(t as int)))),
            on_date@.len() == i,
            forall|j: int| 0 <= j < i ==> #[trigger] on_date@[j] == observed_on(stamps@[j], target_day),
            latest is None <==> !exists|j: int| 0 <= j < i && reportable(stamps@, has_report@, target_day, j),
            latest matches Some(k) ==> k < i && reportable(stamps@, has_report@, target_day, k as int)
                && (forall|j: int| 0 <= j < i && reportable(stamps@, has_report@, target_day, j) ==> stamps@[j]->0 <= stamps@[k as int]->0)
                && (forall|j: int| 0 <= j < k && reportable(stamps@, has_report@, target_day, j) ==> stamps@[j]->0 < stamps@[k as int]->0),
        decreases stamps@.len() - i,
    {
        let on = match stamps[i] {
            Some(t) => match tokyo_day_of_timestamp(t) {
                Some(d) => d == target_day,
                None => false,
            },
            None => false,
        };
        assert(on == observed_on(stamps@[i as int], target_day));
        let ghost before = latest;
        on_date.push(on);
        if on && has_report[i] {
            let later = match latest {
                None => true,
                Some(k) => match (stamps[i], stamps[k]) {
                    (Some(t), Some(best)) => t > best,
                    _ => false,
                },
            };
            if later {
                latest = Some(i);
            }
        }
        proof {
            if before is None && !reportable(stamps@, has_report@, target_day, i as int) {
                assert forall|j: int| 0 <= j < i + 1 implies !reportable(stamps@, has_report@, target_day, j) by {
                    if j < i {
                        if reportable(stamps@, has_report@, target_day, j) {
                            assert(exists|j: int| 0 <= j < i && reportable(stamps@, has_report@, target_day, j));
                        }
                    }
                }
            }
            if latest is Some {
                assert(exists|j: int| 0 <= j < i + 1 && reportable(stamps@, has_report@, target_day, j)) by {
                    let k = latest->0;
                    assert(reportable(stamps@, has_report@, target_day, k as int));
                }
            }
        }
        i = i + 1;
    }
    ObservationSelection { on_date, latest_report: latest }
}

} // verus!
