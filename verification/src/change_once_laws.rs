//! What the candidate journeys with one change are, and what the list of
//! districts holds.
use vstd::prelude::*;

use crate::change_once::{
    all_transfers, arrivals, cross, departures, distinct_upto, has_name, has_open_leg, pair_transfers, pairs_with,
    reached, start_transfers, Leg, Transfer,
};
use crate::fields::names;
use crate::seq_facts::{lemma_contains_left, lemma_contains_right, lemma_contains_split};

verus! {

/// `t` joins a direct journey from `start` to a direct journey to `end`, where
/// `end` is another district and no row at all goes from `start` to `end`.
pub open spec fn transfer_valid(rows: Seq<Leg>, start: Seq<char>, end: Seq<char>, t: Transfer) -> bool {
    &&& start != end
    &&& forall|i: int|
        #![trigger rows[i]]
        0 <= i < rows.len() ==> !(rows[i].district is Some && rows[i].district.unwrap()@ == start
            && rows[i].next_district is Some && rows[i].next_district.unwrap()@ == end)
    &&& t.first < rows.len()
    &&& t.second < rows.len()
    &&& rows[t.first as int].district is Some
    &&& rows[t.first as int].district.unwrap()@ == start
    &&& rows[t.second as int].next_district is Some
    &&& rows[t.second as int].next_district.unwrap()@ == end
}

proof fn lemma_departures(rows: Seq<Leg>, start: Seq<char>, n: nat, x: usize)
    requires
        n <= rows.len() <= usize::MAX,
    ensures
        departures(rows, start, n).contains(x) <==> x < n && names(rows[x as int].district, start),
    decreases n,
{
    if n > 0 {
        let prev = departures(rows, start, (n - 1) as nat);
        let extra = if names(rows[n - 1].district, start) {
            seq![(n - 1) as usize]
        } else {
            seq![]
        };
        lemma_departures(rows, start, (n - 1) as nat, x);
        if departures(rows, start, n).contains(x) {
            lemma_contains_split(prev, extra, x);
            if extra.contains(x) {
                assert(extra[0] == x);
            }
        }
        if x < n && names(rows[x as int].district, start) {
            if x == n - 1 {
                assert(extra[0] == x);
                lemma_contains_right(prev, extra, x);
            } else {
                lemma_contains_left(prev, extra, x);
            }
        }
    }
}

proof fn lemma_arrivals(rows: Seq<Leg>, end: Seq<char>, n: nat, x: usize)
    requires
        n <= rows.len() <= usize::MAX,
    ensures
        arrivals(rows, end, n).contains(x) <==> x < n && names(rows[x as int].next_district, end),
    decreases n,
{
    if n > 0 {
        let prev = arrivals(rows, end, (n - 1) as nat);
        let extra = if names(rows[n - 1].next_district, end) {
            seq![(n - 1) as usize]
        } else {
            seq![]
        };
        lemma_arrivals(rows, end, (n - 1) as nat, x);
        if arrivals(rows, end, n).contains(x) {
            lemma_contains_split(prev, extra, x);
            if extra.contains(x) {
                assert(extra[0] == x);
            }
        }
        if x < n && names(rows[x as int].next_district, end) {
            if x == n - 1 {
                assert(extra[0] == x);
                lemma_contains_right(prev, extra, x);
            } else {
                lemma_contains_left(prev, extra, x);
            }
        }
    }
}

proof fn lemma_pairs_with(i: usize, seconds: Seq<usize>, n: nat, t: Transfer)
    requires
        n <= seconds.len(),
    ensures
        pairs_with(i, seconds, n).contains(t) <==> t.first == i && exists|m: int|
            0 <= m < n && #[trigger] seconds[m] == t.second,
    decreases n,
{
    if n > 0 {
        let prev = pairs_with(i, seconds, (n - 1) as nat);
        let last = Transfer { first: i, second: seconds[n - 1] };
        lemma_pairs_with(i, seconds, (n - 1) as nat, t);
        assert(pairs_with(i, seconds, n) == prev.push(last));
        if pairs_with(i, seconds, n).contains(t) {
            let x: int = choose|x: int| 0 <= x < prev.push(last).len() && prev.push(last)[x] == t;
            if x < prev.len() {
                assert(prev[x] == t);
            } else {
                assert(seconds[n - 1] == t.second);
            }
        }
        if t.first == i && exists|m: int| 0 <= m < n && #[trigger] seconds[m] == t.second {
            let m: int = choose|m: int| 0 <= m < n && #[trigger] seconds[m] == t.second;
            if m == n - 1 {
                assert(prev.push(last)[prev.len() as int] == t);
            } else {
                assert(exists|m: int| 0 <= m < n - 1 && #[trigger] seconds[m] == t.second);
                let x: int = choose|x: int| 0 <= x < prev.len() && prev[x] == t;
                assert(prev.push(last)[x] == t);
            }
        }
    }
}

proof fn lemma_cross(firsts: Seq<usize>, seconds: Seq<usize>, n: nat, t: Transfer)
    requires
        n <= firsts.len(),
    ensures
        cross(firsts, seconds, n).contains(t) <==> (exists|p: int|
            0 <= p < n && #[trigger] firsts[p] == t.first) && seconds.contains(t.second),
    decreases n,
{
    if n > 0 {
        let prev = cross(firsts, seconds, (n - 1) as nat);
        let extra = pairs_with(firsts[n - 1], seconds, seconds.len());
        lemma_cross(firsts, seconds, (n - 1) as nat, t);
        lemma_pairs_with(firsts[n - 1], seconds, seconds.len(), t);
        if cross(firsts, seconds, n).contains(t) {
            lemma_contains_split(prev, extra, t);
            if extra.contains(t) {
                assert(firsts[n - 1] == t.first);
            }
        }
        if (exists|p: int| 0 <= p < n && #[trigger] firsts[p] == t.first) && seconds.contains(
            t.second,
        ) {
            let p: int = choose|p: int| 0 <= p < n && #[trigger] firsts[p] == t.first;
            if p == n - 1 {
                lemma_contains_right(prev, extra, t);
            } else {
                assert(exists|p: int| 0 <= p < n - 1 && #[trigger] firsts[p] == t.first);
                lemma_contains_left(prev, extra, t);
            }
        }
    }
}

proof fn lemma_pair_transfers(rows: Seq<Leg>, start: Seq<char>, end: Seq<char>, t: Transfer)
    requires
        rows.len() <= usize::MAX,
    ensures
        pair_transfers(rows, start, end).contains(t) <==> transfer_valid(rows, start, end, t),
{
    let no_direct_row = forall|i: int|
        #![trigger rows[i]]
        0 <= i < rows.len() ==> !(rows[i].district is Some && rows[i].district.unwrap()@ == start
            && rows[i].next_district is Some && rows[i].next_district.unwrap()@ == end);
    if reached(rows, start, end) {
        let i: int = choose|i: int|
            0 <= i < rows.len() && #[trigger] names(rows[i].district, start) && names(
                rows[i].next_district,
                end,
            );
        assert(!no_direct_row) by {
            assert(rows[i].district is Some && rows[i].district.unwrap()@ == start
                && rows[i].next_district is Some && rows[i].next_district.unwrap()@ == end);
        }
    } else {
        assert forall|i: int| #![trigger rows[i]] 0 <= i < rows.len() implies !(
        rows[i].district is Some && rows[i].district.unwrap()@ == start
            && rows[i].next_district is Some && rows[i].next_district.unwrap()@ == end) by {
            if rows[i].district is Some && rows[i].district.unwrap()@ == start
                && rows[i].next_district is Some && rows[i].next_district.unwrap()@ == end {
                assert(names(rows[i].district, start));
            }
        }
    }
    if !(end == start || reached(rows, start, end)) {
        let firsts = departures(rows, start, rows.len());
        let seconds = arrivals(rows, end, rows.len());
        lemma_cross(firsts, seconds, firsts.len(), t);
        lemma_departures(rows, start, rows.len(), t.first);
        lemma_arrivals(rows, end, rows.len(), t.second);
        if transfer_valid(rows, start, end, t) {
            let p: int = choose|p: int| 0 <= p < firsts.len() && firsts[p] == t.first;
            assert(firsts[p] == t.first);
        }
    }
}

proof fn lemma_start_transfers(
    rows: Seq<Leg>,
    districts: Seq<String>,
    start: Seq<char>,
    n: nat,
    t: Transfer,
)
    requires
        rows.len() <= usize::MAX,
        n <= districts.len(),
    ensures
        start_transfers(rows, districts, start, n).contains(t) <==> exists|b: int|
            0 <= b < n && #[trigger] transfer_valid(rows, start, districts[b]@, t),
    decreases n,
{
    if n > 0 {
        let prev = start_transfers(rows, districts, start, (n - 1) as nat);
        let extra = pair_transfers(rows, start, districts[n - 1]@);
        lemma_start_transfers(rows, districts, start, (n - 1) as nat, t);
        lemma_pair_transfers(rows, start, districts[n - 1]@, t);
        if start_transfers(rows, districts, start, n).contains(t) {
            lemma_contains_split(prev, extra, t);
            if extra.contains(t) {
                assert(transfer_valid(rows, start, districts[n - 1]@, t));
            }
        }
        if exists|b: int| 0 <= b < n && #[trigger] transfer_valid(rows, start, districts[b]@, t) {
            let b: int = choose|b: int|
                0 <= b < n && #[trigger] transfer_valid(rows, start, districts[b]@, t);
            if b == n - 1 {
                lemma_contains_right(prev, extra, t);
            } else {
                assert(transfer_valid(rows, start, districts[b]@, t));
                lemma_contains_left(prev, extra, t);
            }
        }
    }
}

proof fn lemma_all_transfers(rows: Seq<Leg>, districts: Seq<String>, n: nat, t: Transfer)
    requires
        rows.len() <= usize::MAX,
        n <= districts.len(),
    ensures
        all_transfers(rows, districts, n).contains(t) <==> exists|a: int, b: int|
            0 <= a < n && 0 <= b < districts.len() && #[trigger] transfer_valid(
                rows,
                districts[a]@,
                districts[b]@,
                t,
            ),
    decreases n,
{
    if n > 0 {
        let prev = all_transfers(rows, districts, (n - 1) as nat);
        let extra = start_transfers(rows, districts, districts[n - 1]@, districts.len());
        lemma_all_transfers(rows, districts, (n - 1) as nat, t);
        lemma_start_transfers(rows, districts, districts[n - 1]@, districts.len(), t);
        if all_transfers(rows, districts, n).contains(t) {
            lemma_contains_split(prev, extra, t);
            if extra.contains(t) {
                let b: int = choose|b: int|
                    0 <= b < districts.len() && #[trigger] transfer_valid(
                        rows,
                        districts[n - 1]@,
                        districts[b]@,
                        t,
                    );
                assert(transfer_valid(rows, districts[n - 1]@, districts[b]@, t));
            }
        }
        if exists|a: int, b: int|
            0 <= a < n && 0 <= b < districts.len() && #[trigger] transfer_valid(
                rows,
                districts[a]@,
                districts[b]@,
                t,
            ) {
            let (a, b): (int, int) = choose|a: int, b: int|
                0 <= a < n && 0 <= b < districts.len() && #[trigger] transfer_valid(
                    rows,
                    districts[a]@,
                    districts[b]@,
                    t,
                );
            if a == n - 1 {
                assert(transfer_valid(rows, districts[n - 1]@, districts[b]@, t));
                lemma_contains_right(prev, extra, t);
            } else {
                assert(transfer_valid(rows, districts[a]@, districts[b]@, t));
                lemma_contains_left(prev, extra, t);
            }
        }
    }
}

/// The candidates that `transfer_pairs` lists are exactly the pairs of a
/// direct journey from one district and a direct journey to another district
/// of the list, where no direct journey joins the two districts.
pub proof fn lemma_transfer_pairs_exact(rows: Seq<Leg>, districts: Seq<String>, t: Transfer)
    requires
        rows.len() <= usize::MAX,
    ensures
        all_transfers(rows, districts, districts.len()).contains(t) <==> exists|a: int, b: int|
            0 <= a < districts.len() && 0 <= b < districts.len() && #[trigger] transfer_valid(
                rows,
                districts[a]@,
                districts[b]@,
                t,
            ),
{
    lemma_all_transfers(rows, districts, districts.len(), t);
}

proof fn lemma_distinct_upto(values: Seq<String>, n: nat)
    requires
        n <= values.len(),
    ensures
        forall|i: int, j: int|
            0 <= i < j < distinct_upto(values, n).len() ==> #[trigger] distinct_upto(values, n)[i]@
                != #[trigger] distinct_upto(values, n)[j]@,
        forall|x: Seq<char>| has_name(distinct_upto(values, n), x) <==> exists|i: int|
            0 <= i < n && #[trigger] values[i]@ == x,
    decreases n,
{
    if n > 0 {
        lemma_distinct_upto(values, (n - 1) as nat);
        let prev = distinct_upto(values, (n - 1) as nat);
        let v = values[n - 1];
        assert forall|x: Seq<char>| has_name(distinct_upto(values, n), x) <==> exists|i: int|
            0 <= i < n && #[trigger] values[i]@ == x by {
            if has_name(prev, v@) {
                if x == v@ {
                    assert(values[n - 1]@ == x);
                }
                if exists|i: int| 0 <= i < n && #[trigger] values[i]@ == x {
                    let i: int = choose|i: int| 0 <= i < n && #[trigger] values[i]@ == x;
                    if i < n - 1 {
                        assert(exists|i: int| 0 <= i < n - 1 && #[trigger] values[i]@ == x);
                    }
                }
            } else {
                let next = prev.push(v);
                if has_name(next, x) {
                    let k: int = choose|k: int| 0 <= k < next.len() && #[trigger] next[k]@ == x;
                    if k < prev.len() {
                        assert(prev[k]@ == x);
                        assert(has_name(prev, x));
                    } else {
                        assert(values[n - 1]@ == x);
                    }
                }
                if exists|i: int| 0 <= i < n && #[trigger] values[i]@ == x {
                    let i: int = choose|i: int| 0 <= i < n && #[trigger] values[i]@ == x;
                    if i < n - 1 {
                        assert(exists|i: int| 0 <= i < n - 1 && #[trigger] values[i]@ == x);
                        assert(has_name(prev, x));
                        let k: int = choose|k: int| 0 <= k < prev.len() && #[trigger] prev[k]@ == x;
                        assert(next[k]@ == x);
                    } else {
                        assert(next[prev.len() as int]@ == x);
                    }
                }
            }
        }
        if !has_name(prev, v@) {
            let next = prev.push(v);
            assert forall|i: int, j: int| 0 <= i < j < next.len() implies #[trigger] next[i]@
                != #[trigger] next[j]@ by {
                if j == prev.len() {
                    assert(next[i]@ == prev[i]@);
                    if prev[i]@ == v@ {
                        assert(has_name(prev, v@));
                    }
                } else {
                    assert(next[i] == prev[i] && next[j] == prev[j]);
                }
            }
        }
    }
}

/// The list of districts holds each name once, and holds exactly the names
/// that the district table holds.
pub proof fn lemma_distinct_districts(values: Seq<String>)
    ensures
        forall|i: int, j: int|
            0 <= i < j < distinct_upto(values, values.len()).len() ==> #[trigger] distinct_upto(
                values,
                values.len(),
            )[i]@ != #[trigger] distinct_upto(values, values.len())[j]@,
        forall|k: int|
            0 <= k < distinct_upto(values, values.len()).len() ==> exists|i: int|
                0 <= i < values.len() && #[trigger] values[i]@ == #[trigger] distinct_upto(
                    values,
                    values.len(),
                )[k]@,
        forall|i: int|
            0 <= i < values.len() ==> exists|k: int|
                0 <= k < distinct_upto(values, values.len()).len() && #[trigger] distinct_upto(
                    values,
                    values.len(),
                )[k]@ == #[trigger] values[i]@,
{
    lemma_distinct_upto(values, values.len());
    let out = distinct_upto(values, values.len());
    assert forall|k: int| 0 <= k < out.len() implies exists|i: int|
        0 <= i < values.len() && #[trigger] values[i]@ == #[trigger] out[k]@ by {
        assert(has_name(out, out[k]@));
    }
    assert forall|i: int| 0 <= i < values.len() implies exists|k: int|
        0 <= k < out.len() && #[trigger] out[k]@ == #[trigger] values[i]@ by {
        assert(has_name(out, values[i]@));
    }
}

/// `transfer_pairs` has no answer exactly when some row starting in a listed
/// district has no end district.
pub proof fn lemma_open_leg_exact(rows: Seq<Leg>, districts: Seq<String>)
    ensures
        has_open_leg(rows, districts) <==> exists|a: int, i: int|
            #![trigger districts[a], rows[i]]
            0 <= a < districts.len() && 0 <= i < rows.len() && rows[i].district is Some
                && rows[i].district.unwrap()@ == districts[a]@ && rows[i].next_district is None,
{
    if has_open_leg(rows, districts) {
        let (a, i): (int, int) = choose|a: int, i: int|
            0 <= a < districts.len() && 0 <= i < rows.len() && #[trigger] names(
                rows[i].district,
                #[trigger] districts[a]@,
            ) && rows[i].next_district is None;
        assert(districts[a] == districts[a] && rows[i] == rows[i]);
    }
    if exists|a: int, i: int|
        #![trigger districts[a], rows[i]]
        0 <= a < districts.len() && 0 <= i < rows.len() && rows[i].district is Some
            && rows[i].district.unwrap()@ == districts[a]@ && rows[i].next_district is None {
        let (a, i): (int, int) = choose|a: int, i: int|
            #![trigger districts[a], rows[i]]
            0 <= a < districts.len() && 0 <= i < rows.len() && rows[i].district is Some
                && rows[i].district.unwrap()@ == districts[a]@ && rows[i].next_district is None;
        assert(names(rows[i].district, districts[a]@));
    }
}

} // verus!
