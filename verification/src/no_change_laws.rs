//! What the journeys without change are: exactly the forward journeys on one
//! route, other than the MTR, between two of the districts.
use vstd::prelude::*;

use crate::fields::names;
use crate::no_change::{
    legs_of, within_journey, qualifies, alightings, all_direct_journeys, boardings, district_pair_journeys, is_first_of_route, is_mtr,
    journeys_between, journeys_from, route_journeys, same_route, start_journeys, DirectRoute,
    Segment,
};
use crate::seq_facts::{lemma_contains_left, lemma_contains_right, lemma_contains_split};

verus! {

/// Some segment with the transport, route id and route sequence of row `k`
/// starts in `start` at stop `v`.
pub open spec fn boards_at(rows: Seq<Segment>, k: int, start: Seq<char>, v: u32) -> bool {
    exists|j: int|
        #![trigger rows[j]]
        0 <= j < rows.len() && rows[j].transport@ == rows[k].transport@ && rows[j].route_id@
            == rows[k].route_id@ && rows[j].route_seq@ == rows[k].route_seq@
            && rows[j].district is Some && rows[j].district.unwrap()@ == start
            && rows[j].stop_seq == Some(v)
}

/// Some segment with the transport, route id and route sequence of row `k`
/// ends in `end` at stop `v`.
pub open spec fn leaves_at(rows: Seq<Segment>, k: int, end: Seq<char>, v: u32) -> bool {
    exists|j: int|
        #![trigger rows[j]]
        0 <= j < rows.len() && rows[j].transport@ == rows[k].transport@ && rows[j].route_id@
            == rows[k].route_id@ && rows[j].route_seq@ == rows[k].route_seq@
            && rows[j].next_district is Some && rows[j].next_district.unwrap()@ == end
            && rows[j].next_stop_seq == Some(v)
}

/// `d` is a forward journey from `start` to `end` on a route that is not the MTR.
pub open spec fn direct_journey_valid(
    rows: Seq<Segment>,
    start: Seq<char>,
    end: Seq<char>,
    d: DirectRoute,
) -> bool {
    &&& d.route < rows.len()
    &&& rows[d.route as int].transport@ != "MTR"@
    &&& d.stop_seq < d.next_stop_seq
    &&& boards_at(rows, d.route as int, start, d.stop_seq)
    &&& leaves_at(rows, d.route as int, end, d.next_stop_seq)
}

proof fn lemma_boardings_sound(rows: Seq<Segment>, k: int, start: Seq<char>, n: nat, v: u32)
    requires
        n <= rows.len(),
        boardings(rows, k, start, n).contains(v),
    ensures
        boards_at(rows, k, start, v),
    decreases n,
{
    let r = rows[n - 1];
    let extra = if same_route(r, rows[k]) && names(r.district, start) && r.stop_seq is Some {
        seq![r.stop_seq.unwrap()]
    } else {
        seq![]
    };
    lemma_contains_split(boardings(rows, k, start, (n - 1) as nat), extra, v);
    if boardings(rows, k, start, (n - 1) as nat).contains(v) {
        lemma_boardings_sound(rows, k, start, (n - 1) as nat, v);
    } else {
        assert(extra[0] == v);
        assert(same_route(rows[n - 1], rows[k]));
    }
}

proof fn lemma_alightings_sound(rows: Seq<Segment>, k: int, end: Seq<char>, n: nat, v: u32)
    requires
        n <= rows.len(),
        alightings(rows, k, end, n).contains(v),
    ensures
        leaves_at(rows, k, end, v),
    decreases n,
{
    let r = rows[n - 1];
    let extra = if same_route(r, rows[k]) && names(r.next_district, end) && r.next_stop_seq is Some {
        seq![r.next_stop_seq.unwrap()]
    } else {
        seq![]
    };
    lemma_contains_split(alightings(rows, k, end, (n - 1) as nat), extra, v);
    if alightings(rows, k, end, (n - 1) as nat).contains(v) {
        lemma_alightings_sound(rows, k, end, (n - 1) as nat, v);
    } else {
        assert(extra[0] == v);
        assert(same_route(rows[n - 1], rows[k]));
    }
}

proof fn lemma_journeys_from_sound(k: int, s: u32, ends: Seq<u32>, n: nat, d: DirectRoute)
    requires
        n <= ends.len(),
        journeys_from(k, s, ends, n).contains(d),
    ensures
        d.route == k as usize,
        d.stop_seq == s,
        s < d.next_stop_seq,
        ends.contains(d.next_stop_seq),
    decreases n,
{
    let extra = if s < ends[n - 1] {
        seq![DirectRoute { route: k as usize, stop_seq: s, next_stop_seq: ends[n - 1] }]
    } else {
        seq![]
    };
    lemma_contains_split(journeys_from(k, s, ends, (n - 1) as nat), extra, d);
    if journeys_from(k, s, ends, (n - 1) as nat).contains(d) {
        lemma_journeys_from_sound(k, s, ends, (n - 1) as nat, d);
    } else {
        assert(extra[0] == d);
        assert(ends[n - 1] == d.next_stop_seq);
    }
}

proof fn lemma_journeys_between_sound(
    k: int,
    starts: Seq<u32>,
    ends: Seq<u32>,
    n: nat,
    d: DirectRoute,
)
    requires
        n <= starts.len(),
        journeys_between(k, starts, ends, n).contains(d),
    ensures
        d.route == k as usize,
        starts.contains(d.stop_seq),
        ends.contains(d.next_stop_seq),
        d.stop_seq < d.next_stop_seq,
    decreases n,
{
    lemma_contains_split(
        journeys_between(k, starts, ends, (n - 1) as nat),
        journeys_from(k, starts[n - 1], ends, ends.len()),
        d,
    );
    if journeys_between(k, starts, ends, (n - 1) as nat).contains(d) {
        lemma_journeys_between_sound(k, starts, ends, (n - 1) as nat, d);
    } else {
        lemma_journeys_from_sound(k, starts[n - 1], ends, ends.len(), d);
        assert(starts[n - 1] == d.stop_seq);
    }
}

proof fn lemma_pair_sound(rows: Seq<Segment>, start: Seq<char>, end: Seq<char>, n: nat, d: DirectRoute)
    requires
        n <= rows.len() <= usize::MAX,
        district_pair_journeys(rows, start, end, n).contains(d),
    ensures
        direct_journey_valid(rows, start, end, d),
    decreases n,
{
    let k: int = n - 1;
    let extra = if is_first_of_route(rows, k, start, end) {
        route_journeys(rows, k, start, end)
    } else {
        seq![]
    };
    lemma_contains_split(district_pair_journeys(rows, start, end, (n - 1) as nat), extra, d);
    if district_pair_journeys(rows, start, end, (n - 1) as nat).contains(d) {
        lemma_pair_sound(rows, start, end, (n - 1) as nat, d);
    } else {
        assert(is_first_of_route(rows, k, start, end));
        let starts = boardings(rows, k, start, rows.len());
        let ends = alightings(rows, k, end, rows.len());
        lemma_journeys_between_sound(k, starts, ends, starts.len(), d);
        lemma_boardings_sound(rows, k, start, rows.len(), d.stop_seq);
        lemma_alightings_sound(rows, k, end, rows.len(), d.next_stop_seq);
    }
}

proof fn lemma_start_sound(
    rows: Seq<Segment>,
    districts: Seq<String>,
    start: Seq<char>,
    n: nat,
    d: DirectRoute,
)
    requires
        n <= districts.len(),
        rows.len() <= usize::MAX,
        start_journeys(rows, districts, start, n).contains(d),
    ensures
        exists|b: int|
            0 <= b < districts.len() && #[trigger] direct_journey_valid(
                rows,
                start,
                districts[b]@,
                d,
            ),
    decreases n,
{
    let extra = district_pair_journeys(rows, start, districts[n - 1]@, rows.len());
    lemma_contains_split(start_journeys(rows, districts, start, (n - 1) as nat), extra, d);
    if start_journeys(rows, districts, start, (n - 1) as nat).contains(d) {
        lemma_start_sound(rows, districts, start, (n - 1) as nat, d);
    } else {
        lemma_pair_sound(rows, start, districts[n - 1]@, rows.len(), d);
        assert(direct_journey_valid(rows, start, districts[n - 1]@, d));
    }
}

proof fn lemma_all_sound(rows: Seq<Segment>, districts: Seq<String>, n: nat, d: DirectRoute)
    requires
        n <= districts.len(),
        rows.len() <= usize::MAX,
        all_direct_journeys(rows, districts, n).contains(d),
    ensures
        exists|a: int, b: int|
            0 <= a < districts.len() && 0 <= b < districts.len() && #[trigger] direct_journey_valid(
                rows,
                districts[a]@,
                districts[b]@,
                d,
            ),
    decreases n,
{
    let extra = start_journeys(rows, districts, districts[n - 1]@, districts.len());
    lemma_contains_split(all_direct_journeys(rows, districts, (n - 1) as nat), extra, d);
    if all_direct_journeys(rows, districts, (n - 1) as nat).contains(d) {
        lemma_all_sound(rows, districts, (n - 1) as nat, d);
    } else {
        lemma_start_sound(rows, districts, districts[n - 1]@, districts.len(), d);
        let b: int = choose|b: int|
            0 <= b < districts.len() && #[trigger] direct_journey_valid(
                rows,
                districts[n - 1]@,
                districts[b]@,
                d,
            );
        assert(direct_journey_valid(rows, districts[n - 1]@, districts[b]@, d));
    }
}

/// Every journey without change that `direct_routes` finds goes forward, on a
/// route other than the MTR, from a stop of that route in one of the districts
/// to a later stop of the same route in one of the districts.
pub proof fn lemma_direct_routes_sound(rows: Seq<Segment>, districts: Seq<String>, d: DirectRoute)
    requires
        rows.len() <= usize::MAX,
        all_direct_journeys(rows, districts, districts.len()).contains(d),
    ensures
        exists|a: int, b: int|
            0 <= a < districts.len() && 0 <= b < districts.len() && #[trigger] direct_journey_valid(
                rows,
                districts[a]@,
                districts[b]@,
                d,
            ),
{
    lemma_all_sound(rows, districts, districts.len(), d);
}

proof fn lemma_first_of_route_exists(rows: Seq<Segment>, start: Seq<char>, end: Seq<char>, i: int) -> (l:
    int)
    requires
        0 <= i < rows.len(),
        qualifies(rows[i], start, end),
    ensures
        0 <= l <= i,
        is_first_of_route(rows, l, start, end),
        same_route(rows[l], rows[i]),
    decreases i,
{
    if exists|j: int|
        0 <= j < i && #[trigger] qualifies(rows[j], start, end) && same_route(rows[j], rows[i]) {
        let j: int = choose|j: int|
            0 <= j < i && #[trigger] qualifies(rows[j], start, end) && same_route(rows[j], rows[i]);
        lemma_first_of_route_exists(rows, start, end, j)
    } else {
        i
    }
}

proof fn lemma_boardings_complete(rows: Seq<Segment>, k: int, start: Seq<char>, n: nat, j: int)
    requires
        0 <= j < n <= rows.len(),
        same_route(rows[j], rows[k]),
        names(rows[j].district, start),
        rows[j].stop_seq is Some,
    ensures
        boardings(rows, k, start, n).contains(rows[j].stop_seq.unwrap()),
    decreases n,
{
    let r = rows[n - 1];
    let extra = if same_route(r, rows[k]) && names(r.district, start) && r.stop_seq is Some {
        seq![r.stop_seq.unwrap()]
    } else {
        seq![]
    };
    if j == n - 1 {
        assert(extra[0] == rows[j].stop_seq.unwrap());
        lemma_contains_right(boardings(rows, k, start, (n - 1) as nat), extra, rows[j].stop_seq.unwrap());
    } else {
        lemma_boardings_complete(rows, k, start, (n - 1) as nat, j);
        lemma_contains_left(boardings(rows, k, start, (n - 1) as nat), extra, rows[j].stop_seq.unwrap());
    }
}

proof fn lemma_alightings_complete(rows: Seq<Segment>, k: int, end: Seq<char>, n: nat, j: int)
    requires
        0 <= j < n <= rows.len(),
        same_route(rows[j], rows[k]),
        names(rows[j].next_district, end),
        rows[j].next_stop_seq is Some,
    ensures
        alightings(rows, k, end, n).contains(rows[j].next_stop_seq.unwrap()),
    decreases n,
{
    let r = rows[n - 1];
    let extra = if same_route(r, rows[k]) && names(r.next_district, end) && r.next_stop_seq is Some {
        seq![r.next_stop_seq.unwrap()]
    } else {
        seq![]
    };
    if j == n - 1 {
        assert(extra[0] == rows[j].next_stop_seq.unwrap());
        lemma_contains_right(alightings(rows, k, end, (n - 1) as nat), extra, rows[j].next_stop_seq.unwrap());
    } else {
        lemma_alightings_complete(rows, k, end, (n - 1) as nat, j);
        lemma_contains_left(alightings(rows, k, end, (n - 1) as nat), extra, rows[j].next_stop_seq.unwrap());
    }
}

proof fn lemma_journeys_from_complete(k: int, s: u32, ends: Seq<u32>, n: nat, m: int)
    requires
        0 <= m < n <= ends.len(),
        s < ends[m],
    ensures
        journeys_from(k, s, ends, n).contains(
            DirectRoute { route: k as usize, stop_seq: s, next_stop_seq: ends[m] },
        ),
    decreases n,
{
    let d = DirectRoute { route: k as usize, stop_seq: s, next_stop_seq: ends[m] };
    let extra = if s < ends[n - 1] {
        seq![DirectRoute { route: k as usize, stop_seq: s, next_stop_seq: ends[n - 1] }]
    } else {
        seq![]
    };
    if m == n - 1 {
        assert(extra[0] == d);
        lemma_contains_right(journeys_from(k, s, ends, (n - 1) as nat), extra, d);
    } else {
        lemma_journeys_from_complete(k, s, ends, (n - 1) as nat, m);
        lemma_contains_left(journeys_from(k, s, ends, (n - 1) as nat), extra, d);
    }
}

proof fn lemma_journeys_between_complete(
    k: int,
    starts: Seq<u32>,
    ends: Seq<u32>,
    n: nat,
    p: int,
    m: int,
)
    requires
        0 <= p < n <= starts.len(),
        0 <= m < ends.len(),
        starts[p] < ends[m],
    ensures
        journeys_between(k, starts, ends, n).contains(
            DirectRoute { route: k as usize, stop_seq: starts[p], next_stop_seq: ends[m] },
        ),
    decreases n,
{
    let d = DirectRoute { route: k as usize, stop_seq: starts[p], next_stop_seq: ends[m] };
    let prev = journeys_between(k, starts, ends, (n - 1) as nat);
    let extra = journeys_from(k, starts[n - 1], ends, ends.len());
    if p == n - 1 {
        lemma_journeys_from_complete(k, starts[p], ends, ends.len(), m);
        lemma_contains_right(prev, extra, d);
    } else {
        lemma_journeys_between_complete(k, starts, ends, (n - 1) as nat, p, m);
        lemma_contains_left(prev, extra, d);
    }
}

proof fn lemma_pair_complete(
    rows: Seq<Segment>,
    start: Seq<char>,
    end: Seq<char>,
    n: nat,
    l: int,
    d: DirectRoute,
)
    requires
        0 <= l < n <= rows.len(),
        is_first_of_route(rows, l, start, end),
        route_journeys(rows, l, start, end).contains(d),
    ensures
        district_pair_journeys(rows, start, end, n).contains(d),
    decreases n,
{
    let prev = district_pair_journeys(rows, start, end, (n - 1) as nat);
    let extra = if is_first_of_route(rows, n - 1, start, end) {
        route_journeys(rows, n - 1, start, end)
    } else {
        seq![]
    };
    if l == n - 1 {
        lemma_contains_right(prev, extra, d);
    } else {
        lemma_pair_complete(rows, start, end, (n - 1) as nat, l, d);
        lemma_contains_left(prev, extra, d);
    }
}

proof fn lemma_start_complete(
    rows: Seq<Segment>,
    districts: Seq<String>,
    start: Seq<char>,
    n: nat,
    b: int,
    d: DirectRoute,
)
    requires
        0 <= b < n <= districts.len(),
        district_pair_journeys(rows, start, districts[b]@, rows.len()).contains(d),
    ensures
        start_journeys(rows, districts, start, n).contains(d),
    decreases n,
{
    let prev = start_journeys(rows, districts, start, (n - 1) as nat);
    let extra = district_pair_journeys(rows, start, districts[n - 1]@, rows.len());
    if b == n - 1 {
        lemma_contains_right(prev, extra, d);
    } else {
        lemma_start_complete(rows, districts, start, (n - 1) as nat, b, d);
        lemma_contains_left(prev, extra, d);
    }
}

proof fn lemma_all_complete(rows: Seq<Segment>, districts: Seq<String>, n: nat, a: int, d: DirectRoute)
    requires
        0 <= a < n <= districts.len(),
        start_journeys(rows, districts, districts[a]@, districts.len()).contains(d),
    ensures
        all_direct_journeys(rows, districts, n).contains(d),
    decreases n,
{
    let prev = all_direct_journeys(rows, districts, (n - 1) as nat);
    let extra = start_journeys(rows, districts, districts[n - 1]@, districts.len());
    if a == n - 1 {
        lemma_contains_right(prev, extra, d);
    } else {
        lemma_all_complete(rows, districts, (n - 1) as nat, a, d);
        lemma_contains_left(prev, extra, d);
    }
}

/// Every forward journey on a route other than the MTR, boarded at a stop in
/// one of the districts and left at a later stop in one of the districts, is
/// found by `direct_routes`, under the route's first qualifying segment.
pub proof fn lemma_direct_routes_complete(
    rows: Seq<Segment>,
    districts: Seq<String>,
    a: int,
    b: int,
    i: int,
    j: int,
)
    requires
        rows.len() <= usize::MAX,
        0 <= a < districts.len(),
        0 <= b < districts.len(),
        0 <= i < rows.len(),
        0 <= j < rows.len(),
        rows[i].transport@ != "MTR"@,
        rows[i].transport@ == rows[j].transport@,
        rows[i].route_id@ == rows[j].route_id@,
        rows[i].route_seq@ == rows[j].route_seq@,
        rows[i].district is Some,
        rows[i].district.unwrap()@ == districts[a]@,
        rows[j].next_district is Some,
        rows[j].next_district.unwrap()@ == districts[b]@,
        rows[i].stop_seq is Some,
        rows[j].next_stop_seq is Some,
        rows[i].stop_seq.unwrap() < rows[j].next_stop_seq.unwrap(),
    ensures
        exists|d: DirectRoute|
            #[trigger] all_direct_journeys(rows, districts, districts.len()).contains(d)
                && d.route < rows.len() && rows[d.route as int].transport@ == rows[i].transport@
                && rows[d.route as int].route_id@ == rows[i].route_id@
                && rows[d.route as int].route_seq@ == rows[i].route_seq@
                && d.stop_seq == rows[i].stop_seq.unwrap() && d.next_stop_seq
                == rows[j].next_stop_seq.unwrap(),
{
    let start = districts[a]@;
    let end = districts[b]@;
    let s: u32 = rows[i].stop_seq.unwrap();
    let t: u32 = rows[j].next_stop_seq.unwrap();
    let l: int = lemma_first_of_route_exists(rows, start, end, i);
    lemma_boardings_complete(rows, l, start, rows.len(), i);
    lemma_alightings_complete(rows, l, end, rows.len(), j);
    let starts = boardings(rows, l, start, rows.len());
    let ends = alightings(rows, l, end, rows.len());
    let p: int = choose|p: int| 0 <= p < starts.len() && starts[p] == s;
    let m: int = choose|m: int| 0 <= m < ends.len() && ends[m] == t;
    lemma_journeys_between_complete(l, starts, ends, starts.len(), p, m);
    let d = DirectRoute { route: l as usize, stop_seq: s, next_stop_seq: t };
    lemma_pair_complete(rows, start, end, rows.len(), l, d);
    lemma_start_complete(rows, districts, start, districts.len(), b, d);
    lemma_all_complete(rows, districts, districts.len(), a, d);
}

proof fn lemma_legs_upto(rows: Seq<Segment>, k: int, from: u32, to: u32, n: nat, x: usize)
    requires
        n <= rows.len() <= usize::MAX,
    ensures
        legs_of(rows, k, from, to, n).contains(x) <==> x < n && within_journey(
            rows[x as int],
            rows[k],
            from,
            to,
        ),
    decreases n,
{
    if n > 0 {
        let prev = legs_of(rows, k, from, to, (n - 1) as nat);
        let extra = if within_journey(rows[n - 1], rows[k], from, to) {
            seq![(n - 1) as usize]
        } else {
            seq![]
        };
        lemma_legs_upto(rows, k, from, to, (n - 1) as nat, x);
        if legs_of(rows, k, from, to, n).contains(x) {
            lemma_contains_split(prev, extra, x);
            if extra.contains(x) {
                assert(extra[0] == x);
            }
        }
        if x < n && within_journey(rows[x as int], rows[k], from, to) {
            if x == n - 1 {
                assert(extra[0] == x);
                lemma_contains_right(prev, extra, x);
            } else {
                lemma_contains_left(prev, extra, x);
            }
        }
    }
}

/// The segments that `journey_legs` returns are exactly those with the
/// transport, route id and route sequence of the journey's route that start no
/// earlier than the boarding stop and end no later than the stop where the
/// journey is left.
pub proof fn lemma_journey_legs_exact(rows: Seq<Segment>, k: int, from: u32, to: u32, x: usize)
    requires
        rows.len() <= usize::MAX,
    ensures
        legs_of(rows, k, from, to, rows.len()).contains(x) <==> {
            &&& x < rows.len()
            &&& rows[x as int].transport@ == rows[k].transport@
            &&& rows[x as int].route_id@ == rows[k].route_id@
            &&& rows[x as int].route_seq@ == rows[k].route_seq@
            &&& rows[x as int].stop_seq is Some
            &&& rows[x as int].stop_seq.unwrap() >= from
            &&& rows[x as int].next_stop_seq is Some
            &&& rows[x as int].next_stop_seq.unwrap() <= to
        },
{
    lemma_legs_upto(rows, k, from, to, rows.len(), x);
}

} // verus!
