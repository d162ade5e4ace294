//! Journeys that need no change of vehicle: board a route in one district and
//! leave it, further along the same route, in another.
use vstd::prelude::*;

use crate::fields::{names, names_exec};
use crate::no_change_laws::lemma_journey_legs_exact;

verus! {

/// One stop-to-stop segment of a route, as read from the route table.
///
/// The route is named by `transport`, `route_id` and `route_seq`; the stop
/// fields may be missing from the table.
pub struct Segment {
    pub transport: String,
    pub route_id: String,
    pub route_seq: String,
    pub stop_seq: Option<u32>,
    pub district: Option<String>,
    pub next_stop_seq: Option<u32>,
    pub next_district: Option<String>,
}

/// A journey on one route: board at stop `stop_seq`, leave at stop
/// `next_stop_seq`. `route` is the index of the first segment through which
/// the route was found; its name fields name the route.
#[derive(Debug, Clone, Copy, PartialEq, Eq, Structural)]
pub struct DirectRoute {
    pub route: usize,
    pub stop_seq: u32,
    pub next_stop_seq: u32,
}

/// Both segments belong to the same route.
pub open spec fn same_route(a: Segment, b: Segment) -> bool {
    &&& a.transport@ == b.transport@
    &&& a.route_id@ == b.route_id@
    &&& a.route_seq@ == b.route_seq@
}

/// The segment is served by the MTR, which this step leaves out.
pub open spec fn is_mtr(transport: String) -> bool {
    transport@ == "MTR"@
}

/// A segment takes part in the search from `start` to `end`: it is not MTR,
/// and it starts in `start` or ends in `end`.
pub open spec fn qualifies(r: Segment, start: Seq<char>, end: Seq<char>) -> bool {
    &&& !is_mtr(r.transport)
    &&& (names(r.district, start) || names(r.next_district, end))
}

/// Row `i` is the first qualifying segment of its route.
pub open spec fn is_first_of_route(rows: Seq<Segment>, i: int, start: Seq<char>, end: Seq<char>) -> bool {
    &&& 0 <= i < rows.len()
    &&& qualifies(rows[i], start, end)
    &&& forall|j: int|
        0 <= j < i && #[trigger] qualifies(rows[j], start, end) ==> !same_route(rows[j], rows[i])
}

/// The stops, in table order among rows `0..n`, at which the route of row `k`
/// can be boarded in `start`.
pub open spec fn boardings(rows: Seq<Segment>, k: int, start: Seq<char>, n: nat) -> Seq<u32>
    decreases n,
{
    if n == 0 {
        seq![]
    } else {
        let r = rows[n - 1];
        boardings(rows, k, start, (n - 1) as nat) + if same_route(r, rows[k]) && names(
            r.district,
            start,
        ) && r.stop_seq is Some {
            seq![r.stop_seq.unwrap()]
        } else {
            seq![]
        }
    }
}

/// The stops, in table order among rows `0..n`, at which the route of row `k`
/// can be left in `end`.
pub open spec fn alightings(rows: Seq<Segment>, k: int, end: Seq<char>, n: nat) -> Seq<u32>
    decreases n,
{
    if n == 0 {
        seq![]
    } else {
        let r = rows[n - 1];
        alightings(rows, k, end, (n - 1) as nat) + if same_route(r, rows[k]) && names(
            r.next_district,
            end,
        ) && r.next_stop_seq is Some {
            seq![r.next_stop_seq.unwrap()]
        } else {
            seq![]
        }
    }
}

/// Journeys on route `k` boarding at `s`, to each of the first `n` of `ends`
/// that lies further along the route.
pub open spec fn journeys_from(k: int, s: u32, ends: Seq<u32>, n: nat) -> Seq<DirectRoute>
    decreases n,
{
    if n == 0 {
        seq![]
    } else {
        journeys_from(k, s, ends, (n - 1) as nat) + if s < ends[n - 1] {
            seq![DirectRoute { route: k as usize, stop_seq: s, next_stop_seq: ends[n - 1] }]
        } else {
            seq![]
        }
    }
}

/// Journeys on route `k` from each of the first `n` of `starts`, to each of `ends`.
pub open spec fn journeys_between(k: int, starts: Seq<u32>, ends: Seq<u32>, n: nat) -> Seq<
    DirectRoute,
>
    decreases n,
{
    if n == 0 {
        seq![]
    } else {
        journeys_between(k, starts, ends, (n - 1) as nat) + journeys_from(
            k,
            starts[n - 1],
            ends,
            ends.len(),
        )
    }
}

/// All journeys on the route of row `k` from `start` to `end`.
pub open spec fn route_journeys(rows: Seq<Segment>, k: int, start: Seq<char>, end: Seq<char>) -> Seq<
    DirectRoute,
> {
    let starts = boardings(rows, k, start, rows.len());
    let ends = alightings(rows, k, end, rows.len());
    journeys_between(k, starts, ends, starts.len())
}

/// The journeys from `start` to `end`, route by route in the order in which the
/// routes first qualify among rows `0..n`.
pub open spec fn district_pair_journeys(
    rows: Seq<Segment>,
    start: Seq<char>,
    end: Seq<char>,
    n: nat,
) -> Seq<DirectRoute>
    decreases n,
{
    if n == 0 {
        seq![]
    } else {
        district_pair_journeys(rows, start, end, (n - 1) as nat) + if is_first_of_route(
            rows,
            n - 1,
            start,
            end,
        ) {
            route_journeys(rows, n - 1, start, end)
        } else {
            seq![]
        }
    }
}

/// The journeys from `start` to each of the first `n` districts.
pub open spec fn start_journeys(
    rows: Seq<Segment>,
    districts: Seq<String>,
    start: Seq<char>,
    n: nat,
) -> Seq<DirectRoute>
    decreases n,
{
    if n == 0 {
        seq![]
    } else {
        start_journeys(rows, districts, start, (n - 1) as nat) + district_pair_journeys(
            rows,
            start,
            districts[n - 1]@,
            rows.len(),
        )
    }
}

/// The journeys from each of the first `n` districts to every district.
pub open spec fn all_direct_journeys(rows: Seq<Segment>, districts: Seq<String>, n: nat) -> Seq<
    DirectRoute,
>
    decreases n,
{
    if n == 0 {
        seq![]
    } else {
        all_direct_journeys(rows, districts, (n - 1) as nat) + start_journeys(
            rows,
            districts,
            districts[n - 1]@,
            districts.len(),
        )
    }
}

/// Segment `r` lies within the journey on the route of `route` from stop `from`
/// to stop `to`.
pub open spec fn within_journey(r: Segment, route: Segment, from: u32, to: u32) -> bool {
    &&& same_route(r, route)
    &&& r.stop_seq matches Some(s) && s >= from
    &&& r.next_stop_seq matches Some(t) && t <= to
}

/// The indices, ascending among rows `0..n`, of the segments that make up the
/// journey on the route of row `k` from `from` to `to`.
pub open spec fn legs_of(rows: Seq<Segment>, k: int, from: u32, to: u32, n: nat) -> Seq<usize>
    decreases n,
{
    if n == 0 {
        seq![]
    } else {
        legs_of(rows, k, from, to, (n - 1) as nat) + if within_journey(
            rows[n - 1],
            rows[k],
            from,
            to,
        ) {
            seq![(n - 1) as usize]
        } else {
            seq![]
        }
    }
}

fn route_is(a: &Segment, b: &Segment) -> (r: bool)
    ensures
        r == same_route(*a, *b),
{
    a.transport == b.transport && a.route_id == b.route_id && a.route_seq == b.route_seq
}

fn qualifies_exec(r: &Segment, start: &String, end: &String, mtr: &String) -> (b: bool)
    requires
        mtr@ == "MTR"@,
    ensures
        b == qualifies(*r, start@, end@),
{
    !(r.transport == *mtr) && (names_exec(&r.district, start) || names_exec(&r.next_district, end))
}

fn first_of_route(rows: &Vec<Segment>, i: usize, start: &String, end: &String, mtr: &String) -> (b:
    bool)
    requires
        i < rows.len(),
        mtr@ == "MTR"@,
    ensures
        b == is_first_of_route(rows@, i as int, start@, end@),
{
    if !qualifies_exec(&rows[i], start, end, mtr) {
        return false;
    }
    let mut j: usize = 0;
    while j < i
        invariant
            j <= i < rows.len(),
            mtr@ == "MTR"@,
            qualifies(rows@[i as int], start@, end@),
            forall|l: int|
                0 <= l < j && #[trigger] qualifies(rows@[l], start@, end@) ==> !same_route(
                    rows@[l],
                    rows@[i as int],
                ),
        decreases i - j,
    {
        if qualifies_exec(&rows[j], start, end, mtr) && route_is(&rows[j], &rows[i]) {
            return false;
        }
        j += 1;
    }
    true
}

fn journeys_from_stop(k: usize, s: u32, ends: &Vec<u32>) -> (out: Vec<DirectRoute>)
    ensures
        out@ == journeys_from(k as int, s, ends@, ends.len() as nat),
{
    let mut out: Vec<DirectRoute> = Vec::new();
    let mut b: usize = 0;
    while b < ends.len()
        invariant
            b <= ends.len(),
            out@ == journeys_from(k as int, s, ends@, b as nat),
        decreases ends.len() - b,
    {
        if s < ends[b] {
            out.push(DirectRoute { route: k, stop_seq: s, next_stop_seq: ends[b] });
        }
        b += 1;
    }
    out
}

fn journeys_on_route(rows: &Vec<Segment>, k: usize, start: &String, end: &String) -> (out: Vec<
    DirectRoute,
>)
    requires
        k < rows.len(),
    ensures
        out@ == route_journeys(rows@, k as int, start@, end@),
{
    let mut starts: Vec<u32> = Vec::new();
    let mut ends: Vec<u32> = Vec::new();
    let mut i: usize = 0;
    while i < rows.len()
        invariant
            i <= rows.len(),
            k < rows.len(),
            starts@ == boardings(rows@, k as int, start@, i as nat),
            ends@ == alightings(rows@, k as int, end@, i as nat),
        decreases rows.len() - i,
    {
        let r = &rows[i];
        if route_is(r, &rows[k]) {
            if names_exec(&r.district, start) {
                if let Some(s) = r.stop_seq {
                    starts.push(s);
                }
            }
            if names_exec(&r.next_district, end) {
                if let Some(t) = r.next_stop_seq {
                    ends.push(t);
                }
            }
        }
        i += 1;
    }
    let mut out: Vec<DirectRoute> = Vec::new();
    let mut a: usize = 0;
    while a < starts.len()
        invariant
            a <= starts.len(),
            out@ == journeys_between(k as int, starts@, ends@, a as nat),
        decreases starts.len() - a,
    {
        let mut part = journeys_from_stop(k, starts[a], &ends);
        out.append(&mut part);
        a += 1;
    }
    out
}

fn pair_journeys(rows: &Vec<Segment>, start: &String, end: &String, mtr: &String) -> (out: Vec<
    DirectRoute,
>)
    requires
        mtr@ == "MTR"@,
    ensures
        out@ == district_pair_journeys(rows@, start@, end@, rows.len() as nat),
{
    let mut out: Vec<DirectRoute> = Vec::new();
    let mut i: usize = 0;
    while i < rows.len()
        invariant
            i <= rows.len(),
            mtr@ == "MTR"@,
            out@ == district_pair_journeys(rows@, start@, end@, i as nat),
        decreases rows.len() - i,
    {
        if first_of_route(rows, i, start, end, mtr) {
            let mut part = journeys_on_route(rows, i, start, end);
            out.append(&mut part);
        } else {
            assert(out@ =~= out@ + Seq::<DirectRoute>::empty());
        }
        i += 1;
    }
    out
}

fn journeys_from_district(
    rows: &Vec<Segment>,
    districts: &Vec<String>,
    start: &String,
    mtr: &String,
) -> (out: Vec<DirectRoute>)
    requires
        mtr@ == "MTR"@,
    ensures
        out@ == start_journeys(rows@, districts@, start@, districts.len() as nat),
{
    let mut out: Vec<DirectRoute> = Vec::new();
    let mut b: usize = 0;
    while b < districts.len()
        invariant
            b <= districts.len(),
            mtr@ == "MTR"@,
            out@ == start_journeys(rows@, districts@, start@, b as nat),
        decreases districts.len() - b,
    {
        let mut part = pair_journeys(rows, start, &districts[b], mtr);
        out.append(&mut part);
        b += 1;
    }
    out
}

/// Every journey without change between two districts of `districts`.
///
/// For each start district and each end district in turn, the routes (other
/// than the MTR) that pass through them are taken in the order in which their
/// first segment starting in the start district or ending in the end district
/// appears; on each, every stop at which the route can be boarded in the start
/// district is paired with every later stop at which it can be left in the end
/// district.
pub fn direct_routes(rows: &Vec<Segment>, districts: &Vec<String>) -> (out: Vec<DirectRoute>)
    ensures
        out@ == all_direct_journeys(rows@, districts@, districts.len() as nat),
{
    let mtr = "MTR".to_owned();
    let mut out: Vec<DirectRoute> = Vec::new();
    let mut a: usize = 0;
    while a < districts.len()
        invariant
            a <= districts.len(),
            mtr@ == "MTR"@,
            out@ == all_direct_journeys(rows@, districts@, a as nat),
        decreases districts.len() - a,
    {
        let mut part = journeys_from_district(rows, districts, &districts[a], &mtr);
        out.append(&mut part);
        a += 1;
    }
    out
}

/// The segments whose distances add up to the length of the journey on the
/// route of row `route` from stop `from` to stop `to`: those of that route that
/// start no earlier than `from` and end no later than `to`, in table order.
pub fn journey_legs(rows: &Vec<Segment>, route: usize, from: u32, to: u32) -> (legs: Vec<usize>)
    requires
        route < rows.len(),
    ensures
        legs@ == legs_of(rows@, route as int, from, to, rows.len() as nat),
        forall|x: usize|
            #![trigger legs@.contains(x)]
            legs@.contains(x) <==> {
                &&& x < rows.len()
                &&& rows@[x as int].transport@ == rows@[route as int].transport@
                &&& rows@[x as int].route_id@ == rows@[route as int].route_id@
                &&& rows@[x as int].route_seq@ == rows@[route as int].route_seq@
                &&& rows@[x as int].stop_seq matches Some(s) && s >= from
                &&& rows@[x as int].next_stop_seq matches Some(t) && t <= to
            },
{
    let mut legs: Vec<usize> = Vec::new();
    let mut i: usize = 0;
    while i < rows.len()
        invariant
            i <= rows.len(),
            route < rows.len(),
            legs@ == legs_of(rows@, route as int, from, to, i as nat),
        decreases rows.len() - i,
    {
        let r = &rows[i];
        let inside = route_is(r, &rows[route]) && match (r.stop_seq, r.next_stop_seq) {
            (Some(s), Some(t)) => s >= from && t <= to,
            _ => false,
        };
        if inside {
            legs.push(i);
        }
        i += 1;
    }
    assert forall|x: usize| #[trigger] legs@.contains(x) <==> {
        &&& x < rows.len()
        &&& rows@[x as int].transport@ == rows@[route as int].transport@
        &&& rows@[x as int].route_id@ == rows@[route as int].route_id@
        &&& rows@[x as int].route_seq@ == rows@[route as int].route_seq@
        &&& rows@[x as int].stop_seq matches Some(s) && s >= from
        &&& rows@[x as int].next_stop_seq matches Some(t) && t <= to
    } by {
        lemma_journey_legs_exact(rows@, route as int, from, to, x);
    }
    legs
}

} // verus!
