//! Journeys with one change: the districts that no route joins directly, and
//! the pairs of direct journeys that may join them with a change in between.
use vstd::prelude::*;

use crate::fields::{names, names_exec};

verus! {

/// The district fields of one row of the table of direct journeys.
pub struct Leg {
    pub district: Option<String>,
    pub next_district: Option<String>,
}

/// A candidate journey with one change: the direct journey in row `first`,
/// then the direct journey in row `second`.
#[derive(Debug, Clone, Copy, PartialEq, Eq, Structural)]
pub struct Transfer {
    pub first: usize,
    pub second: usize,
}

/// Some entry of `s` holds exactly `name`.
pub open spec fn has_name(s: Seq<String>, name: Seq<char>) -> bool {
    exists|i: int| 0 <= i < s.len() && #[trigger] s[i]@ == name
}

/// The first `n` names, each kept at its first occurrence only.
pub open spec fn distinct_upto(values: Seq<String>, n: nat) -> Seq<String>
    decreases n,
{
    if n == 0 {
        seq![]
    } else {
        let prev = distinct_upto(values, (n - 1) as nat);
        if has_name(prev, values[n - 1]@) {
            prev
        } else {
            prev.push(values[n - 1])
        }
    }
}

/// Some direct journey goes from `start` to `end`.
pub open spec fn reached(rows: Seq<Leg>, start: Seq<char>, end: Seq<char>) -> bool {
    exists|i: int|
        0 <= i < rows.len() && #[trigger] names(rows[i].district, start) && names(
            rows[i].next_district,
            end,
        )
}

/// Some direct journey starts in one of `districts` and has no end district.
pub open spec fn has_open_leg(rows: Seq<Leg>, districts: Seq<String>) -> bool {
    exists|a: int, i: int|
        0 <= a < districts.len() && 0 <= i < rows.len() && #[trigger] names(
            rows[i].district,
            #[trigger] districts[a]@,
        ) && rows[i].next_district is None
}

/// The rows among `0..n` that start in `start`, ascending.
pub open spec fn departures(rows: Seq<Leg>, start: Seq<char>, n: nat) -> Seq<usize>
    decreases n,
{
    if n == 0 {
        seq![]
    } else {
        departures(rows, start, (n - 1) as nat) + if names(rows[n - 1].district, start) {
            seq![(n - 1) as usize]
        } else {
            seq![]
        }
    }
}

/// The rows among `0..n` that end in `end`, ascending.
pub open spec fn arrivals(rows: Seq<Leg>, end: Seq<char>, n: nat) -> Seq<usize>
    decreases n,
{
    if n == 0 {
        seq![]
    } else {
        arrivals(rows, end, (n - 1) as nat) + if names(rows[n - 1].next_district, end) {
            seq![(n - 1) as usize]
        } else {
            seq![]
        }
    }
}

/// Row `i` paired with each of the first `n` of `seconds`.
pub open spec fn pairs_with(i: usize, seconds: Seq<usize>, n: nat) -> Seq<Transfer>
    decreases n,
{
    if n == 0 {
        seq![]
    } else {
        pairs_with(i, seconds, (n - 1) as nat).push(Transfer { first: i, second: seconds[n - 1] })
    }
}

/// Each of the first `n` of `firsts` paired with each of `seconds`, first
/// rows outermost.
pub open spec fn cross(firsts: Seq<usize>, seconds: Seq<usize>, n: nat) -> Seq<Transfer>
    decreases n,
{
    if n == 0 {
        seq![]
    } else {
        cross(firsts, seconds, (n - 1) as nat) + pairs_with(firsts[n - 1], seconds, seconds.len())
    }
}

/// The candidates from `start` to `end`: none where `end` is `start` or is
/// reached from it directly, else every departure from `start` paired with
/// every arrival at `end`.
pub open spec fn pair_transfers(rows: Seq<Leg>, start: Seq<char>, end: Seq<char>) -> Seq<Transfer> {
    if end == start || reached(rows, start, end) {
        seq![]
    } else {
        let firsts = departures(rows, start, rows.len());
        cross(firsts, arrivals(rows, end, rows.len()), firsts.len())
    }
}

/// The candidates from `start` to each of the first `n` districts.
pub open spec fn start_transfers(rows: Seq<Leg>, districts: Seq<String>, start: Seq<char>, n: nat) -> Seq<
    Transfer,
>
    decreases n,
{
    if n == 0 {
        seq![]
    } else {
        start_transfers(rows, districts, start, (n - 1) as nat) + pair_transfers(
            rows,
            start,
            districts[n - 1]@,
        )
    }
}

/// The candidates from each of the first `n` districts.
pub open spec fn all_transfers(rows: Seq<Leg>, districts: Seq<String>, n: nat) -> Seq<Transfer>
    decreases n,
{
    if n == 0 {
        seq![]
    } else {
        all_transfers(rows, districts, (n - 1) as nat) + start_transfers(
            rows,
            districts,
            districts[n - 1]@,
            districts.len(),
        )
    }
}

/// The distinct names of `values`, each at its first occurrence.
pub fn distinct_districts(values: &Vec<String>) -> (out: Vec<String>)
    ensures
        out@ == distinct_upto(values@, values.len() as nat),
{
    let mut out: Vec<String> = Vec::new();
    let mut i: usize = 0;
    while i < values.len()
        invariant
            i <= values.len(),
            out@ == distinct_upto(values@, i as nat),
        decreases values.len() - i,
    {
        let mut seen = false;
        let mut j: usize = 0;
        while j < out.len()
            invariant
                j <= out.len(),
                i < values.len(),
                seen <==> exists|l: int| 0 <= l < j && #[trigger] out@[l]@ == values@[i as int]@,
            decreases out.len() - j,
        {
            if out[j] == values[i] {
                seen = true;
            }
            j += 1;
        }
        if !seen {
            out.push(values[i].clone());
        }
        i += 1;
    }
    out
}

fn reached_exec(rows: &Vec<Leg>, start: &String, end: &String) -> (b: bool)
    ensures
        b == reached(rows@, start@, end@),
{
    let mut i: usize = 0;
    while i < rows.len()
        invariant
            i <= rows.len(),
            forall|l: int|
                0 <= l < i ==> !(#[trigger] names(rows@[l].district, start@) && names(
                    rows@[l].next_district,
                    end@,
                )),
        decreases rows.len() - i,
    {
        if names_exec(&rows[i].district, start) && names_exec(&rows[i].next_district, end) {
            return true;
        }
        i += 1;
    }
    false
}

/// Whether some direct journey starts in one of `districts` and has no end
/// district.
pub fn open_leg(rows: &Vec<Leg>, districts: &Vec<String>) -> (b: bool)
    ensures
        b == has_open_leg(rows@, districts@),
{
    let mut a: usize = 0;
    while a < districts.len()
        invariant
            a <= districts.len(),
            forall|x: int, i: int|
                0 <= x < a && 0 <= i < rows.len() && #[trigger] names(
                    rows@[i].district,
                    #[trigger] districts@[x]@,
                ) ==> rows@[i].next_district is Some,
        decreases districts.len() - a,
    {
        let mut i: usize = 0;
        while i < rows.len()
            invariant
                i <= rows.len(),
                a < districts.len(),
                forall|x: int, l: int|
                    0 <= x < a && 0 <= l < rows.len() && #[trigger] names(
                        rows@[l].district,
                        #[trigger] districts@[x]@,
                    ) ==> rows@[l].next_district is Some,
                forall|l: int|
                    0 <= l < i && #[trigger] names(rows@[l].district, districts@[a as int]@)
                        ==> rows@[l].next_district is Some,
            decreases rows.len() - i,
        {
            if names_exec(&rows[i].district, &districts[a]) && rows[i].next_district.is_none() {
                assert(names(rows@[i as int].district, districts@[a as int]@));
                return true;
            }
            i += 1;
        }
        a += 1;
    }
    false
}

fn rows_from(rows: &Vec<Leg>, start: &String) -> (out: Vec<usize>)
    ensures
        out@ == departures(rows@, start@, rows.len() as nat),
{
    let mut out: Vec<usize> = Vec::new();
    let mut i: usize = 0;
    while i < rows.len()
        invariant
            i <= rows.len(),
            out@ == departures(rows@, start@, i as nat),
        decreases rows.len() - i,
    {
        if names_exec(&rows[i].district, start) {
            out.push(i);
        }
        i += 1;
    }
    out
}

fn rows_to(rows: &Vec<Leg>, end: &String) -> (out: Vec<usize>)
    ensures
        out@ == arrivals(rows@, end@, rows.len() as nat),
{
    let mut out: Vec<usize> = Vec::new();
    let mut i: usize = 0;
    while i < rows.len()
        invariant
            i <= rows.len(),
            out@ == arrivals(rows@, end@, i as nat),
        decreases rows.len() - i,
    {
        if names_exec(&rows[i].next_district, end) {
            out.push(i);
        }
        i += 1;
    }
    out
}

fn cross_exec(firsts: &Vec<usize>, seconds: &Vec<usize>) -> (out: Vec<Transfer>)
    ensures
        out@ == cross(firsts@, seconds@, firsts.len() as nat),
{
    let mut out: Vec<Transfer> = Vec::new();
    let mut a: usize = 0;
    while a < firsts.len()
        invariant
            a <= firsts.len(),
            out@ == cross(firsts@, seconds@, a as nat),
        decreases firsts.len() - a,
    {
        let ghost before = out@;
        let mut b: usize = 0;
        while b < seconds.len()
            invariant
                a < firsts.len(),
                b <= seconds.len(),
                out@ == before + pairs_with(firsts@[a as int], seconds@, b as nat),
            decreases seconds.len() - b,
        {
            out.push(Transfer { first: firsts[a], second: seconds[b] });
            assert(out@ =~= before + pairs_with(firsts@[a as int], seconds@, (b + 1) as nat));
            b += 1;
        }
        a += 1;
    }
    out
}

fn transfers_between(rows: &Vec<Leg>, start: &String, end: &String) -> (out: Vec<Transfer>)
    ensures
        out@ == pair_transfers(rows@, start@, end@),
{
    if *end == *start || reached_exec(rows, start, end) {
        return Vec::new();
    }
    let firsts = rows_from(rows, start);
    let seconds = rows_to(rows, end);
    cross_exec(&firsts, &seconds)
}

/// The candidate journeys with one change between districts of `districts`.
///
/// For each start district in turn, each district that is neither the start
/// itself nor reached from it by a direct journey is an end; every direct
/// journey from the start is then paired with every direct journey to the end,
/// in row order, first rows outermost. There is no answer where some direct
/// journey from one of `districts` has no end district.
pub fn transfer_pairs(rows: &Vec<Leg>, districts: &Vec<String>) -> (out: Option<Vec<Transfer>>)
    ensures
        out is None <==> has_open_leg(rows@, districts@),
        out matches Some(v) ==> v@ == all_transfers(rows@, districts@, districts.len() as nat),
{
    if open_leg(rows, districts) {
        return None;
    }
    let mut out: Vec<Transfer> = Vec::new();
    let mut a: usize = 0;
    while a < districts.len()
        invariant
            a <= districts.len(),
            out@ == all_transfers(rows@, districts@, a as nat),
        decreases districts.len() - a,
    {
        let mut part: Vec<Transfer> = Vec::new();
        let mut b: usize = 0;
        while b < districts.len()
            invariant
                a < districts.len(),
                b <= districts.len(),
                part@ == start_transfers(rows@, districts@, districts@[a as int]@, b as nat),
            decreases districts.len() - b,
        {
            let mut more = transfers_between(rows, &districts[a], &districts[b]);
            part.append(&mut more);
            b += 1;
        }
        out.append(&mut part);
        a += 1;
    }
    Some(out)
}

} // verus!
