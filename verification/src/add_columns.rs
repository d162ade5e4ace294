//! Widening the table of direct journeys: each journey looks up, in the route
//! table, the segment at which it is boarded and the one at which it is left;
//! the MTR segments of the route table are carried over as they stand.
use vstd::prelude::*;

use crate::seq_facts::{lemma_contains_left, lemma_contains_right, lemma_contains_split};

verus! {

/// The fields by which a row of either table names a stop of a route.
pub struct RouteStop {
    pub transport: String,
    pub route_id: String,
    pub route_seq: String,
    pub stop_seq: Option<u32>,
    pub next_stop_seq: Option<u32>,
}

/// Which stop number the lookup goes by: that of the stop where a segment
/// starts, or that of the stop where it ends.
#[derive(Debug, Clone, Copy, PartialEq, Eq, Structural)]
pub enum StopColumn {
    Stop,
    NextStop,
}

/// The stop number of `r` that `on` selects.
pub open spec fn stop_of(r: RouteStop, on: StopColumn) -> Option<u32> {
    match on {
        StopColumn::Stop => r.stop_seq,
        StopColumn::NextStop => r.next_stop_seq,
    }
}

/// Row `m` of the route table answers `probe`: same route, and the same
/// (present) stop number in the column that `on` selects.
pub open spec fn answers(m: RouteStop, probe: RouteStop, on: StopColumn) -> bool {
    &&& m.transport@ == probe.transport@
    &&& m.route_id@ == probe.route_id@
    &&& m.route_seq@ == probe.route_seq@
    &&& stop_of(m, on) is Some
    &&& stop_of(m, on) == stop_of(probe, on)
}

/// The first row among `0..n` of `table` that answers `probe`.
pub open spec fn first_answer(table: Seq<RouteStop>, probe: RouteStop, on: StopColumn, n: nat) -> Option<
    usize,
>
    decreases n,
{
    if n == 0 {
        None
    } else {
        match first_answer(table, probe, on, (n - 1) as nat) {
            Some(i) => Some(i),
            None => if answers(table[n - 1], probe, on) {
                Some((n - 1) as usize)
            } else {
                None
            },
        }
    }
}

/// The transport of `r` is the MTR.
pub open spec fn is_mtr_stop(r: RouteStop) -> bool {
    r.transport@ == "MTR"@
}

/// The rows among `0..n` of `table` served by the MTR, ascending.
pub open spec fn mtr_upto(table: Seq<RouteStop>, n: nat) -> Seq<usize>
    decreases n,
{
    if n == 0 {
        seq![]
    } else {
        mtr_upto(table, (n - 1) as nat) + if is_mtr_stop(table[n - 1]) {
            seq![(n - 1) as usize]
        } else {
            seq![]
        }
    }
}

fn stop_exec(r: &RouteStop, on: StopColumn) -> (s: Option<u32>)
    ensures
        s == stop_of(*r, on),
{
    match on {
        StopColumn::Stop => r.stop_seq,
        StopColumn::NextStop => r.next_stop_seq,
    }
}

fn answers_exec(m: &RouteStop, probe: &RouteStop, on: StopColumn) -> (b: bool)
    ensures
        b == answers(*m, *probe, on),
{
    if !(m.transport == probe.transport && m.route_id == probe.route_id && m.route_seq
        == probe.route_seq) {
        return false;
    }
    match (stop_exec(m, on), stop_exec(probe, on)) {
        (Some(a), Some(b)) => a == b,
        _ => false,
    }
}

/// The first row of `table` that answers `probe`, if any.
pub fn first_match(table: &Vec<RouteStop>, probe: &RouteStop, on: StopColumn) -> (r: Option<usize>)
    ensures
        r == first_answer(table@, *probe, on, table.len() as nat),
{
    let mut i: usize = 0;
    while i < table.len()
        invariant
            i <= table.len(),
            first_answer(table@, *probe, on, i as nat) is None,
        decreases table.len() - i,
    {
        if answers_exec(&table[i], probe, on) {
            proof {
                lemma_first_answer_stays(table@, *probe, on, (i + 1) as nat, table.len() as nat);
            }
            return Some(i);
        }
        i += 1;
    }
    None
}

/// Once a row answers among the first `m`, the answer stays for every `n >= m`.
proof fn lemma_first_answer_stays(table: Seq<RouteStop>, probe: RouteStop, on: StopColumn, m: nat, n: nat)
    requires
        m <= n,
        first_answer(table, probe, on, m) is Some,
    ensures
        first_answer(table, probe, on, n) == first_answer(table, probe, on, m),
    decreases n - m,
{
    if m < n {
        lemma_first_answer_stays(table, probe, on, m, (n - 1) as nat);
    }
}

/// For each row of `rows`, the first row of `main` on the same route with the
/// same stop number in the column that `on` selects; the columns that the
/// journey table gains are read from that row. `None` where no row answers.
pub fn with_columns_expr(main: &Vec<RouteStop>, on: StopColumn, rows: &Vec<RouteStop>) -> (out: Vec<
    Option<usize>,
>)
    ensures
        out.len() == rows.len(),
        forall|i: int|
            0 <= i < rows.len() ==> #[trigger] out@[i] == first_answer(
                main@,
                rows@[i],
                on,
                main.len() as nat,
            ),
{
    let mut out: Vec<Option<usize>> = Vec::new();
    let mut i: usize = 0;
    while i < rows.len()
        invariant
            i <= rows.len(),
            out.len() == i,
            forall|l: int|
                0 <= l < i ==> #[trigger] out@[l] == first_answer(
                    main@,
                    rows@[l],
                    on,
                    main.len() as nat,
                ),
        decreases rows.len() - i,
    {
        let found = first_match(main, &rows[i], on);
        out.push(found);
        i += 1;
    }
    out
}

/// The rows of `main` served by the MTR, in table order.
pub fn mtr_rows(main: &Vec<RouteStop>) -> (out: Vec<usize>)
    ensures
        out@ == mtr_upto(main@, main.len() as nat),
        forall|x: usize|
            #[trigger] out@.contains(x) <==> x < main.len() && main@[x as int].transport@ == "MTR"@,
{
    let mtr = "MTR".to_owned();
    let mut out: Vec<usize> = Vec::new();
    let mut i: usize = 0;
    while i < main.len()
        invariant
            i <= main.len(),
            mtr@ == "MTR"@,
            out@ == mtr_upto(main@, i as nat),
        decreases main.len() - i,
    {
        if main[i].transport == mtr {
            out.push(i);
        }
        i += 1;
    }
    assert forall|x: usize|
        #[trigger] out@.contains(x) <==> x < main.len() && main@[x as int].transport@ == "MTR"@ by {
        lemma_mtr_rows_exact(main@, x);
    }
    out
}

proof fn lemma_first_answer_upto(table: Seq<RouteStop>, probe: RouteStop, on: StopColumn, n: nat)
    requires
        n <= table.len() <= usize::MAX,
    ensures
        first_answer(table, probe, on, n) matches Some(i) ==> i < n && answers(
            table[i as int],
            probe,
            on,
        ) && forall|j: int| 0 <= j < i ==> !answers(#[trigger] table[j], probe, on),
        first_answer(table, probe, on, n) is None ==> forall|j: int|
            0 <= j < n ==> !answers(#[trigger] table[j], probe, on),
    decreases n,
{
    if n > 0 {
        lemma_first_answer_upto(table, probe, on, (n - 1) as nat);
    }
}

/// The row that a lookup finds has the journey's transport, route id, route
/// sequence and (present) stop number in the chosen column, and no earlier row
/// has; where it finds none, no row has.
pub proof fn lemma_first_match_exact(table: Seq<RouteStop>, probe: RouteStop, on: StopColumn)
    requires
        table.len() <= usize::MAX,
    ensures
        first_answer(table, probe, on, table.len()) matches Some(i) ==> i < table.len()
            && (table[i as int].transport@ == probe.transport@ && table[i as int].route_id@ == probe.route_id@
                && table[i as int].route_seq@ == probe.route_seq@ && if on == StopColumn::Stop {
                table[i as int].stop_seq is Some && table[i as int].stop_seq == probe.stop_seq
            } else {
                table[i as int].next_stop_seq is Some && table[i as int].next_stop_seq == probe.next_stop_seq
            }) && forall|j: int|
            #![trigger table[j]]
            0 <= j < i ==> !(table[j].transport@ == probe.transport@ && table[j].route_id@ == probe.route_id@
                && table[j].route_seq@ == probe.route_seq@ && if on == StopColumn::Stop {
                table[j].stop_seq is Some && table[j].stop_seq == probe.stop_seq
            } else {
                table[j].next_stop_seq is Some && table[j].next_stop_seq == probe.next_stop_seq
            }),
        first_answer(table, probe, on, table.len()) is None ==> forall|j: int|
            #![trigger table[j]]
            0 <= j < table.len() ==> !(table[j].transport@ == probe.transport@ && table[j].route_id@ == probe.route_id@
                && table[j].route_seq@ == probe.route_seq@ && if on == StopColumn::Stop {
                table[j].stop_seq is Some && table[j].stop_seq == probe.stop_seq
            } else {
                table[j].next_stop_seq is Some && table[j].next_stop_seq == probe.next_stop_seq
            }),
{
    lemma_first_answer_upto(table, probe, on, table.len());
}

proof fn lemma_mtr_upto(table: Seq<RouteStop>, n: nat, x: usize)
    requires
        n <= table.len() <= usize::MAX,
    ensures
        mtr_upto(table, n).contains(x) <==> x < n && table[x as int].transport@ == "MTR"@,
    decreases n,
{
    if n > 0 {
        let prev = mtr_upto(table, (n - 1) as nat);
        let extra = if is_mtr_stop(table[n - 1]) {
            seq![(n - 1) as usize]
        } else {
            seq![]
        };
        lemma_mtr_upto(table, (n - 1) as nat, x);
        if mtr_upto(table, n).contains(x) {
            lemma_contains_split(prev, extra, x);
            if extra.contains(x) {
                assert(extra[0] == x);
            }
        }
        if x < n && table[x as int].transport@ == "MTR"@ {
            if x == n - 1 {
                assert(extra[0] == x);
                lemma_contains_right(prev, extra, x);
            } else {
                lemma_contains_left(prev, extra, x);
            }
        }
    }
}

/// The rows carried over are exactly the rows whose transport is the MTR.
pub proof fn lemma_mtr_rows_exact(table: Seq<RouteStop>, x: usize)
    requires
        table.len() <= usize::MAX,
    ensures
        mtr_upto(table, table.len()).contains(x) <==> x < table.len() && table[x as int].transport@
            == "MTR"@,
{
    lemma_mtr_upto(table, table.len(), x);
}

} // verus!
