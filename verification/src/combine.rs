//! The columns of the combined journey table: the label of the transports of a
//! journey, and the number of stops it travels.
use vstd::prelude::*;

verus! {

/// The smaller of two lengths: how far two columns run side by side.
pub open spec fn shorter(x: nat, y: nat) -> nat {
    if x <= y {
        x
    } else {
        y
    }
}

/// The label of a journey that changes from transport `l` to transport `r`.
pub open spec fn change_label(l: Seq<char>, r: Seq<char>) -> Seq<char> {
    l + "->"@ + r
}

/// The stops travelled from stop `a` to stop `b` of one route; none where `b`
/// comes before `a`.
pub open spec fn stop_count(a: u32, b: u32) -> Option<u32> {
    if a <= b {
        Some((b - a) as u32)
    } else {
        None
    }
}

/// The stops travelled on two legs, `a` to `b` and then `c` to `d`, computed
/// as `b - a + d - c` from left to right in `u32`; none where a step leaves
/// the range of `u32`.
pub open spec fn stop_count_two_legs(a: u32, b: u32, c: u32, d: u32) -> Option<u32> {
    if a > b {
        None
    } else if (b - a) + d > u32::MAX {
        None
    } else if c > (b - a) + d {
        None
    } else {
        Some(((b - a) + d - c) as u32)
    }
}

/// The label of each journey of two legs, row by row, as far as both columns run.
pub fn a_to_b(l: &Vec<String>, r: &Vec<String>) -> (out: Vec<String>)
    ensures
        out.len() == shorter(l.len() as nat, r.len() as nat),
        forall|i: int| 0 <= i < out.len() ==> #[trigger] out@[i]@ == change_label(l@[i]@, r@[i]@),
        forall|i: int| 0 <= i < out.len() ==> #[trigger] out@[i]@ == l@[i]@ + "->"@ + r@[i]@,
{
    let n: usize = if l.len() <= r.len() {
        l.len()
    } else {
        r.len()
    };
    let mut out: Vec<String> = Vec::new();
    let mut i: usize = 0;
    while i < n
        invariant
            i <= n,
            n == shorter(l.len() as nat, r.len() as nat),
            out.len() == i,
            forall|k: int| 0 <= k < i ==> #[trigger] out@[k]@ == change_label(l@[k]@, r@[k]@),
        decreases n - i,
    {
        let mut label = l[i].clone();
        label.append("->");
        label.append(r[i].as_str());
        out.push(label);
        i += 1;
    }
    out
}

fn stop_count_exec(a: u32, b: u32) -> (r: Option<u32>)
    ensures
        r == stop_count(a, b),
{
    if a <= b {
        Some(b - a)
    } else {
        None
    }
}

fn stop_count_two_legs_exec(a: u32, b: u32, c: u32, d: u32) -> (r: Option<u32>)
    ensures
        r == stop_count_two_legs(a, b, c, d),
{
    if a > b {
        return None;
    }
    let x: u32 = b - a;
    if x > u32::MAX - d {
        return None;
    }
    let y: u32 = x + d;
    if c > y {
        return None;
    }
    Some(y - c)
}

/// The stops travelled by each journey of one leg, row by row, as far as both
/// columns run; none where some journey's end comes before its start.
pub fn stop_diff_2(a: &Vec<u32>, b: &Vec<u32>) -> (out: Option<Vec<u32>>)
    ensures
        out is None <==> exists|i: int|
            0 <= i < shorter(a.len() as nat, b.len() as nat) && #[trigger] stop_count(
                a@[i],
                b@[i],
            ) is None,
        out matches Some(v) ==> {
            &&& v.len() == shorter(a.len() as nat, b.len() as nat)
            &&& forall|i: int| 0 <= i < v.len() ==> Some(#[trigger] v@[i]) == stop_count(a@[i], b@[i])
        },
        out is None <==> exists|i: int|
            #![trigger a@[i], b@[i]]
            0 <= i < a.len() && i < b.len() && a@[i] > b@[i],
        out matches Some(v) ==> {
            &&& v.len() <= a.len() && v.len() <= b.len()
            &&& (v.len() == a.len() || v.len() == b.len())
            &&& forall|i: int| 0 <= i < v.len() ==> a@[i] + #[trigger] v@[i] == b@[i]
        },
{
    let n: usize = if a.len() <= b.len() {
        a.len()
    } else {
        b.len()
    };
    let mut out: Vec<u32> = Vec::new();
    let mut i: usize = 0;
    while i < n
        invariant
            i <= n,
            n == shorter(a.len() as nat, b.len() as nat),
            out.len() == i,
            forall|k: int| 0 <= k < i ==> Some(#[trigger] out@[k]) == stop_count(a@[k], b@[k]),
        decreases n - i,
    {
        match stop_count_exec(a[i], b[i]) {
            Some(x) => out.push(x),
            None => {
                assert(stop_count(a@[i as int], b@[i as int]) is None);
                return None;
            },
        }
        i += 1;
    }
    assert forall|k: int| 0 <= k < n implies #[trigger] stop_count(a@[k], b@[k]) is Some by {
        assert(Some(out@[k]) == stop_count(a@[k], b@[k]));
    }
    assert forall|i: int| 0 <= i < a.len() && i < b.len() implies !(#[trigger] a@[i]
        > #[trigger] b@[i]) by {
        assert(stop_count(a@[i], b@[i]) is Some);
    }
    Some(out)
}

/// The stops travelled by each journey of two legs, row by row, as far as all
/// four columns run; none where some journey's count leaves the range of `u32`
/// on the way.
pub fn stop_diff_4(a: &Vec<u32>, b: &Vec<u32>, c: &Vec<u32>, d: &Vec<u32>) -> (out: Option<
    Vec<u32>,
>)
    ensures
        out is None <==> exists|i: int|
            0 <= i < shorter(
                shorter(a.len() as nat, b.len() as nat),
                shorter(c.len() as nat, d.len() as nat),
            ) && #[trigger] stop_count_two_legs(a@[i], b@[i], c@[i], d@[i]) is None,
        out matches Some(v) ==> {
            &&& v.len() == shorter(
                shorter(a.len() as nat, b.len() as nat),
                shorter(c.len() as nat, d.len() as nat),
            )
            &&& forall|i: int|
                0 <= i < v.len() ==> Some(#[trigger] v@[i]) == stop_count_two_legs(
                    a@[i],
                    b@[i],
                    c@[i],
                    d@[i],
                )
        },
        out is Some <==> forall|i: int|
            #![trigger a@[i]]
            0 <= i < a.len() && i < b.len() && i < c.len() && i < d.len() ==> a@[i] <= b@[i] && b@[i]
                - a@[i] + d@[i] <= u32::MAX && c@[i] <= b@[i] - a@[i] + d@[i],
        out matches Some(v) ==> {
            &&& v.len() <= a.len() && v.len() <= b.len() && v.len() <= c.len() && v.len() <= d.len()
            &&& (v.len() == a.len() || v.len() == b.len() || v.len() == c.len() || v.len() == d.len())
            &&& forall|i: int|
                0 <= i < v.len() ==> #[trigger] v@[i] == b@[i] - a@[i] + d@[i] - c@[i]
        },
{
    let ab: usize = if a.len() <= b.len() {
        a.len()
    } else {
        b.len()
    };
    let cd: usize = if c.len() <= d.len() {
        c.len()
    } else {
        d.len()
    };
    let n: usize = if ab <= cd {
        ab
    } else {
        cd
    };
    let mut out: Vec<u32> = Vec::new();
    let mut i: usize = 0;
    while i < n
        invariant
            i <= n,
            n == shorter(
                shorter(a.len() as nat, b.len() as nat),
                shorter(c.len() as nat, d.len() as nat),
            ),
            out.len() == i,
            forall|k: int|
                0 <= k < i ==> Some(#[trigger] out@[k]) == stop_count_two_legs(
                    a@[k],
                    b@[k],
                    c@[k],
                    d@[k],
                ),
        decreases n - i,
    {
        match stop_count_two_legs_exec(a[i], b[i], c[i], d[i]) {
            Some(x) => out.push(x),
            None => {
                assert(stop_count_two_legs(a@[i as int], b@[i as int], c@[i as int], d@[i as int])
                    is None);
                assert(!(a@[i as int] <= b@[i as int] && b@[i as int] - a@[i as int] + d@[i as int]
                    <= u32::MAX && c@[i as int] <= b@[i as int] - a@[i as int] + d@[i as int]));
                return None;
            },
        }
        i += 1;
    }
    assert forall|k: int| 0 <= k < n implies #[trigger] stop_count_two_legs(
        a@[k],
        b@[k],
        c@[k],
        d@[k],
    ) is Some by {
        assert(Some(out@[k]) == stop_count_two_legs(a@[k], b@[k], c@[k], d@[k]));
    }
    assert forall|k: int|
        #![trigger a@[k]]
        0 <= k < a.len() && k < b.len() && k < c.len() && k < d.len() implies a@[k] <= b@[k] && b@[k]
            - a@[k] + d@[k] <= u32::MAX && c@[k] <= b@[k] - a@[k] + d@[k] by {
        assert(stop_count_two_legs(a@[k], b@[k], c@[k], d@[k]) is Some);
    }
    Some(out)
}

/// A journey of two forward legs travels as many stops as its two legs
/// together, wherever `b - a + d` stays within `u32`.
pub proof fn lemma_two_legs_add_up(a: u32, b: u32, c: u32, d: u32)
    requires
        a <= b,
        c <= d,
        (b - a) + d <= u32::MAX,
    ensures
        stop_count_two_legs(a, b, c, d) == Some(
            (stop_count(a, b).unwrap() + stop_count(c, d).unwrap()) as u32,
        ),
{
}

/// A change label is the first transport, then `-` and `>`, then the second
/// transport, whatever the two transports are.
pub proof fn lemma_change_label_parts(l: Seq<char>, r: Seq<char>)
    ensures
        change_label(l, r).len() == l.len() + 2 + r.len(),
        change_label(l, r).subrange(0, l.len() as int) == l,
        change_label(l, r)[l.len() as int] == '-',
        change_label(l, r)[l.len() as int + 1] == '>',
        change_label(l, r).subrange(l.len() as int + 2, change_label(l, r).len() as int) == r,
{
    reveal_strlit("->");
    assert(change_label(l, r).subrange(0, l.len() as int) =~= l);
    assert(change_label(l, r).subrange(l.len() as int + 2, change_label(l, r).len() as int) =~= r);
}

} // verus!
