//! Splitting a large diff in linear space: a search from each end, half of the
//! distance deep, and the point where the two meet.
use vstd::prelude::*;
use vstd::pervasive::unreached;
use crate::lcs::{
    edit_distance, lcs_len, tail_dist, lemma_dist_diagonal, lemma_dist_range,
    lemma_dist_step, lemma_lcs_cut, lemma_lcs_reverse, lemma_lcs_split_bound,
};
use crate::trace::{
    arrived, far, first_row, furthest, lemma_arrived, lemma_far, lemma_far_exists,
    lemma_far_relabel, lemma_not_arrived, live, next_row, row_exact, within,
};

verus! {

/// Edit distance between the first `x` tokens of `a` and the first `y` tokens of `b`.
pub open spec fn head_dist<T>(a: Seq<T>, b: Seq<T>, x: int, y: int) -> int {
    tail_dist(a.reverse(), b.reverse(), x, y)
}

/// Edit distance between what follows the first `x` tokens of `a` and the first `y` of `b`.
pub open spec fn rest_dist<T>(a: Seq<T>, b: Seq<T>, x: int, y: int) -> int {
    tail_dist(a, b, a.len() - x, b.len() - y)
}

/// Going through any point costs at least the distance between the whole sequences.
proof fn lemma_detour<T>(a: Seq<T>, b: Seq<T>, x: int, y: int)
    requires
        0 <= x <= a.len(),
        0 <= y <= b.len(),
    ensures
        head_dist(a, b, x, y) + rest_dist(a, b, x, y) >= edit_distance(a, b),
{
    lemma_lcs_split_bound(a, b, x, y);
}

/// From a point of a shortest path that lies at least `h` edits from the end,
/// some point of a shortest path lies exactly `h` edits from the end.
proof fn lemma_crossing<T>(a: Seq<T>, b: Seq<T>, x: int, y: int, h: int) -> (p: (int, int))
    requires
        0 <= x <= a.len(),
        0 <= y <= b.len(),
        head_dist(a, b, x, y) + rest_dist(a, b, x, y) == edit_distance(a, b),
        rest_dist(a, b, x, y) >= h >= 0,
    ensures
        0 <= p.0 <= a.len(),
        0 <= p.1 <= b.len(),
        rest_dist(a, b, p.0, p.1) == h,
        head_dist(a, b, p.0, p.1) == edit_distance(a, b) - h,
    decreases a.len() - x + b.len() - y,
{
    let n = a.len() as int;
    let m = b.len() as int;
    let ra = a.reverse();
    let rb = b.reverse();
    if rest_dist(a, b, x, y) == h {
        (x, y)
    } else {
        let u = n - x;
        let v = m - y;
        lemma_dist_range(a, b, u, v);
        lemma_dist_step(a, b, u, v);
        if x < n && y < m && a[x] == b[y] {
            assert(ra[n - (x + 1)] == a[x]);
            assert(rb[m - (y + 1)] == b[y]);
            lemma_dist_step(ra, rb, x + 1, y + 1);
            lemma_crossing(a, b, x + 1, y + 1, h)
        } else if x < n && rest_dist(a, b, x + 1, y) == rest_dist(a, b, x, y) - 1 {
            lemma_dist_step(ra, rb, x + 1, y);
            lemma_detour(a, b, x + 1, y);
            lemma_crossing(a, b, x + 1, y, h)
        } else {
            if u >= 1 {
                lemma_dist_range(a, b, u - 1, v);
            }
            if v >= 1 {
                lemma_dist_range(a, b, u, v - 1);
            }
            assert(y < m);
            assert(rest_dist(a, b, x, y + 1) == rest_dist(a, b, x, y) - 1);
            lemma_dist_step(ra, rb, x, y + 1);
            lemma_detour(a, b, x, y + 1);
            lemma_crossing(a, b, x, y + 1, h)
        }
    }
}

/// The furthest point that the search from the end has reached on entry `t`
/// of level `h` lies, seen from the start, within reach of level `e` of the
/// search from the start.
pub open spec fn overlap<T>(
    a: Seq<T>,
    b: Seq<T>,
    h: int,
    e: int,
    tail_row: Seq<usize>,
    head_row: Seq<usize>,
    t: int,
) -> bool {
    let k = 2 * t - h;
    let u = tail_row[t] as int;
    let x = a.len() - u;
    let y = b.len() - (u - k);
    let kh = x - y;
    &&& live(a.len() as int, b.len() as int, h, k)
    &&& -e <= kh <= e
    &&& (kh + e) % 2 == 0
    &&& head_row[(kh + e) / 2] >= x
}

/// The search from the end, `h` levels deep, and the search from the start,
/// `e` levels deep, meet on entry `t` of the first: its furthest point lies,
/// seen from the start, no further than the furthest point of the second on
/// the same diagonal.
pub open spec fn meets<T>(a: Seq<T>, b: Seq<T>, h: int, e: int, t: int) -> bool {
    let k = 2 * t - h;
    let u = far(a, b, h, k);
    let x = a.len() - u;
    let y = b.len() - (u - k);
    let kh = x - y;
    &&& live(a.len() as int, b.len() as int, h, k)
    &&& -e <= kh <= e
    &&& (kh + e) % 2 == 0
    &&& far(a.reverse(), b.reverse(), e, kh) >= x
}

/// The first entry on which the two searches meet.
pub open spec fn first_meeting<T>(a: Seq<T>, b: Seq<T>, h: int, e: int) -> int {
    choose|t: int|
        0 <= t <= h && meets(a, b, h, e, t) && forall|s: int|
            0 <= s < t ==> !#[trigger] meets(a, b, h, e, s)
}

/// The point at which a diff of more than `MAX_TRACE_DEPTH` edits is cut in
/// two: the furthest point of the search from the end, half of the distance
/// deep, on the first diagonal on which the search from the start meets it.
pub open spec fn cut_point<T>(a: Seq<T>, b: Seq<T>) -> (int, int) {
    let h = edit_distance(a, b) / 2;
    let e = edit_distance(a, b) - h;
    let t = first_meeting(a, b, h, e);
    let k = 2 * t - h;
    let u = far(a, b, h, k);
    (a.len() - u, b.len() - (u - k))
}

/// On exact rows, an overlap is a meeting.
proof fn lemma_overlap_meets<T>(
    a: Seq<T>,
    b: Seq<T>,
    h: int,
    e: int,
    tail_row: Seq<usize>,
    head_row: Seq<usize>,
    t: int,
)
    requires
        h >= 0,
        e >= 0,
        row_exact(a, b, h, tail_row),
        row_exact(a.reverse(), b.reverse(), e, head_row),
        0 <= t <= h,
    ensures
        overlap(a, b, h, e, tail_row, head_row, t) == meets(a, b, h, e, t),
        live(a.len() as int, b.len() as int, h, 2 * t - h) ==> far(a, b, h, 2 * t - h)
            == tail_row[t],
{
    let n = a.len() as int;
    let m = b.len() as int;
    let k = 2 * t - h;
    if live(n, m, h, k) {
        let u = tail_row[t] as int;
        assert(furthest(a, b, h, k, u));
        lemma_far(a, b, h, k, u);
        assert(within(a, b, h, u, u - k));
        let x = n - u;
        let y = m - (u - k);
        let kh = x - y;
        if -e <= kh <= e && (kh + e) % 2 == 0 {
            let s = (kh + e) / 2;
            assert(2 * s - e == kh);
            assert(live(n, m, e, 2 * s - e));
            assert(furthest(a.reverse(), b.reverse(), e, kh, head_row[s] as int));
            lemma_far(a.reverse(), b.reverse(), e, kh, head_row[s] as int);
        }
    }
}

/// The first meeting is the least entry on which the searches meet.
proof fn lemma_first_meeting<T>(a: Seq<T>, b: Seq<T>, h: int, e: int, t: int)
    requires
        0 <= t <= h,
        meets(a, b, h, e, t),
        forall|s: int| 0 <= s < t ==> !#[trigger] meets(a, b, h, e, s),
    ensures
        first_meeting(a, b, h, e) == t,
{
    let w = first_meeting(a, b, h, e);
    assert(0 <= w <= h && meets(a, b, h, e, w) && forall|s: int|
        0 <= s < w ==> !#[trigger] meets(a, b, h, e, s));
    if w < t {
        assert(!meets(a, b, h, e, w));
    }
    if t < w {
        assert(!meets(a, b, h, e, t));
    }
}

/// The row of level `d`, as the furthest points say it.
pub open spec fn far_row<T>(a: Seq<T>, b: Seq<T>, d: int) -> Seq<usize> {
    Seq::new((d + 1) as nat, |t: int| far(a, b, d, 2 * t - d) as usize)
}

/// The row of the furthest points is exact.
proof fn lemma_far_row<T>(a: Seq<T>, b: Seq<T>, d: int)
    requires
        d >= 0,
        a.len() <= usize::MAX,
    ensures
        row_exact(a, b, d, far_row(a, b, d)),
{
    assert forall|t: int|
        0 <= t <= d && live(a.len() as int, b.len() as int, d, 2 * t - d) implies furthest(
        a,
        b,
        d,
        2 * t - d,
        #[trigger] far_row(a, b, d)[t] as int,
    ) by {
        lemma_far_exists(a, b, d, 2 * t - d);
    }
}

/// Among the entries up to `t`, of which `t` is a meeting, one is the first meeting.
proof fn lemma_least_meeting<T>(a: Seq<T>, b: Seq<T>, h: int, e: int, t: int) -> (w: int)
    requires
        0 <= t <= h,
        meets(a, b, h, e, t),
    ensures
        0 <= w <= t,
        meets(a, b, h, e, w),
        forall|s: int| 0 <= s < w ==> !#[trigger] meets(a, b, h, e, s),
    decreases t,
{
    if exists|s: int| 0 <= s < t && meets(a, b, h, e, s) {
        let s = choose|s: int| 0 <= s < t && meets(a, b, h, e, s);
        lemma_least_meeting(a, b, h, e, s)
    } else {
        t
    }
}

/// Two sequences that lie at least two edits apart have a first meeting.
pub proof fn lemma_meeting_exists<T>(a: Seq<T>, b: Seq<T>)
    requires
        a.len() + b.len() < usize::MAX,
        edit_distance(a, b) >= 2,
    ensures
        ({
            let h = edit_distance(a, b) / 2;
            let e = edit_distance(a, b) - h;
            let t = first_meeting(a, b, h, e);
            &&& 0 <= t <= h
            &&& meets(a, b, h, e, t)
            &&& forall|s: int| 0 <= s < t ==> !#[trigger] meets(a, b, h, e, s)
        }),
{
    let h = edit_distance(a, b) / 2;
    let e = edit_distance(a, b) - h;
    let tail_row = far_row(a, b, h);
    let head_row = far_row(a.reverse(), b.reverse(), e);
    lemma_far_row(a, b, h);
    lemma_far_row(a.reverse(), b.reverse(), e);
    let t = lemma_overlap_exists(a, b, h, e, tail_row, head_row);
    lemma_overlap_meets(a, b, h, e, tail_row, head_row, t);
    let w = lemma_least_meeting(a, b, h, e, t);
    lemma_first_meeting(a, b, h, e, w);
}

/// Whether the searches meet depends only on which tokens are equal to which.
proof fn lemma_meets_relabel<S, T>(a: Seq<S>, b: Seq<S>, c: Seq<T>, d: Seq<T>, h: int, e: int, t: int)
    requires
        a.len() == c.len(),
        b.len() == d.len(),
        forall|x: int, y: int|
            #![trigger a[x], b[y]]
            0 <= x < a.len() && 0 <= y < b.len() ==> ((a[x] == b[y]) <==> (c[x] == d[y])),
    ensures
        meets(a, b, h, e, t) == meets(c, d, h, e, t),
{
    let n = a.len() as int;
    let m = b.len() as int;
    let k = 2 * t - h;
    if live(n, m, h, k) {
        lemma_far_relabel(a, b, c, d, h, k);
        lemma_far_exists(a, b, h, k);
        let u = far(a, b, h, k);
        assert(within(a, b, h, u, u - k));
        let x = n - u;
        let y = m - (u - k);
        let kh = x - y;
        if -e <= kh <= e && (kh + e) % 2 == 0 {
            let ra = a.reverse();
            let rb = b.reverse();
            let rc = c.reverse();
            let rd = d.reverse();
            assert forall|p: int, q: int|
                #![trigger ra[p], rb[q]]
                0 <= p < ra.len() && 0 <= q < rb.len() implies ((ra[p] == rb[q]) <==> (rc[p]
                == rd[q])) by {
                assert((a[n - 1 - p] == b[m - 1 - q]) <==> (c[n - 1 - p] == d[m - 1 - q]));
            }
            assert(live(n, m, e, kh));
            lemma_far_relabel(ra, rb, rc, rd, e, kh);
        }
    }
}

/// The cut point depends only on which tokens are equal to which.
pub proof fn lemma_cut_relabel<S, T>(a: Seq<S>, b: Seq<S>, c: Seq<T>, d: Seq<T>)
    requires
        a.len() == c.len(),
        b.len() == d.len(),
        forall|x: int, y: int|
            #![trigger a[x], b[y]]
            0 <= x < a.len() && 0 <= y < b.len() ==> ((a[x] == b[y]) <==> (c[x] == d[y])),
        a.len() + b.len() < usize::MAX,
        edit_distance(a, b) >= 2,
    ensures
        cut_point(a, b) == cut_point(c, d),
        edit_distance(a, b) == edit_distance(c, d),
{
    crate::lcs::lemma_lcs_relabel(a, b, c, d, 0, 0);
    let h = edit_distance(a, b) / 2;
    let e = edit_distance(a, b) - h;
    lemma_meeting_exists(a, b);
    let t = first_meeting(a, b, h, e);
    lemma_meets_relabel(a, b, c, d, h, e, t);
    assert forall|s: int| 0 <= s < t implies !#[trigger] meets(c, d, h, e, s) by {
        lemma_meets_relabel(a, b, c, d, h, e, s);
    }
    lemma_first_meeting(c, d, h, e, t);
    lemma_far_relabel(a, b, c, d, h, 2 * t - h);
}

/// Where the two searches overlap, the cut is exact.
proof fn lemma_overlap_cuts<T>(
    a: Seq<T>,
    b: Seq<T>,
    h: int,
    e: int,
    tail_row: Seq<usize>,
    head_row: Seq<usize>,
    t: int,
)
    requires
        a.len() + b.len() < usize::MAX,
        h >= 1,
        e >= 1,
        h + e == edit_distance(a, b),
        row_exact(a, b, h, tail_row),
        row_exact(a.reverse(), b.reverse(), e, head_row),
        0 <= t <= h,
        overlap(a, b, h, e, tail_row, head_row, t),
    ensures
        ({
            let k = 2 * t - h;
            let u = tail_row[t] as int;
            let x = a.len() - u;
            let y = b.len() - (u - k);
            &&& 0 <= x <= a.len()
            &&& 0 <= y <= b.len()
            &&& 0 < x + y < a.len() + b.len()
            &&& lcs_len(a.subrange(0, x), b.subrange(0, y)) + lcs_len(
                a.subrange(x, a.len() as int),
                b.subrange(y, b.len() as int),
            ) == lcs_len(a, b)
        }),
{
    let n = a.len() as int;
    let m = b.len() as int;
    let ra = a.reverse();
    let rb = b.reverse();
    let k = 2 * t - h;
    let u = tail_row[t] as int;
    let v = u - k;
    let x = n - u;
    let y = m - v;
    let kh = x - y;
    let s = (kh + e) / 2;
    assert(furthest(a, b, h, k, u));
    assert(within(a, b, h, u, v));
    assert(2 * s - e == kh);
    assert(live(n, m, e, 2 * s - e));
    let xh = head_row[s] as int;
    assert(furthest(ra, rb, e, kh, xh));
    assert(within(ra, rb, e, xh, xh - kh));
    lemma_dist_diagonal(ra, rb, xh, xh - kh, xh - x);
    lemma_lcs_cut(a, b, x, y);
    lemma_lcs_reverse(a, b);
}

/// Some entry of the row overlaps.
proof fn lemma_overlap_exists<T>(
    a: Seq<T>,
    b: Seq<T>,
    h: int,
    e: int,
    tail_row: Seq<usize>,
    head_row: Seq<usize>,
) -> (t: int)
    requires
        h >= 0,
        e >= 0,
        h + e == edit_distance(a, b),
        row_exact(a, b, h, tail_row),
        row_exact(a.reverse(), b.reverse(), e, head_row),
    ensures
        0 <= t <= h,
        overlap(a, b, h, e, tail_row, head_row, t),
{
    let n = a.len() as int;
    let m = b.len() as int;
    let ra = a.reverse();
    let rb = b.reverse();
    lemma_dist_range(a, b, n, m);
    let p = lemma_crossing(a, b, 0, 0, h);
    let u1 = n - p.0;
    let v1 = m - p.1;
    let k = u1 - v1;
    lemma_dist_range(a, b, u1, v1);
    let t = (k + h) / 2;
    assert(2 * t - h == k);
    assert(live(n, m, h, 2 * t - h));
    let u = tail_row[t] as int;
    assert(furthest(a, b, h, k, u));
    assert(within(a, b, h, u1, v1));
    assert(u >= u1);
    let x = n - u;
    let y = m - (u - k);
    let kh = x - y;
    assert(kh == p.0 - p.1);
    lemma_dist_range(ra, rb, p.0, p.1);
    let s = (kh + e) / 2;
    assert(2 * s - e == kh);
    assert(live(n, m, e, 2 * s - e));
    assert(furthest(ra, rb, e, kh, head_row[s] as int));
    assert(within(ra, rb, e, p.0, p.1));
    assert(head_row[s] >= p.0);
    t
}

/// A copy of `a` back to front.
fn reversed(a: &[usize]) -> (r: Vec<usize>)
    ensures
        r@ == a@.reverse(),
{
    let n: usize = a.len();
    let mut r: Vec<usize> = Vec::new();
    let mut i: usize = 0;
    while i < n
        invariant
            n == a.len(),
            i <= n,
            r@.len() == i,
            forall|j: int| 0 <= j < i ==> r@[j] == a@[n - 1 - j],
        decreases n - i,
    {
        r.push(a[n - 1 - i]);
        i = i + 1;
    }
    assert(r@ =~= a@.reverse());
    r
}

/// The row of level `level` of the search from the end.
fn row_at(a: &[usize], b: &[usize], level: usize) -> (row: Vec<usize>)
    requires
        level <= a@.len() + b@.len(),
        a@.len() + b@.len() < usize::MAX,
    ensures
        row_exact(a@, b@, level as int, row@),
{
    let mut row = first_row(a, b);
    let mut d: usize = 0;
    while d < level
        invariant
            d <= level <= a@.len() + b@.len(),
            a@.len() + b@.len() < usize::MAX,
            row_exact(a@, b@, d as int, row@),
        decreases level - d,
    {
        d = d + 1;
        row = next_row(a, b, d, &row);
    }
    row
}

/// The edit distance between `a` and `b`, in space linear in it.
pub fn distance(a: &[usize], b: &[usize]) -> (r: usize)
    requires
        a@.len() + b@.len() < usize::MAX,
    ensures
        r == edit_distance(a@, b@),
{
    let n: usize = a.len();
    let m: usize = b.len();
    let mut row = first_row(a, b);
    let mut d: usize = 0;
    proof {
        lemma_dist_range(a@, b@, n as int, m as int);
    }
    loop
        invariant
            n == a.len(),
            m == b.len(),
            n + m < usize::MAX,
            d <= n + m,
            row_exact(a@, b@, d as int, row@),
            tail_dist(a@, b@, n as int, m as int) >= d,
        decreases n + m - d,
    {
        let hit = arrived(n, m, d, &row);
        proof {
            lemma_dist_range(a@, b@, n as int, m as int);
            match hit {
                Some(t) => {
                    lemma_arrived(a@, b@, d as int, row@, t as int);
                },
                None => {
                    lemma_not_arrived(a@, b@, d as int, row@);
                },
            }
        }
        if hit.is_some() {
            return d;
        }
        d = d + 1;
        row = next_row(a, b, d, &row);
    }
}

/// The point at which the two searches meet on entry `t`, if they do.
fn meeting_at(
    a: &[usize],
    b: &[usize],
    h: usize,
    e: usize,
    t: usize,
    tail_row: &Vec<usize>,
    head_row: &Vec<usize>,
) -> (r: Option<(usize, usize)>)
    requires
        a@.len() + b@.len() < usize::MAX,
        h <= a@.len() + b@.len(),
        t <= h,
        row_exact(a@, b@, h as int, tail_row@),
        row_exact(a@.reverse(), b@.reverse(), e as int, head_row@),
    ensures
        r is Some == meets(a@, b@, h as int, e as int, t as int),
        r is Some == overlap(a@, b@, h as int, e as int, tail_row@, head_row@, t as int),
        match r {
            Some(p) => {
                &&& p.0 == a@.len() - tail_row@[t as int]
                &&& p.1 == b@.len() - (tail_row@[t as int] - (2 * t - h))
                &&& far(a@, b@, h as int, 2 * t - h) == tail_row@[t as int]
            },
            None => true,
        },
{
    let n: usize = a.len();
    let m: usize = b.len();
    proof {
        lemma_overlap_meets(a@, b@, h as int, e as int, tail_row@, head_row@, t as int);
    }
    let is_live: bool = if t >= h - t {
        t - (h - t) <= n
    } else {
        (h - t) - t <= m
    };
    if !is_live {
        return None;
    }
    assert((2 * t - h + h) % 2 == 0) by (nonlinear_arith);
    assert(furthest(a@, b@, h as int, 2 * t - h, tail_row@[t as int] as int));
    let u: usize = tail_row[t];
    let v: usize = if t >= h - t {
        u - (t - (h - t))
    } else {
        u + ((h - t) - t)
    };
    let x: usize = n - u;
    let y: usize = m - v;
    let gap: usize = if x >= y {
        x - y
    } else {
        y - x
    };
    if gap <= e && (e - gap) % 2 == 0 {
        let s: usize = if x >= y {
            (e - gap) / 2 + gap
        } else {
            (e - gap) / 2
        };
        if head_row[s] >= x {
            return Some((x, y));
        }
    }
    None
}

/// A point through which a shortest script passes, about half way: where
/// the search from the end and the search from the start first meet.
pub fn split(a: &[usize], b: &[usize], dist: usize) -> (r: (usize, usize))
    requires
        a@.len() + b@.len() < usize::MAX,
        dist == edit_distance(a@, b@),
        dist >= 2,
    ensures
        r.0 <= a@.len(),
        r.1 <= b@.len(),
        0 < r.0 + r.1 < a@.len() + b@.len(),
        lcs_len(a@.subrange(0, r.0 as int), b@.subrange(0, r.1 as int)) + lcs_len(
            a@.subrange(r.0 as int, a@.len() as int),
            b@.subrange(r.1 as int, b@.len() as int),
        ) == lcs_len(a@, b@),
        (r.0 as int, r.1 as int) == cut_point(a@, b@),
{
    let n: usize = a.len();
    let m: usize = b.len();
    let h: usize = dist / 2;
    let e: usize = dist - h;
    proof {
        lemma_dist_range(a@, b@, n as int, m as int);
    }
    let tail_row = row_at(a, b, h);
    let ra = reversed(a);
    let rb = reversed(b);
    let head_row = row_at(ra.as_slice(), rb.as_slice(), e);
    let mut t: usize = 0;
    while t <= h
        invariant
            n == a.len(),
            m == b.len(),
            n + m < usize::MAX,
            h >= 1,
            e >= 1,
            h + e == edit_distance(a@, b@),
            h == edit_distance(a@, b@) / 2,
            h <= n + m,
            t <= h + 1,
            ra@ == a@.reverse(),
            rb@ == b@.reverse(),
            row_exact(a@, b@, h as int, tail_row@),
            row_exact(ra@, rb@, e as int, head_row@),
            forall|s: int|
                0 <= s < t ==> !overlap(a@, b@, h as int, e as int, tail_row@, head_row@, s),
            forall|s: int| 0 <= s < t ==> !#[trigger] meets(a@, b@, h as int, e as int, s),
        decreases h + 1 - t,
    {
        let found = meeting_at(a, b, h, e, t, &tail_row, &head_row);
        if let Some(p) = found {
            proof {
                lemma_overlap_cuts(a@, b@, h as int, e as int, tail_row@, head_row@, t as int);
                lemma_first_meeting(a@, b@, h as int, e as int, t as int);
                let whole = edit_distance(a@, b@);
                assert(whole / 2 == h);
                assert(whole - whole / 2 == e);
                assert(first_meeting(a@, b@, whole / 2, whole - whole / 2) == t);
                let k = 2 * t - h;
                assert(far(a@, b@, whole / 2, k) == tail_row@[t as int]);
                assert(cut_point(a@, b@).0 == p.0);
                assert(cut_point(a@, b@).1 == p.1);
            }
            return p;
        }
        t = t + 1;
    }
    proof {
        let w = lemma_overlap_exists(a@, b@, h as int, e as int, tail_row@, head_row@);
        assert(false);
    }
    unreached()
}

} // verus!
