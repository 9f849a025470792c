//! The shortest edit script search: furthest-reaching paths per diagonal, level
//! by level, and the walk that reads the script off the recorded levels.
//!
//! The search runs from the ends of both sequences towards their starts, so
//! that the walk can run forwards and put equal runs as early as possible.
//! A point `(u, v)` stands for the last `u` tokens of `a` and the last `v`
//! tokens of `b`; its diagonal is `u - v`.
use vstd::prelude::*;
use crate::lcs::{
    edit_distance, lcs_from, lcs_len, tail_dist, lemma_dist_diagonal, lemma_dist_range,
    lemma_dist_step, lemma_lcs_relabel,
};
use crate::script::{
    grows, lemma_grows_same, lemma_grows_trans, matched, with_edit, with_equal, ScriptBuilder,
};
use crate::types::DiffOp;

verus! {

/// The deepest level that the search records before it gives up.
pub const MAX_TRACE_DEPTH: usize = 2048;

/// `(u, v)` lies in the grid and at most `d` edits from the end.
pub open spec fn within<T>(a: Seq<T>, b: Seq<T>, d: int, u: int, v: int) -> bool {
    0 <= u <= a.len() && 0 <= v <= b.len() && tail_dist(a, b, u, v) <= d
}

/// `x` is the furthest point of diagonal `k` that lies at most `d` edits from the end.
pub open spec fn furthest<T>(a: Seq<T>, b: Seq<T>, d: int, k: int, x: int) -> bool {
    &&& within(a, b, d, x, x - k)
    &&& forall|u: int, v: int| u > x && v == u - k ==> !#[trigger] within(a, b, d, u, v)
}

/// The furthest point of diagonal `k` that lies at most `d` edits from the end.
pub open spec fn far<T>(a: Seq<T>, b: Seq<T>, d: int, k: int) -> int {
    choose|x: int| furthest(a, b, d, k, x)
}

/// A diagonal has one furthest point only.
pub proof fn lemma_far<T>(a: Seq<T>, b: Seq<T>, d: int, k: int, x: int)
    requires
        furthest(a, b, d, k, x),
    ensures
        far(a, b, d, k) == x,
{
    let y = far(a, b, d, k);
    assert(furthest(a, b, d, k, y));
    if y < x {
        assert(within(a, b, d, x, x - k));
    }
    if x < y {
        assert(within(a, b, d, y, y - k));
    }
}

/// The furthest point at or below `hi` of a diagonal that has a point within `d` edits at `lo`.
proof fn lemma_scan<T>(a: Seq<T>, b: Seq<T>, d: int, k: int, lo: int, hi: int) -> (x: int)
    requires
        within(a, b, d, lo, lo - k),
        lo <= hi,
        forall|u: int, v: int| u > hi && v == u - k ==> !#[trigger] within(a, b, d, u, v),
    ensures
        furthest(a, b, d, k, x),
    decreases hi - lo,
{
    if within(a, b, d, hi, hi - k) {
        hi
    } else {
        lemma_scan(a, b, d, k, lo, hi - 1)
    }
}

/// Every live diagonal has a furthest point.
pub proof fn lemma_far_exists<T>(a: Seq<T>, b: Seq<T>, d: int, k: int)
    requires
        live(a.len() as int, b.len() as int, d, k),
    ensures
        furthest(a, b, d, k, far(a, b, d, k)),
        0 <= far(a, b, d, k) <= a.len(),
{
    let lo = if k >= 0 { k } else { 0 };
    lemma_dist_range(a, b, lo, lo - k);
    let x = lemma_scan(a, b, d, k, lo, a.len() as int);
    lemma_far(a, b, d, k, x);
}

/// The furthest points depend only on which tokens are equal to which.
pub proof fn lemma_far_relabel<S, T>(a: Seq<S>, b: Seq<S>, c: Seq<T>, e: Seq<T>, d: int, k: int)
    requires
        a.len() == c.len(),
        b.len() == e.len(),
        forall|x: int, y: int|
            #![trigger a[x], b[y]]
            0 <= x < a.len() && 0 <= y < b.len() ==> ((a[x] == b[y]) <==> (c[x] == e[y])),
        live(a.len() as int, b.len() as int, d, k),
    ensures
        far(a, b, d, k) == far(c, e, d, k),
{
    lemma_far_exists(a, b, d, k);
    let x = far(a, b, d, k);
    assert forall|u: int, v: int| 0 <= u <= a.len() && 0 <= v <= b.len() implies #[trigger] within(
        a,
        b,
        d,
        u,
        v,
    ) == within(c, e, d, u, v) by {
        lemma_lcs_relabel(a, b, c, e, a.len() - u, b.len() - v);
    }
    assert(within(c, e, d, x, x - k));
    assert forall|u: int, v: int| u > x && v == u - k implies !#[trigger] within(c, e, d, u, v) by {
        if 0 <= u <= a.len() && 0 <= v <= b.len() {
            assert(!within(a, b, d, u, v));
        }
    }
    lemma_far(c, e, d, k, x);
}

/// Diagonal `k` has a point in the grid that level `d` can reach.
pub open spec fn live(n: int, m: int, d: int, k: int) -> bool {
    -d <= k <= d && -m <= k <= n && (k + d) % 2 == 0
}

/// Entry `t` of the row of level `d` holds the furthest point of diagonal `2t - d`.
pub open spec fn row_exact<T>(a: Seq<T>, b: Seq<T>, d: int, row: Seq<usize>) -> bool {
    &&& row.len() == d + 1
    &&& forall|t: int|
        0 <= t <= d && live(a.len() as int, b.len() as int, d, 2 * t - d) ==> furthest(
            a,
            b,
            d,
            2 * t - d,
            #[trigger] row[t] as int,
        )
}

/// Every recorded level is exact.
pub open spec fn trace_exact<T>(a: Seq<T>, b: Seq<T>, trace: Seq<Vec<usize>>) -> bool {
    forall|d: int| 0 <= d < trace.len() ==> row_exact(a, b, d, (#[trigger] trace[d])@)
}

/// The tokens just before the point `(u, v)`, seen from the end, are the same.
pub open spec fn step_eq<T>(a: Seq<T>, b: Seq<T>, u: int, v: int) -> bool {
    a[a.len() - 1 - u] == b[b.len() - 1 - v]
}

/// Sliding along equal tokens does not change the distance.
proof fn lemma_slide_dist<T>(a: Seq<T>, b: Seq<T>, u0: int, v0: int, x: int)
    requires
        0 <= u0 <= x <= a.len(),
        0 <= v0,
        v0 + (x - u0) <= b.len(),
        forall|u: int, v: int| u0 <= u < x && v == u - u0 + v0 ==> #[trigger] step_eq(a, b, u, v),
    ensures
        tail_dist(a, b, x, v0 + (x - u0)) == tail_dist(a, b, u0, v0),
    decreases x - u0,
{
    if x > u0 {
        lemma_slide_dist(a, b, u0, v0, x - 1);
        let v = v0 + (x - u0);
        assert(step_eq(a, b, x - 1, v - 1));
        lemma_dist_step(a, b, x, v);
    }
}

/// No point of diagonal `k` beyond the end of its slide lies within `d` edits.
proof fn lemma_beyond<T>(a: Seq<T>, b: Seq<T>, d: int, k: int, x: int, far_left: int, far_above: int, u: int)
    requires
        d >= 0,
        (k + d) % 2 == 0,
        0 <= x <= a.len(),
        0 <= x - k <= b.len(),
        x == a.len() || x - k == b.len() || !step_eq(a, b, x, x - k),
        d >= 1 && live(a.len() as int, b.len() as int, d - 1, k - 1) ==> furthest(
            a,
            b,
            d - 1,
            k - 1,
            far_left,
        ) && (x >= far_left + 1 || x >= a.len()),
        d >= 1 && live(a.len() as int, b.len() as int, d - 1, k + 1) ==> furthest(
            a,
            b,
            d - 1,
            k + 1,
            far_above,
        ) && (x >= far_above || x >= b.len() + k),
        x < u <= a.len(),
        u - k <= b.len(),
    ensures
        tail_dist(a, b, u, u - k) > d,
    decreases u - x,
{
    let v = u - k;
    lemma_dist_step(a, b, u, v);
    if step_eq(a, b, u - 1, v - 1) {
        if u - 1 > x {
            lemma_beyond(a, b, d, k, x, far_left, far_above, u - 1);
        }
    } else {
        if tail_dist(a, b, u, v) <= d {
            if tail_dist(a, b, u, v) == tail_dist(a, b, u - 1, v) + 1 {
                lemma_dist_range(a, b, u - 1, v);
                assert(live(a.len() as int, b.len() as int, d - 1, k - 1));
                assert(within(a, b, d - 1, u - 1, v));
                assert(false);
            } else {
                lemma_dist_range(a, b, u, v - 1);
                assert(live(a.len() as int, b.len() as int, d - 1, k + 1));
                assert(within(a, b, d - 1, u, v - 1));
                assert(false);
            }
        }
    }
}

/// Slides from `(u0, v0)` along equal tokens as far as they go.
fn slide(a: &[usize], b: &[usize], u0: usize, v0: usize) -> (x: usize)
    requires
        u0 <= a.len(),
        v0 <= b.len(),
    ensures
        u0 <= x <= a.len(),
        v0 + (x - u0) <= b.len(),
        forall|u: int, v: int| u0 <= u < x && v == u - u0 + v0 ==> #[trigger] step_eq(a@, b@, u, v),
        x == a.len() || v0 + (x - u0) == b.len() || !step_eq(a@, b@, x as int, v0 + (x - u0)),
{
    let n: usize = a.len();
    let m: usize = b.len();
    let mut u: usize = u0;
    let mut v: usize = v0;
    while u < n && v < m && a[n - 1 - u] == b[m - 1 - v]
        invariant
            n == a.len(),
            m == b.len(),
            u0 <= u <= n,
            v == v0 + (u - u0),
            v <= m,
            forall|uu: int, vv: int|
                u0 <= uu < u && vv == uu - u0 + v0 ==> #[trigger] step_eq(a@, b@, uu, vv),
        decreases n - u,
    {
        u = u + 1;
        v = v + 1;
    }
    u
}

/// The row of level 0: the slide from the end itself.
pub fn first_row(a: &[usize], b: &[usize]) -> (row: Vec<usize>)
    ensures
        row_exact(a@, b@, 0, row@),
{
    let x = slide(a, b, 0, 0);
    let mut row: Vec<usize> = Vec::new();
    row.push(x);
    proof {
        lemma_slide_dist(a@, b@, 0, 0, x as int);
        assert forall|u: int, v: int| u > x && v == u - 0 implies !#[trigger] within(
            a@,
            b@,
            0,
            u,
            v,
        ) by {
            if u <= a@.len() && v <= b@.len() {
                lemma_beyond(a@, b@, 0, 0, x as int, 0, 0, u);
            }
        }
    }
    row
}

/// A step from the furthest point of diagonal `k - 1` leads to a point of
/// diagonal `k` that lies one level deeper at most.
proof fn lemma_from_left<T>(a: Seq<T>, b: Seq<T>, d: int, k: int, p: int)
    requires
        furthest(a, b, d - 1, k - 1, p),
        k <= a.len(),
    ensures
        ({
            let c = if p == a.len() { p } else { p + 1 };
            within(a, b, d, c, c - k)
        }),
{
    if p == a.len() {
        lemma_dist_step(a, b, p, p - k + 1);
    } else {
        lemma_dist_step(a, b, p + 1, p + 1 - k);
    }
}

/// A step from the furthest point of diagonal `k + 1` leads to a point of
/// diagonal `k` that lies one level deeper at most.
proof fn lemma_from_above<T>(a: Seq<T>, b: Seq<T>, d: int, k: int, p: int)
    requires
        furthest(a, b, d - 1, k + 1, p),
        -k <= b.len(),
    ensures
        ({
            let c = if p - (k + 1) == b.len() { p - 1 } else { p };
            within(a, b, d, c, c - k)
        }),
{
    if p - (k + 1) == b.len() {
        lemma_dist_step(a, b, p, p - (k + 1));
    } else {
        lemma_dist_step(a, b, p, p - k);
    }
}

/// The end of a slide that starts at the better of the two steps into
/// diagonal `k` is the furthest point of that diagonal.
proof fn lemma_slide_is_furthest<T>(
    a: Seq<T>,
    b: Seq<T>,
    d: int,
    k: int,
    start: int,
    x: int,
    far_left: int,
    far_above: int,
)
    requires
        d >= 0,
        (k + d) % 2 == 0,
        within(a, b, d, start, start - k),
        start <= x <= a.len(),
        x - k <= b.len(),
        forall|u: int, v: int|
            start <= u < x && v == u - start + (start - k) ==> #[trigger] step_eq(a, b, u, v),
        x == a.len() || x - k == b.len() || !step_eq(a, b, x, x - k),
        d >= 1 && live(a.len() as int, b.len() as int, d - 1, k - 1) ==> furthest(
            a,
            b,
            d - 1,
            k - 1,
            far_left,
        ) && (start >= far_left + 1 || start >= a.len()),
        d >= 1 && live(a.len() as int, b.len() as int, d - 1, k + 1) ==> furthest(
            a,
            b,
            d - 1,
            k + 1,
            far_above,
        ) && (start >= far_above || start >= b.len() + k),
    ensures
        furthest(a, b, d, k, x),
{
    lemma_slide_dist(a, b, start, start - k, x);
    assert forall|u: int, v: int| u > x && v == u - k implies !#[trigger] within(a, b, d, u, v) by {
        if u <= a.len() && v <= b.len() {
            lemma_beyond(a, b, d, k, x, far_left, far_above, u);
        }
    }
}

/// Which neighbours of a live diagonal were live one level up.
proof fn lemma_neighbours(n: int, m: int, d: int, t: int)
    requires
        d >= 1,
        0 <= t <= d,
        n >= 0,
        m >= 0,
        n + m >= d,
        live(n, m, d, 2 * t - d),
    ensures
        live(n, m, d - 1, 2 * t - d - 1) == (t >= 1 && 2 * t - d - 1 >= -m),
        live(n, m, d - 1, 2 * t - d + 1) == (t + 1 <= d && 2 * t - d + 1 <= n),
        live(n, m, d - 1, 2 * t - d - 1) || live(n, m, d - 1, 2 * t - d + 1),
{
    let k = 2 * t - d;
    assert((k - 1 + (d - 1)) % 2 == 0) by {
        assert(k - 1 + (d - 1) == 2 * (t - 1));
        assert((2 * (t - 1)) % 2 == 0) by (nonlinear_arith);
    }
    assert((k + 1 + (d - 1)) % 2 == 0) by {
        assert(k + 1 + (d - 1) == 2 * t);
        assert((2 * t) % 2 == 0) by (nonlinear_arith);
    }
}

/// The furthest point of diagonal `2t - d` at level `d`, from the furthest
/// points `from_left` and `from_above` of its two neighbours one level up, where those are live.
fn extend(
    a: &[usize],
    b: &[usize],
    d: usize,
    t: usize,
    left: bool,
    from_left: usize,
    above: bool,
    from_above: usize,
) -> (x: usize)
    requires
        1 <= d <= a@.len() + b@.len(),
        a@.len() + b@.len() < usize::MAX,
        t <= d,
        live(a@.len() as int, b@.len() as int, d as int, 2 * t - d),
        left == live(a@.len() as int, b@.len() as int, d - 1, 2 * t - d - 1),
        above == live(a@.len() as int, b@.len() as int, d - 1, 2 * t - d + 1),
        left || above,
        left ==> furthest(a@, b@, d - 1, 2 * t - d - 1, from_left as int),
        above ==> furthest(a@, b@, d - 1, 2 * t - d + 1, from_above as int),
    ensures
        furthest(a@, b@, d as int, 2 * t - d, x as int),
{
    let n: usize = a.len();
    let m: usize = b.len();
    let ghost k: int = 2 * t - d;
    let kp: usize = if t >= d - t { t - (d - t) } else { 0 };
    let kn: usize = if t >= d - t { 0 } else { (d - t) - t };
    let mut start: usize = 0;
    if left {
        proof {
            lemma_from_left(a@, b@, d as int, k, from_left as int);
        }
        start = if from_left == n { n } else { from_left + 1 };
    }
    if above {
        proof {
            lemma_from_above(a@, b@, d as int, k, from_above as int);
        }
        let v2: usize = if kn >= 1 { from_above + (kn - 1) } else { from_above - (kp + 1) };
        let c2: usize = if v2 == m { from_above - 1 } else { from_above };
        if !left || c2 > start {
            start = c2;
        }
    }
    let v0: usize = if kn >= 1 { start + kn } else { start - kp };
    let x = slide(a, b, start, v0);
    proof {
        lemma_slide_is_furthest(a@, b@, d as int, k, start as int, x as int, from_left as int, from_above as int);
    }
    x
}

/// The whole row of level `d`.
pub fn next_row(a: &[usize], b: &[usize], d: usize, prev: &Vec<usize>) -> (row: Vec<usize>)
    requires
        1 <= d <= a@.len() + b@.len(),
        a@.len() + b@.len() < usize::MAX,
        row_exact(a@, b@, d - 1, prev@),
    ensures
        row_exact(a@, b@, d as int, row@),
{
    let n: usize = a.len();
    let m: usize = b.len();
    let mut row: Vec<usize> = Vec::new();
    let mut t: usize = 0;
    while t <= d
        invariant
            n == a.len(),
            m == b.len(),
            1 <= d <= a@.len() + b@.len(),
            a@.len() + b@.len() < usize::MAX,
            t <= d + 1,
            row@.len() == t,
            row_exact(a@, b@, d - 1, prev@),
            forall|s: int|
                0 <= s < t && live(n as int, m as int, d as int, 2 * s - d) ==> furthest(
                    a@,
                    b@,
                    d as int,
                    2 * s - d,
                    #[trigger] row@[s] as int,
                ),
        decreases d + 1 - t,
    {
        let kp: usize = if t >= d - t { t - (d - t) } else { 0 };
        let kn: usize = if t >= d - t { 0 } else { (d - t) - t };
        let is_live: bool = kp <= n && kn <= m;
        let mut x: usize = 0;
        if is_live {
            assert((2 * t - d + d) % 2 == 0) by (nonlinear_arith);
            let left: bool = t >= 1 && (kp >= 1 || kn + 1 <= m);
            let above: bool = t + 1 <= d && (kn >= 1 || kp + 1 <= n);
            proof {
                lemma_neighbours(n as int, m as int, d as int, t as int);
                if left {
                    assert(2 * t - d - 1 == 2 * (t - 1) - (d - 1));
                }
                if above {
                    assert(2 * t - d + 1 == 2 * t - (d - 1));
                }
            }
            let from_left: usize = if left { prev[t - 1] } else { 0 };
            let from_above: usize = if above { prev[t] } else { 0 };
            x = extend(a, b, d, t, left, from_left, above, from_above);
        }
        row.push(x);
        t = t + 1;
    }
    row
}

/// Whether level `d` has reached the start of both sequences; `row` is its row.
pub fn arrived(n: usize, m: usize, d: usize, row: &Vec<usize>) -> (r: Option<usize>)
    requires
        row@.len() == d + 1,
    ensures
        match r {
            Some(t) => t <= d && 2 * t - d == n - m && row@[t as int] == n,
            None => !(exists|t: int| 0 <= t <= d && 2 * t - d == n - m && row@[t] == n),
        },
{
    let diff: usize = if n >= m { n - m } else { m - n };
    if diff > d || (d - diff) % 2 != 0 {
        return None;
    }
    let half: usize = (d - diff) / 2;
    let t: usize = if n >= m { half + diff } else { half };
    if row[t] == n {
        Some(t)
    } else {
        None
    }
}

/// A level that has not arrived shows that the distance is greater than its depth.
pub proof fn lemma_not_arrived<T>(a: Seq<T>, b: Seq<T>, d: int, row: Seq<usize>)
    requires
        d >= 0,
        row_exact(a, b, d, row),
        !(exists|t: int| 0 <= t <= d && 2 * t - d == a.len() - b.len() && row[t] == a.len()),
        tail_dist(a, b, a.len() as int, b.len() as int) >= d,
    ensures
        tail_dist(a, b, a.len() as int, b.len() as int) >= d + 1,
{
    let n = a.len() as int;
    let m = b.len() as int;
    lemma_dist_range(a, b, n, m);
    if tail_dist(a, b, n, m) == d {
        let k = n - m;
        let t = (k + d) / 2;
        assert(2 * t - d == k);
        assert(live(n, m, d, 2 * t - d));
        assert(furthest(a, b, d, k, row[t] as int));
        assert(within(a, b, d, n, m));
        assert(row[t] == n);
        assert(false);
    }
}

/// A level that has arrived shows that the distance is at most its depth.
pub proof fn lemma_arrived<T>(a: Seq<T>, b: Seq<T>, d: int, row: Seq<usize>, t: int)
    requires
        row_exact(a, b, d, row),
        0 <= t <= d,
        2 * t - d == a.len() - b.len(),
        row[t] == a.len(),
    ensures
        tail_dist(a, b, a.len() as int, b.len() as int) <= d,
{
    assert((2 * t - d + d) % 2 == 0) by (nonlinear_arith);
    assert(live(a.len() as int, b.len() as int, d, 2 * t - d));
    assert(furthest(a, b, d, 2 * t - d, row[t] as int));
}

/// Runs the search level by level until the start of both sequences is
/// reached, and hands back the recorded levels; `None` once the distance is
/// known to exceed `MAX_TRACE_DEPTH`.
pub fn search(a: &[usize], b: &[usize]) -> (r: Option<Vec<Vec<usize>>>)
    requires
        a@.len() + b@.len() < usize::MAX,
    ensures
        match r {
            Some(trace) => {
                &&& trace@.len() >= 1
                &&& trace@.len() - 1 == edit_distance(a@, b@)
                &&& trace@.len() - 1 <= MAX_TRACE_DEPTH
                &&& trace_exact(a@, b@, trace@)
            },
            None => edit_distance(a@, b@) > MAX_TRACE_DEPTH,
        },
{
    let n: usize = a.len();
    let m: usize = b.len();
    let mut trace: Vec<Vec<usize>> = Vec::new();
    let row = first_row(a, b);
    let hit = arrived(n, m, 0, &row);
    proof {
        lemma_dist_range(a@, b@, n as int, m as int);
        match hit {
            Some(t) => {
                lemma_arrived(a@, b@, 0, row@, t as int);
            },
            None => {
                lemma_not_arrived(a@, b@, 0, row@);
            },
        }
    }
    trace.push(row);
    if hit.is_some() {
        return Some(trace);
    }
    let mut d: usize = 1;
    while d <= MAX_TRACE_DEPTH
        invariant
            n == a.len(),
            m == b.len(),
            n + m < usize::MAX,
            1 <= d <= MAX_TRACE_DEPTH + 1,
            trace@.len() == d,
            trace_exact(a@, b@, trace@),
            tail_dist(a@, b@, n as int, m as int) >= d,
        decreases MAX_TRACE_DEPTH + 1 - d,
    {
        proof {
            lemma_dist_range(a@, b@, n as int, m as int);
        }
        let row = next_row(a, b, d, &trace[d - 1]);
        let hit = arrived(n, m, d, &row);
        proof {
            match hit {
                Some(t) => {
                    lemma_arrived(a@, b@, d as int, row@, t as int);
                },
                None => {
                    lemma_not_arrived(a@, b@, d as int, row@);
                },
            }
        }
        let ghost before = trace@;
        trace.push(row);
        assert(forall|e: int| 0 <= e < d ==> trace@[e] == before[e]);
        if hit.is_some() {
            return Some(trace);
        }
        d = d + 1;
    }
    None
}

/// The script `ops`, grown by the steps of a shortest path from `(i, j)` to
/// the end of both sequences: where the next tokens are the same, they are
/// equal; otherwise the old token is removed if that leads nearer to the end,
/// and the new token is added if not. The tokens stand at `(x0, y0)` in the
/// sequences that the script speaks of.
pub open spec fn steps_from<T>(
    a: Seq<T>,
    b: Seq<T>,
    x0: int,
    y0: int,
    i: int,
    j: int,
    ops: Seq<DiffOp>,
) -> Seq<DiffOp>
    decreases a.len() - i + b.len() - j,
{
    if i < 0 || j < 0 || i > a.len() || j > b.len() {
        ops
    } else if i < a.len() && j < b.len() && a[i] == b[j] {
        steps_from(a, b, x0, y0, i + 1, j + 1, with_equal(ops, x0 + i, y0 + j, 1))
    } else if i < a.len() && tail_dist(a, b, a.len() - i - 1, b.len() - j) < tail_dist(
        a,
        b,
        a.len() - i,
        b.len() - j,
    ) {
        steps_from(a, b, x0, y0, i + 1, j, with_edit(ops, x0 + i, y0 + j, 1, 0))
    } else if j < b.len() {
        steps_from(a, b, x0, y0, i, j + 1, with_edit(ops, x0 + i, y0 + j, 0, 1))
    } else {
        ops
    }
}

/// The steps depend only on which tokens are equal to which.
pub proof fn lemma_steps_relabel<S, T>(
    a: Seq<S>,
    b: Seq<S>,
    c: Seq<T>,
    d: Seq<T>,
    x0: int,
    y0: int,
    i: int,
    j: int,
    ops: Seq<DiffOp>,
)
    requires
        a.len() == c.len(),
        b.len() == d.len(),
        forall|x: int, y: int|
            #![trigger a[x], b[y]]
            0 <= x < a.len() && 0 <= y < b.len() ==> ((a[x] == b[y]) <==> (c[x] == d[y])),
        0 <= i <= a.len(),
        0 <= j <= b.len(),
    ensures
        steps_from(a, b, x0, y0, i, j, ops) == steps_from(c, d, x0, y0, i, j, ops),
    decreases a.len() - i + b.len() - j,
{
    if i < a.len() && j < b.len() {
        assert((a[i] == b[j]) <==> (c[i] == d[j]));
    }
    lemma_lcs_relabel(a, b, c, d, i, j);
    if i < a.len() && j < b.len() && a[i] == b[j] {
        lemma_steps_relabel(a, b, c, d, x0, y0, i + 1, j + 1, with_equal(ops, x0 + i, y0 + j, 1));
    } else {
        if i < a.len() {
            lemma_lcs_relabel(a, b, c, d, i + 1, j);
            lemma_steps_relabel(a, b, c, d, x0, y0, i + 1, j, with_edit(ops, x0 + i, y0 + j, 1, 0));
        }
        if j < b.len() {
            lemma_steps_relabel(a, b, c, d, x0, y0, i, j + 1, with_edit(ops, x0 + i, y0 + j, 0, 1));
        }
    }
}

/// Whether removing the old token at `i` leads nearer to the end. The tokens
/// at `(i, j)` differ, or one side is at its end.
fn can_remove(
    a: &[usize],
    b: &[usize],
    trace: &Vec<Vec<usize>>,
    d: usize,
    t: usize,
    i: usize,
    j: usize,
) -> (r: bool)
    requires
        i <= a@.len(),
        j <= b@.len(),
        i < a@.len() || j < b@.len(),
        !(i < a@.len() && j < b@.len() && a@[i as int] == b@[j as int]),
        d < trace@.len(),
        trace_exact(a@, b@, trace@),
        tail_dist(a@, b@, a@.len() - i, b@.len() - j) == d,
        t <= d,
        2 * t - d == (a@.len() - i) - (b@.len() - j),
    ensures
        d >= 1,
        r == (i < a@.len() && tail_dist(a@, b@, a@.len() - i - 1, b@.len() - j) < d),
        r ==> t >= 1 && tail_dist(a@, b@, a@.len() - i - 1, b@.len() - j) == d - 1,
        !r ==> j < b@.len() && t < d && tail_dist(a@, b@, a@.len() - i, b@.len() - j - 1) == d
            - 1,
{
    let n: usize = a.len();
    let m: usize = b.len();
    let ghost u = n - i;
    let ghost v = m - j;
    let ghost k = u - v;
    proof {
        lemma_dist_step(a@, b@, u, v);
        lemma_dist_range(a@, b@, u, v);
        if i < n {
            lemma_dist_range(a@, b@, u - 1, v);
        }
        if j < m {
            lemma_dist_range(a@, b@, u, v - 1);
        }
    }
    if i < n && t >= 1 {
        let p: usize = trace[d - 1][t - 1];
        proof {
            assert(live(n as int, m as int, d - 1, 2 * (t - 1) - (d - 1)));
            assert(row_exact(a@, b@, d - 1, trace@[d - 1]@));
            assert(furthest(a@, b@, d - 1, k - 1, p as int));
            if u - 1 <= p {
                lemma_dist_diagonal(a@, b@, p as int, p - (k - 1), p - (u - 1));
            } else {
                assert(!within(a@, b@, d - 1, u - 1, v));
            }
        }
        n - i - 1 <= p
    } else {
        false
    }
}

/// Reads the shortest script off the recorded levels, front to back: equal
/// tokens are taken as early as they come, and of the two ways on at a
/// difference the removal is taken where both lead equally near to the end.
pub fn walk(builder: &mut ScriptBuilder, a: &[usize], b: &[usize], trace: &Vec<Vec<usize>>)
    requires
        old(builder).wf(),
        old(builder).old_pos + a@.len() <= old(builder).a@.len(),
        old(builder).new_pos + b@.len() <= old(builder).b@.len(),
        a@ == old(builder).a@.subrange(
            old(builder).old_pos as int,
            old(builder).old_pos + a@.len(),
        ),
        b@ == old(builder).b@.subrange(
            old(builder).new_pos as int,
            old(builder).new_pos + b@.len(),
        ),
        trace@.len() >= 1,
        trace@.len() - 1 == edit_distance(a@, b@),
        trace_exact(a@, b@, trace@),
    ensures
        final(builder).wf(),
        final(builder).a@ == old(builder).a@,
        final(builder).b@ == old(builder).b@,
        final(builder).old_pos == old(builder).old_pos + a@.len(),
        final(builder).new_pos == old(builder).new_pos + b@.len(),
        matched(final(builder).ops@) == matched(old(builder).ops@) + lcs_len(a@, b@),
        final(builder).ops@ == steps_from(
            a@,
            b@,
            old(builder).old_pos as int,
            old(builder).new_pos as int,
            0,
            0,
            old(builder).ops@,
        ),
        grows(old(builder).ops@, final(builder).ops@),
{
    let n: usize = a.len();
    let m: usize = b.len();
    let mut i: usize = 0;
    let mut j: usize = 0;
    let mut d: usize = trace.len() - 1;
    proof {
        lemma_dist_range(a@, b@, n as int, m as int);
    }
    let mut t: usize = if n >= m {
        (d - (n - m)) / 2 + (n - m)
    } else {
        (d - (m - n)) / 2
    };
    let ghost base_old = builder.old_pos as int;
    let ghost base_new = builder.new_pos as int;
    let ghost start_matched = matched(builder.ops@);
    proof {
        lemma_grows_same(builder.ops@);
    }
    while i < n || j < m
        invariant
            n == a.len(),
            m == b.len(),
            i <= n,
            j <= m,
            d < trace@.len(),
            trace_exact(a@, b@, trace@),
            tail_dist(a@, b@, n - i, m - j) == d,
            t <= d,
            2 * t - d == (n - i) - (m - j),
            builder.wf(),
            builder.a@ == old(builder).a@,
            builder.b@ == old(builder).b@,
            0 <= base_old,
            0 <= base_new,
            builder.old_pos == base_old + i,
            builder.new_pos == base_new + j,
            base_old + n <= builder.a@.len(),
            base_new + m <= builder.b@.len(),
            a@ == builder.a@.subrange(base_old, base_old + n),
            b@ == builder.b@.subrange(base_new, base_new + m),
            matched(builder.ops@) + lcs_from(a@, b@, i as int, j as int) == start_matched
                + lcs_len(a@, b@),
            steps_from(a@, b@, base_old, base_new, i as int, j as int, builder.ops@) == steps_from(
                a@,
                b@,
                base_old,
                base_new,
                0,
                0,
                old(builder).ops@,
            ),
            grows(old(builder).ops@, builder.ops@),
        decreases (n - i) + (m - j),
    {
        let ghost before = builder.ops@;
        if i < n && j < m && a[i] == b[j] {
            proof {
                lemma_dist_step(a@, b@, n - i, m - j);
                assert(a@[i as int] == builder.a@.subrange(base_old, base_old + n)[i as int]);
                assert(b@[j as int] == builder.b@.subrange(base_new, base_new + m)[j as int]);
            }
            builder.equal(1);
            i = i + 1;
            j = j + 1;
        } else {
            let removes = can_remove(a, b, trace, d, t, i, j);
            if removes {
                builder.edit(1, 0);
                i = i + 1;
                t = t - 1;
            } else {
                builder.edit(0, 1);
                j = j + 1;
            }
            d = d - 1;
        }
        proof {
            lemma_grows_trans(old(builder).ops@, before, builder.ops@);
        }
    }
}

} // verus!
