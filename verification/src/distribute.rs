//! Spreading each day's homework load over the days before it.
//!
//! A plan is a sequence of `(weight, load)` slots, one per day. Before
//! `distribute`, the load of slot `x` is the homework due on day `x + 1`;
//! afterwards it is the homework to do on day `x`, with the weights left as
//! they were. All arithmetic is the planner's `i32` evaluation, exactly: a
//! plan on which that evaluation would overflow or divide by zero has no
//! distribution (`None`).
use vstd::math::{max, min};
use vstd::prelude::*;

verus! {

/// `x` lies in the range of `i32`.
pub open spec fn fits_i32(x: int) -> bool {
    i32::MIN <= x <= i32::MAX
}

/// Integer division that truncates toward zero, as Rust's `/` does.
pub open spec fn tdiv(a: int, b: int) -> int {
    let q = (if a >= 0 { a } else { -a }) / (if b >= 0 { b } else { -b });
    if (a >= 0) == (b >= 0) { q } else { -q }
}

/// The remainder that goes with [`tdiv`], as Rust's `%` computes it.
pub open spec fn tmod(a: int, b: int) -> int {
    a - b * tdiv(a, b)
}

/// `a / b` (and `a % b`) on `i32` neither divides by zero nor overflows.
pub open spec fn div_ok(a: int, b: int) -> bool {
    b != 0 && fits_i32(tdiv(a, b))
}

/// The slots of a plan as mathematical integers.
pub open spec fn ints(s: Seq<(i32, i32)>) -> Seq<(int, int)> {
    s.map_values(|x: (i32, i32)| (x.0 as int, x.1 as int))
}

/// Sum of the loads of slots `lo .. hi`.
pub open spec fn load_sum(s: Seq<(int, int)>, lo: int, hi: int) -> int
    decreases hi - lo,
{
    if hi <= lo {
        0
    } else {
        load_sum(s, lo, hi - 1) + s[hi - 1].1
    }
}

/// Sum of the weights of slots `lo .. hi`.
pub open spec fn weight_sum(s: Seq<(int, int)>, lo: int, hi: int) -> int
    decreases hi - lo,
{
    if hi <= lo {
        0
    } else {
        weight_sum(s, lo, hi - 1) + s[hi - 1].0
    }
}

/// Every running total of the loads of slots `lo .. hi` fits in `i32`.
pub open spec fn load_sum_fits(s: Seq<(int, int)>, lo: int, hi: int) -> bool {
    forall|k: int| lo <= k <= hi ==> fits_i32(#[trigger] load_sum(s, lo, k))
}

/// Every running total of the weights of slots `lo .. hi` fits in `i32`.
pub open spec fn weight_sum_fits(s: Seq<(int, int)>, lo: int, hi: int) -> bool {
    forall|k: int| lo <= k <= hi ==> fits_i32(#[trigger] weight_sum(s, lo, k))
}

/// The per-weight share of a slot, rounded up (`0` for a slot of weight `0`).
pub open spec fn share(w: int, l: int) -> int {
    if w == 0 {
        0
    } else {
        tdiv(l, w) + min(tmod(l, w), 1)
    }
}

/// Computing [`share`] in `i32` neither overflows nor divides by zero.
pub open spec fn share_ok(w: int, l: int) -> bool {
    w == 0 || (div_ok(l, w) && fits_i32(tdiv(l, w) + min(tmod(l, w), 1)))
}

/// The largest share among slots `lo .. hi`, `0` when there is none.
pub open spec fn max_share(s: Seq<(int, int)>, lo: int, hi: int) -> int
    decreases hi - lo,
{
    if hi <= lo {
        0
    } else if hi == lo + 1 {
        share(s[lo].0, s[lo].1)
    } else {
        max(max_share(s, lo, hi - 1), share(s[hi - 1].0, s[hi - 1].1))
    }
}

/// Every share among slots `lo .. hi` can be computed.
pub open spec fn shares_ok(s: Seq<(int, int)>, lo: int, hi: int) -> bool {
    forall|i: int| lo <= i < hi ==> share_ok(#[trigger] s[i].0, s[i].1)
}

/// The part of the first slot's load that stays in play when `p` units of
/// its weight are held back.
pub open spec fn partial_load(w: int, l: int, p: int) -> int {
    (w - p) * tdiv(l, w) + max(tmod(l, w) - p, 0)
}

/// Total load of the window `start ..= d` once `dl` (the load due after `d`)
/// is added and `p` units of the first slot are held back.
pub open spec fn window_load(s: Seq<(int, int)>, d: int, dl: int, start: int, p: int) -> int {
    dl + partial_load(s[start].0, s[start].1, p) + load_sum(s, start + 1, d + 1)
}

/// Total weight of the window `start ..= d` less the `p` held-back units.
pub open spec fn window_len(s: Seq<(int, int)>, d: int, start: int, p: int) -> int {
    weight_sum(s, start, d + 1) - p
}

/// The least per-weight level the window must reach so that no slot in it
/// loses load.
pub open spec fn window_cap(s: Seq<(int, int)>, d: int, start: int, p: int) -> int {
    let w = s[start].0;
    let l = s[start].1;
    max(max_share(s, start + 1, d + 1), tdiv(l, w) + max(tmod(l, w) - p, 0))
}

/// Evaluating the window in `i32` neither overflows nor divides by zero.
pub open spec fn window_ok(s: Seq<(int, int)>, d: int, dl: int, start: int, p: int) -> bool {
    let w = s[start].0;
    let l = s[start].1;
    &&& fits_i32((w - p) * tdiv(l, w))
    &&& fits_i32(partial_load(w, l, p))
    &&& fits_i32(dl + partial_load(w, l, p))
    &&& load_sum_fits(s, start + 1, d + 1)
    &&& fits_i32(window_load(s, d, dl, start, p))
    &&& weight_sum_fits(s, start, d + 1)
    &&& fits_i32(window_len(s, d, start, p))
    &&& shares_ok(s, start + 1, d + 1)
    &&& fits_i32(tdiv(l, w) + max(tmod(l, w) - p, 0))
    &&& div_ok(window_load(s, d, dl, start, p), window_len(s, d, start, p))
}

/// The window reaches its cap: its load can be levelled over it.
pub open spec fn window_fits(s: Seq<(int, int)>, d: int, dl: int, start: int, p: int) -> bool {
    tdiv(window_load(s, d, dl, start, p), window_len(s, d, start, p)) >= window_cap(s, d, start, p)
}

/// Hands the remainder `e` out over slots `i .. end`, each taking at most its
/// weight, and stops once nothing is left.
pub open spec fn spread(s: Seq<(int, int)>, i: int, end: int, e: int) -> Option<Seq<(int, int)>>
    decreases end - i,
{
    if i >= end {
        Some(s)
    } else {
        let m = min(s[i].0, e);
        if !fits_i32(s[i].1 + m) || !fits_i32(e - m) {
            None
        } else {
            let s2 = s.update(i, (s[i].0, s[i].1 + m));
            if e - m == 0 {
                Some(s2)
            } else {
                spread(s2, i + 1, end, e - m)
            }
        }
    }
}

/// Sets the load of each slot `i .. end` to its weight times `q`.
pub open spec fn scale_tail(s: Seq<(int, int)>, i: int, end: int, q: int) -> Option<Seq<(int, int)>>
    decreases end - i,
{
    if i >= end {
        Some(s)
    } else if !fits_i32(s[i].0 * q) {
        None
    } else {
        scale_tail(s.update(i, (s[i].0, s[i].0 * q)), i + 1, end, q)
    }
}

/// Levels the load of the window `start ..= d` (with `p` units of the first
/// slot held back) at `q` per weight and hands out the remainder over the
/// window, from its first slot on, each slot taking at most its weight.
pub open spec fn level_window(s: Seq<(int, int)>, d: int, dl: int, start: int, p: int) -> Option<
    Seq<(int, int)>,
> {
    let w = s[start].0;
    let l = s[start].1;
    let load = window_load(s, d, dl, start, p);
    let len = window_len(s, d, start, p);
    let q = tdiv(load, len);
    let r = tmod(load, len);
    let pl = partial_load(w, l, p);
    if !fits_i32(q * (w - p)) || !fits_i32(q * (w - p) - pl) || !fits_i32(l + (q * (w - p) - pl)) {
        None
    } else {
        match scale_tail(s.update(start, (w, l + (q * (w - p) - pl))), start + 1, d + 1, q) {
            None => None,
            Some(s2) => spread(s2, start, d + 1, r),
        }
    }
}

/// Tries the windows `start ..= d` in order, and in each the held-back
/// amounts `p` in order, and levels the first that fits. When none fits the
/// plan stays as it is.
pub open spec fn search(s: Seq<(int, int)>, d: int, dl: int, start: int, p: int) -> Option<
    Seq<(int, int)>,
>
    decreases d + 1 - start, s[start].0 - p,
{
    if start > d || start < 0 || d >= s.len() {
        Some(s)
    } else if p >= s[start].0 {
        search(s, d, dl, start + 1, 0)
    } else if p < 0 || !window_ok(s, d, dl, start, p) {
        None
    } else if window_fits(s, d, dl, start, p) {
        level_window(s, d, dl, start, p)
    } else {
        search(s, d, dl, start, p + 1)
    }
}

/// Moves the load of slot `d` into the days up to `d`.
pub open spec fn day_step(s: Seq<(int, int)>, d: int) -> Option<Seq<(int, int)>> {
    search(s.update(d, (s[d].0, 0)), d, s[d].1, 0, 0)
}

/// Processes the days `d ..` of the plan in order.
pub open spec fn distribute_from(s: Seq<(int, int)>, d: int) -> Option<Seq<(int, int)>>
    decreases s.len() - d,
{
    if d >= s.len() || d < 0 {
        Some(s)
    } else {
        match day_step(s, d) {
            None => None,
            Some(s2) => if s2.len() == s.len() {
                distribute_from(s2, d + 1)
            } else {
                None
            },
        }
    }
}

/// The distribution of a whole plan.
pub open spec fn distributed(s: Seq<(int, int)>) -> Option<Seq<(int, int)>> {
    distribute_from(s, 0)
}


// ---------------------------------------------------------------------------
// Facts about the plan operations
// ---------------------------------------------------------------------------

proof fn lemma_ints_update(s: Seq<(i32, i32)>, i: int, v: (i32, i32))
    requires
        0 <= i < s.len(),
    ensures
        ints(s.update(i, v)) == ints(s).update(i, (v.0 as int, v.1 as int)),
{
    assert(ints(s.update(i, v)) =~= ints(s).update(i, (v.0 as int, v.1 as int)));
}

proof fn lemma_spread_len(s: Seq<(int, int)>, i: int, end: int, e: int)
    requires
        0 <= i,
        end <= s.len(),
    ensures
        spread(s, i, end, e) matches Some(t) ==> t.len() == s.len(),
    decreases end - i,
{
    if i < end {
        let m = min(s[i].0, e);
        let s2 = s.update(i, (s[i].0, s[i].1 + m));
        lemma_spread_len(s2, i + 1, end, e - m);
    }
}

proof fn lemma_scale_tail_len(s: Seq<(int, int)>, i: int, end: int, q: int)
    requires
        0 <= i,
        end <= s.len(),
    ensures
        scale_tail(s, i, end, q) matches Some(t) ==> t.len() == s.len(),
    decreases end - i,
{
    if i < end && fits_i32(s[i].0 * q) {
        lemma_scale_tail_len(s.update(i, (s[i].0, s[i].0 * q)), i + 1, end, q);
    }
}

proof fn lemma_search_len(s: Seq<(int, int)>, d: int, dl: int, start: int, p: int)
    ensures
        search(s, d, dl, start, p) matches Some(t) ==> t.len() == s.len(),
    decreases d + 1 - start, s[start].0 - p,
{
    if start > d || start < 0 || d >= s.len() {
    } else if p >= s[start].0 {
        lemma_search_len(s, d, dl, start + 1, 0);
    } else if p < 0 || !window_ok(s, d, dl, start, p) {
    } else if window_fits(s, d, dl, start, p) {
        let w = s[start].0;
        let l = s[start].1;
        let load = window_load(s, d, dl, start, p);
        let len = window_len(s, d, start, p);
        let q = tdiv(load, len);
        let r = tmod(load, len);
        let pl = partial_load(w, l, p);
        let s1 = s.update(start, (w, l + (q * (w - p) - pl)));
        lemma_scale_tail_len(s1, start + 1, d + 1, q);
        match scale_tail(s1, start + 1, d + 1, q) {
            None => {},
            Some(s2) => {
                lemma_spread_len(s2, start, d + 1, r);
            },
        }
    } else {
        lemma_search_len(s, d, dl, start, p + 1);
    }
}

// ---------------------------------------------------------------------------
// Executable distribution
// ---------------------------------------------------------------------------

proof fn lemma_mul_small(a: int, b: int)
    requires
        fits_i32(a),
        fits_i32(b),
    ensures
        -0x4000_0000_0000_0000 <= a * b <= 0x4000_0000_0000_0000,
        a * b == b * a,
{
    assert(a * b == b * a) by (nonlinear_arith);
    assert(-0x4000_0000_0000_0000 <= a * b <= 0x4000_0000_0000_0000) by (nonlinear_arith)
        requires
            -0x8000_0000 <= a <= 0x8000_0000,
            -0x8000_0000 <= b <= 0x8000_0000,
    {
        if a >= 0 && b >= 0 {
            assert(a * b <= 0x8000_0000 * b);
            assert(0x8000_0000 * b <= 0x8000_0000 * 0x8000_0000);
        }
    }
}

/// Rust's truncating `/`, computed through a positive divisor.
fn div_trunc(a: i64, b: i64) -> (q: i64)
    requires
        b != 0,
        -0x1_0000_0000 <= a <= 0x1_0000_0000,
        -0x1_0000_0000 <= b <= 0x1_0000_0000,
    ensures
        q == tdiv(a as int, b as int),
        -0x1_0000_0000 <= q <= 0x1_0000_0000,
        b > 0 && fits_i32(a as int) ==> fits_i32(q as int),
{
    if b > 0 {
        let q = a / b;
        assert(-0x1_0000_0000 <= q <= 0x1_0000_0000) by (nonlinear_arith)
            requires
                q == tdiv(a as int, b as int),
                b > 0,
                -0x1_0000_0000 <= a <= 0x1_0000_0000,
        {
            let aa = if a >= 0 { a as int } else { -a };
            assert(0 <= aa / (b as int) <= aa);
        }
        q
    } else {
        let nb = -b;
        let q = a / nb;
        assert(-0x1_0000_0000 <= q <= 0x1_0000_0000) by (nonlinear_arith)
            requires
                q == tdiv(a as int, nb as int),
                nb > 0,
                -0x1_0000_0000 <= a <= 0x1_0000_0000,
        {
            let aa = if a >= 0 { a as int } else { -a };
            assert(0 <= aa / (nb as int) <= aa);
        }
        -q
    }
}

fn fits(x: i64) -> (r: bool)
    ensures
        r == fits_i32(x as int),
{
    -0x8000_0000 <= x && x <= 0x7fff_ffff
}

fn min64(a: i64, b: i64) -> (r: i64)
    ensures
        r == min(a as int, b as int),
{
    if a <= b {
        a
    } else {
        b
    }
}

fn max64(a: i64, b: i64) -> (r: i64)
    ensures
        r == max(a as int, b as int),
{
    if a >= b {
        a
    } else {
        b
    }
}

/// The total load of slots `lo .. hi`, if every running total fits `i32`.
pub(crate) fn sum_loads(s: &Vec<(i32, i32)>, lo: usize, hi: usize) -> (r: Option<i64>)
    requires
        lo <= hi <= s.len(),
    ensures
        r is Some <==> load_sum_fits(ints(s@), lo as int, hi as int),
        r matches Some(v) ==> v == load_sum(ints(s@), lo as int, hi as int) && fits_i32(v as int),
{
    let ghost t = ints(s@);
    let mut acc: i64 = 0;
    let mut k = lo;
    while k < hi
        invariant
            lo <= k <= hi <= s.len(),
            t == ints(s@),
            acc == load_sum(t, lo as int, k as int),
            forall|j: int| lo <= j <= k ==> fits_i32(#[trigger] load_sum(t, lo as int, j)),
        decreases hi - k,
    {
        acc = acc + s[k].1 as i64;
        assert(acc == load_sum(t, lo as int, k + 1));
        if !fits(acc) {
            assert(!fits_i32(load_sum(t, lo as int, k + 1)));
            return None;
        }
        k = k + 1;
    }
    Some(acc)
}

/// The total weight of slots `lo .. hi`, if every running total fits `i32`.
fn sum_weights(s: &Vec<(i32, i32)>, lo: usize, hi: usize) -> (r: Option<i64>)
    requires
        lo <= hi <= s.len(),
    ensures
        r is Some <==> weight_sum_fits(ints(s@), lo as int, hi as int),
        r matches Some(v) ==> v == weight_sum(ints(s@), lo as int, hi as int) && fits_i32(v as int),
{
    let ghost t = ints(s@);
    let mut acc: i64 = 0;
    let mut k = lo;
    while k < hi
        invariant
            lo <= k <= hi <= s.len(),
            t == ints(s@),
            acc == weight_sum(t, lo as int, k as int),
            forall|j: int| lo <= j <= k ==> fits_i32(#[trigger] weight_sum(t, lo as int, j)),
        decreases hi - k,
    {
        acc = acc + s[k].0 as i64;
        assert(acc == weight_sum(t, lo as int, k + 1));
        if !fits(acc) {
            assert(!fits_i32(weight_sum(t, lo as int, k + 1)));
            return None;
        }
        k = k + 1;
    }
    Some(acc)
}

/// The share of one slot, if it can be computed in `i32`.
fn share_of(w: i64, l: i64) -> (r: Option<i64>)
    requires
        fits_i32(w as int),
        fits_i32(l as int),
    ensures
        r is Some <==> share_ok(w as int, l as int),
        r matches Some(v) ==> v == share(w as int, l as int),
{
    if w == 0 {
        return Some(0);
    }
    let q = div_trunc(l, w);
    if !fits(q) {
        return None;
    }
    proof {
        lemma_mul_small(w as int, q as int);
    }
    let m = l - w * q;
    assert(m == tmod(l as int, w as int));
    let v = q + min64(m, 1);
    if !fits(v) {
        return None;
    }
    Some(v)
}

proof fn lemma_tmod_bound(a: int, b: int)
    requires
        b != 0,
    ensures
        b > 0 ==> -b < tmod(a, b) < b,
        b < 0 ==> b < tmod(a, b) < -b,
{
    let aa = if a >= 0 { a } else { -a };
    let bb = if b >= 0 { b } else { -b };
    let q = aa / bb;
    assert(0 <= aa - bb * q < bb) by (nonlinear_arith)
        requires
            bb > 0,
            aa >= 0,
            q == aa / bb,
    ;
    assert(tdiv(a, b) == if (a >= 0) == (b >= 0) { q } else { -q });
    if a >= 0 && b > 0 {
        assert(tmod(a, b) == aa - bb * q);
    } else if a >= 0 && b < 0 {
        assert(b * (-q) == bb * q) by (nonlinear_arith)
            requires
                bb == -b,
        ;
    } else if a < 0 && b > 0 {
        assert(b * (-q) == -(bb * q)) by (nonlinear_arith)
            requires
                bb == b,
        ;
    } else {
        assert(b * q == -(bb * q)) by (nonlinear_arith)
            requires
                bb == -b,
        ;
    }
}

/// The largest share among slots `lo .. hi`, if every share can be computed.
fn max_share_of(s: &Vec<(i32, i32)>, lo: usize, hi: usize) -> (r: Option<i64>)
    requires
        lo <= hi <= s.len(),
    ensures
        r is Some <==> shares_ok(ints(s@), lo as int, hi as int),
        r matches Some(v) ==> v == max_share(ints(s@), lo as int, hi as int) && fits_i32(v as int),
{
    let ghost t = ints(s@);
    if lo >= hi {
        return Some(0);
    }
    let mut acc = match share_of(s[lo].0 as i64, s[lo].1 as i64) {
        None => {
            assert(!share_ok(t[lo as int].0, t[lo as int].1));
            return None;
        },
        Some(v) => v,
    };
    let mut k = lo + 1;
    while k < hi
        invariant
            lo < k <= hi <= s.len(),
            t == ints(s@),
            acc == max_share(t, lo as int, k as int),
            fits_i32(acc as int),
            shares_ok(t, lo as int, k as int),
        decreases hi - k,
    {
        let v = match share_of(s[k].0 as i64, s[k].1 as i64) {
            None => {
                assert(!share_ok(t[k as int].0, t[k as int].1));
                return None;
            },
            Some(v) => v,
        };
        acc = max64(acc, v);
        k = k + 1;
    }
    Some(acc)
}

/// Evaluates the window `start ..= d` with `p` units held back. `None` when
/// the `i32` evaluation would fail; otherwise whether the window fits,
/// together with its load, its length and the partial load of its first slot.
fn eval_window(s: &Vec<(i32, i32)>, d: usize, dl: i32, start: usize, p: i32) -> (r: Option<
    (bool, i64, i64, i64),
>)
    requires
        start <= d < s.len(),
        0 <= p < s[start as int].0,
    ensures
        r is Some <==> window_ok(ints(s@), d as int, dl as int, start as int, p as int),
        r matches Some(v) ==> {
            &&& v.0 == window_fits(ints(s@), d as int, dl as int, start as int, p as int)
            &&& v.1 == window_load(ints(s@), d as int, dl as int, start as int, p as int)
            &&& v.2 == window_len(ints(s@), d as int, start as int, p as int)
            &&& v.3 == partial_load(s[start as int].0 as int, s[start as int].1 as int, p as int)
        },
{
    let ghost t = ints(s@);
    let w = s[start].0 as i64;
    let l = s[start].1 as i64;
    let p = p as i64;
    let dl = dl as i64;
    let tq = div_trunc(l, w);
    proof {
        lemma_mul_small(w as int, tq as int);
        lemma_mul_small((w - p) as int, tq as int);
    }
    let tm = l - w * tq;
    assert(tm == tmod(l as int, w as int));
    proof {
        lemma_tmod_bound(l as int, w as int);
    }
    let t1 = (w - p) * tq;
    if !fits(t1) {
        return None;
    }
    let pl = t1 + max64(tm - p, 0);
    if !fits(pl) {
        return None;
    }
    let a1 = dl + pl;
    if !fits(a1) {
        return None;
    }
    let ls = match sum_loads(s, start + 1, d + 1) {
        None => return None,
        Some(v) => v,
    };
    let load = a1 + ls;
    if !fits(load) {
        return None;
    }
    let wsum = match sum_weights(s, start, d + 1) {
        None => return None,
        Some(v) => v,
    };
    let len = wsum - p;
    if !fits(len) {
        return None;
    }
    let mx = match max_share_of(s, start + 1, d + 1) {
        None => return None,
        Some(v) => v,
    };
    let c2 = tq + max64(tm - p, 0);
    if !fits(c2) {
        return None;
    }
    if len == 0 {
        return None;
    }
    let q = div_trunc(load, len);
    if !fits(q) {
        return None;
    }
    Some((q >= max64(mx, c2), load, len, pl))
}

/// Levels the window `start ..= d`; `false` when the `i32` evaluation would
/// fail.
fn level_window_exec(
    s: &mut Vec<(i32, i32)>,
    d: usize,
    Ghost(dl): Ghost<int>,
    start: usize,
    p: i32,
    load: i64,
    len: i64,
    pl: i64,
) -> (ok: bool)
    requires
        start <= d < old(s).len(),
        0 <= p < old(s)[start as int].0,
        window_ok(ints(old(s)@), d as int, dl, start as int, p as int),
        load == window_load(ints(old(s)@), d as int, dl, start as int, p as int),
        len == window_len(ints(old(s)@), d as int, start as int, p as int),
        pl == partial_load(old(s)[start as int].0 as int, old(s)[start as int].1 as int, p as int),
    ensures
        final(s).len() == old(s).len(),
        ok <==> level_window(ints(old(s)@), d as int, dl, start as int, p as int) is Some,
        ok ==> level_window(ints(old(s)@), d as int, dl, start as int, p as int) == Some(
            ints(final(s)@),
        ),
        forall|i: int| 0 <= i < old(s).len() ==> (#[trigger] final(s)@[i]).0 == old(s)@[i].0,
{
    let ghost t = ints(s@);
    let w32 = s[start].0;
    let w = w32 as i64;
    let l = s[start].1 as i64;
    let p64 = p as i64;
    assert(t[start as int] == (w as int, l as int));
    let q = div_trunc(load, len);
    proof {
        lemma_mul_small(len as int, q as int);
        lemma_mul_small((w - p64) as int, q as int);
        lemma_tmod_bound(load as int, len as int);
    }
    let r = load - len * q;
    assert(r == tmod(load as int, len as int));
    let t1 = q * (w - p64);
    assert(t1 == tdiv(window_load(t, d as int, dl, start as int, p as int), window_len(t, d as int, start as int, p as int)) * (t[start as int].0 - p));
    if !fits(t1) {
        assert(t == ints(old(s)@));
        assert(level_window(t, d as int, dl, start as int, p as int) is None);
        return false;
    }
    let t2 = t1 - pl;
    if !fits(t2) {
        return false;
    }
    let nl = l + t2;
    if !fits(nl) {
        return false;
    }
    s.set(start, (w32, nl as i32));
    let ghost s1 = t.update(start as int, (w as int, l + t2));
    proof {
        lemma_ints_update(old(s)@, start as int, (w32, nl as i32));
    }
    assert(ints(s@) == s1);
    let ghost r_spec = tmod(window_load(t, d as int, dl, start as int, p as int), window_len(t, d as int, start as int, p as int));
    let ghost lw = level_window(t, d as int, dl, start as int, p as int);
    assert(t == ints(old(s)@));
    assert(r_spec == r);
    assert(lw == match scale_tail(s1, start + 1, d + 1, q as int) {
        None => None,
        Some(x) => spread(x, start as int, d + 1, r as int),
    });
    let mut i = start + 1;
    while i <= d
        invariant
            start + 1 <= i <= d + 1,
            d < s.len(),
            s.len() == old(s).len(),
            forall|j: int| 0 <= j < s.len() ==> (#[trigger] s@[j]).0 == old(s)@[j].0,
            fits_i32(q as int),
            t == ints(old(s)@),
            lw == level_window(t, d as int, dl, start as int, p as int),
            lw == match scale_tail(s1, start + 1, d + 1, q as int) {
                None => None,
                Some(x) => spread(x, start as int, d + 1, r as int),
            },
            scale_tail(s1, start + 1, d + 1, q as int) == scale_tail(
                ints(s@),
                i as int,
                d + 1,
                q as int,
            ),
        decreases d + 1 - i,
    {
        let wi = s[i].0;
        proof {
            lemma_mul_small(wi as int, q as int);
        }
        let v = wi as i64 * q;
        assert(ints(s@)[i as int].0 == wi as int);
        if !fits(v) {
            assert(scale_tail(ints(s@), i as int, d + 1, q as int) is None);
            assert(lw is None);
            return false;
        }
        proof {
            lemma_ints_update(s@, i as int, (wi, v as i32));
        }
        s.set(i, (wi, v as i32));
        i = i + 1;
    }
    let ghost s2 = ints(s@);
    assert(scale_tail(s1, start + 1, d + 1, q as int) == Some(s2));
    let end = d + 1;
    assert(lw == spread(s2, start as int, end as int, r as int));
    let mut e = r;
    let mut k = start;
    let mut stop = false;
    while k < end && !stop
        invariant
            start <= k <= end <= d + 1,
            d < s.len(),
            s.len() == old(s).len(),
            forall|j: int| 0 <= j < s.len() ==> (#[trigger] s@[j]).0 == old(s)@[j].0,
            -0x1_0000_0000 <= e <= 0x1_0000_0000,
            t == ints(old(s)@),
            lw == level_window(t, d as int, dl, start as int, p as int),
            lw == spread(s2, start as int, end as int, r as int),
            stop ==> spread(s2, start as int, end as int, r as int) == Some(ints(s@)),
            !stop ==> spread(s2, start as int, end as int, r as int) == spread(
                ints(s@),
                k as int,
                end as int,
                e as int,
            ),
        decreases end - k, (if stop { 0int } else { 1int }),
    {
        let (wk, lk) = s[k];
        assert(ints(s@)[k as int] == (wk as int, lk as int));
        let m = min64(wk as i64, e);
        let a = lk as i64 + m;
        if !fits(a) {
            assert(spread(ints(s@), k as int, end as int, e as int) is None);
            assert(lw is None);
            return false;
        }
        let ne = e - m;
        if !fits(ne) {
            assert(spread(ints(s@), k as int, end as int, e as int) is None);
            assert(lw is None);
            return false;
        }
        proof {
            lemma_ints_update(s@, k as int, (wk, a as i32));
        }
        s.set(k, (wk, a as i32));
        e = ne;
        if e == 0 {
            stop = true;
        } else {
            k = k + 1;
        }
    }
    true
}

/// Spreads each day's load over the days before it, in the plan's `i32`
/// arithmetic. Returns `false` exactly when that arithmetic would overflow
/// or divide by zero; the weights are kept either way, and on `false` the
/// loads are left part-way.
pub(crate) fn distribute(work: &mut Vec<(i32, i32)>) -> (ok: bool)
    ensures
        final(work).len() == old(work).len(),
        forall|i: int| 0 <= i < old(work).len() ==> (#[trigger] final(work)@[i]).0 == old(work)@[i].0,
        ok <==> distributed(ints(old(work)@)) is Some,
        ok ==> distributed(ints(old(work)@)) == Some(ints(final(work)@)),
{
    let n = work.len();
    let mut day: usize = 0;
    while day < n
        invariant
            work.len() == n,
            n == old(work).len(),
            forall|j: int| 0 <= j < n ==> (#[trigger] work@[j]).0 == old(work)@[j].0,
            day <= n,
            distributed(ints(old(work)@)) == distribute_from(ints(work@), day as int),
        decreases n - day,
    {
        let ghost before = ints(work@);
        assert(before.len() == n);
        let (wd, dl) = work[day];
        assert(before[day as int] == (wd as int, dl as int));
        proof {
            lemma_ints_update(work@, day as int, (wd, 0i32));
        }
        work.set(day, (wd, 0));
        let ghost s0 = ints(work@);
        assert(s0 == before.update(day as int, (before[day as int].0, 0)));
        assert(day_step(before, day as int) == search(s0, day as int, dl as int, 0, 0));
        let mut start: usize = 0;
        let mut leveled = false;
        while start <= day && !leveled
            invariant
                work.len() == n,
                n == old(work).len(),
                forall|j: int| 0 <= j < n ==> (#[trigger] work@[j]).0 == old(work)@[j].0,
                day < n,
                start <= day + 1,
                distributed(ints(old(work)@)) == distribute_from(before, day as int),
                before.len() == n,
                day_step(before, day as int) == search(s0, day as int, dl as int, 0, 0),
                !leveled ==> ints(work@) == s0,
                !leveled ==> search(s0, day as int, dl as int, 0, 0) == search(
                    s0,
                    day as int,
                    dl as int,
                    start as int,
                    0,
                ),
                leveled ==> search(s0, day as int, dl as int, 0, 0) == Some(ints(work@)),
            decreases day + 1 - start, (if leveled { 0int } else { 1int }),
        {
            let ws = work[start].0;
            if ws > 0 {
                let mut p: i32 = 0;
                while p < ws && !leveled
                    invariant
                        work.len() == n,
                        n == old(work).len(),
                        forall|j: int| 0 <= j < n ==> (#[trigger] work@[j]).0 == old(work)@[j].0,
                        start <= day < n,
                        distributed(ints(old(work)@)) == distribute_from(before, day as int),
                        before.len() == n,
                        day_step(before, day as int) == search(s0, day as int, dl as int, 0, 0),
                        0 <= p <= ws,
                        !leveled ==> ws == work[start as int].0,
                        !leveled ==> ints(work@) == s0,
                        !leveled ==> search(s0, day as int, dl as int, 0, 0) == search(
                            s0,
                            day as int,
                            dl as int,
                            start as int,
                            p as int,
                        ),
                        leveled ==> search(s0, day as int, dl as int, 0, 0) == Some(
                            ints(work@),
                        ),
                    decreases ws - p, (if leveled { 0int } else { 1int }),
                {
                    match eval_window(work, day, dl, start, p) {
                        None => {
                            assert(s0[start as int].0 == ws);
                            assert(search(s0, day as int, dl as int, start as int, p as int) is None);
                            assert(day_step(before, day as int) == search(s0, day as int, dl as int, 0, 0));
                            assert(distribute_from(before, day as int) is None);
                            return false;
                        },
                        Some((fit, load, len, pl)) => {
                            if fit {
                                let ok = level_window_exec(
                                    work,
                                    day,
                                    Ghost(dl as int),
                                    start,
                                    p,
                                    load,
                                    len,
                                    pl,
                                );
                                if !ok {
                                    assert(s0[start as int].0 == ws);
                                    assert(search(s0, day as int, dl as int, start as int, p as int) is None);
                                    assert(day_step(before, day as int) == search(s0, day as int, dl as int, 0, 0));
                                    assert(distribute_from(before, day as int) is None);
                                    return false;
                                }
                                leveled = true;
                            } else {
                                p = p + 1;
                            }
                        },
                    }
                }
            }
            if !leveled {
                start = start + 1;
            }
        }
        proof {
            lemma_search_len(s0, day as int, dl as int, 0, 0);
        }
        day = day + 1;
    }
    true
}

// ---------------------------------------------------------------------------
// Laws
// ---------------------------------------------------------------------------

/// `t` has the slots of `s`, each with the same weight.
pub open spec fn same_weights(s: Seq<(int, int)>, t: Seq<(int, int)>) -> bool {
    t.len() == s.len() && forall|i: int| 0 <= i < s.len() ==> #[trigger] t[i].0 == s[i].0
}

/// The total load of a plan.
pub open spec fn total_load(s: Seq<(int, int)>) -> int {
    load_sum(s, 0, s.len() as int)
}

/// No slot has a negative weight.
pub open spec fn weights_nonneg(s: Seq<(int, int)>) -> bool {
    forall|i: int| 0 <= i < s.len() ==> #[trigger] s[i].0 >= 0
}

/// Every slot that carries load has a slot of positive weight at or before
/// it: there is a day to do its work on.
pub open spec fn loads_have_time(s: Seq<(int, int)>) -> bool {
    forall|j: int| 0 <= j < s.len() ==> #[trigger] s[j].1 == 0 || weight_sum(s, 0, j + 1) > 0
}

/// Every slot of weight zero among slots `0 ..= d` carries no load.
pub open spec fn idle_empty(s: Seq<(int, int)>, d: int) -> bool {
    forall|j: int| 0 <= j <= d && j < s.len() && #[trigger] s[j].0 == 0 ==> s[j].1 == 0
}

/// No slot has a negative load.
pub open spec fn loads_nonneg(s: Seq<(int, int)>) -> bool {
    forall|i: int| 0 <= i < s.len() ==> #[trigger] s[i].1 >= 0
}

proof fn lemma_load_sum_update(s: Seq<(int, int)>, i: int, v: (int, int), lo: int, hi: int)
    requires
        0 <= i < s.len(),
        0 <= lo,
        hi <= s.len(),
    ensures
        load_sum(s.update(i, v), lo, hi) == load_sum(s, lo, hi) + (if lo <= i < hi {
            v.1 - s[i].1
        } else {
            0
        }),
    decreases hi - lo,
{
    if hi > lo {
        lemma_load_sum_update(s, i, v, lo, hi - 1);
    }
}

proof fn lemma_weight_sum_same(s: Seq<(int, int)>, t: Seq<(int, int)>, lo: int, hi: int)
    requires
        same_weights(s, t),
        0 <= lo,
        hi <= s.len(),
    ensures
        weight_sum(t, lo, hi) == weight_sum(s, lo, hi),
    decreases hi - lo,
{
    if hi > lo {
        lemma_weight_sum_same(s, t, lo, hi - 1);
    }
}

pub(crate) proof fn lemma_load_sum_front(s: Seq<(int, int)>, lo: int, hi: int)
    requires
        lo < hi,
    ensures
        load_sum(s, lo, hi) == s[lo].1 + load_sum(s, lo + 1, hi),
    decreases hi - lo,
{
    if hi > lo + 1 {
        lemma_load_sum_front(s, lo, hi - 1);
    } else {
        assert(load_sum(s, lo, lo) == 0);
        assert(load_sum(s, lo + 1, hi) == 0);
    }
}

proof fn lemma_weight_sum_front(s: Seq<(int, int)>, lo: int, hi: int)
    requires
        lo < hi,
    ensures
        weight_sum(s, lo, hi) == s[lo].0 + weight_sum(s, lo + 1, hi),
    decreases hi - lo,
{
    if hi > lo + 1 {
        lemma_weight_sum_front(s, lo, hi - 1);
    } else {
        assert(weight_sum(s, lo, lo) == 0);
        assert(weight_sum(s, lo + 1, hi) == 0);
    }
}

pub(crate) proof fn lemma_load_sum_nonneg(s: Seq<(int, int)>, lo: int, hi: int)
    requires
        loads_nonneg(s),
        0 <= lo,
        hi <= s.len(),
    ensures
        load_sum(s, lo, hi) >= 0,
    decreases hi - lo,
{
    if hi > lo {
        lemma_load_sum_nonneg(s, lo, hi - 1);
    }
}

proof fn lemma_weight_sum_nonneg(s: Seq<(int, int)>, lo: int, hi: int)
    requires
        weights_nonneg(s),
        0 <= lo,
        hi <= s.len(),
    ensures
        weight_sum(s, lo, hi) >= 0,
    decreases hi - lo,
{
    if hi > lo {
        lemma_weight_sum_nonneg(s, lo, hi - 1);
    }
}

proof fn lemma_spread_weights(s: Seq<(int, int)>, i: int, end: int, e: int)
    requires
        0 <= i,
        end <= s.len(),
    ensures
        spread(s, i, end, e) matches Some(t) ==> same_weights(s, t),
    decreases end - i,
{
    if i < end {
        let m = min(s[i].0, e);
        let s2 = s.update(i, (s[i].0, s[i].1 + m));
        lemma_spread_weights(s2, i + 1, end, e - m);
    }
}

proof fn lemma_scale_tail_weights(s: Seq<(int, int)>, i: int, end: int, q: int)
    requires
        0 <= i,
        end <= s.len(),
    ensures
        scale_tail(s, i, end, q) matches Some(t) ==> same_weights(s, t),
    decreases end - i,
{
    if i < end && fits_i32(s[i].0 * q) {
        lemma_scale_tail_weights(s.update(i, (s[i].0, s[i].0 * q)), i + 1, end, q);
    }
}

proof fn lemma_level_weights(s: Seq<(int, int)>, d: int, dl: int, start: int, p: int)
    requires
        0 <= start <= d < s.len(),
    ensures
        level_window(s, d, dl, start, p) matches Some(t) ==> same_weights(s, t),
{
    let w = s[start].0;
    let l = s[start].1;
    let load = window_load(s, d, dl, start, p);
    let len = window_len(s, d, start, p);
    let q = tdiv(load, len);
    let r = tmod(load, len);
    let pl = partial_load(w, l, p);
    let s1 = s.update(start, (w, l + (q * (w - p) - pl)));
    lemma_scale_tail_weights(s1, start + 1, d + 1, q);
    match scale_tail(s1, start + 1, d + 1, q) {
        None => {},
        Some(s2) => {
            lemma_scale_tail_len(s1, start + 1, d + 1, q);
            lemma_spread_weights(s2, start, d + 1, r);
        },
    }
}

proof fn lemma_search_weights(s: Seq<(int, int)>, d: int, dl: int, start: int, p: int)
    ensures
        search(s, d, dl, start, p) matches Some(t) ==> same_weights(s, t),
    decreases d + 1 - start, s[start].0 - p,
{
    if start > d || start < 0 || d >= s.len() {
    } else if p >= s[start].0 {
        lemma_search_weights(s, d, dl, start + 1, 0);
    } else if p < 0 || !window_ok(s, d, dl, start, p) {
    } else if window_fits(s, d, dl, start, p) {
        lemma_level_weights(s, d, dl, start, p);
    } else {
        lemma_search_weights(s, d, dl, start, p + 1);
    }
}

proof fn lemma_distribute_from_weights(s: Seq<(int, int)>, d: int)
    ensures
        distribute_from(s, d) matches Some(t) ==> same_weights(s, t),
    decreases s.len() - d,
{
    if d >= s.len() || d < 0 {
    } else {
        let s0 = s.update(d, (s[d].0, 0));
        lemma_search_weights(s0, d, s[d].1, 0, 0);
        match day_step(s, d) {
            None => {},
            Some(s2) => {
                if s2.len() == s.len() {
                    lemma_distribute_from_weights(s2, d + 1);
                }
            },
        }
    }
}

/// Distributing a plan leaves every weight as it was: the result has the
/// plan's slots, each with its weight.
pub proof fn distribute_keeps_weights(s: Seq<(int, int)>)
    ensures
        distributed(s) matches Some(t) ==> same_weights(s, t),
{
    lemma_distribute_from_weights(s, 0);
}

proof fn lemma_spread_sum(s: Seq<(int, int)>, i: int, end: int, e: int)
    requires
        0 <= i,
        end <= s.len(),
        0 <= e <= weight_sum(s, i, end),
        weights_nonneg(s),
        loads_nonneg(s),
    ensures
        spread(s, i, end, e) matches Some(t) ==> total_load(t) == total_load(s) + e && loads_nonneg(t)
            && weights_nonneg(t),
    decreases end - i,
{
    if i >= end {
        assert(weight_sum(s, i, end) == 0);
    } else {
        let m = min(s[i].0, e);
        let s2 = s.update(i, (s[i].0, s[i].1 + m));
        if fits_i32(s[i].1 + m) && fits_i32(e - m) {
            lemma_load_sum_update(s, i, (s[i].0, s[i].1 + m), 0, s.len() as int);
            assert(loads_nonneg(s2));
            assert(weights_nonneg(s2));
            if e - m != 0 {
                lemma_weight_sum_front(s, i, end);
                assert(same_weights(s, s2));
                lemma_weight_sum_same(s, s2, i + 1, end);
                lemma_spread_sum(s2, i + 1, end, e - m);
            }
        }
    }
}

proof fn lemma_scale_tail_sum(s: Seq<(int, int)>, i: int, end: int, q: int)
    requires
        0 <= i <= end,
        end <= s.len(),
        q >= 0,
        weights_nonneg(s),
        loads_nonneg(s),
    ensures
        scale_tail(s, i, end, q) matches Some(t) ==> total_load(t) == total_load(s) - load_sum(s, i, end) + q
            * weight_sum(s, i, end) && loads_nonneg(t) && weights_nonneg(t),
    decreases end - i,
{
    if i >= end {
        assert(load_sum(s, i, end) == 0);
        assert(weight_sum(s, i, end) == 0);
    } else if fits_i32(s[i].0 * q) {
        let s2 = s.update(i, (s[i].0, s[i].0 * q));
        lemma_load_sum_update(s, i, (s[i].0, s[i].0 * q), 0, s.len() as int);
        lemma_load_sum_update(s, i, (s[i].0, s[i].0 * q), i + 1, end);
        assert(same_weights(s, s2));
        lemma_weight_sum_same(s, s2, i + 1, end);
        assert(s[i].0 * q >= 0) by (nonlinear_arith)
            requires
                s[i].0 >= 0,
                q >= 0,
        ;
        assert(loads_nonneg(s2));
        assert(weights_nonneg(s2));
        lemma_scale_tail_sum(s2, i + 1, end, q);
        lemma_load_sum_front(s, i, end);
        lemma_weight_sum_front(s, i, end);
        let wi = s[i].0;
        let rest = weight_sum(s, i + 1, end);
        assert(q * (wi + rest) == wi * q + q * rest) by (nonlinear_arith);
    }
}

proof fn lemma_tdiv_nonneg(a: int, b: int)
    requires
        a >= 0,
        b > 0,
    ensures
        tdiv(a, b) == a / b,
        0 <= tdiv(a, b),
        0 <= tmod(a, b) < b,
{
    assert(0 <= a / b) by (nonlinear_arith)
        requires
            a >= 0,
            b > 0,
    ;
    assert(0 <= a - b * (a / b) < b) by (nonlinear_arith)
        requires
            a >= 0,
            b > 0,
    ;
}

proof fn lemma_level_sum(s: Seq<(int, int)>, d: int, dl: int, start: int, p: int)
    requires
        0 <= start <= d < s.len(),
        0 <= p < s[start].0,
        dl >= 0,
        weights_nonneg(s),
        loads_nonneg(s),
        window_ok(s, d, dl, start, p),
        window_fits(s, d, dl, start, p),
    ensures
        level_window(s, d, dl, start, p) matches Some(t) ==> total_load(t) == total_load(s) + dl
            && loads_nonneg(t) && weights_nonneg(t),
{
    let w = s[start].0;
    let l = s[start].1;
    let load = window_load(s, d, dl, start, p);
    let len = window_len(s, d, start, p);
    let q = tdiv(load, len);
    let r = tmod(load, len);
    let pl = partial_load(w, l, p);
    lemma_tdiv_nonneg(l, w);
    let c2 = tdiv(l, w) + max(tmod(l, w) - p, 0);
    assert(pl >= 0) by (nonlinear_arith)
        requires
            pl == (w - p) * tdiv(l, w) + max(tmod(l, w) - p, 0),
            w - p >= 1,
            tdiv(l, w) >= 0,
    ;
    lemma_load_sum_nonneg(s, start + 1, d + 1);
    lemma_weight_sum_front(s, start, d + 1);
    lemma_weight_sum_nonneg(s, start + 1, d + 1);
    assert(load >= 0);
    assert(len >= 1);
    lemma_tdiv_nonneg(load, len);
    assert(q >= c2);
    assert(q * (w - p) >= pl) by (nonlinear_arith)
        requires
            q >= c2,
            c2 == tdiv(l, w) + max(tmod(l, w) - p, 0),
            pl == (w - p) * tdiv(l, w) + max(tmod(l, w) - p, 0),
            w - p >= 1,
            tdiv(l, w) >= 0,
    ;
    if fits_i32(q * (w - p)) && fits_i32(q * (w - p) - pl) && fits_i32(l + (q * (w - p) - pl)) {
        let s1 = s.update(start, (w, l + (q * (w - p) - pl)));
        lemma_load_sum_update(s, start, (w, l + (q * (w - p) - pl)), 0, s.len() as int);
        lemma_load_sum_update(s, start, (w, l + (q * (w - p) - pl)), start + 1, d + 1);
        assert(same_weights(s, s1));
        lemma_weight_sum_same(s, s1, start + 1, d + 1);
        lemma_weight_sum_same(s, s1, start, d + 1);
        assert(loads_nonneg(s1));
        assert(weights_nonneg(s1));
        lemma_scale_tail_sum(s1, start + 1, d + 1, q);
        lemma_scale_tail_weights(s1, start + 1, d + 1, q);
        match scale_tail(s1, start + 1, d + 1, q) {
            None => {},
            Some(s2) => {
                lemma_scale_tail_len(s1, start + 1, d + 1, q);
                lemma_weight_sum_same(s1, s2, start, d + 1);
                assert(weight_sum(s, start, d + 1) >= len);
                lemma_spread_sum(s2, start, d + 1, r);
                let tw = weight_sum(s, start + 1, d + 1);
                assert(q * (w - p) + q * tw == q * len) by (nonlinear_arith)
                    requires
                        len == w + tw - p,
                ;
                assert(load == len * q + r);
            },
        }
    }
}

proof fn lemma_zero_weights(s: Seq<(int, int)>, lo: int, hi: int)
    requires
        0 <= lo,
        hi <= s.len(),
        weights_nonneg(s),
        weight_sum(s, lo, hi) == 0,
        forall|j: int| lo <= j < hi && #[trigger] s[j].0 == 0 ==> s[j].1 == 0,
    ensures
        forall|j: int| lo <= j < hi ==> #[trigger] s[j].0 == 0,
        load_sum(s, lo, hi) == 0,
        max_share(s, lo, hi) == 0,
    decreases hi - lo,
{
    if hi > lo {
        lemma_weight_sum_nonneg(s, lo, hi - 1);
        assert(s[hi - 1].0 == 0);
        lemma_zero_weights(s, lo, hi - 1);
    }
}

/// The last weighted slot of a window whose later slots are idle levels at
/// the latest once all but one unit of its weight is held back.
proof fn lemma_last_weighted_fits(s: Seq<(int, int)>, d: int, dl: int, start: int)
    requires
        0 <= start <= d < s.len(),
        s[start].0 >= 1,
        dl >= 0,
        weights_nonneg(s),
        loads_nonneg(s),
        weight_sum(s, start + 1, d + 1) == 0,
        forall|j: int| start < j <= d && #[trigger] s[j].0 == 0 ==> s[j].1 == 0,
    ensures
        window_fits(s, d, dl, start, s[start].0 - 1),
{
    let w = s[start].0;
    let l = s[start].1;
    let p = w - 1;
    lemma_zero_weights(s, start + 1, d + 1);
    lemma_weight_sum_front(s, start, d + 1);
    lemma_tdiv_nonneg(l, w);
    assert(partial_load(w, l, p) == tdiv(l, w)) by {
        assert(max(tmod(l, w) - p, 0) == 0);
        assert((w - p) * tdiv(l, w) == tdiv(l, w)) by (nonlinear_arith)
            requires
                w - p == 1,
        ;
    }
    assert(window_len(s, d, start, p) == 1);
    let load = window_load(s, d, dl, start, p);
    assert(load == dl + tdiv(l, w));
    lemma_tdiv_nonneg(load, 1);
    assert(tdiv(load, 1) == load);
}

proof fn lemma_search_sum(s: Seq<(int, int)>, d: int, dl: int, start: int, p: int)
    requires
        0 <= start <= d < s.len(),
        p >= 0,
        s[d].1 == 0,
        dl >= 0,
        weights_nonneg(s),
        loads_nonneg(s),
        idle_empty(s, d),
        dl == 0 || p < s[start].0 || weight_sum(s, start + 1, d + 1) > 0,
    ensures
        search(s, d, dl, start, p) matches Some(t) ==> total_load(t) == total_load(s) + dl && loads_nonneg(t)
            && weights_nonneg(t),
    decreases d + 1 - start, s[start].0 - p,
{
    if p >= s[start].0 {
        if start < d {
            lemma_weight_sum_front(s, start + 1, d + 1);
            lemma_weight_sum_nonneg(s, start + 2, d + 1);
            lemma_search_sum(s, d, dl, start + 1, 0);
        } else {
            assert(weight_sum(s, d + 1, d + 1) == 0);
        }
    } else if !window_ok(s, d, dl, start, p) {
    } else if window_fits(s, d, dl, start, p) {
        lemma_level_sum(s, d, dl, start, p);
    } else {
        lemma_weight_sum_nonneg(s, start + 1, d + 1);
        if p + 1 >= s[start].0 && dl != 0 && weight_sum(s, start + 1, d + 1) == 0 {
            lemma_last_weighted_fits(s, d, dl, start);
            assert(p == s[start].0 - 1);
        }
        lemma_search_sum(s, d, dl, start, p + 1);
    }
}

pub(crate) proof fn lemma_weight_sum_first(s: Seq<(int, int)>, hi: int)
    requires
        0 < hi <= s.len(),
        weights_nonneg(s),
    ensures
        weight_sum(s, 0, hi) >= s[0].0,
{
    lemma_weight_sum_front(s, 0, hi);
    lemma_weight_sum_nonneg(s, 1, hi);
}

proof fn lemma_distribute_from_sum(s: Seq<(int, int)>, d: int)
    requires
        0 <= d,
        weights_nonneg(s),
        loads_nonneg(s),
        idle_empty(s, d - 1),
        forall|j: int| d <= j < s.len() ==> #[trigger] s[j].1 == 0 || weight_sum(s, 0, j + 1) > 0,
    ensures
        distribute_from(s, d) matches Some(t) ==> total_load(t) == total_load(s) && loads_nonneg(t)
            && same_weights(s, t),
    decreases s.len() - d,
{
    lemma_distribute_from_weights(s, d);
    if d < s.len() {
        let dl = s[d].1;
        let s0 = s.update(d, (s[d].0, 0));
        lemma_load_sum_update(s, d, (s[d].0, 0), 0, s.len() as int);
        assert(weights_nonneg(s0));
        assert(loads_nonneg(s0));
        assert(idle_empty(s0, d));
        assert(same_weights(s, s0));
        lemma_weight_sum_same(s, s0, 0, d + 1);
        lemma_weight_sum_same(s, s0, 1, d + 1);
        lemma_weight_sum_front(s0, 0, d + 1);
        assert(dl == 0 || weight_sum(s, 0, d + 1) > 0);
        lemma_search_sum(s0, d, dl, 0, 0);
        lemma_search_weights(s0, d, dl, 0, 0);
        lemma_search_grows(s0, d, dl, 0, 0);
        match day_step(s, d) {
            None => {},
            Some(s2) => {
                if s2.len() == s.len() {
                    assert(same_weights(s, s2));
                    assert forall|j: int| d + 1 <= j < s2.len() implies #[trigger] s2[j].1 == 0 || weight_sum(
                        s2,
                        0,
                        j + 1,
                    ) > 0 by {
                        assert(s2[j] == s0[j]);
                        lemma_weight_sum_same(s, s2, 0, j + 1);
                    }
                    lemma_distribute_from_sum(s2, d + 1);
                }
            },
        }
    }
}

/// Distributing a plan whose weights and loads are none negative, and whose
/// every loaded day has a day of positive weight at or before it, moves
/// load between days without losing or adding any: the total load stays
/// the same and no day ends with a negative load.
pub proof fn distribute_keeps_total(s: Seq<(int, int)>)
    requires
        weights_nonneg(s),
        loads_nonneg(s),
        loads_have_time(s),
    ensures
        distributed(s) matches Some(t) ==> total_load(t) == total_load(s) && loads_nonneg(t),
{
    lemma_distribute_from_sum(s, 0);
}


// ---------------------------------------------------------------------------
// Load is only ever moved earlier
// ---------------------------------------------------------------------------

/// Every slot of `t` up to `hi` has at least the load of the same slot of
/// `s`, and every slot from `hi` on is unchanged.
pub open spec fn grows_below(s: Seq<(int, int)>, t: Seq<(int, int)>, hi: int) -> bool {
    &&& t.len() == s.len()
    &&& forall|j: int| 0 <= j < hi && j < s.len() ==> #[trigger] t[j].1 >= s[j].1
    &&& forall|j: int| hi <= j < s.len() ==> #[trigger] t[j] == s[j]
}

/// The load planned on days `0 ..= k` covers the load due by the end of day
/// `k` (slots `0 ..= k` of the plan before distributing), for every day `k`.
pub open spec fn on_time(s: Seq<(int, int)>, t: Seq<(int, int)>) -> bool {
    forall|k: int| 0 <= k < s.len() ==> #[trigger] load_sum(t, 0, k + 1) >= load_sum(s, 0, k + 1)
}

pub(crate) proof fn lemma_load_sum_split(s: Seq<(int, int)>, lo: int, m: int, hi: int)
    requires
        lo <= m <= hi,
    ensures
        load_sum(s, lo, hi) == load_sum(s, lo, m) + load_sum(s, m, hi),
    decreases hi - m,
{
    if hi > m {
        lemma_load_sum_split(s, lo, m, hi - 1);
    }
}

proof fn lemma_load_sum_le(s: Seq<(int, int)>, t: Seq<(int, int)>, lo: int, hi: int)
    requires
        forall|j: int| lo <= j < hi ==> #[trigger] t[j].1 >= s[j].1,
    ensures
        load_sum(t, lo, hi) >= load_sum(s, lo, hi),
    decreases hi - lo,
{
    if hi > lo {
        lemma_load_sum_le(s, t, lo, hi - 1);
    }
}

proof fn lemma_load_sum_eq(s: Seq<(int, int)>, t: Seq<(int, int)>, lo: int, hi: int)
    requires
        forall|j: int| lo <= j < hi ==> #[trigger] t[j].1 == s[j].1,
    ensures
        load_sum(t, lo, hi) == load_sum(s, lo, hi),
    decreases hi - lo,
{
    if hi > lo {
        lemma_load_sum_eq(s, t, lo, hi - 1);
    }
}

proof fn lemma_spread_grows(s: Seq<(int, int)>, i: int, end: int, e: int)
    requires
        0 <= i,
        end <= s.len(),
        e >= 0,
        forall|j: int| 0 <= j < s.len() ==> #[trigger] s[j].0 >= 0,
    ensures
        spread(s, i, end, e) matches Some(t) ==> grows_below(s, t, end) && (forall|j: int|
            0 <= j < s.len() && #[trigger] s[j].0 == 0 ==> t[j].1 == s[j].1),
    decreases end - i,
{
    if i < end {
        let m = min(s[i].0, e);
        let s2 = s.update(i, (s[i].0, s[i].1 + m));
        if fits_i32(s[i].1 + m) && fits_i32(e - m) && e - m != 0 {
            lemma_spread_grows(s2, i + 1, end, e - m);
        }
    }
}

proof fn lemma_scale_tail_keeps(s: Seq<(int, int)>, i: int, end: int, q: int)
    requires
        0 <= i,
        end <= s.len(),
    ensures
        scale_tail(s, i, end, q) matches Some(t) ==> {
            &&& t.len() == s.len()
            &&& forall|j: int| 0 <= j < s.len() && (j < i || j >= end) ==> #[trigger] t[j] == s[j]
            &&& forall|j: int| i <= j < end ==> #[trigger] t[j].1 == s[j].0 * q
        },
    decreases end - i,
{
    if i < end && fits_i32(s[i].0 * q) {
        let s2 = s.update(i, (s[i].0, s[i].0 * q));
        lemma_scale_tail_keeps(s2, i + 1, end, q);
    }
}

proof fn lemma_max_share_bound(s: Seq<(int, int)>, lo: int, hi: int, j: int)
    requires
        lo <= j < hi,
    ensures
        max_share(s, lo, hi) >= share(s[j].0, s[j].1),
    decreases hi - lo,
{
    if hi > lo + 1 && j < hi - 1 {
        lemma_max_share_bound(s, lo, hi - 1, j);
    }
}

proof fn lemma_share_covers(w: int, l: int, q: int)
    requires
        w >= 1,
        l >= 0,
        q >= share(w, l),
    ensures
        w * q >= l,
{
    lemma_tdiv_nonneg(l, w);
    let a = l / w;
    let b = l % w;
    assert(l == w * a + b) by (nonlinear_arith)
        requires
            w >= 1,
            a == l / w,
            b == l % w,
    ;
    assert(w * q >= w * share(w, l)) by (nonlinear_arith)
        requires
            w >= 1,
            q >= share(w, l),
    ;
    if b == 0 {
        assert(share(w, l) == a);
    } else {
        assert(share(w, l) == a + 1);
        assert(w * (a + 1) == w * a + w) by (nonlinear_arith);
    }
}

proof fn lemma_level_grows(s: Seq<(int, int)>, d: int, dl: int, start: int, p: int)
    requires
        0 <= start <= d < s.len(),
        0 <= p < s[start].0,
        dl >= 0,
        weights_nonneg(s),
        loads_nonneg(s),
        idle_empty(s, d),
        window_ok(s, d, dl, start, p),
        window_fits(s, d, dl, start, p),
    ensures
        level_window(s, d, dl, start, p) matches Some(t) ==> grows_below(s, t, d + 1) && idle_empty(t, d),
{
    let w = s[start].0;
    let l = s[start].1;
    let load = window_load(s, d, dl, start, p);
    let len = window_len(s, d, start, p);
    let q = tdiv(load, len);
    let r = tmod(load, len);
    let pl = partial_load(w, l, p);
    lemma_tdiv_nonneg(l, w);
    let c2 = tdiv(l, w) + max(tmod(l, w) - p, 0);
    assert(pl >= 0) by (nonlinear_arith)
        requires
            pl == (w - p) * tdiv(l, w) + max(tmod(l, w) - p, 0),
            w - p >= 1,
            tdiv(l, w) >= 0,
    ;
    lemma_load_sum_nonneg(s, start + 1, d + 1);
    lemma_weight_sum_front(s, start, d + 1);
    lemma_weight_sum_nonneg(s, start + 1, d + 1);
    lemma_tdiv_nonneg(load, len);
    assert(q * (w - p) >= pl) by (nonlinear_arith)
        requires
            q >= c2,
            c2 == tdiv(l, w) + max(tmod(l, w) - p, 0),
            pl == (w - p) * tdiv(l, w) + max(tmod(l, w) - p, 0),
            w - p >= 1,
            tdiv(l, w) >= 0,
    ;
    if fits_i32(q * (w - p)) && fits_i32(q * (w - p) - pl) && fits_i32(l + (q * (w - p) - pl)) {
        let s1 = s.update(start, (w, l + (q * (w - p) - pl)));
        lemma_scale_tail_keeps(s1, start + 1, d + 1, q);
        match scale_tail(s1, start + 1, d + 1, q) {
            None => {},
            Some(s2) => {
                assert forall|j: int| start < j <= d implies #[trigger] s2[j].1 >= s[j].1 by {
                    if s[j].0 >= 1 {
                        lemma_max_share_bound(s, start + 1, d + 1, j);
                        lemma_share_covers(s[j].0, s[j].1, q);
                    } else {
                        assert(s1[j] == s[j]);
                        assert(s[j].1 == 0);
                    }
                }
                lemma_scale_tail_weights(s1, start + 1, d + 1, q);
                assert forall|j: int| 0 <= j < s2.len() implies #[trigger] s2[j].0 >= 0 by {
                    assert(s2[j].0 == s1[j].0);
                }
                lemma_spread_grows(s2, start, d + 1, r);
                match spread(s2, start, d + 1, r) {
                    None => {},
                    Some(t) => {
                        assert forall|j: int| 0 <= j < d + 1 && j < s.len() implies #[trigger] t[j].1 >= s[j].1 by {
                            if j < start {
                                assert(s2[j] == s1[j]);
                            } else if j == start {
                                assert(s2[j] == s1[j]);
                            }
                        }
                        assert forall|j: int| 0 <= j <= d && j < t.len() && #[trigger] t[j].0 == 0 implies t[j].1 == 0 by {
                            lemma_spread_weights(s2, start, d + 1, r);
                            assert(t[j].0 == s2[j].0);
                            assert(s2[j].0 == s1[j].0);
                            assert(t[j].1 == s2[j].1);
                            if j < start {
                                assert(s2[j] == s1[j]);
                                assert(s1[j] == s[j]);
                            } else if j > start {
                                assert(s1[j].0 == s[j].0);
                                assert(s2[j].1 == 0 * q);
                            }
                        }
                        assert forall|j: int| d + 1 <= j < s.len() implies #[trigger] t[j] == s[j] by {
                            assert(t[j] == s2[j]);
                            assert(s2[j] == s1[j]);
                        }
                    },
                }
            },
        }
    }
}

proof fn lemma_search_grows(s: Seq<(int, int)>, d: int, dl: int, start: int, p: int)
    requires
        0 <= start <= d < s.len(),
        p >= 0,
        s[d].1 == 0,
        dl >= 0,
        weights_nonneg(s),
        loads_nonneg(s),
        idle_empty(s, d),
        dl == 0 || p < s[start].0 || weight_sum(s, start + 1, d + 1) > 0,
    ensures
        search(s, d, dl, start, p) matches Some(t) ==> grows_below(s, t, d + 1) && idle_empty(t, d),
    decreases d + 1 - start, s[start].0 - p,
{
    if p >= s[start].0 {
        if start < d {
            lemma_weight_sum_front(s, start + 1, d + 1);
            lemma_weight_sum_nonneg(s, start + 2, d + 1);
            lemma_search_grows(s, d, dl, start + 1, 0);
        }
    } else if !window_ok(s, d, dl, start, p) {
    } else if window_fits(s, d, dl, start, p) {
        lemma_level_grows(s, d, dl, start, p);
    } else {
        lemma_weight_sum_nonneg(s, start + 1, d + 1);
        if p + 1 >= s[start].0 && dl != 0 && weight_sum(s, start + 1, d + 1) == 0 {
            lemma_last_weighted_fits(s, d, dl, start);
            assert(p == s[start].0 - 1);
        }
        lemma_search_grows(s, d, dl, start, p + 1);
    }
}

proof fn lemma_distribute_from_on_time(o: Seq<(int, int)>, s: Seq<(int, int)>, d: int)
    requires
        0 <= d <= s.len(),
        s.len() == o.len(),
        weights_nonneg(s),
        loads_nonneg(s),
        idle_empty(s, d - 1),
        forall|j: int| d <= j < s.len() ==> #[trigger] s[j].1 == 0 || weight_sum(s, 0, j + 1) > 0,
        forall|j: int| d <= j < s.len() ==> #[trigger] s[j] == o[j],
        forall|k: int| 0 <= k < d ==> #[trigger] load_sum(s, 0, k + 1) >= load_sum(o, 0, k + 1),
    ensures
        distribute_from(s, d) matches Some(t) ==> on_time(o, t),
    decreases s.len() - d,
{
    if d >= s.len() {
        assert forall|k: int| 0 <= k < o.len() implies #[trigger] load_sum(s, 0, k + 1) >= load_sum(o, 0, k + 1) by {}
    } else {
        let dl = s[d].1;
        let s0 = s.update(d, (s[d].0, 0));
        lemma_load_sum_update(s, d, (s[d].0, 0), 0, s.len() as int);
        assert(weights_nonneg(s0));
        assert(loads_nonneg(s0));
        assert(idle_empty(s0, d));
        assert(same_weights(s, s0));
        lemma_weight_sum_same(s, s0, 0, d + 1);
        lemma_weight_sum_same(s, s0, 1, d + 1);
        lemma_weight_sum_front(s0, 0, d + 1);
        assert(dl == 0 || weight_sum(s, 0, d + 1) > 0);
        lemma_search_grows(s0, d, dl, 0, 0);
        lemma_search_sum(s0, d, dl, 0, 0);
        lemma_search_weights(s0, d, dl, 0, 0);
        match day_step(s, d) {
            None => {},
            Some(t) => {
                let n = s.len() as int;
                // the days before `d` only gained load
                assert forall|k: int| 0 <= k < d implies #[trigger] load_sum(t, 0, k + 1) >= load_sum(o, 0, k + 1) by {
                    assert forall|j: int| 0 <= j < k + 1 implies #[trigger] t[j].1 >= s[j].1 by {
                        assert(t[j].1 >= s0[j].1);
                    }
                    lemma_load_sum_le(s, t, 0, k + 1);
                }
                // day `d` carries everything due up to it
                lemma_load_sum_split(t, 0, d + 1, n);
                lemma_load_sum_split(s, 0, d + 1, n);
                assert forall|j: int| d + 1 <= j < n implies #[trigger] t[j].1 == s[j].1 by {
                    assert(t[j] == s0[j]);
                }
                lemma_load_sum_eq(s, t, d + 1, n);
                assert(load_sum(t, 0, d + 1) == load_sum(s, 0, d + 1));
                if d > 0 {
                    let k = d - 1;
                    assert(load_sum(s, 0, k + 1) >= load_sum(o, 0, k + 1));
                }
                assert(load_sum(s, 0, d + 1) == load_sum(s, 0, d) + s[d].1);
                assert(load_sum(o, 0, d + 1) == load_sum(o, 0, d) + o[d].1);
                assert forall|k: int| 0 <= k < d + 1 implies #[trigger] load_sum(t, 0, k + 1) >= load_sum(o, 0, k + 1) by {
                    if k < d {
                        assert(load_sum(t, 0, k + 1) >= load_sum(o, 0, k + 1));
                    }
                }
                assert forall|j: int| d + 1 <= j < t.len() implies #[trigger] t[j] == o[j] by {
                    assert(t[j] == s0[j]);
                }
                assert(weights_nonneg(t)) by {
                    assert forall|i: int| 0 <= i < t.len() implies #[trigger] t[i].0 >= 0 by {
                        assert(t[i].0 == s0[i].0);
                    }
                }
                assert(same_weights(s, t));
                assert forall|j: int| d + 1 <= j < t.len() implies #[trigger] t[j].1 == 0 || weight_sum(t, 0, j + 1)
                    > 0 by {
                    assert(t[j] == s0[j]);
                    lemma_weight_sum_same(s, t, 0, j + 1);
                }
                lemma_distribute_from_on_time(o, t, d + 1);
            },
        }
    }
}

/// Distributing a plan whose weights and loads are none negative, and whose
/// every loaded day has a day of positive weight at or before it, never
/// plans homework after it is due: for every day `k`, the load planned on
/// days `0 ..= k` is at least the load due by the end of day `k`.
pub proof fn distribute_on_time(s: Seq<(int, int)>)
    requires
        weights_nonneg(s),
        loads_nonneg(s),
        loads_have_time(s),
    ensures
        distributed(s) matches Some(t) ==> on_time(s, t),
{
    lemma_distribute_from_on_time(s, s, 0);
}

// ---------------------------------------------------------------------------
// When a plan has a distribution
// ---------------------------------------------------------------------------

/// The largest weight a day can have (the weights come from `i16`s).
pub const MAX_WEIGHT: i32 = 32767;

/// The largest total load the distribution is shown to handle.
pub const MAX_TOTAL: i32 = 32767;

/// A plan small enough that distributing it stays in `i32`: weights from
/// `0` to [`MAX_WEIGHT`], no negative load, a total load of at most
/// [`MAX_TOTAL`], and few enough days that all weights together fit `i32`.
pub open spec fn plan_in_range(s: Seq<(int, int)>) -> bool {
    &&& weights_nonneg(s)
    &&& forall|i: int| 0 <= i < s.len() ==> #[trigger] s[i].0 <= MAX_WEIGHT
    &&& loads_nonneg(s)
    &&& total_load(s) <= MAX_TOTAL
    &&& s.len() * MAX_WEIGHT <= i32::MAX
}

proof fn lemma_weight_sum_le(s: Seq<(int, int)>, lo: int, hi: int)
    requires
        0 <= lo <= hi <= s.len(),
        weights_nonneg(s),
        forall|i: int| 0 <= i < s.len() ==> #[trigger] s[i].0 <= MAX_WEIGHT,
    ensures
        0 <= weight_sum(s, lo, hi) <= (hi - lo) * MAX_WEIGHT,
    decreases hi - lo,
{
    if hi > lo {
        lemma_weight_sum_le(s, lo, hi - 1);
        assert((hi - 1 - lo) * MAX_WEIGHT + MAX_WEIGHT == (hi - lo) * MAX_WEIGHT) by (nonlinear_arith);
    }
}

pub(crate) proof fn lemma_load_sum_le_total(s: Seq<(int, int)>, lo: int, hi: int)
    requires
        0 <= lo <= hi <= s.len(),
        loads_nonneg(s),
    ensures
        0 <= load_sum(s, lo, hi) <= total_load(s),
{
    lemma_load_sum_split(s, 0, lo, s.len() as int);
    lemma_load_sum_split(s, lo, hi, s.len() as int);
    lemma_load_sum_nonneg(s, 0, lo);
    lemma_load_sum_nonneg(s, lo, hi);
    lemma_load_sum_nonneg(s, hi, s.len() as int);
}

proof fn lemma_div_parts(l: int, w: int, p: int)
    requires
        l >= 0,
        0 <= p < w,
    ensures
        0 <= (w - p) * tdiv(l, w) <= l,
        0 <= partial_load(w, l, p) <= l,
        0 <= tdiv(l, w) + max(tmod(l, w) - p, 0) <= l,
        0 <= tdiv(l, w) + min(tmod(l, w), 1) <= l + 1,
{
    lemma_tdiv_nonneg(l, w);
    let q = tdiv(l, w);
    let r = tmod(l, w);
    assert(l == w * q + r);
    assert(0 <= (w - p) * q <= w * q) by (nonlinear_arith)
        requires
            q >= 0,
            0 <= p < w,
    ;
    assert(q <= w * q) by (nonlinear_arith)
        requires
            q >= 0,
            w >= 1,
    ;
}

/// Every step of levelling a window stays in `i32` when the plan is in
/// range (with `dl` counted in its total).
proof fn lemma_window_in_range(s: Seq<(int, int)>, d: int, dl: int, start: int, p: int)
    requires
        0 <= start <= d < s.len(),
        0 <= p < s[start].0,
        dl >= 0,
        weights_nonneg(s),
        forall|i: int| 0 <= i < s.len() ==> #[trigger] s[i].0 <= MAX_WEIGHT,
        loads_nonneg(s),
        total_load(s) + dl <= MAX_TOTAL,
        s.len() * MAX_WEIGHT <= i32::MAX,
    ensures
        window_ok(s, d, dl, start, p),
        window_fits(s, d, dl, start, p) ==> level_window(s, d, dl, start, p) is Some,
{
    let w = s[start].0;
    let l = s[start].1;
    lemma_div_parts(l, w, p);
    lemma_load_sum_le_total(s, start, start + 1);
    assert(load_sum(s, start, start + 1) == l) by {
        assert(load_sum(s, start, start) == 0);
    }
    lemma_load_sum_front(s, start, d + 1);
    lemma_load_sum_le_total(s, start, d + 1);
    lemma_load_sum_nonneg(s, start + 1, d + 1);
    assert forall|k: int| start + 1 <= k <= d + 1 implies fits_i32(#[trigger] load_sum(s, start + 1, k)) by {
        lemma_load_sum_le_total(s, start + 1, k);
    }
    lemma_weight_sum_front(s, start, d + 1);
    lemma_weight_sum_le(s, start, d + 1);
    lemma_weight_sum_nonneg(s, start + 1, d + 1);
    assert((d + 1 - start) * MAX_WEIGHT <= s.len() * MAX_WEIGHT) by (nonlinear_arith)
        requires
            d + 1 - start <= s.len(),
    ;
    assert forall|k: int| start <= k <= d + 1 implies fits_i32(#[trigger] weight_sum(s, start, k)) by {
        lemma_weight_sum_le(s, start, k);
        assert((k - start) * MAX_WEIGHT <= s.len() * MAX_WEIGHT) by (nonlinear_arith)
            requires
                k - start <= s.len(),
                k - start >= 0,
        ;
    }
    assert forall|i: int| start + 1 <= i < d + 1 implies share_ok(#[trigger] s[i].0, s[i].1) by {
        if s[i].0 != 0 {
            lemma_div_parts(s[i].1, s[i].0, 0);
            lemma_load_sum_le_total(s, i, i + 1);
            assert(load_sum(s, i, i + 1) == s[i].1) by {
                assert(load_sum(s, i, i) == 0);
            }
        }
    }
    let load = window_load(s, d, dl, start, p);
    let len = window_len(s, d, start, p);
    assert(0 <= load <= MAX_TOTAL);
    assert(1 <= len <= i32::MAX);
    lemma_tdiv_nonneg(load, len);
    assert(tdiv(load, len) <= load) by (nonlinear_arith)
        requires
            tdiv(load, len) == load / len,
            load >= 0,
            len >= 1,
    ;
    assert(window_ok(s, d, dl, start, p));
    if window_fits(s, d, dl, start, p) {
        let q = tdiv(load, len);
        let r = tmod(load, len);
        let pl = partial_load(w, l, p);
        assert(0 <= q * (w - p) <= MAX_TOTAL * MAX_WEIGHT) by (nonlinear_arith)
            requires
                0 <= q <= MAX_TOTAL,
                1 <= w - p <= MAX_WEIGHT,
        ;
        let c2 = tdiv(l, w) + max(tmod(l, w) - p, 0);
        lemma_tdiv_nonneg(l, w);
        assert(q >= c2);
        assert(q * (w - p) >= pl) by (nonlinear_arith)
            requires
                q >= c2,
                c2 == tdiv(l, w) + max(tmod(l, w) - p, 0),
                pl == (w - p) * tdiv(l, w) + max(tmod(l, w) - p, 0),
                w - p >= 1,
                tdiv(l, w) >= 0,
        ;
        let s1 = s.update(start, (w, l + (q * (w - p) - pl)));
        assert forall|i: int| 0 <= i < s1.len() implies 0 <= #[trigger] s1[i].0 <= MAX_WEIGHT && 0 <= s1[i].1
            <= MAX_TOTAL + MAX_TOTAL * MAX_WEIGHT by {
            if i != start {
                lemma_load_sum_le_total(s, i, i + 1);
                assert(load_sum(s, i, i + 1) == s[i].1) by {
                    assert(load_sum(s, i, i) == 0);
                }
            }
        }
        lemma_scale_tail_some(s1, start + 1, d + 1, q);
        lemma_scale_tail_keeps(s1, start + 1, d + 1, q);
        let s2 = scale_tail(s1, start + 1, d + 1, q)->0;
        assert forall|i: int| #![trigger s2[i]] 0 <= i < s2.len() implies 0 <= s2[i].0 <= MAX_WEIGHT && 0 <= s2[i].1
            <= MAX_TOTAL + MAX_TOTAL * MAX_WEIGHT by {
            lemma_scale_tail_weights(s1, start + 1, d + 1, q);
            assert(s2[i].0 == s1[i].0);
            assert(0 <= s1[i].0 <= MAX_WEIGHT && 0 <= s1[i].1 <= MAX_TOTAL + MAX_TOTAL * MAX_WEIGHT);
            if start + 1 <= i < d + 1 {
                assert(s2[i].1 == s1[i].0 * q);
                assert(0 <= s1[i].0 * q <= MAX_WEIGHT * MAX_TOTAL) by (nonlinear_arith)
                    requires
                        0 <= s1[i].0 <= MAX_WEIGHT,
                        0 <= q <= MAX_TOTAL,
                ;
            } else {
                assert(s2[i] == s1[i]);
            }
        }
        lemma_tmod_bound(load, len);
        lemma_spread_some(s2, start, d + 1, r);
    }
}

proof fn lemma_scale_tail_some(s: Seq<(int, int)>, i: int, end: int, q: int)
    requires
        0 <= i,
        end <= s.len(),
        0 <= q <= MAX_TOTAL,
        forall|j: int| 0 <= j < s.len() ==> 0 <= #[trigger] s[j].0 <= MAX_WEIGHT,
    ensures
        scale_tail(s, i, end, q) is Some,
    decreases end - i,
{
    if i < end {
        assert(0 <= s[i].0 * q <= MAX_WEIGHT * MAX_TOTAL) by (nonlinear_arith)
            requires
                0 <= s[i].0 <= MAX_WEIGHT,
                0 <= q <= MAX_TOTAL,
        ;
        let s2 = s.update(i, (s[i].0, s[i].0 * q));
        lemma_scale_tail_some(s2, i + 1, end, q);
    }
}

proof fn lemma_spread_some(s: Seq<(int, int)>, i: int, end: int, e: int)
    requires
        0 <= i,
        end <= s.len(),
        0 <= e <= i32::MAX,
        forall|j: int| 0 <= j < s.len() ==> 0 <= #[trigger] s[j].0 <= MAX_WEIGHT,
        forall|j: int| i <= j < end ==> 0 <= #[trigger] s[j].1 <= MAX_TOTAL + MAX_TOTAL * MAX_WEIGHT,
    ensures
        spread(s, i, end, e) is Some,
    decreases end - i,
{
    if i < end {
        let m = min(s[i].0, e);
        let s2 = s.update(i, (s[i].0, s[i].1 + m));
        if e - m != 0 {
            lemma_spread_some(s2, i + 1, end, e - m);
        }
    }
}

proof fn lemma_search_some(s: Seq<(int, int)>, d: int, dl: int, start: int, p: int)
    requires
        0 <= start <= d < s.len(),
        p >= 0,
        dl >= 0,
        weights_nonneg(s),
        forall|i: int| 0 <= i < s.len() ==> #[trigger] s[i].0 <= MAX_WEIGHT,
        loads_nonneg(s),
        total_load(s) + dl <= MAX_TOTAL,
        s.len() * MAX_WEIGHT <= i32::MAX,
    ensures
        search(s, d, dl, start, p) is Some,
    decreases d + 1 - start, s[start].0 - p,
{
    if p >= s[start].0 {
        if start < d {
            lemma_search_some(s, d, dl, start + 1, 0);
        }
    } else {
        lemma_window_in_range(s, d, dl, start, p);
        if !window_fits(s, d, dl, start, p) {
            lemma_search_some(s, d, dl, start, p + 1);
        }
    }
}

proof fn lemma_distribute_from_some(s: Seq<(int, int)>, d: int)
    requires
        0 <= d,
        plan_in_range(s),
        idle_empty(s, d - 1),
        forall|j: int| d <= j < s.len() ==> #[trigger] s[j].1 == 0 || weight_sum(s, 0, j + 1) > 0,
    ensures
        distribute_from(s, d) is Some,
    decreases s.len() - d,
{
    if d < s.len() {
        let dl = s[d].1;
        let s0 = s.update(d, (s[d].0, 0));
        lemma_load_sum_update(s, d, (s[d].0, 0), 0, s.len() as int);
        assert(weights_nonneg(s0));
        assert(loads_nonneg(s0));
        assert(idle_empty(s0, d));
        assert(same_weights(s, s0));
        lemma_weight_sum_same(s, s0, 0, d + 1);
        lemma_weight_sum_same(s, s0, 1, d + 1);
        lemma_weight_sum_front(s0, 0, d + 1);
        lemma_search_some(s0, d, dl, 0, 0);
        lemma_search_sum(s0, d, dl, 0, 0);
        lemma_search_weights(s0, d, dl, 0, 0);
        lemma_search_grows(s0, d, dl, 0, 0);
        lemma_search_len(s0, d, dl, 0, 0);
        let t = day_step(s, d)->0;
        assert(same_weights(s, t));
        assert(plan_in_range(t)) by {
            assert forall|i: int| 0 <= i < t.len() implies #[trigger] t[i].0 <= MAX_WEIGHT by {
                assert(t[i].0 == s[i].0);
            }
        }
        assert forall|j: int| d + 1 <= j < t.len() implies #[trigger] t[j].1 == 0 || weight_sum(t, 0, j + 1) > 0 by {
            assert(t[j] == s0[j]);
            lemma_weight_sum_same(s, t, 0, j + 1);
        }
        lemma_distribute_from_some(t, d + 1);
    }
}

/// A plan has a distribution whenever it is in range and every loaded day
/// has a day of positive weight at or before it.
pub proof fn distribute_succeeds(s: Seq<(int, int)>)
    requires
        plan_in_range(s),
        loads_have_time(s),
    ensures
        distributed(s) is Some,
{
    lemma_distribute_from_some(s, 0);
}

} // verus!
