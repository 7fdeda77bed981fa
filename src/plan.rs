use vstd::prelude::*;

verus! {

/// The largest number of digits that one request to the remote source may ask for.
pub const MAX_DIGITS_PER_REQUEST: usize = 1000;

/// One request to the remote source: `count` digits starting at offset `start`.
#[derive(Clone, Copy, Debug, PartialEq, Eq, Structural)]
pub struct FetchRange {
    pub start: usize,
    pub count: usize,
}

/// Where worker `w` of `n` starts when `[from, to)` is split between them.
pub open spec fn worker_start(from: int, to: int, n: int, w: int) -> int {
    from + w * ((to - from) / n)
}

/// Where worker `w` of `n` stops: the next worker's start, or `to` for the last one,
/// which absorbs what the integer division left over.
pub open spec fn worker_end(from: int, to: int, n: int, w: int) -> int {
    if w + 1 == n {
        to
    } else {
        worker_start(from, to, n, w + 1)
    }
}

/// The split of `[from, to)` between `n` workers, as `(start, end)` pairs.
pub open spec fn split_spec(from: int, to: int, n: int) -> Seq<(int, int)> {
    Seq::new(n as nat, |w: int| (worker_start(from, to, n, w), worker_end(from, to, n, w)))
}

/// `r` is the sequence of ranges, as machine integers, that `split_spec` describes.
pub open spec fn same_ranges(r: Seq<(usize, usize)>, s: Seq<(int, int)>) -> bool {
    r.len() == s.len() && forall|w: int|
        0 <= w < r.len() ==> r[w].0 as int == s[w].0 && r[w].1 as int == s[w].1
}

/// The ranges follow one another without gap or overlap, from `from` up to `to`.
pub open spec fn contiguous(r: Seq<(int, int)>, from: int, to: int) -> bool {
    &&& r.len() > 0
    &&& r[0].0 == from
    &&& r[r.len() - 1].1 == to
    &&& forall|w: int| 0 <= w < r.len() ==> r[w].0 <= r[w].1
    &&& forall|w: int| 0 <= w < r.len() - 1 ==> r[w].1 == r[w + 1].0
}

/// The worker ranges of a preload that grows a store of `len` digits to `target`
/// with up to `threads` workers, each request asking for at most `per_request` digits:
/// none when there is nothing to do, one covering everything when a share per worker
/// would be smaller than one request, else the split between all the workers.
pub open spec fn preload_plan(len: int, target: int, threads: int, per_request: int) -> Seq<
    (int, int),
> {
    if len >= target {
        Seq::empty()
    } else if (target - len) / threads < per_request {
        seq![(len, target)]
    } else {
        split_spec(len, target, threads)
    }
}

proof fn lemma_share_bound(from: int, to: int, n: int, w: int)
    requires
        from <= to,
        n >= 1,
        0 <= w <= n,
    ensures
        0 <= w * ((to - from) / n) <= to - from,
        0 <= (to - from) / n,
{
    let q = (to - from) / n;
    assert(q * n <= to - from) by (nonlinear_arith)
        requires
            q == (to - from) / n,
            n >= 1,
            to - from >= 0,
    ;
    assert(0 <= q) by (nonlinear_arith)
        requires
            q == (to - from) / n,
            n >= 1,
            to - from >= 0,
    ;
    assert(0 <= w * q <= n * q) by (nonlinear_arith)
        requires
            0 <= w <= n,
            0 <= q,
    ;
}

/// Split `[from, to)` between `n` workers into contiguous ranges.
pub fn split(from: usize, to: usize, n: usize) -> (r: Vec<(usize, usize)>)
    requires
        from <= to,
        n >= 1,
    ensures
        same_ranges(r@, split_spec(from as int, to as int, n as int)),
{
    let per: usize = (to - from) / n;
    let mut r: Vec<(usize, usize)> = Vec::new();
    let mut w: usize = 0;
    while w < n
        invariant
            per as int == (to - from) as int / (n as int),
            from <= to,
            n >= 1,
            w <= n,
            r@.len() == w,
            forall|v: int|
                0 <= v < w ==> r@[v].0 as int == worker_start(from as int, to as int, n as int, v)
                    && r@[v].1 as int == worker_end(from as int, to as int, n as int, v),
        decreases n - w,
    {
        proof {
            lemma_share_bound(from as int, to as int, n as int, w as int);
            lemma_share_bound(from as int, to as int, n as int, w + 1);
        }
        let start: usize = from + w * per;
        let end: usize = if w + 1 == n {
            to
        } else {
            from + (w + 1) * per
        };
        r.push((start, end));
        w = w + 1;
    }
    r
}

proof fn lemma_split_contiguous(from: int, to: int, n: int)
    requires
        from <= to,
        n >= 1,
    ensures
        contiguous(split_spec(from, to, n), from, to),
{
    let s = split_spec(from, to, n);
    assert forall|w: int| 0 <= w < s.len() implies s[w].0 <= s[w].1 by {
        lemma_share_bound(from, to, n, w);
        lemma_share_bound(from, to, n, w + 1);
        let q = (to - from) / n;
        assert(w * q <= (w + 1) * q) by (nonlinear_arith)
            requires
                0 <= q,
        ;
        if w + 1 == n {
            assert(w * q <= n * q - q) by (nonlinear_arith)
                requires
                    w + 1 == n,
            ;
            assert(n * q <= to - from) by (nonlinear_arith)
                requires
                    q == (to - from) / n,
                    n >= 1,
                    to - from >= 0,
            ;
        }
    }
}

/// In contiguous ranges, a range ends no later than any later range starts.
pub proof fn lemma_ranges_ordered(r: Seq<(int, int)>, from: int, to: int, a: int, b: int)
    requires
        contiguous(r, from, to),
        0 <= a <= b < r.len(),
    ensures
        r[a].1 <= r[b].1,
        a < b ==> r[a].1 <= r[b].0,
    decreases b - a,
{
    if a < b {
        lemma_ranges_ordered(r, from, to, a, b - 1);
    }
}

/// Range `w` of `r` holds offset `x`.
pub open spec fn range_holds(r: Seq<(int, int)>, w: int, x: int) -> bool {
    0 <= w < r.len() && r[w].0 <= x < r[w].1
}

/// Some range of `r` holds offset `x`.
pub open spec fn covered(r: Seq<(int, int)>, x: int) -> bool {
    exists|w: int| range_holds(r, w, x)
}

proof fn lemma_covered_from(r: Seq<(int, int)>, from: int, to: int, w: int, x: int)
    requires
        contiguous(r, from, to),
        0 <= w < r.len(),
        r[w].0 <= x < to,
    ensures
        covered(r, x),
    decreases r.len() - w,
{
    if x >= r[w].1 {
        lemma_covered_from(r, from, to, w + 1, x);
    } else {
        assert(range_holds(r, w, x));
    }
}

/// The ranges of a contiguous split cover `[from, to)` exactly: every offset of it lies
/// in one range and in one only, and no range holds an offset outside it.
pub proof fn lemma_contiguous_exact_cover(r: Seq<(int, int)>, from: int, to: int)
    requires
        contiguous(r, from, to),
    ensures
        forall|x: int| from <= x < to ==> covered(r, x),
        forall|x: int, a: int, b: int|
            range_holds(r, a, x) && range_holds(r, b, x) ==> a == b,
        forall|x: int, w: int| range_holds(r, w, x) ==> from <= x < to,
{
    assert forall|x: int| from <= x < to implies covered(r, x) by {
        lemma_covered_from(r, from, to, 0, x);
    }
    assert forall|x: int, a: int, b: int|
        range_holds(r, a, x) && range_holds(r, b, x) implies a == b by {
        if a < b {
            lemma_ranges_ordered(r, from, to, a, b);
        } else if b < a {
            lemma_ranges_ordered(r, from, to, b, a);
        }
    }
    assert forall|x: int, w: int| range_holds(r, w, x) implies from <= x < to by {
        lemma_ranges_ordered(r, from, to, 0, w);
        lemma_ranges_ordered(r, from, to, w, r.len() - 1);
    }
}

/// Whatever the number of workers, a preload plan that has work to do splits
/// `[len, target)` into contiguous ranges, so that each offset of it is fetched by
/// exactly one worker and no offset outside it is fetched.
pub proof fn lemma_plan_exact_cover(len: int, target: int, threads: int, per_request: int)
    requires
        len < target,
        threads >= 1,
    ensures
        contiguous(preload_plan(len, target, threads, per_request), len, target),
        forall|x: int|
            len <= x < target ==> covered(preload_plan(len, target, threads, per_request), x),
        forall|x: int, a: int, b: int|
            range_holds(preload_plan(len, target, threads, per_request), a, x) && range_holds(
                preload_plan(len, target, threads, per_request),
                b,
                x,
            ) ==> a == b,
        forall|x: int, w: int|
            range_holds(preload_plan(len, target, threads, per_request), w, x) ==> len <= x
                < target,
{
    let r = preload_plan(len, target, threads, per_request);
    if (target - len) / threads >= per_request {
        lemma_split_contiguous(len, target, threads);
    }
    lemma_contiguous_exact_cover(r, len, target);
}

} // verus!
