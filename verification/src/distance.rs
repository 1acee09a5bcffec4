//! Exact squared distances to the nearest marked pixel, in linear time.
//!
//! Along one line the squared distances are the lower envelope of the parabolas
//! `(x - v)^2 + f[v]`. Two passes, first down the columns and then along the rows,
//! give the distances in the plane.

use vstd::prelude::*;

verus! {

/// What stands for "no marked pixel": more than any squared distance.
pub const FAR: i128 = 0x1000_0000_0000_0000_0000_0000;

/// The parabola over `v`, at `x`.
pub open spec fn parabola(f: Seq<i128>, v: int, x: int) -> int {
    (x - v) * (x - v) + f[v]
}

/// Whether `d` is the least of all parabolas at `x`.
pub open spec fn is_lowest(f: Seq<i128>, x: int, d: int) -> bool {
    &&& exists|v: int| 0 <= v < f.len() && d == #[trigger] parabola(f, v, x)
    &&& forall|v: int| 0 <= v < f.len() ==> d <= #[trigger] parabola(f, v, x)
}

/// The heights that one pass may be given.
pub open spec fn heights_fit(f: Seq<i128>) -> bool {
    &&& f.len() <= 0xffff_ffff
    &&& forall|i: int| 0 <= i < f.len() ==> 0 <= #[trigger] f[i] <= FAR
}

/// The first `x` at which the parabola over `w` is not above that over `v`.
fn crossing(f: &Vec<i128>, v: usize, w: usize) -> (s: i128)
    requires
        heights_fit(f@),
        v < w < f@.len(),
    ensures
        forall|x: int|
            x >= s <==> #[trigger] parabola(f@, w as int, x) <= parabola(f@, v as int, x),
{
    let vv: i128 = v as i128;
    let ww: i128 = w as i128;
    proof {
        assert(0 <= vv * vv <= 0xffff_ffff * 0xffff_ffff) by (nonlinear_arith)
            requires
                0 <= vv <= 0xffff_ffff,
        ;
        assert(0 <= ww * ww <= 0xffff_ffff * 0xffff_ffff) by (nonlinear_arith)
            requires
                0 <= ww <= 0xffff_ffff,
        ;
    }
    let n: i128 = (f[w] + ww * ww) - (f[v] + vv * vv);
    let d: i128 = 2 * (ww - vv);
    let s: i128 = if n > 0 {
        (n - 1) / d + 1
    } else {
        -((-n) / d)
    };
    proof {
        assert(n <= s * d && (s - 1) * d < n) by {
            if n > 0 {
                let q = (n - 1) / (d as int);
                vstd::arithmetic::div_mod::lemma_fundamental_div_mod(n - 1, d as int);
                assert(n <= s * d && (s - 1) * d < n) by (nonlinear_arith)
                    requires
                        n - 1 == d * q + (n - 1) % (d as int),
                        0 <= (n - 1) % (d as int) < d,
                        s == q + 1,
                ;
            } else {
                let q = (-n) / (d as int);
                vstd::arithmetic::div_mod::lemma_fundamental_div_mod(-n, d as int);
                assert(n <= s * d && (s - 1) * d < n) by (nonlinear_arith)
                    requires
                        -n == d * q + (-n) % (d as int),
                        0 <= (-n) % (d as int) < d,
                        s == -q,
                ;
            }
        }
        assert forall|x: int| x >= s <==> #[trigger] parabola(f@, w as int, x) <= parabola(
            f@,
            v as int,
            x,
        ) by {
            assert((x - w) * (x - w) == x * x - 2 * (x * w) + w * w) by (nonlinear_arith);
            assert((x - v) * (x - v) == x * x - 2 * (x * v) + v * v) by (nonlinear_arith);
            assert(x * d == 2 * (x * w) - 2 * (x * v)) by (nonlinear_arith)
                requires
                    d == 2 * (w - v),
            ;
            if x >= s {
                assert(x * d >= s * d) by (nonlinear_arith)
                    requires
                        x >= s,
                        d > 0,
                ;
            } else {
                assert(x * d <= (s - 1) * d) by (nonlinear_arith)
                    requires
                        x <= s - 1,
                        d > 0,
                ;
            }
        }
    }
    s
}

/// The part of the line on which the stacked parabola `j` is the lowest.
spec fn in_segment(z: Seq<i128>, top: int, j: int, x: int) -> bool {
    &&& 0 <= j <= top
    &&& j == 0 || z[j] <= x
    &&& j == top || x < z[j + 1]
}

/// The stack holds the lower envelope of the first `q` parabolas.
#[verifier::opaque]
spec fn envelope(f: Seq<i128>, v: Seq<usize>, z: Seq<i128>, top: int, q: int) -> bool {
    &&& 0 <= top < v.len()
    &&& top < z.len()
    &&& forall|j: int| 0 <= j <= top ==> #[trigger] v[j] < q
    &&& forall|i: int, j: int| 0 <= i < j <= top ==> #[trigger] v[i] < #[trigger] v[j]
    &&& forall|i: int, j: int| 1 <= i < j <= top ==> #[trigger] z[i] < #[trigger] z[j]
    &&& forall|j: int, x: int|
        1 <= j <= top ==> (x >= z[j] <==> #[trigger] parabola(f, v[j] as int, x) <= parabola(
            f,
            v[j - 1] as int,
            x,
        ))
    &&& forall|j: int, x: int, u: int|
        #[trigger] in_segment(z, top, j, x) && 0 <= u < q ==> parabola(f, v[j] as int, x)
            <= #[trigger] parabola(f, u, x)
}

/// One parabola is its own envelope.
proof fn lemma_envelope_of_one(f: Seq<i128>, v: Seq<usize>, z: Seq<i128>)
    requires
        v.len() > 0,
        z.len() > 0,
        v[0] == 0,
    ensures
        envelope(f, v, z, 0, 1),
{
    reveal(envelope);
}

/// The stacked parabolas are among the first `q`.
proof fn lemma_envelope_index(
    f: Seq<i128>,
    v: Seq<usize>,
    z: Seq<i128>,
    top: int,
    q: int,
    k: int,
)
    requires
        envelope(f, v, z, top, q),
        0 <= k <= top,
    ensures
        v[k] < q,
{
    reveal(envelope);
}

/// The stacked parabola of a segment is the lowest there.
proof fn lemma_envelope_lowest(
    f: Seq<i128>,
    v: Seq<usize>,
    z: Seq<i128>,
    top: int,
    k: int,
    x: int,
)
    requires
        envelope(f, v, z, top, f.len() as int),
        in_segment(z, top, k, x),
    ensures
        is_lowest(f, x, parabola(f, v[k] as int, x)),
{
    reveal(envelope);
    assert(v[k] < f.len());
}

/// Every place lies in some segment.
proof fn lemma_segment_exists(z: Seq<i128>, top: int, x: int) -> (j: int)
    requires
        0 <= top < z.len(),
    ensures
        in_segment(z, top, j, x),
    decreases top,
{
    if top == 0 || z[top] <= x {
        top
    } else {
        let j = lemma_segment_exists(z, top - 1, x);
        j
    }
}

/// Pushing parabola `q` on the stack popped down to `k` keeps the envelope.
proof fn lemma_push(
    f: Seq<i128>,
    v: Seq<usize>,
    z: Seq<i128>,
    top: int,
    q: int,
    k: int,
    s: i128,
    v2: Seq<usize>,
    z2: Seq<i128>,
)
    requires
        envelope(f, v, z, top, q),
        0 <= k <= top,
        k + 1 < v.len(),
        k + 1 < z.len(),
        0 <= q <= usize::MAX,
        forall|x: int| x >= s <==> #[trigger] parabola(f, q, x) <= parabola(f, v[k] as int, x),
        k == 0 || s > z[k],
        forall|m: int, x: int|
            k < m <= top && x >= z[m] ==> #[trigger] parabola(f, q, x) <= #[trigger] parabola(
                f,
                v[m] as int,
                x,
            ),
        v2 == v.update(k + 1, q as usize),
        z2 == z.update(k + 1, s),
    ensures
        envelope(f, v2, z2, k + 1, q + 1),
{
    reveal(envelope);
    // the new boundary does not lie behind the segment that it cuts
    if k < top {
        let x = z[k + 1] as int;
        assert(parabola(f, q, x) <= parabola(f, v[k + 1] as int, x));
        assert(parabola(f, v[k + 1] as int, x) <= parabola(f, v[k] as int, x));
        assert(s <= z[k + 1]);
    }
    assert forall|j: int, x: int, u: int|
        #[trigger] in_segment(z2, k + 1, j, x) && 0 <= u < q + 1 implies parabola(
        f,
        v2[j] as int,
        x,
    ) <= #[trigger] parabola(f, u, x) by {
        if j <= k {
            assert(v2[j] == v[j]);
            // x lies before the new boundary
            assert(x < s) by {
                if j < k {
                    assert(x < z2[j + 1] && z2[j + 1] == z[j + 1]);
                    if j + 1 < k {
                        assert(z[j + 1] < z[k]);
                    }
                } else {
                    assert(x < z2[k + 1]);
                }
            }
            assert(in_segment(z, top, j, x)) by {
                assert(j == 0 || z2[j] == z[j]);
                if j < k {
                    assert(z2[j + 1] == z[j + 1]);
                }
            }
            if u < q {
            } else {
                assert(parabola(f, v[j] as int, x) <= parabola(f, v[k] as int, x));
                assert(parabola(f, v[k] as int, x) < parabola(f, q, x));
            }
        } else {
            assert(v2[j] == q);
            assert(x >= s);
            if u < q {
                let m = lemma_segment_exists(z, top, x);
                assert(parabola(f, v[m] as int, x) <= parabola(f, u, x));
                if m <= k {
                    if m < k {
                        // x lies before the segment of k, but s lies behind its start
                        assert(x < z[m + 1]);
                        if m + 1 < k {
                            assert(z[m + 1] < z[k]);
                        }
                        assert(false);
                    }
                    assert(parabola(f, q, x) <= parabola(f, v[k] as int, x));
                } else {
                    assert(x >= z[m]);
                    assert(parabola(f, q, x) <= parabola(f, v[m] as int, x));
                }
            }
        }
    }
    assert forall|j: int, x: int| 1 <= j <= k + 1 implies (x >= z2[j] <==> #[trigger] parabola(
        f,
        v2[j] as int,
        x,
    ) <= parabola(f, v2[j - 1] as int, x)) by {
        if j <= k {
            assert(v2[j] == v[j] && z2[j] == z[j] && v2[j - 1] == v[j - 1]);
            assert(x >= z[j] <==> parabola(f, v[j] as int, x) <= parabola(f, v[j - 1] as int, x));
        } else {
            assert(v2[j - 1] == v[k]);
            assert(x >= s <==> parabola(f, q, x) <= parabola(f, v[k] as int, x));
        }
    }
    assert forall|i: int, j: int| 0 <= i < j <= k + 1 implies #[trigger] v2[i] < #[trigger] v2[j] by {
        if j <= k {
            assert(v2[i] == v[i] && v2[j] == v[j]);
        } else {
            assert(v2[i] == v[i]);
        }
    }
    assert forall|i: int, j: int| 1 <= i < j <= k + 1 implies #[trigger] z2[i] < #[trigger] z2[j] by {
        if j <= k {
            assert(z2[i] == z[i] && z2[j] == z[j]);
        } else {
            assert(z2[i] == z[i]);
            if i < k {
                assert(z[i] < z[k]);
            }
        }
    }
    assert forall|j: int| 0 <= j <= k + 1 implies #[trigger] v2[j] < q + 1 by {
        if j <= k {
            assert(v2[j] == v[j]);
        }
    }
}

/// The lower envelope of the parabolas, at each place.
pub fn edt_1d(f: &Vec<i128>) -> (d: Vec<i128>)
    requires
        heights_fit(f@),
    ensures
        d@.len() == f@.len(),
        forall|x: int| 0 <= x < f@.len() ==> is_lowest(f@, x, #[trigger] d@[x] as int),
{
    let n: usize = f.len();
    let mut d: Vec<i128> = Vec::new();
    if n == 0 {
        return d;
    }
    let mut v: Vec<usize> = Vec::new();
    let mut z: Vec<i128> = Vec::new();
    let mut i: usize = 0;
    while i < n
        invariant
            i <= n,
            v@.len() == i,
            z@.len() == i,
            forall|j: int| 0 <= j < i ==> v@[j] == 0,
        decreases n - i,
    {
        v.push(0);
        z.push(0);
        i = i + 1;
    }
    let mut top: usize = 0;
    let mut q: usize = 1;
    proof {
        lemma_envelope_of_one(f@, v@, z@);
    }
    while q < n
        invariant
            n == f@.len(),
            heights_fit(f@),
            v@.len() == n,
            z@.len() == n,
            1 <= q <= n,
            top < q,
            envelope(f@, v@, z@, top as int, q as int),
        decreases n - q,
    {
        let mut k: usize = top;
        proof {
            lemma_envelope_index(f@, v@, z@, top as int, q as int, k as int);
        }
        let mut s: i128 = crossing(f, v[k], q);
        while k > 0 && s <= z[k]
            invariant
                n == f@.len(),
                heights_fit(f@),
                v@.len() == n,
                z@.len() == n,
                q < n,
                k <= top < q,
                envelope(f@, v@, z@, top as int, q as int),
                forall|x: int|
                    x >= s <==> #[trigger] parabola(f@, q as int, x) <= parabola(
                        f@,
                        v@[k as int] as int,
                        x,
                    ),
                forall|m: int, x: int|
                    k < m <= top && x >= z@[m] ==> #[trigger] parabola(f@, q as int, x)
                        <= #[trigger] parabola(f@, v@[m] as int, x),
            decreases k,
        {
            k = k - 1;
            proof {
                lemma_envelope_index(f@, v@, z@, top as int, q as int, k as int);
            }
            s = crossing(f, v[k], q);
        }
        let ghost v1 = v@;
        let ghost z1 = z@;
        v.set(k + 1, q);
        z.set(k + 1, s);
        proof {
            lemma_push(f@, v1, z1, top as int, q as int, k as int, s, v@, z@);
        }
        top = k + 1;
        q = q + 1;
    }
    let mut k: usize = 0;
    let mut x: usize = 0;
    while x < n
        invariant
            n == f@.len(),
            heights_fit(f@),
            v@.len() == n,
            z@.len() == n,
            x <= n,
            k <= top < n,
            envelope(f@, v@, z@, top as int, n as int),
            k == 0 || z@[k as int] <= x,
            d@.len() == x,
            forall|y: int| 0 <= y < x ==> is_lowest(f@, y, #[trigger] d@[y] as int),
        decreases n - x,
    {
        while k < top && z[k + 1] <= x as i128
            invariant
                z@.len() == n,
                k <= top < n,
                k == 0 || z@[k as int] <= x,
            decreases top - k,
        {
            k = k + 1;
        }
        let u: usize = v[k];
        proof {
            lemma_envelope_index(f@, v@, z@, top as int, n as int, k as int);
            lemma_envelope_lowest(f@, v@, z@, top as int, k as int, x as int);
        }
        let dx: i128 = x as i128 - u as i128;
        proof {
            assert(0 <= dx * dx <= 0xffff_ffff * 0xffff_ffff) by (nonlinear_arith)
                requires
                    -0xffff_ffff <= dx <= 0xffff_ffff,
            ;
            assert(parabola(f@, u as int, x as int) == dx * dx + f@[u as int]);
        }
        d.push(dx * dx + f[u]);
        proof {
            assert(is_lowest(f@, x as int, d@[x as int] as int));
        }
        x = x + 1;
    }
    d
}

/// The squared distance between two pixels.
pub open spec fn gap2(x: int, y: int, a: int, b: int) -> int {
    (x - a) * (x - a) + (y - b) * (y - b)
}

/// Whether the pixel in column `a` and row `b` is marked.
pub open spec fn marked(features: Seq<bool>, size: nat, a: int, b: int) -> bool {
    0 <= a < size && 0 <= b < size && features[b * size + a]
}

/// Whether `d` is the squared distance from a pixel to the nearest marked one, or
/// [`FAR`] where none is marked.
pub open spec fn is_nearest(features: Seq<bool>, size: nat, x: int, y: int, d: int) -> bool {
    ||| {
        &&& d < FAR
        &&& exists|a: int, b: int| #[trigger] marked(features, size, a, b) && d == gap2(x, y, a, b)
        &&& forall|a: int, b: int| #[trigger] marked(features, size, a, b) ==> d <= gap2(x, y, a, b)
    }
    ||| d == FAR && forall|a: int, b: int| !#[trigger] marked(features, size, a, b)
}

/// Whether `d` is the squared distance to the nearest marked pixel of a column.
spec fn is_nearest_in_column(features: Seq<bool>, size: nat, x: int, y: int, d: int) -> bool {
    ||| {
        &&& d < FAR
        &&& exists|b: int| #[trigger] marked(features, size, x, b) && d == (y - b) * (y - b)
        &&& forall|b: int| #[trigger] marked(features, size, x, b) ==> d <= (y - b) * (y - b)
    }
    ||| d == FAR && forall|b: int| !#[trigger] marked(features, size, x, b)
}

proof fn lemma_small_square(a: int, size: nat)
    requires
        -size < a < size,
        size <= 0xffff_ffff,
    ensures
        0 <= a * a <= 0xffff_ffff * 0xffff_ffff,
{
    assert(0 <= a * a <= 0xffff_ffff * 0xffff_ffff) by (nonlinear_arith)
        requires
            -0xffff_ffff <= a <= 0xffff_ffff,
    ;
}

/// The pass down a column.
proof fn lemma_column_pass(
    features: Seq<bool>,
    size: nat,
    x: int,
    y: int,
    f: Seq<i128>,
    d: int,
)
    requires
        size <= 0xffff_ffff,
        0 <= x < size,
        0 <= y < size,
        f.len() == size,
        forall|b: int|
            0 <= b < size ==> #[trigger] f[b] == if marked(features, size, x, b) {
                0
            } else {
                FAR as int
            },
        is_lowest(f, y, d),
    ensures
        is_nearest_in_column(features, size, x, y, d),
        0 <= d <= FAR,
{
    let v = choose|v: int| 0 <= v < f.len() && d == #[trigger] parabola(f, v, y);
    lemma_small_square(y - v, size);
    assert(parabola(f, y, y) == f[y]) by {
        assert((y - y) * (y - y) == 0) by (nonlinear_arith);
    }
    assert forall|b: int| #[trigger] marked(features, size, x, b) implies d <= (y - b) * (y - b)
        && d < FAR by {
        lemma_small_square(y - b, size);
        assert(parabola(f, b, y) == (y - b) * (y - b));
    }
    if f[v] == 0 {
        assert(marked(features, size, x, v));
    } else {
        assert(d >= FAR);
        assert(d <= f[y]);
    }
}

/// The pass along a row.
proof fn lemma_row_pass(
    features: Seq<bool>,
    size: nat,
    x: int,
    y: int,
    row: Seq<i128>,
    d: int,
)
    requires
        size <= 0xffff_ffff,
        0 <= x < size,
        0 <= y < size,
        row.len() == size,
        forall|a: int|
            0 <= a < size ==> is_nearest_in_column(features, size, a, y, #[trigger] row[a] as int),
        is_lowest(row, x, d),
    ensures
        is_nearest(features, size, x, y, d),
{
    let v = choose|v: int| 0 <= v < row.len() && d == #[trigger] parabola(row, v, x);
    lemma_small_square(x - v, size);
    assert forall|a: int, b: int| #[trigger] marked(features, size, a, b) implies d <= gap2(
        x,
        y,
        a,
        b,
    ) && d < FAR by {
        assert(is_nearest_in_column(features, size, a, y, row[a] as int));
        lemma_small_square(x - a, size);
        lemma_small_square(y - b, size);
        assert(d <= parabola(row, a, x));
    }
    assert(is_nearest_in_column(features, size, v, y, row[v] as int));
    if row[v] < FAR {
        let b = choose|b: int|
            #[trigger] marked(features, size, v, b) && row[v] == (y - b) * (y - b);
        assert(marked(features, size, v, b) && d == gap2(x, y, v, b));
    } else {
        // the lowest parabola stands in a column without marks, so none has any
        assert(d >= FAR);
        assert forall|a: int, b: int| !#[trigger] marked(features, size, a, b) by {
            if marked(features, size, a, b) {
                assert(d < FAR);
            }
        }
        assert(is_nearest_in_column(features, size, x, y, row[x] as int));
        assert(row[x] == FAR) by {
            if row[x] < FAR {
                let b = choose|b: int|
                    #[trigger] marked(features, size, x, b) && row[x] == (y - b) * (y - b);
                assert(false);
            }
        }
        assert((x - x) * (x - x) == 0) by (nonlinear_arith);
        assert(d <= parabola(row, x, x));
    }
}

proof fn lemma_cell(size: nat, x: int, y: int)
    requires
        0 <= x < size,
        0 <= y < size,
    ensures
        0 <= y * size + x < size * size,
        y * size <= (y + 1) * size <= size * size,
        (y + 1) * size == y * size + size,
{
    assert(0 <= y * size + x < size * size) by (nonlinear_arith)
        requires
            0 <= x < size,
            0 <= y < size,
    ;
    assert((y + 1) * size == y * size + size) by (nonlinear_arith);
    assert((y + 1) * size <= size * size) by (nonlinear_arith)
        requires
            y + 1 <= size,
    ;
}

/// The squared distances from each pixel to the nearest marked one.
pub fn edt_2d(features: &Vec<bool>, size: usize) -> (out: Vec<i128>)
    requires
        size <= 0xffff_ffff,
        features@.len() == size * size,
    ensures
        out@.len() == size * size,
        forall|x: int, y: int|
            0 <= x < size && 0 <= y < size ==> is_nearest(
                features@,
                size as nat,
                x,
                y,
                #[trigger] out@[y * size + x] as int,
            ),
{
    let total: usize = features.len();
    // columns, one behind the other
    let mut columns: Vec<Vec<i128>> = Vec::new();
    let mut x: usize = 0;
    while x < size
        invariant
            x <= size <= 0xffff_ffff,
            total == features@.len(),
            total == size * size,
            columns@.len() == x,
            forall|a: int|
                0 <= a < x ==> (#[trigger] columns@[a])@.len() == size && forall|y: int|
                    0 <= y < size ==> is_nearest_in_column(
                        features@,
                        size as nat,
                        a,
                        y,
                        #[trigger] columns@[a]@[y] as int,
                    ) && 0 <= columns@[a]@[y] <= FAR,
        decreases size - x,
    {
        let mut col: Vec<i128> = Vec::new();
        let mut y: usize = 0;
        while y < size
            invariant
                x < size <= 0xffff_ffff,
                y <= size,
                total == features@.len(),
                total == size * size,
                col@.len() == y,
                forall|b: int|
                    0 <= b < y ==> #[trigger] col@[b] == if marked(
                        features@,
                        size as nat,
                        x as int,
                        b,
                    ) {
                        0
                    } else {
                        FAR as int
                    },
            decreases size - y,
        {
            proof {
                lemma_cell(size as nat, x as int, y as int);
            }
            if features[y * size + x] {
                col.push(0);
            } else {
                col.push(FAR);
            }
            y = y + 1;
        }
        let dist = edt_1d(&col);
        proof {
            assert forall|b: int| 0 <= b < size implies is_nearest_in_column(
                features@,
                size as nat,
                x as int,
                b,
                #[trigger] dist@[b] as int,
            ) && 0 <= dist@[b] <= FAR by {
                lemma_column_pass(features@, size as nat, x as int, b, col@, dist@[b] as int);
            }
        }
        columns.push(dist);
        x = x + 1;
    }
    let mut out: Vec<i128> = Vec::new();
    let mut y: usize = 0;
    while y < size
        invariant
            y <= size <= 0xffff_ffff,
            out@.len() == y * size,
            columns@.len() == size,
            forall|a: int|
                0 <= a < size ==> (#[trigger] columns@[a])@.len() == size && forall|b: int|
                    0 <= b < size ==> is_nearest_in_column(
                        features@,
                        size as nat,
                        a,
                        b,
                        #[trigger] columns@[a]@[b] as int,
                    ) && 0 <= columns@[a]@[b] <= FAR,
            forall|a: int, b: int|
                0 <= a < size && 0 <= b < y ==> is_nearest(
                    features@,
                    size as nat,
                    a,
                    b,
                    #[trigger] out@[b * size + a] as int,
                ),
        decreases size - y,
    {
        let mut row: Vec<i128> = Vec::new();
        let mut x: usize = 0;
        while x < size
            invariant
                x <= size <= 0xffff_ffff,
                y < size,
                columns@.len() == size,
                forall|a: int|
                    0 <= a < size ==> (#[trigger] columns@[a])@.len() == size && forall|b: int|
                        0 <= b < size ==> is_nearest_in_column(
                            features@,
                            size as nat,
                            a,
                            b,
                            #[trigger] columns@[a]@[b] as int,
                        ) && 0 <= columns@[a]@[b] <= FAR,
                row@.len() == x,
                forall|a: int|
                    0 <= a < x ==> is_nearest_in_column(
                        features@,
                        size as nat,
                        a,
                        y as int,
                        #[trigger] row@[a] as int,
                    ) && 0 <= row@[a] <= FAR,
            decreases size - x,
        {
            row.push(columns[x][y]);
            x = x + 1;
        }
        let dist = edt_1d(&row);
        proof {
            assert forall|a: int| 0 <= a < size implies is_nearest(
                features@,
                size as nat,
                a,
                y as int,
                #[trigger] dist@[a] as int,
            ) by {
                lemma_row_pass(features@, size as nat, a, y as int, row@, dist@[a] as int);
            }
        }
        let ghost before = out@;
        let mut x: usize = 0;
        while x < size
            invariant
                x <= size,
                dist@.len() == size,
                before.len() == y * size,
                out@ == before + dist@.take(x as int),
            decreases size - x,
        {
            out.push(dist[x]);
            x = x + 1;
            proof {
                assert(out@ =~= before + dist@.take(x as int));
            }
        }
        proof {
            assert((y + 1) * size == y * size + size) by (nonlinear_arith);
            assert forall|a: int, b: int| 0 <= a < size && 0 <= b < y + 1 implies is_nearest(
                features@,
                size as nat,
                a,
                b,
                #[trigger] out@[b * size + a] as int,
            ) by {
                if b < y {
                    assert(0 <= b * size + a < y * size) by (nonlinear_arith)
                        requires
                            0 <= a < size,
                            0 <= b < y,
                    ;
                    assert(out@[b * size + a] == before[b * size + a]);
                } else {
                    assert(out@[b * size + a] == dist@[a]);
                }
            }
        }
        y = y + 1;
    }
    out
}

} // verus!
