use vstd::prelude::*;

use crate::color::{mean_color, mean_of, MeanColor};
use crate::error::MosaicError;
use crate::raster::RgbImage;

verus! {

/// Squared Euclidean distance between two mean colors over the same pixel
/// count, scaled by the square of that count (which keeps it an integer and
/// leaves the order of distances unchanged).
pub open spec fn dist(q: MeanColor, e: MeanColor) -> int {
    (q.r - e.r) * (q.r - e.r) + (q.g - e.g) * (q.g - e.g) + (q.b - e.b) * (q.b - e.b)
}

/// `i` is the lowest index among the entries of `means` nearest to `q`.
pub open spec fn is_nearest(means: Seq<MeanColor>, q: MeanColor, i: int) -> bool {
    &&& 0 <= i < means.len()
    &&& forall|j: int| 0 <= j < means.len() ==> dist(q, means[i]) <= #[trigger] dist(q, means[j])
    &&& forall|j: int| 0 <= j < i ==> dist(q, means[i]) < #[trigger] dist(q, means[j])
}

/// The entry that `ColorIndex::nearest` picks for `q`.
pub open spec fn nearest_of(means: Seq<MeanColor>, q: MeanColor) -> int {
    choose|i: int| is_nearest(means, q, i)
}

/// The mean colors of a tile sequence, by tile index.
pub open spec fn tile_means(tiles: Seq<RgbImage>) -> Seq<MeanColor> {
    Seq::new(tiles.len(), |i: int| mean_of(tiles[i]))
}

/// The mean color of `count` pixels all of color `(r, g, b)`: how a single
/// source color is put to the index.
pub open spec fn uniform_mean(r: u8, g: u8, b: u8, count: u64) -> MeanColor {
    MeanColor {
        r: (r * count) as u64,
        g: (g * count) as u64,
        b: (b * count) as u64,
        count,
    }
}

/// Every tile is well formed, has the footprint `kernel_size`, and its
/// pixel count fits in 32 bits.
pub open spec fn tiles_fit(tiles: Seq<RgbImage>, kernel_size: (u32, u32)) -> bool {
    &&& (kernel_size.0 as int) * (kernel_size.1 as int) <= u32::MAX
    &&& forall|i: int|
        0 <= i < tiles.len() ==> {
            &&& #[trigger] tiles[i].wf()
            &&& tiles[i].width == kernel_size.0
            &&& tiles[i].height == kernel_size.1
        }
}

/// At most one entry is nearest to a query.
pub proof fn lemma_nearest_unique(means: Seq<MeanColor>, q: MeanColor, i: int, j: int)
    requires
        is_nearest(means, q, i),
        is_nearest(means, q, j),
    ensures
        i == j,
{
    if i < j {
        assert(dist(q, means[j]) < dist(q, means[i]));
    } else if j < i {
        assert(dist(q, means[i]) < dist(q, means[j]));
    }
}

/// Among the first `n` entries, the lowest-indexed one nearest to `q`.
proof fn nearest_in_prefix(means: Seq<MeanColor>, q: MeanColor, n: int) -> (i: int)
    requires
        0 < n <= means.len(),
    ensures
        0 <= i < n,
        forall|j: int| 0 <= j < n ==> dist(q, means[i]) <= #[trigger] dist(q, means[j]),
        forall|j: int| 0 <= j < i ==> dist(q, means[i]) < #[trigger] dist(q, means[j]),
    decreases n,
{
    if n == 1 {
        0
    } else {
        let k = nearest_in_prefix(means, q, n - 1);
        if dist(q, means[n - 1]) < dist(q, means[k]) {
            n - 1
        } else {
            k
        }
    }
}

/// A non-empty sequence of entries always has a nearest one to any query,
/// so `nearest_of` names it.
pub proof fn lemma_nearest_exists(means: Seq<MeanColor>, q: MeanColor)
    requires
        means.len() > 0,
    ensures
        is_nearest(means, q, nearest_of(means, q)),
{
    let i = nearest_in_prefix(means, q, means.len() as int);
    assert(is_nearest(means, q, i));
}

/// Querying with the exact mean color of an entry returns an entry with
/// that same mean color.
pub(crate) proof fn lemma_nearest_of_own_mean(means: Seq<MeanColor>, k: int, i: int)
    requires
        0 <= k < means.len(),
        forall|j: int| 0 <= j < means.len() ==> (#[trigger] means[j]).count == means[k].count,
        is_nearest(means, means[k], i),
    ensures
        means[i] == means[k],
{
    let q = means[k];
    let e = means[i];
    assert(dist(q, e) <= dist(q, q));
    assert(dist(q, q) == 0);
    assert((q.r - e.r) * (q.r - e.r) >= 0) by (nonlinear_arith);
    assert((q.g - e.g) * (q.g - e.g) >= 0) by (nonlinear_arith);
    assert((q.b - e.b) * (q.b - e.b) >= 0) by (nonlinear_arith);
    assert(q.r == e.r) by (nonlinear_arith)
        requires (q.r - e.r) * (q.r - e.r) <= 0;
    assert(q.g == e.g) by (nonlinear_arith)
        requires (q.g - e.g) * (q.g - e.g) <= 0;
    assert(q.b == e.b) by (nonlinear_arith)
        requires (q.b - e.b) * (q.b - e.b) <= 0;
}

/// Red sum of the entry at position `k` of `order`.
pub open spec fn red_at(means: Seq<MeanColor>, order: Seq<usize>, k: int) -> int {
    means[order[k] as int].r as int
}

/// `order` lists the entries by non-decreasing red sum.
pub open spec fn sorted_by_red(means: Seq<MeanColor>, order: Seq<usize>) -> bool {
    forall|a: int, b: int|
        0 <= a < b < order.len() ==> #[trigger] red_at(means, order, a) <= #[trigger] red_at(
            means,
            order,
            b,
        )
}

/// `order` lists each of `0..n` exactly once, and `position` tells where.
pub open spec fn is_ordering(order: Seq<usize>, position: Seq<int>, n: int) -> bool {
    &&& order.len() == n
    &&& position.len() == n
    &&& forall|k: int| 0 <= k < n ==> (#[trigger] order[k]) < n
    &&& forall|j: int|
        0 <= j < n ==> 0 <= #[trigger] position[j] < n && order[position[j]] == j
}

/// Entry `a` is at least as near to `q` as entry `b`, with ties going to
/// the lower index.
pub open spec fn no_worse(means: Seq<MeanColor>, q: MeanColor, a: int, b: int) -> bool {
    dist(q, means[a]) < dist(q, means[b]) || (dist(q, means[a]) == dist(q, means[b]) && a <= b)
}

/// An entry whose red sum is at least `g` away from the query's is at
/// least `g * g` away from it.
proof fn lemma_red_gap(q: MeanColor, e: MeanColor, g: int)
    requires
        0 <= g,
        e.r - q.r >= g || q.r - e.r >= g,
    ensures
        dist(q, e) >= g * g,
{
    assert((q.r - e.r) * (q.r - e.r) >= g * g) by (nonlinear_arith)
        requires 0 <= g, e.r - q.r >= g || q.r - e.r >= g;
    assert((q.g - e.g) * (q.g - e.g) >= 0) by (nonlinear_arith);
    assert((q.b - e.b) * (q.b - e.b) >= 0) by (nonlinear_arith);
}

/// A nearest-color index over the mean colors of a tile sequence; each entry
/// stands for the tile with the same index. Entries are also kept in order of
/// their red sum: a query starts where its own red sum would stand and walks
/// outwards, giving up on a side once the red difference alone exceeds the
/// best distance found, so most entries are never looked at.
pub struct ColorIndex {
    count: u64,
    means: Vec<MeanColor>,
    /// Tile indices ordered by the red sum of their mean color.
    order: Vec<usize>,
    /// Where each tile index stands in `order`.
    position: Ghost<Seq<int>>,
}

impl ColorIndex {
    /// The mean color of each tile, by tile index.
    pub closed spec fn entries(&self) -> Seq<MeanColor> {
        self.means@
    }

    /// The pixel count of every tile.
    pub closed spec fn pixel_count(&self) -> nat {
        self.count as nat
    }

    pub closed spec fn wf(&self) -> bool {
        &&& self.count <= u32::MAX
        &&& is_ordering(self.order@, self.position@, self.means@.len() as int)
        &&& sorted_by_red(self.means@, self.order@)
        &&& forall|i: int|
            0 <= i < self.means@.len() ==> {
                &&& (#[trigger] self.means@[i]).count == self.count
                &&& self.means@[i].r <= 255 * self.count
                &&& self.means@[i].g <= 255 * self.count
                &&& self.means@[i].b <= 255 * self.count
            }
    }

    /// Indexes the mean color of every tile under the tile's position.
    pub fn build(tiles: &Vec<RgbImage>, kernel_size: (u32, u32)) -> (r: ColorIndex)
        requires
            tiles_fit(tiles@, kernel_size),
        ensures
            r.wf(),
            r.entries() == tile_means(tiles@),
            r.pixel_count() == (kernel_size.0 as int) * (kernel_size.1 as int),
    {
        let count: u64 = (kernel_size.0 as u64) * (kernel_size.1 as u64);
        let mut means: Vec<MeanColor> = Vec::new();
        let mut i: usize = 0;
        while i < tiles.len()
            invariant
                i <= tiles@.len(),
                tiles_fit(tiles@, kernel_size),
                count == (kernel_size.0 as int) * (kernel_size.1 as int),
                means@.len() == i,
                forall|j: int| 0 <= j < i ==> #[trigger] means@[j] == mean_of(tiles@[j]),
                forall|j: int|
                    0 <= j < i ==> {
                        &&& (#[trigger] means@[j]).count == count
                        &&& means@[j].r <= 255 * count
                        &&& means@[j].g <= 255 * count
                        &&& means@[j].b <= 255 * count
                    },
            decreases tiles@.len() - i,
        {
            assert(tiles@[i as int].wf());
            let m = mean_color(&tiles[i]);
            means.push(m);
            i = i + 1;
        }
        let (order, position) = order_by_red(&means);
        let r = ColorIndex { count, means, order, position };
        assert(r.entries() =~= tile_means(tiles@));
        r
    }

    /// A query equal to the mean color of an indexed tile is answered with a
    /// tile of exactly that mean color.
    pub proof fn lemma_query_own_mean(&self, k: int, i: int)
        requires
            self.wf(),
            0 <= k < self.entries().len(),
            is_nearest(self.entries(), self.entries()[k], i),
        ensures
            self.entries()[i] == self.entries()[k],
    {
        lemma_nearest_of_own_mean(self.means@, k, i);
    }

    /// Number of indexed tiles.
    pub fn len(&self) -> (r: usize)
        ensures
            r == self.entries().len(),
    {
        self.means.len()
    }

    /// The lowest tile index whose mean color is nearest to `q`, or
    /// `MosaicError::Index` when the index holds no entry.
    pub fn nearest(&self, q: &MeanColor) -> (r: Result<usize, MosaicError>)
        requires
            self.wf(),
            q.count == self.pixel_count(),
            q.r <= 255 * q.count,
            q.g <= 255 * q.count,
            q.b <= 255 * q.count,
        ensures
            match r {
                Ok(i) => is_nearest(self.entries(), *q, i as int),
                Err(e) => e == MosaicError::Index && self.entries().len() == 0,
            },
    {
        let n: usize = self.means.len();
        if n == 0 {
            return Err(MosaicError::Index);
        }
        let ghost means = self.means@;
        let ghost order = self.order@;
        let ghost position = self.position@;
        // first position whose red sum is not below the query's
        let mut lo: usize = 0;
        let mut hi: usize = n;
        while lo < hi
            invariant
                self.wf(),
                n == means.len(),
                means == self.means@,
                order == self.order@,
                0 <= lo <= hi <= n,
                forall|k: int| 0 <= k < lo ==> #[trigger] red_at(means, order, k) < q.r,
                forall|k: int| hi <= k < n ==> #[trigger] red_at(means, order, k) >= q.r,
            decreases hi - lo,
        {
            let mid: usize = lo + (hi - lo) / 2;
            if self.means[self.order[mid]].r < q.r {
                proof {
                    assert forall|k: int| 0 <= k < mid + 1 implies #[trigger] red_at(means, order, k)
                        < q.r by {
                        if k < mid {
                            assert(red_at(means, order, k) <= red_at(means, order, mid as int));
                        }
                    }
                }
                lo = mid + 1;
            } else {
                proof {
                    assert forall|k: int| mid <= k < n implies #[trigger] red_at(means, order, k)
                        >= q.r by {
                        if k > mid {
                            assert(red_at(means, order, mid as int) <= red_at(means, order, k));
                        }
                    }
                }
                hi = mid;
            }
        }
        let start: usize = lo;
        let first: usize = if start < n { start } else { start - 1 };
        let mut best: usize = self.order[first];
        let mut best_d: u128 = distance(q, &self.means[best], self.count);
        // walk up from `start` until the red gap alone exceeds the best distance
        let mut up: usize = start;
        let mut stop: bool = false;
        while up < n && !stop
            invariant
                self.wf(),
                n == means.len(),
                means == self.means@,
                order == self.order@,
                position == self.position@,
                q.count == self.count,
                q.r <= 255 * q.count,
                q.g <= 255 * q.count,
                q.b <= 255 * q.count,
                start <= up <= n,
                forall|k: int| 0 <= k < start ==> #[trigger] red_at(means, order, k) < q.r,
                forall|k: int| start <= k < n ==> #[trigger] red_at(means, order, k) >= q.r,
                best < n,
                best_d == dist(*q, means[best as int]),
                forall|k: int| start <= k < up ==> no_worse(means, *q, best as int, #[trigger] order[k] as int),
                stop ==> forall|k: int| up <= k < n ==> best_d < dist(*q, means[#[trigger] order[k] as int]),
            decreases n - up + if stop { 0int } else { 1int },
        {
            let c: usize = self.order[up];
            assert(red_at(means, order, up as int) >= q.r);
            let gap: u128 = (self.means[c].r - q.r) as u128;
            assert(gap * gap <= 1095216660225 * 1095216660225) by (nonlinear_arith)
                requires gap <= 1095216660225;
            if gap * gap > best_d {
                proof {
                    assert forall|k: int| up <= k < n implies best_d < dist(*q, means[#[trigger] order[k] as int]) by {
                        assert(red_at(means, order, up as int) <= red_at(means, order, k) || k == up);
                        lemma_red_gap(*q, means[order[k] as int], gap as int);
                    }
                }
                stop = true;
            } else {
                let d: u128 = distance(q, &self.means[c], self.count);
                if d < best_d || (d == best_d && c < best) {
                    best = c;
                    best_d = d;
                }
                up = up + 1;
            }
        }
        // walk down from `start` likewise
        let mut down: usize = start;
        let mut stop_down: bool = false;
        while down > 0 && !stop_down
            invariant
                self.wf(),
                n == means.len(),
                means == self.means@,
                order == self.order@,
                position == self.position@,
                q.count == self.count,
                q.r <= 255 * q.count,
                q.g <= 255 * q.count,
                q.b <= 255 * q.count,
                0 <= down <= start <= up <= n,
                forall|k: int| 0 <= k < start ==> #[trigger] red_at(means, order, k) < q.r,
                best < n,
                best_d == dist(*q, means[best as int]),
                forall|k: int| down <= k < up ==> no_worse(means, *q, best as int, #[trigger] order[k] as int),
                forall|k: int| up <= k < n ==> best_d < dist(*q, means[#[trigger] order[k] as int]),
                stop_down ==> forall|k: int| 0 <= k < down ==> best_d < dist(*q, means[#[trigger] order[k] as int]),
            decreases down + if stop_down { 0int } else { 1int },
        {
            let c: usize = self.order[down - 1];
            assert(red_at(means, order, down - 1) < q.r);
            let gap: u128 = (q.r - self.means[c].r) as u128;
            assert(gap * gap <= 1095216660225 * 1095216660225) by (nonlinear_arith)
                requires gap <= 1095216660225;
            if gap * gap > best_d {
                proof {
                    assert forall|k: int| 0 <= k < down implies best_d < dist(*q, means[#[trigger] order[k] as int]) by {
                        assert(red_at(means, order, k) <= red_at(means, order, down - 1) || k == down - 1);
                        lemma_red_gap(*q, means[order[k] as int], gap as int);
                    }
                }
                stop_down = true;
            } else {
                let d: u128 = distance(q, &self.means[c], self.count);
                if d < best_d || (d == best_d && c < best) {
                    best = c;
                    best_d = d;
                }
                down = down - 1;
            }
        }
        proof {
            assert forall|j: int| 0 <= j < n implies no_worse(means, *q, best as int, j)
                || best_d < dist(*q, #[trigger] means[j]) by {
                let k = position[j];
                assert(order[k] == j);
                if k < down {
                    assert(best_d < dist(*q, means[order[k] as int]));
                } else if k < up {
                    assert(no_worse(means, *q, best as int, order[k] as int));
                } else {
                    assert(best_d < dist(*q, means[order[k] as int]));
                }
            }
            assert forall|j: int| 0 <= j < n implies dist(*q, means[best as int]) <= #[trigger] dist(*q, means[j]) by {
                assert(no_worse(means, *q, best as int, j) || best_d < dist(*q, means[j]));
            }
            assert forall|j: int| 0 <= j < best implies dist(*q, means[best as int]) < #[trigger] dist(*q, means[j]) by {
                assert(no_worse(means, *q, best as int, j) || best_d < dist(*q, means[j]));
            }
        }
        Ok(best)
    }
}

fn abs_diff(a: u64, b: u64) -> (r: u64)
    ensures
        r == if a >= b { a - b } else { b - a },
{
    if a >= b {
        a - b
    } else {
        b - a
    }
}

fn distance(q: &MeanColor, e: &MeanColor, count: u64) -> (r: u128)
    requires
        count <= u32::MAX,
        q.r <= 255 * count,
        q.g <= 255 * count,
        q.b <= 255 * count,
        e.r <= 255 * count,
        e.g <= 255 * count,
        e.b <= 255 * count,
    ensures
        r == dist(*q, *e),
{
    let dr = abs_diff(q.r, e.r) as u128;
    let dg = abs_diff(q.g, e.g) as u128;
    let db = abs_diff(q.b, e.b) as u128;
    let m: u128 = 1095216660225;
    assert(dr * dr <= m * m) by (nonlinear_arith) requires dr <= m;
    assert(dg * dg <= m * m) by (nonlinear_arith) requires dg <= m;
    assert(db * db <= m * m) by (nonlinear_arith) requires db <= m;
    assert((q.r - e.r) * (q.r - e.r) == dr * dr) by (nonlinear_arith)
        requires dr == q.r - e.r || dr == e.r - q.r;
    assert((q.g - e.g) * (q.g - e.g) == dg * dg) by (nonlinear_arith)
        requires dg == q.g - e.g || dg == e.g - q.g;
    assert((q.b - e.b) * (q.b - e.b) == db * db) by (nonlinear_arith)
        requires db == q.b - e.b || db == e.b - q.b;
    dr * dr + dg * dg + db * db
}

/// The entry indices of `means` sorted by red sum (insertion order among
/// equal sums), with where each index landed.
fn order_by_red(means: &Vec<MeanColor>) -> (r: (Vec<usize>, Ghost<Seq<int>>))
    ensures
        is_ordering(r.0@, r.1@, means@.len() as int),
        sorted_by_red(means@, r.0@),
{
    let n: usize = means.len();
    let mut order: Vec<usize> = Vec::new();
    let ghost mut position: Seq<int> = Seq::empty();
    let mut i: usize = 0;
    while i < n
        invariant
            n == means@.len(),
            i <= n,
            is_ordering(order@, position, i as int),
            sorted_by_red(means@, order@),
        decreases n - i,
    {
        let key: u64 = means[i].r;
        let mut p: usize = 0;
        while p < i && means[order[p]].r <= key
            invariant
                n == means@.len(),
                i < n,
                p <= i,
                is_ordering(order@, position, i as int),
                forall|k: int| 0 <= k < p ==> #[trigger] red_at(means@, order@, k) <= key,
            decreases i - p,
        {
            p = p + 1;
        }
        let ghost old_order = order@;
        let ghost old_position = position;
        proof {
            assert forall|k: int| p <= k < i implies #[trigger] red_at(means@, old_order, k) > key by {
                assert(red_at(means@, old_order, p as int) <= red_at(means@, old_order, k) || k == p);
            }
        }
        order.insert(p, i);
        proof {
            position = Seq::new(
                (i + 1) as nat,
                |j: int|
                    if j == i {
                        p as int
                    } else if old_position[j] >= p {
                        old_position[j] + 1
                    } else {
                        old_position[j]
                    },
            );
            assert forall|j: int| 0 <= j < i + 1 implies 0 <= #[trigger] position[j] < i + 1
                && order@[position[j]] == j by {
                if j < i {
                    assert(old_order[old_position[j]] == j);
                }
            }
            assert forall|k: int| 0 <= k < i + 1 implies (#[trigger] order@[k]) < i + 1 by {
                if k < p {
                    assert(order@[k] == old_order[k]);
                } else if k > p {
                    assert(order@[k] == old_order[k - 1]);
                }
            }
            assert forall|a: int, b: int|
                0 <= a < b < order@.len() implies #[trigger] red_at(means@, order@, a)
                <= #[trigger] red_at(means@, order@, b) by {
                let ra = red_at(means@, order@, a);
                let rb = red_at(means@, order@, b);
                if b < p {
                    assert(ra == red_at(means@, old_order, a));
                    assert(rb == red_at(means@, old_order, b));
                } else if b == p {
                    assert(ra == red_at(means@, old_order, a));
                } else if a < p {
                    assert(ra == red_at(means@, old_order, a));
                    assert(rb == red_at(means@, old_order, b - 1));
                } else if a == p {
                    assert(rb == red_at(means@, old_order, b - 1));
                } else {
                    assert(ra == red_at(means@, old_order, a - 1));
                    assert(rb == red_at(means@, old_order, b - 1));
                }
            }
        }
        i = i + 1;
    }
    (order, Ghost(position))
}

} // verus!
