use vstd::prelude::*;

use crate::color::Color;
use crate::geometry::{
    clamp, clamp_spec, div_away, div_away_from_zero, div_toward_zero, div_trunc, floor_sqrt, isqrt, limit_magnitude, limit_spec,
    scale_to_length, scaled_spec, Vec2, MAX_COORD, UNIT,
};

verus! {

/// Largest population a system holds; splitting stops there.
pub const MAX_PARTICLES: usize = 16777216;

/// Largest influence radius (fixed-point units).
pub const MAX_RADIUS: i64 = 1048576;

/// Largest pressure per axis: two world units.
pub const PRESSURE_CAP: i64 = 512;

/// Half the side of the square whose perimeter gives the seeding directions.
pub const RING_HALF_SIDE: i64 = 65536;

/// Neighbor-count threshold of the splitting rule used by default.
pub const DEFAULT_SPLIT_THRESHOLD: usize = 16;

/// Split probability used by default: a roll below this value (out of 2^32) splits.
pub const DEFAULT_SPLIT_CHANCE: u32 = 214748365;

/// Why a request was refused.
#[derive(Clone, Copy, Debug, PartialEq, Eq, Structural)]
pub enum SystemError {
    InvalidArgument,
}

/// A read-only copy of what a renderer draws: positions, colors and links,
/// indexed by particle id.
pub struct Snapshot {
    pub positions: Vec<Vec2>,
    pub colors: Vec<Color>,
    pub links: Vec<(usize, usize)>,
}

/// A growing ring of particles. Particle ids are offsets into parallel
/// arrays; each particle is linked to a predecessor and a successor, and the
/// links form one or more disjoint cycles.
pub struct ParticleSystem {
    particle_radius: i64,
    influence_radius: i64,
    split_threshold: usize,
    split_chance: u32,
    positions: Vec<Vec2>,
    colors: Vec<Color>,
    links: Vec<(usize, usize)>,
    pressures: Vec<Vec2>,
    attractions: Vec<Vec2>,
    neighbor_counts: Vec<usize>,
}

/// Predecessor of position `k` on a ring of `c` positions.
pub open spec fn ring_prev(c: int, k: int) -> int {
    if k == 0 {
        c - 1
    } else {
        k - 1
    }
}

/// Successor of position `k` on a ring of `c` positions.
pub open spec fn ring_next(c: int, k: int) -> int {
    if k + 1 == c {
        0
    } else {
        k + 1
    }
}

/// The point at parameter `k / n` along the perimeter of the axis-aligned
/// square of half side `RING_HALF_SIDE`, starting at the middle of its right
/// side and turning counter-clockwise.
pub open spec fn perimeter_point(n: int, k: int) -> (int, int) {
    let h = RING_HALF_SIDE as int;
    let t = k * (8 * h) / n;
    if t < h {
        (h, t)
    } else if t < 3 * h {
        (2 * h - t, h)
    } else if t < 5 * h {
        (-h, 4 * h - t)
    } else if t < 7 * h {
        (t - 6 * h, -h)
    } else {
        (h, t - 8 * h)
    }
}

/// Seeding position of particle `k` of `n` on a circle of the given radius
/// around the origin.
pub open spec fn ring_point(n: int, k: int, radius: int) -> Vec2 {
    let d = perimeter_point(n, k);
    let s = scaled_spec(d.0, d.1, radius);
    Vec2 { x: s.0 as i64, y: s.1 as i64 }
}

/// Squared distance between two points.
pub open spec fn dist2(a: Vec2, b: Vec2) -> int {
    (a.x - b.x) * (a.x - b.x) + (a.y - b.y) * (a.y - b.y)
}

/// Particle `j` is a neighbor of particle `i`: another particle, not one of
/// `i`'s two links, within distance `r`.
pub open spec fn is_neighbor(
    ps: Seq<Vec2>,
    links: Seq<(usize, usize)>,
    r: int,
    i: int,
    j: int,
) -> bool {
    &&& j != i
    &&& j != links[i].0
    &&& j != links[i].1
    &&& dist2(ps[i], ps[j]) <= r * r
}

/// The neighbors of particle `i` among the ids `0..k`, in increasing order.
pub open spec fn neighbors_upto(
    ps: Seq<Vec2>,
    links: Seq<(usize, usize)>,
    r: int,
    i: int,
    k: int,
) -> Seq<usize>
    decreases k,
{
    if k <= 0 {
        Seq::empty()
    } else {
        let s = neighbors_upto(ps, links, r, i, k - 1);
        if is_neighbor(ps, links, r, i, k - 1) {
            s.push((k - 1) as usize)
        } else {
            s
        }
    }
}

/// The neighbor list holds exactly the neighbors below `k`, each once, in
/// increasing order.
pub proof fn lemma_neighbors_upto(
    ps: Seq<Vec2>,
    links: Seq<(usize, usize)>,
    r: int,
    i: int,
    k: int,
)
    requires
        0 <= k <= usize::MAX + 1,
    ensures
        neighbors_upto(ps, links, r, i, k).len() <= k,
        forall|m: int|
            0 <= m < neighbors_upto(ps, links, r, i, k).len() ==> {
                let j = #[trigger] neighbors_upto(ps, links, r, i, k)[m];
                &&& j < k
                &&& is_neighbor(ps, links, r, i, j as int)
            },
        forall|a: int, b: int|
            0 <= a < b < neighbors_upto(ps, links, r, i, k).len() ==> #[trigger] neighbors_upto(
                ps,
                links,
                r,
                i,
                k,
            )[a] < #[trigger] neighbors_upto(ps, links, r, i, k)[b],
        forall|j: int|
            0 <= j < k && is_neighbor(ps, links, r, i, j) ==> neighbors_upto(
                ps,
                links,
                r,
                i,
                k,
            ).contains(j as usize),
    decreases k,
{
    if k > 0 {
        lemma_neighbors_upto(ps, links, r, i, k - 1);
        let s = neighbors_upto(ps, links, r, i, k - 1);
        let t = neighbors_upto(ps, links, r, i, k);
        assert forall|j: int| 0 <= j < k && is_neighbor(ps, links, r, i, j) implies t.contains(
            j as usize,
        ) by {
            if j < k - 1 {
                assert(s.contains(j as usize));
                let m = choose|m: int| 0 <= m < s.len() && s[m] == j as usize;
                assert(t[m] == s[m]);
            } else {
                assert(t[t.len() - 1] == j as usize);
            }
        }
    }
}

/// No particle is listed as its own neighbor, nor are its two links.
pub proof fn lemma_neighbors_exclude(
    ps: Seq<Vec2>,
    links: Seq<(usize, usize)>,
    r: int,
    i: int,
    n: int,
)
    requires
        0 <= n <= usize::MAX,
    ensures
        forall|m: int|
            0 <= m < neighbors_upto(ps, links, r, i, n).len() ==> {
                let j = #[trigger] neighbors_upto(ps, links, r, i, n)[m];
                &&& j < n
                &&& j != i
                &&& j != links[i].0
                &&& j != links[i].1
            },
{
    lemma_neighbors_upto(ps, links, r, i, n);
}

/// Sum over the listed neighbors `j` of the offset `ps[i] - ps[j]`.
pub open spec fn offset_sum(ps: Seq<Vec2>, i: int, nb: Seq<usize>) -> (int, int)
    decreases nb.len(),
{
    if nb.len() == 0 {
        (0, 0)
    } else {
        let t = offset_sum(ps, i, nb.drop_last());
        let j = nb.last() as int;
        (t.0 + ps[i].x - ps[j].x, t.1 + ps[i].y - ps[j].y)
    }
}

/// Pull of particle `i` toward the midpoint of its two linked particles.
pub open spec fn attraction_spec(ps: Seq<Vec2>, links: Seq<(usize, usize)>, i: int) -> Vec2 {
    let a = ps[links[i].0 as int];
    let b = ps[links[i].1 as int];
    Vec2 {
        x: (div_trunc(a.x + b.x, 2) - ps[i].x) as i64,
        y: (div_trunc(a.y + b.y, 2) - ps[i].y) as i64,
    }
}

/// Push on particle `i` away from its neighbors: the sum of the offsets
/// from each neighbor, divided by half the influence radius (in world
/// units, rounding away from zero so that a non-zero sum never vanishes),
/// then limited to length `PRESSURE_CAP`.
pub open spec fn pressure_spec(ps: Seq<Vec2>, links: Seq<(usize, usize)>, r: int, i: int) -> Vec2 {
    let s = offset_sum(ps, i, neighbors_upto(ps, links, r, i, ps.len() as int));
    let l = limit_spec(
        div_away(2 * UNIT * s.0, r),
        div_away(2 * UNIT * s.1, r),
        PRESSURE_CAP as int,
    );
    Vec2 { x: l.0 as i64, y: l.1 as i64 }
}

/// Position of particle `i` after one step: three fifths of the attraction
/// and one fifth of the pressure are added, and the result is kept within
/// `MAX_COORD` on each axis.
pub open spec fn moved_spec(ps: Seq<Vec2>, links: Seq<(usize, usize)>, r: int, i: int) -> Vec2 {
    let a = attraction_spec(ps, links, i);
    let p = pressure_spec(ps, links, r, i);
    Vec2 {
        x: clamp_spec(ps[i].x + div_trunc(3 * a.x, 5) + div_trunc(p.x as int, 5), MAX_COORD as int) as i64,
        y: clamp_spec(ps[i].y + div_trunc(3 * a.y, 5) + div_trunc(p.y as int, 5), MAX_COORD as int) as i64,
    }
}

proof fn lemma_within_radius(dx: int, dy: int, r: int)
    requires
        dx * dx + dy * dy <= r * r,
        r >= 0,
    ensures
        -r <= dx <= r,
        -r <= dy <= r,
{
    assert(-r <= dx <= r) by (nonlinear_arith)
        requires
            dx * dx + dy * dy <= r * r,
            r >= 0,
    ;
    assert(-r <= dy <= r) by (nonlinear_arith)
        requires
            dx * dx + dy * dy <= r * r,
            r >= 0,
    ;
}

/// Length of a vector, rounded down.
pub open spec fn magnitude(v: Vec2) -> int {
    floor_sqrt(v.norm2())
}

/// Largest magnitude among the first `k` vectors; zero when `k` is zero.
pub open spec fn max_magnitude(vs: Seq<Vec2>, k: int) -> int
    decreases k,
{
    if k <= 0 {
        0
    } else {
        let m = max_magnitude(vs, k - 1);
        let v = magnitude(vs[k - 1]);
        if v > m {
            v
        } else {
            m
        }
    }
}

/// The largest magnitude bounds every one of the first `k`, and depends on
/// those `k` vectors alone.
pub proof fn lemma_max_magnitude(vs: Seq<Vec2>, ws: Seq<Vec2>, k: int)
    requires
        0 <= k <= vs.len(),
        k <= ws.len(),
        forall|j: int| 0 <= j < k ==> vs[j] == ws[j],
    ensures
        forall|j: int| 0 <= j < k ==> magnitude(#[trigger] vs[j]) <= max_magnitude(vs, k),
        max_magnitude(vs, k) == max_magnitude(ws, k),
    decreases k,
{
    if k > 0 {
        lemma_max_magnitude(vs, ws, k - 1);
    }
}

/// Largest of the first `k` neighbor counts; zero when `k` is zero.
pub open spec fn max_count(counts: Seq<usize>, k: int) -> int
    decreases k,
{
    if k <= 0 {
        0
    } else {
        let m = max_count(counts, k - 1);
        if counts[k - 1] > m {
            counts[k - 1] as int
        } else {
            m
        }
    }
}

/// The largest count bounds every one of the first `k`, and depends on
/// those `k` counts alone.
pub proof fn lemma_max_count(cs: Seq<usize>, ds: Seq<usize>, k: int)
    requires
        0 <= k <= cs.len(),
        k <= ds.len(),
        forall|j: int| 0 <= j < k ==> cs[j] == ds[j],
    ensures
        forall|j: int| 0 <= j < k ==> #[trigger] cs[j] <= max_count(cs, k),
        max_count(cs, k) == max_count(ds, k),
        0 <= max_count(cs, k),
    decreases k,
{
    if k > 0 {
        lemma_max_count(cs, ds, k - 1);
    }
}

/// Edge `e` asks to split: the neighbor counts of its two ends add up to
/// less than `threshold`, and its roll falls below `chance`.
pub open spec fn wants_split(
    counts: Seq<usize>,
    links: Seq<(usize, usize)>,
    threshold: usize,
    chance: u32,
    rolls: Seq<u32>,
    e: int,
) -> bool {
    &&& counts[e] + counts[links[e].1 as int] < threshold
    &&& rolls[e] < chance
}

/// Number of edges among `0..k` that ask to split.
pub open spec fn split_votes(
    counts: Seq<usize>,
    links: Seq<(usize, usize)>,
    threshold: usize,
    chance: u32,
    rolls: Seq<u32>,
    k: int,
) -> nat
    decreases k,
{
    if k <= 0 {
        0
    } else {
        split_votes(counts, links, threshold, chance, rolls, k - 1) + if wants_split(
            counts,
            links,
            threshold,
            chance,
            rolls,
            k - 1,
        ) {
            1nat
        } else {
            0nat
        }
    }
}

pub proof fn lemma_split_votes_bound(
    counts: Seq<usize>,
    links: Seq<(usize, usize)>,
    threshold: usize,
    chance: u32,
    rolls: Seq<u32>,
    k: int,
)
    requires
        0 <= k,
    ensures
        split_votes(counts, links, threshold, chance, rolls, k) <= k,
    decreases k,
{
    if k > 0 {
        lemma_split_votes_bound(counts, links, threshold, chance, rolls, k - 1);
    }
}

/// Maps `num` in `-1..=max` onto `0..max`, wrapping at both ends.
pub fn wrap(num: i32, max: i32) -> (r: usize)
    requires
        0 < max,
        -1 <= num <= max,
    ensures
        r == (if num < 0 {
            max - 1
        } else if num == max {
            0
        } else {
            num as int
        }),
{
    let wrapped = if num < 0 {
        max - 1
    } else if num == max {
        0
    } else {
        num
    };
    wrapped as usize
}

fn perimeter_direction(n: i64, k: i64) -> (r: (i128, i128))
    requires
        0 <= k < n <= MAX_PARTICLES,
    ensures
        r.0 as int == perimeter_point(n as int, k as int).0,
        r.1 as int == perimeter_point(n as int, k as int).1,
        -RING_HALF_SIDE <= r.0 <= RING_HALF_SIDE,
        -RING_HALF_SIDE <= r.1 <= RING_HALF_SIDE,
        r.0 != 0 || r.1 != 0,
{
    let h: i128 = RING_HALF_SIDE as i128;
    proof {
        assert(k * (8 * h) <= n * (8 * h)) by (nonlinear_arith)
            requires
                0 <= k < n,
                h > 0,
        ;
        assert(k * (8 * h) < n * (8 * h)) by (nonlinear_arith)
            requires
                0 <= k < n,
                h > 0,
        ;
        assert(n * (8 * h) == (8 * h) * n) by (nonlinear_arith);
        vstd::arithmetic::div_mod::lemma_div_pos_is_pos(k * (8 * h), n as int);
        vstd::arithmetic::div_mod::lemma_div_by_multiple_is_strongly_ordered(
            k * (8 * h),
            n * (8 * h),
            8 * h,
            n as int,
        );
        assert(n * (8 * h) == (8 * h) * n) by (nonlinear_arith);
        vstd::arithmetic::div_mod::lemma_div_by_multiple((8 * h), n as int);
    }
    proof {
        assert(k * (8 * h) <= 0x100_0000 * 0x8_0000) by (nonlinear_arith)
            requires
                0 <= k < n <= 0x100_0000,
                h == 0x1_0000,
        ;
    }
    let t: i128 = (k as i128) * (8 * h) / (n as i128);
    if t < h {
        (h, t)
    } else if t < 3 * h {
        (2 * h - t, h)
    } else if t < 5 * h {
        (-h, 4 * h - t)
    } else if t < 7 * h {
        (t - 6 * h, -h)
    } else {
        (h, t - 8 * h)
    }
}

impl ParticleSystem {
    pub closed spec fn positions_view(&self) -> Seq<Vec2> {
        self.positions@
    }

    pub closed spec fn colors_view(&self) -> Seq<Color> {
        self.colors@
    }

    pub closed spec fn links_view(&self) -> Seq<(usize, usize)> {
        self.links@
    }

    pub closed spec fn pressures_view(&self) -> Seq<Vec2> {
        self.pressures@
    }

    pub closed spec fn attractions_view(&self) -> Seq<Vec2> {
        self.attractions@
    }

    pub closed spec fn counts_view(&self) -> Seq<usize> {
        self.neighbor_counts@
    }

    pub closed spec fn spec_influence_radius(&self) -> int {
        self.influence_radius as int
    }

    pub closed spec fn spec_particle_radius(&self) -> int {
        self.particle_radius as int
    }

    pub closed spec fn spec_split_chance(&self) -> u32 {
        self.split_chance
    }

    pub closed spec fn spec_split_threshold(&self) -> usize {
        self.split_threshold
    }

    /// Number of particles.
    pub open spec fn spec_len(&self) -> nat {
        self.positions_view().len()
    }

    pub open spec fn pos_at(&self, i: int) -> Vec2 {
        self.positions_view()[i]
    }

    pub open spec fn color_at(&self, i: int) -> Color {
        self.colors_view()[i]
    }

    /// Predecessor of particle `i`.
    pub open spec fn prev_at(&self, i: int) -> int {
        self.links_view()[i].0 as int
    }

    /// Successor of particle `i`.
    pub open spec fn next_at(&self, i: int) -> int {
        self.links_view()[i].1 as int
    }

    pub open spec fn pressure_at(&self, i: int) -> Vec2 {
        self.pressures_view()[i]
    }

    pub open spec fn attraction_at(&self, i: int) -> Vec2 {
        self.attractions_view()[i]
    }

    pub open spec fn neighbor_count_at(&self, i: int) -> nat {
        self.counts_view()[i] as nat
    }

    /// The arrays agree in length, the links form disjoint cycles of length
    /// at least three, and every stored quantity lies within its bound.
    #[verifier::opaque]
    pub closed spec fn wf(&self) -> bool {
        let n = self.positions@.len();
        &&& self.colors@.len() == n
        &&& self.links@.len() == n
        &&& self.pressures@.len() == n
        &&& self.attractions@.len() == n
        &&& self.neighbor_counts@.len() == n
        &&& n <= MAX_PARTICLES
        &&& 0 < self.influence_radius <= MAX_RADIUS
        &&& 0 <= self.particle_radius
        &&& forall|i: int|
            0 <= i < n ==> {
                let (p, q) = #[trigger] self.links@[i];
                &&& p < n
                &&& q < n
                &&& p != i
                &&& q != i
                &&& p != q
                &&& self.links@[p as int].1 == i
                &&& self.links@[q as int].0 == i
            }
        &&& forall|i: int| 0 <= i < n ==> (#[trigger] self.positions@[i]).in_box(MAX_COORD as int)
        &&& forall|i: int|
            0 <= i < n ==> (#[trigger] self.pressures@[i]).in_box(PRESSURE_CAP as int)
        &&& forall|i: int|
            0 <= i < n ==> (#[trigger] self.attractions@[i]).in_box(2 * MAX_COORD)
        &&& forall|i: int| 0 <= i < n ==> #[trigger] self.neighbor_counts@[i] <= n
    }

    /// An empty system with the given influence and particle radii
    /// (fixed-point units) and the default splitting rule.
    pub fn with_radii(influence_radius: i64, particle_radius: i64) -> (r: Self)
        requires
            0 < influence_radius <= MAX_RADIUS,
            0 <= particle_radius,
        ensures
            r.wf(),
            r.spec_len() == 0,
            r.spec_influence_radius() == influence_radius,
            r.spec_particle_radius() == particle_radius,
            r.spec_split_threshold() == DEFAULT_SPLIT_THRESHOLD,
            r.spec_split_chance() == DEFAULT_SPLIT_CHANCE,
    {
        proof {
            reveal(ParticleSystem::wf);
        }
        ParticleSystem {
            particle_radius,
            influence_radius,
            split_threshold: DEFAULT_SPLIT_THRESHOLD,
            split_chance: DEFAULT_SPLIT_CHANCE,
            positions: Vec::new(),
            colors: Vec::new(),
            links: Vec::new(),
            pressures: Vec::new(),
            attractions: Vec::new(),
            neighbor_counts: Vec::new(),
        }
    }

    /// An empty system with influence radius 12 and particle radius 4 (world units).
    pub fn new() -> (r: Self)
        ensures
            r.wf(),
            r.spec_len() == 0,
            r.spec_influence_radius() == 12 * UNIT,
            r.spec_particle_radius() == 4 * UNIT,
            r.spec_split_threshold() == DEFAULT_SPLIT_THRESHOLD,
            r.spec_split_chance() == DEFAULT_SPLIT_CHANCE,
    {
        ParticleSystem::with_radii(12 * UNIT, 4 * UNIT)
    }

    /// Appends one particle at rest, with no recorded neighbors.
    fn add_particle(&mut self, position: Vec2, color: Color, links: (usize, usize))
        requires
            old(self).positions@.len() < MAX_PARTICLES,
        ensures
            final(self).positions@ == old(self).positions@.push(position),
            final(self).colors@ == old(self).colors@.push(color),
            final(self).links@ == old(self).links@.push(links),
            final(self).pressures@ == old(self).pressures@.push(Vec2 { x: 0, y: 0 }),
            final(self).attractions@ == old(self).attractions@.push(Vec2 { x: 0, y: 0 }),
            final(self).neighbor_counts@ == old(self).neighbor_counts@.push(0),
            final(self).particle_radius == old(self).particle_radius,
            final(self).influence_radius == old(self).influence_radius,
            final(self).split_threshold == old(self).split_threshold,
            final(self).split_chance == old(self).split_chance,
    {
        self.positions.push(position);
        self.colors.push(color);
        self.links.push(links);
        self.pressures.push(Vec2::zero());
        self.attractions.push(Vec2::zero());
        self.neighbor_counts.push(0);
    }

    /// Every link points at an existing particle, and following a link and
    /// then the opposite link leads back.
    pub open spec fn links_closed(&self) -> bool {
        forall|i: int|
            0 <= i < self.spec_len() ==> {
                &&& 0 <= #[trigger] self.prev_at(i) < self.spec_len()
                &&& 0 <= self.next_at(i) < self.spec_len()
                &&& self.next_at(self.prev_at(i)) == i
                &&& self.prev_at(self.next_at(i)) == i
            }
    }

    /// Particle `i` is the same in both systems.
    pub open spec fn same_particle(&self, other: &Self, i: int) -> bool {
        &&& self.positions_view()[i] == other.positions_view()[i]
        &&& self.colors_view()[i] == other.colors_view()[i]
        &&& self.links_view()[i] == other.links_view()[i]
        &&& self.pressures_view()[i] == other.pressures_view()[i]
        &&& self.attractions_view()[i] == other.attractions_view()[i]
        &&& self.counts_view()[i] == other.counts_view()[i]
    }

    /// Both systems have the same radii and splitting rule.
    pub open spec fn same_config(&self, other: &Self) -> bool {
        &&& self.spec_particle_radius() == other.spec_particle_radius()
        &&& self.spec_influence_radius() == other.spec_influence_radius()
        &&& self.spec_split_threshold() == other.spec_split_threshold()
        &&& self.spec_split_chance() == other.spec_split_chance()
    }

    /// Particle `base + k` is particle `k` of a seeded ring of `count`
    /// particles of the given radius, colored from `rolls`.
    pub open spec fn seeded_particle(
        &self,
        base: int,
        count: int,
        radius: int,
        rolls: Seq<u32>,
        k: int,
    ) -> bool {
        &&& self.positions_view()[base + k] == ring_point(count, k, radius)
        &&& self.links_view()[base + k] == (
            (base + ring_prev(count, k)) as usize,
            (base + ring_next(count, k)) as usize,
        )
        &&& self.colors_view()[base + k] == Color::seeded_spec(rolls[k])
        &&& self.pressures_view()[base + k] == Vec2 { x: 0, y: 0 }
        &&& self.attractions_view()[base + k] == Vec2 { x: 0, y: 0 }
        &&& self.counts_view()[base + k] == 0
    }

    /// The first `upto` particles from `base` on are those of a seeded ring
    /// of `count` particles of the given radius, colored from `rolls`.
    pub open spec fn is_seeded_ring(
        &self,
        base: int,
        upto: int,
        count: int,
        radius: int,
        rolls: Seq<u32>,
    ) -> bool {
        forall|k: int|
            0 <= k < upto ==> #[trigger] self.seeded_particle(base, count, radius, rolls, k)
    }

    /// Seeds `count` particles on a circle of `radius` centred on the origin,
    /// linked into a new cycle in id order. Particle `k` sits in the direction
    /// of the point `k / count` of the way round the perimeter of a square
    /// (`perimeter_point`), rescaled to `radius`: the directions are evenly
    /// spaced in angle for 4 and 8 particles and close to even otherwise
    /// (`ring_point`: each axis rounded toward zero, never beyond `radius`).
    /// Particle `k` takes
    /// its color from `rolls[k]`. Refused when `count < 3`, when `radius` is
    /// not in `1..=MAX_COORD`, or when the population would pass
    /// `MAX_PARTICLES`; the system is then unchanged.
    #[verifier::spinoff_prover]
    #[verifier::rlimit(40)]
    pub fn spawn_particles(&mut self, count: usize, radius: i64, rolls: &Vec<u32>) -> (r: Result<
        (),
        SystemError,
    >)
        requires
            old(self).wf(),
            rolls@.len() >= count,
        ensures
            final(self).wf(),
            final(self).links_closed(),
            final(self).same_config(old(self)),
            r is Err <==> (count < 3 || radius <= 0 || radius > MAX_COORD || old(self).spec_len()
                + count > MAX_PARTICLES),
            r is Err ==> r == Err::<(), SystemError>(SystemError::InvalidArgument),
            r is Err ==> *final(self) == *old(self),
            r is Ok ==> final(self).spec_len() == old(self).spec_len() + count,
            r is Ok ==> forall|i: int|
                0 <= i < old(self).spec_len() ==> #[trigger] final(self).same_particle(old(self), i),
            r is Ok ==> final(self).is_seeded_ring(
                old(self).spec_len() as int,
                count as int,
                count as int,
                radius as int,
                rolls@,
            ),
    {
        proof {
            reveal(ParticleSystem::wf);
        }
        proof {
            lemma_links_closed(self);
        }
        if count < 3 || radius <= 0 || radius > MAX_COORD || count > MAX_PARTICLES
            - self.positions.len() {
            return Err(SystemError::InvalidArgument);
        }
        let base = self.positions.len();
        let mut k: usize = 0;
        while k < count
            invariant
                old(self).wf(),
                base == old(self).spec_len(),
                base + count <= MAX_PARTICLES,
                3 <= count,
                0 < radius <= MAX_COORD,
                rolls@.len() >= count,
                k <= count,
                self.positions@.len() == base + k,
                self.colors@.len() == base + k,
                self.links@.len() == base + k,
                self.pressures@.len() == base + k,
                self.attractions@.len() == base + k,
                self.neighbor_counts@.len() == base + k,
                self.same_config(old(self)),
                forall|i: int| 0 <= i < base ==> #[trigger] self.same_particle(old(self), i),
                forall|j: int|
                    0 <= j < k ==> (#[trigger] self.positions@[base + j]).in_box(radius as int),
                self.is_seeded_ring(base as int, k as int, count as int, radius as int, rolls@),
            decreases count - k,
        {
            let d = perimeter_direction(count as i64, k as i64);
            let s = scale_to_length(d.0, d.1, radius as i128);
            let position = Vec2 { x: s.0 as i64, y: s.1 as i64 };
            let prev = base + wrap(k as i32 - 1, count as i32);
            let next = base + wrap(k as i32 + 1, count as i32);
            let color = Color::seeded(rolls[k]);
            let ghost before = *self;
            self.add_particle(position, color, (prev, next));
            proof {
                assert forall|i: int| 0 <= i < base implies #[trigger] self.same_particle(
                    old(self),
                    i,
                ) by {
                    assert(before.same_particle(old(self), i));
                }
                assert forall|j: int| 0 <= j < k + 1 implies #[trigger] self.seeded_particle(
                    base as int,
                    count as int,
                    radius as int,
                    rolls@,
                    j,
                ) by {
                    if j < k {
                        assert(before.seeded_particle(
                            base as int,
                            count as int,
                            radius as int,
                            rolls@,
                            j,
                        ));
                    }
                }
            }
            k += 1;
        }
        proof {
            let n = base + count;
            assert forall|i: int| 0 <= i < n implies {
                let (p, q) = #[trigger] self.links@[i];
                &&& p < n
                &&& q < n
                &&& p != i
                &&& q != i
                &&& p != q
                &&& self.links@[p as int].1 == i
                &&& self.links@[q as int].0 == i
            } by {
                if i < base {
                    assert(self.same_particle(old(self), i));
                    let (p, q) = old(self).links@[i];
                    assert(self.same_particle(old(self), p as int));
                    assert(self.same_particle(old(self), q as int));
                } else {
                    let j = i - base;
                    assert(self.seeded_particle(base as int, count as int, radius as int, rolls@, j));
                    let jp = ring_prev(count as int, j);
                    let jn = ring_next(count as int, j);
                    assert(self.seeded_particle(base as int, count as int, radius as int, rolls@, jp));
                    assert(self.seeded_particle(base as int, count as int, radius as int, rolls@, jn));
                }
            }
            assert forall|i: int| 0 <= i < n implies (#[trigger] self.positions@[i]).in_box(
                MAX_COORD as int,
            ) by {
                if i < base {
                    assert(self.same_particle(old(self), i));
                } else {
                    assert(self.positions@[base + (i - base)].in_box(radius as int));
                }
            }
            assert forall|i: int| 0 <= i < n implies (#[trigger] self.pressures@[i]).in_box(
                PRESSURE_CAP as int,
            ) by {
                if i < base {
                    assert(self.same_particle(old(self), i));
                } else {
                    assert(self.seeded_particle(
                        base as int,
                        count as int,
                        radius as int,
                        rolls@,
                        i - base,
                    ));
                }
            }
            assert forall|i: int| 0 <= i < n implies (#[trigger] self.attractions@[i]).in_box(
                2 * MAX_COORD,
            ) by {
                if i < base {
                    assert(self.same_particle(old(self), i));
                } else {
                    assert(self.seeded_particle(
                        base as int,
                        count as int,
                        radius as int,
                        rolls@,
                        i - base,
                    ));
                }
            }
            assert forall|i: int| 0 <= i < n implies #[trigger] self.neighbor_counts@[i] <= n by {
                if i < base {
                    assert(self.same_particle(old(self), i));
                } else {
                    assert(self.seeded_particle(
                        base as int,
                        count as int,
                        radius as int,
                        rolls@,
                        i - base,
                    ));
                }
            }
        }
        proof {
            assert(self.wf());
            lemma_links_closed(self);
        }
        Ok(())
    }

    /// The neighbors of particle `i`, in increasing id order.
    pub open spec fn neighbors_of(&self, i: int) -> Seq<usize> {
        neighbors_upto(self.positions_view(), self.links_view(), self.spec_influence_radius(), i, self.positions_view().len() as int)
    }

    /// The ids `j`, in increasing order, of the particles other than `index`
    /// and its two links whose distance to `index` is at most the influence
    /// radius.
    #[verifier::spinoff_prover]
    #[verifier::rlimit(60)]
    pub fn get_neighbors_of_particle(&self, index: usize) -> (r: Vec<usize>)
        requires
            self.wf(),
            index < self.spec_len(),
        ensures
            r@ == self.neighbors_of(index as int),
            forall|m: int|
                0 <= m < r@.len() ==> {
                    &&& #[trigger] r@[m] < self.spec_len()
                    &&& r@[m] != index
                    &&& r@[m] != self.prev_at(index as int)
                    &&& r@[m] != self.next_at(index as int)
                },
    {
        proof {
            reveal(ParticleSystem::wf);
        }
        let n = self.positions.len();
        let r: i128 = self.influence_radius as i128;
        let (prev, next) = self.links[index];
        let pi = self.positions[index];
        let mut out: Vec<usize> = Vec::new();
        let mut j: usize = 0;
        while j < n
            invariant
                n == self.positions@.len(),
                n == self.links@.len(),
                forall|i: int|
                    0 <= i < n ==> (#[trigger] self.positions@[i]).in_box(MAX_COORD as int),
                0 < r <= MAX_RADIUS,
                index < n,
                r == self.influence_radius,
                (prev, next) == self.links@[index as int],
                pi == self.positions@[index as int],
                j <= n,
                out@ == neighbors_upto(self.positions@, self.links@, r as int, index as int, j as int),
            decreases n - j,
        {
            if j != index && j != prev && j != next {
                let pj = self.positions[j];
                let dx: i128 = pi.x as i128 - pj.x as i128;
                let dy: i128 = pi.y as i128 - pj.y as i128;
                proof {
                    assert(pi.in_box(MAX_COORD as int));
                    assert(pj.in_box(MAX_COORD as int));
                    crate::geometry::lemma_square_bound(dx as int, 2 * MAX_COORD);
                    crate::geometry::lemma_square_bound(dy as int, 2 * MAX_COORD);
                    crate::geometry::lemma_square_bound(r as int, MAX_RADIUS as int);
                }
                if dx * dx + dy * dy <= r * r {
                    out.push(j);
                }
            }
            j += 1;
        }
        proof {
            lemma_neighbors_exclude(self.positions@, self.links@, r as int, index as int, n as int);
        }
        out
    }

    /// The point where a particle is inserted on the edge from `p0` to `p1`:
    /// the edge's midpoint pushed by both endpoints' pressures.
    pub open spec fn split_point(&self, p0: int, p1: int) -> Vec2 {
        let a = self.positions_view()[p0];
        let b = self.positions_view()[p1];
        let pa = self.pressures_view()[p0];
        let pb = self.pressures_view()[p1];
        Vec2 {
            x: clamp_spec(div_trunc(a.x + b.x, 2) + pa.x + pb.x, MAX_COORD as int) as i64,
            y: clamp_spec(div_trunc(a.y + b.y, 2) + pa.y + pb.y, MAX_COORD as int) as i64,
        }
    }

    /// Particle `i` differs between the two systems at most in its links.
    pub open spec fn same_but_links(&self, other: &Self, i: int) -> bool {
        &&& self.positions_view()[i] == other.positions_view()[i]
        &&& self.colors_view()[i] == other.colors_view()[i]
        &&& self.pressures_view()[i] == other.pressures_view()[i]
        &&& self.attractions_view()[i] == other.attractions_view()[i]
        &&& self.counts_view()[i] == other.counts_view()[i]
    }

    /// Splits the edge from `p0` to its successor `p1`: a new particle with
    /// the next id goes between them, at `split_point(p0, p1)`, with the
    /// mean of their colors.
    #[verifier::spinoff_prover]
    #[verifier::rlimit(100)]
    pub fn split_at(&mut self, p0: usize, p1: usize)
        requires
            old(self).wf(),
            p0 < old(self).spec_len(),
            old(self).next_at(p0 as int) == p1,
            old(self).spec_len() < MAX_PARTICLES,
        ensures
            final(self).wf(),
            final(self).links_closed(),
            final(self).same_config(old(self)),
            final(self).spec_len() == old(self).spec_len() + 1,
            ({
                let q = old(self).spec_len() as int;
                &&& final(self).prev_at(q) == p0
                &&& final(self).next_at(q) == p1
                &&& final(self).next_at(p0 as int) == q
                &&& final(self).prev_at(p0 as int) == old(self).prev_at(p0 as int)
                &&& final(self).prev_at(p1 as int) == q
                &&& final(self).next_at(p1 as int) == old(self).next_at(p1 as int)
                &&& final(self).pos_at(q) == old(self).split_point(p0 as int, p1 as int)
                &&& final(self).color_at(q) == old(self).color_at(p0 as int).average_spec(
                    old(self).color_at(p1 as int),
                )
                &&& final(self).pressure_at(q) == Vec2 { x: 0, y: 0 }
                &&& final(self).attraction_at(q) == Vec2 { x: 0, y: 0 }
                &&& final(self).neighbor_count_at(q) == 0
            }),
            forall|i: int|
                0 <= i < old(self).spec_len() ==> #[trigger] final(self).same_but_links(old(self), i),
            forall|i: int|
                0 <= i < old(self).spec_len() && i != p0 && i != p1 ==> #[trigger] final(self).prev_at(i)
                    == old(self).prev_at(i) && final(self).next_at(i) == old(self).next_at(i),
    {
        proof {
            reveal(ParticleSystem::wf);
        }
        let n = self.positions.len();
        let a = self.positions[p0];
        let b = self.positions[p1];
        let pa = self.pressures[p0];
        let pb = self.pressures[p1];
        proof {
            assert(a.in_box(MAX_COORD as int));
            assert(b.in_box(MAX_COORD as int));
            assert(pa.in_box(PRESSURE_CAP as int));
            assert(pb.in_box(PRESSURE_CAP as int));
        }
        let x = clamp(
            div_toward_zero(a.x as i128 + b.x as i128, 2) + pa.x as i128 + pb.x as i128,
            MAX_COORD as i128,
        );
        let y = clamp(
            div_toward_zero(a.y as i128 + b.y as i128, 2) + pa.y as i128 + pb.y as i128,
            MAX_COORD as i128,
        );
        let color = self.colors[p0].average(&self.colors[p1]);
        let (prev0, _) = self.links[p0];
        let (_, next1) = self.links[p1];
        self.links[p0] = (prev0, n);
        self.links[p1] = (n, next1);
        let ghost mid = *self;
        self.add_particle(Vec2 { x: x as i64, y: y as i64 }, color, (p0, p1));
        proof {
            let m = n + 1;
            assert forall|i: int| 0 <= i < m implies {
                let (p, q) = #[trigger] self.links@[i];
                &&& p < m
                &&& q < m
                &&& p != i
                &&& q != i
                &&& p != q
                &&& self.links@[p as int].1 == i
                &&& self.links@[q as int].0 == i
            } by {
                if i < n {
                    let (p, q) = old(self).links@[i];
                    assert(old(self).links@[p as int].1 == i);
                    assert(old(self).links@[q as int].0 == i);
                }
            }
            assert forall|i: int| 0 <= i < m implies (#[trigger] self.positions@[i]).in_box(
                MAX_COORD as int,
            ) by {
                if i < n {
                    assert(old(self).positions@[i].in_box(MAX_COORD as int));
                }
            }
            assert forall|i: int| 0 <= i < m implies (#[trigger] self.pressures@[i]).in_box(
                PRESSURE_CAP as int,
            ) by {
                if i < n {
                    assert(old(self).pressures@[i].in_box(PRESSURE_CAP as int));
                }
            }
            assert forall|i: int| 0 <= i < m implies (#[trigger] self.attractions@[i]).in_box(
                2 * MAX_COORD,
            ) by {
                if i < n {
                    assert(old(self).attractions@[i].in_box(2 * MAX_COORD));
                }
            }
            assert forall|i: int| 0 <= i < m implies #[trigger] self.neighbor_counts@[i] <= m by {
                if i < n {
                    assert(old(self).neighbor_counts@[i] <= n);
                }
            }
        }
        proof {
            assert(self.wf());
            lemma_links_closed(self);
        }
    }

    /// Position of particle `i` after the next step's forces.
    pub open spec fn next_position(&self, i: int) -> Vec2 {
        moved_spec(self.positions_view(), self.links_view(), self.spec_influence_radius(), i)
    }

    /// Attraction that the next step records for particle `i`.
    pub open spec fn next_attraction(&self, i: int) -> Vec2 {
        attraction_spec(self.positions_view(), self.links_view(), i)
    }

    /// Sum of the offsets from particle `i` to each of its neighbors.
    pub open spec fn next_offset_sum(&self, i: int) -> (int, int) {
        offset_sum(self.positions_view(), i, self.neighbors_of(i))
    }

    /// Pressure that the next step records for particle `i`.
    pub open spec fn next_pressure(&self, i: int) -> Vec2 {
        pressure_spec(self.positions_view(), self.links_view(), self.spec_influence_radius(), i)
    }

    fn attraction_of(&self, i: usize) -> (r: Vec2)
        requires
            self.wf(),
            i < self.spec_len(),
        ensures
            r == self.next_attraction(i as int),
            r.in_box(2 * MAX_COORD),
    {
        proof {
            reveal(ParticleSystem::wf);
        }
        let (p, q) = self.links[i];
        let a = self.positions[p];
        let b = self.positions[q];
        let c = self.positions[i];
        proof {
            assert(a.in_box(MAX_COORD as int));
            assert(b.in_box(MAX_COORD as int));
            assert(c.in_box(MAX_COORD as int));
            crate::geometry::lemma_div_trunc_bounds(a.x + b.x, 2, MAX_COORD as int);
            crate::geometry::lemma_div_trunc_bounds(a.y + b.y, 2, MAX_COORD as int);
        }
        let x = div_toward_zero(a.x as i128 + b.x as i128, 2) - c.x as i128;
        let y = div_toward_zero(a.y as i128 + b.y as i128, 2) - c.y as i128;
        Vec2 { x: x as i64, y: y as i64 }
    }

    #[verifier::spinoff_prover]
    #[verifier::rlimit(60)]
    fn pressure_of(&self, i: usize, nb: &Vec<usize>) -> (r: Vec2)
        requires
            self.wf(),
            i < self.spec_len(),
            nb@ == self.neighbors_of(i as int),
        ensures
            r == self.next_pressure(i as int),
            r.in_box(PRESSURE_CAP as int),
            self.next_offset_sum(i as int).0 != 0 || self.next_offset_sum(i as int).1 != 0 ==> r.x
                != 0 || r.y != 0,
    {
        proof {
            reveal(ParticleSystem::wf);
        }
        let ghost ps = self.positions@;
        let ghost n = ps.len();
        let rad: i128 = self.influence_radius as i128;
        proof {
            lemma_neighbors_upto(ps, self.links@, rad as int, i as int, n as int);
        }
        let c = self.positions[i];
        let mut sx: i128 = 0;
        let mut sy: i128 = 0;
        let mut k: usize = 0;
        while k < nb.len()
            invariant
                ps == self.positions@,
                n == ps.len(),
                n <= MAX_PARTICLES,
                0 < rad <= MAX_RADIUS,
                forall|m: int| 0 <= m < n ==> (#[trigger] ps[m]).in_box(MAX_COORD as int),
                i < n,
                c == ps[i as int],
                rad == self.influence_radius,
                nb@ == self.neighbors_of(i as int),
                nb@.len() <= n,
                forall|m: int|
                    0 <= m < nb@.len() ==> {
                        let j = #[trigger] nb@[m];
                        &&& j < n
                        &&& is_neighbor(ps, self.links@, rad as int, i as int, j as int)
                    },
                k <= nb@.len(),
                (sx as int, sy as int) == offset_sum(ps, i as int, nb@.subrange(0, k as int)),
                -(k * rad) <= sx <= k * rad,
                -(k * rad) <= sy <= k * rad,
            decreases nb@.len() - k,
        {
            let j = nb[k];
            let pj = self.positions[j];
            let dx: i128 = c.x as i128 - pj.x as i128;
            let dy: i128 = c.y as i128 - pj.y as i128;
            proof {
                assert(is_neighbor(ps, self.links@, rad as int, i as int, j as int));
                assert(dist2(c, pj) <= rad * rad);
                assert(dx * dx + dy * dy <= rad * rad);
                lemma_within_radius(dx as int, dy as int, rad as int);
                assert(k * rad + rad == (k + 1) * rad) by (nonlinear_arith);
                assert((k + 1) * rad <= MAX_PARTICLES * MAX_RADIUS) by (nonlinear_arith)
                    requires
                        k + 1 <= MAX_PARTICLES,
                        0 < rad <= MAX_RADIUS,
                ;
                assert(nb@.subrange(0, k + 1).drop_last() =~= nb@.subrange(0, k as int));
            }
            sx = sx + dx;
            sy = sy + dy;
            k += 1;
        }
        proof {
            assert(nb@.subrange(0, k as int) =~= nb@);
            assert(-(512 * k) * rad <= 512 * sx <= (512 * k) * rad) by (nonlinear_arith)
                requires
                    -(k * rad) <= sx <= k * rad,
            ;
            assert(-(512 * k) * rad <= 512 * sy <= (512 * k) * rad) by (nonlinear_arith)
                requires
                    -(k * rad) <= sy <= k * rad,
            ;
            assert((512 * k) * rad <= 512 * 0x100_0000 * 0x10_0000) by (nonlinear_arith)
                requires
                    k <= 0x100_0000,
                    0 < rad <= 0x10_0000,
            ;
            crate::geometry::lemma_div_away_bounds(2 * UNIT * sx, rad as int, 512 * k);
            crate::geometry::lemma_div_away_bounds(2 * UNIT * sy, rad as int, 512 * k);
        }
        let scale: i128 = 2 * UNIT as i128;
        proof {
            assert(-0x20_0000_0000_0000 <= 512 * sx <= 0x20_0000_0000_0000) by (nonlinear_arith)
                requires
                    -(k * rad) <= sx <= k * rad,
                    k <= 0x100_0000,
                    0 < rad <= 0x10_0000,
            ;
            assert(-0x20_0000_0000_0000 <= 512 * sy <= 0x20_0000_0000_0000) by (nonlinear_arith)
                requires
                    -(k * rad) <= sy <= k * rad,
                    k <= 0x100_0000,
                    0 < rad <= 0x10_0000,
            ;
        }
        let px = div_away_from_zero(scale * sx, rad);
        let py = div_away_from_zero(scale * sy, rad);
        let l = limit_magnitude(px, py, PRESSURE_CAP as i128);
        Vec2 { x: l.0 as i64, y: l.1 as i64 }
    }

    /// Moves every particle by its attraction and pressure, all computed
    /// from the positions at the start of the pass, and records them.
    #[verifier::spinoff_prover]
    #[verifier::rlimit(60)]
    fn apply_forces(&mut self)
        requires
            old(self).wf(),
        ensures
            final(self).wf(),
            final(self).same_config(old(self)),
            final(self).spec_len() == old(self).spec_len(),
            final(self).links@ == old(self).links@,
            final(self).colors@ == old(self).colors@,
            forall|i: int|
                0 <= i < old(self).spec_len() ==> {
                    &&& #[trigger] final(self).positions@[i] == old(self).next_position(i)
                    &&& final(self).attractions@[i] == old(self).next_attraction(i)
                    &&& final(self).pressures@[i] == old(self).next_pressure(i)
                    &&& final(self).neighbor_counts@[i] == old(self).neighbors_of(i).len()
                },
            forall|i: int|
                0 <= i < old(self).spec_len() ==> #[trigger] old(self).next_offset_sum(i).0 != 0
                    || old(self).next_offset_sum(i).1 != 0 ==> old(self).next_pressure(i).x != 0
                    || old(self).next_pressure(i).y != 0,
    {
        proof {
            reveal(ParticleSystem::wf);
        }
        let n = self.positions.len();
        let mut positions: Vec<Vec2> = Vec::new();
        let mut attractions: Vec<Vec2> = Vec::new();
        let mut pressures: Vec<Vec2> = Vec::new();
        let mut counts: Vec<usize> = Vec::new();
        let mut i: usize = 0;
        while i < n
            invariant
                self.wf(),
                *self == *old(self),
                n == self.spec_len(),
                i <= n,
                positions@.len() == i,
                attractions@.len() == i,
                pressures@.len() == i,
                counts@.len() == i,
                forall|j: int|
                    0 <= j < i ==> #[trigger] positions@[j] == self.next_position(j)
                        && positions@[j].in_box(MAX_COORD as int),
                forall|j: int|
                    0 <= j < i ==> #[trigger] attractions@[j] == self.next_attraction(j)
                        && attractions@[j].in_box(2 * MAX_COORD),
                forall|j: int|
                    0 <= j < i ==> #[trigger] pressures@[j] == self.next_pressure(j)
                        && pressures@[j].in_box(PRESSURE_CAP as int),
                forall|j: int|
                    0 <= j < i ==> #[trigger] counts@[j] == self.neighbors_of(j).len() && counts@[j]
                        <= n,
                forall|j: int|
                    0 <= j < i ==> #[trigger] self.next_offset_sum(j).0 != 0
                        || self.next_offset_sum(j).1 != 0 ==> self.next_pressure(j).x != 0
                        || self.next_pressure(j).y != 0,
            decreases n - i,
        {
            let nb = self.get_neighbors_of_particle(i);
            proof {
                lemma_neighbors_upto(
                    self.positions@,
                    self.links@,
                    self.influence_radius as int,
                    i as int,
                    n as int,
                );
            }
            let att = self.attraction_of(i);
            let prs = self.pressure_of(i, &nb);
            proof {
                lemma_wf_particle(self, i as int);
            }
            let c = self.positions[i];
            let x = clamp(
                c.x as i128 + div_toward_zero(3 * att.x as i128, 5) + div_toward_zero(
                    prs.x as i128,
                    5,
                ),
                MAX_COORD as i128,
            );
            let y = clamp(
                c.y as i128 + div_toward_zero(3 * att.y as i128, 5) + div_toward_zero(
                    prs.y as i128,
                    5,
                ),
                MAX_COORD as i128,
            );
            let ghost pos0 = positions@;
            let ghost att0 = attractions@;
            let ghost prs0 = pressures@;
            let ghost cnt0 = counts@;
            let moved = Vec2 { x: x as i64, y: y as i64 };
            assert(moved == self.next_position(i as int));
            positions.push(moved);
            attractions.push(att);
            pressures.push(prs);
            counts.push(nb.len());
            proof {
                assert forall|j: int| 0 <= j < i + 1 implies #[trigger] positions@[j]
                    == self.next_position(j) && positions@[j].in_box(MAX_COORD as int) by {
                    if j < i {
                        assert(pos0[j] == positions@[j]);
                    }
                }
                assert forall|j: int| 0 <= j < i + 1 implies #[trigger] attractions@[j]
                    == self.next_attraction(j) && attractions@[j].in_box(2 * MAX_COORD) by {
                    if j < i {
                        assert(att0[j] == attractions@[j]);
                    }
                }
                assert forall|j: int| 0 <= j < i + 1 implies #[trigger] pressures@[j]
                    == self.next_pressure(j) && pressures@[j].in_box(PRESSURE_CAP as int) by {
                    if j < i {
                        assert(prs0[j] == pressures@[j]);
                    }
                }
                assert forall|j: int| 0 <= j < i + 1 implies #[trigger] counts@[j]
                    == self.neighbors_of(j).len() && counts@[j] <= n by {
                    if j < i {
                        assert(cnt0[j] == counts@[j]);
                    }
                }
            }
            i += 1;
        }
        let ghost gpos = positions@;
        let ghost gatt = attractions@;
        let ghost gprs = pressures@;
        let ghost gcnt = counts@;
        proof {
            assert forall|j: int| 0 <= j < n implies {
                &&& (#[trigger] gpos[j]).in_box(MAX_COORD as int)
                &&& gatt[j].in_box(2 * MAX_COORD)
                &&& gprs[j].in_box(PRESSURE_CAP as int)
                &&& gcnt[j] <= n
            } by {
                assert(positions@[j] == self.next_position(j));
                assert(attractions@[j] == self.next_attraction(j));
                assert(pressures@[j] == self.next_pressure(j));
                assert(counts@[j] == self.neighbors_of(j).len());
            }
        }
        self.positions = positions;
        self.attractions = attractions;
        self.pressures = pressures;
        self.neighbor_counts = counts;
        proof {
            assert(self.positions@ == gpos);
            assert(self.attractions@ == gatt);
            assert(self.pressures@ == gprs);
            assert(self.neighbor_counts@ == gcnt);
            assert forall|i: int| 0 <= i < n implies {
                &&& #[trigger] self.positions@[i] == old(self).next_position(i)
                &&& self.attractions@[i] == old(self).next_attraction(i)
                &&& self.pressures@[i] == old(self).next_pressure(i)
                &&& self.neighbor_counts@[i] == old(self).neighbors_of(i).len()
            } by {
                assert(gpos[i] == old(self).next_position(i));
                assert(gatt[i] == old(self).next_attraction(i));
                assert(gprs[i] == old(self).next_pressure(i));
                assert(gcnt[i] == old(self).neighbors_of(i).len());
            }
            assert forall|j: int| 0 <= j < n implies {
                let (p, q) = #[trigger] self.links@[j];
                &&& p < n
                &&& q < n
                &&& p != j
                &&& q != j
                &&& p != q
                &&& self.links@[p as int].1 == j
                &&& self.links@[q as int].0 == j
            } by {
                assert(old(self).links@[j] == self.links@[j]);
            }
            assert forall|j: int| 0 <= j < n implies (#[trigger] self.positions@[j]).in_box(
                MAX_COORD as int,
            ) by {
                assert(gpos[j].in_box(MAX_COORD as int));
            }
            assert forall|j: int| 0 <= j < n implies (#[trigger] self.pressures@[j]).in_box(
                PRESSURE_CAP as int,
            ) by {
                assert(gpos[j].in_box(MAX_COORD as int));
            }
            assert forall|j: int| 0 <= j < n implies (#[trigger] self.attractions@[j]).in_box(
                2 * MAX_COORD,
            ) by {
                assert(gpos[j].in_box(MAX_COORD as int));
            }
            assert forall|j: int| 0 <= j < n implies #[trigger] self.neighbor_counts@[j] <= n by {
                assert(gpos[j].in_box(MAX_COORD as int));
            }
        }
    }

    /// Edge `e` asks to split under these rolls, by the neighbor counts
    /// recorded in this system.
    pub open spec fn wants_split_at(&self, rolls: Seq<u32>, e: int) -> bool {
        wants_split(
            self.counts_view(),
            self.links_view(),
            self.spec_split_threshold(),
            self.spec_split_chance(),
            rolls,
            e,
        )
    }

    /// Particle `q` was inserted on the edge from `a = prev(q)` to `b`, the
    /// successor of `a` in `base`: it is linked between them, placed at
    /// `split_point(a, b)`, colored with the mean of their colors, and at rest.
    pub open spec fn inserted_on_edge(&self, base: &Self, q: int) -> bool {
        let a = self.prev_at(q);
        let b = base.next_at(a);
        &&& 0 <= a < base.spec_len()
        &&& self.next_at(q) == b
        &&& self.next_at(a) == q
        &&& self.prev_at(b) == q
        &&& self.pos_at(q) == self.split_point(a, b)
        &&& self.color_at(q) == self.color_at(a).average_spec(self.color_at(b))
        &&& self.pressure_at(q) == Vec2 { x: 0, y: 0 }
        &&& self.attraction_at(q) == Vec2 { x: 0, y: 0 }
        &&& self.neighbor_count_at(q) == 0
    }

    /// Display color of particle `i`: its pressure and attraction magnitudes
    /// and its neighbor count, each against the largest among the first `n`
    /// particles.
    pub open spec fn display_color(&self, i: int, n: int) -> Color {
        Color::display_spec(
            magnitude(self.pressures_view()[i]),
            max_magnitude(self.pressures_view(), n),
            magnitude(self.attractions_view()[i]),
            max_magnitude(self.attractions_view(), n),
            self.counts_view()[i] as int,
            max_count(self.counts_view(), n),
        )
    }

    fn magnitude_of(v: Vec2) -> (r: u64)
        requires
            v.in_box(2 * MAX_COORD),
        ensures
            r == magnitude(v),
            r <= 0x1_0000_0000_0000,
    {
        proof {
            crate::geometry::lemma_square_bound(v.x as int, 2 * MAX_COORD);
            crate::geometry::lemma_square_bound(v.y as int, 2 * MAX_COORD);
        }
        let m: i128 = v.x as i128 * v.x as i128 + v.y as i128 * v.y as i128;
        isqrt(m as u128) as u64
    }

    fn max_magnitude_of(vs: &Vec<Vec2>) -> (r: u64)
        requires
            forall|j: int| 0 <= j < vs@.len() ==> (#[trigger] vs@[j]).in_box(2 * MAX_COORD),
        ensures
            r == max_magnitude(vs@, vs@.len() as int),
            r <= 0x1_0000_0000_0000,
    {
        let mut best: u64 = 0;
        let mut k: usize = 0;
        while k < vs.len()
            invariant
                forall|j: int| 0 <= j < vs@.len() ==> (#[trigger] vs@[j]).in_box(2 * MAX_COORD),
                k <= vs@.len(),
                best == max_magnitude(vs@, k as int),
                best <= 0x1_0000_0000_0000,
            decreases vs@.len() - k,
        {
            let v = ParticleSystem::magnitude_of(vs[k]);
            if v > best {
                best = v;
            }
            k += 1;
        }
        best
    }

    fn max_count_of(cs: &Vec<usize>) -> (r: u64)
        requires
            cs@.len() <= MAX_PARTICLES,
            forall|j: int| 0 <= j < cs@.len() ==> #[trigger] cs@[j] <= MAX_PARTICLES,
        ensures
            r == max_count(cs@, cs@.len() as int),
            r <= MAX_PARTICLES,
    {
        let mut best: u64 = 0;
        let mut k: usize = 0;
        while k < cs.len()
            invariant
                forall|j: int| 0 <= j < cs@.len() ==> #[trigger] cs@[j] <= MAX_PARTICLES,
                k <= cs@.len(),
                best == max_count(cs@, k as int),
                best <= MAX_PARTICLES,
            decreases cs@.len() - k,
        {
            if cs[k] as u64 > best {
                best = cs[k] as u64;
            }
            k += 1;
        }
        best
    }

    /// Recomputes every particle's display color from its diagnostics.
    #[verifier::spinoff_prover]
    fn recolor(&mut self)
        requires
            old(self).wf(),
        ensures
            final(self).wf(),
            final(self).same_config(old(self)),
            final(self).positions@ == old(self).positions@,
            final(self).links@ == old(self).links@,
            final(self).pressures@ == old(self).pressures@,
            final(self).attractions@ == old(self).attractions@,
            final(self).neighbor_counts@ == old(self).neighbor_counts@,
            forall|i: int|
                0 <= i < old(self).spec_len() ==> #[trigger] final(self).colors@[i]
                    == old(self).display_color(i, old(self).spec_len() as int),
    {
        proof {
            reveal(ParticleSystem::wf);
        }
        let n = self.positions.len();
        proof {
            assert forall|j: int| 0 <= j < n implies (#[trigger] self.pressures@[j]).in_box(
                2 * MAX_COORD,
            ) by {
                assert(self.pressures@[j].in_box(PRESSURE_CAP as int));
            }
            lemma_max_magnitude(self.pressures@, self.pressures@, n as int);
            lemma_max_magnitude(self.attractions@, self.attractions@, n as int);
            lemma_max_count(self.neighbor_counts@, self.neighbor_counts@, n as int);
            assert forall|j: int| 0 <= j < n implies #[trigger] self.neighbor_counts@[j]
                <= MAX_PARTICLES by {
                lemma_wf_particle(self, j);
            }
            assert(self.neighbor_counts@.len() == n && n <= MAX_PARTICLES) by {
                reveal(ParticleSystem::wf);
            }
        }
        let c_max = ParticleSystem::max_count_of(&self.neighbor_counts);
        let p_max = ParticleSystem::max_magnitude_of(&self.pressures);
        let a_max = ParticleSystem::max_magnitude_of(&self.attractions);
        let mut colors: Vec<Color> = Vec::new();
        let mut i: usize = 0;
        while i < n
            invariant
                self.wf(),
                *self == *old(self),
                n == self.spec_len(),
                i <= n,
                p_max == max_magnitude(self.pressures@, n as int),
                a_max == max_magnitude(self.attractions@, n as int),
                forall|j: int|
                    0 <= j < n ==> magnitude(#[trigger] self.pressures@[j]) <= max_magnitude(
                        self.pressures@,
                        n as int,
                    ),
                forall|j: int|
                    0 <= j < n ==> magnitude(#[trigger] self.attractions@[j]) <= max_magnitude(
                        self.attractions@,
                        n as int,
                    ),
                p_max <= 0x1_0000_0000_0000,
                c_max == max_count(self.neighbor_counts@, n as int),
                c_max <= MAX_PARTICLES,
                forall|j: int|
                    0 <= j < n ==> #[trigger] self.neighbor_counts@[j] <= max_count(
                        self.neighbor_counts@,
                        n as int,
                    ),
                a_max <= 0x1_0000_0000_0000,
                colors@.len() == i,
                forall|j: int|
                    0 <= j < i ==> #[trigger] colors@[j] == self.display_color(j, n as int),
            decreases n - i,
        {
            proof {
                lemma_wf_particle(self, i as int);
            }
            let p = ParticleSystem::magnitude_of(self.pressures[i]);
            let a = ParticleSystem::magnitude_of(self.attractions[i]);
            let c = self.neighbor_counts[i] as u64;
            colors.push(Color::display(p, p_max, a, a_max, c, c_max));
            i += 1;
        }
        self.colors = colors;
    }

    /// Splits, in increasing id order, each edge `(e, next(e))` of the
    /// current particles whose ends have fewer than `split_threshold`
    /// neighbors together and whose roll `rolls[e]` is below `split_chance`,
    /// while the population is below `MAX_PARTICLES`.
    #[verifier::spinoff_prover]
    #[verifier::rlimit(100)]
    fn split_edges(&mut self, rolls: &Vec<u32>)
        requires
            old(self).wf(),
            rolls@.len() >= old(self).spec_len(),
        ensures
            final(self).wf(),
            final(self).same_config(old(self)),
            final(self).spec_len() == old(self).spec_len() + vstd::math::min(
                split_votes(
                    old(self).neighbor_counts@,
                    old(self).links@,
                    old(self).split_threshold,
                    old(self).split_chance,
                    rolls@,
                    old(self).spec_len() as int,
                ) as int,
                MAX_PARTICLES - old(self).spec_len(),
            ),
            forall|i: int|
                0 <= i < old(self).spec_len() ==> #[trigger] final(self).same_but_links(old(self), i),
            forall|q: int|
                old(self).spec_len() <= q < final(self).spec_len() ==> #[trigger] final(self).inserted_on_edge(old(self), q) && old(self).wants_split_at(
                    rolls@,
                    final(self).prev_at(q),
                ),
            forall|e: int|
                0 <= e < old(self).spec_len() ==> #[trigger] final(self).next_at(e)
                    >= old(self).spec_len() || (final(self).next_at(e) == old(self).next_at(e) && (
                old(self).wants_split_at(rolls@, e) ==> final(self).spec_len() == MAX_PARTICLES)),
    {
        proof {
            assert(self.spec_len() <= MAX_PARTICLES) by {
                reveal(ParticleSystem::wf);
            }
        }
        let n = self.positions.len();
        let mut e: usize = 0;
        while e < n
            invariant
                self.wf(),
                self.same_config(old(self)),
                old(self).wf(),
                n == old(self).spec_len(),
                rolls@.len() >= n,
                e <= n,
                self.spec_len() >= n,
                self.spec_len() == n + vstd::math::min(
                    split_votes(
                        old(self).neighbor_counts@,
                        old(self).links@,
                        old(self).split_threshold,
                        old(self).split_chance,
                        rolls@,
                        e as int,
                    ) as int,
                    MAX_PARTICLES - n,
                ),
                forall|i: int| 0 <= i < n ==> #[trigger] self.same_but_links(old(self), i),
                forall|i: int| e <= i < n ==> #[trigger] self.links@[i].1 == old(self).links@[i].1,
                forall|q: int|
                    n <= q < self.spec_len() ==> #[trigger] self.inserted_on_edge(old(self), q),
                forall|q: int|
                    n <= q < self.spec_len() ==> old(self).wants_split_at(
                        rolls@,
                        #[trigger] self.prev_at(q),
                    ) && self.prev_at(q) < e,
                forall|d: int|
                    0 <= d < e ==> #[trigger] self.next_at(d) >= n || (self.next_at(d)
                        == old(self).next_at(d) && (old(self).wants_split_at(rolls@, d)
                        ==> self.spec_len() == MAX_PARTICLES)),
            decreases n - e,
        {
            proof {
                lemma_wf_particle(self, e as int);
                lemma_wf_particle(old(self), e as int);
            }
            let p1 = self.links[e].1;
            proof {
                lemma_wf_particle(self, p1 as int);
                assert(self.same_but_links(old(self), e as int));
                assert(self.same_but_links(old(self), p1 as int));
                assert(self.neighbor_counts@[e as int] <= self.spec_len());
                assert(self.neighbor_counts@[p1 as int] <= self.spec_len());
            }
            if self.neighbor_counts[e] + self.neighbor_counts[p1] < self.split_threshold && rolls[e]
                < self.split_chance && self.positions.len() < MAX_PARTICLES {
                let ghost before = *self;
                self.split_at(e, p1);
                proof {
                    lemma_topology_closure(old(self), e as int);
                    assert forall|q: int| n <= q < self.spec_len() implies #[trigger] self.inserted_on_edge(
                        old(self),
                        q,
                    ) && old(self).wants_split_at(rolls@, self.prev_at(q)) && self.prev_at(q) < e + 1 by {
                        if q < before.spec_len() {
                            assert(before.inserted_on_edge(old(self), q));
                            let a = before.prev_at(q);
                            let b = old(self).next_at(a);
                            lemma_topology_closure(old(self), a);
                            assert(self.same_but_links(&before, q));
                            assert(self.same_but_links(&before, a));
                            assert(self.same_but_links(&before, b));
                            assert(self.prev_at(q) == before.prev_at(q));
                            assert(self.next_at(q) == before.next_at(q));
                            if a != p1 {
                                assert(self.prev_at(a) == before.prev_at(a));
                                assert(self.next_at(a) == before.next_at(a));
                            }
                            if b != e {
                                assert(self.prev_at(b) == before.prev_at(b));
                            }
                        } else {
                            assert(self.same_but_links(&before, e as int));
                            assert(self.same_but_links(&before, p1 as int));
                        }
                    }
                    assert forall|d: int| 0 <= d < e + 1 implies #[trigger] self.next_at(d) >= n || (
                    self.next_at(d) == old(self).next_at(d) && (old(self).wants_split_at(rolls@, d)
                        ==> self.spec_len() == MAX_PARTICLES)) by {
                        if d < e {
                            assert(before.next_at(d) >= n || (before.next_at(d) == old(self).next_at(d)
                                && (old(self).wants_split_at(rolls@, d) ==> before.spec_len()
                                == MAX_PARTICLES)));
                            if d != p1 {
                                assert(self.prev_at(d) == before.prev_at(d));
                                assert(self.next_at(d) == before.next_at(d));
                            }
                        }
                    }
                    assert forall|i: int| 0 <= i < n implies #[trigger] self.same_but_links(
                        old(self),
                        i,
                    ) by {
                        assert(self.same_but_links(&before, i));
                        assert(before.same_but_links(old(self), i));
                    }
                    assert forall|i: int| e + 1 <= i < n implies #[trigger] self.links@[i].1
                        == old(self).links@[i].1 by {
                        assert(before.links@[i].1 == old(self).links@[i].1);
                        if i != p1 {
                            assert(self.prev_at(i) == before.prev_at(i));
                        } else {
                            assert(self.next_at(i) == before.next_at(i));
                        }
                    }
                }
            } else {
                proof {
                    assert forall|q: int| n <= q < self.spec_len() implies #[trigger] self.inserted_on_edge(
                        old(self),
                        q,
                    ) && old(self).wants_split_at(rolls@, self.prev_at(q)) && self.prev_at(q) < e + 1 by {
                        assert(self.inserted_on_edge(old(self), q));
                    }
                    assert forall|d: int| 0 <= d < e + 1 implies #[trigger] self.next_at(d) >= n || (
                    self.next_at(d) == old(self).next_at(d) && (old(self).wants_split_at(rolls@, d)
                        ==> self.spec_len() == MAX_PARTICLES)) by {
                        if d == e {
                            assert(self.links@[d].1 == old(self).links@[d].1);
                        }
                    }
                }
            }
            e += 1;
            proof {
                assert forall|q: int| n <= q < self.spec_len() implies #[trigger] self.inserted_on_edge(
                    old(self),
                    q,
                ) by {
                    assert(self.inserted_on_edge(old(self), q));
                }
                assert forall|q: int| n <= q < self.spec_len() implies old(self).wants_split_at(
                    rolls@,
                    #[trigger] self.prev_at(q),
                ) && self.prev_at(q) < e by {
                    assert(self.inserted_on_edge(old(self), q));
                }
            }
        }
    }

    /// Advances the simulation by one step. First every particle moves by
    /// its attraction and pressure, both computed from the positions at the
    /// start of the step, and records them with its neighbor count; then
    /// every color is recomputed from those diagnostics; then each edge
    /// `(e, next(e))` of the particles that existed at the start splits, in
    /// increasing `e`, when the ends' neighbor counts add up to less than the
    /// split threshold and `rolls[e]` is below the split chance, while the
    /// population is below `MAX_PARTICLES`.
    #[verifier::spinoff_prover]
    #[verifier::rlimit(100)]
    pub fn update(&mut self, rolls: &Vec<u32>)
        requires
            old(self).wf(),
            rolls@.len() >= old(self).spec_len(),
        ensures
            final(self).wf(),
            final(self).links_closed(),
            final(self).same_config(old(self)),
            final(self).spec_len() == old(self).spec_len() + vstd::math::min(
                old(self).step_votes(rolls@) as int,
                MAX_PARTICLES - old(self).spec_len(),
            ),
            old(self).spec_len() <= final(self).spec_len() <= 2 * old(self).spec_len(),
            forall|i: int|
                0 <= i < old(self).spec_len() ==> #[trigger] final(self).pos_at(i) == old(self).next_position(i),
            forall|i: int|
                0 <= i < old(self).spec_len() ==> #[trigger] final(self).attraction_at(i) == old(self).next_attraction(i),
            forall|i: int|
                0 <= i < old(self).spec_len() ==> #[trigger] final(self).pressure_at(i) == old(self).next_pressure(i),
            forall|i: int|
                0 <= i < old(self).spec_len() ==> #[trigger] final(self).neighbor_count_at(i)
                    == old(self).neighbors_of(i).len(),
            forall|i: int|
                0 <= i < old(self).spec_len() ==> #[trigger] final(self).color_at(i) == final(self).display_color(i, old(self).spec_len() as int),
            forall|i: int|
                0 <= i < old(self).spec_len() ==> #[trigger] old(self).next_offset_sum(i).0 != 0
                    || old(self).next_offset_sum(i).1 != 0 ==> old(self).next_pressure(i).x != 0
                    || old(self).next_pressure(i).y != 0,
            forall|q: int|
                old(self).spec_len() <= q < final(self).spec_len() ==> #[trigger] final(self).inserted_on_edge(old(self), q)
                    && old(self).step_wants_split(rolls@, final(self).prev_at(q)),
            forall|e: int|
                0 <= e < old(self).spec_len() ==> #[trigger] final(self).next_at(e)
                    >= old(self).spec_len() || (final(self).next_at(e) == old(self).next_at(e) && (
                old(self).step_wants_split(rolls@, e) ==> final(self).spec_len() == MAX_PARTICLES)),
    {
        let ghost n = self.spec_len();
        let ghost start = *self;
        self.apply_forces();
        let ghost moved = *self;
        self.recolor();
        let ghost colored = *self;
        self.split_edges(rolls);
        proof {
            assert({
                &&& moved.neighbor_counts@.len() == n
                &&& colored.pressures@.len() == n
                &&& colored.colors@.len() == n
                &&& colored.attractions@.len() == n
                &&& self.pressures@.len() >= n
                &&& self.attractions@.len() >= n
                &&& self.neighbor_counts@.len() >= n
                &&& colored.neighbor_counts@.len() == n
                &&& n <= MAX_PARTICLES
            }) by {
                reveal(ParticleSystem::wf);
            }
            assert forall|i: int| 0 <= i < n implies colored.neighbor_counts@[i]
                == start.neighbor_counts_after()[i] by {
                assert(moved.positions@[i] == start.next_position(i));
            }
            assert(colored.neighbor_counts@ =~= start.neighbor_counts_after());
            assert forall|j: int| 0 <= j < n implies self.pressures@[j] == colored.pressures@[j]
                && self.attractions@[j] == colored.attractions@[j] by {
                assert(self.same_but_links(&colored, j));
            }
            lemma_split_votes_bound(
                colored.neighbor_counts@,
                colored.links@,
                colored.split_threshold,
                colored.split_chance,
                rolls@,
                n as int,
            );
            lemma_max_magnitude(self.pressures@, colored.pressures@, n as int);
            lemma_max_magnitude(self.attractions@, colored.attractions@, n as int);
            assert forall|j: int| 0 <= j < n implies self.neighbor_counts@[j]
                == colored.neighbor_counts@[j] by {
                assert(self.same_but_links(&colored, j));
            }
            lemma_max_count(self.neighbor_counts@, colored.neighbor_counts@, n as int);
            assert(start == *old(self));
            assert forall|q: int| n <= q < self.spec_len() implies #[trigger] self.inserted_on_edge(
                old(self),
                q,
            ) && old(self).step_wants_split(rolls@, self.prev_at(q)) by {
                assert(self.inserted_on_edge(&colored, q));
            }
            assert forall|e: int| 0 <= e < n implies #[trigger] self.next_at(e) >= n || (self.next_at(e)
                == old(self).next_at(e) && (old(self).step_wants_split(rolls@, e) ==> self.spec_len()
                == MAX_PARTICLES)) by {
                assert(self.next_at(e) >= n || (self.next_at(e) == colored.next_at(e) && (
                colored.wants_split_at(rolls@, e) ==> self.spec_len() == MAX_PARTICLES)));
            }
            assert forall|i: int| 0 <= i < old(self).spec_len() implies {
                &&& self.pos_at(i) == old(self).next_position(i)
                &&& self.attraction_at(i) == old(self).next_attraction(i)
                &&& self.pressure_at(i) == old(self).next_pressure(i)
                &&& self.neighbor_count_at(i) == old(self).neighbors_of(i).len()
                &&& self.color_at(i) == self.display_color(i, old(self).spec_len() as int)
            } by {
                assert(self.same_but_links(&colored, i));
                assert(moved.positions@[i] == start.next_position(i));
                assert(colored.colors@[i] == moved.display_color(i, n as int));
                assert(moved.display_color(i, n as int) == colored.display_color(i, n as int));
                assert(colored.display_color(i, n as int) == self.display_color(i, n as int));
            }
        }
        proof {
            assert(self.wf());
            lemma_links_closed(self);
        }
    }

    /// The neighbor counts that the next step records.
    pub open spec fn neighbor_counts_after(&self) -> Seq<usize> {
        Seq::new(self.positions_view().len(), |i: int| self.neighbors_of(i).len() as usize)
    }

    /// Edge `e` asks to split in the next step under these rolls, by the
    /// neighbor counts that step records.
    pub open spec fn step_wants_split(&self, rolls: Seq<u32>, e: int) -> bool {
        wants_split(
            self.neighbor_counts_after(),
            self.links_view(),
            self.spec_split_threshold(),
            self.spec_split_chance(),
            rolls,
            e,
        )
    }

    /// Number of edges that ask to split in the next step with these rolls.
    pub open spec fn step_votes(&self, rolls: Seq<u32>) -> nat {
        split_votes(
            self.neighbor_counts_after(),
            self.links_view(),
            self.spec_split_threshold(),
            self.spec_split_chance(),
            rolls,
            self.positions_view().len() as int,
        )
    }

    /// Sets the splitting rule: an edge splits when its ends have fewer than
    /// `threshold` neighbors together and its roll is below `chance`
    /// (out of 2^32; zero turns splitting off).
    pub fn set_split_rule(&mut self, threshold: usize, chance: u32)
        requires
            old(self).wf(),
        ensures
            final(self).wf(),
            final(self).spec_split_threshold() == threshold,
            final(self).spec_split_chance() == chance,
            final(self).spec_influence_radius() == old(self).spec_influence_radius(),
            final(self).spec_len() == old(self).spec_len(),
            forall|i: int|
                0 <= i < old(self).spec_len() ==> #[trigger] final(self).same_particle(old(self), i),
    {
        proof {
            reveal(ParticleSystem::wf);
        }
        self.split_threshold = threshold;
        self.split_chance = chance;
    }

    /// Copies the positions, colors and links of every particle.
    #[verifier::spinoff_prover]
    pub fn snapshot(&self) -> (r: Snapshot)
        requires
            self.wf(),
        ensures
            r.positions@.len() == self.spec_len(),
            r.colors@.len() == self.spec_len(),
            r.links@.len() == self.spec_len(),
            forall|i: int| 0 <= i < self.spec_len() ==> #[trigger] r.positions@[i] == self.pos_at(i),
            forall|i: int| 0 <= i < self.spec_len() ==> #[trigger] r.colors@[i] == self.color_at(i),
            forall|i: int|
                0 <= i < self.spec_len() ==> #[trigger] r.links@[i].0 == self.prev_at(i) && r.links@[i].1
                    == self.next_at(i),
    {
        proof {
            reveal(ParticleSystem::wf);
        }
        let n = self.positions.len();
        let mut positions: Vec<Vec2> = Vec::new();
        let mut colors: Vec<Color> = Vec::new();
        let mut links: Vec<(usize, usize)> = Vec::new();
        let mut i: usize = 0;
        while i < n
            invariant
                n == self.positions@.len(),
                n == self.colors@.len(),
                n == self.links@.len(),
                i <= n,
                positions@.len() == i,
                colors@.len() == i,
                links@.len() == i,
                forall|j: int| 0 <= j < i ==> #[trigger] positions@[j] == self.positions@[j],
                forall|j: int| 0 <= j < i ==> #[trigger] colors@[j] == self.colors@[j],
                forall|j: int| 0 <= j < i ==> #[trigger] links@[j] == self.links@[j],
            decreases n - i,
        {
            let ghost p0 = positions@;
            let ghost c0 = colors@;
            let ghost l0 = links@;
            positions.push(self.positions[i]);
            colors.push(self.colors[i]);
            links.push(self.links[i]);
            proof {
                assert forall|j: int| 0 <= j < i + 1 implies #[trigger] positions@[j]
                    == self.positions@[j] by {
                    if j < i {
                        assert(p0[j] == positions@[j]);
                    }
                }
                assert forall|j: int| 0 <= j < i + 1 implies #[trigger] colors@[j] == self.colors@[j] by {
                    if j < i {
                        assert(c0[j] == colors@[j]);
                    }
                }
                assert forall|j: int| 0 <= j < i + 1 implies #[trigger] links@[j] == self.links@[j] by {
                    if j < i {
                        assert(l0[j] == links@[j]);
                    }
                }
            }
            i += 1;
        }
        proof {
            assert forall|j: int| 0 <= j < n implies #[trigger] links@[j].0 == self.prev_at(j)
                && links@[j].1 == self.next_at(j) by {
                assert(links@[j] == self.links@[j]);
            }
            assert forall|j: int| 0 <= j < n implies #[trigger] positions@[j] == self.pos_at(j) by {
                assert(positions@[j] == self.positions@[j]);
            }
            assert forall|j: int| 0 <= j < n implies #[trigger] colors@[j] == self.color_at(j) by {
                assert(colors@[j] == self.colors@[j]);
            }
        }
        Snapshot { positions, colors, links }
    }

    /// Number of particles.
    pub fn len(&self) -> (r: usize)
        ensures
            r == self.spec_len(),
    {
        self.positions.len()
    }

    pub fn influence_radius(&self) -> (r: i64)
        ensures
            r == self.spec_influence_radius(),
    {
        self.influence_radius
    }

    pub fn particle_radius(&self) -> (r: i64)
        ensures
            r == self.spec_particle_radius(),
    {
        self.particle_radius
    }

    pub fn position(&self, i: usize) -> (r: Vec2)
        requires
            self.wf(),
            i < self.spec_len(),
        ensures
            r == self.pos_at(i as int),
            r.in_box(MAX_COORD as int),
    {
        proof {
            reveal(ParticleSystem::wf);
        }
        self.positions[i]
    }

    pub fn color(&self, i: usize) -> (r: Color)
        requires
            self.wf(),
            i < self.spec_len(),
        ensures
            r == self.color_at(i as int),
    {
        proof {
            reveal(ParticleSystem::wf);
        }
        self.colors[i]
    }

    /// The predecessor and successor of particle `i`.
    pub fn links(&self, i: usize) -> (r: (usize, usize))
        requires
            self.wf(),
            i < self.spec_len(),
        ensures
            r.0 == self.prev_at(i as int),
            r.1 == self.next_at(i as int),
            r.0 < self.spec_len(),
            r.1 < self.spec_len(),
    {
        proof {
            reveal(ParticleSystem::wf);
        }
        self.links[i]
    }

    pub fn pressure(&self, i: usize) -> (r: Vec2)
        requires
            self.wf(),
            i < self.spec_len(),
        ensures
            r == self.pressure_at(i as int),
    {
        proof {
            reveal(ParticleSystem::wf);
        }
        self.pressures[i]
    }

    pub fn attraction(&self, i: usize) -> (r: Vec2)
        requires
            self.wf(),
            i < self.spec_len(),
        ensures
            r == self.attraction_at(i as int),
    {
        proof {
            reveal(ParticleSystem::wf);
        }
        self.attractions[i]
    }

    pub fn neighbor_count(&self, i: usize) -> (r: usize)
        requires
            self.wf(),
            i < self.spec_len(),
        ensures
            r == self.neighbor_count_at(i as int),
    {
        proof {
            reveal(ParticleSystem::wf);
        }
        self.neighbor_counts[i]
    }
}

/// What well-formedness says of one particle.
proof fn lemma_wf_particle(s: &ParticleSystem, i: int)
    requires
        s.wf(),
        0 <= i < s.spec_len(),
    ensures
        s.colors@.len() == s.spec_len(),
        s.links@.len() == s.spec_len(),
        s.pressures@.len() == s.spec_len(),
        s.attractions@.len() == s.spec_len(),
        s.neighbor_counts@.len() == s.spec_len(),
        s.spec_len() <= MAX_PARTICLES,
        s.links@[i].0 < s.spec_len(),
        s.links@[i].1 < s.spec_len(),
        s.positions@[i].in_box(MAX_COORD as int),
        s.pressures@[i].in_box(PRESSURE_CAP as int),
        s.attractions@[i].in_box(2 * MAX_COORD),
        s.neighbor_counts@[i] <= s.spec_len(),
{
    reveal(ParticleSystem::wf);
}

/// Topology closure: in a well-formed system the successor of a particle's
/// predecessor, and the predecessor of its successor, is the particle
/// itself, and neither link points at the particle.
pub proof fn lemma_topology_closure(s: &ParticleSystem, i: int)
    requires
        s.wf(),
        0 <= i < s.spec_len(),
    ensures
        0 <= s.prev_at(i) < s.spec_len(),
        0 <= s.next_at(i) < s.spec_len(),
        s.next_at(s.prev_at(i)) == i,
        s.prev_at(s.next_at(i)) == i,
        s.prev_at(i) != i,
        s.next_at(i) != i,
        s.prev_at(i) != s.next_at(i),
{
    reveal(ParticleSystem::wf);
}

/// A well-formed system's links are closed.
pub proof fn lemma_links_closed(s: &ParticleSystem)
    requires
        s.wf(),
    ensures
        s.links_closed(),
{
    assert forall|i: int| 0 <= i < s.spec_len() implies {
        &&& 0 <= #[trigger] s.prev_at(i) < s.spec_len()
        &&& 0 <= s.next_at(i) < s.spec_len()
        &&& s.next_at(s.prev_at(i)) == i
        &&& s.prev_at(s.next_at(i)) == i
    } by {
        lemma_topology_closure(s, i);
    }
}

/// No self-neighbor: the neighbors of a particle never include the
/// particle itself nor either of its two links.
pub proof fn lemma_no_self_neighbor(s: &ParticleSystem, i: int)
    requires
        s.wf(),
        0 <= i < s.spec_len(),
    ensures
        forall|m: int|
            0 <= m < s.neighbors_of(i).len() ==> {
                let j = #[trigger] s.neighbors_of(i)[m] as int;
                &&& j != i
                &&& j != s.prev_at(i)
                &&& j != s.next_at(i)
                &&& 0 <= j < s.spec_len()
            },
{
    reveal(ParticleSystem::wf);
    lemma_neighbors_exclude(
        s.positions@,
        s.links@,
        s.influence_radius as int,
        i,
        s.positions@.len() as int,
    );
}

/// Bounded positions: every coordinate of every particle of a well-formed
/// system lies within `MAX_COORD` of the origin's axes, so no arithmetic on
/// positions overflows; every step keeps the system well-formed.
pub proof fn lemma_positions_bounded(s: &ParticleSystem, i: int)
    requires
        s.wf(),
        0 <= i < s.spec_len(),
    ensures
        s.pos_at(i).in_box(MAX_COORD as int),
        s.pressure_at(i).in_box(PRESSURE_CAP as int),
{
    reveal(ParticleSystem::wf);
}
} // verus!
