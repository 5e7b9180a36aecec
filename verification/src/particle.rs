//! Particles and the rules by which one colour acts on another.

use crate::fixed::{divide, isqrt, quotient, root, saturate, saturated};
use crate::quadtree::XY;
use vstd::prelude::*;

verus! {

/// Distance from which on a neighbour exerts no force: 175 units.
pub const CUTOFF: u64 = 11468800;

/// A particle at or below this coordinate is near the low edge of the world: 20 units.
pub const MARGIN_LOW: i32 = 1310720;

/// A particle at or above this coordinate is near the high edge of the world: 780 units.
pub const MARGIN_HIGH: i32 = 51118080;

/// The kinds of particle. A rule names the kind it moves and the kind that moves it.
#[derive(Clone, Copy, Debug, PartialEq, Eq, Structural)]
pub enum ParticleColor {
    Yellow,
    Red,
    Green,
}

/// A particle: where it is, how fast it moves per tick, and its kind.
#[derive(Clone, Copy, Debug, PartialEq, Eq, Structural)]
pub struct Particle {
    pub pos: XY,
    pub vx: i32,
    pub vy: i32,
    pub color: ParticleColor,
}

/// How strongly particles of colour `to` push (`g > 0`) or pull (`g < 0`) those of
/// colour `from`.
#[derive(Clone, Copy, Debug, PartialEq, Eq, Structural)]
pub struct ParticleRule {
    pub from: ParticleColor,
    pub to: ParticleColor,
    pub g: i32,
}

/// Distance between two points: the integer square root of the sum of the squares.
pub open spec fn distance(a: XY, b: XY) -> int {
    root((a.x - b.x) * (a.x - b.x) + (a.y - b.y) * (a.y - b.y))
}

/// Whether a coordinate lies within the margin of either edge of the world.
pub open spec fn near_edge(c: int) -> bool {
    c <= MARGIN_LOW || c >= MARGIN_HIGH
}

/// Computes [`distance`].
pub fn distance_between(a: &XY, b: &XY) -> (d: u64)
    ensures
        d == distance(*a, *b),
{
    let dx: i64 = a.x as i64 - b.x as i64;
    let dy: i64 = a.y as i64 - b.y as i64;
    assert(0 <= dx * dx <= 0xFFFF_FFFFint * 0xFFFF_FFFFint) by (nonlinear_arith)
        requires
            -0xFFFF_FFFF <= dx <= 0xFFFF_FFFF,
    ;
    assert(0 <= dy * dy <= 0xFFFF_FFFFint * 0xFFFF_FFFFint) by (nonlinear_arith)
        requires
            -0xFFFF_FFFF <= dy <= 0xFFFF_FFFF,
    ;
    let sx: u128 = (dx as i128 * dx as i128) as u128;
    let sy: u128 = (dy as i128 * dy as i128) as u128;
    isqrt(sx + sy)
}

impl ParticleRule {
    /// Whether the rule moves particles of this one's colour.
    pub open spec fn applies(self, p: Particle) -> bool {
        p.color == self.from
    }

    /// What one neighbour adds to the force along one axis: `g * offset / d`, rounded
    /// toward zero, where the neighbour has the colour that the rule names and lies nearer
    /// than the cutoff but not at the same place; nothing otherwise. `offset` is the
    /// particle's coordinate less the neighbour's.
    pub open spec fn pull(self, offset: int, d: int, neighbour: ParticleColor) -> int {
        if neighbour == self.to && 0 < d < CUTOFF {
            quotient(self.g * offset, d)
        } else {
            0
        }
    }

    /// The force along `x` that the first `n` neighbours exert on a particle at `at`.
    pub open spec fn force_x(
        self,
        at: XY,
        in_range: Seq<usize>,
        particles: Seq<Particle>,
        distances: Seq<u64>,
        n: nat,
    ) -> int
        decreases n,
    {
        if n == 0 {
            0
        } else {
            let k = (n - 1) as nat;
            let other = particles[in_range[k as int] as int];
            self.force_x(at, in_range, particles, distances, k) + self.pull(
                at.x - other.pos.x,
                distances[k as int] as int,
                other.color,
            )
        }
    }

    /// The force along `y` that the first `n` neighbours exert on a particle at `at`.
    pub open spec fn force_y(
        self,
        at: XY,
        in_range: Seq<usize>,
        particles: Seq<Particle>,
        distances: Seq<u64>,
        n: nat,
    ) -> int
        decreases n,
    {
        if n == 0 {
            0
        } else {
            let k = (n - 1) as nat;
            let other = particles[in_range[k as int] as int];
            self.force_y(at, in_range, particles, distances, k) + self.pull(
                at.y - other.pos.y,
                distances[k as int] as int,
                other.color,
            )
        }
    }

    /// The particle after the rule has acted on it once.
    ///
    /// A particle of another colour than `from` is left as it is. Otherwise the new
    /// velocity is half the sum of the old one and the force. A particle near an edge of
    /// the world in `x` has its `x` velocity reversed, and one near an edge in `y` has its
    /// `x` velocity reversed as well; the position it had before the step decides. Then
    /// the particle moves by its new velocity. Velocities and coordinates saturate.
    pub open spec fn applied(
        self,
        p: Particle,
        in_range: Seq<usize>,
        particles: Seq<Particle>,
        distances: Seq<u64>,
    ) -> Particle {
        if p.color != self.from {
            p
        } else {
            let fx = self.force_x(p.pos, in_range, particles, distances, in_range.len());
            let fy = self.force_y(p.pos, in_range, particles, distances, in_range.len());
            let damped = saturated(quotient(p.vx + fx, 2));
            let turned = if near_edge(p.pos.x as int) {
                -damped
            } else {
                damped
            };
            let vx = if near_edge(p.pos.y as int) {
                -turned
            } else {
                turned
            };
            let vy = saturated(quotient(p.vy + fy, 2));
            Particle {
                pos: XY {
                    x: saturated(p.pos.x + vx) as i32,
                    y: saturated(p.pos.y + vy) as i32,
                },
                vx: vx as i32,
                vy: vy as i32,
                color: p.color,
            }
        }
    }

    /// The particle after each of the first `n` rules has acted on it in turn, all of
    /// them with the same neighbours and distances.
    pub open spec fn applied_all(
        rules: Seq<ParticleRule>,
        p: Particle,
        in_range: Seq<usize>,
        particles: Seq<Particle>,
        distances: Seq<u64>,
        n: nat,
    ) -> Particle
        decreases n,
    {
        if n == 0 {
            p
        } else {
            let k = (n - 1) as nat;
            rules[k as int].applied(
                ParticleRule::applied_all(rules, p, in_range, particles, distances, k),
                in_range,
                particles,
                distances,
            )
        }
    }

    /// The distances from `at` to each of the particles that `in_range` names.
    pub open spec fn spec_distances(
        at: XY,
        in_range: Seq<usize>,
        particles: Seq<Particle>,
    ) -> Seq<u64> {
        Seq::new(in_range.len(), |i: int| distance(at, particles[in_range[i] as int].pos) as u64)
    }

    pub fn applies_to(&self, p: &Particle) -> (yes: bool)
        ensures
            yes == self.applies(*p),
    {
        p.color == self.from
    }

    /// The distance from `target` to each particle that `in_range` names, in that order.
    pub fn get_distances(target: &Particle, in_range: &Vec<usize>, particles: &Vec<Particle>) -> (output:
        Vec<u64>)
        requires
            forall|i: int| 0 <= i < in_range.len() ==> in_range[i] < particles.len(),
        ensures
            output@ == ParticleRule::spec_distances(target.pos, in_range@, particles@),
    {
        let mut output: Vec<u64> = Vec::new();
        let n: usize = in_range.len();
        let mut i: usize = 0;
        while i < n
            invariant
                i <= n,
                n == in_range.len(),
                forall|k: int| 0 <= k < in_range.len() ==> in_range[k] < particles.len(),
                output.len() == i,
                forall|k: int|
                    0 <= k < i ==> output[k] == distance(
                        target.pos,
                        particles[in_range[k] as int].pos,
                    ),
            decreases n - i,
        {
            let other = particles[in_range[i]];
            let d: u64 = distance_between(&target.pos, &other.pos);
            output.push(d);
            i = i + 1;
        }
        assert(output@ =~= ParticleRule::spec_distances(target.pos, in_range@, particles@));
        output
    }

    /// Lets the rule act once on `target`: see [`ParticleRule::applied`].
    ///
    /// `in_range` names `target`'s neighbours by their place in `particles`, and `distances`
    /// holds, place for place, how far each of them is. A rule that moves another colour
    /// looks at neither and leaves `target` as it is, whatever they hold.
    pub fn run(
        &self,
        target: &mut Particle,
        in_range: &Vec<usize>,
        particles: &Vec<Particle>,
        distances: &Vec<u64>,
    )
        requires
            self.applies(*old(target)) ==> in_range.len() <= distances.len(),
            self.applies(*old(target)) ==> forall|i: int|
                0 <= i < in_range.len() ==> in_range[i] < particles.len(),
        ensures
            *final(target) == self.applied(*old(target), in_range@, particles@, distances@),
            !self.applies(*old(target)) ==> *final(target) == *old(target),
    {
        if target.color != self.from {
            return ;
        }
        let at: XY = target.pos;
        let n: usize = in_range.len();
        let mut fx: i128 = 0;
        let mut fy: i128 = 0;
        let mut i: usize = 0;
        while i < n
            invariant
                i <= n,
                n == in_range.len(),
                n <= distances.len(),
                forall|k: int| 0 <= k < in_range.len() ==> in_range[k] < particles.len(),
                fx == self.force_x(at, in_range@, particles@, distances@, i as nat),
                fy == self.force_y(at, in_range@, particles@, distances@, i as nat),
                -(i * 0x8000_0000_0000_0000) <= fx <= i * 0x8000_0000_0000_0000,
                -(i * 0x8000_0000_0000_0000) <= fy <= i * 0x8000_0000_0000_0000,
            decreases n - i,
        {
            let other = particles[in_range[i]];
            let d: u64 = distances[i];
            if other.color == self.to && d > 0 && d < CUTOFF {
                let dx: i64 = at.x as i64 - other.pos.x as i64;
                let dy: i64 = at.y as i64 - other.pos.y as i64;
                proof {
                    lemma_pull_bound(self.g as int, dx as int, d as int);
                    lemma_pull_bound(self.g as int, dy as int, d as int);
                }
                fx = fx + divide(self.g as i128 * dx as i128, d as i128);
                fy = fy + divide(self.g as i128 * dy as i128, d as i128);
            }
            i = i + 1;
        }
        let damped: i32 = saturate(divide(target.vx as i128 + fx, 2));
        let turned: i32 = if target.pos.x <= MARGIN_LOW || target.pos.x >= MARGIN_HIGH {
            -damped
        } else {
            damped
        };
        let vx: i32 = if target.pos.y <= MARGIN_LOW || target.pos.y >= MARGIN_HIGH {
            -turned
        } else {
            turned
        };
        let vy: i32 = saturate(divide(target.vy as i128 + fy, 2));
        target.vx = vx;
        target.vy = vy;
        target.pos.x = saturate(at.x as i128 + vx as i128);
        target.pos.y = saturate(at.y as i128 + vy as i128);
    }
}

/// One neighbour's pull is the product of a gain and an offset that both fit their
/// storage, made no larger by the division.
proof fn lemma_pull_bound(g: int, offset: int, d: int)
    requires
        -0x8000_0000 <= g < 0x8000_0000,
        -0xFFFF_FFFF <= offset <= 0xFFFF_FFFF,
        d > 0,
    ensures
        -0x8000_0000_0000_0000 < g * offset < 0x8000_0000_0000_0000,
        -0x8000_0000_0000_0000 < quotient(g * offset, d) < 0x8000_0000_0000_0000,
{
    assert(-0x8000_0000int * 0xFFFF_FFFFint <= g * offset <= 0x8000_0000int * 0xFFFF_FFFFint)
        by (nonlinear_arith)
        requires
            -0x8000_0000 <= g <= 0x8000_0000,
            -0xFFFF_FFFF <= offset <= 0xFFFF_FFFF,
    ;
    let a = g * offset;
    if a >= 0 {
        assert(0 <= a / d <= a) by (nonlinear_arith)
            requires
                a >= 0,
                d > 0,
        ;
    } else {
        assert(0 <= (-a) / d <= -a) by (nonlinear_arith)
            requires
                -a >= 0,
                d > 0,
        ;
    }
}

/// A rule takes force only from neighbours of the colour it names: where none of the
/// first `n` neighbours has that colour, they exert no force at all.
pub proof fn lemma_force_needs_target_colour(
    rule: ParticleRule,
    at: XY,
    in_range: Seq<usize>,
    particles: Seq<Particle>,
    distances: Seq<u64>,
    n: nat,
)
    requires
        forall|k: int| 0 <= k < n ==> particles[#[trigger] in_range[k] as int].color != rule.to,
    ensures
        rule.force_x(at, in_range, particles, distances, n) == 0,
        rule.force_y(at, in_range, particles, distances, n) == 0,
    decreases n,
{
    if n > 0 {
        let k = (n - 1) as nat;
        assert(particles[in_range[k as int] as int].color != rule.to);
        lemma_force_needs_target_colour(rule, at, in_range, particles, distances, k);
    }
}

/// The force does not change when a neighbour of another colour than the rule names is
/// taken off the list, together with its distance.
pub proof fn lemma_force_skips_other_colours(
    rule: ParticleRule,
    at: XY,
    in_range: Seq<usize>,
    particles: Seq<Particle>,
    distances: Seq<u64>,
    n: nat,
    k: int,
)
    requires
        0 <= k < n <= in_range.len(),
        n <= distances.len(),
        particles[in_range[k] as int].color != rule.to,
    ensures
        rule.force_x(at, in_range.remove(k), particles, distances.remove(k), (n - 1) as nat)
            == rule.force_x(at, in_range, particles, distances, n),
        rule.force_y(at, in_range.remove(k), particles, distances.remove(k), (n - 1) as nat)
            == rule.force_y(at, in_range, particles, distances, n),
    decreases n,
{
    let m = (n - 1) as nat;
    if k == m {
        lemma_force_prefix(rule, at, in_range, in_range.remove(k), particles, distances, distances.remove(k), m);
    } else {
        lemma_force_skips_other_colours(rule, at, in_range, particles, distances, m, k);
        assert(in_range.remove(k)[m - 1] == in_range[m as int]);
        assert(distances.remove(k)[m - 1] == distances[m as int]);
    }
}

/// The force of the first `n` neighbours depends on no later place of the lists.
proof fn lemma_force_prefix(
    rule: ParticleRule,
    at: XY,
    in_a: Seq<usize>,
    in_b: Seq<usize>,
    particles: Seq<Particle>,
    dist_a: Seq<u64>,
    dist_b: Seq<u64>,
    n: nat,
)
    requires
        forall|i: int| 0 <= i < n ==> in_a[i] == in_b[i] && dist_a[i] == dist_b[i],
    ensures
        rule.force_x(at, in_a, particles, dist_a, n) == rule.force_x(at, in_b, particles, dist_b, n),
        rule.force_y(at, in_a, particles, dist_a, n) == rule.force_y(at, in_b, particles, dist_b, n),
    decreases n,
{
    if n > 0 {
        lemma_force_prefix(rule, at, in_a, in_b, particles, dist_a, dist_b, (n - 1) as nat);
    }
}

/// One more neighbour at the end of the list adds its pull to the force, and changes
/// nothing else.
pub proof fn lemma_force_of_one_more(
    rule: ParticleRule,
    at: XY,
    in_range: Seq<usize>,
    particles: Seq<Particle>,
    distances: Seq<u64>,
    id: usize,
    d: u64,
)
    requires
        in_range.len() == distances.len(),
    ensures
        rule.force_x(at, in_range.push(id), particles, distances.push(d), in_range.len() + 1)
            == rule.force_x(at, in_range, particles, distances, in_range.len()) + rule.pull(
            at.x - particles[id as int].pos.x,
            d as int,
            particles[id as int].color,
        ),
        rule.force_y(at, in_range.push(id), particles, distances.push(d), in_range.len() + 1)
            == rule.force_y(at, in_range, particles, distances, in_range.len()) + rule.pull(
            at.y - particles[id as int].pos.y,
            d as int,
            particles[id as int].color,
        ),
{
    lemma_force_prefix(
        rule,
        at,
        in_range.push(id),
        in_range,
        particles,
        distances.push(d),
        distances,
        in_range.len(),
    );
}

/// Near an edge of the world in `x` and away from the edges in `y`, a particle that the
/// rule moves leaves with the reverse of its damped velocity and has moved by it,
/// whatever the force and whatever the lists of neighbours and distances hold.
pub proof fn lemma_margin_turns(
    rule: ParticleRule,
    p: Particle,
    in_range: Seq<usize>,
    particles: Seq<Particle>,
    distances: Seq<u64>,
)
    requires
        rule.applies(p),
        near_edge(p.pos.x as int),
        !near_edge(p.pos.y as int),
    ensures
        ({
            let fx = rule.force_x(p.pos, in_range, particles, distances, in_range.len());
            let after = rule.applied(p, in_range, particles, distances);
            &&& after.vx == -saturated(quotient(p.vx + fx, 2))
            &&& after.pos.x == saturated(p.pos.x + after.vx)
        }),
{
}

/// Away from all edges of the world, a particle that the rule moves leaves with its
/// damped velocity unturned.
pub proof fn lemma_no_margin_no_turn(
    rule: ParticleRule,
    p: Particle,
    in_range: Seq<usize>,
    particles: Seq<Particle>,
    distances: Seq<u64>,
)
    requires
        rule.applies(p),
        !near_edge(p.pos.x as int),
        !near_edge(p.pos.y as int),
    ensures
        ({
            let fx = rule.force_x(p.pos, in_range, particles, distances, in_range.len());
            let after = rule.applied(p, in_range, particles, distances);
            &&& after.vx == saturated(quotient(p.vx + fx, 2))
            &&& after.pos.x == saturated(p.pos.x + after.vx)
        }),
{
}

/// Rules that move other colours leave a particle as it is: after any number of rules
/// none of which names its colour as `from`, it has not changed.
pub proof fn lemma_foreign_rules_change_nothing(
    rules: Seq<ParticleRule>,
    p: Particle,
    in_range: Seq<usize>,
    particles: Seq<Particle>,
    distances: Seq<u64>,
    n: nat,
)
    requires
        forall|k: int| 0 <= k < n ==> !(#[trigger] rules[k]).applies(p),
    ensures
        ParticleRule::applied_all(rules, p, in_range, particles, distances, n) == p,
    decreases n,
{
    if n > 0 {
        let k = (n - 1) as nat;
        assert(!rules[k as int].applies(p));
        lemma_foreign_rules_change_nothing(rules, p, in_range, particles, distances, k);
    }
}

/// A rule never changes the colour of a particle.
pub proof fn lemma_colour_is_kept(
    rules: Seq<ParticleRule>,
    p: Particle,
    in_range: Seq<usize>,
    particles: Seq<Particle>,
    distances: Seq<u64>,
    n: nat,
)
    ensures
        ParticleRule::applied_all(rules, p, in_range, particles, distances, n).color == p.color,
    decreases n,
{
    if n > 0 {
        lemma_colour_is_kept(rules, p, in_range, particles, distances, (n - 1) as nat);
    }
}

} // verus!
