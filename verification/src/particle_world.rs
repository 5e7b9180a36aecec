//! The world: a population of particles that a tick advances all at once.

use crate::error::ConfigError;
use crate::fixed::{lemma_root_below, lemma_root_dominates, lemma_root_exists, UNIT};
use crate::particle::{
    distance, lemma_colour_is_kept, lemma_force_of_one_more,
    lemma_foreign_rules_change_nothing, Particle, ParticleColor, ParticleRule, CUTOFF,
};
use crate::quadtree::laws::{lemma_filled, lemma_off_lines_admitted, lemma_select_members};
use crate::quadtree::model::{off_lines, select, splits_evenly, Entry, Node};
use crate::quadtree::{QuadTree, AABB, XY};
use rand::rngs::ThreadRng;
use rand::Rng;
use vstd::prelude::*;

verus! {

/// Both coordinates of the centre of the world: 400 units.
pub const WORLD_CENTER: i32 = 26214400;

/// Half the side of the world: 400 units.
pub const WORLD_HALF: i32 = 26214400;

/// Side of the world in whole units. New particles start on a whole unit below it.
pub const WORLD_SIDE: i32 = 800;

/// Distance between the lines on which a particle can fall between the quarters of the
/// index: 12.5 units, counted from the centre of the world.
pub const LINE_STEP: i32 = 819200;

/// The square in which particles are indexed. One that has left it is in no tick's index
/// until it comes back: it still feels its neighbours, and none of them feels it.
pub open spec fn world_boundary() -> AABB {
    AABB { center: XY { x: WORLD_CENTER, y: WORLD_CENTER }, half_dimension: WORLD_HALF }
}

/// The square searched for the neighbours of a particle at `at`.
pub open spec fn reach(at: XY, range_size: i32) -> AABB {
    AABB { center: at, half_dimension: range_size }
}

/// What a tick puts into its index: each particle's position, under the particle's place
/// in the population as id.
pub open spec fn placed(particles: Seq<Particle>) -> Seq<Entry> {
    Seq::new(particles.len(), |i: int| (particles[i].pos, i as usize))
}

/// The index of the first `n` particles: an empty tree over the world into which they
/// were inserted in their order.
pub open spec fn index_of(particles: Seq<Particle>, n: nat) -> Node {
    Node::leaf(world_boundary(), 0).filled(placed(particles), n)
}

/// Whether particle `i` is in the index of its tick: it was accepted when its turn came.
pub open spec fn indexed(particles: Seq<Particle>, i: int) -> bool {
    Node::leaf(world_boundary(), 0).kept(placed(particles), i)
}

/// The neighbours of particle `i`: the places of the indexed particles that lie strictly
/// inside the square of half side `range_size` around it. Particle `i` is among them if
/// it is indexed itself.
pub open spec fn neighbours(particles: Seq<Particle>, range_size: i32, i: int) -> Seq<usize> {
    select(
        index_of(particles, particles.len()).all_entries(),
        reach(particles[i].pos, range_size),
    )
}

/// Particle `i` after one tick: every rule has acted on it in turn, each seeing the
/// positions that all particles had before the tick.
pub open spec fn evolved(
    particles: Seq<Particle>,
    rules: Seq<ParticleRule>,
    range_size: i32,
    i: int,
) -> Particle {
    let near = neighbours(particles, range_size, i);
    ParticleRule::applied_all(
        rules,
        particles[i],
        near,
        particles,
        ParticleRule::spec_distances(particles[i].pos, near, particles),
        rules.len(),
    )
}

/// The population after one tick.
pub open spec fn tick(particles: Seq<Particle>, rules: Seq<ParticleRule>, range_size: i32) -> Seq<
    Particle,
> {
    Seq::new(particles.len(), |i: int| evolved(particles, rules, range_size, i))
}

/// The index of a population is a well-formed tree over the world, and each of its
/// entries is a particle's position stored under that particle's place.
pub proof fn lemma_index_of(particles: Seq<Particle>, n: nat)
    requires
        n <= particles.len() <= usize::MAX,
    ensures
        index_of(particles, n).wf(),
        index_of(particles, n).boundary == world_boundary(),
        index_of(particles, n).depth == 0,
        forall|k: int|
            0 <= k < index_of(particles, n).all_entries().len() ==> {
                let e = #[trigger] index_of(particles, n).all_entries()[k];
                e.1 < n && e.0 == particles[e.1 as int].pos
            },
{
    let root = Node::leaf(world_boundary(), 0);
    let all = index_of(particles, n).all_entries();
    lemma_filled(root, placed(particles), n, (XY { x: 0, y: 0 }, 0));
    assert forall|k: int| 0 <= k < all.len() implies {
        let e = #[trigger] all[k];
        e.1 < n && e.0 == particles[e.1 as int].pos
    } by {
        lemma_filled(root, placed(particles), n, all[k]);
        assert(all.contains(all[k]));
    }
}

/// The index of the first `n` particles holds an entry under the id `j` exactly if
/// particle `j` is one of them and was accepted when its turn came.
pub proof fn lemma_index_holds(particles: Seq<Particle>, n: nat, j: usize)
    requires
        n <= particles.len() <= usize::MAX,
    ensures
        (exists|k: int|
            0 <= k < index_of(particles, n).all_entries().len() && #[trigger] index_of(
                particles,
                n,
            ).all_entries()[k].1 == j) <==> j < n && indexed(particles, j as int),
{
    let root = Node::leaf(world_boundary(), 0);
    let all = index_of(particles, n).all_entries();
    if exists|k: int| 0 <= k < all.len() && #[trigger] all[k].1 == j {
        let k = choose|k: int| 0 <= k < all.len() && #[trigger] all[k].1 == j;
        lemma_filled(root, placed(particles), n, all[k]);
        assert(all.contains(all[k]));
    }
    if j < n && indexed(particles, j as int) {
        let e = placed(particles)[j as int];
        lemma_filled(root, placed(particles), n, e);
        let k = choose|k: int| 0 <= k < all.len() && all[k] == e;
        assert(all[k].1 == j);
    }
}

/// `j` is a neighbour of particle `i` exactly if particle `j` is indexed and lies strictly
/// inside the square around particle `i`.
pub proof fn lemma_neighbours_exact(particles: Seq<Particle>, range_size: i32, i: int, j: usize)
    requires
        particles.len() <= usize::MAX,
        0 <= i < particles.len(),
    ensures
        neighbours(particles, range_size, i).contains(j) <==> j < particles.len() && indexed(
            particles,
            j as int,
        ) && reach(particles[i].pos, range_size).contains(particles[j as int].pos),
{
    let n = particles.len();
    let all = index_of(particles, n).all_entries();
    let square = reach(particles[i].pos, range_size);
    lemma_index_of(particles, n);
    lemma_select_members(all, square, j);
    lemma_index_holds(particles, n, j);
    if neighbours(particles, range_size, i).contains(j) {
        let k = choose|k: int|
            0 <= k < all.len() && #[trigger] all[k].1 == j && square.contains(all[k].0);
        assert(all[k].0 == particles[j as int].pos);
    }
    if j < n && indexed(particles, j as int) && square.contains(particles[j as int].pos) {
        let k = choose|k: int| 0 <= k < all.len() && #[trigger] all[k].1 == j;
        assert(all[k].0 == particles[j as int].pos);
    }
}

/// When a particle is sure to be indexed: it is inside the world, and neither of its
/// coordinates lies a multiple of `LINE_STEP` from the centre. Other particles inside
/// the world are indexed unless a node has split along a line through them.
pub proof fn lemma_indexed_off_lines(particles: Seq<Particle>, i: int)
    requires
        0 <= i < particles.len() <= usize::MAX,
        world_boundary().contains(particles[i].pos),
        off_lines(world_boundary().center, particles[i].pos, LINE_STEP as int),
    ensures
        indexed(particles, i),
{
    lemma_index_of(particles, i as nat);
    assert(splits_evenly(26214400, 819200, 6)) by {
        reveal_with_fuel(splits_evenly, 7);
    }
    lemma_off_lines_admitted(index_of(particles, i as nat), particles[i].pos, LINE_STEP as int);
}

/// The population after `n` ticks.
pub open spec fn ticks(
    particles: Seq<Particle>,
    rules: Seq<ParticleRule>,
    range_size: i32,
    n: nat,
) -> Seq<Particle>
    decreases n,
{
    if n == 0 {
        particles
    } else {
        tick(ticks(particles, rules, range_size, (n - 1) as nat), rules, range_size)
    }
}

/// However many ticks pass, the population keeps its size.
pub proof fn lemma_population_is_kept(
    particles: Seq<Particle>,
    rules: Seq<ParticleRule>,
    range_size: i32,
    n: nat,
)
    ensures
        ticks(particles, rules, range_size, n).len() == particles.len(),
    decreases n,
{
    if n > 0 {
        lemma_population_is_kept(particles, rules, range_size, (n - 1) as nat);
    }
}

/// A tick leaves a particle as it is if no rule moves its colour.
pub proof fn lemma_tick_leaves_unruled_alone(
    particles: Seq<Particle>,
    rules: Seq<ParticleRule>,
    range_size: i32,
    i: int,
)
    requires
        0 <= i < particles.len(),
        forall|k: int| 0 <= k < rules.len() ==> !(#[trigger] rules[k]).applies(particles[i]),
    ensures
        tick(particles, rules, range_size)[i] == particles[i],
{
    let near = neighbours(particles, range_size, i);
    lemma_foreign_rules_change_nothing(
        rules,
        particles[i],
        near,
        particles,
        ParticleRule::spec_distances(particles[i].pos, near, particles),
        rules.len(),
    );
}

/// A tick changes no particle's colour.
pub proof fn lemma_tick_keeps_colours(
    particles: Seq<Particle>,
    rules: Seq<ParticleRule>,
    range_size: i32,
    i: int,
)
    requires
        0 <= i < particles.len(),
    ensures
        tick(particles, rules, range_size)[i].color == particles[i].color,
{
    let near = neighbours(particles, range_size, i);
    lemma_colour_is_kept(
        rules,
        particles[i],
        near,
        particles,
        ParticleRule::spec_distances(particles[i].pos, near, particles),
        rules.len(),
    );
}

/// A point nearer than the cutoff lies strictly inside the square of half side `CUTOFF`:
/// a world that searches that square misses no particle that could exert a force.
pub proof fn lemma_cutoff_square_suffices(a: XY, b: XY)
    requires
        distance(a, b) < CUTOFF,
    ensures
        reach(a, CUTOFF as i32).contains(b),
{
    let dx = a.x - b.x;
    let dy = a.y - b.y;
    assert(dx * dx + dy * dy >= 0) by (nonlinear_arith);
    lemma_root_exists(dx * dx + dy * dy);
    lemma_root_dominates(dx, dy, distance(a, b));
}

/// The distance between two points of the plane is a number that a `u64` holds.
pub proof fn lemma_distance_fits(a: XY, b: XY)
    ensures
        0 <= distance(a, b) < 0x2_0000_0000,
{
    let dx = a.x - b.x;
    let dy = a.y - b.y;
    assert(0 <= dx * dx <= 0xFFFF_FFFFint * 0xFFFF_FFFFint) by (nonlinear_arith)
        requires
            -0xFFFF_FFFF <= dx <= 0xFFFF_FFFF,
    ;
    assert(0 <= dy * dy <= 0xFFFF_FFFFint * 0xFFFF_FFFFint) by (nonlinear_arith)
        requires
            -0xFFFF_FFFF <= dy <= 0xFFFF_FFFF,
    ;
    assert(0x2_0000_0000int * 0x2_0000_0000int == 0x4_0000_0000_0000_0000int);
    lemma_root_below(dx * dx + dy * dy, 0x2_0000_0000);
}

/// The force that the neighbours in the square of half side `range_size` around `from`
/// exert on a particle at `at`, with their distances taken from `from`, is the same for
/// every `range_size` from the cutoff on: what the wider square adds lies too far away.
proof fn lemma_force_beyond_cutoff(
    rule: ParticleRule,
    at: XY,
    from: XY,
    entries: Seq<Entry>,
    particles: Seq<Particle>,
    range_size: i32,
)
    requires
        range_size >= CUTOFF,
        forall|k: int|
            0 <= k < entries.len() ==> (#[trigger] entries[k]).0 == particles[entries[k].1 as int].pos,
    ensures
        ({
            let wide = select(entries, reach(from, range_size));
            let near = select(entries, reach(from, CUTOFF as i32));
            &&& rule.force_x(
                at,
                wide,
                particles,
                ParticleRule::spec_distances(from, wide, particles),
                wide.len(),
            ) == rule.force_x(
                at,
                near,
                particles,
                ParticleRule::spec_distances(from, near, particles),
                near.len(),
            )
            &&& rule.force_y(
                at,
                wide,
                particles,
                ParticleRule::spec_distances(from, wide, particles),
                wide.len(),
            ) == rule.force_y(
                at,
                near,
                particles,
                ParticleRule::spec_distances(from, near, particles),
                near.len(),
            )
        }),
    decreases entries.len(),
{
    if entries.len() > 0 {
        let front = entries.drop_last();
        let last = entries.last();
        let id = last.1;
        let d = distance(from, particles[id as int].pos) as u64;
        assert forall|k: int| 0 <= k < front.len() implies (#[trigger] front[k]).0
            == particles[front[k].1 as int].pos by {
            assert(front[k] == entries[k]);
        }
        lemma_force_beyond_cutoff(rule, at, from, front, particles, range_size);
        assert(last == entries[entries.len() - 1]);
        lemma_distance_fits(from, particles[id as int].pos);
        let big = reach(from, range_size);
        let small = reach(from, CUTOFF as i32);
        let wide = select(front, big);
        let near = select(front, small);
        if big.contains(last.0) {
            lemma_force_of_one_more(
                rule,
                at,
                wide,
                particles,
                ParticleRule::spec_distances(from, wide, particles),
                id,
                d,
            );
            assert(ParticleRule::spec_distances(from, wide.push(id), particles)
                =~= ParticleRule::spec_distances(from, wide, particles).push(d));
        }
        if small.contains(last.0) {
            lemma_force_of_one_more(
                rule,
                at,
                near,
                particles,
                ParticleRule::spec_distances(from, near, particles),
                id,
                d,
            );
            assert(ParticleRule::spec_distances(from, near.push(id), particles)
                =~= ParticleRule::spec_distances(from, near, particles).push(d));
        } else if distance(from, last.0) < CUTOFF {
            lemma_cutoff_square_suffices(from, last.0);
        }
    }
}

/// What the rules make of a particle is the same for every `range_size` from the cutoff
/// on.
proof fn lemma_rules_beyond_cutoff(
    rules: Seq<ParticleRule>,
    p: Particle,
    from: XY,
    entries: Seq<Entry>,
    particles: Seq<Particle>,
    range_size: i32,
    n: nat,
)
    requires
        range_size >= CUTOFF,
        forall|k: int|
            0 <= k < entries.len() ==> (#[trigger] entries[k]).0 == particles[entries[k].1 as int].pos,
    ensures
        ({
            let wide = select(entries, reach(from, range_size));
            let near = select(entries, reach(from, CUTOFF as i32));
            ParticleRule::applied_all(
                rules,
                p,
                wide,
                particles,
                ParticleRule::spec_distances(from, wide, particles),
                n,
            ) == ParticleRule::applied_all(
                rules,
                p,
                near,
                particles,
                ParticleRule::spec_distances(from, near, particles),
                n,
            )
        }),
    decreases n,
{
    if n > 0 {
        let k = (n - 1) as nat;
        let wide = select(entries, reach(from, range_size));
        lemma_rules_beyond_cutoff(rules, p, from, entries, particles, range_size, k);
        let before = ParticleRule::applied_all(
            rules,
            p,
            wide,
            particles,
            ParticleRule::spec_distances(from, wide, particles),
            k,
        );
        lemma_force_beyond_cutoff(rules[k as int], before.pos, from, entries, particles, range_size);
    }
}

/// Searching a square of at least the cutoff as half side gives the tick that searching
/// the square of exactly the cutoff gives: every particle feels each indexed particle
/// nearer than the cutoff, and no other.
pub proof fn lemma_range_beyond_cutoff(
    particles: Seq<Particle>,
    rules: Seq<ParticleRule>,
    range_size: i32,
)
    requires
        particles.len() <= usize::MAX,
        range_size >= CUTOFF,
    ensures
        tick(particles, rules, range_size) == tick(particles, rules, CUTOFF as i32),
{
    let n = particles.len();
    let all = index_of(particles, n).all_entries();
    lemma_index_of(particles, n);
    assert forall|i: int| 0 <= i < n implies evolved(particles, rules, range_size, i) == evolved(
        particles,
        rules,
        CUTOFF as i32,
        i,
    ) by {
        lemma_rules_beyond_cutoff(
            rules,
            particles[i],
            particles[i].pos,
            all,
            particles,
            range_size,
            rules.len(),
        );
    }
    assert(tick(particles, rules, range_size) =~= tick(particles, rules, CUTOFF as i32));
}

/// What a world is, to its contracts.
pub struct WorldView {
    /// The population, in its order.
    pub particles: Seq<Particle>,
    /// Half the side of the square that the world was asked to search for a particle's
    /// neighbours. A tick searches no smaller square than that of the cutoff.
    pub range_size: i32,
    /// The index that the last tick built: empty before the first.
    pub index: Node,
}

/// A population of particles with the index of its last tick.
pub struct ParticleWorld {
    particles: Vec<Particle>,
    range_size: i32,
    tree: QuadTree,
}

impl View for ParticleWorld {
    type V = WorldView;

    closed spec fn view(&self) -> WorldView {
        WorldView {
            particles: self.particles@,
            range_size: self.range_size,
            index: self.tree@,
        }
    }
}

/// The random number generator that `rand` keeps for each thread. Nothing inside it is
/// known here.
#[verifier::external_type_specification]
#[verifier::external_body]
pub struct ExThreadRng(rand::rngs::ThreadRng);

/// The generator of the calling thread: `rand::thread_rng`. Nothing is claimed of
/// it. It stops the program if the system gives it no seed.
pub assume_specification[ rand::thread_rng ]() -> (rng: ThreadRng);

/// A number from `low` up to but not including `high`: `Rng::gen_range`
/// on a half-open range of `i32`. The contract claims that the number lies in the range,
/// and nothing of which one it is. The call fails on an empty range, which `requires`
/// leaves out. It also stops the program if the generator has to take a new seed from
/// the system and the system gives none, which no `requires` can leave out.
#[verifier::external_body]
fn gen_range(rng: &mut ThreadRng, low: i32, high: i32) -> (drawn: i32)
    requires
        low < high,
    ensures
        low <= drawn < high,
{
    rng.gen_range(low..high)
}

/// A particle at rest on the whole units `(x, y)`.
pub open spec fn resting(x: int, y: int, color: ParticleColor) -> Particle {
    Particle { pos: XY { x: (x * UNIT) as i32, y: (y * UNIT) as i32 }, vx: 0, vy: 0, color }
}

/// Makes the particle [`resting`] at `(x, y)`, which are to lie in the world.
pub fn particle_at(x: i32, y: i32, color: ParticleColor) -> (p: Particle)
    requires
        0 <= x < WORLD_SIDE,
        0 <= y < WORLD_SIDE,
    ensures
        p == resting(x as int, y as int, color),
        world_boundary().contains(p.pos) <==> x > 0 && y > 0,
{
    Particle { pos: XY { x: x * UNIT, y: y * UNIT }, vx: 0, vy: 0, color }
}

/// Whether `p` is a particle of the given colour at rest on a whole unit of the world.
pub open spec fn fresh(p: Particle, color: ParticleColor) -> bool {
    exists|x: int, y: int|
        0 <= x < WORLD_SIDE && 0 <= y < WORLD_SIDE && p == #[trigger] resting(x, y, color)
}

/// `number` particles of one colour, each at rest on a whole unit of the world that
/// chance picks. None for a `number` of zero or less.
pub fn create_particles(number: i32, color: ParticleColor) -> (group: Vec<Particle>)
    ensures
        group.len() == (if number > 0 { number as int } else { 0 }),
        forall|i: int| 0 <= i < group.len() ==> fresh(#[trigger] group[i], color),
{
    let mut group: Vec<Particle> = Vec::new();
    let mut rng = rand::thread_rng();
    let mut made: i32 = 0;
    while made < number
        invariant
            0 <= made,
            number > 0 ==> made <= number,
            number <= 0 ==> made == 0,
            group.len() == made,
            forall|i: int| 0 <= i < group.len() ==> fresh(#[trigger] group[i], color),
        decreases number - made,
    {
        let x: i32 = gen_range(&mut rng, 0, WORLD_SIDE);
        let y: i32 = gen_range(&mut rng, 0, WORLD_SIDE);
        let p = particle_at(x, y, color);
        assert(fresh(p, color)) by {
            assert(p == resting(x as int, y as int, color));
        }
        group.push(p);
        made = made + 1;
    }
    group
}

/// An empty tree over the world.
fn world_tree() -> (tree: QuadTree)
    ensures
        tree.wf(),
        tree@ == Node::leaf(world_boundary(), 0),
{
    let square = AABB::new(WORLD_CENTER, WORLD_CENTER, WORLD_HALF).unwrap();
    assert(world_boundary().fits());
    QuadTree::new(square, 0).unwrap()
}

/// Builds the index of a population: see [`index_of`].
fn build_index(particles: &Vec<Particle>) -> (tree: QuadTree)
    ensures
        tree.wf(),
        tree@ == index_of(particles@, particles@.len()),
{
    let mut tree = world_tree();
    let n: usize = particles.len();
    let mut i: usize = 0;
    while i < n
        invariant
            i <= n,
            n == particles.len(),
            tree.wf(),
            tree@ == index_of(particles@, i as nat),
        decreases n - i,
    {
        tree.insert(particles[i].pos, i);
        i = i + 1;
    }
    tree
}

/// Advances every particle by one tick against the index of the whole population.
fn advance(particles: &Vec<Particle>, tree: &QuadTree, range_size: i32, rules: &[ParticleRule]) -> (next:
    Vec<Particle>)
    requires
        tree.wf(),
        tree@ == index_of(particles@, particles@.len()),
    ensures
        next@ == tick(particles@, rules@, range_size),
{
    let mut next: Vec<Particle> = Vec::new();
    let n: usize = particles.len();
    let mut i: usize = 0;
    proof {
        lemma_index_of(particles@, particles@.len());
    }
    while i < n
        invariant
            i <= n,
            n == particles.len(),
            tree.wf(),
            tree@ == index_of(particles@, particles@.len()),
            forall|k: int|
                0 <= k < tree@.all_entries().len() ==> (#[trigger] tree@.all_entries()[k]).1 < n,
            next.len() == i,
            forall|k: int|
                0 <= k < i ==> next[k] == evolved(particles@, rules@, range_size, k),
        decreases n - i,
    {
        let mut p: Particle = particles[i];
        let square = AABB { center: p.pos, half_dimension: range_size };
        let in_range: Vec<usize> = tree.query_range(&square);
        assert forall|k: int| 0 <= k < in_range.len() implies in_range[k] < particles.len() by {
            let id = in_range[k];
            assert(in_range@.contains(id));
            lemma_select_members(tree@.all_entries(), square, id);
        }
        let distances: Vec<u64> = ParticleRule::get_distances(&p, &in_range, particles);
        let m: usize = rules.len();
        let mut j: usize = 0;
        while j < m
            invariant
                j <= m,
                m == rules.len(),
                in_range.len() == distances.len(),
                forall|k: int| 0 <= k < in_range.len() ==> in_range[k] < particles.len(),
                p == ParticleRule::applied_all(
                    rules@,
                    particles@[i as int],
                    in_range@,
                    particles@,
                    distances@,
                    j as nat,
                ),
            decreases m - j,
        {
            rules[j].run(&mut p, &in_range, particles, &distances);
            j = j + 1;
        }
        next.push(p);
        i = i + 1;
    }
    assert(next@ =~= tick(particles@, rules@, range_size));
    next
}

impl ParticleWorld {
    #[verifier::type_invariant]
    spec fn inv(self) -> bool {
        self.tree.wf()
    }

    /// A world of the given particles, in which a particle's neighbours are sought in the
    /// square of half side `range_size` around it, or in that of the cutoff if
    /// `range_size` is smaller. Either way a particle feels every indexed particle
    /// nearer than the cutoff, and no other: `range_size` changes no tick.
    ///
    /// A `range_size` of zero or less is refused.
    pub fn new(particles: Vec<Particle>, range_size: i32) -> (made: Result<ParticleWorld, ConfigError>)
        ensures
            range_size <= 0 ==> made == Err::<ParticleWorld, ConfigError>(
                ConfigError::NonPositiveHalfExtent,
            ),
            range_size > 0 ==> made is Ok && made->Ok_0@ == (WorldView {
                particles: particles@,
                range_size,
                index: Node::leaf(world_boundary(), 0),
            }),
    {
        if range_size <= 0 {
            return Err(ConfigError::NonPositiveHalfExtent);
        }
        Ok(ParticleWorld { particles, range_size, tree: world_tree() })
    }

    /// One tick: the index is built anew from the positions of all particles, and then
    /// every particle is advanced against it by every rule in turn. Its neighbours are
    /// the indexed particles strictly inside the square of the cutoff as half side around
    /// it. All particles see the population as it was before the tick, none is added or
    /// lost, and each keeps its colour.
    pub fn update(&mut self, rules: &[ParticleRule])
        ensures
            final(self)@.particles == tick(old(self)@.particles, rules@, CUTOFF as i32),
            final(self)@.particles.len() == old(self)@.particles.len(),
            forall|i: int|
                0 <= i < old(self)@.particles.len() ==> (#[trigger] final(self)@.particles[i]).color
                    == old(self)@.particles[i].color,
            final(self)@.index == index_of(old(self)@.particles, old(self)@.particles.len()),
            final(self)@.range_size == old(self)@.range_size,
    {
        let tree = build_index(&self.particles);
        let half: i32 = if self.range_size > CUTOFF as i32 {
            self.range_size
        } else {
            CUTOFF as i32
        };
        let new_particles = advance(&self.particles, &tree, half, rules);
        let count: usize = self.particles.len();
        proof {
            assert(self.particles@.len() == count);
            lemma_range_beyond_cutoff(self.particles@, rules@, half);
            assert forall|i: int| 0 <= i < self.particles@.len() implies (#[trigger] new_particles@[i]).color
                == self.particles@[i].color by {
                lemma_tick_keeps_colours(self.particles@, rules@, CUTOFF as i32, i);
            }
        }
        self.tree = tree;
        self.particles = new_particles;
    }

    /// The population.
    pub fn particles(&self) -> (all: &Vec<Particle>)
        ensures
            all@ == self@.particles,
    {
        &self.particles
    }

    /// The index that the last tick built.
    pub fn tree(&self) -> (index: &QuadTree)
        ensures
            index.wf(),
            index@ == self@.index,
    {
        proof {
            use_type_invariant(self);
        }
        &self.tree
    }

    /// Half the side of the square that the world was asked to search for neighbours.
    pub fn range_size(&self) -> (half: i32)
        ensures
            half == self@.range_size,
    {
        self.range_size
    }
}

} // verus!
