use differential_growth::color::Color;
use differential_growth::geometry::{
    clamp, div_away_from_zero, div_toward_zero, isqrt, limit_magnitude, scale_to_length, Vec2, MAX_COORD, UNIT,
};
use differential_growth::system::{wrap, ParticleSystem, SystemError, MAX_RADIUS};

fn ring(count: usize, radius: i64, influence: i64) -> ParticleSystem {
    let mut ps = ParticleSystem::with_radii(influence, 4 * UNIT);
    let rolls: Vec<u32> = (0..count as u32).collect();
    assert_eq!(ps.spawn_particles(count, radius, &rolls), Ok(()));
    ps
}

fn assert_closed(ps: &ParticleSystem) {
    for i in 0..ps.len() {
        let (p, n) = ps.links(i);
        assert_ne!(p, i);
        assert_ne!(n, i);
        assert_eq!(ps.links(p).1, i);
        assert_eq!(ps.links(n).0, i);
    }
}

#[test]
fn wrap_wraps_both_ends() {
    assert_eq!(wrap(-1, 8), 7);
    assert_eq!(wrap(8, 8), 0);
    assert_eq!(wrap(3, 8), 3);
    assert_eq!(wrap(0, 8), 0);
}

#[test]
fn integer_helpers_exact_values() {
    assert_eq!(div_toward_zero(-7, 2), -3);
    assert_eq!(div_toward_zero(7, 2), 3);
    assert_eq!(div_away_from_zero(7, 2), 4);
    assert_eq!(div_away_from_zero(-7, 2), -4);
    assert_eq!(div_away_from_zero(1, 1000), 1);
    assert_eq!(div_away_from_zero(0, 1000), 0);
    assert_eq!(isqrt(0), 0);
    assert_eq!(isqrt(15), 3);
    assert_eq!(isqrt(16), 4);
    assert_eq!(isqrt(1 << 64), 1 << 32);
    assert_eq!(clamp(5, 3), 3);
    assert_eq!(clamp(-5, 3), -3);
    assert_eq!(clamp(2, 3), 2);
    assert_eq!(limit_magnitude(3000, 4000, 512), (307, 409));
    assert_eq!(limit_magnitude(-3000, 4000, 512), (-307, 409));
    assert_eq!(limit_magnitude(100, 0, 512), (100, 0));
    assert_eq!(scale_to_length(65536, 65536, 25600), (18102, 18102));
}

#[test]
fn colors_exact_values() {
    let c = Color::seeded(1234567);
    assert_eq!(c, Color { r: 83, g: 45, b: 65, a: 255 });
    let a = Color { r: 10, g: 20, b: 255, a: 255 };
    let b = Color { r: 11, g: 0, b: 254, a: 1 };
    assert_eq!(a.average(&b), Color { r: 10, g: 10, b: 254, a: 128 });
    assert_eq!(Color::diagnostic(5, 10, 10, 10), Color { r: 127, g: 255, b: 153, a: 255 });
    assert_eq!(Color::diagnostic(0, 0, 0, 0), Color { r: 0, g: 0, b: 26, a: 255 });
    assert_eq!(Color::display(5, 10, 10, 10, 1, 2), Color { r: 127, g: 255, b: 153, a: 192 });
    assert_eq!(Color::display(5, 10, 10, 10, 0, 0), Color { r: 127, g: 255, b: 153, a: 255 });
}

#[test]
fn spawn_eight_at_radius_hundred() {
    let ps = ring(8, 100 * UNIT, 12 * UNIT);
    assert_eq!(ps.len(), 8);
    for k in 0..8usize {
        assert_eq!(ps.links(k), ((k + 7) % 8, (k + 1) % 8));
        let p = ps.position(k);
        let d2 = (p.x as i128) * (p.x as i128) + (p.y as i128) * (p.y as i128);
        let d = isqrt(d2 as u128) as i64;
        assert!((d - 100 * UNIT).abs() <= 2, "particle {} at distance {}", k, d);
        assert_eq!(ps.pressure(k), Vec2 { x: 0, y: 0 });
        assert_eq!(ps.attraction(k), Vec2 { x: 0, y: 0 });
        assert_eq!(ps.neighbor_count(k), 0);
        assert_eq!(ps.color(k), Color::seeded(k as u32));
    }
    assert_eq!(ps.position(0), Vec2 { x: 25600, y: 0 });
    assert_eq!(ps.position(1), Vec2 { x: 18102, y: 18102 });
    assert_eq!(ps.position(2), Vec2 { x: 0, y: 25600 });
    assert_eq!(ps.position(6), Vec2 { x: 0, y: -25600 });
}

#[test]
fn spawn_rejects_bad_arguments() {
    let mut ps = ParticleSystem::new();
    let rolls = vec![0u32; 8];
    assert_eq!(ps.spawn_particles(2, 100, &rolls), Err(SystemError::InvalidArgument));
    assert_eq!(ps.spawn_particles(0, 100, &rolls), Err(SystemError::InvalidArgument));
    assert_eq!(ps.spawn_particles(3, 0, &rolls), Err(SystemError::InvalidArgument));
    assert_eq!(ps.spawn_particles(3, -5, &rolls), Err(SystemError::InvalidArgument));
    assert_eq!(ps.spawn_particles(3, MAX_COORD + 1, &rolls), Err(SystemError::InvalidArgument));
    assert_eq!(ps.len(), 0);
    assert_eq!(ps.spawn_particles(3, MAX_COORD, &rolls), Ok(()));
    assert_eq!(ps.len(), 3);
}

#[test]
fn spawn_twice_makes_two_cycles() {
    let mut ps = ring(3, 10 * UNIT, 12 * UNIT);
    let rolls = vec![7u32; 4];
    assert_eq!(ps.spawn_particles(4, 20 * UNIT, &rolls), Ok(()));
    assert_eq!(ps.len(), 7);
    assert_eq!(ps.links(0), (2, 1));
    assert_eq!(ps.links(3), (6, 4));
    assert_eq!(ps.links(6), (5, 3));
    assert_closed(&ps);
}

#[test]
fn split_inserts_between_linked_pair() {
    let mut ps = ring(4, 10 * UNIT, 12 * UNIT);
    let c0 = ps.color(0);
    let c1 = ps.color(1);
    ps.split_at(0, 1);
    assert_eq!(ps.len(), 5);
    assert_eq!(ps.links(4), (0, 1));
    assert_eq!(ps.links(0), (3, 4));
    assert_eq!(ps.links(1), (4, 2));
    assert_eq!(ps.position(4), Vec2 { x: 1280, y: 1280 });
    assert_eq!(ps.color(4), c0.average(&c1));
    assert_eq!(ps.pressure(4), Vec2 { x: 0, y: 0 });
    assert_closed(&ps);
}

#[test]
fn neighbors_exclude_self_and_links() {
    let ps = ring(4, 10 * UNIT, 50 * UNIT);
    for i in 0..4usize {
        let nb = ps.get_neighbors_of_particle(i);
        let (p, n) = ps.links(i);
        assert_eq!(nb, vec![(i + 2) % 4]);
        assert!(!nb.contains(&i) && !nb.contains(&p) && !nb.contains(&n));
    }
    let far = ring(4, 10 * UNIT, 12 * UNIT);
    assert!(far.get_neighbors_of_particle(0).is_empty());
    let small = ring(8, 100 * UNIT, MAX_RADIUS);
    for i in 0..8usize {
        let nb = small.get_neighbors_of_particle(i);
        assert_eq!(nb.len(), 5);
        let (p, n) = small.links(i);
        assert!(!nb.contains(&i) && !nb.contains(&p) && !nb.contains(&n));
    }
}

#[test]
fn step_without_splitting_pulls_and_pushes() {
    let mut ps = ring(4, 10 * UNIT, 50 * UNIT);
    ps.set_split_rule(16, 0);
    let before: Vec<Vec2> = (0..4).map(|i| ps.position(i)).collect();
    ps.update(&vec![0u32; 4]);
    assert_eq!(ps.len(), 4);
    for i in 0..4usize {
        let (p, n) = ps.links(i);
        let mid_x = (before[p].x + before[n].x) / 2;
        let mid_y = (before[p].y + before[n].y) / 2;
        let a = ps.attraction(i);
        assert_eq!(a, Vec2 { x: mid_x - before[i].x, y: mid_y - before[i].y });
        assert_ne!(ps.pressure(i), Vec2 { x: 0, y: 0 });
        assert_eq!(ps.neighbor_count(i), 1);
        assert_eq!(ps.color(i), Color { r: 255, g: 255, b: 255, a: 128 });
    }
    assert_eq!(ps.attraction(0), Vec2 { x: -2560, y: 0 });
    assert_eq!(ps.pressure(0), Vec2 { x: 205, y: 0 });
    assert_eq!(ps.position(0), Vec2 { x: 1065, y: 0 });
    assert_eq!(ps.pressure(1), Vec2 { x: 0, y: 205 });
    assert_eq!(ps.position(1), Vec2 { x: 0, y: 1065 });
}

#[test]
fn step_splits_every_sparse_edge() {
    let mut ps = ring(4, 10 * UNIT, 12 * UNIT);
    ps.update(&vec![0u32; 4]);
    assert_eq!(ps.len(), 8);
    assert_eq!(ps.position(0), Vec2 { x: 1024, y: 0 });
    assert_eq!(ps.links(4), (0, 1));
    assert_eq!(ps.links(5), (1, 2));
    assert_eq!(ps.links(6), (2, 3));
    assert_eq!(ps.links(7), (3, 0));
    assert_eq!(ps.links(0), (7, 4));
    assert_eq!(ps.position(4), Vec2 { x: 512, y: 512 });
    assert_closed(&ps);
}

#[test]
fn step_split_gated_by_rolls() {
    let mut ps = ring(4, 10 * UNIT, 12 * UNIT);
    ps.update(&vec![0, u32::MAX, u32::MAX, 5]);
    assert_eq!(ps.len(), 6);
    assert_eq!(ps.links(4), (0, 1));
    assert_eq!(ps.links(5), (3, 0));
    assert_closed(&ps);
}

#[test]
fn growth_is_monotone_and_bounded() {
    let mut ps = ring(8, 30 * UNIT, 12 * UNIT);
    let mut seed: u32 = 12345;
    for _ in 0..40 {
        let n = ps.len();
        let rolls: Vec<u32> = (0..n)
            .map(|_| {
                seed = seed.wrapping_mul(1664525).wrapping_add(1013904223);
                seed
            })
            .collect();
        ps.update(&rolls);
        assert!(ps.len() >= n && ps.len() <= 2 * n);
        assert_closed(&ps);
        for i in 0..ps.len() {
            let p = ps.position(i);
            assert!(p.x.abs() <= MAX_COORD && p.y.abs() <= MAX_COORD);
            let q = ps.pressure(i);
            assert!(q.x.abs() <= 512 && q.y.abs() <= 512);
        }
    }
    assert!(ps.len() > 8);
}

#[test]
fn coincident_particles_stay_finite() {
    let mut ps = ring(3, 1, 12 * UNIT);
    ps.set_split_rule(16, 0);
    for _ in 0..5 {
        ps.update(&vec![0u32; 3]);
    }
    for i in 0..3usize {
        let p = ps.position(i);
        assert!(p.x.abs() <= 1 && p.y.abs() <= 1);
    }
}

#[test]
fn snapshot_copies_render_state() {
    let mut ps = ring(5, 40 * UNIT, 12 * UNIT);
    ps.update(&vec![u32::MAX; 5]);
    let snap = ps.snapshot();
    assert_eq!(snap.positions.len(), 5);
    assert_eq!(snap.colors.len(), 5);
    for i in 0..5usize {
        assert_eq!(snap.positions[i], ps.position(i));
        assert_eq!(snap.colors[i], ps.color(i));
        assert_eq!(snap.links[i], ps.links(i));
    }
    assert_eq!(ps.influence_radius(), 12 * UNIT);
    assert_eq!(ps.particle_radius(), 4 * UNIT);
}

#[test]
fn default_system_is_empty() {
    let ps = ParticleSystem::new();
    assert_eq!(ps.len(), 0);
    assert_eq!(ps.influence_radius(), 12 * UNIT);
    assert_eq!(ps.particle_radius(), 4 * UNIT);
}

#[test]
fn tiny_offsets_still_push() {
    let mut ps = ring(4, UNIT, MAX_RADIUS);
    ps.set_split_rule(16, 0);
    ps.update(&vec![0u32; 4]);
    for i in 0..4usize {
        assert_eq!(ps.neighbor_count(i), 1);
        assert_ne!(ps.pressure(i), Vec2 { x: 0, y: 0 });
    }
    assert_eq!(ps.pressure(0), Vec2 { x: 1, y: 0 });
    assert_eq!(ps.pressure(2), Vec2 { x: -1, y: 0 });
    assert_eq!(ps.position(0), Vec2 { x: 103, y: 0 });
}
