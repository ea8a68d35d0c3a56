use sand::helpers::PColor;
use sand::particle::{Particle, ParticleType};
use sand::world::{Direction, ParticleSource, World, WorldApi};

fn count(world: &World, t: ParticleType) -> usize {
    let mut n = 0;
    for x in 0..world.width() {
        for y in 0..world.height() {
            if world.particle_at((x, y)).particle_type == t {
                n += 1;
            }
        }
    }
    n
}

fn border_intact(world: &World) -> bool {
    for x in 0..world.width() {
        for y in 0..world.height() {
            let ring = x == 0 || y == 0 || x == world.width() - 1 || y == world.height() - 1;
            if ring && world.particle_at((x, y)).particle_type != ParticleType::Border {
                return false;
            }
        }
    }
    true
}

#[test]
fn new_world_has_a_border_ring_and_empty_inside() {
    let world = World::new(32, 48, 16);
    assert_eq!(world.width(), 32);
    assert_eq!(world.height(), 48);
    assert_eq!(world.chunk_size(), 16);
    assert!(border_intact(&world));
    assert_eq!(count(&world, ParticleType::Border), 2 * 32 + 2 * 48 - 4);
    assert_eq!(count(&world, ParticleType::Empty), 30 * 46);
    for cx in 0..2 {
        for cy in 0..3 {
            assert!(world.chunk_awake(cx, cy));
        }
    }
    assert_eq!(world.source_at((5, 5)), None);
    assert!(world.portal_at((5, 5)).is_none());
    assert!(!world.portal_exists_at((5, 5)));
}

#[test]
fn empty_world_is_allowed() {
    let world = World::new(0, 0, 16);
    assert_eq!(world.width(), 0);
    assert_eq!(world.height(), 0);
}

#[test]
fn index_to_xy_is_row_major() {
    let world = World::new(32, 32, 16);
    assert_eq!(world.index_to_xy(0), (0, 0));
    assert_eq!(world.index_to_xy(33), (1, 1));
    assert_eq!(world.index_to_xy(31), (31, 0));
}

#[test]
fn adding_particles_follows_the_replace_rules() {
    let mut world = World::new(32, 32, 16);
    world.add_new_particle(ParticleType::Sand, (5, 5), false);
    assert_eq!(world.particle_at((5, 5)).particle_type, ParticleType::Sand);
    world.add_new_particle(ParticleType::Water, (5, 5), false);
    assert_eq!(world.particle_at((5, 5)).particle_type, ParticleType::Sand);
    world.add_new_particle(ParticleType::Water, (5, 5), true);
    assert_eq!(world.particle_at((5, 5)).particle_type, ParticleType::Water);
    world.add_new_particle(ParticleType::Empty, (5, 5), false);
    assert_eq!(world.particle_at((5, 5)).particle_type, ParticleType::Empty);
    world.add_new_particle(ParticleType::Sand, (0, 0), true);
    assert_eq!(world.particle_at((0, 0)).particle_type, ParticleType::Border);
    world.add_new_particle(ParticleType::Empty, (31, 7), true);
    assert_eq!(world.particle_at((31, 7)).particle_type, ParticleType::Border);
    assert!(border_intact(&world));
}

#[test]
fn sources_are_placed_kept_and_deleted() {
    let mut world = World::new(32, 32, 16);
    world.add_new_source(ParticleType::Sand, (3, 3), false, false);
    assert_eq!(world.source_at((3, 3)), Some(ParticleSource { particle_type: ParticleType::Sand, replaces: false }));
    world.add_new_source(ParticleType::Water, (3, 3), true, false);
    assert_eq!(world.source_at((3, 3)), Some(ParticleSource { particle_type: ParticleType::Sand, replaces: false }));
    world.add_new_source(ParticleType::Water, (3, 3), true, true);
    assert_eq!(world.source_at((3, 3)), Some(ParticleSource { particle_type: ParticleType::Water, replaces: true }));
    world.delete_source((3, 3));
    assert_eq!(world.source_at((3, 3)), None);
    assert_eq!(world.particle_at((3, 3)).particle_type, ParticleType::Empty);
}

#[test]
fn sources_emit_only_on_their_cells() {
    let mut world = World::new(32, 32, 16);
    world.add_new_source(ParticleType::Sand, (10, 2), false, false);
    for _ in 0..200 {
        world.update_all();
        world.refresh();
    }
    assert!(count(&world, ParticleType::Sand) >= 1);
    assert!(border_intact(&world));
}

#[test]
fn portals_link_both_ways() {
    let mut world = World::new(32, 32, 16);
    let red = PColor::new(255, 0, 0);
    assert!(world.add_new_portal((5, 5), None, Direction::Right, red));
    assert!(!world.add_new_portal((5, 5), None, Direction::Left, red));
    assert!(world.add_new_portal((20, 20), Some((5, 5)), Direction::Left, red));
    let a = world.portal_at((5, 5)).unwrap();
    let b = world.portal_at((20, 20)).unwrap();
    assert_eq!(a.partner_xy, Some((20, 20)));
    assert_eq!(b.partner_xy, Some((5, 5)));
    assert_eq!(a.direction, Direction::Right);
    assert_eq!(b.direction, Direction::Left);
    assert!(world.portal_exists_at((20, 20)));
}

#[test]
fn relative_steps_go_through_portals() {
    let mut world = World::new(32, 32, 16);
    let c = PColor::new(0, 255, 0);
    assert_eq!(world.relative_xy((5, 6), (1, 0)), (6, 6));
    assert_eq!(world.relative_xy((5, 6), (-1, -1)), (4, 5));
    assert_eq!(world.relative_xy((1, 0), (-1, 0)), (0, 0));
    world.add_new_portal((5, 5), None, Direction::Right, c);
    assert_eq!(world.relative_xy((5, 5), (1, 0)), (6, 5));
    world.add_new_portal((20, 20), Some((5, 5)), Direction::Left, c);
    assert_eq!(world.relative_xy((5, 5), (1, 0)), (20, 20));
    assert_eq!(world.relative_xy((20, 20), (-1, 0)), (5, 5));
    assert_eq!(world.relative_xy((5, 5), (0, 1)), (5, 6));
    assert_eq!(world.relative_xy((5, 5), (1, 1)), (6, 6));
}

#[test]
fn direction_offsets() {
    assert_eq!(Direction::Up.dxdy(), (0, -1));
    assert_eq!(Direction::Right.dxdy(), (1, 0));
    assert_eq!(Direction::Down.dxdy(), (0, 1));
    assert_eq!(Direction::Left.dxdy(), (-1, 0));
}

#[test]
fn neighbours_seen_from_a_cell() {
    let mut world = World::new(32, 32, 16);
    world.add_new_particle(ParticleType::Water, (6, 5), false);
    let api = WorldApi::new((5, 5));
    assert_eq!(api.xy(), (5, 5));
    assert_eq!(api.neighbour(&world, (1, 0)).particle_type, ParticleType::Water);
    assert_eq!(api.neighbour(&world, (0, 1)).particle_type, ParticleType::Empty);
    let edge = WorldApi::new((1, 1));
    assert_eq!(edge.neighbour(&world, (-1, 0)).particle_type, ParticleType::Border);
}

#[test]
fn sand_is_conserved_and_border_kept() {
    let mut world = World::new(32, 32, 16);
    world.add_new_particle(ParticleType::Sand, (10, 3), false);
    world.add_new_particle(ParticleType::Sand, (11, 3), false);
    world.add_new_particle(ParticleType::Water, (12, 3), false);
    for _ in 0..100 {
        world.update_all();
        world.refresh();
        assert_eq!(count(&world, ParticleType::Sand), 2);
        assert_eq!(count(&world, ParticleType::Water), 1);
        assert!(border_intact(&world));
    }
}

#[test]
fn refresh_clears_the_updated_flags() {
    let mut world = World::new(32, 32, 16);
    world.add_new_particle(ParticleType::Concrete, (10, 10), false);
    world.update_all();
    assert!(world.particle_at((10, 10)).updated);
    world.refresh();
    assert!(!world.particle_at((10, 10)).updated);
}

#[test]
fn flame_without_fire_goes_out() {
    let mut world = World::new(32, 32, 16);
    world.add_new_particle(ParticleType::Flame, (10, 10), false);
    // A flame has no fuel: it burns once and then its cell is emptied.
    world.update_all();
    assert_eq!(world.particle_at((10, 10)).particle_type, ParticleType::Empty);
}

#[test]
fn a_mixed_world_runs() {
    let mut world = World::new(64, 64, 16);
    let kinds = [
        ParticleType::Sand,
        ParticleType::Water,
        ParticleType::Steam,
        ParticleType::Fungus,
        ParticleType::Flame,
        ParticleType::Methane,
        ParticleType::Gunpowder,
        ParticleType::Oil,
        ParticleType::Wood,
        ParticleType::Acid,
        ParticleType::Concrete,
    ];
    for (i, k) in kinds.iter().enumerate() {
        for j in 0..6 {
            world.add_new_particle(*k, (3 + 5 * i, 10 + j), false);
        }
    }
    let c = PColor::new(1, 2, 3);
    world.add_new_portal((30, 40), None, Direction::Down, c);
    world.add_new_portal((40, 20), Some((30, 40)), Direction::Up, c);
    world.add_new_source(ParticleType::Water, (50, 2), false, false);
    for _ in 0..150 {
        world.update_all();
        world.refresh();
        assert!(border_intact(&world));
    }
    let p: &Particle = world.particle_at((0, 0));
    assert_eq!(p.particle_type, ParticleType::Border);
}

#[test]
fn a_woken_chunk_is_updated_in_the_next_frame() {
    let mut world = World::new(32, 32, 16);
    // A new world has every chunk due, so the first frame updates them all.
    world.update_all();
    for cx in 0..2 {
        for cy in 0..2 {
            assert!(world.chunk_awake(cx, cy));
        }
    }
    world.refresh();
    // Nothing in an empty world wakes a chunk, so the next frame sleeps.
    world.update_all();
    for cx in 0..2 {
        for cy in 0..2 {
            assert!(!world.chunk_awake(cx, cy));
        }
    }
    world.refresh();
    // A concrete block in the middle of chunk (1, 0) wakes only that chunk.
    world.add_new_particle(ParticleType::Concrete, (24, 8), false);
    world.update_all();
    assert!(world.chunk_awake(1, 0));
    assert!(!world.chunk_awake(0, 0));
    assert!(!world.chunk_awake(0, 1));
    assert!(!world.chunk_awake(1, 1));
    assert!(world.particle_at((24, 8)).updated);
}

#[test]
fn portal_strips_lie_on_the_side_they_lead_through() {
    assert_eq!(Direction::Up.portal_strip(), (0, 0, 4, 1));
    assert_eq!(Direction::Right.portal_strip(), (3, 0, 1, 4));
    assert_eq!(Direction::Down.portal_strip(), (0, 3, 4, 1));
    assert_eq!(Direction::Left.portal_strip(), (0, 0, 1, 4));
}

#[test]
fn replacing_sources_and_sinks_get_a_dark_hatch() {
    let plain = ParticleSource { particle_type: ParticleType::Sand, replaces: false };
    let replacing = ParticleSource { particle_type: ParticleType::Sand, replaces: true };
    let sink = ParticleSource { particle_type: ParticleType::Empty, replaces: false };
    assert!(!plain.hatch_is_dark());
    assert!(replacing.hatch_is_dark());
    assert!(sink.hatch_is_dark());
}

#[test]
fn burning_wood_without_fuel_burns_out() {
    let mut world = World::new(32, 32, 16);
    world.add_new_particle(ParticleType::Wood, (10, 10), false);
    let mut wood = *world.particle_at((10, 10));
    wood.set_burning(true);
    wood.fuel = Some(0);
    WorldApi::new((10, 10)).replace_with(&mut world, (0, 0), wood);
    world.update_all();
    assert_eq!(world.particle_at((10, 10)).particle_type, ParticleType::Empty);
}

#[test]
fn burning_wood_uses_a_unit_of_fuel_each_frame() {
    let mut world = World::new(32, 32, 16);
    world.add_new_particle(ParticleType::Wood, (10, 10), false);
    let mut wood = *world.particle_at((10, 10));
    wood.set_burning(true);
    wood.fuel = Some(5);
    WorldApi::new((10, 10)).replace_with(&mut world, (0, 0), wood);
    world.update_all();
    world.refresh();
    let after = world.particle_at((10, 10));
    assert_eq!(after.particle_type, ParticleType::Wood);
    assert_eq!(after.fuel, Some(4));
    world.update_all();
    assert_eq!(world.particle_at((10, 10)).fuel, Some(3));
}

#[test]
fn moving_materials_keep_their_numbers() {
    let mut world = World::new(48, 48, 16);
    let kinds = [
        ParticleType::Sand,
        ParticleType::Water,
        ParticleType::Methane,
        ParticleType::Gunpowder,
        ParticleType::Oil,
    ];
    for (i, k) in kinds.iter().enumerate() {
        for j in 0..4 {
            world.add_new_particle(*k, (5 + 8 * i, 20 + j), false);
        }
    }
    for _ in 0..120 {
        world.update_all();
        world.refresh();
        for k in kinds.iter() {
            assert_eq!(count(&world, *k), 4);
        }
        assert_eq!(count(&world, ParticleType::Empty), 46 * 46 - 20);
    }
}

#[test]
fn steam_condenses_into_as_much_water() {
    let mut world = World::new(32, 32, 16);
    for x in 10..14 {
        world.add_new_particle(ParticleType::Steam, (x, 20), false);
    }
    for _ in 0..500 {
        world.update_all();
        world.refresh();
        let steam = count(&world, ParticleType::Steam);
        let water = count(&world, ParticleType::Water);
        assert_eq!(steam + water, 4);
    }
}

#[test]
fn acid_only_eats() {
    let mut world = World::new(32, 32, 16);
    for x in 8..24 {
        world.add_new_particle(ParticleType::Concrete, (x, 28), false);
        world.add_new_particle(ParticleType::Sand, (x, 27), false);
        world.add_new_particle(ParticleType::Acid, (x, 20), false);
    }
    let mut last = [16, 16, 16];
    for _ in 0..300 {
        world.update_all();
        world.refresh();
        let now = [
            count(&world, ParticleType::Acid),
            count(&world, ParticleType::Sand),
            count(&world, ParticleType::Concrete),
        ];
        for i in 0..3 {
            assert!(now[i] <= last[i]);
        }
        last = now;
        assert!(border_intact(&world));
    }
}


#[test]
fn fire_turns_water_into_steam_and_makes_nothing_else() {
    let mut world = World::new(32, 32, 16);
    for y in 10..20 {
        world.add_new_particle(ParticleType::Wood, (15, y), false);
        world.add_new_particle(ParticleType::Wood, (16, y), false);
    }
    for y in 10..20 {
        world.add_new_particle(ParticleType::Concrete, (14, y), false);
        world.add_new_particle(ParticleType::Concrete, (17, y), false);
    }
    world.add_new_particle(ParticleType::Flame, (15, 9), false);
    world.add_new_particle(ParticleType::Flame, (16, 9), false);
    for x in 18..24 {
        for y in 24..30 {
            world.add_new_particle(ParticleType::Water, (x, y), false);
        }
    }
    for y in 20..30 {
        world.add_new_particle(ParticleType::Wood, (17, y), false);
        world.add_new_particle(ParticleType::Flame, (16, y), false);
    }
    let wet = |w: &World| count(w, ParticleType::Water) + count(w, ParticleType::Steam);
    let mut last_wood = count(&world, ParticleType::Wood);
    for _ in 0..200 {
        world.update_all();
        world.refresh();
        let wood = count(&world, ParticleType::Wood);
        assert!(wood <= last_wood);
        last_wood = wood;
        assert_eq!(count(&world, ParticleType::Concrete), 20);
        assert_eq!(wet(&world), 36);
        assert!(border_intact(&world));
    }
}

#[test]
fn a_world_of_sand_water_and_concrete_keeps_its_numbers() {
    let mut world = World::new(48, 32, 16);
    for x in 5..40 {
        world.add_new_particle(ParticleType::Concrete, (x, 25), false);
    }
    for x in 10..30 {
        world.add_new_particle(ParticleType::Sand, (x, 3), false);
        world.add_new_particle(ParticleType::Water, (x, 8), false);
    }
    let before = [
        count(&world, ParticleType::Sand),
        count(&world, ParticleType::Water),
        count(&world, ParticleType::Concrete),
        count(&world, ParticleType::Empty),
        count(&world, ParticleType::Border),
    ];
    for _ in 0..150 {
        world.update_all();
        world.refresh();
        let now = [
            count(&world, ParticleType::Sand),
            count(&world, ParticleType::Water),
            count(&world, ParticleType::Concrete),
            count(&world, ParticleType::Empty),
            count(&world, ParticleType::Border),
        ];
        assert_eq!(now, before);
    }
}

#[test]
fn fungus_grows_only_on_water_it_drank() {
    let mut world = World::new(32, 32, 16);
    for x in 8..24 {
        world.add_new_particle(ParticleType::Fungus, (x, 29), false);
    }
    for x in 8..24 {
        for y in 20..24 {
            world.add_new_particle(ParticleType::Water, (x, y), false);
        }
    }
    let total = |w: &World| {
        let mut n = 0;
        for x in 0..w.width() {
            for y in 0..w.height() {
                let p = w.particle_at((x, y));
                if p.particle_type == ParticleType::Fungus {
                    n += 1;
                    if p.watered == Some(true) {
                        n += 1;
                    }
                }
                if p.particle_type == ParticleType::Water {
                    n += 1;
                }
            }
        }
        n
    };
    let start = total(&world);
    assert_eq!(start, 16 + 64);
    for _ in 0..300 {
        world.update_all();
        world.refresh();
        assert_eq!(total(&world), start);
        assert!(border_intact(&world));
    }
}

#[test]
fn water_and_steam_are_never_lost_without_fungus() {
    let mut world = World::new(48, 48, 16);
    let kinds = [
        ParticleType::Sand,
        ParticleType::Water,
        ParticleType::Steam,
        ParticleType::Flame,
        ParticleType::Methane,
        ParticleType::Gunpowder,
        ParticleType::Oil,
        ParticleType::Wood,
        ParticleType::Acid,
        ParticleType::Concrete,
    ];
    for (i, k) in kinds.iter().enumerate() {
        for j in 0..5 {
            world.add_new_particle(*k, (3 + 4 * i, 20 + j), false);
            world.add_new_particle(*k, (4 + 4 * i, 20 + j), false);
        }
    }
    let wet = |w: &World| count(w, ParticleType::Water) + count(w, ParticleType::Steam);
    let start = wet(&world);
    assert_eq!(start, 20);
    for _ in 0..300 {
        world.update_all();
        world.refresh();
        assert_eq!(wet(&world), start);
        assert_eq!(count(&world, ParticleType::Fungus), 0);
        assert!(border_intact(&world));
    }
}

#[test]
fn a_source_emits_only_when_its_coin_says_so() {
    let mut world = World::new(32, 32, 16);
    let sand = ParticleSource { particle_type: ParticleType::Sand, replaces: false };
    let water = ParticleSource { particle_type: ParticleType::Water, replaces: true };
    world.emit_from_source((5, 5), sand, false);
    assert_eq!(world.particle_at((5, 5)).particle_type, ParticleType::Empty);
    world.emit_from_source((5, 5), sand, true);
    assert_eq!(world.particle_at((5, 5)).particle_type, ParticleType::Sand);
    world.add_new_particle(ParticleType::Concrete, (6, 6), false);
    world.emit_from_source((6, 6), sand, true);
    assert_eq!(world.particle_at((6, 6)).particle_type, ParticleType::Concrete);
    world.emit_from_source((6, 6), water, true);
    assert_eq!(world.particle_at((6, 6)).particle_type, ParticleType::Water);
    world.emit_from_source((0, 6), water, true);
    assert_eq!(world.particle_at((0, 6)).particle_type, ParticleType::Border);
}

fn fill(world: &mut World, t: ParticleType, xs: std::ops::Range<usize>, ys: std::ops::Range<usize>) {
    for x in xs {
        for y in ys.clone() {
            world.add_new_particle(t, (x, y), true);
        }
    }
}

#[test]
fn burning_wood_under_water_makes_steam_and_goes_out() {
    let mut world = World::new(32, 32, 16);
    fill(&mut world, ParticleType::Concrete, 8..13, 8..14);
    world.add_new_particle(ParticleType::Wood, (10, 11), true);
    world.add_new_particle(ParticleType::Water, (10, 10), true);
    let mut wood = *world.particle_at((10, 11));
    wood.set_burning(true);
    wood.fuel = Some(5);
    WorldApi::new((10, 11)).replace_with(&mut world, (0, 0), wood);
    world.update_all();
    assert_eq!(world.particle_at((10, 10)).particle_type, ParticleType::Steam);
    let after = world.particle_at((10, 11));
    assert_eq!(after.particle_type, ParticleType::Wood);
    assert!(!after.burning);
    assert_eq!(after.fuel, Some(4));
    assert_eq!(after.color, sand::particle::Paint::Own);
}

#[test]
fn flames_spread_by_fire_take_less_fuel() {
    for _ in 0..20 {
        let mut world = World::new(32, 32, 16);
        fill(&mut world, ParticleType::Wood, 8..13, 10..11);
        for x in 8..13 {
            let mut wood = *world.particle_at((x, 10));
            wood.set_burning(true);
            wood.fuel = Some(6);
            WorldApi::new((x, 10)).replace_with(&mut world, (0, 0), wood);
        }
        world.update_all();
        for x in 0..32 {
            for y in 0..32 {
                let p = world.particle_at((x, y));
                if p.particle_type == ParticleType::Flame {
                    assert!((0..6).contains(&p.fuel.unwrap()));
                }
            }
        }
    }
}

#[test]
fn water_on_a_floor_flows_sideways() {
    for _ in 0..20 {
        let mut world = World::new(32, 32, 16);
        fill(&mut world, ParticleType::Concrete, 1..31, 21..22);
        world.add_new_particle(ParticleType::Water, (15, 20), true);
        world.update_all();
        assert_eq!(count(&world, ParticleType::Water), 1);
        assert_eq!(world.particle_at((15, 20)).particle_type, ParticleType::Empty);
        let mut moved = false;
        for x in 1..31 {
            let p = world.particle_at((x, 20));
            if p.particle_type == ParticleType::Water {
                moved = p.moved == Some(true);
            }
        }
        assert!(moved);
    }
}

#[test]
fn sand_in_a_cup_stays_put() {
    let mut world = World::new(32, 32, 16);
    fill(&mut world, ParticleType::Concrete, 9..12, 11..12);
    world.add_new_particle(ParticleType::Sand, (10, 10), true);
    for _ in 0..5 {
        world.update_all();
        world.refresh();
        assert_eq!(world.particle_at((10, 10)).particle_type, ParticleType::Sand);
        assert_eq!(world.particle_at((10, 10)).moved, Some(false));
    }
}

#[test]
fn concrete_is_marked_updated_each_frame() {
    let mut world = World::new(32, 32, 16);
    fill(&mut world, ParticleType::Concrete, 5..25, 25..28);
    fill(&mut world, ParticleType::Sand, 5..25, 10..12);
    world.update_all();
    for x in 5..25 {
        for y in 25..28 {
            let p = world.particle_at((x, y));
            assert_eq!(p.particle_type, ParticleType::Concrete);
            assert!(p.updated);
            assert_eq!(p.durability, Some(100));
        }
    }
}

#[test]
fn acid_eats_the_concrete_below_it() {
    let mut world = World::new(32, 32, 16);
    fill(&mut world, ParticleType::Concrete, 9..12, 11..12);
    fill(&mut world, ParticleType::Concrete, 9..10, 10..11);
    fill(&mut world, ParticleType::Concrete, 11..12, 10..11);
    fill(&mut world, ParticleType::Concrete, 9..12, 9..10);
    world.add_new_particle(ParticleType::Acid, (10, 10), true);
    world.update_all();
    let acid = world.particle_at((10, 10));
    assert_eq!(acid.particle_type, ParticleType::Acid);
    assert!(acid.durability.unwrap() < ParticleType::Acid.properties().base_durability.unwrap());
    assert_eq!(world.particle_at((10, 11)).durability, Some(99));
}

#[test]
fn boxed_steam_counts_down_to_water() {
    let mut world = World::new(32, 32, 16);
    fill(&mut world, ParticleType::Concrete, 9..12, 9..12);
    world.add_new_particle(ParticleType::Steam, (10, 10), true);
    let c0 = world.particle_at((10, 10)).condensation_countdown.unwrap();
    world.update_all();
    world.refresh();
    assert_eq!(world.particle_at((10, 10)).condensation_countdown, Some(c0 - 1));
    for _ in 1..c0 {
        world.update_all();
        world.refresh();
    }
    assert_eq!(world.particle_at((10, 10)).particle_type, ParticleType::Water);
}

#[test]
fn dry_fungus_in_water_drinks() {
    let mut world = World::new(32, 32, 16);
    fill(&mut world, ParticleType::Concrete, 8..13, 8..13);
    fill(&mut world, ParticleType::Water, 9..12, 9..12);
    world.add_new_particle(ParticleType::Fungus, (10, 10), true);
    world.update_all();
    let f = world.particle_at((10, 10));
    assert_eq!(f.particle_type, ParticleType::Fungus);
    assert_eq!(f.watered, Some(true));
    assert_eq!(count(&world, ParticleType::Water), 7);
}

#[test]
fn flames_gone_out_are_cleared_in_one_frame() {
    let mut world = World::new(48, 48, 16);
    fill(&mut world, ParticleType::Water, 10..30, 5..8);
    fill(&mut world, ParticleType::Sand, 10..30, 12..14);
    let spots = [(5, 40), (20, 20), (40, 10), (33, 33)];
    for (x, y) in spots.iter() {
        world.add_new_particle(ParticleType::Flame, (*x, *y), true);
        let mut f = *world.particle_at((*x, *y));
        f.set_burning(false);
        WorldApi::new((*x, *y)).replace_with(&mut world, (0, 0), f);
    }
    world.update_all();
    for (x, y) in spots.iter() {
        let p = world.particle_at((*x, *y));
        assert!(!(p.particle_type == ParticleType::Flame && !p.burning));
    }
}

#[test]
fn relative_step_off_the_grid_wraps() {
    let world = World::new(32, 32, 16);
    assert_eq!(world.relative_xy((0, 5), (-1, 0)), (usize::MAX, 5));
    assert_eq!(world.relative_xy((31, 5), (1, 1)), (32, 6));
}

#[test]
fn acid_with_one_thing_to_eat_takes_one_bite() {
    let mut world = World::new(32, 32, 16);
    world.add_new_particle(ParticleType::Concrete, (10, 11), true);
    for xy in [(9, 11), (11, 11), (9, 10), (11, 10)] {
        world.add_new_particle(ParticleType::Border, xy, true);
    }
    world.add_new_particle(ParticleType::Acid, (10, 10), true);
    world.update_all();
    assert_eq!(world.particle_at((10, 10)).particle_type, ParticleType::Acid);
    assert_eq!(world.particle_at((10, 10)).durability, Some(49));
    assert_eq!(world.particle_at((10, 11)).durability, Some(99));
}

#[test]
fn walled_in_acid_bites_every_side_it_tries() {
    let mut world = World::new(32, 32, 16);
    fill(&mut world, ParticleType::Concrete, 9..12, 11..12);
    fill(&mut world, ParticleType::Concrete, 9..10, 10..11);
    fill(&mut world, ParticleType::Concrete, 11..12, 10..11);
    world.add_new_particle(ParticleType::Acid, (10, 10), true);
    world.update_all();
    assert_eq!(world.particle_at((10, 10)).durability, Some(45));
    for xy in [(9, 11), (10, 11), (11, 11), (9, 10), (11, 10)] {
        assert_eq!(world.particle_at(xy).durability, Some(99));
    }
}

#[test]
fn inner_border_cells_stay() {
    let mut world = World::new(32, 32, 16);
    world.add_new_particle(ParticleType::Border, (10, 10), true);
    world.add_new_particle(ParticleType::Border, (20, 25), true);
    fill(&mut world, ParticleType::Sand, 8..13, 3..6);
    fill(&mut world, ParticleType::Water, 18..23, 3..6);
    for _ in 0..60 {
        world.update_all();
        world.refresh();
        assert_eq!(world.particle_at((10, 10)).particle_type, ParticleType::Border);
        assert_eq!(world.particle_at((20, 25)).particle_type, ParticleType::Border);
        assert_eq!(count(&world, ParticleType::Border), 2 * 32 + 2 * 30 + 2);
        assert!(border_intact(&world));
    }
}

#[test]
fn crowded_space_gets_no_fungus() {
    let mut world = World::new(32, 32, 16);
    fill(&mut world, ParticleType::Fungus, 8..13, 8..13);
    for x in 8..13 {
        for y in 8..13 {
            let mut f = *world.particle_at((x, y));
            f.set_watered(true);
            WorldApi::new((x, y)).replace_with(&mut world, (0, 0), f);
        }
    }
    world.add_new_particle(ParticleType::Empty, (10, 9), true);
    for _ in 0..30 {
        world.update_all();
        world.refresh();
        assert_eq!(world.particle_at((10, 9)).particle_type, ParticleType::Empty);
    }
}

#[test]
fn methane_above_a_flame_always_catches() {
    let mut world = World::new(32, 32, 16);
    fill(&mut world, ParticleType::Concrete, 5..16, 6..13);
    world.add_new_particle(ParticleType::Methane, (10, 9), true);
    world.add_new_particle(ParticleType::Flame, (10, 10), true);
    let mut flame = *world.particle_at((10, 10));
    flame.update(WorldApi::new((10, 10)), &mut world);
    let m = world.particle_at((10, 9));
    assert_eq!(m.particle_type, ParticleType::Methane);
    assert!(m.burning);
}

#[test]
fn burning_wood_between_burning_wood_puts_a_flame_above() {
    let mut world = World::new(32, 32, 16);
    fill(&mut world, ParticleType::Concrete, 5..16, 11..13);
    fill(&mut world, ParticleType::Wood, 9..12, 10..11);
    for x in 9..12 {
        let mut w = *world.particle_at((x, 10));
        w.set_burning(true);
        WorldApi::new((x, 10)).replace_with(&mut world, (0, 0), w);
    }
    let mut wood = *world.particle_at((10, 10));
    wood.update(WorldApi::new((10, 10)), &mut world);
    let above = world.particle_at((10, 9));
    assert_eq!(above.particle_type, ParticleType::Flame);
    assert!(above.burning);
    assert!(above.fuel.unwrap() < ParticleType::Wood.properties().base_fuel.unwrap());
}
