use sand::particle::{
    ignites_with, weight_check_with, Paint, Particle, ParticleType, Status, Tint, Weight,
};
use sand::helpers::{I8Vec2, PColor};

fn tint() -> Tint {
    Tint { sat_permille: 1000, val_permille: 1000 }
}

#[test]
fn properties_match_the_material_table() {
    let sand = ParticleType::Sand.properties();
    assert_eq!(sand.label, "Sand");
    assert_eq!(sand.base_color, PColor::new(226, 188, 128));
    assert_eq!(sand.weight, Weight::Tenths(900));
    assert!(sand.moves && sand.auto_move && !sand.fluid);
    assert_eq!(sand.terminal_velocity_sq, Some(25));
    assert_eq!(sand.base_durability, Some(20));
    let steam = ParticleType::Steam.properties();
    assert_eq!(steam.weight, Weight::Tenths(5));
    assert_eq!(steam.dispersion_rate, Some(10));
    assert!(!steam.auto_move);
    let fungus = ParticleType::Fungus.properties();
    assert_eq!(fungus.weight, Weight::Infinite);
    assert_eq!(fungus.flammability, 125);
    assert_eq!(fungus.wet_flammability, Some(15));
    assert_eq!(fungus.base_fuel, Some(35));
    assert_eq!(ParticleType::Flame.properties().base_fuel, Some(0));
    assert_eq!(ParticleType::Methane.properties().flammability, 950);
    assert_eq!(ParticleType::Empty.properties().base_color, PColor::new(51, 51, 51));
}

#[test]
fn from_draws_sets_the_optional_fields_by_material() {
    let sand = Particle::from_draws(ParticleType::Sand, true, 300, tint());
    assert_eq!(sand.moved, Some(false));
    assert_eq!(sand.velocity, Some(I8Vec2::new(0, 0)));
    assert_eq!(sand.moving_right, None);
    assert_eq!(sand.durability, Some(20));
    assert_eq!(sand.original_color, Some(tint()));
    let water = Particle::from_draws(ParticleType::Water, true, 300, tint());
    assert_eq!(water.moving_right, Some(true));
    let steam = Particle::from_draws(ParticleType::Steam, false, 250, tint());
    assert_eq!(steam.condensation_countdown, Some(250));
    assert_eq!(steam.initial_condensation_countdown, Some(250));
    let fungus = Particle::from_draws(ParticleType::Fungus, false, 300, tint());
    assert_eq!(fungus.watered, Some(false));
    assert_eq!(fungus.moved, None);
    let flame = Particle::from_draws(ParticleType::Flame, false, 300, tint());
    assert!(flame.burning);
    assert_eq!(flame.fuel, Some(0));
    let empty = Particle::from_draws(ParticleType::Empty, false, 300, tint());
    assert_eq!(empty.original_color, None);
    assert_eq!(empty.color, Paint::Own);
}

#[test]
fn new_draws_in_range() {
    let mut rng = rand::thread_rng();
    for _ in 0..50 {
        let steam = Particle::new(ParticleType::Steam, &mut rng);
        let c = steam.condensation_countdown.unwrap();
        assert!((200..400).contains(&c));
        assert!(steam.moving_right.is_some());
        let t = steam.original_color.unwrap();
        assert!((940..1060).contains(&t.sat_permille));
        assert!((980..1020).contains(&t.val_permille));
        let sand = Particle::new(ParticleType::Sand, &mut rng);
        assert_eq!(sand.condensation_countdown, None);
        assert_eq!(sand.particle_type, ParticleType::Sand);
    }
    let empty = Particle::new(ParticleType::Empty, &mut rng);
    assert_eq!(empty.original_color, None);
}

#[test]
fn refresh_clears_frame_flags() {
    let mut sand = Particle::from_draws(ParticleType::Sand, false, 300, tint());
    sand.updated = true;
    sand.set_moved(true);
    sand.refresh();
    assert!(!sand.updated);
    assert_eq!(sand.moved, Some(false));
    let mut wood = Particle::from_draws(ParticleType::Wood, false, 300, tint());
    wood.updated = true;
    wood.refresh();
    assert!(!wood.updated);
    assert_eq!(wood.moved, None);
    let again = {
        let mut w = wood;
        w.refresh();
        w
    };
    assert_eq!(again, wood);
}

#[test]
fn burning_and_watering_paint() {
    let mut wood = Particle::from_draws(ParticleType::Wood, false, 300, tint());
    wood.color = Paint::Flicker { hue_millidegrees: 100, sat_permille: 1000, val_permille: 1000 };
    wood.set_burning(true);
    assert!(wood.burning);
    assert!(matches!(wood.color, Paint::Flicker { .. }));
    wood.set_burning(false);
    assert!(!wood.burning);
    assert_eq!(wood.color, Paint::Own);
    let mut fungus = Particle::from_draws(ParticleType::Fungus, false, 300, tint());
    fungus.set_watered(true);
    assert_eq!(fungus.watered, Some(true));
    assert_eq!(fungus.color, Paint::Watered);
    fungus.set_watered(false);
    assert_eq!(fungus.watered, Some(false));
    assert_eq!(fungus.color, Paint::Own);
}

#[test]
fn light_materials_rise() {
    assert!(Particle::from_draws(ParticleType::Steam, false, 300, tint()).rises());
    assert!(Particle::from_draws(ParticleType::Methane, false, 300, tint()).rises());
    assert!(!Particle::from_draws(ParticleType::Sand, false, 300, tint()).rises());
    assert!(!Particle::from_draws(ParticleType::Concrete, false, 300, tint()).rises());
    assert!(!Particle::from_draws(ParticleType::Empty, false, 300, tint()).rises());
}

#[test]
fn status_or_is_alive_only_when_both_are() {
    assert_eq!(Status::Alive.or(Status::Alive), Status::Alive);
    assert_eq!(Status::Alive.or(Status::Deleted), Status::Deleted);
    assert_eq!(Status::Deleted.or(Status::Alive), Status::Deleted);
    let mut s = Status::Alive;
    s.update(Status::Deleted);
    assert_eq!(s, Status::Deleted);
    s.update(Status::Alive);
    assert_eq!(s, Status::Deleted);
}

#[test]
fn weight_check_follows_the_scaled_weights() {
    // A sinking grain of sand into empty space: 90 * r > 1.
    assert!(!weight_check_with(false, Weight::Tenths(900), Weight::Tenths(10), 0));
    assert!(weight_check_with(false, Weight::Tenths(900), Weight::Tenths(10), 16777215));
    assert!(weight_check_with(false, Weight::Tenths(900), Weight::Tenths(10), 186414));
    assert!(!weight_check_with(false, Weight::Tenths(900), Weight::Tenths(10), 186413));
    // Rising steam past water: 60 * r > 0.5.
    assert!(weight_check_with(true, Weight::Tenths(5), Weight::Tenths(600), 139811));
    assert!(!weight_check_with(true, Weight::Tenths(5), Weight::Tenths(600), 139810));
    // Never against a lighter particle when rising, or a heavier one when sinking.
    assert!(!weight_check_with(true, Weight::Tenths(600), Weight::Tenths(5), 16777215));
    assert!(!weight_check_with(false, Weight::Tenths(5), Weight::Tenths(600), 16777215));
    // Infinite weights times zero exceed nothing.
    assert!(!weight_check_with(false, Weight::Infinite, Weight::Tenths(10), 0));
    assert!(weight_check_with(false, Weight::Infinite, Weight::Tenths(10), 1));
    assert!(!weight_check_with(false, Weight::Infinite, Weight::Infinite, 5));
}

#[test]
fn ignition_is_likelier_above() {
    // Methane (0.95) beside the flame: 0.95 > r.
    assert!(ignites_with(950, 0, 15938354));
    assert!(!ignites_with(950, 0, 15938356));
    // Below the flame (dy = 1) the chance halves: 0.475 > r.
    assert!(ignites_with(950, 1, 7969177));
    assert!(!ignites_with(950, 1, 7969178));
    // Above the flame (dy = -1) it is half as large again.
    assert!(ignites_with(600, -1, 15099493));
    assert!(!ignites_with(600, -1, 15099495));
    assert!(!ignites_with(0, -1, 0));
}

#[test]
fn equal_weights_never_swap() {
    assert!(!weight_check_with(true, Weight::Tenths(5), Weight::Tenths(5), 16777215));
    assert!(!weight_check_with(false, Weight::Tenths(900), Weight::Tenths(900), 16777215));
    assert!(!weight_check_with(false, Weight::Infinite, Weight::Infinite, 16777215));
}

#[test]
fn fully_flammable_neighbours_catch_beside_and_above() {
    assert!(ignites_with(1000, 0, 16777215));
    assert!(ignites_with(1000, -1, 16777215));
    assert!(!ignites_with(1000, 1, 16777215));
    assert!(ignites_with(1000, 1, 8388607));
}
