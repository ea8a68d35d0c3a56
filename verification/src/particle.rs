//! Particle materials, their fixed properties, and the per-particle rules of
//! the simulation (moving, burning, growing, condensing, corroding).
use vstd::prelude::*;
use rand::rngs::ThreadRng;
use crate::helpers::{PColor, I8Vec2};
use crate::random::{random_bool, random_range};
use crate::world::{World, WorldApi, FRACTION_SCALE, draws_extend};
use crate::helpers::i8vec2_vector;
use crate::line::{iterate_over_line_delta, line_delta, line_points, lemma_line_steps_are_adjacent, lemma_first_line_step};

verus! {

/// How heavy a material is, in tenths of the unit used by the simulation
/// (empty space weighs ten tenths); immovable materials weigh `Infinite`.
#[derive(Clone, Copy, PartialEq, Eq, Structural, Debug)]
pub enum Weight {
    Tenths(u32),
    Infinite,
}

/// The immutable properties of a particle type. Flammabilities are
/// probabilities in thousandths.
#[derive(Clone, Copy, Debug)]
pub struct ParticleTypeProperties {
    pub label: &'static str,
    pub base_color: PColor,
    pub weight: Weight,
    pub moves: bool,
    pub auto_move: bool,
    pub fluid: bool,
    pub terminal_velocity_sq: Option<u16>,
    pub dispersion_rate: Option<u8>,
    pub flammability: u16,
    pub wet_flammability: Option<u16>,
    pub base_fuel: Option<i16>,
    pub base_durability: Option<i16>,
}

/// The materials a cell can hold.
#[derive(Clone, Copy, PartialEq, Eq, Structural, Debug)]
pub enum ParticleType {
    Border,
    Concrete,
    Empty,
    Sand,
    Water,
    Steam,
    Fungus,
    Flame,
    Methane,
    Gunpowder,
    Oil,
    Wood,
    Acid,
}

/// The properties of a material other than its label, as a tuple:
/// (base colour, weight, moves, moves on its own, fluid, squared terminal
/// velocity, dispersion rate, flammability, wet flammability, base fuel,
/// base durability).
pub open spec fn type_props(t: ParticleType) -> (
    PColor,
    Weight,
    bool,
    bool,
    bool,
    Option<u16>,
    Option<u8>,
    u16,
    Option<u16>,
    Option<i16>,
    Option<i16>,
) {
    match t {
        ParticleType::Border => (PColor { r: 129, g: 129, b: 129 }, Weight::Infinite, false, false, false, None, None, 0, None, None, None),
        ParticleType::Concrete => (PColor { r: 129, g: 129, b: 129 }, Weight::Infinite, false, false, false, None, None, 0, None, None, Some(100)),
        ParticleType::Empty => (PColor { r: 51, g: 51, b: 51 }, Weight::Tenths(10), false, false, false, None, None, 0, None, None, None),
        ParticleType::Sand => (PColor { r: 226, g: 188, b: 128 }, Weight::Tenths(900), true, true, false, Some(25), None, 0, None, None, Some(20)),
        ParticleType::Water => (PColor { r: 8, g: 116, b: 236 }, Weight::Tenths(600), true, true, true, Some(25), Some(5), 0, None, None, None),
        ParticleType::Steam => (PColor { r: 192, g: 209, b: 239 }, Weight::Tenths(5), true, false, true, Some(25), Some(10), 0, None, None, None),
        ParticleType::Fungus => (PColor { r: 103, g: 147, b: 131 }, Weight::Infinite, false, false, false, None, None, 125, Some(15), Some(35), Some(10)),
        ParticleType::Flame => (PColor { r: 255, g: 123, b: 36 }, Weight::Infinite, false, false, false, None, None, 0, None, Some(0), None),
        ParticleType::Methane => (PColor { r: 148, g: 119, b: 165 }, Weight::Tenths(2), true, true, true, Some(25), Some(7), 950, None, Some(6), None),
        ParticleType::Gunpowder => (PColor { r: 0, g: 0, b: 0 }, Weight::Tenths(900), true, true, false, Some(25), None, 600, None, Some(35), Some(20)),
        ParticleType::Oil => (PColor { r: 112, g: 87, b: 50 }, Weight::Tenths(500), true, true, true, Some(25), Some(3), 900, None, Some(25), None),
        ParticleType::Wood => (PColor { r: 98, g: 57, b: 35 }, Weight::Infinite, false, false, false, None, None, 100, None, Some(200), Some(70)),
        ParticleType::Acid => (PColor { r: 166, g: 249, b: 94 }, Weight::Tenths(630), true, false, true, Some(25), Some(1), 0, None, None, Some(50)),
    }
}

impl ParticleTypeProperties {
    /// The properties other than the label, in the order of `type_props`.
    pub open spec fn values(self) -> (
        PColor,
        Weight,
        bool,
        bool,
        bool,
        Option<u16>,
        Option<u8>,
        u16,
        Option<u16>,
        Option<i16>,
        Option<i16>,
    ) {
        (
            self.base_color,
            self.weight,
            self.moves,
            self.auto_move,
            self.fluid,
            self.terminal_velocity_sq,
            self.dispersion_rate,
            self.flammability,
            self.wet_flammability,
            self.base_fuel,
            self.base_durability,
        )
    }
}

/// The name of each material, as the interface shows it.
pub open spec fn type_label(t: ParticleType) -> Seq<char> {
    match t {
        ParticleType::Border => "Border"@,
        ParticleType::Concrete => "Concrete"@,
        ParticleType::Empty => "Empty"@,
        ParticleType::Sand => "Sand"@,
        ParticleType::Water => "Water"@,
        ParticleType::Steam => "Steam"@,
        ParticleType::Fungus => "Fungus"@,
        ParticleType::Flame => "Flame"@,
        ParticleType::Methane => "Methane"@,
        ParticleType::Gunpowder => "Gunpowder"@,
        ParticleType::Oil => "Oil"@,
        ParticleType::Wood => "Wood"@,
        ParticleType::Acid => "Acid"@,
    }
}

impl ParticleType {
    pub open spec fn base_color(self) -> PColor { type_props(self).0 }
    pub open spec fn weight(self) -> Weight { type_props(self).1 }
    pub open spec fn moves(self) -> bool { type_props(self).2 }
    pub open spec fn auto_move(self) -> bool { type_props(self).3 }
    pub open spec fn fluid(self) -> bool { type_props(self).4 }
    pub open spec fn terminal_velocity_sq(self) -> Option<u16> { type_props(self).5 }
    pub open spec fn dispersion_rate(self) -> Option<u8> { type_props(self).6 }
    pub open spec fn flammability(self) -> u16 { type_props(self).7 }
    pub open spec fn wet_flammability(self) -> Option<u16> { type_props(self).8 }
    pub open spec fn base_fuel(self) -> Option<i16> { type_props(self).9 }
    pub open spec fn base_durability(self) -> Option<i16> { type_props(self).10 }

    /// The fixed properties of this material.
    pub fn properties(&self) -> (p: ParticleTypeProperties)
        ensures
            p.values() == type_props(*self),
            p.label@ == type_label(*self),
    {
        match self {
            ParticleType::Border => ParticleTypeProperties {
                label: "Border",
                base_color: PColor { r: 129, g: 129, b: 129 },
                weight: Weight::Infinite,
                moves: false,
                auto_move: false,
                fluid: false,
                terminal_velocity_sq: None,
                dispersion_rate: None,
                flammability: 0,
                wet_flammability: None,
                base_fuel: None,
                base_durability: None,
            },
            ParticleType::Concrete => ParticleTypeProperties {
                label: "Concrete",
                base_color: PColor { r: 129, g: 129, b: 129 },
                weight: Weight::Infinite,
                moves: false,
                auto_move: false,
                fluid: false,
                terminal_velocity_sq: None,
                dispersion_rate: None,
                flammability: 0,
                wet_flammability: None,
                base_fuel: None,
                base_durability: Some(100),
            },
            ParticleType::Empty => ParticleTypeProperties {
                label: "Empty",
                base_color: PColor { r: 51, g: 51, b: 51 },
                weight: Weight::Tenths(10),
                moves: false,
                auto_move: false,
                fluid: false,
                terminal_velocity_sq: None,
                dispersion_rate: None,
                flammability: 0,
                wet_flammability: None,
                base_fuel: None,
                base_durability: None,
            },
            ParticleType::Sand => ParticleTypeProperties {
                label: "Sand",
                base_color: PColor { r: 226, g: 188, b: 128 },
                weight: Weight::Tenths(900),
                moves: true,
                auto_move: true,
                fluid: false,
                terminal_velocity_sq: Some(25),
                dispersion_rate: None,
                flammability: 0,
                wet_flammability: None,
                base_fuel: None,
                base_durability: Some(20),
            },
            ParticleType::Water => ParticleTypeProperties {
                label: "Water",
                base_color: PColor { r: 8, g: 116, b: 236 },
                weight: Weight::Tenths(600),
                moves: true,
                auto_move: true,
                fluid: true,
                terminal_velocity_sq: Some(25),
                dispersion_rate: Some(5),
                flammability: 0,
                wet_flammability: None,
                base_fuel: None,
                base_durability: None,
            },
            ParticleType::Steam => ParticleTypeProperties {
                label: "Steam",
                base_color: PColor { r: 192, g: 209, b: 239 },
                weight: Weight::Tenths(5),
                moves: true,
                auto_move: false,
                fluid: true,
                terminal_velocity_sq: Some(25),
                dispersion_rate: Some(10),
                flammability: 0,
                wet_flammability: None,
                base_fuel: None,
                base_durability: None,
            },
            ParticleType::Fungus => ParticleTypeProperties {
                label: "Fungus",
                base_color: PColor { r: 103, g: 147, b: 131 },
                weight: Weight::Infinite,
                moves: false,
                auto_move: false,
                fluid: false,
                terminal_velocity_sq: None,
                dispersion_rate: None,
                flammability: 125,
                wet_flammability: Some(15),
                base_fuel: Some(35),
                base_durability: Some(10),
            },
            ParticleType::Flame => ParticleTypeProperties {
                label: "Flame",
                base_color: PColor { r: 255, g: 123, b: 36 },
                weight: Weight::Infinite,
                moves: false,
                auto_move: false,
                fluid: false,
                terminal_velocity_sq: None,
                dispersion_rate: None,
                flammability: 0,
                wet_flammability: None,
                base_fuel: Some(0),
                base_durability: None,
            },
            ParticleType::Methane => ParticleTypeProperties {
                label: "Methane",
                base_color: PColor { r: 148, g: 119, b: 165 },
                weight: Weight::Tenths(2),
                moves: true,
                auto_move: true,
                fluid: true,
                terminal_velocity_sq: Some(25),
                dispersion_rate: Some(7),
                flammability: 950,
                wet_flammability: None,
                base_fuel: Some(6),
                base_durability: None,
            },
            ParticleType::Gunpowder => ParticleTypeProperties {
                label: "Gunpowder",
                base_color: PColor { r: 0, g: 0, b: 0 },
                weight: Weight::Tenths(900),
                moves: true,
                auto_move: true,
                fluid: false,
                terminal_velocity_sq: Some(25),
                dispersion_rate: None,
                flammability: 600,
                wet_flammability: None,
                base_fuel: Some(35),
                base_durability: Some(20),
            },
            ParticleType::Oil => ParticleTypeProperties {
                label: "Oil",
                base_color: PColor { r: 112, g: 87, b: 50 },
                weight: Weight::Tenths(500),
                moves: true,
                auto_move: true,
                fluid: true,
                terminal_velocity_sq: Some(25),
                dispersion_rate: Some(3),
                flammability: 900,
                wet_flammability: None,
                base_fuel: Some(25),
                base_durability: None,
            },
            ParticleType::Wood => ParticleTypeProperties {
                label: "Wood",
                base_color: PColor { r: 98, g: 57, b: 35 },
                weight: Weight::Infinite,
                moves: false,
                auto_move: false,
                fluid: false,
                terminal_velocity_sq: None,
                dispersion_rate: None,
                flammability: 100,
                wet_flammability: None,
                base_fuel: Some(200),
                base_durability: Some(70),
            },
            ParticleType::Acid => ParticleTypeProperties {
                label: "Acid",
                base_color: PColor { r: 166, g: 249, b: 94 },
                weight: Weight::Tenths(630),
                moves: true,
                auto_move: false,
                fluid: true,
                terminal_velocity_sq: Some(25),
                dispersion_rate: Some(1),
                flammability: 0,
                wet_flammability: None,
                base_fuel: None,
                base_durability: Some(50),
            },
        }
    }
}


/// How far a particle's own colour departs from its material's base colour:
/// its saturation and value scaled by the given thousandths, the hue kept.
#[derive(Clone, Copy, PartialEq, Eq, Structural, Debug)]
pub struct Tint {
    pub sat_permille: u16,
    pub val_permille: u16,
}

/// What a particle is currently painted with: its own colour, its own colour
/// as it looks when watered, or a flicker of the flame colour (hue turned by
/// the given thousandths of a degree, saturation and value scaled by the given
/// thousandths).
#[derive(Clone, Copy, PartialEq, Eq, Structural, Debug)]
pub enum Paint {
    Own,
    Watered,
    Flicker { hue_millidegrees: i16, sat_permille: u16, val_permille: u16 },
}

/// Whether a particle is still in the world after a step of its update.
#[derive(Clone, Copy, PartialEq, Eq, Structural, Debug)]
pub enum Status {
    Deleted,
    Alive,
}

/// `Alive` when both are alive, `Deleted` otherwise.
pub open spec fn both_alive(a: Status, b: Status) -> Status {
    if a == Status::Alive && b == Status::Alive { Status::Alive } else { Status::Deleted }
}

/// Combining statuses does not depend on their order or grouping; `Alive`
/// leaves a status as it is, and once deleted a particle stays deleted.
pub proof fn lemma_both_alive_laws(a: Status, b: Status, c: Status)
    ensures
        both_alive(a, b) == both_alive(b, a),
        both_alive(both_alive(a, b), c) == both_alive(a, both_alive(b, c)),
        both_alive(a, Status::Alive) == a,
        both_alive(a, Status::Deleted) == Status::Deleted,
{
}

impl Status {
    /// `Alive` when both are alive, `Deleted` otherwise.
    pub fn or(&self, other: Status) -> (r: Status)
        ensures
            r == both_alive(*self, other),
    {
        match (self, other) {
            (Status::Alive, Status::Alive) => Status::Alive,
            _ => Status::Deleted,
        }
    }

    /// Combines `other` into `self` as `or` does.
    pub fn update(&mut self, other: Status)
        ensures
            *final(self) == both_alive(*old(self), other),
    {
        *self = self.or(other);
    }
}

/// One cell's content.
#[derive(Clone, Copy, PartialEq, Eq, Structural, Debug)]
pub struct Particle {
    pub particle_type: ParticleType,
    pub updated: bool,
    pub color: Paint,
    pub original_color: Option<Tint>,
    pub burning: bool,
    pub moved: Option<bool>,
    pub velocity: Option<I8Vec2>,
    pub moving_right: Option<bool>,
    pub condensation_countdown: Option<i16>,
    pub initial_condensation_countdown: Option<i16>,
    pub watered: Option<bool>,
    pub fuel: Option<i16>,
    pub durability: Option<i16>,
}

/// The range of the random tint a new particle gets, in thousandths.
pub open spec fn tint_in_range(t: Tint) -> bool {
    940 <= t.sat_permille < 1060 && 980 <= t.val_permille < 1020
}

/// The range of the random condensation countdown a new steam particle gets.
pub open spec fn countdown_in_range(c: i16) -> bool {
    200 <= c < 400
}

impl Particle {

    /// The particle that `new` makes for the given draws: `moving_right` for a
    /// fluid, `countdown` for steam, and `tint` for anything but empty space.
    pub open spec fn fresh(t: ParticleType, moving_right: bool, countdown: i16, tint: Tint) -> Particle {
        Particle {
            particle_type: t,
            updated: false,
            color: Paint::Own,
            original_color: if t == ParticleType::Empty { None } else { Some(tint) },
            burning: t == ParticleType::Flame,
            moved: if t.moves() { Some(false) } else { None },
            velocity: if t.moves() { Some(I8Vec2 { x: 0, y: 0 }) } else { None },
            moving_right: if t.fluid() { Some(moving_right) } else { None },
            condensation_countdown: if t == ParticleType::Steam { Some(countdown) } else { None },
            initial_condensation_countdown: if t == ParticleType::Steam { Some(countdown) } else { None },
            watered: if t == ParticleType::Fungus { Some(false) } else { None },
            fuel: t.base_fuel(),
            durability: t.base_durability(),
        }
    }

    /// Whether this particle is one that `new` can return for material `t`.
    pub open spec fn is_fresh(self, t: ParticleType) -> bool {
        exists|mr: bool, c: i16, tint: Tint|
            countdown_in_range(c) && tint_in_range(tint) && self == #[trigger] Particle::fresh(t, mr, c, tint)
    }

    /// The state a particle keeps while it is in the world: the optional
    /// fields are present exactly for the materials that use them, a burning
    /// particle has fuel, and the counters lie in the ranges the rules keep.
    pub open spec fn wf(self) -> bool {
        let t = self.particle_type;
        &&& self.moved.is_some() == t.moves()
        &&& self.velocity.is_some() == t.moves()
        &&& (self.velocity matches Some(v) ==> v.x == 0 && 0 <= v.y <= 5)
        &&& self.moving_right.is_some() == t.fluid()
        &&& self.condensation_countdown.is_some() == (t == ParticleType::Steam)
        &&& self.initial_condensation_countdown.is_some() == (t == ParticleType::Steam)
        &&& (self.condensation_countdown matches Some(c) ==> c >= 1)
        &&& (self.initial_condensation_countdown matches Some(c) ==> c >= 1)
        &&& self.watered.is_some() == (t == ParticleType::Fungus)
        &&& self.fuel.is_some() == t.base_fuel().is_some()
        &&& (self.fuel matches Some(f) ==> f >= 0)
        &&& self.durability.is_some() == t.base_durability().is_some()
        &&& (self.durability matches Some(d) ==> d >= 0)
        &&& (self.burning ==> self.fuel.is_some())
        &&& (self.burning ==> t == ParticleType::Flame || t.flammability() > 0)
    }

    /// A new particle of the given material made from the given draws (see
    /// `fresh`).
    pub fn from_draws(particle_type: ParticleType, moving_right: bool, countdown: i16, tint: Tint) -> (p: Self)
        requires
            countdown >= 1,
        ensures
            p == Particle::fresh(particle_type, moving_right, countdown, tint),
            p.wf(),
    {
        let props = particle_type.properties();
        let (moved, velocity) = if props.moves {
            (Some(false), Some(I8Vec2::splat(0)))
        } else {
            (None, None)
        };
        let moving_right = if props.fluid { Some(moving_right) } else { None };
        let condensation_countdown = if particle_type == ParticleType::Steam { Some(countdown) } else { None };
        let watered = if particle_type == ParticleType::Fungus { Some(false) } else { None };
        let burning = particle_type == ParticleType::Flame;
        let original_color = if particle_type == ParticleType::Empty { None } else { Some(tint) };
        Self {
            particle_type,
            updated: false,
            color: Paint::Own,
            original_color,
            burning,
            moved,
            velocity,
            moving_right,
            condensation_countdown,
            initial_condensation_countdown: condensation_countdown,
            watered,
            fuel: props.base_fuel,
            durability: props.base_durability,
        }
    }

    /// A new particle of the given material: a fluid picks a random sideways
    /// direction, steam a random condensation countdown in `200..400`, and any
    /// material but empty space a random tint of its base colour.
    pub fn new(particle_type: ParticleType, rng: &mut ThreadRng) -> (p: Self)
        ensures
            p.is_fresh(particle_type),
            p.wf(),
    {
        let props = particle_type.properties();
        let moving_right = if props.fluid { random_bool(rng) } else { false };
        let countdown: i16 = if particle_type == ParticleType::Steam {
            (300 + random_range(rng, -100, 100)) as i16
        } else {
            300
        };
        let tint = if particle_type == ParticleType::Empty {
            Tint { sat_permille: 1000, val_permille: 1000 }
        } else {
            let s = random_range(rng, 940, 1060) as u16;
            let v = random_range(rng, 980, 1020) as u16;
            Tint { sat_permille: s, val_permille: v }
        };
        let p = Particle::from_draws(particle_type, moving_right, countdown, tint);
        assert(countdown_in_range(countdown) && tint_in_range(tint));
        assert(p == Particle::fresh(particle_type, moving_right, countdown, tint));
        p
    }

    /// This particle with its per-frame flags cleared.
    pub open spec fn refreshed(self) -> Particle {
        Particle {
            updated: false,
            moved: if self.particle_type.moves() { Some(false) } else { self.moved },
            ..self
        }
    }

    /// A refresh keeps the material and well-formedness, leaves the particle
    /// not updated and, if it moves, not moved, and a second refresh changes
    /// nothing.
    pub proof fn lemma_refreshed_laws(p: Particle)
        ensures
            p.refreshed().refreshed() == p.refreshed(),
            p.refreshed().particle_type == p.particle_type,
            !p.refreshed().updated,
            p.particle_type.moves() ==> p.refreshed().moved == Some(false),
            p.wf() ==> p.refreshed().wf(),
    {
    }

    /// Clears the per-frame flags: not yet updated, and, for a material that
    /// moves, not yet moved.
    /// Refreshing a particle between frames clears its per-frame flags and
    /// nothing else: afterwards it is not updated and, if its material
    /// moves, not moved; every other field, its velocity among them, is as
    /// before, so a falling particle keeps its speed from frame to frame.
    pub proof fn law_refresh_clears_only_flags(p: Particle)
        ensures
            (Particle { updated: p.updated, moved: p.moved, ..p.refreshed() }) == p,
            p.refreshed().velocity == p.velocity,
            !p.refreshed().updated,
            p.particle_type.moves() ==> p.refreshed().moved == Some(false),
            !p.particle_type.moves() ==> p.refreshed().moved == p.moved,
    {
    }

    pub fn refresh(&mut self)
        ensures
            *final(self) == old(self).refreshed(),
            old(self).wf() ==> final(self).wf(),
    {
        self.updated = false;
        if self.particle_type.properties().moves {
            self.moved = Some(false);
        }
    }
}


/// Whether weight `a` is strictly greater than weight `b` (an infinite
/// weight exceeds every finite one, and not itself).
pub open spec fn heavier(a: Weight, b: Weight) -> bool {
    match (a, b) {
        (Weight::Infinite, Weight::Tenths(_)) => true,
        (Weight::Tenths(x), Weight::Tenths(y)) => x > y,
        _ => false,
    }
}

/// Whether `a` times the fraction `draw / 2^24` exceeds `b`; an infinite
/// weight times zero exceeds nothing.
pub open spec fn outweighs(a: Weight, b: Weight, draw: u32) -> bool {
    match (a, b) {
        (Weight::Infinite, Weight::Tenths(_)) => draw > 0,
        (Weight::Tenths(x), Weight::Tenths(y)) => (x as int) * (draw as int) > (y as int) * (FRACTION_SCALE as int),
        _ => false,
    }
}

/// Whether a particle of weight `my_weight` gets past one of weight
/// `other_weight` for the random fraction `draw / 2^24`: a rising particle
/// passes a heavier one when the other's weight scaled by the fraction still
/// exceeds its own, a sinking particle passes a lighter one when its own
/// weight scaled by the fraction exceeds the other's.
pub open spec fn weight_wins(rises: bool, my_weight: Weight, other_weight: Weight, draw: u32) -> bool {
    if rises && heavier(other_weight, my_weight) {
        outweighs(other_weight, my_weight, draw)
    } else if !rises && heavier(my_weight, other_weight) {
        outweighs(my_weight, other_weight, draw)
    } else {
        false
    }
}

/// Whether a weight-based swap is possible at all: the other particle is
/// heavier for a rising one, lighter for a sinking one.
pub open spec fn weight_may_win(rises: bool, my_weight: Weight, other_weight: Weight) -> bool {
    (rises && heavier(other_weight, my_weight)) || (!rises && heavier(my_weight, other_weight))
}

/// The chance rule for weight-based swaps: a swap is only ever won where
/// one is possible at all, so never between equal weights; a zero draw never
/// wins; and a larger draw wins whenever a smaller one does.
pub proof fn lemma_weight_wins_laws(rises: bool, my_weight: Weight, other_weight: Weight, draw: u32, larger: u32)
    requires
        draw <= larger,
    ensures
        weight_wins(rises, my_weight, other_weight, draw) ==> weight_may_win(rises, my_weight, other_weight),
        !weight_wins(rises, my_weight, my_weight, draw),
        !weight_wins(rises, my_weight, other_weight, 0),
        weight_wins(rises, my_weight, other_weight, draw) ==> weight_wins(rises, my_weight, other_weight, larger),
{
    lemma_outweighs_monotone(my_weight, other_weight, draw, larger);
    lemma_outweighs_monotone(other_weight, my_weight, draw, larger);
}

/// A larger draw scales a weight at least as far as a smaller one.
proof fn lemma_outweighs_monotone(a: Weight, b: Weight, draw: u32, larger: u32)
    requires
        draw <= larger,
    ensures
        outweighs(a, b, draw) ==> outweighs(a, b, larger),
        !outweighs(a, b, 0),
{
    if let (Weight::Tenths(x), Weight::Tenths(y)) = (a, b) {
        assert((x as int) * (draw as int) <= (x as int) * (larger as int)) by (nonlinear_arith)
            requires
                draw <= larger,
        ;
        assert((x as int) * 0 == 0) by (nonlinear_arith);
    }
}

/// Whether weight `a` is strictly greater than weight `b`.
pub fn is_heavier(a: Weight, b: Weight) -> (r: bool)
    ensures
        r == heavier(a, b),
{
    match (a, b) {
        (Weight::Infinite, Weight::Tenths(_)) => true,
        (Weight::Tenths(x), Weight::Tenths(y)) => x > y,
        _ => false,
    }
}

/// Whether `a` times the fraction `draw / 2^24` exceeds `b`.
pub fn scaled_exceeds(a: Weight, b: Weight, draw: u32) -> (r: bool)
    ensures
        r == outweighs(a, b, draw),
{
    match (a, b) {
        (Weight::Infinite, Weight::Tenths(_)) => draw > 0,
        (Weight::Tenths(x), Weight::Tenths(y)) => {
            assert((x as int) * (draw as int) <= u32::MAX as int * u32::MAX as int) by (nonlinear_arith);
            assert((y as int) * (FRACTION_SCALE as int) <= u32::MAX as int * u32::MAX as int) by (nonlinear_arith);
            (x as u64) * (draw as u64) > (y as u64) * (FRACTION_SCALE as u64)
        },
        _ => false,
    }
}

/// The outcome of the weight comparison for the random fraction
/// `draw / 2^24`, as `weight_wins` states it.
pub fn weight_check_with(rises: bool, my_weight: Weight, other_weight: Weight, draw: u32) -> (r: bool)
    ensures
        r == weight_wins(rises, my_weight, other_weight, draw),
{
    if rises && is_heavier(other_weight, my_weight) {
        scaled_exceeds(other_weight, my_weight, draw)
    } else if !rises && is_heavier(my_weight, other_weight) {
        scaled_exceeds(my_weight, other_weight, draw)
    } else {
        false
    }
}

/// Whether a burning particle sets fire to a neighbour of flammability
/// `flammability` thousandths lying `dy` rows below it (the chance is half
/// as large again above it and half as large below), for the random fraction
/// `draw / 2^24`.
pub open spec fn ignites(flammability: u16, dy: i8, draw: u32) -> bool {
    (flammability as int) * (2 - dy) * (FRACTION_SCALE as int) > (draw as int) * 2000
}

/// The chance rule for catching fire: a material of no flammability never
/// catches; a smaller draw ignites whenever a larger one does; fire catches
/// above at least as readily as beside, and beside at least as readily as
/// below; and a fully flammable neighbour beside or above always catches.
pub proof fn lemma_ignites_laws(flammability: u16, dy: i8, draw: u32, smaller: u32)
    requires
        -1 <= dy <= 1,
        smaller <= draw,
    ensures
        !ignites(0, dy, draw),
        ignites(flammability, dy, draw) ==> ignites(flammability, dy, smaller),
        ignites(flammability, 1, draw) ==> ignites(flammability, 0, draw),
        ignites(flammability, 0, draw) ==> ignites(flammability, -1i8, draw),
        flammability >= 1000 && dy <= 0 && draw < FRACTION_SCALE ==> ignites(flammability, dy, draw),
{
    let f = flammability as int;
    let s = FRACTION_SCALE as int;
    assert(0 * (2 - dy) * s == 0) by (nonlinear_arith);
    assert((smaller as int) * 2000 <= (draw as int) * 2000);
    assert(f * 1 * s <= f * 2 * s && f * 2 * s <= f * 3 * s) by (nonlinear_arith)
        requires
            f >= 0,
            s > 0,
    ;
    if flammability >= 1000 && dy <= 0 && draw < FRACTION_SCALE {
        assert(f * (2 - dy) * s >= 1000 * 2 * s) by (nonlinear_arith)
            requires
                f >= 1000,
                2 - dy >= 2,
                s > 0,
        ;
    }
}

/// Whether the neighbour catches fire, as `ignites` states it.
pub fn ignites_with(flammability: u16, dy: i8, draw: u32) -> (r: bool)
    requires
        -1 <= dy <= 1,
    ensures
        r == ignites(flammability, dy, draw),
{
    let factor: u64 = (2 - dy as i64) as u64;
    assert((flammability as int) * factor <= 65535 * 3) by (nonlinear_arith)
        requires
            factor <= 3,
    ;
    assert((flammability as int) * factor * (FRACTION_SCALE as int) <= 65535 * 3 * 16777216) by (nonlinear_arith)
        requires
            (flammability as int) * factor <= 65535 * 3,
            FRACTION_SCALE == 16777216,
    ;
    assert((draw as int) * 2000 <= u32::MAX as int * 2000) by (nonlinear_arith);
    (flammability as u64) * factor * (FRACTION_SCALE as u64) > (draw as u64) * 2000
}

/// Every material that can burn has fuel.
pub proof fn lemma_flammable_has_fuel(t: ParticleType)
    ensures
        t.flammability() > 0 ==> t.base_fuel().is_some(),
        t.wet_flammability().is_some() ==> t.base_fuel().is_some(),
        t.moves() ==> t.terminal_velocity_sq() == Some(25u16),
        t.moves() ==> t.weight() is Tenths,
{
}

impl Particle {
    /// Whether the particle is lighter than empty space, and so rises.
    pub open spec fn spec_rises(self) -> bool {
        match self.particle_type.weight() {
            Weight::Tenths(x) => x < 10,
            Weight::Infinite => false,
        }
    }

    /// Whether the particle is lighter than empty space, and so rises.
    pub fn rises(&self) -> (r: bool)
        ensures
            r == self.spec_rises(),
    {
        match self.particle_type.properties().weight {
            Weight::Tenths(x) => x < 10,
            Weight::Infinite => false,
        }
    }

    /// Sets or clears burning; putting the fire out restores the particle's
    /// own colour.
    pub fn set_burning(&mut self, b: bool)
        ensures
            final(self).burning == b,
            final(self).color == if b { old(self).color } else { Paint::Own },
            *final(self) == (Particle { burning: b, color: final(self).color, ..*old(self) }),
            old(self).wf() && (b ==> old(self).fuel.is_some()) ==> final(self).wf(),
    {
        self.burning = b;
        if !b {
            self.color = Paint::Own;
        }
    }

    /// Sets the watered state, and paints the particle to show it.
    pub fn set_watered(&mut self, w: bool)
        ensures
            *final(self) == (Particle {
                watered: Some(w),
                color: if w { Paint::Watered } else { Paint::Own },
                ..*old(self)
            }),
            old(self).wf() && old(self).particle_type == ParticleType::Fungus ==> final(self).wf(),
    {
        if w {
            self.color = Paint::Watered;
        } else {
            self.color = Paint::Own;
        }
        self.watered = Some(w);
    }

    /// Sets the moved flag of a particle that moves.
    pub fn set_moved(&mut self, val: bool)
        requires
            old(self).particle_type.moves(),
        ensures
            *final(self) == (Particle { moved: Some(val), ..*old(self) }),
            old(self).wf() ==> final(self).wf(),
    {
        self.moved = Some(val);
    }

    /// Counts down to condensing while the particle stays on row `lasty`, and
    /// restarts the count when it has moved to another row. At zero the
    /// particle turns into water and is deleted.
    fn update_condensation(&mut self, api: &WorldApi, world: &mut World, lasty: usize) -> (status: Status)
        requires
            old(self).wf(),
            old(self).particle_type == ParticleType::Steam,
            api.wf(old(world)),
        ensures
            api.wf(final(world)),
            old(world).same_frame(final(world)),
            old(self).particle_type == final(self).particle_type,
            final(self).burning == old(self).burning,
            status == Status::Alive ==> final(self).wf(),
            status == Status::Alive ==> old(world).cells_agree(final(world)) && old(world).next_flags_agree(final(world)),
            status == Status::Deleted ==> old(world).cells_agree_except(final(world), api.pos().0, api.pos().1) && (
            old(world).cell(api.pos().0, api.pos().1).particle_type != ParticleType::Border ==> final(world).cell(
                api.pos().0,
                api.pos().1,
            ).is_fresh(ParticleType::Water)),
            (Particle { condensation_countdown: old(self).condensation_countdown, ..*final(self) }) == *old(self),
            api.pos().1 == lasty ==> final(self).condensation_countdown == Some(
                (old(self).condensation_countdown.unwrap() - 1) as i16,
            ) && (status == Status::Deleted <==> old(self).condensation_countdown.unwrap() <= 1),
            api.pos().1 != lasty ==> final(self).condensation_countdown == old(self).initial_condensation_countdown
                && status == Status::Alive,
            old(world).cold_flames_kept(final(world), api.pos()),
            old(world).cell(api.pos().0, api.pos().1).particle_type != ParticleType::Border ==> old(
                world,
            ).borders_kept(final(world)),
    {
        if api.xy().1 == lasty {
            if let Some(count) = self.condensation_countdown {
                let c = count - 1;
                self.condensation_countdown = Some(c);
                if c <= 0 {
                    proof {
                        api.lemma_target_self(world);
                    }
                    let ghost w0 = *world;
                    api.replace_with_new(world, (0, 0), ParticleType::Water);
                    proof {
                        if w0.cell(api.pos().0, api.pos().1).particle_type != ParticleType::Border {
                            Particle::lemma_fresh_facts(
                                world.cell(api.pos().0, api.pos().1),
                                ParticleType::Water,
                            );
                            World::lemma_same_frame(&w0, world);
                            assert(w0.borders_kept(world));
                        }
                    }
                    return Status::Deleted;
                }
            }
        } else {
            self.condensation_countdown = self.initial_condensation_countdown;
        }
        proof {
            World::lemma_same_frame_refl(world);
            assert(old(world).borders_kept(world));
        }
        Status::Alive
    }
}


/// A particle at `p` moved to `q`, the `target` of its step, where it found
/// `n`: both cells now hold `n` (marked moved when its material moves), and
/// no other cell changed.
pub open spec fn moved_to(
    before: World,
    after: World,
    p: (int, int),
    q: (int, int),
    target: Option<(int, int)>,
    n: Particle,
) -> bool {
    let m = if n.particle_type.moves() { Particle { moved: Some(true), ..n } } else { n };
    &&& target == Some(q)
    &&& after.cell(p.0, p.1) == m
    &&& after.cell(q.0, q.1) == m
    &&& forall|x: int, y: int|
        before.in_bounds(x, y) && (x, y) != p && (x, y) != q ==> #[trigger] after.cell(x, y) == before.cell(x, y)
}

/// A neighbour that a moving particle can neither move into nor swap with:
/// not empty space, and not a moving particle that has yet to move.
pub open spec fn blocks(n: Particle) -> bool {
    n.particle_type != ParticleType::Empty && !(n.particle_type.moves() && n.moved == Some(false))
}

/// The offset of the first cell particle `p` probes when it tries the unit
/// direction `d` of its list. A sideways direction is stretched by the
/// dispersion rate, and a stretched one is walked from the far end back, so
/// its first cell lies on the other side; a straight fall takes the vertical
/// speed, and one of more than a row is walked the same way and starts a row
/// up; a rising particle mirrors the direction upwards.
pub open spec fn first_step(p: Particle, d: I8Vec2) -> (isize, isize) {
    let rate: int = match p.particle_type.dispersion_rate() {
        Some(r) => r as int,
        None => 1int,
    };
    if d.y == 0 {
        if rate * d.x > 1 || rate * d.x < -1 {
            (if d.x > 0 { -1isize } else { 1isize }, 0isize)
        } else {
            (d.x as isize, 0isize)
        }
    } else if !p.spec_rises() && d.x == 0 {
        let v = p.velocity.unwrap().y;
        if v > 1 {
            (0isize, -1isize)
        } else {
            (0isize, v as isize)
        }
    } else if p.spec_rises() {
        (d.x as isize, (-d.y) as isize)
    } else {
        (d.x as isize, d.y as isize)
    }
}

/// The first cell probed in each of the first `k` directions of `dirs`
/// blocks the particle.
pub open spec fn all_blocked(p: Particle, api: WorldApi, world: World, dirs: Seq<I8Vec2>, k: int) -> bool {
    forall|j: int| 0 <= j < k ==> blocks(api.neighbour_spec(&world, #[trigger] first_step(p, dirs[j])))
}

/// Direction `k` of `dirs` is sideways, the first cell it probes is empty
/// space, and every earlier direction is blocked: the particle moves there.
pub open spec fn opens_first(p: Particle, api: WorldApi, world: World, dirs: Seq<I8Vec2>, k: int) -> bool {
    &&& dirs[k].y == 0
    &&& api.neighbour_spec(&world, first_step(p, dirs[k])).particle_type == ParticleType::Empty
    &&& all_blocked(p, api, world, dirs, k)
}

/// The particle with gravity applied: one that does not rise speeds up by
/// a row per frame, up to its terminal speed.
pub open spec fn after_gravity(p: Particle) -> Particle {
    match p.velocity {
        Some(v) => if !p.spec_rises() && v.x * v.x + v.y * v.y < 25 {
            Particle { velocity: Some(I8Vec2 { x: v.x, y: (v.y + 1) as i8 }), ..p }
        } else {
            p
        },
        None => p,
    }
}

/// The first of the directions `dirs` is straight down, and the particle
/// probes a single cell for it: it rises (and so probes the cell above), or
/// it falls one row this frame.
pub open spec fn single_first_probe(p: Particle, dirs: Seq<I8Vec2>) -> bool {
    &&& dirs.len() > 0
    &&& dirs[0] == (I8Vec2 { x: 0, y: 1 })
    &&& p.spec_rises() || p.velocity.unwrap().y == 1
}

/// The particle probes a single cell for its first direction, and what it
/// finds there it could take by weight: empty space or a moving particle
/// that has yet to move, of a weight it may win against. Such a contest is
/// settled by a draw.
pub open spec fn first_contest(p: Particle, api: WorldApi, w: World, dirs: Seq<I8Vec2>) -> bool {
    let n = api.neighbour_spec(&w, first_step(p, dirs[0]));
    &&& single_first_probe(p, dirs)
    &&& !blocks(n)
    &&& weight_may_win(p.spec_rises(), p.particle_type.weight(), n.particle_type.weight())
}

/// The particle wins the contest of `first_contest` with the draw `d`.
pub open spec fn wins_first(p: Particle, api: WorldApi, w: World, dirs: Seq<I8Vec2>, d: int) -> bool {
    let n = api.neighbour_spec(&w, first_step(p, dirs[0]));
    weight_wins(p.spec_rises(), p.particle_type.weight(), n.particle_type.weight(), d as u32)
}

/// The directions particle `p` tries, in order as far as the contracts
/// fix it: the fluid's list, or the grain's (whose diagonals come in an
/// order drawn by a coin).
pub open spec fn move_dirs(p: Particle) -> Seq<I8Vec2> {
    if p.particle_type.fluid() {
        fluid_dirs(p.moving_right.unwrap())
    } else {
        grain_dirs()
    }
}

/// Where among the draws of `w`'s continuation the draw that settles the
/// first contest of a move by `p` from `w` stands: first for a fluid, after
/// the grain's coin for a grain.
pub open spec fn first_draw_index(p: Particle, w: World) -> int {
    w.draws().len() + if p.particle_type.fluid() {
        0int
    } else {
        1int
    }
}

/// Steam that started its update on row `p0.1` ends it on cell `q` of `w1`:
/// on another row its countdown restarts and it is still steam there; on
/// its own row its countdown went down by one, and it turned into water
/// there exactly when the countdown ran out.
pub open spec fn steam_end(s0: Particle, s1: Particle, p0: (int, int), w1: World, q: (int, int)) -> bool {
    &&& w1.in_bounds(q.0, q.1)
    &&& if q.1 != p0.1 {
        &&& s1.condensation_countdown == s0.initial_condensation_countdown
        &&& s1.particle_type == ParticleType::Steam
        &&& w1.cell(q.0, q.1) == s1
    } else {
        &&& s1.condensation_countdown == Some((s0.condensation_countdown.unwrap() - 1) as i16)
        &&& if s0.condensation_countdown.unwrap() <= 1 {
            w1.cell(q.0, q.1).particle_type == ParticleType::Water
        } else {
            w1.cell(q.0, q.1) == s1
        }
    }
}

/// The directions a fluid tries, in order: down, the two down-diagonals and
/// the two sides, the side it is heading to first.
pub open spec fn fluid_dirs(moving_right: bool) -> Seq<I8Vec2> {
    let h: i8 = if moving_right { 1 } else { -1i8 };
    seq![
        I8Vec2 { x: 0, y: 1 },
        I8Vec2 { x: h, y: 1 },
        I8Vec2 { x: (-h) as i8, y: 1 },
        I8Vec2 { x: h, y: 0 },
        I8Vec2 { x: (-h) as i8, y: 0 },
    ]
}

/// The directions a grain tries, down and the two down-diagonals (their
/// order is drawn at random).
pub open spec fn grain_dirs() -> Seq<I8Vec2> {
    seq![I8Vec2 { x: 0, y: 1 }, I8Vec2 { x: 1, y: 1 }, I8Vec2 { x: -1i8, y: 1 }]
}

/// The `k`-th of the eight neighbours a fungus picks from: above, below,
/// right, left, then the four diagonals.
pub open spec fn fungus_dir(k: int) -> (isize, isize) {
    if k == 0 {
        (0isize, -1isize)
    } else if k == 1 {
        (0isize, 1isize)
    } else if k == 2 {
        (1isize, 0isize)
    } else if k == 3 {
        (-1isize, 0isize)
    } else if k == 4 {
        (-1isize, -1isize)
    } else if k == 5 {
        (1isize, 1isize)
    } else if k == 6 {
        (1isize, -1isize)
    } else {
        (-1isize, 1isize)
    }
}

/// The offset from a fungus to the `j`-th neighbour of its `c`-th
/// neighbour cell.
pub open spec fn fungus_dir2(c: int, j: int) -> (isize, isize) {
    ((fungus_dir(c).0 + fungus_dir(j).0) as isize, (fungus_dir(c).1 + fungus_dir(j).1) as isize)
}

/// How many of the first `k` of the eight cells around the `c`-th neighbour
/// of a fungus hold fungus (the fungus itself among them when it is one).
pub open spec fn fungus_crowd(api: WorldApi, w: World, c: int, k: int) -> int
    decreases k,
{
    if k <= 0 {
        0
    } else {
        fungus_crowd(api, w, c, k - 1) + if api.neighbour_spec(&w, fungus_dir2(c, k - 1)).particle_type
            == ParticleType::Fungus {
            1int
        } else {
            0int
        }
    }
}

/// A fungus step through its `k`-th neighbour cell `q` (a cell of the world
/// other than its own) changed that cell alone: a dry fungus drank the water
/// there (the cell is emptied, the fungus watered), or a watered one grew into
/// empty space there (a new fungus) or passed its water to a dry fungus there;
/// either way it is dry again.
pub open spec fn fungus_changed(s0: Particle, s1: Particle, api: WorldApi, w0: World, w1: World, k: int) -> bool {
    let t = api.target(&w0, fungus_dir(k));
    let q = t.unwrap();
    let n = w0.cell(q.0, q.1);
    &&& t is Some
    &&& q != api.pos()
    &&& forall|x: int, y: int| w0.in_bounds(x, y) && (x, y) != q ==> #[trigger] w1.cell(x, y) == w0.cell(x, y)
    &&& {
        ||| s0.watered == Some(false) && n.particle_type == ParticleType::Water && w1.cell(q.0, q.1).is_fresh(
            ParticleType::Empty,
        ) && s1 == (Particle { watered: Some(true), color: Paint::Watered, ..s0 })
        ||| s0.watered == Some(true) && n.particle_type == ParticleType::Empty && w1.cell(q.0, q.1).is_fresh(
            ParticleType::Fungus,
        ) && s1 == (Particle { watered: Some(false), color: Paint::Own, ..s0 }) && fungus_crowd(api, w0, k, 8) <= 2
        ||| s0.watered == Some(true) && n.particle_type == ParticleType::Fungus && n.watered == Some(false) && w1.cell(
            q.0,
            q.1,
        ) == (Particle { watered: Some(true), color: Paint::Watered, ..n }) && s1 == (Particle {
            watered: Some(false),
            color: Paint::Own,
            ..s0
        })
    }
}

/// A move from `p` to `q` over empty space or a moving particle, from a
/// cell that held no concrete, leaves every concrete cell as it was.
pub proof fn lemma_moved_to_keeps_concrete(
    before: World,
    after: World,
    p: (int, int),
    q: (int, int),
    t: Option<(int, int)>,
    n: Particle,
)
    requires
        moved_to(before, after, p, q, t, n),
        before.in_bounds(q.0, q.1),
        before.cell(q.0, q.1) == n,
        n.particle_type == ParticleType::Empty || n.particle_type.moves(),
        before.cell(p.0, p.1).particle_type != ParticleType::Concrete,
    ensures
        before.concrete_kept(&after),
        after.cell(q.0, q.1).particle_type != ParticleType::Concrete,
{
}

/// A move from `p` to `q` over empty space or a moving particle, from a
/// cell that held no border, makes, moves and removes no border.
pub proof fn lemma_moved_to_keeps_borders(
    before: World,
    after: World,
    p: (int, int),
    q: (int, int),
    t: Option<(int, int)>,
    n: Particle,
)
    requires
        moved_to(before, after, p, q, t, n),
        before.in_bounds(q.0, q.1),
        before.cell(q.0, q.1) == n,
        n.particle_type == ParticleType::Empty || n.particle_type.moves(),
        before.cell(p.0, p.1).particle_type != ParticleType::Border,
    ensures
        before.borders_kept(&after),
        after.cell(q.0, q.1).particle_type != ParticleType::Border,
{
}

/// A move from `p` to `q` over empty space or a moving particle touches no
/// flame gone out, apart from the cell `p` it leaves.
pub proof fn lemma_moved_to_keeps_cold(
    before: World,
    after: World,
    p: (int, int),
    q: (int, int),
    t: Option<(int, int)>,
    n: Particle,
)
    requires
        moved_to(before, after, p, q, t, n),
        before.in_bounds(q.0, q.1),
        before.cell(q.0, q.1) == n,
        n.particle_type == ParticleType::Empty || n.particle_type.moves(),
    ensures
        before.cold_flames_kept(&after, p),
        after.cell(p.0, p.1).particle_type != ParticleType::Flame,
        after.cell(q.0, q.1).particle_type != ParticleType::Flame,
{
}

/// A fungus step through one neighbour touches no flame gone out.
pub proof fn lemma_fungus_changed_keeps_cold(s0: Particle, s1: Particle, api: WorldApi, w0: World, w1: World, k: int)
    requires
        fungus_changed(s0, s1, api, w0, w1, k),
    ensures
        w0.cold_flames_kept(&w1, api.pos()),
{
    let q = api.target(&w0, fungus_dir(k)).unwrap();
    if w1.cell(q.0, q.1).is_fresh(ParticleType::Empty) {
        Particle::lemma_fresh_facts(w1.cell(q.0, q.1), ParticleType::Empty);
    }
    if w1.cell(q.0, q.1).is_fresh(ParticleType::Fungus) {
        Particle::lemma_fresh_facts(w1.cell(q.0, q.1), ParticleType::Fungus);
    }
}

/// A fungus step changes only a neighbour that held water, empty space or
/// fungus, and leaves no border there: every border stays where it is.
pub proof fn lemma_fungus_changed_keeps_borders(
    s0: Particle,
    s1: Particle,
    api: WorldApi,
    w0: World,
    w1: World,
    k: int,
)
    requires
        api.wf(&w0),
        fungus_changed(s0, s1, api, w0, w1, k),
    ensures
        w0.borders_kept(&w1),
{
    let q = api.target(&w0, fungus_dir(k)).unwrap();
    api.lemma_target_in_bounds(&w0, fungus_dir(k));
    if w1.cell(q.0, q.1).is_fresh(ParticleType::Empty) {
        Particle::lemma_fresh_facts(w1.cell(q.0, q.1), ParticleType::Empty);
    }
    if w1.cell(q.0, q.1).is_fresh(ParticleType::Fungus) {
        Particle::lemma_fresh_facts(w1.cell(q.0, q.1), ParticleType::Fungus);
    }
    assert(w1.cell(q.0, q.1).particle_type != ParticleType::Border);
}

/// The offset a moving particle's pre-move step (acid's eating) looks at
/// for the unit direction `d`: the direction stretched as the move is (see
/// `first_step`), before a stretched move is walked.
pub open spec fn premove_step(p: Particle, d: I8Vec2) -> (isize, isize) {
    let rate: int = match p.particle_type.dispersion_rate() {
        Some(r) => r as int,
        None => 1int,
    };
    if d.y == 0 {
        ((rate * d.x) as isize, 0isize)
    } else if !p.spec_rises() && d.x == 0 {
        (0isize, p.velocity.unwrap().y as isize)
    } else if p.spec_rises() {
        (d.x as isize, (-d.y) as isize)
    } else {
        (d.x as isize, d.y as isize)
    }
}

/// Acid `p` eats into `n`: another material with a durability.
pub open spec fn eats(p: Particle, n: Particle) -> bool {
    n.particle_type != p.particle_type && n.durability is Some
}

/// `n` after a bite: one point of durability less.
pub open spec fn eaten_form(n: Particle) -> Particle {
    Particle { durability: Some((n.durability.unwrap() - 1) as i16), ..n }
}

/// Acid `p`, not yet moved, in its own cell, whose first pre-move step
/// bites a neighbour that survives the bite, whose other pre-move steps find
/// nothing to eat, and which cannot move in any direction: each frame it
/// bites exactly once.
pub open spec fn acid_scenario(p: Particle, api: WorldApi, w: World, dirs: Seq<I8Vec2>) -> bool {
    let n = api.neighbour_spec(&w, premove_step(p, dirs[0]));
    &&& dirs.len() > 0
    &&& p.moved == Some(false)
    &&& p.durability is Some
    &&& w.cell(api.pos().0, api.pos().1).particle_type == p.particle_type
    &&& eats(p, n)
    &&& n.durability.unwrap() >= 1
    &&& forall|j: int| 1 <= j < dirs.len() ==> !eats(p, api.neighbour_spec(&w, #[trigger] premove_step(p, dirs[j])))
    &&& all_blocked(p, api, w, dirs, dirs.len() as int)
}

/// What one bite leaves, in the scenario of `acid_scenario`: the acid has a
/// point of durability less and is deleted when it had none to spare; the
/// bitten neighbour has a point less; no other cell changed but the acid's
/// own, which becomes empty when it is deleted; the acid did not move.
pub open spec fn acid_outcome(
    p0: Particle,
    p1: Particle,
    api0: WorldApi,
    api1: WorldApi,
    w0: World,
    w1: World,
    dirs: Seq<I8Vec2>,
    status: Status,
) -> bool {
    let d = premove_step(p0, dirs[0]);
    let q = api0.target(&w0, d).unwrap();
    let n = api0.neighbour_spec(&w0, d);
    let pos = api0.pos();
    &&& p1.durability == Some((p0.durability.unwrap() - 1) as i16)
    &&& (status == Status::Deleted <==> p0.durability.unwrap() < 1)
    &&& w1.cell(q.0, q.1) == eaten_form(n)
    &&& forall|x: int, y: int|
        w0.in_bounds(x, y) && (x, y) != q && (x, y) != pos ==> #[trigger] w1.cell(x, y) == w0.cell(x, y)
    &&& status == Status::Alive ==> api1.pos() == pos && w1.cell(pos.0, pos.1) == w0.cell(pos.0, pos.1)
    &&& status == Status::Deleted && w0.cell(pos.0, pos.1).particle_type != ParticleType::Border ==> w1.cell(
        pos.0,
        pos.1,
    ).is_fresh(ParticleType::Empty)
}

/// In a world that differs from `w0` only at `q`, which now holds `n2`, a
/// step leads to the same cell and finds the same particle, but `n2` at `q`.
pub proof fn lemma_eaten_neighbour(api: WorldApi, w0: World, w: World, q: (int, int), n2: Particle, d: (isize, isize))
    requires
        api.wf(&w0),
        w0.same_frame(&w),
        w.cell(q.0, q.1) == n2,
        forall|x: int, y: int| w0.in_bounds(x, y) && (x, y) != q ==> #[trigger] w.cell(x, y) == w0.cell(x, y),
    ensures
        api.target(&w, d) == api.target(&w0, d),
        api.target(&w0, d) == Some(q) ==> api.neighbour_spec(&w, d) == n2,
        api.target(&w0, d) != Some(q) ==> api.neighbour_spec(&w, d) == api.neighbour_spec(&w0, d),
{
    World::lemma_relative_same_frame(&w0, &w, api.pos().0, api.pos().1, d.0 as int, d.1 as int);
    api.lemma_target_in_bounds(&w0, d);
}

/// What one update of particle `s0` at `api`'s cell does to the world `w0`,
/// giving `w1` and leaving the particle as `s1`: the contract of
/// `Particle::update`, as a relation.
pub open spec fn update_outcome(s0: Particle, s1: Particle, api: WorldApi, w0: World, w1: World) -> bool {
    &&& (w1.wf())
    &&& (w0.same_frame(&w1))
    &&& (s0.is_inert() ==> w1.cell(api.pos().0, api.pos().1) == s0
        && w0.cells_agree_except(&w1, api.pos().0, api.pos().1) && s1 == s0
        && w0.cells_agree(&w1) && w0.next_flags_agree(&w1)
        && w0.same_generator(&w1))
    &&& (s0.particle_type == ParticleType::Flame && !s0.burning ==> w1.cell(
        api.pos().0,
        api.pos().1,
    ).is_fresh(ParticleType::Empty) && w0.cells_agree_except(&w1, api.pos().0, api.pos().1))
    &&& ((s0.particle_type == ParticleType::Flame || s0.particle_type == ParticleType::Wood)
        && s0.burning ==> if s0.fuel == Some(0i16) {
        w1.cell(api.pos().0, api.pos().1).is_fresh(ParticleType::Empty)
    } else {
        w1.cell(api.pos().0, api.pos().1).particle_type == s0.particle_type && w1.cell(
            api.pos().0,
            api.pos().1,
        ).fuel == Some((s0.fuel.unwrap() - 1) as i16)
    })
    &&& (s0.particle_type.auto_move() && !s0.burning ==> forall|m: ParticleType|
        #[trigger] w1.material_count(m) == w0.material_count(m))
    &&& (s0.particle_type == ParticleType::Steam ==> (forall|m: ParticleType|
        #[trigger] w1.material_count(m) == w0.material_count(m)) || (forall|m: ParticleType|
        #[trigger] w1.material_count(m) == w0.material_count(m) - (if m == ParticleType::Steam {
        1int
    } else {
        0int
    }) + (if m == ParticleType::Water {
        1int
    } else {
        0int
    })))
    &&& (s0.particle_type == ParticleType::Acid ==> (forall|m: ParticleType|
        m != ParticleType::Empty ==> #[trigger] w1.material_count(m) <= w0.material_count(m))
        && w1.wet_count() == w0.wet_count())
    &&& (s0.burning && s0.particle_type != ParticleType::Fungus ==> (forall|m: ParticleType|
        !World::made_by_fire(m) ==> #[trigger] w1.material_count(m) <= w0.material_count(m))
        && w1.wet_count() == w0.wet_count())
    &&& (s0.particle_type == ParticleType::Fungus && !s0.burning ==> w1.fungus_water()
        == w0.fungus_water())
    &&& (s0.particle_type.auto_move() && !s0.burning && s0.moved == Some(false)
        && s0.particle_type.fluid() && (exists|k: int|
        0 <= k < 5 && #[trigger] opens_first(
            after_gravity(s0),
            api,
            w0,
            fluid_dirs(s0.moving_right.unwrap()),
            k,
        )) ==> s1.moved == Some(true) && vacated(w1.cell(api.pos().0, api.pos().1)))
    &&& (s0.particle_type.auto_move() && !s0.burning && s0.moved == Some(false) && all_blocked(
        after_gravity(s0),
        api,
        w0,
        if s0.particle_type.fluid() {
            fluid_dirs(s0.moving_right.unwrap())
        } else {
            grain_dirs()
        },
        if s0.particle_type.fluid() {
            5int
        } else {
            3int
        },
    ) ==> s1.moved == Some(false) && w1.cell(api.pos().0, api.pos().1) == s1
        && w0.cells_agree_except(&w1, api.pos().0, api.pos().1))
    &&& (s0.particle_type.auto_move() && !s0.burning ==> w0.concrete_kept(&w1))
    &&& (w0.cold_flames_kept(&w1, api.pos()))
    &&& (w0.borders_kept(&w1))
    &&& (s0.particle_type.auto_move() && s0.particle_type.fluid() && !s0.burning && s0.moved == Some(false)
        && all_blocked(after_gravity(s0), api, w0, fluid_dirs(s0.moving_right.unwrap()), 4) && s1.moved == Some(
        true,
    ) ==> s1.moving_right == Some(!s0.moving_right.unwrap()))
    &&& (s0.particle_type == ParticleType::Steam ==> exists|q: (int, int)| #[trigger] steam_end(s0, s1, api.pos(), w1, q))
    &&& (s0.particle_type == ParticleType::Fungus && !s0.burning ==> w1.draws().len() > w0.draws().len() && ({
        let c = w1.draws()[w0.draws().len() as int];
        let n = api.neighbour_spec(&w0, fungus_dir(c));
        &&& 0 <= c < 8
        &&& s0.watered == Some(false) && n.particle_type == ParticleType::Water ==> s1.watered == Some(true)
        &&& s0.watered == Some(true) && n.particle_type == ParticleType::Fungus && n.watered == Some(false)
            ==> s1.watered == Some(false)
        &&& s0.watered == Some(true) && n.particle_type == ParticleType::Empty ==> w1.draws().len() > w0.draws().len()
            + 1 && (s1.watered == Some(false) <==> w1.draws()[w0.draws().len() + 1int] > fungus_crowd(api, w0, c, 8))
    }))
    &&& ((s0.particle_type == ParticleType::Flame || s0.particle_type == ParticleType::Wood) && s0.burning ==> (
    forall|k: int|
        0 <= k < burn_reach(api, w0) && #[trigger] sure_to_catch(api, w0, k) ==> ({
            let q = api.target(&w0, burn_dir(k)).unwrap();
            w1.cell(q.0, q.1).burning
        })) && (forall|k: int|
        0 <= k < burn_reach(api, w0) && #[trigger] sure_new_flame(api, w0, k, s0.fuel.unwrap() as int) ==> ({
            let q = api.target(&w0, burn_dir(k)).unwrap();
            w1.cell(q.0, q.1).particle_type == ParticleType::Flame && w1.cell(q.0, q.1).burning
        })))
    &&& (s0.particle_type.auto_move() && !s0.burning && s0.moved == Some(false) && first_contest(
        after_gravity(s0),
        api,
        w0,
        move_dirs(s0),
    ) ==> w1.draws().len() > first_draw_index(s0, w0) && (wins_first(
        after_gravity(s0),
        api,
        w0,
        move_dirs(s0),
        w1.draws()[first_draw_index(s0, w0)],
    ) ==> s1.moved == Some(true) && ({
        let q = api.target(&w0, first_step(after_gravity(s0), move_dirs(s0)[0])).unwrap();
        w1.cell(q.0, q.1) == s1
    })))
    &&& (s0.particle_type == ParticleType::Acid && acid_scenario(
        after_gravity(s0),
        api,
        w0,
        fluid_dirs(s0.moving_right.unwrap()),
    ) ==> ({
        let d = premove_step(after_gravity(s0), fluid_dirs(s0.moving_right.unwrap())[0]);
        let q = api.target(&w0, d).unwrap();
        let p = api.pos();
        &&& s1.durability == Some((s0.durability.unwrap() - 1) as i16)
        &&& w1.cell(q.0, q.1) == eaten_form(api.neighbour_spec(&w0, d))
        &&& forall|x: int, y: int|
            w0.in_bounds(x, y) && (x, y) != q && (x, y) != p ==> #[trigger] w1.cell(x, y)
                == w0.cell(x, y)
        &&& s0.durability.unwrap() >= 1 ==> w1.cell(p.0, p.1) == s1
        &&& s0.durability.unwrap() < 1 ==> w1.cell(p.0, p.1).is_fresh(ParticleType::Empty)
    }))
}

/// A steam update that ends on a row other than the one the steam started
/// on restarts its condensation countdown, and the steam is still steam
/// where it ended; one that ends on its own row counts down by one, and
/// turns the steam into water only when the countdown ran out.
pub proof fn law_steam_countdown_follows_the_row(s0: Particle, s1: Particle, api: WorldApi, w0: World, w1: World)
    requires
        update_outcome(s0, s1, api, w0, w1),
        s0.particle_type == ParticleType::Steam,
    ensures
        exists|q: (int, int)|
            #![trigger w1.cell(q.0, q.1)]
            w1.in_bounds(q.0, q.1) && (q.1 != api.pos().1 ==> s1.condensation_countdown
                == s0.initial_condensation_countdown && s1.particle_type == ParticleType::Steam && w1.cell(q.0, q.1)
                == s1) && (q.1 == api.pos().1 ==> s1.condensation_countdown == Some(
                (s0.condensation_countdown.unwrap() - 1) as i16,
            ) && (w1.cell(q.0, q.1).particle_type != s1.particle_type ==> s0.condensation_countdown.unwrap() <= 1)),
{
    let q = choose|q: (int, int)| #[trigger] steam_end(s0, s1, api.pos(), w1, q);
    assert(w1.in_bounds(q.0, q.1));
    assert(w1.cell(q.0, q.1) == w1.cell(q.0, q.1));
}

/// A fluid whose first four directions are all blocked at the first cell
/// they probe, and which moves, moved in the last direction of its list,
/// the side it was not heading to: its heading turns round.
pub proof fn law_fluid_turns_after_its_last_choice(s0: Particle, s1: Particle, api: WorldApi, w0: World, w1: World)
    requires
        update_outcome(s0, s1, api, w0, w1),
        s0.particle_type.auto_move(),
        s0.particle_type.fluid(),
        !s0.burning,
        s0.moved == Some(false),
        all_blocked(after_gravity(s0), api, w0, fluid_dirs(s0.moving_right.unwrap()), 4),
        s1.moved == Some(true),
    ensures
        s1.moving_right == Some(!s0.moving_right.unwrap()),
{
}

/// A cell a moving particle has left: it holds empty space or a particle
/// that has moved in this frame.
pub open spec fn vacated(c: Particle) -> bool {
    c.particle_type == ParticleType::Empty || c.moved == Some(true)
}

/// The contract shared by the steps of a particle's update: the particle
/// keeps its material, stays well formed while it lives, and the world stays
/// well formed with the same frame.
pub open spec fn step_keeps(
    old_self: Particle,
    new_self: Particle,
    old_world: World,
    new_world: World,
    api: WorldApi,
    status: Status,
) -> bool {
    &&& api.wf(&new_world)
    &&& old_world.same_frame(&new_world)
    &&& new_self.particle_type == old_self.particle_type
    &&& status == Status::Alive ==> new_self.wf()
}

impl Particle {
    /// Compares weights by chance when a weight-based swap is possible at
    /// all; the particle's chunk is then kept awake, since the outcome may
    /// differ next time.
    fn weight_check(api: &WorldApi, world: &mut World, rises: bool, my_weight: Weight, other_weight: Weight) -> (r: bool)
        requires
            api.wf(old(world)),
        ensures
            api.wf(final(world)),
            old(world).same_frame(final(world)),
            old(world).cells_agree(final(world)),
            r ==> weight_may_win(rises, my_weight, other_weight),
            !weight_may_win(rises, my_weight, other_weight) ==> old(world).next_flags_agree(final(world)),
            !weight_may_win(rises, my_weight, other_weight) ==> final(world).draws() == old(world).draws(),
            weight_may_win(rises, my_weight, other_weight) ==> final(world).draws().len() == old(world).draws().len()
                + 1 && draws_extend(old(world).draws(), final(world).draws()) && 0 <= final(world).draws().last()
                < FRACTION_SCALE && r == weight_wins(rises, my_weight, other_weight, final(world).draws().last() as u32),
    {
        if rises && is_heavier(other_weight, my_weight) {
            api.might_update(world);
            let ghost mid = *world;
            let draw = api.random_fraction(world);
            proof {
                World::lemma_same_content(&mid, world);
                World::lemma_same_frame_trans(old(world), &mid, world);
            }
            weight_check_with(rises, my_weight, other_weight, draw)
        } else if !rises && is_heavier(my_weight, other_weight) {
            api.might_update(world);
            let ghost mid = *world;
            let draw = api.random_fraction(world);
            proof {
                World::lemma_same_content(&mid, world);
                World::lemma_same_frame_trans(old(world), &mid, world);
            }
            weight_check_with(rises, my_weight, other_weight, draw)
        } else {
            proof {
                World::lemma_same_frame_refl(world);
            }
            false
        }
    }

    /// Tries to move the particle `dxdy` away. Into empty space it always
    /// moves sideways, and otherwise when the weights allow it; it swaps with
    /// a moving particle that has not moved yet when the weights allow it.
    /// On a move both particles are marked moved, the particle's cell becomes
    /// the target, and the material that was there is returned.
    #[verifier::rlimit(60)]
    fn try_moving_to(&mut self, dxdy: I8Vec2, api: &mut WorldApi, world: &mut World) -> (r: Option<ParticleType>)
        requires
            old(self).wf(),
            old(self).particle_type.moves(),
            old(api).wf(old(world)),
        ensures
            step_keeps(*old(self), *final(self), *old(world), *final(world), *final(api), Status::Alive),
            r is None ==> *final(self) == *old(self) && final(api).pos() == old(api).pos(),
            r matches Some(t) ==> *final(self) == (Particle { moved: Some(true), ..*old(self) }) && t
                == old(api).neighbour_spec(old(world), dxdy.to_offset_spec()).particle_type,
            old(world).counts_carried(old(api).pos(), final(world), final(api).pos()),
            ({
                let n = old(api).neighbour_spec(old(world), dxdy.to_offset_spec());
                &&& n.particle_type == ParticleType::Empty && dxdy.y == 0 ==> r == Some(ParticleType::Empty)
                &&& n.particle_type != ParticleType::Empty && !(n.particle_type.moves() && n.moved == Some(false)) ==> r is None
                &&& (dxdy.y != 0 || n.particle_type != ParticleType::Empty) && !weight_may_win(
                    old(self).spec_rises(),
                    old(self).particle_type.weight(),
                    n.particle_type.weight(),
                ) ==> r is None
            }),
            r is None ==> old(world).cells_agree(final(world)),
            r is Some ==> moved_to(
                *old(world),
                *final(world),
                old(api).pos(),
                final(api).pos(),
                old(api).target(old(world), dxdy.to_offset_spec()),
                old(api).neighbour_spec(old(world), dxdy.to_offset_spec()),
            ),
            old(world).cell(old(api).pos().0, old(api).pos().1).particle_type != ParticleType::Concrete ==> old(
                world,
            ).concrete_kept(final(world)) && final(world).cell(final(api).pos().0, final(api).pos().1).particle_type
                != ParticleType::Concrete,
            old(world).cold_flames_kept(final(world), old(api).pos()),
            old(world).cell(old(api).pos().0, old(api).pos().1).particle_type != ParticleType::Border ==> old(
                world,
            ).borders_kept(final(world)) && final(world).cell(final(api).pos().0, final(api).pos().1).particle_type
                != ParticleType::Border,
            forall|x: int, y: int|
                old(world).in_bounds(x, y) && #[trigger] final(world).cell(x, y) != old(world).cell(x, y) ==> vacated(
                    final(world).cell(x, y),
                ),
            r is Some ==> vacated(final(world).cell(old(api).pos().0, old(api).pos().1)),
            final(world).cell(old(api).pos().0, old(api).pos().1) == old(world).cell(old(api).pos().0, old(api).pos().1)
                || final(world).cell(old(api).pos().0, old(api).pos().1).particle_type != ParticleType::Flame,
            final(api).pos() != old(api).pos() ==> final(world).cell(final(api).pos().0, final(api).pos().1).particle_type
                != ParticleType::Flame,
            old(world).cell(old(api).pos().0, old(api).pos().1).particle_type != ParticleType::Flame
                ==> final(world).cell(final(api).pos().0, final(api).pos().1).particle_type != ParticleType::Flame,
            ({
                let n = old(api).neighbour_spec(old(world), dxdy.to_offset_spec());
                let rs = old(self).spec_rises();
                let mw = old(self).particle_type.weight();
                let ow = n.particle_type.weight();
                !(n.particle_type == ParticleType::Empty && dxdy.y == 0) && !blocks(n) && weight_may_win(rs, mw, ow)
                    ==> final(world).draws().len() > old(world).draws().len() && draws_extend(
                    old(world).draws(),
                    final(world).draws(),
                ) && (r is Some <==> weight_wins(rs, mw, ow, final(world).draws()[old(world).draws().len() as int] as u32))
            }),
    {
        let offset = dxdy.to_offset();
        let other_p = api.neighbour(world, offset);
        let other_type = other_p.particle_type;
        let other_weight = other_type.properties().weight;
        let my_weight = self.particle_type.properties().weight;
        let rises = self.rises();
        let ghost w0 = *world;
        let ghost p = api.pos();
        if other_type == ParticleType::Empty {
            let passes = if dxdy.y == 0 {
                proof {
                    World::lemma_same_frame_refl(world);
                }
                true
            } else {
                Particle::weight_check(api, world, rises, my_weight, other_weight)
            };
            if passes {
                proof {
                    api.lemma_neighbour_agree(&w0, world, offset);
                }
                self.moved = Some(true);
                let ghost w1 = *world;
                api.swap_with(world, offset);
                proof {
                    World::lemma_draws_extend(&w1, world);
                    World::lemma_same_frame_trans(&w0, &w1, world);
                    World::lemma_counts_carried_same(&w0, &w1, p);
                    World::lemma_counts_carried_trans(&w0, p, &w1, p, world, api.pos());
                    api.lemma_target_in_bounds(world, (0, 0));
                    old(api).lemma_target_in_bounds(&w0, offset);
                    World::lemma_same_frame(&w0, &w1);
                    let q = api.pos();
                    assert(w1.cell(q.0, q.1) == w0.cell(q.0, q.1));
                    assert forall|x: int, y: int|
                        w0.in_bounds(x, y) && (x, y) != p && (x, y) != q implies #[trigger] world.cell(x, y) == w0.cell(
                            x,
                            y,
                        ) by {
                        assert(world.cell(x, y) == w1.cell(x, y));
                    }
                    if w0.cell(p.0, p.1).particle_type != ParticleType::Concrete {
                        lemma_moved_to_keeps_concrete(
                            w0,
                            *world,
                            p,
                            q,
                            old(api).target(&w0, offset),
                            old(api).neighbour_spec(&w0, offset),
                        );
                    }
                    lemma_moved_to_keeps_cold(
                        w0,
                        *world,
                        p,
                        q,
                        old(api).target(&w0, offset),
                        old(api).neighbour_spec(&w0, offset),
                    );
                    if w0.cell(p.0, p.1).particle_type != ParticleType::Border {
                        lemma_moved_to_keeps_borders(
                            w0,
                            *world,
                            p,
                            q,
                            old(api).target(&w0, offset),
                            old(api).neighbour_spec(&w0, offset),
                        );
                    }
                }
                return Some(other_type);
            }
        } else if other_type.properties().moves && !other_p.moved.unwrap() {
            if Particle::weight_check(api, world, rises, my_weight, other_weight) {
                let ghost w1 = *world;
                proof {
                    api.lemma_neighbour_agree(&w0, &w1, offset);
                    api.lemma_target_of_non_border(&w0, offset);
                }
                let mut other_p_mut = api.neighbour_mut(world, offset);
                let ghost w2 = *world;
                proof {
                    api.lemma_neighbour_agree(&w1, &w2, offset);
                }
                other_p_mut.set_moved(true);
                api.replace_with(world, offset, other_p_mut);
                let ghost w3 = *world;
                proof {
                    World::lemma_relative_same_frame(&w2, &w3, api.pos().0, api.pos().1, offset.0 as int, offset.1 as int);
                }
                self.moved = Some(true);
                api.swap_with(world, offset);
                proof {
                    World::lemma_draws_extend(&w1, &w2);
                    World::lemma_draws_extend(&w2, &w3);
                    World::lemma_draws_extend(&w3, world);
                    World::lemma_same_frame_trans(&w0, &w1, &w2);
                    World::lemma_same_frame_trans(&w0, &w2, &w3);
                    World::lemma_same_frame_trans(&w0, &w3, world);
                    let q = api.pos();
                    World::lemma_counts_carried_same(&w0, &w1, p);
                    World::lemma_counts_carried_same(&w1, &w2, p);
                    World::lemma_counts_after_same_material(&w2, &w3, q.0, q.1, p);
                    World::lemma_counts_carried_trans(&w0, p, &w1, p, &w2, p);
                    World::lemma_counts_carried_trans(&w0, p, &w2, p, &w3, p);
                    World::lemma_counts_carried_trans(&w0, p, &w3, p, world, q);
                    old(api).lemma_target_in_bounds(&w0, offset);
                    World::lemma_same_frame(&w0, &w1);
                    World::lemma_same_frame(&w0, &w2);
                    assert(w3.cell(q.0, q.1) == other_p_mut);
                    assert forall|x: int, y: int|
                        w0.in_bounds(x, y) && (x, y) != p && (x, y) != q implies #[trigger] world.cell(x, y) == w0.cell(
                            x,
                            y,
                        ) by {
                        assert(world.cell(x, y) == w3.cell(x, y));
                        assert(w3.cell(x, y) == w2.cell(x, y));
                        assert(w2.cell(x, y) == w1.cell(x, y));
                    }
                    if w0.cell(p.0, p.1).particle_type != ParticleType::Concrete {
                        lemma_moved_to_keeps_concrete(
                            w0,
                            *world,
                            p,
                            q,
                            old(api).target(&w0, offset),
                            old(api).neighbour_spec(&w0, offset),
                        );
                    }
                    lemma_moved_to_keeps_cold(
                        w0,
                        *world,
                        p,
                        q,
                        old(api).target(&w0, offset),
                        old(api).neighbour_spec(&w0, offset),
                    );
                    if w0.cell(p.0, p.1).particle_type != ParticleType::Border {
                        lemma_moved_to_keeps_borders(
                            w0,
                            *world,
                            p,
                            q,
                            old(api).target(&w0, offset),
                            old(api).neighbour_spec(&w0, offset),
                        );
                    }
                }
                return Some(other_type);
            }
        }
        proof {
            World::lemma_same_frame_refl(world);
            World::lemma_counts_carried_same(&w0, world, p);
            World::lemma_same_frame(&w0, world);
        }
        None
    }
}

impl Particle {
    /// Acid eats into the particle `dxdy` away when it is of another
    /// material with a durability: both durabilities drop by one, and each
    /// particle whose durability falls below zero turns into empty space. The
    /// status is `Deleted` when the acid itself is used up.
    fn try_decaying(&mut self, dxdy: I8Vec2, api: &WorldApi, world: &mut World) -> (status: Status)
        requires
            old(self).wf(),
            old(self).durability.is_some(),
            api.wf(old(world)),
        ensures
            step_keeps(*old(self), *final(self), *old(world), *final(world), *api, status),
            status == Status::Alive ==> final(self).durability.is_some(),
            (Particle { durability: old(self).durability, ..*final(self) }) == *old(self),
            status == Status::Alive ==> old(world).counts_not_grown(api.pos(), final(world), api.pos()),
            status == Status::Deleted && old(world).cell(api.pos().0, api.pos().1).particle_type
                != ParticleType::Border ==> old(world).counts_dropped(api.pos(), final(world)),
            ({
                let n = api.neighbour_spec(old(world), dxdy.to_offset_spec());
                let q = api.target(old(world), dxdy.to_offset_spec()).unwrap();
                let p = api.pos();
                let eats = n.particle_type != old(self).particle_type && n.durability is Some;
                &&& !eats ==> status == Status::Alive && *final(self) == *old(self) && old(world).cells_agree(
                    final(world),
                )
                &&& eats ==> final(self).durability == Some((old(self).durability.unwrap() - 1) as i16)
                &&& eats ==> (status == Status::Deleted <==> old(self).durability.unwrap() < 1)
                &&& eats && n.durability.unwrap() < 1 ==> final(world).cell(q.0, q.1).is_fresh(ParticleType::Empty)
                &&& eats && n.durability.unwrap() >= 1 && (status == Status::Alive || q != p) ==> final(world).cell(
                    q.0,
                    q.1,
                ) == (Particle { durability: Some((n.durability.unwrap() - 1) as i16), ..n })
                &&& eats && status == Status::Deleted && old(world).cell(p.0, p.1).particle_type != ParticleType::Border
                    ==> final(world).cell(p.0, p.1).is_fresh(ParticleType::Empty)
                &&& eats ==> forall|x: int, y: int|
                    old(world).in_bounds(x, y) && (x, y) != q && (x, y) != p ==> #[trigger] final(world).cell(x, y)
                        == old(world).cell(x, y)
                &&& eats && status == Status::Alive && q != p ==> final(world).cell(p.0, p.1) == old(world).cell(p.0, p.1)
            }),
            old(world).cold_flames_kept(final(world), api.pos()),
            old(world).borders_kept(final(world)),
            old(world).cell(api.pos().0, api.pos().1).particle_type != ParticleType::Border ==> final(world).cell(
                api.pos().0,
                api.pos().1,
            ).particle_type != ParticleType::Border,
            old(world).cell(api.pos().0, api.pos().1).particle_type != ParticleType::Flame ==> final(world).cell(
                api.pos().0,
                api.pos().1,
            ).particle_type != ParticleType::Flame,
            !Particle::cold_flame(old(world).cell(api.pos().0, api.pos().1)) ==> !Particle::cold_flame(
                final(world).cell(api.pos().0, api.pos().1),
            ),
    {
        let offset = dxdy.to_offset();
        let ghost w0 = *world;
        let ghost pos = api.pos();
        let mut other_p = api.neighbour_mut(world, offset);
        let ghost w1 = *world;
        proof {
            api.lemma_neighbour_agree(&w0, &w1, offset);
            World::lemma_counts_carried_same(&w0, &w1, pos);
            World::lemma_counts_carried_not_grown(&w0, pos, &w1, pos);
        }
        if other_p.particle_type != self.particle_type {
            if let Some(other_durability) = other_p.durability {
                proof {
                    api.lemma_target_of_non_border(&w0, offset);
                }
                let other_left = other_durability - 1;
                other_p.durability = Some(other_left);
                if let Some(my_durability) = self.durability {
                    self.durability = Some(my_durability - 1);
                }
                let ghost q = api.target(&w1, offset).unwrap();
                proof {
                    World::lemma_same_frame(&w0, &w1);
                    assert(w0.in_bounds(q.0, q.1));
                }
                if other_left < 0 {
                    api.replace_with_new(world, offset, ParticleType::Empty);
                    proof {
                        if world.cell(q.0, q.1) != w1.cell(q.0, q.1) {
                            Particle::lemma_fresh_facts(world.cell(q.0, q.1), ParticleType::Empty);
                        }
                    }
                } else {
                    api.replace_with(world, offset, other_p);
                }
                let ghost w2 = *world;
                proof {
                    World::lemma_same_frame(&w0, &w1);
                    assert(w0.cold_flames_kept(&w1, pos));
                    World::lemma_cold_flames_write(&w0, &w1, &w2, pos, q);
                    World::lemma_same_frame_trans(&w0, &w1, &w2);
                    World::lemma_counts_after_emptying(&w1, &w2, q.0, q.1, pos);
                    World::lemma_counts_not_grown_trans(&w0, pos, &w1, pos, &w2, pos);
                    if other_left < 0 {
                        Particle::lemma_fresh_facts(w2.cell(q.0, q.1), ParticleType::Empty);
                    }
                    assert forall|x: int, y: int|
                        w0.in_bounds(x, y) && (x, y) != q implies #[trigger] w2.cell(x, y) == w0.cell(x, y) by {
                        assert(w2.cell(x, y) == w1.cell(x, y));
                    }
                }
                if self.durability.unwrap() < 0 {
                    proof {
                        api.lemma_target_self(world);
                    }
                    api.replace_with_new(world, (0, 0), ParticleType::Empty);
                    proof {
                        World::lemma_same_frame_trans(&w0, &w2, world);
                        World::lemma_count_after_write(&w2, world, pos.0, pos.1);
                        if w0.cell(pos.0, pos.1).particle_type != ParticleType::Border {
                            Particle::lemma_fresh_facts(world.cell(pos.0, pos.1), ParticleType::Empty);
                        }
                        World::lemma_same_frame(&w0, &w2);
                        World::lemma_cold_flames_step(&w0, &w2, world, pos, pos);
                        if q == pos && other_left < 0 && world.cell(pos.0, pos.1) == w2.cell(pos.0, pos.1) {
                            assert(world.cell(q.0, q.1).is_fresh(ParticleType::Empty));
                        }
                        assert forall|x: int, y: int|
                            w0.in_bounds(x, y) && (x, y) != q && (x, y) != pos implies #[trigger] world.cell(x, y)
                                == w0.cell(x, y) by {
                            assert(world.cell(x, y) == w2.cell(x, y));
                        }
                    }
                    return Status::Deleted;
                }
                proof {
                    World::lemma_same_frame(&w0, &w2);
                }
            }
        }
        proof {
            World::lemma_same_frame(&w0, &w1);
            World::lemma_same_frame(&w0, world);
        }
        Status::Alive
    }

    /// Falls along the steps of `dxdy` (see `iterate_over_line_delta`), one
    /// cell at a time, for as long as each step succeeds.
    fn fall_with_gravity(&mut self, dxdy: I8Vec2, api: &mut WorldApi, world: &mut World)
        requires
            old(self).wf(),
            old(self).particle_type.moves(),
            old(api).wf(old(world)),
        ensures
            step_keeps(*old(self), *final(self), *old(world), *final(world), *final(api), Status::Alive),
            (Particle { moved: old(self).moved, ..*final(self) }) == *old(self),
            old(world).counts_carried(old(api).pos(), final(world), final(api).pos()),
            old(self).moved == Some(false) && dxdy.x == 0 && dxdy.y > 1 && blocks(
                old(api).neighbour_spec(old(world), (0isize, -1isize)),
            ) ==> *final(self) == *old(self) && final(api).pos() == old(api).pos() && old(world).cells_agree(
                final(world),
            ),
            old(world).cell(old(api).pos().0, old(api).pos().1).particle_type != ParticleType::Concrete ==> old(
                world,
            ).concrete_kept(final(world)) && final(world).cell(final(api).pos().0, final(api).pos().1).particle_type
                != ParticleType::Concrete,
            old(world).cold_flames_kept(final(world), old(api).pos()),
            final(api).pos() != old(api).pos() ==> final(world).cell(final(api).pos().0, final(api).pos().1).particle_type
                != ParticleType::Flame,
            final(self).moved == Some(false) ==> final(api).pos() == old(api).pos(),
            old(world).cell(old(api).pos().0, old(api).pos().1).particle_type != ParticleType::Border ==> old(
                world,
            ).borders_kept(final(world)) && final(world).cell(final(api).pos().0, final(api).pos().1).particle_type
                != ParticleType::Border,
            old(self).moved == Some(false) && final(self).moved == Some(true) ==> vacated(
                final(world).cell(old(api).pos().0, old(api).pos().1),
            ),
            !Particle::cold_flame(old(world).cell(old(api).pos().0, old(api).pos().1)) ==> !Particle::cold_flame(
                final(world).cell(old(api).pos().0, old(api).pos().1),
            ),
            old(world).cell(old(api).pos().0, old(api).pos().1).particle_type != ParticleType::Flame
                ==> final(world).cell(final(api).pos().0, final(api).pos().1).particle_type != ParticleType::Flame,
    {
        let steps = iterate_over_line_delta(dxdy.to_offset());
        let n = steps.len();
        let ghost w0 = *world;
        let ghost p0 = api.pos();
        let ghost fb = old(self).moved == Some(false) && dxdy.x == 0 && dxdy.y > 1 && blocks(
            old(api).neighbour_spec(old(world), (0isize, -1isize)),
        );
        let ghost c0 = w0.cell(p0.0, p0.1).particle_type != ParticleType::Concrete;
        let ghost b0 = w0.cell(p0.0, p0.1).particle_type != ParticleType::Border;
        proof {
            World::lemma_same_frame_refl(world);
            World::lemma_same_frame(&w0, world);
            if fb {
                lemma_first_line_step(dxdy.x as int, dxdy.y as int);
            }
        }
        let mut k: usize = 0;
        while k < n
            invariant
                k <= n,
                n == steps@.len(),
                self.wf(),
                self.particle_type.moves(),
                (Particle { moved: old(self).moved, ..*self }) == *old(self),
                api.wf(world),
                w0.same_frame(world),
                w0 == *old(world),
                p0 == old(api).pos(),
                w0.counts_carried(p0, world, api.pos()),
                old(api).wf(&w0),
                fb == (old(self).moved == Some(false) && dxdy.x == 0 && dxdy.y > 1 && blocks(
                    old(api).neighbour_spec(&w0, (0isize, -1isize)),
                )),
                w0.cold_flames_kept(world, p0),
                api.pos() != p0 ==> world.cell(api.pos().0, api.pos().1).particle_type != ParticleType::Flame,
                self.moved == Some(false) ==> api.pos() == p0,
                w0.cell(p0.0, p0.1).particle_type != ParticleType::Flame ==> world.cell(api.pos().0, api.pos().1).particle_type
                    != ParticleType::Flame,
                !Particle::cold_flame(w0.cell(p0.0, p0.1)) ==> !Particle::cold_flame(world.cell(p0.0, p0.1)),
                old(self).moved == Some(false) && self.moved == Some(true) ==> vacated(world.cell(p0.0, p0.1)),
                b0 == (w0.cell(p0.0, p0.1).particle_type != ParticleType::Border),
                b0 ==> w0.borders_kept(world) && world.cell(api.pos().0, api.pos().1).particle_type
                    != ParticleType::Border,
                fb ==> k == 0,
                c0 == (w0.cell(p0.0, p0.1).particle_type != ParticleType::Concrete),
                c0 ==> w0.concrete_kept(world) && world.cell(api.pos().0, api.pos().1).particle_type
                    != ParticleType::Concrete,
                fb ==> *self == *old(self),
                fb ==> api.pos() == p0,
                fb ==> w0.cells_agree(world),
                fb ==> n > 0 && steps@[0] == (0isize, -1isize),
            ensures
                fb ==> *self == *old(self) && api.pos() == p0 && w0.cells_agree(world),
            decreases n - k,
        {
            let (dx, dy) = steps[k];
            let step = I8Vec2::new(dx as i8, dy as i8);
            let ghost wk = *world;
            let ghost pk = api.pos();
            proof {
                if fb {
                    assert(dx == 0 && dy == -1);
                    assert(step.to_offset_spec() == (0isize, -1isize));
                    World::lemma_same_frame(&w0, &wk);
                    old(api).lemma_neighbour_agree(&w0, &wk, (0isize, -1isize));
                    assert(api.pos() == old(api).pos());
                    assert(api.target(&wk, step.to_offset_spec()) == old(api).target(&wk, (0isize, -1isize)));
                    assert(blocks(old(api).neighbour_spec(&w0, (0isize, -1isize))));
                    assert(old(api).neighbour_spec(&w0, (0isize, -1isize)) == old(api).neighbour_spec(&wk, (0isize, -1isize)));
                    assert(api.neighbour_spec(&wk, step.to_offset_spec()) == old(api).neighbour_spec(&wk, (0isize, -1isize)));
                    assert(blocks(api.neighbour_spec(&wk, step.to_offset_spec())));
                }
            }
            let ghost mk = self.moved;
            self.try_moving_to(step, api, world);
            proof {
                if c0 {
                    World::lemma_concrete_kept_trans(&w0, &wk, world);
                }
                if b0 {
                    World::lemma_borders_kept_trans(&w0, &wk, world);
                }
                World::lemma_cold_flames_step(&w0, &wk, world, p0, pk);
                World::lemma_same_frame(&w0, &wk);
                if old(self).moved == Some(false) && self.moved == Some(true) {
                    if mk == Some(false) {
                        assert(pk == p0);
                    } else if world.cell(p0.0, p0.1) == wk.cell(p0.0, p0.1) {
                        assert(mk == Some(true));
                        assert(vacated(wk.cell(p0.0, p0.1)));
                    }
                }
                if !Particle::cold_flame(w0.cell(p0.0, p0.1)) && pk != p0 {
                    World::lemma_same_frame(&w0, &wk);
                    if Particle::cold_flame(world.cell(p0.0, p0.1)) {
                        assert(world.cell(p0.0, p0.1) == wk.cell(p0.0, p0.1));
                    }
                }
                World::lemma_same_frame_trans(&w0, &wk, world);
                World::lemma_counts_carried_trans(&w0, p0, &wk, pk, world, api.pos());
                if fb {
                    World::lemma_same_frame(&w0, world);
                    assert forall|x: int, y: int| w0.in_bounds(x, y) implies #[trigger] world.cell(x, y) == w0.cell(
                        x,
                        y,
                    ) by {
                        assert(world.cell(x, y) == wk.cell(x, y));
                    }
                }
            }
            if !self.moved.unwrap() {
                break;
            }
            k = k + 1;
        }
    }

    /// Spreads sideways along the steps of `dxdy`: keeps going while it moves
    /// into empty space, and stops once it could move into empty space with
    /// empty space below (above, for a rising particle) both where it is and
    /// one step further on.
    fn disperse(&mut self, dxdy: I8Vec2, api: &mut WorldApi, world: &mut World)
        requires
            old(self).wf(),
            old(self).particle_type.moves(),
            old(api).wf(old(world)),
        ensures
            step_keeps(*old(self), *final(self), *old(world), *final(world), *final(api), Status::Alive),
            (Particle { moved: old(self).moved, ..*final(self) }) == *old(self),
            old(world).counts_carried(old(api).pos(), final(world), final(api).pos()),
            old(self).moved == Some(false) && dxdy.y == 0 && (dxdy.x > 1 || dxdy.x < -1) ==> ({
                let n = old(api).neighbour_spec(old(world), (if dxdy.x > 0 { -1isize } else { 1isize }, 0isize));
                &&& blocks(n) ==> *final(self) == *old(self) && final(api).pos() == old(api).pos() && old(
                    world,
                ).cells_agree(final(world))
                &&& n.particle_type == ParticleType::Empty ==> final(self).moved == Some(true)
            }),
            old(world).cell(old(api).pos().0, old(api).pos().1).particle_type != ParticleType::Concrete ==> old(
                world,
            ).concrete_kept(final(world)) && final(world).cell(final(api).pos().0, final(api).pos().1).particle_type
                != ParticleType::Concrete,
            old(world).cold_flames_kept(final(world), old(api).pos()),
            final(api).pos() != old(api).pos() ==> final(world).cell(final(api).pos().0, final(api).pos().1).particle_type
                != ParticleType::Flame,
            final(self).moved == Some(false) ==> final(api).pos() == old(api).pos(),
            old(world).cell(old(api).pos().0, old(api).pos().1).particle_type != ParticleType::Border ==> old(
                world,
            ).borders_kept(final(world)) && final(world).cell(final(api).pos().0, final(api).pos().1).particle_type
                != ParticleType::Border,
            old(self).moved == Some(false) && final(self).moved == Some(true) ==> vacated(
                final(world).cell(old(api).pos().0, old(api).pos().1),
            ),
            !Particle::cold_flame(old(world).cell(old(api).pos().0, old(api).pos().1)) ==> !Particle::cold_flame(
                final(world).cell(old(api).pos().0, old(api).pos().1),
            ),
            old(world).cell(old(api).pos().0, old(api).pos().1).particle_type != ParticleType::Flame
                ==> final(world).cell(final(api).pos().0, final(api).pos().1).particle_type != ParticleType::Flame,
    {
        let steps = iterate_over_line_delta(dxdy.to_offset());
        let n = steps.len();
        let ghost w0 = *world;
        let ghost p0 = api.pos();
        let ghost first: (isize, isize) = (if dxdy.x > 0 { -1isize } else { 1isize }, 0isize);
        let ghost sideways = old(self).moved == Some(false) && dxdy.y == 0 && (dxdy.x > 1 || dxdy.x < -1);
        let ghost fb = sideways && blocks(old(api).neighbour_spec(old(world), first));
        let ghost fo = sideways && old(api).neighbour_spec(old(world), first).particle_type == ParticleType::Empty;
        let ghost mut started = false;
        let ghost c0 = w0.cell(p0.0, p0.1).particle_type != ParticleType::Concrete;
        let ghost b0 = w0.cell(p0.0, p0.1).particle_type != ParticleType::Border;
        proof {
            World::lemma_same_frame_refl(world);
            World::lemma_same_frame(&w0, world);
            if sideways {
                lemma_first_line_step(dxdy.x as int, dxdy.y as int);
            }
        }
        let mut k: usize = 0;
        while k < n
            invariant
                k <= n,
                n == steps@.len(),
                self.wf(),
                self.particle_type.moves(),
                (Particle { moved: old(self).moved, ..*self }) == *old(self),
                api.wf(world),
                w0.same_frame(world),
                w0 == *old(world),
                p0 == old(api).pos(),
                w0.counts_carried(p0, world, api.pos()),
                sideways ==> n > 0 && steps@[0] == first,
                old(api).wf(&w0),
                first == (if dxdy.x > 0 { -1isize } else { 1isize }, 0isize),
                sideways == (old(self).moved == Some(false) && dxdy.y == 0 && (dxdy.x > 1 || dxdy.x < -1)),
                fb == (sideways && blocks(old(api).neighbour_spec(&w0, first))),
                fo == (sideways && old(api).neighbour_spec(&w0, first).particle_type == ParticleType::Empty),
                w0.cold_flames_kept(world, p0),
                api.pos() != p0 ==> world.cell(api.pos().0, api.pos().1).particle_type != ParticleType::Flame,
                self.moved == Some(false) ==> api.pos() == p0,
                w0.cell(p0.0, p0.1).particle_type != ParticleType::Flame ==> world.cell(api.pos().0, api.pos().1).particle_type
                    != ParticleType::Flame,
                !Particle::cold_flame(w0.cell(p0.0, p0.1)) ==> !Particle::cold_flame(world.cell(p0.0, p0.1)),
                old(self).moved == Some(false) && self.moved == Some(true) ==> vacated(world.cell(p0.0, p0.1)),
                b0 == (w0.cell(p0.0, p0.1).particle_type != ParticleType::Border),
                b0 ==> w0.borders_kept(world) && world.cell(api.pos().0, api.pos().1).particle_type
                    != ParticleType::Border,
                k > 0 ==> started,
                c0 == (w0.cell(p0.0, p0.1).particle_type != ParticleType::Concrete),
                c0 ==> w0.concrete_kept(world) && world.cell(api.pos().0, api.pos().1).particle_type
                    != ParticleType::Concrete,
                !started ==> k == 0 && *self == *old(self) && api.pos() == p0 && w0.cells_agree(world),
                fb ==> !started,
                fo && started ==> self.moved == Some(true),
            ensures
                fb ==> *self == *old(self) && api.pos() == p0 && w0.cells_agree(world),
                fo ==> self.moved == Some(true),
            decreases n - k,
        {
            let (dx, dy) = steps[k];
            let step = I8Vec2::new(dx as i8, dy as i8);
            let ghost wk = *world;
            let ghost pk = api.pos();
            proof {
                if !started && sideways {
                    assert(dx == first.0 && dy == first.1);
                    if dxdy.x > 0 {
                        assert(dx == -1isize);
                        assert(step.x == -1i8);
                    } else {
                        assert(dx == 1isize);
                        assert(step.x == 1i8);
                    }
                    assert(step.to_offset_spec() == first);
                    World::lemma_same_frame(&w0, &wk);
                    old(api).lemma_neighbour_agree(&w0, &wk, first);
                }
            }
            let ghost mk = self.moved;
            let other_type = self.try_moving_to(step, api, world);
            proof {
                if c0 {
                    World::lemma_concrete_kept_trans(&w0, &wk, world);
                }
                if b0 {
                    World::lemma_borders_kept_trans(&w0, &wk, world);
                }
                World::lemma_cold_flames_step(&w0, &wk, world, p0, pk);
                World::lemma_same_frame(&w0, &wk);
                if old(self).moved == Some(false) && self.moved == Some(true) {
                    if mk == Some(false) {
                        assert(pk == p0);
                    } else if world.cell(p0.0, p0.1) == wk.cell(p0.0, p0.1) {
                        assert(mk == Some(true));
                        assert(vacated(wk.cell(p0.0, p0.1)));
                    }
                }
                if !Particle::cold_flame(w0.cell(p0.0, p0.1)) && pk != p0 {
                    World::lemma_same_frame(&w0, &wk);
                    if Particle::cold_flame(world.cell(p0.0, p0.1)) {
                        assert(world.cell(p0.0, p0.1) == wk.cell(p0.0, p0.1));
                    }
                }
                World::lemma_same_frame_trans(&w0, &wk, world);
                World::lemma_counts_carried_trans(&w0, p0, &wk, pk, world, api.pos());
                if fb {
                    World::lemma_same_frame(&w0, world);
                    assert forall|x: int, y: int| w0.in_bounds(x, y) implies #[trigger] world.cell(x, y) == w0.cell(
                        x,
                        y,
                    ) by {
                        assert(world.cell(x, y) == wk.cell(x, y));
                    }
                } else {
                    started = true;
                }
            }
            let keep_going = match other_type {
                Some(t) => {
                    if t == ParticleType::Empty {
                        let r: isize = if self.rises() { -1 } else { 1 };
                        let sx: isize = if dx > 0 { 1 } else if dx < 0 { -1 } else { 0 };
                        if api.neighbour(world, (0, r)).particle_type == ParticleType::Empty
                            && api.neighbour(world, (sx, r)).particle_type == ParticleType::Empty {
                            false
                        } else {
                            true
                        }
                    } else {
                        false
                    }
                },
                None => false,
            };
            if !keep_going {
                break;
            }
            k = k + 1;
        }
    }
}

impl Particle {
    /// Tries the directions in order until the particle moves. A sideways
    /// direction is stretched by the material's dispersion rate, a straight
    /// fall by the particle's vertical speed, and a rising particle tries the
    /// mirrored direction upwards. Acid first eats into the particle it faces
    /// (`decays`). Returns whether the particle is still alive and the
    /// direction it moved in, if any.
    #[verifier::rlimit(100)]
    #[verifier::spinoff_prover]
    fn movement_loop(
        &mut self,
        api: &mut WorldApi,
        world: &mut World,
        check_directions: Vec<I8Vec2>,
        decays: bool,
    ) -> (r: (Status, Option<I8Vec2>))
        requires
            old(self).wf(),
            old(self).particle_type.moves(),
            old(api).wf(old(world)),
            old(self).moved == Some(false),
            decays ==> old(self).durability.is_some(),
            forall|i: int|
                0 <= i < check_directions@.len() ==> -1 <= (#[trigger] check_directions@[i]).x <= 1 && -1
                    <= check_directions@[i].y <= 1,
        ensures
            step_keeps(*old(self), *final(self), *old(world), *final(world), *final(api), r.0),
            r.1 matches Some(d) ==> check_directions@.contains(d),
            r.1 is Some ==> r.0 == Status::Alive,
            final(self).moving_right == old(self).moving_right,
            final(self).condensation_countdown == old(self).condensation_countdown,
            !decays && check_directions@.len() > 0 && all_blocked(
                *old(self),
                *old(api),
                *old(world),
                check_directions@,
                check_directions@.len() - 1,
            ) && r.1 is Some ==> r.1 == Some(check_directions@[check_directions@.len() - 1]),
            final(self).initial_condensation_countdown == old(self).initial_condensation_countdown,
            r.1 is None ==> final(self).moved == old(self).moved,
            r.1 is Some ==> final(self).moved == Some(true),
            final(self).burning == old(self).burning,
            !decays ==> r.0 == Status::Alive,
            !decays ==> old(world).counts_carried(old(api).pos(), final(world), final(api).pos()),
            decays && r.0 == Status::Alive ==> old(world).counts_not_grown(old(api).pos(), final(world), final(api).pos()),
            decays && r.0 == Status::Deleted && old(world).cell(old(api).pos().0, old(api).pos().1).particle_type
                != ParticleType::Border ==> old(world).counts_dropped(old(api).pos(), final(world)),
            !decays && all_blocked(*old(self), *old(api), *old(world), check_directions@, check_directions@.len() as int)
                ==> r.1 is None && *final(self) == *old(self) && final(api).pos() == old(api).pos() && old(
                world,
            ).cells_agree(final(world)),
            forall|k: int|
                !decays && 0 <= k < check_directions@.len() && #[trigger] opens_first(
                    *old(self),
                    *old(api),
                    *old(world),
                    check_directions@,
                    k,
                ) ==> final(self).moved == Some(true) && r.1 == Some(check_directions@[k]),
            !decays && old(world).cell(old(api).pos().0, old(api).pos().1).particle_type != ParticleType::Concrete
                ==> old(world).concrete_kept(final(world)) && final(world).cell(final(api).pos().0, final(api).pos().1).particle_type
                != ParticleType::Concrete,
            old(world).cold_flames_kept(final(world), old(api).pos()),
            old(world).cell(old(api).pos().0, old(api).pos().1).particle_type != ParticleType::Border ==> old(
                world,
            ).borders_kept(final(world)) && final(world).cell(final(api).pos().0, final(api).pos().1).particle_type
                != ParticleType::Border,
            r.1 is Some ==> vacated(final(world).cell(old(api).pos().0, old(api).pos().1)),
            !Particle::cold_flame(old(world).cell(old(api).pos().0, old(api).pos().1)) ==> !Particle::cold_flame(
                final(world).cell(old(api).pos().0, old(api).pos().1),
            ),
            final(api).pos() != old(api).pos() ==> final(world).cell(final(api).pos().0, final(api).pos().1).particle_type
                != ParticleType::Flame,
            old(world).cell(old(api).pos().0, old(api).pos().1).particle_type != ParticleType::Flame
                ==> final(world).cell(final(api).pos().0, final(api).pos().1).particle_type != ParticleType::Flame,
            decays && acid_scenario(*old(self), *old(api), *old(world), check_directions@) ==> r.1 is None
                && acid_outcome(*old(self), *final(self), *old(api), *final(api), *old(world), *final(world), check_directions@, r.0),
            !decays && first_contest(*old(self), *old(api), *old(world), check_directions@) ==> final(world).draws().len()
                > old(world).draws().len() && (wins_first(
                *old(self),
                *old(api),
                *old(world),
                check_directions@,
                final(world).draws()[old(world).draws().len() as int],
            ) ==> r.1 == Some(check_directions@[0]) && final(api).pos() == old(api).target(
                old(world),
                first_step(*old(self), check_directions@[0]),
            ).unwrap()),
    {
        let dispersion_rate: i8 = match self.particle_type.properties().dispersion_rate {
            Some(d) => d as i8,
            None => 1,
        };
        proof {
            lemma_flammable_has_fuel(self.particle_type);
            World::lemma_same_frame_refl(world);
        }
        assert(1 <= dispersion_rate <= 10);
        let ghost w0 = *world;
        let ghost s0 = *self;
        let ghost p0 = api.pos();
        let ghost dirs = check_directions@;
        let ghost c0 = w0.cell(p0.0, p0.1).particle_type != ParticleType::Concrete;
        let ghost b0 = w0.cell(p0.0, p0.1).particle_type != ParticleType::Border;
        let ghost sc = decays && acid_scenario(s0, *old(api), w0, dirs);
        let ghost ds = if sc { premove_step(s0, dirs[0]) } else { (0isize, 0isize) };
        let ghost q = if sc { old(api).target(&w0, ds).unwrap() } else { p0 };
        let ghost eaten = if sc { eaten_form(old(api).neighbour_spec(&w0, ds)) } else { s0 };
        let ghost fc = !decays && first_contest(s0, *old(api), w0, dirs);
        let ghost dl = w0.draws().len() as int;
        proof {
            World::lemma_same_frame(&w0, world);
        }
        let n = check_directions.len();
        for i in 0..n
            invariant
                n == check_directions@.len(),
                forall|j: int|
                    0 <= j < check_directions@.len() ==> -1 <= (#[trigger] check_directions@[j]).x <= 1 && -1
                        <= check_directions@[j].y <= 1,
                1 <= dispersion_rate <= 10,
                self.wf(),
                self.particle_type == s0.particle_type,
                s0.particle_type.moves(),
                self.moved == Some(false),
                self.moving_right == s0.moving_right,
                self.condensation_countdown == s0.condensation_countdown,
                self.initial_condensation_countdown == s0.initial_condensation_countdown,
                self.burning == s0.burning,
                decays ==> self.durability.is_some(),
                api.wf(world),
                w0.same_frame(world),
                w0 == *old(world),
                s0 == *old(self),
                s0.moved == Some(false),
                p0 == old(api).pos(),
                !decays ==> w0.counts_carried(p0, world, api.pos()),
                decays ==> w0.counts_not_grown(p0, world, api.pos()),
                self.velocity == s0.velocity,
                dispersion_rate as int == (match s0.particle_type.dispersion_rate() {
                    Some(d) => d as int,
                    None => 1int,
                }),
                old(api).wf(&w0),
                check_directions@ == dirs,
                !decays && all_blocked(s0, *old(api), w0, dirs, i as int) ==> *self == s0 && api.pos() == p0
                    && w0.cells_agree(world),
                forall|k: int| !decays && 0 <= k < i ==> !#[trigger] opens_first(s0, *old(api), w0, dirs, k),
                c0 == (w0.cell(p0.0, p0.1).particle_type != ParticleType::Concrete),
                b0 == (w0.cell(p0.0, p0.1).particle_type != ParticleType::Border),
                b0 ==> w0.borders_kept(world) && world.cell(api.pos().0, api.pos().1).particle_type
                    != ParticleType::Border,
                !decays && c0 ==> w0.concrete_kept(world) && world.cell(api.pos().0, api.pos().1).particle_type
                    != ParticleType::Concrete,
                w0.cold_flames_kept(world, p0),
                api.pos() == p0,
                !Particle::cold_flame(w0.cell(p0.0, p0.1)) ==> !Particle::cold_flame(world.cell(p0.0, p0.1)),
                w0.cell(p0.0, p0.1).particle_type != ParticleType::Flame ==> world.cell(api.pos().0, api.pos().1).particle_type
                    != ParticleType::Flame,
                sc == (decays && acid_scenario(s0, *old(api), w0, dirs)),
                sc ==> ds == premove_step(s0, dirs[0]) && Some(q) == old(api).target(&w0, ds) && q != p0
                    && eaten == eaten_form(old(api).neighbour_spec(&w0, ds)),
                sc && i == 0 ==> *self == s0 && w0.cells_agree(world),
                i == 0 ==> *world == w0,
                fc == (!decays && first_contest(s0, *old(api), w0, dirs)),
                dl == w0.draws().len(),
                fc && i > 0 ==> world.draws().len() > dl && !wins_first(s0, *old(api), w0, dirs, world.draws()[dl]),
                sc && i > 0 ==> *self == (Particle { durability: Some((s0.durability.unwrap() - 1) as i16), ..s0 })
                    && s0.durability.unwrap() >= 1 && world.cell(q.0, q.1) == eaten && forall|x: int, y: int|
                    w0.in_bounds(x, y) && (x, y) != q ==> #[trigger] world.cell(x, y) == w0.cell(x, y),
        {
            let dxdy = check_directions[i];
            let r: i8 = if self.rises() { -1 } else { 1 };
            assert(-10 <= dispersion_rate * dxdy.x <= 10) by (nonlinear_arith)
                requires
                    1 <= dispersion_rate <= 10,
                    -1 <= dxdy.x <= 1,
            ;
            let dxdy_new = if dxdy.y == 0 {
                I8Vec2::new(dispersion_rate * dxdy.x, dxdy.y)
            } else if r == 1 && dxdy.x == 0 {
                I8Vec2::new(dxdy.x, self.velocity.unwrap().y)
            } else {
                I8Vec2::new(dxdy.x, r * dxdy.y)
            };
            assert(-10 <= dxdy_new.x <= 10);
            let ghost wi = *world;
            let ghost pi = api.pos();
            let ghost fs = first_step(s0, dxdy);
            let ghost unmoved = !decays && all_blocked(s0, *old(api), w0, dirs, i as int);
            let ghost pd = premove_step(s0, dxdy);
            proof {
                assert(dirs[i as int] == dxdy);
                if dxdy.x == 1 {
                    assert(dispersion_rate * dxdy.x == dispersion_rate) by (nonlinear_arith)
                        requires
                            dxdy.x == 1,
                    ;
                } else if dxdy.x == -1 {
                    assert(dispersion_rate * dxdy.x == -dispersion_rate) by (nonlinear_arith)
                        requires
                            dxdy.x == -1,
                    ;
                } else {
                    assert(dxdy.x == 0);
                    assert(dispersion_rate * dxdy.x == 0) by (nonlinear_arith)
                        requires
                            dxdy.x == 0,
                    ;
                }
                if unmoved {
                    World::lemma_same_frame(&w0, &wi);
                    old(api).lemma_neighbour_agree(&w0, &wi, fs);
                }
                assert(pd == dxdy_new.to_offset_spec());
                if sc {
                    World::lemma_same_frame(&w0, &wi);
                    if i == 0 {
                        old(api).lemma_neighbour_agree(&w0, &wi, pd);
                        old(api).lemma_neighbour_agree(&w0, &wi, fs);
                    } else {
                        lemma_eaten_neighbour(*old(api), w0, wi, q, eaten, pd);
                        lemma_eaten_neighbour(*old(api), w0, wi, q, eaten, fs);
                        assert(!eats(s0, old(api).neighbour_spec(&w0, premove_step(s0, dirs[i as int]))));
                    }
                    assert(blocks(old(api).neighbour_spec(&w0, first_step(s0, dirs[i as int]))));
                }
            }
            let ghost si = *self;
            let status = if decays {
                self.try_decaying(dxdy_new, api, world)
            } else {
                proof {
                    World::lemma_same_frame_refl(world);
                    World::lemma_same_frame(&wi, world);
                }
                Status::Alive
            };
            proof {
                if b0 {
                    World::lemma_same_frame(&wi, world);
                    if !decays {
                        assert(wi.borders_kept(world));
                    }
                    World::lemma_borders_kept_trans(&w0, &wi, world);
                }
                World::lemma_cold_flames_step(&w0, &wi, world, p0, p0);
                World::lemma_same_frame_trans(&w0, &wi, world);
                if decays {
                    if status == Status::Alive {
                        World::lemma_counts_not_grown_trans(&w0, p0, &wi, pi, world, pi);
                    } else if w0.cell(p0.0, p0.1).particle_type != ParticleType::Border {
                        assert forall|m: ParticleType| m != ParticleType::Empty implies #[trigger] world.material_count(m)
                            <= w0.material_count(m) - (if w0.cell(p0.0, p0.1).particle_type == m {
                            1int
                        } else {
                            0int
                        }) by {
                            assert(wi.material_count(m) == wi.material_count(m));
                        }
                    }
                }
            }
            if status == Status::Deleted {
                proof {
                    assert(self.moved == si.moved);
                }
                return (status, None);
            }
            proof {
                if unmoved {
                    assert(api.neighbour_spec(world, fs) == old(api).neighbour_spec(&w0, fs));
                }
                if sc {
                    World::lemma_same_frame(&w0, world);
                    if i == 0 {
                        assert(pd == ds);
                        assert(api.target(&wi, pd) == Some(q));
                        assert(api.neighbour_spec(&wi, pd) == old(api).neighbour_spec(&w0, ds));
                        assert(world.cell(q.0, q.1) == eaten);
                        assert forall|x: int, y: int| w0.in_bounds(x, y) && (x, y) != q implies #[trigger] world.cell(
                            x,
                            y,
                        ) == w0.cell(x, y) by {
                            assert(wi.cell(x, y) == w0.cell(x, y));
                        }
                    } else {
                        old(api).lemma_target_in_bounds(&w0, ds);
                        assert(world.cell(q.0, q.1) == wi.cell(q.0, q.1));
                        assert forall|x: int, y: int| w0.in_bounds(x, y) && (x, y) != q implies #[trigger] world.cell(
                            x,
                            y,
                        ) == w0.cell(x, y) by {
                            assert(world.cell(x, y) == wi.cell(x, y));
                        }
                    }
                    lemma_eaten_neighbour(*old(api), w0, *world, q, eaten, fs);
                    assert(blocks(api.neighbour_spec(world, fs)));
                }
            }
            let ghost wj = *world;
            let ghost pj = api.pos();
            let ax: i8 = if dxdy_new.x < 0 { -dxdy_new.x } else { dxdy_new.x };
            if ax > 1 {
                proof {
                    assert(fs == (if dxdy_new.x > 0 { -1isize } else { 1isize }, 0isize));
                }
                self.disperse(dxdy_new, api, world);
            } else if dxdy_new.y > 1 {
                proof {
                    assert(fs == (0isize, -1isize));
                }
                self.fall_with_gravity(dxdy_new, api, world);
            } else {
                proof {
                    assert(fs == dxdy_new.to_offset_spec());
                }
                self.try_moving_to(dxdy_new, api, world);
            }
            proof {
                World::lemma_same_frame_trans(&w0, &wj, world);
                if sc {
                    World::lemma_same_frame(&w0, &wj);
                    assert forall|x: int, y: int| w0.in_bounds(x, y) && (x, y) != q implies #[trigger] world.cell(x, y)
                        == w0.cell(x, y) by {
                        assert(world.cell(x, y) == wj.cell(x, y));
                    }
                }
                if !decays && c0 {
                    World::lemma_concrete_kept_trans(&w0, &wj, world);
                }
                if b0 {
                    World::lemma_borders_kept_trans(&w0, &wj, world);
                }
                World::lemma_cold_flames_step(&w0, &wj, world, p0, p0);
                if !decays {
                    World::lemma_counts_carried_trans(&w0, p0, &wj, pj, world, api.pos());
                } else {
                    World::lemma_counts_carried_not_grown(&wj, pj, world, api.pos());
                    World::lemma_counts_not_grown_trans(&w0, p0, &wj, pj, world, api.pos());
                }
            }
            proof {
                World::lemma_same_frame_trans(&wi, &wj, world);
                World::lemma_draws_extend(&wi, world);
                if fc && i == 0 {
                    assert(wi == w0);
                    assert(dxdy == I8Vec2 { x: 0, y: 1 });
                    assert(fs == dxdy_new.to_offset_spec());
                    assert(wj == w0);
                }
            }
            if self.moved.unwrap() {
                proof {
                    assert(check_directions@[i as int] == dxdy);
                    if !decays && all_blocked(s0, *old(api), w0, dirs, n - 1) && i + 1 < n {
                        assert(all_blocked(s0, *old(api), w0, dirs, i + 1));
                        assert(blocks(old(api).neighbour_spec(&w0, first_step(s0, dirs[i as int]))));
                        assert(self.moved == Some(false));
                    }
                }
                return (status, Some(dxdy));
            }
        }
        (Status::Alive, None)
    }

    /// Moves the particle once per frame: a falling particle first speeds up
    /// by one up to its terminal speed, a fluid tries down, down-diagonally
    /// and sideways (preferring the side it is heading to, and turning round
    /// when only the far side was left), and a grain tries down and the two
    /// down-diagonals in random order. The vertical speed is reset when the
    /// particle did not move straight down. When the first cell probed in
    /// every direction blocks it, nothing moves; a fluid whose first
    /// unblocked direction leads sideways into empty space moves. Moving
    /// touches no concrete and no flame gone out.
    #[verifier::rlimit(60)]
    fn movement(&mut self, api: &mut WorldApi, world: &mut World, decays: bool) -> (status: Status)
        requires
            old(self).wf(),
            old(self).particle_type.moves(),
            old(api).wf(old(world)),
            decays ==> old(self).durability.is_some(),
        ensures
            step_keeps(*old(self), *final(self), *old(world), *final(world), *final(api), status),
            old(self).moved == Some(true) ==> *final(self) == *old(self) && *final(world) == *old(world)
                && *final(api) == *old(api) && status == Status::Alive,
            final(self).burning == old(self).burning,
            final(self).condensation_countdown == old(self).condensation_countdown,
            !decays && old(self).particle_type.fluid() && old(self).moved == Some(false) && all_blocked(
                after_gravity(*old(self)),
                *old(api),
                *old(world),
                fluid_dirs(old(self).moving_right.unwrap()),
                4,
            ) && final(self).moved == Some(true) ==> final(self).moving_right == Some(!old(self).moving_right.unwrap()),
            final(self).initial_condensation_countdown == old(self).initial_condensation_countdown,
            !decays ==> status == Status::Alive,
            !decays ==> old(world).counts_carried(old(api).pos(), final(world), final(api).pos()),
            decays && status == Status::Alive ==> old(world).counts_not_grown(
                old(api).pos(),
                final(world),
                final(api).pos(),
            ),
            decays && status == Status::Deleted && old(world).cell(old(api).pos().0, old(api).pos().1).particle_type
                != ParticleType::Border ==> old(world).counts_dropped(old(api).pos(), final(world)),
            !decays && old(self).moved == Some(false) && old(self).particle_type.fluid() && (exists|k: int|
                0 <= k < 5 && #[trigger] opens_first(
                    after_gravity(*old(self)),
                    *old(api),
                    *old(world),
                    fluid_dirs(old(self).moving_right.unwrap()),
                    k,
                )) ==> final(self).moved == Some(true),
            !decays && old(self).moved == Some(false) && all_blocked(
                after_gravity(*old(self)),
                *old(api),
                *old(world),
                if old(self).particle_type.fluid() {
                    fluid_dirs(old(self).moving_right.unwrap())
                } else {
                    grain_dirs()
                },
                if old(self).particle_type.fluid() {
                    5int
                } else {
                    3int
                },
            ) ==> final(self).moved == Some(false) && final(api).pos() == old(api).pos() && old(world).cells_agree(
                final(world),
            ),
            !decays && old(world).cell(old(api).pos().0, old(api).pos().1).particle_type != ParticleType::Concrete
                ==> old(world).concrete_kept(final(world)) && final(world).cell(final(api).pos().0, final(api).pos().1).particle_type
                != ParticleType::Concrete,
            old(world).cold_flames_kept(final(world), old(api).pos()),
            old(world).cell(old(api).pos().0, old(api).pos().1).particle_type != ParticleType::Border ==> old(
                world,
            ).borders_kept(final(world)) && final(world).cell(final(api).pos().0, final(api).pos().1).particle_type
                != ParticleType::Border,
            old(self).moved == Some(false) && final(self).moved == Some(true) ==> vacated(
                final(world).cell(old(api).pos().0, old(api).pos().1),
            ),
            decays && old(self).particle_type.fluid() && acid_scenario(
                after_gravity(*old(self)),
                *old(api),
                *old(world),
                fluid_dirs(old(self).moving_right.unwrap()),
            ) ==> acid_outcome(
                after_gravity(*old(self)),
                *final(self),
                *old(api),
                *final(api),
                *old(world),
                *final(world),
                fluid_dirs(old(self).moving_right.unwrap()),
                status,
            ),
            !Particle::cold_flame(old(world).cell(old(api).pos().0, old(api).pos().1)) ==> !Particle::cold_flame(
                final(world).cell(old(api).pos().0, old(api).pos().1),
            ),
            final(api).pos() != old(api).pos() ==> final(world).cell(final(api).pos().0, final(api).pos().1).particle_type
                != ParticleType::Flame,
            ({
                let g = after_gravity(*old(self));
                let dirs = if old(self).particle_type.fluid() {
                    fluid_dirs(old(self).moving_right.unwrap())
                } else {
                    grain_dirs()
                };
                let dl = old(world).draws().len() + if old(self).particle_type.fluid() {
                    0int
                } else {
                    1int
                };
                !decays && old(self).moved == Some(false) && first_contest(g, *old(api), *old(world), dirs)
                    ==> final(world).draws().len() > dl && (wins_first(g, *old(api), *old(world), dirs, final(world).draws()[dl])
                    ==> final(self).moved == Some(true) && final(api).pos() == old(api).target(
                    old(world),
                    first_step(g, dirs[0]),
                ).unwrap())
            }),
            old(world).cell(old(api).pos().0, old(api).pos().1).particle_type != ParticleType::Flame
                ==> final(world).cell(final(api).pos().0, final(api).pos().1).particle_type != ParticleType::Flame,
    {
        if self.moved.unwrap() {
            proof {
                World::lemma_same_frame_refl(world);
                World::lemma_same_frame(world, world);
            }
            return Status::Alive;
        }
        proof {
            lemma_flammable_has_fuel(self.particle_type);
        }
        if !self.rises() {
            if let Some(vel) = self.velocity {
                assert(vel.x * vel.x + vel.y * vel.y <= 25) by (nonlinear_arith)
                    requires
                        vel.x == 0,
                        0 <= vel.y <= 5,
                ;
                if vel.length_sq() < self.particle_type.properties().terminal_velocity_sq.unwrap() {
                    assert(vel.y * vel.y < 25);
                    assert(vel.y < 5) by (nonlinear_arith)
                        requires
                            vel.y * vel.y < 25,
                            vel.y >= 0,
                    ;
                    self.velocity = Some(I8Vec2::new(vel.x, vel.y + 1));
                }
            }
        }
        let ghost w0 = *world;
        let ghost p0 = api.pos();
        let ghost g = *self;
        assert(g == after_gravity(*old(self)));
        let (status, last_dir) = if self.particle_type.properties().fluid {
            let check_directions = if self.moving_right.unwrap() {
                i8vec2_vector(vec![(0i8, 1i8), (1, 1), (-1, 1), (1, 0), (-1, 0)])
            } else {
                i8vec2_vector(vec![(0i8, 1i8), (-1, 1), (1, 1), (-1, 0), (1, 0)])
            };
            let last_possible_dir = check_directions[4];
            assert(check_directions@ == fluid_dirs(old(self).moving_right.unwrap()));
            let (status, last_dir) = self.movement_loop(api, world, check_directions, decays);
            if let Some(last_dxdy) = last_dir {
                if last_dxdy == I8Vec2::new(-1, 1) {
                    self.moving_right = Some(false);
                }
                if last_dxdy == I8Vec2::new(1, 1) {
                    self.moving_right = Some(true);
                } else if last_dxdy == last_possible_dir {
                    self.moving_right = Some(!self.moving_right.unwrap());
                }
            }
            (status, last_dir)
        } else {
            let r = api.random(world);
            let ghost w1 = *world;
            proof {
                World::lemma_same_content(&w0, &w1);
            }
            let right: i8 = if r { -1 } else { 1 };
            let left: i8 = 0 - right;
            let check_directions = i8vec2_vector(vec![(0i8, 1i8), (right, 1), (left, 1)]);
            proof {
                let ghost gd = grain_dirs();
                if !decays && all_blocked(g, *old(api), w0, gd, 3) {
                    World::lemma_same_frame(&w0, &w1);
                    assert forall|j: int| 0 <= j < 3 implies blocks(
                        old(api).neighbour_spec(&w1, #[trigger] first_step(g, check_directions@[j])),
                    ) by {
                        let d = check_directions@[j];
                        let jj: int = if d == gd[0] { 0 } else if d == gd[1] { 1 } else { 2 };
                        assert(d == gd[jj]);
                        assert(blocks(old(api).neighbour_spec(&w0, first_step(g, gd[jj]))));
                        old(api).lemma_neighbour_agree(&w0, &w1, first_step(g, d));
                    }
                }
            }
            proof {
                let gd = grain_dirs();
                assert(check_directions@[0] == gd[0]);
                old(api).lemma_neighbour_agree(&w0, &w1, first_step(g, gd[0]));
                World::lemma_same_frame(&w0, &w1);
            }
            let (status, last_dir) = self.movement_loop(api, world, check_directions, decays);
            proof {
                World::lemma_same_frame_trans(&w0, &w1, world);
                if !decays && w0.cell(p0.0, p0.1).particle_type != ParticleType::Concrete {
                    World::lemma_concrete_kept_trans(&w0, &w1, world);
                }
                World::lemma_same_frame(&w0, &w1);
                World::lemma_cold_flames_step(&w0, &w1, world, p0, p0);
                if w0.cell(p0.0, p0.1).particle_type != ParticleType::Border {
                    assert(w0.borders_kept(&w1));
                    World::lemma_borders_kept_trans(&w0, &w1, world);
                }
                World::lemma_counts_carried_same(&w0, &w1, p0);
                if !decays {
                    World::lemma_counts_carried_trans(&w0, p0, &w1, p0, world, api.pos());
                } else if status == Status::Alive {
                    World::lemma_counts_carried_not_grown(&w0, p0, &w1, p0);
                    World::lemma_counts_not_grown_trans(&w0, p0, &w1, p0, world, api.pos());
                } else {
                    World::lemma_same_frame(&w0, &w1);
                    World::lemma_count_agree(&w0, &w1);
                }
            }
            (status, last_dir)
        };
        let last_dxdy = match last_dir {
            Some(d) => d,
            None => I8Vec2::new(1, 0),
        };
        if last_dxdy.x != 0 {
            if let Some(vel) = self.velocity {
                self.velocity = Some(I8Vec2::new(vel.x, 0));
            }
        }
        status
    }
}

/// Whether `p` is the flicker paint a burning particle can take: hue turned
/// by `-15..15` degrees, saturation scaled by `0.95..1.05` and value by
/// `0.9..1.1` (all in thousandths).
pub open spec fn is_flicker(p: Paint) -> bool {
    match p {
        Paint::Flicker { hue_millidegrees, sat_permille, val_permille } => -15000 <= hue_millidegrees < 15000
            && 950 <= sat_permille < 1050 && 900 <= val_permille < 1100,
        _ => false,
    }
}

/// Every cell of `w` that holds a flame where `start` held none has a flame
/// with fuel in `0..f0`.
spec fn new_flames_fuelled(start: World, w: World, f0: int) -> bool {
    forall|x: int, y: int|
        start.in_bounds(x, y) && (#[trigger] w.cell(x, y)).particle_type == ParticleType::Flame && start.cell(
            x,
            y,
        ).particle_type != ParticleType::Flame ==> (w.cell(x, y).fuel matches Some(k) && 0 <= k < f0)
}

/// How readily particle `n` catches fire, in thousandths: the wet
/// flammability of its material when it is watered, its flammability
/// otherwise.
pub open spec fn catch_flammability(n: Particle) -> int {
    if n.watered == Some(true) {
        match n.particle_type.wet_flammability() {
            Some(f) => f as int,
            None => 0int,
        }
    } else {
        n.particle_type.flammability() as int
    }
}

/// What fire may do to a cell next to it: set a particle that was not
/// burning and can catch alight, put a burning flame into empty space, or
/// turn water into new steam.
pub open spec fn burn_change(a: Particle, b: Particle) -> bool {
    ||| !a.burning && catch_flammability(a) > 0 && b == (Particle { burning: true, ..a })
    ||| a.particle_type == ParticleType::Empty && b.particle_type == ParticleType::Flame && b.burning
    ||| a.particle_type == ParticleType::Water && b.particle_type == ParticleType::Steam && !b.burning && b.is_fresh(
        ParticleType::Steam,
    )
}

/// Every cell that differs between `w0` and `w` was changed by fire.
pub open spec fn burn_changes(w0: World, w: World) -> bool {
    forall|x: int, y: int|
        w0.in_bounds(x, y) && #[trigger] w.cell(x, y) != w0.cell(x, y) ==> burn_change(w0.cell(x, y), w.cell(x, y))
}

/// The neighbour in burn direction `k` (another cell of the world) is not
/// burning and so flammable in that direction that every draw sets it
/// alight (`ignites` holds for every draw below `FRACTION_SCALE`).
pub open spec fn sure_to_catch(api: WorldApi, w0: World, k: int) -> bool {
    let n = api.neighbour_spec(&w0, burn_dir(k));
    &&& api.target(&w0, burn_dir(k)) matches Some(q) && q != api.pos()
    &&& !n.burning
    &&& catch_flammability(n) * (2 - burn_dir(k).1) >= 2000
}

/// The neighbour in burn direction `k` (another cell of the world, not
/// below) is empty space, the burning particle has fuel left, and the cells
/// to its left and right are burning: a new flame always goes there.
pub open spec fn sure_new_flame(api: WorldApi, w0: World, k: int, fuel: int) -> bool {
    &&& api.target(&w0, burn_dir(k)) matches Some(q) && q != api.pos()
    &&& burn_dir(k).1 < 1
    &&& api.neighbour_spec(&w0, burn_dir(k)).particle_type == ParticleType::Empty
    &&& fuel > 0
    &&& api.neighbour_spec(&w0, burn_dir(2)).burning
    &&& api.neighbour_spec(&w0, burn_dir(1)).burning
}

/// After the first `i` burn directions: each sure catch among them is
/// burning, and each sure new flame is a burning flame.
pub open spec fn burn_sure_kept(api: WorldApi, w0: World, w: World, i: int, fuel: int) -> bool {
    &&& forall|k: int|
        0 <= k < i && #[trigger] sure_to_catch(api, w0, k) ==> ({
            let q = api.target(&w0, burn_dir(k)).unwrap();
            w.cell(q.0, q.1).burning
        })
    &&& forall|k: int|
        0 <= k < i && #[trigger] sure_new_flame(api, w0, k, fuel) ==> ({
            let q = api.target(&w0, burn_dir(k)).unwrap();
            w.cell(q.0, q.1).particle_type == ParticleType::Flame && w.cell(q.0, q.1).burning
        })
}

/// What one burn direction does to the neighbour `n` it finds there, whatever
/// the draw: it leaves it, or changes it by fire, and a new flame only under
/// the conditions for one; a neighbour that every draw sets alight is set
/// alight, and under those conditions a new flame does go into empty space.
pub open spec fn burn_step_ok(n: Particle, m: Particle, dy: int, fuel: int, sides: bool) -> bool {
    &&& (m == n || burn_change(n, m))
    &&& (n.particle_type == ParticleType::Empty && m != n ==> fuel > 0 && dy < 1 && sides)
    &&& (!n.burning && catch_flammability(n) * (2 - dy) >= 2000 ==> m == (Particle { burning: true, ..n }))
    &&& (n.particle_type == ParticleType::Empty && fuel > 0 && dy < 1 && sides ==> m.particle_type
        == ParticleType::Flame && m.burning)
}

/// The burn facts carry over to a world with the same cells.
pub proof fn lemma_burn_facts_agree(api: WorldApi, w0: World, a: World, b: World, i: int, fuel: int)
    requires
        api.wf(&w0),
        w0.same_frame(&a),
        a.cells_agree(&b),
        burn_changes(w0, a),
        burn_sure_kept(api, w0, a, i, fuel),
    ensures
        burn_changes(w0, b),
        burn_sure_kept(api, w0, b, i, fuel),
{
    World::lemma_same_frame(&w0, &a);
    assert forall|x: int, y: int| w0.in_bounds(x, y) && #[trigger] b.cell(x, y) != w0.cell(x, y) implies burn_change(
        w0.cell(x, y),
        b.cell(x, y),
    ) by {
        assert(b.cell(x, y) == a.cell(x, y));
    }
    assert forall|k: int| 0 <= k < i && #[trigger] sure_to_catch(api, w0, k) implies ({
        let q = api.target(&w0, burn_dir(k)).unwrap();
        b.cell(q.0, q.1).burning
    }) by {
        api.lemma_target_in_bounds(&w0, burn_dir(k));
        let q = api.target(&w0, burn_dir(k)).unwrap();
        assert(b.cell(q.0, q.1) == a.cell(q.0, q.1));
    }
    assert forall|k: int| 0 <= k < i && #[trigger] sure_new_flame(api, w0, k, fuel) implies ({
        let q = api.target(&w0, burn_dir(k)).unwrap();
        b.cell(q.0, q.1).particle_type == ParticleType::Flame && b.cell(q.0, q.1).burning
    }) by {
        api.lemma_target_in_bounds(&w0, burn_dir(k));
        let q = api.target(&w0, burn_dir(k)).unwrap();
        assert(b.cell(q.0, q.1) == a.cell(q.0, q.1));
    }
}

/// A flammability that is enough whatever the draw ignites for every draw.
pub proof fn lemma_sure_ignites(flammability: u16, dy: i8, draw: u32)
    requires
        -1 <= dy <= 1,
        draw < FRACTION_SCALE,
        (flammability as int) * (2 - dy) >= 2000,
    ensures
        ignites(flammability, dy, draw),
{
    let a = (flammability as int) * (2 - dy);
    assert(a * (FRACTION_SCALE as int) >= 2000 * (FRACTION_SCALE as int)) by (nonlinear_arith)
        requires
            a >= 2000,
    ;
    assert((flammability as int) * (2 - dy) * (FRACTION_SCALE as int) == a * (FRACTION_SCALE as int));
}

/// One burn direction that keeps `burn_step_ok` at its target and changes
/// no other cell keeps `burn_changes` and extends `burn_sure_kept` by a
/// direction.
#[verifier::rlimit(40)]
pub proof fn lemma_burn_step(api: WorldApi, w0: World, wn: World, after: World, i: int, fuel: int)
    requires
        api.wf(&w0),
        w0.same_frame(&wn),
        0 <= i < 4,
        burn_changes(w0, wn),
        burn_sure_kept(api, w0, wn, i, fuel),
        forall|x: int, y: int|
            w0.in_bounds(x, y) && Some((x, y)) != api.target(&w0, burn_dir(i)) ==> #[trigger] after.cell(x, y)
                == wn.cell(x, y),
        api.target(&w0, burn_dir(i)) matches Some(q) ==> wn.cell(q.0, q.1).wf() && burn_step_ok(
            wn.cell(q.0, q.1),
            after.cell(q.0, q.1),
            burn_dir(i).1 as int,
            fuel,
            api.neighbour_spec(&wn, burn_dir(2)).burning && api.neighbour_spec(&wn, burn_dir(1)).burning,
        ),
    ensures
        burn_changes(w0, after),
        burn_sure_kept(api, w0, after, i + 1, fuel),
{
    let pos = api.pos();
    World::lemma_relative_same_frame(&w0, &wn, pos.0, pos.1, -1, 0);
    World::lemma_relative_same_frame(&w0, &wn, pos.0, pos.1, 1, 0);
    World::lemma_relative_same_frame(&w0, &wn, pos.0, pos.1, burn_dir(i).0 as int, burn_dir(i).1 as int);
    api.lemma_target_in_bounds(&w0, burn_dir(1));
    api.lemma_target_in_bounds(&w0, burn_dir(2));
    api.lemma_target_in_bounds(&w0, burn_dir(i));
    if let Some(ql) = api.target(&w0, burn_dir(2)) {
        w0.lemma_cell(ql.0, ql.1);
    }
    if let Some(qr) = api.target(&w0, burn_dir(1)) {
        w0.lemma_cell(qr.0, qr.1);
    }
    if let Some(q) = api.target(&w0, burn_dir(i)) {
        w0.lemma_cell(q.0, q.1);
    }
    assert forall|x: int, y: int| w0.in_bounds(x, y) && #[trigger] after.cell(x, y) != w0.cell(x, y) implies burn_change(
        w0.cell(x, y),
        after.cell(x, y),
    ) by {
        if Some((x, y)) != api.target(&w0, burn_dir(i)) {
            assert(after.cell(x, y) == wn.cell(x, y));
        } else {
            w0.lemma_cell(x, y);
            if wn.cell(x, y) != w0.cell(x, y) {
                assert(burn_change(w0.cell(x, y), wn.cell(x, y)));
            }
        }
    }
    assert forall|k: int| 0 <= k < i + 1 && #[trigger] sure_to_catch(api, w0, k) implies ({
        let q = api.target(&w0, burn_dir(k)).unwrap();
        after.cell(q.0, q.1).burning
    }) by {
        let q = api.target(&w0, burn_dir(k)).unwrap();
        api.lemma_target_in_bounds(&w0, burn_dir(k));
        w0.lemma_cell(q.0, q.1);
        if Some(q) != api.target(&w0, burn_dir(i)) {
            assert(after.cell(q.0, q.1) == wn.cell(q.0, q.1));
        } else if k < i {
            assert(wn.cell(q.0, q.1).burning);
        } else {
            if wn.cell(q.0, q.1) != w0.cell(q.0, q.1) {
                assert(burn_change(w0.cell(q.0, q.1), wn.cell(q.0, q.1)));
            }
        }
    }
    assert forall|k: int| 0 <= k < i + 1 && #[trigger] sure_new_flame(api, w0, k, fuel) implies ({
        let q = api.target(&w0, burn_dir(k)).unwrap();
        after.cell(q.0, q.1).particle_type == ParticleType::Flame && after.cell(q.0, q.1).burning
    }) by {
        let q = api.target(&w0, burn_dir(k)).unwrap();
        api.lemma_target_in_bounds(&w0, burn_dir(k));
        w0.lemma_cell(q.0, q.1);
        if Some(q) != api.target(&w0, burn_dir(i)) {
            assert(after.cell(q.0, q.1) == wn.cell(q.0, q.1));
        } else if k < i {
            assert(wn.cell(q.0, q.1).burning);
        } else {
            if wn.cell(q.0, q.1) != w0.cell(q.0, q.1) {
                assert(burn_change(w0.cell(q.0, q.1), wn.cell(q.0, q.1)));
            } else {
                let ql = api.target(&w0, burn_dir(2)).unwrap();
                let qr = api.target(&w0, burn_dir(1)).unwrap();
                if wn.cell(ql.0, ql.1) != w0.cell(ql.0, ql.1) {
                    assert(burn_change(w0.cell(ql.0, ql.1), wn.cell(ql.0, ql.1)));
                }
                if wn.cell(qr.0, qr.1) != w0.cell(qr.0, qr.1) {
                    assert(burn_change(w0.cell(qr.0, qr.1), wn.cell(qr.0, qr.1)));
                }
                assert(api.neighbour_spec(&wn, burn_dir(2)).burning);
                assert(api.neighbour_spec(&wn, burn_dir(1)).burning);
            }
        }
    }
}

/// Every cell that holds water in `start` or in `w` holds the same particle
/// in both.
spec fn water_untouched(start: World, w: World) -> bool {
    forall|x: int, y: int|
        start.in_bounds(x, y) && (start.cell(x, y).particle_type == ParticleType::Water || (#[trigger] w.cell(
            x,
            y,
        )).particle_type == ParticleType::Water) ==> w.cell(x, y) == start.cell(x, y)
}

/// The `k`-th of the four neighbours a burning particle looks at, in order:
/// above, right, left, below.
pub open spec fn burn_dir(k: int) -> (isize, isize) {
    if k == 0 {
        (0isize, -1isize)
    } else if k == 1 {
        (1, 0)
    } else if k == 2 {
        (-1isize, 0isize)
    } else {
        (0, 1)
    }
}

/// How many of the four neighbours a burning particle reaches: it stops
/// after the first that holds water.
pub open spec fn burn_reach(api: WorldApi, world: World) -> int {
    if wet_at(api, world, 0) {
        1
    } else if wet_at(api, world, 1) {
        2
    } else if wet_at(api, world, 2) {
        3
    } else {
        4
    }
}

/// Every cell of `w` that differs from `w0` is the target of one of the
/// first `n` directions a burning particle looks at.
pub open spec fn touched_only(w0: World, w: World, api: WorldApi, n: int) -> bool {
    forall|x: int, y: int|
        w0.in_bounds(x, y) && #[trigger] w.cell(x, y) != w0.cell(x, y) ==> exists|j: int|
            0 <= j < n && #[trigger] api.target(&w0, burn_dir(j)) == Some((x, y))
}

/// A write at the target of direction `i`, or no write, extends
/// `touched_only` to the first `i + 1` directions.
pub proof fn lemma_touched_step(w0: World, before: World, after: World, api: WorldApi, i: int, q: (int, int))
    requires
        0 <= i,
        w0.same_frame(&before),
        touched_only(w0, before, api, i),
        before.cells_agree_except(&after, q.0, q.1),
        before.cells_agree(&after) || api.target(&w0, burn_dir(i)) == Some(q),
    ensures
        touched_only(w0, after, api, i + 1),
{
    World::lemma_same_frame(&w0, &before);
    assert forall|x: int, y: int| w0.in_bounds(x, y) && #[trigger] after.cell(x, y) != w0.cell(x, y) implies exists|
        j: int,
    | 0 <= j < i + 1 && #[trigger] api.target(&w0, burn_dir(j)) == Some((x, y)) by {
        if (x, y) == q && api.target(&w0, burn_dir(i)) == Some(q) {
            assert(api.target(&w0, burn_dir(i)) == Some((x, y)));
        } else {
            assert(after.cell(x, y) == before.cell(x, y));
            let j = choose|j: int| 0 <= j < i && #[trigger] api.target(&w0, burn_dir(j)) == Some((x, y));
            assert(api.target(&w0, burn_dir(j)) == Some((x, y)));
        }
    }
}

/// The `k`-th neighbour a burning particle looks at holds water.
pub open spec fn wet_at(api: WorldApi, world: World, k: int) -> bool {
    api.neighbour_spec(&world, burn_dir(k)).particle_type == ParticleType::Water
}

impl Particle {
    /// A random flicker of the flame colour.
    fn burning_flicker_color(api: &WorldApi, world: &mut World) -> (p: Paint)
        ensures
            is_flicker(p),
            old(world).same_content(final(world)),
    {
        let ghost w0 = *world;
        let h = api.random_range(world, -15000, 15000) as i16;
        let ghost w1 = *world;
        let s = api.random_range(world, 950, 1050) as u16;
        let ghost w2 = *world;
        let v = api.random_range(world, 900, 1100) as u16;
        proof {
            World::lemma_same_content_trans(&w0, &w1, &w2);
            World::lemma_same_content_trans(&w0, &w2, world);
        }
        Paint::Flicker { hue_millidegrees: h, sat_permille: s, val_permille: v }
    }

    /// One frame of burning: the particle flickers, and for each of its four
    /// neighbours (above, right, left, below) in turn it may set a flammable
    /// one on fire (more likely above, less likely below), may spread a new
    /// flame with part of its fuel into empty space beside or above it when
    /// both its sides are burning, or, meeting water, turns it into steam and
    /// goes out. Then it uses one unit of fuel, and is deleted (its cell
    /// emptied) when the fuel runs out.
    #[verifier::rlimit(100)]
    #[verifier::spinoff_prover]
    fn burn(&mut self, api: &WorldApi, world: &mut World) -> (status: Status)
        requires
            old(self).wf(),
            old(self).burning,
            api.wf(old(world)),
        ensures
            step_keeps(*old(self), *final(self), *old(world), *final(world), *api, status),
            status == Status::Deleted <==> old(self).fuel == Some(0i16),
            final(self).fuel == Some((old(self).fuel.unwrap() - 1) as i16),
            status == Status::Deleted && old(world).cell(api.pos().0, api.pos().1).particle_type
                != ParticleType::Border ==> final(world).cell(api.pos().0, api.pos().1).is_fresh(ParticleType::Empty),
            status == Status::Alive ==> old(world).counts_burnt(api.pos(), final(world), api.pos()),
            status == Status::Deleted && old(world).cell(api.pos().0, api.pos().1).particle_type
                != ParticleType::Border ==> old(world).counts_burnt(api.pos(), final(world), api.pos()),
            (exists|k: int| 0 <= k < 4 && #[trigger] wet_at(*api, *old(world), k)) ==> !final(self).burning
                && final(self).color == Paint::Own,
            forall|k: int|
                0 <= k < 4 && #[trigger] wet_at(*api, *old(world), k) && (forall|j: int|
                    0 <= j < k ==> !wet_at(*api, *old(world), j)) && old(world).cell(api.pos().0, api.pos().1).particle_type
                    != ParticleType::Water ==> ({
                    let q = api.target(old(world), burn_dir(k)).unwrap();
                    final(world).cell(q.0, q.1).is_fresh(ParticleType::Steam)
                }),
            forall|x: int, y: int|
                old(world).in_bounds(x, y) && (#[trigger] final(world).cell(x, y)).particle_type == ParticleType::Flame
                    && old(world).cell(x, y).particle_type != ParticleType::Flame ==> (final(world).cell(x, y).fuel matches Some(
                    k,
                ) && 0 <= k < old(self).fuel.unwrap()),
            old(world).cold_flames_kept(final(world), api.pos()),
            old(world).borders_kept(final(world)),
            forall|x: int, y: int|
                old(world).in_bounds(x, y) && (x, y) != api.pos() && #[trigger] final(world).cell(x, y) != old(
                    world,
                ).cell(x, y) ==> exists|j: int|
                    0 <= j < burn_reach(*api, *old(world)) && #[trigger] api.target(old(world), burn_dir(j)) == Some(
                        (x, y),
                    ),
            !Particle::cold_flame(old(world).cell(api.pos().0, api.pos().1)) ==> !Particle::cold_flame(
                final(world).cell(api.pos().0, api.pos().1),
            ),
            forall|x: int, y: int|
                old(world).in_bounds(x, y) && (x, y) != api.pos() && #[trigger] final(world).cell(x, y) != old(
                    world,
                ).cell(x, y) ==> burn_change(old(world).cell(x, y), final(world).cell(x, y)),
            forall|k: int|
                0 <= k < burn_reach(*api, *old(world)) && #[trigger] sure_to_catch(*api, *old(world), k) ==> ({
                    let q = api.target(old(world), burn_dir(k)).unwrap();
                    final(world).cell(q.0, q.1).burning
                }),
            forall|k: int|
                0 <= k < burn_reach(*api, *old(world)) && #[trigger] sure_new_flame(
                    *api,
                    *old(world),
                    k,
                    old(self).fuel.unwrap() as int,
                ) ==> ({
                    let q = api.target(old(world), burn_dir(k)).unwrap();
                    final(world).cell(q.0, q.1).particle_type == ParticleType::Flame && final(world).cell(
                        q.0,
                        q.1,
                    ).burning
                }),
    {
        let ghost w0 = *world;
        let ghost pos = api.pos();
        let ghost own_not_border = w0.cell(pos.0, pos.1).particle_type != ParticleType::Border;
        self.color = Particle::burning_flicker_color(api, world);
        proof {
            World::lemma_same_content(&w0, world);
            World::lemma_counts_burnt_same(&w0, world, pos);
            World::lemma_same_frame(&w0, world);
            assert(w0.borders_kept(world));
            assert(burn_changes(w0, *world));
            assert(burn_sure_kept(*api, w0, *world, 0, old(self).fuel.unwrap() as int));
        }
        let dxdy_list = i8vec2_vector(vec![(0i8, -1i8), (1, 0), (-1, 0), (0, 1)]);
        let n = dxdy_list.len();
        let ghost mut hit: Option<int> = None;
        let ghost f0 = old(self).fuel.unwrap();
        let mut i: usize = 0;
        while i < n
            invariant_except_break
                hit is None,
                touched_only(w0, *world, *api, i as int),
            invariant
                i <= n,
                api.wf(&w0),
                n == dxdy_list@.len(),
                n == 4,
                dxdy_list@[0] == (I8Vec2 { x: 0i8, y: -1i8 }),
                dxdy_list@[1] == (I8Vec2 { x: 1, y: 0 }),
                dxdy_list@[2] == (I8Vec2 { x: -1i8, y: 0i8 }),
                dxdy_list@[3] == (I8Vec2 { x: 0, y: 1 }),
                self.wf(),
                self.particle_type == old(self).particle_type,
                self.fuel.is_some(),
                self.fuel == old(self).fuel,
                api.wf(world),
                w0.same_frame(world),
                w0 == *old(world),
                pos == api.pos(),
                own_not_border ==> world.cell(pos.0, pos.1).particle_type != ParticleType::Border,
                w0.counts_burnt(pos, world, pos),
                f0 == old(self).fuel.unwrap(),
                new_flames_fuelled(w0, *world, f0 as int),
                w0.cold_flames_kept(world, pos),
                w0.borders_kept(world),
                burn_changes(w0, *world),
                burn_sure_kept(*api, w0, *world, i as int, f0 as int),
                !Particle::cold_flame(w0.cell(pos.0, pos.1)) ==> !Particle::cold_flame(world.cell(pos.0, pos.1)),
                hit is None ==> self.burning && forall|k: int| 0 <= k < i ==> !#[trigger] wet_at(*api, w0, k),
                hit is None ==> water_untouched(w0, *world),
            ensures
                hit is None ==> self.burning && forall|k: int| 0 <= k < 4 ==> !#[trigger] wet_at(*api, w0, k),
                touched_only(w0, *world, *api, burn_reach(*api, w0)),
                burn_sure_kept(*api, w0, *world, burn_reach(*api, w0), f0 as int),
                hit matches Some(h) ==> 0 <= h < 4 && wet_at(*api, w0, h) && (forall|j: int|
                    0 <= j < h ==> !wet_at(*api, w0, j)) && !self.burning && self.color == Paint::Own && (
                w0.cell(pos.0, pos.1).particle_type != ParticleType::Water ==> ({
                    let q = api.target(&w0, burn_dir(h)).unwrap();
                    world.cell(q.0, q.1).is_fresh(ParticleType::Steam)
                })),
            decreases n - i,
        {
            let dxdy = dxdy_list[i];
            let offset = dxdy.to_offset();
            let ghost wi = *world;
            let r = api.random_fraction(world);
            let ghost wr = *world;
            proof {
                World::lemma_same_content(&wi, &wr);
            }
            let mut neighbour = api.neighbour_mut(world, offset);
            let ghost wn = *world;
            proof {
                api.lemma_neighbour_agree(&wr, &wn, offset);
                api.lemma_neighbour_agree(&wi, &wr, offset);
                World::lemma_same_frame_trans(&w0, &wi, &wr);
                World::lemma_same_frame_trans(&w0, &wr, &wn);
                lemma_flammable_has_fuel(neighbour.particle_type);
                World::lemma_same_frame_trans(&wi, &wr, &wn);
                World::lemma_counts_burnt_same(&wi, &wn, pos);
                World::lemma_counts_burnt_trans(&w0, pos, &wi, pos, &wn, pos);
                assert(offset == burn_dir(i as int));
                World::lemma_same_frame(&wi, &wn);
                assert(wi.cold_flames_kept(&wn, pos));
                World::lemma_cold_flames_step(&w0, &wi, &wn, pos, pos);
                World::lemma_borders_write(&w0, &wi, &wn, pos);
                assert(touched_only(w0, wn, *api, i as int)) by {
                    assert forall|x: int, y: int| w0.in_bounds(x, y) && #[trigger] wn.cell(x, y) != w0.cell(x, y) implies exists|
                        j: int,
                    | 0 <= j < i && #[trigger] api.target(&w0, burn_dir(j)) == Some((x, y)) by {
                        World::lemma_same_frame(&w0, &wi);
                        assert(wn.cell(x, y) == wi.cell(x, y));
                    }
                }
                World::lemma_relative_same_frame(&w0, &wn, pos.0, pos.1, offset.0 as int, offset.1 as int);
                api.lemma_target_in_bounds(&w0, offset);
                if hit is None {
                    if let Some(q) = api.target(&w0, offset) {
                        assert(neighbour == wi.cell(q.0, q.1));
                        assert(w0.cell(q.0, q.1).particle_type == ParticleType::Water || wi.cell(q.0, q.1).particle_type
                            == ParticleType::Water ==> wi.cell(q.0, q.1) == w0.cell(q.0, q.1));
                    }
                    assert(neighbour.particle_type == ParticleType::Water <==> wet_at(*api, w0, i as int));
                }
                if let Some(q) = api.target(&w0, offset) {
                    assert(neighbour == wn.cell(q.0, q.1));
                }
                assert(wi.cells_agree(&wn)) by {
                    assert(wi.cells_agree(&wr));
                    assert(wr.cells_agree(&wn));
                }
                World::lemma_same_frame_trans(&w0, &wi, &wn);
                lemma_burn_facts_agree(*api, w0, wi, wn, i as int, f0 as int);
            }
            let ghost sides = api.neighbour_spec(&wn, burn_dir(2)).burning && api.neighbour_spec(&wn, burn_dir(1)).burning;
            let ghost dy = dxdy.y as int;
            let watered = match neighbour.watered {
                Some(w) => w,
                None => false,
            };
            let neighbour_flammability = if !watered {
                neighbour.particle_type.properties().flammability
            } else {
                neighbour.particle_type.properties().wet_flammability.unwrap()
            };
            assert(neighbour_flammability == catch_flammability(neighbour));
            if neighbour_flammability > 0 && !neighbour.burning {
                let catches = ignites_with(neighbour_flammability, dxdy.y, r);
                proof {
                    if (neighbour_flammability as int) * (2 - dxdy.y) >= 2000 {
                        lemma_sure_ignites(neighbour_flammability, dxdy.y, r);
                    }
                }
                if catches {
                    proof {
                        api.lemma_target_of_non_border(&wn, offset);
                    }
                    neighbour.set_burning(true);
                    api.replace_with(world, offset, neighbour);
                    proof {
                        World::lemma_same_frame_trans(&w0, &wn, world);
                        Particle::lemma_own_cell_not_border(api, &wn, world, offset);
                        Particle::lemma_burnt_step(api, &w0, &wn, world, offset);
                        Particle::lemma_burn_write_keeps(w0, wi, wn, *world, api.target(&wn, offset).unwrap(), f0 as int, hit is None);
                        api.lemma_target_in_bounds(&wn, offset);
                        World::lemma_cold_flames_write(&w0, &wn, world, pos, api.target(&wn, offset).unwrap());
                        lemma_touched_step(w0, wn, *world, *api, i as int, api.target(&wn, offset).unwrap());
                        World::lemma_borders_write(&w0, &wn, world, api.target(&wn, offset).unwrap());
                        let q = api.target(&wn, offset).unwrap();
                        assert(burn_step_ok(wn.cell(q.0, q.1), world.cell(q.0, q.1), dy, f0 as int, sides));
                    }
                }
            } else if neighbour.particle_type == ParticleType::Empty && self.fuel.unwrap() > 0 {
                if dxdy.y < 1 && api.neighbour(world, (-1, 0)).burning && api.neighbour(world, (1, 0)).burning {
                    let mut new_flame = api.new_particle(world, ParticleType::Flame);
                    let ghost wf = *world;
                    let fuel = api.random_range(world, 0, self.fuel.unwrap() as i64) as i16;
                    proof {
                        World::lemma_same_content_trans(&wn, &wf, world);
                        World::lemma_same_content(&wn, world);
                        api.lemma_neighbour_agree(&wn, world, offset);
                        api.lemma_target_of_non_border(world, offset);
                        Particle::lemma_fresh_facts(new_flame, ParticleType::Flame);
                    }
                    new_flame.fuel = Some(fuel);
                    let ghost wb = *world;
                    api.replace_with(world, offset, new_flame);
                    proof {
                        World::lemma_same_frame_trans(&w0, &wn, &wb);
                        World::lemma_same_frame_trans(&w0, &wb, world);
                        Particle::lemma_own_cell_not_border(api, &wb, world, offset);
                        World::lemma_counts_burnt_same(&wn, &wb, pos);
                        World::lemma_counts_burnt_trans(&w0, pos, &wn, pos, &wb, pos);
                        Particle::lemma_burnt_step(api, &w0, &wb, world, offset);
                        World::lemma_relative_same_frame(&w0, &wb, pos.0, pos.1, offset.0 as int, offset.1 as int);
                        Particle::lemma_burn_write_keeps(w0, wi, wb, *world, api.target(&wb, offset).unwrap(), f0 as int, hit is None);
                        World::lemma_same_frame(&wn, &wb);
                        assert(wn.cold_flames_kept(&wb, pos));
                        World::lemma_cold_flames_step(&w0, &wn, &wb, pos, pos);
                        api.lemma_target_in_bounds(&wb, offset);
                        World::lemma_cold_flames_write(&w0, &wb, world, pos, api.target(&wb, offset).unwrap());
                        World::lemma_same_frame(&wn, &wb);
                        assert(touched_only(w0, wb, *api, i as int)) by {
                            assert forall|x: int, y: int| w0.in_bounds(x, y) && #[trigger] wb.cell(x, y) != w0.cell(x, y) implies exists|
                                j: int,
                            | 0 <= j < i && #[trigger] api.target(&w0, burn_dir(j)) == Some((x, y)) by {
                                World::lemma_same_frame(&w0, &wn);
                                assert(wb.cell(x, y) == wn.cell(x, y));
                            }
                        }
                        lemma_touched_step(w0, wb, *world, *api, i as int, api.target(&wb, offset).unwrap());
                        World::lemma_borders_write(&w0, &wn, &wb, pos);
                        World::lemma_borders_write(&w0, &wb, world, api.target(&wb, offset).unwrap());
                        let q = api.target(&wb, offset).unwrap();
                        World::lemma_same_content(&wn, &wb);
                        assert(world.cell(q.0, q.1) == new_flame);
                        assert(burn_step_ok(wn.cell(q.0, q.1), world.cell(q.0, q.1), dy, f0 as int, sides));
                        assert forall|x: int, y: int|
                            w0.in_bounds(x, y) && Some((x, y)) != api.target(&w0, burn_dir(i as int)) implies #[trigger] world.cell(
                                x,
                                y,
                            ) == wn.cell(x, y) by {
                            assert(world.cell(x, y) == wb.cell(x, y));
                        }
                    }
                }
            } else if neighbour.particle_type == ParticleType::Water {
                proof {
                    api.lemma_target_of_non_border(&wn, offset);
                }
                api.replace_with_new(world, offset, ParticleType::Steam);
                proof {
                    World::lemma_same_frame_trans(&w0, &wn, world);
                    Particle::lemma_own_cell_not_border(api, &wn, world, offset);
                    let q = api.target(&wn, offset).unwrap();
                    if world.cell(q.0, q.1) != wn.cell(q.0, q.1) {
                        Particle::lemma_fresh_facts(world.cell(q.0, q.1), ParticleType::Steam);
                    }
                    Particle::lemma_burnt_step(api, &w0, &wn, world, offset);
                    assert(world.cell(q.0, q.1).is_fresh(ParticleType::Steam));
                    Particle::lemma_fresh_facts(world.cell(q.0, q.1), ParticleType::Steam);
                    api.lemma_target_in_bounds(&wn, offset);
                    World::lemma_cold_flames_write(&w0, &wn, world, pos, q);
                    lemma_touched_step(w0, wn, *world, *api, i as int, q);
                    World::lemma_borders_write(&w0, &wn, world, q);
                    assert(burn_step_ok(wn.cell(q.0, q.1), world.cell(q.0, q.1), dy, f0 as int, sides));
                    assert(offset == burn_dir(i as int));
                    lemma_burn_step(*api, w0, wn, *world, i as int, f0 as int);
                    assert forall|x: int, y: int|
                        w0.in_bounds(x, y) && (#[trigger] world.cell(x, y)).particle_type == ParticleType::Flame
                            && w0.cell(x, y).particle_type != ParticleType::Flame implies (world.cell(x, y).fuel matches Some(k)
                            && 0 <= k < f0) by {
                        if (x, y) == q {
                            Particle::lemma_fresh_facts(world.cell(q.0, q.1), ParticleType::Steam);
                        } else {
                            assert(world.cell(x, y) == wn.cell(x, y));
                            assert(wn.cell(x, y) == wi.cell(x, y));
                        }
                    }
                }
                self.set_burning(false);
                proof {
                    hit = Some(i as int);
                }
                break;
            }
            proof {
                if !touched_only(w0, *world, *api, i as int + 1) {
                    lemma_touched_step(w0, wn, *world, *api, i as int, pos);
                }
                assert(offset == burn_dir(i as int));
                lemma_burn_step(*api, w0, wn, *world, i as int, f0 as int);
            }
            i = i + 1;
        }
        if let Some(fuel) = self.fuel {
            let left = fuel - 1;
            self.fuel = Some(left);
            if left < 0 {
                let ghost wd = *world;
                proof {
                    api.lemma_target_self(world);
                }
                api.replace_with_new(world, (0, 0), ParticleType::Empty);
                proof {
                    World::lemma_same_frame_trans(&w0, &wd, world);
                    World::lemma_count_after_write(&wd, world, pos.0, pos.1);
                    if own_not_border {
                        Particle::lemma_fresh_facts(world.cell(pos.0, pos.1), ParticleType::Empty);
                        assert(wd.material_count(ParticleType::Water) == wd.material_count(ParticleType::Water));
                        assert(wd.material_count(ParticleType::Steam) == wd.material_count(ParticleType::Steam));
                        assert forall|m: ParticleType| !World::made_by_fire(m) implies #[trigger] world.material_count(m)
                            - (if world.cell(pos.0, pos.1).particle_type == m { 1int } else { 0int })
                            <= w0.material_count(m) - (if w0.cell(pos.0, pos.1).particle_type == m {
                            1int
                        } else {
                            0int
                        }) by {
                            assert(wd.material_count(m) == wd.material_count(m));
                        }
                    }
                    World::lemma_same_frame(&w0, &wd);
                    World::lemma_same_frame(&wd, world);
                    assert(wd.cold_flames_kept(world, pos));
                    World::lemma_cold_flames_step(&w0, &wd, world, pos, pos);
                    if world.cell(pos.0, pos.1) != wd.cell(pos.0, pos.1) {
                        Particle::lemma_fresh_facts(world.cell(pos.0, pos.1), ParticleType::Empty);
                    }
                    World::lemma_borders_write(&w0, &wd, world, pos);
                    assert forall|x: int, y: int|
                        w0.in_bounds(x, y) && (x, y) != pos && #[trigger] world.cell(x, y) != w0.cell(x, y) implies exists|
                            j: int,
                        | 0 <= j < burn_reach(*api, w0) && #[trigger] api.target(&w0, burn_dir(j)) == Some((x, y)) by {
                        assert(world.cell(x, y) == wd.cell(x, y));
                    }
                    if !Particle::cold_flame(w0.cell(pos.0, pos.1)) && world.cell(pos.0, pos.1) != wd.cell(pos.0, pos.1) {
                        Particle::lemma_fresh_facts(world.cell(pos.0, pos.1), ParticleType::Empty);
                    }
                    assert forall|x: int, y: int|
                        w0.in_bounds(x, y) && (#[trigger] world.cell(x, y)).particle_type == ParticleType::Flame
                            && w0.cell(x, y).particle_type != ParticleType::Flame implies (world.cell(x, y).fuel matches Some(k)
                            && 0 <= k < f0) by {
                        if (x, y) == pos && world.cell(x, y) != wd.cell(x, y) {
                            Particle::lemma_fresh_facts(world.cell(pos.0, pos.1), ParticleType::Empty);
                        } else {
                            assert(world.cell(x, y) == wd.cell(x, y));
                        }
                    }
                    assert forall|k: int|
                        0 <= k < burn_reach(*api, w0) && #[trigger] sure_to_catch(*api, w0, k) implies ({
                            let q = api.target(&w0, burn_dir(k)).unwrap();
                            world.cell(q.0, q.1).burning
                        }) by {
                        api.lemma_target_in_bounds(&w0, burn_dir(k));
                        let q = api.target(&w0, burn_dir(k)).unwrap();
                        assert(world.cell(q.0, q.1) == wd.cell(q.0, q.1));
                    }
                    assert forall|k: int|
                        0 <= k < burn_reach(*api, w0) && #[trigger] sure_new_flame(*api, w0, k, f0 as int) implies ({
                            let q = api.target(&w0, burn_dir(k)).unwrap();
                            world.cell(q.0, q.1).particle_type == ParticleType::Flame && world.cell(q.0, q.1).burning
                        }) by {
                        api.lemma_target_in_bounds(&w0, burn_dir(k));
                        let q = api.target(&w0, burn_dir(k)).unwrap();
                        assert(world.cell(q.0, q.1) == wd.cell(q.0, q.1));
                    }
                    assert forall|x: int, y: int|
                        w0.in_bounds(x, y) && (x, y) != pos && #[trigger] world.cell(x, y) != w0.cell(x, y) implies burn_change(
                            w0.cell(x, y),
                            world.cell(x, y),
                        ) by {
                        assert(world.cell(x, y) == wd.cell(x, y));
                    }
                    if let Some(h) = hit {
                        if w0.cell(pos.0, pos.1).particle_type != ParticleType::Water {
                            api.lemma_target_in_bounds(&w0, burn_dir(h));
                            let q = api.target(&w0, burn_dir(h)).unwrap();
                            assert(q != pos);
                            assert(world.cell(q.0, q.1) == wd.cell(q.0, q.1));
                        }
                    }
                }
                return Status::Deleted;
            }
        }
        Status::Alive
    }

    /// A write at `q` that puts no water there, over no water, and a flame
    /// only with fuel below `f0`, keeps both loop facts of `burn`.
    proof fn lemma_burn_write_keeps(
        w0: World,
        wi: World,
        before: World,
        after: World,
        q: (int, int),
        f0: int,
        dry: bool,
    )
        requires
            w0.same_frame(&wi),
            w0.same_frame(&before),
            wi.cells_agree(&before),
            before.cells_agree_except(&after, q.0, q.1),
            new_flames_fuelled(w0, wi, f0),
            dry ==> water_untouched(w0, wi),
            dry ==> w0.cell(q.0, q.1).particle_type != ParticleType::Water,
            after.cell(q.0, q.1).particle_type != ParticleType::Water,
            after.cell(q.0, q.1).particle_type == ParticleType::Flame && w0.cell(q.0, q.1).particle_type
                != ParticleType::Flame ==> (after.cell(q.0, q.1).fuel matches Some(k) && 0 <= k < f0),
        ensures
            new_flames_fuelled(w0, after, f0),
            dry ==> water_untouched(w0, after),
    {
        World::lemma_same_frame(&w0, &wi);
        World::lemma_same_frame(&w0, &before);
        assert forall|x: int, y: int|
            w0.in_bounds(x, y) && (#[trigger] after.cell(x, y)).particle_type == ParticleType::Flame
                && w0.cell(x, y).particle_type != ParticleType::Flame implies (after.cell(x, y).fuel matches Some(k)
                && 0 <= k < f0) by {
            if (x, y) != q {
                assert(after.cell(x, y) == before.cell(x, y));
                assert(before.cell(x, y) == wi.cell(x, y));
            }
        }
        if dry {
            assert forall|x: int, y: int|
                w0.in_bounds(x, y) && (w0.cell(x, y).particle_type == ParticleType::Water || (#[trigger] after.cell(
                    x,
                    y,
                )).particle_type == ParticleType::Water) implies after.cell(x, y) == w0.cell(x, y) by {
                if (x, y) != q {
                    assert(after.cell(x, y) == before.cell(x, y));
                    assert(before.cell(x, y) == wi.cell(x, y));
                }
            }
        }
    }

    /// A write `dxdy` away of the same material, a flame into empty space or
    /// steam in place of water keeps the counts as burning does.
    proof fn lemma_burnt_step(api: &WorldApi, start: &World, before: &World, after: &World, dxdy: (isize, isize))
        requires
            api.wf(before),
            before.same_frame(after),
            start.counts_burnt(api.pos(), before, api.pos()),
            api.target(before, dxdy) is Some,
            ({
                let q = api.target(before, dxdy).unwrap();
                let was = before.cell(q.0, q.1).particle_type;
                let now = after.cell(q.0, q.1).particle_type;
                &&& before.cells_agree_except(after, q.0, q.1)
                &&& (now == was || was == ParticleType::Empty && now == ParticleType::Flame || was
                    == ParticleType::Water && now == ParticleType::Steam)
            }),
        ensures
            start.counts_burnt(api.pos(), after, api.pos()),
    {
        let q = api.target(before, dxdy).unwrap();
        api.lemma_target_in_bounds(before, dxdy);
        World::lemma_counts_after_burning(before, after, q.0, q.1, api.pos());
        World::lemma_counts_burnt_trans(start, api.pos(), before, api.pos(), after, api.pos());
    }

    /// A write `dxdy` away that puts no border there leaves the particle's
    /// own cell free of a border if it was.
    proof fn lemma_own_cell_not_border(api: &WorldApi, before: &World, after: &World, dxdy: (isize, isize))
        requires
            api.wf(before),
            api.target(before, dxdy) is Some,
            ({
                let q = api.target(before, dxdy).unwrap();
                &&& before.cells_agree_except(after, q.0, q.1)
                &&& after.cell(q.0, q.1).particle_type != ParticleType::Border || after.cell(q.0, q.1) == before.cell(
                    q.0,
                    q.1,
                )
            }),
        ensures
            before.cell(api.pos().0, api.pos().1).particle_type != ParticleType::Border ==> after.cell(
                api.pos().0,
                api.pos().1,
            ).particle_type != ParticleType::Border,
    {
    }

    /// A newly made particle of material `t` has the optional fields of `t`.
    pub proof fn lemma_fresh_facts(p: Particle, t: ParticleType)
        requires
            p.is_fresh(t),
        ensures
            p.particle_type == t,
            p.burning == (t == ParticleType::Flame),
            p.fuel == t.base_fuel(),
            p.durability == t.base_durability(),
            p.moved == (if t.moves() { Some(false) } else { None::<bool> }),
            p.watered == (if t == ParticleType::Fungus { Some(false) } else { None::<bool> }),
            p.updated == false,
            p.color == Paint::Own,
    {
        let (mr, c, tint) = choose|mr: bool, c: i16, tint: Tint|
            countdown_in_range(c) && tint_in_range(tint) && p == #[trigger] Particle::fresh(t, mr, c, tint);
    }
}

impl Particle {
    /// A flame that has gone out.
    pub open spec fn cold_flame(p: Particle) -> bool {
        p.particle_type == ParticleType::Flame && !p.burning
    }

    /// The particle marked as updated in this frame.
    pub open spec fn marked(p: Particle) -> Particle {
        Particle { updated: true, ..p }
    }

    /// A particle whose update changes nothing but its own cell, which gets
    /// the particle back: one that does not move, does not burn, and is
    /// neither fungus nor flame.
    pub open spec fn is_inert(self) -> bool {
        &&& !self.particle_type.moves()
        &&& !self.burning
        &&& self.particle_type != ParticleType::Fungus
        &&& self.particle_type != ParticleType::Flame
    }

    /// One frame of a fungus: it looks at a random one of its eight
    /// neighbours. A dry fungus drinks neighbouring water (the water cell is
    /// emptied and the fungus becomes watered). A watered fungus grows into
    /// neighbouring empty space, less likely the more fungus surrounds that
    /// space, or passes its water on to a dry neighbouring fungus; either way
    /// it is dry again afterwards.
    #[verifier::rlimit(100)]
    #[verifier::spinoff_prover]
    fn grow_fungus(&mut self, api: &WorldApi, world: &mut World)
        requires
            old(self).wf(),
            old(self).particle_type == ParticleType::Fungus,
            api.wf(old(world)),
            old(world).cell(api.pos().0, api.pos().1) == *old(self),
        ensures
            step_keeps(*old(self), *final(self), *old(world), *final(world), *api, Status::Alive),
            final(world).cell(api.pos().0, api.pos().1) == old(world).cell(api.pos().0, api.pos().1),
            final(self).burning == old(self).burning,
            final(self).fuel == old(self).fuel,
            final(world).fungus_water() + World::fungus_water_of(*final(self)) == old(world).fungus_water()
                + World::fungus_water_of(*old(self)),
            old(world).cells_agree(final(world)) && *final(self) == *old(self) || exists|k: int|
                0 <= k < 8 && #[trigger] fungus_changed(*old(self), *final(self), *api, *old(world), *final(world), k),
            old(self).watered == Some(false) && (forall|k: int|
                0 <= k < 8 ==> (#[trigger] api.neighbour_spec(old(world), fungus_dir(k))).particle_type
                    == ParticleType::Water) ==> final(self).watered == Some(true),
            old(self).watered == Some(true) && (forall|k: int|
                0 <= k < 8 ==> (#[trigger] api.neighbour_spec(old(world), fungus_dir(k))).particle_type
                    == ParticleType::Fungus && api.neighbour_spec(old(world), fungus_dir(k)).watered == Some(false))
                ==> final(self).watered == Some(false),
            old(world).cold_flames_kept(final(world), api.pos()),
            old(world).borders_kept(final(world)),
            final(world).draws().len() > old(world).draws().len(),
            ({
                let c = final(world).draws()[old(world).draws().len() as int];
                let n = api.neighbour_spec(old(world), fungus_dir(c));
                &&& 0 <= c < 8
                &&& old(world).cells_agree(final(world)) && *final(self) == *old(self) || fungus_changed(
                    *old(self),
                    *final(self),
                    *api,
                    *old(world),
                    *final(world),
                    c,
                )
                &&& old(self).watered == Some(false) && n.particle_type == ParticleType::Water ==> final(self).watered
                    == Some(true)
                &&& old(self).watered == Some(true) && n.particle_type == ParticleType::Fungus && n.watered == Some(false)
                    ==> final(self).watered == Some(false)
                &&& old(self).watered == Some(true) && n.particle_type == ParticleType::Empty ==> final(world).draws().len()
                    > old(world).draws().len() + 1 && (final(self).watered == Some(false) <==> final(world).draws()[old(
                    world,
                ).draws().len() + 1int] > fungus_crowd(*api, *old(world), c, 8))
            }),
    {
        let dxdy_list = i8vec2_vector(
            vec![(0i8, -1i8), (0, 1), (1, 0), (-1, 0), (-1, -1), (1, 1), (1, -1), (-1, 1)],
        );
        let ghost w0 = *world;
        let choice = api.random_range(world, 0, dxdy_list.len() as i64) as usize;
        let ghost w1 = *world;
        let ghost pos = api.pos();
        proof {
            World::lemma_same_content(&w0, &w1);
            World::lemma_fungus_water_agree(&w0, &w1);
        }
        let dxdy = dxdy_list[choice];
        let offset = dxdy.to_offset();
        let mut neighbour_clone = api.neighbour(world, offset);
        proof {
            assert(offset == fungus_dir(choice as int));
            api.lemma_neighbour_agree(&w0, &w1, offset);
        }
        if self.watered.unwrap() {
            api.might_update(world);
            let ghost w2 = *world;
            proof {
                api.lemma_neighbour_agree(&w1, &w2, offset);
                World::lemma_same_frame_trans(&w0, &w1, &w2);
                World::lemma_same_frame(&w1, &w2);
                World::lemma_fungus_water_agree(&w1, &w2);
            }
            if neighbour_clone.particle_type == ParticleType::Empty {
                let mut count: i64 = 0;
                let n = dxdy_list.len();
                proof {
                    assert(w0.cells_agree(&w2)) by {
                        assert(w0.cells_agree(&w1));
                        assert(w1.cells_agree(&w2));
                    }
                    assert forall|j: int| 0 <= j < 8 implies (#[trigger] dxdy_list@[j]).to_offset_spec()
                        == fungus_dir(j) by {}
                }
                for k in 0..n
                    invariant
                        n == dxdy_list@.len(),
                        n == 8,
                        0 <= count <= k,
                        count == fungus_crowd(*api, w0, choice as int, k as int),
                        api.wf(world),
                        api.wf(&w0),
                        w0.same_frame(&w2),
                        w0.cells_agree(&w2),
                        *world == w2,
                        0 <= choice < 8,
                        dxdy == dxdy_list@[choice as int],
                        forall|j: int| 0 <= j < 8 ==> (#[trigger] dxdy_list@[j]).to_offset_spec() == fungus_dir(j),
                        forall|j: int| 0 <= j < 8 ==> -1 <= (#[trigger] dxdy_list@[j]).x <= 1 && -1 <= dxdy_list@[j].y <= 1,
                        -1 <= dxdy.x <= 1,
                        -1 <= dxdy.y <= 1,
                {
                    let ddxddy = dxdy_list[k];
                    let dxdy2 = dxdy.add(ddxddy);
                    let off2 = dxdy2.to_offset();
                    proof {
                        assert(off2 == fungus_dir2(choice as int, k as int));
                        api.lemma_neighbour_agree(&w0, &w2, off2);
                    }
                    if api.neighbour(world, off2).particle_type == ParticleType::Fungus {
                        count = count + 1;
                    }
                }
                let ghost w3 = *world;
                let d2 = api.random_range(world, 0, 4);
                if d2 > count {
                    let ghost w4 = *world;
                    proof {
                        World::lemma_same_content(&w3, &w4);
                        api.lemma_neighbour_agree(&w2, &w4, offset);
                        api.lemma_target_of_non_border(&w4, offset);
                    }
                    let ghost q = api.target(&w4, offset).unwrap();
                    api.replace_with_new(world, offset, ParticleType::Fungus);
                    proof {
                        World::lemma_draws_extend(&w4, world);
                        World::lemma_same_frame_trans(&w0, &w2, &w4);
                        World::lemma_same_frame_trans(&w0, &w4, world);
                        World::lemma_fungus_water_agree(&w3, &w4);
                        api.lemma_target_in_bounds(&w4, offset);
                        assert(q != pos);
                        Particle::lemma_fresh_facts(world.cell(q.0, q.1), ParticleType::Fungus);
                        World::lemma_fungus_water_after_write(&w4, world, q.0, q.1);
                        World::lemma_same_frame(&w0, &w4);
                        api.lemma_neighbour_agree(&w0, &w4, offset);
                        assert forall|x: int, y: int| w0.in_bounds(x, y) && (x, y) != q implies #[trigger] world.cell(
                            x,
                            y,
                        ) == w0.cell(x, y) by {
                            assert(world.cell(x, y) == w4.cell(x, y));
                        }
                    }
                    self.set_watered(false);
                    proof {
                        assert(fungus_changed(*old(self), *self, *api, w0, *world, choice as int));
                    }
                } else {
                    proof {
                        World::lemma_same_content(&w3, world);
                        World::lemma_same_frame_trans(&w0, &w3, world);
                        World::lemma_fungus_water_agree(&w3, world);
                    }
                }
            } else if neighbour_clone.particle_type == ParticleType::Fungus && !neighbour_clone.watered.unwrap() {
                proof {
                    api.lemma_target_of_non_border(&w2, offset);
                }
                neighbour_clone.set_watered(true);
                let ghost q = api.target(&w2, offset).unwrap();
                api.replace_with(world, offset, neighbour_clone);
                proof {
                    World::lemma_draws_extend(&w2, world);
                    World::lemma_same_frame_trans(&w0, &w2, world);
                    api.lemma_target_in_bounds(&w2, offset);
                    assert(q != pos);
                    World::lemma_fungus_water_after_write(&w2, world, q.0, q.1);
                    World::lemma_same_frame(&w0, &w2);
                    assert forall|x: int, y: int| w0.in_bounds(x, y) && (x, y) != q implies #[trigger] world.cell(x, y)
                        == w0.cell(x, y) by {
                        assert(world.cell(x, y) == w2.cell(x, y));
                    }
                }
                self.set_watered(false);
                proof {
                    assert(fungus_changed(*old(self), *self, *api, w0, *world, choice as int));
                }
            }
        } else if neighbour_clone.particle_type == ParticleType::Water {
            proof {
                api.lemma_target_of_non_border(&w1, offset);
            }
            let ghost q = api.target(&w1, offset).unwrap();
            api.replace_with_new(world, offset, ParticleType::Empty);
            proof {
                World::lemma_draws_extend(&w1, world);
                World::lemma_same_frame_trans(&w0, &w1, world);
                api.lemma_target_in_bounds(&w1, offset);
                assert(q != pos);
                Particle::lemma_fresh_facts(world.cell(q.0, q.1), ParticleType::Empty);
                World::lemma_fungus_water_after_write(&w1, world, q.0, q.1);
                World::lemma_same_frame(&w0, &w1);
                assert forall|x: int, y: int| w0.in_bounds(x, y) && (x, y) != q implies #[trigger] world.cell(x, y)
                    == w0.cell(x, y) by {
                    assert(world.cell(x, y) == w1.cell(x, y));
                }
            }
            self.set_watered(true);
            proof {
                assert(fungus_changed(*old(self), *self, *api, w0, *world, choice as int));
            }
        }
        proof {
            if exists|k: int| 0 <= k < 8 && #[trigger] fungus_changed(*old(self), *self, *api, w0, *world, k) {
                let k = choose|k: int| 0 <= k < 8 && #[trigger] fungus_changed(*old(self), *self, *api, w0, *world, k);
                lemma_fungus_changed_keeps_cold(*old(self), *self, *api, w0, *world, k);
                lemma_fungus_changed_keeps_borders(*old(self), *self, *api, w0, *world, k);
            } else {
                World::lemma_same_frame(&w0, world);
                assert(w0.borders_kept(world));
            }
        }
    }

    /// One frame of the particle at `api`'s cell, of which `self` is a copy
    /// already marked updated: it moves when its material moves on its own,
    /// steam moves and condenses, fungus grows, a flame that no longer burns
    /// goes out, acid moves and eats into what it touches, and whatever burns
    /// burns. Unless it was deleted on the way, the particle is then stored
    /// in the cell it ended in. Burning uses a unit of fuel each frame: a
    /// burning flame or piece of wood with no fuel left burns out and leaves
    /// empty space. A particle of a material that moves on its own (sand,
    /// water, methane, gunpowder, oil) that is not burning only moves, so
    /// every material keeps its number of cells; steam either does the same
    /// or condenses into one particle of water; acid only eats, so no
    /// material but empty space becomes more common; a burning particle
    /// other than a fungus makes nothing but flames, steam and empty space,
    /// turning water only into steam; and a fungus that is not burning grows
    /// only on water it drank, so the cells of fungus and of water, with the
    /// water fungi hold, stay as many together.
    #[verifier::rlimit(100)]
    #[verifier::spinoff_prover]
    pub fn update(&mut self, api: WorldApi, world: &mut World)
        requires
            old(self).wf(),
            old(self).particle_type != ParticleType::Border,
            api.wf(old(world)),
            old(world).cell(api.pos().0, api.pos().1) == *old(self),
        ensures
            update_outcome(*old(self), *final(self), api, *old(world), *final(world)),
    {
        let ghost api0 = api;
        let mut api = api;
        let mut status = Status::Alive;
        let ghost w0 = *world;
        let ghost p0 = api.pos();
        let ghost s0 = *self;
        let props = self.particle_type.properties();
        if props.moves && props.auto_move {
            let s = self.movement(&mut api, world, false);
            status.update(s);
        } else {
            proof {
                World::lemma_same_frame_refl(world);
            }
        }
        let ghost w1 = *world;
        let ghost pa = api.pos();
        let ghost mut qs: (int, int) = pa;
        proof {
            World::lemma_same_frame(&w0, &w1);
            if !(props.moves && props.auto_move) {
                assert(w0.cold_flames_kept(&w1, p0));
                assert(w0.borders_kept(&w1));
            }
            assert(w0.borders_kept(&w1) && w1.cell(pa.0, pa.1).particle_type != ParticleType::Border);
        }
        match self.particle_type {
            ParticleType::Steam => {
                let lasty = api.xy().1;
                self.movement(&mut api, world, false);
                let ghost w2 = *world;
                let s = self.update_condensation(&api, world, lasty);
                proof {
                    World::lemma_same_frame_trans(&w1, &w2, world);
                    World::lemma_cold_flames_step(&w0, &w1, &w2, p0, pa);
                    World::lemma_same_frame_trans(&w0, &w1, &w2);
                    if s == Status::Deleted && world.cell(api.pos().0, api.pos().1) != w2.cell(api.pos().0, api.pos().1) {
                        Particle::lemma_fresh_facts(world.cell(api.pos().0, api.pos().1), ParticleType::Water);
                    }
                    World::lemma_cold_flames_step(&w0, &w2, world, p0, api.pos());
                    World::lemma_borders_kept_trans(&w0, &w1, &w2);
                    World::lemma_borders_kept_trans(&w0, &w2, world);
                    if s == Status::Deleted {
                        World::lemma_count_after_write(&w2, world, api.pos().0, api.pos().1);
                    } else {
                        World::lemma_counts_carried_same(&w2, world, api.pos());
                        World::lemma_counts_carried_trans(&w1, p0, &w2, api.pos(), world, api.pos());
                    }
                }
                status.update(s);
                proof {
                    qs = api.pos();
                    if s == Status::Deleted && w2.cell(qs.0, qs.1).particle_type != ParticleType::Border {
                        Particle::lemma_fresh_facts(world.cell(qs.0, qs.1), ParticleType::Water);
                    }
                }
            },
            ParticleType::Fungus => {
                self.grow_fungus(&api, world);
                proof {
                    World::lemma_cold_flames_step(&w0, &w1, world, p0, p0);
                    World::lemma_borders_kept_trans(&w0, &w1, world);
                }
            },
            ParticleType::Flame => {
                if !self.burning {
                    status = Status::Deleted;
                    proof {
                        api.lemma_target_self(world);
                    }
                    api.replace_with_new(world, (0, 0), ParticleType::Empty);
                    proof {
                        World::lemma_same_frame(&w1, world);
                        assert(w1.cold_flames_kept(world, p0));
                        World::lemma_cold_flames_step(&w0, &w1, world, p0, p0);
                        Particle::lemma_fresh_facts(world.cell(p0.0, p0.1), ParticleType::Empty);
                        World::lemma_borders_write(&w0, &w1, world, p0);
                    }
                } else {
                    proof {
                        World::lemma_same_frame_refl(world);
                    }
                }
            },
            ParticleType::Acid => {
                let s = self.movement(&mut api, world, true);
                status.update(s);
                proof {
                    lemma_flammable_has_fuel(s0.particle_type);
                    assert(status == s);
                }
                proof {
                    World::lemma_cold_flames_step(&w0, &w1, world, p0, p0);
                    World::lemma_borders_kept_trans(&w0, &w1, world);
                }
            },
            _ => {
                proof {
                    World::lemma_same_frame_refl(world);
                }
            },
        }
        let ghost w3 = *world;
        let ghost pb = api.pos();
        proof {
            World::lemma_same_frame_trans(&w0, &w1, &w3);
            assert(w0.cold_flames_kept(&w3, p0));
            assert(pb != p0 ==> !Particle::cold_flame(w3.cell(pb.0, pb.1)));
            assert(w0.borders_kept(&w3));
            assert(w3.cell(pb.0, pb.1).particle_type != ParticleType::Border);
        }
        if self.burning {
            assert(status == Status::Alive);
            let ghost pb = api.pos();
            proof {
                if s0.particle_type != ParticleType::Fungus && props.moves && props.auto_move {
                    World::lemma_counts_carried_burnt(&w0, p0, &w1, pb);
                }
            }
            let s = self.burn(&api, world);
            proof {
                World::lemma_cold_flames_step(&w0, &w3, world, p0, api.pos());
                World::lemma_borders_kept_trans(&w0, &w3, world);
                if s0.particle_type != ParticleType::Fungus {
                    World::lemma_counts_burnt_trans(&w0, p0, &w3, pb, world, pb);
                }
            }
            status.update(s);
        } else {
            proof {
                World::lemma_same_frame_refl(world);
            }
        }
        let ghost w4 = *world;
        proof {
            World::lemma_same_frame_trans(&w0, &w3, &w4);
            assert(w0.cold_flames_kept(&w4, p0));
            assert(pb != p0 ==> !Particle::cold_flame(w4.cell(pb.0, pb.1)) && s0.particle_type.moves());
            assert(w0.borders_kept(&w4));
            assert(w4.cell(pb.0, pb.1).particle_type != ParticleType::Border);
        }
        if status == Status::Alive {
            api.update_in_world(world, *self);
            proof {
                World::lemma_same_frame_trans(&w0, &w4, world);
                World::lemma_count_after_write(&w4, world, api.pos().0, api.pos().1);
                World::lemma_fungus_water_after_write(&w4, world, api.pos().0, api.pos().1);
                World::lemma_same_frame(&w4, world);
                assert(w4.cold_flames_kept(world, pb));
                World::lemma_cold_flames_step(&w0, &w4, world, p0, pb);
                assert(self.particle_type != ParticleType::Border);
                World::lemma_borders_write(&w0, &w4, world, pb);
                if s0.particle_type.auto_move() && !s0.burning {
                    World::lemma_same_frame(&w0, &w4);
                    assert(w1.cells_agree(&w4));
                    assert forall|x: int, y: int|
                        w0.in_bounds(x, y) && (#[trigger] w0.cell(x, y)).particle_type == ParticleType::Concrete implies world.cell(
                            x,
                            y,
                        ) == w0.cell(x, y) by {
                        assert(w1.cell(x, y) == w0.cell(x, y));
                        assert(w4.cell(x, y) == w1.cell(x, y));
                        assert(world.cell(x, y) == w4.cell(x, y));
                    }
                }
                if s0.particle_type.auto_move() && api.pos() == p0 && w0.cells_agree(&w1) && w1.cells_agree(&w4) {
                    World::lemma_same_frame(&w0, &w1);
                    World::lemma_same_frame(&w0, &w4);
                    assert forall|x: int, y: int| w0.in_bounds(x, y) && (x != p0.0 || y != p0.1) implies #[trigger] world.cell(
                        x,
                        y,
                    ) == w0.cell(x, y) by {
                        assert(world.cell(x, y) == w4.cell(x, y));
                        assert(w4.cell(x, y) == w1.cell(x, y));
                    }
                }
            }
        }
        proof {
            assert(w0.borders_kept(world));
            World::lemma_draws_extend(&w1, &w3);
            World::lemma_draws_extend(&w3, &w4);
            if status == Status::Alive {
                World::lemma_draws_extend(&w4, world);
            }
            if s0.particle_type == ParticleType::Fungus && !s0.burning {
                assert(w1 == w0);
            }
            if s0.particle_type == ParticleType::Steam {
                assert(pa == p0);
                assert(!s0.burning);
                assert(steam_end(s0, *self, p0, *world, qs));
            }
            if (s0.particle_type == ParticleType::Flame || s0.particle_type == ParticleType::Wood) && s0.burning {
                assert(w3 == w0);
                World::lemma_same_frame(&w0, &w4);
                assert forall|k: int|
                    0 <= k < burn_reach(api0, w0) && #[trigger] sure_to_catch(api0, w0, k) implies ({
                        let q = api0.target(&w0, burn_dir(k)).unwrap();
                        world.cell(q.0, q.1).burning
                    }) by {
                    api0.lemma_target_in_bounds(&w0, burn_dir(k));
                    let q = api0.target(&w0, burn_dir(k)).unwrap();
                    assert(world.cell(q.0, q.1) == w4.cell(q.0, q.1));
                }
                assert forall|k: int|
                    0 <= k < burn_reach(api0, w0) && #[trigger] sure_new_flame(api0, w0, k, s0.fuel.unwrap() as int) implies ({
                        let q = api0.target(&w0, burn_dir(k)).unwrap();
                        world.cell(q.0, q.1).particle_type == ParticleType::Flame && world.cell(q.0, q.1).burning
                    }) by {
                    api0.lemma_target_in_bounds(&w0, burn_dir(k));
                    let q = api0.target(&w0, burn_dir(k)).unwrap();
                    assert(world.cell(q.0, q.1) == w4.cell(q.0, q.1));
                }
            }
            let dirs = fluid_dirs(s0.moving_right.unwrap());
            if s0.particle_type == ParticleType::Acid && acid_scenario(after_gravity(s0), api0, w0, dirs) {
                let d = premove_step(after_gravity(s0), dirs[0]);
                let q = api0.target(&w0, d).unwrap();
                assert(q != p0);
                api0.lemma_target_in_bounds(&w0, d);
                World::lemma_same_frame(&w0, &w4);
                if status == Status::Alive {
                    assert(api.pos() == p0);
                    assert(world.cell(q.0, q.1) == w4.cell(q.0, q.1));
                    assert forall|x: int, y: int|
                        w0.in_bounds(x, y) && (x, y) != q && (x, y) != p0 implies #[trigger] world.cell(x, y) == w0.cell(
                            x,
                            y,
                        ) by {
                        assert(world.cell(x, y) == w4.cell(x, y));
                    }
                }
            }
        }
    }
}

} // verus!
