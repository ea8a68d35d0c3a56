use sand::helpers::PColor;
use sand::particle::ParticleType;
use sand::placing::{
    brush_stroke, line_stroke, placement_type_for, portal_placement, selector_for_style, square_cells, DrawingStyle,
    PlaceableSelector, PortalColorStep, PortalPairing,
};
use sand::world::{Direction, World};

#[test]
fn names_shown_in_the_interface() {
    assert_eq!(DrawingStyle::Brush.as_str(), "Brush");
    assert_eq!(DrawingStyle::Line.as_str(), "Line");
    assert_eq!(DrawingStyle::Portal.as_str(), "Portal");
    assert_eq!(PlaceableSelector::Particle.as_str(), "Particle");
    assert_eq!(PlaceableSelector::Source.as_str(), "Source");
    assert_eq!(PlaceableSelector::Sink.as_str(), "Sink");
    assert_eq!(PlaceableSelector::Portal.as_str(), "Portal");
}

#[test]
fn the_line_tool_takes_two_clicks() {
    assert_eq!(line_stroke(None, false, (3, 4)), (None, None));
    assert_eq!(line_stroke(None, true, (3, 4)), (Some((3, 4)), None));
    assert_eq!(line_stroke(Some((3, 4)), false, (9, 9)), (Some((3, 4)), None));
    assert_eq!(line_stroke(Some((3, 4)), true, (9, 9)), (None, Some(((3, 4), (9, 9)))));
}

#[test]
fn the_brush_tool_follows_the_mouse_while_down() {
    assert_eq!(brush_stroke(None, true, true, (5, 5)), (Some((5, 5)), Some(((5, 5), (5, 5)))));
    assert_eq!(brush_stroke(Some((5, 5)), false, true, (7, 6)), (Some((7, 6)), Some(((5, 5), (7, 6)))));
    assert_eq!(brush_stroke(Some((7, 6)), false, false, (8, 6)), (None, None));
    assert_eq!(brush_stroke(None, false, true, (8, 6)), (None, None));
}

#[test]
fn square_cells_are_clipped_and_ordered_by_column() {
    assert_eq!(square_cells(2, 4, 5, 7, 100, 100), vec![(2, 5), (2, 6), (3, 5), (3, 6)]);
    assert_eq!(square_cells(2, 6, 5, 8, 4, 7), vec![(2, 5), (2, 6), (3, 5), (3, 6)]);
    assert_eq!(square_cells(4, 4, 0, 3, 10, 10), vec![]);
    assert_eq!(square_cells(0, 3, 0, 3, 0, 10), vec![]);
}

#[test]
fn portals_need_free_cells_inside_the_ring() {
    let mut world = World::new(32, 32, 16);
    let c = PColor::new(1, 1, 1);
    assert_eq!(portal_placement(&world, Direction::Up, (4, 8, 2, 6), (5, 9)), (true, (4, 8, 9, 10)));
    assert_eq!(portal_placement(&world, Direction::Left, (4, 8, 2, 6), (5, 9)), (true, (5, 6, 2, 6)));
    assert_eq!(portal_placement(&world, Direction::Down, (0, 3, 2, 6), (1, 9)), (false, (0, 3, 9, 10)));
    assert_eq!(portal_placement(&world, Direction::Right, (4, 8, 29, 32), (5, 30)), (false, (5, 6, 29, 32)));
    world.add_new_portal((6, 9), None, Direction::Up, c);
    assert_eq!(portal_placement(&world, Direction::Up, (4, 8, 2, 6), (5, 9)), (false, (4, 8, 9, 10)));
}

#[test]
fn portals_pair_up_with_the_last_ones_placed() {
    let mut world = World::new(32, 32, 16);
    let c = PColor::new(9, 9, 9);
    let mut pairing = PortalPairing::new();
    // A brush two cells wide: two portals are remembered, then the pairing waits.
    assert_eq!(pairing.place_portal(&mut world, (5, 5), Direction::Up, c, 2), (true, PortalColorStep::Darken));
    assert!(!pairing.waiting_for_partner_portal);
    assert_eq!(pairing.place_portal(&mut world, (6, 5), Direction::Up, c, 2), (true, PortalColorStep::Darken));
    assert!(pairing.waiting_for_partner_portal);
    assert_eq!(pairing.last_portal_placed, vec![(5, 5), (6, 5)]);
    // The next two take the remembered ones as partners, last first.
    assert_eq!(pairing.place_portal(&mut world, (20, 20), Direction::Down, c, 2), (true, PortalColorStep::Keep));
    assert_eq!(world.portal_at((20, 20)).unwrap().partner_xy, Some((6, 5)));
    assert_eq!(world.portal_at((6, 5)).unwrap().partner_xy, Some((20, 20)));
    assert_eq!(pairing.place_portal(&mut world, (21, 20), Direction::Down, c, 2), (true, PortalColorStep::Next));
    assert_eq!(world.portal_at((21, 20)).unwrap().partner_xy, Some((5, 5)));
    assert_eq!(world.portal_at((5, 5)).unwrap().partner_xy, Some((21, 20)));
    assert!(!pairing.waiting_for_partner_portal);
    assert!(pairing.last_portal_placed.is_empty());
    // A cell that holds a portal already takes no other.
    assert_eq!(pairing.place_portal(&mut world, (5, 5), Direction::Up, c, 2), (false, PortalColorStep::Keep));
}

#[test]
fn choosing_a_drawing_style_sets_what_the_brush_places() {
    assert_eq!(selector_for_style(DrawingStyle::Portal, PlaceableSelector::Source), PlaceableSelector::Portal);
    assert_eq!(selector_for_style(DrawingStyle::Brush, PlaceableSelector::Portal), PlaceableSelector::Particle);
    assert_eq!(selector_for_style(DrawingStyle::Line, PlaceableSelector::Sink), PlaceableSelector::Sink);
}

#[test]
fn deleting_and_sinks_use_empty_space_and_keep_the_material() {
    let sand = ParticleType::Sand;
    let water = ParticleType::Water;
    let empty = ParticleType::Empty;
    assert_eq!(placement_type_for(true, PlaceableSelector::Particle, sand, water), (empty, sand));
    assert_eq!(placement_type_for(false, PlaceableSelector::Sink, empty, water), (empty, water));
    assert_eq!(placement_type_for(false, PlaceableSelector::Particle, empty, water), (water, water));
    assert_eq!(placement_type_for(false, PlaceableSelector::Source, sand, water), (sand, water));
}
