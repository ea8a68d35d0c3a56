//! Placing things in the world with the mouse: the drawing tools, the
//! square a brush covers, where a row of portals may go, and how portals
//! placed one after another pair up.
use vstd::prelude::*;
use crate::helpers::PColor;
use crate::particle::ParticleType;
use crate::world::{Direction, Portal, World};

verus! {

/// How mouse input turns into strokes.
#[derive(Clone, Copy, PartialEq, Eq, Structural, Debug)]
pub enum DrawingStyle {
    Brush,
    Line,
    Portal,
}

impl DrawingStyle {
    /// The name the interface shows.
    pub fn as_str(&self) -> (s: &'static str)
        ensures
            s@ == match *self {
                DrawingStyle::Brush => "Brush"@,
                DrawingStyle::Line => "Line"@,
                DrawingStyle::Portal => "Portal"@,
            },
    {
        match self {
            DrawingStyle::Brush => "Brush",
            DrawingStyle::Line => "Line",
            DrawingStyle::Portal => "Portal",
        }
    }
}

/// What the brush places.
#[derive(Clone, Copy, PartialEq, Eq, Structural, Debug)]
pub enum PlaceableSelector {
    Particle,
    Source,
    Sink,
    Portal,
}

impl PlaceableSelector {
    /// The name the interface shows.
    pub fn as_str(&self) -> (s: &'static str)
        ensures
            s@ == match *self {
                PlaceableSelector::Particle => "Particle"@,
                PlaceableSelector::Source => "Source"@,
                PlaceableSelector::Sink => "Sink"@,
                PlaceableSelector::Portal => "Portal"@,
            },
    {
        match self {
            PlaceableSelector::Particle => "Particle",
            PlaceableSelector::Source => "Source",
            PlaceableSelector::Sink => "Sink",
            PlaceableSelector::Portal => "Portal",
        }
    }
}

/// What the brush places once drawing style `style` is chosen: portals with
/// the portal style, and otherwise what it placed, unless that was portals,
/// which give way to particles.
pub fn selector_for_style(style: DrawingStyle, selector: PlaceableSelector) -> (r: PlaceableSelector)
    ensures
        r == match style {
            DrawingStyle::Portal => PlaceableSelector::Portal,
            _ => if selector == PlaceableSelector::Portal {
                PlaceableSelector::Particle
            } else {
                selector
            },
        },
{
    match style {
        DrawingStyle::Portal => PlaceableSelector::Portal,
        _ => if selector == PlaceableSelector::Portal {
            PlaceableSelector::Particle
        } else {
            selector
        },
    }
}

/// The material the brush places and the one kept for later, `(placement,
/// last)`: deleting, or placing a sink, uses empty space and keeps the
/// material chosen before; otherwise the kept material comes back in place
/// of empty space.
pub fn placement_type_for(delete: bool, selector: PlaceableSelector, placement: ParticleType, last: ParticleType) -> (r: (
    ParticleType,
    ParticleType,
))
    ensures
        r == if delete || selector == PlaceableSelector::Sink {
            (ParticleType::Empty, if placement != ParticleType::Empty { placement } else { last })
        } else if placement == ParticleType::Empty {
            (last, last)
        } else {
            (placement, last)
        },
{
    if delete || selector == PlaceableSelector::Sink {
        let kept = if placement != ParticleType::Empty { placement } else { last };
        (ParticleType::Empty, kept)
    } else if placement == ParticleType::Empty {
        (last, last)
    } else {
        (placement, last)
    }
}

/// The line tool: a click sets the start of a line, the next click draws
/// the line from there to the mouse and clears the start. Returns the new
/// start and the line to fill, if any.
pub fn line_stroke(start: Option<(usize, usize)>, pressed: bool, mouse: (usize, usize)) -> (r: (
    Option<(usize, usize)>,
    Option<((usize, usize), (usize, usize))>,
))
    ensures
        r == if !pressed {
            (start, None)
        } else {
            match start {
                Some(a) => (None, Some((a, mouse))),
                None => (Some(mouse), None),
            }
        },
{
    if pressed {
        match start {
            Some(a) => (None, Some((a, mouse))),
            None => (Some(mouse), None),
        }
    } else {
        (start, None)
    }
}

/// The brush tool: pressing the button starts a stroke at the mouse, and
/// while the button is down the stroke follows the mouse, filling the line
/// from where it was to where it is. Returns the new start and the line to
/// fill, if any.
pub fn brush_stroke(start: Option<(usize, usize)>, pressed: bool, down: bool, mouse: (usize, usize)) -> (r: (
    Option<(usize, usize)>,
    Option<((usize, usize), (usize, usize))>,
))
    ensures
        r == if !down {
            (None, None)
        } else if pressed {
            (Some(mouse), Some((mouse, mouse)))
        } else {
            match start {
                Some(a) => (Some(mouse), Some((a, mouse))),
                None => (None, None),
            }
        },
{
    let mut anchor = start;
    if pressed {
        anchor = Some(mouse);
    }
    if !down {
        anchor = None;
    }
    match anchor {
        Some(a) => (Some(mouse), Some((a, mouse))),
        None => (None, None),
    }
}

/// The smaller of two numbers.
pub open spec fn min_nat(a: int, b: int) -> int {
    if a <= b { a } else { b }
}

/// How many of `lo..hi` lie below `bound`.
pub open spec fn span(lo: int, hi: int, bound: int) -> int {
    if min_nat(hi, bound) > lo { min_nat(hi, bound) - lo } else { 0 }
}

/// The cells of the rectangle `xmin..xmax` by `ymin..ymax` that lie below
/// `(xbound, ybound)`, column by column and top to bottom in each column.
pub open spec fn square_seq(xmin: usize, xmax: usize, ymin: usize, ymax: usize, xbound: usize, ybound: usize) -> Seq<
    (usize, usize),
> {
    let nx = span(xmin as int, xmax as int, xbound as int);
    let ny = span(ymin as int, ymax as int, ybound as int);
    Seq::new((nx * ny) as nat, |k: int| ((xmin + k / ny) as usize, (ymin + k % ny) as usize))
}

/// The cells of the rectangle `xmin..xmax` by `ymin..ymax` that lie below
/// `(xbound, ybound)`, in the order `square_seq` gives.
pub fn square_cells(xmin: usize, xmax: usize, ymin: usize, ymax: usize, xbound: usize, ybound: usize) -> (v: Vec<
    (usize, usize),
>)
    ensures
        v@ == square_seq(xmin, xmax, ymin, ymax, xbound, ybound),
        forall|k: int|
            0 <= k < v@.len() ==> xmin <= (#[trigger] v@[k]).0 < xmax && v@[k].0 < xbound && ymin <= v@[k].1 < ymax
                && v@[k].1 < ybound,
{
    let xend: usize = if xmax <= xbound { xmax } else { xbound };
    let yend: usize = if ymax <= ybound { ymax } else { ybound };
    let ghost nx = span(xmin as int, xmax as int, xbound as int);
    let ghost ny = span(ymin as int, ymax as int, ybound as int);
    let mut v: Vec<(usize, usize)> = Vec::new();
    if xend > xmin && yend > ymin {
        let mut x: usize = xmin;
        while x < xend
            invariant
                xmin <= x <= xend,
                xend > xmin,
                yend > ymin,
                nx == xend - xmin,
                ny == yend - ymin,
                v@.len() == (x - xmin) * ny,
                forall|k: int|
                    0 <= k < v@.len() ==> #[trigger] v@[k] == ((xmin + k / ny) as usize, (ymin + k % ny) as usize),
            decreases xend - x,
        {
            let mut y: usize = ymin;
            while y < yend
                invariant
                    xmin <= x < xend,
                    ymin <= y <= yend,
                    xend > xmin,
                    yend > ymin,
                    nx == xend - xmin,
                    ny == yend - ymin,
                    v@.len() == (x - xmin) * ny + (y - ymin),
                    forall|k: int|
                        0 <= k < v@.len() ==> #[trigger] v@[k] == ((xmin + k / ny) as usize, (ymin + k % ny) as usize),
                decreases yend - y,
            {
                proof {
                    let k = (x - xmin) * ny + (y - ymin);
                    vstd::arithmetic::div_mod::lemma_fundamental_div_mod_converse(k, ny, x - xmin, y - ymin);
                }
                v.push((x, y));
                y = y + 1;
            }
            proof {
                assert((x - xmin) * ny + ny == (x + 1 - xmin) * ny) by (nonlinear_arith);
            }
            x = x + 1;
        }
        proof {
            assert(v@ =~= square_seq(xmin, xmax, ymin, ymax, xbound, ybound));
        }
    } else {
        proof {
            assert(nx * ny == 0) by (nonlinear_arith)
                requires
                    nx == 0 || ny == 0,
            ;
            assert(v@ =~= square_seq(xmin, xmax, ymin, ymax, xbound, ybound));
        }
    }
    proof {
        assert forall|k: int| 0 <= k < v@.len() implies xmin <= (#[trigger] v@[k]).0 < xmax && v@[k].0 < xbound
            && ymin <= v@[k].1 < ymax && v@[k].1 < ybound by {
            lemma_square_index(k, nx, ny);
        }
    }
    v
}

/// An index below `nx * ny` splits into a column below `nx` and a row below
/// `ny`.
proof fn lemma_square_index(k: int, nx: int, ny: int)
    requires
        nx >= 0,
        ny >= 0,
        0 <= k < nx * ny,
    ensures
        0 <= k / ny < nx,
        0 <= k % ny < ny,
{
    if ny == 0 {
        assert(nx * ny == 0);
    }
    vstd::arithmetic::div_mod::lemma_fundamental_div_mod(k, ny);
    vstd::arithmetic::div_mod::lemma_mod_bound(k, ny);
    let q = k / ny;
    let r = k % ny;
    assert(0 <= q < nx) by (nonlinear_arith)
        requires
            k == ny * q + r,
            0 <= r < ny,
            0 <= k < nx * ny,
    ;
}

/// Whether every cell of the row (for a portal facing up or down) or column
/// (facing left or right) of portals that the brush covers may take one: it
/// lies inside the border ring, measured against the world's width, and
/// holds no portal yet.
pub open spec fn portal_cells_ok(
    world: &World,
    direction: Direction,
    brush: (usize, usize, usize, usize),
    mouse: (usize, usize),
) -> bool {
    match direction {
        Direction::Up | Direction::Down => forall|x: int|
            brush.0 <= x < brush.1 ==> 1 <= x < world.spec_width() - 1 && world.portal(x, mouse.1 as int) is None,
        Direction::Right | Direction::Left => forall|y: int|
            brush.2 <= y < brush.3 ==> 1 <= y < world.spec_width() - 1 && world.portal(mouse.0 as int, y) is None,
    }
}

/// For a column of portals (facing left or right), the check of the brush's
/// rows, which stops at the first row that may not take a portal, reaches a
/// row inside the width but below the world's last row.
pub open spec fn column_leaves_world(
    world: &World,
    direction: Direction,
    brush: (usize, usize, usize, usize),
    mouse: (usize, usize),
) -> bool {
    &&& (direction == Direction::Right || direction == Direction::Left)
    &&& exists|y: int|
        brush.2 <= y < brush.3 && world.spec_height() <= y && 1 <= y < world.spec_width() - 1
            && #[trigger] rows_take_portals(world, mouse.0 as int, brush.2 as int, y)
}

/// Every row from `ymin` up to `y` (not included) of column `x` lies inside
/// the width's border ring and holds no portal.
pub open spec fn rows_take_portals(world: &World, x: int, ymin: int, y: int) -> bool {
    forall|y2: int| ymin <= y2 < y ==> 1 <= y2 < world.spec_width() - 1 && world.portal(x, y2) is None
}

/// The part of the brush `(xmin, xmax, ymin, ymax)` that a row or column of
/// portals takes: the brush's columns on the mouse's row for a portal facing
/// up or down, the brush's rows on the mouse's column otherwise.
pub open spec fn portal_brush(direction: Direction, brush: (usize, usize, usize, usize), mouse: (usize, usize)) -> (
    usize,
    usize,
    usize,
    usize,
) {
    match direction {
        Direction::Up | Direction::Down => (brush.0, brush.1, mouse.1, (mouse.1 + 1) as usize),
        Direction::Right | Direction::Left => (mouse.0, (mouse.0 + 1) as usize, brush.2, brush.3),
    }
}

/// Where a row or column of portals goes for the brush `(xmin, xmax, ymin,
/// ymax)` and the mouse on cell `mouse`, and whether it may go there (see
/// `portal_cells_ok` and `portal_brush`). The check stops at the first cell
/// that may not take a portal; a column is checked against the width, so it
/// must not reach a row below the world first (`column_leaves_world`).
pub fn portal_placement(world: &World, direction: Direction, brush: (usize, usize, usize, usize), mouse: (
    usize,
    usize,
)) -> (r: (bool, (usize, usize, usize, usize)))
    requires
        world.wf(),
        world.in_bounds(mouse.0 as int, mouse.1 as int),
        !column_leaves_world(world, direction, brush, mouse),
    ensures
        r.0 == portal_cells_ok(world, direction, brush, mouse),
        r.1 == portal_brush(direction, brush, mouse),
{
    let (xmin, xmax, ymin, ymax) = brush;
    let (mousex, mousey) = mouse;
    let width = world.width();
    let height = world.height();
    match direction {
        Direction::Up | Direction::Down => {
            let mut x: usize = xmin;
            while x < xmax
                invariant
                    xmin <= x,
                    brush == (xmin, xmax, ymin, ymax),
                    mouse == (mousex, mousey),
                    direction == Direction::Up || direction == Direction::Down,
                    width == world.spec_width(),
                    height == world.spec_height(),
                    world.wf(),
                    world.in_bounds(mousex as int, mousey as int),
                    forall|x2: int| xmin <= x2 < x ==> 1 <= x2 < width - 1 && world.portal(x2, mousey as int) is None,
                decreases xmax - x,
            {
                if x < 1 || x >= width - 1 || world.portal_exists_at((x, mousey)) {
                    proof {
                        assert(!(1 <= x < width - 1 && world.portal(x as int, mousey as int) is None));
                    }
                    return (false, (xmin, xmax, mousey, mousey + 1));
                }
                x = x + 1;
            }
            (true, (xmin, xmax, mousey, mousey + 1))
        },
        Direction::Right | Direction::Left => {
            let mut y: usize = ymin;
            while y < ymax
                invariant
                    ymin <= y,
                    brush == (xmin, xmax, ymin, ymax),
                    !column_leaves_world(world, direction, brush, mouse),
                    mouse == (mousex, mousey),
                    direction == Direction::Right || direction == Direction::Left,
                    width == world.spec_width(),
                    height == world.spec_height(),
                    world.wf(),
                    world.in_bounds(mousex as int, mousey as int),
                    forall|y2: int| ymin <= y2 < y ==> 1 <= y2 < width - 1 && world.portal(mousex as int, y2) is None,
                decreases ymax - y,
            {
                if y < 1 || y >= width - 1 {
                    proof {
                        assert(!(1 <= y < width - 1 && world.portal(mousex as int, y as int) is None));
                    }
                    return (false, (mousex, mousex + 1, ymin, ymax));
                }
                proof {
                    if y >= height {
                        let yy = y as int;
                        assert(brush.2 <= yy < brush.3);
                        assert(world.spec_height() <= yy && 1 <= yy < world.spec_width() - 1);
                        assert(rows_take_portals(world, mouse.0 as int, brush.2 as int, yy));
                        assert(direction == Direction::Right || direction == Direction::Left);
                        assert(column_leaves_world(world, direction, brush, mouse));
                    }
                }
                if world.portal_exists_at((mousex, y)) {
                    proof {
                        assert(!(1 <= y < width - 1 && world.portal(mousex as int, y as int) is None));
                    }
                    return (false, (mousex, mousex + 1, ymin, ymax));
                }
                y = y + 1;
            }
            (true, (mousex, mousex + 1, ymin, ymax))
        },
    }
}

/// How the colour for new portals changes after a portal is placed: kept,
/// darkened a little, or moved on to the next colour of the cycle.
#[derive(Clone, Copy, PartialEq, Eq, Structural, Debug)]
pub enum PortalColorStep {
    Keep,
    Darken,
    Next,
}

/// How portals placed one after another pair up. While not waiting, each
/// placed portal is remembered; once as many are remembered as the brush is
/// wide, the pairing waits, and each portal placed then takes the most
/// recently remembered one as its partner, until none is left.
#[derive(Clone, Debug)]
pub struct PortalPairing {
    pub waiting_for_partner_portal: bool,
    pub last_portal_placed: Vec<(usize, usize)>,
}

impl PortalPairing {
    /// Nothing remembered, not waiting.
    pub fn new() -> (p: Self)
        ensures
            !p.waiting_for_partner_portal,
            p.last_portal_placed@ == Seq::<(usize, usize)>::empty(),
    {
        PortalPairing { waiting_for_partner_portal: false, last_portal_placed: Vec::new() }
    }

    /// Every remembered cell lies in the world and holds a portal.
    pub open spec fn wf(&self, world: &World) -> bool {
        forall|i: int|
            0 <= i < self.last_portal_placed@.len() ==> world.in_bounds(
                (#[trigger] self.last_portal_placed@[i]).0 as int,
                self.last_portal_placed@[i].1 as int,
            ) && world.portal(self.last_portal_placed@[i].0 as int, self.last_portal_placed@[i].1 as int) is Some
    }

    /// The partner the next portal takes: the most recently remembered cell,
    /// when waiting.
    pub open spec fn spec_partner(&self) -> Option<(usize, usize)> {
        if self.waiting_for_partner_portal && self.last_portal_placed@.len() > 0 {
            Some(self.last_portal_placed@.last())
        } else {
            None
        }
    }

    /// The remembered cells once the next portal has taken its partner.
    pub open spec fn remaining(&self) -> Seq<(usize, usize)> {
        if self.waiting_for_partner_portal && self.last_portal_placed@.len() > 0 {
            self.last_portal_placed@.drop_last()
        } else {
            self.last_portal_placed@
        }
    }

    /// Places a portal facing `direction` in colour `color` on cell `xy`,
    /// paired as the pairing says, with `World::add_new_portal`. Returns
    /// whether it was added (not when a portal is there already) and how the
    /// colour for new portals changes: darker after a portal that waits for a
    /// partner, the next colour once the last waiting portal got its partner.
    /// The partner is taken even when nothing is added.
    pub fn place_portal(
        &mut self,
        world: &mut World,
        xy: (usize, usize),
        direction: Direction,
        color: PColor,
        brush_width: usize,
    ) -> (r: (bool, PortalColorStep))
        requires
            old(world).wf(),
            old(world).in_bounds(xy.0 as int, xy.1 as int),
            old(self).wf(old(world)),
        ensures
            final(world).wf(),
            final(world).spec_width() == old(world).spec_width(),
            final(world).spec_height() == old(world).spec_height(),
            final(world).spec_chunk_size() == old(world).spec_chunk_size(),
            old(world).cells_agree(final(world)),
            old(world).now_flags_agree(final(world)),
            old(world).next_flags_agree(final(world)),
            forall|x: int, y: int| #[trigger] final(world).source(x, y) == old(world).source(x, y),
            r.0 == old(world).portal(xy.0 as int, xy.1 as int).is_none(),
            !r.0 ==> forall|x: int, y: int| #[trigger] final(world).portal(x, y) == old(world).portal(x, y),
            r.0 ==> final(world).portal(xy.0 as int, xy.1 as int) == Some(
                Portal { partner_xy: old(self).spec_partner(), direction, color },
            ),
            r.0 ==> (old(self).spec_partner() matches Some(p) ==> final(world).portal(p.0 as int, p.1 as int) == Some(
                Portal { partner_xy: Some(xy), ..old(world).portal(p.0 as int, p.1 as int).unwrap() },
            )),
            r.0 ==> old(world).portals_agree_except(
                final(world),
                (xy.0 as int, xy.1 as int),
                match old(self).spec_partner() {
                    Some(p) => (p.0 as int, p.1 as int),
                    None => (xy.0 as int, xy.1 as int),
                },
            ),
            final(self).wf(final(world)),
            final(self).last_portal_placed@ == if r.0 && !old(self).waiting_for_partner_portal {
                old(self).remaining().push(xy)
            } else {
                old(self).remaining()
            },
            final(self).waiting_for_partner_portal == if r.0 && final(self).last_portal_placed@.len() == brush_width {
                true
            } else if r.0 && old(self).waiting_for_partner_portal && old(self).remaining().len() == 0 {
                false
            } else {
                old(self).waiting_for_partner_portal
            },
            r.1 == if !r.0 {
                PortalColorStep::Keep
            } else if !old(self).waiting_for_partner_portal {
                PortalColorStep::Darken
            } else if old(self).remaining().len() == 0 {
                PortalColorStep::Next
            } else {
                PortalColorStep::Keep
            },
    {
        let ghost w0 = *world;
        let ghost p0 = *self;
        let waiting = self.waiting_for_partner_portal;
        let partner_xy = if waiting {
            self.last_portal_placed.pop()
        } else {
            None
        };
        proof {
            if waiting && p0.last_portal_placed@.len() > 0 {
                assert(self.last_portal_placed@ =~= p0.last_portal_placed@.drop_last());
                let k = p0.last_portal_placed@.len() - 1;
                assert(p0.last_portal_placed@[k] == p0.last_portal_placed@.last());
            }
            assert(self.last_portal_placed@ == p0.remaining());
            assert(partner_xy == p0.spec_partner());
        }
        let added = world.add_new_portal(xy, partner_xy, direction, color);
        let mut step = PortalColorStep::Keep;
        if added {
            if !waiting {
                self.last_portal_placed.push(xy);
                step = PortalColorStep::Darken;
            } else if self.last_portal_placed.len() == 0 {
                step = PortalColorStep::Next;
                self.waiting_for_partner_portal = false;
            }
            if self.last_portal_placed.len() == brush_width {
                self.waiting_for_partner_portal = true;
            }
        }
        proof {
            assert forall|i: int| 0 <= i < self.last_portal_placed@.len() implies world.in_bounds(
                (#[trigger] self.last_portal_placed@[i]).0 as int,
                self.last_portal_placed@[i].1 as int,
            ) && world.portal(self.last_portal_placed@[i].0 as int, self.last_portal_placed@[i].1 as int) is Some by {
                let c = self.last_portal_placed@[i];
                if i < p0.remaining().len() {
                    assert(c == p0.last_portal_placed@[i]);
                    assert(w0.portal(c.0 as int, c.1 as int) is Some);
                }
            }
        }
        (added, step)
    }
}

} // verus!
