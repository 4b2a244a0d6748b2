//! The integer geometry of route-finding: which face two neighbouring cubes
//! share, the doubled grid in which rooms and wall faces each get a node,
//! and what a room or a face costs to cross.
use vstd::prelude::*;
use crate::city::Cell;
use crate::eorf::EorfId;
use crate::sparse3d::{Facing, IVec3, Slot, SlotCoord, Sparse3D};

verus! {

/// Cubes of padding around the built city's bounding box in the
/// navigation grid.
pub const GRID_PADDING: i32 = 1;

/// What crossing a node costs: nothing gets through, or it costs `n`.
#[derive(Clone, Copy, PartialEq, Eq, Debug, Structural)]
pub enum NodeNav {
    Impassable,
    Passable(u32),
}

/// The horizontal direction a room object with `facing` points: the
/// default points towards -z, and each further facing turns clockwise.
pub open spec fn facing_dir(facing: Facing) -> IVec3 {
    match facing {
        Facing::NegX => IVec3 { x: 0, y: 0, z: -1i32 },
        Facing::NegZ => IVec3 { x: 1, y: 0, z: 0 },
        Facing::PosX => IVec3 { x: 0, y: 0, z: 1 },
        Facing::PosZ => IVec3 { x: -1i32, y: 0, z: 0 },
    }
}

/// The horizontal direction a room object with `facing` points (see
/// `facing_dir`).
pub fn facing_horizontal_dir(facing: Facing) -> (d: IVec3)
    ensures
        d == facing_dir(facing),
{
    match facing {
        Facing::NegX => IVec3 { x: 0, y: 0, z: -1 },
        Facing::NegZ => IVec3 { x: 1, y: 0, z: 0 },
        Facing::PosX => IVec3 { x: 0, y: 0, z: 1 },
        Facing::PosZ => IVec3 { x: -1, y: 0, z: 0 },
    }
}

/// `from` and `to` are neighbours along x or z.
pub open spec fn horizontal_neighbours(from: IVec3, to: IVec3) -> bool {
    from.y == to.y && (
        (from.z == to.z && (to.x == from.x + 1 || to.x == from.x - 1))
        || (from.x == to.x && (to.z == from.z + 1 || to.z == from.z - 1))
    )
}

/// The wall face two horizontal neighbours share: the low wall of whichever
/// of the two lies on the high side.
pub open spec fn boundary_between(from: IVec3, to: IVec3) -> SlotCoord {
    if to.x == from.x + 1 && to.z == from.z {
        SlotCoord { cube: to, slot: Slot::XLoWall }
    } else if to.x == from.x - 1 && to.z == from.z {
        SlotCoord { cube: from, slot: Slot::XLoWall }
    } else if to.z == from.z + 1 {
        SlotCoord { cube: to, slot: Slot::ZLoWall }
    } else {
        SlotCoord { cube: from, slot: Slot::ZLoWall }
    }
}

/// The wall face two horizontal neighbours share (see `boundary_between`).
pub fn horizontal_boundary_loc(from: IVec3, to: IVec3) -> (loc: SlotCoord)
    requires
        horizontal_neighbours(from, to),
    ensures
        loc == boundary_between(from, to),
{
    if from.z == to.z && to.x > from.x {
        SlotCoord { cube: to, slot: Slot::XLoWall }
    } else if from.z == to.z {
        SlotCoord { cube: from, slot: Slot::XLoWall }
    } else if to.z > from.z {
        SlotCoord { cube: to, slot: Slot::ZLoWall }
    } else {
        SlotCoord { cube: from, slot: Slot::ZLoWall }
    }
}

/// The nav of whatever structure occupies `loc`, or fully open when the slot
/// is empty. `navs[k]` is the nav of structure kind `k`.
pub open spec fn occupant_nav(contents: Sparse3D<Cell>, navs: Seq<NodeNav>, loc: SlotCoord) -> NodeNav {
    match contents.at(loc) {
        Some(c) => navs[c.id.0 as int],
        None => NodeNav::Passable(1),
    }
}

/// Every cell names a structure kind that `navs` covers.
pub open spec fn navs_cover(contents: Sparse3D<Cell>, navs: Seq<NodeNav>) -> bool {
    forall|k: int| 0 <= k < contents.entries().len() ==> (#[trigger] contents.entries()[k]).1.id.0 < navs.len()
}

fn nav_of(contents: &Sparse3D<Cell>, navs: &[NodeNav], loc: SlotCoord) -> (n: NodeNav)
    requires
        navs_cover(*contents, navs@),
    ensures
        n == occupant_nav(*contents, navs@, loc),
{
    proof {
        crate::sparse3d::lemma_slot_position(contents.entries(), loc);
    }
    match contents.get(loc) {
        Some(c) => navs[c.id.as_usize()],
        None => NodeNav::Passable(1),
    }
}

/// The cost of the face between two horizontal neighbours.
pub fn boundary_nav(contents: &Sparse3D<Cell>, navs: &[NodeNav], from: IVec3, to: IVec3) -> (n: NodeNav)
    requires
        horizontal_neighbours(from, to),
        navs_cover(*contents, navs@),
    ensures
        n == occupant_nav(*contents, navs@, boundary_between(from, to)),
{
    nav_of(contents, navs, horizontal_boundary_loc(from, to))
}

/// The cost of standing in room `cube`: impassable with nothing to stand on
/// (ground level, y = 0, or a floor), else the cost of what occupies the
/// room, fully open when empty.
pub open spec fn spec_room_nav(contents: Sparse3D<Cell>, navs: Seq<NodeNav>, cube: IVec3) -> NodeNav {
    if cube.y == 0 || contents.at(SlotCoord { cube, slot: Slot::Floor }) is Some {
        occupant_nav(contents, navs, SlotCoord { cube, slot: Slot::Room })
    } else {
        NodeNav::Impassable
    }
}

/// The cost of standing in room `cube` (see `spec_room_nav`).
pub fn room_nav(contents: &Sparse3D<Cell>, navs: &[NodeNav], cube: IVec3) -> (n: NodeNav)
    requires
        navs_cover(*contents, navs@),
    ensures
        n == spec_room_nav(*contents, navs@, cube),
{
    let grounded = cube.y == 0 || contents.get(SlotCoord { cube, slot: Slot::Floor }).is_some();
    if !grounded {
        return NodeNav::Impassable;
    }
    nav_of(contents, navs, SlotCoord { cube, slot: Slot::Room })
}

/// Maps world cubes to the doubled, non-negative coordinates of the
/// navigation grid: the room of local cube `l` at `2l + 1`, its low wall
/// faces at `2l` on their axis.
pub struct GridSpace {
    /// The world cube at local (0, 0, 0).
    pub origin: IVec3,
    /// Cubes covered per axis.
    pub dims: IVec3,
}

/// A point of the doubled grid.
#[derive(Clone, Copy, PartialEq, Eq, Debug, Structural)]
pub struct UVec3 {
    pub x: u32,
    pub y: u32,
    pub z: u32,
}

impl GridSpace {
    /// Cube dimensions small enough that doubled coordinates fit.
    pub open spec fn wf(&self) -> bool {
        &&& 0 <= self.dims.x < 0x4000_0000
        &&& 0 <= self.dims.y < 0x4000_0000
        &&& 0 <= self.dims.z < 0x4000_0000
    }

    /// The local coordinate of `cube`, when it lies within the grid.
    pub open spec fn spec_local(&self, cube: IVec3) -> Option<IVec3> {
        let l = IVec3 {
            x: (cube.x - self.origin.x) as i32,
            y: (cube.y - self.origin.y) as i32,
            z: (cube.z - self.origin.z) as i32,
        };
        if 0 <= cube.x - self.origin.x < self.dims.x
            && 0 <= cube.y - self.origin.y < self.dims.y
            && 0 <= cube.z - self.origin.z < self.dims.z {
            Some(l)
        } else {
            None
        }
    }

    pub fn local(&self, cube: IVec3) -> (r: Option<IVec3>)
        ensures
            r == self.spec_local(cube),
    {
        let lx = cube.x as i64 - self.origin.x as i64;
        let ly = cube.y as i64 - self.origin.y as i64;
        let lz = cube.z as i64 - self.origin.z as i64;
        if lx < 0 || ly < 0 || lz < 0 || lx >= self.dims.x as i64 || ly >= self.dims.y as i64 || lz >= self.dims.z as i64 {
            None
        } else {
            Some(IVec3 { x: lx as i32, y: ly as i32, z: lz as i32 })
        }
    }

    /// The node of the room of `cube`, when it lies within the grid.
    pub open spec fn room_node(&self, cube: IVec3) -> Option<UVec3> {
        match self.spec_local(cube) {
            Some(l) => Some(UVec3 { x: (2 * l.x + 1) as u32, y: (2 * l.y + 1) as u32, z: (2 * l.z + 1) as u32 }),
            None => None,
        }
    }

    /// The node of the wall or floor face `loc`, when its cube lies within
    /// the grid: one below the room node on the face's axis.
    pub open spec fn face_node(&self, loc: SlotCoord) -> Option<UVec3> {
        match self.spec_local(loc.cube) {
            Some(l) => Some(UVec3 {
                x: (2 * l.x + 1 - if loc.slot is XLoWall { 1int } else { 0 }) as u32,
                y: (2 * l.y + 1 - if loc.slot is Floor { 1int } else { 0 }) as u32,
                z: (2 * l.z + 1 - if loc.slot is ZLoWall { 1int } else { 0 }) as u32,
            }),
            None => None,
        }
    }

    /// The node of the room of `cube` (see `room_node`).
    pub fn room_doubled(&self, cube: IVec3) -> (r: Option<UVec3>)
        requires
            self.wf(),
        ensures
            r == self.room_node(cube),
    {
        match self.local(cube) {
            Some(l) => Some(UVec3 { x: (2 * l.x + 1) as u32, y: (2 * l.y + 1) as u32, z: (2 * l.z + 1) as u32 }),
            None => None,
        }
    }

    /// The world cube of a room node (odd on every axis); none for a face
    /// node.
    pub fn cube_of_room(&self, pos: UVec3) -> (r: Option<IVec3>)
        requires
            self.wf(),
            pos.x < 0x8000_0000,
            pos.y < 0x8000_0000,
            pos.z < 0x8000_0000,
            -0x4000_0000 <= self.origin.x < 0x4000_0000,
            -0x4000_0000 <= self.origin.y < 0x4000_0000,
            -0x4000_0000 <= self.origin.z < 0x4000_0000,
        ensures
            r == (if pos.x % 2 == 1 && pos.y % 2 == 1 && pos.z % 2 == 1 {
                Some(IVec3 {
                    x: ((pos.x - 1) / 2 + self.origin.x) as i32,
                    y: ((pos.y - 1) / 2 + self.origin.y) as i32,
                    z: ((pos.z - 1) / 2 + self.origin.z) as i32,
                })
            } else {
                None
            }),
    {
        if pos.x % 2 == 1 && pos.y % 2 == 1 && pos.z % 2 == 1 {
            Some(IVec3 {
                x: ((pos.x - 1) / 2) as i32 + self.origin.x,
                y: ((pos.y - 1) / 2) as i32 + self.origin.y,
                z: ((pos.z - 1) / 2) as i32 + self.origin.z,
            })
        } else {
            None
        }
    }

    /// The node of a wall or floor face: one below the room node on the
    /// face's axis.
    pub fn boundary_doubled(&self, loc: SlotCoord) -> (r: Option<UVec3>)
        requires
            self.wf(),
            !(loc.slot is Room),
        ensures
            r == self.face_node(loc),
    {
        let (ox, oy, oz): (i32, i32, i32) = match loc.slot {
            Slot::XLoWall => (1, 0, 0),
            Slot::Floor => (0, 1, 0),
            Slot::ZLoWall => (0, 0, 1),
            Slot::Room => (0, 0, 0),
        };
        match self.local(loc.cube) {
            Some(l) => Some(UVec3 {
                x: (2 * l.x + 1 - ox) as u32,
                y: (2 * l.y + 1 - oy) as u32,
                z: (2 * l.z + 1 - oz) as u32,
            }),
            None => None,
        }
    }

    /// The size of the doubled grid.
    pub fn dims_doubled(&self) -> (d: UVec3)
        requires
            self.wf(),
        ensures
            d == (UVec3 { x: (2 * self.dims.x) as u32, y: (2 * self.dims.y) as u32, z: (2 * self.dims.z) as u32 }),
    {
        UVec3 { x: (2 * self.dims.x) as u32, y: (2 * self.dims.y) as u32, z: (2 * self.dims.z) as u32 }
    }
}

/// The world box the navigation grid covers: the city's bounding box
/// `(min, max)`, stretched to include y = 0 and padded on every side.
pub fn grid_bounds(min: IVec3, max: IVec3) -> (b: (IVec3, IVec3))
    requires
        min.x > i32::MIN + GRID_PADDING,
        min.z > i32::MIN + GRID_PADDING,
        min.y > i32::MIN + GRID_PADDING,
        max.x < i32::MAX - GRID_PADDING,
        max.y < i32::MAX - GRID_PADDING,
        max.z < i32::MAX - GRID_PADDING,
    ensures
        b.0 == (IVec3 {
            x: (min.x - GRID_PADDING) as i32,
            y: ((if min.y < 0 { min.y as int } else { 0 }) - GRID_PADDING) as i32,
            z: (min.z - GRID_PADDING) as i32,
        }),
        b.1 == (IVec3 {
            x: (max.x + GRID_PADDING) as i32,
            y: ((if max.y > 0 { max.y as int } else { 0 }) + GRID_PADDING) as i32,
            z: (max.z + GRID_PADDING) as i32,
        }),
{
    let lo_y = if min.y < 0 { min.y } else { 0 };
    let hi_y = if max.y > 0 { max.y } else { 0 };
    (
        IVec3 { x: min.x - GRID_PADDING, y: lo_y - GRID_PADDING, z: min.z - GRID_PADDING },
        IVec3 { x: max.x + GRID_PADDING, y: hi_y + GRID_PADDING, z: max.z + GRID_PADDING },
    )
}


/// What a node of the navigation grid is set to: closed, open at a cost,
/// or a portal to node `to` (the other end of a flight of stairs), entered
/// at `cost`.
#[derive(Clone, Copy, PartialEq, Eq, Debug, Structural)]
pub enum GridNav {
    Impassable,
    Passable(u32),
    Portal { to: UVec3, cost: u32 },
}

pub open spec fn as_grid_nav(n: NodeNav) -> GridNav {
    match n {
        NodeNav::Impassable => GridNav::Impassable,
        NodeNav::Passable(c) => GridNav::Passable(c),
    }
}

fn to_grid_nav(n: NodeNav) -> (g: GridNav)
    ensures
        g == as_grid_nav(n),
{
    match n {
        NodeNav::Impassable => GridNav::Impassable,
        NodeNav::Passable(c) => GridNav::Passable(c),
    }
}

/// Setting node `pos` to `nav`, when there is such a node.
pub open spec fn node_write(pos: Option<UVec3>, nav: GridNav) -> Seq<(UVec3, GridNav)> {
    match pos {
        Some(p) => seq![(p, nav)],
        None => seq![],
    }
}

/// The cube one step from `c` along `d`.
pub open spec fn step(c: IVec3, d: IVec3) -> IVec3 {
    IVec3 { x: (c.x + d.x) as i32, y: (c.y + d.y) as i32, z: (c.z + d.z) as i32 }
}

/// The base settings for `cube`: its room node at the room's cost, and its
/// low x and z wall nodes at the cost of the face each shares with the
/// neighbour below it on that axis.
pub open spec fn base_writes(contents: Sparse3D<Cell>, navs: Seq<NodeNav>, space: GridSpace, cube: IVec3) -> Seq<(UVec3, GridNav)> {
    let xwall = SlotCoord { cube, slot: Slot::XLoWall };
    let zwall = SlotCoord { cube, slot: Slot::ZLoWall };
    node_write(space.room_node(cube), as_grid_nav(spec_room_nav(contents, navs, cube)))
        + node_write(space.face_node(xwall), as_grid_nav(occupant_nav(contents, navs, xwall)))
        + node_write(space.face_node(zwall), as_grid_nav(occupant_nav(contents, navs, zwall)))
}

/// Closing the face of `cube` towards `side`, unless `side` is the way the
/// stairs in it face.
pub open spec fn block_write(space: GridSpace, cube: IVec3, dir: IVec3, side: IVec3) -> Seq<(UVec3, GridNav)> {
    if side == dir {
        seq![]
    } else {
        node_write(space.face_node(boundary_between(cube, step(cube, side))), GridNav::Impassable)
    }
}

/// The four horizontal directions, in the order they are visited.
pub open spec fn side(k: int) -> IVec3 {
    if k == 0 {
        IVec3 { x: 1, y: 0, z: 0 }
    } else if k == 1 {
        IVec3 { x: -1i32, y: 0, z: 0 }
    } else if k == 2 {
        IVec3 { x: 0, y: 0, z: 1 }
    } else {
        IVec3 { x: 0, y: 0, z: -1i32 }
    }
}

/// Where stairs at `cube` facing `dir` lead: one step along `dir` and one
/// layer up.
pub open spec fn landing_of(cube: IVec3, dir: IVec3) -> IVec3 {
    step(step(cube, dir), IVec3 { x: 0, y: 1, z: 0 })
}

/// The portal settings of stairs at `cube` facing `dir`: when the stairs'
/// room and the landing's room are both open and the landing lies within
/// the grid, each room becomes a portal to the other, entered at its own
/// room cost.
pub open spec fn portal_writes(contents: Sparse3D<Cell>, navs: Seq<NodeNav>, space: GridSpace, cube: IVec3, dir: IVec3) -> Seq<(UVec3, GridNav)> {
    let landing = landing_of(cube, dir);
    match (space.room_node(cube), space.room_node(landing), spec_room_nav(contents, navs, cube), spec_room_nav(contents, navs, landing)) {
        (Some(rp), Some(lp), NodeNav::Passable(sc), NodeNav::Passable(lc)) =>
            seq![(rp, GridNav::Portal { to: lp, cost: sc }), (lp, GridNav::Portal { to: rp, cost: lc })],
        _ => seq![],
    }
}

/// The settings for stairs of kind `stairs` in the room of `cube`: every
/// horizontal face but the one the stairs face is closed, and the stairs
/// get their portal (see `portal_writes`). Nothing for any other cube.
pub open spec fn stairs_writes(contents: Sparse3D<Cell>, navs: Seq<NodeNav>, space: GridSpace, cube: IVec3, stairs: EorfId) -> Seq<(UVec3, GridNav)> {
    match contents.at(SlotCoord { cube, slot: Slot::Room }) {
        Some(cell) => if cell.id == stairs && space.room_node(cube) is Some {
            let dir = facing_dir(cell.facing);
            block_write(space, cube, dir, side(0)) + block_write(space, cube, dir, side(1))
                + block_write(space, cube, dir, side(2)) + block_write(space, cube, dir, side(3))
                + portal_writes(contents, navs, space, cube, dir)
        } else {
            seq![]
        },
        None => seq![],
    }
}

/// The two passes over the grid's cubes: the base settings, then the
/// settings of the stairs of the given kind.
pub enum NavPass {
    Base,
    Stairs(EorfId),
}

/// The settings one pass makes for `cube`.
pub open spec fn pass_writes(contents: Sparse3D<Cell>, navs: Seq<NodeNav>, space: GridSpace, pass: NavPass, cube: IVec3) -> Seq<(UVec3, GridNav)> {
    match pass {
        NavPass::Base => base_writes(contents, navs, space, cube),
        NavPass::Stairs(id) => stairs_writes(contents, navs, space, cube, id),
    }
}

/// The cube at offsets `(i, j, k)` from the grid's origin.
pub open spec fn cube_at(space: GridSpace, i: int, j: int, k: int) -> IVec3 {
    IVec3 { x: (space.origin.x + i) as i32, y: (space.origin.y + j) as i32, z: (space.origin.z + k) as i32 }
}

/// The settings `pass` makes for the first `n` cubes of the z row at
/// offsets `(i, j)`, in order.
pub open spec fn row_writes(contents: Sparse3D<Cell>, navs: Seq<NodeNav>, space: GridSpace, pass: NavPass, i: int, j: int, n: int) -> Seq<(UVec3, GridNav)>
    decreases n,
{
    if n <= 0 {
        seq![]
    } else {
        row_writes(contents, navs, space, pass, i, j, n - 1) + pass_writes(contents, navs, space, pass, cube_at(space, i, j, n - 1))
    }
}

/// The settings `pass` makes for the cubes of the first `n` rows of the
/// layer at x offset `i`.
pub open spec fn slab_writes(contents: Sparse3D<Cell>, navs: Seq<NodeNav>, space: GridSpace, pass: NavPass, i: int, n: int) -> Seq<(UVec3, GridNav)>
    decreases n,
{
    if n <= 0 {
        seq![]
    } else {
        slab_writes(contents, navs, space, pass, i, n - 1) + row_writes(contents, navs, space, pass, i, n - 1, space.dims.z as int)
    }
}

/// The settings `pass` makes for the cubes of the first `n` x layers of
/// the grid: over x, then y, then z, each ascending.
pub open spec fn box_writes(contents: Sparse3D<Cell>, navs: Seq<NodeNav>, space: GridSpace, pass: NavPass, n: int) -> Seq<(UVec3, GridNav)>
    decreases n,
{
    if n <= 0 {
        seq![]
    } else {
        box_writes(contents, navs, space, pass, n - 1) + slab_writes(contents, navs, space, pass, n - 1, space.dims.y as int)
    }
}

/// The settings that build the navigation grid, in order (a later setting
/// of a node replaces an earlier one): the base settings of every cube of
/// the grid, then, when there is a stairs kind, the stairs settings of
/// every cube.
pub open spec fn navigation_settings(contents: Sparse3D<Cell>, navs: Seq<NodeNav>, space: GridSpace, stairs: Option<EorfId>) -> Seq<(UVec3, GridNav)> {
    box_writes(contents, navs, space, NavPass::Base, space.dims.x as int)
        + match stairs {
            Some(id) => box_writes(contents, navs, space, NavPass::Stairs(id), space.dims.x as int),
            None => seq![],
        }
}

/// The grid's cubes and their neighbours, one step any way, have `i32`
/// coordinates.
pub open spec fn space_fits(space: GridSpace) -> bool {
    &&& space.wf()
    &&& i32::MIN + 1 < space.origin.x && space.origin.x + space.dims.x < i32::MAX - 1
    &&& i32::MIN + 1 < space.origin.y && space.origin.y + space.dims.y < i32::MAX - 1
    &&& i32::MIN + 1 < space.origin.z && space.origin.z + space.dims.z < i32::MAX - 1
}

fn push_node(out: &mut Vec<(UVec3, GridNav)>, pos: Option<UVec3>, nav: GridNav)
    ensures
        final(out)@ == old(out)@ + node_write(pos, nav),
{
    match pos {
        Some(p) => {
            out.push((p, nav));
        },
        None => {
            assert(old(out)@ + node_write(pos, nav) =~= old(out)@);
        },
    }
}

fn push_base(out: &mut Vec<(UVec3, GridNav)>, contents: &Sparse3D<Cell>, navs: &[NodeNav], space: &GridSpace, cube: IVec3)
    requires
        space_fits(*space),
        navs_cover(*contents, navs@),
        space.spec_local(cube) is Some,
    ensures
        final(out)@ == old(out)@ + base_writes(*contents, navs@, *space, cube),
{
    let ghost start = out@;
    let xwall = SlotCoord { cube, slot: Slot::XLoWall };
    let zwall = SlotCoord { cube, slot: Slot::ZLoWall };
    let r = room_nav(contents, navs, cube);
    push_node(out, space.room_doubled(cube), to_grid_nav(r));
    let xb = boundary_nav(contents, navs, IVec3 { x: cube.x - 1, y: cube.y, z: cube.z }, cube);
    push_node(out, space.boundary_doubled(xwall), to_grid_nav(xb));
    let zb = boundary_nav(contents, navs, IVec3 { x: cube.x, y: cube.y, z: cube.z - 1 }, cube);
    push_node(out, space.boundary_doubled(zwall), to_grid_nav(zb));
    proof {
        assert(out@ =~= start + base_writes(*contents, navs@, *space, cube));
    }
}

fn push_block(out: &mut Vec<(UVec3, GridNav)>, space: &GridSpace, cube: IVec3, dir: IVec3, side_dir: IVec3)
    requires
        space_fits(*space),
        space.spec_local(cube) is Some,
        side_dir.y == 0,
        (side_dir.x == 0 && (side_dir.z == 1 || side_dir.z == -1)) || (side_dir.z == 0 && (side_dir.x == 1 || side_dir.x == -1)),
    ensures
        final(out)@ == old(out)@ + block_write(*space, cube, dir, side_dir),
{
    if side_dir == dir {
        assert(old(out)@ + block_write(*space, cube, dir, side_dir) =~= old(out)@);
        return;
    }
    let next = IVec3 { x: cube.x + side_dir.x, y: cube.y, z: cube.z + side_dir.z };
    let loc = horizontal_boundary_loc(cube, next);
    push_node(out, space.boundary_doubled(loc), GridNav::Impassable);
}

fn push_stairs(out: &mut Vec<(UVec3, GridNav)>, contents: &Sparse3D<Cell>, navs: &[NodeNav], space: &GridSpace, cube: IVec3, stairs: EorfId)
    requires
        space_fits(*space),
        navs_cover(*contents, navs@),
        space.spec_local(cube) is Some,
    ensures
        final(out)@ == old(out)@ + stairs_writes(*contents, navs@, *space, cube, stairs),
{
    let ghost start = out@;
    proof {
        crate::sparse3d::lemma_slot_position(contents.entries(), SlotCoord { cube, slot: Slot::Room });
    }
    let cell = match contents.get(SlotCoord { cube, slot: Slot::Room }) {
        Some(c) => *c,
        None => {
            assert(start + stairs_writes(*contents, navs@, *space, cube, stairs) =~= start);
            return;
        },
    };
    let room_pos = space.room_doubled(cube);
    if cell.id != stairs || room_pos.is_none() {
        assert(start + stairs_writes(*contents, navs@, *space, cube, stairs) =~= start);
        return;
    }
    let dir = facing_horizontal_dir(cell.facing);
    push_block(out, space, cube, dir, IVec3 { x: 1, y: 0, z: 0 });
    push_block(out, space, cube, dir, IVec3 { x: -1, y: 0, z: 0 });
    push_block(out, space, cube, dir, IVec3 { x: 0, y: 0, z: 1 });
    push_block(out, space, cube, dir, IVec3 { x: 0, y: 0, z: -1 });
    let ghost mid = out@;
    let landing = IVec3 { x: cube.x + dir.x, y: cube.y + 1, z: cube.z + dir.z };
    let here = room_nav(contents, navs, cube);
    let there = room_nav(contents, navs, landing);
    let landing_pos = space.room_doubled(landing);
    match (room_pos, landing_pos, here, there) {
        (Some(rp), Some(lp), NodeNav::Passable(sc), NodeNav::Passable(lc)) => {
            out.push((rp, GridNav::Portal { to: lp, cost: sc }));
            out.push((lp, GridNav::Portal { to: rp, cost: lc }));
        },
        _ => {},
    }
    proof {
        assert(landing == landing_of(cube, dir));
        assert(out@ =~= mid + portal_writes(*contents, navs@, *space, cube, dir));
        assert(out@ =~= start + stairs_writes(*contents, navs@, *space, cube, stairs));
    }
}

/// The settings that build the navigation grid of `space` over `contents`
/// (see `navigation_settings`); `navs[k]` is the cost of crossing
/// structure kind `k`, and `stairs` the stairs kind, if the catalogue has
/// one.
pub fn navigation_grid_settings(
    contents: &Sparse3D<Cell>,
    navs: &[NodeNav],
    space: &GridSpace,
    stairs: Option<EorfId>,
) -> (settings: Vec<(UVec3, GridNav)>)
    requires
        space_fits(*space),
        navs_cover(*contents, navs@),
    ensures
        settings@ == navigation_settings(*contents, navs@, *space, stairs),
{
    let mut out: Vec<(UVec3, GridNav)> = Vec::new();
    let dx = space.dims.x;
    let dy = space.dims.y;
    let dz = space.dims.z;
    let mut i: i32 = 0;
    while i < dx
        invariant
            space_fits(*space),
            navs_cover(*contents, navs@),
            dx == space.dims.x && dy == space.dims.y && dz == space.dims.z,
            0 <= i <= dx,
            out@ == box_writes(*contents, navs@, *space, NavPass::Base, i as int),
        decreases dx - i,
    {
        let mut j: i32 = 0;
        while j < dy
            invariant
                space_fits(*space),
                navs_cover(*contents, navs@),
                dx == space.dims.x && dy == space.dims.y && dz == space.dims.z,
                0 <= i < dx,
                0 <= j <= dy,
                out@ == box_writes(*contents, navs@, *space, NavPass::Base, i as int) + slab_writes(*contents, navs@, *space, NavPass::Base, i as int, j as int),
            decreases dy - j,
        {
            let mut k: i32 = 0;
            while k < dz
                invariant
                    space_fits(*space),
                    navs_cover(*contents, navs@),
                    dx == space.dims.x && dy == space.dims.y && dz == space.dims.z,
                    0 <= i < dx,
                    0 <= j < dy,
                    0 <= k <= dz,
                    out@ == box_writes(*contents, navs@, *space, NavPass::Base, i as int) + slab_writes(*contents, navs@, *space, NavPass::Base, i as int, j as int)
                        + row_writes(*contents, navs@, *space, NavPass::Base, i as int, j as int, k as int),
                decreases dz - k,
            {
                let cube = IVec3 { x: space.origin.x + i, y: space.origin.y + j, z: space.origin.z + k };
                let ghost before = out@;
                push_base(&mut out, contents, navs, space, cube);
                proof {
                    assert(cube == cube_at(*space, i as int, j as int, k as int));
                    assert(row_writes(*contents, navs@, *space, NavPass::Base, i as int, j as int, k + 1)
                        == row_writes(*contents, navs@, *space, NavPass::Base, i as int, j as int, k as int) + base_writes(*contents, navs@, *space, cube));
                    assert(out@ =~= box_writes(*contents, navs@, *space, NavPass::Base, i as int) + slab_writes(*contents, navs@, *space, NavPass::Base, i as int, j as int)
                        + row_writes(*contents, navs@, *space, NavPass::Base, i as int, j as int, k + 1));
                }
                k += 1;
            }
            proof {
                assert(out@ =~= box_writes(*contents, navs@, *space, NavPass::Base, i as int) + slab_writes(*contents, navs@, *space, NavPass::Base, i as int, j + 1));
            }
            j += 1;
        }
        proof {
            assert(out@ =~= box_writes(*contents, navs@, *space, NavPass::Base, i + 1));
        }
        i += 1;
    }
    let ghost base_part = out@;
    match stairs {
        None => {
            proof {
                assert(out@ =~= navigation_settings(*contents, navs@, *space, stairs));
            }
            out
        },
        Some(id) => {
            let mut i: i32 = 0;
            proof {
                assert(out@ =~= base_part + box_writes(*contents, navs@, *space, NavPass::Stairs(id), 0));
            }
            while i < dx
                invariant
                    space_fits(*space),
                    navs_cover(*contents, navs@),
                    dx == space.dims.x && dy == space.dims.y && dz == space.dims.z,
                    0 <= i <= dx,
                    out@ == base_part + box_writes(*contents, navs@, *space, NavPass::Stairs(id), i as int),
                decreases dx - i,
            {
                let mut j: i32 = 0;
                while j < dy
                    invariant
                        space_fits(*space),
                        navs_cover(*contents, navs@),
                        dx == space.dims.x && dy == space.dims.y && dz == space.dims.z,
                        0 <= i < dx,
                        0 <= j <= dy,
                        out@ == base_part + box_writes(*contents, navs@, *space, NavPass::Stairs(id), i as int) + slab_writes(*contents, navs@, *space, NavPass::Stairs(id), i as int, j as int),
                    decreases dy - j,
                {
                    let mut k: i32 = 0;
                    while k < dz
                        invariant
                            space_fits(*space),
                            navs_cover(*contents, navs@),
                            dx == space.dims.x && dy == space.dims.y && dz == space.dims.z,
                            0 <= i < dx,
                            0 <= j < dy,
                            0 <= k <= dz,
                            out@ == base_part + box_writes(*contents, navs@, *space, NavPass::Stairs(id), i as int) + slab_writes(*contents, navs@, *space, NavPass::Stairs(id), i as int, j as int)
                                + row_writes(*contents, navs@, *space, NavPass::Stairs(id), i as int, j as int, k as int),
                        decreases dz - k,
                    {
                        let cube = IVec3 { x: space.origin.x + i, y: space.origin.y + j, z: space.origin.z + k };
                        push_stairs(&mut out, contents, navs, space, cube, id);
                        proof {
                            assert(cube == cube_at(*space, i as int, j as int, k as int));
                            assert(row_writes(*contents, navs@, *space, NavPass::Stairs(id), i as int, j as int, k + 1)
                                == row_writes(*contents, navs@, *space, NavPass::Stairs(id), i as int, j as int, k as int) + stairs_writes(*contents, navs@, *space, cube, id));
                            assert(out@ =~= base_part + box_writes(*contents, navs@, *space, NavPass::Stairs(id), i as int) + slab_writes(*contents, navs@, *space, NavPass::Stairs(id), i as int, j as int)
                                + row_writes(*contents, navs@, *space, NavPass::Stairs(id), i as int, j as int, k + 1));
                        }
                        k += 1;
                    }
                    proof {
                        assert(out@ =~= base_part + box_writes(*contents, navs@, *space, NavPass::Stairs(id), i as int) + slab_writes(*contents, navs@, *space, NavPass::Stairs(id), i as int, j + 1));
                    }
                    j += 1;
                }
                proof {
                    assert(out@ =~= base_part + box_writes(*contents, navs@, *space, NavPass::Stairs(id), i + 1));
                }
                i += 1;
            }
            out
        },
    }
}

/// `p` is a node of the doubled grid of `space`.
pub open spec fn in_grid(space: GridSpace, p: UVec3) -> bool {
    p.x < 2 * space.dims.x && p.y < 2 * space.dims.y && p.z < 2 * space.dims.z
}

/// Every setting among `s` is of a node of the grid, and every portal
/// leads to one.
pub open spec fn settings_in_grid(space: GridSpace, s: Seq<(UVec3, GridNav)>) -> bool {
    forall|k: int| 0 <= k < s.len() ==> in_grid(space, (#[trigger] s[k]).0)
        && (s[k].1 matches GridNav::Portal { to, .. } ==> in_grid(space, to))
}

proof fn lemma_in_grid_append(space: GridSpace, a: Seq<(UVec3, GridNav)>, b: Seq<(UVec3, GridNav)>)
    requires
        settings_in_grid(space, a),
        settings_in_grid(space, b),
    ensures
        settings_in_grid(space, a + b),
{
    assert forall|k: int| 0 <= k < (a + b).len() implies in_grid(space, (#[trigger] (a + b)[k]).0)
        && ((a + b)[k].1 matches GridNav::Portal { to, .. } ==> in_grid(space, to)) by {
        if k < a.len() {
            assert((a + b)[k] == a[k]);
        } else {
            assert((a + b)[k] == b[k - a.len()]);
        }
    }
}

proof fn lemma_node_in_grid(space: GridSpace, pos: Option<UVec3>, nav: GridNav)
    requires
        pos matches Some(p) ==> in_grid(space, p),
        nav matches GridNav::Portal { to, .. } ==> in_grid(space, to),
    ensures
        settings_in_grid(space, node_write(pos, nav)),
{
}

proof fn lemma_pass_in_grid(contents: Sparse3D<Cell>, navs: Seq<NodeNav>, space: GridSpace, pass: NavPass, cube: IVec3)
    requires
        space.wf(),
    ensures
        settings_in_grid(space, pass_writes(contents, navs, space, pass, cube)),
{
    let xwall = SlotCoord { cube, slot: Slot::XLoWall };
    let zwall = SlotCoord { cube, slot: Slot::ZLoWall };
    match pass {
        NavPass::Base => {
            lemma_node_in_grid(space, space.room_node(cube), as_grid_nav(spec_room_nav(contents, navs, cube)));
            lemma_node_in_grid(space, space.face_node(xwall), as_grid_nav(occupant_nav(contents, navs, xwall)));
            lemma_node_in_grid(space, space.face_node(zwall), as_grid_nav(occupant_nav(contents, navs, zwall)));
            lemma_in_grid_append(space,
                node_write(space.room_node(cube), as_grid_nav(spec_room_nav(contents, navs, cube))),
                node_write(space.face_node(xwall), as_grid_nav(occupant_nav(contents, navs, xwall))));
            lemma_in_grid_append(space,
                node_write(space.room_node(cube), as_grid_nav(spec_room_nav(contents, navs, cube)))
                    + node_write(space.face_node(xwall), as_grid_nav(occupant_nav(contents, navs, xwall))),
                node_write(space.face_node(zwall), as_grid_nav(occupant_nav(contents, navs, zwall))));
        },
        NavPass::Stairs(id) => {
            if let Some(cell) = contents.at(SlotCoord { cube, slot: Slot::Room }) {
                if cell.id == id && space.room_node(cube) is Some {
                    let dir = facing_dir(cell.facing);
                    let b0 = block_write(space, cube, dir, side(0));
                    let b1 = block_write(space, cube, dir, side(1));
                    let b2 = block_write(space, cube, dir, side(2));
                    let b3 = block_write(space, cube, dir, side(3));
                    let pw = portal_writes(contents, navs, space, cube, dir);
                    lemma_in_grid_append(space, b0, b1);
                    lemma_in_grid_append(space, b0 + b1, b2);
                    lemma_in_grid_append(space, b0 + b1 + b2, b3);
                    lemma_in_grid_append(space, b0 + b1 + b2 + b3, pw);
                }
            }
        },
    }
}

proof fn lemma_box_in_grid(contents: Sparse3D<Cell>, navs: Seq<NodeNav>, space: GridSpace, pass: NavPass, n: int)
    requires
        space.wf(),
    ensures
        settings_in_grid(space, box_writes(contents, navs, space, pass, n)),
    decreases n,
{
    if n > 0 {
        lemma_box_in_grid(contents, navs, space, pass, n - 1);
        lemma_slab_in_grid(contents, navs, space, pass, n - 1, space.dims.y as int);
        lemma_in_grid_append(space, box_writes(contents, navs, space, pass, n - 1),
            slab_writes(contents, navs, space, pass, n - 1, space.dims.y as int));
    }
}

proof fn lemma_slab_in_grid(contents: Sparse3D<Cell>, navs: Seq<NodeNav>, space: GridSpace, pass: NavPass, i: int, n: int)
    requires
        space.wf(),
    ensures
        settings_in_grid(space, slab_writes(contents, navs, space, pass, i, n)),
    decreases n,
{
    if n > 0 {
        lemma_slab_in_grid(contents, navs, space, pass, i, n - 1);
        lemma_row_in_grid(contents, navs, space, pass, i, n - 1, space.dims.z as int);
        lemma_in_grid_append(space, slab_writes(contents, navs, space, pass, i, n - 1),
            row_writes(contents, navs, space, pass, i, n - 1, space.dims.z as int));
    }
}

proof fn lemma_row_in_grid(contents: Sparse3D<Cell>, navs: Seq<NodeNav>, space: GridSpace, pass: NavPass, i: int, j: int, n: int)
    requires
        space.wf(),
    ensures
        settings_in_grid(space, row_writes(contents, navs, space, pass, i, j, n)),
    decreases n,
{
    if n > 0 {
        lemma_row_in_grid(contents, navs, space, pass, i, j, n - 1);
        lemma_pass_in_grid(contents, navs, space, pass, cube_at(space, i, j, n - 1));
        lemma_in_grid_append(space, row_writes(contents, navs, space, pass, i, j, n - 1),
            pass_writes(contents, navs, space, pass, cube_at(space, i, j, n - 1)));
    }
}

/// Building the navigation grid only ever sets nodes of the grid, and every
/// portal leads to a node of the grid.
pub proof fn lemma_settings_in_grid(contents: Sparse3D<Cell>, navs: Seq<NodeNav>, space: GridSpace, stairs: Option<EorfId>)
    requires
        space.wf(),
    ensures
        settings_in_grid(space, navigation_settings(contents, navs, space, stairs)),
{
    lemma_box_in_grid(contents, navs, space, NavPass::Base, space.dims.x as int);
    match stairs {
        Some(id) => {
            lemma_box_in_grid(contents, navs, space, NavPass::Stairs(id), space.dims.x as int);
            lemma_in_grid_append(space, box_writes(contents, navs, space, NavPass::Base, space.dims.x as int),
                box_writes(contents, navs, space, NavPass::Stairs(id), space.dims.x as int));
        },
        None => {
            assert(navigation_settings(contents, navs, space, stairs)
                =~= box_writes(contents, navs, space, NavPass::Base, space.dims.x as int));
        },
    }
}

/// A room node maps back to its cube: reading `room_doubled`'s node with
/// `cube_of_room` gives the cube again.
pub proof fn lemma_room_node_round_trip(space: GridSpace, cube: IVec3)
    requires
        space.wf(),
        space.spec_local(cube) is Some,
    ensures
        ({
            let l = space.spec_local(cube)->0;
            let pos = UVec3 { x: (2 * l.x + 1) as u32, y: (2 * l.y + 1) as u32, z: (2 * l.z + 1) as u32 };
            &&& pos.x % 2 == 1 && pos.y % 2 == 1 && pos.z % 2 == 1
            &&& (pos.x - 1) / 2 + space.origin.x == cube.x
            &&& (pos.y - 1) / 2 + space.origin.y == cube.y
            &&& (pos.z - 1) / 2 + space.origin.z == cube.z
        }),
{
}

/// Face nodes are never room nodes: a face node is even on its axis.
pub proof fn lemma_face_nodes_are_even(space: GridSpace, loc: SlotCoord)
    requires
        space.wf(),
        !(loc.slot is Room),
        space.spec_local(loc.cube) is Some,
    ensures
        ({
            let l = space.spec_local(loc.cube)->0;
            match loc.slot {
                Slot::XLoWall => (2 * l.x + 1 - 1) % 2 == 0,
                Slot::Floor => (2 * l.y + 1 - 1) % 2 == 0,
                _ => (2 * l.z + 1 - 1) % 2 == 0,
            }
        }),
{
}

} // verus!
