//! The saved-grid text format: each structure kind is written as one
//! character, chosen by whether it sits on an x wall or elsewhere.
use vstd::prelude::*;
use std::collections::HashMap;
use crate::eorf::{EorfId, EorfInfo};
use crate::decimal::{parse_i32, read_i32};
use crate::text::{decimal, push_char, push_decimal, push_str};
use crate::city::Cell;
use crate::materials::BuildMaterialId;
use crate::sparse3d::{Facing, IVec3, RelSlot, Slot, SlotCoord, Sparse3D};

verus! {

broadcast use vstd::std_specs::hash::group_hash_axioms;

/// Why a grid could not be written or read.
#[derive(Clone, Copy, PartialEq, Eq, Debug, Structural)]
pub enum SerializationError {
    /// A cell names a structure kind the catalogue does not have.
    StructureNotFound(EorfId),
    /// A character in the text stands for no structure kind.
    UnknownCharacter(char),
    /// The upper line of a row (at this line index) holds a `#` or `|`.
    InvalidUpperLine(usize),
    /// The lower line of a row (at this line index) holds a `V` or `-`.
    InvalidLowerLine(usize),
    /// A detail line has no `=`, or fewer than four fields before it.
    InvalidDetailLine,
    /// A detail line's cube coordinate is not an integer.
    InvalidCoordinate,
}

/// The character a structure kind is written as in `slot`: its x-wall
/// character on x walls, its other character everywhere else, a space where
/// it has none.
pub open spec fn slot_char(info: EorfInfo, slot: RelSlot) -> char {
    let c = match slot {
        RelSlot::XLoWall | RelSlot::XHiWall => info.x_char,
        _ => info.z_char,
    };
    match c {
        Some(ch) => ch,
        None => ' ',
    }
}

/// Writes structure kind `id` in `slot` as one character; fails when the
/// catalogue has no kind `id`.
pub fn serialize_slot(id: EorfId, slot: RelSlot, structures: &[EorfInfo]) -> (r: Result<char, SerializationError>)
    ensures
        match r {
            Ok(ch) => id.0 < structures@.len() && ch == slot_char(structures@[id.0 as int], slot),
            Err(e) => id.0 >= structures@.len() && e == SerializationError::StructureNotFound(id),
        },
{
    let i = id.as_usize();
    if i >= structures.len() {
        return Err(SerializationError::StructureNotFound(id));
    }
    let info = &structures[i];
    let c = match slot {
        RelSlot::XLoWall | RelSlot::XHiWall => info.x_char,
        _ => info.z_char,
    };
    let ch = match c {
        Some(ch) => ch,
        None => ' ',
    };
    Ok(ch)
}

/// Reads a character back as the structure kind it stands for; the table
/// is keyed by the character's code point.
pub fn deserialize(c: char, structures: &HashMap<u32, EorfId>) -> (r: Result<EorfId, SerializationError>)
    ensures
        match r {
            Ok(id) => structures@.contains_key(c as u32) && structures@[c as u32] == id,
            Err(e) => !structures@.contains_key(c as u32) && e == SerializationError::UnknownCharacter(c),
        },
{
    let key: u32 = c as u32;
    match structures.get(&key) {
        Some(id) => Ok(*id),
        None => Err(SerializationError::UnknownCharacter(c)),
    }
}


/// The relative slot a stored slot is written as.
pub open spec fn rel_of(slot: Slot) -> RelSlot {
    match slot {
        Slot::Room => RelSlot::Room,
        Slot::XLoWall => RelSlot::XLoWall,
        Slot::ZLoWall => RelSlot::ZLoWall,
        Slot::Floor => RelSlot::Floor,
    }
}

/// The character written for `slot` of `cube`: its structure's character,
/// a space when the slot is empty.
pub open spec fn enc(g: Sparse3D<Cell>, structures: Seq<EorfInfo>, cube: IVec3, slot: Slot) -> char {
    match g.at(SlotCoord { cube, slot }) {
        Some(c) => slot_char(structures[c.id.0 as int], rel_of(slot)),
        None => ' ',
    }
}

/// One written line of the row of cubes `(min.x.., y, z)`, `w` cubes wide:
/// the upper line holds each cube's room and z-wall characters, the lower
/// its x-wall and floor characters.
pub open spec fn row_line(g: Sparse3D<Cell>, structures: Seq<EorfInfo>, min_x: int, w: int, y: int, z: int, upper: bool) -> Seq<char> {
    Seq::new((2 * w) as nat, |k: int| {
        let cube = IVec3 { x: (min_x + k / 2) as i32, y: y as i32, z: z as i32 };
        if upper {
            if k % 2 == 0 { enc(g, structures, cube, Slot::Room) } else { enc(g, structures, cube, Slot::ZLoWall) }
        } else {
            if k % 2 == 0 { enc(g, structures, cube, Slot::XLoWall) } else { enc(g, structures, cube, Slot::Floor) }
        }
    })
}

/// The lines of the first `n` rows (by z from `min.z`) of layer `y`.
pub open spec fn layer_lines(g: Sparse3D<Cell>, structures: Seq<EorfInfo>, min: IVec3, w: int, y: int, n: int) -> Seq<Seq<char>>
    decreases n,
{
    if n <= 0 {
        seq![]
    } else {
        layer_lines(g, structures, min, w, y, n - 1)
            + seq![row_line(g, structures, min.x as int, w, y, min.z + n - 1, true), row_line(g, structures, min.x as int, w, y, min.z + n - 1, false)]
    }
}

/// The line ending a layer.
pub open spec fn layer_end() -> Seq<char> {
    seq!['~', '~', '~', '~', '~']
}

/// The line ending the grid part of a saved grid.
pub open spec fn grid_end() -> Seq<char> {
    seq!['~', '*', '~', '*', '~']
}

/// The lines of the first `n` layers (by y from `min.y`) of the box from
/// `min` to `max`, each layer closed by its end line.
pub open spec fn layers_upto(g: Sparse3D<Cell>, structures: Seq<EorfInfo>, min: IVec3, max: IVec3, n: int) -> Seq<Seq<char>>
    decreases n,
{
    if n <= 0 {
        seq![]
    } else {
        layers_upto(g, structures, min, max, n - 1)
            + layer_lines(g, structures, min, max.x - min.x + 1, min.y + n - 1, max.z - min.z + 1)
            + seq![layer_end()]
    }
}

/// The smallest and largest coordinates of the cubes of `entries`, axis by
/// axis, when there are any.
pub open spec fn box_of<T>(entries: Seq<(SlotCoord, T)>) -> Option<(IVec3, IVec3)>
    decreases entries.len(),
{
    if entries.len() == 0 {
        None
    } else {
        let c = entries.last().0.cube;
        match box_of(entries.drop_last()) {
            None => Some((c, c)),
            Some((lo, hi)) => Some((
                IVec3 {
                    x: if c.x < lo.x { c.x } else { lo.x },
                    y: if c.y < lo.y { c.y } else { lo.y },
                    z: if c.z < lo.z { c.z } else { lo.z },
                },
                IVec3 {
                    x: if c.x > hi.x { c.x } else { hi.x },
                    y: if c.y > hi.y { c.y } else { hi.y },
                    z: if c.z > hi.z { c.z } else { hi.z },
                },
            )),
        }
    }
}

/// The written lines of a grid: its bounding box layer by layer, then the
/// end of the grid part. An empty grid is just the end line.
pub open spec fn grid_lines(g: Sparse3D<Cell>, structures: Seq<EorfInfo>) -> Seq<Seq<char>> {
    match box_of(g.entries()) {
        Some((min, max)) => layers_upto(g, structures, min, max, max.y - min.y + 1) + seq![grid_end()],
        None => seq![grid_end()],
    }
}

/// Every cell of `g` names a structure kind of `structures`.
pub open spec fn cells_known(g: Sparse3D<Cell>, structures: Seq<EorfInfo>) -> bool {
    forall|k: int| 0 <= k < g.entries().len() ==> (#[trigger] g.entries()[k]).1.id.0 < structures.len()
}

/// The bounding box of the grid's cubes, when it has any.
pub fn bounding_box(g: &Sparse3D<Cell>) -> (b: Option<(IVec3, IVec3)>)
    ensures
        b == box_of(g.entries()),
{
    let n = g.size();
    let mut b: Option<(IVec3, IVec3)> = None;
    let mut i: usize = 0;
    while i < n
        invariant
            i <= n,
            n == g.entries().len(),
            b == box_of(g.entries().take(i as int)),
        decreases n - i,
    {
        proof {
            assert(g.entries().take(i + 1).drop_last() =~= g.entries().take(i as int));
        }
        let (loc, _) = g.entry(i);
        let c = loc.cube;
        b = match b {
            None => Some((c, c)),
            Some((lo, hi)) => Some((
                IVec3 {
                    x: if c.x < lo.x { c.x } else { lo.x },
                    y: if c.y < lo.y { c.y } else { lo.y },
                    z: if c.z < lo.z { c.z } else { lo.z },
                },
                IVec3 {
                    x: if c.x > hi.x { c.x } else { hi.x },
                    y: if c.y > hi.y { c.y } else { hi.y },
                    z: if c.z > hi.z { c.z } else { hi.z },
                },
            )),
        };
        i += 1;
    }
    proof {
        assert(g.entries().take(n as int) =~= g.entries());
    }
    b
}

proof fn lemma_box_of<T>(entries: Seq<(SlotCoord, T)>)
    ensures
        match box_of(entries) {
            Some((lo, hi)) => forall|k: int| 0 <= k < entries.len() ==> {
                let c = (#[trigger] entries[k]).0.cube;
                lo.x <= c.x <= hi.x && lo.y <= c.y <= hi.y && lo.z <= c.z <= hi.z
            },
            None => entries.len() == 0,
        },
    decreases entries.len(),
{
    if entries.len() > 0 {
        lemma_box_of(entries.drop_last());
        if let Some((lo, hi)) = box_of(entries) {
            assert forall|k: int| 0 <= k < entries.len() implies {
                let c = (#[trigger] entries[k]).0.cube;
                lo.x <= c.x <= hi.x && lo.y <= c.y <= hi.y && lo.z <= c.z <= hi.z
            } by {
                if k < entries.len() - 1 {
                    assert(entries.drop_last()[k] == entries[k]);
                }
            }
        }
    }
}

fn encode_at(g: &Sparse3D<Cell>, structures: &[EorfInfo], cube: IVec3, slot: Slot) -> (ch: char)
    requires
        cells_known(*g, structures@),
    ensures
        ch == enc(*g, structures@, cube, slot),
{
    let loc = SlotCoord { cube, slot };
    proof {
        crate::sparse3d::lemma_slot_position(g.entries(), loc);
    }
    match g.get(loc) {
        Some(c) => {
            let rel = match slot {
                Slot::Room => RelSlot::Room,
                Slot::XLoWall => RelSlot::XLoWall,
                Slot::ZLoWall => RelSlot::ZLoWall,
                Slot::Floor => RelSlot::Floor,
            };
            match serialize_slot(c.id, rel, structures) {
                Ok(ch) => ch,
                Err(_) => ' ',
            }
        },
        None => ' ',
    }
}

fn write_row(g: &Sparse3D<Cell>, structures: &[EorfInfo], min_x: i32, w: u32, y: i32, z: i32, upper: bool) -> (line: Vec<char>)
    requires
        cells_known(*g, structures@),
        min_x + w <= i32::MAX + 1,
    ensures
        line@ == row_line(*g, structures@, min_x as int, w as int, y as int, z as int, upper),
{
    let mut line: Vec<char> = Vec::new();
    let mut i: u32 = 0;
    while i < w
        invariant
            i <= w,
            min_x + w <= i32::MAX + 1,
            cells_known(*g, structures@),
            line@ == row_line(*g, structures@, min_x as int, w as int, y as int, z as int, upper).take(2 * i),
        decreases w - i,
    {
        let cube = IVec3 { x: (min_x as i64 + i as i64) as i32, y, z };
        let (a, b) = if upper { (Slot::Room, Slot::ZLoWall) } else { (Slot::XLoWall, Slot::Floor) };
        let ca = encode_at(g, structures, cube, a);
        let cb = encode_at(g, structures, cube, b);
        line.push(ca);
        line.push(cb);
        proof {
            let full = row_line(*g, structures@, min_x as int, w as int, y as int, z as int, upper);
            assert((2 * i) / 2 == i && (2 * i) % 2 == 0);
            assert((2 * i + 1) / 2 == i && (2 * i + 1) % 2 == 1);
            assert(full.take(2 * i + 2) =~= full.take(2 * i).push(full[2 * i]).push(full[2 * i + 1]));
        }
        i += 1;
    }
    proof {
        let full = row_line(*g, structures@, min_x as int, w as int, y as int, z as int, upper);
        assert(full.take(2 * w) =~= full);
    }
    line
}

/// The box of `g` is small enough to write: every side shorter than 2^30
/// cubes.
pub open spec fn box_writable(g: Sparse3D<Cell>) -> bool {
    box_of(g.entries()) matches Some((lo, hi)) ==>
        hi.x - lo.x < 0x4000_0000 && hi.y - lo.y < 0x4000_0000 && hi.z - lo.z < 0x4000_0000
}

/// Writes the grid part of a saved grid as lines: for each layer of the
/// bounding box from the lowest up, each row from the lowest z, an upper and
/// a lower line (see `row_line`), then the layer's end line; finally the
/// grid part's end line.
pub fn write_grid_lines(g: &Sparse3D<Cell>, structures: &[EorfInfo]) -> (lines: Vec<Vec<char>>)
    requires
        cells_known(*g, structures@),
        box_writable(*g),
    ensures
        lines@.map_values(|l: Vec<char>| l@) == grid_lines(*g, structures@),
{
    let mut lines: Vec<Vec<char>> = Vec::new();
    match bounding_box(g) {
        None => {},
        Some((min, max)) => {
            proof {
                lemma_box_of(g.entries());
            }
            let w: u32 = (max.x as i64 - min.x as i64 + 1) as u32;
            let h: i64 = max.y as i64 - min.y as i64 + 1;
            let d: i64 = max.z as i64 - min.z as i64 + 1;
            let mut yi: i64 = 0;
            while yi < h
                invariant
                    0 <= yi <= h,
                    h == max.y - min.y + 1,
                    d == max.z - min.z + 1,
                    w == max.x - min.x + 1,
                    min.x <= max.x,
                    min.y <= max.y,
                    min.z <= max.z,
                    cells_known(*g, structures@),
                    lines@.map_values(|l: Vec<char>| l@) == layers_upto(*g, structures@, min, max, yi as int),
                decreases h - yi,
            {
                let y: i32 = (min.y as i64 + yi) as i32;
                let ghost before = lines@.map_values(|l: Vec<char>| l@);
                let mut zi: i64 = 0;
                while zi < d
                    invariant
                        0 <= zi <= d,
                        d == max.z - min.z + 1,
                        w == max.x - min.x + 1,
                        min.x <= max.x,
                        min.z <= max.z,
                        y == min.y + yi,
                        cells_known(*g, structures@),
                        lines@.map_values(|l: Vec<char>| l@)
                            == before + layer_lines(*g, structures@, min, w as int, y as int, zi as int),
                    decreases d - zi,
                {
                    let z: i32 = (min.z as i64 + zi) as i32;
                    let upper = write_row(g, structures, min.x, w, y, z, true);
                    let lower = write_row(g, structures, min.x, w, y, z, false);
                    let ghost pre = lines@;
                    lines.push(upper);
                    lines.push(lower);
                    proof {
                        assert(lines@.map_values(|l: Vec<char>| l@)
                            =~= pre.map_values(|l: Vec<char>| l@) + seq![
                                row_line(*g, structures@, min.x as int, w as int, y as int, z as int, true),
                                row_line(*g, structures@, min.x as int, w as int, y as int, z as int, false),
                            ]);
                    }
                    zi += 1;
                }
                let ghost pre = lines@;
                lines.push(vec!['~', '~', '~', '~', '~']);
                proof {
                    assert(lines@.map_values(|l: Vec<char>| l@) =~= pre.map_values(|l: Vec<char>| l@).push(layer_end()));
                    assert(layers_upto(*g, structures@, min, max, yi + 1)
                        =~= before + layer_lines(*g, structures@, min, w as int, y as int, d as int) + seq![layer_end()]);
                }
                yi += 1;
            }
        },
    }
    let ghost pre = lines@;
    lines.push(vec!['~', '*', '~', '*', '~']);
    proof {
        assert(lines@.map_values(|l: Vec<char>| l@) =~= pre.map_values(|l: Vec<char>| l@).push(grid_end()));
    }
    lines
}


/// `line` begins with `pre`.
pub open spec fn starts_with(line: Seq<char>, pre: Seq<char>) -> bool {
    pre.len() <= line.len() && line.take(pre.len() as int) == pre
}

/// Character `k` of `s` padded with spaces.
pub open spec fn pad_at(s: Seq<char>, k: int) -> char {
    if 0 <= k < s.len() { s[k] } else { ' ' }
}

/// The cell a read character stands for: its structure kind, facing the
/// default way, in the default build material.
pub open spec fn read_cell(id: EorfId) -> Cell {
    Cell { id, facing: Facing::NegX, build_material: BuildMaterialId(5) }
}

/// Records character `ch` for `loc`: a space records nothing; any other
/// character must stand for a structure kind.
pub open spec fn put(m: Result<Map<SlotCoord, EorfId>, SerializationError>, ch: char, loc: SlotCoord, table: Map<u32, EorfId>)
    -> Result<Map<SlotCoord, EorfId>, SerializationError>
{
    match m {
        Err(e) => Err(e),
        Ok(m) => if ch == ' ' {
            Ok(m)
        } else if table.contains_key(ch as u32) {
            Ok(m.insert(loc, table[ch as u32]))
        } else {
            Err(SerializationError::UnknownCharacter(ch))
        },
    }
}

/// Reads the first `n` cubes of a row from its upper and lower lines: for
/// cube `x`, the z wall, room, floor and x wall, in that order.
pub open spec fn row_cells(top: Seq<char>, bottom: Seq<char>, y: int, z: int, table: Map<u32, EorfId>, m: Map<SlotCoord, EorfId>, n: int)
    -> Result<Map<SlotCoord, EorfId>, SerializationError>
    decreases n,
{
    if n <= 0 {
        Ok(m)
    } else {
        let prev = row_cells(top, bottom, y, z, table, m, n - 1);
        let x = n - 1;
        let cube = IVec3 { x: x as i32, y: y as i32, z: z as i32 };
        put(put(put(put(prev,
            pad_at(top, 2 * x + 1), SlotCoord { cube, slot: Slot::ZLoWall }, table),
            pad_at(top, 2 * x), SlotCoord { cube, slot: Slot::Room }, table),
            pad_at(bottom, 2 * x + 1), SlotCoord { cube, slot: Slot::Floor }, table),
            pad_at(bottom, 2 * x), SlotCoord { cube, slot: Slot::XLoWall }, table)
    }
}

/// Reads the grid part of saved lines from line `i`, at layer `y` and row
/// `z`, with `m` read so far: a layer's end line moves to the next layer; the
/// grid part's end line (or the end of the lines) stops, giving what was read
/// and where reading stopped; any other line and the one after it (or an
/// empty one) are a row's upper and lower lines. An upper line may not hold
/// `#` or `|`, a lower one `V` or `-`.
pub open spec fn parse_from(lines: Seq<Seq<char>>, table: Map<u32, EorfId>, i: int, y: int, z: int, m: Map<SlotCoord, EorfId>)
    -> Result<(Map<SlotCoord, EorfId>, int), SerializationError>
    decreases lines.len() + 1 - i,
{
    if i >= lines.len() || i < 0 {
        Ok((m, lines.len() as int))
    } else if starts_with(lines[i], layer_end()) {
        parse_from(lines, table, i + 1, y + 1, 0, m)
    } else if starts_with(lines[i], grid_end()) {
        Ok((m, i + 1))
    } else {
        let top = lines[i];
        let bottom = if i + 1 < lines.len() { lines[i + 1] } else { Seq::<char>::empty() };
        if top.contains('#') || top.contains('|') {
            Err(SerializationError::InvalidUpperLine(i as usize))
        } else if bottom.contains('V') || bottom.contains('-') {
            Err(SerializationError::InvalidLowerLine((i + 1) as usize))
        } else {
            let w = if top.len() >= bottom.len() { top.len() } else { bottom.len() };
            match row_cells(top, bottom, y, z, table, m, w as int / 2) {
                Err(e) => Err(e),
                Ok(m2) => parse_from(lines, table, i + 2, y, z + 1, m2),
            }
        }
    }
}

/// `g` holds exactly the cells that `m` records.
pub open spec fn grid_holds(g: Sparse3D<Cell>, m: Map<SlotCoord, EorfId>) -> bool {
    &&& g.wf()
    &&& forall|loc: SlotCoord| #[trigger] g.at(loc) == (if m.contains_key(loc) { Some(read_cell(m[loc])) } else { None })
}

fn line_starts_with(line: &Vec<char>, pre: &Vec<char>) -> (b: bool)
    ensures
        b == starts_with(line@, pre@),
{
    if pre.len() > line.len() {
        return false;
    }
    let mut k: usize = 0;
    while k < pre.len()
        invariant
            k <= pre@.len(),
            pre@.len() <= line@.len(),
            forall|j: int| 0 <= j < k ==> line@[j] == pre@[j],
        decreases pre@.len() - k,
    {
        if line[k] != pre[k] {
            return false;
        }
        k += 1;
    }
    proof {
        assert(line@.take(pre@.len() as int) =~= pre@);
    }
    true
}

fn line_contains(line: &Vec<char>, c: char) -> (b: bool)
    ensures
        b == line@.contains(c),
{
    let mut k: usize = 0;
    while k < line.len()
        invariant
            k <= line@.len(),
            forall|j: int| 0 <= j < k ==> line@[j] != c,
        decreases line@.len() - k,
    {
        if line[k] == c {
            return true;
        }
        k += 1;
    }
    false
}

fn char_at(s: &Vec<char>, k: usize) -> (c: char)
    ensures
        c == pad_at(s@, k as int),
{
    if k < s.len() { s[k] } else { ' ' }
}

fn put_exec(g: &mut Sparse3D<Cell>, ch: char, loc: SlotCoord, table: &HashMap<u32, EorfId>, m: Ghost<Map<SlotCoord, EorfId>>)
    -> (r: Result<Ghost<Map<SlotCoord, EorfId>>, SerializationError>)
    requires
        grid_holds(*old(g), m@),
    ensures
        match put(Ok(m@), ch, loc, table@) {
            Ok(m2) => r matches Ok(gm) && gm@ == m2 && grid_holds(*final(g), m2),
            Err(e) => r == Err::<Ghost<Map<SlotCoord, EorfId>>, SerializationError>(e),
        },
{
    if ch == ' ' {
        return Ok(m);
    }
    match deserialize(ch, table) {
        Ok(id) => {
            g.set(loc, Cell { id, facing: Facing::NegX, build_material: BuildMaterialId(5) });
            let ghost m2 = m@.insert(loc, id);
            proof {
                assert forall|l: SlotCoord| #[trigger] g.at(l) == (if m2.contains_key(l) { Some(read_cell(m2[l])) } else { None }) by {
                    if l != loc {
                        assert(old(g).at(l) == g.at(l));
                    }
                }
            }
            Ok(Ghost(m2))
        },
        Err(e) => Err(e),
    }
}

fn read_row(g: &mut Sparse3D<Cell>, top: &Vec<char>, bottom: &Vec<char>, y: i32, z: i32, table: &HashMap<u32, EorfId>, m: Ghost<Map<SlotCoord, EorfId>>)
    -> (r: Result<Ghost<Map<SlotCoord, EorfId>>, SerializationError>)
    requires
        grid_holds(*old(g), m@),
        top@.len() < i32::MAX,
        bottom@.len() < i32::MAX,
    ensures
        match row_cells(top@, bottom@, y as int, z as int, table@, m@,
            (if top@.len() >= bottom@.len() { top@.len() } else { bottom@.len() }) as int / 2) {
            Ok(m2) => r matches Ok(gm) && gm@ == m2 && grid_holds(*final(g), m2),
            Err(e) => r == Err::<Ghost<Map<SlotCoord, EorfId>>, SerializationError>(e),
        },
{
    let w: usize = if top.len() >= bottom.len() { top.len() } else { bottom.len() };
    let n: usize = w / 2;
    let mut cur: Ghost<Map<SlotCoord, EorfId>> = m;
    let mut x: usize = 0;
    while x < n
        invariant
            x <= n,
            n == w / 2,
            w == (if top@.len() >= bottom@.len() { top@.len() } else { bottom@.len() }),
            w < i32::MAX,
            grid_holds(*g, cur@),
            row_cells(top@, bottom@, y as int, z as int, table@, m@, x as int) == Ok::<Map<SlotCoord, EorfId>, SerializationError>(cur@),
        decreases n - x,
    {
        let cube = IVec3 { x: x as i32, y, z };
        let c1 = char_at(top, 2 * x + 1);
        let c2 = char_at(top, 2 * x);
        let c3 = char_at(bottom, 2 * x + 1);
        let c4 = char_at(bottom, 2 * x);
        let ghost m0 = cur@;
        let ghost n_int = n as int;
        let r1 = put_exec(g, c1, SlotCoord { cube, slot: Slot::ZLoWall }, table, cur);
        let g1 = match r1 {
            Ok(v) => v,
            Err(e) => {
                proof {
                    lemma_row_err_stable(top@, bottom@, y as int, z as int, table@, m@, x + 1, n_int);
                }
                return Err(e);
            },
        };
        let r2 = put_exec(g, c2, SlotCoord { cube, slot: Slot::Room }, table, g1);
        let g2 = match r2 {
            Ok(v) => v,
            Err(e) => {
                proof {
                    lemma_row_err_stable(top@, bottom@, y as int, z as int, table@, m@, x + 1, n_int);
                }
                return Err(e);
            },
        };
        let r3 = put_exec(g, c3, SlotCoord { cube, slot: Slot::Floor }, table, g2);
        let g3 = match r3 {
            Ok(v) => v,
            Err(e) => {
                proof {
                    lemma_row_err_stable(top@, bottom@, y as int, z as int, table@, m@, x + 1, n_int);
                }
                return Err(e);
            },
        };
        let r4 = put_exec(g, c4, SlotCoord { cube, slot: Slot::XLoWall }, table, g3);
        let g4 = match r4 {
            Ok(v) => v,
            Err(e) => {
                proof {
                    lemma_row_err_stable(top@, bottom@, y as int, z as int, table@, m@, x + 1, n_int);
                }
                return Err(e);
            },
        };
        cur = g4;
        x += 1;
    }
    Ok(cur)
}

proof fn lemma_row_err_stable(top: Seq<char>, bottom: Seq<char>, y: int, z: int, table: Map<u32, EorfId>, m: Map<SlotCoord, EorfId>, k: int, n: int)
    requires
        0 <= k <= n,
        row_cells(top, bottom, y, z, table, m, k) is Err,
    ensures
        row_cells(top, bottom, y, z, table, m, n) == row_cells(top, bottom, y, z, table, m, k),
    decreases n - k,
{
    if k < n {
        lemma_row_err_stable(top, bottom, y, z, table, m, k, n - 1);
    }
}

/// Reads the grid part of saved lines (see `parse_from`), giving the grid
/// read and the index of the first line after it.
pub fn read_grid_lines(lines: &Vec<Vec<char>>, table: &HashMap<u32, EorfId>) -> (r: Result<(Sparse3D<Cell>, usize), SerializationError>)
    requires
        lines@.len() < i32::MAX,
        forall|k: int| 0 <= k < lines@.len() ==> (#[trigger] lines@[k])@.len() < i32::MAX,
    ensures
        match parse_from(lines@.map_values(|l: Vec<char>| l@), table@, 0, 0, 0, Map::empty()) {
            Ok((m, next)) => r matches Ok((g, n)) && grid_holds(g, m) && n == next,
            Err(e) => r matches Err(e2) && e2 == e,
        },
{
    let ghost ls = lines@.map_values(|l: Vec<char>| l@);
    let layer = vec!['~', '~', '~', '~', '~'];
    let end = vec!['~', '*', '~', '*', '~'];
    let empty: Vec<char> = Vec::new();
    let mut g: Sparse3D<Cell> = Sparse3D::new();
    let mut cur: Ghost<Map<SlotCoord, EorfId>> = Ghost(Map::empty());
    proof {
        assert forall|loc: SlotCoord| #[trigger] g.at(loc) == (if cur@.contains_key(loc) { Some(read_cell(cur@[loc])) } else { None }) by {}
    }
    let mut i: usize = 0;
    let mut y: i32 = 0;
    let mut z: i32 = 0;
    while i < lines.len()
        invariant
            ls == lines@.map_values(|l: Vec<char>| l@),
            lines@.len() < i32::MAX,
            forall|k: int| 0 <= k < lines@.len() ==> (#[trigger] lines@[k])@.len() < i32::MAX,
            layer@ == layer_end(),
            end@ == grid_end(),
            empty@.len() == 0,
            0 <= y <= i,
            0 <= z <= i,
            i <= lines@.len() + 1,
            grid_holds(g, cur@),
            parse_from(ls, table@, 0, 0, 0, Map::empty()) == parse_from(ls, table@, i as int, y as int, z as int, cur@),
        decreases lines@.len() + 1 - i,
    {
        let line = &lines[i];
        assert(ls[i as int] == line@);
        if line_starts_with(line, &layer) {
            i += 1;
            y += 1;
            z = 0;
        } else if line_starts_with(line, &end) {
            return Ok((g, i + 1));
        } else {
            let bottom = if i + 1 < lines.len() { &lines[i + 1] } else { &empty };
            proof {
                if i + 1 < lines@.len() {
                    assert(ls[i + 1] == bottom@);
                } else {
                    assert(bottom@ =~= Seq::<char>::empty());
                }
            }
            if line_contains(line, '#') || line_contains(line, '|') {
                return Err(SerializationError::InvalidUpperLine(i));
            }
            if line_contains(bottom, 'V') || line_contains(bottom, '-') {
                return Err(SerializationError::InvalidLowerLine(i + 1));
            }
            match read_row(&mut g, line, bottom, y, z, table, cur) {
                Ok(next) => {
                    cur = next;
                },
                Err(e) => {
                    return Err(e);
                },
            }
            i += 2;
            z += 1;
        }
    }
    Ok((g, lines.len()))
}


/// `l` without one trailing carriage return.
pub open spec fn strip_cr(l: Seq<char>) -> Seq<char> {
    if l.len() > 0 && l.last() == '\r' { l.drop_last() } else { l }
}

/// The lines of `t` from position `i`, with `cur` the line being read and
/// `acc` those already read: lines end at a line feed (a carriage return
/// just before it is dropped); a last line without a line feed counts when
/// it is not empty.
pub open spec fn split_from(t: Seq<char>, i: int, cur: Seq<char>, acc: Seq<Seq<char>>) -> Seq<Seq<char>>
    decreases t.len() - i,
{
    if i >= t.len() || i < 0 {
        if cur.len() > 0 { acc.push(cur) } else { acc }
    } else if t[i] == '\n' {
        split_from(t, i + 1, seq![], acc.push(strip_cr(cur)))
    } else {
        split_from(t, i + 1, cur.push(t[i]), acc)
    }
}

/// The lines of a text, as `str::lines` reads them.
pub open spec fn lines_of(t: Seq<char>) -> Seq<Seq<char>> {
    split_from(t, 0, seq![], seq![])
}

/// The text of `ls`: each line followed by a line feed.
pub open spec fn text_of(ls: Seq<Seq<char>>) -> Seq<char>
    decreases ls.len(),
{
    if ls.len() == 0 {
        seq![]
    } else {
        text_of(ls.drop_last()) + ls.last() + seq!['\n']
    }
}

/// Splits a text into its lines.
pub fn split_lines(text: &str) -> (ls: Vec<Vec<char>>)
    ensures
        ls@.map_values(|l: Vec<char>| l@) == lines_of(text@),
{
    let n = text.unicode_len();
    let mut ls: Vec<Vec<char>> = Vec::new();
    let mut cur: Vec<char> = Vec::new();
    let mut i: usize = 0;
    proof {
        assert(cur@ =~= Seq::<char>::empty());
        assert(ls@.map_values(|l: Vec<char>| l@) =~= Seq::<Seq<char>>::empty());
    }
    while i < n
        invariant
            i <= n,
            n == text@.len(),
            lines_of(text@) == split_from(text@, i as int, cur@, ls@.map_values(|l: Vec<char>| l@)),
        decreases n - i,
    {
        let c = text.get_char(i);
        if c == '\n' {
            let ghost pre = ls@;
            let ghost line = cur@;
            if cur.len() > 0 && cur[cur.len() - 1] == '\r' {
                cur.pop();
            }
            assert(cur@ == strip_cr(line));
            ls.push(cur);
            cur = Vec::new();
            proof {
                assert(ls@.map_values(|l: Vec<char>| l@) =~= pre.map_values(|l: Vec<char>| l@).push(strip_cr(line)));
                assert(cur@ =~= Seq::<char>::empty());
            }
        } else {
            cur.push(c);
        }
        i += 1;
    }
    if cur.len() > 0 {
        let ghost pre = ls@;
        let ghost line = cur@;
        ls.push(cur);
        proof {
            assert(ls@.map_values(|l: Vec<char>| l@) =~= pre.map_values(|l: Vec<char>| l@).push(line));
        }
    }
    ls
}

/// Joins lines into a text, each followed by a line feed.
pub fn join_lines(ls: &Vec<Vec<char>>) -> (t: String)
    ensures
        t@ == text_of(ls@.map_values(|l: Vec<char>| l@)),
{
    let ghost lv = ls@.map_values(|l: Vec<char>| l@);
    let mut t = String::new();
    let mut i: usize = 0;
    proof {
        assert(lv.take(0) =~= Seq::<Seq<char>>::empty());
    }
    while i < ls.len()
        invariant
            i <= ls@.len(),
            lv == ls@.map_values(|l: Vec<char>| l@),
            t@ == text_of(lv.take(i as int)),
        decreases ls@.len() - i,
    {
        let line = &ls[i];
        let ghost before = t@;
        let mut k: usize = 0;
        while k < line.len()
            invariant
                k <= line@.len(),
                t@ == before + line@.take(k as int),
            decreases line@.len() - k,
        {
            push_char(&mut t, line[k]);
            proof {
                assert(line@.take(k + 1) =~= line@.take(k as int).push(line@[k as int]));
            }
            k += 1;
        }
        push_char(&mut t, '\n');
        proof {
            assert(lv.take(i + 1).drop_last() =~= lv.take(i as int));
            assert(lv.take(i + 1).last() == line@);
            assert(line@.take(line@.len() as int) =~= line@);
            assert(t@ =~= text_of(lv.take(i as int)) + line@ + seq!['\n']);
        }
        i += 1;
    }
    proof {
        assert(lv.take(ls@.len() as int) =~= lv);
    }
    t
}


/// The structure kind of the first cell, in the grid's entry order, that
/// the catalogue of `n` kinds lacks.
pub open spec fn first_unknown(entries: Seq<(SlotCoord, Cell)>, n: nat, k: int) -> Option<EorfId>
    decreases k,
{
    if k <= 0 {
        None
    } else {
        match first_unknown(entries, n, k - 1) {
            Some(id) => Some(id),
            None => if entries[k - 1].1.id.0 >= n { Some(entries[k - 1].1.id) } else { None },
        }
    }
}

proof fn lemma_first_unknown_stable(entries: Seq<(SlotCoord, Cell)>, n: nat, k: int, m: int)
    requires
        k <= m,
        first_unknown(entries, n, k) is Some,
    ensures
        first_unknown(entries, n, m) == first_unknown(entries, n, k),
    decreases m - k,
{
    if k < m {
        lemma_first_unknown_stable(entries, n, k, m - 1);
    }
}

proof fn lemma_first_unknown(entries: Seq<(SlotCoord, Cell)>, n: nat, k: int)
    requires
        0 <= k <= entries.len(),
    ensures
        first_unknown(entries, n, k) is None <==> forall|j: int| 0 <= j < k ==> (#[trigger] entries[j]).1.id.0 < n,
    decreases k,
{
    if k > 0 {
        lemma_first_unknown(entries, n, k - 1);
    }
}

/// Writes the grid part of a saved grid (see `grid_lines`) as text, each
/// line ended by a line feed. Fails on the first cell, in entry order, that
/// names a structure kind the catalogue lacks.
pub fn write_grid_text(g: &Sparse3D<Cell>, structures: &[EorfInfo]) -> (r: Result<String, SerializationError>)
    requires
        box_writable(*g),
    ensures
        match first_unknown(g.entries(), structures@.len(), g.entries().len() as int) {
            Some(id) => r == Err::<String, SerializationError>(SerializationError::StructureNotFound(id)),
            None => r matches Ok(t) && t@ == text_of(grid_lines(*g, structures@)),
        },
{
    let n = g.size();
    let mut k: usize = 0;
    while k < n
        invariant
            k <= n,
            n == g.entries().len(),
            first_unknown(g.entries(), structures@.len(), k as int) is None,
        decreases n - k,
    {
        let (_, c) = g.entry(k);
        if c.id.as_usize() >= structures.len() {
            proof {
                lemma_first_unknown_stable(g.entries(), structures@.len(), k + 1, n as int);
            }
            return Err(SerializationError::StructureNotFound(c.id));
        }
        k += 1;
    }
    proof {
        lemma_first_unknown(g.entries(), structures@.len(), n as int);
    }
    let lines = write_grid_lines(g, structures);
    Ok(join_lines(&lines))
}

proof fn lemma_split_bounds(t: Seq<char>, i: int, cur: Seq<char>, acc: Seq<Seq<char>>)
    requires
        0 <= i <= t.len(),
        acc.len() + cur.len() <= i,
        forall|k: int| 0 <= k < acc.len() ==> (#[trigger] acc[k]).len() <= t.len(),
    ensures
        split_from(t, i, cur, acc).len() <= t.len(),
        forall|k: int| 0 <= k < split_from(t, i, cur, acc).len() ==> (#[trigger] split_from(t, i, cur, acc)[k]).len() <= t.len(),
    decreases t.len() - i,
{
    if i < t.len() {
        if t[i] == '\n' {
            lemma_split_bounds(t, i + 1, seq![], acc.push(strip_cr(cur)));
        } else {
            lemma_split_bounds(t, i + 1, cur.push(t[i]), acc);
        }
    } else {
        if cur.len() > 0 {
            assert forall|k: int| 0 <= k < acc.push(cur).len() implies (#[trigger] acc.push(cur)[k]).len() <= t.len() by {
                if k < acc.len() {
                    assert(acc.push(cur)[k] == acc[k]);
                }
            }
        }
    }
}

/// Reads the grid part of a saved grid's text (see `parse_from`), giving the
/// grid and the lines after the grid part, which hold the cells' further
/// details.
pub fn read_grid_text(text: &str, table: &HashMap<u32, EorfId>) -> (r: Result<(Sparse3D<Cell>, Vec<Vec<char>>), SerializationError>)
    requires
        text@.len() < i32::MAX,
    ensures
        match parse_from(lines_of(text@), table@, 0, 0, 0, Map::empty()) {
            Ok((m, next)) => r matches Ok((g, rest)) && grid_holds(g, m)
                && rest@.map_values(|l: Vec<char>| l@) == lines_of(text@).skip(next),
            Err(e) => r matches Err(e2) && e2 == e,
        },
{
    let lines = split_lines(text);
    proof {
        lemma_split_bounds(text@, 0, seq![], seq![]);
        assert forall|k: int| 0 <= k < lines@.len() implies (#[trigger] lines@[k])@.len() < i32::MAX by {
            assert(lines@.map_values(|l: Vec<char>| l@)[k] == lines@[k]@);
        }
    }
    match read_grid_lines(&lines, table) {
        Ok((g, next)) => {
            let ghost lv = lines@.map_values(|l: Vec<char>| l@);
            let mut rest: Vec<Vec<char>> = Vec::new();
            let mut k: usize = next;
            proof {
                lemma_parse_next_bound(lv, table@, 0, 0, 0, Map::empty());
            }
            while k < lines.len()
                invariant
                    next <= k <= lines@.len(),
                    lv == lines@.map_values(|l: Vec<char>| l@),
                    rest@.map_values(|l: Vec<char>| l@) == lv.subrange(next as int, k as int),
                decreases lines@.len() - k,
            {
                let ghost pre = rest@;
                rest.push(lines[k].clone());
                proof {
                    assert(rest@.map_values(|l: Vec<char>| l@)
                        =~= pre.map_values(|l: Vec<char>| l@).push(lv[k as int]));
                    assert(lv.subrange(next as int, k + 1) =~= lv.subrange(next as int, k as int).push(lv[k as int]));
                }
                k += 1;
            }
            proof {
                assert(lv.subrange(next as int, lines@.len() as int) =~= lv.skip(next as int));
            }
            Ok((g, rest))
        },
        Err(e) => Err(e),
    }
}

proof fn lemma_parse_next_bound(lines: Seq<Seq<char>>, table: Map<u32, EorfId>, i: int, y: int, z: int, m: Map<SlotCoord, EorfId>)
    ensures
        parse_from(lines, table, i, y, z, m) matches Ok((_, next)) ==> 0 <= next <= lines.len(),
    decreases lines.len() + 1 - i,
{
    if 0 <= i < lines.len() {
        if starts_with(lines[i], layer_end()) {
            lemma_parse_next_bound(lines, table, i + 1, y + 1, 0, m);
        } else if !starts_with(lines[i], grid_end()) {
            let top = lines[i];
            let bottom = if i + 1 < lines.len() { lines[i + 1] } else { Seq::<char>::empty() };
            let w = if top.len() >= bottom.len() { top.len() } else { bottom.len() };
            if let Ok(m2) = row_cells(top, bottom, y, z, table, m, w as int / 2) {
                lemma_parse_next_bound(lines, table, i + 2, y, z + 1, m2);
            }
        }
    }
}


proof fn lemma_text_prefix(ls: Seq<Seq<char>>, j: int)
    requires
        0 <= j <= ls.len(),
    ensures
        text_of(ls.take(j)).len() <= text_of(ls).len(),
        forall|q: int| 0 <= q < text_of(ls.take(j)).len() ==> #[trigger] text_of(ls)[q] == text_of(ls.take(j))[q],
    decreases ls.len(),
{
    if j == ls.len() {
        assert(ls.take(j) =~= ls);
    } else {
        let d = ls.drop_last();
        assert(d.take(j) =~= ls.take(j));
        lemma_text_prefix(d, j);
    }
}

proof fn lemma_consume(t: Seq<char>, p: int, l: Seq<char>, k: int, cur: Seq<char>, acc: Seq<Seq<char>>)
    requires
        0 <= p,
        0 <= k <= l.len(),
        p + l.len() <= t.len(),
        forall|q: int| 0 <= q < l.len() ==> #[trigger] t[p + q] == l[q],
        !l.contains('\n'),
    ensures
        split_from(t, p, cur, acc) == split_from(t, p + k, cur + l.take(k), acc),
    decreases k,
{
    if k == 0 {
        assert(cur + l.take(0) =~= cur);
    } else {
        lemma_consume(t, p, l, k - 1, cur, acc);
        assert(t[p + (k - 1)] == l[k - 1]);
        assert(t[p + k - 1] != '\n');
        assert((cur + l.take(k - 1)).push(t[p + k - 1]) =~= cur + l.take(k));
    }
}

proof fn lemma_lines_from(ls: Seq<Seq<char>>, j: int)
    requires
        0 <= j <= ls.len(),
        forall|k: int| 0 <= k < ls.len() ==> !(#[trigger] ls[k]).contains('\n'),
        forall|k: int| 0 <= k < ls.len() ==> !((#[trigger] ls[k]).len() > 0 && ls[k].last() == '\r'),
    ensures
        split_from(text_of(ls), text_of(ls.take(j)).len() as int, seq![], ls.take(j)) == ls,
    decreases ls.len() - j,
{
    let t = text_of(ls);
    if j == ls.len() {
        assert(ls.take(j) =~= ls);
    } else {
        let p = text_of(ls.take(j)).len() as int;
        let l = ls[j];
        assert(ls.take(j + 1).drop_last() =~= ls.take(j));
        assert(ls.take(j + 1).last() == l);
        let tj = text_of(ls.take(j + 1));
        assert(tj == text_of(ls.take(j)) + l + seq!['\n']);
        lemma_text_prefix(ls, j + 1);
        assert forall|q: int| 0 <= q < l.len() implies #[trigger] t[p + q] == l[q] by {
            assert(t[p + q] == tj[p + q]);
        }
        assert(t[p + l.len()] == tj[p + l.len()]);
        lemma_consume(t, p, l, l.len() as int, seq![], ls.take(j));
        assert(Seq::<char>::empty() + l.take(l.len() as int) =~= l);
        assert(strip_cr(l) == l);
        assert(ls.take(j).push(l) =~= ls.take(j + 1));
        lemma_lines_from(ls, j + 1);
    }
}

/// Reading back the text of lines gives the lines, provided none holds a
/// line feed or ends with a carriage return.
pub proof fn lemma_lines_round_trip(ls: Seq<Seq<char>>)
    requires
        forall|k: int| 0 <= k < ls.len() ==> !(#[trigger] ls[k]).contains('\n'),
        forall|k: int| 0 <= k < ls.len() ==> !((#[trigger] ls[k]).len() > 0 && ls[k].last() == '\r'),
    ensures
        lines_of(text_of(ls)) == ls,
{
    lemma_lines_from(ls, 0);
    assert(ls.take(0) =~= Seq::<Seq<char>>::empty());
}


/// The order in which a row reads the slots of one cube.
pub open spec fn slot_rank(s: Slot) -> int {
    match s {
        Slot::ZLoWall => 0,
        Slot::Room => 1,
        Slot::Floor => 2,
        Slot::XLoWall => 3,
    }
}

spec fn slot_of_rank(r: int) -> Slot {
    if r == 0 { Slot::ZLoWall } else if r == 1 { Slot::Room } else if r == 2 { Slot::Floor } else { Slot::XLoWall }
}

/// The slot of the grid that local slot `l` of the box from `min` is.
pub open spec fn world_of(l: SlotCoord, min: IVec3) -> SlotCoord {
    SlotCoord {
        cube: IVec3 { x: (l.cube.x + min.x) as i32, y: (l.cube.y + min.y) as i32, z: (l.cube.z + min.z) as i32 },
        slot: l.slot,
    }
}

/// `l` lies in a box of `w` by `h` by `d` cubes at the origin.
pub open spec fn in_box(l: SlotCoord, w: int, h: int, d: int) -> bool {
    0 <= l.cube.x < w && 0 <= l.cube.y < h && 0 <= l.cube.z < d
}

/// `l` is read before slot rank `sr` of cube `(lx, ly, lz)`.
spec fn read_before(l: SlotCoord, ly: int, lz: int, lx: int, sr: int) -> bool {
    l.cube.y < ly || (l.cube.y == ly && (l.cube.z < lz || (l.cube.z == lz
        && (l.cube.x < lx || (l.cube.x == lx && slot_rank(l.slot) < sr)))))
}

/// What reading has recorded once it reaches slot rank `sr` of cube
/// `(lx, ly, lz)`.
spec fn read_so_far(g: Sparse3D<Cell>, min: IVec3, w: int, h: int, d: int, ly: int, lz: int, lx: int, sr: int) -> Map<SlotCoord, EorfId> {
    Map::new(
        |l: SlotCoord| in_box(l, w, h, d) && read_before(l, ly, lz, lx, sr) && g.at(world_of(l, min)) is Some,
        |l: SlotCoord| g.at(world_of(l, min))->0.id,
    )
}

/// The grid as read back from its text: each occupied slot at its place
/// relative to the box's lowest corner, as its structure kind.
pub open spec fn local_cells(g: Sparse3D<Cell>, min: IVec3, w: int, h: int, d: int) -> Map<SlotCoord, EorfId> {
    Map::new(
        |l: SlotCoord| in_box(l, w, h, d) && g.at(world_of(l, min)) is Some,
        |l: SlotCoord| g.at(world_of(l, min))->0.id,
    )
}

/// Every occupied slot is written as a character that reads back as its
/// structure kind: not a space, `~`, a line feed or a carriage return, not
/// `#` or `|` on an upper line (room or z wall), not `V` or `-` on a lower
/// line (x wall or floor).
pub open spec fn decodable(g: Sparse3D<Cell>, structures: Seq<EorfInfo>, table: Map<u32, EorfId>) -> bool {
    forall|k: int| 0 <= k < g.entries().len() ==> {
        let e = #[trigger] g.entries()[k];
        let ch = slot_char(structures[e.1.id.0 as int], rel_of(e.0.slot));
        &&& ch != ' ' && ch != '~' && ch != '\n' && ch != '\r'
        &&& table.contains_key(ch as u32) && table[ch as u32] == e.1.id
        &&& (e.0.slot is Room || e.0.slot is ZLoWall) ==> ch != '#' && ch != '|'
        &&& (e.0.slot is XLoWall || e.0.slot is Floor) ==> ch != 'V' && ch != '-'
    }
}

proof fn lemma_enc_char(g: Sparse3D<Cell>, structures: Seq<EorfInfo>, table: Map<u32, EorfId>, loc: SlotCoord)
    requires
        decodable(g, structures, table),
    ensures
        match g.at(loc) {
            Some(c) => {
                let ch = enc(g, structures, loc.cube, loc.slot);
                &&& ch != ' ' && ch != '~' && ch != '\n' && ch != '\r'
                &&& table.contains_key(ch as u32) && table[ch as u32] == c.id
                &&& (loc.slot is Room || loc.slot is ZLoWall) ==> ch != '#' && ch != '|'
                &&& (loc.slot is XLoWall || loc.slot is Floor) ==> ch != 'V' && ch != '-'
            },
            None => enc(g, structures, loc.cube, loc.slot) == ' ',
        },
{
    crate::sparse3d::lemma_slot_position(g.entries(), loc);
    if let Some(i) = crate::sparse3d::slot_position(g.entries(), loc) {
        let e = g.entries()[i];
        assert(e.0 == loc);
    }
}

proof fn lemma_put_step(
    g: Sparse3D<Cell>, structures: Seq<EorfInfo>, table: Map<u32, EorfId>, min: IVec3,
    w: int, h: int, d: int, ly: int, lz: int, lx: int, sr: int,
)
    requires
        decodable(g, structures, table),
        0 <= lx < w,
        0 <= ly < h,
        0 <= lz < d,
        0 <= sr < 4,
        w <= 0x4000_0000,
        h <= 0x4000_0000,
        d <= 0x4000_0000,
    ensures
        ({
            let local = SlotCoord { cube: IVec3 { x: lx as i32, y: ly as i32, z: lz as i32 }, slot: slot_of_rank(sr) };
            let wc = world_of(local, min);
            put(Ok(read_so_far(g, min, w, h, d, ly, lz, lx, sr)), enc(g, structures, wc.cube, wc.slot), local, table)
                == Ok::<Map<SlotCoord, EorfId>, SerializationError>(read_so_far(g, min, w, h, d, ly, lz, lx, sr + 1))
        }),
{
    let local = SlotCoord { cube: IVec3 { x: lx as i32, y: ly as i32, z: lz as i32 }, slot: slot_of_rank(sr) };
    let wc = world_of(local, min);
    lemma_enc_char(g, structures, table, wc);
    let before = read_so_far(g, min, w, h, d, ly, lz, lx, sr);
    let after = read_so_far(g, min, w, h, d, ly, lz, lx, sr + 1);
    assert(slot_rank(slot_of_rank(sr)) == sr);
    match g.at(wc) {
        Some(c) => {
            assert(after =~= before.insert(local, c.id));
        },
        None => {
            assert(after =~= before);
        },
    }
}

proof fn lemma_row_read(
    g: Sparse3D<Cell>, structures: Seq<EorfInfo>, table: Map<u32, EorfId>, min: IVec3,
    w: int, h: int, d: int, ly: int, lz: int, n: int,
)
    requires
        decodable(g, structures, table),
        0 <= n <= w,
        0 <= ly < h,
        0 <= lz < d,
        w <= 0x4000_0000,
        h <= 0x4000_0000,
        d <= 0x4000_0000,
    ensures
        row_cells(
            row_line(g, structures, min.x as int, w, min.y + ly, min.z + lz, true),
            row_line(g, structures, min.x as int, w, min.y + ly, min.z + lz, false),
            ly, lz, table, read_so_far(g, min, w, h, d, ly, lz, 0, 0), n,
        ) == Ok::<Map<SlotCoord, EorfId>, SerializationError>(read_so_far(g, min, w, h, d, ly, lz, n, 0)),
    decreases n,
{
    if n > 0 {
        lemma_row_read(g, structures, table, min, w, h, d, ly, lz, n - 1);
        let x = n - 1;
        let top = row_line(g, structures, min.x as int, w, min.y + ly, min.z + lz, true);
        let bottom = row_line(g, structures, min.x as int, w, min.y + ly, min.z + lz, false);
        let cube = IVec3 { x: (min.x + x) as i32, y: (min.y + ly) as i32, z: (min.z + lz) as i32 };
        assert((2 * x) / 2 == x && (2 * x) % 2 == 0);
        assert((2 * x + 1) / 2 == x && (2 * x + 1) % 2 == 1);
        assert(pad_at(top, 2 * x + 1) == enc(g, structures, cube, Slot::ZLoWall));
        assert(pad_at(top, 2 * x) == enc(g, structures, cube, Slot::Room));
        assert(pad_at(bottom, 2 * x + 1) == enc(g, structures, cube, Slot::Floor));
        assert(pad_at(bottom, 2 * x) == enc(g, structures, cube, Slot::XLoWall));
        lemma_put_step(g, structures, table, min, w, h, d, ly, lz, x, 0);
        lemma_put_step(g, structures, table, min, w, h, d, ly, lz, x, 1);
        lemma_put_step(g, structures, table, min, w, h, d, ly, lz, x, 2);
        lemma_put_step(g, structures, table, min, w, h, d, ly, lz, x, 3);
        assert(read_so_far(g, min, w, h, d, ly, lz, x, 4) =~= read_so_far(g, min, w, h, d, ly, lz, n, 0));
    }
}


proof fn lemma_layer_lines_shape(g: Sparse3D<Cell>, structures: Seq<EorfInfo>, min: IVec3, w: int, y: int, n: int)
    requires
        n >= 0,
    ensures
        layer_lines(g, structures, min, w, y, n).len() == 2 * n,
        forall|z: int| 0 <= z < n ==> #[trigger] layer_lines(g, structures, min, w, y, n)[2 * z]
            == row_line(g, structures, min.x as int, w, y, min.z + z, true),
        forall|z: int| 0 <= z < n ==> #[trigger] layer_lines(g, structures, min, w, y, n)[2 * z + 1]
            == row_line(g, structures, min.x as int, w, y, min.z + z, false),
    decreases n,
{
    if n > 0 {
        lemma_layer_lines_shape(g, structures, min, w, y, n - 1);
        let prev = layer_lines(g, structures, min, w, y, n - 1);
        let cur = layer_lines(g, structures, min, w, y, n);
        assert forall|z: int| 0 <= z < n implies #[trigger] cur[2 * z]
            == row_line(g, structures, min.x as int, w, y, min.z + z, true) by {
            if z < n - 1 {
                assert(cur[2 * z] == prev[2 * z]);
            }
        }
        assert forall|z: int| 0 <= z < n implies #[trigger] cur[2 * z + 1]
            == row_line(g, structures, min.x as int, w, y, min.z + z, false) by {
            if z < n - 1 {
                assert(cur[2 * z + 1] == prev[2 * z + 1]);
            }
        }
    }
}

proof fn lemma_row_lines_clean(
    g: Sparse3D<Cell>, structures: Seq<EorfInfo>, table: Map<u32, EorfId>, min_x: int, w: int, y: int, z: int,
)
    requires
        decodable(g, structures, table),
        w >= 1,
    ensures
        ({
            let top = row_line(g, structures, min_x, w, y, z, true);
            let bottom = row_line(g, structures, min_x, w, y, z, false);
            &&& top.len() == 2 * w && bottom.len() == 2 * w
            &&& !starts_with(top, layer_end()) && !starts_with(top, grid_end())
            &&& !top.contains('#') && !top.contains('|')
            &&& !bottom.contains('V') && !bottom.contains('-')
            &&& forall|k: int| 0 <= k < 2 * w ==> (#[trigger] top[k]) != '\n' && top[k] != '\r'
            &&& forall|k: int| 0 <= k < 2 * w ==> (#[trigger] bottom[k]) != '\n' && bottom[k] != '\r'
        }),
{
    let top = row_line(g, structures, min_x, w, y, z, true);
    let bottom = row_line(g, structures, min_x, w, y, z, false);
    assert forall|k: int| 0 <= k < 2 * w implies
        (#[trigger] top[k]) != '#' && top[k] != '|' && top[k] != '~' && top[k] != '\n' && top[k] != '\r' by {
        let cube = IVec3 { x: (min_x + k / 2) as i32, y: y as i32, z: z as i32 };
        lemma_enc_char(g, structures, table, SlotCoord { cube, slot: Slot::Room });
        lemma_enc_char(g, structures, table, SlotCoord { cube, slot: Slot::ZLoWall });
    }
    assert forall|k: int| 0 <= k < 2 * w implies
        (#[trigger] bottom[k]) != 'V' && bottom[k] != '-' && bottom[k] != '\n' && bottom[k] != '\r' by {
        let cube = IVec3 { x: (min_x + k / 2) as i32, y: y as i32, z: z as i32 };
        lemma_enc_char(g, structures, table, SlotCoord { cube, slot: Slot::XLoWall });
        lemma_enc_char(g, structures, table, SlotCoord { cube, slot: Slot::Floor });
    }
    if starts_with(top, layer_end()) {
        assert(top.take(5)[0] == top[0]);
    }
    if starts_with(top, grid_end()) {
        assert(top.take(5)[0] == top[0]);
    }
}

proof fn lemma_layer_read(
    lines: Seq<Seq<char>>, g: Sparse3D<Cell>, structures: Seq<EorfInfo>, table: Map<u32, EorfId>, min: IVec3,
    w: int, h: int, d: int, ly: int, i: int, lz: int,
)
    requires
        decodable(g, structures, table),
        1 <= w <= 0x4000_0000,
        0 <= ly < h <= 0x4000_0000,
        1 <= d <= 0x4000_0000,
        0 <= lz <= d,
        0 <= i,
        i + 2 * d + 1 <= lines.len(),
        lines.subrange(i, i + 2 * d + 1) == layer_lines(g, structures, min, w, min.y + ly, d) + seq![layer_end()],
    ensures
        parse_from(lines, table, i + 2 * lz, ly, lz, read_so_far(g, min, w, h, d, ly, lz, 0, 0))
            == parse_from(lines, table, i + 2 * d + 1, ly + 1, 0, read_so_far(g, min, w, h, d, ly + 1, 0, 0, 0)),
    decreases d - lz,
{
    let layer = layer_lines(g, structures, min, w, min.y + ly, d);
    lemma_layer_lines_shape(g, structures, min, w, min.y + ly, d);
    if lz == d {
        assert(lines[i + 2 * d] == lines.subrange(i, i + 2 * d + 1)[2 * d]);
        assert((layer + seq![layer_end()])[2 * d] == layer_end());
        assert(starts_with(layer_end(), layer_end())) by {
            assert(layer_end().take(5) =~= layer_end());
        }
        assert(read_so_far(g, min, w, h, d, ly, d, 0, 0) =~= read_so_far(g, min, w, h, d, ly + 1, 0, 0, 0));
    } else {
        let top = row_line(g, structures, min.x as int, w, min.y + ly, min.z + lz, true);
        let bottom = row_line(g, structures, min.x as int, w, min.y + ly, min.z + lz, false);
        assert(lines[i + 2 * lz] == lines.subrange(i, i + 2 * d + 1)[2 * lz]);
        assert(lines[i + 2 * lz + 1] == lines.subrange(i, i + 2 * d + 1)[2 * lz + 1]);
        assert((layer + seq![layer_end()])[2 * lz] == layer[2 * lz]);
        assert((layer + seq![layer_end()])[2 * lz + 1] == layer[2 * lz + 1]);
        assert(lines[i + 2 * lz] == top);
        assert(lines[i + 2 * lz + 1] == bottom);
        lemma_row_lines_clean(g, structures, table, min.x as int, w, min.y + ly, min.z + lz);
        lemma_row_read(g, structures, table, min, w, h, d, ly, lz, w);
        assert(read_so_far(g, min, w, h, d, ly, lz, w, 0) =~= read_so_far(g, min, w, h, d, ly, lz + 1, 0, 0));
        assert((2 * w) / 2 == w);
        lemma_layer_read(lines, g, structures, table, min, w, h, d, ly, i, lz + 1);
    }
}

proof fn lemma_layers_shape(g: Sparse3D<Cell>, structures: Seq<EorfInfo>, min: IVec3, max: IVec3, n: int, k: int)
    requires
        0 <= k < n,
        min.x <= max.x,
        min.z <= max.z,
    ensures
        layers_upto(g, structures, min, max, k).len() + 2 * (max.z - min.z + 1) + 1
            == layers_upto(g, structures, min, max, k + 1).len(),
        layers_upto(g, structures, min, max, k + 1).len() <= layers_upto(g, structures, min, max, n).len(),
        layers_upto(g, structures, min, max, n).subrange(
            layers_upto(g, structures, min, max, k).len() as int,
            layers_upto(g, structures, min, max, k + 1).len() as int,
        ) == layer_lines(g, structures, min, max.x - min.x + 1, min.y + k, max.z - min.z + 1) + seq![layer_end()],
    decreases n,
{
    let d = max.z - min.z + 1;
    lemma_layer_lines_shape(g, structures, min, max.x - min.x + 1, min.y + k, d);
    let pk = layers_upto(g, structures, min, max, k);
    let pk1 = layers_upto(g, structures, min, max, k + 1);
    let layer = layer_lines(g, structures, min, max.x - min.x + 1, min.y + k, d) + seq![layer_end()];
    assert(pk1 == pk + layer);
    if n == k + 1 {
        assert(pk1.subrange(pk.len() as int, pk1.len() as int) =~= layer);
    } else {
        lemma_layers_shape(g, structures, min, max, n - 1, k);
        let pn1 = layers_upto(g, structures, min, max, n - 1);
        let pn = layers_upto(g, structures, min, max, n);
        assert(pn == pn1 + layer_lines(g, structures, min, max.x - min.x + 1, min.y + n - 1, d) + seq![layer_end()]);
        assert(pn.subrange(pk.len() as int, pk1.len() as int) =~= pn1.subrange(pk.len() as int, pk1.len() as int));
    }
}

proof fn lemma_layers_read(
    lines: Seq<Seq<char>>, g: Sparse3D<Cell>, structures: Seq<EorfInfo>, table: Map<u32, EorfId>,
    min: IVec3, max: IVec3, ly: int,
)
    requires
        decodable(g, structures, table),
        min.x <= max.x && min.y <= max.y && min.z <= max.z,
        max.x - min.x < 0x4000_0000 && max.y - min.y < 0x4000_0000 && max.z - min.z < 0x4000_0000,
        0 <= ly <= max.y - min.y + 1,
        lines == layers_upto(g, structures, min, max, max.y - min.y + 1) + seq![grid_end()],
    ensures
        ({
            let (w, h, d) = (max.x - min.x + 1, max.y - min.y + 1, max.z - min.z + 1);
            parse_from(lines, table, layers_upto(g, structures, min, max, ly).len() as int, ly, 0,
                read_so_far(g, min, w, h, d, ly, 0, 0, 0))
                == Ok::<(Map<SlotCoord, EorfId>, int), SerializationError>((local_cells(g, min, w, h, d), lines.len() as int))
        }),
    decreases max.y - min.y + 1 - ly,
{
    let (w, h, d) = (max.x - min.x + 1, max.y - min.y + 1, max.z - min.z + 1);
    let all = layers_upto(g, structures, min, max, h);
    if ly == h {
        assert(lines[all.len() as int] == grid_end());
        assert(!starts_with(grid_end(), layer_end())) by {
            assert(grid_end().take(5)[1] == '*');
        }
        assert(starts_with(grid_end(), grid_end())) by {
            assert(grid_end().take(5) =~= grid_end());
        }
        assert(read_so_far(g, min, w, h, d, h, 0, 0, 0) =~= local_cells(g, min, w, h, d));
    } else {
        lemma_layers_shape(g, structures, min, max, h, ly);
        let i = layers_upto(g, structures, min, max, ly).len() as int;
        let next = layers_upto(g, structures, min, max, ly + 1).len() as int;
        assert(lines.subrange(i, i + 2 * d + 1) =~= all.subrange(i, next));
        lemma_layer_read(lines, g, structures, table, min, w, h, d, ly, i, 0);
        assert(i + 2 * 0 == i);
        lemma_layers_read(lines, g, structures, table, min, max, ly + 1);
    }
}

/// Reading back the lines a grid is written as gives every occupied slot at
/// its place relative to the lowest corner of the grid's bounding box, as
/// its structure kind, provided every structure kind is written with a
/// character that reads back as itself (see `decodable`); reading stops
/// after the last line.
pub proof fn lemma_grid_round_trip(g: Sparse3D<Cell>, structures: Seq<EorfInfo>, table: Map<u32, EorfId>)
    requires
        decodable(g, structures, table),
        box_writable(g),
    ensures
        match box_of(g.entries()) {
            Some((min, max)) => parse_from(grid_lines(g, structures), table, 0, 0, 0, Map::empty())
                == Ok::<(Map<SlotCoord, EorfId>, int), SerializationError>((
                    local_cells(g, min, max.x - min.x + 1, max.y - min.y + 1, max.z - min.z + 1),
                    grid_lines(g, structures).len() as int)),
            None => parse_from(grid_lines(g, structures), table, 0, 0, 0, Map::empty())
                == Ok::<(Map<SlotCoord, EorfId>, int), SerializationError>((Map::empty(), 1)),
        },
{
    lemma_box_of(g.entries());
    match box_of(g.entries()) {
        Some((min, max)) => {
            lemma_box_order(g.entries());
            let (w, h, d) = (max.x - min.x + 1, max.y - min.y + 1, max.z - min.z + 1);
            lemma_layers_read(grid_lines(g, structures), g, structures, table, min, max, 0);
            assert(read_so_far(g, min, w, h, d, 0, 0, 0, 0) =~= Map::<SlotCoord, EorfId>::empty());
            assert(layers_upto(g, structures, min, max, 0).len() == 0);
        },
        None => {
            let ls = grid_lines(g, structures);
            assert(ls[0] == grid_end());
            assert(!starts_with(grid_end(), layer_end())) by {
                assert(grid_end().take(5)[1] == '*');
            }
            assert(starts_with(grid_end(), grid_end())) by {
                assert(grid_end().take(5) =~= grid_end());
            }
        },
    }
}

proof fn lemma_box_order<T>(entries: Seq<(SlotCoord, T)>)
    ensures
        box_of(entries) matches Some((lo, hi)) ==> lo.x <= hi.x && lo.y <= hi.y && lo.z <= hi.z,
    decreases entries.len(),
{
    if entries.len() > 0 {
        lemma_box_order(entries.drop_last());
    }
}


/// A line holds no line feed and does not end with a carriage return.
spec fn clean_line(l: Seq<char>) -> bool {
    !l.contains('\n') && !(l.len() > 0 && l.last() == '\r')
}

proof fn lemma_clean_row(g: Sparse3D<Cell>, structures: Seq<EorfInfo>, table: Map<u32, EorfId>, min_x: int, w: int, y: int, z: int, upper: bool)
    requires
        decodable(g, structures, table),
        w >= 1,
    ensures
        clean_line(row_line(g, structures, min_x, w, y, z, upper)),
{
    lemma_row_lines_clean(g, structures, table, min_x, w, y, z);
    let l = row_line(g, structures, min_x, w, y, z, upper);
    assert(l[l.len() - 1] == l.last());
}

proof fn lemma_clean_layers(g: Sparse3D<Cell>, structures: Seq<EorfInfo>, table: Map<u32, EorfId>, min: IVec3, max: IVec3, n: int)
    requires
        decodable(g, structures, table),
        min.x <= max.x,
        min.z <= max.z,
        n >= 0,
    ensures
        forall|k: int| 0 <= k < layers_upto(g, structures, min, max, n).len() ==>
            clean_line(#[trigger] layers_upto(g, structures, min, max, n)[k]),
    decreases n,
{
    if n > 0 {
        lemma_clean_layers(g, structures, table, min, max, n - 1);
        let d = max.z - min.z + 1;
        let w = max.x - min.x + 1;
        let y = min.y + n - 1;
        lemma_clean_layer(g, structures, table, min, w, y, d);
        let prev = layers_upto(g, structures, min, max, n - 1);
        let layer = layer_lines(g, structures, min, w, y, d);
        let cur = layers_upto(g, structures, min, max, n);
        assert(cur == prev + layer + seq![layer_end()]);
        assert(clean_line(layer_end())) by {
            assert(layer_end().last() == '~');
        }
        assert forall|k: int| 0 <= k < cur.len() implies clean_line(#[trigger] cur[k]) by {
            if k < prev.len() {
                assert(cur[k] == prev[k]);
            } else if k < prev.len() + layer.len() {
                assert(cur[k] == layer[k - prev.len()]);
            } else {
                assert(cur[k] == layer_end());
            }
        }
    }
}

proof fn lemma_clean_layer(g: Sparse3D<Cell>, structures: Seq<EorfInfo>, table: Map<u32, EorfId>, min: IVec3, w: int, y: int, n: int)
    requires
        decodable(g, structures, table),
        w >= 1,
        n >= 0,
    ensures
        forall|k: int| 0 <= k < layer_lines(g, structures, min, w, y, n).len() ==>
            clean_line(#[trigger] layer_lines(g, structures, min, w, y, n)[k]),
    decreases n,
{
    if n > 0 {
        lemma_clean_layer(g, structures, table, min, w, y, n - 1);
        lemma_clean_row(g, structures, table, min.x as int, w, y, min.z + n - 1, true);
        lemma_clean_row(g, structures, table, min.x as int, w, y, min.z + n - 1, false);
        let prev = layer_lines(g, structures, min, w, y, n - 1);
        let cur = layer_lines(g, structures, min, w, y, n);
        assert forall|k: int| 0 <= k < cur.len() implies clean_line(#[trigger] cur[k]) by {
            if k < prev.len() {
                assert(cur[k] == prev[k]);
            }
        }
    }
}

/// A saved grid's text reads back as its grid: the occupied slots at their
/// places relative to the lowest corner of the bounding box, as their
/// structure kinds (see `lemma_grid_round_trip`).
pub proof fn lemma_saved_grid_reads_back(g: Sparse3D<Cell>, structures: Seq<EorfInfo>, table: Map<u32, EorfId>)
    requires
        decodable(g, structures, table),
        box_writable(g),
    ensures
        lines_of(text_of(grid_lines(g, structures))) == grid_lines(g, structures),
        match box_of(g.entries()) {
            Some((min, max)) => parse_from(lines_of(text_of(grid_lines(g, structures))), table, 0, 0, 0, Map::empty())
                == Ok::<(Map<SlotCoord, EorfId>, int), SerializationError>((
                    local_cells(g, min, max.x - min.x + 1, max.y - min.y + 1, max.z - min.z + 1),
                    grid_lines(g, structures).len() as int)),
            None => parse_from(lines_of(text_of(grid_lines(g, structures))), table, 0, 0, 0, Map::empty())
                == Ok::<(Map<SlotCoord, EorfId>, int), SerializationError>((Map::empty(), 1)),
        },
{
    let ls = grid_lines(g, structures);
    assert(clean_line(grid_end())) by {
        assert(grid_end().last() == '~');
    }
    lemma_box_order(g.entries());
    match box_of(g.entries()) {
        Some((min, max)) => {
            let body = layers_upto(g, structures, min, max, max.y - min.y + 1);
            lemma_clean_layers(g, structures, table, min, max, max.y - min.y + 1);
            assert forall|k: int| 0 <= k < ls.len() implies clean_line(#[trigger] ls[k]) by {
                if k < body.len() {
                    assert(ls[k] == body[k]);
                } else {
                    assert(ls[k] == grid_end());
                }
            }
        },
        None => {
            assert forall|k: int| 0 <= k < ls.len() implies clean_line(#[trigger] ls[k]) by {
                assert(ls[k] == grid_end());
            }
        },
    }
    assert forall|k: int| 0 <= k < ls.len() implies !(#[trigger] ls[k]).contains('\n') by {
        assert(clean_line(ls[k]));
    }
    assert forall|k: int| 0 <= k < ls.len() implies !((#[trigger] ls[k]).len() > 0 && ls[k].last() == '\r') by {
        assert(clean_line(ls[k]));
    }
    lemma_lines_round_trip(ls);
    lemma_grid_round_trip(g, structures, table);
}


/// The character table of the first `n` structure kinds: each kind's x-wall
/// character and then its other character stand for it, a later kind
/// taking over a character an earlier one used.
pub open spec fn char_table(structures: Seq<EorfInfo>, n: int) -> Map<u32, EorfId>
    decreases n,
{
    if n <= 0 {
        Map::empty()
    } else {
        let m = char_table(structures, n - 1);
        let id = EorfId((n - 1) as u32);
        let e = structures[n - 1];
        let m1 = match e.x_char {
            Some(c) => m.insert(c as u32, id),
            None => m,
        };
        match e.z_char {
            Some(c) => m1.insert(c as u32, id),
            None => m1,
        }
    }
}

/// The table that reads characters back as structure kinds (see
/// `char_table`), keyed by code point.
pub fn structures_by_char(structures: &[EorfInfo]) -> (t: HashMap<u32, EorfId>)
    requires
        structures@.len() <= u32::MAX + 1,
    ensures
        t@ == char_table(structures@, structures@.len() as int),
{
    let mut t: HashMap<u32, EorfId> = HashMap::new();
    let mut i: usize = 0;
    while i < structures.len()
        invariant
            i <= structures@.len(),
            structures@.len() <= u32::MAX + 1,
            t@ == char_table(structures@, i as int),
        decreases structures@.len() - i,
    {
        let id = EorfId(i as u32);
        match structures[i].x_char {
            Some(c) => {
                t.insert(c as u32, id);
            },
            None => {},
        }
        match structures[i].z_char {
            Some(c) => {
                t.insert(c as u32, id);
            },
            None => {},
        }
        i += 1;
    }
    t
}

/// The room cells of a grid with their cubes relative to the lowest corner
/// of its bounding box, in entry order: the cells whose details (facing,
/// build material) follow the grid part of a saved grid.
pub open spec fn room_cells_of(entries: Seq<(SlotCoord, Cell)>, min: IVec3) -> Seq<(IVec3, Cell)>
    decreases entries.len(),
{
    if entries.len() == 0 {
        seq![]
    } else {
        let rest = room_cells_of(entries.drop_last(), min);
        let e = entries.last();
        if e.0.slot is Room {
            rest.push((IVec3 {
                x: (e.0.cube.x - min.x) as i32,
                y: (e.0.cube.y - min.y) as i32,
                z: (e.0.cube.z - min.z) as i32,
            }, e.1))
        } else {
            rest
        }
    }
}

/// The room cells of a grid, relative to its bounding box (see
/// `room_cells_of`).
pub fn room_cells(g: &Sparse3D<Cell>) -> (v: Vec<(IVec3, Cell)>)
    requires
        box_writable(*g),
    ensures
        v@ == (match box_of(g.entries()) {
            Some((min, _)) => room_cells_of(g.entries(), min),
            None => Seq::<(IVec3, Cell)>::empty(),
        }),
{
    let mut v: Vec<(IVec3, Cell)> = Vec::new();
    match bounding_box(g) {
        None => {},
        Some((min, max)) => {
            proof {
                lemma_box_of(g.entries());
            }
            let n = g.size();
            let mut k: usize = 0;
            while k < n
                invariant
                    k <= n,
                    n == g.entries().len(),
                    box_of(g.entries()) == Some((min, max)),
                    box_writable(*g),
                    forall|j: int| 0 <= j < g.entries().len() ==> {
                        let c = (#[trigger] g.entries()[j]).0.cube;
                        min.x <= c.x <= max.x && min.y <= c.y <= max.y && min.z <= c.z <= max.z
                    },
                    v@ == room_cells_of(g.entries().take(k as int), min),
                decreases n - k,
            {
                proof {
                    assert(g.entries().take(k + 1).drop_last() =~= g.entries().take(k as int));
                }
                let (loc, c) = g.entry(k);
                assert(g.entries()[k as int].0 == loc);
                if loc.slot == Slot::Room {
                    v.push((IVec3 { x: loc.cube.x - min.x, y: loc.cube.y - min.y, z: loc.cube.z - min.z }, *c));
                }
                k += 1;
            }
            proof {
                assert(g.entries().take(n as int) =~= g.entries());
            }
        },
    }
    v
}


/// Position of the first `c` in `s`.
pub open spec fn first_index(s: Seq<char>, c: char) -> Option<int>
    decreases s.len(),
{
    if s.len() == 0 {
        None
    } else {
        match first_index(s.drop_last(), c) {
            Some(i) => Some(i),
            None => if s.last() == c { Some(s.len() - 1) } else { None },
        }
    }
}

/// `s` without its leading `c`s.
pub open spec fn trim_start(s: Seq<char>, c: char) -> Seq<char>
    decreases s.len(),
{
    if s.len() > 0 && s[0] == c { trim_start(s.drop_first(), c) } else { s }
}

/// `s` without its trailing `c`s.
pub open spec fn trim_end(s: Seq<char>, c: char) -> Seq<char>
    decreases s.len(),
{
    if s.len() > 0 && s.last() == c { trim_end(s.drop_last(), c) } else { s }
}

/// The fields of `s` between occurrences of `c` (at least one, possibly
/// empty), as `str::split` gives them.
pub open spec fn split_on(s: Seq<char>, c: char) -> Seq<Seq<char>>
    decreases s.len(),
{
    if s.len() == 0 {
        seq![seq![]]
    } else {
        let r = split_on(s.drop_last(), c);
        if s.last() == c { r.push(seq![]) } else { r.update(r.len() - 1, r.last().push(s.last())) }
    }
}

/// A detail line read apart: the cube, the slot's text and the cell's text.
pub struct DetailLine {
    pub x: i32,
    pub y: i32,
    pub z: i32,
    pub slot_text: Vec<char>,
    pub cell_text: Vec<char>,
}

/// How a detail line `(x,y,z,slot)=cell` reads: the part before the first
/// `=`, stripped of leading `(` and trailing `)`, split at commas into at
/// least four fields, the first three of them integers; the fourth field is
/// the slot's text, all after the `=` the cell's.
pub open spec fn detail_fields(line: Seq<char>) -> Result<(i32, i32, i32, Seq<char>, Seq<char>), SerializationError> {
    match first_index(line, '=') {
        None => Err(SerializationError::InvalidDetailLine),
        Some(e) => {
            let fields = split_on(trim_end(trim_start(line.take(e), '('), ')'), ',');
            if fields.len() < 4 {
                Err(SerializationError::InvalidDetailLine)
            } else {
                match (parse_i32(fields[0]), parse_i32(fields[1]), parse_i32(fields[2])) {
                    (Some(x), Some(y), Some(z)) => Ok((x, y, z, fields[3], line.skip(e + 1))),
                    _ => Err(SerializationError::InvalidCoordinate),
                }
            }
        }
    }
}

fn find_first(s: &[char], c: char) -> (r: Option<usize>)
    ensures
        match first_index(s@, c) {
            Some(i) => r == Some(i as usize),
            None => r is None,
        },
{
    let mut i: usize = 0;
    while i < s.len()
        invariant
            i <= s@.len(),
            first_index(s@.take(i as int), c) is None,
        decreases s@.len() - i,
    {
        proof {
            assert(s@.take(i + 1).drop_last() =~= s@.take(i as int));
        }
        if s[i] == c {
            proof {
                lemma_first_index_prefix(s@, c, i + 1);
            }
            return Some(i);
        }
        i += 1;
    }
    proof {
        assert(s@.take(s@.len() as int) =~= s@);
    }
    None
}

proof fn lemma_first_index_bounds(s: Seq<char>, c: char)
    ensures
        first_index(s, c) matches Some(i) ==> 0 <= i < s.len() && s[i] == c,
    decreases s.len(),
{
    if s.len() > 0 {
        lemma_first_index_bounds(s.drop_last(), c);
    }
}

proof fn lemma_first_index_prefix(s: Seq<char>, c: char, k: int)
    requires
        0 <= k <= s.len(),
        first_index(s.take(k), c) is Some,
    ensures
        first_index(s, c) == first_index(s.take(k), c),
    decreases s.len() - k,
{
    if k < s.len() {
        assert(s.take(k + 1).drop_last() =~= s.take(k));
        lemma_first_index_prefix(s, c, k + 1);
    } else {
        assert(s.take(k) =~= s);
    }
}

fn copy_range(s: &[char], from: usize, to: usize) -> (v: Vec<char>)
    requires
        from <= to <= s@.len(),
    ensures
        v@ == s@.subrange(from as int, to as int),
{
    let mut v: Vec<char> = Vec::new();
    let mut k: usize = from;
    while k < to
        invariant
            from <= k <= to,
            to <= s@.len(),
            v@ == s@.subrange(from as int, k as int),
        decreases to - k,
    {
        v.push(s[k]);
        proof {
            assert(s@.subrange(from as int, k + 1) =~= s@.subrange(from as int, k as int).push(s@[k as int]));
        }
        k += 1;
    }
    v
}

proof fn lemma_trim_start_skip(s: Seq<char>, c: char, k: int)
    requires
        0 <= k <= s.len(),
        forall|j: int| 0 <= j < k ==> s[j] == c,
    ensures
        trim_start(s, c) == trim_start(s.skip(k), c),
    decreases k,
{
    if k > 0 {
        assert(s.drop_first().skip(k - 1) =~= s.skip(k));
        lemma_trim_start_skip(s.drop_first(), c, k - 1);
    } else {
        assert(s.skip(0) =~= s);
    }
}

proof fn lemma_trim_end_take(s: Seq<char>, c: char, k: int)
    requires
        0 <= k <= s.len(),
        forall|j: int| k <= j < s.len() ==> s[j] == c,
    ensures
        trim_end(s, c) == trim_end(s.take(k), c),
    decreases s.len() - k,
{
    if k < s.len() {
        assert(s.drop_last().take(k) =~= s.take(k));
        lemma_trim_end_take(s.drop_last(), c, k);
    } else {
        assert(s.take(k) =~= s);
    }
}

fn split_fields(s: &Vec<char>, c: char) -> (fs: Vec<Vec<char>>)
    ensures
        fs@.map_values(|f: Vec<char>| f@) == split_on(s@, c),
{
    let mut fs: Vec<Vec<char>> = Vec::new();
    let mut cur: Vec<char> = Vec::new();
    let mut i: usize = 0;
    proof {
        assert(s@.take(0) =~= Seq::<char>::empty());
    }
    while i < s.len()
        invariant
            i <= s@.len(),
            fs@.map_values(|f: Vec<char>| f@).push(cur@) == split_on(s@.take(i as int), c),
        decreases s@.len() - i,
    {
        proof {
            assert(s@.take(i + 1).drop_last() =~= s@.take(i as int));
        }
        let ghost before = fs@.map_values(|f: Vec<char>| f@).push(cur@);
        if s[i] == c {
            let done = cur;
            cur = Vec::new();
            let ghost pre = fs@;
            fs.push(done);
            proof {
                assert(fs@.map_values(|f: Vec<char>| f@) =~= pre.map_values(|f: Vec<char>| f@).push(done@));
                assert(fs@.map_values(|f: Vec<char>| f@).push(cur@) =~= before.push(seq![]));
            }
        } else {
            cur.push(s[i]);
            proof {
                assert(fs@.map_values(|f: Vec<char>| f@).push(cur@) =~= before.update(before.len() - 1, before.last().push(s@[i as int])));
            }
        }
        i += 1;
    }
    proof {
        assert(s@.take(s@.len() as int) =~= s@);
    }
    let ghost pre = fs@;
    fs.push(cur);
    proof {
        assert(fs@.map_values(|f: Vec<char>| f@) =~= pre.map_values(|f: Vec<char>| f@).push(cur@));
    }
    fs
}

/// Reads a detail line apart (see `detail_fields`).
pub fn read_detail_line(line: &Vec<char>) -> (r: Result<DetailLine, SerializationError>)
    ensures
        match detail_fields(line@) {
            Ok((x, y, z, slot, cell)) => r matches Ok(d) && d.x == x && d.y == y && d.z == z
                && d.slot_text@ == slot && d.cell_text@ == cell,
            Err(e) => r matches Err(e2) && e2 == e,
        },
{
    let sl = line.as_slice();
    let line_len = line.len();
    let found = find_first(sl, '=');
    proof {
        assert(sl@ == line@);
        lemma_first_index_bounds(line@, '=');
        assert(found is Some <==> first_index(line@, '=') is Some);
    }
    let e = match found {
        Some(e) => e,
        None => {
            return Err(SerializationError::InvalidDetailLine);
        },
    };
    proof {
        lemma_first_index_bounds(line@, '=');
        assert(line_len == line@.len());
        assert(first_index(line@, '=') == Some(e as int));
    }
    let ghost head = line@.take(e as int);
    // Strip leading '(' and trailing ')' from the part before '='.
    let mut a: usize = 0;
    while a < e && line[a] == '('
        invariant
            a <= e,
            e < line@.len(),
            first_index(line@, '=') == Some(e as int),
            head == line@.take(e as int),
            forall|j: int| 0 <= j < a ==> line@[j] == '(',
        decreases e - a,
    {
        a += 1;
    }
    proof {
        assert forall|j: int| 0 <= j < a implies head[j] == '(' by {
            assert(head[j] == line@[j]);
        }
        lemma_trim_start_skip(head, '(', a as int);
        if a < e {
            assert(head.skip(a as int)[0] == line@[a as int]);
        }
        lemma_trim_start_full(head.skip(a as int), '(');
    }
    let mut b: usize = e;
    while b > a && line[b - 1] == ')'
        invariant
            a <= b <= e,
            e < line@.len(),
            first_index(line@, '=') == Some(e as int),
            head == line@.take(e as int),
            trim_start(head, '(') == head.skip(a as int),
            forall|j: int| b <= j < e ==> line@[j] == ')',
        decreases b - a,
    {
        b -= 1;
    }
    let core = copy_range(line.as_slice(), a, b);
    proof {
        let t = trim_start(head, '(');
        assert(t == head.skip(a as int));
        assert(core@ =~= t.take((b - a) as int));
        assert forall|j: int| (b - a) <= j < t.len() implies t[j] == ')' by {
            assert(t[j] == line@[a + j]);
        }
        lemma_trim_end_take(t, ')', (b - a) as int);
        if b > a {
            assert(core@.last() == line@[b - 1]);
        }
        lemma_trim_end_full(core@, ')', b > a);
    }
    let fields = split_fields(&core, ',');
    proof {
        assert(fields@.map_values(|f: Vec<char>| f@) == split_on(trim_end(trim_start(head, '('), ')'), ','));
    }
    if fields.len() < 4 {
        return Err(SerializationError::InvalidDetailLine);
    }
    proof {
        assert(fields@.map_values(|f: Vec<char>| f@)[0] == fields@[0]@);
        assert(fields@.map_values(|f: Vec<char>| f@)[1] == fields@[1]@);
        assert(fields@.map_values(|f: Vec<char>| f@)[2] == fields@[2]@);
        assert(fields@.map_values(|f: Vec<char>| f@)[3] == fields@[3]@);
    }
    let x = read_i32(fields[0].as_slice());
    let y = read_i32(fields[1].as_slice());
    let z = read_i32(fields[2].as_slice());
    match (x, y, z) {
        (Some(x), Some(y), Some(z)) => {
            let slot_text = copy_range(fields[3].as_slice(), 0, fields[3].len());
            proof {
                assert(fields@[3]@.subrange(0, fields@[3]@.len() as int) =~= fields@[3]@);
            }
            let cell_text = copy_range(line.as_slice(), e + 1, line.len());
            proof {
                assert(line@.subrange(e + 1, line@.len() as int) =~= line@.skip(e + 1));
            }
            Ok(DetailLine { x, y, z, slot_text, cell_text })
        },
        _ => Err(SerializationError::InvalidCoordinate),
    }
}

proof fn lemma_trim_start_full(s: Seq<char>, c: char)
    requires
        !(s.len() > 0 && s[0] == c),
    ensures
        trim_start(s, c) == s,
{
}

proof fn lemma_trim_end_full(s: Seq<char>, c: char, nonempty: bool)
    requires
        !(s.len() > 0 && s.last() == c),
    ensures
        trim_end(s, c) == s,
{
}


/// The decimal text of `v`, with a leading `-` when negative.
pub open spec fn signed_decimal(v: int) -> Seq<char> {
    if v < 0 { seq!['-'] + decimal((-v) as nat) } else { decimal(v as nat) }
}

/// Appends the decimal text of `v` (see `signed_decimal`).
pub fn push_i32(s: &mut String, v: i32)
    ensures
        final(s)@ == old(s)@ + signed_decimal(v as int),
{
    if v < 0 {
        push_char(s, '-');
        let m: u64 = (0i64 - v as i64) as u64;
        push_decimal(s, m);
        proof {
            assert(final(s)@ =~= old(s)@ + (seq!['-'] + decimal((-v) as nat)));
        }
    } else {
        push_decimal(s, v as u64);
    }
}

/// The detail line `(x,y,z,slot)=cell`.
pub open spec fn detail_text(x: i32, y: i32, z: i32, slot: Seq<char>, cell: Seq<char>) -> Seq<char> {
    seq!['('] + signed_decimal(x as int) + seq![','] + signed_decimal(y as int) + seq![','] + signed_decimal(z as int)
        + seq![','] + slot + seq![')', '='] + cell
}

/// Writes a detail line (see `detail_text`).
pub fn write_detail_line(x: i32, y: i32, z: i32, slot: &str, cell: &str) -> (t: String)
    ensures
        t@ == detail_text(x, y, z, slot@, cell@),
{
    let mut t = String::new();
    push_char(&mut t, '(');
    push_i32(&mut t, x);
    push_char(&mut t, ',');
    push_i32(&mut t, y);
    push_char(&mut t, ',');
    push_i32(&mut t, z);
    push_char(&mut t, ',');
    push_str(&mut t, slot);
    push_char(&mut t, ')');
    push_char(&mut t, '=');
    push_str(&mut t, cell);
    proof {
        assert(t@ =~= detail_text(x, y, z, slot@, cell@));
    }
    t
}


proof fn lemma_digit_char(d: nat)
    requires
        d < 10,
    ensures
        crate::decimal::is_digit(crate::text::digit_char(d)),
        crate::text::digit_char(d) as int - '0' as int == d,
{
    if d == 0 {} else if d == 1 {} else if d == 2 {} else if d == 3 {} else if d == 4 {}
    else if d == 5 {} else if d == 6 {} else if d == 7 {} else if d == 8 {} else {}
}

proof fn lemma_decimal_reads_back(n: nat)
    ensures
        decimal(n).len() > 0,
        crate::decimal::all_digits(decimal(n)),
        crate::decimal::digits_value(decimal(n)) == n,
    decreases n,
{
    if n >= 10 {
        lemma_decimal_reads_back(n / 10);
        lemma_digit_char(n % 10);
        let d = decimal(n / 10);
        let e = d.push(crate::text::digit_char(n % 10));
        assert(decimal(n) == e);
        assert(e.drop_last() =~= d);
        assert(e.last() == crate::text::digit_char(n % 10));
        assert(crate::decimal::digits_value(e) == 10 * (n / 10) + (n % 10) as int);
        assert(10 * (n / 10) + (n % 10) as int == n);
        assert forall|k: int| 0 <= k < e.len() implies crate::decimal::is_digit(#[trigger] e[k]) by {
            if k < d.len() {
                assert(e[k] == d[k]);
            }
        }
    } else {
        lemma_digit_char(n);
        let e = decimal(n);
        assert(e == seq![crate::text::digit_char(n)]);
        assert(e.drop_last() =~= Seq::<char>::empty());
        assert(e.last() == crate::text::digit_char(n));
        assert(crate::decimal::digits_value(e.drop_last()) == 0);
    }
}

proof fn lemma_signed_decimal_reads_back(v: i32)
    ensures
        crate::decimal::parse_i32(signed_decimal(v as int)) == Some(v),
        signed_decimal(v as int).len() > 0,
        signed_decimal(v as int)[0] != '(',
        forall|k: int| 0 <= k < signed_decimal(v as int).len() ==> {
            let c = #[trigger] signed_decimal(v as int)[k];
            c != ',' && c != '=' && c != ')'
        },
{
    if v < 0 {
        lemma_decimal_reads_back((-v) as nat);
        let s = signed_decimal(v as int);
        assert(s.drop_first() =~= decimal((-v) as nat));
        assert forall|k: int| 0 <= k < s.len() implies {
            let c = #[trigger] s[k];
            c != ',' && c != '=' && c != ')'
        } by {
            if k > 0 {
                assert(s[k] == decimal((-v) as nat)[k - 1]);
            }
        }
    } else {
        lemma_decimal_reads_back(v as nat);
        assert(crate::decimal::is_digit(decimal(v as nat)[0]));
    }
}

proof fn lemma_first_index_none(s: Seq<char>, c: char)
    requires
        !s.contains(c),
    ensures
        first_index(s, c) is None,
    decreases s.len(),
{
    if s.len() > 0 {
        assert(!s.drop_last().contains(c)) by {
            if s.drop_last().contains(c) {
                let k = choose|k: int| 0 <= k < s.drop_last().len() && s.drop_last()[k] == c;
                assert(s[k] == c);
            }
        }
        lemma_first_index_none(s.drop_last(), c);
        assert(s[s.len() - 1] == s.last());
    }
}

proof fn lemma_first_index_at(a: Seq<char>, c: char, b: Seq<char>)
    requires
        !a.contains(c),
    ensures
        first_index(a + seq![c] + b, c) == Some(a.len() as int),
    decreases b.len(),
{
    let s = a + seq![c] + b;
    if b.len() == 0 {
        assert(s.drop_last() =~= a);
        lemma_first_index_none(a, c);
    } else {
        assert(s.drop_last() =~= a + seq![c] + b.drop_last());
        lemma_first_index_at(a, c, b.drop_last());
    }
}

proof fn lemma_split_len(s: Seq<char>, c: char)
    ensures
        split_on(s, c).len() >= 1,
    decreases s.len(),
{
    if s.len() > 0 {
        lemma_split_len(s.drop_last(), c);
    }
}

proof fn lemma_split_single(s: Seq<char>, c: char)
    requires
        !s.contains(c),
    ensures
        split_on(s, c) == seq![s],
    decreases s.len(),
{
    if s.len() > 0 {
        assert(!s.drop_last().contains(c)) by {
            if s.drop_last().contains(c) {
                let k = choose|k: int| 0 <= k < s.drop_last().len() && s.drop_last()[k] == c;
                assert(s[k] == c);
            }
        }
        lemma_split_single(s.drop_last(), c);
        assert(s[s.len() - 1] == s.last());
        assert(s.drop_last().push(s.last()) =~= s);
        assert(seq![s.drop_last()].update(0, s.drop_last().push(s.last())) =~= seq![s]);
    } else {
        assert(s =~= Seq::<char>::empty());
    }
}

proof fn lemma_split_join(s: Seq<char>, c: char, t: Seq<char>)
    ensures
        split_on(s + seq![c] + t, c) == split_on(s, c) + split_on(t, c),
    decreases t.len(),
{
    let u = s + seq![c] + t;
    if t.len() == 0 {
        assert(u.drop_last() =~= s);
        assert(split_on(t, c) =~= seq![seq![]]);
        assert(split_on(s, c).push(seq![]) =~= split_on(s, c) + split_on(t, c));
    } else {
        assert(u.drop_last() =~= s + seq![c] + t.drop_last());
        lemma_split_join(s, c, t.drop_last());
        assert(u.last() == t.last());
        let l = split_on(s, c);
        let m = split_on(t.drop_last(), c);
        lemma_split_len(t.drop_last(), c);
        if t.last() == c {
            assert((l + m).push(seq![]) =~= l + m.push(seq![]));
        } else {
            let r = l + m;
            assert(r.last() == m.last());
            assert(r.update(r.len() - 1, r.last().push(t.last()))
                =~= l + m.update(m.len() - 1, m.last().push(t.last())));
        }
    }
}

proof fn lemma_no_char(s: Seq<char>, c: char)
    requires
        forall|k: int| 0 <= k < s.len() ==> #[trigger] s[k] != c,
    ensures
        !s.contains(c),
{
}

proof fn lemma_head_has_no_equals(xs: Seq<char>, ys: Seq<char>, zs: Seq<char>, slot: Seq<char>)
    requires
        forall|k: int| 0 <= k < xs.len() ==> #[trigger] xs[k] != '=',
        forall|k: int| 0 <= k < ys.len() ==> #[trigger] ys[k] != '=',
        forall|k: int| 0 <= k < zs.len() ==> #[trigger] zs[k] != '=',
        !slot.contains('='),
    ensures
        !(seq!['('] + (xs + seq![','] + ys + seq![','] + zs + seq![','] + slot) + seq![')']).contains('='),
{
    let body = xs + seq![','] + ys + seq![','] + zs + seq![','] + slot;
    let head = seq!['('] + body + seq![')'];
    assert forall|k: int| 0 <= k < head.len() implies #[trigger] head[k] != '=' by {
        if 1 <= k < head.len() - 1 {
            assert(head[k] == body[k - 1]);
            let q = k - 1;
            if q < xs.len() {
                assert(body[q] == xs[q]);
            } else if xs.len() + 1 <= q < xs.len() + 1 + ys.len() {
                assert(body[q] == ys[q - xs.len() - 1]);
            } else if xs.len() + 1 + ys.len() + 1 <= q < xs.len() + 1 + ys.len() + 1 + zs.len() {
                assert(body[q] == zs[q - xs.len() - ys.len() - 2]);
            } else if xs.len() + 1 + ys.len() + 1 + zs.len() + 1 <= q {
                assert(body[q] == slot[q - xs.len() - ys.len() - zs.len() - 3]);
            }
        }
    }
}

proof fn lemma_brackets_go(body: Seq<char>)
    requires
        body.len() > 0,
        body[0] != '(',
        body.last() != ')',
    ensures
        trim_end(trim_start(seq!['('] + body + seq![')'], '('), ')') == body,
{
    let head = seq!['('] + body + seq![')'];
    let inner = body + seq![')'];
    assert(head.drop_first() =~= inner);
    assert(inner[0] == body[0]);
    assert(trim_start(inner, '(') == inner);
    assert(trim_start(head, '(') == inner);
    assert(inner.drop_last() =~= body);
    assert(trim_end(body, ')') == body);
    assert(trim_end(inner, ')') == body);
}

proof fn lemma_fields_split(xs: Seq<char>, ys: Seq<char>, zs: Seq<char>, slot: Seq<char>)
    requires
        !xs.contains(','),
        !ys.contains(','),
        !zs.contains(','),
        !slot.contains(','),
    ensures
        split_on(xs + seq![','] + ys + seq![','] + zs + seq![','] + slot, ',') == seq![xs, ys, zs, slot],
{
    lemma_split_single(xs, ',');
    lemma_split_single(ys, ',');
    lemma_split_single(zs, ',');
    lemma_split_single(slot, ',');
    let b2 = xs + seq![','] + ys;
    let b3 = b2 + seq![','] + zs;
    lemma_split_join(xs, ',', ys);
    lemma_split_join(b2, ',', zs);
    lemma_split_join(b3, ',', slot);
    assert(split_on(b2, ',') =~= seq![xs, ys]);
    assert(split_on(b3, ',') =~= seq![xs, ys, zs]);
    assert(split_on(b3 + seq![','] + slot, ',') =~= seq![xs, ys, zs, slot]);
}

/// A detail line as written reads back as the same cube, slot text and cell
/// text, provided the slot text holds no comma and no `=` and does not end
/// with `)`.
pub proof fn lemma_detail_line_round_trip(x: i32, y: i32, z: i32, slot: Seq<char>, cell: Seq<char>)
    requires
        !slot.contains(','),
        !slot.contains('='),
        slot.len() == 0 || slot.last() != ')',
    ensures
        detail_fields(detail_text(x, y, z, slot, cell)) == Ok::<(i32, i32, i32, Seq<char>, Seq<char>), SerializationError>((x, y, z, slot, cell)),
{
    lemma_signed_decimal_reads_back(x);
    lemma_signed_decimal_reads_back(y);
    lemma_signed_decimal_reads_back(z);
    let xs = signed_decimal(x as int);
    let ys = signed_decimal(y as int);
    let zs = signed_decimal(z as int);
    let body = xs + seq![','] + ys + seq![','] + zs + seq![','] + slot;
    let head = seq!['('] + body + seq![')'];
    let line = detail_text(x, y, z, slot, cell);
    assert(line =~= head + seq!['='] + cell);
    lemma_head_has_no_equals(xs, ys, zs, slot);
    lemma_first_index_at(head, '=', cell);
    let e = head.len() as int;
    assert(line.take(e) =~= head);
    assert(line.skip(e + 1) =~= cell);
    assert(body[0] == xs[0]);
    if slot.len() > 0 {
        assert(body.last() == slot.last());
    } else {
        assert(body.last() == ',');
    }
    lemma_brackets_go(body);
    lemma_no_char(xs, ',');
    lemma_no_char(ys, ',');
    lemma_no_char(zs, ',');
    lemma_fields_split(xs, ys, zs, slot);
}

} // verus!
