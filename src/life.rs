//! The rule of the cellular automaton that the quadtree stores the cells of.
use vstd::prelude::*;
use crate::point::Point;
use crate::quadtree::{lemma_filter_to_set, Quadtree};
use crate::region::{Holds, Rect};
use crate::update_list::{near, UpdateList};
use vstd::arithmetic::div_mod::lemma_fundamental_div_mod;

verus! {

/// Whether a cell lives at the next step: a live cell stays alive with two
/// or three live neighbours, a dead one comes alive with exactly three.
pub open spec fn spec_next_alive(is_alive: bool, neighbors: int) -> bool {
    if is_alive {
        2 <= neighbors <= 3
    } else {
        neighbors == 3
    }
}

/// The live cells among the eight neighbours of `c`.
pub open spec fn neighborhood(cells: Set<Point>, c: Point) -> Set<Point> {
    cells.filter(|q: Point| near(c, q) && q != c)
}

/// The state of `c` at the next step.
pub open spec fn fate(cells: Set<Point>, c: Point) -> bool {
    spec_next_alive(cells.contains(c), neighborhood(cells, c).len() as int)
}

/// The cells that the walk can look around without leaving the grid.
pub open spec fn inner(c: Point) -> bool {
    i32::MIN < c.x && c.x <= i32::MAX - 2 && i32::MIN < c.y && c.y <= i32::MAX - 2
}

pub fn next_alive(is_alive: bool, neighbors: usize) -> (r: bool)
    ensures
        r == spec_next_alive(is_alive, neighbors as int),
{
    if is_alive {
        2 <= neighbors && neighbors <= 3
    } else {
        neighbors == 3
    }
}

/// Whether `point` is alive, and how many of its eight neighbours are.
pub fn cell_state(cells: &Quadtree, point: &Point) -> (r: (bool, usize))
    requires
        cells.wf(),
        inner(*point),
    ensures
        r.0 == cells@.contains(*point),
        r.1 == neighborhood(cells@, *point).len(),
{
    let area = Rect::range(
        Point { x: point.x - 1, y: point.y - 1 },
        Point { x: point.x + 2, y: point.y + 2 },
    );
    let found = cells.query(&area);
    let ghost box_of = |q: Point| area.spec_holds(q);
    let ghost others = |q: Point| q != *point;
    let mut neighbors: usize = 0;
    let mut is_alive = false;
    let mut i: usize = 0;
    while i < found.len()
        invariant
            i <= found.len(),
            others == (|q: Point| q != *point),
            neighbors <= i,
            neighbors == found@.take(i as int).filter(others).len(),
            is_alive == found@.take(i as int).contains(*point),
        decreases found.len() - i,
    {
        let ghost before = found@.take(i as int);
        proof {
            assert(found@.take(i + 1) =~= before.push(found@[i as int]));
            before.lemma_filter_push(found@[i as int], others);
        }
        if found[i] == *point {
            is_alive = true;
        } else {
            neighbors = neighbors + 1;
        }
        proof {
            let after = before.push(found@[i as int]);
            if is_alive && !before.contains(*point) {
                assert(after[i as int] == *point);
            }
            if after.contains(*point) && after[i as int] != *point {
                let k = choose|k: int| 0 <= k < after.len() && after[k] == *point;
                assert(before[k] == *point);
            }
            if before.contains(*point) {
                let k = choose|k: int| 0 <= k < before.len() && before[k] == *point;
                assert(after[k] == *point);
            }
        }
        i = i + 1;
    }
    proof {
        assert(found@.take(found.len() as int) == found@);
        assert(box_of == (|q: Point| area.spec_holds(q)));
        lemma_filter_to_set(found@, others);
        found@.filter(others).unique_seq_to_set();
        assert(found@.filter(others).to_set() =~= neighborhood(cells@, *point));
        if cells@.contains(*point) {
            assert(found@.to_set().contains(*point));
        }
        if is_alive {
            assert(found@.to_set().contains(*point));
        }
    }
    (is_alive, neighbors)
}

/// The cells among `candidates` whose state changes at the next step, in
/// their order, each with its new state.
pub fn step_changes(cells: &Quadtree, candidates: &[Point]) -> (r: Vec<(Point, bool)>)
    requires
        cells.wf(),
        forall|k: int| 0 <= k < candidates@.len() ==> inner(#[trigger] candidates@[k]),
    ensures
        r@ == candidates@.filter(|c: Point| fate(cells@, c) != cells@.contains(c)).map_values(
            |c: Point| (c, fate(cells@, c)),
        ),
{
    let ghost changes = |c: Point| fate(cells@, c) != cells@.contains(c);
    let ghost entry = |c: Point| (c, fate(cells@, c));
    let mut out: Vec<(Point, bool)> = Vec::new();
    let mut i: usize = 0;
    while i < candidates.len()
        invariant
            i <= candidates@.len(),
            cells.wf(),
            changes == (|c: Point| fate(cells@, c) != cells@.contains(c)),
            entry == (|c: Point| (c, fate(cells@, c))),
            forall|k: int| 0 <= k < candidates@.len() ==> inner(#[trigger] candidates@[k]),
            out@ == candidates@.take(i as int).filter(changes).map_values(entry),
        decreases candidates.len() - i,
    {
        let cell = candidates[i];
        let ghost before = candidates@.take(i as int);
        proof {
            assert(inner(candidates@[i as int]));
            assert(candidates@.take(i + 1) =~= before.push(cell));
            before.lemma_filter_push(cell, changes);
            let kept = before.filter(changes);
            assert(kept.push(cell).map_values(entry) =~= kept.map_values(entry).push(entry(cell)));
        }
        let (is_alive, neighbors) = cell_state(cells, &cell);
        let alive_next = next_alive(is_alive, neighbors);
        if alive_next != is_alive {
            out.push((cell, alive_next));
        }
        assert(out@ =~= candidates@.take(i + 1).filter(changes).map_values(entry));
        i = i + 1;
    }
    assert(candidates@.take(candidates.len() as int) == candidates@);
    out
}

/// Whether the cell of index `i` in a row-major walk is alive in the fixed
/// starting pattern.
pub open spec fn in_pattern(i: int) -> bool {
    i % 2 == 0 || i % 7 == 0 || i % 13 == 0
}

/// The cells of a `width` by `height` grid from the origin, row by row.
pub open spec fn grid(width: int, height: int) -> Seq<Point> {
    Seq::new(
        (width * height) as nat,
        |i: int| Point { x: (i % width) as i32, y: (i / width) as i32 },
    )
}

/// The live cells of the fixed starting pattern on a `width` by `height`
/// grid, row by row.
pub fn fixed_pattern(width: i32, height: i32) -> (r: Vec<Point>)
    requires
        width >= 0,
        height >= 0,
        width * height <= i32::MAX,
    ensures
        r@ == grid(width as int, height as int).filter(
            |p: Point| in_pattern(p.y * width + p.x),
        ),
{
    let ghost keep = |p: Point| in_pattern(p.y * width + p.x);
    let ghost cells = grid(width as int, height as int);
    let total: i32 = width * height;
    let mut out: Vec<Point> = Vec::new();
    let mut i: i32 = 0;
    while i < total
        invariant
            0 <= i <= total,
            total == width * height,
            width >= 0,
            height >= 0,
            keep == (|p: Point| in_pattern(p.y * width + p.x)),
            cells == grid(width as int, height as int),
            out@ == cells.take(i as int).filter(keep),
        decreases total - i,
    {
        proof {
            assert(width > 0) by (nonlinear_arith)
                requires
                    i < width * height,
                    0 <= i,
                    width >= 0,
                    height >= 0,
            ;
            lemma_fundamental_div_mod(i as int, width as int);
            vstd::arithmetic::div_mod::lemma_div_pos_is_pos(i as int, width as int);
            vstd::arithmetic::div_mod::lemma_div_is_ordered_by_denominator(i as int, 1, width as int);
        }
        let cell = Point { x: i % width, y: i / width };
        let ghost before = cells.take(i as int);
        proof {
            assert(cells[i as int] == cell);
            assert(cells.take(i + 1) =~= before.push(cell));
            before.lemma_filter_push(cell, keep);
            assert(cell.y * width + cell.x == i) by (nonlinear_arith)
                requires
                    i == width * (i / width) + (i % width),
                    cell.y == i / width,
                    cell.x == i % width,
            ;
        }
        if i % 2 == 0 || i % 7 == 0 || i % 13 == 0 {
            out.push(cell);
        }
        i = i + 1;
    }
    assert(cells.take(total as int) =~= cells);
    out
}

/// Moves the update area to `area`, and registers with its neighbours every
/// live cell that the previous area did not hold.
pub fn reframe(updates: &mut UpdateList, cells: &Quadtree, area: Rect)
    requires
        old(updates).wf(),
        cells.wf(),
        forall|c: Point| #[trigger] cells@.contains(c) ==> i32::MIN < c.x < i32::MAX && i32::MIN < c.y < i32::MAX,
    ensures
        final(updates).wf(),
        final(updates).spec_area() == area,
        final(updates)@ == old(updates)@ + Set::new(
            |q: Point|
                exists|c: Point|
                    #![trigger cells@.contains(c), near(c, q)]
                    cells@.contains(c) && !old(updates).spec_area().spec_holds(c) && near(c, q),
        ),
{
    let previous = updates.change_area(area);
    let listed = cells.iter();
    let ghost before = updates@;
    let mut k: usize = 0;
    while k < listed.len()
        invariant
            k <= listed.len(),
            updates.wf(),
            updates.spec_area() == area,
            previous == old(updates).spec_area(),
            listed@.to_set() == cells@,
            forall|c: Point| #[trigger] cells@.contains(c) ==> i32::MIN < c.x < i32::MAX && i32::MIN < c.y < i32::MAX,
            updates@ == before + Set::new(
                |q: Point|
                    exists|j: int|
                        #![trigger listed@[j], near(listed@[j], q)]
                        0 <= j < k && !previous.spec_holds(listed@[j]) && near(listed@[j], q),
            ),
        decreases listed.len() - k,
    {
        let cell = listed[k];
        proof {
            assert(listed@.to_set().contains(cell));
        }
        if !previous.holds(&cell) {
            updates.register_block(cell);
        }
        proof {
            assert forall|q: Point| #![trigger updates@.contains(q)]
                updates@.contains(q) <==> (before.contains(q) || exists|j: int|
                    #![trigger listed@[j], near(listed@[j], q)]
                    0 <= j < k + 1 && !previous.spec_holds(listed@[j]) && near(listed@[j], q)) by {
                if !previous.spec_holds(cell) && near(cell, q) {
                    assert(near(listed@[k as int], q));
                }
            }
        }
        k = k + 1;
        assert(updates@ =~= before + Set::new(
            |q: Point|
                exists|j: int|
                    #![trigger listed@[j], near(listed@[j], q)]
                    0 <= j < k && !previous.spec_holds(listed@[j]) && near(listed@[j], q),
        ));
    }
    proof {
        assert forall|q: Point| #![trigger updates@.contains(q)]
            updates@.contains(q) <==> (before.contains(q) || exists|c: Point|
                #![trigger cells@.contains(c), near(c, q)]
                cells@.contains(c) && !previous.spec_holds(c) && near(c, q)) by {
            if exists|c: Point|
                #![trigger cells@.contains(c), near(c, q)]
                cells@.contains(c) && !previous.spec_holds(c) && near(c, q) {
                let c = choose|c: Point|
                    #![trigger cells@.contains(c), near(c, q)]
                    cells@.contains(c) && !previous.spec_holds(c) && near(c, q);
                assert(listed@.to_set().contains(c));
                let j = choose|j: int| 0 <= j < listed@.len() && listed@[j] == c;
                assert(near(listed@[j], q));
            }
            if exists|j: int|
                #![trigger listed@[j], near(listed@[j], q)]
                0 <= j < k && !previous.spec_holds(listed@[j]) && near(listed@[j], q) {
                let j = choose|j: int|
                    #![trigger listed@[j], near(listed@[j], q)]
                    0 <= j < k && !previous.spec_holds(listed@[j]) && near(listed@[j], q);
                assert(listed@.to_set().contains(listed@[j]));
                assert(cells@.contains(listed@[j]));
            }
        }
    }
    assert(updates@ =~= old(updates)@ + Set::new(
        |q: Point|
            exists|c: Point|
                #![trigger cells@.contains(c), near(c, q)]
                cells@.contains(c) && !old(updates).spec_area().spec_holds(c) && near(c, q),
    ));
}

} // verus!
