//! The navigation grid: per-cell passability kept in a bevy_northstar grid,
//! with the rule that path queries only see a freshly built grid.
//!
//! Writes mark the grid dirty; [`NavigationGrid::build`] rebuilds the
//! path-finding structure and clears the mark. Path requests and path-side
//! queries are refused while the grid is dirty ([`NavigationGrid::request_path`],
//! [`NavigationGrid::query`]).

use vstd::prelude::*;
use bevy_northstar::CardinalGrid;
use bevy_northstar::grid::{Grid, GridSettingsBuilder};
use bevy_northstar::nav::Nav;
use bevy_northstar::pathfind::PathfindArgs;
use crate::terrain::{blocks_movement, terrain_of, is_obstacle};

verus! {

/// The state of one grid cell.
#[derive(Clone, Copy, Debug, PartialEq, Eq, Structural)]
pub enum NavCell {
    Impassable,
    /// Walkable, at the given movement cost.
    Passable(u32),
}

/// A grid cell.
#[derive(Clone, Copy, Debug, PartialEq, Eq, Structural, Hash)]
pub struct GridCell {
    pub x: u32,
    pub y: u32,
}

/// A bevy_northstar grid with four-way movement. It is held in a field of
/// its own because Verus cannot declare `Grid`, whose parameter is bound by
/// an outside trait.
#[verifier::external_body]
pub struct NorthstarGrid {
    grid: CardinalGrid,
}

/// The cells of a bevy_northstar grid by position, each as `Grid::nav`
/// reports it (a portal reads as passable at the portal's cost); the keys are
/// exactly the cells within the grid.
pub uninterp spec fn grid_cells(g: NorthstarGrid) -> Map<GridCell, NavCell>;

/// Relies on `GridSettingsBuilder::new_2d`, `chunk_size`, `build` and
/// `Grid::new`: a `width` by `height` grid, one layer deep, whose cells all
/// start as `Nav::Passable(1)` (the default of `NavSettings`). `new_2d` and
/// `chunk_size` panic below 3; the cell array must fit in `isize`.
#[verifier::external_body]
fn northstar_new(width: u32, height: u32, chunk_size: u32) -> (g: NorthstarGrid)
    requires
        width >= 3,
        height >= 3,
        chunk_size >= 3,
        width * height <= isize::MAX,
    ensures
        grid_cells(g) == Map::new(
            |p: GridCell| p.x < width && p.y < height,
            |p: GridCell| NavCell::Passable(1),
        ),
{
    let settings = GridSettingsBuilder::new_2d(width, height).chunk_size(chunk_size).build();
    NorthstarGrid { grid: Grid::new(&settings) }
}

/// Relies on `Grid::nav`: the cell's `Nav` within the grid, `None` outside.
#[verifier::external_body]
fn northstar_nav(g: &NorthstarGrid, x: u32, y: u32) -> (r: Option<NavCell>)
    ensures
        r == (if grid_cells(*g).contains_key((GridCell { x, y })) {
            Some(grid_cells(*g)[(GridCell { x, y })])
        } else {
            None
        }),
{
    match g.grid.nav([x, y, 0].into()) {
        Some(Nav::Impassable) => Some(NavCell::Impassable),
        Some(Nav::Passable(cost)) => Some(NavCell::Passable(cost)),
        Some(Nav::Portal(portal)) => Some(NavCell::Passable(portal.cost)),
        None => None,
    }
}

/// Relies on `Grid::set_nav`: stores the cell's `Nav`, and only marks the
/// path-finding structure for a rebuild. It panics outside the grid.
#[verifier::external_body]
fn northstar_set_nav(g: &mut NorthstarGrid, x: u32, y: u32, cell: NavCell)
    requires
        grid_cells(*old(g)).contains_key((GridCell { x, y })),
    ensures
        grid_cells(*final(g)) == grid_cells(*old(g)).insert((GridCell { x, y }), cell),
{
    match cell {
        NavCell::Impassable => g.grid.set_nav([x, y, 0].into(), Nav::Impassable),
        NavCell::Passable(cost) => g.grid.set_nav([x, y, 0].into(), Nav::Passable(cost)),
    }
}

/// Relies on `Grid::build`: rebuilds neighbours, chunk nodes and their
/// connections from the cells, leaving every cell's `Nav` as it was.
#[verifier::external_body]
fn northstar_build(g: &mut NorthstarGrid)
    ensures
        grid_cells(*final(g)) == grid_cells(*old(g)),
{
    g.grid.build()
}

/// Relies on `Grid::pathfind`: a path from `start` to `goal` over the cells
/// as last built, or `None`; it returns `None` for a grid that needs a build
/// and for a start or goal outside the grid.
#[verifier::external_body]
fn northstar_pathfind(g: &NorthstarGrid, start: GridCell, goal: GridCell) -> (r: Option<
    Vec<GridCell>,
>)
    ensures
        !grid_cells(*g).contains_key(start) || !grid_cells(*g).contains_key(goal) ==> r is None,
{
    let mut args = PathfindArgs::new([start.x, start.y, 0].into(), [goal.x, goal.y, 0].into());
    g.grid.pathfind(&mut args).map(|p| p.path().iter().map(|v| GridCell { x: v.x, y: v.y }).collect())
}

/// One passability write.
#[derive(Clone, Copy, Debug, PartialEq, Eq, Structural)]
pub struct NavWrite {
    pub cell: GridCell,
    pub nav: NavCell,
}

/// An agent leaving cell `from` for cell `to`.
#[derive(Clone, Copy, Debug, PartialEq, Eq, Structural)]
pub struct AgentMove {
    pub from: GridCell,
    pub to: GridCell,
}

/// Why the grid could not be initialised.
#[derive(Clone, Copy, Debug, PartialEq, Eq, Structural)]
pub enum InitError {
    /// The samples do not cover the grid's cells one for one.
    SampleCount,
}

/// A path query was made while writes are waiting for a rebuild.
#[derive(Clone, Copy, Debug, PartialEq, Eq, Structural)]
pub struct StaleIndex;

/// The observable state of a navigation grid.
pub struct NavModel {
    /// The last state written to each cell.
    pub cells: Map<GridCell, NavCell>,
    /// The cell states that path-finding was last built from.
    pub index: Map<GridCell, NavCell>,
    /// Some write came after the last build.
    pub dirty: bool,
}

/// The model after a write: a cell outside the grid is skipped.
pub open spec fn model_write(s: NavModel, w: NavWrite) -> NavModel {
    if s.cells.contains_key(w.cell) {
        NavModel { cells: s.cells.insert(w.cell, w.nav), index: s.index, dirty: true }
    } else {
        s
    }
}

/// The model after a rebuild.
pub open spec fn model_build(s: NavModel) -> NavModel {
    NavModel { cells: s.cells, index: s.cells, dirty: false }
}

/// The state that the toggle policy writes over `c`.
pub open spec fn toggled(c: NavCell) -> NavCell {
    match c {
        NavCell::Impassable => NavCell::Passable(1),
        NavCell::Passable(_) => NavCell::Impassable,
    }
}

/// The model after toggling cell `p` (a write then a rebuild); a cell outside
/// the grid is left alone.
pub open spec fn model_toggle(s: NavModel, p: GridCell) -> NavModel {
    if s.cells.contains_key(p) {
        model_build(model_write(s, NavWrite { cell: p, nav: toggled(s.cells[p]) }))
    } else {
        s
    }
}

/// The writes for one agent move: free the cell left, block the cell entered.
pub open spec fn model_move(s: NavModel, m: AgentMove) -> NavModel {
    model_write(
        model_write(s, NavWrite { cell: m.from, nav: NavCell::Passable(1) }),
        NavWrite { cell: m.to, nav: NavCell::Impassable },
    )
}

/// The model after the occupancy writes of `moves`, in order, without a rebuild.
pub open spec fn model_moves(s: NavModel, moves: Seq<AgentMove>) -> NavModel
    decreases moves.len(),
{
    if moves.len() == 0 {
        s
    } else {
        model_move(model_moves(s, moves.drop_last()), moves.last())
    }
}

/// The model after `writes`, in order, without a rebuild.
pub open spec fn model_writes(s: NavModel, writes: Seq<NavWrite>) -> NavModel
    decreases writes.len(),
{
    if writes.len() == 0 {
        s
    } else {
        model_write(model_writes(s, writes.drop_last()), writes.last())
    }
}

/// The model after `writes`, in order, each followed by its own rebuild.
pub open spec fn model_writes_each_built(s: NavModel, writes: Seq<NavWrite>) -> NavModel
    decreases writes.len(),
{
    if writes.len() == 0 {
        s
    } else {
        model_build(model_write(model_writes_each_built(s, writes.drop_last()), writes.last()))
    }
}

/// Toggling a cell twice, each toggle with its rebuild, gives the cell back
/// its state when that was impassable or passable at cost 1, and leaves the
/// grid built over the cells it started from.
pub proof fn lemma_toggle_twice(s: NavModel, p: GridCell)
    requires
        s.cells.contains_key(p),
        s.cells[p] == NavCell::Impassable || s.cells[p] == NavCell::Passable(1),
    ensures
        model_toggle(model_toggle(s, p), p) == model_build(s),
{
    let once = model_toggle(s, p);
    assert(once.cells[p] == toggled(s.cells[p]));
    assert(model_toggle(once, p).cells =~= s.cells);
}

/// A batch of writes followed by one rebuild leaves the grid as the same
/// writes each followed by a rebuild do: the same cells, and a path-finding
/// structure built over them. With no writes at all, that holds of a grid
/// that is already built over its cells.
pub proof fn lemma_batched_build(s: NavModel, writes: Seq<NavWrite>)
    requires
        writes.len() > 0 || (!s.dirty && s.index == s.cells),
    ensures
        model_build(model_writes(s, writes)) == model_writes_each_built(s, writes),
{
    lemma_writes_same_cells(s, writes);
    if writes.len() > 0 {
        lemma_writes_same_cells(s, writes.drop_last());
    }
}

/// Rebuilding between writes does not change which cells the writes leave.
proof fn lemma_writes_same_cells(s: NavModel, writes: Seq<NavWrite>)
    ensures
        model_writes(s, writes).cells == model_writes_each_built(s, writes).cells,
    decreases writes.len(),
{
    if writes.len() > 0 {
        lemma_writes_same_cells(s, writes.drop_last());
    }
}

/// The state a cell gets from a noise sample of `v` thousandths.
pub open spec fn nav_of_sample(v: int) -> NavCell {
    if blocks_movement(terrain_of(v)) {
        NavCell::Impassable
    } else {
        NavCell::Passable(1)
    }
}

/// The cell states given by one noise sample per cell, the sample of cell
/// `(x, y)` at index `x * height + y`.
pub open spec fn cells_from_samples(width: int, height: int, samples: Seq<i32>) -> Map<GridCell, NavCell> {
    Map::new(
        |p: GridCell| p.x < width && p.y < height,
        |p: GridCell| nav_of_sample(samples[p.x * height + p.y] as int),
    )
}

/// Owns the per-cell passability and the path-finding structure built from it.
pub struct NavigationGrid {
    grid: NorthstarGrid,
    width: u32,
    height: u32,
    dirty: bool,
    index: Ghost<Map<GridCell, NavCell>>,
}

impl NavigationGrid {
    pub closed spec fn model(self) -> NavModel {
        NavModel { cells: grid_cells(self.grid), index: self.index@, dirty: self.dirty }
    }

    pub closed spec fn spec_width(self) -> u32 {
        self.width
    }

    pub closed spec fn spec_height(self) -> u32 {
        self.height
    }

    /// The grid's invariant: it holds exactly the cells of its rectangle, and
    /// a clean grid's path-finding structure reflects every cell.
    pub closed spec fn wf(self) -> bool {
        &&& grid_cells(self.grid).dom() == Set::new(
            |p: GridCell| p.x < self.width && p.y < self.height,
        )
        &&& !self.dirty ==> self.index@ == grid_cells(self.grid)
    }

    /// A `width` by `height` grid, every cell passable at cost 1, not yet
    /// built. Path-finding chunks are `chunk_size` cells a side.
    pub fn new(width: u32, height: u32, chunk_size: u32) -> (g: NavigationGrid)
        requires
            width >= 3,
            height >= 3,
            chunk_size >= 3,
            width * height <= isize::MAX,
        ensures
            g.wf(),
            g.spec_width() == width,
            g.spec_height() == height,
            g.model().dirty,
            g.model().cells == Map::new(
                |p: GridCell| p.x < width && p.y < height,
                |p: GridCell| NavCell::Passable(1),
            ),
    {
        let grid = northstar_new(width, height, chunk_size);
        NavigationGrid { grid, width, height, dirty: true, index: Ghost(Map::empty()) }
    }

    pub fn width(&self) -> (w: u32)
        ensures
            w == self.spec_width(),
    {
        self.width
    }

    pub fn height(&self) -> (h: u32)
        ensures
            h == self.spec_height(),
    {
        self.height
    }

    /// Whether cell `p` lies within the grid.
    pub fn contains(&self, p: GridCell) -> (b: bool)
        requires
            self.wf(),
        ensures
            b == self.model().cells.contains_key(p),
    {
        p.x < self.width && p.y < self.height
    }

    /// The last state written to cell `(x, y)`, `None` outside the grid.
    pub fn get_nav(&self, x: u32, y: u32) -> (r: Option<NavCell>)
        ensures
            r == (if self.model().cells.contains_key((GridCell { x, y })) {
                Some(self.model().cells[(GridCell { x, y })])
            } else {
                None
            }),
    {
        northstar_nav(&self.grid, x, y)
    }

    /// Writes cell `(x, y)`; path queries see it only after the next build.
    /// A cell outside the grid is skipped, and `false` returned.
    pub fn set_nav(&mut self, x: u32, y: u32, nav: NavCell) -> (written: bool)
        requires
            old(self).wf(),
        ensures
            final(self).wf(),
            final(self).spec_width() == old(self).spec_width(),
            final(self).spec_height() == old(self).spec_height(),
            written == old(self).model().cells.contains_key((GridCell { x, y })),
            final(self).model() == model_write(old(self).model(), NavWrite { cell: GridCell { x, y }, nav }),
    {
        if x < self.width && y < self.height {
            northstar_set_nav(&mut self.grid, x, y, nav);
            self.dirty = true;
            proof {
                assert(grid_cells(self.grid).dom() =~= Set::new(
                    |p: GridCell| p.x < self.width && p.y < self.height,
                ));
            }
            true
        } else {
            false
        }
    }

    /// Rebuilds the path-finding structure from the current cells.
    pub fn build(&mut self)
        requires
            old(self).wf(),
        ensures
            final(self).wf(),
            final(self).spec_width() == old(self).spec_width(),
            final(self).spec_height() == old(self).spec_height(),
            final(self).model() == model_build(old(self).model()),
    {
        northstar_build(&mut self.grid);
        self.dirty = false;
        self.index = Ghost(grid_cells(self.grid));
    }

    /// Whether no write has come since the last build.
    pub fn is_built(&self) -> (b: bool)
        ensures
            b == !self.model().dirty,
    {
        !self.dirty
    }

    /// Asks the path-finder for a path from `start` to `goal`. It is refused
    /// while writes wait for a rebuild, so no path is found over stale cells;
    /// a start or goal outside the grid has no path.
    pub fn request_path(&self, start: GridCell, goal: GridCell) -> (r: Result<
        Option<Vec<GridCell>>,
        StaleIndex,
    >)
        ensures
            r is Err <==> self.model().dirty,
            !self.model().cells.contains_key(start) || !self.model().cells.contains_key(goal) ==> (
            r is Err || r == Ok::<Option<Vec<GridCell>>, StaleIndex>(None)),
    {
        if self.dirty {
            Err(StaleIndex)
        } else {
            Ok(northstar_pathfind(&self.grid, start, goal))
        }
    }

    /// Cell `(x, y)` as path-finding sees it: an error while writes wait for
    /// a rebuild, else the cell's state, `None` outside the grid.
    pub fn query(&self, x: u32, y: u32) -> (r: Result<Option<NavCell>, StaleIndex>)
        requires
            self.wf(),
        ensures
            self.model().dirty ==> r is Err,
            !self.model().dirty ==> r == Ok::<Option<NavCell>, StaleIndex>(
                if self.model().index.contains_key((GridCell { x, y })) {
                    Some(self.model().index[(GridCell { x, y })])
                } else {
                    None
                },
            ),
    {
        if self.dirty {
            Err(StaleIndex)
        } else {
            Ok(self.get_nav(x, y))
        }
    }

    /// The runtime edit: an impassable cell becomes passable at cost 1, any
    /// other becomes impassable, then the grid is rebuilt. A cell outside the
    /// grid is left alone, and `false` returned.
    pub fn toggle(&mut self, x: u32, y: u32) -> (done: bool)
        requires
            old(self).wf(),
        ensures
            final(self).wf(),
            final(self).spec_width() == old(self).spec_width(),
            final(self).spec_height() == old(self).spec_height(),
            done == old(self).model().cells.contains_key((GridCell { x, y })),
            final(self).model() == model_toggle(old(self).model(), GridCell { x, y }),
    {
        match self.get_nav(x, y) {
            Some(current) => {
                let next = match current {
                    NavCell::Impassable => NavCell::Passable(1),
                    NavCell::Passable(_) => NavCell::Impassable,
                };
                self.set_nav(x, y, next);
                self.build();
                true
            },
            None => false,
        }
    }

    /// Applies `writes` in order, then rebuilds once. Cells outside the grid
    /// are skipped.
    pub fn apply_writes(&mut self, writes: &Vec<NavWrite>)
        requires
            old(self).wf(),
        ensures
            final(self).wf(),
            final(self).spec_width() == old(self).spec_width(),
            final(self).spec_height() == old(self).spec_height(),
            final(self).model() == model_build(model_writes(old(self).model(), writes@)),
    {
        let ghost start = self.model();
        let mut i: usize = 0;
        while i < writes.len()
            invariant
                self.wf(),
                self.width == old(self).width,
                self.height == old(self).height,
                start == old(self).model(),
                0 <= i <= writes@.len(),
                self.model() == model_writes(start, writes@.subrange(0, i as int)),
            decreases writes@.len() - i,
        {
            let w = writes[i];
            self.set_nav(w.cell.x, w.cell.y, w.nav);
            proof {
                let next = writes@.subrange(0, i + 1);
                assert(next.drop_last() =~= writes@.subrange(0, i as int));
                assert(next.last() == w);
            }
            i = i + 1;
        }
        proof {
            assert(writes@.subrange(0, writes@.len() as int) =~= writes@);
        }
        self.build();
    }

    /// The occupancy update of one tick: for each move in order, the cell
    /// left becomes passable at cost 1 and the cell entered impassable; then
    /// one rebuild covers them all. Cells outside the grid are skipped.
    pub fn apply_moves(&mut self, moves: &Vec<AgentMove>)
        requires
            old(self).wf(),
        ensures
            final(self).wf(),
            final(self).spec_width() == old(self).spec_width(),
            final(self).spec_height() == old(self).spec_height(),
            final(self).model() == model_build(model_moves(old(self).model(), moves@)),
    {
        let ghost start = self.model();
        let mut i: usize = 0;
        while i < moves.len()
            invariant
                self.wf(),
                self.width == old(self).width,
                self.height == old(self).height,
                start == old(self).model(),
                0 <= i <= moves@.len(),
                self.model() == model_moves(start, moves@.subrange(0, i as int)),
            decreases moves@.len() - i,
        {
            let m = moves[i];
            self.set_nav(m.from.x, m.from.y, NavCell::Passable(1));
            self.set_nav(m.to.x, m.to.y, NavCell::Impassable);
            proof {
                let next = moves@.subrange(0, i + 1);
                assert(next.drop_last() =~= moves@.subrange(0, i as int));
                assert(next.last() == m);
            }
            i = i + 1;
        }
        proof {
            assert(moves@.subrange(0, moves@.len() as int) =~= moves@);
        }
        self.build();
    }

    /// Sets every cell from one noise sample per cell, in thousandths, the
    /// sample of cell `(x, y)` at index `x * height + y`: cells of obstacle
    /// terrain become impassable, the rest passable at cost 1. The grid is
    /// then built. Samples that do not cover the grid leave it unchanged.
    pub fn initialize(&mut self, samples: &Vec<i32>) -> (r: Result<(), InitError>)
        requires
            old(self).wf(),
        ensures
            final(self).wf(),
            final(self).spec_width() == old(self).spec_width(),
            final(self).spec_height() == old(self).spec_height(),
            r is Err <==> samples@.len() != old(self).spec_width() * old(self).spec_height(),
            r is Err ==> final(self).model() == old(self).model(),
            r is Ok ==> final(self).model() == model_build(
                NavModel {
                    cells: cells_from_samples(
                        old(self).spec_width() as int,
                        old(self).spec_height() as int,
                        samples@,
                    ),
                    ..old(self).model()
                },
            ),
    {
        let w = self.width as u64;
        let h = self.height as u64;
        proof {
            assert(w * h <= u64::MAX) by (nonlinear_arith)
                requires
                    w <= u32::MAX,
                    h <= u32::MAX,
            ;
        }
        let n_samples = samples.len();
        if n_samples as u64 != w * h {
            return Err(InitError::SampleCount);
        }
        let ghost want = cells_from_samples(w as int, h as int, samples@);
        let ghost start = grid_cells(self.grid);
        let mut x: u32 = 0;
        while x < self.width
            invariant
                self.wf(),
                self.width == old(self).width,
                self.height == old(self).height,
                w == self.width,
                h == self.height,
                samples@.len() == w * h,
                w * h <= u64::MAX,
                samples@.len() <= usize::MAX,
                want == cells_from_samples(w as int, h as int, samples@),
                start == grid_cells(old(self).grid),
                0 <= x <= w,
                forall|p: GridCell|
                    #[trigger] grid_cells(self.grid).contains_key(p) ==> grid_cells(self.grid)[p]
                        == if p.x < x {
                        want[p]
                    } else {
                        start[p]
                    },
            decreases w - x,
        {
            let mut y: u32 = 0;
            while y < self.height
                invariant
                    self.wf(),
                    self.width == old(self).width,
                    self.height == old(self).height,
                    w == self.width,
                    h == self.height,
                    samples@.len() == w * h,
                    w * h <= u64::MAX,
                    samples@.len() <= usize::MAX,
                w * h <= u64::MAX,
                    want == cells_from_samples(w as int, h as int, samples@),
                    start == grid_cells(old(self).grid),
                    0 <= x < w,
                    0 <= y <= h,
                    forall|p: GridCell|
                        #[trigger] grid_cells(self.grid).contains_key(p) ==> grid_cells(self.grid)[p]
                            == if p.x < x || (p.x == x && p.y < y) {
                            want[p]
                        } else {
                            start[p]
                        },
                decreases h - y,
            {
                proof {
                    assert(x * h + y < w * h && 0 <= x * h) by (nonlinear_arith)
                        requires
                            x < w,
                            y < h,
                    ;
                }
                let k64: u64 = x as u64 * h + y as u64;
                assert(k64 < samples@.len());
                let k = k64 as usize;
                assert(k as int == x * h + y);
                let nav = if is_obstacle(samples[k]) {
                    NavCell::Impassable
                } else {
                    NavCell::Passable(1)
                };
                assert(nav == want[(GridCell { x, y })]);
                northstar_set_nav(&mut self.grid, x, y, nav);
                self.dirty = true;
                proof {
                    assert(grid_cells(self.grid).dom() =~= Set::new(
                        |p: GridCell| p.x < self.width && p.y < self.height,
                    ));
                }
                y = y + 1;
            }
            x = x + 1;
        }
        proof {
            assert(grid_cells(self.grid) =~= want);
        }
        self.build();
        Ok(())
    }
}

} // verus!
