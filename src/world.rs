use vstd::prelude::*;
use crate::animation::AnimationRange;
use crate::grid::{GameGrid, GridPosition, grid_positions, in_movement_range, movement_targets, on_grid};
use crate::highlight::{
    GridHighlight, HighlightKind, ReconcileOutcome, despawn_set, has_marker, is_reconciled,
    lemma_push_contains, marked, reconcile, spawn_set,
};

verus! {

/// How far a unit may move in one go. `flying` is carried along but no rule reads it.
#[derive(Clone, Copy, PartialEq, Eq, Structural, Debug)]
pub struct MovementRange {
    pub range: u32,
    pub flying: bool,
}

/// Something that stands on a cell: a board tile, or a unit.
///
/// `hovered` and `clicked` are what the last hit test found; `selected` is the
/// selection marker.
#[derive(Clone, Copy, Debug)]
pub struct GridObject {
    pub pos: GridPosition,
    pub is_unit: bool,
    pub z: u32,
    pub hovered: bool,
    pub clicked: bool,
    pub selectable: bool,
    pub selected: bool,
    pub movement: Option<MovementRange>,
    pub selected_animation: Option<AnimationRange>,
}

/// The board, everything on it, the highlight markers, and whether the last
/// click landed on something.
pub struct World {
    pub grid: GameGrid,
    pub objects: Vec<GridObject>,
    pub highlights: Vec<GridHighlight>,
    pub last_click_handled: bool,
}

/// No two objects carry the selection marker.
pub open spec fn at_most_one_selected(objs: Seq<GridObject>) -> bool {
    forall|i: int, j: int|
        0 <= i < objs.len() && 0 <= j < objs.len() && #[trigger] objs[i].selected
            && #[trigger] objs[j].selected ==> i == j
}

/// Only selectable objects are selected, and only units are selectable.
pub open spec fn selection_on_units(objs: Seq<GridObject>) -> bool {
    &&& forall|i: int| 0 <= i < objs.len() && #[trigger] objs[i].selected ==> objs[i].selectable
    &&& forall|i: int| 0 <= i < objs.len() && #[trigger] objs[i].selectable ==> objs[i].is_unit
}

/// `i` is the object that a click through the pointer reaches: the pointer is
/// inside it, no other object under the pointer has a higher z, and the
/// objects before it under the pointer have a lower z.
pub open spec fn is_top_candidate(objs: Seq<GridObject>, inside: Seq<bool>, i: int) -> bool {
    &&& 0 <= i < objs.len()
    &&& inside[i]
    &&& forall|j: int| 0 <= j < objs.len() && #[trigger] inside[j] ==> objs[j].z <= objs[i].z
    &&& forall|j: int| 0 <= j < i && #[trigger] inside[j] ==> objs[j].z < objs[i].z
}

/// The pointer is inside some object.
pub open spec fn any_candidate(inside: Seq<bool>) -> bool {
    exists|j: int| 0 <= j < inside.len() && #[trigger] inside[j]
}

/// The object as the hit test leaves it.
pub open spec fn after_hit(o: GridObject, inside: bool, click: bool, top: bool) -> GridObject {
    GridObject { hovered: inside && !click, clicked: click && top, ..o }
}

/// At most one object is the top candidate.
pub proof fn lemma_top_candidate_unique(objs: Seq<GridObject>, inside: Seq<bool>, a: int, b: int)
    requires
        is_top_candidate(objs, inside, a),
        is_top_candidate(objs, inside, b),
    ensures
        a == b,
{
    if a < b {
        assert(inside[a]);
    } else if b < a {
        assert(inside[b]);
    }
}

/// Object `s` carries the selection marker.
pub open spec fn is_selected_index(objs: Seq<GridObject>, s: int) -> bool {
    0 <= s < objs.len() && objs[s].selected
}

/// `t` is the first board tile that the hit test marked clicked.
pub open spec fn is_first_clicked_tile(objs: Seq<GridObject>, t: int) -> bool {
    &&& 0 <= t < objs.len()
    &&& objs[t].clicked
    &&& !objs[t].is_unit
    &&& forall|j: int| 0 <= j < t ==> !(#[trigger] objs[j].clicked && !objs[j].is_unit)
}

/// The selected unit after a click on the tile at `tile_pos`: it moves there
/// when that cell is marked as in movement range, and is deselected either way.
pub open spec fn after_tile_click(
    unit: GridObject,
    tile_pos: GridPosition,
    hs: Seq<GridHighlight>,
) -> GridObject {
    GridObject {
        selected: false,
        pos: if marked(hs, tile_pos, HighlightKind::MovementRange) {
            tile_pos
        } else {
            unit.pos
        },
        ..unit
    }
}

/// `u` is the first selectable object that the hit test marked clicked.
pub open spec fn is_first_clicked_selectable(objs: Seq<GridObject>, u: int) -> bool {
    &&& 0 <= u < objs.len()
    &&& objs[u].clicked
    &&& objs[u].selectable
    &&& forall|j: int| 0 <= j < u ==> !(#[trigger] objs[j].clicked && objs[j].selectable)
}

/// Some selectable object was clicked.
pub open spec fn any_clicked_selectable(objs: Seq<GridObject>) -> bool {
    exists|j: int| 0 <= j < objs.len() && #[trigger] objs[j].clicked && objs[j].selectable
}

/// The animation moved back to its first frame.
pub open spec fn rewound(a: Option<AnimationRange>) -> Option<AnimationRange> {
    match a {
        Some(r) => Some(AnimationRange { current_index: r.start_index, ..r }),
        None => None,
    }
}

/// Object `i` after the selection step: a clicked selectable object takes the
/// marker from whoever held it, and a click that hit nothing clears it.
pub open spec fn after_selection(objs: Seq<GridObject>, handled: bool, i: int) -> GridObject {
    let o = objs[i];
    let first = is_first_clicked_selectable(objs, i);
    GridObject {
        selected: handled && (first || (!any_clicked_selectable(objs) && o.selected)),
        selected_animation: if first {
            rewound(o.selected_animation)
        } else {
            o.selected_animation
        },
        ..o
    }
}

/// Every object after a hit test with pointer containment `inside`.
pub open spec fn hit_all(objs: Seq<GridObject>, inside: Seq<bool>, click: bool) -> Seq<GridObject> {
    Seq::new(
        objs.len(),
        |i: int| after_hit(objs[i], inside[i], click, is_top_candidate(objs, inside, i)),
    )
}

/// The last-click flag after a frame's hit test; `None` when the pointer is
/// off screen, which leaves it as it was.
pub open spec fn handled_after_hit(handled: bool, inside: Option<Seq<bool>>, click: bool) -> bool {
    match inside {
        Some(v) => if click {
            any_candidate(v)
        } else {
            handled
        },
        None => handled,
    }
}

/// The objects after a frame's hit test; unchanged when the pointer is off screen.
pub open spec fn objects_after_hit(
    objs: Seq<GridObject>,
    inside: Option<Seq<bool>>,
    click: bool,
) -> Seq<GridObject> {
    match inside {
        Some(v) => hit_all(objs, v, click),
        None => objs,
    }
}

/// The objects after the tile-click step: when a unit is selected and a tile
/// was clicked, the selected unit as `after_tile_click` leaves it.
pub open spec fn after_grid_click(objs: Seq<GridObject>, hs: Seq<GridHighlight>) -> Seq<GridObject> {
    if (exists|s: int| is_selected_index(objs, s)) && (exists|t: int| is_first_clicked_tile(objs, t)) {
        let s = choose|s: int| is_selected_index(objs, s);
        let t = choose|t: int| is_first_clicked_tile(objs, t);
        objs.update(s, after_tile_click(objs[s], objs[t].pos, hs))
    } else {
        objs
    }
}

/// Every object after the selection step.
pub open spec fn select_all(objs: Seq<GridObject>, handled: bool) -> Seq<GridObject> {
    Seq::new(objs.len(), |i: int| after_selection(objs, handled, i))
}

/// The objects at the end of a frame: hit test, then tile click, then selection.
pub open spec fn frame_objects(
    objs: Seq<GridObject>,
    hs: Seq<GridHighlight>,
    handled: bool,
    inside: Option<Seq<bool>>,
    click: bool,
) -> Seq<GridObject> {
    select_all(
        after_grid_click(objects_after_hit(objs, inside, click), hs),
        handled_after_hit(handled, inside, click),
    )
}

/// `o` is a board tile under the pointer, standing on `p`.
pub open spec fn hovered_tile_at(o: GridObject, p: GridPosition) -> bool {
    !o.is_unit && o.hovered && o.pos == p
}

/// The cells of the hovered board tiles.
pub open spec fn hovered_tiles(objs: Seq<GridObject>) -> Set<GridPosition> {
    Set::new(
        |p: GridPosition| exists|i: int| 0 <= i < objs.len() && #[trigger] hovered_tile_at(objs[i], p),
    )
}

/// The cell of the selected object, if there is one.
pub open spec fn selected_cells(objs: Seq<GridObject>) -> Set<GridPosition> {
    Set::new(
        |p: GridPosition|
            exists|i: int| 0 <= i < objs.len() && #[trigger] objs[i].selected && objs[i].pos == p,
    )
}

/// `o` is selected, has a movement range, and can reach `p`.
pub open spec fn reaches(grid: GameGrid, o: GridObject, p: GridPosition) -> bool {
    match o.movement {
        Some(m) => o.selected && in_movement_range(grid, o.pos, m.range, p),
        None => false,
    }
}

/// The cells the selected object can move to; none when nothing is selected
/// or the selected object has no movement range.
pub open spec fn movement_cells(grid: GameGrid, objs: Seq<GridObject>) -> Set<GridPosition> {
    Set::new(
        |p: GridPosition| exists|i: int| 0 <= i < objs.len() && #[trigger] reaches(grid, objs[i], p),
    )
}

/// The depth at which an object is drawn: units above everything, then tiles
/// under the selected unit, then tiles in movement range, then bare tiles.
pub open spec fn depth_of(hs: Seq<GridHighlight>, o: GridObject) -> u32 {
    if o.is_unit {
        10
    } else if marked(hs, o.pos, HighlightKind::SelectedUnitTile) {
        9
    } else if marked(hs, o.pos, HighlightKind::MovementRange) {
        5
    } else {
        1
    }
}

/// The sprite frame of the tile on `p`: the first of selected-unit tile,
/// movement range, hover, plain, that applies.
pub open spec fn tile_frame_of(hs: Seq<GridHighlight>, p: GridPosition) -> u32 {
    if marked(hs, p, HighlightKind::SelectedUnitTile) {
        0
    } else if marked(hs, p, HighlightKind::MovementRange) {
        3
    } else if marked(hs, p, HighlightKind::Hover) {
        1
    } else {
        2
    }
}

/// A fresh board tile on `p`.
pub open spec fn tile_object(p: GridPosition) -> GridObject {
    GridObject {
        pos: p,
        is_unit: false,
        z: 0,
        hovered: false,
        clicked: false,
        selectable: false,
        selected: false,
        movement: None,
        selected_animation: None,
    }
}

/// A fresh, unselected, selectable unit.
pub open spec fn unit_object(
    pos: GridPosition,
    z: u32,
    movement: Option<MovementRange>,
    selected_animation: Option<AnimationRange>,
) -> GridObject {
    GridObject {
        pos,
        is_unit: true,
        z,
        hovered: false,
        clicked: false,
        selectable: true,
        selected: false,
        movement,
        selected_animation,
    }
}

/// Two sprite frames for an object: one while hovered, one otherwise.
#[derive(Clone, Copy, PartialEq, Eq, Structural, Debug)]
pub struct ChangeSpriteIndexOnHover {
    pub default_index: u32,
    pub hover_index: u32,
}

impl ChangeSpriteIndexOnHover {
    /// The frame to show for the given hover state.
    pub fn index_for(&self, hovered: bool) -> (r: u32)
        ensures
            r == if hovered {
                self.hover_index
            } else {
                self.default_index
            },
    {
        if hovered {
            self.hover_index
        } else {
            self.default_index
        }
    }
}

impl World {
    /// A board of the given size with one tile on each cell, nothing selected,
    /// no markers, and no click recorded as handled.
    pub fn new(grid: GameGrid) -> (r: World)
        ensures
            r.wf(),
            r.grid == grid,
            r.highlights@.len() == 0,
            !r.last_click_handled,
            forall|i: int|
                0 <= i < r.objects@.len() ==> #[trigger] r.objects@[i] == tile_object(r.objects@[i].pos)
                    && on_grid(grid, r.objects@[i].pos),
            forall|p: GridPosition|
                on_grid(grid, p) ==> exists|i: int|
                    0 <= i < r.objects@.len() && #[trigger] r.objects@[i].pos == p,
            forall|i: int, j: int|
                0 <= i < r.objects@.len() && 0 <= j < r.objects@.len() && i != j
                    ==> #[trigger] r.objects@[i].pos != #[trigger] r.objects@[j].pos,
    {
        let cells = grid_positions(grid);
        let mut objects: Vec<GridObject> = Vec::new();
        let mut i: usize = 0;
        while i < cells.len()
            invariant
                i <= cells.len(),
                objects@.len() == i,
                forall|j: int| 0 <= j < i ==> #[trigger] objects@[j] == tile_object(cells@[j]),
            decreases cells.len() - i,
        {
            let p = cells[i];
            objects.push(
                GridObject {
                    pos: p,
                    is_unit: false,
                    z: 0,
                    hovered: false,
                    clicked: false,
                    selectable: false,
                    selected: false,
                    movement: None,
                    selected_animation: None,
                },
            );
            i = i + 1;
        }
        let r = World { grid, objects, highlights: Vec::new(), last_click_handled: false };
        proof {
            assert forall|i: int| 0 <= i < r.objects@.len() implies #[trigger] r.objects@[i]
                == tile_object(r.objects@[i].pos) && on_grid(grid, r.objects@[i].pos) by {
                assert(r.objects@[i] == tile_object(cells@[i]));
                assert(cells@.contains(cells@[i]));
            }
            assert forall|p: GridPosition| on_grid(grid, p) implies exists|i: int|
                0 <= i < r.objects@.len() && #[trigger] r.objects@[i].pos == p by {
                assert(cells@.contains(p));
                let j = choose|j: int| 0 <= j < cells@.len() && cells@[j] == p;
                assert(r.objects@[j] == tile_object(cells@[j]));
            }
            assert(r.highlights@.no_duplicates());
            assert forall|i: int, j: int|
                0 <= i < r.objects@.len() && 0 <= j < r.objects@.len() && i != j
                    implies #[trigger] r.objects@[i].pos != #[trigger] r.objects@[j].pos by {
                assert(r.objects@[i] == tile_object(cells@[i]));
                assert(r.objects@[j] == tile_object(cells@[j]));
            }
        }
        r
    }

    /// Adds a selectable unit and returns its index.
    pub fn spawn_unit(
        &mut self,
        pos: GridPosition,
        z: u32,
        movement: Option<MovementRange>,
        selected_animation: Option<AnimationRange>,
    ) -> (idx: usize)
        requires
            old(self).wf(),
        ensures
            final(self).wf(),
            idx == old(self).objects.len(),
            final(self).objects@ == old(self).objects@.push(
                unit_object(pos, z, movement, selected_animation),
            ),
            final(self).grid == old(self).grid,
            final(self).highlights@ == old(self).highlights@,
            final(self).last_click_handled == old(self).last_click_handled,
    {
        let idx = self.objects.len();
        self.objects.push(
            GridObject {
                pos,
                is_unit: true,
                z,
                hovered: false,
                clicked: false,
                selectable: true,
                selected: false,
                movement,
                selected_animation,
            },
        );
        proof {
            let objs = self.objects@;
            assert forall|a: int, b: int|
                0 <= a < objs.len() && 0 <= b < objs.len() && #[trigger] objs[a].selected
                    && #[trigger] objs[b].selected implies a == b by {
                assert(old(self).objects@[a].selected && old(self).objects@[b].selected);
            }
            assert forall|a: int| 0 <= a < objs.len() && #[trigger] objs[a].selected implies objs[a].selectable by {
                assert(old(self).objects@[a].selected);
            }
            assert forall|a: int| 0 <= a < objs.len() && #[trigger] objs[a].selectable implies objs[a].is_unit by {
                if a < idx {
                    assert(old(self).objects@[a].selectable);
                }
            }
        }
        idx
    }

    /// The depth at which `o` is drawn, given the current markers.
    pub fn render_depth(&self, o: &GridObject) -> (r: u32)
        ensures
            r == depth_of(self.highlights@, *o),
    {
        if o.is_unit {
            10
        } else if has_marker(&self.highlights, o.pos, HighlightKind::SelectedUnitTile) {
            9
        } else if has_marker(&self.highlights, o.pos, HighlightKind::MovementRange) {
            5
        } else {
            1
        }
    }

    /// The sprite frame of the tile on `p`, given the current markers.
    pub fn tile_sprite_index(&self, p: GridPosition) -> (r: u32)
        ensures
            r == tile_frame_of(self.highlights@, p),
    {
        if has_marker(&self.highlights, p, HighlightKind::SelectedUnitTile) {
            0
        } else if has_marker(&self.highlights, p, HighlightKind::MovementRange) {
            3
        } else if has_marker(&self.highlights, p, HighlightKind::Hover) {
            1
        } else {
            2
        }
    }

    /// One frame of interaction: the hit test (only when the pointer is on
    /// screen, `inside` giving for each object whether the pointer is inside
    /// it), then tile clicks, then unit selection, then the three highlight
    /// passes. Every stage keeps the world well formed, so at no point do two
    /// objects carry the selection marker.
    pub fn run_frame(&mut self, inside: Option<&Vec<bool>>, click: bool)
        requires
            old(self).wf(),
            match inside {
                Some(v) => v.len() == old(self).objects.len(),
                None => true,
            },
        ensures
            final(self).wf(),
            at_most_one_selected(final(self).objects@),
            final(self).grid == old(self).grid,
            final(self).objects.len() == old(self).objects.len(),
            final(self).objects@ == frame_objects(
                old(self).objects@,
                old(self).highlights@,
                old(self).last_click_handled,
                match inside {
                    Some(v) => Some(v@),
                    None => None,
                },
                click,
            ),
            final(self).last_click_handled == handled_after_hit(
                old(self).last_click_handled,
                match inside {
                    Some(v) => Some(v@),
                    None => None,
                },
                click,
            ),
            inside is None ==> final(self).last_click_handled == old(self).last_click_handled
                && forall|i: int|
                0 <= i < old(self).objects.len() ==> #[trigger] final(self).objects@[i].hovered
                    == old(self).objects@[i].hovered && final(self).objects@[i].clicked == old(
                    self,
                ).objects@[i].clicked,
            forall|p: GridPosition|
                #[trigger] marked(final(self).highlights@, p, HighlightKind::Hover)
                    <==> hovered_tiles(final(self).objects@).contains(p),
            forall|p: GridPosition|
                #[trigger] marked(final(self).highlights@, p, HighlightKind::SelectedUnitTile)
                    <==> selected_cells(final(self).objects@).contains(p),
            forall|p: GridPosition|
                #[trigger] marked(final(self).highlights@, p, HighlightKind::MovementRange)
                    <==> movement_cells(final(self).grid, final(self).objects@).contains(p),
    {
        let ghost objs0 = self.objects@;
        let ghost hl0 = self.highlights@;
        let ghost inside_view: Option<Seq<bool>> = match inside {
            Some(v) => Some(v@),
            None => None,
        };
        if let Some(v) = inside {
            self.handle_mouse_interactions(v, click);
        }
        proof {
            assert(self.objects@ =~= objects_after_hit(objs0, inside_view, click));
            assert(self.last_click_handled == handled_after_hit(
                old(self).last_click_handled,
                inside_view,
                click,
            ));
        }
        let ghost hit = self.objects@;
        self.handle_grid_clicks();
        proof {
            if (exists|s: int| is_selected_index(hit, s)) && (exists|t: int|
                is_first_clicked_tile(hit, t)) {
                let s = choose|s: int| is_selected_index(hit, s);
                let t = choose|t: int| is_first_clicked_tile(hit, t);
                assert(self.objects@ == hit.update(s, after_tile_click(hit[s], hit[t].pos, hl0)));
            }
            assert(self.objects@ == after_grid_click(hit, hl0));
        }
        let ghost clicked_objs = self.objects@;
        self.handle_unit_selection();
        proof {
            assert(self.objects@ =~= select_all(clicked_objs, self.last_click_handled));
            if inside is None {
                assert forall|i: int| 0 <= i < objs0.len() implies #[trigger] self.objects@[i].hovered
                    == objs0[i].hovered && self.objects@[i].clicked == objs0[i].clicked by {
                    assert(self.objects@[i] == after_selection(clicked_objs, self.last_click_handled, i));
                    if (exists|s: int| is_selected_index(hit, s)) && (exists|t: int|
                        is_first_clicked_tile(hit, t)) {
                        let s = choose|s: int| is_selected_index(hit, s);
                        if i != s {
                            assert(clicked_objs[i] == hit[i]);
                        }
                    }
                }
            }
        }
        let ghost hs0 = self.highlights@;
        self.handle_hover_grid_highlights();
        let ghost hs1 = self.highlights@;
        self.handle_player_unit_selection_grid_highlights();
        let ghost hs2 = self.highlights@;
        self.handle_player_unit_selection_movement_highlights();
        proof {
            let objs = self.objects@;
            let hs3 = self.highlights@;
            assert forall|p: GridPosition|
                #[trigger] marked(hs3, p, HighlightKind::Hover) <==> hovered_tiles(objs).contains(p) by {
                assert(marked(hs3, p, HighlightKind::Hover) <==> marked(hs2, p, HighlightKind::Hover));
                assert(marked(hs2, p, HighlightKind::Hover) <==> marked(hs1, p, HighlightKind::Hover));
                assert(marked(hs1, p, HighlightKind::Hover) <==> hovered_tiles(objs).contains(p));
            }
            assert forall|p: GridPosition|
                #[trigger] marked(hs3, p, HighlightKind::SelectedUnitTile) <==> selected_cells(
                    objs,
                ).contains(p) by {
                assert(marked(hs3, p, HighlightKind::SelectedUnitTile) <==> marked(
                    hs2,
                    p,
                    HighlightKind::SelectedUnitTile,
                ));
                assert(marked(hs2, p, HighlightKind::SelectedUnitTile) <==> selected_cells(
                    objs,
                ).contains(p));
            }
            assert forall|p: GridPosition|
                #[trigger] marked(hs3, p, HighlightKind::MovementRange) <==> movement_cells(
                    self.grid,
                    objs,
                ).contains(p) by {
                assert(marked(hs3, p, HighlightKind::MovementRange) <==> movement_cells(
                    self.grid,
                    objs,
                ).contains(p));
            }
        }
    }

    /// What every frame stage keeps: at most one object selected, only units
    /// selected, and at most one marker of each kind on a cell.
    pub open spec fn wf(&self) -> bool {
        &&& at_most_one_selected(self.objects@)
        &&& selection_on_units(self.objects@)
        &&& self.highlights@.no_duplicates()
    }

    fn find_selected(&self) -> (r: Option<usize>)
        ensures
            match r {
                Some(s) => is_selected_index(self.objects@, s as int),
                None => forall|s: int| !is_selected_index(self.objects@, s),
            },
    {
        let mut i: usize = 0;
        while i < self.objects.len()
            invariant
                i <= self.objects.len(),
                forall|j: int| 0 <= j < i ==> !#[trigger] self.objects@[j].selected,
            decreases self.objects.len() - i,
        {
            if self.objects[i].selected {
                return Some(i);
            }
            i = i + 1;
        }
        None
    }

    fn find_clicked_tile(&self) -> (r: Option<usize>)
        ensures
            match r {
                Some(t) => is_first_clicked_tile(self.objects@, t as int),
                None => forall|t: int| !is_first_clicked_tile(self.objects@, t),
            },
    {
        let mut i: usize = 0;
        while i < self.objects.len()
            invariant
                i <= self.objects.len(),
                forall|j: int|
                    0 <= j < i ==> !(#[trigger] self.objects@[j].clicked && !self.objects@[j].is_unit),
            decreases self.objects.len() - i,
        {
            if self.objects[i].clicked && !self.objects[i].is_unit {
                return Some(i);
            }
            i = i + 1;
        }
        proof {
            assert forall|t: int| !is_first_clicked_tile(self.objects@, t) by {
                if 0 <= t < self.objects@.len() {
                    assert(!(self.objects@[t].clicked && !self.objects@[t].is_unit));
                }
            }
        }
        None
    }

    fn find_clicked_selectable(&self) -> (r: Option<usize>)
        ensures
            match r {
                Some(u) => is_first_clicked_selectable(self.objects@, u as int),
                None => !any_clicked_selectable(self.objects@),
            },
    {
        let mut i: usize = 0;
        while i < self.objects.len()
            invariant
                i <= self.objects.len(),
                forall|j: int|
                    0 <= j < i ==> !(#[trigger] self.objects@[j].clicked
                        && self.objects@[j].selectable),
            decreases self.objects.len() - i,
        {
            if self.objects[i].clicked && self.objects[i].selectable {
                return Some(i);
            }
            i = i + 1;
        }
        None
    }

    /// A click on a board tile while a unit is selected: the unit moves to the
    /// tile if the tile is marked as in its movement range, and loses the
    /// selection either way.
    pub fn handle_grid_clicks(&mut self)
        requires
            old(self).wf(),
        ensures
            final(self).wf(),
            final(self).grid == old(self).grid,
            final(self).highlights@ == old(self).highlights@,
            final(self).last_click_handled == old(self).last_click_handled,
            final(self).objects.len() == old(self).objects.len(),
            forall|s: int, t: int|
                is_selected_index(old(self).objects@, s) && is_first_clicked_tile(old(self).objects@, t)
                    ==> final(self).objects@ == old(self).objects@.update(
                    s,
                    after_tile_click(
                        old(self).objects@[s],
                        old(self).objects@[t].pos,
                        old(self).highlights@,
                    ),
                ),
            (forall|s: int| !is_selected_index(old(self).objects@, s)) || (forall|t: int|
                !is_first_clicked_tile(old(self).objects@, t)) ==> final(self).objects@ == old(
                self,
            ).objects@,
    {
        let ghost objs0 = self.objects@;
        if let Some(s) = self.find_selected() {
            if let Some(t) = self.find_clicked_tile() {
                let tile_pos = self.objects[t].pos;
                let mut unit = self.objects[s];
                if has_marker(&self.highlights, tile_pos, HighlightKind::MovementRange) {
                    unit.pos = tile_pos;
                }
                unit.selected = false;
                self.objects.set(s, unit);
                proof {
                    assert forall|a: int, b: int|
                        is_selected_index(objs0, a) && is_first_clicked_tile(objs0, b) implies
                        self.objects@ == objs0.update(
                        a,
                        after_tile_click(objs0[a], objs0[b].pos, self.highlights@),
                    ) by {
                        assert(a == s as int);
                        if b != t as int {
                            if b < t {
                                assert(objs0[b].clicked && !objs0[b].is_unit);
                            } else {
                                assert(objs0[t as int].clicked && !objs0[t as int].is_unit);
                            }
                        }
                    }
                    assert forall|a: int, b: int|
                        0 <= a < self.objects@.len() && 0 <= b < self.objects@.len()
                            && #[trigger] self.objects@[a].selected
                            && #[trigger] self.objects@[b].selected implies a == b by {
                        assert(objs0[a].selected && objs0[b].selected);
                    }
                    assert forall|a: int| 0 <= a < self.objects@.len() implies (self.objects@[a].selected ==> self.objects@[a].selectable) && (self.objects@[a].selectable ==> self.objects@[a].is_unit) by {
                        assert(self.objects@ == objs0.update(s as int, unit));
                        if a != s as int {
                            assert(self.objects@[a] == objs0[a]);
                            if objs0[a].selected {
                                assert(objs0[a].selectable);
                            }
                        } else {
                            assert(objs0[a].selected);
                        }
                    }

                }
            }
        }
    }

    /// The selection step. The first clicked selectable object takes the
    /// selection marker, which leaves every other object, and its selection
    /// animation restarts. If the last click hit nothing, no object keeps the
    /// marker.
    pub fn handle_unit_selection(&mut self)
        requires
            old(self).wf(),
        ensures
            final(self).wf(),
            final(self).grid == old(self).grid,
            final(self).highlights@ == old(self).highlights@,
            final(self).last_click_handled == old(self).last_click_handled,
            final(self).objects.len() == old(self).objects.len(),
            forall|i: int|
                0 <= i < old(self).objects.len() ==> #[trigger] final(self).objects@[i]
                    == after_selection(old(self).objects@, old(self).last_click_handled, i),
    {
        let chosen = self.find_clicked_selectable();
        let handled = self.last_click_handled;
        let ghost objs0 = self.objects@;
        let ghost grid0 = self.grid;
        let ghost hs0 = self.highlights@;
        let mut i: usize = 0;
        while i < self.objects.len()
            invariant
                i <= self.objects.len(),
                self.objects.len() == objs0.len(),
                self.grid == grid0,
                self.highlights@ == hs0,
                self.last_click_handled == handled,
                match chosen {
                    Some(u) => is_first_clicked_selectable(objs0, u as int),
                    None => !any_clicked_selectable(objs0),
                },
                forall|j: int|
                    0 <= j < i ==> #[trigger] self.objects@[j] == after_selection(objs0, handled, j),
                forall|j: int| i <= j < objs0.len() ==> #[trigger] self.objects@[j] == objs0[j],
            decreases objs0.len() - i,
        {
            let mut o = self.objects[i];
            let is_chosen = match chosen {
                Some(u) => u == i,
                None => false,
            };
            proof {
                match chosen {
                    Some(u) => {
                        if is_first_clicked_selectable(objs0, i as int) && u != i {
                            if u < i {
                                assert(objs0[u as int].clicked && objs0[u as int].selectable);
                            } else {
                                assert(objs0[i as int].clicked && objs0[i as int].selectable);
                            }
                        }
                        assert(any_clicked_selectable(objs0)) by {
                            assert(objs0[u as int].clicked && objs0[u as int].selectable);
                        }
                    },
                    None => {
                        if is_first_clicked_selectable(objs0, i as int) {
                            assert(objs0[i as int].clicked && objs0[i as int].selectable);
                        }
                    },
                }
            }
            o.selected = handled && (is_chosen || (chosen.is_none() && o.selected));
            if is_chosen {
                if let Some(a) = o.selected_animation {
                    let mut a = a;
                    a.reset();
                    o.selected_animation = Some(a);
                }
            }
            self.objects.set(i, o);
            i = i + 1;
        }
        proof {
            assert forall|a: int, b: int|
                0 <= a < self.objects@.len() && 0 <= b < self.objects@.len()
                    && #[trigger] self.objects@[a].selected && #[trigger] self.objects@[b].selected
                    implies a == b by {
                assert(self.objects@[a] == after_selection(objs0, handled, a));
                assert(self.objects@[b] == after_selection(objs0, handled, b));
                match chosen {
                    Some(u) => {
                        if is_first_clicked_selectable(objs0, a) && a != u as int {
                            if a < u {
                                assert(objs0[a].clicked && objs0[a].selectable);
                            } else {
                                assert(objs0[u as int].clicked && objs0[u as int].selectable);
                            }
                        }
                        if is_first_clicked_selectable(objs0, b) && b != u as int {
                            if b < u {
                                assert(objs0[b].clicked && objs0[b].selectable);
                            } else {
                                assert(objs0[u as int].clicked && objs0[u as int].selectable);
                            }
                        }
                        assert(any_clicked_selectable(objs0)) by {
                            assert(objs0[u as int].clicked && objs0[u as int].selectable);
                        }
                    },
                    None => {
                        if is_first_clicked_selectable(objs0, a) {
                            assert(objs0[a].clicked && objs0[a].selectable);
                        }
                        if is_first_clicked_selectable(objs0, b) {
                            assert(objs0[b].clicked && objs0[b].selectable);
                        }
                        assert(objs0[a].selected && objs0[b].selected);
                    },
                }
            }
            assert forall|a: int| 0 <= a < self.objects@.len() implies (self.objects@[a].selected ==> self.objects@[a].selectable) && (self.objects@[a].selectable ==> self.objects@[a].is_unit) by {
                assert(self.objects@[a] == after_selection(objs0, handled, a));
                if objs0[a].selected {
                    assert(objs0[a].selectable);
                }
                if objs0[a].selectable {
                    assert(objs0[a].is_unit) by {
                        assert(selection_on_units(objs0));
                        assert(objs0[a].selected ==> objs0[a].selectable);
                    }
                }
            }
        }
    }

    /// Makes the hover markers stand exactly on the hovered tiles.
    pub fn handle_hover_grid_highlights(&mut self) -> (r: ReconcileOutcome)
        requires
            old(self).wf(),
        ensures
            final(self).wf(),
            final(self).grid == old(self).grid,
            final(self).objects@ == old(self).objects@,
            final(self).last_click_handled == old(self).last_click_handled,
            is_reconciled(
                old(self).highlights@,
                final(self).highlights@,
                HighlightKind::Hover,
                hovered_tiles(old(self).objects@),
            ),
            forall|p: GridPosition|
                r.spawned@.contains(p) <==> spawn_set(
                    old(self).highlights@,
                    HighlightKind::Hover,
                    hovered_tiles(old(self).objects@),
                ).contains(p),
            forall|p: GridPosition|
                r.despawned@.contains(p) <==> despawn_set(
                    old(self).highlights@,
                    HighlightKind::Hover,
                    hovered_tiles(old(self).objects@),
                ).contains(p),
    {
        let mut desired: Vec<GridPosition> = Vec::new();
        let mut i: usize = 0;
        while i < self.objects.len()
            invariant
                i <= self.objects.len(),
                forall|p: GridPosition|
                    #[trigger] desired@.contains(p) <==> exists|j: int|
                        0 <= j < i && #[trigger] hovered_tile_at(self.objects@[j], p),
            decreases self.objects.len() - i,
        {
            let o = self.objects[i];
            let ghost d0 = desired@;
            if !o.is_unit && o.hovered {
                desired.push(o.pos);
                proof {
                    lemma_push_contains(d0, o.pos);
                }
            }
            proof {
                assert forall|p: GridPosition|
                    #[trigger] desired@.contains(p) <==> exists|j: int|
                        0 <= j < i + 1 && #[trigger] hovered_tile_at(self.objects@[j], p) by {
                    if hovered_tile_at(o, p) {
                        assert(hovered_tile_at(self.objects@[i as int], p));
                    }
                    if exists|j: int| 0 <= j < i + 1 && #[trigger] hovered_tile_at(self.objects@[j], p) {
                        let j = choose|j: int| 0 <= j < i + 1 && #[trigger] hovered_tile_at(self.objects@[j], p);
                        if j < i {
                            assert(d0.contains(p));
                        }
                    }
                }
            }
            i = i + 1;
        }
        proof {
            assert(desired@.to_set() =~= hovered_tiles(self.objects@));
        }
        reconcile(&mut self.highlights, HighlightKind::Hover, &desired)
    }

    /// Makes the selected-unit marker stand exactly on the selected unit's cell,
    /// or removes it when nothing is selected.
    pub fn handle_player_unit_selection_grid_highlights(&mut self) -> (r: ReconcileOutcome)
        requires
            old(self).wf(),
        ensures
            final(self).wf(),
            final(self).grid == old(self).grid,
            final(self).objects@ == old(self).objects@,
            final(self).last_click_handled == old(self).last_click_handled,
            is_reconciled(
                old(self).highlights@,
                final(self).highlights@,
                HighlightKind::SelectedUnitTile,
                selected_cells(old(self).objects@),
            ),
            forall|p: GridPosition|
                r.spawned@.contains(p) <==> spawn_set(
                    old(self).highlights@,
                    HighlightKind::SelectedUnitTile,
                    selected_cells(old(self).objects@),
                ).contains(p),
            forall|p: GridPosition|
                r.despawned@.contains(p) <==> despawn_set(
                    old(self).highlights@,
                    HighlightKind::SelectedUnitTile,
                    selected_cells(old(self).objects@),
                ).contains(p),
    {
        let mut desired: Vec<GridPosition> = Vec::new();
        match self.find_selected() {
            Some(s) => {
                desired.push(self.objects[s].pos);
                proof {
                    assert forall|p: GridPosition|
                        desired@.to_set().contains(p) <==> selected_cells(self.objects@).contains(p) by {
                        lemma_push_contains(Seq::<GridPosition>::empty(), self.objects@[s as int].pos);
                        assert(desired@ == Seq::<GridPosition>::empty().push(self.objects@[s as int].pos));
                        if selected_cells(self.objects@).contains(p) {
                            let j = choose|j: int|
                                0 <= j < self.objects@.len() && #[trigger] self.objects@[j].selected
                                    && self.objects@[j].pos == p;
                            assert(j == s as int);
                        }
                    }
                    assert(desired@.to_set() =~= selected_cells(self.objects@));
                }
            },
            None => {
                proof {
                    assert forall|p: GridPosition| !selected_cells(self.objects@).contains(p) by {
                        if selected_cells(self.objects@).contains(p) {
                            let j = choose|j: int|
                                0 <= j < self.objects@.len() && #[trigger] self.objects@[j].selected
                                    && self.objects@[j].pos == p;
                            assert(is_selected_index(self.objects@, j));
                        }
                    }
                    assert(desired@.to_set() =~= selected_cells(self.objects@));
                }
            },
        }
        reconcile(&mut self.highlights, HighlightKind::SelectedUnitTile, &desired)
    }

    /// Makes the movement-range markers stand exactly on the cells the selected
    /// unit can move to, or removes them when there are none.
    pub fn handle_player_unit_selection_movement_highlights(&mut self) -> (r: ReconcileOutcome)
        requires
            old(self).wf(),
        ensures
            final(self).wf(),
            final(self).grid == old(self).grid,
            final(self).objects@ == old(self).objects@,
            final(self).last_click_handled == old(self).last_click_handled,
            is_reconciled(
                old(self).highlights@,
                final(self).highlights@,
                HighlightKind::MovementRange,
                movement_cells(old(self).grid, old(self).objects@),
            ),
            forall|p: GridPosition|
                r.spawned@.contains(p) <==> spawn_set(
                    old(self).highlights@,
                    HighlightKind::MovementRange,
                    movement_cells(old(self).grid, old(self).objects@),
                ).contains(p),
            forall|p: GridPosition|
                r.despawned@.contains(p) <==> despawn_set(
                    old(self).highlights@,
                    HighlightKind::MovementRange,
                    movement_cells(old(self).grid, old(self).objects@),
                ).contains(p),
    {
        let ghost objs = self.objects@;
        let ghost grid = self.grid;
        let desired: Vec<GridPosition> = match self.find_selected() {
            Some(s) => match self.objects[s].movement {
                Some(m) => {
                    let d = movement_targets(self.grid, self.objects[s].pos, m.range);
                    proof {
                        assert forall|p: GridPosition|
                            d@.to_set().contains(p) <==> movement_cells(grid, objs).contains(p) by {
                            if movement_cells(grid, objs).contains(p) {
                                let j = choose|j: int| 0 <= j < objs.len() && #[trigger] reaches(grid, objs[j], p);
                                assert(objs[j].selected);
                                assert(j == s as int);
                            }
                            if d@.contains(p) {
                                assert(reaches(grid, objs[s as int], p));
                            }
                        }
                        assert(d@.to_set() =~= movement_cells(grid, objs));
                    }
                    d
                },
                None => {
                    proof {
                        assert forall|p: GridPosition| !movement_cells(grid, objs).contains(p) by {
                            if movement_cells(grid, objs).contains(p) {
                                let j = choose|j: int| 0 <= j < objs.len() && #[trigger] reaches(grid, objs[j], p);
                                assert(objs[j].selected);
                                assert(j == s as int);
                            }
                        }
                        assert(Seq::<GridPosition>::empty().to_set() =~= movement_cells(grid, objs));
                    }
                    Vec::new()
                },
            },
            None => {
                proof {
                    assert forall|p: GridPosition| !movement_cells(grid, objs).contains(p) by {
                        if movement_cells(grid, objs).contains(p) {
                            let j = choose|j: int| 0 <= j < objs.len() && #[trigger] reaches(grid, objs[j], p);
                            assert(is_selected_index(objs, j));
                        }
                    }
                    assert(Seq::<GridPosition>::empty().to_set() =~= movement_cells(grid, objs));
                }
                Vec::new()
            },
        };
        reconcile(&mut self.highlights, HighlightKind::MovementRange, &desired)
    }

    fn top_candidate(&self, inside: &Vec<bool>) -> (r: Option<usize>)
        requires
            inside.len() == self.objects.len(),
        ensures
            match r {
                Some(i) => is_top_candidate(self.objects@, inside@, i as int),
                None => !any_candidate(inside@),
            },
    {
        let mut best: Option<usize> = None;
        let mut i: usize = 0;
        while i < self.objects.len()
            invariant
                i <= self.objects.len(),
                inside.len() == self.objects.len(),
                match best {
                    Some(b) => {
                        &&& b < i
                        &&& inside@[b as int]
                        &&& forall|j: int|
                            0 <= j < i && #[trigger] inside@[j] ==> self.objects@[j].z
                                <= self.objects@[b as int].z
                        &&& forall|j: int|
                            0 <= j < b && #[trigger] inside@[j] ==> self.objects@[j].z
                                < self.objects@[b as int].z
                    },
                    None => forall|j: int| 0 <= j < i ==> !#[trigger] inside@[j],
                },
            decreases self.objects.len() - i,
        {
            if inside[i] {
                match best {
                    Some(b) => {
                        if self.objects[i].z > self.objects[b].z {
                            best = Some(i);
                        }
                    },
                    None => {
                        best = Some(i);
                    },
                }
            }
            i = i + 1;
        }
        best
    }

    /// Hit test for one frame in which the pointer is on screen. `inside[i]`
    /// says whether the pointer lies strictly inside object `i`'s bounding box.
    ///
    /// Without a click, the objects under the pointer are hovered and none is
    /// clicked. With a click, only the top candidate is clicked, nothing is
    /// hovered, and the last-click flag records whether anything was hit.
    pub fn handle_mouse_interactions(&mut self, inside: &Vec<bool>, click: bool)
        requires
            old(self).wf(),
            inside.len() == old(self).objects.len(),
        ensures
            final(self).wf(),
            final(self).grid == old(self).grid,
            final(self).highlights@ == old(self).highlights@,
            final(self).objects.len() == old(self).objects.len(),
            forall|i: int|
                0 <= i < old(self).objects.len() ==> #[trigger] final(self).objects@[i] == after_hit(
                    old(self).objects@[i],
                    inside@[i],
                    click,
                    is_top_candidate(old(self).objects@, inside@, i),
                ),
            final(self).last_click_handled == if click {
                any_candidate(inside@)
            } else {
                old(self).last_click_handled
            },
            click && any_candidate(inside@) ==> exists|i: int|
                0 <= i < old(self).objects.len() && inside@[i] && #[trigger] final(self).objects@[i].clicked
                    && (forall|j: int|
                    0 <= j < old(self).objects.len() && #[trigger] inside@[j] ==> old(self).objects@[j].z
                        <= old(self).objects@[i].z) && (forall|j: int|
                    0 <= j < old(self).objects.len() && #[trigger] final(self).objects@[j].clicked
                        ==> j == i),
    {
        let top = self.top_candidate(inside);
        let ghost objs0 = self.objects@;
        let ghost grid0 = self.grid;
        let ghost hs0 = self.highlights@;
        let ghost handled0 = self.last_click_handled;
        let mut i: usize = 0;
        while i < self.objects.len()
            invariant
                i <= self.objects.len(),
                self.grid == grid0,
                self.highlights@ == hs0,
                self.last_click_handled == handled0,
                self.objects.len() == objs0.len(),
                inside.len() == objs0.len(),
                match top {
                    Some(t) => is_top_candidate(objs0, inside@, t as int),
                    None => !any_candidate(inside@),
                },
                forall|j: int|
                    0 <= j < i ==> #[trigger] self.objects@[j] == after_hit(
                        objs0[j],
                        inside@[j],
                        click,
                        is_top_candidate(objs0, inside@, j),
                    ),
                forall|j: int| i <= j < objs0.len() ==> #[trigger] self.objects@[j] == objs0[j],
            decreases objs0.len() - i,
        {
            let mut o = self.objects[i];
            let is_top = match top {
                Some(t) => t == i,
                None => false,
            };
            proof {
                match top {
                    Some(t) => {
                        if is_top_candidate(objs0, inside@, i as int) {
                            lemma_top_candidate_unique(objs0, inside@, t as int, i as int);
                        }
                    },
                    None => {
                        if is_top_candidate(objs0, inside@, i as int) {
                            assert(inside@[i as int]);
                        }
                    },
                }
            }
            o.hovered = inside[i] && !click;
            o.clicked = click && is_top;
            self.objects.set(i, o);
            i = i + 1;
        }
        if click {
            self.last_click_handled = top.is_some();
        }
        proof {
            if click && any_candidate(inside@) {
                let t = top.unwrap() as int;
                assert(self.objects@[t].clicked);
                assert forall|j: int|
                    0 <= j < objs0.len() && #[trigger] self.objects@[j].clicked implies j == t by {
                    lemma_top_candidate_unique(objs0, inside@, t, j);
                }
            }
            assert forall|a: int, b: int|
                0 <= a < self.objects@.len() && 0 <= b < self.objects@.len()
                    && #[trigger] self.objects@[a].selected && #[trigger] self.objects@[b].selected
                    implies a == b by {
                assert(objs0[a].selected && objs0[b].selected);
            }
            assert forall|a: int| 0 <= a < self.objects@.len() implies (self.objects@[a].selected ==> self.objects@[a].selectable) && (self.objects@[a].selectable ==> self.objects@[a].is_unit) by {
                assert(self.objects@[a] == after_hit(objs0[a], inside@[a], click, is_top_candidate(objs0, inside@, a)));
            }
        }
    }
}

} // verus!
