use rturn::animation::AnimationRange;
use rturn::grid::{grid_positions, movement_targets, GameGrid, GridPosition};
use rturn::highlight::{reconcile, GridHighlight, HighlightKind};
use rturn::world::{ChangeSpriteIndexOnHover, GridObject, MovementRange, World};

fn pos(x: u32, y: u32) -> GridPosition {
    GridPosition { x, y }
}

fn board() -> GameGrid {
    GameGrid { width: 16, height: 16 }
}

/// A 16x16 board with one unit at (4,4), range 3, as the game starts.
fn world_with_unit() -> (World, usize) {
    let mut w = World::new(board());
    let u = w.spawn_unit(
        pos(4, 4),
        10,
        Some(MovementRange { range: 3, flying: false }),
        Some(AnimationRange::from_start_end(0, 7)),
    );
    (w, u)
}

fn tile_index(w: &World, p: GridPosition) -> usize {
    w.objects.iter().position(|o| !o.is_unit && o.pos == p).unwrap()
}

fn pointer_over(w: &World, idxs: &[usize]) -> Vec<bool> {
    (0..w.objects.len()).map(|i| idxs.contains(&i)).collect()
}

fn markers(w: &World, kind: HighlightKind) -> Vec<GridPosition> {
    w.highlights.iter().filter(|h| h.kind == kind).map(|h| h.pos).collect()
}

fn dist(a: GridPosition, b: GridPosition) -> u64 {
    a.dist(&b)
}

fn select_unit(w: &mut World, u: usize) {
    let t = tile_index(w, w.objects[u].pos);
    let inside = pointer_over(w, &[t, u]);
    w.run_frame(Some(&inside), true);
    assert!(w.objects[u].selected);
}

fn unit(z: u32) -> GridObject {
    GridObject {
        pos: pos(0, 0),
        is_unit: true,
        z,
        hovered: false,
        clicked: false,
        selectable: true,
        selected: false,
        movement: None,
        selected_animation: None,
    }
}

#[test]
fn distance_examples() {
    assert_eq!(dist(pos(0, 0), pos(3, 4)), 7);
    assert_eq!(dist(pos(3, 4), pos(0, 0)), 7);
    assert_eq!(dist(pos(5, 9), pos(5, 9)), 0);
    assert_eq!(dist(pos(7, 1), pos(2, 6)), dist(pos(2, 6), pos(7, 1)));
    assert_eq!(dist(pos(u32::MAX, 0), pos(0, u32::MAX)), 2 * u32::MAX as u64);
}

#[test]
fn click_reaches_highest_z_only() {
    let mut w = World {
        grid: board(),
        objects: vec![unit(1), unit(5), unit(10)],
        highlights: vec![],
        last_click_handled: false,
    };
    w.handle_mouse_interactions(&vec![true, true, true], true);
    let clicked: Vec<bool> = w.objects.iter().map(|o| o.clicked).collect();
    assert_eq!(clicked, vec![false, false, true]);
    assert!(w.objects.iter().all(|o| !o.hovered));
    assert!(w.last_click_handled);
}

#[test]
fn click_ignores_objects_outside_pointer() {
    let mut w = World {
        grid: board(),
        objects: vec![unit(1), unit(5), unit(10)],
        highlights: vec![],
        last_click_handled: false,
    };
    w.handle_mouse_interactions(&vec![true, true, false], true);
    let clicked: Vec<bool> = w.objects.iter().map(|o| o.clicked).collect();
    assert_eq!(clicked, vec![false, true, false]);
}

#[test]
fn click_tie_goes_to_first_candidate() {
    let mut w = World {
        grid: board(),
        objects: vec![unit(3), unit(7), unit(7)],
        highlights: vec![],
        last_click_handled: false,
    };
    w.handle_mouse_interactions(&vec![true, true, true], true);
    let clicked: Vec<bool> = w.objects.iter().map(|o| o.clicked).collect();
    assert_eq!(clicked, vec![false, true, false]);
}

#[test]
fn hover_without_click_marks_every_object_under_pointer() {
    let mut w = World {
        grid: board(),
        objects: vec![unit(1), unit(5), unit(10)],
        highlights: vec![],
        last_click_handled: true,
    };
    w.objects[2].clicked = true;
    w.handle_mouse_interactions(&vec![true, false, true], false);
    let hovered: Vec<bool> = w.objects.iter().map(|o| o.hovered).collect();
    assert_eq!(hovered, vec![true, false, true]);
    assert!(w.objects.iter().all(|o| !o.clicked));
    assert!(w.last_click_handled);
}

#[test]
fn click_on_nothing_is_recorded_unhandled() {
    let mut w = World {
        grid: board(),
        objects: vec![unit(1), unit(5)],
        highlights: vec![],
        last_click_handled: true,
    };
    w.handle_mouse_interactions(&vec![false, false], true);
    assert!(!w.last_click_handled);
    assert!(w.objects.iter().all(|o| !o.clicked && !o.hovered));
}

#[test]
fn frame_without_pointer_touches_no_flags() {
    let (mut w, u) = world_with_unit();
    w.objects[u].hovered = true;
    w.last_click_handled = true;
    w.run_frame(None, true);
    assert!(w.objects[u].hovered);
    assert!(w.last_click_handled);
}

#[test]
fn selecting_another_unit_evicts_the_first() {
    let (mut w, a) = world_with_unit();
    let b = w.spawn_unit(pos(10, 10), 10, Some(MovementRange { range: 2, flying: true }), None);
    select_unit(&mut w, a);
    select_unit(&mut w, b);
    assert!(!w.objects[a].selected);
    assert!(w.objects[b].selected);
    assert_eq!(w.objects.iter().filter(|o| o.selected).count(), 1);
    assert_eq!(markers(&w, HighlightKind::SelectedUnitTile), vec![pos(10, 10)]);
    for p in markers(&w, HighlightKind::MovementRange) {
        let d = dist(p, pos(10, 10));
        assert!(d >= 1 && d <= 2);
    }
}

#[test]
fn at_most_one_selected_over_many_frames() {
    let (mut w, a) = world_with_unit();
    let b = w.spawn_unit(pos(1, 1), 10, None, None);
    let t = tile_index(&w, pos(8, 8));
    let plan: Vec<(Vec<usize>, bool)> = vec![
        (vec![a], true),
        (vec![b], true),
        (vec![b, a], true),
        (vec![t], false),
        (vec![], true),
        (vec![a], true),
        (vec![t], true),
    ];
    for (over, click) in plan {
        let inside = pointer_over(&w, &over);
        w.run_frame(Some(&inside), click);
        assert!(w.objects.iter().filter(|o| o.selected).count() <= 1);
        assert!(markers(&w, HighlightKind::SelectedUnitTile).len() <= 1);
    }
}

#[test]
fn selection_restarts_selected_animation() {
    let (mut w, u) = world_with_unit();
    if let Some(a) = w.objects[u].selected_animation.as_mut() {
        a.current_index = 5;
    }
    select_unit(&mut w, u);
    assert_eq!(w.objects[u].selected_animation.unwrap().current_index, 0);
}

#[test]
fn reconcile_twice_changes_nothing_the_second_time() {
    let mut hs = vec![
        GridHighlight { pos: pos(1, 1), kind: HighlightKind::Hover },
        GridHighlight { pos: pos(2, 2), kind: HighlightKind::Hover },
        GridHighlight { pos: pos(2, 2), kind: HighlightKind::MovementRange },
    ];
    let desired = vec![pos(2, 2), pos(3, 3), pos(3, 3)];
    let first = reconcile(&mut hs, HighlightKind::Hover, &desired);
    assert_eq!(first.spawned, vec![pos(3, 3)]);
    assert_eq!(first.despawned, vec![pos(1, 1)]);
    let after_first = hs.clone();
    let second = reconcile(&mut hs, HighlightKind::Hover, &desired);
    assert!(second.spawned.is_empty());
    assert!(second.despawned.is_empty());
    assert_eq!(hs, after_first);
    assert!(hs.contains(&GridHighlight { pos: pos(2, 2), kind: HighlightKind::MovementRange }));
}

#[test]
fn world_passes_are_idempotent() {
    let (mut w, u) = world_with_unit();
    select_unit(&mut w, u);
    let again = w.handle_player_unit_selection_movement_highlights();
    assert!(again.spawned.is_empty() && again.despawned.is_empty());
    let again = w.handle_player_unit_selection_grid_highlights();
    assert!(again.spawned.is_empty() && again.despawned.is_empty());
    let again = w.handle_hover_grid_highlights();
    assert!(again.spawned.is_empty() && again.despawned.is_empty());
}

#[test]
fn movement_range_of_unit_at_four_four() {
    let (mut w, u) = world_with_unit();
    select_unit(&mut w, u);
    let mut got = markers(&w, HighlightKind::MovementRange);
    got.sort_by_key(|p| (p.x, p.y));
    let mut want = vec![];
    for x in 0..16u32 {
        for y in 0..16u32 {
            let d = dist(pos(x, y), pos(4, 4));
            if d >= 1 && d <= 3 {
                want.push(pos(x, y));
            }
        }
    }
    assert_eq!(want.len(), 24);
    assert_eq!(got, want);
    assert!(!got.contains(&pos(4, 4)));
}

#[test]
fn movement_targets_stay_on_the_board() {
    let mut got = movement_targets(GameGrid { width: 3, height: 2 }, pos(0, 0), 2);
    got.sort_by_key(|p| (p.x, p.y));
    assert_eq!(got, vec![pos(0, 1), pos(1, 0), pos(1, 1), pos(2, 0)]);
}

#[test]
fn grid_positions_cover_the_board() {
    let cells = grid_positions(board());
    assert_eq!(cells.len(), 256);
    assert_eq!(grid_positions(GameGrid { width: 0, height: 5 }).len(), 0);
    assert_eq!(World::new(board()).objects.len(), 256);
}

#[test]
fn select_then_move() {
    let (mut w, u) = world_with_unit();
    select_unit(&mut w, u);
    assert_eq!(markers(&w, HighlightKind::MovementRange).len(), 24);
    let t = tile_index(&w, pos(5, 4));
    let inside = pointer_over(&w, &[t]);
    w.run_frame(Some(&inside), true);
    assert_eq!(w.objects[u].pos, pos(5, 4));
    assert!(!w.objects[u].selected);
    w.run_frame(Some(&pointer_over(&w, &[])), false);
    assert!(markers(&w, HighlightKind::MovementRange).is_empty());
    assert!(markers(&w, HighlightKind::SelectedUnitTile).is_empty());
}

#[test]
fn click_out_of_range_deselects_without_moving() {
    let (mut w, u) = world_with_unit();
    select_unit(&mut w, u);
    let t = tile_index(&w, pos(12, 12));
    let inside = pointer_over(&w, &[t]);
    w.run_frame(Some(&inside), true);
    assert_eq!(w.objects[u].pos, pos(4, 4));
    assert!(!w.objects[u].selected);
    assert!(markers(&w, HighlightKind::MovementRange).is_empty());
}

#[test]
fn click_elsewhere_clears_selection() {
    let (mut w, u) = world_with_unit();
    select_unit(&mut w, u);
    assert!(!markers(&w, HighlightKind::SelectedUnitTile).is_empty());
    let inside = pointer_over(&w, &[]);
    w.run_frame(Some(&inside), true);
    assert!(!w.last_click_handled);
    assert!(!w.objects[u].selected);
    assert!(markers(&w, HighlightKind::SelectedUnitTile).is_empty());
    assert!(markers(&w, HighlightKind::MovementRange).is_empty());
}

#[test]
fn hover_independent_of_selection() {
    let (mut w, _) = world_with_unit();
    let t = tile_index(&w, pos(2, 2));
    let inside = pointer_over(&w, &[t]);
    w.run_frame(Some(&inside), false);
    assert_eq!(
        w.highlights,
        vec![GridHighlight { pos: pos(2, 2), kind: HighlightKind::Hover }]
    );
    let inside = pointer_over(&w, &[]);
    w.run_frame(Some(&inside), false);
    assert!(w.highlights.is_empty());
}

#[test]
fn render_depth_and_tile_frames() {
    let (mut w, u) = world_with_unit();
    let bare = w.objects[tile_index(&w, pos(0, 0))];
    assert_eq!(w.render_depth(&bare), 1);
    assert_eq!(w.tile_sprite_index(pos(0, 0)), 2);
    select_unit(&mut w, u);
    let under = w.objects[tile_index(&w, pos(4, 4))];
    let near = w.objects[tile_index(&w, pos(4, 5))];
    let unit_obj = w.objects[u];
    assert_eq!(w.render_depth(&unit_obj), 10);
    assert_eq!(w.render_depth(&under), 9);
    assert_eq!(w.render_depth(&near), 5);
    assert_eq!(w.tile_sprite_index(pos(4, 4)), 0);
    assert_eq!(w.tile_sprite_index(pos(4, 5)), 3);
    let t = tile_index(&w, pos(9, 9));
    let inside = pointer_over(&w, &[t]);
    w.handle_mouse_interactions(&inside, false);
    w.handle_hover_grid_highlights();
    assert_eq!(w.tile_sprite_index(pos(9, 9)), 1);
    let hovered = w.objects[t];
    assert_eq!(w.render_depth(&hovered), 1);
}

#[test]
fn hover_sprite_choice() {
    let c = ChangeSpriteIndexOnHover { default_index: 2, hover_index: 1 };
    assert_eq!(c.index_for(true), 1);
    assert_eq!(c.index_for(false), 2);
}

#[test]
fn animation_advance_loops_or_holds() {
    let mut a = AnimationRange::from_start_end(0, 1);
    assert_eq!(a.step(true), 0);
    assert_eq!(a.step(true), 1);
    assert_eq!(a.current_index, 0);
    let mut b = AnimationRange::from_start_end(3, 4);
    b.advance(false);
    b.advance(false);
    assert_eq!(b.current_index, 4);
    b.reset();
    assert_eq!(b.current_index, 3);
}

#[test]
fn animation_cursor_past_last_frame_counts_up() {
    let mut a = AnimationRange { start_index: 0, end_index: 2, current_index: 5 };
    assert_eq!(a.step(true), 5);
    assert_eq!(a.current_index, 6);
    let mut b = AnimationRange { start_index: 0, end_index: u32::MAX, current_index: u32::MAX };
    b.advance(false);
    assert_eq!(b.current_index, u32::MAX);
}

#[test]
fn new_world_has_one_tile_per_cell() {
    let w = World::new(GameGrid { width: 5, height: 3 });
    assert_eq!(w.objects.len(), 15);
    let mut cells: Vec<(u32, u32)> = w.objects.iter().map(|o| (o.pos.x, o.pos.y)).collect();
    cells.sort();
    cells.dedup();
    assert_eq!(cells.len(), 15);
    assert!(w.objects.iter().all(|o| !o.is_unit && !o.hovered && !o.clicked && o.pos.x < 5 && o.pos.y < 3));
}
