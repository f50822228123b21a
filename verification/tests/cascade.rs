use kairo::{AppBuilder, AppState, CanvasState};

type Place = (String, i32, i32, i32, i32);

fn add(app: &mut AppState, id: &str, x: i32, y: i32, width: i32, height: i32) {
    app.add_box(id.to_string(), x, y, width, height, String::new(), false, None);
}

fn add_selected(app: &mut AppState, id: &str, x: i32, y: i32, width: i32, height: i32) {
    app.add_box(id.to_string(), x, y, width, height, String::new(), true, None);
}

fn places(state: &CanvasState) -> Vec<Place> {
    state.boxes.iter().map(|b| (b.id.clone(), b.x, b.y, b.width, b.height)).collect()
}

fn place(id: &str, x: i32, y: i32, width: i32, height: i32) -> Place {
    (id.to_string(), x, y, width, height)
}

fn strict() -> AppState {
    AppBuilder::new().with_reject_negative_coordinates(true).build()
}

#[test]
fn touching_neighbour_is_pushed_by_the_same_delta() {
    let mut app = AppBuilder::new().build();
    add(&mut app, "a", 0, 0, 10, 10);
    add(&mut app, "b", 10, 0, 10, 10);
    let after = app.move_box("a".to_string(), 5, 0);
    assert_eq!(places(&after), vec![place("a", 5, 0, 10, 10), place("b", 15, 0, 10, 10)]);
    assert_eq!(places(&app.get_full_state()), places(&after));
}

#[test]
fn move_onto_free_ground_moves_one_box() {
    let mut app = AppBuilder::new().build();
    add(&mut app, "a", 0, 0, 10, 10);
    add(&mut app, "b", 100, 100, 10, 10);
    let after = app.move_box("a".to_string(), 40, 7);
    assert_eq!(places(&after), vec![place("a", 40, 7, 10, 10), place("b", 100, 100, 10, 10)]);
}

#[test]
fn move_that_ends_touching_pushes_nothing() {
    let mut app = AppBuilder::new().build();
    add(&mut app, "a", 0, 0, 10, 10);
    add(&mut app, "b", 30, 0, 10, 10);
    let after = app.move_box("a".to_string(), 20, 0);
    assert_eq!(places(&after), vec![place("a", 20, 0, 10, 10), place("b", 30, 0, 10, 10)]);
}

#[test]
fn chain_of_three_moves_as_one() {
    let mut app = AppBuilder::new().build();
    add(&mut app, "a", 0, 0, 10, 10);
    add(&mut app, "b", 10, 0, 10, 10);
    add(&mut app, "c", 20, 0, 10, 10);
    let after = app.move_box("a".to_string(), 5, 0);
    assert_eq!(
        places(&after),
        vec![place("a", 5, 0, 10, 10), place("b", 15, 0, 10, 10), place("c", 25, 0, 10, 10)]
    );
}

#[test]
fn chain_reaches_boxes_listed_before_the_seed() {
    let mut app = AppBuilder::new().build();
    add(&mut app, "c", 20, 0, 10, 10);
    add(&mut app, "far", 0, 50, 10, 10);
    add(&mut app, "b", 10, 0, 10, 10);
    add(&mut app, "a", 0, 0, 10, 10);
    let after = app.move_box("a".to_string(), 3, 0);
    assert_eq!(
        places(&after),
        vec![
            place("c", 23, 0, 10, 10),
            place("far", 0, 50, 10, 10),
            place("b", 13, 0, 10, 10),
            place("a", 3, 0, 10, 10),
        ]
    );
}

#[test]
fn pushed_box_moves_by_the_vector_of_the_move_not_by_the_overlap() {
    let mut app = AppBuilder::new().build();
    add(&mut app, "a", 0, 0, 10, 10);
    add(&mut app, "b", 12, 4, 10, 10);
    let after = app.move_box("a".to_string(), 7, 3);
    assert_eq!(places(&after), vec![place("a", 7, 3, 10, 10), place("b", 19, 7, 10, 10)]);
}

#[test]
fn no_moved_box_overlaps_a_box_that_stayed() {
    let mut app = AppBuilder::new().build();
    add(&mut app, "a", 0, 0, 10, 10);
    add(&mut app, "b", 8, 8, 10, 10);
    add(&mut app, "c", 16, 16, 10, 10);
    add(&mut app, "d", 40, 0, 10, 10);
    add(&mut app, "e", 0, 40, 10, 10);
    let before = app.get_full_state();
    let after = app.move_box("a".to_string(), 4, 4);
    for (i, moved) in after.boxes.iter().enumerate() {
        let did_move = moved.x != before.boxes[i].x || moved.y != before.boxes[i].y;
        if !did_move {
            continue;
        }
        assert_eq!((moved.x, moved.y), (before.boxes[i].x + 4, before.boxes[i].y + 4));
        for (j, other) in after.boxes.iter().enumerate() {
            let stayed = other.x == before.boxes[j].x && other.y == before.boxes[j].y;
            if stayed {
                assert!(!kairo::do_boxes_intersect(moved, other));
            }
        }
    }
    assert_eq!(
        places(&after),
        vec![
            place("a", 4, 4, 10, 10),
            place("b", 12, 12, 10, 10),
            place("c", 20, 20, 10, 10),
            place("d", 40, 0, 10, 10),
            place("e", 0, 40, 10, 10),
        ]
    );
}

#[test]
fn boxes_that_push_each_other_are_moved_once() {
    let mut app = AppBuilder::new().build();
    add(&mut app, "a", 0, 0, 10, 10);
    add(&mut app, "b", 5, 0, 10, 10);
    add(&mut app, "c", 2, 5, 10, 10);
    let after = app.move_box("a".to_string(), 1, 0);
    assert_eq!(
        places(&after),
        vec![place("a", 1, 0, 10, 10), place("b", 6, 0, 10, 10), place("c", 3, 5, 10, 10)]
    );
}

#[test]
fn second_move_to_the_same_target_changes_nothing() {
    let mut app = AppBuilder::new().build();
    add(&mut app, "a", 0, 0, 10, 10);
    add(&mut app, "b", 10, 0, 10, 10);
    add(&mut app, "c", 50, 50, 5, 5);
    let once = app.move_box("a".to_string(), 5, 0);
    let twice = app.move_box("a".to_string(), 5, 0);
    assert_eq!(places(&once), places(&twice));
    assert_eq!(places(&twice)[1], place("b", 15, 0, 10, 10));
}

#[test]
fn second_rejected_move_changes_nothing_either() {
    let mut app = strict();
    add(&mut app, "a", 3, 0, 10, 10);
    let before = places(&app.get_full_state());
    let once = app.move_box("a".to_string(), -1, 0);
    let twice = app.move_box("a".to_string(), -1, 0);
    assert_eq!(places(&once), before);
    assert_eq!(places(&twice), before);
}

#[test]
fn move_of_an_unknown_box_changes_nothing() {
    let mut app = AppBuilder::new().build();
    add(&mut app, "a", 0, 0, 10, 10);
    add(&mut app, "b", 10, 0, 10, 10);
    app.add_connection("a".to_string(), "b".to_string());
    let before = app.get_full_state();
    let after = app.move_box("nobody".to_string(), 5, 5);
    assert_eq!(places(&after), places(&before));
    assert_eq!(after.connections.len(), 1);
    assert_eq!(places(&app.get_full_state()), places(&before));
}

#[test]
fn move_to_where_the_box_stands_changes_nothing() {
    let mut app = AppBuilder::new().build();
    add(&mut app, "a", 4, 4, 10, 10);
    add(&mut app, "b", 6, 6, 10, 10);
    let after = app.move_box("a".to_string(), 4, 4);
    assert_eq!(places(&after), vec![place("a", 4, 4, 10, 10), place("b", 6, 6, 10, 10)]);
}

#[test]
fn move_selected_by_zero_changes_nothing() {
    let mut app = AppBuilder::new().build();
    add_selected(&mut app, "a", 0, 0, 10, 10);
    add(&mut app, "b", 5, 5, 10, 10);
    let before = app.get_full_state();
    let after = app.move_selected_boxes(0, 0);
    assert_eq!(places(&after), places(&before));
    let selected: Vec<bool> = after.boxes.iter().map(|b| b.selected).collect();
    assert_eq!(selected, vec![true, false]);
}

#[test]
fn move_selected_by_zero_changes_nothing_under_the_boundary_policy() {
    let mut app = strict();
    add_selected(&mut app, "a", -5, -5, 10, 10);
    let after = app.move_selected_boxes(0, 0);
    assert_eq!(places(&after), vec![place("a", -5, -5, 10, 10)]);
}

#[test]
fn move_selected_without_a_selection_changes_nothing() {
    let mut app = AppBuilder::new().build();
    add(&mut app, "a", 0, 0, 10, 10);
    add(&mut app, "b", 5, 5, 10, 10);
    let after = app.move_selected_boxes(3, 3);
    assert_eq!(places(&after), vec![place("a", 0, 0, 10, 10), place("b", 5, 5, 10, 10)]);
}

#[test]
fn move_selected_moves_every_selected_box_and_what_they_push() {
    let mut app = AppBuilder::new().build();
    add_selected(&mut app, "a", 0, 0, 10, 10);
    add(&mut app, "b", 10, 0, 10, 10);
    add_selected(&mut app, "c", 0, 30, 10, 10);
    add(&mut app, "d", 40, 30, 10, 10);
    let after = app.move_selected_boxes(5, 0);
    assert_eq!(
        places(&after),
        vec![
            place("a", 5, 0, 10, 10),
            place("b", 15, 0, 10, 10),
            place("c", 5, 30, 10, 10),
            place("d", 40, 30, 10, 10),
        ]
    );
    let selected: Vec<bool> = after.boxes.iter().map(|b| b.selected).collect();
    assert_eq!(selected, vec![true, false, true, false]);
}

#[test]
fn selected_boxes_that_overlap_each_other_move_together() {
    let mut app = AppBuilder::new().build();
    add_selected(&mut app, "a", 0, 0, 10, 10);
    add_selected(&mut app, "b", 5, 5, 10, 10);
    let after = app.move_selected_boxes(-100, 20);
    assert_eq!(places(&after), vec![place("a", -100, 20, 10, 10), place("b", -95, 25, 10, 10)]);
}

#[test]
fn without_the_boundary_policy_boxes_may_go_negative() {
    let mut app = AppBuilder::new().build();
    add(&mut app, "a", 20, 0, 10, 10);
    add(&mut app, "b", 10, 0, 10, 10);
    add(&mut app, "c", 0, 0, 10, 10);
    let after = app.move_box("a".to_string(), 15, 0);
    assert_eq!(
        places(&after),
        vec![place("a", 15, 0, 10, 10), place("b", 5, 0, 10, 10), place("c", -5, 0, 10, 10)]
    );
}

#[test]
fn cascade_into_a_negative_place_is_rejected_as_a_whole() {
    let mut app = strict();
    add(&mut app, "a", 20, 0, 10, 10);
    add(&mut app, "b", 10, 0, 10, 10);
    add(&mut app, "c", 0, 0, 10, 10);
    app.add_connection("a".to_string(), "c".to_string());
    let before = app.get_full_state();
    let after = app.move_box("a".to_string(), 15, 0);
    assert_eq!(
        places(&after),
        vec![place("a", 20, 0, 10, 10), place("b", 10, 0, 10, 10), place("c", 0, 0, 10, 10)]
    );
    assert_eq!(places(&after), places(&before));
    assert_eq!(after.connections.len(), 1);
    assert_eq!(places(&app.get_full_state()), places(&before));
}

#[test]
fn boundary_policy_lets_a_move_to_zero_pass() {
    let mut app = strict();
    add(&mut app, "a", 5, 5, 10, 10);
    let after = app.move_box("a".to_string(), 0, 0);
    assert_eq!(places(&after), vec![place("a", 0, 0, 10, 10)]);
}

#[test]
fn boundary_policy_rejects_a_negative_target() {
    let mut app = strict();
    add(&mut app, "a", 5, 5, 10, 10);
    let after = app.move_box("a".to_string(), 4, -1);
    assert_eq!(places(&after), vec![place("a", 5, 5, 10, 10)]);
}

#[test]
fn boundary_policy_rejects_a_selection_that_would_go_negative() {
    let mut app = strict();
    add_selected(&mut app, "a", 50, 50, 10, 10);
    add_selected(&mut app, "b", 2, 50, 10, 10);
    let after = app.move_selected_boxes(-3, 0);
    assert_eq!(places(&after), vec![place("a", 50, 50, 10, 10), place("b", 2, 50, 10, 10)]);
}

#[test]
fn cascade_past_the_largest_coordinate_is_rejected_as_a_whole() {
    let mut app = AppBuilder::new().build();
    add(&mut app, "a", 0, 0, 10, 10);
    add(&mut app, "b", 10, 0, 10, 10);
    add(&mut app, "edge", i32::MAX - 3, 0, 10, 10);
    add(&mut app, "c", 15, 0, i32::MAX - 15, 10);
    let after = app.move_box("a".to_string(), 5, 0);
    assert_eq!(
        places(&after),
        vec![
            place("a", 0, 0, 10, 10),
            place("b", 10, 0, 10, 10),
            place("edge", i32::MAX - 3, 0, 10, 10),
            place("c", 15, 0, i32::MAX - 15, 10),
        ]
    );
}

#[test]
fn move_across_the_whole_range_of_coordinates() {
    let mut app = AppBuilder::new().build();
    add(&mut app, "a", i32::MIN, i32::MIN, 10, 10);
    let after = app.move_box("a".to_string(), i32::MAX, i32::MAX);
    assert_eq!(places(&after), vec![place("a", i32::MAX, i32::MAX, 10, 10)]);
    let back = app.move_box("a".to_string(), i32::MIN, 0);
    assert_eq!(places(&back), vec![place("a", i32::MIN, 0, 10, 10)]);
}

#[test]
fn move_keeps_text_selection_color_and_connections() {
    let mut app = AppBuilder::new().build();
    app.add_box("a".to_string(), 0, 0, 10, 10, "first".to_string(), true, Some("red".to_string()));
    app.add_box("b".to_string(), 10, 0, 10, 10, "second".to_string(), false, None);
    app.add_connection("a".to_string(), "b".to_string());
    let after = app.move_box("a".to_string(), 5, 0);
    assert_eq!(after.boxes[0].text, "first");
    assert_eq!(after.boxes[0].selected, true);
    assert_eq!(after.boxes[0].color, Some("red".to_string()));
    assert_eq!(after.boxes[1].text, "second");
    assert_eq!(after.boxes[1].selected, false);
    assert_eq!(after.boxes[1].color, None);
    assert_eq!(after.connections.len(), 1);
    assert_eq!(after.connections[0].from, "a");
    assert_eq!(after.connections[0].to, "b");
}

#[test]
fn move_on_an_empty_canvas_changes_nothing() {
    let mut app = AppBuilder::new().build();
    let after = app.move_box("a".to_string(), 1, 1);
    assert!(after.boxes.is_empty());
    let after = app.move_selected_boxes(1, 1);
    assert!(after.boxes.is_empty());
}

#[test]
fn box_without_extent_is_pushed_from_inside_and_not_from_the_edge() {
    let mut app = AppBuilder::new().build();
    add(&mut app, "a", 0, 0, 10, 10);
    add(&mut app, "inside", 12, 5, 0, 0);
    add(&mut app, "on_the_edge", 15, 5, 0, 0);
    let after = app.move_box("a".to_string(), 5, 0);
    assert_eq!(
        places(&after),
        vec![
            place("a", 5, 0, 10, 10),
            place("inside", 17, 5, 0, 0),
            place("on_the_edge", 15, 5, 0, 0),
        ]
    );
}

#[test]
fn boxes_of_one_id_share_the_place_of_the_first_that_is_scheduled() {
    let mut app = AppBuilder::new().build();
    add(&mut app, "twin", 0, 0, 10, 10);
    add(&mut app, "twin", 100, 100, 20, 20);
    add(&mut app, "b", 10, 0, 10, 10);
    let after = app.move_box("twin".to_string(), 5, 0);
    assert_eq!(
        places(&after),
        vec![place("twin", 5, 0, 10, 10), place("twin", 5, 0, 10, 10), place("b", 15, 0, 10, 10)]
    );
}

#[test]
fn boxes_of_one_id_follow_the_one_that_is_pushed_first() {
    let mut app = AppBuilder::new().build();
    add(&mut app, "a", 0, 0, 10, 10);
    add(&mut app, "twin", 100, 100, 20, 20);
    add(&mut app, "twin", 10, 0, 10, 10);
    let after = app.move_box("a".to_string(), 5, 0);
    assert_eq!(
        places(&after),
        vec![place("a", 5, 0, 10, 10), place("twin", 15, 0, 10, 10), place("twin", 15, 0, 10, 10)]
    );
}

#[test]
fn selected_box_of_a_shared_id_moves_the_first_box_of_that_id() {
    let mut app = AppBuilder::new().build();
    add(&mut app, "twin", 0, 0, 10, 10);
    add_selected(&mut app, "twin", 50, 50, 20, 20);
    add(&mut app, "b", 10, 0, 10, 10);
    let after = app.move_selected_boxes(5, 0);
    assert_eq!(
        places(&after),
        vec![place("twin", 5, 0, 10, 10), place("twin", 5, 0, 10, 10), place("b", 15, 0, 10, 10)]
    );
}

#[test]
fn move_by_nothing_leaves_boxes_of_one_id_apart() {
    let mut app = AppBuilder::new().build();
    add(&mut app, "twin", 0, 0, 10, 10);
    add_selected(&mut app, "twin", 50, 50, 20, 20);
    let after = app.move_box("twin".to_string(), 0, 0);
    assert_eq!(places(&after), vec![place("twin", 0, 0, 10, 10), place("twin", 50, 50, 20, 20)]);
    let after = app.move_selected_boxes(0, 0);
    assert_eq!(places(&after), vec![place("twin", 0, 0, 10, 10), place("twin", 50, 50, 20, 20)]);
}

#[test]
fn second_move_changes_nothing_on_a_canvas_with_a_shared_id() {
    let mut app = AppBuilder::new().build();
    add(&mut app, "twin", 0, 0, 10, 10);
    add(&mut app, "twin", 8, 0, 10, 10);
    add(&mut app, "b", 12, 0, 10, 10);
    let once = app.move_box("twin".to_string(), 5, 0);
    let twice = app.move_box("twin".to_string(), 5, 0);
    assert_eq!(places(&once), places(&twice));
    assert_eq!(
        places(&once),
        vec![place("twin", 5, 0, 10, 10), place("twin", 5, 0, 10, 10), place("b", 17, 0, 10, 10)]
    );
}

#[test]
fn large_canvas_moves_as_a_row() {
    let mut app = AppBuilder::new().build();
    for i in 0..200 {
        add(&mut app, &format!("box{}", i), i * 10, 0, 10, 10);
    }
    let after = app.move_box("box0".to_string(), 1, 0);
    for (i, b) in after.boxes.iter().enumerate() {
        assert_eq!((b.x, b.y), (i as i32 * 10 + 1, 0));
    }
    let back = app.move_box("box199".to_string(), 1990, 0);
    for (i, b) in back.boxes.iter().enumerate() {
        assert_eq!((b.x, b.y), (i as i32 * 10, 0));
    }
}
