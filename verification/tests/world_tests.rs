use snake::cell::{DisplayState, Field, Key};
use snake::world::{World, AREA, HEIGHT, START_HEAD, WIDTH};

fn count_heads(w: &World) -> usize {
    w.fields.iter().filter(|f| matches!(f, Field::Head)).count()
}

fn count_foods(w: &World) -> usize {
    w.fields.iter().filter(|f| matches!(f, Field::Food)).count()
}

fn food_index(w: &World) -> Option<usize> {
    w.fields.iter().position(|f| matches!(f, Field::Food))
}

fn is_border_index(i: usize) -> bool {
    i % WIDTH == 0 || i % WIDTH == WIDTH - 1 || i / WIDTH == 0 || i / WIDTH == HEIGHT - 1
}

/// Follow the tail chain; panics if it does not reach the head within
/// `AREA` steps or revisits a cell.
fn walk_chain(w: &World) -> usize {
    let mut visited = vec![false; AREA];
    let mut at = w.tail;
    let mut steps: usize = 0;
    loop {
        assert!(steps <= AREA, "chain longer than the board");
        assert!(!visited[at], "chain revisits cell {}", at);
        visited[at] = true;
        match w.fields[at] {
            Field::Tail(next) => {
                at = next;
                steps += 1;
            }
            Field::Head => {
                assert_eq!(at, w.head);
                return steps + 1;
            }
            other => panic!("chain hit a non-body cell: {:?}", other),
        }
    }
}

#[test]
fn new_world_layout() {
    let w = World::new();
    assert_eq!(w.fields.len(), AREA);
    assert_eq!(w.head, START_HEAD);
    assert_eq!(w.tail, START_HEAD + 1);
    assert_eq!(w.direction, -1);
    assert_eq!(START_HEAD, 1184);
    assert!(matches!(w.fields[1184], Field::Head));
    assert!(matches!(w.fields[1185], Field::Tail(1184)));
    for i in 0..AREA {
        assert_eq!(matches!(w.fields[i], Field::Border), is_border_index(i), "cell {}", i);
    }
    assert_eq!(count_heads(&w), 1);
    assert_eq!(count_foods(&w), 1);
    let food = food_index(&w).unwrap();
    assert!(!is_border_index(food));
    assert!(food != 1184 && food != 1185);
}

#[test]
fn direction_mapping() {
    let mut w = World::new();
    w.change_player_direction(Key::Up);
    assert_eq!(w.direction, -(WIDTH as i32));
    w.change_player_direction(Key::Down);
    assert_eq!(w.direction, WIDTH as i32);
    w.change_player_direction(Key::Right);
    assert_eq!(w.direction, 1);
    w.change_player_direction(Key::Left);
    assert_eq!(w.direction, -1);
    w.change_player_direction(Key::Other);
    assert_eq!(w.direction, -1);
}

#[test]
fn translation_without_food() {
    let mut w = World::new_unseeded();
    w.place_food(100);
    w.update();
    // the whole body moved one step left
    assert_eq!(w.head, 1183);
    assert_eq!(w.tail, 1184);
    assert!(matches!(w.fields[1183], Field::Head));
    assert!(matches!(w.fields[1184], Field::Tail(1183)));
    assert!(matches!(w.fields[1185], Field::Empty));
    assert_eq!(walk_chain(&w), 2);
    assert_eq!(food_index(&w), Some(100));
    assert_eq!(count_heads(&w), 1);
}

#[test]
fn growth_on_food() {
    let mut w = World::new_unseeded();
    w.place_food(1183);
    w.update();
    // the head took the food's cell and nothing was vacated
    assert_eq!(w.head, 1183);
    assert_eq!(w.tail, 1185);
    assert!(matches!(w.fields[1183], Field::Head));
    assert!(matches!(w.fields[1184], Field::Tail(1183)));
    assert!(matches!(w.fields[1185], Field::Tail(1184)));
    assert_eq!(walk_chain(&w), 3);
    // exactly one new food, elsewhere, on a cell that was empty
    assert_eq!(count_foods(&w), 1);
    let food = food_index(&w).unwrap();
    assert!(!is_border_index(food));
    assert!(food != 1183 && food != 1184 && food != 1185);
}

#[test]
fn neck_reversal_bounces() {
    let mut w = World::new_unseeded();
    w.place_food(100);
    // the neck sits at head + 1; steering right reverses into it
    w.change_player_direction(Key::Right);
    w.update();
    assert_eq!(w.head, 1183, "head must come out on the opposite side");
    assert!(matches!(w.fields[1183], Field::Head));
    assert!(matches!(w.fields[1184], Field::Tail(1183)));
    assert!(matches!(w.fields[1185], Field::Empty));
}

#[test]
fn freeze_on_border_collision() {
    let mut w = World::new_unseeded();
    w.place_food(100);
    // the head starts 31 empty cells away from the left border
    for _ in 0..31 {
        w.update();
        assert_eq!(count_heads(&w), 1);
    }
    assert_eq!(w.head, 1153);
    assert!(w.is_alive());
    w.update();
    // the colliding tick leaves no Head cell anywhere
    assert!(!w.is_alive());
    assert_eq!(count_heads(&w), 0);
    assert_eq!(count_foods(&w), 1);
    // a further tick is a perfect no-op
    let fields_before = w.fields.clone();
    let (head_before, tail_before, dir_before) = (w.head, w.tail, w.direction);
    w.update();
    assert_eq!(w.fields, fields_before);
    assert_eq!(w.head, head_before);
    assert_eq!(w.tail, tail_before);
    assert_eq!(w.direction, dir_before);
}

#[test]
fn invariants_through_random_play() {
    let mut w = World::new();
    let keys = [Key::Up, Key::Right, Key::Down, Key::Right, Key::Up, Key::Left, Key::Down];
    for round in 0..200 {
        w.change_player_direction(keys[round % keys.len()]);
        w.update();
        let heads = count_heads(&w);
        if heads == 1 {
            assert_eq!(count_foods(&w), 1);
            walk_chain(&w);
        } else {
            assert_eq!(heads, 0, "never more than one head");
        }
    }
}

#[test]
fn chain_integrity_while_growing() {
    let mut w = World::new_unseeded();
    w.place_food(1183);
    w.update();
    assert_eq!(walk_chain(&w), 3);
    // keep translating along the row and re-check the chain each tick
    for _ in 0..10 {
        w.update();
        if count_heads(&w) == 1 {
            walk_chain(&w);
        }
    }
}

#[test]
fn place_food_places_food() {
    let mut w = World::new_unseeded();
    assert_eq!(count_foods(&w), 0);
    w.place_food(200);
    assert!(matches!(w.fields[200], Field::Food));
    assert_eq!(count_foods(&w), 1);
}

#[test]
fn display_state_collapses_tail() {
    let mut w = World::new_unseeded();
    w.place_food(100);
    assert_eq!(w.display_state(0), DisplayState::Border);
    assert_eq!(w.display_state(1184), DisplayState::Head);
    assert_eq!(w.display_state(1185), DisplayState::Tail);
    assert_eq!(w.display_state(100), DisplayState::Food);
    assert_eq!(w.display_state(200), DisplayState::Empty);
    assert_eq!(w.field(1185), Field::Tail(1184));
}
