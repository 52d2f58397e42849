use ruccoon::geom::{dir_step_x, dir_step_y, reverse_direction, Pos, NO_MOVE};
use ruccoon::grid::{Board, MapCell};
use ruccoon::path::{find_path, PathNode};

fn open_board() -> Board {
    Board::from_cells(vec![MapCell::Empty(0); 144])
}

fn board_with_walls(walls: &[(i32, i32)]) -> Board {
    let mut cells = vec![MapCell::Empty(0); 144];
    for &(x, y) in walls {
        cells[(x + y * 12) as usize] = MapCell::Wall;
    }
    Board::from_cells(cells)
}

fn moves_of(path: &[PathNode]) -> usize {
    path.len() - 1
}

#[test]
fn empty_goal_set_gives_none() {
    let board = open_board();
    let goals: Vec<Pos> = vec![];
    let r = find_path(Pos { x: 4, y: 4 }, &board, &goals);
    assert!(r.is_none());
}

#[test]
fn start_in_goals_gives_zero_moves() {
    let board = open_board();
    let start = Pos { x: 3, y: 7 };
    let goals = vec![Pos { x: 3, y: 7 }];
    let path = find_path(start, &board, &goals).expect("start is a goal");
    assert_eq!(path.len(), 1);
    assert_eq!(path[0].direction, NO_MOVE);
    assert_eq!(path[0].pos, start);
}

#[test]
fn open_board_path_length_is_manhattan() {
    let board = open_board();
    let cases = [
        ((0, 0), (5, 5), 10),
        ((0, 0), (11, 11), 22),
        ((2, 9), (2, 0), 9),
        ((7, 3), (6, 3), 1),
    ];
    for &((sx, sy), (gx, gy), dist) in cases.iter() {
        let start = Pos { x: sx, y: sy };
        let goals = vec![Pos { x: gx, y: gy }];
        let path = find_path(start, &board, &goals).expect("goal reachable on open board");
        assert_eq!(moves_of(&path), dist);
        assert_eq!(path[0].pos, Pos { x: gx, y: gy });
        assert_eq!(path[0].direction, NO_MOVE);
        assert_eq!(path[path.len() - 1].pos, start);
    }
}

#[test]
fn walled_off_goal_gives_none() {
    // a full wall column at x = 2 seals the right side off from (0, 0)
    let mut walls = Vec::new();
    for y in 0..12 {
        walls.push((2, y));
    }
    let board = board_with_walls(&walls);
    let goals = vec![Pos { x: 5, y: 5 }];
    let r = find_path(Pos { x: 0, y: 0 }, &board, &goals);
    assert!(r.is_none());
}

#[test]
fn wall_goal_itself_gives_none() {
    let board = board_with_walls(&[(4, 4)]);
    let goals = vec![Pos { x: 4, y: 4 }];
    let r = find_path(Pos { x: 0, y: 0 }, &board, &goals);
    assert!(r.is_none());
}

#[test]
fn path_routes_around_walls() {
    // wall column at x = 2 with a single gap at y = 11
    let mut walls = Vec::new();
    for y in 0..11 {
        walls.push((2, y));
    }
    let board = board_with_walls(&walls);
    let start = Pos { x: 0, y: 0 };
    let goals = vec![Pos { x: 4, y: 0 }];
    let path = find_path(start, &board, &goals).expect("gap leaves the goal reachable");
    // down to the gap, across, and back up: 11 + 2 + 11 more than the bare 2
    assert_eq!(moves_of(&path), 26);
    // walking the moves from the start really ends on the goal
    let mut pos = start;
    let mut nodes = path.clone();
    while let Some(node) = nodes.pop() {
        if node.direction == NO_MOVE {
            break;
        }
        pos = Pos {
            x: pos.x + dir_step_x(node.direction),
            y: pos.y + dir_step_y(node.direction),
        };
    }
    assert_eq!(pos, Pos { x: 4, y: 0 });
}

#[test]
fn nearest_of_several_goals_wins() {
    let board = open_board();
    let start = Pos { x: 6, y: 6 };
    let goals = vec![Pos { x: 0, y: 0 }, Pos { x: 7, y: 7 }, Pos { x: 11, y: 0 }];
    let path = find_path(start, &board, &goals).expect("goals reachable");
    assert_eq!(moves_of(&path), 2);
    assert_eq!(path[0].pos, Pos { x: 7, y: 7 });
}

#[test]
fn reverse_direction_negates_vector() {
    for d in 0u8..4u8 {
        let r = reverse_direction(d);
        assert_eq!(r, (d + 2) % 4);
        assert_eq!(dir_step_x(r), -dir_step_x(d));
        assert_eq!(dir_step_y(r), -dir_step_y(d));
    }
}
