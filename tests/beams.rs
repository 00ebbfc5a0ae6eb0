use beam_grid::grid::{Beam, BeamError, Dir, Grid};
use beam_grid::rules::tile_rule;
use beam_grid::scan::{max_illumination, max_illumination_memo, ExitMemo};
use beam_grid::solve::{part1, part2, part2_opt};
use beam_grid::trace::{
    count_lit, illumination_count, state_index_of, traverse, traverse_track_exits,
};

const EXAMPLE_INPUT: &str = r#".|...\....
|.-.\.....
.....|-...
........|.
..........
.........\
..../.\\..
.-.-/..|..
.|....-|.\
..//.|...."#;

// A ring of mirrors and splitters met end-on round one empty centre cell.
const RING: &str = "/-\\\n|.|\n\\-/";

fn grid(text: &str) -> Grid {
    Grid::from_text(text).unwrap()
}

#[test]
fn test_part1_example() {
    assert_eq!(part1(EXAMPLE_INPUT), Ok(46));
}

#[test]
fn test_part2_example() {
    assert_eq!(part2(EXAMPLE_INPUT), Ok(51));
    assert_eq!(part2_opt(EXAMPLE_INPUT), Ok(51));
}

#[test]
fn tile_rule_pass_through() {
    assert_eq!(tile_rule('.', Dir::Left), Ok((Dir::Left, None)));
    assert_eq!(tile_rule('|', Dir::Up), Ok((Dir::Up, None)));
    assert_eq!(tile_rule('-', Dir::Right), Ok((Dir::Right, None)));
}

#[test]
fn tile_rule_splitters() {
    assert_eq!(tile_rule('|', Dir::Right), Ok((Dir::Up, Some(Dir::Down))));
    assert_eq!(tile_rule('|', Dir::Left), Ok((Dir::Up, Some(Dir::Down))));
    assert_eq!(tile_rule('-', Dir::Down), Ok((Dir::Left, Some(Dir::Right))));
    assert_eq!(tile_rule('-', Dir::Up), Ok((Dir::Left, Some(Dir::Right))));
}

#[test]
fn tile_rule_mirrors() {
    assert_eq!(tile_rule('/', Dir::Up), Ok((Dir::Right, None)));
    assert_eq!(tile_rule('/', Dir::Right), Ok((Dir::Up, None)));
    assert_eq!(tile_rule('/', Dir::Down), Ok((Dir::Left, None)));
    assert_eq!(tile_rule('/', Dir::Left), Ok((Dir::Down, None)));
    assert_eq!(tile_rule('\\', Dir::Up), Ok((Dir::Left, None)));
    assert_eq!(tile_rule('\\', Dir::Left), Ok((Dir::Up, None)));
    assert_eq!(tile_rule('\\', Dir::Down), Ok((Dir::Right, None)));
    assert_eq!(tile_rule('\\', Dir::Right), Ok((Dir::Down, None)));
}

#[test]
fn tile_rule_invalid() {
    assert_eq!(tile_rule('#', Dir::Up), Err(BeamError::InvalidTile));
}

#[test]
fn mirrors_are_each_others_image() {
    for d in [Dir::Up, Dir::Down, Dir::Left, Dir::Right] {
        let (s, _) = tile_rule('/', d).unwrap();
        let (b, _) = tile_rule('\\', d).unwrap();
        assert_eq!(b, s.opposite());
        assert_eq!(tile_rule('/', s).unwrap().0, d);
        assert_eq!(tile_rule('\\', b).unwrap().0, d);
    }
}

#[test]
fn directions() {
    assert_eq!(Dir::Up.opposite(), Dir::Down);
    assert_eq!(Dir::Left.opposite(), Dir::Right);
    assert!(Dir::Left.horizontal() && !Dir::Left.vertical());
    assert!(Dir::Down.vertical() && !Dir::Down.horizontal());
}

#[test]
fn grid_from_text_shapes() {
    let g = grid("..\r\n.|\n");
    assert_eq!(g.height(), 2);
    assert_eq!(g.width(), 2);
    assert_eq!(g.at(1, 1), '|');
    assert_eq!(g.step(0, 0, Dir::Up), None);
    assert_eq!(g.step(0, 0, Dir::Right), Some((0, 1)));
    assert_eq!(g.step(1, 1, Dir::Down), None);
}

#[test]
fn grid_errors() {
    assert_eq!(Grid::from_text("").err(), Some(BeamError::EmptyGrid));
    assert_eq!(Grid::from_text("\n..").err(), Some(BeamError::EmptyGrid));
    assert_eq!(Grid::from_text("..\n.").err(), Some(BeamError::RaggedRows));
    assert_eq!(part1("...\n.."), Err(BeamError::RaggedRows));
    assert_eq!(part2(""), Err(BeamError::EmptyGrid));
}

#[test]
fn invalid_tile_only_when_reached() {
    assert_eq!(part1("..\n##"), Ok(2));
    assert_eq!(part2("..\n##"), Err(BeamError::InvalidTile));
    assert_eq!(part2_opt("..\n##"), Err(BeamError::InvalidTile));
    assert_eq!(part1(".#"), Err(BeamError::InvalidTile));
}

#[test]
fn closed_loop_terminates() {
    let g = grid(RING);
    assert_eq!(illumination_count(&g, (0, 1), Dir::Right), Ok(8));
    let seen = traverse(&g, (0, 1), Dir::Right).unwrap();
    assert_eq!(seen.iter().filter(|b| **b).count(), 8);
    assert_eq!(count_lit(&g, &seen), 8);
    let (_, exits) = traverse_track_exits(&g, (0, 1), Dir::Right).unwrap();
    assert!(exits.is_empty());
}

#[test]
fn illumination_between_one_and_cell_count() {
    let g = grid(EXAMPLE_INPUT);
    for r in 0..10 {
        for c in 0..10 {
            for d in [Dir::Up, Dir::Down, Dir::Left, Dir::Right] {
                let n = illumination_count(&g, (r, c), d).unwrap();
                assert!(n >= 1 && n <= 100);
            }
        }
    }
    assert_eq!(illumination_count(&grid("."), (0, 0), Dir::Up), Ok(1));
}

#[test]
fn traverse_is_deterministic() {
    let g = grid(EXAMPLE_INPUT);
    let a = traverse(&g, (0, 0), Dir::Right).unwrap();
    let b = traverse(&g, (0, 0), Dir::Right).unwrap();
    assert_eq!(a, b);
    assert_eq!(count_lit(&g, &a), 46);
}

#[test]
fn exits_of_a_straight_row() {
    let g = grid("...\n...");
    let (seen, exits) = traverse_track_exits(&g, (0, 0), Dir::Right).unwrap();
    assert_eq!(exits, vec![Beam { row: 0, col: 2, dir: Dir::Right }]);
    assert_eq!(count_lit(&g, &seen), 3);
    let i = state_index_of(&g, Beam { row: 0, col: 1, dir: Dir::Right });
    assert_eq!(i, 7);
    assert!(seen[i]);
    assert!(!seen[state_index_of(&g, Beam { row: 0, col: 1, dir: Dir::Left })]);
}

#[test]
fn exits_record_outgoing_direction() {
    // The splitter sends the beam up and down, both off the grid at once.
    let g = grid("|");
    let (_, mut exits) = traverse_track_exits(&g, (0, 0), Dir::Right).unwrap();
    exits.sort_by_key(|b| b.dir as u8);
    assert_eq!(
        exits,
        vec![Beam { row: 0, col: 0, dir: Dir::Up }, Beam { row: 0, col: 0, dir: Dir::Down }]
    );
    // The mirror turns the beam up and off the grid.
    let g = grid("/");
    let (_, exits) = traverse_track_exits(&g, (0, 0), Dir::Right).unwrap();
    assert_eq!(exits, vec![Beam { row: 0, col: 0, dir: Dir::Up }]);
}

#[test]
fn scanners_agree() {
    for text in [EXAMPLE_INPUT, RING, ".", "|-\n-|", "./\\\n|.-\n\\|/", "..-.\n.\\..\n|../"] {
        let g = grid(text);
        let plain = max_illumination(&g);
        let memo = max_illumination_memo(&g);
        assert_eq!(plain, memo, "grid {text:?}");
    }
    assert_eq!(max_illumination(&grid(EXAMPLE_INPUT)), Ok(51));
}

#[test]
fn scan_of_a_non_square_grid() {
    // Three rows of two: the best entry comes in at the right end of the last row
    // and is split upwards by the splitter.
    let g = grid("..\n..\n|.");
    assert_eq!(illumination_count(&g, (2, 1), Dir::Left), Ok(4));
    assert_eq!(max_illumination(&g), Ok(4));
    assert_eq!(max_illumination_memo(&g), Ok(4));
    assert_eq!(part2("..\n..\n|."), Ok(4));
}

#[test]
fn memo_reuses_count_of_reversed_exit() {
    let g = grid("...\n...");
    let mut memo = ExitMemo::new(&g);
    assert_eq!(memo.count_from(&g, (0, 0), Dir::Right), Ok(3));
    // Entering at the far end of the same row runs against the recorded exit.
    assert_eq!(memo.count_from(&g, (0, 2), Dir::Left), Ok(3));
    assert_eq!(memo.count_from(&g, (0, 1), Dir::Down), Ok(2));
}
