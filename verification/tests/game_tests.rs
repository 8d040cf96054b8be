use axion::{Ball, Cell, Direction, Game, GameState};

fn fill_ratio(game: &Game) -> f32 {
    game.filled_cells as f32 / ((game.width - 2) * (game.height - 2)) as f32
}

#[test]
fn test_adjacent_trail_to_border_doesnt_fill_entire_board() {
    let mut game = Game::new(10, 10);
    game.balls.clear();

    let initial_fill = fill_ratio(&game);

    // Start at border (0, 5)
    game.player.position.x = 1;
    game.player.position.y = 1;
    game.player.direction = Direction::Right;

    // Move down (into empty space)
    game.set_direction(Direction::Down);
    game.update();
    assert!(game.player.is_drawing);

    // Move right 3 steps
    game.set_direction(Direction::Right);
    game.update();
    game.update();
    game.update();

    // Move back up to border
    game.set_direction(Direction::Up);
    game.update();

    let final_fill = fill_ratio(&game);

    // This small trail should NOT fill the entire board
    assert!(
        final_fill - initial_fill < 0.5,
        "Small adjacent trail filled too much: {:.1}% -> {:.1}%",
        initial_fill * 100.0,
        final_fill * 100.0
    );

    // Should not win from this tiny trail
    assert_eq!(game.state, GameState::Playing);
}

#[test]
fn test_cannot_reverse_while_drawing() {
    let mut game = Game::new(10, 10);
    game.player.direction = Direction::Right;
    game.player.is_drawing = true;

    game.set_direction(Direction::Left);
    assert_eq!(game.player.direction, Direction::Right);
}

#[test]
fn test_can_reverse_on_safe_territory() {
    let mut game = Game::new(10, 10);
    game.player.direction = Direction::Right;
    game.player.is_drawing = false;

    game.set_direction(Direction::Left);
    assert_eq!(game.player.direction, Direction::Left);
}

#[test]
fn test_hitting_own_trail_loses_game() {
    let mut game = Game::new(10, 10);
    game.balls.clear();

    // Start on border and move into empty space
    game.player.position.x = 1;
    game.player.position.y = 0; // On top border
    game.set_direction(Direction::Down);
    game.update(); // Now at (1,1), drawing started

    // Create a rectangular trail that will self-intersect
    game.set_direction(Direction::Right);
    game.update(); // (2,1)
    game.update(); // (3,1)

    game.set_direction(Direction::Down);
    game.update(); // (3,2)

    game.set_direction(Direction::Left);
    game.update(); // (2,2)
    game.update(); // (1,2)

    game.set_direction(Direction::Up);
    game.update(); // (1,1) - should hit the trail!

    assert_eq!(game.state, GameState::Lost);
}

#[test]
fn test_enclosed_area_gets_filled() {
    let mut game = Game::new(20, 20);
    game.balls.clear();
    let initial_fill = fill_ratio(&game);

    game.player.position.x = 5;
    game.player.position.y = 0;
    game.player.direction = Direction::Down;

    game.update();
    game.set_direction(Direction::Right);
    game.update();
    game.update();
    game.set_direction(Direction::Down);
    game.update();
    game.update();
    game.set_direction(Direction::Left);
    game.update();
    game.update();
    game.update();
    game.set_direction(Direction::Up);
    game.update();
    game.update();
    game.update();

    assert!(fill_ratio(&game) > initial_fill);
    assert_eq!(game.cell_at(5, 2), Cell::Filled);
}

#[test]
fn test_ball_containing_region_never_filled() {
    let mut game = Game::new(20, 20);
    game.balls.clear();

    for y in 1..19 {
        game.set_cell(10, y, Cell::Filled);
    }

    game.balls.push(Ball::new(5, 10, 1, 1));
    game.fill_enclosed_areas();

    assert_eq!(game.cell_at(5, 10), Cell::Empty);
    assert_eq!(game.cell_at(15, 10), Cell::Filled);
}

#[test]
fn test_all_regions_with_balls_none_filled() {
    let mut game = Game::new(20, 20);
    game.balls.clear();

    for y in 1..19 {
        game.set_cell(5, y, Cell::Filled);
        game.set_cell(15, y, Cell::Filled);
    }

    game.balls.push(Ball::new(3, 10, 1, 1));
    game.balls.push(Ball::new(17, 10, 1, 1));
    game.fill_enclosed_areas();

    assert_eq!(game.cell_at(3, 10), Cell::Empty);
    assert_eq!(game.cell_at(17, 10), Cell::Empty);
}

#[test]
fn test_large_enclosed_region_gets_filled() {
    // Regression test for a bug where large enclosed regions weren't filled
    // because they were bigger than the remaining playable area: the
    // classifier must anchor the outside at the player's region, never at
    // the largest one, whenever the player stands on an open cell.

    let mut game = Game::new(30, 30);
    game.balls.clear();

    // Vertical divider at x=10 (creates left section)
    for y in 1..29 {
        game.set_cell(10, y, Cell::Filled);
    }

    // Vertical divider at x=15 (creates small center section where player is)
    for y in 1..29 {
        game.set_cell(15, y, Cell::Filled);
    }

    // Now there are 3 regions:
    // 1. Left (x=1-9): about 252 cells
    // 2. Center (x=11-14): about 112 cells - the player is here
    // 3. Right (x=16-28): about 364 cells - the largest!

    // Place the player in the center (small) region
    game.player.position.x = 12;
    game.player.position.y = 10;

    // Place a ball in the left region only
    game.balls.push(Ball::new(5, 10, 1, 1));

    game.fill_enclosed_areas();

    // The large right region (no ball) must be filled
    assert_eq!(
        game.cell_at(20, 10),
        Cell::Filled,
        "Large enclosed region on right was not filled - bug detected!"
    );

    // The left region (has ball) must NOT be filled
    assert_eq!(
        game.cell_at(5, 10),
        Cell::Empty,
        "Left region with ball should remain empty"
    );

    // The center region (player's location) must remain empty
    assert_eq!(
        game.cell_at(12, 10),
        Cell::Empty,
        "Player's region should remain empty (it's the outside)"
    );
}

#[test]
fn trail_completion_marks_exactly_swept_cells() {
    // On a 10x10 board with no balls, move down from the top border, right
    // three cells, then back up to the border: exactly the swept cells are
    // Trail during the cut and Filled afterwards, and the game is not won.
    let mut game = Game::new(10, 10);
    game.balls.clear();

    game.player.position.x = 1;
    game.player.position.y = 0;
    game.set_direction(Direction::Down);
    game.update(); // (1,1)
    assert_eq!(game.cell_at(1, 1), Cell::Trail);

    game.set_direction(Direction::Right);
    game.update(); // (2,1)
    game.update(); // (3,1)
    game.update(); // (4,1)
    assert_eq!(game.cell_at(2, 1), Cell::Trail);
    assert_eq!(game.cell_at(3, 1), Cell::Trail);
    assert_eq!(game.cell_at(4, 1), Cell::Trail);

    game.set_direction(Direction::Up);
    game.update(); // (4,0): territory, the trail completes

    for x in 1..=4 {
        assert_eq!(game.cell_at(x, 1), Cell::Filled);
    }
    // Nothing was enclosed: the rest of the interior stays open.
    assert_eq!(game.cell_at(5, 1), Cell::Empty);
    assert_eq!(game.cell_at(1, 2), Cell::Empty);
    assert_eq!(game.filled_cells, 4);
    // 4 of 64 interior cells is far below the 75% target.
    assert!(fill_ratio(&game) < 0.5);
    assert_eq!(game.state, GameState::Playing);
}

#[test]
fn hazard_half_stays_open_empty_half_fills() {
    // A board split by one vertical Territory line into two halves, one
    // with a single ball and one empty: after a classification pass the
    // ball's half remains fully open and the empty half is fully Filled.
    let mut game = Game::new(20, 20);
    game.balls.clear();

    for y in 1..19 {
        game.set_cell(10, y, Cell::Filled);
    }
    game.balls.push(Ball::new(5, 10, 1, 1));
    game.fill_enclosed_areas();

    for y in 1..19 {
        for x in 1..10 {
            assert_eq!(game.cell_at(x, y), Cell::Empty, "left half at ({}, {})", x, y);
        }
        for x in 11..19 {
            assert_eq!(game.cell_at(x, y), Cell::Filled, "right half at ({}, {})", x, y);
        }
    }
}

#[test]
fn largest_region_is_outside_when_player_on_territory() {
    // With the player on the border, the largest region plays the role of
    // the outside: here the ball-free middle region is the largest and so
    // survives while no region changes (the sides hold balls).
    let mut game = Game::new(20, 20);
    game.balls.clear();

    for y in 1..19 {
        game.set_cell(5, y, Cell::Filled);
        game.set_cell(15, y, Cell::Filled);
    }
    game.balls.push(Ball::new(3, 10, 1, 1));
    game.balls.push(Ball::new(17, 10, 1, 1));
    game.fill_enclosed_areas();

    assert_eq!(game.cell_at(10, 10), Cell::Empty);
    assert_eq!(game.cell_at(3, 10), Cell::Empty);
    assert_eq!(game.cell_at(17, 10), Cell::Empty);
}

#[test]
fn direction_change_allowed_while_drawing_if_not_opposite() {
    let mut game = Game::new(10, 10);
    game.player.direction = Direction::Right;
    game.player.is_drawing = true;

    game.set_direction(Direction::Up);
    assert_eq!(game.player.direction, Direction::Up);
}

#[test]
fn opposite_maps_each_direction_to_its_reverse() {
    assert_eq!(Direction::Up.opposite(), Direction::Down);
    assert_eq!(Direction::Down.opposite(), Direction::Up);
    assert_eq!(Direction::Left.opposite(), Direction::Right);
    assert_eq!(Direction::Right.opposite(), Direction::Left);
}

#[test]
fn win_requires_target_percentage() {
    // Pre-own 46 of the 64 interior cells, just below the 48-cell (75%)
    // target; a two-cell cut reaches exactly 48 and wins only then.
    let mut game = Game::new(10, 10);
    game.balls.clear();

    for y in 4..9 {
        for x in 1..9 {
            game.set_cell(x, y, Cell::Filled);
        }
    }
    for x in 1..7 {
        game.set_cell(x, 3, Cell::Filled);
    }
    assert_eq!(game.filled_cells, 46);

    game.player.position.x = 1;
    game.player.position.y = 0;
    game.set_direction(Direction::Down);
    game.update(); // (1,1): the cut starts
    assert_eq!(game.state, GameState::Playing);
    game.set_direction(Direction::Right);
    game.update(); // (2,1)
    assert_eq!(game.state, GameState::Playing);
    game.set_direction(Direction::Up);
    game.update(); // (2,0): the cut completes

    assert_eq!(game.filled_cells, 48);
    assert_eq!(game.state, GameState::Won);
    assert!(100 * game.filled_cells >= 75 * 64);
}

#[test]
fn fill_never_decreases_and_borders_stay_territory() {
    let mut game = Game::new(12, 12);
    game.balls.clear();

    let moves = [
        Direction::Down,
        Direction::Right,
        Direction::Right,
        Direction::Up,
        Direction::Down,
        Direction::Left,
        Direction::Down,
        Direction::Right,
        Direction::Up,
    ];
    game.player.position.x = 1;
    game.player.position.y = 0;

    let mut prev = game.filled_cells;
    for d in moves {
        if game.state != GameState::Playing {
            break;
        }
        game.set_direction(d);
        game.update();
        assert!(game.filled_cells >= prev, "fill decreased");
        assert!(fill_ratio(&game) <= 1.0);
        prev = game.filled_cells;

        for x in 0..12 {
            assert_eq!(game.cell_at(x, 0), Cell::Filled);
            assert_eq!(game.cell_at(x, 11), Cell::Filled);
        }
        for y in 0..12 {
            assert_eq!(game.cell_at(0, y), Cell::Filled);
            assert_eq!(game.cell_at(11, y), Cell::Filled);
        }
    }
}

#[test]
fn ball_reflects_off_walls_and_territory() {
    let mut game = Game::new(10, 10);
    game.balls.clear();
    game.balls.push(Ball::new(8, 8, 1, 1));
    game.update();
    // Both tentative coordinates reach the border column/row 9, so both
    // axes reflect and recompute from the flipped velocity.
    assert_eq!(game.balls[0].position.x, 7);
    assert_eq!(game.balls[0].position.y, 7);
    assert_eq!(game.balls[0].velocity, (-1, -1));

    let mut game2 = Game::new(10, 10);
    game2.balls.clear();
    game2.set_cell(5, 4, Cell::Filled);
    game2.balls.push(Ball::new(4, 4, 1, 1));
    game2.update();
    // The x axis is blocked by the filled cell at (5,4); the y axis is free.
    assert_eq!(game2.balls[0].position.x, 3);
    assert_eq!(game2.balls[0].position.y, 5);
    assert_eq!(game2.balls[0].velocity, (-1, 1));
}

#[test]
fn ball_landing_on_player_loses() {
    let mut game = Game::new(10, 10);
    game.balls.clear();
    game.player.position.x = 1;
    game.player.position.y = 5;
    game.player.direction = Direction::Right;
    // The player will step to (2,5) and start a trail; a ball at (3,4)
    // moving down-left lands exactly there.
    game.balls.push(Ball::new(3, 4, -1, 1));
    game.update();
    assert_eq!(game.state, GameState::Lost);
}

#[test]
fn out_of_range_reads_are_territory() {
    let game = Game::new(10, 10);
    assert_eq!(game.cell_at(-1, 0), Cell::Filled);
    assert_eq!(game.cell_at(0, -3), Cell::Filled);
    assert_eq!(game.cell_at(10, 5), Cell::Filled);
    assert_eq!(game.cell_at(5, 100), Cell::Filled);
    assert!(game.is_filled(-7, -7));
}

#[test]
fn blocked_move_keeps_player_and_game_running() {
    let mut game = Game::new(10, 10);
    game.balls.clear();
    game.player.position.x = 0;
    game.player.position.y = 5;
    game.set_direction(Direction::Left);
    game.update();
    assert_eq!(game.player.position.x, 0);
    assert_eq!(game.player.position.y, 5);
    assert_eq!(game.state, GameState::Playing);
}

#[test]
fn new_game_layout_and_spawn_policy() {
    let game = Game::new(30, 30);
    assert_eq!(game.state, GameState::Playing);
    assert_eq!(game.level, 1);
    assert_eq!(game.score, 0);
    assert_eq!(game.filled_cells, 0);
    assert_eq!(game.player.position.x, 0);
    assert_eq!(game.player.position.y, 15);
    assert_eq!(game.player.direction, Direction::Right);
    assert!(!game.player.is_drawing);

    // 30*30 = 900 cells ask for round(900/267) = 3 balls at most.
    assert!(game.balls.len() <= 3);
    for ball in &game.balls {
        let (x, y) = (ball.position.x, ball.position.y);
        assert!(2 <= x && x <= 27);
        assert!(2 <= y && y <= 27);
        assert_eq!(game.cell_at(x, y), Cell::Empty);
        assert!((x - 0).abs() + (y - 15).abs() >= 5);
        assert!(ball.velocity.0 == 1 || ball.velocity.0 == -1);
        assert!(ball.velocity.1 == 1 || ball.velocity.1 == -1);
        // The player faces right from (0,15): inside the danger zone the
        // horizontal velocity must point away.
        if x <= 10 && (y - 15).abs() <= 10 {
            assert_eq!(ball.velocity.0, 1);
        }
    }
}

#[test]
fn next_level_clears_board_and_respawns() {
    let mut game = Game::new(12, 12);
    game.balls.clear();
    game.player.position.x = 1;
    game.player.position.y = 0;
    game.set_direction(Direction::Down);
    game.update();
    game.set_direction(Direction::Up);
    game.update();

    game.next_level();
    assert_eq!(game.level, 2);
    assert_eq!(game.state, GameState::Playing);
    assert_eq!(game.filled_cells, 0);
    for y in 1..11 {
        for x in 1..11 {
            assert_eq!(game.cell_at(x, y), Cell::Empty);
        }
    }
    assert_eq!(game.player.position.x, 0);
    assert_eq!(game.player.position.y, 6);
    assert!(game.balls.len() <= 4);
}

#[test]
fn reset_restores_a_fresh_game() {
    let mut game = Game::new(12, 12);
    game.balls.clear();
    game.player.position.x = 1;
    game.player.position.y = 0;
    game.set_direction(Direction::Down);
    game.update();
    game.next_level();
    game.reset();

    assert_eq!(game.level, 1);
    assert_eq!(game.score, 0);
    assert_eq!(game.state, GameState::Playing);
    assert_eq!(game.filled_cells, 0);
    assert_eq!(game.width, 12);
    assert_eq!(game.height, 12);
}

#[test]
fn terminal_phase_freezes_the_game() {
    let mut game = Game::new(10, 10);
    game.balls.clear();
    game.state = GameState::Lost;
    let pos = (game.player.position.x, game.player.position.y);
    game.update();
    assert_eq!(game.state, GameState::Lost);
    assert_eq!((game.player.position.x, game.player.position.y), pos);
}

#[test]
fn score_grows_with_completions() {
    let mut game = Game::new(10, 10);
    game.balls.clear();
    for y in 4..9 {
        for x in 1..9 {
            game.set_cell(x, y, Cell::Filled);
        }
    }
    for x in 1..7 {
        game.set_cell(x, 3, Cell::Filled);
    }
    game.player.position.x = 1;
    game.player.position.y = 0;
    game.set_direction(Direction::Down);
    game.update();
    game.set_direction(Direction::Right);
    game.update();
    game.set_direction(Direction::Up);
    game.update();
    // 48 of 64 cells owned: 100*48/64 = 75 points awarded on completion.
    assert_eq!(game.filled_cells, 48);
    assert_eq!(game.score, 75);
}
