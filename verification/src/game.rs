//! The simulation controller: the aggregate game state and the discrete
//! tick that moves the player, maintains the trail state machine, moves
//! every ball, and evaluates the win condition.

use vstd::prelude::*;

use crate::entity::{Ball, Direction, Player, Position};
use crate::grid::{
    borders_filled, cell_at_spec, cell_xy, count_filled, grid_dims, grid_wf, interior, board_cell,
    lemma_count_filled_bounds, lemma_count_rows_bounds, lemma_count_row_bounds,
    lemma_count_update, lemma_count_zero, lemma_idx_bounds, lemma_idx_inj, lemma_idx_order,
    open_cell, Cell,
};
use crate::region::{
    comp_set, conn, distinct_positions, find_regions, has_pos, is_component,
    lemma_component_conn, lemma_component_mutual, lemma_component_size, lemma_conn_open,
    lemma_conn_refl, lemma_conn_sym,
};

verus! {

/// The phase of a game; Won and Lost are terminal until an explicit reset
/// or level advance.
#[derive(Debug, Clone, Copy, PartialEq, Eq, Structural)]
pub enum GameState {
    Playing,
    Won,
    Lost,
}

/// Field-by-field equality of two players, with trails compared as
/// sequences.
pub open spec fn same_player(a: Player, b: Player) -> bool {
    &&& a.position == b.position
    &&& a.direction == b.direction
    &&& a.trail@ == b.trail@
    &&& a.is_drawing == b.is_drawing
}

/// Whether a trail sequence holds the coordinate (x, y).
pub open spec fn trail_has(t: Seq<Position>, x: int, y: int) -> bool {
    has_pos(t, x, y)
}

/// Some ball's cell is connected to (x, y): the whole region around that
/// ball is then exempt from filling.
pub open spec fn ball_region_conn(
    b: Seq<Cell>,
    w: int,
    h: int,
    balls: Seq<Ball>,
    x: int,
    y: int,
) -> bool {
    exists|i: int|
        0 <= i < balls.len() && conn(
            b,
            w,
            h,
            ((#[trigger] balls[i]).position.x as int, balls[i].position.y as int),
            (x, y),
        )
}

/// The board holds at least two distinct open regions.
pub open spec fn multi_region(b: Seq<Cell>, w: int, h: int) -> bool {
    exists|x1: int, y1: int, x2: int, y2: int|
        open_cell(b, w, h, x1, y1) && open_cell(b, w, h, x2, y2) && !#[trigger] conn(
            b,
            w,
            h,
            (x1, y1),
            (x2, y2),
        )
}

/// (ox, oy) anchors the still-open outside of a classification that turned
/// board `b0` into `b1`: its whole region survives untouched, and every
/// open region not connected to it and free of balls has been filled.
pub open spec fn outside_anchor(
    b0: Seq<Cell>,
    b1: Seq<Cell>,
    w: int,
    h: int,
    balls: Seq<Ball>,
    ox: int,
    oy: int,
) -> bool {
    &&& open_cell(b0, w, h, ox, oy)
    &&& forall|x: int, y: int|
        #[trigger] conn(b0, w, h, (ox, oy), (x, y)) ==> cell_xy(b1, w, x, y) == cell_xy(
            b0,
            w,
            x,
            y,
        )
    &&& forall|x: int, y: int|
        #[trigger] open_cell(b0, w, h, x, y) && !conn(b0, w, h, (ox, oy), (x, y))
            && !ball_region_conn(b0, w, h, balls, x, y) ==> cell_xy(b1, w, x, y) == Cell::Filled
}

/// (ox, oy) lies in a region at least as large as any open region of the
/// board: the classifier's fallback outside when the player stands on
/// Filled ground.
pub open spec fn largest_anchor(b0: Seq<Cell>, w: int, h: int, ox: int, oy: int) -> bool {
    forall|x: int, y: int|
        #[trigger] open_cell(b0, w, h, x, y) ==> comp_set(b0, w, h, x, y).len() <= comp_set(
            b0,
            w,
            h,
            ox,
            oy,
        ).len()
}

/// What the classifier promises of boards with several open regions: some
/// open cell anchors the surviving outside, and when the player stood on
/// Filled ground that anchor's region is one of the largest.
pub open spec fn anchored_outside(
    b0: Seq<Cell>,
    b1: Seq<Cell>,
    w: int,
    h: int,
    balls: Seq<Ball>,
    px: int,
    py: int,
) -> bool {
    multi_region(b0, w, h) ==> exists|ox: int, oy: int|
        #![trigger outside_anchor(b0, b1, w, h, balls, ox, oy)]
        outside_anchor(b0, b1, w, h, balls, ox, oy) && (!open_cell(b0, w, h, px, py)
            ==> largest_anchor(b0, w, h, ox, oy))
}

/// Region k of a partition is spared by the classifier: it is the outside,
/// or some ball stands in it.
pub open spec fn region_kept(
    rg: Seq<Vec<Position>>,
    balls: Seq<Ball>,
    k: int,
    outside: int,
) -> bool {
    k == outside || exists|i: int|
        0 <= i < balls.len() && has_pos(
            rg[k]@,
            (#[trigger] balls[i]).position.x as int,
            balls[i].position.y as int,
        )
}

/// (x, y) lies in one of the first `upto` regions that the classifier
/// decided to convert.
pub open spec fn filled_by_prefix(
    rg: Seq<Vec<Position>>,
    balls: Seq<Ball>,
    outside: int,
    upto: int,
    x: int,
    y: int,
) -> bool {
    exists|k: int|
        0 <= k < upto && !region_kept(rg, balls, k, outside) && has_pos((#[trigger] rg[k])@, x, y)
}

/// (x, y) is among the first `upto` cells of the region list `r`.
pub open spec fn member_prefix(r: Seq<Position>, upto: int, x: int, y: int) -> bool {
    exists|j: int| 0 <= j < upto && (#[trigger] r[j]).x == x && r[j].y == y
}

/// The range and velocity invariant of one ball on a w-by-h board. Velocity
/// components are +1 or -1; the position can leave the board by at most two
/// cells in a pathological corner, and at the extreme it is already heading
/// back.
pub open spec fn ball_ok(b: Ball, w: int, h: int) -> bool {
    &&& b.velocity.0 == 1 || b.velocity.0 == -1
    &&& b.velocity.1 == 1 || b.velocity.1 == -1
    &&& -2 <= b.position.x <= w + 1
    &&& -2 <= b.position.y <= h + 1
    &&& b.position.x == -2 ==> b.velocity.0 == -1
    &&& b.position.x == w + 1 ==> b.velocity.0 == 1
    &&& b.position.y == -2 ==> b.velocity.1 == -1
    &&& b.position.y == h + 1 ==> b.velocity.1 == 1
}

/// Whether the ball's tentative horizontal move would hit or cross the
/// vertical boundary or land on a Filled column, forcing a reflection.
pub open spec fn reflect_x(bd: Seq<Cell>, w: int, h: int, ball: Ball) -> bool {
    let nx = ball.position.x + ball.velocity.0;
    nx <= 0 || nx >= w - 1 || cell_at_spec(bd, w, h, nx, ball.position.y as int) == Cell::Filled
}

/// The vertical counterpart of `reflect_x`; the axes are judged
/// independently, each from the current position.
pub open spec fn reflect_y(bd: Seq<Cell>, w: int, h: int, ball: Ball) -> bool {
    let ny = ball.position.y + ball.velocity.1;
    ny <= 0 || ny >= h - 1 || cell_at_spec(bd, w, h, ball.position.x as int, ny) == Cell::Filled
}

/// One tick of ball physics: add the velocity, reflecting each axis
/// independently on obstruction and recomputing that axis from the
/// reflected velocity.
pub open spec fn stepped_ball(bd: Seq<Cell>, w: int, h: int, ball: Ball) -> Ball {
    let vx: i32 = if reflect_x(bd, w, h, ball) {
        (-(ball.velocity.0 as int)) as i32
    } else {
        ball.velocity.0
    };
    let vy: i32 = if reflect_y(bd, w, h, ball) {
        (-(ball.velocity.1 as int)) as i32
    } else {
        ball.velocity.1
    };
    Ball {
        position: Position {
            x: (ball.position.x + vx) as i32,
            y: (ball.position.y + vy) as i32,
        },
        velocity: (vx, vy),
    }
}

/// Whether a just-moved ball ends the game: it landed on the player, or,
/// while the player is drawing, on a cell of the in-progress trail.
pub open spec fn ball_hits(ball2: Ball, ppos: Position, trail: Seq<Position>, drawing: bool) -> bool {
    ball2.position == ppos || (drawing && trail_has(
        trail,
        ball2.position.x as int,
        ball2.position.y as int,
    ))
}

/// Whether stepping ball `j` of `balls` produces a collision.
pub open spec fn ball_lost_at(
    bd: Seq<Cell>,
    w: int,
    h: int,
    balls: Seq<Ball>,
    ppos: Position,
    trail: Seq<Position>,
    drawing: bool,
    j: int,
) -> bool {
    ball_hits(stepped_ball(bd, w, h, balls[j]), ppos, trail, drawing)
}

/// No ball with index below `j` collides when stepped.
pub open spec fn no_ball_lost_before(
    bd: Seq<Cell>,
    w: int,
    h: int,
    balls: Seq<Ball>,
    ppos: Position,
    trail: Seq<Position>,
    drawing: bool,
    j: int,
) -> bool {
    forall|k: int| 0 <= k < j ==> !ball_lost_at(bd, w, h, balls, ppos, trail, drawing, k)
}

pub open spec fn any_ball_lost(
    bd: Seq<Cell>,
    w: int,
    h: int,
    balls: Seq<Ball>,
    ppos: Position,
    trail: Seq<Position>,
    drawing: bool,
) -> bool {
    exists|k: int| 0 <= k < balls.len() && ball_lost_at(bd, w, h, balls, ppos, trail, drawing, k)
}

/// One tick of ball physics against a fixed board.
pub fn step_ball(board: &Vec<Cell>, width: i32, height: i32, ball: &Ball) -> (b2: Ball)
    requires
        grid_wf(board@, width as int, height as int),
        ball_ok(*ball, width as int, height as int),
    ensures
        b2 == stepped_ball(board@, width as int, height as int, *ball),
        ball_ok(b2, width as int, height as int),
{
    let mut vx = ball.velocity.0;
    let mut vy = ball.velocity.1;
    let mut next_x = ball.position.x + vx;
    let mut next_y = ball.position.y + vy;

    if next_x <= 0 || next_x >= width - 1 || board_cell(board, width, height, next_x, ball.position.y)
        == Cell::Filled {
        vx = -vx;
        next_x = ball.position.x + vx;
    }
    if next_y <= 0 || next_y >= height - 1 || board_cell(board, width, height, ball.position.x, next_y)
        == Cell::Filled {
        vy = -vy;
        next_y = ball.position.y + vy;
    }
    Ball {
        position: Position { x: next_x, y: next_y },
        velocity: (vx, vy),
    }
}

/// Whether a list of positions holds position `p`.
pub fn contains_position(list: &Vec<Position>, p: Position) -> (r: bool)
    ensures
        r == has_pos(list@, p.x as int, p.y as int),
{
    let mut k: usize = 0;
    while k < list.len()
        invariant
            0 <= k <= list@.len(),
            forall|m: int| 0 <= m < k ==> !((#[trigger] list@[m]).x == p.x && list@[m].y == p.y),
        decreases list@.len() - k,
    {
        if list[k] == p {
            return true;
        }
        k = k + 1;
    }
    false
}

/// Whether any ball stands on a cell of the region.
pub fn any_ball_in(region: &Vec<Position>, balls: &Vec<Ball>) -> (r: bool)
    ensures
        r == exists|i: int|
            0 <= i < balls@.len() && has_pos(
                region@,
                (#[trigger] balls@[i]).position.x as int,
                balls@[i].position.y as int,
            ),
{
    let mut i: usize = 0;
    while i < balls.len()
        invariant
            0 <= i <= balls@.len(),
            forall|m: int|
                0 <= m < i ==> !has_pos(
                    region@,
                    (#[trigger] balls@[m]).position.x as int,
                    balls@[m].position.y as int,
                ),
        decreases balls@.len() - i,
    {
        if contains_position(region, balls[i].position) {
            return true;
        }
        i = i + 1;
    }
    false
}

/// The minimum Manhattan distance between a newly placed ball and the
/// player.
pub const MIN_SAFE_DISTANCE: i32 = 5;

/// The extent of the danger zone ahead of the player's facing direction.
pub const DANGER_ZONE_WIDTH: i32 = 10;

/// The half-height of the danger zone across the facing direction.
pub const DANGER_ZONE_HEIGHT: i32 = 10;

/// How often one ball placement is retried before it is skipped.
pub const MAX_SPAWN_ATTEMPTS: usize = 1000;

pub open spec fn iabs(v: int) -> int {
    if v < 0 {
        -v
    } else {
        v
    }
}

/// The candidate cell lies in the danger zone ahead of the player: close
/// along the facing axis and not far off it.
pub open spec fn in_danger_zone(ppos: Position, pdir: Direction, x: int, y: int) -> bool {
    match pdir {
        Direction::Right => x <= ppos.x + DANGER_ZONE_WIDTH && iabs(y - ppos.y)
            <= DANGER_ZONE_HEIGHT,
        Direction::Left => x >= ppos.x - DANGER_ZONE_WIDTH && iabs(y - ppos.y)
            <= DANGER_ZONE_HEIGHT,
        Direction::Down => y <= ppos.y + DANGER_ZONE_WIDTH && iabs(x - ppos.x)
            <= DANGER_ZONE_HEIGHT,
        Direction::Up => y >= ppos.y - DANGER_ZONE_WIDTH && iabs(x - ppos.x)
            <= DANGER_ZONE_HEIGHT,
    }
}

/// The velocity component along the player's facing axis points away from
/// the player's side of the board.
pub open spec fn velocity_away(pdir: Direction, v: (i32, i32)) -> bool {
    match pdir {
        Direction::Right => v.0 == 1,
        Direction::Left => v.0 == -1,
        Direction::Down => v.1 == 1,
        Direction::Up => v.1 == -1,
    }
}

/// What the placement policy guarantees of every ball it spawns: well
/// inside the board on an unfilled cell, at a safe Manhattan distance from
/// the player, with unit velocity components that never start toward the
/// player from inside the danger zone.
pub open spec fn spawn_ok(
    b: Seq<Cell>,
    w: int,
    h: int,
    ppos: Position,
    pdir: Direction,
    ball: Ball,
) -> bool {
    &&& 2 <= ball.position.x <= w - 3
    &&& 2 <= ball.position.y <= h - 3
    &&& cell_at_spec(b, w, h, ball.position.x as int, ball.position.y as int) != Cell::Filled
    &&& iabs(ball.position.x - ppos.x) + iabs(ball.position.y - ppos.y) >= MIN_SAFE_DISTANCE
    &&& ball.velocity.0 == 1 || ball.velocity.0 == -1
    &&& ball.velocity.1 == 1 || ball.velocity.1 == -1
    &&& in_danger_zone(ppos, pdir, ball.position.x as int, ball.position.y as int)
        ==> velocity_away(pdir, ball.velocity)
}

/// The score after a completion that leaves `filled` of `total` interior
/// cells owned: one point per owned percent, saturating at the counter's
/// ceiling.
pub open spec fn score_after(score: u32, filled: u32, total: int) -> int {
    let delta: int = 100 * filled / total;
    if score + delta <= u32::MAX {
        score + delta
    } else {
        u32::MAX as int
    }
}

/// How many balls a fresh game of this size receives: about one per 267
/// cells, and at least one.
pub open spec fn spawn_count(w: int, h: int) -> int {
    let nb: int = (w * h + 133) / 267;
    if nb < 1 {
        1
    } else {
        nb
    }
}

/// The whole simulation state: board, player, balls, phase and counters.
/// `filled_cells` caches the number of Filled interior cells; the win
/// threshold is `target_percent` of the interior.
pub struct Game {
    pub width: i32,
    pub height: i32,
    pub board: Vec<Cell>,
    pub player: Player,
    pub balls: Vec<Ball>,
    pub state: GameState,
    pub score: u32,
    pub level: u32,
    pub filled_cells: u32,
    pub target_percent: u32,
}

impl Game {
    pub open spec fn w(self) -> int {
        self.width as int
    }

    pub open spec fn h(self) -> int {
        self.height as int
    }

    /// The number of interior cells, the denominator of the fill ratio.
    pub open spec fn interior_total(self) -> int {
        (self.w() - 2) * (self.h() - 2)
    }

    pub open spec fn cell_spec(self, x: int, y: int) -> Cell {
        cell_at_spec(self.board@, self.w(), self.h(), x, y)
    }

    /// The cached filled count agrees with the board.
    pub open spec fn synced(self) -> bool {
        self.filled_cells == count_filled(self.board@, self.w(), self.h())
    }

    /// The filled share of the interior has reached the target share.
    pub open spec fn win_now(self) -> bool {
        100 * self.filled_cells >= self.target_percent * self.interior_total()
    }

    /// The coordinate one step ahead of the player.
    pub open spec fn next_xy(self) -> (int, int) {
        self.player.position.moved_xy(self.player.direction)
    }

    pub open spec fn next_in_bounds(self) -> bool {
        0 <= self.next_xy().0 < self.w() && 0 <= self.next_xy().1 < self.h()
    }

    pub open spec fn next_cell(self) -> Cell {
        self.cell_spec(self.next_xy().0, self.next_xy().1)
    }

    /// The ball phase of a tick: against the final board and player, every
    /// ball up to and including the first collision has taken one step and
    /// the rest still stand where they were.
    pub open spec fn balls_stepped(self, pre_balls: Seq<Ball>) -> bool {
        &&& self.balls@.len() == pre_balls.len()
        &&& forall|j: int|
            0 <= j < pre_balls.len() ==> self.balls@[j] == (if no_ball_lost_before(
                self.board@,
                self.w(),
                self.h(),
                pre_balls,
                self.player.position,
                self.player.trail@,
                self.player.is_drawing,
                j,
            ) {
                stepped_ball(self.board@, self.w(), self.h(), pre_balls[j])
            } else {
                pre_balls[j]
            })
    }

    /// Whether the ball phase ends the game.
    pub open spec fn balls_lose(self, pre_balls: Seq<Ball>) -> bool {
        any_ball_lost(
            self.board@,
            self.w(),
            self.h(),
            pre_balls,
            self.player.position,
            self.player.trail@,
            self.player.is_drawing,
        )
    }

    /// The phase a Playing tick ends in: a ball collision loses; otherwise
    /// reaching the target share of filled interior cells wins.
    pub open spec fn tick_phase(self, pre_balls: Seq<Ball>) -> GameState {
        if self.balls_lose(pre_balls) {
            GameState::Lost
        } else if 100 * self.filled_cells >= self.target_percent * self.interior_total() {
            GameState::Won
        } else {
            GameState::Playing
        }
    }

    /// Field-by-field equality of two games.
    pub open spec fn unchanged_from(self, o: Game) -> bool {
        &&& self.same_actors(o)
        &&& self.board@ == o.board@
        &&& self.filled_cells == o.filled_cells
    }

    /// Structural well-formedness: sane dimensions, a permanently Filled
    /// border, the player on the board, the trail non-empty exactly while
    /// drawing and in exact correspondence with the Trail cells of the
    /// board, and every ball within its physical range.
    pub open spec fn wf(self) -> bool {
        &&& grid_wf(self.board@, self.w(), self.h())
        &&& borders_filled(self.board@, self.w(), self.h())
        &&& 0 <= self.player.position.x < self.w()
        &&& 0 <= self.player.position.y < self.h()
        &&& (self.player.is_drawing <==> self.player.trail@.len() > 0)
        &&& forall|i: int|
            0 <= i < self.player.trail@.len() ==> interior(
                self.w(),
                self.h(),
                (#[trigger] self.player.trail@[i]).x as int,
                self.player.trail@[i].y as int,
            ) && cell_xy(
                self.board@,
                self.w(),
                self.player.trail@[i].x as int,
                self.player.trail@[i].y as int,
            ) == Cell::Trail
        &&& forall|x: int, y: int|
            interior(self.w(), self.h(), x, y) && #[trigger] cell_xy(self.board@, self.w(), x, y)
                == Cell::Trail ==> trail_has(self.player.trail@, x, y)
        &&& forall|i: int|
            0 <= i < self.balls@.len() ==> ball_ok(#[trigger] self.balls@[i], self.w(), self.h())
        &&& self.filled_cells <= self.interior_total()
        &&& self.target_percent <= 100
    }

    /// Equality of everything but the board and the cached filled count.
    pub open spec fn same_actors(self, o: Game) -> bool {
        &&& self.width == o.width
        &&& self.height == o.height
        &&& same_player(self.player, o.player)
        &&& self.balls@ == o.balls@
        &&& self.state == o.state
        &&& self.score == o.score
        &&& self.level == o.level
        &&& self.target_percent == o.target_percent
    }

    /// Equality of everything but the player.
    pub open spec fn same_but_player(self, o: Game) -> bool {
        &&& self.width == o.width
        &&& self.height == o.height
        &&& self.board@ == o.board@
        &&& self.balls@ == o.balls@
        &&& self.state == o.state
        &&& self.score == o.score
        &&& self.level == o.level
        &&& self.filled_cells == o.filled_cells
        &&& self.target_percent == o.target_percent
    }

    /// The cell at arbitrary coordinates; anything out of range reads as
    /// Filled, so reads are total.
    pub fn cell_at(&self, x: i32, y: i32) -> (c: Cell)
        requires
            grid_wf(self.board@, self.w(), self.h()),
        ensures
            c == self.cell_spec(x as int, y as int),
    {
        board_cell(&self.board, self.width, self.height, x, y)
    }

    pub fn is_filled(&self, x: i32, y: i32) -> (r: bool)
        requires
            grid_wf(self.board@, self.w(), self.h()),
        ensures
            r == (self.cell_spec(x as int, y as int) == Cell::Filled),
    {
        self.cell_at(x, y) == Cell::Filled
    }

    /// Request a facing change. While drawing, the exact opposite of the
    /// current direction is rejected; otherwise the direction updates
    /// immediately.
    pub fn set_direction(&mut self, direction: Direction)
        ensures
            final(self).player.direction == (if old(self).player.is_drawing && direction == old(
                self,
            ).player.direction.opposite_spec() {
                old(self).player.direction
            } else {
                direction
            }),
            final(self).player.position == old(self).player.position,
            final(self).player.trail == old(self).player.trail,
            final(self).player.is_drawing == old(self).player.is_drawing,
            final(self).same_but_player(*old(self)),
    {
        if self.player.is_drawing && direction == self.player.direction.opposite() {
            return ;
        }
        self.player.direction = direction;
    }

    /// Overwrite one interior cell, keeping the cached filled count in
    /// step. Meant for setting up board layouts from outside the tick
    /// loop, so it refuses Trail values and an active trail.
    pub fn set_cell(&mut self, x: i32, y: i32, cell: Cell)
        requires
            old(self).wf(),
            old(self).synced(),
            interior(old(self).w(), old(self).h(), x as int, y as int),
            cell != Cell::Trail,
            !old(self).player.is_drawing,
        ensures
            final(self).wf(),
            final(self).synced(),
            final(self).board@ == old(self).board@.update(
                y as int * old(self).w() + x as int,
                cell,
            ),
            final(self).same_actors(*old(self)),
    {
        proof {
            lemma_idx_bounds(self.w(), self.h(), x as int, y as int);
        }
        let idx: usize = (y as usize) * (self.width as usize) + (x as usize);
        let old_c = self.board[idx];
        let ghost b1 = self.board@;
        self.board.set(idx, cell);
        let ghost b2 = self.board@;
        proof {
            assert forall|x2: int, y2: int|
                0 <= x2 < self.w() && 0 <= y2 < self.h() && !(x2 == x as int && y2
                    == y as int) implies #[trigger] cell_xy(b2, self.w(), x2, y2) == cell_xy(
                b1,
                self.w(),
                x2,
                y2,
            ) by {
                lemma_idx_bounds(self.w(), self.h(), x2, y2);
                lemma_idx_inj(self.w(), x2, y2, x as int, y as int);
            }
            assert(cell_xy(b2, self.w(), x as int, y as int) == cell);
            lemma_count_update(b1, b2, self.w(), self.h(), x as int, y as int);
            lemma_count_filled_bounds(b2, self.w(), self.h());
            lemma_count_filled_bounds(b1, self.w(), self.h());
            assert((self.w() - 2) * (self.h() - 2) <= 1000000) by (nonlinear_arith)
                requires
                    grid_dims(self.w(), self.h()),
            ;
        }
        if old_c == Cell::Filled && cell != Cell::Filled {
            self.filled_cells = self.filled_cells - 1;
        } else if old_c != Cell::Filled && cell == Cell::Filled {
            self.filled_cells = self.filled_cells + 1;
        }
        proof {
            assert(final(self).synced());
            assert forall|x2: int, y2: int|
                interior(self.w(), self.h(), x2, y2) && #[trigger] cell_xy(b2, self.w(), x2, y2)
                    == Cell::Trail implies trail_has(self.player.trail@, x2, y2) by {
                assert(cell_xy(b1, self.w(), x2, y2) == Cell::Trail);
            }
        }
    }

    /// Recount the Filled interior cells into the cache.
    pub fn update_filled_percentage(&mut self)
        requires
            old(self).wf(),
        ensures
            final(self).wf(),
            final(self).synced(),
            final(self).board == old(self).board,
            final(self).same_actors(*old(self)),
    {
        let ghost b = self.board@;
        let ghost w = self.w();
        let ghost h = self.h();
        proof {
            lemma_count_filled_bounds(b, w, h);
            assert((w - 2) * (h - 2) <= 1000000) by (nonlinear_arith)
                requires
                    grid_dims(w, h),
            ;
        }
        let mut cnt: u32 = 0;
        let mut y: i32 = 1;
        while y < self.height - 1
            invariant
                self.wf(),
                b == self.board@,
                w == self.w(),
                h == self.h(),
                1 <= y <= h - 1,
                cnt == count_filled(b, w, h) - crate::grid::count_rows(b, w, h, y as int),
                0 <= count_filled(b, w, h) <= 1000000,
            decreases h - 1 - y,
        {
            let ghost c0 = cnt as int;
            let mut x: i32 = 1;
            proof {
                lemma_count_rows_bounds(b, w, h, y as int);
                lemma_count_rows_bounds(b, w, h, y as int + 1);
                lemma_count_row_bounds(b, w, y as int, 1);
            }
            while x < self.width - 1
                invariant
                    self.wf(),
                    b == self.board@,
                    w == self.w(),
                    h == self.h(),
                    1 <= y <= h - 1,
                    1 <= x <= w - 1,
                    cnt == c0 + crate::grid::count_row(b, w, y as int, 1)
                        - crate::grid::count_row(b, w, y as int, x as int),
                    c0 + crate::grid::count_row(b, w, y as int, 1) <= 1000000,
                    0 <= c0,
                decreases w - 1 - x,
            {
                proof {
                    lemma_idx_bounds(w, h, x as int, y as int);
                    lemma_count_row_bounds(b, w, y as int, x as int);
                    lemma_count_row_bounds(b, w, y as int, x as int + 1);
                }
                let idx: usize = (y as usize) * (self.width as usize) + (x as usize);
                if self.board[idx] == Cell::Filled {
                    assert(cell_xy(b, w, x as int, y as int) == Cell::Filled);
                    cnt = cnt + 1;
                }
                x = x + 1;
            }
            y = y + 1;
        }
        self.filled_cells = cnt;
        proof {
            lemma_count_filled_bounds(b, w, h);
        }
    }

    /// Move every ball one step; stop at the first ball that lands on the
    /// player or the in-progress trail, which loses the game. Balls after
    /// that one do not move this tick.
    #[verifier::loop_isolation(false)]
    fn move_balls(&mut self) -> (lost: bool)
        requires
            old(self).wf(),
        ensures
            final(self).wf(),
            final(self).board@ == old(self).board@,
            same_player(final(self).player, old(self).player),
            final(self).width == old(self).width,
            final(self).height == old(self).height,
            final(self).score == old(self).score,
            final(self).level == old(self).level,
            final(self).filled_cells == old(self).filled_cells,
            final(self).target_percent == old(self).target_percent,
            lost == any_ball_lost(
                old(self).board@,
                old(self).w(),
                old(self).h(),
                old(self).balls@,
                old(self).player.position,
                old(self).player.trail@,
                old(self).player.is_drawing,
            ),
            final(self).state == (if lost {
                GameState::Lost
            } else {
                old(self).state
            }),
            final(self).balls@.len() == old(self).balls@.len(),
            forall|j: int|
                0 <= j < old(self).balls@.len() ==> final(self).balls@[j] == (
                if no_ball_lost_before(
                    old(self).board@,
                    old(self).w(),
                    old(self).h(),
                    old(self).balls@,
                    old(self).player.position,
                    old(self).player.trail@,
                    old(self).player.is_drawing,
                    j,
                ) {
                    stepped_ball(old(self).board@, old(self).w(), old(self).h(), old(self).balls@[j])
                } else {
                    old(self).balls@[j]
                }),
    {
        let ghost bd = self.board@;
        let ghost w = self.w();
        let ghost h = self.h();
        let ghost balls0 = self.balls@;
        let ghost ppos = self.player.position;
        let ghost ptrail = self.player.trail@;
        let ghost drawing = self.player.is_drawing;
        let mut i: usize = 0;
        while i < self.balls.len()
            invariant
                self.wf(),
                bd == self.board@,
                w == self.w(),
                h == self.h(),
                ppos == self.player.position,
                ptrail == self.player.trail@,
                drawing == self.player.is_drawing,
                self.state == old(self).state,
                self.board@ == old(self).board@,
                same_player(self.player, old(self).player),
                self.width == old(self).width,
                self.height == old(self).height,
                self.score == old(self).score,
                self.level == old(self).level,
                self.filled_cells == old(self).filled_cells,
                self.target_percent == old(self).target_percent,
                0 <= i <= balls0.len(),
                self.balls@.len() == balls0.len(),
                forall|j: int| 0 <= j < i ==> self.balls@[j] == stepped_ball(bd, w, h, balls0[j]),
                forall|j: int|
                    0 <= j < i ==> !ball_lost_at(bd, w, h, balls0, ppos, ptrail, drawing, j),
                forall|j: int| i <= j < balls0.len() ==> self.balls@[j] == balls0[j],
            decreases balls0.len() - i,
        {
            let b2 = step_ball(&self.board, self.width, self.height, &self.balls[i]);
            self.balls.set(i, b2);

            let hit_player = b2.position == self.player.position;
            let hit_trail = if self.player.is_drawing {
                contains_position(&self.player.trail, b2.position)
            } else {
                false
            };
            if hit_player || hit_trail {
                self.state = GameState::Lost;
                proof {
                    assert(ball_lost_at(bd, w, h, balls0, ppos, ptrail, drawing, i as int));
                    assert(any_ball_lost(bd, w, h, balls0, ppos, ptrail, drawing));
                    assert forall|j: int| 0 <= j < balls0.len() implies self.balls@[j] == (
                    if no_ball_lost_before(bd, w, h, balls0, ppos, ptrail, drawing, j) {
                        stepped_ball(bd, w, h, balls0[j])
                    } else {
                        balls0[j]
                    }) by {
                        if j <= i as int {
                            assert(no_ball_lost_before(bd, w, h, balls0, ppos, ptrail, drawing, j));
                        } else {
                            assert(ball_lost_at(bd, w, h, balls0, ppos, ptrail, drawing, i as int));
                            assert(!no_ball_lost_before(bd, w, h, balls0, ppos, ptrail, drawing, j));
                        }
                    }
                }
                return true;
            }
            i = i + 1;
        }
        proof {
            assert(!any_ball_lost(bd, w, h, balls0, ppos, ptrail, drawing));
        }
        false
    }

    /// The region classifier. Partition all open interior cells into
    /// maximal connected regions; the region holding the player is the
    /// still-open outside (falling back to the largest region when the
    /// player stands on Filled ground); every other region without a ball
    /// is converted to Filled, and regions holding a ball are left alone.
    #[verifier::loop_isolation(false)]
    #[verifier::rlimit(100)]
    pub fn fill_enclosed_areas(&mut self)
        requires
            grid_wf(old(self).board@, old(self).w(), old(self).h()),
            borders_filled(old(self).board@, old(self).w(), old(self).h()),
        ensures
            final(self).same_actors(*old(self)),
            final(self).filled_cells == old(self).filled_cells,
            grid_wf(final(self).board@, final(self).w(), final(self).h()),
            borders_filled(final(self).board@, final(self).w(), final(self).h()),
            // Cells only ever turn from open to Filled.
            forall|x: int, y: int|
                0 <= x < old(self).w() && 0 <= y < old(self).h() && #[trigger] cell_xy(
                    final(self).board@,
                    old(self).w(),
                    x,
                    y,
                ) != cell_xy(old(self).board@, old(self).w(), x, y) ==> open_cell(
                    old(self).board@,
                    old(self).w(),
                    old(self).h(),
                    x,
                    y,
                ) && cell_xy(final(self).board@, old(self).w(), x, y) == Cell::Filled,
            // Hazard exemption: the whole region around any ball survives.
            forall|i: int, x: int, y: int|
                0 <= i < old(self).balls@.len() && #[trigger] conn(
                    old(self).board@,
                    old(self).w(),
                    old(self).h(),
                    (
                        (old(self).balls@[i]).position.x as int,
                        (old(self).balls@[i]).position.y as int,
                    ),
                    (x, y),
                ) ==> cell_xy(final(self).board@, old(self).w(), x, y) == cell_xy(
                    old(self).board@,
                    old(self).w(),
                    x,
                    y,
                ),
            // The player's own region survives.
            forall|x: int, y: int|
                #[trigger] conn(
                    old(self).board@,
                    old(self).w(),
                    old(self).h(),
                    (old(self).player.position.x as int, old(self).player.position.y as int),
                    (x, y),
                ) ==> cell_xy(final(self).board@, old(self).w(), x, y) == cell_xy(
                    old(self).board@,
                    old(self).w(),
                    x,
                    y,
                ),
            // When the player stands on an open cell, that cell anchors the
            // outside: every other ball-free region is fully converted.
            open_cell(
                old(self).board@,
                old(self).w(),
                old(self).h(),
                old(self).player.position.x as int,
                old(self).player.position.y as int,
            ) ==> outside_anchor(
                old(self).board@,
                final(self).board@,
                old(self).w(),
                old(self).h(),
                old(self).balls@,
                old(self).player.position.x as int,
                old(self).player.position.y as int,
            ),
            // A board whose open cells form at most one region is untouched.
            (forall|x1: int, y1: int, x2: int, y2: int|
                open_cell(old(self).board@, old(self).w(), old(self).h(), x1, y1) && open_cell(
                    old(self).board@,
                    old(self).w(),
                    old(self).h(),
                    x2,
                    y2,
                ) ==> #[trigger] conn(
                    old(self).board@,
                    old(self).w(),
                    old(self).h(),
                    (x1, y1),
                    (x2, y2),
                )) ==> final(self).board@ == old(self).board@,
            // Otherwise some open region anchors the outside, even when the
            // player stands on Filled ground; in that fallback the anchor's
            // region is one of the largest.
            anchored_outside(
                old(self).board@,
                final(self).board@,
                old(self).w(),
                old(self).h(),
                old(self).balls@,
                old(self).player.position.x as int,
                old(self).player.position.y as int,
            ),
    {
        let ghost b0 = self.board@;
        let ghost w = self.w();
        let ghost h = self.h();
        let ghost balls0 = self.balls@;
        let ghost px = self.player.position.x as int;
        let ghost py = self.player.position.y as int;

        let regions = find_regions(&self.board, self.width, self.height);
        let ghost rg = regions@;

        if regions.len() <= 1 {
            proof {
                lemma_few_regions(b0, w, h, rg, px, py, balls0);
            }
            return ;
        }
        // Identify the region holding the player, if the player stands on
        // an open cell.
        let mut found = false;
        let mut player_idx: usize = 0;
        let mut k: usize = 0;
        while k < regions.len()
            invariant
                0 <= k <= rg.len(),
                found ==> 0 <= player_idx < rg.len() && has_pos(
                    rg[player_idx as int]@,
                    px,
                    py,
                ),
                !found ==> forall|k2: int| 0 <= k2 < k ==> !has_pos(#[trigger] rg[k2]@, px, py),
            decreases rg.len() - k,
        {
            if !found && contains_position(&regions[k], self.player.position) {
                found = true;
                player_idx = k;
            }
            k = k + 1;
        }
        // The outside: the player's region, or failing that the largest.
        let mut outside: usize = player_idx;
        if !found {
            let mut best: usize = 0;
            let mut best_len: usize = regions[0].len();
            let mut k2: usize = 1;
            while k2 < regions.len()
                invariant
                    0 <= best < rg.len(),
                    1 <= k2 <= rg.len(),
                    best_len == rg[best as int]@.len(),
                    forall|k: int| 0 <= k < k2 ==> (#[trigger] rg[k])@.len() <= best_len,
                decreases rg.len() - k2,
            {
                if regions[k2].len() >= best_len {
                    best = k2;
                    best_len = regions[k2].len();
                }
                k2 = k2 + 1;
            }
            outside = best;
        }
        let ghost outside_i = outside as int;
        self.convert_regions(&regions, outside);
        proof {
            lemma_classifier_post(
                b0,
                self.board@,
                w,
                h,
                rg,
                balls0,
                outside_i,
                px,
                py,
                found,
            );
            lemma_multi_anchor(b0, self.board@, w, h, rg, balls0, outside_i, px, py, found);
        }
    }

    /// Convert to Filled every region other than the outside that holds no
    /// ball, leaving all other cells as they were.
    #[verifier::loop_isolation(false)]
    #[verifier::rlimit(100)]
    fn convert_regions(&mut self, regions: &Vec<Vec<Position>>, outside: usize)
        requires
            grid_wf(old(self).board@, old(self).w(), old(self).h()),
            (outside as int) < regions@.len(),
            forall|k: int|
                0 <= k < regions@.len() ==> is_component(
                    old(self).board@,
                    old(self).w(),
                    old(self).h(),
                    (#[trigger] regions@[k])@,
                ),
        ensures
            final(self).same_actors(*old(self)),
            final(self).filled_cells == old(self).filled_cells,
            final(self).board@.len() == old(self).board@.len(),
            forall|x: int, y: int|
                0 <= x < old(self).w() && 0 <= y < old(self).h() ==> #[trigger] cell_xy(
                    final(self).board@,
                    old(self).w(),
                    x,
                    y,
                ) == (if filled_by_prefix(
                    regions@,
                    old(self).balls@,
                    outside as int,
                    regions@.len() as int,
                    x,
                    y,
                ) {
                    Cell::Filled
                } else {
                    cell_xy(old(self).board@, old(self).w(), x, y)
                }),
    {
        let ghost b0 = self.board@;
        let ghost w = self.w();
        let ghost h = self.h();
        let ghost balls0 = self.balls@;
        let ghost rg = regions@;
        let ghost outside_i = outside as int;
        let mut k3: usize = 0;
        while k3 < regions.len()
            invariant
                0 <= k3 <= rg.len(),
                0 <= outside_i < rg.len(),
                self.same_actors(*old(self)),
                self.filled_cells == old(self).filled_cells,
                self.board@.len() == b0.len(),
                forall|x: int, y: int|
                    0 <= x < w && 0 <= y < h ==> #[trigger] cell_xy(self.board@, w, x, y) == (
                    if filled_by_prefix(rg, balls0, outside_i, k3 as int, x, y) {
                        Cell::Filled
                    } else {
                        cell_xy(b0, w, x, y)
                    }),
            decreases rg.len() - k3,
        {
            let ghost ki = k3 as int;
            let ghost pre_board = self.board@;
            if k3 != outside {
                let hb = any_ball_in(&regions[k3], &self.balls);
                if !hb {
                    proof {
                        assert(!region_kept(rg, balls0, ki, outside_i));
                    }
                    let region_len = regions[k3].len();
                    let mut j: usize = 0;
                    while j < region_len
                        invariant
                            0 <= j <= rg[ki]@.len(),
                            region_len == rg[ki]@.len(),
                            !region_kept(rg, balls0, ki, outside_i),
                            self.same_actors(*old(self)),
                            self.filled_cells == old(self).filled_cells,
                            self.board@.len() == b0.len(),
                            forall|x: int, y: int|
                                0 <= x < w && 0 <= y < h ==> #[trigger] cell_xy(
                                    self.board@,
                                    w,
                                    x,
                                    y,
                                ) == (if filled_by_prefix(rg, balls0, outside_i, ki, x, y)
                                    || member_prefix(rg[ki]@, j as int, x, y) {
                                    Cell::Filled
                                } else {
                                    cell_xy(b0, w, x, y)
                                }),
                        decreases region_len - j,
                    {
                        let p = regions[k3][j];
                        proof {
                            assert(has_pos(rg[ki]@, p.x as int, p.y as int));
                            assert(is_component(b0, w, h, rg[ki]@));
                            assert(conn(
                                b0,
                                w,
                                h,
                                (rg[ki]@[0].x as int, rg[ki]@[0].y as int),
                                (p.x as int, p.y as int),
                            ));
                            lemma_conn_open(
                                b0,
                                w,
                                h,
                                (rg[ki]@[0].x as int, rg[ki]@[0].y as int),
                                (p.x as int, p.y as int),
                            );
                            assert(open_cell(b0, w, h, p.x as int, p.y as int));
                            lemma_idx_bounds(w, h, p.x as int, p.y as int);
                        }
                        let ghost before = self.board@;
                        let idx: usize = (p.y as usize) * (self.width as usize) + (p.x as usize);
                        self.board.set(idx, Cell::Filled);
                        proof {
                            assert(idx as int == p.y as int * w + p.x as int);
                            assert(self.board@ == before.update(p.y as int * w + p.x as int, Cell::Filled));
                            assert(member_prefix(rg[ki]@, j as int + 1, p.x as int, p.y as int));
                            assert forall|x: int, y: int| 0 <= x < w && 0 <= y < h implies #[trigger] cell_xy(
                                self.board@,
                                w,
                                x,
                                y,
                            ) == (if filled_by_prefix(rg, balls0, outside_i, ki, x, y)
                                || member_prefix(rg[ki]@, j as int + 1, x, y) {
                                Cell::Filled
                            } else {
                                cell_xy(b0, w, x, y)
                            }) by {
                                lemma_idx_bounds(w, h, x, y);
                                lemma_idx_inj(w, x, y, p.x as int, p.y as int);
                                if x == p.x as int && y == p.y as int {
                                    assert(cell_xy(self.board@, w, x, y) == Cell::Filled);
                                } else {
                                    assert(cell_xy(self.board@, w, x, y) == cell_xy(
                                        before,
                                        w,
                                        x,
                                        y,
                                    ));
                                    assert(member_prefix(rg[ki]@, j as int + 1, x, y)
                                        == member_prefix(rg[ki]@, j as int, x, y));
                                }
                            }
                        }
                        j = j + 1;
                    }
                    proof {
                        assert forall|x: int, y: int| 0 <= x < w && 0 <= y < h implies #[trigger] cell_xy(
                            self.board@,
                            w,
                            x,
                            y,
                        ) == (if filled_by_prefix(rg, balls0, outside_i, ki + 1, x, y) {
                            Cell::Filled
                        } else {
                            cell_xy(b0, w, x, y)
                        }) by {
                            assert(member_prefix(rg[ki]@, rg[ki]@.len() as int, x, y) == has_pos(
                                rg[ki]@,
                                x,
                                y,
                            ));
                            lemma_prefix_extends(rg, balls0, outside_i, ki, x, y);
                        }
                    }
                } else {
                    proof {
                        assert(region_kept(rg, balls0, ki, outside_i));
                        assert forall|x: int, y: int| 0 <= x < w && 0 <= y < h implies #[trigger] cell_xy(
                            self.board@,
                            w,
                            x,
                            y,
                        ) == (if filled_by_prefix(rg, balls0, outside_i, ki + 1, x, y) {
                            Cell::Filled
                        } else {
                            cell_xy(b0, w, x, y)
                        }) by {
                            lemma_prefix_extends(rg, balls0, outside_i, ki, x, y);
                        }
                    }
                }
            } else {
                proof {
                    assert(region_kept(rg, balls0, ki, outside_i));
                    assert forall|x: int, y: int| 0 <= x < w && 0 <= y < h implies #[trigger] cell_xy(
                        self.board@,
                        w,
                        x,
                        y,
                    ) == (if filled_by_prefix(rg, balls0, outside_i, ki + 1, x, y) {
                        Cell::Filled
                    } else {
                        cell_xy(b0, w, x, y)
                    }) by {
                        lemma_prefix_extends(rg, balls0, outside_i, ki, x, y);
                    }
                }
            }
            k3 = k3 + 1;
        }
    }

    /// Advance the simulation by one discrete tick: move the player through
    /// the trail state machine (starting, extending or completing a cut, or
    /// losing on the player's own trail), then move every ball with
    /// collision checks, then evaluate the win condition. Terminal phases
    /// freeze the game until a reset or level advance.
    #[verifier::rlimit(100)]
    pub fn update(&mut self)
        requires
            old(self).wf(),
        ensures
            final(self).wf(),
            final(self).width == old(self).width,
            final(self).height == old(self).height,
            final(self).level == old(self).level,
            final(self).target_percent == old(self).target_percent,
            // Terminal phases freeze the game.
            old(self).state != GameState::Playing ==> final(self).unchanged_from(*old(self)),
            // The fill share never decreases while playing.
            old(self).synced() ==> final(self).synced() && final(self).filled_cells >= old(
                self,
            ).filled_cells,
            // Owned cells are never taken back.
            forall|x: int, y: int|
                0 <= x < old(self).w() && 0 <= y < old(self).h() && #[trigger] cell_xy(
                    old(self).board@,
                    old(self).w(),
                    x,
                    y,
                ) == Cell::Filled ==> cell_xy(final(self).board@, old(self).w(), x, y)
                    == Cell::Filled,
            // Winning happens only at or above the target share.
            final(self).state == GameState::Won ==> old(self).state == GameState::Won || 100
                * final(self).filled_cells >= final(self).target_percent
                * final(self).interior_total(),
            // A blocked move: the player stays, the board is untouched, the
            // balls still move.
            old(self).state == GameState::Playing && !old(self).next_in_bounds() ==> {
                &&& same_player(final(self).player, old(self).player)
                &&& final(self).board@ == old(self).board@
                &&& final(self).filled_cells == old(self).filled_cells
                &&& final(self).score == old(self).score
                &&& final(self).balls_stepped(old(self).balls@)
                &&& final(self).state == final(self).tick_phase(old(self).balls@)
            },
            // Walking into the own trail loses at once, with no mutation
            // beyond the phase.
            old(self).state == GameState::Playing && old(self).next_in_bounds() && old(
                self,
            ).next_cell() == Cell::Trail ==> {
                &&& same_player(final(self).player, old(self).player)
                &&& final(self).board@ == old(self).board@
                &&& final(self).balls@ == old(self).balls@
                &&& final(self).filled_cells == old(self).filled_cells
                &&& final(self).score == old(self).score
                &&& final(self).state == GameState::Lost
            },
            // Stepping onto an open cell starts or extends the trail.
            old(self).state == GameState::Playing && old(self).next_in_bounds() && old(
                self,
            ).next_cell() == Cell::Empty ==> {
                &&& final(self).player.position.x == old(self).next_xy().0
                &&& final(self).player.position.y == old(self).next_xy().1
                &&& final(self).player.direction == old(self).player.direction
                &&& final(self).player.is_drawing
                &&& final(self).player.trail@ == (if old(self).player.is_drawing {
                    old(self).player.trail@.push(final(self).player.position)
                } else {
                    seq![final(self).player.position]
                })
                &&& final(self).board@ == old(self).board@.update(
                    old(self).next_xy().1 * old(self).w() + old(self).next_xy().0,
                    Cell::Trail,
                )
                &&& final(self).filled_cells == old(self).filled_cells
                &&& final(self).score == old(self).score
                &&& final(self).balls_stepped(old(self).balls@)
                &&& final(self).state == final(self).tick_phase(old(self).balls@)
            },
            // Stepping onto owned ground while not drawing just moves.
            old(self).state == GameState::Playing && old(self).next_in_bounds() && old(
                self,
            ).next_cell() == Cell::Filled && !old(self).player.is_drawing ==> {
                &&& final(self).player.position.x == old(self).next_xy().0
                &&& final(self).player.position.y == old(self).next_xy().1
                &&& final(self).player.direction == old(self).player.direction
                &&& !final(self).player.is_drawing
                &&& final(self).player.trail@ == old(self).player.trail@
                &&& final(self).board@ == old(self).board@
                &&& final(self).filled_cells == old(self).filled_cells
                &&& final(self).score == old(self).score
                &&& final(self).balls_stepped(old(self).balls@)
                &&& final(self).state == final(self).tick_phase(old(self).balls@)
            },
            // Stepping onto owned ground while drawing completes the trail.
            old(self).state == GameState::Playing && old(self).next_in_bounds() && old(
                self,
            ).next_cell() == Cell::Filled && old(self).player.is_drawing ==> {
                &&& final(self).player.position.x == old(self).next_xy().0
                &&& final(self).player.position.y == old(self).next_xy().1
                &&& final(self).player.direction == old(self).player.direction
                &&& !final(self).player.is_drawing
                &&& final(self).player.trail@.len() == 0
                &&& final(self).synced()
                &&& final(self).score == score_after(
                    old(self).score,
                    final(self).filled_cells,
                    old(self).interior_total(),
                )
                &&& forall|i: int|
                    0 <= i < old(self).player.trail@.len() ==> cell_xy(
                        final(self).board@,
                        old(self).w(),
                        (#[trigger] old(self).player.trail@[i]).x as int,
                        old(self).player.trail@[i].y as int,
                    ) == Cell::Filled
                &&& forall|x: int, y: int|
                    0 <= x < old(self).w() && 0 <= y < old(self).h() && #[trigger] cell_xy(
                        final(self).board@,
                        old(self).w(),
                        x,
                        y,
                    ) != cell_xy(old(self).board@, old(self).w(), x, y) ==> cell_xy(
                        final(self).board@,
                        old(self).w(),
                        x,
                        y,
                    ) == Cell::Filled
                &&& final(self).balls_stepped(old(self).balls@)
                &&& final(self).state == final(self).tick_phase(old(self).balls@)
            },
    {
        if self.state != GameState::Playing {
            return ;
        }
        let ghost g0 = *self;
        let next_pos = self.player.position.moved(self.player.direction);

        if next_pos.x >= 0 && next_pos.y >= 0 && next_pos.x < self.width && next_pos.y
            < self.height {
            let next_cell = self.cell_at(next_pos.x, next_pos.y);
            match next_cell {
                Cell::Filled => {
                    if self.player.is_drawing {
                        self.complete_trail();
                    }
                    self.player.position = next_pos;
                    proof {
                        assert(self.wf());
                    }
                }
                Cell::Empty => {
                    self.player.position = next_pos;
                    if !self.player.is_drawing {
                        self.player.start_trail();
                    } else {
                        self.player.add_to_trail();
                    }
                    proof {
                        lemma_idx_bounds(
                            g0.w(),
                            g0.h(),
                            next_pos.x as int,
                            next_pos.y as int,
                        );
                    }
                    let ghost before = self.board@;
                    let idx: usize = (next_pos.y as usize) * (self.width as usize) + (
                    next_pos.x as usize);
                    self.board.set(idx, Cell::Trail);
                    proof {
                        let w = g0.w();
                        let h = g0.h();
                        let nx = next_pos.x as int;
                        let ny = next_pos.y as int;
                        assert(self.board@ == before.update(ny * w + nx, Cell::Trail));
                        assert forall|x: int, y: int|
                            0 <= x < w && 0 <= y < h && !(x == nx && y == ny) implies #[trigger] cell_xy(
                            self.board@,
                            w,
                            x,
                            y,
                        ) == cell_xy(before, w, x, y) by {
                            lemma_idx_bounds(w, h, x, y);
                            lemma_idx_inj(w, x, y, nx, ny);
                        }
                        assert(cell_xy(self.board@, w, nx, ny) == Cell::Trail);
                        // The new trail cell was Empty, so it was not on
                        // the old trail; every other trail cell is intact.
                        assert(self.player.trail@[self.player.trail@.len() - 1] == next_pos);
                        assert forall|i: int|
                            0 <= i < self.player.trail@.len() implies interior(
                            w,
                            h,
                            (#[trigger] self.player.trail@[i]).x as int,
                            self.player.trail@[i].y as int,
                        ) && cell_xy(
                            self.board@,
                            w,
                            self.player.trail@[i].x as int,
                            self.player.trail@[i].y as int,
                        ) == Cell::Trail by {
                            if i < self.player.trail@.len() - 1 {
                                assert(g0.player.trail@[i] == self.player.trail@[i]);
                            }
                        }
                        assert forall|x: int, y: int|
                            interior(w, h, x, y) && #[trigger] cell_xy(self.board@, w, x, y)
                                == Cell::Trail implies trail_has(self.player.trail@, x, y) by {
                            if x == nx && y == ny {
                                assert(self.player.trail@[self.player.trail@.len() - 1].x == x
                                    && self.player.trail@[self.player.trail@.len() - 1].y == y);
                            } else {
                                assert(cell_xy(g0.board@, w, x, y) == Cell::Trail);
                                assert(trail_has(g0.player.trail@, x, y));
                                let j = choose|j: int|
                                    0 <= j < g0.player.trail@.len() && (#[trigger] g0.player.trail@[j]).x
                                        == x && g0.player.trail@[j].y == y;
                                assert(self.player.trail@[j] == g0.player.trail@[j]);
                            }
                        }
                        // An Empty cell turning Trail does not change the
                        // filled count.
                        lemma_count_update(before, self.board@, w, h, nx, ny);
                        assert(self.wf());
                    }
                }
                Cell::Trail => {
                    self.state = GameState::Lost;
                    return ;
                }
            }
        }
        // Move the balls, then check the win condition.
        let lost = self.move_balls();
        if lost {
            return ;
        }
        proof {
            assert(9 <= (self.w() - 2) * (self.h() - 2) <= 1000000) by (nonlinear_arith)
                requires
                    grid_dims(self.w(), self.h()),
            ;
        }
        let total: u32 = ((self.width - 2) as u32) * ((self.height - 2) as u32);
        proof {
            assert(self.target_percent * total <= 100000000) by (nonlinear_arith)
                requires
                    self.target_percent <= 100 && total <= 1000000,
            ;
        }
        if self.filled_cells * 100 >= self.target_percent * total {
            self.state = GameState::Won;
        }
    }

    /// The end of a cut: the trail cells become Filled, the classifier
    /// converts the newly enclosed ball-free regions, the trail is cleared,
    /// the fill count is recomputed and points proportional to the owned
    /// share are awarded. Does nothing when no trail is in progress.
    #[verifier::loop_isolation(false)]
    #[verifier::rlimit(100)]
    fn complete_trail(&mut self)
        requires
            old(self).wf(),
        ensures
            final(self).wf(),
            old(self).player.trail@.len() == 0 ==> final(self).unchanged_from(*old(self)),
            final(self).width == old(self).width,
            final(self).height == old(self).height,
            final(self).state == old(self).state,
            final(self).level == old(self).level,
            final(self).target_percent == old(self).target_percent,
            final(self).balls@ == old(self).balls@,
            final(self).player.position == old(self).player.position,
            final(self).player.direction == old(self).player.direction,
            // Filled cells are never taken back.
            forall|x: int, y: int|
                0 <= x < old(self).w() && 0 <= y < old(self).h() && #[trigger] cell_xy(
                    old(self).board@,
                    old(self).w(),
                    x,
                    y,
                ) == Cell::Filled ==> cell_xy(final(self).board@, old(self).w(), x, y)
                    == Cell::Filled,
            old(self).player.trail@.len() > 0 ==> {
                &&& !final(self).player.is_drawing
                &&& final(self).player.trail@.len() == 0
                &&& final(self).synced()
                &&& (old(self).synced() ==> final(self).filled_cells >= old(self).filled_cells)
                &&& final(self).score == score_after(
                    old(self).score,
                    final(self).filled_cells,
                    old(self).interior_total(),
                )
                &&& forall|i: int|
                    0 <= i < old(self).player.trail@.len() ==> cell_xy(
                        final(self).board@,
                        old(self).w(),
                        (#[trigger] old(self).player.trail@[i]).x as int,
                        old(self).player.trail@[i].y as int,
                    ) == Cell::Filled
                &&& forall|x: int, y: int|
                    0 <= x < old(self).w() && 0 <= y < old(self).h() && #[trigger] cell_xy(
                        final(self).board@,
                        old(self).w(),
                        x,
                        y,
                    ) != cell_xy(old(self).board@, old(self).w(), x, y) ==> cell_xy(
                        final(self).board@,
                        old(self).w(),
                        x,
                        y,
                    ) == Cell::Filled
            },
    {
        if self.player.trail.is_empty() {
            return ;
        }
        let ghost b0 = self.board@;
        let ghost w = self.w();
        let ghost h = self.h();
        let ghost trail0 = self.player.trail@;
        // Commit the trail itself as owned territory.
        let mut i: usize = 0;
        while i < self.player.trail.len()
            invariant
                0 <= i <= trail0.len(),
                self.same_actors(*old(self)),
                self.filled_cells == old(self).filled_cells,
                self.board@.len() == b0.len(),
                forall|j: int|
                    0 <= j < i ==> cell_xy(
                        self.board@,
                        w,
                        (#[trigger] trail0[j]).x as int,
                        trail0[j].y as int,
                    ) == Cell::Filled,
                forall|x: int, y: int|
                    0 <= x < w && 0 <= y < h && #[trigger] cell_xy(self.board@, w, x, y) != cell_xy(
                        b0,
                        w,
                        x,
                        y,
                    ) ==> cell_xy(self.board@, w, x, y) == Cell::Filled && trail_has(trail0, x, y),
            decreases trail0.len() - i,
        {
            let p = self.player.trail[i];
            proof {
                lemma_idx_bounds(w, h, p.x as int, p.y as int);
            }
            let ghost before = self.board@;
            let idx: usize = (p.y as usize) * (self.width as usize) + (p.x as usize);
            self.board.set(idx, Cell::Filled);
            proof {
                assert(self.board@ == before.update(p.y as int * w + p.x as int, Cell::Filled));
                assert(has_pos(trail0, p.x as int, p.y as int));
                assert forall|x: int, y: int|
                    0 <= x < w && 0 <= y < h && !(x == p.x as int && y
                        == p.y as int) implies #[trigger] cell_xy(self.board@, w, x, y) == cell_xy(
                    before,
                    w,
                    x,
                    y,
                ) by {
                    lemma_idx_bounds(w, h, x, y);
                    lemma_idx_inj(w, x, y, p.x as int, p.y as int);
                }
            }
            i = i + 1;
        }
        proof {
            // No Trail cell survives the conversion, so clearing the trail
            // restores the board-trail correspondence.
            assert forall|x: int, y: int|
                0 <= x < w && 0 <= y < h implies #[trigger] cell_xy(self.board@, w, x, y)
                != Cell::Trail by {
                if cell_xy(self.board@, w, x, y) == Cell::Trail {
                    assert(cell_xy(b0, w, x, y) == Cell::Trail);
                    assert(interior(w, h, x, y));
                    assert(trail_has(trail0, x, y));
                    let j = choose|j: int|
                        0 <= j < trail0.len() && (#[trigger] trail0[j]).x == x && trail0[j].y == y;
                    assert(cell_xy(self.board@, w, trail0[j].x as int, trail0[j].y as int)
                        == Cell::Filled);
                }
            }
            assert(borders_filled(self.board@, w, h));
        }
        let ghost b1 = self.board@;
        // Convert the enclosed ball-free regions.
        self.fill_enclosed_areas();
        self.player.clear_trail();
        proof {
            assert forall|x: int, y: int|
                0 <= x < w && 0 <= y < h implies #[trigger] cell_xy(self.board@, w, x, y)
                != Cell::Trail by {
                if cell_xy(self.board@, w, x, y) != cell_xy(b1, w, x, y) {
                    assert(cell_xy(self.board@, w, x, y) == Cell::Filled);
                }
            }
            assert(self.wf());
        }
        self.update_filled_percentage();
        proof {
            // The fill only ever grew: monotone from the starting board.
            assert forall|x2: int, y2: int|
                interior(w, h, x2, y2) && #[trigger] cell_xy(b0, w, x2, y2)
                    == Cell::Filled implies cell_xy(self.board@, w, x2, y2) == Cell::Filled by {
                if cell_xy(b1, w, x2, y2) != cell_xy(b0, w, x2, y2) {
                    assert(cell_xy(b1, w, x2, y2) == Cell::Filled);
                }
                if cell_xy(self.board@, w, x2, y2) != cell_xy(b1, w, x2, y2) {
                    assert(cell_xy(self.board@, w, x2, y2) == Cell::Filled);
                }
            }
            crate::grid::lemma_count_mono(b0, self.board@, w, h, 1);
            lemma_count_filled_bounds(self.board@, w, h);
        }
        // Award points proportional to the owned share.
        proof {
            assert(9 <= (w - 2) * (h - 2) <= 1000000) by (nonlinear_arith)
                requires
                    grid_dims(w, h),
            ;
        }
        let total: u32 = ((self.width - 2) as u32) * ((self.height - 2) as u32);
        let delta: u32 = self.filled_cells * 100 / total;
        if self.score <= u32::MAX - delta {
            self.score = self.score + delta;
        } else {
            self.score = u32::MAX;
        }
    }

    /// Place `count` balls one at a time by rejection sampling: a uniform
    /// interior cell is rejected if filled or too close to the player, and
    /// inside the danger zone the velocity is forced away from the player.
    /// A placement is abandoned after a bounded number of attempts, so
    /// fewer balls than asked for may appear.
    #[verifier::loop_isolation(false)]
    #[verifier::rlimit(60)]
    fn spawn_balls(&mut self, count: usize)
        requires
            old(self).wf(),
        ensures
            final(self).wf(),
            final(self).board@ == old(self).board@,
            same_player(final(self).player, old(self).player),
            final(self).width == old(self).width,
            final(self).height == old(self).height,
            final(self).state == old(self).state,
            final(self).score == old(self).score,
            final(self).level == old(self).level,
            final(self).filled_cells == old(self).filled_cells,
            final(self).target_percent == old(self).target_percent,
            old(self).balls@.len() <= final(self).balls@.len() <= old(self).balls@.len() + count,
            forall|j: int| 0 <= j < old(self).balls@.len() ==> final(self).balls@[j] == old(self).balls@[j],
            forall|j: int|
                old(self).balls@.len() <= j < final(self).balls@.len() ==> spawn_ok(
                    old(self).board@,
                    old(self).w(),
                    old(self).h(),
                    old(self).player.position,
                    old(self).player.direction,
                    #[trigger] final(self).balls@[j],
                ),
    {
        let player_pos = self.player.position;
        let player_dir = self.player.direction;
        let ghost balls0 = self.balls@;
        let mut ball_idx: usize = 0;
        while ball_idx < count
            invariant
                0 <= ball_idx <= count,
                self.wf(),
                self.board@ == old(self).board@,
                same_player(self.player, old(self).player),
                self.width == old(self).width,
                self.height == old(self).height,
                self.state == old(self).state,
                self.score == old(self).score,
                self.level == old(self).level,
                self.filled_cells == old(self).filled_cells,
                self.target_percent == old(self).target_percent,
                balls0.len() <= self.balls@.len() <= balls0.len() + ball_idx,
                forall|j: int| 0 <= j < balls0.len() ==> self.balls@[j] == balls0[j],
                forall|j: int|
                    balls0.len() <= j < self.balls@.len() ==> spawn_ok(
                        old(self).board@,
                        old(self).w(),
                        old(self).h(),
                        old(self).player.position,
                        old(self).player.direction,
                        #[trigger] self.balls@[j],
                    ),
            decreases count - ball_idx,
        {
            let ghost len_start = self.balls@.len();
            let mut attempts: usize = 0;
            let mut done = false;
            while !done
                invariant
                    attempts <= MAX_SPAWN_ATTEMPTS + 1,
                    !done ==> attempts <= MAX_SPAWN_ATTEMPTS,
                    self.wf(),
                    self.board@ == old(self).board@,
                    same_player(self.player, old(self).player),
                    self.width == old(self).width,
                    self.height == old(self).height,
                    self.state == old(self).state,
                    self.score == old(self).score,
                    self.level == old(self).level,
                    self.filled_cells == old(self).filled_cells,
                    self.target_percent == old(self).target_percent,
                    !done ==> self.balls@.len() == len_start,
                    done ==> len_start <= self.balls@.len() <= len_start + 1,
                    len_start <= self.balls@.len(),
                    forall|j: int| 0 <= j < balls0.len() ==> self.balls@[j] == balls0[j],
                    forall|j: int|
                        balls0.len() <= j < self.balls@.len() ==> spawn_ok(
                            old(self).board@,
                            old(self).w(),
                            old(self).h(),
                            old(self).player.position,
                            old(self).player.direction,
                            #[trigger] self.balls@[j],
                        ),
                decreases MAX_SPAWN_ATTEMPTS + 1 - attempts,
            {
                attempts = attempts + 1;
                if attempts > MAX_SPAWN_ATTEMPTS {
                    // Give this ball up rather than search forever.
                    done = true;
                } else {
                    let x = crate::rng::rand_in_range(2, self.width - 2);
                    let y = crate::rng::rand_in_range(2, self.height - 2);
                    if !self.is_filled(x, y) {
                        let dx = if x >= player_pos.x {
                            x - player_pos.x
                        } else {
                            player_pos.x - x
                        };
                        let dy = if y >= player_pos.y {
                            y - player_pos.y
                        } else {
                            player_pos.y - y
                        };
                        if dx + dy >= MIN_SAFE_DISTANCE {
                            let in_zone = match player_dir {
                                Direction::Right => x <= player_pos.x + DANGER_ZONE_WIDTH && dy
                                    <= DANGER_ZONE_HEIGHT,
                                Direction::Left => x >= player_pos.x - DANGER_ZONE_WIDTH && dy
                                    <= DANGER_ZONE_HEIGHT,
                                Direction::Down => y <= player_pos.y + DANGER_ZONE_WIDTH && dx
                                    <= DANGER_ZONE_HEIGHT,
                                Direction::Up => y >= player_pos.y - DANGER_ZONE_WIDTH && dx
                                    <= DANGER_ZONE_HEIGHT,
                            };
                            let (vx, vy): (i32, i32) = if in_zone {
                                // In the danger zone the facing-axis
                                // component is forced away from the player.
                                match player_dir {
                                    Direction::Right => (
                                        1,
                                        if crate::rng::rand_coin() {
                                            1
                                        } else {
                                            -1
                                        },
                                    ),
                                    Direction::Left => (
                                        -1,
                                        if crate::rng::rand_coin() {
                                            1
                                        } else {
                                            -1
                                        },
                                    ),
                                    Direction::Down => (
                                        if crate::rng::rand_coin() {
                                            1
                                        } else {
                                            -1
                                        },
                                        1,
                                    ),
                                    Direction::Up => (
                                        if crate::rng::rand_coin() {
                                            1
                                        } else {
                                            -1
                                        },
                                        -1,
                                    ),
                                }
                            } else {
                                (
                                    if crate::rng::rand_coin() {
                                        1
                                    } else {
                                        -1
                                    },
                                    if crate::rng::rand_coin() {
                                        1
                                    } else {
                                        -1
                                    },
                                )
                            };
                            let nb = Ball::new(x, y, vx, vy);
                            proof {
                                assert(spawn_ok(
                                    old(self).board@,
                                    old(self).w(),
                                    old(self).h(),
                                    old(self).player.position,
                                    old(self).player.direction,
                                    nb,
                                ));
                                assert(ball_ok(nb, self.w(), self.h()));
                            }
                            self.balls.push(nb);
                            done = true;
                        }
                    }
                }
            }
            ball_idx = ball_idx + 1;
        }
    }

    /// A fresh game: a bordered empty board, the player at the left edge's
    /// middle facing right, and a board-size-dependent number of balls
    /// placed by the spawn policy.
    #[verifier::loop_isolation(false)]
    #[verifier::rlimit(60)]
    pub fn new(width: i32, height: i32) -> (g: Game)
        requires
            5 <= width <= 1000,
            5 <= height <= 1000,
        ensures
            g.wf(),
            g.synced(),
            g.width == width,
            g.height == height,
            g.state == GameState::Playing,
            g.score == 0,
            g.level == 1,
            g.filled_cells == 0,
            g.target_percent == 75,
            forall|x: int, y: int|
                interior(width as int, height as int, x, y) ==> #[trigger] cell_xy(
                    g.board@,
                    width as int,
                    x,
                    y,
                ) == Cell::Empty,
            g.player.position.x == 0,
            g.player.position.y == height as int / 2,
            g.player.direction == Direction::Right,
            !g.player.is_drawing,
            g.player.trail@.len() == 0,
            g.balls@.len() <= spawn_count(width as int, height as int),
            forall|j: int|
                0 <= j < g.balls@.len() ==> spawn_ok(
                    g.board@,
                    width as int,
                    height as int,
                    g.player.position,
                    g.player.direction,
                    #[trigger] g.balls@[j],
                ),
    {
        let ghost w = width as int;
        let ghost h = height as int;
        let mut board: Vec<Cell> = Vec::new();
        let mut y: i32 = 0;
        while y < height
            invariant
                0 <= y <= h,
                board@.len() == y * w,
                forall|x2: int, y2: int|
                    0 <= x2 < w && 0 <= y2 < y ==> #[trigger] cell_xy(board@, w, x2, y2) == (
                    if interior(w, h, x2, y2) {
                        Cell::Empty
                    } else {
                        Cell::Filled
                    }),
            decreases h - y,
        {
            let mut x: i32 = 0;
            while x < width
                invariant
                    0 <= y < h,
                    0 <= x <= w,
                    board@.len() == y * w + x,
                    forall|x2: int, y2: int|
                        0 <= x2 < w && (0 <= y2 < y || (y2 == y && 0 <= x2 < x))
                            ==> #[trigger] cell_xy(board@, w, x2, y2) == (if interior(
                            w,
                            h,
                            x2,
                            y2,
                        ) {
                            Cell::Empty
                        } else {
                            Cell::Filled
                        }),
                decreases w - x,
            {
                let ghost before = board@;
                let c = if x == 0 || y == 0 || x == width - 1 || y == height - 1 {
                    Cell::Filled
                } else {
                    Cell::Empty
                };
                board.push(c);
                proof {
                    assert forall|x2: int, y2: int|
                        0 <= x2 < w && (0 <= y2 < y || (y2 == y && 0 <= x2 < x
                            + 1)) implies #[trigger] cell_xy(board@, w, x2, y2) == (if interior(
                        w,
                        h,
                        x2,
                        y2,
                    ) {
                        Cell::Empty
                    } else {
                        Cell::Filled
                    }) by {
                        if y2 == y as int && x2 == x as int {
                            assert(cell_xy(board@, w, x2, y2) == c);
                        } else {
                            lemma_idx_order(w, x2, y2, x as int, y as int);
                            assert(cell_xy(board@, w, x2, y2) == cell_xy(before, w, x2, y2));
                        }
                    }
                }
                x = x + 1;
            }
            proof {
                assert(y * w + w == (y + 1) * w) by (nonlinear_arith);
            }
            y = y + 1;
        }
        let ghost bfin = board@;
        let player = Player::new(0, height / 2);
        let mut game = Game {
            width,
            height,
            board,
            player,
            balls: Vec::new(),
            state: GameState::Playing,
            score: 0,
            level: 1,
            filled_cells: 0,
            target_percent: 75,
        };
        proof {
            assert((w - 2) * (h - 2) >= 0) by (nonlinear_arith)
                requires
                    w >= 2 && h >= 2,
            ;
            lemma_idx_bounds(w, h, 0, 0);
            assert(game.board@ == bfin);
            assert(bfin.len() == h * w);
            assert(grid_wf(game.board@, w, h));
            assert(borders_filled(game.board@, w, h));
            assert(game.wf());
        }
        let area = width * height;
        let nb: i32 = (area + 133) / 267;
        let ball_count = if nb < 1 {
            1
        } else {
            nb
        };
        game.spawn_balls(ball_count as usize);
        game.update_filled_percentage();
        proof {
            lemma_count_zero(game.board@, w, h, 1);
        }
        game
    }

    /// Advance to the next level: the interior is cleared, the player is
    /// reset to the left edge, and a growing number of balls is respawned.
    #[verifier::loop_isolation(false)]
    #[verifier::rlimit(60)]
    pub fn next_level(&mut self)
        requires
            old(self).wf(),
        ensures
            final(self).wf(),
            final(self).synced(),
            final(self).width == old(self).width,
            final(self).height == old(self).height,
            final(self).score == old(self).score,
            final(self).target_percent == old(self).target_percent,
            final(self).level == (if old(self).level == u32::MAX {
                u32::MAX as int
            } else {
                old(self).level + 1
            }),
            final(self).state == GameState::Playing,
            final(self).filled_cells == 0,
            forall|x: int, y: int|
                interior(old(self).w(), old(self).h(), x, y) ==> #[trigger] cell_xy(
                    final(self).board@,
                    old(self).w(),
                    x,
                    y,
                ) == Cell::Empty,
            final(self).player.position.x == 0,
            final(self).player.position.y == old(self).h() / 2,
            final(self).player.direction == Direction::Right,
            !final(self).player.is_drawing,
            final(self).player.trail@.len() == 0,
            final(self).balls@.len() <= 2 + final(self).level,
            forall|j: int|
                0 <= j < final(self).balls@.len() ==> spawn_ok(
                    final(self).board@,
                    old(self).w(),
                    old(self).h(),
                    final(self).player.position,
                    final(self).player.direction,
                    #[trigger] final(self).balls@[j],
                ),
    {
        let ghost w = self.w();
        let ghost h = self.h();
        // Clear the board except for the border ring.
        let ghost b_start = self.board@;
        let mut y: i32 = 1;
        while y < self.height - 1
            invariant
                1 <= y <= h - 1,
                self.same_actors(*old(self)),
                self.filled_cells == old(self).filled_cells,
                self.board@.len() == b_start.len(),
                forall|x2: int, y2: int|
                    0 <= x2 < w && 0 <= y2 < h && !interior(w, h, x2, y2) ==> #[trigger] cell_xy(
                        self.board@,
                        w,
                        x2,
                        y2,
                    ) == cell_xy(b_start, w, x2, y2),
                forall|x2: int, y2: int|
                    interior(w, h, x2, y2) && y2 < y ==> #[trigger] cell_xy(self.board@, w, x2, y2)
                        == Cell::Empty,
            decreases h - 1 - y,
        {
            let mut x: i32 = 1;
            while x < self.width - 1
                invariant
                    1 <= y <= h - 2,
                    1 <= x <= w - 1,
                    self.same_actors(*old(self)),
                    self.filled_cells == old(self).filled_cells,
                    self.board@.len() == b_start.len(),
                    forall|x2: int, y2: int|
                        0 <= x2 < w && 0 <= y2 < h && !interior(w, h, x2, y2)
                            ==> #[trigger] cell_xy(self.board@, w, x2, y2) == cell_xy(
                            b_start,
                            w,
                            x2,
                            y2,
                        ),
                    forall|x2: int, y2: int|
                        interior(w, h, x2, y2) && (y2 < y || (y2 == y && x2 < x))
                            ==> #[trigger] cell_xy(self.board@, w, x2, y2) == Cell::Empty,
                decreases w - 1 - x,
            {
                proof {
                    lemma_idx_bounds(w, h, x as int, y as int);
                }
                let ghost before = self.board@;
                let idx: usize = (y as usize) * (self.width as usize) + (x as usize);
                self.board.set(idx, Cell::Empty);
                proof {
                    assert(self.board@ == before.update(y as int * w + x as int, Cell::Empty));
                    assert forall|x2: int, y2: int|
                        0 <= x2 < w && 0 <= y2 < h && !(x2 == x as int && y2
                            == y as int) implies #[trigger] cell_xy(self.board@, w, x2, y2)
                        == cell_xy(before, w, x2, y2) by {
                        lemma_idx_bounds(w, h, x2, y2);
                        lemma_idx_inj(w, x2, y2, x as int, y as int);
                    }
                }
                x = x + 1;
            }
            y = y + 1;
        }
        self.level = if self.level == u32::MAX {
            u32::MAX
        } else {
            self.level + 1
        };
        self.state = GameState::Playing;
        self.player = Player::new(0, self.height / 2);
        self.balls = Vec::new();
        proof {
            assert(grid_wf(self.board@, w, h));
            assert(borders_filled(self.board@, w, h));
            assert(self.wf());
        }
        let ball_count: u32 = if self.level <= u32::MAX - 2 {
            self.level + 2
        } else {
            u32::MAX
        };
        self.spawn_balls(ball_count as usize);
        self.update_filled_percentage();
        proof {
            lemma_count_zero(self.board@, w, h, 1);
        }
    }

    /// Start over with a fresh game of the same dimensions.
    pub fn reset(&mut self)
        requires
            old(self).wf(),
        ensures
            final(self).wf(),
            final(self).synced(),
            final(self).width == old(self).width,
            final(self).height == old(self).height,
            final(self).state == GameState::Playing,
            final(self).score == 0,
            final(self).level == 1,
            final(self).filled_cells == 0,
            final(self).target_percent == 75,
            forall|x: int, y: int|
                interior(old(self).w(), old(self).h(), x, y) ==> #[trigger] cell_xy(
                    final(self).board@,
                    old(self).w(),
                    x,
                    y,
                ) == Cell::Empty,
            final(self).player.position.x == 0,
            final(self).player.position.y == old(self).h() / 2,
            final(self).player.direction == Direction::Right,
            !final(self).player.is_drawing,
    {
        *self = Game::new(self.width, self.height);
    }
}

/// The one hazard kind of today: the bouncing ball, which keeps the range
/// and unit-velocity invariant `ball_ok` through every tick.
impl crate::entity::Enemy for Ball {
    open spec fn inv(&self, width: int, height: int) -> bool {
        ball_ok(*self, width, height)
    }

    fn position(&self) -> Position {
        self.position
    }

    fn update(&mut self, width: i32, height: i32, board: &Vec<Cell>) {
        let b2 = step_ball(board, width, height, self);
        *self = b2;
    }
}

/// Border invariance: on any well-formed game state — and every operation
/// of this library yields one — each cell of the border ring is Filled.
/// Together with `update`'s promise to return a well-formed state, the
/// border stays Filled across every tick.
pub proof fn lemma_border_invariant(g: Game)
    requires
        g.wf(),
    ensures
        forall|x: int, y: int|
            0 <= x < g.w() && 0 <= y < g.h() && !interior(g.w(), g.h(), x, y)
                ==> #[trigger] cell_xy(g.board@, g.w(), x, y) == Cell::Filled,
        g.cell_spec(0, 0) == Cell::Filled,
{
    assert(cell_xy(g.board@, g.w(), 0, 0) == Cell::Filled);
}

/// Fill conservation: the owned interior cells never outnumber the whole
/// interior, so the fill share is at most one; in particular no single
/// completion can convert more cells than the interior holds.
pub proof fn lemma_fill_conservation(g: Game)
    requires
        g.wf(),
    ensures
        0 <= g.filled_cells <= g.interior_total(),
        0 <= count_filled(g.board@, g.w(), g.h()) <= g.interior_total(),
{
    lemma_count_filled_bounds(g.board@, g.w(), g.h());
}

/// A partition of at most one region means every pair of open cells is
/// connected, so nothing is enclosed and the classifier rightly stops.
proof fn lemma_few_regions(
    b0: Seq<Cell>,
    w: int,
    h: int,
    rg: Seq<Vec<Position>>,
    px: int,
    py: int,
    balls: Seq<Ball>,
)
    requires
        rg.len() <= 1,
        forall|k: int| 0 <= k < rg.len() ==> is_component(b0, w, h, (#[trigger] rg[k])@),
        forall|x: int, y: int|
            #[trigger] open_cell(b0, w, h, x, y) ==> exists|k: int|
                0 <= k < rg.len() && has_pos(#[trigger] rg[k]@, x, y),
    ensures
        !multi_region(b0, w, h),
        open_cell(b0, w, h, px, py) ==> outside_anchor(b0, b0, w, h, balls, px, py),
{
    assert forall|x1: int, y1: int, x2: int, y2: int|
        open_cell(b0, w, h, x1, y1) && open_cell(b0, w, h, x2, y2) implies #[trigger] conn(
        b0,
        w,
        h,
        (x1, y1),
        (x2, y2),
    ) by {
        let k1 = choose|k: int| 0 <= k < rg.len() && has_pos(#[trigger] rg[k]@, x1, y1);
        let k2 = choose|k: int| 0 <= k < rg.len() && has_pos(#[trigger] rg[k]@, x2, y2);
        assert(k1 == 0 && k2 == 0);
        lemma_component_mutual(b0, w, h, rg[0]@, x1, y1, x2, y2);
    }
    if open_cell(b0, w, h, px, py) {
        assert forall|x: int, y: int|
            #[trigger] open_cell(b0, w, h, x, y) && !conn(b0, w, h, (px, py), (x, y))
                && !ball_region_conn(b0, w, h, balls, x, y) implies cell_xy(b0, w, x, y)
            == Cell::Filled by {
            assert(conn(b0, w, h, (px, py), (x, y)));
        }
    }
}

/// Assemble the classifier's contract out of the partition facts and the
/// cell-level description of what the fill loop wrote.
proof fn lemma_classifier_post(
    b0: Seq<Cell>,
    b1: Seq<Cell>,
    w: int,
    h: int,
    rg: Seq<Vec<Position>>,
    balls: Seq<Ball>,
    outside: int,
    px: int,
    py: int,
    found: bool,
)
    requires
        grid_wf(b0, w, h),
        borders_filled(b0, w, h),
        b1.len() == b0.len(),
        0 <= outside < rg.len(),
        forall|k: int| 0 <= k < rg.len() ==> is_component(b0, w, h, (#[trigger] rg[k])@),
        forall|x: int, y: int|
            #[trigger] open_cell(b0, w, h, x, y) ==> exists|k: int|
                0 <= k < rg.len() && has_pos(#[trigger] rg[k]@, x, y),
        forall|k1: int, k2: int, x2: int, y2: int|
            0 <= k1 < rg.len() && 0 <= k2 < rg.len() && k1 != k2 && #[trigger] has_pos(
                rg[k1]@,
                x2,
                y2,
            ) ==> !#[trigger] has_pos(rg[k2]@, x2, y2),
        found ==> has_pos(rg[outside]@, px, py),
        !found ==> forall|k: int| 0 <= k < rg.len() ==> !has_pos(#[trigger] rg[k]@, px, py),
        forall|x: int, y: int|
            0 <= x < w && 0 <= y < h ==> #[trigger] cell_xy(b1, w, x, y) == (if filled_by_prefix(
                rg,
                balls,
                outside,
                rg.len() as int,
                x,
                y,
            ) {
                Cell::Filled
            } else {
                cell_xy(b0, w, x, y)
            }),
    ensures
        grid_wf(b1, w, h),
        borders_filled(b1, w, h),
        forall|x: int, y: int|
            0 <= x < w && 0 <= y < h && #[trigger] cell_xy(b1, w, x, y) != cell_xy(b0, w, x, y)
                ==> open_cell(b0, w, h, x, y) && cell_xy(b1, w, x, y) == Cell::Filled,
        forall|i: int, x: int, y: int|
            0 <= i < balls.len() && #[trigger] conn(
                b0,
                w,
                h,
                ((balls[i]).position.x as int, (balls[i]).position.y as int),
                (x, y),
            ) ==> cell_xy(b1, w, x, y) == cell_xy(b0, w, x, y),
        forall|x: int, y: int|
            #[trigger] conn(b0, w, h, (px, py), (x, y)) ==> cell_xy(b1, w, x, y) == cell_xy(
                b0,
                w,
                x,
                y,
            ),
        open_cell(b0, w, h, px, py) ==> outside_anchor(b0, b1, w, h, balls, px, py),
        (forall|x1: int, y1: int, x2: int, y2: int|
            open_cell(b0, w, h, x1, y1) && open_cell(b0, w, h, x2, y2) ==> #[trigger] conn(
                b0,
                w,
                h,
                (x1, y1),
                (x2, y2),
            )) ==> b1 == b0,
        outside_anchor(b0, b1, w, h, balls, rg[outside]@[0].x as int, rg[outside]@[0].y as int),
{
    let oseed = rg[outside]@[0];
    let osx = oseed.x as int;
    let osy = oseed.y as int;
    assert(is_component(b0, w, h, rg[outside]@));
    assert(has_pos(rg[outside]@, osx, osy));
    lemma_conn_refl_member(b0, w, h, rg, outside);
    assert(open_cell(b0, w, h, osx, osy));

    // Any cell that the loop converted belongs to a region that is neither
    // the outside nor sheltered by a ball.
    assert forall|x: int, y: int|
        0 <= x < w && 0 <= y < h && #[trigger] cell_xy(b1, w, x, y) != cell_xy(
        b0,
        w,
        x,
        y,
    ) implies open_cell(b0, w, h, x, y) && cell_xy(b1, w, x, y) == Cell::Filled by {
        assert(filled_by_prefix(rg, balls, outside, rg.len() as int, x, y));
        let k = choose|k: int|
            0 <= k < rg.len() && !region_kept(rg, balls, k, outside) && has_pos(
                (#[trigger] rg[k])@,
                x,
                y,
            );
        lemma_member_open(b0, w, h, rg, k, x, y);
    }
    assert forall|x2: int, y2: int|
        0 <= x2 < w && 0 <= y2 < h && !interior(w, h, x2, y2) implies #[trigger] cell_xy(
        b1,
        w,
        x2,
        y2,
    ) == Cell::Filled by {
        if cell_xy(b1, w, x2, y2) != cell_xy(b0, w, x2, y2) {
            assert(open_cell(b0, w, h, x2, y2));
        }
    }
    // Hazard exemption.
    assert forall|i: int, x: int, y: int|
        0 <= i < balls.len() && #[trigger] conn(
        b0,
        w,
        h,
        ((balls[i]).position.x as int, (balls[i]).position.y as int),
        (x, y),
    ) implies cell_xy(b1, w, x, y) == cell_xy(b0, w, x, y) by {
        let bx = (balls[i]).position.x as int;
        let by = (balls[i]).position.y as int;
        lemma_conn_open(b0, w, h, (bx, by), (x, y));
        if cell_xy(b1, w, x, y) != cell_xy(b0, w, x, y) {
            let k = choose|k: int|
                0 <= k < rg.len() && !region_kept(rg, balls, k, outside) && has_pos(
                    (#[trigger] rg[k])@,
                    x,
                    y,
                );
            lemma_conn_sym(b0, w, h, (bx, by), (x, y));
            lemma_component_conn(b0, w, h, rg[k]@, x, y, bx, by);
            assert(region_kept(rg, balls, k, outside));
            assert(false);
        }
    }
    // The player's region survives whenever the player is on open ground.
    assert forall|x: int, y: int|
        #[trigger] conn(b0, w, h, (px, py), (x, y)) implies cell_xy(b1, w, x, y) == cell_xy(
        b0,
        w,
        x,
        y,
    ) by {
        lemma_conn_open(b0, w, h, (px, py), (x, y));
        let kp = choose|k: int| 0 <= k < rg.len() && has_pos(#[trigger] rg[k]@, px, py);
        assert(found);
        if cell_xy(b1, w, x, y) != cell_xy(b0, w, x, y) {
            let k = choose|k: int|
                0 <= k < rg.len() && !region_kept(rg, balls, k, outside) && has_pos(
                    (#[trigger] rg[k])@,
                    x,
                    y,
                );
            lemma_component_conn(b0, w, h, rg[outside]@, px, py, x, y);
            assert(has_pos(rg[outside]@, x, y));
            assert(k != outside);
            assert(false);
        }
    }
    // The outside seed anchors the classification.
    assert forall|x: int, y: int|
        #[trigger] conn(b0, w, h, (osx, osy), (x, y)) implies cell_xy(b1, w, x, y) == cell_xy(
        b0,
        w,
        x,
        y,
    ) by {
        lemma_conn_open(b0, w, h, (osx, osy), (x, y));
        if cell_xy(b1, w, x, y) != cell_xy(b0, w, x, y) {
            let k = choose|k: int|
                0 <= k < rg.len() && !region_kept(rg, balls, k, outside) && has_pos(
                    (#[trigger] rg[k])@,
                    x,
                    y,
                );
            lemma_component_conn(b0, w, h, rg[outside]@, osx, osy, x, y);
            assert(has_pos(rg[outside]@, x, y));
            assert(k != outside);
            assert(false);
        }
    }
    assert forall|x: int, y: int|
        #[trigger] open_cell(b0, w, h, x, y) && !conn(b0, w, h, (osx, osy), (x, y))
            && !ball_region_conn(b0, w, h, balls, x, y) implies cell_xy(b1, w, x, y)
        == Cell::Filled by {
        let k = choose|k: int| 0 <= k < rg.len() && has_pos(#[trigger] rg[k]@, x, y);
        if k == outside {
            lemma_component_mutual(b0, w, h, rg[outside]@, osx, osy, x, y);
            assert(false);
        }
        if region_kept(rg, balls, k, outside) {
            let i = choose|i: int|
                0 <= i < balls.len() && has_pos(
                    rg[k]@,
                    (#[trigger] balls[i]).position.x as int,
                    balls[i].position.y as int,
                );
            lemma_component_mutual(
                b0,
                w,
                h,
                rg[k]@,
                (balls[i]).position.x as int,
                (balls[i]).position.y as int,
                x,
                y,
            );
            assert(ball_region_conn(b0, w, h, balls, x, y));
            assert(false);
        }
        assert(filled_by_prefix(rg, balls, outside, rg.len() as int, x, y));
    }
    assert(outside_anchor(b0, b1, w, h, balls, osx, osy));
    // With the player on open ground, the player's cell is such an anchor.
    if open_cell(b0, w, h, px, py) {
        let kp = choose|k: int| 0 <= k < rg.len() && has_pos(#[trigger] rg[k]@, px, py);
        assert(found);
        assert forall|x: int, y: int|
            #[trigger] open_cell(b0, w, h, x, y) && !conn(b0, w, h, (px, py), (x, y))
                && !ball_region_conn(b0, w, h, balls, x, y) implies cell_xy(b1, w, x, y)
            == Cell::Filled by {
            let k = choose|k: int| 0 <= k < rg.len() && has_pos(#[trigger] rg[k]@, x, y);
            if k == outside {
                lemma_component_mutual(b0, w, h, rg[outside]@, px, py, x, y);
                assert(false);
            }
            if region_kept(rg, balls, k, outside) {
                let i = choose|i: int|
                    0 <= i < balls.len() && has_pos(
                        rg[k]@,
                        (#[trigger] balls[i]).position.x as int,
                        balls[i].position.y as int,
                    );
                lemma_component_mutual(
                    b0,
                    w,
                    h,
                    rg[k]@,
                    (balls[i]).position.x as int,
                    (balls[i]).position.y as int,
                    x,
                    y,
                );
                assert(ball_region_conn(b0, w, h, balls, x, y));
                assert(false);
            }
            assert(filled_by_prefix(rg, balls, outside, rg.len() as int, x, y));
        }
        assert(outside_anchor(b0, b1, w, h, balls, px, py));
    }
    // A single all-connected open area is never touched.
    if forall|x1: int, y1: int, x2: int, y2: int|
        open_cell(b0, w, h, x1, y1) && open_cell(b0, w, h, x2, y2) ==> #[trigger] conn(
            b0,
            w,
            h,
            (x1, y1),
            (x2, y2),
        ) {
        assert forall|i: int| 0 <= i < b0.len() implies b1[i] == b0[i] by {
            crate::grid::lemma_flat_coords(w, h, i);
            let x = i % w;
            let y = i / w;
            assert(cell_xy(b1, w, x, y) == b1[i] && cell_xy(b0, w, x, y) == b0[i]);
            if cell_xy(b1, w, x, y) != cell_xy(b0, w, x, y) {
                let k = choose|k: int|
                    0 <= k < rg.len() && !region_kept(rg, balls, k, outside) && has_pos(
                        (#[trigger] rg[k])@,
                        x,
                        y,
                    );
                lemma_member_open(b0, w, h, rg, k, x, y);
                assert(conn(b0, w, h, (x, y), (osx, osy)));
                lemma_component_conn(b0, w, h, rg[k]@, x, y, osx, osy);
                assert(has_pos(rg[k]@, osx, osy));
                assert(k != outside);
                assert(false);
            }
        }
        assert(b1 =~= b0);
    }
}

/// Package the outside seed as the witness of the classifier's anchor
/// promise: whenever the board held several regions, some open cell
/// anchors the surviving outside, and on the fallback path that cell sits
/// in a largest region.
proof fn lemma_multi_anchor(
    b0: Seq<Cell>,
    b1: Seq<Cell>,
    w: int,
    h: int,
    rg: Seq<Vec<Position>>,
    balls: Seq<Ball>,
    outside: int,
    px: int,
    py: int,
    found: bool,
)
    requires
        0 <= outside < rg.len(),
        forall|k: int| 0 <= k < rg.len() ==> is_component(b0, w, h, (#[trigger] rg[k])@),
        forall|k: int| 0 <= k < rg.len() ==> distinct_positions((#[trigger] rg[k])@),
        forall|x: int, y: int|
            #[trigger] open_cell(b0, w, h, x, y) ==> exists|k: int|
                0 <= k < rg.len() && has_pos(#[trigger] rg[k]@, x, y),
        found ==> has_pos(rg[outside]@, px, py),
        !found ==> forall|k: int|
            0 <= k < rg.len() ==> (#[trigger] rg[k])@.len() <= rg[outside]@.len(),
        outside_anchor(b0, b1, w, h, balls, rg[outside]@[0].x as int, rg[outside]@[0].y as int),
    ensures
        anchored_outside(b0, b1, w, h, balls, px, py),
{
    let osx = rg[outside]@[0].x as int;
    let osy = rg[outside]@[0].y as int;
    if !open_cell(b0, w, h, px, py) {
        lemma_largest_outside(b0, w, h, rg, outside, px, py, found);
    }
    assert(outside_anchor(b0, b1, w, h, balls, osx, osy) && (!open_cell(b0, w, h, px, py)
        ==> largest_anchor(b0, w, h, osx, osy)));
}

/// On the fallback path, with the player on Filled ground, the outside was
/// chosen as a largest region: its seed anchors a region that no open
/// cell's region outgrows.
proof fn lemma_largest_outside(
    b0: Seq<Cell>,
    w: int,
    h: int,
    rg: Seq<Vec<Position>>,
    outside: int,
    px: int,
    py: int,
    found: bool,
)
    requires
        0 <= outside < rg.len(),
        forall|k: int| 0 <= k < rg.len() ==> is_component(b0, w, h, (#[trigger] rg[k])@),
        forall|k: int| 0 <= k < rg.len() ==> distinct_positions((#[trigger] rg[k])@),
        forall|x: int, y: int|
            #[trigger] open_cell(b0, w, h, x, y) ==> exists|k: int|
                0 <= k < rg.len() && has_pos(#[trigger] rg[k]@, x, y),
        found ==> has_pos(rg[outside]@, px, py),
        !found ==> forall|k: int|
            0 <= k < rg.len() ==> (#[trigger] rg[k])@.len() <= rg[outside]@.len(),
        !open_cell(b0, w, h, px, py),
    ensures
        largest_anchor(b0, w, h, rg[outside]@[0].x as int, rg[outside]@[0].y as int),
{
    lemma_conn_refl_member(b0, w, h, rg, outside);
    let osx = rg[outside]@[0].x as int;
    let osy = rg[outside]@[0].y as int;
    if found {
        lemma_member_open(b0, w, h, rg, outside, px, py);
        assert(false);
    }
    assert forall|x: int, y: int| #[trigger] open_cell(b0, w, h, x, y) implies comp_set(
        b0,
        w,
        h,
        x,
        y,
    ).len() <= comp_set(b0, w, h, osx, osy).len() by {
        let k = choose|k: int| 0 <= k < rg.len() && has_pos(#[trigger] rg[k]@, x, y);
        lemma_component_size(b0, w, h, rg[k]@, x, y);
        lemma_component_size(b0, w, h, rg[outside]@, osx, osy);
    }
}

/// The first cell of any listed region is itself a member and open.
proof fn lemma_conn_refl_member(b0: Seq<Cell>, w: int, h: int, rg: Seq<Vec<Position>>, k: int)
    requires
        0 <= k < rg.len(),
        is_component(b0, w, h, rg[k]@),
    ensures
        has_pos(rg[k]@, rg[k]@[0].x as int, rg[k]@[0].y as int),
        open_cell(b0, w, h, rg[k]@[0].x as int, rg[k]@[0].y as int),
{
    let r = rg[k]@;
    assert(r[0].x == r[0].x as int && r[0].y == r[0].y as int);
    assert(has_pos(r, r[0].x as int, r[0].y as int));
    assert(conn(b0, w, h, (r[0].x as int, r[0].y as int), (r[0].x as int, r[0].y as int)));
    lemma_conn_open(b0, w, h, (r[0].x as int, r[0].y as int), (r[0].x as int, r[0].y as int));
}

/// Members of a listed region are open cells.
proof fn lemma_member_open(b0: Seq<Cell>, w: int, h: int, rg: Seq<Vec<Position>>, k: int, x: int, y: int)
    requires
        0 <= k < rg.len(),
        is_component(b0, w, h, rg[k]@),
        has_pos(rg[k]@, x, y),
    ensures
        open_cell(b0, w, h, x, y),
{
    let r = rg[k]@;
    assert(conn(b0, w, h, (r[0].x as int, r[0].y as int), (x, y)));
    lemma_conn_open(b0, w, h, (r[0].x as int, r[0].y as int), (x, y));
}

/// Extending the processed prefix by one kept region changes nothing; by
/// one converted region adds exactly its members.
proof fn lemma_prefix_extends(
    rg: Seq<Vec<Position>>,
    balls: Seq<Ball>,
    outside: int,
    ki: int,
    x: int,
    y: int,
)
    requires
        0 <= ki < rg.len(),
    ensures
        filled_by_prefix(rg, balls, outside, ki + 1, x, y) == (filled_by_prefix(
            rg,
            balls,
            outside,
            ki,
            x,
            y,
        ) || (!region_kept(rg, balls, ki, outside) && has_pos(rg[ki]@, x, y))),
{
    if filled_by_prefix(rg, balls, outside, ki + 1, x, y) {
        let k = choose|k: int|
            0 <= k < ki + 1 && !region_kept(rg, balls, k, outside) && has_pos(
                (#[trigger] rg[k])@,
                x,
                y,
            );
        if k < ki {
            assert(filled_by_prefix(rg, balls, outside, ki, x, y));
        }
    }
    if filled_by_prefix(rg, balls, outside, ki, x, y) {
        let k = choose|k: int|
            0 <= k < ki && !region_kept(rg, balls, k, outside) && has_pos((#[trigger] rg[k])@, x, y);
        assert(0 <= k < ki + 1 && !region_kept(rg, balls, k, outside) && has_pos(rg[k]@, x, y));
    }
    if !region_kept(rg, balls, ki, outside) && has_pos(rg[ki]@, x, y) {
        assert(0 <= ki < ki + 1 && !region_kept(rg, balls, ki, outside) && has_pos(rg[ki]@, x, y));
    }
}

} // verus!
