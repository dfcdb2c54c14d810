//! Board, players and matches.
use vstd::prelude::*;

verus! {

/// The colour of a token, or of an empty cell.
#[derive(PartialEq, Eq, Structural, Clone, Copy, Debug)]
pub enum Color {
    Red,
    Yellow,
    Empty,
}

/// The opposite colour; an empty cell stays empty.
pub open spec fn opposite(c: Color) -> Color {
    match c {
        Color::Red => Color::Yellow,
        Color::Yellow => Color::Red,
        Color::Empty => Color::Empty,
    }
}

impl std::ops::Not for Color {
    type Output = Color;

    fn not(self) -> (res: Color) {
        match self {
            Color::Red => Color::Yellow,
            Color::Yellow => Color::Red,
            Color::Empty => Color::Empty,
        }
    }
}

impl vstd::std_specs::ops::NotSpecImpl for Color {
    open spec fn obeys_not_spec() -> bool {
        true
    }

    open spec fn not_req(self) -> bool {
        true
    }

    open spec fn not_spec(self) -> Color {
        opposite(self)
    }
}

impl Color {
    /// The colour as the protocol's flag: `true` for red (the player who moves
    /// first), `false` for yellow. An empty cell has no such flag.
    pub fn into_bool(self) -> (b: bool)
        requires
            self != Color::Empty,
        ensures
            b == (self == Color::Red),
    {
        match self {
            Color::Red => true,
            _ => false,
        }
    }

    /// The opposite colour (the `!` operator).
    pub fn opponent(self) -> (c: Color)
        ensures
            c == opposite(self),
    {
        std::ops::Not::not(self)
    }
}

/// Number of columns of the board.
pub const COLUMNS: usize = 7;

/// Number of rows of the board (cells per column).
pub const ROWS: usize = 6;

/// The board as columns of cells, the cell at index 0 being the bottom one.
pub open spec fn board_view(board: &Vec<Vec<Color>>) -> Seq<Seq<Color>> {
    board@.map_values(|col: Vec<Color>| col@)
}

/// The view of a board column is the view of the corresponding vector.
pub proof fn lemma_board_view(board: &Vec<Vec<Color>>)
    ensures
        board_view(board).len() == board@.len(),
        forall|i: int| 0 <= i < board@.len() ==> #[trigger] board_view(board)[i] == board@[i]@,
        board_wf(board_view(board)) ==> forall|i: int| 0 <= i < 7 ==> #[trigger] board@[i]@.len() == 6,
{
    if board_wf(board_view(board)) {
        assert forall|i: int| 0 <= i < 7 implies #[trigger] board@[i]@.len() == 6 by {
            assert(board_view(board)[i].len() == 6);
        }
    }
}

/// A board has seven columns of six cells.
pub open spec fn board_wf(b: Seq<Seq<Color>>) -> bool {
    &&& b.len() == 7
    &&& forall|x: int| 0 <= x < 7 ==> #[trigger] b[x].len() == 6
}

/// Four equal cells from (x, y) to the right.
pub open spec fn horizontal_run(b: Seq<Seq<Color>>, x: int, y: int) -> bool {
    &&& x + 3 < 7
    &&& b[x + 1][y] == b[x][y]
    &&& b[x + 2][y] == b[x][y]
    &&& b[x + 3][y] == b[x][y]
}

/// Four equal cells from (x, y) upwards.
pub open spec fn vertical_run(b: Seq<Seq<Color>>, x: int, y: int) -> bool {
    &&& y + 3 < 6
    &&& b[x][y + 1] == b[x][y]
    &&& b[x][y + 2] == b[x][y]
    &&& b[x][y + 3] == b[x][y]
}

/// Four equal cells from (x, y) diagonally up and to the right.
pub open spec fn rising_run(b: Seq<Seq<Color>>, x: int, y: int) -> bool {
    &&& x + 3 < 7
    &&& y + 3 < 6
    &&& b[x + 1][y + 1] == b[x][y]
    &&& b[x + 2][y + 2] == b[x][y]
    &&& b[x + 3][y + 3] == b[x][y]
}

/// Four equal cells from (x, y) diagonally down and to the right.
pub open spec fn falling_run(b: Seq<Seq<Color>>, x: int, y: int) -> bool {
    &&& x + 3 < 7
    &&& y - 3 >= 0
    &&& b[x + 1][y - 1] == b[x][y]
    &&& b[x + 2][y - 2] == b[x][y]
    &&& b[x + 3][y - 3] == b[x][y]
}

/// A line of four equal cells (empty ones included) starts at (x, y).
pub open spec fn run_at(b: Seq<Seq<Color>>, x: int, y: int) -> bool {
    horizontal_run(b, x, y) || vertical_run(b, x, y) || rising_run(b, x, y) || falling_run(b, x, y)
}

/// (x, y) is the lowest cell of column x where a line of four starts.
pub open spec fn first_run_in_column(b: Seq<Seq<Color>>, x: int, y: int) -> bool {
    &&& 0 <= y < 6
    &&& run_at(b, x, y)
    &&& forall|y2: int| 0 <= y2 < y ==> !run_at(b, x, y2)
}

/// The board is decided at (x, y): going through the columns from the left,
/// each column is examined up to its lowest line of four; (x, y) is the first
/// such line whose cells hold tokens.
pub open spec fn decided_at(b: Seq<Seq<Color>>, x: int, y: int) -> bool {
    &&& 0 <= x < 7
    &&& first_run_in_column(b, x, y)
    &&& b[x][y] != Color::Empty
    &&& forall|x2: int, y2: int|
        0 <= x2 < x && #[trigger] first_run_in_column(b, x2, y2) ==> b[x2][y2] == Color::Empty
}

/// Every cell holds a token.
pub open spec fn board_full(b: Seq<Seq<Color>>) -> bool {
    forall|x: int, y: int| 0 <= x < 7 && 0 <= y < 6 ==> b[x][y] != Color::Empty
}

/// The outcome of a board: the colour of its deciding line (empty when it has
/// none), and whether the game is drawn, i.e. undecided on a full board.
pub open spec fn outcome(b: Seq<Seq<Color>>) -> (Color, bool) {
    if exists|x: int, y: int| decided_at(b, x, y) {
        let (x, y) = choose|x: int, y: int| decided_at(b, x, y);
        (b[x][y], false)
    } else {
        (Color::Empty, board_full(b))
    }
}

/// A board with no token.
pub open spec fn empty_board(b: Seq<Seq<Color>>) -> bool {
    board_wf(b) && forall|x: int, y: int| 0 <= x < 7 && 0 <= y < 6 ==> b[x][y] == Color::Empty
}

/// y is the lowest empty cell of column x.
pub open spec fn lowest_empty(b: Seq<Seq<Color>>, x: int, y: int) -> bool {
    &&& 0 <= y < 6
    &&& b[x][y] == Color::Empty
    &&& forall|y2: int| 0 <= y2 < y ==> b[x][y2] != Color::Empty
}

/// The board after dropping a token of `color` into column `column`: it lands
/// on the lowest empty cell; a full column is left as it was.
pub open spec fn drop_token(b: Seq<Seq<Color>>, color: Color, column: int) -> Seq<Seq<Color>> {
    if exists|y: int| lowest_empty(b, column, y) {
        let y = choose|y: int| lowest_empty(b, column, y);
        b.update(column, b[column].update(y, color))
    } else {
        b
    }
}

/// The top cell of a column is taken, so the column accepts no more tokens.
pub open spec fn column_full(b: Seq<Seq<Color>>, x: int) -> bool {
    b[x][5] != Color::Empty
}

/// The board with no token: seven columns of six empty cells.
pub open spec fn blank_board() -> Seq<Seq<Color>> {
    Seq::new(7, |x: int| Seq::new(6, |y: int| Color::Empty))
}

/// The board that the moves of a ledger build, one token after another
/// from the blank board.
pub open spec fn replay(ledger: Seq<(Color, usize, u64)>) -> Seq<Seq<Color>>
    decreases ledger.len(),
{
    if ledger.len() == 0 {
        blank_board()
    } else {
        drop_token(replay(ledger.drop_last()), ledger.last().0, ledger.last().1 as int)
    }
}

/// The colour of the move at position `i` of a ledger: red moves first.
pub open spec fn turn_color(i: int) -> Color {
    if i % 2 == 0 {
        Color::Red
    } else {
        Color::Yellow
    }
}

/// The moves of a ledger alternate in colour, red first, each in a column
/// of the board.
pub open spec fn ledger_alternates(ledger: Seq<(Color, usize, u64)>) -> bool {
    forall|i: int| 0 <= i < ledger.len() ==> (#[trigger] ledger[i]).0 == turn_color(i) && ledger[i].1 < 7
}

/// A board with no token is the blank board.
pub proof fn lemma_blank(b: Seq<Seq<Color>>)
    requires
        empty_board(b),
    ensures
        b == blank_board(),
{
    assert forall|x: int| 0 <= x < 7 implies #[trigger] b[x] == blank_board()[x] by {
        assert(b[x] =~= blank_board()[x]);
    }
    assert(b =~= blank_board());
}

/// No move yet: the ledger alternates and builds the blank board.
pub proof fn lemma_ledger_start()
    ensures
        ledger_alternates(Seq::<(Color, usize, u64)>::empty()),
        replay(Seq::<(Color, usize, u64)>::empty()) == blank_board(),
{
}

/// One more move, of the colour whose turn it is and in a column of the
/// board, keeps the ledger alternating and its replay the board.
pub proof fn lemma_ledger_step(board: Seq<Seq<Color>>, ledger: Seq<(Color, usize, u64)>, mv: (Color, usize, u64))
    requires
        ledger_alternates(ledger),
        board == replay(ledger),
        mv.0 == turn_color(ledger.len() as int),
        mv.1 < 7,
    ensures
        ledger_alternates(ledger.push(mv)),
        drop_token(board, mv.0, mv.1 as int) == replay(ledger.push(mv)),
{
    assert(ledger.push(mv).drop_last() =~= ledger);
    assert forall|i: int| 0 <= i < ledger.push(mv).len() implies (#[trigger] ledger.push(mv)[i]).0 == turn_color(i)
        && ledger.push(mv)[i].1 < 7 by {
        if i < ledger.len() {
            assert(ledger.push(mv)[i] == ledger[i]);
        }
    }
}

/// A fresh board: seven columns of six empty cells.
pub fn new_board() -> (board: Vec<Vec<Color>>)
    ensures
        empty_board(board_view(&board)),
{
    let mut board: Vec<Vec<Color>> = Vec::new();
    let mut x: usize = 0;
    while x < COLUMNS
        invariant
            x <= 7,
            board@.len() == x,
            forall|i: int| 0 <= i < x ==> #[trigger] board@[i]@.len() == 6,
            forall|i: int, y: int| 0 <= i < x && 0 <= y < 6 ==> board@[i]@[y] == Color::Empty,
        decreases 7 - x,
    {
        let mut col: Vec<Color> = Vec::new();
        let mut y: usize = 0;
        while y < ROWS
            invariant
                y <= 6,
                col@.len() == y,
                forall|j: int| 0 <= j < y ==> col@[j] == Color::Empty,
            decreases 6 - y,
        {
            col.push(Color::Empty);
            y = y + 1;
        }
        board.push(col);
        x = x + 1;
    }
    board
}

/// Whether a line of four starts at (x, y).
fn run_at_exec(board: &Vec<Vec<Color>>, x: usize, y: usize) -> (r: bool)
    requires
        board_wf(board_view(board)),
        x < 7,
        y < 6,
    ensures
        r == run_at(board_view(board), x as int, y as int),
{
    let ghost b = board_view(board);
    proof {
        lemma_board_view(board);
    }
    let c = board[x][y];
    let horizontal = x + 3 < COLUMNS && board[x + 1][y] == c && board[x + 2][y] == c
        && board[x + 3][y] == c;
    let vertical = y + 3 < ROWS && board[x][y + 1] == c && board[x][y + 2] == c
        && board[x][y + 3] == c;
    let rising = x + 3 < COLUMNS && y + 3 < ROWS && board[x + 1][y + 1] == c
        && board[x + 2][y + 2] == c && board[x + 3][y + 3] == c;
    let falling = x + 3 < COLUMNS && y >= 3 && board[x + 1][y - 1] == c
        && board[x + 2][y - 2] == c && board[x + 3][y - 3] == c;
    horizontal || vertical || rising || falling
}

/// Whether every cell holds a token.
fn board_full_exec(board: &Vec<Vec<Color>>) -> (r: bool)
    requires
        board_wf(board_view(board)),
    ensures
        r == board_full(board_view(board)),
{
    let ghost b = board_view(board);
    proof {
        lemma_board_view(board);
    }
    let mut x: usize = 0;
    while x < COLUMNS
        invariant
            b == board_view(board),
            board_wf(b),
            forall|i: int| 0 <= i < board@.len() ==> #[trigger] b[i] == board@[i]@,
            x <= 7,
            forall|i: int, j: int| 0 <= i < x && 0 <= j < 6 ==> b[i][j] != Color::Empty,
        decreases 7 - x,
    {
        let mut y: usize = 0;
        while y < ROWS
            invariant
                b == board_view(board),
                board_wf(b),
                forall|i: int| 0 <= i < board@.len() ==> #[trigger] b[i] == board@[i]@,
                x < 7,
                y <= 6,
                forall|i: int, j: int| 0 <= i < x && 0 <= j < 6 ==> b[i][j] != Color::Empty,
                forall|j: int| 0 <= j < y ==> b[x as int][j] != Color::Empty,
            decreases 6 - y,
        {
            if board[x][y] == Color::Empty {
                return false;
            }
            y = y + 1;
        }
        x = x + 1;
    }
    true
}

/// The outcome of a board, as the moderator reads it after each move: the
/// winning colour (empty when nobody has won) and whether the game is drawn.
pub fn board_outcome(board: &Vec<Vec<Color>>) -> (r: (Color, bool))
    requires
        board_wf(board_view(board)),
    ensures
        r == outcome(board_view(board)),
{
    let ghost b = board_view(board);
    proof {
        lemma_board_view(board);
    }
    let mut x: usize = 0;
    while x < COLUMNS
        invariant
            b == board_view(board),
            board_wf(b),
            forall|i: int| 0 <= i < board@.len() ==> #[trigger] b[i] == board@[i]@,
            x <= 7,
            forall|x2: int, y2: int|
                0 <= x2 < x && #[trigger] first_run_in_column(b, x2, y2) ==> b[x2][y2]
                    == Color::Empty,
        decreases 7 - x,
    {
        let mut y: usize = 0;
        let mut found = false;
        while y < ROWS && !found
            invariant
                b == board_view(board),
                board_wf(b),
                forall|i: int| 0 <= i < board@.len() ==> #[trigger] b[i] == board@[i]@,
                x < 7,
                y <= 6,
                found ==> y < 6 && run_at(b, x as int, y as int),
                forall|y2: int| 0 <= y2 < y ==> !run_at(b, x as int, y2),
            decreases 6 - y + (if found { 0int } else { 1int }),
        {
            if run_at_exec(board, x, y) {
                found = true;
            } else {
                y = y + 1;
            }
        }
        if found {
            assert(first_run_in_column(b, x as int, y as int));
            if board[x][y] != Color::Empty {
                assert(decided_at(b, x as int, y as int));
                proof {
                    lemma_decided_unique(b, x as int, y as int);
                }
                return (board[x][y], false);
            }
        }
        proof {
            assert forall|x2: int, y2: int|
                0 <= x2 < x + 1 && #[trigger] first_run_in_column(b, x2, y2) implies b[x2][y2]
                == Color::Empty by {
                if x2 == x {
                    if found {
                        if y2 < y {
                        } else if y < y2 {
                        }
                    } else {
                    }
                }
            }
        }
        x = x + 1;
    }
    proof {
        assert forall|x2: int, y2: int| !decided_at(b, x2, y2) by {
            if decided_at(b, x2, y2) {
                assert(first_run_in_column(b, x2, y2));
            }
        }
    }
    let full = board_full_exec(board);
    (Color::Empty, full)
}

/// At most one cell decides a board.
proof fn lemma_decided_unique(b: Seq<Seq<Color>>, x: int, y: int)
    requires
        decided_at(b, x, y),
    ensures
        forall|x2: int, y2: int| decided_at(b, x2, y2) ==> x2 == x && y2 == y,
{
    assert forall|x2: int, y2: int| decided_at(b, x2, y2) implies x2 == x && y2 == y by {
        if x2 < x {
            assert(first_run_in_column(b, x2, y2));
        } else if x < x2 {
            assert(first_run_in_column(b, x, y));
        } else {
            if y2 < y {
                assert(run_at(b, x, y2));
            } else if y < y2 {
                assert(run_at(b, x, y));
            }
        }
    }
}

/// A player known to the server, reached through the connection `addr`.
pub struct Client {
    pub username: String,
    pub ready: bool,
    pub color: Color,
    pub current_match: Option<u32>,
    pub addr: u64,
}

impl Client {
    /// A player who has just connected: not ready, in no match, no colour.
    pub fn new(username: String, addr: u64) -> (c: Client)
        ensures
            c.username == username,
            c.addr == addr,
            !c.ready,
            c.color == Color::Empty,
            c.current_match is None,
    {
        Client { username, ready: false, color: Color::Empty, current_match: None, addr }
    }
}

/// A game between two players. `player1` holds red and moves first.
pub struct Match {
    pub id: u32,
    pub demo_mode: bool,
    pub board: Vec<Vec<Color>>,
    /// The moves so far: colour, column and the time of the move in milliseconds.
    pub ledger: Vec<(Color, usize, u64)>,
    pub player1: String,
    pub player2: String,
}

impl Match {
    /// The match is well formed: its board has seven columns of six cells.
    pub open spec fn wf(&self) -> bool {
        board_wf(board_view(&self.board))
    }

    /// A demo match is played against the server.
    pub open spec fn demo_ok(&self) -> bool {
        self.demo_mode ==> self.player1@ == "demo"@ || self.player2@ == "demo"@
    }

    /// The moves recorded are the game played: they alternate in colour,
    /// red first, and the board is what they build.
    pub open spec fn ledger_ok(&self) -> bool {
        &&& ledger_alternates(self.ledger@)
        &&& board_view(&self.board) == replay(self.ledger@)
    }

    /// A match that has not started: empty board, no move, with `first`
    /// holding red and moving first.
    pub fn new_with_order(id: u32, first: String, second: String, demo_mode: bool) -> (m: Match)
        ensures
            m.id == id,
            m.demo_mode == demo_mode,
            m.player1@ == first@,
            m.player2@ == second@,
            m.ledger@.len() == 0,
            empty_board(board_view(&m.board)),
            m.wf(),
            m.ledger_ok(),
    {
        proof {
            lemma_ledger_start();
        }
        let board = new_board();
        proof {
            lemma_blank(board_view(&board));
        }
        Match {
            id,
            demo_mode,
            board,
            ledger: Vec::new(),
            player1: first,
            player2: second,
        }
    }

    /// A match between two players, the one who moves first drawn at random.
    pub fn new(id: u32, player1: String, player2: String, demo_mode: bool) -> (m: Match)
        ensures
            m.id == id,
            m.demo_mode == demo_mode,
            (m.player1@ == player1@ && m.player2@ == player2@) || (m.player1@ == player2@
                && m.player2@ == player1@),
            m.ledger@.len() == 0,
            empty_board(board_view(&m.board)),
            m.wf(),
            m.ledger_ok(),
    {
        let coin = crate::random_between(0, 1);
        Match::new_after_draw(id, player1, player2, demo_mode, coin)
    }

    /// A match between two players once the draw for the first move is known:
    /// `player1` moves first when `coin` is 0, `player2` otherwise.
    pub fn new_after_draw(id: u32, player1: String, player2: String, demo_mode: bool, coin: u64) -> (m: Match)
        ensures
            m.id == id,
            m.demo_mode == demo_mode,
            coin == 0 ==> m.player1@ == player1@ && m.player2@ == player2@,
            coin != 0 ==> m.player1@ == player2@ && m.player2@ == player1@,
            m.ledger@.len() == 0,
            empty_board(board_view(&m.board)),
            m.wf(),
            m.ledger_ok(),
    {
        if coin == 0 {
            Match::new_with_order(id, player1, player2, demo_mode)
        } else {
            Match::new_with_order(id, player2, player1, demo_mode)
        }
    }

    /// Drops a token of `color` into `column`: it lands on the lowest empty
    /// cell; a full column is left as it was.
    pub fn place_token(&mut self, color: Color, column: usize)
        requires
            old(self).wf(),
            column < 7,
        ensures
            board_view(&final(self).board) == drop_token(board_view(&old(self).board), color, column as int),
            final(self).wf(),
            final(self).id == old(self).id,
            final(self).demo_mode == old(self).demo_mode,
            final(self).ledger == old(self).ledger,
            final(self).player1 == old(self).player1,
            final(self).player2 == old(self).player2,
    {
        let ghost b = board_view(&self.board);
        proof {
            lemma_board_view(&self.board);
        }
        let mut i: usize = 0;
        while i < ROWS
            invariant
                i <= 6,
                column < 7,
                self.board == old(self).board,
                self.id == old(self).id,
                self.demo_mode == old(self).demo_mode,
                self.ledger == old(self).ledger,
                self.player1 == old(self).player1,
                self.player2 == old(self).player2,
                b == board_view(&self.board),
                board_wf(b),
                forall|k: int| 0 <= k < self.board@.len() ==> #[trigger] b[k] == self.board@[k]@,
                forall|k: int| 0 <= k < 7 ==> #[trigger] self.board@[k]@.len() == 6,
                forall|y2: int| 0 <= y2 < i ==> b[column as int][y2] != Color::Empty,
            decreases 6 - i,
        {
            if self.board[column][i] == Color::Empty {
                assert(lowest_empty(b, column as int, i as int));
                proof {
                    lemma_lowest_empty_unique(b, column as int, i as int);
                }
                let mut col = self.board[column].clone();
                assert(col@ =~= b[column as int]);
                col.set(i, color);
                self.board.set(column, col);
                proof {
                    lemma_board_view(&self.board);
                    assert(board_view(&self.board) =~= b.update(column as int, b[column as int].update(i as int, color)));
                }
                return;
            }
            i = i + 1;
        }
        proof {
            assert forall|y: int| !lowest_empty(b, column as int, y) by {}
        }
    }

    /// The outcome after the last move: the winning colour (empty when nobody
    /// has won) and whether the game is drawn.
    pub fn end_game_check(&self) -> (r: (Color, bool))
        requires
            self.wf(),
        ensures
            r == outcome(board_view(&self.board)),
    {
        board_outcome(&self.board)
    }
}

/// A column has at most one lowest empty cell.
proof fn lemma_lowest_empty_unique(b: Seq<Seq<Color>>, x: int, y: int)
    requires
        lowest_empty(b, x, y),
    ensures
        forall|y2: int| lowest_empty(b, x, y2) ==> y2 == y,
{
}

/// The opponent of the opponent's colour is the colour itself.
pub proof fn law_opposite_twice(c: Color)
    ensures
        opposite(opposite(c)) == c,
{
}

/// A token dropped into a column that is not full lands on the column's
/// lowest empty cell, on top of the tokens already there; no other cell
/// changes.
pub proof fn law_token_lands_on_top(b: Seq<Seq<Color>>, color: Color, x: int)
    requires
        board_wf(b),
        0 <= x < 7,
        exists|y: int| lowest_empty(b, x, y),
    ensures
        exists|y: int|
            lowest_empty(b, x, y) && #[trigger] drop_token(b, color, x)[x][y] == color && forall|y2: int|
                0 <= y2 < y ==> drop_token(b, color, x)[x][y2] != Color::Empty,
        forall|x2: int, y2: int|
            0 <= x2 < 7 && 0 <= y2 < 6 && !(x2 == x && lowest_empty(b, x, y2)) ==> drop_token(b, color, x)[x2][y2]
                == b[x2][y2],
        board_wf(drop_token(b, color, x)),
{
    let y = choose|y: int| lowest_empty(b, x, y);
    lemma_lowest_empty_unique(b, x, y);
    let r = drop_token(b, color, x);
    assert(r == b.update(x, b[x].update(y, color)));
    assert(r[x][y] == color);
}

} // verus!
