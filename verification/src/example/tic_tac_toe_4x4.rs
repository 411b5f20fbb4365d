//! Four-in-a-row on a 4x4 grid.
//!
//! A position is modelled by [`Position`], the view of [`TTT`]: the two
//! marks and the sixteen cells. Every contract below is stated over it.

use crate::traits::game::{Board, Result};
use vstd::prelude::*;

verus! {

/// The ten lines that win the game: four rows, four columns, two diagonals.
pub const WIN_CONDITIONS: [[usize; 4]; 10] = [
    [0, 1, 2, 3],
    [4, 5, 6, 7],
    [8, 9, 10, 11],
    [12, 13, 14, 15],
    [0, 4, 8, 12],
    [1, 5, 9, 13],
    [2, 6, 10, 14],
    [3, 7, 11, 15],
    [0, 5, 10, 15],
    [3, 6, 9, 12],
];

#[derive(Debug, Clone, Copy)]
pub struct TTT {
    pub maximizer: char,
    pub minimizer: char,
    pub board: [Option<char>; 16],
}

#[derive(Debug, Clone, Copy)]
pub struct Move {
    pub player: char,
    pub to_position: usize,
}

#[derive(Debug)]
pub struct TttResult {
    over: bool,
    score: i64,
}

/// The digit that numbers one of the first ten cells.
pub open spec fn digit(cell: int) -> char {
    ('0' as u8 + cell) as char
}

/// The digit that numbers `cell`.
pub fn digit_of(cell: usize) -> (glyph: char)
    requires
        cell < 10,
    ensures
        glyph == digit(cell as int),
{
    (48u8 + cell as u8) as char
}

/// `String::push` appends the character to the end of the string.
pub assume_specification[ String::push ](text: &mut String, ch: char)
    ensures
        final(text)@ == old(text)@.push(ch),
;

/// What a [`TTT`] stands for: the marks of the two sides and the cells,
/// row by row.
pub struct Position {
    pub maximizer: char,
    pub minimizer: char,
    pub cells: Seq<Option<char>>,
}

impl Position {
    /// The mark that the given side places.
    pub open spec fn mark(self, is_maximizer: bool) -> char {
        if is_maximizer {
            self.maximizer
        } else {
            self.minimizer
        }
    }

    /// A move may be played where it names an empty cell of the grid.
    pub open spec fn accepts(self, m: Move) -> bool {
        m.to_position < 16 && self.cells[m.to_position as int] is None
    }

    /// The position after `m`: its cell holds the mover's mark.
    pub open spec fn play(self, m: Move) -> Position {
        Position { cells: self.cells.update(m.to_position as int, Some(m.player)), ..self }
    }

    /// The position before `m` was played: its cell is empty again.
    pub open spec fn unplay(self, m: Move) -> Position {
        Position { cells: self.cells.update(m.to_position as int, None), ..self }
    }

    /// The empty cells among the first `n`, in rising order.
    pub open spec fn empty_cells(self, n: nat) -> Seq<int> {
        Seq::new(n, |i: int| i).filter(|i: int| self.cells[i] is None)
    }

    /// One move per empty cell among the first `n`, in rising order of the
    /// cells, each placing the mark of the given side.
    pub open spec fn moves_within(self, is_maximizer: bool, n: nat) -> Seq<Move> {
        self.empty_cells(n).map_values(
            |i: int| Move { player: self.mark(is_maximizer), to_position: i as usize },
        )
    }

    /// The moves of the given side: one per empty cell.
    pub open spec fn moves(self, is_maximizer: bool) -> Seq<Move> {
        self.moves_within(is_maximizer, 16)
    }

    /// Cell `k` of winning line `line`.
    pub open spec fn line_cell(line: int, k: int) -> int {
        WIN_CONDITIONS[line][k] as int
    }

    /// The mark that fills all four cells of `line`, if one does.
    pub open spec fn line_owner(self, line: int) -> Option<char> {
        let first = self.cells[Self::line_cell(line, 0)];
        if first is Some && self.cells[Self::line_cell(line, 1)] == first
            && self.cells[Self::line_cell(line, 2)] == first
            && self.cells[Self::line_cell(line, 3)] == first {
            first
        } else {
            None
        }
    }

    /// The owner of the first owned line among lines `from..to`.
    pub open spec fn first_owner(self, from: int, to: int) -> Option<char>
        decreases to - from,
    {
        if from >= to {
            None
        } else if self.line_owner(from) is Some {
            self.line_owner(from)
        } else {
            self.first_owner(from + 1, to)
        }
    }

    /// Cells `1..k` of `line` hold `mark`.
    pub open spec fn line_agrees(self, line: int, k: int, mark: char) -> bool {
        forall|j: int| 1 <= j < k ==> self.cells[#[trigger] Self::line_cell(line, j)] == Some(mark)
    }

    /// None of the first `k` cells of `line` is empty.
    pub open spec fn line_filled(self, line: int, k: int) -> bool {
        forall|j: int| 0 <= j < k ==> self.cells[#[trigger] Self::line_cell(line, j)] is Some
    }

    /// None of the lines before `n` has an empty cell.
    pub open spec fn lines_filled(self, n: int) -> bool {
        forall|line: int| 0 <= line < n ==> #[trigger] self.line_filled(line, 4)
    }

    /// No cell is empty.
    pub open spec fn full(self) -> bool {
        forall|i: int| 0 <= i < 16 ==> (#[trigger] self.cells[i]) is Some
    }

    /// The mark that has won: the owner of the first owned line.
    pub open spec fn winner(self) -> Option<char> {
        self.first_owner(0, 10)
    }

    /// The game is over once a mark has won or the grid is full.
    pub open spec fn over(self) -> bool {
        self.winner() is Some || self.full()
    }

    /// 100 where the maximizer's mark has won, -100 where another mark has,
    /// 0 otherwise.
    pub open spec fn score(self) -> int {
        match self.winner() {
            Some(mark) => if mark == self.maximizer {
                100
            } else {
                -100
            },
            None => 0,
        }
    }
}

impl Position {
    /// What a cell shows: its mark, or, while it is empty, the digit that
    /// numbers it.
    pub open spec fn glyph(self, cell: int) -> char {
        match self.cells[cell] {
            Some(mark) => mark,
            None => digit(cell),
        }
    }

    /// A row as text: what each of its four cells shows, each followed by
    /// a space.
    pub open spec fn row_text(self, row: int) -> Seq<char> {
        seq![
            self.glyph(4 * row),
            ' ',
            self.glyph(4 * row + 1),
            ' ',
            self.glyph(4 * row + 2),
            ' ',
            self.glyph(4 * row + 3),
            ' ',
        ]
    }

    /// The grid as text: a line break, then the four rows with a line
    /// break between them.
    pub open spec fn text(self) -> Seq<char> {
        seq!['\n'] + self.row_text(0) + seq!['\n'] + self.row_text(1) + seq!['\n']
            + self.row_text(2) + seq!['\n'] + self.row_text(3)
    }

    /// The text up to the start of `row`.
    pub open spec fn text_before(self, row: int) -> Seq<char>
        decreases row,
    {
        if row <= 0 {
            seq!['\n']
        } else if row >= 4 {
            self.text_before(3) + self.row_text(3)
        } else {
            self.text_before(row - 1) + self.row_text(row - 1) + seq!['\n']
        }
    }

    /// Whether every empty cell has a digit to show: the cells from the
    /// eleventh on have none.
    pub open spec fn showable(self) -> bool {
        forall|cell: int| 10 <= cell < 16 ==> (#[trigger] self.cells[cell]) is Some
    }

    /// The rows hold every cell, so the grid is full exactly when no line
    /// has an empty cell.
    proof fn lemma_rows_cover(self)
        requires
            self.cells.len() == 16,
        ensures
            self.lines_filled(10) <==> self.full(),
    {
        if self.full() {
            assert forall|l: int| 0 <= l < 10 implies #[trigger] self.line_filled(l, 4) by {
                assert forall|j: int| 0 <= j < 4 implies self.cells[#[trigger] Self::line_cell(
                    l,
                    j,
                )] is Some by {
                    let c = Self::line_cell(l, j);
                    assert(0 <= c < 16);
                    assert(self.cells[c] is Some);
                }
            }
        }
        if self.lines_filled(10) {
            assert forall|c: int| 0 <= c < 16 implies (#[trigger] self.cells[c]) is Some by {
                assert(self.line_filled(c / 4, 4));
                assert(c == Self::line_cell(c / 4, c % 4));
            }
        }
    }
}

impl View for TTT {
    type V = Position;

    open spec fn view(&self) -> Position {
        Position { maximizer: self.maximizer, minimizer: self.minimizer, cells: self.board@ }
    }
}

impl View for TttResult {
    type V = (bool, int);

    closed spec fn view(&self) -> (bool, int) {
        (self.over, self.score as int)
    }
}

impl Result for TttResult {
    open spec fn over(&self) -> bool {
        self@.0
    }

    open spec fn value(&self) -> int {
        self@.1
    }

    fn is_over(&self) -> (over: bool) {
        self.over
    }

    fn score(&self) -> (score: i64) {
        self.score
    }
}

impl TTT {
    /// An empty grid for the two given marks.
    pub fn new(maximizer: char, minimizer: char) -> (game: TTT)
        ensures
            game@.maximizer == maximizer,
            game@.minimizer == minimizer,
            game@.cells == Seq::new(16, |i: int| None::<char>),
    {
        let game = TTT { maximizer, minimizer, board: [None;16] };
        assert(game@.cells =~= Seq::new(16, |i: int| None::<char>));
        game
    }

    /// The cells, row by row.
    pub fn board(&self) -> (board: [Option<char>; 16])
        ensures
            board@ == self@.cells,
    {
        self.board
    }

    /// The mark of the maximizing side.
    pub fn maximizer(&self) -> (mark: char)
        ensures
            mark == self@.maximizer,
    {
        self.maximizer
    }

    /// The mark of the minimizing side.
    pub fn minimizer(&self) -> (mark: char)
        ensures
            mark == self@.minimizer,
    {
        self.minimizer
    }

    /// The grid as text: a line break, then the rows, one to a line, each
    /// cell followed by a space. An empty cell shows its number, so the
    /// cells from the eleventh on must be taken.
    pub fn to_text(&self) -> (text: String)
        requires
            self@.showable(),
        ensures
            text@ == self@.text(),
    {
        let mut text = String::new();
        text.push('\n');
        let mut i: usize = 0;
        while i < 4
            invariant
                i <= 4,
                self@.showable(),
                text@ == self@.text_before(i as int),
            decreases 4 - i,
        {
            let mut j: usize = i * 4;
            while j < i * 4 + 4
                invariant
                    i < 4,
                    i * 4 <= j <= i * 4 + 4,
                    self@.showable(),
                    text@ == self@.text_before(i as int) + self@.row_text(i as int).take(
                        2 * (j - i * 4),
                    ),
                decreases i * 4 + 4 - j,
            {
                let c = if let Some(p) = self.board[j] {
                    p
                } else {
                    digit_of(j)
                };
                text.push(c);
                text.push(' ');
                assert(self@.row_text(i as int).take(2 * (j + 1 - i * 4)) =~= self@.row_text(
                    i as int,
                ).take(2 * (j - i * 4)).push(c).push(' '));
                j += 1;
            }
            assert(self@.row_text(i as int).take(8) =~= self@.row_text(i as int));
            if i != 3 {
                text.push('\n');
            }
            i += 1;
        }
        proof {
            reveal_with_fuel(Position::text_before, 5);
            assert(self@.text_before(4) =~= self@.text());
        }
        text
    }

    /// A grid has sixteen cells.
    pub proof fn lemma_grid_size(self)
        ensures
            self@.cells.len() == 16,
    {
    }

    /// The view holds what the game holds, whoever wrote it: the two marks
    /// and the cells of `board`.
    pub proof fn lemma_view_is_board(self)
        ensures
            self@.maximizer == self.maximizer,
            self@.minimizer == self.minimizer,
            self@.cells == self.board@,
    {
    }

    /// Taking a move back undoes playing it: after a move that is played
    /// where it may be played and then taken back, the position is the
    /// one before.
    pub proof fn lemma_unmake_restores(self, m: Move)
        requires
            self@.accepts(m),
        ensures
            self.play(m)@.unplay(m) == self@,
    {
        self.lemma_play_view(m);
        assert(self@.play(m).unplay(m).cells =~= self@.cells);
    }

    /// Playing a move on the game plays it on its view.
    pub proof fn lemma_play_view(self, m: Move)
        requires
            self@.accepts(m),
        ensures
            self.play(m)@ == self@.play(m),
    {
    }
}

impl Board for TTT {
    type Move = Move;

    type Result = TttResult;

    open spec fn finished(self) -> bool {
        self@.over()
    }

    open spec fn worth(self) -> int {
        self@.score()
    }

    open spec fn moves(self, is_maximizer: bool) -> Seq<Move> {
        self@.moves(is_maximizer)
    }

    open spec fn accepts(self, m: Move) -> bool {
        self@.accepts(m)
    }

    closed spec fn play(self, m: Move) -> TTT {
        TTT {
            board: vstd::array::spec_array_update(
                self.board,
                m.to_position as int,
                Some(m.player),
            ),
            ..self
        }
    }

    proof fn lemma_worth_in_range(self) {
    }

    proof fn lemma_moves_accepted(self, is_maximizer: bool, i: int) {
        let all = Seq::new(16, |j: int| j);
        let empty = |j: int| self@.cells[j] is None;
        let cell = all.filter(empty)[i];
        all.lemma_filter_pred(empty, i);
        assert(all.filter(empty).contains(cell));
        all.lemma_filter_contains_rev(empty, cell);
    }

    proof fn lemma_unfinished_has_moves(self, is_maximizer: bool) {
        let all = Seq::new(16, |j: int| j);
        let empty = |j: int| self@.cells[j] is None;
        let cell = choose|cell: int| 0 <= cell < 16 && self@.cells[cell] is None;
        all.lemma_filter_contains(empty, cell);
    }

    fn make_move(&mut self, valid_move: &Move)
        ensures
            final(self)@ == old(self)@.play(*valid_move),
    {
        self.board[valid_move.to_position] = Some(valid_move.player);
        proof {
            let target = old(self).play(*valid_move);
            old(self).lemma_play_view(*valid_move);
            assert(self.board@ =~= target.board@);
            assert(self.board =~= target.board);
        }
    }

    fn unmake_move(&mut self, made_move: &Move)
        ensures
            final(self)@ == old(self)@.unplay(*made_move),
    {
        self.board[made_move.to_position] = None;
        proof {
            assert forall|before: TTT|
                before.accepts(*made_move) && #[trigger] before.play(*made_move) == *old(
                    self,
                ) implies *self == before by {
                assert(self.board@ =~= before.board@);
                assert(self.board =~= before.board);
            }
        }
    }

    fn get_valid_moves(&self, is_maximizer: bool) -> (moves: Vec<Move>)
    {
        let mut moves: Vec<Move> = Vec::new();
        let player = if is_maximizer {
            self.maximizer()
        } else {
            self.minimizer()
        };
        let mut i: usize = 0;
        proof {
            reveal(Seq::filter);
            assert(self@.moves_within(is_maximizer, 0) =~= Seq::<Move>::empty());
        }
        while i < 16
            invariant
                i <= 16,
                player == self@.mark(is_maximizer),
                moves@ == self@.moves_within(is_maximizer, i as nat),
            decreases 16 - i,
        {
            proof {
                let before = Seq::new(i as nat, |j: int| j);
                let empty = |j: int| self@.cells[j] is None;
                assert(Seq::new((i + 1) as nat, |j: int| j) =~= before.push(i as int));
                before.lemma_filter_push(i as int, empty);
            }
            if self.board[i].is_none() {
                moves.push(Move { player, to_position: i });
                assert(moves@ =~= self@.moves_within(is_maximizer, (i + 1) as nat));
            }
            i += 1;
        }
        moves
    }

    fn evaluate(&self) -> (result: TttResult)
        ensures
            result@ == (self@.over(), self@.score()),
    {
        let mut full = true;
        let mut i: usize = 0;
        while i < 10
            invariant
                i <= 10,
                self@.first_owner(0, 10) == self@.first_owner(i as int, 10),
                full <==> self@.lines_filled(i as int),
            decreases 10 - i,
        {
            let first = WIN_CONDITIONS[i][0];
            assert(first as int == Position::line_cell(i as int, 0));
            let winner: Option<char> = self.board[first];
            let mut win = true;
            let ghost full_before = full;
            if let Some(winner) = winner {
                let mut k: usize = 1;
                while k < 4
                    invariant
                        1 <= k <= 4,
                        i < 10,
                        self@.cells[Position::line_cell(i as int, 0)] == Some(winner),
                        win <==> self@.line_agrees(i as int, k as int, winner),
                        full <==> full_before && self@.line_filled(i as int, k as int),
                    decreases 4 - k,
                {
                    let cell = WIN_CONDITIONS[i][k];
                    assert(cell as int == Position::line_cell(i as int, k as int));
                    if let Some(other_player) = self.board[cell] {
                        if winner != other_player {
                            win = false;
                        }
                    } else {
                        win = false;
                        full = false;
                    }
                    k += 1;
                }
                if win {
                    proof {
                        assert(self@.line_owner(i as int) == Some(winner));
                    }
                    return TttResult {
                        over: true,
                        score: if winner == self.maximizer() {
                            100
                        } else {
                            -100
                        },
                    };
                }
            } else {
                full = false;
            }
            proof {
                assert(self@.line_owner(i as int) is None);
                assert(full <==> full_before && self@.line_filled(i as int, 4));
                assert(self@.lines_filled(i + 1) ==> self@.line_filled(i as int, 4));
                assert(full <==> self@.lines_filled(i + 1));
            }
            i += 1;
        }
        proof {
            self.lemma_grid_size();
            self@.lemma_rows_cover();
        }
        TttResult { over: full, score: 0 }
    }
}

} // verus!
