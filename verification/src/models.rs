//! The data model of a page of the scratch-card game and the messages that
//! the HTTP layer exchanges with the browser.

use vstd::prelude::*;

verus! {

/// How many cells one page holds at most (the front end draws as many).
pub const MAX_PAGE_CELLS: usize = 5;

/// One cell of a page.
///
/// `amount` is what the cell wins (0 when it wins nothing); `label` is the
/// text shown once it is scratched; `revealed` tells whether it has been
/// scratched already.
#[derive(Debug, Clone)]
pub struct Cell {
    pub id: u8,
    pub amount: u32,
    pub label: String,
    pub revealed: bool,
}

/// One page of cells, kept on the server only.
///
/// `created_at` is when the page was dealt: the nanoseconds elapsed on the
/// monotonic clock since the store's clock origin. The store drops the
/// oldest pages first when it is full.
#[derive(Debug, Clone)]
pub struct Game {
    pub id: String,
    pub cells: Vec<Cell>,
    pub finished: bool,
    pub created_at: u64,
}

/// What can go wrong when a page is played.
#[derive(Debug, Clone, Copy, PartialEq, Eq, Structural)]
pub enum GameError {
    CardNotFound,
    CellOutOfRange,
    AlreadyRevealed,
    AlreadyFinished,
}

/// The hint for one cell sent when a page is dealt: its number only.
#[derive(Debug, Clone, Copy, PartialEq, Eq, Structural)]
pub struct CellHint {
    pub id: u8,
}

/// Request for a new page; `count` is how many cells the page should have
/// (a full page when absent).
#[derive(Debug, Clone, Copy, PartialEq, Eq, Structural)]
pub struct NewCardRequest {
    pub count: Option<u32>,
}

/// Answer to a new page: its id and the numbers of its cells, no amounts.
#[derive(Debug, Clone)]
pub struct NewCardResponse {
    pub card_id: String,
    pub cells: Vec<CellHint>,
}

/// Request to scratch one cell of one page.
#[derive(Debug, Clone)]
pub struct RevealRequest {
    pub card_id: String,
    pub cell_id: u8,
}

/// Answer to a scratched cell: its amount, its text and whether it wins.
#[derive(Debug, Clone)]
pub struct RevealResponse {
    pub cell_id: u8,
    pub amount: u32,
    pub label: String,
    pub win: bool,
}

/// Request to settle one page.
#[derive(Debug, Clone)]
pub struct FinishRequest {
    pub card_id: String,
}

/// Answer to a settled page: whether it won, the total won and a sentence
/// for the player.
#[derive(Debug, Clone)]
pub struct FinishResponse {
    pub win: bool,
    pub reward: u32,
    pub message: String,
}

/// The mathematical value of a cell.
pub struct CellView {
    pub id: u8,
    pub amount: u32,
    pub label: Seq<char>,
    pub revealed: bool,
}

/// The mathematical value of a page.
pub struct GameView {
    pub id: Seq<char>,
    pub cells: Seq<CellView>,
    pub finished: bool,
    pub created_at: u64,
}

/// The mathematical value of the answer to a scratched cell.
pub struct RevealView {
    pub cell_id: u8,
    pub amount: u32,
    pub label: Seq<char>,
    pub win: bool,
}

/// The mathematical value of the answer to a settled page.
pub struct FinishView {
    pub win: bool,
    pub reward: u32,
    pub message: Seq<char>,
}

impl View for Cell {
    type V = CellView;

    open spec fn view(&self) -> CellView {
        CellView { id: self.id, amount: self.amount, label: self.label@, revealed: self.revealed }
    }
}

/// The views of a sequence of cells.
pub open spec fn cells_view(cells: Seq<Cell>) -> Seq<CellView> {
    cells.map_values(|c: Cell| c@)
}

impl View for Game {
    type V = GameView;

    open spec fn view(&self) -> GameView {
        GameView {
            id: self.id@,
            cells: cells_view(self.cells@),
            finished: self.finished,
            created_at: self.created_at,
        }
    }
}

impl View for RevealResponse {
    type V = RevealView;

    open spec fn view(&self) -> RevealView {
        RevealView { cell_id: self.cell_id, amount: self.amount, label: self.label@, win: self.win }
    }
}

impl View for FinishResponse {
    type V = FinishView;

    open spec fn view(&self) -> FinishView {
        FinishView { win: self.win, reward: self.reward, message: self.message@ }
    }
}

} // verus!
