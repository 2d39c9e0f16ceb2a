use vstd::prelude::*;
use crate::vec2::{lemma_row_major, Vec2};

verus! {

/// How a board is laid out: its extent in cells, and how many of its cells
/// stand for chunks of the file (the rest are padding).
#[derive(Clone, Copy)]
pub struct Options {
    pub size: Vec2,
    pub acknowledged_fields: usize,
}

/// The state of one chunk as the board shows it.
#[derive(Clone, Copy, Debug, PartialEq, Eq, Structural)]
pub enum Cell {
    /// The server has confirmed the chunk.
    Acknowledged,
    /// The chunk went out and no confirmation has come yet.
    Pending,
    /// The chunk has not gone out yet.
    NotSent,
    /// The cell stands for no chunk.
    Empty,
}

/// A colour given by its red, green and blue parts.
#[derive(Clone, Copy, Debug, PartialEq, Eq, Structural)]
pub struct Rgb {
    pub r: u8,
    pub g: u8,
    pub b: u8,
}

/// The colour in which a cell is drawn.
pub open spec fn spec_cell_color(cell: Cell) -> Rgb {
    match cell {
        Cell::Acknowledged => Rgb { r: 0, g: 255, b: 0 },
        Cell::NotSent => Rgb { r: 255, g: 0, b: 0 },
        Cell::Pending => Rgb { r: 255, g: 255, b: 0 },
        Cell::Empty => Rgb { r: 0, g: 0, b: 255 },
    }
}

/// Cells in different states are drawn in different colours.
pub proof fn lemma_states_have_distinct_colors(a: Cell, b: Cell)
    ensures
        a != b ==> spec_cell_color(a) != spec_cell_color(b),
{
}

impl Cell {
    /// The colour in which the cell is drawn: green once acknowledged, red
    /// while not sent, yellow while pending, blue for padding.
    pub fn color(&self) -> (c: Rgb)
        ensures
            c == spec_cell_color(*self),
            *self == Cell::Acknowledged ==> c == (Rgb { r: 0, g: 255, b: 0 }),
            *self == Cell::NotSent ==> c == (Rgb { r: 255, g: 0, b: 0 }),
            *self == Cell::Pending ==> c == (Rgb { r: 255, g: 255, b: 0 }),
            *self == Cell::Empty ==> c == (Rgb { r: 0, g: 0, b: 255 }),
    {
        match *self {
            Cell::Acknowledged => Rgb { r: 0, g: 255, b: 0 },
            Cell::NotSent => Rgb { r: 255, g: 0, b: 0 },
            Cell::Pending => Rgb { r: 255, g: 255, b: 0 },
            Cell::Empty => Rgb { r: 0, g: 0, b: 255 },
        }
    }
}

/// The cells that a board of these options starts with: the first
/// `acknowledged_fields` cells stand for chunks not sent yet, the others are padding.
pub open spec fn initial_cells(options: Options) -> Seq<Cell> {
    Seq::new(
        options.size.area() as nat,
        |i: int| if i < options.acknowledged_fields { Cell::NotSent } else { Cell::Empty },
    )
}

/// One cell as it is drawn: its position on the grid and its colour.
#[derive(Clone, Copy, Debug, PartialEq, Eq, Structural)]
pub struct DrawnCell {
    pub position: Vec2,
    pub color: Rgb,
}

/// The true state of every chunk, row after row.
#[derive(Clone)]
pub struct AcknowledgementBoard {
    pub size: Vec2,
    pub cells: Vec<Cell>,
}

impl AcknowledgementBoard {
    /// Lays out a fresh board: `size.x * size.y` cells, of which the first
    /// `acknowledged_fields` are not sent yet and the rest are padding.
    pub fn new(options: Options) -> (board: Self)
        requires
            options.size.area() <= usize::MAX,
            options.acknowledged_fields <= options.size.area(),
        ensures
            board.size == options.size,
            board.cells@ == initial_cells(options),
            board.cells@.len() == options.size.x * options.size.y,
            forall|i: int|
                0 <= i < options.size.x * options.size.y ==> #[trigger] board.cells@[i] == if i
                    < options.acknowledged_fields {
                    Cell::NotSent
                } else {
                    Cell::Empty
                },
    {
        let n_cells: usize = options.size.x * options.size.y;

        let mut board = AcknowledgementBoard { size: options.size, cells: vec![Cell::NotSent; n_cells] };

        let empty_cells: usize = n_cells - options.acknowledged_fields;

        let mut i: usize = 0;
        while i < n_cells
            invariant
                n_cells == options.size.area(),
                empty_cells == n_cells - options.acknowledged_fields,
                i <= n_cells,
                board.size == options.size,
                board.cells@.len() == n_cells,
                forall|j: int| 0 <= j < i ==> #[trigger] board.cells@[j] == initial_cells(options)[j],
                forall|j: int| i <= j < n_cells ==> #[trigger] board.cells@[j] == Cell::NotSent,
            decreases n_cells - i,
        {
            if i >= n_cells - empty_cells {
                board.cells.set(i, Cell::Empty);
            }
            i = i + 1;
        }
        assert(board.cells@ =~= initial_cells(options));
        board
    }
}

/// A fresh board has one cell per grid position; cell `i` stands for a chunk
/// not sent yet exactly when `i` is below the number of chunks, and is
/// padding otherwise.
pub proof fn lemma_initial_cells(options: Options)
    requires
        options.size.x * options.size.y >= 0,
    ensures
        initial_cells(options).len() == options.size.x * options.size.y,
        forall|i: int|
            0 <= i < options.size.x * options.size.y ==> (#[trigger] initial_cells(options)[i] == Cell::NotSent
                <==> i < options.acknowledged_fields),
        forall|i: int|
            0 <= i < options.size.x * options.size.y ==> (initial_cells(options)[i] == Cell::Empty
                <==> #[trigger] initial_cells(options)[i] != Cell::NotSent),
{
}

/// Drawing is row after row and one to one: the cell with index `i` is drawn
/// inside the grid, at a position from which `i` is found again, so no two
/// cells are drawn at the same place.
pub proof fn lemma_drawing_is_row_major(size: Vec2, i: int, j: int)
    requires
        0 <= i < size.x * size.y,
        0 <= j < size.x * size.y,
    ensures
        0 <= spec_cell_position(i, size.x as int).0 < size.x,
        0 <= spec_cell_position(i, size.x as int).1 < size.y,
        spec_cell_position(i, size.x as int).0 + spec_cell_position(i, size.x as int).1 * size.x == i,
        i != j ==> spec_cell_position(i, size.x as int) != spec_cell_position(j, size.x as int),
{
    lemma_row_major(i, size.x as int, size.y as int);
    lemma_row_major(j, size.x as int, size.y as int);
}

/// A board as the user sees it: the true board beside the cells on display.
pub struct AcknowledgementBoardView {
    // Actual board, unknown to the player.
    board: AcknowledgementBoard,
    // Visible board
    overlay: Vec<Cell>,
}

impl View for AcknowledgementBoardView {
    type V = Seq<Cell>;

    /// The cells on display, row after row.
    closed spec fn view(&self) -> Seq<Cell> {
        self.overlay@
    }
}

/// Where the cell with this index is drawn on a grid `columns` cells wide.
pub open spec fn spec_cell_position(index: int, columns: int) -> (int, int) {
    (index % columns, index / columns)
}

impl AcknowledgementBoardView {
    /// The display and the true board have one cell per grid position.
    pub closed spec fn well_formed(&self) -> bool {
        &&& self.overlay@.len() == self.board.cells@.len()
        &&& self.board.cells@.len() == self.board.size.area()
    }

    /// The extent of the board in cells.
    pub closed spec fn size(&self) -> Vec2 {
        self.board.size
    }

    /// The true state of the chunks, which the display may lag behind.
    pub closed spec fn hidden(&self) -> Seq<Cell> {
        self.board.cells@
    }

    /// Shows a fresh board: the display starts as a copy of the true board.
    pub fn new(options: Options) -> (v: Self)
        requires
            options.size.area() <= usize::MAX,
            options.acknowledged_fields <= options.size.area(),
        ensures
            v.well_formed(),
            v.size() == options.size,
            v.hidden() == initial_cells(options),
            v@ == initial_cells(options),
            v@.len() == options.size.x * options.size.y,
            forall|i: int|
                0 <= i < options.size.x * options.size.y ==> #[trigger] v@[i] == if i
                    < options.acknowledged_fields {
                    Cell::NotSent
                } else {
                    Cell::Empty
                },
    {
        let board = AcknowledgementBoard::new(options);
        let overlay = board.cells.clone();
        assert(overlay@ =~= board.cells@);
        AcknowledgementBoardView { board, overlay }
    }

    /// The extent of the board in cells.
    pub fn board_size(&self) -> (r: Vec2)
        ensures
            r == self.size(),
    {
        self.board.size
    }

    /// The number of cells on display.
    pub fn len(&self) -> (n: usize)
        ensures
            n == self@.len(),
    {
        self.overlay.len()
    }

    /// Shows the chunk `packet_id` as sent and waiting for its acknowledgement.
    pub fn mark_sent(&mut self, packet_id: usize)
        requires
            old(self).well_formed(),
            packet_id < old(self)@.len(),
        ensures
            final(self).well_formed(),
            final(self)@ == old(self)@.update(packet_id as int, Cell::Pending),
            final(self).size() == old(self).size(),
            final(self).hidden() == old(self).hidden(),
    {
        self.overlay.set(packet_id, Cell::Pending);
    }

    /// Shows the chunk `acknowledge_id` as acknowledged.
    pub fn acknowledge(&mut self, acknowledge_id: usize)
        requires
            old(self).well_formed(),
            acknowledge_id < old(self)@.len(),
        ensures
            final(self).well_formed(),
            final(self)@ == old(self)@.update(acknowledge_id as int, Cell::Acknowledged),
            final(self).size() == old(self).size(),
            final(self).hidden() == old(self).hidden(),
    {
        self.overlay.set(acknowledge_id, Cell::Acknowledged);
    }

    /// What drawing the board puts on screen: cell `i` of the display goes
    /// to column `i % size.x` and row `i / size.x`, in the colour of its state.
    pub fn cells_to_draw(&self) -> (drawn: Vec<DrawnCell>)
        requires
            self.well_formed(),
        ensures
            drawn@.len() == self@.len(),
            forall|i: int|
                0 <= i < drawn@.len() ==> {
                    &&& (#[trigger] drawn@[i]).position.x == spec_cell_position(i, self.size().x as int).0
                    &&& drawn@[i].position.y == spec_cell_position(i, self.size().x as int).1
                    &&& drawn@[i].position.x == i % (self.size().x as int)
                    &&& drawn@[i].position.y == i / (self.size().x as int)
                    &&& drawn@[i].position.lies_within(self.size())
                    &&& drawn@[i].position.x + drawn@[i].position.y * self.size().x == i
                    &&& drawn@[i].color == spec_cell_color(self@[i])
                },
    {
        let mut drawn: Vec<DrawnCell> = Vec::new();
        let n: usize = self.overlay.len();
        let columns: usize = self.board.size.x;
        if n > 0 {
            assert(columns > 0) by (nonlinear_arith)
                requires
                    n == columns * self.board.size.y,
                    n > 0,
            ;
        }
        let mut i: usize = 0;
        while i < n
            invariant
                n == self@.len(),
                n == self.size().x * self.size().y,
                columns == self.size().x,
                n > 0 ==> columns > 0,
                i <= n,
                drawn@.len() == i,
                forall|j: int|
                    0 <= j < i ==> {
                        &&& (#[trigger] drawn@[j]).position.x == spec_cell_position(j, columns as int).0
                        &&& drawn@[j].position.y == spec_cell_position(j, columns as int).1
                        &&& drawn@[j].position.x == j % (columns as int)
                        &&& drawn@[j].position.y == j / (columns as int)
                        &&& drawn@[j].position.lies_within(self.size())
                        &&& drawn@[j].position.x + drawn@[j].position.y * columns == j
                        &&& drawn@[j].color == spec_cell_color(self@[j])
                    },
            decreases n - i,
        {
            proof { lemma_row_major(i as int, columns as int, self.size().y as int); }
            let x: usize = i % columns;
            let y: usize = i / columns;
            let color = self.overlay[i].color();
            drawn.push(DrawnCell { position: Vec2 { x, y }, color });
            i = i + 1;
        }
        drawn
    }

    /// The room the board takes on screen: each cell is two columns wide.
    pub fn required_size(&self) -> (r: Vec2)
        requires
            2 * self.size().x <= usize::MAX,
        ensures
            r.x == 2 * self.size().x,
            r.y == self.size().y,
    {
        Vec2 { x: 2 * self.board.size.x, y: self.board.size.y }
    }
}

} // verus!
