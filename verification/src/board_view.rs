use vstd::prelude::*;
use crate::vec2::{lemma_row_major, Vec2};

verus! {

/// How a board is laid out: its extent in cells and how many chunks it
/// stands for.
#[derive(Clone, Copy)]
pub struct Options {
    pub size: Vec2,
    pub acknowledge_cells: usize,
}

/// The state of one chunk as this board shows it.
#[derive(Clone, Copy, Debug, PartialEq, Eq, Structural)]
pub enum Cell {
    Acknowledged,
    Pending,
    Empty,
}

/// A colour given by its red, green and blue parts.
#[derive(Clone, Copy, Debug, PartialEq, Eq, Structural)]
pub struct Rgb {
    pub r: u8,
    pub g: u8,
    pub b: u8,
}

/// The colour in which a cell is drawn.
pub open spec fn spec_cell_color(cell: Cell) -> Rgb {
    match cell {
        Cell::Acknowledged => Rgb { r: 0, g: 255, b: 0 },
        Cell::Pending => Rgb { r: 255, g: 0, b: 0 },
        Cell::Empty => Rgb { r: 0, g: 0, b: 255 },
    }
}

/// Cells in different states are drawn in different colours.
pub proof fn lemma_states_have_distinct_colors(a: Cell, b: Cell)
    ensures
        a != b ==> spec_cell_color(a) != spec_cell_color(b),
{
}

impl Cell {
    /// The colour in which the cell is drawn: green once acknowledged, red
    /// while pending, blue when empty.
    pub fn color(&self) -> (c: Rgb)
        ensures
            c == spec_cell_color(*self),
            *self == Cell::Acknowledged ==> c == (Rgb { r: 0, g: 255, b: 0 }),
            *self == Cell::Pending ==> c == (Rgb { r: 255, g: 0, b: 0 }),
            *self == Cell::Empty ==> c == (Rgb { r: 0, g: 0, b: 255 }),
    {
        match *self {
            Cell::Acknowledged => Rgb { r: 0, g: 255, b: 0 },
            Cell::Pending => Rgb { r: 255, g: 0, b: 0 },
            Cell::Empty => Rgb { r: 0, g: 0, b: 255 },
        }
    }

    /// The text that draws the cell: the same square for every state.
    pub fn glyph(&self) -> (t: &'static str)
        ensures
            t@ == "■"@,
    {
        match *self {
            Cell::Acknowledged => "■",
            Cell::Pending => "■",
            Cell::Empty => "■",
        }
    }
}

/// One cell as it is drawn: its position on the grid and its colour.
#[derive(Clone, Copy, Debug, PartialEq, Eq, Structural)]
pub struct DrawnCell {
    pub position: Vec2,
    pub color: Rgb,
}

/// The index of the cell at `pos` on a grid of extent `size`, row after row.
pub open spec fn spec_cell_id(size: Vec2, pos: Vec2) -> Option<int> {
    if pos.lies_within(size) {
        Some(pos.x + pos.y * size.x)
    } else {
        None
    }
}

/// Where the cell with this index is drawn on a grid `columns` cells wide.
pub open spec fn spec_cell_position(index: int, columns: int) -> (int, int) {
    (index % columns, index / columns)
}

/// The true state of every chunk, row after row.
pub struct AcknowledgementBoard {
    pub size: Vec2,
    pub cells: Vec<Cell>,
}

impl AcknowledgementBoard {
    /// Lays out a fresh board of `size.x * size.y` pending cells.
    pub fn new(options: Options) -> (board: Self)
        requires
            options.size.area() <= usize::MAX,
            options.acknowledge_cells <= options.size.area(),
        ensures
            board.size == options.size,
            board.cells@ == Seq::new(options.size.area() as nat, |i: int| Cell::Pending),
    {
        let n_cells: usize = options.size.x * options.size.y;

        let board = AcknowledgementBoard { size: options.size, cells: vec![Cell::Pending; n_cells] };

        let _empty_cells: usize = n_cells - options.acknowledge_cells;

        assert(board.cells@ =~= Seq::new(options.size.area() as nat, |i: int| Cell::Pending));
        board
    }

    /// The cell at `pos`, to change in place, or `None` when `pos` lies off the board.
    fn get_mut(&mut self, pos: Vec2) -> (r: Option<&mut Cell>)
        requires
            pos.lies_within(old(self).size) ==> pos.x + pos.y * old(self).size.x <= usize::MAX,
            pos.lies_within(old(self).size) ==> pos.x + pos.y * old(self).size.x < old(self).cells@.len(),
        ensures
            spec_cell_id(old(self).size, pos) is None ==> r is None && *final(self) == *old(self),
            spec_cell_id(old(self).size, pos) is Some ==> r is Some && {
                let i = spec_cell_id(old(self).size, pos)->0;
                &&& *r->0 == old(self).cells@[i]
                &&& final(self).size == old(self).size
                &&& final(self).cells@ == old(self).cells@.update(i, *final(r->0))
            },
    {
        match self.cell_id(pos) {
            Some(i) => Some(&mut self.cells[i]),
            None => None,
        }
    }

    /// The index of the cell at `pos`, counting row after row, or `None`
    /// when `pos` lies off the board.
    pub fn cell_id(&self, pos: Vec2) -> (r: Option<usize>)
        requires
            pos.lies_within(self.size) ==> pos.x + pos.y * self.size.x <= usize::MAX,
        ensures
            r matches Some(i) ==> spec_cell_id(self.size, pos) == Some(i as int),
            r is None ==> spec_cell_id(self.size, pos) is None,
            (pos.x < self.size.x && pos.y < self.size.y) ==> r == Some((pos.x + pos.y * self.size.x) as usize),
            !(pos.x < self.size.x && pos.y < self.size.y) ==> r is None,
    {
        if pos.is_inside(&self.size) {
            Some(pos.x + pos.y * self.size.x)
        } else {
            None
        }
    }
}

/// A position inside the grid has an index below the number of cells.
pub proof fn lemma_cell_id_in_range(size: Vec2, pos: Vec2)
    ensures
        spec_cell_id(size, pos) matches Some(i) ==> 0 <= i < size.area(),
{
    if pos.lies_within(size) {
        assert(pos.x + pos.y * size.x < size.x * size.y) by (nonlinear_arith)
            requires
                pos.x < size.x,
                pos.y < size.y,
        ;
    }
}

/// Drawing and indexing agree: the cell at a position inside the grid is drawn
/// at that very position, and the cell drawn from index `i` has index `i`.
pub proof fn lemma_cell_id_position_roundtrip(size: Vec2, pos: Vec2, index: int)
    ensures
        pos.lies_within(size) ==> spec_cell_position(spec_cell_id(size, pos)->0, size.x as int) == (
            pos.x as int,
            pos.y as int,
        ),
        0 <= index < size.area() ==> {
            let p = spec_cell_position(index, size.x as int);
            &&& 0 <= p.0 < size.x
            &&& 0 <= p.1 < size.y
            &&& spec_cell_id(size, Vec2 { x: p.0 as usize, y: p.1 as usize }) == Some(index)
        },
{
    if pos.lies_within(size) {
        let i: int = pos.x + pos.y * size.x;
        assert(i % (size.x as int) == pos.x && i / (size.x as int) == pos.y) by (nonlinear_arith)
            requires
                i == pos.x + pos.y * size.x,
                0 <= pos.x < size.x,
                0 <= pos.y,
        {
            vstd::arithmetic::div_mod::lemma_fundamental_div_mod_converse(
                i, size.x as int, pos.y as int, pos.x as int);
        }
    }
    if 0 <= index < size.area() {
        let c: int = size.x as int;
        assert(c > 0 && 0 <= index % c < c && 0 <= index / c < size.y
            && index / c * c + index % c == index) by (nonlinear_arith)
            requires
                0 <= index < size.x * size.y,
                c == size.x,
                size.y >= 0,
        {
            assert(c > 0);
            vstd::arithmetic::div_mod::lemma_fundamental_div_mod(index, c);
            vstd::arithmetic::div_mod::lemma_div_pos_is_pos(index, c);
            vstd::arithmetic::div_mod::lemma_div_by_multiple_is_strongly_ordered(index, c * size.y, size.y as int, c);
        }
        let p = spec_cell_position(index, c);
        let q = Vec2 { x: p.0 as usize, y: p.1 as usize };
        assert(q.x == index % c && q.y == index / c);
    }
}

/// A board as the user sees it: the true board, the cells on display, and the
/// cell that has the focus, if any.
pub struct AcknowledgementBoardView {
    // Actual board, unknown to the player.
    board: AcknowledgementBoard,
    // Visible board
    overlay: Vec<Cell>,
    focused: Option<Vec2>,
}

impl View for AcknowledgementBoardView {
    type V = Seq<Cell>;

    /// The cells on display, row after row.
    closed spec fn view(&self) -> Seq<Cell> {
        self.overlay@
    }
}

impl AcknowledgementBoardView {
    /// The display and the true board have one cell per grid position.
    pub closed spec fn well_formed(&self) -> bool {
        &&& self.overlay@.len() == self.board.cells@.len()
        &&& self.board.cells@.len() == self.board.size.area()
    }

    /// The extent of the board in cells.
    pub closed spec fn size(&self) -> Vec2 {
        self.board.size
    }

    /// The true state of the chunks, which the display may lag behind.
    pub closed spec fn hidden(&self) -> Seq<Cell> {
        self.board.cells@
    }

    /// The cell that has the focus.
    pub closed spec fn focus(&self) -> Option<Vec2> {
        self.focused
    }

    /// Shows a fresh board, every cell pending and none in focus.
    pub fn new(options: Options) -> (v: Self)
        requires
            options.size.area() <= usize::MAX,
            options.acknowledge_cells <= options.size.area(),
        ensures
            v.well_formed(),
            v.size() == options.size,
            v.hidden() == Seq::new(options.size.area() as nat, |i: int| Cell::Pending),
            v@ == Seq::new(options.size.area() as nat, |i: int| Cell::Pending),
            v.focus() is None,
    {
        let overlay = vec![Cell::Pending; options.size.x * options.size.y];
        let board = AcknowledgementBoard::new(options);
        assert(overlay@ =~= Seq::new(options.size.area() as nat, |i: int| Cell::Pending));
        AcknowledgementBoardView { board, overlay, focused: None }
    }

    /// The number of cells on display.
    pub fn len(&self) -> (n: usize)
        ensures
            n == self@.len(),
    {
        self.overlay.len()
    }

    /// Shows the chunk `acknowledge_id` as acknowledged.
    pub fn acknowledge(&mut self, acknowledge_id: usize)
        requires
            old(self).well_formed(),
            acknowledge_id < old(self)@.len(),
        ensures
            final(self).well_formed(),
            final(self)@ == old(self)@.update(acknowledge_id as int, Cell::Acknowledged),
            final(self).size() == old(self).size(),
            final(self).hidden() == old(self).hidden(),
            final(self).focus() == old(self).focus(),
    {
        self.overlay.set(acknowledge_id, Cell::Acknowledged);
    }

    /// What drawing the board puts on screen: cell `i` of the display goes
    /// to column `i % size.x` and row `i / size.x`, in the colour of its state.
    pub fn cells_to_draw(&self) -> (drawn: Vec<DrawnCell>)
        requires
            self.well_formed(),
        ensures
            drawn@.len() == self@.len(),
            forall|i: int|
                0 <= i < drawn@.len() ==> {
                    &&& (#[trigger] drawn@[i]).position.x == spec_cell_position(i, self.size().x as int).0
                    &&& drawn@[i].position.y == spec_cell_position(i, self.size().x as int).1
                    &&& drawn@[i].position.x == i % (self.size().x as int)
                    &&& drawn@[i].position.y == i / (self.size().x as int)
                    &&& drawn@[i].position.lies_within(self.size())
                    &&& drawn@[i].position.x + drawn@[i].position.y * self.size().x == i
                    &&& drawn@[i].color == spec_cell_color(self@[i])
                },
    {
        let mut drawn: Vec<DrawnCell> = Vec::new();
        let n: usize = self.overlay.len();
        let columns: usize = self.board.size.x;
        if n > 0 {
            assert(columns > 0) by (nonlinear_arith)
                requires
                    n == columns * self.board.size.y,
                    n > 0,
            ;
        }
        let mut i: usize = 0;
        while i < n
            invariant
                n == self@.len(),
                n == self.size().x * self.size().y,
                columns == self.size().x,
                n > 0 ==> columns > 0,
                i <= n,
                drawn@.len() == i,
                forall|j: int|
                    0 <= j < i ==> {
                        &&& (#[trigger] drawn@[j]).position.x == spec_cell_position(j, columns as int).0
                        &&& drawn@[j].position.y == spec_cell_position(j, columns as int).1
                        &&& drawn@[j].position.x == j % (columns as int)
                        &&& drawn@[j].position.y == j / (columns as int)
                        &&& drawn@[j].position.lies_within(self.size())
                        &&& drawn@[j].position.x + drawn@[j].position.y * columns == j
                        &&& drawn@[j].color == spec_cell_color(self@[j])
                    },
            decreases n - i,
        {
            proof { lemma_row_major(i as int, columns as int, self.size().y as int); }
            let x: usize = i % columns;
            let y: usize = i / columns;
            let color = self.overlay[i].color();
            drawn.push(DrawnCell { position: Vec2 { x, y }, color });
            i = i + 1;
        }
        drawn
    }

    /// The room the board takes on screen: each cell is two columns wide.
    pub fn required_size(&self) -> (r: Vec2)
        requires
            2 * self.size().x <= usize::MAX,
        ensures
            r.x == 2 * self.size().x,
            r.y == self.size().y,
    {
        Vec2 { x: 2 * self.board.size.x, y: self.board.size.y }
    }
}

} // verus!
