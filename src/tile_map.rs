use vstd::prelude::*;
use vstd::string::StringExecFns;

use crate::coordinates::{lemma_coordinates_finite, lemma_neighbors, neighbor_offset, Coordinates, NEIGHBOR_COUNT};
use crate::tile::{decimal, push_decimal, Tile};

verus! {

/// The grid of a game: which cells hold a mine, and how many mines lie around
/// each of the others. Rows are indexed by `y`, columns by `x`.
#[derive(Debug, Clone)]
pub struct TileMap {
    pub bomb_count: u16,
    pub height: u16,
    pub width: u16,
    pub map: Vec<Vec<Tile>>,
}

impl View for TileMap {
    type V = Seq<Seq<Tile>>;

    open spec fn view(&self) -> Seq<Seq<Tile>> {
        self.map@.map_values(|row: Vec<Tile>| row@)
    }
}

/// How many of the coordinates in `s` hold a mine in `m` (counted with repetition).
pub open spec fn mines_among(m: TileMap, s: Seq<Coordinates>) -> nat
    decreases s.len(),
{
    if s.len() == 0 {
        0
    } else {
        mines_among(m, s.drop_last()) + if m.is_mine(s.last()) { 1nat } else { 0nat }
    }
}

impl TileMap {
    pub open spec fn in_grid(&self, c: Coordinates) -> bool {
        c.x < self.width && c.y < self.height
    }

    /// The grid has `height` rows of `width` cells.
    pub open spec fn shaped(&self) -> bool {
        &&& self@.len() == self.height
        &&& forall|y: int| 0 <= y < self.height ==> #[trigger] self@[y].len() == self.width
    }

    pub open spec fn tile(&self, c: Coordinates) -> Tile {
        self@[c.y as int][c.x as int]
    }

    pub open spec fn is_mine(&self, c: Coordinates) -> bool {
        self.in_grid(c) && self.tile(c) is Bomb
    }

    pub open spec fn is_empty_cell(&self, c: Coordinates) -> bool {
        self.in_grid(c) && self.tile(c) is Empty
    }

    /// The cells that hold a mine.
    pub open spec fn mines(&self) -> Set<Coordinates> {
        Set::new(|c: Coordinates| self.is_mine(c))
    }

    /// How many of the neighbours of `c` hold a mine.
    pub open spec fn mine_neighbors(&self, c: Coordinates) -> nat {
        mines_among(*self, c.neighbors())
    }

    /// What a cell without a mine holds, given the mines around it.
    pub open spec fn expected_tile(&self, c: Coordinates) -> Tile {
        if self.mine_neighbors(c) == 0 {
            Tile::Empty
        } else {
            Tile::BombNeighbor(self.mine_neighbors(c) as u8)
        }
    }

    /// Every cell without a mine holds the number of mines around it.
    pub open spec fn counts_consistent(&self) -> bool {
        forall|c: Coordinates|
            #![trigger self.tile(c)]
            self.in_grid(c) && !self.is_mine(c) ==> self.tile(c) == self.expected_tile(c)
    }

    /// A map as generation leaves it: `bomb_count` mines, and every other cell
    /// holding the number of mines around it.
    pub open spec fn wf(&self) -> bool {
        &&& self.shaped()
        &&& self.mines().len() == self.bomb_count
        &&& self.counts_consistent()
    }

    /// The first line of the text picture of the map.
    pub open spec fn header_text(&self) -> Seq<char> {
        "Map ("@ + decimal(self.width as nat) + ", "@ + decimal(self.height as nat) + ") with "@ + decimal(
            self.bomb_count as nat,
        ) + " bombms:\n"@
    }

    /// The frame above and below the picture: a dash for each column and for
    /// each side.
    pub open spec fn border_text(&self) -> Seq<char> {
        Seq::new((self.width + 2) as nat, |i: int| '-')
    }

    /// The texts of the first `n` cells of row `y`.
    pub open spec fn cells_text(&self, y: int, n: int) -> Seq<char>
        decreases n,
    {
        if n <= 0 {
            Seq::empty()
        } else {
            self.cells_text(y, n - 1) + self@[y][n - 1].text()
        }
    }

    /// Row `y` of the picture, between two bars.
    pub open spec fn row_text(&self, y: int) -> Seq<char> {
        "|"@ + self.cells_text(y, self.width as int) + "|\n"@
    }

    /// Rows `height - 1` down to `y`, the top row first.
    pub open spec fn rows_text(&self, y: int) -> Seq<char>
        decreases self.height - y,
    {
        if y >= self.height {
            Seq::empty()
        } else {
            self.rows_text(y + 1) + self.row_text(y)
        }
    }

    /// The text picture of the map: the header, then the rows inside a frame,
    /// the row of largest `y` on top.
    pub open spec fn console_text(&self) -> Seq<char> {
        self.header_text() + self.border_text() + "\n"@ + self.rows_text(0) + self.border_text()
    }

    /// A text picture of the map, for looking at it in a terminal.
    pub fn console_output(&self) -> (r: String)
        requires
            self.shaped(),
        ensures
            r@ == self.console_text(),
    {
        let mut buffer = String::new();
        buffer.append("Map (");
        push_decimal(&mut buffer, self.width);
        buffer.append(", ");
        push_decimal(&mut buffer, self.height);
        buffer.append(") with ");
        push_decimal(&mut buffer, self.bomb_count);
        buffer.append(" bombms:\n");
        let mut line = String::new();
        let mut i: u32 = 0;
        while i < self.width as u32 + 2
            invariant
                i <= self.width + 2,
                line@ == Seq::new(i as nat, |k: int| '-'),
            decreases self.width + 2 - i,
        {
            line.append("-");
            proof {
                reveal_strlit("-");
                assert(line@ =~= Seq::new((i + 1) as nat, |k: int| '-'));
            }
            i = i + 1;
        }
        buffer.append(line.as_str());
        buffer.append("\n");
        proof {
            assert(buffer@ =~= self.header_text() + self.border_text() + "\n"@);
        }
        let ghost prefix = buffer@;
        let mut y: u16 = self.height;
        while y > 0
            invariant
                self.shaped(),
                y <= self.height,
                buffer@ == prefix + self.rows_text(y as int),
            decreases y,
        {
            y = y - 1;
            let ghost before = buffer@;
            buffer.append("|");
            proof {
                assert(self@[y as int] == self.map@[y as int]@);
            }
            let row = &self.map[y as usize];
            let mut x: usize = 0;
            while x < row.len()
                invariant
                    self.shaped(),
                    y < self.height,
                    row@ == self@[y as int],
                    x <= row@.len(),
                    buffer@ == before + "|"@ + self.cells_text(y as int, x as int),
                decreases row@.len() - x,
            {
                let t = row[x].console_output();
                buffer.append(t.as_str());
                proof {
                    assert(buffer@ =~= before + "|"@ + self.cells_text(y as int, x + 1));
                }
                x = x + 1;
            }
            buffer.append("|\n");
            proof {
                assert(buffer@ =~= prefix + self.rows_text(y as int));
            }
        }
        buffer.append(line.as_str());
        proof {
            assert(buffer@ =~= self.console_text());
        }
        buffer
    }

    /// A map of `width` by `height` cells without any mine.
    pub fn empty(width: u16, height: u16) -> (r: TileMap)
        ensures
            r.wf(),
            r.width == width,
            r.height == height,
            r.bomb_count == 0,
            forall|c: Coordinates| #[trigger] r.in_grid(c) ==> r.tile(c) == Tile::Empty,
    {
        let mut map: Vec<Vec<Tile>> = Vec::new();
        let mut y: u16 = 0;
        while y < height
            invariant
                y <= height,
                map@.len() == y,
                forall|i: int, j: int| 0 <= i < y && 0 <= j < width ==> #[trigger] map@[i]@[j] == Tile::Empty,
                forall|i: int| 0 <= i < y ==> #[trigger] map@[i]@.len() == width,
            decreases height - y,
        {
            let mut row: Vec<Tile> = Vec::new();
            let mut x: u16 = 0;
            while x < width
                invariant
                    x <= width,
                    row@.len() == x,
                    forall|j: int| 0 <= j < x ==> #[trigger] row@[j] == Tile::Empty,
                decreases width - x,
            {
                row.push(Tile::Empty);
                x = x + 1;
            }
            map.push(row);
            y = y + 1;
        }
        let r = TileMap { bomb_count: 0, height, width, map };
        proof {
            assert(r.mines() =~= Set::<Coordinates>::empty());
            assert forall|c: Coordinates| r.in_grid(c) && !r.is_mine(c) implies #[trigger] r.tile(c) == r.expected_tile(c) by {
                r.lemma_no_mines_among(c.neighbors());
            }
        }
        r
    }

    proof fn lemma_no_mines_among(&self, s: Seq<Coordinates>)
        requires
            self.shaped(),
            forall|c: Coordinates| #[trigger] self.in_grid(c) ==> self.tile(c) == Tile::Empty,
        ensures
            mines_among(*self, s) == 0,
        decreases s.len(),
    {
        if s.len() > 0 {
            self.lemma_no_mines_among(s.drop_last());
        }
    }

    /// The coordinates around `coordinates`, in the fixed order of the eight
    /// relative positions; those that would fall below zero are left out. They
    /// may lie outside the grid.
    pub fn get_neighbor_coordinates(&self, coordinates: Coordinates) -> (r: Vec<Coordinates>)
        ensures
            r@ == coordinates.neighbors(),
    {
        let mut r: Vec<Coordinates> = Vec::new();
        let mut i: usize = 0;
        while i < NEIGHBOR_COUNT
            invariant
                i <= NEIGHBOR_COUNT,
                r@ == coordinates.neighbors_upto(i as int),
            decreases NEIGHBOR_COUNT - i,
        {
            let (dx, dy) = neighbor_offset(i);
            match coordinates.offset(dx, dy) {
                Some(c) => r.push(c),
                None => {},
            }
            i = i + 1;
        }
        r
    }

    /// The first empty cell, row by row from `y == 0` and left to right in each
    /// row; a game may start by revealing it.
    pub fn safe_start(&self) -> (r: Option<Coordinates>)
        requires
            self.shaped(),
        ensures
            r is None <==> forall|c: Coordinates| #[trigger] self.in_grid(c) ==> !self.is_empty_cell(c),
            r matches Some(s) ==> self.is_empty_cell(s) && forall|c: Coordinates|
                #[trigger] self.in_grid(c) && (c.y < s.y || (c.y == s.y && c.x < s.x)) ==> !self.is_empty_cell(c),
    {
        let mut y: u16 = 0;
        while y < self.height
            invariant
                self.shaped(),
                y <= self.height,
                forall|c: Coordinates| #[trigger] self.in_grid(c) && c.y < y ==> !self.is_empty_cell(c),
            decreases self.height - y,
        {
            let mut x: u16 = 0;
            while x < self.width
                invariant
                    self.shaped(),
                    y < self.height,
                    x <= self.width,
                    forall|c: Coordinates|
                        #[trigger] self.in_grid(c) && (c.y < y || (c.y == y && c.x < x)) ==> !self.is_empty_cell(c),
                decreases self.width - x,
            {
                let c = Coordinates { x, y };
                if self.is_empty_at(c) {
                    return Some(c);
                }
                x = x + 1;
            }
            y = y + 1;
        }
        None
    }

    /// Whether the cell holds neither a mine nor a count; `false` outside the grid.
    pub fn is_empty_at(&self, coordinates: Coordinates) -> (r: bool)
        requires
            self.shaped(),
        ensures
            r == self.is_empty_cell(coordinates),
    {
        if coordinates.x >= self.width || coordinates.y >= self.height {
            return false;
        }
        proof {
            assert(self@[coordinates.y as int] == self.map@[coordinates.y as int]@);
        }
        self.map[coordinates.y as usize][coordinates.x as usize].is_empty()
    }

    /// Whether the cell holds a mine; `false` outside the grid.
    pub fn is_bomb_at(&self, coordinates: Coordinates) -> (r: bool)
        requires
            self.shaped(),
        ensures
            r == self.is_mine(coordinates),
    {
        if coordinates.x >= self.width || coordinates.y >= self.height {
            return false;
        }
        proof {
            assert(self@[coordinates.y as int] == self.map@[coordinates.y as int]@);
        }
        self.map[coordinates.y as usize][coordinates.x as usize].is_bomb()
    }

    /// The number of mines around a cell without a mine; 0 for a mine and for a
    /// coordinate outside the grid.
    pub fn bomb_count_at(&self, coordinates: Coordinates) -> (r: u8)
        requires
            self.shaped(),
        ensures
            r == (if !self.in_grid(coordinates) || self.is_mine(coordinates) {
                0
            } else {
                self.mine_neighbors(coordinates)
            }),
            r <= NEIGHBOR_COUNT,
    {
        if coordinates.x >= self.width || coordinates.y >= self.height || self.is_bomb_at(coordinates) {
            return 0;
        }
        let neighbors = self.get_neighbor_coordinates(coordinates);
        proof {
            lemma_neighbors(coordinates);
        }
        let mut count: u8 = 0;
        let mut i: usize = 0;
        while i < neighbors.len()
            invariant
                self.shaped(),
                i <= neighbors@.len(),
                neighbors@.len() <= NEIGHBOR_COUNT,
                count == mines_among(*self, neighbors@.subrange(0, i as int)),
                count <= i,
            decreases neighbors@.len() - i,
        {
            proof {
                assert(neighbors@.subrange(0, i as int + 1).drop_last() == neighbors@.subrange(0, i as int));
            }
            if self.is_bomb_at(neighbors[i]) {
                count = count + 1;
            }
            i = i + 1;
        }
        proof {
            assert(neighbors@.subrange(0, i as int) == neighbors@);
        }
        count
    }

    /// Two maps with the same mines count the same mines among any coordinates.
    proof fn lemma_same_mines_among(&self, other: TileMap, s: Seq<Coordinates>)
        requires
            forall|c: Coordinates| self.is_mine(c) == other.is_mine(c),
        ensures
            mines_among(*self, s) == mines_among(other, s),
        decreases s.len(),
    {
        if s.len() > 0 {
            self.lemma_same_mines_among(other, s.drop_last());
        }
    }

    /// Puts a mine on each coordinate of `bombs` that lies in the grid, and only
    /// then sets every other cell to the number of mines around it.
    pub fn place_bombs(&mut self, bombs: &Vec<Coordinates>)
        requires
            old(self).wf(),
            old(self).bomb_count == 0,
            bombs@.len() <= u16::MAX,
        ensures
            final(self).wf(),
            final(self).width == old(self).width,
            final(self).height == old(self).height,
            final(self).mines() == bombs@.to_set().filter(|c: Coordinates| old(self).in_grid(c)),
    {
        let ghost start = *self;
        proof {
            assert(self.mines() =~= Set::<Coordinates>::empty()) by {
                assert(self.mines().len() == 0);
                lemma_coordinates_finite(self.mines());
            }
        }
        let mut count: u16 = 0;
        let mut i: usize = 0;
        while i < bombs.len()
            invariant
                i <= bombs@.len(),
                bombs@.len() <= u16::MAX,
                self.shaped(),
                self.width == start.width,
                self.height == start.height,
                self.mines() == bombs@.subrange(0, i as int).to_set().filter(|c: Coordinates| start.in_grid(c)),
                count == self.mines().len(),
                count <= i,
            decreases bombs@.len() - i,
        {
            let b = bombs[i];
            let ghost before = *self;
            proof {
                assert(bombs@.subrange(0, i as int + 1) == bombs@.subrange(0, i as int).push(b));
                lemma_coordinates_finite(before.mines());
            }
            if b.x < self.width && b.y < self.height && !self.is_bomb_at(b) {
                proof {
                    assert(self@[b.y as int] == self.map@[b.y as int]@);
                }
                self.map[b.y as usize][b.x as usize] = Tile::Bomb;
                proof {
                    assert(self.mines() =~= before.mines().insert(b)) by {
                        assert forall|c: Coordinates| #[trigger] self.is_mine(c) <==> before.mines().insert(b).contains(c) by {
                            if c.y == b.y {
                                assert(self@[c.y as int] == before@[c.y as int].update(b.x as int, Tile::Bomb));
                            } else if c.y < self.height {
                                assert(self@[c.y as int] == before@[c.y as int]);
                            }
                        }
                    }
                    assert forall|y: int| 0 <= y < self.height implies #[trigger] self@[y].len() == self.width by {
                        assert(self@[y] == self.map@[y]@);
                        assert(before@[y] == before.map@[y]@);
                    }
                }
                count = count + 1;
            }
            proof {
                bombs@.subrange(0, i as int).lemma_push_to_set_commute(b);
                assert(self.mines() =~= bombs@.subrange(0, i as int + 1).to_set().filter(|c: Coordinates| start.in_grid(c)));
            }
            i = i + 1;
        }
        proof {
            assert(bombs@.subrange(0, i as int) == bombs@);
        }
        let ghost placed = *self;
        let mut fresh: Vec<Vec<Tile>> = Vec::new();
        let mut y: u16 = 0;
        while y < self.height
            invariant
                *self == placed,
                placed.shaped(),
                y <= placed.height,
                fresh@.len() == y,
                forall|r: int| 0 <= r < y ==> #[trigger] fresh@[r]@.len() == placed.width,
                forall|c: Coordinates|
                    #![trigger fresh@[c.y as int]@[c.x as int]]
                    c.y < y && c.x < placed.width ==> fresh@[c.y as int]@[c.x as int] == if placed.is_mine(c) {
                        Tile::Bomb
                    } else {
                        placed.expected_tile(c)
                    },
            decreases placed.height - y,
        {
            let mut row: Vec<Tile> = Vec::new();
            let mut x: u16 = 0;
            while x < self.width
                invariant
                    *self == placed,
                    placed.shaped(),
                    y < placed.height,
                    x <= placed.width,
                    row@.len() == x,
                    forall|c: Coordinates|
                        #![trigger row@[c.x as int]]
                        c.y == y && c.x < x ==> row@[c.x as int] == if placed.is_mine(c) {
                            Tile::Bomb
                        } else {
                            placed.expected_tile(c)
                        },
                decreases placed.width - x,
            {
                let c = Coordinates { x, y };
                let tile = if self.is_bomb_at(c) {
                    Tile::Bomb
                } else {
                    let n = self.bomb_count_at(c);
                    if n == 0 {
                        Tile::Empty
                    } else {
                        Tile::BombNeighbor(n)
                    }
                };
                row.push(tile);
                proof {
                    assert forall|c2: Coordinates| c2.y == y && c2.x < x + 1 implies #[trigger] row@[c2.x as int] == if placed.is_mine(c2) {
                        Tile::Bomb
                    } else {
                        placed.expected_tile(c2)
                    } by {
                        if c2.x == x {
                            assert(c2 == c);
                        }
                    }
                }
                x = x + 1;
            }
            fresh.push(row);
            proof {
                assert forall|c: Coordinates| c.y < y + 1 && c.x < placed.width implies #[trigger] fresh@[c.y as int]@[c.x as int] == if placed.is_mine(c) {
                    Tile::Bomb
                } else {
                    placed.expected_tile(c)
                } by {
                    if c.y == y {
                        assert(fresh@[c.y as int] == row);
                    }
                }
            }
            y = y + 1;
        }
        self.map = fresh;
        self.bomb_count = count;
        proof {
            assert forall|y: int| 0 <= y < self.height implies #[trigger] self@[y].len() == self.width by {
                assert(self@[y] == self.map@[y]@);
            }
            assert forall|c: Coordinates| #[trigger] self.is_mine(c) == placed.is_mine(c) by {
                if self.in_grid(c) {
                    assert(self.tile(c) == fresh@[c.y as int]@[c.x as int]);
                    if !placed.is_mine(c) {
                        placed.lemma_same_mines_among(*self, c.neighbors());
                    }
                }
            }
            assert(self.mines() =~= placed.mines());
            assert forall|c: Coordinates| self.in_grid(c) && !self.is_mine(c) implies #[trigger] self.tile(c) == self.expected_tile(c) by {
                assert(self.tile(c) == fresh@[c.y as int]@[c.x as int]);
                placed.lemma_same_mines_among(*self, c.neighbors());
            }
        }
    }

    /// Puts `bomb_count` mines on distinct cells drawn at random, each set of
    /// cells being as likely as any other, then sets every other cell to the number
    /// of mines around it.
    pub fn set_bombs(&mut self, bomb_count: u16)
        requires
            old(self).wf(),
            old(self).bomb_count == 0,
            bomb_count <= old(self).width * old(self).height,
        ensures
            final(self).wf(),
            final(self).width == old(self).width,
            final(self).height == old(self).height,
            final(self).bomb_count == bomb_count,
    {
        let width = self.width;
        let height = self.height;
        let mut cells: Vec<Coordinates> = Vec::new();
        let mut y: u16 = 0;
        while y < height
            invariant
                y <= height,
                cells@.len() == y * width,
                cells@.no_duplicates(),
                forall|k: int| 0 <= k < cells@.len() ==> (#[trigger] cells@[k]).x < width && cells@[k].y < y,
            decreases height - y,
        {
            let mut x: u16 = 0;
            while x < width
                invariant
                    y < height,
                    x <= width,
                    cells@.len() == y * width + x,
                    cells@.no_duplicates(),
                    forall|k: int| 0 <= k < cells@.len() ==> (#[trigger] cells@[k]).x < width && (cells@[k].y < y
                        || (cells@[k].y == y && cells@[k].x < x)),
                decreases width - x,
            {
                cells.push(Coordinates { x, y });
                x = x + 1;
            }
            proof {
                assert(y * width + width == (y + 1) * width) by (nonlinear_arith);
            }
            y = y + 1;
        }
        proof {
            assert(cells@.len() == width * height) by (nonlinear_arith)
                requires
                    y == height,
                    cells@.len() == y * width,
            ;
        }
        let n = cells.len();
        let mut i: usize = 0;
        while i < bomb_count as usize
            invariant
                n == cells@.len(),
                n == width * height,
                bomb_count <= n,
                i <= bomb_count,
                cells@.no_duplicates(),
                forall|k: int| 0 <= k < cells@.len() ==> (#[trigger] cells@[k]).x < width && cells@[k].y < height,
            decreases bomb_count - i,
        {
            let j = i + random_below(n - i);
            let a = cells[i];
            let b = cells[j];
            cells.set(i, b);
            cells.set(j, a);
            i = i + 1;
        }
        cells.truncate(bomb_count as usize);
        let ghost start = *self;
        self.place_bombs(&cells);
        proof {
            assert(cells@.to_set().filter(|c: Coordinates| start.in_grid(c)) =~= cells@.to_set());
            cells@.unique_seq_to_set();
        }
    }

    /// A map of `width` by `height` cells with `bomb_count` mines at random places;
    /// refused when the mines outnumber the cells.
    pub fn generate(width: u16, height: u16, bomb_count: u16) -> (r: Result<TileMap, GenerationError>)
        ensures
            r is Err <==> bomb_count > width * height,
            r matches Ok(m) ==> m.wf() && m.width == width && m.height == height && m.bomb_count == bomb_count,
    {
        proof {
            assert(width * height <= u16::MAX * u16::MAX) by (nonlinear_arith)
                requires
                    width <= u16::MAX,
                    height <= u16::MAX,
            ;
        }
        if bomb_count as u64 > width as u64 * height as u64 {
            return Err(GenerationError::TooManyBombs);
        }
        let mut m = TileMap::empty(width, height);
        m.set_bombs(bomb_count);
        Ok(m)
    }
}

/// Counting mines among some coordinates gives at most their number.
proof fn lemma_mines_among_bound(m: TileMap, s: Seq<Coordinates>)
    ensures
        mines_among(m, s) <= s.len(),
    decreases s.len(),
{
    if s.len() > 0 {
        lemma_mines_among_bound(m, s.drop_last());
    }
}

/// A generated map holds exactly `bomb_count` mines; a cell that shows a count
/// `n` has exactly `n` mines among its neighbours, with `n` from 1 to 8; and an
/// empty cell has no mine among its neighbours.
pub proof fn lemma_generated_map_counts(m: TileMap)
    requires
        m.wf(),
    ensures
        m.mines().len() == m.bomb_count,
        forall|c: Coordinates| #[trigger] m.in_grid(c) ==> match m.tile(c) {
            Tile::BombNeighbor(n) => m.mine_neighbors(c) == n && 1 <= n <= 8,
            Tile::Empty => m.mine_neighbors(c) == 0,
            Tile::Bomb => true,
        },
{
    assert forall|c: Coordinates| #[trigger] m.in_grid(c) implies match m.tile(c) {
        Tile::BombNeighbor(n) => m.mine_neighbors(c) == n && 1 <= n <= 8,
        Tile::Empty => m.mine_neighbors(c) == 0,
        Tile::Bomb => true,
    } by {
        lemma_neighbors(c);
        lemma_mines_among_bound(m, c.neighbors());
    }
}

/// In a generated map without mines, every cell of the grid is empty.
pub proof fn lemma_no_bombs_all_empty(m: TileMap)
    requires
        m.wf(),
        m.bomb_count == 0,
    ensures
        forall|c: Coordinates| #[trigger] m.in_grid(c) ==> m.tile(c) == Tile::Empty,
{
    assert(m.mines() =~= Set::<Coordinates>::empty()) by {
        lemma_coordinates_finite(m.mines());
    }
    assert forall|c: Coordinates| #[trigger] m.in_grid(c) implies m.tile(c) == Tile::Empty by {
        assert(!m.mines().contains(c));
        lemma_mines_among_none(m, c.neighbors());
    }
}

proof fn lemma_mines_among_none(m: TileMap, s: Seq<Coordinates>)
    requires
        m.mines() == Set::<Coordinates>::empty(),
    ensures
        mines_among(m, s) == 0,
    decreases s.len(),
{
    if s.len() > 0 {
        assert(!m.mines().contains(s.last()));
        lemma_mines_among_none(m, s.drop_last());
    }
}

/// Why a map could not be generated.
#[derive(Debug, Clone, Copy, PartialEq, Eq, Structural)]
pub enum GenerationError {
    /// More mines were asked for than the grid has cells.
    TooManyBombs,
}

/// Relies on rand's `Rng::gen_range` over `thread_rng()`: a number drawn from
/// `0..n`. It panics on an empty range, which `requires` leaves out.
#[verifier::external_body]
fn random_below(n: usize) -> (r: usize)
    requires
        0 < n,
    ensures
        r < n,
{
    rand::Rng::gen_range(&mut rand::thread_rng(), 0..n)
}

} // verus!
