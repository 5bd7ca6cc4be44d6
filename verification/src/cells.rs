use vstd::prelude::*;

verus! {

/// Number of cells that one storage word keeps.
pub open spec fn word_bits() -> int {
    usize::BITS as int
}

/// Bit `index` of a packed sequence of words.
pub open spec fn bit_at(words: Seq<usize>, index: int) -> bool {
    words[index / word_bits()] & (1usize << ((index % word_bits()) as usize)) != 0
}

/// Number of cells in a store of the given size; a store without rows or
/// without columns has none.
pub open spec fn cell_count(width: int, height: int) -> int {
    if width > 0 && height > 0 {
        width * height
    } else {
        0
    }
}

/// Number of words that hold `count` bits.
pub open spec fn words_for(count: int) -> int {
    (count + word_bits() - 1) / word_bits()
}

/// What a cell store holds: its size in cells and, of the cells inside it,
/// those that are busy and those that hold a block.
pub struct CellsView {
    pub width: int,
    pub height: int,
    pub busy: Set<(int, int)>,
    pub blocks: Set<(int, int)>,
}

/// Occupancy of a grid of block-sized cells, one bit per cell and kind,
/// packed row by row into machine words.
pub struct Cells {
    width: i32,
    height: i32,
    busy: Vec<usize>,
    blocks: Vec<usize>,
}

proof fn lemma_word_bits()
    ensures
        word_bits() == 32 || word_bits() == 64,
{
}

proof fn lemma_word_index(count: int, index: int)
    requires
        0 <= index < count,
    ensures
        0 <= index / word_bits() < words_for(count),
        index < words_for(count) * word_bits(),
        0 <= index % word_bits() < word_bits(),
{
    lemma_word_bits();
    if word_bits() == 32 {
        assert(index / 32 < (count + 31) / 32);
    } else {
        assert(index / 64 < (count + 63) / 64);
    }
}

proof fn lemma_cell_index(width: int, height: int, x: int, y: int)
    requires
        0 <= x < width,
        0 <= y < height,
    ensures
        0 <= y * width + x < width * height,
        0 <= y * width <= width * height,
{
    assert(0 <= y * width) by (nonlinear_arith)
        requires
            0 <= y,
            0 <= width,
    ;
    assert(y * width + width <= width * height) by (nonlinear_arith)
        requires
            y + 1 <= height,
            0 <= width,
    ;
}

proof fn lemma_cell_index_injective(width: int, x1: int, y1: int, x2: int, y2: int)
    requires
        0 <= x1 < width,
        0 <= x2 < width,
        y1 * width + x1 == y2 * width + x2,
    ensures
        x1 == x2,
        y1 == y2,
{
    assert(y1 == y2) by (nonlinear_arith)
        requires
            0 <= x1 < width,
            0 <= x2 < width,
            y1 * width + x1 == y2 * width + x2,
    ;
}

proof fn lemma_bit_set(word: usize, bit: usize, other: usize)
    requires
        bit < usize::BITS,
        other < usize::BITS,
    ensures
        (word | (1usize << bit)) & (1usize << other) != 0 <==> (other == bit || word & (1usize
            << other) != 0),
{
    assert((word | (1usize << bit)) & (1usize << other) != 0 <==> (other == bit || word & (1usize
        << other) != 0)) by (bit_vector)
        requires
            bit < usize::BITS,
            other < usize::BITS,
    ;
}

proof fn lemma_bit_clear(word: usize, bit: usize, other: usize)
    requires
        bit < usize::BITS,
        other < usize::BITS,
    ensures
        (word & !(1usize << bit)) & (1usize << other) != 0 <==> (other != bit && word & (1usize
            << other) != 0),
{
    assert((word & !(1usize << bit)) & (1usize << other) != 0 <==> (other != bit && word & (1usize
        << other) != 0)) by (bit_vector)
        requires
            bit < usize::BITS,
            other < usize::BITS,
    ;
}

proof fn lemma_zero_word(other: usize)
    ensures
        0usize & (1usize << other) == 0,
{
    assert(0usize & (1usize << other) == 0) by (bit_vector);
}

/// Writing bit `index` of `words` changes that bit and no other.
proof fn lemma_bit_written(old_words: Seq<usize>, new_words: Seq<usize>, index: int, state: bool)
    requires
        0 <= index < old_words.len() * word_bits(),
        new_words.len() == old_words.len(),
        forall|p: int|
            0 <= p < old_words.len() && p != index / word_bits() ==> new_words[p] == old_words[p],
        state ==> new_words[index / word_bits()] == old_words[index / word_bits()] | (1usize << ((
        index % word_bits()) as usize)),
        !state ==> new_words[index / word_bits()] == old_words[index / word_bits()] & !(1usize << ((
        index % word_bits()) as usize)),
    ensures
        forall|i: int|
            0 <= i < old_words.len() * word_bits() ==> (#[trigger] bit_at(new_words, i) <==> (if i
                == index {
                state
            } else {
                bit_at(old_words, i)
            })),
{
    lemma_word_bits();
    let pos = index / word_bits();
    let bit = (index % word_bits()) as usize;
    assert forall|i: int| 0 <= i < old_words.len() * word_bits() implies (#[trigger] bit_at(
        new_words,
        i,
    ) <==> (if i == index {
        state
    } else {
        bit_at(old_words, i)
    })) by {
        let p = i / word_bits();
        let b = (i % word_bits()) as usize;
        assert(0 <= p < old_words.len());
        if p == pos {
            assert(b == bit <==> i == index);
            if state {
                lemma_bit_set(old_words[pos], bit, b);
            } else {
                lemma_bit_clear(old_words[pos], bit, b);
            }
        }
    }
}

impl View for Cells {
    type V = CellsView;

    closed spec fn view(&self) -> CellsView {
        CellsView {
            width: self.width as int,
            height: self.height as int,
            busy: Set::new(
                |c: (int, int)|
                    0 <= c.0 < self.width && 0 <= c.1 < self.height && bit_at(
                        self.busy@,
                        c.1 * self.width + c.0,
                    ),
            ),
            blocks: Set::new(
                |c: (int, int)|
                    0 <= c.0 < self.width && 0 <= c.1 < self.height && bit_at(
                        self.blocks@,
                        c.1 * self.width + c.0,
                    ),
            ),
        }
    }
}

impl Cells {
    /// The two bit sets have one bit for every cell, and a cell that holds a
    /// block is busy.
    pub closed spec fn wf(&self) -> bool {
        &&& cell_count(self.width as int, self.height as int) <= i32::MAX
        &&& self.busy@.len() == words_for(cell_count(self.width as int, self.height as int))
        &&& self.blocks@.len() == self.busy@.len()
        &&& self@.blocks.subset_of(self@.busy)
    }

    /// The cell lies inside the store.
    pub open spec fn in_bounds(&self, x: int, y: int) -> bool {
        0 <= x < self@.width && 0 <= y < self@.height
    }

    /// A cell counts as busy when it is marked so or lies outside the store.
    pub open spec fn busy_at(&self, x: int, y: int) -> bool {
        !self.in_bounds(x, y) || self@.busy.contains((x, y))
    }

    /// A cell counts as a block when it holds one or lies outside the store.
    pub open spec fn block_at(&self, x: int, y: int) -> bool {
        !self.in_bounds(x, y) || self@.blocks.contains((x, y))
    }

    /// A block may be placed on a free cell that touches a block on one of
    /// its four sides.
    pub open spec fn buildable_at(&self, x: int, y: int) -> bool {
        &&& !self.busy_at(x, y)
        &&& (self.block_at(x - 1, y) || self.block_at(x + 1, y) || self.block_at(x, y - 1)
            || self.block_at(x, y + 1))
    }

    /// The view only names cells of the store, and a cell that holds a
    /// block is busy.
    pub proof fn lemma_view(&self)
        ensures
            forall|c: (int, int)| self@.busy.contains(c) ==> self.in_bounds(c.0, c.1),
            forall|c: (int, int)| self@.blocks.contains(c) ==> self.in_bounds(c.0, c.1),
            self.wf() ==> self@.blocks.subset_of(self@.busy),
            self.wf() ==> cell_count(self@.width, self@.height) <= i32::MAX,
    {
    }

    /// Number of cells in a row.
    pub fn width(&self) -> (w: i32)
        ensures
            w == self@.width,
    {
        self.width
    }

    /// Number of rows.
    pub fn height(&self) -> (h: i32)
        ensures
            h == self@.height,
    {
        self.height
    }

    /// An empty store of `width` by `height` cells.
    pub fn new(width: i32, height: i32) -> (cells: Cells)
        requires
            cell_count(width as int, height as int) <= i32::MAX,
        ensures
            cells.wf(),
            cells@.width == width,
            cells@.height == height,
            cells@.busy == Set::<(int, int)>::empty(),
            cells@.blocks == Set::<(int, int)>::empty(),
    {
        let bits: usize = usize::BITS as usize;
        let mut size: usize = 0;
        if width > 0 && height > 0 {
            proof {
                lemma_word_bits();
                assert(0 < width as int * height as int) by (nonlinear_arith)
                    requires
                        width > 0,
                        height > 0,
                ;
            }
            let count: usize = (width as usize) * (height as usize);
            size = (count + (bits - 1)) / bits;
        } else {
            proof {
                lemma_word_bits();
            }
        }
        let mut busy: Vec<usize> = Vec::new();
        let mut blocks: Vec<usize> = Vec::new();
        let mut i: usize = 0;
        while i < size
            invariant
                0 <= i <= size,
                busy@.len() == i,
                blocks@.len() == i,
                forall|j: int| 0 <= j < i ==> busy@[j] == 0,
                forall|j: int| 0 <= j < i ==> blocks@[j] == 0,
            decreases size - i,
        {
            busy.push(0);
            blocks.push(0);
            i = i + 1;
        }
        let cells = Cells { width, height, busy, blocks };
        proof {
            lemma_word_bits();
            assert forall|c: (int, int)| !cells@.busy.contains(c) && !cells@.blocks.contains(
                c,
            ) by {
                if 0 <= c.0 < width && 0 <= c.1 < height {
                    lemma_cell_index(width as int, height as int, c.0, c.1);
                    let index = c.1 * width + c.0;
                    lemma_zero_word((index % word_bits()) as usize);
                }
            }
            assert(cells@.busy =~= Set::<(int, int)>::empty());
            assert(cells@.blocks =~= Set::<(int, int)>::empty());
        }
        cells
    }

    /// Position of a cell of the store in the two bit sets.
    fn index_of(&self, x: i32, y: i32) -> (index: usize)
        requires
            self.wf(),
            self.in_bounds(x as int, y as int),
        ensures
            index == y * self.width + x,
            index < cell_count(self.width as int, self.height as int),
            index / (usize::BITS as usize) < self.busy@.len(),
    {
        proof {
            lemma_word_bits();
            lemma_cell_index(self.width as int, self.height as int, x as int, y as int);
            lemma_word_index(
                cell_count(self.width as int, self.height as int),
                y * self.width + x,
            );
        }
        (y as usize) * (self.width as usize) + (x as usize)
    }

    /// Marks the cell as holding a block, or as free: both of its bits are
    /// set, or both are cleared.
    pub fn set_block(&mut self, x: i32, y: i32, state: bool)
        requires
            old(self).wf(),
            old(self).in_bounds(x as int, y as int),
        ensures
            final(self).wf(),
            final(self)@.width == old(self)@.width,
            final(self)@.height == old(self)@.height,
            state ==> final(self)@.busy == old(self)@.busy.insert((x as int, y as int)),
            state ==> final(self)@.blocks == old(self)@.blocks.insert((x as int, y as int)),
            !state ==> final(self)@.busy == old(self)@.busy.remove((x as int, y as int)),
            !state ==> final(self)@.blocks == old(self)@.blocks.remove((x as int, y as int)),
    {
        let bits: usize = usize::BITS as usize;
        let index = self.index_of(x, y);
        let pos = index / bits;
        let bit = index % bits;
        let mask: usize = 1usize << bit;
        let busy_word = self.busy[pos];
        let block_word = self.blocks[pos];
        if state {
            self.busy[pos] = busy_word | mask;
            self.blocks[pos] = block_word | mask;
        } else {
            self.busy[pos] = busy_word & !mask;
            self.blocks[pos] = block_word & !mask;
        }
        proof {
            lemma_word_bits();
            let w = self.width as int;
            let h = self.height as int;
            lemma_bit_written(old(self).busy@, self.busy@, index as int, state);
            lemma_bit_written(old(self).blocks@, self.blocks@, index as int, state);
            assert forall|c: (int, int)| 0 <= c.0 < w && 0 <= c.1 < h implies 0 <= c.1 * w + c.0
                < self.busy@.len() * word_bits() && (c.1 * w + c.0 == index <==> c == (
                x as int,
                y as int,
            )) by {
                lemma_cell_index(w, h, c.0, c.1);
                lemma_word_index(cell_count(w, h), c.1 * w + c.0);
                if c.1 * w + c.0 == index {
                    lemma_cell_index_injective(w, c.0, c.1, x as int, y as int);
                }
            }
            if state {
                assert(self@.busy =~= old(self)@.busy.insert((x as int, y as int)));
                assert(self@.blocks =~= old(self)@.blocks.insert((x as int, y as int)));
            } else {
                assert(self@.busy =~= old(self)@.busy.remove((x as int, y as int)));
                assert(self@.blocks =~= old(self)@.blocks.remove((x as int, y as int)));
            }
        }
    }

    /// Whether the cell is unusable for construction. Every cell outside
    /// the store is.
    pub fn is_busy(&self, x: i32, y: i32) -> (busy: bool)
        requires
            self.wf(),
        ensures
            busy == self.busy_at(x as int, y as int),
    {
        if x < 0 || x >= self.width || y < 0 || y >= self.height {
            return true;
        }
        let bits: usize = usize::BITS as usize;
        let index = self.index_of(x, y);
        let pos = index / bits;
        let bit = index % bits;
        self.busy[pos] & (1usize << bit) != 0
    }

    /// Whether the cell holds a block. Every cell outside the store does.
    pub fn is_block(&self, x: i32, y: i32) -> (block: bool)
        requires
            self.wf(),
        ensures
            block == self.block_at(x as int, y as int),
    {
        if x < 0 || x >= self.width || y < 0 || y >= self.height {
            return true;
        }
        let bits: usize = usize::BITS as usize;
        let index = self.index_of(x, y);
        let pos = index / bits;
        let bit = index % bits;
        self.blocks[pos] & (1usize << bit) != 0
    }

    /// Whether a block may be placed on the cell.
    pub fn can_build(&self, x: i32, y: i32) -> (buildable: bool)
        requires
            self.wf(),
        ensures
            buildable == self.buildable_at(x as int, y as int),
    {
        if self.is_busy(x, y) {
            return false;
        }
        self.is_block(x - 1, y) || self.is_block(x + 1, y) || self.is_block(x, y - 1)
            || self.is_block(x, y + 1)
    }
}

/// Adjacency is necessary: a cell may be built on only if it is free and
/// one of its four neighbours holds a block or lies outside the store.
pub proof fn lemma_build_needs_neighbour(cells: Cells, x: int, y: int)
    requires
        cells.wf(),
        cells.in_bounds(x, y),
        cells.buildable_at(x, y),
    ensures
        !cells@.busy.contains((x, y)),
        exists|nx: int, ny: int| #[trigger]
            is_neighbour(x, y, nx, ny) && cells.block_at(nx, ny),
{
    if cells.block_at(x - 1, y) {
        assert(is_neighbour(x, y, x - 1, y) && cells.block_at(x - 1, y));
    } else if cells.block_at(x + 1, y) {
        assert(is_neighbour(x, y, x + 1, y) && cells.block_at(x + 1, y));
    } else if cells.block_at(x, y - 1) {
        assert(is_neighbour(x, y, x, y - 1) && cells.block_at(x, y - 1));
    } else {
        assert(is_neighbour(x, y, x, y + 1) && cells.block_at(x, y + 1));
    }
}

/// Adjacency is sufficient: a free cell with a block on one of its four
/// sides may be built on.
pub proof fn lemma_build_next_to_block(cells: Cells, x: int, y: int, nx: int, ny: int)
    requires
        cells.wf(),
        cells.in_bounds(x, y),
        !cells@.busy.contains((x, y)),
        is_neighbour(x, y, nx, ny),
        cells.block_at(nx, ny),
    ensures
        cells.buildable_at(x, y),
{
}

/// Placing one block makes exactly the free cells on its four sides
/// buildable that were not so before, and takes the cell itself away.
pub proof fn lemma_block_placed(before: Cells, after: Cells, bx: int, by: int, x: int, y: int)
    requires
        before.wf(),
        after.wf(),
        before.in_bounds(bx, by),
        after@.width == before@.width,
        after@.height == before@.height,
        after@.busy == before@.busy.insert((bx, by)),
        after@.blocks == before@.blocks.insert((bx, by)),
    ensures
        after.buildable_at(x, y) <==> (x, y) != (bx, by) && !before.busy_at(x, y) && (
        before.buildable_at(x, y) || is_neighbour(x, y, bx, by)),
{
}

/// The four cells that share a side with `(x, y)`.
pub open spec fn is_neighbour(x: int, y: int, nx: int, ny: int) -> bool {
    (ny == y && (nx == x - 1 || nx == x + 1)) || (nx == x && (ny == y - 1 || ny == y + 1))
}

} // verus!
