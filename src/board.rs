//! Board coordinates and the fixed-size board container.
use vstd::prelude::*;
use vstd::arithmetic::div_mod::lemma_fundamental_div_mod_converse;

verus! {

/// A cell of a `W` by `H` board, stored as its row-major flat position
/// `x + W * y`. Every constructor yields a cell inside the board (`wf`).
#[derive(Debug, Clone, Copy, PartialEq, Eq)]
pub struct BoardIndex<const W: usize, const H: usize> {
    flattened: usize,
}

/// Board dimensions whose cell count fits in a `usize`.
pub open spec fn dims_fit(w: usize, h: usize) -> bool {
    w as int * h as int <= usize::MAX as int
}

/// The flat position of column `x`, row `y` on a board of width `w`.
pub open spec fn flat_of(w: int, x: int, y: int) -> int {
    x + w * y
}

/// A cell inside a `w` by `h` board has a flat position below `w * h`.
pub proof fn lemma_flat_inside(w: int, h: int, x: int, y: int)
    requires
        0 <= x < w,
        0 <= y < h,
    ensures
        0 <= flat_of(w, x, y) < w * h,
{
    assert(0 <= x + w * y < w * h) by (nonlinear_arith)
        requires
            0 <= x < w,
            0 <= y < h,
    ;
}

/// A flat position below `w * h` splits into a column below `w` and a row
/// below `h`.
pub proof fn lemma_split_flat(w: int, h: int, f: int)
    requires
        0 <= w,
        0 <= f < w * h,
    ensures
        0 <= f % w < w,
        0 <= f / w < h,
        f == flat_of(w, f % w, f / w),
{
    assert(w > 0) by (nonlinear_arith)
        requires
            0 <= w,
            0 <= f < w * h,
    ;
    assert(f % w + w * (f / w) == f && 0 <= f % w < w && 0 <= f / w < h) by (nonlinear_arith)
        requires
            0 <= f < w * h,
            w > 0,
    ;
}

/// The cell at column `x + dx`, row `y + dy` of a `w` by `h` board, as a
/// one-element sequence of its flat position, or as the empty sequence when
/// that cell falls outside the board.
pub open spec fn step(w: int, h: int, x: int, y: int, dx: int, dy: int) -> Seq<int> {
    if 0 <= x + dx < w && 0 <= y + dy < h {
        seq![flat_of(w, x + dx, y + dy)]
    } else {
        seq![]
    }
}

/// Flat positions of the in-bounds neighbours of column `x`, row `y`, in the
/// order north-west, north, north-east, west, east, south-west, south,
/// south-east.
pub open spec fn neighbour_flats(w: int, h: int, x: int, y: int) -> Seq<int> {
    step(w, h, x, y, -1, -1) + step(w, h, x, y, 0, -1) + step(w, h, x, y, 1, -1)
        + step(w, h, x, y, -1, 0) + step(w, h, x, y, 1, 0)
        + step(w, h, x, y, -1, 1) + step(w, h, x, y, 0, 1) + step(w, h, x, y, 1, 1)
}

/// Whether column `x` lies on the left or right edge of a board of width `w`.
pub open spec fn on_edge(w: int, x: int) -> bool {
    x == 0 || x == w - 1
}

/// The flat positions of a sequence of cells.
pub open spec fn flats<const W: usize, const H: usize>(s: Seq<BoardIndex<W, H>>) -> Seq<int> {
    s.map_values(|b: BoardIndex<W, H>| b@ as int)
}

/// Reading a column and a row back from the flat position they give returns
/// them unchanged.
pub proof fn lemma_xy_round_trip(w: int, h: int, x: int, y: int)
    requires
        0 <= x < w,
        0 <= y < h,
    ensures
        flat_of(w, x, y) % w == x,
        flat_of(w, x, y) / w == y,
{
    assert(x + w * y == y * w + x) by (nonlinear_arith);
    lemma_fundamental_div_mod_converse(flat_of(w, x, y), w, y, x);
}

/// Moving `dx` columns and `dy` rows shifts the flat position by
/// `dx + w * dy`.
pub proof fn lemma_flat_shift(w: int, x: int, y: int, dx: int, dy: int)
    ensures
        flat_of(w, x + dx, y + dy) == flat_of(w, x, y) + dx + w * dy,
{
    assert(x + dx + w * (y + dy) == x + w * y + dx + w * dy) by (nonlinear_arith);
}

/// On a board at least two cells wide and two cells high, a corner cell has
/// three neighbours, another cell on the border five and an inner cell eight;
/// the neighbours lie on the board, differ from the cell itself and come in
/// increasing flat order, so no two of them are equal.
pub proof fn lemma_neighbour_flats(w: int, h: int, x: int, y: int)
    requires
        2 <= w,
        2 <= h,
        0 <= x < w,
        0 <= y < h,
    ensures
        3 <= neighbour_flats(w, h, x, y).len() <= 8,
        on_edge(w, x) && on_edge(h, y) ==> neighbour_flats(w, h, x, y).len() == 3,
        on_edge(w, x) != on_edge(h, y) ==> neighbour_flats(w, h, x, y).len() == 5,
        !on_edge(w, x) && !on_edge(h, y) ==> neighbour_flats(w, h, x, y).len() == 8,
        forall|i: int|
            0 <= i < neighbour_flats(w, h, x, y).len()
                ==> 0 <= #[trigger] neighbour_flats(w, h, x, y)[i] < w * h
                && neighbour_flats(w, h, x, y)[i] != flat_of(w, x, y),
        forall|i: int, j: int|
            0 <= i < j < neighbour_flats(w, h, x, y).len()
                ==> #[trigger] neighbour_flats(w, h, x, y)[i]
                < #[trigger] neighbour_flats(w, h, x, y)[j],
{
    let b = flat_of(w, x, y);
    assert forall|dx: int, dy: int|
        -1 <= dx <= 1 && -1 <= dy <= 1 && 0 <= x + dx < w && 0 <= y + dy < h implies 0
            <= #[trigger] flat_of(w, x + dx, y + dy) < w * h && flat_of(w, x + dx, y + dy) == b
            + dx + w * dy by {
        lemma_flat_inside(w, h, x + dx, y + dy);
        lemma_flat_shift(w, x, y, dx, dy);
    }
    let nf = neighbour_flats(w, h, x, y);
    if x == 0 {
        if y == 0 {
            assert(nf =~= seq![b + 1, b + w, b + w + 1]);
        } else if y == h - 1 {
            assert(nf =~= seq![b - w, b - w + 1, b + 1]);
        } else {
            assert(nf =~= seq![b - w, b - w + 1, b + 1, b + w, b + w + 1]);
        }
    } else if x == w - 1 {
        if y == 0 {
            assert(nf =~= seq![b - 1, b + w - 1, b + w]);
        } else if y == h - 1 {
            assert(nf =~= seq![b - w - 1, b - w, b - 1]);
        } else {
            assert(nf =~= seq![b - w - 1, b - w, b - 1, b + w - 1, b + w]);
        }
    } else {
        if y == 0 {
            assert(nf =~= seq![b - 1, b + 1, b + w - 1, b + w, b + w + 1]);
        } else if y == h - 1 {
            assert(nf =~= seq![b - w - 1, b - w, b - w + 1, b - 1, b + 1]);
        } else {
            assert(nf =~= seq![
                b - w - 1,
                b - w,
                b - w + 1,
                b - 1,
                b + 1,
                b + w - 1,
                b + w,
                b + w + 1,
            ]);
        }
    }
}

/// The coordinate `v + d` when it lies in `[0, bound)`.
fn shifted(v: usize, d: i8, bound: usize) -> (r: Option<usize>)
    requires
        -1 <= d <= 1,
        v < bound,
    ensures
        r matches Some(n) ==> n == v + d && n < bound,
        r is None ==> !(0 <= v + d < bound),
{
    if d < 0 {
        if v == 0 {
            None
        } else {
            Some(v - 1)
        }
    } else if d > 0 {
        if v + 1 < bound {
            Some(v + 1)
        } else {
            None
        }
    } else {
        Some(v)
    }
}

impl<const W: usize, const H: usize> View for BoardIndex<W, H> {
    type V = nat;

    closed spec fn view(&self) -> nat {
        self.flattened as nat
    }
}

impl<const W: usize, const H: usize> BoardIndex<W, H> {
    /// The cell lies inside the board.
    pub open spec fn wf(self) -> bool {
        self@ < W as int * H as int
    }

    /// The cell at column `x`, row `y`.
    pub fn from_xy(x: usize, y: usize) -> (r: Self)
        requires
            x < W,
            y < H,
            dims_fit(W, H),
        ensures
            r@ == flat_of(W as int, x as int, y as int),
            r.wf(),
    {
        proof {
            lemma_flat_inside(W as int, H as int, x as int, y as int);
        }
        BoardIndex { flattened: x + W * y }
    }

    /// The cell at flat position `n`.
    pub fn from_flat(n: usize) -> (r: Self)
        requires
            n < W as int * H as int,
        ensures
            r@ == n,
            r.wf(),
    {
        BoardIndex { flattened: n }
    }

    /// The flat position of this cell.
    pub fn flat(&self) -> (r: usize)
        ensures
            r == self@,
    {
        self.flattened
    }

    /// Column and row of this cell.
    pub fn to_xy(self) -> (r: (usize, usize))
        requires
            self.wf(),
        ensures
            r.0 == self@ % (W as nat),
            r.1 == self@ / (W as nat),
            r.0 < W,
            r.1 < H,
            self@ == flat_of(W as int, r.0 as int, r.1 as int),
    {
        proof {
            lemma_split_flat(W as int, H as int, self.flattened as int);
        }
        (self.flattened % W, self.flattened / W)
    }

    /// Every cell of the board, in row-major order.
    pub fn all_indices_within_bounds() -> (r: Vec<Self>)
        requires
            dims_fit(W, H),
        ensures
            r@.len() == W as int * H as int,
            forall|i: int| 0 <= i < r@.len() ==> (#[trigger] r@[i])@ == i && r@[i].wf(),
            forall|i: int, j: int|
                0 <= i < j < r@.len() ==> #[trigger] r@[i] != #[trigger] r@[j],
    {
        let total: usize = W * H;
        let mut r: Vec<Self> = Vec::new();
        let mut n: usize = 0;
        while n < total
            invariant
                n <= total,
                total == W as int * H as int,
                r@.len() == n,
                forall|i: int| 0 <= i < r@.len() ==> (#[trigger] r@[i])@ == i && r@[i].wf(),
            decreases total - n,
        {
            r.push(Self::from_flat(n));
            n = n + 1;
        }
        r
    }

    /// Appends the cell `dx` columns and `dy` rows away from (`x`, `y`) when
    /// it lies on the board.
    fn push_step(r: &mut Vec<Self>, x: usize, y: usize, dx: i8, dy: i8)
        requires
            x < W,
            y < H,
            dims_fit(W, H),
            -1 <= dx <= 1,
            -1 <= dy <= 1,
        ensures
            flats(final(r)@) == flats(old(r)@) + step(W as int, H as int, x as int, y as int, dx as int, dy as int),
            forall|i: int| 0 <= i < old(r)@.len() ==> final(r)@[i] == old(r)@[i],
            forall|i: int| old(r)@.len() <= i < final(r)@.len() ==> (#[trigger] final(r)@[i]).wf(),
            final(r)@.len() <= old(r)@.len() + 1,
    {
        let ghost before = r@;
        match (shifted(x, dx, W), shifted(y, dy, H)) {
            (Some(nx), Some(ny)) => {
                r.push(Self::from_xy(nx, ny));
            },
            _ => {},
        }
        assert(flats(r@) =~= flats(before) + step(W as int, H as int, x as int, y as int, dx as int, dy as int));
    }

    /// The cells around this one that lie on the board, in the order
    /// north-west, north, north-east, west, east, south-west, south,
    /// south-east.
    pub fn get_neighbouring(&self) -> (r: Vec<Self>)
        requires
            self.wf(),
            dims_fit(W, H),
        ensures
            flats(r@) == neighbour_flats(W as int, H as int, (self@ % (W as nat)) as int, (self@ / (W as nat)) as int),
            forall|i: int| 0 <= i < r@.len() ==> (#[trigger] r@[i]).wf(),
    {
        let (x, y) = self.to_xy();
        let mut r: Vec<Self> = Vec::new();
        assert(flats(r@) =~= seq![]);
        Self::push_step(&mut r, x, y, -1, -1);
        assert(flats(r@) =~= step(W as int, H as int, x as int, y as int, -1, -1));
        Self::push_step(&mut r, x, y, 0, -1);
        Self::push_step(&mut r, x, y, 1, -1);
        Self::push_step(&mut r, x, y, -1, 0);
        Self::push_step(&mut r, x, y, 1, 0);
        Self::push_step(&mut r, x, y, -1, 1);
        Self::push_step(&mut r, x, y, 0, 1);
        Self::push_step(&mut r, x, y, 1, 1);
        r
    }
}

/// A cell of the four by four board.
pub type Index4x4 = BoardIndex<4, 4>;

/// A four by four board, its cells stored in row-major order.
#[derive(Debug, Clone, Copy, PartialEq, Eq)]
pub struct Board4x4<T>([T; 16]);

/// A board of letters.
pub type RuzzleBoard = Board4x4<char>;

/// A board marking the cells already used.
pub type BoardMask = Board4x4<bool>;

/// The error of building a board from a number of cells other than sixteen.
#[derive(Debug, Clone, Copy, PartialEq, Eq)]
pub struct SizeMismatch {
    /// How many cells were given.
    pub found: usize,
}

impl<T> View for Board4x4<T> {
    type V = Seq<T>;

    closed spec fn view(&self) -> Seq<T> {
        self.0@
    }
}

impl<T: Copy> Board4x4<T> {
    /// The board holds sixteen cells.
    pub proof fn lemma_len(self)
        ensures
            self@.len() == 16,
    {
    }

    /// A copy of this board with the cell at `idx` set to `value`.
    pub fn with_at(&self, value: T, idx: Index4x4) -> (r: Self)
        requires
            idx.wf(),
        ensures
            r@ == self@.update(idx@ as int, value),
    {
        let mut arr = self.0;
        arr[idx.flat()] = value;
        Board4x4(arr)
    }

    /// The cell at `idx`.
    pub fn index_by_coordinate(&self, idx: Index4x4) -> (r: &T)
        requires
            idx.wf(),
        ensures
            *r == self@[idx@ as int],
    {
        &self.0[idx.flat()]
    }

    /// The cell at flat position `n`.
    pub fn index_by_flat(&self, n: usize) -> (r: &T)
        requires
            n < 16,
        ensures
            *r == self@[n as int],
    {
        &self.0[n]
    }
}

/// Whether bit `n` of a sixteen-bit mask, counted from the most significant
/// bit, is set.
pub open spec fn bit_from_top(u: u16, n: int) -> bool {
    (u >> ((15 - n) as u16)) & 1u16 != 0
}

impl Board4x4<bool> {
    /// The mask whose most significant bit marks the first cell and whose least
    /// significant bit marks the last one.
    pub fn from_bits(u: u16) -> (r: Self)
        ensures
            r@.len() == 16,
            forall|n: int| 0 <= n < 16 ==> #[trigger] r@[n] == bit_from_top(u, n),
    {
        let mut arr: [bool; 16] = [false; 16];
        let mut n: usize = 0;
        while n < 16
            invariant
                n <= 16,
                arr@.len() == 16,
                forall|i: int| 0 <= i < n ==> #[trigger] arr@[i] == bit_from_top(u, i),
            decreases 16 - n,
        {
            arr[n] = ((u >> (15 - n) as u16) & 1) != 0;
            n = n + 1;
        }
        Board4x4(arr)
    }
}

impl Board4x4<char> {
    /// The board whose cells are the letters of `s` in row-major order; fails
    /// unless `s` has exactly sixteen characters.
    pub fn from_letters(s: &str) -> (r: Result<Self, SizeMismatch>)
        ensures
            r matches Ok(b) ==> s@.len() == 16 && b@ == s@,
            r matches Err(e) ==> s@.len() != 16 && e.found == s@.len(),
    {
        let len = s.unicode_len();
        if len != 16 {
            return Err(SizeMismatch { found: len });
        }
        let mut arr: [char; 16] = [' '; 16];
        let mut n: usize = 0;
        while n < 16
            invariant
                n <= 16,
                arr@.len() == 16,
                s@.len() == 16,
                forall|i: int| 0 <= i < n ==> #[trigger] arr@[i] == s@[i],
            decreases 16 - n,
        {
            arr[n] = s.get_char(n);
            n = n + 1;
        }
        assert(arr@ =~= s@);
        Ok(Board4x4(arr))
    }
}

} // verus!
