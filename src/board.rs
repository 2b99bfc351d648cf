//! A fixed-size two-dimensional grid stored row by row, and the row-major
//! sequence of its coordinates.

use vstd::prelude::*;
use vstd::arithmetic::div_mod::lemma_fundamental_div_mod_converse;
use vstd::arithmetic::mul::lemma_mul_strict_inequality;

verus! {

/// Slot of cell `(x, y)` in a grid `width` cells wide.
pub open spec fn slot(x: int, y: int, width: int) -> int {
    y * width + x
}

/// Every in-bounds coordinate maps to a slot below `width * height`, and the
/// slot gives the coordinate back.
pub proof fn lemma_slot_in_bounds(x: int, y: int, width: int, height: int)
    requires
        0 <= x < width,
        0 <= y < height,
    ensures
        0 <= slot(x, y, width) < width * height,
        slot(x, y, width) % width == x,
        slot(x, y, width) / width == y,
{
    assert(y * width + x < width * height) by (nonlinear_arith)
        requires
            0 <= x < width,
            0 <= y < height,
    ;
    assert(0 <= y * width) by (nonlinear_arith)
        requires
            0 <= y,
            0 < width,
    ;
    lemma_fundamental_div_mod_converse(y * width + x, width, y, x);
}

/// The coordinates of a `width` x `height` grid in row-major order: for each
/// row from the top, each column from the left.
pub open spec fn row_major(width: nat, height: nat) -> Seq<(usize, usize)> {
    Seq::new(width * height, |i: int| ((i % width as int) as usize, (i / width as int) as usize))
}

/// A rectangular grid of `width * height` cells, addressed by `(x, y)` with
/// `x < width` and `y < height`.
pub struct Board<T> {
    fields: Vec<T>,
    width: usize,
    height: usize,
}

impl<T> View for Board<T> {
    type V = Seq<T>;

    /// The cells in row-major order.
    closed spec fn view(&self) -> Seq<T> {
        self.fields@
    }
}

impl<T> Board<T> {
    pub closed spec fn spec_width(&self) -> usize {
        self.width
    }

    pub closed spec fn spec_height(&self) -> usize {
        self.height
    }

    /// Number of columns.
    #[verifier::when_used_as_spec(spec_width)]
    pub fn width(&self) -> (r: usize)
        ensures
            r == self.spec_width(),
    {
        self.width
    }

    /// Number of rows.
    #[verifier::when_used_as_spec(spec_height)]
    pub fn height(&self) -> (r: usize)
        ensures
            r == self.spec_height(),
    {
        self.height
    }

    /// The board holds exactly one cell per coordinate.
    pub open spec fn wf(&self) -> bool {
        self@.len() == self.width() * self.height()
    }

    /// The cell at `(x, y)`.
    pub open spec fn cell(&self, x: int, y: int) -> T {
        self@[slot(x, y, self.width() as int)]
    }

    pub open spec fn in_bounds(&self, x: int, y: int) -> bool {
        0 <= x < self.width() && 0 <= y < self.height()
    }

    /// Builds a board from its cells, given in row-major order.
    pub fn from_cells(width: usize, height: usize, cells: Vec<T>) -> (b: Board<T>)
        requires
            cells.len() == width * height,
        ensures
            b.wf(),
            b.width() == width,
            b.height() == height,
            b@ == cells@,
    {
        Board { fields: cells, width, height }
    }

    /// All cells, in row-major order.
    pub fn cells(&self) -> (r: &Vec<T>)
        ensures
            r@ == self@,
    {
        &self.fields
    }

    /// Exclusive access to the cell at `(x, y)`.
    pub fn at_mut(&mut self, x: usize, y: usize) -> (r: &mut T)
        requires
            old(self).wf(),
            old(self).in_bounds(x as int, y as int),
        ensures
            *r == old(self).cell(x as int, y as int),
            final(self).width() == old(self).width(),
            final(self).height() == old(self).height(),
            final(self)@ == old(self)@.update(
                slot(x as int, y as int, old(self).width() as int),
                *final(r),
            ),
    {
        let n = self.fields.len();
        proof {
            lemma_slot_in_bounds(x as int, y as int, self.width as int, self.height as int);
            assert(y * self.width + x < n);
        }
        &mut self.fields[y * self.width + x]
    }

    /// Reads the cell at `(x, y)`.
    pub fn at(&self, x: usize, y: usize) -> (r: &T)
        requires
            self.wf(),
            self.in_bounds(x as int, y as int),
        ensures
            *r == self.cell(x as int, y as int),
    {
        let n = self.fields.len();
        proof {
            lemma_slot_in_bounds(x as int, y as int, self.width as int, self.height as int);
            assert(y * self.width + x < n);
        }
        &self.fields[y * self.width + x]
    }

    /// The coordinates of this board in row-major order.
    pub fn indices(&self) -> (r: Indices2D)
        requires
            self.wf(),
        ensures
            r@ == row_major(self.width() as nat, self.height() as nat),
    {
        let n = self.fields.len();
        assert(self.width * self.height <= n);
        indices_2d(self.width, self.height)
    }
}

impl<T: Copy> Board<T> {
    /// A `width` x `height` board with every cell set to `default`.
    pub fn new(width: usize, height: usize, default: T) -> (b: Board<T>)
        requires
            width * height <= usize::MAX,
        ensures
            b.wf(),
            b.width() == width,
            b.height() == height,
            forall|i: int| 0 <= i < width * height ==> #[trigger] b@[i] == default,
    {
        let n: usize = width * height;
        let mut fields: Vec<T> = Vec::with_capacity(n);
        let mut i: usize = 0;
        while i < n
            invariant
                i <= n,
                fields.len() == i,
                forall|j: int| 0 <= j < i ==> #[trigger] fields@[j] == default,
            decreases n - i,
        {
            fields.push(default);
            i += 1;
        }
        Board { fields, width, height }
    }
}

/// Writing a value into a cell and reading the cell back gives the value, and
/// leaves every other cell as it was.
pub proof fn lemma_write_then_read<T>(b: Board<T>, x: int, y: int, v: T, after: Board<T>)
    requires
        b.wf(),
        b.in_bounds(x, y),
        after.width() == b.width(),
        after.height() == b.height(),
        after@ == b@.update(slot(x, y, b.width() as int), v),
    ensures
        after.wf(),
        after.cell(x, y) == v,
        forall|x2: int, y2: int|
            #![trigger after.cell(x2, y2)]
            b.in_bounds(x2, y2) && (x2, y2) != (x, y) ==> after.cell(x2, y2) == b.cell(x2, y2),
{
    lemma_slot_in_bounds(x, y, b.width() as int, b.height() as int);
    assert forall|x2: int, y2: int|
        #![trigger after.cell(x2, y2)]
        b.in_bounds(x2, y2) && (x2, y2) != (x, y) implies after.cell(x2, y2) == b.cell(x2, y2) by {
        lemma_slot_in_bounds(x2, y2, b.width() as int, b.height() as int);
    }
}

/// The row-major coordinate sequence of a grid holds each of its `width *
/// height` coordinates exactly once, each in bounds, and a coordinate comes
/// before another exactly when it lies in an earlier row, or earlier in the
/// same row.
pub proof fn lemma_row_major(width: nat, height: nat)
    requires
        width * height <= usize::MAX,
    ensures
        row_major(width, height).len() == width * height,
        row_major(width, height).no_duplicates(),
        forall|i: int|
            #![trigger row_major(width, height)[i]]
            0 <= i < width * height ==> {
                let (x, y) = row_major(width, height)[i];
                x < width && y < height && i == slot(x as int, y as int, width as int)
            },
        forall|x: int, y: int|
            0 <= x < width && 0 <= y < height ==> #[trigger] row_major(width, height)[slot(
                x,
                y,
                width as int,
            )] == (x as usize, y as usize),
        forall|i: int, j: int|
            0 <= i < j < width * height ==> {
                let (xi, yi) = #[trigger] row_major(width, height)[i];
                let (xj, yj) = #[trigger] row_major(width, height)[j];
                yi < yj || (yi == yj && xi < xj)
            },
{
    let s = row_major(width, height);
    let w = width as int;
    let h = height as int;
    assert forall|i: int|
        #![trigger s[i]]
        0 <= i < w * h implies {
            let (x, y) = s[i];
            x < width && y < height && i == slot(x as int, y as int, w)
        } by {
        lemma_coordinates_of_slot(i, w, h);
    }
    assert forall|x: int, y: int| 0 <= x < w && 0 <= y < h implies #[trigger] s[slot(
        x,
        y,
        w,
    )] == (x as usize, y as usize) by {
        lemma_slot_in_bounds(x, y, w, h);
    }
    assert forall|i: int, j: int| 0 <= i < j < w * h implies {
        let (xi, yi) = #[trigger] s[i];
        let (xj, yj) = #[trigger] s[j];
        yi < yj || (yi == yj && xi < xj)
    } by {
        lemma_coordinates_of_slot(i, w, h);
        lemma_coordinates_of_slot(j, w, h);
        let (xi, yi) = s[i];
        let (xj, yj) = s[j];
        if yj < yi {
            lemma_row_before(xj as int, yj as int, xi as int, yi as int, w);
        }
    }
    assert forall|i: int, j: int| 0 <= i < s.len() && 0 <= j < s.len() && i != j implies s[i]
        != s[j] by {
        lemma_coordinates_of_slot(i, w, h);
        lemma_coordinates_of_slot(j, w, h);
    }
}

/// A slot below `w * h` names the in-bounds cell `(i % w, i / w)`.
pub proof fn lemma_coordinates_of_slot(i: int, w: int, h: int)
    requires
        0 <= w,
        0 <= h,
        0 <= i < w * h,
    ensures
        0 < w,
        0 <= i % w < w,
        0 <= i / w < h,
        i == (i / w) * w + i % w,
{
    if w == 0 {
        assert(w * h == 0) by (nonlinear_arith)
            requires
                w == 0,
        ;
    }
    vstd::arithmetic::div_mod::lemma_fundamental_div_mod(i, w);
    assert(w * (i / w) == (i / w) * w) by (nonlinear_arith);
    vstd::arithmetic::div_mod::lemma_mod_bound(i, w);
    vstd::arithmetic::div_mod::lemma_div_pos_is_pos(i, w);
    if i / w >= h {
        assert((i / w) * w >= w * h) by (nonlinear_arith)
            requires
                i / w >= h,
                w > 0,
        ;
        assert(false);
    }
}

proof fn lemma_row_before(x1: int, y1: int, x2: int, y2: int, w: int)
    requires
        0 <= x1 < w,
        0 <= x2 < w,
        y1 < y2,
    ensures
        y1 * w + x1 < y2 * w + x2,
{
    assert(y1 * w + w <= y2 * w) by (nonlinear_arith)
        requires
            y1 < y2,
            0 < w,
    ;
}

/// The coordinates of a grid, handed out one at a time in row-major order.
pub struct Indices2D {
    x: usize,
    y: usize,
    x_end: usize,
    y_end: usize,
}

impl Indices2D {
    #[verifier::type_invariant]
    closed spec fn inv(self) -> bool {
        &&& self.x_end * self.y_end <= usize::MAX
        &&& self.y <= self.y_end
        &&& (self.x_end == 0 ==> self.x == 0 && self.y == self.y_end)
        &&& (self.x_end > 0 ==> self.x < self.x_end)
        &&& (self.y == self.y_end ==> self.x == 0)
    }

    /// How many coordinates have been handed out.
    closed spec fn position(self) -> int {
        slot(self.x as int, self.y as int, self.x_end as int)
    }
}

impl View for Indices2D {
    type V = Seq<(usize, usize)>;

    /// The coordinates still to come.
    closed spec fn view(&self) -> Seq<(usize, usize)> {
        row_major(self.x_end as nat, self.y_end as nat).subrange(
            self.position(),
            self.x_end * self.y_end,
        )
    }
}

impl Indices2D {
    /// Hands out the next coordinate, or `None` once all have been given.
    pub fn next(&mut self) -> (r: Option<(usize, usize)>)
        ensures
            old(self)@.len() == 0 ==> r is None && final(self)@ == old(self)@,
            old(self)@.len() > 0 ==> r == Some(old(self)@[0]) && final(self)@
                == old(self)@.drop_first(),
    {
        proof {
            use_type_invariant(&*self);
        }
        let ghost w = self.x_end as int;
        let ghost h = self.y_end as int;
        proof {
            if w > 0 && self.y < h {
                lemma_slot_in_bounds(self.x as int, self.y as int, w, h);
            }
            if w > 0 {
                assert(h * w == w * h) by (nonlinear_arith);
                assert(self.position() == w * h || self.y < h) by {
                    if self.y == h {
                        assert(self.position() == h * w);
                    }
                }
            }
        }
        if self.y == self.y_end {
            proof {
                if w > 0 {
                    assert(h * w == w * h) by (nonlinear_arith);
                }
            }
            return None;
        }
        let ret = (self.x, self.y);
        let ghost before = *self;
        proof {
            lemma_slot_in_bounds(self.x as int, self.y as int, w, h);
        }
        if self.x + 1 == self.x_end {
            *self = Indices2D { x: 0, y: self.y + 1, x_end: self.x_end, y_end: self.y_end };
        } else {
            *self = Indices2D { x: self.x + 1, y: self.y, x_end: self.x_end, y_end: self.y_end };
        }
        proof {
            assert(self.position() == before.position() + 1) by {
                if self.x == 0 {
                    assert((before.y + 1) * w == before.y * w + w) by (nonlinear_arith);
                }
            }
            if self.y < h {
                lemma_slot_in_bounds(self.x as int, self.y as int, w, h);
            } else {
                assert(self.position() == h * w);
                assert(h * w == w * h) by (nonlinear_arith);
            }
        }
        Some(ret)
    }
}

/// The coordinates of a `width` x `height` grid in row-major order.
pub fn indices_2d(width: usize, height: usize) -> (r: Indices2D)
    requires
        width * height <= usize::MAX,
    ensures
        r@ == row_major(width as nat, height as nat),
{
    if width == 0 {
        Indices2D { x: 0, y: height, x_end: width, y_end: height }
    } else {
        Indices2D { x: 0, y: 0, x_end: width, y_end: height }
    }
}

} // verus!
