use vstd::prelude::*;
use vstd::utf8::{encode_utf8, encode_utf8_decode_utf8};

verus! {

/// A wall segment from one grid point to another.
pub type Line = ((i32, i32), (i32, i32));

/// The cells, relative to the object's position, that the outline scan of
/// `lines` marks: none, since the box it scans is the single lowest corner
/// and the first cell it visits only records the sign.
pub open spec fn scanned_cells(lines: Seq<Line>) -> Seq<(i32, i32)> {
    Seq::empty()
}

/// `lines` with every endpoint moved by `(dx, dy)`.
pub open spec fn moved_outline(lines: Seq<Line>, dx: int, dy: int) -> Seq<Line> {
    lines.map_values(|l: Line| (((l.0.0 + dx) as i32, (l.0.1 + dy) as i32), ((l.1.0 + dx) as i32, (l.1.1 + dy) as i32)))
}

/// Moving an outline moves the cells it takes by the same offset.
pub proof fn lemma_scanned_cells_shift(lines: Seq<Line>, dx: int, dy: int)
    requires
        taken_space_computable(lines),
        taken_space_computable(moved_outline(lines, dx, dy)),
    ensures
        scanned_cells(moved_outline(lines, dx, dy)) == shifted(scanned_cells(lines), dx, dy),
{
    assert(shifted(scanned_cells(lines), dx, dy) =~= Seq::<(i32, i32)>::empty());
}

/// The cells an outline takes depend only on its lines, not on their order.
pub proof fn lemma_scanned_cells_order(lines: Seq<Line>, other: Seq<Line>)
    requires
        taken_space_computable(lines),
        taken_space_computable(other),
        other.to_multiset() == lines.to_multiset(),
    ensures
        scanned_cells(other) == scanned_cells(lines),
{
}

/// `true` when `v` is representable as an `i32`.
pub open spec fn in_i32(v: int) -> bool {
    i32::MIN <= v <= i32::MAX
}

pub open spec fn min_int(a: int, b: int) -> int {
    if a <= b { a } else { b }
}

/// The least x coordinate over the end points of `lines`; 0 when there are none.
pub open spec fn lowest_x(lines: Seq<Line>) -> int
    decreases lines.len(),
{
    if lines.len() == 0 {
        0
    } else if lines.len() == 1 {
        min_int(lines[0].0.0 as int, lines[0].1.0 as int)
    } else {
        let l = lines.last();
        min_int(lowest_x(lines.drop_last()), min_int(l.0.0 as int, l.1.0 as int))
    }
}

/// The least y coordinate over the end points of `lines`; 0 when there are none.
pub open spec fn lowest_y(lines: Seq<Line>) -> int
    decreases lines.len(),
{
    if lines.len() == 0 {
        0
    } else if lines.len() == 1 {
        min_int(lines[0].0.1 as int, lines[0].1.1 as int)
    } else {
        let l = lines.last();
        min_int(lowest_y(lines.drop_last()), min_int(l.0.1 as int, l.1.1 as int))
    }
}

/// The cross product of the direction of `l` with the point `(x, y)`,
/// `(x1 - x0) * y - x * (y1 - y0)`.
pub open spec fn cross(l: Line, x: int, y: int) -> int {
    (l.1.0 - l.0.0) * y - x * (l.1.1 - l.0.1)
}

/// The product of the cross products of the first `k` lines with `(x, y)`.
pub open spec fn cross_product_prefix(lines: Seq<Line>, k: int, x: int, y: int) -> int
    decreases k,
{
    if k <= 0 {
        1
    } else {
        cross_product_prefix(lines, k - 1, x, y) * cross(lines[k - 1], x, y)
    }
}

/// Every intermediate value of the cross-product scan at `(x, y)` fits an `i32`.
pub open spec fn scan_fits(lines: Seq<Line>, x: int, y: int) -> bool {
    forall|j: int| 0 <= j < lines.len() ==> {
        let l = #[trigger] lines[j];
        &&& in_i32(l.1.0 - l.0.0)
        &&& in_i32(l.1.1 - l.0.1)
        &&& in_i32((l.1.0 - l.0.0) * y)
        &&& in_i32(x * (l.1.1 - l.0.1))
        &&& in_i32(cross(l, x, y))
        &&& in_i32(cross_product_prefix(lines, j + 1, x, y))
    }
}

/// The inputs on which the taken space of a wall outline can be computed
/// without an arithmetic overflow.
pub open spec fn taken_space_computable(lines: Seq<Line>) -> bool {
    &&& lowest_x(lines) < i32::MAX
    &&& lowest_y(lines) < i32::MAX
    &&& scan_fits(lines, lowest_x(lines), lowest_y(lines))
}

/// The cells `cells` shifted by `(dx, dy)`.
pub open spec fn shifted(cells: Seq<(i32, i32)>, dx: int, dy: int) -> Seq<(i32, i32)> {
    cells.map_values(|c: (i32, i32)| ((c.0 + dx) as i32, (c.1 + dy) as i32))
}

/// Shifting moves every cell by exactly `(dx, dy)`, in place, when the moved
/// cells fit an `i32`.
pub proof fn lemma_shifted_cells(cells: Seq<(i32, i32)>, dx: int, dy: int)
    requires
        shift_fits(cells, dx, dy),
    ensures
        shifted(cells, dx, dy).len() == cells.len(),
        forall|j: int| 0 <= j < cells.len() ==> (#[trigger] shifted(cells, dx, dy)[j]).0 - cells[j].0 == dx
            && shifted(cells, dx, dy)[j].1 - cells[j].1 == dy,
{
    assert forall|j: int| 0 <= j < cells.len() implies (#[trigger] shifted(cells, dx, dy)[j]).0 - cells[j].0 == dx
        && shifted(cells, dx, dy)[j].1 - cells[j].1 == dy by {
        assert(in_i32(cells[j].0 + dx) && in_i32(cells[j].1 + dy));
    }
}

/// `true` when shifting every cell of `cells` by `(dx, dy)` stays within `i32`.
pub open spec fn shift_fits(cells: Seq<(i32, i32)>, dx: int, dy: int) -> bool {
    forall|j: int| 0 <= j < cells.len() ==> in_i32((#[trigger] cells[j]).0 + dx) && in_i32(cells[j].1 + dy)
}

/// `true` when the two strings hold the same characters, compared byte by
/// byte over their UTF-8 encodings.
fn str_equals(a: &str, b: &str) -> (r: bool)
    ensures
        r == (a@ == b@),
{
    let ab = a.as_bytes();
    let bb = b.as_bytes();
    proof {
        assert(ab@ == encode_utf8(a@));
        assert(bb@ == encode_utf8(b@));
        encode_utf8_decode_utf8(a@);
        encode_utf8_decode_utf8(b@);
    }
    if ab.len() != bb.len() {
        return false;
    }
    let mut i: usize = 0;
    while i < ab.len()
        invariant
            ab.len() == bb.len(),
            ab@ == encode_utf8(a@),
            bb@ == encode_utf8(b@),
            i <= ab.len(),
            forall|j: int| 0 <= j < i ==> ab@[j] == bb@[j],
        decreases ab.len() - i,
    {
        if ab[i] != bb[i] {
            proof {
                if a@ == b@ {
                    assert(ab@ == encode_utf8(a@));
                    assert(bb@ == encode_utf8(b@));
                    assert(ab@ == bb@);
                    assert(ab@[i as int] == bb@[i as int]);
                }
            }
            return false;
        }
        i = i + 1;
    }
    proof {
        assert(ab@ =~= bb@);
    }
    true
}

/// The solid shape of an object: its outline as wall segments, and the grid
/// cells it occupies relative to its own position.
pub struct Physical {
    taken_space: Vec<(i32, i32)>,
    lines: Vec<Line>,
}

fn sign_of(v: i32) -> (s: i32)
    ensures
        s == (if v > 0 { 1int } else if v < 0 { -1int } else { 0int }),
{
    if v > 0 {
        1
    } else if v < 0 {
        -1
    } else {
        0
    }
}

impl Physical {
    /// The occupied cells, relative to the object's position.
    pub closed spec fn taken(&self) -> Seq<(i32, i32)> {
        self.taken_space@
    }

    /// The outline segments.
    pub closed spec fn outline(&self) -> Seq<Line> {
        self.lines@
    }

    /// The number of occupied cells.
    pub fn cell_count(&self) -> (n: usize)
        ensures
            n == self.taken().len(),
    {
        self.taken_space.len()
    }

    /// An object with outline `lines`; its occupied cells are those the
    /// outline scan marks, which is none (see `generate_taken_space`).
    pub fn new(lines: Vec<Line>) -> (p: Physical)
        requires
            taken_space_computable(lines@),
        ensures
            p.taken() == scanned_cells(lines@),
            p.outline() == lines@,
    {
        let given_taken_space = Physical::generate_taken_space(&lines);
        Physical { taken_space: given_taken_space, lines }
    }

    /// Scans the bounding box of the outline row by row and keeps the cells
    /// where the sign of the product of the cross products has flipped an
    /// odd number of times. The box is taken from the least x and the least
    /// y coordinate on both of its sides, so it is the single lowest corner;
    /// the first cell only records the sign, so no cell is ever kept.
    fn generate_taken_space(lines: &Vec<Line>) -> (out: Vec<(i32, i32)>)
        requires
            taken_space_computable(lines@),
        ensures
            out@ == scanned_cells(lines@),
    {
        let mut first = true;
        let mut x_min: i32 = 0;
        let mut x_max: i32 = 0;
        let mut y_min: i32 = 0;
        let mut y_max: i32 = 0;
        let mut i: usize = 0;
        while i < lines.len()
            invariant
                i <= lines.len(),
                first <==> i == 0,
                x_min == lowest_x(lines@.take(i as int)),
                y_min == lowest_y(lines@.take(i as int)),
                x_max == x_min,
                y_max == y_min,
            decreases lines.len() - i,
        {
            let ((x0, y0), (x1, y1)) = lines[i];
            proof {
                assert(lines@.take(i + 1).drop_last() =~= lines@.take(i as int));
                assert(lines@.take(i + 1).last() == lines@[i as int]);
            }
            if first {
                x_min = if x0 < x1 { x0 } else { x1 };
                x_max = if x0 < x1 { x1 } else { x0 };
                y_min = if y0 < y1 { y0 } else { y1 };
                y_max = if y0 < y1 { y1 } else { y0 };
                first = false;
            }
            if x0 < x_min {
                x_min = x0;
            }
            if x1 < x_min {
                x_min = x1;
            }
            if x0 < x_max {
                x_max = x0;
            }
            if x1 < x_max {
                x_max = x1;
            }
            if y0 < y_min {
                y_min = y0;
            }
            if y1 < y_min {
                y_min = y1;
            }
            if y0 < y_max {
                y_max = y0;
            }
            if y1 < y_max {
                y_max = y1;
            }
            i = i + 1;
        }
        proof {
            assert(lines@.take(lines.len() as int) =~= lines@);
        }
        let mut out_taken_space: Vec<(i32, i32)> = Vec::new();
        let mut inside = false;
        let mut last_sign: i32 = 0;
        let y_end: i32 = y_max + 1;
        let x_end: i32 = x_max + 1;
        let mut y: i32 = y_min;
        while y < y_end
            invariant
                y_min <= y <= y_end,
                y_end == y_min + 1,
                x_end == x_min + 1,
                x_min == lowest_x(lines@),
                y_min == lowest_y(lines@),
                taken_space_computable(lines@),
                y == y_min ==> last_sign == 0,
                !inside,
                out_taken_space@ == Seq::<(i32, i32)>::empty(),
            decreases y_end - y,
        {
            let mut x: i32 = x_min;
            while x < x_end
                invariant
                    x_min <= x <= x_end,
                    x_end == x_min + 1,
                    y == y_min,
                    x_min == lowest_x(lines@),
                    y_min == lowest_y(lines@),
                    taken_space_computable(lines@),
                    x == x_min ==> last_sign == 0,
                    !inside,
                    out_taken_space@ == Seq::<(i32, i32)>::empty(),
                decreases x_end - x,
            {
                let mut xprodprod: i32 = 1;
                let mut j: usize = 0;
                while j < lines.len()
                    invariant
                        j <= lines.len(),
                        x == lowest_x(lines@),
                        y == lowest_y(lines@),
                        scan_fits(lines@, x as int, y as int),
                        xprodprod == cross_product_prefix(lines@, j as int, x as int, y as int),
                    decreases lines.len() - j,
                {
                    let ((x0, y0), (x1, y1)) = lines[j];
                    proof {
                        assert(lines@[j as int] == ((x0, y0), (x1, y1)));
                        assert(in_i32(cross_product_prefix(lines@, j + 1, x as int, y as int)));
                    }
                    let xl: i32 = x1 - x0;
                    let yl: i32 = y1 - y0;
                    xprodprod = xprodprod * (xl * y - x * yl);
                    j = j + 1;
                }
                if last_sign == 0 {
                    last_sign = sign_of(xprodprod);
                } else {
                    let new_sign = sign_of(xprodprod);
                    if new_sign != last_sign {
                        inside = !inside;
                    }
                    last_sign = new_sign;
                }
                if inside {
                    out_taken_space.push((x, y));
                }
                x = x + 1;
            }
            y = y + 1;
        }
        out_taken_space
    }

    /// `true` exactly when every occupied cell, placed at `pos`, has
    /// coordinates that fit an `i32`, so that [`Physical::get_taken_space`]
    /// can place them.
    pub fn can_place_at(&self, pos: (i32, i32)) -> (r: bool)
        ensures
            r == shift_fits(self.taken(), pos.0 as int, pos.1 as int),
    {
        let mut k: usize = 0;
        while k < self.taken_space.len()
            invariant
                k <= self.taken_space.len(),
                forall|j: int| 0 <= j < k ==> in_i32((#[trigger] self.taken()[j]).0 + pos.0) && in_i32(self.taken()[j].1 + pos.1),
            decreases self.taken_space.len() - k,
        {
            let (i, j) = self.taken_space[k];
            proof {
                assert(self.taken()[k as int] == (i, j));
            }
            let x: i64 = i as i64 + pos.0 as i64;
            let y: i64 = j as i64 + pos.1 as i64;
            if x < -0x8000_0000 || x > 0x7fff_ffff || y < -0x8000_0000 || y > 0x7fff_ffff {
                return false;
            }
            k = k + 1;
        }
        true
    }

    /// `true` exactly when the outline scan of `lines` computes without an
    /// arithmetic overflow, so that [`Physical::new`] accepts them.
    pub fn outline_computable(lines: &Vec<Line>) -> (r: bool)
        ensures
            r == taken_space_computable(lines@),
    {
        let mut low_x: i32 = 0;
        let mut low_y: i32 = 0;
        let mut i: usize = 0;
        while i < lines.len()
            invariant
                i <= lines.len(),
                low_x == lowest_x(lines@.take(i as int)),
                low_y == lowest_y(lines@.take(i as int)),
            decreases lines.len() - i,
        {
            let ((x0, y0), (x1, y1)) = lines[i];
            proof {
                assert(lines@.take(i + 1).drop_last() =~= lines@.take(i as int));
                assert(lines@.take(i + 1).last() == lines@[i as int]);
            }
            let mx = if x0 < x1 { x0 } else { x1 };
            let my = if y0 < y1 { y0 } else { y1 };
            if i == 0 || mx < low_x {
                low_x = mx;
            }
            if i == 0 || my < low_y {
                low_y = my;
            }
            i = i + 1;
        }
        proof {
            assert(lines@.take(lines.len() as int) =~= lines@);
        }
        if low_x == 0x7fff_ffff || low_y == 0x7fff_ffff {
            return false;
        }
        let x: i128 = low_x as i128;
        let y: i128 = low_y as i128;
        let mut prod: i128 = 1;
        let mut j: usize = 0;
        while j < lines.len()
            invariant
                j <= lines.len(),
                x == lowest_x(lines@),
                y == lowest_y(lines@),
                in_i32(x as int),
                in_i32(y as int),
                in_i32(prod as int),
                prod == cross_product_prefix(lines@, j as int, x as int, y as int),
                forall|k: int| 0 <= k < j ==> {
                    let l = #[trigger] lines@[k];
                    &&& in_i32(l.1.0 - l.0.0)
                    &&& in_i32(l.1.1 - l.0.1)
                    &&& in_i32((l.1.0 - l.0.0) * y)
                    &&& in_i32(x * (l.1.1 - l.0.1))
                    &&& in_i32(cross(l, x as int, y as int))
                    &&& in_i32(cross_product_prefix(lines@, k + 1, x as int, y as int))
                },
            decreases lines.len() - j,
        {
            let ((x0, y0), (x1, y1)) = lines[j];
            proof {
                assert(lines@[j as int] == ((x0, y0), (x1, y1)));
            }
            let xl: i128 = x1 as i128 - x0 as i128;
            let yl: i128 = y1 as i128 - y0 as i128;
            if xl < -0x8000_0000 || xl > 0x7fff_ffff || yl < -0x8000_0000 || yl > 0x7fff_ffff {
                return false;
            }
            proof {
                assert(-0x8000_0000 * 0x8000_0000 <= xl * y <= 0x8000_0000 * 0x8000_0000) by (nonlinear_arith)
                    requires -0x8000_0000 <= xl <= 0x7fff_ffff, -0x8000_0000 <= y <= 0x7fff_ffff;
                assert(-0x8000_0000 * 0x8000_0000 <= x * yl <= 0x8000_0000 * 0x8000_0000) by (nonlinear_arith)
                    requires -0x8000_0000 <= yl <= 0x7fff_ffff, -0x8000_0000 <= x <= 0x7fff_ffff;
            }
            let a: i128 = xl * y;
            let b: i128 = x * yl;
            if a < -0x8000_0000 || a > 0x7fff_ffff || b < -0x8000_0000 || b > 0x7fff_ffff {
                return false;
            }
            let c: i128 = a - b;
            if c < -0x8000_0000 || c > 0x7fff_ffff {
                return false;
            }
            proof {
                assert(-0x8000_0000 * 0x8000_0000 <= prod * c <= 0x8000_0000 * 0x8000_0000) by (nonlinear_arith)
                    requires -0x8000_0000 <= prod <= 0x7fff_ffff, -0x8000_0000 <= c <= 0x7fff_ffff;
            }
            let next: i128 = prod * c;
            if next < -0x8000_0000 || next > 0x7fff_ffff {
                return false;
            }
            prod = next;
            j = j + 1;
        }
        true
    }

    /// Replaces the outline; the occupied cells are kept.
    pub fn set_lines(&mut self, lines: Vec<Line>)
        ensures
            final(self).outline() == lines@,
            final(self).taken() == old(self).taken(),
    {
        self.lines = lines;
    }

    /// Changes the outline by the mode `mod_arg`: `"add"` and `"remove"`
    /// leave it as it is; any other mode replaces it with `lines`.
    pub fn modify_lines(&mut self, lines: Vec<Line>, mod_arg: &str)
        ensures
            final(self).outline() == (if mod_arg@ == "add"@ || mod_arg@ == "remove"@ {
                old(self).outline()
            } else {
                lines@
            }),
            final(self).taken() == old(self).taken(),
    {
        if str_equals(mod_arg, "add") {
        } else if str_equals(mod_arg, "remove") {
        } else {
            self.lines = lines;
        }
    }

    /// The occupied cells placed at grid position `pos`.
    pub fn get_taken_space(&self, pos: (i32, i32)) -> (out: Vec<(i32, i32)>)
        requires
            shift_fits(self.taken(), pos.0 as int, pos.1 as int),
        ensures
            out@ == shifted(self.taken(), pos.0 as int, pos.1 as int),
    {
        let (x, y) = pos;
        let mut out: Vec<(i32, i32)> = Vec::new();
        let mut k: usize = 0;
        while k < self.taken_space.len()
            invariant
                k <= self.taken_space.len(),
                shift_fits(self.taken(), x as int, y as int),
                out@ == shifted(self.taken().take(k as int), x as int, y as int),
            decreases self.taken_space.len() - k,
        {
            let (i, j) = self.taken_space[k];
            proof {
                assert(self.taken()[k as int] == (i, j));
            }
            out.push((i + x, j + y));
            proof {
                assert(shifted(self.taken().take(k + 1), x as int, y as int) =~= out@);
            }
            k = k + 1;
        }
        proof {
            assert(self.taken().take(self.taken_space.len() as int) =~= self.taken());
        }
        out
    }
}

} // verus!
