//! A two-dimensional array of 32-bit samples stored in blocks that are allocated only
//! when written.
use vstd::prelude::*;
use crate::error::{Result, invalid};
use crate::image::zeroed_i32;

verus! {

/// `a` divided by `b`, rounded up.
pub open spec fn div_up(a: int, b: int) -> int {
    (a + b - 1) / b
}

/// Array of `width` by `height` samples kept in blocks of `block_width` by
/// `block_height`; a block that was never written reads as zeros.
pub struct SparseArray {
    /// Width of the array.
    pub width: u32,
    /// Height of the array.
    pub height: u32,
    /// Width of a block.
    pub block_width: u32,
    /// Height of a block.
    pub block_height: u32,
    /// Number of blocks across.
    pub block_count_hor: u32,
    /// Number of blocks down.
    pub block_count_ver: u32,
    /// The blocks, row by row; `None` for a block never written.
    pub data_blocks: Vec<Option<Vec<i32>>>,
}

/// Position in a buffer of sample `(x, y)` of a region starting at `(x0, y0)`.
pub open spec fn buf_pos(x: int, y: int, x0: int, y0: int, col_stride: int, line_stride: int) -> int {
    (y - y0) * line_stride + (x - x0) * col_stride
}

/// Whether the samples of the region `[x0, x1) x [y0, y1)` have distinct positions in a
/// buffer with these strides.
pub open spec fn positions_distinct(x0: int, y0: int, x1: int, y1: int, cs: int, ls: int) -> bool {
    forall|xa: int, ya: int, xb: int, yb: int|
        x0 <= xa < x1 && y0 <= ya < y1 && x0 <= xb < x1 && y0 <= yb < y1 && (xa != xb || ya != yb) ==> #[trigger] buf_pos(
            xa,
            ya,
            x0,
            y0,
            cs,
            ls,
        ) != #[trigger] buf_pos(xb, yb, x0, y0, cs, ls)
}

/// Whether a buffer of `len` entries holds every position of a non-empty region of
/// `w` by `h` samples.
pub open spec fn buffer_holds(len: int, w: int, h: int, cs: int, ls: int) -> bool {
    (h - 1) * ls + (w - 1) * cs < len
}

impl SparseArray {
    /// Whether the block counts cover the array, the block table has one entry per block,
    /// and every allocated block holds one sample per position.
    pub open spec fn wf(&self) -> bool {
        &&& self.width >= 1 && self.height >= 1
        &&& self.block_width >= 1 && self.block_height >= 1
        &&& self.block_width * self.block_height * 4 <= u32::MAX
        &&& self.block_count_hor == div_up(self.width as int, self.block_width as int)
        &&& self.block_count_ver == div_up(self.height as int, self.block_height as int)
        &&& self.block_count_hor * self.block_count_ver <= u32::MAX
        &&& self.data_blocks@.len() == self.block_count_hor * self.block_count_ver
        &&& forall|b: int|
            0 <= b < self.data_blocks@.len() ==> (#[trigger] self.data_blocks@[b] matches Some(v) ==> v@.len()
                == self.block_width * self.block_height)
    }

    /// Index of the block holding sample `(x, y)`.
    pub open spec fn block_of(&self, x: int, y: int) -> int {
        (y / self.block_height as int) * self.block_count_hor + x / self.block_width as int
    }

    /// Position of sample `(x, y)` in its block.
    pub open spec fn offset_of(&self, x: int, y: int) -> int {
        (y % self.block_height as int) * self.block_width + x % self.block_width as int
    }

    /// Sample `(x, y)`: its value in its block, or zero when the block was never written.
    pub open spec fn cell(&self, x: int, y: int) -> i32 {
        match self.data_blocks@[self.block_of(x, y)] {
            Some(v) => v@[self.offset_of(x, y)],
            None => 0,
        }
    }

    /// Whether `(x, y)` lies in the array.
    pub open spec fn in_array(&self, x: int, y: int) -> bool {
        0 <= x < self.width && 0 <= y < self.height
    }

    /// Whether `[x0, x1) x [y0, y1)` is a non-empty region inside the array.
    pub open spec fn region_valid(&self, x0: u32, y0: u32, x1: u32, y1: u32) -> bool {
        !(x0 >= self.width || x1 <= x0 || x1 > self.width || y0 >= self.height || y1 <= y0 || y1 > self.height)
    }

    proof fn lemma_index_bounds(&self, x: int, y: int)
        requires
            self.wf(),
            self.in_array(x, y),
        ensures
            0 <= self.block_of(x, y) < self.data_blocks@.len(),
            0 <= self.offset_of(x, y) < self.block_width * self.block_height,
            self.block_of(x, y) < u32::MAX,
    {
        let bw = self.block_width as int;
        let bh = self.block_height as int;
        let bch = self.block_count_hor as int;
        let bcv = self.block_count_ver as int;
        vstd::arithmetic::div_mod::lemma_div_pos_is_pos(x, bw);
        vstd::arithmetic::div_mod::lemma_div_pos_is_pos(y, bh);
        vstd::arithmetic::div_mod::lemma_mod_bound(x, bw);
        vstd::arithmetic::div_mod::lemma_mod_bound(y, bh);
        assert(x / bw < bch) by {
            vstd::arithmetic::div_mod::lemma_div_is_ordered(x, self.width - 1, bw);
            vstd::arithmetic::div_mod::lemma_div_is_ordered(self.width - 1, self.width + bw - 1 - 1, bw);
            assert((self.width - 1) / bw <= (self.width + bw - 1) / bw - 1) by {
                vstd::arithmetic::div_mod::lemma_div_plus_one(self.width - 1, bw);
            }
        }
        assert(y / bh < bcv) by {
            vstd::arithmetic::div_mod::lemma_div_is_ordered(y, self.height - 1, bh);
            assert((self.height - 1) / bh <= (self.height + bh - 1) / bh - 1) by {
                vstd::arithmetic::div_mod::lemma_div_plus_one(self.height - 1, bh);
            }
        }
        assert((y / bh) * bch + x / bw < bch * bcv) by (nonlinear_arith)
            requires
                0 <= y / bh < bcv,
                0 <= x / bw < bch,
        ;
        assert((y % bh) * bw + x % bw < bw * bh) by (nonlinear_arith)
            requires
                0 <= y % bh < bh,
                0 <= x % bw < bw,
        ;
        assert(0 <= (y % bh) * bw) by (nonlinear_arith)
            requires
                0 <= y % bh,
                0 <= bw,
        ;
        assert(0 <= (y / bh) * bch) by (nonlinear_arith)
            requires
                0 <= y / bh,
                0 <= bch,
        ;
    }

    proof fn lemma_index_injective(&self, xa: int, ya: int, xb: int, yb: int)
        requires
            self.wf(),
            self.in_array(xa, ya),
            self.in_array(xb, yb),
            xa != xb || ya != yb,
        ensures
            self.block_of(xa, ya) != self.block_of(xb, yb) || self.offset_of(xa, ya) != self.offset_of(xb, yb),
    {
        let bw = self.block_width as int;
        let bh = self.block_height as int;
        let bch = self.block_count_hor as int;
        self.lemma_index_bounds(xa, ya);
        self.lemma_index_bounds(xb, yb);
        assert(xa / bw < bch && xb / bw < bch) by {
            self.lemma_block_col_bound(xa);
            self.lemma_block_col_bound(xb);
        }
        if self.block_of(xa, ya) == self.block_of(xb, yb) && self.offset_of(xa, ya) == self.offset_of(xb, yb) {
            vstd::arithmetic::div_mod::lemma_mod_bound(xa, bw);
            vstd::arithmetic::div_mod::lemma_mod_bound(xb, bw);
            vstd::arithmetic::div_mod::lemma_div_pos_is_pos(xa, bw);
            vstd::arithmetic::div_mod::lemma_div_pos_is_pos(xb, bw);
            vstd::arithmetic::div_mod::lemma_div_pos_is_pos(ya, bh);
            vstd::arithmetic::div_mod::lemma_div_pos_is_pos(yb, bh);
            vstd::arithmetic::div_mod::lemma_mod_bound(ya, bh);
            vstd::arithmetic::div_mod::lemma_mod_bound(yb, bh);
            let k = self.block_of(xa, ya);
            vstd::arithmetic::div_mod::lemma_fundamental_div_mod_converse(k, bch, ya / bh, xa / bw);
            vstd::arithmetic::div_mod::lemma_fundamental_div_mod_converse(k, bch, yb / bh, xb / bw);
            let o = self.offset_of(xa, ya);
            vstd::arithmetic::div_mod::lemma_fundamental_div_mod_converse(o, bw, ya % bh, xa % bw);
            vstd::arithmetic::div_mod::lemma_fundamental_div_mod_converse(o, bw, yb % bh, xb % bw);
            vstd::arithmetic::div_mod::lemma_fundamental_div_mod(xa, bw);
            vstd::arithmetic::div_mod::lemma_fundamental_div_mod(xb, bw);
            vstd::arithmetic::div_mod::lemma_fundamental_div_mod(ya, bh);
            vstd::arithmetic::div_mod::lemma_fundamental_div_mod(yb, bh);
        }
    }

    proof fn lemma_block_col_bound(&self, x: int)
        requires
            self.wf(),
            0 <= x < self.width,
        ensures
            x / (self.block_width as int) < self.block_count_hor,
    {
        let bw = self.block_width as int;
        vstd::arithmetic::div_mod::lemma_div_is_ordered(x, self.width - 1, bw);
        vstd::arithmetic::div_mod::lemma_div_plus_one(self.width - 1, bw);
    }

    /// An array of `width` by `height` zeros in blocks of `block_width` by
    /// `block_height`, none allocated.
    pub fn new(width: u32, height: u32, block_width: u32, block_height: u32) -> (r: Self)
        requires
            width >= 1 && height >= 1 && block_width >= 1 && block_height >= 1,
            block_width * block_height * 4 <= u32::MAX,
            div_up(width as int, block_width as int) * div_up(height as int, block_height as int) <= u32::MAX,
        ensures
            r.wf(),
            r.width == width && r.height == height,
            r.block_width == block_width && r.block_height == block_height,
            forall|b: int| 0 <= b < r.data_blocks@.len() ==> #[trigger] r.data_blocks@[b] is None,
            forall|x: int, y: int| r.in_array(x, y) ==> #[trigger] r.cell(x, y) == 0,
    {
        proof {
            lemma_div_up(width as int, block_width as int);
            lemma_div_up(height as int, block_height as int);
            lemma_div_up_pos(width as int, block_width as int);
            lemma_div_up_pos(height as int, block_height as int);
            let h = div_up(width as int, block_width as int);
            let v = div_up(height as int, block_height as int);
            assert(h <= h * v && v <= h * v) by (nonlinear_arith)
                requires
                    h >= 1,
                    v >= 1,
            ;
        }
        let bch = width / block_width + if width % block_width != 0 { 1u32 } else { 0u32 };
        let bcv = height / block_height + if height % block_height != 0 { 1u32 } else { 0u32 };
        let n = bch as usize * bcv as usize;
        let mut data_blocks: Vec<Option<Vec<i32>>> = Vec::new();
        while data_blocks.len() < n
            invariant
                data_blocks@.len() <= n,
                forall|b: int| 0 <= b < data_blocks@.len() ==> #[trigger] data_blocks@[b] is None,
            decreases n - data_blocks@.len(),
        {
            data_blocks.push(None);
        }
        let r = SparseArray {
            width,
            height,
            block_width,
            block_height,
            block_count_hor: bch,
            block_count_ver: bcv,
            data_blocks,
        };
        proof {
            assert forall|x: int, y: int| r.in_array(x, y) implies #[trigger] r.cell(x, y) == 0 by {
                r.lemma_index_bounds(x, y);
            }
        }
        r
    }

    /// Width of the array.
    pub fn width(&self) -> (r: u32)
        ensures
            r == self.width,
    {
        self.width
    }

    /// Height of the array.
    pub fn height(&self) -> (r: u32)
        ensures
            r == self.height,
    {
        self.height
    }

    /// Number of blocks across.
    pub fn block_count_hor(&self) -> (r: u32)
        ensures
            r == self.block_count_hor,
    {
        self.block_count_hor
    }

    /// Number of blocks down.
    pub fn block_count_ver(&self) -> (r: u32)
        ensures
            r == self.block_count_ver,
    {
        self.block_count_ver
    }

    /// Whether `[x0, x1) x [y0, y1)` is a non-empty region inside the array.
    pub fn is_region_valid(&self, x0: u32, y0: u32, x1: u32, y1: u32) -> (r: bool)
        ensures
            r == self.region_valid(x0, y0, x1, y1),
    {
        !(x0 >= self.width || x1 <= x0 || x1 > self.width || y0 >= self.height || y1 <= y0 || y1 > self.height)
    }

    /// Block and in-block position of sample `(x, y)`.
    fn locate(&self, x: u32, y: u32) -> (r: (usize, usize))
        requires
            self.wf(),
            self.in_array(x as int, y as int),
        ensures
            r.0 == self.block_of(x as int, y as int),
            r.1 == self.offset_of(x as int, y as int),
            r.0 < self.data_blocks@.len(),
            r.1 < self.block_width * self.block_height,
    {
        proof {
            self.lemma_index_bounds(x as int, y as int);
        }
        let by = (y / self.block_height) as usize;
        let bx = (x / self.block_width) as usize;
        let oy = (y % self.block_height) as usize;
        let ox = (x % self.block_width) as usize;
        proof {
            assert(by * (self.block_count_hor as usize) <= u32::MAX) by (nonlinear_arith)
                requires
                    by * (self.block_count_hor as int) + bx < self.block_count_hor * self.block_count_ver,
                    self.block_count_hor * self.block_count_ver <= u32::MAX,
                    0 <= bx,
            ;
            assert(oy * (self.block_width as usize) <= u32::MAX) by (nonlinear_arith)
                requires
                    oy * (self.block_width as int) + ox < self.block_width * self.block_height,
                    self.block_width * self.block_height * 4 <= u32::MAX,
                    0 <= ox,
            ;
        }
        (by * self.block_count_hor as usize + bx, oy * self.block_width as usize + ox)
    }

    /// Copies the region `[x0, x1) x [y0, y1)` into `buf`, sample `(x, y)` to position
    /// `(y - y0) * line_stride + (x - x0) * col_stride`. An invalid region leaves `buf`
    /// as it was and is accepted only when `forgiving`.
    pub fn read_region(
        &self,
        x0: u32,
        y0: u32,
        x1: u32,
        y1: u32,
        buf: &mut [i32],
        col_stride: u32,
        line_stride: u32,
        forgiving: bool,
    ) -> (r: Result<()>)
        requires
            self.wf(),
            self.region_valid(x0, y0, x1, y1) ==> buffer_holds(
                old(buf)@.len() as int,
                x1 - x0,
                y1 - y0,
                col_stride as int,
                line_stride as int,
            ),
        ensures
            final(buf)@.len() == old(buf)@.len(),
            !self.region_valid(x0, y0, x1, y1) ==> (r is Ok <==> forgiving) && final(buf)@ == old(buf)@,
            self.region_valid(x0, y0, x1, y1) ==> r is Ok,
            self.region_valid(x0, y0, x1, y1) && positions_distinct(
                x0 as int,
                y0 as int,
                x1 as int,
                y1 as int,
                col_stride as int,
                line_stride as int,
            ) ==> forall|x: int, y: int|
                x0 <= x < x1 && y0 <= y < y1 ==> final(buf)@[buf_pos(
                    x,
                    y,
                    x0 as int,
                    y0 as int,
                    col_stride as int,
                    line_stride as int,
                )] == #[trigger] self.cell(x, y),
    {
        if !self.is_region_valid(x0, y0, x1, y1) {
            if forgiving {
                return Ok(());
            } else {
                return Err(invalid("region outside the sparse array"));
            }
        }
        let ghost cs = col_stride as int;
        let ghost ls = line_stride as int;
        let ghost distinct = positions_distinct(x0 as int, y0 as int, x1 as int, y1 as int, cs, ls);
        let _blen = buf.len();
        let mut y = y0;
        while y < y1
            invariant
                self.wf(),
                self.region_valid(x0, y0, x1, y1),
                buffer_holds(buf@.len() as int, x1 - x0, y1 - y0, cs, ls),
                buf@.len() == old(buf)@.len(),
                buf@.len() <= usize::MAX,
                cs == col_stride && ls == line_stride,
                distinct == positions_distinct(x0 as int, y0 as int, x1 as int, y1 as int, cs, ls),
                y0 <= y <= y1,
                distinct ==> forall|xx: int, yy: int|
                    x0 <= xx < x1 && y0 <= yy < y ==> buf@[buf_pos(xx, yy, x0 as int, y0 as int, cs, ls)]
                        == #[trigger] self.cell(xx, yy),
            decreases y1 - y,
        {
            let mut x = x0;
            while x < x1
                invariant
                    self.wf(),
                    self.region_valid(x0, y0, x1, y1),
                    buffer_holds(buf@.len() as int, x1 - x0, y1 - y0, cs, ls),
                    buf@.len() == old(buf)@.len(),
                    buf@.len() <= usize::MAX,
                    cs == col_stride && ls == line_stride,
                    distinct == positions_distinct(x0 as int, y0 as int, x1 as int, y1 as int, cs, ls),
                    y0 <= y < y1,
                    x0 <= x <= x1,
                    distinct ==> forall|xx: int, yy: int|
                        x0 <= xx < x1 && y0 <= yy < y || x0 <= xx < x && yy == y ==> buf@[buf_pos(
                            xx,
                            yy,
                            x0 as int,
                            y0 as int,
                            cs,
                            ls,
                        )] == #[trigger] self.cell(xx, yy),
                decreases x1 - x,
            {
                let pos = self.position(x, y, x0, y0, x1, y1, col_stride, line_stride, buf.len());
                let (b, off) = self.locate(x, y);
                let v = match &self.data_blocks[b] {
                    Some(blk) => blk[off],
                    None => 0,
                };
                assert(v == self.cell(x as int, y as int));
                let ghost before = buf@;
                buf[pos] = v;
                proof {
                    if distinct {
                        assert forall|xx: int, yy: int|
                            x0 <= xx < x1 && y0 <= yy < y || x0 <= xx < x + 1 && yy == y implies buf@[buf_pos(
                            xx,
                            yy,
                            x0 as int,
                            y0 as int,
                            cs,
                            ls,
                        )] == #[trigger] self.cell(xx, yy) by {
                            lemma_pos_in_range(xx, yy, x0 as int, y0 as int, x1 as int, y1 as int, cs, ls, buf@.len() as int);
                            if xx != x || yy != y {
                                assert(buf_pos(xx, yy, x0 as int, y0 as int, cs, ls) != buf_pos(
                                    x as int,
                                    y as int,
                                    x0 as int,
                                    y0 as int,
                                    cs,
                                    ls,
                                ));
                            }
                        }
                    }
                }
                x += 1;
            }
            y += 1;
        }
        Ok(())
    }

    /// Whether `other` has the dimensions and block layout of `self`.
    pub open spec fn same_shape(&self, other: &Self) -> bool {
        &&& other.width == self.width && other.height == self.height
        &&& other.block_width == self.block_width && other.block_height == self.block_height
        &&& other.block_count_hor == self.block_count_hor && other.block_count_ver == self.block_count_ver
    }

    /// Sets sample `(x, y)` to `val`, allocating its block (zeros) if it was never written.
    fn set_cell(&mut self, x: u32, y: u32, val: i32)
        requires
            old(self).wf(),
            old(self).in_array(x as int, y as int),
        ensures
            final(self).wf(),
            old(self).same_shape(&*final(self)),
            forall|xx: int, yy: int|
                old(self).in_array(xx, yy) ==> #[trigger] final(self).cell(xx, yy) == (if xx == x && yy == y {
                    val
                } else {
                    old(self).cell(xx, yy)
                }),
    {
        let (b, off) = self.locate(x, y);
        let n = self.block_width as usize * self.block_height as usize;
        let mut blk: Option<Vec<i32>> = None;
        std::mem::swap(&mut self.data_blocks[b], &mut blk);
        let mut v = match blk {
            Some(v) => v,
            None => zeroed_i32(n),
        };
        let ghost v0 = v@;
        v.set(off, val);
        self.data_blocks.set(b, Some(v));
        proof {
            assert(self.data_blocks@ == old(self).data_blocks@.update(b as int, Some(v)));
            assert forall|bb: int| 0 <= bb < self.data_blocks@.len() implies (#[trigger] self.data_blocks@[bb] matches Some(
                w,
            ) ==> w@.len() == self.block_width * self.block_height) by {
                if bb != b {
                    assert(self.data_blocks@[bb] == old(self).data_blocks@[bb]);
                }
            }
            assert forall|xx: int, yy: int| old(self).in_array(xx, yy) implies #[trigger] self.cell(xx, yy) == (if xx
                == x && yy == y {
                val
            } else {
                old(self).cell(xx, yy)
            }) by {
                old(self).lemma_index_bounds(xx, yy);
                if xx != x || yy != y {
                    old(self).lemma_index_injective(xx, yy, x as int, y as int);
                    if old(self).block_of(xx, yy) == b as int {
                        assert(self.data_blocks@[b as int] == Some(v));
                        assert(v@[old(self).offset_of(xx, yy)] == v0[old(self).offset_of(xx, yy)]);
                    }
                }
            }
        }
    }

    /// Copies `buf` into the region `[x0, x1) x [y0, y1)`, position
    /// `(y - y0) * line_stride + (x - x0) * col_stride` to sample `(x, y)`, allocating the
    /// blocks it touches. An invalid region leaves the array as it was and is accepted
    /// only when `forgiving`.
    pub fn write_region(
        &mut self,
        x0: u32,
        y0: u32,
        x1: u32,
        y1: u32,
        buf: &[i32],
        col_stride: u32,
        line_stride: u32,
        forgiving: bool,
    ) -> (r: Result<()>)
        requires
            old(self).wf(),
            old(self).region_valid(x0, y0, x1, y1) ==> buffer_holds(
                buf@.len() as int,
                x1 - x0,
                y1 - y0,
                col_stride as int,
                line_stride as int,
            ),
        ensures
            final(self).wf(),
            old(self).same_shape(&*final(self)),
            !old(self).region_valid(x0, y0, x1, y1) ==> (r is Ok <==> forgiving) && *final(self) == *old(self),
            old(self).region_valid(x0, y0, x1, y1) ==> r is Ok,
            old(self).region_valid(x0, y0, x1, y1) ==> forall|x: int, y: int|
                old(self).in_array(x, y) ==> #[trigger] final(self).cell(x, y) == (if x0 <= x < x1 && y0 <= y < y1 {
                    buf@[buf_pos(x, y, x0 as int, y0 as int, col_stride as int, line_stride as int)]
                } else {
                    old(self).cell(x, y)
                }),
    {
        if !self.is_region_valid(x0, y0, x1, y1) {
            if forgiving {
                return Ok(());
            } else {
                return Err(invalid("region outside the sparse array"));
            }
        }
        let ghost cs = col_stride as int;
        let ghost ls = line_stride as int;
        let mut y = y0;
        while y < y1
            invariant
                self.wf(),
                old(self).same_shape(&*self),
                old(self).region_valid(x0, y0, x1, y1),
                buffer_holds(buf@.len() as int, x1 - x0, y1 - y0, cs, ls),
                cs == col_stride && ls == line_stride,
                y0 <= y <= y1,
                forall|xx: int, yy: int|
                    old(self).in_array(xx, yy) ==> #[trigger] self.cell(xx, yy) == (if x0 <= xx < x1 && y0 <= yy < y {
                        buf@[buf_pos(xx, yy, x0 as int, y0 as int, cs, ls)]
                    } else {
                        old(self).cell(xx, yy)
                    }),
            decreases y1 - y,
        {
            let mut x = x0;
            while x < x1
                invariant
                    self.wf(),
                    old(self).same_shape(&*self),
                    old(self).region_valid(x0, y0, x1, y1),
                    buffer_holds(buf@.len() as int, x1 - x0, y1 - y0, cs, ls),
                    cs == col_stride && ls == line_stride,
                    y0 <= y < y1,
                    x0 <= x <= x1,
                    forall|xx: int, yy: int|
                        old(self).in_array(xx, yy) ==> #[trigger] self.cell(xx, yy) == (if x0 <= xx < x1 && y0 <= yy < y
                            || x0 <= xx < x && yy == y {
                            buf@[buf_pos(xx, yy, x0 as int, y0 as int, cs, ls)]
                        } else {
                            old(self).cell(xx, yy)
                        }),
                decreases x1 - x,
            {
                let pos = self.position(x, y, x0, y0, x1, y1, col_stride, line_stride, buf.len());
                let val = buf[pos];
                let ghost before = *self;
                self.set_cell(x, y, val);
                proof {
                    assert forall|xx: int, yy: int| old(self).in_array(xx, yy) implies #[trigger] self.cell(xx, yy) == (
                    if x0 <= xx < x1 && y0 <= yy < y || x0 <= xx < x + 1 && yy == y {
                        buf@[buf_pos(xx, yy, x0 as int, y0 as int, cs, ls)]
                    } else {
                        old(self).cell(xx, yy)
                    }) by {
                        assert(before.in_array(xx, yy));
                        assert(self.cell(xx, yy) == (if xx == x && yy == y {
                            val
                        } else {
                            before.cell(xx, yy)
                        }));
                    }
                }
                x += 1;
            }
            y += 1;
        }
        Ok(())
    }

    /// Position in the buffer of sample `(x, y)` of the region.
    fn position(
        &self,
        x: u32,
        y: u32,
        x0: u32,
        y0: u32,
        x1: u32,
        y1: u32,
        col_stride: u32,
        line_stride: u32,
        len: usize,
    ) -> (r: usize)
        requires
            x0 <= x < x1,
            y0 <= y < y1,
            buffer_holds(len as int, x1 - x0, y1 - y0, col_stride as int, line_stride as int),
        ensures
            r == buf_pos(x as int, y as int, x0 as int, y0 as int, col_stride as int, line_stride as int),
            r < len,
    {
        let dy = (y - y0) as usize;
        let dx = (x - x0) as usize;
        proof {
            assert(dy * (line_stride as int) + dx * (col_stride as int) <= (y1 - y0 - 1) * (line_stride as int) + (
            x1 - x0 - 1) * (col_stride as int)) by (nonlinear_arith)
                requires
                    0 <= dy <= y1 - y0 - 1,
                    0 <= dx <= x1 - x0 - 1,
                    0 <= line_stride,
                    0 <= col_stride,
            ;
            assert(0 <= dy * (line_stride as int)) by (nonlinear_arith)
                requires
                    0 <= dy,
                    0 <= line_stride,
            ;
            assert(0 <= dx * (col_stride as int)) by (nonlinear_arith)
                requires
                    0 <= dx,
                    0 <= col_stride,
            ;
        }
        dy * line_stride as usize + dx * col_stride as usize
    }
}

/// Reading a region back after writing it gives the written samples: when the array
/// after a write of region `[x0, x1) x [y0, y1)` from `src` holds, in that region, the
/// values of `src` at their positions (as `write_region` ensures), a read of the same
/// region into `dst` (as `read_region` ensures) puts each of those values at its position
/// in `dst`, whatever strides each side uses.
pub proof fn lemma_read_after_write(
    after: SparseArray,
    x0: u32,
    y0: u32,
    x1: u32,
    y1: u32,
    src: Seq<i32>,
    wcs: u32,
    wls: u32,
    dst: Seq<i32>,
    rcs: u32,
    rls: u32,
)
    requires
        forall|x: int, y: int|
            x0 <= x < x1 && y0 <= y < y1 ==> #[trigger] after.cell(x, y) == src[buf_pos(
                x,
                y,
                x0 as int,
                y0 as int,
                wcs as int,
                wls as int,
            )],
        forall|x: int, y: int|
            x0 <= x < x1 && y0 <= y < y1 ==> dst[buf_pos(x, y, x0 as int, y0 as int, rcs as int, rls as int)]
                == #[trigger] after.cell(x, y),
    ensures
        forall|x: int, y: int|
            x0 <= x < x1 && y0 <= y < y1 ==> #[trigger] dst[buf_pos(x, y, x0 as int, y0 as int, rcs as int, rls as int)]
                == src[buf_pos(x, y, x0 as int, y0 as int, wcs as int, wls as int)],
{
    assert forall|x: int, y: int| x0 <= x < x1 && y0 <= y < y1 implies #[trigger] dst[buf_pos(
        x,
        y,
        x0 as int,
        y0 as int,
        rcs as int,
        rls as int,
    )] == src[buf_pos(x, y, x0 as int, y0 as int, wcs as int, wls as int)] by {
        assert(after.cell(x, y) == src[buf_pos(x, y, x0 as int, y0 as int, wcs as int, wls as int)]);
    }
}

/// Reading any region after writing one: when `after` is `before` with region
/// `[wx0, wx1) x [wy0, wy1)` written from `src` (as `write_region` ensures), a read of region
/// `[rx0, rx1) x [ry0, ry1)` inside the array into `dst` (as `read_region` ensures) holds at
/// each position the value written there, where the two regions meet, and the value that
/// was there before elsewhere; on a fresh array (all zeros, as `new` ensures) that is 0 for
/// samples never written.
pub proof fn lemma_read_region_after_write_region(
    before: SparseArray,
    after: SparseArray,
    wx0: u32,
    wy0: u32,
    wx1: u32,
    wy1: u32,
    src: Seq<i32>,
    wcs: u32,
    wls: u32,
    rx0: u32,
    ry0: u32,
    rx1: u32,
    ry1: u32,
    dst: Seq<i32>,
    rcs: u32,
    rls: u32,
)
    requires
        before.region_valid(rx0, ry0, rx1, ry1),
        forall|x: int, y: int|
            before.in_array(x, y) ==> #[trigger] after.cell(x, y) == (if wx0 <= x < wx1 && wy0 <= y < wy1 {
                src[buf_pos(x, y, wx0 as int, wy0 as int, wcs as int, wls as int)]
            } else {
                before.cell(x, y)
            }),
        forall|x: int, y: int|
            rx0 <= x < rx1 && ry0 <= y < ry1 ==> dst[buf_pos(x, y, rx0 as int, ry0 as int, rcs as int, rls as int)]
                == #[trigger] after.cell(x, y),
    ensures
        forall|x: int, y: int|
            rx0 <= x < rx1 && ry0 <= y < ry1 ==> #[trigger] dst[buf_pos(
                x,
                y,
                rx0 as int,
                ry0 as int,
                rcs as int,
                rls as int,
            )] == (if wx0 <= x < wx1 && wy0 <= y < wy1 {
                src[buf_pos(x, y, wx0 as int, wy0 as int, wcs as int, wls as int)]
            } else {
                before.cell(x, y)
            }),
{
    assert forall|x: int, y: int| rx0 <= x < rx1 && ry0 <= y < ry1 implies #[trigger] dst[buf_pos(
        x,
        y,
        rx0 as int,
        ry0 as int,
        rcs as int,
        rls as int,
    )] == (if wx0 <= x < wx1 && wy0 <= y < wy1 {
        src[buf_pos(x, y, wx0 as int, wy0 as int, wcs as int, wls as int)]
    } else {
        before.cell(x, y)
    }) by {
        assert(before.in_array(x, y));
        let c = after.cell(x, y);
        assert(dst[buf_pos(x, y, rx0 as int, ry0 as int, rcs as int, rls as int)] == c);
        assert(c == (if wx0 <= x < wx1 && wy0 <= y < wy1 {
            src[buf_pos(x, y, wx0 as int, wy0 as int, wcs as int, wls as int)]
        } else {
            before.cell(x, y)
        }));
    }
}

proof fn lemma_pos_in_range(x: int, y: int, x0: int, y0: int, x1: int, y1: int, cs: int, ls: int, len: int)
    requires
        x0 <= x < x1,
        y0 <= y < y1,
        cs >= 0,
        ls >= 0,
        buffer_holds(len, x1 - x0, y1 - y0, cs, ls),
    ensures
        0 <= buf_pos(x, y, x0, y0, cs, ls) < len,
{
    assert((y - y0) * ls + (x - x0) * cs <= (y1 - y0 - 1) * ls + (x1 - x0 - 1) * cs) by (nonlinear_arith)
        requires
            0 <= y - y0 <= y1 - y0 - 1,
            0 <= x - x0 <= x1 - x0 - 1,
            0 <= ls,
            0 <= cs,
    ;
    assert(0 <= (y - y0) * ls + (x - x0) * cs) by (nonlinear_arith)
        requires
            0 <= y - y0,
            0 <= x - x0,
            0 <= ls,
            0 <= cs,
    ;
}

proof fn lemma_div_up_pos(a: int, b: int)
    requires
        a >= 1,
        b >= 1,
    ensures
        div_up(a, b) >= 1,
{
    vstd::arithmetic::div_mod::lemma_div_is_ordered(b, a + b - 1, b);
    vstd::arithmetic::div_mod::lemma_div_by_self(b);
}

proof fn lemma_div_up(a: int, b: int)
    requires
        a >= 0,
        b >= 1,
    ensures
        div_up(a, b) == a / b + (if a % b != 0 { 1int } else { 0int }),
{
    vstd::arithmetic::div_mod::lemma_fundamental_div_mod(a, b);
    vstd::arithmetic::div_mod::lemma_mod_bound(a, b);
    let q = a / b;
    let r = a % b;
    assert(a == q * b + r) by (nonlinear_arith)
        requires
            a == b * q + r,
    ;
    if r == 0 {
        assert(a + b - 1 == q * b + (b - 1));
        vstd::arithmetic::div_mod::lemma_fundamental_div_mod_converse(a + b - 1, b, q, b - 1);
    } else {
        assert(a + b - 1 == (q + 1) * b + (r - 1)) by (nonlinear_arith)
            requires
                a == q * b + r,
        ;
        vstd::arithmetic::div_mod::lemma_fundamental_div_mod_converse(a + b - 1, b, q + 1, r - 1);
    }
}

} // verus!
