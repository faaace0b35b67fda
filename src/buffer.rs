//! The pixel buffer and rectangular regions of it.
use vstd::prelude::*;
use vstd::arithmetic::div_mod::lemma_fundamental_div_mod_converse;

verus! {

/// The largest number of pixels an image may hold: it keeps every exact
/// sum that the statistics form within 128 bits.
pub const MAX_PIXELS: u64 = 0xffff_ffff;

/// The largest intensity of a pixel.
pub const MAX_INTENSITY: u64 = 0xffff;

/// Position of pixel `(x, y)` in a row-major buffer `w` pixels wide.
pub open spec fn cell_index(w: int, x: int, y: int) -> int {
    y * w + x
}

/// Intensity of pixel `(x, y)` of the row-major buffer `pix`, `w` pixels wide.
pub open spec fn pixel_at(pix: Seq<u16>, w: int, x: int, y: int) -> int {
    pix[cell_index(w, x, y)] as int
}

/// Row-major indexing of a `w` by `h` grid: each cell has its own index,
/// below `w * h`, from which its coordinates are recovered.
pub proof fn lemma_cell_index(w: int, h: int, x: int, y: int)
    requires
        0 <= x < w,
        0 <= y < h,
    ensures
        0 <= cell_index(w, x, y) < w * h,
        cell_index(w, x, y) % w == x,
        cell_index(w, x, y) / w == y,
{
    assert(0 <= y * w + x < w * h) by (nonlinear_arith)
        requires
            0 <= x < w,
            0 <= y < h,
    ;
    lemma_fundamental_div_mod_converse(y * w + x, w, y, x);
}

/// A dense grid of 16-bit intensities, stored row by row.
pub struct GrayImage {
    pub width: u32,
    pub height: u32,
    pub pixels: Vec<u16>,
}

impl GrayImage {
    /// The buffer holds exactly `width * height` pixels, and no more than
    /// `MAX_PIXELS`.
    pub open spec fn wf(&self) -> bool {
        &&& self.width * self.height <= MAX_PIXELS
        &&& self.pixels@.len() == self.width * self.height
    }

    /// Intensity of pixel `(x, y)`.
    pub open spec fn pixel(&self, x: int, y: int) -> int {
        pixel_at(self.pixels@, self.width as int, x, y)
    }

    /// Wraps a row-major buffer; `None` where its length is not
    /// `width * height` or the image is larger than `MAX_PIXELS`.
    pub fn from_raw(width: u32, height: u32, pixels: Vec<u16>) -> (r: Option<GrayImage>)
        ensures
            r is Some <==> (width * height <= MAX_PIXELS && pixels@.len() == width * height),
            r matches Some(img) ==> img.width == width && img.height == height && img.pixels@
                == pixels@,
    {
        assert((width as int) * (height as int) <= 0xffff_ffff * 0xffff_ffff) by (nonlinear_arith)
            requires
                width <= 0xffff_ffff,
                height <= 0xffff_ffff,
        ;
        let n: u64 = (width as u64) * (height as u64);
        if n <= MAX_PIXELS && pixels.len() as u64 == n {
            Some(GrayImage { width, height, pixels })
        } else {
            None
        }
    }

    /// The row-major buffer, handed back.
    pub fn into_raw(self) -> (r: Vec<u16>)
        ensures
            r@ == self.pixels@,
    {
        self.pixels
    }

    /// The region that covers the whole image.
    pub fn full_region(&self) -> (r: Region)
        ensures
            r == (Region { x: 0, y: 0, width: self.width, height: self.height }),
    {
        Region { x: 0, y: 0, width: self.width, height: self.height }
    }

    /// Position of pixel `(x, y)` in the buffer.
    fn index_of(&self, x: u32, y: u32) -> (i: usize)
        requires
            self.wf(),
            x < self.width,
            y < self.height,
        ensures
            i == cell_index(self.width as int, x as int, y as int),
            i < self.pixels@.len(),
    {
        proof {
            lemma_cell_index(self.width as int, self.height as int, x as int, y as int);
        }
        ((y as u64) * (self.width as u64) + (x as u64)) as usize
    }

    /// Intensity of pixel `(x, y)`.
    pub fn get_pixel(&self, x: u32, y: u32) -> (v: u16)
        requires
            self.wf(),
            x < self.width,
            y < self.height,
        ensures
            v == self.pixel(x as int, y as int),
    {
        let i = self.index_of(x, y);
        self.pixels[i]
    }

    /// Sets pixel `(x, y)` to `v`, leaving every other pixel as it was.
    pub fn put_pixel(&mut self, x: u32, y: u32, v: u16)
        requires
            old(self).wf(),
            x < old(self).width,
            y < old(self).height,
        ensures
            final(self).width == old(self).width,
            final(self).height == old(self).height,
            final(self).pixels@ == old(self).pixels@.update(
                cell_index(old(self).width as int, x as int, y as int),
                v,
            ),
    {
        let i = self.index_of(x, y);
        self.pixels.set(i, v);
    }
}

/// The two directions along which a region can be cut.
#[derive(Clone, Copy, PartialEq, Eq, Debug, Structural)]
pub enum Axis {
    /// A cut between two rows: a top part and a bottom part.
    Horizontal,
    /// A cut between two columns: a left part and a right part.
    Vertical,
}

/// A rectangle of pixels: origin `(x, y)` and extent `width` by `height`.
#[derive(Clone, Copy, PartialEq, Eq, Debug, Structural)]
pub struct Region {
    pub x: u32,
    pub y: u32,
    pub width: u32,
    pub height: u32,
}

impl Region {
    /// The region lies inside a `w` by `h` image.
    pub open spec fn within(self, w: int, h: int) -> bool {
        self.x + self.width <= w && self.y + self.height <= h
    }

    /// Pixel `(px, py)` lies in the region.
    pub open spec fn contains(self, px: int, py: int) -> bool {
        self.x <= px < self.x + self.width && self.y <= py < self.y + self.height
    }

    /// The coordinates of the region's pixels.
    pub open spec fn cells(self) -> Set<(int, int)> {
        Set::new(|c: (int, int)| self.contains(c.0, c.1))
    }

    /// Number of pixels of the region.
    pub open spec fn area(self) -> int {
        self.width * self.height
    }

    /// The region's size across a cut along `axis`: its height for a
    /// horizontal cut, its width for a vertical one.
    pub open spec fn extent(self, axis: Axis) -> int {
        match axis {
            Axis::Horizontal => self.height as int,
            Axis::Vertical => self.width as int,
        }
    }

    /// The top (or left) part of a cut at `k`: `k` rows (or columns).
    pub open spec fn first_part(self, axis: Axis, k: int) -> Region {
        match axis {
            Axis::Horizontal => Region { x: self.x, y: self.y, width: self.width, height: k as u32 },
            Axis::Vertical => Region { x: self.x, y: self.y, width: k as u32, height: self.height },
        }
    }

    /// The bottom (or right) part of a cut at `k`: the rest of the region.
    pub open spec fn second_part(self, axis: Axis, k: int) -> Region {
        match axis {
            Axis::Horizontal => Region {
                x: self.x,
                y: (self.y + k) as u32,
                width: self.width,
                height: (self.height - k) as u32,
            },
            Axis::Vertical => Region {
                x: (self.x + k) as u32,
                y: self.y,
                width: (self.width - k) as u32,
                height: self.height,
            },
        }
    }

    /// Cuts the region at `k` along `axis` into its first and second part.
    pub fn split(self, axis: Axis, k: u32) -> (r: (Region, Region))
        requires
            k <= self.extent(axis),
            self.x + self.width <= u32::MAX,
            self.y + self.height <= u32::MAX,
        ensures
            r.0 == self.first_part(axis, k as int),
            r.1 == self.second_part(axis, k as int),
    {
        match axis {
            Axis::Horizontal => (
                Region { x: self.x, y: self.y, width: self.width, height: k },
                Region { x: self.x, y: self.y + k, width: self.width, height: self.height - k },
            ),
            Axis::Vertical => (
                Region { x: self.x, y: self.y, width: k, height: self.height },
                Region { x: self.x + k, y: self.y, width: self.width - k, height: self.height },
            ),
        }
    }
}

/// A cut splits a region in two: the parts share no pixel, and together
/// they hold exactly the region's pixels.
pub proof fn lemma_cut_partitions(r: Region, axis: Axis, k: int)
    requires
        0 <= k <= r.extent(axis),
        r.x + r.width <= u32::MAX,
        r.y + r.height <= u32::MAX,
    ensures
        r.first_part(axis, k).cells().disjoint(r.second_part(axis, k).cells()),
        r.first_part(axis, k).cells() + r.second_part(axis, k).cells() == r.cells(),
{
    let a = r.first_part(axis, k);
    let b = r.second_part(axis, k);
    assert(a.cells() + b.cells() =~= r.cells());
}

/// Values of the region's pixels, row by row, in the row-major buffer `pix`
/// of an image `w` pixels wide.
pub open spec fn region_values(pix: Seq<u16>, w: int, r: Region) -> Seq<int> {
    Seq::new(
        r.area() as nat,
        |i: int| pixel_at(pix, w, r.x + i % (r.width as int), r.y + i / (r.width as int)),
    )
}

} // verus!
