use vstd::prelude::*;
use crate::color::Color;

verus! {

/// A fixed-size rectangular grid of colors, stored row-major:
/// the pixel at (x, y) lives at index `y * width + x`.
pub struct Canvas {
    pub width: usize,
    pub height: usize,
    pub data: Vec<Color>,
}

impl Canvas {
    /// A canvas is well formed when it is non-empty in both dimensions
    /// and holds exactly one color per coordinate.
    pub open spec fn wf(&self) -> bool {
        &&& 1 <= self.width
        &&& 1 <= self.height
        &&& self.data@.len() == self.width * self.height
    }

    /// The row-major index of the pixel at (x, y).
    pub open spec fn index_of(&self, x: int, y: int) -> int {
        y * self.width + x
    }

    /// Every in-range coordinate addresses a cell of the grid.
    pub proof fn lemma_index_in_range(&self, x: int, y: int)
        requires
            self.wf(),
            0 <= x < self.width,
            0 <= y < self.height,
        ensures
            0 <= self.index_of(x, y) < self.data@.len(),
    {
        assert(y * self.width + x < self.width * self.height) by (nonlinear_arith)
            requires
                0 <= x < self.width,
                0 <= y < self.height,
        ;
        assert(y * self.width >= 0) by (nonlinear_arith)
            requires
                y >= 0,
                self.width >= 0,
        ;
    }

    /// Creates a canvas of the given dimensions with every pixel black.
    pub fn new(width: usize, height: usize) -> (c: Canvas)
        requires
            1 <= width,
            1 <= height,
            width * height <= usize::MAX,
        ensures
            c.wf(),
            c.width == width,
            c.height == height,
            forall|i: int|
                0 <= i < c.data@.len() ==> c.data@[i] == (Color { r: 0, g: 0, b: 0 }),
    {
        let n: usize = width * height;
        let mut data: Vec<Color> = Vec::new();
        let mut i: usize = 0;
        while i < n
            invariant
                i <= n,
                data@.len() == i,
                forall|j: int|
                    0 <= j < data@.len() ==> data@[j] == (Color { r: 0, g: 0, b: 0 }),
            decreases n - i,
        {
            data.push(Color::black());
            i = i + 1;
        }
        Canvas { width, height, data }
    }

    /// Overwrites the pixel at the given (x, y) coordinate.
    pub fn write_pixel(&mut self, xy: (usize, usize), pixel_color: Color)
        requires
            old(self).wf(),
            xy.0 < old(self).width,
            xy.1 < old(self).height,
        ensures
            final(self).wf(),
            final(self).width == old(self).width,
            final(self).height == old(self).height,
            final(self).data@ == old(self).data@.update(
                old(self).index_of(xy.0 as int, xy.1 as int),
                pixel_color,
            ),
    {
        proof {
            self.lemma_index_in_range(xy.0 as int, xy.1 as int);
        }
        proof {
            assert(self.data.len() <= usize::MAX);
        }
        let idx: usize = xy.1 * self.width + xy.0;
        self.data.set(idx, pixel_color);
    }

    /// Reads the pixel at the given (x, y) coordinate.
    pub fn pixel_at(&self, xy: (usize, usize)) -> (c: &Color)
        requires
            self.wf(),
            xy.0 < self.width,
            xy.1 < self.height,
        ensures
            *c == self.data@[self.index_of(xy.0 as int, xy.1 as int)],
    {
        proof {
            self.lemma_index_in_range(xy.0 as int, xy.1 as int);
        }
        proof {
            assert(self.data.len() <= usize::MAX);
        }
        let idx: usize = xy.1 * self.width + xy.0;
        &self.data[idx]
    }
}

} // verus!
