use vstd::prelude::*;

verus! {

/// One RGBA8 pixel.
#[derive(Clone, Copy, Debug, PartialEq, Eq, Structural)]
pub struct Rgba {
    pub r: u8,
    pub g: u8,
    pub b: u8,
    pub a: u8,
}

impl Rgba {
    pub fn new(r: u8, g: u8, b: u8, a: u8) -> (p: Rgba)
        ensures
            p == (Rgba { r, g, b, a }),
    {
        Rgba { r, g, b, a }
    }
}

/// A pixel paired with a precomputed context value (a selection property or a sort key).
#[derive(Clone, Copy, Debug, PartialEq, Eq, Structural)]
pub struct PixelWithContext {
    pub pixel: Rgba,
    pub context: u32,
}

impl PixelWithContext {
    pub fn new(pixel: Rgba, context: u32) -> (p: PixelWithContext)
        ensures
            p == (PixelWithContext { pixel, context }),
    {
        PixelWithContext { pixel, context }
    }
}

/// The contents of a vector of rows, as a sequence of sequences.
pub open spec fn grid_of<T>(rows: Seq<Vec<T>>) -> Seq<Seq<T>> {
    rows.map_values(|r: Vec<T>| r@)
}

/// `g` has `height` rows of `width` cells each.
pub open spec fn is_grid<T>(g: Seq<Seq<T>>, width: int, height: int) -> bool {
    &&& g.len() == height
    &&& forall|y: int| 0 <= y < height ==> (#[trigger] g[y]).len() == width
}

/// The index of cell `(x, y)` in a row-major layout `width` cells wide.
pub open spec fn flat_index(width: int, x: int, y: int) -> int {
    y * width + x
}

/// The pixel whose four channels start at byte `4 * i` of an RGBA8 sample buffer.
pub open spec fn sample_pixel(samples: Seq<u8>, i: int) -> Rgba {
    Rgba {
        r: samples[4 * i],
        g: samples[4 * i + 1],
        b: samples[4 * i + 2],
        a: samples[4 * i + 3],
    }
}

/// The pixels of a row-major RGBA8 sample buffer of `width` x `height` pixels, as rows.
pub open spec fn samples_grid(samples: Seq<u8>, width: int, height: int) -> Seq<Seq<Rgba>> {
    Seq::new(
        height as nat,
        |y: int| Seq::new(width as nat, |x: int| sample_pixel(samples, flat_index(width, x, y))),
    )
}

proof fn lemma_flat_index_bounds(width: int, height: int, x: int, y: int)
    requires
        0 <= x < width,
        0 <= y < height,
    ensures
        0 <= flat_index(width, x, y) < width * height,
        flat_index(width, x, y) + 1 <= (y + 1) * width,
        (y + 1) * width == flat_index(width, 0, y) + width,
{
    assert(0 <= y * width + x < width * height) by (nonlinear_arith)
        requires
            0 <= x < width,
            0 <= y < height,
    ;
    assert((y + 1) * width == y * width + width) by (nonlinear_arith);
}

proof fn lemma_flat_index_earlier_row(width: int, x: int, y: int, row: int)
    requires
        0 <= x < width,
        0 <= y < row,
    ensures
        flat_index(width, x, y) < flat_index(width, 0, row),
{
    assert(y * width + x < row * width) by (nonlinear_arith)
        requires
            0 <= x < width,
            0 <= y < row,
    ;
}

/// An owned RGBA8 image, split into rows of pixels.
pub struct PixelBuffer {
    pub width: usize,
    pub height: usize,
    pub rows: Vec<Vec<Rgba>>,
}

impl PixelBuffer {
    /// `height` rows of `width` pixels each.
    pub open spec fn wf(&self) -> bool {
        is_grid(grid_of(self.rows@), self.width as int, self.height as int)
    }

    /// The pixels, row by row.
    pub open spec fn pixels(&self) -> Seq<Seq<Rgba>> {
        grid_of(self.rows@)
    }

    /// Reads a row-major RGBA8 sample buffer (four bytes per pixel, no padding).
    /// Gives `None` exactly when the buffer does not hold `width * height` pixels.
    pub fn from_samples(width: usize, height: usize, samples: &Vec<u8>) -> (r: Option<PixelBuffer>)
        ensures
            r is Some <==> samples@.len() == 4 * width * height,
            r matches Some(b) ==> {
                &&& b.wf()
                &&& b.width == width
                &&& b.height == height
                &&& b.pixels() == samples_grid(samples@, width as int, height as int)
            },
    {
        let sample_count = samples.len();
        let pixel_count = match width.checked_mul(height) {
            Some(n) => n,
            None => {
                proof {
                    let wh = width as int * height as int;
                    assert(4 * width * height >= wh) by (nonlinear_arith)
                        requires
                            wh == width as int * height as int,
                            width >= 0,
                            height >= 0,
                    ;
                    assert(samples@.len() == sample_count);
                }
                return None;
            },
        };
        proof {
            assert(4 * width * height == pixel_count * 4) by (nonlinear_arith)
                requires
                    pixel_count == width * height,
            ;
        }
        let byte_count = match pixel_count.checked_mul(4) {
            Some(n) => n,
            None => {
                assert(samples@.len() == sample_count);
                return None;
            },
        };
        if byte_count != sample_count {
            return None;
        }
        let ghost expected = samples_grid(samples@, width as int, height as int);
        let mut rows: Vec<Vec<Rgba>> = Vec::new();
        let mut i: usize = 0;
        let mut y: usize = 0;
        while y < height
            invariant
                samples@.len() == 4 * (width * height),
                samples@.len() == sample_count,
                expected == samples_grid(samples@, width as int, height as int),
                y <= height,
                i == flat_index(width as int, 0, y as int),
                rows@.len() == y,
                forall|k: int| 0 <= k < y ==> (#[trigger] rows@[k])@ == expected[k],
            decreases height - y,
        {
            let mut row: Vec<Rgba> = Vec::new();
            let mut x: usize = 0;
            while x < width
                invariant
                    samples@.len() == 4 * (width * height),
                    samples@.len() == sample_count,
                    expected == samples_grid(samples@, width as int, height as int),
                    y < height,
                    x <= width,
                    i == flat_index(width as int, x as int, y as int),
                    row@.len() == x,
                    forall|k: int| 0 <= k < x ==> row@[k] == expected[y as int][k],
                decreases width - x,
            {
                proof {
                    lemma_flat_index_bounds(width as int, height as int, x as int, y as int);
                    assert(4 * i + 3 < samples@.len());
                }
                row.push(
                    Rgba {
                        r: samples[4 * i],
                        g: samples[4 * i + 1],
                        b: samples[4 * i + 2],
                        a: samples[4 * i + 3],
                    },
                );
                i = i + 1;
                x = x + 1;
            }
            proof {
                assert((y + 1) * width == y * width + width) by (nonlinear_arith);
            }
            assert(row@ =~= expected[y as int]);
            rows.push(row);
            y = y + 1;
        }
        assert(grid_of(rows@) =~= expected);
        Some(PixelBuffer { width, height, rows })
    }

    /// Writes the pixels as a row-major RGBA8 sample buffer (four bytes per pixel, no padding).
    pub fn to_samples(&self) -> (r: Vec<u8>)
        requires
            self.wf(),
        ensures
            r@.len() == 4 * self.width * self.height,
            samples_grid(r@, self.width as int, self.height as int) == self.pixels(),
    {
        let width = self.width;
        let height = self.height;
        let ghost g = self.pixels();
        let mut out: Vec<u8> = Vec::new();
        let ghost mut i: int = 0;
        let mut y: usize = 0;
        while y < height
            invariant
                self.wf(),
                width == self.width,
                height == self.height,
                g == self.pixels(),
                y <= height,
                i == flat_index(width as int, 0, y as int),
                out@.len() == 4 * i,
                forall|yy: int, xx: int|
                    0 <= yy < y && 0 <= xx < width ==> #[trigger] sample_pixel(
                        out@,
                        flat_index(width as int, xx, yy),
                    ) == g[yy][xx],
            decreases height - y,
        {
            let row = &self.rows[y];
            assert(row@ == g[y as int]);
            let mut x: usize = 0;
            while x < width
                invariant
                    self.wf(),
                    width == self.width,
                    height == self.height,
                    g == self.pixels(),
                    row@ == g[y as int],
                    y < height,
                    x <= width,
                    i == flat_index(width as int, x as int, y as int),
                    out@.len() == 4 * i,
                    forall|yy: int, xx: int|
                        0 <= yy < y && 0 <= xx < width ==> #[trigger] sample_pixel(
                            out@,
                            flat_index(width as int, xx, yy),
                        ) == g[yy][xx],
                    forall|xx: int|
                        0 <= xx < x ==> #[trigger] sample_pixel(
                            out@,
                            flat_index(width as int, xx, y as int),
                        ) == g[y as int][xx],
                decreases width - x,
            {
                let p = row[x];
                let ghost before = out@;
                out.push(p.r);
                out.push(p.g);
                out.push(p.b);
                out.push(p.a);
                proof {
                    assert forall|yy: int, xx: int|
                        0 <= yy < y && 0 <= xx < width implies #[trigger] sample_pixel(
                            out@,
                            flat_index(width as int, xx, yy),
                        ) == g[yy][xx] by {
                        lemma_flat_index_earlier_row(width as int, xx, yy, y as int);
                        assert(sample_pixel(out@, flat_index(width as int, xx, yy)) == sample_pixel(
                            before,
                            flat_index(width as int, xx, yy),
                        ));
                    }
                    assert forall|xx: int| 0 <= xx < x + 1 implies #[trigger] sample_pixel(
                        out@,
                        flat_index(width as int, xx, y as int),
                    ) == g[y as int][xx] by {
                        if xx < x {
                            assert(sample_pixel(out@, flat_index(width as int, xx, y as int))
                                == sample_pixel(before, flat_index(width as int, xx, y as int)));
                        }
                    }
                    i = i + 1;
                }
                x = x + 1;
            }
            proof {
                assert((y + 1) * width == y * width + width) by (nonlinear_arith);
            }
            y = y + 1;
        }
        proof {
            assert(4 * i == 4 * width * height) by (nonlinear_arith)
                requires
                    i == height * width,
            ;
            let s = samples_grid(out@, width as int, height as int);
            assert forall|yy: int| 0 <= yy < height implies s[yy] =~= g[yy] by {}
            assert(s =~= g);
        }
        out
    }

    /// The pixel in column `x` of row `y`.
    pub fn pixel(&self, x: usize, y: usize) -> (p: Rgba)
        requires
            self.wf(),
            x < self.width,
            y < self.height,
        ensures
            p == self.pixels()[y as int][x as int],
    {
        assert(self.pixels()[y as int] == self.rows@[y as int]@);
        self.rows[y][x]
    }
}

} // verus!
