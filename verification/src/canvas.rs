//! A raster of pixels.
//!
//! The canvas is generic in what a pixel is: the renderer keeps colours in
//! it, the image encoder reads quantised samples from it. Pixels are
//! addressed by column `x` and row `y`, the origin being the top left.

use vstd::prelude::*;

verus! {

/// A `width` by `height` raster, stored row after row.
#[derive(Debug)]
pub struct Canvas<T> {
    width: usize,
    height: usize,
    pixels: Vec<T>,
}

impl<T> View for Canvas<T> {
    type V = Seq<Seq<T>>;

    /// The rows of the canvas from top to bottom, each from left to right.
    open spec fn view(&self) -> Seq<Seq<T>> {
        Seq::new(
            self.spec_height(),
            |y: int| Seq::new(self.spec_width(), |x: int| self.spec_pixel(x, y)),
        )
    }
}

/// The place of pixel `(x, y)` in a row-major raster `width` wide and
/// `height` high is within the raster.
proof fn lemma_index_in_raster(x: int, y: int, width: int, height: int)
    requires
        0 <= x < width,
        0 <= y < height,
    ensures
        0 <= y * width + x < width * height,
        y * width + width <= width * height,
        width * height == height * width,
{
    assert(width * height == height * width) by (nonlinear_arith);
    assert(y * width >= 0) by (nonlinear_arith)
        requires
            y >= 0,
            width >= 0,
    ;
    assert(y * width + width <= width * height) by (nonlinear_arith)
        requires
            0 <= y < height,
            0 <= width,
    ;
}

impl<T> Canvas<T> {
    #[verifier::type_invariant]
    spec fn well_formed(&self) -> bool {
        self.pixels@.len() == self.width * self.height
    }

    /// The number of columns.
    pub closed spec fn spec_width(&self) -> nat {
        self.width as nat
    }

    /// The number of rows.
    pub closed spec fn spec_height(&self) -> nat {
        self.height as nat
    }

    /// The pixel in column `x` of row `y`.
    pub closed spec fn spec_pixel(&self, x: int, y: int) -> T {
        self.pixels@[y * self.width + x]
    }

    pub fn width(&self) -> (w: usize)
        ensures
            w == self.spec_width(),
    {
        self.width
    }

    pub fn height(&self) -> (h: usize)
        ensures
            h == self.spec_height(),
    {
        self.height
    }

    fn to_xy(&self, x: usize, y: usize) -> (at: usize)
        requires
            x < self.spec_width(),
            y < self.spec_height(),
        ensures
            at == y * self.width + x,
            at < self.pixels@.len(),
    {
        let len: usize = self.pixels.len();
        proof {
            use_type_invariant(self);
            lemma_index_in_raster(x as int, y as int, self.width as int, self.height as int);
            assert(y * self.width + x < len);
        }
        x + y * self.width
    }

    /// Sets the pixel in column `x` of row `y`; every other pixel stays.
    pub fn write_pixel(&mut self, x: usize, y: usize, color: T)
        requires
            x < old(self).spec_width(),
            y < old(self).spec_height(),
        ensures
            final(self).spec_width() == old(self).spec_width(),
            final(self).spec_height() == old(self).spec_height(),
            final(self)@ == old(self)@.update(y as int, old(self)@[y as int].update(x as int, color)),
    {
        let at: usize = self.to_xy(x, y);
        proof {
            use_type_invariant(&*self);
        }
        let ghost before = self.pixels@;
        let ghost w = self.width as int;
        let ghost h = self.height as int;
        self.pixels[at] = color;
        proof {
            let after = self.pixels@;
            let want = old(self)@.update(y as int, old(self)@[y as int].update(x as int, color));
            assert(after == before.update(at as int, color));
            assert forall|j: int| 0 <= j < h implies #[trigger] self@[j] == want[j] by {
                assert forall|i: int| 0 <= i < w implies #[trigger] self@[j][i] == want[j][i] by {
                    lemma_index_in_raster(i, j, w, h);
                    if j != y {
                        lemma_rows_apart(i, j, x as int, y as int, w);
                    }
                }
                assert(self@[j] =~= want[j]);
            }
            assert(self@ =~= want);
        }
    }
}

impl<T> Canvas<T> {
    /// Builds a canvas by asking `shade` for each pixel in turn, row after
    /// row from the top and from left to right within a row.
    pub fn render<F: Fn(usize, usize) -> T>(width: usize, height: usize, shade: F) -> (c: Self)
        requires
            width * height <= usize::MAX,
            forall|x: usize, y: usize| x < width && y < height ==> call_requires(shade, (x, y)),
        ensures
            c.spec_width() == width,
            c.spec_height() == height,
            forall|x: usize, y: usize|
                x < width && y < height ==> call_ensures(
                    shade,
                    (x, y),
                    #[trigger] c@[y as int][x as int],
                ),
    {
        let mut pixels: Vec<T> = Vec::new();
        let mut y: usize = 0;
        while y < height
            invariant
                y <= height,
                width * height <= usize::MAX,
                pixels@.len() == y * width,
                forall|x: usize, y: usize| x < width && y < height ==> call_requires(shade, (x, y)),
                forall|i: usize, j: usize|
                    i < width && j < y ==> call_ensures(
                        shade,
                        (i, j),
                        #[trigger] pixels@[j * width + i],
                    ),
            decreases height - y,
        {
            let mut x: usize = 0;
            while x < width
                invariant
                    x <= width,
                    y < height,
                    width * height <= usize::MAX,
                    pixels@.len() == y * width + x,
                    forall|x: usize, y: usize|
                        x < width && y < height ==> call_requires(shade, (x, y)),
                    forall|i: usize, j: usize|
                        i < width && (j < y || (j == y && i < x)) ==> call_ensures(
                            shade,
                            (i, j),
                            #[trigger] pixels@[j * width + i],
                        ),
                decreases width - x,
            {
                let ghost before = pixels@;
                let color: T = shade(x, y);
                pixels.push(color);
                proof {
                    assert forall|i: usize, j: usize|
                        i < width && (j < y || (j == y && i < x + 1)) implies call_ensures(
                        shade,
                        (i, j),
                        #[trigger] pixels@[j * width + i],
                    ) by {
                        if j < y {
                            lemma_index_in_raster(i as int, j as int, width as int, y as int);
                            assert(pixels@[j * width + i] == before[j * width + i]);
                        } else if i < x {
                            assert(pixels@[j * width + i] == before[j * width + i]);
                        }
                    }
                }
                x += 1;
            }
            proof {
                assert((y + 1) * width == y * width + width) by (nonlinear_arith);
            }
            y += 1;
        }
        proof {
            assert(width * height == height * width) by (nonlinear_arith);
        }
        let c = Canvas { width, height, pixels };
        proof {
            assert forall|x: usize, y: usize| x < width && y < height implies call_ensures(
                shade,
                (x, y),
                #[trigger] c@[y as int][x as int],
            ) by {
                lemma_index_in_raster(x as int, y as int, width as int, height as int);
                assert(c@[y as int][x as int] == c.pixels@[y * width + x]);
            }
        }
        c
    }
}

/// Two pixels in different rows have different places in the raster.
proof fn lemma_rows_apart(i: int, j: int, x: int, y: int, width: int)
    requires
        0 <= i < width,
        0 <= x < width,
        j != y,
    ensures
        j * width + i != y * width + x,
{
    if j < y {
        assert(j * width + width <= y * width) by (nonlinear_arith)
            requires
                j < y,
                0 <= width,
        ;
    } else {
        assert(y * width + width <= j * width) by (nonlinear_arith)
            requires
                y < j,
                0 <= width,
        ;
    }
}

impl<T: Copy + Default> Canvas<T> {
    /// A canvas with every pixel set to the default value of a pixel.
    pub fn new(width: usize, height: usize) -> (c: Self)
        requires
            width * height <= usize::MAX,
        ensures
            c.spec_width() == width,
            c.spec_height() == height,
            exists|fill: T|
                call_ensures(T::default, (), fill) && c@ == Seq::new(
                    height as nat,
                    |y: int| Seq::new(width as nat, |x: int| fill),
                ),
    {
        Self::filled(width, height, T::default())
    }
}

impl<T: Copy> Canvas<T> {
    /// A canvas with every pixel set to `fill`.
    pub fn filled(width: usize, height: usize, fill: T) -> (c: Self)
        requires
            width * height <= usize::MAX,
        ensures
            c.spec_width() == width,
            c.spec_height() == height,
            c@ == Seq::new(height as nat, |y: int| Seq::new(width as nat, |x: int| fill)),
    {
        let n: usize = width * height;
        let mut pixels: Vec<T> = Vec::new();
        let mut k: usize = 0;
        while k < n
            invariant
                k <= n,
                pixels@.len() == k,
                forall|j: int| 0 <= j < k ==> pixels@[j] == fill,
            decreases n - k,
        {
            pixels.push(fill);
            k += 1;
        }
        let c = Canvas { width, height, pixels };
        proof {
            let want = Seq::new(height as nat, |y: int| Seq::new(width as nat, |x: int| fill));
            assert forall|y: int| 0 <= y < height implies #[trigger] c@[y] == want[y] by {
                assert forall|x: int| 0 <= x < width implies #[trigger] c@[y][x] == want[y][x] by {
                    lemma_index_in_raster(x, y, width as int, height as int);
                }
                assert(c@[y] =~= want[y]);
            }
            assert(c@ =~= want);
        }
        c
    }

    /// The pixel in column `x` of row `y`.
    pub fn pixel_at(&self, x: usize, y: usize) -> (color: T)
        requires
            x < self.spec_width(),
            y < self.spec_height(),
        ensures
            color == self@[y as int][x as int],
    {
        let at: usize = self.to_xy(x, y);
        self.pixels[at]
    }
}

impl<T: Copy> Clone for Canvas<T> {
    fn clone(&self) -> (c: Self)
        ensures
            c.spec_width() == self.spec_width(),
            c.spec_height() == self.spec_height(),
            c@ == self@,
    {
        proof {
            use_type_invariant(self);
        }
        let mut pixels: Vec<T> = Vec::new();
        let mut k: usize = 0;
        while k < self.pixels.len()
            invariant
                k <= self.pixels@.len(),
                pixels@ == self.pixels@.take(k as int),
            decreases self.pixels@.len() - k,
        {
            pixels.push(self.pixels[k]);
            k += 1;
            assert(pixels@ == self.pixels@.take(k as int));
        }
        assert(self.pixels@.take(k as int) == self.pixels@);
        let c = Canvas { width: self.width, height: self.height, pixels };
        proof {
            assert forall|y: int| 0 <= y < self.height implies #[trigger] c@[y] == self@[y] by {
                assert(c@[y] =~= self@[y]);
            }
            assert(c@ =~= self@);
        }
        c
    }
}

} // verus!
