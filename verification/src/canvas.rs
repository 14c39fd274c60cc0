use vstd::prelude::*;
use crate::color::Rgb;
use crate::ppm::lines::{lemma_lines_are_short, lines_shorter_than};
use crate::ppm::reading::{lemma_numbers_are_kept, numbers};
use crate::ppm::{encode, ppm_text, samples, LINE_LIMIT, MAX_SAMPLE};

verus! {

/// A rectangular grid of pixels, stored row by row from the top.
///
/// The pixel type is left to the caller: a canvas only stores and hands back
/// what is written to it.
pub struct Canvas<P> {
    width: usize,
    height: usize,
    pixels: Vec<P>,
}

impl<P> View for Canvas<P> {
    type V = Seq<P>;

    /// The pixels in row-major order: all of the top row, then the next.
    closed spec fn view(&self) -> Seq<P> {
        self.pixels@
    }
}

impl<P> Canvas<P> {
    #[verifier::type_invariant]
    spec fn well_formed(self) -> bool {
        self.pixels@.len() == self.width * self.height
    }

    /// Number of pixel columns.
    pub closed spec fn spec_width(&self) -> usize {
        self.width
    }

    /// Number of pixel rows.
    pub closed spec fn spec_height(&self) -> usize {
        self.height
    }

    /// The pixel in column `x` of row `y`.
    pub open spec fn pixel(&self, x: int, y: int) -> P {
        self@[y * self.spec_width() + x]
    }

    /// Whether column `x` of row `y` lies on the canvas.
    pub open spec fn contains(&self, x: int, y: int) -> bool {
        0 <= x < self.spec_width() && 0 <= y < self.spec_height()
    }

    /// The pixel that shows a point which lies `right` of the canvas' left
    /// edge and `up` from its bottom edge, both in pixels: its column and its
    /// row, counted from the top. There is none where the point lies off the
    /// canvas.
    pub fn locate(&self, right: i32, up: i32) -> (place: Option<(usize, usize)>)
        ensures
            match place {
                Some((x, y)) => x == right && y == self.height() - up && self.contains(
                    x as int,
                    y as int,
                ),
                None => !self.contains(right as int, self.height() - up),
            },
    {
        if right < 0 || up <= 0 {
            return None;
        }
        let x: usize = right as usize;
        let above: usize = up as usize;
        if x < self.width && above <= self.height {
            Some((x, self.height - above))
        } else {
            None
        }
    }

    /// A canvas over pixels that are already in row-major order.
    pub(crate) fn from_pixels(width: usize, height: usize, pixels: Vec<P>) -> (canvas: Canvas<P>)
        requires
            pixels.len() == width * height,
        ensures
            canvas.width() == width,
            canvas.height() == height,
            canvas@ == pixels@,
    {
        Canvas { width, height, pixels }
    }

    /// Number of pixel columns.
    #[verifier::when_used_as_spec(spec_width)]
    pub fn width(&self) -> (w: usize)
        ensures
            w == self.spec_width(),
            self@.len() == self.spec_width() * self.spec_height(),
    {
        proof {
            use_type_invariant(self);
        }
        self.width
    }

    /// Number of pixel rows.
    #[verifier::when_used_as_spec(spec_height)]
    pub fn height(&self) -> (h: usize)
        ensures
            h == self.spec_height(),
            self@.len() == self.spec_width() * self.spec_height(),
    {
        proof {
            use_type_invariant(self);
        }
        self.height
    }
}

/// A cell inside a `width` by `height` grid has a row-major index inside it.
pub proof fn lemma_index_in_bounds(x: int, y: int, width: int, height: int)
    requires
        0 <= x < width,
        0 <= y < height,
    ensures
        0 <= y * width + x < width * height,
{
    assert(y * width >= 0) by (nonlinear_arith)
        requires
            y >= 0,
            width >= 0,
    ;
    assert((y + 1) * width <= height * width) by (nonlinear_arith)
        requires
            y + 1 <= height,
            width >= 0,
    ;
    assert((y + 1) * width == y * width + width) by (nonlinear_arith);
    assert(height * width == width * height) by (nonlinear_arith);
}

impl<P: Copy> Canvas<P> {
    /// A canvas of `width` columns and `height` rows with every pixel set to
    /// `background`.
    pub fn new(width: usize, height: usize, background: P) -> (canvas: Canvas<P>)
        requires
            width * height <= usize::MAX,
        ensures
            canvas.width() == width,
            canvas.height() == height,
            canvas@ == Seq::new((width * height) as nat, |i: int| background),
    {
        let count: usize = width * height;
        let mut pixels: Vec<P> = Vec::new();
        while pixels.len() < count
            invariant
                pixels.len() <= count,
                pixels@ == Seq::new(pixels.len() as nat, |i: int| background),
            decreases count - pixels.len(),
        {
            pixels.push(background);
        }
        Canvas { width, height, pixels }
    }

    /// Sets the pixel in column `x` of row `y`, and no other.
    pub fn write_pixel(&mut self, x: usize, y: usize, color: P)
        requires
            old(self).contains(x as int, y as int),
        ensures
            final(self).width() == old(self).width(),
            final(self).height() == old(self).height(),
            final(self)@ == old(self)@.update(y * old(self).width() + x, color),
            final(self).pixel(x as int, y as int) == color,
    {
        proof {
            use_type_invariant(&*self);
            lemma_index_in_bounds(x as int, y as int, self.width as int, self.height as int);
            assert(self.pixels@.len() == self.pixels.len());
        }
        let index: usize = y * self.width + x;
        self.pixels[index] = color;
    }

    /// The pixel in column `x` of row `y`.
    pub fn pixel_at(&self, x: usize, y: usize) -> (color: P)
        requires
            self.contains(x as int, y as int),
        ensures
            color == self.pixel(x as int, y as int),
    {
        proof {
            use_type_invariant(self);
            lemma_index_in_bounds(x as int, y as int, self.width as int, self.height as int);
            assert(self.pixels@.len() == self.pixels.len());
        }
        self.pixels[y * self.width + x]
    }
}

impl Canvas<Rgb> {
    /// The image as plain-text PPM: the header, then the pixels row by row
    /// from the top, each channel limited to the range from 0 to 255, and no
    /// line of pixel data as long as 70 characters.
    pub fn to_ppm(&self) -> (text: String)
        ensures
            text@ == ppm_text(self.width() as nat, self.height() as nat, self@),
            lines_shorter_than(text@, LINE_LIMIT as int),
            text@.last() == '\n',
            numbers(text@, None) == seq![
                3int,
                self.width() as int,
                self.height() as int,
                MAX_SAMPLE as int,
            ] + samples(self@),
    {
        proof {
            use_type_invariant(self);
            lemma_lines_are_short(self.width as nat, self.height as nat, self.pixels@);
            lemma_numbers_are_kept(self.width as nat, self.height as nat, self.pixels@);
        }
        encode(self.width, self.height, &self.pixels)
    }
}

} // verus!
