use vstd::prelude::*;
use crate::canvas::{lemma_index_in_bounds, Canvas};

verus! {

/// Whether the first `rows` full rows of `pixels`, and the first `extra`
/// pixels of the row behind them, are answers of `color_at` for their places.
spec fn rendered<P, F: Fn(usize, usize) -> P>(
    color_at: F,
    pixels: Seq<P>,
    hsize: usize,
    rows: usize,
    extra: usize,
) -> bool {
    forall|x: usize, y: usize|
        (x < hsize && y < rows) || (x < extra && y == rows) ==> call_ensures(
            color_at,
            (x, y),
            #[trigger] pixels[y * hsize + x],
        )
}

/// Renders an image of `hsize` by `vsize` pixels: `color_at` is asked once for
/// each pixel, row by row from the top and from left to right within a row,
/// and what it answers for column `x` of row `y` becomes that pixel.
pub fn render<P: Copy, F: Fn(usize, usize) -> P>(hsize: usize, vsize: usize, color_at: F) -> (image:
    Canvas<P>)
    requires
        hsize * vsize <= usize::MAX,
        forall|x: usize, y: usize| x < hsize && y < vsize ==> call_requires(color_at, (x, y)),
    ensures
        image.width() == hsize,
        image.height() == vsize,
        image@.len() == hsize * vsize,
        forall|x: usize, y: usize|
            x < hsize && y < vsize ==> call_ensures(
                color_at,
                (x, y),
                #[trigger] image.pixel(x as int, y as int),
            ),
{
    let mut pixels: Vec<P> = Vec::new();
    let mut y: usize = 0;
    while y < vsize
        invariant
            y <= vsize,
            pixels.len() == y * hsize,
            forall|x: usize, y: usize| x < hsize && y < vsize ==> call_requires(color_at, (x, y)),
            rendered(color_at, pixels@, hsize, y, 0),
        decreases vsize - y,
    {
        let mut x: usize = 0;
        while x < hsize
            invariant
                x <= hsize,
                y < vsize,
                pixels.len() == y * hsize + x,
                forall|x: usize, y: usize|
                    x < hsize && y < vsize ==> call_requires(color_at, (x, y)),
                rendered(color_at, pixels@, hsize, y, x),
            decreases hsize - x,
        {
            let color = color_at(x, y);
            let ghost before = pixels@;
            pixels.push(color);
            proof {
                assert forall|i: usize, j: usize|
                    (i < hsize && j < y) || (i < x + 1 && j == y) implies call_ensures(
                    color_at,
                    (i, j),
                    #[trigger] pixels@[j * hsize + i],
                ) by {
                    if j < y {
                        lemma_index_in_bounds(i as int, j as int, hsize as int, y as int);
                        assert(hsize * y == y * hsize) by (nonlinear_arith);
                        assert(pixels@[j * hsize + i] == before[j * hsize + i]);
                    } else if i < x {
                        assert(pixels@[j * hsize + i] == before[j * hsize + i]);
                    }
                }
            }
            x = x + 1;
        }
        proof {
            assert((y + 1) * hsize == y * hsize + hsize) by (nonlinear_arith);
            assert forall|i: usize, j: usize| i < hsize && j < y + 1 implies call_ensures(
                color_at,
                (i, j),
                #[trigger] pixels@[j * hsize + i],
            ) by {
                assert((i < hsize && j < y) || (i < x && j == y));
            }
        }
        y = y + 1;
    }
    proof {
        assert(hsize * vsize == vsize * hsize) by (nonlinear_arith);
    }
    let image = Canvas::from_pixels(hsize, vsize, pixels);
    proof {
        assert forall|x: usize, y: usize| x < hsize && y < vsize implies call_ensures(
            color_at,
            (x, y),
            #[trigger] image.pixel(x as int, y as int),
        ) by {
            assert(image.pixel(x as int, y as int) == pixels@[y * hsize + x]);
        }
    }
    image
}

} // verus!
