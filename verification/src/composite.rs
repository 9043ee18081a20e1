//! The double-width composite (color left, grayscale right), its split into the
//! two fragments that are handed out, and its reconstruction from them.
use vstd::prelude::*;

use crate::arith::{
    lemma_index_compose, lemma_index_decompose, lemma_index_in_bounds, lemma_index_order,
    lemma_next_row, lemma_product_bounds,
};
use crate::raster::{pixel_byte, Raster, RasterModel};

verus! {

/// Channel `c` of pixel `(x, y)` of the composite built from `orig` and the
/// per-pixel gray levels `gray`: the left half is `orig`, the right half is
/// `orig` with its color channels replaced by the gray level and its alpha kept.
pub open spec fn composite_channel(orig: RasterModel, gray: Seq<u8>, x: int, y: int, c: int) -> u8 {
    if x < orig.width {
        orig.channel(x, y, c)
    } else if c < 3 {
        gray[y * orig.width + (x - orig.width)]
    } else {
        orig.channel(x - orig.width, y, 3)
    }
}

/// Channel `c` of pixel `(x, y)` of the image that puts `left` and `right` side by side.
pub open spec fn side_by_side_channel(left: RasterModel, right: RasterModel, x: int, y: int, c: int) -> u8 {
    if x < left.width {
        left.channel(x, y, c)
    } else {
        right.channel(x - left.width, y, c)
    }
}

/// `out` is the composite of `orig` and its per-pixel gray levels `gray`.
pub open spec fn is_composite_of(orig: RasterModel, gray: Seq<u8>, out: RasterModel) -> bool {
    &&& out.wf()
    &&& out.width == orig.width * 2
    &&& out.height == orig.height
    &&& forall|x: int, y: int, c: int|
        0 <= x < out.width && 0 <= y < out.height && 0 <= c < 4 ==> #[trigger] out.channel(x, y, c)
            == composite_channel(orig, gray, x, y, c)
}

/// `left` and `right` are the two halves of `composite`, each `composite.width / 2` wide.
pub open spec fn is_split_of(composite: RasterModel, left: RasterModel, right: RasterModel) -> bool {
    &&& left.wf()
    &&& right.wf()
    &&& left.width == composite.width / 2
    &&& right.width == composite.width / 2
    &&& left.height == composite.height
    &&& right.height == composite.height
    &&& forall|x: int, y: int, c: int|
        0 <= x < composite.width / 2 && 0 <= y < composite.height && 0 <= c < 4 ==> {
            &&& #[trigger] left.channel(x, y, c) == composite.channel(x, y, c)
            &&& right.channel(x, y, c) == composite.channel(x + composite.width / 2, y, c)
        }
}

/// `out` puts `left` and `right` (of the same size) side by side.
pub open spec fn is_side_by_side(left: RasterModel, right: RasterModel, out: RasterModel) -> bool {
    &&& out.wf()
    &&& out.width == left.width * 2
    &&& out.height == left.height
    &&& forall|x: int, y: int, c: int|
        0 <= x < out.width && 0 <= y < out.height && 0 <= c < 4 ==> #[trigger] out.channel(x, y, c)
            == side_by_side_channel(left, right, x, y, c)
}

/// The image of size `w` by `h` whose channel `c` at `(x, y)` is `f(x, y, c)`.
pub open spec fn channels_model(w: u32, h: u32, f: spec_fn(int, int, int) -> u8) -> RasterModel {
    RasterModel {
        width: w,
        height: h,
        data: Seq::new(
            (w as int * h as int * 4) as nat,
            |i: int| f((i / 4) % (w as int), (i / 4) / (w as int), i % 4),
        ),
    }
}

pub proof fn lemma_channels_model(w: u32, h: u32, f: spec_fn(int, int, int) -> u8)
    ensures
        channels_model(w, h, f).wf(),
        forall|x: int, y: int, c: int|
            0 <= x < w && 0 <= y < h && 0 <= c < 4 ==> #[trigger] channels_model(w, h, f).channel(
                x,
                y,
                c,
            ) == f(x, y, c),
{
    lemma_product_bounds(w as int, h as int);
    assert forall|x: int, y: int, c: int|
        0 <= x < w && 0 <= y < h && 0 <= c < 4 implies #[trigger] channels_model(w, h, f).channel(
        x,
        y,
        c,
    ) == f(x, y, c) by {
        lemma_index_in_bounds(x, y, w as int, h as int);
        lemma_index_compose(x, y, c, w as int);
    }
}

/// The composite of `orig` and its gray levels, as a model.
pub open spec fn composite_model(orig: RasterModel, gray: Seq<u8>) -> RasterModel {
    channels_model(
        (orig.width * 2) as u32,
        orig.height,
        |x: int, y: int, c: int| composite_channel(orig, gray, x, y, c),
    )
}

/// The image that puts `left` and `right` side by side, as a model.
pub open spec fn side_by_side_model(left: RasterModel, right: RasterModel) -> RasterModel {
    channels_model(
        (left.width * 2) as u32,
        left.height,
        |x: int, y: int, c: int| side_by_side_channel(left, right, x, y, c),
    )
}

/// Two well-formed models of the same size with the same channels are the same model.
pub proof fn lemma_model_ext(a: RasterModel, b: RasterModel)
    requires
        a.wf(),
        b.wf(),
        a.width == b.width,
        a.height == b.height,
        forall|x: int, y: int, c: int|
            0 <= x < a.width && 0 <= y < a.height && 0 <= c < 4 ==> #[trigger] a.channel(x, y, c)
                == b.channel(x, y, c),
    ensures
        a == b,
{
    assert forall|i: int| 0 <= i < a.data.len() implies a.data[i] == b.data[i] by {
        let (x, y, c) = lemma_index_decompose(i, a.width as int, a.height as int);
        assert(a.channel(x, y, c) == b.channel(x, y, c));
    }
    assert(a.data =~= b.data);
}

/// The composite of an image and its gray levels: twice as wide, the image on
/// the left and, on the right, each pixel's gray level in the three color
/// channels with the pixel's own alpha. `gray` holds one level per pixel, row by row.
pub fn build_composite_image(original: &Raster, gray: &[u8]) -> (composite: Raster)
    requires
        gray@.len() == original@.pixel_count(),
        original@.width as int * 2 <= u32::MAX,
        original@.width as int * 2 * original@.height as int * 4 <= usize::MAX,
    ensures
        is_composite_of(original@, gray@, composite@),
        composite@ == composite_model(original@, gray@),
{
    let w: u32 = original.width();
    let h: u32 = original.height();
    let cw: u32 = w * 2;
    let ghost orig = original@;
    let glen: usize = gray.len();
    let mut data: Vec<u8> = Vec::new();
    let mut y: u32 = 0;
    while y < h
        invariant
            orig == original@,
            orig.wf(),
            w == orig.width,
            h == orig.height,
            cw == w * 2,
            gray@.len() == orig.pixel_count(),
            glen == gray@.len(),
            y <= h,
            data@.len() == y as int * cw as int * 4,
            forall|yy: int, xx: int, c: int|
                0 <= yy < y && 0 <= xx < cw && 0 <= c < 4 ==> #[trigger] pixel_byte(
                    data@,
                    cw as int,
                    xx,
                    yy,
                    c,
                ) == composite_channel(orig, gray@, xx, yy, c),
        decreases h - y,
    {
        let mut x: u32 = 0;
        while x < cw
            invariant
                orig == original@,
                orig.wf(),
                w == orig.width,
                h == orig.height,
                cw == w * 2,
                gray@.len() == orig.pixel_count(),
                glen == gray@.len(),
                y < h,
                x <= cw,
                data@.len() == (y as int * cw as int + x as int) * 4,
                forall|yy: int, xx: int, c: int|
                    0 <= xx < cw && 0 <= c < 4 && (0 <= yy < y || (yy == y && 0 <= xx < x))
                        ==> #[trigger] pixel_byte(data@, cw as int, xx, yy, c) == composite_channel(
                        orig,
                        gray@,
                        xx,
                        yy,
                        c,
                    ),
            decreases cw - x,
        {
            let ghost before = data@;
            let px: [u8; 4];
            if x < w {
                px = original.get_pixel(x, y);
            } else {
                proof {
                    lemma_index_in_bounds((x - w) as int, y as int, w as int, h as int);
                }
                let alpha: [u8; 4] = original.get_pixel(x - w, y);
                let g: u8 = gray[(y as usize) * (w as usize) + ((x - w) as usize)];
                px = [g, g, g, alpha[3]];
            }
            data.push(px[0]);
            data.push(px[1]);
            data.push(px[2]);
            data.push(px[3]);
            proof {
                assert forall|yy: int, xx: int, c: int|
                    0 <= xx < cw && 0 <= c < 4 && (0 <= yy < y || (yy == y && 0 <= xx < x + 1))
                        implies #[trigger] pixel_byte(data@, cw as int, xx, yy, c)
                    == composite_channel(orig, gray@, xx, yy, c) by {
                    if yy == y && xx == x {
                    } else {
                        lemma_index_order(xx, yy, x as int, y as int, cw as int);
                        assert(pixel_byte(before, cw as int, xx, yy, c) == composite_channel(
                            orig,
                            gray@,
                            xx,
                            yy,
                            c,
                        ));
                    }
                }
            }
            x = x + 1;
        }
        proof {
            lemma_next_row(y as int, cw as int);
        }
        y = y + 1;
    }
    assert(h as int * cw as int * 4 == cw as int * h as int * 4) by (nonlinear_arith);
    let composite = Raster::from_parts(cw, h, data);
    proof {
        let target = composite_model(orig, gray@);
        lemma_channels_model(cw, h, |x: int, y: int, c: int| composite_channel(orig, gray@, x, y, c));
        lemma_model_ext(composite@, target);
    }
    composite
}

/// The columns `x0 .. x0 + cw` of `src`, all rows.
fn copy_columns(src: &Raster, x0: u32, cw: u32) -> (out: Raster)
    requires
        src@.wf(),
        x0 as int + cw as int <= src@.width,
    ensures
        out@.wf(),
        out@.width == cw,
        out@.height == src@.height,
        forall|x: int, y: int, c: int|
            0 <= x < cw && 0 <= y < src@.height && 0 <= c < 4 ==> #[trigger] out@.channel(x, y, c)
                == src@.channel(x + x0, y, c),
{
    let h: u32 = src.height();
    let ghost m = src@;
    proof {
        lemma_product_bounds(m.width as int, h as int);
        lemma_product_bounds(cw as int, h as int);
        if h > 0 {
            assert(cw as int * h as int <= m.width as int * h as int) by (nonlinear_arith)
                requires
                    cw <= m.width,
            ;
        }
    }
    let mut data: Vec<u8> = Vec::new();
    let mut y: u32 = 0;
    while y < h
        invariant
            m == src@,
            m.wf(),
            h == m.height,
            x0 as int + cw as int <= m.width,
            y <= h,
            data@.len() == y as int * cw as int * 4,
            forall|yy: int, xx: int, c: int|
                0 <= yy < y && 0 <= xx < cw && 0 <= c < 4 ==> #[trigger] pixel_byte(
                    data@,
                    cw as int,
                    xx,
                    yy,
                    c,
                ) == m.channel(xx + x0, yy, c),
        decreases h - y,
    {
        let mut x: u32 = 0;
        while x < cw
            invariant
                m == src@,
                m.wf(),
                h == m.height,
                x0 as int + cw as int <= m.width,
                y < h,
                x <= cw,
                data@.len() == (y as int * cw as int + x as int) * 4,
                forall|yy: int, xx: int, c: int|
                    0 <= xx < cw && 0 <= c < 4 && (0 <= yy < y || (yy == y && 0 <= xx < x))
                        ==> #[trigger] pixel_byte(data@, cw as int, xx, yy, c) == m.channel(
                        xx + x0,
                        yy,
                        c,
                    ),
            decreases cw - x,
        {
            let ghost before = data@;
            let px: [u8; 4] = src.get_pixel(x + x0, y);
            data.push(px[0]);
            data.push(px[1]);
            data.push(px[2]);
            data.push(px[3]);
            proof {
                assert forall|yy: int, xx: int, c: int|
                    0 <= xx < cw && 0 <= c < 4 && (0 <= yy < y || (yy == y && 0 <= xx < x + 1))
                        implies #[trigger] pixel_byte(data@, cw as int, xx, yy, c) == m.channel(
                    xx + x0,
                    yy,
                    c,
                ) by {
                    if yy == y && xx == x {
                    } else {
                        lemma_index_order(xx, yy, x as int, y as int, cw as int);
                        assert(pixel_byte(before, cw as int, xx, yy, c) == m.channel(xx + x0, yy, c));
                    }
                }
            }
            x = x + 1;
        }
        proof {
            lemma_next_row(y as int, cw as int);
        }
        y = y + 1;
    }
    assert(h as int * cw as int * 4 == cw as int * h as int * 4) by (nonlinear_arith);
    Raster::from_parts(cw, h, data)
}

/// Splits a composite into its left half (the color fragment) and its right
/// half (the grayscale fragment), each `width / 2` wide. With an odd width the
/// last column belongs to neither.
pub fn split_and_save_fragments(composite: &Raster) -> (fragments: (Raster, Raster))
    ensures
        is_split_of(composite@, fragments.0@, fragments.1@),
{
    let (width, _height) = composite.dimensions();
    let half_width: u32 = width / 2;
    let img1 = copy_columns(composite, 0, half_width);
    let img2 = copy_columns(composite, half_width, half_width);
    (img1, img2)
}

/// Puts the two fragments side by side again: `img1` on the left, `img2` on the right.
pub fn reconstruct_composite_image(img1: &Raster, img2: &Raster) -> (composite: Raster)
    requires
        img1@.width == img2@.width,
        img1@.height == img2@.height,
        img1@.width as int * 2 <= u32::MAX,
        img1@.width as int * 2 * img1@.height as int * 4 <= usize::MAX,
    ensures
        is_side_by_side(img1@, img2@, composite@),
        composite@ == side_by_side_model(img1@, img2@),
{
    let (w, h) = img1.dimensions();
    let (_w2, _h2) = img2.dimensions();
    let cw: u32 = w * 2;
    let ghost left = img1@;
    let ghost right = img2@;
    let mut data: Vec<u8> = Vec::new();
    let mut y: u32 = 0;
    while y < h
        invariant
            left == img1@,
            right == img2@,
            left.wf(),
            right.wf(),
            w == left.width,
            w == right.width,
            h == left.height,
            h == right.height,
            cw == w * 2,
            y <= h,
            data@.len() == y as int * cw as int * 4,
            forall|yy: int, xx: int, c: int|
                0 <= yy < y && 0 <= xx < cw && 0 <= c < 4 ==> #[trigger] pixel_byte(
                    data@,
                    cw as int,
                    xx,
                    yy,
                    c,
                ) == side_by_side_channel(left, right, xx, yy, c),
        decreases h - y,
    {
        let mut x: u32 = 0;
        while x < cw
            invariant
                left == img1@,
                right == img2@,
                left.wf(),
                right.wf(),
                w == left.width,
                w == right.width,
                h == left.height,
                h == right.height,
                cw == w * 2,
                y < h,
                x <= cw,
                data@.len() == (y as int * cw as int + x as int) * 4,
                forall|yy: int, xx: int, c: int|
                    0 <= xx < cw && 0 <= c < 4 && (0 <= yy < y || (yy == y && 0 <= xx < x))
                        ==> #[trigger] pixel_byte(data@, cw as int, xx, yy, c)
                        == side_by_side_channel(left, right, xx, yy, c),
            decreases cw - x,
        {
            let ghost before = data@;
            let px: [u8; 4] = if x < w {
                img1.get_pixel(x, y)
            } else {
                img2.get_pixel(x - w, y)
            };
            data.push(px[0]);
            data.push(px[1]);
            data.push(px[2]);
            data.push(px[3]);
            proof {
                assert forall|yy: int, xx: int, c: int|
                    0 <= xx < cw && 0 <= c < 4 && (0 <= yy < y || (yy == y && 0 <= xx < x + 1))
                        implies #[trigger] pixel_byte(data@, cw as int, xx, yy, c)
                    == side_by_side_channel(left, right, xx, yy, c) by {
                    if yy == y && xx == x {
                    } else {
                        lemma_index_order(xx, yy, x as int, y as int, cw as int);
                        assert(pixel_byte(before, cw as int, xx, yy, c) == side_by_side_channel(
                            left,
                            right,
                            xx,
                            yy,
                            c,
                        ));
                    }
                }
            }
            x = x + 1;
        }
        proof {
            lemma_next_row(y as int, cw as int);
        }
        y = y + 1;
    }
    assert(h as int * cw as int * 4 == cw as int * h as int * 4) by (nonlinear_arith);
    let composite = Raster::from_parts(cw, h, data);
    proof {
        let target = side_by_side_model(left, right);
        lemma_channels_model(cw, h, |x: int, y: int, c: int| side_by_side_channel(left, right, x, y, c));
        lemma_model_ext(composite@, target);
    }
    composite
}

/// Splitting a composite of even width and putting the two fragments side
/// by side again gives back the composite.
pub proof fn law_reconstruct_undoes_split(
    composite: RasterModel,
    left: RasterModel,
    right: RasterModel,
    out: RasterModel,
)
    requires
        composite.wf(),
        composite.width % 2 == 0,
        is_split_of(composite, left, right),
        is_side_by_side(left, right, out),
    ensures
        out == composite,
{
    assert forall|x: int, y: int, c: int|
        0 <= x < out.width && 0 <= y < out.height && 0 <= c < 4 implies #[trigger] out.channel(x, y, c)
        == composite.channel(x, y, c) by {
        if x < left.width {
            assert(left.channel(x, y, c) == composite.channel(x, y, c));
        } else {
            let xr = x - left.width;
            assert(left.channel(xr, y, c) == composite.channel(xr, y, c));
            assert(right.channel(xr, y, c) == composite.channel(x, y, c));
        }
    }
    lemma_model_ext(out, composite);
}

/// Splitting two images put side by side gives back the two images.
pub proof fn law_split_undoes_reconstruct(
    left: RasterModel,
    right: RasterModel,
    composite: RasterModel,
    left2: RasterModel,
    right2: RasterModel,
)
    requires
        left.wf(),
        right.wf(),
        left.width == right.width,
        left.height == right.height,
        is_side_by_side(left, right, composite),
        is_split_of(composite, left2, right2),
    ensures
        left2 == left,
        right2 == right,
{
    assert forall|x: int, y: int, c: int|
        0 <= x < left.width && 0 <= y < left.height && 0 <= c < 4 implies #[trigger] left2.channel(x, y, c)
        == left.channel(x, y, c) && right2.channel(x, y, c) == right.channel(x, y, c) by {
        assert(composite.width / 2 == left.width);
        assert(left2.channel(x, y, c) == composite.channel(x, y, c));
        assert(composite.channel(x, y, c) == left.channel(x, y, c));
        assert(composite.channel(x + left.width, y, c) == right.channel(x, y, c));
    }
    lemma_model_ext(left2, left);
    assert forall|x: int, y: int, c: int|
        0 <= x < right.width && 0 <= y < right.height && 0 <= c < 4 implies #[trigger] right2.channel(x, y, c)
        == right.channel(x, y, c) by {
        assert(left2.channel(x, y, c) == left.channel(x, y, c));
    }
    lemma_model_ext(right2, right);
}

/// The color fragment of a composite is the original image itself.
pub proof fn law_color_fragment_is_original(
    orig: RasterModel,
    gray: Seq<u8>,
    composite: RasterModel,
    left: RasterModel,
    right: RasterModel,
)
    requires
        orig.wf(),
        gray.len() == orig.pixel_count(),
        is_composite_of(orig, gray, composite),
        is_split_of(composite, left, right),
    ensures
        left == orig,
        right.wf(),
        right.width == orig.width,
        right.height == orig.height,
        forall|x: int, y: int|
            0 <= x < orig.width && 0 <= y < orig.height ==> {
                &&& #[trigger] right.channel(x, y, 0) == gray[y * orig.width + x]
                &&& right.channel(x, y, 1) == gray[y * orig.width + x]
                &&& right.channel(x, y, 2) == gray[y * orig.width + x]
                &&& right.channel(x, y, 3) == orig.channel(x, y, 3)
            },
{
    assert forall|x: int, y: int, c: int|
        0 <= x < orig.width && 0 <= y < orig.height && 0 <= c < 4 implies #[trigger] left.channel(x, y, c)
        == orig.channel(x, y, c) by {
        assert(composite.channel(x, y, c) == orig.channel(x, y, c));
    }
    lemma_model_ext(left, orig);
    assert forall|x: int, y: int|
        0 <= x < orig.width && 0 <= y < orig.height implies {
            &&& #[trigger] right.channel(x, y, 0) == gray[y * orig.width + x]
            &&& right.channel(x, y, 1) == gray[y * orig.width + x]
            &&& right.channel(x, y, 2) == gray[y * orig.width + x]
            &&& right.channel(x, y, 3) == orig.channel(x, y, 3)
        } by {
        assert(composite.width / 2 == orig.width);
        assert(left.channel(x, y, 0) == composite.channel(x, y, 0));
        assert(left.channel(x, y, 1) == composite.channel(x, y, 1));
        assert(left.channel(x, y, 2) == composite.channel(x, y, 2));
        assert(left.channel(x, y, 3) == composite.channel(x, y, 3));
        assert(right.channel(x, y, 0) == composite.channel(x + orig.width, y, 0));
        assert(right.channel(x, y, 1) == composite.channel(x + orig.width, y, 1));
        assert(right.channel(x, y, 2) == composite.channel(x + orig.width, y, 2));
        assert(right.channel(x, y, 3) == composite.channel(x + orig.width, y, 3));
    }
}

} // verus!
