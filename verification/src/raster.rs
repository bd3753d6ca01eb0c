//! The raster: a grid of 8-bit intensities with a width and a height.
//!
//! The pixels live in an `image::GrayImage`. The proofs see a raster through
//! its view, a [`RasterView`]: two dimensions and a map from the coordinates
//! inside them to intensities. What connects the two is stated, not proved,
//! in the four private functions at the end of this file.

use vstd::prelude::*;

verus! {

/// An 8-bit grayscale raster. Every coordinate `(x, y)` with `x < width` and
/// `y < height` holds exactly one intensity; there is nothing outside.
///
/// The field is an image of the `image` crate and is never read by verified
/// code: all access goes through the private functions below.
#[verifier::external_body]
#[derive(Debug)]
pub struct Raster {
    image: image::GrayImage,
}

/// Width and height of the image a raster holds.
pub uninterp spec fn raster_size(raster: Raster) -> (nat, nat);

/// The intensity at each coordinate `(x, y)` of the image a raster holds.
pub uninterp spec fn raster_pixels(raster: Raster) -> Map<(int, int), u8>;

/// The mathematical content of a raster.
#[verifier::ext_equal]
pub struct RasterView {
    pub width: nat,
    pub height: nat,
    pub pixels: Map<(int, int), u8>,
}

impl RasterView {
    /// `p`, as `(x, y)`, is a coordinate of this raster.
    pub open spec fn contains(self, p: (int, int)) -> bool {
        0 <= p.0 < self.width && 0 <= p.1 < self.height
    }

    /// The intensity at `p`; meaningful inside the raster only.
    pub open spec fn at(self, p: (int, int)) -> u8 {
        self.pixels[p]
    }

    /// The map has a value at exactly the coordinates of the raster.
    pub open spec fn wf(self) -> bool {
        forall|p: (int, int)| #[trigger] self.pixels.dom().contains(p) <==> self.contains(p)
    }

    /// The raster of the given size whose rows, from the top, are laid out
    /// one after the other in `data`.
    pub open spec fn from_rows(width: nat, height: nat, data: Seq<u8>) -> RasterView {
        RasterView {
            width,
            height,
            pixels: Map::new(
                |p: (int, int)| 0 <= p.0 < width && 0 <= p.1 < height,
                |p: (int, int)| data[p.1 * width + p.0],
            ),
        }
    }

    /// This raster with the intensity at `p` replaced.
    pub open spec fn update(self, p: (int, int), value: u8) -> RasterView {
        RasterView { pixels: self.pixels.insert(p, value), ..self }
    }
}

impl View for Raster {
    type V = RasterView;

    open spec fn view(&self) -> RasterView {
        RasterView {
            width: raster_size(*self).0,
            height: raster_size(*self).1,
            pixels: Map::new(
                |p: (int, int)|
                    0 <= p.0 < raster_size(*self).0 && 0 <= p.1 < raster_size(*self).1,
                |p: (int, int)| raster_pixels(*self)[p],
            ),
        }
    }
}

/// The view of any raster is well formed.
pub proof fn lemma_view_wf(raster: Raster)
    ensures
        raster@.wf(),
{
}

impl Raster {
    /// Builds a raster from its rows laid out one after the other. Returns
    /// `None` unless `data` holds exactly `width * height` intensities.
    pub fn from_raw(width: u32, height: u32, data: Vec<u8>) -> (result: Option<Raster>)
        ensures
            result is Some <==> data@.len() == width * height,
            result matches Some(raster) ==> raster@ == RasterView::from_rows(
                width as nat,
                height as nat,
                data@,
            ),
    {
        assert(0 <= width * height <= 0xffff_ffff * 0xffff_ffff) by (nonlinear_arith)
            requires
                0 <= width <= 0xffff_ffff,
                0 <= height <= 0xffff_ffff,
        ;
        let expected: u64 = (width as u64) * (height as u64);
        if data.len() as u64 != expected {
            return None;
        }
        let ghost rows = data@;
        let built = image_from_raw(width, height, data);
        assert(built matches Some(raster) ==> raster@.pixels =~= RasterView::from_rows(
            width as nat,
            height as nat,
            rows,
        ).pixels);
        built
    }

    /// The number of columns.
    pub fn width(&self) -> (w: u32)
        ensures
            w == self@.width,
    {
        image_dimensions(self).0
    }

    /// The number of rows.
    pub fn height(&self) -> (h: u32)
        ensures
            h == self@.height,
    {
        image_dimensions(self).1
    }

    /// The intensity at `(x, y)`, or `None` when the coordinate lies outside
    /// the raster.
    pub fn get(&self, x: i64, y: i64) -> (value: Option<u8>)
        ensures
            value == if self@.contains((x as int, y as int)) {
                Some(self@.at((x as int, y as int)))
            } else {
                None::<u8>
            },
    {
        let (w, h) = image_dimensions(self);
        if 0 <= x && x < w as i64 && 0 <= y && y < h as i64 {
            Some(image_get_pixel(self, x as u32, y as u32))
        } else {
            None
        }
    }

    /// Stores `value` at `(x, y)` and returns `true`; outside the raster it
    /// changes nothing and returns `false`.
    pub fn put(&mut self, x: i64, y: i64, value: u8) -> (stored: bool)
        ensures
            stored == old(self)@.contains((x as int, y as int)),
            final(self)@ == if stored {
                old(self)@.update((x as int, y as int), value)
            } else {
                old(self)@
            },
    {
        let (w, h) = image_dimensions(self);
        if 0 <= x && x < w as i64 && 0 <= y && y < h as i64 {
            image_put_pixel(self, x as u32, y as u32, value);
            proof {
                assert(self@.pixels =~= old(self)@.update((x as int, y as int), value).pixels);
            }
            true
        } else {
            false
        }
    }
}

/// `image::ImageBuffer::from_raw` on a `Vec<u8>` of single-channel pixels.
/// It accepts the buffer when it holds at least `width * height` bytes; the
/// pixel at `(x, y)` is then the byte at index `y * width + x`.
#[verifier::external_body]
fn image_from_raw(width: u32, height: u32, data: Vec<u8>) -> (result: Option<Raster>)
    ensures
        result is Some <==> width * height <= data@.len(),
        result matches Some(raster) ==> {
            &&& raster_size(raster) == (width as nat, height as nat)
            &&& forall|x: int, y: int|
                0 <= x < width && 0 <= y < height ==> #[trigger] raster_pixels(raster)[(x, y)]
                    == data@[y * width + x]
        },
{
    match image::GrayImage::from_raw(width, height, data) {
        Some(image) => Some(Raster { image }),
        None => None,
    }
}

/// `image::ImageBuffer::dimensions`: the width and the height of the image.
#[verifier::external_body]
fn image_dimensions(raster: &Raster) -> (size: (u32, u32))
    ensures
        raster_size(*raster) == (size.0 as nat, size.1 as nat),
{
    raster.image.dimensions()
}

/// `image::ImageBuffer::get_pixel`: the intensity stored at `(x, y)`. The
/// outside function panics for a coordinate outside the image.
#[verifier::external_body]
fn image_get_pixel(raster: &Raster, x: u32, y: u32) -> (value: u8)
    requires
        x < raster_size(*raster).0,
        y < raster_size(*raster).1,
    ensures
        value == raster_pixels(*raster)[(x as int, y as int)],
{
    raster.image.get_pixel(x, y).0[0]
}

/// `image::ImageBuffer::put_pixel`: stores an intensity at `(x, y)` and
/// leaves the size and every other pixel as they were. The outside function
/// panics for a coordinate outside the image.
#[verifier::external_body]
fn image_put_pixel(raster: &mut Raster, x: u32, y: u32, value: u8)
    requires
        x < raster_size(*old(raster)).0,
        y < raster_size(*old(raster)).1,
    ensures
        raster_size(*final(raster)) == raster_size(*old(raster)),
        raster_pixels(*final(raster)) == raster_pixels(*old(raster)).insert(
            (x as int, y as int),
            value,
        ),
{
    raster.image.put_pixel(x, y, image::Luma([value]));
}

} // verus!
