use vstd::prelude::*;

verus! {

/// A 3-channel truecolor image stored row-major, three bytes per pixel:
/// channel `c` of pixel `(x, y)` is `data[(y * width + x) * 3 + c]`.
#[derive(Clone, Debug)]
pub struct RgbImage {
    pub width: u32,
    pub height: u32,
    pub data: Vec<u8>,
}

/// A 4-channel image (red, green, blue, alpha), stored like `RgbImage`
/// with four bytes per pixel.
#[derive(Clone, Debug)]
pub struct RgbaImage {
    pub width: u32,
    pub height: u32,
    pub data: Vec<u8>,
}

impl RgbImage {
    /// The buffer holds exactly one pixel per grid position.
    pub open spec fn wf(&self) -> bool {
        self.data@.len() == (self.width as int) * (self.height as int) * 3
    }

    pub open spec fn npixels(&self) -> int {
        (self.width as int) * (self.height as int)
    }
}

impl RgbaImage {
    /// The buffer holds exactly one pixel per grid position.
    pub open spec fn wf(&self) -> bool {
        self.data@.len() == (self.width as int) * (self.height as int) * 4
    }
}

/// What nearest-neighbour resampling of a `width` x `height` RGB buffer
/// to `new_width` x `new_height` yields.
pub uninterp spec fn nearest_resample(
    width: nat,
    height: nat,
    data: Seq<u8>,
    new_width: nat,
    new_height: nat,
) -> Seq<u8>;

/// Relies on `image::imageops::resize` with `FilterType::Nearest`: the result
/// has the requested size, is a copy when the size is unchanged, and otherwise
/// depends on the source pixels and the two sizes alone. A source without
/// pixels gives a zero-filled result. Its buffers must fit in memory.
#[verifier::external_body]
pub(crate) fn resize_nearest(img: &RgbImage, new_width: u32, new_height: u32) -> (r: RgbImage)
    requires
        img.wf(),
        (new_width as int) * (new_height as int) * 3 <= usize::MAX,
        (img.width as int) * (new_height as int) * 16 <= isize::MAX,
    ensures
        r.wf(),
        r.width == new_width,
        r.height == new_height,
        r.data@ == nearest_resample(
            img.width as nat,
            img.height as nat,
            img.data@,
            new_width as nat,
            new_height as nat,
        ),
        new_width == img.width && new_height == img.height ==> r.data@ == img.data@,
{
    let buf = image::RgbImage::from_raw(img.width, img.height, img.data.clone()).unwrap();
    let out = image::imageops::resize(&buf, new_width, new_height, image::imageops::FilterType::Nearest);
    RgbImage { width: new_width, height: new_height, data: out.into_raw() }
}

/// Brings each decoded image to the tile footprint `kernel_size` by
/// nearest-neighbour resampling, keeping their order.
pub fn prepare_tiles(images: &Vec<RgbImage>, kernel_size: (u32, u32)) -> (r: Vec<RgbImage>)
    requires
        kernel_size.0 > 0,
        kernel_size.1 > 0,
        (kernel_size.0 as int) * (kernel_size.1 as int) * 3 <= usize::MAX,
        forall|i: int|
            0 <= i < images@.len() ==> {
                &&& #[trigger] images@[i].wf()
                &&& (images@[i].width as int) * (kernel_size.1 as int) * 16 <= isize::MAX
            },
    ensures
        r@.len() == images@.len(),
        forall|i: int|
            0 <= i < r@.len() ==> {
                &&& #[trigger] r@[i].wf()
                &&& r@[i].width == kernel_size.0
                &&& r@[i].height == kernel_size.1
                &&& r@[i].data@ == nearest_resample(
                    images@[i].width as nat,
                    images@[i].height as nat,
                    images@[i].data@,
                    kernel_size.0 as nat,
                    kernel_size.1 as nat,
                )
            },
{
    let mut out: Vec<RgbImage> = Vec::new();
    let mut i: usize = 0;
    while i < images.len()
        invariant
            i <= images@.len(),
            out@.len() == i,
            kernel_size.0 > 0,
            kernel_size.1 > 0,
            (kernel_size.0 as int) * (kernel_size.1 as int) * 3 <= usize::MAX,
            forall|j: int|
                0 <= j < images@.len() ==> {
                    &&& #[trigger] images@[j].wf()
                    &&& (images@[j].width as int) * (kernel_size.1 as int) * 16 <= isize::MAX
                },
            forall|j: int|
                0 <= j < i ==> {
                    &&& #[trigger] out@[j].wf()
                    &&& out@[j].width == kernel_size.0
                    &&& out@[j].height == kernel_size.1
                    &&& out@[j].data@ == nearest_resample(
                        images@[j].width as nat,
                        images@[j].height as nat,
                        images@[j].data@,
                        kernel_size.0 as nat,
                        kernel_size.1 as nat,
                    )
                },
        decreases images@.len() - i,
    {
        let tile = resize_nearest(&images[i], kernel_size.0, kernel_size.1);
        out.push(tile);
        i = i + 1;
    }
    out
}

} // verus!
