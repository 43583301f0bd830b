//! Render settings and the assembly of the output raster.

use vstd::prelude::*;
use crate::material::Material;

verus! {

/// The settings of a render.
#[derive(Clone, Copy, Debug)]
pub struct SettingsConfig {
    /// Resolution of the output image (width, height).
    pub resolution: [u32; 2],
    /// Number of samples per pixel.
    pub samples: u32,
    /// Largest number of bounces of a single primary ray.
    pub max_bounces: u32,
    /// Gamma of the output encoding, in thousandths.
    pub gamma_milli: u32,
}

impl Default for SettingsConfig {
    /// 1280 by 720 pixels, 12 samples per pixel, 8 bounces, gamma 2.2.
    fn default() -> (r: Self)
        ensures
            r.resolution[0] == 1280,
            r.resolution[1] == 720,
            r.samples == 12,
            r.max_bounces == 8,
            r.gamma_milli == 2200,
    {
        SettingsConfig { resolution: [1280, 720], samples: 12, max_bounces: 8, gamma_milli: 2200 }
    }
}

impl SettingsConfig {
    /// The width of the output image in pixels.
    pub fn width(&self) -> (r: u32)
        ensures
            r == self.resolution[0],
    {
        self.resolution[0]
    }

    /// The height of the output image in pixels.
    pub fn height(&self) -> (r: u32)
        ensures
            r == self.resolution[1],
    {
        self.resolution[1]
    }
}

/// The materials of a scene. A material is added once and from then on named
/// by its handle, the position at which it stands.
pub struct Materials<M: Material> {
    inner: Vec<M>,
}

impl<M: Material> View for Materials<M> {
    type V = Seq<M>;

    closed spec fn view(&self) -> Seq<M> {
        self.inner@
    }
}

impl<M: Material> Materials<M> {
    /// An empty table.
    pub fn new() -> (r: Self)
        ensures
            r@.len() == 0,
    {
        Materials { inner: Vec::new() }
    }

    /// Adds a material and returns its handle.
    pub fn add(&mut self, material: M) -> (handle: usize)
        ensures
            final(self)@ == old(self)@.push(material),
            handle == old(self)@.len(),
    {
        let handle = self.inner.len();
        self.inner.push(material);
        handle
    }

    /// The number of materials in the table.
    pub fn len(&self) -> (r: usize)
        ensures
            r == self@.len(),
    {
        self.inner.len()
    }

    /// The material with the given handle, if there is one.
    pub fn get(&self, handle: usize) -> (r: Option<&M>)
        ensures
            r == if handle < self@.len() {
                Some(&self@[handle as int])
            } else {
                None
            },
    {
        if handle < self.inner.len() {
            Some(&self.inner[handle])
        } else {
            None
        }
    }
}

/// A traced image: `width * height` pixels of three bytes each (red, green,
/// blue), row by row from the top.
#[derive(Debug)]
pub struct Image {
    pub dimensions: (u32, u32),
    pub buffer: Vec<u8>,
}

impl Image {
    /// The image of the given size over the given bytes.
    pub fn from(buffer: Vec<u8>, width: u32, height: u32) -> (r: Self)
        ensures
            r.dimensions == (width, height),
            r.buffer == buffer,
    {
        Image { dimensions: (width, height), buffer }
    }
}

/// One finished pixel. The image-plane coordinate `y` grows upwards: `y = 0`
/// is the bottom row of the picture.
#[derive(Clone, Copy, Debug, PartialEq, Eq, Structural)]
pub struct Pixel {
    pub x: u32,
    pub y: u32,
    pub red: u8,
    pub green: u8,
    pub blue: u8,
}

/// Where the first byte of the pixel `(x, y)` stands in the buffer of a
/// `width` by `height` image: rows are stored from the top, so the row of
/// image-plane coordinate `y` is row `height - 1 - y` of the buffer.
pub open spec fn spec_offset(x: int, y: int, width: int, height: int) -> int {
    3 * ((height - 1 - y) * width + x)
}

/// The pixels of a `width` by `height` image in the order in which they are
/// sampled: column by column, each column from the bottom up.
pub open spec fn spec_grid(width: int, height: int) -> Seq<(u32, u32)> {
    Seq::new((width * height) as nat, |i: int| ((i / height) as u32, (i % height) as u32))
}

/// The place of the pixel `(x, y)` in the sampling order of an image of the
/// given height.
pub open spec fn spec_cell(x: int, y: int, height: int) -> int {
    x * height + y
}

/// The buffer of a `width` by `height` image after the given pixels have
/// been written to a black image one after the other. A pixel outside the
/// image is passed over.
pub open spec fn painted(pixels: Seq<Pixel>, width: int, height: int) -> Seq<u8>
    decreases pixels.len(),
{
    if pixels.len() == 0 {
        Seq::new((3 * width * height) as nat, |i: int| 0u8)
    } else {
        let before = painted(pixels.drop_last(), width, height);
        let p = pixels.last();
        if p.x < width && p.y < height {
            let at = spec_offset(p.x as int, p.y as int, width, height);
            before.update(at, p.red).update(at + 1, p.green).update(at + 2, p.blue)
        } else {
            before
        }
    }
}

/// The sum of the entries of `counts`.
pub open spec fn spec_total(counts: Seq<u32>) -> int
    decreases counts.len(),
{
    if counts.len() == 0 {
        0
    } else {
        spec_total(counts.drop_last()) + counts.last()
    }
}

/// The pixels of an image lie within its buffer, three bytes each.
pub proof fn lemma_offset_range(x: int, y: int, width: int, height: int)
    by (nonlinear_arith)
    requires
        0 <= x < width,
        0 <= y < height,
    ensures
        0 <= spec_offset(x, y, width, height),
        spec_offset(x, y, width, height) + 3 <= 3 * width * height,
        spec_offset(x, y, width, height) + 3 <= 3 * (width * height),
{
    assert((height - 1 - y) * width <= (height - 1) * width);
    assert((height - 1) * width + width == height * width);
}

/// Two pixels of an image share no byte of its buffer.
pub proof fn lemma_offset_distinct(x: int, y: int, u: int, v: int, width: int, height: int)
    by (nonlinear_arith)
    requires
        0 <= x < width,
        0 <= u < width,
        0 <= y < height,
        0 <= v < height,
        x != u || y != v,
    ensures
        spec_offset(x, y, width, height) + 3 <= spec_offset(u, v, width, height) || spec_offset(
            u,
            v,
            width,
            height,
        ) + 3 <= spec_offset(x, y, width, height),
{
    if y < v {
        assert((height - 1 - v) * width + width <= (height - 1 - y) * width);
    } else if v < y {
        assert((height - 1 - y) * width + width <= (height - 1 - v) * width);
    }
}

/// Painting leaves the size of the buffer alone.
pub proof fn lemma_painted_len(pixels: Seq<Pixel>, width: int, height: int)
    requires
        0 <= width,
        0 <= height,
    ensures
        painted(pixels, width, height).len() == 3 * width * height,
    decreases pixels.len(),
{
    if pixels.len() > 0 {
        lemma_painted_len(pixels.drop_last(), width, height);
        let p = pixels.last();
        if p.x < width && p.y < height {
            lemma_offset_range(p.x as int, p.y as int, width, height);
        }
    } else {
        assert(3 * width * height >= 0) by (nonlinear_arith)
            requires
                0 <= width,
                0 <= height,
        ;
    }
}

/// Where no two of the pixels share a place, each pixel of the image stands
/// in the painted buffer with its three bytes, at its place.
pub proof fn lemma_painted_pixel(pixels: Seq<Pixel>, width: int, height: int, i: int)
    requires
        0 <= i < pixels.len(),
        0 <= pixels[i].x < width,
        0 <= pixels[i].y < height,
        forall|j: int, k: int|
            0 <= j < k < pixels.len() ==> pixels[j].x != pixels[k].x || pixels[j].y != pixels[k].y,
    ensures
        ({
            let at = spec_offset(pixels[i].x as int, pixels[i].y as int, width, height);
            let buffer = painted(pixels, width, height);
            &&& 0 <= at
            &&& at + 3 <= buffer.len()
            &&& buffer[at] == pixels[i].red
            &&& buffer[at + 1] == pixels[i].green
            &&& buffer[at + 2] == pixels[i].blue
        }),
    decreases pixels.len(),
{
    let at = spec_offset(pixels[i].x as int, pixels[i].y as int, width, height);
    lemma_offset_range(pixels[i].x as int, pixels[i].y as int, width, height);
    lemma_painted_len(pixels, width, height);
    lemma_painted_len(pixels.drop_last(), width, height);
    if i < pixels.len() - 1 {
        lemma_painted_pixel(pixels.drop_last(), width, height, i);
        let p = pixels.last();
        if p.x < width && p.y < height {
            lemma_offset_distinct(
                pixels[i].x as int,
                pixels[i].y as int,
                p.x as int,
                p.y as int,
                width,
                height,
            );
            lemma_offset_range(p.x as int, p.y as int, width, height);
        }
    }
}

/// The first byte of the pixel `(x, y)` in the buffer of a `width` by
/// `height` image.
pub fn storage_offset(x: u32, y: u32, width: u32, height: u32) -> (at: usize)
    requires
        x < width,
        y < height,
        3 * width * height <= usize::MAX,
    ensures
        at == spec_offset(x as int, y as int, width as int, height as int),
        at + 3 <= 3 * width * height,
{
    proof {
        lemma_offset_range(x as int, y as int, width as int, height as int);
    }
    let row: usize = (height - 1 - y) as usize;
    assert(row * width + x < width * height) by (nonlinear_arith)
        requires
            row == height - 1 - y,
            0 <= y < height,
            0 <= x < width,
    {
        assert(row * width <= (height - 1) * width);
        assert((height - 1) * width + width == height * width);
    }
    assert(3 * (width * height) == 3 * width * height) by (nonlinear_arith);
    3 * (row * (width as usize) + (x as usize))
}

/// The pixels of a `width` by `height` image in sampling order: column by
/// column, each column from the bottom up.
pub fn pixel_grid(width: u32, height: u32) -> (grid: Vec<(u32, u32)>)
    requires
        width * height <= usize::MAX,
    ensures
        grid@ == spec_grid(width as int, height as int),
        grid.len() == width * height,
        forall|x: int, y: int|
            0 <= x < width && 0 <= y < height ==> grid[#[trigger] spec_cell(x, y, height as int)]
                == (x as u32, y as u32),
{
    let mut grid: Vec<(u32, u32)> = Vec::new();
    let mut x: u32 = 0;
    while x < width
        invariant
            x <= width,
            width * height <= usize::MAX,
            grid.len() == x * height,
            forall|i: int|
                0 <= i < grid.len() ==> grid[i] == (
                    (i / height as int) as u32,
                    (i % height as int) as u32,
                ),
        decreases width - x,
    {
        let mut y: u32 = 0;
        while y < height
            invariant
                x < width,
                y <= height,
                width * height <= usize::MAX,
                grid.len() == x * height + y,
                forall|i: int|
                    0 <= i < grid.len() ==> grid[i] == (
                        (i / height as int) as u32,
                        (i % height as int) as u32,
                    ),
            decreases height - y,
        {
            proof {
                lemma_cell(x as int, y as int, width as int, height as int);
            }
            grid.push((x, y));
            y += 1;
        }
        proof {
            assert(x * height + height == (x + 1) * height) by (nonlinear_arith);
        }
        x += 1;
    }
    proof {
        assert(grid@ =~= spec_grid(width as int, height as int));
        assert forall|x: int, y: int| 0 <= x < width && 0 <= y < height implies grid[
            #[trigger] spec_cell(x, y, height as int)
        ] == (x as u32, y as u32) by {
            lemma_cell(x, y, width as int, height as int);
        }
    }
    grid
}

/// The cell `(x, y)` is cell number `x * height + y` of the grid.
proof fn lemma_cell(x: int, y: int, width: int, height: int)
    by (nonlinear_arith)
    requires
        0 <= x < width,
        0 <= y < height,
    ensures
        0 <= x * height + y < width * height,
        (x * height + y) / height == x,
        (x * height + y) % height == y,
{
    assert(x * height + height <= width * height) by {
        assert((x + 1) * height <= width * height);
    }
}

/// Writes the pixels into the buffer of a black `width` by `height` image,
/// one after the other. Pixels outside the image are passed over.
pub fn assemble(pixels: &Vec<Pixel>, width: u32, height: u32) -> (image: Image)
    requires
        3 * width * height <= isize::MAX,
    ensures
        image.dimensions == (width, height),
        image.buffer@ == painted(pixels@, width as int, height as int),
        image.buffer.len() == 3 * width * height,
{
    let ghost (w, h) = (width as int, height as int);
    assert(0 <= width * height && 3 * (width * height) == 3 * width * height
        && width * height <= 3 * width * height) by (nonlinear_arith);
    let size: usize = 3 * ((width as usize) * (height as usize));
    let mut buffer: Vec<u8> = Vec::with_capacity(size);
    while buffer.len() < size
        invariant
            buffer.len() <= size,
            forall|i: int| 0 <= i < buffer.len() ==> buffer[i] == 0,
        decreases size - buffer.len(),
    {
        buffer.push(0);
    }
    assert(buffer@ =~= painted(pixels@.subrange(0, 0), w, h));
    let mut i: usize = 0;
    while i < pixels.len()
        invariant
            i <= pixels.len(),
            w == width,
            h == height,
            3 * width * height <= isize::MAX,
            buffer.len() == 3 * width * height,
            buffer@ == painted(pixels@.subrange(0, i as int), w, h),
        decreases pixels.len() - i,
    {
        let p = pixels[i];
        proof {
            let next = pixels@.subrange(0, i + 1);
            assert(next.drop_last() =~= pixels@.subrange(0, i as int));
            assert(next.last() == p);
        }
        if p.x < width && p.y < height {
            let at = storage_offset(p.x, p.y, width, height);
            buffer.set(at, p.red);
            buffer.set(at + 1, p.green);
            buffer.set(at + 2, p.blue);
        }
        i += 1;
    }
    assert(pixels@.subrange(0, i as int) =~= pixels@);
    Image::from(buffer, width, height)
}

/// The number of rays traced in all, from the counts of the workers.
pub fn total_rays(counts: &Vec<u32>) -> (total: u64)
    requires
        counts.len() <= u32::MAX,
    ensures
        total == spec_total(counts@),
{
    let mut total: u64 = 0;
    let mut i: usize = 0;
    while i < counts.len()
        invariant
            i <= counts.len() <= u32::MAX,
            total == spec_total(counts@.subrange(0, i as int)),
            total <= i * u32::MAX,
        decreases counts.len() - i,
    {
        proof {
            let next = counts@.subrange(0, i + 1);
            assert(next.drop_last() =~= counts@.subrange(0, i as int));
            assert(i * u32::MAX + u32::MAX <= u32::MAX * u32::MAX) by (nonlinear_arith)
                requires
                    i < u32::MAX,
            ;
        }
        total = total + counts[i] as u64;
        i += 1;
    }
    assert(counts@.subrange(0, i as int) =~= counts@);
    total
}

} // verus!
