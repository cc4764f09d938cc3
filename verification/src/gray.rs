//! Pixel buffers: three bytes per pixel for captures, one byte per pixel for the
//! stages that prepare text for recognition.

use vstd::prelude::*;

verus! {

/// An image of three bytes per pixel: red, green, blue, row by row from the top.
#[derive(Debug)]
pub struct Rgb8 {
    pub width: usize,
    pub height: usize,
    pub data: Vec<u8>,
}

/// An image of one byte per pixel, row by row from the top.
#[derive(Debug)]
pub struct Gray {
    pub width: usize,
    pub height: usize,
    pub data: Vec<u8>,
}

impl Rgb8 {
    /// The buffer holds exactly the pixels that the size announces.
    pub open spec fn wf(self) -> bool {
        self.data@.len() == self.width * self.height * 3
    }

    /// Number of pixels.
    pub open spec fn area(self) -> nat {
        (self.width * self.height) as nat
    }

    /// One byte of pixel `index`: 0 is red, 1 is green, 2 is blue.
    pub open spec fn channel(self, index: int, channel: int) -> u8 {
        self.data@[index * 3 + channel]
    }

    /// A black image.
    pub fn new(width: usize, height: usize) -> (image: Rgb8)
        requires
            width * height * 3 <= usize::MAX,
        ensures
            image.wf(),
            image.width == width,
            image.height == height,
            forall|i: int| 0 <= i < image.data@.len() ==> image.data@[i] == 0,
    {
        proof {
            product_bounds(width as int, height as int, 3);
        }
        Rgb8 { width, height, data: vec![0u8; width * height * 3] }
    }

    /// An image over an existing buffer.
    pub fn from_raw(width: usize, height: usize, data: Vec<u8>) -> (image: Rgb8)
        requires
            data@.len() == width * height * 3,
        ensures
            image.wf(),
            image.width == width,
            image.height == height,
            image.data@ == data@,
    {
        Rgb8 { width, height, data }
    }

    /// Whether the image has no pixels.
    pub fn is_empty(&self) -> (r: bool)
        ensures
            r == (self.width == 0 || self.height == 0),
    {
        self.width == 0 || self.height == 0
    }

    /// The bytes of the rectangle with the given corner, width and number of rows.
    pub open spec fn part(self, x: int, y: int, w: int, rows: int) -> Seq<u8>
        decreases rows,
    {
        if rows <= 0 {
            Seq::empty()
        } else {
            let row = y + rows - 1;
            self.part(x, y, w, rows - 1) + self.data@.subrange(
                (row * self.width + x) * 3,
                (row * self.width + x + w) * 3,
            )
        }
    }

    /// A rectangle of the image.
    pub fn crop(&self, x: usize, y: usize, w: usize, h: usize) -> (image: Rgb8)
        requires
            self.wf(),
            x + w <= self.width,
            y + h <= self.height,
        ensures
            image.wf(),
            image.width == w,
            image.height == h,
            image.data@ == self.part(x as int, y as int, w as int, h as int),
    {
        let total: usize = self.data.len();
        let mut data: Vec<u8> = Vec::new();
        let mut row: usize = 0;
        assert(data@ =~= self.part(x as int, y as int, w as int, 0));
        while row < h
            invariant
                self.wf(),
                total == self.data@.len(),
                x + w <= self.width,
                y + h <= self.height,
                row <= h,
                data@ == self.part(x as int, y as int, w as int, row as int),
                data@.len() == w * row * 3,
            decreases h - row,
        {
            let line: usize = y + row;
            proof {
                row_bounds(line as int, self.width as int, self.height as int);
                assert(w * (row + 1) * 3 == w * row * 3 + w * 3) by (nonlinear_arith);
            }
            let from: usize = line * self.width + x;
            let slice = vstd::slice::slice_subrange(
                self.data.as_slice(),
                from * 3,
                (from + w) * 3,
            );
            let mut bytes = copy_bytes(slice);
            data.append(&mut bytes);
            row = row + 1;
        }
        Rgb8 { width: w, height: h, data }
    }

    /// An equal image.
    pub fn copy(&self) -> (image: Rgb8)
        ensures
            image.width == self.width,
            image.height == self.height,
            image.data@ == self.data@,
    {
        Rgb8 { width: self.width, height: self.height, data: copy_bytes(self.data.as_slice()) }
    }
}

impl Gray {
    /// The buffer holds exactly the pixels that the size announces.
    pub open spec fn wf(self) -> bool {
        self.data@.len() == self.width * self.height
    }

    /// Pixel counters of 32 bits cannot overflow on this image.
    pub open spec fn countable(self) -> bool {
        self.data@.len() <= u32::MAX
    }

    /// The pixel in column `x` of row `y`.
    pub open spec fn at(self, x: int, y: int) -> u8 {
        self.data@[y * self.width + x]
    }

    /// Whether column `x` of row `y` lies inside the image.
    pub open spec fn inside(self, x: int, y: int) -> bool {
        0 <= x < self.width && 0 <= y < self.height
    }

    /// Whether the two images have the same size and the same pixels.
    pub open spec fn same(self, other: Gray) -> bool {
        self.width == other.width && self.height == other.height && self.data@ == other.data@
    }

    /// A black image.
    pub fn new(width: usize, height: usize) -> (image: Gray)
        requires
            width * height <= usize::MAX,
        ensures
            image.wf(),
            image.width == width,
            image.height == height,
            forall|i: int| 0 <= i < image.data@.len() ==> image.data@[i] == 0,
    {
        Gray { width, height, data: vec![0u8; width * height] }
    }

    /// The pixels of row `y`.
    pub fn row(&self, y: usize) -> (r: &[u8])
        requires
            self.wf(),
            y < self.height,
        ensures
            r@ == self.data@.subrange(y * self.width, (y + 1) * self.width),
            forall|x: int| 0 <= x < self.width ==> r@[x] == self.at(x, y as int),
    {
        proof {
            row_bounds(y as int, self.width as int, self.height as int);
        }
        let total: usize = self.data.len();
        assert((y + 1) * self.width <= total);
        vstd::slice::slice_subrange(self.data.as_slice(), y * self.width, (y + 1) * self.width)
    }

    /// Replaces the pixel in column `x` of row `y`.
    pub fn set(&mut self, x: usize, y: usize, value: u8)
        requires
            old(self).wf(),
            x < old(self).width,
            y < old(self).height,
        ensures
            final(self).wf(),
            final(self).width == old(self).width,
            final(self).height == old(self).height,
            final(self).data@ == old(self).data@.update(y * old(self).width + x, value),
    {
        proof {
            row_bounds(y as int, self.width as int, self.height as int);
        }
        let total: usize = self.data.len();
        assert((y + 1) * self.width <= total);
        let index: usize = y * self.width + x;
        self.data.set(index, value);
    }

    /// Whether the image has no pixels.
    pub fn is_empty(&self) -> (r: bool)
        ensures
            r == (self.width == 0 || self.height == 0),
    {
        self.width == 0 || self.height == 0
    }

    /// An equal image.
    pub fn copy(&self) -> (image: Gray)
        ensures
            image.same(*self),
    {
        Gray { width: self.width, height: self.height, data: copy_bytes(self.data.as_slice()) }
    }
}

/// A copy of a byte buffer.
pub fn copy_bytes(bytes: &[u8]) -> (v: Vec<u8>)
    ensures
        v@ == bytes@,
{
    let mut v: Vec<u8> = Vec::with_capacity(bytes.len());
    let mut i: usize = 0;
    while i < bytes.len()
        invariant
            i <= bytes@.len(),
            v@ == bytes@.take(i as int),
        decreases bytes.len() - i,
    {
        v.push(bytes[i]);
        assert(v@ =~= bytes@.take(i + 1));
        i = i + 1;
    }
    assert(bytes@.take(bytes@.len() as int) =~= bytes@);
    v
}

/// A row inside an image begins and ends inside the buffer.
pub proof fn row_bounds(y: int, width: int, height: int)
    requires
        0 <= y < height,
        0 <= width,
    ensures
        0 <= y * width,
        y * width + width == (y + 1) * width,
        (y + 1) * width <= height * width,
        height * width == width * height,
{
    assert(0 <= y * width) by (nonlinear_arith)
        requires
            0 <= y,
            0 <= width,
    ;
    assert(y * width + width == (y + 1) * width) by (nonlinear_arith);
    assert((y + 1) * width <= height * width) by (nonlinear_arith)
        requires
            y + 1 <= height,
            0 <= width,
    ;
    assert(height * width == width * height) by (nonlinear_arith);
}

/// A pixel inside an image has an index inside the buffer.
pub proof fn pixel_bounds(x: int, y: int, width: int, height: int)
    requires
        0 <= x < width,
        0 <= y < height,
    ensures
        0 <= y * width + x < width * height,
{
    row_bounds(y, width, height);
}

/// Every index of the buffer is a pixel of the image.
pub proof fn pixel_of_index(index: int, width: int, height: int)
    requires
        0 <= index < width * height,
        0 <= width,
        0 <= height,
    ensures
        width > 0,
        0 <= index / width < height,
        0 <= index % width < width,
        (index / width) * width + index % width == index,
{
    assert(width > 0) by (nonlinear_arith)
        requires
            0 < width * height,
            0 <= width,
            0 <= height,
    ;
    assert((index / width) * width + index % width == index && 0 <= index % width < width && 0
        <= index / width) by (nonlinear_arith)
        requires
            width > 0,
            0 <= index,
    ;
    assert(index / width < height) by (nonlinear_arith)
        requires
            width > 0,
            0 <= index < width * height,
            (index / width) * width + index % width == index,
            0 <= index % width,
    ;
}

proof fn product_bounds(a: int, b: int, c: int)
    requires
        0 <= a,
        0 <= b,
        1 <= c,
    ensures
        0 <= a * b <= a * b * c,
{
    assert(0 <= a * b) by (nonlinear_arith)
        requires
            0 <= a,
            0 <= b,
    ;
    assert(a * b <= a * b * c) by (nonlinear_arith)
        requires
            0 <= a * b,
            1 <= c,
    ;
}

proof fn a_part_is_a_window(image: Rgb8, x: int, y: int, w: int, rows: int, i: int, j: int, c: int)
    requires
        image.wf(),
        0 <= x,
        0 <= y,
        0 <= i < w,
        0 <= j < rows,
        0 <= c < 3,
        x + w <= image.width,
        y + rows <= image.height,
    ensures
        image.part(x, y, w, rows).len() == 3 * (rows * w),
        image.part(x, y, w, rows)[3 * (j * w + i) + c] == image.data@[3 * ((y + j) * image.width + x
            + i) + c],
    decreases rows,
{
    let row = y + rows - 1;
    let above = image.part(x, y, w, rows - 1);
    let width = image.width as int;
    row_bounds(row, width, image.height as int);
    part_length(image, x, y, w, rows - 1);
    let line = image.data@.subrange((row * width + x) * 3, (row * width + x + w) * 3);
    assert(line.len() == 3 * w);
    assert(rows * w == (rows - 1) * w + w) by (nonlinear_arith);
    if j < rows - 1 {
        a_part_is_a_window(image, x, y, w, rows - 1, i, j, c);
        assert(j * w + w <= (rows - 1) * w) by (nonlinear_arith)
            requires
                j + 1 <= rows - 1,
                w >= 0,
        ;
        assert(0 <= j * w) by (nonlinear_arith)
            requires
                j >= 0,
                w >= 0,
        ;
    } else {
        assert(j * w == (rows - 1) * w);
        assert(line[3 * i + c] == image.data@[(row * width + x) * 3 + 3 * i + c]);
    }
}

proof fn part_length(image: Rgb8, x: int, y: int, w: int, rows: int)
    requires
        image.wf(),
        0 <= x,
        0 <= y,
        0 <= w,
        0 <= rows,
        x + w <= image.width,
        y + rows <= image.height,
    ensures
        image.part(x, y, w, rows).len() == 3 * (rows * w),
    decreases rows,
{
    if rows > 0 {
        part_length(image, x, y, w, rows - 1);
        row_bounds(y + rows - 1, image.width as int, image.height as int);
        assert(rows * w == (rows - 1) * w + w) by (nonlinear_arith);
    } else {
        assert(rows * w == 0) by (nonlinear_arith)
            requires
                rows == 0,
        ;
    }
}

/// A part of a picture shows the pixels of that part: each is the pixel as far right of and below the
/// corner of the part.
pub proof fn cropping_shifts_the_pixels(
    image: &Rgb8,
    x: usize,
    y: usize,
    w: usize,
    h: usize,
    part: Rgb8,
    i: int,
    j: int,
    c: int,
)
    requires
        image.wf(),
        x + w <= image.width,
        y + h <= image.height,
        call_ensures(Rgb8::crop, (image, x, y, w, h), part),
        0 <= i < w,
        0 <= j < h,
        0 <= c < 3,
    ensures
        part.width == w && part.height == h,
        part.data@[3 * (j * w + i) + c] == image.data@[3 * ((y + j) * image.width + x + i) + c],
{
    a_part_is_a_window(*image, x as int, y as int, w as int, h as int, i, j, c);
}

/// What a part of the rows of a picture holds, pixel by pixel.
pub proof fn a_part_shows_its_pixels(
    image: Rgb8,
    x: int,
    y: int,
    w: int,
    h: int,
    i: int,
    j: int,
    c: int,
)
    requires
        image.wf(),
        0 <= x,
        0 <= y,
        0 <= i < w,
        0 <= j < h,
        0 <= c < 3,
        x + w <= image.width,
        y + h <= image.height,
    ensures
        image.part(x, y, w, h)[3 * (j * w + i) + c] == image.data@[3 * ((y + j) * image.width + x
            + i) + c],
{
    a_part_is_a_window(image, x, y, w, h, i, j, c);
}

} // verus!
