use vstd::prelude::*;

use crate::codec::{
    dimension_split, encoded_bytes, get_idx_at_coords, header_at, header_value,
    lemma_decode_encode, BYTES_BEFORE_FRAMES, VIDEO_MAX_DIMENSION,
};
use crate::error::VideoError;
use vstd::arithmetic::div_mod::lemma_fundamental_div_mod_converse;

verus! {

/// A width and a height that a video can have: each in `1..=2040`.
pub open spec fn valid_dimensions(width: nat, height: nat) -> bool {
    1 <= width <= VIDEO_MAX_DIMENSION && 1 <= height <= VIDEO_MAX_DIMENSION
}

/// Bytes in one frame: three per pixel.
pub open spec fn frame_size(width: nat, height: nat) -> nat {
    width * height * 3
}

/// Offset of the red byte of pixel `(x, y)` in a frame `width` pixels wide.
pub open spec fn pixel_offset(width: nat, x: int, y: int) -> int {
    (y * width + x) * 3
}

/// What a frame is: its size and its pixel bytes, row-major RGB.
pub ghost struct FrameView {
    pub width: nat,
    pub height: nat,
    pub data: Seq<u8>,
}

impl FrameView {
    pub open spec fn wf(self) -> bool {
        &&& valid_dimensions(self.width, self.height)
        &&& self.data.len() == frame_size(self.width, self.height)
    }

    pub open spec fn in_bounds(self, x: int, y: int) -> bool {
        0 <= x < self.width && 0 <= y < self.height
    }

    /// The `(r, g, b)` bytes of pixel `(x, y)`.
    pub open spec fn pixel(self, x: int, y: int) -> (u8, u8, u8) {
        let o = pixel_offset(self.width, x, y);
        (self.data[o], self.data[o + 1], self.data[o + 2])
    }

    /// This frame with pixel `(x, y)` set to `rgb`.
    pub open spec fn with_pixel(self, x: int, y: int, rgb: (u8, u8, u8)) -> FrameView {
        let o = pixel_offset(self.width, x, y);
        FrameView {
            data: self.data.update(o, rgb.0).update(o + 1, rgb.1).update(o + 2, rgb.2),
            ..self
        }
    }
}

/// `data` with the first and third byte of every pixel swapped.
pub open spec fn swapped_red_blue(data: Seq<u8>) -> Seq<u8> {
    Seq::new(
        data.len(),
        |k: int|
            if k % 3 == 0 {
                data[k + 2]
            } else if k % 3 == 2 {
                data[k - 2]
            } else {
                data[k]
            },
    )
}

/// Reading a pixel after setting it gives back the colour that was set, and
/// the other pixels keep theirs.
pub proof fn lemma_pixel_round_trip(f: FrameView, x: int, y: int, rgb: (u8, u8, u8), x2: int, y2: int)
    requires
        f.wf(),
        f.in_bounds(x, y),
        f.in_bounds(x2, y2),
    ensures
        f.with_pixel(x, y, rgb).wf(),
        f.with_pixel(x, y, rgb).pixel(x, y) == rgb,
        (x2 != x || y2 != y) ==> f.with_pixel(x, y, rgb).pixel(x2, y2) == f.pixel(x2, y2),
{
    let w = f.width as int;
    let h = f.height as int;
    assert(0 <= y * w + x < w * h && 0 <= y2 * w + x2 < w * h) by (nonlinear_arith)
        requires
            0 <= x < w,
            0 <= y < h,
            0 <= x2 < w,
            0 <= y2 < h,
    ;
    assert((x2 != x || y2 != y) ==> y * w + x != y2 * w + x2) by (nonlinear_arith)
        requires
            0 <= x < w,
            0 <= x2 < w,
    ;
}

/// The frame of the given size whose pixels are all black.
pub open spec fn black_frame(width: nat, height: nat) -> FrameView {
    FrameView { width, height, data: Seq::new(frame_size(width, height), |i: int| 0u8) }
}

/// The checks shared by the frame constructors, in the order they are made.
pub open spec fn dimension_error(width: nat, height: nat) -> Option<VideoError> {
    if width == 0 || height == 0 {
        Some(VideoError::InvalidDimension)
    } else if width > VIDEO_MAX_DIMENSION || height > VIDEO_MAX_DIMENSION {
        Some(VideoError::DimensionTooLarge)
    } else {
        None
    }
}

proof fn lemma_frame_size_bound(width: nat, height: nat)
    requires
        valid_dimensions(width, height),
    ensures
        3 <= frame_size(width, height) <= 3 * 2040 * 2040,
        1 <= width * height <= 2040 * 2040,
{
    assert(1 <= width * height <= 2040 * 2040) by (nonlinear_arith)
        requires
            valid_dimensions(width, height),
    ;
}

/// One image: `width * height` pixels of three bytes, red, green and blue,
/// stored row by row.
pub struct Frame {
    data: Vec<u8>,
    width: u32,
    height: u32,
}

impl View for Frame {
    type V = FrameView;

    closed spec fn view(&self) -> FrameView {
        FrameView { width: self.width as nat, height: self.height as nat, data: self.data@ }
    }
}

impl Frame {
    pub open spec fn wf(&self) -> bool {
        self@.wf()
    }

    /// Checks a pixel coordinate and gives the offset of its red byte.
    fn offset_of(&self, x: u32, y: u32) -> (r: Result<usize, VideoError>)
        requires
            self.wf(),
        ensures
            self@.in_bounds(x as int, y as int) ==> (r matches Ok(o) && o == pixel_offset(
                self@.width,
                x as int,
                y as int,
            ) && o + 2 < self@.data.len() && o + 2 < 3 * 2040 * 2040),
            !self@.in_bounds(x as int, y as int) ==> r == Err::<usize, VideoError>(
                VideoError::PixelOutOfRange,
            ),
    {
        if x >= self.width || y >= self.height {
            return Err(VideoError::PixelOutOfRange);
        }
        proof {
            let w = self.width as int;
            let h = self.height as int;
            lemma_frame_size_bound(self@.width, self@.height);
            assert(0 <= y * w + x < w * h && (y * w + x) * 3 + 2 < w * h * 3) by (nonlinear_arith)
                requires
                    0 <= x < w,
                    0 <= y < h,
            ;
        }
        let idx = get_idx_at_coords(x, y, self.width);
        Ok(idx as usize * 3)
    }

    /// A black frame of the given size.
    pub fn new(width: u32, height: u32) -> (r: Result<Frame, VideoError>)
        ensures
            dimension_error(width as nat, height as nat) matches Some(e) ==> r == Err::<
                Frame,
                VideoError,
            >(e),
            dimension_error(width as nat, height as nat) is None ==> (r matches Ok(f) && f.wf()
                && f@ == black_frame(width as nat, height as nat)),
    {
        if width == 0 || height == 0 {
            return Err(VideoError::InvalidDimension);
        }
        if width > VIDEO_MAX_DIMENSION || height > VIDEO_MAX_DIMENSION {
            return Err(VideoError::DimensionTooLarge);
        }
        proof {
            lemma_frame_size_bound(width as nat, height as nat);
        }
        let size: usize = (width * height * 3) as usize;
        let mut data: Vec<u8> = Vec::new();
        while data.len() < size
            invariant
                data@.len() <= size,
                forall|i: int| 0 <= i < data@.len() ==> data@[i] == 0u8,
            decreases size - data@.len(),
        {
            data.push(0);
        }
        proof {
            assert(data@ =~= black_frame(width as nat, height as nat).data);
        }
        Frame::from_data(width, height, data)
    }

    /// A frame of the given size holding `data`, which must be exactly
    /// `width * height * 3` bytes.
    pub fn from_data(width: u32, height: u32, data: Vec<u8>) -> (r: Result<Frame, VideoError>)
        ensures
            dimension_error(width as nat, height as nat) matches Some(e) ==> r == Err::<
                Frame,
                VideoError,
            >(e),
            dimension_error(width as nat, height as nat) is None && data@.len() != frame_size(
                width as nat,
                height as nat,
            ) ==> r == Err::<Frame, VideoError>(VideoError::DimensionMismatch),
            dimension_error(width as nat, height as nat) is None && data@.len() == frame_size(
                width as nat,
                height as nat,
            ) ==> (r matches Ok(f) && f.wf() && f@ == (FrameView {
                width: width as nat,
                height: height as nat,
                data: data@,
            })),
    {
        if width == 0 || height == 0 {
            return Err(VideoError::InvalidDimension);
        }
        if width > VIDEO_MAX_DIMENSION || height > VIDEO_MAX_DIMENSION {
            return Err(VideoError::DimensionTooLarge);
        }
        proof {
            lemma_frame_size_bound(width as nat, height as nat);
        }
        if data.len() != (width * height * 3) as usize {
            return Err(VideoError::DimensionMismatch);
        }
        Ok(Frame { data, width, height })
    }

    /// Sets pixel `(x, y)` to the bytes `(r, g, b)`.
    pub fn set_color(&mut self, x: u32, y: u32, rgb: (u8, u8, u8)) -> (r: Result<(), VideoError>)
        requires
            old(self).wf(),
        ensures
            final(self).wf(),
            old(self)@.in_bounds(x as int, y as int) ==> r is Ok && final(self)@ == old(
                self,
            )@.with_pixel(x as int, y as int, rgb),
            !old(self)@.in_bounds(x as int, y as int) ==> r == Err::<(), VideoError>(
                VideoError::PixelOutOfRange,
            ) && final(self)@ == old(self)@,
    {
        let begin = match self.offset_of(x, y) {
            Ok(b) => b,
            Err(e) => return Err(e),
        };
        let (r, g, b) = rgb;
        self.data.set(begin, r);
        self.data.set(begin + 1, g);
        self.data.set(begin + 2, b);
        Ok(())
    }

    /// The `(r, g, b)` bytes of pixel `(x, y)`.
    pub fn get_color(&self, x: u32, y: u32) -> (r: Result<(u8, u8, u8), VideoError>)
        requires
            self.wf(),
        ensures
            self@.in_bounds(x as int, y as int) ==> r == Ok::<(u8, u8, u8), VideoError>(
                self@.pixel(x as int, y as int),
            ),
            !self@.in_bounds(x as int, y as int) ==> r == Err::<(u8, u8, u8), VideoError>(
                VideoError::PixelOutOfRange,
            ),
    {
        let begin = match self.offset_of(x, y) {
            Ok(b) => b,
            Err(e) => return Err(e),
        };
        let r = self.data[begin];
        let g = self.data[begin + 1];
        let b = self.data[begin + 2];
        Ok((r, g, b))
    }

    /// Swaps the red and blue byte of every pixel.
    pub fn swap_red_blue(&mut self)
        requires
            old(self).wf(),
        ensures
            final(self).wf(),
            final(self)@ == (FrameView { data: swapped_red_blue(old(self)@.data), ..old(self)@ }),
    {
        let ghost before = self@;
        let n = self.data.len();
        proof {
            let w = self.width as int;
            let h = self.height as int;
            assert((w * h * 3) % 3 == 0) by (nonlinear_arith);
        }
        let mut p: usize = 0;
        while p < n
            invariant
                p % 3 == 0,
                n % 3 == 0,
                p <= n,
                n == before.data.len(),
                self@.width == before.width,
                self@.height == before.height,
                self@.data.len() == n,
                forall|k: int|
                    0 <= k < n ==> #[trigger] self@.data[k] == if k < p {
                        swapped_red_blue(before.data)[k]
                    } else {
                        before.data[k]
                    },
            decreases n - p,
        {
            let r = self.data[p];
            let b = self.data[p + 2];
            self.data.set(p, b);
            self.data.set(p + 2, r);
            p += 3;
        }
        proof {
            assert(self@.data =~= swapped_red_blue(before.data));
        }
    }

    /// The frame's pixel bytes.
    pub fn get_data(&self) -> (r: &Vec<u8>)
        ensures
            r@ == self@.data,
    {
        &self.data
    }
}

/// Number of whole frames in a buffer of `len` bytes of a video of the given
/// size; a partial frame at the end is not counted.
pub open spec fn frame_count_of(len: int, width: int, height: int) -> int {
    (len - BYTES_BEFORE_FRAMES) / 3 / (width * height)
}

/// What a video is: its size and its whole byte buffer, headers included.
pub ghost struct VideoView {
    pub width: nat,
    pub height: nat,
    pub bytes: Seq<u8>,
}

impl VideoView {
    /// The headers are present and decode to the (non-zero) size.
    pub open spec fn wf(self) -> bool {
        &&& self.bytes.len() >= BYTES_BEFORE_FRAMES
        &&& self.width == header_value(self.bytes, 0)
        &&& self.height == header_value(self.bytes, 8)
        &&& valid_dimensions(self.width, self.height)
    }

    pub open spec fn frame_len(self) -> nat {
        frame_size(self.width, self.height)
    }

    pub open spec fn frame_count(self) -> int {
        frame_count_of(self.bytes.len() as int, self.width as int, self.height as int)
    }

    /// Offset of the first byte of frame `i`.
    pub open spec fn frame_start(self, i: int) -> int {
        BYTES_BEFORE_FRAMES + i * self.frame_len()
    }

    /// The bytes of frame `i`.
    pub open spec fn frame_bytes(self, i: int) -> Seq<u8> {
        self.bytes.subrange(self.frame_start(i), self.frame_start(i + 1))
    }

    /// Whether `f` has this video's size.
    pub open spec fn fits(self, f: FrameView) -> bool {
        f.width == self.width && f.height == self.height
    }

    /// This video with its buffer replaced by `bytes`.
    pub open spec fn with_bytes(self, bytes: Seq<u8>) -> VideoView {
        VideoView { bytes, ..self }
    }

    /// The buffer with the bytes of frame `i` replaced by `data`.
    pub open spec fn replaced_frame(self, i: int, data: Seq<u8>) -> Seq<u8> {
        self.bytes.subrange(0, self.frame_start(i)) + data + self.bytes.subrange(
            self.frame_start(i + 1),
            self.bytes.len() as int,
        )
    }
}

/// The buffer of a video of the given size that holds no frame yet.
pub open spec fn empty_video_bytes(width: nat, height: nat) -> Seq<u8> {
    encoded_bytes(width) + encoded_bytes(height)
}

/// What reading `bytes` as a video gives.
pub open spec fn decode_video(bytes: Seq<u8>) -> Result<VideoView, VideoError> {
    if bytes.len() < BYTES_BEFORE_FRAMES {
        Err(VideoError::TruncatedHeader)
    } else if header_value(bytes, 0) == 0 || header_value(bytes, 8) == 0 {
        Err(VideoError::InvalidDimension)
    } else {
        Ok(
            VideoView {
                width: header_value(bytes, 0) as nat,
                height: header_value(bytes, 8) as nat,
                bytes,
            },
        )
    }
}

/// Reading back the buffer of a new, empty video gives a video of the size
/// it was made with, and no frame.
pub proof fn lemma_empty_video_round_trip(width: nat, height: nat)
    requires
        valid_dimensions(width, height),
    ensures
        empty_video_bytes(width, height).len() == BYTES_BEFORE_FRAMES,
        decode_video(empty_video_bytes(width, height)) == Ok::<VideoView, VideoError>(
            VideoView { width, height, bytes: empty_video_bytes(width, height) },
        ),
        (VideoView { width, height, bytes: empty_video_bytes(width, height) }).wf(),
        (VideoView { width, height, bytes: empty_video_bytes(width, height) }).frame_count() == 0,
{
    let b = empty_video_bytes(width, height);
    lemma_decode_encode(width);
    lemma_decode_encode(height);
    assert(b.subrange(0, 8) =~= encoded_bytes(width));
    assert(b.subrange(8, 16) =~= encoded_bytes(height));
    lemma_frame_size_bound(width, height);
    let wh = (width * height) as int;
    assert(0int / 3 / wh == 0) by (nonlinear_arith)
        requires
            wh >= 1,
    ;
}

/// Every frame below the frame count lies inside the buffer, also when the
/// buffer ends in a partial frame.
pub proof fn lemma_frame_in_bounds(v: VideoView, i: int)
    requires
        v.wf(),
        0 <= i < v.frame_count(),
    ensures
        BYTES_BEFORE_FRAMES <= v.frame_start(i),
        v.frame_start(i) + v.frame_len() == v.frame_start(i + 1),
        v.frame_start(i + 1) <= v.bytes.len(),
{
    lemma_frame_size_bound(v.width, v.height);
    let n = v.bytes.len() - 16;
    let wh = (v.width * v.height) as int;
    let fl = v.frame_len() as int;
    assert(fl == 3 * wh);
    let q = n / 3;
    let c = q / wh;
    assert(c * wh <= q) by (nonlinear_arith)
        requires
            wh >= 1,
            q >= 0,
            c == q / wh,
    ;
    assert(0 <= i * fl && (i + 1) * fl == i * fl + fl && (i + 1) * fl <= 3 * q) by (nonlinear_arith)
        requires
            0 <= i,
            i + 1 <= c,
            c * wh <= q,
            fl == 3 * wh,
            wh >= 1,
    ;
}

/// Frames come one after the other: frame `i` ends where or before frame
/// `j` starts, for `i < j`.
proof fn lemma_frame_order(v: VideoView, i: int, j: int)
    requires
        v.wf(),
        0 <= i < j,
    ensures
        v.frame_start(i + 1) <= v.frame_start(j),
{
    let fl = v.frame_len() as int;
    assert((i + 1) * fl <= j * fl) by (nonlinear_arith)
        requires
            0 <= i < j,
            fl >= 0,
    ;
}

/// Adding one frame's worth of bytes adds one to the frame count.
proof fn lemma_frame_count_grows(v: VideoView)
    requires
        v.wf(),
    ensures
        frame_count_of(
            (v.bytes.len() + v.frame_len()) as int,
            v.width as int,
            v.height as int,
        ) == v.frame_count() + 1,
{
    lemma_frame_size_bound(v.width, v.height);
    let n = v.bytes.len() - 16;
    let wh = (v.width * v.height) as int;
    let q = n / 3;
    assert((n + 3 * wh) / 3 == q + wh);
    let a = q / wh;
    let b = q % wh;
    assert(q == a * wh + b && 0 <= b < wh) by (nonlinear_arith)
        requires
            wh >= 1,
            q >= 0,
            a == q / wh,
            b == q % wh,
    ;
    assert(q + wh == (a + 1) * wh + b) by (nonlinear_arith)
        requires
            q == a * wh + b,
    ;
    lemma_fundamental_div_mod_converse(q + wh, wh, a + 1, b);
}

/// Copies `src[start..end]` into a new vector.
fn copy_range(src: &Vec<u8>, start: usize, end: usize) -> (r: Vec<u8>)
    requires
        start <= end <= src@.len(),
    ensures
        r@ == src@.subrange(start as int, end as int),
{
    let mut out: Vec<u8> = Vec::new();
    let mut i: usize = start;
    while i < end
        invariant
            start <= i <= end <= src@.len(),
            out@ == src@.subrange(start as int, i as int),
        decreases end - i,
    {
        out.push(src[i]);
        i += 1;
        proof {
            assert(out@ =~= src@.subrange(start as int, i as int));
        }
    }
    out
}

/// Appends the bytes of `src` to `dst`.
fn append_bytes(dst: &mut Vec<u8>, src: &Vec<u8>)
    requires
        old(dst)@.len() + src@.len() <= usize::MAX,
    ensures
        final(dst)@ == old(dst)@ + src@,
{
    let ghost start = dst@;
    let mut i: usize = 0;
    while i < src.len()
        invariant
            i <= src@.len(),
            start.len() + src@.len() <= usize::MAX,
            dst@ == start + src@.subrange(0, i as int),
        decreases src@.len() - i,
    {
        dst.push(src[i]);
        i += 1;
        proof {
            assert(dst@ =~= start + src@.subrange(0, i as int));
        }
    }
    proof {
        assert(src@.subrange(0, src@.len() as int) =~= src@);
    }
}

/// Overwrites `dst[start..start + src.len()]` with the bytes of `src`.
fn write_range(dst: &mut Vec<u8>, start: usize, src: &Vec<u8>)
    requires
        start + src@.len() <= old(dst)@.len(),
    ensures
        final(dst)@ == old(dst)@.subrange(0, start as int) + src@ + old(dst)@.subrange(
            start + src@.len(),
            old(dst)@.len() as int,
        ),
{
    let ghost before = dst@;
    let total = dst.len();
    let mut i: usize = 0;
    while i < src.len()
        invariant
            i <= src@.len(),
            total == before.len(),
            start + src@.len() <= before.len(),
            dst@.len() == before.len(),
            forall|k: int|
                0 <= k < before.len() ==> #[trigger] dst@[k] == if start <= k < start + i {
                    src@[k - start]
                } else {
                    before[k]
                },
        decreases src@.len() - i,
    {
        dst.set(start + i, src[i]);
        i += 1;
    }
    proof {
        assert(dst@ =~= before.subrange(0, start as int) + src@ + before.subrange(
            start + src@.len(),
            before.len() as int,
        ));
    }
}

/// A whole video: the two dimension headers followed by its frames, in one
/// buffer.
pub struct Video {
    data: Vec<u8>,
    width: u32,
    height: u32,
}

impl View for Video {
    type V = VideoView;

    closed spec fn view(&self) -> VideoView {
        VideoView { width: self.width as nat, height: self.height as nat, bytes: self.data@ }
    }
}

impl Video {
    pub open spec fn wf(&self) -> bool {
        self@.wf()
    }

    /// A video of the given size with no frame: the two headers alone.
    pub fn new(width: u32, height: u32) -> (r: Result<Video, VideoError>)
        ensures
            dimension_error(width as nat, height as nat) matches Some(e) ==> r == Err::<
                Video,
                VideoError,
            >(e),
            dimension_error(width as nat, height as nat) is None ==> (r matches Ok(v) && v.wf()
                && v@ == (VideoView {
                width: width as nat,
                height: height as nat,
                bytes: empty_video_bytes(width as nat, height as nat),
            })),
    {
        if width == 0 || height == 0 {
            return Err(VideoError::InvalidDimension);
        }
        let mut data = match dimension_split(width) {
            Ok(b) => b,
            Err(e) => return Err(e),
        };
        let mut tail = match dimension_split(height) {
            Ok(b) => b,
            Err(e) => return Err(e),
        };
        data.append(&mut tail);
        proof {
            lemma_empty_video_round_trip(width as nat, height as nat);
        }
        Ok(Video { data, width, height })
    }

    /// Reads a video from its buffer.
    pub fn from_data(data: &Vec<u8>) -> (r: Result<Video, VideoError>)
        ensures
            match decode_video(data@) {
                Ok(m) => r matches Ok(v) && v.wf() && v@ == m,
                Err(e) => r == Err::<Video, VideoError>(e),
            },
    {
        if !Video::is_data_valid(data) {
            return Err(VideoError::TruncatedHeader);
        }
        let w = Video::get_width_from_data(data);
        let h = Video::get_height_from_data(data);
        if w == 0 || h == 0 {
            return Err(VideoError::InvalidDimension);
        }
        let bytes = data.clone();
        proof {
            assert(bytes@ =~= data@);
        }
        Ok(Video { data: bytes, width: w, height: h })
    }

    /// Appends a frame of the video's size at the end.
    pub fn add_frame(&mut self, frame: &Frame) -> (r: Result<(), VideoError>)
        requires
            old(self).wf(),
            frame.wf(),
            old(self)@.bytes.len() + frame@.data.len() <= usize::MAX,
        ensures
            final(self).wf(),
            !old(self)@.fits(frame@) ==> r == Err::<(), VideoError>(VideoError::DimensionMismatch),
            !old(self)@.fits(frame@) ==> final(self)@ == old(self)@,
            old(self)@.fits(frame@) ==> r is Ok,
            old(self)@.fits(frame@) ==> final(self)@ == old(self)@.with_bytes(
                old(self)@.bytes + frame@.data,
            ),
            old(self)@.fits(frame@) ==> final(self)@.frame_count() == old(self)@.frame_count() + 1,
            old(self)@.fits(frame@) ==> forall|j: int|
                0 <= j < old(self)@.frame_count() ==> #[trigger] final(self)@.frame_bytes(j)
                    == old(self)@.frame_bytes(j),
    {
        if frame.width != self.width || frame.height != self.height {
            return Err(VideoError::DimensionMismatch);
        }
        let ghost before = self@;
        append_bytes(&mut self.data, &frame.data);
        proof {
            let after = self@;
            assert(after.bytes.subrange(0, 8) =~= before.bytes.subrange(0, 8));
            assert(after.bytes.subrange(8, 16) =~= before.bytes.subrange(8, 16));
            lemma_frame_count_grows(before);
            assert forall|j: int| 0 <= j < before.frame_count() implies #[trigger] after.frame_bytes(
                j,
            ) == before.frame_bytes(j) by {
                lemma_frame_in_bounds(before, j);
                assert(after.frame_bytes(j) =~= before.frame_bytes(j));
            }
        }
        Ok(())
    }

    /// Replaces frame `index` with `frame`, which must have the video's size.
    pub fn put_frame(&mut self, frame: &Frame, index: usize) -> (r: Result<(), VideoError>)
        requires
            old(self).wf(),
            frame.wf(),
        ensures
            final(self).wf(),
            !old(self)@.fits(frame@) ==> r == Err::<(), VideoError>(VideoError::DimensionMismatch),
            (old(self)@.fits(frame@) && index >= old(self)@.frame_count()) ==> r == Err::<
                (),
                VideoError,
            >(VideoError::IndexOutOfRange),
            r is Err ==> final(self)@ == old(self)@,
            (old(self)@.fits(frame@) && index < old(self)@.frame_count()) ==> r is Ok,
            r is Ok ==> final(self)@ == old(self)@.with_bytes(
                old(self)@.replaced_frame(index as int, frame@.data),
            ),
            r is Ok ==> final(self)@.frame_count() == old(self)@.frame_count(),
            r is Ok ==> final(self)@.frame_bytes(index as int) == frame@.data,
            r is Ok ==> forall|j: int|
                #![trigger final(self)@.frame_bytes(j)]
                0 <= j < old(self)@.frame_count() ==> (j != index ==> final(self)@.frame_bytes(j)
                    == old(self)@.frame_bytes(j)),
    {
        if frame.width != self.width || frame.height != self.height {
            return Err(VideoError::DimensionMismatch);
        }
        let count = self.get_frame_amount();
        if index >= count {
            return Err(VideoError::IndexOutOfRange);
        }
        let ghost before = self@;
        proof {
            lemma_frame_size_bound(before.width, before.height);
            lemma_frame_in_bounds(before, index as int);
        }
        let len = self.data.len();
        let size: usize = (self.width * self.height * 3) as usize;
        proof {
            let v = self@;
            assert(size as int * index as int == v.frame_start(index as int) - 16) by (
            nonlinear_arith)
                requires
                    size as int == v.frame_len(),
                    v.frame_start(index as int) == 16 + index * v.frame_len(),
            ;
        }
        let begin: usize = BYTES_BEFORE_FRAMES as usize + size * index;
        write_range(&mut self.data, begin, &frame.data);
        proof {
            let after = self@;
            assert(after.bytes.subrange(0, 8) =~= before.bytes.subrange(0, 8));
            assert(after.bytes.subrange(8, 16) =~= before.bytes.subrange(8, 16));
            assert(after.frame_bytes(index as int) =~= frame@.data);
            assert forall|j: int| 0 <= j < before.frame_count() && j != index implies #[trigger] after.frame_bytes(
                j,
            ) == before.frame_bytes(j) by {
                lemma_frame_in_bounds(before, j);
                if j < index {
                    lemma_frame_order(before, j, index as int);
                } else {
                    lemma_frame_order(before, index as int, j);
                }
                assert(after.frame_bytes(j) =~= before.frame_bytes(j));
            }
        }
        Ok(())
    }

    /// A copy of frame `index`.
    pub fn get_frame(&self, index: usize) -> (r: Result<Frame, VideoError>)
        requires
            self.wf(),
        ensures
            index < self@.frame_count() ==> (r matches Ok(f) && f.wf() && f@ == (FrameView {
                width: self@.width,
                height: self@.height,
                data: self@.frame_bytes(index as int),
            })),
            index >= self@.frame_count() ==> r == Err::<Frame, VideoError>(
                VideoError::IndexOutOfRange,
            ),
    {
        let count = self.get_frame_amount();
        if index >= count {
            return Err(VideoError::IndexOutOfRange);
        }
        proof {
            lemma_frame_size_bound(self@.width, self@.height);
            lemma_frame_in_bounds(self@, index as int);
        }
        let len = self.data.len();
        let size: usize = (self.width * self.height * 3) as usize;
        proof {
            let v = self@;
            assert(size as int * index as int == v.frame_start(index as int) - 16) by (
            nonlinear_arith)
                requires
                    size as int == v.frame_len(),
                    v.frame_start(index as int) == 16 + index * v.frame_len(),
            ;
        }
        let begin: usize = BYTES_BEFORE_FRAMES as usize + size * index;
        let end: usize = begin + size;
        let frame_data = copy_range(&self.data, begin, end);
        Frame::from_data(self.width, self.height, frame_data)
    }

    /// A copy of the whole buffer, headers included.
    pub fn get_data(&self) -> (r: Vec<u8>)
        ensures
            r@ == self@.bytes,
    {
        let r = self.data.clone();
        proof {
            assert(r@ =~= self.data@);
        }
        r
    }

    /// Number of whole frames in the video.
    pub fn get_frame_amount(&self) -> (r: usize)
        requires
            self.wf(),
        ensures
            r == self@.frame_count(),
    {
        Video::get_frame_amount_from_data(&self.data)
    }

    pub fn get_width(&self) -> (r: u32)
        ensures
            r == self@.width,
    {
        self.width
    }

    pub fn get_height(&self) -> (r: u32)
        ensures
            r == self@.height,
    {
        self.height
    }

    /// Whether `data` is long enough to hold the two headers.
    pub fn is_data_valid(data: &Vec<u8>) -> (r: bool)
        ensures
            r == (data@.len() >= BYTES_BEFORE_FRAMES),
    {
        data.len() >= BYTES_BEFORE_FRAMES as usize
    }

    /// The width that the first header of `data` holds.
    pub fn get_width_from_data(data: &Vec<u8>) -> (r: u32)
        ensures
            r == header_value(data@, 0),
            r <= VIDEO_MAX_DIMENSION,
    {
        header_at(data.as_slice(), 0)
    }

    /// The height that the second header of `data` holds.
    pub fn get_height_from_data(data: &Vec<u8>) -> (r: u32)
        ensures
            r == header_value(data@, 8),
            r <= VIDEO_MAX_DIMENSION,
    {
        header_at(data.as_slice(), 8)
    }

    /// Number of whole frames in a video buffer.
    pub fn get_frame_amount_from_data(data: &Vec<u8>) -> (r: usize)
        requires
            data@.len() >= BYTES_BEFORE_FRAMES,
            header_value(data@, 0) > 0,
            header_value(data@, 8) > 0,
        ensures
            r == frame_count_of(data@.len() as int, header_value(data@, 0), header_value(data@, 8)),
    {
        let w = Video::get_width_from_data(data);
        let h = Video::get_height_from_data(data);
        proof {
            lemma_frame_size_bound(w as nat, h as nat);
        }
        (data.len() - BYTES_BEFORE_FRAMES as usize) / 3 / ((w * h) as usize)
    }
}

} // verus!
