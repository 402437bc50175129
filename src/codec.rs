use vstd::prelude::*;

use crate::error::VideoError;

verus! {

/// Number of bytes in one dimension header.
pub const VIDEO_SIZE_BYTE_LENGTH: u32 = 8;

/// Largest width or height that a header can hold: eight bytes of 255.
pub const VIDEO_MAX_DIMENSION: u32 = VIDEO_SIZE_BYTE_LENGTH * 255;

/// Bytes in front of the first frame: the width and the height headers.
pub const BYTES_BEFORE_FRAMES: u32 = VIDEO_SIZE_BYTE_LENGTH * 2;

/// The arithmetic sum of a byte sequence.
pub open spec fn bytes_sum(s: Seq<u8>) -> int
    decreases s.len(),
{
    if s.len() == 0 {
        0
    } else {
        bytes_sum(s.drop_last()) + s.last() as int
    }
}

/// How many leading header bytes carry a dimension: `ceil(d / 255)`.
pub open spec fn byte_count(d: nat) -> nat {
    ((d + 254) / 255) as nat
}

/// Byte `i` of the header for dimension `d`: the dimension is spread evenly
/// over the first `byte_count(d)` bytes, the first `d % byte_count(d)` of them
/// carrying one more; the remaining bytes are zero.
pub open spec fn encoded_byte(d: nat, i: int) -> int {
    let c = byte_count(d);
    if 0 <= i < c {
        (d / c) as int + if i < d % c {
            1int
        } else {
            0int
        }
    } else {
        0
    }
}

/// The eight-byte header for dimension `d`.
pub open spec fn encoded_bytes(d: nat) -> Seq<u8> {
    Seq::new(VIDEO_SIZE_BYTE_LENGTH as nat, |i: int| encoded_byte(d, i) as u8)
}

/// `i` clamped to the length of `s`.
pub open spec fn clamp_to_len(s: Seq<u8>, i: int) -> int {
    if i < s.len() {
        i
    } else {
        s.len() as int
    }
}

/// The value of the header that starts at `start`: the sum of the (at most
/// eight) bytes from there.
pub open spec fn header_value(data: Seq<u8>, start: int) -> int {
    bytes_sum(data.subrange(clamp_to_len(data, start), clamp_to_len(data, start + 8)))
}

proof fn lemma_bytes_sum_bound(s: Seq<u8>)
    ensures
        0 <= bytes_sum(s) <= 255 * s.len(),
    decreases s.len(),
{
    if s.len() > 0 {
        lemma_bytes_sum_bound(s.drop_last());
    }
}

/// A header, and any window of at most eight bytes, decodes to at most 2040.
pub proof fn lemma_header_value_bound(data: Seq<u8>, start: int)
    requires
        0 <= start,
    ensures
        0 <= header_value(data, start) <= VIDEO_MAX_DIMENSION,
{
    let w = data.subrange(clamp_to_len(data, start), clamp_to_len(data, start + 8));
    lemma_bytes_sum_bound(w);
}

proof fn lemma_count_facts(d: nat)
    requires
        0 < d <= VIDEO_MAX_DIMENSION,
    ensures
        1 <= byte_count(d) <= 8,
        d <= 255 * byte_count(d),
        d == byte_count(d) * (d / byte_count(d)) + d % byte_count(d),
        0 <= d % byte_count(d) < byte_count(d),
        d / byte_count(d) <= 255,
        d % byte_count(d) > 0 ==> d / byte_count(d) < 255,
{
    let c = byte_count(d);
    let n = d + 254;
    assert(n == 255 * (n / 255) + n % 255 && 0 <= n % 255 < 255) by (nonlinear_arith)
        requires
            n >= 0,
    ;
    assert(1 <= c <= 8);
    let b = d / c;
    let m = d % c;
    assert(d == c * b + m && 0 <= m < c) by (nonlinear_arith)
        requires
            c >= 1,
            b == d / c,
            m == d % c,
    ;
    assert(b <= 255) by (nonlinear_arith)
        requires
            d == c * b + m,
            m >= 0,
            d <= 255 * c,
            c >= 1,
    ;
    assert(m > 0 ==> b < 255) by (nonlinear_arith)
        requires
            d == c * b + m,
            d <= 255 * c,
            c >= 1,
    ;
}

/// Every byte of a header lies in `0..=255`.
proof fn lemma_encoded_byte_bound(d: nat, i: int)
    requires
        d <= VIDEO_MAX_DIMENSION,
    ensures
        0 <= encoded_byte(d, i) <= 255,
        encoded_bytes(d).len() == 8,
        0 <= i < 8 ==> encoded_bytes(d)[i] as int == encoded_byte(d, i),
{
    if d > 0 {
        lemma_count_facts(d);
    }
}

/// The sum of the first `k` header bytes for dimension `d`.
proof fn lemma_encoded_prefix_sum(d: nat, k: int)
    requires
        d <= VIDEO_MAX_DIMENSION,
        0 <= k <= 8,
    ensures
        d == 0 ==> bytes_sum(encoded_bytes(d).take(k)) == 0,
        d > 0 ==> bytes_sum(encoded_bytes(d).take(k)) == (if k < byte_count(d) {
            k
        } else {
            byte_count(d) as int
        }) * (d / byte_count(d)) + (if k < d % byte_count(d) {
            k
        } else {
            (d % byte_count(d)) as int
        }),
    decreases k,
{
    if k == 0 {
        assert(encoded_bytes(d).take(k).len() == 0);
        assert(0 * (d / byte_count(d)) == 0) by (nonlinear_arith);
    } else {
        lemma_encoded_prefix_sum(d, k - 1);
        lemma_encoded_byte_bound(d, k - 1);
        let s = encoded_bytes(d).take(k);
        assert(s.drop_last() =~= encoded_bytes(d).take(k - 1));
        if d > 0 {
            lemma_count_facts(d);
            let c = byte_count(d) as int;
            let b = (d / byte_count(d)) as int;
            let m = (d % byte_count(d)) as int;
            let kc = if k - 1 < c {
                k - 1
            } else {
                c
            };
            let kr = if k - 1 < m {
                k - 1
            } else {
                m
            };
            assert(bytes_sum(s) == kc * b + kr + encoded_byte(d, k - 1));
            if k - 1 < c {
                assert((kc + 1) * b == kc * b + b) by (nonlinear_arith);
                assert(encoded_byte(d, k - 1) == b + if k - 1 < m {
                    1int
                } else {
                    0int
                });
            } else {
                assert(encoded_byte(d, k - 1) == 0);
            }
            let kc2 = if k < c {
                k
            } else {
                c
            };
            let kr2 = if k < m {
                k
            } else {
                m
            };
            assert(bytes_sum(s) == kc2 * b + kr2);
        }
    }
}

/// Decoding the header of a dimension gives the dimension back.
pub proof fn lemma_decode_encode(d: nat)
    requires
        d <= VIDEO_MAX_DIMENSION,
    ensures
        bytes_sum(encoded_bytes(d)) == d,
{
    lemma_encoded_prefix_sum(d, 8);
    assert(encoded_bytes(d).take(8) =~= encoded_bytes(d));
    if d > 0 {
        lemma_count_facts(d);
    }
}

/// Every byte of the header of `d` is at most 255, so none is cut short when
/// stored as a `u8`, and the bytes sum to `d`.
pub proof fn lemma_encoding_bytes(d: nat)
    requires
        d <= VIDEO_MAX_DIMENSION,
    ensures
        encoded_bytes(d).len() == 8,
        forall|i: int|
            0 <= i < 8 ==> 0 <= #[trigger] encoded_byte(d, i) <= 255 && encoded_bytes(d)[i] as int
                == encoded_byte(d, i),
        bytes_sum(encoded_bytes(d)) == d,
{
    assert forall|i: int| 0 <= i < 8 implies 0 <= #[trigger] encoded_byte(d, i) <= 255
        && encoded_bytes(d)[i] as int == encoded_byte(d, i) by {
        lemma_encoded_byte_bound(d, i);
    }
    lemma_decode_encode(d);
}

/// Encodes a width or height as an eight-byte header whose bytes sum to it,
/// spread as evenly as possible over the fewest leading bytes.
pub fn dimension_split(dimension: u32) -> (r: Result<Vec<u8>, VideoError>)
    ensures
        dimension <= VIDEO_MAX_DIMENSION ==> (r matches Ok(v) && v@ == encoded_bytes(
            dimension as nat,
        )),
        dimension > VIDEO_MAX_DIMENSION ==> r == Err::<Vec<u8>, VideoError>(
            VideoError::DimensionTooLarge,
        ),
{
    if dimension > VIDEO_MAX_DIMENSION {
        return Err(VideoError::DimensionTooLarge);
    }
    let ghost d = dimension as nat;
    let mut res: Vec<u8> = Vec::new();
    if dimension != 0 {
        // ceil(dimension / 255)
        let count: u32 = (dimension + 254) / 255;
        proof {
            lemma_count_facts(d);
        }
        let base: u32 = dimension / count;
        let mut j: u32 = 0;
        while j < count
            invariant
                count == byte_count(d),
                1 <= count <= 8,
                base == d / byte_count(d),
                base <= 255,
                j <= count,
                res@.len() == j,
                forall|i: int| 0 <= i < j ==> res@[i] == base,
            decreases count - j,
        {
            res.push(base as u8);
            j += 1;
        }
        let rem: u32 = dimension % count;
        let mut j: u32 = 0;
        while j < rem
            invariant
                count == byte_count(d),
                1 <= count <= 8,
                base == d / byte_count(d),
                rem == d % byte_count(d),
                rem > 0 ==> base < 255,
                rem < count,
                j <= rem,
                res@.len() == count,
                forall|i: int|
                    0 <= i < count ==> res@[i] as int == base + if i < j {
                        1int
                    } else {
                        0int
                    },
            decreases rem - j,
        {
            let v = res[j as usize] + 1;
            res.set(j as usize, v);
            j += 1;
        }
        assert(forall|i: int| 0 <= i < res@.len() ==> res@[i] as int == encoded_byte(d, i));
    }
    while res.len() < 8
        invariant
            d <= VIDEO_MAX_DIMENSION,
            res@.len() >= byte_count(d),
            res@.len() <= 8,
            forall|i: int| 0 <= i < res@.len() ==> res@[i] as int == encoded_byte(d, i),
        decreases 8 - res@.len(),
    {
        proof {
            if d > 0 {
                lemma_count_facts(d);
            }
        }
        res.push(0);
    }
    proof {
        assert forall|i: int| 0 <= i < 8 implies res@[i] == encoded_bytes(d)[i] by {
            lemma_encoded_byte_bound(d, i);
        }
        assert(res@ =~= encoded_bytes(d));
    }
    Ok(res)
}

/// Sums `data[start..end]`, a window of at most eight bytes.
fn window_sum(data: &[u8], start: usize, end: usize) -> (r: u32)
    requires
        start <= end <= data@.len(),
        end - start <= 8,
    ensures
        r == bytes_sum(data@.subrange(start as int, end as int)),
{
    let mut res: u32 = 0;
    let mut i: usize = start;
    while i < end
        invariant
            start <= i <= end <= data@.len(),
            end - start <= 8,
            res == bytes_sum(data@.subrange(start as int, i as int)),
        decreases end - i,
    {
        proof {
            let s = data@.subrange(start as int, i as int + 1);
            assert(s.drop_last() =~= data@.subrange(start as int, i as int));
            lemma_bytes_sum_bound(s);
        }
        res = res + data[i] as u32;
        i += 1;
    }
    res
}

/// Decodes an eight-byte dimension header: the sum of its bytes.
pub fn dimension_join(bytes: &[u8]) -> (r: u32)
    requires
        bytes@.len() == VIDEO_SIZE_BYTE_LENGTH,
    ensures
        r == bytes_sum(bytes@),
        r <= VIDEO_MAX_DIMENSION,
{
    proof {
        assert(bytes@.subrange(0, 8) =~= bytes@);
        lemma_bytes_sum_bound(bytes@);
    }
    window_sum(bytes, 0, 8)
}

/// Decodes the header that starts at `start`, or the bytes of it that `data`
/// holds when it is shorter.
pub(crate) fn header_at(data: &[u8], start: usize) -> (r: u32)
    requires
        start <= 8,
    ensures
        r == header_value(data@, start as int),
        r <= VIDEO_MAX_DIMENSION,
{
    let len = data.len();
    let lo = if start < len {
        start
    } else {
        len
    };
    let hi = if start + 8 < len {
        start + 8
    } else {
        len
    };
    proof {
        lemma_header_value_bound(data@, start as int);
    }
    window_sum(data, lo, hi)
}

/// The pixel coordinates `(x, y)` of pixel number `index`, counted row by row
/// in a frame of the given size (wrapping past the last row).
pub fn get_coords_at_idx(index: u32, width: u32, height: u32) -> (r: (u32, u32))
    requires
        width > 0,
        height > 0,
    ensures
        r.0 == index % width,
        r.1 == (index / width) % height,
{
    let x = index % width;
    let y = (index / width) % height;
    (x, y)
}

/// The number of the pixel at `(x, y)`, counted row by row in a frame that is
/// `width` pixels wide.
pub fn get_idx_at_coords(x: u32, y: u32, width: u32) -> (r: u32)
    requires
        y * width + x <= u32::MAX,
    ensures
        r == y * width + x,
{
    proof {
        assert(0 <= y * width) by (nonlinear_arith);
    }
    y * width + x
}

} // verus!
