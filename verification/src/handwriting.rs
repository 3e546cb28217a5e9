//! Handwritten message payloads: stroke decoding and rendering.
//!
//! A handwritten message arrives as a small record (identifier, creation
//! time, a frame rectangle and a blob of stroke bytes, possibly
//! XZ-compressed). This module decodes the stroke bytes into strokes of
//! points, scales them into the frame, and renders them as an SVG or an
//! ASCII graphic.

use vstd::prelude::*;

verus! {

/// Represents a point along a handwritten line.
#[derive(Debug, Clone, Copy, PartialEq, Eq, Structural)]
pub struct Point {
    pub x: u16,
    pub y: u16,
    pub width: u16,
}

/// How the stroke bytes of a payload are encoded.
#[derive(Debug, Clone, Copy, PartialEq, Eq, Structural)]
pub enum StrokeCompression {
    Uncompressed,
    Xz,
    Unrecognized,
}

/// The plain fields of a handwritten-message payload, as handed over by the
/// collaborator that decodes the on-disk protobuf envelope.
#[derive(Debug, Clone, PartialEq, Eq)]
pub struct HandwritingPayload {
    pub id: String,
    /// Creation time, seconds with an epoch of 2001-01-01 in local time.
    pub created_at: i64,
    pub compression: StrokeCompression,
    /// Raw stroke bytes, compressed according to `compression`.
    pub strokes: Vec<u8>,
    /// Expected byte length after decompression, when compressed.
    pub decompressed_length: Option<i64>,
    /// Frame rectangle; the last four bytes carry width and height.
    pub frame: Vec<u8>,
}

/// Everything that can go wrong while decoding a handwritten payload.
#[derive(Debug, Clone, Copy, PartialEq, Eq, Structural)]
pub enum HandwritingError {
    XzError,
    CompressionUnknown,
    DecompressedNotSet,
    InvalidDecompressedLength(u64, u64),
    InvalidFrameSize(u64),
    InvalidStrokesLength(u64, u64),
    ConversionError,
}

/// Converts a little-endian coordinate byte pair to a `u16`, flipping the
/// sign bit the payload stores coordinates with.
pub open spec fn spec_coordinate(b1: u8, b2: u8) -> u16 {
    (((b2 as u16) << 8u16) | (b1 as u16)) ^ 0x8000u16
}

/// Converts coordinate bytes to a `u16`.
pub fn parse_coordinates(b1: u8, b2: u8) -> (r: u16)
    ensures
        r == spec_coordinate(b1, b2),
{
    (((b2 as u16) << 8) | (b1 as u16)) ^ 0x8000
}

/// What the XZ decoder yields on a given input stream: `Some` with the
/// decoded bytes when the stream is well formed, `None` otherwise.
pub uninterp spec fn xz_decoded(data: Seq<u8>) -> Option<Seq<u8>>;

/// Relies on lzma_rs::xz_decompress: decoding reads the input bytes alone
/// (the reader is an in-memory cursor, the writer an in-memory buffer), so
/// both the decoded bytes and whether decoding succeeds are functions of the
/// input bytes.
#[verifier::external_body]
fn xz_decompress_bytes(data: &Vec<u8>) -> (r: Option<Vec<u8>>)
    ensures
        r is Some <==> xz_decoded(data@) is Some,
        r matches Some(v) ==> v@ == xz_decoded(data@)->Some_0,
{
    let mut cursor = std::io::Cursor::new(data.as_slice());
    let mut buf = Vec::new();
    match lzma_rs::xz_decompress(&mut cursor, &mut buf) {
        Ok(()) => Some(buf),
        Err(_) => None,
    }
}

/// The stroke bytes a payload carries, after undoing its compression:
/// uncompressed bytes are taken as they stand; XZ bytes must decode and
/// match the advertised decompressed length; anything else is an error.
pub open spec fn spec_decompressed_strokes(payload: HandwritingPayload) -> Result<
    Seq<u8>,
    HandwritingError,
> {
    match payload.compression {
        StrokeCompression::Uncompressed => Ok(payload.strokes@),
        StrokeCompression::Xz => match xz_decoded(payload.strokes@) {
            Option::Some(data) => match payload.decompressed_length {
                Option::Some(n) => if n < 0 {
                    Err(HandwritingError::ConversionError)
                } else if n != data.len() {
                    Err(HandwritingError::InvalidDecompressedLength(n as u64, data.len() as u64))
                } else {
                    Ok(data)
                },
                Option::None => Err(HandwritingError::DecompressedNotSet),
            },
            Option::None => Err(HandwritingError::XzError),
        },
        StrokeCompression::Unrecognized => Err(HandwritingError::CompressionUnknown),
    }
}

/// Decompresses raw stroke data and verifies its length.
pub fn decompress_strokes(payload: &HandwritingPayload) -> (r: Result<Vec<u8>, HandwritingError>)
    ensures
        match r {
            Ok(data) => spec_decompressed_strokes(*payload) == Ok::<Seq<u8>, HandwritingError>(
                data@,
            ),
            Err(e) => spec_decompressed_strokes(*payload) == Err::<Seq<u8>, HandwritingError>(e),
        },
{
    match payload.compression {
        StrokeCompression::Uncompressed => Ok(payload.strokes.clone()),
        StrokeCompression::Xz => match xz_decompress_bytes(&payload.strokes) {
            Some(data) => match payload.decompressed_length {
                Some(n) => {
                    if n < 0 {
                        Err(HandwritingError::ConversionError)
                    } else if n as u64 != data.len() as u64 {
                        Err(
                            HandwritingError::InvalidDecompressedLength(
                                n as u64,
                                data.len() as u64,
                            ),
                        )
                    } else {
                        Ok(data)
                    }
                },
                None => Err(HandwritingError::DecompressedNotSet),
            },
            None => Err(HandwritingError::XzError),
        },
        StrokeCompression::Unrecognized => Err(HandwritingError::CompressionUnknown),
    }
}

/// The drawing size stored in the frame rectangle: bytes four to seven hold
/// the width and height coordinate pairs.
pub open spec fn spec_dimensions(frame: Seq<u8>) -> Result<(u16, u16), HandwritingError> {
    if frame.len() != 8 {
        Err(HandwritingError::InvalidFrameSize(frame.len() as u64))
    } else {
        Ok((spec_coordinate(frame[4], frame[5]), spec_coordinate(frame[6], frame[7])))
    }
}

/// Parses the drawing size from a payload's frame rectangle.
pub fn parse_dimensions(payload: &HandwritingPayload) -> (r: Result<
    (u16, u16),
    HandwritingError,
>)
    ensures
        r == spec_dimensions(payload.frame@),
{
    let rect = &payload.frame;
    if rect.len() != 8 {
        return Err(HandwritingError::InvalidFrameSize(rect.len() as u64));
    }
    Ok((parse_coordinates(rect[4], rect[5]), parse_coordinates(rect[6], rect[7])))
}

/// The point stored at byte offset `i`: three coordinate pairs, with two
/// trailing bytes that the format leaves unused.
pub open spec fn spec_point_at(data: Seq<u8>, i: int) -> Point {
    Point {
        x: spec_coordinate(data[i], data[i + 1]),
        y: spec_coordinate(data[i + 2], data[i + 3]),
        width: spec_coordinate(data[i + 4], data[i + 5]),
    }
}

/// The first `n` points of a stroke whose point records begin at `start`,
/// eight bytes apart.
pub open spec fn spec_stroke_points(data: Seq<u8>, start: int, n: int) -> Seq<Point>
    decreases n,
{
    if n <= 0 {
        Seq::empty()
    } else {
        spec_stroke_points(data, start, n - 1).push(spec_point_at(data, start + 8 * (n - 1)))
    }
}

/// The little-endian point count stored at `idx`.
pub open spec fn spec_stroke_count(data: Seq<u8>, idx: int) -> int {
    data[idx] + 256 * data[idx + 1]
}

/// Addition on `u64` that stops at the largest value instead of wrapping.
pub open spec fn spec_sat_add(a: u64, b: u64) -> u64 {
    if a + b > u64::MAX {
        u64::MAX
    } else {
        (a + b) as u64
    }
}

/// The strokes encoded from byte offset `idx` on: each stroke is a two-byte
/// point count followed by that many eight-byte point records; a count that
/// runs past the end of the data is an error.
pub open spec fn spec_strokes_from(data: Seq<u8>, idx: int) -> Result<
    Seq<Seq<Point>>,
    HandwritingError,
>
    decreases data.len() - idx,
{
    if idx >= data.len() {
        Ok(Seq::empty())
    } else if idx + 1 >= data.len() {
        Err(HandwritingError::InvalidStrokesLength((idx + 1) as u64, data.len() as u64))
    } else {
        let n = spec_stroke_count(data, idx);
        if idx + 2 + 8 * n > data.len() {
            Err(
                HandwritingError::InvalidStrokesLength(
                    spec_sat_add((idx + 2) as u64, (8 * n) as u64),
                    data.len() as u64,
                ),
            )
        } else {
            match spec_strokes_from(data, idx + 2 + 8 * n) {
                Ok(rest) => Ok(seq![spec_stroke_points(data, idx + 2, n)] + rest),
                Err(e) => Err(e),
            }
        }
    }
}

/// The sequence of strokes a stroke vector stands for.
pub open spec fn strokes_view(v: Vec<Vec<Point>>) -> Seq<Seq<Point>> {
    Seq::new(v@.len(), |i: int| v@[i]@)
}

/// Prepends an already-parsed prefix to the outcome of parsing the rest.
pub open spec fn spec_strokes_combine(
    prefix: Seq<Seq<Point>>,
    rest: Result<Seq<Seq<Point>>, HandwritingError>,
) -> Result<Seq<Seq<Point>>, HandwritingError> {
    match rest {
        Ok(tail) => Ok(prefix + tail),
        Err(e) => Err(e),
    }
}

/// Parses raw stroke data into an array of strokes.
pub fn parse_strokes(data: &Vec<u8>) -> (r: Result<Vec<Vec<Point>>, HandwritingError>)
    ensures
        match r {
            Ok(strokes) => spec_strokes_from(data@, 0) == Ok::<_, HandwritingError>(
                strokes_view(strokes),
            ),
            Err(e) => spec_strokes_from(data@, 0) == Err::<Seq<Seq<Point>>, _>(e),
        },
{
    let length = data.len();
    let mut strokes: Vec<Vec<Point>> = Vec::new();
    let mut idx: usize = 0;
    proof {
        assert(strokes_view(strokes) + spec_strokes_from(data@, 0)->Ok_0 =~= spec_strokes_from(
            data@,
            0,
        )->Ok_0);
    }
    while idx < length
        invariant
            idx <= length == data@.len(),
            spec_strokes_from(data@, 0) == spec_strokes_combine(
                strokes_view(strokes),
                spec_strokes_from(data@, idx as int),
            ),
        decreases length - idx,
    {
        if idx + 1 >= length {
            return Err(
                HandwritingError::InvalidStrokesLength((idx + 1) as u64, length as u64),
            );
        }
        let num_points: usize = (data[idx] as usize) + 256 * (data[idx + 1] as usize);
        let start = idx + 2;
        if num_points * 8 > length - start {
            let needed = ((start as u64)).checked_add((num_points as u64) * 8);
            let reported = match needed {
                Some(v) => v,
                None => u64::MAX,
            };
            assert(reported == spec_sat_add((start) as u64, (8 * num_points) as u64));
            return Err(HandwritingError::InvalidStrokesLength(reported, length as u64));
        }
        let mut stroke: Vec<Point> = Vec::new();
        let mut j: usize = 0;
        while j < num_points
            invariant
                j <= num_points,
                start + 8 * num_points <= length == data@.len(),
                stroke@ == spec_stroke_points(data@, start as int, j as int),
            decreases num_points - j,
        {
            let pos = start + 8 * j;
            let p = Point {
                x: parse_coordinates(data[pos], data[pos + 1]),
                y: parse_coordinates(data[pos + 2], data[pos + 3]),
                width: parse_coordinates(data[pos + 4], data[pos + 5]),
            };
            stroke.push(p);
            j += 1;
        }
        let ghost old_strokes = strokes_view(strokes);
        let ghost old_idx = idx as int;
        strokes.push(stroke);
        idx = start + 8 * num_points;
        proof {
            assert(strokes_view(strokes) =~= old_strokes.push(stroke@));
            let next = spec_strokes_from(data@, idx as int);
            if next is Ok {
                assert(old_strokes + (seq![stroke@] + next->Ok_0) =~= strokes_view(strokes)
                    + next->Ok_0);
            }
        }
    }
    proof {
        assert(strokes_view(strokes) + Seq::<Seq<Point>>::empty() =~= strokes_view(strokes));
    }
    Ok(strokes)
}

/// The larger of two `u16` values.
pub open spec fn spec_max16(a: u16, b: u16) -> u16 {
    if a >= b {
        a
    } else {
        b
    }
}

/// A point's pen width less one, stopping at zero.
pub open spec fn spec_width_less_one(w: u16) -> u16 {
    if w == 0 {
        0
    } else {
        (w - 1) as u16
    }
}

/// Extends a running `(max x, max y, max width)` triple with one point.
pub open spec fn spec_dim_join(acc: (u16, u16, u16), p: Point) -> (u16, u16, u16) {
    (spec_max16(acc.0, p.x), spec_max16(acc.1, p.y), spec_max16(acc.2, spec_width_less_one(p.width)))
}

/// Folds `spec_dim_join` over the points of one stroke, from index `j` on.
pub open spec fn spec_dim_fold_points(acc: (u16, u16, u16), points: Seq<Point>, j: int) -> (
    u16,
    u16,
    u16,
)
    decreases points.len() - j,
{
    if j < 0 || j >= points.len() {
        acc
    } else {
        spec_dim_fold_points(spec_dim_join(acc, points[j]), points, j + 1)
    }
}

/// Folds `spec_dim_join` over every point of every stroke, from stroke `i` on.
pub open spec fn spec_dim_fold(acc: (u16, u16, u16), strokes: Seq<Seq<Point>>, i: int) -> (
    u16,
    u16,
    u16,
)
    decreases strokes.len() - i,
{
    if i < 0 || i >= strokes.len() {
        acc
    } else {
        spec_dim_fold(spec_dim_fold_points(acc, strokes[i], 0), strokes, i + 1)
    }
}

/// The maximum `x`, `y` and pen width (less one) over all points.
pub open spec fn spec_max_dims(strokes: Seq<Seq<Point>>) -> (u16, u16, u16) {
    spec_dim_fold((0u16, 0u16, 0u16), strokes, 0)
}

/// Iterates through each point in each stroke and extracts the maximum `x`,
/// `y`, and `width` values.
pub fn get_max_dimension(strokes: &Vec<Vec<Point>>) -> (r: (u16, u16, u16))
    ensures
        r == spec_max_dims(strokes_view(*strokes)),
{
    let ghost all = strokes_view(*strokes);
    let mut acc: (u16, u16, u16) = (0, 0, 0);
    let mut i: usize = 0;
    while i < strokes.len()
        invariant
            i <= strokes.len(),
            all == strokes_view(*strokes),
            spec_dim_fold(acc, all, i as int) == spec_max_dims(all),
        decreases strokes.len() - i,
    {
        let stroke = &strokes[i];
        let mut j: usize = 0;
        while j < stroke.len()
            invariant
                j <= stroke.len(),
                i < strokes.len(),
                all == strokes_view(*strokes),
                stroke == &strokes[i as int],
                spec_dim_fold(spec_dim_fold_points(acc, stroke@, j as int), all, i as int + 1)
                    == spec_max_dims(all),
            decreases stroke.len() - j,
        {
            let p = stroke[j];
            let less = if p.width == 0 {
                0
            } else {
                p.width - 1
            };
            let x = if acc.0 >= p.x {
                acc.0
            } else {
                p.x
            };
            let y = if acc.1 >= p.y {
                acc.1
            } else {
                p.y
            };
            let w = if acc.2 >= less {
                acc.2
            } else {
                less
            };
            proof {
                assert(all[i as int] == stroke@);
            }
            acc = (x, y, w);
            j += 1;
        }
        i += 1;
    }
    acc
}

/// Scales `v` from a source axis of size `max_v` onto an axis of size
/// `box_size`, truncating to sixteen bits as the hardware cast does.
pub open spec fn spec_resize(v: u16, box_size: u16, max_v: u16) -> u16 {
    if max_v == 0 {
        0
    } else {
        (((v * box_size) / (max_v as int)) % 0x10000) as u16
    }
}

/// Resize converts `v` from a coordinate where `max_v` is the current
/// height or width and `box_size` is the wanted height or width.
pub fn resize(v: u16, box_size: u16, max_v: u16) -> (r: u16)
    ensures
        r == spec_resize(v, box_size, max_v),
{
    if max_v == 0 {
        return 0;
    }
    proof {
        assert(0 <= (v as int) * (box_size as int) <= 0xffff * 0xffff) by (nonlinear_arith)
            requires
                0 <= v <= 0xffff,
                0 <= box_size <= 0xffff,
        ;
    }
    let prod: u32 = (v as u32) * (box_size as u32);
    let q: u32 = prod / (max_v as u32);
    (q % 0x10000) as u16
}

/// One point scaled into a `width` by `height` box, its pen width scaled to
/// one through ten.
pub open spec fn spec_fit_point(p: Point, height: u16, width: u16, max_x: u16, max_y: u16, max_width: u16) -> Point {
    Point {
        x: spec_resize(p.x, width, max_x),
        y: spec_resize(p.y, height, max_y),
        width: ((spec_resize(p.width, 9, max_width) + 1) % 0x10000) as u16,
    }
}

/// Every stroke scaled pointwise by `spec_fit_point`.
pub open spec fn spec_fit_strokes(strokes: Seq<Seq<Point>>, height: u16, width: u16, max_x: u16, max_y: u16, max_width: u16) -> Seq<Seq<Point>> {
    Seq::new(
        strokes.len(),
        |i: int|
            Seq::new(
                strokes[i].len(),
                |j: int| spec_fit_point(strokes[i][j], height, width, max_x, max_y, max_width),
            ),
    )
}

/// Converts all points from a canvas of `max_x` by `max_y` to a canvas of
/// `height` and `width`.
pub fn fit_strokes(
    strokes: &Vec<Vec<Point>>,
    height: u16,
    width: u16,
    max_x: u16,
    max_y: u16,
    max_width: u16,
) -> (r: Vec<Vec<Point>>)
    ensures
        strokes_view(r) == spec_fit_strokes(
            strokes_view(*strokes),
            height,
            width,
            max_x,
            max_y,
            max_width,
        ),
{
    let ghost all = strokes_view(*strokes);
    let ghost fitted = spec_fit_strokes(all, height, width, max_x, max_y, max_width);
    let mut out: Vec<Vec<Point>> = Vec::new();
    let mut i: usize = 0;
    while i < strokes.len()
        invariant
            i <= strokes.len(),
            all == strokes_view(*strokes),
            fitted == spec_fit_strokes(all, height, width, max_x, max_y, max_width),
            out@.len() == i,
            forall|k: int| 0 <= k < i ==> out@[k]@ == fitted[k],
        decreases strokes.len() - i,
    {
        let stroke = &strokes[i];
        let mut scaled: Vec<Point> = Vec::new();
        let mut j: usize = 0;
        while j < stroke.len()
            invariant
                j <= stroke.len(),
                i < strokes.len(),
                all == strokes_view(*strokes),
                fitted == spec_fit_strokes(all, height, width, max_x, max_y, max_width),
                stroke == &strokes[i as int],
                scaled@.len() == j,
                forall|k: int| 0 <= k < j ==> scaled@[k] == fitted[i as int][k],
            decreases stroke.len() - j,
        {
            let p = stroke[j];
            let sw = resize(p.width, 9, max_width);
            let bumped = (((sw as u32) + 1) % 0x10000) as u16;
            proof {
                assert(all[i as int] == stroke@);
            }
            scaled.push(
                Point {
                    x: resize(p.x, width, max_x),
                    y: resize(p.y, height, max_y),
                    width: bumped,
                },
            );
            j += 1;
        }
        proof {
            assert(scaled@ =~= fitted[i as int]);
        }
        out.push(scaled);
        i += 1;
    }
    proof {
        assert(strokes_view(out) =~= fitted);
    }
    out
}

/// A decoded handwritten message: identifier, creation time, and strokes
/// scaled into a frame with a five-unit margin on each axis.
#[derive(Debug, PartialEq, Eq)]
pub struct HandwrittenMessage {
    pub id: String,
    /// Timestamp for when the handwritten message was created, seconds with
    /// an epoch of 2001-01-01 in the local time zone.
    pub created_at: i64,
    pub height: u16,
    pub width: u16,
    /// Collection of strokes that make up the handwritten image.
    pub strokes: Vec<Vec<Point>>,
}

/// The mathematical content of a `HandwrittenMessage`.
pub struct HandwrittenView {
    pub id: Seq<char>,
    pub created_at: i64,
    pub height: u16,
    pub width: u16,
    pub strokes: Seq<Seq<Point>>,
}

impl View for HandwrittenMessage {
    type V = HandwrittenView;

    open spec fn view(&self) -> HandwrittenView {
        HandwrittenView {
            id: self.id@,
            created_at: self.created_at,
            height: self.height,
            width: self.width,
            strokes: strokes_view(self.strokes),
        }
    }
}

/// The message a payload decodes to: the frame gives the dimensions, the
/// stroke bytes (after decompression) give the strokes, and the strokes are
/// scaled into the frame. A frame axis too large to take its five-unit
/// margin is rejected.
pub open spec fn spec_from_payload(p: HandwritingPayload) -> Result<
    HandwrittenView,
    HandwritingError,
> {
    match spec_dimensions(p.frame@) {
        Err(e) => Err(e),
        Ok(dims) => match spec_decompressed_strokes(p) {
            Err(e) => Err(e),
            Ok(data) => match spec_strokes_from(data, 0) {
                Err(e) => Err(e),
                Ok(raw) => {
                    let (width, height) = dims;
                    if height > 0xfffa || width > 0xfffa {
                        Err(HandwritingError::ConversionError)
                    } else {
                        let maxes = spec_max_dims(raw);
                        Ok(
                            HandwrittenView {
                                id: p.id@,
                                created_at: p.created_at,
                                height: (height + 5) as u16,
                                width: (width + 5) as u16,
                                strokes: spec_fit_strokes(
                                    raw,
                                    height,
                                    width,
                                    maxes.0,
                                    maxes.1,
                                    maxes.2,
                                ),
                            },
                        )
                    }
                },
            },
        },
    }
}

impl HandwrittenMessage {
    /// Converts the plain fields of a payload into a [`HandwrittenMessage`].
    pub fn from_payload(payload: &HandwritingPayload) -> (r: Result<Self, HandwritingError>)
        ensures
            match r {
                Ok(msg) => spec_from_payload(*payload) == Ok::<_, HandwritingError>(msg@),
                Err(e) => spec_from_payload(*payload) == Err::<HandwrittenView, _>(e),
            },
    {
        let (width, height) = match parse_dimensions(payload) {
            Ok(dims) => dims,
            Err(e) => {
                return Err(e);
            },
        };
        let data = match decompress_strokes(payload) {
            Ok(data) => data,
            Err(e) => {
                return Err(e);
            },
        };
        let raw = match parse_strokes(&data) {
            Ok(raw) => raw,
            Err(e) => {
                return Err(e);
            },
        };
        if height > 0xfffa || width > 0xfffa {
            return Err(HandwritingError::ConversionError);
        }
        let (max_x, max_y, max_width) = get_max_dimension(&raw);
        Ok(
            HandwrittenMessage {
                id: payload.id.clone(),
                created_at: payload.created_at,
                height: height + 5,
                width: width + 5,
                strokes: fit_strokes(&raw, height, width, max_x, max_y, max_width),
            },
        )
    }
}

/// The groups remaining when scanning a stroke from index `i` with the
/// current group's width `curr` and its collected points `segment`. When a
/// point's width differs from the running width, the running group is closed
/// (a lone point is doubled so every group has at least two points) and a
/// new group starts at that point; the final group is closed with its last
/// point repeated.
pub open spec fn spec_groups_from(
    stroke: Seq<Point>,
    i: int,
    curr: u16,
    segment: Seq<Point>,
) -> Seq<(u16, Seq<Point>)>
    decreases stroke.len() - i,
{
    if i < 0 || i >= stroke.len() {
        if segment.len() == 0 {
            Seq::empty()
        } else {
            seq![(curr, segment.push(segment.last()))]
        }
    } else {
        let p = stroke[i];
        let grown = segment.push(p);
        if curr != p.width {
            let closed = if grown.len() == 1 {
                grown.push(p)
            } else {
                grown
            };
            seq![(curr, closed)] + spec_groups_from(stroke, i + 1, p.width, seq![p])
        } else {
            spec_groups_from(stroke, i + 1, curr, grown)
        }
    }
}

/// The width groups of one non-empty stroke.
pub open spec fn spec_group_points(stroke: Seq<Point>) -> Seq<(u16, Seq<Point>)>
    recommends
        stroke.len() > 0,
{
    spec_groups_from(stroke, 0, stroke[0].width, Seq::empty())
}

/// The sequence of groups a group vector stands for.
pub open spec fn groups_view(v: Vec<(u16, Vec<Point>)>) -> Seq<(u16, Seq<Point>)> {
    Seq::new(v@.len(), |i: int| (v@[i].0, v@[i].1@))
}

/// Group points along a stroke together by width.
pub fn group_points(stroke: &Vec<Point>) -> (r: Vec<(u16, Vec<Point>)>)
    requires
        stroke@.len() > 0,
    ensures
        groups_view(r) == spec_group_points(stroke@),
{
    let mut groups: Vec<(u16, Vec<Point>)> = Vec::new();
    let mut curr: u16 = stroke[0].width;
    let mut segment: Vec<Point> = Vec::new();
    let mut i: usize = 0;
    while i < stroke.len()
        invariant
            i <= stroke.len(),
            spec_group_points(stroke@) == groups_view(groups) + spec_groups_from(
                stroke@,
                i as int,
                curr,
                segment@,
            ),
        decreases stroke.len() - i,
    {
        let p = stroke[i];
        let ghost pre_groups = groups_view(groups);
        let ghost pre_segment = segment@;
        segment.push(p);
        if curr != p.width {
            if segment.len() == 1 {
                segment.push(p);
            }
            let ghost closed = segment@;
            groups.push((curr, segment));
            let mut fresh: Vec<Point> = Vec::new();
            fresh.push(p);
            segment = fresh;
            proof {
                assert(segment@ =~= seq![p]);
                assert(groups_view(groups) =~~= pre_groups + seq![(curr, closed)]);
                assert((pre_groups + seq![(curr, closed)]) + spec_groups_from(
                    stroke@,
                    i as int + 1,
                    p.width,
                    seq![p],
                ) =~~= pre_groups + (seq![(curr, closed)] + spec_groups_from(
                    stroke@,
                    i as int + 1,
                    p.width,
                    seq![p],
                )));
            }
            curr = p.width;
        }
        i += 1;
    }
    if segment.len() > 0 {
        let ghost pre_groups = groups_view(groups);
        let ghost pre_segment = segment@;
        let last = segment[segment.len() - 1];
        segment.push(last);
        let ghost closed = segment@;
        groups.push((curr, segment));
        proof {
            assert(closed =~= pre_segment.push(pre_segment.last()));
            assert(groups_view(groups) =~~= pre_groups + seq![(curr, closed)]);
        }
    } else {
        proof {
            assert(groups_view(groups) + Seq::<(u16, Seq<Point>)>::empty() =~~= groups_view(
                groups,
            ));
        }
    }
    groups
}

/// `x,y` for one point.
pub open spec fn spec_point_pair(p: Point) -> Seq<char> {
    crate::strutil::spec_udec(p.x as int) + seq![','] + crate::strutil::spec_udec(p.y as int)
}

/// The space-separated point pairs from index `j` on, each with a leading
/// space.
pub open spec fn spec_points_tail(points: Seq<Point>, j: int) -> Seq<char>
    decreases points.len() - j,
{
    if j < 0 || j >= points.len() {
        Seq::empty()
    } else {
        seq![' '] + spec_point_pair(points[j]) + spec_points_tail(points, j + 1)
    }
}

/// The `points` attribute of a polyline: the point pairs separated by
/// single spaces.
pub open spec fn spec_points_attr(points: Seq<Point>) -> Seq<char> {
    if points.len() == 0 {
        Seq::empty()
    } else {
        spec_point_pair(points[0]) + spec_points_tail(points, 1)
    }
}

/// One polyline element for a width group.
pub open spec fn spec_polyline(width: u16, points: Seq<Point>) -> Seq<char> {
    "<polyline class=\"line\" points=\""@ + spec_points_attr(points)
        + "\" stroke-width=\""@ + crate::strutil::spec_udec(width as int) + "\" />\n"@
}

/// The polyline elements of the groups from index `i` on.
pub open spec fn spec_groups_svg(groups: Seq<(u16, Seq<Point>)>, i: int) -> Seq<char>
    decreases groups.len() - i,
{
    if i < 0 || i >= groups.len() {
        Seq::empty()
    } else {
        spec_polyline(groups[i].0, groups[i].1) + spec_groups_svg(groups, i + 1)
    }
}

/// The polyline elements of the strokes from index `i` on; a stroke without
/// points draws nothing.
pub open spec fn spec_strokes_svg(strokes: Seq<Seq<Point>>, i: int) -> Seq<char>
    decreases strokes.len() - i,
{
    if i < 0 || i >= strokes.len() {
        Seq::empty()
    } else if strokes[i].len() == 0 {
        spec_strokes_svg(strokes, i + 1)
    } else {
        spec_groups_svg(spec_group_points(strokes[i]), 0) + spec_strokes_svg(strokes, i + 1)
    }
}

/// Appends the `points` attribute text for one group to `out`.
fn append_points(out: &mut String, points: &Vec<Point>)
    ensures
        final(out)@ == old(out)@ + spec_points_attr(points@),
{
    let ghost target = old(out)@ + spec_points_attr(points@);
    let mut j: usize = 0;
    while j < points.len()
        invariant
            j <= points.len(),
            j == 0 ==> out@ + spec_points_attr(points@) == target,
            j > 0 ==> out@ + spec_points_tail(points@, j as int) == target,
        decreases points.len() - j,
    {
        let p = points[j];
        let ghost pre = out@;
        if j > 0 {
            out.append(" ");
        }
        out.append(crate::strutil::u64_to_string(p.x as u64).as_str());
        out.append(",");
        out.append(crate::strutil::u64_to_string(p.y as u64).as_str());
        proof {
            reveal_strlit(" ");
            reveal_strlit(",");
            assert(","@ =~= seq![',']);
            assert(" "@ =~= seq![' ']);
            if j == 0 {
                assert(out@ =~= pre + spec_point_pair(points@[0]));
            } else {
                assert(out@ =~= pre + (seq![' '] + spec_point_pair(points@[j as int])));
            }
            assert(out@ + spec_points_tail(points@, j as int + 1) =~= target);
        }
        j += 1;
    }
    proof {
        if points@.len() == 0 {
            assert(out@ + Seq::<char>::empty() =~= out@);
        } else {
            assert(spec_points_tail(points@, points@.len() as int) =~= Seq::<char>::empty());
            assert(out@ + Seq::<char>::empty() =~= out@);
        }
    }
}

/// Appends one polyline element to `out`.
fn append_polyline(out: &mut String, width: u16, points: &Vec<Point>)
    ensures
        final(out)@ == old(out)@ + spec_polyline(width, points@),
{
    out.append("<polyline class=\"line\" points=\"");
    append_points(out, points);
    out.append("\" stroke-width=\"");
    out.append(crate::strutil::u64_to_string(width as u64).as_str());
    out.append("\" />\n");
    proof {
        assert(out@ =~= old(out)@ + spec_polyline(width, points@));
    }
}

/// Generates svg lines from an array of strokes.
pub fn generate_strokes(svg: &mut String, strokes: &Vec<Vec<Point>>)
    ensures
        final(svg)@ == old(svg)@ + spec_strokes_svg(strokes_view(*strokes), 0),
{
    let ghost all = strokes_view(*strokes);
    let ghost target = old(svg)@ + spec_strokes_svg(all, 0);
    let mut i: usize = 0;
    while i < strokes.len()
        invariant
            i <= strokes.len(),
            all == strokes_view(*strokes),
            svg@ + spec_strokes_svg(all, i as int) == target,
        decreases strokes.len() - i,
    {
        let stroke = &strokes[i];
        proof {
            assert(all[i as int] == stroke@);
        }
        if stroke.len() > 0 {
            let groups = group_points(stroke);
            let ghost gview = spec_group_points(stroke@);
            let mut k: usize = 0;
            while k < groups.len()
                invariant
                    k <= groups.len(),
                    i < strokes.len(),
                    all == strokes_view(*strokes),
                    gview == groups_view(groups),
                    all[i as int].len() > 0,
                    gview == spec_group_points(all[i as int]),
                    svg@ + spec_groups_svg(gview, k as int) + spec_strokes_svg(all, i as int + 1)
                        == target,
                decreases groups.len() - k,
            {
                let (width, points) = &groups[k];
                proof {
                    assert(gview[k as int] == (groups@[k as int].0, groups@[k as int].1@));
                }
                append_polyline(svg, *width, points);
                proof {
                    assert(svg@ + spec_groups_svg(gview, k as int + 1) + spec_strokes_svg(
                        all,
                        i as int + 1,
                    ) =~= target);
                }
                k += 1;
            }
            proof {
                assert(spec_groups_svg(gview, gview.len() as int) =~= Seq::<char>::empty());
                assert(svg@ + spec_strokes_svg(all, i as int + 1) =~= target);
            }
        }
        i += 1;
    }
    proof {
        assert(spec_strokes_svg(all, all.len() as int) =~= Seq::<char>::empty());
        assert(svg@ =~= target);
    }
}

/// The SVG document for a handwritten message: a fixed header carrying the
/// frame size, identifier and creation time, the stroke polylines, and a
/// closing tag.
pub open spec fn spec_render_svg(v: HandwrittenView) -> Seq<char> {
    "\n<svg viewBox=\"0 0 "@ + crate::strutil::spec_udec(v.width as int) + " "@
        + crate::strutil::spec_udec(v.height as int)
        + "\" preserveAspectRatio=\"xMidYMid meet\" width=\"100%\" height=\"100%\" xmlns=\"http://www.w3.org/2000/svg\" xmlns:xlink=\"http://www.w3.org/1999/xlink\">\n"@
        + "<title>"@ + v.id + "</title>\n<metadata>\n<id>"@ + v.id + "</id>\n<createdAt>"@
        + crate::strutil::spec_idec(v.created_at as int) + "</createdAt>\n</metadata>\n<style>\n"@
        + "    .line {\n        fill: none;\n        stroke: black;\n        stroke-linecap: round;\n        stroke-linejoin: round;\n    }\n"@
        + "</style>\n"@ + spec_strokes_svg(v.strokes, 0) + "</svg>\n"@
}

impl HandwrittenMessage {
    /// Renders the handwriting message as an `svg` graphic.
    pub fn render_svg(&self) -> (r: String)
        ensures
            r@ == spec_render_svg(self@),
    {
        let mut svg = String::new();
        svg.append("\n<svg viewBox=\"0 0 ");
        svg.append(crate::strutil::u64_to_string(self.width as u64).as_str());
        svg.append(" ");
        svg.append(crate::strutil::u64_to_string(self.height as u64).as_str());
        svg.append(
            "\" preserveAspectRatio=\"xMidYMid meet\" width=\"100%\" height=\"100%\" xmlns=\"http://www.w3.org/2000/svg\" xmlns:xlink=\"http://www.w3.org/1999/xlink\">\n",
        );
        svg.append("<title>");
        svg.append(self.id.as_str());
        svg.append("</title>\n<metadata>\n<id>");
        svg.append(self.id.as_str());
        svg.append("</id>\n<createdAt>");
        svg.append(crate::strutil::i64_to_string(self.created_at).as_str());
        svg.append("</createdAt>\n</metadata>\n<style>\n");
        svg.append(
            "    .line {\n        fill: none;\n        stroke: black;\n        stroke-linecap: round;\n        stroke-linejoin: round;\n    }\n",
        );
        svg.append("</style>\n");
        generate_strokes(&mut svg, &self.strokes);
        svg.append("</svg>\n");
        proof {
            assert(svg@ =~= spec_render_svg(self@));
        }
        svg
    }
}

/// Every row of the canvas has width `w`.
pub open spec fn spec_grid(c: Seq<Vec<bool>>, w: int) -> bool {
    forall|r: int| 0 <= r < c.len() ==> (#[trigger] c[r])@.len() == w
}

/// Marks may only be added, never removed.
pub open spec fn spec_marks_grow(before: Seq<Vec<bool>>, after: Seq<Vec<bool>>) -> bool {
    &&& after.len() == before.len()
    &&& forall|r: int, c: int|
        #![trigger before[r]@[c], after[r]@[c]]
        0 <= r < before.len() && 0 <= c < before[r]@.len() && before[r]@[c] ==> after[r]@[c]
}

/// Mark growth chains across successive canvas updates.
proof fn lemma_marks_grow_trans(a: Seq<Vec<bool>>, b: Seq<Vec<bool>>, c: Seq<Vec<bool>>, w: int)
    requires
        spec_grid(a, w),
        spec_grid(b, w),
        spec_grid(c, w),
        a.len() == b.len() == c.len(),
        spec_marks_grow(a, b),
        spec_marks_grow(b, c),
    ensures
        spec_marks_grow(a, c),
{
    assert forall|r: int, co: int|
        #![trigger a[r]@[co], c[r]@[co]]
        0 <= r < a.len() && 0 <= co < a[r]@.len() && a[r]@[co] implies c[r]@[co] by {
        assert(b[r]@[co]);
    }
}

/// Draws a point on a 2d grid; coordinates outside the grid are ignored.
fn draw_point(canvas: &mut Vec<Vec<bool>>, x: i64, y: i64)
    requires
        spec_grid(old(canvas)@, if old(canvas)@.len() > 0 { old(canvas)@[0]@.len() as int } else { 0 }),
    ensures
        final(canvas)@.len() == old(canvas)@.len(),
        spec_grid(final(canvas)@, if old(canvas)@.len() > 0 { old(canvas)@[0]@.len() as int } else { 0 }),
        spec_marks_grow(old(canvas)@, final(canvas)@),
        forall|r: int, c: int|
            #![trigger final(canvas)@[r]@[c]]
            0 <= r < old(canvas)@.len() && 0 <= c < old(canvas)@[r]@.len() && !(r == y && c == x)
                ==> final(canvas)@[r]@[c] == old(canvas)@[r]@[c],
        0 <= y < old(canvas)@.len() && 0 <= x < (if old(canvas)@.len() > 0 {
            old(canvas)@[0]@.len() as int
        } else {
            0
        }) ==> final(canvas)@[y as int]@[x as int],
{
    if canvas.len() == 0 {
        return ;
    }
    let w = canvas[0].len();
    if x >= 0 && y >= 0 && (x as u64) < (w as u64) && (y as u64) < (canvas.len() as u64) {
        let yi = y as usize;
        let xi = x as usize;
        canvas[yi][xi] = true;
    }
}

/// Draws a line on a 2d grid using Bresenham's line algorithm, bounded by a
/// step budget that covers every terminating trace.
fn draw_line(canvas: &mut Vec<Vec<bool>>, start: &Point, end: &Point)
    requires
        spec_grid(old(canvas)@, if old(canvas)@.len() > 0 { old(canvas)@[0]@.len() as int } else { 0 }),
    ensures
        final(canvas)@.len() == old(canvas)@.len(),
        spec_grid(final(canvas)@, if old(canvas)@.len() > 0 { old(canvas)@[0]@.len() as int } else { 0 }),
        spec_marks_grow(old(canvas)@, final(canvas)@),
        start.y < old(canvas)@.len() && start.x < (if old(canvas)@.len() > 0 {
            old(canvas)@[0]@.len() as int
        } else {
            0
        }) ==> final(canvas)@[start.y as int]@[start.x as int],
        end.y < old(canvas)@.len() && end.x < (if old(canvas)@.len() > 0 {
            old(canvas)@[0]@.len() as int
        } else {
            0
        }) ==> final(canvas)@[end.y as int]@[end.x as int],
{
    let ghost w0 = if old(canvas)@.len() > 0 { old(canvas)@[0]@.len() as int } else { 0 };
    let mut x_curr: i64 = start.x as i64;
    let mut y_curr: i64 = start.y as i64;
    let x_end: i64 = end.x as i64;
    let y_end: i64 = end.y as i64;

    let dx: i64 = if x_end >= x_curr {
        x_end - x_curr
    } else {
        x_curr - x_end
    };
    let dy: i64 = if y_end >= y_curr {
        -(y_end - y_curr)
    } else {
        -(y_curr - y_end)
    };
    let sx: i64 = if x_curr < x_end {
        1
    } else {
        -1
    };
    let sy: i64 = if y_curr < y_end {
        1
    } else {
        -1
    };
    let mut err: i64 = dx + dy;
    let mut fuel: u64 = ((dx - dy) as u64) + 1;
    let ghost fuel0 = fuel as int;

    while (x_curr != x_end || y_curr != y_end) && fuel > 0
        invariant
            0 <= dx <= 0xffff,
            -0xffff <= dy <= 0,
            sx == 1 || sx == -1,
            sy == 1 || sy == -1,
            fuel <= fuel0 <= 0x20000,
            -0x20000 <= err <= 0x20000,
            spec_grid(old(canvas)@, w0),
            w0 == (if old(canvas)@.len() > 0 { old(canvas)@[0]@.len() as int } else { 0 }),
            -0xffff - (fuel0 - fuel) <= x_curr <= 0xffff + (fuel0 - fuel),
            -0xffff - (fuel0 - fuel) <= y_curr <= 0xffff + (fuel0 - fuel),
            canvas@.len() == old(canvas)@.len(),
            spec_grid(canvas@, w0),
            spec_marks_grow(old(canvas)@, canvas@),
            x_end == end.x as i64 && y_end == end.y as i64,
            start.y < old(canvas)@.len() && start.x < w0 ==> canvas@[start.y as int]@[start.x as int]
                || (x_curr == start.x as i64 && y_curr == start.y as i64 && fuel == fuel0),
        decreases fuel,
    {
        let ghost before_step = canvas@;
        draw_point(canvas, x_curr, y_curr);
        proof {
            lemma_marks_grow_trans(old(canvas)@, before_step, canvas@, w0);
            if start.y < old(canvas)@.len() && start.x < w0 {
                if x_curr == start.x as i64 && y_curr == start.y as i64 {
                    assert(canvas@[start.y as int]@[start.x as int]);
                } else if before_step[start.y as int]@[start.x as int] {
                    assert(canvas@[start.y as int]@[start.x as int]);
                }
            }
        }
        let e2: i64 = 2 * err;
        if e2 >= dy {
            err = err + dy;
            x_curr = x_curr + sx;
        }
        if e2 <= dx {
            err = err + dx;
            y_curr = y_curr + sy;
        }
        fuel = fuel - 1;
    }

    let ghost before_step = canvas@;
    draw_point(canvas, x_end, y_end);
    proof {
        lemma_marks_grow_trans(old(canvas)@, before_step, canvas@, w0);
        if end.y < old(canvas)@.len() && end.x < w0 {
            assert(canvas@[end.y as int]@[end.x as int]);
        }
        if start.y < old(canvas)@.len() && start.x < w0 {
            if before_step[start.y as int]@[start.x as int] {
                assert(canvas@[start.y as int]@[start.x as int]);
            } else {
                assert(start.x as i64 == x_end && start.y as i64 == y_end);
            }
        }
    }
}

/// The rendered row count: the frame height, clipped to the caller's
/// maximum.
pub open spec fn spec_ascii_height(v: HandwrittenView, max_height: int) -> int {
    if max_height < v.height {
        max_height
    } else {
        v.height as int
    }
}

/// The rendered column count: the frame width scaled by the same factor as
/// the height.
pub open spec fn spec_ascii_width(v: HandwrittenView, max_height: int) -> int {
    if v.height == 0 {
        0
    } else {
        (v.width * spec_ascii_height(v, max_height)) / (v.height as int)
    }
}

/// One output position is either the newline closing a row of width `w` or
/// a blank or a star.
pub open spec fn spec_ascii_cell_ok(s: Seq<char>, k: int, w: int) -> bool {
    &&& (s[k] == '\n' <==> k % (w + 1) == w)
    &&& (s[k] == ' ' || s[k] == '*' || s[k] == '\n')
}

impl HandwrittenMessage {
    /// Renders the handwriting message as an ASCII graphic with a maximum
    /// height: rows of blanks and stars, each closed by a newline.
    pub fn render_ascii(&self, max_height: usize) -> (r: String)
        ensures
            r@.len() == spec_ascii_height(self@, max_height as int) * (spec_ascii_width(
                self@,
                max_height as int,
            ) + 1),
            forall|k: int|
                0 <= k < r@.len() ==> spec_ascii_cell_ok(
                    r@,
                    k,
                    spec_ascii_width(self@, max_height as int),
                ),
    {
        let h: usize = if max_height < self.height as usize {
            max_height
        } else {
            self.height as usize
        };
        let w: usize = if self.height == 0 {
            0
        } else {
            proof {
                assert((self.width as int) * (h as int) <= 0xffff * 0xffff) by (nonlinear_arith)
                    requires
                        0 <= self.width <= 0xffff,
                        0 <= h <= 0xffff,
                ;
                assert((self.width as int) * (h as int) / (self.height as int) <= self.width as int)
                    by (nonlinear_arith)
                    requires
                        0 <= self.width,
                        0 < self.height,
                        0 <= h <= self.height,
                ;
            }
            (((self.width as u64) * (h as u64)) / (self.height as u64)) as usize
        };
        assert(h == spec_ascii_height(self@, max_height as int));
        assert(w == spec_ascii_width(self@, max_height as int));

        // Blank canvas
        let mut canvas: Vec<Vec<bool>> = Vec::new();
        let mut i: usize = 0;
        while i < h
            invariant
                canvas@.len() == i,
                i <= h,
                spec_grid(canvas@, w as int),
            decreases h - i,
        {
            let mut row: Vec<bool> = Vec::new();
            let mut j: usize = 0;
            while j < w
                invariant
                    row@.len() == j,
                    j <= w,
                decreases w - j,
            {
                row.push(false);
                j += 1;
            }
            canvas.push(row);
            i += 1;
        }

        // Plot the lines on the canvas. Width only matters when drawing on
        // an SVG.
        let fitted = fit_strokes(&self.strokes, w as u16, h as u16, self.height, self.width, 1);
        let mut s: usize = 0;
        while s < fitted.len()
            invariant
                canvas@.len() == h,
                spec_grid(canvas@, w as int),
            decreases fitted.len() - s,
        {
            let stroke = &fitted[s];
            if stroke.len() > 0 {
                let mut k: usize = 0;
                while k + 1 < stroke.len()
                    invariant
                        canvas@.len() == h,
                        spec_grid(canvas@, w as int),
                        k < stroke.len(),
                    decreases stroke.len() - k,
                {
                    let a = stroke[k];
                    let b = stroke[k + 1];
                    draw_line(&mut canvas, &a, &b);
                    k += 1;
                }
            }
            s += 1;
        }

        // Convert the canvas to a string.
        let ghost wi = w as int;
        let mut out = String::new();
        let mut i: usize = 0;
        while i < h
            invariant
                i <= h,
                canvas@.len() == h,
                spec_grid(canvas@, wi),
                wi == w,
                out@.len() == i * (wi + 1),
                forall|k: int| 0 <= k < out@.len() ==> spec_ascii_cell_ok(out@, k, wi),
            decreases h - i,
    {
            let row = &canvas[i];
            let mut j: usize = 0;
            while j < w
                invariant
                    j <= w,
                    i < h,
                    canvas@.len() == h,
                    spec_grid(canvas@, wi),
                    wi == w,
                    row == &canvas@[i as int],
                    out@.len() == i * (wi + 1) + j,
                    forall|k: int| 0 <= k < out@.len() ==> spec_ascii_cell_ok(out@, k, wi),
                decreases w - j,
            {
                let ghost pre = out@;
                if row[j] {
                    out.append("*");
                } else {
                    out.append(" ");
                }
                proof {
                    reveal_strlit("*");
                    reveal_strlit(" ");
                    assert(out@.len() == pre.len() + 1);
                    assert(out@[pre.len() as int] == (if row@[j as int] { '*' } else { ' ' }));
                    assert((i * (wi + 1) + j) % (wi + 1) == j) by (nonlinear_arith)
                        requires
                            0 <= j < wi + 1,
                            0 <= i,
                            0 < wi + 1,
                    ;
                    assert forall|k: int| 0 <= k < out@.len() implies spec_ascii_cell_ok(
                        out@,
                        k,
                        wi,
                    ) by {
                        if k < pre.len() {
                            assert(spec_ascii_cell_ok(pre, k, wi));
                            assert(out@[k] == pre[k]);
                        } else {
                            assert(k == i * (wi + 1) + j);
                        }
                    }
                }
                j += 1;
            }
            let ghost pre = out@;
            out.append("\n");
            proof {
                reveal_strlit("\n");
                assert(out@.len() == pre.len() + 1);
                assert(out@[pre.len() as int] == '\n');
                assert((i * (wi + 1) + wi) % (wi + 1) == wi) by (nonlinear_arith)
                    requires
                        0 <= i,
                        0 < wi + 1,
                ;
                assert forall|k: int| 0 <= k < out@.len() implies spec_ascii_cell_ok(
                    out@,
                    k,
                    wi,
                ) by {
                    if k < pre.len() {
                        assert(spec_ascii_cell_ok(pre, k, wi));
                        assert(out@[k] == pre[k]);
                    } else {
                        assert(k == i * (wi + 1) + wi);
                    }
                }
                assert(i * (wi + 1) + wi + 1 == (i + 1) * (wi + 1)) by (nonlinear_arith);
            }
            i += 1;
        }
        out
    }
}

} // verus!
