use crate::error::DecodeError;
use crate::image::{byte_len, byte_len_of, DecodedImage, ImageView, Rgba};
use crate::stream::{le_u32, ByteStream};
use vstd::prelude::*;

verus! {

/// How the end of the run records is found.
#[derive(Clone, Copy, Debug, PartialEq, Eq, Structural)]
pub enum Termination {
    /// The records go on until the stream is exhausted. The runs must fill the
    /// declared dimensions exactly.
    EndOfStream,
    /// A run length of [`SENTINEL`] ends the records, and a stream that ends
    /// before it is truncated. Runs that stop short of the declared dimensions
    /// are completed with transparent black.
    Sentinel,
}

/// The run length that ends the records under [`Termination::Sentinel`].
pub const SENTINEL: u8 = 255;

/// The size in bytes of the image header: width, height and the alpha flag.
pub const HEADER_LEN: usize = 9;

/// One run record: `count` pixels of one `color`, stored in `size` bytes.
pub struct Run {
    pub count: nat,
    pub color: Rgba,
    pub size: nat,
}

/// The color at the head of `s` and the number of bytes that hold it, or
/// `None` if `s` ends inside it.
///
/// With an alpha channel the alpha byte comes first, and the color channels
/// follow it only when alpha is not zero: a pixel with alpha zero is
/// transparent black. Without an alpha channel the pixel is opaque. The color
/// channels are stored blue, green, red.
pub open spec fn color_at(s: Seq<u8>, has_alpha: bool) -> Option<(Rgba, nat)> {
    if has_alpha {
        if s.len() < 1 {
            None
        } else if s[0] == 0 {
            Some(((0u8, 0u8, 0u8, 0u8), 1nat))
        } else if s.len() < 4 {
            None
        } else {
            Some(((s[3], s[2], s[1], s[0]), 4nat))
        }
    } else {
        if s.len() < 3 {
            None
        } else {
            Some(((s[2], s[1], s[0], 255u8), 3nat))
        }
    }
}

/// The run record at the head of `s`, or `None` if `s` ends inside it. A
/// record is its run length followed by its color.
pub open spec fn run_at(s: Seq<u8>, has_alpha: bool) -> Option<Run> {
    if s.len() < 1 {
        None
    } else {
        match color_at(s.skip(1), has_alpha) {
            None => None,
            Some((color, n)) => Some(Run { count: s[0] as nat, color, size: 1 + n }),
        }
    }
}

/// The bytes of `count` consecutive pixels of one color.
pub open spec fn run_pixels(color: Rgba, count: nat) -> Seq<u8>
    decreases count,
{
    if count == 0 {
        Seq::empty()
    } else {
        run_pixels(color, (count - 1) as nat) + seq![color.0, color.1, color.2, color.3]
    }
}

/// What a sequence of run records decodes to: the pixel bytes in order, and the
/// number of stream bytes that the records (and the sentinel, if any) occupy.
pub struct Body {
    pub pixels: Seq<u8>,
    pub size: nat,
}

/// The run records at the head of `s`, or `None` if `s` ends inside a record
/// or, under [`Termination::Sentinel`], before the sentinel.
pub open spec fn body_of(s: Seq<u8>, has_alpha: bool, mode: Termination) -> Option<Body>
    decreases s.len(),
{
    if s.len() == 0 {
        if mode == Termination::EndOfStream {
            Some(Body { pixels: Seq::empty(), size: 0 })
        } else {
            None
        }
    } else if mode == Termination::Sentinel && s[0] == SENTINEL {
        Some(Body { pixels: Seq::empty(), size: 1 })
    } else {
        match run_at(s, has_alpha) {
            None => None,
            Some(run) => match body_of(s.skip(run.size as int), has_alpha, mode) {
                None => None,
                Some(rest) => Some(
                    Body {
                        pixels: run_pixels(run.color, run.count) + rest.pixels,
                        size: run.size + rest.size,
                    },
                ),
            },
        }
    }
}

/// The largest buffer that can be allocated.
pub open spec fn max_alloc() -> nat {
    isize::MAX as nat
}

/// The pixel bytes after the final step. Under [`Termination::Sentinel`] runs
/// that stop short of `width * height` pixels are completed with zero bytes,
/// provided a buffer of that size can exist; otherwise they are left as they are.
pub open spec fn completed(pixels: Seq<u8>, width: nat, height: nat, mode: Termination) -> Seq<
    u8,
> {
    let want = byte_len(width, height);
    if mode == Termination::Sentinel && pixels.len() < want && want <= max_alloc() {
        pixels + Seq::new((want - pixels.len()) as nat, |i: int| 0u8)
    } else {
        pixels
    }
}

/// A decoded image and the number of stream bytes it was read from.
pub struct Decoded {
    pub image: ImageView,
    pub size: nat,
}

/// What the stream `s` decodes to.
///
/// The header holds the width and the height as 32-bit little-endian integers
/// and one byte that is nonzero when the records carry an alpha channel. The
/// run records follow. The completed pixel bytes must fill the declared
/// dimensions exactly.
pub open spec fn decoded(s: Seq<u8>, mode: Termination) -> Result<Decoded, DecodeError> {
    if s.len() < HEADER_LEN {
        Err(DecodeError::Truncated)
    } else {
        let width = le_u32(s) as nat;
        let height = le_u32(s.skip(4)) as nat;
        let has_alpha = s[8] != 0;
        match body_of(s.skip(HEADER_LEN as int), has_alpha, mode) {
            None => Err(DecodeError::Truncated),
            Some(body) => {
                let pixels = completed(body.pixels, width, height, mode);
                if pixels.len() == byte_len(width, height) {
                    Ok(
                        Decoded {
                            image: ImageView { width, height, pixels },
                            size: HEADER_LEN as nat + body.size,
                        },
                    )
                } else {
                    Err(DecodeError::InsufficientPixelData)
                }
            },
        }
    }
}

/// `done` and `used` put in front of what `rest` decodes to.
spec fn extended(done: Seq<u8>, used: nat, rest: Option<Body>) -> Option<Body> {
    match rest {
        None => None,
        Some(b) => Some(Body { pixels: done + b.pixels, size: used + b.size }),
    }
}

/// Nothing decoded yet, nothing put in front.
proof fn lemma_extended_nothing(rest: Option<Body>)
    ensures
        extended(Seq::empty(), 0, rest) == rest,
{
    if rest is Some {
        assert(Seq::<u8>::empty() + rest->0.pixels =~= rest->0.pixels);
    }
}

/// At the end of the records what was put in front is the whole body.
proof fn lemma_extended_end(done: Seq<u8>, used: nat, size: nat)
    ensures
        extended(done, used, Some(Body { pixels: Seq::empty(), size })) == Some(
            Body { pixels: done, size: used + size },
        ),
{
    assert(done + Seq::<u8>::empty() =~= done);
}

/// Decoding one more record moves it from the rest to the front.
proof fn lemma_extended_step(
    done: Seq<u8>,
    used: nat,
    head: Seq<u8>,
    has_alpha: bool,
    mode: Termination,
)
    requires
        head.len() > 0,
        !(mode == Termination::Sentinel && head[0] == SENTINEL),
        run_at(head, has_alpha) is Some,
    ensures
        ({
            let run = run_at(head, has_alpha)->0;
            extended(done, used, body_of(head, has_alpha, mode)) == extended(
                done + run_pixels(run.color, run.count),
                used + run.size,
                body_of(head.skip(run.size as int), has_alpha, mode),
            )
        }),
{
    let run = run_at(head, has_alpha)->0;
    let rest = body_of(head.skip(run.size as int), has_alpha, mode);
    if rest is Some {
        let front = run_pixels(run.color, run.count);
        assert(done + (front + rest->0.pixels) =~= (done + front) + rest->0.pixels);
    }
}

/// Appends `count` pixels of one color.
fn push_run(pixels: &mut Vec<u8>, color: Rgba, count: u8)
    ensures
        final(pixels)@ == old(pixels)@ + run_pixels(color, count as nat),
{
    let mut i: u8 = 0;
    while i < count
        invariant
            i <= count,
            pixels@ == old(pixels)@ + run_pixels(color, i as nat),
        decreases count - i,
    {
        pixels.push(color.0);
        pixels.push(color.1);
        pixels.push(color.2);
        pixels.push(color.3);
        i = i + 1;
        assert(pixels@ =~= old(pixels)@ + run_pixels(color, i as nat));
    }
}

/// Reads the color of one run record.
fn read_color(reader: &mut ByteStream, has_alpha: bool) -> (res: Result<Rgba, DecodeError>)
    ensures
        match res {
            Ok(color) => color_at(old(reader)@, has_alpha) matches Some((c, n)) && c == color
                && final(reader)@ == old(reader)@.skip(n as int),
            Err(e) => e == DecodeError::Truncated && color_at(old(reader)@, has_alpha) is None,
        },
{
    let mut a: u8 = 255;
    if has_alpha {
        a =
        match reader.read_u8() {
            Ok(v) => v,
            Err(e) => {
                return Err(e);
            },
        };
        if a == 0 {
            return Ok((0, 0, 0, 0));
        }
    }
    let ghost at_color = reader@;
    let b: u8 = match reader.read_u8() {
        Ok(v) => v,
        Err(e) => {
            return Err(e);
        },
    };
    let g: u8 = match reader.read_u8() {
        Ok(v) => v,
        Err(e) => {
            return Err(e);
        },
    };
    let r: u8 = match reader.read_u8() {
        Ok(v) => v,
        Err(e) => {
            return Err(e);
        },
    };
    assert(reader@ =~= at_color.skip(3));
    assert(has_alpha ==> reader@ =~= old(reader)@.skip(4));
    Ok((r, g, b, a))
}

/// Reads run records up to the end that `mode` asks for.
fn read_body(reader: &mut ByteStream, has_alpha: bool, mode: Termination) -> (res: Result<
    Vec<u8>,
    DecodeError,
>)
    ensures
        match res {
            Ok(pixels) => body_of(old(reader)@, has_alpha, mode) matches Some(body)
                && pixels@ == body.pixels && body.size <= old(reader)@.len() && final(reader)@
                == old(reader)@.skip(body.size as int),
            Err(e) => e == DecodeError::Truncated && body_of(old(reader)@, has_alpha, mode)
                is None && final(reader)@ == old(reader)@,
        },
{
    let ghost start = reader@;
    let ghost mut used: nat = 0;
    let mut cur = *reader;
    let mut pixels: Vec<u8> = Vec::new();
    proof {
        assert(start.skip(0) =~= start);
        lemma_extended_nothing(body_of(start, has_alpha, mode));
    }
    loop
        invariant
            used <= start.len(),
            start == old(reader)@,
            reader@ == start,
            cur@ == start.skip(used as int),
            body_of(start, has_alpha, mode) == extended(
                pixels@,
                used,
                body_of(cur@, has_alpha, mode),
            ),
        decreases cur@.len(),
    {
        let ghost head = cur@;
        let ghost done = pixels@;
        let count: u8 = match cur.read_u8() {
            Ok(v) => v,
            Err(_) => {
                match mode {
                    Termination::EndOfStream => {
                        proof {
                            lemma_extended_end(done, used, 0);
                        }
                        *reader = cur;
                        return Ok(pixels);
                    },
                    Termination::Sentinel => {
                        return Err(DecodeError::Truncated);
                    },
                }
            },
        };
        if mode == Termination::Sentinel && count == SENTINEL {
            proof {
                lemma_extended_end(done, used, 1);
                assert(head.skip(1) =~= start.skip(used as int + 1));
            }
            *reader = cur;
            return Ok(pixels);
        }
        let color: Rgba = match read_color(&mut cur, has_alpha) {
            Ok(c) => c,
            Err(e) => {
                return Err(e);
            },
        };
        push_run(&mut pixels, color, count);
        proof {
            let run = run_at(head, has_alpha)->0;
            lemma_extended_step(done, used, head, has_alpha, mode);
            assert(head.skip(1).skip(run.size as int - 1) =~= head.skip(run.size as int));
            assert(head.skip(run.size as int) =~= start.skip(used as int + run.size as int));
            used = used + run.size;
        }
    }
}

/// The final step: completes the pixel bytes as `mode` asks and checks that
/// they fill the declared dimensions.
fn assemble(width: u32, height: u32, pixels: Vec<u8>, mode: Termination) -> (res: Result<
    DecodedImage,
    DecodeError,
>)
    ensures
        ({
            let bytes = completed(pixels@, width as nat, height as nat, mode);
            match res {
                Ok(img) => bytes.len() == byte_len(width as nat, height as nat) && img@ == (
                ImageView { width: width as nat, height: height as nat, pixels: bytes }),
                Err(e) => bytes.len() != byte_len(width as nat, height as nat) && e
                    == DecodeError::InsufficientPixelData,
            }
        }),
{
    let want: u128 = byte_len_of(width, height);
    let mut pixels = pixels;
    if mode == Termination::Sentinel && (pixels.len() as u128) < want && want
        <= isize::MAX as u128 {
        let ghost short = pixels@;
        pixels.resize(want as usize, 0u8);
        assert(pixels@ =~= completed(short, width as nat, height as nat, mode));
    }
    match DecodedImage::new(width, height, pixels) {
        Some(img) => Ok(img),
        None => Err(DecodeError::InsufficientPixelData),
    }
}

/// Decodes one run-length-encoded image from the head of the stream.
///
/// On success the stream is left behind the last byte that belongs to the
/// image; on failure it is left where it was.
pub fn decode(reader: &mut ByteStream, mode: Termination) -> (res: Result<
    DecodedImage,
    DecodeError,
>)
    ensures
        match res {
            Ok(img) => decoded(old(reader)@, mode) matches Ok(d) && img@ == d.image
                && final(reader)@ == old(reader)@.skip(d.size as int),
            Err(e) => decoded(old(reader)@, mode) == Err::<Decoded, DecodeError>(e)
                && final(reader)@ == old(reader)@,
        },
{
    let ghost start = reader@;
    let mut cur = *reader;
    let width: u32 = match cur.read_u32_le() {
        Ok(v) => v,
        Err(e) => {
            return Err(e);
        },
    };
    let height: u32 = match cur.read_u32_le() {
        Ok(v) => v,
        Err(e) => {
            return Err(e);
        },
    };
    let flag: u8 = match cur.read_u8() {
        Ok(v) => v,
        Err(e) => {
            return Err(e);
        },
    };
    assert(cur@ =~= start.skip(HEADER_LEN as int));
    let has_alpha = flag != 0;
    let pixels = match read_body(&mut cur, has_alpha, mode) {
        Ok(p) => p,
        Err(e) => {
            return Err(e);
        },
    };
    proof {
        let body = body_of(start.skip(HEADER_LEN as int), has_alpha, mode)->0;
        assert(start.skip(HEADER_LEN as int).skip(body.size as int) =~= start.skip(
            HEADER_LEN as int + body.size as int,
        ));
    }
    match assemble(width, height, pixels, mode) {
        Ok(img) => {
            *reader = cur;
            Ok(img)
        },
        Err(e) => Err(e),
    }
}

} // verus!
