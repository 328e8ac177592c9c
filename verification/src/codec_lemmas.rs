use crate::codec::{
    body_of, completed, decoded, max_alloc, run_at, run_pixels, Body, Decoded, Run, Termination,
    HEADER_LEN, SENTINEL,
};
use crate::error::DecodeError;
use crate::image::{byte_len, Rgba};
use crate::stream::le_u32;
use vstd::prelude::*;

verus! {

/// Whether a run record starts at offset `k` of `s`: every record before it is
/// complete and none of them ends the records.
pub open spec fn is_boundary(s: Seq<u8>, has_alpha: bool, mode: Termination, k: int) -> bool
    decreases s.len(),
{
    if k == 0 {
        true
    } else if k < 0 || s.len() == 0 || (mode == Termination::Sentinel && s[0] == SENTINEL) {
        false
    } else {
        match run_at(s, has_alpha) {
            None => false,
            Some(run) => is_boundary(s.skip(run.size as int), has_alpha, mode, k - run.size),
        }
    }
}

/// A run of `count` pixels is `4 * count` bytes long, and each of its pixels
/// has the run's color.
pub proof fn lemma_run_pixels(color: Rgba, count: nat)
    ensures
        run_pixels(color, count).len() == 4 * count,
        forall|i: int|
            0 <= i < count ==> {
                &&& #[trigger] run_pixels(color, count)[4 * i] == color.0
                &&& run_pixels(color, count)[4 * i + 1] == color.1
                &&& run_pixels(color, count)[4 * i + 2] == color.2
                &&& run_pixels(color, count)[4 * i + 3] == color.3
            },
    decreases count,
{
    if count > 0 {
        lemma_run_pixels(color, (count - 1) as nat);
        let shorter = run_pixels(color, (count - 1) as nat);
        let longer = run_pixels(color, count);
        assert(longer == shorter + seq![color.0, color.1, color.2, color.3]);
        assert forall|i: int| 0 <= i < count implies {
            &&& #[trigger] longer[4 * i] == color.0
            &&& longer[4 * i + 1] == color.1
            &&& longer[4 * i + 2] == color.2
            &&& longer[4 * i + 3] == color.3
        } by {
            if i < count - 1 {
                assert(shorter[4 * i] == color.0);
            }
        }
    }
}

/// A decoded image holds exactly `width * height` pixels of four bytes, and
/// its dimensions are those of the header.
pub proof fn lemma_decoded_fills_dimensions(s: Seq<u8>, mode: Termination)
    requires
        decoded(s, mode) is Ok,
    ensures
        ({
            let image = decoded(s, mode)->Ok_0.image;
            &&& image.wf()
            &&& image.pixels.len() == 4 * (image.width * image.height)
            &&& image.width == le_u32(s)
            &&& image.height == le_u32(s.skip(4))
        }),
{
}

/// Decoding depends on nothing but the bytes and the mode: streams that hold
/// the same bytes decode to the same result.
pub proof fn lemma_decoded_by_bytes_alone(a: Seq<u8>, b: Seq<u8>, mode: Termination)
    requires
        a.len() == b.len(),
        forall|i: int| 0 <= i < a.len() ==> a[i] == b[i],
    ensures
        decoded(a, mode) == decoded(b, mode),
{
    assert(a =~= b);
}

/// With an alpha channel, a record whose alpha byte is zero is two bytes long
/// and its color is transparent black, whatever follows it in the stream.
pub proof fn lemma_alpha_zero_run(s: Seq<u8>)
    requires
        s.len() >= 2,
        s[1] == 0,
    ensures
        run_at(s, true) == Some(Run { count: s[0] as nat, color: (0u8, 0u8, 0u8, 0u8), size: 2 }),
{
}

/// Under [`Termination::Sentinel`] a run length of [`SENTINEL`] ends the
/// records at once: nothing is decoded from it and only that byte is consumed.
pub proof fn lemma_sentinel_stops(s: Seq<u8>, has_alpha: bool)
    requires
        s.len() >= 1,
        s[0] == SENTINEL,
    ensures
        body_of(s, has_alpha, Termination::Sentinel) == Some(
            Body { pixels: Seq::empty(), size: 1 },
        ),
{
}

/// Under [`Termination::Sentinel`] runs that stop short of the declared
/// dimensions are kept and followed by zero bytes up to `width * height`
/// pixels, as long as a buffer of that size can exist.
pub proof fn lemma_shortfall_filled(pixels: Seq<u8>, width: nat, height: nat)
    requires
        pixels.len() <= byte_len(width, height) <= max_alloc(),
    ensures
        ({
            let full = completed(pixels, width, height, Termination::Sentinel);
            &&& full.len() == byte_len(width, height)
            &&& full.take(pixels.len() as int) == pixels
            &&& forall|i: int| pixels.len() <= i < full.len() ==> full[i] == 0
        }),
{
    let full = completed(pixels, width, height, Termination::Sentinel);
    assert(full.take(pixels.len() as int) =~= pixels);
}

/// Under [`Termination::Sentinel`] a stream whose runs stop short of the
/// declared dimensions decodes to those runs followed by transparent black.
pub proof fn lemma_sentinel_decode(s: Seq<u8>)
    requires
        s.len() >= HEADER_LEN,
        body_of(s.skip(HEADER_LEN as int), s[8] != 0, Termination::Sentinel) is Some,
        body_of(s.skip(HEADER_LEN as int), s[8] != 0, Termination::Sentinel)->0.pixels.len()
            <= byte_len(le_u32(s) as nat, le_u32(s.skip(4)) as nat) <= max_alloc(),
    ensures
        ({
            let body = body_of(s.skip(HEADER_LEN as int), s[8] != 0, Termination::Sentinel)->0;
            &&& decoded(s, Termination::Sentinel) matches Ok(d)
            &&& d.image.pixels.take(body.pixels.len() as int) == body.pixels
            &&& forall|i: int| body.pixels.len() <= i < d.image.pixels.len() ==> d.image.pixels[i] == 0
        }),
{
    let body = body_of(s.skip(HEADER_LEN as int), s[8] != 0, Termination::Sentinel)->0;
    lemma_shortfall_filled(body.pixels, le_u32(s) as nat, le_u32(s.skip(4)) as nat);
}

/// A stream that ends inside the record at its head cannot be decoded.
pub proof fn lemma_cut_record(s: Seq<u8>, has_alpha: bool, mode: Termination)
    requires
        s.len() >= 1,
        !(mode == Termination::Sentinel && s[0] == SENTINEL),
        run_at(s, has_alpha) is None,
    ensures
        body_of(s, has_alpha, mode) is None,
{
}

/// If the records that start at a record boundary cannot be decoded, neither
/// can the records as a whole.
pub proof fn lemma_failure_spreads(s: Seq<u8>, has_alpha: bool, mode: Termination, k: int)
    requires
        is_boundary(s, has_alpha, mode, k),
        0 <= k <= s.len(),
        body_of(s.skip(k), has_alpha, mode) is None,
    ensures
        body_of(s, has_alpha, mode) is None,
    decreases s.len(),
{
    if k == 0 {
        assert(s.skip(0) =~= s);
    } else {
        let run = run_at(s, has_alpha)->0;
        let rest = s.skip(run.size as int);
        lemma_boundary_in_range(rest, has_alpha, mode, k - run.size);
        assert(rest.skip(k - run.size) =~= s.skip(k));
        lemma_failure_spreads(rest, has_alpha, mode, k - run.size);
    }
}

/// A record boundary other than the start lies inside the stream.
pub proof fn lemma_boundary_in_range(s: Seq<u8>, has_alpha: bool, mode: Termination, k: int)
    requires
        is_boundary(s, has_alpha, mode, k),
    ensures
        0 <= k,
        k != 0 ==> k <= s.len(),
    decreases s.len(),
{
    if k != 0 {
        let run = run_at(s, has_alpha)->0;
        lemma_boundary_in_range(s.skip(run.size as int), has_alpha, mode, k - run.size);
    }
}

/// A stream that ends inside a run record decodes to
/// [`DecodeError::Truncated`]: the header is complete, a record starts at
/// offset `k` of the body, it is not the sentinel, and the stream ends before
/// the record does.
pub proof fn lemma_cut_stream(s: Seq<u8>, mode: Termination, k: int)
    requires
        s.len() >= HEADER_LEN,
        is_boundary(s.skip(HEADER_LEN as int), s[8] != 0, mode, k),
        0 <= k < s.len() - HEADER_LEN,
        !(mode == Termination::Sentinel && s[HEADER_LEN + k] == SENTINEL),
        run_at(s.skip(HEADER_LEN + k), s[8] != 0) is None,
    ensures
        decoded(s, mode) == Err::<Decoded, DecodeError>(DecodeError::Truncated),
{
    let body = s.skip(HEADER_LEN as int);
    assert(body.skip(k) =~= s.skip(HEADER_LEN + k));
    lemma_cut_record(body.skip(k), s[8] != 0, mode);
    lemma_failure_spreads(body, s[8] != 0, mode, k);
}

/// The record after a complete record starts at a record boundary.
pub proof fn lemma_next_boundary(s: Seq<u8>, has_alpha: bool, mode: Termination, k: int)
    requires
        is_boundary(s, has_alpha, mode, k),
        0 <= k < s.len(),
        !(mode == Termination::Sentinel && s[k] == SENTINEL),
        run_at(s.skip(k), has_alpha) is Some,
    ensures
        is_boundary(s, has_alpha, mode, k + run_at(s.skip(k), has_alpha)->0.size),
    decreases s.len(),
{
    let here = run_at(s.skip(k), has_alpha)->0;
    if k == 0 {
        assert(s.skip(0) =~= s);
        assert(is_boundary(s.skip(here.size as int), has_alpha, mode, 0));
    } else {
        let run = run_at(s, has_alpha)->0;
        let rest = s.skip(run.size as int);
        lemma_boundary_in_range(rest, has_alpha, mode, k - run.size);
        assert(rest.skip(k - run.size) =~= s.skip(k));
        lemma_next_boundary(rest, has_alpha, mode, k - run.size);
    }
}

/// The end of a sequence is the end of what stands last in it.
proof fn lemma_skip_into_last(front: Seq<u8>, last: Seq<u8>, n: int)
    requires
        0 <= n <= last.len(),
    ensures
        (front + last).skip((front + last).len() - n) == last.skip(last.len() - n),
{
    assert((front + last).skip((front + last).len() - n) =~= last.skip(last.len() - n));
}

/// What the records from a record boundary on decode to is the end of what
/// the records as a whole decode to.
pub proof fn lemma_body_suffix(s: Seq<u8>, has_alpha: bool, mode: Termination, k: int)
    requires
        is_boundary(s, has_alpha, mode, k),
        0 <= k <= s.len(),
        body_of(s, has_alpha, mode) is Some,
    ensures
        body_of(s.skip(k), has_alpha, mode) is Some,
        ({
            let whole = body_of(s, has_alpha, mode)->0;
            let tail = body_of(s.skip(k), has_alpha, mode)->0;
            &&& tail.pixels.len() <= whole.pixels.len()
            &&& whole.pixels.skip(whole.pixels.len() - tail.pixels.len()) == tail.pixels
            &&& whole.size == k + tail.size
        }),
    decreases s.len(),
{
    let whole = body_of(s, has_alpha, mode)->0;
    if k == 0 {
        assert(s.skip(0) =~= s);
        assert(whole.pixels.skip(0) =~= whole.pixels);
    } else {
        let run = run_at(s, has_alpha)->0;
        let rest = s.skip(run.size as int);
        let mid = body_of(rest, has_alpha, mode)->0;
        let front = run_pixels(run.color, run.count);
        assert(body_of(rest, has_alpha, mode) is Some);
        assert(whole.pixels == front + mid.pixels);
        assert(whole.size == run.size + mid.size);
        lemma_boundary_in_range(rest, has_alpha, mode, k - run.size);
        assert(rest.skip(k - run.size) == s.skip(k)) by {
            assert(rest.skip(k - run.size) =~= s.skip(k));
        }
        lemma_body_suffix(rest, has_alpha, mode, k - run.size);
        let tail = body_of(s.skip(k), has_alpha, mode)->0;
        lemma_skip_into_last(front, mid.pixels, tail.pixels.len() as int);
    }
}

/// With an alpha channel, every run whose alpha byte is zero decodes to
/// transparent black, and the next record starts right behind the alpha byte:
/// no color bytes are consumed for it.
pub proof fn lemma_alpha_zero_collapse(s: Seq<u8>, mode: Termination, k: int)
    requires
        is_boundary(s, true, mode, k),
        0 <= k,
        k + 2 <= s.len(),
        s[k + 1] == 0,
        !(mode == Termination::Sentinel && s[k] == SENTINEL),
        body_of(s, true, mode) is Some,
    ensures
        is_boundary(s, true, mode, k + 2),
        body_of(s.skip(k), true, mode) is Some,
        ({
            let whole = body_of(s, true, mode)->0.pixels;
            let tail = body_of(s.skip(k), true, mode)->0.pixels;
            let at = whole.len() - tail.len();
            &&& 0 <= at
            &&& at + 4 * s[k] <= whole.len()
            &&& forall|i: int| at <= i < at + 4 * s[k] ==> whole[i] == 0
        }),
{
    let here = s.skip(k);
    lemma_alpha_zero_run(here);
    lemma_next_boundary(s, true, mode, k);
    lemma_body_suffix(s, true, mode, k);
    let whole = body_of(s, true, mode)->0.pixels;
    let tail = body_of(here, true, mode)->0.pixels;
    let at = whole.len() - tail.len();
    let zero: Rgba = (0u8, 0u8, 0u8, 0u8);
    let front = run_pixels(zero, s[k] as nat);
    lemma_run_pixels(zero, s[k] as nat);
    assert forall|i: int| at <= i < at + 4 * s[k] implies whole[i] == 0 by {
        let j = i - at;
        assert(whole[i] == whole.skip(at)[j]);
        assert(tail[j] == front[j]);
        let p = j / 4;
        assert(front[4 * p] == 0);
        assert(j == 4 * p || j == 4 * p + 1 || j == 4 * p + 2 || j == 4 * p + 3);
    }
}

} // verus!
