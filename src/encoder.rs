//! The encoder: quantizes frames and emits the differential run-length
//! command stream.
use vstd::prelude::*;

use crate::format::{
    encode_command, is_run, pixel_action, pixel_count, quantize, run_cap, Command, END_WORD,
    MAX_DRAW, MAX_SKIP,
};
use crate::stream::{
    commands_of, expand, frame_actions, is_rle, lemma_commands_of_push, lemma_expand_push,
    lemma_split_append_frame, repeat_action, split_frames,
};

verus! {

fn same_action(a: Option<u8>, b: Option<u8>) -> (r: bool)
    ensures
        r == (a == b),
{
    match (a, b) {
        (None, None) => true,
        (Some(x), Some(y)) => x == y,
        _ => false,
    }
}

fn cap_of(a: Option<u8>) -> (r: u16)
    ensures
        r as nat == run_cap(a),
{
    match a {
        Some(_) => MAX_DRAW,
        None => MAX_SKIP,
    }
}

fn run_command(a: Option<u8>, count: u16) -> (c: Command)
    requires
        0 < count,
        count as nat <= run_cap(a),
        a is Some ==> a->0 < 4,
    ensures
        is_run(c),
        pixel_action(c) == a,
        pixel_count(c) == count as nat,
{
    match a {
        Some(v) => Command::Draw(count, v),
        None => Command::Skip(count),
    }
}

/// Appends the commands of one frame and its end marker to `out`.
///
/// With `has_prev` the frame is coded against `prev` (skips where the
/// quantized intensity is unchanged); without, every pixel is drawn.
pub fn encode_frame(prev: &Vec<u8>, has_prev: bool, cur: &Vec<u8>, out: &mut Vec<u16>)
    requires
        has_prev ==> prev@.len() == cur@.len(),
        split_frames(commands_of(old(out)@)).1.len() == 0,
    ensures
        ({
            let before = split_frames(commands_of(old(out)@)).0;
            let after = split_frames(commands_of(final(out)@));
            &&& after.1.len() == 0
            &&& after.0 == before.push(after.0.last())
            &&& is_rle(after.0.last(), frame_actions(if has_prev { Some(prev@) } else { None }, cur@))
        }),
{
    let ghost old_ws = out@;
    let ghost acts = frame_actions(if has_prev { Some(prev@) } else { None }, cur@);
    let ghost mut cs: Seq<Command> = Seq::empty();
    let mut pending: Option<u8> = None;
    let mut count: u16 = 0;
    let n = cur.len();
    let mut j: usize = 0;
    assert(commands_of(old_ws) + cs =~= commands_of(old_ws));
    assert(expand(cs) + repeat_action(pending, 0) =~= acts.take(0));
    while j < n
        invariant
            n == cur@.len(),
            j <= n,
            has_prev ==> prev@.len() == n,
            acts == frame_actions(if has_prev { Some(prev@) } else { None }, cur@),
            commands_of(out@) == commands_of(old_ws) + cs,
            forall|k: int| 0 <= k < cs.len() ==> is_run(#[trigger] cs[k]),
            forall|k: int|
                1 <= k < cs.len() && pixel_action(cs[k - 1]) == pixel_action(#[trigger] cs[k])
                    ==> pixel_count(cs[k - 1]) == run_cap(pixel_action(cs[k - 1])),
            expand(cs) + repeat_action(pending, count as nat) == acts.take(j as int),
            (count as nat) < run_cap(pending),
            pending is Some ==> pending->0 < 4,
            count > 0 && cs.len() > 0 && pixel_action(cs.last()) == pending ==> pixel_count(
                cs.last(),
            ) == run_cap(pending),
            count == 0 ==> cs.len() == 0 || (pixel_action(cs.last()) == pending && pixel_count(
                cs.last(),
            ) == run_cap(pending)),
        decreases n - j,
    {
        let ghost e = expand(cs);
        let ghost p = pending;
        let ghost cnt = count as nat;
        let q = quantize(cur[j]);
        let act: Option<u8> = if has_prev && quantize(prev[j]) == q {
            None
        } else {
            Some(q)
        };
        assert(act == acts[j as int]);
        assert(acts.take(j + 1) =~= acts.take(j as int).push(act));
        if same_action(act, pending) {
            assert(e + repeat_action(p, cnt + 1) =~= (e + repeat_action(p, cnt)).push(act));
            count = count + 1;
            if count == cap_of(pending) {
                let c = run_command(pending, count);
                let w = encode_command(c);
                proof {
                    lemma_commands_of_push(out@, w);
                    lemma_expand_push(cs, c);
                    assert(run_of_is(c, p, cnt + 1));
                }
                out.push(w);
                proof {
                    assert((commands_of(old_ws) + cs).push(c) =~= commands_of(old_ws) + cs.push(c));
                    cs = cs.push(c);
                    assert(expand(cs) + repeat_action(p, 0) =~= expand(cs));
                }
                count = 0;
            }
        } else {
            if count > 0 {
                let c = run_command(pending, count);
                let w = encode_command(c);
                proof {
                    lemma_commands_of_push(out@, w);
                    lemma_expand_push(cs, c);
                    assert(run_of_is(c, p, cnt));
                }
                out.push(w);
                proof {
                    assert((commands_of(old_ws) + cs).push(c) =~= commands_of(old_ws) + cs.push(c));
                    cs = cs.push(c);
                }
            } else {
                assert(e + repeat_action(p, 0) =~= e);
            }
            assert(expand(cs) == acts.take(j as int));
            assert(expand(cs) + repeat_action(act, 1) =~= acts.take(j as int).push(act));
            pending = act;
            count = 1;
        }
        j = j + 1;
    }
    let ghost p = pending;
    let ghost cnt = count as nat;
    assert(acts.take(n as int) =~= acts);
    if count > 0 {
        let c = run_command(pending, count);
        let w = encode_command(c);
        proof {
            lemma_commands_of_push(out@, w);
            lemma_expand_push(cs, c);
            assert(run_of_is(c, p, cnt));
        }
        out.push(w);
        proof {
            assert((commands_of(old_ws) + cs).push(c) =~= commands_of(old_ws) + cs.push(c));
            cs = cs.push(c);
        }
    } else {
        assert(expand(cs) + repeat_action(p, 0) =~= expand(cs));
    }
    proof {
        lemma_commands_of_push(out@, END_WORD);
        crate::format::lemma_command_of_word_of(Command::End);
    }
    out.push(END_WORD);
    proof {
        assert((commands_of(old_ws) + cs).push(Command::End) =~= commands_of(old_ws) + cs.push(
            Command::End,
        ));
        assert forall|k: int| 0 <= k < cs.len() implies !(#[trigger] cs[k] is End) by {
            assert(is_run(cs[k]));
        }
        lemma_split_append_frame(commands_of(old_ws), cs);
        assert(split_frames(commands_of(out@)).0.last() == cs);
        assert(split_frames(commands_of(out@)).0 =~= split_frames(commands_of(old_ws)).0.push(cs));
    }
}

spec fn run_of_is(c: Command, a: Option<u8>, n: nat) -> bool {
    crate::stream::run_of(c) == repeat_action(a, n)
}


/// Why a frame sequence cannot be encoded.
#[derive(Clone, Copy, Debug, PartialEq, Eq, Structural)]
pub enum EncodeError {
    /// The width does not fit in 16 bits.
    WidthTooLarge,
    /// The height does not fit in 16 bits.
    HeightTooLarge,
    /// The width is zero.
    ZeroWidth,
    /// The height is zero.
    ZeroHeight,
    /// There is no frame to encode.
    NoFrames,
    /// A frame does not hold exactly width * height samples.
    SizeMismatch,
}

/// The samples of each frame.
pub open spec fn frame_pixels(frames: Seq<Vec<u8>>) -> Seq<Seq<u8>> {
    frames.map_values(|f: Vec<u8>| f@)
}

/// The error that encoding `frames` at the given size meets, checked in
/// this order, or `None` when the sequence can be encoded.
pub open spec fn encode_error(frames: Seq<Seq<u8>>, width: nat, height: nat) -> Option<EncodeError> {
    if width > 65535 {
        Some(EncodeError::WidthTooLarge)
    } else if height > 65535 {
        Some(EncodeError::HeightTooLarge)
    } else if width == 0 {
        Some(EncodeError::ZeroWidth)
    } else if height == 0 {
        Some(EncodeError::ZeroHeight)
    } else if frames.len() == 0 {
        Some(EncodeError::NoFrames)
    } else if (exists|k: int| 0 <= k < frames.len() && #[trigger] frames[k].len() != width * height) {
        Some(EncodeError::SizeMismatch)
    } else {
        None
    }
}

/// How many frames the stream of an `n`-frame animation holds: the first
/// frame is coded once more at the end, against the last frame, so that
/// playback can loop back to the second frame seamlessly.
pub open spec fn stream_frame_count(n: nat) -> nat {
    n + 1
}

/// The animation frame that frame `k` of the stream shows.
pub open spec fn source_frame(frames: Seq<Seq<u8>>, k: int) -> Seq<u8> {
    if k < frames.len() {
        frames[k]
    } else {
        frames[0]
    }
}

/// The pixel actions of frame `k` of the stream: the first frame is drawn
/// in full, every later one is coded against the frame before it.
pub open spec fn coded_actions(frames: Seq<Seq<u8>>, k: int) -> Seq<Option<u8>> {
    frame_actions(
        if k == 0 {
            None
        } else {
            Some(source_frame(frames, k - 1))
        },
        source_frame(frames, k),
    )
}

/// `ws` is the command stream of `frames`: whole frames only, as many as
/// the stream holds, each the run-length coding of its pixel actions.
pub open spec fn is_encoding(ws: Seq<u16>, frames: Seq<Seq<u8>>) -> bool {
    let (fs, open_frame) = split_frames(commands_of(ws));
    &&& open_frame.len() == 0
    &&& fs.len() == stream_frame_count(frames.len())
    &&& forall|k: int| 0 <= k < fs.len() ==> is_rle(#[trigger] fs[k], coded_actions(frames, k))
}

/// Encodes an animation of `width` x `height` greyscale frames, each in
/// raster order, into its command stream.
pub fn encode_frames(frames: &Vec<Vec<u8>>, width: usize, height: usize) -> (r: Result<
    Vec<u16>,
    EncodeError,
>)
    ensures
        match r {
            Ok(ws) => encode_error(frame_pixels(frames@), width as nat, height as nat) is None
                && is_encoding(ws@, frame_pixels(frames@)),
            Err(e) => encode_error(frame_pixels(frames@), width as nat, height as nat) == Some(e),
        },
{
    let ghost fr = frame_pixels(frames@);
    if width > 65535 {
        return Err(EncodeError::WidthTooLarge);
    }
    if height > 65535 {
        return Err(EncodeError::HeightTooLarge);
    }
    if width == 0 {
        return Err(EncodeError::ZeroWidth);
    }
    if height == 0 {
        return Err(EncodeError::ZeroHeight);
    }
    let n = frames.len();
    if n == 0 {
        return Err(EncodeError::NoFrames);
    }
    assert(width * height <= 4294836225) by (nonlinear_arith)
        requires
            width <= 65535,
            height <= 65535,
    ;
    let size: usize = width * height;
    let mut k: usize = 0;
    while k < n
        invariant
            n == frames@.len(),
            fr == frame_pixels(frames@),
            size == width * height,
            0 < width <= 65535,
            0 < height <= 65535,
            k <= n,
            forall|i: int| 0 <= i < k ==> #[trigger] fr[i].len() == size,
        decreases n - k,
    {
        if frames[k].len() != size {
            assert(fr[k as int] == frames@[k as int]@);
            assert(fr.len() == n);
            return Err(EncodeError::SizeMismatch);
        }
        k = k + 1;
    }
    assert(!exists|i: int| 0 <= i < fr.len() && #[trigger] fr[i].len() != width * height);
    assert forall|i: int| 0 <= i < n implies #[trigger] frames@[i]@.len() == size by {
        assert(fr[i] == frames@[i]@);
    }
    let mut out: Vec<u16> = Vec::new();
    assert(commands_of(out@) =~= Seq::<Command>::empty());
    let mut k: usize = 0;
    while k < n
        invariant
            n == frames@.len(),
            n > 0,
            fr == frame_pixels(frames@),
            forall|i: int| 0 <= i < n ==> #[trigger] fr[i].len() == size,
            forall|i: int| 0 <= i < n ==> #[trigger] frames@[i]@.len() == size,
            k <= n,
            split_frames(commands_of(out@)).1.len() == 0,
            split_frames(commands_of(out@)).0.len() == k,
            forall|i: int|
                0 <= i < k ==> is_rle(#[trigger] split_frames(commands_of(out@)).0[i], coded_actions(fr, i)),
        decreases n - k,
    {
        let prev = if k == 0 {
            &frames[0]
        } else {
            &frames[k - 1]
        };
        let ghost before = split_frames(commands_of(out@)).0;
        encode_frame(prev, k > 0, &frames[k], &mut out);
        proof {
            let after = split_frames(commands_of(out@)).0;
            assert forall|i: int| 0 <= i < k + 1 implies is_rle(#[trigger] after[i], coded_actions(fr, i)) by {
                if i < k {
                    assert(after[i] == before[i]);
                } else {
                    assert(coded_actions(fr, i) == frame_actions(
                        if k > 0 { Some(prev@) } else { None },
                        frames@[k as int]@,
                    ));
                }
            }
        }
        k = k + 1;
    }
    // The first frame once more, coded against the last one.
    let ghost before = split_frames(commands_of(out@)).0;
    encode_frame(&frames[n - 1], true, &frames[0], &mut out);
    proof {
        let after = split_frames(commands_of(out@)).0;
        assert forall|i: int| 0 <= i < n + 1 implies is_rle(#[trigger] after[i], coded_actions(fr, i)) by {
            if i < n {
                assert(after[i] == before[i]);
            } else {
                assert(coded_actions(fr, i) == frame_actions(Some(frames@[n - 1]@), frames@[0]@));
            }
        }
    }
    Ok(out)
}

} // verus!
