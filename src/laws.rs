//! Properties of the codec as a whole, proved from the contracts of the
//! encoder and the decoder.
use vstd::prelude::*;

use crate::decoder::{
    paint, end_count, find_end, fresh, lemma_step_well_formed, outputs, restart_at, run_steps, step,
    well_formed, DecoderState,
};
use crate::encoder::{coded_actions, is_encoding, source_frame, stream_frame_count};
use crate::format::{
    is_run, le_bytes, lemma_word_of_command_of, lemma_words_of_le_bytes, word_of, pixel_action, pixel_count, quant, words_of, Command,
    MAX_DRAW,
};
use crate::stream::{
    apply_actions, commands_of, expand, frame_actions, is_rle, lemma_rle_unique, quantized,
    repeat_action, run_of, split_frames, lemma_expand_front,
};

verus! {

/// The screen a consumer holds after painting frames `0..=k` of `fs` in
/// turn onto the starting buffer `buf`.
pub open spec fn screen_after(fs: Seq<Seq<Command>>, buf: Seq<u8>, k: nat) -> Seq<u8>
    decreases k,
{
    let before = if k == 0 {
        buf
    } else {
        screen_after(fs, buf, (k - 1) as nat)
    };
    apply_actions(before, expand(fs[k as int]))
}

/// The sum of the pixel counts of a command sequence.
pub open spec fn total_count(cs: Seq<Command>) -> nat
    decreases cs.len(),
{
    if cs.len() == 0 {
        0
    } else {
        total_count(cs.drop_last()) + pixel_count(cs.last())
    }
}

/// `buf` after the commands `cs` are carried out in turn from pixel 0,
/// each starting where the one before ended.
pub open spec fn paint_all(buf: Seq<u8>, cs: Seq<Command>) -> Seq<u8>
    decreases cs.len(),
{
    if cs.len() == 0 {
        buf
    } else {
        paint(paint_all(buf, cs.drop_last()), total_count(cs.drop_last()) as int, cs.last())
    }
}

proof fn lemma_expand_len(cs: Seq<Command>)
    ensures
        expand(cs).len() == total_count(cs),
    decreases cs.len(),
{
    if cs.len() > 0 {
        lemma_expand_len(cs.drop_last());
    }
}

/// Carrying out a frame's commands one after the other, as a consumer
/// does with `apply_command`, applies the frame's pixel actions.
pub proof fn lemma_paint_all(buf: Seq<u8>, cs: Seq<Command>)
    requires
        total_count(cs) <= buf.len(),
    ensures
        paint_all(buf, cs) == apply_actions(buf, expand(cs)),
    decreases cs.len(),
{
    if cs.len() > 0 {
        let d = cs.drop_last();
        let c = cs.last();
        lemma_paint_all(buf, d);
        lemma_expand_len(d);
        lemma_expand_len(cs);
        assert(expand(cs) == expand(d) + run_of(c));
        assert(paint_all(buf, cs) =~= apply_actions(buf, expand(cs)));
    }
}

/// The commands of whole frames, each followed by an end marker.
pub open spec fn join_frames(fs: Seq<Seq<Command>>) -> Seq<Command>
    decreases fs.len(),
{
    if fs.len() == 0 {
        Seq::empty()
    } else {
        join_frames(fs.drop_last()) + fs.last().push(Command::End)
    }
}

proof fn lemma_join_split(cs: Seq<Command>)
    ensures
        cs == join_frames(split_frames(cs).0) + split_frames(cs).1,
    decreases cs.len(),
{
    if cs.len() == 0 {
        assert(cs =~= join_frames(split_frames(cs).0) + split_frames(cs).1);
    } else {
        let d = cs.drop_last();
        lemma_join_split(d);
        let fs = split_frames(d).0;
        let cur = split_frames(d).1;
        let sc = split_frames(cs);
        assert(cs =~= d.push(cs.last()));
        assert(d == join_frames(fs) + cur);
        if cs.last() is End {
            assert(sc.0 == fs.push(cur));
            assert(sc.1 == Seq::<Command>::empty());
            assert(sc.0.drop_last() =~= fs);
            assert(sc.0.last() == cur);
            assert(join_frames(sc.0) == join_frames(fs) + cur.push(Command::End));
            assert((join_frames(fs) + cur).push(Command::End) =~= join_frames(fs) + cur.push(
                Command::End,
            ) + sc.1);
        } else {
            assert(sc.0 == fs);
            assert(sc.1 == cur.push(cs.last()));
            assert((join_frames(fs) + cur).push(cs.last()) =~= join_frames(fs) + cur.push(cs.last()));
        }
    }
}

/// An animation has one command stream at most: the encoder's result is
/// determined by what its contract says of it.
pub proof fn lemma_encoding_unique(ws1: Seq<u16>, ws2: Seq<u16>, frames: Seq<Seq<u8>>)
    requires
        is_encoding(ws1, frames),
        is_encoding(ws2, frames),
    ensures
        ws1 == ws2,
{
    let c1 = commands_of(ws1);
    let c2 = commands_of(ws2);
    let f1 = split_frames(c1).0;
    let f2 = split_frames(c2).0;
    assert forall|k: int| 0 <= k < f1.len() implies f1[k] == f2[k] by {
        assert(is_rle(f1[k], coded_actions(frames, k)));
        assert(is_rle(f2[k], coded_actions(frames, k)));
        lemma_rle_unique(f1[k], f2[k], coded_actions(frames, k));
    }
    assert(f1 =~= f2);
    lemma_join_split(c1);
    lemma_join_split(c2);
    assert(split_frames(c1).1 =~= split_frames(c2).1);
    assert(c1 == c2);
    assert forall|i: int| 0 <= i < ws1.len() implies ws1[i] == ws2[i] by {
        lemma_word_of_command_of(ws1[i]);
        lemma_word_of_command_of(ws2[i]);
        assert(c1[i] == c2[i]);
    }
    assert(ws1 =~= ws2);
}

proof fn lemma_apply_frame_actions(prev: Option<Seq<u8>>, cur: Seq<u8>, buf: Seq<u8>)
    requires
        buf.len() == cur.len(),
        prev is Some ==> prev->0.len() == cur.len() && buf == quantized(prev->0),
    ensures
        apply_actions(buf, frame_actions(prev, cur)) == quantized(cur),
{
    assert(apply_actions(buf, frame_actions(prev, cur)) =~= quantized(cur));
}

/// Painting the frames of an encoded animation in turn reproduces each
/// frame of the stream, quantized to 2-bit intensities, whatever the
/// buffer held before the first frame.
pub proof fn lemma_round_trip(ws: Seq<u16>, frames: Seq<Seq<u8>>, buf: Seq<u8>, k: nat)
    requires
        is_encoding(ws, frames),
        frames.len() > 0,
        forall|i: int| 0 <= i < frames.len() ==> #[trigger] frames[i].len() == frames[0].len(),
        buf.len() == frames[0].len(),
        k < stream_frame_count(frames.len()),
    ensures
        screen_after(split_frames(commands_of(ws)).0, buf, k) == quantized(source_frame(frames, k as int)),
    decreases k,
{
    let fs = split_frames(commands_of(ws)).0;
    assert(is_rle(fs[k as int], coded_actions(frames, k as int)));
    if k == 0 {
        lemma_apply_frame_actions(None, frames[0], buf);
    } else {
        lemma_round_trip(ws, frames, buf, (k - 1) as nat);
        let prev = source_frame(frames, k - 1);
        lemma_apply_frame_actions(Some(prev), source_frame(frames, k as int), quantized(prev));
    }
}

/// The frame coded after the last animation frame shows exactly what the
/// first frame shows.
pub proof fn lemma_loop_seamless(ws: Seq<u16>, frames: Seq<Seq<u8>>, buf: Seq<u8>)
    requires
        is_encoding(ws, frames),
        frames.len() >= 1,
        forall|i: int| 0 <= i < frames.len() ==> #[trigger] frames[i].len() == frames[0].len(),
        buf.len() == frames[0].len(),
    ensures
        screen_after(split_frames(commands_of(ws)).0, buf, frames.len())
            == screen_after(split_frames(commands_of(ws)).0, buf, 0),
{
    lemma_round_trip(ws, frames, buf, frames.len());
    lemma_round_trip(ws, frames, buf, 0);
}

proof fn lemma_split_all_runs(cs: Seq<Command>)
    requires
        forall|f: int, k: int|
            0 <= f < split_frames(cs).0.len() && 0 <= k < split_frames(cs).0[f].len() ==> is_run(
                #[trigger] split_frames(cs).0[f][k],
            ),
        forall|k: int| 0 <= k < split_frames(cs).1.len() ==> is_run(#[trigger] split_frames(cs).1[k]),
    ensures
        forall|i: int| 0 <= i < cs.len() ==> #[trigger] cs[i] is End || is_run(cs[i]),
    decreases cs.len(),
{
    if cs.len() > 0 {
        let d = cs.drop_last();
        let fs = split_frames(d).0;
        let cur = split_frames(d).1;
        if cs.last() is End {
            assert(split_frames(cs).0 == fs.push(cur));
            assert forall|k: int| 0 <= k < cur.len() implies is_run(#[trigger] cur[k]) by {
                assert(split_frames(cs).0[fs.len() as int] == cur);
            }
        } else {
            assert(split_frames(cs).0 == fs);
            assert(split_frames(cs).1 == cur.push(cs.last()));
            assert forall|k: int| 0 <= k < cur.len() implies is_run(#[trigger] cur[k]) by {
                assert(split_frames(cs).1[k] == cur[k]);
            }
            assert(is_run(split_frames(cs).1[cur.len() as int]));
        }
        assert forall|f: int, k: int| 0 <= f < fs.len() && 0 <= k < fs[f].len() implies is_run(
            #[trigger] fs[f][k],
        ) by {
            assert(split_frames(cs).0[f] == fs[f]);
        }
        lemma_split_all_runs(d);
        assert forall|i: int| 0 <= i < cs.len() implies #[trigger] cs[i] is End || is_run(cs[i]) by {
            if i < d.len() {
                assert(cs[i] == d[i]);
            }
        }
    }
}

/// An encoded stream holds no draw or skip of zero pixels: every word is
/// an end marker or a run of at least one pixel that fits its field.
pub proof fn lemma_no_empty_runs(ws: Seq<u16>, frames: Seq<Seq<u8>>)
    requires
        is_encoding(ws, frames),
    ensures
        forall|i: int|
            0 <= i < ws.len() ==> #[trigger] commands_of(ws)[i] is End || is_run(commands_of(ws)[i]),
{
    let cs = commands_of(ws);
    let fs = split_frames(cs).0;
    assert forall|f: int, k: int| 0 <= f < fs.len() && 0 <= k < fs[f].len() implies is_run(
        #[trigger] fs[f][k],
    ) by {
        assert(is_rle(fs[f], coded_actions(frames, f)));
    }
    lemma_split_all_runs(cs);
}

proof fn lemma_uniform_runs(cs: Seq<Command>, a: Option<u8>, n: nat)
    requires
        forall|k: int| 0 <= k < cs.len() ==> is_run(#[trigger] cs[k]),
        expand(cs) == repeat_action(a, n),
    ensures
        forall|k: int| 0 <= k < cs.len() ==> pixel_action(#[trigger] cs[k]) == a,
        total_count(cs) == n,
    decreases cs.len(),
{
    if cs.len() == 0 {
        assert(repeat_action(a, n).len() == n);
    } else {
        let d = cs.drop_last();
        let c = cs.last();
        assert(is_run(cs[cs.len() - 1]));
        let m = pixel_count(c);
        assert(expand(cs) == expand(d) + run_of(c));
        assert(expand(cs).len() == n);
        assert(run_of(c).len() == m);
        let e = expand(d).len() as int;
        assert(e + m == n);
        assert(expand(cs)[e] == run_of(c)[0]);
        assert(run_of(c)[0] == pixel_action(c));
        assert(expand(cs)[e] == a);
        assert(expand(d) =~= repeat_action(a, (n - m) as nat)) by {
            assert forall|j: int| 0 <= j < expand(d).len() implies expand(d)[j] == a by {
                assert(expand(cs)[j] == expand(d)[j]);
            }
        }
        assert forall|k: int| 0 <= k < d.len() implies is_run(#[trigger] d[k]) by {
            assert(d[k] == cs[k]);
        }
        lemma_uniform_runs(d, a, (n - m) as nat);
        assert forall|k: int| 0 <= k < cs.len() implies pixel_action(#[trigger] cs[k]) == a by {
            if k < d.len() {
                assert(cs[k] == d[k]);
            }
        }
    }
}

/// A run of one intensity longer than a draw word can hold is coded as
/// several draws of that intensity, each at most `MAX_DRAW` pixels, whose
/// counts add up to the run's length.
pub proof fn lemma_long_draw_split(cs: Seq<Command>, v: u8, n: nat)
    requires
        is_rle(cs, repeat_action(Some(v), n)),
        n > MAX_DRAW,
    ensures
        cs.len() >= 2,
        total_count(cs) == n,
        forall|k: int|
            0 <= k < cs.len() ==> (#[trigger] cs[k] matches Command::Draw(c, w) && w == v && 0 < c
                <= MAX_DRAW),
{
    lemma_uniform_runs(cs, Some(v), n);
    assert forall|k: int| 0 <= k < cs.len() implies (#[trigger] cs[k] matches Command::Draw(c, w)
        && w == v && 0 < c <= MAX_DRAW) by {
        assert(is_run(cs[k]));
        assert(pixel_action(cs[k]) == Some(v));
        match cs[k] {
            Command::Draw(c, w) => {},
            _ => {},
        }
    }
    if cs.len() < 2 {
        lemma_short_total(cs);
    }
}

proof fn lemma_short_total(cs: Seq<Command>)
    requires
        cs.len() < 2,
        forall|k: int| 0 <= k < cs.len() ==> is_run(#[trigger] cs[k]),
    ensures
        total_count(cs) <= MAX_DRAW || (cs.len() == 1 && cs[0] is Skip),
{
    if cs.len() == 1 {
        assert(total_count(cs.drop_last()) == 0);
        assert(total_count(cs) == total_count(cs.drop_last()) + pixel_count(cs[0]));
        assert(is_run(cs[0]));
    } else {
        assert(total_count(cs) == 0);
    }
}

proof fn lemma_total_front(cs: Seq<Command>)
    requires
        cs.len() > 0,
    ensures
        total_count(cs) == pixel_count(cs[0]) + total_count(cs.skip(1)),
{
    lemma_expand_front(cs);
    lemma_expand_len(cs);
    lemma_expand_len(cs.skip(1));
}

proof fn lemma_total_zero(cs: Seq<Command>)
    requires
        total_count(cs) == 0,
        forall|k: int| 0 <= k < cs.len() ==> is_run(#[trigger] cs[k]),
    ensures
        cs.len() == 0,
{
    if cs.len() > 0 {
        assert(is_run(cs[cs.len() - 1]));
    }
}

/// The commands that cover a maximal run `a..a + n` of draws of
/// intensity `v`: they are `cs[i..j]` for the returned `(i, j)`.
proof fn lemma_run_cover(cs: Seq<Command>, acts: Seq<Option<u8>>, a: int, n: nat, v: u8) -> (r: (
    int,
    int,
))
    requires
        is_rle(cs, acts),
        0 <= a,
        n > 0,
        a + n <= acts.len(),
        forall|p: int| a <= p < a + n ==> acts[p] == Some(v),
        a == 0 || acts[a - 1] != Some(v),
        a + n == acts.len() || acts[a + n] != Some(v),
    ensures
        0 <= r.0 < r.1 <= cs.len(),
        total_count(cs.take(r.0)) == a,
        total_count(cs.subrange(r.0, r.1)) == n,
        forall|k: int| r.0 <= k < r.1 ==> pixel_action(#[trigger] cs[k]) == Some(v),
    decreases cs.len(),
{
    if cs.len() == 0 {
        assert(acts.len() == 0);
    }
    lemma_expand_front(cs);
    let x = cs[0];
    let m = pixel_count(x) as int;
    assert(is_run(x));
    crate::stream::lemma_rle_rest(cs, acts);
    let rest = cs.skip(1);
    let racts = acts.skip(m);
    assert(forall|p: int| 0 <= p < m ==> acts[p] == #[trigger] run_of(x)[p]);
    assert forall|k: int| 0 <= k < rest.len() implies is_run(#[trigger] rest[k]) by {
        assert(rest[k] == cs[k + 1]);
    }
    if a >= m {
        assert(a + n == acts.len() ==> a - m + n == racts.len());
        assert(a - m > 0 ==> racts[a - m - 1] == acts[a - 1]);
        assert(a + n < acts.len() ==> racts[a - m + n] == acts[a + n]);
        let (i, j) = lemma_run_cover(rest, racts, a - m, n, v);
        lemma_total_front(cs.take(i + 1));
        assert(cs.take(i + 1).skip(1) =~= rest.take(i));
        assert(cs.subrange(i + 1, j + 1) =~= rest.subrange(i, j));
        assert forall|k: int| i + 1 <= k < j + 1 implies pixel_action(#[trigger] cs[k]) == Some(v) by {
            assert(cs[k] == rest[k - 1]);
        }
        (i + 1, j + 1)
    } else {
        if a > 0 {
            assert(acts[a - 1] == run_of(x)[a - 1] && acts[a] == run_of(x)[a]);
        }
        assert(a == 0);
        assert(acts[0] == run_of(x)[0]);
        if m > n {
            assert(acts[n as int] == run_of(x)[n as int]);
        }
        assert(m <= n);
        if m == n {
            assert(cs.take(0) =~= Seq::<Command>::empty());
            lemma_total_front(cs.subrange(0, 1));
            assert(cs.subrange(0, 1).skip(1) =~= Seq::<Command>::empty());
            (0, 1)
        } else {
            assert(forall|p: int| 0 <= p < n - m ==> racts[p] == #[trigger] acts[p + m]);
            assert(m + (n - m) == acts.len() ==> (n - m) == racts.len());
            assert(n < acts.len() ==> racts[n - m] == acts[n as int]);
            let (i, j) = lemma_run_cover(rest, racts, 0, (n - m) as nat, v);
            assert forall|k: int| 0 <= k < rest.take(i).len() implies is_run(#[trigger] rest.take(i)[k]) by {
                assert(rest.take(i)[k] == rest[k]);
            }
            lemma_total_zero(rest.take(i));
            assert(i == 0);
            lemma_total_front(cs.subrange(0, j + 1));
            assert(cs.subrange(0, j + 1).skip(1) =~= rest.subrange(0, j));
            assert(cs.take(0) =~= Seq::<Command>::empty());
            assert forall|k: int| 0 <= k < j + 1 implies pixel_action(#[trigger] cs[k]) == Some(v) by {
                if k > 0 {
                    assert(cs[k] == rest[k - 1]);
                }
            }
            (0, j + 1)
        }
    }
}

/// In the run-length coding of any pixel actions, a maximal run of draws
/// of intensity `v` over pixels `a..a + n`, longer than a draw word holds,
/// is coded as the consecutive commands `cs[i..j]` for the returned
/// `(i, j)`: two or more draws of intensity `v`, each at most `MAX_DRAW`
/// pixels, that start at pixel `a` and add up to `n` pixels.
pub proof fn lemma_long_run_split(cs: Seq<Command>, acts: Seq<Option<u8>>, a: int, n: nat, v: u8) -> (r: (
    int,
    int,
))
    requires
        is_rle(cs, acts),
        0 <= a,
        n > MAX_DRAW,
        a + n <= acts.len(),
        forall|p: int| a <= p < a + n ==> acts[p] == Some(v),
        a == 0 || acts[a - 1] != Some(v),
        a + n == acts.len() || acts[a + n] != Some(v),
    ensures
        0 <= r.0,
        r.0 + 2 <= r.1 <= cs.len(),
        total_count(cs.take(r.0)) == a,
        total_count(cs.subrange(r.0, r.1)) == n,
        forall|k: int|
            r.0 <= k < r.1 ==> (#[trigger] cs[k] matches Command::Draw(c, w) && w == v && 0 < c
                <= MAX_DRAW),
{
    let (i, j) = lemma_run_cover(cs, acts, a, n, v);
    assert forall|k: int| i <= k < j implies (#[trigger] cs[k] matches Command::Draw(c, w) && w == v
        && 0 < c <= MAX_DRAW) by {
        assert(is_run(cs[k]));
        assert(pixel_action(cs[k]) == Some(v));
        match cs[k] {
            Command::Draw(c, w) => {},
            _ => {},
        }
    }
    if j == i + 1 {
        let one = cs.subrange(i, j);
        assert(one[0] == cs[i]);
        assert(is_run(cs[i]));
        lemma_short_total(one);
    }
    (i, j)
}

/// In any frame of an encoded animation, a maximal run of pixels that the
/// frame paints with intensity `v`, longer than a draw word holds, is
/// coded as two or more consecutive draws of `v` of at most `MAX_DRAW`
/// pixels each, adding up to the run.
pub proof fn lemma_frame_run_split(ws: Seq<u16>, frames: Seq<Seq<u8>>, f: int, a: int, n: nat, v: u8) -> (r: (
    int,
    int,
))
    requires
        is_encoding(ws, frames),
        0 <= f < stream_frame_count(frames.len()),
        0 <= a,
        n > MAX_DRAW,
        a + n <= coded_actions(frames, f).len(),
        forall|p: int| a <= p < a + n ==> coded_actions(frames, f)[p] == Some(v),
        a == 0 || coded_actions(frames, f)[a - 1] != Some(v),
        a + n == coded_actions(frames, f).len() || coded_actions(frames, f)[a + n] != Some(v),
    ensures
        ({
            let cs = split_frames(commands_of(ws)).0[f];
            &&& 0 <= r.0
            &&& r.0 + 2 <= r.1 <= cs.len()
            &&& total_count(cs.take(r.0)) == a
            &&& total_count(cs.subrange(r.0, r.1)) == n
            &&& forall|k: int|
                r.0 <= k < r.1 ==> (#[trigger] cs[k] matches Command::Draw(c, w) && w == v && 0 < c
                    <= MAX_DRAW)
        }),
{
    let cs = split_frames(commands_of(ws)).0[f];
    assert(is_rle(cs, coded_actions(frames, f)));
    lemma_long_run_split(cs, coded_actions(frames, f), a, n, v)
}

/// The first frame of an encoded animation whose samples all have one
/// intensity, over more pixels than a draw word holds, is coded as several
/// draws of that intensity, each at most `MAX_DRAW` pixels, that add up to
/// the frame.
pub proof fn lemma_first_frame_split(ws: Seq<u16>, frames: Seq<Seq<u8>>, v: u8)
    requires
        is_encoding(ws, frames),
        frames.len() > 0,
        frames[0].len() > MAX_DRAW,
        forall|j: int| 0 <= j < frames[0].len() ==> quant(#[trigger] frames[0][j]) == v,
    ensures
        ({
            let f = split_frames(commands_of(ws)).0[0];
            &&& f.len() >= 2
            &&& total_count(f) == frames[0].len()
            &&& forall|k: int|
                0 <= k < f.len() ==> (#[trigger] f[k] matches Command::Draw(c, w) && w == v && 0 < c
                    <= MAX_DRAW)
        }),
{
    let f = split_frames(commands_of(ws)).0[0];
    assert(is_rle(f, coded_actions(frames, 0)));
    assert(coded_actions(frames, 0) =~= repeat_action(Some(v), frames[0].len()));
    lemma_long_draw_split(f, v, frames[0].len());
}

proof fn lemma_steps_from_fresh(bs: Seq<u8>, k: nat)
    requires
        k <= fresh(bs).cmds.len(),
    ensures
        run_steps(fresh(bs), k) == (DecoderState {
            cmds: fresh(bs).cmds,
            pos: k,
            played: end_count(fresh(bs).cmds.take(k as int)),
        }),
    decreases k,
{
    let cs = fresh(bs).cmds;
    if k == 0 {
        assert(cs.take(0) =~= Seq::<Command>::empty());
    } else {
        lemma_steps_from_fresh(bs, (k - 1) as nat);
        assert(cs.take(k as int).drop_last() =~= cs.take(k - 1));
    }
}

proof fn lemma_first_pass_outputs(bs: Seq<u8>, k: nat)
    requires
        k <= fresh(bs).cmds.len(),
    ensures
        outputs(fresh(bs), k) == fresh(bs).cmds.take(k as int),
    decreases k,
{
    let cs = fresh(bs).cmds;
    if k == 0 {
        assert(cs.take(0) =~= Seq::<Command>::empty());
    } else {
        lemma_first_pass_outputs(bs, (k - 1) as nat);
        lemma_steps_from_fresh(bs, (k - 1) as nat);
        assert(cs.take(k - 1).push(cs[k - 1]) =~= cs.take(k as int));
    }
}

/// A fresh decoder over the little-endian bytes of a word stream first
/// hands out the stream's commands, in order.
pub proof fn lemma_decoder_replays_stream(ws: Seq<u16>)
    ensures
        fresh(le_bytes(ws)).cmds == commands_of(ws),
        outputs(fresh(le_bytes(ws)), ws.len()) == commands_of(ws),
{
    lemma_words_of_le_bytes(ws);
    let cs = fresh(le_bytes(ws)).cmds;
    lemma_first_pass_outputs(le_bytes(ws), ws.len());
    assert(cs.take(ws.len() as int) =~= cs);
}

proof fn lemma_steps_well_formed(s: DecoderState, n: nat)
    requires
        well_formed(s),
    ensures
        well_formed(run_steps(s, n)),
        run_steps(s, n).cmds == s.cmds,
    decreases n,
{
    if n > 0 {
        lemma_steps_well_formed(s, (n - 1) as nat);
        lemma_step_well_formed(run_steps(s, (n - 1) as nat));
    }
}

/// A fresh decoder advanced once over every command of its stream then
/// starts over: when the stream holds more than one frame end, at the
/// first command after the first frame end (frame 1); otherwise at the
/// stream's first command (frame 0).
pub proof fn lemma_restart_after_full_pass(bs: Seq<u8>)
    requires
        words_of(bs).len() > 0,
    ensures
        ({
            let cs = fresh(bs).cmds;
            let s = run_steps(fresh(bs), cs.len());
            &&& s.pos == cs.len()
            &&& s.played == end_count(cs)
            &&& 0 <= restart_at(s) < cs.len()
            &&& step(s).1 == if end_count(cs) > 1 {
                cs[find_end(cs, 0) + 1]
            } else {
                cs[0]
            }
        }),
{
    let cs = fresh(bs).cmds;
    lemma_steps_from_fresh(bs, cs.len());
    assert(cs.take(cs.len() as int) =~= cs);
    let s = run_steps(fresh(bs), cs.len());
    lemma_steps_well_formed(fresh(bs), cs.len());
    lemma_step_well_formed(s);
    if s.played > 1 {
        let (i, j) = choose|i: int, j: int|
            0 <= i < j < s.pos && #[trigger] s.cmds[i] is End && #[trigger] s.cmds[j] is End;
        crate::decoder::lemma_find_end(cs, 0, i);
    }
}

/// Two decoders over the same stream hand out the same commands when
/// advanced equally often.
pub proof fn lemma_fresh_decoders_agree(a: DecoderState, b: DecoderState, bs: Seq<u8>, n: nat)
    requires
        a == fresh(bs),
        b == fresh(bs),
    ensures
        outputs(a, n) == outputs(b, n),
{
}

} // verus!
