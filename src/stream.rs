//! The mathematical model of a command stream: what each frame does to a
//! pixel buffer, and how a stream falls apart into frames.
use vstd::prelude::*;

use crate::format::{command_of, is_run, pixel_action, pixel_count, quant, run_cap, Command};

verus! {

/// `n` copies of one pixel action.
pub open spec fn repeat_action(a: Option<u8>, n: nat) -> Seq<Option<u8>> {
    Seq::new(n, |_i: int| a)
}

/// The pixel actions that one command stands for.
pub open spec fn run_of(c: Command) -> Seq<Option<u8>> {
    repeat_action(pixel_action(c), pixel_count(c))
}

/// The pixel actions of a sequence of commands, one after the other in
/// raster order.
pub open spec fn expand(cs: Seq<Command>) -> Seq<Option<u8>>
    decreases cs.len(),
{
    if cs.len() == 0 {
        Seq::empty()
    } else {
        expand(cs.drop_last()) + run_of(cs.last())
    }
}

/// The commands that a sequence of words stands for.
pub open spec fn commands_of(ws: Seq<u16>) -> Seq<Command> {
    ws.map_values(|w: u16| command_of(w))
}

/// Cuts a command sequence at its end markers: the frames that an end
/// marker closes (without the marker), and the commands after the last
/// end marker.
pub open spec fn split_frames(cs: Seq<Command>) -> (Seq<Seq<Command>>, Seq<Command>)
    decreases cs.len(),
{
    if cs.len() == 0 {
        (Seq::empty(), Seq::empty())
    } else {
        let (fs, cur) = split_frames(cs.drop_last());
        if cs.last() is End {
            (fs.push(cur), Seq::empty())
        } else {
            (fs, cur.push(cs.last()))
        }
    }
}

/// `cs` is the run-length coding of `acts`: runs of at least one pixel that
/// fit their word, covering `acts` in order, where two neighbouring runs
/// with the same action only occur when the first one is full.
pub open spec fn is_rle(cs: Seq<Command>, acts: Seq<Option<u8>>) -> bool {
    &&& forall|k: int| 0 <= k < cs.len() ==> is_run(#[trigger] cs[k])
    &&& expand(cs) == acts
    &&& forall|k: int|
        1 <= k < cs.len() && pixel_action(cs[k - 1]) == pixel_action(#[trigger] cs[k])
            ==> pixel_count(cs[k - 1]) == run_cap(pixel_action(cs[k - 1]))
}

/// The pixel actions that turn the quantized `prev` into the quantized
/// `cur`: keep where the intensity is unchanged, paint where it changed.
/// Without a previous frame every pixel is painted.
pub open spec fn frame_actions(prev: Option<Seq<u8>>, cur: Seq<u8>) -> Seq<Option<u8>> {
    Seq::new(
        cur.len(),
        |j: int|
            if prev is Some && quant(prev->0[j]) == quant(cur[j]) {
                None
            } else {
                Some(quant(cur[j]))
            },
    )
}

/// A frame quantized to 2-bit intensities.
pub open spec fn quantized(f: Seq<u8>) -> Seq<u8> {
    f.map_values(|b: u8| quant(b))
}

/// The buffer after applying pixel actions from its start.
pub open spec fn apply_actions(buf: Seq<u8>, acts: Seq<Option<u8>>) -> Seq<u8> {
    Seq::new(
        buf.len(),
        |j: int|
            if j < acts.len() && acts[j] is Some {
                acts[j]->0
            } else {
                buf[j]
            },
    )
}

pub proof fn lemma_expand_push(cs: Seq<Command>, c: Command)
    ensures
        expand(cs.push(c)) == expand(cs) + run_of(c),
{
    assert(cs.push(c).drop_last() =~= cs);
}

pub proof fn lemma_commands_of_push(ws: Seq<u16>, w: u16)
    ensures
        commands_of(ws.push(w)) == commands_of(ws).push(command_of(w)),
{
    assert(commands_of(ws.push(w)) =~= commands_of(ws).push(command_of(w)));
}

/// Appending commands that are no end marker only grows the open frame.
pub proof fn lemma_split_append_open(cs: Seq<Command>, b: Seq<Command>)
    requires
        forall|k: int| 0 <= k < b.len() ==> !(#[trigger] b[k] is End),
    ensures
        split_frames(cs + b) == (split_frames(cs).0, split_frames(cs).1 + b),
    decreases b.len(),
{
    if b.len() == 0 {
        assert(cs + b =~= cs);
        assert(split_frames(cs).1 + b =~= split_frames(cs).1);
    } else {
        let bl = b.drop_last();
        assert((cs + b).drop_last() =~= cs + bl);
        assert((cs + b).last() == b.last());
        assert(!(b[b.len() - 1] is End));
        lemma_split_append_open(cs, bl);
        assert((split_frames(cs).1 + bl).push(b.last()) =~= split_frames(cs).1 + b);
    }
}

/// Appending a frame's commands and an end marker to a stream that holds
/// whole frames adds that frame.
pub proof fn lemma_split_append_frame(cs: Seq<Command>, b: Seq<Command>)
    requires
        split_frames(cs).1.len() == 0,
        forall|k: int| 0 <= k < b.len() ==> !(#[trigger] b[k] is End),
    ensures
        split_frames(cs + b.push(Command::End)) == (split_frames(cs).0.push(b), Seq::<Command>::empty()),
{
    lemma_split_append_open(cs, b);
    assert(split_frames(cs).1 + b =~= b);
    let all = cs + b.push(Command::End);
    assert(all.drop_last() =~= cs + b);
    assert(all.last() == Command::End);
}

/// The pixel actions of a non-empty command sequence are those of its
/// first command followed by those of the rest.
pub proof fn lemma_expand_front(cs: Seq<Command>)
    requires
        cs.len() > 0,
    ensures
        expand(cs) == run_of(cs[0]) + expand(cs.skip(1)),
    decreases cs.len(),
{
    if cs.len() == 1 {
        assert(cs.drop_last() =~= Seq::<Command>::empty());
        assert(cs.skip(1) =~= Seq::<Command>::empty());
        assert(expand(cs) =~= run_of(cs[0]) + expand(cs.skip(1)));
    } else {
        let d = cs.drop_last();
        lemma_expand_front(d);
        assert(cs.skip(1).drop_last() =~= d.skip(1));
        assert(cs.skip(1).last() == cs.last());
        assert(d[0] == cs[0]);
        assert(expand(cs) =~= run_of(cs[0]) + expand(cs.skip(1)));
    }
}

pub(crate) proof fn lemma_rle_rest(a: Seq<Command>, acts: Seq<Option<u8>>)
    requires
        is_rle(a, acts),
        a.len() > 0,
    ensures
        is_rle(a.skip(1), acts.skip(pixel_count(a[0]) as int)),
        pixel_count(a[0]) <= acts.len(),
{
    lemma_expand_front(a);
    let r = a.skip(1);
    let n = pixel_count(a[0]) as int;
    assert(run_of(a[0]).len() == n);
    assert(expand(r) =~= acts.skip(n));
    assert forall|k: int| 0 <= k < r.len() implies is_run(#[trigger] r[k]) by {
        assert(r[k] == a[k + 1]);
    }
    assert forall|k: int|
        1 <= k < r.len() && pixel_action(r[k - 1]) == pixel_action(#[trigger] r[k]) implies pixel_count(
        r[k - 1],
    ) == run_cap(pixel_action(r[k - 1])) by {
        assert(r[k] == a[k + 1] && r[k - 1] == a[k]);
    }
}

/// A sequence of pixel actions has one run-length coding at most.
pub proof fn lemma_rle_unique(a: Seq<Command>, b: Seq<Command>, acts: Seq<Option<u8>>)
    requires
        is_rle(a, acts),
        is_rle(b, acts),
    ensures
        a == b,
    decreases a.len(),
{
    if a.len() == 0 || b.len() == 0 {
        if a.len() > 0 {
            lemma_expand_front(a);
            assert(is_run(a[0]));
            assert(run_of(a[0]).len() > 0);
        } else if b.len() > 0 {
            lemma_expand_front(b);
            assert(is_run(b[0]));
            assert(run_of(b[0]).len() > 0);
        }
        assert(a =~= b);
    } else {
        let x = a[0];
        let y = b[0];
        assert(is_run(x) && is_run(y));
        lemma_expand_front(a);
        lemma_expand_front(b);
        let n = pixel_count(x) as int;
        let m = pixel_count(y) as int;
        assert(acts[0] == run_of(x)[0] && acts[0] == run_of(y)[0]);
        assert(pixel_action(x) == pixel_action(y));
        lemma_rle_first_run(a, b, acts);
        lemma_rle_first_run(b, a, acts);
        assert(x == y);
        lemma_rle_rest(a, acts);
        lemma_rle_rest(b, acts);
        lemma_rle_unique(a.skip(1), b.skip(1), acts.skip(n));
        assert(a =~= b) by {
            assert forall|k: int| 0 <= k < a.len() implies a[k] == b[k] by {
                if k > 0 {
                    assert(a[k] == a.skip(1)[k - 1] && b[k] == b.skip(1)[k - 1]);
                }
            }
        }
    }
}

/// Of two codings of the same actions that start with the same action,
/// the first run of `a` is at least as long as that of `b`.
proof fn lemma_rle_first_run(a: Seq<Command>, b: Seq<Command>, acts: Seq<Option<u8>>)
    requires
        is_rle(a, acts),
        is_rle(b, acts),
        a.len() > 0,
        b.len() > 0,
        pixel_action(a[0]) == pixel_action(b[0]),
    ensures
        pixel_count(a[0]) >= pixel_count(b[0]),
{
    if pixel_count(a[0]) < pixel_count(b[0]) {
        lemma_rle_shorter_first_run(a, b, acts);
    }
}

proof fn lemma_rle_shorter_first_run(a: Seq<Command>, b: Seq<Command>, acts: Seq<Option<u8>>)
    requires
        is_rle(a, acts),
        is_rle(b, acts),
        a.len() > 0,
        b.len() > 0,
        pixel_action(a[0]) == pixel_action(b[0]),
        pixel_count(a[0]) < pixel_count(b[0]),
    ensures
        pixel_count(a[0]) == run_cap(pixel_action(a[0])),
        a.len() > 1,
{
    let x = a[0];
    let y = b[0];
    let n = pixel_count(x) as int;
    assert(is_run(x) && is_run(y));
    lemma_expand_front(a);
    lemma_expand_front(b);
    assert(acts[n] == run_of(y)[n]);
    if a.len() == 1 {
        assert(a.skip(1) =~= Seq::<Command>::empty());
        assert(expand(a).len() == n);
    } else {
        lemma_expand_front(a.skip(1));
        assert(a.skip(1)[0] == a[1]);
        assert(is_run(a[1]));
        assert(acts[n] == run_of(a[1])[0]);
        assert(pixel_action(a[0]) == pixel_action(a[1]));
        assert(pixel_count(a[0]) == run_cap(pixel_action(a[0])));
    }
}

} // verus!
