//! The decoder: an endless, restartable producer of commands over one
//! embedded stream, looping back to the second frame after the first pass.
use vstd::prelude::*;

use crate::compress::{bzip2_packed, bzip2_unpacked, pack, unpack, PackError};
use crate::format::{decode_command, pixel_action, pixel_count, read_word, words_of, Command};
use crate::stream::commands_of;

verus! {

/// One embedded animation: its size, its frame count, the recommended
/// playback rate and its serialized command stream.
pub struct OroLogoData {
    /// Width in pixels.
    pub width: usize,
    /// Height in pixels.
    pub height: usize,
    /// Number of animation frames (the stream holds one more, the first
    /// frame coded again, see `stream_frame_count`).
    pub frames: usize,
    /// The recommended frames per second.
    pub fps: usize,
    /// The command stream's bytes, compressed or not.
    pub framedata: Vec<u8>,
    /// Whether `framedata` went through the compression pass.
    pub compressed: bool,
    /// The length in bytes of the serialized stream before compression;
    /// read only where `compressed` is set.
    pub unpacked_len: usize,
}

impl OroLogoData {
    /// Packages a serialized command stream with its parameters, through
    /// the compression pass when `compress` is set.
    pub fn new(
        stream: Vec<u8>,
        width: usize,
        height: usize,
        frames: usize,
        fps: usize,
        compress: bool,
    ) -> (r: Result<OroLogoData, PackError>)
        ensures
            r is Err <==> compress && bzip2_packed(stream@) is None,
            r matches Ok(d) ==> stream_of(d) == Some(stream@) && d.width == width && d.height
                == height && d.frames == frames && d.fps == fps && d.compressed == compress,
    {
        let unpacked_len = stream.len();
        let framedata = if compress {
            match pack(&stream) {
                Ok(v) => v,
                Err(e) => return Err(e),
            }
        } else {
            stream
        };
        Ok(OroLogoData { width, height, frames, fps, framedata, compressed: compress, unpacked_len })
    }
}

/// Why a decoder cannot be built over some data.
#[derive(Clone, Copy, Debug, PartialEq, Eq, Structural)]
pub enum LogoError {
    /// The stream holds no complete command word.
    Empty,
}

/// The abstract state of a decoder: the stream's commands, the index of
/// the next one to read, and the end markers seen since the last restart.
pub struct DecoderState {
    /// The commands of the whole stream.
    pub cmds: Seq<Command>,
    /// The index of the next command to hand out.
    pub pos: nat,
    /// The end markers handed out since the last restart.
    pub played: nat,
}

/// The serialized command stream that `d` carries, once decompressed, or
/// `None` where its compressed bytes are not a valid stream of
/// `unpacked_len` bytes.
pub open spec fn stream_of(d: OroLogoData) -> Option<Seq<u8>> {
    if d.compressed {
        if bzip2_unpacked(d.framedata@) is Some && bzip2_unpacked(d.framedata@)->0.len()
            == d.unpacked_len {
            bzip2_unpacked(d.framedata@)
        } else {
            None
        }
    } else {
        Some(d.framedata@)
    }
}

/// The state of a fresh decoder over a serialized stream.
pub open spec fn fresh(bs: Seq<u8>) -> DecoderState {
    DecoderState { cmds: commands_of(words_of(bs)), pos: 0, played: 0 }
}

/// The index of the first end marker at or after `i`, or the length of
/// `cs` when there is none.
pub open spec fn find_end(cs: Seq<Command>, i: int) -> int
    decreases cs.len() - i,
{
    if i < 0 || i >= cs.len() {
        cs.len() as int
    } else if cs[i] is End {
        i
    } else {
        find_end(cs, i + 1)
    }
}

/// Where reading resumes after the stream ran out: past the first frame
/// when more than one frame was played since the last restart, else at
/// the start.
pub open spec fn restart_at(s: DecoderState) -> int {
    if s.played > 1 {
        find_end(s.cmds, 0) + 1
    } else {
        0
    }
}

/// One advance of the decoder: the next state and the command handed out.
pub open spec fn step(s: DecoderState) -> (DecoderState, Command) {
    if s.pos < s.cmds.len() {
        let c = s.cmds[s.pos as int];
        (
            DecoderState {
                cmds: s.cmds,
                pos: s.pos + 1,
                played: if c is End {
                    s.played + 1
                } else {
                    s.played
                },
            },
            c,
        )
    } else {
        let k = restart_at(s);
        (DecoderState { cmds: s.cmds, pos: (k + 1) as nat, played: 0 }, s.cmds[k])
    }
}

/// The states a decoder can be in: a non-empty stream, a position inside
/// it, and end markers behind the position for every frame counted.
pub open spec fn well_formed(s: DecoderState) -> bool {
    &&& s.cmds.len() > 0
    &&& s.pos <= s.cmds.len()
    &&& s.played <= s.pos
    &&& s.played >= 1 ==> exists|j: int| 0 <= j < s.pos && #[trigger] s.cmds[j] is End
    &&& s.played >= 2 ==> exists|i: int, j: int|
        0 <= i < j < s.pos && #[trigger] s.cmds[i] is End && #[trigger] s.cmds[j] is End
}

/// An end marker at or after `i` is found, and none comes before it.
pub proof fn lemma_find_end(cs: Seq<Command>, i: int, j: int)
    requires
        0 <= i <= j < cs.len(),
        cs[j] is End,
    ensures
        i <= find_end(cs, i) <= j,
        cs[find_end(cs, i)] is End,
        forall|m: int| i <= m < find_end(cs, i) ==> !(#[trigger] cs[m] is End),
    decreases j - i,
{
    if !(cs[i] is End) {
        lemma_find_end(cs, i + 1, j);
    }
}

/// Every step keeps a decoder's state well formed.
pub proof fn lemma_step_well_formed(s: DecoderState)
    requires
        well_formed(s),
    ensures
        well_formed(step(s).0),
        step(s).0.cmds == s.cmds,
{
    if s.pos < s.cmds.len() {
        let t = step(s).0;
        if s.cmds[s.pos as int] is End {
            assert(s.cmds[s.pos as int] is End);
            if s.played >= 1 {
                let j = choose|j: int| 0 <= j < s.pos && #[trigger] s.cmds[j] is End;
                assert(0 <= j < s.pos as int && s.cmds[j] is End && s.cmds[s.pos as int] is End);
            }
        }
    } else if s.played > 1 {
        let (i, j) = choose|i: int, j: int|
            0 <= i < j < s.pos && #[trigger] s.cmds[i] is End && #[trigger] s.cmds[j] is End;
        lemma_find_end(s.cmds, 0, i);
    }
}

/// The number of end markers in `cs`.
pub open spec fn end_count(cs: Seq<Command>) -> nat
    decreases cs.len(),
{
    if cs.len() == 0 {
        0
    } else {
        end_count(cs.drop_last()) + if cs.last() is End {
            1nat
        } else {
            0nat
        }
    }
}

/// The state after `n` advances.
pub open spec fn run_steps(s: DecoderState, n: nat) -> DecoderState
    decreases n,
{
    if n == 0 {
        s
    } else {
        step(run_steps(s, (n - 1) as nat)).0
    }
}

/// The commands handed out by `n` advances.
pub open spec fn outputs(s: DecoderState, n: nat) -> Seq<Command>
    decreases n,
{
    if n == 0 {
        Seq::empty()
    } else {
        outputs(s, (n - 1) as nat).push(step(run_steps(s, (n - 1) as nat)).1)
    }
}

/// A decoder over one embedded animation: an endless sequence of
/// commands. After the last frame of the stream it starts again, past the
/// first frame when more than one frame was played since the last restart.
///
/// The first frame redraws the whole image; every later frame only paints
/// what changed, so a consumer that must repaint builds a fresh decoder and
/// advances it to the current frame.
///
/// Compressed data is decompressed once, when the decoder is built; a
/// restart reads the same bytes again from their start.
pub struct OroLogo {
    stream: Vec<u8>,
    pos: usize,
    played: usize,
    width: usize,
    height: usize,
    frames: usize,
    fps: usize,
}

impl View for OroLogo {
    type V = DecoderState;

    closed spec fn view(&self) -> DecoderState {
        DecoderState {
            cmds: commands_of(words_of(self.stream@)),
            pos: self.pos as nat,
            played: self.played as nat,
        }
    }
}

impl OroLogo {
    /// The decoder's invariant.
    pub closed spec fn wf(&self) -> bool {
        &&& well_formed(self@)
        &&& self.stream@.len() / 2 == self@.cmds.len()
    }

    /// The size and playback parameters the decoder was built with:
    /// width, height, frame count and recommended frames per second.
    pub closed spec fn params(&self) -> (usize, usize, usize, usize) {
        (self.width, self.height, self.frames, self.fps)
    }

    /// Builds a fresh decoder over the stream that `data` carries.
    ///
    /// The embedded data is trusted: compressed data must decompress to a
    /// stream of `unpacked_len` bytes, as `OroLogoData::new` guarantees. Its
    /// commands are not checked against the frame size; consumers bound
    /// their writes (see `apply_command`). A stream without one complete
    /// command word is refused with `LogoError::Empty`, since a decoder over
    /// it would have nothing to hand out.
    pub fn new(data: &OroLogoData) -> (r: Result<OroLogo, LogoError>)
        requires
            stream_of(*data) is Some,
        ensures
            ({
                let bs = stream_of(*data)->0;
                if words_of(bs).len() == 0 {
                    r == Err::<OroLogo, LogoError>(LogoError::Empty)
                } else {
                    r matches Ok(d) && d.wf() && d@ == fresh(bs) && d.params() == (
                        data.width,
                        data.height,
                        data.frames,
                        data.fps,
                    )
                }
            }),
    {
        let stream = if data.compressed {
            unpack(&data.framedata, data.unpacked_len)
        } else {
            data.framedata.clone()
        };
        if stream.len() < 2 {
            return Err(LogoError::Empty);
        }
        let r = OroLogo {
            stream,
            pos: 0,
            played: 0,
            width: data.width,
            height: data.height,
            frames: data.frames,
            fps: data.fps,
        };
        assert(r@ == fresh(r.stream@));
        Ok(r)
    }

    /// Width in pixels of the animation.
    pub fn width(&self) -> (r: usize)
        ensures
            r == self.params().0,
    {
        self.width
    }

    /// Height in pixels of the animation.
    pub fn height(&self) -> (r: usize)
        ensures
            r == self.params().1,
    {
        self.height
    }

    /// Number of animation frames.
    pub fn frames(&self) -> (r: usize)
        ensures
            r == self.params().2,
    {
        self.frames
    }

    /// The recommended frames per second.
    pub fn fps(&self) -> (r: usize)
        ensures
            r == self.params().3,
    {
        self.fps
    }

    fn command_at(&self, k: usize) -> (c: Command)
        requires
            self.wf(),
            k < self@.cmds.len(),
        ensures
            c == self@.cmds[k as int],
    {
        let w = read_word(&self.stream, k);
        decode_command(w)
    }

    /// Hands out the next command; at the end of the stream, starts over.
    pub fn next(&mut self) -> (c: Command)
        requires
            old(self).wf(),
        ensures
            final(self).wf(),
            (final(self)@, c) == step(old(self)@),
            final(self).params() == old(self).params(),
    {
        proof {
            lemma_step_well_formed(self@);
        }
        let n = self.stream.len() / 2;
        if self.pos < n {
            let c = self.command_at(self.pos);
            self.pos = self.pos + 1;
            if let Command::End = c {
                self.played = self.played + 1;
            }
            c
        } else {
            let ghost s = self@;
            let mut k: usize = 0;
            if self.played > 1 {
                let ghost fe = find_end(s.cmds, 0);
                proof {
                    let (i, j) = choose|i: int, j: int|
                        0 <= i < j < s.pos && #[trigger] s.cmds[i] is End && #[trigger] s.cmds[j] is End;
                    lemma_find_end(s.cmds, 0, i);
                }
                loop
                    invariant
                        self.wf(),
                        self@ == s,
                        n == s.cmds.len(),
                        k <= fe < n,
                        s.cmds[fe] is End,
                        forall|m: int| 0 <= m < fe ==> !(#[trigger] s.cmds[m] is End),
                    ensures
                        self.wf(),
                        self@ == s,
                        k == fe,
                    decreases fe - k,
                {
                    let c = self.command_at(k);
                    if let Command::End = c {
                        break;
                    }
                    k = k + 1;
                }
                k = k + 1;
            }
            let c = self.command_at(k);
            self.pos = k + 1;
            self.played = 0;
            c
        }
    }
}

/// `buf` after command `c` is carried out at pixel `off`.
pub open spec fn paint(buf: Seq<u8>, off: int, c: Command) -> Seq<u8> {
    Seq::new(
        buf.len(),
        |j: int|
            if off <= j < off + pixel_count(c) && pixel_action(c) is Some {
                pixel_action(c)->0
            } else {
                buf[j]
            },
    )
}

/// Carries out a command on a pixel buffer at pixel `offset` and returns
/// the offset of the next pixel, or `None`, leaving the buffer as it was,
/// where the command would reach past the buffer's end.
pub fn apply_command(buf: &mut Vec<u8>, offset: usize, c: Command) -> (r: Option<usize>)
    ensures
        offset + pixel_count(c) <= old(buf)@.len() ==> r == Some((offset + pixel_count(c)) as usize)
            && final(buf)@ == paint(old(buf)@, offset as int, c),
        offset + pixel_count(c) > old(buf)@.len() ==> r is None && final(buf)@ == old(buf)@,
{
    let len = buf.len();
    let (n, v) = match c {
        Command::Draw(n, v) => (n as usize, Some(v)),
        Command::Skip(n) => (n as usize, None),
        Command::End => (0, None),
    };
    if offset > len || n > len - offset {
        return None;
    }
    if let Some(v) = v {
        let ghost b0 = buf@;
        let mut i: usize = offset;
        while i < offset + n
            invariant
                offset <= i <= offset + n <= len,
                buf@.len() == len,
                b0.len() == len,
                forall|j: int|
                    0 <= j < len ==> #[trigger] buf@[j] == if offset <= j < i {
                        v
                    } else {
                        b0[j]
                    },
            decreases offset + n - i,
        {
            buf.set(i, v);
            i = i + 1;
        }
        assert(buf@ =~= paint(b0, offset as int, c));
    } else {
        assert(old(buf)@ =~= paint(old(buf)@, offset as int, c));
    }
    Some(offset + n)
}

} // verus!
