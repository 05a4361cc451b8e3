//! The command word format shared by the encoder and the decoder.
//!
//! Every command is one 16-bit little-endian word. Bit 0 tells the kind:
//! 0 is a skip, whose bits 1..=15 hold the pixel count; 1 is a draw, whose
//! bits 1..=2 hold the intensity and bits 3..=15 the pixel count. The
//! all-zero word (a skip of nothing) marks the end of a frame.
use vstd::prelude::*;

verus! {

/// The largest pixel count that a skip word can hold.
pub const MAX_SKIP: u16 = 32767;

/// The largest pixel count that a draw word can hold.
pub const MAX_DRAW: u16 = 8191;

/// The word that ends a frame.
pub const END_WORD: u16 = 0;

/// One decoded instruction for a consumer that paints a pixel buffer.
///
/// Consumers must bound-check every write against their own buffer: the
/// decoder does not check that a frame's counts add up to the frame size.
#[derive(Clone, Copy, Debug, PartialEq, Eq, Structural)]
pub enum Command {
    /// Paint the next `.0` pixels with the intensity `.1`.
    Draw(u16, u8),
    /// Leave the next `.0` pixels as they are.
    Skip(u16),
    /// The current frame is complete; the next command starts a new frame.
    End,
}

/// What a command does to a single pixel: `Some(v)` paints intensity `v`,
/// `None` keeps the pixel.
pub open spec fn pixel_action(c: Command) -> Option<u8> {
    match c {
        Command::Draw(_, v) => Some(v),
        _ => None,
    }
}

/// The number of pixels a command covers.
pub open spec fn pixel_count(c: Command) -> nat {
    match c {
        Command::Draw(n, _) => n as nat,
        Command::Skip(n) => n as nat,
        Command::End => 0,
    }
}

/// The largest count that a run with the given action can carry in one word.
pub open spec fn run_cap(a: Option<u8>) -> nat {
    match a {
        Some(_) => MAX_DRAW as nat,
        None => MAX_SKIP as nat,
    }
}

/// 2-bit intensity of an 8-bit sample: its top two bits.
pub open spec fn quant(b: u8) -> u8 {
    b / 64
}

/// The word that a draw or skip command is stored as.
pub open spec fn word_of(c: Command) -> u16 {
    match c {
        Command::Draw(n, v) => (8 * n + 2 * v + 1) as u16,
        Command::Skip(n) => (2 * n) as u16,
        Command::End => 0,
    }
}

/// The command that a stored word stands for.
pub open spec fn command_of(w: u16) -> Command {
    if w == 0 {
        Command::End
    } else if w % 2 == 0 {
        Command::Skip(w / 2)
    } else {
        Command::Draw(w / 8, ((w / 2) % 4) as u8)
    }
}

/// A draw or skip command that a word can hold and that covers at least
/// one pixel.
pub open spec fn is_run(c: Command) -> bool {
    match c {
        Command::Draw(n, v) => 0 < n <= MAX_DRAW && v < 4,
        Command::Skip(n) => 0 < n <= MAX_SKIP,
        Command::End => false,
    }
}

/// Every word stands for the command that was stored in it.
pub proof fn lemma_command_of_word_of(c: Command)
    requires
        is_run(c) || c is End,
    ensures
        command_of(word_of(c)) == c,
{
    match c {
        Command::Draw(n, v) => {
            assert(n <= 8191 && v < 4 ==> ({
                let w = (8 * n + 2 * v + 1) as u16;
                w != 0 && w % 2 == 1 && w / 8 == n && (w / 2) % 4 == v as u16
            })) by (nonlinear_arith);
        },
        Command::Skip(n) => {
            assert(0 < n <= 32767 ==> ({
                let w = (2 * n) as u16;
                w != 0 && w % 2 == 0 && w / 2 == n
            })) by (nonlinear_arith);
        },
        Command::End => {},
    }
}

/// A word is determined by the command it stands for.
pub proof fn lemma_word_of_command_of(w: u16)
    ensures
        word_of(command_of(w)) == w,
{
    assert(w % 2 == 0 ==> (2 * (w / 2)) as u16 == w) by (nonlinear_arith);
    assert(w % 2 == 1 ==> (8 * (w / 8) + 2 * ((w / 2) % 4) + 1) as u16 == w) by (nonlinear_arith);
}

/// Reduces an 8-bit greyscale sample to one of four intensities by
/// dropping its six low bits.
pub fn quantize(sample: u8) -> (r: u8)
    ensures
        r == quant(sample),
        r < 4,
{
    let r = sample >> 6;
    assert(sample >> 6 == sample / 64 && sample / 64 < 4) by (bit_vector);
    r
}

/// Stores a draw or skip command as a word.
pub fn encode_command(c: Command) -> (w: u16)
    requires
        is_run(c),
    ensures
        w == word_of(c),
        w != 0,
        command_of(w) == c,
{
    proof {
        lemma_command_of_word_of(c);
    }
    match c {
        Command::Draw(n, v) => {
            assert(n <= 8191 && v < 4 ==> (n << 3) | ((v as u16) << 1) | 1 == (8 * n + 2 * v + 1) as u16) by (bit_vector);
            (n << 3) | ((v as u16) << 1) | 1
        },
        Command::Skip(n) => {
            assert(n <= 32767 ==> n << 1 == (2 * n) as u16) by (bit_vector);
            n << 1
        },
        Command::End => 0,
    }
}

/// Reads the command a word stands for.
pub fn decode_command(w: u16) -> (c: Command)
    ensures
        c == command_of(w),
{
    if w == 0 {
        Command::End
    } else if (w & 1) == 0 {
        assert(w & 1 == w % 2 && w >> 1 == w / 2) by (bit_vector);
        Command::Skip(w >> 1)
    } else {
        assert(w & 1 == w % 2 && w >> 3 == w / 8 && (w >> 1) & 3 == (w / 2) % 4) by (bit_vector);
        Command::Draw(w >> 3, ((w >> 1) & 3) as u8)
    }
}

/// The little-endian bytes of a word sequence.
pub open spec fn le_bytes(ws: Seq<u16>) -> Seq<u8> {
    Seq::new(
        2 * ws.len(),
        |i: int|
            if i % 2 == 0 {
                (ws[i / 2] % 256) as u8
            } else {
                (ws[i / 2] / 256) as u8
            },
    )
}

/// The words that a byte stream holds, two bytes each, low byte first; a
/// trailing odd byte is not part of any word.
pub open spec fn words_of(bs: Seq<u8>) -> Seq<u16> {
    Seq::new(bs.len() / 2, |k: int| (bs[2 * k] + 256 * bs[2 * k + 1]) as u16)
}

/// Reading back the bytes of a word sequence gives the words.
pub proof fn lemma_words_of_le_bytes(ws: Seq<u16>)
    ensures
        words_of(le_bytes(ws)) == ws,
{
    let bs = le_bytes(ws);
    assert forall|k: int| 0 <= k < ws.len() implies #[trigger] words_of(bs)[k] == ws[k] by {
        assert((2 * k) % 2 == 0 && (2 * k) / 2 == k && (2 * k + 1) % 2 == 1 && (2 * k + 1) / 2 == k)
            by (nonlinear_arith);
        let w = ws[k];
        assert(w % 256 + 256 * (w / 256) == w) by (nonlinear_arith);
    }
    assert(words_of(bs) =~= ws);
}

/// Serializes command words as little-endian bytes.
pub fn words_to_bytes(ws: &Vec<u16>) -> (r: Vec<u8>)
    ensures
        r@ == le_bytes(ws@),
{
    let mut r: Vec<u8> = Vec::new();
    let mut k: usize = 0;
    while k < ws.len()
        invariant
            k <= ws@.len(),
            r@.len() == 2 * k,
            forall|i: int| 0 <= i < 2 * k ==> #[trigger] r@[i] == le_bytes(ws@)[i],
        decreases ws@.len() - k,
    {
        let w = ws[k];
        r.push((w % 256) as u8);
        r.push((w / 256) as u8);
        proof {
            assert forall|i: int| 0 <= i < 2 * k + 2 implies #[trigger] r@[i] == le_bytes(ws@)[i] by {
                if i >= 2 * k {
                    assert((2 * k) % 2 == 0 && (2 * k) / 2 == k && (2 * k + 1) % 2 == 1 && (2 * k + 1) / 2 == k)
                        by (nonlinear_arith);
                }
            }
        }
        k = k + 1;
    }
    assert(r@ =~= le_bytes(ws@));
    r
}

/// Reads word `k` of a little-endian byte stream.
pub fn read_word(bs: &Vec<u8>, k: usize) -> (w: u16)
    requires
        k < bs@.len() / 2,
    ensures
        w == words_of(bs@)[k as int],
{
    let len = bs.len();
    assert(2 * k + 1 < len) by (nonlinear_arith)
        requires
            k < len / 2,
    ;
    let lo = bs[2 * k];
    let hi = bs[2 * k + 1];
    lo as u16 + 256 * (hi as u16)
}

} // verus!
