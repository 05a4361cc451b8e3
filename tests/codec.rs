use oro_logo_rle::{
    apply_command, decode_command, encode_command, encode_frames, pack, quantize, unpack,
    words_to_bytes, Command, EncodeError, LogoError, OroLogo, OroLogoData,
};

fn data_of(words: &[u16], width: usize, height: usize, frames: usize) -> OroLogoData {
    OroLogoData::new(words_to_bytes(&words.to_vec()), width, height, frames, 24, false).unwrap()
}

fn decoder_of(words: &[u16], width: usize, height: usize, frames: usize) -> OroLogo {
    OroLogo::new(&data_of(words, width, height, frames)).unwrap()
}

/// Paints one frame from the decoder onto `buf`, as a consumer would.
fn paint_frame(dec: &mut OroLogo, buf: &mut Vec<u8>) {
    let mut off = 0usize;
    loop {
        let c = dec.next();
        if c == Command::End {
            break;
        }
        off = apply_command(buf, off, c).expect("command stays inside the buffer");
    }
}

fn quantized(f: &[u8]) -> Vec<u8> {
    f.iter().map(|b| b >> 6).collect()
}

#[test]
fn quantize_keeps_top_two_bits() {
    assert_eq!(quantize(0), 0);
    assert_eq!(quantize(63), 0);
    assert_eq!(quantize(64), 1);
    assert_eq!(quantize(127), 1);
    assert_eq!(quantize(128), 2);
    assert_eq!(quantize(191), 2);
    assert_eq!(quantize(192), 3);
    assert_eq!(quantize(255), 3);
}

#[test]
fn command_words() {
    assert_eq!(encode_command(Command::Skip(5)), 10);
    assert_eq!(encode_command(Command::Draw(4, 3)), 39);
    assert_eq!(encode_command(Command::Draw(4, 0)), 33);
    assert_eq!(encode_command(Command::Skip(32767)), 65534);
    assert_eq!(encode_command(Command::Draw(8191, 3)), 65535);
    assert_eq!(decode_command(0), Command::End);
    assert_eq!(decode_command(10), Command::Skip(5));
    assert_eq!(decode_command(39), Command::Draw(4, 3));
    assert_eq!(decode_command(65535), Command::Draw(8191, 3));
    assert_eq!(decode_command(65534), Command::Skip(32767));
}

#[test]
fn words_are_little_endian() {
    assert_eq!(words_to_bytes(&vec![0x1234, 0x00ff]), vec![0x34, 0x12, 0xff, 0x00]);
}

#[test]
fn two_by_two_two_frames() {
    let frames = vec![vec![255u8; 4], vec![0u8; 4]];
    let ws = encode_frames(&frames, 2, 2).unwrap();
    assert_eq!(ws, vec![39, 0, 33, 0, 39, 0]);
    let cmds: Vec<Command> = ws.iter().map(|w| decode_command(*w)).collect();
    assert_eq!(
        cmds,
        vec![
            Command::Draw(4, 3),
            Command::End,
            Command::Draw(4, 0),
            Command::End,
            Command::Draw(4, 3),
            Command::End
        ]
    );
    let mut dec = decoder_of(&ws, 2, 2, 2);
    let mut buf = vec![0u8; 4];
    paint_frame(&mut dec, &mut buf);
    assert_eq!(buf, vec![3, 3, 3, 3]);
    paint_frame(&mut dec, &mut buf);
    assert_eq!(buf, vec![0, 0, 0, 0]);
}

#[test]
fn round_trip_reproduces_quantized_frames() {
    let frames = vec![
        vec![0u8, 70, 130, 200, 200, 10],
        vec![0u8, 70, 250, 250, 1, 10],
        vec![255u8, 255, 255, 0, 0, 64],
    ];
    let ws = encode_frames(&frames, 3, 2).unwrap();
    let mut dec = decoder_of(&ws, 3, 2, 3);
    let mut buf = vec![0u8; 6];
    for f in &frames {
        paint_frame(&mut dec, &mut buf);
        assert_eq!(buf, quantized(f));
    }
    // The appended tail shows the first frame again.
    paint_frame(&mut dec, &mut buf);
    assert_eq!(buf, quantized(&frames[0]));
    // Then playback resumes at the second frame.
    paint_frame(&mut dec, &mut buf);
    assert_eq!(buf, quantized(&frames[1]));
}

#[test]
fn diff_frames_skip_unchanged_pixels() {
    let frames = vec![vec![0u8, 0, 0, 0], vec![0u8, 200, 200, 0]];
    let ws = encode_frames(&frames, 4, 1).unwrap();
    let cmds: Vec<Command> = ws.iter().map(|w| decode_command(*w)).collect();
    assert_eq!(
        cmds,
        vec![
            Command::Draw(4, 0),
            Command::End,
            Command::Skip(1),
            Command::Draw(2, 3),
            Command::Skip(1),
            Command::End,
            Command::Skip(1),
            Command::Draw(2, 0),
            Command::Skip(1),
            Command::End
        ]
    );
}

#[test]
fn long_draw_run_is_split() {
    let frames = vec![vec![200u8; 10000]];
    let ws = encode_frames(&frames, 100, 100).unwrap();
    let cmds: Vec<Command> = ws.iter().map(|w| decode_command(*w)).collect();
    assert_eq!(
        cmds,
        vec![
            Command::Draw(8191, 3),
            Command::Draw(1809, 3),
            Command::End,
            Command::Skip(10000),
            Command::End
        ]
    );
}

#[test]
fn long_skip_run_is_split() {
    let frames = vec![vec![5u8; 40000], vec![6u8; 40000]];
    let ws = encode_frames(&frames, 200, 200).unwrap();
    let cmds: Vec<Command> = ws.iter().map(|w| decode_command(*w)).collect();
    assert_eq!(
        cmds,
        vec![
            Command::Draw(8191, 0),
            Command::Draw(8191, 0),
            Command::Draw(8191, 0),
            Command::Draw(8191, 0),
            Command::Draw(7236, 0),
            Command::End,
            Command::Skip(32767),
            Command::Skip(7233),
            Command::End,
            Command::Skip(32767),
            Command::Skip(7233),
            Command::End
        ]
    );
}

#[test]
fn encoded_stream_has_no_empty_runs() {
    let frames = vec![
        vec![0u8, 64, 64, 128, 128, 128, 192, 0],
        vec![0u8, 64, 0, 128, 255, 128, 192, 0],
        vec![9u8, 9, 9, 9, 9, 9, 9, 9],
    ];
    let ws = encode_frames(&frames, 4, 2).unwrap();
    for w in &ws {
        match decode_command(*w) {
            Command::Draw(n, _) => assert!(n > 0),
            Command::Skip(n) => assert!(n > 0),
            Command::End => assert_eq!(*w, 0),
        }
    }
}

#[test]
fn encode_errors() {
    let one = vec![vec![0u8; 4]];
    assert_eq!(encode_frames(&one, 65536, 1), Err(EncodeError::WidthTooLarge));
    assert_eq!(encode_frames(&one, 1, 65536), Err(EncodeError::HeightTooLarge));
    assert_eq!(encode_frames(&one, 0, 4), Err(EncodeError::ZeroWidth));
    assert_eq!(encode_frames(&one, 4, 0), Err(EncodeError::ZeroHeight));
    assert_eq!(encode_frames(&vec![], 2, 2), Err(EncodeError::NoFrames));
    let uneven = vec![vec![0u8; 4], vec![0u8; 3]];
    assert_eq!(encode_frames(&uneven, 2, 2), Err(EncodeError::SizeMismatch));
}

#[test]
fn restart_skips_first_frame_after_full_cycle() {
    // Frame 0, frame 1, and the tail that repeats frame 0.
    let ws = [39u16, 0, 33, 0, 39, 0];
    let mut dec = decoder_of(&ws, 2, 2, 2);
    let mut seen = Vec::new();
    for _ in 0..10 {
        seen.push(dec.next());
    }
    assert_eq!(
        seen,
        vec![
            Command::Draw(4, 3),
            Command::End,
            Command::Draw(4, 0),
            Command::End,
            Command::Draw(4, 3),
            Command::End,
            Command::Draw(4, 0),
            Command::End,
            Command::Draw(4, 3),
            Command::End
        ]
    );
}

#[test]
fn restart_of_single_frame_stream_starts_at_frame_zero() {
    let ws = [39u16, 0];
    let mut dec = decoder_of(&ws, 2, 2, 1);
    let seen: Vec<Command> = (0..5).map(|_| dec.next()).collect();
    assert_eq!(
        seen,
        vec![
            Command::Draw(4, 3),
            Command::End,
            Command::Draw(4, 3),
            Command::End,
            Command::Draw(4, 3)
        ]
    );
}

#[test]
fn independent_decoders_agree() {
    let frames = vec![vec![0u8, 100, 200], vec![50u8, 100, 250], vec![255u8, 0, 0]];
    let ws = encode_frames(&frames, 3, 1).unwrap();
    let mut a = decoder_of(&ws, 3, 1, 3);
    let mut b = decoder_of(&ws, 3, 1, 3);
    for _ in 0..50 {
        assert_eq!(a.next(), b.next());
    }
}

#[test]
fn decoder_parameters() {
    let dec = decoder_of(&[39u16, 0], 2, 2, 1);
    assert_eq!(dec.width(), 2);
    assert_eq!(dec.height(), 2);
    assert_eq!(dec.frames(), 1);
    assert_eq!(dec.fps(), 24);
}

#[test]
fn empty_stream_is_refused() {
    let data = OroLogoData {
        width: 1,
        height: 1,
        frames: 1,
        fps: 24,
        framedata: vec![7],
        compressed: false,
        unpacked_len: 1,
    };
    assert!(matches!(OroLogo::new(&data), Err(LogoError::Empty)));
}

#[test]
fn compression_is_deterministic_and_changes_the_bytes() {
    let frames = vec![vec![255u8; 64], vec![0u8; 64], vec![128u8; 64]];
    let ws = encode_frames(&frames, 8, 8).unwrap();
    let raw = words_to_bytes(&ws);
    let packed = pack(&raw).unwrap();
    assert_ne!(packed, raw);
    assert_eq!(&packed[..3], b"BZh");
    assert_eq!(pack(&raw).unwrap(), packed);
}

#[test]
fn pack_then_unpack_gives_the_stream_back() {
    let frames = vec![vec![255u8; 64], vec![0u8; 64], vec![128u8; 64]];
    let raw = words_to_bytes(&encode_frames(&frames, 8, 8).unwrap());
    let packed = pack(&raw).unwrap();
    assert_eq!(unpack(&packed, raw.len()), raw);
    let text = b"aabbaabbaabbaabb\n".to_vec();
    assert_eq!(unpack(&pack(&text).unwrap(), text.len()), text);
}

#[test]
fn decoder_over_compressed_data() {
    let frames = vec![vec![255u8; 64], vec![0u8; 64], vec![128u8; 64]];
    let ws = encode_frames(&frames, 8, 8).unwrap();
    let data = OroLogoData::new(words_to_bytes(&ws), 8, 8, 3, 24, true).unwrap();
    assert!(data.compressed);
    assert_ne!(data.framedata, words_to_bytes(&ws));
    let mut a = OroLogo::new(&data).unwrap();
    let mut b = decoder_of(&ws, 8, 8, 3);
    for _ in 0..30 {
        assert_eq!(a.next(), b.next());
    }
}

#[test]
fn one_frame_animation_gets_a_tail() {
    let frames = vec![vec![0u8, 255, 255, 0]];
    let ws = encode_frames(&frames, 2, 2).unwrap();
    let cmds: Vec<Command> = ws.iter().map(|w| decode_command(*w)).collect();
    assert_eq!(
        cmds,
        vec![
            Command::Draw(1, 0),
            Command::Draw(2, 3),
            Command::Draw(1, 0),
            Command::End,
            Command::Skip(4),
            Command::End
        ]
    );
    let mut dec = decoder_of(&ws, 2, 2, 1);
    let mut buf = vec![2u8; 4];
    for _ in 0..5 {
        paint_frame(&mut dec, &mut buf);
        assert_eq!(buf, vec![0, 3, 3, 0]);
    }
}

#[test]
fn painting_past_the_buffer_is_refused() {
    let mut buf = vec![0u8; 4];
    assert_eq!(apply_command(&mut buf, 2, Command::Draw(3, 1)), None);
    assert_eq!(buf, vec![0, 0, 0, 0]);
    assert_eq!(apply_command(&mut buf, 1, Command::Draw(3, 2)), Some(4));
    assert_eq!(buf, vec![0, 2, 2, 2]);
    assert_eq!(apply_command(&mut buf, 0, Command::Skip(2)), Some(2));
    assert_eq!(buf, vec![0, 2, 2, 2]);
    assert_eq!(apply_command(&mut buf, 4, Command::End), Some(4));
}

#[test]
fn long_run_inside_a_frame_is_split() {
    let mut f = vec![200u8; 10002];
    f[0] = 0;
    f[10001] = 0;
    let ws = encode_frames(&vec![f], 10002, 1).unwrap();
    let cmds: Vec<Command> = ws.iter().map(|w| decode_command(*w)).collect();
    assert_eq!(
        cmds,
        vec![
            Command::Draw(1, 0),
            Command::Draw(8191, 3),
            Command::Draw(1809, 3),
            Command::Draw(1, 0),
            Command::End,
            Command::Skip(10002),
            Command::End
        ]
    );
}
