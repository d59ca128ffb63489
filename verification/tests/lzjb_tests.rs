use zfs::lzjb::{decode, encode, DecoderError, LzjbDecoder, LzjbEncoder};

fn noise(len: usize, seed: u64, alphabet: u64) -> Vec<u8> {
    let mut state: u64 = seed;
    let mut out: Vec<u8> = Vec::with_capacity(len);
    for _ in 0..len {
        state = state.wrapping_mul(6364136223846793005).wrapping_add(1442695040888963407);
        out.push(((state >> 33) % alphabet) as u8);
    }
    out
}

fn periodic(len: usize, period: usize) -> Vec<u8> {
    let base: Vec<u8> = noise(period, 7, 256);
    let mut out: Vec<u8> = Vec::with_capacity(len);
    for i in 0..len {
        out.push(base[i % period]);
    }
    out
}

fn round_trip(input: &[u8]) {
    let stream: Vec<u8> = encode(input);
    let back: Vec<u8> = decode(&stream, input.len()).expect("a stream of the encoder decodes");
    assert_eq!(back.as_slice(), input);
}

#[test]
fn round_trip_of_every_short_length() {
    for len in 0..=300usize {
        round_trip(&noise(len, len as u64 + 1, 256));
        round_trip(&noise(len, len as u64 + 1, 3));
    }
}

#[test]
fn round_trip_around_the_table_size() {
    for len in [1023usize, 1024, 1025, 2047, 2048, 2049, 4096, 5000] {
        round_trip(&noise(len, 99, 256));
        round_trip(&noise(len, 99, 2));
        round_trip(&noise(len, 99, 5));
    }
}

#[test]
fn round_trip_of_one_repeated_byte() {
    for len in [0usize, 1, 2, 3, 65, 66, 67, 68, 131, 132, 133, 1000, 4100] {
        round_trip(&vec![0x61u8; len]);
    }
}

#[test]
fn round_trip_at_the_edge_of_the_offset_window() {
    for period in [1usize, 2, 3, 255, 256, 257, 1022, 1023, 1024, 1025] {
        round_trip(&periodic(period * 3 + 200, period));
    }
}

#[test]
fn repeated_input_shrinks() {
    let input: Vec<u8> = vec![7u8; 4096];
    let stream: Vec<u8> = encode(&input);
    assert!(stream.len() < input.len() / 8);
    assert_ne!(stream, input);
}

#[test]
fn short_input_is_all_literals() {
    assert_eq!(encode(b""), Vec::<u8>::new());
    assert_eq!(encode(b"abc"), vec![0x00u8, b'a', b'b', b'c']);
    assert_eq!(
        encode(b"abcdefghij"),
        vec![0x00u8, b'a', b'b', b'c', b'd', b'e', b'f', b'g', b'h', 0x00, b'i', b'j']
    );
}

#[test]
fn longest_match_has_its_exact_bytes() {
    let input: Vec<u8> = vec![b'a'; 100];
    let mut expected: Vec<u8> = vec![0x02, b'a', 0xfc, 0x01];
    expected.extend_from_slice(&[b'a'; 6]);
    for _ in 0..3 {
        expected.push(0x00);
        expected.extend_from_slice(&[b'a'; 8]);
    }
    expected.push(0x00);
    expected.extend_from_slice(&[b'a'; 3]);
    assert_eq!(expected.len(), 41);
    assert_eq!(encode(&input), expected);
}

#[test]
fn match_item_holds_offset_and_length() {
    // "abcabcabc..." for 70 bytes: the match at 3 reaches back 3 and runs 66 long.
    let mut input: Vec<u8> = Vec::new();
    for i in 0..70usize {
        input.push(b"abc"[i % 3]);
    }
    let stream: Vec<u8> = encode(&input);
    assert_eq!(stream, vec![0x08u8, b'a', b'b', b'c', 0xfc, 0x03, b'a']);
    assert_eq!(decode(&stream, 70).unwrap(), input);
}

#[test]
fn decoder_copies_overlapping_runs() {
    let stream: Vec<u8> = vec![0x02, b'a', 0xfc, 0x01];
    assert_eq!(decode(&stream, 67).unwrap(), vec![b'a'; 67]);
}

#[test]
fn decoder_cuts_a_match_at_the_end_of_the_buffer() {
    let stream: Vec<u8> = vec![0x02, b'a', 0xfc, 0x01];
    assert_eq!(decode(&stream, 10).unwrap(), vec![b'a'; 10]);
    assert_eq!(decode(&stream, 0).unwrap(), Vec::<u8>::new());
}

#[test]
fn decoder_reads_ten_bit_offsets() {
    // 1023 literals would need many groups; use a match of distance 0x101 instead.
    let mut stream: Vec<u8> = Vec::new();
    let mut expected: Vec<u8> = Vec::new();
    for group in 0..33usize {
        stream.push(0x00);
        for item in 0..8usize {
            let byte: u8 = ((group * 8 + item) % 251) as u8;
            stream.push(byte);
            expected.push(byte);
        }
    }
    // 264 bytes written; copy 5 bytes from 0x101 = 257 back.
    stream.push(0x01);
    stream.push((2 << 2) | 0x01);
    stream.push(0x01);
    for i in 0..5usize {
        let byte: u8 = expected[264 - 257 + i];
        expected.push(byte);
    }
    assert_eq!(decode(&stream, 269).unwrap(), expected);
}

#[test]
fn first_match_before_the_start_is_corrupt() {
    let stream: Vec<u8> = vec![0x01, 0x00, 0x05];
    assert!(decode(&stream, 10).is_err());
    let mut dst: Vec<u8> = vec![9u8; 10];
    let mut decoder = LzjbDecoder::new(&stream);
    assert!(decoder.read(&mut dst).is_err());
    assert_eq!(dst, vec![9u8; 10]);
}

#[test]
fn match_beyond_the_output_so_far_is_corrupt() {
    // two literals, then a match that reaches back three
    let stream: Vec<u8> = vec![0x04, b'x', b'y', 0x00, 0x03];
    assert!(decode(&stream, 8).is_err());
    // the same match reaching back two is fine
    let stream: Vec<u8> = vec![0x04, b'x', b'y', 0x00, 0x02];
    assert_eq!(decode(&stream, 5).unwrap(), b"xyxyx".to_vec());
}

#[test]
fn stream_that_ends_early_is_corrupt() {
    assert!(decode(b"", 1).is_err());
    assert!(decode(&[0x00u8], 1).is_err());
    assert!(decode(&[0x00u8, b'a'], 2).is_err());
    assert!(decode(&[0x02u8, b'a', 0xfc], 5).is_err());
    assert_eq!(decode(b"", 0).unwrap(), Vec::<u8>::new());
}

#[test]
fn decoder_fills_the_buffer_it_is_given() {
    let stream: Vec<u8> = encode(b"hello, hello, hello");
    let mut dst: Vec<u8> = vec![0xffu8; 19];
    let mut decoder = LzjbDecoder::new(&stream);
    assert_eq!(decoder.read(&mut dst).ok(), Some(19));
    assert_eq!(dst, b"hello, hello, hello".to_vec());
}

#[test]
fn match_of_distance_zero_copies_what_the_buffer_held() {
    let stream: Vec<u8> = vec![0x01, 0x00, 0x00];
    let mut dst: Vec<u8> = vec![1u8, 2, 3, 4];
    let mut decoder = LzjbDecoder::new(&stream);
    assert_eq!(decoder.read(&mut dst[..3]).ok(), Some(3));
    assert_eq!(dst, vec![1u8, 2, 3, 4]);
}

#[test]
fn encoder_stops_where_room_runs_short() {
    let input: Vec<u8> = noise(30, 5, 256);
    let mut encoder = LzjbEncoder::new(&input);
    let mut small: Vec<u8> = vec![0xeeu8; 10];
    assert_eq!(encoder.read(&mut small), 0);
    assert_eq!(small, vec![0xeeu8; 10]);

    let mut dst: Vec<u8> = vec![0xeeu8; 20];
    let consumed: usize = encoder.read(&mut dst);
    assert_eq!(consumed, 8);
    assert_eq!(dst[0], 0x00);
    assert_eq!(&dst[1..9], &input[..8]);
    assert_eq!(&dst[9..], &[0xeeu8; 11]);
}

#[test]
fn encoder_writes_into_a_buffer_with_room() {
    let input: Vec<u8> = noise(30, 5, 256);
    let mut encoder = LzjbEncoder::new(&input);
    let mut dst: Vec<u8> = vec![0u8; 60];
    let written: usize = encoder.read(&mut dst);
    assert_eq!(written, 34);
    assert_eq!(&dst[..written], encode(&input).as_slice());
    assert_eq!(decode(&dst[..written], 30).unwrap(), input);
}

#[test]
fn empty_input_writes_nothing() {
    let mut encoder = LzjbEncoder::new(b"");
    let mut dst: Vec<u8> = vec![3u8; 4];
    assert_eq!(encoder.read(&mut dst), 0);
    assert_eq!(dst, vec![3u8; 4]);
}

#[test]
fn decoder_error_describes_itself() {
    let e = DecoderError;
    assert_eq!(e.description(), "Failed to decode. The data is likely corrupted.");
}

#[test]
fn encoder_needs_no_more_than_enough_room() {
    for len in [0usize, 1, 7, 8, 9, 16, 64, 65, 128, 1024] {
        let input: Vec<u8> = noise(len, 11, 256);
        let room: usize = 17 + len + (len + 7) / 8;
        let mut dst: Vec<u8> = vec![0xa5u8; room + 3];
        let mut encoder = LzjbEncoder::new(&input);
        let written: usize = encoder.read(&mut dst[..room]);
        assert_eq!(&dst[..written], encode(&input).as_slice());
        assert_eq!(written == 0, len == 0);
        assert_eq!(&dst[written..], vec![0xa5u8; room + 3 - written].as_slice());
        assert_eq!(decode(&dst[..written], len).unwrap(), input);
    }
}

#[test]
fn match_before_the_start_is_corrupt_anywhere() {
    // nine literals in two groups, then a match that reaches back ten
    let stream: Vec<u8> = vec![0x00, 1, 2, 3, 4, 5, 6, 7, 8, 0x02, 9, 0x00, 0x0a];
    assert!(decode(&stream, 12).is_err());
    let mut dst: Vec<u8> = vec![0u8; 12];
    let mut decoder = LzjbDecoder::new(&stream);
    assert!(decoder.read(&mut dst).is_err());
    assert_eq!(dst, vec![1u8, 2, 3, 4, 5, 6, 7, 8, 9, 0, 0, 0]);
    // reaching back nine is fine
    let stream: Vec<u8> = vec![0x00, 1, 2, 3, 4, 5, 6, 7, 8, 0x02, 9, 0x00, 0x09];
    assert_eq!(decode(&stream, 12).unwrap(), vec![1u8, 2, 3, 4, 5, 6, 7, 8, 9, 1, 2, 3]);
}
