use chunkvault::error::Error;
use chunkvault::splitter::{count_chunks, split};

#[test]
fn hello_world_in_chunks_of_five() {
    let chunks = split(b"Hello, World!", 5).unwrap();
    assert_eq!(chunks, vec![b"Hello".to_vec(), b", Wor".to_vec(), b"ld!".to_vec()]);
}

#[test]
fn empty_buffer_has_no_chunk() {
    assert_eq!(split(b"", 1).unwrap(), Vec::<Vec<u8>>::new());
    assert_eq!(split(b"", 4096).unwrap(), Vec::<Vec<u8>>::new());
}

#[test]
fn chunk_size_of_zero_is_refused() {
    assert!(matches!(split(b"abc", 0), Err(Error::ConfigError)));
    assert!(matches!(split(b"", 0), Err(Error::ConfigError)));
}

#[test]
fn exact_multiple_has_no_short_chunk() {
    let chunks = split(b"abcdefghij", 5).unwrap();
    assert_eq!(chunks, vec![b"abcde".to_vec(), b"fghij".to_vec()]);
}

#[test]
fn chunk_larger_than_the_buffer_gives_one_chunk() {
    assert_eq!(split(b"abc", 4).unwrap(), vec![b"abc".to_vec()]);
    assert_eq!(split(b"abc", 3).unwrap(), vec![b"abc".to_vec()]);
    assert_eq!(split(b"abc", usize::MAX).unwrap(), vec![b"abc".to_vec()]);
}

#[test]
fn chunks_of_one_byte() {
    assert_eq!(split(b"abc", 1).unwrap(), vec![vec![b'a'], vec![b'b'], vec![b'c']]);
}

#[test]
fn chunk_count_is_the_length_over_the_size_rounded_up() {
    for len in 0usize..40 {
        let bytes: Vec<u8> = (0..len).map(|i| i as u8).collect();
        for size in 1usize..12 {
            let chunks = split(&bytes, size).unwrap();
            assert_eq!(chunks.len(), (len + size - 1) / size);
            for (index, chunk) in chunks.iter().enumerate() {
                if index + 1 < chunks.len() {
                    assert_eq!(chunk.len(), size);
                } else {
                    assert!(1 <= chunk.len() && chunk.len() <= size);
                }
            }
            assert_eq!(chunks.concat(), bytes);
        }
    }
}

#[test]
fn splitting_is_binary_safe() {
    // a two-byte character cut in the middle
    let bytes = "a\u{e9}b".as_bytes();
    assert_eq!(bytes.len(), 4);
    let chunks = split(bytes, 2).unwrap();
    assert_eq!(chunks, vec![vec![0x61, 0xc3], vec![0xa9, 0x62]]);
    let all: Vec<u8> = (0u8..=255).collect();
    assert_eq!(split(&all, 100).unwrap().concat(), all);
}

#[test]
fn chunks_are_counted_without_cutting() {
    assert_eq!(count_chunks(0, 5), 0);
    assert_eq!(count_chunks(13, 5), 3);
    assert_eq!(count_chunks(10, 5), 2);
    assert_eq!(count_chunks(1, 5), 1);
    assert_eq!(count_chunks(5, 1), 5);
    assert_eq!(count_chunks(usize::MAX, 1), usize::MAX);
    assert_eq!(count_chunks(usize::MAX, usize::MAX), 1);
    assert_eq!(count_chunks(usize::MAX, 2), usize::MAX / 2 + 1);
    for len in 0usize..60 {
        for size in 1usize..9 {
            let bytes = vec![0u8; len];
            assert_eq!(count_chunks(len, size), split(&bytes, size).unwrap().len());
        }
    }
}
