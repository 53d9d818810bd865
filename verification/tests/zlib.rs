use soulseek_rs::utils::zlib::bits::BitReader;
use soulseek_rs::utils::zlib::checksum::adler32;
use soulseek_rs::utils::zlib::huffman::{decode_symbol, HuffmanTree};
use soulseek_rs::error::SoulseekRs;
use soulseek_rs::utils::zlib::{compress, compress_stored, deflate};

#[test]
fn decode_symbol_on_degenerate_tree_errors_instead_of_panicking() {
    // A malformed Huffman table from an untrusted peer can produce a node
    // with only one child. Inserting codeword "0" gives the root a left
    // child but no right child; decoding a '1' bit must error rather than
    // unwrap-panic.
    let mut tree = HuffmanTree::new();
    tree.insert(0, 1, 42);
    let mut reader = BitReader::new(vec![0b0000_0001]); // first bit = 1
    assert!(decode_symbol(&mut reader, &tree).is_err());
}

#[test]
fn compress_stored_roundtrips_through_the_decoder() {
    // Cover the block boundaries: empty, tiny, exactly 0xFFFF, and multi-block.
    for size in [0usize, 1, 11, 65_534, 65_535, 65_536, 131_072, 200_000] {
        let data: Vec<u8> = (0..size).map(|i| (i % 251) as u8).collect();
        let compressed = compress_stored(&data);
        assert_eq!(
            deflate(&compressed).unwrap(),
            data,
            "roundtrip failed at size {size}"
        );
    }
}

#[test]
fn compress_stored_header_and_adler32_are_correct() {
    assert_eq!(&compress_stored(b"")[0..2], &[120, 1]);
    assert_eq!(adler32(b""), 1);
    // a = 1+97+98+99 = 295 = 0x127; b = 98+294+589 = 981 = 0x24D.
    assert_eq!(adler32(b"abc"), 0x024D_0127);
}

#[test]
fn test_bitreader_read_bits() {
    let data = vec![0b11010010, 0b10110101];
    let mut reader = BitReader::new(data);

    assert_eq!(reader.read_bits(3).unwrap(), 0b010); // First 3 bits: 010
    assert_eq!(reader.read_bits(5).unwrap(), 0b11010); // Next 5 bits: 11010
}

#[test]
fn test_bitreader_read_bytes() {
    let data = vec![0x12, 0x34, 0x56, 0x78];
    let mut reader = BitReader::new(data);

    assert_eq!(reader.read_bytes(2).unwrap(), 0x3412); // Little-endian: 0x3412
    assert_eq!(reader.read_bytes(2).unwrap(), 0x7856); // Little-endian: 0x7856
}

#[test]
fn test_extract_header_success() {
    // [120, 156] is a valid zlib header
    let result = deflate(&[120, 156, 3, 0, 0, 0, 0, 1]); // Minimal valid zlib stream
    assert!(result.is_ok());
}

#[test]
fn test_extract_header_fail_to_short() {
    let data = vec![120]; // Too short
    let mut reader = BitReader::new(data);
    let result = reader.read_byte();
    assert!(result.is_ok());
    let result = reader.read_byte();
    assert!(result.is_err());
}

#[test]
fn test_deflate() {
    let data = vec![
        120, 156, 203, 72, 205, 201, 201, 87, 8, 207, 47, 202, 73, 1, 0, 25, 107, 4, 61,
    ];
    let result = deflate(&data);
    assert!(result.is_ok());
    let decompressed = result.unwrap();
    assert_eq!(decompressed, b"hello World");
}

#[test]
fn test_deflate2() {
    let data = vec![
        120, 156, 99, 103, 96, 96, 72, 201, 79, 201, 76, 79, 204, 203, 213, 158, 98, 194, 4, 228, 50, 250,
        3, 9, 7, 135, 162, 156, 148, 194, 188, 152, 228, 252, 220, 130, 156, 212, 146, 212, 24, 231, 196,
        188, 228, 204, 252, 188, 212, 226, 152, 144, 162, 210, 226, 226, 212, 28, 93, 67, 75, 115, 75, 93,
        119, 160, 144, 130, 91, 126, 145, 66, 72, 70, 170, 66, 120, 106, 106, 118, 106, 94, 138, 174, 161,
        89, 82, 102, 137, 174, 137, 137, 142, 161, 119, 70, 149, 94, 90, 78, 98, 114, 203, 175, 243, 32,
        163, 193, 128, 25, 100, 7, 16, 23, 0, 9, 22, 32, 237, 178, 134, 129, 129, 21, 72, 11, 128, 196,
        243, 176, 217, 29, 156, 153, 151, 158, 147, 90, 12, 54, 95, 193, 216, 84, 193, 200, 192, 200, 36,
        198, 45, 181, 168, 40, 53, 57, 91, 193, 37, 177, 60, 79, 71, 193, 55, 177, 44, 181, 40, 19, 200,
        13, 78, 76, 42, 74, 85, 80, 83, 240, 75, 45, 7, 10, 38, 103, 100, 2, 221, 167, 139, 238, 66, 5,
        13, 144, 17, 154, 96, 167, 173, 228, 215, 98, 68, 119, 218, 74, 6, 76, 167, 49, 60, 153, 202, 200,
        160, 199, 128, 0, 0, 161, 99, 76, 142,
    ];
    let expect = vec![
        7, 0, 0, 0, 100, 111, 100, 105, 103, 97, 110, 109, 43, 148, 52, 2, 0, 0, 0, 1, 79, 0, 0, 0, 64,
        64, 114, 108, 100, 113, 110, 92, 99, 111, 109, 112, 108, 101, 116, 101, 92, 67, 97, 110, 99, 105,
        111, 110, 101, 115, 92, 84, 114, 117, 115, 115, 101, 108, 45, 49, 57, 55, 57, 45, 71, 111, 110,
        101, 32, 70, 111, 114, 32, 84, 104, 101, 32, 87, 101, 101, 107, 101, 110, 100, 45, 49, 54, 98,
        105, 116, 45, 52, 52, 44, 49, 75, 104, 122, 46, 102, 108, 97, 99, 132, 250, 207, 2, 0, 0, 0, 0,
        0, 0, 0, 0, 3, 0, 0, 0, 1, 0, 0, 0, 112, 1, 0, 0, 4, 0, 0, 0, 68, 172, 0, 0, 5, 0, 0, 0, 16, 0, 0,
        0, 1, 110, 0, 0, 0, 64, 64, 114, 108, 100, 113, 110, 92, 99, 111, 109, 112, 108, 101, 116, 101,
        92, 83, 105, 110, 103, 108, 101, 115, 32, 87, 101, 101, 107, 32, 51, 53, 32, 50, 48, 50, 52, 92,
        70, 101, 114, 114, 101, 99, 107, 32, 68, 97, 119, 110, 44, 32, 77, 97, 118, 101, 114, 105, 99,
        107, 32, 83, 97, 98, 114, 101, 32, 38, 32, 78, 101, 119, 32, 77, 97, 99, 104, 105, 110, 101, 32,
        45, 32, 70, 111, 114, 32, 84, 104, 101, 32, 87, 101, 101, 107, 101, 110, 100, 32, 40, 50, 48, 50,
        52, 41, 46, 102, 108, 97, 99, 169, 15, 42, 1, 0, 0, 0, 0, 0, 0, 0, 0, 3, 0, 0, 0, 1, 0, 0, 0, 169,
        0, 0, 0, 4, 0, 0, 0, 68, 172, 0, 0, 5, 0, 0, 0, 16, 0, 0, 0, 0, 228, 149, 1, 0, 46, 0, 0, 0, 0, 0,
        0, 0, 0, 0, 0, 0,
    ]
    .to_vec();
    let result = deflate(&data);

    assert!(result.is_ok());
    let decompressed = result.unwrap();

    assert_eq!(decompressed, expect);
}

fn shared_list() -> Vec<u8> {
    let mut out = Vec::new();
    for artist in ["Aphex Twin", "Boards of Canada", "Coil", "Autechre"] {
        for album in ["Selected Ambient Works", "Geogaddi", "Musick to Play in the Dark"] {
            for n in 1..=14 {
                out.extend_from_slice(format!("@@music\\FLAC\\{artist}\\{album}\\{n:02} Track.flac\n").as_bytes());
            }
        }
    }
    out
}

#[test]
fn every_shape_survives_a_round_trip() {
    let mut seed = 0x2545_F491_4F6C_DD1Du64;
    let mut noise = |n: usize| -> Vec<u8> {
        (0..n)
            .map(|_| {
                seed ^= seed << 13;
                seed ^= seed >> 7;
                seed ^= seed << 17;
                (seed >> 24) as u8
            })
            .collect()
    };
    let cases = vec![
        Vec::new(),
        vec![0],
        vec![0x41; 1],
        vec![0x41; 258],
        vec![0x41; 70_000],
        b"the same words the same words the same words".to_vec(),
        shared_list(),
        noise(1),
        noise(4096),
        noise(70_000),
    ];
    for data in cases {
        let packed = compress(&data);
        assert_eq!(deflate(&packed).unwrap(), data, "{} bytes", data.len());
    }
}

#[test]
fn a_shared_file_list_actually_compresses() {
    // A broken match finder still emits valid zlib, just no smaller, so
    // only a ratio catches it.
    let data = shared_list();
    let packed = compress(&data);
    let stored = compress_stored(&data);
    assert!(
        packed.len() * 4 < stored.len(),
        "expected well under a quarter, got {} against {}",
        packed.len(),
        stored.len()
    );
}

#[test]
fn a_long_run_reaches_the_longest_match() {
    // Runs past 258 bytes split across matches, where a length-table
    // off-by-one shows up.
    let data = vec![0x5A; 100_000];
    assert_eq!(deflate(&compress(&data)).unwrap(), data);
}

#[test]
fn a_stream_that_is_not_zlib_is_refused() {
    // The header asks for a method other than DEFLATE.
    assert!(deflate(&[0x79, 0x9C, 3, 0, 0, 0, 0, 1]).is_err());
    // A wrong checksum.
    assert!(deflate(&[120, 156, 3, 0, 0, 0, 0, 2]).is_err());
    // Nothing at all.
    assert!(deflate(&[0u8; 0]).is_err());
}

#[test]
fn compress_starts_with_the_zlib_header() {
    let packed = compress(b"abcabcabcabc");
    assert_eq!(&packed[0..2], &[0x78, 0x01]);
    assert_eq!(deflate(&packed).unwrap(), b"abcabcabcabc");
}

#[test]
fn four_bytes_the_same_go_out_as_a_literal_and_a_match() {
    assert_eq!(compress(b"aaaa"), vec![0x78, 0x01, 0x4B, 0x04, 0x02, 0x00, 0x03, 0xCE, 0x01, 0x85]);
    assert_eq!(compress(b""), vec![0x78, 0x01, 0x03, 0x00, 0x00, 0x00, 0x00, 0x01]);
}

fn refusal(input: &[u8]) -> String {
    match deflate(input) {
        Err(SoulseekRs::CompressionError(m)) => m,
        Err(_) => panic!("refused with another kind of error"),
        Ok(_) => panic!("accepted"),
    }
}

#[test]
fn a_refused_stream_says_why() {
    assert_eq!(refusal(&[]), "End of data");
    assert_eq!(refusal(&[0x79, 0x9C, 3, 0, 0, 0, 0, 1]), "invalid CM");
    assert_eq!(refusal(&[0x88, 0x1C]), "invalid CINFO");
    assert_eq!(refusal(&[0x78, 0x02]), "CMF+FLG checksum failed");
    assert_eq!(refusal(&[0x78, 0xBB]), "preset dictionary not supported");
    assert_eq!(refusal(&[120, 156, 3, 0, 0, 0, 0, 2]), "adler32 checksum failed");
    // A final block of the reserved type.
    assert_eq!(refusal(&[0x78, 0x01, 0x07]), "invalid BTYPE");
    // A fixed block whose first code is cut short.
    assert_eq!(refusal(&[0x78, 0x01, 0x03]), "End of data");
    // A fixed block that opens with <length 3, distance 1>: nothing to copy.
    assert_eq!(refusal(&[0x78, 0x01, 0x03, 0x02]), "Distance too large");
    // A dynamic block whose first code length is "repeat the previous one".
    assert_eq!(refusal(&[0x78, 0x01, 0x05, 0x00, 0x02, 0x00]), "No previous code length");
}
