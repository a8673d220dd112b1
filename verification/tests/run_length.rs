use athena::utils::run_length::{run_length_decoder, run_length_encoder};

#[test]
fn serde_simple() {
    let data_no_double = "lorem ipsum dolor sit amet consectetur adipiscing elit sed do eiusmod tempor incididunt ut labore et dolore magna aliqua.";
    let data_some_double = "lorem ipsummm doloor siiittt ameeet consecteetttur adipiscinggg ellittt seddd do eiusmmod temppor incididddduunt ut labbore eet dolllllore maggna aliquaa.";
    let compressed_no_double = run_length_encoder(&data_no_double.as_bytes().to_vec());
    let compressed_some_double = run_length_encoder(&data_some_double.as_bytes().to_vec());
    let decompressed_no_double = run_length_decoder(&compressed_no_double);
    let decompressed_some_double = run_length_decoder(&compressed_some_double);
    assert_eq!(String::from_utf8(decompressed_no_double).unwrap(), data_no_double);
    assert_eq!(String::from_utf8(decompressed_some_double).unwrap(), data_some_double);
}

#[test]
fn serde_advanced() {
    let data0 = {
        let abc = vec![
            'a', 'b', 'c', 'd', 'e', 'f', 'g', 'h', 'i', 'j', 'k', 'l', 'm', 'n', 'o', 'p', 'q',
            'r', 's', 't', 'u', 'v', 'w', 'x', 'y', 'z',
        ];
        let mut s = String::new();
        for i in 0..1000 {
            for _ in 0..3 {
                s.push(abc[i % abc.len()]);
            }
        }
        s.as_bytes().to_vec()
    };
    assert_eq!(data0.len(), 3000);
    let compressed0 = run_length_encoder(&data0);
    let decompressed0 = run_length_decoder(&compressed0);
    assert_eq!(compressed0.len(), 1000);
    assert_eq!(decompressed0, data0);
    assert!(compressed0.len() < data0.len());
}

#[test]
fn encoder_counts_runs() {
    let data = "AAAABBBCCDEEEEFFGGGGHHIJKLLMMNNNPQQRRSTUUVVVVWWXYYZ".as_bytes().to_vec();
    let compressed = run_length_encoder(&data);
    assert_eq!(compressed.len(), 25);
    assert_eq!(compressed[0], (4, b'A'));
    assert_eq!(compressed[1], (3, b'B'));
    assert_eq!(compressed[24], (1, b'Z'));
}

#[test]
fn decoder_treats_zero_count_as_one() {
    let data: Vec<(usize, u8)> = vec![(0, 7), (2, 9)];
    assert_eq!(run_length_decoder(&data), vec![7, 9, 9]);
}

#[test]
fn decoder_expands_counts() {
    let data: Vec<(usize, u8)> = vec![(4, 97), (1, 98), (2, 99), (3, 100)];
    let decompressed = run_length_decoder(&data);
    assert_eq!(decompressed.len(), 10);
    assert_eq!(decompressed, vec![97, 97, 97, 97, 98, 99, 99, 100, 100, 100]);
}

#[test]
fn generic_round_trip_u32() {
    let data: Vec<u32> = vec![9, 9, 9, 70000, 70000, 1, 2, 2];
    let compressed = athena::tools::run_length::run_length_encoder(&data);
    assert_eq!(compressed, vec![(3, 9u32), (2, 70000), (1, 1), (2, 2)]);
    let decompressed = athena::tools::run_length::run_length_decoder(&compressed);
    assert_eq!(decompressed, data);
}
