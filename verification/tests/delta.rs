use athena::tools::delta::{delta_decoder, delta_encoder};

#[test]
fn simple_delta_encoding() {
    let data = vec![1, 2, 3, 4, 5];
    let compressed = delta_encoder(&data);
    assert_eq!(compressed, vec![1, -1, -1, -1, -1]);

    let data2 = vec![5, 4, 3, 2, 1];
    let compressed2 = delta_encoder(&data2);
    assert_eq!(compressed2, vec![5, 1, 1, 1, 1]);
}

#[test]
fn advanced_delta_encoding() {
    let data = vec![1, 10, 2, 30, 3, 55, 4, 80, 5, 110];
    let compressed = delta_encoder(&data);
    assert_eq!(compressed, vec![1, -9, 8, -28, 27, -52, 51, -76, 75, -105]);
}

#[test]
fn simple_delta_decoding() {
    let compressed = vec![1, -1, -1, -1, -1];
    let decompressed = delta_decoder(&compressed);
    assert_eq!(decompressed, vec![1, 2, 3, 4, 5]);

    let compressed2 = vec![5, 1, 1, 1, 1];
    let decompressed2 = delta_decoder(&compressed2);
    assert_eq!(decompressed2, vec![5, 4, 3, 2, 1]);
}

#[test]
fn advanced_delta_decoding() {
    let compressed = vec![1, -9, 8, -28, 27, -52, 51, -76, 75, -105];
    let decompressed = delta_decoder(&compressed);
    assert_eq!(decompressed, vec![1, 10, 2, 30, 3, 55, 4, 80, 5, 110]);
}

#[test]
fn simple_encoding_and_decoding() {
    let data = "The quick brown fox jumps over the lazy dog";
    let compressed = delta_encoder(&data.as_bytes().to_vec());
    let decompressed = delta_decoder(&compressed);
    assert_eq!(String::from_utf8(decompressed).unwrap(), data);

    let mut small_vec = Vec::with_capacity(10);
    for i in 100..110 {
        small_vec.push(i);
    }
    let compressed = delta_encoder(&small_vec);
    let decompressed = delta_decoder(&compressed);
    assert_eq!(decompressed, small_vec);
}

#[test]
fn delta_byte_extremes() {
    let data = vec![0u8, 255, 0, 255, 128, 127];
    let compressed = delta_encoder(&data);
    assert_eq!(compressed, vec![0, -255, 255, -255, 127, 1]);
    let decompressed = delta_decoder(&compressed);
    assert_eq!(decompressed, data);
}

#[test]
fn delta_single_byte() {
    let data = vec![42u8];
    let compressed = delta_encoder(&data);
    assert_eq!(compressed, vec![42]);
    assert_eq!(delta_decoder(&compressed), data);
}
