use vectordb::float::Float32;
use vectordb::index_file::index_file_name;
use vectordb::types::{VectorId, VectorIdValue, VersionHash};

#[test]
fn numbers_compare_as_the_processor_does() {
    let samples: Vec<f32> = vec![
        0.0,
        -0.0,
        1.0,
        -1.0,
        0.2,
        f32::MIN_POSITIVE,
        f32::from_bits(1),
        f32::from_bits(0x8000_0001),
        f32::MAX,
        f32::MIN,
        f32::INFINITY,
        f32::NEG_INFINITY,
        f32::NAN,
        -f32::NAN,
        f32::from_bits(0x7f80_0001),
        f32::from_bits(0xffff_ffff),
    ];
    for a in &samples {
        for b in &samples {
            let x = Float32 { bits: a.to_bits() };
            let y = Float32 { bits: b.to_bits() };
            assert_eq!(x == y, a == b);
        }
    }
}

#[test]
fn index_files_are_named_after_their_version() {
    assert_eq!(index_file_name(&VersionHash(0)), "0.index");
    assert_eq!(index_file_name(&VersionHash(9)), "9.index");
    assert_eq!(index_file_name(&VersionHash(10)), "10.index");
    assert_eq!(index_file_name(&VersionHash(1_234_567_890)), "1234567890.index");
    assert_eq!(index_file_name(&VersionHash(u32::MAX)), "4294967295.index");
    for n in 0..2000 {
        assert_eq!(index_file_name(&VersionHash::from(n)), format!("{}.index", n));
    }
}

#[test]
fn vector_ids_convert_both_ways() {
    for n in [0, 1, 77, u32::MAX] {
        assert_eq!(VectorId::from(VectorIdValue(n)), VectorId(n));
        assert_eq!(VectorIdValue::from(VectorId(n)), VectorIdValue(n));
        assert_eq!(VectorId::from(VectorIdValue::from(VectorId(n))), VectorId(n));
    }
}
