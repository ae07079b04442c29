use essvi::synthetic::scatter_code;

#[test]
fn scatter_code_known_values() {
    assert_eq!(scatter_code(301, 0), 189);
    assert_eq!(scatter_code(301, 5), 784);
    assert_eq!(scatter_code(0, 0), 0);
    assert_eq!(scatter_code(12345678901234567, 59), 460);
}

#[test]
fn scatter_code_wraps_at_64_bits() {
    assert_eq!(scatter_code(u64::MAX, 0), 127);
    assert_eq!(scatter_code(u64::MAX, 7), 560);
}

#[test]
fn scatter_code_stays_below_1000() {
    for seed in [0u64, 1, 301, 29452, u64::MAX / 3, u64::MAX] {
        for i in 0..100u64 {
            assert!(scatter_code(seed, i) < 1000);
        }
    }
}
