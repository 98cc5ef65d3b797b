use fountainflow::tables::{deg, rand};

#[test]
fn test_rand_generator() {
    assert!(rand(123456, 0, 100) < 100);
    assert_eq!(rand(1, 1, 2), rand(1, 1, 2));
}

#[test]
fn test_degree_generator() {
    assert_eq!(deg(0), 1);
    assert_eq!(deg(10240), 1);
    assert_eq!(deg(10241), 2);
    assert_eq!(deg(1048575), 40);
}

#[test]
fn rand_combines_both_tables() {
    // V0[0] ^ V1[0] = 251291136 ^ 807385413
    assert_eq!(rand(0, 0, u32::MAX), (251291136u32 ^ 807385413u32) % u32::MAX);
    // x = 256 moves the second table on by one: V0[0] ^ V1[1]
    assert_eq!(rand(256, 0, 1000), (251291136u32 ^ 2043073223u32) % 1000);
}

#[test]
fn degree_breakpoints() {
    assert_eq!(deg(491581), 2);
    assert_eq!(deg(491582), 3);
    assert_eq!(deg(712794), 4);
    assert_eq!(deg(831695), 10);
    assert_eq!(deg(948446), 11);
    assert_eq!(deg(1032189), 40);
}
