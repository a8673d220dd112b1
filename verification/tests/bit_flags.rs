use athena::tools::bit_flags::BitFlag;
use athena::tools::u32_flag::U32Flag;
use athena::tools::u8_flag::U8Flag;

#[test]
fn test_generic_flag() {
    let mut flag = BitFlag::<u64>::new();
    flag.set(63);
    assert!(flag.read(63));
    flag.clear(63);
    assert!(!flag.read(63));
}

#[test]
fn u8_flag_first_bit() {
    let mut flag = U8Flag::new();
    flag.set(0);
    assert!(flag.read(0));
}

#[test]
fn u8_flag_all_bits() {
    let mut flag = U8Flag::new();
    for i in 0..8 {
        flag.set(i);
    }
    for i in 0..8 {
        assert!(flag.read(i));
    }
}

#[test]
fn u8_flag_all_bits_clear() {
    let mut flag = U8Flag::new();
    for i in 0..8 {
        if i % 2 == 0 {
            continue;
        }
        flag.set(i);
    }
    for i in 0..8 {
        flag.clear(i);
    }
    for i in 0..8 {
        assert!(!flag.read(i));
    }
}

#[test]
fn u32_flag_first_bit() {
    let mut flag = U32Flag::new();
    flag.set(0);
    assert!(flag.read(0));
}

#[test]
fn u32_flag_all_bits() {
    let mut flag = U32Flag::new();
    for i in 0..32 {
        flag.set(i);
    }
    for i in 0..32 {
        assert!(flag.read(i));
    }
}

#[test]
fn u32_flag_all_bits_clear() {
    let mut flag = U32Flag::new();
    for i in 0..32 {
        if i % 2 == 0 {
            continue;
        }
        flag.set(i);
    }
    for i in 0..32 {
        flag.clear(i);
    }
    for i in 0..32 {
        assert!(!flag.read(i));
    }
}

#[test]
fn generic_flag_independent_bits() {
    let mut flag = BitFlag::<u16>::new();
    flag.set(3);
    flag.set(9);
    assert!(flag.read(3));
    assert!(flag.read(9));
    assert!(!flag.read(0));
    assert!(!flag.read(15));
    flag.clear(3);
    assert!(!flag.read(3));
    assert!(flag.read(9));
}

#[test]
fn generic_flag_usize() {
    let mut flag = BitFlag::<usize>::new();
    flag.set(0);
    flag.set(31);
    assert!(flag.read(0));
    assert!(flag.read(31));
    flag.clear(0);
    assert!(!flag.read(0));
    assert!(flag.read(31));
}

#[test]
fn generic_flag_default_is_empty() {
    let flag: BitFlag<u32> = Default::default();
    for i in 0..32 {
        assert!(!flag.read(i));
    }
}
