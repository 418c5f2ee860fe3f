//! Known draws of the Middle Square Weyl Sequence generators.

use hoomd::squares::{squares32, Squares128Core, Squares64};

const KEY: u64 = 0x1234_5678_9abc_def1;

#[test]
fn squares32_known_values() {
    let mut counter = 0;
    assert_eq!(squares32(KEY, &mut counter), 1_420_250_661);
    assert_eq!(counter, 1);
    assert_eq!(squares32(KEY, &mut counter), 2_850_263_049);
    assert_eq!(squares32(KEY, &mut counter), 2_189_012_582);
    assert_eq!(counter, 3);
}

#[test]
fn squares64_next_u64_known_values() {
    let mut rng = Squares64::seed_from_u64(KEY);
    assert_eq!(rng.counter(), 0);
    assert_eq!(rng.next_u64(), 6_099_930_143_681_307_240);
    assert_eq!(rng.counter(), 1);
    assert_eq!(rng.next_u64(), 12_241_786_584_359_984_736);
    assert_eq!(rng.next_u64(), 9_401_737_450_424_446_019);
}

#[test]
fn squares64_next_u32_matches_squares32() {
    let mut rng = Squares64::seed_from_u64(KEY);
    assert_eq!(rng.next_u32(), 1_420_250_661);
    assert_eq!(rng.next_u32(), 2_850_263_049);
    // 32-bit and 64-bit draws share one counter.
    assert_eq!(rng.next_u64(), 9_401_737_450_424_446_019);
}

#[test]
fn squares64_from_seed_reads_little_endian() {
    let mut from_bytes = Squares64::from_seed([0xf1, 0xde, 0xbc, 0x9a, 0x78, 0x56, 0x34, 0x12]);
    let mut from_u64 = Squares64::seed_from_u64(KEY);
    for _ in 0..8 {
        assert_eq!(from_bytes.next_u64(), from_u64.next_u64());
    }
    let mut from_le = Squares64::from_seed(KEY.to_le_bytes());
    assert_eq!(from_le.next_u32(), 1_420_250_661);
}

#[test]
fn squares128_seed_from_u64_known_blocks() {
    let mut core = Squares128Core::seed_from_u64(7);
    assert_eq!(core.counter(), 0);
    assert_eq!(core.generate(), [5_353_336_301_656_171_473, 11_190_819_165_493_475_361]);
    assert_eq!(core.counter(), 1);
    assert_eq!(core.generate(), [1_336_528_971_172_073_562, 16_618_530_163_957_212_005]);
}

#[test]
fn squares128_from_seed_known_blocks() {
    let mut seed = [0u8; 16];
    seed[0] = 5;
    let mut core = Squares128Core::from_seed(seed);
    assert_eq!(core.generate(), [14_029_538_326_483_408_629, 14_482_397_964_339_857_175]);
    assert_eq!(core.generate(), [14_515_288_588_523_715_914, 14_406_718_881_815_440_530]);

    let mut same = Squares128Core::seed_from_u64(5);
    let mut again = Squares128Core::from_seed(seed);
    assert_eq!(same.generate(), again.generate());
}

#[test]
fn squares128_from_seed_wraps_the_key() {
    let seed: [u8; 16] = std::array::from_fn(|i| (i + 1) as u8);
    let mut core = Squares128Core::from_seed(seed);
    assert_eq!(core.generate(), [9_175_770_979_158_079_252, 11_822_405_627_975_034_906]);
    assert_eq!(core.generate(), [977_775_023_775_792_424, 10_945_206_253_092_105_630]);

    let mut core = Squares128Core::from_seed([0x80; 16]);
    assert_eq!(core.generate(), [1_652_773_869_654_984_251, 3_066_041_521_622_372_738]);
    assert_eq!(core.generate(), [8_565_962_312_966_655_345, 13_083_594_428_735_115_317]);

    // All bits set: `v + 1` wraps to 0, and so does the key.
    let mut core = Squares128Core::from_seed([0xff; 16]);
    assert_eq!(core.generate(), [0, 0]);

    // The same seed gives the same stream.
    let mut a = Squares128Core::from_seed([0x80; 16]);
    let mut b = Squares128Core::from_seed([0x80; 16]);
    for _ in 0..4 {
        assert_eq!(a.generate(), b.generate());
    }
}
