use plutonium_engine::rng::{fnv1a64, splitmix64, RngService, RngStreamId};

#[test]
fn splitmix64_known_value() {
    assert_eq!(splitmix64(0), 0xe220_a839_7b1d_cdaf);
}

#[test]
fn fnv1a64_known_values() {
    assert_eq!(fnv1a64(b""), 0xcbf2_9ce4_8422_2325);
    assert_eq!(fnv1a64(b"a"), 0xaf63_dc4c_8601_ec8c);
    assert_eq!(fnv1a64(b"foobar"), 0x8594_4171_f739_67e8);
}

#[test]
fn derived_stream_outputs_are_fixed_by_seed_and_id() {
    let rng = RngService::with_seed(42);
    let mut s = rng.derive_stream(7);
    assert_eq!(s.next_u64(), 4081211721165545296);
    assert_eq!(s.next_u64(), 722369783444657584);
    assert_eq!(s.next_u64(), 7439712671419980807);
}

#[test]
fn same_seed_and_id_give_same_sequence() {
    let a = RngService::with_seed(1234);
    let b = RngService::with_seed(1234);
    let mut x = a.derive_stream(99);
    let mut y = b.derive(RngStreamId(99));
    for _ in 0..32 {
        assert_eq!(x.next_u64(), y.next_u64());
    }
}

#[test]
fn different_ids_give_different_streams() {
    let rng = RngService::with_seed(42);
    let mut a = rng.derive_stream(1);
    let mut b = rng.derive_stream(2);
    assert_ne!(a.next_u64(), b.next_u64());
}

#[test]
fn named_stream_uses_fnv1a_id() {
    let rng = RngService::with_seed(42);
    let mut by_name = rng.derive_stream_by_name("cards");
    let mut by_id = rng.derive_stream(fnv1a64(b"cards"));
    for _ in 0..8 {
        assert_eq!(by_name.next_u64(), by_id.next_u64());
    }
}

#[test]
fn next_u32_is_low_half_of_next_u64() {
    let rng = RngService::with_seed(42);
    let mut s = rng.derive_stream(7);
    assert_eq!(s.next_u32(), 3980107600);
    assert_eq!(s.next_u32(), 2729563568);
    assert_eq!(s.next_u32(), 3807763463);
}

#[test]
fn shuffle_known_permutation() {
    let rng = RngService::with_seed(42);
    let mut s = rng.derive_stream(7);
    let mut data = [0, 1, 2, 3, 4, 5];
    s.shuffle(&mut data);
    assert_eq!(data, [2, 1, 0, 5, 3, 4]);
}

#[test]
fn shuffle_is_a_permutation() {
    let rng = RngService::with_seed(7);
    let mut s = rng.derive_stream_by_name("deck");
    let mut data: Vec<u32> = (0..52).collect();
    s.shuffle(&mut data);
    let mut sorted = data.clone();
    sorted.sort();
    assert_eq!(sorted, (0..52).collect::<Vec<u32>>());
}

#[test]
fn shuffle_of_short_slices_draws_nothing() {
    let rng = RngService::with_seed(5);
    let mut a = rng.derive_stream(3);
    let mut b = rng.derive_stream(3);
    let mut empty: [u8; 0] = [];
    let mut one = [9u8];
    a.shuffle(&mut empty);
    a.shuffle(&mut one);
    assert_eq!(one, [9]);
    assert_eq!(a.next_u64(), b.next_u64());
}

#[test]
fn stream_with_zero_seed_still_advances() {
    let rng = RngService::with_seed(0);
    let mut s = rng.derive_stream(0);
    let first = s.next_u64();
    let second = s.next_u64();
    assert_ne!(first, second);
}
