use md5_many::neon::{hash_equal_len12, hash_equal_len4, hash_equal_len8, hash_equal_len_run};
use md5_many::scalar::hash;

fn make_data<const LANES: usize>(len: usize) -> [Vec<u8>; LANES] {
    core::array::from_fn(|lane| {
        (0..len)
            .map(|index| (index as u8).wrapping_mul(17).wrapping_add(lane as u8 * 19))
            .collect()
    })
}

fn expected<const LANES: usize>(data: &[Vec<u8>; LANES]) -> [[u8; 16]; LANES] {
    data.each_ref().map(|input| hash(input))
}

#[test]
fn native_neon_scheduler_compositions_match_scalar() {
    for &lanes in &[4usize, 5, 8, 9, 12, 13, 16, 20, 24, 28, 32] {
        let data: Vec<Vec<u8>> = (0..lanes)
            .map(|lane| {
                (0..193)
                    .map(|index| (index as u8).wrapping_mul(17).wrapping_add(lane as u8 * 19))
                    .collect()
            })
            .collect();
        let inputs: Vec<&[u8]> = data.iter().map(Vec::as_slice).collect();
        let mut outputs = vec![[0u8; 16]; lanes];
        let processed = hash_equal_len_run(&inputs, &mut outputs);
        assert_eq!(processed, lanes & !3usize, "lanes={lanes}");
        for lane in 0..processed {
            assert_eq!(outputs[lane], hash(inputs[lane]), "lanes={lanes}, lane={lane}");
        }
    }
}

#[test]
fn native_neon_equal_len_matches_scalar() {
    for &len in &[0usize, 1, 55, 56, 63, 64, 65, 119, 120, 128, 1024, 4096] {
        let data4 = make_data::<4>(len);
        assert_eq!(
            hash_equal_len4(data4.each_ref().map(|input| input.as_slice())),
            expected(&data4),
            "4-way len={len}"
        );

        let data8 = make_data::<8>(len);
        assert_eq!(
            hash_equal_len8(data8.each_ref().map(|input| input.as_slice())),
            expected(&data8),
            "8-way len={len}"
        );

        let data12 = make_data::<12>(len);
        assert_eq!(
            hash_equal_len12(data12.each_ref().map(|input| input.as_slice())),
            expected(&data12),
            "12-way len={len}"
        );
    }
}
