use synunitary::basis::{angle_code, cnot_image, odd_overlap, swap_image};

#[test]
fn cnot_flips_the_target_when_the_control_is_set() {
    assert_eq!(cnot_image(0b101, 0, 1), 0b111);
    assert_eq!(cnot_image(0b100, 0, 1), 0b100);
    assert_eq!(cnot_image(0b111, 2, 0), 0b110);
    assert_eq!(cnot_image(1u64 << 63, 63, 0), (1u64 << 63) | 1);
}

#[test]
fn swap_trades_two_bits() {
    assert_eq!(swap_image(0b01, 0, 1), 0b10);
    assert_eq!(swap_image(0b11, 0, 1), 0b11);
    assert_eq!(swap_image(0b1000, 3, 0), 0b0001);
    assert_eq!(swap_image(0b0110, 0, 3), 0b0110);
}

#[test]
fn odd_overlap_counts_shared_bits() {
    assert!(odd_overlap(0b1011, 0b0110));
    assert!(!odd_overlap(0b11, 0b11));
    assert!(!odd_overlap(0, u64::MAX));
    assert!(odd_overlap(u64::MAX, 1u64 << 63));
}

#[test]
fn angle_code_reads_the_gray_code_or_reflects() {
    assert_eq!(angle_code(3, None), 2);
    assert_eq!(angle_code(6, None), 5);
    let codes: Vec<i64> = vec![0, 5, 3];
    assert_eq!(angle_code(1, Some(&codes)), 5);
    let negative: Vec<i64> = vec![-1];
    assert_eq!(angle_code(0, Some(&negative)), u64::MAX);
}

#[test]
fn cnot_undoes_itself() {
    for j in 0..64u64 {
        for ctrl in 0..6u64 {
            for targ in 0..6u64 {
                if ctrl != targ {
                    assert_eq!(cnot_image(cnot_image(j, ctrl, targ), ctrl, targ), j);
                }
            }
        }
    }
}

#[test]
fn swap_undoes_itself_and_is_three_cnots() {
    for j in 0..64u64 {
        for a in 0..6u64 {
            for b in 0..6u64 {
                if a != b {
                    assert_eq!(swap_image(swap_image(j, a, b), a, b), j);
                    assert_eq!(swap_image(j, a, b), cnot_image(cnot_image(cnot_image(j, a, b), b, a), a, b));
                }
            }
        }
    }
}
