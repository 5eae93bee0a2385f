use bitarea::sample::shape_from_draws;
use bitarea::Bitarea;

const WIDTH: u32 = 3;
const HEIGHT: u32 = 4;

fn grid(rows: &[u64]) -> Bitarea {
    Bitarea::from_rows(WIDTH, HEIGHT, rows)
}

#[test]
fn shl() {
    fn prop((data, shl_arg): (u64, u8)) -> bool {
        let b1 = Bitarea::from_bits(WIDTH, HEIGHT, data);
        let b2 = b1.shl(shl_arg as u32);

        if shl_arg as u32 >= WIDTH {
            for i in 0..WIDTH {
                for j in 0..HEIGHT {
                    if b2.get(i, j) != false {
                        return false;
                    }
                }
            }
            return true;
        }

        let n = shl_arg as u32;
        for i in 0..WIDTH - n {
            for j in 0..HEIGHT {
                if b1.get(i + n, j) != b2.get(i, j) {
                    return false;
                }
            }
        }
        for i in WIDTH - n..WIDTH {
            for j in 0..HEIGHT {
                if b2.get(i, j) != false {
                    return false;
                }
            }
        }
        true
    }

    quickcheck::quickcheck(prop as fn((u64, u8)) -> bool);
}

#[test]
fn set_builds_rows() {
    let mut b = Bitarea::new(WIDTH, HEIGHT);
    b.set(0, 0, true);
    b.set(1, 3, true);
    b.set(1, 2, true);
    b.set(0, 2, true);
    b.set(2, 1, true);

    assert_eq!(grid(&[0b100, 0b001, 0b110, 0b010]), b);
}

#[test]
fn set_clears_a_cell() {
    let mut b = grid(&[0b111, 0b111, 0b111, 0b111]);
    b.set(1, 2, false);
    assert_eq!(grid(&[0b111, 0b111, 0b101, 0b111]), b);
    assert_eq!(b.get(1, 2), false);
    assert_eq!(b.get(0, 2), true);
}

#[test]
fn get_reads_each_cell() {
    let b = grid(&[0b001, 0b111, 0b010, 0b001]);
    assert_eq!(b.get(0, 0), false);
    assert_eq!(b.get(0, 1), true);
    assert_eq!(b.get(0, 2), false);
    assert_eq!(b.get(0, 3), false);
    assert_eq!(b.get(1, 0), false);
    assert_eq!(b.get(1, 1), true);
    assert_eq!(b.get(1, 2), true);
    assert_eq!(b.get(1, 3), false);
    assert_eq!(b.get(2, 0), true);
    assert_eq!(b.get(2, 1), true);
    assert_eq!(b.get(2, 2), false);
    assert_eq!(b.get(2, 3), true);
}

#[test]
fn scenario_three_by_four() {
    let b = grid(&[0b100, 0b001, 0b110, 0b010]);
    assert_eq!(b.get(0, 0), true);
    assert_eq!(b.get(1, 0), false);
    assert_eq!(b.get(2, 0), false);
    assert_eq!(b.render(), "100\n001\n110\n010");
    assert_eq!(b.data(), 0b100_001_110_010u64 << 52);
}

#[test]
fn shl_mixed_rows() {
    let b = grid(&[0b001, 0b111, 0b010, 0b001]);
    assert_eq!(grid(&[0b001, 0b111, 0b010, 0b001]), b.shl(0));
    assert_eq!(grid(&[0b010, 0b110, 0b100, 0b010]), b.shl(1));
    assert_eq!(grid(&[0b100, 0b100, 0b000, 0b100]), b.shl(2));
    assert_eq!(grid(&[0b000, 0b000, 0b000, 0b000]), b.shl(3));
    assert_eq!(grid(&[0b000, 0b000, 0b000, 0b000]), b.shl(4));
}

#[test]
fn shl_full_rows() {
    let b = grid(&[0b111, 0b111, 0b111, 0b111]);
    assert_eq!(grid(&[0b111, 0b111, 0b111, 0b111]), b.shl(0));
    assert_eq!(grid(&[0b110, 0b110, 0b110, 0b110]), b.shl(1));
    assert_eq!(grid(&[0b100, 0b100, 0b100, 0b100]), b.shl(2));
    assert_eq!(grid(&[0b000, 0b000, 0b000, 0b000]), b.shl(3));
    assert_eq!(grid(&[0b000, 0b000, 0b000, 0b000]), b.shl(4));
}

#[test]
fn shl_checkered() {
    let b = grid(&[0b101, 0b010, 0b101, 0b010]);
    assert_eq!(grid(&[0b101, 0b010, 0b101, 0b010]), b.shl(0));
    assert_eq!(grid(&[0b010, 0b100, 0b010, 0b100]), b.shl(1));
    assert_eq!(grid(&[0b100, 0b000, 0b100, 0b000]), b.shl(2));
    assert_eq!(grid(&[0b000, 0b000, 0b000, 0b000]), b.shl(3));

    let b = grid(&[0b010, 0b101, 0b010, 0b101]);
    assert_eq!(grid(&[0b100, 0b010, 0b100, 0b010]), b.shl(1));
    assert_eq!(grid(&[0b000, 0b100, 0b000, 0b100]), b.shl(2));
    assert_eq!(grid(&[0b000, 0b000, 0b000, 0b000]), b.shl(4));
}

#[test]
fn shr_mixed_rows() {
    let b = grid(&[0b001, 0b111, 0b010, 0b001]);
    assert_eq!(grid(&[0b001, 0b111, 0b010, 0b001]), b.shr(0));
    assert_eq!(grid(&[0b000, 0b011, 0b001, 0b000]), b.shr(1));
    assert_eq!(grid(&[0b000, 0b001, 0b000, 0b000]), b.shr(2));
    assert_eq!(grid(&[0b000, 0b000, 0b000, 0b000]), b.shr(3));
    assert_eq!(grid(&[0b000, 0b000, 0b000, 0b000]), b.shr(4));
}

#[test]
fn shr_full_rows() {
    let b = grid(&[0b111, 0b111, 0b111, 0b111]);
    assert_eq!(grid(&[0b011, 0b011, 0b011, 0b011]), b.shr(1));
    assert_eq!(grid(&[0b001, 0b001, 0b001, 0b001]), b.shr(2));
    assert_eq!(grid(&[0b000, 0b000, 0b000, 0b000]), b.shr(3));
}

#[test]
fn shr_checkered() {
    let b = grid(&[0b101, 0b010, 0b101, 0b010]);
    assert_eq!(grid(&[0b010, 0b001, 0b010, 0b001]), b.shr(1));
    assert_eq!(grid(&[0b001, 0b000, 0b001, 0b000]), b.shr(2));

    let b = grid(&[0b010, 0b101, 0b010, 0b101]);
    assert_eq!(grid(&[0b001, 0b010, 0b001, 0b010]), b.shr(1));
    assert_eq!(grid(&[0b000, 0b001, 0b000, 0b001]), b.shr(2));
    assert_eq!(grid(&[0b000, 0b000, 0b000, 0b000]), b.shr(3));
}

#[test]
fn shift_clears_unused_bits() {
    let b = Bitarea::from_bits(WIDTH, HEIGHT, u64::MAX);
    let unused_mask = (1u64 << 52) - 1;
    assert_eq!(b.shl(1).data() & unused_mask, 0);
    assert_eq!(b.shr(1).data() & unused_mask, 0);
    assert_eq!(b.shl(0).data() & unused_mask, 0);
    assert_eq!(b.shl(1), grid(&[0b110, 0b110, 0b110, 0b110]));
    assert_eq!(b.shr(2), grid(&[0b001, 0b001, 0b001, 0b001]));
}

#[test]
fn shift_keeps_rows_apart() {
    let b = grid(&[0b001, 0b000, 0b100, 0b000]);
    assert_eq!(b.shr(1), grid(&[0b000, 0b000, 0b010, 0b000]));
    assert_eq!(b.shl(1), grid(&[0b010, 0b000, 0b000, 0b000]));
}

#[test]
fn shift_by_zero_is_identity() {
    let b = Bitarea::from_bits(5, 7, 0x0123_4567_89ab_cdef);
    assert_eq!(b.shl(0), b);
    assert_eq!(b.shr(0), b);
}

#[test]
fn shift_past_width_is_blank() {
    let b = Bitarea::from_bits(8, 8, u64::MAX);
    assert_eq!(b.shl(8), Bitarea::new(8, 8));
    assert_eq!(b.shr(8), Bitarea::new(8, 8));
    assert_eq!(b.shl(200).data(), 0);
    assert_eq!(b.shr(u32::MAX).data(), 0);
}

#[test]
fn equality_ignores_unused_bits() {
    let a = Bitarea::from_bits(WIDTH, HEIGHT, 0xfff0_0000_0000_0000);
    let b = Bitarea::from_bits(WIDTH, HEIGHT, 0xfff0_0000_0000_1234);
    assert_eq!(a, b);
    let c = Bitarea::from_bits(WIDTH, HEIGHT, 0xffe0_0000_0000_0000);
    assert_ne!(a, c);
}

#[test]
fn equality_needs_same_shape() {
    assert_ne!(Bitarea::new(3, 4), Bitarea::new(4, 3));
    assert_ne!(Bitarea::new(3, 4), Bitarea::new(3, 5));
    assert_eq!(Bitarea::new(3, 4), Bitarea::new(3, 4));
}

#[test]
fn from_rows_round_trip() {
    let rows = [0b1011_0001u64, 0b0110_1110, 0b1111_0000];
    let b = Bitarea::from_rows(8, 3, &rows);
    for row in 0..3u32 {
        for col in 0..8u32 {
            let expected = (rows[row as usize] >> (7 - col)) & 1 == 1;
            assert_eq!(b.get(col, row), expected);
        }
    }
    assert_eq!(b.data() & ((1u64 << 40) - 1), 0);
}

#[test]
fn from_rows_ignores_high_bits() {
    let a = grid(&[0b1111_0101, 0b1000, 0b11, 0]);
    assert_eq!(a, grid(&[0b101, 0b000, 0b011, 0b000]));
    assert_eq!(a.render(), "101\n000\n011\n000");
}

#[test]
fn full_word_shapes() {
    let wide = Bitarea::from_rows(64, 1, &[0x8000_0000_0000_0001]);
    assert_eq!(wide.get(0, 0), true);
    assert_eq!(wide.get(63, 0), true);
    assert_eq!(wide.get(1, 0), false);
    assert_eq!(wide.shl(1).get(62, 0), true);
    assert_eq!(wide.shl(1).get(63, 0), false);
    assert_eq!(wide.shr(63).get(63, 0), true);
    assert_eq!(wide.shr(63).get(0, 0), false);
    assert_eq!(wide.shr(64), Bitarea::new(64, 1));

    let tall = Bitarea::from_rows(1, 64, &[1u64; 64]);
    assert_eq!(tall.data(), u64::MAX);
    assert_eq!(tall.shl(0), tall);
    assert_eq!(tall.shl(1).data(), 0);

    let mut square = Bitarea::new(8, 8);
    square.set(7, 7, true);
    assert_eq!(square.data(), 1);
    square.set(0, 0, true);
    assert_eq!(square.data(), (1u64 << 63) | 1);
    assert_eq!(square.shr(1).data(), 1u64 << 62);
}

#[test]
fn render_single_cell() {
    let mut b = Bitarea::new(1, 1);
    assert_eq!(b.render(), "0");
    b.set(0, 0, true);
    assert_eq!(b.render(), "1");
    assert_eq!(Bitarea::new(2, 2).render(), "00\n00");
}

#[test]
fn render_hides_unused_bits() {
    let b = Bitarea::from_bits(2, 2, 0x9fff_ffff_ffff_ffff);
    assert_eq!(b.render(), "10\n01");
}

#[test]
fn getters_give_shape() {
    let b = Bitarea::from_bits(6, 10, 42);
    assert_eq!(b.width(), 6);
    assert_eq!(b.height(), 10);
    assert_eq!(b.data(), 42);
}

#[test]
fn random_grid_keeps_shape() {
    let b = Bitarea::rand(WIDTH, HEIGHT);
    assert_eq!(b.width(), WIDTH);
    assert_eq!(b.height(), HEIGHT);
    let c = Bitarea::rand(8, 8);
    assert_eq!(c.width(), 8);
    assert_eq!(c.height(), 8);
}

#[test]
fn shape_draws_are_clamped_and_checked() {
    assert_eq!(shape_from_draws(3, 4), Some((3, 4)));
    assert_eq!(shape_from_draws(8, 8), Some((8, 8)));
    assert_eq!(shape_from_draws(9, 8), None);
    assert_eq!(shape_from_draws(500, 1), Some((64, 1)));
    assert_eq!(shape_from_draws(1, u64::MAX), Some((1, 64)));
    assert_eq!(shape_from_draws(0, 5), None);
    assert_eq!(shape_from_draws(5, 0), None);
    assert_eq!(shape_from_draws(65, 2), None);
}
