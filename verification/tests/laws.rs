use lib::BoardBits;

fn low_ones(c: u32) -> u64 {
    if c >= 64 {
        u64::MAX
    } else {
        (1u64 << c) - 1
    }
}

#[test]
fn pext_examples() {
    assert_eq!(BoardBits::pext_u64(0b1011_0110, 0b1111_0000), 0b1011);
    assert_eq!(BoardBits::pext_u64(0b1011_0110, 0b0101_0101), 0b0110);
    assert_eq!(BoardBits::pext_u64(0xDEAD_BEEF, 0), 0);
    assert_eq!(BoardBits::pext_u64(0xDEAD_BEEF_1234_5678, u64::MAX), 0xDEAD_BEEF_1234_5678);
    assert_eq!(BoardBits::pext_u64(u64::MAX, 0x8000_0000_0000_0001), 0b11);
}

#[test]
fn pdep_examples() {
    assert_eq!(BoardBits::pdep_u64(0b101, 0b1101_0000), 0b1001_0000);
    assert_eq!(BoardBits::pdep_u64(0b1011, 0b1111_0000), 0b1011_0000);
    assert_eq!(BoardBits::pdep_u64(0xDEAD_BEEF, 0), 0);
    assert_eq!(BoardBits::pdep_u64(0xDEAD_BEEF_1234_5678, u64::MAX), 0xDEAD_BEEF_1234_5678);
    assert_eq!(BoardBits::pdep_u64(0b11, 0x8000_0000_0000_0001), 0x8000_0000_0000_0001);
}

#[test]
fn pdep_of_pext_keeps_masked_bits() {
    let cases = [
        (0x0123_4567_89AB_CDEFu64, 0xF0F0_0F0F_FF00_00FFu64),
        (u64::MAX, 0x5555_5555_5555_5555),
        (0xDEAD_BEEF, 0),
        (0, u64::MAX),
    ];
    for (a, m) in cases {
        assert_eq!(BoardBits::pdep_u64(BoardBits::pext_u64(a, m), m), a & m);
    }
}

#[test]
fn pext_of_pdep_keeps_low_bits() {
    let cases = [
        (0x0123_4567_89AB_CDEFu64, 0xF0F0_0F0F_FF00_00FFu64),
        (u64::MAX, 0x5555_5555_5555_5555),
        (0xDEAD_BEEF, 0),
        (0x0123_4567_89AB_CDEF, u64::MAX),
    ];
    for (a, m) in cases {
        let c = m.count_ones();
        assert_eq!(BoardBits::pext_u64(BoardBits::pdep_u64(a, m), m), a & low_ones(c));
    }
}

#[test]
fn popcount_u16x8_counts_each_column() {
    let bb = BoardBits::from_u16x8([0, 1, 3, 0xFFFF, 0x8000, 0x1234, 7, 0xF0F0]);
    let expected = BoardBits::from_u16x8([0, 1, 2, 16, 1, 5, 3, 8]);
    assert_eq!(BoardBits::popcount_u16x8(bb), expected);
}

#[test]
fn before_pop_mask_is_the_complement() {
    let popped = BoardBits::onebit(2, 3);
    assert_eq!(
        BoardBits::before_pop_mask(popped),
        (0xFFFF_FFF7_FFFF_FFFF, 0xFFFF_FFFF_FFFF_FFFF)
    );
    assert_eq!(
        BoardBits::before_pop_mask(BoardBits::zero()),
        (u64::MAX, u64::MAX)
    );
}

#[test]
fn after_pop_mask_keeps_low_rows() {
    let popped = BoardBits::from_u16x8([0, 1, 3, 0xFFFF, 0x8000, 0x1234, 7, 0xF0F0]);
    let expected = BoardBits::from_u16x8([
        0xFFFF, 0x7FFF, 0x3FFF, 0x0000, 0x7FFF, 0x07FF, 0x1FFF, 0x00FF,
    ]);
    let (lo, hi) = BoardBits::after_pop_mask(popped);
    assert_eq!(BoardBits::from((lo, hi)), expected);
}

#[test]
fn pop_masks_agree_on_counts() {
    let popped = BoardBits::from_u16x8([0, 1, 3, 0xFFFF, 0x8000, 0x1234, 7, 0xF0F0]);
    let before = BoardBits::from(BoardBits::before_pop_mask(popped)).to_u16x8();
    let after = BoardBits::from(BoardBits::after_pop_mask(popped)).to_u16x8();
    let popped = popped.to_u16x8();
    for i in 0..8 {
        assert_eq!(before[i].count_ones(), 16 - popped[i].count_ones());
        assert_eq!(after[i].count_ones(), 16 - popped[i].count_ones());
    }
}

#[test]
fn words_round_trip() {
    let bb = BoardBits::from((0x0123_4567_89AB_CDEF, 0xFEDC_BA98_7654_3210));
    let words: (u64, u64) = bb.into();
    assert_eq!(words, (0x0123_4567_89AB_CDEF, 0xFEDC_BA98_7654_3210));
    assert_eq!(bb.lo, 0x0123_4567_89AB_CDEF);
    assert_eq!(bb.hi, 0xFEDC_BA98_7654_3210);
    let back: (u64, u64) = BoardBits::onebit(5, 7).into();
    assert_eq!(BoardBits::from(back), BoardBits::onebit(5, 7));
}

#[test]
fn lanes_round_trip() {
    let lanes = [0x0001, 0x8000, 0x1234, 0xABCD, 0, 0xFFFF, 0x00F0, 0x0F00];
    let bb = BoardBits::from_u16x8(lanes);
    assert_eq!(bb.to_u16x8(), lanes);
    assert_eq!(bb.lo, 0xABCD_1234_8000_0001);
    assert_eq!(bb.hi, 0x0F00_00F0_FFFF_0000);
}

#[test]
fn onebit_words() {
    assert_eq!(BoardBits::onebit(0, 0), BoardBits::from((1, 0)));
    assert_eq!(BoardBits::onebit(3, 15), BoardBits::from((1 << 63, 0)));
    assert_eq!(BoardBits::onebit(4, 0), BoardBits::from((0, 1)));
    assert_eq!(BoardBits::onebit(7, 15), BoardBits::from((0, 1 << 63)));
    assert_eq!(BoardBits::onebit(5, 2), BoardBits::from((0, 1 << 18)));
}

#[test]
fn within_bound_edges() {
    assert!(BoardBits::within_bound(0, 0));
    assert!(BoardBits::within_bound(7, 15));
    assert!(!BoardBits::within_bound(8, 0));
    assert!(!BoardBits::within_bound(0, 16));
}

#[test]
fn set_touches_one_cell() {
    let mut bb = BoardBits::wall();
    bb.set_0(0, 5);
    assert_eq!(bb.get(0, 5), 0);
    assert_eq!(bb.get(0, 4), 1);
    assert_eq!(bb.get(0, 6), 1);
    bb.set_1(3, 4);
    assert_eq!(bb.get(3, 4), 1);
    assert_eq!(bb.popcount(), BoardBits::wall().popcount());
    let mut twice = BoardBits::zero();
    twice.set_1(6, 12);
    twice.set_1(6, 12);
    assert_eq!(twice, BoardBits::onebit(6, 12));
}

#[test]
fn lsb_is_a_single_cell_of_the_board() {
    let boards = [
        BoardBits::wall(),
        BoardBits::board_mask_12(),
        BoardBits::onebit(7, 15),
        BoardBits::from_u16x8([0, 0, 0, 0, 0, 0, 0x0100, 0x0001]),
        BoardBits::from_u16x8([0, 0, 0, 0x8000, 0, 0, 0, 1]),
    ];
    for bb in boards {
        let low = bb.lsb();
        assert_eq!(low.popcount(), 1);
        assert_eq!(low & bb, low);
    }
    assert_eq!(
        BoardBits::from_u16x8([0, 0, 0, 0, 0, 0, 0x0100, 0x0001]).lsb(),
        BoardBits::onebit(6, 8)
    );
    assert_eq!(
        BoardBits::from_u16x8([0, 0, 0, 0x8000, 0, 0, 0, 1]).lsb(),
        BoardBits::onebit(3, 15)
    );
}

#[test]
fn lsb_u16x8_edges() {
    let bb = BoardBits::from_u16x8([0x8000, 0xFFFE, 0x0003, 0, 0x4000, 0x0100, 0x7FFF, 0xC000]);
    let expected = BoardBits::from_u16x8([0x8000, 0x0002, 0x0001, 0, 0x4000, 0x0100, 0x0001, 0x4000]);
    assert_eq!(bb.lsb_u16x8(), expected);
}

#[test]
fn masks_hold_the_field() {
    assert_eq!(BoardBits::board_mask_12().popcount(), 6 * 12);
    assert_eq!(BoardBits::board_mask_13().popcount(), 6 * 13);
    assert_eq!(BoardBits::full_mask().popcount(), 128);
    assert_eq!(BoardBits::wall().popcount(), 2 * 16 + 6 * 2);
    assert!((BoardBits::wall() & BoardBits::board_mask_13()).is_zero());
}

#[test]
fn equality_is_by_cells() {
    assert_eq!(BoardBits::zero(), BoardBits::from((0, 0)));
    assert_ne!(BoardBits::onebit(1, 1), BoardBits::onebit(1, 2));
    assert_ne!(BoardBits::onebit(3, 0), BoardBits::onebit(4, 0));
    assert_eq!(BoardBits::wall() ^ BoardBits::wall(), BoardBits::zero());
}

#[test]
fn shifts_move_whole_board() {
    let bb = BoardBits::board_mask_12();
    assert_eq!(bb.shift_up().shift_down(), bb);
    assert_eq!(bb.shift_left().shift_right(), bb);
    assert_eq!(
        BoardBits::full_mask().shift_up(),
        BoardBits::from_u16x8([0xFFFE; 8])
    );
    assert_eq!(
        BoardBits::full_mask().shift_left(),
        BoardBits::from_u16x8([0xFFFF, 0xFFFF, 0xFFFF, 0xFFFF, 0xFFFF, 0xFFFF, 0xFFFF, 0])
    );
    assert_eq!(
        BoardBits::full_mask().shift_right(),
        BoardBits::from_u16x8([0, 0xFFFF, 0xFFFF, 0xFFFF, 0xFFFF, 0xFFFF, 0xFFFF, 0xFFFF])
    );
    assert_eq!(
        BoardBits::full_mask().shift_down(),
        BoardBits::from_u16x8([0x7FFF; 8])
    );
}

#[test]
fn text_rows_from_the_bottom() {
    let bb = BoardBits::from(
        "1.....\
         .1....\
         ..1...",
    );
    assert_eq!(bb.popcount(), 3);
    assert_eq!(bb.get(3, 1), 1);
    assert_eq!(bb.get(2, 2), 1);
    assert_eq!(bb.get(1, 3), 1);
    assert!(BoardBits::from("").is_zero());
    assert_eq!(BoardBits::from("......"), BoardBits::zero());
}

#[test]
fn text_of_twelve_rows_fills_the_field() {
    let row = "111111";
    let mut text = String::new();
    for _ in 0..12 {
        text.push_str(row);
    }
    let text: &'static str = Box::leak(text.into_boxed_str());
    assert_eq!(BoardBits::from(text), BoardBits::board_mask_12());
}

#[test]
fn max_u16x8_single_column() {
    let mut bb = BoardBits::zero();
    bb.set_1(5, 9);
    assert_eq!(bb.max_u16x8(), 1 << 9);
}

#[test]
fn pop_masks_drop_cells() {
    let bb = BoardBits::from_u16x8([0, 0b1011, 0, 0x00F0, 0x8001, 0, 0, 0xFFFF]);
    let popped = BoardBits::from_u16x8([0, 0b0010, 0, 0x0060, 0x0001, 0, 0, 0x00FF]);
    let (before_lo, before_hi) = BoardBits::before_pop_mask(popped);
    let (after_lo, after_hi) = BoardBits::after_pop_mask(popped);
    let lo = BoardBits::pdep_u64(BoardBits::pext_u64(bb.lo, before_lo), after_lo);
    let hi = BoardBits::pdep_u64(BoardBits::pext_u64(bb.hi, before_hi), after_hi);
    assert_eq!(
        BoardBits::from((lo, hi)),
        BoardBits::from_u16x8([0, 0b101, 0, 0x30, 0x4000, 0, 0, 0xFF])
    );
}
