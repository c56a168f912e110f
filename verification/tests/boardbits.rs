use lib::BoardBits;
use lib::{ENTIRE_HEIGHT, ENTIRE_WIDTH, HEIGHT, WIDTH};

#[test]
fn constructors() {
    let zero = BoardBits::zero();
    let wall = BoardBits::wall();
    let mask_12 = BoardBits::board_mask_12();
    let mask_13 = BoardBits::board_mask_13();
    let full_mask = BoardBits::full_mask();

    for x in 0..ENTIRE_WIDTH {
        for y in 0..ENTIRE_HEIGHT {
            assert!(
                zero.get(x, y) == 0,
                "zero is incorrect at (x: {}, y: {})",
                x,
                y
            );
            assert_eq!(
                wall.get(x, y) == 1,
                x == 0 || x == ENTIRE_WIDTH - 1 || y == 0 || y == ENTIRE_HEIGHT - 1,
                "wall is incorrect at (x: {}, y: {})",
                x,
                y
            );
            assert_eq!(
                mask_12.get(x, y) == 1,
                1 <= x && x <= WIDTH && 1 <= y && y <= HEIGHT,
                "mask_12 is incorrect at (x: {}, y: {})",
                x,
                y
            );
            assert_eq!(
                mask_13.get(x, y) == 1,
                1 <= x && x <= WIDTH && 1 <= y && y <= HEIGHT + 1,
                "mask_13 is incorrect at (x: {}, y: {})",
                x,
                y
            );
            assert!(
                full_mask.get(x, y) == 1,
                "full_mask is incorrect at (x: {}, y: {})",
                x,
                y
            );
        }
    }
}

#[test]
fn from_str() {
    let bb = BoardBits::from(
        "11..1.\
         .1...1",
    );

    assert_eq!(bb.get(1, 1), 0);
    assert_eq!(bb.get(2, 1), 1);
    assert_eq!(bb.get(3, 1), 0);
    assert_eq!(bb.get(4, 1), 0);
    assert_eq!(bb.get(5, 1), 0);
    assert_eq!(bb.get(6, 1), 1);
    assert_eq!(bb.get(1, 2), 1);
    assert_eq!(bb.get(2, 2), 1);
    assert_eq!(bb.get(3, 2), 0);
    assert_eq!(bb.get(4, 2), 0);
    assert_eq!(bb.get(5, 2), 1);
    assert_eq!(bb.get(6, 2), 0);
}

#[test]
fn onebit() {
    assert_eq!(
        BoardBits::onebit(3, 2),
        BoardBits::from(
            "..1...\
             ......"
        ),
    )
}

#[test]
fn bit_ops() {
    let lhs = BoardBits::from("0011..");
    let rhs = BoardBits::from("0101..");

    assert_eq!(lhs & rhs, BoardBits::from("0001.."));
    assert_eq!(lhs | rhs, BoardBits::from("0111.."));
    assert_eq!(lhs ^ rhs, BoardBits::from("0110.."));
    assert_eq!(lhs.andnot(rhs), BoardBits::from("0100.."))
}

#[test]
fn popcount() {
    assert_eq!(BoardBits::zero().popcount(), 0);
    assert_eq!(BoardBits::onebit(2, 3).popcount(), 1);
    assert_eq!(
        BoardBits::from(
            "11.1.1\
             .11.1."
        )
        .popcount(),
        7,
    );
}

#[test]
fn lsb() {
    // low
    assert_eq!(
        BoardBits::from(
            "11.1.1\
             .11.1."
        )
        .lsb(),
        BoardBits::from(
            "1.....\
             ......"
        )
    );
    // high
    assert_eq!(
        BoardBits::from(
            "...1.1\
             ....1."
        )
        .lsb(),
        BoardBits::from(
            "...1..\
             ......"
        )
    );
}

#[test]
fn lsb_u16x8() {
    let bb = BoardBits::from_u16x8([
        0x0000, 0x0001, 0x000A, 0x1234, 0xDEAD, 0xE800, 0xF050, 0xFFFF,
    ]);
    let expected = BoardBits::from_u16x8([
        0x0000, 0x0001, 0x0002, 0x0004, 0x0001, 0x0800, 0x0010, 0x0001,
    ]);

    assert_eq!(bb.lsb_u16x8(), expected);
}

#[test]
fn max_u16x8() {
    let bb1 = BoardBits::from_u16x8([
        0x0000, 0x0000, 0x0000, 0x0000, 0x0000, 0x0000, 0x0000, 0x0000,
    ]);
    let bb2 = BoardBits::from_u16x8([
        0xFFFF, 0xFFFF, 0xFFFF, 0xFFFF, 0xFFFF, 0xFFFF, 0xFFFF, 0xFFFF,
    ]);
    let bb3 = BoardBits::from_u16x8([
        0xABC7, 0xABC3, 0xABC4, 0xABC0, 0xABC6, 0xABC1, 0xABC2, 0xABC5,
    ]);
    let bb4 = BoardBits::from_u16x8([
        0xABCD, 0x0000, 0x0001, 0xFFFF, 0xDEAD, 0xBEEF, 0x000F, 0xFFFE,
    ]);

    assert_eq!(bb1.max_u16x8(), 0x0000);
    assert_eq!(bb2.max_u16x8(), 0xFFFF);
    assert_eq!(bb3.max_u16x8(), 0xABC7);
    assert_eq!(bb4.max_u16x8(), 0xFFFF);
}

#[test]
fn shift_basic() {
    let bb = BoardBits::onebit(2, 3);

    assert_eq!(bb.shift_up(), BoardBits::onebit(2, 4));
    assert_eq!(bb.shift_down(), BoardBits::onebit(2, 2));
    assert_eq!(bb.shift_left(), BoardBits::onebit(1, 3));
    assert_eq!(bb.shift_right(), BoardBits::onebit(3, 3));
}

#[test]
fn shift_corner() {
    assert!(BoardBits::onebit(3, 15).shift_up().is_zero());
    assert!(BoardBits::onebit(3, 0).shift_down().is_zero());
    assert!(BoardBits::onebit(0, 3).shift_left().is_zero());
    assert!(BoardBits::onebit(7, 3).shift_right().is_zero());
}

#[test]
fn get_set() {
    let mut bb = BoardBits::zero();
    assert_eq!(bb.get(2, 3), 0);

    bb.set_1(2, 3);
    assert_eq!(bb.get(2, 3), 1);

    bb.set_0(2, 3);
    assert_eq!(bb.get(2, 3), 0);
}

#[test]
fn is_zero() {
    assert!(BoardBits::zero().is_zero());
    assert!(!BoardBits::onebit(2, 3).is_zero());
}
