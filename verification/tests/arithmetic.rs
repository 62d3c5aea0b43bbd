use bfc::backend::interpreter::multiply_add;
use bfc::utils::offset_u8;
use bfc::utils::offset_usize;

#[test]
fn offset_u8_adds_and_wraps() {
    assert_eq!(offset_u8(10, 5), 15);
    assert_eq!(offset_u8(10, -5), 5);
    assert_eq!(offset_u8(250, 10), 4);
    assert_eq!(offset_u8(3, -5), 254);
    assert_eq!(offset_u8(0, -128), 128);
    assert_eq!(offset_u8(255, 127), 126);
    assert_eq!(offset_u8(7, 0), 7);
}

#[test]
fn offset_usize_adds_and_wraps() {
    assert_eq!(offset_usize(10, 5), 15);
    assert_eq!(offset_usize(10, -5), 5);
    assert_eq!(offset_usize(0, -1), usize::MAX);
    assert_eq!(offset_usize(usize::MAX, 1), 0);
    assert_eq!(offset_usize(5, isize::MIN), 5 + (1usize << (usize::BITS - 1)));
    assert_eq!(offset_usize(usize::MAX, isize::MAX), (usize::MAX >> 1) - 1);
}

#[test]
fn multiply_add_is_modulo_256() {
    assert_eq!(multiply_add(1, 2, 3), 7);
    assert_eq!(multiply_add(0, 255, -128), 128);
    assert_eq!(multiply_add(255, 255, 127), 128);
    assert_eq!(multiply_add(10, 3, -4), 254);
    assert_eq!(multiply_add(0, 0, 0), 0);
    assert_eq!(multiply_add(200, 100, 1), 44);
}
