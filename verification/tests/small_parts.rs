use rust_os::interrupts::{InterruptIndex, PIC_1_OFFSET, PIC_2_OFFSET};
use rust_os::key::{Key, XT};
use rust_os::vga_buffer::{Color, ColorCode, ScreenChar};
use rust_os::{test_runner, Testable};
use std::cell::RefCell;

#[test]
fn scancodes_of_the_number_keys() {
    let expected = [b'1', b'2', b'3', b'4', b'5', b'6', b'7', b'8', b'9', b'0'];
    for (i, character) in expected.iter().enumerate() {
        let key = Key::try_from(XT(0x02 + i as u8)).unwrap();
        assert_eq!(key.as_u8(), *character);
    }
}

#[test]
fn scancode_of_each_key() {
    assert!(matches!(Key::try_from(XT(0x02)), Ok(Key::One)));
    assert!(matches!(Key::try_from(XT(0x03)), Ok(Key::Two)));
    assert!(matches!(Key::try_from(XT(0x04)), Ok(Key::Three)));
    assert!(matches!(Key::try_from(XT(0x05)), Ok(Key::Four)));
    assert!(matches!(Key::try_from(XT(0x06)), Ok(Key::Five)));
    assert!(matches!(Key::try_from(XT(0x07)), Ok(Key::Six)));
    assert!(matches!(Key::try_from(XT(0x08)), Ok(Key::Seven)));
    assert!(matches!(Key::try_from(XT(0x09)), Ok(Key::Eight)));
    assert!(matches!(Key::try_from(XT(0x0a)), Ok(Key::Nine)));
    assert!(matches!(Key::try_from(XT(0x0b)), Ok(Key::Zero)));
}

#[test]
fn other_scancodes_are_unknown() {
    for code in (0..=0x01u8).chain(0x0c..=0xff) {
        assert_eq!(Key::try_from(XT(code)).err(), Some("Unknown character"));
    }
}

#[test]
fn interrupt_indexes_follow_the_exceptions() {
    assert_eq!(PIC_1_OFFSET, 32);
    assert_eq!(PIC_2_OFFSET, 47);
    assert_eq!(InterruptIndex::Timer.as_u8(), 32);
    assert_eq!(InterruptIndex::Keyboard.as_u8(), 33);
    assert_eq!(InterruptIndex::Timer.as_usize(), 32);
    assert_eq!(InterruptIndex::Keyboard.as_usize(), 33);
}

#[test]
fn color_numbers() {
    assert_eq!(Color::Black.as_u8(), 0);
    assert_eq!(Color::Blue.as_u8(), 1);
    assert_eq!(Color::LightGray.as_u8(), 7);
    assert_eq!(Color::DarkGray.as_u8(), 8);
    assert_eq!(Color::Yellow.as_u8(), 14);
    assert_eq!(Color::White.as_u8(), 15);
}

#[test]
fn color_code_packs_background_and_foreground() {
    assert_eq!(ColorCode::new(Color::Yellow, Color::Black), ColorCode(0x0e));
    assert_eq!(ColorCode::new(Color::Black, Color::Black), ColorCode(0x00));
    assert_eq!(ColorCode::new(Color::White, Color::Blue), ColorCode(0x1f));
    assert_eq!(ColorCode::new(Color::Green, Color::White), ColorCode(0xf2));
    assert_eq!(ColorCode::new(Color::Red, Color::LightGray).0, 0x74);
}

#[test]
fn screen_char_keeps_its_parts() {
    let code = ColorCode::new(Color::Yellow, Color::Black);
    let cell = ScreenChar::new(b'a', code);
    assert_eq!(cell.ascii_character, b'a');
    assert_eq!(cell.color_code, code);
}

#[test]
fn test_runner_runs_every_test_in_order() {
    let log = RefCell::new(Vec::new());
    let first = || log.borrow_mut().push(1);
    let second = || log.borrow_mut().push(2);
    let third = || log.borrow_mut().push(3);
    test_runner(&[&first, &second, &third]);
    assert_eq!(*log.borrow(), vec![1, 2, 3]);
    first.run();
    assert_eq!(*log.borrow(), vec![1, 2, 3, 1]);
}

#[test]
fn test_runner_of_no_tests_comes_back() {
    test_runner(&[]);
}
