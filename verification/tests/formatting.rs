use fantasyconsole::renderer::frame::rgb_frame;
use fantasyconsole::renderer::numfmt::{decimal_chars, push_padded};

#[test]
fn decimal_digits() {
    assert_eq!(decimal_chars(0), vec!['0']);
    assert_eq!(decimal_chars(907), vec!['9', '0', '7']);
    assert_eq!(decimal_chars(u64::MAX).len(), 20);
}

#[test]
fn zero_padded_numbers() {
    let mut s = String::from("ID:");
    push_padded(&mut s, 7, 3);
    assert_eq!(s, "ID:007");
    let mut s = String::new();
    push_padded(&mut s, -5, 3);
    assert_eq!(s, format!("{:03}", -5));
    let mut s = String::new();
    push_padded(&mut s, 1234, 3);
    assert_eq!(s, "1234");
    let mut s = String::new();
    push_padded(&mut s, 0, 0);
    assert_eq!(s, "0");
}

#[test]
fn rgb_frame_uses_low_nibble() {
    let mut colors = [[0u8; 3]; 16];
    for (i, c) in colors.iter_mut().enumerate() {
        *c = [i as u8, 100 + i as u8, 200 + i as u8];
    }
    let rgb = rgb_frame(&[0, 1, 17, 15], &colors);
    assert_eq!(rgb, vec![0, 100, 200, 1, 101, 201, 1, 101, 201, 15, 115, 215]);
    assert!(rgb_frame(&[], &colors).is_empty());
}
