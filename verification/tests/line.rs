use std::rc::Rc;

use sorter::line::Line;

fn construct_rc_buffer(content: &str) -> Rc<Vec<u8>> {
    Rc::new(content.as_bytes().to_vec())
}

#[test]
fn test_new() {
    let buffer = construct_rc_buffer("AAACLNNYAA");

    let line = Line::new(Rc::clone(&buffer), 0, 9);

    assert_eq!(line.as_bytes(), "AAACLNNYAA".as_bytes());
}

#[test]
fn test_new_with_field() {
    let buffer = construct_rc_buffer("AAACLNNYAA");

    let line = Line::new_with_field(Rc::clone(&buffer), 0, 9, (1, 8));

    assert_eq!(line.as_bytes(), "AAACLNNYAA".as_bytes());
    assert_eq!(line.as_sort_bytes(), "AACLNNYA".as_bytes());
}

#[test]
fn test_write() {
    let buffer = construct_rc_buffer("AAACLNNYAA");

    let line = Line::new(Rc::clone(&buffer), 0, 9);

    let mut output = vec![];
    line.write(&mut output);

    assert_eq!(output, "AAACLNNYAA\n".as_bytes());
}

#[test]
fn test_as_bytes() {
    let buffer = construct_rc_buffer("AAACLNNYAA");

    let line = Line::new(Rc::clone(&buffer), 0, 9);
    let line_with_field = Line::new_with_field(Rc::clone(&buffer), 0, 9, (1, 8));

    assert_eq!(line.as_bytes(), "AAACLNNYAA".as_bytes());
    assert_eq!(line_with_field.as_bytes(), "AAACLNNYAA".as_bytes());
}

#[test]
fn test_as_sort_bytes() {
    let buffer = construct_rc_buffer("AAACLNNYAA");

    let line = Line::new(Rc::clone(&buffer), 0, 9);
    let line_with_field = Line::new_with_field(Rc::clone(&buffer), 0, 9, (1, 8));

    assert_eq!(line.as_sort_bytes(), "AAACLNNYAA".as_bytes());
    assert_eq!(line_with_field.as_sort_bytes(), "AACLNNYA".as_bytes());
}

#[test]
fn test_cmp() {
    let buffer = construct_rc_buffer("AAACL\nAAA\nCAAALTER\nAAA\n");

    let line1 = Line::new(Rc::clone(&buffer), 0, 4);
    let line2 = Line::new(Rc::clone(&buffer), 6, 8);
    let line3 = Line::new(Rc::clone(&buffer), 10, 17);
    let line4 = Line::new(Rc::clone(&buffer), 19, 21);

    assert_eq!(line1 < line2, true);
    assert_eq!(line1 > line3, true);
    assert_eq!(line1 < line4, true);
    assert_eq!(line2 == line4, true);
}

#[test]
fn test_key_le() {
    let buffer = construct_rc_buffer("apple\nbanana\n");

    let apple = Line::new(Rc::clone(&buffer), 0, 4);
    let banana = Line::new(Rc::clone(&buffer), 6, 11);

    assert!(apple.key_le(&banana));
    assert!(!banana.key_le(&apple));
    assert!(apple.key_le(&apple));
}

#[test]
fn test_clone_shares_buffer() {
    let buffer = construct_rc_buffer("AAACLNNYAA");

    let line = Line::new(Rc::clone(&buffer), 0, 9);
    let copy = line.clone();

    assert_eq!(copy.as_bytes(), line.as_bytes());
    assert_eq!(copy.as_sort_bytes(), line.as_sort_bytes());
}
