use std::rc::Rc;

use sorter::line::Line;
use sorter::lines::Lines;
use sorter::source::ByteCursor;
use sorter::Configuration;

fn construct_rc_buffer(content: &str) -> Rc<Vec<u8>> {
    Rc::new(content.as_bytes().to_vec())
}

#[test]
fn test_new_one_chunk() {
    let input_vec = "AAACLNNYAA\nAAAAAALTER\nKYYLMMAAFG\n".as_bytes().to_vec();
    let reader = ByteCursor::new(input_vec);

    let mut lines = Lines::new(reader, 100, Configuration::default());

    let buffer = construct_rc_buffer("AAACLNNYAA\nAAAAAALTER\nKYYLMMAAFG\n");

    assert_eq!(lines.next().unwrap(), Some(Line::new(buffer.clone(), 0, 9)));
    assert_eq!(lines.next().unwrap(), Some(Line::new(buffer.clone(), 11, 20)));
    assert_eq!(lines.next().unwrap(), Some(Line::new(buffer.clone(), 22, 31)));
    assert_eq!(lines.next().unwrap(), None);
}

#[test]
fn test_new_multiple_chunks() {
    let input_vec = "AAACLNNYAA\nAAAAAALTER\nKYYLMMAAFG\n".as_bytes().to_vec();
    let reader = ByteCursor::new(input_vec);

    let mut lines = Lines::new(reader, 15, Configuration::default());

    let buffer = construct_rc_buffer("AAACLNNYAA\nAAAAAALTER\nKYYLMMAAFG\n");

    assert_eq!(lines.next().unwrap(), Some(Line::new(buffer.clone(), 0, 9)));
    assert_eq!(lines.next().unwrap(), Some(Line::new(buffer.clone(), 11, 20)));
    assert_eq!(lines.next().unwrap(), Some(Line::new(buffer.clone(), 22, 31)));
    assert_eq!(lines.next().unwrap(), None);
}

#[test]
fn test_line_too_large() {
    let input_vec = "AAACLNNYAABBBCCCDDD".as_bytes().to_vec();
    let reader = ByteCursor::new(input_vec);

    let mut lines = Lines::new(reader, 8, Configuration::default());

    assert!(matches!(
        lines.next(),
        Err(sorter::error::SortError::LineTooLarge { buffer_size: 8 })
    ));
}

#[test]
fn test_unterminated_final_line() {
    let input_vec = "b\na".as_bytes().to_vec();
    let reader = ByteCursor::new(input_vec);

    let mut lines = Lines::new(reader, 64, Configuration::default());

    assert_eq!(lines.next().unwrap().unwrap().as_bytes(), "b".as_bytes());
    assert_eq!(lines.next().unwrap().unwrap().as_bytes(), "a".as_bytes());
    assert_eq!(lines.next().unwrap(), None);
}

#[test]
fn test_field_keys() {
    let input_vec = "1,zebra\n2,apple\n".as_bytes().to_vec();
    let reader = ByteCursor::new(input_vec);
    let config = Configuration { delimiter: b',', field: 1, ..Configuration::default() };

    let mut lines = Lines::new(reader, 64, config);

    let first = lines.next().unwrap().unwrap();
    assert_eq!(first.as_bytes(), "1,zebra".as_bytes());
    assert_eq!(first.as_sort_bytes(), "zebra".as_bytes());
    let second = lines.next().unwrap().unwrap();
    assert_eq!(second.as_sort_bytes(), "apple".as_bytes());
}
