use sorter::error::SortError;
use sorter::source::ByteCursor;
use sorter::{external_sort, Configuration, TmpDirBuilder};

fn small_config() -> Configuration {
    Configuration { threads: 1, buffer_size: 4096, chunk_size: 4, ..Configuration::default() }
}

fn run_sort(input: &[u8], config: Configuration) -> Result<Vec<u8>, SortError> {
    let mut tmp_dir = TmpDirBuilder::new().build();
    let mut output = Vec::new();
    external_sort(ByteCursor::new(input.to_vec()), &mut output, &mut tmp_dir, config)?;
    Ok(output)
}

#[test]
fn small_whole_line_sort() {
    let output = run_sort(b"banana\napple\ncherry\n", small_config()).unwrap();
    assert_eq!(output, b"apple\nbanana\ncherry\n".to_vec());
}

#[test]
fn missing_final_newline_normalised() {
    let output = run_sort(b"b\na", small_config()).unwrap();
    assert_eq!(output, b"a\nb\n".to_vec());
}

#[test]
fn duplicates_preserved() {
    let output = run_sort(b"x\ny\nx\n", small_config()).unwrap();
    assert_eq!(output, b"x\nx\ny\n".to_vec());
    assert_eq!(output.iter().filter(|&&b| b == b'\n').count(), 3);
}

#[test]
fn empty_input_gives_empty_output() {
    let output = run_sort(b"", small_config()).unwrap();
    assert_eq!(output, Vec::<u8>::new());
}

#[test]
fn empty_lines_sort_first() {
    let output = run_sort(b"b\n\na\n", small_config()).unwrap();
    assert_eq!(output, b"\na\nb\n".to_vec());
}

#[test]
fn field_sort() {
    let config = Configuration { delimiter: b',', field: 1, ..small_config() };
    let output = run_sort(b"1,zebra\n2,apple\n3,mango\n", config).unwrap();
    assert_eq!(output, b"2,apple\n3,mango\n1,zebra\n".to_vec());
}

#[test]
fn field_sort_missing_field_sorts_first() {
    let config = Configuration { delimiter: b',', field: 1, ..small_config() };
    let output = run_sort(b"b,beta\nplain\na,alpha\n", config).unwrap();
    // "plain" has no second field, so its key is empty and it sorts first
    assert_eq!(output, b"plain\na,alpha\nb,beta\n".to_vec());
}

fn pseudo_random_lines(count: usize, len: usize) -> Vec<Vec<u8>> {
    let mut state: u64 = 0x243f6a8885a308d3;
    let mut lines = Vec::new();
    for _ in 0..count {
        let mut line = Vec::with_capacity(len);
        for _ in 0..len {
            state = state.wrapping_mul(6364136223846793005).wrapping_add(1442695040888963407);
            let b = (state >> 33) as u8;
            line.push(b'a' + (b % 26));
        }
        lines.push(line);
    }
    lines
}

#[test]
fn spill_required() {
    let lines = pseudo_random_lines(10000, 50);
    let mut input = Vec::new();
    for line in &lines {
        input.extend_from_slice(line);
        input.push(b'\n');
    }

    let config = Configuration { threads: 1, buffer_size: 4096, chunk_size: 4, ..Configuration::default() };
    let mut tmp_dir = TmpDirBuilder::new().build();
    let mut output = Vec::new();
    external_sort(ByteCursor::new(input), &mut output, &mut tmp_dir, config).unwrap();

    // at least two runs were spilled along the way
    assert!(tmp_dir.created_files() >= 2);

    // sortedness and permutation against a reference sort
    let mut expected = lines;
    expected.sort();
    let mut expected_bytes = Vec::new();
    for line in &expected {
        expected_bytes.extend_from_slice(line);
        expected_bytes.push(b'\n');
    }
    assert_eq!(output, expected_bytes);
}

#[test]
fn cascaded_merge() {
    // tiny read buffers force one run per line: 17 initial runs with a
    // fan-in of 4 take two merge passes (17 -> 5 -> 3) before the final one
    let mut input = Vec::new();
    let mut expected: Vec<Vec<u8>> = Vec::new();
    for i in 0..17u32 {
        let line = format!("line-{:015}", (i * 7919) % 1000);
        input.extend_from_slice(line.as_bytes());
        input.push(b'\n');
        expected.push(line.into_bytes());
    }
    let config = Configuration { threads: 4, buffer_size: 128, chunk_size: 4, ..Configuration::default() };
    let mut tmp_dir = TmpDirBuilder::new().build();
    let mut output = Vec::new();
    external_sort(ByteCursor::new(input), &mut output, &mut tmp_dir, config).unwrap();

    assert_eq!(tmp_dir.created_files(), 17 + 5 + 3);

    expected.sort();
    let mut expected_bytes = Vec::new();
    for line in &expected {
        expected_bytes.extend_from_slice(line);
        expected_bytes.push(b'\n');
    }
    assert_eq!(output, expected_bytes);
}

#[test]
fn line_too_large() {
    let mut input = Vec::new();
    for _ in 0..200 {
        input.push(b'x');
    }
    input.push(b'\n');
    let config = Configuration { buffer_size: 64, threads: 4, chunk_size: 16, ..Configuration::default() };
    let mut tmp_dir = TmpDirBuilder::new().build();
    let mut output = Vec::new();
    let result = external_sort(ByteCursor::new(input), &mut output, &mut tmp_dir, config);

    assert!(matches!(result, Err(SortError::LineTooLarge { .. })));
    assert_eq!(output, Vec::<u8>::new());
    assert_eq!(tmp_dir.created_files(), 0);
}

#[test]
fn sorted_input_is_reproduced() {
    let input = b"alpha\nbeta\ngamma\n";
    let output = run_sort(input, small_config()).unwrap();
    assert_eq!(output, input.to_vec());
}

#[test]
fn budgets_agree_on_output() {
    let input: &[u8] = b"pear\nplum\nfig\nlime\nkiwi\ndate\n";
    let small = run_sort(input, Configuration { threads: 1, buffer_size: 16, chunk_size: 2, ..Configuration::default() }).unwrap();
    let large = run_sort(input, Configuration { threads: 1, buffer_size: 1048576, chunk_size: 16, ..Configuration::default() }).unwrap();
    assert_eq!(small, large);
    assert_eq!(small, b"date\nfig\nkiwi\nlime\npear\nplum\n".to_vec());
}

#[test]
fn config_invalid_rejected() {
    let result = run_sort(b"a\n", Configuration { threads: 0, ..Configuration::default() });
    assert!(matches!(result, Err(SortError::ConfigInvalid)));

    let result = run_sort(b"a\n", Configuration { chunk_size: 1, ..Configuration::default() });
    assert!(matches!(result, Err(SortError::ConfigInvalid)));
}

#[test]
fn validate_checks_bounds() {
    assert!(Configuration::default().validate().is_ok());
    assert!(Configuration { threads: 0, ..Configuration::default() }.validate().is_err());
    assert!(Configuration { buffer_size: 1048576, ..Configuration::default() }.validate().is_ok());
    assert!(Configuration { buffer_size: 1048575, ..Configuration::default() }.validate().is_err());
    assert!(Configuration { chunk_size: 1, ..Configuration::default() }.validate().is_err());
}

#[test]
fn default_configuration_values() {
    let config = Configuration::default();
    assert_eq!(config.threads, 4);
    assert_eq!(config.buffer_size, 400000000);
    assert_eq!(config.chunk_size, 16);
    assert_eq!(config.delimiter, b'\t');
    assert_eq!(config.field, 0);
}

#[test]
fn parse_delimiter_takes_first_byte() {
    assert_eq!(sorter::parse_delimiter(","), Ok(b','));
    assert_eq!(sorter::parse_delimiter("\t"), Ok(b'\t'));
    assert_eq!(sorter::parse_delimiter(";x"), Ok(b';'));
    assert!(sorter::parse_delimiter("").is_err());
}

#[test]
fn carriage_return_is_ordinary() {
    let output = run_sort(b"b\r\na\r\n", small_config()).unwrap();
    assert_eq!(output, b"a\r\nb\r\n".to_vec());
}

#[test]
fn equal_field_keys_keep_all_lines() {
    let config = Configuration { delimiter: b',', field: 1, ..small_config() };
    let output = run_sort(b"2,same\n1,same\n3,other\n", config).unwrap();
    let mut lines: Vec<&[u8]> = output.split(|&b| b == b'\n').filter(|l| !l.is_empty()).collect();
    assert_eq!(lines.len(), 3);
    lines.sort();
    assert_eq!(lines, vec![&b"1,same"[..], &b"2,same"[..], &b"3,other"[..]]);
}

#[test]
fn identical_runs_give_identical_bytes() {
    let input: &[u8] = b"q,1\nz,0\na,2\nq,1\n";
    let config = Configuration { threads: 2, buffer_size: 32, chunk_size: 2, ..Configuration::default() };
    let first = run_sort(input, config).unwrap();
    let second = run_sort(input, config).unwrap();
    assert_eq!(first, second);
    assert_eq!(first, b"a,2\nq,1\nq,1\nz,0\n".to_vec());
}
