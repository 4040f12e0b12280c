use sorter::chunk::Chunks;
use sorter::merge::merge_and_write;
use sorter::sort::{sort, sort_and_write};
use sorter::source::{ByteCursor, ByteSource};
use sorter::tempfile::{TmpDirBuilder, TmpFileClosed, TmpFileOpened, TmpFileRead, TmpFileReader};
use sorter::Configuration;

fn read_all(reader: &mut TmpFileReader) -> Vec<u8> {
    let mut bytes = Vec::new();
    loop {
        let part = reader.read_upto(64);
        if part.is_empty() {
            break;
        }
        bytes.extend_from_slice(&part);
    }
    bytes
}

#[test]
fn sort_stage_produces_sorted_runs() {
    let config = Configuration { threads: 1, buffer_size: 16, chunk_size: 2, ..Configuration::default() };
    let input = b"pear\nplum\nfig\nlime\n".to_vec();
    let mut chunks = Chunks::new(ByteCursor::new(input), 16, config);
    let mut tmp_dir = TmpDirBuilder::new().build();

    let files = sort(&mut chunks, &mut tmp_dir, &config).unwrap();
    assert!(files.len() >= 2);

    let mut all_lines: Vec<Vec<u8>> = Vec::new();
    for file in files {
        let mut reader = file.reopen();
        let run = read_all(&mut reader);
        let lines: Vec<Vec<u8>> = run.split(|&b| b == b'\n').filter(|l| !l.is_empty()).map(|l| l.to_vec()).collect();
        let mut sorted = lines.clone();
        sorted.sort();
        assert_eq!(lines, sorted);
        all_lines.extend(lines);
        reader.close_and_remove();
    }
    all_lines.sort();
    assert_eq!(all_lines, vec![b"fig".to_vec(), b"lime".to_vec(), b"pear".to_vec(), b"plum".to_vec()]);
}

#[test]
fn sort_and_write_renders_sorted_lines() {
    let config = Configuration { threads: 1, buffer_size: 64, chunk_size: 2, ..Configuration::default() };
    let mut chunks = Chunks::new(ByteCursor::new(b"b\na\nc\n".to_vec()), 64, config);
    let chunk = chunks.next().unwrap().unwrap();
    let mut tmp_dir = TmpDirBuilder::new().build();
    let mut file = tmp_dir.create_new_file();
    sort_and_write(chunk, &mut file);
    let closed = file.close();
    let mut reader = closed.reopen();
    let bytes = read_all(&mut reader);
    assert_eq!(bytes, b"a\nb\nc\n".to_vec());
}

#[test]
fn merge_and_write_interleaves_runs() {
    let config = Configuration { threads: 1, buffer_size: 64, chunk_size: 4, ..Configuration::default() };
    let mut tmp_dir = TmpDirBuilder::new().build();

    let mut closed_runs = Vec::new();
    for run in [b"a\nd\n".to_vec(), b"b\nc\n".to_vec()] {
        let mut chunks = Chunks::new(ByteCursor::new(run), 64, config);
        let chunk = chunks.next().unwrap().unwrap();
        let mut file = tmp_dir.create_new_file();
        sort_and_write(chunk, &mut file);
        closed_runs.push(file.close());
    }

    let mut output = Vec::new();
    merge_and_write(closed_runs, &mut output, &config).unwrap();
    assert_eq!(output, b"a\nb\nc\nd\n".to_vec());
}

#[test]
fn merge_and_write_excludes_empty_run() {
    let config = Configuration { threads: 1, buffer_size: 64, chunk_size: 4, ..Configuration::default() };
    let mut tmp_dir = TmpDirBuilder::new().build();

    let empty_run = tmp_dir.create_new_file().close();
    let mut chunks = Chunks::new(ByteCursor::new(b"b\na\n".to_vec()), 64, config);
    let chunk = chunks.next().unwrap().unwrap();
    let mut file = tmp_dir.create_new_file();
    sort_and_write(chunk, &mut file);
    let full_run = file.close();

    let mut output = Vec::new();
    merge_and_write(vec![empty_run, full_run], &mut output, &config).unwrap();
    assert_eq!(output, b"a\nb\n".to_vec());
}

#[test]
fn merge_and_write_of_only_empty_runs_is_empty() {
    let config = Configuration { threads: 1, buffer_size: 64, chunk_size: 4, ..Configuration::default() };
    let mut tmp_dir = TmpDirBuilder::new().build();
    let a = tmp_dir.create_new_file().close();
    let b = tmp_dir.create_new_file().close();

    let mut output = Vec::new();
    merge_and_write(vec![a, b], &mut output, &config).unwrap();
    assert_eq!(output, Vec::<u8>::new());
}
