use chat_agent::lines::{edit_lines, select_lines};
use chat_agent::search::{find_all, find_in_data, strip_whitespace, try_find_in_data};
use chat_agent::split_stream::SplitStream;
use chat_agent::text::{check_file_size, command_output_text, decimal_string};

#[test]
fn selected_lines() {
    let data: &[u8] = b"a\nb\n\xff\xfe\nd\ne";
    assert_eq!(select_lines(data, 1, 3), "b\nd");
    assert_eq!(select_lines(data, 0, 0), "a");
    assert_eq!(select_lines(data, 3, 1), "");
    assert_eq!(select_lines(data, 3, 100), "d\ne");
    // A negative start wraps to a huge index, as `as usize` does.
    assert_eq!(select_lines(data, -1, 100), "");
}

#[test]
fn selected_lines_drop_line_endings() {
    assert_eq!(select_lines(b"one\r\ntwo\r\n", 0, 5), "one\ntwo");
    assert_eq!(select_lines(b"x\n", 1, 1), "");
    assert_eq!(select_lines(b"", 0, 0), "");
    assert_eq!(select_lines(b"tail\r", 0, 0), "tail\r");
}

#[test]
fn edited_lines_replace_the_range_once() {
    let data: &[u8] = b"a\nb\nc\nd\ne";
    assert_eq!(edit_lines(data, 1, 2, "X"), b"a\nX\nd\ne".to_vec());
    assert_eq!(edit_lines(data, 0, 0, "X"), b"X\nb\nc\nd\ne".to_vec());
    assert_eq!(edit_lines(data, 3, 10, "X"), b"a\nb\nc\nX".to_vec());
    assert_eq!(edit_lines(data, 10, 12, "X"), data.to_vec());
    assert_eq!(edit_lines(data, 2, 1, "X"), data.to_vec());
}

#[test]
fn edits_keep_every_byte_outside_the_range() {
    assert_eq!(edit_lines(b"a\nb\nc\n", 0, 0, "Z"), b"Z\nb\nc\n".to_vec());
    assert_eq!(edit_lines(b"a\r\nb\r\nc\r\n", 1, 1, "Z"), b"a\r\nZ\r\nc\r\n".to_vec());
    assert_eq!(edit_lines(b"\xff\nb\n\xfe\n", 1, 1, "Z"), b"\xff\nZ\n\xfe\n".to_vec());
    assert_eq!(edit_lines(b"a\nb\n", 1, 5, "Z\nW"), b"a\nZ\nW\n".to_vec());
}

#[test]
fn whitespace_is_stripped() {
    assert_eq!(strip_whitespace(b" a\tb\nc\x0cd\re\x0bf "), b"abcde\x0bf".to_vec());
}

#[test]
fn all_places_are_found() {
    assert_eq!(find_all(b"abababa", b"aba"), vec![0, 2, 4]);
    assert_eq!(find_all(b"ab", b"abc"), Vec::<usize>::new());
}

#[test]
fn search_report_names_lines_and_snippet() {
    let data = b"fn main() {\n    foo(1);\n    bar();\n}\n";
    let report = find_in_data("m.rs", data, "foo( 1 );");
    assert_eq!(
        report,
        "Found an occurence on lines 1-1:\n```\nOk(\"foo(1);\\n    \")\n```"
    );
}

#[test]
fn search_report_spanning_lines() {
    let data = b"a\nfoo\n(1)\nz";
    let report = find_in_data("f", data, "foo(1)");
    assert_eq!(
        report,
        "Found an occurence on lines 1-2:\n```\nOk(\"foo\\n(1)\\n\")\n```"
    );
}

#[test]
fn search_without_result() {
    assert_eq!(
        find_in_data("notes.txt", b"abc def", "xyz"),
        "No occurences of search string in file notes.txt"
    );
}

#[test]
fn unreportable_searches() {
    assert_eq!(try_find_in_data("f", b"abc", " \n "), None);
    assert_eq!(try_find_in_data("f", b"abc", ""), None);
    assert!(try_find_in_data("f", b"abc x", "abc").is_some());
}

#[test]
fn a_match_at_the_end_of_the_file_is_reported() {
    assert_eq!(
        try_find_in_data("g.txt", b"foo(x)", "foo(x)"),
        Some("Found an occurence on lines 0-0:\n```\nOk(\"foo(x)\")\n```".to_string())
    );
    assert_eq!(
        find_in_data("f", b"xx abc\n", "abc"),
        "Found an occurence on lines 0-0:\n```\nOk(\"abc\\n\")\n```"
    );
}

#[test]
fn file_size_limit() {
    assert_eq!(check_file_size(1_000_000), Ok(()));
    assert_eq!(
        check_file_size(1_000_001),
        Err("File too big: 1000001 bytes, limit is 1000000".to_string())
    );
}

#[test]
fn decimal_notation() {
    assert_eq!(decimal_string(0), "0");
    assert_eq!(decimal_string(907), "907");
    assert_eq!(decimal_string(u64::MAX), "18446744073709551615");
}

#[test]
fn command_output() {
    assert_eq!(command_output_text(true, b"out\n", b"err"), "out\n");
    assert_eq!(command_output_text(false, b"out", b"bad"), "command failed: bad");
    assert_eq!(command_output_text(true, b"a\xffb", b""), "a\u{FFFD}b");
}

#[test]
fn stream_splits_at_separators() {
    let mut st: SplitStream<8> = SplitStream::new(b'\n');
    assert_eq!(st.free_space(), 8);
    assert_eq!(st.next(b"ab\ncd"), Some(b"ab".to_vec()));
    assert_eq!(st.free_space(), 6);
    assert_eq!(st.next(b"e"), None);
    assert_eq!(st.next(b"f\ng"), Some(b"cdef".to_vec()));
    assert_eq!(st.next(b""), Some(b"g".to_vec()));
    assert_eq!(st.next(b""), Some(Vec::new()));
}

#[test]
fn stream_keeps_every_byte() {
    let input: &[u8] = b"one\ntwo\n\nthree";
    let mut st: SplitStream<4> = SplitStream::new(b'\n');
    let mut parts: Vec<Vec<u8>> = Vec::new();
    let mut pos = 0;
    loop {
        let room = st.free_space();
        let end = std::cmp::min(pos + room, input.len());
        let read = &input[pos..end];
        pos = end;
        if let Some(p) = st.next(read) {
            let done = read.is_empty();
            parts.push(p);
            if done {
                break;
            }
        }
    }
    assert_eq!(parts, vec![b"one".to_vec(), b"two".to_vec(), b"".to_vec(), b"three".to_vec()]);
}

#[test]
fn search_ignores_whitespace_in_the_search_text() {
    let data = b"let x = compute( a, b );\nlet y = 2;\n";
    let tight = find_in_data("f", data, "compute(a,b);");
    let loose = find_in_data("f", data, "compute ( a ,\n b ) ;");
    assert_eq!(tight, loose);
    assert!(tight.starts_with("Found an occurence on lines 0-0:"));
}

#[test]
fn places_ignore_the_layout_of_the_file() {
    let a = find_all(&strip_whitespace(b"x = f(1)\n+ 2"), b"f(1)+2");
    let b = find_all(&strip_whitespace(b"x=f(1)+2"), b"f(1)+2");
    assert_eq!(a, b);
    assert_eq!(a, vec![2]);
}

#[test]
fn reported_lines_are_the_lines_read_back() {
    let data = b"a\r\nb foo\r\nbar(\r\n1)\r\nz\r\n";
    let report = find_in_data("f", data, "foo bar(1)");
    assert!(report.starts_with("Found an occurence on lines 1-3:"));
    let back = select_lines(data, 1, 3);
    assert_eq!(back, "b foo\nbar(\n1)");
    let squeezed: String = back.chars().filter(|c| !c.is_ascii_whitespace()).collect();
    assert!(squeezed.contains("foobar(1)"));
}

fn parts_of(input: &[u8], read_size: usize) -> Vec<Vec<u8>> {
    let mut st: SplitStream<16> = SplitStream::new(b'\n');
    let mut parts = Vec::new();
    let mut pos = 0;
    let mut empty_reads = 0;
    while empty_reads < 4 {
        let room = std::cmp::min(st.free_space(), read_size);
        let end = std::cmp::min(pos + room, input.len());
        let read = &input[pos..end];
        pos = end;
        if read.is_empty() {
            empty_reads += 1;
        }
        if let Some(p) = st.next(read) {
            parts.push(p);
        }
    }
    parts
}

#[test]
fn stream_parts_do_not_depend_on_read_sizes() {
    let input: &[u8] = b"alpha\n\nbeta\ngamma\n";
    let expected: Vec<Vec<u8>> = vec![
        b"alpha".to_vec(),
        b"".to_vec(),
        b"beta".to_vec(),
        b"gamma".to_vec(),
        b"".to_vec(),
        b"".to_vec(),
    ];
    for size in [1, 2, 3, 7, 16] {
        let parts = parts_of(input, size);
        assert!(parts.len() >= 5);
        for (j, part) in parts.iter().enumerate() {
            assert_eq!(part, &expected[std::cmp::min(j, 5)]);
        }
    }
}

#[test]
fn valid_command_output_comes_back_as_is() {
    assert_eq!(command_output_text(true, "hi ✓\n".as_bytes(), b""), "hi ✓\n");
    assert_eq!(command_output_text(false, b"", b"oops\n"), "command failed: oops\n");
}
