use mandelbrot::pair::{parse_pair, parse_usize_pair, split_pair, zip_parsed};

#[test]
fn test_parse_pair() {
    assert_eq!(parse_pair::<i32>("", ','), None);
    assert_eq!(parse_pair::<i32>("10,", ','), None);
    assert_eq!(parse_pair::<i32>(",10", ','), None);
    assert_eq!(parse_pair::<i32>("10,20", ','), Some((10, 20)));
    assert_eq!(parse_pair::<i32>("10,20xy", ','), None);
    assert_eq!(parse_pair::<f64>("0.5x", 'x'), None);
    assert_eq!(parse_pair::<f64>("0.5x1.5", 'x'), Some((0.5, 1.5)));
}

#[test]
fn parse_pair_rejects_second_separator() {
    assert_eq!(parse_pair::<i32>("10,20,30", ','), None);
    assert_eq!(parse_pair::<f64>("-1.20,0.35", ','), Some((-1.20, 0.35)));
    assert_eq!(parse_pair::<f64>("1.25,-0.0625", ','), Some((1.25, -0.0625)));
    assert_eq!(parse_pair::<f64>(",-0.0625", ','), None);
}

#[test]
fn split_pair_at_first_separator() {
    assert_eq!(split_pair("1000x750", 'x'), Some(("1000", "750")));
    assert_eq!(split_pair("axbxc", 'x'), Some(("a", "bxc")));
    assert_eq!(split_pair("x", 'x'), Some(("", "")));
    assert_eq!(split_pair("1000", 'x'), None);
    assert_eq!(split_pair("", ','), None);
    assert_eq!(split_pair("é,ü", ','), Some(("é", "ü")));
}

#[test]
fn zip_parsed_needs_both_sides() {
    assert_eq!(zip_parsed(Some(1), Some(2)), Some((1, 2)));
    assert_eq!(zip_parsed(None, Some(2)), None);
    assert_eq!(zip_parsed(Some(1), None::<i32>), None);
    assert_eq!(zip_parsed(None::<i32>, None), None);
}

#[test]
fn parse_usize_pair_reads_sizes() {
    assert_eq!(parse_usize_pair("1000x750", 'x'), Some((1000, 750)));
    assert_eq!(parse_usize_pair("+4x007", 'x'), Some((4, 7)));
    assert_eq!(parse_usize_pair("0x0", 'x'), Some((0, 0)));
    assert_eq!(parse_usize_pair("10,20", ','), Some((10, 20)));
}

#[test]
fn parse_usize_pair_rejects_malformed_text() {
    assert_eq!(parse_usize_pair("", 'x'), None);
    assert_eq!(parse_usize_pair("1000", 'x'), None);
    assert_eq!(parse_usize_pair("1000x", 'x'), None);
    assert_eq!(parse_usize_pair("x750", 'x'), None);
    assert_eq!(parse_usize_pair("10x20x30", 'x'), None);
    assert_eq!(parse_usize_pair("-10x20", 'x'), None);
    assert_eq!(parse_usize_pair("10 x20", 'x'), None);
    assert_eq!(parse_usize_pair("+x20", 'x'), None);
    assert_eq!(parse_usize_pair("1_000x20", 'x'), None);
    assert_eq!(parse_usize_pair("99999999999999999999999x1", 'x'), None);
}
