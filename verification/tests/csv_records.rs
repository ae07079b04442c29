use essvi::csv::{column_index, covers_columns, split_fields, split_lines, trim_field};

#[test]
fn split_fields_basic_record() {
    let f = split_fields("dte,log_moneyness,total_variance");
    assert_eq!(f, vec!["dte", "log_moneyness", "total_variance"]);
}

#[test]
fn split_fields_keeps_empty_fields() {
    assert_eq!(split_fields(""), vec![""]);
    assert_eq!(split_fields(","), vec!["", ""]);
    assert_eq!(split_fields("a,,b,"), vec!["a", "", "b", ""]);
}

#[test]
fn split_fields_matches_std_split() {
    let lines = [
        "12, -0.05 ,0.0021,0.18,0.19",
        "x",
        ",,,",
        "é,ü ,\u{3000}k\u{3000},",
        "30,0.1,,0.2",
    ];
    for line in lines.iter() {
        let expected: Vec<&str> = line.split(',').collect();
        assert_eq!(split_fields(line), expected);
    }
}

#[test]
fn split_then_join_restores_record() {
    let line = " DTE , C_IV,P_IV ,,LOG_MONEYNESS";
    assert_eq!(split_fields(line).join(","), line);
}

#[test]
fn trim_field_matches_std_trim() {
    let samples = [
        "  dte ",
        "\tlog_moneyness\r\n",
        "",
        "   ",
        "a b",
        "\u{a0}x\u{2003}",
        "\u{3000}\u{85}y\u{205f}",
        "\u{b}z\u{c}",
        " -0.25 ",
    ];
    for s in samples.iter() {
        assert_eq!(trim_field(s), s.trim());
    }
}

#[test]
fn column_index_finds_trimmed_header() {
    let header = split_fields("quote_date, dte ,log_moneyness,total_variance,c_iv,p_iv");
    assert_eq!(column_index(&header, "dte"), Some(1));
    assert_eq!(column_index(&header, "log_moneyness"), Some(2));
    assert_eq!(column_index(&header, "p_iv"), Some(5));
    assert_eq!(column_index(&header, "forward"), None);
}

#[test]
fn column_index_takes_first_match() {
    let header = split_fields("a,b, a");
    assert_eq!(column_index(&header, "a"), Some(0));
    assert_eq!(column_index(&header, "A"), None);
}

#[test]
fn covers_columns_needs_every_index() {
    let cols = vec![2, 4, 3];
    assert!(covers_columns(5, &cols));
    assert!(!covers_columns(4, &cols));
    assert!(!covers_columns(0, &cols));
    assert!(covers_columns(0, &Vec::new()));
}

#[test]
fn join_then_split_restores_fields() {
    let fields = vec!["2024-01-19", " 30 ", "", "0.0421", "p iv"];
    let line = fields.join(",");
    assert_eq!(split_fields(&line), fields);
}

#[test]
fn split_lines_drops_line_endings() {
    assert_eq!(split_lines("dte,c_iv\n7,0.2\n"), vec!["dte,c_iv", "7,0.2"]);
    assert_eq!(split_lines("a\r\nb\r\n"), vec!["a", "b"]);
    assert_eq!(split_lines("a\n\nb"), vec!["a", "", "b"]);
}

#[test]
fn split_lines_edge_cases() {
    assert!(split_lines("").is_empty());
    assert_eq!(split_lines("\n"), vec![""]);
    assert_eq!(split_lines("x"), vec!["x"]);
    assert_eq!(split_lines("a\r"), vec!["a\r"]);
    assert_eq!(split_lines("a\r\r\n"), vec!["a\r"]);
    assert_eq!(split_lines("\r\n\r\n"), vec!["", ""]);
}

#[test]
fn split_lines_matches_std_lines() {
    let texts = [
        "",
        "\n",
        "\n\n",
        "a",
        "a\n",
        "a\nb",
        "a\r\nb\r\n",
        "a\rb\n",
        "é,ü\nß\r\n\u{2028}x\n",
        "trailing\r",
        "12, -0.05 ,0.0021\n13,0.1,0.3\n\n",
    ];
    for t in texts {
        let expected: Vec<&str> = t.lines().collect();
        assert_eq!(split_lines(t), expected, "text {:?}", t);
    }
}
