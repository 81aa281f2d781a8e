use noc_sim::links::{Connection, TileKind};
use noc_sim::report::{
    connection_line, has_prefix, is_white_space, last_count, last_word, opens_record, parse_run_name,
    parse_unit_kind, parse_usize, pcu_line, pmu_line, read_config, split_underscores, split_words, Record,
    ReportError, UnitKind,
};

fn chars(s: &str) -> Vec<char> {
    s.chars().collect()
}

fn words_of(line: &str) -> Vec<String> {
    split_words(line).into_iter().map(|w| w.into_iter().collect()).collect()
}

#[test]
fn split_words_matches_split_whitespace() {
    let lines = [
        "pcu config 0 1 2 3 4 SIMD 8 9 10 sender 0 1 receiver 2",
        "  leading and trailing  ",
        "tabs\tand\nnewlines\r\nmixed",
        "",
        "   ",
        "one",
        "non\u{a0}breaking\u{2003}spaces\u{3000}here",
    ];
    for line in lines {
        let expected: Vec<String> = line.split_whitespace().map(|w| w.to_string()).collect();
        assert_eq!(words_of(line), expected, "line {:?}", line);
    }
}

#[test]
fn white_space_agrees_with_std() {
    for c in ['\t', '\n', '\u{b}', '\u{c}', '\r', ' ', '\u{85}', '\u{a0}', '\u{1680}', '\u{2000}', '\u{200a}',
        '\u{2028}', '\u{2029}', '\u{202f}', '\u{205f}', '\u{3000}', 'a', '0', '_', '\u{200b}', '\u{180e}', '\u{feff}']
    {
        assert_eq!(is_white_space(c), c.is_whitespace(), "char {:?}", c);
    }
}

#[test]
fn parse_usize_agrees_with_std() {
    let texts = [
        "0", "42", "+7", "007", "", "+", "-1", "-0", "12a", " 1", "18446744073709551615",
        "18446744073709551616", "99999999999999999999999", "+18446744073709551615", "++1", "1_000", "٣",
    ];
    for t in texts {
        assert_eq!(parse_usize(&chars(t)), t.parse::<usize>().ok(), "text {:?}", t);
    }
}

#[test]
fn parse_usize_values() {
    assert_eq!(parse_usize(&chars("999999")), Some(999999));
    assert_eq!(parse_usize(&chars("+15")), Some(15));
    assert_eq!(parse_usize(&chars("x")), None);
}

#[test]
fn prefix_of_text() {
    assert!(has_prefix("Compute_Latency[0] 12.5", "Compute_Latency["));
    assert!(!has_prefix("Memory_Latency[0] 12.5", "Compute_Latency["));
    assert!(has_prefix("abc", ""));
    assert!(!has_prefix("ab", "abc"));
}

#[test]
fn record_lines_open_by_prefix() {
    assert!(opens_record("connection config 0 pcu 0 0 pmu 0 1", Record::Connection, 0));
    assert!(!opens_record("connection config 0 pcu 0 0 pmu 0 1", Record::Connection, 1));
    assert!(opens_record("num_of_connections config 3 : 5", Record::ConnectionCount, 3));
    assert!(opens_record("pcu config 2 0 1 1 1 SIMD 1 1 1 s 0 receiver 1", Record::Pcu, 2));
    assert!(!opens_record("pcu config 2 0 1 1 1 SIMD 1 1 1 s 0 receiver 1", Record::Pmu, 2));
    assert!(opens_record("pmu config 10 0 1 1 1 s 0 receiver 1", Record::Pmu, 10));
    assert!(opens_record("kernel latency config 0 0 : 17", Record::KernelLatency, 0));
    // a number is a prefix of every longer number that begins with it
    assert!(opens_record("pcu config 12 0 1 1 1 SIMD 1 1 1 s 0 receiver 1", Record::Pcu, 1));
    assert!(!opens_record("pcu config", Record::Pcu, 0));
}

#[test]
fn reads_connection_line() {
    let ws = split_words("connection config 0 pcu 1 2 pmu 3 4");
    assert_eq!(
        connection_line(&ws),
        Ok(Connection { from_kind: TileKind::Pcu, from_x: 1, from_y: 2, to_kind: TileKind::Pmu, to_x: 3, to_y: 4 })
    );
    let ws = split_words("connection config 0 dram 1 2 pcu 3 4 extra");
    assert_eq!(
        connection_line(&ws),
        Ok(Connection { from_kind: TileKind::Other, from_x: 1, from_y: 2, to_kind: TileKind::Pcu, to_x: 3, to_y: 4 })
    );
}

#[test]
fn connection_line_errors() {
    assert_eq!(connection_line(&split_words("connection config 0")), Err(ReportError::Missing { index: 3 }));
    assert_eq!(connection_line(&split_words("connection config 0 pcu 1")), Err(ReportError::Missing { index: 5 }));
    assert_eq!(connection_line(&split_words("connection config 0 pcu x 2 pmu 3 4")), Err(ReportError::NotANumber { index: 4 }));
    assert_eq!(connection_line(&split_words("connection config 0 pcu 1 2")), Err(ReportError::Missing { index: 6 }));
    assert_eq!(connection_line(&split_words("connection config 0 pcu 1 2 pmu 3 -4")), Err(ReportError::NotANumber { index: 8 }));
}

#[test]
fn reads_pcu_line() {
    let ws = split_words("pcu config 0 3 1 2 5 Systolic 16 32 64 sender 0 4 receiver 1 2 3");
    let p = pcu_line(&ws).unwrap();
    assert_eq!((p.x, p.y, p.counter), (1, 2, 5));
    assert_eq!(p.kind, UnitKind::Systolic);
    assert_eq!((p.m, p.k, p.n), (16, 32, 64));
    assert_eq!(p.senders, vec![0, 4]);
    assert_eq!(p.receivers, vec![1, 2, 3]);

    let ws = split_words("pcu config 0 3 1 2 5 SIMD 1 1 1 sender 999999 receiver 999999");
    let p = pcu_line(&ws).unwrap();
    assert_eq!(p.kind, UnitKind::Simd);
    assert_eq!(p.senders, vec![999999]);
    assert_eq!(p.receivers, vec![999999]);

    let ws = split_words("pcu config 0 3 1 2 5 simd 1 1 1 sender receiver");
    let p = pcu_line(&ws).unwrap();
    assert_eq!(p.kind, UnitKind::Other);
    assert!(p.senders.is_empty());
    assert!(p.receivers.is_empty());
}

#[test]
fn pcu_line_errors() {
    // no `receiver` word: the list of senders runs off the end of the line
    assert_eq!(
        pcu_line(&split_words("pcu config 0 3 1 2 5 SIMD 1 1 1 sender 0 1")),
        Err(ReportError::Missing { index: 14 })
    );
    assert_eq!(
        pcu_line(&split_words("pcu config 0 3 1 2 5 SIMD 1 1 1")),
        Err(ReportError::Missing { index: 12 })
    );
    assert_eq!(
        pcu_line(&split_words("pcu config 0 3 1 2 5 SIMD 1 1 1 sender 0 x receiver 1")),
        Err(ReportError::NotANumber { index: 13 })
    );
    assert_eq!(
        pcu_line(&split_words("pcu config 0 3 1 2 5 SIMD 1 1 1 sender 0 receiver 1 y")),
        Err(ReportError::NotANumber { index: 15 })
    );
    assert_eq!(pcu_line(&split_words("pcu config 0 3 1 2 5")), Err(ReportError::Missing { index: 7 }));
    assert_eq!(pcu_line(&split_words("pcu config 0 3 a")), Err(ReportError::NotANumber { index: 4 }));
}

#[test]
fn reads_pmu_line() {
    let ws = split_words("pmu config 1 0 4 5 8 sender 2 receiver 999999");
    let p = pmu_line(&ws).unwrap();
    assert_eq!((p.x, p.y, p.counter), (4, 5, 8));
    assert_eq!(p.senders, vec![2]);
    assert_eq!(p.receivers, vec![999999]);
    assert_eq!(
        pmu_line(&split_words("pmu config 1 0 4 5 8 sender 2")),
        Err(ReportError::Missing { index: 9 })
    );
    assert_eq!(pmu_line(&split_words("pmu config 1 0 4 5")), Err(ReportError::Missing { index: 6 }));
}

#[test]
fn last_counts() {
    assert_eq!(last_count(&split_words("num_of_connections config 0 : 12")), Ok(12));
    assert_eq!(last_count(&split_words("kernel latency config 0 3 : 250")), Ok(250));
    assert_eq!(last_count(&split_words("kernel latency config 0 3 : 2.5")), Err(ReportError::NotANumber { index: 6 }));
    assert_eq!(last_count(&split_words("   ")), Err(ReportError::Missing { index: 0 }));
    assert_eq!(last_word(&split_words("Compute_Latency[0] 12.5")), Some(chars("12.5")));
    assert_eq!(last_word(&split_words("")), None);
}

#[test]
fn unit_kinds() {
    assert_eq!(parse_unit_kind(&chars("SIMD")), UnitKind::Simd);
    assert_eq!(parse_unit_kind(&chars("Systolic")), UnitKind::Systolic);
    assert_eq!(parse_unit_kind(&chars("Systolic ")), UnitKind::Other);
    assert_eq!(parse_unit_kind(&chars("")), UnitKind::Other);
}

#[test]
fn underscores_split_like_std() {
    for t in ["2_100", "1_", "_5", "abc", "", "a__b_c"] {
        let got: Vec<String> = split_underscores(t).into_iter().map(|w| w.into_iter().collect()).collect();
        let expected: Vec<String> = t.split('_').map(|w| w.to_string()).collect();
        assert_eq!(got, expected, "text {:?}", t);
    }
}

#[test]
fn run_names() {
    assert_eq!(parse_run_name("2_100"), Ok((2, 100)));
    assert_eq!(parse_run_name("1_64_extra"), Ok((1, 64)));
    assert_eq!(parse_run_name("1"), Err(ReportError::Missing { index: 1 }));
    assert_eq!(parse_run_name("x_1"), Err(ReportError::NotANumber { index: 0 }));
    assert_eq!(parse_run_name("1_y"), Err(ReportError::NotANumber { index: 1 }));
    assert_eq!(parse_run_name("1_"), Err(ReportError::NotANumber { index: 1 }));
}

#[test]
fn numbers_read_back_as_written() {
    for n in [0usize, 7, 10, 99, 12345, usize::MAX] {
        let text: Vec<char> = n.to_string().chars().collect();
        assert_eq!(parse_usize(&text), Some(n));
        let line = format!("pmu config {} 0 1 1 1 s 0 receiver 1", n);
        assert!(opens_record(&line, Record::Pmu, n));
    }
}

#[test]
fn words_are_clean() {
    for line in ["  a  b\tc ", "\u{3000}x\u{2028}yy ", "", "one"] {
        for w in split_words(line) {
            assert!(!w.is_empty());
            assert!(w.iter().all(|c| !c.is_whitespace()));
        }
    }
}

#[test]
fn reads_a_configuration() {
    let lines = vec![
        "Compute_Latency[0] 12.5",
        "connection config 0 pcu 0 0 pmu 0 1",
        "connection config 1 pcu 5 5 pmu 5 6",
        "num_of_connections config 0 : 1",
        "pcu config 0 0 0 0 2 SIMD 1 2 3 sender 0 receiver 999999",
        "pmu config 0 0 0 1 4 sender 999999 receiver 0",
        "kernel latency config 0 0 : 17",
        "kernel latency config 0 1 : 19",
    ];
    let cfg = read_config(&lines, 0).unwrap();
    assert_eq!(cfg.connections.len(), 1);
    assert_eq!(cfg.connections[0].to_y, 1);
    assert_eq!(cfg.num_of_connections, 1);
    assert_eq!(cfg.pcus.len(), 1);
    assert_eq!(cfg.pcus[0].senders, vec![0]);
    assert_eq!(cfg.pmus.len(), 1);
    assert_eq!(cfg.pmus[0].counter, 4);
    assert_eq!(cfg.kernel_latency, vec![17, 19]);
    let other = read_config(&lines, 1).unwrap();
    assert_eq!(other.connections.len(), 1);
    assert_eq!(other.num_of_connections, 0);
    assert!(other.pcus.is_empty());
}

#[test]
fn configuration_errors_come_in_pass_order() {
    let lines = vec!["pcu config 0 0 x", "connection config 0 pcu 0 0 pmu 0"];
    assert_eq!(read_config(&lines, 0).err(), Some(ReportError::Missing { index: 8 }));
    let lines = vec!["pcu config 0 0 x"];
    assert_eq!(read_config(&lines, 0).err(), Some(ReportError::NotANumber { index: 4 }));
}
