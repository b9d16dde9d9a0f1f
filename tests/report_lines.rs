use ipstat::config::{check_key, resolve_format, ConfigError};
use ipstat::report::{record_vars, render_entry, select_entries, ReportError};
use ipstat::scan::{scan_line, scan_lines, MatchPattern, DEFAULT_PATTERN};
use ipstat::table::{normalize_address, FrequencyTable, ScanError};

const IPV4: &str = r"[0-9]{1,3}(\.[0-9]{1,3}){3}";

fn lines(v: &[&str]) -> Vec<String> {
    v.iter().map(|s| s.to_string()).collect()
}

fn table_of(pattern: &str, input: &[&str], key: usize, fixed: bool) -> FrequencyTable {
    let p = MatchPattern::new(pattern).unwrap();
    let mut t = FrequencyTable::new();
    scan_lines(&mut t, &p, &lines(input), key, false, fixed).unwrap();
    t
}

fn report(t: &FrequencyTable, threshold: Option<u32>, max: Option<usize>, fmt: &str) -> Vec<String> {
    select_entries(t, threshold, max)
        .iter()
        .map(|(ip, c)| render_entry(fmt, ip, *c, None).unwrap())
        .collect()
}

#[test]
fn unmatched_lines_leave_table_and_report_empty() {
    let t = table_of(DEFAULT_PATTERN, &["no address here", "", "still nothing"], 1, false);
    assert_eq!(t.len(), 0);
    assert!(report(&t, None, None, "{cnt} {ip}").is_empty());
}

#[test]
fn round_trip_two_addresses() {
    let t = table_of(IPV4, &["1.2.3.4 connected", "1.2.3.4 connected", "5.6.7.8 connected"], 1, false);
    assert_eq!(report(&t, None, None, "{cnt} {ip}"), vec!["1 5.6.7.8", "2 1.2.3.4"]);
}

#[test]
fn default_pattern_finds_mapped_and_ipv6() {
    let t = table_of(
        DEFAULT_PATTERN,
        &["from ::ffff:10.1.2.3 port 22", "from 2001:db8::1 port 22", "from ::ffff:10.1.2.3 again"],
        1,
        false,
    );
    assert_eq!(t.count("10.1.2.3"), 2);
    assert_eq!(t.count("2001:db8::1"), 1);
    assert_eq!(t.count("::ffff:10.1.2.3"), 0);
}

#[test]
fn counts_add_up_across_sources() {
    let p = MatchPattern::new(IPV4).unwrap();
    let mut t = FrequencyTable::new();
    scan_lines(&mut t, &p, &lines(&["a 1.1.1.1", "b 2.2.2.2"]), 1, false, false).unwrap();
    scan_lines(&mut t, &p, &lines(&["c 1.1.1.1", "d 1.1.1.1"]), 1, false, false).unwrap();
    assert_eq!(t.count("1.1.1.1"), 3);
    assert_eq!(t.count("2.2.2.2"), 1);
    assert_eq!(t.count("3.3.3.3"), 0);
}

#[test]
fn mapped_prefix_is_stripped_once() {
    assert_eq!(normalize_address("::ffff:192.168.1.1"), "192.168.1.1");
    assert_eq!(normalize_address("::ffff:::ffff:1.2.3.4"), "::ffff:1.2.3.4");
    assert_eq!(normalize_address("fe80::1"), "fe80::1");
    assert_eq!(normalize_address("::fff"), "::fff");
    assert_eq!(normalize_address(""), "");
}

#[test]
fn fixed_mode_trims_whole_line() {
    let t = table_of(DEFAULT_PATTERN, &["  10.0.0.1  "], 1, true);
    assert_eq!(t.count("10.0.0.1"), 1);
    assert_eq!(t.len(), 1);
}

#[test]
fn fixed_mode_strips_mapped_prefix() {
    let t = table_of(DEFAULT_PATTERN, &["\t::ffff:10.0.0.2\n"], 1, true);
    assert_eq!(t.count("10.0.0.2"), 1);
}

#[test]
fn key_picks_nth_match() {
    let t = table_of(IPV4, &["1.1.1.1 -> 2.2.2.2", "3.3.3.3"], 2, false);
    assert_eq!(t.count("2.2.2.2"), 1);
    assert_eq!(t.count("1.1.1.1"), 0);
    assert_eq!(t.len(), 1);
}

#[test]
fn pedantic_unmatched_line_fails() {
    let p = MatchPattern::new(IPV4).unwrap();
    let mut t = FrequencyTable::new();
    let r = scan_lines(&mut t, &p, &lines(&["1.1.1.1 ok", "nothing", "2.2.2.2 ok"]), 1, true, false);
    assert_eq!(r, Err(ScanError::NoAddress { line: "nothing".to_string() }));
    assert_eq!(t.count("2.2.2.2"), 0);
}

#[test]
fn pedantic_single_line() {
    let p = MatchPattern::new(IPV4).unwrap();
    let mut t = FrequencyTable::new();
    assert_eq!(
        scan_line(&mut t, &p, "no ip", 1, true, false),
        Err(ScanError::NoAddress { line: "no ip".to_string() })
    );
    assert_eq!(scan_line(&mut t, &p, "no ip", 1, false, false), Ok(()));
    assert_eq!(t.len(), 0);
}

#[test]
fn host_with_numeric_is_rejected() {
    assert_eq!(resolve_format(Some("{cnt} {host}"), true), Err(ConfigError::HostWithNumeric));
    assert_eq!(resolve_format(Some("{cnt} {host}"), false), Ok("{cnt} {host}".to_string()));
    assert_eq!(resolve_format(Some("{cnt} {ip}"), true), Ok("{cnt} {ip}".to_string()));
}

#[test]
fn default_templates() {
    assert_eq!(resolve_format(None, true), Ok("{cnt} {ip}".to_string()));
    assert_eq!(resolve_format(None, false), Ok("{cnt} {host} ({ip})".to_string()));
}

#[test]
fn zero_key_is_rejected() {
    assert_eq!(check_key(0), Err(ConfigError::ZeroKey));
    assert_eq!(check_key(3), Ok(3));
}

#[test]
fn invalid_pattern_is_rejected() {
    let r = MatchPattern::new("([0-9]");
    assert!(matches!(r, Err(ConfigError::InvalidPattern { ref pattern }) if pattern == "([0-9]"));
    assert_eq!(MatchPattern::new(IPV4).unwrap().source(), IPV4);
}

#[test]
fn threshold_drops_counts_at_or_below() {
    let t = table_of(IPV4, &["1.1.1.1", "2.2.2.2", "2.2.2.2", "3.3.3.3", "3.3.3.3", "3.3.3.3"], 1, false);
    assert_eq!(report(&t, Some(1), None, "{cnt} {ip}"), vec!["2 2.2.2.2", "3 3.3.3.3"]);
    assert_eq!(report(&t, Some(3), None, "{cnt} {ip}"), Vec::<String>::new());
    assert_eq!(report(&t, Some(0), None, "{ip}").len(), 3);
}

#[test]
fn max_results_keeps_highest_ascending() {
    let t = table_of(
        IPV4,
        &["4.4.4.4", "1.1.1.1", "2.2.2.2", "2.2.2.2", "3.3.3.3", "3.3.3.3", "3.3.3.3"],
        1,
        false,
    );
    assert_eq!(report(&t, None, Some(2), "{cnt} {ip}"), vec!["2 2.2.2.2", "3 3.3.3.3"]);
    assert_eq!(report(&t, None, Some(10), "{ip}").len(), 4);
    assert!(report(&t, None, Some(0), "{ip}").is_empty());
    assert_eq!(report(&t, Some(1), Some(5), "{cnt} {ip}"), vec!["2 2.2.2.2", "3 3.3.3.3"]);
}

#[test]
fn ties_keep_first_appearance_order() {
    let t = table_of(IPV4, &["9.9.9.9", "1.1.1.1", "5.5.5.5"], 1, false);
    assert_eq!(report(&t, None, None, "{ip}"), vec!["9.9.9.9", "1.1.1.1", "5.5.5.5"]);
    assert_eq!(report(&t, None, Some(1), "{ip}"), vec!["5.5.5.5"]);
}

#[test]
fn render_fills_all_placeholders() {
    assert_eq!(
        render_entry("{cnt} {host} ({ip})", "10.0.0.1", 1234, Some("gw.example")),
        Ok("1234 gw.example (10.0.0.1)".to_string())
    );
    assert_eq!(render_entry("{ip}:{cnt}", "::1", 0, None), Ok("::1:0".to_string()));
}

#[test]
fn render_with_missing_value_fails() {
    assert_eq!(
        render_entry("{cnt} {host}", "10.0.0.1", 1, None),
        Err(ReportError::Format { template: "{cnt} {host}".to_string() })
    );
    assert!(render_entry("{cnt", "10.0.0.1", 1, None).is_err());
}

#[test]
fn record_vars_names_values() {
    let v = record_vars("1.2.3.4", 42, Some("h"));
    assert_eq!(
        v,
        vec![
            ("cnt".to_string(), "42".to_string()),
            ("ip".to_string(), "1.2.3.4".to_string()),
            ("host".to_string(), "h".to_string()),
        ]
    );
    assert_eq!(record_vars("1.2.3.4", 7, None).len(), 2);
}

#[test]
fn record_counts_normalized_key() {
    let mut t = FrequencyTable::new();
    assert_eq!(t.record("::ffff:1.2.3.4"), Ok(()));
    assert_eq!(t.record("1.2.3.4"), Ok(()));
    assert_eq!(t.count("1.2.3.4"), 2);
    let (k, c) = t.entry(0);
    assert_eq!((k.as_str(), c), ("1.2.3.4", 2));
}

#[test]
fn empty_keys_are_never_stored() {
    let t = table_of(DEFAULT_PATTERN, &["   ", "", "::ffff:", "10.0.0.3"], 1, true);
    assert_eq!(t.len(), 1);
    assert_eq!(t.count(""), 0);
    assert_eq!(t.count("10.0.0.3"), 1);
    let p = MatchPattern::new(DEFAULT_PATTERN).unwrap();
    let mut t = FrequencyTable::new();
    assert_eq!(scan_line(&mut t, &p, "   ", 1, true, true), Ok(()));
    assert_eq!(t.len(), 0);
}
