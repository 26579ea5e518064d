use skillexec::survey::{self, RoundTrip};

fn text(v: Vec<char>) -> String {
    v.into_iter().collect()
}

#[test]
fn trailing_whitespace_is_what_the_normal_form_drops() {
    assert_eq!(text(survey::norm("a  \n b\t\r\n\n\n")), "a\n b");
    assert_eq!(text(survey::norm("")), "");
    assert_eq!(text(survey::norm(" \n\t\n")), "");
    assert_eq!(text(survey::norm("x\u{3000}\ny")), "x\ny");
    assert_eq!(text(survey::norm("\n\nz")), "\n\nz");
}

#[test]
fn a_rendering_is_exact_normalized_or_different() {
    assert_eq!(survey::round_trip("# A\n", "# A\n"), RoundTrip::Exact);
    assert_eq!(survey::round_trip("# A\n", "# A  \r\n\n"), RoundTrip::Normalized);
    assert_eq!(survey::round_trip("# A\n", "# B\n"), RoundTrip::Differs);
    assert_eq!(survey::round_trip("a\nb", "a b"), RoundTrip::Differs);
}

#[test]
fn a_failure_mode_is_the_text_before_its_details() {
    assert_eq!(survey::mode_key("compile: Routing(Overflow)"), "compile: Routing");
    assert_eq!(survey::mode_key("open: Bad { at: 3 }"), "open: Bad");
    assert_eq!(survey::mode_key("  round-trip: differs  "), "round-trip: differs");
    assert_eq!(survey::mode_key("(x)"), "");
}

#[test]
fn failure_modes_come_most_frequent_first_then_in_order_met() {
    let whys: Vec<String> = [
        "verify: Hash(3)",
        "open: Bad { at: 1 }",
        "round-trip: differs",
        "open: Bad { at: 2 }",
        "verify: Hash(9)",
        "render: Utf8",
        "open: Other",
    ]
    .iter()
    .map(|s| s.to_string())
    .collect();
    let got = survey::failure_modes(&whys);
    let want: Vec<(String, usize)> = vec![
        ("verify: Hash".to_string(), 2),
        ("open: Bad".to_string(), 2),
        ("round-trip: differs".to_string(), 1),
        ("render: Utf8".to_string(), 1),
        ("open: Other".to_string(), 1),
    ];
    assert_eq!(got, want);
    assert!(survey::failure_modes(&Vec::new()).is_empty());
}
