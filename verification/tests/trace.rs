use std::time::Duration;

use non_layered_tidy_trees::trace::{asked_for, phase_line};

/// `phase_line` takes the duration as whole seconds and nanoseconds.
fn line(name: &str, d: Duration, detail: &str) -> String {
    phase_line(name, d.as_secs(), d.subsec_nanos(), detail)
}

#[test]
fn what_turns_the_logs_on() {
    for v in ["1", "yes", "true", "on", "anything"] {
        assert!(asked_for(v), "`{v}` asks for the logs");
    }

    for v in ["", "  ", "0", "no", "off", "false", " 0 "] {
        assert!(!asked_for(v), "`{v}` does not ask for the logs");
    }
}

#[test]
fn a_phase_line_is_padded_and_its_detail_optional() {
    let d = Duration::from_micros(1234);

    assert_eq!(line("first", d, ""), "[nltt]   first        1.234ms");
    assert_eq!(
        line("second", d, &format!("minbreadth={}", -15.0)),
        "[nltt]   second       1.234ms  minbreadth=-15"
    );
}

#[test]
fn trimming_strips_unicode_white_space_and_nothing_else() {
    assert!(!asked_for("\t off \n"));
    assert!(!asked_for("\u{3000}false\u{2003}"));
    assert!(asked_for("of f"));
    assert!(asked_for("0 0"));
    assert!(asked_for("False"));
    assert!(asked_for("_"));
}

#[test]
fn a_long_name_is_not_cut() {
    let d = Duration::from_millis(2);
    assert_eq!(line("profile!!", d, "x"), "[nltt]   profile!!      2.000ms  x");
}
