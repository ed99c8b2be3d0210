use dockerrun::InterpError;
use dockerrun::MapResolver;
use dockerrun::shell_interpolate;

fn resolver(vars: &[(&str, &str)], cmds: &[(&str, &str)]) -> MapResolver {
    MapResolver {
        vars: vars.iter().map(|(k, v)| (k.to_string(), v.to_string())).collect(),
        cmds: cmds.iter().map(|(k, v)| (k.to_string(), v.to_string())).collect(),
    }
}

#[test]
fn no_markers_returns_input_unchanged() {
    let r = resolver(&[], &[]);
    assert_eq!(shell_interpolate("plain-text_123", &r).unwrap(), "plain-text_123");
    assert_eq!(shell_interpolate("", &r).unwrap(), "");
    assert_eq!(shell_interpolate("a b\tc{}()~#%", &r).unwrap(), "a b\tc{}()~#%");
}

#[test]
fn bare_and_braced_forms_agree_when_set() {
    let r = resolver(&[("FOO", "bar")], &[]);
    assert_eq!(shell_interpolate("$FOO", &r).unwrap(), "bar");
    assert_eq!(shell_interpolate("${FOO}", &r).unwrap(), "bar");
}

#[test]
fn bare_and_braced_forms_agree_when_unset() {
    let r = resolver(&[], &[]);
    assert_eq!(shell_interpolate("$FOO", &r).unwrap(), "");
    assert_eq!(shell_interpolate("${FOO}", &r).unwrap(), "");
}

#[test]
fn variable_inside_larger_string() {
    let r = resolver(&[("FOO", "bar")], &[]);
    assert_eq!(shell_interpolate("a${FOO}b", &r).unwrap(), "abarb");
    assert_eq!(shell_interpolate("a$FOO-b", &r).unwrap(), "abar-b");
}

#[test]
fn bare_name_stops_at_non_name_character() {
    let r = resolver(&[("A", "x"), ("A_1", "y")], &[]);
    assert_eq!(shell_interpolate("$A.z", &r).unwrap(), "x.z");
    assert_eq!(shell_interpolate("$A_1", &r).unwrap(), "y");
}

#[test]
fn lone_dollar_is_literal() {
    let r = resolver(&[], &[]);
    assert_eq!(shell_interpolate("$", &r).unwrap(), "$");
    assert_eq!(shell_interpolate("$ 5", &r).unwrap(), "$ 5");
    assert_eq!(shell_interpolate("100$", &r).unwrap(), "100$");
}

#[test]
fn backtick_command_trims_trailing_newline() {
    let r = resolver(&[], &[("printf ok", "ok\n")]);
    assert_eq!(shell_interpolate("prefix-`printf ok`-suffix", &r).unwrap(), "prefix-ok-suffix");
}

#[test]
fn dollar_paren_command_form() {
    let r = resolver(&[], &[("echo hi", "hi\n")]);
    assert_eq!(shell_interpolate("$(echo hi)", &r).unwrap(), "hi");
    assert_eq!(shell_interpolate("a-$(echo hi)-b", &r).unwrap(), "a-hi-b");
}

#[test]
fn all_trailing_line_terminators_are_trimmed() {
    let r = resolver(&[], &[("c", "x\r\n\n")]);
    assert_eq!(shell_interpolate("`c`", &r).unwrap(), "x");
}

#[test]
fn interior_newlines_are_kept() {
    let r = resolver(&[], &[("c", "a\nb\n")]);
    assert_eq!(shell_interpolate("`c`", &r).unwrap(), "a\nb");
}

#[test]
fn unterminated_brace_fails() {
    let r = resolver(&[], &[]);
    let e = shell_interpolate("${FOO", &r).unwrap_err();
    assert!(matches!(e, InterpError::UnterminatedSubstitution));
}

#[test]
fn unterminated_backtick_fails() {
    let r = resolver(&[], &[]);
    let e = shell_interpolate("`echo hi", &r).unwrap_err();
    assert!(matches!(e, InterpError::UnterminatedSubstitution));
}

#[test]
fn unterminated_paren_fails() {
    let r = resolver(&[], &[]);
    let e = shell_interpolate("$(echo hi", &r).unwrap_err();
    assert!(matches!(e, InterpError::UnterminatedSubstitution));
}

#[test]
fn failed_command_reports_execution_error() {
    let r = resolver(&[], &[]);
    let e = shell_interpolate("`no such command`", &r).unwrap_err();
    assert!(matches!(e, InterpError::SubstitutionExecutionError(_)));
}
