use assert_env::schema::{parse_config, Config, ConfigErrorKind, TypeMap};
use assert_env::validate::{check, EnvMap, Violation};
use assert_env::vartype::VarType;

fn schema_with_required(key: &str, ty: VarType) -> Config {
    let mut required = TypeMap::new();
    required.insert(key.to_string(), ty);
    Config {
        required,
        optional: TypeMap::new(),
    }
}

#[test]
fn required_invalid_value_is_one_violation() {
    let config = schema_with_required("PORT", VarType::Int);
    let mut env = EnvMap::new();
    env.insert("PORT".to_string(), "abc".to_string());
    let violations = check(&config, &env);
    assert_eq!(violations.len(), 1);
    let msg = violations[0].message();
    assert!(msg.contains("PORT"));
    assert!(msg.contains("invalid value"));
    assert_eq!(msg, "required variable 'PORT' has invalid value 'abc' (expected int)");
}

#[test]
fn required_missing_is_one_violation() {
    let config = schema_with_required("PORT", VarType::Int);
    let env = EnvMap::new();
    let violations = check(&config, &env);
    assert_eq!(violations.len(), 1);
    let msg = violations[0].message();
    assert!(msg.contains("PORT"));
    assert!(msg.contains("missing"));
    assert_eq!(msg, "required variable 'PORT' is missing");
}

#[test]
fn required_empty_is_one_violation() {
    let config = schema_with_required("PORT", VarType::Int);
    let mut env = EnvMap::new();
    env.insert("PORT".to_string(), "".to_string());
    let violations = check(&config, &env);
    assert_eq!(violations.len(), 1);
    let msg = violations[0].message();
    assert!(msg.contains("empty"));
    assert_eq!(msg, "required variable 'PORT' is empty");
}

#[test]
fn required_valid_value_passes() {
    let config = schema_with_required("PORT", VarType::Int);
    let mut env = EnvMap::new();
    env.insert("PORT".to_string(), "8080".to_string());
    let violations = check(&config, &env);
    assert_eq!(violations.len(), 0);
}

#[test]
fn required_empty_rejected_even_for_any() {
    // A required key always rejects the empty string, even under `any`.
    let config = schema_with_required("FLAG", VarType::Any);
    let mut env = EnvMap::new();
    env.insert("FLAG".to_string(), "".to_string());
    let violations = check(&config, &env);
    assert_eq!(violations.len(), 1);
    assert_eq!(violations[0].message(), "required variable 'FLAG' is empty");
}

#[test]
fn simultaneous_violations_all_collected() {
    // A missing required key and an invalid optional key appear together.
    let mut required = TypeMap::new();
    required.insert("MISSING_KEY".to_string(), VarType::Str);
    let mut optional = TypeMap::new();
    optional.insert("LEVEL".to_string(), VarType::Bool);
    let config = Config { required, optional };
    let mut env = EnvMap::new();
    env.insert("LEVEL".to_string(), "maybe".to_string());
    let violations = check(&config, &env);
    assert_eq!(violations.len(), 2);
    let messages: Vec<String> = violations.iter().map(|v| v.message()).collect();
    assert!(messages
        .iter()
        .any(|m| m == "required variable 'MISSING_KEY' is missing"));
    assert!(messages
        .iter()
        .any(|m| m == "optional variable 'LEVEL' has invalid value 'maybe' (expected bool)"));
}

#[test]
fn optional_absent_is_no_violation() {
    let mut optional = TypeMap::new();
    optional.insert("LEVEL".to_string(), VarType::Int);
    let config = Config {
        required: TypeMap::new(),
        optional,
    };
    let env = EnvMap::new();
    assert_eq!(check(&config, &env).len(), 0);
}

#[test]
fn optional_empty_follows_type_rule() {
    // An optional `str` rejects the empty value; an optional `any` takes it.
    let mut optional = TypeMap::new();
    optional.insert("NAME".to_string(), VarType::Str);
    optional.insert("NOTE".to_string(), VarType::Any);
    let config = Config {
        required: TypeMap::new(),
        optional,
    };
    let mut env = EnvMap::new();
    env.insert("NAME".to_string(), "".to_string());
    env.insert("NOTE".to_string(), "".to_string());
    let violations = check(&config, &env);
    assert_eq!(violations.len(), 1);
    assert_eq!(
        violations[0].message(),
        "optional variable 'NAME' has invalid value '' (expected str)"
    );
}

#[test]
fn round_trip_schema_contents() {
    let config = parse_config("[required]\nA=str\n[optional]\nB=int").unwrap();
    assert_eq!(config.required.get("A"), Some(VarType::Str));
    assert_eq!(config.required.len(), 1);
    assert_eq!(config.optional.get("B"), Some(VarType::Int));
    assert_eq!(config.optional.len(), 1);
}

#[test]
fn parsing_twice_gives_identical_contents() {
    let text = "[required]\nA=str\nB = 'bool'\n[optional]\nC=float # inline\n";
    let first = parse_config(text).unwrap();
    let second = parse_config(text).unwrap();
    for key in ["A", "B", "C"] {
        assert_eq!(first.required.get(key), second.required.get(key));
        assert_eq!(first.optional.get(key), second.optional.get(key));
    }
    assert_eq!(first.required.len(), second.required.len());
    assert_eq!(first.optional.len(), second.optional.len());
}

#[test]
fn later_assignment_overwrites_earlier() {
    let config = parse_config("[required]\nA=str\nA=int").unwrap();
    assert_eq!(config.required.get("A"), Some(VarType::Int));
    assert_eq!(config.required.len(), 1);
}

#[test]
fn error_reports_line_and_kind() {
    let err = parse_config("[required]\nKEY=bogus").unwrap_err();
    assert_eq!(err.line, 2);
    assert!(matches!(err.kind, ConfigErrorKind::InvalidType { .. }));
    assert_eq!(err.message(), "invalid type 'bogus' for key 'KEY'");

    let err = parse_config("KEY=str").unwrap_err();
    assert_eq!(err.line, 1);
    assert!(matches!(err.kind, ConfigErrorKind::OutsideSection));
    assert_eq!(
        err.message(),
        "assignment outside of [required] or [optional]"
    );

    let err = parse_config("\n\n[optional]\nNOEQUALS").unwrap_err();
    assert_eq!(err.line, 4);
    assert!(matches!(err.kind, ConfigErrorKind::MissingEquals));
    assert_eq!(err.message(), "invalid line format");
}

#[test]
fn unknown_section_fails_at_assignment_only() {
    assert!(parse_config("[weird]").is_ok());
    let err = parse_config("[weird]\nKEY=str").unwrap_err();
    assert_eq!(err.line, 2);
    assert!(matches!(err.kind, ConfigErrorKind::OutsideSection));
}

#[test]
fn sections_may_repeat_and_reset() {
    let config = parse_config("[required]\nA=str\n[optional]\nB=int\n[required]\nC=bool").unwrap();
    assert_eq!(config.required.get("A"), Some(VarType::Str));
    assert_eq!(config.required.get("C"), Some(VarType::Bool));
    assert_eq!(config.optional.get("B"), Some(VarType::Int));
}

#[test]
fn crlf_lines_parse_like_lf_lines() {
    let config = parse_config("[required]\r\nA=str\r\n").unwrap();
    assert_eq!(config.required.get("A"), Some(VarType::Str));
}

#[test]
fn integer_bounds_match_signed_64_bit() {
    assert!(VarType::Int.validate("+123"));
    assert!(VarType::Int.validate("9223372036854775807"));
    assert!(!VarType::Int.validate("9223372036854775808"));
    assert!(VarType::Int.validate("-9223372036854775808"));
    assert!(!VarType::Int.validate("-9223372036854775809"));
    assert!(!VarType::Int.validate("12 "));
    assert!(!VarType::Int.validate("+"));
    assert!(!VarType::Int.validate(""));
}

#[test]
fn float_literal_forms() {
    assert!(VarType::Float.validate("1e5"));
    assert!(VarType::Float.validate("-1.5E-3"));
    assert!(VarType::Float.validate(".5"));
    assert!(VarType::Float.validate("5."));
    assert!(VarType::Float.validate("inf"));
    assert!(VarType::Float.validate("-Infinity"));
    assert!(VarType::Float.validate("NaN"));
    assert!(!VarType::Float.validate("."));
    assert!(!VarType::Float.validate("1e"));
    assert!(!VarType::Float.validate("e5"));
    assert!(!VarType::Float.validate("1.2.3"));
    assert!(!VarType::Float.validate("--1"));
    assert!(!VarType::Float.validate(""));
}

#[test]
fn bool_is_case_sensitive() {
    assert!(!VarType::Bool.validate("True"));
    assert!(!VarType::Bool.validate("FALSE"));
    assert!(!VarType::Bool.validate(""));
}

#[test]
fn from_str_wrapped_tokens() {
    assert_eq!(VarType::from_str("  'bool'  "), Some(VarType::Bool));
    assert_eq!(VarType::from_str("\"float\""), Some(VarType::Float));
    assert_eq!(VarType::from_str("'str"), None);
    assert_eq!(VarType::from_str("\"int'"), None);
    assert_eq!(VarType::from_str("'invalid'"), None);
}

#[test]
fn as_str_gives_canonical_names() {
    assert_eq!(VarType::Str.as_str(), "str");
    assert_eq!(VarType::Int.as_str(), "int");
    assert_eq!(VarType::Float.as_str(), "float");
    assert_eq!(VarType::Bool.as_str(), "bool");
    assert_eq!(VarType::Any.as_str(), "any");
}

#[test]
fn violation_fields_carry_the_failure() {
    let config = schema_with_required("PORT", VarType::Int);
    let mut env = EnvMap::new();
    env.insert("PORT".to_string(), "abc".to_string());
    let violations = check(&config, &env);
    assert!(matches!(
        &violations[0],
        Violation::RequiredInvalid { key, value, expected: VarType::Int }
            if key == "PORT" && value == "abc"
    ));
}
