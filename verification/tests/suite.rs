use assert_env::schema::parse_config;
use assert_env::tokenize::split_args;
use assert_env::vartype::VarType;

#[test]
fn test_from_str() {
    assert_eq!(VarType::from_str("str"), Some(VarType::Str));
    assert_eq!(VarType::from_str("\"str\""), Some(VarType::Str));
    assert_eq!(VarType::from_str("'int'"), Some(VarType::Int));
    assert_eq!(VarType::from_str("  float  "), Some(VarType::Float));
    assert_eq!(VarType::from_str("\"any\""), Some(VarType::Any));
    assert_eq!(VarType::from_str("invalid"), None);
    assert_eq!(VarType::from_str(""), None);
}

#[test]
fn test_parse_config_valid() {
    let content = "
[required]
KEY1=\"str\"  # some comment
KEY2 = 'int'

[optional]
  KEY3=float
KEY4=any
KEY5=bool
";
    let config = parse_config(content).unwrap();
    assert_eq!(config.required.get("KEY1"), Some(VarType::Str));
    assert_eq!(config.required.get("KEY2"), Some(VarType::Int));
    assert_eq!(config.optional.get("KEY3"), Some(VarType::Float));
    assert_eq!(config.optional.get("KEY4"), Some(VarType::Any));
    assert_eq!(config.optional.get("KEY5"), Some(VarType::Bool));
}

#[test]
fn test_parse_config_errors() {
    assert!(
        parse_config("KEY=str").is_err(),
        "Assignment without section should fail"
    );
    assert!(
        parse_config("[required]\nKEY=invalid").is_err(),
        "Invalid type should fail"
    );
    assert!(
        parse_config("[optional]\nINVALID_LINE").is_err(),
        "Missing equals sign should fail"
    );
    assert!(
        parse_config("[unknown]\nKEY=str").is_err(),
        "Assignment in unknown section should fail"
    );
}

#[test]
fn test_validate() {
    // String
    assert!(VarType::Str.validate("hello"));
    assert!(!VarType::Str.validate(""));

    // Integer
    assert!(VarType::Int.validate("123"));
    assert!(VarType::Int.validate("-123"));
    assert!(VarType::Int.validate("0"));
    assert!(!VarType::Int.validate("12.3")); // Should fail since it's a float
    assert!(!VarType::Int.validate("abc"));

    // Float
    assert!(VarType::Float.validate("1.23"));
    assert!(VarType::Float.validate("-1.23"));
    assert!(VarType::Float.validate("0.0"));
    assert!(VarType::Float.validate("123")); // Valid float
    assert!(!VarType::Float.validate("abc"));
    assert!(VarType::Bool.validate("true"));
    assert!(VarType::Bool.validate("false"));
    assert!(!VarType::Bool.validate("1"));
    assert!(!VarType::Bool.validate("yes"));

    // Any
    assert!(VarType::Any.validate(""));
    assert!(VarType::Any.validate("anything"));
}

#[test]
fn test_parse_config_with_quotes() {
    let content = r#"
[required]
DB_HOST = "str"
DB_PORT = 'int'
DB_USER = "'any'"
DB_PASS = '"any"'
"#;
    let config = parse_config(content);
    assert!(
        config.is_ok(),
        "Config parsing failed for quoted values: {:?}",
        config.err()
    );
    let config = config.unwrap();
    assert_eq!(config.required.get("DB_HOST"), Some(VarType::Str));
    assert_eq!(config.required.get("DB_PORT"), Some(VarType::Int));
    assert_eq!(config.required.get("DB_USER"), Some(VarType::Any));
    assert_eq!(config.required.get("DB_PASS"), Some(VarType::Any));
}

#[test]
fn test_split_args() {
    assert_eq!(split_args("echo hello"), vec!["echo", "hello"]);
    assert_eq!(
        split_args("echo 'hello world'"),
        vec!["echo", "hello world"]
    );
    assert_eq!(
        split_args("echo \"hello world\""),
        vec!["echo", "hello world"]
    );
    assert_eq!(
        split_args("echo \"hello\"world"),
        vec!["echo", "helloworld"]
    );
    assert_eq!(
        split_args("echo hello   world"),
        vec!["echo", "hello", "world"]
    );
    assert_eq!(split_args(""), Vec::<String>::new());
    assert_eq!(
        split_args("echo \"hello 'world'\""),
        vec!["echo", "hello 'world'"]
    );
    assert_eq!(
        split_args("echo 'hello \"world\"'"),
        vec!["echo", "hello \"world\""]
    );
    assert_eq!(split_args("   echo   hello   "), vec!["echo", "hello"]);
}
