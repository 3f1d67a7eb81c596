use lom::builtins::{is_known_builtin, module_of};

#[test]
fn builtin_modules() {
    assert_eq!(module_of("println"), Some("io"));
    assert_eq!(module_of("ends_with"), Some("string"));
    assert_eq!(module_of("max"), Some("math"));
    assert_eq!(module_of("list_cons"), Some("list"));
    assert_eq!(module_of("json_parse"), Some("json"));
    assert_eq!(module_of("file_exists"), Some("file"));
    assert_eq!(module_of("args"), Some("env"));
    assert_eq!(module_of("printline"), None);
    assert!(is_known_builtin("sqrt"));
    assert!(!is_known_builtin("main"));
}
