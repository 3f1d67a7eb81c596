use lom::package::{parse_manifest, Dependency, PkgError};

#[test]
fn parse_minimal_manifest() {
    let toml = r#"
name = "myapp"
version = "0.1.0"
"#;
    let m = parse_manifest(toml).unwrap();
    assert_eq!(m.name, "myapp");
    assert_eq!(m.version, "0.1.0");
    assert!(m.dependencies.is_empty());
}

#[test]
fn parse_manifest_with_path_dependency() {
    let toml = r#"
name = "myapp"
version = "0.1.0"

[dependencies]
lib = { path = "../lib" }
"#;
    let m = parse_manifest(toml).unwrap();
    assert_eq!(m.name, "myapp");
    assert_eq!(m.dependencies.len(), 1);
    let (dep_name, dep) = &m.dependencies[0];
    assert_eq!(dep_name, "lib");
    match dep {
        Dependency::Path(p) => assert_eq!(p, "../lib"),
    }
}

#[test]
fn parse_manifest_with_multiple_dependencies() {
    let toml = r#"
name = "app"
version = "1.0.0"

[dependencies]
lib = { path = "../lib" }
utils = { path = "../utils" }
"#;
    let m = parse_manifest(toml).unwrap();
    assert_eq!(m.dependencies.len(), 2);
    assert_eq!(m.dependencies[0].0, "lib");
    assert_eq!(m.dependencies[1].0, "utils");
}

#[test]
fn parse_manifest_missing_name_fails() {
    let toml = r#"version = "0.1.0""#;
    let err = parse_manifest(toml).unwrap_err();
    assert!(err.message().contains("PKG001"));
    assert!(err.message().contains("name"));
}

#[test]
fn parse_manifest_missing_version_fails() {
    let toml = r#"name = "app""#;
    let err = parse_manifest(toml).unwrap_err();
    assert!(err.message().contains("PKG001"));
    assert!(err.message().contains("version"));
}

#[test]
fn parse_manifest_supports_cargo_style_package_table() {
    // 支持 [package] 表头（cargo 风格）
    let toml = r#"
[package]
name = "app"
version = "0.2.0"

[dependencies]
lib = { path = "../lib" }
"#;
    let m = parse_manifest(toml).unwrap();
    assert_eq!(m.name, "app");
    assert_eq!(m.version, "0.2.0");
    assert_eq!(m.dependencies.len(), 1);
}

#[test]
fn parse_manifest_dependency_without_path_fails() {
    let toml = r#"
name = "app"
version = "0.1.0"

[dependencies]
lib = { version = "0.1.0" }
"#;
    let err = parse_manifest(toml).unwrap_err();
    assert!(err.message().contains("PKG001"));
    assert!(err.message().contains("path"));
}

#[test]
fn manifest_line_errors_and_ignored_tables() {
    let err = parse_manifest("name = \"a\"\n[deps\n").unwrap_err();
    assert_eq!(err.message(), "PKG001: 清单 'lom.toml' 解析失败: 第 2 行: 表头缺少 ']' 闭合");
    let err = parse_manifest("name = \"a\"\njunk\n").unwrap_err();
    assert_eq!(err.message(), "PKG001: 清单 'lom.toml' 解析失败: 第 2 行: 缺少 '=' 分隔符");
    let err = parse_manifest("dependencies = { lib = { path = \"x\" } }\n").unwrap_err();
    assert!(err.message().contains("第 1 行: dependencies 必须用 [dependencies] 表头声明"));
    let err = parse_manifest("name = app\n").unwrap_err();
    assert_eq!(err.message(), "PKG001: 清单 'lom.toml' 解析失败: 期望字符串值（双引号包裹）, 实际: app");
    let m = parse_manifest("# c\nname = \"a\"\nversion = \"1\"\nedition = 3\n[tool]\nx = y\n").unwrap();
    assert_eq!((m.name.as_str(), m.version.as_str()), ("a", "1"));
    let err = parse_manifest("name=\"a\"\nversion=\"1\"\n[dependencies]\nlib = \"../lib\"\n").unwrap_err();
    assert!(matches!(err, PkgError::ManifestRead { .. }));
    assert!(err.message().contains("依赖项必须是内联表 { path = \"...\" }, 实际: \"../lib\""));
    let err = parse_manifest("name=\"a\"\nversion=\"1\"\n[dependencies]\nlib = { path \"x\" }\n").unwrap_err();
    assert!(err.message().contains("依赖项 path 字段缺少 '='"));
    let m = parse_manifest("name=\"a\"\nversion=\"1\"\n[dependencies]\nlib = {path=\"../l\"}\n").unwrap();
    match &m.dependencies[0].1 {
        Dependency::Path(p) => assert_eq!(p, "../l"),
    }
}

#[test]
fn pkg_error_messages() {
    let e = PkgError::CircularDep { chain: vec!["a".to_string(), "b".to_string(), "a".to_string()] };
    assert_eq!(e.message(), "PKG003: 循环依赖: a -> b -> a");
    let e = PkgError::UnknownPackage { name: "x".to_string() };
    assert_eq!(e.message(), "PKG005: 未知包 'x'（未在 lom.toml dependencies 声明）");
    let e = PkgError::SymbolNotFound { pkg: "p".to_string(), symbol: "s".to_string() };
    assert_eq!(e.message(), "PKG006: 包 'p' 不导出符号 's'");
    let e = PkgError::PathNotFound { dep: "d".to_string(), path: "/x".to_string() };
    assert_eq!(e.message(), "PKG002: 依赖 'd' 路径不存在: /x");
    let e = PkgError::SourceParse { pkg: "p".to_string(), file: "f".to_string(), reason: "r".to_string() };
    assert_eq!(e.message(), "PKG004: 包 'p' 源码 'f' 解析失败: r");
}
