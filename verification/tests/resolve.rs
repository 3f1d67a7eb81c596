use lom::package::{parse_manifest, LoadOutcome, PkgError, ResolveAction, Resolver};
use std::collections::BTreeMap;

/// A file tree: directory -> manifest text, and directory -> (files, symbols).
struct Tree {
    manifests: BTreeMap<String, String>,
    sources: BTreeMap<String, (Vec<String>, Vec<String>)>,
}

fn join(dir: &str, rel: &str) -> String {
    let mut parts: Vec<&str> = dir.split('/').filter(|p| !p.is_empty()).collect();
    for p in rel.split('/') {
        if p == ".." {
            parts.pop();
        } else if !p.is_empty() && p != "." {
            parts.push(p);
        }
    }
    format!("/{}", parts.join("/"))
}

fn manifest(name: &str, deps: &[(&str, &str)]) -> String {
    let mut s = format!("name = \"{}\"\nversion = \"0.1.0\"\n", name);
    if !deps.is_empty() {
        s.push_str("\n[dependencies]\n");
        for (n, p) in deps {
            s.push_str(&format!("{} = {{ path = \"{}\" }}\n", n, p));
        }
    }
    s
}

/// Runs the walk against the tree, doing the outside work the walk asks for.
fn run(tree: &Tree, root: &str) -> Result<lom::package::DependencyGraph, PkgError> {
    let root_manifest = parse_manifest(&tree.manifests[root]).unwrap();
    let mut r = Resolver::new(root_manifest, root.to_string());
    loop {
        match r.advance() {
            ResolveAction::Load { name: _, dir, rel } => {
                let dep = join(&dir, &rel);
                let toml = format!("{}/lom.toml", dep);
                let outcome = match tree.manifests.get(&dep) {
                    None => LoadOutcome::PathMissing { path: dep },
                    Some(content) => LoadOutcome::Read { dir: dep, path: toml, content: content.clone() },
                };
                if let Some(e) = r.loaded(outcome) {
                    return Err(e);
                }
            }
            ResolveAction::Collect { name: _, dir } => {
                let (files, symbols) = tree.sources.get(&dir).cloned().unwrap_or_default();
                r.collected(files, symbols);
            }
            ResolveAction::Finished => return Ok(r.into_graph()),
            ResolveAction::Failed(e) => return Err(e),
        }
    }
}

fn tree(entries: &[(&str, String, &[&str])]) -> Tree {
    let mut manifests = BTreeMap::new();
    let mut sources = BTreeMap::new();
    for (dir, m, syms) in entries {
        manifests.insert(dir.to_string(), m.clone());
        let files = vec![format!("{}/src.lom", dir)];
        sources.insert(dir.to_string(), (files, syms.iter().map(|s| s.to_string()).collect()));
    }
    Tree { manifests, sources }
}

#[test]
fn resolve_single_dependency_by_steps() {
    let t = tree(&[
        ("/p", manifest("app", &[("lib", "lib")]), &[]),
        ("/p/lib", manifest("lib", &[]), &["add"]),
    ]);
    let g = run(&t, "/p").unwrap();
    assert_eq!(g.packages.len(), 1);
    let pkg = g.get_package("lib").unwrap();
    assert!(pkg.public_symbols.contains(&"add".to_string()));
    assert_eq!(pkg.source_files.len(), 1);
    assert_eq!(pkg.root, "/p/lib");
    assert!(g.get_package("unknown").is_none());
}

#[test]
fn resolve_nested_dependencies_by_steps() {
    let t = tree(&[
        ("/p", manifest("app", &[("a", "a")]), &[]),
        ("/p/a", manifest("a", &[("b", "b")]), &["func_a"]),
        ("/p/a/b", manifest("b", &[]), &["func_b"]),
    ]);
    let g = run(&t, "/p").unwrap();
    assert_eq!(g.packages.len(), 2);
    // b is resolved before a, which depends on it
    assert_eq!(g.packages[0].name, "b");
    assert_eq!(g.packages[1].name, "a");
    assert!(g.get_package("a").unwrap().public_symbols.contains(&"func_a".to_string()));
    assert!(g.get_package("b").unwrap().public_symbols.contains(&"func_b".to_string()));
}

#[test]
fn resolve_circular_dependency_reports_chain() {
    let t = tree(&[
        ("/p", manifest("app", &[("a", "a")]), &[]),
        ("/p/a", manifest("a", &[("b", "b")]), &[]),
        ("/p/a/b", manifest("b", &[("a", "../../a")]), &[]),
    ]);
    let e = run(&t, "/p").unwrap_err();
    match &e {
        PkgError::CircularDep { chain } => assert_eq!(chain, &vec!["a".to_string(), "b".to_string(), "a".to_string()]),
        _ => panic!("expected a cycle"),
    }
    assert!(e.message().contains("PKG003"));
    assert!(e.message().contains("循环"));
    assert_eq!(e.message(), "PKG003: 循环依赖: a -> b -> a");
}

#[test]
fn resolve_missing_path_by_steps() {
    let t = tree(&[("/p", manifest("app", &[("nonexistent", "does_not_exist")]), &[])]);
    let e = run(&t, "/p").unwrap_err();
    assert!(e.message().contains("PKG002"));
    assert_eq!(e.message(), "PKG002: 依赖 'nonexistent' 路径不存在: /p/does_not_exist");
}

#[test]
fn resolve_name_mismatch_by_steps() {
    let t = tree(&[
        ("/p", manifest("app", &[("lib", "libdir")]), &[]),
        ("/p/libdir", manifest("different_name", &[]), &[]),
    ]);
    let e = run(&t, "/p").unwrap_err();
    assert!(e.message().contains("PKG001"));
    assert!(e.message().contains("不一致"));
    assert_eq!(
        e.message(),
        "PKG001: 清单 '/p/libdir/lom.toml' 解析失败: 依赖键名 'lib' 与清单 name 'different_name' 不一致"
    );
}

#[test]
fn resolve_shared_dependency_once() {
    let t = tree(&[
        ("/p", manifest("app", &[("a", "a"), ("b", "b")]), &[]),
        ("/p/a", manifest("a", &[("c", "../c")]), &[]),
        ("/p/b", manifest("b", &[("c", "../c")]), &[]),
        ("/p/c", manifest("c", &[]), &["shared"]),
    ]);
    let g = run(&t, "/p").unwrap();
    let names: Vec<&str> = g.packages.iter().map(|p| p.name.as_str()).collect();
    assert_eq!(names, vec!["c", "a", "b"]);
}

#[test]
fn resolve_reports_missing_and_unreadable_manifests() {
    let m = parse_manifest(&manifest("app", &[("lib", "lib")])).unwrap();
    let mut r = Resolver::new(m, "/p".to_string());
    assert!(matches!(r.advance(), ResolveAction::Load { .. }));
    let e = r.loaded(LoadOutcome::ManifestMissing { path: "/p/lib/lom.toml".to_string() }).unwrap();
    assert_eq!(e.message(), "PKG001: 清单 '/p/lib/lom.toml' 解析失败: 依赖 'lib' 的清单文件不存在");
    let e = r
        .loaded(LoadOutcome::ReadFailed { path: "/p/lib/lom.toml".to_string(), reason: "denied".to_string() })
        .unwrap();
    assert_eq!(e.message(), "PKG001: 清单 '/p/lib/lom.toml' 解析失败: denied");
    let e = r
        .loaded(LoadOutcome::Read {
            dir: "/p/lib".to_string(),
            path: "/p/lib/lom.toml".to_string(),
            content: "version = \"1\"".to_string(),
        })
        .unwrap();
    assert_eq!(e.message(), "PKG001: 清单 'lom.toml' 解析失败: 缺少必填字段 'name'");
}

#[test]
fn resolve_root_without_dependencies_finishes_at_once() {
    let m = parse_manifest(&manifest("app", &[])).unwrap();
    let mut r = Resolver::new(m, "/p".to_string());
    assert!(r.is_finished());
    assert!(matches!(r.advance(), ResolveAction::Finished));
    let g = r.into_graph();
    assert!(g.packages.is_empty());
    assert_eq!(g.root_manifest.name, "app");
    assert_eq!(g.root_path, "/p");
}
