//! Package manifests (`lom.toml`): a minimal TOML reading of the package
//! name, version and local path dependencies, and the package errors.
use vstd::prelude::*;
use crate::ast::{EnumVariantDecl, Item, Program};
use crate::text::{
    chars_eq_lit, chars_of, dec, find_char, find_char_from, find_sub, find_sub_from, join_strs, join_with, lines,
    lines_of, push_chars, push_lit, push_usize, rfind_char, rfind_char_before, slice_chars, str_view, string_of,
    trim, trim_chars,
};

verus! {

/// Package errors, each with its `PKG` code.
#[derive(Debug)]
pub enum PkgError {
    /// PKG001: a manifest could not be read or parsed.
    ManifestRead { path: String, reason: String },
    /// PKG002: a dependency path does not exist.
    PathNotFound { dep: String, path: String },
    /// PKG003: a dependency cycle.
    CircularDep { chain: Vec<String> },
    /// PKG004: a package source does not parse.
    SourceParse { pkg: String, file: String, reason: String },
    /// PKG005: an import names a package that is not a dependency.
    UnknownPackage { name: String },
    /// PKG006: a package does not export the symbol asked for.
    SymbolNotFound { pkg: String, symbol: String },
}

/// The message of an error.
pub open spec fn pkg_error_text(e: PkgError) -> Seq<char> {
    match e {
        PkgError::ManifestRead { path, reason } => "PKG001: 清单 '"@ + path@ + "' 解析失败: "@ + reason@,
        PkgError::PathNotFound { dep, path } => "PKG002: 依赖 '"@ + dep@ + "' 路径不存在: "@ + path@,
        PkgError::CircularDep { chain } => "PKG003: 循环依赖: "@ + join_with(chain@, |s: String| str_view(s), " -> "@),
        PkgError::SourceParse { pkg, file, reason } => "PKG004: 包 '"@ + pkg@ + "' 源码 '"@ + file@ + "' 解析失败: "@
            + reason@,
        PkgError::UnknownPackage { name } => "PKG005: 未知包 '"@ + name@ + "'（未在 lom.toml dependencies 声明）"@,
        PkgError::SymbolNotFound { pkg, symbol } => "PKG006: 包 '"@ + pkg@ + "' 不导出符号 '"@ + symbol@ + "'"@,
    }
}

impl PkgError {
    /// The error's message, starting with its code.
    pub fn message(&self) -> (r: String)
        ensures
            r@ == pkg_error_text(*self),
    {
        let mut out: Vec<char>;
        match self {
            PkgError::ManifestRead { path, reason } => {
                out = chars_of("PKG001: 清单 '");
                push_lit(&mut out, path.as_str());
                push_lit(&mut out, "' 解析失败: ");
                push_lit(&mut out, reason.as_str());
            },
            PkgError::PathNotFound { dep, path } => {
                out = chars_of("PKG002: 依赖 '");
                push_lit(&mut out, dep.as_str());
                push_lit(&mut out, "' 路径不存在: ");
                push_lit(&mut out, path.as_str());
            },
            PkgError::CircularDep { chain } => {
                out = chars_of("PKG003: 循环依赖: ");
                let j = join_strs(chain, " -> ");
                push_chars(&mut out, &j);
            },
            PkgError::SourceParse { pkg, file, reason } => {
                out = chars_of("PKG004: 包 '");
                push_lit(&mut out, pkg.as_str());
                push_lit(&mut out, "' 源码 '");
                push_lit(&mut out, file.as_str());
                push_lit(&mut out, "' 解析失败: ");
                push_lit(&mut out, reason.as_str());
            },
            PkgError::UnknownPackage { name } => {
                out = chars_of("PKG005: 未知包 '");
                push_lit(&mut out, name.as_str());
                push_lit(&mut out, "'（未在 lom.toml dependencies 声明）");
            },
            PkgError::SymbolNotFound { pkg, symbol } => {
                out = chars_of("PKG006: 包 '");
                push_lit(&mut out, pkg.as_str());
                push_lit(&mut out, "' 不导出符号 '");
                push_lit(&mut out, symbol.as_str());
                push_lit(&mut out, "'");
            },
        }
        string_of(&out)
    }
}

/// A dependency: a local path, relative to the manifest's directory.
#[derive(Debug, Clone)]
pub enum Dependency {
    Path(String),
}

/// A parsed `lom.toml`.
#[derive(Debug, Clone)]
pub struct PackageManifest {
    pub name: String,
    pub version: String,
    /// In declaration order.
    pub dependencies: Vec<(String, Dependency)>,
}

pub struct ManifestView {
    pub name: Seq<char>,
    pub version: Seq<char>,
    pub dependencies: Seq<(Seq<char>, Seq<char>)>,
}

pub open spec fn dep_view(d: (String, Dependency)) -> (Seq<char>, Seq<char>) {
    match d.1 {
        Dependency::Path(p) => (d.0@, p@),
    }
}

impl View for PackageManifest {
    type V = ManifestView;

    open spec fn view(&self) -> ManifestView {
        ManifestView {
            name: self.name@,
            version: self.version@,
            dependencies: self.dependencies@.map_values(|d: (String, Dependency)| dep_view(d)),
        }
    }
}

// ===== the manifest language =====

/// A quoted TOML string value: its contents, or the reason it is not one.
pub open spec fn toml_string(s: Seq<char>) -> Result<Seq<char>, Seq<char>> {
    let t = trim(s);
    if t.len() < 2 || t[0] != '"' || t[t.len() - 1] != '"' {
        Err("期望字符串值（双引号包裹）, 实际: "@ + t)
    } else {
        Ok(t.subrange(1, t.len() - 1))
    }
}

/// An inline dependency table `{ path = "..." }`: the path, or the reason.
pub open spec fn inline_dependency(s: Seq<char>) -> Result<Seq<char>, Seq<char>> {
    let t = trim(s);
    if t.len() == 0 || t[0] != '{' || t[t.len() - 1] != '}' {
        Err("依赖项必须是内联表 { path = \"...\" }, 实际: "@ + t)
    } else {
        let inner = t.subrange(1, t.len() - 1);
        match find_sub_from(inner, "path"@, 0) {
            None => Err("依赖项缺少 'path' 字段, 实际: "@ + t),
            Some(p) => {
                let after = inner.subrange(p + 4, inner.len() as int);
                match find_char_from(after, '=', 0) {
                    None => Err("依赖项 path 字段缺少 '=', 实际: "@ + t),
                    Some(e) => toml_string(after.subrange(e + 1, after.len() as int)),
                }
            },
        }
    }
}

/// What has been read so far: name, version, dependencies, current table.
pub struct ManifestState {
    pub name: Option<Seq<char>>,
    pub version: Option<Seq<char>>,
    pub deps: Seq<(Seq<char>, Seq<char>)>,
    pub section: Seq<char>,
}

/// A reason tied to 1-based line `k + 1`.
pub open spec fn line_reason(k: int, msg: Seq<char>) -> Seq<char> {
    "第 "@ + dec((k + 1) as nat) + " 行: "@ + msg
}

/// A `name` or `version` key in the root or `[package]` table.
pub open spec fn set_field(st: ManifestState, key: Seq<char>, value: Seq<char>) -> Result<ManifestState, Seq<char>> {
    if key == "name"@ {
        match toml_string(value) {
            Ok(v) => Ok(ManifestState { name: Some(v), ..st }),
            Err(e) => Err(e),
        }
    } else if key == "version"@ {
        match toml_string(value) {
            Ok(v) => Ok(ManifestState { version: Some(v), ..st }),
            Err(e) => Err(e),
        }
    } else {
        Ok(st)
    }
}

/// Reading line `k` (0-based): blank and `#` lines are skipped, `[table]`
/// switches table, `key = value` is read by the current table's rules.
pub open spec fn manifest_step(raw: Seq<char>, k: int, st: ManifestState) -> Result<ManifestState, Seq<char>> {
    let line = trim(raw);
    if line.len() == 0 || line[0] == '#' {
        Ok(st)
    } else if line[0] == '[' {
        match rfind_char_before(line, ']', line.len() as int) {
            None => Err(line_reason(k, "表头缺少 ']' 闭合"@)),
            Some(end) => Ok(ManifestState { section: trim(line.subrange(1, end)), ..st }),
        }
    } else {
        match find_char_from(line, '=', 0) {
            None => Err(line_reason(k, "缺少 '=' 分隔符"@)),
            Some(eq) => {
                let key = trim(line.subrange(0, eq));
                let value = trim(line.subrange(eq + 1, line.len() as int));
                if st.section.len() == 0 {
                    if key == "dependencies"@ {
                        Err(line_reason(k, "dependencies 必须用 [dependencies] 表头声明，不能用内联表"@))
                    } else {
                        set_field(st, key, value)
                    }
                } else if st.section == "dependencies"@ {
                    match inline_dependency(value) {
                        Ok(p) => Ok(ManifestState { deps: st.deps.push((key, p)), ..st }),
                        Err(e) => Err(e),
                    }
                } else if st.section == "package"@ {
                    set_field(st, key, value)
                } else {
                    Ok(st)
                }
            },
        }
    }
}

/// Reading lines `k..` from state `st`.
pub open spec fn manifest_from(ls: Seq<Seq<char>>, k: int, st: ManifestState) -> Result<ManifestState, Seq<char>>
    decreases ls.len() - k,
{
    if k < 0 || k >= ls.len() {
        Ok(st)
    } else {
        match manifest_step(ls[k], k, st) {
            Ok(next) => manifest_from(ls, k + 1, next),
            Err(e) => Err(e),
        }
    }
}

pub open spec fn empty_manifest_state() -> ManifestState {
    ManifestState { name: None, version: None, deps: Seq::empty(), section: Seq::empty() }
}

/// A manifest text read: the manifest, or the reason it was refused (the
/// error is `ManifestRead` with path `lom.toml` and this reason).
pub open spec fn manifest_of(content: Seq<char>) -> Result<ManifestView, Seq<char>> {
    match manifest_from(lines(content), 0, empty_manifest_state()) {
        Err(e) => Err(e),
        Ok(st) => match (st.name, st.version) {
            (None, _) => Err("缺少必填字段 'name'"@),
            (Some(_), None) => Err("缺少必填字段 'version'"@),
            (Some(n), Some(v)) => Ok(ManifestView { name: n, version: v, dependencies: st.deps }),
        },
    }
}


fn parse_toml_string(s: &[char]) -> (r: Result<Vec<char>, Vec<char>>)
    ensures
        match toml_string(s@) {
            Ok(v) => r matches Ok(x) && x@ == v,
            Err(e) => r matches Err(x) && x@ == e,
        },
{
    let t = trim_chars(s);
    if t.len() < 2 || t[0] != '"' || t[t.len() - 1] != '"' {
        let mut m = chars_of("期望字符串值（双引号包裹）, 实际: ");
        push_chars(&mut m, &t);
        return Err(m);
    }
    Ok(slice_chars(&t, 1, t.len() - 1))
}

fn parse_inline_dependency(s: &[char]) -> (r: Result<Vec<char>, Vec<char>>)
    ensures
        match inline_dependency(s@) {
            Ok(v) => r matches Ok(x) && x@ == v,
            Err(e) => r matches Err(x) && x@ == e,
        },
{
    let t = trim_chars(s);
    if t.len() == 0 || t[0] != '{' || t[t.len() - 1] != '}' {
        let mut m = chars_of("依赖项必须是内联表 { path = \"...\" }, 实际: ");
        push_chars(&mut m, &t);
        return Err(m);
    }
    let inner = slice_chars(&t, 1, t.len() - 1);
    let key = chars_of("path");
    let p = match find_sub(&inner, &key, 0) {
        Some(p) => p,
        None => {
            let mut m = chars_of("依赖项缺少 'path' 字段, 实际: ");
            push_chars(&mut m, &t);
            return Err(m);
        },
    };
    proof {
        crate::fix_history::lemma_find_in_bounds(inner@, key@, 0);
        reveal_strlit("path");
    }
    assert(inner@.len() == inner.len());
    let after = slice_chars(&inner, p + 4, inner.len());
    let e = match find_char(&after, '=', 0) {
        Some(e) => e,
        None => {
            let mut m = chars_of("依赖项 path 字段缺少 '=', 实际: ");
            push_chars(&mut m, &t);
            return Err(m);
        },
    };
    proof {
        lemma_find_char_bound(after@, '=', 0);
    }
    let value = slice_chars(&after, e + 1, after.len());
    parse_toml_string(&value)
}

proof fn lemma_find_char_bound(s: Seq<char>, c: char, i: int)
    ensures
        find_char_from(s, c, i) matches Some(k) ==> i <= k < s.len() && s[k] == c,
    decreases s.len() - i,
{
    if 0 <= i < s.len() && s[i] != c {
        lemma_find_char_bound(s, c, i + 1);
    }
}

proof fn lemma_rfind_char_bound(s: Seq<char>, c: char, i: int)
    ensures
        rfind_char_before(s, c, i) matches Some(k) ==> 0 <= k < i && s[k] == c,
    decreases i,
{
    if 0 < i <= s.len() && s[i - 1] != c {
        lemma_rfind_char_bound(s, c, i - 1);
    }
}

/// Exec state of the manifest reader.
struct Reading {
    name: Option<Vec<char>>,
    version: Option<Vec<char>>,
    deps: Vec<(String, Dependency)>,
    section: Vec<char>,
}

spec fn opt_chars(o: Option<Vec<char>>) -> Option<Seq<char>> {
    match o {
        Some(v) => Some(v@),
        None => None,
    }
}

spec fn reading_view(r: Reading) -> ManifestState {
    ManifestState {
        name: opt_chars(r.name),
        version: opt_chars(r.version),
        deps: r.deps@.map_values(|d: (String, Dependency)| dep_view(d)),
        section: r.section@,
    }
}

fn set_field_exec(st: &mut Reading, key: &[char], value: &[char]) -> (r: Result<(), Vec<char>>)
    ensures
        match set_field(reading_view(*old(st)), key@, value@) {
            Ok(next) => r is Ok && reading_view(*final(st)) == next,
            Err(e) => r matches Err(x) && x@ == e,
        },
{
    if chars_eq_lit(key, "name") {
        match parse_toml_string(value) {
            Ok(v) => {
                st.name = Some(v);
                Ok(())
            },
            Err(e) => Err(e),
        }
    } else if chars_eq_lit(key, "version") {
        match parse_toml_string(value) {
            Ok(v) => {
                st.version = Some(v);
                Ok(())
            },
            Err(e) => Err(e),
        }
    } else {
        Ok(())
    }
}

fn line_reason_exec(k: usize, msg: &str) -> (r: Vec<char>)
    requires
        k < usize::MAX,
    ensures
        r@ == line_reason(k as int, msg@),
{
    let mut m = chars_of("第 ");
    push_usize(&mut m, k + 1);
    push_lit(&mut m, " 行: ");
    push_lit(&mut m, msg);
    m
}

fn manifest_step_exec(raw: &[char], k: usize, st: &mut Reading) -> (r: Result<(), Vec<char>>)
    requires
        k < usize::MAX,
    ensures
        match manifest_step(raw@, k as int, reading_view(*old(st))) {
            Ok(next) => r is Ok && reading_view(*final(st)) == next,
            Err(e) => r matches Err(x) && x@ == e,
        },
{
    let line = trim_chars(raw);
    if line.len() == 0 || line[0] == '#' {
        return Ok(());
    }
    if line[0] == '[' {
        match rfind_char(&line, ']', line.len()) {
            None => {
                return Err(line_reason_exec(k, "表头缺少 ']' 闭合"));
            },
            Some(end) => {
                proof {
                    lemma_rfind_char_bound(line@, ']', line@.len() as int);
                }
                let inside = slice_chars(&line, 1, end);
                st.section = trim_chars(&inside);
                return Ok(());
            },
        }
    }
    let eq = match find_char(&line, '=', 0) {
        Some(eq) => eq,
        None => {
            return Err(line_reason_exec(k, "缺少 '=' 分隔符"));
        },
    };
    proof {
        lemma_find_char_bound(line@, '=', 0);
    }
    let kpart = slice_chars(&line, 0, eq);
    let key = trim_chars(&kpart);
    let vpart = slice_chars(&line, eq + 1, line.len());
    let value = trim_chars(&vpart);
    if st.section.len() == 0 {
        if chars_eq_lit(&key, "dependencies") {
            Err(line_reason_exec(k, "dependencies 必须用 [dependencies] 表头声明，不能用内联表"))
        } else {
            set_field_exec(st, &key, &value)
        }
    } else if chars_eq_lit(&st.section, "dependencies") {
        match parse_inline_dependency(&value) {
            Ok(p) => {
                let ghost before = st.deps@;
                st.deps.push((string_of(&key), Dependency::Path(string_of(&p))));
                proof {
                    assert(st.deps@.map_values(|d: (String, Dependency)| dep_view(d)) == before.map_values(
                        |d: (String, Dependency)| dep_view(d),
                    ).push((key@, p@)));
                }
                Ok(())
            },
            Err(e) => Err(e),
        }
    } else if chars_eq_lit(&st.section, "package") {
        set_field_exec(st, &key, &value)
    } else {
        Ok(())
    }
}

fn manifest_error(reason: Vec<char>) -> (e: PkgError)
    ensures
        e matches PkgError::ManifestRead { path, reason: r } && path@ == "lom.toml"@ && r@ == reason@,
{
    let path = chars_of("lom.toml");
    PkgError::ManifestRead { path: string_of(&path), reason: string_of(&reason) }
}

/// Reads a `lom.toml`: `name` and `version` (in the root table or under
/// `[package]`) and the `[dependencies]` entries `pkg = { path = "..." }`.
pub fn parse_manifest(content: &str) -> (r: Result<PackageManifest, PkgError>)
    ensures
        match manifest_of(content@) {
            Ok(v) => r matches Ok(m) && m@ == v,
            Err(reason) => r matches Err(PkgError::ManifestRead { path, reason: rr }) && path@ == "lom.toml"@
                && rr@ == reason,
        },
{
    let chars = chars_of(content);
    let ls = lines_of(&chars);
    let ghost lv = lines(content@);
    let mut st = Reading { name: None, version: None, deps: Vec::new(), section: Vec::new() };
    proof {
        assert(reading_view(st).deps =~= Seq::<(Seq<char>, Seq<char>)>::empty());
        assert(reading_view(st).section =~= Seq::<char>::empty());
        assert(reading_view(st) == empty_manifest_state());
    }
    let mut k: usize = 0;
    while k < ls.len()
        invariant
            k <= ls@.len(),
            ls@.len() == lv.len(),
            lv == lines(content@),
            forall|m: int| 0 <= m < ls@.len() ==> #[trigger] ls@[m]@ == lv[m],
            manifest_from(lv, 0, empty_manifest_state()) == manifest_from(lv, k as int, reading_view(st)),
        decreases ls@.len() - k,
    {
        assert(ls@[k as int]@ == lv[k as int]);
        let ghost before = reading_view(st);
        match manifest_step_exec(&ls[k], k, &mut st) {
            Ok(()) => {},
            Err(e) => {
                assert(manifest_from(lv, k as int, before) == Err::<ManifestState, Seq<char>>(e@));
                return Err(manifest_error(e));
            },
        }
        k += 1;
    }
    let name = match st.name {
        Some(n) => n,
        None => {
            return Err(manifest_error(chars_of("缺少必填字段 'name'")));
        },
    };
    let version = match st.version {
        Some(v) => v,
        None => {
            return Err(manifest_error(chars_of("缺少必填字段 'version'")));
        },
    };
    Ok(PackageManifest { name: string_of(&name), version: string_of(&version), dependencies: st.deps })
}


// ===== dependency resolution =====

/// A resolved dependency: its manifest, its directory, its source files and
/// the names it makes public (top-level functions, enums and their variants).
#[derive(Debug)]
pub struct ResolvedPackage {
    pub name: String,
    /// The package's directory (where its `lom.toml` is).
    pub root: String,
    pub manifest: PackageManifest,
    /// The `.lom` files of the package directory, in order.
    pub source_files: Vec<String>,
    pub public_symbols: Vec<String>,
}

/// The root project and every dependency resolved from it, each after the
/// packages it depends on.
#[derive(Debug)]
pub struct DependencyGraph {
    pub root_manifest: PackageManifest,
    pub root_path: String,
    pub packages: Vec<ResolvedPackage>,
}

pub open spec fn package_names(ps: Seq<ResolvedPackage>) -> Seq<Seq<char>> {
    ps.map_values(|p: ResolvedPackage| p.name@)
}

/// No name twice, and every package after all the packages it depends on.
pub open spec fn resolved_in_order(ps: Seq<ResolvedPackage>) -> bool {
    &&& forall|i: int, j: int| 0 <= i < j < ps.len() ==> ps[i].name@ != ps[j].name@
    &&& forall|i: int, k: int|
        0 <= i < ps.len() && 0 <= k < ps[i].manifest@.dependencies.len() ==> package_names(ps.take(i)).contains(
            #[trigger] ps[i].manifest@.dependencies[k].0,
        )
}

impl DependencyGraph {
    /// The resolved dependency of that name.
    pub fn get_package(&self, name: &str) -> (r: Option<&ResolvedPackage>)
        ensures
            match r {
                Some(p) => p.name@ == name@ && exists|i: int| 0 <= i < self.packages@.len() && self.packages@[i] == *p,
                None => !package_names(self.packages@).contains(name@),
            },
    {
        let key = crate::text::owned(name);
        let mut i: usize = 0;
        while i < self.packages.len()
            invariant
                i <= self.packages@.len(),
                key@ == name@,
                forall|j: int| 0 <= j < i ==> self.packages@[j].name@ != name@,
            decreases self.packages@.len() - i,
        {
            if self.packages[i].name == key {
                return Some(&self.packages[i]);
            }
            i += 1;
        }
        proof {
            if package_names(self.packages@).contains(name@) {
                let j = choose|j: int| 0 <= j < package_names(self.packages@).len() && package_names(self.packages@)[j] == name@;
                assert(self.packages@[j].name@ == name@);
            }
        }
        None
    }
}

/// A package whose dependencies are being resolved.
pub struct Frame {
    name: String,
    dir: String,
    manifest: PackageManifest,
    /// The dependency being worked on; those before it are resolved.
    next: usize,
}

pub struct FrameView {
    pub name: Seq<char>,
    pub dir: Seq<char>,
    pub deps: Seq<(Seq<char>, Seq<char>)>,
    pub next: int,
}

pub closed spec fn frame_view(f: Frame) -> FrameView {
    FrameView { name: f.name@, dir: f.dir@, deps: f.manifest@.dependencies, next: f.next as int }
}

/// Dependency resolution, a depth-first walk from the root project that
/// stops at the first cycle. The walk asks for the outside work it needs
/// (loading a dependency's manifest, collecting its sources) and is told the
/// outcome.
pub struct Resolver {
    frames: Vec<Frame>,
    packages: Vec<ResolvedPackage>,
    root_path: String,
}

/// What the walk needs next.
pub enum ResolveAction {
    /// Load the manifest of dependency `name`, at path `rel` relative to
    /// `dir`; answer with `Resolver::loaded`.
    Load { name: String, dir: String, rel: String },
    /// Collect the sources and public names of package `name` in `dir`;
    /// answer with `Resolver::collected`.
    Collect { name: String, dir: String },
    /// All dependencies are resolved: take the graph with `Resolver::into_graph`.
    Finished,
    Failed(PkgError),
}

/// What loading a dependency found.
pub enum LoadOutcome {
    /// The dependency's directory does not exist.
    PathMissing { path: String },
    /// The directory has no `lom.toml`.
    ManifestMissing { path: String },
    /// The `lom.toml` could not be read.
    ReadFailed { path: String, reason: String },
    /// The directory and the text of its `lom.toml`.
    Read { dir: String, path: String, content: String },
}

/// Where the walk goes on in a frame: the first dependency from `k` on that
/// closes a cycle or is not resolved yet.
pub enum Scan {
    Cycle(int),
    Load(int),
    Exhausted,
}

pub open spec fn scan(deps: Seq<(Seq<char>, Seq<char>)>, k: int, chain: Seq<Seq<char>>, done: Seq<Seq<char>>) -> Scan
    decreases deps.len() - k,
{
    if k < 0 || k >= deps.len() {
        Scan::Exhausted
    } else if chain.contains(deps[k].0) {
        Scan::Cycle(k)
    } else if done.contains(deps[k].0) {
        scan(deps, k + 1, chain, done)
    } else {
        Scan::Load(k)
    }
}

impl Resolver {
    pub closed spec fn frames_view(&self) -> Seq<FrameView> {
        self.frames@.map_values(|f: Frame| frame_view(f))
    }

    /// The packages being resolved, outermost first (the root is not one).
    pub closed spec fn chain(&self) -> Seq<Seq<char>> {
        self.frames@.subrange(1, self.frames@.len() as int).map_values(|f: Frame| f.name@)
    }

    pub closed spec fn done(&self) -> Seq<Seq<char>> {
        package_names(self.packages@)
    }

    pub closed spec fn resolved(&self) -> Seq<ResolvedPackage> {
        self.packages@
    }

    pub closed spec fn top(&self) -> FrameView {
        frame_view(self.frames@.last())
    }

    /// The manifest of the root project, where the walk began.
    pub closed spec fn root(&self) -> ManifestView {
        self.frames@[0].manifest@
    }

    pub closed spec fn wf(&self) -> bool {
        &&& self.frames@.len() >= 1
        &&& resolved_in_order(self.packages@)
        &&& forall|j: int| 0 <= j < self.frames@.len() ==> #[trigger] self.frames@[j].next <= self.frames@[j].manifest@.dependencies.len()
        &&& forall|j: int, k: int|
            0 <= j < self.frames@.len() && 0 <= k < self.frames@[j].next ==> package_names(self.packages@).contains(
                #[trigger] self.frames@[j].manifest@.dependencies[k].0,
            )
        &&& forall|j: int|
            1 <= j < self.frames@.len() ==> {
                let parent = #[trigger] self.frames@[j - 1];
                &&& parent.next < parent.manifest@.dependencies.len()
                &&& parent.manifest@.dependencies[parent.next as int].0 == self.frames@[j].name@
            }
        &&& forall|j: int, k: int| 1 <= j < k < self.frames@.len() ==> self.frames@[j].name@ != self.frames@[k].name@
        &&& forall|j: int| 1 <= j < self.frames@.len() ==> !package_names(self.packages@).contains(#[trigger] self.frames@[j].name@)
    }

    /// A `Load` was asked for and is not answered yet.
    pub closed spec fn awaiting_load(&self) -> bool {
        let t = self.top();
        &&& 0 <= t.next < t.deps.len()
        &&& !self.chain().contains(t.deps[t.next].0)
        &&& !self.done().contains(t.deps[t.next].0)
    }

    /// A `Collect` was asked for and is not answered yet.
    pub closed spec fn awaiting_collect(&self) -> bool {
        self.frames@.len() > 1 && self.top().next == self.top().deps.len()
    }

    /// Starts the walk at the root project.
    pub fn new(root_manifest: PackageManifest, root_path: String) -> (r: Resolver)
        ensures
            r.wf(),
            r.frames_view() == seq![FrameView { name: root_manifest.name@, dir: root_path@, deps: root_manifest@.dependencies, next: 0 }],
            r.resolved() == Seq::<ResolvedPackage>::empty(),
            r.root() == root_manifest@,
            r.root_dir() == root_path@,
    {
        let name = root_manifest.name.clone();
        let dir = root_path.clone();
        let mut frames: Vec<Frame> = Vec::new();
        frames.push(Frame { name, dir, manifest: root_manifest, next: 0 });
        let r = Resolver { frames, packages: Vec::new(), root_path };
        proof {
            assert(r.frames_view() =~= seq![FrameView { name: root_manifest.name@, dir: root_path@, deps: root_manifest@.dependencies, next: 0 }]);
        }
        r
    }

    fn chain_contains(&self, name: &String) -> (r: bool)
        requires
            self.frames@.len() >= 1,
        ensures
            r == self.chain().contains(name@),
    {
        let ghost ch = self.chain();
        assert(ch.len() == self.frames@.len() - 1);
        assert(forall|q: int| 0 <= q < ch.len() ==> #[trigger] ch[q] == self.frames@[q + 1].name@);
        let mut j: usize = 1;
        while j < self.frames.len()
            invariant
                1 <= j <= self.frames@.len(),
                ch == self.chain(),
                ch.len() == self.frames@.len() - 1,
                forall|q: int| 0 <= q < ch.len() ==> #[trigger] ch[q] == self.frames@[q + 1].name@,
                forall|q: int| 1 <= q < j ==> self.frames@[q].name@ != name@,
            decreases self.frames@.len() - j,
        {
            if self.frames[j].name == *name {
                proof {
                    assert(ch[j - 1] == name@);
                }
                return true;
            }
            j += 1;
        }
        proof {
            if ch.contains(name@) {
                let q = choose|q: int| 0 <= q < ch.len() && ch[q] == name@;
                assert(self.frames@[q + 1].name@ == name@);
            }
        }
        false
    }

    fn done_contains(&self, name: &String) -> (r: bool)
        ensures
            r == self.done().contains(name@),
    {
        let mut j: usize = 0;
        while j < self.packages.len()
            invariant
                j <= self.packages@.len(),
                forall|q: int| 0 <= q < j ==> self.packages@[q].name@ != name@,
            decreases self.packages@.len() - j,
        {
            if self.packages[j].name == *name {
                proof {
                    assert(self.done()[j as int] == name@);
                }
                return true;
            }
            j += 1;
        }
        proof {
            if self.done().contains(name@) {
                let q = choose|q: int| 0 <= q < self.done().len() && self.done()[q] == name@;
                assert(self.packages@[q].name@ == name@);
            }
        }
        false
    }

    fn chain_names(&self) -> (r: Vec<String>)
        requires
            self.frames@.len() >= 1,
        ensures
            r@.map_values(|x: String| x@) == self.chain(),
    {
        let mut out: Vec<String> = Vec::new();
        let mut j: usize = 1;
        while j < self.frames.len()
            invariant
                1 <= j <= self.frames@.len(),
                out@.map_values(|x: String| x@) == self.frames@.subrange(1, j as int).map_values(|f: Frame| f.name@),
            decreases self.frames@.len() - j,
        {
            let ghost before = out@;
            let nm = self.frames[j].name.clone();
            out.push(nm);
            proof {
                let a = self.frames@.subrange(1, j as int).map_values(|f: Frame| f.name@);
                let b = self.frames@.subrange(1, j + 1).map_values(|f: Frame| f.name@);
                assert(b =~= a.push(self.frames@[j as int].name@));
                assert(out@ == before.push(nm));
                assert(out@.map_values(|x: String| x@) =~= before.map_values(|x: String| x@).push(nm@));
            }
            j += 1;
        }
        out
    }

    /// Sets where the innermost package goes on.
    fn set_top_next(&mut self, k: usize)
        requires
            old(self).wf(),
            k <= old(self).top().deps.len(),
            forall|q: int| 0 <= q < k ==> old(self).done().contains(#[trigger] old(self).top().deps[q].0),
        ensures
            final(self).wf(),
            final(self).frames_view() == old(self).frames_view().update(
                old(self).frames_view().len() - 1,
                FrameView { next: k as int, ..old(self).top() },
            ),
            final(self).resolved() == old(self).resolved(),
            final(self).chain() == old(self).chain(),
            final(self).done() == old(self).done(),
            final(self).root_path == old(self).root_path,
            final(self).root() == old(self).root(),
            final(self).top() == (FrameView { next: k as int, ..old(self).top() }),
            final(self).frames@.len() == old(self).frames@.len(),
            final(self).frames_view().len() == final(self).frames@.len(),
    {
        let mut t = self.frames.pop().unwrap();
        t.next = k;
        self.frames.push(t);
        proof {
            let n = old(self).frames@.len() - 1;
            assert(self.frames@ == old(self).frames@.update(n, t));
            assert(self.frames_view() =~= old(self).frames_view().update(n, FrameView { next: k as int, ..old(self).top() }));
            assert(self.chain() =~= old(self).chain());
            assert forall|j: int, q: int|
                0 <= j < self.frames@.len() && 0 <= q < self.frames@[j].next implies package_names(self.packages@).contains(
                    #[trigger] self.frames@[j].manifest@.dependencies[q].0,
                ) by {
                if j == n {
                    assert(old(self).top().deps[q].0 == self.frames@[j].manifest@.dependencies[q].0);
                }
            }
        }
    }

    /// The walk's next step, from the innermost package on: a cycle fails, a
    /// resolved dependency is passed over, an unresolved one is loaded; when
    /// a package has no dependency left, its sources are collected, or, for
    /// the root, the walk is finished.
    pub fn advance(&mut self) -> (r: ResolveAction)
        requires
            old(self).wf(),
        ensures
            final(self).wf(),
            final(self).resolved() == old(self).resolved(),
            final(self).root() == old(self).root(),
            final(self).root_dir() == old(self).root_dir(),
            match scan(old(self).top().deps, old(self).top().next, old(self).chain(), old(self).done()) {
                Scan::Cycle(k) => {
                    &&& r matches ResolveAction::Failed(PkgError::CircularDep { chain })
                        && chain@.map_values(|x: String| x@) == old(self).chain().push(old(self).top().deps[k].0)
                    &&& final(self).frames_view() == old(self).frames_view()
                },
                Scan::Load(k) => {
                    &&& r matches ResolveAction::Load { name, dir, rel } && name@ == old(self).top().deps[k].0
                        && dir@ == old(self).top().dir && rel@ == old(self).top().deps[k].1
                    &&& final(self).frames_view() == old(self).frames_view().update(
                        old(self).frames_view().len() - 1,
                        FrameView { next: k, ..old(self).top() },
                    )
                    &&& final(self).awaiting_load()
                },
                Scan::Exhausted => {
                    &&& final(self).frames_view() == old(self).frames_view().update(
                        old(self).frames_view().len() - 1,
                        FrameView { next: old(self).top().deps.len() as int, ..old(self).top() },
                    )
                    &&& old(self).frames_view().len() == 1 ==> r is Finished
                    &&& old(self).frames_view().len() > 1 ==> (r matches ResolveAction::Collect { name, dir }
                        && name@ == old(self).top().name && dir@ == old(self).top().dir && final(self).awaiting_collect())
                },
            },
    {
        let last = self.frames.len() - 1;
        let start = self.frames[last].next;
        let n = self.frames[last].manifest.dependencies.len();
        let mut k = start;
        proof {
            assert(self.top().deps.len() == n);
        }
        while k < n
            invariant
                self.wf(),
                *self == *old(self),
                last == self.frames@.len() - 1,
                n == self.top().deps.len(),
                start == self.top().next,
                start <= k <= n,
                scan(self.top().deps, start as int, self.chain(), self.done()) == scan(
                    self.top().deps,
                    k as int,
                    self.chain(),
                    self.done(),
                ),
                forall|q: int| start <= q < k ==> self.done().contains(#[trigger] self.top().deps[q].0),
            decreases n - k,
        {
            let dep_name = &self.frames[last].manifest.dependencies[k].0;
            proof {
                assert(self.top().deps[k as int] == dep_view(self.frames@[last as int].manifest.dependencies@[k as int]));
            }
            if self.chain_contains(dep_name) {
                let mut chain = self.chain_names();
                let ghost c0 = chain@;
                chain.push(dep_name.clone());
                proof {
                    assert(chain@.map_values(|x: String| x@) =~= c0.map_values(|x: String| x@).push(dep_name@));
                }
                return ResolveAction::Failed(PkgError::CircularDep { chain });
            }
            if self.done_contains(dep_name) {
                k += 1;
            } else {
                let name = dep_name.clone();
                let dir = self.frames[last].dir.clone();
                let rel = match &self.frames[last].manifest.dependencies[k].1 {
                    Dependency::Path(p) => p.clone(),
                };
                proof {
                    assert forall|q: int| 0 <= q < k implies self.done().contains(#[trigger] self.top().deps[q].0) by {
                        if q < start {
                            assert(self.frames@[last as int].manifest@.dependencies[q].0 == self.top().deps[q].0);
                        }
                    }
                }
                self.set_top_next(k);
                return ResolveAction::Load { name, dir, rel };
            }
        }
        proof {
            assert forall|q: int| 0 <= q < n implies self.done().contains(#[trigger] self.top().deps[q].0) by {
                if q < start {
                    assert(self.frames@[last as int].manifest@.dependencies[q].0 == self.top().deps[q].0);
                }
            }
        }
        self.set_top_next(n);
        assert(self.frames@.len() == self.frames_view().len());
        assert(old(self).frames@.len() == old(self).frames_view().len());
        if self.frames.len() == 1 {
            ResolveAction::Finished
        } else {
            let name = self.frames[last].name.clone();
            let dir = self.frames[last].dir.clone();
            ResolveAction::Collect { name, dir }
        }
    }

    pub closed spec fn root_dir(&self) -> Seq<char> {
        self.root_path@
    }

    /// The walk is at its end: the root has no dependency left.
    pub closed spec fn finished(&self) -> bool {
        self.frames@.len() == 1 && self.top().next == self.top().deps.len()
    }

    pub fn is_awaiting_load(&self) -> (r: bool)
        requires
            self.wf(),
        ensures
            r == self.awaiting_load(),
    {
        let last = self.frames.len() - 1;
        let k = self.frames[last].next;
        if k >= self.frames[last].manifest.dependencies.len() {
            return false;
        }
        let name = &self.frames[last].manifest.dependencies[k].0;
        proof {
            assert(self.top().deps[k as int] == dep_view(self.frames@[last as int].manifest.dependencies@[k as int]));
        }
        !self.chain_contains(name) && !self.done_contains(name)
    }

    pub fn is_awaiting_collect(&self) -> (r: bool)
        requires
            self.wf(),
        ensures
            r == self.awaiting_collect(),
    {
        let last = self.frames.len() - 1;
        self.frames.len() > 1 && self.frames[last].next == self.frames[last].manifest.dependencies.len()
    }

    pub fn is_finished(&self) -> (r: bool)
        requires
            self.wf(),
        ensures
            r == self.finished(),
    {
        let last = self.frames.len() - 1;
        self.frames.len() == 1 && self.frames[last].next == self.frames[last].manifest.dependencies.len()
    }

    /// Takes in what loading the dependency asked for found: an error, or
    /// its manifest, whose walk then begins.
    pub fn loaded(&mut self, outcome: LoadOutcome) -> (r: Option<PkgError>)
        requires
            old(self).wf(),
            old(self).awaiting_load(),
        ensures
            final(self).wf(),
            final(self).resolved() == old(self).resolved(),
            final(self).root() == old(self).root(),
            final(self).root_dir() == old(self).root_dir(),
            ({
                let name = old(self).top().deps[old(self).top().next].0;
                match outcome {
                    LoadOutcome::PathMissing { path } => {
                        &&& r matches Some(PkgError::PathNotFound { dep, path: p }) && dep@ == name && p@ == path@
                        &&& final(self).frames_view() == old(self).frames_view()
                    },
                    LoadOutcome::ManifestMissing { path } => {
                        &&& r matches Some(PkgError::ManifestRead { path: p, reason }) && p@ == path@ && reason@
                            == "依赖 '"@ + name + "' 的清单文件不存在"@
                        &&& final(self).frames_view() == old(self).frames_view()
                    },
                    LoadOutcome::ReadFailed { path, reason } => {
                        &&& r matches Some(PkgError::ManifestRead { path: p, reason: rr }) && p@ == path@ && rr@ == reason@
                        &&& final(self).frames_view() == old(self).frames_view()
                    },
                    LoadOutcome::Read { dir, path, content } => match manifest_of(content@) {
                        Err(reason) => {
                            &&& r matches Some(PkgError::ManifestRead { path: p, reason: rr }) && p@ == "lom.toml"@
                                && rr@ == reason
                            &&& final(self).frames_view() == old(self).frames_view()
                        },
                        Ok(m) => if m.name != name {
                            &&& r matches Some(PkgError::ManifestRead { path: p, reason: rr }) && p@ == path@ && rr@
                                == "依赖键名 '"@ + name + "' 与清单 name '"@ + m.name + "' 不一致"@
                            &&& final(self).frames_view() == old(self).frames_view()
                        } else {
                            &&& r is None
                            &&& final(self).frames_view() == old(self).frames_view().push(
                                FrameView { name, dir: dir@, deps: m.dependencies, next: 0 },
                            )
                        },
                    },
                }
            }),
    {
        let last = self.frames.len() - 1;
        let k = self.frames[last].next;
        let name = self.frames[last].manifest.dependencies[k].0.clone();
        proof {
            assert(self.top().deps[k as int] == dep_view(self.frames@[last as int].manifest.dependencies@[k as int]));
        }
        match outcome {
            LoadOutcome::PathMissing { path } => Some(PkgError::PathNotFound { dep: name, path }),
            LoadOutcome::ManifestMissing { path } => {
                let mut reason: Vec<char> = Vec::new();
                push_lit(&mut reason, "依赖 '");
                let nc = chars_of(name.as_str());
                push_chars(&mut reason, &nc);
                push_lit(&mut reason, "' 的清单文件不存在");
                Some(PkgError::ManifestRead { path, reason: string_of(&reason) })
            },
            LoadOutcome::ReadFailed { path, reason } => Some(PkgError::ManifestRead { path, reason }),
            LoadOutcome::Read { dir, path, content } => {
                let m = match parse_manifest(content.as_str()) {
                    Ok(m) => m,
                    Err(e) => return Some(e),
                };
                if m.name != name {
                    let mut reason: Vec<char> = Vec::new();
                    push_lit(&mut reason, "依赖键名 '");
                    let nc = chars_of(name.as_str());
                    push_chars(&mut reason, &nc);
                    push_lit(&mut reason, "' 与清单 name '");
                    let mc = chars_of(m.name.as_str());
                    push_chars(&mut reason, &mc);
                    push_lit(&mut reason, "' 不一致");
                    return Some(PkgError::ManifestRead { path, reason: string_of(&reason) });
                }
                let ghost before = self.frames@;
                let frame = Frame { name, dir, manifest: m, next: 0 };
                self.frames.push(frame);
                proof {
                    assert(self.frames@ == before.push(frame));
                    assert(self.frames_view() =~= old(self).frames_view().push(frame_view(frame)));
                    assert(self.chain() =~= old(self).chain().push(frame.name@));
                    let n = before.len();
                    assert forall|j: int| 1 <= j < self.frames@.len() implies !package_names(self.packages@).contains(
                        #[trigger] self.frames@[j].name@,
                    ) by {
                        if j == n {
                            assert(frame.name@ == old(self).top().deps[k as int].0);
                        }
                    }
                    assert forall|j: int, q: int| 1 <= j < q < self.frames@.len() implies self.frames@[j].name@
                        != self.frames@[q].name@ by {
                        if q == n {
                            assert(old(self).chain()[j - 1] == self.frames@[j].name@);
                        }
                    }
                    assert forall|j: int|
                        1 <= j < self.frames@.len() implies {
                        let parent = #[trigger] self.frames@[j - 1];
                        &&& parent.next < parent.manifest@.dependencies.len()
                        &&& parent.manifest@.dependencies[parent.next as int].0 == self.frames@[j].name@
                    } by {
                        if j == n {
                            assert(self.frames@[j - 1] == before[last as int]);
                        }
                    }
                    assert forall|j: int| 0 <= j < self.frames@.len() implies #[trigger] self.frames@[j].next
                        <= self.frames@[j].manifest@.dependencies.len() by {
                        if j < n {
                            assert(self.frames@[j] == before[j]);
                        }
                    }
                }
                None
            },
        }
    }

    /// Takes in the sources and public names of the innermost package, which
    /// is then resolved; its parent goes on with its next dependency.
    pub fn collected(&mut self, source_files: Vec<String>, public_symbols: Vec<String>)
        requires
            old(self).wf(),
            old(self).awaiting_collect(),
        ensures
            final(self).wf(),
            final(self).root() == old(self).root(),
            final(self).root_dir() == old(self).root_dir(),
            final(self).resolved().len() == old(self).resolved().len() + 1,
            final(self).resolved().drop_last() == old(self).resolved(),
            final(self).resolved().last().name@ == old(self).top().name,
            final(self).resolved().last().root@ == old(self).top().dir,
            final(self).resolved().last().manifest@.dependencies == old(self).top().deps,
            final(self).resolved().last().source_files == source_files,
            final(self).resolved().last().public_symbols == public_symbols,
            ({
                let fv = old(self).frames_view().drop_last();
                final(self).frames_view() == fv.update(fv.len() - 1, FrameView { next: fv.last().next + 1, ..fv.last() })
            }),
    {
        let t = self.frames.pop().unwrap();
        let mut parent = self.frames.pop().unwrap();
        proof {
            let of = old(self).frames@;
            let n = of.len() - 1;
            assert(parent == of[n - 1]);
            let pp = of[n - 1];
            assert(pp.next < pp.manifest@.dependencies.len());
            assert(pp.manifest@.dependencies.len() == pp.manifest.dependencies@.len());
            assert(parent.next < parent.manifest.dependencies.len());
        }
        parent.next = parent.next + 1;
        self.frames.push(parent);
        let ghost old_pkgs = self.packages@;
        let pkg = ResolvedPackage { name: t.name, root: t.dir, manifest: t.manifest, source_files, public_symbols };
        self.packages.push(pkg);
        proof {
            let of = old(self).frames@;
            let n = of.len() - 1;
            assert(t == of[n]);
            assert(self.frames@ == of.drop_last().update(n - 1, parent));
            assert(self.packages@ == old_pkgs.push(pkg));
            assert(old_pkgs == old(self).packages@);
            assert(package_names(self.packages@) =~= package_names(old_pkgs).push(pkg.name@));
            assert(self.resolved().drop_last() =~= old(self).resolved());
            let fv = old(self).frames_view().drop_last();
            assert(self.frames_view() =~= fv.update(fv.len() - 1, FrameView { next: fv.last().next + 1, ..fv.last() }));
            // the new package comes after everything it depends on
            assert forall|q: int| 0 <= q < pkg.manifest@.dependencies.len() implies package_names(
                self.packages@.take(n_pk(old_pkgs)),
            ).contains(#[trigger] pkg.manifest@.dependencies[q].0) by {
                assert(self.packages@.take(n_pk(old_pkgs)) =~= old_pkgs);
                assert(of[n].manifest@.dependencies[q].0 == pkg.manifest@.dependencies[q].0);
            }
            assert forall|i: int, q: int|
                0 <= i < self.packages@.len() && 0 <= q < self.packages@[i].manifest@.dependencies.len() implies package_names(
                self.packages@.take(i),
            ).contains(#[trigger] self.packages@[i].manifest@.dependencies[q].0) by {
                if i < old_pkgs.len() {
                    assert(self.packages@.take(i) =~= old_pkgs.take(i));
                } else {
                    assert(i == n_pk(old_pkgs));
                }
            }
            assert forall|i: int, j: int| 0 <= i < j < self.packages@.len() implies self.packages@[i].name@
                != self.packages@[j].name@ by {
                if j == old_pkgs.len() {
                    assert(package_names(old_pkgs)[i] == old_pkgs[i].name@);
                }
            }
            assert forall|j: int, q: int|
                0 <= j < self.frames@.len() && 0 <= q < self.frames@[j].next implies package_names(self.packages@).contains(
                #[trigger] self.frames@[j].manifest@.dependencies[q].0,
            ) by {
                let nm = self.frames@[j].manifest@.dependencies[q].0;
                if j == n - 1 && q == self.frames@[j].next - 1 {
                    assert(package_names(self.packages@)[n_pk(old_pkgs)] == pkg.name@);
                } else {
                    assert(package_names(old_pkgs).contains(nm));
                    let w = choose|w: int| 0 <= w < package_names(old_pkgs).len() && package_names(old_pkgs)[w] == nm;
                    assert(package_names(self.packages@)[w] == nm);
                }
            }
            assert forall|j: int| 1 <= j < self.frames@.len() implies !package_names(self.packages@).contains(
                #[trigger] self.frames@[j].name@,
            ) by {
                if package_names(self.packages@).contains(self.frames@[j].name@) {
                    let w = choose|w: int| 0 <= w < package_names(self.packages@).len() && package_names(self.packages@)[w]
                        == self.frames@[j].name@;
                    if w < old_pkgs.len() {
                        assert(package_names(old_pkgs)[w] == self.frames@[j].name@);
                    } else {
                        assert(of[j].name@ == of[n].name@);
                    }
                }
            }
        }
    }

    /// Every package the walk has resolved so far is resolved once, after every
    /// dependency it names.
    pub proof fn lemma_resolved_once(&self)
        requires
            self.wf(),
        ensures
            forall|i: int, j: int| 0 <= i < j < self.resolved().len() ==> self.resolved()[i].name@ != self.resolved()[j].name@,
            forall|i: int, k: int|
                0 <= i < self.resolved().len() && 0 <= k < self.resolved()[i].manifest@.dependencies.len()
                    ==> package_names(self.resolved().take(i)).contains(
                    #[trigger] self.resolved()[i].manifest@.dependencies[k].0,
                ),
    {
    }

    /// The graph, once the walk is finished.
    pub fn into_graph(self) -> (g: DependencyGraph)
        requires
            self.wf(),
            self.finished(),
        ensures
            g.packages@ == self.resolved(),
            resolved_in_order(g.packages@),
            g.root_path@ == self.root_dir(),
            g.root_manifest@ == self.root(),
            g.root_manifest@.dependencies == self.top().deps,
            forall|k: int|
                0 <= k < g.root_manifest@.dependencies.len() ==> package_names(g.packages@).contains(
                    #[trigger] g.root_manifest@.dependencies[k].0,
                ),
    {
        let mut frames = self.frames;
        let root = frames.pop().unwrap();
        proof {
            assert(frame_view(root) == self.top());
        }
        DependencyGraph { root_manifest: root.manifest, root_path: self.root_path, packages: self.packages }
    }
}

pub open spec fn n_pk(ps: Seq<ResolvedPackage>) -> int {
    ps.len() as int
}

// ===== public names of a package's sources =====

pub open spec fn strings_of(v: Seq<String>) -> Seq<Seq<char>> {
    v.map_values(|s: String| s@)
}

/// `ns` with `n` added at the end, unless it is there already.
pub open spec fn add_name(ns: Seq<Seq<char>>, n: Seq<char>) -> Seq<Seq<char>> {
    if ns.contains(n) {
        ns
    } else {
        ns.push(n)
    }
}

pub open spec fn add_variant_names(ns: Seq<Seq<char>>, vs: Seq<EnumVariantDecl>) -> Seq<Seq<char>>
    decreases vs.len(),
{
    if vs.len() == 0 {
        ns
    } else {
        add_name(add_variant_names(ns, vs.drop_last()), vs.last().name@)
    }
}

/// The public names a declaration adds: a function's name, an enum's name
/// and its variants' names; an import adds none.
pub open spec fn add_item_names(ns: Seq<Seq<char>>, it: Item) -> Seq<Seq<char>> {
    match it {
        Item::Fn(f) => add_name(ns, f.name@),
        Item::Enum(e) => add_variant_names(add_name(ns, e.name@), e.variants@),
        Item::Import(_) => ns,
    }
}

/// The public names of a program's declarations, each once, in the order
/// they first appear.
pub open spec fn public_names(items: Seq<Item>) -> Seq<Seq<char>>
    decreases items.len(),
{
    if items.len() == 0 {
        Seq::empty()
    } else {
        add_item_names(public_names(items.drop_last()), items.last())
    }
}

fn push_new_name(names: &mut Vec<String>, n: &String)
    ensures
        strings_of(final(names)@) == add_name(strings_of(old(names)@), n@),
{
    let ghost before = strings_of(names@);
    let mut j: usize = 0;
    while j < names.len()
        invariant
            j <= names@.len(),
            before == strings_of(names@),
            forall|q: int| 0 <= q < j ==> names@[q]@ != n@,
        decreases names@.len() - j,
    {
        if names[j] == *n {
            assert(before[j as int] == n@);
            return;
        }
        j += 1;
    }
    proof {
        if before.contains(n@) {
            let q = choose|q: int| 0 <= q < before.len() && before[q] == n@;
            assert(names@[q]@ == n@);
        }
    }
    names.push(n.clone());
    assert(strings_of(names@) =~= before.push(n@));
}

/// The public names of a package source: its top-level functions, enums and
/// enum variants, each once, in the order they first appear.
pub fn collect_public_symbols(program: &Program) -> (r: Vec<String>)
    ensures
        strings_of(r@) == public_names(program.items@),
{
    let mut names: Vec<String> = Vec::new();
    let mut i: usize = 0;
    while i < program.items.len()
        invariant
            i <= program.items@.len(),
            strings_of(names@) == public_names(program.items@.take(i as int)),
        decreases program.items@.len() - i,
    {
        let ghost items = program.items@;
        assert(items.take(i + 1).drop_last() == items.take(i as int));
        assert(items.take(i + 1).last() == items[i as int]);
        match &program.items[i] {
            Item::Fn(f) => push_new_name(&mut names, &f.name),
            Item::Enum(e) => {
                push_new_name(&mut names, &e.name);
                let ghost base = strings_of(names@);
                let mut k: usize = 0;
                while k < e.variants.len()
                    invariant
                        k <= e.variants@.len(),
                        strings_of(names@) == add_variant_names(base, e.variants@.take(k as int)),
                    decreases e.variants@.len() - k,
                {
                    assert(e.variants@.take(k + 1).drop_last() == e.variants@.take(k as int));
                    push_new_name(&mut names, &e.variants[k].name);
                    k += 1;
                }
                assert(e.variants@.take(e.variants@.len() as int) == e.variants@);
            },
            Item::Import(_) => {},
        }
        i += 1;
    }
    assert(program.items@.take(program.items@.len() as int) == program.items@);
    names
}

} // verus!
