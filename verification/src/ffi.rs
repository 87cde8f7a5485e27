//! The seam between Rust and Python: what Rust exports with PyO3 attributes, what Python imports,
//! and which import takes which exported module.
use vstd::prelude::*;

use crate::moves::{extension, extension_of};
use crate::text::{
    ascii_alphanumeric, behind, cat2, chars, copy_all, cut, drop_lead, drop_tail, find, gather,
    is_ascii_alphanumeric, lead, leading, lines, lines_of, parts, position, put, same, slice, split,
    split_once, starts, starts_with, strip_prefix, text_opt, texts, trim, trim_start, trimmed,
    trimmed_start, without_lead, without_tail, Class,
};

verus! {

// ── what there is ──────────────────────────────────────────────────────────────────────

/// What is exported.
#[derive(Debug, Clone, Copy, PartialEq, Eq, Structural)]
pub enum ExportKind {
    Function,
    Class,
    Module,
}

/// A name that Rust exports to Python.
#[derive(Debug, Clone)]
pub struct PyExport {
    pub py_name: String,
    pub kind: ExportKind,
    pub file: String,
    pub line: usize,
    /// The module that the export belongs to, where it is known; no single line of Rust says so.
    pub module: Option<String>,
}

/// An import in Python.
#[derive(Debug, Clone)]
pub struct PyImport {
    pub module: String,
    pub names: Vec<String>,
    pub file: String,
    pub line: usize,
}

/// An exported module and a place in Python that imports it.
#[derive(Debug, Clone)]
pub struct FfiEdge {
    pub module: String,
    pub rust_file: String,
    pub py_file: String,
    pub py_line: usize,
    /// The names that Python takes; none where it takes the whole module.
    pub names: Vec<String>,
}

/// The whole seam.
#[derive(Debug, Clone, Default)]
pub struct FfiGraph {
    pub exports: Vec<PyExport>,
    pub imports: Vec<PyImport>,
    pub edges: Vec<FfiEdge>,
}

/// A name that Rust exports to Python.
#[verifier::ext_equal]
pub struct ExportView {
    pub py_name: Seq<char>,
    pub kind: ExportKind,
    pub file: Seq<char>,
    pub line: int,
    pub module: Option<Seq<char>>,
}

/// An import in Python.
#[verifier::ext_equal]
pub struct ImportView {
    pub module: Seq<char>,
    pub names: Seq<Seq<char>>,
    pub file: Seq<char>,
    pub line: int,
}

/// An exported module and a place in Python that imports it.
#[verifier::ext_equal]
pub struct EdgeView {
    pub module: Seq<char>,
    pub rust_file: Seq<char>,
    pub py_file: Seq<char>,
    pub py_line: int,
    pub names: Seq<Seq<char>>,
}

impl View for PyExport {
    type V = ExportView;

    open spec fn view(&self) -> ExportView {
        ExportView {
            py_name: self.py_name@,
            kind: self.kind,
            file: self.file@,
            line: self.line as int,
            module: text_opt(self.module),
        }
    }
}

impl View for PyImport {
    type V = ImportView;

    open spec fn view(&self) -> ImportView {
        ImportView {
            module: self.module@,
            names: texts(self.names@),
            file: self.file@,
            line: self.line as int,
        }
    }
}

impl View for FfiEdge {
    type V = EdgeView;

    open spec fn view(&self) -> EdgeView {
        EdgeView {
            module: self.module@,
            rust_file: self.rust_file@,
            py_file: self.py_file@,
            py_line: self.py_line as int,
            names: texts(self.names@),
        }
    }
}

/// What a list of exports says.
pub open spec fn export_views(v: Seq<PyExport>) -> Seq<ExportView> {
    v.map_values(|e: PyExport| e@)
}

/// What a list of imports says.
pub open spec fn import_views(v: Seq<PyImport>) -> Seq<ImportView> {
    v.map_values(|e: PyImport| e@)
}

/// What a list of edges says.
pub open spec fn edge_views(v: Seq<FfiEdge>) -> Seq<EdgeView> {
    v.map_values(|e: FfiEdge| e@)
}

// ── the Rust side ──────────────────────────────────────────────────────────────────────

/// What an attribute announces.
pub open spec fn announced(t: Seq<char>) -> Option<ExportKind> {
    if starts(t, "#[pyfunction"@) {
        Some(ExportKind::Function)
    } else if starts(t, "#[pyclass"@) {
        Some(ExportKind::Class)
    } else if starts(t, "#[pymodule"@) {
        Some(ExportKind::Module)
    } else {
        None
    }
}

/// What stands between the first two quotes.
pub open spec fn quoted(s: Seq<char>) -> Option<Seq<char>> {
    match cut(s, "\""@) {
        Some((_, rest)) => match cut(rest, "\""@) {
            Some((name, _)) => Some(name),
            None => None,
        },
        None => None,
    }
}

/// The name that an attribute gives to an export.
pub open spec fn given_name(t: Seq<char>) -> Option<Seq<char>> {
    match behind(t, "#[pyo3("@) {
        Some(rest) => match cut(rest, "name"@) {
            Some((_, after)) => quoted(after),
            None => None,
        },
        None => None,
    }
}

/// The identifier behind the first keyword of a line, unless the keyword ends a longer word.
pub open spec fn name_after(t: Seq<char>, kw: Seq<char>) -> Option<Seq<char>> {
    match find(t, kw + " "@) {
        Some(i) => {
            let name = lead(t.skip(i + kw.len() + 1), Class::Ident);
            if (i == 0 || !ascii_alphanumeric(t[i - 1])) && name.len() > 0 {
                Some(name)
            } else {
                None
            }
        },
        None => None,
    }
}

/// The item that a line defines, where it can be what was announced.
pub open spec fn defined_item(t: Seq<char>, kind: ExportKind) -> Option<Seq<char>> {
    if kind == ExportKind::Class {
        match name_after(t, "struct"@) {
            Some(n) => Some(n),
            None => name_after(t, "enum"@),
        }
    } else {
        name_after(t, "fn"@)
    }
}

/// What was announced and not yet defined, and the name that it was given.
#[verifier::ext_equal]
pub struct Pending {
    pub kind: Option<ExportKind>,
    pub name: Option<Seq<char>>,
}

/// The export that a line completes.
pub open spec fn completed(p: Pending, line: Seq<char>) -> Option<(Seq<char>, ExportKind)> {
    let t = trimmed_start(line);
    if announced(t) is Some || given_name(t) is Some {
        None
    } else {
        match p.kind {
            Some(kind) => match defined_item(t, kind) {
                Some(own) => match p.name {
                    Some(given) => Some((given, kind)),
                    None => Some((own, kind)),
                },
                None => None,
            },
            None => None,
        }
    }
}

/// What is pending behind a line.
pub open spec fn pending_after(p: Pending, line: Seq<char>) -> Pending {
    let t = trimmed_start(line);
    if announced(t) is Some {
        Pending { kind: announced(t), name: p.name }
    } else if given_name(t) is Some {
        Pending { kind: p.kind, name: given_name(t) }
    } else if completed(p, line) is Some {
        Pending { kind: None, name: None }
    } else {
        p
    }
}

/// What is pending before the line at a position.
pub open spec fn pending_at(ls: Seq<Seq<char>>, n: int) -> Pending
    decreases n,
{
    if n <= 0 {
        Pending { kind: None, name: None }
    } else {
        pending_after(pending_at(ls, n - 1), ls[n - 1])
    }
}

/// The export that the line at a position completes.
pub open spec fn export_on(ls: Seq<Seq<char>>, file: Seq<char>) -> spec_fn(int) -> Seq<ExportView> {
    |i: int|
        match completed(pending_at(ls, i), ls[i]) {
            Some((py_name, kind)) => seq![
                ExportView { py_name, kind, file, line: i + 1, module: None },
            ],
            None => seq![],
        }
}

/// What a file in Rust exports.
pub open spec fn exports_of(text: Seq<char>, file: Seq<char>) -> Seq<ExportView> {
    gather(lines_of(text).len() as int, export_on(lines_of(text), file))
}

fn announces(t: &str) -> (r: Option<ExportKind>)
    ensures
        r == announced(t@),
{
    if starts_with(t, "#[pyfunction") {
        Some(ExportKind::Function)
    } else if starts_with(t, "#[pyclass") {
        Some(ExportKind::Class)
    } else if starts_with(t, "#[pymodule") {
        Some(ExportKind::Module)
    } else {
        None
    }
}

/// The name that an attribute gives to an export: `foo` where it is `#[pyo3(name = "foo")]`.
pub fn parse_pyo3_name(t: &str) -> (r: Option<String>)
    ensures
        text_opt(r) == given_name(t@),
{
    match strip_prefix(t, "#[pyo3(") {
        Some(rest) => match split_once(rest.as_str(), "name") {
            Some((_before, after)) => match split_once(after.as_str(), "\"") {
                Some((_lead, rest)) => match split_once(rest.as_str(), "\"") {
                    Some((name, _tail)) => Some(name),
                    None => None,
                },
                None => None,
            },
            None => None,
        },
        None => None,
    }
}

/// The identifier behind a keyword on a line.
pub fn after_keyword(t: &str, kw: &str) -> (r: Option<String>)
    ensures
        text_opt(r) == name_after(t@, kw@),
{
    let pattern = cat2(kw, " ");
    let v = chars(t);
    let n = v.len();
    match position(t, pattern.as_str()) {
        Some(i) => {
            let k = chars(pattern.as_str()).len();
            proof {
                reveal_strlit(" ");
                assert(k == kw@.len() + 1);
                assert(i + k <= n);
            }
            let rest = slice(&v, i + k, n);
            assert(rest@ =~= t@.skip(i + kw@.len() + 1));
            let name = leading(rest.as_str(), Class::Ident);
            if i > 0 && is_ascii_alphanumeric(v[i - 1]) {
                return None;
            }
            if chars(name.as_str()).len() > 0 {
                Some(name)
            } else {
                None
            }
        },
        None => None,
    }
}

fn item_on(t: &str, kind: ExportKind) -> (r: Option<String>)
    ensures
        text_opt(r) == defined_item(t@, kind),
{
    if kind == ExportKind::Class {
        match after_keyword(t, "struct") {
            Some(n) => Some(n),
            None => after_keyword(t, "enum"),
        }
    } else {
        after_keyword(t, "fn")
    }
}

/// Adds what a file in Rust exports. A `#[pyfunction]`, `#[pyclass]` or `#[pymodule]` attribute
/// announces an export, and the next item that can be one completes it; a `#[pyo3(name = "..")]`
/// on the way gives it another name.
pub fn scan_rust(text: &str, file: &str, exports: &mut Vec<PyExport>)
    ensures
        export_views(final(exports)@) == export_views(old(exports)@) + exports_of(text@, file@),
{
    let ls = lines(text);
    let ghost all = texts(ls@);
    let ghost base = export_views(exports@);
    let mut kind: Option<ExportKind> = None;
    let mut name: Option<String> = None;
    let mut i: usize = 0;
    while i < ls.len()
        invariant
            i <= ls.len(),
            all == texts(ls@),
            pending_at(all, i as int) == (Pending { kind, name: text_opt(name) }),
            export_views(exports@) =~= base + gather(i as int, export_on(all, file@)),
        decreases ls.len() - i,
    {
        assert(all[i as int] == ls@[i as int]@);
        let ghost before = export_views(exports@);
        let t = trim_start(ls[i].as_str());
        let new_kind = announces(t.as_str());
        let new_name = parse_pyo3_name(t.as_str());
        if new_kind.is_some() {
            kind = new_kind;
        } else if new_name.is_some() {
            name = new_name;
        } else if let Some(k) = kind {
            if let Some(own) = item_on(t.as_str(), k) {
                let py_name = match &name {
                    Some(given) => given.clone(),
                    None => own,
                };
                let e = PyExport {
                    py_name,
                    kind: k,
                    file: file.to_owned(),
                    line: i + 1,
                    module: None,
                };
                assert(export_views(exports@.push(e)) =~= before.push(e@));
                exports.push(e);
                kind = None;
                name = None;
            }
        }
        i += 1;
    }
}

// ── the Python side ────────────────────────────────────────────────────────────────────

/// What is imported, without the name that it gets.
pub open spec fn imported_name(part: Seq<char>) -> Seq<char> {
    trimmed(
        match cut(part, " as "@) {
            Some((n, _)) => n,
            None => part,
        },
    )
}

/// The name at a position, where it is one.
pub open spec fn taken_name(ps: Seq<Seq<char>>) -> spec_fn(int) -> Seq<Seq<char>> {
    |i: int|
        if imported_name(ps[i]).len() > 0 && imported_name(ps[i]) != "*"@ {
            seq![imported_name(ps[i])]
        } else {
            seq![]
        }
}

/// The names that a list takes out of a module.
pub open spec fn taken_names(list: Seq<char>) -> Seq<Seq<char>> {
    let ps = parts(drop_tail(drop_lead(list, Class::Is('(')), Class::Is(')')), ',');
    gather(ps.len() as int, taken_name(ps))
}

/// The whole module at a position of a list.
pub open spec fn whole_module(ps: Seq<Seq<char>>, file: Seq<char>, line: int) -> spec_fn(
    int,
) -> Seq<ImportView> {
    |i: int|
        if imported_name(ps[i]).len() > 0 {
            seq![ImportView { module: imported_name(ps[i]), names: seq![], file, line }]
        } else {
            seq![]
        }
}

/// What a line imports.
pub open spec fn line_imports(line: Seq<char>, file: Seq<char>, number: int) -> Seq<ImportView> {
    let t = trimmed(line);
    match behind(t, "from "@) {
        Some(rest) => match cut(rest, " import "@) {
            Some((module, list)) => seq![
                ImportView {
                    module: trimmed(module),
                    names: taken_names(list),
                    file,
                    line: number,
                },
            ],
            None => seq![],
        },
        None => match behind(t, "import "@) {
            Some(rest) => gather(
                parts(rest, ',').len() as int,
                whole_module(parts(rest, ','), file, number),
            ),
            None => seq![],
        },
    }
}

/// What the line at a position imports.
pub open spec fn import_on(ls: Seq<Seq<char>>, file: Seq<char>) -> spec_fn(int) -> Seq<ImportView> {
    |i: int| line_imports(ls[i], file, i + 1)
}

/// What a file in Python imports.
pub open spec fn imports_of(text: Seq<char>, file: Seq<char>) -> Seq<ImportView> {
    gather(lines_of(text).len() as int, import_on(lines_of(text), file))
}

fn name_imported(part: &str) -> (r: String)
    ensures
        r@ == imported_name(part@),
{
    match split_once(part, " as ") {
        Some((n, _rest)) => trim(n.as_str()),
        None => trim(part),
    }
}

fn names_taken(list: &str) -> (r: Vec<String>)
    ensures
        texts(r@) == taken_names(list@),
{
    let opened = without_lead(list, Class::Is('('));
    let bare = without_tail(opened.as_str(), Class::Is(')'));
    let ps = split(bare.as_str(), ',');
    let ghost all = texts(ps@);
    let mut out: Vec<String> = Vec::new();
    let mut i: usize = 0;
    while i < ps.len()
        invariant
            i <= ps.len(),
            all == texts(ps@),
            texts(out@) =~= gather(i as int, taken_name(all)),
        decreases ps.len() - i,
    {
        assert(all[i as int] == ps@[i as int]@);
        let n = name_imported(ps[i].as_str());
        if chars(n.as_str()).len() > 0 && !same(n.as_str(), "*") {
            put(&mut out, n);
        }
        i += 1;
    }
    out
}

fn add_import(imports: &mut Vec<PyImport>, e: PyImport)
    ensures
        import_views(final(imports)@) == import_views(old(imports)@).push(e@),
{
    let ghost before = import_views(imports@);
    imports.push(e);
    assert(import_views(imports@) =~= before.push(e@));
}

fn add_modules(rest: &str, file: &str, line: usize, imports: &mut Vec<PyImport>)
    ensures
        import_views(final(imports)@) == import_views(old(imports)@) + gather(
            parts(rest@, ',').len() as int,
            whole_module(parts(rest@, ','), file@, line as int),
        ),
{
    let ps = split(rest, ',');
    let ghost all = texts(ps@);
    let ghost base = import_views(imports@);
    let mut i: usize = 0;
    while i < ps.len()
        invariant
            i <= ps.len(),
            all == texts(ps@),
            import_views(imports@) =~= base + gather(
                i as int,
                whole_module(all, file@, line as int),
            ),
        decreases ps.len() - i,
    {
        assert(all[i as int] == ps@[i as int]@);
        let module = name_imported(ps[i].as_str());
        if chars(module.as_str()).len() > 0 {
            let names: Vec<String> = Vec::new();
            assert(texts(names@) =~= seq![]);
            add_import(imports, PyImport { module, names, file: file.to_owned(), line });
        }
        i += 1;
    }
}

/// Adds what a file in Python imports, by `import` and by `from .. import`, as far as a statement
/// stands on one line.
pub fn scan_python(text: &str, file: &str, imports: &mut Vec<PyImport>)
    ensures
        import_views(final(imports)@) == import_views(old(imports)@) + imports_of(text@, file@),
{
    let ls = lines(text);
    let ghost all = texts(ls@);
    let ghost base = import_views(imports@);
    let mut i: usize = 0;
    while i < ls.len()
        invariant
            i <= ls.len(),
            all == texts(ls@),
            import_views(imports@) =~= base + gather(i as int, import_on(all, file@)),
        decreases ls.len() - i,
    {
        assert(all[i as int] == ls@[i as int]@);
        let t = trim(ls[i].as_str());
        if let Some(rest) = strip_prefix(t.as_str(), "from ") {
            if let Some((module, list)) = split_once(rest.as_str(), " import ") {
                add_import(
                    imports,
                    PyImport {
                        module: trim(module.as_str()),
                        names: names_taken(list.as_str()),
                        file: file.to_owned(),
                        line: i + 1,
                    },
                );
            }
        } else if let Some(rest) = strip_prefix(t.as_str(), "import ") {
            add_modules(rest.as_str(), file, i + 1, imports);
        }
        i += 1;
    }
}

// ── both sides together ────────────────────────────────────────────────────────────────

/// The first file from position `i` on that exports a module under a name.
pub open spec fn module_home_from(es: Seq<ExportView>, name: Seq<char>, i: int) -> Option<
    Seq<char>,
>
    decreases es.len() - i,
{
    if i < 0 || i >= es.len() {
        None
    } else if es[i].kind == ExportKind::Module && es[i].py_name == name {
        Some(es[i].file)
    } else {
        module_home_from(es, name, i + 1)
    }
}

/// The file that exports a module under a name: the first.
pub open spec fn module_home(es: Seq<ExportView>, name: Seq<char>) -> Option<Seq<char>> {
    module_home_from(es, name, 0)
}

/// An import, joined with the module that it takes: by the last part of the name that it gives,
/// or else by the whole of it.
pub open spec fn joined_import(es: Seq<ExportView>, m: ImportView) -> Seq<EdgeView> {
    let last = parts(m.module, '.').last();
    let module = if module_home(es, last) is Some {
        last
    } else {
        m.module
    };
    match module_home(es, module) {
        Some(rust_file) => seq![
            EdgeView { module, rust_file, py_file: m.file, py_line: m.line, names: m.names },
        ],
        None => seq![],
    }
}

/// The import at a position, joined with the module that it takes.
pub open spec fn edge_of(es: Seq<ExportView>, ms: Seq<ImportView>) -> spec_fn(int) -> Seq<EdgeView> {
    |i: int| joined_import(es, ms[i])
}

/// What a file exports, where it is one in Rust.
pub open spec fn file_exports(files: Seq<(String, String)>) -> spec_fn(int) -> Seq<ExportView> {
    |i: int|
        if extension_of(files[i].0@) == Some("rs"@) {
            exports_of(files[i].1@, files[i].0@)
        } else {
            seq![]
        }
}

/// What a file imports, where it is one in Python.
pub open spec fn file_imports(files: Seq<(String, String)>) -> spec_fn(int) -> Seq<ImportView> {
    |i: int|
        if extension_of(files[i].0@) == Some("py"@) {
            imports_of(files[i].1@, files[i].0@)
        } else {
            seq![]
        }
}

fn find_home(exports: &Vec<PyExport>, name: &str) -> (r: Option<String>)
    ensures
        text_opt(r) == module_home(export_views(exports@), name@),
{
    let ghost all = export_views(exports@);
    let mut i: usize = 0;
    while i < exports.len()
        invariant
            i <= exports.len(),
            all == export_views(exports@),
            module_home(all, name@) == module_home_from(all, name@, i as int),
        decreases exports.len() - i,
    {
        assert(all[i as int] == exports@[i as int]@);
        if exports[i].kind == ExportKind::Module && same(exports[i].py_name.as_str(), name) {
            return Some(exports[i].file.clone());
        }
        i += 1;
    }
    None
}

fn join_import(exports: &Vec<PyExport>, m: &PyImport) -> (r: Option<FfiEdge>)
    ensures
        match r {
            Some(e) => joined_import(export_views(exports@), m@) =~= seq![e@],
            None => joined_import(export_views(exports@), m@).len() == 0,
        },
{
    let ps = split(m.module.as_str(), '.');
    let ghost all = texts(ps@);
    proof {
        crate::text::parts_nonempty(m.module@, '.', 0);
        assert(all.len() == ps@.len());
    }
    let last = ps[ps.len() - 1].clone();
    assert(all.last() == last@);
    match find_home(exports, last.as_str()) {
        Some(rust_file) => Some(
            FfiEdge {
                module: last,
                rust_file,
                py_file: m.file.clone(),
                py_line: m.line,
                names: copy_all(&m.names),
            },
        ),
        None => match find_home(exports, m.module.as_str()) {
            Some(rust_file) => Some(
                FfiEdge {
                    module: m.module.clone(),
                    rust_file,
                    py_file: m.file.clone(),
                    py_line: m.line,
                    names: copy_all(&m.names),
                },
            ),
            None => None,
        },
    }
}

/// Joins the imports with the modules that they take.
pub fn stitch(exports: &Vec<PyExport>, imports: &Vec<PyImport>) -> (r: Vec<FfiEdge>)
    ensures
        edge_views(r@) == gather(
            imports@.len() as int,
            edge_of(export_views(exports@), import_views(imports@)),
        ),
{
    let ghost es = export_views(exports@);
    let ghost ms = import_views(imports@);
    let mut out: Vec<FfiEdge> = Vec::new();
    let mut i: usize = 0;
    while i < imports.len()
        invariant
            i <= imports.len(),
            es == export_views(exports@),
            ms == import_views(imports@),
            edge_views(out@) =~= gather(i as int, edge_of(es, ms)),
        decreases imports.len() - i,
    {
        assert(ms[i as int] == imports@[i as int]@);
        let ghost before = edge_views(out@);
        if let Some(e) = join_import(exports, &imports[i]) {
            assert(edge_views(out@.push(e)) =~= before.push(e@));
            out.push(e);
        }
        i += 1;
    }
    out
}

/// The seam of a repository whose files are given with their texts: the exports of the files in
/// Rust, the imports of those in Python, and each import that takes an exported module joined
/// with it.
pub fn scan(files: &Vec<(String, String)>) -> (r: FfiGraph)
    ensures
        export_views(r.exports@) == gather(files@.len() as int, file_exports(files@)),
        import_views(r.imports@) == gather(files@.len() as int, file_imports(files@)),
        edge_views(r.edges@) == gather(
            r.imports@.len() as int,
            edge_of(export_views(r.exports@), import_views(r.imports@)),
        ),
{
    let mut exports: Vec<PyExport> = Vec::new();
    let mut imports: Vec<PyImport> = Vec::new();
    let mut i: usize = 0;
    while i < files.len()
        invariant
            i <= files.len(),
            export_views(exports@) =~= gather(i as int, file_exports(files@)),
            import_views(imports@) =~= gather(i as int, file_imports(files@)),
        decreases files.len() - i,
    {
        let (rel, text) = &files[i];
        if let Some(x) = extension(rel.as_str()) {
            proof {
                reveal_strlit("rs");
                reveal_strlit("py");
                assert("rs"@[0] != "py"@[0]);
            }
            if same(x.as_str(), "rs") {
                scan_rust(text.as_str(), rel.as_str(), &mut exports);
            } else if same(x.as_str(), "py") {
                scan_python(text.as_str(), rel.as_str(), &mut imports);
            }
        }
        i += 1;
    }
    let edges = stitch(&exports, &imports);
    FfiGraph { exports, imports, edges }
}

proof fn home_is_exported(es: Seq<ExportView>, name: Seq<char>, i: int)
    requires
        0 <= i,
    ensures
        match module_home_from(es, name, i) {
            Some(f) => exists|k: int|
                i <= k < es.len() && (#[trigger] es[k]).kind == ExportKind::Module && es[k].py_name
                    == name && es[k].file == f,
            None => forall|k: int|
                i <= k < es.len() && (#[trigger] es[k]).kind == ExportKind::Module ==> es[k].py_name
                    != name,
        },
    decreases es.len() - i,
{
    if i < es.len() && !(es[i].kind == ExportKind::Module && es[i].py_name == name) {
        home_is_exported(es, name, i + 1);
    }
}

/// An edge has both its ends: its module is exported by the file that it names, and it is imported
/// where it says, with the names that it gives.
pub proof fn edges_have_both_ends(es: Seq<ExportView>, ms: Seq<ImportView>, e: EdgeView)
    requires
        gather(ms.len() as int, edge_of(es, ms)).contains(e),
    ensures
        exists|k: int|
            0 <= k < es.len() && (#[trigger] es[k]).kind == ExportKind::Module && es[k].py_name
                == e.module && es[k].file == e.rust_file,
        exists|k: int|
            0 <= k < ms.len() && (#[trigger] ms[k]).file == e.py_file && ms[k].line == e.py_line
                && ms[k].names == e.names && (ms[k].module == e.module || parts(
                ms[k].module,
                '.',
            ).last() == e.module),
{
    crate::text::gather_contains(ms.len() as int, edge_of(es, ms), e);
    let k = choose|k: int| 0 <= k < ms.len() && (#[trigger] (edge_of(es, ms))(k)).contains(e);
    let one = joined_import(es, ms[k]);
    let j = choose|j: int| 0 <= j < one.len() && one[j] == e;
    home_is_exported(es, e.module, 0);
}

/// An import of an exported module is never missed: where an import gives the name of one, whole
/// or as its last part, an edge leads to it.
pub proof fn no_import_is_missed(es: Seq<ExportView>, ms: Seq<ImportView>, k: int, i: int)
    requires
        0 <= i < es.len(),
        es[i].kind == ExportKind::Module,
        0 <= k < ms.len(),
        es[i].py_name == ms[k].module || es[i].py_name == parts(ms[k].module, '.').last(),
    ensures
        exists|e: EdgeView| #[trigger]
            gather(ms.len() as int, edge_of(es, ms)).contains(e) && e.py_file == ms[k].file
                && e.py_line == ms[k].line && e.names == ms[k].names,
{
    let last = parts(ms[k].module, '.').last();
    home_is_exported(es, last, 0);
    home_is_exported(es, ms[k].module, 0);
    let one = joined_import(es, ms[k]);
    assert(one.len() == 1);
    assert(one.contains(one[0]));
    assert((edge_of(es, ms))(k) == one);
    crate::text::gather_contains(ms.len() as int, edge_of(es, ms), one[0]);
}

} // verus!
