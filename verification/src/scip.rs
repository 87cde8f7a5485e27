//! The code graph: definitions, the references between them, and which file depends on which,
//! read from a SCIP index. What is unreachable from the public interface is dead; what is used
//! from one other directory alone is misplaced.
use protobuf::Message;
use vstd::prelude::*;

use crate::links::{chain, closure, groups, leads, tangles, tangles_of};
use crate::moves::{add_capped, capped, Workspace};
use crate::order::{
    arrange, arranged, arranged_mapped, in_order, link, links, list_links, name_key, name_rank,
    named, pair_views, row_of, row_unique, value_of, Keyed, Names, Ranked, Table,
};
use crate::paths::plain;
use crate::text::{
    chars, contains, ends, ends_with, gather, lines, lines_of, occurs, rcut, rsplit_once, same,
    starts, starts_with, texts, trim_start, trimmed_start,
};

verus! {

// ── the index ──────────────────────────────────────────────────────────────────────────

/// An index: what was found in each source file.
#[derive(Debug, Clone)]
pub struct Index {
    pub documents: Vec<IndexDocument>,
}

/// A source file of an index.
#[derive(Debug, Clone)]
pub struct IndexDocument {
    pub relative_path: String,
    pub occurrences: Vec<IndexOccurrence>,
    pub symbols: Vec<IndexSymbol>,
}

/// A place where a symbol occurs. A range has three numbers on one line (the line and two
/// columns) or four (two lines with their columns).
#[derive(Debug, Clone)]
pub struct IndexOccurrence {
    pub symbol: String,
    pub roles: i32,
    pub range: Vec<i32>,
    pub enclosing_range: Vec<i32>,
}

/// What an index says about a symbol.
#[derive(Debug, Clone)]
pub struct IndexSymbol {
    pub symbol: String,
    pub display_name: String,
    pub kind: i32,
    /// For each relationship to another symbol, whether it is that of an implementation.
    pub implements: Vec<bool>,
}

/// A source file of an index.
#[verifier::ext_equal]
pub struct DocumentView {
    pub path: Seq<char>,
    pub occurrences: Seq<OccurrenceView>,
    pub symbols: Seq<SymbolView>,
}

/// A place where a symbol occurs.
#[verifier::ext_equal]
pub struct OccurrenceView {
    pub symbol: Seq<char>,
    pub roles: i32,
    pub range: Seq<i32>,
    pub enclosing: Seq<i32>,
}

/// What an index says about a symbol.
#[verifier::ext_equal]
pub struct SymbolView {
    pub symbol: Seq<char>,
    pub display: Seq<char>,
    pub kind: i32,
    pub implements: Seq<bool>,
}

impl View for IndexOccurrence {
    type V = OccurrenceView;

    open spec fn view(&self) -> OccurrenceView {
        OccurrenceView {
            symbol: self.symbol@,
            roles: self.roles,
            range: self.range@,
            enclosing: self.enclosing_range@,
        }
    }
}

impl View for IndexSymbol {
    type V = SymbolView;

    open spec fn view(&self) -> SymbolView {
        SymbolView {
            symbol: self.symbol@,
            display: self.display_name@,
            kind: self.kind,
            implements: self.implements@,
        }
    }
}

impl View for IndexDocument {
    type V = DocumentView;

    open spec fn view(&self) -> DocumentView {
        DocumentView {
            path: self.relative_path@,
            occurrences: self.occurrences@.map_values(|o: IndexOccurrence| o@),
            symbols: self.symbols@.map_values(|s: IndexSymbol| s@),
        }
    }
}

impl View for Index {
    type V = Seq<DocumentView>;

    open spec fn view(&self) -> Seq<DocumentView> {
        self.documents@.map_values(|d: IndexDocument| d@)
    }
}

/// Why bytes could not be read as a message.
#[verifier::external_type_specification]
#[verifier::external_body]
pub struct ExProtobufError(protobuf::Error);

/// The index that bytes encode, where they encode one.
pub uninterp spec fn encoded_index(bytes: Seq<u8>) -> Option<Seq<DocumentView>>;

/// `scip::types::Index::parse_from_bytes` reads the bytes as a SCIP index or refuses them, which
/// depends on the bytes alone. The documents are taken over field by field.
#[verifier::external_body]
fn decode_index(bytes: &[u8]) -> (r: Result<Index, protobuf::Error>)
    ensures
        match r {
            Ok(i) => encoded_index(bytes@) == Some(i@),
            Err(_) => encoded_index(bytes@) is None,
        },
{
    let index = scip::types::Index::parse_from_bytes(bytes)?;
    let documents = index.documents.into_iter().map(|d| IndexDocument {
        relative_path: d.relative_path,
        occurrences: d.occurrences.into_iter().map(|o| IndexOccurrence {
            symbol: o.symbol, roles: o.symbol_roles, range: o.range, enclosing_range: o.enclosing_range,
        }).collect(),
        symbols: d.symbols.into_iter().map(|s| IndexSymbol {
            symbol: s.symbol, display_name: s.display_name, kind: s.kind.value(),
            implements: s.relationships.into_iter().map(|r| r.is_implementation).collect(),
        }).collect(),
    }).collect();
    Ok(Index { documents })
}

/// Why an index could not be read.
#[derive(Debug, Clone, Copy, PartialEq, Eq, Structural)]
pub enum IndexError {
    /// The bytes are not an index.
    Malformed,
}

// ── definitions and references ─────────────────────────────────────────────────────────

/// A range of source text, from a line and a column to a line and a column.
#[derive(Debug, Clone, Copy, PartialEq, Eq, Structural)]
pub struct Range {
    pub sl: i32,
    pub sc: i32,
    pub el: i32,
    pub ec: i32,
}

/// The range that three or four numbers stand for.
pub open spec fn range_of(r: Seq<i32>) -> Option<Range> {
    if r.len() == 3 {
        Some(Range { sl: r[0], sc: r[1], el: r[0], ec: r[2] })
    } else if r.len() >= 4 {
        Some(Range { sl: r[0], sc: r[1], el: r[2], ec: r[3] })
    } else {
        None
    }
}

/// Whether a point lies in a range, its ends included.
pub open spec fn encloses(r: Range, line: i32, col: i32) -> bool {
    (line > r.sl || (line == r.sl && col >= r.sc)) && (line < r.el || (line == r.el && col <= r.ec))
}

/// How large a range is: by its lines, then by its columns.
pub open spec fn span_rank(r: Range) -> Seq<i64> {
    seq![(r.el - r.sl) as i64, (r.ec - r.sc) as i64]
}

impl Range {
    fn from_scip(r: &Vec<i32>) -> (out: Option<Range>)
        ensures
            out == range_of(r@),
    {
        if r.len() == 3 {
            Some(Range { sl: r[0], sc: r[1], el: r[0], ec: r[2] })
        } else if r.len() >= 4 {
            Some(Range { sl: r[0], sc: r[1], el: r[2], ec: r[3] })
        } else {
            None
        }
    }

    fn contains(&self, line: i32, col: i32) -> (r: bool)
        ensures
            r == encloses(*self, line, col),
    {
        (line > self.sl || (line == self.sl && col >= self.sc)) && (line < self.el || (line
            == self.el && col <= self.ec))
    }
}

/// A symbol that is defined in the index.
#[derive(Debug, Clone)]
pub struct Sym {
    pub display: String,
    pub kind: i32,
    pub file: String,
    pub def: Range,
    pub enclosing: Range,
    /// Whether the symbol implements a method of a trait, and is reached without a reference.
    pub is_impl: bool,
}

/// A symbol that is defined in the index.
#[verifier::ext_equal]
pub struct SymView {
    pub display: Seq<char>,
    pub kind: i32,
    pub file: Seq<char>,
    pub def: Range,
    pub enclosing: Range,
    pub is_impl: bool,
}

impl View for Sym {
    type V = SymView;

    open spec fn view(&self) -> SymView {
        SymView {
            display: self.display@,
            kind: self.kind,
            file: self.file@,
            def: self.def,
            enclosing: self.enclosing,
            is_impl: self.is_impl,
        }
    }
}

/// The view of an optional symbol.
pub open spec fn sym_opt(o: Option<Sym>) -> Option<SymView> {
    match o {
        Some(s) => Some(s@),
        None => None,
    }
}

impl Sym {
    /// A copy.
    pub fn copy(&self) -> (r: Sym)
        ensures
            r == *self,
    {
        Sym {
            display: self.display.clone(),
            kind: self.kind,
            file: self.file.clone(),
            def: self.def,
            enclosing: self.enclosing,
            is_impl: self.is_impl,
        }
    }
}

/// The role of an occurrence that defines its symbol, as a bit.
pub const ROLE_DEFINITION: i32 = 1;

/// The kind of a module.
pub const KIND_MODULE: i32 = 29;

/// Whether an occurrence defines its symbol.
pub open spec fn defines(o: OccurrenceView) -> bool {
    o.roles & 1 != 0
}

/// Whether a symbol has a name, and is not local to a function.
pub open spec fn global(symbol: Seq<char>) -> bool {
    symbol.len() > 0 && !starts(symbol, "local "@)
}

/// What a file says about a symbol: the first entry from `i` on.
pub open spec fn info_from(ss: Seq<SymbolView>, symbol: Seq<char>, i: int) -> Option<SymbolView>
    decreases ss.len() - i,
{
    if i >= ss.len() {
        None
    } else if ss[i].symbol == symbol {
        Some(ss[i])
    } else {
        info_from(ss, symbol, i + 1)
    }
}

/// A definition of a symbol.
#[verifier::ext_equal]
pub struct DefView {
    pub symbol: Seq<char>,
    pub sym: SymView,
}

/// The definition that an occurrence makes.
pub open spec fn def_at(doc: DocumentView) -> spec_fn(int) -> Seq<DefView> {
    |i: int|
        {
            let o = doc.occurrences[i];
            if !defines(o) || !global(o.symbol) {
                seq![]
            } else {
                match range_of(o.range) {
                    None => seq![],
                    Some(def) => {
                        let info = info_from(doc.symbols, o.symbol, 0);
                        seq![
                            (DefView {
                                symbol: o.symbol,
                                sym: SymView {
                                    display: match info {
                                        Some(s) => s.display,
                                        None => Seq::empty(),
                                    },
                                    kind: match info {
                                        Some(s) => s.kind,
                                        None => 0,
                                    },
                                    file: doc.path,
                                    def,
                                    enclosing: match range_of(o.enclosing) {
                                        Some(r) => r,
                                        None => def,
                                    },
                                    is_impl: match info {
                                        Some(s) => s.implements.contains(true),
                                        None => false,
                                    },
                                },
                            }),
                        ]
                    },
                }
            }
        }
}

/// The definitions of a file.
pub open spec fn defs_at(docs: Seq<DocumentView>) -> spec_fn(int) -> Seq<DefView> {
    |d: int| gather(docs[d].occurrences.len() as int, def_at(docs[d]))
}

/// The definitions of an index.
pub open spec fn all_defs(docs: Seq<DocumentView>) -> Seq<DefView> {
    gather(docs.len() as int, defs_at(docs))
}

/// The last of the first `n` definitions of a symbol.
pub open spec fn last_def(defs: Seq<DefView>, symbol: Seq<char>, n: int) -> Option<SymView>
    decreases n,
{
    if n <= 0 {
        None
    } else if defs[n - 1].symbol == symbol {
        Some(defs[n - 1].sym)
    } else {
        last_def(defs, symbol, n - 1)
    }
}

/// A definition and the text that it covers.
#[verifier::ext_equal]
pub struct EncView {
    pub symbol: Seq<char>,
    pub range: Range,
}

impl Ranked for EncView {
    open spec fn rank(&self) -> Seq<i64> {
        span_rank(self.range)
    }
}

/// The definition at a position, where it is one of a file.
pub open spec fn def_in(defs: Seq<DefView>, file: Seq<char>) -> spec_fn(int) -> Seq<EncView> {
    |i: int|
        if defs[i].sym.file == file {
            seq![(EncView { symbol: defs[i].symbol, range: defs[i].sym.enclosing })]
        } else {
            seq![]
        }
}

/// The definitions of a file, those that cover less first.
pub open spec fn enclosers(defs: Seq<DefView>, file: Seq<char>) -> Seq<EncView> {
    arranged(gather(defs.len() as int, def_in(defs, file)))
}

/// The first definition from `i` on that covers a point.
pub open spec fn encloser_from(es: Seq<EncView>, line: i32, col: i32, i: int) -> Option<Seq<char>>
    decreases es.len() - i,
{
    if i >= es.len() {
        None
    } else if encloses(es[i].range, line, col) {
        Some(es[i].symbol)
    } else {
        encloser_from(es, line, col, i + 1)
    }
}

/// The reference that an occurrence makes: from the definition that covers it most closely to
/// the symbol that occurs.
pub open spec fn ref_at(docs: Seq<DocumentView>, d: int) -> spec_fn(int) -> Seq<
    (Seq<char>, Seq<char>),
> {
    |i: int|
        {
            let o = docs[d].occurrences[i];
            let defs = all_defs(docs);
            if defines(o) || last_def(defs, o.symbol, defs.len() as int) is None {
                seq![]
            } else {
                match range_of(o.range) {
                    None => seq![],
                    Some(r) => match encloser_from(enclosers(defs, docs[d].path), r.sl, r.sc, 0) {
                        Some(from) => if from != o.symbol {
                            seq![(from, o.symbol)]
                        } else {
                            seq![]
                        },
                        None => seq![],
                    },
                }
            }
        }
}

/// The references of a file.
pub open spec fn refs_at(docs: Seq<DocumentView>) -> spec_fn(int) -> Seq<(Seq<char>, Seq<char>)> {
    |d: int| gather(docs[d].occurrences.len() as int, ref_at(docs, d))
}

/// The references of an index.
pub open spec fn all_refs(docs: Seq<DocumentView>) -> Seq<(Seq<char>, Seq<char>)> {
    gather(docs.len() as int, refs_at(docs))
}

/// The dependency of a file that an occurrence makes: on the file that defines the symbol,
/// unless that is a module, which is contained and not used.
pub open spec fn dep_at(docs: Seq<DocumentView>, d: int) -> spec_fn(int) -> Seq<
    (Seq<char>, Seq<char>),
> {
    |i: int|
        {
            let o = docs[d].occurrences[i];
            let defs = all_defs(docs);
            if defines(o) || range_of(o.range) is None {
                seq![]
            } else {
                match last_def(defs, o.symbol, defs.len() as int) {
                    Some(s) => if s.file != docs[d].path && s.kind != KIND_MODULE {
                        seq![(docs[d].path, s.file)]
                    } else {
                        seq![]
                    },
                    None => seq![],
                }
            }
        }
}

/// The dependencies that a file makes.
pub open spec fn deps_at(docs: Seq<DocumentView>) -> spec_fn(int) -> Seq<(Seq<char>, Seq<char>)> {
    |d: int| gather(docs[d].occurrences.len() as int, dep_at(docs, d))
}

/// The dependencies between the files of an index.
pub open spec fn all_deps(docs: Seq<DocumentView>) -> Seq<(Seq<char>, Seq<char>)> {
    gather(docs.len() as int, deps_at(docs))
}

/// How many of the first `n` occurrences are references.
pub open spec fn uses_upto(os: Seq<OccurrenceView>, n: int) -> int
    decreases n,
{
    if n <= 0 {
        0
    } else {
        uses_upto(os, n - 1) + (if defines(os[n - 1]) {
            0int
        } else {
            1int
        })
    }
}

/// How many references the first `n` files of an index hold.
pub open spec fn total_uses(docs: Seq<DocumentView>, n: int) -> int
    decreases n,
{
    if n <= 0 {
        0
    } else {
        capped(
            total_uses(docs, n - 1) + uses_upto(
                docs[n - 1].occurrences,
                docs[n - 1].occurrences.len() as int,
            ),
        )
    }
}

/// The code graph.
#[derive(Debug)]
pub struct CodeGraph {
    /// The symbols that are defined in the index.
    pub symbols: Table<Sym, false>,
    /// From each symbol to those that it refers to.
    pub refs: Table<Names, false>,
    /// From each file to those that it depends on.
    pub file_deps: Table<Names, false>,
    /// How many references there are.
    pub occurrences: usize,
}

/// Whether a table links exactly the pairs of a list.
pub open spec fn links_exactly(
    rows: Seq<(Seq<char>, Names)>,
    es: Seq<(Seq<char>, Seq<char>)>,
) -> bool {
    forall|a: Seq<char>, b: Seq<char>| #[trigger] links(rows, a, b) <==> es.contains((a, b))
}

/// Whether a table links each of its names to something.
pub open spec fn all_linked(rows: Seq<(Seq<char>, Names)>) -> bool {
    forall|a: Seq<char>| #[trigger] named(rows, a) ==> exists|b: Seq<char>| links(rows, a, b)
}

impl CodeGraph {
    /// Whether this is the graph of an index.
    pub open spec fn graphs(self, docs: Seq<DocumentView>) -> bool {
        &&& forall|id: Seq<char>| #[trigger]
            sym_opt(value_of(self.symbols@, id)) == last_def(
                all_defs(docs),
                id,
                all_defs(docs).len() as int,
            )
        &&& links_exactly(self.refs@, all_refs(docs))
        &&& all_linked(self.refs@)
        &&& links_exactly(self.file_deps@, all_deps(docs))
        &&& all_linked(self.file_deps@)
        &&& self.occurrences == total_uses(docs, docs.len() as int)
    }

    /// A graph without anything in it.
    pub fn new() -> (r: CodeGraph)
        ensures
            r.symbols@.len() == 0,
            r.refs@.len() == 0,
            r.file_deps@.len() == 0,
            r.occurrences == 0,
    {
        CodeGraph {
            symbols: Table::new(),
            refs: Table::new(),
            file_deps: Table::new(),
            occurrences: 0,
        }
    }
}

impl Default for CodeGraph {
    fn default() -> (r: CodeGraph)
        ensures
            r.symbols@.len() == 0,
            r.refs@.len() == 0,
            r.file_deps@.len() == 0,
            r.occurrences == 0,
    {
        CodeGraph::new()
    }
}

struct Def {
    symbol: String,
    sym: Sym,
}

impl View for Def {
    type V = DefView;

    closed spec fn view(&self) -> DefView {
        DefView { symbol: self.symbol@, sym: self.sym@ }
    }
}

spec fn def_views(v: Seq<Def>) -> Seq<DefView> {
    v.map_values(|d: Def| d@)
}

struct Enc {
    symbol: String,
    range: Range,
}

impl View for Enc {
    type V = EncView;

    closed spec fn view(&self) -> EncView {
        EncView { symbol: self.symbol@, range: self.range }
    }
}

impl Ranked for Enc {
    closed spec fn rank(&self) -> Seq<i64> {
        span_rank(self.range)
    }
}

impl Keyed for Enc {
    fn key(&self) -> (r: Vec<i64>) {
        let mut k: Vec<i64> = Vec::new();
        k.push(self.range.el as i64 - self.range.sl as i64);
        k.push(self.range.ec as i64 - self.range.sc as i64);
        assert(k@ =~= span_rank(self.range));
        k
    }
}

spec fn enc_views(v: Seq<Enc>) -> Seq<EncView> {
    v.map_values(|e: Enc| e@)
}

fn does_define(o: &IndexOccurrence) -> (r: bool)
    ensures
        r == defines(o@),
{
    o.roles & 1 != 0
}

fn is_global(symbol: &str) -> (r: bool)
    ensures
        r == global(symbol@),
{
    chars(symbol).len() > 0 && !starts_with(symbol, "local ")
}

fn find_info<'a>(doc: &'a IndexDocument, symbol: &str) -> (r: Option<&'a IndexSymbol>)
    ensures
        match r {
            Some(s) => info_from(doc@.symbols, symbol@, 0) == Some(s@),
            None => info_from(doc@.symbols, symbol@, 0) is None,
        },
{
    let ghost ss = doc@.symbols;
    let mut i: usize = 0;
    while i < doc.symbols.len()
        invariant
            i <= doc.symbols.len(),
            ss == doc.symbols@.map_values(|s: IndexSymbol| s@),
            info_from(ss, symbol@, 0) == info_from(ss, symbol@, i as int),
        decreases doc.symbols.len() - i,
    {
        assert(ss[i as int] == doc.symbols@[i as int]@);
        if same(doc.symbols[i].symbol.as_str(), symbol) {
            return Some(&doc.symbols[i]);
        }
        i += 1;
    }
    None
}

fn any_true(v: &Vec<bool>) -> (r: bool)
    ensures
        r == v@.contains(true),
{
    let mut i: usize = 0;
    while i < v.len()
        invariant
            i <= v.len(),
            forall|k: int| 0 <= k < i ==> !#[trigger] v@[k],
        decreases v.len() - i,
    {
        if v[i] {
            assert(v@[i as int] == true);
            return true;
        }
        i += 1;
    }
    assert(!v@.contains(true));
    false
}

fn make_def(doc: &IndexDocument, o: &IndexOccurrence, def: Range) -> (r: Def)
    ensures
        r@.symbol == o.symbol@,
        r@.sym.file == doc.relative_path@,
        r@.sym.def == def,
        r@.sym.enclosing == (match range_of(o.enclosing_range@) {
            Some(e) => e,
            None => def,
        }),
        r@.sym.display == (match info_from(doc@.symbols, o.symbol@, 0) {
            Some(s) => s.display,
            None => Seq::empty(),
        }),
        r@.sym.kind == (match info_from(doc@.symbols, o.symbol@, 0) {
            Some(s) => s.kind,
            None => 0,
        }),
        r@.sym.is_impl == (match info_from(doc@.symbols, o.symbol@, 0) {
            Some(s) => s.implements.contains(true),
            None => false,
        }),
{
    let enclosing = match Range::from_scip(&o.enclosing_range) {
        Some(e) => e,
        None => def,
    };
    let (display, kind, is_impl) = match find_info(doc, o.symbol.as_str()) {
        Some(s) => (s.display_name.clone(), s.kind, any_true(&s.implements)),
        None => (String::new(), 0, false),
    };
    proof {
        if info_from(doc@.symbols, o.symbol@, 0) is None {
            assert(display@ =~= Seq::<char>::empty());
        }
    }
    Def {
        symbol: o.symbol.clone(),
        sym: Sym { display, kind, file: doc.relative_path.clone(), def, enclosing, is_impl },
    }
}

fn add_defs(doc: &IndexDocument, out: &mut Vec<Def>)
    ensures
        def_views(final(out)@) == def_views(old(out)@) + gather(
            doc@.occurrences.len() as int,
            def_at(doc@),
        ),
{
    let ghost base = def_views(out@);
    let ghost os = doc@.occurrences;
    let mut i: usize = 0;
    while i < doc.occurrences.len()
        invariant
            i <= doc.occurrences.len(),
            os == doc@.occurrences,
            os == doc.occurrences@.map_values(|o: IndexOccurrence| o@),
            def_views(out@) =~= base + gather(i as int, def_at(doc@)),
        decreases doc.occurrences.len() - i,
    {
        let o = &doc.occurrences[i];
        assert(os[i as int] == o@);
        if does_define(o) && is_global(o.symbol.as_str()) {
            match Range::from_scip(&o.range) {
                Some(def) => {
                    let d = make_def(doc, o, def);
                    let ghost now = def_views(out@);
                    assert(def_views(out@.push(d)) =~= now.push(d@));
                    assert((def_at(doc@))(i as int) =~= seq![d@]);
                    out.push(d);
                },
                None => {},
            }
        }
        i += 1;
    }
    assert(os.len() == doc.occurrences@.len());
}

fn list_defs(index: &Index) -> (r: Vec<Def>)
    ensures
        def_views(r@) == all_defs(index@),
{
    let ghost docs = index@;
    let mut out: Vec<Def> = Vec::new();
    let mut d: usize = 0;
    while d < index.documents.len()
        invariant
            d <= index.documents.len(),
            docs == index.documents@.map_values(|x: IndexDocument| x@),
            def_views(out@) =~= gather(d as int, defs_at(docs)),
        decreases index.documents.len() - d,
    {
        assert(docs[d as int] == index.documents@[d as int]@);
        add_defs(&index.documents[d], &mut out);
        d += 1;
    }
    out
}

fn index_symbols(defs: &Vec<Def>) -> (r: Table<Sym, false>)
    ensures
        forall|id: Seq<char>| #[trigger]
            sym_opt(value_of(r@, id)) == last_def(def_views(defs@), id, defs@.len() as int),
{
    let ghost all = def_views(defs@);
    let mut t: Table<Sym, false> = Table::new();
    let mut i: usize = 0;
    while i < defs.len()
        invariant
            i <= defs.len(),
            all == def_views(defs@),
            forall|id: Seq<char>| #[trigger]
                sym_opt(value_of(t@, id)) == last_def(all, id, i as int),
        decreases defs.len() - i,
    {
        let ghost before = t@;
        assert(all[i as int] == defs@[i as int]@);
        t.insert(defs[i].symbol.clone(), defs[i].sym.copy());
        assert forall|id: Seq<char>| #[trigger] sym_opt(value_of(t@, id)) == last_def(
            all,
            id,
            i + 1,
        ) by {
            if id != defs@[i as int].symbol@ {
                assert(value_of(t@, id) == value_of(before, id));
                assert(sym_opt(value_of(before, id)) == last_def(all, id, i as int));
            }
        }
        i += 1;
    }
    t
}

/// Whether a table holds, for each file, its definitions among the first `n`.
spec fn tabled(
    rows: Seq<(Seq<char>, Vec<Enc>)>,
    defs: Seq<DefView>,
    n: int,
) -> bool {
    forall|f: Seq<char>|
        (match #[trigger] value_of(rows, f) {
            Some(v) => enc_views(v@),
            None => Seq::empty(),
        }) == gather(n, def_in(defs, f))
}

fn index_enclosers(defs: &Vec<Def>) -> (r: Table<Vec<Enc>, false>)
    ensures
        tabled(r@, def_views(defs@), defs@.len() as int),
{
    let ghost all = def_views(defs@);
    let mut t: Table<Vec<Enc>, false> = Table::new();
    let mut i: usize = 0;
    while i < defs.len()
        invariant
            i <= defs.len(),
            all == def_views(defs@),
            tabled(t@, all, i as int),
        decreases defs.len() - i,
    {
        let d = &defs[i];
        let ghost before = t@;
        assert(all[i as int] == d@);
        let ghost file = d.sym.file@;
        let e = Enc { symbol: d.symbol.clone(), range: d.sym.enclosing };
        let ghost ev = e@;
        let mut list: Vec<Enc> = match t.find(d.sym.file.as_str()) {
            Some(k) => t.swap(k, Vec::new()),
            None => Vec::new(),
        };
        let ghost had = enc_views(list@);
        let ghost mid = t@;
        assert(had =~= gather(i as int, def_in(all, file))) by {
            assert((match value_of(before, file) {
                Some(v) => enc_views(v@),
                None => Seq::empty(),
            }) == gather(i as int, def_in(all, file)));
        }
        assert(enc_views(list@.push(e)) =~= had.push(ev));
        list.push(e);
        t.insert(d.sym.file.clone(), list);
        proof {
            assert forall|f: Seq<char>|
                (match #[trigger] value_of(t@, f) {
                    Some(v) => enc_views(v@),
                    None => Seq::empty(),
                }) == gather(i + 1, def_in(all, f)) by {
                let old_f = gather(i as int, def_in(all, f));
                if f == file {
                    assert(gather(i + 1, def_in(all, f)) == old_f + seq![ev]);
                    assert(had.push(ev) =~= old_f + seq![ev]);
                } else {
                    assert(value_of(t@, f) == value_of(mid, f));
                    assert(value_of(mid, f) == value_of(before, f));
                    assert(gather(i + 1, def_in(all, f)) =~= old_f);
                }
            }
        }
        i += 1;
    }
    t
}

/// Puts the definitions of a file in order.
fn sort_enclosers(list: &Vec<Enc>) -> (r: Vec<Enc>)
    ensures
        enc_views(r@) == arranged(enc_views(list@)),
{
    let mut copies: Vec<Enc> = Vec::new();
    let mut i: usize = 0;
    while i < list.len()
        invariant
            i <= list.len(),
            copies.len() == i,
            forall|k: int| 0 <= k < i ==> (#[trigger] copies@[k])@ == list@[k]@,
        decreases list.len() - i,
    {
        copies.push(Enc { symbol: list[i].symbol.clone(), range: list[i].range });
        i += 1;
    }
    proof {
        assert(enc_views(copies@) =~= enc_views(list@));
        arranged_mapped(copies@, |e: Enc| e@);
    }
    arrange(copies)
}

fn find_encloser<'a>(list: &'a Vec<Enc>, line: i32, col: i32) -> (r: Option<&'a String>)
    ensures
        match r {
            Some(s) => encloser_from(enc_views(list@), line, col, 0) == Some(s@),
            None => encloser_from(enc_views(list@), line, col, 0) is None,
        },
{
    let ghost es = enc_views(list@);
    let mut i: usize = 0;
    while i < list.len()
        invariant
            i <= list.len(),
            es == enc_views(list@),
            encloser_from(es, line, col, 0) == encloser_from(es, line, col, i as int),
        decreases list.len() - i,
    {
        assert(es[i as int] == list@[i as int]@);
        if list[i].range.contains(line, col) {
            return Some(&list[i].symbol);
        }
        i += 1;
    }
    None
}

/// Whether the links of a table are those of a list with more behind them.
spec fn links_grown(
    now: Seq<(Seq<char>, Names)>,
    base: Seq<(Seq<char>, Names)>,
    more: Seq<(Seq<char>, Seq<char>)>,
) -> bool {
    forall|a: Seq<char>, b: Seq<char>| #[trigger]
        links(now, a, b) <==> links(base, a, b) || more.contains((a, b))
}

proof fn grown_more(
    now: Seq<(Seq<char>, Names)>,
    mid: Seq<(Seq<char>, Names)>,
    base: Seq<(Seq<char>, Names)>,
    more: Seq<(Seq<char>, Seq<char>)>,
    extra: Seq<(Seq<char>, Seq<char>)>,
)
    requires
        links_grown(mid, base, more),
        links_grown(now, mid, extra),
    ensures
        links_grown(now, base, more + extra),
{
    assert forall|a: Seq<char>, b: Seq<char>| #[trigger] links(now, a, b) <==> links(base, a, b)
        || (more + extra).contains((a, b)) by {
        crate::text::concat_contains(more, extra, (a, b));
        assert(links(mid, a, b) <==> links(base, a, b) || more.contains((a, b)));
    }
}

proof fn grown_none(now: Seq<(Seq<char>, Names)>)
    ensures
        links_grown(now, now, Seq::empty()),
{
    assert forall|a: Seq<char>, b: Seq<char>| #[trigger] links(now, a, b) <==> links(now, a, b)
        || Seq::<(Seq<char>, Seq<char>)>::empty().contains((a, b)) by {}
}

fn link_one(t: &mut Table<Names, false>, a: &str, b: &str)
    requires
        all_linked(old(t)@),
    ensures
        links_grown(final(t)@, old(t)@, seq![(a@, b@)]),
        all_linked(final(t)@),
{
    let ghost before = t@;
    link(t, a, b);
    assert forall|x: Seq<char>| #[trigger] named(t@, x) implies exists|y: Seq<char>|
        links(t@, x, y) by {
        if x == a@ {
            assert(links(t@, x, b@));
        } else {
            assert(named(before, x));
            let y = choose|y: Seq<char>| links(before, x, y);
            assert(links(t@, x, y));
        }
    }
    assert forall|x: Seq<char>, y: Seq<char>| #[trigger] links(t@, x, y) <==> links(before, x, y)
        || seq![(a@, b@)].contains((x, y)) by {
        let one = seq![(a@, b@)];
        assert(one[0] == (a@, b@));
        if one.contains((x, y)) {
            let i = choose|i: int| 0 <= i < one.len() && one[i] == (x, y);
        }
    }
}

/// Adds what one occurrence of a file refers to.
fn add_use(
    symbols: &Table<Sym, false>,
    list: &Vec<Enc>,
    path: &str,
    o: &IndexOccurrence,
    refs: &mut Table<Names, false>,
    deps: &mut Table<Names, false>,
    Ghost(docs): Ghost<Seq<DocumentView>>,
    Ghost(d): Ghost<int>,
    Ghost(i): Ghost<int>,
)
    requires
        0 <= d < docs.len(),
        0 <= i < docs[d].occurrences.len(),
        docs[d].path == path@,
        docs[d].occurrences[i] == o@,
        forall|id: Seq<char>| #[trigger]
            sym_opt(value_of(symbols@, id)) == last_def(
                all_defs(docs),
                id,
                all_defs(docs).len() as int,
            ),
        enc_views(list@) == enclosers(all_defs(docs), path@),
        all_linked(old(refs)@),
        all_linked(old(deps)@),
    ensures
        links_grown(final(refs)@, old(refs)@, (ref_at(docs, d))(i)),
        links_grown(final(deps)@, old(deps)@, (dep_at(docs, d))(i)),
        all_linked(final(refs)@),
        all_linked(final(deps)@),
{
    proof {
        grown_none(refs@);
        grown_none(deps@);
        assert(sym_opt(value_of(symbols@, o.symbol@)) == last_def(
            all_defs(docs),
            o.symbol@,
            all_defs(docs).len() as int,
        ));
    }
    if does_define(o) {
        return ;
    }
    match symbols.get(o.symbol.as_str()) {
        None => {},
        Some(target) => match Range::from_scip(&o.range) {
            None => {},
            Some(start) => {
                match find_encloser(list, start.sl, start.sc) {
                    Some(from) => {
                        if !same(from.as_str(), o.symbol.as_str()) {
                            link_one(refs, from.as_str(), o.symbol.as_str());
                        }
                    },
                    None => {},
                }
                if !same(path, target.file.as_str()) && target.kind != KIND_MODULE {
                    link_one(deps, path, target.file.as_str());
                }
            },
        },
    }
}

/// Adds what the occurrences of a file refer to, and counts them.
fn add_uses(
    symbols: &Table<Sym, false>,
    list: &Vec<Enc>,
    doc: &IndexDocument,
    refs: &mut Table<Names, false>,
    deps: &mut Table<Names, false>,
    Ghost(docs): Ghost<Seq<DocumentView>>,
    Ghost(d): Ghost<int>,
) -> (n: usize)
    requires
        0 <= d < docs.len(),
        docs[d] == doc@,
        forall|id: Seq<char>| #[trigger]
            sym_opt(value_of(symbols@, id)) == last_def(
                all_defs(docs),
                id,
                all_defs(docs).len() as int,
            ),
        enc_views(list@) == enclosers(all_defs(docs), doc@.path),
        all_linked(old(refs)@),
        all_linked(old(deps)@),
    ensures
        links_grown(final(refs)@, old(refs)@, (refs_at(docs))(d)),
        links_grown(final(deps)@, old(deps)@, (deps_at(docs))(d)),
        all_linked(final(refs)@),
        all_linked(final(deps)@),
        n == uses_upto(doc@.occurrences, doc@.occurrences.len() as int),
{
    let ghost refs0 = refs@;
    let ghost deps0 = deps@;
    let ghost os = doc@.occurrences;
    proof {
        grown_none(refs@);
        grown_none(deps@);
    }
    let mut n: usize = 0;
    let mut i: usize = 0;
    while i < doc.occurrences.len()
        invariant
            i <= doc.occurrences.len(),
            0 <= d < docs.len(),
            docs[d] == doc@,
            os == doc@.occurrences,
            os == doc.occurrences@.map_values(|o: IndexOccurrence| o@),
            forall|id: Seq<char>| #[trigger]
                sym_opt(value_of(symbols@, id)) == last_def(
                    all_defs(docs),
                    id,
                    all_defs(docs).len() as int,
                ),
            enc_views(list@) == enclosers(all_defs(docs), doc@.path),
            links_grown(refs@, refs0, gather(i as int, ref_at(docs, d))),
            links_grown(deps@, deps0, gather(i as int, dep_at(docs, d))),
            all_linked(refs@),
            all_linked(deps@),
            n == uses_upto(os, i as int),
            n <= i,
        decreases doc.occurrences.len() - i,
    {
        let o = &doc.occurrences[i];
        assert(os[i as int] == o@);
        let ghost refs1 = refs@;
        let ghost deps1 = deps@;
        if !does_define(o) {
            n += 1;
        }
        add_use(
            symbols,
            list,
            doc.relative_path.as_str(),
            o,
            refs,
            deps,
            Ghost(docs),
            Ghost(d),
            Ghost(i as int),
        );
        proof {
            grown_more(
                refs@,
                refs1,
                refs0,
                gather(i as int, ref_at(docs, d)),
                (ref_at(docs, d))(i as int),
            );
            grown_more(
                deps@,
                deps1,
                deps0,
                gather(i as int, dep_at(docs, d)),
                (dep_at(docs, d))(i as int),
            );
        }
        i += 1;
    }
    assert(os.len() == doc.occurrences@.len());
    n
}

impl CodeGraph {
    /// The graph of an index.
    pub fn from_index(index: &Index) -> (r: CodeGraph)
        ensures
            r.graphs(index@),
    {
        let ghost docs = index@;
        let defs = list_defs(index);
        let ghost all = all_defs(docs);
        let symbols = index_symbols(&defs);
        let tables = index_enclosers(&defs);
        assert(all.len() == defs@.len());
        let mut refs: Table<Names, false> = Table::new();
        let mut deps: Table<Names, false> = Table::new();
        let ghost refs0 = refs@;
        let ghost deps0 = deps@;
        let mut uses: usize = 0;
        proof {
            grown_none(refs@);
            grown_none(deps@);
        }
        let mut d: usize = 0;
        while d < index.documents.len()
            invariant
                d <= index.documents.len(),
                docs == index@,
                docs == index.documents@.map_values(|x: IndexDocument| x@),
                all == all_defs(docs),
                tabled(tables@, all, all.len() as int),
                forall|id: Seq<char>| #[trigger]
                    sym_opt(value_of(symbols@, id)) == last_def(all, id, all.len() as int),
                links_grown(refs@, refs0, gather(d as int, refs_at(docs))),
                links_grown(deps@, deps0, gather(d as int, deps_at(docs))),
                all_linked(refs@),
                all_linked(deps@),
                uses == total_uses(docs, d as int),
            decreases index.documents.len() - d,
        {
            let doc = &index.documents[d];
            assert(docs[d as int] == doc@);
            let ghost file = doc.relative_path@;
            let found = tables.get(doc.relative_path.as_str());
            let list = match found {
                Some(v) => sort_enclosers(v),
                None => {
                    let none: Vec<Enc> = Vec::new();
                    assert(enc_views(none@) =~= Seq::<EncView>::empty());
                    none
                },
            };
            assert((match value_of(tables@, file) {
                Some(v) => enc_views(v@),
                None => Seq::empty(),
            }) == gather(all.len() as int, def_in(all, file)));
            assert(enc_views(list@) == enclosers(all, file));
            let ghost refs1 = refs@;
            let ghost deps1 = deps@;
            let n = add_uses(
                &symbols,
                &list,
                doc,
                &mut refs,
                &mut deps,
                Ghost(docs),
                Ghost(d as int),
            );
            uses = add_capped(uses, n);
            proof {
                grown_more(
                    refs@,
                    refs1,
                    refs0,
                    gather(d as int, refs_at(docs)),
                    (refs_at(docs))(d as int),
                );
                grown_more(
                    deps@,
                    deps1,
                    deps0,
                    gather(d as int, deps_at(docs)),
                    (deps_at(docs))(d as int),
                );
            }
            d += 1;
        }
        assert(docs.len() == index.documents@.len());
        proof {
            assert forall|a: Seq<char>, b: Seq<char>| !#[trigger] links(refs0, a, b) by {}
            assert forall|a: Seq<char>, b: Seq<char>| !#[trigger] links(deps0, a, b) by {}
            assert forall|a: Seq<char>, b: Seq<char>| #[trigger] links(refs@, a, b) <==> all_refs(
                docs,
            ).contains((a, b)) by {
                assert(!links(refs0, a, b));
            }
            assert forall|a: Seq<char>, b: Seq<char>| #[trigger] links(deps@, a, b) <==> all_deps(
                docs,
            ).contains((a, b)) by {
                assert(!links(deps0, a, b));
            }
        }
        CodeGraph { symbols, refs, file_deps: deps, occurrences: uses }
    }

    /// The graph of an index that is read from its bytes.
    pub fn from_bytes(bytes: &[u8]) -> (r: Result<CodeGraph, IndexError>)
        ensures
            match r {
                Ok(g) => encoded_index(bytes@) is Some && g.graphs(encoded_index(bytes@)->0),
                Err(e) => encoded_index(bytes@) is None && e == IndexError::Malformed,
            },
    {
        match decode_index(bytes) {
            Ok(index) => Ok(CodeGraph::from_index(&index)),
            Err(_) => Err(IndexError::Malformed),
        }
    }

    /// The graph of several indices that are read from their bytes, taken together.
    pub fn from_all_bytes(files: &Vec<Vec<u8>>) -> (r: Result<CodeGraph, IndexError>)
        ensures
            match r {
                Ok(g) => (forall|i: int|
                    0 <= i < files@.len() ==> (#[trigger] encoded_index(files@[i]@)) is Some)
                    && g.graphs(gather(files@.len() as int, decoded(files@))),
                Err(e) => e == IndexError::Malformed && exists|i: int|
                    0 <= i < files@.len() && (#[trigger] encoded_index(files@[i]@)) is None,
            },
    {
        let mut documents: Vec<IndexDocument> = Vec::new();
        let mut i: usize = 0;
        assert(doc_views(documents@) =~= Seq::<DocumentView>::empty());
        while i < files.len()
            invariant
                i <= files.len(),
                doc_views(documents@) =~= gather(i as int, decoded(files@)),
                forall|k: int| 0 <= k < i ==> (#[trigger] encoded_index(files@[k]@)) is Some,
            decreases files.len() - i,
        {
            match decode_index(files[i].as_slice()) {
                Ok(index) => {
                    let mut more = index.documents;
                    assert(doc_views(documents@ + more@) =~= doc_views(documents@) + doc_views(
                        more@,
                    ));
                    assert((decoded(files@))(i as int) == doc_views(more@));
                    documents.append(&mut more);
                },
                Err(_) => {
                    assert(encoded_index(files@[i as int]@) is None);
                    return Err(IndexError::Malformed);
                },
            }
            i += 1;
        }
        let index = Index { documents };
        assert(index@ == doc_views(documents@));
        Ok(CodeGraph::from_index(&index))
    }
}

spec fn doc_views(v: Seq<IndexDocument>) -> Seq<DocumentView> {
    v.map_values(|d: IndexDocument| d@)
}

/// The documents of an index that is read from the bytes at a position.
pub open spec fn decoded(files: Seq<Vec<u8>>) -> spec_fn(int) -> Seq<DocumentView> {
    |i: int|
        match encoded_index(files[i]@) {
            Some(docs) => docs,
            None => seq![],
        }
}

// ── what is alive ──────────────────────────────────────────────────────────────────────

/// Whether `p` is a chain of symbols, each of which refers to the next.
pub open spec fn ref_chain(rows: Seq<(Seq<char>, Names)>, p: Seq<Seq<char>>) -> bool {
    &&& p.len() >= 1
    &&& forall|i: int| 0 <= i < p.len() - 1 ==> links(rows, #[trigger] p[i], p[i + 1])
}

/// Whether a chain of references leads from `a` to `b`.
pub open spec fn refers(rows: Seq<(Seq<char>, Names)>, a: Seq<char>, b: Seq<char>) -> bool {
    exists|p: Seq<Seq<char>>| #[trigger] ref_chain(rows, p) && p[0] == a && p.last() == b
}

/// Whether a symbol is reached from some entry.
pub open spec fn alive(
    rows: Seq<(Seq<char>, Names)>,
    entry: Seq<(Seq<char>, ())>,
    s: Seq<char>,
) -> bool {
    exists|e: Seq<char>| #[trigger] named(entry, e) && refers(rows, e, s)
}

proof fn refers_is_leads(
    rows: Seq<(Seq<char>, Names)>,
    es: Seq<(Seq<char>, Seq<char>)>,
    a: Seq<char>,
    b: Seq<char>,
)
    requires
        forall|x: Seq<char>, y: Seq<char>| #[trigger] es.contains((x, y)) <==> links(rows, x, y),
    ensures
        refers(rows, a, b) <==> leads(es, a, b),
{
    if refers(rows, a, b) {
        let p = choose|p: Seq<Seq<char>>| #[trigger]
            ref_chain(rows, p) && p[0] == a && p.last() == b;
        assert forall|i: int| 0 <= i < p.len() - 1 implies es.contains((#[trigger] p[i], p[i + 1])) by {
            assert(links(rows, p[i], p[i + 1]));
        }
        assert(chain(es, p));
    }
    if leads(es, a, b) {
        let p = choose|p: Seq<Seq<char>>| #[trigger] chain(es, p) && p[0] == a && p.last() == b;
        assert forall|i: int| 0 <= i < p.len() - 1 implies links(rows, #[trigger] p[i], p[i + 1]) by {
            assert(es.contains((p[i], p[i + 1])));
        }
        assert(ref_chain(rows, p));
    }
}

#[verifier::spinoff_prover]
#[verifier::rlimit(40)]
proof fn alive_is_led(
    rows: Seq<(Seq<char>, Names)>,
    entry: Seq<(Seq<char>, ())>,
    es: Seq<(Seq<char>, Seq<char>)>,
    s: Seq<char>,
)
    requires
        forall|x: Seq<char>, y: Seq<char>| #[trigger] es.contains((x, y)) <==> links(rows, x, y),
    ensures
        alive(rows, entry, s) <==> exists|e: Seq<char>| #[trigger] named(entry, e) && leads(es, e, s),
{
    if alive(rows, entry, s) {
        let e = choose|e: Seq<char>| #[trigger] named(entry, e) && refers(rows, e, s);
        refers_is_leads(rows, es, e, s);
        assert(named(entry, e) && leads(es, e, s));
    }
    if exists|e: Seq<char>| #[trigger] named(entry, e) && leads(es, e, s) {
        let e = choose|e: Seq<char>| #[trigger] named(entry, e) && leads(es, e, s);
        refers_is_leads(rows, es, e, s);
        assert(named(entry, e) && refers(rows, e, s));
    }
}

/// The text of a file, or nothing where it is not there.
pub open spec fn source_lines(ws: Workspace, file: Seq<char>) -> Seq<Seq<char>> {
    match value_of(ws.files@, plain(file)) {
        Some(t) => lines_of(t@),
        None => Seq::empty(),
    }
}

/// The line on which a symbol is defined.
pub open spec fn def_line(s: Sym) -> int {
    if s.def.sl > 0 {
        s.def.sl as int
    } else {
        0
    }
}

/// Whether a line begins something public.
pub open spec fn public_line(line: Seq<char>) -> bool {
    starts(trimmed_start(line), "pub "@) || starts(trimmed_start(line), "pub("@)
}

/// What a line holds before its first opening brace.
pub open spec fn before_brace(t: Seq<char>) -> Seq<char> {
    crate::text::parts(t, '{')[0]
}

/// Whether the nearest line from `i` upwards that begins an `impl` begins that of a trait.
pub open spec fn trait_impl_above(ls: Seq<Seq<char>>, i: int) -> bool
    decreases i + 1,
{
    if i < 0 {
        false
    } else {
        let t = trimmed_start(ls[i]);
        if starts(t, "impl "@) || starts(t, "impl<"@) {
            occurs(before_brace(t), " for "@)
        } else {
            trait_impl_above(ls, i - 1)
        }
    }
}

/// Whether the definition at a line stands in the implementation of a trait.
pub open spec fn in_trait_impl(ls: Seq<Seq<char>>, line: int) -> bool {
    trait_impl_above(
        ls,
        if line < ls.len() {
            line
        } else {
            ls.len() - 1
        },
    )
}

/// Whether a symbol is alive by itself: it implements something, is the entry of a program, is
/// public, or stands in the implementation of a trait.
pub open spec fn root_symbol(ws: Workspace, s: Sym) -> bool {
    let ls = source_lines(ws, s.file@);
    let n = def_line(s);
    ||| s.is_impl
    ||| s.display@ == "main"@
    ||| (n < ls.len() && public_line(ls[n]))
    ||| in_trait_impl(ls, n)
}

/// Whether a symbol is dead: a Rust symbol of one of the kinds, outside of tests, that nothing
/// alive refers to.
pub open spec fn dead(
    g: CodeGraph,
    ws: Workspace,
    kinds: Seq<i32>,
    roots: Seq<(Seq<char>, ())>,
    i: int,
) -> bool {
    let s = g.symbols@[i].1;
    let ls = source_lines(ws, s.file@);
    &&& !alive(g.refs@, roots, g.symbols@[i].0)
    &&& kinds.len() == 0 || kinds.contains(s.kind)
    &&& ends(s.file@, ".rs"@)
    &&& crate::forgotten::tests_from(ls, 0) >= ls.len() || def_line(s)
        < crate::forgotten::tests_from(ls, 0)
}

/// The symbol at a position, where it is dead.
pub open spec fn dead_at(
    g: CodeGraph,
    ws: Workspace,
    kinds: Seq<i32>,
    roots: Seq<(Seq<char>, ())>,
) -> spec_fn(int) -> Seq<Sym> {
    |i: int|
        if dead(g, ws, kinds, roots, i) {
            seq![g.symbols@[i].1]
        } else {
            seq![]
        }
}

/// Whether a set holds exactly the symbols that are alive by themselves.
pub open spec fn roots_of(g: CodeGraph, ws: Workspace, roots: Seq<(Seq<char>, ())>) -> bool {
    in_order(false, roots) && forall|id: Seq<char>| #[trigger]
        named(roots, id) <==> (match value_of(g.symbols@, id) {
            Some(s) => root_symbol(ws, s),
            None => false,
        })
}

impl Ranked for Sym {
    open spec fn rank(&self) -> Seq<i64> {
        name_rank(false, self.file@).push((-1) as i64).push(self.def.sl as i64)
    }
}

impl Keyed for Sym {
    fn key(&self) -> (r: Vec<i64>) {
        let mut k = name_key(false, self.file.as_str());
        k.push(-1);
        k.push(self.def.sl as i64);
        k
    }
}

fn read_lines(ws: &Workspace, file: &str) -> (r: Vec<String>)
    ensures
        texts(r@) == source_lines(*ws, file@),
{
    match ws.files.get(file) {
        Some(t) => lines(t.as_str()),
        None => {
            let none: Vec<String> = Vec::new();
            assert(texts(none@) =~= Seq::<Seq<char>>::empty());
            none
        },
    }
}

fn find_def_line(s: &Sym) -> (r: usize)
    ensures
        r == def_line(*s),
{
    if s.def.sl > 0 {
        s.def.sl as usize
    } else {
        0
    }
}

fn is_in_trait_impl(ls: &Vec<String>, line: usize) -> (r: bool)
    ensures
        r == in_trait_impl(texts(ls@), line as int),
{
    let ghost all = texts(ls@);
    let ghost start = if (line as int) < all.len() {
        line as int
    } else {
        all.len() - 1
    };
    let mut n: usize = if line < ls.len() {
        line + 1
    } else {
        ls.len()
    };
    while n > 0
        invariant
            n <= ls.len(),
            all == texts(ls@),
            in_trait_impl(all, line as int) == trait_impl_above(all, start),
            trait_impl_above(all, start) == trait_impl_above(all, n - 1),
        decreases n,
    {
        assert(all[n - 1] == ls@[n - 1]@);
        let t = trim_start(ls[n - 1].as_str());
        if starts_with(t.as_str(), "impl ") || starts_with(t.as_str(), "impl<") {
            let ps = crate::text::split(t.as_str(), '{');
            proof {
                crate::text::parts_nonempty(t@, '{', 0);
                assert(texts(ps@).len() == ps@.len());
                assert(texts(ps@)[0] == ps@[0]@);
            }
            return contains(ps[0].as_str(), " for ");
        }
        n -= 1;
    }
    false
}

fn is_root_symbol(ws: &Workspace, s: &Sym) -> (r: bool)
    ensures
        r == root_symbol(*ws, *s),
{
    if s.is_impl || same(s.display.as_str(), "main") {
        return true;
    }
    let ls = read_lines(ws, s.file.as_str());
    let ghost all = texts(ls@);
    let n = find_def_line(s);
    assert(all.len() == ls@.len());
    if n < ls.len() {
        assert(all[n as int] == ls@[n as int]@);
        let t = trim_start(ls[n].as_str());
        if starts_with(t.as_str(), "pub ") || starts_with(t.as_str(), "pub(") {
            return true;
        }
    }
    is_in_trait_impl(&ls, n)
}

fn holds_kind(kinds: &Vec<i32>, kind: i32) -> (r: bool)
    ensures
        r == kinds@.contains(kind),
{
    let mut i: usize = 0;
    while i < kinds.len()
        invariant
            i <= kinds.len(),
            forall|k: int| 0 <= k < i ==> kinds@[k] != kind,
        decreases kinds.len() - i,
    {
        if kinds[i] == kind {
            return true;
        }
        i += 1;
    }
    false
}

impl CodeGraph {
    /// The symbols that are alive by themselves. What is public is never taken for dead.
    pub fn public_roots(&self, ws: &Workspace) -> (r: Names)
        ensures
            roots_of(*self, *ws, r@),
    {
        let mut r: Names = Table::new();
        let total = self.symbols.len();
        let mut i: usize = 0;
        while i < total
            invariant
                i <= total == self.symbols@.len(),
                in_order(false, self.symbols@),
                in_order(false, r@),
                forall|id: Seq<char>| #[trigger]
                    named(r@, id) <==> exists|k: int|
                        0 <= k < i && #[trigger] self.symbols@[k].0 == id && root_symbol(
                            *ws,
                            self.symbols@[k].1,
                        ),
            decreases total - i,
        {
            let ghost before = r@;
            if is_root_symbol(ws, self.symbols.value(i)) {
                r.insert(self.symbols.name(i).clone(), ());
                assert forall|id: Seq<char>| #[trigger] named(r@, id) <==> exists|k: int|
                    0 <= k < i + 1 && #[trigger] self.symbols@[k].0 == id && root_symbol(
                        *ws,
                        self.symbols@[k].1,
                    ) by {
                    if id == self.symbols@[i as int].0 {
                        assert(root_symbol(*ws, self.symbols@[i as int].1));
                    } else {
                        assert(named(r@, id) <==> named(before, id));
                    }
                }
            }
            i += 1;
        }
        proof {
            assert forall|id: Seq<char>| #[trigger] named(r@, id) <==> (match value_of(
                self.symbols@,
                id,
            ) {
                Some(s) => root_symbol(*ws, s),
                None => false,
            }) by {
                if named(r@, id) {
                    let k = choose|k: int|
                        0 <= k < total && #[trigger] self.symbols@[k].0 == id && root_symbol(
                            *ws,
                            self.symbols@[k].1,
                        );
                    row_unique(false, self.symbols@, k);
                }
                if value_of(self.symbols@, id) is Some {
                    let k = row_of(self.symbols@, id)->0;
                    assert(self.symbols@[k].0 == id);
                }
            }
        }
        r
    }

    /// The symbols that are reached from the entries by references, the entries among them.
    pub fn reachable(&self, entry: &Names) -> (r: Names)
        ensures
            forall|s: Seq<char>| #[trigger] named(r@, s) <==> alive(self.refs@, entry@, s),
    {
        let es = list_links(&self.refs);
        let r = closure(&es, entry);
        proof {
            let ps = pair_views(es@);
            assert forall|s: Seq<char>| #[trigger] named(r@, s) <==> alive(self.refs@, entry@, s) by {
                alive_is_led(self.refs@, entry@, ps, s);
            }
        }
        r
    }

    /// The symbols that nothing alive refers to, by file and line: Rust symbols outside of
    /// tests, of the given kinds where there are any. What is public, implements a trait or is
    /// the entry of a program is never among them.
    pub fn dead_symbols(&self, ws: &Workspace, kinds: &Vec<i32>) -> (r: Vec<Sym>)
        ensures
            exists|roots: Seq<(Seq<char>, ())>| #[trigger]
                roots_of(*self, *ws, roots) && r@ == arranged(
                    gather(
                        self.symbols@.len() as int,
                        dead_at(*self, *ws, kinds@, roots),
                    ),
                ),
    {
        let roots = self.public_roots(ws);
        let reach = self.reachable(&roots);
        let mut out: Vec<Sym> = Vec::new();
        let total = self.symbols.len();
        let mut i: usize = 0;
        while i < total
            invariant
                i <= total == self.symbols@.len(),
                forall|s: Seq<char>| #[trigger] named(reach@, s) <==> alive(self.refs@, roots@, s),
                out@ =~= gather(i as int, dead_at(*self, *ws, kinds@, roots@)),
            decreases total - i,
        {
            let s = self.symbols.value(i);
            let name = self.symbols.name(i);
            if !reach.contains(name.as_str()) && (kinds.len() == 0 || holds_kind(kinds, s.kind))
                && ends_with(s.file.as_str(), ".rs") {
                let ls = read_lines(ws, s.file.as_str());
                let from = crate::forgotten::find_tests(&ls);
                assert(texts(ls@).len() == ls@.len());
                if from >= ls.len() || find_def_line(s) < from {
                    out.push(s.copy());
                }
            }
            i += 1;
        }
        assert(roots_of(*self, *ws, roots@));
        arrange(out)
    }
}

/// What is alive by itself is not dead, whatever refers to it.
pub proof fn roots_are_not_dead(
    g: CodeGraph,
    ws: Workspace,
    kinds: Seq<i32>,
    roots: Seq<(Seq<char>, ())>,
    i: int,
)
    requires
        roots_of(g, ws, roots),
        in_order(false, g.symbols@),
        0 <= i < g.symbols@.len(),
        root_symbol(ws, g.symbols@[i].1),
    ensures
        !dead(g, ws, kinds, roots, i),
{
    let id = g.symbols@[i].0;
    row_unique(false, g.symbols@, i);
    assert(named(roots, id));
    assert(ref_chain(g.refs@, seq![id]));
    assert(refers(g.refs@, id, id));
}

/// What something alive refers to is alive.
pub proof fn alive_carries_on(
    rows: Seq<(Seq<char>, Names)>,
    entry: Seq<(Seq<char>, ())>,
    a: Seq<char>,
    b: Seq<char>,
)
    requires
        alive(rows, entry, a),
        links(rows, a, b),
    ensures
        alive(rows, entry, b),
{
    let e = choose|e: Seq<char>| #[trigger] named(entry, e) && refers(rows, e, a);
    let p = choose|p: Seq<Seq<char>>| #[trigger] ref_chain(rows, p) && p[0] == e && p.last() == a;
    let q = p.push(b);
    assert forall|i: int| 0 <= i < q.len() - 1 implies links(rows, #[trigger] q[i], q[i + 1]) by {
        if i < p.len() - 1 {
            assert(links(rows, p[i], p[i + 1]));
        }
    }
    assert(ref_chain(rows, q));
    assert(refers(rows, e, b));
}

// ── where files belong ─────────────────────────────────────────────────────────────────

/// A file that is used from one other directory alone.
#[derive(Debug, Clone)]
pub struct Misplacement {
    pub file: String,
    pub current_dir: String,
    pub suggested_dir: String,
    pub dependents: usize,
}

/// The directory of a path; empty for a file at the top.
pub open spec fn dir_of(path: Seq<char>) -> Seq<char> {
    match rcut(path, "/"@) {
        Some((dir, _)) => dir,
        None => Seq::empty(),
    }
}

/// The directory of a path; empty for a file at the top.
pub fn dir_name(path: &str) -> (r: String)
    ensures
        r@ == dir_of(path@),
{
    match rsplit_once(path, "/") {
        Some((dir, _base)) => dir,
        None => {
            let none = String::new();
            assert(none@ =~= Seq::<char>::empty());
            none
        },
    }
}

/// Whether all the files that depend on `file`, and there are some, are in the directory `dir`,
/// which is not its own.
pub open spec fn belongs_in(
    deps: Seq<(Seq<char>, Names)>,
    file: Seq<char>,
    dir: Seq<char>,
) -> bool {
    &&& exists|d: Seq<char>| #[trigger] links(deps, d, file)
    &&& forall|d: Seq<char>| #[trigger] links(deps, d, file) ==> dir_of(d) == dir
    &&& dir != dir_of(file)
}

/// Whether a number is that of the files that depend on `file`.
pub open spec fn dependent_count(deps: Seq<(Seq<char>, Names)>, file: Seq<char>, n: int) -> bool {
    exists|s: Seq<(Seq<char>, ())>| #[trigger]
        in_order(false, s) && s.len() == n && forall|d: Seq<char>| #[trigger]
            named(s, d) <==> links(deps, d, file)
}

/// Whether a misplacement says where its file belongs.
pub open spec fn misplaced(deps: Seq<(Seq<char>, Names)>, m: Misplacement) -> bool {
    &&& belongs_in(deps, m.file@, m.suggested_dir@)
    &&& m.current_dir@ == dir_of(m.file@)
    &&& dependent_count(deps, m.file@, m.dependents as int)
}

/// Whether a list holds the misplaced files, each once, by name.
pub open spec fn lists_misplaced(deps: Seq<(Seq<char>, Names)>, ms: Seq<Misplacement>) -> bool {
    &&& forall|i: int| 0 <= i < ms.len() ==> misplaced(deps, #[trigger] ms[i])
    &&& forall|i: int, j: int|
        0 <= i < j < ms.len() ==> crate::order::before(
            name_rank(false, (#[trigger] ms[i]).file@),
            name_rank(false, (#[trigger] ms[j]).file@),
        )
    &&& forall|f: Seq<char>, d: Seq<char>| #[trigger]
        belongs_in(deps, f, d) ==> exists|i: int|
            0 <= i < ms.len() && (#[trigger] ms[i]).file@ == f
}

/// Whether a list holds the groups of files that depend on each other in turn.
pub open spec fn lists_cycles(deps: Seq<(Seq<char>, Names)>, cs: Seq<Seq<Seq<char>>>) -> bool {
    exists|es: Seq<(Seq<char>, Seq<char>)>|
        links_exactly(deps, es) && #[trigger] tangles_of(cs, es)
}

fn reverse_links(t: &Table<Names, false>) -> (r: Table<Names, false>)
    ensures
        forall|a: Seq<char>, b: Seq<char>| #[trigger] links(r@, a, b) <==> links(t@, b, a),
        forall|a: Seq<char>| #[trigger]
            named(r@, a) ==> exists|b: Seq<char>| #[trigger] links(t@, b, a),
{
    let es = list_links(t);
    let ghost ps = pair_views(es@);
    let mut r: Table<Names, false> = Table::new();
    let mut i: usize = 0;
    while i < es.len()
        invariant
            i <= es.len(),
            ps == pair_views(es@),
            forall|a: Seq<char>, b: Seq<char>| #[trigger]
                links(r@, a, b) <==> exists|k: int| 0 <= k < i && #[trigger] ps[k] == (b, a),
            forall|a: Seq<char>| #[trigger]
                named(r@, a) ==> exists|k: int| 0 <= k < i && (#[trigger] ps[k]).1 == a,
        decreases es.len() - i,
    {
        let ghost before = r@;
        assert(ps[i as int] == (es@[i as int].0@, es@[i as int].1@));
        link(&mut r, es[i].1.as_str(), es[i].0.as_str());
        proof {
            assert forall|a: Seq<char>, b: Seq<char>| #[trigger] links(r@, a, b) <==> exists|k: int|
                0 <= k < i + 1 && #[trigger] ps[k] == (b, a) by {
                assert(links(r@, a, b) <==> links(before, a, b) || (a == ps[i as int].1 && b
                    == ps[i as int].0));
                if a == ps[i as int].1 && b == ps[i as int].0 {
                    assert(ps[i as int] == (b, a));
                }
            }
            assert forall|a: Seq<char>| #[trigger] named(r@, a) implies exists|k: int|
                0 <= k < i + 1 && (#[trigger] ps[k]).1 == a by {
                if a == ps[i as int].1 {
                    assert(ps[i as int].1 == a);
                } else {
                    assert(named(before, a));
                }
            }
        }
        i += 1;
    }
    assert(ps.len() == es@.len());
    proof {
        assert forall|a: Seq<char>, b: Seq<char>| #[trigger] links(r@, a, b) <==> links(t@, b, a) by {
            assert(ps.contains((b, a)) <==> links(t@, b, a));
            if links(r@, a, b) {
                let k = choose|k: int| 0 <= k < ps.len() && #[trigger] ps[k] == (b, a);
                assert(ps.contains((b, a)));
            }
        }
        assert forall|a: Seq<char>| #[trigger] named(r@, a) implies exists|b: Seq<char>| #[trigger]
            links(t@, b, a) by {
            let k = choose|k: int| 0 <= k < ps.len() && (#[trigger] ps[k]).1 == a;
            let b = ps[k].0;
            assert(ps[k] == (b, a));
            assert(ps.contains((b, a)));
            assert(links(t@, b, a));
        }
    }
    r
}

/// The directory that all names of a set are in, where there is one.
fn common_dir(set: &Names) -> (r: Option<String>)
    requires
        set@.len() > 0,
    ensures
        match r {
            Some(d) => forall|k: int| 0 <= k < set@.len() ==> dir_of(#[trigger] set@[k].0) == d@,
            None => exists|k: int|
                0 <= k < set@.len() && dir_of(#[trigger] set@[k].0) != dir_of(set@[0].0),
        },
{
    let total = set.len();
    let dir = dir_name(set.name(0).as_str());
    let mut i: usize = 1;
    while i < total
        invariant
            1 <= i <= total == set@.len(),
            dir@ == dir_of(set@[0].0),
            forall|k: int| 0 <= k < i ==> dir_of(#[trigger] set@[k].0) == dir@,
        decreases total - i,
    {
        if !same(dir_name(set.name(i).as_str()).as_str(), dir.as_str()) {
            assert(dir_of(set@[i as int].0) != dir_of(set@[0].0));
            return None;
        }
        i += 1;
    }
    Some(dir)
}

impl CodeGraph {
    /// The files that are used from one other directory alone, by name. What is used from
    /// several directories, or from its own, is not among them.
    pub fn misplacements(&self) -> (r: Vec<Misplacement>)
        ensures
            lists_misplaced(self.file_deps@, r@),
    {
        let back = reverse_links(&self.file_deps);
        let ghost deps = self.file_deps@;
        let total = back.len();
        let mut out: Vec<Misplacement> = Vec::new();
        let mut i: usize = 0;
        while i < total
            invariant
                i <= total == back@.len(),
                deps == self.file_deps@,
                in_order(false, back@),
                forall|a: Seq<char>, b: Seq<char>| #[trigger]
                    links(back@, a, b) <==> links(deps, b, a),
                forall|a: Seq<char>| #[trigger]
                    named(back@, a) ==> exists|b: Seq<char>| #[trigger] links(deps, b, a),
                forall|k: int| 0 <= k < out@.len() ==> misplaced(deps, #[trigger] out@[k]),
                forall|k: int|
                    0 <= k < out@.len() ==> exists|m: int|
                        0 <= m < i && #[trigger] back@[m].0 == (#[trigger] out@[k]).file@,
                forall|a: int, b: int|
                    0 <= a < b < out@.len() ==> crate::order::before(
                        name_rank(false, (#[trigger] out@[a]).file@),
                        name_rank(false, (#[trigger] out@[b]).file@),
                    ),
                forall|m: int, d: Seq<char>|
                    0 <= m < i && #[trigger] belongs_in(deps, back@[m].0, d) ==> exists|k: int|
                        0 <= k < out@.len() && (#[trigger] out@[k]).file@ == back@[m].0,
            decreases total - i,
        {
            let file = back.name(i);
            let set = back.value(i);
            let size = set.len();
            let ghost out0 = out@;
            proof {
                row_unique(false, back@, i as int);
                assert(named(back@, file@));
                let b = choose|b: Seq<char>| #[trigger] links(deps, b, file@);
                assert(links(back@, file@, b));
                assert(named(set@, b));
                let k = choose|k: int| 0 <= k < set@.len() && #[trigger] set@[k].0 == b;
                assert forall|d: Seq<char>| #[trigger] named(set@, d) <==> links(deps, d, file@) by {
                    assert(links(back@, file@, d) <==> links(deps, d, file@));
                }
                assert(dependent_count(deps, file@, set@.len() as int));
            }
            let here = dir_name(file.as_str());
            match common_dir(set) {
                Some(dir) => {
                    let away = !same(dir.as_str(), here.as_str());
                    proof {
                        assert forall|d: Seq<char>| #[trigger] links(deps, d, file@) implies dir_of(d)
                            == dir@ by {
                            assert(named(set@, d));
                            let k = choose|k: int| 0 <= k < set@.len() && #[trigger] set@[k].0 == d;
                            assert(dir_of(set@[k].0) == dir@);
                        }
                    }
                    if away {
                        assert(belongs_in(deps, file@, dir@));
                        let m = Misplacement {
                            file: file.clone(),
                            current_dir: here,
                            suggested_dir: dir,
                            dependents: size,
                        };
                        out.push(m);
                        assert(out@[out0.len() as int].file@ == back@[i as int].0);
                        assert forall|a: int, b: int| 0 <= a < b < out@.len() implies crate::order::before(
                            name_rank(false, (#[trigger] out@[a]).file@),
                            name_rank(false, (#[trigger] out@[b]).file@),
                        ) by {
                            if b == out0.len() {
                                let m = choose|m: int|
                                    0 <= m < i && #[trigger] back@[m].0 == out0[a].file@;
                                assert(crate::order::before(
                                    name_rank(false, back@[m].0),
                                    name_rank(false, back@[i as int].0),
                                ));
                            }
                        }
                    } else {
                        assert forall|d: Seq<char>| !#[trigger] belongs_in(deps, file@, d) by {
                            if belongs_in(deps, file@, d) {
                                let b = choose|b: Seq<char>| #[trigger] links(deps, b, file@);
                                assert(dir_of(b) == d);
                            }
                        }
                    }
                },
                None => {
                    proof {
                        let k = choose|k: int|
                            0 <= k < set@.len() && dir_of(#[trigger] set@[k].0) != dir_of(
                                set@[0].0,
                            );
                        assert(named(set@, set@[k].0));
                        assert(named(set@, set@[0].0));
                        assert(links(deps, set@[k].0, file@));
                        assert(links(deps, set@[0].0, file@));
                        assert forall|d: Seq<char>| !#[trigger] belongs_in(deps, file@, d) by {}
                    }
                },
            }
            proof {
                assert forall|m: int, d: Seq<char>|
                    0 <= m < i + 1 && #[trigger] belongs_in(deps, back@[m].0, d) implies exists|
                    k: int,
                |
                    0 <= k < out@.len() && (#[trigger] out@[k]).file@ == back@[m].0 by {
                    if m < i {
                        let k = choose|k: int|
                            0 <= k < out0.len() && (#[trigger] out0[k]).file@ == back@[m].0;
                        assert(out@[k].file@ == back@[m].0);
                    } else {
                        assert(out@[out0.len() as int].file@ == back@[m].0);
                    }
                }
            }
            i += 1;
        }
        proof {
            assert forall|f: Seq<char>, d: Seq<char>| #[trigger] belongs_in(deps, f, d) implies exists|
                i: int,
            |
                0 <= i < out@.len() && (#[trigger] out@[i]).file@ == f by {
                let b = choose|b: Seq<char>| #[trigger] links(deps, b, f);
                assert(links(back@, f, b));
                let m = row_of(back@, f)->0;
                assert(back@[m].0 == f);
                assert(belongs_in(deps, back@[m].0, d));
            }
        }
        out
    }

    /// The groups of files that depend on each other, directly or in turn: the files of a group
    /// in order, the groups by their first files.
    pub fn dependency_cycles(&self) -> (r: Vec<Vec<String>>)
        ensures
            lists_cycles(self.file_deps@, groups(r@)),
    {
        let es = list_links(&self.file_deps);
        let ghost ps = pair_views(es@);
        assert forall|a: Seq<char>, b: Seq<char>| #[trigger] links(self.file_deps@, a, b)
            <==> ps.contains((a, b)) by {
            assert(ps.contains((a, b)) <==> links(self.file_deps@, a, b));
        }
        tangles(&es)
    }
}

} // verus!
