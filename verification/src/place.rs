//! Where a file belongs: the directories that it is coupled to, those that it shares more with
//! first.
use vstd::prelude::*;

use crate::order::{
    arrange, arranged, arranged_mapped, canonical, canonical_mapped, falling_key, falling_rank,
    name_key, name_rank, named, sort_dedup, value_of, Keyed, Ranked, Table,
};
use crate::scip::{dir_name, dir_of, CodeGraph};
use crate::text::{
    ahead, chars, copy_all, find_from, gather, lead, leading, lines, lines_of, parts, put, same,
    seek, slice, split, strip_suffix, text_opt, texts, Class,
};

verus! {

/// Where a file belongs.
#[derive(Debug, Clone)]
pub struct Placement {
    pub file: String,
    pub current_dir: String,
    /// The directories that the file is coupled to and how often, the most coupled first.
    pub ranked: Vec<(String, usize)>,
    /// Whether this was read off the code graph, and not off the imports of a new file.
    pub from_graph: bool,
}

/// A directory and how often a file is coupled to it.
#[verifier::ext_equal]
pub struct TallyView {
    pub dir: Seq<char>,
    pub count: nat,
}

impl Ranked for TallyView {
    open spec fn rank(&self) -> Seq<i64> {
        falling_rank(self.count as int) + name_rank(false, self.dir)
    }
}

struct Tally {
    dir: String,
    count: usize,
}

impl View for Tally {
    type V = TallyView;

    closed spec fn view(&self) -> TallyView {
        TallyView { dir: self.dir@, count: self.count as nat }
    }
}

impl Ranked for Tally {
    closed spec fn rank(&self) -> Seq<i64> {
        falling_rank(self.count as int) + name_rank(false, self.dir@)
    }
}

impl Keyed for Tally {
    fn key(&self) -> (r: Vec<i64>) {
        let mut k = falling_key(self.count);
        let mut n = name_key(false, self.dir.as_str());
        k.append(&mut n);
        k
    }
}

/// The views of a list of directories with their counts.
pub open spec fn tally_views(v: Seq<(String, usize)>) -> Seq<TallyView> {
    v.map_values(|t: (String, usize)| TallyView { dir: t.0@, count: t.1 as nat })
}

/// How often `d` stands among the first `n` directories.
pub open spec fn times(dirs: Seq<Seq<char>>, d: Seq<char>, n: int) -> nat
    decreases n,
{
    if n <= 0 {
        0
    } else {
        times(dirs, d, n - 1) + (if dirs[n - 1] == d {
            1nat
        } else {
            0nat
        })
    }
}

/// The directories of a list, each once with how often it stands there: more often first, then
/// by name.
pub open spec fn ranking(dirs: Seq<Seq<char>>) -> Seq<TallyView> {
    arranged(
        canonical(dirs).map_values(
            |d: Seq<char>| TallyView { dir: d, count: times(dirs, d, dirs.len() as int) },
        ),
    )
}

proof fn times_bound(dirs: Seq<Seq<char>>, d: Seq<char>, n: int)
    requires
        0 <= n <= dirs.len(),
    ensures
        times(dirs, d, n) <= n,
        times(dirs, d, n) > 0 ==> dirs.contains(d),
    decreases n,
{
    if n > 0 {
        times_bound(dirs, d, n - 1);
        if dirs[n - 1] == d {
            assert(dirs.contains(d));
        }
    }
}

/// The directory that is ranked first is the one that a file is coupled to most: no other stands
/// more often among those that it is coupled to.
pub proof fn most_coupled_first(dirs: Seq<Seq<char>>, d: Seq<char>)
    requires
        dirs.contains(d),
        dirs.len() <= usize::MAX,
    ensures
        ranking(dirs).len() > 0,
        times(dirs, d, dirs.len() as int) <= times(
            dirs,
            ranking(dirs)[0].dir,
            dirs.len() as int,
        ),
{
    let n = dirs.len() as int;
    let c = canonical(dirs);
    let raw = c.map_values(|d: Seq<char>| TallyView { dir: d, count: times(dirs, d, n) });
    let r = ranking(dirs);
    crate::order::canonical_facts(dirs);
    let q = choose|q: int| 0 <= q < c.len() && #[trigger] c[q].rank() == d.rank();
    crate::order::name_rank_injective(false, c[q], d);
    let t = TallyView { dir: d, count: times(dirs, d, n) };
    assert(raw[q] == t);
    assert(raw.contains(t));
    crate::order::arranged_facts(raw);
    crate::order::arranged_contains(raw, t);
    let k = choose|k: int| 0 <= k < r.len() && r[k] == t;
    assert(r.contains(r[0]));
    crate::order::arranged_contains(raw, r[0]);
    let o = choose|o: int| 0 <= o < raw.len() && raw[o] == r[0];
    assert(r[0].count == times(dirs, r[0].dir, n));
    times_bound(dirs, d, n);
    times_bound(dirs, r[0].dir, n);
    if k > 0 {
        assert(!crate::order::before(r[k].rank(), r[0].rank()));
        if r[0].count < t.count {
            falling_counts_first(t, r[0]);
        }
    }
}

/// More often comes first.
proof fn falling_counts_first(a: TallyView, b: TallyView)
    requires
        b.count < a.count <= u64::MAX,
    ensures
        crate::order::before(a.rank(), b.rank()),
{
    let x = falling_rank(a.count as int);
    let y = falling_rank(b.count as int);
    crate::order::number_rank_orders(a.count as int, b.count as int);
    assert(crate::order::before(x, y));
    let u = a.rank();
    let v = b.rank();
    assert(u[0] == x[0] && u[1] == x[1] && v[0] == y[0] && v[1] == y[1]);
    reveal_with_fuel(crate::order::before_from, 3);
}

fn count_times(dirs: &Vec<String>, d: &str) -> (r: usize)
    ensures
        r == times(texts(dirs@), d@, dirs@.len() as int),
{
    let ghost all = texts(dirs@);
    let mut n: usize = 0;
    let mut i: usize = 0;
    while i < dirs.len()
        invariant
            i <= dirs.len(),
            all == texts(dirs@),
            n == times(all, d@, i as int),
            n <= i,
        decreases dirs.len() - i,
    {
        assert(all[i as int] == dirs@[i as int]@);
        if same(dirs[i].as_str(), d) {
            n += 1;
        }
        i += 1;
    }
    n
}

pub(crate) fn rank_dirs(dirs: Vec<String>) -> (r: Vec<(String, usize)>)
    ensures
        tally_views(r@) == ranking(texts(dirs@)),
{
    let ghost all = texts(dirs@);
    let names = sort_dedup(copy_all(&dirs));
    proof {
        canonical_mapped(dirs@, |s: String| s@);
        assert(texts(names@) == canonical(all));
    }
    let ghost goal = canonical(all).map_values(
        |d: Seq<char>| TallyView { dir: d, count: times(all, d, all.len() as int) },
    );
    let mut tallies: Vec<Tally> = Vec::new();
    let mut i: usize = 0;
    while i < names.len()
        invariant
            i <= names.len(),
            all == texts(dirs@),
            texts(names@) == canonical(all),
            goal == canonical(all).map_values(
                |d: Seq<char>| TallyView { dir: d, count: times(all, d, all.len() as int) },
            ),
            tallies.len() == i,
            forall|k: int| 0 <= k < i ==> (#[trigger] tallies@[k])@ == goal[k],
        decreases names.len() - i,
    {
        assert(texts(names@)[i as int] == names@[i as int]@);
        tallies.push(
            Tally { dir: names[i].clone(), count: count_times(&dirs, names[i].as_str()) },
        );
        i += 1;
    }
    proof {
        assert(texts(names@).len() == names@.len());
        assert(tallies@.map_values(|t: Tally| t@) =~= goal);
        arranged_mapped(tallies@, |t: Tally| t@);
    }
    let sorted = arrange(tallies);
    let mut r: Vec<(String, usize)> = Vec::new();
    let mut i: usize = 0;
    while i < sorted.len()
        invariant
            i <= sorted.len(),
            r.len() == i,
            forall|k: int|
                0 <= k < i ==> (#[trigger] r@[k]).0@ == sorted@[k].dir@ && r@[k].1
                    == sorted@[k].count,
        decreases sorted.len() - i,
    {
        r.push((sorted[i].dir.clone(), sorted[i].count));
        i += 1;
    }
    assert(tally_views(r@) =~= sorted@.map_values(|t: Tally| t@));
    r
}

impl Placement {
    /// The directory that is recommended.
    pub open spec fn home(self) -> Option<Seq<char>> {
        if self.ranked@.len() > 0 {
            Some(self.ranked@[0].0@)
        } else {
            None
        }
    }

    /// The directory that is recommended: the most coupled one.
    pub fn recommended(&self) -> (r: Option<&str>)
        ensures
            match r {
                Some(d) => self.home() == Some(d@),
                None => self.home() is None,
            },
    {
        if self.ranked.len() > 0 {
            Some(self.ranked[0].0.as_str())
        } else {
            None
        }
    }

    /// Whether the file is where it belongs, or nothing says that it belongs elsewhere.
    pub fn well_placed(&self) -> (r: bool)
        ensures
            r == (match self.home() {
                Some(d) => d == self.current_dir@,
                None => true,
            }),
    {
        match self.recommended() {
            Some(d) => same(d, self.current_dir.as_str()),
            None => true,
        }
    }
}

/// The directories of a set of files.
pub open spec fn dir_at(set: Seq<(Seq<char>, ())>) -> spec_fn(int) -> Seq<Seq<char>> {
    |i: int| seq![dir_of(set[i].0)]
}

/// The directory of the file at a position, where it depends on `file`.
pub open spec fn user_dir(g: CodeGraph, file: Seq<char>) -> spec_fn(int) -> Seq<Seq<char>> {
    |i: int|
        if named(g.file_deps@[i].1@, file) {
            seq![dir_of(g.file_deps@[i].0)]
        } else {
            seq![]
        }
}

/// The directories of the files that `file` depends on, and of those that depend on it.
pub open spec fn coupled_dirs(g: CodeGraph, file: Seq<char>) -> Seq<Seq<char>> {
    (match value_of(g.file_deps@, file) {
        Some(set) => gather(set@.len() as int, dir_at(set@)),
        None => seq![],
    }) + gather(g.file_deps@.len() as int, user_dir(g, file))
}

/// Where a file of the graph belongs, by what it depends on and what depends on it; nothing for
/// a file without either.
pub fn place_existing(graph: &CodeGraph, file: &str) -> (r: Option<Placement>)
    ensures
        match r {
            Some(p) => coupled_dirs(*graph, file@).len() > 0 && p.file@ == file@ && p.current_dir@
                == dir_of(file@) && tally_views(p.ranked@) == ranking(coupled_dirs(*graph, file@))
                && p.from_graph,
            None => coupled_dirs(*graph, file@).len() == 0,
        },
{
    let mut dirs: Vec<String> = Vec::new();
    let found = graph.file_deps.get(file);
    match found {
        Some(set) => {
            let size = set.len();
            let mut i: usize = 0;
            while i < size
                invariant
                    i <= size == set@.len(),
                    texts(dirs@) =~= gather(i as int, dir_at(set@)),
                decreases size - i,
            {
                put(&mut dirs, dir_name(set.name(i).as_str()));
                i += 1;
            }
        },
        None => {
            assert(texts(dirs@) =~= Seq::<Seq<char>>::empty());
        },
    }
    let ghost base = texts(dirs@);
    let total = graph.file_deps.len();
    let mut i: usize = 0;
    while i < total
        invariant
            i <= total == graph.file_deps@.len(),
            texts(dirs@) =~= base + gather(i as int, user_dir(*graph, file@)),
        decreases total - i,
    {
        if graph.file_deps.value(i).contains(file) {
            put(&mut dirs, dir_name(graph.file_deps.name(i).as_str()));
        }
        i += 1;
    }
    assert(texts(dirs@) == coupled_dirs(*graph, file@));
    assert(texts(dirs@).len() == dirs@.len());
    if dirs.len() == 0 {
        return None;
    }
    Some(
        Placement {
            file: file.to_owned(),
            current_dir: dir_name(file),
            ranked: rank_dirs(dirs),
            from_graph: true,
        },
    )
}

/// The modules that a line refers to by absolute paths from position `i` on.
pub open spec fn imports_from(line: Seq<char>, i: int) -> Seq<Seq<char>>
    decreases line.len() - i,
{
    match find_from(line, "crate::"@, i) {
        Some(p) => if i <= p && "crate::"@.len() > 0 && p + "crate::"@.len() <= line.len() {
            let q = p + "crate::"@.len();
            let name = lead(line.skip(q), Class::Ident);
            (if name.len() > 0 {
                seq![name]
            } else {
                seq![]
            }) + imports_from(line, q)
        } else {
            seq![]
        },
        None => seq![],
    }
}

/// The modules that the lines of a text refer to, by line.
pub open spec fn line_imports(ls: Seq<Seq<char>>) -> spec_fn(int) -> Seq<Seq<char>> {
    |i: int| imports_from(ls[i], 0)
}

/// The modules that a text refers to by absolute paths, as often as it does.
pub open spec fn imports(text: Seq<char>) -> Seq<Seq<char>> {
    gather(lines_of(text).len() as int, line_imports(lines_of(text)))
}

fn add_imports(line: &str, out: &mut Vec<String>)
    ensures
        texts(final(out)@) == texts(old(out)@) + imports_from(line@, 0),
{
    let a = chars(line);
    let p = chars("crate::");
    let ghost base = texts(out@);
    proof {
        reveal_strlit("crate::");
        assert("crate::"@.len() == 7);
    }
    let mut i: usize = 0;
    loop
        invariant
            i <= a.len(),
            a@ == line@,
            p@ == "crate::"@,
            "crate::"@.len() == 7,
            base == texts(old(out)@),
            base + imports_from(line@, 0) =~= texts(out@) + imports_from(line@, i as int),
        decreases a.len() - i,
    {
        match seek(&a, &p, i) {
            None => {
                assert(texts(out@) + imports_from(line@, i as int) =~= texts(out@));
                return ;
            },
            Some(k) => {
                let q: usize = k + 7;
                let rest = slice(&a, q, a.len());
                assert(a@.subrange(q as int, a@.len() as int) =~= line@.skip(q as int));
                let name = leading(rest.as_str(), Class::Ident);
                if chars(name.as_str()).len() > 0 {
                    put(out, name);
                }
                i = q;
            },
        }
    }
}

/// The modules that a text refers to by absolute paths, as often as it does.
pub fn crate_imports(content: &str) -> (r: Vec<String>)
    ensures
        texts(r@) == imports(content@),
{
    let ls = lines(content);
    let ghost all = lines_of(content@);
    let mut out: Vec<String> = Vec::new();
    let mut i: usize = 0;
    while i < ls.len()
        invariant
            i <= ls.len(),
            all == texts(ls@),
            texts(out@) =~= gather(i as int, line_imports(all)),
        decreases ls.len() - i,
    {
        assert(all[i as int] == ls@[i as int]@);
        add_imports(ls[i].as_str(), &mut out);
        i += 1;
    }
    assert(all.len() == ls@.len());
    out
}

/// The directory of a module, where it is known.
pub open spec fn import_dir(ms: Seq<Seq<char>>, dirs: Seq<(Seq<char>, String)>) -> spec_fn(int) -> Seq<
    Seq<char>,
> {
    |i: int|
        match value_of(dirs, ms[i]) {
            Some(d) => seq![d@],
            None => seq![],
        }
}

/// The directories of the modules that a text refers to.
pub open spec fn import_dirs(text: Seq<char>, dirs: Seq<(Seq<char>, String)>) -> Seq<Seq<char>> {
    gather(imports(text).len() as int, import_dir(imports(text), dirs))
}

/// Where a new file belongs, by the modules that it refers to; `module_dirs` gives the directory
/// of each module. Nothing where it refers to none that is known.
pub fn place_new(content: &str, current_dir: &str, module_dirs: &Table<String, false>) -> (r: Option<
    Placement,
>)
    ensures
        match r {
            Some(p) => import_dirs(content@, module_dirs@).len() > 0 && p.file@.len() == 0
                && p.current_dir@ == current_dir@ && tally_views(p.ranked@) == ranking(
                import_dirs(content@, module_dirs@),
            ) && !p.from_graph,
            None => import_dirs(content@, module_dirs@).len() == 0,
        },
{
    let ms = crate_imports(content);
    let ghost all = imports(content@);
    let mut dirs: Vec<String> = Vec::new();
    let mut i: usize = 0;
    while i < ms.len()
        invariant
            i <= ms.len(),
            all == texts(ms@),
            texts(dirs@) =~= gather(i as int, import_dir(all, module_dirs@)),
        decreases ms.len() - i,
    {
        assert(all[i as int] == ms@[i as int]@);
        match module_dirs.get(ms[i].as_str()) {
            Some(d) => {
                put(&mut dirs, d.clone());
            },
            None => {},
        }
        i += 1;
    }
    assert(all.len() == ms@.len());
    assert(texts(dirs@).len() == dirs@.len());
    if dirs.len() == 0 {
        return None;
    }
    Some(
        Placement {
            file: String::new(),
            current_dir: current_dir.to_owned(),
            ranked: rank_dirs(dirs),
            from_graph: false,
        },
    )
}

/// The module that a file is, unless it stands for its directory.
pub open spec fn own_module(file: Seq<char>) -> Seq<Seq<char>> {
    match ahead(parts(file, '/').last(), ".rs"@) {
        Some(s) => if crate::moves::is_root_name(s) {
            seq![]
        } else {
            seq![s]
        },
        None => seq![],
    }
}

/// The module that a directory on the way to a file is.
pub open spec fn dir_module(ps: Seq<Seq<char>>) -> spec_fn(int) -> Seq<Seq<char>> {
    |i: int|
        if ps[i].len() > 0 && ps[i] != "src"@ {
            seq![ps[i]]
        } else {
            seq![]
        }
}

/// The modules that a file names: its own, and those of the directories on the way to it.
pub open spec fn modules_of(file: Seq<char>) -> Seq<Seq<char>> {
    let ps = parts(dir_of(file), '/');
    own_module(file) + gather(ps.len() as int, dir_module(ps))
}

/// The first file from `i` on that names a module.
pub open spec fn first_naming(files: Seq<Seq<char>>, m: Seq<char>, i: int) -> Option<Seq<char>>
    decreases files.len() - i,
{
    if i >= files.len() {
        None
    } else if modules_of(files[i]).contains(m) {
        Some(files[i])
    } else {
        first_naming(files, m, i + 1)
    }
}

/// The directory of the first of the first `n` files that names a module.
pub open spec fn module_dir(files: Seq<Seq<char>>, m: Seq<char>) -> Option<Seq<char>> {
    match first_naming(files, m, 0) {
        Some(f) => Some(dir_of(f)),
        None => None,
    }
}

fn list_modules(file: &str) -> (r: Vec<String>)
    ensures
        texts(r@) == modules_of(file@),
{
    let mut r: Vec<String> = Vec::new();
    let c = split(file, '/');
    proof {
        crate::text::parts_nonempty(file@, '/', 0);
        assert(texts(c@).len() == c@.len());
        assert(texts(c@).last() == c@[c@.len() - 1]@);
    }
    match strip_suffix(c[c.len() - 1].as_str(), ".rs") {
        Some(s) => {
            let root = same(s.as_str(), "lib") || same(s.as_str(), "main") || same(
                s.as_str(),
                "mod",
            );
            if !root {
                put(&mut r, s);
            }
        },
        None => {},
    }
    assert(texts(r@) =~= own_module(file@));
    let ghost base = texts(r@);
    let ps = split(dir_name(file).as_str(), '/');
    let ghost all = parts(dir_of(file@), '/');
    let mut i: usize = 0;
    while i < ps.len()
        invariant
            i <= ps.len(),
            all == texts(ps@),
            texts(r@) =~= base + gather(i as int, dir_module(all)),
        decreases ps.len() - i,
    {
        assert(all[i as int] == ps@[i as int]@);
        if chars(ps[i].as_str()).len() > 0 && !same(ps[i].as_str(), "src") {
            put(&mut r, ps[i].clone());
        }
        i += 1;
    }
    assert(all.len() == ps@.len());
    r
}

/// The directory of each module that files name; the first file that names it counts.
pub fn module_dir_map(rs_files: &Vec<String>) -> (r: Table<String, false>)
    ensures
        forall|m: Seq<char>|
            text_opt(#[trigger] value_of(r@, m)) == module_dir(texts(rs_files@), m),
{
    let ghost files = texts(rs_files@);
    let mut t: Table<String, false> = Table::new();
    let mut i: usize = 0;
    proof {
        assert forall|m: Seq<char>| text_opt(#[trigger] value_of(t@, m)) == first_dir(files, m, 0) by {}
    }
    while i < rs_files.len()
        invariant
            i <= rs_files.len(),
            files == texts(rs_files@),
            forall|m: Seq<char>|
                text_opt(#[trigger] value_of(t@, m)) == first_dir(files, m, i as int),
        decreases rs_files.len() - i,
    {
        let file = &rs_files[i];
        assert(files[i as int] == file@);
        let ms = list_modules(file.as_str());
        let ghost all = modules_of(file@);
        let dir = dir_name(file.as_str());
        let ghost before = t@;
        let mut k: usize = 0;
        while k < ms.len()
            invariant
                k <= ms.len(),
                all == texts(ms@),
                dir@ == dir_of(file@),
                forall|m: Seq<char>|
                    text_opt(#[trigger] value_of(t@, m)) == (if value_of(before, m) is Some {
                        text_opt(value_of(before, m))
                    } else if all.take(k as int).contains(m) {
                        Some(dir@)
                    } else {
                        None
                    }),
            decreases ms.len() - k,
        {
            let ghost mid = t@;
            assert(all[k as int] == ms@[k as int]@);
            let ghost head = all.take(k as int);
            let ghost next = all.take(k + 1);
            assert(next =~= head.push(all[k as int]));
            if !t.contains(ms[k].as_str()) {
                t.insert(ms[k].clone(), dir.clone());
            }
            proof {
                assert forall|m: Seq<char>|
                    text_opt(#[trigger] value_of(t@, m)) == (if value_of(before, m) is Some {
                        text_opt(value_of(before, m))
                    } else if next.contains(m) {
                        Some(dir@)
                    } else {
                        None
                    }) by {
                    assert(text_opt(value_of(mid, m)) == (if value_of(before, m) is Some {
                        text_opt(value_of(before, m))
                    } else if head.contains(m) {
                        Some(dir@)
                    } else {
                        None
                    }));
                    crate::order::pushed_contains(head, all[k as int], m);
                    if m != ms@[k as int]@ {
                        assert(value_of(t@, m) == value_of(mid, m));
                    }
                }
            }
            k += 1;
        }
        proof {
            assert(all.take(all.len() as int) =~= all);
            assert(all.len() == ms@.len());
            assert forall|m: Seq<char>|
                text_opt(#[trigger] value_of(t@, m)) == first_dir(files, m, i + 1) by {
                assert(text_opt(value_of(before, m)) == first_dir(files, m, i as int));
            }
        }
        i += 1;
    }
    proof {
        assert forall|m: Seq<char>|
            text_opt(#[trigger] value_of(t@, m)) == module_dir(files, m) by {
            first_dir_is(files, m, 0);
        }
    }
    t
}

/// The directory of the first of the first `n` files that names a module.
spec fn first_dir(files: Seq<Seq<char>>, m: Seq<char>, n: int) -> Option<Seq<char>>
    decreases n,
{
    if n <= 0 {
        None
    } else if first_dir(files, m, n - 1) is Some {
        first_dir(files, m, n - 1)
    } else if modules_of(files[n - 1]).contains(m) {
        Some(dir_of(files[n - 1]))
    } else {
        None
    }
}

proof fn first_dir_stays(files: Seq<Seq<char>>, m: Seq<char>, a: int, b: int)
    requires
        a <= b,
        first_dir(files, m, a) is Some,
    ensures
        first_dir(files, m, b) == first_dir(files, m, a),
    decreases b - a,
{
    if a < b {
        first_dir_stays(files, m, a, b - 1);
    }
}

proof fn first_dir_is(files: Seq<Seq<char>>, m: Seq<char>, i: int)
    requires
        0 <= i <= files.len(),
        first_dir(files, m, i) is None,
    ensures
        first_dir(files, m, files.len() as int) == (match first_naming(files, m, i) {
            Some(f) => Some(dir_of(f)),
            None => None,
        }),
    decreases files.len() - i,
{
    if i < files.len() {
        if modules_of(files[i]).contains(m) {
            assert(first_dir(files, m, i + 1) == Some(dir_of(files[i])));
            first_dir_stays(files, m, i + 1, files.len() as int);
        } else {
            first_dir_is(files, m, i + 1);
        }
    }
}

} // verus!
