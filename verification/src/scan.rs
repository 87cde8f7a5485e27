//! What is read off the contents of files: a hash, whether they are text, how many lines they
//! have, and the hashes of their lines by which similar files are found.
use vstd::prelude::*;

use crate::cache::{CACHE_VERSION, Cache, CacheEntry};
use crate::digest::{blake3_hash, hash_bytes, hash_to_hex, hex, hex_to_hash, unhex};
use crate::order::{
    before_irreflexive, canon, canonical, canonical_facts, number_rank, strictly_ascending,
    value_of, Ranked, Table,
};
use crate::text::{copy_all, gather, lines, lines_of, text_opt, texts, trim, trimmed};
use crate::walk::{repo_of, subrepo_of};

verus! {

/// The FNV-1a hash of the first `n` bytes.
pub open spec fn fnv_upto(bytes: Seq<u8>, n: int) -> u64
    decreases n,
{
    if n <= 0 {
        0xcbf29ce484222325u64
    } else {
        (((fnv_upto(bytes, n - 1) ^ (bytes[n - 1] as u64)) as int * 0x100000001b3)
            % 0x1_0000_0000_0000_0000) as u64
    }
}

/// The FNV-1a hash of a sequence of bytes, in 64 bits.
pub open spec fn fnv(bytes: Seq<u8>) -> u64 {
    fnv_upto(bytes, bytes.len() as int)
}

/// The FNV-1a hash of bytes.
pub fn fnv1a(bytes: &[u8]) -> (r: u64)
    ensures
        r == fnv(bytes@),
{
    let mut h: u64 = 0xcbf29ce484222325;
    let mut i: usize = 0;
    while i < bytes.len()
        invariant
            i <= bytes.len(),
            h == fnv_upto(bytes@, i as int),
        decreases bytes.len() - i,
    {
        let x: u64 = h ^ (bytes[i] as u64);
        h = x.wrapping_mul(0x100000001b3);
        i += 1;
    }
    h
}

/// Why bytes are not text.
#[verifier::external_type_specification]
#[verifier::external_body]
pub struct ExUtf8Error(std::str::Utf8Error);

/// `std::str::from_utf8` gives the text that bytes encode, if and only if they are valid UTF-8.
pub assume_specification[ std::str::from_utf8 ](v: &[u8]) -> (r: Result<&str, std::str::Utf8Error>)
    ensures
        match r {
            Ok(s) => vstd::utf8::valid_utf8(v@) && s@ == vstd::utf8::decode_utf8(v@),
            Err(_) => !vstd::utf8::valid_utf8(v@),
        },
;

// ── settings ───────────────────────────────────────────────────────────────────────────

/// Files larger than this are not read.
pub const DEFAULT_MAX_FILE_BYTES: u64 = 2_000_000;

/// How far into a file a zero byte is looked for.
pub const BINARY_SNIFF_BYTES: usize = 8192;

/// How to scan.
#[derive(Debug, Clone)]
pub struct ScanConfig {
    /// Files larger than this are not read.
    pub max_file_bytes: u64,
    /// Names of directories that are left out besides the usual ones.
    pub extra_skip: Vec<String>,
    /// Whether the hashes of lines are wanted.
    pub want_shingles: bool,
    /// Where the cache is kept; none is used without it, nor where hashes of lines are wanted.
    pub cache_path: Option<String>,
}

impl Default for ScanConfig {
    fn default() -> (r: ScanConfig)
        ensures
            r.max_file_bytes == DEFAULT_MAX_FILE_BYTES,
            r.extra_skip@.len() == 0,
            !r.want_shingles,
            r.cache_path is None,
    {
        ScanConfig {
            max_file_bytes: DEFAULT_MAX_FILE_BYTES,
            extra_skip: Vec::new(),
            want_shingles: false,
            cache_path: None,
        }
    }
}

impl ScanConfig {
    /// Hashes and line counts, without the hashes of lines.
    pub fn gate() -> (r: ScanConfig)
        ensures
            r.max_file_bytes == DEFAULT_MAX_FILE_BYTES,
            r.extra_skip@.len() == 0,
            !r.want_shingles,
            r.cache_path is None,
    {
        ScanConfig::default()
    }

    /// The hashes of lines as well.
    pub fn with_shingles() -> (r: ScanConfig)
        ensures
            r.max_file_bytes == DEFAULT_MAX_FILE_BYTES,
            r.extra_skip@.len() == 0,
            r.want_shingles,
            r.cache_path is None,
    {
        let d = ScanConfig::default();
        ScanConfig { want_shingles: true, ..d }
    }

    /// The same with these names left out.
    pub fn skipping(self, extra: &Vec<String>) -> (r: ScanConfig)
        ensures
            r.extra_skip@ == extra@,
            r.max_file_bytes == self.max_file_bytes,
            r.want_shingles == self.want_shingles,
            r.cache_path == self.cache_path,
    {
        ScanConfig { extra_skip: copy_all(extra), ..self }
    }

    /// The same with this limit on what is read.
    pub fn max_bytes(self, n: u64) -> (r: ScanConfig)
        ensures
            r == (ScanConfig { max_file_bytes: n, ..self }),
    {
        ScanConfig { max_file_bytes: n, ..self }
    }

    /// The same with a cache.
    pub fn with_cache(self, path: String) -> (r: ScanConfig)
        ensures
            r == (ScanConfig { cache_path: Some(path), ..self }),
    {
        ScanConfig { cache_path: Some(path), ..self }
    }

    /// Where the cache of a repository is kept, below its root.
    pub fn default_cache_path(root: &str) -> (r: String)
        ensures
            r@ == if root@.len() == 0 || root@.last() == '/' {
                root@ + ".bonsai/scan-cache.json"@
            } else {
                root@ + "/.bonsai/scan-cache.json"@
            },
    {
        let s = crate::text::chars(root);
        if s.len() == 0 || s[s.len() - 1] == '/' {
            crate::text::cat2(root, ".bonsai/scan-cache.json")
        } else {
            crate::text::cat2(root, "/.bonsai/scan-cache.json")
        }
    }

    /// Whether the cache is consulted.
    pub open spec fn consults(self) -> bool {
        self.cache_path is Some && !self.want_shingles
    }

    /// Whether the cache is consulted.
    pub fn use_cache(&self) -> (r: bool)
        ensures
            r == self.consults(),
    {
        self.cache_path.is_some() && !self.want_shingles
    }
}

// ── what a file holds ──────────────────────────────────────────────────────────────────

/// What is known of a file.
#[derive(Debug, Clone)]
pub struct FileFacts {
    pub rel: String,
    /// The nested repository that the file belongs to; empty for the outer one.
    pub subrepo: String,
    pub size: u64,
    /// Whether there is a zero byte near the beginning, or the contents are not UTF-8.
    pub is_binary: bool,
    /// The hash of the contents; none for an empty file, and for one that was not read.
    pub hash: Option<[u8; 32]>,
    pub lines: u32,
    /// The hashes of lines, in order and each once.
    pub shingles: Vec<u64>,
}

impl FileFacts {
    /// The path.
    pub fn rel_str(&self) -> (r: String)
        ensures
            r == self.rel,
    {
        self.rel.clone()
    }

    /// The nested repository.
    pub fn subrepo_str(&self) -> (r: String)
        ensures
            r == self.subrepo,
    {
        self.subrepo.clone()
    }
}

/// Whether a zero byte stands near the beginning, or the bytes are not UTF-8.
pub open spec fn binary(bytes: Seq<u8>) -> bool {
    (exists|i: int| 0 <= i < bytes.len() && i < BINARY_SNIFF_BYTES && #[trigger] bytes[i] == 0)
        || !vstd::utf8::valid_utf8(bytes)
}

/// How many of the first `n` bytes are line feeds.
pub open spec fn line_feeds(bytes: Seq<u8>, n: int) -> int
    decreases n,
{
    if n <= 0 {
        0
    } else {
        line_feeds(bytes, n - 1) + (if bytes[n - 1] == 10 {
            1int
        } else {
            0int
        })
    }
}

/// How many lines bytes hold; one without an end at the end of the text counts.
pub open spec fn line_count(bytes: Seq<u8>) -> int {
    line_feeds(bytes, bytes.len() as int) + (if bytes.len() > 0 && bytes.last() != 10 {
        1int
    } else {
        0int
    })
}

/// The hash of a line, unless it is too short to tell anything.
pub open spec fn line_hash(ls: Seq<Seq<char>>) -> spec_fn(int) -> Seq<u64> {
    |i: int|
        {
            let b = vstd::utf8::encode_utf8(trimmed(ls[i]));
            if b.len() < 4 {
                seq![]
            } else {
                seq![fnv(b)]
            }
        }
}

/// The hashes of the lines of a text, as they come.
pub open spec fn line_hashes(text: Seq<char>) -> Seq<u64> {
    gather(lines_of(text).len() as int, line_hash(lines_of(text)))
}

/// The hashes of the lines of a text, in order and each once.
pub fn shingles(text: &str) -> (r: Vec<u64>)
    ensures
        r@ == canonical(line_hashes(text@)),
{
    let ls = lines(text);
    let ghost all = lines_of(text@);
    let mut out: Vec<u64> = Vec::new();
    let mut i: usize = 0;
    while i < ls.len()
        invariant
            i <= ls.len(),
            all == texts(ls@),
            out@ =~= gather(i as int, line_hash(all)),
        decreases ls.len() - i,
    {
        assert(all[i as int] == ls@[i as int]@);
        let t = trim(ls[i].as_str());
        let b = t.as_str().as_bytes();
        if b.len() >= 4 {
            out.push(fnv1a(b));
        }
        i += 1;
    }
    assert(all.len() == ls@.len());
    canon(out)
}

/// Two sequences in strict order with the same elements are equal.
pub proof fn strict_unique(s: Seq<u64>, t: Seq<u64>)
    requires
        strictly_ascending(s),
        strictly_ascending(t),
        forall|x: u64| #[trigger] s.contains(x) <==> t.contains(x),
    ensures
        s == t,
    decreases s.len(),
{
    if s.len() == 0 {
        if t.len() > 0 {
            assert(t.contains(t[0]));
            assert(s.contains(t[0]));
        }
        assert(s =~= t);
    } else {
        assert(s.contains(s[0]));
        assert(t.contains(s[0]));
        let x = s.last();
        assert(s.contains(x));
        let i = choose|i: int| 0 <= i < t.len() && t[i] == x;
        let y = t.last();
        assert(t.contains(y));
        assert(s.contains(y));
        let j = choose|j: int| 0 <= j < s.len() && s[j] == y;
        if i < t.len() - 1 {
            assert(crate::order::before(t[i].rank(), t[t.len() - 1].rank()));
            if j < s.len() - 1 {
                assert(crate::order::before(s[j].rank(), s[s.len() - 1].rank()));
                crate::order::before_asymmetric(x.rank(), y.rank());
            } else {
                before_irreflexive(x.rank());
            }
        }
        assert(x == y);
        let a = s.drop_last();
        let b = t.drop_last();
        assert forall|p: int, q: int| 0 <= p < q < a.len() implies crate::order::before(
            #[trigger] a[p].rank(),
            #[trigger] a[q].rank(),
        ) by {
            assert(a[p] == s[p] && a[q] == s[q]);
        }
        assert forall|p: int, q: int| 0 <= p < q < b.len() implies crate::order::before(
            #[trigger] b[p].rank(),
            #[trigger] b[q].rank(),
        ) by {
            assert(b[p] == t[p] && b[q] == t[q]);
        }
        assert forall|z: u64| #[trigger] a.contains(z) <==> b.contains(z) by {
            without_last(s, z);
            without_last(t, z);
        }
        strict_unique(a, b);
        assert(s =~= a.push(x));
        assert(t =~= b.push(x));
    }
}

proof fn without_last(s: Seq<u64>, z: u64)
    requires
        strictly_ascending(s),
        s.len() > 0,
    ensures
        s.drop_last().contains(z) <==> s.contains(z) && z != s.last(),
{
    let a = s.drop_last();
    if a.contains(z) {
        let i = choose|i: int| 0 <= i < a.len() && a[i] == z;
        assert(s[i] == z);
        assert(crate::order::before(s[i].rank(), s[s.len() - 1].rank()));
        before_irreflexive(z.rank());
    }
    if s.contains(z) && z != s.last() {
        let i = choose|i: int| 0 <= i < s.len() && s[i] == z;
        assert(a[i] == z);
    }
}

/// The hashes of lines depend neither on the order of the lines nor on how often one occurs.
pub proof fn shingles_ignore_order(a: Seq<char>, b: Seq<char>)
    requires
        forall|h: u64| #[trigger] line_hashes(a).contains(h) <==> line_hashes(b).contains(h),
    ensures
        canonical(line_hashes(a)) == canonical(line_hashes(b)),
{
    let s = line_hashes(a);
    let t = line_hashes(b);
    canonical_facts(s);
    canonical_facts(t);
    assert forall|x: u64| #[trigger] canonical(s).contains(x) <==> canonical(t).contains(x) by {
        canonical_keeps(s, x);
        canonical_keeps(t, x);
    }
    strict_unique(canonical(s), canonical(t));
}

/// The canonical form of numbers holds exactly the numbers.
pub proof fn canonical_keeps(s: Seq<u64>, x: u64)
    ensures
        canonical(s).contains(x) <==> s.contains(x),
{
    canonical_facts(s);
    if s.contains(x) {
        let c = canonical(s);
        let i = choose|i: int| 0 <= i < c.len() && #[trigger] c[i].rank() == x.rank();
        let y = c[i];
        assert(number_rank(y as int)[0] == number_rank(x as int)[0]);
        assert(number_rank(y as int)[1] == number_rank(x as int)[1]);
        assert(y as int / 0x1_0000_0000 == x as int / 0x1_0000_0000);
        assert(y as int % 0x1_0000_0000 == x as int % 0x1_0000_0000);
        assert(y == x);
    }
}

fn is_binary(bytes: &Vec<u8>) -> (r: bool)
    ensures
        r == binary(bytes@),
{
    let mut i: usize = 0;
    while i < bytes.len() && i < BINARY_SNIFF_BYTES
        invariant
            i <= bytes.len(),
            forall|k: int| 0 <= k < i ==> #[trigger] bytes@[k] != 0,
        decreases bytes.len() - i,
    {
        if bytes[i] == 0 {
            return true;
        }
        i += 1;
    }
    match std::str::from_utf8(bytes.as_slice()) {
        Ok(_) => false,
        Err(_) => true,
    }
}

fn count_lines(bytes: &Vec<u8>) -> (r: u64)
    requires
        bytes@.len() > 0,
    ensures
        r == line_count(bytes@),
{
    let mut n: usize = 0;
    let mut i: usize = 0;
    while i < bytes.len()
        invariant
            i <= bytes.len(),
            n == line_feeds(bytes@, i as int),
            n <= i,
            i > 0 && bytes@[i - 1] != 10 ==> n < i,
        decreases bytes.len() - i,
    {
        if bytes[i] == 10 {
            n += 1;
        }
        i += 1;
    }
    if bytes[bytes.len() - 1] != 10 {
        n as u64 + 1
    } else {
        n as u64
    }
}

// ── reading a file ─────────────────────────────────────────────────────────────────────

/// What is known of a file before it is read: its path and the repository that it belongs to.
pub open spec fn bare(f: FileFacts, rel: Seq<char>, roots: Seq<Seq<char>>) -> bool {
    &&& f.rel@ == rel
    &&& f.subrepo@ == repo_of(rel, roots)
    &&& !f.is_binary
    &&& f.hash is None
    &&& f.lines == 0
    &&& f.shingles@.len() == 0
}

/// What to do about a file.
#[derive(Debug)]
pub enum ReadPlan {
    /// Nothing more is to be learned.
    Done(FileFacts),
    /// All is remembered.
    Cached(FileFacts),
    /// The file has to be read.
    Read(FileFacts),
    /// The file is not to be found any more.
    Lost(FileFacts),
}

/// How what is known of a file came about.
#[derive(Debug, Clone, Copy, PartialEq, Eq, Structural)]
pub enum Outcome {
    /// From the directory, and from the file where it was read.
    Taken,
    /// It was remembered.
    Cached,
    /// The file was not to be found any more.
    Lost,
}

/// The entry of a cache that describes a file as it is, where there is one and it can be read.
pub open spec fn remembered(
    cache: Option<&Cache>,
    rel: Seq<char>,
    stat: Option<(u64, (i64, u32))>,
) -> Option<CacheEntry> {
    match (cache, stat) {
        (Some(c), Some((size, mtime))) => match value_of(c.entries@, rel) {
            Some(e) => if e.fits(size, mtime) && e.legible() {
                Some(e)
            } else {
                None
            },
            None => None,
        },
        _ => None,
    }
}

/// The size that was found, or 0.
pub open spec fn stat_size(stat: Option<(u64, (i64, u32))>) -> u64 {
    match stat {
        Some((size, _)) => size,
        None => 0,
    }
}

fn find_remembered<'a>(
    cache: Option<&'a Cache>,
    rel: &str,
    stat: Option<(u64, (i64, u32))>,
) -> (r: Option<&'a CacheEntry>)
    ensures
        match r {
            Some(e) => remembered(cache, rel@, stat) == Some(*e),
            None => remembered(cache, rel@, stat) is None,
        },
{
    match (cache, stat) {
        (Some(c), Some((size, mtime))) => match c.entries.get(rel) {
            Some(e) => if e.matches(size, mtime) && e.is_legible() {
                Some(e)
            } else {
                None
            },
            None => None,
        },
        _ => None,
    }
}

/// What to do about a file, from what its directory says: a link is left alone, a file that nothing
/// is known of any more is lost, what is remembered is not read again, and neither is what is empty
/// or too large.
pub fn plan_read(
    rel: &str,
    subrepos: &Vec<String>,
    cfg: &ScanConfig,
    cache: Option<&Cache>,
    is_symlink: bool,
    stat: Option<(u64, (i64, u32))>,
) -> (r: ReadPlan)
    ensures
        match r {
            ReadPlan::Done(f) => bare(f, rel@, texts(subrepos@)) && f.size == (if is_symlink {
                0
            } else {
                stat_size(stat)
            }),
            ReadPlan::Read(f) => bare(f, rel@, texts(subrepos@)) && f.size == stat_size(stat),
            ReadPlan::Lost(f) => bare(f, rel@, texts(subrepos@)) && f.size == 0,
            ReadPlan::Cached(f) => remembered(cache, rel@, stat) is Some && f.rel@ == rel@
                && f.subrepo@ == repo_of(rel@, texts(subrepos@)) && f.size == stat_size(stat)
                && f.is_binary == remembered(cache, rel@, stat)->0.is_binary && f.lines
                == remembered(cache, rel@, stat)->0.lines && f.shingles@.len() == 0 && (
            match remembered(cache, rel@, stat)->0.hash {
                Some(s) => f.hash is Some && unhex(s@) == Some(f.hash->0@),
                None => f.hash is None,
            }),
        },
        r is Lost <==> !is_symlink && stat is None,
        r is Cached <==> !is_symlink && remembered(cache, rel@, stat) is Some,
        r is Read <==> !is_symlink && remembered(cache, rel@, stat) is None && 0 < stat_size(
            stat,
        ) <= cfg.max_file_bytes,
{
    let mut facts = FileFacts {
        rel: rel.to_owned(),
        subrepo: subrepo_of(rel, subrepos),
        size: 0,
        is_binary: false,
        hash: None,
        lines: 0,
        shingles: Vec::new(),
    };
    if is_symlink {
        return ReadPlan::Done(facts);
    }
    let size = match stat {
        Some((size, _mtime)) => size,
        None => {
            return ReadPlan::Lost(facts);
        },
    };
    facts.size = size;
    match find_remembered(cache, rel, stat) {
        Some(e) => {
            facts.is_binary = e.is_binary;
            facts.lines = e.lines;
            facts.hash = match &e.hash {
                Some(s) => hex_to_hash(s.as_str()),
                None => None,
            };
            return ReadPlan::Cached(facts);
        },
        None => {},
    }
    if size == 0 || size > cfg.max_file_bytes {
        return ReadPlan::Done(facts);
    }
    ReadPlan::Read(facts)
}

/// Whether `r` is what is known of a file once it is read: nothing more where it could not be, or
/// was empty.
pub open spec fn characterized(
    facts: FileFacts,
    content: Option<Vec<u8>>,
    want_shingles: bool,
    r: FileFacts,
) -> bool {
    &&& r.rel == facts.rel
    &&& r.subrepo == facts.subrepo
    &&& r.size == facts.size
    &&& (content is None || content->0@.len() == 0) ==> r == facts
    &&& content is Some && content->0@.len() > 0 ==> {
        let b = content->0@;
        &&& r.is_binary == binary(b)
        &&& r.hash is Some
        &&& r.hash->0@ == blake3_hash(b)
        &&& r.lines == (line_count(b) as u32)
        &&& want_shingles && !binary(b) ==> r.shingles@ == canonical(
            line_hashes(vstd::utf8::decode_utf8(b)),
        )
        &&& !(want_shingles && !binary(b)) ==> r.shingles == facts.shingles
    }
}

/// What is known of a file once it is read: nothing more where it could not be, or was empty.
pub fn characterize(facts: FileFacts, content: Option<Vec<u8>>, want_shingles: bool) -> (r: FileFacts)
    ensures
        characterized(facts, content, want_shingles, r),
{
    let mut facts = facts;
    let bytes = match content {
        Some(b) => b,
        None => {
            return facts;
        },
    };
    if bytes.len() == 0 {
        return facts;
    }
    facts.is_binary = is_binary(&bytes);
    facts.hash = Some(hash_bytes(bytes.as_slice()));
    let n: u64 = count_lines(&bytes);
    facts.lines = #[verifier::truncate] (n as u32);
    if want_shingles && !facts.is_binary {
        match std::str::from_utf8(bytes.as_slice()) {
            Ok(text) => {
                facts.shingles = shingles(text);
            },
            Err(_) => {},
        }
    }
    facts
}

/// What is known of a file in the end, and how it came about: from the plan, and from the contents
/// where the plan is to read it.
pub fn finish(plan: ReadPlan, content: Option<Vec<u8>>, want_shingles: bool) -> (r: (
    FileFacts,
    Outcome,
))
    ensures
        match plan {
            ReadPlan::Done(f) => r == (f, Outcome::Taken),
            ReadPlan::Cached(f) => r == (f, Outcome::Cached),
            ReadPlan::Lost(f) => r == (f, Outcome::Lost),
            ReadPlan::Read(f) => r.1 == Outcome::Taken && characterized(
                f,
                content,
                want_shingles,
                r.0,
            ),
        },
{
    match plan {
        ReadPlan::Done(f) => (f, Outcome::Taken),
        ReadPlan::Cached(f) => (f, Outcome::Cached),
        ReadPlan::Lost(f) => (f, Outcome::Lost),
        ReadPlan::Read(f) => (characterize(f, content, want_shingles), Outcome::Taken),
    }
}

// ── the scan ───────────────────────────────────────────────────────────────────────────

/// What was found in the files of a repository.
#[derive(Debug, Clone)]
pub struct Scan {
    pub root: String,
    /// The files, in the order of the walk.
    pub files: Vec<FileFacts>,
    /// The nested repositories.
    pub subrepos: Vec<String>,
    /// How many files were too large to be read.
    pub over_cap: usize,
    /// How many files could not be read.
    pub unreadable: usize,
    /// How many files were remembered.
    pub cache_hits: usize,
}

/// How many of the first `n` files were too large.
pub open spec fn over_cap_upto(fs: Seq<FileFacts>, cap: u64, n: int) -> nat
    decreases n,
{
    if n <= 0 {
        0
    } else {
        over_cap_upto(fs, cap, n - 1) + (if fs[n - 1].hash is None && fs[n - 1].size > cap {
            1nat
        } else {
            0nat
        })
    }
}

/// How many of the first `n` files could not be read: those that were lost, and those that are
/// neither too large nor empty and yet without a hash.
pub open spec fn unreadable_upto(fs: Seq<FileFacts>, os: Seq<Outcome>, cap: u64, n: int) -> nat
    decreases n,
{
    if n <= 0 {
        0
    } else {
        unreadable_upto(fs, os, cap, n - 1) + (if os[n - 1] == Outcome::Lost || (fs[n
            - 1].hash is None && 0 < fs[n - 1].size <= cap) {
            1nat
        } else {
            0nat
        })
    }
}

/// How many of the first `n` files were remembered.
pub open spec fn cached_upto(os: Seq<Outcome>, n: int) -> nat
    decreases n,
{
    if n <= 0 {
        0
    } else {
        cached_upto(os, n - 1) + (if os[n - 1] == Outcome::Cached {
            1nat
        } else {
            0nat
        })
    }
}

/// The number of lines of the last of the first `n` files with a path.
pub open spec fn lines_upto(fs: Seq<FileFacts>, rel: Seq<char>, n: int) -> Option<u32>
    decreases n,
{
    if n <= 0 {
        None
    } else if fs[n - 1].rel@ == rel {
        Some(fs[n - 1].lines)
    } else {
        lines_upto(fs, rel, n - 1)
    }
}

impl Scan {
    /// The scan that files make up, with what was remembered and what could not be read counted.
    pub fn collect(
        root: String,
        files: Vec<FileFacts>,
        outcomes: &Vec<Outcome>,
        subrepos: Vec<String>,
        cfg: &ScanConfig,
    ) -> (r: Scan)
        requires
            files@.len() == outcomes@.len(),
        ensures
            r.root == root,
            r.files == files,
            r.subrepos == subrepos,
            r.cache_hits == cached_upto(outcomes@, files@.len() as int),
            r.over_cap == over_cap_upto(files@, cfg.max_file_bytes, files@.len() as int),
            r.unreadable == unreadable_upto(
                files@,
                outcomes@,
                cfg.max_file_bytes,
                files@.len() as int,
            ),
    {
        let cap = cfg.max_file_bytes;
        let mut over: usize = 0;
        let mut failed: usize = 0;
        let mut hits: usize = 0;
        let mut i: usize = 0;
        while i < files.len()
            invariant
                i <= files.len() == outcomes.len(),
                over == over_cap_upto(files@, cap, i as int),
                failed == unreadable_upto(files@, outcomes@, cap, i as int),
                hits == cached_upto(outcomes@, i as int),
                over <= i,
                failed <= i,
                hits <= i,
            decreases files.len() - i,
        {
            let bare = files[i].hash.is_none();
            let size = files[i].size;
            if bare && size > cap {
                over += 1;
            }
            if outcomes[i] == Outcome::Lost || (bare && 0 < size && size <= cap) {
                failed += 1;
            }
            if outcomes[i] == Outcome::Cached {
                hits += 1;
            }
            i += 1;
        }
        Scan { root, files, subrepos, over_cap: over, unreadable: failed, cache_hits: hits }
    }

    /// The number of lines of each file.
    pub fn lines_by_rel(&self) -> (r: Table<u32, false>)
        ensures
            forall|k: Seq<char>| #[trigger]
                value_of(r@, k) == lines_upto(self.files@, k, self.files@.len() as int),
    {
        let mut t: Table<u32, false> = Table::new();
        let mut i: usize = 0;
        while i < self.files.len()
            invariant
                i <= self.files.len(),
                forall|k: Seq<char>| #[trigger]
                    value_of(t@, k) == lines_upto(self.files@, k, i as int),
            decreases self.files.len() - i,
        {
            t.insert(self.files[i].rel.clone(), self.files[i].lines);
            i += 1;
        }
        t
    }
}

/// Whether a file is worth remembering: it was read, or it is empty.
pub open spec fn memorable(f: FileFacts, stat: Option<(u64, (i64, u32))>) -> bool {
    stat is Some && !(f.hash is None && f.size > 0)
}

/// Whether an entry remembers a file as it was found.
pub open spec fn remembers(e: CacheEntry, f: FileFacts, stat: (u64, (i64, u32))) -> bool {
    &&& e.fits(stat.0, stat.1)
    &&& e.lines == f.lines
    &&& e.is_binary == f.is_binary
    &&& text_opt(e.hash) == (match f.hash {
        Some(h) => Some(hex(h@)),
        None => None,
    })
}

/// The entry that remembers a file.
pub fn remember(f: &FileFacts, stat: (u64, (i64, u32))) -> (r: CacheEntry)
    ensures
        remembers(r, *f, stat),
{
    let (size, mtime) = stat;
    CacheEntry {
        size,
        mtime_s: mtime.0,
        mtime_ns: mtime.1,
        hash: match &f.hash {
            Some(h) => Some(hash_to_hex(h)),
            None => None,
        },
        lines: f.lines,
        is_binary: f.is_binary,
    }
}

/// The last of the first `n` files with a path that is worth remembering.
pub open spec fn last_memorable(
    fs: Seq<FileFacts>,
    stats: Seq<Option<(u64, (i64, u32))>>,
    rel: Seq<char>,
    n: int,
) -> Option<int>
    decreases n,
{
    if n <= 0 {
        None
    } else if fs[n - 1].rel@ == rel && memorable(fs[n - 1], stats[n - 1]) {
        Some(n - 1)
    } else {
        last_memorable(fs, stats, rel, n - 1)
    }
}

/// Whether a table holds what is worth remembering of the first `n` files, and nothing else.
pub open spec fn remembers_all(
    rows: Seq<(Seq<char>, CacheEntry)>,
    fs: Seq<FileFacts>,
    stats: Seq<Option<(u64, (i64, u32))>>,
    n: int,
) -> bool {
    forall|k: Seq<char>|
        match last_memorable(fs, stats, k, n) {
            Some(i) => (#[trigger] value_of(rows, k)) is Some && remembers(
                value_of(rows, k)->0,
                fs[i],
                stats[i]->0,
            ),
            None => value_of(rows, k) is None,
        }
}

/// The cache that a scan leaves behind; `stats` gives the size and the time of each file. What
/// could not be read is left out, so that it is tried again.
pub fn build_cache(files: &Vec<FileFacts>, stats: &Vec<Option<(u64, (i64, u32))>>) -> (r: Cache)
    requires
        files@.len() == stats@.len(),
    ensures
        r.version == CACHE_VERSION,
        remembers_all(r.entries@, files@, stats@, files@.len() as int),
{
    let mut t: Table<CacheEntry, false> = Table::new();
    let mut i: usize = 0;
    while i < files.len()
        invariant
            i <= files.len() == stats.len(),
            remembers_all(t@, files@, stats@, i as int),
        decreases files.len() - i,
    {
        let f = &files[i];
        let ghost before = t@;
        let worth = !(f.hash.is_none() && f.size > 0);
        match stats[i] {
            Some(stat) => {
                if worth {
                    t.insert(f.rel.clone(), remember(f, stat));
                }
            },
            None => {},
        }
        proof {
            assert forall|k: Seq<char>|
                match last_memorable(files@, stats@, k, i + 1) {
                    Some(j) => (#[trigger] value_of(t@, k)) is Some && remembers(
                        value_of(t@, k)->0,
                        files@[j],
                        stats@[j]->0,
                    ),
                    None => value_of(t@, k) is None,
                } by {
                assert(match last_memorable(files@, stats@, k, i as int) {
                    Some(j) => value_of(before, k) is Some && remembers(
                        value_of(before, k)->0,
                        files@[j],
                        stats@[j]->0,
                    ),
                    None => value_of(before, k) is None,
                });
                if k != f.rel@ {
                    assert(value_of(t@, k) == value_of(before, k));
                }
            }
        }
        i += 1;
    }
    Cache { version: CACHE_VERSION, entries: t }
}

/// What a scan leaves behind is taken up by the next: a file that was read and has not changed
/// is remembered with the hash, the line count and the kind that reading found.
pub proof fn cache_round_trip(e: CacheEntry, f: FileFacts, stat: (u64, (i64, u32)))
    requires
        remembers(e, f, stat),
    ensures
        e.fits(stat.0, stat.1),
        e.legible(),
        e.lines == f.lines,
        e.is_binary == f.is_binary,
        match e.hash {
            Some(s) => f.hash is Some && unhex(s@) == Some(f.hash->0@),
            None => f.hash is None,
        },
{
    match f.hash {
        Some(h) => {
            crate::digest::hex_round_trip(h@);
        },
        None => {},
    }
}

} // verus!
