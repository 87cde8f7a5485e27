//! What a scan counts and remembers.
use vstd::prelude::*;

use crate::scan::{
    cached_upto, canonical_keeps, last_memorable, line_count, line_feeds, line_hash, line_hashes,
    lines_upto, memorable, over_cap_upto, unreadable_upto, FileFacts, Outcome,
};
use crate::order::canonical;
use crate::text::{gather_contains, lines_of, trimmed};
use crate::walk::{deepest, lies_in, repo_of};

verus! {

/// The lines of a file are as many as its line feeds, and one more where something comes behind the
/// last of them.
pub proof fn lines_are_counted(bytes: Seq<u8>, n: int)
    requires
        0 <= n <= bytes.len(),
    ensures
        line_feeds(bytes, n) == bytes.take(n).filter(|b: u8| b == 10).len(),
        bytes.len() == 0 ==> line_count(bytes) == 0,
        bytes.len() > 0 && bytes.last() == 10 ==> line_count(bytes) == line_feeds(
            bytes,
            bytes.len() as int,
        ),
        bytes.len() > 0 && bytes.last() != 10 ==> line_count(bytes) == line_feeds(
            bytes,
            bytes.len() as int,
        ) + 1,
    decreases n,
{
    reveal(Seq::filter);
    if n > 0 {
        lines_are_counted(bytes, n - 1);
        let t = bytes.take(n);
        assert(t.drop_last() =~= bytes.take(n - 1));
        assert(t.last() == bytes[n - 1]);
    }
}

/// A file is too large where it has no hash and its size is above the limit.
pub open spec fn too_large(f: FileFacts, cap: u64) -> bool {
    f.hash is None && f.size > cap
}

/// What is counted as too large is how many files are, and what is counted as remembered is how many
/// outcomes say so.
pub proof fn scans_count(fs: Seq<FileFacts>, os: Seq<Outcome>, cap: u64, n: int)
    requires
        0 <= n <= fs.len(),
        n <= os.len(),
    ensures
        over_cap_upto(fs, cap, n) == fs.take(n).filter(|f: FileFacts| too_large(f, cap)).len(),
        cached_upto(os, n) == os.take(n).filter(|o: Outcome| o == Outcome::Cached).len(),
    decreases n,
{
    reveal(Seq::filter);
    if n > 0 {
        scans_count(fs, os, cap, n - 1);
        let t = fs.take(n);
        assert(t.drop_last() =~= fs.take(n - 1));
        assert(t.last() == fs[n - 1]);
        let u = os.take(n);
        assert(u.drop_last() =~= os.take(n - 1));
        assert(u.last() == os[n - 1]);
    }
}

/// Whether a file could not be read: it was lost, or it has no hash though it is neither empty nor
/// too large.
pub open spec fn unread(p: (FileFacts, Outcome), cap: u64) -> bool {
    p.1 == Outcome::Lost || (p.0.hash is None && p.0.size > 0 && p.0.size <= cap)
}

/// What is counted as unreadable is how many files could not be read.
pub proof fn unreadable_files_are_counted(fs: Seq<FileFacts>, os: Seq<Outcome>, cap: u64, n: int)
    requires
        0 <= n <= fs.len(),
        n <= os.len(),
    ensures
        unreadable_upto(fs, os, cap, n) == Seq::new(n as nat, |i: int| (fs[i], os[i])).filter(
            |p: (FileFacts, Outcome)| unread(p, cap),
        ).len(),
    decreases n,
{
    reveal(Seq::filter);
    if n > 0 {
        unreadable_files_are_counted(fs, os, cap, n - 1);
        let t = Seq::new(n as nat, |i: int| (fs[i], os[i]));
        assert(t.drop_last() =~= Seq::new((n - 1) as nat, |i: int| (fs[i], os[i])));
        assert(t.last() == (fs[n - 1], os[n - 1]));
    }
}

/// A line counts among the hashes of a text by its bytes without whitespace around them, where they
/// are at least four.
pub proof fn longer_lines_are_hashed(text: Seq<char>, h: u64)
    ensures
        canonical(line_hashes(text)).contains(h) <==> exists|i: int|
            {
                let b = vstd::utf8::encode_utf8(trimmed(#[trigger] lines_of(text)[i]));
                0 <= i < lines_of(text).len() && b.len() >= 4 && h == crate::scan::fnv(b)
            },
{
    let ls = lines_of(text);
    let f = line_hash(ls);
    let n = ls.len() as int;
    canonical_keeps(line_hashes(text), h);
    gather_contains(n, f, h);
    if line_hashes(text).contains(h) {
        let i = choose|i: int| 0 <= i < n && (#[trigger] f(i)).contains(h);
        let found = f(i);
        let k = choose|k: int| 0 <= k < found.len() && found[k] == h;
        let b = vstd::utf8::encode_utf8(trimmed(lines_of(text)[i]));
        assert(h == crate::scan::fnv(b));
    }
    if exists|i: int|
        {
            let b = vstd::utf8::encode_utf8(trimmed(#[trigger] lines_of(text)[i]));
            0 <= i < lines_of(text).len() && b.len() >= 4 && h == crate::scan::fnv(b)
        } {
        let i = choose|i: int|
            {
                let b = vstd::utf8::encode_utf8(trimmed(#[trigger] lines_of(text)[i]));
                0 <= i < lines_of(text).len() && b.len() >= 4 && h == crate::scan::fnv(b)
            };
        assert(f(i)[0] == h);
        assert(f(i).contains(h));
    }
}

/// Whether the file at a position is the last of several with a path that is worth remembering: its
/// size and time are known, and it has a hash or is empty.
pub open spec fn last_worth(
    fs: Seq<FileFacts>,
    stats: Seq<Option<(u64, (i64, u32))>>,
    rel: Seq<char>,
    k: int,
) -> bool {
    &&& 0 <= k < fs.len()
    &&& worth(fs[k], stats[k], rel)
    &&& forall|j: int| k < j < fs.len() ==> !worth(#[trigger] fs[j], stats[j], rel)
}

/// Whether a file has a path and is worth remembering.
pub open spec fn worth(f: FileFacts, stat: Option<(u64, (i64, u32))>, rel: Seq<char>) -> bool {
    f.rel@ == rel && stat is Some && (f.hash is Some || f.size == 0)
}

/// What a scan remembers of a path is the last file with it that is worth remembering.
pub proof fn the_last_worth_is_remembered(
    fs: Seq<FileFacts>,
    stats: Seq<Option<(u64, (i64, u32))>>,
    rel: Seq<char>,
    n: int,
)
    requires
        0 <= n <= fs.len(),
        forall|j: int| n <= j < fs.len() ==> !worth(#[trigger] fs[j], stats[j], rel),
    ensures
        match last_memorable(fs, stats, rel, n) {
            Some(k) => last_worth(fs, stats, rel, k),
            None => forall|j: int| 0 <= j < fs.len() ==> !worth(#[trigger] fs[j], stats[j], rel),
        },
    decreases n,
{
    if n > 0 {
        assert(memorable(fs[n - 1], stats[n - 1]) && fs[n - 1].rel@ == rel <==> worth(
            fs[n - 1],
            stats[n - 1],
            rel,
        ));
        if !worth(fs[n - 1], stats[n - 1], rel) {
            the_last_worth_is_remembered(fs, stats, rel, n - 1);
        }
    }
}

/// The lines of a path are those of the last file with it.
pub proof fn the_last_file_gives_the_lines(fs: Seq<FileFacts>, rel: Seq<char>, n: int)
    requires
        0 <= n <= fs.len(),
        forall|j: int| n <= j < fs.len() ==> (#[trigger] fs[j]).rel@ != rel,
    ensures
        match lines_upto(fs, rel, n) {
            Some(l) => exists|k: int|
                0 <= k < fs.len() && (#[trigger] fs[k]).rel@ == rel && fs[k].lines == l && forall|
                    j: int,
                | k < j < fs.len() ==> (#[trigger] fs[j]).rel@ != rel,
            None => forall|j: int| 0 <= j < fs.len() ==> (#[trigger] fs[j]).rel@ != rel,
        },
    decreases n,
{
    if n > 0 {
        if fs[n - 1].rel@ == rel {
            assert(fs[n - 1].rel@ == rel);
        } else {
            the_last_file_gives_the_lines(fs, rel, n - 1);
        }
    }
}

proof fn deepest_is_one(rel: Seq<char>, roots: Seq<Seq<char>>, n: int)
    requires
        0 <= n <= roots.len(),
    ensures
        match deepest(rel, roots, n) {
            Some(r) => exists|k: int| 0 <= k < n && #[trigger] roots[k] == r && lies_in(rel, r),
            None => forall|k: int| 0 <= k < n ==> !lies_in(rel, #[trigger] roots[k]),
        },
    decreases n,
{
    if n > 0 {
        deepest_is_one(rel, roots, n - 1);
        let prior = deepest(rel, roots, n - 1);
        if deepest(rel, roots, n) == Some(roots[n - 1]) && lies_in(rel, roots[n - 1]) {
            assert(roots[n - 1] == deepest(rel, roots, n)->0);
        } else if prior is Some {
            let k = choose|k: int|
                0 <= k < n - 1 && #[trigger] roots[k] == prior->0 && lies_in(rel, prior->0);
            assert(roots[k] == prior->0);
        }
    }
}

/// A path belongs to a nested repository only if it lies in it, and to none only if it lies in none.
pub proof fn files_belong_where_they_lie(rel: Seq<char>, roots: Seq<Seq<char>>)
    ensures
        (exists|k: int| 0 <= k < roots.len() && lies_in(rel, #[trigger] roots[k])) ==> roots.contains(
            repo_of(rel, roots),
        ) && lies_in(rel, repo_of(rel, roots)),
        (forall|k: int| 0 <= k < roots.len() ==> !lies_in(rel, #[trigger] roots[k])) ==> repo_of(
            rel,
            roots,
        ) == Seq::<char>::empty(),
{
    deepest_is_one(rel, roots, roots.len() as int);
}

} // verus!
