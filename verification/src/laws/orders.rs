//! In what order results come.
use vstd::prelude::*;

use crate::clones::{clone_groups, group_at, hashes, FuncView};
use crate::lean::{dup_groups, hash_groups};
use crate::order::{
    arranged_facts, before, before_from, falling_rank, name_rank, number_rank_orders, same_code,
    Ranked,
};
use crate::scan::FileFacts;
use crate::text::gather;

verus! {

/// Whether a text comes before another by the place `k`: up to there they are the same, and there
/// the text ends or has the character with the smaller code.
pub open spec fn comes_before_at(a: Seq<char>, b: Seq<char>, k: int) -> bool {
    &&& 0 <= k <= a.len()
    &&& k < b.len()
    &&& forall|j: int| 0 <= j < k ==> #[trigger] a[j] == b[j]
    &&& k == a.len() || (a[k] as u32) < (b[k] as u32)
}

/// Whether a text comes before another: it is the beginning of that other, or has the character
/// with the smaller code at the first place where they differ.
pub open spec fn text_before(a: Seq<char>, b: Seq<char>) -> bool {
    exists|k: int| comes_before_at(a, b, k)
}

proof fn before_on(a: Seq<char>, b: Seq<char>, i: int)
    requires
        0 <= i <= a.len(),
        i <= b.len(),
        forall|j: int| 0 <= j < i ==> #[trigger] a[j] == b[j],
        before_from(name_rank(false, a), name_rank(false, b), i),
    ensures
        text_before(a, b),
    decreases b.len() - i,
{
    let x = name_rank(false, a);
    let y = name_rank(false, b);
    if i < b.len() {
        if i < a.len() {
            assert(x[i] == (a[i] as u32) as i64 && y[i] == (b[i] as u32) as i64);
            if x[i] == y[i] {
                same_code(a[i], b[i]);
                before_on(a, b, i + 1);
            } else {
                assert(comes_before_at(a, b, i));
            }
        } else {
            assert(comes_before_at(a, b, i));
        }
    }
}

proof fn text_on(a: Seq<char>, b: Seq<char>, k: int, i: int)
    requires
        0 <= i <= k,
        comes_before_at(a, b, k),
    ensures
        before_from(name_rank(false, a), name_rank(false, b), i),
    decreases k - i,
{
    let x = name_rank(false, a);
    let y = name_rank(false, b);
    if i < k {
        assert(a[i] == b[i]);
        assert(x[i] == y[i]);
        text_on(a, b, k, i + 1);
    } else if k < a.len() {
        assert(x[k] == (a[k] as u32) as i64 && y[k] == (b[k] as u32) as i64);
    }
}

/// Names come in the order of their characters.
pub proof fn names_come_by_characters(a: Seq<char>, b: Seq<char>)
    ensures
        before(a.rank(), b.rank()) <==> text_before(a, b),
{
    if before(a.rank(), b.rank()) {
        before_on(a, b, 0);
    }
    if text_before(a, b) {
        let k = choose|k: int| comes_before_at(a, b, k);
        text_on(a, b, k, 0);
    }
}

proof fn pairs_before(x: Seq<i64>, p: Seq<i64>, y: Seq<i64>, q: Seq<i64>)
    requires
        x.len() == 2,
        p.len() == 2,
        y.len() == 2,
        q.len() == 2,
    ensures
        before(x + p, y + q) <==> before(x, y) || (x == y && before(p, q)),
{
    let a = x + p;
    let b = y + q;
    reveal_with_fuel(before_from, 5);
    assert(a[0] == x[0] && a[1] == x[1] && a[2] == p[0] && a[3] == p[1]);
    assert(b[0] == y[0] && b[1] == y[1] && b[2] == q[0] && b[3] == q[1]);
    if x[0] == y[0] && x[1] == y[1] {
        assert(x =~= y);
    }
}

/// Groups of copied functions come with more members first, and of those with as many the ones with
/// longer bodies first.
pub proof fn larger_clone_groups_come_first(fs: Seq<FuncView>, i: int, j: int)
    requires
        0 <= i < j < clone_groups(fs).len(),
        clone_groups(fs)[i].sites.len() <= usize::MAX,
        clone_groups(fs)[j].sites.len() <= usize::MAX,
    ensures
        clone_groups(fs)[i].sites.len() >= clone_groups(fs)[j].sites.len(),
        clone_groups(fs)[i].sites.len() == clone_groups(fs)[j].sites.len() ==> clone_groups(
            fs,
        )[i].lines >= clone_groups(fs)[j].lines,
{
    let all = gather(hashes(fs).len() as int, group_at(fs));
    arranged_facts(all);
    let a = clone_groups(fs)[i];
    let b = clone_groups(fs)[j];
    assert(!before(b.rank(), a.rank()));
    let x = falling_rank(b.sites.len() as int);
    let y = falling_rank(a.sites.len() as int);
    number_rank_orders(b.sites.len() as int, a.sites.len() as int);
    number_rank_orders(b.lines as int, a.lines as int);
    let p = falling_rank(b.lines as int);
    let q = falling_rank(a.lines as int);
    assert(b.rank() == x + p && a.rank() == y + q);
    pairs_before(x, p, y, q);
}

/// Groups of copied files come with more files first.
pub proof fn larger_copy_groups_come_first(fs: Seq<FileFacts>, i: int, j: int)
    requires
        0 <= i < j < dup_groups(fs).len(),
        dup_groups(fs)[i].files.len() <= usize::MAX,
        dup_groups(fs)[j].files.len() <= usize::MAX,
    ensures
        dup_groups(fs)[i].files.len() >= dup_groups(fs)[j].files.len(),
{
    let all = gather(crate::lean::hashes(fs).len() as int, hash_groups(fs));
    arranged_facts(all);
    let a = dup_groups(fs)[i];
    let b = dup_groups(fs)[j];
    assert(!before(b.rank(), a.rank()));
    number_rank_orders(b.files.len() as int, a.files.len() as int);
}

} // verus!
