//! The hook that judges every commit before it is made: how it is installed into a repository, beside
//! a hook that is already there, and how it is taken out again.
use vstd::prelude::*;

use crate::text::{
    at, back_from, cat2, cat3, chars, contains, ends, ends_with, find, find_from_facts, in_class,
    occurs, position, same, slice, trim_end, trimmed_end, Class,
};

verus! {

/// The line by which the block is known.
pub const HOOK_MARK: &'static str = "# bonsai-managed pre-commit hook";

/// The first line of a hook.
pub open spec fn shebang() -> Seq<char> {
    "#!/bin/sh"@
}

/// What stands below the mark: the judgement, skipped where the program is not installed.
pub open spec fn gate_lines() -> Seq<char> {
    "\n# Blocks a commit that regresses structure, leanness, or a level contract.\n# --staged scopes file-level findings to the addition; repo-wide gates still apply.\nif command -v bonsai >/dev/null 2>&1; then\n    bonsai check --staged --root \"$(git rev-parse --show-toplevel)\" || exit 1\nfi\n"@
}

/// The block that judges a commit.
pub open spec fn block() -> Seq<char> {
    "\n"@ + HOOK_MARK@ + gate_lines()
}

/// Whether a hook holds the block.
pub open spec fn managed(text: Seq<char>) -> bool {
    occurs(text, HOOK_MARK@)
}

/// The hook with the block below it.
pub open spec fn with_block(text: Seq<char>) -> Seq<char> {
    text + (if ends(text, "\n"@) {
        ""@
    } else {
        "\n"@
    }) + block()
}

/// What is to be done to install the hook.
#[derive(Debug, Clone, PartialEq, Eq)]
pub enum Install {
    /// Nothing, it is there.
    Present,
    /// The hook that is there gets this text, which is its own with the block below it.
    Append(String),
    /// A hook is made of this text.
    Create(String),
}

/// Whether a hook is installed.
#[derive(Debug, Clone, Copy, PartialEq, Eq, Structural)]
pub enum HookStatus {
    Installed,
    /// There is a hook, without the block.
    Foreign,
    Absent,
}

/// What is to be done to take the hook out.
#[derive(Debug, Clone, PartialEq, Eq)]
pub enum Removal {
    /// Nothing, it is not there.
    Nothing,
    /// The hook holds nothing else, and goes.
    Remove,
    /// The hook gets this text, which is its own without the block.
    Rewrite(String),
}

fn block_text() -> (r: String)
    ensures
        r@ == block(),
{
    cat3(
        "\n",
        HOOK_MARK,
        "\n# Blocks a commit that regresses structure, leanness, or a level contract.\n# --staged scopes file-level findings to the addition; repo-wide gates still apply.\nif command -v bonsai >/dev/null 2>&1; then\n    bonsai check --staged --root \"$(git rev-parse --show-toplevel)\" || exit 1\nfi\n",
    )
}

/// What is to be done to install the hook, where `existing` is the hook that is there. A hook that
/// is not ours is kept, and the block goes below it.
pub fn install(existing: Option<&String>) -> (r: Install)
    ensures
        match existing {
            Some(t) => if managed(t@) {
                r is Present
            } else {
                r is Append && r->Append_0@ == with_block(t@)
            },
            None => r is Create && r->Create_0@ == shebang() + block(),
        },
{
    match existing {
        Some(t) => {
            if contains(t.as_str(), HOOK_MARK) {
                Install::Present
            } else {
                let gap = if ends_with(t.as_str(), "\n") {
                    ""
                } else {
                    "\n"
                };
                Install::Append(cat3(t.as_str(), gap, block_text().as_str()))
            }
        },
        None => Install::Create(cat2("#!/bin/sh", block_text().as_str())),
    }
}

/// Whether the hook is installed.
pub fn status(existing: Option<&String>) -> (r: HookStatus)
    ensures
        r == match existing {
            Some(t) => if managed(t@) {
                HookStatus::Installed
            } else {
                HookStatus::Foreign
            },
            None => HookStatus::Absent,
        },
{
    match existing {
        Some(t) => {
            if contains(t.as_str(), HOOK_MARK) {
                HookStatus::Installed
            } else {
                HookStatus::Foreign
            }
        },
        None => HookStatus::Absent,
    }
}

/// What stands above the block, without the white space at its end.
pub open spec fn above_block(text: Seq<char>) -> Seq<char> {
    match find(text, HOOK_MARK@) {
        Some(i) => trimmed_end(text.take(i)),
        None => text,
    }
}

/// Whether what stands above the block is no hook of its own.
pub open spec fn nothing_else(head: Seq<char>) -> bool {
    head.len() == 0 || head == shebang()
}

/// What is to be done to take the hook out, where `existing` is the hook that is there.
pub fn uninstall(existing: Option<&String>) -> (r: Removal)
    ensures
        match existing {
            Some(t) => if !managed(t@) {
                r is Nothing
            } else if nothing_else(above_block(t@)) {
                r is Remove
            } else {
                r is Rewrite && r->Rewrite_0@ == above_block(t@) + "\n"@
            },
            None => r is Nothing,
        },
{
    match existing {
        Some(t) => {
            proof {
                mark_found(t@);
            }
            match position(t.as_str(), HOOK_MARK) {
                Some(i) => {
                    let v = chars(t.as_str());
                    let head = trim_end(slice(&v, 0, i).as_str());
                    assert(t@.subrange(0, i as int) =~= t@.take(i as int));
                    if chars(head.as_str()).len() == 0 || same(head.as_str(), "#!/bin/sh") {
                        Removal::Remove
                    } else {
                        Removal::Rewrite(cat2(head.as_str(), "\n"))
                    }
                },
                None => Removal::Nothing,
            }
        },
        None => Removal::Nothing,
    }
}

proof fn mark_found(text: Seq<char>)
    ensures
        managed(text) <==> find(text, HOOK_MARK@) is Some,
{
    find_from_facts(text, HOOK_MARK@, 0);
}

/// The mark is one line.
proof fn mark_is_one_line()
    ensures
        HOOK_MARK@.len() > 0,
        forall|k: int| 0 <= k < HOOK_MARK@.len() ==> #[trigger] HOOK_MARK@[k] != '\n',
{
    reveal_strlit("# bonsai-managed pre-commit hook");
}

/// Below a text that ends a line and does not hold the mark, the block is found where it begins.
proof fn block_is_found(text: Seq<char>, rest: Seq<char>)
    requires
        !managed(text),
    ensures
        find(text + "\n"@ + HOOK_MARK@ + rest, HOOK_MARK@) == Some((text.len() + 1) as int),
{
    let mark = HOOK_MARK@;
    let whole = text + "\n"@ + mark + rest;
    reveal_strlit("\n");
    mark_is_one_line();
    let place = (text.len() + 1) as int;
    assert(whole[text.len() as int] == '\n');
    assert(at(whole, mark, place)) by {
        assert(whole.subrange(place, place + mark.len()) =~= mark);
    }
    assert forall|j: int| 0 <= j < place implies !#[trigger] at(whole, mark, j) by {
        if at(whole, mark, j) {
            if j + mark.len() <= text.len() {
                assert(text.subrange(j, j + mark.len()) =~= whole.subrange(j, j + mark.len()));
                assert(at(text, mark, j));
            } else {
                let k = text.len() - j;
                assert(whole.subrange(j, j + mark.len())[k] == whole[j + k]);
                assert(mark[k] != '\n');
            }
        }
    }
    find_from_facts(whole, mark, 0);
}

proof fn back_agrees(a: Seq<char>, b: Seq<char>, k: Class, j: int)
    requires
        0 <= j <= a.len(),
        j <= b.len(),
        forall|i: int| 0 <= i < j ==> a[i] == b[i],
    ensures
        back_from(a, k, j) == back_from(b, k, j),
    decreases j,
{
    if j > 0 {
        back_agrees(a, b, k, j - 1);
    }
}

/// The end of a line is white space.
proof fn line_end_is_trimmed(text: Seq<char>)
    ensures
        trimmed_end(text + "\n"@) == trimmed_end(text),
{
    reveal_strlit("\n");
    let t = text + "\n"@;
    assert(t.last() == '\n');
    assert(in_class(Class::White, '\n'));
    back_agrees(t, text, Class::White, text.len() as int);
    crate::text::back_from_bounds(text, Class::White, text.len() as int);
    assert(trimmed_end(t) =~= trimmed_end(text));
}

/// A hook that was given the block holds it, so that it is not given the block again.
pub proof fn installed_is_managed(text: Seq<char>)
    ensures
        managed(with_block(text)),
        managed(shebang() + block()),
{
    let mark = HOOK_MARK@;
    let whole = with_block(text);
    let gap = if ends(text, "\n"@) {
        ""@
    } else {
        "\n"@
    };
    let i = (text + gap + "\n"@).len() as int;
    assert(whole =~= text + gap + "\n"@ + mark + gate_lines());
    assert(whole.subrange(i, i + mark.len()) =~= mark);
    assert(at(whole, mark, i));
    let fresh = shebang() + block();
    let j = (shebang() + "\n"@).len() as int;
    assert(fresh =~= shebang() + "\n"@ + mark + gate_lines());
    assert(fresh.subrange(j, j + mark.len()) =~= mark);
    assert(at(fresh, mark, j));
}

/// Taking the hook out undoes its installation: what stood there before is left, but for white
/// space at its end.
pub proof fn removal_undoes_install(text: Seq<char>)
    requires
        !managed(text),
    ensures
        above_block(with_block(text)) == trimmed_end(text),
{
    reveal_strlit("\n");
    reveal_strlit("");
    if ends(text, "\n"@) {
        assert(with_block(text) =~= text + "\n"@ + HOOK_MARK@ + gate_lines());
        block_is_found(text, gate_lines());
        assert(with_block(text).take((text.len() + 1) as int) =~= text + "\n"@);
        line_end_is_trimmed(text);
    } else {
        let ended = text + "\n"@;
        assert(with_block(text) =~= ended + "\n"@ + HOOK_MARK@ + gate_lines());
        ended_is_foreign(text);
        block_is_found(ended, gate_lines());
        assert(with_block(text).take((ended.len() + 1) as int) =~= ended + "\n"@);
        line_end_is_trimmed(ended);
        line_end_is_trimmed(text);
    }
}

/// A line end does not complete the mark.
proof fn ended_is_foreign(text: Seq<char>)
    requires
        !managed(text),
    ensures
        !managed(text + "\n"@),
{
    reveal_strlit("\n");
    mark_is_one_line();
    let mark = HOOK_MARK@;
    let t = text + "\n"@;
    assert forall|j: int| !#[trigger] at(t, mark, j) by {
        if at(t, mark, j) {
            if j + mark.len() <= text.len() {
                assert(text.subrange(j, j + mark.len()) =~= t.subrange(j, j + mark.len()));
                assert(at(text, mark, j));
            } else {
                let k = text.len() - j;
                assert(t.subrange(j, j + mark.len())[k] == t[j + k]);
                assert(mark[k] != '\n');
            }
        }
    }
}

/// A hook that was made for the block goes with it.
pub proof fn fresh_hook_is_removed()
    ensures
        nothing_else(above_block(shebang() + block())),
{
    reveal_strlit("\n");
    reveal_strlit("#!/bin/sh");
    let s = shebang();
    let mark = HOOK_MARK@;
    assert(s.len() == 9);
    reveal_strlit("# bonsai-managed pre-commit hook");
    assert forall|j: int| !#[trigger] at(s, mark, j) by {
        if at(s, mark, j) {
            assert(mark.len() > 9);
        }
    }
    assert(!managed(s));
    assert(s + block() =~= s + "\n"@ + mark + gate_lines());
    block_is_found(s, gate_lines());
    assert((s + block()).take((s.len() + 1) as int) =~= s + "\n"@);
    line_end_is_trimmed(s);
    assert(!in_class(Class::White, s.last()));
    assert(trimmed_end(s) =~= s);
}

} // verus!
