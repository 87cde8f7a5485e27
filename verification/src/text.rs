//! Strings as sequences of characters: searching, cutting, joining and printing numbers.
//!
//! A `String` is reasoned about through its view, a `Seq<char>`. Every function here has a
//! specification function beside it that says on sequences what the function returns.
use vstd::prelude::*;

verus! {

/// `String::push` appends one character to the end of a string.
pub assume_specification[ String::push ](s: &mut String, c: char)
    ensures
        final(s)@ == old(s)@.push(c),
;

/// Whether Unicode counts a character as alphabetic or numeric.
pub uninterp spec fn alphanumeric(c: char) -> bool;

/// `char::is_alphanumeric` is a property of the character alone; on ASCII it holds of the
/// letters and the digits.
pub assume_specification[ char::is_alphanumeric ](c: char) -> (r: bool)
    ensures
        r == alphanumeric(c),
        (c as u32) < 128 ==> r == ascii_alphanumeric(c),
;

/// ASCII letters and digits.
pub open spec fn ascii_alphanumeric(c: char) -> bool {
    ('a' <= c <= 'z') || ('A' <= c <= 'Z') || ('0' <= c <= '9')
}

/// The characters with Unicode's White_Space property.
pub open spec fn white(c: char) -> bool {
    let n = c as u32;
    (9 <= n <= 13) || n == 0x20 || n == 0x85 || n == 0xa0 || n == 0x1680 || (0x2000 <= n <= 0x200a)
        || n == 0x2028 || n == 0x2029 || n == 0x202f || n == 0x205f || n == 0x3000
}

/// A class of characters, by which text is cut.
#[derive(Clone, Copy, Debug, PartialEq, Eq, Structural)]
pub enum Class {
    /// Whitespace.
    White,
    /// Anything but whitespace.
    Solid,
    /// Letters, digits and the underscore.
    Ident,
    /// ASCII letters, ASCII digits and the underscore.
    AsciiIdent,
    /// ASCII letters and ASCII digits.
    AsciiAlnum,
    /// Letters, digits, the underscore and the colon.
    Path,
    /// Exactly this character.
    Is(char),
    /// Anything but this character.
    Not(char),
}

/// Whether `c` belongs to the class `k`.
pub open spec fn in_class(k: Class, c: char) -> bool {
    match k {
        Class::White => white(c),
        Class::Solid => !white(c),
        Class::Ident => alphanumeric(c) || c == '_',
        Class::AsciiIdent => ascii_alphanumeric(c) || c == '_',
        Class::AsciiAlnum => ascii_alphanumeric(c),
        Class::Path => alphanumeric(c) || c == '_' || c == ':',
        Class::Is(x) => c == x,
        Class::Not(x) => c != x,
    }
}

/// Whether a character is an ASCII letter or digit.
pub fn is_ascii_alphanumeric(c: char) -> (r: bool)
    ensures
        r == ascii_alphanumeric(c),
{
    ('a' <= c && c <= 'z') || ('A' <= c && c <= 'Z') || ('0' <= c && c <= '9')
}

/// Whether a character is whitespace.
pub fn is_white(c: char) -> (r: bool)
    ensures
        r == white(c),
{
    let n: u32 = c as u32;
    (9 <= n && n <= 13) || n == 0x20 || n == 0x85 || n == 0xa0 || n == 0x1680 || (0x2000 <= n && n
        <= 0x200a) || n == 0x2028 || n == 0x2029 || n == 0x202f || n == 0x205f || n == 0x3000
}

/// Whether a character belongs to a class.
pub fn belongs(k: Class, c: char) -> (r: bool)
    ensures
        r == in_class(k, c),
{
    match k {
        Class::White => is_white(c),
        Class::Solid => !is_white(c),
        Class::Ident => c.is_alphanumeric() || c == '_',
        Class::AsciiIdent => is_ascii_alphanumeric(c) || c == '_',
        Class::AsciiAlnum => is_ascii_alphanumeric(c),
        Class::Path => c.is_alphanumeric() || c == '_' || c == ':',
        Class::Is(x) => c == x,
        Class::Not(x) => c != x,
    }
}

// ── lists ──────────────────────────────────────────────────────────────────────────────

/// The views of a list of strings.
pub open spec fn texts(v: Seq<String>) -> Seq<Seq<char>> {
    v.map_values(|s: String| s@)
}

/// The view of an optional string.
pub open spec fn text_opt(o: Option<String>) -> Option<Seq<char>> {
    match o {
        Some(s) => Some(s@),
        None => None,
    }
}

/// An optional position as an integer.
pub open spec fn place(o: Option<usize>) -> Option<int> {
    match o {
        Some(i) => Some(i as int),
        None => None,
    }
}

/// The concatenation of `f(0)`, `f(1)`, ..., `f(n - 1)`.
pub open spec fn gather<T>(n: int, f: spec_fn(int) -> Seq<T>) -> Seq<T>
    decreases n,
{
    if n <= 0 {
        Seq::empty()
    } else {
        gather(n - 1, f) + f(n - 1)
    }
}

/// Pushing a string pushes its view.
pub broadcast proof fn texts_push(v: Seq<String>, s: String)
    ensures
        #[trigger] texts(v.push(s)) == texts(v).push(s@),
{
    assert(texts(v.push(s)) =~= texts(v).push(s@));
}

/// Two concatenations agree where their parts agree.
pub proof fn gather_same<T>(n: int, f: spec_fn(int) -> Seq<T>, g: spec_fn(int) -> Seq<T>)
    requires
        forall|i: int| 0 <= i < n ==> #[trigger] f(i) == g(i),
    ensures
        gather(n, f) == gather(n, g),
    decreases n,
{
    if n > 0 {
        gather_same(n - 1, f, g);
    }
}

/// An element of a concatenation comes from one of its parts, and every element of a part is
/// an element of the concatenation.
pub proof fn gather_contains<T>(n: int, f: spec_fn(int) -> Seq<T>, x: T)
    ensures
        gather(n, f).contains(x) <==> exists|i: int| 0 <= i < n && (#[trigger] f(i)).contains(x),
    decreases n,
{
    if n > 0 {
        gather_contains(n - 1, f, x);
        let a = gather(n - 1, f);
        let b = f(n - 1);
        if a.contains(x) {
            let k = choose|k: int| 0 <= k < a.len() && a[k] == x;
            assert((a + b)[k] == x);
        }
        if b.contains(x) {
            let k = choose|k: int| 0 <= k < b.len() && b[k] == x;
            assert((a + b)[a.len() + k] == x);
        }
        if (a + b).contains(x) {
            let k = choose|k: int| 0 <= k < (a + b).len() && (a + b)[k] == x;
            if k < a.len() {
                assert(a[k] == x);
            } else {
                assert(b[k - a.len()] == x);
            }
        }
    }
}

/// Where a concatenation is empty, all its parts are.
pub proof fn gather_empty<T>(n: int, f: spec_fn(int) -> Seq<T>)
    requires
        gather(n, f).len() == 0,
    ensures
        forall|i: int| 0 <= i < n ==> (#[trigger] f(i)).len() == 0,
    decreases n,
{
    if n > 0 {
        gather_empty(n - 1, f);
    }
}

/// What two sequences hold together.
pub proof fn concat_contains<T>(a: Seq<T>, b: Seq<T>, x: T)
    ensures
        (a + b).contains(x) <==> a.contains(x) || b.contains(x),
{
    if a.contains(x) {
        let i = choose|i: int| 0 <= i < a.len() && a[i] == x;
        assert((a + b)[i] == x);
    }
    if b.contains(x) {
        let i = choose|i: int| 0 <= i < b.len() && b[i] == x;
        assert((a + b)[a.len() + i] == x);
    }
    if (a + b).contains(x) {
        let i = choose|i: int| 0 <= i < (a + b).len() && (a + b)[i] == x;
        if i < a.len() {
            assert(a[i] == x);
        } else {
            assert(b[i - a.len()] == x);
        }
    }
}

// ── characters and strings ─────────────────────────────────────────────────────────────

/// The characters of a string.
pub fn chars(s: &str) -> (r: Vec<char>)
    ensures
        r@ == s@,
{
    let mut r: Vec<char> = Vec::new();
    for c in it: s.chars()
        invariant
            it.seq() == s@,
            r@ == s@.take(it.index()),
    {
        r.push(c);
    }
    assert(s@.take(s@.len() as int) =~= s@);
    r
}

/// The string of the characters `v[from..to]`.
pub fn slice(v: &Vec<char>, from: usize, to: usize) -> (r: String)
    requires
        from <= to <= v.len(),
    ensures
        r@ == v@.subrange(from as int, to as int),
{
    let mut r = String::new();
    let mut i: usize = from;
    while i < to
        invariant
            from <= i <= to <= v.len(),
            r@ == v@.subrange(from as int, i as int),
        decreases to - i,
    {
        r.push(v[i]);
        assert(v@.subrange(from as int, i as int).push(v@[i as int]) =~= v@.subrange(
            from as int,
            i + 1,
        ));
        i += 1;
    }
    r
}

/// Whether two strings have the same characters.
pub fn same(a: &str, b: &str) -> (r: bool)
    ensures
        r == (a@ == b@),
{
    let x = chars(a);
    let y = chars(b);
    if x.len() != y.len() {
        return false;
    }
    let mut i: usize = 0;
    while i < x.len()
        invariant
            i <= x.len() == y.len(),
            forall|j: int| 0 <= j < i ==> x@[j] == y@[j],
            x@ == a@,
            y@ == b@,
        decreases x.len() - i,
    {
        if x[i] != y[i] {
            return false;
        }
        i += 1;
    }
    assert(x@ =~= y@);
    true
}

/// A copy of an optional string.
pub fn copy_opt(o: &Option<String>) -> (r: Option<String>)
    ensures
        r == *o,
{
    match o {
        Some(s) => Some(s.clone()),
        None => None,
    }
}

/// A copy of a list of strings.
pub fn copy_all(v: &Vec<String>) -> (r: Vec<String>)
    ensures
        r@ == v@,
{
    let mut r: Vec<String> = Vec::new();
    let mut i: usize = 0;
    while i < v.len()
        invariant
            i <= v.len(),
            r@ == v@.take(i as int),
        decreases v.len() - i,
    {
        r.push(v[i].clone());
        assert(v@.take(i + 1) =~= v@.take(i as int).push(v@[i as int]));
        i += 1;
    }
    assert(v@.take(v@.len() as int) =~= v@);
    r
}

/// Whether a list of strings holds `s`.
pub fn holds(v: &Vec<String>, s: &str) -> (r: bool)
    ensures
        r == texts(v@).contains(s@),
{
    let mut i: usize = 0;
    while i < v.len()
        invariant
            i <= v.len(),
            forall|j: int| 0 <= j < i ==> texts(v@)[j] != s@,
        decreases v.len() - i,
    {
        if same(v[i].as_str(), s) {
            assert(texts(v@)[i as int] == s@);
            return true;
        }
        i += 1;
    }
    false
}

/// Whether two lists hold the same strings in the same order.
pub fn same_list(a: &Vec<String>, b: &Vec<String>) -> (r: bool)
    ensures
        r == (texts(a@) == texts(b@)),
{
    if a.len() != b.len() {
        assert(texts(a@).len() != texts(b@).len());
        return false;
    }
    let mut i: usize = 0;
    while i < a.len()
        invariant
            i <= a.len() == b.len(),
            forall|j: int| 0 <= j < i ==> texts(a@)[j] == texts(b@)[j],
        decreases a.len() - i,
    {
        if !same(a[i].as_str(), b[i].as_str()) {
            assert(texts(a@)[i as int] != texts(b@)[i as int]);
            return false;
        }
        i += 1;
    }
    assert(texts(a@) =~= texts(b@));
    true
}

/// Whether two optional strings are the same.
pub fn same_opt(a: &Option<String>, b: &Option<String>) -> (r: bool)
    ensures
        r == (text_opt(*a) == text_opt(*b)),
{
    match (a, b) {
        (Some(x), Some(y)) => same(x.as_str(), y.as_str()),
        (None, None) => true,
        _ => false,
    }
}

/// Puts a string at the end of a list.
pub fn put(v: &mut Vec<String>, s: String)
    ensures
        final(v)@ == old(v)@.push(s),
        texts(final(v)@) == texts(old(v)@).push(s@),
{
    proof {
        texts_push(v@, s);
    }
    v.push(s);
}

/// Puts copies of the strings `more` at the end of a list.
pub fn put_all(v: &mut Vec<String>, more: &Vec<String>)
    ensures
        final(v)@ == old(v)@ + more@,
        texts(final(v)@) == texts(old(v)@) + texts(more@),
{
    let ghost base = v@;
    let mut i: usize = 0;
    while i < more.len()
        invariant
            i <= more.len(),
            v@ =~= base + more@.take(i as int),
        decreases more.len() - i,
    {
        v.push(more[i].clone());
        i += 1;
    }
    assert(more@.take(more@.len() as int) =~= more@);
    assert(texts(base + more@) =~= texts(base) + texts(more@));
}

/// Two strings, one after the other.
pub fn cat2(a: &str, b: &str) -> (r: String)
    ensures
        r@ == a@ + b@,
{
    let mut r = a.to_owned();
    r.append(b);
    r
}

/// Three strings, one after the other.
pub fn cat3(a: &str, b: &str, c: &str) -> (r: String)
    ensures
        r@ == a@ + b@ + c@,
{
    let mut r = a.to_owned();
    r.append(b);
    r.append(c);
    r
}

/// Four strings, one after the other.
pub fn cat4(a: &str, b: &str, c: &str, d: &str) -> (r: String)
    ensures
        r@ == a@ + b@ + c@ + d@,
{
    let mut r = cat3(a, b, c);
    r.append(d);
    r
}

/// Five strings, one after the other.
pub fn cat5(a: &str, b: &str, c: &str, d: &str, e: &str) -> (r: String)
    ensures
        r@ == a@ + b@ + c@ + d@ + e@,
{
    let mut r = cat4(a, b, c, d);
    r.append(e);
    r
}

/// Six strings, one after the other.
pub fn cat6(a: &str, b: &str, c: &str, d: &str, e: &str, f: &str) -> (r: String)
    ensures
        r@ == a@ + b@ + c@ + d@ + e@ + f@,
{
    let mut r = cat5(a, b, c, d, e);
    r.append(f);
    r
}

/// Seven strings, one after the other.
pub fn cat7(a: &str, b: &str, c: &str, d: &str, e: &str, f: &str, g: &str) -> (r: String)
    ensures
        r@ == a@ + b@ + c@ + d@ + e@ + f@ + g@,
{
    let mut r = cat6(a, b, c, d, e, f);
    r.append(g);
    r
}

// ── searching ──────────────────────────────────────────────────────────────────────────

/// Whether `p` stands in `s` at position `i`.
pub open spec fn at(s: Seq<char>, p: Seq<char>, i: int) -> bool {
    0 <= i && i + p.len() <= s.len() && s.subrange(i, i + p.len()) == p
}

/// Whether `s` begins with `p`.
pub open spec fn starts(s: Seq<char>, p: Seq<char>) -> bool {
    at(s, p, 0)
}

/// Whether `s` ends with `p`.
pub open spec fn ends(s: Seq<char>, p: Seq<char>) -> bool {
    at(s, p, s.len() - p.len())
}

/// Whether `p` stands anywhere in `s`.
pub open spec fn occurs(s: Seq<char>, p: Seq<char>) -> bool {
    exists|i: int| at(s, p, i)
}

/// The first position from `i` on at which `p` stands in `s`.
pub open spec fn find_from(s: Seq<char>, p: Seq<char>, i: int) -> Option<int>
    decreases s.len() + 1 - i,
{
    if i + p.len() > s.len() {
        None
    } else if at(s, p, i) {
        Some(i)
    } else {
        find_from(s, p, i + 1)
    }
}

/// The first position at which `p` stands in `s`.
pub open spec fn find(s: Seq<char>, p: Seq<char>) -> Option<int> {
    find_from(s, p, 0)
}

/// The last position up to `i` at which `p` stands in `s`.
pub open spec fn rfind_from(s: Seq<char>, p: Seq<char>, i: int) -> Option<int>
    decreases i + 1,
{
    if i < 0 {
        None
    } else if at(s, p, i) {
        Some(i)
    } else {
        rfind_from(s, p, i - 1)
    }
}

/// The last position at which `p` stands in `s`.
pub open spec fn rfind(s: Seq<char>, p: Seq<char>) -> Option<int> {
    rfind_from(s, p, s.len() - p.len())
}

/// What comes before the first `p` in `s`, and what comes after it.
pub open spec fn cut(s: Seq<char>, p: Seq<char>) -> Option<(Seq<char>, Seq<char>)> {
    match find(s, p) {
        Some(i) => Some((s.take(i), s.skip(i + p.len()))),
        None => None,
    }
}

/// What comes before the last `p` in `s`, and what comes after it.
pub open spec fn rcut(s: Seq<char>, p: Seq<char>) -> Option<(Seq<char>, Seq<char>)> {
    match rfind(s, p) {
        Some(i) => Some((s.take(i), s.skip(i + p.len()))),
        None => None,
    }
}

/// How many times `p` stands in `s` from `i` on, counted without overlap.
pub open spec fn count_from(s: Seq<char>, p: Seq<char>, i: int) -> nat
    decreases s.len() - i,
{
    match find_from(s, p, i) {
        Some(k) => if i <= k && p.len() > 0 && k + p.len() <= s.len() {
            1 + count_from(s, p, k + p.len())
        } else {
            0
        },
        None => 0,
    }
}

/// What the search from `i` on finds.
pub proof fn find_from_facts(s: Seq<char>, p: Seq<char>, i: int)
    requires
        0 <= i,
    ensures
        match find_from(s, p, i) {
            Some(k) => i <= k && at(s, p, k) && forall|j: int| i <= j < k ==> !at(s, p, j),
            None => forall|j: int| i <= j ==> !at(s, p, j),
        },
    decreases s.len() + 1 - i,
{
    if i + p.len() <= s.len() && !at(s, p, i) {
        find_from_facts(s, p, i + 1);
    }
}

/// What the search down from `i` finds.
pub proof fn rfind_from_facts(s: Seq<char>, p: Seq<char>, i: int)
    ensures
        match rfind_from(s, p, i) {
            Some(k) => 0 <= k <= i && at(s, p, k) && forall|j: int| k < j <= i ==> !at(s, p, j),
            None => forall|j: int| 0 <= j <= i ==> !at(s, p, j),
        },
    decreases i + 1,
{
    if i >= 0 && !at(s, p, i) {
        rfind_from_facts(s, p, i - 1);
    }
}

/// Whether `p` stands in `s` at position `i`.
pub fn stands_at(s: &Vec<char>, p: &Vec<char>, i: usize) -> (r: bool)
    ensures
        r == at(s@, p@, i as int),
{
    if i > s.len() || p.len() > s.len() - i {
        return false;
    }
    let mut j: usize = 0;
    while j < p.len()
        invariant
            j <= p.len(),
            i + p.len() <= s.len(),
            forall|k: int| 0 <= k < j ==> s@[i + k] == p@[k],
        decreases p.len() - j,
    {
        if s[i + j] != p[j] {
            assert(s@.subrange(i as int, i + p@.len())[j as int] != p@[j as int]);
            return false;
        }
        j += 1;
    }
    assert(s@.subrange(i as int, i + p@.len()) =~= p@);
    true
}

/// The first position from `from` on at which `p` stands in `s`.
pub fn seek(s: &Vec<char>, p: &Vec<char>, from: usize) -> (r: Option<usize>)
    requires
        from <= s.len(),
    ensures
        place(r) == find_from(s@, p@, from as int),
        r is Some ==> from <= r->0 && r->0 + p.len() <= s.len(),
{
    let mut i: usize = from;
    while i <= s.len() && p.len() <= s.len() - i
        invariant
            from <= i <= s.len() + 1,
            find_from(s@, p@, from as int) == find_from(s@, p@, i as int),
        decreases s.len() + 1 - i,
    {
        if stands_at(s, p, i) {
            return Some(i);
        }
        if i == s.len() {
            proof {
                find_from_facts(s@, p@, i + 1);
            }
            return None;
        }
        i += 1;
    }
    None
}

/// Whether a string begins with another.
pub fn starts_with(s: &str, p: &str) -> (r: bool)
    ensures
        r == starts(s@, p@),
{
    stands_at(&chars(s), &chars(p), 0)
}

/// Whether a string ends with another.
pub fn ends_with(s: &str, p: &str) -> (r: bool)
    ensures
        r == ends(s@, p@),
{
    let a = chars(s);
    let b = chars(p);
    if a.len() < b.len() {
        return false;
    }
    stands_at(&a, &b, a.len() - b.len())
}

/// The first position at which `p` stands in `s`.
pub fn position(s: &str, p: &str) -> (r: Option<usize>)
    ensures
        place(r) == find(s@, p@),
        r is Some ==> r->0 + p@.len() <= s@.len(),
{
    seek(&chars(s), &chars(p), 0)
}

/// Whether `p` stands anywhere in `s`.
pub fn contains(s: &str, p: &str) -> (r: bool)
    ensures
        r == occurs(s@, p@),
{
    proof {
        find_from_facts(s@, p@, 0);
    }
    match position(s, p) {
        Some(_) => true,
        None => false,
    }
}

/// What comes before and after the first `p` in `s`.
pub fn split_once(s: &str, p: &str) -> (r: Option<(String, String)>)
    ensures
        match r {
            Some(t) => cut(s@, p@) == Some((t.0@, t.1@)),
            None => cut(s@, p@) is None,
        },
{
    let a = chars(s);
    let b = chars(p);
    match seek(&a, &b, 0) {
        Some(i) => {
            assert(a@.subrange(0, i as int) =~= s@.take(i as int));
            assert(a@.subrange(i + b@.len(), a@.len() as int) =~= s@.skip(i + b@.len()));
            Some((slice(&a, 0, i), slice(&a, i + b.len(), a.len())))
        },
        None => None,
    }
}

/// What comes before and after the last `p` in `s`.
pub fn rsplit_once(s: &str, p: &str) -> (r: Option<(String, String)>)
    ensures
        match r {
            Some(t) => rcut(s@, p@) == Some((t.0@, t.1@)),
            None => rcut(s@, p@) is None,
        },
{
    let a = chars(s);
    let b = chars(p);
    if a.len() < b.len() {
        return None;
    }
    let mut i: usize = a.len() - b.len();
    loop
        invariant
            a@ == s@,
            b@ == p@,
            i + b.len() <= a.len(),
            rfind(s@, p@) == rfind_from(s@, p@, i as int),
        decreases i,
    {
        if stands_at(&a, &b, i) {
            assert(a@.subrange(0, i as int) =~= s@.take(i as int));
            assert(a@.subrange(i + b@.len(), a@.len() as int) =~= s@.skip(i + b@.len()));
            return Some((slice(&a, 0, i), slice(&a, i + b.len(), a.len())));
        }
        if i == 0 {
            assert(rfind_from(s@, p@, -1) is None);
            return None;
        }
        i -= 1;
    }
}

/// The rest of `s` behind the prefix `p`, where it has that prefix.
pub open spec fn behind(s: Seq<char>, p: Seq<char>) -> Option<Seq<char>> {
    if starts(s, p) {
        Some(s.skip(p.len() as int))
    } else {
        None
    }
}

/// The rest of `s` before the suffix `p`, where it has that suffix.
pub open spec fn ahead(s: Seq<char>, p: Seq<char>) -> Option<Seq<char>> {
    if ends(s, p) {
        Some(s.take(s.len() - p.len()))
    } else {
        None
    }
}

/// Takes a prefix off.
pub fn strip_prefix(s: &str, p: &str) -> (r: Option<String>)
    ensures
        text_opt(r) == behind(s@, p@),
{
    let a = chars(s);
    let b = chars(p);
    if stands_at(&a, &b, 0) {
        assert(a@.subrange(b@.len() as int, a@.len() as int) =~= s@.skip(p@.len() as int));
        Some(slice(&a, b.len(), a.len()))
    } else {
        None
    }
}

/// Takes a suffix off.
pub fn strip_suffix(s: &str, p: &str) -> (r: Option<String>)
    ensures
        text_opt(r) == ahead(s@, p@),
{
    let a = chars(s);
    let b = chars(p);
    if a.len() >= b.len() && stands_at(&a, &b, a.len() - b.len()) {
        assert(a@.subrange(0, a@.len() - b@.len()) =~= s@.take(s@.len() - p@.len()));
        Some(slice(&a, 0, a.len() - b.len()))
    } else {
        None
    }
}

/// How many times `p` stands in `s`, counted without overlap.
pub fn count(s: &str, p: &str) -> (r: usize)
    requires
        p@.len() > 0,
    ensures
        r == count_from(s@, p@, 0),
        r <= s@.len(),
{
    let a = chars(s);
    let b = chars(p);
    let mut n: usize = 0;
    let mut i: usize = 0;
    loop
        invariant
            a@ == s@,
            b@ == p@,
            b@.len() > 0,
            n <= i <= a.len(),
            count_from(s@, p@, 0) == n + count_from(s@, p@, i as int),
        decreases a.len() - i,
    {
        match seek(&a, &b, i) {
            Some(k) => {
                n += 1;
                i = k + b.len();
            },
            None => {
                return n;
            },
        }
    }
}

// ── cutting by classes ─────────────────────────────────────────────────────────────────

/// The end of the run of characters of class `k` that begins at `i`.
pub open spec fn span_from(s: Seq<char>, k: Class, i: int) -> int
    decreases s.len() - i,
{
    if 0 <= i < s.len() && in_class(k, s[i]) {
        span_from(s, k, i + 1)
    } else {
        i
    }
}

/// The start of the run of characters of class `k` that ends before `j`.
pub open spec fn back_from(s: Seq<char>, k: Class, j: int) -> int
    decreases j,
{
    if 0 < j <= s.len() && in_class(k, s[j - 1]) {
        back_from(s, k, j - 1)
    } else {
        j
    }
}

/// `s` without its leading characters of class `k`.
pub open spec fn drop_lead(s: Seq<char>, k: Class) -> Seq<char> {
    s.skip(span_from(s, k, 0))
}

/// `s` without its trailing characters of class `k`.
pub open spec fn drop_tail(s: Seq<char>, k: Class) -> Seq<char> {
    s.take(back_from(s, k, s.len() as int))
}

/// The leading characters of class `k`.
pub open spec fn lead(s: Seq<char>, k: Class) -> Seq<char> {
    s.take(span_from(s, k, 0))
}

/// `s` without leading whitespace.
pub open spec fn trimmed_start(s: Seq<char>) -> Seq<char> {
    drop_lead(s, Class::White)
}

/// `s` without trailing whitespace.
pub open spec fn trimmed_end(s: Seq<char>) -> Seq<char> {
    drop_tail(s, Class::White)
}

/// `s` without whitespace at either end.
pub open spec fn trimmed(s: Seq<char>) -> Seq<char> {
    trimmed_end(trimmed_start(s))
}

/// A run ends inside the text.
pub proof fn span_from_bounds(s: Seq<char>, k: Class, i: int)
    requires
        0 <= i <= s.len(),
    ensures
        i <= span_from(s, k, i) <= s.len(),
        forall|j: int| i <= j < span_from(s, k, i) ==> in_class(k, #[trigger] s[j]),
        span_from(s, k, i) < s.len() ==> !in_class(k, s[span_from(s, k, i)]),
    decreases s.len() - i,
{
    if i < s.len() && in_class(k, s[i]) {
        span_from_bounds(s, k, i + 1);
    }
}

/// A run begins inside the text.
pub proof fn back_from_bounds(s: Seq<char>, k: Class, j: int)
    requires
        0 <= j <= s.len(),
    ensures
        0 <= back_from(s, k, j) <= j,
        forall|i: int| back_from(s, k, j) <= i < j ==> in_class(k, #[trigger] s[i]),
        back_from(s, k, j) > 0 ==> !in_class(k, s[back_from(s, k, j) - 1]),
    decreases j,
{
    if j > 0 && in_class(k, s[j - 1]) {
        back_from_bounds(s, k, j - 1);
    }
}

/// The end of the run of characters of class `k` that begins at `from`.
pub fn run_end(s: &Vec<char>, k: Class, from: usize) -> (r: usize)
    requires
        from <= s.len(),
    ensures
        r == span_from(s@, k, from as int),
        from <= r <= s.len(),
{
    let mut i: usize = from;
    while i < s.len() && belongs(k, s[i])
        invariant
            from <= i <= s.len(),
            span_from(s@, k, from as int) == span_from(s@, k, i as int),
        decreases s.len() - i,
    {
        i += 1;
    }
    i
}

/// The start of the run of characters of class `k` that ends before `to`.
pub fn run_start(s: &Vec<char>, k: Class, to: usize) -> (r: usize)
    requires
        to <= s.len(),
    ensures
        r == back_from(s@, k, to as int),
        r <= to,
{
    let mut j: usize = to;
    while j > 0 && belongs(k, s[j - 1])
        invariant
            j <= to <= s.len(),
            back_from(s@, k, to as int) == back_from(s@, k, j as int),
        decreases j,
    {
        j -= 1;
    }
    j
}

/// Takes the leading characters of a class off.
pub fn without_lead(s: &str, k: Class) -> (r: String)
    ensures
        r@ == drop_lead(s@, k),
{
    let a = chars(s);
    let i = run_end(&a, k, 0);
    assert(a@.subrange(i as int, a@.len() as int) =~= s@.skip(i as int));
    slice(&a, i, a.len())
}

/// Takes the trailing characters of a class off.
pub fn without_tail(s: &str, k: Class) -> (r: String)
    ensures
        r@ == drop_tail(s@, k),
{
    let a = chars(s);
    let j = run_start(&a, k, a.len());
    assert(a@.subrange(0, j as int) =~= s@.take(j as int));
    slice(&a, 0, j)
}

/// The leading characters of a class.
pub fn leading(s: &str, k: Class) -> (r: String)
    ensures
        r@ == lead(s@, k),
{
    let a = chars(s);
    let i = run_end(&a, k, 0);
    assert(a@.subrange(0, i as int) =~= s@.take(i as int));
    slice(&a, 0, i)
}

/// Takes leading whitespace off.
pub fn trim_start(s: &str) -> (r: String)
    ensures
        r@ == trimmed_start(s@),
{
    without_lead(s, Class::White)
}

/// Takes trailing whitespace off.
pub fn trim_end(s: &str) -> (r: String)
    ensures
        r@ == trimmed_end(s@),
{
    without_tail(s, Class::White)
}

/// Takes whitespace off at both ends.
pub fn trim(s: &str) -> (r: String)
    ensures
        r@ == trimmed(s@),
{
    trim_end(trim_start(s).as_str())
}

/// The parts of `s` from `i` on between the characters `c`.
pub open spec fn parts_from(s: Seq<char>, c: char, i: int) -> Seq<Seq<char>>
    decreases s.len() - i,
{
    let j = span_from(s, Class::Not(c), i);
    if 0 <= i <= j < s.len() {
        seq![s.subrange(i, j)] + parts_from(s, c, j + 1)
    } else {
        seq![s.skip(i)]
    }
}

/// The parts of `s` between the characters `c`.
pub open spec fn parts(s: Seq<char>, c: char) -> Seq<Seq<char>> {
    parts_from(s, c, 0)
}

/// There is always at least one part.
pub proof fn parts_nonempty(s: Seq<char>, c: char, i: int)
    ensures
        parts_from(s, c, i).len() > 0,
{
}

/// The words of `s` from `i` on: its longest runs without whitespace.
pub open spec fn runs_from(s: Seq<char>, k: Class, i: int) -> Seq<Seq<char>>
    decreases s.len() - i,
    via runs_decrease
{
    if i >= s.len() || i < 0 {
        Seq::empty()
    } else if in_class(k, s[i]) {
        let j = span_from(s, k, i);
        seq![s.subrange(i, j)] + runs_from(s, k, j)
    } else {
        runs_from(s, k, i + 1)
    }
}

#[via_fn]
proof fn runs_decrease(s: Seq<char>, k: Class, i: int) {
    if 0 <= i < s.len() {
        span_from_bounds(s, k, i);
        if in_class(k, s[i]) {
            span_from_bounds(s, k, i + 1);
        }
    }
}

/// The words of `s`: its longest runs without whitespace.
pub open spec fn words(s: Seq<char>) -> Seq<Seq<char>> {
    runs_from(s, Class::Solid, 0)
}

/// One line and what ended it.
pub struct Piece {
    pub text: Seq<char>,
    pub term: Seq<char>,
}

/// The lines of `s` from `i` on, each with its terminator: a line feed, a carriage return
/// and a line feed, or nothing at the end of the text.
pub open spec fn pieces_from(s: Seq<char>, i: int) -> Seq<Piece>
    decreases s.len() - i,
{
    let j = span_from(s, Class::Not('\n'), i);
    if !(0 <= i < s.len()) {
        Seq::empty()
    } else if !(i <= j < s.len()) {
        seq![(Piece { text: s.skip(i), term: seq![] })]
    } else if i < j && s[j - 1] == '\r' {
        seq![(Piece { text: s.subrange(i, j - 1), term: seq!['\r', '\n'] })] + pieces_from(s, j + 1)
    } else {
        seq![(Piece { text: s.subrange(i, j), term: seq!['\n'] })] + pieces_from(s, j + 1)
    }
}

/// The lines of `s`, each with its terminator.
pub open spec fn pieces(s: Seq<char>) -> Seq<Piece> {
    pieces_from(s, 0)
}

/// The lines of `s`.
pub open spec fn lines_of(s: Seq<char>) -> Seq<Seq<char>> {
    pieces(s).map_values(|p: Piece| p.text)
}

/// The parts of a string between the characters `c`.
pub fn split(s: &str, c: char) -> (r: Vec<String>)
    ensures
        texts(r@) == parts(s@, c),
{
    broadcast use texts_push;

    let a = chars(s);
    let mut r: Vec<String> = Vec::new();
    let mut i: usize = 0;
    assert(texts(r@) =~= Seq::empty());
    loop
        invariant
            a@ == s@,
            i <= a.len(),
            parts(s@, c) =~= texts(r@) + parts_from(s@, c, i as int),
        decreases a.len() - i,
    {
        let j = run_end(&a, Class::Not(c), i);
        let ghost before = texts(r@);
        if j == a.len() {
            assert(a@.subrange(i as int, j as int) =~= s@.skip(i as int));
            r.push(slice(&a, i, j));
            assert(texts(r@) =~= before + parts_from(s@, c, i as int));
            return r;
        }
        r.push(slice(&a, i, j));
        i = j + 1;
    }
}

/// The longest runs of characters of class `k` in a string.
pub fn split_runs(s: &str, k: Class) -> (r: Vec<String>)
    ensures
        texts(r@) == runs_from(s@, k, 0),
{
    broadcast use texts_push;

    let a = chars(s);
    let mut r: Vec<String> = Vec::new();
    let mut i: usize = 0;
    assert(texts(r@) =~= Seq::empty());
    while i < a.len()
        invariant
            a@ == s@,
            i <= a.len(),
            runs_from(s@, k, 0) =~= texts(r@) + runs_from(s@, k, i as int),
        decreases a.len() - i,
    {
        if belongs(k, a[i]) {
            let j = run_end(&a, k, i);
            proof {
                span_from_bounds(s@, k, i + 1);
            }
            r.push(slice(&a, i, j));
            i = j;
        } else {
            i += 1;
        }
    }
    r
}

/// The words of a string.
pub fn split_whitespace(s: &str) -> (r: Vec<String>)
    ensures
        texts(r@) == words(s@),
{
    split_runs(s, Class::Solid)
}

/// A line of a text and its terminator.
#[derive(Debug)]
pub struct Line {
    pub text: String,
    pub term: String,
}

impl View for Line {
    type V = Piece;

    open spec fn view(&self) -> Piece {
        Piece { text: self.text@, term: self.term@ }
    }
}

/// The views of a list of lines.
pub open spec fn line_views(v: Seq<Line>) -> Seq<Piece> {
    v.map_values(|l: Line| l@)
}

/// The lines of a text, each with its terminator.
pub fn split_lines(s: &str) -> (r: Vec<Line>)
    ensures
        line_views(r@) == pieces(s@),
{
    let a = chars(s);
    let mut r: Vec<Line> = Vec::new();
    let mut i: usize = 0;
    while i < a.len()
        invariant
            a@ == s@,
            i <= a.len(),
            pieces(s@) =~= line_views(r@) + pieces_from(s@, i as int),
        decreases a.len() - i,
    {
        let j = run_end(&a, Class::Not('\n'), i);
        let ghost before = line_views(r@);
        let ghost start = i as int;
        proof {
            reveal_strlit("");
            reveal_strlit("\n");
            reveal_strlit("\r\n");
            assert(""@ =~= seq![]);
            assert("\n"@ =~= seq!['\n']);
            assert("\r\n"@ =~= seq!['\r', '\n']);
        }
        if j == a.len() {
            r.push(Line { text: slice(&a, i, j), term: "".to_owned() });
            i = j;
            assert(a@.subrange(start, j as int) =~= s@.skip(start));
            assert(line_views(r@) =~= before.push(r@.last()@));
            assert(pieces_from(s@, start) =~= seq![r@.last()@]);
        } else if i < j && a[j - 1] == '\r' {
            r.push(Line { text: slice(&a, i, j - 1), term: "\r\n".to_owned() });
            i = j + 1;
            assert(line_views(r@) =~= before.push(r@.last()@));
        } else {
            r.push(Line { text: slice(&a, i, j), term: "\n".to_owned() });
            i = j + 1;
            assert(line_views(r@) =~= before.push(r@.last()@));
        }
    }
    r
}

/// The lines of a text, without their terminators.
pub fn lines(s: &str) -> (r: Vec<String>)
    ensures
        texts(r@) == lines_of(s@),
{
    broadcast use texts_push;

    let all = split_lines(s);
    let mut r: Vec<String> = Vec::new();
    let mut i: usize = 0;
    while i < all.len()
        invariant
            i <= all.len(),
            line_views(all@) == pieces(s@),
            texts(r@) =~= lines_of(s@).take(i as int),
        decreases all.len() - i,
    {
        let ghost before = texts(r@);
        r.push(all[i].text.clone());
        assert(pieces(s@)[i as int] == line_views(all@)[i as int]);
        assert(texts(r@) == before.push(lines_of(s@)[i as int]));
        assert(lines_of(s@).take(i + 1) =~= lines_of(s@).take(i as int).push(
            lines_of(s@)[i as int],
        ));
        i += 1;
    }
    r
}

// ── joining and replacing ──────────────────────────────────────────────────────────────

/// The first `n` of the strings `v`, with `sep` between them.
pub open spec fn joined_upto(v: Seq<Seq<char>>, sep: Seq<char>, n: int) -> Seq<char>
    decreases n,
{
    if n <= 0 {
        Seq::empty()
    } else if n == 1 {
        v[0]
    } else {
        joined_upto(v, sep, n - 1) + sep + v[n - 1]
    }
}

/// The strings `v` with `sep` between them.
pub open spec fn joined(v: Seq<Seq<char>>, sep: Seq<char>) -> Seq<char> {
    joined_upto(v, sep, v.len() as int)
}

/// The strings of a list with a separator between them.
pub fn join(v: &Vec<String>, sep: &str) -> (r: String)
    ensures
        r@ == joined(texts(v@), sep@),
{
    let mut r = String::new();
    let mut i: usize = 0;
    while i < v.len()
        invariant
            i <= v.len(),
            r@ == joined_upto(texts(v@), sep@, i as int),
        decreases v.len() - i,
    {
        if i > 0 {
            r.append(sep);
            r.append(v[i].as_str());
        } else {
            r.append(v[i].as_str());
            assert(r@ =~= v@[0]@);
        }
        i += 1;
    }
    r
}

/// What stands for the character at a position once every `c` has become `t`.
pub open spec fn replacing(s: Seq<char>, c: char, t: Seq<char>) -> spec_fn(int) -> Seq<char> {
    |i: int|
        if s[i] == c {
            t
        } else {
            seq![s[i]]
        }
}

/// `s` with every `c` replaced by `t`.
pub open spec fn replaced(s: Seq<char>, c: char, t: Seq<char>) -> Seq<char> {
    gather(s.len() as int, replacing(s, c, t))
}

/// Replaces every `c` in a string by `t`.
pub fn replace(s: &str, c: char, t: &str) -> (r: String)
    ensures
        r@ == replaced(s@, c, t@),
{
    let a = chars(s);
    let mut r = String::new();
    let mut i: usize = 0;
    while i < a.len()
        invariant
            a@ == s@,
            i <= a.len(),
            r@ =~= gather(i as int, replacing(s@, c, t@)),
        decreases a.len() - i,
    {
        if a[i] == c {
            r.append(t);
        } else {
            r.push(a[i]);
        }
        i += 1;
    }
    r
}

/// A character with ASCII capitals made small.
pub open spec fn lower(c: char) -> char {
    if 'A' <= c <= 'Z' {
        ((c as u8) + 32) as u8 as char
    } else {
        c
    }
}

/// A character with ASCII small letters made capital.
pub open spec fn upper(c: char) -> char {
    if 'a' <= c <= 'z' {
        ((c as u8) - 32) as u8 as char
    } else {
        c
    }
}

/// A character with ASCII capitals made small.
pub fn lower_char(c: char) -> (r: char)
    ensures
        r == lower(c),
{
    if 'A' <= c && c <= 'Z' {
        let b: u8 = c as u8;
        (b + 32) as char
    } else {
        c
    }
}

/// A character with ASCII small letters made capital.
pub fn upper_char(c: char) -> (r: char)
    ensures
        r == upper(c),
{
    if 'a' <= c && c <= 'z' {
        let b: u8 = c as u8;
        (b - 32) as char
    } else {
        c
    }
}

/// A string with its ASCII capitals made small.
pub fn to_lower(s: &str) -> (r: String)
    ensures
        r@ == s@.map_values(|c: char| lower(c)),
{
    let a = chars(s);
    let mut r = String::new();
    let mut i: usize = 0;
    while i < a.len()
        invariant
            a@ == s@,
            i <= a.len(),
            r@ =~= s@.map_values(|c: char| lower(c)).take(i as int),
        decreases a.len() - i,
    {
        r.push(lower_char(a[i]));
        i += 1;
    }
    r
}

/// A string with its ASCII small letters made capital.
pub fn to_upper(s: &str) -> (r: String)
    ensures
        r@ == s@.map_values(|c: char| upper(c)),
{
    let a = chars(s);
    let mut r = String::new();
    let mut i: usize = 0;
    while i < a.len()
        invariant
            a@ == s@,
            i <= a.len(),
            r@ =~= s@.map_values(|c: char| upper(c)).take(i as int),
        decreases a.len() - i,
    {
        r.push(upper_char(a[i]));
        i += 1;
    }
    r
}

// ── numbers ────────────────────────────────────────────────────────────────────────────

/// The character of a decimal digit.
pub open spec fn digit(d: int) -> char {
    if d == 0 { '0' } else if d == 1 { '1' } else if d == 2 { '2' } else if d == 3 { '3' } else if d == 4 { '4' } else if d == 5 { '5' } else if d == 6 { '6' } else if d == 7 { '7' } else if d == 8 { '8' } else { '9' }
}

/// A number in decimal, without leading zeros.
pub open spec fn dec(n: nat) -> Seq<char>
    decreases n,
{
    if n < 10 {
        seq![digit(n as int)]
    } else {
        dec(n / 10).push(digit((n % 10) as int))
    }
}

/// An integer in decimal, with a minus sign where it is negative.
pub open spec fn dec_int(n: int) -> Seq<char> {
    if n < 0 {
        seq!['-'] + dec((-n) as nat)
    } else {
        dec(n as nat)
    }
}

/// The character of a decimal digit.
fn digit_char(d: u64) -> (r: char)
    requires
        d < 10,
    ensures
        r == digit(d as int),
{
    match d {
        0 => '0',
        1 => '1',
        2 => '2',
        3 => '3',
        4 => '4',
        5 => '5',
        6 => '6',
        7 => '7',
        8 => '8',
        _ => '9',
    }
}

/// A number in decimal.
pub fn decimal(n: u64) -> (r: String)
    ensures
        r@ == dec(n as nat),
    decreases n,
{
    if n < 10 {
        let mut r = String::new();
        r.push(digit_char(n));
        assert(r@ =~= dec(n as nat));
        r
    } else {
        let mut r = decimal(n / 10);
        r.push(digit_char(n % 10));
        r
    }
}

/// A machine-sized number in decimal.
pub fn decimal_usize(n: usize) -> (r: String)
    ensures
        r@ == dec(n as nat),
{
    decimal(n as u64)
}

/// A signed number in decimal.
pub fn decimal_i64(n: i64) -> (r: String)
    ensures
        r@ == dec_int(n as int),
{
    if n < 0 {
        let m: u64 = (-(n as i128)) as u64;
        let mut r = String::new();
        r.push('-');
        r.append(decimal(m).as_str());
        assert(r@ =~= seq!['-'] + dec(m as nat));
        r
    } else {
        decimal(n as u64)
    }
}

} // verus!
