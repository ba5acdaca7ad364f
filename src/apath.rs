//! Archive paths ("apaths"): platform-independent paths of entries inside a
//! tree, with the ordering that archive indexes are laid out in.
//!
//! An apath starts with `/`; the root is `/` itself, and every other apath
//! is a `/`-separated list of non-empty components, none of which is `.`,
//! `..` or holds a NUL character.
//!
//! The ordering is not string ordering: components are compared from the
//! root down, and at every level the entries that end there sort before
//! everything nested deeper.
use core::cmp::Ordering;
use vstd::prelude::*;

verus! {

// ---------------------------------------------------------------------------
// Model
// ---------------------------------------------------------------------------
/// Index of the first separator in `s`, or `s.len()` when there is none.
pub open spec fn sep_index(s: Seq<char>) -> nat
    decreases s.len(),
{
    if s.len() == 0 {
        0
    } else if s[0] == '/' {
        0
    } else {
        1 + sep_index(s.drop_first())
    }
}

/// True if `s` holds a separator.
pub open spec fn has_sep(s: Seq<char>) -> bool {
    sep_index(s) < s.len()
}

/// The part of `s` before its first separator (all of `s` if it has none).
pub open spec fn head(s: Seq<char>) -> Seq<char> {
    s.take(sep_index(s) as int)
}

/// The part of `s` after its first separator.
pub open spec fn tail(s: Seq<char>) -> Seq<char> {
    s.skip(sep_index(s) + 1 as int)
}

/// `s` split at every separator; never empty.
pub open spec fn split_seps(s: Seq<char>) -> Seq<Seq<char>>
    decreases s.len(),
{
    if has_sep(s) {
        seq![head(s)] + split_seps(tail(s))
    } else {
        seq![s]
    }
}

/// Ordinal comparison of two character strings, the order of `str::cmp`.
pub open spec fn lex_cmp(a: Seq<char>, b: Seq<char>) -> Ordering
    decreases a.len(),
{
    if a.len() == 0 && b.len() == 0 {
        Ordering::Equal
    } else if a.len() == 0 {
        Ordering::Less
    } else if b.len() == 0 {
        Ordering::Greater
    } else if a[0] < b[0] {
        Ordering::Less
    } else if a[0] > b[0] {
        Ordering::Greater
    } else {
        lex_cmp(a.drop_first(), b.drop_first())
    }
}

/// Order of two apath bodies (an apath without its leading `/`), compared
/// component by component: where one ends and the other goes on into a
/// subdirectory, the one that ends comes first.
pub open spec fn body_cmp(a: Seq<char>, b: Seq<char>) -> Ordering
    decreases a.len(),
{
    if !has_sep(a) && !has_sep(b) {
        lex_cmp(a, b)
    } else if !has_sep(a) {
        Ordering::Less
    } else if !has_sep(b) {
        Ordering::Greater
    } else {
        let c = lex_cmp(head(a), head(b));
        if c == Ordering::Equal {
            body_cmp(tail(a), tail(b))
        } else {
            c
        }
    }
}

/// The order of apaths.
pub open spec fn apath_cmp(a: Seq<char>, b: Seq<char>) -> Ordering {
    body_cmp(a.drop_first(), b.drop_first())
}

/// One component of an apath: non-empty, not `.` or `..`, no NUL.
pub open spec fn valid_component(c: Seq<char>) -> bool {
    &&& c.len() > 0
    &&& c != seq!['.']
    &&& c != seq!['.', '.']
    &&& !c.contains('\0')
}

/// A `/`-separated list of valid components.
pub open spec fn valid_body(b: Seq<char>) -> bool
    decreases b.len(),
{
    &&& valid_component(head(b))
    &&& (has_sep(b) ==> valid_body(tail(b)))
}

/// A well-formed apath.
pub open spec fn valid_apath(s: Seq<char>) -> bool {
    &&& s.len() >= 1
    &&& s[0] == '/'
    &&& (s.len() == 1 || valid_body(s.drop_first()))
}

/// The apath of the entry called `name` inside the directory `dir`.
pub open spec fn child_path(dir: Seq<char>, name: Seq<char>) -> Seq<char> {
    if dir.len() == 1 {
        dir + name
    } else {
        dir + seq!['/'] + name
    }
}

/// True if `name` can name an entry of a directory: a valid apath comes of
/// it, and it is one non-empty component.
pub open spec fn child_ok(dir: Seq<char>, name: Seq<char>) -> bool {
    &&& valid_apath(child_path(dir, name))
    &&& name.len() > 0
    &&& !has_sep(name)
}

/// The reverse of an ordering.
pub open spec fn flip(o: Ordering) -> Ordering {
    match o {
        Ordering::Less => Ordering::Greater,
        Ordering::Equal => Ordering::Equal,
        Ordering::Greater => Ordering::Less,
    }
}

// ---------------------------------------------------------------------------
// Lemmas on the model
// ---------------------------------------------------------------------------
pub proof fn lemma_sep_index(s: Seq<char>)
    ensures
        sep_index(s) <= s.len(),
        forall|k: int| 0 <= k < sep_index(s) ==> s[k] != '/',
        sep_index(s) < s.len() ==> s[sep_index(s) as int] == '/',
    decreases s.len(),
{
    if s.len() > 0 && s[0] != '/' {
        lemma_sep_index(s.drop_first());
        assert forall|k: int| 0 <= k < sep_index(s) implies s[k] != '/' by {
            if k > 0 {
                assert(s[k] == s.drop_first()[k - 1]);
            }
        }
    }
}

/// The separator index is determined by where the first `/` stands.
pub proof fn lemma_sep_index_at(s: Seq<char>, i: int)
    requires
        0 <= i <= s.len(),
        forall|k: int| 0 <= k < i ==> s[k] != '/',
        i < s.len() ==> s[i] == '/',
    ensures
        sep_index(s) == i,
    decreases s.len(),
{
    if s.len() > 0 && s[0] != '/' {
        let t = s.drop_first();
        assert forall|k: int| 0 <= k < i - 1 implies t[k] != '/' by {
            assert(t[k] == s[k + 1]);
        }
        if i - 1 < t.len() {
            assert(t[i - 1] == s[i]);
        }
        lemma_sep_index_at(t, i - 1);
    }
}

/// An apath body is its head, a separator and its tail, when it has one.
pub proof fn lemma_head_tail(s: Seq<char>)
    requires
        has_sep(s),
    ensures
        s == head(s) + seq!['/'] + tail(s),
        tail(s).len() < s.len(),
        !has_sep(head(s)),
{
    lemma_sep_index(s);
    let i = sep_index(s) as int;
    assert(s =~= head(s) + seq!['/'] + tail(s));
    lemma_sep_index_at(head(s), i);
}

/// The head and tail of `p + "/" + q`.
pub proof fn lemma_head_tail_concat(p: Seq<char>, q: Seq<char>)
    ensures
        has_sep(p + seq!['/'] + q),
        !has_sep(p) ==> head(p + seq!['/'] + q) == p && tail(p + seq!['/'] + q) == q,
        has_sep(p) ==> head(p + seq!['/'] + q) == head(p) && tail(p + seq!['/'] + q) == tail(p)
            + seq!['/'] + q,
{
    let s = p + seq!['/'] + q;
    lemma_sep_index(p);
    let i = sep_index(p) as int;
    if has_sep(p) {
        lemma_sep_index_at(s, i);
        assert(head(s) =~= head(p));
        assert(tail(s) =~= tail(p) + seq!['/'] + q);
    } else {
        lemma_sep_index_at(s, p.len() as int);
        assert(head(s) =~= p);
        assert(tail(s) =~= q);
    }
}

pub proof fn lemma_lex_equal(a: Seq<char>, b: Seq<char>)
    ensures
        (lex_cmp(a, b) == Ordering::Equal) == (a == b),
    decreases a.len(),
{
    if a.len() > 0 && b.len() > 0 && a[0] == b[0] {
        lemma_lex_equal(a.drop_first(), b.drop_first());
        if a.drop_first() == b.drop_first() {
            assert(a =~= seq![a[0]] + a.drop_first());
            assert(b =~= seq![b[0]] + b.drop_first());
        }
    }
    if a.len() == 0 && b.len() == 0 {
        assert(a =~= b);
    }
}

pub proof fn lemma_lex_flip(a: Seq<char>, b: Seq<char>)
    ensures
        lex_cmp(b, a) == flip(lex_cmp(a, b)),
    decreases a.len(),
{
    if a.len() > 0 && b.len() > 0 && a[0] == b[0] {
        lemma_lex_flip(a.drop_first(), b.drop_first());
    }
}

pub proof fn lemma_lex_trans(a: Seq<char>, b: Seq<char>, c: Seq<char>)
    requires
        lex_cmp(a, b) == Ordering::Less,
        lex_cmp(b, c) == Ordering::Less,
    ensures
        lex_cmp(a, c) == Ordering::Less,
    decreases a.len(),
{
    if a.len() > 0 && b.len() > 0 && c.len() > 0 && a[0] == b[0] && b[0]
        == c[0] {
        lemma_lex_trans(a.drop_first(), b.drop_first(), c.drop_first());
    }
}

pub proof fn lemma_body_equal(a: Seq<char>, b: Seq<char>)
    ensures
        (body_cmp(a, b) == Ordering::Equal) == (a == b),
    decreases a.len(),
{
    lemma_lex_equal(a, b);
    if has_sep(a) && has_sep(b) {
        lemma_head_tail(a);
        lemma_head_tail(b);
        lemma_lex_equal(head(a), head(b));
        lemma_body_equal(tail(a), tail(b));
    }
}

pub proof fn lemma_body_flip(a: Seq<char>, b: Seq<char>)
    ensures
        body_cmp(b, a) == flip(body_cmp(a, b)),
    decreases a.len(),
{
    lemma_lex_flip(a, b);
    if has_sep(a) && has_sep(b) {
        lemma_head_tail(a);
        lemma_lex_flip(head(a), head(b));
        lemma_body_flip(tail(a), tail(b));
    }
}

pub proof fn lemma_body_trans(a: Seq<char>, b: Seq<char>, c: Seq<char>)
    requires
        body_cmp(a, b) == Ordering::Less,
        body_cmp(b, c) == Ordering::Less,
    ensures
        body_cmp(a, c) == Ordering::Less,
    decreases a.len(),
{
    if !has_sep(a) && !has_sep(b) && !has_sep(c) {
        lemma_lex_trans(a, b, c);
    } else if has_sep(a) && has_sep(b) && has_sep(c) {
        lemma_head_tail(a);
        let (ha, hb, hc) = (head(a), head(b), head(c));
        lemma_lex_equal(ha, hb);
        lemma_lex_equal(hb, hc);
        lemma_lex_equal(ha, hc);
        if lex_cmp(ha, hb) == Ordering::Equal && lex_cmp(hb, hc) == Ordering::Equal {
            lemma_body_trans(tail(a), tail(b), tail(c));
        } else if lex_cmp(ha, hb) == Ordering::Less && lex_cmp(hb, hc) == Ordering::Less {
            lemma_lex_trans(ha, hb, hc);
        }
    }
}

/// The bodies `p/s` and `p/t` compare as `s` and `t` do.
pub proof fn lemma_body_common_prefix(p: Seq<char>, s: Seq<char>, t: Seq<char>)
    ensures
        body_cmp(p + seq!['/'] + s, p + seq!['/'] + t) == body_cmp(s, t),
    decreases p.len(),
{
    lemma_head_tail_concat(p, s);
    lemma_head_tail_concat(p, t);
    lemma_lex_equal(head(p), head(p));
    if has_sep(p) {
        lemma_head_tail(p);
        lemma_body_common_prefix(tail(p), s, t);
    } else {
        lemma_lex_equal(p, p);
    }
}

// ---------------------------------------------------------------------------
// Laws of the order
// ---------------------------------------------------------------------------
/// The apath order is a strict total order that agrees with equality: of
/// two valid apaths exactly one is less, equal or greater than the other,
/// and the order is transitive.
pub proof fn lemma_total_order(a: Seq<char>, b: Seq<char>, c: Seq<char>)
    requires
        valid_apath(a),
        valid_apath(b),
        valid_apath(c),
    ensures
        (apath_cmp(a, b) == Ordering::Equal) == (a == b),
        apath_cmp(b, a) == flip(apath_cmp(a, b)),
        apath_cmp(a, b) == Ordering::Less && apath_cmp(b, c) == Ordering::Less ==> apath_cmp(a, c)
            == Ordering::Less,
{
    lemma_body_equal(a.drop_first(), b.drop_first());
    if a.drop_first() == b.drop_first() {
        assert(a =~= seq![a[0]] + a.drop_first());
        assert(b =~= seq![b[0]] + b.drop_first());
    }
    lemma_body_flip(a.drop_first(), b.drop_first());
    if apath_cmp(a, b) == Ordering::Less && apath_cmp(b, c) == Ordering::Less {
        lemma_body_trans(a.drop_first(), b.drop_first(), c.drop_first());
    }
}

/// Within a directory, an entry directly inside it sorts before every entry
/// nested in one of its subdirectories, whatever their names.
pub proof fn lemma_child_before_descendant(
    dir: Seq<char>,
    name: Seq<char>,
    subdir: Seq<char>,
    rest: Seq<char>,
)
    requires
        valid_apath(dir),
        valid_component(name),
        !has_sep(name),
        valid_component(subdir),
        !has_sep(subdir),
        valid_body(rest),
    ensures
        apath_cmp(child_path(dir, name), child_path(dir, subdir + seq!['/'] + rest))
            == Ordering::Less,
{
    let x = child_path(dir, name);
    let y = child_path(dir, subdir + seq!['/'] + rest);
    lemma_head_tail_concat(subdir, rest);
    if dir.len() == 1 {
        assert(x.drop_first() =~= name);
        assert(y.drop_first() =~= subdir + seq!['/'] + rest);
    } else {
        let p = dir.drop_first();
        assert(x.drop_first() =~= p + seq!['/'] + name);
        assert(y.drop_first() =~= p + seq!['/'] + (subdir + seq!['/'] + rest));
        lemma_body_common_prefix(p, name, subdir + seq!['/'] + rest);
    }
}


/// Entries of one directory are in apath order exactly when their names are
/// in name order, so sorting a listing by name puts it in apath order.
pub proof fn lemma_siblings_by_name(dir: Seq<char>, a: Seq<char>, b: Seq<char>)
    requires
        valid_apath(dir),
        !has_sep(a),
        !has_sep(b),
    ensures
        apath_cmp(child_path(dir, a), child_path(dir, b)) == lex_cmp(a, b),
{
    let x = child_path(dir, a);
    let y = child_path(dir, b);
    if dir.len() == 1 {
        assert(x.drop_first() =~= a);
        assert(y.drop_first() =~= b);
    } else {
        let p = dir.drop_first();
        assert(x.drop_first() =~= p + seq!['/'] + a);
        assert(y.drop_first() =~= p + seq!['/'] + b);
        lemma_body_common_prefix(p, a, b);
    }
}

// ---------------------------------------------------------------------------
// Subtrees
// ---------------------------------------------------------------------------
/// `x` is a valid apath strictly inside the directory `d`: `d` followed by
/// one or more further components.
pub open spec fn is_under(d: Seq<char>, x: Seq<char>) -> bool {
    &&& valid_apath(x)
    &&& if d.len() == 1 {
        x.len() > 1
    } else {
        &&& x.len() > d.len() + 1
        &&& x.take(d.len() as int) == d
        &&& x[d.len() as int] == '/'
    }
}

/// Everything under the child `m` of `g` is `g`'s child path of `m`, a
/// separator and more.
proof fn lemma_under_child_shape(g: Seq<char>, m: Seq<char>, x: Seq<char>)
    requires
        valid_apath(g),
        child_ok(g, m),
        is_under(child_path(g, m), x),
    ensures
        x == child_path(g, m + seq!['/'] + x.skip(child_path(g, m).len() + 1 as int)),
{
    let c = child_path(g, m);
    let r = x.skip(c.len() + 1 as int);
    assert(c.len() > 1);
    assert forall|i: int| 0 <= i < c.len() implies x[i] == c[i] by {
        assert(x.take(c.len() as int)[i] == x[i]);
    }
    assert(x =~= c + seq!['/'] + r);
    assert(child_path(g, m + seq!['/'] + r) =~= c + seq!['/'] + r);
}

/// A child of `g` lies under `g`.
pub proof fn lemma_child_under(g: Seq<char>, n: Seq<char>)
    requires
        valid_apath(g),
        child_ok(g, n),
    ensures
        is_under(g, child_path(g, n)),
{
    let c = child_path(g, n);
    if g.len() != 1 {
        assert(c.take(g.len() as int) =~= g);
    }
}

/// What lies under a child of `g` lies under `g`.
pub proof fn lemma_under_trans(g: Seq<char>, m: Seq<char>, x: Seq<char>)
    requires
        valid_apath(g),
        child_ok(g, m),
        is_under(child_path(g, m), x),
    ensures
        is_under(g, x),
{
    let c = child_path(g, m);
    lemma_child_under(g, m);
    if g.len() != 1 {
        assert forall|i: int| 0 <= i < g.len() implies x[i] == g[i] by {
            assert(x.take(c.len() as int)[i] == x[i]);
            assert(c.take(g.len() as int)[i] == c[i]);
        }
        assert(x.take(g.len() as int) =~= g);
        assert(x.take(c.len() as int)[g.len() as int] == x[g.len() as int]);
    }
}

/// The body of the child path of `name` in `g`.
proof fn lemma_child_body(g: Seq<char>, name: Seq<char>)
    requires
        valid_apath(g),
    ensures
        g.len() == 1 ==> child_path(g, name).drop_first() == name,
        g.len() != 1 ==> child_path(g, name).drop_first() == g.drop_first() + seq!['/'] + name,
{
    if g.len() == 1 {
        assert(child_path(g, name).drop_first() =~= name);
    } else {
        assert(child_path(g, name).drop_first() =~= g.drop_first() + seq!['/'] + name);
    }
}

/// A child of `g` sorts before everything under any child of `g`.
pub proof fn lemma_child_before_subtree(g: Seq<char>, n: Seq<char>, m: Seq<char>, x: Seq<char>)
    requires
        valid_apath(g),
        child_ok(g, n),
        child_ok(g, m),
        is_under(child_path(g, m), x),
    ensures
        apath_cmp(child_path(g, n), x) == Ordering::Less,
{
    let r = x.skip(child_path(g, m).len() + 1 as int);
    lemma_under_child_shape(g, m, x);
    lemma_head_tail_concat(m, r);
    lemma_child_body(g, n);
    lemma_child_body(g, m + seq!['/'] + r);
    if g.len() != 1 {
        lemma_body_common_prefix(g.drop_first(), n, m + seq!['/'] + r);
    }
}

/// Everything under one child of `g` sorts before everything under a child
/// of `g` with a later name.
pub proof fn lemma_subtrees_in_name_order(
    g: Seq<char>,
    a: Seq<char>,
    b: Seq<char>,
    x: Seq<char>,
    y: Seq<char>,
)
    requires
        valid_apath(g),
        child_ok(g, a),
        child_ok(g, b),
        lex_cmp(a, b) == Ordering::Less,
        is_under(child_path(g, a), x),
        is_under(child_path(g, b), y),
    ensures
        apath_cmp(x, y) == Ordering::Less,
{
    let r1 = x.skip(child_path(g, a).len() + 1 as int);
    let r2 = y.skip(child_path(g, b).len() + 1 as int);
    lemma_under_child_shape(g, a, x);
    lemma_under_child_shape(g, b, y);
    lemma_head_tail_concat(a, r1);
    lemma_head_tail_concat(b, r2);
    lemma_child_body(g, a + seq!['/'] + r1);
    lemma_child_body(g, b + seq!['/'] + r2);
    if g.len() != 1 {
        lemma_body_common_prefix(g.drop_first(), a + seq!['/'] + r1, b + seq!['/'] + r2);
    }
}

/// The root sorts before everything under it.
pub proof fn lemma_root_first(x: Seq<char>)
    requires
        is_under(seq!['/'], x),
    ensures
        apath_cmp(seq!['/'], x) == Ordering::Less,
{
    let e = seq!['/'].drop_first();
    assert(e =~= Seq::<char>::empty());
    assert(sep_index(e) == 0);
}

// ---------------------------------------------------------------------------
// Scanning character vectors
// ---------------------------------------------------------------------------
/// The characters of `s`, one by one.
pub fn chars_of(s: &str) -> (r: Vec<char>)
    ensures
        r@ == s@,
{
    let n = s.unicode_len();
    let mut r: Vec<char> = Vec::new();
    let mut i: usize = 0;
    while i < n
        invariant
            n == s@.len(),
            i <= n,
            r@ == s@.take(i as int),
        decreases n - i,
    {
        let c = s.get_char(i);
        r.push(c);
        i += 1;
        assert(r@ =~= s@.take(i as int));
    }
    assert(r@ =~= s@);
    r
}

/// Index of the first separator in `v` at or after `start`, or `v.len()`.
fn find_sep(v: &Vec<char>, start: usize) -> (e: usize)
    requires
        start <= v.len(),
    ensures
        e == start + sep_index(v@.skip(start as int)),
        e <= v.len(),
{
    let mut k: usize = start;
    while k < v.len() && v[k] != '/'
        invariant
            start <= k <= v.len(),
            forall|m: int| start <= m < k ==> v@[m] != '/',
        decreases v.len() - k,
    {
        k += 1;
    }
    let ghost t = v@.skip(start as int);
    assert forall|m: int| 0 <= m < k - start implies t[m] != '/' by {
        assert(t[m] == v@[m + start]);
    }
    proof {
        lemma_sep_index_at(t, k - start);
    }
    k
}

/// Ordinal comparison of `a[i..ea]` with `b[j..eb]`.
fn lex_range(a: &Vec<char>, i: usize, ea: usize, b: &Vec<char>, j: usize, eb: usize) -> (r:
    Ordering)
    requires
        i <= ea <= a.len(),
        j <= eb <= b.len(),
    ensures
        r == lex_cmp(a@.subrange(i as int, ea as int), b@.subrange(j as int, eb as int)),
{
    let mut x: usize = i;
    let mut y: usize = j;
    while x < ea && y < eb && a[x] == b[y]
        invariant
            i <= x <= ea <= a.len(),
            j <= y <= eb <= b.len(),
            lex_cmp(a@.subrange(i as int, ea as int), b@.subrange(j as int, eb as int)) == lex_cmp(
                a@.subrange(x as int, ea as int),
                b@.subrange(y as int, eb as int),
            ),
        decreases ea - x,
    {
        assert(a@.subrange(x as int, ea as int).drop_first() =~= a@.subrange(x + 1, ea as int));
        assert(b@.subrange(y as int, eb as int).drop_first() =~= b@.subrange(y + 1, eb as int));
        x += 1;
        y += 1;
    }
    if x == ea && y == eb {
        Ordering::Equal
    } else if x == ea {
        Ordering::Less
    } else if y == eb {
        Ordering::Greater
    } else if a[x] < b[y] {
        Ordering::Less
    } else {
        Ordering::Greater
    }
}

/// True if `v[i..e]` is a valid component.
fn component_ok(v: &Vec<char>, i: usize, e: usize) -> (r: bool)
    requires
        i <= e <= v.len(),
    ensures
        r == valid_component(v@.subrange(i as int, e as int)),
{
    let ghost c = v@.subrange(i as int, e as int);
    if e == i {
        return false;
    }
    if e - i == 1 && v[i] == '.' {
        assert(c =~= seq!['.']);
        return false;
    }
    if e - i == 2 && v[i] == '.' && v[i + 1] == '.' {
        assert(c =~= seq!['.', '.']);
        return false;
    }
    assert(c != seq!['.']) by {
        if c.len() == 1 {
            assert(c[0] == seq!['.'][0] ==> c =~= seq!['.']);
        }
    }
    assert(c != seq!['.', '.']) by {
        if c.len() == 2 {
            assert(c[0] == '.' && c[1] == '.' ==> c =~= seq!['.', '.']);
        }
    }
    let mut k: usize = i;
    while k < e
        invariant
            i <= k <= e <= v.len(),
            c == v@.subrange(i as int, e as int),
            forall|m: int| i <= m < k ==> v@[m] != '\0',
        decreases e - k,
    {
        if v[k] == '\0' {
            assert(c[k - i] == '\0');
            return false;
        }
        k += 1;
    }
    assert(!c.contains('\0')) by {
        assert forall|m: int| 0 <= m < c.len() implies c[m] != '\0' by {
            assert(c[m] == v@[m + i]);
        }
    }
    true
}

/// Ordinal comparison of two names, as `str::cmp` orders them.
pub fn compare_names(a: &str, b: &str) -> (r: Ordering)
    ensures
        r == lex_cmp(a@, b@),
{
    let x = chars_of(a);
    let y = chars_of(b);
    assert(x@.subrange(0, x.len() as int) =~= x@);
    assert(y@.subrange(0, y.len() as int) =~= y@);
    lex_range(&x, 0, x.len(), &y, 0, y.len())
}

/// `a` does not sort after `b`, and `b` does not sort after `c`.
pub proof fn lemma_lex_le_trans(a: Seq<char>, b: Seq<char>, c: Seq<char>)
    requires
        lex_cmp(a, b) != Ordering::Greater,
        lex_cmp(b, c) != Ordering::Greater,
    ensures
        lex_cmp(a, c) != Ordering::Greater,
        lex_cmp(a, b) == Ordering::Less || lex_cmp(b, c) == Ordering::Less ==> lex_cmp(a, c)
            == Ordering::Less,
{
    lemma_lex_equal(a, b);
    lemma_lex_equal(b, c);
    if lex_cmp(a, b) == Ordering::Less && lex_cmp(b, c) == Ordering::Less {
        lemma_lex_trans(a, b, c);
    }
}

/// Validity of the body `v[1..]` of a character vector that starts with `/`.
fn body_ok(v: &Vec<char>) -> (r: bool)
    requires
        v.len() >= 1,
    ensures
        r == valid_body(v@.skip(1)),
{
    let mut i: usize = 1;
    loop
        invariant
            1 <= i <= v.len(),
            valid_body(v@.skip(1)) == valid_body(v@.skip(i as int)),
        decreases v.len() - i,
    {
        let ghost t = v@.skip(i as int);
        let e = find_sep(v, i);
        proof {
            lemma_sep_index(t);
            assert(head(t) =~= v@.subrange(i as int, e as int));
        }
        if !component_ok(v, i, e) {
            return false;
        }
        if e == v.len() {
            return true;
        }
        assert(tail(t) =~= v@.skip(e + 1));
        i = e + 1;
    }
}

/// Order of the bodies `a[1..]` and `b[1..]`.
fn body_order(a: &Vec<char>, b: &Vec<char>) -> (r: Ordering)
    requires
        a.len() >= 1,
        b.len() >= 1,
    ensures
        r == body_cmp(a@.skip(1), b@.skip(1)),
{
    let mut i: usize = 1;
    let mut j: usize = 1;
    loop
        invariant
            1 <= i <= a.len(),
            1 <= j <= b.len(),
            body_cmp(a@.skip(1), b@.skip(1)) == body_cmp(a@.skip(i as int), b@.skip(j as int)),
        decreases a.len() - i,
    {
        let ghost (s, t) = (a@.skip(i as int), b@.skip(j as int));
        let ea = find_sep(a, i);
        let eb = find_sep(b, j);
        proof {
            lemma_sep_index(s);
            lemma_sep_index(t);
            assert(head(s) =~= a@.subrange(i as int, ea as int));
            assert(head(t) =~= b@.subrange(j as int, eb as int));
        }
        if ea == a.len() && eb == b.len() {
            assert(s =~= head(s));
            assert(t =~= head(t));
            return lex_range(a, i, ea, b, j, eb);
        } else if ea == a.len() {
            return Ordering::Less;
        } else if eb == b.len() {
            return Ordering::Greater;
        }
        let c = lex_range(a, i, ea, b, j, eb);
        match c {
            Ordering::Equal => {},
            _ => {
                return c;
            },
        }
        assert(tail(s) =~= a@.skip(ea + 1));
        assert(tail(t) =~= b@.skip(eb + 1));
        i = ea + 1;
        j = eb + 1;
    }
}

/// True if the characters `v` form a valid apath.
fn valid_chars(v: &Vec<char>) -> (r: bool)
    ensures
        r == valid_apath(v@),
{
    if v.len() == 0 || v[0] != '/' {
        return false;
    }
    if v.len() == 1 {
        return true;
    }
    assert(v@.skip(1) =~= v@.drop_first());
    body_ok(v)
}

// ---------------------------------------------------------------------------
// Apath
// ---------------------------------------------------------------------------
/// An archive path: a string that is always a valid apath.
///
/// Equal strings are equal apaths, but apaths are ordered by `apath_cmp`,
/// not as strings.
#[derive(Debug)]
pub struct Apath {
    path: String,
}

impl View for Apath {
    type V = Seq<char>;

    closed spec fn view(&self) -> Seq<char> {
        self.path@
    }
}

impl Apath {
    #[verifier::type_invariant]
    closed spec fn inv(self) -> bool {
        valid_apath(self.path@)
    }

    /// True if `a` is a well-formed apath.
    pub fn is_valid(a: &str) -> (r: bool)
        ensures
            r == valid_apath(a@),
    {
        let v = chars_of(a);
        valid_chars(&v)
    }

    /// The pieces of `a` between its separators, in order.
    pub fn is_prefix_of(a: &str) -> (r: Vec<&str>)
        ensures
            r@.map_values(|p: &str| p@) == split_seps(a@),
    {
        let v = chars_of(a);
        let mut r: Vec<&str> = Vec::new();
        let mut i: usize = 0;
        assert(v@.skip(0) =~= v@);
        assert(r@.map_values(|p: &str| p@) + split_seps(v@) =~= split_seps(v@));
        loop
            invariant
                v@ == a@,
                i <= v.len(),
                r@.map_values(|p: &str| p@) + split_seps(v@.skip(i as int)) == split_seps(a@),
            decreases v.len() - i,
        {
            let ghost t = v@.skip(i as int);
            let e = find_sep(&v, i);
            proof {
                lemma_sep_index(t);
                assert(head(t) =~= v@.subrange(i as int, e as int));
            }
            let piece = a.substring_char(i, e);
            let ghost before = r@.map_values(|p: &str| p@);
            r.push(piece);
            assert(r@.map_values(|p: &str| p@) =~= before.push(head(t)));
            if e == v.len() {
                assert(!has_sep(t));
                assert(r@.map_values(|p: &str| p@) =~= before + split_seps(t));
                return r;
            }
            assert(tail(t) =~= v@.skip(e + 1));
            assert(before + split_seps(t) =~= before.push(head(t)) + split_seps(tail(t)));
            i = e + 1;
        }
    }

    /// The root apath, `/`.
    pub fn root() -> (r: Apath)
        ensures
            r@ == seq!['/'],
    {
        let path = String::from_str("/");
        proof {
            reveal_strlit("/");
        }
        Apath { path }
    }

    /// An apath from a string that is known to be valid.
    pub fn from_string(s: String) -> (r: Apath)
        requires
            valid_apath(s@),
        ensures
            r@ == s@,
    {
        Apath { path: s }
    }

    /// An apath from `s`, or `None` if `s` is not a valid apath.
    pub fn parse(s: &str) -> (r: Option<Apath>)
        ensures
            r is Some == valid_apath(s@),
            r is Some ==> r->0@ == s@,
    {
        if Apath::is_valid(s) {
            Some(Apath { path: String::from_str(s) })
        } else {
            None
        }
    }

    /// The text of this apath.
    pub fn as_str(&self) -> (r: &str)
        ensures
            r@ == self@,
    {
        self.path.as_str()
    }

    /// The text of this apath, as an owned string.
    pub fn into_string(self) -> (r: String)
        ensures
            r@ == self@,
    {
        self.path
    }

    /// An equal apath.
    pub fn duplicate(&self) -> (r: Apath)
        ensures
            r@ == self@,
    {
        proof {
            use_type_invariant(self);
        }
        Apath { path: self.path.clone() }
    }

    /// This apath without its leading `/`: the path of the entry relative
    /// to the root of its tree.
    pub fn relative_text(&self) -> (r: &str)
        ensures
            r@ == self@.drop_first(),
    {
        proof {
            use_type_invariant(self);
        }
        let n = self.path.as_str().unicode_len();
        let r = self.path.as_str().substring_char(1, n);
        assert(self@.subrange(1, n as int) =~= self@.drop_first());
        r
    }

    /// True if this is the root, `/`.
    pub fn is_root(&self) -> (r: bool)
        ensures
            r == (self@.len() == 1),
    {
        proof {
            use_type_invariant(self);
        }
        self.path.unicode_len() == 1
    }

    /// The apath of the entry called `name` in this directory, or `None` if
    /// that is not a valid apath.
    pub fn child(&self, name: &str) -> (r: Option<Apath>)
        ensures
            r is Some == child_ok(self@, name@),
            r is Some ==> r->0@ == child_path(self@, name@),
    {
        let v = chars_of(name);
        if v.len() == 0 || find_sep(&v, 0) != v.len() {
            assert(v@.skip(0) =~= v@);
            return None;
        }
        assert(v@.skip(0) =~= v@);
        let mut s = self.path.clone();
        if !self.is_root() {
            proof {
                reveal_strlit("/");
            }
            s.append("/");
        }
        s.append(name);
        assert(s@ =~= child_path(self@, name@));
        if Apath::is_valid(s.as_str()) {
            Some(Apath { path: s })
        } else {
            None
        }
    }

    /// Compare two apaths in apath order.
    pub fn cmp(&self, other: &Apath) -> (r: Ordering)
        ensures
            r == apath_cmp(self@, other@),
    {
        proof {
            use_type_invariant(self);
            use_type_invariant(other);
        }
        let a = chars_of(self.path.as_str());
        let b = chars_of(other.path.as_str());
        assert(a@.skip(1) =~= a@.drop_first());
        assert(b@.skip(1) =~= b@.drop_first());
        body_order(&a, &b)
    }

    /// True if this apath sorts strictly before `other`.
    pub fn precedes(&self, other: &Apath) -> (r: bool)
        ensures
            r == (apath_cmp(self@, other@) == Ordering::Less),
    {
        match self.cmp(other) {
            Ordering::Less => true,
            _ => false,
        }
    }
}

impl PartialEq for Apath {
    fn eq(&self, other: &Apath) -> (r: bool) {
        self.path == other.path
    }
}

impl Clone for Apath {
    fn clone(&self) -> (r: Apath) {
        self.duplicate()
    }
}

impl PartialOrd for Apath {
    fn partial_cmp(&self, other: &Apath) -> (r: Option<Ordering>) {
        Some(self.cmp(other))
    }
}

impl vstd::std_specs::cmp::PartialOrdSpecImpl for Apath {
    open spec fn obeys_partial_cmp_spec() -> bool {
        true
    }

    open spec fn partial_cmp_spec(&self, other: &Apath) -> Option<Ordering> {
        Some(apath_cmp(self@, other@))
    }
}

impl vstd::std_specs::cmp::PartialEqSpecImpl for Apath {
    open spec fn obeys_eq_spec() -> bool {
        true
    }

    open spec fn eq_spec(&self, other: &Apath) -> bool {
        self@ == other@
    }
}

// ---------------------------------------------------------------------------
// CheckOrder
// ---------------------------------------------------------------------------
/// Watches a stream of apaths and tells whether each comes strictly after
/// the one before.
#[derive(Debug)]
pub struct CheckOrder {
    last_apath: Option<Apath>,
}

impl CheckOrder {
    /// The last apath recorded, if any.
    pub closed spec fn last(&self) -> Option<Seq<char>> {
        match self.last_apath {
            Some(a) => Some(a@),
            None => None,
        }
    }

    /// True if `a` may come next: nothing was recorded yet, or the last
    /// apath sorts strictly before `a`.
    pub open spec fn allows(&self, a: Seq<char>) -> bool {
        match self.last() {
            Some(l) => apath_cmp(l, a) == Ordering::Less,
            None => true,
        }
    }

    /// A checker that has seen nothing.
    pub fn new() -> (r: CheckOrder)
        ensures
            r.last() is None,
    {
        CheckOrder { last_apath: None }
    }

    /// True if `a` may come next.
    pub fn accepts(&self, a: &Apath) -> (r: bool)
        ensures
            r == self.allows(a@),
    {
        match &self.last_apath {
            Some(l) => l.precedes(a),
            None => true,
        }
    }

    /// Record `a`, which must come strictly after the last apath recorded.
    pub fn check(&mut self, a: &Apath)
        requires
            old(self).allows(a@),
        ensures
            final(self).last() == Some(a@),
    {
        self.last_apath = Some(a.duplicate());
    }
}

} // verus!
