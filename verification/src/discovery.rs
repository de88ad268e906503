//! Discovery of `.rl` files: of the entries found under a directory, the
//! request files, in the order of their paths.
//!
//! Walking the directory is I/O and happens at the program's edge; it hands
//! over each entry with its path's components and whether it is a file.

use vstd::prelude::*;


verus! {

broadcast use vstd::seq_lib::group_to_multiset_ensures;

/// A filesystem path.
#[verifier::external_type_specification]
#[verifier::external_body]
pub struct ExPathBuf(std::path::PathBuf);

/// One component of a path. `rank` orders the kinds of component as paths
/// order them: 0 a prefix, 1 the root directory, 2 the current directory,
/// 3 the parent directory, 4 a normal name; `bytes` are its bytes, by which
/// components of one kind are ordered.
#[derive(Debug)]
pub struct PathComponent {
    pub rank: u8,
    pub bytes: Vec<u8>,
}

/// An entry found while walking a directory.
#[derive(Debug)]
pub struct PathEntry {
    pub path: std::path::PathBuf,
    pub components: Vec<PathComponent>,
    pub is_file: bool,
}

/// Strict lexicographic order of byte strings.
pub open spec fn text_lt(a: Seq<u8>, b: Seq<u8>) -> bool
    decreases a.len(),
{
    if a.len() == 0 {
        b.len() > 0
    } else if b.len() == 0 {
        false
    } else if a[0] != b[0] {
        a[0] < b[0]
    } else {
        text_lt(a.drop_first(), b.drop_first())
    }
}

/// Strict order of components: by kind, then by text.
pub open spec fn component_lt(a: (u8, Seq<u8>), b: (u8, Seq<u8>)) -> bool {
    a.0 < b.0 || (a.0 == b.0 && text_lt(a.1, b.1))
}

/// Strict lexicographic order of component lists: the order of paths.
pub open spec fn parts_lt(a: Seq<(u8, Seq<u8>)>, b: Seq<(u8, Seq<u8>)>) -> bool
    decreases a.len(),
{
    if a.len() == 0 {
        b.len() > 0
    } else if b.len() == 0 {
        false
    } else if a[0] != b[0] {
        component_lt(a[0], b[0])
    } else {
        parts_lt(a.drop_first(), b.drop_first())
    }
}

/// The components of an entry's path, as plain values.
pub open spec fn path_key(e: PathEntry) -> Seq<(u8, Seq<u8>)> {
    e.components@.map_values(|c: PathComponent| (c.rank, c.bytes@))
}

/// The entries are in the order of their paths.
pub open spec fn sorted_by_path(s: Seq<PathEntry>) -> bool {
    forall|i: int, j: int| 0 <= i < j < s.len() ==> !parts_lt(path_key(s[j]), path_key(s[i]))
}

/// No two entries have the same path.
pub open spec fn distinct_paths(s: Seq<PathEntry>) -> bool {
    forall|i: int, j: int|
        0 <= i < s.len() && 0 <= j < s.len() && i != j ==> path_key(s[i]) != path_key(s[j])
}

/// The entries are in strictly ascending order of their paths.
pub open spec fn strictly_sorted_by_path(s: Seq<PathEntry>) -> bool {
    forall|i: int, j: int| 0 <= i < j < s.len() ==> parts_lt(path_key(s[i]), path_key(s[j]))
}

/// A file name whose extension is `rl`: it ends in `.rl` with at least one
/// byte before the dot.
pub open spec fn has_rl_extension(name: Seq<u8>) -> bool {
    name.len() >= 4 && name.skip(name.len() - 3) == seq![46u8, 114u8, 108u8]
}

/// A file whose path ends in a normal name with extension `rl`.
pub open spec fn is_rl_file(e: PathEntry) -> bool {
    &&& e.is_file
    &&& e.components@.len() > 0
    &&& e.components@.last().rank == 4
    &&& has_rl_extension(e.components@.last().bytes@)
}

proof fn lemma_text_lt_irreflexive(a: Seq<u8>)
    ensures
        !text_lt(a, a),
    decreases a.len(),
{
    if a.len() > 0 {
        lemma_text_lt_irreflexive(a.drop_first());
    }
}

proof fn lemma_text_lt_transitive(a: Seq<u8>, b: Seq<u8>, c: Seq<u8>)
    requires
        text_lt(a, b),
        text_lt(b, c),
    ensures
        text_lt(a, c),
    decreases a.len(),
{
    if a.len() > 0 && a[0] == b[0] && b[0] == c[0] {
        lemma_text_lt_transitive(a.drop_first(), b.drop_first(), c.drop_first());
    }
}

proof fn lemma_parts_lt_irreflexive(a: Seq<(u8, Seq<u8>)>)
    ensures
        !parts_lt(a, a),
    decreases a.len(),
{
    if a.len() > 0 {
        lemma_parts_lt_irreflexive(a.drop_first());
    }
}

proof fn lemma_component_lt_transitive(a: (u8, Seq<u8>), b: (u8, Seq<u8>), c: (u8, Seq<u8>))
    requires
        component_lt(a, b),
        component_lt(b, c),
    ensures
        component_lt(a, c),
{
    if a.0 == b.0 && b.0 == c.0 {
        lemma_text_lt_transitive(a.1, b.1, c.1);
    }
}

proof fn lemma_component_lt_irreflexive(a: (u8, Seq<u8>))
    ensures
        !component_lt(a, a),
{
    lemma_text_lt_irreflexive(a.1);
}

proof fn lemma_parts_lt_transitive(
    a: Seq<(u8, Seq<u8>)>,
    b: Seq<(u8, Seq<u8>)>,
    c: Seq<(u8, Seq<u8>)>,
)
    requires
        parts_lt(a, b),
        parts_lt(b, c),
    ensures
        parts_lt(a, c),
    decreases a.len(),
{
    if a.len() > 0 {
        if a[0] == b[0] && b[0] == c[0] {
            lemma_parts_lt_transitive(a.drop_first(), b.drop_first(), c.drop_first());
        } else if a[0] != b[0] && b[0] != c[0] {
            lemma_component_lt_transitive(a[0], b[0], c[0]);
            if a[0] == c[0] {
                lemma_component_lt_irreflexive(a[0]);
            }
        }
    }
}

proof fn lemma_component_lt_total(a: (u8, Seq<u8>), b: (u8, Seq<u8>))
    requires
        !component_lt(a, b),
        !component_lt(b, a),
    ensures
        a == b,
{
    lemma_text_lt_total(a.1, b.1);
}

proof fn lemma_parts_lt_total(a: Seq<(u8, Seq<u8>)>, b: Seq<(u8, Seq<u8>)>)
    requires
        !parts_lt(a, b),
        !parts_lt(b, a),
    ensures
        a == b,
    decreases a.len(),
{
    if a.len() > 0 && b.len() > 0 {
        if a[0] == b[0] {
            lemma_parts_lt_total(a.drop_first(), b.drop_first());
            assert(a =~= seq![a[0]] + a.drop_first());
            assert(b =~= seq![b[0]] + b.drop_first());
        } else {
            lemma_component_lt_total(a[0], b[0]);
        }
    } else if a.len() == 0 && b.len() == 0 {
        assert(a =~= b);
    }
}

/// Byte strings are ordered as dictionaries order words: at the first byte
/// where they differ, the smaller byte comes first; a proper prefix comes
/// before the longer string.
pub proof fn lemma_text_lt_is_byte_order(a: Seq<u8>, b: Seq<u8>)
    ensures
        text_lt(a, b) <==> ((exists|k: int|
            0 <= k < a.len() && k < b.len() && a.take(k) == b.take(k) && #[trigger] a[k] < b[k])
            || (a.len() < b.len() && b.take(a.len() as int) == a)),
    decreases a.len(),
{
    if a.len() == 0 {
        assert(b.take(0) =~= a);
    } else if b.len() == 0 {
    } else if a[0] != b[0] {
        if exists|k: int|
            0 <= k < a.len() && k < b.len() && a.take(k) == b.take(k) && #[trigger] a[k] < b[k] {
            let k = choose|k: int|
                0 <= k < a.len() && k < b.len() && a.take(k) == b.take(k) && #[trigger] a[k] < b[k];
            if k > 0 {
                assert(a.take(k)[0] == b.take(k)[0]);
            }
        }
        if a.len() < b.len() && b.take(a.len() as int) == a {
            assert(b.take(a.len() as int)[0] == b[0]);
        }
        if a[0] < b[0] {
            assert(a.take(0) =~= b.take(0));
        }
    } else {
        let a1 = a.drop_first();
        let b1 = b.drop_first();
        lemma_text_lt_is_byte_order(a1, b1);
        if exists|k: int|
            0 <= k < a1.len() && k < b1.len() && a1.take(k) == b1.take(k) && #[trigger] a1[k] < b1[k] {
            let k = choose|k: int|
                0 <= k < a1.len() && k < b1.len() && a1.take(k) == b1.take(k) && #[trigger] a1[k]
                    < b1[k];
            assert(a.take(k + 1) =~= seq![a[0]] + a1.take(k));
            assert(b.take(k + 1) =~= seq![b[0]] + b1.take(k));
            assert(a[k + 1] == a1[k]);
        }
        if exists|k: int|
            0 <= k < a.len() && k < b.len() && a.take(k) == b.take(k) && #[trigger] a[k] < b[k] {
            let k = choose|k: int|
                0 <= k < a.len() && k < b.len() && a.take(k) == b.take(k) && #[trigger] a[k] < b[k];
            assert(k > 0);
            assert(a1.take(k - 1) =~= a.take(k).drop_first());
            assert(b1.take(k - 1) =~= b.take(k).drop_first());
            assert(a1[k - 1] == a[k]);
        }
        if a1.len() < b1.len() && b1.take(a1.len() as int) == a1 {
            assert(b.take(a.len() as int) =~= seq![b[0]] + b1.take(a1.len() as int));
            assert(a =~= seq![a[0]] + a1);
        }
        if a.len() < b.len() && b.take(a.len() as int) == a {
            assert(b1.take(a1.len() as int) =~= b.take(a.len() as int).drop_first());
        }
    }
}

/// Paths are ordered component by component: at the first component where
/// they differ, the one of smaller kind comes first, or, of the same kind,
/// the one whose bytes come first; a proper prefix comes before the longer
/// path.
pub proof fn lemma_parts_lt_is_component_order(a: Seq<(u8, Seq<u8>)>, b: Seq<(u8, Seq<u8>)>)
    ensures
        parts_lt(a, b) <==> ((exists|k: int|
            0 <= k < a.len() && k < b.len() && a.take(k) == b.take(k) && (#[trigger] a[k].0 < b[k].0
                || (a[k].0 == b[k].0 && text_lt(a[k].1, b[k].1))))
            || (a.len() < b.len() && b.take(a.len() as int) == a)),
    decreases a.len(),
{
    if a.len() == 0 {
        assert(b.take(0) =~= a);
    } else if b.len() == 0 {
    } else if a[0] != b[0] {
        if exists|k: int|
            0 <= k < a.len() && k < b.len() && a.take(k) == b.take(k) && (#[trigger] a[k].0 < b[k].0
                || (a[k].0 == b[k].0 && text_lt(a[k].1, b[k].1))) {
            let k = choose|k: int|
                0 <= k < a.len() && k < b.len() && a.take(k) == b.take(k) && (#[trigger] a[k].0
                    < b[k].0 || (a[k].0 == b[k].0 && text_lt(a[k].1, b[k].1)));
            if k > 0 {
                assert(a.take(k)[0] == b.take(k)[0]);
            }
        }
        if a.len() < b.len() && b.take(a.len() as int) == a {
            assert(b.take(a.len() as int)[0] == b[0]);
        }
        if component_lt(a[0], b[0]) {
            assert(a.take(0) =~= b.take(0));
        }
    } else {
        let a1 = a.drop_first();
        let b1 = b.drop_first();
        lemma_parts_lt_is_component_order(a1, b1);
        lemma_text_lt_irreflexive(a[0].1);
        if exists|k: int|
            0 <= k < a1.len() && k < b1.len() && a1.take(k) == b1.take(k) && (#[trigger] a1[k].0
                < b1[k].0 || (a1[k].0 == b1[k].0 && text_lt(a1[k].1, b1[k].1))) {
            let k = choose|k: int|
                0 <= k < a1.len() && k < b1.len() && a1.take(k) == b1.take(k) && (#[trigger] a1[k].0
                    < b1[k].0 || (a1[k].0 == b1[k].0 && text_lt(a1[k].1, b1[k].1)));
            assert(a.take(k + 1) =~= seq![a[0]] + a1.take(k));
            assert(b.take(k + 1) =~= seq![b[0]] + b1.take(k));
            assert(a[k + 1] == a1[k]);
            assert(b[k + 1] == b1[k]);
        }
        if exists|k: int|
            0 <= k < a.len() && k < b.len() && a.take(k) == b.take(k) && (#[trigger] a[k].0 < b[k].0
                || (a[k].0 == b[k].0 && text_lt(a[k].1, b[k].1))) {
            let k = choose|k: int|
                0 <= k < a.len() && k < b.len() && a.take(k) == b.take(k) && (#[trigger] a[k].0
                    < b[k].0 || (a[k].0 == b[k].0 && text_lt(a[k].1, b[k].1)));
            assert(k > 0);
            assert(a1.take(k - 1) =~= a.take(k).drop_first());
            assert(b1.take(k - 1) =~= b.take(k).drop_first());
            assert(a1[k - 1] == a[k]);
            assert(b1[k - 1] == b[k]);
        }
        if a1.len() < b1.len() && b1.take(a1.len() as int) == a1 {
            assert(b.take(a.len() as int) =~= seq![b[0]] + b1.take(a1.len() as int));
            assert(a =~= seq![a[0]] + a1);
        }
        if a.len() < b.len() && b.take(a.len() as int) == a {
            assert(b1.take(a1.len() as int) =~= b.take(a.len() as int).drop_first());
        }
    }
}

/// A file name has extension `rl` exactly when it ends in the bytes `.rl`
/// with at least one byte before them.
pub proof fn lemma_rl_extension_bytes(name: Seq<u8>)
    ensures
        has_rl_extension(name) <==> (name.len() >= 4 && name[name.len() - 3] == 46u8
            && name[name.len() - 2] == 114u8 && name[name.len() - 1] == 108u8),
{
    if name.len() >= 4 {
        let t = name.skip(name.len() - 3);
        if name[name.len() - 3] == 46u8 && name[name.len() - 2] == 114u8 && name[name.len() - 1]
            == 108u8 {
            assert(t =~= seq![46u8, 114u8, 108u8]);
        }
        if t == seq![46u8, 114u8, 108u8] {
            assert(t[0] == name[name.len() - 3]);
            assert(t[1] == name[name.len() - 2]);
            assert(t[2] == name[name.len() - 1]);
        }
    }
}

/// An entry is an `.rl` file exactly when it is a file whose last path
/// component is a normal name of at least four bytes ending in `.rl`.
pub proof fn lemma_rl_file_parts(e: PathEntry)
    ensures
        is_rl_file(e) <==> {
            let n = e.components@.last().bytes@;
            &&& e.is_file
            &&& e.components@.len() > 0
            &&& e.components@.last().rank == 4
            &&& n.len() >= 4
            &&& n[n.len() - 3] == 46u8
            &&& n[n.len() - 2] == 114u8
            &&& n[n.len() - 1] == 108u8
        },
{
    lemma_rl_extension_bytes(e.components@.last().bytes@);
}

/// Whether the bytes `x` come strictly before the bytes `y`.
fn text_less(x: &Vec<u8>, y: &Vec<u8>) -> (r: bool)
    ensures
        r == text_lt(x@, y@),
{
    let mut i: usize = 0;
    assert(x@.skip(0) =~= x@);
    assert(y@.skip(0) =~= y@);
    while i < x.len() && i < y.len() && x[i] == y[i]
        invariant
            i <= x.len(),
            i <= y.len(),
            text_lt(x@, y@) == text_lt(x@.skip(i as int), y@.skip(i as int)),
        decreases x.len() - i,
    {
        assert(x@.skip(i as int).drop_first() =~= x@.skip(i + 1));
        assert(y@.skip(i as int).drop_first() =~= y@.skip(i + 1));
        i = i + 1;
    }
    if i == x.len() {
        i < y.len()
    } else if i == y.len() {
        false
    } else {
        x[i] < y[i]
    }
}

/// Whether the path of `a` comes strictly before the path of `b`.
fn path_less(a: &PathEntry, b: &PathEntry) -> (r: bool)
    ensures
        r == parts_lt(path_key(*a), path_key(*b)),
{
    let ghost ka = path_key(*a);
    let ghost kb = path_key(*b);
    let x = &a.components;
    let y = &b.components;
    let mut i: usize = 0;
    assert(ka.skip(0) =~= ka);
    assert(kb.skip(0) =~= kb);
    while i < x.len() && i < y.len()
        invariant
            ka == path_key(*a),
            kb == path_key(*b),
            x == a.components,
            y == b.components,
            i <= x.len(),
            i <= y.len(),
            parts_lt(ka, kb) == parts_lt(ka.skip(i as int), kb.skip(i as int)),
        decreases x.len() - i,
    {
        let ghost cx = ka[i as int];
        let ghost cy = kb[i as int];
        assert(ka.skip(i as int)[0] == cx);
        assert(kb.skip(i as int)[0] == cy);
        assert(cx == (x[i as int].rank, x[i as int].bytes@));
        assert(cy == (y[i as int].rank, y[i as int].bytes@));
        proof {
            lemma_text_lt_irreflexive(cx.1);
        }
        if x[i].rank != y[i].rank {
            return x[i].rank < y[i].rank;
        }
        if text_less(&x[i].bytes, &y[i].bytes) {
            return true;
        }
        if text_less(&y[i].bytes, &x[i].bytes) {
            return false;
        }
        proof {
            lemma_text_lt_total(cx.1, cy.1);
        }
        assert(ka.skip(i as int).drop_first() =~= ka.skip(i + 1));
        assert(kb.skip(i as int).drop_first() =~= kb.skip(i + 1));
        i = i + 1;
    }
    i < y.len()
}

proof fn lemma_text_lt_total(a: Seq<u8>, b: Seq<u8>)
    requires
        !text_lt(a, b),
        !text_lt(b, a),
    ensures
        a == b,
    decreases a.len(),
{
    if a.len() > 0 && b.len() > 0 && a[0] == b[0] {
        lemma_text_lt_total(a.drop_first(), b.drop_first());
        assert(a =~= seq![a[0]] + a.drop_first());
        assert(b =~= seq![b[0]] + b.drop_first());
    } else if a.len() == 0 && b.len() == 0 {
        assert(a =~= b);
    }
}

/// Whether an entry is an `.rl` file.
fn is_rl_entry(e: &PathEntry) -> (r: bool)
    ensures
        r == is_rl_file(*e),
{
    if !e.is_file || e.components.len() == 0 {
        return false;
    }
    let last = &e.components[e.components.len() - 1];
    if last.rank != 4 {
        return false;
    }
    let cs = &last.bytes;
    let n = cs.len();
    if n < 4 {
        return false;
    }
    let r = cs[n - 3] == 46u8 && cs[n - 2] == 114u8 && cs[n - 1] == 108u8;
    assert(r == (cs@.skip(n - 3) =~= seq![46u8, 114u8, 108u8]));
    r
}

/// Inserts `e` into the sorted list `out`, after the entries whose path does
/// not come after its own.
fn insert_sorted(out: &mut Vec<PathEntry>, e: PathEntry)
    requires
        sorted_by_path(old(out)@),
    ensures
        sorted_by_path(final(out)@),
        final(out)@.to_multiset() == old(out)@.to_multiset().insert(e),
        strictly_sorted_by_path(old(out)@) && (forall|b: int|
            0 <= b < old(out)@.len() ==> path_key(#[trigger] old(out)@[b]) != path_key(e))
            ==> strictly_sorted_by_path(final(out)@),
        forall|a: int|
            0 <= a < final(out)@.len() ==> #[trigger] final(out)@[a] == e || exists|b: int|
                0 <= b < old(out)@.len() && old(out)@[b] == final(out)@[a],
{
    let mut p: usize = 0;
    while p < out.len() && !path_less(&e, &out[p])
        invariant
            p <= out.len(),
            out@ == old(out)@,
            forall|i: int| 0 <= i < p ==> !parts_lt(path_key(e), path_key(#[trigger] out@[i])),
        decreases out.len() - p,
    {
        p = p + 1;
    }
    let ghost s = out@;
    proof {
        vstd::seq_lib::to_multiset_insert(s, p as int, e);
    }
    out.insert(p, e);
    assert forall|i: int, j: int| 0 <= i < j < out@.len() implies !parts_lt(
        path_key(out@[j]),
        path_key(out@[i]),
    ) by {
        if j < p {
            assert(out@[i] == s[i] && out@[j] == s[j]);
        } else if j == p {
            assert(out@[i] == s[i]);
        } else if i > p {
            assert(out@[i] == s[i - 1] && out@[j] == s[j - 1]);
        } else if i == p {
            assert(out@[j] == s[j - 1]);
            assert(parts_lt(path_key(e), path_key(s[p as int])));
            if parts_lt(path_key(s[j - 1]), path_key(e)) {
                lemma_parts_lt_transitive(path_key(s[j - 1]), path_key(e), path_key(s[p as int]));
                if j - 1 == p {
                    lemma_parts_lt_irreflexive(path_key(s[p as int]));
                }
            }
        } else {
            assert(out@[i] == s[i] && out@[j] == s[j - 1]);
        }
    }
    assert forall|a: int| 0 <= a < out@.len() implies #[trigger] out@[a] == e || exists|b: int|
        0 <= b < s.len() && s[b] == out@[a] by {
        if a < p {
            assert(s[a] == out@[a]);
        } else if a > p {
            assert(s[a - 1] == out@[a]);
        }
    }
    proof {
        if strictly_sorted_by_path(s) && (forall|b: int|
            0 <= b < s.len() ==> path_key(#[trigger] s[b]) != path_key(e)) {
            assert forall|i: int, j: int| 0 <= i < j < out@.len() implies parts_lt(
                path_key(out@[i]),
                path_key(out@[j]),
            ) by {
                if j < p {
                    assert(out@[i] == s[i] && out@[j] == s[j]);
                } else if j == p {
                    assert(out@[i] == s[i]);
                    assert(!parts_lt(path_key(e), path_key(s[i])));
                    assert(path_key(s[i]) != path_key(e));
                    if !parts_lt(path_key(s[i]), path_key(e)) {
                        lemma_parts_lt_total(path_key(s[i]), path_key(e));
                    }
                } else if i > p {
                    assert(out@[i] == s[i - 1] && out@[j] == s[j - 1]);
                } else if i == p {
                    assert(out@[j] == s[j - 1]);
                    assert(parts_lt(path_key(e), path_key(s[p as int])));
                    if j - 1 > p {
                        lemma_parts_lt_transitive(path_key(e), path_key(s[p as int]), path_key(s[j - 1]));
                    }
                } else {
                    assert(out@[i] == s[i] && out@[j] == s[j - 1]);
                }
            }
        }
    }
}

/// The `.rl` files among `entries`, in the order of their paths.
pub fn select_rl_files(entries: Vec<PathEntry>) -> (r: Vec<PathEntry>)
    ensures
        sorted_by_path(r@),
        r@.to_multiset() == entries@.filter(|e: PathEntry| is_rl_file(e)).to_multiset(),
        distinct_paths(entries@) ==> strictly_sorted_by_path(r@),
{
    let ghost pred = |e: PathEntry| is_rl_file(e);
    let ghost all = entries@;
    let mut out: Vec<PathEntry> = Vec::new();
    assert(all.take(0) =~= Seq::<PathEntry>::empty());
    assert(Seq::<PathEntry>::empty().filter(pred) =~= Seq::<PathEntry>::empty()) by {
        reveal(Seq::filter);
    }
    for e in it: entries
        invariant
            it.seq() == all,
            pred == (|e: PathEntry| is_rl_file(e)),
            sorted_by_path(out@),
            out@.to_multiset() == all.take(it.index() as int).filter(pred).to_multiset(),
            forall|a: int|
                0 <= a < out@.len() ==> exists|j: int|
                    0 <= j < it.index() && #[trigger] all[j] == #[trigger] out@[a],
            distinct_paths(all) ==> strictly_sorted_by_path(out@),
    {
        let ghost i = it.index() as int;
        proof {
            assert(all.take(i + 1) =~= all.take(i).push(e));
            all.take(i).lemma_filter_push(e, pred);
        }
        assert(pred(e) == is_rl_file(e));
        assert(e == all[i]);
        let ghost before = out@;
        if is_rl_entry(&e) {
            proof {
                if distinct_paths(all) {
                    assert forall|b: int| 0 <= b < before.len() implies path_key(
                        #[trigger] before[b],
                    ) != path_key(e) by {
                        let j = choose|j: int| 0 <= j < i && #[trigger] all[j] == #[trigger] before[b];
                        assert(path_key(all[j]) != path_key(all[i]));
                    }
                }
            }
            insert_sorted(&mut out, e);
            assert forall|a: int| 0 <= a < out@.len() implies exists|j: int|
                0 <= j < i + 1 && #[trigger] all[j] == #[trigger] out@[a] by {
                if out@[a] == e {
                    assert(all[i] == out@[a]);
                } else {
                    let b = choose|b: int| 0 <= b < before.len() && before[b] == out@[a];
                    let j = choose|j: int| 0 <= j < i && #[trigger] all[j] == #[trigger] before[b];
                    assert(all[j] == out@[a]);
                }
            }
        }
    }
    assert(all.take(all.len() as int) =~= all);
    out
}

} // verus!
