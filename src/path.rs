//! Relative paths and their order.
//!
//! A name is the byte string of one path segment; a relative path is the
//! sequence of names from a walk's root. Names are ordered byte-wise and paths
//! segment-wise, both lexicographically.
use vstd::prelude::*;

verus! {

/// The name of one path segment, as bytes.
pub type Name = Vec<u8>;

/// A path relative to a walk's root, as its segments.
pub type RelPath = Vec<Vec<u8>>;

/// The segments of a path as byte sequences.
pub open spec fn path_view(p: Seq<Vec<u8>>) -> Seq<Seq<u8>> {
    Seq::new(p.len(), |i: int| p[i]@)
}

/// Lexicographic strict order on byte strings.
pub open spec fn name_lt(a: Seq<u8>, b: Seq<u8>) -> bool
    decreases a.len(),
{
    if b.len() == 0 {
        false
    } else if a.len() == 0 {
        true
    } else if a[0] != b[0] {
        a[0] < b[0]
    } else {
        name_lt(a.drop_first(), b.drop_first())
    }
}

/// Segment-wise lexicographic strict order on relative paths.
pub open spec fn path_lt(a: Seq<Seq<u8>>, b: Seq<Seq<u8>>) -> bool
    decreases a.len(),
{
    if b.len() == 0 {
        false
    } else if a.len() == 0 {
        true
    } else if a[0] != b[0] {
        name_lt(a[0], b[0])
    } else {
        path_lt(a.drop_first(), b.drop_first())
    }
}

/// Names in strictly ascending order (so without repetition).
pub open spec fn names_ascending(s: Seq<Seq<u8>>) -> bool {
    forall|i: int, j: int| 0 <= i < j < s.len() ==> name_lt(#[trigger] s[i], #[trigger] s[j])
}

/// Paths in strictly ascending order (so without repetition).
pub open spec fn paths_ascending(s: Seq<Seq<Seq<u8>>>) -> bool {
    forall|i: int, j: int| 0 <= i < j < s.len() ==> path_lt(#[trigger] s[i], #[trigger] s[j])
}

/// `q` is `p` extended by at least one segment.
pub open spec fn strictly_below(p: Seq<Seq<u8>>, q: Seq<Seq<u8>>) -> bool {
    p.len() < q.len() && p.is_prefix_of(q)
}

/// The same path with one more segment at its end.
pub open spec fn child_of(p: Seq<Seq<u8>>, n: Seq<u8>) -> Seq<Seq<u8>> {
    p.push(n)
}

/// A name is hidden when it starts with a dot.
pub open spec fn hidden_name(n: Seq<u8>) -> bool {
    n.len() > 0 && n[0] == 46u8
}

pub proof fn lemma_name_lt_irreflexive(a: Seq<u8>)
    ensures
        !name_lt(a, a),
    decreases a.len(),
{
    if a.len() > 0 {
        lemma_name_lt_irreflexive(a.drop_first());
    }
}

pub proof fn lemma_name_lt_transitive(a: Seq<u8>, b: Seq<u8>, c: Seq<u8>)
    requires
        name_lt(a, b),
        name_lt(b, c),
    ensures
        name_lt(a, c),
    decreases a.len(),
{
    if a.len() > 0 && a[0] == b[0] && b[0] == c[0] {
        lemma_name_lt_transitive(a.drop_first(), b.drop_first(), c.drop_first());
    }
}

pub proof fn lemma_name_lt_total(a: Seq<u8>, b: Seq<u8>)
    ensures
        name_lt(a, b) || name_lt(b, a) || a == b,
    decreases a.len(),
{
    if a.len() > 0 && b.len() > 0 && a[0] == b[0] {
        lemma_name_lt_total(a.drop_first(), b.drop_first());
        if a.drop_first() == b.drop_first() {
            assert(a =~= seq![a[0]] + a.drop_first());
            assert(b =~= seq![b[0]] + b.drop_first());
        }
    } else if a.len() == 0 && b.len() == 0 {
        assert(a =~= b);
    }
}

pub proof fn lemma_name_lt_asymmetric(a: Seq<u8>, b: Seq<u8>)
    requires
        name_lt(a, b),
    ensures
        !name_lt(b, a),
        a != b,
{
    lemma_name_lt_irreflexive(a);
    if name_lt(b, a) {
        lemma_name_lt_transitive(a, b, a);
    }
}

pub proof fn lemma_path_lt_irreflexive(a: Seq<Seq<u8>>)
    ensures
        !path_lt(a, a),
    decreases a.len(),
{
    if a.len() > 0 {
        lemma_path_lt_irreflexive(a.drop_first());
    }
}

pub proof fn lemma_path_lt_transitive(a: Seq<Seq<u8>>, b: Seq<Seq<u8>>, c: Seq<Seq<u8>>)
    requires
        path_lt(a, b),
        path_lt(b, c),
    ensures
        path_lt(a, c),
    decreases a.len(),
{
    if a.len() > 0 && b.len() > 0 && c.len() > 0 {
        if a[0] == b[0] && b[0] == c[0] {
            lemma_path_lt_transitive(a.drop_first(), b.drop_first(), c.drop_first());
        } else if a[0] != b[0] && b[0] != c[0] {
            lemma_name_lt_transitive(a[0], b[0], c[0]);
            lemma_name_lt_irreflexive(a[0]);
        }
    }
}

pub proof fn lemma_path_lt_total(a: Seq<Seq<u8>>, b: Seq<Seq<u8>>)
    ensures
        path_lt(a, b) || path_lt(b, a) || a == b,
    decreases a.len(),
{
    if a.len() > 0 && b.len() > 0 {
        if a[0] == b[0] {
            lemma_path_lt_total(a.drop_first(), b.drop_first());
            if a.drop_first() == b.drop_first() {
                assert(a =~= seq![a[0]] + a.drop_first());
                assert(b =~= seq![b[0]] + b.drop_first());
            }
        } else {
            lemma_name_lt_total(a[0], b[0]);
        }
    } else if a.len() == 0 && b.len() == 0 {
        assert(a =~= b);
    }
}

pub proof fn lemma_path_lt_asymmetric(a: Seq<Seq<u8>>, b: Seq<Seq<u8>>)
    requires
        path_lt(a, b),
    ensures
        !path_lt(b, a),
        a != b,
{
    lemma_path_lt_irreflexive(a);
    if path_lt(b, a) {
        lemma_path_lt_transitive(a, b, a);
    }
}

/// Appending a path that follows the last one keeps a sequence ascending.
pub proof fn lemma_ascending_push(emitted: Seq<Seq<Seq<u8>>>, p: Seq<Seq<u8>>)
    requires
        paths_ascending(emitted),
        emitted.len() > 0 ==> path_lt(emitted.last(), p),
    ensures
        paths_ascending(emitted.push(p)),
{
    let e2 = emitted.push(p);
    assert forall|i: int, j: int| 0 <= i < j < e2.len() implies path_lt(
        #[trigger] e2[i],
        #[trigger] e2[j],
    ) by {
        if j == e2.len() - 1 {
            if i < emitted.len() - 1 {
                assert(path_lt(emitted[i], emitted[emitted.len() - 1]));
                lemma_path_lt_transitive(emitted[i], emitted.last(), p);
            }
        } else {
            assert(e2[i] == emitted[i] && e2[j] == emitted[j]);
        }
    }
}

/// A path comes before every path below it.
pub proof fn lemma_below_is_after(p: Seq<Seq<u8>>, q: Seq<Seq<u8>>)
    requires
        strictly_below(p, q),
    ensures
        path_lt(p, q),
    decreases p.len(),
{
    if p.len() > 0 {
        assert(p[0] == q[0]);
        assert(strictly_below(p.drop_first(), q.drop_first())) by {
            assert(p.drop_first() =~= q.drop_first().subrange(0, p.len() - 1));
        }
        lemma_below_is_after(p.drop_first(), q.drop_first());
    }
}

/// Paths at or below two siblings are ordered as the siblings' names.
pub proof fn lemma_sibling_order(
    d: Seq<Seq<u8>>,
    x: Seq<u8>,
    y: Seq<u8>,
    a: Seq<Seq<u8>>,
    b: Seq<Seq<u8>>,
)
    requires
        name_lt(x, y),
        d.push(x).is_prefix_of(a),
        d.push(y).is_prefix_of(b),
    ensures
        path_lt(a, b),
    decreases d.len(),
{
    lemma_name_lt_irreflexive(x);
    if d.len() == 0 {
        assert(a[0] == d.push(x)[0]);
        assert(b[0] == d.push(y)[0]);
    } else {
        assert(a[0] == d.push(x)[0]);
        assert(b[0] == d.push(y)[0]);
        let d2 = d.drop_first();
        assert(d2.push(x) =~= d.push(x).drop_first());
        assert(d2.push(y) =~= d.push(y).drop_first());
        assert(d2.push(x).is_prefix_of(a.drop_first())) by {
            assert(d2.push(x) =~= a.drop_first().subrange(0, d2.push(x).len() as int));
        }
        assert(d2.push(y).is_prefix_of(b.drop_first())) by {
            assert(d2.push(y) =~= b.drop_first().subrange(0, d2.push(y).len() as int));
        }
        lemma_sibling_order(d2, x, y, a.drop_first(), b.drop_first());
    }
}


/// Compare two names byte-wise.
pub fn compare_names(a: &Name, b: &Name) -> (r: core::cmp::Ordering)
    ensures
        (r == core::cmp::Ordering::Less) == name_lt(a@, b@),
        (r == core::cmp::Ordering::Equal) == (a@ == b@),
        (r == core::cmp::Ordering::Greater) == name_lt(b@, a@),
{
    let mut i: usize = 0;
    assert(a@.skip(0) =~= a@);
    assert(b@.skip(0) =~= b@);
    while i < a.len() && i < b.len() && a[i] == b[i]
        invariant
            i <= a.len(),
            i <= b.len(),
            a@.subrange(0, i as int) == b@.subrange(0, i as int),
            name_lt(a@, b@) == name_lt(a@.skip(i as int), b@.skip(i as int)),
            name_lt(b@, a@) == name_lt(b@.skip(i as int), a@.skip(i as int)),
        decreases a.len() - i,
    {
        assert(a@.skip(i as int).drop_first() =~= a@.skip(i + 1));
        assert(b@.skip(i as int).drop_first() =~= b@.skip(i + 1));
        assert(a@.subrange(0, i + 1) =~= a@.subrange(0, i as int).push(a@[i as int]));
        assert(b@.subrange(0, i + 1) =~= b@.subrange(0, i as int).push(b@[i as int]));
        i = i + 1;
    }
    proof {
        lemma_name_lt_asymmetric_or_equal(a@, b@);
    }
    if i < a.len() && i < b.len() {
        if a[i] < b[i] {
            core::cmp::Ordering::Less
        } else {
            core::cmp::Ordering::Greater
        }
    } else if i < b.len() {
        assert(a@ =~= a@.subrange(0, i as int));
        core::cmp::Ordering::Less
    } else if i < a.len() {
        assert(b@ =~= b@.subrange(0, i as int));
        core::cmp::Ordering::Greater
    } else {
        assert(a@ =~= a@.subrange(0, i as int));
        assert(b@ =~= b@.subrange(0, i as int));
        core::cmp::Ordering::Equal
    }
}

proof fn lemma_name_lt_asymmetric_or_equal(a: Seq<u8>, b: Seq<u8>)
    ensures
        name_lt(a, b) ==> !name_lt(b, a) && a != b,
        a == b ==> !name_lt(a, b),
{
    if name_lt(a, b) {
        lemma_name_lt_asymmetric(a, b);
    }
    lemma_name_lt_irreflexive(a);
}


/// Compare two relative paths segment by segment.
pub fn compare_paths(a: &RelPath, b: &RelPath) -> (r: core::cmp::Ordering)
    ensures
        (r == core::cmp::Ordering::Less) == path_lt(path_view(a@), path_view(b@)),
        (r == core::cmp::Ordering::Equal) == (path_view(a@) == path_view(b@)),
        (r == core::cmp::Ordering::Greater) == path_lt(path_view(b@), path_view(a@)),
{
    let ghost av = path_view(a@);
    let ghost bv = path_view(b@);
    let mut i: usize = 0;
    assert(av.skip(0) =~= av);
    assert(bv.skip(0) =~= bv);
    proof {
        lemma_path_lt_asymmetric_or_equal(av, bv);
    }
    while i < a.len() && i < b.len()
        invariant
            i <= a.len(),
            i <= b.len(),
            av == path_view(a@),
            bv == path_view(b@),
            av.subrange(0, i as int) == bv.subrange(0, i as int),
            path_lt(av, bv) == path_lt(av.skip(i as int), bv.skip(i as int)),
            path_lt(bv, av) == path_lt(bv.skip(i as int), av.skip(i as int)),
        decreases a.len() - i,
    {
        let c = compare_names(&a[i], &b[i]);
        match c {
            core::cmp::Ordering::Equal => {},
            _ => {
                return c;
            },
        }
        assert(av.skip(i as int).drop_first() =~= av.skip(i + 1));
        assert(bv.skip(i as int).drop_first() =~= bv.skip(i + 1));
        assert(av.subrange(0, i + 1) =~= av.subrange(0, i as int).push(av[i as int]));
        assert(bv.subrange(0, i + 1) =~= bv.subrange(0, i as int).push(bv[i as int]));
        i = i + 1;
    }
    if i < b.len() {
        assert(av =~= av.subrange(0, i as int));
        core::cmp::Ordering::Less
    } else if i < a.len() {
        assert(bv =~= bv.subrange(0, i as int));
        core::cmp::Ordering::Greater
    } else {
        assert(av =~= av.subrange(0, i as int));
        assert(bv =~= bv.subrange(0, i as int));
        core::cmp::Ordering::Equal
    }
}

pub proof fn lemma_path_lt_asymmetric_or_equal(a: Seq<Seq<u8>>, b: Seq<Seq<u8>>)
    ensures
        path_lt(a, b) ==> !path_lt(b, a) && a != b,
        a == b ==> !path_lt(a, b),
{
    if path_lt(a, b) {
        lemma_path_lt_asymmetric(a, b);
    }
    lemma_path_lt_irreflexive(a);
}

/// A copy of a name.
pub fn copy_name(n: &Name) -> (r: Name)
    ensures
        r@ == n@,
{
    let mut r: Vec<u8> = Vec::new();
    let mut i: usize = 0;
    while i < n.len()
        invariant
            i <= n.len(),
            r@ == n@.subrange(0, i as int),
        decreases n.len() - i,
    {
        r.push(n[i]);
        i = i + 1;
    }
    assert(r@ =~= n@);
    r
}

/// A copy of a relative path.
pub fn copy_path(p: &RelPath) -> (r: RelPath)
    ensures
        path_view(r@) == path_view(p@),
{
    let mut r: Vec<Vec<u8>> = Vec::new();
    let mut i: usize = 0;
    while i < p.len()
        invariant
            i <= p.len(),
            r@.len() == i,
            forall|j: int| 0 <= j < i ==> (#[trigger] r@[j])@ == p@[j]@,
        decreases p.len() - i,
    {
        let n = copy_name(&p[i]);
        r.push(n);
        i = i + 1;
    }
    assert(path_view(r@) =~= path_view(p@));
    r
}

/// The path of a child of `dir` called `name`.
pub fn child_path(dir: &RelPath, name: &Name) -> (r: RelPath)
    ensures
        path_view(r@) == child_of(path_view(dir@), name@),
{
    let mut r = copy_path(dir);
    let n = copy_name(name);
    r.push(n);
    assert(path_view(r@) =~= child_of(path_view(dir@), name@));
    r
}

/// Whether a name is hidden: on this platform, whether it starts with a dot.
pub fn is_hidden(name: &Name) -> (r: bool)
    ensures
        r == hidden_name(name@),
{
    name.len() > 0 && name[0] == 46u8
}

/// The first position in `r` whose name is not below `n`, and whether there is
/// one.
fn find_slot(r: &Vec<Name>, n: &Name) -> (res: (usize, bool))
    ensures
        res.0 <= r.len(),
        forall|j: int| 0 <= j < res.0 ==> name_lt(#[trigger] r@[j]@, n@),
        res.1 == (res.0 < r.len()),
        res.1 ==> !name_lt(r@[res.0 as int]@, n@),
{
    let mut k: usize = 0;
    while k < r.len()
        invariant
            k <= r.len(),
            forall|j: int| 0 <= j < k ==> name_lt(#[trigger] r@[j]@, n@),
        decreases r.len() - k,
    {
        match compare_names(&r[k], n) {
            core::cmp::Ordering::Less => {
                k = k + 1;
            },
            _ => {
                return (k, true);
            },
        }
    }
    (k, false)
}

/// The names that a walk visits in a listed directory, in ascending order,
/// each once; hidden names are left out unless `include_hidden` is set.
pub fn sorted_children(names: Vec<Name>, include_hidden: bool) -> (r: Vec<Name>)
    ensures
        names_ascending(path_view(r@)),
        forall|n: Seq<u8>|
            #[trigger] path_view(r@).contains(n) <==> (path_view(names@).contains(n) && (
            include_hidden || !hidden_name(n))),
{
    let mut r: Vec<Vec<u8>> = Vec::new();
    let mut i: usize = 0;
    while i < names.len()
        invariant
            i <= names.len(),
            names_ascending(path_view(r@)),
            forall|x: Seq<u8>|
                #![trigger path_view(r@).contains(x)]
                #![trigger path_view(names@).subrange(0, i as int).contains(x)]
                path_view(r@).contains(x) <==> (path_view(names@).subrange(0, i as int).contains(
                    x,
                ) && (include_hidden || !hidden_name(x))),
        decreases names.len() - i,
    {
        let ghost before = path_view(r@);
        let ghost seen = path_view(names@).subrange(0, i as int);
        assert(path_view(names@).subrange(0, i + 1) =~= seen.push(names@[i as int]@));
        if include_hidden || !is_hidden(&names[i]) {
            let n = copy_name(&names[i]);
            let (k, found) = find_slot(&r, &n);
            let same = found && match compare_names(&r[k], &n) {
                core::cmp::Ordering::Equal => true,
                _ => false,
            };
            if same {
                assert(before.contains(n@)) by {
                    assert(before[k as int] == r@[k as int]@);
                }
            } else {
                proof {
                    if found {
                        lemma_name_lt_total(before[k as int], n@);
                    }
                }
                r.insert(k, n);
                let ghost after = path_view(r@);
                assert(after =~= before.subrange(0, k as int).push(n@) + before.subrange(
                    k as int,
                    before.len() as int,
                ));
                assert forall|a: int, b: int| 0 <= a < b < after.len() implies name_lt(
                    #[trigger] after[a],
                    #[trigger] after[b],
                ) by {
                    if b < k {
                    } else if a < k && b == k {
                    } else if a < k {
                        assert(after[b] == before[b - 1]);
                    } else if a == k {
                        assert(after[b] == before[b - 1]);
                        if b - 1 > k {
                            lemma_name_lt_transitive(n@, before[k as int], before[b - 1]);
                        }
                    } else {
                        assert(after[a] == before[a - 1]);
                        assert(after[b] == before[b - 1]);
                    }
                }
                assert forall|m: Seq<u8>| after.contains(m) <==> (before.contains(m) || m == n@) by {
                    if after.contains(m) {
                        let j = choose|j: int| 0 <= j < after.len() && after[j] == m;
                        if j < k {
                            assert(before[j] == m);
                        } else if j > k {
                            assert(before[j - 1] == m);
                        }
                    }
                    if before.contains(m) {
                        let j = choose|j: int| 0 <= j < before.len() && before[j] == m;
                        if j < k {
                            assert(after[j] == m);
                        } else {
                            assert(after[j + 1] == m);
                        }
                    }
                    if m == n@ {
                        assert(after[k as int] == m);
                    }
                }
            }
        }
        let ghost cur = names@[i as int]@;
        assert(path_view(names@)[i as int] == cur);
        assert forall|m: Seq<u8>| path_view(r@).contains(m) <==> (before.contains(m) || (m == cur
            && (include_hidden || !hidden_name(m)))) by {
            if m == cur && (include_hidden || !hidden_name(m)) {
                assert(path_view(r@).contains(m));
            }
        }
        i = i + 1;
        let ghost now = path_view(names@).subrange(0, i as int);
        assert(now =~= seen.push(cur));
        assert forall|m: Seq<u8>|
            #[trigger] path_view(r@).contains(m) <==> (path_view(names@).subrange(
                0,
                i as int,
            ).contains(m) && (include_hidden || !hidden_name(m))) by {
            assert(before.contains(m) <==> (seen.contains(m) && (include_hidden || !hidden_name(
                m,
            ))));
            if now.contains(m) {
                let j = choose|j: int| 0 <= j < now.len() && now[j] == m;
                if j < i - 1 {
                    assert(seen[j] == m);
                } else {
                    assert(m == cur);
                }
            }
            if seen.contains(m) {
                let j = choose|j: int| 0 <= j < seen.len() && seen[j] == m;
                assert(now[j] == m);
            }
            if m == cur {
                assert(now[i - 1] == m);
            }
        }
    }
    assert(path_view(names@).subrange(0, names.len() as int) =~= path_view(names@));
    r
}

} // verus!
