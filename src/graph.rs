//! A snapshot of the package graph, and the breadth-first walk over the
//! dependency edges that matter for configuration.
use vstd::prelude::*;
use vstd::set_lib::{lemma_int_range, lemma_len_subset, set_int_range};
use crate::config::ConfigValue;

verus! {

/// The kind of a dependency edge.
#[derive(Debug, Clone, Copy, PartialEq, Eq, Structural)]
pub enum DependencyKind {
    Normal,
    Build,
    Other,
}

/// A dependency of a package, by the name of the package it refers to.
#[derive(Debug)]
pub struct Dependency {
    pub name: String,
    pub kind: DependencyKind,
}

/// One package of the graph.
#[derive(Debug)]
pub struct Package {
    pub name: String,
    /// The package's metadata table.
    pub metadata: ConfigValue,
    pub dependencies: Vec<Dependency>,
}

/// The whole package graph: its packages, the root package if there is one,
/// the workspace members that stand for it otherwise, and the metadata of
/// the workspace itself. Packages are referred to by position.
#[derive(Debug)]
pub struct Metadata {
    pub packages: Vec<Package>,
    pub root: Option<usize>,
    pub workspace_members: Vec<usize>,
    pub workspace_metadata: ConfigValue,
}

/// Whether an edge of this kind is followed by the walk.
pub open spec fn followed(k: DependencyKind) -> bool {
    k == DependencyKind::Normal || k == DependencyKind::Build
}

impl Metadata {
    /// The packages the walk starts from.
    pub open spec fn roots(&self) -> Seq<usize> {
        match self.root {
            Some(r) => seq![r],
            None => self.workspace_members@,
        }
    }

    pub open spec fn wf(&self) -> bool {
        forall|i: int|
            0 <= i < self.roots().len() ==> (#[trigger] self.roots()[i] as int)
                < self.packages@.len()
    }

    pub open spec fn name_of(&self, p: int) -> Seq<char> {
        self.packages@[p].name@
    }

    pub open spec fn deps_of(&self, p: int) -> Seq<Dependency> {
        self.packages@[p].dependencies@
    }

    /// Whether `p` is the first package named `name`.
    pub open spec fn is_first_named(&self, name: Seq<char>, p: int) -> bool {
        &&& 0 <= p < self.packages@.len()
        &&& self.name_of(p) == name
        &&& forall|q: int| 0 <= q < p ==> self.name_of(q) != name
    }

    /// Whether some package is named `name`.
    pub open spec fn has_package(&self, name: Seq<char>) -> bool {
        exists|q: int| 0 <= q < self.packages@.len() && self.name_of(q) == name
    }

    /// Whether some package of `order` is named `name`.
    pub open spec fn visits_name(&self, order: Seq<usize>, name: Seq<char>) -> bool {
        exists|i: int| 0 <= i < order.len() && self.name_of(order[i] as int) == name
    }

    /// Whether edge `d` of package `order[j]` is followed and names `name`.
    pub open spec fn claims(&self, order: Seq<usize>, j: int, d: int, name: Seq<char>) -> bool {
        &&& 0 <= j < order.len()
        &&& 0 <= d < self.deps_of(order[j] as int).len()
        &&& followed(self.deps_of(order[j] as int)[d].kind)
        &&& self.deps_of(order[j] as int)[d].name@ == name
    }

    /// Whether edge `d` of `order[j]` is the first edge, in the order in
    /// which the walk looks at them, that claims `name`.
    pub open spec fn is_first_claim(&self, order: Seq<usize>, name: Seq<char>, j: int, d: int) -> bool {
        &&& self.claims(order, j, d, name)
        &&& forall|j2: int, d2: int|
            (j2 < j || (j2 == j && d2 < d)) ==> !#[trigger] self.claims(order, j2, d2, name)
    }

    /// Whether `order[i]` is the first package named as the first edge of an
    /// earlier package of `order` that claims its name says.
    pub open spec fn discovered(&self, order: Seq<usize>, i: int) -> bool {
        exists|j: int, d: int|
            0 <= j < i && #[trigger] self.is_first_claim(order, self.name_of(order[i] as int), j, d)
                && self.is_first_named(self.name_of(order[i] as int), order[i] as int)
    }

    /// Whether `order` is the order in which a breadth-first walk visits the
    /// graph: the roots first; then each package at most once, each one the
    /// first package of the name that a followed edge of a package before it
    /// names, in the order of the first edges that name them; and every
    /// package that a followed edge of a visited package names is visited.
    pub open spec fn is_walk_order(&self, order: Seq<usize>) -> bool {
        let r = self.roots().len();
        &&& r <= order.len()
        &&& order.subrange(0, r as int) == self.roots()
        &&& forall|i: int| 0 <= i < order.len() ==> (#[trigger] order[i] as int) < self.packages@.len()
        &&& forall|i: int, j: int|
            r <= i < order.len() && 0 <= j < i ==> self.name_of(#[trigger] order[i] as int)
                != self.name_of(#[trigger] order[j] as int)
        &&& forall|i: int| r <= i < order.len() ==> #[trigger] self.discovered(order, i)
        &&& forall|i: int, i2: int, j: int, d: int, j2: int, d2: int|
            r <= i < i2 < order.len() && #[trigger] self.is_first_claim(
                order,
                self.name_of(order[i] as int),
                j,
                d,
            ) && #[trigger] self.is_first_claim(order, self.name_of(order[i2] as int), j2, d2) ==> (j
                < j2 || (j == j2 && d < d2))
        &&& forall|j: int, d: int|
            0 <= j < order.len() && 0 <= d < self.deps_of(order[j] as int).len() && followed(
                #[trigger] self.deps_of(order[j] as int)[d].kind,
            ) && self.has_package(self.deps_of(order[j] as int)[d].name@) ==> self.visits_name(
                order,
                self.deps_of(order[j] as int)[d].name@,
            )
    }
}

proof fn lemma_first_claim_prefix(
    m: &Metadata,
    o1: Seq<usize>,
    o2: Seq<usize>,
    k: int,
    n: Seq<char>,
    j: int,
    d: int,
)
    requires
        0 <= j < k <= o1.len(),
        k <= o2.len(),
        o1.subrange(0, k) == o2.subrange(0, k),
        m.is_first_claim(o1, n, j, d),
    ensures
        m.is_first_claim(o2, n, j, d),
{
    assert(o1[j] == o1.subrange(0, k)[j]);
    assert(o2[j] == o2.subrange(0, k)[j]);
    assert forall|j2: int, d2: int| (j2 < j || (j2 == j && d2 < d)) implies !#[trigger] m.claims(
        o2,
        j2,
        d2,
        n,
    ) by {
        if 0 <= j2 {
            assert(o1[j2] == o1.subrange(0, k)[j2]);
            assert(o2[j2] == o2.subrange(0, k)[j2]);
            assert(!m.claims(o1, j2, d2, n));
        }
    }
}

proof fn lemma_first_named_unique(m: &Metadata, name: Seq<char>, p: int, q: int)
    requires
        m.is_first_named(name, p),
        m.is_first_named(name, q),
    ensures
        p == q,
{
    if p < q {
        assert(m.name_of(p) != name);
    } else if q < p {
        assert(m.name_of(q) != name);
    }
}

/// Two walk orders that agree before position `k` agree at `k` too.
proof fn lemma_walk_step(m: &Metadata, o1: Seq<usize>, o2: Seq<usize>, k: int)
    requires
        m.is_walk_order(o1),
        m.is_walk_order(o2),
        m.roots().len() <= k < o1.len(),
        k <= o2.len(),
        o1.subrange(0, k) == o2.subrange(0, k),
    ensures
        k < o2.len(),
        o2[k] == o1[k],
{
    let r = m.roots().len() as int;
    let n1 = m.name_of(o1[k] as int);
    assert(m.discovered(o1, k));
    let (j, d) = choose|j: int, d: int|
        0 <= j < k && #[trigger] m.is_first_claim(o1, m.name_of(o1[k] as int), j, d)
            && m.is_first_named(m.name_of(o1[k] as int), o1[k] as int);
    lemma_first_claim_prefix(m, o1, o2, k, n1, j, d);
    assert(followed(m.deps_of(o2[j] as int)[d].kind));
    assert(m.has_package(n1));
    assert(m.visits_name(o2, n1));
    let p = choose|p: int| 0 <= p < o2.len() && m.name_of(o2[p] as int) == n1;
    if p < k {
        assert(o1[p] == o1.subrange(0, k)[p]);
        assert(o2[p] == o2.subrange(0, k)[p]);
        assert(m.name_of(o1[k] as int) != m.name_of(o1[p] as int));
    }
    assert(k < o2.len());
    let n2 = m.name_of(o2[k] as int);
    assert(m.discovered(o2, k));
    let (j2, d2) = choose|j2: int, d2: int|
        0 <= j2 < k && #[trigger] m.is_first_claim(o2, m.name_of(o2[k] as int), j2, d2)
            && m.is_first_named(m.name_of(o2[k] as int), o2[k] as int);
    if p == k {
        lemma_first_named_unique(m, n1, o1[k] as int, o2[k] as int);
    } else {
        lemma_first_claim_prefix(m, o2, o1, k, n2, j2, d2);
        assert(followed(m.deps_of(o1[j2] as int)[d2].kind));
        assert(m.has_package(n2));
        assert(m.visits_name(o1, n2));
        let pos2 = choose|pos2: int| 0 <= pos2 < o1.len() && m.name_of(o1[pos2] as int) == n2;
        if pos2 < k {
            assert(o1[pos2] == o1.subrange(0, k)[pos2]);
            assert(o2[pos2] == o2.subrange(0, k)[pos2]);
            assert(m.name_of(o2[k] as int) != m.name_of(o2[pos2] as int));
        } else if pos2 == k {
            assert(m.name_of(o2[p] as int) != m.name_of(o2[k] as int));
        } else {
            assert(m.is_first_claim(o1, m.name_of(o1[pos2] as int), j2, d2));
            assert(m.is_first_claim(o2, m.name_of(o2[p] as int), j, d));
            assert(j < j2 || (j == j2 && d < d2));
            assert(j2 < j || (j2 == j && d2 < d));
        }
    }
}

proof fn lemma_walk_agree(m: &Metadata, o1: Seq<usize>, o2: Seq<usize>, k: int)
    requires
        m.is_walk_order(o1),
        m.is_walk_order(o2),
        0 <= k <= o1.len(),
        k <= o2.len(),
    ensures
        o1.subrange(0, k) == o2.subrange(0, k),
    decreases k,
{
    let r = m.roots().len() as int;
    if k > 0 {
        lemma_walk_agree(m, o1, o2, k - 1);
        if k - 1 < r {
            assert(o1[k - 1] == o1.subrange(0, r)[k - 1]);
            assert(o2[k - 1] == o2.subrange(0, r)[k - 1]);
        } else {
            lemma_walk_step(m, o1, o2, k - 1);
        }
        assert(o1.subrange(0, k) =~= o1.subrange(0, k - 1).push(o1[k - 1]));
        assert(o2.subrange(0, k) =~= o2.subrange(0, k - 1).push(o2[k - 1]));
    }
}

/// A graph has a single walk order.
pub proof fn lemma_walk_order_unique(m: &Metadata, o1: Seq<usize>, o2: Seq<usize>)
    requires
        m.is_walk_order(o1),
        m.is_walk_order(o2),
    ensures
        o1 == o2,
{
    if o1.len() <= o2.len() {
        lemma_walk_agree(m, o1, o2, o1.len() as int);
        if o1.len() < o2.len() {
            lemma_walk_step(m, o2, o1, o1.len() as int);
        }
        assert(o1.subrange(0, o1.len() as int) =~= o1);
        assert(o2.subrange(0, o2.len() as int) =~= o2);
    } else {
        lemma_walk_agree(m, o1, o2, o2.len() as int);
        lemma_walk_step(m, o1, o2, o2.len() as int);
    }
}

impl Metadata {
    /// The order in which the walk visits the graph: the single order for
    /// which `is_walk_order` holds.
    pub open spec fn walk_order(&self) -> Seq<usize> {
        choose|o: Seq<usize>| self.is_walk_order(o)
    }
}

/// Any walk order is the walk order.
pub proof fn lemma_walk_order(m: &Metadata, o: Seq<usize>)
    requires
        m.is_walk_order(o),
    ensures
        m.walk_order() == o,
{
    lemma_walk_order_unique(m, o, m.walk_order());
}

/// Whether the names `seen` hold `name`.
pub open spec fn holds_name(seen: Seq<String>, name: Seq<char>) -> bool {
    exists|k: int| 0 <= k < seen.len() && seen[k]@ == name
}

fn contains_name(seen: &Vec<String>, name: &String) -> (r: bool)
    ensures
        r == holds_name(seen@, name@),
{
    let mut k: usize = 0;
    while k < seen.len()
        invariant
            k <= seen@.len(),
            forall|j: int| 0 <= j < k ==> seen@[j]@ != name@,
        decreases seen.len() - k,
    {
        if seen[k] == *name {
            return true;
        }
        k = k + 1;
    }
    false
}

/// The first package named `name`.
fn find_package(m: &Metadata, name: &String) -> (r: Option<usize>)
    ensures
        match r {
            Some(p) => m.is_first_named(name@, p as int),
            None => !m.has_package(name@),
        },
{
    let mut q: usize = 0;
    while q < m.packages.len()
        invariant
            q <= m.packages@.len(),
            forall|j: int| 0 <= j < q ==> m.name_of(j) != name@,
        decreases m.packages.len() - q,
    {
        if m.packages[q].name == *name {
            return Some(q);
        }
        q = q + 1;
    }
    None
}

proof fn lemma_distinct_bound(s: Seq<usize>, n: int)
    requires
        0 <= n,
        s.no_duplicates(),
        forall|i: int| 0 <= i < s.len() ==> (#[trigger] s[i] as int) < n,
    ensures
        s.len() <= n,
{
    let t = s.map_values(|x: usize| x as int);
    assert(t.no_duplicates()) by {
        assert forall|i: int, j: int| 0 <= i < t.len() && 0 <= j < t.len() && i != j implies t[i]
            != t[j] by {
            assert(s[i] != s[j]);
        }
    }
    t.unique_seq_to_set();
    lemma_int_range(0, n);
    assert(t.to_set().subset_of(set_int_range(0, n))) by {
        assert forall|x: int| t.to_set().contains(x) implies set_int_range(0, n).contains(x) by {
            let i = choose|i: int| 0 <= i < t.len() && t[i] == x;
            assert(s[i] < n);
        }
    }
    lemma_len_subset(t.to_set(), set_int_range(0, n));
}


/// What holds of the walk's state between its steps: `order` is the visit
/// order so far, `seen` the names already claimed, `r` the number of roots.
spec fn walk_inv(m: &Metadata, order: Seq<usize>, seen: Seq<String>, r: int) -> bool {
    &&& r == m.roots().len()
    &&& r <= order.len() <= r + m.packages@.len()
    &&& order.subrange(0, r) == m.roots()
    &&& forall|i: int| 0 <= i < order.len() ==> (#[trigger] order[i] as int) < m.packages@.len()
    &&& forall|i: int, j: int|
        r <= i < order.len() && 0 <= j < i ==> m.name_of(#[trigger] order[i] as int) != m.name_of(
            #[trigger] order[j] as int,
        )
    &&& forall|i: int| r <= i < order.len() ==> #[trigger] m.discovered(order, i)
    &&& forall|i: int, i2: int, j: int, d: int, j2: int, d2: int|
        r <= i < i2 < order.len() && #[trigger] m.is_first_claim(
            order,
            m.name_of(order[i] as int),
            j,
            d,
        ) && #[trigger] m.is_first_claim(order, m.name_of(order[i2] as int), j2, d2) ==> (j < j2 || (
        j == j2 && d < d2))
    &&& forall|k: int|
        0 <= k < seen.len() ==> m.visits_name(order, #[trigger] seen[k]@) || !m.has_package(
            seen[k]@,
        )
    &&& forall|i: int|
        0 <= i < order.len() ==> holds_name(seen, #[trigger] m.name_of(order[i] as int))
}

/// Whether the names that the first `n` followed edges of `order[j]` name are
/// all in `seen`.
spec fn explored(m: &Metadata, order: Seq<usize>, seen: Seq<String>, j: int, n: int) -> bool {
    forall|d: int|
        0 <= d < n && followed(#[trigger] m.deps_of(order[j] as int)[d].kind) ==> holds_name(
            seen,
            m.deps_of(order[j] as int)[d].name@,
        )
}

/// Whether every package discovered so far was claimed before edge `d` of
/// `order[h]`.
spec fn frontier(m: &Metadata, order: Seq<usize>, r: int, h: int, d: int) -> bool {
    forall|i: int, j: int, dd: int|
        r <= i < order.len() && #[trigger] m.is_first_claim(order, m.name_of(order[i] as int), j, dd)
            ==> (j < h || (j == h && dd < d))
}

proof fn lemma_claim_extends(m: &Metadata, o: Seq<usize>, q: usize, n: Seq<char>, j: int, d: int)
    requires
        m.is_first_claim(o, n, j, d),
    ensures
        m.is_first_claim(o.push(q), n, j, d),
{
    let o2 = o.push(q);
    assert(o2[j] == o[j]);
    assert forall|j2: int, d2: int| (j2 < j || (j2 == j && d2 < d)) implies !#[trigger] m.claims(
        o2,
        j2,
        d2,
        n,
    ) by {
        if 0 <= j2 < o.len() {
            assert(o2[j2] == o[j2]);
            assert(!m.claims(o, j2, d2, n));
        }
    }
}

proof fn lemma_claim_unique(
    m: &Metadata,
    o: Seq<usize>,
    n: Seq<char>,
    j: int,
    d: int,
    j2: int,
    d2: int,
)
    requires
        m.is_first_claim(o, n, j, d),
        m.is_first_claim(o, n, j2, d2),
    ensures
        j == j2 && d == d2,
{
    if j < j2 || (j == j2 && d < d2) {
        assert(m.claims(o, j, d, n));
    } else if j2 < j || (j2 == j && d2 < d) {
        assert(m.claims(o, j2, d2, n));
    }
}

/// Whether the first claim of `order[i]` stays the same in `o2`, and was
/// made before edge `d` of `order[h]`.
spec fn kept_claim(m: &Metadata, order: Seq<usize>, o2: Seq<usize>, h: int, d: int, i: int) -> bool {
    exists|j: int, dd: int|
        0 <= j < i && #[trigger] m.is_first_claim(o2, m.name_of(o2[i] as int), j, dd)
            && m.is_first_claim(order, m.name_of(order[i] as int), j, dd) && (j < h || (j == h && dd < d))
}

/// The claims of the walk's state once package `q`, claimed by edge `d` of
/// `order[h]`, joins it.
proof fn lemma_push_claims(
    m: &Metadata,
    order: Seq<usize>,
    seen: Seq<String>,
    r: int,
    h: int,
    d: int,
    q: usize,
)
    requires
        walk_inv(m, order, seen, r),
        0 <= h < order.len(),
        0 <= d < m.deps_of(order[h] as int).len(),
        followed(m.deps_of(order[h] as int)[d].kind),
        !holds_name(seen, m.deps_of(order[h] as int)[d].name@),
        m.is_first_named(m.deps_of(order[h] as int)[d].name@, q as int),
        forall|j: int|
            0 <= j < h ==> #[trigger] explored(
                m,
                order,
                seen,
                j,
                m.deps_of(order[j] as int).len() as int,
            ),
        explored(m, order, seen, h, d),
        frontier(m, order, r, h, d),
    ensures
        ({
            let o2 = order.push(q);
            &&& forall|i: int| r <= i < o2.len() ==> #[trigger] m.discovered(o2, i)
            &&& forall|i: int, i2: int, j: int, dd: int, j2: int, d2: int|
                r <= i < i2 < o2.len() && #[trigger] m.is_first_claim(
                    o2,
                    m.name_of(o2[i] as int),
                    j,
                    dd,
                ) && #[trigger] m.is_first_claim(o2, m.name_of(o2[i2] as int), j2, d2) ==> (j < j2
                    || (j == j2 && dd < d2))
            &&& frontier(m, o2, r, h, d + 1)
        }),
{
    let o2 = order.push(q);
    let len = order.len() as int;
    let name = m.deps_of(order[h] as int)[d].name@;
    assert(o2[len] == q);
    assert(m.name_of(q as int) == name);
    // the new package's first claim
    assert(m.is_first_claim(order, name, h, d)) by {
        assert forall|j2: int, d2: int| (j2 < h || (j2 == h && d2 < d)) implies !#[trigger] m.claims(
            order,
            j2,
            d2,
            name,
        ) by {
            if m.claims(order, j2, d2, name) {
                if j2 < h {
                    assert(explored(m, order, seen, j2, m.deps_of(order[j2] as int).len() as int));
                } else {
                    assert(explored(m, order, seen, h, d));
                }
                assert(holds_name(seen, name));
            }
        }
    }
    lemma_claim_extends(m, order, q, name, h, d);
    // every earlier package keeps its first claim
    assert forall|i: int| r <= i < len implies #[trigger] kept_claim(m, order, o2, h, d, i) by {
        assert(m.discovered(order, i));
        let (j, dd) = choose|j: int, dd: int|
            0 <= j < i && #[trigger] m.is_first_claim(order, m.name_of(order[i] as int), j, dd)
                && m.is_first_named(m.name_of(order[i] as int), order[i] as int);
        assert(o2[i] == order[i]);
        lemma_claim_extends(m, order, q, m.name_of(order[i] as int), j, dd);
    }
    assert forall|i: int| r <= i < o2.len() implies #[trigger] m.discovered(o2, i) by {
        if i < len {
            assert(m.discovered(order, i));
            let (j, dd) = choose|j: int, dd: int|
                0 <= j < i && #[trigger] m.is_first_claim(order, m.name_of(order[i] as int), j, dd)
                    && m.is_first_named(m.name_of(order[i] as int), order[i] as int);
            assert(o2[i] == order[i]);
            lemma_claim_extends(m, order, q, m.name_of(order[i] as int), j, dd);
        } else {
            assert(m.is_first_claim(o2, m.name_of(o2[i] as int), h, d));
        }
    }
    assert forall|i: int, i2: int, j: int, dd: int, j2: int, d2: int|
        r <= i < i2 < o2.len() && #[trigger] m.is_first_claim(
            o2,
            m.name_of(o2[i] as int),
            j,
            dd,
        ) && #[trigger] m.is_first_claim(o2, m.name_of(o2[i2] as int), j2, d2) implies (j < j2 || (j
        == j2 && dd < d2)) by {
        assert(o2[i] == order[i]);
        assert(kept_claim(m, order, o2, h, d, i));
        let (ja, da) = choose|ja: int, da: int|
            0 <= ja < i && #[trigger] m.is_first_claim(o2, m.name_of(o2[i] as int), ja, da)
                && m.is_first_claim(order, m.name_of(order[i] as int), ja, da) && (ja < h || (ja == h && da < d));
        lemma_claim_unique(m, o2, m.name_of(o2[i] as int), j, dd, ja, da);
        if i2 < len {
            assert(o2[i2] == order[i2]);
            assert(kept_claim(m, order, o2, h, d, i2));
            let (jb, db) = choose|jb: int, db: int|
                0 <= jb < i2 && #[trigger] m.is_first_claim(o2, m.name_of(o2[i2] as int), jb, db)
                    && m.is_first_claim(order, m.name_of(order[i2] as int), jb, db) && (jb < h || (jb == h && db < d));
            lemma_claim_unique(m, o2, m.name_of(o2[i2] as int), j2, d2, jb, db);
        } else {
            lemma_claim_unique(m, o2, name, j2, d2, h, d);
        }
    }
    assert forall|i: int, j: int, dd: int|
        r <= i < o2.len() && #[trigger] m.is_first_claim(o2, m.name_of(o2[i] as int), j, dd) implies (j
        < h || (j == h && dd < d + 1)) by {
        if i < len {
            assert(o2[i] == order[i]);
            assert(kept_claim(m, order, o2, h, d, i));
            let (ja, da) = choose|ja: int, da: int|
                0 <= ja < i && #[trigger] m.is_first_claim(o2, m.name_of(o2[i] as int), ja, da)
                    && m.is_first_claim(order, m.name_of(order[i] as int), ja, da) && (ja < h || (ja == h && da < d));
            lemma_claim_unique(m, o2, m.name_of(o2[i] as int), j, dd, ja, da);
        } else {
            lemma_claim_unique(m, o2, name, j, dd, h, d);
        }
    }
}

/// The packages to inspect for configuration, in the order of a breadth-first
/// walk from the roots along normal and build edges, each at most once.
pub fn walk(m: &Metadata) -> (order: Vec<usize>)
    requires
        m.wf(),
    ensures
        m.is_walk_order(order@),
        order@ == m.walk_order(),
{
    let ghost n = m.packages@.len() as int;
    let mut order: Vec<usize> = Vec::new();
    let mut seen: Vec<String> = Vec::new();
    match m.root {
        Some(p) => {
            assert(m.roots()[0] == p);
            order.push(p);
            seen.push(m.packages[p].name.clone());
            assert(order@.subrange(0, 1) =~= m.roots());
        },
        None => {
            let mut i: usize = 0;
            while i < m.workspace_members.len()
                invariant
                    m.wf(),
                    m.root is None,
                    i <= m.workspace_members@.len(),
                    order@ == m.workspace_members@.subrange(0, i as int),
                    seen@.len() == order@.len(),
                    forall|k: int| 0 <= k < i ==> (#[trigger] seen@[k])@ == m.name_of(order@[k] as int),
                decreases m.workspace_members.len() - i,
            {
                let p = m.workspace_members[i];
                assert(m.roots()[i as int] == p);
                order.push(p);
                seen.push(m.packages[p].name.clone());
                assert(order@ =~= m.workspace_members@.subrange(0, i + 1));
                i = i + 1;
            }
            assert(order@.subrange(0, order@.len() as int) =~= m.roots());
        },
    }
    let ghost r = order@.len() as int;
    proof {
        assert forall|i: int| 0 <= i < order@.len() implies holds_name(
            seen@,
            #[trigger] m.name_of(order@[i] as int),
        ) by {
            assert(seen@[i]@ == m.name_of(order@[i] as int));
        }
        assert forall|k: int| 0 <= k < seen@.len() implies m.visits_name(order@, #[trigger] seen@[k]@)
            || !m.has_package(seen@[k]@) by {
            assert(seen@[k]@ == m.name_of(order@[k] as int));
        }
        assert forall|i: int| 0 <= i < order@.len() implies (#[trigger] order@[i] as int)
            < m.packages@.len() by {
            assert(order@[i] == order@.subrange(0, r)[i]);
        }
    }
    let mut h: usize = 0;
    while h < order.len()
        invariant
            m.wf(),
            walk_inv(m, order@, seen@, r),
            n == m.packages@.len(),
            h <= order@.len(),
            frontier(m, order@, r, h as int, 0),
            forall|j: int|
                0 <= j < h ==> #[trigger] explored(
                    m,
                    order@,
                    seen@,
                    j,
                    m.deps_of(order@[j] as int).len() as int,
                ),
        decreases r + n - h,
    {
        let p = order[h];
        let ndeps = m.packages[p].dependencies.len();
        let mut d: usize = 0;
        while d < ndeps
            invariant
                m.wf(),
                walk_inv(m, order@, seen@, r),
                n == m.packages@.len(),
                h < order@.len(),
                p == order@[h as int],
                ndeps == m.deps_of(p as int).len(),
                d <= ndeps,
                forall|j: int|
                    0 <= j < h ==> #[trigger] explored(
                        m,
                        order@,
                        seen@,
                        j,
                        m.deps_of(order@[j] as int).len() as int,
                    ),
                explored(m, order@, seen@, h as int, d as int),
                frontier(m, order@, r, h as int, d as int),
            decreases ndeps - d,
        {
            let dep = &m.packages[p].dependencies[d];
            if (dep.kind == DependencyKind::Normal || dep.kind == DependencyKind::Build)
                && !contains_name(&seen, &dep.name) {
                let ghost order0 = order@;
                let ghost seen0 = seen@;
                seen.push(dep.name.clone());
                proof {
                    assert forall|k: int| 0 <= k < seen0.len() implies holds_name(seen@, #[trigger] seen0[k]@) by {
                        assert(seen@[k] == seen0[k]);
                    }
                    assert(seen@[seen0.len() as int]@ == dep.name@);
                }
                match find_package(m, &dep.name) {
                    Some(q) => {
                        proof {
                            assert forall|j: int| 0 <= j < order0.len() implies m.name_of(
                                #[trigger] order0[j] as int,
                            ) != dep.name@ by {
                                assert(holds_name(seen0, m.name_of(order0[j] as int)));
                            }
                            let s = order0.subrange(r, order0.len() as int).push(q);
                            assert forall|i: int| 0 <= i < s.len() implies (#[trigger] s[i] as int) < n by {
                                if i < s.len() - 1 {
                                    assert(s[i] == order0[r + i]);
                                }
                            }
                            assert(s.no_duplicates()) by {
                                assert forall|a: int, b: int|
                                    0 <= a < s.len() && 0 <= b < s.len() && a != b implies s[a] != s[b] by {
                                    if a < b {
                                        if b == s.len() - 1 {
                                            assert(m.name_of(order0[r + a] as int) != dep.name@);
                                        } else {
                                            assert(m.name_of(order0[r + b] as int) != m.name_of(order0[r + a] as int));
                                        }
                                    } else {
                                        if a == s.len() - 1 {
                                            assert(m.name_of(order0[r + b] as int) != dep.name@);
                                        } else {
                                            assert(m.name_of(order0[r + a] as int) != m.name_of(order0[r + b] as int));
                                        }
                                    }
                                }
                            }
                            lemma_distinct_bound(s, n);
                        }
                        order.push(q);
                        proof {
                            let L = order0.len() as int;
                            assert(order@.subrange(0, r) =~= order0.subrange(0, r));
                            lemma_push_claims(m, order0, seen0, r, h as int, d as int, q);
                            assert forall|k: int| 0 <= k < seen@.len() implies m.visits_name(order@, #[trigger] seen@[k]@)
                                || !m.has_package(seen@[k]@) by {
                                if k < seen0.len() {
                                    if m.visits_name(order0, seen0[k]@) {
                                        let i = choose|i: int| 0 <= i < order0.len() && m.name_of(order0[i] as int) == seen0[k]@;
                                        assert(order@[i] == order0[i]);
                                    }
                                } else {
                                    assert(order@[L] == q);
                                }
                            }
                            assert forall|i: int| 0 <= i < order@.len() implies holds_name(
                                seen@,
                                #[trigger] m.name_of(order@[i] as int),
                            ) by {
                                if i < L {
                                    assert(order@[i] == order0[i]);
                                    assert(holds_name(seen0, m.name_of(order0[i] as int)));
                                }
                            }
                            assert forall|j: int| 0 <= j < h implies #[trigger] explored(
                                m,
                                order@,
                                seen@,
                                j,
                                m.deps_of(order@[j] as int).len() as int,
                            ) by {
                                assert(order@[j] == order0[j]);
                                assert(explored(m, order0, seen0, j, m.deps_of(order0[j] as int).len() as int));
                            }
                            assert(order@[h as int] == order0[h as int]);
                            assert(explored(m, order@, seen@, h as int, d + 1));
                        }
                    },
                    None => {
                        proof {
                            assert forall|k: int| 0 <= k < seen@.len() implies m.visits_name(order@, #[trigger] seen@[k]@)
                                || !m.has_package(seen@[k]@) by {
                                if k < seen0.len() {
                                    assert(seen@[k] == seen0[k]);
                                }
                            }
                            assert forall|j: int| 0 <= j < h implies #[trigger] explored(
                                m,
                                order@,
                                seen@,
                                j,
                                m.deps_of(order@[j] as int).len() as int,
                            ) by {
                                assert(explored(m, order0, seen0, j, m.deps_of(order0[j] as int).len() as int));
                            }
                            assert(explored(m, order@, seen@, h as int, d + 1));
                        }
                    },
                }
            }
            d = d + 1;
        }
        h = h + 1;
    }
    proof {
        let o = order@;
        assert forall|j: int, d: int|
            0 <= j < o.len() && 0 <= d < m.deps_of(o[j] as int).len() && followed(
                #[trigger] m.deps_of(o[j] as int)[d].kind,
            ) && m.has_package(m.deps_of(o[j] as int)[d].name@) implies m.visits_name(
                o,
                m.deps_of(o[j] as int)[d].name@,
            ) by {
            assert(explored(m, o, seen@, j, m.deps_of(o[j] as int).len() as int));
            let k = choose|k: int| 0 <= k < seen@.len() && seen@[k]@ == m.deps_of(o[j] as int)[d].name@;
            assert(m.visits_name(o, seen@[k]@) || !m.has_package(seen@[k]@));
        }
        lemma_walk_order(m, o);
    }
    order
}

} // verus!
