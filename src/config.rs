//! Nested configuration values and the merge that combines the sections that
//! several packages contribute.
use vstd::prelude::*;

verus! {

/// A configuration value: a scalar, a list, or a table of named values.
/// Numbers are kept as their decimal text.
#[derive(Debug, PartialEq, Eq)]
pub enum ConfigValue {
    Null,
    Bool(bool),
    Integer(String),
    Float(String),
    Text(String),
    List(Vec<ConfigValue>),
    Table(Vec<(String, ConfigValue)>),
}

/// The mathematical form of a `ConfigValue`.
pub enum Tree {
    Null,
    Bool(bool),
    Integer(Seq<char>),
    Float(Seq<char>),
    Text(Seq<char>),
    List(Seq<Tree>),
    Table(Seq<(Seq<char>, Tree)>),
}

/// The mathematical form of a value.
pub open spec fn tree_of(v: ConfigValue) -> Tree
    decreases v,
{
    match v {
        ConfigValue::Null => Tree::Null,
        ConfigValue::Bool(b) => Tree::Bool(b),
        ConfigValue::Integer(s) => Tree::Integer(s@),
        ConfigValue::Float(s) => Tree::Float(s@),
        ConfigValue::Text(s) => Tree::Text(s@),
        ConfigValue::List(l) => Tree::List(list_tree(l@)),
        ConfigValue::Table(e) => Tree::Table(entries_tree(e@)),
    }
}

/// The mathematical forms of the items of a list.
pub open spec fn list_tree(l: Seq<ConfigValue>) -> Seq<Tree>
    decreases l,
{
    if l.len() == 0 {
        Seq::empty()
    } else {
        list_tree(l.drop_last()).push(tree_of(l.last()))
    }
}

/// The mathematical forms of the entries of a table.
pub open spec fn entries_tree(e: Seq<(String, ConfigValue)>) -> Seq<(Seq<char>, Tree)>
    decreases e,
{
    if e.len() == 0 {
        Seq::empty()
    } else {
        entries_tree(e.drop_last()).push((e.last().0@, tree_of(e.last().1)))
    }
}

impl View for ConfigValue {
    type V = Tree;

    open spec fn view(&self) -> Tree {
        tree_of(*self)
    }
}


/// Whether `i` is the first position of key `k` in the entries `e`.
pub open spec fn is_first_key(e: Seq<(Seq<char>, Tree)>, k: Seq<char>, i: int) -> bool {
    &&& 0 <= i < e.len()
    &&& e[i].0 == k
    &&& forall|j: int| 0 <= j < i ==> e[j].0 != k
}

/// Whether the entries `e` hold key `k`.
pub open spec fn has_key(e: Seq<(Seq<char>, Tree)>, k: Seq<char>) -> bool {
    exists|i: int| 0 <= i < e.len() && e[i].0 == k
}

/// The first position of key `k` in the entries `e`, if any.
pub open spec fn first_index(e: Seq<(Seq<char>, Tree)>, k: Seq<char>) -> Option<int> {
    if exists|i: int| is_first_key(e, k, i) {
        Some(choose|i: int| is_first_key(e, k, i))
    } else {
        None
    }
}

/// The value that the entries `e` give to key `k`: the first one under it.
pub open spec fn lookup(e: Seq<(Seq<char>, Tree)>, k: Seq<char>) -> Option<Tree> {
    match first_index(e, k) {
        Some(i) => Some(e[i].1),
        None => None,
    }
}

/// The merge of `b` into `a`. Where `a` is `Null`, nothing was merged yet
/// and `b` becomes the result. Where both are tables, every key of `b` that
/// `a` lacks is added, in `b`'s order, and a key under which both hold a
/// table is merged in turn; every other value of `a` is kept as it is. In
/// every other case `a` is kept whole.
pub open spec fn merge_tree(a: Tree, b: Tree) -> Tree
    decreases b, 0int,
{
    match a {
        Tree::Null => b,
        Tree::Table(ae) => match b {
            Tree::Table(be) => Tree::Table(merge_entries(ae, be, be.len() as int)),
            _ => a,
        },
        _ => a,
    }
}

/// The entries `acc` after the first `n` entries of `be` were merged into
/// them, one after the other.
pub open spec fn merge_entries(
    acc: Seq<(Seq<char>, Tree)>,
    be: Seq<(Seq<char>, Tree)>,
    n: int,
) -> Seq<(Seq<char>, Tree)>
    decreases be, n,
{
    if n <= 0 || n > be.len() {
        acc
    } else {
        let prev = merge_entries(acc, be, n - 1);
        let k = be[n - 1].0;
        let v = be[n - 1].1;
        match first_index(prev, k) {
            Some(j) => if prev[j].1 is Table && v is Table {
                prev.update(j, (k, merge_tree(prev[j].1, v)))
            } else {
                prev
            },
            None => prev.push((k, v)),
        }
    }
}

/// The form of a table's entries, position by position.
pub proof fn lemma_entries_tree(e: Seq<(String, ConfigValue)>)
    ensures
        entries_tree(e).len() == e.len(),
        forall|i: int|
            0 <= i < e.len() ==> #[trigger] entries_tree(e)[i] == (e[i].0@, tree_of(e[i].1)),
    decreases e.len(),
{
    if e.len() > 0 {
        lemma_entries_tree(e.drop_last());
    }
}

/// The first position of a key is the one that `first_index` gives.
pub proof fn lemma_first_index(e: Seq<(Seq<char>, Tree)>, k: Seq<char>, i: int)
    requires
        is_first_key(e, k, i),
    ensures
        first_index(e, k) == Some(i),
{
    let c = choose|c: int| is_first_key(e, k, c);
    assert(is_first_key(e, k, c));
    if c < i {
        assert(e[c].0 != k);
    } else if i < c {
        assert(e[i].0 != k);
    }
}

/// Whether no two entries of `e` share a key.
pub open spec fn unique_keys(e: Seq<(Seq<char>, Tree)>) -> bool {
    forall|i: int, j: int| 0 <= i < j < e.len() ==> e[i].0 != e[j].0
}

/// Whether every table within `t`, `t` included, gives each key once.
pub open spec fn wf_tree(t: Tree) -> bool
    decreases t,
{
    match t {
        Tree::List(l) => forall|i: int| 0 <= i < l.len() ==> wf_tree(#[trigger] l[i]),
        Tree::Table(e) => unique_keys(e) && forall|i: int| 0 <= i < e.len() ==> wf_tree(#[trigger] e[i].1),
        _ => true,
    }
}

/// In entries with unique keys, an entry under `k` is the first one.
pub proof fn lemma_unique_first(e: Seq<(Seq<char>, Tree)>, k: Seq<char>, i: int)
    requires
        unique_keys(e),
        0 <= i < e.len(),
        e[i].0 == k,
    ensures
        first_index(e, k) == Some(i),
{
    assert forall|j: int| 0 <= j < i implies e[j].0 != k by {
        assert(e[j].0 != e[i].0);
    }
    lemma_first_index(e, k, i);
}

/// Merging keeps every table's keys unique.
pub proof fn lemma_merge_wf(a: Tree, b: Tree)
    requires
        wf_tree(a),
        wf_tree(b),
    ensures
        wf_tree(merge_tree(a, b)),
    decreases b, 0int,
{
    if a is Table && b is Table {
        let be = b->Table_0;
        lemma_entries_wf(a->Table_0, be, be.len() as int);
    }
}

/// Merging entries one after the other keeps keys unique and values
/// well formed.
pub proof fn lemma_entries_wf(acc: Seq<(Seq<char>, Tree)>, be: Seq<(Seq<char>, Tree)>, n: int)
    requires
        unique_keys(acc),
        forall|i: int| 0 <= i < acc.len() ==> wf_tree(#[trigger] acc[i].1),
        forall|i: int| 0 <= i < be.len() ==> wf_tree(#[trigger] be[i].1),
    ensures
        unique_keys(merge_entries(acc, be, n)),
        forall|i: int|
            0 <= i < merge_entries(acc, be, n).len() ==> wf_tree(
                #[trigger] merge_entries(acc, be, n)[i].1,
            ),
    decreases be, n,
{
    if n <= 0 || n > be.len() {
    } else {
        lemma_entries_wf(acc, be, n - 1);
        let prev = merge_entries(acc, be, n - 1);
        let k = be[n - 1].0;
        let v = be[n - 1].1;
        assert(wf_tree(v));
        match first_index(prev, k) {
            Some(j) => {
                let c = choose|c: int| is_first_key(prev, k, c);
                assert(is_first_key(prev, k, c));
                if prev[j].1 is Table && v is Table {
                    assert(decreases_to!(be => be[n - 1]));
                    lemma_merge_wf(prev[j].1, v);
                    let next = prev.update(j, (k, merge_tree(prev[j].1, v)));
                    assert forall|i: int| 0 <= i < next.len() implies wf_tree(#[trigger] next[i].1) by {
                        if i != j {
                            assert(next[i] == prev[i]);
                        }
                    }
                }
            },
            None => {
                let next = prev.push((k, v));
                assert forall|i: int| 0 <= i < prev.len() implies prev[i].0 != k by {
                    if prev[i].0 == k {
                        lemma_unique_first(prev, k, i);
                    }
                }
                assert forall|i: int| 0 <= i < next.len() implies wf_tree(#[trigger] next[i].1) by {
                    if i < prev.len() {
                        assert(next[i] == prev[i]);
                    }
                }
            },
        }
    }
}

/// The name of the kind of a value, as configuration errors give it.
pub open spec fn kind_name(t: Tree) -> Seq<char> {
    match t {
        Tree::Null => "null"@,
        Tree::Bool(_) => "boolean"@,
        Tree::Integer(_) => "integer"@,
        Tree::Float(_) => "float"@,
        Tree::Text(_) => "string"@,
        Tree::List(_) => "array"@,
        Tree::Table(_) => "table"@,
    }
}

impl ConfigValue {
    /// The name of the kind of this value.
    pub fn kind(&self) -> (r: String)
        ensures
            r@ == kind_name(self@),
    {
        match self {
            ConfigValue::Null => String::from_str("null"),
            ConfigValue::Bool(_) => String::from_str("boolean"),
            ConfigValue::Integer(_) => String::from_str("integer"),
            ConfigValue::Float(_) => String::from_str("float"),
            ConfigValue::Text(_) => String::from_str("string"),
            ConfigValue::List(_) => String::from_str("array"),
            ConfigValue::Table(_) => String::from_str("table"),
        }
    }
}

/// One step of `merge_entries`: the entry `(k, v)` merged into `prev`.
proof fn lemma_step_keeps_scalar(
    prev: Seq<(Seq<char>, Tree)>,
    k: Seq<char>,
    v: Tree,
    key: Seq<char>,
    i: int,
)
    requires
        is_first_key(prev, key, i),
        !(prev[i].1 is Table),
    ensures
        ({
            let next = match first_index(prev, k) {
                Some(j) => if prev[j].1 is Table && v is Table {
                    prev.update(j, (k, merge_tree(prev[j].1, v)))
                } else {
                    prev
                },
                None => prev.push((k, v)),
            };
            is_first_key(next, key, i) && next[i] == prev[i]
        }),
{
    lemma_first_index(prev, key, i);
    match first_index(prev, k) {
        Some(j) => {
            let c = choose|c: int| is_first_key(prev, k, c);
            assert(is_first_key(prev, k, c));
            if prev[j].1 is Table && v is Table {
                assert(j != i);
                let next = prev.update(j, (k, merge_tree(prev[j].1, v)));
                assert forall|q: int| 0 <= q < i implies next[q].0 != key by {
                    assert(prev[q].0 != key);
                }
            }
        },
        None => {
            let next = prev.push((k, v));
            assert forall|q: int| 0 <= q < i implies next[q].0 != key by {
                assert(prev[q].0 != key);
            }
        },
    }
}

/// Once a key holds a value that is no table, merging further entries
/// leaves it as it is.
pub proof fn lemma_entries_keep_scalar(
    acc: Seq<(Seq<char>, Tree)>,
    be: Seq<(Seq<char>, Tree)>,
    from: int,
    n: int,
    key: Seq<char>,
    i: int,
)
    requires
        0 <= from <= n <= be.len(),
        is_first_key(merge_entries(acc, be, from), key, i),
        !(merge_entries(acc, be, from)[i].1 is Table),
    ensures
        is_first_key(merge_entries(acc, be, n), key, i),
        merge_entries(acc, be, n)[i] == merge_entries(acc, be, from)[i],
    decreases n - from,
{
    if n > from {
        lemma_entries_keep_scalar(acc, be, from, n - 1, key, i);
        let prev = merge_entries(acc, be, n - 1);
        lemma_step_keeps_scalar(prev, be[n - 1].0, be[n - 1].1, key, i);
    }
}

/// Keys of merged entries come from one of the two sides.
pub proof fn lemma_entries_key_origin(
    acc: Seq<(Seq<char>, Tree)>,
    be: Seq<(Seq<char>, Tree)>,
    n: int,
    key: Seq<char>,
)
    requires
        0 <= n <= be.len(),
        !has_key(acc, key),
        forall|q: int| 0 <= q < n ==> be[q].0 != key,
    ensures
        !has_key(merge_entries(acc, be, n), key),
    decreases n,
{
    if n > 0 {
        lemma_entries_key_origin(acc, be, n - 1, key);
        let prev = merge_entries(acc, be, n - 1);
        let k = be[n - 1].0;
        let v = be[n - 1].1;
        match first_index(prev, k) {
            Some(j) => {
                let c = choose|c: int| is_first_key(prev, k, c);
                assert(is_first_key(prev, k, c));
                if prev[j].1 is Table && v is Table {
                    let next = prev.update(j, (k, merge_tree(prev[j].1, v)));
                    assert forall|q: int| 0 <= q < next.len() implies next[q].0 != key by {
                        if q != j {
                            assert(next[q] == prev[q]);
                        }
                    }
                }
            },
            None => {
                let next = prev.push((k, v));
                assert forall|q: int| 0 <= q < next.len() implies next[q].0 != key by {
                    if q < prev.len() {
                        assert(next[q] == prev[q]);
                    }
                }
            },
        }
    }
}

/// Where `a` lacks a key that `b` first holds as a value that is no table,
/// the merge holds that value under it.
pub proof fn lemma_merge_adds_scalar(
    acc: Seq<(Seq<char>, Tree)>,
    be: Seq<(Seq<char>, Tree)>,
    key: Seq<char>,
    f: int,
)
    requires
        !has_key(acc, key),
        is_first_key(be, key, f),
        !(be[f].1 is Table),
    ensures
        lookup(merge_entries(acc, be, be.len() as int), key) == Some(be[f].1),
{
    lemma_entries_key_origin(acc, be, f, key);
    let prev = merge_entries(acc, be, f);
    assert(first_index(prev, key) is None);
    let next = merge_entries(acc, be, f + 1);
    assert(next == prev.push((key, be[f].1)));
    assert(is_first_key(next, key, prev.len() as int)) by {
        assert forall|q: int| 0 <= q < prev.len() implies next[q].0 != key by {
            assert(next[q] == prev[q]);
        }
    }
    lemma_entries_keep_scalar(acc, be, f + 1, be.len() as int, key, prev.len() as int);
    lemma_first_index(merge_entries(acc, be, be.len() as int), key, prev.len() as int);
}

/// Where `a` is a table that holds key `k` as a value that is no table, the
/// merge of any `b` into `a` holds the same value under `k`.
pub proof fn lemma_merge_keeps_scalar(a: Tree, b: Tree, k: Seq<char>)
    requires
        a is Table,
        lookup(a->Table_0, k) is Some,
        !(lookup(a->Table_0, k).unwrap() is Table),
    ensures
        merge_tree(a, b) is Table,
        lookup(merge_tree(a, b)->Table_0, k) == lookup(a->Table_0, k),
{
    let ae = a->Table_0;
    let i = choose|i: int| is_first_key(ae, k, i);
    assert(is_first_key(ae, k, i));
    if b is Table {
        let be = b->Table_0;
        lemma_entries_keep_scalar(ae, be, 0, be.len() as int, k, i);
        lemma_first_index(merge_entries(ae, be, be.len() as int), k, i);
    }
}

/// The position of the first entry under key `k`.
pub(crate) fn find_key(entries: &Vec<(String, ConfigValue)>, k: &String) -> (r: Option<usize>)
    ensures
        match r {
            Some(i) => first_index(entries_tree(entries@), k@) == Some(i as int),
            None => first_index(entries_tree(entries@), k@) is None,
        },
{
    proof {
        lemma_entries_tree(entries@);
    }
    let ghost t = entries_tree(entries@);
    let mut i: usize = 0;
    while i < entries.len()
        invariant
            i <= entries.len(),
            t == entries_tree(entries@),
            t.len() == entries@.len(),
            forall|j: int|
                0 <= j < entries@.len() ==> #[trigger] t[j] == (
                    entries@[j].0@,
                    tree_of(entries@[j].1),
                ),
            forall|j: int| 0 <= j < i ==> t[j].0 != k@,
        decreases entries.len() - i,
    {
        if entries[i].0 == *k {
            proof {
                lemma_first_index(t, k@, i as int);
            }
            return Some(i);
        }
        i = i + 1;
    }
    None
}

impl ConfigValue {
    /// A copy of this value.
    pub fn duplicate(&self) -> (r: ConfigValue)
        ensures
            r@ == self@,
            wf_tree(self@) ==> wf_tree(r@),
        decreases self,
    {
        match self {
            ConfigValue::Null => ConfigValue::Null,
            ConfigValue::Bool(b) => ConfigValue::Bool(*b),
            ConfigValue::Integer(s) => ConfigValue::Integer(s.clone()),
            ConfigValue::Float(s) => ConfigValue::Float(s.clone()),
            ConfigValue::Text(s) => ConfigValue::Text(s.clone()),
            ConfigValue::List(l) => {
                let mut out: Vec<ConfigValue> = Vec::new();
                let mut i: usize = 0;
                while i < l.len()
                    invariant
                        i <= l@.len(),
                        *self == ConfigValue::List(*l),
                        list_tree(out@) == list_tree(l@.subrange(0, i as int)),
                    decreases l.len() - i,
                {
                    proof {
                        assert(decreases_to!(*self => self->List_0));
                        assert(decreases_to!(self->List_0 => self->List_0@));
                    }
                    let c = l[i].duplicate();
                    let ghost before = out@;
                    out.push(c);
                    proof {
                        assert(out@.drop_last() =~= before);
                        assert(l@.subrange(0, i + 1).drop_last() =~= l@.subrange(0, i as int));
                    }
                    i = i + 1;
                }
                proof {
                    assert(l@.subrange(0, l@.len() as int) =~= l@);
                }
                ConfigValue::List(out)
            },
            ConfigValue::Table(e) => {
                let mut out: Vec<(String, ConfigValue)> = Vec::new();
                let mut i: usize = 0;
                while i < e.len()
                    invariant
                        i <= e@.len(),
                        *self == ConfigValue::Table(*e),
                        entries_tree(out@) == entries_tree(e@.subrange(0, i as int)),
                    decreases e.len() - i,
                {
                    proof {
                        assert(decreases_to!(*self => self->Table_0));
                        assert(decreases_to!(self->Table_0 => self->Table_0@));
                    }
                    let c = e[i].1.duplicate();
                    let ghost before = out@;
                    out.push((e[i].0.clone(), c));
                    proof {
                        assert(out@.drop_last() =~= before);
                        assert(e@.subrange(0, i + 1).drop_last() =~= e@.subrange(0, i as int));
                    }
                    i = i + 1;
                }
                proof {
                    assert(e@.subrange(0, e@.len() as int) =~= e@);
                }
                ConfigValue::Table(out)
            },
        }
    }
}

/// Merges `b` into `a`: `b` itself where `a` is `Null`; otherwise the
/// value that `a` already holds wins, and tables under the same key are
/// merged instead of replaced.
pub fn merge(a: ConfigValue, b: ConfigValue) -> (r: ConfigValue)
    ensures
        r@ == merge_tree(a@, b@),
        wf_tree(a@) && wf_tree(b@) ==> wf_tree(r@),
    decreases b,
{
    let ghost b0 = b;
    proof {
        if wf_tree(a@) && wf_tree(b@) {
            lemma_merge_wf(a@, b@);
        }
    }
    match a {
        ConfigValue::Table(mut acc) => match b {
            ConfigValue::Table(mut be) => {
                let ghost a_t = entries_tree(acc@);
                let ghost be0 = be@;
                let ghost b_t = entries_tree(be0);
                proof {
                    lemma_entries_tree(be0);
                    assert(decreases_to!(b0 => be));
                    assert(decreases_to!(be => be@));
                }
                let total = be.len();
                let mut i: usize = 0;
                while be.len() > 0
                    invariant
                        i <= be0.len(),
                        b == b0,
                        be0.len() == total,
                        be@ == be0.subrange(i as int, be0.len() as int),
                        b_t == entries_tree(be0),
                        b_t.len() == be0.len(),
                        forall|j: int|
                            0 <= j < be0.len() ==> #[trigger] b_t[j] == (
                                be0[j].0@,
                                tree_of(be0[j].1),
                            ),
                        entries_tree(acc@) == merge_entries(a_t, b_t, i as int),
                        forall|j: int| 0 <= j < be0.len() ==> decreases_to!(b0 => #[trigger] be0[j].1),
                    decreases be.len(),
                {
                    assert(be0[i as int] == be@[0]);
                    let (k, v) = be.remove(0);
                    proof {
                        lemma_entries_tree(acc@);
                        assert(decreases_to!(b0 => be0[i as int].1));
                    }
                    let ghost prev = entries_tree(acc@);
                    match find_key(&acc, &k) {
                        Some(j) => {
                            if matches!(acc[j].1, ConfigValue::Table(_)) && matches!(v, ConfigValue::Table(_)) {
                                let (k0, old) = acc.remove(j);
                                proof {
                                    assert(decreases_to!(b0 => v));
                                }
                                let m = merge(old, v);
                                acc.insert(j, (k0, m));
                                proof {
                                    lemma_entries_tree(acc@);
                                    assert(entries_tree(acc@) =~= prev.update(j as int, (k@, merge_tree(prev[j as int].1, v@))));
                                }
                            }
                        },
                        None => {
                            acc.push((k, v));
                            proof {
                                lemma_entries_tree(acc@);
                                assert(entries_tree(acc@) =~= prev.push((k@, v@)));
                            }
                        },
                    }
                    i = i + 1;
                }
                ConfigValue::Table(acc)
            },
            _ => ConfigValue::Table(acc),
        },
        ConfigValue::Null => b,
        other => other,
    }
}

} // verus!
