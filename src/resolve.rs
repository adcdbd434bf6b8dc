//! The configuration that a package graph declares under one key, merged
//! over the packages in the order of the walk.
use vstd::prelude::*;
use crate::config::{
    entries_tree, find_key, first_index, has_key, is_first_key, lemma_entries_key_origin,
    lemma_entries_tree, lemma_merge_adds_scalar, lemma_merge_keeps_scalar, lemma_merge_wf, lookup,
    merge, merge_tree, wf_tree, ConfigValue, Tree,
};
use crate::error::{ConfigError, ConfigFault};
use crate::graph::{walk, Metadata};

verus! {

/// The section that metadata `meta` declares under `key`; `Null` where it
/// declares none.
pub open spec fn section_tree(meta: Tree, key: Seq<char>) -> Tree {
    match meta {
        Tree::Table(e) => match lookup(e, key) {
            Some(v) => v,
            None => Tree::Null,
        },
        _ => Tree::Null,
    }
}

/// Whether a section can be merged: it is absent or a table.
pub open spec fn usable(t: Tree) -> bool {
    t is Null || t is Table
}

/// The sections merged one after the other into `acc`.
pub open spec fn merge_sections(acc: Tree, s: Seq<Tree>) -> Tree
    decreases s.len(),
{
    if s.len() == 0 {
        acc
    } else {
        merge_tree(merge_sections(acc, s.drop_last()), s.last())
    }
}

/// The sections that the packages of `order` declare under `key`, in order.
pub open spec fn package_sections(m: &Metadata, order: Seq<usize>, key: Seq<char>) -> Seq<Tree> {
    order.map_values(|p: usize| section_tree(m.packages@[p as int].metadata@, key))
}

/// The sections to merge: the workspace's first, then those of the packages.
pub open spec fn all_sections(m: &Metadata, order: Seq<usize>, key: Seq<char>) -> Seq<Tree> {
    seq![section_tree(m.workspace_metadata@, key)] + package_sections(m, order, key)
}

/// The merged configuration.
pub open spec fn resolved(m: &Metadata, order: Seq<usize>, key: Seq<char>) -> Tree {
    merge_sections(Tree::Table(Seq::empty()), all_sections(m, order, key))
}

/// Whether section `i` is the first one that is neither absent nor a table.
pub open spec fn is_first_unusable(s: Seq<Tree>, i: int) -> bool {
    &&& 0 <= i < s.len()
    &&& !usable(s[i])
    &&& forall|j: int| 0 <= j < i ==> usable(#[trigger] s[j])
}

/// What resolving gives on `m` visited in `order`: the merged table, or an
/// error for the first section that is neither absent nor a table.
pub open spec fn resolve_outcome(m: &Metadata, order: Seq<usize>, key: Seq<char>) -> Result<
    Tree,
    ConfigFault,
> {
    let s = all_sections(m, order, key);
    if exists|i: int| is_first_unusable(s, i) {
        let i = choose|i: int| is_first_unusable(s, i);
        if i == 0 {
            Err(ConfigFault::WorkspaceSectionNotTable { key })
        } else {
            Err(ConfigFault::SectionNotTable { key, package: m.packages@[order[i - 1] as int].name@ })
        }
    } else {
        Ok(resolved(m, order, key))
    }
}

/// The outcome of `resolve` against its mathematical form.
pub open spec fn resolve_matches(
    r: Result<Vec<(String, ConfigValue)>, ConfigError>,
    outcome: Result<Tree, ConfigFault>,
) -> bool {
    match r {
        Ok(e) => outcome == Ok::<Tree, ConfigFault>(Tree::Table(entries_tree(e@))),
        Err(e) => outcome == Err::<Tree, ConfigFault>(e@),
    }
}

proof fn lemma_first_unusable(s: Seq<Tree>, i: int)
    requires
        is_first_unusable(s, i),
    ensures
        (choose|c: int| is_first_unusable(s, c)) == i,
{
    let c = choose|c: int| is_first_unusable(s, c);
    assert(is_first_unusable(s, c));
    if c < i {
        assert(usable(s[c]));
    } else if i < c {
        assert(usable(s[i]));
    }
}

/// Whether every table in the graph's metadata gives each key once.
pub open spec fn metadata_wf(m: &Metadata) -> bool {
    &&& wf_tree(m.workspace_metadata@)
    &&& forall|p: int| 0 <= p < m.packages@.len() ==> wf_tree(#[trigger] m.packages@[p].metadata@)
}

proof fn lemma_section_wf(meta: Tree, key: Seq<char>)
    requires
        wf_tree(meta),
    ensures
        wf_tree(section_tree(meta, key)),
{
    if meta is Table {
        let e = meta->Table_0;
        if let Some(i) = first_index(e, key) {
            let c = choose|c: int| is_first_key(e, key, c);
            assert(is_first_key(e, key, c));
            assert(wf_tree(e[i].1));
        }
    }
}

proof fn lemma_merge_sections_wf(acc: Tree, s: Seq<Tree>)
    requires
        wf_tree(acc),
        forall|i: int| 0 <= i < s.len() ==> wf_tree(#[trigger] s[i]),
    ensures
        wf_tree(merge_sections(acc, s)),
    decreases s.len(),
{
    if s.len() > 0 {
        lemma_merge_sections_wf(acc, s.drop_last());
        lemma_merge_wf(merge_sections(acc, s.drop_last()), s.last());
    }
}

/// Where every table of the graph's metadata gives each key once, so does
/// the merged configuration.
pub proof fn lemma_resolved_wf(m: &Metadata, order: Seq<usize>, key: Seq<char>)
    requires
        metadata_wf(m),
        forall|i: int| 0 <= i < order.len() ==> (#[trigger] order[i] as int) < m.packages@.len(),
    ensures
        wf_tree(resolved(m, order, key)),
{
    let s = all_sections(m, order, key);
    assert forall|i: int| 0 <= i < s.len() implies wf_tree(#[trigger] s[i]) by {
        if i == 0 {
            lemma_section_wf(m.workspace_metadata@, key);
        } else {
            assert(s[i] == section_tree(m.packages@[order[i - 1] as int].metadata@, key));
            assert(wf_tree(m.packages@[order[i - 1] as int].metadata@));
            lemma_section_wf(m.packages@[order[i - 1] as int].metadata@, key);
        }
    }
    assert(wf_tree(Tree::Table(Seq::empty())));
    lemma_merge_sections_wf(Tree::Table(Seq::empty()), s);
}

proof fn lemma_merge_sections_table(acc: Tree, s: Seq<Tree>)
    requires
        acc is Table,
    ensures
        merge_sections(acc, s) is Table,
    decreases s.len(),
{
    if s.len() > 0 {
        lemma_merge_sections_table(acc, s.drop_last());
    }
}

/// The section that `meta` declares under `key`.
fn section(meta: &ConfigValue, key: &String) -> (r: ConfigValue)
    ensures
        r@ == section_tree(meta@, key@),
{
    match meta {
        ConfigValue::Table(e) => match find_key(e, key) {
            Some(i) => {
                proof {
                    lemma_entries_tree(e@);
                }
                e[i].1.duplicate()
            },
            None => ConfigValue::Null,
        },
        _ => ConfigValue::Null,
    }
}

fn is_usable(v: &ConfigValue) -> (r: bool)
    ensures
        r == usable(v@),
{
    match v {
        ConfigValue::Null => true,
        ConfigValue::Table(_) => true,
        _ => false,
    }
}

/// Merges the sections that the workspace and then the packages of `order`
/// declare under `key`: the value of a package earlier in `order` wins over
/// that of a later one, and tables under the same key are merged.
pub fn resolve(m: &Metadata, order: &Vec<usize>, key: &String) -> (r: Result<
    Vec<(String, ConfigValue)>,
    ConfigError,
>)
    requires
        forall|i: int| 0 <= i < order@.len() ==> (#[trigger] order@[i] as int) < m.packages@.len(),
    ensures
        resolve_matches(r, resolve_outcome(m, order@, key@)),
        metadata_wf(m) && r is Ok ==> wf_tree(Tree::Table(entries_tree(r->Ok_0@))),
{
    let ghost secs = all_sections(m, order@, key@);
    let ws = section(&m.workspace_metadata, key);
    if !is_usable(&ws) {
        proof {
            assert(secs[0] == ws@);
            assert(is_first_unusable(secs, 0));
            lemma_first_unusable(secs, 0);
            assert(exists|j: int| is_first_unusable(secs, j));
        }
        return Err(ConfigError::WorkspaceSectionNotTable { key: key.clone() });
    }
    let empty: Vec<(String, ConfigValue)> = Vec::new();
    let start = ConfigValue::Table(empty);
    proof {
        assert(entries_tree(empty@) =~= Seq::empty());
        assert(start@ == Tree::Table(Seq::empty()));
    }
    let mut acc = merge(start, ws);
    proof {
        assert(secs.subrange(0, 1).drop_last() =~= Seq::empty());
        assert(secs.subrange(0, 1).last() == secs[0]);
        assert(merge_sections(Tree::Table(Seq::empty()), secs.subrange(0, 1).drop_last()) == Tree::Table(Seq::empty()));
    }
    let mut i: usize = 0;
    while i < order.len()
        invariant
            i <= order@.len(),
            secs == all_sections(m, order@, key@),
            secs.len() == order@.len() + 1,
            forall|j: int| 0 <= j < order@.len() ==> (#[trigger] order@[j] as int) < m.packages@.len(),
            forall|j: int| 0 <= j <= i ==> usable(#[trigger] secs[j]),
            acc@ == merge_sections(Tree::Table(Seq::empty()), secs.subrange(0, i + 1)),
        decreases order.len() - i,
    {
        let p = order[i];
        let sec = section(&m.packages[p].metadata, key);
        assert(secs[i + 1] == sec@);
        if !is_usable(&sec) {
            proof {
                assert(is_first_unusable(secs, i + 1));
                lemma_first_unusable(secs, i + 1);
                assert(exists|j: int| is_first_unusable(secs, j));
            }
            return Err(ConfigError::SectionNotTable { key: key.clone(), package: m.packages[p].name.clone() });
        }
        acc = merge(acc, sec);
        proof {
            assert(secs.subrange(0, i + 2).drop_last() =~= secs.subrange(0, i + 1));
        }
        i = i + 1;
    }
    proof {
        assert(secs.subrange(0, secs.len() as int) =~= secs);
        assert(!exists|j: int| is_first_unusable(secs, j));
        if metadata_wf(m) {
            lemma_resolved_wf(m, order@, key@);
        }
        lemma_merge_sections_table(Tree::Table(Seq::empty()), secs);
    }
    match acc {
        ConfigValue::Table(e) => Ok(e),
        _ => Err(ConfigError::WorkspaceSectionNotTable { key: key.clone() }),
    }
}


/// The packages of the graph reached from its roots, in the order of the
/// walk, with the sections they declare under `key` merged: a value that a
/// package closer to the roots declares wins over one declared farther away,
/// and tables under the same key are merged. The workspace's own section
/// comes before all packages.
pub fn read_metadata(m: &Metadata, key: &str) -> (r: Result<Vec<(String, ConfigValue)>, ConfigError>)
    requires
        m.wf(),
    ensures
        resolve_matches(r, resolve_outcome(m, m.walk_order(), key@)),
        metadata_wf(m) && r is Ok ==> wf_tree(Tree::Table(entries_tree(r->Ok_0@))),
{
    let order = walk(m);
    let k = String::from_str(key);
    resolve(m, &order, &k)
}

proof fn lemma_prefix_step(acc: Tree, s: Seq<Tree>, n: int)
    requires
        0 <= n < s.len(),
    ensures
        merge_sections(acc, s.subrange(0, n + 1)) == merge_tree(
            merge_sections(acc, s.subrange(0, n)),
            s[n],
        ),
{
    assert(s.subrange(0, n + 1).drop_last() =~= s.subrange(0, n));
}

proof fn lemma_prefix_lacks(s: Seq<Tree>, n: int, k: Seq<char>)
    requires
        0 <= n <= s.len(),
        forall|j: int| 0 <= j < n ==> !(#[trigger] s[j] is Table && has_key(s[j]->Table_0, k)),
    ensures
        merge_sections(Tree::Table(Seq::empty()), s.subrange(0, n)) is Table,
        !has_key(merge_sections(Tree::Table(Seq::empty()), s.subrange(0, n))->Table_0, k),
    decreases n,
{
    let e = Tree::Table(Seq::empty());
    if n == 0 {
        assert(s.subrange(0, 0) =~= Seq::<Tree>::empty());
    } else {
        lemma_prefix_lacks(s, n - 1, k);
        lemma_prefix_step(e, s, n - 1);
        let acc = merge_sections(e, s.subrange(0, n - 1));
        if s[n - 1] is Table {
            let be = s[n - 1]->Table_0;
            assert(!has_key(be, k));
            lemma_entries_key_origin(acc->Table_0, be, be.len() as int, k);
        }
    }
}

proof fn lemma_prefix_keeps(s: Seq<Tree>, i: int, n: int, k: Seq<char>)
    requires
        0 <= i < n <= s.len(),
        merge_sections(Tree::Table(Seq::empty()), s.subrange(0, i + 1)) is Table,
        lookup(merge_sections(Tree::Table(Seq::empty()), s.subrange(0, i + 1))->Table_0, k) is Some,
        !(lookup(merge_sections(Tree::Table(Seq::empty()), s.subrange(0, i + 1))->Table_0, k).unwrap() is Table),
    ensures
        merge_sections(Tree::Table(Seq::empty()), s.subrange(0, n)) is Table,
        lookup(merge_sections(Tree::Table(Seq::empty()), s.subrange(0, n))->Table_0, k)
            == lookup(merge_sections(Tree::Table(Seq::empty()), s.subrange(0, i + 1))->Table_0, k),
    decreases n,
{
    if n > i + 1 {
        let e = Tree::Table(Seq::empty());
        lemma_prefix_keeps(s, i, n - 1, k);
        lemma_prefix_step(e, s, n - 1);
        lemma_merge_keeps_scalar(merge_sections(e, s.subrange(0, n - 1)), s[n - 1], k);
    }
}

/// Merge precedence: where the first section that declares key `k` (section
/// `i`) declares a value that is no table, the merged configuration holds
/// that value under `k`, whatever the sections after it declare.
pub proof fn lemma_merge_precedence(s: Seq<Tree>, i: int, k: Seq<char>)
    requires
        0 <= i < s.len(),
        s[i] is Table,
        lookup(s[i]->Table_0, k) is Some,
        !(lookup(s[i]->Table_0, k).unwrap() is Table),
        forall|j: int| 0 <= j < i ==> !(#[trigger] s[j] is Table && has_key(s[j]->Table_0, k)),
    ensures
        merge_sections(Tree::Table(Seq::empty()), s) is Table,
        lookup(merge_sections(Tree::Table(Seq::empty()), s)->Table_0, k) == lookup(
            s[i]->Table_0,
            k,
        ),
{
    let e = Tree::Table(Seq::empty());
    lemma_prefix_lacks(s, i, k);
    lemma_prefix_step(e, s, i);
    let acc = merge_sections(e, s.subrange(0, i));
    let be = s[i]->Table_0;
    let f = choose|f: int| is_first_key(be, k, f);
    assert(is_first_key(be, k, f));
    lemma_merge_adds_scalar(acc->Table_0, be, k, f);
    crate::config::lemma_first_index(be, k, f);
    lemma_prefix_keeps(s, i, s.len() as int, k);
    assert(s.subrange(0, s.len() as int) =~= s);
}

/// Whether a section declares key `k`.
pub open spec fn declares(section: Tree, k: Seq<char>) -> bool {
    section is Table && has_key(section->Table_0, k)
}

/// Merge precedence over the graph: where package `order[i]` is the first
/// package of `order` to declare key `k` in its section under `key`, the
/// workspace's section does not declare it, and the package declares a value
/// that is no table, the merged configuration holds that value under `k`,
/// whatever the packages after it declare. `read_metadata` merges over
/// `m.walk_order()`, where a package closer to the roots comes first.
pub proof fn lemma_package_precedence(m: &Metadata, order: Seq<usize>, key: Seq<char>, i: int, k: Seq<char>)
    requires
        0 <= i < order.len(),
        section_tree(m.packages@[order[i] as int].metadata@, key) is Table,
        lookup(section_tree(m.packages@[order[i] as int].metadata@, key)->Table_0, k) is Some,
        !(lookup(section_tree(m.packages@[order[i] as int].metadata@, key)->Table_0, k).unwrap() is Table),
        !declares(section_tree(m.workspace_metadata@, key), k),
        forall|j: int| 0 <= j < i ==> !declares(section_tree(#[trigger] m.packages@[order[j] as int].metadata@, key), k),
    ensures
        resolved(m, order, key) is Table,
        lookup(resolved(m, order, key)->Table_0, k) == lookup(
            section_tree(m.packages@[order[i] as int].metadata@, key)->Table_0,
            k,
        ),
{
    let s = all_sections(m, order, key);
    assert(s[i + 1] == section_tree(m.packages@[order[i] as int].metadata@, key));
    assert forall|j: int| 0 <= j < i + 1 implies !(#[trigger] s[j] is Table && has_key(s[j]->Table_0, k)) by {
        if j == 0 {
            assert(s[0] == section_tree(m.workspace_metadata@, key));
        } else {
            assert(s[j] == section_tree(m.packages@[order[j - 1] as int].metadata@, key));
            assert(!declares(section_tree(m.packages@[order[j - 1] as int].metadata@, key), k));
        }
    }
    lemma_merge_precedence(s, i + 1, k);
}

} // verus!
