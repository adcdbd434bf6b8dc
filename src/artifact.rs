//! The artifact entries of a merged configuration, read into specs.
use vstd::prelude::*;
use crate::config::{entries_tree, find_key, lemma_entries_tree, lookup, kind_name, ConfigValue, Tree};
use crate::error::{config_error_text, ConfigError, ConfigFault};
use crate::graph::Metadata;
use crate::resolve::{read_metadata, resolve_matches, resolve_outcome};
use crate::text::{has_prefix, starts_with};

verus! {

/// One artifact to provision: where it comes from, the checksum that keeps
/// its cached copy valid, and the paths inside it that later steps use.
#[derive(Debug)]
pub struct ArtifactSpec {
    pub name: String,
    pub source: String,
    pub checksum: Option<String>,
    pub sub_paths: Vec<String>,
}

/// The mathematical form of an `ArtifactSpec`.
pub struct ArtifactModel {
    pub name: Seq<char>,
    pub source: Seq<char>,
    pub checksum: Option<Seq<char>>,
    pub sub_paths: Seq<Seq<char>>,
}

/// The text that an optional string holds.
pub open spec fn opt_view(o: Option<String>) -> Option<Seq<char>> {
    match o {
        Some(s) => Some(s@),
        None => None,
    }
}

/// The texts that strings hold.
pub open spec fn strings_view(v: Seq<String>) -> Seq<Seq<char>> {
    v.map_values(|s: String| s@)
}

impl View for ArtifactSpec {
    type V = ArtifactModel;

    open spec fn view(&self) -> ArtifactModel {
        ArtifactModel {
            name: self.name@,
            source: self.source@,
            checksum: opt_view(self.checksum),
            sub_paths: strings_view(self.sub_paths@),
        }
    }
}

/// The text that a string value holds.
pub open spec fn text_of(t: Tree) -> Seq<char> {
    match t {
        Tree::Text(s) => s,
        _ => Seq::empty(),
    }
}

/// Whether item `i` is the first of `items` that is no string.
pub open spec fn is_first_non_text(items: Seq<Tree>, i: int) -> bool {
    &&& 0 <= i < items.len()
    &&& !(items[i] is Text)
    &&& forall|j: int| 0 <= j < i ==> #[trigger] items[j] is Text
}

/// The checksum that entry `e` declares, or the value that stands where a
/// string should.
pub open spec fn checksum_outcome(e: Seq<(Seq<char>, Tree)>) -> Result<Option<Seq<char>>, Tree> {
    match lookup(e, "checksum"@) {
        None => Ok(None),
        Some(Tree::Text(c)) => Ok(Some(c)),
        Some(other) => Err(other),
    }
}

/// The sub-paths that entry `e` declares, none where it declares none, or
/// the value that stands where a string or a list of them should.
pub open spec fn sub_paths_outcome(e: Seq<(Seq<char>, Tree)>) -> Result<Seq<Seq<char>>, Tree> {
    match lookup(e, "subPaths"@) {
        None => Ok(Seq::empty()),
        Some(Tree::List(items)) => if exists|i: int| is_first_non_text(items, i) {
            Err(items[choose|i: int| is_first_non_text(items, i)])
        } else {
            Ok(items.map_values(|t: Tree| text_of(t)))
        },
        Some(other) => Err(other),
    }
}

/// What the entry of artifact `name` under section `key` reads as.
pub open spec fn entry_outcome(key: Seq<char>, name: Seq<char>, t: Tree) -> Result<
    ArtifactModel,
    ConfigFault,
> {
    match t {
        Tree::Table(e) => match lookup(e, "source"@) {
            None => Err(ConfigFault::MissingSource { key, name }),
            Some(Tree::Text(source)) => match checksum_outcome(e) {
                Err(bad) => Err(
                    ConfigFault::UnexpectedType {
                        key,
                        name,
                        field: "checksum"@,
                        found: kind_name(bad),
                    },
                ),
                Ok(checksum) => match sub_paths_outcome(e) {
                    Err(bad) => Err(
                        ConfigFault::UnexpectedType {
                            key,
                            name,
                            field: "subPaths"@,
                            found: kind_name(bad),
                        },
                    ),
                    Ok(sub_paths) => Ok(ArtifactModel { name, source, checksum, sub_paths }),
                },
            },
            Some(other) => Err(
                ConfigFault::UnexpectedType {
                    key,
                    name,
                    field: "source"@,
                    found: kind_name(other),
                },
            ),
        },
        _ => Err(ConfigFault::EntryNotTable { key, name }),
    }
}

/// What the entries `es` of section `key` read as: the specs in order, or
/// the error of the first entry that cannot be read.
pub open spec fn artifacts_outcome(key: Seq<char>, es: Seq<(Seq<char>, Tree)>) -> Result<
    Seq<ArtifactModel>,
    ConfigFault,
>
    decreases es.len(),
{
    if es.len() == 0 {
        Ok(Seq::empty())
    } else {
        match artifacts_outcome(key, es.drop_last()) {
            Err(f) => Err(f),
            Ok(v) => match entry_outcome(key, es.last().0, es.last().1) {
                Ok(a) => Ok(v.push(a)),
                Err(f) => Err(f),
            },
        }
    }
}

/// The mathematical forms of artifact specs.
pub open spec fn specs_view(v: Seq<ArtifactSpec>) -> Seq<ArtifactModel> {
    v.map_values(|a: ArtifactSpec| a@)
}

/// A result of reading artifacts against its mathematical form.
pub open spec fn artifacts_match(
    r: Result<Vec<ArtifactSpec>, ConfigError>,
    outcome: Result<Seq<ArtifactModel>, ConfigFault>,
) -> bool {
    match r {
        Ok(v) => outcome == Ok::<Seq<ArtifactModel>, ConfigFault>(specs_view(v@)),
        Err(e) => outcome == Err::<Seq<ArtifactModel>, ConfigFault>(e@),
    }
}

/// The position of field `f` in entry `e`.
fn field(e: &Vec<(String, ConfigValue)>, f: &str) -> (r: Option<usize>)
    ensures
        match r {
            Some(i) => i < e@.len() && lookup(entries_tree(e@), f@) == Some(e@[i as int].1@),
            None => lookup(entries_tree(e@), f@) is None,
        },
{
    let k = String::from_str(f);
    let r = find_key(e, &k);
    proof {
        lemma_entries_tree(e@);
    }
    r
}

fn read_checksum(e: &Vec<(String, ConfigValue)>) -> (r: Result<Option<String>, String>)
    ensures
        match r {
            Ok(c) => checksum_outcome(entries_tree(e@)) == Ok::<Option<Seq<char>>, Tree>(opt_view(c)),
            Err(k) => checksum_outcome(entries_tree(e@)) is Err && k@ == kind_name(
                checksum_outcome(entries_tree(e@))->Err_0,
            ),
        },
{
    match field(e, "checksum") {
        None => Ok(None),
        Some(i) => match &e[i].1 {
            ConfigValue::Text(c) => Ok(Some(c.clone())),
            other => Err(other.kind()),
        },
    }
}

fn read_sub_paths(e: &Vec<(String, ConfigValue)>) -> (r: Result<Vec<String>, String>)
    ensures
        match r {
            Ok(p) => sub_paths_outcome(entries_tree(e@)) == Ok::<Seq<Seq<char>>, Tree>(
                strings_view(p@),
            ),
            Err(k) => sub_paths_outcome(entries_tree(e@)) is Err && k@ == kind_name(
                sub_paths_outcome(entries_tree(e@))->Err_0,
            ),
        },
{
    match field(e, "subPaths") {
        None => {
            let v: Vec<String> = Vec::new();
            assert(strings_view(v@) =~= Seq::empty());
            Ok(v)
        },
        Some(i) => match &e[i].1 {
            ConfigValue::List(items) => {
                let ghost t = crate::config::list_tree(items@);
                proof {
                    lemma_list_tree(items@);
                    assert(lookup(entries_tree(e@), "subPaths"@) == Some(Tree::List(t)));
                }
                let mut out: Vec<String> = Vec::new();
                let mut j: usize = 0;
                while j < items.len()
                    invariant
                        j <= items@.len(),
                        t == crate::config::list_tree(items@),
                        t.len() == items@.len(),
                        lookup(entries_tree(e@), "subPaths"@) == Some(Tree::List(t)),
                        forall|q: int| 0 <= q < items@.len() ==> #[trigger] t[q] == items@[q]@,
                        forall|q: int| 0 <= q < j ==> #[trigger] t[q] is Text,
                        strings_view(out@) =~= t.subrange(0, j as int).map_values(|x: Tree| text_of(x)),
                    decreases items.len() - j,
                {
                    match &items[j] {
                        ConfigValue::Text(s) => {
                            let ghost before = out@;
                            out.push(s.clone());
                            proof {
                                assert(t[j as int] == Tree::Text(s@));
                                assert(strings_view(out@) =~= strings_view(before).push(s@));
                                assert(t.subrange(0, j + 1).map_values(|x: Tree| text_of(x))
                                    =~= t.subrange(0, j as int).map_values(|x: Tree| text_of(x)).push(s@));
                            }
                        },
                        other => {
                            proof {
                                assert(is_first_non_text(t, j as int));
                                lemma_first_non_text(t, j as int);
                            }
                            return Err(other.kind());
                        },
                    }
                    j = j + 1;
                }
                proof {
                    assert(t.subrange(0, j as int) =~= t);
                    assert(!exists|q: int| is_first_non_text(t, q));
                }
                Ok(out)
            },
            other => Err(other.kind()),
        },
    }
}

proof fn lemma_list_tree(l: Seq<ConfigValue>)
    ensures
        crate::config::list_tree(l).len() == l.len(),
        forall|i: int| 0 <= i < l.len() ==> #[trigger] crate::config::list_tree(l)[i] == l[i]@,
    decreases l.len(),
{
    if l.len() > 0 {
        lemma_list_tree(l.drop_last());
    }
}

proof fn lemma_first_non_text(items: Seq<Tree>, i: int)
    requires
        is_first_non_text(items, i),
    ensures
        (choose|c: int| is_first_non_text(items, c)) == i,
{
    let c = choose|c: int| is_first_non_text(items, c);
    assert(is_first_non_text(items, c));
    if c < i {
        assert(items[c] is Text);
    } else if i < c {
        assert(items[i] is Text);
    }
}


/// Reads the entry `v` of artifact `name` under section `key`.
pub fn read_entry(key: &String, name: &String, v: &ConfigValue) -> (r: Result<ArtifactSpec, ConfigError>)
    ensures
        match r {
            Ok(a) => entry_outcome(key@, name@, v@) == Ok::<ArtifactModel, ConfigFault>(a@),
            Err(e) => entry_outcome(key@, name@, v@) == Err::<ArtifactModel, ConfigFault>(e@),
        },
{
    match v {
        ConfigValue::Table(e) => {
            let source = match field(e, "source") {
                None => {
                    return Err(ConfigError::MissingSource { key: key.clone(), name: name.clone() });
                },
                Some(i) => match &e[i].1 {
                    ConfigValue::Text(s) => s.clone(),
                    other => {
                        return Err(
                            ConfigError::UnexpectedType {
                                key: key.clone(),
                                name: name.clone(),
                                field: String::from_str("source"),
                                found: other.kind(),
                            },
                        );
                    },
                },
            };
            let checksum = match read_checksum(e) {
                Ok(c) => c,
                Err(found) => {
                    return Err(
                        ConfigError::UnexpectedType {
                            key: key.clone(),
                            name: name.clone(),
                            field: String::from_str("checksum"),
                            found,
                        },
                    );
                },
            };
            let sub_paths = match read_sub_paths(e) {
                Ok(p) => p,
                Err(found) => {
                    return Err(
                        ConfigError::UnexpectedType {
                            key: key.clone(),
                            name: name.clone(),
                            field: String::from_str("subPaths"),
                            found,
                        },
                    );
                },
            };
            Ok(ArtifactSpec { name: name.clone(), source, checksum, sub_paths })
        },
        _ => Err(ConfigError::EntryNotTable { key: key.clone(), name: name.clone() }),
    }
}

proof fn lemma_artifacts_error_stays(key: Seq<char>, es: Seq<(Seq<char>, Tree)>, n: int)
    requires
        0 <= n <= es.len(),
        artifacts_outcome(key, es.subrange(0, n)) is Err,
    ensures
        artifacts_outcome(key, es) == artifacts_outcome(key, es.subrange(0, n)),
    decreases es.len() - n,
{
    if n < es.len() {
        assert(es.subrange(0, n + 1).drop_last() =~= es.subrange(0, n));
        lemma_artifacts_error_stays(key, es, n + 1);
    } else {
        assert(es.subrange(0, n) =~= es);
    }
}

/// Reads every entry of a merged section `key` into an artifact spec, in
/// the order of the entries; fails with the error of the first entry that
/// cannot be read.
pub fn read_artifacts(key: &str, entries: &Vec<(String, ConfigValue)>) -> (r: Result<
    Vec<ArtifactSpec>,
    ConfigError,
>)
    ensures
        artifacts_match(r, artifacts_outcome(key@, entries_tree(entries@))),
{
    let k = String::from_str(key);
    let ghost es = entries_tree(entries@);
    proof {
        lemma_entries_tree(entries@);
    }
    let mut out: Vec<ArtifactSpec> = Vec::new();
    let mut i: usize = 0;
    proof {
        assert(es.subrange(0, 0) =~= Seq::<(Seq<char>, Tree)>::empty());
        assert(specs_view(out@) =~= Seq::<ArtifactModel>::empty());
    }
    while i < entries.len()
        invariant
            i <= entries@.len(),
            k@ == key@,
            es == entries_tree(entries@),
            es.len() == entries@.len(),
            forall|q: int| 0 <= q < entries@.len() ==> #[trigger] es[q] == (entries@[q].0@, entries@[q].1@),
            artifacts_outcome(key@, es.subrange(0, i as int)) == Ok::<Seq<ArtifactModel>, ConfigFault>(
                specs_view(out@),
            ),
        decreases entries.len() - i,
    {
        proof {
            assert(es.subrange(0, i + 1).drop_last() =~= es.subrange(0, i as int));
            assert(es.subrange(0, i + 1).last() == es[i as int]);
        }
        match read_entry(&k, &entries[i].0, &entries[i].1) {
            Ok(a) => {
                let ghost before = out@;
                out.push(a);
                proof {
                    assert(specs_view(out@) =~= specs_view(before).push(a@));
                }
            },
            Err(e) => {
                proof {
                    lemma_artifacts_error_stays(key@, es, i + 1);
                }
                return Err(e);
            },
        }
        i = i + 1;
    }
    proof {
        assert(es.subrange(0, i as int) =~= es);
    }
    Ok(out)
}


/// What the artifacts that graph `m`, visited in `order`, declares under
/// `key` read as.
pub open spec fn config_outcome(m: &Metadata, order: Seq<usize>, key: Seq<char>) -> Result<
    Seq<ArtifactModel>,
    ConfigFault,
> {
    match resolve_outcome(m, order, key) {
        Err(f) => Err(f),
        Ok(t) => artifacts_outcome(key, t->Table_0),
    }
}

/// Whether an outcome is an error whose description starts with `p`.
pub open spec fn fails_with_prefix(o: Result<Seq<ArtifactModel>, ConfigFault>, p: Seq<char>) -> bool {
    o is Err && has_prefix(config_error_text(o->Err_0), p)
}

/// The artifacts that the package graph `m` declares under `key`: the
/// sections merged over the walk, then each entry read into a spec.
pub fn read_config(m: &Metadata, key: &str) -> (r: Result<Vec<ArtifactSpec>, ConfigError>)
    requires
        m.wf(),
    ensures
        artifacts_match(r, config_outcome(m, m.walk_order(), key@)),
{
    match read_metadata(m, key) {
        Ok(entries) => read_artifacts(key, &entries),
        Err(e) => Err(e),
    }
}

/// Whether reading the artifacts that graph `m` declares under `key` fails
/// with an error whose description starts with `err_starts_with`.
pub fn toml_err(m: &Metadata, key: &str, err_starts_with: &str) -> (r: bool)
    requires
        m.wf(),
    ensures
        r == fails_with_prefix(config_outcome(m, m.walk_order(), key@), err_starts_with@),
{
    match read_config(m, key) {
        Ok(_) => false,
        Err(e) => {
            let d = e.description();
            starts_with(d.as_str(), err_starts_with)
        },
    }
}

} // verus!
