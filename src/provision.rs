//! The decisions of provisioning one artifact: where it goes, whether its
//! cached copy stands, and how it is obtained otherwise.
use vstd::prelude::*;
use crate::artifact::{opt_view, strings_view, ArtifactModel, ArtifactSpec};
use crate::cache::{cache_valid, check_valid_dir, TargetModel, TargetState};
use crate::error::{ProvisionError, ProvisionFault};
use crate::extract::{after_last_dot, archive_kind, kind_spec, suffix_of, ArchiveKind};
use crate::text::{has_prefix, join_path, join_spec, strip_prefix};

verus! {

/// How an artifact is put in place.
#[derive(Debug)]
pub enum Action {
    /// The cached copy stands.
    UseCached,
    /// The target path becomes a symbolic link to the local directory `dir`.
    Link { dir: String },
    /// The local archive at `path` is read and unpacked.
    ReadLocal { path: String, kind: ArchiveKind },
    /// The archive at `url` is downloaded and unpacked.
    Download { url: String, kind: ArchiveKind },
}

/// The mathematical form of an `Action`.
pub enum ActionModel {
    UseCached,
    Link { dir: Seq<char> },
    ReadLocal { path: Seq<char>, kind: ArchiveKind },
    Download { url: Seq<char>, kind: ArchiveKind },
}

impl View for Action {
    type V = ActionModel;

    open spec fn view(&self) -> ActionModel {
        match self {
            Action::UseCached => ActionModel::UseCached,
            Action::Link { dir } => ActionModel::Link { dir: dir@ },
            Action::ReadLocal { path, kind } => ActionModel::ReadLocal { path: path@, kind: *kind },
            Action::Download { url, kind } => ActionModel::Download { url: url@, kind: *kind },
        }
    }
}

/// What to do for one artifact, in order: write `marker_before` as the
/// checksum marker of the target directory, carry out `action`, then write
/// `marker_after` as the marker. `outputs` are the artifact's sub-paths
/// under its target directory.
#[derive(Debug)]
pub struct Plan {
    pub target: String,
    pub marker_before: Option<String>,
    pub action: Action,
    pub marker_after: Option<String>,
    pub outputs: Vec<String>,
}

/// The mathematical form of a `Plan`.
pub struct PlanModel {
    pub target: Seq<char>,
    pub marker_before: Option<Seq<char>>,
    pub action: ActionModel,
    pub marker_after: Option<Seq<char>>,
    pub outputs: Seq<Seq<char>>,
}

impl View for Plan {
    type V = PlanModel;

    open spec fn view(&self) -> PlanModel {
        PlanModel {
            target: self.target@,
            marker_before: opt_view(self.marker_before),
            action: self.action@,
            marker_after: opt_view(self.marker_after),
            outputs: strings_view(self.outputs@),
        }
    }
}

/// The prefix that marks a source as a path on the local filesystem.
pub open spec fn local_prefix() -> Seq<char> {
    "file://"@
}

/// The local path that a source names, where it has the local prefix.
pub open spec fn local_spec(source: Seq<char>) -> Option<Seq<char>> {
    if has_prefix(source, local_prefix()) {
        Some(source.subrange(local_prefix().len() as int, source.len() as int))
    } else {
        None
    }
}

/// The target directory of artifact `name` under provisioning root `root`:
/// the root itself for the empty name.
pub open spec fn target_spec(root: Seq<char>, name: Seq<char>) -> Seq<char> {
    if name.len() == 0 {
        root
    } else {
        join_spec(root, name)
    }
}

/// The sub-paths joined onto the target directory.
pub open spec fn outputs_spec(target: Seq<char>, sub_paths: Seq<Seq<char>>) -> Seq<Seq<char>> {
    sub_paths.map_values(|p: Seq<char>| join_spec(target, p))
}

/// How an artifact from `source` is obtained, where `is_dir` tells whether
/// a local source is a directory. A local archive is read, a remote one
/// downloaded; a local directory with no archive suffix is linked; any other
/// source without a known suffix is refused.
pub open spec fn action_spec(source: Seq<char>, is_dir: bool) -> Result<ActionModel, ProvisionFault> {
    let unsupported = ProvisionFault::UnsupportedFormat { source, suffix: after_last_dot(source) };
    match local_spec(source) {
        Some(path) => match kind_spec(source) {
            Some(kind) => Ok(ActionModel::ReadLocal { path, kind }),
            None => if is_dir {
                Ok(ActionModel::Link { dir: path })
            } else {
                Err(unsupported)
            },
        },
        None => match kind_spec(source) {
            Some(kind) => Ok(ActionModel::Download { url: source, kind }),
            None => Err(unsupported),
        },
    }
}

/// The plan for artifact `a` under root `root`, where its target path is in
/// state `t`. A regular file there is an error. A valid cached copy stands;
/// otherwise the artifact is obtained anew. The marker is written after the
/// check where the directory exists, and after the artifact is put in place.
pub open spec fn plan_outcome(root: Seq<char>, a: ArtifactModel, t: TargetModel, is_dir: bool) -> Result<
    PlanModel,
    ProvisionFault,
> {
    let target = target_spec(root, a.name);
    let before = if t is Directory {
        a.checksum
    } else {
        None
    };
    let outputs = outputs_spec(target, a.sub_paths);
    if t is File {
        Err(ProvisionFault::CacheIo { path: target })
    } else if cache_valid(t, a.checksum) {
        Ok(
            PlanModel {
                target,
                marker_before: before,
                action: ActionModel::UseCached,
                marker_after: None,
                outputs,
            },
        )
    } else {
        match action_spec(a.source, is_dir) {
            Ok(action) => Ok(PlanModel { target, marker_before: before, action, marker_after: a.checksum, outputs }),
            Err(f) => Err(f),
        }
    }
}

/// A result of planning against its mathematical form.
pub open spec fn plan_matches(r: Result<Plan, ProvisionError>, o: Result<PlanModel, ProvisionFault>) -> bool {
    match r {
        Ok(p) => o == Ok::<PlanModel, ProvisionFault>(p@),
        Err(e) => o == Err::<PlanModel, ProvisionFault>(e@),
    }
}

/// The local path that `source` names, where it has the local prefix.
pub fn local_path(source: &str) -> (r: Option<String>)
    ensures
        opt_view(r) == local_spec(source@),
{
    let r = strip_prefix(source, "file://");
    proof {
        reveal_strlit("file://");
    }
    r
}

/// The target directory of artifact `name` under root `root`.
pub fn target_path(root: &str, name: &str) -> (r: String)
    ensures
        r@ == target_spec(root@, name@),
{
    if name.unicode_len() == 0 {
        String::from_str(root)
    } else {
        join_path(root, name)
    }
}

fn copy_opt(o: &Option<String>) -> (r: Option<String>)
    ensures
        opt_view(r) == opt_view(*o),
{
    match o {
        Some(s) => Some(s.clone()),
        None => None,
    }
}

fn outputs(target: &String, sub_paths: &Vec<String>) -> (r: Vec<String>)
    ensures
        strings_view(r@) == outputs_spec(target@, strings_view(sub_paths@)),
{
    let mut out: Vec<String> = Vec::new();
    let mut i: usize = 0;
    while i < sub_paths.len()
        invariant
            i <= sub_paths@.len(),
            strings_view(out@) =~= outputs_spec(target@, strings_view(sub_paths@.subrange(0, i as int))),
        decreases sub_paths.len() - i,
    {
        let ghost before = out@;
        out.push(join_path(target.as_str(), sub_paths[i].as_str()));
        proof {
            assert(strings_view(out@) =~= strings_view(before).push(join_spec(target@, sub_paths@[i as int]@)));
            assert(strings_view(sub_paths@.subrange(0, i + 1)) =~= strings_view(sub_paths@.subrange(0, i as int)).push(sub_paths@[i as int]@));
        }
        i = i + 1;
    }
    proof {
        assert(sub_paths@.subrange(0, i as int) =~= sub_paths@);
    }
    out
}

/// How an artifact from `source` is obtained. A local directory without an
/// archive suffix is linked, not decoded; any other source without a known
/// suffix is refused before anything is read or fetched.
pub fn choose_action(source: &str, source_is_dir: bool) -> (r: Result<Action, ProvisionError>)
    ensures
        kind_spec(source@) is None && local_spec(source@) is Some && source_is_dir ==> (r is Ok
            && r->Ok_0@ == (ActionModel::Link { dir: local_spec(source@)->Some_0 })),
        kind_spec(source@) is None && !(local_spec(source@) is Some && source_is_dir) ==> (r is Err
            && r->Err_0@ == (ProvisionFault::UnsupportedFormat {
                source: source@,
                suffix: after_last_dot(source@),
            })),
        match r {
            Ok(a) => action_spec(source@, source_is_dir) == Ok::<ActionModel, ProvisionFault>(a@),
            Err(e) => action_spec(source@, source_is_dir) == Err::<ActionModel, ProvisionFault>(e@),
        },
{
    let kind = archive_kind(source);
    match local_path(source) {
        Some(path) => match kind {
            Some(kind) => Ok(Action::ReadLocal { path, kind }),
            None => if source_is_dir {
                Ok(Action::Link { dir: path })
            } else {
                Err(ProvisionError::UnsupportedFormat { source: String::from_str(source), suffix: suffix_of(source) })
            },
        },
        None => match kind {
            Some(kind) => Ok(Action::Download { url: String::from_str(source), kind }),
            None => Err(ProvisionError::UnsupportedFormat { source: String::from_str(source), suffix: suffix_of(source) }),
        },
    }
}

/// Plans the provisioning of artifact `spec` under root `root`, where its
/// target path is in state `target` and `source_is_dir` tells whether a
/// local source is a directory.
pub fn plan_artifact(root: &str, spec: &ArtifactSpec, target: &TargetState, source_is_dir: bool) -> (r: Result<
    Plan,
    ProvisionError,
>)
    ensures
        plan_matches(r, plan_outcome(root@, spec@, target@, source_is_dir)),
        target@ is File ==> (r is Err && r->Err_0@ == (ProvisionFault::CacheIo {
            path: target_spec(root@, spec.name@),
        })),
{
    let dst = target_path(root, spec.name.as_str());
    let valid = match check_valid_dir(dst.as_str(), target, &spec.checksum) {
        Ok(v) => v,
        Err(e) => {
            return Err(e);
        },
    };
    let before = match target {
        TargetState::Directory { .. } => copy_opt(&spec.checksum),
        _ => None,
    };
    let outs = outputs(&dst, &spec.sub_paths);
    if valid {
        Ok(Plan { target: dst, marker_before: before, action: Action::UseCached, marker_after: None, outputs: outs })
    } else {
        match choose_action(spec.source.as_str(), source_is_dir) {
            Ok(action) => Ok(Plan { target: dst, marker_before: before, action, marker_after: copy_opt(&spec.checksum), outputs: outs }),
            Err(e) => Err(e),
        }
    }
}


/// The marker that a target state holds.
pub open spec fn marker_of(t: TargetModel) -> Option<Seq<char>> {
    match t {
        TargetModel::Directory { marker, .. } => marker,
        _ => None,
    }
}

/// The state of the target path once plan `p` has been carried out on
/// state `t`, where the artifact put in place leaves a directory that holds
/// entries exactly when `filled`.
pub open spec fn state_after(t: TargetModel, p: PlanModel, filled: bool) -> TargetModel {
    let checked = match (t, p.marker_before) {
        (TargetModel::Directory { non_empty, .. }, Some(c)) => TargetModel::Directory {
            non_empty,
            marker: Some(c),
        },
        _ => t,
    };
    if p.action is UseCached {
        checked
    } else {
        TargetModel::Directory {
            non_empty: filled,
            marker: match p.marker_after {
                Some(c) => Some(c),
                None => marker_of(checked),
            },
        }
    }
}

/// Idempotent caching: a run that succeeds on a missing target obtains the
/// artifact; once any successful run's plan is carried out, the next run
/// with the same spec keeps the cached copy, where a checksum is declared or
/// the artifact put in place holds entries; and where a checksum is
/// declared, the marker holds it after either run.
pub proof fn lemma_second_run_cached(
    root: Seq<char>,
    a: ArtifactModel,
    t: TargetModel,
    is_dir: bool,
    filled: bool,
)
    requires
        a.checksum is Some || filled,
        plan_outcome(root, a, t, is_dir) is Ok,
    ensures
        ({
            let first_plan = plan_outcome(root, a, t, is_dir)->Ok_0;
            let t1 = state_after(t, first_plan, filled);
            let o2 = plan_outcome(root, a, t1, is_dir);
            &&& (t is Missing ==> !(first_plan.action is UseCached))
            &&& o2 is Ok
            &&& o2->Ok_0.action is UseCached
            &&& o2->Ok_0.outputs == first_plan.outputs
            &&& (a.checksum is Some ==> marker_of(t1) == a.checksum)
            &&& (a.checksum is Some ==> marker_of(state_after(t1, o2->Ok_0, filled)) == a.checksum)
        }),
{
}

/// Changed checksum: where the checksum declared for an artifact changes
/// between two runs, the second run does not keep the copy that the first
/// one left, whatever that directory holds; it obtains the artifact anew,
/// or fails only for want of a usable source.
pub proof fn lemma_changed_checksum_reprovisions(
    root: Seq<char>,
    a1: ArtifactModel,
    a2: ArtifactModel,
    t: TargetModel,
    is_dir: bool,
    filled: bool,
)
    requires
        a1.checksum is Some,
        a2.checksum is Some,
        a1.checksum != a2.checksum,
        a2.name == a1.name,
        a2.source == a1.source,
        plan_outcome(root, a1, t, is_dir) is Ok,
    ensures
        ({
            let first_plan = plan_outcome(root, a1, t, is_dir)->Ok_0;
            let t1 = state_after(t, first_plan, filled);
            let o2 = plan_outcome(root, a2, t1, is_dir);
            &&& !(first_plan.action is UseCached) ==> o2 is Ok
            &&& o2 is Ok ==> !(o2->Ok_0.action is UseCached)
            &&& o2 is Err ==> o2->Err_0 is UnsupportedFormat
        }),
{
}

} // verus!
