//! The list of recently opened projects, most recent first, without
//! duplicates and capped in length.

use vstd::prelude::*;

use crate::strings::text_eq;

verus! {

/// How many projects the list keeps.
pub const MAX_RECENT_PROJECTS: usize = 20;

/// A folder previously opened as a project.
pub struct RecentProject {
    pub path: String,
    pub name: String,
    pub opened_at: u64,
}

/// `projects` without those at `path`.
pub open spec fn without_path(projects: Seq<RecentProject>, path: Seq<char>) -> Seq<RecentProject> {
    projects.filter(elsewhere(path))
}

/// Whether a project lies at a path other than `path`.
pub open spec fn elsewhere(path: Seq<char>) -> spec_fn(RecentProject) -> bool {
    |p: RecentProject| p.path@ != path
}

/// The list once `project` is recorded: first, with any older entry for the
/// same path dropped, and cut to the cap.
pub open spec fn recorded_list(projects: Seq<RecentProject>, project: RecentProject) -> Seq<RecentProject> {
    let list = seq![project] + without_path(projects, project.path@);
    if list.len() > MAX_RECENT_PROJECTS {
        list.take(MAX_RECENT_PROJECTS as int)
    } else {
        list
    }
}

/// The durable list of recently opened projects (the file it is kept in is
/// the caller's).
pub struct ProjectRegistry {
    projects: Vec<RecentProject>,
}

impl View for ProjectRegistry {
    type V = Seq<RecentProject>;

    closed spec fn view(&self) -> Seq<RecentProject> {
        self.projects@
    }
}

/// Keeps the entries of `projects` whose path is neither `a` nor `b`.
fn keep_other_paths(projects: Vec<RecentProject>, a: &str, b: &str) -> (kept: Vec<RecentProject>)
    ensures
        kept@ == projects@.filter(|p: RecentProject| p.path@ != a@ && p.path@ != b@),
{
    let ghost all = projects@;
    let ghost pred = |p: RecentProject| p.path@ != a@ && p.path@ != b@;
    let mut rest = projects;
    let mut kept: Vec<RecentProject> = Vec::new();
    let ghost mut taken: int = 0;
    assert(all.take(0).filter(pred) =~= Seq::<RecentProject>::empty()) by {
        reveal_with_fuel(Seq::filter, 1);
    }
    assert(all.skip(0) =~= all);
    while rest.len() > 0
        invariant
            0 <= taken <= all.len(),
            rest@ == all.skip(taken),
            kept@ == all.take(taken).filter(pred),
            pred == (|p: RecentProject| p.path@ != a@ && p.path@ != b@),
        decreases rest@.len(),
    {
        let project = rest.remove(0);
        proof {
            assert(project == all[taken]);
            assert(all.take(taken + 1) =~= all.take(taken).push(all[taken]));
            all.take(taken).lemma_filter_push(all[taken], pred);
            assert(rest@ =~= all.skip(taken + 1));
        }
        let other = !text_eq(project.path.as_str(), a) && !text_eq(project.path.as_str(), b);
        if other {
            kept.push(project);
        }
        proof {
            taken = taken + 1;
        }
    }
    assert(all.take(taken) =~= all);
    kept
}

impl ProjectRegistry {
    /// A registry with no projects.
    pub fn empty() -> (registry: Self)
        ensures
            registry@ == Seq::<RecentProject>::empty(),
    {
        ProjectRegistry { projects: Vec::new() }
    }

    /// A registry holding `projects`, as read back from where it was kept.
    pub fn from_projects(projects: Vec<RecentProject>) -> (registry: Self)
        ensures
            registry@ == projects@,
    {
        ProjectRegistry { projects }
    }

    pub fn projects(&self) -> (projects: &[RecentProject])
        ensures
            projects@ == self@,
    {
        self.projects.as_slice()
    }

    /// Records that the project at `path` was opened at `opened_at`: it
    /// comes first, any older entry for it goes, and the list is cut to
    /// its cap. Returns the new entry.
    pub fn record(&mut self, path: String, name: String, opened_at: u64) -> (recorded: RecentProject)
        ensures
            recorded.path@ == path@,
            recorded.name@ == name@,
            recorded.opened_at == opened_at,
            final(self)@ == recorded_list(
                old(self)@,
                RecentProject { path, name, opened_at },
            ),
    {
        let ghost entry = RecentProject { path, name, opened_at };
        let copy = RecentProject { path: path.clone(), name: name.clone(), opened_at };
        let mut previous: Vec<RecentProject> = Vec::new();
        std::mem::swap(&mut previous, &mut self.projects);
        let kept = keep_other_paths(previous, path.as_str(), path.as_str());
        assert(kept@ =~= without_path(old(self)@, path@)) by {
            assert((|p: RecentProject| p.path@ != path@ && p.path@ != path@) =~= elsewhere(path@));
        }
        let mut list: Vec<RecentProject> = Vec::new();
        list.push(RecentProject { path, name, opened_at });
        let mut rest = kept;
        let ghost tail = rest@;
        let ghost mut moved: int = 0;
        assert(tail.skip(0) =~= tail);
        while rest.len() > 0
            invariant
                0 <= moved <= tail.len(),
                rest@ == tail.skip(moved),
                list@ == seq![entry] + tail.take(moved),
            decreases rest@.len(),
        {
            let project = rest.remove(0);
            list.push(project);
            proof {
                assert(tail.take(moved + 1) =~= tail.take(moved).push(tail[moved]));
                assert(rest@ =~= tail.skip(moved + 1));
                moved = moved + 1;
            }
        }
        assert(tail.take(moved) =~= tail);
        list.truncate(MAX_RECENT_PROJECTS);
        self.projects = list;
        copy
    }

    /// Forgets the project at `canonical` (its canonical path) or at `root`
    /// (the path as given); whether one was there.
    pub fn remove(&mut self, canonical: &str, root: &str) -> (removed: bool)
        ensures
            final(self)@ == old(self)@.filter(|p: RecentProject| p.path@ != canonical@ && p.path@ != root@),
            removed == (final(self)@.len() != old(self)@.len()),
    {
        let before = self.projects.len();
        let mut previous: Vec<RecentProject> = Vec::new();
        std::mem::swap(&mut previous, &mut self.projects);
        self.projects = keep_other_paths(previous, canonical, root);
        self.projects.len() != before
    }
}

/// No two projects in `projects` share a path.
pub open spec fn unique_paths(projects: Seq<RecentProject>) -> bool {
    forall|i: int, j: int| 0 <= i < j < projects.len() ==> projects[i].path@ != projects[j].path@
}

proof fn lemma_without_path(projects: Seq<RecentProject>, path: Seq<char>)
    ensures
        forall|i: int| 0 <= i < without_path(projects, path).len() ==> (#[trigger] without_path(projects, path)[i]).path@ != path,
        forall|i: int| 0 <= i < without_path(projects, path).len() ==> projects.contains(#[trigger] without_path(projects, path)[i]),
        unique_paths(projects) ==> unique_paths(without_path(projects, path)),
    decreases projects.len(),
{
    let pred = elsewhere(path);
    projects.filter_lemma(pred);
    if projects.len() > 0 {
        let rest = projects.drop_last();
        let last = projects.last();
        lemma_without_path(rest, path);
        assert(projects =~= rest.push(last));
        rest.lemma_filter_push(last, pred);
        if unique_paths(projects) {
            assert(unique_paths(rest));
            let kept = without_path(rest, path);
            if pred(last) {
                assert forall|i: int| 0 <= i < kept.len() implies kept[i].path@ != last.path@ by {
                    let k = choose|k: int| 0 <= k < rest.len() && rest[k] == kept[i];
                    assert(projects[k] == rest[k]);
                }
                assert(without_path(projects, path) == kept.push(last));
            }
        }
    }
}

/// Recording a project puts it first, keeps no other entry for its path,
/// never lets the list grow past its cap, and keeps paths unique when they
/// were.
pub proof fn lemma_record_keeps_list_sound(projects: Seq<RecentProject>, project: RecentProject)
    ensures
        ({
            let list = recorded_list(projects, project);
            &&& 1 <= list.len() <= MAX_RECENT_PROJECTS
            &&& list[0] == project
            &&& forall|i: int| 1 <= i < list.len() ==> (#[trigger] list[i]).path@ != project.path@
            &&& unique_paths(projects) ==> unique_paths(list)
        }),
{
    lemma_without_path(projects, project.path@);
    let full = seq![project] + without_path(projects, project.path@);
    assert forall|i: int| 1 <= i < full.len() implies (#[trigger] full[i]).path@ != project.path@ by {
        assert(full[i] == without_path(projects, project.path@)[i - 1]);
    }
    if unique_paths(projects) {
        assert forall|i: int, j: int| 0 <= i < j < full.len() implies full[i].path@ != full[j].path@ by {
            if i > 0 {
                assert(full[i] == without_path(projects, project.path@)[i - 1]);
                assert(full[j] == without_path(projects, project.path@)[j - 1]);
            }
        }
    }
}

} // verus!
