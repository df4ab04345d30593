use vstd::prelude::*;
use vstd::hash_map::StringHashMap;
use crate::errors::{AddProjectError, MarkProjectAsAffectedError};
use crate::graph::{
    all_exist, dependents_exist, first_missing, has_path, id_at, lemma_with_project_well_formed,
    occurrences, well_formed, with_project,
};
use crate::reach::{
    dependent_chain, lemma_closed_marks_cover_chain, lemma_flags_keep_well_formed,
    lemma_marking_lowers_count, lemma_reaches_itself, lemma_reaches_unaffected_step, marked_from,
    newly_marked_closed, reaches_unaffected, same_but_flags, unaffected_chain, unaffected_count,
};
use crate::project::{Project, ProjectId, ProjectView};

verus! {

/// A collection of projects and the dependency edges between them.
///
/// Projects live in an arena in insertion order; an index maps each path to the
/// identifier of the project at that path.
pub struct Workspace {
    arena: Vec<Project>,
    hash: StringHashMap<ProjectId>,
}

impl View for Workspace {
    type V = Seq<ProjectView>;

    /// The projects of the workspace, each at the position its identifier names.
    closed spec fn view(&self) -> Seq<ProjectView> {
        self.arena@.map_values(|p: Project| p@)
    }
}

impl Workspace {
    /// The index knows exactly the paths of the arena, each with its position.
    pub closed spec fn index_wf(&self) -> bool {
        &&& forall|path: Seq<char>| #[trigger]
            self.hash@.contains_key(path) ==> {
                &&& self.hash@[path].0 < self.arena@.len()
                &&& self.arena@[self.hash@[path].0 as int].path@ == path
            }
        &&& forall|i: int|
            0 <= i < self.arena@.len() ==> self.hash@.contains_key(
                (#[trigger] self.arena@[i]).path@,
            )
    }

    /// The invariant of a workspace.
    pub open spec fn wf(&self) -> bool {
        &&& self.index_wf()
        &&& well_formed(self@)
    }

    /// An empty workspace.
    pub fn new() -> (workspace: Self)
        ensures
            workspace.wf(),
            workspace@ == Seq::<ProjectView>::empty(),
    {
        let workspace = Self { arena: Vec::new(), hash: StringHashMap::new() };
        assert(workspace@ =~= Seq::<ProjectView>::empty());
        workspace
    }

    /// Adds `project` under the next free identifier and records it as a dependent of
    /// each of its dependencies.
    ///
    /// The dependents that `project` arrives with are not kept: a project enters the
    /// workspace with none. A path that is already present, or a dependency that denotes
    /// no project, is refused and leaves the workspace as it was.
    pub fn add_project(&mut self, project: Project) -> (res: Result<ProjectId, AddProjectError>)
        requires
            old(self).wf(),
        ensures
            final(self).wf(),
            match res {
                Ok(id) => {
                    &&& !has_path(old(self)@, project@.path)
                    &&& all_exist(old(self)@.len() as int, project@.deps())
                    &&& id == id_at(old(self)@.len() as int)
                    &&& final(self)@ == with_project(old(self)@, project@)
                },
                Err(AddProjectError::PathAlreadyAdded(existing)) => {
                    &&& existing.0 < old(self)@.len()
                    &&& old(self)@[existing.0 as int].path == project@.path
                    &&& final(self)@ == old(self)@
                },
                Err(AddProjectError::DependencyNotFound(missing)) => {
                    &&& !has_path(old(self)@, project@.path)
                    &&& first_missing(old(self)@.len() as int, project@.deps(), missing)
                    &&& final(self)@ == old(self)@
                },
            },
    {
        let count = self.arena.len();
        let id = ProjectId::new(count);
        if let Some(existing) = self.hash.get(project.path.as_str()) {
            return Err(AddProjectError::PathAlreadyAdded(*existing));
        }
        proof {
            if has_path(self@, project@.path) {
                let i = choose|i: int| 0 <= i < self@.len() && (#[trigger] self@[i]).path == project@.path;
                assert(self.hash@.contains_key(self.arena@[i].path@));
            }
        }
        if let Some(dependencies) = &project.dependencies {
            let mut k: usize = 0;
            while k < dependencies.len()
                invariant
                    k <= dependencies@.len(),
                    count == self.arena@.len(),
                    all_exist(count as int, dependencies@.take(k as int)),
                    *self == *old(self),
                    old(self).wf(),
                    !has_path(old(self)@, project@.path),
                    project@.deps() == dependencies@,
                decreases dependencies@.len() - k,
            {
                let dependency = dependencies[k];
                if dependency.into_inner() >= count {
                    return Err(AddProjectError::DependencyNotFound(dependency));
                }
                assert(dependencies@.take(k as int + 1) =~= dependencies@.take(k as int).push(
                    dependency,
                ));
                k += 1;
            }
            assert(dependencies@.take(k as int) =~= dependencies@);
            let mut k: usize = 0;
            while k < dependencies.len()
                invariant
                    k <= dependencies@.len(),
                    all_exist(count as int, dependencies@),
                    count == self.arena@.len(),
                    count == old(self)@.len(),
                    self.hash == old(self).hash,
                    forall|i: int|
                        0 <= i < count ==> (#[trigger] self@[i]) == (ProjectView {
                            dependents: old(self)@[i].dependents + Seq::new(
                                occurrences(dependencies@.take(k as int), id_at(i)),
                                |j: int| id,
                            ),
                            ..old(self)@[i]
                        }),
                decreases dependencies@.len() - k,
            {
                let dependency = dependencies[k];
                let ghost before = self@;
                self.arena[dependency.into_inner()].add_dependent(id);
                proof {
                    let prefix = dependencies@.take(k as int);
                    let longer = dependencies@.take(k as int + 1);
                    assert(longer.drop_last() =~= prefix);
                    assert(longer.last() == dependency);
                    assert forall|i: int| 0 <= i < count implies (#[trigger] self@[i]) == (
                    ProjectView {
                        dependents: old(self)@[i].dependents + Seq::new(
                            occurrences(longer, id_at(i)),
                            |j: int| id,
                        ),
                        ..old(self)@[i]
                    }) by {
                        assert(before[i].path == old(self)@[i].path);
                        if i == dependency.0 {
                            assert(id_at(i) == dependency);
                            assert(self@[i].dependents =~= old(self)@[i].dependents + Seq::new(
                                occurrences(longer, id_at(i)),
                                |j: int| id,
                            ));
                        } else {
                            assert(self@[i] == before[i]);
                        }
                    }
                }
                k += 1;
            }
            assert(dependencies@.take(k as int) =~= dependencies@);
        }
        let ghost grown = self@;
        proof {
            assert forall|i: int| 0 <= i < count implies (#[trigger] grown[i]) == with_project(
                old(self)@,
                project@,
            )[i] by {
                let fresh = Seq::new(occurrences(project@.deps(), id_at(i)), |j: int| id);
                assert(fresh =~= Seq::new(
                    occurrences(project@.deps(), id_at(i)),
                    |k: int| id_at(old(self)@.len() as int),
                ));
                if project.dependencies is None {
                    assert(fresh =~= Seq::empty());
                    assert(grown[i].dependents =~= old(self)@[i].dependents + fresh);
                }
            }
        }
        let Project { path, name, dependencies, dependents: _, affected } = project;
        let stored = Project { path, name, dependencies, dependents: Vec::new(), affected };
        self.hash.insert(stored.path.clone(), id);
        self.arena.push(stored);
        proof {
            assert(self.arena.len() == count + 1);
            assert(stored@ == project@.without_dependents());
            assert forall|i: int| 0 <= i < count implies (#[trigger] self@[i]) == grown[i] by {}
            assert(self@ =~= with_project(old(self)@, project@));
            lemma_with_project_well_formed(old(self)@, project@);
            assert forall|i: int| 0 <= i < count implies (#[trigger] self.arena@[i]).path@ == old(
                self,
            ).arena@[i].path@ by {
                assert(grown[i].path == old(self)@[i].path);
            }
            assert forall|path: Seq<char>| #[trigger] self.hash@.contains_key(path) implies {
                &&& self.hash@[path].0 < self.arena@.len()
                &&& self.arena@[self.hash@[path].0 as int].path@ == path
            } by {
                if path != stored.path@ {
                    assert(old(self).hash@.contains_key(path));
                }
            }
            assert forall|i: int| 0 <= i < self.arena@.len() implies self.hash@.contains_key(
                (#[trigger] self.arena@[i]).path@,
            ) by {
                if i < count {
                    assert(old(self).hash@.contains_key(old(self).arena@[i].path@));
                }
            }
        }
        Ok(id)
    }

    /// The identifier of the project at `path`, if there is one.
    pub fn get_id_by_path(&self, path: &str) -> (res: Option<ProjectId>)
        requires
            self.wf(),
        ensures
            match res {
                Some(id) => id.0 < self@.len() && self@[id.0 as int].path == path@,
                None => !has_path(self@, path@),
            },
    {
        match self.hash.get(path) {
            Some(id) => Some(*id),
            None => {
                proof {
                    if has_path(self@, path@) {
                        let i = choose|i: int|
                            0 <= i < self@.len() && (#[trigger] self@[i]).path == path@;
                        assert(self.hash@.contains_key(self.arena@[i].path@));
                    }
                }
                None
            },
        }
    }

    /// The number of projects in the workspace.
    pub fn len(&self) -> (n: usize)
        ensures
            n == self@.len(),
    {
        self.arena.len()
    }

    /// Whether the workspace holds no project.
    pub fn is_empty(&self) -> (empty: bool)
        ensures
            empty == (self@.len() == 0),
    {
        self.arena.len() == 0
    }

    /// The project that `id` denotes, if there is one.
    pub fn get_project(&self, id: ProjectId) -> (res: Option<&Project>)
        ensures
            match res {
                Some(project) => id.0 < self@.len() && project@ == self@[id.0 as int],
                None => id.0 >= self@.len(),
            },
    {
        let position = id.into_inner();
        if position < self.arena.len() {
            Some(&self.arena[position])
        } else {
            None
        }
    }

    /// The project at `path`, if there is one.
    pub fn get_project_by_path(&self, path: &str) -> (res: Option<&Project>)
        requires
            self.wf(),
        ensures
            match res {
                Some(project) => has_path(self@, path@) && project@.path == path@ && exists|
                    i: int,
                | 0 <= i < self@.len() && #[trigger] self@[i] == project@,
                None => !has_path(self@, path@),
            },
    {
        match self.get_id_by_path(path) {
            Some(id) => {
                assert(self@[id.0 as int].path == path@);
                self.get_project(id)
            },
            None => None,
        }
    }

    /// Marks the project `id` and every project that depends on it, directly or through
    /// others, as affected.
    ///
    /// A project that is already affected is passed over together with what lies behind
    /// it, so the marks reach exactly the projects found from `id` through projects that
    /// were not affected before.
    pub fn mark_project_as_affected(&mut self, id: ProjectId) -> (res: Result<
        (),
        MarkProjectAsAffectedError,
    >)
        requires
            old(self).wf(),
        ensures
            final(self).wf(),
            match res {
                Ok(()) => {
                    &&& id.0 < old(self)@.len()
                    &&& final(self)@ == marked_from(old(self)@, id.0 as int)
                },
                Err(MarkProjectAsAffectedError::ProjectNotFound(missing)) => {
                    &&& missing == id
                    &&& id.0 >= old(self)@.len()
                    &&& final(self)@ == old(self)@
                },
            },
    {
        let count = self.arena.len();
        if id.into_inner() >= count {
            return Err(MarkProjectAsAffectedError::ProjectNotFound(id));
        }
        let ghost s0 = self@;
        let ghost x = id.0 as int;
        let mut stack: Vec<ProjectId> = Vec::new();
        stack.push(id);
        proof {
            lemma_reaches_itself(s0, x);
            assert(stack@[0] == id);
        }
        while stack.len() > 0
            invariant
                old(self).wf(),
                s0 == old(self)@,
                x == id.0,
                0 <= x < count,
                count == s0.len(),
                count == self.arena@.len(),
                self.hash == old(self).hash,
                same_but_flags(s0, self@),
                forall|i: int| 0 <= i < count && s0[i].affected ==> (#[trigger] self@[i]).affected,
                forall|i: int|
                    0 <= i < count && (#[trigger] self@[i]).affected && !s0[i].affected
                        ==> reaches_unaffected(s0, x, i),
                forall|k: int|
                    0 <= k < stack@.len() ==> (#[trigger] stack@[k]).0 < count && (s0[stack@[k].0 as int].affected
                        || reaches_unaffected(s0, x, stack@[k].0 as int)),
                forall|m: int, j: int|
                    0 <= m < count && self@[m].affected && !s0[m].affected && 0 <= j
                        < s0[m].dependents.len() ==> self@[(
                    #[trigger] s0[m].dependents[j]).0 as int].affected || stack@.contains(
                        s0[m].dependents[j],
                    ),
                self@[x].affected || stack@.contains(id),
            decreases unaffected_count(self@), stack@.len(),
        {
            let ghost before = self@;
            let ghost pending = stack@;
            if let Some(current) = stack.pop() {
                let position = current.into_inner();
                assert(current == pending[pending.len() - 1]);
                assert forall|e: ProjectId| pending.contains(e) implies stack@.contains(e) || e
                    == current by {
                    let k = choose|k: int| 0 <= k < pending.len() && pending[k] == e;
                    if k < pending.len() - 1 {
                        assert(stack@[k] == e);
                    }
                }
                if !self.arena[position].affected {
                    self.arena[position].affected = true;
                    proof {
                        assert(self@ =~= before.update(position as int, before[position as int].marked()));
                        lemma_marking_lowers_count(before, position as int);
                        assert(!s0[position as int].affected);
                    }
                    let ghost marked = self@;
                    let ghost base = stack@;
                    let total = self.arena[position].dependents.len();
                    let mut k: usize = 0;
                    while k < total
                        invariant
                            k <= total,
                            position < count,
                            count == s0.len(),
                            count == self.arena@.len(),
                            s0.len() <= usize::MAX,
                            dependents_exist(s0),
                            self@ == marked,
                            total == s0[position as int].dependents.len(),
                            self.arena@[position as int].dependents@ == s0[position as int].dependents,
                            !s0[position as int].affected,
                            reaches_unaffected(s0, x, position as int),
                            forall|e: ProjectId| base.contains(e) ==> stack@.contains(e),
                            forall|j: int|
                                0 <= j < k ==> stack@.contains(
                                    #[trigger] s0[position as int].dependents[j],
                                ),
                            forall|j: int|
                                0 <= j < stack@.len() ==> (#[trigger] stack@[j]).0 < count && (s0[stack@[j].0 as int].affected
                                    || reaches_unaffected(s0, x, stack@[j].0 as int)),
                        decreases total - k,
                    {
                        let dependent = self.arena[position].dependents[k];
                        let ghost earlier = stack@;
                        stack.push(dependent);
                        proof {
                            let d = dependent.0 as int;
                            assert(dependent == s0[position as int].dependents[k as int]);
                            assert(d < count);
                            assert(id_at(d) == dependent);
                            assert(s0[position as int].dependents.contains(id_at(d)));
                            if !s0[d].affected {
                                lemma_reaches_unaffected_step(s0, x, position as int, d);
                            }
                            assert(stack@[earlier.len() as int] == dependent);
                            assert forall|e: ProjectId| earlier.contains(e) implies stack@.contains(
                                e,
                            ) by {
                                let i = choose|i: int| 0 <= i < earlier.len() && earlier[i] == e;
                                assert(stack@[i] == e);
                            }
                        }
                        k += 1;
                    }
                }
            }
        }
        proof {
            assert(newly_marked_closed(s0, self@));
            assert forall|i: int| 0 <= i < count implies (#[trigger] self@[i]) == marked_from(
                s0,
                x,
            )[i] by {
                if reaches_unaffected(s0, x, i) {
                    let w = choose|w: Seq<int>|
                        #[trigger] dependent_chain(s0, w) && unaffected_chain(s0, w) && w.first()
                            == x && w.last() == i;
                    lemma_closed_marks_cover_chain(s0, self@, w);
                }
            }
            assert(self@ =~= marked_from(s0, x));
            lemma_flags_keep_well_formed(s0, self@);
            assert forall|i: int| 0 <= i < count implies (#[trigger] self.arena@[i]).path@ == old(
                self,
            ).arena@[i].path@ by {
                assert(self@[i].path == s0[i].path);
            }
        }
        Ok(())
    }
}

impl Default for Workspace {
    fn default() -> (workspace: Self)
        ensures
            workspace.wf(),
            workspace@ == Seq::<ProjectView>::empty(),
    {
        Self::new()
    }
}

} // verus!
