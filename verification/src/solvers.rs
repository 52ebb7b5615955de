//! What to install: the choice among the alternatives of an unsatisfied
//! dependency, the closure of a package under first alternatives, and the
//! set of packages whose installation satisfies a package's dependencies.

use vstd::prelude::*;
use crate::packages::{Alternative, Dependency, Packages};
use crate::reach::Walk;
use crate::rounds::met_by_plan;

verus! {

/// Why a solver gave no answer.
#[derive(Clone, Copy, Debug, PartialEq, Eq, Structural)]
pub enum SolverError {
    /// The database has no package of the name asked for.
    UnknownPackage,
}

/// `a` is absent or strictly below `r`.
pub open spec fn strictly_below(a: Option<u64>, r: u64) -> bool {
    a matches Some(x) ==> x < r
}

/// `a` is absent or not above `r`.
pub open spec fn not_above(a: Option<u64>, r: u64) -> bool {
    a matches Some(x) ==> x <= r
}

/// The targets of all alternatives of `dd`, in order.
pub open spec fn all_targets(dd: Seq<Alternative>) -> Seq<i32> {
    dd.map_values(|a: Alternative| a.package_num)
}

impl Packages {
    /// The rank of the version in which package `p` is available, if the
    /// database knows the package and such a version.
    pub open spec fn available_rank(&self, p: i32) -> Option<u64> {
        if self.known(p as int) {
            match self.records@[p as int].available {
                Some(v) => Some(v.rank),
                None => None,
            }
        } else {
            None
        }
    }

    /// `cands[i]` is the candidate to install: it is available, every
    /// earlier candidate is unavailable or strictly older, and no later one
    /// is strictly newer.
    pub open spec fn is_best_at(&self, cands: Seq<i32>, i: int) -> bool {
        &&& 0 <= i < cands.len()
        &&& self.available_rank(cands[i]) matches Some(r)
        &&& forall|j: int| 0 <= j < i ==> strictly_below(self.available_rank(#[trigger] cands[j]), r)
        &&& forall|j: int|
            i < j < cands.len() ==> not_above(self.available_rank(#[trigger] cands[j]), r)
    }

    /// The candidate with the strictly greatest available version, the
    /// first of them among equals; `None` where no candidate is available.
    pub open spec fn best_of(&self, cands: Seq<i32>) -> Option<i32> {
        if exists|i: int| self.is_best_at(cands, i) {
            Some(cands[choose|i: int| self.is_best_at(cands, i)])
        } else {
            None
        }
    }

    /// The candidates for an unsatisfied dependency: the targets installed
    /// in a wrong version where there are any, else all targets.
    pub open spec fn candidates(&self, dd: Seq<Alternative>) -> Seq<i32> {
        let wrong = self.wrong_version_targets(dd);
        if wrong.len() > 0 {
            wrong
        } else {
            all_targets(dd)
        }
    }

    /// The package to install for the unsatisfied dependency `dd`.
    pub open spec fn pick(&self, dd: Seq<Alternative>) -> Option<i32> {
        self.best_of(self.candidates(dd))
    }

    /// At most one position of `cands` is the best.
    pub proof fn lemma_best_unique(&self, cands: Seq<i32>, i: int, j: int)
        requires
            self.is_best_at(cands, i),
            self.is_best_at(cands, j),
        ensures
            i == j,
    {
        if i < j {
            assert(strictly_below(self.available_rank(cands[i]), self.available_rank(cands[j]).unwrap()));
            assert(not_above(self.available_rank(cands[j]), self.available_rank(cands[i]).unwrap()));
        } else if j < i {
            assert(strictly_below(self.available_rank(cands[j]), self.available_rank(cands[i]).unwrap()));
            assert(not_above(self.available_rank(cands[i]), self.available_rank(cands[j]).unwrap()));
        }
    }

    fn available_for(&self, p: i32) -> (rank: Option<u64>)
        ensures
            rank == self.available_rank(p),
    {
        if p < 0 || p as usize >= self.records.len() {
            return None;
        }
        match &self.records[p as usize].available {
            Some(v) => Some(v.rank),
            None => None,
        }
    }

    /// Chooses among `cands` the package whose available version is
    /// strictly greatest; a later candidate replaces an earlier one only if
    /// it is strictly newer.
    pub fn best_available(&self, cands: &Vec<i32>) -> (best: Option<i32>)
        ensures
            best == self.best_of(cands@),
    {
        let mut best: Option<i32> = None;
        let mut best_rank: u64 = 0;
        let ghost mut at: int = 0;
        let mut k: usize = 0;
        while k < cands.len()
            invariant
                k <= cands.len(),
                best.is_none() ==> forall|j: int|
                    0 <= j < k ==> self.available_rank(#[trigger] cands@[j]).is_none(),
                best.is_some() ==> self.is_best_at(cands@.take(k as int), at) && best == Some(
                    cands@[at],
                ) && self.available_rank(cands@[at]) == Some(best_rank),
            decreases cands.len() - k,
        {
            let p: i32 = cands[k];
            let ghost before = cands@.take(k as int);
            let ghost after = cands@.take(k + 1);
            assert(forall|j: int| 0 <= j < k ==> before[j] == after[j]);
            if let Some(rank) = self.available_for(p) {
                if best.is_none() || rank > best_rank {
                    best = Some(p);
                    best_rank = rank;
                    proof {
                        at = k as int;
                    }
                }
            }
            assert(best.is_some() ==> self.is_best_at(after, at));
            k += 1;
        }
        proof {
            assert(cands@.take(k as int) == cands@);
            if best.is_some() {
                let c = choose|i: int| self.is_best_at(cands@, i);
                self.lemma_best_unique(cands@, c, at);
            } else {
                assert forall|i: int| !self.is_best_at(cands@, i) by {}
            }
        }
        best
    }

    /// Picks the package to install for a dependency that is not satisfied.
    /// Where some alternatives are installed in a wrong version, the choice
    /// is among those; else among all alternatives. The choice is the one
    /// with the strictly greatest available version; `None` where none of
    /// them is available.
    pub fn pick_alternative_to_install(&self, dep: &Dependency) -> (chosen: Option<i32>)
        requires
            self.dep_unsatisfied(dep@),
        ensures
            chosen == self.pick(dep@),
    {
        let wrong_version_pkgs = self.wrong_version_nums(dep);
        if !wrong_version_pkgs.is_empty() {
            self.best_available(&wrong_version_pkgs)
        } else {
            let mut targets: Vec<i32> = Vec::new();
            let mut k: usize = 0;
            while k < dep.len()
                invariant
                    k <= dep.len(),
                    targets@ == all_targets(dep@.take(k as int)),
                decreases dep.len() - k,
            {
                targets.push(dep[k].package_num);
                assert(targets@ == all_targets(dep@.take(k + 1)));
                k += 1;
            }
            assert(dep@.take(k as int) == dep@);
            self.best_available(&targets)
        }
    }

    /// `answer` is what the solver that follows `walk` says of the package
    /// called `name`: an error where the database has no such package;
    /// else the solution from that package, which is sound and stable and
    /// which one more round leaves as it is.
    pub open spec fn is_answer(
        &self,
        walk: Walk,
        name: Seq<char>,
        answer: Result<Vec<i32>, SolverError>,
    ) -> bool {
        match answer {
            Err(_) => !self.has_name(name),
            Ok(set) => exists|root: i32|
                {
                    &&& #[trigger] self.named(root as int, name)
                    &&& set@ == self.solution(walk, root)
                    &&& self.sound(walk, root, set@)
                    &&& self.stable(walk, root, set@)
                    &&& self.round(walk, set@) == set@
                },
        }
    }

    fn solve(&self, walk: Walk, package_name: &str) -> (answer: Result<Vec<i32>, SolverError>)
        requires
            self.wf(),
        ensures
            self.is_answer(walk, package_name@, answer),
    {
        match self.get_package_num(package_name) {
            None => Err(SolverError::UnknownPackage),
            Some(root) => {
                let set = self.closure(walk, root);
                proof {
                    self.lemma_solution(walk, root);
                    assert(self.named(root as int, package_name@));
                }
                Ok(set)
            },
        }
    }

    /// Computes the transitive dependencies of the package called
    /// `package_name`, always following the first alternative of a
    /// dependency and disregarding what is installed: the first
    /// alternatives of its own dependencies, then in rounds those of the
    /// dependencies of each package found, until a round finds nothing new.
    /// Each package occurs once, in the order in which it was found. An
    /// unknown package is an error.
    pub fn transitive_dep_solution(&self, package_name: &str) -> (answer: Result<
        Vec<i32>,
        SolverError,
    >)
        requires
            self.wf(),
        ensures
            self.is_answer(Walk::FirstAlternatives, package_name@, answer),
    {
        self.solve(Walk::FirstAlternatives, package_name)
    }

    /// Computes the packages to install so that the dependencies of the
    /// package called `package_name` are met. For each of its dependencies
    /// that no installed package satisfies, the alternative picked by
    /// [`Self::pick_alternative_to_install`] joins the plan. Then, in
    /// rounds over the plan, the same is done for the dependencies of each
    /// package of the plan, but for those that a package of the plan
    /// already meets, until a round adds nothing. Each package occurs
    /// once, in the order in which it joined. An unknown package is an
    /// error.
    pub fn compute_how_to_install(&self, package_name: &str) -> (answer: Result<
        Vec<i32>,
        SolverError,
    >)
        requires
            self.wf(),
        ensures
            self.is_answer(Walk::Install, package_name@, answer),
    {
        self.solve(Walk::Install, package_name)
    }

    /// Dependency `j` of package `q` is not satisfied by what is
    /// installed, and `p` is the package picked for it.
    pub open spec fn picked_for(&self, q: i32, j: int, p: i32) -> bool {
        &&& 0 <= j < self.deps_of(q).len()
        &&& self.dep_unsatisfied(self.deps_of(q)[j]@)
        &&& self.pick(self.deps_of(q)[j]@) == Some(p)
    }

    /// The closure under first alternatives holds exactly the packages
    /// that first alternatives lead to from `root`, in one step or more.
    pub proof fn lemma_closure_is_what_is_reached(&self, root: i32, p: i32)
        requires
            self.wf(),
            self.known(root as int),
        ensures
            self.solution(Walk::FirstAlternatives, root).contains(p) <==> self.reached(
                Walk::FirstAlternatives,
                root,
                p,
            ),
    {
        let walk = Walk::FirstAlternatives;
        let set = self.solution(walk, root);
        self.lemma_solution(walk, root);
        if self.reached(walk, root, p) {
            assert forall|t: i32| #[trigger] self.edge(walk, root, t) implies set.contains(t) by {
                let j = choose|j: int|
                    0 <= j < self.records@[root as int].dependencies@.len() && self.target(
                        walk,
                        (#[trigger] self.records@[root as int].dependencies@[j])@,
                    ) == Some(t);
                assert(self.handled(walk, true, set, self.deps_of(root)[j]@));
            }
            assert forall|q: i32, t: i32|
                set.contains(q) && #[trigger] self.edge(walk, q, t) implies set.contains(t) by {
                let i = choose|i: int| 0 <= i < set.len() && set[i] == q;
                assert(self.deps_handled(walk, false, set, set[i]));
                let j = choose|j: int|
                    0 <= j < self.records@[q as int].dependencies@.len() && self.target(
                        walk,
                        (#[trigger] self.records@[q as int].dependencies@[j])@,
                    ) == Some(t);
                assert(self.handled(walk, false, set, self.deps_of(q)[j]@));
            }
            let steps = choose|steps: nat| self.reached_in(walk, root, p, steps);
            self.lemma_closed_holds_reached(walk, root, set, p, steps);
        }
        if set.contains(p) {
            let i = choose|i: int| 0 <= i < set.len() && set[i] == p;
            assert(self.reached(walk, root, set[i]));
        }
    }

    /// An install plan holds no package but for a dependency that no
    /// installed package satisfies: each of its packages was picked for
    /// such a dependency of `root` or of a package of the plan.
    pub proof fn lemma_plan_member_is_needed(&self, root: i32, p: i32)
        requires
            self.wf(),
            self.known(root as int),
            self.solution(Walk::Install, root).contains(p),
        ensures
            exists|q: i32, j: int|
                (q == root || self.solution(Walk::Install, root).contains(q))
                    && #[trigger] self.picked_for(q, j, p),
    {
        let set = self.solution(Walk::Install, root);
        self.lemma_solution(Walk::Install, root);
        let i = choose|i: int| 0 <= i < set.len() && set[i] == p;
        assert(self.needed(Walk::Install, root, set, set[i]));
        let q = choose|q: i32|
            (q == root || set.contains(q)) && #[trigger] self.edge(Walk::Install, q, p);
        let j = choose|j: int|
            0 <= j < self.records@[q as int].dependencies@.len() && self.target(
                Walk::Install,
                (#[trigger] self.records@[q as int].dependencies@[j])@,
            ) == Some(p);
        assert(self.picked_for(q, j, p));
    }

    /// Computing an install plan again, with its packages counted as
    /// installed, adds nothing. The pick for an unsatisfied dependency of
    /// `root` is in the plan; the pick for an unsatisfied dependency of a
    /// package of the plan is in the plan too, unless a package of the
    /// plan already meets that dependency.
    pub proof fn lemma_plan_is_idempotent(&self, root: i32, q: i32, j: int, p: i32)
        requires
            self.wf(),
            self.known(root as int),
            q == root || self.solution(Walk::Install, root).contains(q),
            self.picked_for(q, j, p),
        ensures
            q == root ==> self.solution(Walk::Install, root).contains(p),
            self.solution(Walk::Install, root).contains(p) || met_by_plan(
                self.solution(Walk::Install, root),
                self.deps_of(q)[j]@,
            ),
    {
        let set = self.solution(Walk::Install, root);
        self.lemma_solution(Walk::Install, root);
        if q == root {
            assert(self.handled(Walk::Install, true, set, self.deps_of(root)[j]@));
        } else {
            let i = choose|i: int| 0 <= i < set.len() && set[i] == q;
            assert(self.deps_handled(Walk::Install, false, set, set[i]));
            assert(self.handled(Walk::Install, false, set, self.deps_of(q)[j]@));
        }
    }

    /// A plan lies within every set of packages that holds the pick for
    /// each unsatisfied dependency of `root` and of its own members.
    pub proof fn lemma_plan_within_closed(&self, root: i32, set: Seq<i32>, p: i32)
        requires
            self.wf(),
            self.known(root as int),
            self.closed(Walk::Install, root, set),
            self.solution(Walk::Install, root).contains(p),
        ensures
            set.contains(p),
    {
        let plan = self.solution(Walk::Install, root);
        self.lemma_solution(Walk::Install, root);
        let i = choose|i: int| 0 <= i < plan.len() && plan[i] == p;
        assert(self.reached(Walk::Install, root, plan[i]));
        let steps = choose|steps: nat| self.reached_in(Walk::Install, root, p, steps);
        self.lemma_closed_holds_reached(Walk::Install, root, set, p, steps);
    }

    /// Computing the plan again on `after`, the database in which the
    /// packages of the plan have been installed, adds nothing to the plan,
    /// provided that in `after` the pick for every dependency that is
    /// still unsatisfied, of `root` or of a package of the plan, is a
    /// package of the plan.
    pub proof fn lemma_recomputed_plan_adds_nothing(&self, after: Packages, root: i32, p: i32)
        requires
            after.wf(),
            after.known(root as int),
            after.closed(Walk::Install, root, self.solution(Walk::Install, root)),
            after.solution(Walk::Install, root).contains(p),
        ensures
            self.solution(Walk::Install, root).contains(p),
    {
        after.lemma_plan_within_closed(root, self.solution(Walk::Install, root), p);
    }

    /// Where what is installed satisfies every dependency of `root`, there
    /// is nothing to install.
    pub proof fn lemma_nothing_to_install(&self, root: i32)
        requires
            forall|j: int|
                0 <= j < self.deps_of(root).len() ==> !self.dep_unsatisfied(
                    (#[trigger] self.deps_of(root)[j])@,
                ),
        ensures
            self.solution(Walk::Install, root) == Seq::<i32>::empty(),
    {
        let deps = self.deps_of(root);
        self.lemma_no_seeds(root, deps.len() as int);
        assert(deps.take(deps.len() as int) == deps);
        let none = Seq::<i32>::empty();
        assert(self.round(Walk::Install, none) == none);
        assert(self.settled(Walk::Install, none, self.records@.len()) == none);
    }

    proof fn lemma_no_seeds(&self, root: i32, n: int)
        requires
            0 <= n <= self.deps_of(root).len(),
            forall|j: int|
                0 <= j < self.deps_of(root).len() ==> !self.dep_unsatisfied(
                    (#[trigger] self.deps_of(root)[j])@,
                ),
        ensures
            self.after_deps(Walk::Install, true, Seq::empty(), self.deps_of(root).take(n))
                == Seq::<i32>::empty(),
        decreases n,
    {
        let deps = self.deps_of(root);
        if n > 0 {
            self.lemma_no_seeds(root, n - 1);
            assert(deps.take(n).drop_last() == deps.take(n - 1));
            assert(deps.take(n).last() == deps[n - 1]);
        }
    }

    /// `other` gives every package as many dependencies as `self` does,
    /// each with the same first alternative. Two databases that differ
    /// only in the versions installed and available are such.
    pub open spec fn same_first_alternatives(&self, other: Packages) -> bool {
        &&& self.records@.len() == other.records@.len()
        &&& forall|q: i32| (#[trigger] self.deps_of(q)).len() == other.deps_of(q).len()
        &&& forall|q: i32, j: int|
            0 <= j < self.deps_of(q).len() ==> self.target(
                Walk::FirstAlternatives,
                (#[trigger] self.deps_of(q)[j])@,
            ) == other.target(Walk::FirstAlternatives, other.deps_of(q)[j]@)
    }

    /// The closure under first alternatives disregards what is installed
    /// and available: databases with the same first alternatives give the
    /// same closure, in the same order.
    pub proof fn lemma_closure_ignores_versions(&self, other: Packages, root: i32)
        requires
            self.same_first_alternatives(other),
        ensures
            self.solution(Walk::FirstAlternatives, root) == other.solution(
                Walk::FirstAlternatives,
                root,
            ),
    {
        let deps = self.deps_of(root);
        assert(deps.take(deps.len() as int) == deps);
        assert(other.deps_of(root).take(deps.len() as int) == other.deps_of(root));
        self.lemma_same_after_deps(other, true, Seq::empty(), root, deps.len() as int);
        self.lemma_same_settled(
            other,
            self.seeds(Walk::FirstAlternatives, root),
            self.records@.len(),
        );
    }

    proof fn lemma_same_after_deps(&self, other: Packages, seeding: bool, plan: Seq<i32>, q: i32, n: int)
        requires
            self.same_first_alternatives(other),
            0 <= n <= self.deps_of(q).len(),
        ensures
            self.after_deps(Walk::FirstAlternatives, seeding, plan, self.deps_of(q).take(n))
                == other.after_deps(
                Walk::FirstAlternatives,
                seeding,
                plan,
                other.deps_of(q).take(n),
            ),
        decreases n,
    {
        let mine = self.deps_of(q);
        let theirs = other.deps_of(q);
        assert(mine.len() == theirs.len());
        if n > 0 {
            self.lemma_same_after_deps(other, seeding, plan, q, n - 1);
            assert(mine.take(n).drop_last() == mine.take(n - 1));
            assert(theirs.take(n).drop_last() == theirs.take(n - 1));
            assert(mine.take(n).last() == mine[n - 1]);
            assert(theirs.take(n).last() == theirs[n - 1]);
            assert(self.target(Walk::FirstAlternatives, mine[n - 1]@) == other.target(
                Walk::FirstAlternatives,
                theirs[n - 1]@,
            ));
        }
    }

    proof fn lemma_same_after_members(&self, other: Packages, start: Seq<i32>, k: nat)
        requires
            self.same_first_alternatives(other),
            k <= start.len(),
        ensures
            self.after_members(Walk::FirstAlternatives, start, k) == other.after_members(
                Walk::FirstAlternatives,
                start,
                k,
            ),
        decreases k,
    {
        if k > 0 {
            self.lemma_same_after_members(other, start, (k - 1) as nat);
            let q = start[k - 1];
            let mine = self.deps_of(q);
            assert(mine.len() == other.deps_of(q).len());
            assert(mine.take(mine.len() as int) == mine);
            assert(other.deps_of(q).take(mine.len() as int) == other.deps_of(q));
            self.lemma_same_after_deps(
                other,
                false,
                self.after_members(Walk::FirstAlternatives, start, (k - 1) as nat),
                q,
                mine.len() as int,
            );
        }
    }

    proof fn lemma_same_settled(&self, other: Packages, plan: Seq<i32>, rounds: nat)
        requires
            self.same_first_alternatives(other),
        ensures
            self.settled(Walk::FirstAlternatives, plan, rounds) == other.settled(
                Walk::FirstAlternatives,
                plan,
                rounds,
            ),
        decreases rounds,
    {
        self.lemma_same_after_members(other, plan, plan.len());
        if rounds > 0 {
            self.lemma_same_settled(
                other,
                self.round(Walk::FirstAlternatives, plan),
                (rounds - 1) as nat,
            );
        }
    }
}

} // verus!
