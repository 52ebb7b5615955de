//! The rounds by which a solver grows its answer: what one dependency adds,
//! what the dependencies of one package add, what one round over the
//! members adds, and where the rounds come to rest.

use vstd::prelude::*;
use crate::packages::{Alternative, Dependency, Packages};
use crate::reach::{lemma_distinct_numbers_bounded, lemma_prefix_keeps, vec_contains, Walk};

verus! {

/// Some alternative of `dd` targets a member of `plan`.
pub open spec fn met_by_plan(plan: Seq<i32>, dd: Seq<Alternative>) -> bool {
    exists|k: int| 0 <= k < dd.len() && plan.contains((#[trigger] dd[k]).package_num)
}

/// The dependency `dd` is passed over: in a round over the members of an
/// install plan, a dependency that a member of the plan meets counts as
/// satisfied. Membership is enough; the version constraint of the
/// alternative is not tested against the version to be installed. While
/// the plan is seeded from the package asked for, and in a closure under
/// first alternatives, no dependency is passed over.
pub open spec fn skipped(walk: Walk, seeding: bool, plan: Seq<i32>, dd: Seq<Alternative>) -> bool {
    walk == Walk::Install && !seeding && met_by_plan(plan, dd)
}

impl Packages {
    /// The dependencies of package `q`; none where `q` is unknown.
    pub open spec fn deps_of(&self, q: i32) -> Seq<Dependency> {
        if self.known(q as int) {
            self.records@[q as int].dependencies@
        } else {
            Seq::empty()
        }
    }

    /// `plan` after the dependency `dd` has been looked at: unchanged where
    /// `dd` is passed over, leads nowhere, or leads to a member of `plan`;
    /// else with the package that `dd` leads to appended.
    pub open spec fn step(&self, walk: Walk, seeding: bool, plan: Seq<i32>, dd: Seq<Alternative>) -> Seq<
        i32,
    > {
        if skipped(walk, seeding, plan, dd) {
            plan
        } else {
            match self.target(walk, dd) {
                Some(p) => if plan.contains(p) {
                    plan
                } else {
                    plan.push(p)
                },
                None => plan,
            }
        }
    }

    /// `plan` after the dependencies `deps` have been looked at, in order.
    pub open spec fn after_deps(
        &self,
        walk: Walk,
        seeding: bool,
        plan: Seq<i32>,
        deps: Seq<Dependency>,
    ) -> Seq<i32>
        decreases deps.len(),
    {
        if deps.len() == 0 {
            plan
        } else {
            self.step(
                walk,
                seeding,
                self.after_deps(walk, seeding, plan, deps.drop_last()),
                deps.last()@,
            )
        }
    }

    /// The plan after the dependencies of the first `k` members of `start`
    /// have been looked at, member by member.
    pub open spec fn after_members(&self, walk: Walk, start: Seq<i32>, k: nat) -> Seq<i32>
        decreases k,
    {
        if k == 0 {
            start
        } else {
            self.after_deps(
                walk,
                false,
                self.after_members(walk, start, (k - 1) as nat),
                self.deps_of(start[k - 1]),
            )
        }
    }

    /// `plan` after one round over its members.
    pub open spec fn round(&self, walk: Walk, plan: Seq<i32>) -> Seq<i32> {
        self.after_members(walk, plan, plan.len())
    }

    /// `plan` after rounds over its members until a round adds nothing, at
    /// most `rounds` of them.
    pub open spec fn settled(&self, walk: Walk, plan: Seq<i32>, rounds: nat) -> Seq<i32>
        decreases rounds,
    {
        if rounds == 0 {
            plan
        } else {
            let next = self.round(walk, plan);
            if next == plan {
                plan
            } else {
                self.settled(walk, next, (rounds - 1) as nat)
            }
        }
    }

    /// What the dependencies of `root` themselves lead to.
    pub open spec fn seeds(&self, walk: Walk, root: i32) -> Seq<i32> {
        self.after_deps(walk, true, Seq::empty(), self.deps_of(root))
    }

    /// The answer of the solver that follows `walk` from package `root`:
    /// the seeds, grown by rounds until a round adds nothing. There are
    /// never more rounds that add something than the database has packages.
    pub open spec fn solution(&self, walk: Walk, root: i32) -> Seq<i32> {
        self.settled(walk, self.seeds(walk, root), self.records@.len())
    }

    /// `p` is in `plan` on account of a dependency of `root` or of a member
    /// of `plan`.
    pub open spec fn needed(&self, walk: Walk, root: i32, plan: Seq<i32>, p: i32) -> bool {
        exists|q: i32| (q == root || plan.contains(q)) && #[trigger] self.edge(walk, q, p)
    }

    /// `plan` holds no package twice, and only packages of the database
    /// that are reached from `root` and needed.
    pub open spec fn sound(&self, walk: Walk, root: i32, plan: Seq<i32>) -> bool {
        &&& plan.no_duplicates()
        &&& forall|i: int| 0 <= i < plan.len() ==> self.known(#[trigger] plan[i] as int)
        &&& forall|i: int| 0 <= i < plan.len() ==> self.reached(walk, root, #[trigger] plan[i])
        &&& forall|i: int| 0 <= i < plan.len() ==> self.needed(walk, root, plan, #[trigger] plan[i])
    }

    /// Looking at `dd` again adds nothing to `plan`.
    pub open spec fn handled(&self, walk: Walk, seeding: bool, plan: Seq<i32>, dd: Seq<Alternative>) -> bool {
        skipped(walk, seeding, plan, dd) || (self.target(walk, dd) matches Some(p) ==> plan.contains(
            p,
        ))
    }

    /// Looking at the dependencies of `q` again adds nothing to `plan`.
    pub open spec fn deps_handled(&self, walk: Walk, seeding: bool, plan: Seq<i32>, q: i32) -> bool {
        forall|j: int|
            0 <= j < self.deps_of(q).len() ==> self.handled(
                walk,
                seeding,
                plan,
                (#[trigger] self.deps_of(q)[j])@,
            )
    }

    /// `plan` is at rest: neither the dependencies of `root` nor those of
    /// any member add anything to it.
    pub open spec fn stable(&self, walk: Walk, root: i32, plan: Seq<i32>) -> bool {
        &&& self.deps_handled(walk, true, plan, root)
        &&& forall|i: int|
            0 <= i < plan.len() ==> self.deps_handled(walk, false, plan, #[trigger] plan[i])
    }

    /// What a plan has handled, a longer plan has handled.
    pub proof fn lemma_handled_stays(
        &self,
        walk: Walk,
        seeding: bool,
        plan: Seq<i32>,
        longer: Seq<i32>,
        dd: Seq<Alternative>,
    )
        requires
            plan.is_prefix_of(longer),
            self.handled(walk, seeding, plan, dd),
        ensures
            self.handled(walk, seeding, longer, dd),
    {
        lemma_prefix_keeps(plan, longer);
        if skipped(walk, seeding, plan, dd) {
            let k = choose|k: int| 0 <= k < dd.len() && plan.contains((#[trigger] dd[k]).package_num);
            assert(longer.contains(dd[k].package_num));
        }
    }

    /// What a plan has handled of a package, a longer plan has handled.
    pub proof fn lemma_deps_handled_stays(
        &self,
        walk: Walk,
        seeding: bool,
        plan: Seq<i32>,
        longer: Seq<i32>,
        q: i32,
    )
        requires
            plan.is_prefix_of(longer),
            self.deps_handled(walk, seeding, plan, q),
        ensures
            self.deps_handled(walk, seeding, longer, q),
    {
        assert forall|j: int| 0 <= j < self.deps_of(q).len() implies self.handled(
            walk,
            seeding,
            longer,
            (#[trigger] self.deps_of(q)[j])@,
        ) by {
            self.lemma_handled_stays(walk, seeding, plan, longer, self.deps_of(q)[j]@);
        }
    }

    /// A step keeps what the plan holds, in its place.
    pub proof fn lemma_step_extends(&self, walk: Walk, seeding: bool, plan: Seq<i32>, dd: Seq<Alternative>)
        ensures
            plan.is_prefix_of(self.step(walk, seeding, plan, dd)),
            self.step(walk, seeding, plan, dd).len() <= plan.len() + 1,
    {
        let next = self.step(walk, seeding, plan, dd);
        assert(plan =~= next.subrange(0, plan.len() as int));
    }
}

impl Packages {
    /// One step from a sound plan, along a dependency of `root` or of a
    /// member, gives a sound plan that has handled the dependency.
    pub proof fn lemma_step_sound(
        &self,
        walk: Walk,
        seeding: bool,
        root: i32,
        plan: Seq<i32>,
        q: i32,
        j: int,
    )
        requires
            self.wf(),
            self.sound(walk, root, plan),
            q == root || plan.contains(q),
            0 <= j < self.deps_of(q).len(),
        ensures
            self.sound(walk, root, self.step(walk, seeding, plan, self.deps_of(q)[j]@)),
            self.handled(
                walk,
                seeding,
                self.step(walk, seeding, plan, self.deps_of(q)[j]@),
                self.deps_of(q)[j]@,
            ),
    {
        let dd = self.deps_of(q)[j]@;
        let next = self.step(walk, seeding, plan, dd);
        self.lemma_step_extends(walk, seeding, plan, dd);
        lemma_prefix_keeps(plan, next);
        if next != plan {
            let p = self.target(walk, dd).unwrap();
            assert(next == plan.push(p));
            assert(self.edge(walk, q, p)) by {
                assert(self.target(walk, (#[trigger] self.records@[q as int].dependencies@[j])@)
                    == Some(p));
            }
            self.lemma_edge_known(walk, q, p);
            if q == root {
                assert(self.reached_in(walk, root, p, 0));
            } else {
                let at = choose|at: int| 0 <= at < plan.len() && plan[at] == q;
                assert(self.reached(walk, root, plan[at]));
                self.lemma_reached_step(walk, root, q, p);
            }
            assert(next[plan.len() as int] == p);
            assert(next.contains(p));
            assert forall|i: int| 0 <= i < next.len() implies self.needed(
                walk,
                root,
                next,
                #[trigger] next[i],
            ) by {
                if i < plan.len() {
                    assert(self.needed(walk, root, plan, plan[i]));
                    let w = choose|w: i32|
                        (w == root || plan.contains(w)) && #[trigger] self.edge(walk, w, plan[i]);
                    assert((w == root || next.contains(w)) && self.edge(walk, w, next[i]));
                } else {
                    assert((q == root || next.contains(q)) && self.edge(walk, q, next[i]));
                }
            }
            assert forall|i: int| 0 <= i < next.len() implies self.reached(
                walk,
                root,
                #[trigger] next[i],
            ) && self.known(next[i] as int) by {
                if i < plan.len() {
                    assert(next[i] == plan[i]);
                }
            }
            assert(next.no_duplicates()) by {
                assert forall|a: int, b: int| 0 <= a < next.len() && 0 <= b < next.len() && a
                    != b implies next[a] != next[b] by {
                    if a < plan.len() && b < plan.len() {
                        assert(plan[a] != plan[b]);
                    } else if a < plan.len() {
                        assert(plan.contains(plan[a]));
                    } else if b < plan.len() {
                        assert(plan.contains(plan[b]));
                    }
                }
            }
        }
    }

    /// The first `n` dependencies of `q`, which is `root` or a member,
    /// take a sound plan to a sound plan that has handled them.
    pub proof fn lemma_after_deps_sound(
        &self,
        walk: Walk,
        seeding: bool,
        root: i32,
        plan: Seq<i32>,
        q: i32,
        n: int,
    )
        requires
            self.wf(),
            self.sound(walk, root, plan),
            q == root || plan.contains(q),
            0 <= n <= self.deps_of(q).len(),
        ensures
            self.sound(walk, root, self.after_deps(walk, seeding, plan, self.deps_of(q).take(n))),
            plan.is_prefix_of(self.after_deps(walk, seeding, plan, self.deps_of(q).take(n))),
            forall|j: int|
                0 <= j < n ==> self.handled(
                    walk,
                    seeding,
                    self.after_deps(walk, seeding, plan, self.deps_of(q).take(n)),
                    (#[trigger] self.deps_of(q)[j])@,
                ),
        decreases n,
    {
        let deps = self.deps_of(q);
        if n == 0 {
            assert(plan =~= plan.subrange(0, plan.len() as int));
        } else {
            self.lemma_after_deps_sound(walk, seeding, root, plan, q, n - 1);
            let before = self.after_deps(walk, seeding, plan, deps.take(n - 1));
            let now = self.after_deps(walk, seeding, plan, deps.take(n));
            assert(deps.take(n).drop_last() == deps.take(n - 1));
            assert(deps.take(n).last() == deps[n - 1]);
            assert(now == self.step(walk, seeding, before, deps[n - 1]@));
            lemma_prefix_keeps(plan, before);
            self.lemma_step_sound(walk, seeding, root, before, q, n - 1);
            self.lemma_step_extends(walk, seeding, before, deps[n - 1]@);
            lemma_prefix_chain(plan, before, now);
            assert forall|j: int| 0 <= j < n implies self.handled(
                walk,
                seeding,
                now,
                (#[trigger] deps[j])@,
            ) by {
                if j < n - 1 {
                    self.lemma_handled_stays(walk, seeding, before, now, deps[j]@);
                }
            }
        }
    }

    /// The dependencies of the first `k` members of a sound plan take it to
    /// a sound plan that has handled them.
    pub proof fn lemma_after_members_sound(&self, walk: Walk, root: i32, start: Seq<i32>, k: nat)
        requires
            self.wf(),
            self.sound(walk, root, start),
            k <= start.len(),
        ensures
            self.sound(walk, root, self.after_members(walk, start, k)),
            start.is_prefix_of(self.after_members(walk, start, k)),
            forall|h: int|
                0 <= h < k ==> self.deps_handled(
                    walk,
                    false,
                    self.after_members(walk, start, k),
                    #[trigger] start[h],
                ),
        decreases k,
    {
        if k == 0 {
            assert(start =~= start.subrange(0, start.len() as int));
        } else {
            self.lemma_after_members_sound(walk, root, start, (k - 1) as nat);
            let before = self.after_members(walk, start, (k - 1) as nat);
            let now = self.after_members(walk, start, k);
            let q = start[k - 1];
            let deps = self.deps_of(q);
            lemma_prefix_keeps(start, before);
            assert(before.contains(q)) by {
                assert(before[k - 1] == q);
            }
            assert(deps.take(deps.len() as int) == deps);
            self.lemma_after_deps_sound(walk, false, root, before, q, deps.len() as int);
            lemma_prefix_chain(start, before, now);
            assert forall|h: int| 0 <= h < k implies self.deps_handled(
                walk,
                false,
                now,
                #[trigger] start[h],
            ) by {
                if h < k - 1 {
                    self.lemma_deps_handled_stays(walk, false, before, now, start[h]);
                }
            }
        }
    }

    /// A sound plan holds no more packages than the database.
    pub proof fn lemma_sound_bounded(&self, walk: Walk, root: i32, plan: Seq<i32>)
        requires
            self.sound(walk, root, plan),
        ensures
            plan.len() <= self.records@.len(),
    {
        lemma_distinct_numbers_bounded(plan, self.records@.len() as int);
    }

    /// Rounds from a sound plan that has handled the dependencies of
    /// `root` come to rest: the plan they end in is sound and stable, and
    /// one more round leaves it as it is.
    pub proof fn lemma_settled(&self, walk: Walk, root: i32, plan: Seq<i32>, rounds: nat)
        requires
            self.wf(),
            self.sound(walk, root, plan),
            self.deps_handled(walk, true, plan, root),
            rounds + plan.len() >= self.records@.len(),
        ensures
            self.sound(walk, root, self.settled(walk, plan, rounds)),
            self.stable(walk, root, self.settled(walk, plan, rounds)),
            self.round(walk, self.settled(walk, plan, rounds)) == self.settled(walk, plan, rounds),
            plan.is_prefix_of(self.settled(walk, plan, rounds)),
        decreases rounds,
    {
        let next = self.round(walk, plan);
        self.lemma_after_members_sound(walk, root, plan, plan.len());
        self.lemma_sound_bounded(walk, root, next);
        if rounds == 0 {
            lemma_prefix_whole(plan, next);
        }
        if next == plan {
            assert(plan =~= plan.subrange(0, plan.len() as int));
        } else {
            if next.len() <= plan.len() {
                lemma_prefix_whole(plan, next);
            }
            self.lemma_deps_handled_stays(walk, true, plan, next, root);
            self.lemma_settled(walk, root, next, (rounds - 1) as nat);
            lemma_prefix_chain(plan, next, self.settled(walk, next, (rounds - 1) as nat));
        }
    }

    /// The solver's answer is sound and stable, and one more round over
    /// it adds nothing.
    pub proof fn lemma_solution(&self, walk: Walk, root: i32)
        requires
            self.wf(),
            self.known(root as int),
        ensures
            self.sound(walk, root, self.seeds(walk, root)),
            self.deps_handled(walk, true, self.seeds(walk, root), root),
            self.sound(walk, root, self.solution(walk, root)),
            self.stable(walk, root, self.solution(walk, root)),
            self.round(walk, self.solution(walk, root)) == self.solution(walk, root),
    {
        let deps = self.deps_of(root);
        assert(deps.take(deps.len() as int) == deps);
        self.lemma_after_deps_sound(walk, true, root, Seq::empty(), root, deps.len() as int);
        self.lemma_settled(walk, root, self.seeds(walk, root), self.records@.len());
    }
}

/// Whether some alternative of `dd` targets a member of `plan`.
pub fn is_met_by_plan(plan: &Vec<i32>, dd: &Dependency) -> (met: bool)
    ensures
        met == met_by_plan(plan@, dd@),
{
    let mut k: usize = 0;
    while k < dd.len()
        invariant
            k <= dd.len(),
            forall|h: int| 0 <= h < k ==> !plan@.contains((#[trigger] dd@[h]).package_num),
        decreases dd.len() - k,
    {
        if vec_contains(plan, dd[k].package_num) {
            return true;
        }
        k += 1;
    }
    false
}

impl Packages {
    /// Looks at the dependency `dd`: appends to `plan` the package that
    /// `dd` leads to, unless `dd` is passed over or `plan` holds it.
    pub fn advance(&self, walk: Walk, seeding: bool, dd: &Dependency, plan: &mut Vec<i32>)
        ensures
            final(plan)@ == self.step(walk, seeding, old(plan)@, dd@),
    {
        let passed_over = match walk {
            Walk::FirstAlternatives => false,
            Walk::Install => !seeding && is_met_by_plan(plan, dd),
        };
        if !passed_over {
            if let Some(p) = self.target_of(walk, dd) {
                if !vec_contains(plan, p) {
                    plan.push(p);
                }
            }
        }
    }

    /// Looks at the dependencies of package `q`, in order. Says whether
    /// `plan` has grown.
    pub fn expand(&self, walk: Walk, seeding: bool, q: i32, plan: &mut Vec<i32>) -> (added: bool)
        ensures
            final(plan)@ == self.after_deps(walk, seeding, old(plan)@, self.deps_of(q)),
            added == (final(plan)@.len() > old(plan)@.len()),
            old(plan)@.is_prefix_of(final(plan)@),
    {
        let ghost before = plan@;
        assert(before =~= before.subrange(0, before.len() as int));
        if q < 0 || q as usize >= self.records.len() {
            return false;
        }
        let deps = &self.records[q as usize].dependencies;
        let n: usize = plan.len();
        let mut j: usize = 0;
        while j < deps.len()
            invariant
                j <= deps.len(),
                deps@ == self.deps_of(q),
                n == before.len(),
                before.is_prefix_of(plan@),
                plan@ == self.after_deps(walk, seeding, before, deps@.take(j as int)),
            decreases deps.len() - j,
        {
            proof {
                assert(deps@.take(j + 1).drop_last() == deps@.take(j as int));
                assert(deps@.take(j + 1).last() == deps@[j as int]);
                self.lemma_step_extends(walk, seeding, plan@, deps@[j as int]@);
                lemma_prefix_chain(
                    before,
                    plan@,
                    self.step(walk, seeding, plan@, deps@[j as int]@),
                );
            }
            self.advance(walk, seeding, &deps[j], plan);
            j += 1;
        }
        assert(deps@.take(j as int) == deps@);
        plan.len() > n
    }

    /// The answer of the solver that follows `walk` from package `root`.
    pub fn closure(&self, walk: Walk, root: i32) -> (plan: Vec<i32>)
        requires
            self.wf(),
            self.known(root as int),
        ensures
            plan@ == self.solution(walk, root),
    {
        let mut plan: Vec<i32> = Vec::new();
        self.expand(walk, true, root, &mut plan);
        let ghost mut rounds: nat = self.records@.len();
        proof {
            self.lemma_solution(walk, root);
        }
        loop
            invariant
                self.wf(),
                self.known(root as int),
                self.sound(walk, root, plan@),
                self.solution(walk, root) == self.settled(walk, plan@, rounds),
                rounds + plan@.len() >= self.records@.len(),
            ensures
                plan@ == self.solution(walk, root),
            decreases self.records@.len() - plan@.len(),
        {
            let ghost start = plan@;
            let n: usize = plan.len();
            let mut i: usize = 0;
            while i < n
                invariant
                    i <= n == start.len(),
                    start.is_prefix_of(plan@),
                    plan@ == self.after_members(walk, start, i as nat),
                decreases n - i,
            {
                proof {
                    lemma_prefix_keeps(start, plan@);
                }
                let q: i32 = plan[i];
                let ghost before = plan@;
                self.expand(walk, false, q, &mut plan);
                proof {
                    lemma_prefix_chain(start, before, plan@);
                }
                i += 1;
            }
            proof {
                self.lemma_after_members_sound(walk, root, start, start.len());
                self.lemma_sound_bounded(walk, root, plan@);
            }
            if plan.len() == n {
                proof {
                    lemma_prefix_whole(start, plan@);
                }
                break ;
            }
            proof {
                rounds = (rounds - 1) as nat;
            }
        }
        plan
    }
}

/// A prefix of a prefix is a prefix.
pub proof fn lemma_prefix_chain(a: Seq<i32>, b: Seq<i32>, c: Seq<i32>)
    requires
        a.is_prefix_of(b),
        b.is_prefix_of(c),
    ensures
        a.is_prefix_of(c),
{
    lemma_prefix_keeps(a, b);
    lemma_prefix_keeps(b, c);
    assert(a =~= c.subrange(0, a.len() as int));
}

/// A prefix as long as the whole is the whole.
pub proof fn lemma_prefix_whole(a: Seq<i32>, b: Seq<i32>)
    requires
        a.is_prefix_of(b),
        a.len() >= b.len(),
    ensures
        a == b,
{
    assert(a =~= b);
}

} // verus!
