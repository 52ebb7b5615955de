//! Whether a dependency is satisfied by what is installed, and by which
//! package; and which of its alternatives are installed in a version that
//! the dependency rejects.

use vstd::prelude::*;
use crate::packages::{Alternative, Dependency, Packages};
use crate::version::{relation_holds, Version};

verus! {

impl Packages {
    /// The target of `a` is installed.
    pub open spec fn alt_installed(&self, a: Alternative) -> bool {
        self.known(a.package_num as int) && self.records@[a.package_num as int].installed.is_some()
    }

    /// The installed version of `a`'s target stands in the relation that `a`
    /// demands; an alternative without a constraint demands nothing.
    pub open spec fn alt_constraint_holds(&self, a: Alternative) -> bool
        recommends
            self.alt_installed(a),
    {
        match a.rel_version {
            None => true,
            Some((op, required)) => relation_holds(
                op,
                self.records@[a.package_num as int].installed.unwrap().rank,
                required.rank,
            ),
        }
    }

    /// `a` is satisfied: its target is installed in an acceptable version.
    pub open spec fn alt_satisfied(&self, a: Alternative) -> bool {
        self.alt_installed(a) && self.alt_constraint_holds(a)
    }

    /// `a`'s target is installed, in a version that `a` rejects.
    pub open spec fn alt_wrong_version(&self, a: Alternative) -> bool {
        self.alt_installed(a) && !self.alt_constraint_holds(a)
    }

    /// No alternative of `dd` is satisfied.
    pub open spec fn dep_unsatisfied(&self, dd: Seq<Alternative>) -> bool {
        forall|i: int| 0 <= i < dd.len() ==> !self.alt_satisfied(#[trigger] dd[i])
    }

    /// `dd[i]` is the first satisfied alternative of `dd`.
    pub open spec fn first_satisfied_at(&self, dd: Seq<Alternative>, i: int) -> bool {
        &&& 0 <= i < dd.len()
        &&& self.alt_satisfied(dd[i])
        &&& self.dep_unsatisfied(dd.take(i))
    }

    /// `by` is the answer to "what satisfies `dd`?": nothing where no
    /// alternative is satisfied, else the name of the target of the first
    /// satisfied alternative.
    pub open spec fn is_satisfier(&self, dd: Seq<Alternative>, by: Option<&str>) -> bool {
        match by {
            None => self.dep_unsatisfied(dd),
            Some(name) => exists|i: int|
                self.first_satisfied_at(dd, i) && self.named(
                    (#[trigger] dd[i]).package_num as int,
                    name@,
                ),
        }
    }

    /// The installed version of `alt`'s target, where it has one.
    fn installed_for(&self, alt: &Alternative) -> (v: Option<&Version>)
        ensures
            v.is_some() == self.alt_installed(*alt),
            v matches Some(inst) ==> self.records@[alt.package_num as int].installed == Some(*inst),
    {
        let num: i32 = alt.package_num;
        if num < 0 || num as usize >= self.records.len() {
            return None;
        }
        self.records[num as usize].installed.as_ref()
    }

    /// Whether `installed`, the installed version of `alt`'s target, is one
    /// that `alt` accepts.
    fn constraint_holds(&self, alt: &Alternative, installed: &Version) -> (ok: bool)
        requires
            self.alt_installed(*alt),
            self.records@[alt.package_num as int].installed == Some(*installed),
        ensures
            ok == self.alt_constraint_holds(*alt),
    {
        match &alt.rel_version {
            None => true,
            Some((op, required)) => installed.satisfies(*op, required),
        }
    }

    /// Returns the name of the package that satisfies `dd`: the target of
    /// the first alternative that is installed in an acceptable version.
    /// Returns `None` exactly when no alternative is satisfied.
    pub fn dep_is_satisfied<'a>(&'a self, dd: &Dependency) -> (by: Option<&'a str>)
        ensures
            self.is_satisfier(dd@, by),
    {
        let mut k: usize = 0;
        while k < dd.len()
            invariant
                k <= dd.len(),
                self.dep_unsatisfied(dd@.take(k as int)),
            decreases dd.len() - k,
        {
            let alt = &dd[k];
            if let Some(installed) = self.installed_for(alt) {
                if self.constraint_holds(alt, installed) {
                    let name = self.records[alt.package_num as usize].name.as_str();
                    assert(self.first_satisfied_at(dd@, k as int));
                    return Some(name);
                }
            }
            assert(dd@.take(k + 1).drop_last() == dd@.take(k as int));
            k += 1;
        }
        assert(dd@.take(k as int) == dd@);
        None
    }

    /// The targets of those alternatives of `dd` that are installed in a
    /// version that the alternative rejects, in the order of `dd`.
    pub open spec fn wrong_version_targets(&self, dd: Seq<Alternative>) -> Seq<i32> {
        dd.filter(|a: Alternative| self.alt_wrong_version(a)).map_values(
            |a: Alternative| a.package_num,
        )
    }

    /// Computes [`Self::wrong_version_targets`].
    pub fn wrong_version_nums(&self, dd: &Dependency) -> (nums: Vec<i32>)
        ensures
            nums@ == self.wrong_version_targets(dd@),
    {
        let mut nums: Vec<i32> = Vec::new();
        let mut k: usize = 0;
        proof {
            reveal(Seq::filter);
        }
        while k < dd.len()
            invariant
                k <= dd.len(),
                nums@ == self.wrong_version_targets(dd@.take(k as int)),
            decreases dd.len() - k,
        {
            let alt = &dd[k];
            proof {
                reveal(Seq::filter);
                assert(dd@.take(k + 1).drop_last() == dd@.take(k as int));
                assert(dd@.take(k + 1).last() == dd@[k as int]);
            }
            if let Some(installed) = self.installed_for(alt) {
                if !self.constraint_holds(alt, installed) {
                    nums.push(alt.package_num);
                }
            }
            k += 1;
        }
        assert(dd@.take(k as int) == dd@);
        nums
    }

    /// Each wrong-version target is the target of an alternative of `dd`
    /// that is installed and carries a constraint which the installed
    /// version fails.
    pub proof fn lemma_wrong_version_targets(&self, dd: Seq<Alternative>, i: int)
        requires
            0 <= i < self.wrong_version_targets(dd).len(),
        ensures
            exists|k: int|
                0 <= k < dd.len() && (#[trigger] dd[k]).package_num == self.wrong_version_targets(
                    dd,
                )[i] && self.alt_installed(dd[k]) && dd[k].rel_version.is_some()
                    && !self.alt_constraint_holds(dd[k]),
    {
        let pred = |a: Alternative| self.alt_wrong_version(a);
        let kept = dd.filter(pred);
        dd.lemma_filter_pred(pred, i);
        assert(kept.contains(kept[i]));
        dd.lemma_filter_contains_rev(pred, kept[i]);
        let k = choose|k: int| 0 <= k < dd.len() && dd[k] == kept[i];
        assert(self.alt_wrong_version(dd[k]));
    }

    /// Returns the names of the packages that would satisfy `dd` but for
    /// their version: the targets of the alternatives that are installed in a
    /// version the alternative rejects, in the order of `dd`. Meant for a
    /// dependency that is not satisfied.
    pub fn dep_satisfied_by_wrong_version<'a>(&'a self, dd: &Dependency) -> (names: Vec<&'a str>)
        requires
            self.dep_unsatisfied(dd@),
        ensures
            names@.len() == self.wrong_version_targets(dd@).len(),
            forall|i: int|
                0 <= i < names@.len() ==> self.named(
                    self.wrong_version_targets(dd@)[i] as int,
                    (#[trigger] names@[i])@,
                ),
    {
        let nums = self.wrong_version_nums(dd);
        let mut names: Vec<&'a str> = Vec::new();
        let mut i: usize = 0;
        while i < nums.len()
            invariant
                i <= nums.len(),
                nums@ == self.wrong_version_targets(dd@),
                names@.len() == i,
                forall|h: int| 0 <= h < i ==> self.named(nums@[h] as int, (#[trigger] names@[h])@),
            decreases nums.len() - i,
        {
            proof {
                self.lemma_wrong_version_targets(dd@, i as int);
            }
            names.push(self.records[nums[i] as usize].name.as_str());
            i += 1;
        }
        names
    }

    /// For each dependency of the package called `package_name`, in order,
    /// what satisfies it (see [`Self::dep_is_satisfied`]); `None` where the
    /// database has no such package.
    pub fn deps_available<'a>(&'a self, package_name: &str) -> (report: Option<Vec<Option<&'a str>>>)
        requires
            self.wf(),
        ensures
            report.is_some() == self.has_name(package_name@),
            report matches Some(lines) ==> exists|n: int|
                #![trigger self.named(n, package_name@)]
                {
                    &&& self.named(n, package_name@)
                    &&& lines@.len() == self.records@[n].dependencies@.len()
                    &&& forall|j: int|
                        0 <= j < lines@.len() ==> self.is_satisfier(
                            self.records@[n].dependencies@[j]@,
                            #[trigger] lines@[j],
                        )
                },
    {
        let num: i32 = match self.get_package_num(package_name) {
            None => { return None; },
            Some(num) => num,
        };
        let deps = &self.records[num as usize].dependencies;
        let mut lines: Vec<Option<&'a str>> = Vec::new();
        let mut j: usize = 0;
        while j < deps.len()
            invariant
                j <= deps.len(),
                lines@.len() == j,
                forall|h: int| 0 <= h < j ==> self.is_satisfier(deps@[h]@, #[trigger] lines@[h]),
            decreases deps.len() - j,
        {
            lines.push(self.dep_is_satisfied(&deps[j]));
            j += 1;
        }
        assert(self.named(num as int, package_name@));
        Some(lines)
    }
}

} // verus!
