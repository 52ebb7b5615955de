//! Closure of a package under a choice of one target per dependency.

use vstd::prelude::*;
use crate::packages::{Alternative, Dependency, Packages};

verus! {

/// How a dependency is followed to a package.
#[derive(Clone, Copy, Debug, PartialEq, Eq, Structural)]
pub enum Walk {
    /// To its first alternative, whatever is installed.
    FirstAlternatives,
    /// To the package picked for installation, where it is not satisfied.
    Install,
}

/// A sequence without duplicates whose items are package numbers below `n`
/// has at most `n` items.
pub proof fn lemma_distinct_numbers_bounded(s: Seq<i32>, n: int)
    requires
        0 <= n,
        s.no_duplicates(),
        forall|i: int| 0 <= i < s.len() ==> 0 <= #[trigger] s[i] < n,
    ensures
        s.len() <= n,
{
    let t = s.map_values(|x: i32| x as int);
    assert(t.no_duplicates());
    t.unique_seq_to_set();
    let below = vstd::set_lib::set_int_range(0, n);
    vstd::set_lib::lemma_int_range(0, n);
    assert(t.to_set().subset_of(below)) by {
        assert forall|x: int| t.to_set().contains(x) implies below.contains(x) by {
            let i = choose|i: int| 0 <= i < t.len() && t[i] == x;
            assert(t[i] == s[i] as int);
        }
    }
    vstd::set_lib::lemma_len_subset(t.to_set(), below);
}

/// What a prefix holds, the whole sequence holds, at the same place.
pub proof fn lemma_prefix_keeps(a: Seq<i32>, b: Seq<i32>)
    requires
        a.is_prefix_of(b),
    ensures
        forall|i: int| 0 <= i < a.len() ==> a[i] == b[i],
        forall|x: i32| a.contains(x) ==> b.contains(x),
{
    assert forall|i: int| 0 <= i < a.len() implies a[i] == b[i] by {
        assert(a[i] == b.subrange(0, a.len() as int)[i]);
    }
    assert forall|x: i32| a.contains(x) implies b.contains(x) by {
        let i = choose|i: int| 0 <= i < a.len() && a[i] == x;
        assert(b[i] == x);
    }
}

/// Whether `x` is among `v`.
pub fn vec_contains(v: &Vec<i32>, x: i32) -> (found: bool)
    ensures
        found == v@.contains(x),
{
    let mut i: usize = 0;
    while i < v.len()
        invariant
            i <= v.len(),
            forall|h: int| 0 <= h < i ==> v@[h] != x,
        decreases v.len() - i,
    {
        if v[i] == x {
            return true;
        }
        i += 1;
    }
    false
}

impl Packages {
    /// The package that `walk` follows the dependency `dd` to, if any.
    pub open spec fn target(&self, walk: Walk, dd: Seq<Alternative>) -> Option<i32> {
        match walk {
            Walk::FirstAlternatives => if dd.len() > 0 {
                Some(dd[0].package_num)
            } else {
                None
            },
            Walk::Install => if self.dep_unsatisfied(dd) {
                self.pick(dd)
            } else {
                None
            },
        }
    }

    /// `walk` leads from package `q` to package `p` in one step: through
    /// some dependency of `q`.
    pub open spec fn edge(&self, walk: Walk, q: i32, p: i32) -> bool {
        self.known(q as int) && exists|j: int|
            0 <= j < self.records@[q as int].dependencies@.len() && self.target(
                walk,
                (#[trigger] self.records@[q as int].dependencies@[j])@,
            ) == Some(p)
    }

    /// `walk` leads from `root` to `p` in exactly `steps + 1` steps.
    pub open spec fn reached_in(&self, walk: Walk, root: i32, p: i32, steps: nat) -> bool
        decreases steps,
    {
        if steps == 0 {
            self.edge(walk, root, p)
        } else {
            exists|q: i32|
                self.reached_in(walk, root, q, (steps - 1) as nat) && #[trigger] self.edge(
                    walk,
                    q,
                    p,
                )
        }
    }

    /// `walk` leads from `root` to `p` in one step or more.
    pub open spec fn reached(&self, walk: Walk, root: i32, p: i32) -> bool {
        exists|steps: nat| self.reached_in(walk, root, p, steps)
    }

    /// `set` holds every package that `walk` leads to in one step from
    /// `root` or from a member of `set`.
    pub open spec fn closed(&self, walk: Walk, root: i32, set: Seq<i32>) -> bool {
        &&& forall|p: i32| #[trigger] self.edge(walk, root, p) ==> set.contains(p)
        &&& forall|q: i32, p: i32|
            set.contains(q) && #[trigger] self.edge(walk, q, p) ==> set.contains(p)
    }

    /// A step leads to a package of the database.
    pub proof fn lemma_edge_known(&self, walk: Walk, q: i32, p: i32)
        requires
            self.wf(),
            self.edge(walk, q, p),
        ensures
            self.known(p as int),
    {
        let j = choose|j: int|
            0 <= j < self.records@[q as int].dependencies@.len() && self.target(
                walk,
                (#[trigger] self.records@[q as int].dependencies@[j])@,
            ) == Some(p);
        let dd = self.records@[q as int].dependencies@[j]@;
        match walk {
            Walk::FirstAlternatives => {
                assert(dd[0].package_num == p);
            },
            Walk::Install => {
                let i = choose|i: int| self.is_best_at(self.candidates(dd), i);
                assert(self.available_rank(p).is_some());
            },
        }
    }

    /// What is reached from `root` is reached by one more step.
    pub proof fn lemma_reached_step(&self, walk: Walk, root: i32, q: i32, p: i32)
        requires
            self.reached(walk, root, q),
            self.edge(walk, q, p),
        ensures
            self.reached(walk, root, p),
    {
        let n = choose|n: nat| self.reached_in(walk, root, q, n);
        assert(self.reached_in(walk, root, p, n + 1));
    }

    /// A closed set holds everything that is reached.
    pub proof fn lemma_closed_holds_reached(
        &self,
        walk: Walk,
        root: i32,
        set: Seq<i32>,
        p: i32,
        steps: nat,
    )
        requires
            self.closed(walk, root, set),
            self.reached_in(walk, root, p, steps),
        ensures
            set.contains(p),
        decreases steps,
    {
        if steps > 0 {
            let q = choose|q: i32|
                self.reached_in(walk, root, q, (steps - 1) as nat) && #[trigger] self.edge(
                    walk,
                    q,
                    p,
                );
            self.lemma_closed_holds_reached(walk, root, set, q, (steps - 1) as nat);
        }
    }

    /// Computes [`Self::target`].
    pub fn target_of(&self, walk: Walk, dd: &Dependency) -> (to: Option<i32>)
        ensures
            to == self.target(walk, dd@),
    {
        match walk {
            Walk::FirstAlternatives => {
                if dd.len() > 0 {
                    Some(dd[0].package_num)
                } else {
                    None
                }
            },
            Walk::Install => {
                if self.dep_is_satisfied(dd).is_some() {
                    None
                } else {
                    self.pick_alternative_to_install(dd)
                }
            },
        }
    }

}

} // verus!
