//! The package database: records, dependencies and lookups.

use vstd::prelude::*;
use crate::version::{Version, VersionRelation};
use crate::async_fns::AsyncState;

verus! {

/// One candidate of a dependency: a target package and, optionally, the
/// relation its installed version must have to a required version.
#[derive(Debug)]
pub struct Alternative {
    pub package_num: i32,
    pub rel_version: Option<(VersionRelation, Version)>,
}

/// An OR-group of alternatives, in order of preference.
pub type Dependency = Vec<Alternative>;

/// What the database knows of one package.
#[derive(Debug)]
pub struct PackageRecord {
    pub name: String,
    pub installed: Option<Version>,
    pub available: Option<Version>,
    pub md5sum: Option<String>,
    pub dependencies: Vec<Dependency>,
}

/// The database, with the verification engine that works on it. A package's
/// number is its index in `records`.
#[derive(Debug)]
pub struct Packages {
    pub records: Vec<PackageRecord>,
    pub async_state: AsyncState,
}

/// Every alternative of `d` targets a package number below `n`.
pub open spec fn dep_in_range(d: Seq<Alternative>, n: int) -> bool {
    forall|k: int| 0 <= k < d.len() ==> 0 <= (#[trigger] d[k]).package_num < n
}

/// Every dependency of `r` targets package numbers below `n`.
pub open spec fn record_in_range(r: PackageRecord, n: int) -> bool {
    forall|j: int|
        0 <= j < r.dependencies@.len() ==> dep_in_range((#[trigger] r.dependencies@[j])@, n)
}

/// No two records up to `n` bear the same name.
pub open spec fn names_distinct(rs: Seq<PackageRecord>, n: int) -> bool {
    forall|i: int, j: int| 0 <= i < j < n ==> (#[trigger] rs[i]).name@ != (#[trigger] rs[j]).name@
}

/// The records form a database: numbers fit an `i32`, dependencies point at
/// existing packages, and names are unique.
pub open spec fn records_wf(rs: Seq<PackageRecord>) -> bool {
    &&& rs.len() <= i32::MAX
    &&& forall|i: int| 0 <= i < rs.len() ==> record_in_range(#[trigger] rs[i], rs.len() as int)
    &&& names_distinct(rs, rs.len() as int)
}

fn dependency_in_range(dep: &Dependency, n: usize) -> (ok: bool)
    requires
        n <= i32::MAX,
    ensures
        ok == dep_in_range(dep@, n as int),
{
    let mut k: usize = 0;
    while k < dep.len()
        invariant
            k <= dep.len(),
            n <= i32::MAX,
            dep_in_range(dep@.take(k as int), n as int),
        decreases dep.len() - k,
    {
        let num: i32 = dep[k].package_num;
        if num < 0 || num as usize >= n {
            return false;
        }
        assert(dep@.take(k + 1).drop_last() == dep@.take(k as int));
        k += 1;
    }
    assert(dep@.take(k as int) == dep@);
    true
}

fn dependencies_in_range(rec: &PackageRecord, n: usize) -> (ok: bool)
    requires
        n <= i32::MAX,
    ensures
        ok == record_in_range(*rec, n as int),
{
    let mut j: usize = 0;
    while j < rec.dependencies.len()
        invariant
            j <= rec.dependencies.len(),
            n <= i32::MAX,
            forall|i: int| 0 <= i < j ==> dep_in_range((#[trigger] rec.dependencies@[i])@, n as int),
        decreases rec.dependencies.len() - j,
    {
        if !dependency_in_range(&rec.dependencies[j], n) {
            return false;
        }
        j += 1;
    }
    true
}

fn name_is_new(records: &Vec<PackageRecord>, j: usize) -> (ok: bool)
    requires
        j < records.len(),
    ensures
        ok == (forall|i: int| 0 <= i < j ==> (#[trigger] records@[i]).name@ != records@[j as int].name@),
{
    let mut i: usize = 0;
    while i < j
        invariant
            i <= j < records.len(),
            forall|h: int| 0 <= h < i ==> (#[trigger] records@[h]).name@ != records@[j as int].name@,
        decreases j - i,
    {
        if records[i].name == records[j].name {
            return false;
        }
        i += 1;
    }
    true
}

fn records_are_wf(records: &Vec<PackageRecord>) -> (ok: bool)
    ensures
        ok == records_wf(records@),
{
    let n: usize = records.len();
    if n > i32::MAX as usize {
        return false;
    }
    let mut j: usize = 0;
    while j < n
        invariant
            j <= n == records.len(),
            n <= i32::MAX,
            forall|i: int| 0 <= i < j ==> record_in_range(#[trigger] records@[i], n as int),
            names_distinct(records@, j as int),
        decreases n - j,
    {
        if !dependencies_in_range(&records[j], n) {
            return false;
        }
        if !name_is_new(records, j) {
            return false;
        }
        j += 1;
    }
    true
}

impl Packages {
    /// The database invariant: see [`records_wf`].
    pub open spec fn wf(&self) -> bool {
        records_wf(self.records@)
    }

    /// `n` is the number of a package of the database.
    pub open spec fn known(&self, n: int) -> bool {
        0 <= n < self.records@.len()
    }

    /// The package numbered `n` is called `name`.
    pub open spec fn named(&self, n: int, name: Seq<char>) -> bool {
        self.known(n) && self.records@[n].name@ == name
    }

    /// Some package is called `name`.
    pub open spec fn has_name(&self, name: Seq<char>) -> bool {
        exists|n: int| self.named(n, name)
    }

    /// Builds a database from its records, with a fresh verification engine.
    /// Refuses records that break the database invariant.
    pub fn from_records(records: Vec<PackageRecord>) -> (db: Option<Packages>)
        ensures
            db.is_some() == records_wf(records@),
            db matches Some(p) ==> p.records == records && p.async_state.is_fresh() && p.wf(),
    {
        if records_are_wf(&records) {
            Some(Packages { records, async_state: AsyncState::new() })
        } else {
            None
        }
    }

    /// Tests the invariant of the database.
    pub fn is_consistent(&self) -> (ok: bool)
        ensures
            ok == self.wf(),
    {
        records_are_wf(&self.records)
    }

    /// The number of the package called `name`, if there is one.
    pub fn get_package_num(&self, name: &str) -> (num: Option<i32>)
        requires
            self.wf(),
        ensures
            match num {
                Some(n) => self.named(n as int, name@),
                None => !self.has_name(name@),
            },
    {
        let wanted = String::from_str(name);
        let mut i: usize = 0;
        while i < self.records.len()
            invariant
                i <= self.records.len() <= i32::MAX,
                wanted@ == name@,
                forall|h: int| 0 <= h < i ==> !self.named(h, name@),
            decreases self.records.len() - i,
        {
            if self.records[i].name == wanted {
                return Some(i as i32);
            }
            i += 1;
        }
        None
    }

    /// Whether a package called `name` is in the database.
    pub fn package_exists(&self, name: &str) -> (found: bool)
        requires
            self.wf(),
        ensures
            found == self.has_name(name@),
    {
        self.get_package_num(name).is_some()
    }

    /// The name of package `num`, if there is such a package.
    pub fn get_package_name(&self, num: i32) -> (name: Option<&str>)
        ensures
            match name {
                Some(s) => self.named(num as int, s@),
                None => !self.known(num as int),
            },
    {
        if 0 <= num && (num as usize) < self.records.len() {
            Some(self.records[num as usize].name.as_str())
        } else {
            None
        }
    }

    /// The record of the package called `name`, if there is one.
    pub open spec fn record_named(&self, name: Seq<char>) -> Option<PackageRecord> {
        if self.has_name(name) {
            Some(self.records@[choose|n: int| self.named(n, name)])
        } else {
            None
        }
    }

    /// In a database, the package called `name` has one number only.
    pub proof fn lemma_name_is_unique(&self, n: int, name: Seq<char>)
        requires
            self.wf(),
            self.named(n, name),
        ensures
            self.record_named(name) == Some(self.records@[n]),
    {
        let m = choose|m: int| self.named(m, name);
        assert(m == n);
    }

    /// The record of the package called `name`, if there is one.
    pub fn find(&self, name: &str) -> (rec: Option<&PackageRecord>)
        requires
            self.wf(),
        ensures
            rec.is_some() == self.has_name(name@),
            rec matches Some(r) ==> self.record_named(name@) == Some(*r),
    {
        match self.get_package_num(name) {
            None => None,
            Some(n) => {
                proof {
                    self.lemma_name_is_unique(n as int, name@);
                }
                Some(&self.records[n as usize])
            },
        }
    }

    /// The installed version of the package called `name`; `None` where
    /// the package is unknown or not installed.
    pub fn get_installed_debver(&self, name: &str) -> (v: Option<&Version>)
        requires
            self.wf(),
        ensures
            v.is_some() == (self.record_named(name@) matches Some(r) && r.installed.is_some()),
            v matches Some(inst) ==> self.record_named(name@).unwrap().installed == Some(*inst),
    {
        match self.find(name) {
            None => None,
            Some(rec) => rec.installed.as_ref(),
        }
    }

    /// The available version of the package called `name`; `None` where
    /// the package is unknown or no version of it is available.
    pub fn get_available_debver(&self, name: &str) -> (v: Option<&Version>)
        requires
            self.wf(),
        ensures
            v.is_some() == (self.record_named(name@) matches Some(r) && r.available.is_some()),
            v matches Some(avail) ==> self.record_named(name@).unwrap().available == Some(*avail),
    {
        match self.find(name) {
            None => None,
            Some(rec) => rec.available.as_ref(),
        }
    }

    /// The checksum of the installed files of the package called `name`;
    /// `None` where the package is unknown or has no checksum on record.
    pub fn get_md5sum(&self, name: &str) -> (sum: Option<&str>)
        requires
            self.wf(),
        ensures
            sum.is_some() == (self.record_named(name@) matches Some(r) && r.md5sum.is_some()),
            sum matches Some(text) ==> self.record_named(name@).unwrap().md5sum.unwrap()@ == text@,
    {
        match self.find(name) {
            None => None,
            Some(rec) => match &rec.md5sum {
                None => None,
                Some(text) => Some(text.as_str()),
            },
        }
    }
}

} // verus!
