//! The package list of plugins and flavors.

use vstd::prelude::*;

use crate::location::{Location, LocationView};

verus! {

/// A plugin or flavor the package list depends on.
#[derive(Clone, Debug)]
pub struct Dependency {
    pub uses: String,
    pub name: String,
    pub parent: String,
    pub child: String,
    pub rev: String,
    pub is_flavor: bool,
}

/// Both name the same package: the same repository and the same entry in it.
pub open spec fn identical_spec(a: Dependency, b: Dependency) -> bool {
    a.parent@ == b.parent@ && a.child@ == b.child@
}

impl Dependency {
    pub fn identical(&self, other: &Dependency) -> (r: bool)
        ensures
            r == identical_spec(*self, *other),
    {
        self.parent == other.parent && self.child == other.child
    }
}

/// Why a change to the package list was refused.
#[derive(Clone, Debug)]
pub enum PackageError {
    /// A dependency naming the same package is already listed.
    AlreadyExists { is_flavor: bool, name: String },
    /// No listed dependency names that package.
    NotFound,
}

/// `ds` without the dependencies that name the same package as `d`.
pub open spec fn drop_identical(ds: Seq<Dependency>, d: Dependency) -> Seq<Dependency>
    decreases ds.len(),
{
    if ds.len() == 0 {
        ds
    } else {
        let rest = drop_identical(ds.drop_last(), d);
        if identical_spec(ds.last(), d) {
            rest
        } else {
            rest.push(ds.last())
        }
    }
}

/// Removes from `v` every dependency that names the same package as `d`.
fn retain_other(v: &mut Vec<Dependency>, d: &Dependency)
    ensures
        final(v)@ == drop_identical(old(v)@, *d),
{
    let ghost orig = v@;
    let mut i: usize = 0;
    let ghost mut k: int = 0;
    while i < v.len()
        invariant
            0 <= k <= orig.len(),
            i <= v.len(),
            v@.len() - i == orig.len() - k,
            v@.subrange(0, i as int) == drop_identical(orig.subrange(0, k), *d),
            v@.subrange(i as int, v@.len() as int) == orig.subrange(k, orig.len() as int),
        decreases v.len() - i,
    {
        let ghost pre = v@;
        let ghost i0 = i as int;
        let ghost tail = pre.subrange(i0, pre.len() as int);
        proof {
            assert(tail == orig.subrange(k, orig.len() as int));
            assert(orig[k] == pre.subrange(i as int, pre.len() as int)[0]);
            assert(orig.subrange(0, k + 1).drop_last() =~= orig.subrange(0, k));
            assert(orig.subrange(0, k + 1).last() == orig[k]);
        }
        if v[i].identical(d) {
            v.remove(i);
            proof {
                assert(v@.subrange(0, i as int) =~= pre.subrange(0, i as int));
                assert forall|m: int| 0 <= m < v@.len() - i implies #[trigger] v@[i + m] == orig[k + 1 + m] by {
                    assert(tail[m + 1] == orig.subrange(k, orig.len() as int)[m + 1]);
                    assert(tail[m + 1] == pre[i0 + 1 + m]);
                }
                let vt = v@.subrange(i as int, v@.len() as int);
                let ot = orig.subrange(k + 1, orig.len() as int);
                assert(vt.len() == ot.len());
                assert forall|m: int| 0 <= m < vt.len() implies #[trigger] vt[m] == ot[m] by {
                    assert(v@[i + m] == orig[k + 1 + m]);
                }
                assert(vt =~= ot);
                k = k + 1;
            }
        } else {
            i += 1;
            proof {
                assert(v@.subrange(0, i as int) =~= pre.subrange(0, i - 1).push(orig[k]));
                assert forall|m: int| 0 <= m < v@.len() - i implies #[trigger] v@[i + m] == orig[k + 1 + m] by {
                    assert(tail[m + 1] == orig.subrange(k, orig.len() as int)[m + 1]);
                    assert(tail[m + 1] == pre[i0 + 1 + m]);
                }
                let vt = v@.subrange(i as int, v@.len() as int);
                let ot = orig.subrange(k + 1, orig.len() as int);
                assert(vt.len() == ot.len());
                assert forall|m: int| 0 <= m < vt.len() implies #[trigger] vt[m] == ot[m] by {
                    assert(v@[i + m] == orig[k + 1 + m]);
                }
                assert(vt =~= ot);
                k = k + 1;
            }
        }
    }
    proof {
        assert(v@.subrange(0, i as int) =~= v@);
        assert(orig.subrange(0, k) =~= orig);
    }
}

pub struct Package {
    pub plugins: Vec<Dependency>,
    pub flavors: Vec<Dependency>,
}

impl Package {
    /// All dependencies, plugins first.
    pub open spec fn all(&self) -> Seq<Dependency> {
        self.plugins@ + self.flavors@
    }

    /// Lists `dep` among the flavors or the plugins, unless a dependency
    /// naming the same package is listed already.
    pub fn add(&mut self, dep: Dependency) -> (r: Result<(), PackageError>)
        ensures
            r is Err <==> exists|i: int|
                0 <= i < old(self).all().len() && identical_spec(#[trigger] old(self).all()[i], dep),
            r matches Err(e) ==> {
                &&& final(self).plugins@ == old(self).plugins@
                &&& final(self).flavors@ == old(self).flavors@
                &&& e matches PackageError::AlreadyExists { is_flavor, name } && name@ == dep.name@
                    && exists|i: int|
                    {
                        &&& 0 <= i < old(self).all().len()
                        &&& identical_spec(#[trigger] old(self).all()[i], dep)
                        &&& forall|k: int| 0 <= k < i ==> !identical_spec(old(self).all()[k], dep)
                        &&& is_flavor == old(self).all()[i].is_flavor
                    }
            },
            r is Ok ==> if dep.is_flavor {
                final(self).flavors@ == old(self).flavors@.push(dep) && final(self).plugins@
                    == old(self).plugins@
            } else {
                final(self).plugins@ == old(self).plugins@.push(dep) && final(self).flavors@
                    == old(self).flavors@
            },
    {
        match self.identical(&dep) {
            Some(d) => {
                return Err(PackageError::AlreadyExists { is_flavor: d.is_flavor, name: dep.name.clone() });
            },
            None => {},
        }
        if dep.is_flavor {
            self.flavors.push(dep);
        } else {
            self.plugins.push(dep);
        }
        Ok(())
    }

    /// Removes the dependencies naming the same package as `dep`, from the
    /// flavors or the plugins according to the first one listed.
    pub fn delete(&mut self, dep: &Dependency) -> (r: Result<(), PackageError>)
        ensures
            r is Err <==> forall|i: int|
                0 <= i < old(self).all().len() ==> !identical_spec(#[trigger] old(self).all()[i], *dep),
            r matches Err(e) ==> e is NotFound && final(self).all() == old(self).all(),
            r is Ok ==> exists|i: int|
                {
                    &&& 0 <= i < old(self).all().len()
                    &&& identical_spec(#[trigger] old(self).all()[i], *dep)
                    &&& forall|k: int| 0 <= k < i ==> !identical_spec(old(self).all()[k], *dep)
                    &&& if old(self).all()[i].is_flavor {
                        final(self).flavors@ == drop_identical(old(self).flavors@, *dep)
                            && final(self).plugins@ == old(self).plugins@
                    } else {
                        final(self).plugins@ == drop_identical(old(self).plugins@, *dep)
                            && final(self).flavors@ == old(self).flavors@
                    }
                },
    {
        let is_flavor = match self.identical(dep) {
            None => {
                return Err(PackageError::NotFound);
            },
            Some(d) => d.is_flavor,
        };
        if is_flavor {
            retain_other(&mut self.flavors, dep);
        } else {
            retain_other(&mut self.plugins, dep);
        }
        Ok(())
    }

    /// Whether an upgrade asked for `uses` (all when empty) takes `dep`.
    pub fn wants_upgrade(uses: &[String], dep: &Dependency) -> (r: bool)
        ensures
            r == (uses.len() == 0 || exists|i: int| 0 <= i < uses.len() && (#[trigger] uses@[i])@ == dep.uses@),
    {
        if uses.len() == 0 {
            return true;
        }
        let mut i: usize = 0;
        while i < uses.len()
            invariant
                i <= uses.len(),
                forall|k: int| 0 <= k < i ==> uses@[k]@ != dep.uses@,
            decreases uses.len() - i,
        {
            if uses[i] == dep.uses {
                return true;
            }
            i += 1;
        }
        false
    }

    /// Where the package list is stored inside the configuration directory.
    pub fn toml(config_dir: &Location) -> (r: Location)
        ensures
            r@ == config_dir@.child("package.toml"@),
    {
        let name = "package.toml".to_owned();
        config_dir.join(&name)
    }

    /// The first dependency, plugins before flavors, that names the same
    /// package as `other`.
    pub fn identical(&self, other: &Dependency) -> (r: Option<&Dependency>)
        ensures
            r is None <==> forall|i: int| 0 <= i < self.all().len() ==> !identical_spec(
                #[trigger] self.all()[i],
                *other,
            ),
            r matches Some(d) ==> exists|i: int|
                0 <= i < self.all().len() && #[trigger] self.all()[i] == *d && identical_spec(
                    *d,
                    *other,
                ) && forall|k: int| 0 <= k < i ==> !identical_spec(self.all()[k], *other),
    {
        let ghost all = self.all();
        let mut i: usize = 0;
        while i < self.plugins.len()
            invariant
                all == self.all(),
                i <= self.plugins.len(),
                forall|k: int| 0 <= k < i ==> !identical_spec(all[k], *other),
            decreases self.plugins.len() - i,
        {
            assert(all[i as int] == self.plugins@[i as int]);
            if self.plugins[i].identical(other) {
                return Some(&self.plugins[i]);
            }
            i += 1;
        }
        let mut j: usize = 0;
        while j < self.flavors.len()
            invariant
                all == self.all(),
                j <= self.flavors.len(),
                forall|k: int| 0 <= k < self.plugins.len() + j ==> !identical_spec(all[k], *other),
            decreases self.flavors.len() - j,
        {
            assert(all[self.plugins.len() + j] == self.flavors@[j as int]);
            if self.flavors[j].identical(other) {
                return Some(&self.flavors[j]);
            }
            j += 1;
        }
        None
    }
}

} // verus!
