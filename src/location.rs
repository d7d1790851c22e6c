//! Scheme-qualified locations of filesystem entries and their ancestry.

use vstd::prelude::*;

verus! {

/// The namespace a location lives in.
#[derive(Clone, Copy, Debug, PartialEq, Eq, Structural, Hash)]
pub enum Scheme {
    Regular,
    Search,
    Archive,
}

/// The mathematical value of a location: its scheme and its path components,
/// from the root downwards.
pub struct LocationView {
    pub scheme: Scheme,
    pub comps: Seq<Seq<char>>,
}

impl LocationView {
    /// `self` lies strictly above `other` in the same namespace.
    pub open spec fn is_ancestor_of(self, other: LocationView) -> bool {
        &&& self.scheme == other.scheme
        &&& self.comps.len() < other.comps.len()
        &&& self.comps == other.comps.subrange(0, self.comps.len() as int)
    }

    /// One of the two lies strictly above the other.
    pub open spec fn related(self, other: LocationView) -> bool {
        self.is_ancestor_of(other) || other.is_ancestor_of(self)
    }

    pub open spec fn is_root(self) -> bool {
        self.comps.len() == 0
    }

    /// The immediately enclosing location; only meaningful off the root.
    pub open spec fn parent(self) -> LocationView {
        LocationView { scheme: self.scheme, comps: self.comps.drop_last() }
    }

    pub open spec fn parent_opt(self) -> Option<LocationView> {
        if self.is_root() {
            None
        } else {
            Some(self.parent())
        }
    }

    pub open spec fn child(self, name: Seq<char>) -> LocationView {
        LocationView { scheme: self.scheme, comps: self.comps.push(name) }
    }

    /// Both have the same immediate parent, or are the same root.
    pub open spec fn sibling_of(self, other: LocationView) -> bool {
        self.parent_opt() == other.parent_opt() && self.scheme == other.scheme
    }
}

/// An immutable identifier of a filesystem (or virtual) entry.
#[derive(Clone, Debug)]
pub struct Location {
    scheme: Scheme,
    comps: Vec<String>,
}

impl View for Location {
    type V = LocationView;

    closed spec fn view(&self) -> LocationView {
        LocationView { scheme: self.scheme, comps: self.comps@.map_values(|c: String| c@) }
    }
}

/// A location is one step below its parent, and under everything above it.
pub proof fn lemma_parent_chain(a: LocationView, m: LocationView)
    requires
        !m.is_root(),
    ensures
        m.parent().is_ancestor_of(m),
        a.is_ancestor_of(m) <==> (a == m.parent() || a.is_ancestor_of(m.parent())),
{
    assert(m.parent().comps =~= m.comps.subrange(0, m.comps.len() - 1));
    if a.is_ancestor_of(m) && a != m.parent() {
        assert(a.comps.len() != m.comps.len() - 1) by {
            if a.comps.len() == m.comps.len() - 1 {
                assert(a.comps =~= m.parent().comps);
            }
        }
        assert(a.comps =~= m.parent().comps.subrange(0, a.comps.len() as int));
    }
    if a.is_ancestor_of(m.parent()) {
        assert(a.comps =~= m.comps.subrange(0, a.comps.len() as int));
    }
}

/// Ancestry is transitive.
pub proof fn lemma_ancestor_transitive(a: LocationView, b: LocationView, c: LocationView)
    requires
        a.is_ancestor_of(b),
        b.is_ancestor_of(c),
    ensures
        a.is_ancestor_of(c),
{
    assert(a.comps =~= c.comps.subrange(0, a.comps.len() as int));
}

/// Siblings have the same depth and the same ancestors.
pub proof fn lemma_sibling_facts(x: LocationView, y: LocationView, a: LocationView)
    requires
        x.sibling_of(y),
    ensures
        x.comps.len() == y.comps.len(),
        a.is_ancestor_of(x) <==> a.is_ancestor_of(y),
        y.sibling_of(x),
{
    if !x.is_root() {
        lemma_parent_chain(a, x);
        lemma_parent_chain(a, y);
    }
}

/// Two ancestors of one location at the same depth are the same location.
pub proof fn lemma_ancestor_at_depth(a: LocationView, b: LocationView, c: LocationView)
    requires
        a.is_ancestor_of(c),
        b.is_ancestor_of(c),
        a.comps.len() == b.comps.len(),
    ensures
        a == b,
{
    assert(a.comps =~= b.comps);
}

impl Location {
    pub fn new(scheme: Scheme, comps: Vec<String>) -> (r: Location)
        ensures
            r@.scheme == scheme,
            r@.comps == comps@.map_values(|c: String| c@),
    {
        Location { scheme, comps }
    }

    pub fn scheme(&self) -> (r: Scheme)
        ensures
            r == self@.scheme,
    {
        self.scheme
    }

    /// The path components from the root downwards.
    pub fn components(&self) -> (r: &Vec<String>)
        ensures
            r@.map_values(|c: String| c@) == self@.comps,
    {
        &self.comps
    }

    /// The number of path components below the root.
    pub fn depth(&self) -> (r: usize)
        ensures
            r == self@.comps.len(),
    {
        self.comps.len()
    }

    pub fn is_root(&self) -> (r: bool)
        ensures
            r == self@.is_root(),
    {
        self.comps.len() == 0
    }

    /// A copy whose value is known to equal this one.
    pub fn duplicate(&self) -> (r: Location)
        ensures
            r@ == self@,
    {
        let mut comps: Vec<String> = Vec::new();
        let mut i: usize = 0;
        while i < self.comps.len()
            invariant
                i <= self.comps.len(),
                comps.len() == i,
                forall|j: int| 0 <= j < i ==> comps@[j]@ == self.comps@[j]@,
            decreases self.comps.len() - i,
        {
            comps.push(self.comps[i].clone());
            i += 1;
        }
        let r = Location { scheme: self.scheme, comps };
        assert(r@.comps =~= self@.comps);
        r
    }

    /// Whether both name the same entry.
    pub fn same(&self, other: &Location) -> (r: bool)
        ensures
            r == (self@ == other@),
    {
        if self.scheme != other.scheme || self.comps.len() != other.comps.len() {
            assert(self@.comps.len() == self.comps.len());
            assert(other@.comps.len() == other.comps.len());
            return false;
        }
        let mut i: usize = 0;
        while i < self.comps.len()
            invariant
                i <= self.comps.len() == other.comps.len(),
                forall|j: int| 0 <= j < i ==> self@.comps[j] == other@.comps[j],
            decreases self.comps.len() - i,
        {
            if self.comps[i] != other.comps[i] {
                assert(self@.comps[i as int] == self.comps@[i as int]@);
                assert(other@.comps[i as int] == other.comps@[i as int]@);
                return false;
            }
            i += 1;
        }
        assert(self@.comps =~= other@.comps);
        true
    }

    /// Whether both have the same immediate parent, or are the same root.
    pub fn is_sibling_of(&self, other: &Location) -> (r: bool)
        ensures
            r == self@.sibling_of(other@),
    {
        proof {
            if self@.sibling_of(other@) {
                lemma_sibling_facts(self@, other@, self@);
            }
        }
        if self.scheme != other.scheme || self.comps.len() != other.comps.len() {
            assert(self@.comps.len() == self.comps.len());
            assert(other@.comps.len() == other.comps.len());
            return false;
        }
        if self.comps.len() == 0 {
            return true;
        }
        let mut i: usize = 0;
        while i + 1 < self.comps.len()
            invariant
                i + 1 <= self.comps.len() == other.comps.len(),
                forall|j: int| 0 <= j < i ==> self@.comps[j] == other@.comps[j],
            decreases self.comps.len() - i,
        {
            if self.comps[i] != other.comps[i] {
                assert(self@.comps.drop_last()[i as int] == self.comps@[i as int]@);
                assert(other@.comps.drop_last()[i as int] == other.comps@[i as int]@);
                return false;
            }
            i += 1;
        }
        assert(self@.parent().comps =~= other@.parent().comps);
        true
    }

    /// Whether `self` lies strictly above `other`.
    pub fn is_ancestor_of(&self, other: &Location) -> (r: bool)
        ensures
            r == self@.is_ancestor_of(other@),
    {
        if self.scheme != other.scheme || self.comps.len() >= other.comps.len() {
            return false;
        }
        let mut i: usize = 0;
        while i < self.comps.len()
            invariant
                i <= self.comps.len() < other.comps.len(),
                forall|j: int| 0 <= j < i ==> self@.comps[j] == other@.comps[j],
            decreases self.comps.len() - i,
        {
            if self.comps[i] != other.comps[i] {
                assert(other@.comps.subrange(0, self.comps.len() as int)[i as int]
                    != self@.comps[i as int]);
                return false;
            }
            i += 1;
        }
        assert(self@.comps =~= other@.comps.subrange(0, self.comps.len() as int));
        true
    }

    /// The enclosing location, `None` at the root of a scheme.
    pub fn parent_url(&self) -> (r: Option<Location>)
        ensures
            r matches Some(p) ==> p@ == self@.parent(),
            r is None <==> self@.is_root(),
    {
        if self.comps.len() == 0 {
            return None;
        }
        let mut p = self.duplicate();
        p.comps.pop();
        assert(p@.comps =~= self@.comps.drop_last());
        Some(p)
    }

    /// The last path component, `None` at the root.
    pub fn file_name(&self) -> (r: Option<String>)
        ensures
            r matches Some(n) ==> !self@.is_root() && n@ == self@.comps.last(),
            r is None <==> self@.is_root(),
    {
        if self.comps.len() == 0 {
            None
        } else {
            Some(self.comps[self.comps.len() - 1].clone())
        }
    }

    /// The entry named `name` inside this location.
    pub fn join(&self, name: &String) -> (r: Location)
        ensures
            r@ == self@.child(name@),
    {
        let mut p = self.duplicate();
        p.comps.push(name.clone());
        assert(p@.comps =~= self@.comps.push(name@));
        p
    }
}

} // verus!
