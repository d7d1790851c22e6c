//! The selection set: locations marked by the user, kept free of
//! ancestor/descendant pairs, with a count of selected descendants for every
//! ancestor of a selected location.

use vstd::prelude::*;

use crate::location::{
    Location, LocationView, lemma_ancestor_at_depth, lemma_ancestor_transitive, lemma_parent_chain,
    lemma_sibling_facts,
};

verus! {

/// How many of `ms` lie strictly below `a`.
pub open spec fn desc_count(ms: Seq<LocationView>, a: LocationView) -> nat
    decreases ms.len(),
{
    if ms.len() == 0 {
        0
    } else {
        desc_count(ms.drop_last(), a) + if a.is_ancestor_of(ms.last()) {
            1nat
        } else {
            0nat
        }
    }
}

/// `ms` without the entries listed in `us`, in the order they had.
pub open spec fn keep_unlisted(ms: Seq<LocationView>, us: Seq<LocationView>) -> Seq<LocationView>
    decreases ms.len(),
{
    if ms.len() == 0 {
        ms
    } else {
        let rest = keep_unlisted(ms.drop_last(), us);
        if us.contains(ms.last()) {
            rest
        } else {
            rest.push(ms.last())
        }
    }
}

/// `ms` followed by those of `cs` it does not hold yet, each once, in order.
pub open spec fn extend_unique(ms: Seq<LocationView>, cs: Seq<LocationView>) -> Seq<LocationView>
    decreases cs.len(),
{
    if cs.len() == 0 {
        ms
    } else {
        let rest = extend_unique(ms, cs.drop_last());
        if rest.contains(cs.last()) {
            rest
        } else {
            rest.push(cs.last())
        }
    }
}

/// The candidates of `cs` that are not strictly above a member of `ms`.
pub open spec fn not_above(ms: Seq<LocationView>, cs: Seq<LocationView>) -> Seq<LocationView>
    decreases cs.len(),
{
    if cs.len() == 0 {
        cs
    } else {
        let rest = not_above(ms, cs.drop_last());
        if desc_count(ms, cs.last()) == 0 {
            rest.push(cs.last())
        } else {
            rest
        }
    }
}

/// Some member lies strictly above `c`.
pub open spec fn under_member(ms: Seq<LocationView>, c: LocationView) -> bool {
    exists|i: int| 0 <= i < ms.len() && #[trigger] ms[i].is_ancestor_of(c)
}

/// `u` is selected, or lies above or below a selected location.
pub open spec fn settled(ms: Seq<LocationView>, u: LocationView) -> bool {
    ms.contains(u) || exists|j: int| 0 <= j < ms.len() && (#[trigger] ms[j]).related(u)
}

/// The values of a sequence of locations.
pub open spec fn views(ls: Seq<Location>) -> Seq<LocationView> {
    ls.map_values(|l: Location| l@)
}

/// The values of a sequence of batches of locations.
pub open spec fn group_views(gs: Seq<Vec<Location>>) -> Seq<Seq<LocationView>> {
    gs.map_values(|g: Vec<Location>| views(g@))
}

/// The index of the first batch whose members are siblings of `u`, or -1.
pub open spec fn first_sibling_group(gs: Seq<Seq<LocationView>>, u: LocationView) -> int
    decreases gs.len(),
{
    if gs.len() == 0 {
        -1
    } else {
        let f = first_sibling_group(gs.drop_last(), u);
        if f >= 0 {
            f
        } else if u.sibling_of(gs.last()[0]) {
            gs.len() - 1
        } else {
            -1
        }
    }
}

/// `us` split into batches of shared parent, roots left out: batches come in
/// the order their first member appears in `us`, and each keeps the order of
/// `us`.
pub open spec fn group_spec(us: Seq<LocationView>) -> Seq<Seq<LocationView>>
    decreases us.len(),
{
    if us.len() == 0 {
        Seq::empty()
    } else {
        let gs = group_spec(us.drop_last());
        let u = us.last();
        if u.is_root() {
            gs
        } else {
            let f = first_sibling_group(gs, u);
            if f >= 0 {
                gs.update(f, gs[f].push(u))
            } else {
                gs.push(seq![u])
            }
        }
    }
}

/// The members after `add_same` of the batch `group` on members `ms`.
pub open spec fn after_add_same(ms: Seq<LocationView>, group: Seq<LocationView>) -> Seq<LocationView> {
    let cs = not_above(ms, group);
    if cs.len() == 0 || under_member(ms, cs[0]) {
        ms
    } else {
        extend_unique(ms, cs)
    }
}

/// The members after adding the batches `gs` one after the other.
pub open spec fn after_groups(ms: Seq<LocationView>, gs: Seq<Seq<LocationView>>) -> Seq<LocationView>
    decreases gs.len(),
{
    if gs.len() == 0 {
        ms
    } else {
        after_add_same(after_groups(ms, gs.drop_last()), gs.last())
    }
}

/// All of `cs` share one immediate parent (or are one and the same root).
pub open spec fn all_siblings(cs: Seq<LocationView>) -> bool {
    forall|i: int| 0 <= i < cs.len() ==> #[trigger] cs[i].sibling_of(cs[0])
}

/// The entries of `us` that are not a root, in order.
pub open spec fn non_roots(us: Seq<LocationView>) -> Seq<LocationView>
    decreases us.len(),
{
    if us.len() == 0 {
        us
    } else if us.last().is_root() {
        non_roots(us.drop_last())
    } else {
        non_roots(us.drop_last()).push(us.last())
    }
}

/// `x` stands in one of the groups.
pub open spec fn grouped(gs: Seq<Vec<Location>>, x: LocationView) -> bool {
    exists|g: int, j: int| 0 <= g < gs.len() && 0 <= j < gs[g].len() && (#[trigger] gs[g]@[j])@ == x
}

/// Whether a single `add` of `u` selects it.
pub open spec fn add_accepts(ms: Seq<LocationView>, u: LocationView) -> bool {
    !ms.contains(u) && desc_count(ms, u) == 0 && !under_member(ms, u)
}

/// The members after a single `add` of `u`.
pub open spec fn after_add(ms: Seq<LocationView>, u: LocationView) -> Seq<LocationView> {
    if add_accepts(ms, u) {
        ms.push(u)
    } else {
        ms
    }
}

/// The abstract state of a selection set.
pub struct SelectedView {
    /// The selected locations in insertion order.
    pub members: Seq<LocationView>,
    /// For every ancestor of a selected location, how many selected
    /// locations lie below it.
    pub counts: Map<LocationView, nat>,
}

impl SelectedView {
    /// No two members are in an ancestor/descendant relation, and none is
    /// listed twice.
    pub open spec fn exclusive(self) -> bool {
        &&& self.members.no_duplicates()
        &&& forall|i: int, j: int|
            0 <= i < self.members.len() && 0 <= j < self.members.len() ==> !(
            #[trigger] self.members[i]).is_ancestor_of(#[trigger] self.members[j])
    }

    /// The count map holds exactly the ancestors of members, each with the
    /// number of members below it.
    pub open spec fn counts_exact(self) -> bool {
        forall|a: LocationView|
            #![trigger self.counts.contains_key(a)]
            #![trigger desc_count(self.members, a)]
            (self.counts.contains_key(a) <==> desc_count(self.members, a) > 0) && (
            self.counts.contains_key(a) ==> self.counts[a] == desc_count(self.members, a))
    }

    pub open spec fn invariants_hold(self) -> bool {
        self.exclusive() && self.counts_exact()
    }
}

/// The locations marked for action in one view.
pub struct Selected {
    inner: Vec<Location>,
    parents: Vec<(Location, usize)>,
    counts: Ghost<Map<LocationView, nat>>,
}

impl Default for Selected {
    fn default() -> (r: Selected)
        ensures
            r.well_formed(),
            r@.members.len() == 0,
            r@.counts.is_empty(),
    {
        Selected::new()
    }
}

impl View for Selected {
    type V = SelectedView;

    closed spec fn view(&self) -> SelectedView {
        SelectedView { members: self.inner@.map_values(|l: Location| l@), counts: self.counts@ }
    }
}

proof fn lemma_desc_count_push(ms: Seq<LocationView>, x: LocationView, a: LocationView)
    ensures
        desc_count(ms.push(x), a) == desc_count(ms, a) + if a.is_ancestor_of(x) {
            1nat
        } else {
            0nat
        },
{
    assert(ms.push(x).drop_last() =~= ms);
}

proof fn lemma_desc_count_bound(ms: Seq<LocationView>, a: LocationView)
    ensures
        desc_count(ms, a) <= ms.len(),
    decreases ms.len(),
{
    if ms.len() > 0 {
        lemma_desc_count_bound(ms.drop_last(), a);
    }
}

/// `desc_count` is positive exactly when some member lies below `a`.
proof fn lemma_desc_count_pos(ms: Seq<LocationView>, a: LocationView)
    ensures
        desc_count(ms, a) > 0 <==> exists|i: int|
            0 <= i < ms.len() && a.is_ancestor_of(#[trigger] ms[i]),
    decreases ms.len(),
{
    if ms.len() > 0 {
        let d = ms.drop_last();
        lemma_desc_count_pos(d, a);
        if exists|i: int| 0 <= i < ms.len() && a.is_ancestor_of(#[trigger] ms[i]) {
            let i = choose|i: int| 0 <= i < ms.len() && a.is_ancestor_of(#[trigger] ms[i]);
            if i < ms.len() - 1 {
                assert(d[i] == ms[i]);
            }
        }
        if exists|i: int| 0 <= i < d.len() && a.is_ancestor_of(#[trigger] d[i]) {
            let i = choose|i: int| 0 <= i < d.len() && a.is_ancestor_of(#[trigger] d[i]);
            assert(ms[i] == d[i]);
        }
    }
}

proof fn lemma_not_above(ms: Seq<LocationView>, cs: Seq<LocationView>)
    ensures
        forall|x: LocationView| #[trigger]
            not_above(ms, cs).contains(x) <==> (cs.contains(x) && desc_count(ms, x) == 0),
    decreases cs.len(),
{
    if cs.len() > 0 {
        let d = cs.drop_last();
        lemma_not_above(ms, d);
        let n = not_above(ms, d);
        assert forall|x: LocationView| #[trigger]
            not_above(ms, cs).contains(x) <==> (cs.contains(x) && desc_count(ms, x) == 0) by {
            if cs.contains(x) {
                let i = choose|i: int| 0 <= i < cs.len() && cs[i] == x;
                if i < cs.len() - 1 {
                    assert(d[i] == x);
                }
            }
            if d.contains(x) {
                let i = choose|i: int| 0 <= i < d.len() && d[i] == x;
                assert(cs[i] == x);
            }
            if desc_count(ms, cs.last()) == 0 {
                assert(n.push(cs.last())[n.len() as int] == cs.last());
                if n.push(cs.last()).contains(x) {
                    let i = choose|i: int| 0 <= i < n.len() + 1 && n.push(cs.last())[i] == x;
                    if i < n.len() {
                        assert(n[i] == x);
                    }
                }
                if n.contains(x) {
                    let i = choose|i: int| 0 <= i < n.len() && n[i] == x;
                    assert(n.push(cs.last())[i] == x);
                }
            }
        }
    }
}

proof fn lemma_grouped_into(before: Seq<Vec<Location>>, after: Seq<Vec<Location>>, g: int, c: Location)
    requires
        0 <= g < before.len(),
        after.len() == before.len(),
        forall|h: int| 0 <= h < before.len() && h != g ==> after[h] == before[h],
        after[g]@ == before[g]@.push(c),
    ensures
        forall|x: LocationView| grouped(after, x) <==> (grouped(before, x) || x == c@),
{
    assert forall|x: LocationView| grouped(after, x) <==> (grouped(before, x) || x == c@) by {
        if grouped(after, x) {
            let (h, j) = choose|h: int, j: int|
                0 <= h < after.len() && 0 <= j < after[h].len() && (#[trigger] after[h]@[j])@ == x;
            if h != g || j < before[g].len() {
                assert(before[h]@[j] == after[h]@[j]);
            }
        }
        if grouped(before, x) {
            let (h, j) = choose|h: int, j: int|
                0 <= h < before.len() && 0 <= j < before[h].len() && (#[trigger] before[h]@[j])@ == x;
            assert(after[h]@[j] == before[h]@[j]);
        }
        if x == c@ {
            assert(after[g]@[before[g].len() as int]@ == x);
        }
    }
}

proof fn lemma_grouped_new(before: Seq<Vec<Location>>, after: Seq<Vec<Location>>, c: Location)
    requires
        after.len() == before.len() + 1,
        forall|h: int| 0 <= h < before.len() ==> after[h] == before[h],
        after[before.len() as int]@ == seq![c],
    ensures
        forall|x: LocationView| grouped(after, x) <==> (grouped(before, x) || x == c@),
{
    assert forall|x: LocationView| grouped(after, x) <==> (grouped(before, x) || x == c@) by {
        if grouped(after, x) {
            let (h, j) = choose|h: int, j: int|
                0 <= h < after.len() && 0 <= j < after[h].len() && (#[trigger] after[h]@[j])@ == x;
            if h < before.len() {
                assert(before[h]@[j] == after[h]@[j]);
            }
        }
        if grouped(before, x) {
            let (h, j) = choose|h: int, j: int|
                0 <= h < before.len() && 0 <= j < before[h].len() && (#[trigger] before[h]@[j])@ == x;
            assert(after[h]@[j] == before[h]@[j]);
        }
        if x == c@ {
            assert(after[before.len() as int]@[0]@ == x);
        }
    }
}

proof fn lemma_prefix_step(us: Seq<LocationView>, i: int)
    requires
        0 <= i < us.len(),
    ensures
        forall|x: LocationView|
            #![trigger us.subrange(0, i + 1).contains(x)]
            us.subrange(0, i + 1).contains(x) <==> (us.subrange(0, i).contains(x) || x == us[i]),
{
    let s1 = us.subrange(0, i + 1);
    let s0 = us.subrange(0, i);
    assert forall|x: LocationView| s1.contains(x) <==> (s0.contains(x) || x == us[i]) by {
        if s1.contains(x) {
            let w = choose|w: int| 0 <= w < s1.len() && s1[w] == x;
            if w < i {
                assert(s0[w] == x);
            }
        }
        if s0.contains(x) {
            let w = choose|w: int| 0 <= w < s0.len() && s0[w] == x;
            assert(s1[w] == x);
        }
        assert(s1[i] == us[i]);
    }
}

proof fn lemma_keep_single(ms: Seq<LocationView>, u: LocationView)
    requires
        ms.no_duplicates(),
    ensures
        keep_unlisted(ms, seq![u]).len() == ms.len() - if ms.contains(u) {
            1int
        } else {
            0int
        },
    decreases ms.len(),
{
    if ms.len() > 0 {
        let d = ms.drop_last();
        assert(d.no_duplicates());
        lemma_keep_single(d, u);
        assert(seq![u].contains(ms.last()) <==> ms.last() == u) by {
            if ms.last() == u {
                assert(seq![u][0] == u);
            }
        }
        if ms.contains(u) {
            let i = choose|i: int| 0 <= i < ms.len() && ms[i] == u;
            if i < ms.len() - 1 {
                assert(d[i] == u);
                assert(ms.last() != u);
            }
        }
        if d.contains(u) {
            let i = choose|i: int| 0 <= i < d.len() && d[i] == u;
            assert(ms[i] == u);
        }
    }
}

proof fn lemma_first_sibling(gs: Seq<Seq<LocationView>>, u: LocationView)
    requires
        forall|h: int| 0 <= h < gs.len() ==> (#[trigger] gs[h]).len() > 0,
    ensures
        -1 <= first_sibling_group(gs, u) < gs.len(),
        first_sibling_group(gs, u) >= 0 ==> u.sibling_of(gs[first_sibling_group(gs, u)][0]),
        forall|h: int|
            0 <= h < gs.len() && (first_sibling_group(gs, u) < 0 || h < first_sibling_group(gs, u))
                ==> !u.sibling_of((#[trigger] gs[h])[0]),
    decreases gs.len(),
{
    if gs.len() > 0 {
        let d = gs.drop_last();
        assert forall|h: int| 0 <= h < d.len() implies (#[trigger] d[h]).len() > 0 by {
            assert(d[h] == gs[h]);
        }
        lemma_first_sibling(d, u);
        assert forall|h: int|
            0 <= h < gs.len() && (first_sibling_group(gs, u) < 0 || h < first_sibling_group(gs, u))
                implies !u.sibling_of((#[trigger] gs[h])[0]) by {
            if h < d.len() {
                assert(d[h] == gs[h]);
            }
        }
        if first_sibling_group(d, u) >= 0 {
            assert(d[first_sibling_group(d, u)] == gs[first_sibling_group(d, u)]);
        }
    }
}

proof fn lemma_sibling_refl(u: LocationView)
    ensures
        u.sibling_of(u),
{
}

proof fn lemma_keep_none(ms: Seq<LocationView>, us: Seq<LocationView>)
    requires
        us.len() == 0,
    ensures
        keep_unlisted(ms, us) == ms,
    decreases ms.len(),
{
    if ms.len() > 0 {
        lemma_keep_none(ms.drop_last(), us);
        assert(ms.drop_last().push(ms.last()) =~= ms);
    }
}

proof fn lemma_non_roots(us: Seq<LocationView>)
    ensures
        forall|x: LocationView| #[trigger]
            non_roots(us).contains(x) <==> (us.contains(x) && !x.is_root()),
    decreases us.len(),
{
    if us.len() > 0 {
        let d = us.drop_last();
        lemma_non_roots(d);
        let n = non_roots(d);
        assert forall|x: LocationView| #[trigger]
            non_roots(us).contains(x) <==> (us.contains(x) && !x.is_root()) by {
            if us.contains(x) {
                let i = choose|i: int| 0 <= i < us.len() && us[i] == x;
                if i < us.len() - 1 {
                    assert(d[i] == x);
                }
            }
            if d.contains(x) {
                let i = choose|i: int| 0 <= i < d.len() && d[i] == x;
                assert(us[i] == x);
            }
            if !us.last().is_root() {
                assert(n.push(us.last())[n.len() as int] == us.last());
                if n.push(us.last()).contains(x) {
                    let i = choose|i: int| 0 <= i < n.len() + 1 && n.push(us.last())[i] == x;
                    if i < n.len() {
                        assert(n[i] == x);
                    }
                }
                if n.contains(x) {
                    let i = choose|i: int| 0 <= i < n.len() && n[i] == x;
                    assert(n.push(us.last())[i] == x);
                }
            }
        }
    }
}

/// Dropping what `a` lists, then what `b` lists, drops what either lists.
proof fn lemma_keep_twice(ms: Seq<LocationView>, a: Seq<LocationView>, b: Seq<LocationView>)
    ensures
        keep_unlisted(keep_unlisted(ms, a), b) == keep_unlisted(ms, a + b),
    decreases ms.len(),
{
    if ms.len() > 0 {
        lemma_keep_twice(ms.drop_last(), a, b);
        let l = ms.last();
        lemma_concat_contains(a, b, l);
        let k = keep_unlisted(ms.drop_last(), a);
        if !a.contains(l) {
            assert(k.push(l).drop_last() =~= k);
        }
    }
}

/// Which entries are dropped depends only on what is listed.
proof fn lemma_keep_same_list(ms: Seq<LocationView>, a: Seq<LocationView>, b: Seq<LocationView>)
    requires
        forall|x: LocationView| a.contains(x) <==> b.contains(x),
    ensures
        keep_unlisted(ms, a) == keep_unlisted(ms, b),
    decreases ms.len(),
{
    if ms.len() > 0 {
        lemma_keep_same_list(ms.drop_last(), a, b);
    }
}

proof fn lemma_concat_contains(a: Seq<LocationView>, b: Seq<LocationView>, x: LocationView)
    ensures
        (a + b).contains(x) <==> (a.contains(x) || b.contains(x)),
{
    if a.contains(x) {
        let i = choose|i: int| 0 <= i < a.len() && a[i] == x;
        assert((a + b)[i] == x);
    }
    if b.contains(x) {
        let i = choose|i: int| 0 <= i < b.len() && b[i] == x;
        assert((a + b)[a.len() + i] == x);
    }
    if (a + b).contains(x) {
        let i = choose|i: int| 0 <= i < (a + b).len() && (a + b)[i] == x;
        if i < a.len() {
            assert(a[i] == x);
        } else {
            assert(b[i - a.len()] == x);
        }
    }
}

/// Appending keeps what was there and adds only candidates.
proof fn lemma_extend_unique(ms: Seq<LocationView>, cs: Seq<LocationView>)
    ensures
        extend_unique(ms, cs).len() >= ms.len(),
        forall|i: int| 0 <= i < ms.len() ==> #[trigger] extend_unique(ms, cs)[i] == ms[i],
        forall|i: int|
            ms.len() <= i < extend_unique(ms, cs).len() ==> cs.contains(
                #[trigger] extend_unique(ms, cs)[i],
            ),
    decreases cs.len(),
{
    if cs.len() > 0 {
        let d = cs.drop_last();
        lemma_extend_unique(ms, d);
        let e = extend_unique(ms, d);
        assert forall|i: int|
            ms.len() <= i < extend_unique(ms, cs).len() implies cs.contains(
            #[trigger] extend_unique(ms, cs)[i],
        ) by {
            if i < e.len() {
                assert(extend_unique(ms, cs)[i] == e[i]);
                let w = choose|w: int| 0 <= w < d.len() && d[w] == e[i];
                assert(cs[w] == e[i]);
            } else {
                assert(cs[cs.len() - 1] == cs.last());
            }
        }
    }
}

/// Once settled, a location stays settled while the members only grow.
proof fn lemma_settled_grow(ms: Seq<LocationView>, ns: Seq<LocationView>, u: LocationView)
    requires
        settled(ms, u),
        ns.len() >= ms.len(),
        forall|i: int| 0 <= i < ms.len() ==> ns[i] == ms[i],
    ensures
        settled(ns, u),
{
    if ms.contains(u) {
        let i = choose|i: int| 0 <= i < ms.len() && ms[i] == u;
        assert(ns[i] == u);
    } else {
        let i = choose|i: int| 0 <= i < ms.len() && (#[trigger] ms[i]).related(u);
        assert(ns[i] == ms[i]);
    }
}

/// Every reachable selection satisfies both invariants: no member lies above
/// another, and the ancestor counts are exact.
pub proof fn law_invariants(s: &Selected)
    requires
        s.well_formed(),
    ensures
        s@.invariants_hold(),
{
}

/// Adding a location a second time right after adding it is refused and
/// leaves the members as they were.
pub proof fn law_add_twice(ms: Seq<LocationView>, u: LocationView)
    ensures
        !add_accepts(after_add(ms, u), u),
        after_add(after_add(ms, u), u) == after_add(ms, u),
{
    if add_accepts(ms, u) {
        assert(ms.push(u)[ms.len() as int] == u);
    }
}

/// A batch that holds a location lying under a selected location is refused
/// as a whole: `add_same` takes its rejecting branch, adding nothing.
pub proof fn law_batch_under_selected(v: SelectedView, us: Seq<LocationView>, i: int)
    requires
        all_siblings(us),
        0 <= i < us.len(),
        under_member(v.members, us[i]),
    ensures
        ({
            let cs = not_above(v.members, us);
            cs.len() == 0 || under_member(v.members, cs[0])
        }),
{
    let ms = v.members;
    let cs = not_above(ms, us);
    lemma_not_above(ms, us);
    if cs.len() > 0 {
        assert(cs.contains(cs[0]));
        let w = choose|w: int| 0 <= w < us.len() && us[w] == cs[0];
        let m = choose|m: int| 0 <= m < ms.len() && #[trigger] ms[m].is_ancestor_of(us[i]);
        lemma_sibling_facts(us[i], us[0], ms[m]);
        lemma_sibling_facts(us[w], us[0], ms[m]);
        assert(ms[m].is_ancestor_of(cs[0]));
    }
}

/// Selecting a batch into an empty selection and then deselecting the same
/// batch leaves no member and no counted ancestor.
pub proof fn law_add_remove_cycle(us: Seq<LocationView>, after: SelectedView)
    requires
        after.invariants_hold(),
        after.members == keep_unlisted(
            extend_unique(Seq::empty(), not_above(Seq::empty(), us)),
            us,
        ),
    ensures
        after.members.len() == 0,
        after.counts.dom() =~= Set::empty(),
{
    let e = Seq::<LocationView>::empty();
    let cs = not_above(e, us);
    lemma_not_above(e, us);
    lemma_extend_unique(e, cs);
    let added = extend_unique(e, cs);
    assert forall|i: int| 0 <= i < added.len() implies us.contains(#[trigger] added[i]) by {
        assert(cs.contains(added[i]));
    }
    lemma_keep_listed(added, us);
    assert forall|a: LocationView| !after.counts.contains_key(a) by {
        assert(desc_count(after.members, a) == 0);
    }
}

proof fn lemma_keep_listed(ms: Seq<LocationView>, us: Seq<LocationView>)
    requires
        forall|i: int| 0 <= i < ms.len() ==> us.contains(#[trigger] ms[i]),
    ensures
        keep_unlisted(ms, us).len() == 0,
    decreases ms.len(),
{
    if ms.len() > 0 {
        let d = ms.drop_last();
        assert forall|i: int| 0 <= i < d.len() implies us.contains(#[trigger] d[i]) by {
            assert(d[i] == ms[i]);
        }
        lemma_keep_listed(d, us);
        assert(us.contains(ms[ms.len() - 1]));
    }
}

impl Selected {
    closed spec fn wf(&self) -> bool {
        self@.invariants_hold() && self.parents_match()
    }

    closed spec fn parents_match(&self) -> bool {
        &&& forall|j: int, k: int|
            0 <= j < self.parents.len() && 0 <= k < self.parents.len() && (#[trigger] self.parents@[j]).0@
                == (#[trigger] self.parents@[k]).0@ ==> j == k
        &&& forall|j: int|
            0 <= j < self.parents.len() ==> {
                &&& self.counts@.contains_key(#[trigger] self.parents@[j].0@)
                &&& self.counts@[self.parents@[j].0@] == self.parents@[j].1
            }
        &&& forall|a: LocationView|
            #![trigger self.counts@.contains_key(a)]
            self.counts@.contains_key(a) ==> exists|j: int|
                0 <= j < self.parents.len() && #[trigger] self.parents@[j].0@ == a
    }

    /// Well-formedness: both invariants hold and the stored counts agree with
    /// the abstract map.
    pub closed spec fn well_formed(&self) -> bool {
        self.wf()
    }

    /// An empty selection.
    pub fn new() -> (r: Selected)
        ensures
            r.well_formed(),
            r@.members.len() == 0,
            r@.counts.is_empty(),
    {
        let r = Selected { inner: Vec::new(), parents: Vec::new(), counts: Ghost(Map::empty()) };
        assert(r@.members =~= Seq::<LocationView>::empty());
        assert(r@.counts_exact()) by {
            assert forall|a: LocationView| desc_count(r@.members, a) == 0 by {}
        }
        r
    }

    pub fn len(&self) -> (r: usize)
        ensures
            r == self@.members.len(),
    {
        self.inner.len()
    }

    pub fn is_empty(&self) -> (r: bool)
        ensures
            r == (self@.members.len() == 0),
    {
        self.inner.len() == 0
    }

    /// The number of locations that have a selected location below them.
    pub fn ancestors_len(&self) -> (r: usize)
        requires
            self.well_formed(),
        ensures
            r == self@.counts.dom().len(),
    {
        proof {
            let keys = self.parents@.map_values(|e: (Location, usize)| e.0@);
            assert(keys.no_duplicates()) by {
                assert forall|j: int, k: int| 0 <= j < keys.len() && 0 <= k < keys.len() && j != k
                    implies keys[j] != keys[k] by {
                    if keys[j] == keys[k] {
                        assert(self.parents@[j].0@ == self.parents@[k].0@);
                    }
                }
            }
            keys.unique_seq_to_set();
            assert forall|a: LocationView| keys.to_set().contains(a) <==> self.counts@.contains_key(a) by {
                if self.counts@.contains_key(a) {
                    let j = choose|j: int| 0 <= j < self.parents.len() && #[trigger] self.parents@[j].0@ == a;
                    assert(keys[j] == a);
                }
                if keys.to_set().contains(a) {
                    let j = choose|j: int| 0 <= j < keys.len() && keys[j] == a;
                    assert(self.parents@[j].0@ == a);
                }
            }
            assert(keys.to_set() =~= self.counts@.dom());
        }
        self.parents.len()
    }

    /// The selected locations in insertion order.
    pub fn values(&self) -> (r: &Vec<Location>)
        ensures
            r@.map_values(|l: Location| l@) == self@.members,
    {
        &self.inner
    }

    pub fn contains(&self, url: &Location) -> (r: bool)
        ensures
            r == self@.members.contains(url@),
    {
        let mut i: usize = 0;
        while i < self.inner.len()
            invariant
                i <= self.inner.len(),
                forall|j: int| 0 <= j < i ==> self@.members[j] != url@,
            decreases self.inner.len() - i,
        {
            if self.inner[i].same(url) {
                assert(self@.members[i as int] == url@);
                return true;
            }
            i += 1;
        }
        false
    }

    /// Where `url` stands among the stored ancestors.
    fn find_parent(&self, url: &Location) -> (r: Option<usize>)
        requires
            self.parents_match(),
        ensures
            r matches Some(j) ==> j < self.parents.len() && self.parents@[j as int].0@ == url@,
            r is None ==> !self.counts@.contains_key(url@),
    {
        let mut j: usize = 0;
        while j < self.parents.len()
            invariant
                j <= self.parents.len(),
                forall|k: int| 0 <= k < j ==> self.parents@[k].0@ != url@,
            decreases self.parents.len() - j,
        {
            if self.parents[j].0.same(url) {
                return Some(j);
            }
            j += 1;
        }
        None
    }

    /// Walks up from `c`: `None` when a member lies above it, otherwise every
    /// location above it, nearest first.
    fn unselected_ancestors(&self, c: &Location) -> (r: Option<Vec<Location>>)
        ensures
            r is None <==> under_member(self@.members, c@),
            r matches Some(ch) ==> {
                &&& ch.len() == c@.comps.len()
                &&& forall|k: int|
                    0 <= k < ch.len() ==> (#[trigger] ch@[k])@.is_ancestor_of(c@)
                        && ch@[k]@.comps.len() == c@.comps.len() - 1 - k
            },
    {
        let ghost ms = self@.members;
        let mut chain: Vec<Location> = Vec::new();
        let mut cur = c.duplicate();
        while !cur.is_root()
            invariant
                ms == self@.members,
                cur@ == c@ || cur@.is_ancestor_of(c@),
                chain.len() == c@.comps.len() - cur@.comps.len(),
                forall|k: int|
                    0 <= k < chain.len() ==> (#[trigger] chain@[k])@.is_ancestor_of(c@)
                        && chain@[k]@.comps.len() == c@.comps.len() - 1 - k
                        && !ms.contains(chain@[k]@),
            decreases cur@.comps.len(),
        {
            let p = match cur.parent_url() {
                Some(p) => p,
                None => {
                    return None;
                },
            };
            proof {
                lemma_parent_chain(p@, cur@);
                if cur@ != c@ {
                    lemma_ancestor_transitive(p@, cur@, c@);
                }
            }
            if self.contains(&p) {
                proof {
                    let i = choose|i: int| 0 <= i < ms.len() && ms[i] == p@;
                    assert(ms[i].is_ancestor_of(c@));
                }
                return None;
            }
            chain.push(p.duplicate());
            cur = p;
        }
        proof {
            if under_member(ms, c@) {
                let i = choose|i: int| 0 <= i < ms.len() && #[trigger] ms[i].is_ancestor_of(c@);
                let k = c@.comps.len() - 1 - ms[i].comps.len();
                lemma_ancestor_at_depth(chain@[k]@, ms[i], c@);
                assert(ms.contains(chain@[k]@));
            }
        }
        Some(chain)
    }

    /// Adds a batch of locations that share one immediate parent. Candidates
    /// that lie above a selected location are dropped; the rest are rejected
    /// together when a selected location lies above them. Otherwise each is
    /// appended unless already selected, and the number of candidates left
    /// after the first step is returned.
    pub fn add_same(&mut self, urls: &[Location]) -> (r: usize)
        requires
            old(self).well_formed(),
            all_siblings(views(urls@)),
        ensures
            final(self).well_formed(),
            ({
                let ms = old(self)@.members;
                let cs = not_above(ms, views(urls@));
                if cs.len() == 0 || under_member(ms, cs[0]) {
                    r == 0 && final(self)@ == old(self)@
                } else {
                    r == cs.len() && final(self)@.members == extend_unique(ms, cs)
                }
            }),
            forall|i: int|
                0 <= i < urls.len() ==> settled(final(self)@.members, #[trigger] urls@[i]@),
            final(self)@.members == after_add_same(old(self)@.members, views(urls@)),
    {
        let ghost us = views(urls@);
        let ghost ms = self@.members;
        proof {
            lemma_not_above(ms, us);
        }
        let mut cands: Vec<Location> = Vec::new();
        let mut i: usize = 0;
        while i < urls.len()
            invariant
                self.wf(),
                ms == self@.members,
                us == views(urls@),
                i <= urls.len(),
                views(cands@) == not_above(ms, us.subrange(0, i as int)),
            decreases urls.len() - i,
        {
            proof {
                assert(us.subrange(0, i + 1).drop_last() =~= us.subrange(0, i as int));
            }
            if self.find_parent(&urls[i]).is_none() {
                proof {
                    lemma_desc_count_pos(ms, urls@[i as int]@);
                }
                cands.push(urls[i].duplicate());
                assert(views(cands@) =~= not_above(ms, us.subrange(0, i as int)).push(
                    urls@[i as int]@,
                ));
            } else {
                proof {
                    lemma_desc_count_pos(ms, urls@[i as int]@);
                }
            }
            i += 1;
        }
        assert(us.subrange(0, urls.len() as int) =~= us);
        let ghost cs = views(cands@);
        assert forall|k: int| 0 <= k < cs.len() implies (#[trigger] cs[k]).sibling_of(us[0])
            && desc_count(ms, cs[k]) == 0 by {
            assert(not_above(ms, us).contains(cs[k]));
        }
        proof {
            assert forall|k: int| 0 <= k < urls.len() implies settled(
                ms,
                #[trigger] urls@[k]@,
            ) || cs.contains(urls@[k]@) by {
                assert(us[k] == urls@[k]@);
                lemma_desc_count_pos(ms, us[k]);
                if desc_count(ms, us[k]) > 0 {
                    let j = choose|j: int| 0 <= j < ms.len() && us[k].is_ancestor_of(#[trigger] ms[j]);
                    assert(ms[j].related(us[k]));
                } else {
                    assert(us.contains(us[k]));
                }
            }
        }
        if cands.len() == 0 {
            return 0;
        }
        let ghost c0 = cs[0];
        let chain = match self.unselected_ancestors(&cands[0]) {
            Some(ch) => ch,
            None => {
                proof {
                    let m = choose|m: int| 0 <= m < ms.len() && #[trigger] ms[m].is_ancestor_of(c0);
                    assert forall|k: int| 0 <= k < urls.len() implies settled(
                        ms,
                        #[trigger] urls@[k]@,
                    ) by {
                        if cs.contains(urls@[k]@) {
                            assert(us[k] == urls@[k]@);
                            lemma_sibling_facts(c0, us[0], ms[m]);
                            lemma_sibling_facts(us[k], us[0], ms[m]);
                            assert(ms[m].related(urls@[k]@));
                        }
                    }
                }
                return 0;
            },
        };
        // Append the candidates.
        let before = self.inner.len();
        let ghost parents0 = self.parents@;
        let ghost counts0 = self.counts@;
        let mut i: usize = 0;
        while i < cands.len()
            invariant
                ms == old(self)@.members,
                cs == views(cands@),
                c0 == cs[0],
                cs.len() > 0,
                forall|k: int|
                    0 <= k < cs.len() ==> (#[trigger] cs[k]).sibling_of(us[0]) && desc_count(
                        ms,
                        cs[k],
                    ) == 0,
                us.len() > 0,
                c0.sibling_of(us[0]),
                !under_member(ms, c0),
                old(self)@.exclusive(),
                i <= cands.len(),
                before == ms.len(),
                self.parents@ == parents0,
                self.counts@ == counts0,
                self@.members == extend_unique(ms, cs.subrange(0, i as int)),
                self@.members.len() >= ms.len(),
                forall|k: int| 0 <= k < ms.len() ==> self@.members[k] == ms[k],
                forall|k: int|
                    ms.len() <= k < self@.members.len() ==> (#[trigger] self@.members[k]).sibling_of(
                        c0,
                    ),
                forall|k: int| 0 <= k < i ==> self@.members.contains(#[trigger] cs[k]),
                self@.exclusive(),
                forall|a: LocationView| #[trigger]
                    desc_count(self@.members, a) == desc_count(ms, a) + if a.is_ancestor_of(c0) {
                        (self@.members.len() - ms.len()) as nat
                    } else {
                        0nat
                    },
            decreases cands.len() - i,
        {
            proof {
                assert(cs.subrange(0, i + 1).drop_last() =~= cs.subrange(0, i as int));
            }
            let ghost cur = self@.members;
            if !self.contains(&cands[i]) {
                let c = cands[i].duplicate();
                self.inner.push(c);
                proof {
                    let ci = cs[i as int];
                    let nm = self@.members;
                    assert(nm =~= cur.push(ci));
                    lemma_sibling_facts(ci, us[0], c0);
                    lemma_sibling_facts(c0, us[0], c0);
                    assert forall|a: LocationView| #[trigger]
                        desc_count(nm, a) == desc_count(ms, a) + if a.is_ancestor_of(c0) {
                            (nm.len() - ms.len()) as nat
                        } else {
                            0nat
                        } by {
                        lemma_desc_count_push(cur, ci, a);
                        lemma_sibling_facts(ci, us[0], a);
                        lemma_sibling_facts(c0, us[0], a);
                    }
                    assert forall|p: int, q: int|
                        0 <= p < nm.len() && 0 <= q < nm.len() implies !(
                        #[trigger] nm[p]).is_ancestor_of(#[trigger] nm[q]) by {
                        lemma_sibling_facts(ci, us[0], ci);
                        lemma_sibling_facts(c0, us[0], c0);
                        if p < cur.len() && q < cur.len() {
                            assert(nm[p] == cur[p] && nm[q] == cur[q]);
                        } else if p == cur.len() && q == cur.len() {
                        } else if p == cur.len() && q < ms.len() {
                            assert(nm[q] == ms[q]);
                            lemma_desc_count_pos(ms, ci);
                        } else if q == cur.len() && p < ms.len() {
                            assert(nm[p] == ms[p]);
                            lemma_sibling_facts(ci, us[0], ms[p]);
                            lemma_sibling_facts(c0, us[0], ms[p]);
                            assert(!ms[p].is_ancestor_of(c0));
                        } else if p == cur.len() {
                            assert(nm[q] == cur[q]);
                            lemma_sibling_facts(cur[q], c0, cur[q]);
                        } else {
                            assert(nm[p] == cur[p]);
                            lemma_sibling_facts(cur[p], c0, cur[p]);
                        }
                    }
                    assert(nm.no_duplicates());
                    assert(nm[cur.len() as int] == ci);
                    assert forall|k: int| 0 <= k < i + 1 implies nm.contains(#[trigger] cs[k]) by {
                        if k < i {
                            let w = choose|w: int| 0 <= w < cur.len() && cur[w] == cs[k];
                            assert(nm[w] == cs[k]);
                        }
                    }
                }
            }
            i += 1;
        }
        assert(cs.subrange(0, cands.len() as int) =~= cs);
        let added = self.inner.len() - before;
        let ghost nms = self@.members;
        proof {
            assert forall|k: int| 0 <= k < urls.len() implies settled(
                nms,
                #[trigger] urls@[k]@,
            ) by {
                if !cs.contains(urls@[k]@) {
                    if ms.contains(urls@[k]@) {
                        let w = choose|w: int| 0 <= w < ms.len() && ms[w] == urls@[k]@;
                        assert(nms[w] == ms[w]);
                    } else {
                        let w = choose|w: int| 0 <= w < ms.len() && (#[trigger] ms[w]).related(urls@[k]@);
                        assert(nms[w] == ms[w]);
                    }
                } else {
                    let w = choose|w: int| 0 <= w < cs.len() && cs[w] == urls@[k]@;
                    assert(nms.contains(cs[w]));
                }
            }
        }
        if added == 0 {
            proof {
                assert(nms =~= ms);
            }
            return cands.len();
        }
        // Count the new members for every location above them.
        let mut k: usize = 0;
        while k < chain.len()
            invariant
                nms == self@.members,
                ms == old(self)@.members,
                cs == views(cands@),
                cs.len() > 0,
                c0 == cs[0],
                self@.exclusive(),
                added == nms.len() - ms.len(),
                added > 0,
                old(self)@.counts_exact(),
                old(self)@.counts == counts0,
                self.parents_match(),
                chain.len() == c0.comps.len(),
                forall|q: int|
                    0 <= q < chain.len() ==> (#[trigger] chain@[q])@.is_ancestor_of(c0)
                        && chain@[q]@.comps.len() == c0.comps.len() - 1 - q,
                k <= chain.len(),
                forall|a: LocationView| #[trigger]
                    desc_count(nms, a) == desc_count(ms, a) + if a.is_ancestor_of(c0) {
                        added as nat
                    } else {
                        0nat
                    },
                forall|a: LocationView|
                    #![trigger self.counts@.contains_key(a)]
                    {
                        let target = if a.is_ancestor_of(c0) && a.comps.len() >= c0.comps.len()
                            - k {
                            desc_count(nms, a)
                        } else {
                            desc_count(ms, a)
                        };
                        (self.counts@.contains_key(a) <==> target > 0) && (
                        self.counts@.contains_key(a) ==> self.counts@[a] == target)
                    },
            decreases chain.len() - k,
        {
            let ghost a = chain@[k as int]@;
            let ghost ps = self.parents@;
            let ghost cts = self.counts@;
            let ghost mut ja: int = 0;
            proof {
                lemma_desc_count_bound(nms, a);
                assert(nms.len() == self.inner.len());
                assert(old(self)@.counts.contains_key(a) <==> desc_count(ms, a) > 0);
            }
            match self.find_parent(&chain[k]) {
                Some(j) => {
                    let n = self.parents[j].1 + added;
                    self.parents[j].1 = n;
                    proof {
                        ja = j as int;
                    }
                    self.counts = Ghost(self.counts@.insert(a, n as nat));
                    proof {
                        assert(self.parents@[j as int].0 == ps[j as int].0);
                        assert(self.parents.len() == ps.len());
                        assert forall|q: int| 0 <= q < ps.len() && q != j implies self.parents@[q]
                            == ps[q] && ps[q].0@ != a by {
                            assert(ps[j as int].0@ == a);
                        }
                    }
                },
                None => {
                    let loc = chain[k].duplicate();
                    self.parents.push((loc, added));
                    proof {
                        ja = ps.len() as int;
                    }
                    self.counts = Ghost(self.counts@.insert(a, added as nat));
                    proof {
                        assert forall|q: int| 0 <= q < ps.len() implies self.parents@[q] == ps[q]
                            && ps[q].0@ != a by {
                            assert(cts.contains_key(ps[q].0@));
                        }
                    }
                },
            }
            proof {
                assert(forall|j: int, q: int|
                    0 <= j < self.parents.len() && 0 <= q < self.parents.len() && (#[trigger] self.parents@[j]).0@
                        == (#[trigger] self.parents@[q]).0@ ==> j == q);
                assert(forall|j: int|
                    0 <= j < self.parents.len() ==> {
                        &&& self.counts@.contains_key(#[trigger] self.parents@[j].0@)
                        &&& self.counts@[self.parents@[j].0@] == self.parents@[j].1
                    });
                assert forall|b: LocationView|
                    #![trigger self.counts@.contains_key(b)]
                    self.counts@.contains_key(b) implies exists|j: int|
                        0 <= j < self.parents.len() && #[trigger] self.parents@[j].0@ == b by {
                    if b == a {
                        assert(self.parents@[ja].0@ == b);
                    } else {
                        assert(cts.contains_key(b));
                        let j = choose|j: int| 0 <= j < ps.len() && #[trigger] ps[j].0@ == b;
                        assert(self.parents@[j].0@ == b);
                    }
                }
                assert forall|b: LocationView|
                    b.is_ancestor_of(c0) && b.comps.len() >= c0.comps.len() - (k + 1)
                        implies b.comps.len() >= c0.comps.len() - k || b == a by {
                    if b.comps.len() == c0.comps.len() - (k + 1) {
                        lemma_ancestor_at_depth(a, b, c0);
                    }
                }
            }
            k += 1;
        }
        proof {
            assert forall|a: LocationView|
                #![trigger self.counts@.contains_key(a)]
                #![trigger desc_count(self@.members, a)]
                (self.counts@.contains_key(a) <==> desc_count(self@.members, a) > 0) && (
                self.counts@.contains_key(a) ==> self.counts@[a] == desc_count(self@.members, a)) by {
            }
        }
        cands.len()
    }

    /// Every location above `c`, nearest first.
    fn all_ancestors(c: &Location) -> (r: Vec<Location>)
        ensures
            r.len() == c@.comps.len(),
            forall|k: int|
                0 <= k < r.len() ==> (#[trigger] r@[k])@.is_ancestor_of(c@) && r@[k]@.comps.len()
                    == c@.comps.len() - 1 - k,
    {
        let mut chain: Vec<Location> = Vec::new();
        let mut cur = c.duplicate();
        while !cur.is_root()
            invariant
                cur@ == c@ || cur@.is_ancestor_of(c@),
                chain.len() == c@.comps.len() - cur@.comps.len(),
                forall|k: int|
                    0 <= k < chain.len() ==> (#[trigger] chain@[k])@.is_ancestor_of(c@)
                        && chain@[k]@.comps.len() == c@.comps.len() - 1 - k,
            decreases cur@.comps.len(),
        {
            let p = match cur.parent_url() {
                Some(p) => p,
                None => {
                    return chain;
                },
            };
            proof {
                lemma_parent_chain(p@, cur@);
                if cur@ != c@ {
                    lemma_ancestor_transitive(p@, cur@, c@);
                }
            }
            chain.push(p.duplicate());
            cur = p;
        }
        chain
    }

    /// Removes a batch of locations that share one immediate parent, keeping
    /// the order of the rest, and returns how many were selected.
    pub fn remove_same(&mut self, urls: &[Location]) -> (r: usize)
        requires
            old(self).well_formed(),
            all_siblings(views(urls@)),
        ensures
            final(self).well_formed(),
            final(self)@.members == keep_unlisted(old(self)@.members, views(urls@)),
            r == old(self)@.members.len() - final(self)@.members.len(),
    {
        let ghost us = views(urls@);
        let ghost ms = self@.members;
        if urls.len() == 0 {
            proof {
                lemma_keep_none(ms, us);
            }
            return 0;
        }
        let ghost u0 = us[0];
        let mut kept: Vec<Location> = Vec::new();
        let mut i: usize = 0;
        while i < self.inner.len()
            invariant
                *self == *old(self),
                self.wf(),
                ms == self@.members,
                us == views(urls@),
                us.len() > 0,
                u0 == us[0],
                all_siblings(us),
                self@.exclusive(),
                i <= self.inner.len(),
                views(kept@) == keep_unlisted(ms.subrange(0, i as int), us),
                kept.len() <= i,
                forall|p: int|
                    0 <= p < kept.len() ==> exists|j: int|
                        0 <= j < i && ms[j] == (#[trigger] kept@[p])@,
                views(kept@).no_duplicates(),
                forall|a: LocationView| #[trigger]
                    desc_count(ms.subrange(0, i as int), a) == desc_count(views(kept@), a)
                        + if a.is_ancestor_of(u0) {
                        (i - kept.len()) as nat
                    } else {
                        0nat
                    },
            decreases self.inner.len() - i,
        {
            let ghost pre = views(kept@);
            let ghost pre_k = kept@;
            let ghost m = ms[i as int];
            let ghost lead = if m.is_ancestor_of(u0) { 1nat } else { 0nat };
            proof {

                assert(ms.subrange(0, i + 1).drop_last() =~= ms.subrange(0, i as int));
                assert(ms.subrange(0, i + 1).last() == m);
                assert forall|a: LocationView| #[trigger]
                    desc_count(ms.subrange(0, i + 1), a) == desc_count(ms.subrange(0, i as int), a)
                        + if a.is_ancestor_of(m) {
                        1nat
                    } else {
                        0nat
                    } by {
                    lemma_desc_count_push(ms.subrange(0, i as int), m, a);
                    assert(ms.subrange(0, i as int).push(m) =~= ms.subrange(0, i + 1));
                }
            }
            if !Self::listed(urls, &self.inner[i]) {
                kept.push(self.inner[i].duplicate());
                proof {
                    assert(views(kept@) =~= pre.push(m));
                    assert forall|a: LocationView| #[trigger]
                        desc_count(ms.subrange(0, i + 1), a) == desc_count(views(kept@), a)
                            + if a.is_ancestor_of(u0) {
                            (i + 1 - kept.len()) as nat
                        } else {
                            0nat
                        } by {
                        lemma_desc_count_push(pre, m, a);
                        assert(desc_count(ms.subrange(0, i as int), a) == desc_count(pre, a)
                            + if a.is_ancestor_of(u0) {
                            (i - pre.len()) as nat
                        } else {
                            0nat
                        });
                    }
                    assert forall|p: int, q: int|
                        0 <= p < kept.len() && 0 <= q < kept.len() && p != q implies views(
                        kept@,
                    )[p] != views(kept@)[q] by {
                        if p == kept.len() - 1 || q == kept.len() - 1 {
                            let o = if p == kept.len() - 1 {
                                q
                            } else {
                                p
                            };
                            assert(views(kept@)[o] == kept@[o]@);
                            let j = choose|j: int| 0 <= j < i && ms[j] == (#[trigger] kept@[o])@;
                            assert(ms[j] != ms[i as int]);
                        } else {
                            assert(views(kept@)[p] == pre[p]);
                            assert(views(kept@)[q] == pre[q]);
                        }
                    }
                    assert forall|p: int|
                        0 <= p < kept.len() implies exists|j: int|
                            0 <= j < i + 1 && ms[j] == (#[trigger] kept@[p])@ by {
                        if p == kept.len() - 1 {
                            assert(ms[i as int] == kept@[p]@);
                        } else {
                            assert(kept@[p] == pre_k[p]);
                            let j = choose|j: int| 0 <= j < i && ms[j] == (#[trigger] pre_k[p])@;
                            assert(ms[j] == kept@[p]@);
                        }
                    }
                }
            } else {
                proof {
                    let w = choose|w: int| 0 <= w < us.len() && us[w] == m;
                    lemma_sibling_facts(us[w], u0, us[w]);
                    assert forall|a: LocationView| #[trigger]
                        desc_count(ms.subrange(0, i + 1), a) == desc_count(views(kept@), a)
                            + if a.is_ancestor_of(u0) {
                            (i + 1 - kept.len()) as nat
                        } else {
                            0nat
                        } by {
                        lemma_sibling_facts(us[w], u0, a);
                        assert(desc_count(ms.subrange(0, i as int), a) == desc_count(pre, a)
                            + if a.is_ancestor_of(u0) {
                            (i - pre.len()) as nat
                        } else {
                            0nat
                        });
                    }
                }
            }
            i += 1;
        }
        proof {
            assert(ms.subrange(0, ms.len() as int) =~= ms);
            assert forall|p: int, q: int|
                0 <= p < kept.len() && 0 <= q < kept.len() implies !(
                #[trigger] views(kept@)[p]).is_ancestor_of(#[trigger] views(kept@)[q]) by {
                let jp = choose|j: int| 0 <= j < ms.len() && ms[j] == (#[trigger] kept@[p])@;
                let jq = choose|j: int| 0 <= j < ms.len() && ms[j] == (#[trigger] kept@[q])@;
                assert(!ms[jp].is_ancestor_of(ms[jq]));
            }
        }
        let count = self.inner.len() - kept.len();
        assert(self.parents_match());
        let ghost ps0 = self.parents@;
        self.inner = kept;
        assert(self.parents@ == ps0);
        assert(self.parents_match());
        let ghost nms = self@.members;
        assert(nms == views(kept@));
        proof {
            assert forall|a: LocationView| #[trigger]
                desc_count(ms, a) == desc_count(nms, a) + if a.is_ancestor_of(u0) {
                    count as nat
                } else {
                    0nat
                } by {
                assert(desc_count(ms.subrange(0, ms.len() as int), a) == desc_count(nms, a)
                    + if a.is_ancestor_of(u0) {
                    count as nat
                } else {
                    0nat
                });
            }
        }
        if count == 0 {
            proof {
                assert forall|a: LocationView|
                    #![trigger self.counts@.contains_key(a)]
                    #![trigger desc_count(self@.members, a)]
                    (self.counts@.contains_key(a) <==> desc_count(self@.members, a) > 0) && (
                    self.counts@.contains_key(a) ==> self.counts@[a] == desc_count(self@.members, a)) by {
                    assert(desc_count(ms, a) == desc_count(nms, a) + 0);
                    assert(old(self)@.counts.contains_key(a) <==> desc_count(ms, a) > 0);
                }
            }
            return 0;
        }
        let chain = Self::all_ancestors(&urls[0]);
        let mut k: usize = 0;
        while k < chain.len()
            invariant
                nms == self@.members,
                ms == old(self)@.members,
                self@.exclusive(),
                count == ms.len() - nms.len(),
                count > 0,
                old(self)@.counts_exact(),
                self.parents_match(),
                chain.len() == u0.comps.len(),
                forall|q: int|
                    0 <= q < chain.len() ==> (#[trigger] chain@[q])@.is_ancestor_of(u0)
                        && chain@[q]@.comps.len() == u0.comps.len() - 1 - q,
                k <= chain.len(),
                forall|a: LocationView| #[trigger]
                    desc_count(ms, a) == desc_count(nms, a) + if a.is_ancestor_of(u0) {
                        count as nat
                    } else {
                        0nat
                    },
                forall|a: LocationView|
                    #![trigger self.counts@.contains_key(a)]
                    {
                        let target = if a.is_ancestor_of(u0) && a.comps.len() >= u0.comps.len()
                            - k {
                            desc_count(nms, a)
                        } else {
                            desc_count(ms, a)
                        };
                        (self.counts@.contains_key(a) <==> target > 0) && (
                        self.counts@.contains_key(a) ==> self.counts@[a] == target)
                    },
            decreases chain.len() - k,
        {
            let ghost a = chain@[k as int]@;
            let ghost ps = self.parents@;
            let ghost cts = self.counts@;
            proof {
                assert(old(self)@.counts.contains_key(a) <==> desc_count(ms, a) > 0);
            }
            match self.find_parent(&chain[k]) {
                Some(j) => {
                    let n = self.parents[j].1 - count;
                    if n == 0 {
                        self.parents.remove(j);
                        self.counts = Ghost(self.counts@.remove(a));
                        proof {
                            assert forall|q: int|
                                0 <= q < self.parents.len() implies #[trigger] self.parents@[q]
                                == if q < j {
                                ps[q]
                            } else {
                                ps[q + 1]
                            } && self.parents@[q].0@ != a by {
                                assert(ps[j as int].0@ == a);
                            }
                            assert forall|b: LocationView|
                                #![trigger self.counts@.contains_key(b)]
                                self.counts@.contains_key(b) implies exists|q: int|
                                    0 <= q < self.parents.len() && #[trigger] self.parents@[q].0@
                                        == b by {
                                let q = choose|q: int| 0 <= q < ps.len() && #[trigger] ps[q].0@ == b;
                                assert(q != j);
                                if q < j {
                                    assert(self.parents@[q].0@ == b);
                                } else {
                                    assert(self.parents@[q - 1].0@ == b);
                                }
                            }
                        }
                    } else {
                        self.parents[j].1 = n;
                        self.counts = Ghost(self.counts@.insert(a, n as nat));
                        proof {
                            assert(self.parents@[j as int].0 == ps[j as int].0);
                            assert forall|q: int| 0 <= q < ps.len() && q != j implies self.parents@[q]
                                == ps[q] && ps[q].0@ != a by {
                                assert(ps[j as int].0@ == a);
                            }
                            assert forall|b: LocationView|
                                #![trigger self.counts@.contains_key(b)]
                                self.counts@.contains_key(b) implies exists|q: int|
                                    0 <= q < self.parents.len() && #[trigger] self.parents@[q].0@
                                        == b by {
                                if b == a {
                                    assert(self.parents@[j as int].0@ == b);
                                } else {
                                    let q = choose|q: int|
                                        0 <= q < ps.len() && #[trigger] ps[q].0@ == b;
                                    assert(self.parents@[q].0@ == b);
                                }
                            }
                        }
                    }
                },
                None => {},
            }
            proof {
                assert forall|b: LocationView|
                    b.is_ancestor_of(u0) && b.comps.len() >= u0.comps.len() - (k + 1)
                        implies b.comps.len() >= u0.comps.len() - k || b == a by {
                    if b.comps.len() == u0.comps.len() - (k + 1) {
                        lemma_ancestor_at_depth(a, b, u0);
                    }
                }
            }
            k += 1;
        }
        proof {
            assert forall|a: LocationView|
                #![trigger self.counts@.contains_key(a)]
                #![trigger desc_count(self@.members, a)]
                (self.counts@.contains_key(a) <==> desc_count(self@.members, a) > 0) && (
                self.counts@.contains_key(a) ==> self.counts@[a] == desc_count(self@.members, a)) by {
            }
        }
        count
    }

    /// Whether `u` is among `urls`.
    fn listed(urls: &[Location], u: &Location) -> (r: bool)
        ensures
            r == views(urls@).contains(u@),
    {
        let mut i: usize = 0;
        while i < urls.len()
            invariant
                i <= urls.len(),
                forall|j: int| 0 <= j < i ==> urls@[j]@ != u@,
            decreases urls.len() - i,
        {
            if urls[i].same(u) {
                assert(views(urls@)[i as int] == u@);
                return true;
            }
            i += 1;
        }
        false
    }

    /// Splits `urls` into groups that share one immediate parent, leaving out
    /// roots.
    fn group_by_parent(urls: &[Location]) -> (gs: Vec<Vec<Location>>)
        ensures
            forall|g: int|
                0 <= g < gs.len() ==> (#[trigger] gs@[g]).len() > 0 && all_siblings(views(gs@[g]@))
                    && !gs@[g]@[0]@.is_root(),
            forall|x: LocationView|
                #![trigger grouped(gs@, x)]
                #![trigger views(urls@).contains(x)]
                grouped(gs@, x) <==> (views(urls@).contains(x) && !x.is_root()),
            group_views(gs@) == group_spec(views(urls@)),
    {
        let ghost us = views(urls@);
        let mut gs: Vec<Vec<Location>> = Vec::new();
        let mut i: usize = 0;
        while i < urls.len()
            invariant
                us == views(urls@),
                i <= urls.len(),
                forall|g: int|
                    0 <= g < gs.len() ==> (#[trigger] gs@[g]).len() > 0 && all_siblings(
                        views(gs@[g]@),
                    ) && !gs@[g]@[0]@.is_root(),
                forall|x: LocationView|
                    #![trigger grouped(gs@, x)]
                    #![trigger us.subrange(0, i as int).contains(x)]
                    grouped(gs@, x) <==> (us.subrange(0, i as int).contains(x) && !x.is_root()),
                group_views(gs@) == group_spec(us.subrange(0, i as int)),
            decreases urls.len() - i,
        {
            let ghost u = us[i as int];
            let ghost before = gs@;
            proof {
                lemma_prefix_step(us, i as int);
                assert(us.subrange(0, i + 1).drop_last() =~= us.subrange(0, i as int));
                assert(us.subrange(0, i + 1).last() == u);
                assert forall|h: int| 0 <= h < group_views(before).len() implies (
                #[trigger] group_views(before)[h]).len() > 0 by {
                    assert(before[h].len() > 0);
                }
                lemma_first_sibling(group_views(before), u);
            }
            if !urls[i].is_root() {
                let mut found: Option<usize> = None;
                let mut g: usize = 0;
                while g < gs.len()
                    invariant
                        gs@ == before,
                        i < urls.len(),
                        us == views(urls@),
                        u == us[i as int],
                        forall|h: int| 0 <= h < gs.len() ==> (#[trigger] gs@[h]).len() > 0,
                        g <= gs.len(),
                        found matches Some(f) ==> f < gs.len() && u.sibling_of(gs@[f as int]@[0]@),
                        found matches Some(f) ==> forall|h: int|
                            0 <= h < f ==> !u.sibling_of((#[trigger] gs@[h])@[0]@),
                        found is None ==> forall|h: int|
                            0 <= h < g ==> !u.sibling_of((#[trigger] gs@[h])@[0]@),
                    decreases gs.len() - g,
                {
                    if found.is_none() && urls[i].is_sibling_of(&gs[g][0]) {
                        found = Some(g);
                    }
                    g += 1;
                }
                let c = urls[i].duplicate();
                if let Some(g) = found {
                    gs[g].push(c);
                    proof {
                        let gvb = group_views(before);
                        let f = first_sibling_group(gvb, u);
                        assert(gvb[g as int][0] == before[g as int]@[0]@);
                        if f >= 0 && f != g {
                            assert(gvb[f][0] == before[f]@[0]@);
                        }
                        assert(f == g);
                        lemma_grouped_into(before, gs@, g as int, c);
                        assert forall|h: int| 0 <= h < gs.len() implies (#[trigger] gs@[h]).len() > 0
                            && all_siblings(views(gs@[h]@)) && !gs@[h]@[0]@.is_root() by {
                            if h == g {
                                let vg = views(gs@[h]@);
                                let vb = views(before[h]@);
                                assert(vg =~= vb.push(u));
                                assert forall|j: int| 0 <= j < vg.len() implies (
                                #[trigger] vg[j]).sibling_of(vg[0]) by {
                                    if j < vb.len() {
                                        assert(vb[j].sibling_of(vb[0]));
                                    }
                                }
                            }
                        }
                        assert(views(gs@[g as int]@) =~= views(before[g as int]@).push(u));
                        assert(group_views(gs@) =~= gvb.update(g as int, gvb[g as int].push(u)));
                    }
                } else {
                    let v = vec![c];
                    assert(v@ =~= seq![c]);
                    gs.push(v);
                    proof {
                        let gvb = group_views(before);
                        let f = first_sibling_group(gvb, u);
                        if f >= 0 {
                            assert(gvb[f][0] == before[f]@[0]@);
                        }
                        assert(views(gs@[before.len() as int]@) =~= seq![u]);
                        assert(group_views(gs@) =~= gvb.push(seq![u]));
                        lemma_grouped_new(before, gs@, c);
                        let vg = views(gs@[before.len() as int]@);
                        assert(vg =~= seq![u]);
                        assert(vg[0].sibling_of(vg[0])) by {
                            lemma_sibling_refl(u);
                        }
                    }
                }
            }
            proof {
                assert(forall|x: LocationView| #[trigger]
                    grouped(gs@, x) <==> (grouped(before, x) || (x == u && !u.is_root())));
                assert forall|x: LocationView|
                    #![trigger grouped(gs@, x)]
                    #![trigger us.subrange(0, i + 1).contains(x)]
                    grouped(gs@, x) <==> (us.subrange(0, i + 1).contains(x) && !x.is_root()) by {
                    assert(grouped(before, x) <==> (us.subrange(0, i as int).contains(x)
                        && !x.is_root()));
                    assert(us.subrange(0, i + 1).contains(x) <==> (us.subrange(0, i as int).contains(x)
                        || x == u));
                }
            }
            i += 1;
        }
        proof {
            assert(us.subrange(0, urls.len() as int) =~= us);
            assert forall|x: LocationView| grouped(gs@, x) <==> (us.contains(x) && !x.is_root()) by {
                assert(grouped(gs@, x) <==> (us.subrange(0, urls.len() as int).contains(x)
                    && !x.is_root()));
            }
        }
        gs
    }

    /// Adds every location of `urls` that does not conflict with the
    /// selection, batch by batch of shared parent, and returns how many were
    /// newly selected. Roots are left out.
    pub fn add_many(&mut self, urls: &[Location]) -> (r: usize)
        requires
            old(self).well_formed(),
        ensures
            final(self).well_formed(),
            final(self)@.members.len() == old(self)@.members.len() + r,
            forall|i: int|
                0 <= i < old(self)@.members.len() ==> #[trigger] final(self)@.members[i]
                    == old(self)@.members[i],
            forall|i: int|
                old(self)@.members.len() <= i < final(self)@.members.len() ==> views(
                    urls@,
                ).contains(#[trigger] final(self)@.members[i]) && !final(self)@.members[i].is_root(),
            forall|i: int|
                0 <= i < urls.len() && !(#[trigger] urls@[i])@.is_root() ==> settled(
                    final(self)@.members,
                    urls@[i]@,
                ),
            final(self)@.members == after_groups(old(self)@.members, group_spec(views(urls@))),
    {
        let gs = Self::group_by_parent(urls);
        let before = self.inner.len();
        let ghost ms = self@.members;
        let ghost us = views(urls@);
        let mut g: usize = 0;
        while g < gs.len()
            invariant
                self.wf(),
                ms == old(self)@.members,
                before == ms.len(),
                us == views(urls@),
                forall|h: int|
                    0 <= h < gs.len() ==> (#[trigger] gs@[h]).len() > 0 && all_siblings(
                        views(gs@[h]@),
                    ) && !gs@[h]@[0]@.is_root(),
                forall|x: LocationView|
                    #![trigger grouped(gs@, x)]
                    #![trigger views(urls@).contains(x)]
                    grouped(gs@, x) <==> (views(urls@).contains(x) && !x.is_root()),
                g <= gs.len(),
                self@.members.len() >= ms.len(),
                forall|i: int| 0 <= i < ms.len() ==> #[trigger] self@.members[i] == ms[i],
                forall|i: int|
                    ms.len() <= i < self@.members.len() ==> grouped(gs@, #[trigger] self@.members[i]),
                forall|h: int, j: int|
                    0 <= h < g && 0 <= j < gs@[h].len() ==> settled(self@.members, (#[trigger] gs@[h]@[j])@),
                self@.members == after_groups(ms, group_views(gs@).subrange(0, g as int)),
            decreases gs.len() - g,
        {
            let ghost cur = self@.members;
            proof {
                let gv = group_views(gs@);
                assert(gv.subrange(0, g + 1).drop_last() =~= gv.subrange(0, g as int));
                assert(gv.subrange(0, g + 1).last() == views(gs@[g as int]@));
            }
            self.add_same(&gs[g]);
            proof {
                let nm = self@.members;
                let cs = not_above(cur, views(gs@[g as int]@));
                lemma_not_above(cur, views(gs@[g as int]@));
                lemma_extend_unique(cur, cs);
                assert forall|i: int|
                    ms.len() <= i < nm.len() implies grouped(gs@, #[trigger] nm[i]) by {
                    if i >= cur.len() {
                        assert(cs.contains(nm[i]));
                        let w = choose|w: int| 0 <= w < views(gs@[g as int]@).len() && views(gs@[g as int]@)[w] == nm[i];
                        assert(gs@[g as int]@[w]@ == nm[i]);
                    } else {
                        assert(nm[i] == cur[i]);
                    }
                }
                assert forall|h: int, j: int|
                    0 <= h < g + 1 && 0 <= j < gs@[h].len() implies settled(nm, (#[trigger] gs@[h]@[j])@) by {
                    if h < g {
                        lemma_settled_grow(cur, nm, gs@[h]@[j]@);
                    }
                }
            }
            g += 1;
        }
        proof {
            assert forall|i: int|
                0 <= i < urls.len() && !(#[trigger] urls@[i])@.is_root() implies settled(
                self@.members,
                urls@[i]@,
            ) by {
                assert(us[i] == urls@[i]@);
                assert(us.contains(urls@[i]@));
                let (h, j) = choose|h: int, j: int| 0 <= h < gs@.len() && 0 <= j < gs@[h].len()
                    && (#[trigger] gs@[h]@[j])@ == urls@[i]@;
            }
        }
        assert(group_views(gs@).subrange(0, gs.len() as int) =~= group_views(gs@));
        assert(self@.members.len() == self.inner.len());
        self.inner.len() - before
    }

    /// Removes every listed location that is selected, batch by batch of
    /// shared parent, and returns how many were removed. Roots are left out.
    pub fn remove_many(&mut self, urls: &[Location]) -> (r: usize)
        requires
            old(self).well_formed(),
        ensures
            final(self).well_formed(),
            final(self)@.members == keep_unlisted(old(self)@.members, non_roots(views(urls@))),
            r == old(self)@.members.len() - final(self)@.members.len(),
    {
        let gs = Self::group_by_parent(urls);
        let ghost ms = self@.members;
        let ghost us = views(urls@);
        let ghost mut flat: Seq<LocationView> = Seq::empty();
        let mut total: usize = 0;
        proof {
            assert(ms.len() == self.inner.len());
            lemma_keep_none(ms, flat);
        }
        let mut g: usize = 0;
        while g < gs.len()
            invariant
                self.wf(),
                ms == old(self)@.members,
                us == views(urls@),
                forall|h: int|
                    0 <= h < gs.len() ==> (#[trigger] gs@[h]).len() > 0 && all_siblings(
                        views(gs@[h]@),
                    ) && !gs@[h]@[0]@.is_root(),
                forall|x: LocationView|
                    #![trigger grouped(gs@, x)]
                    #![trigger views(urls@).contains(x)]
                    grouped(gs@, x) <==> (views(urls@).contains(x) && !x.is_root()),
                g <= gs.len(),
                self@.members == keep_unlisted(ms, flat),
                ms.len() <= usize::MAX,
                total == ms.len() - self@.members.len(),
                forall|x: LocationView| #[trigger] flat.contains(x) ==> grouped(gs@, x),
                forall|h: int, j: int|
                    0 <= h < g && 0 <= j < gs@[h].len() ==> flat.contains((#[trigger] gs@[h]@[j])@),
            decreases gs.len() - g,
        {
            let ghost vg = views(gs@[g as int]@);
            let n = self.remove_same(&gs[g]);
            proof {
                lemma_keep_twice(ms, flat, vg);
                assert forall|x: LocationView| #[trigger] (flat + vg).contains(x) implies grouped(gs@, x) by {
                    lemma_concat_contains(flat, vg, x);
                    if vg.contains(x) {
                        let j = choose|j: int| 0 <= j < vg.len() && vg[j] == x;
                        assert(gs@[g as int]@[j]@ == x);
                    }
                }
                assert forall|h: int, j: int|
                    0 <= h < g + 1 && 0 <= j < gs@[h].len() implies (flat + vg).contains(
                    (#[trigger] gs@[h]@[j])@,
                ) by {
                    lemma_concat_contains(flat, vg, gs@[h]@[j]@);
                    if h == g {
                        assert(vg[j] == gs@[h]@[j]@);
                    }
                }
                flat = flat + vg;
            }
            total = total + n;
            g += 1;
        }
        proof {
            lemma_non_roots(us);
            assert forall|x: LocationView| flat.contains(x) <==> non_roots(us).contains(x) by {
                if grouped(gs@, x) {
                    let (h, j) = choose|h: int, j: int|
                        0 <= h < gs@.len() && 0 <= j < gs@[h].len() && (#[trigger] gs@[h]@[j])@ == x;
                }
            }
            lemma_keep_same_list(ms, flat, non_roots(us));
        }
        total
    }

    /// Selects `url` unless it is selected already or lies above or below a
    /// selected location; returns whether it was added.
    pub fn add(&mut self, url: &Location) -> (r: bool)
        requires
            old(self).well_formed(),
        ensures
            final(self).well_formed(),
            r == add_accepts(old(self)@.members, url@),
            final(self)@.members == after_add(old(self)@.members, url@),
    {
        let ghost ms = self@.members;
        if self.contains(url) {
            return false;
        }
        let v = vec![url.duplicate()];
        proof {
            let us = views(v@);
            assert(us =~= seq![url@]);
            assert(us.drop_last() =~= Seq::<LocationView>::empty());
            lemma_sibling_refl(url@);
            assert(all_siblings(us));
            let cs = not_above(ms, us);
            assert(us.last() == url@);
            assert(not_above(ms, us.drop_last()) == us.drop_last());
            if desc_count(ms, url@) == 0 {
                assert(cs =~= seq![url@]);
                assert(cs.drop_last() =~= Seq::<LocationView>::empty());
            } else {
                assert(cs =~= Seq::<LocationView>::empty());
            }
        }
        let ghost cs = not_above(ms, views(v@));
        let n = self.add_same(&v);
        proof {
            if cs.len() > 0 {
                assert(extend_unique(ms, cs.drop_last()) == ms);
                assert(cs.last() == url@);
                assert(cs[0] == url@);
            }
        }
        n == 1
    }

    /// Deselects `url`; returns whether it was selected.
    pub fn remove(&mut self, url: &Location) -> (r: bool)
        requires
            old(self).well_formed(),
        ensures
            final(self).well_formed(),
            r == old(self)@.members.contains(url@),
            final(self)@.members == keep_unlisted(old(self)@.members, seq![url@]),
    {
        let v = vec![url.duplicate()];
        proof {
            assert(views(v@) =~= seq![url@]);
            lemma_sibling_refl(url@);
            lemma_keep_single(old(self)@.members, url@);
        }
        let n = self.remove_same(&v);
        n == 1
    }

    /// Reconciles the selection with a change on disk: deselects the
    /// locations that went away, then selects those that came back.
    pub fn apply_op(&mut self, removal: &[Location], addition: &[Location])
        requires
            old(self).well_formed(),
        ensures
            final(self).well_formed(),
            ({
                let kept = keep_unlisted(old(self)@.members, non_roots(views(removal@)));
                &&& final(self)@.members.len() >= kept.len()
                &&& forall|i: int| 0 <= i < kept.len() ==> #[trigger] final(self)@.members[i] == kept[i]
                &&& forall|i: int|
                    kept.len() <= i < final(self)@.members.len() ==> views(addition@).contains(
                        #[trigger] final(self)@.members[i],
                    ) && !final(self)@.members[i].is_root()
            }),
            forall|i: int|
                0 <= i < addition.len() && !(#[trigger] addition@[i])@.is_root() ==> settled(
                    final(self)@.members,
                    addition@[i]@,
                ),
            final(self)@.members == after_groups(
                keep_unlisted(old(self)@.members, non_roots(views(removal@))),
                group_spec(views(addition@)),
            ),
    {
        if removal.len() > 0 {
            self.remove_many(removal);
        } else {
            proof {
                assert(non_roots(views(removal@)) =~= Seq::<LocationView>::empty());
                lemma_keep_none(old(self)@.members, non_roots(views(removal@)));
            }
        }
        if addition.len() > 0 {
            self.add_many(addition);
        } else {
            proof {
                assert(views(addition@) =~= Seq::<LocationView>::empty());
                assert(group_spec(views(addition@)) =~= Seq::<Seq<LocationView>>::empty());
            }
        }
    }

    pub fn clear(&mut self)
        ensures
            final(self).well_formed(),
            final(self)@.members.len() == 0,
            final(self)@.counts.is_empty(),
    {
        *self = Selected::new();
    }
}

} // verus!
