//! The clipboard: a snapshot of selected locations with a cut/copy mode and a
//! revision that is bumped whenever the clipboard changes.

use vstd::prelude::*;

use crate::location::{Location, LocationView};
use crate::selected::{Selected, SelectedView, views};

verus! {

/// A snapshot of locations yanked for a later paste.
pub struct Yanked {
    cut: bool,
    urls: Vec<Location>,
    revision: u64,
}

impl Yanked {
    pub fn new(cut: bool, urls: Vec<Location>) -> (r: Yanked)
        ensures
            r.cut_spec() == cut,
            r.urls_spec() == views(urls@),
            r.revision_spec() == 0,
    {
        Yanked { cut, urls, revision: 0 }
    }

    pub closed spec fn cut_spec(&self) -> bool {
        self.cut
    }

    pub closed spec fn urls_spec(&self) -> Seq<LocationView> {
        views(self.urls@)
    }

    pub closed spec fn revision_spec(&self) -> nat {
        self.revision as nat
    }

    /// Whether the entries are to be moved rather than copied.
    pub fn cut(&self) -> (r: bool)
        ensures
            r == self.cut_spec(),
    {
        self.cut
    }

    pub fn urls(&self) -> (r: &Vec<Location>)
        ensures
            views(r@) == self.urls_spec(),
    {
        &self.urls
    }

    pub fn revision(&self) -> (r: u64)
        ensures
            r == self.revision_spec(),
    {
        self.revision
    }

    /// Marks the clipboard as changed and returns whether it is a cut, which
    /// tells whether its entries are shown dimmed.
    pub fn catchup_revision(&mut self) -> (r: bool)
        requires
            old(self).revision_spec() < u64::MAX,
        ensures
            r == old(self).cut_spec(),
            final(self).cut_spec() == old(self).cut_spec(),
            final(self).urls_spec() == old(self).urls_spec(),
            final(self).revision_spec() == old(self).revision_spec() + 1,
    {
        self.revision = self.revision + 1;
        self.cut
    }
}

/// The locations a yank takes: the selection, or the hovered entry when
/// nothing is selected.
pub open spec fn selected_or_hovered(
    sel: SelectedView,
    hovered: Option<LocationView>,
) -> Seq<LocationView> {
    if sel.members.len() > 0 {
        sel.members
    } else {
        match hovered {
            Some(h) => seq![h],
            None => Seq::empty(),
        }
    }
}

/// The yank command.
pub struct Yank;

impl Yank {
    /// Replaces the clipboard by a snapshot of the selection (or of the
    /// hovered entry), bumps its revision and clears the selection. Returns
    /// whether the view is to be redrawn.
    pub fn act(
        yanked: &mut Yanked,
        selected: &mut Selected,
        hovered: Option<&Location>,
        cut: bool,
    ) -> (r: bool)
        requires
            old(yanked).revision_spec() < u64::MAX,
        ensures
            final(yanked).cut_spec() == cut,
            final(yanked).urls_spec() == selected_or_hovered(
                old(selected)@,
                match hovered {
                    Some(h) => Some(h@),
                    None => None,
                },
            ),
            final(yanked).revision_spec() == old(yanked).revision_spec() + 1,
            final(selected).well_formed(),
            final(selected)@.members.len() == 0,
            r,
    {
        let mut urls: Vec<Location> = Vec::new();
        let vals = selected.values();
        if vals.len() > 0 {
            let mut i: usize = 0;
            while i < vals.len()
                invariant
                    i <= vals.len(),
                    views(urls@) == views(vals@).subrange(0, i as int),
                decreases vals.len() - i,
            {
                let d = vals[i].duplicate();
                let ghost pre = urls@;
                urls.push(d);
                proof {
                    assert(urls@ == pre.push(d));
                    assert(views(urls@) =~= views(pre).push(d@));
                    assert(views(vals@).subrange(0, i + 1) =~= views(vals@).subrange(0, i as int).push(
                        vals@[i as int]@,
                    ));
                }
                i += 1;
            }
            proof {
                assert(views(vals@).subrange(0, vals.len() as int) =~= views(vals@));
            }
        } else {
            match hovered {
                Some(h) => {
                    urls.push(h.duplicate());
                    proof {
                        assert(views(urls@) =~= seq![h@]);
                    }
                },
                None => {
                    proof {
                        assert(views(urls@) =~= Seq::<LocationView>::empty());
                    }
                },
            }
        }
        let old_revision = yanked.revision;
        *yanked = Yanked { cut, urls, revision: old_revision };
        yanked.catchup_revision();
        selected.clear();
        true
    }
}

} // verus!
