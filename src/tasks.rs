//! The operation dispatcher: turns a batch of sources and a destination
//! directory into one request per source and submits them to the scheduler.

use vstd::prelude::*;

use crate::location::{Location, LocationView};
use crate::scheduler::{OpKind, Request, Scheduler, SchedulerView, Task, TaskState};
use crate::selected::views;

verus! {

/// Where `src` lands inside `dest`.
pub open spec fn landing(src: LocationView, dest: LocationView) -> LocationView {
    dest.child(src.comps.last())
}

/// A forced operation onto the location the source already is would do
/// nothing, and is not submitted.
pub open spec fn skipped(src: LocationView, dest: LocationView, force: bool) -> bool {
    force && landing(src, dest) == src
}

/// The sources that get a request, in order.
pub open spec fn planned(srcs: Seq<LocationView>, dest: LocationView, force: bool) -> Seq<LocationView>
    decreases srcs.len(),
{
    if srcs.len() == 0 {
        srcs
    } else {
        let rest = planned(srcs.drop_last(), dest, force);
        if skipped(srcs.last(), dest, force) {
            rest
        } else {
            rest.push(srcs.last())
        }
    }
}

/// `t` is a fresh queued task for request `kind` from `src` to `to`.
pub open spec fn queued_request(
    t: Task,
    kind: OpKind,
    src: LocationView,
    to: LocationView,
    force: bool,
    follow: bool,
    relative: bool,
) -> bool {
    &&& t.state == TaskState::Queued
    &&& t.retries == 0
    &&& !t.cancel_requested
    &&& t.req.kind == kind
    &&& t.req.from@ == src
    &&& t.req.to@ == to
    &&& t.req.force == force
    &&& t.req.follow == follow
    &&& t.req.relative == relative
}

/// `after` is `before` with one queued task per planned source appended.
pub open spec fn submitted(
    before: SchedulerView,
    after: SchedulerView,
    srcs: Seq<LocationView>,
    dest: LocationView,
    kind: OpKind,
    force: bool,
    follow: bool,
    relative: bool,
) -> bool {
    let ps = planned(srcs, dest, force);
    &&& after.invariants_hold()
    &&& after.workers == before.workers
    &&& after.max_retries == before.max_retries
    &&& after.tasks.len() == before.tasks.len() + ps.len()
    &&& forall|i: int| 0 <= i < before.tasks.len() ==> #[trigger] after.tasks[i] == before.tasks[i]
    &&& forall|k: int|
        0 <= k < ps.len() ==> queued_request(
            #[trigger] after.tasks[before.tasks.len() + k],
            kind,
            ps[k],
            landing(ps[k], dest),
            force,
            follow,
            relative,
        )
}

/// No source that would land on itself under `force` is planned, and every
/// other source is.
pub proof fn law_same_location_skipped(srcs: Seq<LocationView>, dest: LocationView, force: bool)
    ensures
        forall|x: LocationView| #[trigger]
            planned(srcs, dest, force).contains(x) <==> (srcs.contains(x) && !skipped(
                x,
                dest,
                force,
            )),
    decreases srcs.len(),
{
    if srcs.len() > 0 {
        let d = srcs.drop_last();
        law_same_location_skipped(d, dest, force);
        let n = planned(d, dest, force);
        let l = srcs.last();
        assert forall|x: LocationView| #[trigger]
            planned(srcs, dest, force).contains(x) <==> (srcs.contains(x) && !skipped(
                x,
                dest,
                force,
            )) by {
            if srcs.contains(x) {
                let i = choose|i: int| 0 <= i < srcs.len() && srcs[i] == x;
                if i < srcs.len() - 1 {
                    assert(d[i] == x);
                }
            }
            if d.contains(x) {
                let i = choose|i: int| 0 <= i < d.len() && d[i] == x;
                assert(srcs[i] == x);
            }
            if !skipped(l, dest, force) {
                assert(n.push(l)[n.len() as int] == l);
                if n.push(l).contains(x) {
                    let i = choose|i: int| 0 <= i < n.len() + 1 && n.push(l)[i] == x;
                    if i < n.len() {
                        assert(n[i] == x);
                    }
                }
                if n.contains(x) {
                    let i = choose|i: int| 0 <= i < n.len() && n[i] == x;
                    assert(n.push(l)[i] == x);
                }
            }
        }
    }
}

/// Submits file operations to a scheduler.
pub struct Tasks {
    scheduler: Scheduler,
}

impl Tasks {
    pub fn new(scheduler: Scheduler) -> (r: Tasks)
        ensures
            r.scheduler()@ == scheduler@,
    {
        Tasks { scheduler }
    }

    pub closed spec fn scheduler(&self) -> Scheduler {
        self.scheduler
    }

    /// The scheduler the requests go to.
    pub fn get_scheduler(&self) -> (r: &Scheduler)
        ensures
            r@ == self.scheduler()@,
    {
        &self.scheduler
    }

    /// The scheduler, for the workers to start, report and cancel tasks.
    pub fn scheduler_mut(&mut self) -> (r: &mut Scheduler)
        ensures
            *r == old(self).scheduler(),
            final(self).scheduler() == *final(r),
    {
        &mut self.scheduler
    }

    /// Submits one request per source, landing in `dest` under the source's
    /// name, unless `force` is set and the source would land on itself.
    fn submit_each(
        &mut self,
        kind: OpKind,
        src: &[Location],
        dest: &Location,
        force: bool,
        follow: bool,
        relative: bool,
    )
        requires
            old(self).scheduler()@.invariants_hold(),
            old(self).scheduler()@.next_id + src.len() <= u64::MAX,
            forall|i: int| 0 <= i < src.len() ==> !(#[trigger] src@[i])@.is_root(),
        ensures
            submitted(
                old(self).scheduler()@,
                final(self).scheduler()@,
                views(src@),
                dest@,
                kind,
                force,
                follow,
                relative,
            ),
    {
        let ghost before = self.scheduler@;
        let ghost ss = views(src@);
        let mut i: usize = 0;
        while i < src.len()
            invariant
                i <= src.len(),
                ss == views(src@),
                forall|q: int| 0 <= q < src.len() ==> !(#[trigger] src@[q])@.is_root(),
                before.invariants_hold(),
                self.scheduler@.next_id + (src.len() - i) <= u64::MAX,
                submitted(
                    before,
                    self.scheduler@,
                    ss.subrange(0, i as int),
                    dest@,
                    kind,
                    force,
                    follow,
                    relative,
                ),
            decreases src.len() - i,
        {
            let ghost cur = self.scheduler@;
            let ghost ps = planned(ss.subrange(0, i as int), dest@, force);
            proof {
                assert(ss.subrange(0, i + 1).drop_last() =~= ss.subrange(0, i as int));
                assert(ss.subrange(0, i + 1).last() == src@[i as int]@);
            }
            let name = match src[i].file_name() {
                Some(n) => n,
                None => {
                    i += 1;
                    continue;
                },
            };
            let to = dest.join(&name);
            if force && to.same(&src[i]) {
                // The source is already where it would go.
            } else {
                let req = Request {
                    kind,
                    from: src[i].duplicate(),
                    to,
                    force,
                    follow,
                    relative,
                };
                self.scheduler.submit(req);
                proof {
                    let nv = self.scheduler@;
                    let ps1 = planned(ss.subrange(0, i + 1), dest@, force);
                    assert(ps1 == ps.push(src@[i as int]@));
                    assert forall|k: int| 0 <= k < ps1.len() implies queued_request(
                        #[trigger] nv.tasks[before.tasks.len() + k],
                        kind,
                        ps1[k],
                        landing(ps1[k], dest@),
                        force,
                        follow,
                        relative,
                    ) by {
                        if k < ps.len() {
                            assert(nv.tasks[before.tasks.len() + k] == cur.tasks[before.tasks.len() + k]);
                        }
                    }
                }
            }
            i += 1;
        }
        proof {
            assert(ss.subrange(0, src.len() as int) =~= ss);
        }
    }

    /// Moves each source into `dest`.
    pub fn file_cut(&mut self, src: &[Location], dest: &Location, force: bool)
        requires
            old(self).scheduler()@.invariants_hold(),
            old(self).scheduler()@.next_id + src.len() <= u64::MAX,
            forall|i: int| 0 <= i < src.len() ==> !(#[trigger] src@[i])@.is_root(),
        ensures
            submitted(
                old(self).scheduler()@,
                final(self).scheduler()@,
                views(src@),
                dest@,
                OpKind::Cut,
                force,
                false,
                false,
            ),
    {
        self.submit_each(OpKind::Cut, src, dest, force, false, false);
    }

    /// Copies each source into `dest`.
    pub fn file_copy(&mut self, src: &[Location], dest: &Location, force: bool, follow: bool)
        requires
            old(self).scheduler()@.invariants_hold(),
            old(self).scheduler()@.next_id + src.len() <= u64::MAX,
            forall|i: int| 0 <= i < src.len() ==> !(#[trigger] src@[i])@.is_root(),
        ensures
            submitted(
                old(self).scheduler()@,
                final(self).scheduler()@,
                views(src@),
                dest@,
                OpKind::Copy,
                force,
                follow,
                false,
            ),
    {
        self.submit_each(OpKind::Copy, src, dest, force, follow, false);
    }

    /// Creates a symbolic link in `dest` to each source.
    pub fn file_link(&mut self, src: &[Location], dest: &Location, relative: bool, force: bool)
        requires
            old(self).scheduler()@.invariants_hold(),
            old(self).scheduler()@.next_id + src.len() <= u64::MAX,
            forall|i: int| 0 <= i < src.len() ==> !(#[trigger] src@[i])@.is_root(),
        ensures
            submitted(
                old(self).scheduler()@,
                final(self).scheduler()@,
                views(src@),
                dest@,
                OpKind::Link,
                force,
                false,
                relative,
            ),
    {
        self.submit_each(OpKind::Link, src, dest, force, false, relative);
    }

    /// Creates a hard link in `dest` to each source.
    pub fn file_hardlink(&mut self, src: &[Location], dest: &Location, force: bool, follow: bool)
        requires
            old(self).scheduler()@.invariants_hold(),
            old(self).scheduler()@.next_id + src.len() <= u64::MAX,
            forall|i: int| 0 <= i < src.len() ==> !(#[trigger] src@[i])@.is_root(),
        ensures
            submitted(
                old(self).scheduler()@,
                final(self).scheduler()@,
                views(src@),
                dest@,
                OpKind::HardLink,
                force,
                follow,
                false,
            ),
    {
        self.submit_each(OpKind::HardLink, src, dest, force, follow, false);
    }

    /// Deletes each target, permanently or by moving it to the trash.
    pub fn file_remove(&mut self, targets: &[Location], permanently: bool)
        requires
            old(self).scheduler()@.invariants_hold(),
            old(self).scheduler()@.next_id + targets.len() <= u64::MAX,
        ensures
            final(self).scheduler()@.invariants_hold(),
            final(self).scheduler()@.workers == old(self).scheduler()@.workers,
            final(self).scheduler()@.max_retries == old(self).scheduler()@.max_retries,
            final(self).scheduler()@.tasks.len() == old(self).scheduler()@.tasks.len()
                + targets.len(),
            forall|i: int|
                0 <= i < old(self).scheduler()@.tasks.len()
                    ==> #[trigger] final(self).scheduler()@.tasks[i] == old(self).scheduler()@.tasks[i],
            forall|k: int|
                0 <= k < targets.len() ==> queued_request(
                    #[trigger] final(self).scheduler()@.tasks[old(self).scheduler()@.tasks.len()
                        + k],
                    if permanently {
                        OpKind::Delete
                    } else {
                        OpKind::Trash
                    },
                    targets@[k]@,
                    targets@[k]@,
                    false,
                    false,
                    false,
                ),
    {
        let ghost before = self.scheduler@;
        let kind = if permanently {
            OpKind::Delete
        } else {
            OpKind::Trash
        };
        let mut i: usize = 0;
        while i < targets.len()
            invariant
                i <= targets.len(),
                before == old(self).scheduler()@,
                before.invariants_hold(),
                kind == if permanently {
                    OpKind::Delete
                } else {
                    OpKind::Trash
                },
                self.scheduler@.invariants_hold(),
                self.scheduler@.workers == before.workers,
                self.scheduler@.max_retries == before.max_retries,
                self.scheduler@.next_id + (targets.len() - i) <= u64::MAX,
                self.scheduler@.tasks.len() == before.tasks.len() + i,
                forall|q: int|
                    0 <= q < before.tasks.len() ==> #[trigger] self.scheduler@.tasks[q]
                        == before.tasks[q],
                forall|k: int|
                    0 <= k < i ==> queued_request(
                        #[trigger] self.scheduler@.tasks[before.tasks.len() + k],
                        kind,
                        targets@[k]@,
                        targets@[k]@,
                        false,
                        false,
                        false,
                    ),
            decreases targets.len() - i,
        {
            let ghost cur = self.scheduler@;
            let req = Request {
                kind,
                from: targets[i].duplicate(),
                to: targets[i].duplicate(),
                force: false,
                follow: false,
                relative: false,
            };
            self.scheduler.submit(req);
            proof {
                let nv = self.scheduler@;
                assert forall|k: int| 0 <= k < i + 1 implies queued_request(
                    #[trigger] nv.tasks[before.tasks.len() + k],
                    kind,
                    targets@[k]@,
                    targets@[k]@,
                    false,
                    false,
                    false,
                ) by {
                    if k < i {
                        assert(nv.tasks[before.tasks.len() + k] == cur.tasks[before.tasks.len() + k]);
                    }
                }
            }
            i += 1;
        }
    }
}

} // verus!
