//! Bookkeeping of the scripting runtime: a stack of named frames, each
//! counting the blocks it asked for, and the blocks stored per frame name.
//! The stored block type is left open; the host supplies its own.

use vstd::prelude::*;

verus! {

struct RuntimeFrame {
    id: String,
    calls: usize,
}

/// The frames and stored blocks of a runtime.
pub struct Runtime<F> {
    frames: Vec<RuntimeFrame>,
    blocks: Vec<(String, Vec<F>)>,
    stored: Ghost<Map<Seq<char>, Seq<F>>>,
}

impl<F> Runtime<F> {
    /// The frames from the bottom up: each id with its count of blocks asked.
    pub closed spec fn frames(&self) -> Seq<(Seq<char>, nat)> {
        self.frames@.map_values(|f: RuntimeFrame| (f.id@, f.calls as nat))
    }

    /// The blocks stored under each frame name, in the order they were put.
    pub closed spec fn blocks(&self) -> Map<Seq<char>, Seq<F>> {
        self.stored@
    }

    pub closed spec fn well_formed(&self) -> bool {
        &&& forall|j: int, k: int|
            0 <= j < self.blocks.len() && 0 <= k < self.blocks.len() && (#[trigger] self.blocks@[j]).0@
                == (#[trigger] self.blocks@[k]).0@ ==> j == k
        &&& forall|j: int|
            0 <= j < self.blocks.len() ==> self.stored@.contains_key(#[trigger] self.blocks@[j].0@)
                && self.stored@[self.blocks@[j].0@] == self.blocks@[j].1@
        &&& forall|s: Seq<char>|
            #![trigger self.stored@.contains_key(s)]
            self.stored@.contains_key(s) ==> exists|j: int|
                0 <= j < self.blocks.len() && #[trigger] self.blocks@[j].0@ == s
    }

    /// A runtime with one frame named `id` and no stored block.
    pub fn new(id: &str) -> (r: Runtime<F>)
        ensures
            r.well_formed(),
            r.frames() == seq![(id@, 0nat)],
            r.blocks().is_empty(),
    {
        let mut frames: Vec<RuntimeFrame> = Vec::new();
        frames.push(RuntimeFrame { id: id.to_owned(), calls: 0 });
        let r = Runtime { frames, blocks: Vec::new(), stored: Ghost(Map::empty()) };
        assert(r.frames() =~= seq![(id@, 0nat)]);
        r
    }

    /// Enters a frame named `id`.
    pub fn push(&mut self, id: &str)
        requires
            old(self).well_formed(),
        ensures
            final(self).well_formed(),
            final(self).frames() == old(self).frames().push((id@, 0nat)),
            final(self).blocks() == old(self).blocks(),
    {
        self.frames.push(RuntimeFrame { id: id.to_owned(), calls: 0 });
        assert(self.frames() =~= old(self).frames().push((id@, 0nat)));
        assert(self.blocks@ == old(self).blocks@ && self.stored == old(self).stored);
    }

    /// Leaves the innermost frame, if any.
    pub fn pop(&mut self)
        requires
            old(self).well_formed(),
        ensures
            final(self).well_formed(),
            final(self).frames() == if old(self).frames().len() == 0 {
                old(self).frames()
            } else {
                old(self).frames().drop_last()
            },
            final(self).blocks() == old(self).blocks(),
    {
        if self.frames.len() > 0 {
            self.frames.pop();
            assert(self.frames() =~= old(self).frames().drop_last());
        }
        assert(self.blocks@ == old(self).blocks@ && self.stored == old(self).stored);
    }

    /// The name of the innermost frame.
    pub fn current(&self) -> (r: Option<&str>)
        ensures
            r is None <==> self.frames().len() == 0,
            r matches Some(s) ==> s@ == self.frames().last().0,
    {
        if self.frames.len() == 0 {
            None
        } else {
            Some(self.frames[self.frames.len() - 1].id.as_str())
        }
    }

    /// The name of the innermost frame, owned.
    pub fn current_owned(&self) -> (r: Option<String>)
        ensures
            r is None <==> self.frames().len() == 0,
            r matches Some(s) ==> s@ == self.frames().last().0,
    {
        match self.current() {
            None => None,
            Some(s) => Some(s.to_owned()),
        }
    }

    /// Counts one more block asked by the innermost frame and returns how many
    /// it had asked before.
    pub fn next_block(&mut self) -> (r: Option<usize>)
        requires
            old(self).well_formed(),
            old(self).frames().len() > 0 ==> old(self).frames().last().1 < usize::MAX,
        ensures
            final(self).well_formed(),
            final(self).blocks() == old(self).blocks(),
            r is None <==> old(self).frames().len() == 0,
            r is None ==> final(self).frames() == old(self).frames(),
            r matches Some(n) ==> {
                let last = old(self).frames().len() - 1;
                &&& n == old(self).frames()[last].1
                &&& final(self).frames() == old(self).frames().update(
                    last,
                    (old(self).frames()[last].0, (n + 1) as nat),
                )
            },
    {
        let len = self.frames.len();
        if len == 0 {
            return None;
        }
        let n = self.frames[len - 1].calls;
        self.frames[len - 1].calls = n + 1;
        assert(self.frames() =~= old(self).frames().update(
            len - 1,
            (old(self).frames()[len - 1].0, (n + 1) as nat),
        ));
        assert(self.blocks@ == old(self).blocks@ && self.stored == old(self).stored);
        Some(n)
    }

    /// Where blocks stored under `id` stand.
    fn find(&self, id: &str) -> (r: Option<usize>)
        requires
            self.well_formed(),
        ensures
            r matches Some(j) ==> j < self.blocks.len() && self.blocks@[j as int].0@ == id@,
            r is None ==> !self.stored@.contains_key(id@),
    {
        let key = id.to_owned();
        let mut j: usize = 0;
        while j < self.blocks.len()
            invariant
                key@ == id@,
                j <= self.blocks.len(),
                forall|k: int| 0 <= k < j ==> self.blocks@[k].0@ != id@,
            decreases self.blocks.len() - j,
        {
            if self.blocks[j].0 == key {
                return Some(j);
            }
            j += 1;
        }
        None
    }

    /// The block the frame named `id` stored at its `calls`-th request.
    pub fn get_block(&self, id: &str, calls: usize) -> (r: Option<&F>)
        requires
            self.well_formed(),
        ensures
            r is None <==> !(self.blocks().contains_key(id@) && calls < self.blocks()[id@].len()),
            r matches Some(f) ==> *f == self.blocks()[id@][calls as int],
    {
        match self.find(id) {
            None => None,
            Some(j) => {
                if calls < self.blocks[j].1.len() {
                    Some(&self.blocks[j].1[calls])
                } else {
                    None
                }
            },
        }
    }

    /// Stores `f` under the name of the innermost frame; `false` when there is
    /// no frame.
    pub fn put_block(&mut self, f: F) -> (r: bool)
        requires
            old(self).well_formed(),
        ensures
            final(self).well_formed(),
            final(self).frames() == old(self).frames(),
            r == (old(self).frames().len() > 0),
            !r ==> final(self).blocks() == old(self).blocks(),
            r ==> {
                let id = old(self).frames().last().0;
                final(self).blocks() == old(self).blocks().insert(
                    id,
                    if old(self).blocks().contains_key(id) {
                        old(self).blocks()[id].push(f)
                    } else {
                        seq![f]
                    },
                )
            },
    {
        let len = self.frames.len();
        if len == 0 {
            return false;
        }
        let ghost id = self.frames@[len - 1].id@;
        let ghost bs = self.blocks@;
        let ghost st = self.stored@;
        assert(self.frames()[len - 1].0 == id);
        let cur = self.frames[len - 1].id.clone();
        match self.find(cur.as_str()) {
            Some(j) => {
                let ghost v = bs[j as int].1@.push(f);
                self.blocks[j].1.push(f);
                self.stored = Ghost(st.insert(id, v));
                proof {
                    assert forall|k: int| 0 <= k < bs.len() && k != j implies self.blocks@[k] == bs[k]
                        && bs[k].0@ != id by {}
                    assert forall|s: Seq<char>|
                        #![trigger self.stored@.contains_key(s)]
                        self.stored@.contains_key(s) implies exists|k: int|
                            0 <= k < self.blocks.len() && #[trigger] self.blocks@[k].0@ == s by {
                        if s == id {
                            assert(self.blocks@[j as int].0@ == s);
                        } else {
                            let k = choose|k: int| 0 <= k < bs.len() && #[trigger] bs[k].0@ == s;
                            assert(self.blocks@[k].0@ == s);
                        }
                    }
                }
            },
            None => {
                let mut v: Vec<F> = Vec::new();
                v.push(f);
                self.blocks.push((cur, v));
                self.stored = Ghost(st.insert(id, seq![f]));
                proof {
                    assert(self.blocks@[bs.len() as int].1@ =~= seq![f]);
                    assert forall|k: int| 0 <= k < bs.len() implies self.blocks@[k] == bs[k]
                        && bs[k].0@ != id by {
                        assert(st.contains_key(bs[k].0@));
                    }
                    assert forall|s: Seq<char>|
                        #![trigger self.stored@.contains_key(s)]
                        self.stored@.contains_key(s) implies exists|k: int|
                            0 <= k < self.blocks.len() && #[trigger] self.blocks@[k].0@ == s by {
                        if s == id {
                            assert(self.blocks@[bs.len() as int].0@ == s);
                        } else {
                            let k = choose|k: int| 0 <= k < bs.len() && #[trigger] bs[k].0@ == s;
                            assert(self.blocks@[k].0@ == s);
                        }
                    }
                }
            },
        }
        true
    }
}

} // verus!
