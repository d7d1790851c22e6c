//! Splitting a typed path into the directory to complete in and the partial
//! name to complete.

use vstd::prelude::*;

verus! {

/// The index of the last `/` in `cs`, or -1.
pub open spec fn last_sep(cs: Seq<char>) -> int
    decreases cs.len(),
{
    if cs.len() == 0 {
        -1
    } else if cs.last() == '/' {
        cs.len() - 1
    } else {
        last_sep(cs.drop_last())
    }
}

/// The split of `cs` typed in working directory `cwd`: `None` for a lone
/// `~`; otherwise the part before the last `/` (the root itself when that is
/// the first character, the working directory when there is no `/`) and the
/// part after it.
pub open spec fn split_spec(cs: Seq<char>, cwd: Seq<char>) -> Option<(Seq<char>, Seq<char>)> {
    if cs == seq!['~'] {
        None
    } else {
        let i = last_sep(cs);
        if i < 0 {
            Some((cwd, cs))
        } else if i == 0 {
            Some((seq!['/'], cs.subrange(1, cs.len() as int)))
        } else {
            Some((cs.subrange(0, i), cs.subrange(i + 1, cs.len() as int)))
        }
    }
}

proof fn lemma_last_sep(cs: Seq<char>)
    ensures
        -1 <= last_sep(cs) < cs.len(),
        last_sep(cs) >= 0 ==> cs[last_sep(cs)] == '/',
        forall|j: int| last_sep(cs) < j < cs.len() ==> cs[j] != '/',
    decreases cs.len(),
{
    if cs.len() > 0 && cs.last() != '/' {
        let d = cs.drop_last();
        lemma_last_sep(d);
        assert forall|j: int| last_sep(cs) < j < cs.len() implies cs[j] != '/' by {
            if j < cs.len() - 1 {
                assert(cs[j] == d[j]);
            }
        }
        if last_sep(cs) >= 0 {
            assert(cs[last_sep(cs)] == d[last_sep(d)]);
        }
    }
}

/// The completion trigger.
pub struct Trigger;

impl Trigger {
    /// Takes the ticket of an incoming request: `false` when it is older than
    /// the current one and the request is to be dropped; otherwise the
    /// incoming ticket, if any, becomes current.
    pub fn accept_ticket(current: &mut u64, incoming: Option<u64>) -> (r: bool)
        ensures
            r == match incoming {
                Some(t) => t >= *old(current),
                None => true,
            },
            *final(current) == match incoming {
                Some(t) => if t >= *old(current) {
                    t
                } else {
                    *old(current)
                },
                None => *old(current),
            },
    {
        if let Some(t) = incoming {
            if t < *current {
                return false;
            }
            *current = t;
        }
        true
    }

    /// Splits `s` at its last `/` into a parent and a partial name; a word
    /// without `/` completes in the working directory `cwd`.
    pub fn split_path(s: &str, cwd: &str) -> (r: Option<(String, String)>)
        ensures
            r is None <==> split_spec(s@, cwd@) is None,
            r matches Some((p, c)) ==> split_spec(s@, cwd@) == Some((p@, c@)),
    {
        let n = s.unicode_len();
        if n == 1 && s.get_char(0) == '~' {
            assert(s@ =~= seq!['~']);
            return None;
        }
        proof {
            if s@ == seq!['~'] {
                assert(s@[0] == '~');
            }
            lemma_last_sep(s@);
        }
        let mut i: usize = n;
        let mut found = false;
        while i > 0 && !found
            invariant
                i <= n == s@.len(),
                found ==> i > 0 && s@[i - 1] == '/',
                forall|j: int| i <= j < n ==> s@[j] != '/',
            decreases i + if found {
                0int
            } else {
                1int
            },
        {
            if s.get_char(i - 1) == '/' {
                found = true;
            } else {
                i -= 1;
            }
        }
        if !found {
            proof {
                if last_sep(s@) >= 0 {
                    assert(s@[last_sep(s@)] == '/');
                }
            }
            return Some((cwd.to_owned(), s.to_owned()));
        }
        let sep = i - 1;
        proof {
            assert(s@[sep as int] == '/');
            assert(last_sep(s@) == sep) by {
                if last_sep(s@) < sep {
                } else if last_sep(s@) > sep {
                    assert(s@[last_sep(s@)] == '/');
                }
            }
        }
        let child = s.substring_char(sep + 1, n).to_owned();
        if sep == 0 {
            let root = "/".to_owned();
            proof {
                reveal_strlit("/");
                assert(root@ =~= seq!['/']);
            }
            Some((root, child))
        } else {
            Some((s.substring_char(0, sep).to_owned(), child))
        }
    }
}

} // verus!
