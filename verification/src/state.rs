//! The persisted index state: which file was last indexed under which
//! signature, and the decision whether a file needs reindexing.

use vstd::prelude::*;

verus! {

/// Fingerprint of a file's on-disk state: modification time and size.
/// Change detection by signature cannot see same-signature rewrites; the
/// pair keeps false positives rare on ordinary filesystems.
#[derive(Clone, Copy, Debug, PartialEq, Eq, Structural, Hash)]
pub struct Signature {
    /// Modification time, Unix seconds.
    pub mtime: i64,
    /// File size in bytes.
    pub size: u64,
}

/// The signature recorded for `key` in an association list, scanning from the
/// most recently written entry.
pub open spec fn assoc(s: Seq<(Seq<char>, Signature)>, key: Seq<char>) -> Option<Signature>
    decreases s.len(),
{
    if s.len() == 0 {
        None
    } else if s.last().0 == key {
        Some(s.last().1)
    } else {
        assoc(s.drop_last(), key)
    }
}

/// In-memory map from absolute file path to the signature it carried when it
/// was last indexed successfully. Durable only once the caller persists the
/// entries; a crash before that merely causes a safe re-index on the next
/// run.
pub struct IndexState {
    entries: Vec<(String, Signature)>,
}

impl IndexState {
    /// The entries as an association sequence (unique keys).
    pub closed spec fn entries_view(&self) -> Seq<(Seq<char>, Signature)> {
        Seq::new(self.entries@.len(), |i: int| (self.entries@[i].0@, self.entries@[i].1))
    }

    /// Keys are pairwise distinct.
    pub closed spec fn wf(&self) -> bool {
        forall|i: int, j: int|
            0 <= i < j < self.entries_view().len() ==> #[trigger] self.entries_view()[i].0
                != #[trigger] self.entries_view()[j].0
    }

    /// The signature recorded for `path`, if any.
    pub open spec fn sig_of(&self, path: Seq<char>) -> Option<Signature> {
        assoc(self.entries_view(), path)
    }

    /// An empty state: nothing has been indexed. A missing state file loads
    /// as this.
    pub fn new() -> (r: IndexState)
        ensures
            r.wf(),
            forall|p: Seq<char>| r.sig_of(p) is None,
    {
        let r = IndexState { entries: Vec::new() };
        proof {
            assert(r.entries_view() =~= Seq::<(Seq<char>, Signature)>::empty());
            assert forall|p: Seq<char>| r.sig_of(p) is None by {
                assert(r.entries_view().len() == 0);
            }
        }
        r
    }

    /// Rebuilds a state from persisted entries; later entries win on a
    /// duplicated path.
    pub fn from_entries(entries: &Vec<(String, Signature)>) -> (r: IndexState)
        ensures
            r.wf(),
            forall|p: Seq<char>| #[trigger] r.sig_of(p) == assoc(
                Seq::new(entries@.len(), |i: int| (entries@[i].0@, entries@[i].1)),
                p,
            ),
    {
        let ghost goal = Seq::new(entries@.len(), |i: int| (entries@[i].0@, entries@[i].1));
        let mut r = IndexState::new();
        let mut i: usize = 0;
        proof {
            assert forall|p: Seq<char>| r.sig_of(p) == assoc(goal.take(0), p) by {
                assert(goal.take(0).len() == 0);
            }
        }
        while i < entries.len()
            invariant
                goal == Seq::new(entries@.len(), |k: int| (entries@[k].0@, entries@[k].1)),
                goal.len() == entries@.len(),
                i <= entries@.len(),
                r.wf(),
                forall|p: Seq<char>| #[trigger] r.sig_of(p) == assoc(goal.take(i as int), p),
            decreases entries@.len() - i,
        {
            let path = entries[i].0.clone();
            let sig = entries[i].1;
            r.mark_indexed(&path, sig);
            proof {
                assert forall|p: Seq<char>| #[trigger] r.sig_of(p) == assoc(
                    goal.take(i + 1),
                    p,
                ) by {
                    assert(goal.take(i + 1).drop_last() =~= goal.take(i as int));
                    assert(goal.take(i + 1).last() == goal[i as int]);
                }
            }
            i = i + 1;
        }
        proof {
            assert(goal.take(goal.len() as int) =~= goal);
        }
        r
    }

    /// Whether `path` (with current signature `sig`) must be reindexed: it is
    /// absent, or its recorded signature differs.
    pub fn needs_reindex(&self, path: &String, sig: Signature) -> (r: bool)
        requires
            self.wf(),
        ensures
            r == (self.sig_of(path@) != Some(sig)),
    {
        let ghost ev = self.entries_view();
        let mut i: usize = 0;
        while i < self.entries.len()
            invariant
                ev == self.entries_view(),
                ev.len() == self.entries@.len(),
                self.wf(),
                i <= self.entries@.len(),
                forall|j: int| 0 <= j < i ==> (#[trigger] ev[j]).0 != path@,
            decreases self.entries@.len() - i,
        {
            if self.entries[i].0 == *path {
                let found = self.entries[i].1;
                proof {
                    assert(ev[i as int].0 == path@);
                    lemma_assoc_found(ev, path@, i as int);
                }
                return !(found == sig);
            }
            i = i + 1;
        }
        proof {
            lemma_assoc_absent(ev, path@);
        }
        true
    }

    /// Records that `path` was just indexed with signature `sig`, in memory
    /// only: every other path keeps its recorded signature.
    pub fn mark_indexed(&mut self, path: &String, sig: Signature)
        requires
            old(self).wf(),
        ensures
            final(self).wf(),
            final(self).sig_of(path@) == Some(sig),
            forall|p: Seq<char>| p != path@ ==> #[trigger] final(self).sig_of(p) == old(
                self,
            ).sig_of(p),
    {
        let ghost ev0 = self.entries_view();
        let mut i: usize = 0;
        while i < self.entries.len()
            invariant
                ev0 == self.entries_view(),
                ev0 == old(self).entries_view(),
                ev0.len() == self.entries@.len(),
                self.wf(),
                i <= self.entries@.len(),
                forall|j: int| 0 <= j < i ==> (#[trigger] ev0[j]).0 != path@,
            decreases self.entries@.len() - i,
        {
            if self.entries[i].0 == *path {
                let p2 = path.clone();
                self.entries.set(i, (p2, sig));
                proof {
                    let ev = self.entries_view();
                    assert(ev =~= ev0.update(i as int, (path@, sig)));
                    lemma_assoc_update(ev0, ev, path@, sig, i as int);
                    assert(old(self).entries_view() == ev0);
                    assert forall|p: Seq<char>| p != path@ implies #[trigger] self.sig_of(p)
                        == old(self).sig_of(p) by {
                        assert(assoc(ev, p) == assoc(ev0, p));
                    }
                }
                return ;
            }
            i = i + 1;
        }
        let p2 = path.clone();
        self.entries.push((p2, sig));
        proof {
            let ev = self.entries_view();
            assert(ev =~= ev0.push((path@, sig)));
            assert(ev.drop_last() =~= ev0);
            assert forall|p: Seq<char>| p != path@ implies #[trigger] assoc(ev, p) == assoc(
                ev0,
                p,
            ) by {}
        }
    }

    /// The recorded entries, for persisting: the association sequence itself.
    pub fn to_entries(&self) -> (r: Vec<(String, Signature)>)
        ensures
            Seq::new(r@.len(), |i: int| (r@[i].0@, r@[i].1)) == self.entries_view(),
    {
        let mut out: Vec<(String, Signature)> = Vec::new();
        let mut i: usize = 0;
        while i < self.entries.len()
            invariant
                i <= self.entries@.len(),
                out@.len() == i,
                forall|j: int| 0 <= j < i ==> (#[trigger] out@[j]).0@ == self.entries@[j].0@
                    && out@[j].1 == self.entries@[j].1,
            decreases self.entries@.len() - i,
        {
            let p = self.entries[i].0.clone();
            let sig = self.entries[i].1;
            out.push((p, sig));
            i = i + 1;
        }
        proof {
            assert(Seq::new(out@.len(), |i: int| (out@[i].0@, out@[i].1))
                =~= self.entries_view());
        }
        out
    }
}

/// If `key` stands at position `i` of a well-formed association sequence,
/// lookup returns that entry's signature.
proof fn lemma_assoc_found(s: Seq<(Seq<char>, Signature)>, key: Seq<char>, i: int)
    requires
        0 <= i < s.len(),
        s[i].0 == key,
        forall|a: int, b: int| 0 <= a < b < s.len() ==> (#[trigger] s[a]).0 != (#[trigger] s[b]).0,
    ensures
        assoc(s, key) == Some(s[i].1),
    decreases s.len(),
{
    if i == s.len() - 1 {
    } else {
        assert(s[i].0 != s[s.len() - 1].0);
        lemma_assoc_found(s.drop_last(), key, i);
    }
}

/// If no entry carries `key`, lookup returns nothing.
proof fn lemma_assoc_absent(s: Seq<(Seq<char>, Signature)>, key: Seq<char>)
    requires
        forall|j: int| 0 <= j < s.len() ==> (#[trigger] s[j]).0 != key,
    ensures
        assoc(s, key) is None,
    decreases s.len(),
{
    if s.len() > 0 {
        lemma_assoc_absent(s.drop_last(), key);
    }
}

/// Updating the entry that holds `key` in place changes that key's lookup and
/// no other.
proof fn lemma_assoc_update(
    s0: Seq<(Seq<char>, Signature)>,
    s: Seq<(Seq<char>, Signature)>,
    key: Seq<char>,
    sig: Signature,
    i: int,
)
    requires
        0 <= i < s0.len(),
        s0[i].0 == key,
        forall|a: int, b: int| 0 <= a < b < s0.len() ==> (#[trigger] s0[a]).0 != (#[trigger] s0[b]).0,
        s == s0.update(i, (key, sig)),
    ensures
        forall|a: int, b: int| 0 <= a < b < s.len() ==> (#[trigger] s[a]).0 != (#[trigger] s[b]).0,
        assoc(s, key) == Some(sig),
        forall|p: Seq<char>| p != key ==> #[trigger] assoc(s, p) == assoc(s0, p),
    decreases s0.len(),
{
    assert forall|a: int, b: int| 0 <= a < b < s.len() implies (#[trigger] s[a]).0
        != (#[trigger] s[b]).0 by {
        assert(s0[a].0 != s0[b].0);
    }
    lemma_assoc_found(s, key, i);
    assert forall|p: Seq<char>| p != key implies #[trigger] assoc(s, p) == assoc(s0, p) by {
        lemma_assoc_same_others(s0, s, key, sig, i, p);
    }
}

/// Helper for [`lemma_assoc_update`]: lookups of other keys are untouched.
proof fn lemma_assoc_same_others(
    s0: Seq<(Seq<char>, Signature)>,
    s: Seq<(Seq<char>, Signature)>,
    key: Seq<char>,
    sig: Signature,
    i: int,
    p: Seq<char>,
)
    requires
        0 <= i < s0.len(),
        s0[i].0 == key,
        s == s0.update(i, (key, sig)),
        p != key,
    ensures
        assoc(s, p) == assoc(s0, p),
    decreases s0.len(),
{
    if s0.len() == 0 {
    } else if i == s0.len() - 1 {
        assert(s.drop_last() =~= s0.drop_last());
    } else {
        assert(s.last() == s0.last());
        assert(s.drop_last() =~= s0.drop_last().update(i, (key, sig)));
        lemma_assoc_same_others(s0.drop_last(), s.drop_last(), key, sig, i, p);
    }
}

} // verus!
