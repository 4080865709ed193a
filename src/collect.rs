use crate::entry::{entries_view, Entry, EntryView};
use crate::ignore::{is_ignored, names_contain};
use crate::render::is_depth_first;
use vstd::prelude::*;

verus! {

/// Whether `e` lies beneath the ignored directory at depth `skip`, if any.
pub open spec fn beneath(skip: Option<nat>, e: EntryView) -> bool {
    match skip {
        Some(d) => e.depth > d,
        None => false,
    }
}

/// The depth of the ignored entry whose subtree the walk is inside after its
/// first `n` entries, if it is inside one.
pub open spec fn skip_state(walk: Seq<EntryView>, ignore: Seq<String>, n: nat) -> Option<nat>
    decreases n,
{
    if n == 0 || n > walk.len() {
        None
    } else {
        let s = skip_state(walk, ignore, (n - 1) as nat);
        let e = walk[n - 1];
        if beneath(s, e) {
            s
        } else if names_contain(ignore, e.name) {
            Some(e.depth)
        } else {
            None
        }
    }
}

/// Whether the entry at position `i` of a walk is left out: its name is
/// ignored, or it lies beneath an entry that was left out for its name.
pub open spec fn dropped(walk: Seq<EntryView>, ignore: Seq<String>, i: int) -> bool {
    beneath(skip_state(walk, ignore, i as nat), walk[i]) || names_contain(ignore, walk[i].name)
}

/// The entries among the first `n` of a walk that are not left out, in walk
/// order.
pub open spec fn kept(walk: Seq<EntryView>, ignore: Seq<String>, n: nat) -> Seq<EntryView>
    decreases n,
{
    if n == 0 || n > walk.len() {
        Seq::empty()
    } else if dropped(walk, ignore, n - 1) {
        kept(walk, ignore, (n - 1) as nat)
    } else {
        kept(walk, ignore, (n - 1) as nat).push(walk[n - 1])
    }
}

/// Whether position `j` of a walk lies beneath position `i`: every entry from
/// just after `i` up to `j` is deeper than the one at `i`.
pub open spec fn descends(walk: Seq<EntryView>, i: int, j: int) -> bool {
    &&& i < j
    &&& forall|k: int| i < k <= j ==> #[trigger] walk[k].depth > walk[i].depth
}

proof fn lemma_skip_within(walk: Seq<EntryView>, ignore: Seq<String>, i: int, m: int)
    requires
        0 <= i < m <= walk.len(),
        names_contain(ignore, walk[i].name),
        forall|k: int| i < k < m ==> #[trigger] walk[k].depth > walk[i].depth,
    ensures
        skip_state(walk, ignore, m as nat) matches Some(s) && s <= walk[i].depth,
    decreases m - i,
{
    if m > i + 1 {
        lemma_skip_within(walk, ignore, i, m - 1);
        assert(walk[m - 1].depth > walk[i].depth);
    }
}

/// Pruning is transitive: an entry whose name is ignored is left out, and so
/// is every entry that the walk reaches beneath it.
pub proof fn lemma_ignored_subtree_dropped(walk: Seq<EntryView>, ignore: Seq<String>, i: int, j: int)
    requires
        0 <= i < walk.len(),
        names_contain(ignore, walk[i].name),
        j == i || (descends(walk, i, j) && j < walk.len()),
    ensures
        dropped(walk, ignore, i),
        dropped(walk, ignore, j),
{
    if j != i {
        lemma_skip_within(walk, ignore, i, j);
        assert(walk[j].depth > walk[i].depth);
    }
}

/// No entry that is kept has an ignored name.
pub proof fn lemma_kept_not_ignored(walk: Seq<EntryView>, ignore: Seq<String>, n: nat)
    ensures
        forall|x: int| 0 <= x < kept(walk, ignore, n).len() ==> !names_contain(
            ignore,
            #[trigger] kept(walk, ignore, n)[x].name,
        ),
    decreases n,
{
    if n > 0 && n <= walk.len() {
        lemma_kept_not_ignored(walk, ignore, (n - 1) as nat);
        let prev = kept(walk, ignore, (n - 1) as nat);
        if !dropped(walk, ignore, n - 1) {
            assert forall|x: int| 0 <= x < kept(walk, ignore, n).len() implies !names_contain(
                ignore,
                #[trigger] kept(walk, ignore, n)[x].name,
            ) by {
                if x < prev.len() {
                    assert(kept(walk, ignore, n)[x] == prev[x]);
                }
            }
        }
    }
}

/// The depth of the last entry of a listing, or 0 (the root's) if it is empty.
pub open spec fn last_depth(es: Seq<EntryView>) -> nat {
    if es.len() == 0 {
        0
    } else {
        es.last().depth
    }
}

proof fn lemma_push_depth_first(es: Seq<EntryView>, e: EntryView)
    requires
        is_depth_first(es),
        1 <= e.depth <= last_depth(es) + 1,
    ensures
        is_depth_first(es.push(e)),
{
    let t = es.push(e);
    assert forall|i: int| 0 < i < t.len() implies #[trigger] t[i].depth <= t[i - 1].depth + 1 by {
        if i < es.len() {
            assert(t[i] == es[i] && t[i - 1] == es[i - 1]);
        } else {
            assert(t[i - 1] == es.last());
        }
    }
    assert forall|i: int| 0 <= i < t.len() implies #[trigger] t[i].depth >= 1 by {
        if i < es.len() {
            assert(t[i] == es[i]);
        }
    }
}

proof fn lemma_kept_depth_first_upto(walk: Seq<EntryView>, ignore: Seq<String>, n: nat)
    requires
        is_depth_first(walk),
        n <= walk.len(),
    ensures
        is_depth_first(kept(walk, ignore, n)),
        n > 0 ==> match skip_state(walk, ignore, n) {
            Some(s) => s <= last_depth(kept(walk, ignore, n)) + 1 && walk[n - 1].depth >= s,
            None => walk[n - 1].depth == last_depth(kept(walk, ignore, n)),
        },
    decreases n,
{
    if n > 0 {
        let m = (n - 1) as nat;
        lemma_kept_depth_first_upto(walk, ignore, m);
        let e = walk[m as int];
        let d = last_depth(kept(walk, ignore, m));
        assert(e.depth >= 1);
        if m == 0 {
            assert(e.depth == 1);
        } else {
            assert(e.depth <= walk[m - 1].depth + 1);
        }
        let s = skip_state(walk, ignore, m);
        if !beneath(s, e) {
            assert(e.depth <= d + 1);
        }
        if !dropped(walk, ignore, m as int) {
            lemma_push_depth_first(kept(walk, ignore, m), e);
        }
    } else {
        assert(kept(walk, ignore, 0) =~= Seq::<EntryView>::empty());
    }
}

/// Pruning takes out whole subtrees, so what is kept of a depth-first listing
/// is again a depth-first listing.
pub proof fn lemma_kept_depth_first(walk: Seq<EntryView>, ignore: Seq<String>)
    requires
        is_depth_first(walk),
    ensures
        is_depth_first(kept(walk, ignore, walk.len())),
{
    lemma_kept_depth_first_upto(walk, ignore, walk.len());
}

/// Gathers the entries of a depth-first walk, leaving out those whose name is
/// ignored and everything beneath them.
///
/// The walker asks [`TreeCollector::offer`] about each entry as it meets it;
/// where a directory is refused, the walker need not descend into it.
pub struct TreeCollector {
    ignore: Vec<String>,
    entries: Vec<Entry>,
    skip: Option<usize>,
    walked: Ghost<Seq<EntryView>>,
}

impl TreeCollector {
    /// The entries offered so far.
    pub closed spec fn walk(&self) -> Seq<EntryView> {
        self.walked@
    }

    /// The names to leave out.
    pub closed spec fn ignore_names(&self) -> Seq<String> {
        self.ignore@
    }

    /// The entries kept so far.
    pub closed spec fn kept_entries(&self) -> Seq<EntryView> {
        entries_view(self.entries@)
    }

    pub closed spec fn inv(&self) -> bool {
        &&& entries_view(self.entries@) == kept(self.walked@, self.ignore@, self.walked@.len())
        &&& self.skip matches Some(d) ==> skip_state(self.walked@, self.ignore@, self.walked@.len())
            == Some(d as nat)
        &&& self.skip is None ==> skip_state(self.walked@, self.ignore@, self.walked@.len()) is None
    }

    pub fn new(ignore: Vec<String>) -> (r: TreeCollector)
        ensures
            r.inv(),
            r.walk() == Seq::<EntryView>::empty(),
            r.ignore_names() == ignore@,
            r.kept_entries() == Seq::<EntryView>::empty(),
    {
        let r = TreeCollector { ignore, entries: Vec::new(), skip: None, walked: Ghost(Seq::empty()) };
        assert(entries_view(r.entries@) =~= Seq::<EntryView>::empty());
        r
    }

    /// Takes the next entry of the walk; returns whether it was kept.
    pub fn offer(&mut self, entry: Entry) -> (r: bool)
        requires
            old(self).inv(),
        ensures
            final(self).inv(),
            final(self).ignore_names() == old(self).ignore_names(),
            final(self).walk() == old(self).walk().push(entry@),
            r == !dropped(final(self).walk(), final(self).ignore_names(), old(self).walk().len() as int),
            final(self).kept_entries() == kept(
                final(self).walk(),
                final(self).ignore_names(),
                final(self).walk().len(),
            ),
    {
        let ghost w0 = self.walked@;
        let ghost w1 = w0.push(entry@);
        let ghost ig = self.ignore@;
        proof {
            assert forall|n: nat| n <= w0.len() implies skip_state(w1, ig, n) == skip_state(w0, ig, n)
                && kept(w1, ig, n) == kept(w0, ig, n) by {
                lemma_walk_extended(w0, entry@, ig, n);
            }
            assert(w1[w0.len() as int] == entry@);
        }
        let below = match self.skip {
            Some(d) => entry.depth > d,
            None => false,
        };
        let keep;
        if below {
            keep = false;
        } else if is_ignored(&entry.name, &self.ignore) {
            self.skip = Some(entry.depth);
            keep = false;
        } else {
            self.skip = None;
            keep = true;
        }
        if keep {
            self.entries.push(entry);
            proof {
                assert(entries_view(self.entries@) =~= kept(w1, ig, w1.len()));
            }
        }
        self.walked = Ghost(w1);
        keep
    }

    /// The entries kept so far, in walk order.
    pub fn entries(&self) -> (r: &Vec<Entry>)
        ensures
            entries_view(r@) == self.kept_entries(),
    {
        &self.entries
    }

    /// Ends the walk, handing over the entries kept.
    pub fn into_entries(self) -> (r: Vec<Entry>)
        ensures
            entries_view(r@) == self.kept_entries(),
    {
        self.entries
    }
}

proof fn lemma_walk_extended(w: Seq<EntryView>, e: EntryView, ignore: Seq<String>, n: nat)
    requires
        n <= w.len(),
    ensures
        skip_state(w.push(e), ignore, n) == skip_state(w, ignore, n),
        kept(w.push(e), ignore, n) == kept(w, ignore, n),
    decreases n,
{
    if n > 0 {
        lemma_walk_extended(w, e, ignore, (n - 1) as nat);
        assert(w.push(e)[n - 1] == w[n - 1]);
    }
}

} // verus!
