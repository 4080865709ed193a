use crate::entry::{entries_view, Entry, EntryView};
use std::collections::HashMap;
use vstd::prelude::*;

verus! {

broadcast use vstd::std_specs::hash::group_hash_axioms;

/// Whether some entry after position `i` lies at depth `k`.
pub open spec fn has_later(es: Seq<EntryView>, i: int, k: nat) -> bool {
    exists|j: int| i < j < es.len() && #[trigger] es[j].depth == k
}

/// The indent block drawn for depth `k` on the line of entry `i`: a bar while
/// that level still has entries to come, blank once it is done.
pub open spec fn block(es: Seq<EntryView>, i: int, k: nat) -> Seq<char> {
    if has_later(es, i, k) {
        "│   "@
    } else {
        "    "@
    }
}

/// The blocks for depths `1 .. n` on the line of entry `i`.
pub open spec fn prefix(es: Seq<EntryView>, i: int, n: nat) -> Seq<char>
    decreases n,
{
    if n <= 1 {
        Seq::empty()
    } else {
        prefix(es, i, (n - 1) as nat) + block(es, i, (n - 1) as nat)
    }
}

/// Whether entry `i` is the last one at its own depth.
pub open spec fn is_last_at_depth(es: Seq<EntryView>, i: int) -> bool {
    !has_later(es, i, es[i].depth)
}

/// The branch glyph of entry `i`: the closing corner for the last entry at its
/// depth, the tee otherwise.
pub open spec fn connector(es: Seq<EntryView>, i: int) -> Seq<char> {
    if is_last_at_depth(es, i) {
        "└── "@
    } else {
        "├── "@
    }
}

/// The type marker: a folder for a directory, a page for anything else.
pub open spec fn marker(e: EntryView) -> Seq<char> {
    if e.is_dir {
        "📁"@
    } else {
        "📄"@
    }
}

/// The line that shows entry `i`.
pub open spec fn line(es: Seq<EntryView>, i: int) -> Seq<char> {
    prefix(es, i, es[i].depth) + connector(es, i) + marker(es[i]) + " "@ + es[i].name + "\n"@
}

/// The first line, naming the root.
pub open spec fn header(label: Seq<char>) -> Seq<char> {
    "🗂️ "@ + label + "/\n"@
}

/// The lines of the first `n` entries.
pub open spec fn body(es: Seq<EntryView>, n: nat) -> Seq<char>
    decreases n,
{
    if n == 0 {
        Seq::empty()
    } else {
        body(es, (n - 1) as nat) + line(es, n - 1)
    }
}

/// The whole diagram: the header, then one line per entry in the given order.
pub open spec fn tree_text(label: Seq<char>, es: Seq<EntryView>) -> Seq<char> {
    header(label) + body(es, es.len())
}

/// Whether a sequence of entries is a depth-first listing: it starts at depth
/// 1, and each entry is at most one level deeper than the one before it.
pub open spec fn is_depth_first(es: Seq<EntryView>) -> bool {
    &&& es.len() > 0 ==> es[0].depth == 1
    &&& forall|i: int| 0 <= i < es.len() ==> #[trigger] es[i].depth >= 1
    &&& forall|i: int| 0 < i < es.len() ==> #[trigger] es[i].depth <= es[i - 1].depth + 1
}

/// Whether position `a` holds the ancestor at depth `k` of entry `i`: the
/// entry at depth `k` under which everything from `a` up to `i` lies.
pub open spec fn is_ancestor_at(es: Seq<EntryView>, i: int, k: nat, a: int) -> bool {
    &&& 0 <= a < i < es.len()
    &&& es[a].depth == k
    &&& forall|j: int| a < j <= i ==> #[trigger] es[j].depth > k
}

/// In a depth-first listing every entry has an ancestor at each depth above
/// its own.
pub proof fn lemma_ancestor_exists(es: Seq<EntryView>, i: int, k: nat)
    requires
        is_depth_first(es),
        0 <= i < es.len(),
        1 <= k < es[i].depth,
    ensures
        exists|a: int| #[trigger] is_ancestor_at(es, i, k, a),
    decreases i,
{
    assert(es[i].depth <= es[i - 1].depth + 1) by {
        if i == 0 {
            assert(es[0].depth == 1);
        }
    }
    if es[i - 1].depth == k {
        assert(is_ancestor_at(es, i, k, i - 1));
    } else {
        lemma_ancestor_exists(es, i - 1, k);
        let a = choose|a: int| #[trigger] is_ancestor_at(es, i - 1, k, a);
        assert(is_ancestor_at(es, i, k, a));
    }
}

/// The blank-or-bar choice for depth `k` on the line of entry `i` is the
/// same as asking whether the ancestor of `i` at that depth is the last entry
/// at depth `k`.
pub proof fn lemma_block_follows_ancestor(es: Seq<EntryView>, i: int, k: nat, a: int)
    requires
        is_ancestor_at(es, i, k, a),
    ensures
        has_later(es, i, k) <==> !is_last_at_depth(es, a),
        block(es, i, k) == (if is_last_at_depth(es, a) { "    "@ } else { "│   "@ }),
{
    if has_later(es, a, k) {
        let j = choose|j: int| a < j < es.len() && #[trigger] es[j].depth == k;
        if j <= i {
            assert(es[j].depth > k);
        }
    }
}

/// Each entry shows exactly one of the two type markers, and it is the one of
/// its own kind: the folder for a directory, the page for anything else.
pub proof fn lemma_marker_matches_kind(es: Seq<EntryView>, i: int)
    requires
        0 <= i < es.len(),
    ensures
        line(es, i) == prefix(es, i, es[i].depth) + connector(es, i) + marker(es[i]) + " "@
            + es[i].name + "\n"@,
        (marker(es[i]) == "📁"@) <==> es[i].is_dir,
        (marker(es[i]) == "📄"@) <==> !es[i].is_dir,
{
    reveal_strlit("📁");
    reveal_strlit("📄");
    assert("📁"@[0] != "📄"@[0]);
}

proof fn lemma_last_exists(es: Seq<EntryView>, i: int)
    requires
        0 <= i < es.len(),
    ensures
        exists|m: int| i <= m < es.len() && #[trigger] es[m].depth == es[i].depth && is_last_at_depth(es, m),
    decreases es.len() - i,
{
    if has_later(es, i, es[i].depth) {
        let j = choose|j: int| i < j < es.len() && #[trigger] es[j].depth == es[i].depth;
        lemma_last_exists(es, j);
    } else {
        assert(es[i].depth == es[i].depth);
    }
}

/// At every depth that occurs, exactly one entry bears the last-branch
/// connector, and it is the last entry at that depth in walk order; every
/// other entry bears the mid-branch connector.
pub proof fn lemma_one_last_per_depth(es: Seq<EntryView>, k: nat)
    ensures
        forall|i: int| 0 <= i < es.len() ==> (#[trigger] connector(es, i) == "└── "@ <==> is_last_at_depth(es, i)),
        forall|i: int| 0 <= i < es.len() ==> (connector(es, i) == "├── "@ <==> !is_last_at_depth(es, i)),
        (exists|j: int| 0 <= j < es.len() && es[j].depth == k) ==> exists|i: int|
            0 <= i < es.len() && es[i].depth == k && #[trigger] is_last_at_depth(es, i),
        forall|i1: int, i2: int|
            0 <= i1 < es.len() && 0 <= i2 < es.len() && es[i1].depth == k && es[i2].depth == k
                && #[trigger] is_last_at_depth(es, i1) && #[trigger] is_last_at_depth(es, i2) ==> i1 == i2,
        forall|i: int|
            0 <= i < es.len() && #[trigger] is_last_at_depth(es, i) ==> forall|j: int|
                i < j < es.len() ==> #[trigger] es[j].depth != es[i].depth,
{
    reveal_strlit("└── ");
    reveal_strlit("├── ");
    assert("└── "@[0] != "├── "@[0]);
    if exists|j: int| 0 <= j < es.len() && es[j].depth == k {
        let j = choose|j: int| 0 <= j < es.len() && es[j].depth == k;
        lemma_last_exists(es, j);
    }
    assert forall|i1: int, i2: int|
        0 <= i1 < es.len() && 0 <= i2 < es.len() && es[i1].depth == k && es[i2].depth == k
            && #[trigger] is_last_at_depth(es, i1) && #[trigger] is_last_at_depth(es, i2) implies i1 == i2 by {
        if i1 < i2 {
            assert(es[i2].depth == es[i1].depth);
        } else if i2 < i1 {
            assert(es[i1].depth == es[i2].depth);
        }
    }
    assert forall|i: int|
        0 <= i < es.len() && #[trigger] is_last_at_depth(es, i) implies forall|j: int|
            i < j < es.len() ==> #[trigger] es[j].depth != es[i].depth by {
        assert forall|j: int| i < j < es.len() implies #[trigger] es[j].depth != es[i].depth by {
            if es[j].depth == es[i].depth {
                assert(has_later(es, i, es[i].depth));
            }
        }
    }
}

/// A root with no entries is drawn as its header line alone.
pub proof fn lemma_empty_tree(label: Seq<char>)
    ensures
        tree_text(label, Seq::<EntryView>::empty()) == header(label),
{
    assert(body(Seq::<EntryView>::empty(), 0) == Seq::<char>::empty());
    assert(header(label) + Seq::<char>::empty() =~= header(label));
}

/// Drawing the same root and the same entries twice gives the same text.
pub proof fn lemma_render_repeatable(label: Seq<char>, es1: Seq<EntryView>, es2: Seq<EntryView>)
    requires
        es1 == es2,
    ensures
        tree_text(label, es1) == tree_text(label, es2),
{
}

/// What a map from depth to position says when it records, for each depth
/// that occurs, the position of the last entry at that depth.
pub open spec fn is_last_at_depth_map(es: Seq<EntryView>, m: Map<usize, usize>) -> bool {
    &&& forall|k: usize| #[trigger]
        m.contains_key(k) <==> exists|j: int| 0 <= j < es.len() && es[j].depth == k as nat
    &&& forall|k: usize| #[trigger]
        m.contains_key(k) ==> {
            &&& m[k] < es.len()
            &&& es[m[k] as int].depth == k as nat
            &&& !has_later(es, m[k] as int, k as nat)
        }
}

/// For each depth present, the position of the last entry at that depth.
pub fn last_at_depth(entries: &Vec<Entry>) -> (m: HashMap<usize, usize>)
    ensures
        is_last_at_depth_map(entries_view(entries@), m@),
{
    let ghost es = entries_view(entries@);
    let mut m: HashMap<usize, usize> = HashMap::new();
    let mut i: usize = 0;
    while i < entries.len()
        invariant
            0 <= i <= entries.len(),
            es == entries_view(entries@),
            forall|k: usize| #[trigger]
                m@.contains_key(k) <==> exists|j: int| 0 <= j < i && es[j].depth == k as nat,
            forall|k: usize| #[trigger]
                m@.contains_key(k) ==> {
                    &&& m@[k] < i
                    &&& es[m@[k] as int].depth == k as nat
                    &&& forall|j: int| m@[k] < j < i ==> #[trigger] es[j].depth != k as nat
                },
        decreases entries.len() - i,
    {
        let d = entries[i].depth;
        m.insert(d, i);
        proof {
            assert forall|k: usize| #[trigger]
                m@.contains_key(k) <==> exists|j: int| 0 <= j < i + 1 && es[j].depth == k as nat by {
                if k == d {
                    assert(es[i as int].depth == k as nat);
                }
            }
        }
        i = i + 1;
    }
    proof {
        assert forall|k: usize| #[trigger] m@.contains_key(k) implies !has_later(
            es,
            m@[k] as int,
            k as nat,
        ) by {
            if has_later(es, m@[k] as int, k as nat) {
                let j = choose|j: int| m@[k] < j < es.len() && #[trigger] es[j].depth == k as nat;
                assert(es[j].depth != k as nat);
            }
        }
    }
    m
}

/// Whether some entry after position `i` lies at depth `k`, read off the map
/// of last positions.
fn continues_after(m: &HashMap<usize, usize>, i: usize, k: usize, Ghost(es): Ghost<Seq<EntryView>>) -> (r: bool)
    requires
        is_last_at_depth_map(es, m@),
        i < es.len(),
    ensures
        r == has_later(es, i as int, k as nat),
{
    match m.get(&k) {
        Some(l) => {
            if *l > i {
                assert(es[*l as int].depth == k as nat);
                true
            } else {
                proof {
                    if has_later(es, i as int, k as nat) {
                        let j = choose|j: int| i < j < es.len() && #[trigger] es[j].depth == k as nat;
                        assert(es[j].depth == k as nat);
                    }
                }
                false
            }
        },
        None => {
            proof {
                if has_later(es, i as int, k as nat) {
                    let j = choose|j: int| i < j < es.len() && #[trigger] es[j].depth == k as nat;
                    assert(es[j].depth == k as nat);
                    assert(m@.contains_key(k));
                }
            }
            false
        },
    }
}

/// Appends the line of entry `i` to `out`.
fn push_line(
    out: &mut String,
    entries: &Vec<Entry>,
    last: &HashMap<usize, usize>,
    i: usize,
    Ghost(es): Ghost<Seq<EntryView>>,
)
    requires
        i < entries.len(),
        es == entries_view(entries@),
        is_last_at_depth_map(es, last@),
    ensures
        final(out)@ == old(out)@ + line(es, i as int),
{
    let e = &entries[i];
    let ghost before = out@;
    let mut k: usize = 1;
    while k < e.depth
        invariant
            1 <= k,
            k <= e.depth || k == 1,
            i < entries.len(),
            e == entries@[i as int],
            es == entries_view(entries@),
            is_last_at_depth_map(es, last@),
            out@ == before + prefix(es, i as int, k as nat),
        decreases e.depth - k,
    {
        if continues_after(last, i, k, Ghost(es)) {
            out.append("│   ");
        } else {
            out.append("    ");
        }
        k = k + 1;
    }
    let ghost pre = out@;
    assert(prefix(es, i as int, k as nat) == prefix(es, i as int, es[i as int].depth));
    if continues_after(last, i, e.depth, Ghost(es)) {
        out.append("├── ");
    } else {
        out.append("└── ");
    }
    if e.is_dir {
        out.append("📁");
    } else {
        out.append("📄");
    }
    out.append(" ");
    out.append(e.name.as_str());
    out.append("\n");
    assert(out@ =~= before + line(es, i as int));
}

/// Draws the tree of `entries`, in the order given, under a header naming
/// `label`.
pub fn render_lines(label: &str, entries: &Vec<Entry>) -> (r: String)
    ensures
        r@ == tree_text(label@, entries_view(entries@)),
{
    let ghost es = entries_view(entries@);
    let last = last_at_depth(entries);
    let mut out = String::new();
    out.append("🗂️ ");
    out.append(label);
    out.append("/\n");
    assert(out@ =~= header(label@) + body(es, 0));
    let mut i: usize = 0;
    while i < entries.len()
        invariant
            0 <= i <= entries.len(),
            es == entries_view(entries@),
            is_last_at_depth_map(es, last@),
            out@ == header(label@) + body(es, i as nat),
        decreases entries.len() - i,
    {
        push_line(&mut out, entries, &last, i, Ghost(es));
        assert(out@ =~= header(label@) + body(es, (i + 1) as nat));
        i = i + 1;
    }
    out
}

} // verus!
