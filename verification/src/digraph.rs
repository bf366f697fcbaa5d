//! The directed multigraph of clip-group labels, and the random walk over it
//! that supplies the playback sequence.
//!
//! Labels are assigned integer identifiers in first-seen order, with "start"
//! pre-registered as node 0.  Each node owns an ordered list of outgoing
//! arrows; an arrow carries its target node and the candidate clips sharing
//! that (tail, head) pair.  Finalization groups the collected arrows under
//! their tail nodes and, if "start" ended up with no way out, synthesizes one
//! bare arrow from it to every other node.

use vstd::prelude::*;
use vstd::seq_lib::*;
use crate::rng::rand_index;

verus! {

/// One outgoing arrow: the node it points to and the candidate clip handles
/// that realize the transition.  The candidate list may be empty.
pub struct Arrow {
    /// The node this arrow leads to.
    pub target: usize,
    /// The clip handles that realize this transition.
    pub clips: Vec<String>,
}

/// The contents of a candidate clip list.
pub open spec fn clips_view(clips: Vec<String>) -> Seq<Seq<char>> {
    clips@.map_values(|c: String| c@)
}

/// The index of the first occurrence of `l` in `ls`, or `ls.len()` when `l`
/// does not occur.
pub open spec fn label_index(ls: Seq<Seq<char>>, l: Seq<char>) -> int
    decreases ls.len(),
{
    if ls.len() == 0 {
        0
    } else if ls.first() == l {
        0
    } else {
        1 + label_index(ls.drop_first(), l)
    }
}

proof fn lemma_label_index(ls: Seq<Seq<char>>, l: Seq<char>)
    ensures
        0 <= label_index(ls, l) <= ls.len(),
        label_index(ls, l) < ls.len() ==> ls[label_index(ls, l)] == l,
        forall|k: int| 0 <= k < label_index(ls, l) ==> (#[trigger] ls[k]) != l,
    decreases ls.len(),
{
    if ls.len() > 0 && ls.first() != l {
        lemma_label_index(ls.drop_first(), l);
        assert forall|k: int| 0 <= k < label_index(ls, l) implies (#[trigger] ls[k]) != l by {
            if k > 0 {
                assert(ls.drop_first()[k - 1] != l);
            }
        }
    }
}

/// The index of the entry with key `(t, h)` in `es`, or `es.len()` when no
/// entry has that key.
pub open spec fn entry_index(es: Seq<(usize, usize, Vec<String>)>, t: usize, h: usize) -> int
    decreases es.len(),
{
    if es.len() == 0 {
        0
    } else if es.first().0 == t && es.first().1 == h {
        0
    } else {
        1 + entry_index(es.drop_first(), t, h)
    }
}

proof fn lemma_entry_index(es: Seq<(usize, usize, Vec<String>)>, t: usize, h: usize)
    ensures
        0 <= entry_index(es, t, h) <= es.len(),
        entry_index(es, t, h) < es.len() ==> es[entry_index(es, t, h)].0 == t && es[entry_index(
            es,
            t,
            h,
        )].1 == h,
        forall|k: int|
            0 <= k < entry_index(es, t, h) ==> !((#[trigger] es[k]).0 == t && es[k].1 == h),
    decreases es.len(),
{
    if es.len() > 0 && !(es.first().0 == t && es.first().1 == h) {
        lemma_entry_index(es.drop_first(), t, h);
        assert forall|k: int| 0 <= k < entry_index(es, t, h) implies !((#[trigger] es[k]).0 == t
            && es[k].1 == h) by {
            if k > 0 {
                assert(!(es.drop_first()[k - 1].0 == t && es.drop_first()[k - 1].1 == h));
            }
        }
    }
}

/// The entries whose tail is node `n`, in insertion order.
pub open spec fn grouped(
    entries: Seq<(usize, usize, Vec<String>)>,
    n: int,
) -> Seq<(usize, usize, Vec<String>)> {
    entries.filter(|e: (usize, usize, Vec<String>)| e.0 == n)
}

/// Extending the entry list by one extends each tail's group by that entry
/// exactly when the entry belongs to the tail.
proof fn lemma_grouped_step(entries: Seq<(usize, usize, Vec<String>)>, k: int, n: int)
    requires
        0 <= k < entries.len(),
    ensures
        grouped(entries.take(k + 1), n) == if entries[k].0 == n {
            grouped(entries.take(k), n).push(entries[k])
        } else {
            grouped(entries.take(k), n)
        },
{
    assert(entries.take(k + 1).drop_last() =~= entries.take(k));
    assert(entries.take(k + 1).last() == entries[k]);
    reveal_with_fuel(Seq::filter, 2);
}

/// An entry with tail `n` makes that tail's group non-empty.
proof fn lemma_grouped_nonempty(entries: Seq<(usize, usize, Vec<String>)>, k: int)
    requires
        0 <= k < entries.len(),
    ensures
        grouped(entries, entries[k].0 as int).len() > 0,
    decreases entries.len(),
{
    reveal_with_fuel(Seq::filter, 2);
    let n = entries[k].0 as int;
    if k == entries.len() - 1 {
        assert(entries.last() == entries[k]);
    } else {
        lemma_grouped_nonempty(entries.drop_last(), k);
        assert(entries.drop_last()[k] == entries[k]);
    }
}

/// Every entry of a tail's group carries that tail and comes from the entry
/// list itself.
proof fn lemma_grouped_elems(entries: Seq<(usize, usize, Vec<String>)>, n: int)
    ensures
        forall|j: int|
            0 <= j < grouped(entries, n).len() ==> (#[trigger] grouped(entries, n)[j]).0 == n
                && entries.contains(grouped(entries, n)[j]),
    decreases entries.len(),
{
    reveal_with_fuel(Seq::filter, 2);
    if entries.len() > 0 {
        lemma_grouped_elems(entries.drop_last(), n);
        let g0 = grouped(entries.drop_last(), n);
        let g1 = grouped(entries, n);
        assert forall|j: int| 0 <= j < g1.len() implies (#[trigger] g1[j]).0 == n
            && entries.contains(g1[j]) by {
            if j < g0.len() {
                assert(g1[j] == g0[j]);
                let m = choose|m: int| 0 <= m < entries.drop_last().len() && entries.drop_last()[m]
                    == g0[j];
                assert(entries[m] == g0[j]);
            } else {
                assert(g1[j] == entries.last());
                assert(entries[entries.len() - 1] == entries.last());
            }
        }
    }
}

/// What recording one edge does to a builder: unknown labels get the next
/// identifiers, in tail then head order, and the clip joins the entry with
/// its (tail, head) pair, or founds that entry at the end of the list.
pub open spec fn arrow_effect(
    b0: DigraphBuilder,
    b1: DigraphBuilder,
    tail: Seq<char>,
    head: Seq<char>,
    path: Seq<char>,
) -> bool {
    let ls0 = b0.labels_view();
    let ti = label_index(ls0, tail);
    let ls1 = if ti < ls0.len() {
        ls0
    } else {
        ls0.push(tail)
    };
    let hi = label_index(ls1, head);
    let ls2 = if hi < ls1.len() {
        ls1
    } else {
        ls1.push(head)
    };
    let k = entry_index(b0.entries(), ti as usize, hi as usize);
    &&& b1.labels_view() == ls2
    &&& (k < b0.entries().len() ==> {
        &&& b1.entries().len() == b0.entries().len()
        &&& (forall|m: int|
            0 <= m < b0.entries().len() && m != k ==> (#[trigger] b1.entries()[m])
                == b0.entries()[m])
        &&& b1.entries()[k].0 == ti
        &&& b1.entries()[k].1 == hi
        &&& clips_view(b1.entries()[k].2) == clips_view(b0.entries()[k].2).push(path)
    })
    &&& (k == b0.entries().len() ==> {
        &&& b1.entries().len() == b0.entries().len() + 1
        &&& (forall|m: int|
            0 <= m < b0.entries().len() ==> (#[trigger] b1.entries()[m]) == b0.entries()[m])
        &&& b1.entries()[k].0 == ti
        &&& b1.entries()[k].1 == hi
        &&& clips_view(b1.entries()[k].2) == seq![path]
    })
}

/// Collects (tail label, head label, clip handle) edges and assigns label
/// identifiers in first-seen order.
pub struct DigraphBuilder {
    labels: Vec<String>,
    arrows: Vec<(usize, usize, Vec<String>)>,
}

impl DigraphBuilder {
    /// The labels seen so far; the position of a label is its node id.
    pub closed spec fn labels_view(self) -> Seq<Seq<char>> {
        self.labels@.map_values(|s: String| s@)
    }

    /// The arrow entries collected so far, keyed by (tail id, head id), each
    /// carrying its accumulated candidate clips.
    pub closed spec fn entries(self) -> Seq<(usize, usize, Vec<String>)> {
        self.arrows@
    }

    /// Labels are distinct with "start" first, entry keys are distinct, and
    /// every entry's endpoints are known labels.
    pub open spec fn wf(self) -> bool {
        &&& self.labels_view().len() >= 1
        &&& self.labels_view()[0] == "start"@
        &&& (forall|a: int, b: int|
            0 <= a < b < self.labels_view().len() ==> (#[trigger] self.labels_view()[a])
                != (#[trigger] self.labels_view()[b]))
        &&& (forall|k: int|
            0 <= k < self.entries().len() ==> (#[trigger] self.entries()[k]).0
                < self.labels_view().len() && self.entries()[k].1 < self.labels_view().len())
        &&& (forall|k1: int, k2: int|
            0 <= k1 < k2 < self.entries().len() ==> !((#[trigger] self.entries()[k1]).0
                == (#[trigger] self.entries()[k2]).0 && self.entries()[k1].1
                == self.entries()[k2].1))
    }

    /// A builder with "start" registered as node 0 and no edges yet.
    pub fn new() -> (r: DigraphBuilder)
        ensures
            r.wf(),
            r.labels_view() == seq!["start"@],
            r.entries().len() == 0,
    {
        let mut labels: Vec<String> = Vec::new();
        labels.push("start".to_owned());
        let r = DigraphBuilder { labels, arrows: Vec::new() };
        proof {
            assert(r.labels_view() =~= seq!["start"@]);
        }
        r
    }

    /// Records one edge.  Unknown labels get the next identifiers, in tail
    /// then head order; the clip joins the entry holding its (tail, head)
    /// pair, or founds that entry at the end of the list.
    pub fn arrow(self, tail: String, head: String, path: String) -> (r: DigraphBuilder)
        requires
            self.wf(),
        ensures
            r.wf(),
            arrow_effect(self, r, tail@, head@, path@),
    {
        let ghost ls0 = self.labels_view();
        let mut this = self;
        let ti = Self::find_or_insert_label(&mut this.labels, tail);
        let ghost ls1 = this.labels@.map_values(|s: String| s@);
        let hi = Self::find_or_insert_label(&mut this.labels, head);
        let ghost ls2 = this.labels@.map_values(|s: String| s@);
        proof {
            lemma_label_index(ls0, tail@);
            lemma_label_index(ls1, head@);
            assert(ti < ls1.len());
            assert(hi < ls2.len());
            assert forall|a: int, b: int| 0 <= a < b < ls2.len() implies (#[trigger] ls2[a])
                != (#[trigger] ls2[b]) by {
                if b < ls0.len() {
                } else if b == ls0.len() && ls1.len() > ls0.len() {
                    assert(ls2[b] == tail@);
                    assert(ls0[a] != tail@);
                } else {
                    assert(ls2[b] == head@);
                    assert(ls1[a] != head@);
                }
            }
        }
        proof {
            lemma_entry_index(this.arrows@, ti, hi);
        }
        let mut k: usize = 0;
        let mut found = false;
        while !found && k < this.arrows.len()
            invariant
                0 <= k <= this.arrows@.len(),
                forall|m: int|
                    0 <= m < k ==> !((#[trigger] this.arrows@[m]).0 == ti && this.arrows@[m].1
                        == hi),
                found ==> k < this.arrows@.len() && this.arrows@[k as int].0 == ti
                    && this.arrows@[k as int].1 == hi,
            decreases this.arrows@.len() - k, (if found {
                0int
            } else {
                1
            }),
        {
            if this.arrows[k].0 == ti && this.arrows[k].1 == hi {
                found = true;
            } else {
                k += 1;
            }
        }
        proof {
            lemma_entry_index(this.arrows@, ti, hi);
            assert(k == entry_index(this.arrows@, ti, hi));
        }
        if found {
            let entry = vstd::std_specs::vec::vec_index_mut(&mut this.arrows, k);
            entry.2.push(path);
            proof {
                assert(clips_view(this.arrows@[k as int].2) =~= clips_view(
                    self.entries()[k as int].2,
                ).push(path@));
            }
        } else {
            let mut clips: Vec<String> = Vec::new();
            clips.push(path);
            this.arrows.push((ti, hi, clips));
            proof {
                assert(clips_view(this.arrows@[k as int].2) =~= seq![path@]);
            }
        }
        proof {
            let k0 = k as int;
            let es0 = self.entries();
            let es1 = this.arrows@;
            assert(this.labels@.map_values(|s: String| s@) == ls2);
            assert(ls0.len() <= ls1.len() <= ls2.len());
            assert forall|m: int| 0 <= m < es1.len() implies (#[trigger] es1[m]).0 < ls2.len()
                && es1[m].1 < ls2.len() by {
                if m < es0.len() && m != k0 {
                    assert(es1[m] == es0[m]);
                    assert(es0[m].0 < ls0.len() && es0[m].1 < ls0.len());
                } else {
                    assert(es1[m].0 == ti && es1[m].1 == hi);
                }
            }
            assert forall|k1: int, k2: int| 0 <= k1 < k2 < es1.len() implies !((
            #[trigger] es1[k1]).0 == (#[trigger] es1[k2]).0 && es1[k1].1 == es1[k2].1) by {
                if k2 < es0.len() {
                    assert(es1[k1].0 == es0[k1].0 && es1[k1].1 == es0[k1].1);
                    assert(es1[k2].0 == es0[k2].0 && es1[k2].1 == es0[k2].1);
                    assert(!(es0[k1].0 == es0[k2].0 && es0[k1].1 == es0[k2].1));
                } else {
                    assert(es1[k2].0 == ti && es1[k2].1 == hi);
                    assert(es1[k1] == es0[k1]);
                    assert(!(es0[k1].0 == ti && es0[k1].1 == hi));
                }
            }
        }
        this
    }

    /// Finds a label's identifier, registering the label with the next free
    /// identifier when it is new.
    fn find_or_insert_label(labels: &mut Vec<String>, l: String) -> (i: usize)
        ensures
            ({
                let ls = old(labels)@.map_values(|s: String| s@);
                let idx = label_index(ls, l@);
                &&& i == idx
                &&& (idx < ls.len() ==> final(labels)@ == old(labels)@)
                &&& (idx == ls.len() ==> final(labels)@ == old(labels)@.push(l))
                &&& final(labels)@.map_values(|s: String| s@) == if idx < ls.len() {
                    ls
                } else {
                    ls.push(l@)
                }
            }),
    {
        let ghost ls = labels@.map_values(|s: String| s@);
        let mut j: usize = 0;
        while j < labels.len()
            invariant
                0 <= j <= labels@.len(),
                *labels == *old(labels),
                ls == labels@.map_values(|s: String| s@),
                forall|m: int| 0 <= m < j ==> (#[trigger] ls[m]) != l@,
            decreases labels@.len() - j,
        {
            if labels[j].eq(&l) {
                proof {
                    lemma_label_index(ls, l@);
                    assert(ls[j as int] == l@);
                    assert(j == label_index(ls, l@));
                }
                return j;
            }
            j += 1;
        }
        let i = labels.len();
        labels.push(l);
        proof {
            lemma_label_index(ls, l@);
            assert(i == label_index(ls, l@));
            assert(final(labels)@.map_values(|s: String| s@) =~= ls.push(l@));
        }
        i
    }

    /// Finalizes into a digraph: arrows grouped under their tail nodes in
    /// insertion order, and a way out of "start" synthesized if it had none.
    /// Whenever at least one edge was recorded, "start" ends up with at
    /// least one outgoing arrow.
    pub fn into_digraph(self) -> (d: Digraph)
        requires
            self.wf(),
        ensures
            finalized(self, d),
    {
        let ghost entries0 = self.arrows@;
        let n = self.labels.len();
        let total = self.arrows.len();
        let mut nodes: Vec<Vec<Arrow>> = Vec::new();
        let mut i: usize = 0;
        while i < n
            invariant
                0 <= i <= n,
                nodes@.len() == i,
                forall|m: int| 0 <= m < i ==> (#[trigger] nodes@[m])@.len() == 0,
            decreases n - i,
        {
            nodes.push(Vec::new());
            i += 1;
        }
        proof {
            assert(self.labels_view().len() == self.labels@.len());
            assert(n == self.labels@.len());
            assert forall|m: int| 0 <= m < entries0.len() implies (#[trigger] entries0[m]).0 < n
                && entries0[m].1 < n by {
                assert(self.entries()[m].0 < self.labels_view().len());
                assert(self.entries()[m].1 < self.labels_view().len());
            }
            assert forall|m: int| 0 <= m < n implies arrows_match(
                (#[trigger] nodes@[m])@,
                grouped(entries0.take(0), m),
            ) by {
                assert(entries0.take(0) =~= Seq::<(usize, usize, Vec<String>)>::empty());
                reveal_with_fuel(Seq::filter, 1);
            }
        }
        let mut rest = self.arrows;
        let mut k: usize = 0;
        while k < total
            invariant
                nodes@.len() == n,
                total == entries0.len(),
                0 <= k <= total,
                rest@ =~= entries0.skip(k as int),
                forall|m: int|
                    0 <= m < entries0.len() ==> (#[trigger] entries0[m]).0 < n && entries0[m].1
                        < n,
                forall|m: int|
                    0 <= m < n ==> arrows_match(
                        (#[trigger] nodes@[m])@,
                        grouped(entries0.take(k as int), m),
                    ),
            decreases total - k,
        {
            let ghost k0 = k as int;
            let e = rest.remove(0);
            proof {
                assert(e == entries0[k0]);
            }
            let (t, h, clips) = e;
            let ghost pushed = Arrow { target: h, clips };
            let node = vstd::std_specs::vec::vec_index_mut(&mut nodes, t);
            node.push(Arrow { target: h, clips });
            k += 1;
            proof {
                assert(rest@ =~= entries0.skip(k as int));
                assert forall|m: int| 0 <= m < n implies arrows_match(
                    (#[trigger] nodes@[m])@,
                    grouped(entries0.take(k as int), m),
                ) by {
                    lemma_grouped_step(entries0, k0, m);
                    if m == t {
                        assert(nodes@[m]@.last() == pushed);
                    }
                }
            }
        }
        proof {
            assert(entries0.take(total as int) =~= entries0);
        }
        let ghost nodes1 = nodes@;
        let empty_start = nodes[0].len() == 0;
        if empty_start {
            let mut j: usize = 1;
            while j < n
                invariant
                    1 <= j <= n,
                    n >= 1,
                    nodes@.len() == n,
                    nodes@[0]@.len() == j - 1,
                    forall|m: int|
                        0 <= m < j - 1 ==> (#[trigger] nodes@[0]@[m]).target == m + 1
                            && nodes@[0]@[m].clips@.len() == 0,
                    forall|m: int| 1 <= m < n ==> nodes@[m] == nodes1[m],
                decreases n - j,
            {
                let node = vstd::std_specs::vec::vec_index_mut(&mut nodes, 0);
                node.push(Arrow { target: j, clips: Vec::new() });
                j += 1;
            }
        }
        let d = Digraph { nodes };
        proof {
            assert(n >= 1) by {
                assert(self.labels_view().len() >= 1);
            }
            assert(d.node_count() == n);
            // every node's arrows point inside the graph
            assert forall|n2: int, j: int|
                0 <= n2 < d.node_count() && 0 <= j < d.arrows_of(n2).len() implies (
            #[trigger] d.arrows_of(n2)[j]).target < d.node_count() by {
                if empty_start && n2 == 0 {
                    assert(d.arrows_of(0)[j].target == j + 1);
                } else {
                    assert(d.arrows_of(n2) == nodes1[n2]@);
                    assert(arrows_match(nodes1[n2]@, grouped(entries0, n2)));
                    lemma_grouped_elems(entries0, n2);
                    let g = grouped(entries0, n2);
                    assert(entries0.contains(g[j]));
                    let m = choose|m: int| 0 <= m < entries0.len() && entries0[m] == g[j];
                    assert(entries0[m].1 < n);
                    assert(d.arrows_of(n2)[j].target == g[j].1);
                }
            }
            // the grouping clauses
            assert forall|n2: int| 1 <= n2 < d.node_count() implies arrows_match(
                #[trigger] d.arrows_of(n2),
                grouped(entries0, n2),
            ) by {
                assert(d.arrows_of(n2) == nodes1[n2]@);
            }
            if grouped(entries0, 0).len() > 0 {
                assert(arrows_match(nodes1[0]@, grouped(entries0, 0)));
                assert(!empty_start);
                assert(d.arrows_of(0) == nodes1[0]@);
            }
            if grouped(entries0, 0).len() == 0 {
                assert(arrows_match(nodes1[0]@, grouped(entries0, 0)));
                assert(nodes1[0]@.len() == 0);
                assert(empty_start);
            }
            // a recorded edge guarantees a way out of "start"
            if entries0.len() > 0 {
                if entries0[0].0 == 0 {
                    lemma_grouped_nonempty(entries0, 0);
                    assert(grouped(entries0, 0).len() > 0);
                    assert(d.arrows_of(0).len() > 0);
                } else {
                    if empty_start {
                        assert(entries0[0].0 >= 1 && entries0[0].0 < n);
                        assert(n >= 2);
                        assert(d.arrows_of(0).len() == n - 1);
                    } else {
                        assert(d.arrows_of(0) == nodes1[0]@);
                        assert(nodes1[0]@.len() > 0);
                    }
                }
            }
        }
        d
    }
}

/// What finalization yields: arrows grouped under their tail nodes in
/// insertion order, with a way out of "start" synthesized if it had none.
pub open spec fn finalized(b: DigraphBuilder, d: Digraph) -> bool {
    &&& d.wf()
    &&& d.node_count() == b.labels_view().len()
    &&& (forall|n: int|
        1 <= n < d.node_count() ==> arrows_match(
            #[trigger] d.arrows_of(n),
            grouped(b.entries(), n),
        ))
    &&& (grouped(b.entries(), 0).len() > 0 ==> arrows_match(
        d.arrows_of(0),
        grouped(b.entries(), 0),
    ))
    &&& (grouped(b.entries(), 0).len() == 0 ==> d.arrows_of(0).len() == d.node_count() - 1 && (
    forall|j: int|
        0 <= j < d.arrows_of(0).len() ==> (#[trigger] d.arrows_of(0)[j]).target == j + 1
            && d.arrows_of(0)[j].clips@.len() == 0))
    &&& (b.entries().len() > 0 ==> d.arrows_of(0).len() > 0)
}

/// Whether a node's arrow list carries exactly the given entries, in order.
pub open spec fn arrows_match(
    arrows: Seq<Arrow>,
    entries: Seq<(usize, usize, Vec<String>)>,
) -> bool {
    &&& arrows.len() == entries.len()
    &&& (forall|j: int|
        0 <= j < arrows.len() ==> (#[trigger] arrows[j]).target == entries[j].1 && clips_view(
            arrows[j].clips,
        ) == clips_view(entries[j].2))
}

/// The directed multigraph: nodes 0..N, node 0 is "start", each node with
/// its ordered outgoing arrows.
pub struct Digraph {
    nodes: Vec<Vec<Arrow>>,
}

impl Digraph {
    /// How many nodes the graph has.
    pub closed spec fn node_count(self) -> nat {
        self.nodes@.len()
    }

    /// The ordered outgoing arrows of one node.
    pub closed spec fn arrows_of(self, n: int) -> Seq<Arrow> {
        self.nodes@[n]@
    }

    /// There is at least the "start" node, and every arrow stays inside the
    /// graph.
    pub open spec fn wf(self) -> bool {
        &&& self.node_count() > 0
        &&& (forall|n: int, j: int|
            0 <= n < self.node_count() && 0 <= j < self.arrows_of(n).len() ==> (
            #[trigger] self.arrows_of(n)[j]).target < self.node_count())
    }

    /// How many nodes the graph has.
    pub fn num_nodes(&self) -> (r: usize)
        ensures
            r == self.node_count(),
    {
        self.nodes.len()
    }

    /// How many outgoing arrows one node has.
    pub fn num_arrows(&self, n: usize) -> (r: usize)
        requires
            n < self.node_count(),
        ensures
            r == self.arrows_of(n as int).len(),
    {
        self.nodes[n].len()
    }

    /// Starts an unbounded random walk at node 0.
    pub fn into_random_walk(self) -> (w: IntoRandomWalk)
        requires
            self.wf(),
        ensures
            w.wf(),
            w.graph() == self,
            w.state_spec() == 0,
    {
        IntoRandomWalk { state: 0, digraph: self }
    }
}

/// What one sampling step may do: leave the state alone and yield nothing if
/// the state has no way out; otherwise follow some outgoing arrow, and yield
/// some candidate of that arrow exactly when it has any.
pub open spec fn walk_step(g: Digraph, s0: int, s1: int, r: Option<String>) -> bool {
    if g.arrows_of(s0).len() == 0 {
        s1 == s0 && r is None
    } else {
        exists|i: int| 0 <= i < g.arrows_of(s0).len() && #[trigger] walk_step_via(g, s0, s1, r, i)
    }
}

/// What one sampling step does once arrow `i` of the current node was the
/// one chosen.
pub open spec fn walk_step_via(g: Digraph, s0: int, s1: int, r: Option<String>, i: int) -> bool {
    let a = g.arrows_of(s0)[i];
    &&& s1 == a.target
    &&& (a.clips@.len() == 0 ==> r is None)
    &&& (a.clips@.len() > 0 ==> (r matches Some(p) && (exists|j: int|
        0 <= j < a.clips@.len() && p@ == (#[trigger] a.clips@[j])@)))
}

/// Whether every node can always yield a clip: every node has a way out and
/// every arrow has at least one candidate clip.
pub open spec fn well_stocked(g: Digraph) -> bool {
    forall|n: int|
        0 <= n < g.node_count() ==> (#[trigger] g.arrows_of(n)).len() > 0 && (forall|i: int|
            0 <= i < g.arrows_of(n).len() ==> (#[trigger] g.arrows_of(n)[i]).clips@.len() > 0)
}

/// Whether `p` is a candidate clip of some arrow of the graph.
pub open spec fn is_clip_of(g: Digraph, p: Seq<char>) -> bool {
    exists|n: int, i: int, j: int|
        #![auto]
        0 <= n < g.node_count() && 0 <= i < g.arrows_of(n).len() && 0 <= j < g.arrows_of(
            n,
        )[i].clips@.len() && p == g.arrows_of(n)[i].clips@[j]@
}

/// The walk: the current node plus the graph it walks, sampling uniformly
/// with the thread's generator.
pub struct IntoRandomWalk {
    state: usize,
    digraph: Digraph,
}

impl IntoRandomWalk {
    /// The graph being walked.
    pub closed spec fn graph(self) -> Digraph {
        self.digraph
    }

    /// The current node.
    pub closed spec fn state_spec(self) -> int {
        self.state as int
    }

    /// The graph is well formed and the walk stands on one of its nodes.
    pub open spec fn wf(self) -> bool {
        &&& self.graph().wf()
        &&& 0 <= self.state_spec() < self.graph().node_count()
    }

    /// One sampling step: follow a uniformly chosen arrow of the current
    /// node, then yield a uniformly chosen candidate of that arrow.
    fn next_once(&mut self) -> (r: Option<String>)
        requires
            old(self).wf(),
        ensures
            final(self).wf(),
            final(self).graph() == old(self).graph(),
            walk_step(old(self).graph(), old(self).state_spec(), final(self).state_spec(), r),
            r matches Some(p) ==> is_clip_of(old(self).graph(), p@),
    {
        let s = self.state;
        let alen = self.digraph.nodes[s].len();
        if alen == 0 {
            return None;
        }
        let i = rand_index(alen);
        let target = self.digraph.nodes[s][i].target;
        let clen = self.digraph.nodes[s][i].clips.len();
        self.state = target;
        if clen > 0 {
            let j = rand_index(clen);
            let p = self.digraph.nodes[s][i].clips[j].clone();
            proof {
                let g = old(self).graph();
                let a = g.arrows_of(s as int)[i as int];
                assert(p@ == a.clips@[j as int]@);
                assert(walk_step_via(g, s as int, self.state as int, Some(p), i as int));
                assert(walk_step(g, s as int, self.state as int, Some(p)));
                assert(0 <= s < g.node_count() && 0 <= i < g.arrows_of(s as int).len() && 0 <= j
                    < a.clips@.len() && p@ == a.clips@[j as int]@);
                assert(is_clip_of(g, p@));
            }
            Some(p)
        } else {
            proof {
                let g = old(self).graph();
                assert(walk_step_via(g, s as int, self.state as int, None::<String>, i as int));
                assert(walk_step(g, s as int, self.state as int, None::<String>));
            }
            None
        }
    }

    /// Produces the next clip of the sequence: one sampling step, and on a
    /// miss exactly one more.  On a graph where every node has a stocked way
    /// out, the sequence never ends; from a node with no way out at all,
    /// nothing is ever produced and the walk stays put.
    pub fn next(&mut self) -> (r: Option<String>)
        requires
            old(self).wf(),
        ensures
            final(self).wf(),
            final(self).graph() == old(self).graph(),
            well_stocked(old(self).graph()) ==> r is Some,
            r matches Some(p) ==> is_clip_of(old(self).graph(), p@),
            old(self).graph().arrows_of(old(self).state_spec()).len() == 0 ==> r is None
                && final(self).state_spec() == old(self).state_spec(),
            (r is Some && walk_step(
                old(self).graph(),
                old(self).state_spec(),
                final(self).state_spec(),
                r,
            )) || (exists|mid: int|
                #![auto]
                walk_step(old(self).graph(), old(self).state_spec(), mid, None::<String>)
                    && walk_step(old(self).graph(), mid, final(self).state_spec(), r)),
    {
        let ghost g = old(self).graph();
        let ghost s0 = old(self).state_spec();
        let first = self.next_once();
        match first {
            Some(p) => Some(p),
            None => {
                let ghost s1 = self.state_spec();
                let second = self.next_once();
                proof {
                    if well_stocked(g) {
                        assert(g.arrows_of(s0).len() > 0);
                        let i = choose|i: int|
                            0 <= i < g.arrows_of(s0).len() && #[trigger] walk_step_via(
                                g,
                                s0,
                                s1,
                                None::<String>,
                                i,
                            );
                        assert(g.arrows_of(s1).len() > 0);
                        let i2 = choose|i2: int|
                            0 <= i2 < g.arrows_of(s1).len() && #[trigger] walk_step_via(
                                g,
                                s1,
                                self.state_spec(),
                                second,
                                i2,
                            );
                        assert(g.arrows_of(s1)[i2].clips@.len() > 0);
                        assert(second is Some);
                    }
                    assert(walk_step(g, s0, s1, None::<String>) && walk_step(
                        g,
                        s1,
                        self.state_spec(),
                        second,
                    ));
                }
                second
            },
        }
    }
}

} // verus!
