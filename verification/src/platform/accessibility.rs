use vstd::prelude::*;

use crate::text::str_equal;

verus! {

struct SemanticIdPair {
    ui: String,
    node: u64,
}

/// The accessibility node ids handed out for the interface's element ids, both ways.
pub struct SemanticIds {
    pairs: Vec<SemanticIdPair>,
    next: u64,
}

/// The element ids and node ids paired so far, and the next node id to hand out.
pub struct SemanticIdsView {
    pub pairs: Seq<(Seq<char>, u64)>,
    pub next: u64,
}

impl View for SemanticIds {
    type V = SemanticIdsView;

    closed spec fn view(&self) -> SemanticIdsView {
        SemanticIdsView {
            pairs: self.pairs@.map_values(|p: SemanticIdPair| (p.ui@, p.node)),
            next: self.next,
        }
    }
}

/// Each element id and each node id is paired at most once, node ids are positive and
/// below the next one to hand out.
pub open spec fn semantic_ids_wf(v: SemanticIdsView) -> bool {
    &&& forall|i: int, j: int| 0 <= i < j < v.pairs.len() ==> v.pairs[i].0 != v.pairs[j].0
    &&& forall|i: int, j: int| 0 <= i < j < v.pairs.len() ==> v.pairs[i].1 != v.pairs[j].1
    &&& forall|i: int| 0 <= i < v.pairs.len() ==> 1 <= #[trigger] v.pairs[i].1 < v.next
}

/// The position of the pair of element id `ui`; the length when there is none.
pub open spec fn ui_position(pairs: Seq<(Seq<char>, u64)>, ui: Seq<char>, i: int) -> int
    decreases pairs.len() - i,
{
    if i >= pairs.len() {
        pairs.len() as int
    } else if pairs[i].0 == ui {
        i
    } else {
        ui_position(pairs, ui, i + 1)
    }
}

/// The position of the pair of node id `node`; the length when there is none.
pub open spec fn node_position(pairs: Seq<(Seq<char>, u64)>, node: u64, i: int) -> int
    decreases pairs.len() - i,
{
    if i >= pairs.len() {
        pairs.len() as int
    } else if pairs[i].1 == node {
        i
    } else {
        node_position(pairs, node, i + 1)
    }
}

/// The map after asking for the node id of `ui`, and that id: the id it already has, or
/// the next one, at least one, paired with it now.
pub open spec fn id_for_result(v: SemanticIdsView, ui: Seq<char>) -> (SemanticIdsView, u64) {
    let p = ui_position(v.pairs, ui, 0);
    if p < v.pairs.len() {
        (v, v.pairs[p].1)
    } else {
        let id = if v.next < 1 {
            1u64
        } else {
            v.next
        };
        (SemanticIdsView { pairs: v.pairs.push((ui, id)), next: (id + 1) as u64 }, id)
    }
}

/// The element id paired with node id `node`, if any.
pub open spec fn ui_of(v: SemanticIdsView, node: u64) -> Option<Seq<char>> {
    let p = node_position(v.pairs, node, 0);
    if p < v.pairs.len() {
        Some(v.pairs[p].0)
    } else {
        None
    }
}

proof fn lemma_ui_position(pairs: Seq<(Seq<char>, u64)>, ui: Seq<char>, i: int)
    requires
        0 <= i <= pairs.len(),
    ensures
        i <= ui_position(pairs, ui, i) <= pairs.len(),
        ui_position(pairs, ui, i) < pairs.len() ==> pairs[ui_position(pairs, ui, i)].0 == ui,
        forall|j: int| i <= j < ui_position(pairs, ui, i) ==> pairs[j].0 != ui,
    decreases pairs.len() - i,
{
    if i < pairs.len() && pairs[i].0 != ui {
        lemma_ui_position(pairs, ui, i + 1);
    }
}

proof fn lemma_node_position(pairs: Seq<(Seq<char>, u64)>, node: u64, i: int)
    requires
        0 <= i <= pairs.len(),
    ensures
        i <= node_position(pairs, node, i) <= pairs.len(),
        node_position(pairs, node, i) < pairs.len() ==> pairs[node_position(pairs, node, i)].1 == node,
        forall|j: int| i <= j < node_position(pairs, node, i) ==> pairs[j].1 != node,
    decreases pairs.len() - i,
{
    if i < pairs.len() && pairs[i].1 != node {
        lemma_node_position(pairs, node, i + 1);
    }
}

impl SemanticIds {
    #[verifier::type_invariant]
    closed spec fn pairs_consistent(self) -> bool {
        semantic_ids_wf(self@)
    }

    /// A map with nothing paired.
    pub fn new() -> (r: SemanticIds)
        ensures
            r@.pairs == Seq::<(Seq<char>, u64)>::empty(),
            r@.next == 0,
    {
        let r = SemanticIds { pairs: Vec::new(), next: 0 };
        assert(r@.pairs =~= Seq::<(Seq<char>, u64)>::empty());
        r
    }

    /// The node id of element `ui`, pairing it with the next node id when it has none.
    pub fn id_for(&mut self, ui: &str) -> (r: u64)
        requires
            old(self)@.next < u64::MAX,
        ensures
            (final(self)@, r) == id_for_result(old(self)@, ui@),
    {
        proof {
            use_type_invariant(&*self);
            lemma_ui_position(self@.pairs, ui@, 0);
        }
        let ghost all = self@.pairs;
        let mut i: usize = 0;
        while i < self.pairs.len()
            invariant
                i <= self.pairs@.len(),
                all == self@.pairs,
                ui_position(all, ui@, 0) == ui_position(all, ui@, i as int),
            decreases self.pairs@.len() - i,
        {
            if str_equal(self.pairs[i].ui.as_str(), ui) {
                return self.pairs[i].node;
            }
            i = i + 1;
        }
        let id = if self.next < 1 {
            1
        } else {
            self.next
        };
        let ghost before = self.pairs@;
        let mut pairs = Vec::new();
        std::mem::swap(&mut pairs, &mut self.pairs);
        pairs.push(SemanticIdPair { ui: ui.to_owned(), node: id });
        proof {
            let v = pairs@.map_values(|p: SemanticIdPair| (p.ui@, p.node));
            assert(v =~= all.push((ui@, id)));
            assert forall|a: int, b: int| 0 <= a < b < v.len() implies v[a].0 != v[b].0 by {
                if b == all.len() {
                    assert(v[a] == all[a]);
                }
            }
            assert forall|a: int, b: int| 0 <= a < b < v.len() implies v[a].1 != v[b].1 by {
                if b == all.len() {
                    assert(v[a] == all[a]);
                    assert(all[a].1 < self.next);
                }
            }
            assert forall|a: int| 0 <= a < v.len() implies 1 <= #[trigger] v[a].1 < id + 1 by {
                if a < all.len() {
                    assert(v[a] == all[a]);
                }
            }
        }
        *self = SemanticIds { pairs, next: id + 1 };
        id
    }

    /// The element id paired with node id `node`, if any.
    pub fn ui_for(&self, node: u64) -> (r: Option<String>)
        ensures
            match r {
                Some(s) => ui_of(self@, node) == Some(s@),
                None => ui_of(self@, node) is None,
            },
    {
        proof {
            lemma_node_position(self@.pairs, node, 0);
        }
        let ghost all = self@.pairs;
        let mut i: usize = 0;
        while i < self.pairs.len()
            invariant
                i <= self.pairs@.len(),
                all == self@.pairs,
                node_position(all, node, 0) == node_position(all, node, i as int),
            decreases self.pairs@.len() - i,
        {
            if self.pairs[i].node == node {
                return Some(self.pairs[i].ui.clone());
            }
            i = i + 1;
        }
        None
    }
}

/// The node id handed out for an element leads back to that element, and asking again
/// gives the same id.
pub proof fn law_semantic_id_round_trip(v: SemanticIdsView, ui: Seq<char>)
    requires
        semantic_ids_wf(v),
        v.next < u64::MAX,
    ensures
        ({
            let (w, id) = id_for_result(v, ui);
            &&& semantic_ids_wf(w)
            &&& ui_of(w, id) == Some(ui)
            &&& id_for_result(w, ui) == (w, id)
        }),
{
    lemma_ui_position(v.pairs, ui, 0);
    let (w, id) = id_for_result(v, ui);
    let p = ui_position(v.pairs, ui, 0);
    if p < v.pairs.len() {
        lemma_node_position(v.pairs, id, 0);
        let q = node_position(v.pairs, id, 0);
        assert(v.pairs[p].1 == id);
        assert(q <= p);
        if q < p {
            assert(v.pairs[q].1 == v.pairs[p].1);
        }
        assert(q == p);
        assert(ui_of(w, id) == Some(ui));
    } else {
        assert(w.pairs.len() == v.pairs.len() + 1);
        assert(w.pairs[v.pairs.len() as int] == (ui, id));
        assert forall|a: int, b: int| 0 <= a < b < w.pairs.len() implies w.pairs[a].0 != w.pairs[b].0 by {
            if b == v.pairs.len() {
                assert(w.pairs[a] == v.pairs[a]);
            } else {
                assert(w.pairs[a] == v.pairs[a]);
                assert(w.pairs[b] == v.pairs[b]);
            }
        }
        assert forall|a: int, b: int| 0 <= a < b < w.pairs.len() implies w.pairs[a].1 != w.pairs[b].1 by {
            if b == v.pairs.len() {
                assert(w.pairs[a] == v.pairs[a]);
                assert(v.pairs[a].1 < v.next);
            } else {
                assert(w.pairs[a] == v.pairs[a]);
                assert(w.pairs[b] == v.pairs[b]);
            }
        }
        assert forall|a: int| 0 <= a < w.pairs.len() implies 1 <= #[trigger] w.pairs[a].1 < w.next by {
            if a < v.pairs.len() {
                assert(w.pairs[a] == v.pairs[a]);
            }
        }
        assert(semantic_ids_wf(w));
        lemma_node_position(w.pairs, id, 0);
        let q = node_position(w.pairs, id, 0);
        if q < v.pairs.len() {
            assert(w.pairs[q] == v.pairs[q]);
            assert(v.pairs[q].1 < v.next);
        }
        assert(q == v.pairs.len());
        assert(ui_of(w, id) == Some(ui));
        lemma_ui_position(w.pairs, ui, 0);
        let r = ui_position(w.pairs, ui, 0);
        if r < v.pairs.len() {
            assert(w.pairs[r] == v.pairs[r]);
        }
        assert(r == v.pairs.len());
        assert(id_for_result(w, ui) == (w, id));
    }
}

} // verus!
