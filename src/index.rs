use vstd::prelude::*;
use crate::node::{Node, NodeModel, clean_model};

verus! {

/// The map that a list of records gives, a later record of an id replacing
/// an earlier one.
pub open spec fn map_of(s: Seq<NodeModel>) -> Map<Seq<char>, NodeModel>
    decreases s.len(),
{
    if s.len() == 0 {
        Map::empty()
    } else {
        map_of(s.drop_last()).insert(s.last().id, s.last())
    }
}

/// The index that raw rows give once each has been sanitized.
pub open spec fn index_of_rows(rows: Seq<NodeModel>) -> Map<Seq<char>, NodeModel> {
    map_of(rows.map_values(|m: NodeModel| clean_model(m)))
}

/// No two records share an id.
pub open spec fn unique_ids(s: Seq<NodeModel>) -> bool {
    forall|i: int, j: int| 0 <= i < j < s.len() ==> s[i].id != s[j].id
}

proof fn lemma_map_of_dom(s: Seq<NodeModel>, k: Seq<char>)
    ensures
        map_of(s).dom().contains(k) <==> exists|i: int| 0 <= i < s.len() && s[i].id == k,
    decreases s.len(),
{
    if s.len() > 0 {
        lemma_map_of_dom(s.drop_last(), k);
        if map_of(s).dom().contains(k) && s.last().id != k {
            let i = choose|i: int| 0 <= i < s.drop_last().len() && s.drop_last()[i].id == k;
            assert(s[i].id == k);
        }
        if exists|i: int| 0 <= i < s.len() && s[i].id == k {
            let i = choose|i: int| 0 <= i < s.len() && s[i].id == k;
            if i < s.len() - 1 {
                assert(s.drop_last()[i].id == k);
            }
        }
    }
}

proof fn lemma_map_of_at(s: Seq<NodeModel>, i: int)
    requires
        unique_ids(s),
        0 <= i < s.len(),
    ensures
        map_of(s)[s[i].id] == s[i],
    decreases s.len(),
{
    if i < s.len() - 1 {
        let p = s.drop_last();
        assert(unique_ids(p));
        assert(p[i] == s[i]);
        lemma_map_of_at(p, i);
    }
}

proof fn lemma_map_of_update(s: Seq<NodeModel>, i: int, n: NodeModel)
    requires
        unique_ids(s),
        0 <= i < s.len(),
        s[i].id == n.id,
    ensures
        unique_ids(s.update(i, n)),
        map_of(s.update(i, n)) == map_of(s).insert(n.id, n),
{
    let u = s.update(i, n);
    assert(unique_ids(u));
    assert forall|k: Seq<char>| #[trigger] map_of(u).dom().contains(k)
        <==> map_of(s).insert(n.id, n).dom().contains(k) by {
        lemma_map_of_dom(u, k);
        lemma_map_of_dom(s, k);
        if exists|j: int| 0 <= j < s.len() && s[j].id == k {
            let j = choose|j: int| 0 <= j < s.len() && s[j].id == k;
            assert(u[j].id == k);
        }
        if exists|j: int| 0 <= j < u.len() && u[j].id == k {
            let j = choose|j: int| 0 <= j < u.len() && u[j].id == k;
            assert(s[j].id == k);
        }
    }
    assert forall|k: Seq<char>| #[trigger] map_of(u).dom().contains(k) implies map_of(u)[k]
        == map_of(s).insert(n.id, n)[k] by {
        lemma_map_of_dom(u, k);
        let j = choose|j: int| 0 <= j < u.len() && u[j].id == k;
        lemma_map_of_at(u, j);
        if j != i {
            lemma_map_of_at(s, j);
        }
    }
    assert(map_of(u) =~= map_of(s).insert(n.id, n));
}

/// Every note record keyed by its sanitized id.
pub struct NodeIndex {
    nodes: Vec<Node>,
}

impl View for NodeIndex {
    type V = Map<Seq<char>, NodeModel>;

    closed spec fn view(&self) -> Map<Seq<char>, NodeModel> {
        map_of(self.models())
    }
}

impl NodeIndex {
    /// The records in the order in which their ids were first seen.
    pub closed spec fn models(&self) -> Seq<NodeModel> {
        self.nodes@.map_values(|n: Node| n@)
    }

    pub closed spec fn wf(&self) -> bool {
        unique_ids(self.models())
    }

    /// An index that holds nothing.
    pub fn new() -> (r: NodeIndex)
        ensures
            r.wf(),
            r@ == Map::<Seq<char>, NodeModel>::empty(),
            r.models().len() == 0,
    {
        let r = NodeIndex { nodes: Vec::new() };
        assert(r.models() =~= Seq::<NodeModel>::empty());
        r
    }

    /// The number of distinct ids held.
    pub fn len(&self) -> (r: usize)
        requires
            self.wf(),
        ensures
            r == self.models().len(),
            r == self@.dom().len(),
    {
        proof {
            self.lemma_dom();
        }
        self.nodes.len()
    }

    proof fn lemma_dom(&self)
        requires
            self.wf(),
        ensures
            self@.dom() == self.models().map_values(|m: NodeModel| m.id).to_set(),
            self@.dom().len() == self.models().len(),
    {
        let ids = self.models().map_values(|m: NodeModel| m.id);
        assert forall|k: Seq<char>| #[trigger] self@.dom().contains(k) <==> ids.to_set().contains(k) by {
            lemma_map_of_dom(self.models(), k);
            if ids.contains(k) {
                let i = choose|i: int| 0 <= i < ids.len() && ids[i] == k;
                assert(self.models()[i].id == k);
            }
            if exists|i: int| 0 <= i < self.models().len() && self.models()[i].id == k {
                let i = choose|i: int| 0 <= i < self.models().len() && self.models()[i].id == k;
                assert(ids[i] == k);
            }
        }
        assert(self@.dom() =~= ids.to_set());
        assert(ids.no_duplicates());
        ids.unique_seq_to_set();
    }

    /// The record at `i` in the order of `models`.
    pub fn node_at(&self, i: usize) -> (r: &Node)
        requires
            i < self.models().len(),
        ensures
            r@ == self.models()[i as int],
    {
        &self.nodes[i]
    }

    /// The record whose id is `id`, if there is one.
    pub fn get(&self, id: &String) -> (r: Option<&Node>)
        requires
            self.wf(),
        ensures
            r.is_none() <==> !self@.dom().contains(id@),
            r matches Some(n) ==> self@.dom().contains(id@) && n@ == self@[id@],
    {
        let mut i: usize = 0;
        while i < self.nodes.len()
            invariant
                self.wf(),
                i <= self.nodes@.len(),
                forall|j: int| 0 <= j < i ==> self.models()[j].id != id@,
            decreases self.nodes.len() - i,
        {
            if self.nodes[i].id == *id {
                proof {
                    assert(self.models()[i as int] == self.nodes@[i as int]@);
                    lemma_map_of_at(self.models(), i as int);
                    lemma_map_of_dom(self.models(), id@);
                }
                return Some(&self.nodes[i]);
            }
            i = i + 1;
        }
        proof {
            lemma_map_of_dom(self.models(), id@);
        }
        None
    }

    /// Adds `n` under its id, replacing a record of the same id.
    pub fn insert(&mut self, n: Node)
        requires
            old(self).wf(),
        ensures
            final(self).wf(),
            final(self)@ == old(self)@.insert(n@.id, n@),
    {
        let mut i: usize = 0;
        while i < self.nodes.len()
            invariant
                self.wf(),
                self.models() == old(self).models(),
                i <= self.nodes@.len(),
                forall|j: int| 0 <= j < i ==> self.models()[j].id != n@.id,
            decreases self.nodes.len() - i,
        {
            if self.nodes[i].id == n.id {
                let ghost before = self.models();
                assert(before[i as int].id == n@.id);
                self.nodes.set(i, n);
                proof {
                    assert(self.models() =~= before.update(i as int, n@));
                    lemma_map_of_update(before, i as int, n@);
                }
                return;
            }
            i = i + 1;
        }
        let ghost before = self.models();
        self.nodes.push(n);
        assert(self.models() =~= before.push(n@));
        assert(self.models().drop_last() =~= before);
        assert(self.models().last() == n@);
    }

    /// Sanitizes each row and keys it by its id; of two rows with one id the
    /// later wins.
    pub fn build(rows: Vec<Node>) -> (r: NodeIndex)
        ensures
            r.wf(),
            r@ == index_of_rows(rows@.map_values(|n: Node| n@)),
    {
        let mut r = NodeIndex::new();
        let ghost raw = rows@.map_values(|n: Node| n@);
        let mut k: usize = 0;
        while k < rows.len()
            invariant
                k <= rows@.len(),
                raw == rows@.map_values(|n: Node| n@),
                r.wf(),
                r@ == index_of_rows(raw.subrange(0, k as int)),
            decreases rows.len() - k,
        {
            let mut n = rows[k].duplicate();
            n.cleanup();
            proof {
                let cl = |m: NodeModel| clean_model(m);
                let p = raw.subrange(0, k as int).map_values(cl);
                let q = raw.subrange(0, k + 1).map_values(cl);
                assert(q.drop_last() =~= p);
                assert(q.last() == clean_model(rows@[k as int]@));
            }
            r.insert(n);
            k = k + 1;
        }
        assert(raw.subrange(0, raw.len() as int) =~= raw);
        r
    }
}

} // verus!
