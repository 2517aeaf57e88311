//! The flat map of document nodes, keyed by encoded path.
use vstd::prelude::*;
use crate::codec::{key_of, segs_view};
use crate::model::{copy_strings, NormalizedDoc, NormV};

verus! {

broadcast use vstd::seq::group_seq_axioms;

/// Document nodes keyed by the encoding of their path. Keys are unique, and each key is the
/// encoding of its node's path.
pub struct NormalizedDocMap {
    keys: Vec<String>,
    docs: Vec<NormalizedDoc>,
}

/// `p` is a prefix of `path`.
pub open spec fn has_prefix(path: Seq<Seq<char>>, p: Seq<Seq<char>>) -> bool {
    p.len() <= path.len() && path.take(p.len() as int) == p
}

/// Whether `path` starts with the segments of `prefix`.
pub fn starts_with_path(path: &Vec<String>, prefix: &Vec<String>) -> (r: bool)
    ensures
        r == has_prefix(segs_view(path@), segs_view(prefix@)),
{
    if prefix.len() > path.len() {
        return false;
    }
    let mut i: usize = 0;
    while i < prefix.len()
        invariant
            prefix@.len() <= path@.len(),
            0 <= i <= prefix@.len(),
            forall|j: int| 0 <= j < i ==> #[trigger] path@[j]@ == prefix@[j]@,
        decreases prefix@.len() - i,
    {
        if path[i] != prefix[i] {
            assert(segs_view(path@).take(prefix@.len() as int)[i as int] != segs_view(prefix@)[i as int]);
            return false;
        }
        i = i + 1;
    }
    assert(segs_view(path@).take(prefix@.len() as int) =~= segs_view(prefix@));
    true
}

/// The map without any node.
pub open spec fn empty_docs() -> Map<Seq<char>, NormV> {
    Map::empty()
}

impl NormalizedDocMap {
    pub closed spec fn spec_len(&self) -> nat {
        self.keys@.len()
    }

    pub closed spec fn spec_key(&self, i: int) -> Seq<char> {
        self.keys@[i]@
    }

    pub closed spec fn spec_doc(&self, i: int) -> NormV {
        self.docs@[i]@
    }

    /// The keys are unique, and each is the encoding of its node's path.
    pub closed spec fn wf(&self) -> bool {
        &&& self.keys@.len() == self.docs@.len()
        &&& forall|i: int, j: int|
            0 <= i < j < self.spec_len() ==> #[trigger] self.spec_key(i) != #[trigger] self.spec_key(j)
        &&& forall|i: int| 0 <= i < self.spec_len() ==> #[trigger] self.spec_key(i) == key_of(self.spec_doc(i).path)
    }

    /// Whether a key is in the map.
    pub open spec fn has(&self, k: Seq<char>) -> bool {
        exists|i: int| 0 <= i < self.spec_len() && #[trigger] self.spec_key(i) == k
    }

    /// The map as a mathematical map from key to node.
    pub open spec fn view(&self) -> Map<Seq<char>, NormV> {
        Map::new(
            |k: Seq<char>| self.has(k),
            |k: Seq<char>| self.spec_doc(choose|i: int| 0 <= i < self.spec_len() && #[trigger] self.spec_key(i) == k),
        )
    }

    /// The node at a position is the one the map view holds under its key.
    pub proof fn lemma_view_at(&self, i: int)
        requires
            self.wf(),
            0 <= i < self.spec_len(),
        ensures
            self.view().contains_key(self.spec_key(i)),
            self.view()[self.spec_key(i)] == self.spec_doc(i),
    {
        let k = self.spec_key(i);
        assert(self.has(k));
        let j = choose|j: int| 0 <= j < self.spec_len() && #[trigger] self.spec_key(j) == k;
        if j < i {
            assert(self.spec_key(j) != self.spec_key(i));
        } else if i < j {
            assert(self.spec_key(i) != self.spec_key(j));
        }
    }

    /// Each key is the encoding of its node's path.
    pub proof fn lemma_key_of_entry(&self, k: Seq<char>)
        requires
            self.wf(),
            self.view().contains_key(k),
        ensures
            k == key_of(self.view()[k].path),
    {
        let i = choose|i: int| 0 <= i < self.spec_len() && #[trigger] self.spec_key(i) == k;
        self.lemma_view_at(i);
    }

    /// Keys at different positions differ.
    pub proof fn lemma_keys_distinct(&self, i: int, j: int)
        requires
            self.wf(),
            0 <= i < self.spec_len(),
            0 <= j < self.spec_len(),
            i != j,
        ensures
            self.spec_key(i) != self.spec_key(j),
    {
    }

    /// An empty map.
    pub fn new() -> (r: Self)
        ensures
            r.wf(),
            r.view() == empty_docs(),
    {
        let r = NormalizedDocMap { keys: Vec::new(), docs: Vec::new() };
        assert(r.view() =~= Map::<Seq<char>, NormV>::empty());
        r
    }

    /// The number of nodes.
    pub fn len(&self) -> (r: usize)
        requires
            self.wf(),
        ensures
            r == self.spec_len(),
    {
        self.keys.len()
    }

    /// The key at a position.
    pub fn key_at(&self, i: usize) -> (r: &String)
        requires
            self.wf(),
            i < self.spec_len(),
        ensures
            r@ == self.spec_key(i as int),
    {
        &self.keys[i]
    }

    /// The node at a position.
    pub fn doc_at(&self, i: usize) -> (r: &NormalizedDoc)
        requires
            self.wf(),
            i < self.spec_len(),
        ensures
            r@ == self.spec_doc(i as int),
    {
        &self.docs[i]
    }

    /// The position of a key, if it is in the map.
    pub fn position(&self, key: &str) -> (r: Option<usize>)
        requires
            self.wf(),
        ensures
            match r {
                Some(i) => i < self.spec_len() && self.spec_key(i as int) == key@,
                None => !self.has(key@),
            },
    {
        let k = key.to_owned();
        let mut i: usize = 0;
        while i < self.keys.len()
            invariant
                self.wf(),
                k@ == key@,
                0 <= i <= self.spec_len(),
                forall|j: int| 0 <= j < i ==> #[trigger] self.spec_key(j) != key@,
            decreases self.spec_len() - i,
        {
            if self.keys[i] == k {
                return Some(i);
            }
            i = i + 1;
        }
        None
    }

    /// The node under a key.
    pub fn get(&self, key: &str) -> (r: Option<&NormalizedDoc>)
        requires
            self.wf(),
        ensures
            match r {
                Some(d) => self.view().contains_key(key@) && d@ == self.view()[key@],
                None => !self.view().contains_key(key@),
            },
    {
        match self.position(key) {
            Some(i) => {
                proof {
                    self.lemma_view_at(i as int);
                }
                Some(&self.docs[i])
            },
            None => None,
        }
    }

    /// Adds a node under a key that is not in the map yet.
    pub fn insert_new(&mut self, key: String, doc: NormalizedDoc)
        requires
            old(self).wf(),
            !old(self).view().contains_key(key@),
            key@ == key_of(doc@.path),
        ensures
            final(self).wf(),
            final(self).view() == old(self).view().insert(key@, doc@),
    {
        let ghost k = key@;
        let ghost d = doc@;
        let ghost pre = *self;
        self.keys.push(key);
        self.docs.push(doc);
        let ghost n = pre.spec_len();
        assert(self.spec_len() == n + 1);
        assert forall|i: int| 0 <= i < n implies #[trigger] self.spec_key(i) == pre.spec_key(i)
            && self.spec_doc(i) == pre.spec_doc(i) by {}
        assert(self.spec_key(n as int) == k);
        assert forall|i: int, j: int| 0 <= i < j < self.spec_len() implies #[trigger] self.spec_key(
            i,
        ) != #[trigger] self.spec_key(j) by {
            if j == n {
                assert(!pre.has(k));
                assert(pre.spec_key(i) == self.spec_key(i));
            } else {
                assert(pre.spec_key(i) != pre.spec_key(j));
            }
        }
        assert(self.wf());
        assert forall|q: Seq<char>| #[trigger] self.view().contains_key(q) == pre.view().insert(
            k,
            d,
        ).contains_key(q) by {
            if self.has(q) {
                let i = choose|i: int| 0 <= i < self.spec_len() && #[trigger] self.spec_key(i) == q;
                if i < n {
                    assert(pre.spec_key(i) == q);
                }
            }
            if pre.has(q) {
                let i = choose|i: int| 0 <= i < pre.spec_len() && #[trigger] pre.spec_key(i) == q;
                assert(self.spec_key(i) == q);
            }
        }
        assert forall|q: Seq<char>| #[trigger] self.view().contains_key(q) implies self.view()[q]
            == pre.view().insert(k, d)[q] by {
            let i = choose|i: int| 0 <= i < self.spec_len() && #[trigger] self.spec_key(i) == q;
            self.lemma_view_at(i);
            if i < n {
                pre.lemma_view_at(i);
            }
        }
        assert(self.view() =~= pre.view().insert(k, d));
    }

    /// Replaces the node under a key that is in the map by a node with the same path.
    pub fn replace(&mut self, key: &str, doc: NormalizedDoc)
        requires
            old(self).wf(),
            old(self).view().contains_key(key@),
            key@ == key_of(doc@.path),
        ensures
            final(self).wf(),
            final(self).view() == old(self).view().insert(key@, doc@),
    {
        let ghost pre = *self;
        let ghost d = doc@;
        let i = match self.position(key) {
            Some(i) => i,
            None => {
                return;
            },
        };
        self.docs.set(i, doc);
        assert forall|j: int| 0 <= j < self.spec_len() implies #[trigger] self.spec_key(j)
            == pre.spec_key(j) by {}
        assert forall|j: int, l: int| 0 <= j < l < self.spec_len() implies #[trigger] self.spec_key(
            j,
        ) != #[trigger] self.spec_key(l) by {
            assert(pre.spec_key(j) != pre.spec_key(l));
        }
        assert forall|j: int| 0 <= j < self.spec_len() implies #[trigger] self.spec_key(j) == key_of(
            self.spec_doc(j).path,
        ) by {
            assert(pre.spec_key(j) == key_of(pre.spec_doc(j).path));
        }
        assert(self.wf());
        assert forall|q: Seq<char>| #[trigger] self.view().contains_key(q) == pre.view().contains_key(q) by {
            if self.has(q) {
                let j = choose|j: int| 0 <= j < self.spec_len() && #[trigger] self.spec_key(j) == q;
                assert(pre.spec_key(j) == q);
            }
            if pre.has(q) {
                let j = choose|j: int| 0 <= j < pre.spec_len() && #[trigger] pre.spec_key(j) == q;
                assert(self.spec_key(j) == q);
            }
        }
        assert forall|q: Seq<char>| #[trigger] self.view().contains_key(q) implies self.view()[q]
            == pre.view().insert(key@, d)[q] by {
            let j = choose|j: int| 0 <= j < self.spec_len() && #[trigger] self.spec_key(j) == q;
            self.lemma_view_at(j);
            pre.lemma_view_at(j);
        }
        assert(self.view() =~= pre.view().insert(key@, d));
    }

    /// Removes every node whose path starts with `prefix`: the node at `prefix` and all that
    /// lie below it.
    pub fn remove_under(&mut self, prefix: &Vec<String>)
        requires
            old(self).wf(),
        ensures
            final(self).wf(),
            final(self).view() == old(self).view().restrict(
                old(self).view().dom().filter(
                    |k: Seq<char>| !has_prefix(old(self).view()[k].path, segs_view(prefix@)),
                ),
            ),
    {
        let ghost p = segs_view(prefix@);
        let mut kept = NormalizedDocMap::new();
        let mut i: usize = 0;
        while i < self.keys.len()
            invariant
                self.wf(),
                kept.wf(),
                p == segs_view(prefix@),
                0 <= i <= self.spec_len(),
                forall|q: Seq<char>| #[trigger]
                    kept.view().contains_key(q) <==> exists|j: int|
                        0 <= j < i && #[trigger] self.spec_key(j) == q && !has_prefix(
                            self.spec_doc(j).path,
                            p,
                        ),
                forall|q: Seq<char>| #[trigger]
                    kept.view().contains_key(q) ==> self.view().contains_key(q) && kept.view()[q]
                        == self.view()[q],
            decreases self.spec_len() - i,
        {
            let ghost kv0 = kept.view();
            let under = starts_with_path(&self.docs[i].path, prefix);
            assert(under == has_prefix(self.spec_doc(i as int).path, p));
            if !under {
                let k = self.keys[i].clone();
                let d = self.docs[i].duplicate();
                proof {
                    self.lemma_view_at(i as int);
                    if kept.view().contains_key(k@) {
                        let j = choose|j: int|
                            0 <= j < i && #[trigger] self.spec_key(j) == k@ && !has_prefix(
                                self.spec_doc(j).path,
                                p,
                            );
                        assert(self.spec_key(j) != self.spec_key(i as int));
                    }
                }
                kept.insert_new(k, d);
            }
            proof {
                self.lemma_view_at(i as int);
                assert forall|q: Seq<char>| #[trigger] kept.view().contains_key(q) <==> exists|j: int|
                    0 <= j < i + 1 && #[trigger] self.spec_key(j) == q && !has_prefix(
                        self.spec_doc(j).path,
                        p,
                    ) by {
                    if q == self.spec_key(i as int) && !under {
                        assert(kept.view().contains_key(q));
                        assert(0 <= i < i + 1 && self.spec_key(i as int) == q && !has_prefix(
                            self.spec_doc(i as int).path,
                            p,
                        ));
                    } else {
                        assert(kept.view().contains_key(q) == kv0.contains_key(q));
                        if exists|j: int|
                            0 <= j < i + 1 && #[trigger] self.spec_key(j) == q && !has_prefix(
                                self.spec_doc(j).path,
                                p,
                            ) {
                            let j = choose|j: int|
                                0 <= j < i + 1 && #[trigger] self.spec_key(j) == q && !has_prefix(
                                    self.spec_doc(j).path,
                                    p,
                                );
                            assert(j != i);
                            assert(kv0.contains_key(q));
                        }
                    }
                }
            }
            i = i + 1;
        }
        let ghost pre = *self;
        proof {
            assert forall|q: Seq<char>| #[trigger] kept.view().contains_key(q) == pre.view().restrict(
                pre.view().dom().filter(
                    |k: Seq<char>| !has_prefix(pre.view()[k].path, p),
                ),
            ).contains_key(q) by {
                if pre.view().contains_key(q) {
                    let j = choose|j: int| 0 <= j < pre.spec_len() && #[trigger] pre.spec_key(j) == q;
                    pre.lemma_view_at(j);
                }
            }
            assert(kept.view() =~= pre.view().restrict(
                pre.view().dom().filter(|k: Seq<char>| !has_prefix(pre.view()[k].path, p)),
            ));
        }
        *self = kept;
    }

    /// A copy of the map.
    pub fn duplicate(&self) -> (r: Self)
        requires
            self.wf(),
        ensures
            r.wf(),
            r.view() == self.view(),
            r.spec_len() == self.spec_len(),
    {
        let keys = copy_strings(&self.keys);
        let mut docs: Vec<NormalizedDoc> = Vec::new();
        let mut i: usize = 0;
        while i < self.docs.len()
            invariant
                self.wf(),
                0 <= i <= self.docs@.len(),
                docs@.len() == i,
                forall|j: int| 0 <= j < i ==> (#[trigger] docs@[j])@ == self.docs@[j]@,
            decreases self.docs@.len() - i,
        {
            docs.push(self.docs[i].duplicate());
            i = i + 1;
        }
        let r = NormalizedDocMap { keys, docs };
        assert forall|j: int| 0 <= j < r.spec_len() implies #[trigger] r.spec_key(j) == self.spec_key(j)
            && r.spec_doc(j) == self.spec_doc(j) by {
            assert(segs_view(keys@)[j] == segs_view(self.keys@)[j]);
        }
        assert forall|a: int, b: int| 0 <= a < b < r.spec_len() implies #[trigger] r.spec_key(a)
            != #[trigger] r.spec_key(b) by {
            assert(self.spec_key(a) != self.spec_key(b));
        }
        assert(r.wf());
        assert forall|q: Seq<char>| #[trigger] r.view().contains_key(q) == self.view().contains_key(q) by {
            if r.has(q) {
                let j = choose|j: int| 0 <= j < r.spec_len() && #[trigger] r.spec_key(j) == q;
                assert(self.spec_key(j) == q);
            }
            if self.has(q) {
                let j = choose|j: int| 0 <= j < self.spec_len() && #[trigger] self.spec_key(j) == q;
                assert(r.spec_key(j) == q);
            }
        }
        assert forall|q: Seq<char>| #[trigger] r.view().contains_key(q) implies r.view()[q] == self.view()[q] by {
            let j = choose|j: int| 0 <= j < r.spec_len() && #[trigger] r.spec_key(j) == q;
            r.lemma_view_at(j);
            self.lemma_view_at(j);
        }
        assert(r.view() =~= self.view());
        r
    }
}

} // verus!
