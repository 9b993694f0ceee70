//! Which XT instances a candidate block carries, until it is canonical.

use vstd::prelude::*;
use vstd::string::*;

use crate::ids::{copy_ids, id_views};
use crate::primitives::{lemma_bytes_lt_transitive, lemma_text_lt_total, text_less, text_lt, B256};

verus! {

/// The IDs stand in text order, each once.
pub open spec fn sorted_ids(ids: Seq<Seq<char>>) -> bool {
    forall|i: int, j: int| 0 <= i < j < ids.len() ==> text_lt(#[trigger] ids[i], #[trigger] ids[j])
}

/// A set of XT instance IDs.
#[derive(Debug)]
pub struct InstanceIdSet {
    ids: Vec<String>,
}

impl View for InstanceIdSet {
    type V = Set<Seq<char>>;

    closed spec fn view(&self) -> Set<Seq<char>> {
        self.listed().to_set()
    }
}

impl Default for InstanceIdSet {
    /// The empty set.
    fn default() -> (res: Self)
        ensures
            res.wf(),
            res.listed() == Seq::<Seq<char>>::empty(),
            res@ == Set::<Seq<char>>::empty(),
    {
        let res = InstanceIdSet { ids: Vec::new() };
        assert(res.listed() =~= Seq::<Seq<char>>::empty());
        assert(res@ =~= Set::<Seq<char>>::empty());
        res
    }
}

impl InstanceIdSet {
    /// The IDs in the order in which they are handed out.
    pub closed spec fn listed(&self) -> Seq<Seq<char>> {
        id_views(self.ids@)
    }

    /// The IDs are handed out in text order, each once.
    pub closed spec fn wf(&self) -> bool {
        sorted_ids(self.listed())
    }

    /// The list holds the members of the set, in text order, each once.
    pub proof fn lemma_listed(&self)
        requires
            self.wf(),
        ensures
            self.listed().to_set() == self@,
            sorted_ids(self.listed()),
    {
    }

    /// Adds `id`. The result tells whether it is new.
    pub fn insert(&mut self, id: String) -> (res: bool)
        requires
            old(self).wf(),
        ensures
            final(self).wf(),
            final(self)@ == old(self)@.insert(id@),
            res == !old(self)@.contains(id@),
    {
        let ghost before = self.listed();
        let mut i: usize = 0;
        while i < self.ids.len() && text_less(self.ids[i].as_str(), id.as_str())
            invariant
                i <= self.ids@.len(),
                before == id_views(self.ids@),
                forall|k: int| 0 <= k < i ==> text_lt(#[trigger] before[k], id@),
            decreases self.ids@.len() - i,
        {
            i += 1;
        }
        if i < self.ids.len() && self.ids[i] == id {
            assert(before[i as int] == id@);
            assert(self@ =~= old(self)@.insert(id@));
            return false;
        }
        proof {
            if i < before.len() {
                lemma_text_lt_total(before[i as int], id@);
            }
            assert forall|k: int| i <= k < before.len() implies text_lt(id@, #[trigger] before[k]) by {
                if k > i {
                    lemma_bytes_lt_transitive(
                        vstd::utf8::encode_utf8(id@),
                        vstd::utf8::encode_utf8(before[i as int]),
                        vstd::utf8::encode_utf8(before[k]),
                    );
                }
            }
            lemma_text_lt_total(id@, id@);
        }
        self.ids.insert(i, id);
        let ghost after = self.listed();
        assert(after =~= before.insert(i as int, id@));
        assert(after[i as int] == id@);
        assert forall|a: int, b: int| 0 <= a < b < after.len() implies text_lt(
            #[trigger] after[a],
            #[trigger] after[b],
        ) by {
            if a != i {
                assert(after[a] == before[if a < i { a } else { a - 1 }]);
            }
            if b != i {
                assert(after[b] == before[if b < i { b } else { b - 1 }]);
            }
        }
        assert forall|x: Seq<char>| #[trigger] after.to_set().contains(x) == before.to_set().insert(
            id@,
        ).contains(x) by {
            if before.contains(x) {
                let k = choose|k: int| 0 <= k < before.len() && before[k] == x;
                assert(after[if k < i { k } else { k + 1 }] == x);
            }
            if after.contains(x) && x != id@ {
                let k = choose|k: int| 0 <= k < after.len() && after[k] == x;
                assert(before[if k < i { k } else { k - 1 }] == x);
            }
        }
        assert(after.to_set() =~= before.to_set().insert(id@));
        true
    }

    /// Whether the set has no members.
    pub fn is_empty(&self) -> (res: bool)
        ensures
            res == (self@ == Set::<Seq<char>>::empty()),
            res == (self.listed().len() == 0),
    {
        proof {
            if self.ids@.len() > 0 {
                assert(self.listed()[0] == self.ids@[0]@);
                assert(self@.contains(self.listed()[0]));
            } else {
                assert(self@ =~= Set::<Seq<char>>::empty());
            }
        }
        self.ids.is_empty()
    }

    /// The IDs in text order.
    fn to_vec(&self) -> (res: Vec<String>)
        ensures
            id_views(res@) == self.listed(),
    {
        copy_ids(&self.ids)
    }
}

/// Recording that the block `hash` would confirm `ids`.
pub open spec fn recorded(
    candidates: Map<Seq<u8>, Seq<Seq<char>>>,
    hash: Seq<u8>,
    ids: Seq<Seq<char>>,
) -> Map<Seq<u8>, Seq<Seq<char>>> {
    if ids.len() == 0 {
        candidates
    } else {
        candidates.insert(hash, ids)
    }
}

/// What the block `hash` confirms.
pub open spec fn confirmed(candidates: Map<Seq<u8>, Seq<Seq<char>>>, hash: Seq<u8>) -> Seq<
    Seq<char>,
> {
    if candidates.contains_key(hash) {
        candidates[hash]
    } else {
        Seq::empty()
    }
}

/// The instances of a candidate block.
#[derive(Debug)]
struct Candidate {
    block_hash: B256,
    instance_ids: Vec<String>,
}

/// The XT instances that each candidate block would confirm.
#[derive(Debug)]
pub struct XtCanonicalTracker {
    candidates: Vec<Candidate>,
}

impl View for XtCanonicalTracker {
    type V = Map<Seq<u8>, Seq<Seq<char>>>;

    closed spec fn view(&self) -> Map<Seq<u8>, Seq<Seq<char>>> {
        Map::new(
            |hash: Seq<u8>| exists|i: int| candidate_at(self.candidates@, hash, i),
            |hash: Seq<u8>|
                id_views(
                    self.candidates@[choose|i: int| candidate_at(
                        self.candidates@,
                        hash,
                        i,
                    )].instance_ids@,
                ),
        )
    }
}

/// The candidate at `i` has the hash `hash`.
spec fn candidate_at(candidates: Seq<Candidate>, hash: Seq<u8>, i: int) -> bool {
    0 <= i < candidates.len() && candidates[i].block_hash@ == hash
}

impl Default for XtCanonicalTracker {
    /// A tracker without candidates.
    fn default() -> (res: Self)
        ensures
            res.wf(),
            res@ == Map::<Seq<u8>, Seq<Seq<char>>>::empty(),
    {
        let res = XtCanonicalTracker { candidates: Vec::new() };
        assert(res@ =~= Map::<Seq<u8>, Seq<Seq<char>>>::empty());
        res
    }
}

impl XtCanonicalTracker {
    /// Each block has one candidate at most.
    pub closed spec fn wf(&self) -> bool {
        forall|i: int, j: int|
            0 <= i < self.candidates@.len() && 0 <= j < self.candidates@.len() && i != j ==> (
            #[trigger] self.candidates@[i]).block_hash@ != (
            #[trigger] self.candidates@[j]).block_hash@
    }

    /// The candidate of a block, given where it stands.
    proof fn lemma_candidate(&self, i: int)
        requires
            self.wf(),
            0 <= i < self.candidates@.len(),
        ensures
            self@.contains_key(self.candidates@[i].block_hash@),
            self@[self.candidates@[i].block_hash@] == id_views(self.candidates@[i].instance_ids@),
    {
        assert(candidate_at(self.candidates@, self.candidates@[i].block_hash@, i));
    }

    /// Where the candidate of `block_hash` stands.
    fn find(&self, block_hash: B256) -> (res: Option<usize>)
        ensures
            match res {
                Some(i) => candidate_at(self.candidates@, block_hash@, i as int),
                None => !self@.contains_key(block_hash@),
            },
    {
        let mut i: usize = 0;
        while i < self.candidates.len()
            invariant
                i <= self.candidates@.len(),
                forall|k: int|
                    0 <= k < i ==> (#[trigger] self.candidates@[k]).block_hash@ != block_hash@,
            decreases self.candidates@.len() - i,
        {
            if self.candidates[i].block_hash == block_hash {
                return Some(i);
            }
            i += 1;
        }
        None
    }

    /// Records which instances the block `block_hash` would confirm. A block
    /// without instances is not recorded.
    pub fn record_candidate(&mut self, block_hash: B256, cumulative_instance_ids: &InstanceIdSet)
        requires
            old(self).wf(),
        ensures
            final(self).wf(),
            final(self)@ == recorded(old(self)@, block_hash@, cumulative_instance_ids.listed()),
            final(self)@ == (if cumulative_instance_ids@ == Set::<Seq<char>>::empty() {
                old(self)@
            } else {
                old(self)@.insert(block_hash@, cumulative_instance_ids.listed())
            }),
    {
        if cumulative_instance_ids.is_empty() {
            return;
        }
        let ghost before = *self;
        let candidate = Candidate { block_hash, instance_ids: cumulative_instance_ids.to_vec() };
        let ghost ids = cumulative_instance_ids.listed();
        match self.find(block_hash) {
            Some(i) => {
                self.candidates[i] = candidate;
                assert(self.candidates@ == before.candidates@.update(i as int, candidate));
                assert forall|k: int| 0 <= k < self.candidates@.len() implies (
                #[trigger] self.candidates@[k]).block_hash@
                    == before.candidates@[k].block_hash@ by {}
                assert(self@ =~= before@.insert(block_hash@, ids)) by {
                    assert forall|hash: Seq<u8>| #[trigger] self@.contains_key(hash)
                        == before@.insert(block_hash@, ids).contains_key(hash) by {
                        if before@.contains_key(hash) {
                            let k = choose|k: int| candidate_at(before.candidates@, hash, k);
                            self.lemma_candidate(k);
                        }
                        if self@.contains_key(hash) {
                            let k = choose|k: int| candidate_at(self.candidates@, hash, k);
                            before.lemma_candidate(k);
                        }
                        self.lemma_candidate(i as int);
                    }
                    assert forall|hash: Seq<u8>| #[trigger] self@.contains_key(hash) implies
                        self@[hash] == before@.insert(block_hash@, ids)[hash] by {
                        let k = choose|k: int| candidate_at(self.candidates@, hash, k);
                        self.lemma_candidate(k);
                        before.lemma_candidate(k);
                    }
                }
            },
            None => {
                self.candidates.push(candidate);
                let ghost n = before.candidates@.len() as int;
                assert forall|k: int| 0 <= k < n implies #[trigger] self.candidates@[k]
                    == before.candidates@[k] && self.candidates@[k].block_hash@
                    != block_hash@ by {
                    before.lemma_candidate(k);
                }
                assert(self@ =~= before@.insert(block_hash@, ids)) by {
                    assert forall|hash: Seq<u8>| #[trigger] self@.contains_key(hash)
                        == before@.insert(block_hash@, ids).contains_key(hash) by {
                        if before@.contains_key(hash) {
                            let k = choose|k: int| candidate_at(before.candidates@, hash, k);
                            self.lemma_candidate(k);
                        }
                        if self@.contains_key(hash) {
                            let k = choose|k: int| candidate_at(self.candidates@, hash, k);
                            if k < n {
                                before.lemma_candidate(k);
                            }
                        }
                        self.lemma_candidate(n);
                    }
                    assert forall|hash: Seq<u8>| #[trigger] self@.contains_key(hash) implies
                        self@[hash] == before@.insert(block_hash@, ids)[hash] by {
                        let k = choose|k: int| candidate_at(self.candidates@, hash, k);
                        self.lemma_candidate(k);
                        if k < n {
                            before.lemma_candidate(k);
                        }
                    }
                }
            },
        }
    }

    /// Takes the instances that the block `block_hash` confirms: none, if no
    /// candidate was recorded for it or it was taken already.
    pub fn take_confirmed(&mut self, block_hash: B256) -> (res: Vec<String>)
        requires
            old(self).wf(),
        ensures
            final(self).wf(),
            final(self)@ == old(self)@.remove(block_hash@),
            id_views(res@) == confirmed(old(self)@, block_hash@),
            id_views(res@) == (if old(self)@.contains_key(block_hash@) {
                old(self)@[block_hash@]
            } else {
                Seq::<Seq<char>>::empty()
            }),
    {
        let ghost before = *self;
        match self.find(block_hash) {
            Some(i) => {
                let candidate = self.candidates.remove(i);
                proof {
                    before.lemma_candidate(i as int);
                    assert forall|k: int| 0 <= k < self.candidates@.len() implies
                        #[trigger] self.candidates@[k] == before.candidates@[if k < i {
                        k
                    } else {
                        k + 1
                    }] by {}
                    assert forall|hash: Seq<u8>| #[trigger] self@.contains_key(hash)
                        == before@.remove(block_hash@).contains_key(hash) by {
                        if before@.contains_key(hash) && hash != block_hash@ {
                            let k = choose|k: int| candidate_at(before.candidates@, hash, k);
                            self.lemma_candidate(if k < i { k } else { k - 1 });
                        }
                        if self@.contains_key(hash) {
                            let k = choose|k: int| candidate_at(self.candidates@, hash, k);
                            before.lemma_candidate(if k < i { k } else { k + 1 });
                        }
                    }
                    assert forall|hash: Seq<u8>| #[trigger] self@.contains_key(hash) implies
                        self@[hash] == before@.remove(block_hash@)[hash] by {
                        let k = choose|k: int| candidate_at(self.candidates@, hash, k);
                        self.lemma_candidate(k);
                        before.lemma_candidate(if k < i { k } else { k + 1 });
                    }
                    assert(self@ =~= before@.remove(block_hash@));
                }
                candidate.instance_ids
            },
            None => {
                let res: Vec<String> = Vec::new();
                assert(id_views(res@) =~= Seq::<Seq<char>>::empty());
                assert(self@ =~= before@.remove(block_hash@));
                res
            },
        }
    }
}

/// A block confirms what was last recorded for it, once. Other blocks are not
/// concerned, and a block without instances changes nothing.
pub proof fn law_confirmed_is_what_was_recorded(
    candidates: Map<Seq<u8>, Seq<Seq<char>>>,
    hash: Seq<u8>,
    other: Seq<u8>,
    ids: Seq<Seq<char>>,
)
    requires
        other != hash,
    ensures
        ids.len() > 0 ==> confirmed(recorded(candidates, hash, ids), hash) == ids,
        ids.len() == 0 ==> recorded(candidates, hash, ids) == candidates,
        confirmed(candidates.remove(hash), hash) == Seq::<Seq<char>>::empty(),
        confirmed(recorded(candidates, hash, ids), other) == confirmed(candidates, other),
        confirmed(candidates.remove(hash), other) == confirmed(candidates, other),
{
}

/// A list of IDs in text order is determined by its members.
pub proof fn law_listed_ids_are_determined(a: Seq<Seq<char>>, b: Seq<Seq<char>>)
    requires
        sorted_ids(a),
        sorted_ids(b),
        a.to_set() == b.to_set(),
    ensures
        a == b,
    decreases a.len(),
{
    if a.len() == 0 {
        if b.len() > 0 {
            assert(b.to_set().contains(b[0]));
            assert(a.contains(b[0]));
        }
        assert(a =~= b);
    } else {
        assert(a.to_set().contains(a.last())) by {
            assert(a[a.len() - 1] == a.last());
        }
        assert(b.contains(a.last()));
        assert(b.to_set().contains(b.last())) by {
            assert(b[b.len() - 1] == b.last());
        }
        assert(a.contains(b.last()));
        let i = choose|i: int| 0 <= i < a.len() && a[i] == b.last();
        let j = choose|j: int| 0 <= j < b.len() && b[j] == a.last();
        lemma_text_lt_total(a.last(), b.last());
        if a.last() != b.last() {
            assert(text_lt(a[i], a[a.len() - 1]));
            assert(text_lt(b[j], b[b.len() - 1]));
            lemma_text_lt_total(b.last(), a.last());
            assert(false);
        }
        let c = a.drop_last();
        let d = b.drop_last();
        assert forall|x: Seq<char>| #[trigger] c.contains(x) <==> d.contains(x) by {
            lemma_drop_last_members(a, x);
            lemma_drop_last_members(b, x);
            assert(a.contains(x) == a.to_set().contains(x));
            assert(b.contains(x) == b.to_set().contains(x));
        }
        assert(c.to_set() =~= d.to_set());
        law_listed_ids_are_determined(c, d);
        assert(a =~= c.push(a.last()));
        assert(b =~= d.push(b.last()));
    }
}

/// Dropping the last ID of a sorted list drops it and no other.
proof fn lemma_drop_last_members(a: Seq<Seq<char>>, x: Seq<char>)
    requires
        sorted_ids(a),
        a.len() > 0,
    ensures
        a.drop_last().contains(x) <==> a.contains(x) && x != a.last(),
{
    let c = a.drop_last();
    if c.contains(x) {
        let k = choose|k: int| 0 <= k < c.len() && c[k] == x;
        assert(a[k] == x);
        assert(text_lt(a[k], a[a.len() - 1]));
        lemma_text_lt_total(x, x);
    }
    if a.contains(x) && x != a.last() {
        let k = choose|k: int| 0 <= k < a.len() && a[k] == x;
        assert(c[k] == x);
    }
}

} // verus!
