//! The indexed view of a graph: clips re-keyed by id, and each clip's
//! outgoing transitions re-keyed by target id, so that the patch engine can
//! look up, insert and delete records instead of scanning sequences.
//!
//! The re-keying is lossless except for order: converting back emits
//! records in ascending id order, whatever order the file had.

use vstd::prelude::*;

verus! {

use vstd::map::*;
use crate::error::KfmError;
use crate::source::seq_view;
use crate::source::SourceFileBody;
use crate::source::Model;
use crate::source::ModelV;
use crate::source::DefaultTransitions;
use crate::source::Animation;
use crate::source::AnimationV;
use crate::source::Transition;
use crate::source::TransitionV;
use crate::source::TransitionType;
use crate::source::TransitionExt;
use crate::source::TransitionExtV;
use crate::source::LayerGroup;

/// Keys strictly ascend.
pub open spec fn entries_sorted<V>(s: Seq<(u32, V)>) -> bool {
    forall|i: int, j: int| 0 <= i < j < s.len() ==> s[i].0 < s[j].0
}

pub open spec fn entries_has_key<V>(s: Seq<(u32, V)>, k: u32) -> bool {
    exists|i: int| 0 <= i < s.len() && s[i].0 == k
}

pub open spec fn entries_idx_of<V>(s: Seq<(u32, V)>, k: u32) -> int {
    choose|i: int| 0 <= i < s.len() && s[i].0 == k
}

/// The mapping an entry sequence carries, element views as values.
pub open spec fn entries_map<V: View>(s: Seq<(u32, V)>) -> Map<u32, V::V> {
    Map::new(|k: u32| entries_has_key(s, k), |k: u32| s[entries_idx_of(s, k)].1@)
}

/// In a sorted sequence each key names one entry.
proof fn lemma_sorted_at<V: View>(s: Seq<(u32, V)>, i: int)
    requires
        entries_sorted(s),
        0 <= i < s.len(),
    ensures
        entries_map(s).dom().contains(s[i].0),
        entries_map(s)[s[i].0] == s[i].1@,
{
    assert(entries_has_key(s, s[i].0));
    let j = entries_idx_of(s, s[i].0);
    if j < i {
        assert(s[j].0 < s[i].0);
    } else if j > i {
        assert(s[i].0 < s[j].0);
    }
}

/// An id-keyed, ascending-ordered mapping. The well-formedness of the
/// ordering is a type invariant: every value of this type carries it.
pub struct IdMap<V> {
    entries: Vec<(u32, V)>,
}

impl<V: View> View for IdMap<V> {
    type V = Map<u32, V::V>;

    closed spec fn view(&self) -> Map<u32, V::V> {
        entries_map(self.entries@)
    }
}

impl<V> IdMap<V> {
    #[verifier::type_invariant]
    spec fn inv(self) -> bool {
        entries_sorted(self.entries@)
    }

    /// The entry sequence behind the mapping; ascending by key.
    pub closed spec fn entries_seq(&self) -> Seq<(u32, V)> {
        self.entries@
    }
}

impl<V: View> IdMap<V> {
    pub fn new() -> (r: Self)
        ensures
            r@ == Map::<u32, V::V>::empty(),
            r.entries_seq() == Seq::<(u32, V)>::empty(),
    {
        let r = IdMap { entries: Vec::new() };
        proof {
            assert(r@ =~= Map::<u32, V::V>::empty());
        }
        r
    }

    /// The first position whose key is not below `id`: binary search over
    /// the ascending entries.
    #[verifier::loop_isolation(false)]
    fn lower_bound(&self, id: u32) -> (p: usize)
        ensures
            p <= self.entries_seq().len(),
            forall|j: int| 0 <= j < p ==> self.entries_seq()[j].0 < id,
            forall|j: int| p <= j < self.entries_seq().len() ==> self.entries_seq()[j].0 >= id,
    {
        proof {
            use_type_invariant(&*self);
        }
        let mut lo: usize = 0;
        let mut hi: usize = self.entries.len();
        while lo < hi
            invariant
                lo <= hi <= self.entries@.len(),
                forall|j: int| 0 <= j < lo ==> self.entries@[j].0 < id,
                forall|j: int| hi <= j < self.entries@.len() ==> self.entries@[j].0 >= id,
            decreases hi - lo,
        {
            let mid = lo + (hi - lo) / 2;
            if self.entries[mid].0 < id {
                proof {
                    assert forall|j: int| 0 <= j < mid + 1 implies self.entries@[j].0 < id by {
                        if j < mid {
                            assert(self.entries@[j].0 < self.entries@[mid as int].0);
                        }
                    }
                }
                lo = mid + 1;
            } else {
                proof {
                    assert forall|j: int|
                        mid <= j < self.entries@.len() implies self.entries@[j].0 >= id by {
                        if j > mid {
                            assert(self.entries@[mid as int].0 < self.entries@[j].0);
                        }
                    }
                }
                hi = mid;
            }
        }
        lo
    }

    pub fn contains_key(&self, id: u32) -> (r: bool)
        ensures
            r == self@.dom().contains(id),
    {
        proof {
            use_type_invariant(&*self);
        }
        let p = self.lower_bound(id);
        if p < self.entries.len() && self.entries[p].0 == id {
            proof {
                lemma_sorted_at(self.entries@, p as int);
            }
            true
        } else {
            proof {
                assert(!entries_has_key(self.entries@, id)) by {
                    if entries_has_key(self.entries@, id) {
                        let i = choose|i: int|
                            0 <= i < self.entries@.len() && self.entries@[i].0 == id;
                        assert(i >= p);
                        if i > p {
                            assert(self.entries@[p as int].0 < self.entries@[i].0);
                        }
                    }
                }
            }
            false
        }
    }

    pub fn get(&self, id: u32) -> (r: Option<&V>)
        ensures
            match r {
                Some(x) => self@.dom().contains(id) && x@ == self@[id],
                None => !self@.dom().contains(id),
            },
    {
        proof {
            use_type_invariant(&*self);
        }
        let p = self.lower_bound(id);
        if p < self.entries.len() && self.entries[p].0 == id {
            proof {
                lemma_sorted_at(self.entries@, p as int);
            }
            Some(&self.entries[p].1)
        } else {
            proof {
                assert(!entries_has_key(self.entries@, id)) by {
                    if entries_has_key(self.entries@, id) {
                        let i = choose|i: int|
                            0 <= i < self.entries@.len() && self.entries@[i].0 == id;
                        assert(i >= p);
                        if i > p {
                            assert(self.entries@[p as int].0 < self.entries@[i].0);
                        }
                    }
                }
            }
            None
        }
    }

    /// Inserts a record that must not exist yet: an `add` never overwrites,
    /// and a conflict leaves the mapping untouched.
    #[verifier::loop_isolation(false)]
    pub fn insert_new(&mut self, id: u32, v: V) -> (r: Result<(), KfmError>)
        ensures
            match r {
                Ok(()) => !old(self)@.dom().contains(id) && final(self)@ == old(
                    self,
                )@.insert(id, v@),
                Err(e) => old(self)@.dom().contains(id) && e == KfmError::Conflict(id) && *final(self) == *old(self),
            },
{
        proof {
            use_type_invariant(&*self);
        }
        let ghost s0 = self.entries@;
        let p = self.lower_bound(id);
        if p < self.entries.len() && self.entries[p].0 == id {
            proof {
                lemma_sorted_at(s0, p as int);
            }
            return Err(KfmError::Conflict(id));
        }
        proof {
            assert(!entries_has_key(s0, id)) by {
                if entries_has_key(s0, id) {
                    let i = choose|i: int| 0 <= i < s0.len() && s0[i].0 == id;
                    assert(i >= p);
                    if i > p {
                        assert(s0[p as int].0 < s0[i].0);
                    }
                }
            }
        }
        let mut entries: Vec<(u32, V)> = Vec::new();
        core::mem::swap(&mut entries, &mut self.entries);
        entries.insert(p, (id, v));
        proof {
            let t = entries@;
            assert(t == s0.insert(p as int, (id, v)));
            s0.insert_ensures(p as int, (id, v));
            assert forall|i: int, j: int| 0 <= i < j < t.len() implies t[i].0 < t[j].0 by {
                if (p as int) < s0.len() {
                    assert(s0[p as int].0 > id);
                }
            }
            assert forall|k: u32| #[trigger] entries_has_key(t, k) implies entries_has_key(
                s0,
                k,
            ) || k == id by {
                let i = choose|i: int| 0 <= i < t.len() && t[i].0 == k;
                if i < p {
                    assert(s0[i] == t[i]);
                } else if i > p {
                    assert(s0[i - 1] == t[i]);
                }
            }
            assert forall|k: u32| entries_has_key(s0, k) implies #[trigger] entries_has_key(
                t,
                k,
            ) by {
                let i = choose|i: int| 0 <= i < s0.len() && s0[i].0 == k;
                if i < p {
                    assert(t[i] == s0[i]);
                } else {
                    assert(t[i + 1] == s0[i]);
                }
            }
            assert(entries_has_key(t, id));
            assert forall|k: u32| entries_has_key(s0, k) implies entries_map(t)[k]
                == entries_map(s0)[k] by {
                let i = choose|i: int| 0 <= i < s0.len() && s0[i].0 == k;
                lemma_sorted_at(s0, i);
                if i < p {
                    assert(t[i] == s0[i]);
                    lemma_sorted_at(t, i);
                } else {
                    assert(t[i + 1] == s0[i]);
                    lemma_sorted_at(t, i + 1);
                }
            }
            assert(t[p as int] == (id, v));
            lemma_sorted_at(t, p as int);
            assert(entries_map(t) =~= entries_map(s0).insert(id, v@));
        }
        core::mem::swap(&mut entries, &mut self.entries);
        Ok(())
    }

    /// Removes the record at `id`, if any, and hands it out.
    #[verifier::loop_isolation(false)]
    pub fn remove(&mut self, id: u32) -> (r: Option<V>)
        ensures
            final(self)@ == old(self)@.remove(id),
            match r {
                Some(x) => old(self)@.dom().contains(id) && x@ == old(self)@[id],
                None => !old(self)@.dom().contains(id) && *final(self) == *old(self),
            },
    {
        proof {
            use_type_invariant(&*self);
        }
        let ghost s0 = self.entries@;
        let p = self.lower_bound(id);
        if !(p < self.entries.len()) || self.entries[p].0 != id {
            proof {
                assert(!entries_has_key(s0, id)) by {
                    if entries_has_key(s0, id) {
                        let i = choose|i: int| 0 <= i < s0.len() && s0[i].0 == id;
                        assert(i >= p);
                        if i > p {
                            assert(s0[p as int].0 < s0[i].0);
                        }
                    }
                }
                assert(final(self)@ =~= old(self)@.remove(id));
            }
            return None;
        }
        let mut entries: Vec<(u32, V)> = Vec::new();
        core::mem::swap(&mut entries, &mut self.entries);
        let (_k, v) = entries.remove(p);
        proof {
            let t = entries@;
            assert(t == s0.remove(p as int));
            s0.remove_ensures(p as int);
            lemma_sorted_at(s0, p as int);
            assert forall|i: int, j: int| 0 <= i < j < t.len() implies t[i].0 < t[j].0 by {}
            assert forall|k: u32| #[trigger] entries_has_key(t, k) implies entries_has_key(
                s0,
                k,
            ) && k != id by {
                let i = choose|i: int| 0 <= i < t.len() && t[i].0 == k;
                if i < p {
                    assert(s0[i] == t[i]);
                    assert(s0[i].0 < s0[p as int].0);
                } else {
                    assert(s0[i + 1] == t[i]);
                    assert(s0[p as int].0 < s0[i + 1].0);
                }
            }
            assert forall|k: u32| entries_has_key(s0, k) && k != id implies
                #[trigger] entries_has_key(t, k) by {
                let i = choose|i: int| 0 <= i < s0.len() && s0[i].0 == k;
                if i < p {
                    assert(t[i] == s0[i]);
                } else {
                    assert(i != p);
                    assert(t[i - 1] == s0[i]);
                }
            }
            assert forall|k: u32| entries_has_key(s0, k) && k != id implies entries_map(t)[k]
                == entries_map(s0)[k] by {
                let i = choose|i: int| 0 <= i < s0.len() && s0[i].0 == k;
                lemma_sorted_at(s0, i);
                if i < p {
                    assert(t[i] == s0[i]);
                    lemma_sorted_at(t, i);
                } else {
                    assert(t[i - 1] == s0[i]);
                    lemma_sorted_at(t, i - 1);
                }
            }
            assert(entries_map(t) =~= entries_map(s0).remove(id));
        }
        core::mem::swap(&mut entries, &mut self.entries);
        Some(v)
    }

    /// Removes every record whose id stands in `ids`; ids with no record
    /// are passed over silently.
    #[verifier::loop_isolation(false)]
    pub fn remove_ids(&mut self, ids: &Vec<u32>)
        ensures
            final(self)@ == Map::<u32, V::V>::new(
                |k: u32| old(self)@.dom().contains(k) && !ids@.contains(k),
                |k: u32| old(self)@[k],
            ),
    {
        let ghost m0 = self@;
        let mut i: usize = 0;
        while i < ids.len()
            invariant
                i <= ids@.len(),
                self@ == Map::<u32, V::V>::new(
                    |k: u32| m0.dom().contains(k) && !ids@.take(i as int).contains(k),
                    |k: u32| m0[k],
                ),
            decreases ids@.len() - i,
        {
            let ghost prev = self@;
            self.remove(ids[i]);
            proof {
                assert forall|k: u32|
                    ids@.take(i as int + 1).contains(k) <==> (ids@.take(i as int).contains(k) || k
                        == ids@[i as int]) by {
                    if ids@.take(i as int + 1).contains(k) {
                        let j = choose|j: int|
                            0 <= j < ids@.take(i as int + 1).len() && #[trigger] ids@.take(
                                i as int + 1,
                            )[j] == k;
                        if j < i {
                            assert(ids@.take(i as int)[j] == k);
                        }
                    }
                    if ids@.take(i as int).contains(k) {
                        let j = choose|j: int|
                            0 <= j < ids@.take(i as int).len() && #[trigger] ids@.take(
                                i as int,
                            )[j] == k;
                        assert(ids@.take(i as int + 1)[j] == k);
                    }
                    if k == ids@[i as int] {
                        assert(ids@.take(i as int + 1)[i as int] == k);
                    }
                }
                assert(self@ =~= Map::<u32, V::V>::new(
                    |k: u32| m0.dom().contains(k) && !ids@.take(i as int + 1).contains(k),
                    |k: u32| m0[k],
                ));
            }
            i = i + 1;
        }
        proof {
            assert(ids@.take(ids@.len() as int) =~= ids@);
        }
    }

    /// The ids present, ascending.
    #[verifier::loop_isolation(false)]
    pub fn keys(&self) -> (r: Vec<u32>)
        ensures
            forall|i: int, j: int| 0 <= i < j < r@.len() ==> r@[i] < r@[j],
            forall|i: int| 0 <= i < r@.len() ==> self@.dom().contains(#[trigger] r@[i]),
            forall|k: u32| self@.dom().contains(k) ==> r@.contains(k),
    {
        proof {
            use_type_invariant(&*self);
        }
        let mut r: Vec<u32> = Vec::new();
        let mut i: usize = 0;
        while i < self.entries.len()
            invariant
                i <= self.entries@.len(),
                r@.len() == i,
                forall|j: int| 0 <= j < i ==> r@[j] == self.entries@[j].0,
            decreases self.entries@.len() - i,
        {
            let k = self.entries[i].0;
            r.push(k);
            i = i + 1;
        }
        proof {
            assert forall|i: int| 0 <= i < r@.len() implies self@.dom().contains(
                #[trigger] r@[i],
            ) by {
                lemma_sorted_at(self.entries@, i);
            }
            assert forall|k: u32| self@.dom().contains(k) implies r@.contains(k) by {
                let i = choose|i: int|
                    0 <= i < self.entries@.len() && self.entries@[i].0 == k;
                assert(r@[i] == k);
            }
        }
        r
    }

    /// Hands the records out in ascending id order.
    pub fn into_entries(self) -> (r: Vec<(u32, V)>)
        ensures
            r@ == self.entries_seq(),
            entries_sorted(r@),
            forall|i: int|
                0 <= i < r@.len() ==> self@.dom().contains(#[trigger] r@[i].0) && r@[i].1@
                    == self@[r@[i].0],
            forall|k: u32| self@.dom().contains(k) ==> exists|i: int|
                0 <= i < r@.len() && #[trigger] r@[i].0 == k,
    {
        proof {
            use_type_invariant(&self);
            assert forall|i: int| 0 <= i < self.entries@.len() implies self@.dom().contains(
                #[trigger] self.entries@[i].0,
            ) && self.entries@[i].1@ == self@[self.entries@[i].0] by {
                lemma_sorted_at(self.entries@, i);
            }
        }
        let IdMap { entries } = self;
        entries
    }
}

// ---------------------------------------------------------------------------
// the mapped graph
// ---------------------------------------------------------------------------

/// A transition as the indexed view holds it: its target id is the key.
pub struct MappedTransition {
    pub type_: TransitionType,
    pub ext: Option<TransitionExt>,
}

#[verifier::ext_equal]
pub struct MappedTransitionV {
    pub type_: TransitionType,
    pub ext: Option<TransitionExtV>,
}

impl View for MappedTransition {
    type V = MappedTransitionV;

    open spec fn view(&self) -> MappedTransitionV {
        MappedTransitionV {
            type_: self.type_,
            ext: match self.ext {
                Some(e) => Some(e@),
                None => None,
            },
        }
    }
}

/// A clip as the indexed view holds it: its id is the key, its outgoing
/// transitions are keyed by target id.
pub struct MappedAnimation {
    pub path: Vec<u8>,
    pub index: u32,
    pub trans: IdMap<MappedTransition>,
}

#[verifier::ext_equal]
pub struct MappedAnimationV {
    pub path: Seq<u8>,
    pub index: u32,
    pub trans: Map<u32, MappedTransitionV>,
}

impl View for MappedAnimation {
    type V = MappedAnimationV;

    open spec fn view(&self) -> MappedAnimationV {
        MappedAnimationV { path: self.path@, index: self.index, trans: self.trans@ }
    }
}

/// The whole graph with its clips re-keyed by id.
pub struct MappedSource {
    pub model: Model,
    pub default_trans: DefaultTransitions,
    pub anims: IdMap<MappedAnimation>,
    pub layer_groups: Vec<LayerGroup>,
}

#[verifier::ext_equal]
pub struct MappedSourceV {
    pub model: ModelV,
    pub default_trans: DefaultTransitions,
    pub anims: Map<u32, MappedAnimationV>,
    pub layer_groups: Seq<crate::source::LayerGroupV>,
}

impl View for MappedSource {
    type V = MappedSourceV;

    open spec fn view(&self) -> MappedSourceV {
        MappedSourceV {
            model: self.model@,
            default_trans: self.default_trans,
            anims: self.anims@,
            layer_groups: seq_view(self.layer_groups@),
        }
    }
}

// ---------------------------------------------------------------------------
// re-keying, in specification
// ---------------------------------------------------------------------------

pub open spec fn mapped_tran_of(t: TransitionV) -> MappedTransitionV {
    MappedTransitionV { type_: t.type_, ext: t.ext }
}

pub open spec fn tran_ids(ts: Seq<TransitionV>) -> Seq<u32> {
    Seq::new(ts.len(), |i: int| ts[i].id)
}

/// The first id in the sequence that repeats an earlier one, scanning from
/// position `j`: the id the re-keying reports as duplicate.
pub open spec fn first_dup_at(ids: Seq<u32>, j: int) -> Option<u32>
    decreases ids.len() - j,
{
    if j < 0 || j >= ids.len() {
        None
    } else if exists|i: int| 0 <= i < j && ids[i] == ids[j] {
        Some(ids[j])
    } else {
        first_dup_at(ids, j + 1)
    }
}

pub open spec fn first_dup(ids: Seq<u32>) -> Option<u32> {
    first_dup_at(ids, 0)
}

/// A clip's transitions re-keyed by target id; meaningful when no two
/// share one.
pub open spec fn trans_map_of(ts: Seq<TransitionV>) -> Map<u32, MappedTransitionV> {
    Map::new(
        |k: u32| exists|i: int| 0 <= i < ts.len() && (#[trigger] ts[i]).id == k,
        |k: u32|
            mapped_tran_of(
                ts[choose|i: int| 0 <= i < ts.len() && (#[trigger] ts[i]).id == k],
            ),
    )
}

pub open spec fn map_anim_of(a: AnimationV) -> MappedAnimationV {
    MappedAnimationV { path: a.path, index: a.index, trans: trans_map_of(a.trans) }
}

/// The id on which building the indexed view fails, scanning clips in file
/// order: a repeated target id inside a clip, or a repeated clip id.
pub open spec fn build_fail_at(anims: Seq<AnimationV>, j: int) -> Option<u32>
    decreases anims.len() - j,
{
    if j < 0 || j >= anims.len() {
        None
    } else if first_dup(tran_ids(anims[j].trans)) is Some {
        first_dup(tran_ids(anims[j].trans))
    } else if exists|i: int| 0 <= i < j && (#[trigger] anims[i]).id == anims[j].id {
        Some(anims[j].id)
    } else {
        build_fail_at(anims, j + 1)
    }
}

pub open spec fn build_fail(anims: Seq<AnimationV>) -> Option<u32> {
    build_fail_at(anims, 0)
}

pub open spec fn anims_map_of(anims: Seq<AnimationV>) -> Map<u32, MappedAnimationV> {
    Map::new(
        |k: u32| exists|i: int| 0 <= i < anims.len() && (#[trigger] anims[i]).id == k,
        |k: u32|
            map_anim_of(
                anims[choose|i: int| 0 <= i < anims.len() && (#[trigger] anims[i]).id == k],
            ),
    )
}

/// What re-keying a whole graph yields, when it succeeds.
pub open spec fn mapped_of_body(b: crate::source::SourceFileBodyV) -> MappedSourceV {
    MappedSourceV {
        model: b.model,
        default_trans: b.default_trans,
        anims: anims_map_of(b.anims),
        layer_groups: b.layer_groups,
    }
}

/// With distinct target ids, each transition is the record its id maps to.
proof fn lemma_trans_map_at(ts: Seq<TransitionV>, i: int)
    requires
        forall|j1: int, j2: int|
            0 <= j1 < j2 < ts.len() ==> (#[trigger] ts[j1]).id != (#[trigger] ts[j2]).id,
        0 <= i < ts.len(),
    ensures
        trans_map_of(ts).dom().contains(ts[i].id),
        trans_map_of(ts)[ts[i].id] == mapped_tran_of(ts[i]),
{
    assert(exists|j: int| 0 <= j < ts.len() && (#[trigger] ts[j]).id == ts[i].id);
    let j = choose|j: int| 0 <= j < ts.len() && (#[trigger] ts[j]).id == ts[i].id;
    if j != i {
        assert((#[trigger] ts[j]).id != (#[trigger] ts[i]).id);
    }
}

impl MappedAnimation {
    /// Re-keys one clip's transitions by target id. Two transitions of the
    /// clip sharing a target id make the duplicate explicit instead of one
    /// record silently burying the other.
    #[verifier::loop_isolation(false)]
    pub fn try_from(from: Animation) -> (r: Result<MappedAnimation, KfmError>)
        ensures
            match r {
                Ok(ma) => first_dup(tran_ids(from@.trans)) is None && ma@ == map_anim_of(
                    from@,
                ),
                Err(e) => first_dup(tran_ids(from@.trans)) is Some && e
                    == KfmError::DuplicateId(first_dup(tran_ids(from@.trans)).unwrap()),
            },
    {
        let ghost ts0 = from@.trans;
        let ghost ids0 = tran_ids(from@.trans);
        let Animation { id: _, path, index, trans } = from;
        let mut trans = trans;
        let mut m: IdMap<MappedTransition> = IdMap::new();
        let ghost mut i: int = 0;
        proof {
            assert(m@ =~= trans_map_of(ts0.take(0)));
        }
        while trans.len() > 0
            invariant
                0 <= i,
                i + trans@.len() == ts0.len(),
                seq_view(trans@) == ts0.skip(i),
                m@ == trans_map_of(ts0.take(i)),
                forall|j1: int, j2: int| 0 <= j1 < j2 < i ==> ids0[j1] != ids0[j2],
                first_dup_at(ids0, 0) == first_dup_at(ids0, i),
            decreases trans@.len(),
        {
            let ghost tr_before = trans@;
            let t = trans.remove(0);
            proof {
                tr_before.remove_ensures(0);
                assert(t@ == seq_view(tr_before)[0]);
                assert(t@ == ts0[i]);
                assert forall|j: int| 0 <= j < trans@.len() implies seq_view(trans@)[j]
                    == ts0.skip(i + 1)[j] by {
                    assert(trans@[j] == tr_before.remove(0)[j]);
                    assert(trans@[j] == tr_before[j + 1]);
                    assert(seq_view(tr_before)[j + 1] == tr_before[j + 1]@);
                    assert(ts0.skip(i)[j + 1] == ts0[i + 1 + j]);
                    assert(ts0.skip(i + 1)[j] == ts0[i + 1 + j]);
                }
                assert(seq_view(trans@) =~= ts0.skip(i + 1));
            }
            let t_id = t.id;
            let mt = MappedTransition { type_: t.type_, ext: t.ext };
            proof {
                assert(mt@ == mapped_tran_of(ts0[i]));
            }
            let ghost mprev = m@;
            match m.insert_new(t_id, mt) {
                Ok(()) => (),
                Err(_) => {
                    proof {
                        let j = choose|j: int|
                            0 <= j < ts0.take(i).len() && (#[trigger] ts0.take(
                                i,
                            )[j]).id == t_id;
                        assert(ids0[j] == ids0[i]);
                        assert(first_dup_at(ids0, i) == Some(ids0[i]));
                    }
                    return Err(KfmError::DuplicateId(t_id));
                },
            }
            proof {
                assert(!(exists|j: int| 0 <= j < i && ids0[j] == ids0[i])) by {
                    if exists|j: int| 0 <= j < i && ids0[j] == ids0[i] {
                        let j = choose|j: int| 0 <= j < i && ids0[j] == ids0[i];
                        assert((#[trigger] ts0.take(i)[j]).id == t_id);
                        assert(mprev.dom().contains(t_id));
                    }
                }
                assert(first_dup_at(ids0, i) == first_dup_at(ids0, i + 1));
                let tsp = ts0.take(i + 1);
                let tsi = ts0.take(i);
                assert forall|j1: int, j2: int| 0 <= j1 < j2 < tsp.len() implies (
                #[trigger] tsp[j1]).id != (#[trigger] tsp[j2]).id by {
                    assert(tsp[j1] == ts0[j1] && tsp[j2] == ts0[j2]);
                    assert(ids0[j1] == ts0[j1].id && ids0[j2] == ts0[j2].id);
                }
                let tm1 = trans_map_of(tsp);
                assert forall|k: u32| #[trigger] tm1.dom().contains(k) implies m@.dom().contains(
                    k,
                ) && m@[k] == tm1[k] by {
                    let j = choose|j: int| 0 <= j < tsp.len() && (#[trigger] tsp[j]).id == k;
                    lemma_trans_map_at(tsp, j);
                    if j < i {
                        assert((#[trigger] tsi[j]).id == k);
                        assert(mprev.dom().contains(k));
                        lemma_trans_map_at(tsi, j);
                        assert(k != t_id);
                        assert(m@[k] == mprev[k]);
                        assert(tsp[j] == tsi[j]);
                    } else {
                        assert(j == i);
                        assert(k == t_id);
                        assert(m@[k] == mt@);
                    }
                }
                assert forall|k: u32| #[trigger] m@.dom().contains(k) implies tm1.dom().contains(
                    k,
                ) by {
                    if k == t_id {
                        assert((#[trigger] tsp[i]).id == k);
                    } else {
                        assert(mprev.dom().contains(k));
                        let j = choose|j: int|
                            0 <= j < tsi.len() && (#[trigger] tsi[j]).id == k;
                        assert((#[trigger] tsp[j]).id == k);
                    }
                }
                assert(m@ =~= tm1);
            }
            proof {
                i = i + 1;
            }
        }
        proof {
            assert(ts0.take(ts0.len() as int) =~= ts0);
            assert(first_dup_at(ids0, ts0.len() as int) is None);
        }
        Ok(MappedAnimation { path, index, trans: m })
    }
}

/// With distinct clip ids, each clip is the record its id maps to.
proof fn lemma_anims_map_at(s: Seq<AnimationV>, i: int)
    requires
        forall|j1: int, j2: int|
            0 <= j1 < j2 < s.len() ==> (#[trigger] s[j1]).id != (#[trigger] s[j2]).id,
        0 <= i < s.len(),
    ensures
        anims_map_of(s).dom().contains(s[i].id),
        anims_map_of(s)[s[i].id] == map_anim_of(s[i]),
{
    let w = s[i];
    assert(exists|j: int| 0 <= j < s.len() && (#[trigger] s[j]).id == s[i].id) by {
        assert(0 <= i < s.len() && (s[i]).id == s[i].id);
    }
    let j = choose|j: int| 0 <= j < s.len() && (#[trigger] s[j]).id == s[i].id;
    if j != i {
        assert((#[trigger] s[j]).id != (#[trigger] s[i]).id);
    }
}

impl MappedSource {
    /// Re-keys a decoded graph: clips by id, each clip's transitions by
    /// target id. A repeated clip id, or a repeated target id within one
    /// clip, is reported rather than letting one record bury another.
    #[verifier::loop_isolation(false)]
    #[verifier::rlimit(100)]
    pub fn try_from(from: SourceFileBody) -> (r: Result<MappedSource, KfmError>)
        ensures
            match r {
                Ok(ms) => build_fail(from@.anims) is None && ms@ == mapped_of_body(from@),
                Err(e) => build_fail(from@.anims) is Some && e == KfmError::DuplicateId(
                    build_fail(from@.anims).unwrap(),
                ),
            },
    {
        let ghost as0 = from@.anims;
        let SourceFileBody { model, default_trans, anims, layer_groups } = from;
        let mut anims = anims;
        let mut m: IdMap<MappedAnimation> = IdMap::new();
        let ghost mut i: int = 0;
        proof {
            assert(m@ =~= anims_map_of(as0.take(0)));
        }
        while anims.len() > 0
            invariant
                0 <= i,
                i + anims@.len() == as0.len(),
                seq_view(anims@) == as0.skip(i),
                m@ == anims_map_of(as0.take(i)),
                forall|j1: int, j2: int|
                    0 <= j1 < j2 < i ==> (#[trigger] as0[j1]).id != (#[trigger] as0[j2]).id,
                forall|j: int| 0 <= j < i ==> first_dup(tran_ids((#[trigger] as0[j]).trans))
                    is None,
                build_fail_at(as0, 0) == build_fail_at(as0, i),
            decreases anims@.len(),
        {
            let ghost ab = anims@;
            let a = anims.remove(0);
            proof {
                ab.remove_ensures(0);
                assert(a@ == seq_view(ab)[0]);
                assert(a@ == as0[i]);
                assert forall|j: int| 0 <= j < anims@.len() implies seq_view(anims@)[j]
                    == as0.skip(i + 1)[j] by {
                    assert(anims@[j] == ab.remove(0)[j]);
                    assert(anims@[j] == ab[j + 1]);
                    assert(seq_view(ab)[j + 1] == ab[j + 1]@);
                    assert(as0.skip(i)[j + 1] == as0[i + 1 + j]);
                    assert(as0.skip(i + 1)[j] == as0[i + 1 + j]);
                }
                assert(seq_view(anims@) =~= as0.skip(i + 1));
            }
            let a_id = a.id;
            let ma = match MappedAnimation::try_from(a) {
                Ok(v) => v,
                Err(e) => {
                    proof {
                        assert(build_fail_at(as0, i) == first_dup(tran_ids(as0[i].trans)));
                    }
                    return Err(e);
                },
            };
            let ghost mprev = m@;
            match m.insert_new(a_id, ma) {
                Ok(()) => (),
                Err(_) => {
                    proof {
                        let j = choose|j: int|
                            0 <= j < as0.take(i).len() && (#[trigger] as0.take(i)[j]).id
                                == a_id;
                        assert((#[trigger] as0[j]).id == (#[trigger] as0[i]).id);
                        assert(build_fail_at(as0, i) == Some(as0[i].id));
                    }
                    return Err(KfmError::DuplicateId(a_id));
                },
            }
            proof {
                assert(!(exists|j: int|
                    0 <= j < i && (#[trigger] as0[j]).id == as0[i].id)) by {
                    if exists|j: int| 0 <= j < i && (#[trigger] as0[j]).id == as0[i].id {
                        let j = choose|j: int|
                            0 <= j < i && (#[trigger] as0[j]).id == as0[i].id;
                        assert((#[trigger] as0.take(i)[j]).id == a_id);
                        assert(mprev.dom().contains(a_id));
                    }
                }
                assert(build_fail_at(as0, i) == build_fail_at(as0, i + 1));
                let asp = as0.take(i + 1);
                let asi = as0.take(i);
                assert forall|j1: int, j2: int| 0 <= j1 < j2 < asp.len() implies (
                #[trigger] asp[j1]).id != (#[trigger] asp[j2]).id by {
                    assert(asp[j1] == as0[j1] && asp[j2] == as0[j2]);
                }
                let tm1 = anims_map_of(asp);
                assert forall|k: u32| #[trigger] tm1.dom().contains(k) implies m@.dom().contains(
                    k,
                ) && m@[k] == tm1[k] by {
                    let j = choose|j: int| 0 <= j < asp.len() && (#[trigger] asp[j]).id == k;
                    lemma_anims_map_at(asp, j);
                    if j < i {
                        assert((#[trigger] asi[j]).id == k);
                        assert(mprev.dom().contains(k));
                        lemma_anims_map_at(asi, j);
                        assert(k != a_id);
                        assert(m@[k] == mprev[k]);
                        assert(asp[j] == asi[j]);
                    } else {
                        assert(j == i);
                        assert(k == a_id);
                    }
                }
                assert forall|k: u32| #[trigger] m@.dom().contains(k) implies tm1.dom().contains(
                    k,
                ) by {
                    if k == a_id {
                        assert((#[trigger] asp[i]).id == k);
                    } else {
                        assert(mprev.dom().contains(k));
                        let j = choose|j: int|
                            0 <= j < asi.len() && (#[trigger] asi[j]).id == k;
                        assert((#[trigger] asp[j]).id == k);
                    }
                }
                assert(m@ =~= tm1);
                i = i + 1;
            }
        }
        proof {
            assert(as0.take(as0.len() as int) =~= as0);
            assert(build_fail_at(as0, as0.len() as int) is None);
        }
        Ok(MappedSource { model, default_trans, anims: m, layer_groups })
    }
}

// ---------------------------------------------------------------------------
// back to the sequential shape
// ---------------------------------------------------------------------------

pub open spec fn tran_unmapped(k: u32, mt: MappedTransitionV) -> TransitionV {
    TransitionV { id: k, type_: mt.type_, ext: mt.ext }
}

/// The sequential transition list stands for the mapping: ascending target
/// ids, each record the mapping's, nothing missing.
pub open spec fn trans_list_matches(
    ts: Seq<TransitionV>,
    tm: Map<u32, MappedTransitionV>,
) -> bool {
    &&& forall|i: int, j: int|
        0 <= i < j < ts.len() ==> (#[trigger] ts[i]).id < (#[trigger] ts[j]).id
    &&& forall|i: int|
        0 <= i < ts.len() ==> tm.dom().contains((#[trigger] ts[i]).id) && ts[i]
            == tran_unmapped(ts[i].id, tm[ts[i].id])
    &&& forall|k: u32| #[trigger]
        tm.dom().contains(k) ==> exists|i: int| 0 <= i < ts.len() && (#[trigger] ts[i]).id == k
}

pub open spec fn anim_unmapped_matches(a: AnimationV, mav: MappedAnimationV) -> bool {
    a.path == mav.path && a.index == mav.index && trans_list_matches(a.trans, mav.trans)
}

/// The sequential clip list stands for the mapping, ascending by id.
pub open spec fn anims_list_matches(
    s: Seq<AnimationV>,
    am: Map<u32, MappedAnimationV>,
) -> bool {
    &&& forall|i: int, j: int|
        0 <= i < j < s.len() ==> (#[trigger] s[i]).id < (#[trigger] s[j]).id
    &&& forall|i: int|
        0 <= i < s.len() ==> am.dom().contains((#[trigger] s[i]).id) && anim_unmapped_matches(
            s[i],
            am[s[i].id],
        )
    &&& forall|k: u32| #[trigger]
        am.dom().contains(k) ==> exists|i: int| 0 <= i < s.len() && (#[trigger] s[i]).id == k
}

impl SourceFileBody {
    /// Converts the indexed view back to the sequential shape the codec
    /// writes: clips in ascending id order, each clip's transitions in
    /// ascending target id order. The file's original record order is not
    /// restored; that loss is the documented price of the edit round trip.
    #[verifier::loop_isolation(false)]
    #[verifier::rlimit(100)]
    pub fn from(from: MappedSource) -> (r: SourceFileBody)
        ensures
            r@.model == from@.model,
            r@.default_trans == from@.default_trans,
            r@.layer_groups == from@.layer_groups,
            anims_list_matches(r@.anims, from@.anims),
    {
        let MappedSource { model, default_trans, anims, layer_groups } = from;
        let ghost am = anims@;
        let mut entries = anims.into_entries();
        let ghost es = entries@;
        let mut out: Vec<Animation> = Vec::new();
        let ghost mut i: int = 0;
        while entries.len() > 0
            invariant
                0 <= i,
                i + entries@.len() == es.len(),
                entries@ == es.skip(i),
                out@.len() == i,
                forall|j: int|
                    0 <= j < i ==> (#[trigger] seq_view(out@)[j]).id == es[j].0
                        && anim_unmapped_matches(seq_view(out@)[j], es[j].1@),
            decreases entries@.len(),
        {
            let ghost eb = entries@;
            let (k, ma) = entries.remove(0);
            proof {
                eb.remove_ensures(0);
                assert(eb[0] == es[i]);
                assert(entries@ =~= es.skip(i + 1));
            }
            let MappedAnimation { path, index, trans } = ma;
            let ghost tm = trans@;
            let mut tentries = trans.into_entries();
            let ghost tes = tentries@;
            let mut tv: Vec<Transition> = Vec::new();
            let ghost mut ti: int = 0;
            while tentries.len() > 0
                invariant
                    0 <= ti,
                    ti + tentries@.len() == tes.len(),
                    tentries@ == tes.skip(ti),
                    tv@.len() == ti,
                    forall|j: int|
                        0 <= j < ti ==> #[trigger] seq_view(tv@)[j] == tran_unmapped(
                            tes[j].0,
                            tes[j].1@,
                        ),
                decreases tentries@.len(),
            {
                let ghost tb = tentries@;
                let (tk, mt) = tentries.remove(0);
                proof {
                    tb.remove_ensures(0);
                    assert(tb[0] == tes[ti]);
                    assert(tentries@ =~= tes.skip(ti + 1));
                }
                let t = Transition { id: tk, type_: mt.type_, ext: mt.ext };
                proof {
                    assert(t@ == tran_unmapped(tes[ti].0, tes[ti].1@));
                }
                let ghost tvb = tv@;
                tv.push(t);
                proof {
                    assert forall|j: int| 0 <= j < ti + 1 implies #[trigger] seq_view(tv@)[j]
                        == tran_unmapped(tes[j].0, tes[j].1@) by {
                        if j < ti {
                            assert(tv@[j] == tvb[j]);
                            assert(seq_view(tvb)[j] == tvb[j]@);
                            assert(seq_view(tv@)[j] == tv@[j]@);
                        } else {
                            assert(seq_view(tv@)[j] == tv@[j]@);
                            assert(tv@[j] == t);
                        }
                    }
                    ti = ti + 1;
                }
            }
            let a = Animation { id: k, path, index, trans: tv };
            proof {
                assert forall|x: int, y: int|
                    0 <= x < y < seq_view(tv@).len() implies (#[trigger] seq_view(tv@)[x]).id < (
                #[trigger] seq_view(tv@)[y]).id by {
                    assert(seq_view(tv@)[x] == tran_unmapped(tes[x].0, tes[x].1@));
                    assert(seq_view(tv@)[y] == tran_unmapped(tes[y].0, tes[y].1@));
                    assert(tes[x].0 < tes[y].0);
                }
                assert forall|x: int| 0 <= x < seq_view(tv@).len() implies tm.dom().contains((
                #[trigger] seq_view(tv@)[x]).id) && seq_view(tv@)[x] == tran_unmapped(
                    seq_view(tv@)[x].id,
                    tm[seq_view(tv@)[x].id],
                ) by {
                    assert(seq_view(tv@)[x] == tran_unmapped(tes[x].0, tes[x].1@));
                    assert(tm.dom().contains(tes[x].0) && tes[x].1@ == tm[tes[x].0]);
                }
                assert forall|t: u32| #[trigger] tm.dom().contains(t) implies exists|x: int|
                    0 <= x < seq_view(tv@).len() && (#[trigger] seq_view(tv@)[x]).id == t by {
                    let x = choose|x: int| 0 <= x < tes.len() && (#[trigger] tes[x]).0 == t;
                    assert(seq_view(tv@)[x] == tran_unmapped(tes[x].0, tes[x].1@));
                    assert((seq_view(tv@)[x]).id == t);
                }
                assert(anim_unmapped_matches(a@, es[i].1@));
            }
            let ghost outb = out@;
            out.push(a);
            proof {
                assert forall|j: int| 0 <= j < i + 1 implies (#[trigger] seq_view(out@)[j]).id
                    == es[j].0 && anim_unmapped_matches(seq_view(out@)[j], es[j].1@) by {
                    if j < i {
                        assert(out@[j] == outb[j]);
                        assert(seq_view(outb)[j] == outb[j]@);
                        assert(seq_view(out@)[j] == out@[j]@);
                    } else {
                        assert(seq_view(out@)[j] == out@[j]@);
                        assert(out@[j] == a);
                    }
                }
                i = i + 1;
            }
        }
        let r = SourceFileBody { model, default_trans, anims: out, layer_groups };
        proof {
            assert forall|x: int, y: int|
                0 <= x < y < seq_view(out@).len() implies (#[trigger] seq_view(out@)[x]).id < (
            #[trigger] seq_view(out@)[y]).id by {
                assert(es[x].0 < es[y].0);
            }
            assert forall|x: int| 0 <= x < seq_view(out@).len() implies am.dom().contains((
            #[trigger] seq_view(out@)[x]).id) && anim_unmapped_matches(
                seq_view(out@)[x],
                am[seq_view(out@)[x].id],
            ) by {
                assert((seq_view(out@)[x]).id == es[x].0);
                assert(am.dom().contains(es[x].0) && es[x].1@ == am[es[x].0]);
            }
            assert forall|k: u32| #[trigger] am.dom().contains(k) implies exists|x: int|
                0 <= x < seq_view(out@).len() && (#[trigger] seq_view(out@)[x]).id == k by {
                let x = choose|x: int| 0 <= x < es.len() && (#[trigger] es[x]).0 == k;
                assert((seq_view(out@)[x]).id == es[x].0);
            }
        }
        r
    }
}

} // verus!
