//! The patch engine: an ordered list of add / delete / update instructions
//! applied to the indexed view, in file order, each instruction seeing the
//! effects of the ones before it.
//!
//! A failed instruction aborts the batch at once; the view may then be
//! partially edited, and a caller must not persist it.

use vstd::prelude::*;

verus! {

use vstd::map::*;
use crate::error::KfmError;
use crate::source::seq_view;
use crate::source::Animation;
use crate::source::AnimationV;
use crate::source::TransitionType;
use crate::source::TransitionExt;
use crate::source::TransitionExtV;
use crate::source::dup_bytes;
use crate::source::dup_ext;
use crate::mapped::MappedSource;
use crate::mapped::MappedSourceV;
use crate::mapped::MappedAnimation;
use crate::mapped::MappedAnimationV;
use crate::mapped::MappedTransition;
use crate::mapped::MappedTransitionV;
use crate::mapped::build_fail;
use crate::mapped::first_dup;
use crate::mapped::tran_ids;
use crate::mapped::map_anim_of;
use crate::regex_or::RegexOr;
use crate::regex_or::RegexOrV;
use crate::regex_or::sel_matches;
use crate::regex_or::collect_matching_ids;

// ---------------------------------------------------------------------------
// the instructions
// ---------------------------------------------------------------------------

/// An ordered batch of clip-level instructions.
pub struct PatchFile {
    pub anims: Vec<AnimationPatch>,
}

pub struct AnimationPatch {
    pub body: AnimationPatchBody,
}

pub enum AnimationPatchBody {
    Add(AddAnimation),
    Delete(DeleteAnimation),
    Update(UpdateAnimation),
}

/// An `add` carries a whole clip.
pub type AddAnimation = Animation;

pub struct DeleteAnimation {
    pub id: RegexOr<u32>,
}

/// Overwrites only the fields it carries; omitted fields stay untouched.
pub struct UpdateAnimation {
    pub id: RegexOr<u32>,
    pub path: Option<Vec<u8>>,
    pub index: Option<u32>,
    pub trans: Option<Vec<TransitionPatch>>,
}

pub struct TransitionPatch {
    pub body: TransitionPatchBody,
}

pub enum TransitionPatchBody {
    Add(AddTransition),
    Delete(DeleteTransition),
    Update(UpdateTransition),
}

/// An instruction to add a transition to an animation.
pub struct AddTransition {
    pub id: RegexOr<u32>,
    pub type_: TransitionType,
    pub ext: Option<TransitionExt>,
}

/// An instruction to delete an existing transition of an animation.
pub struct DeleteTransition {
    pub id: RegexOr<u32>,
}

/// An instruction to update the data an existing transition of an
/// animation: the kind only when carried, the extension always.
pub struct UpdateTransition {
    pub id: RegexOr<u32>,
    pub type_: Option<TransitionType>,
    pub ext: Option<TransitionExt>,
}

#[verifier::ext_equal]
pub enum AnimationPatchBodyV {
    Add(AnimationV),
    Delete(RegexOrV),
    Update(UpdateAnimationV),
}

#[verifier::ext_equal]
pub struct UpdateAnimationV {
    pub id: RegexOrV,
    pub path: Option<Seq<u8>>,
    pub index: Option<u32>,
    pub trans: Option<Seq<TransitionPatchBodyV>>,
}

#[verifier::ext_equal]
pub enum TransitionPatchBodyV {
    Add(AddTransitionV),
    Delete(RegexOrV),
    Update(UpdateTransitionV),
}

#[verifier::ext_equal]
pub struct AddTransitionV {
    pub id: RegexOrV,
    pub type_: TransitionType,
    pub ext: Option<TransitionExtV>,
}

#[verifier::ext_equal]
pub struct UpdateTransitionV {
    pub id: RegexOrV,
    pub type_: Option<TransitionType>,
    pub ext: Option<TransitionExtV>,
}

impl View for AddTransition {
    type V = AddTransitionV;

    open spec fn view(&self) -> AddTransitionV {
        AddTransitionV {
            id: self.id@,
            type_: self.type_,
            ext: match self.ext {
                Some(e) => Some(e@),
                None => None,
            },
        }
    }
}

impl View for DeleteTransition {
    type V = RegexOrV;

    open spec fn view(&self) -> RegexOrV {
        self.id@
    }
}

impl View for UpdateTransition {
    type V = UpdateTransitionV;

    open spec fn view(&self) -> UpdateTransitionV {
        UpdateTransitionV {
            id: self.id@,
            type_: self.type_,
            ext: match self.ext {
                Some(e) => Some(e@),
                None => None,
            },
        }
    }
}

impl View for DeleteAnimation {
    type V = RegexOrV;

    open spec fn view(&self) -> RegexOrV {
        self.id@
    }
}

impl View for UpdateAnimation {
    type V = UpdateAnimationV;

    open spec fn view(&self) -> UpdateAnimationV {
        UpdateAnimationV {
            id: self.id@,
            path: match &self.path {
                Some(p) => Some(p@),
                None => None,
            },
            index: self.index,
            trans: match &self.trans {
                Some(ts) => Some(seq_view(ts@)),
                None => None,
            },
        }
    }
}

impl View for TransitionPatch {
    type V = TransitionPatchBodyV;

    open spec fn view(&self) -> TransitionPatchBodyV {
        match &self.body {
            TransitionPatchBody::Add(a) => TransitionPatchBodyV::Add(a@),
            TransitionPatchBody::Delete(d) => TransitionPatchBodyV::Delete(d@),
            TransitionPatchBody::Update(u) => TransitionPatchBodyV::Update(u@),
        }
    }
}

impl View for AnimationPatch {
    type V = AnimationPatchBodyV;

    open spec fn view(&self) -> AnimationPatchBodyV {
        match &self.body {
            AnimationPatchBody::Add(a) => AnimationPatchBodyV::Add(a@),
            AnimationPatchBody::Delete(d) => AnimationPatchBodyV::Delete(d@),
            AnimationPatchBody::Update(u) => AnimationPatchBodyV::Update(u@),
        }
    }
}

impl View for PatchFile {
    type V = Seq<AnimationPatchBodyV>;

    open spec fn view(&self) -> Seq<AnimationPatchBodyV> {
        seq_view(self.anims@)
    }
}

// ---------------------------------------------------------------------------
// what each instruction does, in specification
// ---------------------------------------------------------------------------

/// Adding a clip fails on a duplicate target id inside it, or on a clip id
/// that already exists; it never overwrites.
pub open spec fn spec_add_anim(st: MappedSourceV, a: AnimationV) -> Option<MappedSourceV> {
    if first_dup(tran_ids(a.trans)) is Some {
        None
    } else if st.anims.dom().contains(a.id) {
        None
    } else {
        Some(MappedSourceV { anims: st.anims.insert(a.id, map_anim_of(a)), ..st })
    }
}

/// Deleting clips removes every matched clip, and then, from every
/// remaining clip, every transition whose target was among the deleted
/// ids — unconditionally and silently.
pub open spec fn spec_delete_anim(st: MappedSourceV, sel: RegexOrV) -> MappedSourceV {
    MappedSourceV {
        anims: Map::new(
            |k: u32| st.anims.dom().contains(k) && !sel_matches(sel, k),
            |k: u32|
                MappedAnimationV {
                    trans: Map::new(
                        |t: u32|
                            st.anims[k].trans.dom().contains(t) && !(st.anims.dom().contains(t)
                                && sel_matches(sel, t)),
                        |t: u32| st.anims[k].trans[t],
                    ),
                    ..st.anims[k]
                },
        ),
        ..st
    }
}

/// The targets an `add` fans out to: every clip id the selector picks,
/// the owning clip itself silently excluded.
pub open spec fn add_tran_set(all: Set<u32>, self_id: u32, sel: RegexOrV) -> Set<u32> {
    Set::new(|t: u32| all.contains(t) && sel_matches(sel, t) && t != self_id)
}

/// Adding transitions fails if any resolved target already has one.
pub open spec fn spec_add_tran(
    all: Set<u32>,
    self_id: u32,
    tm: Map<u32, MappedTransitionV>,
    p: AddTransitionV,
) -> Option<Map<u32, MappedTransitionV>> {
    let s = add_tran_set(all, self_id, p.id);
    if exists|t: u32| #[trigger] s.contains(t) && tm.dom().contains(t) {
        None
    } else {
        Some(
            Map::new(
                |t: u32| tm.dom().contains(t) || s.contains(t),
                |t: u32|
                    if s.contains(t) {
                        MappedTransitionV { type_: p.type_, ext: p.ext }
                    } else {
                        tm[t]
                    },
            ),
        )
    }
}

/// Deleting transitions resolves against the clip's own targets, so every
/// resolved id has a record; nothing is owed to ids with none.
pub open spec fn spec_delete_tran(
    tm: Map<u32, MappedTransitionV>,
    sel: RegexOrV,
) -> Map<u32, MappedTransitionV> {
    Map::new(|t: u32| tm.dom().contains(t) && !sel_matches(sel, t), |t: u32| tm[t])
}

/// Updating transitions overwrites the kind only when the instruction
/// carries one, but always overwrites the extension — to nothing, when the
/// instruction carries none.
pub open spec fn spec_update_tran(
    tm: Map<u32, MappedTransitionV>,
    p: UpdateTransitionV,
) -> Map<u32, MappedTransitionV> {
    Map::new(
        |t: u32| tm.dom().contains(t),
        |t: u32|
            if sel_matches(p.id, t) {
                MappedTransitionV {
                    type_: match p.type_ {
                        Some(ty) => ty,
                        None => tm[t].type_,
                    },
                    ext: p.ext,
                }
            } else {
                tm[t]
            },
    )
}

/// One transition-level instruction against one clip's transitions.
pub open spec fn spec_tran_step(
    all: Set<u32>,
    self_id: u32,
    tm: Map<u32, MappedTransitionV>,
    p: TransitionPatchBodyV,
) -> Option<Map<u32, MappedTransitionV>> {
    match p {
        TransitionPatchBodyV::Add(a) => spec_add_tran(all, self_id, tm, a),
        TransitionPatchBodyV::Delete(sel) => Some(spec_delete_tran(tm, sel)),
        TransitionPatchBodyV::Update(u) => Some(spec_update_tran(tm, u)),
    }
}

/// A clip's nested instructions, applied in file order.
pub open spec fn spec_tran_steps(
    all: Set<u32>,
    self_id: u32,
    tm: Map<u32, MappedTransitionV>,
    ps: Seq<TransitionPatchBodyV>,
) -> Option<Map<u32, MappedTransitionV>>
    decreases ps.len(),
{
    if ps.len() == 0 {
        Some(tm)
    } else {
        match spec_tran_step(all, self_id, tm, ps[0]) {
            None => None,
            Some(tm2) => spec_tran_steps(all, self_id, tm2, ps.skip(1)),
        }
    }
}

/// One matched clip under an update: fields overwritten only where
/// carried, then the nested instructions. `all` is the full clip id set,
/// which the nested instructions never change.
pub open spec fn spec_update_one(st: MappedSourceV, k: u32, u: UpdateAnimationV) -> Option<
    MappedAnimationV,
> {
    let a0 = st.anims[k];
    let a1 = MappedAnimationV {
        path: match u.path {
            Some(p) => p,
            None => a0.path,
        },
        index: match u.index {
            Some(x) => x,
            None => a0.index,
        },
        trans: a0.trans,
    };
    match u.trans {
        None => Some(a1),
        Some(ps) => match spec_tran_steps(st.anims.dom(), k, a1.trans, ps) {
            None => None,
            Some(tm) => Some(MappedAnimationV { trans: tm, ..a1 }),
        },
    }
}

/// An update succeeds exactly when it succeeds on every matched clip; the
/// matched clips are updated independently, the rest stay.
pub open spec fn spec_update_anim(st: MappedSourceV, u: UpdateAnimationV) -> Option<
    MappedSourceV,
> {
    if forall|k: u32|
        st.anims.dom().contains(k) && sel_matches(u.id, k) ==> #[trigger] spec_update_one(
            st,
            k,
            u,
        ) is Some {
        Some(
            MappedSourceV {
                anims: Map::new(
                    |k: u32| st.anims.dom().contains(k),
                    |k: u32|
                        if sel_matches(u.id, k) {
                            spec_update_one(st, k, u).unwrap()
                        } else {
                            st.anims[k]
                        },
                ),
                ..st
            },
        )
    } else {
        None
    }
}

/// One top-level instruction.
pub open spec fn spec_step(st: MappedSourceV, p: AnimationPatchBodyV) -> Option<MappedSourceV> {
    match p {
        AnimationPatchBodyV::Add(a) => spec_add_anim(st, a),
        AnimationPatchBodyV::Delete(sel) => Some(spec_delete_anim(st, sel)),
        AnimationPatchBodyV::Update(u) => spec_update_anim(st, u),
    }
}

/// The whole batch, strictly in file order, each instruction seeing its
/// predecessors' effects; the first failure ends it.
pub open spec fn spec_apply(st: MappedSourceV, ps: Seq<AnimationPatchBodyV>) -> Option<
    MappedSourceV,
>
    decreases ps.len(),
{
    if ps.len() == 0 {
        Some(st)
    } else {
        match spec_step(st, ps[0]) {
            None => None,
            Some(st2) => spec_apply(st2, ps.skip(1)),
        }
    }
}

// ---------------------------------------------------------------------------
// which error a failing batch returns
// ---------------------------------------------------------------------------

/// The least element of a set of ids; meaningful when the set has one.
pub open spec fn set_min_u32(s: Set<u32>) -> u32 {
    choose|x: u32| s.contains(x) && (forall|y: u32| #[trigger] s.contains(y) ==> x <= y)
}

proof fn lemma_set_min_is(s: Set<u32>, m: u32)
    requires
        s.contains(m),
        forall|y: u32| #[trigger] s.contains(y) ==> m <= y,
    ensures
        set_min_u32(s) == m,
{
    assert(exists|x: u32|
        s.contains(x) && (forall|y: u32| #[trigger] s.contains(y) ==> x <= y)) by {
        assert(s.contains(m) && (forall|y: u32| #[trigger] s.contains(y) ==> m <= y));
    }
    let x = set_min_u32(s);
    assert(s.contains(x) && (forall|y: u32| #[trigger] s.contains(y) ==> x <= y));
    assert(x <= m && m <= x);
}

/// The resolved targets of an `add` that already carry an edge.
pub open spec fn add_tran_conflicts(
    all: Set<u32>,
    self_id: u32,
    tm: Map<u32, MappedTransitionV>,
    sel: RegexOrV,
) -> Set<u32> {
    Set::new(|t: u32| add_tran_set(all, self_id, sel).contains(t) && tm.dom().contains(t))
}

/// The error a failing `add` reports: a conflict on the least conflicting
/// target, the order the targets are taken in.
pub open spec fn spec_add_tran_err(
    all: Set<u32>,
    self_id: u32,
    tm: Map<u32, MappedTransitionV>,
    p: AddTransitionV,
) -> KfmError {
    KfmError::Conflict(set_min_u32(add_tran_conflicts(all, self_id, tm, p.id)))
}

/// The error of one failing transition-level instruction; only an `add`
/// can fail here.
pub open spec fn spec_tran_step_err(
    all: Set<u32>,
    self_id: u32,
    tm: Map<u32, MappedTransitionV>,
    p: TransitionPatchBodyV,
) -> KfmError {
    match p {
        TransitionPatchBodyV::Add(a) => spec_add_tran_err(all, self_id, tm, a),
        TransitionPatchBodyV::Delete(_) => arbitrary(),
        TransitionPatchBodyV::Update(_) => arbitrary(),
    }
}

/// The error of the first failing instruction of a clip's nested batch;
/// meaningful when some instruction fails.
pub open spec fn spec_tran_steps_err(
    all: Set<u32>,
    self_id: u32,
    tm: Map<u32, MappedTransitionV>,
    ps: Seq<TransitionPatchBodyV>,
) -> KfmError
    decreases ps.len(),
{
    if ps.len() == 0 {
        arbitrary()
    } else {
        match spec_tran_step(all, self_id, tm, ps[0]) {
            None => spec_tran_step_err(all, self_id, tm, ps[0]),
            Some(tm2) => spec_tran_steps_err(all, self_id, tm2, ps.skip(1)),
        }
    }
}

/// The error one failing matched clip reports under an update.
pub open spec fn spec_update_one_err(st: MappedSourceV, k: u32, u: UpdateAnimationV) -> KfmError {
    match u.trans {
        None => arbitrary(),
        Some(ps) => spec_tran_steps_err(st.anims.dom(), k, st.anims[k].trans, ps),
    }
}

/// The matched clips a whole update fails on.
pub open spec fn upd_fails(st: MappedSourceV, u: UpdateAnimationV) -> Set<u32> {
    Set::new(
        |k: u32|
            st.anims.dom().contains(k) && sel_matches(u.id, k) && spec_update_one(st, k, u)
                is None,
    )
}

/// The error a failing update reports: its least failing matched clip's,
/// the order the matched clips are taken in.
pub open spec fn spec_update_anim_err(st: MappedSourceV, u: UpdateAnimationV) -> KfmError {
    spec_update_one_err(st, set_min_u32(upd_fails(st, u)), u)
}

/// The error of one failing top-level instruction; a delete never fails.
pub open spec fn spec_step_err(st: MappedSourceV, p: AnimationPatchBodyV) -> KfmError {
    match p {
        AnimationPatchBodyV::Add(a) => match first_dup(tran_ids(a.trans)) {
            Some(d) => KfmError::DuplicateId(d),
            None => KfmError::Conflict(a.id),
        },
        AnimationPatchBodyV::Delete(_) => arbitrary(),
        AnimationPatchBodyV::Update(u) => spec_update_anim_err(st, u),
    }
}

/// The error a failing batch returns: the first failing instruction's, in
/// file order; meaningful when some instruction fails.
pub open spec fn spec_apply_err(st: MappedSourceV, ps: Seq<AnimationPatchBodyV>) -> KfmError
    decreases ps.len(),
{
    if ps.len() == 0 {
        arbitrary()
    } else {
        match spec_step(st, ps[0]) {
            None => spec_step_err(st, ps[0]),
            Some(st2) => spec_apply_err(st2, ps.skip(1)),
        }
    }
}

// ---------------------------------------------------------------------------
// the engine
// ---------------------------------------------------------------------------

proof fn lemma_take_contains(s: Seq<u32>, i: int, k: u32)
    requires
        0 <= i < s.len(),
    ensures
        s.take(i + 1).contains(k) <==> (s.take(i).contains(k) || k == s[i]),
{
    if s.take(i + 1).contains(k) {
        let j = choose|j: int|
            0 <= j < s.take(i + 1).len() && #[trigger] s.take(i + 1)[j] == k;
        if j < i {
            assert(s.take(i)[j] == k);
        }
    }
    if s.take(i).contains(k) {
        let j = choose|j: int| 0 <= j < s.take(i).len() && #[trigger] s.take(i)[j] == k;
        assert(s.take(i + 1)[j] == k);
    }
    if k == s[i] {
        assert(s.take(i + 1)[i] == k);
    }
}

/// A clip with every transition to a deleted target stripped.
pub open spec fn strip_trans(a: MappedAnimationV, del: Seq<u32>) -> MappedAnimationV {
    MappedAnimationV {
        trans: Map::new(
            |t: u32| a.trans.dom().contains(t) && !del.contains(t),
            |t: u32| a.trans[t],
        ),
        ..a
    }
}

/// One `add` instruction: inserts the clip, re-keyed, at its declared id.
/// An `add` never overwrites: on any failure the view is left exactly as
/// it was.
pub fn on_add_anim(m_src: &mut MappedSource, add: AddAnimation) -> (r: Result<(), KfmError>)
    ensures
        match r {
            Ok(()) => spec_add_anim(old(m_src)@, add@) is Some && final(m_src)@ == spec_add_anim(
                old(m_src)@,
                add@,
            ).unwrap(),
            Err(e) => spec_add_anim(old(m_src)@, add@) is None && *final(m_src) == *old(m_src)
                && (match first_dup(tran_ids(add@.trans)) {
                Some(d) => e == KfmError::DuplicateId(d),
                None => e == KfmError::Conflict(add@.id),
            }),
        },
{
    let a_id = add.id;
    let ma = match MappedAnimation::try_from(add) {
        Ok(v) => v,
        Err(e) => {
            return Err(e);
        },
    };
    match m_src.anims.insert_new(a_id, ma) {
        Ok(()) => {
            proof {
                assert(m_src@ =~= spec_add_anim(old(m_src)@, add@).unwrap());
            }
            Ok(())
        },
        Err(e) => Err(e),
    }
}

/// One `delete` instruction: removes every matched clip and then, from
/// every remaining clip, every transition to a deleted id — silently and
/// unconditionally; it never fails.
#[verifier::loop_isolation(false)]
#[verifier::rlimit(100)]
pub fn on_delete_anim(m_src: &mut MappedSource, delete: DeleteAnimation) -> (r: Result<
    (),
    KfmError,
>)
    ensures
        r is Ok,
        final(m_src)@ == spec_delete_anim(old(m_src)@, delete@),
{
    let ghost st = old(m_src)@;
    let ks = m_src.anims.keys();
    let del = collect_matching_ids(&ks, &delete.id);
    proof {
        assert forall|t: u32|
            #[trigger] del@.contains(t) <==> (st.anims.dom().contains(t) && sel_matches(
                delete@,
                t,
            )) by {
            if del@.contains(t) {
                let j = choose|j: int| 0 <= j < del@.len() && del@[j] == t;
                assert(ks@.contains(del@[j]) && sel_matches(delete@, del@[j]));
                let w = choose|w: int| 0 <= w < ks@.len() && ks@[w] == t;
                assert(st.anims.dom().contains(ks@[w]));
            }
            if st.anims.dom().contains(t) && sel_matches(delete@, t) {
                assert(ks@.contains(t));
            }
        }
    }
    m_src.anims.remove_ids(&del);
    let ghost mid = m_src@.anims;
    let ks2 = m_src.anims.keys();
    let mut i: usize = 0;
    while i < ks2.len()
        invariant
            i <= ks2@.len(),
            m_src@.model == st.model,
            m_src@.default_trans == st.default_trans,
            m_src@.layer_groups == st.layer_groups,
            m_src@.anims == Map::<u32, MappedAnimationV>::new(
                |k: u32| mid.dom().contains(k),
                |k: u32|
                    if ks2@.take(i as int).contains(k) {
                        strip_trans(mid[k], del@)
                    } else {
                        mid[k]
                    },
            ),
        decreases ks2@.len() - i,
    {
        let k = ks2[i];
        proof {
            assert(mid.dom().contains(k));
            assert(!ks2@.take(i as int).contains(k)) by {
                if ks2@.take(i as int).contains(k) {
                    let j = choose|j: int|
                        0 <= j < ks2@.take(i as int).len() && ks2@.take(i as int)[j] == k;
                    assert(ks2@[j] < ks2@[i as int]);
                }
            }
        }
        let ghost prev = m_src@.anims;
        let mut a = match m_src.anims.remove(k) {
            Some(a) => a,
            None => {
                return Err(KfmError::NotFound(k));
            },
        };
        a.trans.remove_ids(&del);
        match m_src.anims.insert_new(k, a) {
            Ok(()) => (),
            Err(e) => {
                return Err(e);
            },
        }
        proof {
            assert(a@.trans =~= strip_trans(mid[k], del@).trans);
            assert(a@ =~= strip_trans(mid[k], del@));
            assert forall|q: u32| true implies (ks2@.take(i as int + 1).contains(q) <==> (
            ks2@.take(i as int).contains(q) || q == ks2@[i as int])) by {
                lemma_take_contains(ks2@, i as int, q);
            }
            assert(m_src@.anims =~= Map::<u32, MappedAnimationV>::new(
                |q: u32| mid.dom().contains(q),
                |q: u32|
                    if ks2@.take(i as int + 1).contains(q) {
                        strip_trans(mid[q], del@)
                    } else {
                        mid[q]
                    },
            ));
        }
        i = i + 1;
    }
    proof {
        assert forall|k: u32| mid.dom().contains(k) implies #[trigger] ks2@.take(
            ks2@.len() as int,
        ).contains(k) by {
            assert(ks2@.contains(k));
            let j = choose|j: int| 0 <= j < ks2@.len() && ks2@[j] == k;
            assert(ks2@.take(ks2@.len() as int)[j] == k);
        }
        assert forall|k: u32| #[trigger] mid.dom().contains(k) implies mid[k]
            == st.anims[k] by {}
        assert(m_src@ =~~= spec_delete_anim(st, delete@));
    }
    Ok(())
}

/// The record an `add` instruction fans out.
pub open spec fn added_tran(p: AddTransitionV) -> MappedTransitionV {
    MappedTransitionV { type_: p.type_, ext: p.ext }
}

/// One `add` of transitions under a clip: the selector resolves against
/// all clip ids (fan-out), the owning clip itself silently excluded; a
/// resolved target that already has an edge is a conflict, reported on the
/// least such target.
#[verifier::loop_isolation(false)]
#[verifier::rlimit(100)]
pub fn on_add_tran(m_src: &mut MappedSource, parent_anim_id: u32, add: &AddTransition) -> (r:
    Result<(), KfmError>)
    ensures
        ({
            let st = old(m_src)@;
            match r {
                Ok(()) => st.anims.dom().contains(parent_anim_id) && spec_add_tran(
                    st.anims.dom(),
                    parent_anim_id,
                    st.anims[parent_anim_id].trans,
                    add@,
                ) is Some && final(m_src)@ == (MappedSourceV {
                    anims: st.anims.insert(
                        parent_anim_id,
                        (MappedAnimationV {
                            trans: spec_add_tran(
                                st.anims.dom(),
                                parent_anim_id,
                                st.anims[parent_anim_id].trans,
                                add@,
                            ).unwrap(),
                            ..st.anims[parent_anim_id]
                        }),
                    ),
                    ..st
                }),
                Err(e) => if !st.anims.dom().contains(parent_anim_id) {
                    e == KfmError::NotFound(parent_anim_id)
                } else {
                    spec_add_tran(
                        st.anims.dom(),
                        parent_anim_id,
                        st.anims[parent_anim_id].trans,
                        add@,
                    ) is None && e == spec_add_tran_err(
                        st.anims.dom(),
                        parent_anim_id,
                        st.anims[parent_anim_id].trans,
                        add@,
                    )
                },
            }
        }),
{
    let ghost st = old(m_src)@;
    let ks = m_src.anims.keys();
    let matched = collect_matching_ids(&ks, &add.id);
    proof {
        assert forall|t: u32|
            #[trigger] matched@.contains(t) <==> (st.anims.dom().contains(t) && sel_matches(
                add@.id,
                t,
            )) by {
            if matched@.contains(t) {
                let j = choose|j: int| 0 <= j < matched@.len() && matched@[j] == t;
                assert(ks@.contains(matched@[j]) && sel_matches(add@.id, matched@[j]));
                let w = choose|w: int| 0 <= w < ks@.len() && ks@[w] == t;
                assert(st.anims.dom().contains(ks@[w]));
            }
            if st.anims.dom().contains(t) && sel_matches(add@.id, t) {
                assert(ks@.contains(t));
            }
        }
    }
    let mut a = match m_src.anims.remove(parent_anim_id) {
        Some(a) => a,
        None => {
            return Err(KfmError::NotFound(parent_anim_id));
        },
    };
    let ghost tm0 = a.trans@;
    let ghost sset = add_tran_set(st.anims.dom(), parent_anim_id, add@.id);
    let mut i: usize = 0;
    while i < matched.len()
        invariant
            i <= matched@.len(),
            a@.path == st.anims[parent_anim_id].path,
            a@.index == st.anims[parent_anim_id].index,
            a@.trans == Map::<u32, MappedTransitionV>::new(
                |t: u32|
                    tm0.dom().contains(t) || (matched@.take(i as int).contains(t) && t
                        != parent_anim_id),
                |t: u32|
                    if matched@.take(i as int).contains(t) && t != parent_anim_id {
                        added_tran(add@)
                    } else {
                        tm0[t]
                    },
            ),
            forall|t: u32|
                matched@.take(i as int).contains(t) && t != parent_anim_id
                    ==> !tm0.dom().contains(t),
            m_src@.anims == st.anims.remove(parent_anim_id),
            m_src@.model == st.model,
            m_src@.default_trans == st.default_trans,
            m_src@.layer_groups == st.layer_groups,
        decreases matched@.len() - i,
    {
        let t = matched[i];
        proof {
            assert(!matched@.take(i as int).contains(t)) by {
                if matched@.take(i as int).contains(t) {
                    let j = choose|j: int|
                        0 <= j < matched@.take(i as int).len() && #[trigger] matched@.take(
                            i as int,
                        )[j] == t;
                    assert(matched@[j] < matched@[i as int]);
                }
            }
        }
        if t != parent_anim_id {
            let mt = MappedTransition { type_: add.type_, ext: dup_ext(&add.ext) };
            proof {
                assert(mt@ =~= added_tran(add@));
            }
            let ghost aprev = a.trans@;
            match a.trans.insert_new(t, mt) {
                Ok(()) => (),
                Err(_) => {
                    proof {
                        assert(tm0.dom().contains(t));
                        assert(sset.contains(t));
                        assert(spec_add_tran(
                            st.anims.dom(),
                            parent_anim_id,
                            st.anims[parent_anim_id].trans,
                            add@,
                        ) is None);
                        let conf = add_tran_conflicts(
                            st.anims.dom(),
                            parent_anim_id,
                            tm0,
                            add@.id,
                        );
                        assert(conf.contains(t));
                        assert forall|y: u32| #[trigger] conf.contains(y) implies t <= y by {
                            if y < t {
                                assert(sset.contains(y) && tm0.dom().contains(y));
                                assert(matched@.contains(y));
                                let j = choose|j: int|
                                    0 <= j < matched@.len() && matched@[j] == y;
                                assert(j < i);
                                assert(matched@.take(i as int)[j] == y);
                                assert(matched@.take(i as int).contains(y));
                            }
                        }
                        lemma_set_min_is(conf, t);
                    }
                    return Err(KfmError::Conflict(t));
                },
            }
            proof {
                assert forall|q: u32| true implies (matched@.take(i as int + 1).contains(q)
                    <==> (matched@.take(i as int).contains(q) || q == matched@[i as int])) by {
                    lemma_take_contains(matched@, i as int, q);
                }
                assert(a@.trans =~= Map::<u32, MappedTransitionV>::new(
                    |q: u32|
                        tm0.dom().contains(q) || (matched@.take(i as int + 1).contains(q) && q
                            != parent_anim_id),
                    |q: u32|
                        if matched@.take(i as int + 1).contains(q) && q != parent_anim_id {
                            added_tran(add@)
                        } else {
                            tm0[q]
                        },
                ));
            }
        } else {
            proof {
                assert forall|q: u32| true implies (matched@.take(i as int + 1).contains(q)
                    <==> (matched@.take(i as int).contains(q) || q == matched@[i as int])) by {
                    lemma_take_contains(matched@, i as int, q);
                }
                assert(a@.trans =~= Map::<u32, MappedTransitionV>::new(
                    |q: u32|
                        tm0.dom().contains(q) || (matched@.take(i as int + 1).contains(q) && q
                            != parent_anim_id),
                    |q: u32|
                        if matched@.take(i as int + 1).contains(q) && q != parent_anim_id {
                            added_tran(add@)
                        } else {
                            tm0[q]
                        },
                ));
            }
        }
        i = i + 1;
    }
    proof {
        assert forall|t: u32| #[trigger] sset.contains(t) implies matched@.take(
            matched@.len() as int,
        ).contains(t) && t != parent_anim_id by {
            assert(matched@.contains(t));
            let j = choose|j: int| 0 <= j < matched@.len() && matched@[j] == t;
            assert(matched@.take(matched@.len() as int)[j] == t);
        }
        assert forall|t: u32|
            matched@.take(matched@.len() as int).contains(t) && t
                != parent_anim_id implies #[trigger] sset.contains(t) by {
            let j = choose|j: int|
                0 <= j < matched@.take(matched@.len() as int).len() && #[trigger] matched@.take(
                    matched@.len() as int,
                )[j] == t;
            assert(matched@.contains(t));
        }
        assert(!(exists|t: u32| #[trigger] sset.contains(t) && tm0.dom().contains(t)));
        assert(spec_add_tran(
            st.anims.dom(),
            parent_anim_id,
            st.anims[parent_anim_id].trans,
            add@,
        ) is Some);
        assert(a@.trans =~= spec_add_tran(
            st.anims.dom(),
            parent_anim_id,
            st.anims[parent_anim_id].trans,
            add@,
        ).unwrap());
    }
    match m_src.anims.insert_new(parent_anim_id, a) {
        Ok(()) => (),
        Err(e) => {
            return Err(e);
        },
    }
    proof {
        assert(m_src@ =~~= (MappedSourceV {
            anims: st.anims.insert(
                parent_anim_id,
                (MappedAnimationV {
                    trans: spec_add_tran(
                        st.anims.dom(),
                        parent_anim_id,
                        st.anims[parent_anim_id].trans,
                        add@,
                    ).unwrap(),
                    ..st.anims[parent_anim_id]
                }),
            ),
            ..st
        }));
    }
    Ok(())
}

/// One `delete` of transitions under a clip: the selector resolves against
/// the clip's own edge targets, so every resolved id has a record and the
/// step cannot fail once the clip is found.
#[verifier::loop_isolation(false)]
#[verifier::rlimit(100)]
pub fn on_delete_tran(
    m_src: &mut MappedSource,
    parent_anim_id: u32,
    delete: &DeleteTransition,
) -> (r: Result<(), KfmError>)
    ensures
        ({
            let st = old(m_src)@;
            match r {
                Ok(()) => st.anims.dom().contains(parent_anim_id) && final(m_src)@ == (
                MappedSourceV {
                    anims: st.anims.insert(
                        parent_anim_id,
                        (MappedAnimationV {
                            trans: spec_delete_tran(st.anims[parent_anim_id].trans, delete@),
                            ..st.anims[parent_anim_id]
                        }),
                    ),
                    ..st
                }),
                Err(e) => !st.anims.dom().contains(parent_anim_id) && e == KfmError::NotFound(
                    parent_anim_id,
                ),
            }
        }),
{
    let ghost st = old(m_src)@;
    let mut a = match m_src.anims.remove(parent_anim_id) {
        Some(a) => a,
        None => {
            return Err(KfmError::NotFound(parent_anim_id));
        },
    };
    let ghost tm0 = a.trans@;
    let tks = a.trans.keys();
    let matched = collect_matching_ids(&tks, &delete.id);
    proof {
        assert forall|t: u32|
            #[trigger] matched@.contains(t) <==> (tm0.dom().contains(t) && sel_matches(
                delete@,
                t,
            )) by {
            if matched@.contains(t) {
                let j = choose|j: int| 0 <= j < matched@.len() && matched@[j] == t;
                assert(tks@.contains(matched@[j]) && sel_matches(delete@, matched@[j]));
                let w = choose|w: int| 0 <= w < tks@.len() && tks@[w] == t;
                assert(tm0.dom().contains(tks@[w]));
            }
            if tm0.dom().contains(t) && sel_matches(delete@, t) {
                assert(tks@.contains(t));
            }
        }
    }
    a.trans.remove_ids(&matched);
    match m_src.anims.insert_new(parent_anim_id, a) {
        Ok(()) => (),
        Err(e) => {
            return Err(e);
        },
    }
    proof {
        assert(m_src@ =~~= (MappedSourceV {
            anims: st.anims.insert(
                parent_anim_id,
                (MappedAnimationV {
                    trans: spec_delete_tran(st.anims[parent_anim_id].trans, delete@),
                    ..st.anims[parent_anim_id]
                }),
            ),
            ..st
        }));
    }
    Ok(())
}

/// A record under an update: the kind only if the instruction carries one,
/// the extension always.
pub open spec fn updated_tran(v: MappedTransitionV, p: UpdateTransitionV) -> MappedTransitionV {
    MappedTransitionV {
        type_: match p.type_ {
            Some(ty) => ty,
            None => v.type_,
        },
        ext: p.ext,
    }
}

/// One `update` of transitions under a clip: for every matched edge the
/// kind is overwritten only when the instruction carries one, while the
/// extension is always overwritten — to nothing when none is carried; the
/// edge key set and everything else stay as they were.
#[verifier::loop_isolation(false)]
#[verifier::rlimit(100)]
pub fn on_update_tran(
    m_src: &mut MappedSource,
    parent_anim_id: u32,
    update: &UpdateTransition,
) -> (r: Result<(), KfmError>)
    ensures
        ({
            let st = old(m_src)@;
            match r {
                Ok(()) => st.anims.dom().contains(parent_anim_id) && final(m_src)@ == (
                MappedSourceV {
                    anims: st.anims.insert(
                        parent_anim_id,
                        (MappedAnimationV {
                            trans: spec_update_tran(st.anims[parent_anim_id].trans, update@),
                            ..st.anims[parent_anim_id]
                        }),
                    ),
                    ..st
                }),
                Err(e) => !st.anims.dom().contains(parent_anim_id) && e == KfmError::NotFound(
                    parent_anim_id,
                ),
            }
        }),
{
    let ghost st = old(m_src)@;
    let mut a = match m_src.anims.remove(parent_anim_id) {
        Some(a) => a,
        None => {
            return Err(KfmError::NotFound(parent_anim_id));
        },
    };
    let ghost tm0 = a.trans@;
    let tks = a.trans.keys();
    let matched = collect_matching_ids(&tks, &update.id);
    proof {
        assert forall|t: u32|
            #[trigger] matched@.contains(t) <==> (tm0.dom().contains(t) && sel_matches(
                update@.id,
                t,
            )) by {
            if matched@.contains(t) {
                let j = choose|j: int| 0 <= j < matched@.len() && matched@[j] == t;
                assert(tks@.contains(matched@[j]) && sel_matches(update@.id, matched@[j]));
                let w = choose|w: int| 0 <= w < tks@.len() && tks@[w] == t;
                assert(tm0.dom().contains(tks@[w]));
            }
            if tm0.dom().contains(t) && sel_matches(update@.id, t) {
                assert(tks@.contains(t));
            }
        }
    }
    let mut i: usize = 0;
    while i < matched.len()
        invariant
            i <= matched@.len(),
            a@.path == st.anims[parent_anim_id].path,
            a@.index == st.anims[parent_anim_id].index,
            a@.trans == Map::<u32, MappedTransitionV>::new(
                |q: u32| tm0.dom().contains(q),
                |q: u32|
                    if matched@.take(i as int).contains(q) {
                        updated_tran(tm0[q], update@)
                    } else {
                        tm0[q]
                    },
            ),
            m_src@.anims == st.anims.remove(parent_anim_id),
            m_src@.model == st.model,
            m_src@.default_trans == st.default_trans,
            m_src@.layer_groups == st.layer_groups,
        decreases matched@.len() - i,
    {
        let t = matched[i];
        proof {
            assert(!matched@.take(i as int).contains(t)) by {
                if matched@.take(i as int).contains(t) {
                    let j = choose|j: int|
                        0 <= j < matched@.take(i as int).len() && #[trigger] matched@.take(
                            i as int,
                        )[j] == t;
                    assert(matched@[j] < matched@[i as int]);
                }
            }
            assert(tm0.dom().contains(t));
        }
        let mt_old = match a.trans.remove(t) {
            Some(v) => v,
            None => {
                return Err(KfmError::NotFound(t));
            },
        };
        let ty = match update.type_ {
            Some(ty) => ty,
            None => mt_old.type_,
        };
        let mt = MappedTransition { type_: ty, ext: dup_ext(&update.ext) };
        proof {
            assert(mt_old@ == tm0[t]);
            assert(mt@ =~= updated_tran(tm0[t], update@));
        }
        match a.trans.insert_new(t, mt) {
            Ok(()) => (),
            Err(e) => {
                return Err(e);
            },
        }
        proof {
            assert forall|q: u32| true implies (matched@.take(i as int + 1).contains(q) <==> (
            matched@.take(i as int).contains(q) || q == matched@[i as int])) by {
                lemma_take_contains(matched@, i as int, q);
            }
            assert(a@.trans =~= Map::<u32, MappedTransitionV>::new(
                |q: u32| tm0.dom().contains(q),
                |q: u32|
                    if matched@.take(i as int + 1).contains(q) {
                        updated_tran(tm0[q], update@)
                    } else {
                        tm0[q]
                    },
            ));
        }
        i = i + 1;
    }
    proof {
        assert forall|t: u32| true implies (matched@.take(matched@.len() as int).contains(t)
            <==> matched@.contains(t)) by {
            assert(matched@.take(matched@.len() as int) =~= matched@);
        }
        assert(a@.trans =~= spec_update_tran(st.anims[parent_anim_id].trans, update@));
    }
    match m_src.anims.insert_new(parent_anim_id, a) {
        Ok(()) => (),
        Err(e) => {
            return Err(e);
        },
    }
    proof {
        assert(m_src@ =~~= (MappedSourceV {
            anims: st.anims.insert(
                parent_anim_id,
                (MappedAnimationV {
                    trans: spec_update_tran(st.anims[parent_anim_id].trans, update@),
                    ..st.anims[parent_anim_id]
                }),
            ),
            ..st
        }));
    }
    Ok(())
}

/// One `update` instruction: for every matched clip, `path` and `index`
/// are overwritten only when carried (omitted fields stay untouched), then
/// the nested edge instructions run in file order; non-matching clips and
/// all other state stay as they were, and an empty match is no error.
#[verifier::loop_isolation(false)]
#[verifier::rlimit(100)]
#[verifier::spinoff_prover]
pub fn on_update_anim(m_src: &mut MappedSource, update: UpdateAnimation) -> (r: Result<
    (),
    KfmError,
>)
    ensures
        match r {
            Ok(()) => spec_update_anim(old(m_src)@, update@) is Some && final(m_src)@
                == spec_update_anim(old(m_src)@, update@).unwrap(),
            Err(e) => spec_update_anim(old(m_src)@, update@) is None && e
                == spec_update_anim_err(old(m_src)@, update@),
        },
{
    let ghost st = old(m_src)@;
    let ghost uv = update@;
    let ks = m_src.anims.keys();
    let uids = collect_matching_ids(&ks, &update.id);
    proof {
        assert forall|t: u32|
            #[trigger] uids@.contains(t) <==> (st.anims.dom().contains(t) && sel_matches(
                uv.id,
                t,
            )) by {
            if uids@.contains(t) {
                let j = choose|j: int| 0 <= j < uids@.len() && uids@[j] == t;
                assert(ks@.contains(uids@[j]) && sel_matches(uv.id, uids@[j]));
                let w = choose|w: int| 0 <= w < ks@.len() && ks@[w] == t;
                assert(st.anims.dom().contains(ks@[w]));
            }
            if st.anims.dom().contains(t) && sel_matches(uv.id, t) {
                assert(ks@.contains(t));
            }
        }
    }
    let mut i: usize = 0;
    while i < uids.len()
        invariant
            i <= uids@.len(),
            m_src@.model == st.model,
            m_src@.default_trans == st.default_trans,
            m_src@.layer_groups == st.layer_groups,
            forall|k: u32|
                uids@.take(i as int).contains(k) ==> #[trigger] spec_update_one(st, k, uv)
                    is Some,
            m_src@.anims == Map::<u32, MappedAnimationV>::new(
                |k: u32| st.anims.dom().contains(k),
                |k: u32|
                    if uids@.take(i as int).contains(k) {
                        spec_update_one(st, k, uv).unwrap()
                    } else {
                        st.anims[k]
                    },
            ),
        decreases uids@.len() - i,
    {
        let uid = uids[i];
        proof {
            assert(uids@.contains(uids@[i as int]));
            assert(st.anims.dom().contains(uid) && sel_matches(uv.id, uid));
            assert(!uids@.take(i as int).contains(uid)) by {
                if uids@.take(i as int).contains(uid) {
                    let j = choose|j: int|
                        0 <= j < uids@.take(i as int).len() && #[trigger] uids@.take(
                            i as int,
                        )[j] == uid;
                    assert(uids@[j] < uids@[i as int]);
                }
            }
            assert(m_src@.anims[uid] == st.anims[uid]);
        }
        let ghost interim = m_src@.anims;
        let mut a = match m_src.anims.remove(uid) {
            Some(a) => a,
            None => {
                return Err(KfmError::NotFound(uid));
            },
        };
        match &update.path {
            Some(p) => {
                a.path = dup_bytes(p);
            },
            None => (),
        }
        match update.index {
            Some(ix) => {
                a.index = ix;
            },
            None => (),
        }
        let ghost a1 = MappedAnimationV {
            path: match uv.path {
                Some(p) => p,
                None => st.anims[uid].path,
            },
            index: match uv.index {
                Some(x) => x,
                None => st.anims[uid].index,
            },
            trans: st.anims[uid].trans,
        };
        proof {
            assert(a@ =~= a1);
        }
        match m_src.anims.insert_new(uid, a) {
            Ok(()) => (),
            Err(e) => {
                return Err(e);
            },
        }
        proof {
            assert(m_src@.anims =~= interim.insert(uid, a1));
        }
        match &update.trans {
            None => {
                proof {
                    assert(spec_update_one(st, uid, uv) == Some(a1));
                    assert forall|q: u32| true implies (uids@.take(i as int + 1).contains(q)
                        <==> (uids@.take(i as int).contains(q) || q == uids@[i as int])) by {
                        lemma_take_contains(uids@, i as int, q);
                    }
                    assert(m_src@.anims =~= Map::<u32, MappedAnimationV>::new(
                        |k: u32| st.anims.dom().contains(k),
                        |k: u32|
                            if uids@.take(i as int + 1).contains(k) {
                                spec_update_one(st, k, uv).unwrap()
                            } else {
                                st.anims[k]
                            },
                    ));
                }
            },
            Some(ts) => {
                let ghost psv = seq_view(ts@);
                proof {
                    assert(uv.trans == Some(psv));
                    assert(psv.skip(0) =~= psv);
                    assert(m_src@.anims[uid] == a1);
                }
                let mut j: usize = 0;
                while j < ts.len()
                    invariant
                        j <= ts@.len(),
                        m_src@.model == st.model,
                        m_src@.default_trans == st.default_trans,
                        m_src@.layer_groups == st.layer_groups,
                        m_src@.anims.dom() == st.anims.dom(),
                        m_src@.anims.dom().contains(uid),
                        forall|k: u32|
                            st.anims.dom().contains(k) && k != uid ==> #[trigger] m_src@.anims[k]
                                == interim.insert(uid, a1)[k],
                        m_src@.anims[uid].path == a1.path,
                        m_src@.anims[uid].index == a1.index,
                        spec_tran_steps(st.anims.dom(), uid, a1.trans, psv) == spec_tran_steps(
                            st.anims.dom(),
                            uid,
                            m_src@.anims[uid].trans,
                            psv.skip(j as int),
                        ),
                        spec_tran_steps_err(st.anims.dom(), uid, a1.trans, psv)
                            == spec_tran_steps_err(
                            st.anims.dom(),
                            uid,
                            m_src@.anims[uid].trans,
                            psv.skip(j as int),
                        ),
                    decreases ts@.len() - j,
                {
                    let ghost stc = m_src@;
                    let ghost cur = m_src@.anims[uid].trans;
                    proof {
                        assert(psv.skip(j as int)[0] == psv[j as int]);
                        assert(psv[j as int] == ts@[j as int]@);
                    }
                    let r1 = match &ts[j].body {
                        TransitionPatchBody::Add(ap) => on_add_tran(m_src, uid, ap),
                        TransitionPatchBody::Delete(dp) => on_delete_tran(m_src, uid, dp),
                        TransitionPatchBody::Update(up) => on_update_tran(m_src, uid, up),
                    };
                    match r1 {
                        Ok(()) => (),
                        Err(e) => {
                            proof {
                                assert(spec_tran_step(st.anims.dom(), uid, cur, psv[j as int])
                                    is None);
                                assert(spec_tran_steps(
                                    st.anims.dom(),
                                    uid,
                                    cur,
                                    psv.skip(j as int),
                                ) is None);
                                assert(spec_update_one(st, uid, uv) is None);
                                assert(e == spec_tran_step_err(
                                    st.anims.dom(),
                                    uid,
                                    cur,
                                    psv[j as int],
                                ));
                                assert(e == spec_tran_steps_err(
                                    st.anims.dom(),
                                    uid,
                                    cur,
                                    psv.skip(j as int),
                                ));
                                assert(e == spec_update_one_err(st, uid, uv));
                                let fails = upd_fails(st, uv);
                                assert(fails.contains(uid));
                                assert forall|y: u32| #[trigger] fails.contains(y) implies uid
                                    <= y by {
                                    if y < uid {
                                        assert(uids@.contains(y));
                                        let w = choose|w: int|
                                            0 <= w < uids@.len() && uids@[w] == y;
                                        assert(w < i);
                                        assert(uids@.take(i as int)[w] == y);
                                        assert(uids@.take(i as int).contains(y));
                                        assert(spec_update_one(st, y, uv) is Some);
                                    }
                                }
                                lemma_set_min_is(fails, uid);
                            }
                            return Err(e);
                        },
                    }
                    proof {
                        assert(spec_tran_step(st.anims.dom(), uid, cur, psv[j as int]) == Some(
                            m_src@.anims[uid].trans,
                        ));
                        assert(psv.skip(j as int).skip(1) =~= psv.skip(j as int + 1));
                        assert(m_src@.anims =~= stc.anims.insert(
                            uid,
                            (MappedAnimationV {
                                trans: m_src@.anims[uid].trans,
                                ..stc.anims[uid]
                            }),
                        ));
                    }
                    j = j + 1;
                }
                proof {
                    assert(psv.skip(psv.len() as int) =~= Seq::<TransitionPatchBodyV>::empty());
                    assert(spec_tran_steps(st.anims.dom(), uid, a1.trans, psv) == Some(
                        m_src@.anims[uid].trans,
                    ));
                    assert(spec_update_one(st, uid, uv) == Some(
                        (MappedAnimationV { trans: m_src@.anims[uid].trans, ..a1 }),
                    ));
                    assert(m_src@.anims[uid] =~= (MappedAnimationV {
                        trans: m_src@.anims[uid].trans,
                        ..a1
                    }));
                    assert forall|q: u32| true implies (uids@.take(i as int + 1).contains(q)
                        <==> (uids@.take(i as int).contains(q) || q == uids@[i as int])) by {
                        lemma_take_contains(uids@, i as int, q);
                    }
                    assert(m_src@.anims =~= Map::<u32, MappedAnimationV>::new(
                        |k: u32| st.anims.dom().contains(k),
                        |k: u32|
                            if uids@.take(i as int + 1).contains(k) {
                                spec_update_one(st, k, uv).unwrap()
                            } else {
                                st.anims[k]
                            },
                    ));
                }
            },
        }
        i = i + 1;
    }
    proof {
        assert forall|k: u32|
            st.anims.dom().contains(k) && sel_matches(uv.id, k) implies #[trigger] spec_update_one(
            st,
            k,
            uv,
        ) is Some by {
            assert(uids@.contains(k));
            let j = choose|j: int| 0 <= j < uids@.len() && uids@[j] == k;
            assert(uids@.take(uids@.len() as int)[j] == k);
            assert(uids@.take(uids@.len() as int).contains(k));
        }
        assert(spec_update_anim(st, uv) is Some);
        assert forall|k: u32| true implies (uids@.take(uids@.len() as int).contains(k)
            <==> uids@.contains(k)) by {
            assert(uids@.take(uids@.len() as int) =~= uids@);
        }
        assert(m_src@ =~~= spec_update_anim(st, uv).unwrap());
    }
    Ok(())
}

/// Applies the batch, strictly in file order, each instruction seeing the
/// effects of the ones before it; the first failing instruction aborts the
/// batch with its error, and the view must then be treated as partially
/// edited.
#[verifier::loop_isolation(false)]
#[verifier::rlimit(100)]
pub fn apply(m_src: &mut MappedSource, patch_file: PatchFile) -> (r: Result<(), KfmError>)
    ensures
        match r {
            Ok(()) => spec_apply(old(m_src)@, patch_file@) is Some && final(m_src)@ == spec_apply(
                old(m_src)@,
                patch_file@,
            ).unwrap(),
            Err(e) => spec_apply(old(m_src)@, patch_file@) is None && e == spec_apply_err(
                old(m_src)@,
                patch_file@,
            ),
        },
{
    let ghost pv = patch_file@;
    let PatchFile { anims } = patch_file;
    let mut anims = anims;
    let ghost mut i: int = 0;
    proof {
        assert(pv.skip(0) =~= pv);
    }
    while anims.len() > 0
        invariant
            0 <= i,
            i + anims@.len() == pv.len(),
            seq_view(anims@) == pv.skip(i),
            spec_apply(old(m_src)@, pv) == spec_apply(m_src@, pv.skip(i)),
            spec_apply_err(old(m_src)@, pv) == spec_apply_err(m_src@, pv.skip(i)),
        decreases anims@.len(),
    {
        let ghost ab = anims@;
        let p = anims.remove(0);
        proof {
            ab.remove_ensures(0);
            assert(p@ == seq_view(ab)[0]);
            assert(p@ == pv[i]);
            assert forall|j: int| 0 <= j < anims@.len() implies seq_view(anims@)[j] == pv.skip(
                i + 1,
            )[j] by {
                assert(anims@[j] == ab.remove(0)[j]);
                assert(anims@[j] == ab[j + 1]);
                assert(seq_view(ab)[j + 1] == ab[j + 1]@);
                assert(pv.skip(i)[j + 1] == pv[i + 1 + j]);
                assert(pv.skip(i + 1)[j] == pv[i + 1 + j]);
            }
            assert(seq_view(anims@) =~= pv.skip(i + 1));
        }
        let ghost stc = m_src@;
        let r1 = match p.body {
            AnimationPatchBody::Add(a) => on_add_anim(m_src, a),
            AnimationPatchBody::Delete(d) => on_delete_anim(m_src, d),
            AnimationPatchBody::Update(u) => on_update_anim(m_src, u),
        };
        match r1 {
            Ok(()) => (),
            Err(e) => {
                proof {
                    assert(spec_step(stc, pv[i]) is None);
                    assert(spec_apply(stc, pv.skip(i)) is None);
                    assert(e == spec_step_err(stc, pv[i]));
                    assert(e == spec_apply_err(stc, pv.skip(i)));
                }
                return Err(e);
            },
        }
        proof {
            assert(spec_step(stc, pv[i]) == Some(m_src@));
            assert(pv.skip(i).skip(1) =~= pv.skip(i + 1));
            i = i + 1;
        }
    }
    proof {
        assert(pv.skip(pv.len() as int) =~= Seq::<AnimationPatchBodyV>::empty());
    }
    Ok(())
}

} // verus!
