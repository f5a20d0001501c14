//! The in-memory shape of a keyframe-motion file: a header and a graph of
//! named animation clips, weighted transition edges between them, and
//! prioritized playback layers.
//!
//! Strings are held as raw ASCII byte strings, exactly as the wire carries
//! them; the 32-bit `duration`, `weight` and ease-time fields carry the
//! file's four byte IEEE-754 bit patterns, which this crate moves but never
//! interprets.

use vstd::prelude::*;

verus! {

/// The view of a sequence element by element.
pub open spec fn seq_view<T: View>(s: Seq<T>) -> Seq<T::V> {
    Seq::new(s.len(), |i: int| s[i]@)
}

/// A whole source file: the fixed header, then the graph body coded under
/// the byte order the header names.
#[derive(Clone, Debug, PartialEq)]
pub struct SourceFile {
    pub header: SourceFileHeader,
    pub body: SourceFileBody,
}

#[verifier::ext_equal]
pub struct SourceFileV {
    pub header: SourceFileHeader,
    pub body: SourceFileBodyV,
}

impl View for SourceFile {
    type V = SourceFileV;

    open spec fn view(&self) -> SourceFileV {
        SourceFileV { header: self.header, body: self.body@ }
    }
}

/// The fixed file header: a version byte, the magic line, and the byte
/// order of everything that follows.
#[derive(Clone, Copy, Debug, PartialEq, Eq, Structural)]
pub struct SourceFileHeader {
    pub version: u8,
    pub is_little_endian: bool,
}

/// The graph itself: model reference, default transition settings, clips
/// and layer groups, in file order.
#[derive(Clone, Debug, PartialEq)]
pub struct SourceFileBody {
    pub model: Model,
    pub default_trans: DefaultTransitions,
    pub anims: Vec<Animation>,
    pub layer_groups: Vec<LayerGroup>,
}

#[verifier::ext_equal]
pub struct SourceFileBodyV {
    pub model: ModelV,
    pub default_trans: DefaultTransitions,
    pub anims: Seq<AnimationV>,
    pub layer_groups: Seq<LayerGroupV>,
}

impl View for SourceFileBody {
    type V = SourceFileBodyV;

    open spec fn view(&self) -> SourceFileBodyV {
        SourceFileBodyV {
            model: self.model@,
            default_trans: self.default_trans,
            anims: seq_view(self.anims@),
            layer_groups: seq_view(self.layer_groups@),
        }
    }
}

/// The model the animations belong to: its path and the name of its root
/// node.
#[derive(Clone, Debug, PartialEq)]
pub struct Model {
    pub path: Vec<u8>,
    pub root: Vec<u8>,
}

#[verifier::ext_equal]
pub struct ModelV {
    pub path: Seq<u8>,
    pub root: Seq<u8>,
}

impl View for Model {
    type V = ModelV;

    open spec fn view(&self) -> ModelV {
        ModelV { path: self.path@, root: self.root@ }
    }
}

/// The transition settings a clip pair falls back on. On the wire the two
/// types come before the two durations; in memory each type sits beside its
/// duration.
#[derive(Clone, Copy, Debug, PartialEq, Eq, Structural)]
pub struct DefaultTransitions {
    pub sync_type: TransitionType,
    pub sync_duration: u32,
    pub non_sync_type: TransitionType,
    pub non_sync_duration: u32,
}

/// One animation clip: its id, the path of its keyframe file, its playback
/// index, and its outgoing transitions.
#[derive(Clone, Debug, PartialEq)]
pub struct Animation {
    pub id: u32,
    pub path: Vec<u8>,
    pub index: u32,
    pub trans: Vec<Transition>,
}

#[verifier::ext_equal]
pub struct AnimationV {
    pub id: u32,
    pub path: Seq<u8>,
    pub index: u32,
    pub trans: Seq<TransitionV>,
}

impl View for Animation {
    type V = AnimationV;

    open spec fn view(&self) -> AnimationV {
        AnimationV {
            id: self.id,
            path: self.path@,
            index: self.index,
            trans: seq_view(self.trans@),
        }
    }
}

/// One directed transition edge: the target clip id, its kind, and the
/// extension data that every kind except the two defaults carries.
#[derive(Clone, Debug, PartialEq)]
pub struct Transition {
    pub id: u32,
    pub type_: TransitionType,
    pub ext: Option<TransitionExt>,
}

#[verifier::ext_equal]
pub struct TransitionV {
    pub id: u32,
    pub type_: TransitionType,
    pub ext: Option<TransitionExtV>,
}

impl View for Transition {
    type V = TransitionV;

    open spec fn view(&self) -> TransitionV {
        TransitionV {
            id: self.id,
            type_: self.type_,
            ext: match self.ext {
                Some(e) => Some(e@),
                None => None,
            },
        }
    }
}

/// The enumerated transition behaviours, in the order of their wire codes.
#[derive(Clone, Copy, Debug, PartialEq, Eq, Structural)]
pub enum TransitionType {
    Blend,
    Morph,
    Crossfade,
    ChainAnimation,
    DefaultSync,
    DefaultNonSync,
}

/// Extension data of a non-default transition: a blend duration, the
/// intermediate-animation key pairs, and the chain-animation steps.
#[derive(Clone, Debug, PartialEq)]
pub struct TransitionExt {
    pub duration: u32,
    pub intermediate_anims: Vec<IntermediateAnimation>,
    pub chain_anims: Vec<ChainAnimation>,
}

#[verifier::ext_equal]
pub struct TransitionExtV {
    pub duration: u32,
    pub intermediate_anims: Seq<IntermediateAnimationV>,
    pub chain_anims: Seq<ChainAnimation>,
}

impl View for TransitionExt {
    type V = TransitionExtV;

    open spec fn view(&self) -> TransitionExtV {
        TransitionExtV {
            duration: self.duration,
            intermediate_anims: seq_view(self.intermediate_anims@),
            chain_anims: self.chain_anims@,
        }
    }
}

/// A start key and a target key for cross-fade keyframe remapping.
#[derive(Clone, Debug, PartialEq)]
pub struct IntermediateAnimation {
    pub start_key: Vec<u8>,
    pub target_key: Vec<u8>,
}

#[verifier::ext_equal]
pub struct IntermediateAnimationV {
    pub start_key: Seq<u8>,
    pub target_key: Seq<u8>,
}

impl View for IntermediateAnimation {
    type V = IntermediateAnimationV;

    open spec fn view(&self) -> IntermediateAnimationV {
        IntermediateAnimationV { start_key: self.start_key@, target_key: self.target_key@ }
    }
}

/// One step of a chained animation: the clip to chain to and how long the
/// chained blend runs.
#[derive(Clone, Copy, Debug, PartialEq, Eq, Structural)]
pub struct ChainAnimation {
    pub id: u32,
    pub duration: u32,
}

/// A named group of playback layers.
#[derive(Clone, Debug, PartialEq)]
pub struct LayerGroup {
    pub id: u32,
    pub name: Vec<u8>,
    pub layers: Vec<Layer>,
}

#[verifier::ext_equal]
pub struct LayerGroupV {
    pub id: u32,
    pub name: Seq<u8>,
    pub layers: Seq<Layer>,
}

impl View for LayerGroup {
    type V = LayerGroupV;

    open spec fn view(&self) -> LayerGroupV {
        LayerGroupV { id: self.id, name: self.name@, layers: self.layers@ }
    }
}

/// One playback layer: all fixed-width fields, no strings.
#[derive(Clone, Copy, Debug, PartialEq, Eq, Structural)]
pub struct Layer {
    pub id: u32,
    pub priority: i32,
    pub weight: u32,
    pub ease_in_time: u32,
    pub ease_out_time: u32,
    pub sync_id: u32,
}

/// An element-for-element copy of a byte string.
pub fn dup_bytes(v: &Vec<u8>) -> (r: Vec<u8>)
    ensures
        r@ == v@,
{
    let mut r: Vec<u8> = Vec::new();
    let mut i: usize = 0;
    while i < v.len()
        invariant
            i <= v@.len(),
            r@ == v@.take(i as int),
        decreases v@.len() - i,
    {
        r.push(v[i]);
        proof {
            assert(r@ =~= v@.take(i as int + 1));
        }
        i = i + 1;
    }
    proof {
        assert(v@.take(v@.len() as int) =~= v@);
    }
    r
}

impl IntermediateAnimation {
    /// A copy whose view is the original's.
    pub fn duplicate(&self) -> (r: IntermediateAnimation)
        ensures
            r@ == self@,
    {
        IntermediateAnimation {
            start_key: dup_bytes(&self.start_key),
            target_key: dup_bytes(&self.target_key),
        }
    }
}

impl TransitionExt {
    /// A copy whose view is the original's.
    #[verifier::loop_isolation(false)]
    pub fn duplicate(&self) -> (r: TransitionExt)
        ensures
            r@ == self@,
    {
        let mut intermediate_anims: Vec<IntermediateAnimation> = Vec::new();
        let mut i: usize = 0;
        while i < self.intermediate_anims.len()
            invariant
                i <= self.intermediate_anims@.len(),
                seq_view(intermediate_anims@) == seq_view(self.intermediate_anims@).take(
                    i as int,
                ),
            decreases self.intermediate_anims@.len() - i,
        {
            intermediate_anims.push(self.intermediate_anims[i].duplicate());
            proof {
                assert(seq_view(intermediate_anims@) =~= seq_view(
                    self.intermediate_anims@,
                ).take(i as int + 1));
            }
            i = i + 1;
        }
        let mut chain_anims: Vec<ChainAnimation> = Vec::new();
        let mut j: usize = 0;
        while j < self.chain_anims.len()
            invariant
                j <= self.chain_anims@.len(),
                chain_anims@ == self.chain_anims@.take(j as int),
            decreases self.chain_anims@.len() - j,
        {
            chain_anims.push(self.chain_anims[j]);
            proof {
                assert(chain_anims@ =~= self.chain_anims@.take(j as int + 1));
            }
            j = j + 1;
        }
        let r = TransitionExt { duration: self.duration, intermediate_anims, chain_anims };
        proof {
            assert(seq_view(self.intermediate_anims@).take(self.intermediate_anims@.len() as int)
                =~= seq_view(self.intermediate_anims@));
            assert(self.chain_anims@.take(self.chain_anims@.len() as int)
                =~= self.chain_anims@);
            assert(r@ =~= self@);
        }
        r
    }
}

/// A copy of an optional extension whose view is the original's.
pub fn dup_ext(v: &Option<TransitionExt>) -> (r: Option<TransitionExt>)
    ensures
        (match r {
            Some(e) => v matches Some(o) && e@ == o@,
            None => v is None,
        }),
{
    match v {
        Some(e) => Some(e.duplicate()),
        None => None,
    }
}

} // verus!
