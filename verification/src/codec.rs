//! The binary codec of the keyframe-motion format.
//!
//! For every piece of the graph there are a specification-level encoder
//! (`enc_*`), a specification-level decoder (`dec_*`) and the executable
//! `encode_kfm` / `decode_kfm` pair proved against them. `enc_ok_*` says
//! exactly when a value can be written at all: every string ASCII, every
//! sequence short enough for its 4-byte count, and extension data present
//! exactly where the transition kind demands it on the way out.

use vstd::prelude::*;

verus! {

use vstd::utf8::valid_utf8;
use crate::error::KfmError;
use crate::prim::Endianness;
use crate::prim::tail;
use crate::prim::lemma_tail_tail;
use crate::prim::tail_shift;
use crate::prim::dec_u32;
use crate::prim::dec_i32;
use crate::prim::dec_str;
use crate::prim::u32_bytes;
use crate::prim::i32_bytes;
use crate::prim::enc_str;
use crate::prim::str_enc_ok;
use crate::prim::read_u32;
use crate::prim::read_i32;
use crate::prim::read_str;
use crate::prim::write_u8;
use crate::prim::write_u32;
use crate::prim::write_i32;
use crate::prim::write_str;
use crate::source::seq_view;
use crate::source::SourceFile;
use crate::source::SourceFileHeader;
use crate::source::SourceFileBody;
use crate::source::SourceFileBodyV;
use crate::source::Model;
use crate::source::ModelV;
use crate::source::DefaultTransitions;
use crate::source::Animation;
use crate::source::AnimationV;
use crate::source::Transition;
use crate::source::TransitionV;
use crate::source::TransitionType;
use crate::source::TransitionExt;
use crate::source::TransitionExtV;
use crate::source::IntermediateAnimation;
use crate::source::IntermediateAnimationV;
use crate::source::ChainAnimation;
use crate::source::LayerGroup;
use crate::source::LayerGroupV;
use crate::source::Layer;

broadcast use lemma_tail_tail, crate::prim::lemma_enc_str_len;

// ---------------------------------------------------------------------------
// counted sequences, generically
// ---------------------------------------------------------------------------

/// The concatenated encodings of the elements of `xs`.
pub open spec fn enc_items<T>(one: spec_fn(T) -> Seq<u8>, xs: Seq<T>) -> Seq<u8>
    decreases xs.len(),
{
    if xs.len() == 0 {
        Seq::empty()
    } else {
        one(xs[0]) + enc_items(one, xs.skip(1))
    }
}

/// Every element can be written, and the count fits its 4 bytes.
pub open spec fn ok_items<T>(one_ok: spec_fn(T) -> bool, xs: Seq<T>) -> bool {
    xs.len() <= 0xffff_ffff && forall|i: int| 0 <= i < xs.len() ==> one_ok(#[trigger] xs[i])
}

/// A 4-byte element count followed by the elements.
pub open spec fn enc_counted<T>(one: spec_fn(T) -> Seq<u8>, xs: Seq<T>, en: Endianness) -> Seq<
    u8,
> {
    u32_bytes(xs.len() as u32, en) + enc_items(one, xs)
}

/// Decodes exactly `n` elements, one after the other.
pub open spec fn dec_items<T>(one: spec_fn(Seq<u8>) -> Option<(T, int)>, s: Seq<u8>, n: nat) -> Option<
    (Seq<T>, int),
>
    decreases n,
{
    if n == 0 {
        Some((Seq::empty(), 0int))
    } else {
        match one(s) {
            None => None,
            Some((x, k)) => match dec_items(one, s.skip(k), (n - 1) as nat) {
                None => None,
                Some((xs, m)) => Some((seq![x] + xs, k + m)),
            },
        }
    }
}

/// Decodes a 4-byte count and then that many elements; a count whose
/// elements outrun the input fails rather than truncating.
pub open spec fn dec_counted<T>(
    one: spec_fn(Seq<u8>) -> Option<(T, int)>,
    s: Seq<u8>,
    en: Endianness,
) -> Option<(Seq<T>, int)> {
    match dec_u32(s, en) {
        None => None,
        Some((c, n)) => match dec_items(one, s.skip(n), c as nat) {
            None => None,
            Some((xs, m)) => Some((xs, n + m)),
        },
    }
}

pub proof fn lemma_dec_items_zero<T>(one: spec_fn(Seq<u8>) -> Option<(T, int)>, s: Seq<u8>)
    ensures
        dec_items(one, s, 0) == Some((Seq::<T>::empty(), 0int)),
{
}

pub proof fn lemma_dec_items_fail<T>(
    one: spec_fn(Seq<u8>) -> Option<(T, int)>,
    s: Seq<u8>,
    n: nat,
)
    requires
        n > 0,
        one(s) is None,
    ensures
        dec_items(one, s, n) is None,
{
}

pub proof fn lemma_dec_items_step<T>(
    one: spec_fn(Seq<u8>) -> Option<(T, int)>,
    s: Seq<u8>,
    n: nat,
)
    requires
        n > 0,
        one(s) is Some,
    ensures
        dec_items(one, s, n) == (match dec_items(
            one,
            s.skip(one(s).unwrap().1),
            (n - 1) as nat,
        ) {
            None => None::<(Seq<T>, int)>,
            Some((xs, m)) => Some((seq![one(s).unwrap().0] + xs, one(s).unwrap().1 + m)),
        }),
{
}

pub proof fn lemma_enc_items_snoc<T>(one: spec_fn(T) -> Seq<u8>, xs: Seq<T>, x: T)
    ensures
        enc_items(one, xs.push(x)) == enc_items(one, xs) + one(x),
    decreases xs.len(),
{
    let lhs = enc_items(one, xs.push(x));
    assert(xs.push(x).len() != 0);
    assert(lhs == one(xs.push(x)[0]) + enc_items(one, xs.push(x).skip(1)));
    if xs.len() == 0 {
        assert(xs.push(x)[0] == x);
        assert(xs.push(x).skip(1) =~= Seq::<T>::empty());
        assert(enc_items(one, xs.push(x).skip(1)) == Seq::<u8>::empty());
        assert(lhs =~= enc_items(one, xs) + one(x));
    } else {
        assert(xs.push(x).skip(1) =~= xs.skip(1).push(x));
        assert(xs.push(x)[0] == xs[0]);
        lemma_enc_items_snoc(one, xs.skip(1), x);
        assert(enc_items(one, xs.push(x).skip(1)) == enc_items(one, xs.skip(1)) + one(x));
        assert(enc_items(one, xs) == one(xs[0]) + enc_items(one, xs.skip(1)));
        assert(lhs =~= enc_items(one, xs) + one(x));
    }
}

/// Decoding the encoding of a list, element round trips given, gives the
/// list back and consumes exactly its bytes.
pub proof fn lemma_rt_items<T>(
    one_e: spec_fn(T) -> Seq<u8>,
    one_d: spec_fn(Seq<u8>) -> Option<(T, int)>,
    xs: Seq<T>,
    rest: Seq<u8>,
)
    requires
        forall|i: int, t: Seq<u8>|
            0 <= i < xs.len() ==> #[trigger] one_d(one_e(xs[i]) + t) == Some(
                (xs[i], one_e(xs[i]).len() as int),
            ),
    ensures
        dec_items(one_d, enc_items(one_e, xs) + rest, xs.len() as nat) == Some(
            (xs, enc_items(one_e, xs).len() as int),
        ),
    decreases xs.len(),
{
    if xs.len() == 0 {
        assert(dec_items(one_d, enc_items(one_e, xs) + rest, 0) == Some(
            (Seq::<T>::empty(), 0int),
        ));
        assert(xs =~= Seq::<T>::empty());
    } else {
        let x = xs[0];
        let xs1 = xs.skip(1);
        let tail1 = enc_items(one_e, xs1) + rest;
        assert(enc_items(one_e, xs) + rest =~= one_e(x) + tail1);
        assert(one_d(one_e(x) + tail1) == Some((x, one_e(x).len() as int)));
        assert((one_e(x) + tail1).skip(one_e(x).len() as int) =~= tail1);
        assert forall|i: int, t: Seq<u8>| 0 <= i < xs1.len() implies #[trigger] one_d(
            one_e(xs1[i]) + t,
        ) == Some((xs1[i], one_e(xs1[i]).len() as int)) by {
            assert(xs1[i] == xs[i + 1]);
        }
        lemma_rt_items(one_e, one_d, xs1, rest);
        assert(seq![x] + xs1 =~= xs);
    }
}

// ---------------------------------------------------------------------------
// TransitionType
// ---------------------------------------------------------------------------

/// The 4-byte wire code of each transition kind.
pub open spec fn type_code(t: TransitionType) -> u32 {
    match t {
        TransitionType::Blend => 0,
        TransitionType::Morph => 1,
        TransitionType::Crossfade => 2,
        TransitionType::ChainAnimation => 3,
        TransitionType::DefaultSync => 4,
        TransitionType::DefaultNonSync => 5,
    }
}

/// The kind a wire code names; codes past the enumeration are rejected.
pub open spec fn type_of_code(c: u32) -> Option<TransitionType> {
    if c == 0 {
        Some(TransitionType::Blend)
    } else if c == 1 {
        Some(TransitionType::Morph)
    } else if c == 2 {
        Some(TransitionType::Crossfade)
    } else if c == 3 {
        Some(TransitionType::ChainAnimation)
    } else if c == 4 {
        Some(TransitionType::DefaultSync)
    } else if c == 5 {
        Some(TransitionType::DefaultNonSync)
    } else {
        None
    }
}

pub open spec fn enc_tt(t: TransitionType, en: Endianness) -> Seq<u8> {
    u32_bytes(type_code(t), en)
}

pub open spec fn dec_tt(s: Seq<u8>, en: Endianness) -> Option<(TransitionType, int)> {
    match dec_u32(s, en) {
        None => None,
        Some((c, n)) => match type_of_code(c) {
            None => None,
            Some(t) => Some((t, n)),
        },
    }
}

/// A kind carries extension data unless it is one of the two defaults.
pub open spec fn kind_has_ext(t: TransitionType) -> bool {
    !(t is DefaultSync || t is DefaultNonSync)
}

impl TransitionType {
    pub fn encode_kfm(&self, out: &mut Vec<u8>, en: Endianness)
        ensures
            final(out)@ == old(out)@ + enc_tt(*self, en),
    {
        let code: u32 = match self {
            TransitionType::Blend => 0,
            TransitionType::Morph => 1,
            TransitionType::Crossfade => 2,
            TransitionType::ChainAnimation => 3,
            TransitionType::DefaultSync => 4,
            TransitionType::DefaultNonSync => 5,
        };
        write_u32(out, code, en);
    }

    pub fn decode_kfm(inp: &[u8], pos: usize, en: Endianness) -> (r: Result<
        (TransitionType, usize),
        KfmError,
    >)
        requires
            pos <= inp@.len(),
        ensures
            match dec_tt(tail(inp@, pos as int), en) {
                Some((v, n)) => r matches Ok((rv, rp)) && rv == v && rp == pos + n && pos <= rp && rp
                    <= inp@.len(),
                None => r matches Err(e) && e == KfmError::Format,
            },
    {
        let (code, rp) = match read_u32(inp, pos, en) {
            Ok(v) => v,
            Err(e) => {
                return Err(e);
            },
        };
        let t = match code {
            0 => TransitionType::Blend,
            1 => TransitionType::Morph,
            2 => TransitionType::Crossfade,
            3 => TransitionType::ChainAnimation,
            4 => TransitionType::DefaultSync,
            5 => TransitionType::DefaultNonSync,
            _ => {
                return Err(KfmError::Format);
            },
        };
        Ok((t, rp))
    }
}

// ---------------------------------------------------------------------------
// ChainAnimation
// ---------------------------------------------------------------------------

pub open spec fn enc_ca(c: ChainAnimation, en: Endianness) -> Seq<u8> {
    u32_bytes(c.id, en) + u32_bytes(c.duration, en)
}

pub open spec fn dec_ca(s: Seq<u8>, en: Endianness) -> Option<(ChainAnimation, int)> {
    match dec_u32(s, en) {
        None => None,
        Some((id, n1)) => match dec_u32(s.skip(n1), en) {
            None => None,
            Some((duration, n2)) => Some((ChainAnimation { id, duration }, n1 + n2)),
        },
    }
}

pub open spec fn ca_enc(en: Endianness) -> spec_fn(ChainAnimation) -> Seq<u8> {
    |c: ChainAnimation| enc_ca(c, en)
}

pub open spec fn ca_dec(en: Endianness) -> spec_fn(Seq<u8>) -> Option<(ChainAnimation, int)> {
    |s: Seq<u8>| dec_ca(s, en)
}

impl ChainAnimation {
    pub fn encode_kfm(&self, out: &mut Vec<u8>, en: Endianness)
        ensures
            final(out)@ == old(out)@ + enc_ca(*self, en),
    {
        write_u32(out, self.id, en);
        write_u32(out, self.duration, en);
        assert(final(out)@ =~= old(out)@ + enc_ca(*self, en));
    }

    pub fn decode_kfm(inp: &[u8], pos: usize, en: Endianness) -> (r: Result<
        (ChainAnimation, usize),
        KfmError,
    >)
        requires
            pos <= inp@.len(),
        ensures
            match dec_ca(tail(inp@, pos as int), en) {
                Some((v, n)) => r matches Ok((rv, rp)) && rv == v && rp == pos + n && pos <= rp && rp
                    <= inp@.len(),
                None => r matches Err(e) && e == KfmError::Format,
            },
    {
        let (id, p1) = match read_u32(inp, pos, en) {
            Ok(v) => v,
            Err(e) => {
                return Err(e);
            },
        };
        proof {
            tail_shift(inp@, pos as int, p1 as int);
        }
        let (duration, p2) = match read_u32(inp, p1, en) {
            Ok(v) => v,
            Err(e) => {
                return Err(e);
            },
        };
        Ok((ChainAnimation { id, duration }, p2))
    }
}

// ---------------------------------------------------------------------------
// IntermediateAnimation
// ---------------------------------------------------------------------------

pub open spec fn enc_ia(v: IntermediateAnimationV, en: Endianness) -> Seq<u8> {
    enc_str(v.start_key, en) + enc_str(v.target_key, en)
}

pub open spec fn enc_ok_ia(v: IntermediateAnimationV) -> bool {
    str_enc_ok(v.start_key) && str_enc_ok(v.target_key)
}

pub open spec fn dec_ia(s: Seq<u8>, en: Endianness) -> Option<(IntermediateAnimationV, int)> {
    match dec_str(s, en) {
        None => None,
        Some((start_key, n1)) => match dec_str(s.skip(n1), en) {
            None => None,
            Some((target_key, n2)) => Some(
                (IntermediateAnimationV { start_key, target_key }, n1 + n2),
            ),
        },
    }
}

pub open spec fn ia_enc(en: Endianness) -> spec_fn(IntermediateAnimationV) -> Seq<u8> {
    |v: IntermediateAnimationV| enc_ia(v, en)
}

pub open spec fn ia_ok() -> spec_fn(IntermediateAnimationV) -> bool {
    |v: IntermediateAnimationV| enc_ok_ia(v)
}

pub open spec fn ia_dec(en: Endianness) -> spec_fn(Seq<u8>) -> Option<
    (IntermediateAnimationV, int),
> {
    |s: Seq<u8>| dec_ia(s, en)
}

impl IntermediateAnimation {
    pub fn encode_kfm(&self, out: &mut Vec<u8>, en: Endianness) -> (r: Result<(), KfmError>)
        ensures
            match r {
                Ok(()) => enc_ok_ia(self@) && final(out)@ == old(out)@ + enc_ia(self@, en),
                Err(e) => !enc_ok_ia(self@) && e == KfmError::Encoding,
            },
    {
        match write_str(out, &self.start_key, en) {
            Ok(()) => (),
            Err(e) => {
                return Err(e);
            },
        }
        match write_str(out, &self.target_key, en) {
            Ok(()) => (),
            Err(e) => {
                return Err(e);
            },
        }
        assert(final(out)@ =~= old(out)@ + enc_ia(self@, en));
        Ok(())
    }

    pub fn decode_kfm(inp: &[u8], pos: usize, en: Endianness) -> (r: Result<
        (IntermediateAnimation, usize),
        KfmError,
    >)
        requires
            pos <= inp@.len(),
        ensures
            match dec_ia(tail(inp@, pos as int), en) {
                Some((v, n)) => r matches Ok((rv, rp)) && rv@ == v && rp == pos + n && pos <= rp && rp
                    <= inp@.len(),
                None => r matches Err(e) && e == KfmError::Format,
            },
    {
        let (start_key, p1) = match read_str(inp, pos, en) {
            Ok(v) => v,
            Err(e) => {
                return Err(e);
            },
        };
        proof {
            tail_shift(inp@, pos as int, p1 as int);
        }
        let (target_key, p2) = match read_str(inp, p1, en) {
            Ok(v) => v,
            Err(e) => {
                return Err(e);
            },
        };
        Ok((IntermediateAnimation { start_key, target_key }, p2))
    }
}

fn encode_ca_list(v: &Vec<ChainAnimation>, out: &mut Vec<u8>, en: Endianness) -> (r: Result<
    (),
    KfmError,
>)
    ensures
        match r {
            Ok(()) => v@.len() <= 0xffff_ffff && final(out)@ == old(out)@ + enc_counted(
                ca_enc(en),
                v@,
                en,
            ),
            Err(e) => v@.len() > 0xffff_ffff && e == KfmError::Encoding,
        },
{
    if v.len() > u32::MAX as usize {
        return Err(KfmError::Encoding);
    }
    write_u32(out, v.len() as u32, en);
    let mut i: usize = 0;
    while i < v.len()
        invariant
            i <= v@.len(),
            v@.len() <= 0xffff_ffff,
            out@ == old(out)@ + u32_bytes(v@.len() as u32, en) + enc_items(
                ca_enc(en),
                v@.take(i as int),
            ),
        decreases v@.len() - i,
    {
        let c = v[i];
        c.encode_kfm(out, en);
        proof {
            lemma_enc_items_snoc(ca_enc(en), v@.take(i as int), v@[i as int]);
            assert(v@.take(i as int).push(v@[i as int]) =~= v@.take(i as int + 1));
            assert(out@ =~= old(out)@ + u32_bytes(v@.len() as u32, en) + enc_items(
                ca_enc(en),
                v@.take(i as int + 1),
            ));
        }
        i = i + 1;
    }
    proof {
        assert(v@.take(v@.len() as int) =~= v@);
        assert(out@ =~= old(out)@ + enc_counted(ca_enc(en), v@, en));
    }
    Ok(())
}

#[verifier::loop_isolation(false)]
fn decode_ca_list(inp: &[u8], pos: usize, en: Endianness) -> (r: Result<
    (Vec<ChainAnimation>, usize),
    KfmError,
>)
    requires
        pos <= inp@.len(),
    ensures
        match dec_counted(ca_dec(en), tail(inp@, pos as int), en) {
            Some((xs, n)) => r matches Ok((rv, rp)) && rv@ == xs && rp == pos + n && pos <= rp && rp
                <= inp@.len(),
            None => r matches Err(e) && e == KfmError::Format,
        },
{
    let (cnt, p1) = match read_u32(inp, pos, en) {
        Ok(v) => v,
        Err(e) => {
            return Err(e);
        },
    };
    proof {
        tail_shift(inp@, pos as int, p1 as int);
        let full = dec_items(ca_dec(en), tail(inp@, p1 as int), cnt as nat);
        if full is Some {
            assert(Seq::<ChainAnimation>::empty() + full.unwrap().0 =~= full.unwrap().0);
        }
    }
    let mut items: Vec<ChainAnimation> = Vec::new();
    let mut cur: usize = p1;
    let mut i: u32 = 0;
    while i < cnt
        invariant
            pos <= p1 <= cur <= inp@.len(),
            i <= cnt,
            items@.len() == i,
            dec_items(ca_dec(en), tail(inp@, p1 as int), cnt as nat) == (match dec_items(
                ca_dec(en),
                tail(inp@, cur as int),
                (cnt - i) as nat,
            ) {
                None => None::<(Seq<ChainAnimation>, int)>,
                Some((ys, m)) => Some((items@ + ys, cur - p1 + m)),
            }),
        decreases cnt - i,
    {
        let ghost t = tail(inp@, cur as int);
        proof {
            assert(ca_dec(en)(t) == dec_ca(t, en));
        }
        let (c, np) = match ChainAnimation::decode_kfm(inp, cur, en) {
            Ok(v) => v,
            Err(e) => {
                proof {
                    lemma_dec_items_fail(ca_dec(en), t, (cnt - i) as nat);
                }
                return Err(e);
            },
        };
        proof {
            tail_shift(inp@, cur as int, np as int);
            assert(ca_dec(en)(t).unwrap() == (c, np - cur as int));
            lemma_dec_items_step(ca_dec(en), t, (cnt - i) as nat);
            assert(t.skip(np - cur as int) == tail(inp@, np as int));
            let rem2 = dec_items(ca_dec(en), tail(inp@, np as int), (cnt - i - 1) as nat);
            if rem2 is Some {
                assert(items@ + (seq![c] + rem2.unwrap().0) =~= items@.push(c)
                    + rem2.unwrap().0);
            }
        }
        items.push(c);
        cur = np;
        i = i + 1;
    }
    proof {
        lemma_dec_items_zero(ca_dec(en), tail(inp@, cur as int));
        assert(items@ + Seq::<ChainAnimation>::empty() =~= items@);
    }
    Ok((items, cur))
}

fn encode_ia_list(v: &Vec<IntermediateAnimation>, out: &mut Vec<u8>, en: Endianness) -> (r:
    Result<(), KfmError>)
    ensures
        match r {
            Ok(()) => ok_items(ia_ok(), seq_view(v@)) && final(out)@ == old(out)@ + enc_counted(
                ia_enc(en),
                seq_view(v@),
                en,
            ),
            Err(e) => !ok_items(ia_ok(), seq_view(v@)) && e == KfmError::Encoding,
        },
{
    let ghost vs = seq_view(v@);
    if v.len() > u32::MAX as usize {
        return Err(KfmError::Encoding);
    }
    write_u32(out, v.len() as u32, en);
    let mut i: usize = 0;
    while i < v.len()
        invariant
            i <= v@.len(),
            v@.len() <= 0xffff_ffff,
            vs == seq_view(v@),
            vs.len() == v@.len(),
            forall|j: int| 0 <= j < i ==> ia_ok()(#[trigger] vs[j]),
            out@ == old(out)@ + u32_bytes(v@.len() as u32, en) + enc_items(
                ia_enc(en),
                vs.take(i as int),
            ),
        decreases v@.len() - i,
    {
        match v[i].encode_kfm(out, en) {
            Ok(()) => (),
            Err(e) => {
                assert(!ia_ok()(vs[i as int]));
                return Err(e);
            },
        }
        proof {
            lemma_enc_items_snoc(ia_enc(en), vs.take(i as int), vs[i as int]);
            assert(vs.take(i as int).push(vs[i as int]) =~= vs.take(i as int + 1));
            assert(out@ =~= old(out)@ + u32_bytes(v@.len() as u32, en) + enc_items(
                ia_enc(en),
                vs.take(i as int + 1),
            ));
        }
        i = i + 1;
    }
    proof {
        assert(vs.take(vs.len() as int) =~= vs);
        assert(out@ =~= old(out)@ + enc_counted(ia_enc(en), vs, en));
    }
    Ok(())
}

#[verifier::loop_isolation(false)]
fn decode_ia_list(inp: &[u8], pos: usize, en: Endianness) -> (r: Result<
    (Vec<IntermediateAnimation>, usize),
    KfmError,
>)
    requires
        pos <= inp@.len(),
    ensures
        match dec_counted(ia_dec(en), tail(inp@, pos as int), en) {
            Some((xs, n)) => r matches Ok((rv, rp)) && seq_view(rv@) == xs && rp == pos + n && pos <= rp && rp
                <= inp@.len(),
            None => r matches Err(e) && e == KfmError::Format,
        },
{
    let (cnt, p1) = match read_u32(inp, pos, en) {
        Ok(v) => v,
        Err(e) => {
            return Err(e);
        },
    };
    proof {
        tail_shift(inp@, pos as int, p1 as int);
        let full = dec_items(ia_dec(en), tail(inp@, p1 as int), cnt as nat);
        if full is Some {
            assert(Seq::<IntermediateAnimationV>::empty() + full.unwrap().0 =~= full.unwrap().0);
        }
    }
    let mut items: Vec<IntermediateAnimation> = Vec::new();
    proof {
        assert(seq_view(items@) =~= Seq::<IntermediateAnimationV>::empty());
    }
    let mut cur: usize = p1;
    let mut i: u32 = 0;
    while i < cnt
        invariant
            pos <= p1 <= cur <= inp@.len(),
            i <= cnt,
            items@.len() == i,
            dec_items(ia_dec(en), tail(inp@, p1 as int), cnt as nat) == (match dec_items(
                ia_dec(en),
                tail(inp@, cur as int),
                (cnt - i) as nat,
            ) {
                None => None::<(Seq<IntermediateAnimationV>, int)>,
                Some((ys, m)) => Some((seq_view(items@) + ys, cur - p1 + m)),
            }),
        decreases cnt - i,
    {
        let ghost t = tail(inp@, cur as int);
        proof {
            assert(ia_dec(en)(t) == dec_ia(t, en));
        }
        let (c, np) = match IntermediateAnimation::decode_kfm(inp, cur, en) {
            Ok(v) => v,
            Err(e) => {
                proof {
                    lemma_dec_items_fail(ia_dec(en), t, (cnt - i) as nat);
                }
                return Err(e);
            },
        };
        proof {
            tail_shift(inp@, cur as int, np as int);
            assert(ia_dec(en)(t).unwrap() == (c@, np - cur as int));
            lemma_dec_items_step(ia_dec(en), t, (cnt - i) as nat);
            assert(t.skip(np - cur as int) == tail(inp@, np as int));
            let rem2 = dec_items(ia_dec(en), tail(inp@, np as int), (cnt - i - 1) as nat);
            if rem2 is Some {
                assert(seq_view(items@) + (seq![c@] + rem2.unwrap().0) =~= seq_view(
                    items@.push(c),
                ) + rem2.unwrap().0);
            }
        }
        items.push(c);
        cur = np;
        i = i + 1;
    }
    proof {
        lemma_dec_items_zero(ia_dec(en), tail(inp@, cur as int));
        assert(seq_view(items@) + Seq::<IntermediateAnimationV>::empty() =~= seq_view(items@));
    }
    Ok((items, cur))
}

// ---------------------------------------------------------------------------
// TransitionExt
// ---------------------------------------------------------------------------

pub open spec fn enc_ext(v: TransitionExtV, en: Endianness) -> Seq<u8> {
    u32_bytes(v.duration, en) + enc_counted(ia_enc(en), v.intermediate_anims, en) + enc_counted(
        ca_enc(en),
        v.chain_anims,
        en,
    )
}

pub open spec fn enc_ok_ext(v: TransitionExtV) -> bool {
    ok_items(ia_ok(), v.intermediate_anims) && v.chain_anims.len() <= 0xffff_ffff
}

pub open spec fn dec_ext(s: Seq<u8>, en: Endianness) -> Option<(TransitionExtV, int)> {
    match dec_u32(s, en) {
        None => None,
        Some((duration, n1)) => match dec_counted(ia_dec(en), s.skip(n1), en) {
            None => None,
            Some((intermediate_anims, n2)) => match dec_counted(
                ca_dec(en),
                s.skip(n1 + n2),
                en,
            ) {
                None => None,
                Some((chain_anims, n3)) => Some(
                    (
                        TransitionExtV { duration, intermediate_anims, chain_anims },
                        n1 + n2 + n3,
                    ),
                ),
            },
        },
    }
}

impl TransitionExt {
    pub fn encode_kfm(&self, out: &mut Vec<u8>, en: Endianness) -> (r: Result<(), KfmError>)
        ensures
            match r {
                Ok(()) => enc_ok_ext(self@) && final(out)@ == old(out)@ + enc_ext(self@, en),
                Err(e) => !enc_ok_ext(self@) && e == KfmError::Encoding,
            },
    {
        write_u32(out, self.duration, en);
        match encode_ia_list(&self.intermediate_anims, out, en) {
            Ok(()) => (),
            Err(e) => {
                return Err(e);
            },
        }
        match encode_ca_list(&self.chain_anims, out, en) {
            Ok(()) => (),
            Err(e) => {
                return Err(e);
            },
        }
        assert(final(out)@ =~= old(out)@ + enc_ext(self@, en));
        Ok(())
    }

    pub fn decode_kfm(inp: &[u8], pos: usize, en: Endianness) -> (r: Result<
        (TransitionExt, usize),
        KfmError,
    >)
        requires
            pos <= inp@.len(),
        ensures
            match dec_ext(tail(inp@, pos as int), en) {
                Some((v, n)) => r matches Ok((rv, rp)) && rv@ == v && rp == pos + n && pos <= rp && rp
                    <= inp@.len(),
                None => r matches Err(e) && e == KfmError::Format,
            },
    {
        let (duration, p1) = match read_u32(inp, pos, en) {
            Ok(v) => v,
            Err(e) => {
                return Err(e);
            },
        };
        proof {
            tail_shift(inp@, pos as int, p1 as int);
        }
        let (intermediate_anims, p2) = match decode_ia_list(inp, p1, en) {
            Ok(v) => v,
            Err(e) => {
                return Err(e);
            },
        };
        proof {
            tail_shift(inp@, pos as int, p2 as int);
        }
        let (chain_anims, p3) = match decode_ca_list(inp, p2, en) {
            Ok(v) => v,
            Err(e) => {
                return Err(e);
            },
        };
        Ok((TransitionExt { duration, intermediate_anims, chain_anims }, p3))
    }
}

// ---------------------------------------------------------------------------
// Transition
// ---------------------------------------------------------------------------

/// On the wire the extension stands exactly when the kind demands one; an
/// extension carried in memory by a default-kind transition is never
/// written.
pub open spec fn enc_transition(t: TransitionV, en: Endianness) -> Seq<u8> {
    u32_bytes(t.id, en) + enc_tt(t.type_, en) + if kind_has_ext(t.type_) {
        enc_ext(t.ext.unwrap(), en)
    } else {
        Seq::empty()
    }
}

pub open spec fn enc_ok_transition(t: TransitionV) -> bool {
    kind_has_ext(t.type_) ==> (t.ext is Some && enc_ok_ext(t.ext.unwrap()))
}

pub open spec fn dec_transition(s: Seq<u8>, en: Endianness) -> Option<(TransitionV, int)> {
    match dec_u32(s, en) {
        None => None,
        Some((id, n1)) => match dec_tt(s.skip(n1), en) {
            None => None,
            Some((type_, n2)) => if kind_has_ext(type_) {
                match dec_ext(s.skip(n1 + n2), en) {
                    None => None,
                    Some((e, n3)) => Some(
                        (TransitionV { id, type_, ext: Some(e) }, n1 + n2 + n3),
                    ),
                }
            } else {
                Some((TransitionV { id, type_, ext: None }, n1 + n2))
            },
        },
    }
}

pub open spec fn tr_enc(en: Endianness) -> spec_fn(TransitionV) -> Seq<u8> {
    |t: TransitionV| enc_transition(t, en)
}

pub open spec fn tr_ok() -> spec_fn(TransitionV) -> bool {
    |t: TransitionV| enc_ok_transition(t)
}

pub open spec fn tr_dec(en: Endianness) -> spec_fn(Seq<u8>) -> Option<(TransitionV, int)> {
    |s: Seq<u8>| dec_transition(s, en)
}

impl Transition {
    pub fn encode_kfm(&self, out: &mut Vec<u8>, en: Endianness) -> (r: Result<(), KfmError>)
        ensures
            match r {
                Ok(()) => enc_ok_transition(self@) && final(out)@ == old(out)@ + enc_transition(
                    self@,
                    en,
                ),
                Err(e) => !enc_ok_transition(self@) && e == KfmError::Encoding,
            },
    {
        write_u32(out, self.id, en);
        self.type_.encode_kfm(out, en);
        let needs_ext = match self.type_ {
            TransitionType::DefaultSync => false,
            TransitionType::DefaultNonSync => false,
            _ => true,
        };
        if needs_ext {
            match &self.ext {
                Some(e) => {
                    match e.encode_kfm(out, en) {
                        Ok(()) => (),
                        Err(err) => {
                            return Err(err);
                        },
                    }
                },
                None => {
                    return Err(KfmError::Encoding);
                },
            }
        }
        assert(final(out)@ =~= old(out)@ + enc_transition(self@, en));
        Ok(())
    }

    pub fn decode_kfm(inp: &[u8], pos: usize, en: Endianness) -> (r: Result<
        (Transition, usize),
        KfmError,
    >)
        requires
            pos <= inp@.len(),
        ensures
            match dec_transition(tail(inp@, pos as int), en) {
                Some((v, n)) => r matches Ok((rv, rp)) && rv@ == v && rp == pos + n && pos <= rp && rp
                    <= inp@.len(),
                None => r matches Err(e) && e == KfmError::Format,
            },
    {
        let (id, p1) = match read_u32(inp, pos, en) {
            Ok(v) => v,
            Err(e) => {
                return Err(e);
            },
        };
        proof {
            tail_shift(inp@, pos as int, p1 as int);
        }
        let (type_, p2) = match TransitionType::decode_kfm(inp, p1, en) {
            Ok(v) => v,
            Err(e) => {
                return Err(e);
            },
        };
        proof {
            tail_shift(inp@, pos as int, p2 as int);
        }
        let needs_ext = match type_ {
            TransitionType::DefaultSync => false,
            TransitionType::DefaultNonSync => false,
            _ => true,
        };
        if needs_ext {
            let (e, p3) = match TransitionExt::decode_kfm(inp, p2, en) {
                Ok(v) => v,
                Err(e) => {
                    return Err(e);
                },
            };
            Ok((Transition { id, type_, ext: Some(e) }, p3))
        } else {
            Ok((Transition { id, type_, ext: None }, p2))
        }
    }
}

#[verifier::loop_isolation(false)]
fn encode_tr_list(v: &Vec<Transition>, out: &mut Vec<u8>, en: Endianness) -> (r: Result<
    (),
    KfmError,
>)
    ensures
        match r {
            Ok(()) => ok_items(tr_ok(), seq_view(v@)) && final(out)@ == old(out)@ + enc_counted(
                tr_enc(en),
                seq_view(v@),
                en,
            ),
            Err(e) => !ok_items(tr_ok(), seq_view(v@)) && e == KfmError::Encoding,
        },
{
    let ghost vs = seq_view(v@);
    if v.len() > u32::MAX as usize {
        return Err(KfmError::Encoding);
    }
    write_u32(out, v.len() as u32, en);
    let mut i: usize = 0;
    while i < v.len()
        invariant
            i <= v@.len(),
            forall|j: int| 0 <= j < i ==> tr_ok()(#[trigger] vs[j]),
            out@ == old(out)@ + u32_bytes(v@.len() as u32, en) + enc_items(
                tr_enc(en),
                vs.take(i as int),
            ),
        decreases v@.len() - i,
    {
        match v[i].encode_kfm(out, en) {
            Ok(()) => (),
            Err(e) => {
                assert(!tr_ok()(vs[i as int]));
                return Err(e);
            },
        }
        proof {
            lemma_enc_items_snoc(tr_enc(en), vs.take(i as int), vs[i as int]);
            assert(vs.take(i as int).push(vs[i as int]) =~= vs.take(i as int + 1));
            assert(out@ =~= old(out)@ + u32_bytes(v@.len() as u32, en) + enc_items(
                tr_enc(en),
                vs.take(i as int + 1),
            ));
        }
        i = i + 1;
    }
    proof {
        assert(vs.take(vs.len() as int) =~= vs);
        assert(out@ =~= old(out)@ + enc_counted(tr_enc(en), vs, en));
    }
    Ok(())
}

#[verifier::rlimit(50)]
#[verifier::loop_isolation(false)]
fn decode_tr_list(inp: &[u8], pos: usize, en: Endianness) -> (r: Result<
    (Vec<Transition>, usize),
    KfmError,
>)
    requires
        pos <= inp@.len(),
    ensures
        match dec_counted(tr_dec(en), tail(inp@, pos as int), en) {
            Some((xs, n)) => r matches Ok((rv, rp)) && seq_view(rv@) == xs && rp == pos + n
                && pos <= rp && rp <= inp@.len(),
            None => r matches Err(e) && e == KfmError::Format,
        },
{
    let (cnt, p1) = match read_u32(inp, pos, en) {
        Ok(v) => v,
        Err(e) => {
            return Err(e);
        },
    };
    proof {
        tail_shift(inp@, pos as int, p1 as int);
        let full = dec_items(tr_dec(en), tail(inp@, p1 as int), cnt as nat);
        if full is Some {
            assert(Seq::<TransitionV>::empty() + full.unwrap().0 =~= full.unwrap().0);
        }
    }
    let mut items: Vec<Transition> = Vec::new();
    proof {
        assert(seq_view(items@) =~= Seq::<TransitionV>::empty());
    }
    let mut cur: usize = p1;
    let mut i: u32 = 0;
    while i < cnt
        invariant
            pos <= p1 <= cur <= inp@.len(),
            i <= cnt,
            items@.len() == i,
            dec_items(tr_dec(en), tail(inp@, p1 as int), cnt as nat) == (match dec_items(
                tr_dec(en),
                tail(inp@, cur as int),
                (cnt - i) as nat,
            ) {
                None => None::<(Seq<TransitionV>, int)>,
                Some((ys, m)) => Some((seq_view(items@) + ys, cur - p1 + m)),
            }),
        decreases cnt - i,
    {
        let ghost t = tail(inp@, cur as int);
        proof {
            assert(tr_dec(en)(t) == dec_transition(t, en));
        }
        let (c, np) = match Transition::decode_kfm(inp, cur, en) {
            Ok(v) => v,
            Err(e) => {
                proof {
                    lemma_dec_items_fail(tr_dec(en), t, (cnt - i) as nat);
                }
                return Err(e);
            },
        };
        proof {
            tail_shift(inp@, cur as int, np as int);
            assert(tr_dec(en)(t).unwrap() == (c@, np - cur as int));
            lemma_dec_items_step(tr_dec(en), t, (cnt - i) as nat);
            assert(t.skip(np - cur as int) == tail(inp@, np as int));
            let rem2 = dec_items(tr_dec(en), tail(inp@, np as int), (cnt - i - 1) as nat);
            if rem2 is Some {
                assert(seq_view(items@) + (seq![c@] + rem2.unwrap().0) =~= seq_view(
                    items@.push(c),
                ) + rem2.unwrap().0);
            }
        }
        items.push(c);
        cur = np;
        i = i + 1;
    }
    proof {
        lemma_dec_items_zero(tr_dec(en), tail(inp@, cur as int));
        assert(seq_view(items@) + Seq::<TransitionV>::empty() =~= seq_view(items@));
    }
    Ok((items, cur))
}

// ---------------------------------------------------------------------------
// Animation
// ---------------------------------------------------------------------------

pub open spec fn enc_an(a: AnimationV, en: Endianness) -> Seq<u8> {
    u32_bytes(a.id, en) + enc_str(a.path, en) + u32_bytes(a.index, en) + enc_counted(
        tr_enc(en),
        a.trans,
        en,
    )
}

pub open spec fn enc_ok_an(a: AnimationV) -> bool {
    str_enc_ok(a.path) && ok_items(tr_ok(), a.trans)
}

pub open spec fn dec_an(s: Seq<u8>, en: Endianness) -> Option<(AnimationV, int)> {
    match dec_u32(s, en) {
        None => None,
        Some((id, n1)) => match dec_str(s.skip(n1), en) {
            None => None,
            Some((path, n2)) => match dec_u32(s.skip(n1 + n2), en) {
                None => None,
                Some((index, n3)) => match dec_counted(tr_dec(en), s.skip(n1 + n2 + n3), en) {
                    None => None,
                    Some((trans, n4)) => Some(
                        (AnimationV { id, path, index, trans }, n1 + n2 + n3 + n4),
                    ),
                },
            },
        },
    }
}

pub open spec fn an_enc(en: Endianness) -> spec_fn(AnimationV) -> Seq<u8> {
    |a: AnimationV| enc_an(a, en)
}

pub open spec fn an_ok() -> spec_fn(AnimationV) -> bool {
    |a: AnimationV| enc_ok_an(a)
}

pub open spec fn an_dec(en: Endianness) -> spec_fn(Seq<u8>) -> Option<(AnimationV, int)> {
    |s: Seq<u8>| dec_an(s, en)
}

impl Animation {
    pub fn encode_kfm(&self, out: &mut Vec<u8>, en: Endianness) -> (r: Result<(), KfmError>)
        ensures
            match r {
                Ok(()) => enc_ok_an(self@) && final(out)@ == old(out)@ + enc_an(self@, en),
                Err(e) => !enc_ok_an(self@) && e == KfmError::Encoding,
            },
    {
        write_u32(out, self.id, en);
        match write_str(out, &self.path, en) {
            Ok(()) => (),
            Err(e) => {
                return Err(e);
            },
        }
        write_u32(out, self.index, en);
        match encode_tr_list(&self.trans, out, en) {
            Ok(()) => (),
            Err(e) => {
                return Err(e);
            },
        }
        assert(final(out)@ =~= old(out)@ + enc_an(self@, en));
        Ok(())
    }

    pub fn decode_kfm(inp: &[u8], pos: usize, en: Endianness) -> (r: Result<
        (Animation, usize),
        KfmError,
    >)
        requires
            pos <= inp@.len(),
        ensures
            match dec_an(tail(inp@, pos as int), en) {
                Some((v, n)) => r matches Ok((rv, rp)) && rv@ == v && rp == pos + n && pos <= rp
                    && rp <= inp@.len(),
                None => r matches Err(e) && e == KfmError::Format,
            },
    {
        let (id, p1) = match read_u32(inp, pos, en) {
            Ok(v) => v,
            Err(e) => {
                return Err(e);
            },
        };
        proof {
            tail_shift(inp@, pos as int, p1 as int);
        }
        let (path, p2) = match read_str(inp, p1, en) {
            Ok(v) => v,
            Err(e) => {
                return Err(e);
            },
        };
        proof {
            tail_shift(inp@, pos as int, p2 as int);
        }
        let (index, p3) = match read_u32(inp, p2, en) {
            Ok(v) => v,
            Err(e) => {
                return Err(e);
            },
        };
        proof {
            tail_shift(inp@, pos as int, p3 as int);
        }
        let (trans, p4) = match decode_tr_list(inp, p3, en) {
            Ok(v) => v,
            Err(e) => {
                return Err(e);
            },
        };
        Ok((Animation { id, path, index, trans }, p4))
    }
}

#[verifier::loop_isolation(false)]
fn encode_an_list(v: &Vec<Animation>, out: &mut Vec<u8>, en: Endianness) -> (r: Result<
    (),
    KfmError,
>)
    ensures
        match r {
            Ok(()) => ok_items(an_ok(), seq_view(v@)) && final(out)@ == old(out)@ + enc_counted(
                an_enc(en),
                seq_view(v@),
                en,
            ),
            Err(e) => !ok_items(an_ok(), seq_view(v@)) && e == KfmError::Encoding,
        },
{
    let ghost vs = seq_view(v@);
    if v.len() > u32::MAX as usize {
        return Err(KfmError::Encoding);
    }
    write_u32(out, v.len() as u32, en);
    let mut i: usize = 0;
    while i < v.len()
        invariant
            i <= v@.len(),
            forall|j: int| 0 <= j < i ==> an_ok()(#[trigger] vs[j]),
            out@ == old(out)@ + u32_bytes(v@.len() as u32, en) + enc_items(
                an_enc(en),
                vs.take(i as int),
            ),
        decreases v@.len() - i,
    {
        match v[i].encode_kfm(out, en) {
            Ok(()) => (),
            Err(e) => {
                assert(!an_ok()(vs[i as int]));
                return Err(e);
            },
        }
        proof {
            lemma_enc_items_snoc(an_enc(en), vs.take(i as int), vs[i as int]);
            assert(vs.take(i as int).push(vs[i as int]) =~= vs.take(i as int + 1));
            assert(out@ =~= old(out)@ + u32_bytes(v@.len() as u32, en) + enc_items(
                an_enc(en),
                vs.take(i as int + 1),
            ));
        }
        i = i + 1;
    }
    proof {
        assert(vs.take(vs.len() as int) =~= vs);
        assert(out@ =~= old(out)@ + enc_counted(an_enc(en), vs, en));
    }
    Ok(())
}

#[verifier::rlimit(100)]
#[verifier::spinoff_prover]
#[verifier::loop_isolation(false)]
fn decode_an_list(inp: &[u8], pos: usize, en: Endianness) -> (r: Result<
    (Vec<Animation>, usize),
    KfmError,
>)
    requires
        pos <= inp@.len(),
    ensures
        match dec_counted(an_dec(en), tail(inp@, pos as int), en) {
            Some((xs, n)) => r matches Ok((rv, rp)) && seq_view(rv@) == xs && rp == pos + n
                && pos <= rp && rp <= inp@.len(),
            None => r matches Err(e) && e == KfmError::Format,
        },
{
    let (cnt, p1) = match read_u32(inp, pos, en) {
        Ok(v) => v,
        Err(e) => {
            return Err(e);
        },
    };
    proof {
        tail_shift(inp@, pos as int, p1 as int);
        let full = dec_items(an_dec(en), tail(inp@, p1 as int), cnt as nat);
        if full is Some {
            assert(Seq::<AnimationV>::empty() + full.unwrap().0 =~= full.unwrap().0);
        }
    }
    let mut items: Vec<Animation> = Vec::new();
    proof {
        assert(seq_view(items@) =~= Seq::<AnimationV>::empty());
    }
    let mut cur: usize = p1;
    let mut i: u32 = 0;
    while i < cnt
        invariant
            pos <= p1 <= cur <= inp@.len(),
            i <= cnt,
            items@.len() == i,
            dec_items(an_dec(en), tail(inp@, p1 as int), cnt as nat) == (match dec_items(
                an_dec(en),
                tail(inp@, cur as int),
                (cnt - i) as nat,
            ) {
                None => None::<(Seq<AnimationV>, int)>,
                Some((ys, m)) => Some((seq_view(items@) + ys, cur - p1 + m)),
            }),
        decreases cnt - i,
    {
        let ghost t = tail(inp@, cur as int);
        proof {
            assert(an_dec(en)(t) == dec_an(t, en));
        }
        let (c, np) = match Animation::decode_kfm(inp, cur, en) {
            Ok(v) => v,
            Err(e) => {
                proof {
                    lemma_dec_items_fail(an_dec(en), t, (cnt - i) as nat);
                }
                return Err(e);
            },
        };
        proof {
            tail_shift(inp@, cur as int, np as int);
            assert(an_dec(en)(t).unwrap() == (c@, np - cur as int));
            lemma_dec_items_step(an_dec(en), t, (cnt - i) as nat);
            assert(t.skip(np - cur as int) == tail(inp@, np as int));
            let rem2 = dec_items(an_dec(en), tail(inp@, np as int), (cnt - i - 1) as nat);
            if rem2 is Some {
                assert(seq_view(items@) + (seq![c@] + rem2.unwrap().0) =~= seq_view(
                    items@.push(c),
                ) + rem2.unwrap().0);
            }
        }
        items.push(c);
        cur = np;
        i = i + 1;
    }
    proof {
        lemma_dec_items_zero(an_dec(en), tail(inp@, cur as int));
        assert(seq_view(items@) + Seq::<AnimationV>::empty() =~= seq_view(items@));
    }
    Ok((items, cur))
}

// ---------------------------------------------------------------------------
// Layer
// ---------------------------------------------------------------------------

pub open spec fn enc_ly(l: Layer, en: Endianness) -> Seq<u8> {
    u32_bytes(l.id, en) + i32_bytes(l.priority, en) + u32_bytes(l.weight, en) + u32_bytes(
        l.ease_in_time,
        en,
    ) + u32_bytes(l.ease_out_time, en) + u32_bytes(l.sync_id, en)
}

pub open spec fn dec_ly(s: Seq<u8>, en: Endianness) -> Option<(Layer, int)> {
    match dec_u32(s, en) {
        None => None,
        Some((id, n1)) => match dec_i32(s.skip(n1), en) {
            None => None,
            Some((priority, n2)) => match dec_u32(s.skip(n1 + n2), en) {
                None => None,
                Some((weight, n3)) => match dec_u32(s.skip(n1 + n2 + n3), en) {
                    None => None,
                    Some((ease_in_time, n4)) => match dec_u32(s.skip(n1 + n2 + n3 + n4), en) {
                        None => None,
                        Some((ease_out_time, n5)) => match dec_u32(
                            s.skip(n1 + n2 + n3 + n4 + n5),
                            en,
                        ) {
                            None => None,
                            Some((sync_id, n6)) => Some(
                                (
                                    Layer {
                                        id,
                                        priority,
                                        weight,
                                        ease_in_time,
                                        ease_out_time,
                                        sync_id,
                                    },
                                    n1 + n2 + n3 + n4 + n5 + n6,
                                ),
                            ),
                        },
                    },
                },
            },
        },
    }
}

pub open spec fn ly_enc(en: Endianness) -> spec_fn(Layer) -> Seq<u8> {
    |l: Layer| enc_ly(l, en)
}

pub open spec fn ly_dec(en: Endianness) -> spec_fn(Seq<u8>) -> Option<(Layer, int)> {
    |s: Seq<u8>| dec_ly(s, en)
}

impl Layer {
    pub fn encode_kfm(&self, out: &mut Vec<u8>, en: Endianness)
        ensures
            final(out)@ == old(out)@ + enc_ly(*self, en),
    {
        write_u32(out, self.id, en);
        write_i32(out, self.priority, en);
        write_u32(out, self.weight, en);
        write_u32(out, self.ease_in_time, en);
        write_u32(out, self.ease_out_time, en);
        write_u32(out, self.sync_id, en);
        assert(final(out)@ =~= old(out)@ + enc_ly(*self, en));
    }

    pub fn decode_kfm(inp: &[u8], pos: usize, en: Endianness) -> (r: Result<
        (Layer, usize),
        KfmError,
    >)
        requires
            pos <= inp@.len(),
        ensures
            match dec_ly(tail(inp@, pos as int), en) {
                Some((v, n)) => r matches Ok((rv, rp)) && rv == v && rp == pos + n && pos <= rp
                    && rp <= inp@.len(),
                None => r matches Err(e) && e == KfmError::Format,
            },
    {
        let (id, p1) = match read_u32(inp, pos, en) {
            Ok(v) => v,
            Err(e) => {
                return Err(e);
            },
        };
        proof {
            tail_shift(inp@, pos as int, p1 as int);
        }
        let (priority, p2) = match read_i32(inp, p1, en) {
            Ok(v) => v,
            Err(e) => {
                return Err(e);
            },
        };
        proof {
            tail_shift(inp@, pos as int, p2 as int);
        }
        let (weight, p3) = match read_u32(inp, p2, en) {
            Ok(v) => v,
            Err(e) => {
                return Err(e);
            },
        };
        proof {
            tail_shift(inp@, pos as int, p3 as int);
        }
        let (ease_in_time, p4) = match read_u32(inp, p3, en) {
            Ok(v) => v,
            Err(e) => {
                return Err(e);
            },
        };
        proof {
            tail_shift(inp@, pos as int, p4 as int);
        }
        let (ease_out_time, p5) = match read_u32(inp, p4, en) {
            Ok(v) => v,
            Err(e) => {
                return Err(e);
            },
        };
        proof {
            tail_shift(inp@, pos as int, p5 as int);
        }
        let (sync_id, p6) = match read_u32(inp, p5, en) {
            Ok(v) => v,
            Err(e) => {
                return Err(e);
            },
        };
        Ok((Layer { id, priority, weight, ease_in_time, ease_out_time, sync_id }, p6))
    }
}

#[verifier::loop_isolation(false)]
fn encode_ly_list(v: &Vec<Layer>, out: &mut Vec<u8>, en: Endianness) -> (r: Result<
    (),
    KfmError,
>)
    ensures
        match r {
            Ok(()) => v@.len() <= 0xffff_ffff && final(out)@ == old(out)@ + enc_counted(
                ly_enc(en),
                v@,
                en,
            ),
            Err(e) => v@.len() > 0xffff_ffff && e == KfmError::Encoding,
        },
{
    if v.len() > u32::MAX as usize {
        return Err(KfmError::Encoding);
    }
    write_u32(out, v.len() as u32, en);
    let mut i: usize = 0;
    while i < v.len()
        invariant
            i <= v@.len(),
            out@ == old(out)@ + u32_bytes(v@.len() as u32, en) + enc_items(
                ly_enc(en),
                v@.take(i as int),
            ),
        decreases v@.len() - i,
    {
        let c = v[i];
        c.encode_kfm(out, en);
        proof {
            lemma_enc_items_snoc(ly_enc(en), v@.take(i as int), v@[i as int]);
            assert(v@.take(i as int).push(v@[i as int]) =~= v@.take(i as int + 1));
            assert(out@ =~= old(out)@ + u32_bytes(v@.len() as u32, en) + enc_items(
                ly_enc(en),
                v@.take(i as int + 1),
            ));
        }
        i = i + 1;
    }
    proof {
        assert(v@.take(v@.len() as int) =~= v@);
        assert(out@ =~= old(out)@ + enc_counted(ly_enc(en), v@, en));
    }
    Ok(())
}

#[verifier::rlimit(50)]
#[verifier::loop_isolation(false)]
fn decode_ly_list(inp: &[u8], pos: usize, en: Endianness) -> (r: Result<
    (Vec<Layer>, usize),
    KfmError,
>)
    requires
        pos <= inp@.len(),
    ensures
        match dec_counted(ly_dec(en), tail(inp@, pos as int), en) {
            Some((xs, n)) => r matches Ok((rv, rp)) && rv@ == xs && rp == pos + n && pos <= rp
                && rp <= inp@.len(),
            None => r matches Err(e) && e == KfmError::Format,
        },
{
    let (cnt, p1) = match read_u32(inp, pos, en) {
        Ok(v) => v,
        Err(e) => {
            return Err(e);
        },
    };
    proof {
        tail_shift(inp@, pos as int, p1 as int);
        let full = dec_items(ly_dec(en), tail(inp@, p1 as int), cnt as nat);
        if full is Some {
            assert(Seq::<Layer>::empty() + full.unwrap().0 =~= full.unwrap().0);
        }
    }
    let mut items: Vec<Layer> = Vec::new();
    let mut cur: usize = p1;
    let mut i: u32 = 0;
    while i < cnt
        invariant
            pos <= p1 <= cur <= inp@.len(),
            i <= cnt,
            items@.len() == i,
            dec_items(ly_dec(en), tail(inp@, p1 as int), cnt as nat) == (match dec_items(
                ly_dec(en),
                tail(inp@, cur as int),
                (cnt - i) as nat,
            ) {
                None => None::<(Seq<Layer>, int)>,
                Some((ys, m)) => Some((items@ + ys, cur - p1 + m)),
            }),
        decreases cnt - i,
    {
        let ghost t = tail(inp@, cur as int);
        proof {
            assert(ly_dec(en)(t) == dec_ly(t, en));
        }
        let (c, np) = match Layer::decode_kfm(inp, cur, en) {
            Ok(v) => v,
            Err(e) => {
                proof {
                    lemma_dec_items_fail(ly_dec(en), t, (cnt - i) as nat);
                }
                return Err(e);
            },
        };
        proof {
            tail_shift(inp@, cur as int, np as int);
            assert(ly_dec(en)(t).unwrap() == (c, np - cur as int));
            lemma_dec_items_step(ly_dec(en), t, (cnt - i) as nat);
            assert(t.skip(np - cur as int) == tail(inp@, np as int));
            let rem2 = dec_items(ly_dec(en), tail(inp@, np as int), (cnt - i - 1) as nat);
            if rem2 is Some {
                assert(items@ + (seq![c] + rem2.unwrap().0) =~= items@.push(c)
                    + rem2.unwrap().0);
            }
        }
        items.push(c);
        cur = np;
        i = i + 1;
    }
    proof {
        lemma_dec_items_zero(ly_dec(en), tail(inp@, cur as int));
        assert(items@ + Seq::<Layer>::empty() =~= items@);
    }
    Ok((items, cur))
}

// ---------------------------------------------------------------------------
// LayerGroup
// ---------------------------------------------------------------------------

pub open spec fn enc_lg(g: LayerGroupV, en: Endianness) -> Seq<u8> {
    u32_bytes(g.id, en) + enc_str(g.name, en) + enc_counted(ly_enc(en), g.layers, en)
}

pub open spec fn enc_ok_lg(g: LayerGroupV) -> bool {
    str_enc_ok(g.name) && g.layers.len() <= 0xffff_ffff
}

pub open spec fn dec_lg(s: Seq<u8>, en: Endianness) -> Option<(LayerGroupV, int)> {
    match dec_u32(s, en) {
        None => None,
        Some((id, n1)) => match dec_str(s.skip(n1), en) {
            None => None,
            Some((name, n2)) => match dec_counted(ly_dec(en), s.skip(n1 + n2), en) {
                None => None,
                Some((layers, n3)) => Some((LayerGroupV { id, name, layers }, n1 + n2 + n3)),
            },
        },
    }
}

pub open spec fn lg_enc(en: Endianness) -> spec_fn(LayerGroupV) -> Seq<u8> {
    |g: LayerGroupV| enc_lg(g, en)
}

pub open spec fn lg_ok() -> spec_fn(LayerGroupV) -> bool {
    |g: LayerGroupV| enc_ok_lg(g)
}

pub open spec fn lg_dec(en: Endianness) -> spec_fn(Seq<u8>) -> Option<(LayerGroupV, int)> {
    |s: Seq<u8>| dec_lg(s, en)
}

impl LayerGroup {
    pub fn encode_kfm(&self, out: &mut Vec<u8>, en: Endianness) -> (r: Result<(), KfmError>)
        ensures
            match r {
                Ok(()) => enc_ok_lg(self@) && final(out)@ == old(out)@ + enc_lg(self@, en),
                Err(e) => !enc_ok_lg(self@) && e == KfmError::Encoding,
            },
    {
        write_u32(out, self.id, en);
        match write_str(out, &self.name, en) {
            Ok(()) => (),
            Err(e) => {
                return Err(e);
            },
        }
        match encode_ly_list(&self.layers, out, en) {
            Ok(()) => (),
            Err(e) => {
                return Err(e);
            },
        }
        assert(final(out)@ =~= old(out)@ + enc_lg(self@, en));
        Ok(())
    }

    pub fn decode_kfm(inp: &[u8], pos: usize, en: Endianness) -> (r: Result<
        (LayerGroup, usize),
        KfmError,
    >)
        requires
            pos <= inp@.len(),
        ensures
            match dec_lg(tail(inp@, pos as int), en) {
                Some((v, n)) => r matches Ok((rv, rp)) && rv@ == v && rp == pos + n && pos <= rp
                    && rp <= inp@.len(),
                None => r matches Err(e) && e == KfmError::Format,
            },
    {
        let (id, p1) = match read_u32(inp, pos, en) {
            Ok(v) => v,
            Err(e) => {
                return Err(e);
            },
        };
        proof {
            tail_shift(inp@, pos as int, p1 as int);
        }
        let (name, p2) = match read_str(inp, p1, en) {
            Ok(v) => v,
            Err(e) => {
                return Err(e);
            },
        };
        proof {
            tail_shift(inp@, pos as int, p2 as int);
        }
        let (layers, p3) = match decode_ly_list(inp, p2, en) {
            Ok(v) => v,
            Err(e) => {
                return Err(e);
            },
        };
        Ok((LayerGroup { id, name, layers }, p3))
    }
}

#[verifier::loop_isolation(false)]
fn encode_lg_list(v: &Vec<LayerGroup>, out: &mut Vec<u8>, en: Endianness) -> (r: Result<
    (),
    KfmError,
>)
    ensures
        match r {
            Ok(()) => ok_items(lg_ok(), seq_view(v@)) && final(out)@ == old(out)@ + enc_counted(
                lg_enc(en),
                seq_view(v@),
                en,
            ),
            Err(e) => !ok_items(lg_ok(), seq_view(v@)) && e == KfmError::Encoding,
        },
{
    let ghost vs = seq_view(v@);
    if v.len() > u32::MAX as usize {
        return Err(KfmError::Encoding);
    }
    write_u32(out, v.len() as u32, en);
    let mut i: usize = 0;
    while i < v.len()
        invariant
            i <= v@.len(),
            forall|j: int| 0 <= j < i ==> lg_ok()(#[trigger] vs[j]),
            out@ == old(out)@ + u32_bytes(v@.len() as u32, en) + enc_items(
                lg_enc(en),
                vs.take(i as int),
            ),
        decreases v@.len() - i,
    {
        match v[i].encode_kfm(out, en) {
            Ok(()) => (),
            Err(e) => {
                assert(!lg_ok()(vs[i as int]));
                return Err(e);
            },
        }
        proof {
            lemma_enc_items_snoc(lg_enc(en), vs.take(i as int), vs[i as int]);
            assert(vs.take(i as int).push(vs[i as int]) =~= vs.take(i as int + 1));
            assert(out@ =~= old(out)@ + u32_bytes(v@.len() as u32, en) + enc_items(
                lg_enc(en),
                vs.take(i as int + 1),
            ));
        }
        i = i + 1;
    }
    proof {
        assert(vs.take(vs.len() as int) =~= vs);
        assert(out@ =~= old(out)@ + enc_counted(lg_enc(en), vs, en));
    }
    Ok(())
}

#[verifier::rlimit(50)]
#[verifier::loop_isolation(false)]
fn decode_lg_list(inp: &[u8], pos: usize, en: Endianness) -> (r: Result<
    (Vec<LayerGroup>, usize),
    KfmError,
>)
    requires
        pos <= inp@.len(),
    ensures
        match dec_counted(lg_dec(en), tail(inp@, pos as int), en) {
            Some((xs, n)) => r matches Ok((rv, rp)) && seq_view(rv@) == xs && rp == pos + n
                && pos <= rp && rp <= inp@.len(),
            None => r matches Err(e) && e == KfmError::Format,
        },
{
    let (cnt, p1) = match read_u32(inp, pos, en) {
        Ok(v) => v,
        Err(e) => {
            return Err(e);
        },
    };
    proof {
        tail_shift(inp@, pos as int, p1 as int);
        let full = dec_items(lg_dec(en), tail(inp@, p1 as int), cnt as nat);
        if full is Some {
            assert(Seq::<LayerGroupV>::empty() + full.unwrap().0 =~= full.unwrap().0);
        }
    }
    let mut items: Vec<LayerGroup> = Vec::new();
    proof {
        assert(seq_view(items@) =~= Seq::<LayerGroupV>::empty());
    }
    let mut cur: usize = p1;
    let mut i: u32 = 0;
    while i < cnt
        invariant
            pos <= p1 <= cur <= inp@.len(),
            i <= cnt,
            items@.len() == i,
            dec_items(lg_dec(en), tail(inp@, p1 as int), cnt as nat) == (match dec_items(
                lg_dec(en),
                tail(inp@, cur as int),
                (cnt - i) as nat,
            ) {
                None => None::<(Seq<LayerGroupV>, int)>,
                Some((ys, m)) => Some((seq_view(items@) + ys, cur - p1 + m)),
            }),
        decreases cnt - i,
    {
        let ghost t = tail(inp@, cur as int);
        proof {
            assert(lg_dec(en)(t) == dec_lg(t, en));
        }
        let (c, np) = match LayerGroup::decode_kfm(inp, cur, en) {
            Ok(v) => v,
            Err(e) => {
                proof {
                    lemma_dec_items_fail(lg_dec(en), t, (cnt - i) as nat);
                }
                return Err(e);
            },
        };
        proof {
            tail_shift(inp@, cur as int, np as int);
            assert(lg_dec(en)(t).unwrap() == (c@, np - cur as int));
            lemma_dec_items_step(lg_dec(en), t, (cnt - i) as nat);
            assert(t.skip(np - cur as int) == tail(inp@, np as int));
            let rem2 = dec_items(lg_dec(en), tail(inp@, np as int), (cnt - i - 1) as nat);
            if rem2 is Some {
                assert(seq_view(items@) + (seq![c@] + rem2.unwrap().0) =~= seq_view(
                    items@.push(c),
                ) + rem2.unwrap().0);
            }
        }
        items.push(c);
        cur = np;
        i = i + 1;
    }
    proof {
        lemma_dec_items_zero(lg_dec(en), tail(inp@, cur as int));
        assert(seq_view(items@) + Seq::<LayerGroupV>::empty() =~= seq_view(items@));
    }
    Ok((items, cur))
}

// ---------------------------------------------------------------------------
// Model and DefaultTransitions
// ---------------------------------------------------------------------------

pub open spec fn enc_model(m: ModelV, en: Endianness) -> Seq<u8> {
    enc_str(m.path, en) + enc_str(m.root, en)
}

pub open spec fn enc_ok_model(m: ModelV) -> bool {
    str_enc_ok(m.path) && str_enc_ok(m.root)
}

pub open spec fn dec_model(s: Seq<u8>, en: Endianness) -> Option<(ModelV, int)> {
    match dec_str(s, en) {
        None => None,
        Some((path, n1)) => match dec_str(s.skip(n1), en) {
            None => None,
            Some((root, n2)) => Some((ModelV { path, root }, n1 + n2)),
        },
    }
}

impl Model {
    pub fn encode_kfm(&self, out: &mut Vec<u8>, en: Endianness) -> (r: Result<(), KfmError>)
        ensures
            match r {
                Ok(()) => enc_ok_model(self@) && final(out)@ == old(out)@ + enc_model(self@, en),
                Err(e) => !enc_ok_model(self@) && e == KfmError::Encoding,
            },
    {
        match write_str(out, &self.path, en) {
            Ok(()) => (),
            Err(e) => {
                return Err(e);
            },
        }
        match write_str(out, &self.root, en) {
            Ok(()) => (),
            Err(e) => {
                return Err(e);
            },
        }
        assert(final(out)@ =~= old(out)@ + enc_model(self@, en));
        Ok(())
    }

    pub fn decode_kfm(inp: &[u8], pos: usize, en: Endianness) -> (r: Result<
        (Model, usize),
        KfmError,
    >)
        requires
            pos <= inp@.len(),
        ensures
            match dec_model(tail(inp@, pos as int), en) {
                Some((v, n)) => r matches Ok((rv, rp)) && rv@ == v && rp == pos + n && pos <= rp
                    && rp <= inp@.len(),
                None => r matches Err(e) && e == KfmError::Format,
            },
    {
        let (path, p1) = match read_str(inp, pos, en) {
            Ok(v) => v,
            Err(e) => {
                return Err(e);
            },
        };
        proof {
            tail_shift(inp@, pos as int, p1 as int);
        }
        let (root, p2) = match read_str(inp, p1, en) {
            Ok(v) => v,
            Err(e) => {
                return Err(e);
            },
        };
        Ok((Model { path, root }, p2))
    }
}

/// On the wire the two default kinds come first and the two durations
/// after them, although the in-memory struct interleaves them; the codec
/// must keep that field order for wire compatibility.
pub open spec fn enc_dt(d: DefaultTransitions, en: Endianness) -> Seq<u8> {
    enc_tt(d.sync_type, en) + enc_tt(d.non_sync_type, en) + u32_bytes(d.sync_duration, en)
        + u32_bytes(d.non_sync_duration, en)
}

pub open spec fn dec_dt(s: Seq<u8>, en: Endianness) -> Option<(DefaultTransitions, int)> {
    match dec_tt(s, en) {
        None => None,
        Some((sync_type, n1)) => match dec_tt(s.skip(n1), en) {
            None => None,
            Some((non_sync_type, n2)) => match dec_u32(s.skip(n1 + n2), en) {
                None => None,
                Some((sync_duration, n3)) => match dec_u32(s.skip(n1 + n2 + n3), en) {
                    None => None,
                    Some((non_sync_duration, n4)) => Some(
                        (
                            DefaultTransitions {
                                sync_type,
                                sync_duration,
                                non_sync_type,
                                non_sync_duration,
                            },
                            n1 + n2 + n3 + n4,
                        ),
                    ),
                },
            },
        },
    }
}

impl DefaultTransitions {
    pub fn encode_kfm(&self, out: &mut Vec<u8>, en: Endianness)
        ensures
            final(out)@ == old(out)@ + enc_dt(*self, en),
    {
        self.sync_type.encode_kfm(out, en);
        self.non_sync_type.encode_kfm(out, en);
        write_u32(out, self.sync_duration, en);
        write_u32(out, self.non_sync_duration, en);
        assert(final(out)@ =~= old(out)@ + enc_dt(*self, en));
    }

    pub fn decode_kfm(inp: &[u8], pos: usize, en: Endianness) -> (r: Result<
        (DefaultTransitions, usize),
        KfmError,
    >)
        requires
            pos <= inp@.len(),
        ensures
            match dec_dt(tail(inp@, pos as int), en) {
                Some((v, n)) => r matches Ok((rv, rp)) && rv == v && rp == pos + n && pos <= rp
                    && rp <= inp@.len(),
                None => r matches Err(e) && e == KfmError::Format,
            },
    {
        let (sync_type, p1) = match TransitionType::decode_kfm(inp, pos, en) {
            Ok(v) => v,
            Err(e) => {
                return Err(e);
            },
        };
        proof {
            tail_shift(inp@, pos as int, p1 as int);
        }
        let (non_sync_type, p2) = match TransitionType::decode_kfm(inp, p1, en) {
            Ok(v) => v,
            Err(e) => {
                return Err(e);
            },
        };
        proof {
            tail_shift(inp@, pos as int, p2 as int);
        }
        let (sync_duration, p3) = match read_u32(inp, p2, en) {
            Ok(v) => v,
            Err(e) => {
                return Err(e);
            },
        };
        proof {
            tail_shift(inp@, pos as int, p3 as int);
        }
        let (non_sync_duration, p4) = match read_u32(inp, p3, en) {
            Ok(v) => v,
            Err(e) => {
                return Err(e);
            },
        };
        Ok(
            (
                DefaultTransitions {
                    sync_type,
                    sync_duration,
                    non_sync_type,
                    non_sync_duration,
                },
                p4,
            ),
        )
    }
}

// ---------------------------------------------------------------------------
// the body
// ---------------------------------------------------------------------------

pub open spec fn enc_body(b: SourceFileBodyV, en: Endianness) -> Seq<u8> {
    enc_model(b.model, en) + enc_dt(b.default_trans, en) + enc_counted(an_enc(en), b.anims, en)
        + enc_counted(lg_enc(en), b.layer_groups, en)
}

pub open spec fn enc_ok_body(b: SourceFileBodyV) -> bool {
    enc_ok_model(b.model) && ok_items(an_ok(), b.anims) && ok_items(lg_ok(), b.layer_groups)
}

pub open spec fn dec_body(s: Seq<u8>, en: Endianness) -> Option<(SourceFileBodyV, int)> {
    match dec_model(s, en) {
        None => None,
        Some((model, n1)) => match dec_dt(s.skip(n1), en) {
            None => None,
            Some((default_trans, n2)) => match dec_counted(an_dec(en), s.skip(n1 + n2), en) {
                None => None,
                Some((anims, n3)) => match dec_counted(lg_dec(en), s.skip(n1 + n2 + n3), en) {
                    None => None,
                    Some((layer_groups, n4)) => Some(
                        (
                            SourceFileBodyV { model, default_trans, anims, layer_groups },
                            n1 + n2 + n3 + n4,
                        ),
                    ),
                },
            },
        },
    }
}

impl SourceFileBody {
    pub fn encode_kfm(&self, out: &mut Vec<u8>, en: Endianness) -> (r: Result<(), KfmError>)
        ensures
            match r {
                Ok(()) => enc_ok_body(self@) && final(out)@ == old(out)@ + enc_body(self@, en),
                Err(e) => !enc_ok_body(self@) && e == KfmError::Encoding,
            },
    {
        match self.model.encode_kfm(out, en) {
            Ok(()) => (),
            Err(e) => {
                return Err(e);
            },
        }
        self.default_trans.encode_kfm(out, en);
        match encode_an_list(&self.anims, out, en) {
            Ok(()) => (),
            Err(e) => {
                return Err(e);
            },
        }
        match encode_lg_list(&self.layer_groups, out, en) {
            Ok(()) => (),
            Err(e) => {
                return Err(e);
            },
        }
        assert(final(out)@ =~= old(out)@ + enc_body(self@, en));
        Ok(())
    }

    #[verifier::rlimit(50)]
    pub fn decode_kfm(inp: &[u8], pos: usize, en: Endianness) -> (r: Result<
        (SourceFileBody, usize),
        KfmError,
    >)
        requires
            pos <= inp@.len(),
        ensures
            match dec_body(tail(inp@, pos as int), en) {
                Some((v, n)) => r matches Ok((rv, rp)) && rv@ == v && rp == pos + n && pos <= rp
                    && rp <= inp@.len(),
                None => r matches Err(e) && e == KfmError::Format,
            },
    {
        let (model, p1) = match Model::decode_kfm(inp, pos, en) {
            Ok(v) => v,
            Err(e) => {
                return Err(e);
            },
        };
        proof {
            tail_shift(inp@, pos as int, p1 as int);
        }
        let (default_trans, p2) = match DefaultTransitions::decode_kfm(inp, p1, en) {
            Ok(v) => v,
            Err(e) => {
                return Err(e);
            },
        };
        proof {
            tail_shift(inp@, pos as int, p2 as int);
        }
        let (anims, p3) = match decode_an_list(inp, p2, en) {
            Ok(v) => v,
            Err(e) => {
                return Err(e);
            },
        };
        proof {
            tail_shift(inp@, pos as int, p3 as int);
        }
        let (layer_groups, p4) = match decode_lg_list(inp, p3, en) {
            Ok(v) => v,
            Err(e) => {
                return Err(e);
            },
        };
        Ok((SourceFileBody { model, default_trans, anims, layer_groups }, p4))
    }
}

// ---------------------------------------------------------------------------
// the file header
// ---------------------------------------------------------------------------

/// The fixed 35-byte magic line every keyframe-motion file carries.
pub open spec fn spec_magic() -> Seq<u8> {
    seq![
        0x47u8, 0x61u8, 0x6du8, 0x65u8, 0x62u8, 0x72u8, 0x79u8,
        0x6fu8, 0x20u8, 0x4bu8, 0x46u8, 0x4du8, 0x20u8, 0x46u8,
        0x69u8, 0x6cu8, 0x65u8, 0x20u8, 0x56u8, 0x65u8, 0x72u8,
        0x73u8, 0x69u8, 0x6fu8, 0x6eu8, 0x20u8, 0x32u8, 0x2eu8,
        0x32u8, 0x2eu8, 0x30u8, 0x2eu8, 0x30u8, 0x62u8, 0x0au8,
    ]
}

fn magic() -> (r: Vec<u8>)
    ensures
        r@ == spec_magic(),
{
    let mut v: Vec<u8> = Vec::new();
    v.push(0x47u8);
    v.push(0x61u8);
    v.push(0x6du8);
    v.push(0x65u8);
    v.push(0x62u8);
    v.push(0x72u8);
    v.push(0x79u8);
    v.push(0x6fu8);
    v.push(0x20u8);
    v.push(0x4bu8);
    v.push(0x46u8);
    v.push(0x4du8);
    v.push(0x20u8);
    v.push(0x46u8);
    v.push(0x69u8);
    v.push(0x6cu8);
    v.push(0x65u8);
    v.push(0x20u8);
    v.push(0x56u8);
    v.push(0x65u8);
    v.push(0x72u8);
    v.push(0x73u8);
    v.push(0x69u8);
    v.push(0x6fu8);
    v.push(0x6eu8);
    v.push(0x20u8);
    v.push(0x32u8);
    v.push(0x2eu8);
    v.push(0x32u8);
    v.push(0x2eu8);
    v.push(0x30u8);
    v.push(0x2eu8);
    v.push(0x30u8);
    v.push(0x62u8);
    v.push(0x0au8);
    assert(v@ =~= spec_magic());
    v
}

/// The header: version byte, magic line, then 1 for little-endian or 0 for
/// big-endian, the order the rest of the file is coded under.
pub open spec fn enc_header(h: SourceFileHeader) -> Seq<u8> {
    seq![h.version] + spec_magic() + seq![
        if h.is_little_endian {
            1u8
        } else {
            0u8
        },
    ]
}

/// Rejects a short buffer, any deviation from the magic line, and an
/// endianness byte other than 0 or 1.
pub open spec fn dec_header(s: Seq<u8>) -> Option<(SourceFileHeader, int)> {
    if s.len() < 37 {
        None
    } else if s.subrange(1, 36) != spec_magic() {
        None
    } else if s[36] == 1 {
        Some((SourceFileHeader { version: s[0], is_little_endian: true }, 37int))
    } else if s[36] == 0 {
        Some((SourceFileHeader { version: s[0], is_little_endian: false }, 37int))
    } else {
        None
    }
}

pub fn encode_source_file_header(out: &mut Vec<u8>, header: &SourceFileHeader)
    ensures
        final(out)@ == old(out)@ + enc_header(*header),
{
    write_u8(out, header.version);
    let m = magic();
    out.extend_from_slice(m.as_slice());
    if header.is_little_endian {
        write_u8(out, 1);
    } else {
        write_u8(out, 0);
    }
    assert(final(out)@ =~= old(out)@ + enc_header(*header));
}

#[verifier::loop_isolation(false)]
pub fn decode_source_file_header(inp: &[u8], pos: usize) -> (r: Result<
    (SourceFileHeader, usize),
    KfmError,
>)
    requires
        pos <= inp@.len(),
    ensures
        match dec_header(tail(inp@, pos as int)) {
            Some((h, n)) => r matches Ok((rh, rp)) && rh == h && rp == pos + n && pos <= rp
                && rp <= inp@.len(),
            None => r matches Err(e) && e == KfmError::Format,
        },
{
    let ghost s = tail(inp@, pos as int);
    if inp.len() - pos < 37 {
        return Err(KfmError::Format);
    }
    let version = inp[pos];
    let m = magic();
    let mut i: usize = 0;
    while i < 35
        invariant
            0 <= i <= 35,
            forall|j: int| 0 <= j < i ==> s[1 + j] == spec_magic()[j],
        decreases 35 - i,
    {
        if inp[pos + 1 + i] != m[i] {
            proof {
                assert(s.subrange(1, 36)[i as int] == s[1 + i as int]);
                assert(s.subrange(1, 36) != spec_magic());
            }
            return Err(KfmError::Format);
        }
        i = i + 1;
    }
    proof {
        assert(s.subrange(1, 36) =~= spec_magic());
    }
    let eb = inp[pos + 36];
    if eb == 1 {
        Ok((SourceFileHeader { version, is_little_endian: true }, pos + 37))
    } else if eb == 0 {
        Ok((SourceFileHeader { version, is_little_endian: false }, pos + 37))
    } else {
        Err(KfmError::Format)
    }
}

// ---------------------------------------------------------------------------
// whole files
// ---------------------------------------------------------------------------

/// The byte order the header declares for the rest of the file.
pub open spec fn header_endianness(h: SourceFileHeader) -> Endianness {
    if h.is_little_endian {
        Endianness::Little
    } else {
        Endianness::Big
    }
}

pub open spec fn enc_file(f: crate::source::SourceFileV) -> Seq<u8> {
    enc_header(f.header) + enc_body(f.body, header_endianness(f.header))
}

/// Bytes after a complete header and body are ignored, as a stream reader
/// would leave them unread.
pub open spec fn dec_file(s: Seq<u8>) -> Option<crate::source::SourceFileV> {
    match dec_header(s) {
        None => None,
        Some((h, n)) => match dec_body(s.skip(n), header_endianness(h)) {
            None => None,
            Some((b, _m)) => Some(crate::source::SourceFileV { header: h, body: b }),
        },
    }
}

impl SourceFile {
    /// Encodes the whole file under the byte order its header names.
    pub fn encode_kfm(&self) -> (r: Result<Vec<u8>, KfmError>)
        ensures
            match r {
                Ok(bytes) => enc_ok_body(self@.body) && bytes@ == enc_file(self@),
                Err(e) => !enc_ok_body(self@.body) && e == KfmError::Encoding,
            },
    {
        let mut out: Vec<u8> = Vec::new();
        encode_source_file_header(&mut out, &self.header);
        let en = if self.header.is_little_endian {
            Endianness::Little
        } else {
            Endianness::Big
        };
        match self.body.encode_kfm(&mut out, en) {
            Ok(()) => (),
            Err(e) => {
                return Err(e);
            },
        }
        assert(out@ =~= enc_file(self@));
        Ok(out)
    }

    /// Decodes a whole file: the header first, then the body under the
    /// byte order the header declares.
    pub fn decode_kfm(inp: &[u8]) -> (r: Result<SourceFile, KfmError>)
        ensures
            match dec_file(inp@) {
                Some(v) => r matches Ok(f) && f@ == v,
                None => r matches Err(e) && e == KfmError::Format,
            },
    {
        proof {
            assert(tail(inp@, 0) =~= inp@);
        }
        let (header, p1) = match decode_source_file_header(inp, 0) {
            Ok(v) => v,
            Err(e) => {
                return Err(e);
            },
        };
        proof {
            tail_shift(inp@, 0, p1 as int);
        }
        let en = if header.is_little_endian {
            Endianness::Little
        } else {
            Endianness::Big
        };
        let (body, _p2) = match SourceFileBody::decode_kfm(inp, p1, en) {
            Ok(v) => v,
            Err(e) => {
                return Err(e);
            },
        };
        Ok(SourceFile { header, body })
    }
}

} // verus!
