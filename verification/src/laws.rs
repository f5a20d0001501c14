//! Round-trip laws of the binary codec: decoding an encoding gives the
//! graph back, a corrupted magic line is rejected, and the one deliberately
//! lossy corner — extension data on a default-kind transition — is pinned
//! down.

use vstd::prelude::*;

verus! {

use crate::prim::Endianness;
use crate::prim::dec_u32;
use crate::prim::dec_i32;
use crate::prim::dec_str;
use crate::prim::u32_bytes;
use crate::prim::i32_bytes;
use crate::prim::enc_str;
use crate::prim::str_enc_ok;
use crate::prim::lemma_enc_str_len;
use crate::prim::lemma_u32_bytes_len;
use crate::prim::lemma_rt_u32;
use crate::prim::lemma_rt_i32;
use crate::prim::lemma_rt_str;

broadcast use lemma_enc_str_len, lemma_u32_bytes_len, crate::prim::lemma_tail_tail;
use crate::source::SourceFileHeader;
use crate::source::SourceFileBodyV;
use crate::source::SourceFileV;
use crate::source::ModelV;
use crate::source::DefaultTransitions;
use crate::source::AnimationV;
use crate::source::TransitionV;
use crate::source::TransitionType;
use crate::source::TransitionExtV;
use crate::source::IntermediateAnimationV;
use crate::source::ChainAnimation;
use crate::source::LayerGroupV;
use crate::source::Layer;
use crate::codec::enc_items;
use crate::codec::enc_counted;
use crate::codec::dec_counted;
use crate::codec::lemma_rt_items;
use crate::codec::type_code;
use crate::codec::type_of_code;
use crate::codec::enc_tt;
use crate::codec::dec_tt;
use crate::codec::kind_has_ext;
use crate::codec::enc_ca;
use crate::codec::dec_ca;
use crate::codec::ca_enc;
use crate::codec::ca_dec;
use crate::codec::enc_ia;
use crate::codec::enc_ok_ia;
use crate::codec::dec_ia;
use crate::codec::ia_enc;
use crate::codec::ia_dec;
use crate::codec::enc_ext;
use crate::codec::enc_ok_ext;
use crate::codec::dec_ext;
use crate::codec::enc_transition;
use crate::codec::enc_ok_transition;
use crate::codec::dec_transition;
use crate::codec::tr_enc;
use crate::codec::tr_dec;
use crate::codec::enc_an;
use crate::codec::enc_ok_an;
use crate::codec::dec_an;
use crate::codec::an_enc;
use crate::codec::an_dec;
use crate::codec::enc_ly;
use crate::codec::dec_ly;
use crate::codec::ly_enc;
use crate::codec::ly_dec;
use crate::codec::enc_lg;
use crate::codec::enc_ok_lg;
use crate::codec::dec_lg;
use crate::codec::lg_enc;
use crate::codec::lg_dec;
use crate::codec::enc_model;
use crate::codec::enc_ok_model;
use crate::codec::dec_model;
use crate::codec::enc_dt;
use crate::codec::dec_dt;
use crate::codec::enc_body;
use crate::codec::enc_ok_body;
use crate::codec::dec_body;
use crate::codec::spec_magic;
use crate::codec::enc_header;
use crate::codec::dec_header;
use crate::codec::header_endianness;
use crate::codec::enc_file;
use crate::codec::dec_file;

// ---------------------------------------------------------------------------
// round-trip laws
// ---------------------------------------------------------------------------

/// A transition as the decoder produces it: extension data present exactly
/// when the kind demands it.
pub open spec fn wire_wf_transition(t: TransitionV) -> bool {
    kind_has_ext(t.type_) <==> t.ext is Some
}

pub open spec fn wire_wf_an(a: AnimationV) -> bool {
    forall|i: int| 0 <= i < a.trans.len() ==> wire_wf_transition(#[trigger] a.trans[i])
}

pub open spec fn wire_wf_body(b: SourceFileBodyV) -> bool {
    forall|i: int| 0 <= i < b.anims.len() ==> wire_wf_an(#[trigger] b.anims[i])
}

#[verifier::rlimit(100)]
#[verifier::spinoff_prover]
pub proof fn lemma_rt_tt(t: TransitionType, rest: Seq<u8>, en: Endianness)
    ensures
        dec_tt(enc_tt(t, en) + rest, en) == Some((t, 4int)),
{
    lemma_rt_u32(type_code(t), rest, en);
    assert(type_of_code(type_code(t)) == Some(t));
}

#[verifier::rlimit(100)]
#[verifier::spinoff_prover]
pub proof fn lemma_rt_ca(c: ChainAnimation, rest: Seq<u8>, en: Endianness)
    ensures
        dec_ca(enc_ca(c, en) + rest, en) == Some((c, 8int)),
{
    let s = enc_ca(c, en) + rest;
    assert(s =~= u32_bytes(c.id, en) + (u32_bytes(c.duration, en) + rest));
    lemma_rt_u32(c.id, u32_bytes(c.duration, en) + rest, en);
    assert(s.skip(4) =~= u32_bytes(c.duration, en) + rest);
    lemma_rt_u32(c.duration, rest, en);
}

#[verifier::rlimit(100)]
#[verifier::spinoff_prover]
pub proof fn lemma_rt_ia(v: IntermediateAnimationV, rest: Seq<u8>, en: Endianness)
    requires
        enc_ok_ia(v),
    ensures
        dec_ia(enc_ia(v, en) + rest, en) == Some((v, enc_ia(v, en).len() as int)),
{
    let s = enc_ia(v, en) + rest;
    assert(s =~= enc_str(v.start_key, en) + (enc_str(v.target_key, en) + rest));
    lemma_rt_str(v.start_key, enc_str(v.target_key, en) + rest, en);
    assert(s.skip(4 + v.start_key.len() as int) =~= enc_str(v.target_key, en) + rest);
    lemma_rt_str(v.target_key, rest, en);
}

#[verifier::rlimit(100)]
#[verifier::spinoff_prover]
pub proof fn lemma_rt_counted<T>(
    one_e: spec_fn(T) -> Seq<u8>,
    one_d: spec_fn(Seq<u8>) -> Option<(T, int)>,
    xs: Seq<T>,
    rest: Seq<u8>,
    en: Endianness,
)
    requires
        xs.len() <= 0xffff_ffff,
        forall|i: int, t: Seq<u8>|
            0 <= i < xs.len() ==> #[trigger] one_d(one_e(xs[i]) + t) == Some(
                (xs[i], one_e(xs[i]).len() as int),
            ),
    ensures
        dec_counted(one_d, enc_counted(one_e, xs, en) + rest, en) == Some(
            (xs, 4 + enc_items(one_e, xs).len() as int),
        ),
{
    let cnt = xs.len() as u32;
    let items = enc_items(one_e, xs);
    let s = enc_counted(one_e, xs, en) + rest;
    assert(s =~= u32_bytes(cnt, en) + (items + rest));
    lemma_rt_u32(cnt, items + rest, en);
    assert(s.skip(4) =~= items + rest);
    lemma_rt_items(one_e, one_d, xs, rest);
    assert(cnt as nat == xs.len());
}

#[verifier::rlimit(100)]
#[verifier::spinoff_prover]
pub proof fn lemma_rt_ext(e: TransitionExtV, rest: Seq<u8>, en: Endianness)
    requires
        enc_ok_ext(e),
    ensures
        dec_ext(enc_ext(e, en) + rest, en) == Some((e, enc_ext(e, en).len() as int)),
{
    let s1 = u32_bytes(e.duration, en);
    let s2 = enc_counted(ia_enc(en), e.intermediate_anims, en);
    let s3 = enc_counted(ca_enc(en), e.chain_anims, en);
    let s = enc_ext(e, en) + rest;
    assert(s =~= s1 + (s2 + (s3 + rest)));
    lemma_rt_u32(e.duration, s2 + (s3 + rest), en);
    assert forall|i: int, t: Seq<u8>| 0 <= i < e.intermediate_anims.len() implies #[trigger] ia_dec(
        en,
    )(ia_enc(en)(e.intermediate_anims[i]) + t) == Some(
        (e.intermediate_anims[i], ia_enc(en)(e.intermediate_anims[i]).len() as int),
    ) by {
        lemma_rt_ia(e.intermediate_anims[i], t, en);
    }
    lemma_rt_counted(ia_enc(en), ia_dec(en), e.intermediate_anims, s3 + rest, en);
    assert(s.skip(4) =~= s2 + (s3 + rest));
    assert(s.skip(4 + s2.len() as int) =~= s3 + rest);
    assert forall|i: int, t: Seq<u8>| 0 <= i < e.chain_anims.len() implies #[trigger] ca_dec(en)(
        ca_enc(en)(e.chain_anims[i]) + t,
    ) == Some((e.chain_anims[i], ca_enc(en)(e.chain_anims[i]).len() as int)) by {
        lemma_rt_ca(e.chain_anims[i], t, en);
        assert(ca_enc(en)(e.chain_anims[i]).len() == 8);
    }
    lemma_rt_counted(ca_enc(en), ca_dec(en), e.chain_anims, rest, en);
}

#[verifier::rlimit(100)]
#[verifier::spinoff_prover]
pub proof fn lemma_rt_transition(t: TransitionV, rest: Seq<u8>, en: Endianness)
    requires
        enc_ok_transition(t),
        wire_wf_transition(t),
    ensures
        dec_transition(enc_transition(t, en) + rest, en) == Some(
            (t, enc_transition(t, en).len() as int),
        ),
{
    let s = enc_transition(t, en) + rest;
    if kind_has_ext(t.type_) {
        let e = t.ext.unwrap();
        assert(s =~= u32_bytes(t.id, en) + (enc_tt(t.type_, en) + (enc_ext(e, en) + rest)));
        lemma_rt_u32(t.id, enc_tt(t.type_, en) + (enc_ext(e, en) + rest), en);
        assert(s.skip(4) =~= enc_tt(t.type_, en) + (enc_ext(e, en) + rest));
        lemma_rt_tt(t.type_, enc_ext(e, en) + rest, en);
        assert(s.skip(8) =~= enc_ext(e, en) + rest);
        lemma_rt_ext(e, rest, en);
        assert(TransitionV { id: t.id, type_: t.type_, ext: Some(e) } =~= t);
    } else {
        assert(s =~= u32_bytes(t.id, en) + (enc_tt(t.type_, en) + rest));
        lemma_rt_u32(t.id, enc_tt(t.type_, en) + rest, en);
        assert(s.skip(4) =~= enc_tt(t.type_, en) + rest);
        lemma_rt_tt(t.type_, rest, en);
        assert(TransitionV { id: t.id, type_: t.type_, ext: None } =~= t);
        assert(enc_transition(t, en) =~= u32_bytes(t.id, en) + enc_tt(t.type_, en)
            + Seq::<u8>::empty());
    }
}

#[verifier::rlimit(100)]
#[verifier::spinoff_prover]
pub proof fn lemma_rt_an(a: AnimationV, rest: Seq<u8>, en: Endianness)
    requires
        enc_ok_an(a),
        wire_wf_an(a),
    ensures
        dec_an(enc_an(a, en) + rest, en) == Some((a, enc_an(a, en).len() as int)),
{
    let s1 = u32_bytes(a.id, en);
    let s2 = enc_str(a.path, en);
    let s3 = u32_bytes(a.index, en);
    let s4 = enc_counted(tr_enc(en), a.trans, en);
    let s = enc_an(a, en) + rest;
    assert(s =~= s1 + (s2 + (s3 + (s4 + rest))));
    lemma_rt_u32(a.id, s2 + (s3 + (s4 + rest)), en);
    assert(s.skip(4) =~= s2 + (s3 + (s4 + rest)));
    lemma_rt_str(a.path, s3 + (s4 + rest), en);
    assert(s.skip(4 + s2.len() as int) =~= s3 + (s4 + rest));
    lemma_rt_u32(a.index, s4 + rest, en);
    assert(s.skip(4 + s2.len() as int + 4) =~= s4 + rest);
    assert forall|i: int, t: Seq<u8>| 0 <= i < a.trans.len() implies #[trigger] tr_dec(en)(
        tr_enc(en)(a.trans[i]) + t,
    ) == Some((a.trans[i], tr_enc(en)(a.trans[i]).len() as int)) by {
        lemma_rt_transition(a.trans[i], t, en);
    }
    lemma_rt_counted(tr_enc(en), tr_dec(en), a.trans, rest, en);
}

#[verifier::rlimit(100)]
#[verifier::spinoff_prover]
pub proof fn lemma_rt_ly(l: Layer, rest: Seq<u8>, en: Endianness)
    ensures
        dec_ly(enc_ly(l, en) + rest, en) == Some((l, 24int)),
{
    let s1 = u32_bytes(l.id, en);
    let s2 = i32_bytes(l.priority, en);
    let s3 = u32_bytes(l.weight, en);
    let s4 = u32_bytes(l.ease_in_time, en);
    let s5 = u32_bytes(l.ease_out_time, en);
    let s6 = u32_bytes(l.sync_id, en);
    let s = enc_ly(l, en) + rest;
    assert(s =~= s1 + (s2 + (s3 + (s4 + (s5 + (s6 + rest))))));
    lemma_rt_u32(l.id, s2 + (s3 + (s4 + (s5 + (s6 + rest)))), en);
    assert(s.skip(4) =~= s2 + (s3 + (s4 + (s5 + (s6 + rest)))));
    lemma_rt_i32(l.priority, s3 + (s4 + (s5 + (s6 + rest))), en);
    assert(s.skip(8) =~= s3 + (s4 + (s5 + (s6 + rest))));
    lemma_rt_u32(l.weight, s4 + (s5 + (s6 + rest)), en);
    assert(s.skip(12) =~= s4 + (s5 + (s6 + rest)));
    lemma_rt_u32(l.ease_in_time, s5 + (s6 + rest), en);
    assert(s.skip(16) =~= s5 + (s6 + rest));
    lemma_rt_u32(l.ease_out_time, s6 + rest, en);
    assert(s.skip(20) =~= s6 + rest);
    lemma_rt_u32(l.sync_id, rest, en);
}

#[verifier::rlimit(100)]
#[verifier::spinoff_prover]
pub proof fn lemma_rt_lg(g: LayerGroupV, rest: Seq<u8>, en: Endianness)
    requires
        enc_ok_lg(g),
    ensures
        dec_lg(enc_lg(g, en) + rest, en) == Some((g, enc_lg(g, en).len() as int)),
{
    let s1 = u32_bytes(g.id, en);
    let s2 = enc_str(g.name, en);
    let s3 = enc_counted(ly_enc(en), g.layers, en);
    let s = enc_lg(g, en) + rest;
    assert(s =~= s1 + (s2 + (s3 + rest)));
    lemma_rt_u32(g.id, s2 + (s3 + rest), en);
    assert(s.skip(4) =~= s2 + (s3 + rest));
    lemma_rt_str(g.name, s3 + rest, en);
    assert(s.skip(4 + s2.len() as int) =~= s3 + rest);
    assert forall|i: int, t: Seq<u8>| 0 <= i < g.layers.len() implies #[trigger] ly_dec(en)(
        ly_enc(en)(g.layers[i]) + t,
    ) == Some((g.layers[i], ly_enc(en)(g.layers[i]).len() as int)) by {
        lemma_rt_ly(g.layers[i], t, en);
        assert(ly_enc(en)(g.layers[i]).len() == 24);
    }
    lemma_rt_counted(ly_enc(en), ly_dec(en), g.layers, rest, en);
}

#[verifier::rlimit(100)]
#[verifier::spinoff_prover]
pub proof fn lemma_rt_model(m: ModelV, rest: Seq<u8>, en: Endianness)
    requires
        enc_ok_model(m),
    ensures
        dec_model(enc_model(m, en) + rest, en) == Some((m, enc_model(m, en).len() as int)),
{
    let s = enc_model(m, en) + rest;
    assert(s =~= enc_str(m.path, en) + (enc_str(m.root, en) + rest));
    lemma_rt_str(m.path, enc_str(m.root, en) + rest, en);
    assert(s.skip(4 + m.path.len() as int) =~= enc_str(m.root, en) + rest);
    lemma_rt_str(m.root, rest, en);
}

#[verifier::rlimit(100)]
#[verifier::spinoff_prover]
pub proof fn lemma_rt_dt(d: DefaultTransitions, rest: Seq<u8>, en: Endianness)
    ensures
        dec_dt(enc_dt(d, en) + rest, en) == Some((d, 16int)),
{
    let s1 = enc_tt(d.sync_type, en);
    let s2 = enc_tt(d.non_sync_type, en);
    let s3 = u32_bytes(d.sync_duration, en);
    let s4 = u32_bytes(d.non_sync_duration, en);
    let s = enc_dt(d, en) + rest;
    assert(s =~= s1 + (s2 + (s3 + (s4 + rest))));
    lemma_rt_tt(d.sync_type, s2 + (s3 + (s4 + rest)), en);
    assert(s.skip(4) =~= s2 + (s3 + (s4 + rest)));
    lemma_rt_tt(d.non_sync_type, s3 + (s4 + rest), en);
    assert(s.skip(8) =~= s3 + (s4 + rest));
    lemma_rt_u32(d.sync_duration, s4 + rest, en);
    assert(s.skip(12) =~= s4 + rest);
    lemma_rt_u32(d.non_sync_duration, rest, en);
}

#[verifier::rlimit(100)]
#[verifier::spinoff_prover]
pub proof fn lemma_rt_body(b: SourceFileBodyV, rest: Seq<u8>, en: Endianness)
    requires
        enc_ok_body(b),
        wire_wf_body(b),
    ensures
        dec_body(enc_body(b, en) + rest, en) == Some((b, enc_body(b, en).len() as int)),
{
    let s1 = enc_model(b.model, en);
    let s2 = enc_dt(b.default_trans, en);
    let s3 = enc_counted(an_enc(en), b.anims, en);
    let s4 = enc_counted(lg_enc(en), b.layer_groups, en);
    let s = enc_body(b, en) + rest;
    assert(s =~= s1 + (s2 + (s3 + (s4 + rest))));
    lemma_rt_model(b.model, s2 + (s3 + (s4 + rest)), en);
    assert(s.skip(s1.len() as int) =~= s2 + (s3 + (s4 + rest)));
    lemma_rt_dt(b.default_trans, s3 + (s4 + rest), en);
    assert(s.skip(s1.len() as int + 16) =~= s3 + (s4 + rest));
    assert forall|i: int, t: Seq<u8>| 0 <= i < b.anims.len() implies #[trigger] an_dec(en)(
        an_enc(en)(b.anims[i]) + t,
    ) == Some((b.anims[i], an_enc(en)(b.anims[i]).len() as int)) by {
        lemma_rt_an(b.anims[i], t, en);
    }
    lemma_rt_counted(an_enc(en), an_dec(en), b.anims, s4 + rest, en);
    assert(s.skip(s1.len() as int + 16 + s3.len() as int) =~= s4 + rest);
    assert forall|i: int, t: Seq<u8>| 0 <= i < b.layer_groups.len() implies #[trigger] lg_dec(
        en,
    )(lg_enc(en)(b.layer_groups[i]) + t) == Some(
        (b.layer_groups[i], lg_enc(en)(b.layer_groups[i]).len() as int),
    ) by {
        lemma_rt_lg(b.layer_groups[i], t, en);
    }
    lemma_rt_counted(lg_enc(en), lg_dec(en), b.layer_groups, rest, en);
}

#[verifier::rlimit(100)]
#[verifier::spinoff_prover]
pub proof fn lemma_rt_header(h: SourceFileHeader, rest: Seq<u8>)
    ensures
        dec_header(enc_header(h) + rest) == Some((h, 37int)),
{
    let s = enc_header(h) + rest;
    assert(s.len() == 37 + rest.len());
    assert(s.subrange(1, 36) =~= spec_magic());
    assert(s[0] == h.version);
    assert(s[36] == if h.is_little_endian {
        1u8
    } else {
        0u8
    });
}

/// Round trip: a graph that can be written at all, in the shape the decoder
/// itself produces (extension data exactly where the kind demands it),
/// decodes from its own encoding unchanged — under either byte order, since
/// the header before the body picks it.
#[verifier::rlimit(100)]
#[verifier::spinoff_prover]
pub proof fn lemma_round_trip(f: SourceFileV)
    requires
        enc_ok_body(f.body),
        wire_wf_body(f.body),
    ensures
        dec_file(enc_file(f)) == Some(f),
{
    let en = header_endianness(f.header);
    lemma_rt_header(f.header, enc_body(f.body, en));
    let s = enc_file(f);
    assert(s.skip(37) =~= enc_body(f.body, en) + Seq::<u8>::empty());
    lemma_rt_body(f.body, Seq::<u8>::empty(), en);
    assert(SourceFileV { header: f.header, body: f.body } =~= f);
}

/// Header rejection: a buffer whose byte at position `i` differs from the
/// magic line the format demands there is refused outright.
pub proof fn lemma_header_magic_flip(s: Seq<u8>, i: int)
    requires
        1 <= i < 36,
        i < s.len(),
        s[i] != spec_magic()[i - 1],
    ensures
        dec_header(s) is None,
        dec_file(s) is None,
{
    if s.len() >= 37 {
        assert(s.subrange(1, 36)[i - 1] == s[i]);
        assert(s.subrange(1, 36) != spec_magic());
    }
}

/// The lossy corner of the round trip, by design: a default-kind transition
/// that carries extension data in memory is written without it, so it
/// decodes with none.
#[verifier::rlimit(100)]
#[verifier::spinoff_prover]
pub proof fn lemma_default_kind_drops_ext(t: TransitionV, rest: Seq<u8>, en: Endianness)
    requires
        !kind_has_ext(t.type_),
    ensures
        dec_transition(enc_transition(t, en) + rest, en) == Some(
            (
                TransitionV { id: t.id, type_: t.type_, ext: None },
                enc_transition(t, en).len() as int,
            ),
        ),
{
    let s = enc_transition(t, en) + rest;
    assert(s =~= u32_bytes(t.id, en) + (enc_tt(t.type_, en) + rest));
    lemma_rt_u32(t.id, enc_tt(t.type_, en) + rest, en);
    assert(s.skip(4) =~= enc_tt(t.type_, en) + rest);
    lemma_rt_tt(t.type_, rest, en);
    assert(enc_transition(t, en) =~= u32_bytes(t.id, en) + enc_tt(t.type_, en)
        + Seq::<u8>::empty());
}


} // verus!
