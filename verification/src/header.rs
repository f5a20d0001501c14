//! The companion enumeration header: one member per clip, named from the
//! uppercased stem of the clip's path and bound to the clip's id, wrapped
//! in an include guard and a namespace derived from the source file's stem.

use vstd::prelude::*;

verus! {

use crate::error::KfmError;
use crate::prim::decimal_seq;
use crate::prim::push_decimal;
use crate::source::seq_view;
use crate::source::Animation;
use crate::source::AnimationV;

// ---------------------------------------------------------------------------
// path stems
// ---------------------------------------------------------------------------

/// Path normalization before stem extraction: backslashes become slashes,
/// hyphens become underscores.
pub open spec fn norm_byte(c: u8) -> u8 {
    if c == 0x5c {
        0x2f
    } else if c == 0x2d {
        0x5f
    } else {
        c
    }
}

/// ASCII upper-casing, byte for byte.
pub open spec fn upper_byte(c: u8) -> u8 {
    if 0x61 <= c && c <= 0x7a {
        (c - 0x20) as u8
    } else {
        c
    }
}

pub open spec fn norm_seq(b: Seq<u8>) -> Seq<u8> {
    Seq::new(b.len(), |i: int| norm_byte(b[i]))
}

pub open spec fn upper_seq(b: Seq<u8>) -> Seq<u8> {
    Seq::new(b.len(), |i: int| upper_byte(b[i]))
}

/// Trailing slashes carry no file name and are dropped first.
pub open spec fn trim_slashes(b: Seq<u8>) -> Seq<u8>
    decreases b.len(),
{
    if b.len() > 0 && b.last() == 0x2f {
        trim_slashes(b.drop_last())
    } else {
        b
    }
}

/// The final path segment: everything after the last slash.
pub open spec fn seg(b: Seq<u8>) -> Seq<u8>
    decreases b.len(),
{
    if b.len() == 0 || b.last() == 0x2f {
        Seq::empty()
    } else {
        seg(b.drop_last()).push(b.last())
    }
}

/// The position of the last dot, if any.
pub open spec fn last_dot(b: Seq<u8>) -> Option<int>
    decreases b.len(),
{
    if b.len() == 0 {
        None
    } else if b.last() == 0x2e {
        Some(b.len() - 1)
    } else {
        last_dot(b.drop_last())
    }
}

/// A name's stem: the part before its last dot, unless the dot leads the
/// name (a dot-file keeps its whole name).
pub open spec fn stem_of_name(name: Seq<u8>) -> Seq<u8> {
    match last_dot(name) {
        Some(d) => if d > 0 {
            name.take(d)
        } else {
            name
        },
        None => name,
    }
}

/// The extractable stem of a path, after normalization: none when the path
/// carries no final segment, or when that segment is only a dot or two.
pub open spec fn spec_stem(path: Seq<u8>) -> Option<Seq<u8>> {
    let name = seg(trim_slashes(norm_seq(path)));
    if name.len() == 0 || name == seq![0x2eu8] || name == seq![0x2eu8, 0x2eu8] {
        None
    } else {
        Some(stem_of_name(name))
    }
}

proof fn lemma_seg_suffix(b: Seq<u8>, p: int)
    requires
        0 <= p < b.len(),
        b[p] == 0x2f,
        forall|j: int| p < j < b.len() ==> b[j] != 0x2f,
    ensures
        seg(b) == b.skip(p + 1),
    decreases b.len(),
{
    if b.len() == p + 1 {
        assert(b.last() == 0x2f);
        assert(seg(b) =~= b.skip(p + 1));
    } else {
        assert(b.last() != 0x2f);
        lemma_seg_suffix(b.drop_last(), p);
        assert(seg(b) =~= b.skip(p + 1));
    }
}

proof fn lemma_seg_whole(b: Seq<u8>)
    requires
        forall|j: int| 0 <= j < b.len() ==> b[j] != 0x2f,
    ensures
        seg(b) == b,
    decreases b.len(),
{
    if b.len() > 0 {
        lemma_seg_whole(b.drop_last());
        assert(seg(b) =~= b);
    } else {
        assert(seg(b) =~= b);
    }
}

proof fn lemma_last_dot_at(b: Seq<u8>, d: int)
    requires
        0 <= d < b.len(),
        b[d] == 0x2e,
        forall|j: int| d < j < b.len() ==> b[j] != 0x2e,
    ensures
        last_dot(b) == Some(d),
    decreases b.len(),
{
    if b.len() == d + 1 {
    } else {
        assert(b.last() != 0x2e);
        lemma_last_dot_at(b.drop_last(), d);
    }
}

proof fn lemma_last_dot_none(b: Seq<u8>)
    requires
        forall|j: int| 0 <= j < b.len() ==> b[j] != 0x2e,
    ensures
        last_dot(b) is None,
    decreases b.len(),
{
    if b.len() > 0 {
        lemma_last_dot_none(b.drop_last());
    }
}

/// The stem of one path, as a value: `None` when none can be extracted.
#[verifier::loop_isolation(false)]
pub fn path_stem(path: &Vec<u8>) -> (r: Option<Vec<u8>>)
    ensures
        match r {
            Some(s) => spec_stem(path@) is Some && s@ == spec_stem(path@).unwrap(),
            None => spec_stem(path@) is None,
        },
{
    let mut n: Vec<u8> = Vec::new();
    let mut i: usize = 0;
    while i < path.len()
        invariant
            i <= path@.len(),
            n@ == norm_seq(path@).take(i as int),
        decreases path@.len() - i,
    {
        let c = path[i];
        let c2: u8 = if c == 0x5c {
            0x2f
        } else if c == 0x2d {
            0x5f
        } else {
            c
        };
        n.push(c2);
        proof {
            assert(n@ =~= norm_seq(path@).take(i as int + 1));
        }
        i = i + 1;
    }
    proof {
        assert(norm_seq(path@).take(norm_seq(path@).len() as int) =~= norm_seq(path@));
    }
    while n.len() > 0 && n[n.len() - 1] == 0x2f
        invariant
            trim_slashes(norm_seq(path@)) == trim_slashes(n@),
        decreases n@.len(),
    {
        n.pop();
    }
    let ghost t = n@;
    proof {
        assert(trim_slashes(t) == t);
    }
    // the final segment: everything after the last slash
    let mut p: usize = n.len();
    while p > 0 && n[p - 1] != 0x2f
        invariant
            0 <= p <= n@.len(),
            forall|j: int| p <= j < n@.len() ==> n@[j] != 0x2f,
            n@ == t,
        decreases p,
    {
        p = p - 1;
    }
    proof {
        if p > 0 {
            lemma_seg_suffix(t, p - 1);
        } else {
            lemma_seg_whole(t);
        }
        assert(seg(t) == t.skip(p as int));
    }
    let name_len = n.len() - p;
    if name_len == 0 {
        return None;
    }
    if name_len == 1 && n[p] == 0x2e {
        proof {
            assert(seg(t) =~= seq![0x2eu8]);
        }
        return None;
    }
    if name_len == 2 && n[p] == 0x2e && n[p + 1] == 0x2e {
        proof {
            assert(seg(t) =~= seq![0x2eu8, 0x2eu8]);
        }
        return None;
    }
    proof {
        assert(seg(t).len() == name_len);
        assert(seg(t) != seq![0x2eu8]) by {
            if seg(t) == seq![0x2eu8] {
                assert(seg(t)[0] == 0x2e && seg(t).len() == 1);
                assert(t[p as int] == 0x2e);
            }
        }
        assert(seg(t) != seq![0x2eu8, 0x2eu8]) by {
            if seg(t) == seq![0x2eu8, 0x2eu8] {
                assert(seg(t)[0] == 0x2e && seg(t)[1] == 0x2e && seg(t).len() == 2);
                assert(t[p as int] == 0x2e && t[p as int + 1] == 0x2e);
            }
        }
    }
    // the last dot inside the segment, ignoring one that leads it
    let mut d: usize = n.len();
    while d > p && n[d - 1] != 0x2e
        invariant
            p <= d <= n@.len(),
            forall|j: int| d <= j < n@.len() ==> n@[j] != 0x2e,
            n@ == t,
        decreases d,
    {
        d = d - 1;
    }
    let ghost name = seg(t);
    let stop: usize = if d > p + 1 {
        proof {
            lemma_last_dot_at(name, d - 1 - p);
            assert(stem_of_name(name) == name.take(d - 1 - p as int));
        }
        d - 1
    } else {
        proof {
            if d == p {
                lemma_last_dot_none(name);
            } else {
                lemma_last_dot_at(name, 0);
            }
            assert(stem_of_name(name) == name);
        }
        n.len()
    };
    let mut out: Vec<u8> = Vec::new();
    let mut q: usize = p;
    while q < stop
        invariant
            p <= q <= stop <= n@.len(),
            n@ == t,
            out@ == t.subrange(p as int, q as int),
        decreases stop - q,
    {
        out.push(n[q]);
        proof {
            assert(out@ =~= t.subrange(p as int, q as int + 1));
        }
        q = q + 1;
    }
    proof {
        assert(out@ =~= stem_of_name(name));
    }
    Some(out)
}

// ---------------------------------------------------------------------------
// identifiers and members
// ---------------------------------------------------------------------------

/// The include-guard suffix `_ANIM_H__`.
pub open spec fn guard_suffix() -> Seq<u8> {
    seq![0x5fu8, 0x41u8, 0x4eu8, 0x49u8, 0x4du8, 0x5fu8, 0x48u8, 0x5fu8, 0x5fu8]
}

/// The namespace suffix `_Anim`.
pub open spec fn namespace_suffix() -> Seq<u8> {
    seq![0x5fu8, 0x41u8, 0x6eu8, 0x69u8, 0x6du8]
}

pub open spec fn spec_guard_iden(stem: Seq<u8>) -> Seq<u8> {
    upper_seq(stem) + guard_suffix()
}

pub open spec fn spec_namespace_iden(stem: Seq<u8>) -> Seq<u8> {
    stem + namespace_suffix()
}

fn push_upper(out: &mut Vec<u8>, b: &Vec<u8>)
    ensures
        final(out)@ == old(out)@ + upper_seq(b@),
{
    let mut i: usize = 0;
    while i < b.len()
        invariant
            i <= b@.len(),
            out@ == old(out)@ + upper_seq(b@).take(i as int),
        decreases b@.len() - i,
    {
        let c = b[i];
        let c2: u8 = if 0x61 <= c && c <= 0x7a {
            c - 0x20
        } else {
            c
        };
        out.push(c2);
        proof {
            assert(out@ =~= old(out)@ + upper_seq(b@).take(i as int + 1));
        }
        i = i + 1;
    }
    proof {
        assert(upper_seq(b@).take(upper_seq(b@).len() as int) =~= upper_seq(b@));
    }
}

/// The include-guard identifier: the uppercased source stem and `_ANIM_H__`.
pub fn make_header_guard_iden(src_file_stem: &Vec<u8>) -> (r: Vec<u8>)
    ensures
        r@ == spec_guard_iden(src_file_stem@),
{
    let mut r: Vec<u8> = Vec::new();
    push_upper(&mut r, src_file_stem);
    r.push(0x5f);
    r.push(0x41);
    r.push(0x4e);
    r.push(0x49);
    r.push(0x4d);
    r.push(0x5f);
    r.push(0x48);
    r.push(0x5f);
    r.push(0x5f);
    proof {
        assert(r@ =~= spec_guard_iden(src_file_stem@));
    }
    r
}

/// The namespace identifier: the source stem and `_Anim`.
pub fn make_header_namespace_iden(src_file_stem: &Vec<u8>) -> (r: Vec<u8>)
    ensures
        r@ == spec_namespace_iden(src_file_stem@),
{
    let mut r = crate::source::dup_bytes(src_file_stem);
    r.push(0x5f);
    r.push(0x41);
    r.push(0x6e);
    r.push(0x69);
    r.push(0x6d);
    proof {
        assert(r@ =~= spec_namespace_iden(src_file_stem@));
    }
    r
}

/// ` = ` between a member's name and its value.
pub open spec fn member_eq() -> Seq<u8> {
    seq![0x20u8, 0x3du8, 0x20u8]
}

/// One clip's enumeration member: its uppercased path stem bound to its id.
pub open spec fn spec_member(a: AnimationV) -> Option<Seq<u8>> {
    match spec_stem(a.path) {
        None => None,
        Some(st) => Some(upper_seq(st) + member_eq() + decimal_seq(a.id as nat)),
    }
}

pub open spec fn all_members_ok(anims: Seq<AnimationV>) -> bool {
    forall|i: int| 0 <= i < anims.len() ==> spec_member(#[trigger] anims[i]) is Some
}

/// The member list of a clip sequence, one entry per clip; meaningful when
/// every clip has one.
pub open spec fn spec_members(anims: Seq<AnimationV>) -> Seq<Seq<u8>> {
    Seq::new(anims.len(), |i: int| spec_member(anims[i]).unwrap())
}

/// One enumeration member per clip, in clip order; a clip whose path has
/// no extractable stem fails the whole batch.
#[verifier::loop_isolation(false)]
pub fn make_header_enum_members(src_anims: &Vec<Animation>) -> (r: Result<
    Vec<Vec<u8>>,
    KfmError,
>)
    ensures
        match r {
            Ok(ms) => all_members_ok(seq_view(src_anims@)) && ms@.len() == src_anims@.len()
                && (forall|i: int|
                0 <= i < ms@.len() ==> #[trigger] ms@[i]@ == spec_member(
                    seq_view(src_anims@)[i],
                ).unwrap()),
            Err(e) => !all_members_ok(seq_view(src_anims@)) && e == KfmError::Format,
        },
{
    let ghost avs = seq_view(src_anims@);
    let mut ms: Vec<Vec<u8>> = Vec::new();
    let mut i: usize = 0;
    while i < src_anims.len()
        invariant
            i <= src_anims@.len(),
            ms@.len() == i,
            forall|j: int| 0 <= j < i ==> spec_member(#[trigger] avs[j]) is Some,
            forall|j: int| 0 <= j < i ==> #[trigger] ms@[j]@ == spec_member(avs[j]).unwrap(),
        decreases src_anims@.len() - i,
    {
        let a = &src_anims[i];
        let stem = match path_stem(&a.path) {
            Some(s) => s,
            None => {
                proof {
                    assert(spec_member(avs[i as int]) is None);
                }
                return Err(KfmError::Format);
            },
        };
        let mut m: Vec<u8> = Vec::new();
        push_upper(&mut m, &stem);
        m.push(0x20);
        m.push(0x3d);
        m.push(0x20);
        push_decimal(a.id, &mut m);
        proof {
            assert(m@ =~= spec_member(avs[i as int]).unwrap());
        }
        ms.push(m);
        i = i + 1;
    }
    Ok(ms)
}

// ---------------------------------------------------------------------------
// rendering
// ---------------------------------------------------------------------------

/// What the template engine produces for the header template and the three
/// values handed to it; `None` when rendering fails. The claim of
/// determinism is made for the fixed header template only: a template of
/// the engine's full language can call built-in functions that read the
/// process environment, and what those return is no function of the
/// template and its context values.
pub uninterp spec fn rendered(
    template: Seq<char>,
    guard: Seq<u8>,
    namespace: Seq<u8>,
    members: Seq<Seq<u8>>,
) -> Option<Seq<char>>;

/// Relies on `tera::Tera::one_off`, for the fixed header template alone:
/// that template interpolates plain values and the loop position and calls
/// no function of the engine, so its rendering is a pure function of the
/// values in its context. The `requires` pins the template; without it the
/// contract would claim the same of every template, which is false of one
/// that calls the engine's environment-reading built-ins.
#[verifier::external_body]
fn render_template(
    template: &str,
    guard_iden: &Vec<u8>,
    namespace_iden: &Vec<u8>,
    enum_members: &Vec<Vec<u8>>,
) -> (r: Option<String>)
    requires
        template@ == header_template_spec(),
    ensures
        r is Some <==> rendered(template@, guard_iden@, namespace_iden@, seq_view(enum_members@))
            is Some,
        r is Some ==> r.unwrap()@ == rendered(
            template@,
            guard_iden@,
            namespace_iden@,
            seq_view(enum_members@),
        ).unwrap(),
{
    let mut ctx = tera::Context::new();
    ctx.insert("guard_iden", &String::from_utf8_lossy(guard_iden).into_owned());
    ctx.insert("namespace_iden", &String::from_utf8_lossy(namespace_iden).into_owned());
    let members: Vec<String> = enum_members.iter().map(
        |m| String::from_utf8_lossy(m).into_owned(),
    ).collect();
    ctx.insert("enum_members", &members);
    tera::Tera::one_off(template, &ctx, false).ok()
}

/// The template the header is rendered from.
pub open spec fn header_template_spec() -> Seq<char> {
    "// This file was automatically generated. It contains definitions for all the
// animations stored in the associated KFM file. Include this file in your
// final application to easily refer to animation sequences.

#ifndef {{ guard_iden }}
#define {{ guard_iden }}

namespace {{ namespace_iden }}
{
    enum
    {
    {%- for member in enum_members %}
        {{ member }}{% if not loop.last %},{% endif %}
    {%- endfor %}
    };
}

#endif  // #ifndef {{ guard_iden }}
"@
}

/// Renders the header from its parts.
pub fn render_header(
    guard_iden: &Vec<u8>,
    namespace_iden: &Vec<u8>,
    enum_members: &Vec<Vec<u8>>,
) -> (r: Result<String, KfmError>)
    ensures
        ({
            let out = rendered(
                header_template_spec(),
                guard_iden@,
                namespace_iden@,
                seq_view(enum_members@),
            );
            match r {
                Ok(s) => out is Some && s@ == out.unwrap(),
                Err(e) => out is None && e == KfmError::Format,
            }
        }),
{
    let template: &str = "// This file was automatically generated. It contains definitions for all the
// animations stored in the associated KFM file. Include this file in your
// final application to easily refer to animation sequences.

#ifndef {{ guard_iden }}
#define {{ guard_iden }}

namespace {{ namespace_iden }}
{
    enum
    {
    {%- for member in enum_members %}
        {{ member }}{% if not loop.last %},{% endif %}
    {%- endfor %}
    };
}

#endif  // #ifndef {{ guard_iden }}
";
    proof {
        assert(template@ == header_template_spec());
    }
    match render_template(template, guard_iden, namespace_iden, enum_members) {
        Some(s) => Ok(s),
        None => Err(KfmError::Format),
    }
}

/// The whole companion header for a source file: guard, namespace, one
/// member per clip.
pub fn make_header(src_file_stem: &Vec<u8>, src_anims: &Vec<Animation>) -> (r: Result<
    String,
    KfmError,
>)
    ensures
        ({
            let out = rendered(
                header_template_spec(),
                spec_guard_iden(src_file_stem@),
                spec_namespace_iden(src_file_stem@),
                spec_members(seq_view(src_anims@)),
            );
            match r {
                Ok(s) => all_members_ok(seq_view(src_anims@)) && out is Some && s@
                    == out.unwrap(),
                Err(e) => e == KfmError::Format && (!all_members_ok(seq_view(src_anims@))
                    || out is None),
            }
        }),
{
    let guard_iden = make_header_guard_iden(src_file_stem);
    let namespace_iden = make_header_namespace_iden(src_file_stem);
    let enum_members = match make_header_enum_members(src_anims) {
        Ok(ms) => ms,
        Err(e) => {
            return Err(e);
        },
    };
    proof {
        assert(seq_view(enum_members@) =~= spec_members(seq_view(src_anims@)));
    }
    render_header(&guard_iden, &namespace_iden, &enum_members)
}
} // verus!
