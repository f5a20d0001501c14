use kfm_tool::header::make_header;
use kfm_tool::header::make_header_guard_iden;
use kfm_tool::header::make_header_namespace_iden;
use kfm_tool::source::Animation;
use kfm_tool::source::Transition;
use kfm_tool::source::TransitionType;

#[test]
fn test_make_header_file() {
    let src_path = b"inventor_broombot".to_vec();
    let src_anim_paths = [
        "./mech/mech_gunbot_m_idle.kf",
        "./mech/mech_gunbot_m_run.kf",
        "./mech/mech_gunbot_a_attack.kf",
        "./mech/mech_gunbot_h_onhit.kf",
    ];
    let mut src_anims = Vec::new();
    for (id, path) in src_anim_paths.iter().enumerate() {
        // Create animation from `id` and `path`
        let mut anim = Animation {
            id: id as u32,
            path: path.as_bytes().to_vec(),
            index: 0,
            trans: Vec::new(),
        };
        // Insert transition to every other animation
        for (trans_id, _) in src_anim_paths.iter().enumerate() {
            if trans_id != id {
                anim.trans.push(Transition {
                    id: trans_id as u32,
                    type_: TransitionType::DefaultNonSync,
                    ext: None,
                });
            }
        }
        src_anims.push(anim);
    }

    let expected = "// This file was automatically generated. It contains definitions for all the
// animations stored in the associated KFM file. Include this file in your
// final application to easily refer to animation sequences.

#ifndef INVENTOR_BROOMBOT_ANIM_H__
#define INVENTOR_BROOMBOT_ANIM_H__

namespace inventor_broombot_Anim
{
    enum
    {
        MECH_GUNBOT_M_IDLE = 0,
        MECH_GUNBOT_M_RUN = 1,
        MECH_GUNBOT_A_ATTACK = 2,
        MECH_GUNBOT_H_ONHIT = 3
    };
}

#endif  // #ifndef INVENTOR_BROOMBOT_ANIM_H__
";
    let actual = make_header(&src_path, &src_anims).unwrap();
    assert_eq!(expected, actual);
}

#[test]
fn test_guard_iden() {
    let r = make_header_guard_iden(&b"inventor_broombot".to_vec());
    assert_eq!(r, b"INVENTOR_BROOMBOT_ANIM_H__".to_vec());
}

#[test]
fn test_namespace_iden() {
    let r = make_header_namespace_iden(&b"inventor_broombot".to_vec());
    assert_eq!(r, b"inventor_broombot_Anim".to_vec());
}

#[test]
fn test_header_fails_without_stem() {
    let src_anims = vec![Animation {
        id: 0,
        path: b"./mech/..".to_vec(),
        index: 0,
        trans: Vec::new(),
    }];
    assert!(make_header(&b"x".to_vec(), &src_anims).is_err());
}

#[test]
fn test_hyphen_and_backslash_normalized() {
    let src_anims = vec![Animation {
        id: 7,
        path: b"mech\\gun-bot.kf".to_vec(),
        index: 0,
        trans: Vec::new(),
    }];
    let out = make_header(&b"gb".to_vec(), &src_anims).unwrap();
    assert!(out.contains("GUN_BOT = 7"));
}
