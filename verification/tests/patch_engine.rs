use kfm_tool::error::KfmError;
use kfm_tool::mapped::MappedSource;
use kfm_tool::patch::apply;
use kfm_tool::patch::AddAnimation;
use kfm_tool::patch::AddTransition;
use kfm_tool::patch::AnimationPatch;
use kfm_tool::patch::AnimationPatchBody;
use kfm_tool::patch::DeleteAnimation;
use kfm_tool::patch::DeleteTransition;
use kfm_tool::patch::PatchFile;
use kfm_tool::patch::TransitionPatch;
use kfm_tool::patch::TransitionPatchBody;
use kfm_tool::patch::UpdateAnimation;
use kfm_tool::patch::UpdateTransition;
use kfm_tool::regex_or::Pattern;
use kfm_tool::regex_or::RegexOr;
use kfm_tool::source::Animation;
use kfm_tool::source::DefaultTransitions;
use kfm_tool::source::Model;
use kfm_tool::source::SourceFileBody;
use kfm_tool::source::Transition;
use kfm_tool::source::TransitionExt;
use kfm_tool::source::TransitionType;

fn regex(pattern: &str) -> RegexOr<u32> {
    RegexOr::Regex(Pattern::new(pattern.to_string()).unwrap())
}

fn base_body(anims: Vec<Animation>) -> SourceFileBody {
    SourceFileBody {
        model: Model {
            path: b"./../../mesh/newenemies/mech_order_darkling_1.nif".to_vec(),
            root: b"Accumulation_Root".to_vec(),
        },
        default_trans: DefaultTransitions {
            sync_type: TransitionType::Morph,
            sync_duration: 0.25f32.to_bits(),
            non_sync_type: TransitionType::Blend,
            non_sync_duration: 0.25f32.to_bits(),
        },
        anims,
        layer_groups: Vec::new(),
    }
}

fn assert_trans_ids_eq(m_src: &MappedSource, anim_id: u32, expected_ids: &[u32]) {
    let anim = match m_src.anims.get(anim_id) {
        Some(a) => a,
        None => panic!("anim `{}` not found", anim_id),
    };
    let actual_ids: Vec<u32> = anim.trans.keys();
    if actual_ids != expected_ids {
        panic!(
            "mismatch in trans ids for anim `{}`.\n\
             expected: `{:?}`\n\
             actual: `{:?}`",
            anim_id, expected_ids, actual_ids
        );
    }
}

#[test]
fn test_patch_file_apply() {
    let m_src_anim_paths = [
        "./mech/mech_gunbot_m_idle.kf",
        "./mech/mech_gunbot_m_run.kf",
        "./mech/mech_gunbot_a_attack.kf",
        "./mech/mech_gunbot_h_onhit.kf",
    ];
    let mut anims = Vec::new();
    for (id, path) in m_src_anim_paths.iter().enumerate() {
        // Create animation from `id` and `path`
        let mut anim = Animation {
            id: id as u32,
            path: path.as_bytes().to_vec(),
            index: 0,
            trans: Vec::new(),
        };
        // Insert transition to every other animation
        for (trans_id, _) in m_src_anim_paths.iter().enumerate() {
            if trans_id != id {
                anim.trans.push(Transition {
                    id: trans_id as u32,
                    type_: TransitionType::DefaultNonSync,
                    ext: None,
                });
            }
        }
        anims.push(anim);
    }
    let mut m_src = MappedSource::try_from(base_body(anims)).unwrap();

    let patch_file = PatchFile {
        anims: vec![
            // Add `ondie` animation
            AnimationPatch {
                body: AnimationPatchBody::Add(AddAnimation {
                    id: 4,
                    path: b"./mech/mech_gunbot_h_ondie.kf".to_vec(),
                    index: 0,
                    trans: Vec::new(),
                }),
            },
            // Add transition from every animation to `ondie`
            AnimationPatch {
                body: AnimationPatchBody::Update(UpdateAnimation {
                    id: regex(".*"),
                    path: None,
                    index: None,
                    trans: Some(vec![TransitionPatch {
                        body: TransitionPatchBody::Add(AddTransition {
                            id: RegexOr::Other(4),
                            type_: TransitionType::DefaultNonSync,
                            ext: None,
                        }),
                    }]),
                }),
            },
            // Add `spawn` animation
            AnimationPatch {
                body: AnimationPatchBody::Add(AddAnimation {
                    id: 5,
                    path: b"./mech/mech_gunbot_m_spawn.kf".to_vec(),
                    index: 0,
                    trans: Vec::new(),
                }),
            },
            // Add transition from `spawn` to every other animation
            AnimationPatch {
                body: AnimationPatchBody::Update(UpdateAnimation {
                    id: RegexOr::Other(5),
                    path: None,
                    index: None,
                    trans: Some(vec![TransitionPatch {
                        body: TransitionPatchBody::Add(AddTransition {
                            id: regex(".*"),
                            type_: TransitionType::DefaultNonSync,
                            ext: None,
                        }),
                    }]),
                }),
            },
            // Delete transition from `spawn` to `ondie`
            AnimationPatch {
                body: AnimationPatchBody::Update(UpdateAnimation {
                    id: RegexOr::Other(5),
                    path: None,
                    index: None,
                    trans: Some(vec![TransitionPatch {
                        body: TransitionPatchBody::Delete(DeleteTransition {
                            id: RegexOr::Other(4),
                        }),
                    }]),
                }),
            },
            // Add transition from `ondie` to `spawn`
            AnimationPatch {
                body: AnimationPatchBody::Update(UpdateAnimation {
                    id: RegexOr::Other(4),
                    path: None,
                    index: None,
                    trans: Some(vec![TransitionPatch {
                        body: TransitionPatchBody::Add(AddTransition {
                            id: RegexOr::Other(5),
                            type_: TransitionType::DefaultNonSync,
                            ext: None,
                        }),
                    }]),
                }),
            },
        ],
    };

    // Apply patch to source
    apply(&mut m_src, patch_file).unwrap();

    // Ensure all animations have expected transition ids
    assert_trans_ids_eq(&m_src, 0, &[1, 2, 3, 4]);
    assert_trans_ids_eq(&m_src, 1, &[0, 2, 3, 4]);
    assert_trans_ids_eq(&m_src, 2, &[0, 1, 3, 4]);
    assert_trans_ids_eq(&m_src, 3, &[0, 1, 2, 4]);
    assert_trans_ids_eq(&m_src, 4, &[5]);
    assert_trans_ids_eq(&m_src, 5, &[0, 1, 2, 3]);
}

#[test]
fn test_duplicate_clip_id_detected() {
    let anims = vec![
        Animation {
            id: 7,
            path: b"./a.kf".to_vec(),
            index: 0,
            trans: Vec::new(),
        },
        Animation {
            id: 7,
            path: b"./b.kf".to_vec(),
            index: 0,
            trans: Vec::new(),
        },
    ];
    assert_eq!(
        MappedSource::try_from(base_body(anims)).err(),
        Some(KfmError::DuplicateId(7))
    );
}

#[test]
fn test_duplicate_edge_target_detected() {
    let anims = vec![Animation {
        id: 0,
        path: b"./a.kf".to_vec(),
        index: 0,
        trans: vec![
            Transition {
                id: 3,
                type_: TransitionType::DefaultSync,
                ext: None,
            },
            Transition {
                id: 3,
                type_: TransitionType::DefaultNonSync,
                ext: None,
            },
        ],
    }];
    assert_eq!(
        MappedSource::try_from(base_body(anims)).err(),
        Some(KfmError::DuplicateId(3))
    );
}

fn interconnected(n: u32) -> MappedSource {
    let mut anims = Vec::new();
    for id in 0..n {
        let mut trans = Vec::new();
        for t in 0..n {
            if t != id {
                trans.push(Transition {
                    id: t,
                    type_: TransitionType::DefaultNonSync,
                    ext: None,
                });
            }
        }
        anims.push(Animation {
            id,
            path: format!("./clip_{}.kf", id).into_bytes(),
            index: 0,
            trans,
        });
    }
    MappedSource::try_from(base_body(anims)).unwrap()
}

#[test]
fn test_cascading_delete() {
    let mut m_src = interconnected(4);
    let patch_file = PatchFile {
        anims: vec![AnimationPatch {
            body: AnimationPatchBody::Delete(DeleteAnimation {
                id: RegexOr::Other(2),
            }),
        }],
    };
    apply(&mut m_src, patch_file).unwrap();
    assert_eq!(m_src.anims.keys(), vec![0, 1, 3]);
    assert_trans_ids_eq(&m_src, 0, &[1, 3]);
    assert_trans_ids_eq(&m_src, 1, &[0, 3]);
    assert_trans_ids_eq(&m_src, 3, &[0, 1]);
}

#[test]
fn test_regex_fan_out_add_excludes_self() {
    let mut anims = Vec::new();
    for id in 0u32..4 {
        anims.push(Animation {
            id,
            path: format!("./clip_{}.kf", id).into_bytes(),
            index: 0,
            trans: Vec::new(),
        });
    }
    anims.push(Animation {
        id: 4,
        path: b"./clip_4.kf".to_vec(),
        index: 0,
        trans: Vec::new(),
    });
    let mut m_src = MappedSource::try_from(base_body(anims)).unwrap();
    // every clip the pattern picks gains an edge to 4; 4 itself gains no
    // self-edge even though 4 matches the pattern
    let patch_file = PatchFile {
        anims: vec![AnimationPatch {
            body: AnimationPatchBody::Update(UpdateAnimation {
                id: regex(".*"),
                path: None,
                index: None,
                trans: Some(vec![TransitionPatch {
                    body: TransitionPatchBody::Add(AddTransition {
                        id: RegexOr::Other(4),
                        type_: TransitionType::Blend,
                        ext: Some(TransitionExt {
                            duration: 0.5f32.to_bits(),
                            intermediate_anims: Vec::new(),
                            chain_anims: Vec::new(),
                        }),
                    }),
                }]),
            }),
        }],
    };
    apply(&mut m_src, patch_file).unwrap();
    for id in 0u32..4 {
        assert_trans_ids_eq(&m_src, id, &[4]);
    }
    assert_trans_ids_eq(&m_src, 4, &[]);
}

#[test]
fn test_update_edge_always_overwrites_ext() {
    let anims = vec![
        Animation {
            id: 0,
            path: b"./a.kf".to_vec(),
            index: 0,
            trans: vec![Transition {
                id: 1,
                type_: TransitionType::Blend,
                ext: Some(TransitionExt {
                    duration: 0.5f32.to_bits(),
                    intermediate_anims: Vec::new(),
                    chain_anims: Vec::new(),
                }),
            }],
        },
        Animation {
            id: 1,
            path: b"./b.kf".to_vec(),
            index: 0,
            trans: Vec::new(),
        },
    ];
    let mut m_src = MappedSource::try_from(base_body(anims)).unwrap();
    // an edge-level update carrying no ext clears the one that was there
    let patch_file = PatchFile {
        anims: vec![AnimationPatch {
            body: AnimationPatchBody::Update(UpdateAnimation {
                id: RegexOr::Other(0),
                path: None,
                index: None,
                trans: Some(vec![TransitionPatch {
                    body: TransitionPatchBody::Update(UpdateTransition {
                        id: RegexOr::Other(1),
                        type_: None,
                        ext: None,
                    }),
                }]),
            }),
        }],
    };
    apply(&mut m_src, patch_file).unwrap();
    let edge = m_src.anims.get(0).unwrap().trans.get(1).unwrap();
    assert_eq!(edge.type_, TransitionType::Blend);
    assert!(edge.ext.is_none());
}

#[test]
fn test_clip_update_keeps_omitted_fields() {
    let anims = vec![Animation {
        id: 0,
        path: b"./a.kf".to_vec(),
        index: 3,
        trans: Vec::new(),
    }];
    let mut m_src = MappedSource::try_from(base_body(anims)).unwrap();
    let patch_file = PatchFile {
        anims: vec![AnimationPatch {
            body: AnimationPatchBody::Update(UpdateAnimation {
                id: RegexOr::Other(0),
                path: Some(b"./renamed.kf".to_vec()),
                index: None,
                trans: None,
            }),
        }],
    };
    apply(&mut m_src, patch_file).unwrap();
    let a = m_src.anims.get(0).unwrap();
    assert_eq!(a.path, b"./renamed.kf".to_vec());
    assert_eq!(a.index, 3);
}

#[test]
fn test_add_existing_clip_conflicts() {
    let mut m_src = interconnected(2);
    let patch_file = PatchFile {
        anims: vec![AnimationPatch {
            body: AnimationPatchBody::Add(AddAnimation {
                id: 1,
                path: b"./again.kf".to_vec(),
                index: 0,
                trans: Vec::new(),
            }),
        }],
    };
    assert_eq!(apply(&mut m_src, patch_file), Err(KfmError::Conflict(1)));
}

#[test]
fn test_apply_returns_first_failing_error() {
    let mut m_src = interconnected(2);
    // the first instruction matches nothing and succeeds; the second
    // conflicts; the third would conflict too but is never reached
    let patch_file = PatchFile {
        anims: vec![
            AnimationPatch {
                body: AnimationPatchBody::Delete(DeleteAnimation {
                    id: RegexOr::Other(9),
                }),
            },
            AnimationPatch {
                body: AnimationPatchBody::Add(AddAnimation {
                    id: 1,
                    path: b"./again.kf".to_vec(),
                    index: 0,
                    trans: Vec::new(),
                }),
            },
            AnimationPatch {
                body: AnimationPatchBody::Add(AddAnimation {
                    id: 0,
                    path: b"./other.kf".to_vec(),
                    index: 0,
                    trans: Vec::new(),
                }),
            },
        ],
    };
    assert_eq!(apply(&mut m_src, patch_file), Err(KfmError::Conflict(1)));
}

#[test]
fn test_add_edge_conflict_reports_least_target() {
    let anims = vec![
        Animation {
            id: 0,
            path: b"./a.kf".to_vec(),
            index: 0,
            trans: vec![
                Transition {
                    id: 2,
                    type_: TransitionType::DefaultNonSync,
                    ext: None,
                },
                Transition {
                    id: 3,
                    type_: TransitionType::DefaultNonSync,
                    ext: None,
                },
            ],
        },
        Animation {
            id: 1,
            path: b"./b.kf".to_vec(),
            index: 0,
            trans: Vec::new(),
        },
        Animation {
            id: 2,
            path: b"./c.kf".to_vec(),
            index: 0,
            trans: Vec::new(),
        },
        Animation {
            id: 3,
            path: b"./d.kf".to_vec(),
            index: 0,
            trans: Vec::new(),
        },
    ];
    let mut m_src = MappedSource::try_from(base_body(anims)).unwrap();
    // fan-out resolves {1, 2, 3}; 2 and 3 already have edges; the least
    // conflicting target is reported
    let patch_file = PatchFile {
        anims: vec![AnimationPatch {
            body: AnimationPatchBody::Update(UpdateAnimation {
                id: RegexOr::Other(0),
                path: None,
                index: None,
                trans: Some(vec![TransitionPatch {
                    body: TransitionPatchBody::Add(AddTransition {
                        id: regex(".*"),
                        type_: TransitionType::DefaultNonSync,
                        ext: None,
                    }),
                }]),
            }),
        }],
    };
    assert_eq!(apply(&mut m_src, patch_file), Err(KfmError::Conflict(2)));
}

#[test]
fn test_add_edge_handler_excludes_self() {
    let anims = vec![
        Animation {
            id: 5,
            path: b"./a.kf".to_vec(),
            index: 0,
            trans: Vec::new(),
        },
        Animation {
            id: 6,
            path: b"./b.kf".to_vec(),
            index: 0,
            trans: Vec::new(),
        },
    ];
    let mut m_src = MappedSource::try_from(base_body(anims)).unwrap();
    let add = AddTransition {
        id: regex(".*"),
        type_: TransitionType::DefaultNonSync,
        ext: None,
    };
    kfm_tool::patch::on_add_tran(&mut m_src, 5, &add).unwrap();
    assert_trans_ids_eq(&m_src, 5, &[6]);
    assert_trans_ids_eq(&m_src, 6, &[]);
}

#[test]
fn test_update_edge_handler_clears_ext() {
    let anims = vec![
        Animation {
            id: 0,
            path: b"./a.kf".to_vec(),
            index: 0,
            trans: vec![Transition {
                id: 1,
                type_: TransitionType::Crossfade,
                ext: Some(TransitionExt {
                    duration: 0.5f32.to_bits(),
                    intermediate_anims: Vec::new(),
                    chain_anims: Vec::new(),
                }),
            }],
        },
        Animation {
            id: 1,
            path: b"./b.kf".to_vec(),
            index: 0,
            trans: Vec::new(),
        },
    ];
    let mut m_src = MappedSource::try_from(base_body(anims)).unwrap();
    let update = UpdateTransition {
        id: RegexOr::Other(1),
        type_: None,
        ext: None,
    };
    kfm_tool::patch::on_update_tran(&mut m_src, 0, &update).unwrap();
    let edge = m_src.anims.get(0).unwrap().trans.get(1).unwrap();
    assert_eq!(edge.type_, TransitionType::Crossfade);
    assert!(edge.ext.is_none());
}

#[test]
fn test_round_trip_through_indexed_view() {
    let body = base_body(vec![
        Animation {
            id: 5,
            path: b"./b.kf".to_vec(),
            index: 1,
            trans: vec![Transition {
                id: 2,
                type_: TransitionType::DefaultSync,
                ext: None,
            }],
        },
        Animation {
            id: 2,
            path: b"./a.kf".to_vec(),
            index: 0,
            trans: Vec::new(),
        },
    ]);
    let m_src = MappedSource::try_from(body).unwrap();
    let back = SourceFileBody::from(m_src);
    // conversion back iterates ascending id order
    let ids: Vec<u32> = back.anims.iter().map(|a| a.id).collect();
    assert_eq!(ids, vec![2, 5]);
    assert_eq!(back.anims[1].path, b"./b.kf".to_vec());
    assert_eq!(back.anims[1].trans[0].id, 2);
}
