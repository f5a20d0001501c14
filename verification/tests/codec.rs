use kfm_tool::error::KfmError;
use kfm_tool::source::Animation;
use kfm_tool::source::ChainAnimation;
use kfm_tool::source::DefaultTransitions;
use kfm_tool::source::IntermediateAnimation;
use kfm_tool::source::Layer;
use kfm_tool::source::LayerGroup;
use kfm_tool::source::Model;
use kfm_tool::source::SourceFile;
use kfm_tool::source::SourceFileBody;
use kfm_tool::source::SourceFileHeader;
use kfm_tool::source::Transition;
use kfm_tool::source::TransitionExt;
use kfm_tool::source::TransitionType;

fn sample_body() -> SourceFileBody {
    SourceFileBody {
        model: Model {
            path: b"./mesh/robot.nif".to_vec(),
            root: b"Scene Root".to_vec(),
        },
        default_trans: DefaultTransitions {
            sync_type: TransitionType::Morph,
            sync_duration: 0.25f32.to_bits(),
            non_sync_type: TransitionType::Blend,
            non_sync_duration: 0.25f32.to_bits(),
        },
        anims: vec![
            Animation {
                id: 0,
                path: b"./anims/idle.kf".to_vec(),
                index: 0,
                trans: vec![
                    Transition {
                        id: 1,
                        type_: TransitionType::Blend,
                        ext: Some(TransitionExt {
                            duration: 0.5f32.to_bits(),
                            intermediate_anims: vec![IntermediateAnimation {
                                start_key: b"start".to_vec(),
                                target_key: b"end".to_vec(),
                            }],
                            chain_anims: vec![ChainAnimation {
                                id: 1,
                                duration: 1.0f32.to_bits(),
                            }],
                        }),
                    },
                    Transition {
                        id: 2,
                        type_: TransitionType::DefaultSync,
                        ext: None,
                    },
                ],
            },
            Animation {
                id: 1,
                path: b"./anims/run.kf".to_vec(),
                index: 3,
                trans: vec![],
            },
        ],
        layer_groups: vec![LayerGroup {
            id: 9,
            name: b"base".to_vec(),
            layers: vec![Layer {
                id: 0,
                priority: -2,
                weight: 1.0f32.to_bits(),
                ease_in_time: 0.1f32.to_bits(),
                ease_out_time: 0.2f32.to_bits(),
                sync_id: 7,
            }],
        }],
    }
}

#[test]
fn test_round_trip_little_endian() {
    let f = SourceFile {
        header: SourceFileHeader {
            version: 2,
            is_little_endian: true,
        },
        body: sample_body(),
    };
    let bytes = f.encode_kfm().unwrap();
    let g = SourceFile::decode_kfm(bytes.as_slice()).unwrap();
    assert_eq!(f, g);
}

#[test]
fn test_round_trip_big_endian() {
    let f = SourceFile {
        header: SourceFileHeader {
            version: 2,
            is_little_endian: false,
        },
        body: sample_body(),
    };
    let bytes = f.encode_kfm().unwrap();
    let g = SourceFile::decode_kfm(bytes.as_slice()).unwrap();
    assert_eq!(f, g);
}

#[test]
fn test_header_magic_flip_rejected() {
    let f = SourceFile {
        header: SourceFileHeader {
            version: 2,
            is_little_endian: true,
        },
        body: sample_body(),
    };
    let good = f.encode_kfm().unwrap();
    // flip one byte inside the magic literal (positions 1..=35)
    for pos in [1usize, 10, 35] {
        let mut bad = good.clone();
        bad[pos] ^= 0xff;
        assert_eq!(SourceFile::decode_kfm(bad.as_slice()), Err(KfmError::Format));
    }
}

#[test]
fn test_header_endian_byte_checked() {
    let f = SourceFile {
        header: SourceFileHeader {
            version: 2,
            is_little_endian: true,
        },
        body: sample_body(),
    };
    let mut bytes = f.encode_kfm().unwrap();
    bytes[36] = 7;
    assert_eq!(SourceFile::decode_kfm(bytes.as_slice()), Err(KfmError::Format));
}

#[test]
fn test_default_kind_ext_dropped() {
    // a default-sync transition carrying an extension: the encoder never
    // writes the extension, so the round trip comes back without it
    let mut body = sample_body();
    body.anims[1].trans.push(Transition {
        id: 0,
        type_: TransitionType::DefaultSync,
        ext: Some(TransitionExt {
            duration: 1.0f32.to_bits(),
            intermediate_anims: vec![],
            chain_anims: vec![],
        }),
    });
    let f = SourceFile {
        header: SourceFileHeader {
            version: 2,
            is_little_endian: true,
        },
        body,
    };
    let bytes = f.encode_kfm().unwrap();
    let g = SourceFile::decode_kfm(bytes.as_slice()).unwrap();
    assert_eq!(g.body.anims[1].trans[0].type_, TransitionType::DefaultSync);
    assert_eq!(g.body.anims[1].trans[0].ext, None);
}

#[test]
fn test_non_ascii_string_rejected_on_encode() {
    let mut body = sample_body();
    body.model.path = vec![0x61, 0xc3, 0xa9];
    let f = SourceFile {
        header: SourceFileHeader {
            version: 2,
            is_little_endian: true,
        },
        body,
    };
    assert_eq!(f.encode_kfm(), Err(KfmError::Encoding));
}

#[test]
fn test_unknown_transition_code_rejected() {
    let mut out: Vec<u8> = Vec::new();
    kfm_tool::codec::encode_source_file_header(
        &mut out,
        &SourceFileHeader {
            version: 2,
            is_little_endian: true,
        },
    );
    // model: two empty strings
    out.extend_from_slice(&[0, 0, 0, 0, 0, 0, 0, 0]);
    // default transitions: sync type code 9 is not a transition kind
    out.extend_from_slice(&9u32.to_le_bytes());
    assert_eq!(SourceFile::decode_kfm(out.as_slice()), Err(KfmError::Format));
}

#[test]
fn test_truncated_count_rejected() {
    let f = SourceFile {
        header: SourceFileHeader {
            version: 2,
            is_little_endian: true,
        },
        body: sample_body(),
    };
    let bytes = f.encode_kfm().unwrap();
    // a declared count whose records outrun the input must be rejected
    let cut = &bytes[..bytes.len() - 5];
    assert_eq!(SourceFile::decode_kfm(cut), Err(KfmError::Format));
}

fn header_bytes() -> Vec<u8> {
    let mut out: Vec<u8> = Vec::new();
    kfm_tool::codec::encode_source_file_header(
        &mut out,
        &SourceFileHeader {
            version: 2,
            is_little_endian: true,
        },
    );
    out
}

#[test]
fn test_invalid_utf8_string_rejected_on_decode() {
    let mut bytes = header_bytes();
    // model path declares two bytes that are not well-formed UTF-8
    bytes.extend_from_slice(&[2, 0, 0, 0, 0xff, 0xfe]);
    assert_eq!(SourceFile::decode_kfm(bytes.as_slice()), Err(KfmError::Format));
}

#[test]
fn test_non_ascii_utf8_decodes_but_does_not_reencode() {
    let mut bytes = header_bytes();
    // model path: a two-byte UTF-8 character; decoding takes the superset,
    // encoding rejects anything beyond ASCII
    bytes.extend_from_slice(&[2, 0, 0, 0, 0xc3, 0xa9]);
    bytes.extend_from_slice(&[0, 0, 0, 0]); // empty root
    bytes.extend_from_slice(&[0, 0, 0, 0]); // blend
    bytes.extend_from_slice(&[0, 0, 0, 0]); // blend
    bytes.extend_from_slice(&[0, 0, 0, 0]); // sync duration bits
    bytes.extend_from_slice(&[0, 0, 0, 0]); // non-sync duration bits
    bytes.extend_from_slice(&[0, 0, 0, 0]); // no clips
    bytes.extend_from_slice(&[0, 0, 0, 0]); // no layer groups
    let f = SourceFile::decode_kfm(bytes.as_slice()).unwrap();
    assert_eq!(f.body.model.path, vec![0xc3, 0xa9]);
    assert_eq!(f.encode_kfm(), Err(KfmError::Encoding));
}

#[test]
fn test_exact_wire_bytes() {
    // version, 35-byte magic, endian flag, then "ab" length-prefixed twice
    let f = SourceFile {
        header: SourceFileHeader {
            version: 1,
            is_little_endian: true,
        },
        body: SourceFileBody {
            model: Model {
                path: b"ab".to_vec(),
                root: b"".to_vec(),
            },
            default_trans: DefaultTransitions {
                sync_type: TransitionType::Blend,
                sync_duration: 0,
                non_sync_type: TransitionType::DefaultNonSync,
                non_sync_duration: 0,
            },
            anims: vec![],
            layer_groups: vec![],
        },
    };
    let bytes = f.encode_kfm().unwrap();
    let mut expected: Vec<u8> = Vec::new();
    expected.push(1);
    expected.extend_from_slice(b"Gamebryo KFM File Version 2.2.0.0b\n");
    expected.push(1);
    expected.extend_from_slice(&[2, 0, 0, 0]);
    expected.extend_from_slice(b"ab");
    expected.extend_from_slice(&[0, 0, 0, 0]);
    expected.extend_from_slice(&[0, 0, 0, 0]); // blend
    expected.extend_from_slice(&[5, 0, 0, 0]); // default non-sync
    expected.extend_from_slice(&[0, 0, 0, 0]); // sync duration bits
    expected.extend_from_slice(&[0, 0, 0, 0]); // non-sync duration bits
    expected.extend_from_slice(&[0, 0, 0, 0]); // no clips
    expected.extend_from_slice(&[0, 0, 0, 0]); // no layer groups
    assert_eq!(bytes, expected);
}
