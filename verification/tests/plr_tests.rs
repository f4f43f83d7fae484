use harmonic_plr::note;
use harmonic_plr::{
    all_triads_via_plr, apply_plr, plr_group_order, torus_path, voice_leading_distance, Chord,
    PlrOp, PlrSequence,
};

#[test]
fn test_p_parallel_major_to_minor() {
    let c_major = Chord::major(note::C);
    let result = apply_plr(c_major, PlrOp::P);
    assert_eq!(result, Chord::minor(note::C));
}

#[test]
fn test_p_parallel_minor_to_major() {
    let c_minor = Chord::minor(note::C);
    let result = apply_plr(c_minor, PlrOp::P);
    assert_eq!(result, Chord::major(note::C));
}

#[test]
fn test_l_leittonwechsel_major() {
    let c_major = Chord::major(note::C);
    let result = apply_plr(c_major, PlrOp::L);
    assert_eq!(result, Chord::minor(note::E));
}

#[test]
fn test_l_leittonwechsel_minor() {
    let e_minor = Chord::minor(note::E);
    let result = apply_plr(e_minor, PlrOp::L);
    assert_eq!(result, Chord::major(note::C));
}

#[test]
fn test_r_relative_major() {
    let c_major = Chord::major(note::C);
    let result = apply_plr(c_major, PlrOp::R);
    assert_eq!(result, Chord::minor(note::A));
}

#[test]
fn test_r_relative_minor() {
    let a_minor = Chord::minor(note::A);
    let result = apply_plr(a_minor, PlrOp::R);
    assert_eq!(result, Chord::major(note::C));
}

#[test]
fn test_p_squared_is_identity() {
    let c_major = Chord::major(note::C);
    let result = apply_plr(apply_plr(c_major, PlrOp::P), PlrOp::P);
    assert_eq!(result, c_major);
}

#[test]
fn test_l_squared_is_identity() {
    let c_major = Chord::major(note::C);
    let result = apply_plr(apply_plr(c_major, PlrOp::L), PlrOp::L);
    assert_eq!(result, c_major);
}

#[test]
fn test_r_squared_is_identity() {
    let c_major = Chord::major(note::C);
    let result = apply_plr(apply_plr(c_major, PlrOp::R), PlrOp::R);
    assert_eq!(result, c_major);
}

#[test]
fn test_plr_generates_all_24_triads() {
    let triads = all_triads_via_plr(Chord::major(note::C));
    assert_eq!(triads.len(), 24);
}

#[test]
fn test_plr_group_order_is_24() {
    assert_eq!(plr_group_order(), 24);
}

#[test]
fn test_chord_pitch_classes_major() {
    let c_major = Chord::major(note::C);
    assert_eq!(c_major.pitch_classes(), [0, 4, 7]);
}

#[test]
fn test_chord_pitch_classes_minor() {
    let a_minor = Chord::minor(note::A);
    assert_eq!(a_minor.pitch_classes(), [9, 0, 4]);
}

#[test]
fn test_common_tones_p() {
    let c_major = Chord::major(note::C);
    let c_minor = Chord::minor(note::C);
    assert_eq!(c_major.common_tones(&c_minor), 2); // root and fifth
}

#[test]
fn test_common_tones_l() {
    let c_major = Chord::major(note::C);
    let e_minor = Chord::minor(note::E);
    assert_eq!(c_major.common_tones(&e_minor), 2); // E and G
}

#[test]
fn test_common_tones_r() {
    let c_major = Chord::major(note::C);
    let a_minor = Chord::minor(note::A);
    assert_eq!(c_major.common_tones(&a_minor), 2); // C and E
}

#[test]
fn test_voice_leading_identity() {
    let c = Chord::major(note::C);
    assert_eq!(voice_leading_distance(c, c), 0);
}

#[test]
fn test_voice_leading_p() {
    let c_major = Chord::major(note::C);
    let c_minor = Chord::minor(note::C);
    assert_eq!(voice_leading_distance(c_major, c_minor), 1);
}

#[test]
fn test_voice_leading_l() {
    let c_major = Chord::major(note::C);
    let e_minor = Chord::minor(note::E);
    assert_eq!(voice_leading_distance(c_major, e_minor), 1);
}

#[test]
fn test_voice_leading_r() {
    // R moves one note by whole tone, not semitone
    let c_major = Chord::major(note::C);
    let a_minor = Chord::minor(note::A);
    assert_eq!(voice_leading_distance(c_major, a_minor), 2);
}

#[test]
fn test_sequence_identity() {
    let seq = PlrSequence::identity();
    assert!(seq.is_identity());
    let c = Chord::major(note::C);
    assert_eq!(seq.apply(c), c);
}

#[test]
fn test_sequence_compose() {
    let p = PlrSequence::from_ops(&[PlrOp::P]);
    let l = PlrSequence::from_ops(&[PlrOp::L]);
    let pl = p.compose(&l);
    let c_major = Chord::major(note::C);
    // P then L on C major: P -> C minor, L -> Ab major
    let result = pl.apply(c_major);
    assert_eq!(result, apply_plr(apply_plr(c_major, PlrOp::P), PlrOp::L));
}

#[test]
fn test_sequence_inverse() {
    let seq = PlrSequence::from_ops(&[PlrOp::P, PlrOp::L, PlrOp::R]);
    let inv = seq.inverse();
    assert_eq!(*inv.ops(), vec![PlrOp::R, PlrOp::L, PlrOp::P]);
}

#[test]
fn test_torus_path_same_chord() {
    let c = Chord::major(note::C);
    let path = torus_path(c, c).unwrap();
    assert!(path.is_identity());
}

#[test]
fn test_torus_path_p() {
    let c_major = Chord::major(note::C);
    let c_minor = Chord::minor(note::C);
    let path = torus_path(c_major, c_minor).unwrap();
    assert_eq!(path.len(), 1);
    assert_eq!(path.ops()[0], PlrOp::P);
}

#[test]
fn test_chord_display() {
    assert_eq!(Chord::major(note::C).to_string(), "C major");
    assert_eq!(Chord::minor(note::A).to_string(), "A minor");
}

#[test]
fn test_chord_contains() {
    let c_major = Chord::major(note::C);
    assert!(c_major.contains(note::C));
    assert!(c_major.contains(note::E));
    assert!(c_major.contains(note::G));
    assert!(!c_major.contains(note::CS));
}
