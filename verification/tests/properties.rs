use harmonic_plr::note;
use harmonic_plr::note::{A, AS, B, C, CS, D, DS, E, F, FS, G, GS};
use harmonic_plr::{
    all_triads_via_plr, apply_plr, pitch_class_name, torus_path, voice_leading_distance, Chord,
    PlrOp, PlrSequence, Quality,
};

const OPS: [PlrOp; 3] = [PlrOp::P, PlrOp::L, PlrOp::R];

fn every_triad() -> Vec<Chord> {
    let mut all = Vec::new();
    for root in 0..12u8 {
        all.push(Chord::major(root));
        all.push(Chord::minor(root));
    }
    all
}

#[test]
fn each_generator_is_an_involution_on_every_triad() {
    for c in every_triad() {
        for op in OPS {
            assert_eq!(apply_plr(apply_plr(c, op), op), c);
        }
    }
}

#[test]
fn involution_reduces_an_unreduced_root() {
    let c = Chord { root: 14, quality: Quality::Major };
    for op in OPS {
        assert_eq!(apply_plr(apply_plr(c, op), op), Chord::major(2));
    }
}

#[test]
fn plr_steps_on_unreduced_roots() {
    let c = Chord { root: 13, quality: Quality::Major };
    assert_eq!(apply_plr(c, PlrOp::P), Chord::minor(1));
    assert_eq!(apply_plr(c, PlrOp::L), Chord::minor(5));
    assert_eq!(apply_plr(c, PlrOp::R), Chord::minor(10));
    let m = Chord { root: 250, quality: Quality::Minor };
    assert_eq!(apply_plr(m, PlrOp::R), Chord::major(1));
}

#[test]
fn every_step_keeps_two_common_tones() {
    for c in every_triad() {
        for op in OPS {
            assert_eq!(c.common_tones(&apply_plr(c, op)), 2);
        }
    }
}

#[test]
fn step_voice_leading_distances() {
    for c in every_triad() {
        assert_eq!(voice_leading_distance(c, apply_plr(c, PlrOp::P)), 1);
        assert_eq!(voice_leading_distance(c, apply_plr(c, PlrOp::L)), 1);
        assert_eq!(voice_leading_distance(c, apply_plr(c, PlrOp::R)), 2);
    }
}

#[test]
fn voice_leading_is_symmetric_and_zero_on_self() {
    let all = every_triad();
    for &a in &all {
        assert_eq!(voice_leading_distance(a, a), 0);
        for &b in &all {
            assert_eq!(voice_leading_distance(a, b), voice_leading_distance(b, a));
        }
    }
}

#[test]
fn voice_leading_exact_values() {
    // C major {0, 4, 7} to F# major {6, 10, 1}: 0->1, 4->6, 7->10 moves 1 + 2 + 3 = 6
    assert_eq!(voice_leading_distance(Chord::major(note::C), Chord::major(note::FS)), 6);
    // C major to D major {2, 6, 9}: 2 + 2 + 2 = 6
    assert_eq!(voice_leading_distance(Chord::major(note::C), Chord::major(note::D)), 6);
    // C major to Db major {1, 5, 8}: 1 + 1 + 1 = 3
    assert_eq!(voice_leading_distance(Chord::major(note::C), Chord::major(note::CS)), 3);
}

#[test]
fn all_triads_from_every_start() {
    for start in every_triad() {
        let triads = all_triads_via_plr(start);
        assert_eq!(triads.len(), 24);
        assert_eq!(triads[0], start);
        for c in every_triad() {
            assert_eq!(triads.iter().filter(|&&t| t == c).count(), 1);
        }
    }
}

fn apply_all(start: Chord, ops: &[PlrOp]) -> Chord {
    PlrSequence::from_ops(ops).apply(start)
}

fn shortest_by_search(start: Chord, target: Chord) -> usize {
    let mut frontier = vec![start];
    let mut len = 0;
    while !frontier.contains(&target) {
        let mut next = Vec::new();
        for c in frontier {
            for op in OPS {
                next.push(apply_plr(c, op));
            }
        }
        frontier = next;
        len += 1;
    }
    len
}

#[test]
fn torus_paths_are_shortest_paths() {
    for a in every_triad() {
        for b in every_triad() {
            let path = torus_path(a, b).unwrap();
            assert_eq!(apply_all(a, path.ops()), b);
            assert_eq!(path.len(), shortest_by_search(a, b));
        }
    }
}

#[test]
fn torus_path_exact_route() {
    // C major to A minor is one R step
    let path = torus_path(Chord::major(note::C), Chord::minor(note::A)).unwrap();
    assert_eq!(*path.ops(), vec![PlrOp::R]);
    // C major to G major: L then R, through E minor
    let path = torus_path(Chord::major(note::C), Chord::major(note::G)).unwrap();
    assert_eq!(*path.ops(), vec![PlrOp::L, PlrOp::R]);
}

#[test]
fn inverse_undoes_a_sequence() {
    let seq = PlrSequence::from_ops(&[PlrOp::R, PlrOp::L, PlrOp::P, PlrOp::L]);
    for c in every_triad() {
        assert_eq!(seq.inverse().apply(seq.apply(c)), c);
        assert_eq!(seq.apply(seq.inverse().apply(c)), c);
    }
    assert_eq!(*seq.inverse().inverse().ops(), *seq.ops());
}

#[test]
fn compose_applies_first_then_second() {
    let a = PlrSequence::from_ops(&[PlrOp::R, PlrOp::L]);
    let b = PlrSequence::from_ops(&[PlrOp::P]);
    let ab = a.compose(&b);
    assert_eq!(*ab.ops(), vec![PlrOp::R, PlrOp::L, PlrOp::P]);
    for c in every_triad() {
        assert_eq!(ab.apply(c), b.apply(a.apply(c)));
    }
    assert_eq!(*PlrSequence::identity().compose(&a).ops(), *a.ops());
}

#[test]
fn sequence_sizes() {
    let empty = PlrSequence::identity();
    assert_eq!(empty.len(), 0);
    assert!(empty.is_empty());
    let s = PlrSequence::from_ops(&[PlrOp::P, PlrOp::P]);
    assert_eq!(s.len(), 2);
    assert!(!s.is_empty());
    // acts as the identity but is not the empty sequence
    assert!(!s.is_identity());
    assert_eq!(s.apply(Chord::major(note::D)), Chord::major(note::D));
}

#[test]
fn sequence_apply_reduces_unreduced_start_only_when_nonempty() {
    let c = Chord { root: 15, quality: Quality::Minor };
    assert_eq!(PlrSequence::identity().apply(c), c);
    assert_eq!(PlrSequence::from_ops(&[PlrOp::P, PlrOp::P]).apply(c), Chord::minor(3));
}

#[test]
fn constructors_reduce_the_root() {
    assert_eq!(Chord::new(14, Quality::Major), Chord::major(2));
    assert_eq!(Chord::major(255).root, 3);
    assert_eq!(Chord::minor(12).root, 0);
    assert_eq!(Chord::minor(12).quality, Quality::Minor);
}

#[test]
fn third_and_fifth() {
    assert_eq!(Chord::major(note::A).third(), note::CS);
    assert_eq!(Chord::minor(note::A).third(), note::C);
    assert_eq!(Chord::minor(note::A).fifth(), note::E);
    assert_eq!(Chord::major(note::B).fifth(), note::FS);
}

#[test]
fn contains_reduces_the_pitch_class() {
    let c_major = Chord::major(note::C);
    assert!(c_major.contains(16));
    assert!(c_major.contains(12));
    assert!(!c_major.contains(13));
}

#[test]
fn common_tones_of_distant_triads() {
    assert_eq!(Chord::major(note::C).common_tones(&Chord::major(note::FS)), 0);
    assert_eq!(Chord::major(note::C).common_tones(&Chord::major(note::G)), 1);
    assert_eq!(Chord::major(note::C).common_tones(&Chord::major(note::C)), 3);
}

#[test]
fn pitch_class_names() {
    let names = ["C", "C#", "D", "D#", "E", "F", "F#", "G", "G#", "A", "A#", "B"];
    for pc in 0..12u8 {
        assert_eq!(pitch_class_name(pc), names[pc as usize]);
    }
    assert_eq!(pitch_class_name(12), "?");
    assert_eq!(pitch_class_name(255), "?");
}

#[test]
fn chord_and_quality_names() {
    assert_eq!(Quality::Major.name(), "major");
    assert_eq!(Quality::Minor.to_string(), "minor");
    assert_eq!(Chord::minor(note::FS).to_string(), "F# minor");
    assert_eq!(Chord { root: 20, quality: Quality::Major }.to_string(), "? major");
}

#[test]
fn all_triads_from_a_start_outside_the_table_range() {
    // a major triad on 13 sits at the position of C# minor, which is left out
    let start = Chord { root: 13, quality: Quality::Major };
    let triads = all_triads_via_plr(start);
    assert_eq!(triads.len(), 24);
    assert_eq!(triads[0], start);
    assert!(!triads.contains(&Chord::minor(note::CS)));
    for c in every_triad() {
        if c != Chord::minor(note::CS) {
            assert_eq!(triads.iter().filter(|&&t| t == c).count(), 1);
        }
    }
}

#[test]
fn torus_path_to_a_target_without_a_position() {
    let target = Chord { root: 12, quality: Quality::Minor };
    assert!(torus_path(Chord::major(note::C), target).is_none());
}

#[test]
fn torus_path_to_a_target_standing_for_another_triad() {
    // a major triad on 14 sits at the position of D minor
    let target = Chord { root: 14, quality: Quality::Major };
    let path = torus_path(Chord::major(note::C), target).unwrap();
    assert_eq!(*path.ops(), vec![PlrOp::R, PlrOp::L, PlrOp::R]);
    assert_eq!(apply_all(Chord::major(note::C), path.ops()), Chord::minor(note::D));
    let same_position = torus_path(Chord::minor(note::CS), Chord { root: 13, quality: Quality::Major });
    assert!(same_position.unwrap().is_identity());
}

#[test]
fn torus_path_to_itself_outside_the_table_range() {
    let c = Chord { root: 200, quality: Quality::Minor };
    assert!(torus_path(c, c).unwrap().is_identity());
}

#[test]
fn torus_path_from_a_start_outside_the_table_range() {
    // a major triad on 13 sits at the position of C# minor; the search never
    // steps onto that position
    let source = Chord { root: 13, quality: Quality::Major };
    assert!(torus_path(source, Chord::minor(note::CS)).unwrap().is_identity());
    let around = torus_path(source, Chord::major(note::A)).unwrap();
    assert_eq!(*around.ops(), vec![PlrOp::L, PlrOp::P, PlrOp::L, PlrOp::P]);
    assert_eq!(around.apply(source), Chord::major(note::A));
    let back = torus_path(source, Chord::major(note::CS)).unwrap();
    assert_eq!(*back.ops(), vec![PlrOp::L, PlrOp::L]);
    assert_eq!(back.apply(source), Chord::major(note::CS));
}

#[test]
fn p_is_a_word_in_l_and_r() {
    let (l, r) = (PlrOp::L, PlrOp::R);
    let word = PlrSequence::from_ops(&[r, l, r, l, r, l, r]);
    for c in every_triad() {
        assert_eq!(word.apply(c), apply_plr(c, PlrOp::P));
    }
}

#[test]
fn lr_has_order_twelve() {
    let mut ops = Vec::new();
    for k in 1..=12 {
        ops.push(PlrOp::L);
        ops.push(PlrOp::R);
        let word = PlrSequence::from_ops(&ops);
        for c in every_triad() {
            if k == 12 {
                assert_eq!(word.apply(c), c);
            } else {
                assert_ne!(word.apply(c), c);
            }
        }
    }
}

#[test]
fn inverse_of_a_composition() {
    let a = PlrSequence::from_ops(&[PlrOp::P, PlrOp::R]);
    let b = PlrSequence::from_ops(&[PlrOp::L]);
    assert_eq!(*a.compose(&b).inverse().ops(), *b.inverse().compose(&a.inverse()).ops());
    assert_eq!(*a.compose(&b).inverse().ops(), vec![PlrOp::L, PlrOp::R, PlrOp::P]);
}

fn first_route_by_enumeration(start: Chord, target: Chord, len: usize) -> Vec<PlrOp> {
    // Words of length `len` in dictionary order, P before L before R.
    let total = 3usize.pow(len as u32);
    for n in 0..total {
        let mut word = Vec::new();
        let mut rest = n;
        let mut digits = vec![0usize; len];
        for k in (0..len).rev() {
            digits[k] = rest % 3;
            rest /= 3;
        }
        for d in digits {
            word.push(OPS[d]);
        }
        if apply_all(start, &word) == target {
            return word;
        }
    }
    panic!("no route of the given length");
}

#[test]
fn torus_path_takes_the_first_route_in_dictionary_order() {
    // C major to C-sharp minor: L, P, R comes before every other route of length 3
    let path = torus_path(Chord::major(note::C), Chord::minor(note::CS)).unwrap();
    assert_eq!(*path.ops(), vec![PlrOp::L, PlrOp::P, PlrOp::R]);
    for a in every_triad() {
        for b in every_triad() {
            let path = torus_path(a, b).unwrap();
            assert_eq!(*path.ops(), first_route_by_enumeration(a, b, path.len()));
        }
    }
}

#[test]
fn voice_leading_triangle_inequality_on_every_triple() {
    let all = every_triad();
    for &a in &all {
        for &b in &all {
            for &c in &all {
                let ac = voice_leading_distance(a, c) as u32;
                let ab = voice_leading_distance(a, b) as u32;
                let bc = voice_leading_distance(b, c) as u32;
                assert!(ac <= ab + bc);
            }
        }
    }
    // C major, E minor, G major: 1 + 2 against 2 directly
    let c = Chord::major(note::C);
    let e = Chord::minor(note::E);
    let g = Chord::major(note::G);
    assert_eq!(voice_leading_distance(c, e), 1);
    assert_eq!(voice_leading_distance(e, g), 2);
    assert_eq!(voice_leading_distance(c, g), 3);
}

#[test]
fn all_triads_from_c_major_in_depth_first_order() {
    let expected = vec![
        Chord::major(C),
        Chord::minor(A),
        Chord::major(F),
        Chord::minor(D),
        Chord::major(AS),
        Chord::minor(G),
        Chord::major(DS),
        Chord::minor(DS),
        Chord::major(FS),
        Chord::minor(FS),
        Chord::major(B),
        Chord::minor(GS),
        Chord::major(E),
        Chord::minor(CS),
        Chord::major(CS),
        Chord::major(GS),
        Chord::minor(B),
        Chord::major(G),
        Chord::minor(AS),
        Chord::major(D),
        Chord::minor(F),
        Chord::major(A),
        Chord::minor(E),
        Chord::minor(C),
    ];
    assert_eq!(all_triads_via_plr(Chord::major(C)), expected);
}

fn first_step_onto(listed: &[Chord], c: Chord) -> Option<(usize, usize)> {
    for (j, &t) in listed.iter().enumerate() {
        for (k, op) in OPS.iter().enumerate() {
            if apply_plr(t, *op) == c {
                return Some((j, k));
            }
        }
    }
    None
}

#[test]
fn each_listed_triad_was_reached_first_most_recently() {
    for start in every_triad() {
        let triads = all_triads_via_plr(start);
        for i in 1..triads.len() {
            let before = &triads[..i];
            let chosen = first_step_onto(before, triads[i]).unwrap();
            for c in every_triad() {
                if triads[..=i].contains(&c) {
                    continue;
                }
                if let Some(other) = first_step_onto(before, c) {
                    assert!(other < chosen);
                }
            }
        }
    }
}
