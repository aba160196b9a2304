use sb_synth::fraction::MAX_DEPTH;
use sb_synth::interpreter::Interpreter;

/// Feeds every byte of `input` and collects the chords handed out.
fn feed(it: &mut Interpreter, input: &[u8]) -> Vec<Vec<(u64, u64)>> {
    let mut played = Vec::new();
    for &c in input {
        assert!(it.can_step(c));
        if let Some(chord) = it.step(c) {
            played.push(chord);
        }
    }
    played
}

#[test]
fn space_commits_a_note_without_playing() {
    let mut it = Interpreter::new();
    let played = feed(&mut it, b"q ");
    assert!(played.is_empty());
    assert_eq!(it.pending_chord(), &vec![(1, 2)]);
    assert!(it.pending_bits().is_empty());
}

#[test]
fn newline_commits_and_plays_the_chord() {
    let mut it = Interpreter::new();
    let played = feed(&mut it, b"q\n");
    assert_eq!(played, vec![vec![(1, 2)]]);
    assert!(it.pending_chord().is_empty());
    assert!(it.pending_bits().is_empty());
}

#[test]
fn comment_line_is_ignored() {
    let mut a = Interpreter::new();
    let mut b = Interpreter::new();
    let pa = feed(&mut a, b"#anything\nq\n");
    let pb = feed(&mut b, b"q\n");
    assert_eq!(pa, pb);
    assert_eq!(pa, vec![vec![(1, 2)]]);
    assert!(!a.is_skipping());
}

#[test]
fn comment_hides_commits_until_newline() {
    let mut it = Interpreter::new();
    let played = feed(&mut it, b"a#q \n");
    assert!(played.is_empty());
    assert_eq!(it.pending_bits(), &vec![false]);
    assert!(it.pending_chord().is_empty());
}

#[test]
fn chord_gathers_notes_until_newline() {
    let mut it = Interpreter::new();
    let played = feed(&mut it, b"a A \n");
    assert_eq!(played, vec![vec![(2, 1), (3, 1), (1, 1)]]);
}

#[test]
fn ratios_do_not_accumulate_across_notes() {
    let mut it = Interpreter::new();
    let played = feed(&mut it, b"q q\nq\n");
    assert_eq!(played, vec![vec![(1, 2), (1, 2)], vec![(1, 2)]]);
}

#[test]
fn symbols_append_their_bits() {
    let mut it = Interpreter::new();
    feed(&mut it, b"aqAQzZsS");
    assert_eq!(
        it.pending_bits(),
        &vec![
            false, true, false, false, true, true, false, true, false, true, true, false, true,
            false
        ]
    );
}

#[test]
fn other_symbols_are_ignored() {
    let mut it = Interpreter::new();
    feed(&mut it, b"xb1\t");
    assert!(it.pending_bits().is_empty());
    assert!(it.pending_chord().is_empty());
    assert!(!it.is_skipping());
}

#[test]
fn too_deep_a_path_cannot_be_committed() {
    let mut it = Interpreter::new();
    for _ in 0..MAX_DEPTH {
        it.step(b'a');
    }
    assert!(it.can_step(b' '));
    it.step(b'a');
    assert!(!it.can_step(b' '));
    assert!(!it.can_step(b'\n'));
    assert!(it.can_step(b'q'));
    assert!(it.resolves_on(b' '));
    assert!(!it.resolves_on(b'a'));
}
