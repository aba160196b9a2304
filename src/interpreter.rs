//! The state machine that reads input symbols one at a time, gathers a path
//! through the Stern-Brocot tree, commits the resolved ratios as notes of a
//! pending chord and hands the chord out for playback.

use vstd::prelude::*;
use crate::fraction::{frac_view, iterate_on_sb_tree, multiply, sb_resolve, MAX_DEPTH};

verus! {

/// What the interpreter holds: whether it is skipping a comment line, the
/// path gathered since the last commit, and the ratios of the pending chord.
pub ghost struct InterpreterView {
    pub skipping: bool,
    pub bits: Seq<bool>,
    pub chord: Seq<(u64, u64)>,
}

/// The state before any symbol has been read.
pub open spec fn initial_view() -> InterpreterView {
    InterpreterView { skipping: false, bits: Seq::empty(), chord: Seq::empty() }
}

/// The bits that a symbol appends to the path, when it is not a commit or a
/// comment marker; empty for symbols that are ignored.
pub open spec fn symbol_bits(c: u8) -> Seq<bool> {
    if c == 0x61 {
        seq![false]
    } else if c == 0x71 {
        seq![true]
    } else if c == 0x41 {
        seq![false, false]
    } else if c == 0x51 {
        seq![true, true]
    } else if c == 0x7a || c == 0x5a {
        seq![false, true]
    } else if c == 0x73 || c == 0x53 {
        seq![true, false]
    } else {
        Seq::empty()
    }
}

/// Space: commit the path as a note of the pending chord.
pub const SPACE: u8 = 0x20;

/// Newline: commit the path, then play the pending chord; ends a comment.
pub const NEWLINE: u8 = 0x0a;

/// Starts a comment that runs to the end of the line.
pub const COMMENT: u8 = 0x23;

/// The ratio of the note committed for `bits`. Every note is composed against
/// the unit reference ratio, so ratios do not accumulate from note to note.
pub open spec fn note_ratio(bits: Seq<bool>) -> (u64, u64) {
    (sb_resolve(bits).0 as u64, sb_resolve(bits).1 as u64)
}

/// Whether reading `c` in state `s` resolves the pending path.
pub open spec fn commits(s: InterpreterView, c: u8) -> bool {
    !s.skipping && (c == SPACE || c == NEWLINE)
}

/// The state after reading `c` in state `s`, and the chord to play, if any.
pub open spec fn next(s: InterpreterView, c: u8) -> (InterpreterView, Option<Seq<(u64, u64)>>) {
    if s.skipping {
        (InterpreterView { skipping: c != NEWLINE, ..s }, None)
    } else if c == SPACE {
        (InterpreterView { bits: Seq::empty(), chord: s.chord.push(note_ratio(s.bits)), ..s }, None)
    } else if c == NEWLINE {
        (
            InterpreterView { bits: Seq::empty(), chord: Seq::empty(), ..s },
            Some(s.chord.push(note_ratio(s.bits))),
        )
    } else if c == COMMENT {
        (InterpreterView { skipping: true, ..s }, None)
    } else {
        (InterpreterView { bits: s.bits + symbol_bits(c), ..s }, None)
    }
}

/// The state after reading all of `input` from `s`, and the chords handed out
/// for playback on the way, in order.
pub open spec fn run(s: InterpreterView, input: Seq<u8>) -> (InterpreterView, Seq<Seq<(u64, u64)>>)
    decreases input.len(),
{
    if input.len() == 0 {
        (s, Seq::empty())
    } else {
        let (s1, played) = run(s, input.drop_last());
        let (s2, out) = next(s1, input.last());
        match out {
            Some(chord) => (s2, played.push(chord)),
            None => (s2, played),
        }
    }
}

/// The chord handed out by `step`, as a sequence.
pub open spec fn chord_view(r: Option<Vec<(u64, u64)>>) -> Option<Seq<(u64, u64)>> {
    match r {
        Some(v) => Some(v@),
        None => None,
    }
}

/// Reads input symbols and turns them into chords of note ratios.
pub struct Interpreter {
    skipping: bool,
    bits: Vec<bool>,
    chord: Vec<(u64, u64)>,
}

impl View for Interpreter {
    type V = InterpreterView;

    closed spec fn view(&self) -> InterpreterView {
        InterpreterView { skipping: self.skipping, bits: self.bits@, chord: self.chord@ }
    }
}

impl Interpreter {
    /// An interpreter that has read nothing.
    pub fn new() -> (r: Interpreter)
        ensures
            r@ == initial_view(),
    {
        Interpreter { skipping: false, bits: Vec::new(), chord: Vec::new() }
    }

    /// Whether the interpreter is inside a comment line.
    pub fn is_skipping(&self) -> (r: bool)
        ensures
            r == self@.skipping,
    {
        self.skipping
    }

    /// The path gathered since the last commit.
    pub fn pending_bits(&self) -> (r: &Vec<bool>)
        ensures
            r@ == self@.bits,
    {
        &self.bits
    }

    /// The ratios of the notes committed since the last playback.
    pub fn pending_chord(&self) -> (r: &Vec<(u64, u64)>)
        ensures
            r@ == self@.chord,
    {
        &self.chord
    }

    /// Whether `step(c)` would resolve the pending path.
    pub fn resolves_on(&self, c: u8) -> (r: bool)
        ensures
            r == commits(self@, c),
    {
        !self.skipping && (c == SPACE || c == NEWLINE)
    }

    /// Whether `step(c)` may be taken: a commit needs a path of at most
    /// `MAX_DEPTH` bits, whose node fits in `u64` components.
    pub fn can_step(&self, c: u8) -> (r: bool)
        ensures
            r == (commits(self@, c) ==> self@.bits.len() <= MAX_DEPTH),
    {
        !self.resolves_on(c) || self.bits.len() <= MAX_DEPTH
    }

    /// Resolves the pending path, appends its note to the chord and clears
    /// the path.
    fn commit(&mut self)
        requires
            old(self).bits@.len() <= MAX_DEPTH,
        ensures
            final(self).skipping == old(self).skipping,
            final(self).bits@ == Seq::<bool>::empty(),
            final(self).chord@ == old(self).chord@.push(note_ratio(old(self).bits@)),
    {
        let node = iterate_on_sb_tree(&self.bits);
        let ratio = multiply((1, 1), node);
        self.bits.clear();
        self.chord.push(ratio);
    }

    /// Reads one symbol. Returns the chord to play when the symbol is a
    /// newline outside a comment, and `None` otherwise.
    pub fn step(&mut self, c: u8) -> (r: Option<Vec<(u64, u64)>>)
        requires
            commits(old(self)@, c) ==> old(self)@.bits.len() <= MAX_DEPTH,
        ensures
            (final(self)@, chord_view(r)) == next(old(self)@, c),
    {
        if self.skipping {
            if c == NEWLINE {
                self.skipping = false;
            }
            return None;
        }
        if c == SPACE {
            self.commit();
            None
        } else if c == NEWLINE {
            self.commit();
            let mut played: Vec<(u64, u64)> = Vec::new();
            std::mem::swap(&mut played, &mut self.chord);
            Some(played)
        } else if c == COMMENT {
            self.skipping = true;
            None
        } else {
            if c == 0x61 {
                self.bits.push(false);
            } else if c == 0x71 {
                self.bits.push(true);
            } else if c == 0x41 {
                self.bits.push(false);
                self.bits.push(false);
            } else if c == 0x51 {
                self.bits.push(true);
                self.bits.push(true);
            } else if c == 0x7a || c == 0x5a {
                self.bits.push(false);
                self.bits.push(true);
            } else if c == 0x73 || c == 0x53 {
                self.bits.push(true);
                self.bits.push(false);
            }
            proof {
                assert(self.bits@ =~= old(self).bits@ + symbol_bits(c));
            }
            None
        }
    }
}

/// Reading `a` and then `b` is reading `a + b`: the states chain and the
/// chords played come one after the other.
pub proof fn lemma_run_append(s: InterpreterView, a: Seq<u8>, b: Seq<u8>)
    ensures
        run(s, a + b) == (run(run(s, a).0, b).0, run(s, a).1 + run(run(s, a).0, b).1),
    decreases b.len(),
{
    let mid = run(s, a).0;
    if b.len() == 0 {
        assert(a + b =~= a);
        assert(run(s, a).1 + Seq::<Seq<(u64, u64)>>::empty() =~= run(s, a).1);
    } else {
        lemma_run_append(s, a, b.drop_last());
        assert((a + b).drop_last() =~= a + b.drop_last());
        assert((a + b).last() == b.last());
        let played = run(s, a).1;
        let rest = run(mid, b.drop_last()).1;
        match next(run(mid, b.drop_last()).0, b.last()).1 {
            Some(chord) => {
                assert(played + rest.push(chord) =~= (played + rest).push(chord));
            },
            None => {},
        }
    }
}

proof fn lemma_run_inside_comment(s: InterpreterView, t: Seq<u8>, k: int)
    requires
        !s.skipping,
        0 <= k <= t.len(),
        forall|i: int| 0 <= i < t.len() ==> t[i] != NEWLINE,
    ensures
        run(s, seq![COMMENT] + t.subrange(0, k)) == (
        InterpreterView { skipping: true, ..s },
        Seq::<Seq<(u64, u64)>>::empty(),
        ),
    decreases k,
{
    let input = seq![COMMENT] + t.subrange(0, k);
    if k == 0 {
        assert(input.drop_last() =~= Seq::<u8>::empty());
        assert(input.last() == COMMENT);
        assert(run(s, Seq::<u8>::empty()) == (s, Seq::<Seq<(u64, u64)>>::empty()));
    } else {
        lemma_run_inside_comment(s, t, k - 1);
        assert(input.drop_last() =~= seq![COMMENT] + t.subrange(0, k - 1));
        assert(input.last() == t[k - 1]);
        assert(t[k - 1] != NEWLINE);
    }
}

/// A comment line, from the marker up to and including its newline, leaves
/// the interpreter as it found it when it was not already skipping: whatever
/// follows is read exactly as if the line were not there.
pub proof fn lemma_comment_line_ignored(s: InterpreterView, t: Seq<u8>, rest: Seq<u8>)
    requires
        !s.skipping,
        forall|i: int| 0 <= i < t.len() ==> t[i] != NEWLINE,
    ensures
        run(s, seq![COMMENT] + t + seq![NEWLINE]) == (s, Seq::<Seq<(u64, u64)>>::empty()),
        run(s, seq![COMMENT] + t + seq![NEWLINE] + rest) == run(s, rest),
{
    let line = seq![COMMENT] + t + seq![NEWLINE];
    lemma_run_inside_comment(s, t, t.len() as int);
    assert(t.subrange(0, t.len() as int) =~= t);
    assert(line.drop_last() =~= seq![COMMENT] + t);
    assert(line.last() == NEWLINE);
    assert(InterpreterView { skipping: false, ..InterpreterView { skipping: true, ..s } } == s);
    lemma_run_append(s, line, rest);
    assert(Seq::<Seq<(u64, u64)>>::empty() + run(s, rest).1 =~= run(s, rest).1);
}

} // verus!
