//! The value domain: a fixed, closed, totally ordered set of symbolic notes
//! with a pure display-name projection. Comparison never looks at the names.

use vstd::prelude::*;

verus! {

/// One symbolic note. The domain order is C < D < E < F < G < A < B,
/// the rank given by [`Note::ord`].
#[derive(Clone, Copy, Debug, PartialEq, Eq, Structural)]
pub enum Note {
    C,
    D,
    E,
    F,
    G,
    A,
    B,
}

impl Note {
    /// Rank of this note in the domain's total order.
    pub open spec fn ord(self) -> int {
        match self {
            Note::C => 0,
            Note::D => 1,
            Note::E => 2,
            Note::F => 3,
            Note::G => 4,
            Note::A => 5,
            Note::B => 6,
        }
    }

    /// The display name of this note, as a sequence of characters.
    pub open spec fn name(self) -> Seq<char> {
        match self {
            Note::C => seq!['c'],
            Note::D => seq!['d'],
            Note::E => seq!['e'],
            Note::F => seq!['f'],
            Note::G => seq!['g'],
            Note::A => seq!['a'],
            Note::B => seq!['b'],
        }
    }

    /// Executable rank; the engine compares notes through it.
    pub fn ordinal(self) -> (r: u8)
        ensures
            r as int == self.ord(),
    {
        match self {
            Note::C => 0,
            Note::D => 1,
            Note::E => 2,
            Note::F => 3,
            Note::G => 4,
            Note::A => 5,
            Note::B => 6,
        }
    }
}

/// `a` is strictly below `b` in the domain order.
pub open spec fn lt(a: Note, b: Note) -> bool {
    a.ord() < b.ord()
}

/// `a` is at or below `b` in the domain order.
pub open spec fn le(a: Note, b: Note) -> bool {
    a.ord() <= b.ord()
}

/// Executable strict comparison: the only ordering operation the engine uses.
pub fn note_lt(a: Note, b: Note) -> (r: bool)
    ensures
        r == lt(a, b),
{
    a.ordinal() < b.ordinal()
}

/// Display name of one note.
pub fn note_to_string(note: &Note) -> (r: &'static str)
    ensures
        r@ == note.name(),
{
    proof {
        reveal_strlit("c");
        reveal_strlit("d");
        reveal_strlit("e");
        reveal_strlit("f");
        reveal_strlit("g");
        reveal_strlit("a");
        reveal_strlit("b");
        assert("c"@ =~= seq!['c']);
        assert("d"@ =~= seq!['d']);
        assert("e"@ =~= seq!['e']);
        assert("f"@ =~= seq!['f']);
        assert("g"@ =~= seq!['g']);
        assert("a"@ =~= seq!['a']);
        assert("b"@ =~= seq!['b']);
    }
    match note {
        Note::C => "c",
        Note::D => "d",
        Note::E => "e",
        Note::F => "f",
        Note::G => "g",
        Note::A => "a",
        Note::B => "b",
    }
}

/// Display names of a whole sequence of notes, in order. This is the
/// projection a renderer reads; it never feeds back into sorting.
pub fn cells_to_arr(cells: &Vec<Note>) -> (r: Vec<&'static str>)
    ensures
        r@.len() == cells@.len(),
        forall|i: int| 0 <= i < cells@.len() ==> r@[i]@ == cells@[i].name(),
{
    let mut r: Vec<&'static str> = Vec::new();
    let mut i: usize = 0;
    while i < cells.len()
        invariant
            i <= cells@.len(),
            r@.len() == i,
            forall|k: int| 0 <= k < i ==> r@[k]@ == cells@[k].name(),
        decreases cells@.len() - i,
    {
        r.push(note_to_string(&cells[i]));
        i += 1;
    }
    r
}

} // verus!
