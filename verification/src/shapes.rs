//! The shapes an agent can take, and the order in which the user cycles
//! through them. The geometry of each shape (its collider and its mesh) lives
//! with whoever has a physics engine or a screen in front of it.

use vstd::prelude::*;

verus! {

#[derive(Clone, Copy, PartialEq, Eq, Debug, Structural)]
pub enum ShapeKind {
    Ball,
    Square,
    Triangle,
    Capsule,
}

impl Default for ShapeKind {
    fn default() -> (s: Self)
        ensures
            s == ShapeKind::Ball,
    {
        ShapeKind::Ball
    }
}

impl ShapeKind {
    /// Every shape, in the order in which the user cycles through them.
    pub const ALL: [ShapeKind; 4] = [
        ShapeKind::Ball,
        ShapeKind::Square,
        ShapeKind::Triangle,
        ShapeKind::Capsule,
    ];

    /// Position of the shape in [`ShapeKind::ALL`].
    pub open spec fn ordinal(self) -> int {
        match self {
            ShapeKind::Ball => 0,
            ShapeKind::Square => 1,
            ShapeKind::Triangle => 2,
            ShapeKind::Capsule => 3,
        }
    }

    /// The shape at position `i` of the cycle, taken modulo its length.
    pub open spec fn at_ordinal(i: int) -> ShapeKind {
        let k = i % 4;
        if k == 0 {
            ShapeKind::Ball
        } else if k == 1 {
            ShapeKind::Square
        } else if k == 2 {
            ShapeKind::Triangle
        } else {
            ShapeKind::Capsule
        }
    }

    /// The name shown to the user.
    pub open spec fn label_text(self) -> Seq<char> {
        match self {
            ShapeKind::Ball => "circulo"@,
            ShapeKind::Square => "cuadrado"@,
            ShapeKind::Triangle => "triangulo"@,
            ShapeKind::Capsule => "capsula"@,
        }
    }

    fn position(self) -> (i: usize)
        ensures
            i == self.ordinal(),
            Self::ALL@[i as int] == self,
    {
        let mut i: usize = 0;
        while i < 4
            invariant
                i <= 4,
                forall|j: int| 0 <= j < i ==> Self::ALL@[j] != self,
            decreases 4 - i,
        {
            if Self::ALL[i] == self {
                return i;
            }
            i = i + 1;
        }
        proof {
            assert(Self::ALL@[self.ordinal()] == self);
        }
        0
    }

    /// The following shape in the cycle; after the last comes the first.
    pub fn next(self) -> (s: Self)
        ensures
            s == Self::at_ordinal(self.ordinal() + 1),
    {
        let i = self.position();
        Self::ALL[(i + 1) % 4]
    }

    /// The preceding shape in the cycle; before the first comes the last.
    pub fn prev(self) -> (s: Self)
        ensures
            s == Self::at_ordinal(self.ordinal() + 3),
    {
        let i = self.position();
        Self::ALL[(i + 4 - 1) % 4]
    }

    pub fn label(self) -> (l: &'static str)
        ensures
            l@ == self.label_text(),
    {
        match self {
            ShapeKind::Ball => "circulo",
            ShapeKind::Square => "cuadrado",
            ShapeKind::Triangle => "triangulo",
            ShapeKind::Capsule => "capsula",
        }
    }
}

/// Stepping forwards and then backwards through the shapes, or the other way
/// round, comes back to where it started.
pub proof fn lemma_next_prev_inverse(s: ShapeKind)
    ensures
        ShapeKind::at_ordinal(ShapeKind::at_ordinal(s.ordinal() + 1).ordinal() + 3) == s,
        ShapeKind::at_ordinal(ShapeKind::at_ordinal(s.ordinal() + 3).ordinal() + 1) == s,
{
}

/// Four steps forwards visit every shape once and come back to the start.
pub proof fn lemma_next_cycles_through_all(s: ShapeKind)
    ensures
        ({
            let s1 = ShapeKind::at_ordinal(s.ordinal() + 1);
            let s2 = ShapeKind::at_ordinal(s1.ordinal() + 1);
            let s3 = ShapeKind::at_ordinal(s2.ordinal() + 1);
            let s4 = ShapeKind::at_ordinal(s3.ordinal() + 1);
            &&& s1 != s && s2 != s && s3 != s
            &&& s1 != s2 && s1 != s3 && s2 != s3
            &&& s4 == s
        }),
{
}

/// No two shapes share a label.
pub proof fn lemma_labels_are_distinct(a: ShapeKind, b: ShapeKind)
    requires
        a != b,
    ensures
        a.label_text() != b.label_text(),
{
    reveal_strlit("circulo");
    reveal_strlit("cuadrado");
    reveal_strlit("triangulo");
    reveal_strlit("capsula");
    assert("circulo"@[1] != "cuadrado"@[1]);
    assert("circulo"@[1] != "triangulo"@[1]);
    assert("circulo"@[1] != "capsula"@[1]);
    assert("cuadrado"@[0] != "triangulo"@[0]);
    assert("cuadrado"@[1] != "capsula"@[1]);
    assert("triangulo"@[0] != "capsula"@[0]);
}

} // verus!
