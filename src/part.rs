//! Edge labels: a colour together with a polarity.
use vstd::prelude::*;

verus! {

/// The colour of an edge label.
#[derive(Clone, Copy, Debug, PartialEq, Eq, Structural)]
pub enum Color {
    Purple,
    Green,
    Yellow,
    Blue,
}

/// The polarity of an edge label.
#[derive(Clone, Copy, Debug, PartialEq, Eq, Structural)]
pub enum LowerUpper {
    Lower,
    Upper,
}

/// The label printed on one side of a tile.
#[derive(Clone, Copy, Debug, PartialEq, Eq, Structural)]
pub struct Part {
    pub color: Color,
    pub lower_upper: LowerUpper,
}

/// Two labels fit together: the same colour, opposite polarities.
pub open spec fn labels_match(x: Part, y: Part) -> bool {
    x.color == y.color && x.lower_upper != y.lower_upper
}

/// The characters that name a label: the colour's initial, in upper case
/// for the upper polarity and in lower case for the lower one.
pub open spec fn is_label_char(c: char) -> bool {
    c == 'P' || c == 'p' || c == 'G' || c == 'g' || c == 'Y' || c == 'y' || c == 'B' || c == 'b'
}

pub open spec fn color_of_char(c: char) -> Color {
    if c == 'P' || c == 'p' {
        Color::Purple
    } else if c == 'G' || c == 'g' {
        Color::Green
    } else if c == 'Y' || c == 'y' {
        Color::Yellow
    } else {
        Color::Blue
    }
}

pub open spec fn polarity_of_char(c: char) -> LowerUpper {
    if c == 'P' || c == 'G' || c == 'Y' || c == 'B' {
        LowerUpper::Upper
    } else {
        LowerUpper::Lower
    }
}

/// The label that a label character names.
pub open spec fn label_of_char(c: char) -> Part {
    Part { color: color_of_char(c), lower_upper: polarity_of_char(c) }
}

impl Part {
    pub fn new(color: Color, lower_upper: LowerUpper) -> (r: Self)
        ensures
            r.color == color,
            r.lower_upper == lower_upper,
    {
        Part { color, lower_upper }
    }

    pub fn color(&self) -> (r: Color)
        ensures
            r == self.color,
    {
        self.color
    }

    pub fn lower_upper(&self) -> (r: LowerUpper)
        ensures
            r == self.lower_upper,
    {
        self.lower_upper
    }

    /// Whether this label fits the label `other` on a touching side.
    pub fn matches(&self, other: Part) -> (r: bool)
        ensures
            r == labels_match(*self, other),
    {
        self.color == other.color && self.lower_upper != other.lower_upper
    }

    /// The label that the character `value` names.
    pub fn from(value: char) -> (r: Self)
        requires
            is_label_char(value),
        ensures
            r == label_of_char(value),
    {
        match value {
            'P' => Part::new(Color::Purple, LowerUpper::Upper),
            'p' => Part::new(Color::Purple, LowerUpper::Lower),
            'G' => Part::new(Color::Green, LowerUpper::Upper),
            'g' => Part::new(Color::Green, LowerUpper::Lower),
            'Y' => Part::new(Color::Yellow, LowerUpper::Upper),
            'y' => Part::new(Color::Yellow, LowerUpper::Lower),
            'B' => Part::new(Color::Blue, LowerUpper::Upper),
            _ => Part::new(Color::Blue, LowerUpper::Lower),
        }
    }

    /// The character that names this label; `Part::from` reads it back.
    pub fn to_char(&self) -> (r: char)
        ensures
            is_label_char(r),
            label_of_char(r) == *self,
    {
        match (self.color, self.lower_upper) {
            (Color::Purple, LowerUpper::Upper) => 'P',
            (Color::Purple, LowerUpper::Lower) => 'p',
            (Color::Green, LowerUpper::Upper) => 'G',
            (Color::Green, LowerUpper::Lower) => 'g',
            (Color::Yellow, LowerUpper::Upper) => 'Y',
            (Color::Yellow, LowerUpper::Lower) => 'y',
            (Color::Blue, LowerUpper::Upper) => 'B',
            (Color::Blue, LowerUpper::Lower) => 'b',
        }
    }
}

/// Matching is symmetric: `x` fits `y` exactly when `y` fits `x`.
pub proof fn lemma_matches_symmetric(x: Part, y: Part)
    ensures
        labels_match(x, y) == labels_match(y, x),
{
}

/// Two labels fit exactly when their colours agree and their polarities
/// differ; in particular no label fits itself.
pub proof fn lemma_matches_exact(x: Part, y: Part)
    ensures
        labels_match(x, y) <==> (x.color == y.color && x.lower_upper != y.lower_upper),
        !labels_match(x, x),
        x.color != y.color ==> !labels_match(x, y),
        x.lower_upper == y.lower_upper ==> !labels_match(x, y),
{
}

} // verus!
