//! Colors and single units of mana.

use vstd::prelude::*;
use vstd::string::*;

verus! {

/// One of the five colors of mana.
#[derive(Debug, Clone, Copy, PartialEq, Eq, Structural)]
pub enum Color {
    Black,
    Blue,
    Green,
    Red,
    White,
}

impl Color {
    /// The bit that stands for this color in a set of colors.
    pub open spec fn bit(self) -> u8 {
        match self {
            Color::Black => 1u8,
            Color::Blue => 2u8,
            Color::Green => 4u8,
            Color::Red => 8u8,
            Color::White => 16u8,
        }
    }

    /// The bit that stands for this color in a set of colors.
    pub fn mask(self) -> (r: u8)
        ensures
            r == self.bit(),
    {
        match self {
            Color::Black => 1u8,
            Color::Blue => 2u8,
            Color::Green => 4u8,
            Color::Red => 8u8,
            Color::White => 16u8,
        }
    }

    /// The letter that a mana cost writes for this color.
    pub open spec fn letter(self) -> char {
        match self {
            Color::Black => 'B',
            Color::Blue => 'U',
            Color::Green => 'G',
            Color::Red => 'R',
            Color::White => 'W',
        }
    }
}

/// One unit of mana: the set of colors any one of which it stands for.
///
/// The empty set is a colorless unit, one color a monocolored unit, all five
/// a unit of any one color, and anything between a hybrid unit.
#[derive(Debug, Clone, Copy, PartialEq, Eq, Structural)]
pub struct Mana {
    colors: u8,
}

/// `1` where the condition holds, else `0`.
pub open spec fn one_if(condition: bool) -> nat {
    if condition {
        1
    } else {
        0
    }
}

proof fn lemma_bits_of_union(a: u8, b: u8, m: u8)
    by (bit_vector)
    ensures
        ((a | b) & m != 0) == ((a & m != 0) || (b & m != 0)),
        (a < 32 && b < 32) ==> (a | b) < 32,
{
}

proof fn lemma_bits_shared(a: u8, b: u8)
    by (bit_vector)
    requires
        a < 32,
        b < 32,
    ensures
        (a & b != 0) == ((a & 1 != 0 && b & 1 != 0) || (a & 2 != 0 && b & 2 != 0)
            || (a & 4 != 0 && b
            & 4 != 0) || (a & 8 != 0 && b & 8 != 0) || (a & 16 != 0 && b & 16 != 0)),
{
}

proof fn lemma_bits_of_constants()
    by (bit_vector)
    ensures
        0u8 & 1 == 0 && 0u8 & 2 == 0 && 0u8 & 4 == 0 && 0u8 & 8 == 0 && 0u8 & 16 == 0,
        1u8 & 1 != 0 && 1u8 & 2 == 0 && 1u8 & 4 == 0 && 1u8 & 8 == 0 && 1u8 & 16 == 0,
        2u8 & 1 == 0 && 2u8 & 2 != 0 && 2u8 & 4 == 0 && 2u8 & 8 == 0 && 2u8 & 16 == 0,
        4u8 & 1 == 0 && 4u8 & 2 == 0 && 4u8 & 4 != 0 && 4u8 & 8 == 0 && 4u8 & 16 == 0,
        8u8 & 1 == 0 && 8u8 & 2 == 0 && 8u8 & 4 == 0 && 8u8 & 8 != 0 && 8u8 & 16 == 0,
        16u8 & 1 == 0 && 16u8 & 2 == 0 && 16u8 & 4 == 0 && 16u8 & 8 == 0 && 16u8 & 16 != 0,
        31u8 & 1 != 0 && 31u8 & 2 != 0 && 31u8 & 4 != 0 && 31u8 & 8 != 0 && 31u8 & 16 != 0,
{
}

impl Mana {
    /// Only the five color bits are ever set.
    #[verifier::type_invariant]
    pub closed spec fn valid(self) -> bool {
        self.colors < 32
    }

    /// Whether `color` is one of the colors of this unit.
    pub closed spec fn has(self, color: Color) -> bool {
        self.colors & color.bit() != 0
    }

    /// The unit without a color.
    pub closed spec fn blank() -> Mana {
        Mana { colors: 0u8 }
    }

    /// This unit with `color` as one more of its colors.
    pub closed spec fn with(self, color: Color) -> Mana {
        Mana { colors: self.colors | color.bit() }
    }

    /// The blank unit has no color.
    pub proof fn lemma_blank()
        ensures
            Mana::blank().valid(),
            Mana::blank().count() == 0,
            forall|color: Color| !(#[trigger] Mana::blank().has(color)),
    {
        lemma_bits_of_constants();
    }

    /// A unit with one more color has that color and those it had.
    pub proof fn lemma_with(self, color: Color)
        ensures
            self.valid() ==> self.with(color).valid(),
            forall|other: Color| #[trigger]
                self.with(color).has(other) == (self.has(other) || other == color),
    {
        assert forall|other: Color| #[trigger]
            self.with(color).has(other) == (self.has(other) || other == color) by {
            lemma_bits_of_union(self.colors, color.bit(), other.bit());
            lemma_bits_of_constants();
        }
        lemma_bits_of_union(self.colors, color.bit(), 1u8);
    }

    /// The set of colors of this unit.
    pub open spec fn view(self) -> Set<Color> {
        Set::new(|color: Color| self.has(color))
    }

    /// The number of colors of this unit.
    pub open spec fn count(self) -> nat {
        one_if(self.has(Color::Black)) + one_if(self.has(Color::Blue)) + one_if(
            self.has(Color::Green),
        ) + one_if(self.has(Color::Red)) + one_if(self.has(Color::White))
    }

    /// A hybrid unit has at least two colors and not all five.
    pub open spec fn is_hybrid(self) -> bool {
        2 <= self.count() < 5
    }

    /// Whether the two units have a color in common.
    pub open spec fn shares_color_with(self, other: Mana) -> bool {
        exists|color: Color| self.has(color) && other.has(color)
    }

    /// Whether a unit of this kind can cover the requirement `other`: any unit
    /// covers a colorless requirement, and a colored requirement is covered by
    /// a unit that shares a color with it.
    pub open spec fn pays(self, other: Mana) -> bool {
        other.count() == 0 || self.shares_color_with(other)
    }

    /// The colorless unit.
    pub fn new() -> (r: Mana)
        ensures
            r == Mana::blank(),
            r.valid(),
            forall|color: Color| !(#[trigger] r.has(color)),
    {
        proof {
            lemma_bits_of_constants();
        }
        Mana { colors: 0u8 }
    }

    /// The colorless unit.
    pub fn colorless() -> (r: Mana)
        ensures
            r.valid(),
            forall|color: Color| !(#[trigger] r.has(color)),
    {
        Mana::new()
    }

    /// The unit of one color.
    pub fn make_mono(a: Color) -> (r: Mana)
        ensures
            r.valid(),
            forall|color: Color| #[trigger] r.has(color) == (color == a),
    {
        proof {
            lemma_bits_of_constants();
        }
        Mana { colors: a.mask() }
    }

    /// The unit that either of two colors pays.
    pub fn make_dual(a: Color, b: Color) -> (r: Mana)
        ensures
            r.valid(),
            forall|color: Color| #[trigger] r.has(color) == (color == a || color == b),
    {
        proof {
            lemma_bits_of_constants();
            assert forall|color: Color|
                ((a.bit() | b.bit()) & color.bit() != 0) == (color == a || color == b) by {
                lemma_bits_of_union(a.bit(), b.bit(), color.bit());
            }
            lemma_bits_of_union(a.bit(), b.bit(), 1u8);
        }
        Mana { colors: a.mask() | b.mask() }
    }

    /// The unit that any of three colors pays.
    pub fn make_triple(a: Color, b: Color, c: Color) -> (r: Mana)
        ensures
            r.valid(),
            forall|color: Color| #[trigger] r.has(color) == (color == a || color == b || color
                == c),
    {
        proof {
            lemma_bits_of_constants();
            assert forall|color: Color|
                (((a.bit() | b.bit()) | c.bit()) & color.bit() != 0) == (color == a || color == b
                    || color == c) by {
                lemma_bits_of_union(a.bit(), b.bit(), color.bit());
                lemma_bits_of_union(a.bit() | b.bit(), c.bit(), color.bit());
            }
            lemma_bits_of_union(a.bit(), b.bit(), 1u8);
            lemma_bits_of_union(a.bit() | b.bit(), c.bit(), 1u8);
        }
        Mana { colors: (a.mask() | b.mask()) | c.mask() }
    }

    /// The black unit.
    pub fn black() -> (r: Mana)
        ensures
            r.valid(),
            forall|color: Color| #[trigger] r.has(color) == (color == Color::Black),
    {
        Mana::make_mono(Color::Black)
    }

    /// The blue unit.
    pub fn blue() -> (r: Mana)
        ensures
            r.valid(),
            forall|color: Color| #[trigger] r.has(color) == (color == Color::Blue),
    {
        Mana::make_mono(Color::Blue)
    }

    /// The green unit.
    pub fn green() -> (r: Mana)
        ensures
            r.valid(),
            forall|color: Color| #[trigger] r.has(color) == (color == Color::Green),
    {
        Mana::make_mono(Color::Green)
    }

    /// The red unit.
    pub fn red() -> (r: Mana)
        ensures
            r.valid(),
            forall|color: Color| #[trigger] r.has(color) == (color == Color::Red),
    {
        Mana::make_mono(Color::Red)
    }

    /// The white unit.
    pub fn white() -> (r: Mana)
        ensures
            r.valid(),
            forall|color: Color| #[trigger] r.has(color) == (color == Color::White),
    {
        Mana::make_mono(Color::White)
    }

    /// The unit that any one color pays.
    pub fn any() -> (r: Mana)
        ensures
            r.valid(),
            forall|color: Color| #[trigger] r.has(color),
    {
        proof {
            lemma_bits_of_constants();
        }
        Mana { colors: 31u8 }
    }

    /// Adds the color that a one-letter symbol names; `C` adds none.
    ///
    /// Any other text is refused, and the unit stays as it was.
    pub fn set_from_string(&mut self, value: &str) -> (r: Result<(), String>)
        ensures
            final(self).valid(),
            match symbol_color(value@) {
                Some(Some(named)) => r is Ok && *final(self) == old(self).with(named)
                    && forall|color: Color| #[trigger]
                    final(self).has(color) == (old(self).has(color) || color == named),
                Some(None) => r is Ok && *final(self) == *old(self),
                None => *final(self) == *old(self) && r is Err && r->Err_0@ == bad_symbol_message(
                    value@,
                ),
            },
    {
        proof {
            use_type_invariant(&*self);
        }
        match read_symbol(value) {
            Some(Some(named)) => {
                let ghost before = *self;
                let merged = self.colors | named.mask();
                proof {
                    lemma_bits_of_union(self.colors, named.bit(), 1u8);
                }
                self.colors = merged;
                proof {
                    assert forall|color: Color| #[trigger]
                        self.has(color) == (before.has(color) || color == named) by {
                        lemma_bits_of_union(before.colors, named.bit(), color.bit());
                        lemma_bits_of_constants();
                    }
                }
                Ok(())
            },
            Some(None) => Ok(()),
            None => {
                let message = String::from_str("bad mana string '").concat(value).concat("'");
                Err(message)
            },
        }
    }

    /// Adds the colors of `other` to those of this unit.
    pub fn unite(&mut self, other: &Mana)
        ensures
            final(self).valid(),
            forall|color: Color| #[trigger]
                final(self).has(color) == (old(self).has(color) || other.has(color)),
    {
        proof {
            use_type_invariant(&*self);
            use_type_invariant(other);
        }
        let ghost before = *self;
        let merged = self.colors | other.colors;
        proof {
            lemma_bits_of_union(self.colors, other.colors, 1u8);
        }
        self.colors = merged;
        proof {
            assert forall|color: Color| #[trigger]
                self.has(color) == (before.has(color) || other.has(color)) by {
                lemma_bits_of_union(before.colors, other.colors, color.bit());
            }
        }
    }

    /// Whether the unit has no color.
    pub fn is_colorless(&self) -> (r: bool)
        ensures
            r == (self.count() == 0),
    {
        proof {
            use_type_invariant(self);
            lemma_bits_shared(self.colors, self.colors);
            assert(self.colors & self.colors == self.colors) by (bit_vector);
        }
        self.colors == 0
    }

    /// Whether the unit has exactly one color.
    pub fn is_monocolor(&self) -> (r: bool)
        ensures
            r == (self.count() == 1),
    {
        self.color_count() == 1
    }

    /// Whether a unit of this kind can cover the requirement `other`.
    pub fn can_pay_for(&self, other: &Mana) -> (r: bool)
        ensures
            r == self.pays(*other),
    {
        proof {
            use_type_invariant(self);
            use_type_invariant(other);
            lemma_bits_shared(self.colors, other.colors);
            if self.colors & other.colors != 0 {
                let color = if self.has(Color::Black) && other.has(Color::Black) {
                    Color::Black
                } else if self.has(Color::Blue) && other.has(Color::Blue) {
                    Color::Blue
                } else if self.has(Color::Green) && other.has(Color::Green) {
                    Color::Green
                } else if self.has(Color::Red) && other.has(Color::Red) {
                    Color::Red
                } else {
                    Color::White
                };
                assert(self.has(color) && other.has(color));
            }
        }
        other.is_colorless() || (self.colors & other.colors != 0)
    }

    /// Whether `color` is one of the colors of this unit.
    pub fn contains(&self, color: Color) -> (r: bool)
        ensures
            r == self.has(color),
    {
        self.colors & color.mask() != 0
    }

    /// Whether the two units hold the same colors.
    pub fn can_pay_for_exactly(&self, other: &Mana) -> (r: bool)
        ensures
            r == (*self == *other),
    {
        self.colors == other.colors
    }

    /// The number of colors of this unit.
    pub fn color_count(&self) -> (r: u32)
        ensures
            r == self.count(),
    {
        let mut n: u32 = 0;
        if self.contains(Color::Black) {
            n = n + 1;
        }
        if self.contains(Color::Blue) {
            n = n + 1;
        }
        if self.contains(Color::Green) {
            n = n + 1;
        }
        if self.contains(Color::Red) {
            n = n + 1;
        }
        if self.contains(Color::White) {
            n = n + 1;
        }
        n
    }

    /// The colors of this unit, in the order black, blue, green, red, white.
    pub fn color_list(&self) -> (r: Vec<Color>)
        ensures
            r@ == self.colors_in_order(),
    {
        let mut list: Vec<Color> = Vec::new();
        if self.contains(Color::Black) {
            list.push(Color::Black);
        }
        if self.contains(Color::Blue) {
            list.push(Color::Blue);
        }
        if self.contains(Color::Green) {
            list.push(Color::Green);
        }
        if self.contains(Color::Red) {
            list.push(Color::Red);
        }
        if self.contains(Color::White) {
            list.push(Color::White);
        }
        list
    }

    /// The colors of this unit, in the order black, blue, green, red, white.
    pub open spec fn colors_in_order(self) -> Seq<Color> {
        only_if(self.has(Color::Black), Color::Black) + only_if(self.has(Color::Blue), Color::Blue)
            + only_if(self.has(Color::Green), Color::Green) + only_if(
            self.has(Color::Red),
            Color::Red,
        ) + only_if(self.has(Color::White), Color::White)
    }

    /// A color is in the ordered list exactly if the unit has it.
    pub proof fn lemma_colors_in_order(self, color: Color)
        ensures
            self.colors_in_order().contains(color) == self.has(color),
            self.colors_in_order().len() == self.count(),
    {
        let list = self.colors_in_order();
        let b = only_if(self.has(Color::Black), Color::Black);
        let u = only_if(self.has(Color::Blue), Color::Blue);
        let g = only_if(self.has(Color::Green), Color::Green);
        let r = only_if(self.has(Color::Red), Color::Red);
        let w = only_if(self.has(Color::White), Color::White);
        if self.has(color) {
            let at = match color {
                Color::Black => 0,
                Color::Blue => b.len() as int,
                Color::Green => (b.len() + u.len()) as int,
                Color::Red => (b.len() + u.len() + g.len()) as int,
                Color::White => (b.len() + u.len() + g.len() + r.len()) as int,
            };
            assert(list[at] == color);
        }
    }
}

/// The one-item sequence of `color` where the condition holds, else the empty
/// one.
pub open spec fn only_if(condition: bool, color: Color) -> Seq<Color> {
    if condition {
        seq![color]
    } else {
        Seq::empty()
    }
}

/// What a one-letter mana symbol names: a color, nothing (`C`), or, for any
/// other text, no symbol at all.
pub open spec fn symbol_color(text: Seq<char>) -> Option<Option<Color>> {
    if text.len() != 1 {
        None
    } else if text[0] == 'C' {
        Some(None)
    } else if text[0] == 'B' {
        Some(Some(Color::Black))
    } else if text[0] == 'U' {
        Some(Some(Color::Blue))
    } else if text[0] == 'G' {
        Some(Some(Color::Green))
    } else if text[0] == 'R' {
        Some(Some(Color::Red))
    } else if text[0] == 'W' {
        Some(Some(Color::White))
    } else {
        None
    }
}

/// Whether one of the letters names the color.
pub open spec fn names_color(letters: Seq<String>, color: Color) -> bool {
    exists|k: int|
        0 <= k < letters.len() && symbol_color(#[trigger] letters[k]@) == Some(Some(color))
}

/// The unit of the colors that the letters name. A text that names no color
/// adds none.
pub fn unit_of_letters(letters: &Vec<String>) -> (r: Mana)
    ensures
        forall|color: Color| #[trigger] r.has(color) == names_color(letters@, color),
{
    let mut unit = Mana::new();
    let mut i: usize = 0;
    while i < letters.len()
        invariant
            i <= letters@.len(),
            forall|color: Color| #[trigger]
                unit.has(color) == names_color(letters@.take(i as int), color),
        decreases letters@.len() - i,
    {
        let ghost before = unit;
        let _ = unit.set_from_string(letters[i].as_str());
        proof {
            let shorter = letters@.take(i as int);
            let longer = letters@.take(i + 1);
            assert forall|color: Color| #[trigger]
                unit.has(color) == names_color(longer, color) by {
                if names_color(shorter, color) {
                    let k = choose|k: int|
                        0 <= k < shorter.len() && symbol_color(#[trigger] shorter[k]@) == Some(
                            Some(color),
                        );
                    assert(longer[k] == shorter[k]);
                }
                if names_color(longer, color) {
                    let k = choose|k: int|
                        0 <= k < longer.len() && symbol_color(#[trigger] longer[k]@) == Some(
                            Some(color),
                        );
                    if k < i {
                        assert(shorter[k] == longer[k]);
                    }
                }
                assert(longer[i as int] == letters@[i as int]);
                assert(before.has(color) == names_color(shorter, color));
            }
        }
        i += 1;
    }
    proof {
        assert(letters@.take(i as int) == letters@);
    }
    unit
}

/// The message that refuses `text` as a mana symbol.
pub open spec fn bad_symbol_message(text: Seq<char>) -> Seq<char> {
    "bad mana string '"@ + text + "'"@
}

/// Reads a one-letter mana symbol.
pub fn read_symbol(value: &str) -> (r: Option<Option<Color>>)
    ensures
        r == symbol_color(value@),
{
    if value.unicode_len() != 1 {
        return None;
    }
    let letter = value.get_char(0);
    if letter == 'C' {
        Some(None)
    } else if letter == 'B' {
        Some(Some(Color::Black))
    } else if letter == 'U' {
        Some(Some(Color::Blue))
    } else if letter == 'G' {
        Some(Some(Color::Green))
    } else if letter == 'R' {
        Some(Some(Color::Red))
    } else if letter == 'W' {
        Some(Some(Color::White))
    } else {
        None
    }
}

} // verus!
