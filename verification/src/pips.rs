//! Counting colored symbols: how much of each color a pile of cards asks for,
//! or a pool of mana offers, and which colors are most in demand.

use vstd::prelude::*;
use crate::mana::{one_if, Color, Mana};
use crate::pool::{ManaPool, PoolView};
use crate::zone::Zone;
use crate::card::Card;
use crate::seqs::{first_index, lemma_first_index_is};
use crate::zone::data_ok;

verus! {

/// How often each color was counted.
#[derive(Debug, Clone, Copy, PartialEq, Eq, Structural)]
pub struct PipCounts {
    black: u64,
    blue: u64,
    green: u64,
    red: u64,
    white: u64,
}

/// The place of a color in the order black, blue, green, red, white.
pub open spec fn place(color: Color) -> int {
    match color {
        Color::Black => 0,
        Color::Blue => 1,
        Color::Green => 2,
        Color::Red => 3,
        Color::White => 4,
    }
}

/// How many of the units have `color` among their colors.
pub open spec fn units_with(units: Seq<Mana>, color: Color) -> nat
    decreases units.len(),
{
    if units.len() == 0 {
        0
    } else {
        units_with(units.drop_last(), color) + one_if(units.last().has(color))
    }
}

/// How many units of a pool have `color` among their colors: those of that
/// single color, those of any color, and the hybrid units that have it.
pub open spec fn pips_of(pool: PoolView, color: Color) -> nat {
    pool.of(color) + pool.all + units_with(pool.multi, color)
}

/// How many units of the mana costs of `cards` have `color` among their
/// colors.
pub open spec fn pips_in_costs<'db>(cards: Seq<Card<'db>>, color: Color) -> nat
    decreases cards.len(),
{
    if cards.len() == 0 {
        0
    } else {
        pips_in_costs(cards.drop_last(), color) + match cards.last().data.mana_cost {
            Some(cost) => pips_of(cost@, color),
            None => 0,
        }
    }
}

impl PipCounts {
    /// How often `color` was counted.
    pub closed spec fn of(self, color: Color) -> nat {
        match color {
            Color::Black => self.black as nat,
            Color::Blue => self.blue as nat,
            Color::Green => self.green as nat,
            Color::Red => self.red as nat,
            Color::White => self.white as nat,
        }
    }

    /// The counts taken together are a number that one counter holds.
    pub open spec fn wf(self) -> bool {
        self.sum() <= u64::MAX
    }

    /// How often any color was counted.
    pub open spec fn sum(self) -> nat {
        self.of(Color::Black) + self.of(Color::Blue) + self.of(Color::Green) + self.of(Color::Red)
            + self.of(Color::White)
    }

    /// By how much the share of `color` in these counts is above its share
    /// in `other`, the two shares brought to one denominator; against counts
    /// that are all zero, the count itself.
    pub open spec fn lead(self, other: PipCounts, color: Color) -> int {
        if other.sum() == 0 {
            self.of(color) as int
        } else {
            self.of(color) * other.sum() - other.of(color) * self.sum()
        }
    }

    /// Whether `color` is counted here and has a larger share here than in
    /// `other`.
    pub open spec fn wants(self, other: PipCounts, color: Color) -> bool {
        self.of(color) > 0 && self.lead(other, color) > 0
    }

    /// Whether `a` comes before `b` among the colors in demand: the larger
    /// lead first, and black, blue, green, red, white among equal leads.
    pub open spec fn comes_before(self, other: PipCounts, a: Color, b: Color) -> bool {
        self.lead(other, a) > self.lead(other, b) || (self.lead(other, a) == self.lead(other, b)
            && place(a) < place(b))
    }

    /// Whether a color has a smaller lead than `color`.
    pub open spec fn smaller_lead(self, other: PipCounts, color: Color) -> spec_fn(Color) -> bool {
        |c: Color| self.lead(other, c) < self.lead(other, color)
    }

    /// The list of colors in demand with `color` put in, if it is in
    /// demand, before the first color of a smaller lead.
    pub open spec fn with_considered(self, other: PipCounts, list: Seq<Color>, color: Color) -> Seq<
        Color,
    > {
        if self.wants(other, color) {
            list.insert(first_index(list, self.smaller_lead(other, color)), color)
        } else {
            list
        }
    }

    /// The colors in demand, the color with the largest lead first, and
    /// black, blue, green, red, white among colors of one lead.
    pub open spec fn in_demand(self, other: PipCounts) -> Seq<Color> {
        self.with_considered(
            other,
            self.with_considered(
                other,
                self.with_considered(
                    other,
                    self.with_considered(
                        other,
                        self.with_considered(other, Seq::empty(), Color::Black),
                        Color::Blue,
                    ),
                    Color::Green,
                ),
                Color::Red,
            ),
            Color::White,
        )
    }

    /// The counts of the units of the mana costs of `cards`.
    pub closed spec fn of_costs<'db>(cards: Seq<Card<'db>>) -> PipCounts {
        PipCounts {
            black: pips_in_costs(cards, Color::Black) as u64,
            blue: pips_in_costs(cards, Color::Blue) as u64,
            green: pips_in_costs(cards, Color::Green) as u64,
            red: pips_in_costs(cards, Color::Red) as u64,
            white: pips_in_costs(cards, Color::White) as u64,
        }
    }

    /// The counts of the units of a pool.
    pub closed spec fn of_pool(pool: PoolView) -> PipCounts {
        PipCounts {
            black: pips_of(pool, Color::Black) as u64,
            blue: pips_of(pool, Color::Blue) as u64,
            green: pips_of(pool, Color::Green) as u64,
            red: pips_of(pool, Color::Red) as u64,
            white: pips_of(pool, Color::White) as u64,
        }
    }

    /// Counts that count each color as often as other counts are the same
    /// counts.
    pub proof fn lemma_same_counts(self, other: PipCounts)
        requires
            forall|color: Color| #[trigger] self.of(color) == other.of(color),
        ensures
            self == other,
    {
        assert(self.of(Color::Black) == other.of(Color::Black));
        assert(self.of(Color::Blue) == other.of(Color::Blue));
        assert(self.of(Color::Green) == other.of(Color::Green));
        assert(self.of(Color::Red) == other.of(Color::Red));
        assert(self.of(Color::White) == other.of(Color::White));
    }

    /// Counts of zero.
    pub fn new() -> (r: PipCounts)
        ensures
            r.wf(),
            forall|color: Color| #[trigger] r.of(color) == 0,
    {
        PipCounts { black: 0, blue: 0, green: 0, red: 0, white: 0 }
    }

    /// The counts given, in the order black, blue, green, red, white.
    pub fn from_counts(black: u64, blue: u64, green: u64, red: u64, white: u64) -> (r: PipCounts)
        requires
            black + blue + green + red + white <= u64::MAX,
        ensures
            r.wf(),
            r.of(Color::Black) == black,
            r.of(Color::Blue) == blue,
            r.of(Color::Green) == green,
            r.of(Color::Red) == red,
            r.of(Color::White) == white,
    {
        PipCounts { black, blue, green, red, white }
    }

    /// How often `color` was counted.
    pub fn count(&self, color: Color) -> (r: u64)
        ensures
            r == self.of(color),
    {
        match color {
            Color::Black => self.black,
            Color::Blue => self.blue,
            Color::Green => self.green,
            Color::Red => self.red,
            Color::White => self.white,
        }
    }

    /// Counts each color of the unit once.
    pub fn count_in_mana(&mut self, m: &Mana)
        requires
            old(self).sum() + 5 <= u64::MAX,
        ensures
            final(self).wf(),
            final(self).sum() == old(self).sum() + m.count(),
            forall|color: Color| #[trigger]
                final(self).of(color) == old(self).of(color) + one_if(m.has(color)),
    {
        if m.contains(Color::Black) {
            self.black += 1;
        }
        if m.contains(Color::Blue) {
            self.blue += 1;
        }
        if m.contains(Color::Green) {
            self.green += 1;
        }
        if m.contains(Color::Red) {
            self.red += 1;
        }
        if m.contains(Color::White) {
            self.white += 1;
        }
    }

    /// Counts, for each color, the units of the pool that have it among
    /// their colors.
    pub fn count_in_pool(&mut self, pool: &ManaPool)
        requires
            pool.wf(),
            old(self).sum() + 5 * u32::MAX <= u64::MAX,
        ensures
            final(self).wf(),
            final(self).sum() <= old(self).sum() + 5 * pool@.total(),
            forall|color: Color| #[trigger]
                final(self).of(color) == old(self).of(color) + pips_of(pool@, color),
            old(self).sum() == 0 ==> *final(self) == PipCounts::of_pool(pool@),
    {
        self.black += pool.black as u64 + pool.all as u64;
        self.blue += pool.blue as u64 + pool.all as u64;
        self.green += pool.green as u64 + pool.all as u64;
        self.red += pool.red as u64 + pool.all as u64;
        self.white += pool.white as u64 + pool.all as u64;
        match &pool.multi {
            Some(units) => {
                let ghost before = *self;
                let mut i: usize = 0;
                while i < units.len()
                    invariant
                        i <= units@.len(),
                        pool.wf(),
                        pool.multi == Some(*units),
                        old(self).sum() + 5 * u32::MAX <= u64::MAX,
                        before.sum() == old(self).sum() + pool@.black + pool@.blue + pool@.green
                            + pool@.red + pool@.white + 5 * pool@.all,
                        forall|color: Color| #[trigger]
                            before.of(color) == old(self).of(color) + pool@.of(color) + pool@.all,
                        self.sum() <= before.sum() + 5 * i,
                        forall|color: Color| #[trigger]
                            self.of(color) == before.of(color) + units_with(
                                units@.take(i as int),
                                color,
                            ),
                    decreases units@.len() - i,
                {
                    proof {
                        assert(units@.take(i + 1).drop_last() == units@.take(i as int));
                    }
                    self.count_in_mana(&units[i]);
                    i += 1;
                }
                proof {
                    assert(units@.take(i as int) == units@);
                }
            },
            None => {},
        }
        proof {
            if old(self).sum() == 0 {
                assert forall|color: Color| #[trigger]
                    self.of(color) == PipCounts::of_pool(pool@).of(color) by {
                    assert(self.of(color) == old(self).of(color) + pips_of(pool@, color));
                }
                self.lemma_same_counts(PipCounts::of_pool(pool@));
            }
        }
    }

    /// The colors in demand: each color that is counted here and has a
    /// larger share here than in `other`, the color with the largest lead
    /// first.
    pub fn prioritized_delta(&self, other: &PipCounts) -> (r: Vec<Color>)
        requires
            self.wf(),
            other.wf(),
        ensures
            r@ == self.in_demand(*other),
            forall|color: Color| #[trigger] r@.contains(color) == self.wants(*other, color),
            r@.no_duplicates(),
            forall|i: int, j: int|
                0 <= i < j < r@.len() ==> self.comes_before(*other, #[trigger] r@[i],
                    #[trigger] r@[j]),
    {
        let mut colors: Vec<Color> = Vec::new();
        self.consider(other, Color::Black, &mut colors);
        self.consider(other, Color::Blue, &mut colors);
        self.consider(other, Color::Green, &mut colors);
        self.consider(other, Color::Red, &mut colors);
        self.consider(other, Color::White, &mut colors);
        proof {
            assert forall|color: Color| #[trigger] colors@.contains(color) == self.wants(
                *other,
                color,
            ) by {
                assert(place(color) < 5);
            }
        }
        colors
    }

    /// By how much the share of `color` here is above its share in `other`;
    /// zero if it is not above it.
    fn lead_of(&self, other: &PipCounts, color: Color) -> (r: u128)
        requires
            self.wf(),
            other.wf(),
        ensures
            r == if self.lead(*other, color) > 0 {
                self.lead(*other, color)
            } else {
                0
            },
    {
        let theirs: u128 = other.black as u128 + other.blue as u128 + other.green as u128
            + other.red as u128 + other.white as u128;
        let ours: u128 = self.black as u128 + self.blue as u128 + self.green as u128
            + self.red as u128 + self.white as u128;
        let mine = self.count(color) as u128;
        if theirs == 0 {
            return mine;
        }
        let other_count = other.count(color) as u128;
        assert(mine * theirs <= 0xffff_ffff_ffff_ffff * 0xffff_ffff_ffff_ffff) by (nonlinear_arith)
            requires
                mine <= 0xffff_ffff_ffff_ffff,
                theirs <= 0xffff_ffff_ffff_ffff,
        ;
        assert(other_count * ours
            <= 0xffff_ffff_ffff_ffff * 0xffff_ffff_ffff_ffff) by (nonlinear_arith)
            requires
                other_count <= 0xffff_ffff_ffff_ffff,
                ours <= 0xffff_ffff_ffff_ffff,
        ;
        let a = mine * theirs;
        let b = other_count * ours;
        if a > b {
            a - b
        } else {
            0
        }
    }

    /// Puts `color` among the colors in demand, if it is in demand: after
    /// the colors whose lead is at least as large.
    #[verifier::rlimit(60)]
    fn consider(&self, other: &PipCounts, color: Color, colors: &mut Vec<Color>)
        requires
            self.wf(),
            other.wf(),
            forall|c: Color| #[trigger]
                old(colors)@.contains(c) == (place(c) < place(color) && self.wants(*other, c)),
            old(colors)@.no_duplicates(),
            forall|i: int, j: int|
                0 <= i < j < old(colors)@.len() ==> self.comes_before(
                    *other,
                    #[trigger] old(colors)@[i],
                    #[trigger] old(colors)@[j],
                ),
        ensures
            final(colors)@ == self.with_considered(*other, old(colors)@, color),
            forall|c: Color| #[trigger]
                final(colors)@.contains(c) == (place(c) <= place(color) && self.wants(*other, c)),
            final(colors)@.no_duplicates(),
            forall|i: int, j: int|
                0 <= i < j < final(colors)@.len() ==> self.comes_before(
                    *other,
                    #[trigger] final(colors)@[i],
                    #[trigger] final(colors)@[j],
                ),
    {
        let lead = self.lead_of(other, color);
        if self.count(color) == 0 || lead == 0 {
            proof {
                assert forall|c: Color| #[trigger]
                    colors@.contains(c) == (place(c) <= place(color) && self.wants(*other, c)) by {
                    if place(c) == place(color) {
                        assert(c == color);
                    }
                }
            }
            return ;
        }
        proof {
            assert forall|k: int| 0 <= k < colors@.len() implies self.lead(
                *other,
                #[trigger] colors@[k],
            ) > 0 by {
                assert(colors@.contains(colors@[k]));
            }
        }
        let mut at: usize = 0;
        while at < colors.len() && self.lead_of(other, colors[at]) >= lead
            invariant
                at <= colors@.len(),
                colors@ == old(colors)@,
                self.wf(),
                other.wf(),
                lead == self.lead(*other, color),
                lead > 0,
                forall|k: int|
                    0 <= k < colors@.len() ==> self.lead(*other, #[trigger] colors@[k]) > 0,
                forall|j: int|
                    0 <= j < at ==> self.lead(*other, #[trigger] colors@[j]) >= self.lead(
                        *other,
                        color,
                    ),
            decreases colors@.len() - at,
        {
            at += 1;
        }
        let ghost before = colors@;
        proof {
            assert forall|j: int| 0 <= j < at implies !self.smaller_lead(*other, color)(
                #[trigger] before[j],
            ) by {
                assert(self.lead(*other, before[j]) >= self.lead(*other, color));
            }
            lemma_first_index_is(before, self.smaller_lead(*other, color), at as int);
        }
        colors.insert(at, color);
        proof {
            assert forall|j: int| 0 <= j < before.len() implies place(#[trigger] before[j]) < place(
                color,
            ) && self.wants(*other, before[j]) by {
                assert(before.contains(before[j]));
            }
            assert forall|c: Color| #[trigger]
                colors@.contains(c) == (place(c) <= place(color) && self.wants(*other, c)) by {
                if colors@.contains(c) {
                    let k = choose|k: int| 0 <= k < colors@.len() && colors@[k] == c;
                    if k < at {
                        assert(before[k] == c);
                    } else if k > at {
                        assert(before[k - 1] == c);
                    }
                }
                if place(c) <= place(color) && self.wants(*other, c) {
                    if c == color {
                        assert(colors@[at as int] == c);
                    } else {
                        assert(place(c) != place(color));
                        assert(before.contains(c));
                        let k = choose|k: int| 0 <= k < before.len() && before[k] == c;
                        if k < at {
                            assert(colors@[k] == c);
                        } else {
                            assert(colors@[k + 1] == c);
                        }
                    }
                }
            }
            assert forall|i: int, j: int| 0 <= i < j < colors@.len() implies self.comes_before(
                *other,
                #[trigger] colors@[i],
                #[trigger] colors@[j],
            ) by {
                if j == at {
                    assert(before[i] == colors@[i]);
                } else if i == at {
                    assert(before[j - 1] == colors@[j]);
                    if at < before.len() {
                        assert(self.lead(*other, before[at as int]) < lead);
                        if j - 1 > at {
                            assert(self.comes_before(*other, before[at as int], before[j - 1]));
                        }
                    }
                } else {
                    let bi = if i < at { i } else { i - 1 };
                    let bj = if j < at { j } else { j - 1 };
                    assert(self.comes_before(*other, before[bi], before[bj]));
                }
            }
            assert forall|i: int, j: int|
                0 <= i < colors@.len() && 0 <= j < colors@.len() && i != j implies colors@[i]
                != colors@[j] by {
                let bi = if i < at { i } else { i - 1 };
                let bj = if j < at { j } else { j - 1 };
                if i != at && j != at {
                    assert(before[bi] != before[bj]);
                } else if i == at {
                    assert(place(before[bj]) < place(color));
                } else {
                    assert(place(before[bi]) < place(color));
                }
            }
        }
    }
}

/// The most cards whose costs can be counted without a counter running over.
pub const MAX_COUNTED_CARDS: usize = 0x3000_0000;

impl<'db> Zone<'db> {
    /// Counts, for each color, the units of the mana costs of the cards of
    /// the pile that have it among their colors.
    pub fn count_pips_in_mana_costs(&self) -> (r: PipCounts)
        requires
            self.cards@.len() <= MAX_COUNTED_CARDS,
            data_ok(self.cards@),
        ensures
            r.wf(),
            r == PipCounts::of_costs(self.cards@),
            forall|color: Color| #[trigger] r.of(color) == pips_in_costs(self.cards@, color),
    {
        let mut pip_counts = PipCounts::new();
        let mut i: usize = 0;
        while i < self.cards.len()
            invariant
                i <= self.cards@.len() <= MAX_COUNTED_CARDS,
                data_ok(self.cards@),
                pip_counts.sum() <= 5 * i * u32::MAX,
                forall|color: Color| #[trigger]
                    pip_counts.of(color) == pips_in_costs(self.cards@.take(i as int), color),
            decreases self.cards@.len() - i,
        {
            proof {
                assert(self.cards@.take(i + 1).drop_last() == self.cards@.take(i as int));
                assert(self.cards@[i as int].data.wf());
                assert(5 * i * u32::MAX + 5 * u32::MAX == 5 * (i
                    + 1) * u32::MAX) by (nonlinear_arith);
                assert(5 * (i + 1) * u32::MAX <= 5 * 0x3000_0000 * u32::MAX) by (nonlinear_arith)
                    requires
                        i + 1 <= 0x3000_0000,
                ;
            }
            match &self.cards[i].data.mana_cost {
                Some(cost) => pip_counts.count_in_pool(cost),
                None => {},
            }
            i += 1;
        }
        proof {
            assert(self.cards@.take(i as int) == self.cards@);
            assert forall|color: Color| #[trigger]
                pip_counts.of(color) == PipCounts::of_costs(self.cards@).of(color) by {
                assert(pip_counts.of(color) == pips_in_costs(self.cards@, color));
            }
            pip_counts.lemma_same_counts(PipCounts::of_costs(self.cards@));
        }
        pip_counts
    }
}

} // verus!
