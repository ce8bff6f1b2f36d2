//! Pools of mana: a cost to pay or a supply to pay it from.

use vstd::prelude::*;
use crate::mana::{one_if, Color, Mana};

verus! {

/// What a pool holds, as plain numbers: one count for each color, one for
/// colorless units, one for units of any color, and the hybrid units one by
/// one.
pub struct PoolView {
    pub black: nat,
    pub blue: nat,
    pub green: nat,
    pub red: nat,
    pub white: nat,
    pub colorless: nat,
    pub all: nat,
    pub multi: Seq<Mana>,
}

/// How much of `need` is left when `have` has been spent on it.
pub open spec fn shortfall(have: nat, need: nat) -> nat {
    if need > have {
        (need - have) as nat
    } else {
        0
    }
}

/// How often `color` occurs in `colors`.
pub open spec fn occurrences(colors: Seq<Color>, color: Color) -> nat
    decreases colors.len(),
{
    if colors.len() == 0 {
        0
    } else {
        occurrences(colors.drop_last(), color) + one_if(colors.last() == color)
    }
}

/// Whether `choice` names, for each unit of `units` in turn, one of the
/// colors of that unit.
pub open spec fn is_choice(choice: Seq<Color>, units: Seq<Mana>) -> bool {
    &&& choice.len() == units.len()
    &&& forall|i: int| 0 <= i < units.len() ==> (#[trigger] units[i]).has(choice[i])
}

/// Whether `at` is where `unit` first stands in `units`.
pub open spec fn is_first_at(units: Seq<Mana>, unit: Mana, at: int) -> bool {
    &&& 0 <= at < units.len()
    &&& units[at] == unit
    &&& forall|j: int| 0 <= j < at ==> units[j] != unit
}

/// Where `unit` first stands in `units`.
pub open spec fn first_at(units: Seq<Mana>, unit: Mana) -> int {
    choose|at: int| is_first_at(units, unit, at)
}

/// Whether each unit of `out` in turn can be struck from `units`, where to
/// strike a unit is to remove the first unit equal to it.
pub open spec fn can_strike(units: Seq<Mana>, out: Seq<Mana>) -> bool
    decreases out.len(),
{
    out.len() == 0 || (units.contains(out[0]) && can_strike(
        units.remove(first_at(units, out[0])),
        out.drop_first(),
    ))
}

/// `units` with each unit of `out` in turn struck from it, as far as that can
/// be done.
pub open spec fn struck(units: Seq<Mana>, out: Seq<Mana>) -> Seq<Mana>
    decreases out.len(),
{
    if out.len() == 0 || !units.contains(out[0]) {
        units
    } else {
        struck(units.remove(first_at(units, out[0])), out.drop_first())
    }
}

/// There is one place only where a unit first stands.
pub proof fn lemma_first_at(units: Seq<Mana>, unit: Mana, at: int)
    requires
        is_first_at(units, unit, at),
    ensures
        first_at(units, unit) == at,
        units.contains(unit),
{
    let chosen = first_at(units, unit);
    assert(is_first_at(units, unit, chosen));
    if chosen < at {
        assert(units[chosen] != unit);
    }
    if at < chosen {
        assert(units[at] != unit);
    }
}

/// Striking units leaves only units that were there, and as many fewer as
/// were struck.
pub proof fn lemma_struck(units: Seq<Mana>, out: Seq<Mana>)
    ensures
        forall|i: int|
            0 <= i < struck(units, out).len() ==> units.contains(#[trigger] struck(units, out)[i]),
        struck(units, out).len() <= units.len(),
        can_strike(units, out) ==> struck(units, out).len() + out.len() == units.len(),
    decreases out.len(),
{
    if out.len() == 0 || !units.contains(out[0]) {
        assert forall|i: int| 0 <= i < units.len() implies units.contains(#[trigger] units[i]) by {}
    } else {
        let at = first_at(units, out[0]);
        let i0 = choose|i: int| 0 <= i < units.len() && units[i] == out[0];
        let first = choose|i: int|
            0 <= i < units.len() && units[i] == out[0] && forall|j: int|
                0 <= j < i ==> units[j] != out[0];
        assert(is_first_at(units, out[0], at)) by {
            lemma_some_first(units, out[0], i0);
        }
        let rest = units.remove(at);
        lemma_struck(rest, out.drop_first());
        assert forall|i: int| 0 <= i < struck(units, out).len() implies units.contains(
            #[trigger] struck(units, out)[i],
        ) by {
            let unit = struck(rest, out.drop_first())[i];
            assert(rest.contains(unit));
            let k = choose|k: int| 0 <= k < rest.len() && rest[k] == unit;
            if k < at {
                assert(units[k] == unit);
            } else {
                assert(units[k + 1] == unit);
            }
        }
    }
}

/// A unit that stands somewhere stands somewhere first.
pub proof fn lemma_some_first(units: Seq<Mana>, unit: Mana, at: int)
    requires
        0 <= at < units.len(),
        units[at] == unit,
    ensures
        is_first_at(units, unit, first_at(units, unit)),
    decreases at,
{
    if exists|j: int| 0 <= j < at && units[j] == unit {
        let j = choose|j: int| 0 <= j < at && units[j] == unit;
        lemma_some_first(units, unit, j);
    } else {
        assert(is_first_at(units, unit, at));
    }
}

impl PoolView {
    /// The pool that holds nothing.
    pub open spec fn empty() -> PoolView {
        PoolView {
            black: 0,
            blue: 0,
            green: 0,
            red: 0,
            white: 0,
            colorless: 0,
            all: 0,
            multi: Seq::empty(),
        }
    }

    /// The number of units in the pool, whatever their colors.
    pub open spec fn total(self) -> nat {
        self.black + self.blue + self.green + self.red + self.white + self.colorless + self.all
            + self.multi.len()
    }

    /// The count kept for one color.
    pub open spec fn of(self, color: Color) -> nat {
        match color {
            Color::Black => self.black,
            Color::Blue => self.blue,
            Color::Green => self.green,
            Color::Red => self.red,
            Color::White => self.white,
        }
    }

    /// The pool with one more unit of the single color `color`.
    pub open spec fn with_color(self, color: Color) -> PoolView {
        match color {
            Color::Black => PoolView { black: self.black + 1, ..self },
            Color::Blue => PoolView { blue: self.blue + 1, ..self },
            Color::Green => PoolView { green: self.green + 1, ..self },
            Color::Red => PoolView { red: self.red + 1, ..self },
            Color::White => PoolView { white: self.white + 1, ..self },
        }
    }

    /// The pool with one more unit: counted where a count is kept for its
    /// kind, listed among the hybrid units otherwise.
    pub open spec fn added(self, unit: Mana) -> PoolView {
        if unit.count() == 0 {
            PoolView { colorless: self.colorless + 1, ..self }
        } else if unit.count() == 1 {
            if unit.has(Color::Black) {
                self.with_color(Color::Black)
            } else if unit.has(Color::Blue) {
                self.with_color(Color::Blue)
            } else if unit.has(Color::Green) {
                self.with_color(Color::Green)
            } else if unit.has(Color::Red) {
                self.with_color(Color::Red)
            } else {
                self.with_color(Color::White)
            }
        } else if unit.count() == 5 {
            PoolView { all: self.all + 1, ..self }
        } else {
            PoolView { multi: self.multi.push(unit), ..self }
        }
    }

    /// The pool with the units of `units` added one after the other.
    pub open spec fn added_all(self, units: Seq<Mana>) -> PoolView
        decreases units.len(),
    {
        if units.len() == 0 {
            self
        } else {
            self.added_all(units.drop_last()).added(units.last())
        }
    }

    /// The two pools poured together.
    pub open spec fn merged(self, other: PoolView) -> PoolView {
        PoolView {
            black: self.black + other.black,
            blue: self.blue + other.blue,
            green: self.green + other.green,
            red: self.red + other.red,
            white: self.white + other.white,
            colorless: self.colorless + other.colorless,
            all: self.all + other.all,
            multi: self.multi + other.multi,
        }
    }

    /// The pool without its hybrid units.
    pub open spec fn simple(self) -> PoolView {
        PoolView { multi: Seq::empty(), ..self }
    }

    /// The pool read as a price: a unit of any color in a price asks for no
    /// color, so it counts as colorless.
    pub open spec fn as_price(self) -> PoolView {
        PoolView { colorless: self.colorless + self.all, all: 0, ..self }
    }

    /// The pool in which each hybrid unit has become a unit of the single
    /// color that `choice` names for it.
    pub open spec fn resolved(self, choice: Seq<Color>) -> PoolView {
        PoolView {
            black: self.black + occurrences(choice, Color::Black),
            blue: self.blue + occurrences(choice, Color::Blue),
            green: self.green + occurrences(choice, Color::Green),
            red: self.red + occurrences(choice, Color::Red),
            white: self.white + occurrences(choice, Color::White),
            multi: Seq::empty(),
            ..self
        }
    }

    /// What single colors `cost` asks for beyond those that this pool holds,
    /// summed over the five colors.
    pub open spec fn color_shortfall(self, cost: PoolView) -> nat {
        shortfall(self.black, cost.black) + shortfall(self.blue, cost.blue) + shortfall(
            self.green,
            cost.green,
        ) + shortfall(self.red, cost.red) + shortfall(self.white, cost.white)
    }

    /// Whether this pool pays `cost`, neither of them read for hybrid units:
    /// the pool is at least as large as the cost, and its units of any color
    /// make up for every single color that is short.
    pub open spec fn covers_simply(self, cost: PoolView) -> bool {
        &&& cost.simple().total() <= self.simple().total()
        &&& self.color_shortfall(cost) <= self.all
    }

    /// Whether this pool pays `cost`: it is at least as large, and some choice
    /// of one color for each hybrid unit, on both sides, leaves a pool that
    /// pays the price of the cost unit by unit.
    pub open spec fn covers(self, cost: PoolView) -> bool {
        &&& cost.total() <= self.total()
        &&& exists|mine: Seq<Color>, theirs: Seq<Color>|
            #![trigger is_choice(mine, self.multi), is_choice(theirs, cost.multi)]
            is_choice(mine, self.multi) && is_choice(theirs, cost.multi) && self.resolved(
                mine,
            ).covers_simply(cost.as_price().resolved(theirs))
    }

    /// Whether every unit of `other` is there to be taken out of this pool.
    pub open spec fn holds(self, other: PoolView) -> bool {
        &&& other.black <= self.black
        &&& other.blue <= self.blue
        &&& other.green <= self.green
        &&& other.red <= self.red
        &&& other.white <= self.white
        &&& other.colorless <= self.colorless
        &&& other.all <= self.all
        &&& can_strike(self.multi, other.multi)
    }

    /// This pool with the units of `other` taken out.
    pub open spec fn without(self, other: PoolView) -> PoolView {
        PoolView {
            black: (self.black - other.black) as nat,
            blue: (self.blue - other.blue) as nat,
            green: (self.green - other.green) as nat,
            red: (self.red - other.red) as nat,
            white: (self.white - other.white) as nat,
            colorless: (self.colorless - other.colorless) as nat,
            all: (self.all - other.all) as nat,
            multi: struck(self.multi, other.multi),
        }
    }

    /// Whether the hybrid units are hybrid units indeed.
    pub open spec fn hybrids_ok(self) -> bool {
        forall|i: int|
            0 <= i < self.multi.len() ==> (#[trigger] self.multi[i]).valid()
                && self.multi[i].is_hybrid()
    }
}

/// A pool of mana: a cost, or what is at hand to pay one.
///
/// The pool counts its units by kind. Hybrid units, which no count stands
/// for, are listed in `multi`, which is `None` while there is none of them.
#[derive(Debug, Clone, PartialEq)]
pub struct ManaPool {
    pub black: u32,
    pub blue: u32,
    pub green: u32,
    pub red: u32,
    pub white: u32,
    pub colorless: u32,
    pub all: u32,
    pub multi: Option<Vec<Mana>>,
}

impl View for ManaPool {
    type V = PoolView;

    open spec fn view(&self) -> PoolView {
        PoolView {
            black: self.black as nat,
            blue: self.blue as nat,
            green: self.green as nat,
            red: self.red as nat,
            white: self.white as nat,
            colorless: self.colorless as nat,
            all: self.all as nat,
            multi: units_of(self.multi),
        }
    }
}

/// The hybrid units that `multi` lists.
pub open spec fn units_of(multi: Option<Vec<Mana>>) -> Seq<Mana> {
    match multi {
        Some(units) => units@,
        None => Seq::empty(),
    }
}

impl ManaPool {
    /// The invariant of a pool: its size fits the counters, `multi` is `None`
    /// or not empty, and lists hybrid units only.
    pub open spec fn wf(&self) -> bool {
        &&& self@.total() <= u32::MAX
        &&& self.multi matches Some(units) ==> units@.len() > 0
        &&& self@.hybrids_ok()
    }

    /// The pool that holds nothing.
    pub fn new() -> (r: ManaPool)
        ensures
            r.wf(),
            r@ == PoolView::empty(),
            r.multi is None,
    {
        ManaPool {
            black: 0,
            blue: 0,
            green: 0,
            red: 0,
            white: 0,
            colorless: 0,
            all: 0,
            multi: None,
        }
    }

    /// The number of units in the pool, whatever their colors: the sum of the
    /// counts and of the number of hybrid units.
    pub fn cmc(&self) -> (r: u32)
        requires
            self.wf(),
        ensures
            r == self@.total(),
            r == self.black + self.blue + self.green + self.red + self.white + self.colorless
                + self.all + self@.multi.len(),
    {
        let listed: usize = match &self.multi {
            Some(units) => units.len(),
            None => 0,
        };
        self.black + self.blue + self.green + self.red + self.white + self.colorless + self.all
            + (listed as u32)
    }

    /// Adds one unit of the single color `color`.
    pub fn add_color(&mut self, color: &Color)
        requires
            old(self).wf(),
            old(self)@.total() < u32::MAX,
        ensures
            final(self).wf(),
            final(self)@ == old(self)@.with_color(*color),
            final(self).multi == old(self).multi,
    {
        match color {
            Color::Black => self.black += 1,
            Color::Blue => self.blue += 1,
            Color::Green => self.green += 1,
            Color::Red => self.red += 1,
            Color::White => self.white += 1,
        }
    }

    /// Adds one unit.
    pub fn add_mana(&mut self, m: &Mana)
        requires
            old(self).wf(),
            old(self)@.total() < u32::MAX,
        ensures
            final(self).wf(),
            final(self)@ == old(self)@.added(*m),
    {
        proof {
            use_type_invariant(m);
        }
        let colors = m.color_count();
        if colors == 0 {
            self.colorless += 1;
        } else if colors == 1 {
            if m.contains(Color::Black) {
                self.add_color(&Color::Black);
            } else if m.contains(Color::Blue) {
                self.add_color(&Color::Blue);
            } else if m.contains(Color::Green) {
                self.add_color(&Color::Green);
            } else if m.contains(Color::Red) {
                self.add_color(&Color::Red);
            } else {
                self.add_color(&Color::White);
            }
        } else if colors == 5 {
            self.all += 1;
        } else {
            let mut units = match self.multi.take() {
                Some(units) => units,
                None => Vec::new(),
            };
            units.push(*m);
            self.multi = Some(units);
        }
    }

    /// The pool of the units of `s`.
    pub fn new_from_sequence(s: &Vec<Mana>) -> (r: ManaPool)
        requires
            s@.len() <= u32::MAX,
        ensures
            r.wf(),
            r@ == PoolView::empty().added_all(s@),
    {
        let mut pool = ManaPool::new();
        let mut i: usize = 0;
        while i < s.len()
            invariant
                i <= s@.len() <= u32::MAX,
                pool.wf(),
                pool@ == PoolView::empty().added_all(s@.take(i as int)),
                pool@.total() == i,
            decreases s@.len() - i,
        {
            proof {
                assert(s@.take(i + 1).drop_last() == s@.take(i as int));
                lemma_added_total(pool@, s@[i as int]);
            }
            pool.add_mana(&s[i]);
            i += 1;
        }
        proof {
            assert(s@.take(i as int) == s@);
        }
        pool
    }

    /// The pool of one unit.
    pub fn new_from_single(mana: &Mana) -> (r: ManaPool)
        ensures
            r.wf(),
            r@ == PoolView::empty().added(*mana),
    {
        let mut pool = ManaPool::new();
        pool.add_mana(mana);
        pool
    }

    /// A copy of the pool.
    pub fn duplicate(&self) -> (r: ManaPool)
        ensures
            r@ == self@,
            r.multi is Some == self.multi is Some,
            self.wf() ==> r.wf(),
    {
        let multi = match &self.multi {
            Some(units) => {
                let mut copy: Vec<Mana> = Vec::new();
                let mut i: usize = 0;
                while i < units.len()
                    invariant
                        i <= units@.len(),
                        copy@ == units@.take(i as int),
                    decreases units@.len() - i,
                {
                    copy.push(units[i]);
                    proof {
                        assert(units@.take(i + 1) == units@.take(i as int).push(units@[i as int]));
                    }
                    i += 1;
                }
                proof {
                    assert(units@.take(i as int) == units@);
                }
                Some(copy)
            },
            None => None,
        };
        ManaPool {
            black: self.black,
            blue: self.blue,
            green: self.green,
            red: self.red,
            white: self.white,
            colorless: self.colorless,
            all: self.all,
            multi,
        }
    }

    /// Pours the units of `pool` into this pool.
    pub fn add_pool(&mut self, pool: &ManaPool)
        requires
            old(self).wf(),
            pool.wf(),
            old(self)@.total() + pool@.total() <= u32::MAX,
        ensures
            final(self).wf(),
            final(self)@ == old(self)@.merged(pool@),
    {
        self.black += pool.black;
        self.blue += pool.blue;
        self.green += pool.green;
        self.red += pool.red;
        self.white += pool.white;
        self.colorless += pool.colorless;
        self.all += pool.all;
        match &pool.multi {
            Some(more) => {
                let mut units = match self.multi.take() {
                    Some(units) => units,
                    None => Vec::new(),
                };
                let ghost before = units@;
                let mut i: usize = 0;
                while i < more.len()
                    invariant
                        i <= more@.len(),
                        units@ == before + more@.take(i as int),
                    decreases more@.len() - i,
                {
                    units.push(more[i]);
                    proof {
                        assert(more@.take(i + 1) == more@.take(i as int).push(more@[i as int]));
                    }
                    i += 1;
                }
                proof {
                    assert(more@.take(i as int) == more@);
                }
                self.multi = Some(units);
            },
            None => {
                proof {
                    assert(self@.multi + pool@.multi == self@.multi);
                }
            },
        }
    }

    /// The two pools poured together, as a new pool.
    pub fn expanded(&self, other: &ManaPool) -> (r: ManaPool)
        requires
            self.wf(),
            other.wf(),
            self@.total() + other@.total() <= u32::MAX,
        ensures
            r.wf(),
            r@ == self@.merged(other@),
    {
        let mut pool = self.duplicate();
        pool.add_pool(other);
        pool
    }

    /// Whether every unit of `other` is there to be taken out of this pool.
    pub fn contains_pool(&self, other: &ManaPool) -> (r: bool)
        ensures
            r == self@.holds(other@),
    {
        if self.black < other.black || self.blue < other.blue || self.green < other.green
            || self.red < other.red || self.white < other.white || self.colorless
            < other.colorless || self.all < other.all {
            return false;
        }
        match &other.multi {
            Some(out) => {
                let copy = self.duplicate();
                let mut units = match copy.multi {
                    Some(units) => units,
                    None => Vec::new(),
                };
                strike(&mut units, out)
            },
            None => true,
        }
    }

    /// Takes the units of `other` out of this pool, each hybrid unit of
    /// `other` in turn taking the first hybrid unit equal to it.
    pub fn remove_exact_pool(&mut self, other: &ManaPool)
        requires
            old(self).wf(),
            old(self)@.holds(other@),
        ensures
            final(self).wf(),
            final(self)@ == old(self)@.without(other@),
    {
        self.black -= other.black;
        self.blue -= other.blue;
        self.green -= other.green;
        self.red -= other.red;
        self.white -= other.white;
        self.colorless -= other.colorless;
        self.all -= other.all;
        proof {
            lemma_struck(self@.multi, other@.multi);
        }
        match &other.multi {
            Some(out) => {
                let mut units = match self.multi.take() {
                    Some(units) => units,
                    None => Vec::new(),
                };
                let struck_all = strike(&mut units, out);
                if units.len() > 0 {
                    self.multi = Some(units);
                } else {
                    proof {
                        assert(units@ =~= Seq::<Mana>::empty());
                    }
                    self.multi = None;
                }
            },
            None => {
                proof {
                    assert(other@.multi.len() == 0);
                }
            },
        }
    }

    /// A copy of the pool without its hybrid units.
    pub fn simple_clone(&self) -> (r: ManaPool)
        ensures
            r@ == self@.simple(),
            r.multi is None,
            self.wf() ==> r.wf(),
    {
        ManaPool {
            black: self.black,
            blue: self.blue,
            green: self.green,
            red: self.red,
            white: self.white,
            colorless: self.colorless,
            all: self.all,
            multi: None,
        }
    }
}

/// Strikes each unit of `out` in turn from `units`; stops, and says so, at
/// the first that is not there.
fn strike(units: &mut Vec<Mana>, out: &Vec<Mana>) -> (ok: bool)
    ensures
        ok == can_strike(old(units)@, out@),
        ok ==> final(units)@ == struck(old(units)@, out@),
{
    let ghost start = units@;
    let mut i: usize = 0;
    proof {
        assert(out@.skip(0) == out@);
    }
    while i < out.len()
        invariant
            i <= out@.len(),
            start == old(units)@,
            can_strike(start, out@) == can_strike(units@, out@.skip(i as int)),
            can_strike(start, out@) ==> struck(start, out@) == struck(units@, out@.skip(i as int)),
        decreases out@.len() - i,
    {
        let unit = out[i];
        let mut at: usize = 0;
        while at < units.len() && units[at] != unit
            invariant
                at <= units@.len(),
                i < out@.len(),
                unit == out@[i as int],
                start == old(units)@,
                forall|j: int| 0 <= j < at ==> units@[j] != unit,
                can_strike(start, out@) == can_strike(units@, out@.skip(i as int)),
                can_strike(start, out@) ==> struck(start, out@) == struck(
                    units@,
                    out@.skip(i as int),
                ),
            decreases units@.len() - at,
        {
            at += 1;
        }
        proof {
            assert(out@.skip(i as int)[0] == unit);
            assert(out@.skip(i as int).drop_first() == out@.skip(i + 1));
        }
        if at == units.len() {
            proof {
                assert(!units@.contains(unit));
                assert(!can_strike(units@, out@.skip(i as int)));
            }
            return false;
        }
        proof {
            lemma_first_at(units@, unit, at as int);
        }
        units.remove(at);
        i += 1;
    }
    proof {
        assert(out@.skip(i as int).len() == 0);
    }
    true
}

/// One more unit makes the pool larger by one.
pub proof fn lemma_added_total(pool: PoolView, unit: Mana)
    ensures
        pool.added(unit).total() == pool.total() + 1,
{
}

} // verus!
