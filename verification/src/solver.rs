//! The payment solver: whether a pool of mana pays a cost.

use vstd::prelude::*;
use itertools::Itertools;
use crate::mana::{Color, Mana};
use crate::pool::{is_choice, occurrences, shortfall, units_of, ManaPool, PoolView};

verus! {

/// Whether `picks` takes, for each list of `options` in turn, one item of
/// that list.
pub open spec fn is_selection(picks: Seq<Color>, options: Seq<Vec<Color>>) -> bool {
    &&& picks.len() == options.len()
    &&& forall|j: int| 0 <= j < options.len() ==> (#[trigger] options[j])@.contains(picks[j])
}

/// Calls `multi_cartesian_product` of itertools on the lists of `options` and
/// collects what it yields.
///
/// The contract claims that every vector that comes out takes one item of
/// each list in turn; that, where there is a list at least, every such way
/// of taking comes out; and that nothing comes out where there is no list.
#[verifier::external_body]
fn cartesian_product(options: &Vec<Vec<Color>>) -> (r: Vec<Vec<Color>>)
    ensures
        forall|k: int| 0 <= k < r@.len() ==> is_selection((#[trigger] r@[k])@, options@),
        options@.len() > 0 ==> forall|picks: Seq<Color>| #[trigger]
            is_selection(picks, options@) ==> exists|k: int|
                0 <= k < r@.len() && (#[trigger] r@[k])@ == picks,
        options@.len() == 0 ==> r@.len() == 0,
{
    options.iter().cloned().multi_cartesian_product().collect()
}

/// The number of colors named in a list is the length of the list.
pub proof fn lemma_occurrences_sum(colors: Seq<Color>)
    ensures
        occurrences(colors, Color::Black) + occurrences(colors, Color::Blue) + occurrences(
            colors,
            Color::Green,
        ) + occurrences(colors, Color::Red) + occurrences(colors, Color::White) == colors.len(),
    decreases colors.len(),
{
    if colors.len() > 0 {
        lemma_occurrences_sum(colors.drop_last());
    }
}

/// Occurrences in a list put together from two are those of the two lists.
pub proof fn lemma_occurrences_concat(a: Seq<Color>, b: Seq<Color>, color: Color)
    ensures
        occurrences(a + b, color) == occurrences(a, color) + occurrences(b, color),
    decreases b.len(),
{
    if b.len() == 0 {
        assert(a + b == a);
    } else {
        assert((a + b).drop_last() == a + b.drop_last());
        lemma_occurrences_concat(a, b.drop_last(), color);
    }
}

/// Resolving the hybrid units of a pool leaves its size as it was.
pub proof fn lemma_resolved_total(pool: PoolView, choice: Seq<Color>)
    requires
        choice.len() == pool.multi.len(),
    ensures
        pool.resolved(choice).total() == pool.total(),
        pool.resolved(choice).simple() == pool.resolved(choice),
{
    lemma_occurrences_sum(choice);
}

/// One of the colors of `unit`, the first in the order black, blue, green,
/// red, white.
pub open spec fn first_color(unit: Mana) -> Color {
    if unit.has(Color::Black) {
        Color::Black
    } else if unit.has(Color::Blue) {
        Color::Blue
    } else if unit.has(Color::Green) {
        Color::Green
    } else if unit.has(Color::Red) {
        Color::Red
    } else {
        Color::White
    }
}

/// A colorless unit covers a colorless requirement and no colored one, and
/// every colored unit covers a colorless requirement.
pub proof fn lemma_colorless_payment(colorless: Mana, colored: Mana)
    requires
        colorless.count() == 0,
        colored.count() > 0,
    ensures
        colorless.pays(colorless),
        !colorless.pays(colored),
        colored.pays(colorless),
{
}

/// Choices for two lists of units, put together, are a choice for the two
/// lists put together.
pub proof fn lemma_choice_concat(a: Seq<Color>, first: Seq<Mana>, b: Seq<Color>, second: Seq<Mana>)
    requires
        is_choice(a, first),
        is_choice(b, second),
    ensures
        is_choice(a + b, first + second),
{
    assert forall|i: int| 0 <= i < (first + second).len() implies (#[trigger] (first
        + second)[i]).has(
        (a + b)[i],
    ) by {
        if i < first.len() {
            assert(first[i].has(a[i]));
        } else {
            assert(second[i - first.len()].has(b[i - first.len()]));
        }
    }
}

/// The first color of each unit is a choice for units that all have a color.
pub proof fn lemma_first_colors_are_a_choice(units: Seq<Mana>)
    requires
        forall|i: int| 0 <= i < units.len() ==> (#[trigger] units[i]).count() > 0,
    ensures
        is_choice(Seq::new(units.len(), |i: int| first_color(units[i])), units),
{
    let picked = Seq::new(units.len(), |i: int| first_color(units[i]));
    assert forall|i: int| 0 <= i < units.len() implies (#[trigger] units[i]).has(picked[i]) by {
        assert(units[i].count() > 0);
    }
}

/// A pool without hybrid units that has at least as much of every kind as one
/// that pays a cost pays that cost too.
pub proof fn lemma_larger_pool_covers_simply(small: PoolView, large: PoolView, cost: PoolView)
    requires
        small.covers_simply(cost),
        small.black <= large.black,
        small.blue <= large.blue,
        small.green <= large.green,
        small.red <= large.red,
        small.white <= large.white,
        small.colorless <= large.colorless,
        small.all <= large.all,
    ensures
        large.covers_simply(cost),
{
}

/// A pool that pays a cost still pays it when more units are poured into the
/// pool.
pub proof fn lemma_more_mana_still_pays(pool: PoolView, extra: PoolView, cost: PoolView)
    requires
        pool.covers(cost),
        extra.hybrids_ok(),
    ensures
        pool.merged(extra).covers(cost),
{
    let (mine, theirs): (Seq<Color>, Seq<Color>) = choose|mine: Seq<Color>, theirs: Seq<Color>|
        #![trigger is_choice(mine, pool.multi), is_choice(theirs, cost.multi)]
        is_choice(mine, pool.multi) && is_choice(theirs, cost.multi) && pool.resolved(
            mine,
        ).covers_simply(cost.as_price().resolved(theirs));
    let picked = Seq::new(extra.multi.len(), |i: int| first_color(extra.multi[i]));
    let larger = pool.merged(extra);
    let both = mine + picked;
    assert forall|i: int| 0 <= i < extra.multi.len() implies (#[trigger] extra.multi[i]).count()
        > 0 by {
        assert(extra.multi[i].is_hybrid());
    }
    lemma_first_colors_are_a_choice(extra.multi);
    lemma_choice_concat(mine, pool.multi, picked, extra.multi);
    lemma_occurrences_concat(mine, picked, Color::Black);
    lemma_occurrences_concat(mine, picked, Color::Blue);
    lemma_occurrences_concat(mine, picked, Color::Green);
    lemma_occurrences_concat(mine, picked, Color::Red);
    lemma_occurrences_concat(mine, picked, Color::White);
    lemma_larger_pool_covers_simply(
        pool.resolved(mine),
        larger.resolved(both),
        cost.as_price().resolved(theirs),
    );
    assert(is_choice(both, larger.multi));
}

/// A pool that pays a cost still pays it with one more unit in the pool.
pub proof fn lemma_one_more_unit_still_pays(pool: PoolView, unit: Mana, cost: PoolView)
    requires
        pool.covers(cost),
        unit.valid(),
    ensures
        pool.added(unit).covers(cost),
{
    let extra = PoolView::empty().added(unit);
    assert(pool.added(unit) =~= pool.merged(extra)) by {
        assert(pool.multi + Seq::<Mana>::empty() =~= pool.multi);
        assert(pool.multi + Seq::<Mana>::empty().push(unit) =~= pool.multi.push(unit));
    }
    lemma_more_mana_still_pays(pool, extra, cost);
}

/// Pays what it can of one kind: takes the smaller of the two numbers off
/// both.
fn pay(pool_color: &mut u32, cost_color: &mut u32)
    ensures
        *final(pool_color) == shortfall(*old(cost_color) as nat, *old(pool_color) as nat),
        *final(cost_color) == shortfall(*old(pool_color) as nat, *old(cost_color) as nat),
{
    if *pool_color >= *cost_color {
        *pool_color -= *cost_color;
        *cost_color = 0;
    } else {
        *cost_color -= *pool_color;
        *pool_color = 0;
    }
}

impl ManaPool {
    /// Whether `pool` pays `price`, neither of which has hybrid units: color
    /// by color first, then the units of any color for the colors that are
    /// short, then whatever is left for the colorless part.
    fn check_simple_pools(pool: ManaPool, price: ManaPool) -> (r: bool)
        requires
            pool.wf(),
            price.wf(),
            pool.multi is None,
            price.multi is None,
            price.all == 0,
            price@.total() <= pool@.total(),
        ensures
            r == pool@.covers_simply(price@),
    {
        let mut pool = pool;
        let mut price = price;
        let ghost had = pool@;
        let ghost asked = price@;
        pay(&mut pool.black, &mut price.black);
        pay(&mut pool.blue, &mut price.blue);
        pay(&mut pool.green, &mut price.green);
        pay(&mut pool.red, &mut price.red);
        pay(&mut pool.white, &mut price.white);
        pay(&mut pool.colorless, &mut price.colorless);
        assert(price@.color_shortfall(PoolView::empty()) == 0);
        assert(price.black + price.blue + price.green + price.red + price.white
            == had.color_shortfall(asked));
        let monocolors_left_to_pay = price.black + price.blue + price.green + price.red
            + price.white;
        if monocolors_left_to_pay == 0 {
            return pool.cmc() >= price.colorless;
        }
        monocolors_left_to_pay <= pool.all
    }

    /// The pool in which each hybrid unit has become a unit of the single
    /// color that `choice` names for it.
    fn resolve(&self, choice: &Vec<Color>) -> (r: ManaPool)
        requires
            self.wf(),
            choice@.len() == self@.multi.len(),
        ensures
            r.wf(),
            r.multi is None,
            r@ == self@.resolved(choice@),
    {
        let mut pool = self.simple_clone();
        let mut i: usize = 0;
        proof {
            assert(choice@.take(0) == Seq::<Color>::empty());
        }
        while i < choice.len()
            invariant
                i <= choice@.len() == self@.multi.len(),
                self.wf(),
                pool.multi is None,
                pool.wf(),
                pool@ == self@.resolved(choice@.take(i as int)),
                pool@.total() + (choice@.len() - i) == self@.total(),
            decreases choice@.len() - i,
        {
            proof {
                lemma_occurrences_sum(choice@.take(i as int));
                lemma_occurrences_sum(choice@.take(i + 1));
                assert(choice@.take(i + 1).drop_last() == choice@.take(i as int));
            }
            pool.add_color(&choice[i]);
            i += 1;
        }
        proof {
            assert(choice@.take(i as int) == choice@);
        }
        pool
    }

    /// Every way to choose one color for each unit of `units`.
    fn choices(units: &Option<Vec<Mana>>) -> (r: Vec<Vec<Color>>)
        ensures
            forall|k: int|
                0 <= k < r@.len() ==> is_choice(
                    (#[trigger] r@[k])@,
                    match *units {
                        Some(listed) => listed@,
                        None => Seq::empty(),
                    },
                ),
            forall|choice: Seq<Color>| #[trigger]
                is_choice(choice, units_of(*units)) ==> exists|k: int| 0 <= k < r@.len()
                    && (#[trigger] r@[k])@ == choice,
    {
        let ghost all_units = units_of(*units);
        let mut options: Vec<Vec<Color>> = Vec::new();
        match units {
            Some(listed) => {
                let mut i: usize = 0;
                while i < listed.len()
                    invariant
                        i <= listed@.len(),
                        options@.len() == i,
                        forall|j: int|
                            0 <= j < i ==> (#[trigger] options@[j])@
                                == listed@[j].colors_in_order(),
                    decreases listed@.len() - i,
                {
                    options.push(listed[i].color_list());
                    i += 1;
                }
            },
            None => {},
        }
        if options.len() == 0 {
            let mut only: Vec<Vec<Color>> = Vec::new();
            only.push(Vec::new());
            proof {
                assert(is_choice(only@[0]@, all_units));
                assert forall|choice: Seq<Color>| #[trigger]
                    is_choice(choice, all_units) implies exists|k: int|
                    0 <= k < only@.len() && (#[trigger] only@[k])@ == choice by {
                    assert(choice =~= only@[0]@);
                }
            }
            return only;
        }
        let found = cartesian_product(&options);
        proof {
            assert forall|picks: Seq<Color>|
                is_selection(picks, options@) == is_choice(picks, all_units) by {
                if picks.len() == all_units.len() {
                    assert forall|j: int| 0 <= j < all_units.len()
                        implies (#[trigger] options@[j])@.contains(
                        picks[j],
                    ) == all_units[j].has(picks[j]) by {
                        all_units[j].lemma_colors_in_order(picks[j]);
                    }
                    if is_selection(picks, options@) {
                        assert forall|j: int| 0 <= j < all_units.len() implies (
                        #[trigger] all_units[j]).has(picks[j]) by {
                            assert(options@[j]@.contains(picks[j]));
                        }
                    }
                    if is_choice(picks, all_units) {
                        assert forall|j: int| 0 <= j < options@.len() implies (
                        #[trigger] options@[j])@.contains(picks[j]) by {
                            assert(all_units[j].has(picks[j]));
                        }
                    }
                }
            }
            assert forall|k: int| 0 <= k < found@.len() implies is_choice(
                (#[trigger] found@[k])@,
                all_units,
            ) by {
                assert(is_selection(found@[k]@, options@));
            }
            assert forall|choice: Seq<Color>| #[trigger]
                is_choice(choice, all_units) implies exists|k: int|
                0 <= k < found@.len() && (#[trigger] found@[k])@ == choice by {
                assert(is_selection(choice, options@));
            }
        }
        found
    }

    /// Whether this pool pays `cost`, each unit of the pool spent at most
    /// once.
    ///
    /// A pool smaller than the cost does not. Otherwise every way to read
    /// each hybrid unit, of the pool and of the cost, as one of its colors is
    /// tried, and the pool pays if one of them leaves a pool whose single
    /// colors, helped out by its units of any color, meet the single colors
    /// of the cost.
    pub fn can_pay_for(&self, cost: &ManaPool) -> (r: bool)
        requires
            self.wf(),
            cost.wf(),
        ensures
            r == self@.covers(cost@),
    {
        if self.cmc() < cost.cmc() {
            return false;
        }
        let mut price = cost.duplicate();
        // what any color pays asks for no color
        price.colorless += price.all;
        price.all = 0;
        assert(price@ == cost@.as_price());

        let mine = Self::choices(&self.multi);
        let theirs = Self::choices(&price.multi);
        let mut i: usize = 0;
        while i < mine.len()
            invariant
                i <= mine@.len(),
                self.wf(),
                price.wf(),
                price.all == 0,
                price@ == cost@.as_price(),
                cost@.total() <= self@.total(),
                forall|k: int| 0 <= k < mine@.len() ==> is_choice((#[trigger] mine@[k])@,
                    self@.multi),
                forall|k: int|
                    0 <= k < theirs@.len() ==> is_choice((#[trigger] theirs@[k])@, price@.multi),
                forall|a: int, b: int|
                    0 <= a < i && 0 <= b < theirs@.len() ==> !self@.resolved(
                        (#[trigger] mine@[a])@,
                    ).covers_simply(price@.resolved((#[trigger] theirs@[b])@)),
            decreases mine@.len() - i,
        {
            assert(is_choice(mine@[i as int]@, self@.multi));
            let me = self.resolve(&mine[i]);
            let mut j: usize = 0;
            while j < theirs.len()
                invariant
                    j <= theirs@.len(),
                    i < mine@.len(),
                    self.wf(),
                    price.wf(),
                    price.all == 0,
                    price@ == cost@.as_price(),
                    cost@.total() <= self@.total(),
                    me.wf(),
                    me.multi is None,
                    me@ == self@.resolved(mine@[i as int]@),
                    is_choice(mine@[i as int]@, self@.multi),
                    forall|k: int|
                        0 <= k < theirs@.len() ==> is_choice(
                            (#[trigger] theirs@[k])@,
                            price@.multi,
                        ),
                    forall|b: int|
                        0 <= b < j ==> !me@.covers_simply(
                            price@.resolved((#[trigger] theirs@[b])@),
                        ),
                decreases theirs@.len() - j,
            {
                assert(is_choice(theirs@[j as int]@, price@.multi));
                let other = price.resolve(&theirs[j]);
                proof {
                    lemma_resolved_total(self@, mine@[i as int]@);
                    lemma_resolved_total(price@, theirs@[j as int]@);
                }
                if Self::check_simple_pools(me.simple_clone(), other) {
                    return true;
                }
                j += 1;
            }
            i += 1;
        }
        proof {
            if self@.covers(cost@) {
                let (m, t): (Seq<Color>, Seq<Color>) = choose|m: Seq<Color>, t: Seq<Color>|
                    #![trigger is_choice(m, self@.multi), is_choice(t, cost@.multi)]
                    is_choice(m, self@.multi) && is_choice(t, cost@.multi) && self@.resolved(
                        m,
                    ).covers_simply(cost@.as_price().resolved(t));
                assert(is_choice(t, price@.multi));
                let a = choose|k: int| 0 <= k < mine@.len() && (#[trigger] mine@[k])@ == m;
                let b = choose|k: int| 0 <= k < theirs@.len() && (#[trigger] theirs@[k])@ == t;
                assert(!self@.resolved(mine@[a]@).covers_simply(price@.resolved(theirs@[b]@)));
            }
        }
        false
    }

    /// What has been spent once `additional_cost` is paid on top of
    /// `already_spent`, if this pool pays both at once; `None` if it does
    /// not.
    pub fn can_also_pay_for(&self, already_spent: &ManaPool, additional_cost: &ManaPool) -> (r:
        Option<ManaPool>)
        requires
            self.wf(),
            already_spent.wf(),
            additional_cost.wf(),
        ensures
            already_spent@.total() + additional_cost@.total() > self@.total() ==> r is None,
            r is Some == self@.covers(already_spent@.merged(additional_cost@)),
            r matches Some(total) ==> total.wf() && total@ == already_spent@.merged(
                additional_cost@,
            ),
    {
        let total_cmc: u64 = already_spent.cmc() as u64 + additional_cost.cmc() as u64;
        if total_cmc > self.cmc() as u64 {
            return None;
        }
        let total = already_spent.expanded(additional_cost);
        if self.can_pay_for(&total) {
            return Some(total);
        }
        None
    }
}

} // verus!
