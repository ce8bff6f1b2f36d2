//! The written form of a mana cost, such as `{2}{B}{B/G}`, and how it is read.

use vstd::prelude::*;
use vstd::string::*;
use crate::mana::{bad_symbol_message, symbol_color, Color, Mana};
use crate::patterns::{find_all, regex_find_all};
use crate::pool::{ManaPool, PoolView};

verus! {

/// The regular expression whose matches are the symbols of a mana cost.
pub const MANA_PATTERN: &'static str = "([0-9BCGRUW/]+)";

/// The unit that a symbol of letters stands for: one letter, or letters with
/// `/` between them. `None` for any other text.
pub open spec fn unit_of_symbol(token: Seq<char>) -> Option<Mana>
    decreases token.len(),
{
    if token.len() == 0 {
        None
    } else if token.len() == 1 {
        match symbol_color(token) {
            Some(Some(color)) => Some(Mana::blank().with(color)),
            Some(None) => Some(Mana::blank()),
            None => None,
        }
    } else if token[token.len() - 2] != '/' {
        None
    } else {
        match (unit_of_symbol(token.take(token.len() - 2)), symbol_color(seq![token.last()])) {
            (Some(unit), Some(Some(color))) => Some(unit.with(color)),
            (Some(unit), Some(None)) => Some(unit),
            _ => None,
        }
    }
}

/// Whether `c` is a decimal digit.
pub open spec fn is_digit(c: char) -> bool {
    '0' <= c <= '9'
}

/// The number that the decimal digits of `digits` write.
pub open spec fn decimal(digits: Seq<char>) -> nat
    decreases digits.len(),
{
    if digits.len() == 0 {
        0
    } else {
        decimal(digits.drop_last()) * 10 + (digits.last() as nat - '0' as nat) as nat
    }
}

/// The number of colorless units that a symbol of digits stands for. `None`
/// for any other text, and for a number that no counter holds.
pub open spec fn generic_of_symbol(token: Seq<char>) -> Option<nat> {
    if token.len() > 0 && (forall|i: int| 0 <= i < token.len() ==> is_digit(#[trigger] token[i]))
        && decimal(token) <= u32::MAX {
        Some(decimal(token))
    } else {
        None
    }
}

/// The pool that the symbols of `tokens` make up, or the first symbol that
/// cannot be added: one that is neither a unit nor a number, or one with
/// which the pool would outgrow its counters.
pub open spec fn pool_of_symbols(tokens: Seq<Seq<char>>) -> Result<PoolView, Seq<char>>
    decreases tokens.len(),
{
    if tokens.len() == 0 {
        Ok(PoolView::empty())
    } else {
        match pool_of_symbols(tokens.drop_last()) {
            Err(token) => Err(token),
            Ok(pool) => {
                let token = tokens.last();
                match (unit_of_symbol(token), generic_of_symbol(token)) {
                    (Some(unit), _) => if pool.total() < u32::MAX {
                        Ok(pool.added(unit))
                    } else {
                        Err(token)
                    },
                    (None, Some(count)) => if pool.total() + count <= u32::MAX {
                        Ok(PoolView { colorless: pool.colorless + count, ..pool })
                    } else {
                        Err(token)
                    },
                    (None, None) => Err(token),
                }
            },
        }
    }
}

/// The message that refuses `cost` for holding no mana at all.
pub open spec fn empty_cost_message(cost: Seq<char>) -> Seq<char> {
    "invalid mana cost... \""@ + cost + "\""@
}

/// The message that refuses a cost because its pattern was not taken.
pub open spec fn no_pattern_message() -> Seq<char> {
    "mana cost pattern not accepted"@
}

/// What a written cost is read as, given the symbols found in it: the pool of
/// those symbols, which must hold a unit at least, or the message that
/// refuses the cost.
pub open spec fn mana_cost(found: Option<Seq<Seq<char>>>, cost: Seq<char>) -> Result<
    PoolView,
    Seq<char>,
> {
    match found {
        None => Err(no_pattern_message()),
        Some(tokens) => match pool_of_symbols(tokens) {
            Err(token) => Err(bad_symbol_message(token)),
            Ok(pool) => if pool.total() == 0 {
                Err(empty_cost_message(cost))
            } else {
                Ok(pool)
            },
        },
    }
}

/// A symbol of letters has an odd number of characters.
proof fn lemma_unit_symbol_is_odd(token: Seq<char>)
    requires
        unit_of_symbol(token) is Some,
    ensures
        token.len() % 2 == 1,
    decreases token.len(),
{
    if token.len() > 1 {
        lemma_unit_symbol_is_odd(token.take(token.len() - 2));
    }
}

/// Where the start of a text is no symbol of letters, the text is none.
proof fn lemma_unit_symbol_start(token: Seq<char>, k: int)
    requires
        1 <= k <= token.len(),
        k % 2 == 1,
        token.len() % 2 == 1,
        unit_of_symbol(token.take(k)) is None,
    ensures
        unit_of_symbol(token) is None,
    decreases token.len(),
{
    if k == token.len() {
        assert(token.take(k) == token);
    } else {
        let shorter = token.take(token.len() - 2);
        assert(shorter.take(k) == token.take(k));
        lemma_unit_symbol_start(shorter, k);
    }
}

/// The unit of a symbol of letters is a valid unit, of just the colors whose
/// letters the symbol holds.
pub proof fn lemma_unit_symbol_colors(token: Seq<char>, color: Color)
    requires
        unit_of_symbol(token) is Some,
    ensures
        unit_of_symbol(token)->Some_0.valid(),
        unit_of_symbol(token)->Some_0.has(color) == exists|i: int|
            0 <= i < token.len() && i % 2 == 0 && #[trigger] token[i] == color.letter(),
    decreases token.len(),
{
    Mana::lemma_blank();
    let unit = unit_of_symbol(token)->Some_0;
    if token.len() == 1 {
        match symbol_color(token) {
            Some(Some(named)) => {
                Mana::blank().lemma_with(named);
                if unit.has(color) {
                    assert(token[0] == color.letter());
                }
            },
            _ => {},
        }
    } else {
        let shorter = token.take(token.len() - 2);
        let last = token.len() - 1;
        lemma_unit_symbol_colors(shorter, color);
        lemma_unit_symbol_is_odd(token);
        let before = unit_of_symbol(shorter)->Some_0;
        match symbol_color(seq![token.last()]) {
            Some(Some(named)) => {
                before.lemma_with(named);
            },
            _ => {},
        }
        if unit.has(color) {
            if before.has(color) {
                let i = choose|i: int|
                    0 <= i < shorter.len() && i % 2 == 0 && #[trigger] shorter[i] == color.letter();
                assert(token[i] == color.letter());
            } else {
                assert(token[last] == color.letter());
            }
        }
        if exists|i: int|
            0 <= i < token.len() && i % 2 == 0 && #[trigger] token[i] == color.letter() {
            let i = choose|i: int|
                0 <= i < token.len() && i % 2 == 0 && #[trigger] token[i] == color.letter();
            if i < shorter.len() {
                assert(shorter[i] == color.letter());
            } else {
                assert(i == last);
                assert(seq![token.last()][0] == color.letter());
            }
        }
    }
}

/// Reads a symbol of letters: one letter, or letters with `/` between them.
pub fn read_unit(token: &str) -> (r: Option<Mana>)
    ensures
        r == unit_of_symbol(token@),
        r matches Some(unit) ==> unit.valid(),
{
    let n = token.unicode_len();
    if n % 2 == 0 {
        proof {
            if unit_of_symbol(token@) is Some {
                lemma_unit_symbol_is_odd(token@);
            }
        }
        return None;
    }
    let mut unit = Mana::new();
    let first = token.substring_char(0, 1);
    proof {
        assert(token@.take(1) == token@.subrange(0, 1));
        Mana::lemma_blank();
    }
    match unit.set_from_string(first) {
        Ok(_) => {},
        Err(_) => {
            proof {
                lemma_unit_symbol_start(token@, 1);
            }
            return None;
        },
    }
    let mut len: usize = 1;
    while len < n
        invariant
            1 <= len <= n,
            n == token@.len(),
            len % 2 == 1,
            n % 2 == 1,
            unit.valid(),
            unit_of_symbol(token@.take(len as int)) == Some(unit),
        decreases n - len,
    {
        let separator = token.get_char(len);
        let letter = token.substring_char(len + 1, len + 2);
        let ghost longer = token@.take(len + 2);
        proof {
            assert(longer.take(longer.len() - 2) == token@.take(len as int));
            assert(longer[longer.len() - 2] == separator);
            assert(seq![longer.last()] == letter@);
        }
        if separator != '/' {
            proof {
                lemma_unit_symbol_start(token@, len + 2);
            }
            return None;
        }
        match unit.set_from_string(letter) {
            Ok(_) => {},
            Err(_) => {
                proof {
                    lemma_unit_symbol_start(token@, len + 2);
                }
                return None;
            },
        }
        len += 2;
    }
    proof {
        assert(token@.take(len as int) == token@);
    }
    Some(unit)
}

/// Reads a symbol of digits as the number of colorless units it stands for.
pub fn read_generic(token: &str) -> (r: Option<u32>)
    ensures
        r matches Some(count) ==> generic_of_symbol(token@) == Some(count as nat),
        r is None ==> generic_of_symbol(token@) is None,
{
    let n = token.unicode_len();
    if n == 0 {
        return None;
    }
    let mut value: u64 = 0;
    let mut i: usize = 0;
    let mut too_large = false;
    while i < n
        invariant
            i <= n == token@.len(),
            forall|k: int| 0 <= k < i ==> is_digit(#[trigger] token@[k]),
            !too_large ==> value == decimal(token@.take(i as int)) && value <= u32::MAX,
            too_large ==> decimal(token@.take(i as int)) > u32::MAX,
        decreases n - i,
    {
        let c = token.get_char(i);
        if !(c >= '0' && c <= '9') {
            return None;
        }
        proof {
            assert(token@.take(i + 1).drop_last() == token@.take(i as int));
            assert(token@.take(i + 1).last() == c);
        }
        if !too_large {
            let digit: u64 = (c as u32 - '0' as u32) as u64;
            value = value * 10 + digit;
            if value > u32::MAX as u64 {
                too_large = true;
            }
        }
        i += 1;
    }
    proof {
        assert(token@.take(i as int) == token@);
    }
    if too_large {
        None
    } else {
        Some(value as u32)
    }
}

impl ManaPool {
    /// The pool that the symbols of `tokens` make up.
    ///
    /// Each symbol is a unit (`B`, `C`, `B/G`) or a number of colorless
    /// units. The first symbol that is neither, or with which the pool would
    /// outgrow its counters, is refused with a message that quotes it.
    pub fn from_symbols(tokens: &Vec<String>) -> (r: Result<ManaPool, String>)
        ensures
            match pool_of_symbols(tokens.deep_view()) {
                Ok(pool) => r is Ok && r->Ok_0.wf() && r->Ok_0@ == pool,
                Err(token) => r is Err && r->Err_0@ == bad_symbol_message(token),
            },
    {
        let mut pool = ManaPool::new();
        let mut i: usize = 0;
        let ghost texts = tokens.deep_view();
        proof {
            assert(texts.take(0) == Seq::<Seq<char>>::empty());
        }
        while i < tokens.len()
            invariant
                i <= tokens@.len(),
                texts == tokens.deep_view(),
                texts.len() == tokens@.len(),
                pool.wf(),
                pool_of_symbols(texts.take(i as int)) == Ok::<PoolView, Seq<char>>(pool@),
            decreases tokens@.len() - i,
        {
            let token = tokens[i].as_str();
            proof {
                assert(texts.take(i + 1).drop_last() == texts.take(i as int));
                assert(texts.take(i + 1).last() == token@);
            }
            let added = match read_unit(token) {
                Some(unit) => {
                    if pool.cmc() < u32::MAX {
                        pool.add_mana(&unit);
                        true
                    } else {
                        false
                    }
                },
                None => match read_generic(token) {
                    Some(count) => {
                        if count <= u32::MAX - pool.cmc() {
                            pool.colorless += count;
                            true
                        } else {
                            false
                        }
                    },
                    None => false,
                },
            };
            if !added {
                proof {
                    lemma_refused_symbol(texts, i as int);
                }
                return Err(String::from_str("bad mana string '").concat(token).concat("'"));
            }
            i += 1;
        }
        proof {
            assert(texts.take(i as int) == texts);
        }
        Ok(pool)
    }

    /// Reads a written mana cost such as `{2}{B}{B/G}`.
    ///
    /// The symbols are what the regex crate finds of `MANA_PATTERN` in the
    /// text; what they make up is the pool, which must hold a unit at least.
    pub fn new_from_string(cost: &str) -> (r: Result<ManaPool, String>)
        ensures
            match mana_cost(regex_find_all(MANA_PATTERN@, cost@), cost@) {
                Ok(pool) => r is Ok && r->Ok_0.wf() && r->Ok_0@ == pool,
                Err(message) => r is Err && r->Err_0@ == message,
            },
    {
        let found = find_all(MANA_PATTERN, cost);
        Self::cost_of_symbols(found, cost)
    }

    /// What a written cost is read as, given the symbols found in it.
    pub fn cost_of_symbols(found: Option<Vec<String>>, cost: &str) -> (r: Result<ManaPool, String>)
        ensures
            match mana_cost(
                match found {
                    Some(tokens) => Some(tokens.deep_view()),
                    None => None,
                },
                cost@,
            ) {
                Ok(pool) => r is Ok && r->Ok_0.wf() && r->Ok_0@ == pool,
                Err(message) => r is Err && r->Err_0@ == message,
            },
    {
        match found {
            None => Err(String::from_str("mana cost pattern not accepted")),
            Some(tokens) => {
                match Self::from_symbols(&tokens) {
                    Err(message) => Err(message),
                    Ok(pool) => {
                        if pool.cmc() == 0 {
                            let start = String::from_str("invalid mana cost... \"");
                            Err(start.concat(cost).concat("\""))
                        } else {
                            Ok(pool)
                        }
                    },
                }
            },
        }
    }
}

/// Once a symbol is refused, so is every list of symbols that starts with
/// the symbols up to it.
proof fn lemma_refused_symbol(tokens: Seq<Seq<char>>, at: int)
    requires
        0 <= at < tokens.len(),
        pool_of_symbols(tokens.take(at + 1)) == Err::<PoolView, Seq<char>>(tokens[at]),
    ensures
        pool_of_symbols(tokens) == Err::<PoolView, Seq<char>>(tokens[at]),
    decreases tokens.len(),
{
    if at + 1 == tokens.len() {
        assert(tokens.take(at + 1) == tokens);
    } else {
        assert(tokens.drop_last().take(at + 1) == tokens.take(at + 1));
        lemma_refused_symbol(tokens.drop_last(), at);
    }
}

/// The letters of the colors, with `/` between them.
pub open spec fn letters_of(colors: Seq<Color>) -> Seq<char>
    decreases colors.len(),
{
    if colors.len() == 0 {
        Seq::empty()
    } else if colors.len() == 1 {
        seq![colors[0].letter()]
    } else {
        letters_of(colors.drop_last()) + seq!['/', colors.last().letter()]
    }
}

/// The written form of a unit: `{1}` for a colorless unit, else the letters
/// of its colors in braces, with `/` between them.
pub open spec fn unit_text(unit: Mana) -> Seq<char> {
    if unit.count() == 0 {
        seq!['{', '1', '}']
    } else {
        seq!['{'] + letters_of(unit.colors_in_order()) + seq!['}']
    }
}

/// The decimal digit for a number below ten.
pub open spec fn digit_of(n: nat) -> char {
    if n == 0 {
        '0'
    } else if n == 1 {
        '1'
    } else if n == 2 {
        '2'
    } else if n == 3 {
        '3'
    } else if n == 4 {
        '4'
    } else if n == 5 {
        '5'
    } else if n == 6 {
        '6'
    } else if n == 7 {
        '7'
    } else if n == 8 {
        '8'
    } else {
        '9'
    }
}

/// The decimal digits of a number.
pub open spec fn number_text(n: nat) -> Seq<char>
    decreases n,
{
    if n < 10 {
        seq![digit_of(n)]
    } else {
        number_text(n / 10) + seq![digit_of(n % 10)]
    }
}

/// A text written `times` times over.
pub open spec fn repeated(text: Seq<char>, times: nat) -> Seq<char>
    decreases times,
{
    if times == 0 {
        Seq::empty()
    } else {
        repeated(text, (times - 1) as nat) + text
    }
}

/// The written forms of the units, one after the other.
pub open spec fn units_text(units: Seq<Mana>) -> Seq<char>
    decreases units.len(),
{
    if units.len() == 0 {
        Seq::empty()
    } else {
        units_text(units.drop_last()) + unit_text(units.last())
    }
}

/// The written form of a pool: `n/a` for the empty pool, else the number of
/// colorless units in braces, if there are any, then the units of each
/// color, the hybrid units, and the units of any color.
pub open spec fn pool_text(pool: PoolView) -> Seq<char> {
    if pool.total() == 0 {
        seq!['n', '/', 'a']
    } else {
        (if pool.colorless > 0 {
            seq!['{'] + number_text(pool.colorless) + seq!['}']
        } else {
            Seq::empty()
        }) + repeated(seq!['{', 'B', '}'], pool.black) + repeated(seq!['{', 'U', '}'], pool.blue)
            + repeated(seq!['{', 'G', '}'], pool.green) + repeated(seq!['{', 'R', '}'], pool.red)
            + repeated(seq!['{', 'W', '}'], pool.white) + units_text(pool.multi) + repeated(
            seq!['{', 'B', '/', 'U', '/', 'G', '/', 'R', '/', 'W', '}'],
            pool.all,
        )
    }
}

/// The letter of a color, as a text.
pub fn letter_of(color: Color) -> (r: &'static str)
    ensures
        r@ == seq![color.letter()],
{
    proof {
        reveal_strlit("B");
        reveal_strlit("U");
        reveal_strlit("G");
        reveal_strlit("R");
        reveal_strlit("W");
    }
    let letter = match color {
        Color::Black => "B",
        Color::Blue => "U",
        Color::Green => "G",
        Color::Red => "R",
        Color::White => "W",
    };
    assert(letter@ =~= seq![color.letter()]);
    letter
}

/// The decimal digits of a number.
pub fn number_to_text(n: u32) -> (r: String)
    ensures
        r@ == number_text(n as nat),
    decreases n,
{
    proof {
        reveal_strlit("0");
        reveal_strlit("1");
        reveal_strlit("2");
        reveal_strlit("3");
        reveal_strlit("4");
        reveal_strlit("5");
        reveal_strlit("6");
        reveal_strlit("7");
        reveal_strlit("8");
        reveal_strlit("9");
    }
    let last = n % 10;
    let digit = if last == 0 {
        "0"
    } else if last == 1 {
        "1"
    } else if last == 2 {
        "2"
    } else if last == 3 {
        "3"
    } else if last == 4 {
        "4"
    } else if last == 5 {
        "5"
    } else if last == 6 {
        "6"
    } else if last == 7 {
        "7"
    } else if last == 8 {
        "8"
    } else {
        "9"
    };
    assert(digit@ =~= seq![digit_of(last as nat)]);
    if n < 10 {
        String::from_str(digit)
    } else {
        number_to_text(n / 10).concat(digit)
    }
}

/// Writes `text` at the end of `out`, `times` times over.
fn write_repeated(out: &mut String, text: &str, times: u32)
    ensures
        final(out)@ == old(out)@ + repeated(text@, times as nat),
{
    let mut i: u32 = 0;
    proof {
        assert(out@ + repeated(text@, 0) == out@);
    }
    while i < times
        invariant
            i <= times,
            out@ == old(out)@ + repeated(text@, i as nat),
        decreases times - i,
    {
        out.append(text);
        i += 1;
        proof {
            assert(out@ =~= old(out)@ + repeated(text@, i as nat));
        }
    }
}

impl Mana {
    /// The written form of the unit.
    pub fn to_text(&self) -> (r: String)
        ensures
            r@ == unit_text(*self),
    {
        proof {
            reveal_strlit("{1}");
            reveal_strlit("{");
            reveal_strlit("}");
            reveal_strlit("/");
        }
        let colors = self.color_list();
        proof {
            self.lemma_colors_in_order(Color::Black);
        }
        if colors.len() == 0 {
            let text = String::from_str("{1}");
            assert(text@ =~= seq!['{', '1', '}']);
            return text;
        }
        let mut text = String::from_str("{");
        text.append(letter_of(colors[0]));
        let mut i: usize = 1;
        proof {
            assert(colors@.take(1) =~= seq![colors@[0]]);
            assert(text@ =~= seq!['{'] + letters_of(colors@.take(1)));
        }
        while i < colors.len()
            invariant
                1 <= i <= colors@.len(),
                text@ == seq!['{'] + letters_of(colors@.take(i as int)),
            decreases colors@.len() - i,
        {
            text.append("/");
            text.append(letter_of(colors[i]));
            proof {
                reveal_strlit("/");
                assert(colors@.take(i + 1).drop_last() == colors@.take(i as int));
                assert(text@ =~= seq!['{'] + letters_of(colors@.take(i + 1)));
            }
            i += 1;
        }
        text.append("}");
        proof {
            assert(colors@.take(i as int) == colors@);
        }
        text
    }
}

impl ManaPool {
    /// The written form of the pool.
    pub fn to_text(&self) -> (r: String)
        requires
            self.wf(),
        ensures
            r@ == pool_text(self@),
    {
        proof {
            reveal_strlit("n/a");
            reveal_strlit("{");
            reveal_strlit("}");
            reveal_strlit("{B}");
            reveal_strlit("{U}");
            reveal_strlit("{G}");
            reveal_strlit("{R}");
            reveal_strlit("{W}");
            reveal_strlit("{B/U/G/R/W}");
        }
        if self.cmc() == 0 {
            let text = String::from_str("n/a");
            assert(text@ =~= seq!['n', '/', 'a']);
            return text;
        }
        let mut text = String::new();
        if self.colorless > 0 {
            text.append("{");
            text.append(number_to_text(self.colorless).as_str());
            text.append("}");
        }
        let ghost head = text@;
        assert(head =~= if self@.colorless > 0 {
            seq!['{'] + number_text(self@.colorless) + seq!['}']
        } else {
            Seq::empty()
        });
        assert("{B}"@ =~= seq!['{', 'B', '}']);
        assert("{U}"@ =~= seq!['{', 'U', '}']);
        assert("{G}"@ =~= seq!['{', 'G', '}']);
        assert("{R}"@ =~= seq!['{', 'R', '}']);
        assert("{W}"@ =~= seq!['{', 'W', '}']);
        assert("{B/U/G/R/W}"@ =~= seq!['{', 'B', '/', 'U', '/', 'G', '/', 'R', '/', 'W', '}']);
        write_repeated(&mut text, "{B}", self.black);
        write_repeated(&mut text, "{U}", self.blue);
        write_repeated(&mut text, "{G}", self.green);
        write_repeated(&mut text, "{R}", self.red);
        write_repeated(&mut text, "{W}", self.white);
        let ghost colored = text@;
        match &self.multi {
            Some(units) => {
                let mut i: usize = 0;
                proof {
                    assert(units@.take(0) =~= Seq::<Mana>::empty());
                    assert(text@ =~= colored + units_text(units@.take(0)));
                }
                while i < units.len()
                    invariant
                        i <= units@.len(),
                        text@ == colored + units_text(units@.take(i as int)),
                    decreases units@.len() - i,
                {
                    text.append(units[i].to_text().as_str());
                    proof {
                        assert(units@.take(i + 1).drop_last() == units@.take(i as int));
                        assert(text@ =~= colored + units_text(units@.take(i + 1)));
                    }
                    i += 1;
                }
                proof {
                    assert(units@.take(i as int) == units@);
                }
            },
            None => {
                proof {
                    assert(text@ =~= colored + units_text(self@.multi));
                }
            },
        }
        write_repeated(&mut text, "{B/U/G/R/W}", self.all);
        text
    }
}

} // verus!
