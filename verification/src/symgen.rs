//! Fresh symbols: the decimal numerals of a counter.
use vstd::prelude::*;
use vstd::string::*;

verus! {

/// A source of names. It hands out the decimal numerals of its counter, one
/// after the other, so no name comes twice until it is reset.
#[derive(Debug)]
pub struct SymbolGenerator {
    counter: usize,
}

impl View for SymbolGenerator {
    type V = nat;

    /// The number whose numeral is handed out next.
    closed spec fn view(&self) -> nat {
        self.counter as nat
    }
}

/// The character of a decimal digit.
pub open spec fn digit(d: nat) -> char {
    if d == 0 {
        '0'
    } else if d == 1 {
        '1'
    } else if d == 2 {
        '2'
    } else if d == 3 {
        '3'
    } else if d == 4 {
        '4'
    } else if d == 5 {
        '5'
    } else if d == 6 {
        '6'
    } else if d == 7 {
        '7'
    } else if d == 8 {
        '8'
    } else {
        '9'
    }
}

/// The decimal numeral of `n`, without leading zeros.
pub open spec fn decimal(n: nat) -> Seq<char>
    decreases n,
{
    if n < 10 {
        seq![digit(n)]
    } else {
        decimal(n / 10).push(digit(n % 10))
    }
}

/// Different numbers have different numerals.
pub proof fn lemma_decimal_injective(a: nat, b: nat)
    ensures
        decimal(a) == decimal(b) <==> a == b,
    decreases a,
{
    if decimal(a) == decimal(b) {
        assert(decimal(a).last() == digit(a % 10));
        assert(decimal(b).last() == digit(b % 10));
        assert(a % 10 == b % 10);
        if a < 10 {
            assert(decimal(a).len() == 1);
            if b >= 10 {
                assert(decimal(b / 10).len() >= 1) by {
                    lemma_decimal_nonempty(b / 10);
                }
            }
        } else {
            lemma_decimal_nonempty(a / 10);
            if b < 10 {
                assert(decimal(b).len() == 1);
            } else {
                assert(decimal(a).drop_last() == decimal(a / 10));
                assert(decimal(b).drop_last() == decimal(b / 10));
                lemma_decimal_injective(a / 10, b / 10);
            }
        }
    }
}

/// A numeral has at least one digit.
pub proof fn lemma_decimal_nonempty(n: nat)
    ensures
        decimal(n).len() >= 1,
    decreases n,
{
    if n >= 10 {
        lemma_decimal_nonempty(n / 10);
    }
}

/// The decimal digit `d` as a text of one character.
fn digit_text(d: usize) -> (s: &'static str)
    requires
        d < 10,
    ensures
        s@ == seq![digit(d as nat)],
{
    proof {
        reveal_strlit("0");
        reveal_strlit("1");
        reveal_strlit("2");
        reveal_strlit("3");
        reveal_strlit("4");
        reveal_strlit("5");
        reveal_strlit("6");
        reveal_strlit("7");
        reveal_strlit("8");
        reveal_strlit("9");
    }
    let s = if d == 0 {
        "0"
    } else if d == 1 {
        "1"
    } else if d == 2 {
        "2"
    } else if d == 3 {
        "3"
    } else if d == 4 {
        "4"
    } else if d == 5 {
        "5"
    } else if d == 6 {
        "6"
    } else if d == 7 {
        "7"
    } else if d == 8 {
        "8"
    } else {
        "9"
    };
    assert(s@ =~= seq![digit(d as nat)]);
    s
}

/// Writes `n` as a decimal numeral.
pub fn numeral(n: usize) -> (s: String)
    ensures
        s@ == decimal(n as nat),
    decreases n,
{
    if n < 10 {
        String::from_str(digit_text(n))
    } else {
        let mut s = numeral(n / 10);
        s.append(digit_text(n % 10));
        assert(s@ =~= decimal(n as nat));
        s
    }
}

impl SymbolGenerator {
    /// A generator that starts at zero.
    pub fn new() -> (gen: SymbolGenerator)
        ensures
            gen@ == 0,
    {
        SymbolGenerator { counter: 0 }
    }

    /// A generator that starts at `counter`.
    pub fn starting_at(counter: usize) -> (gen: SymbolGenerator)
        ensures
            gen@ == counter,
    {
        SymbolGenerator { counter }
    }

    /// Whether every name has been handed out.
    pub fn exhausted(&self) -> (b: bool)
        ensures
            b == (self@ >= usize::MAX),
    {
        self.counter == usize::MAX
    }
}

/// Hands out the next name, the numeral of the counter, and steps the counter.
pub fn next(gen: &mut SymbolGenerator) -> (name: String)
    requires
        old(gen)@ < usize::MAX,
    ensures
        name@ == decimal(old(gen)@),
        final(gen)@ == old(gen)@ + 1,
{
    let n = gen.counter;
    gen.counter = n + 1;
    numeral(n)
}

/// Starts the names again at zero.
pub fn reset(gen: &mut SymbolGenerator)
    ensures
        final(gen)@ == 0,
{
    gen.counter = 0;
}

} // verus!
