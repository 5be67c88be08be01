//! The names that a directory gives to children inserted without one.

use vstd::prelude::*;
use vstd::string::StringExecFns;
use crate::path::is_hidden;
use crate::path::self_alias;
use crate::path::separator;

verus! {

/// How many candidate names are tried before the search for a free one is given up.
pub const NAME_ATTEMPTS: usize = 100;

/// The decimal digit of a number below ten.
pub open spec fn digit(d: nat) -> char {
    if d == 0 {
        '0'
    } else if d == 1 {
        '1'
    } else if d == 2 {
        '2'
    } else if d == 3 {
        '3'
    } else if d == 4 {
        '4'
    } else if d == 5 {
        '5'
    } else if d == 6 {
        '6'
    } else if d == 7 {
        '7'
    } else if d == 8 {
        '8'
    } else {
        '9'
    }
}

/// A number written in decimal, without leading zeros.
pub open spec fn decimal(n: nat) -> Seq<char>
    decreases n,
{
    if n < 10 {
        seq![digit(n)]
    } else {
        decimal(n / 10).push(digit(n % 10))
    }
}

/// What every generated name begins with.
pub open spec fn anonymous_prefix() -> Seq<char> {
    seq!['.', '|', '|', '#', ':']
}

/// The generated name that carries the number `n`.
pub open spec fn anonymous_name(n: nat) -> Seq<char> {
    anonymous_prefix() + decimal(n)
}

/// A decimal numeral is not empty and holds digits only.
pub proof fn lemma_decimal_digits(n: nat)
    ensures
        decimal(n).len() >= 1,
        forall|i: int| 0 <= i < decimal(n).len() ==> '0' <= #[trigger] decimal(n)[i] <= '9',
    decreases n,
{
    if n >= 10 {
        lemma_decimal_digits(n / 10);
    }
}

/// A generated name is hidden, is not the alias of the directory itself, and holds no
/// separator, so that it is a path of one segment.
pub proof fn lemma_anonymous_name(n: nat)
    ensures
        anonymous_name(n).len() >= 6,
        is_hidden(anonymous_name(n)),
        anonymous_name(n) != self_alias(),
        !anonymous_name(n).contains(separator()),
{
    lemma_decimal_digits(n);
    let name = anonymous_name(n);
    if name.contains(separator()) {
        let i = choose|i: int| 0 <= i < name.len() && name[i] == separator();
        if i >= 5 {
            assert(name[i] == decimal(n)[i - 5]);
        }
    }
}

/// The numeral of one digit.
fn digit_str(d: u128) -> (s: &'static str)
    requires
        d < 10,
    ensures
        s@ == seq![digit(d as nat)],
{
    proof {
        reveal_strlit("0");
        reveal_strlit("1");
        reveal_strlit("2");
        reveal_strlit("3");
        reveal_strlit("4");
        reveal_strlit("5");
        reveal_strlit("6");
        reveal_strlit("7");
        reveal_strlit("8");
        reveal_strlit("9");
    }
    let s = if d == 0 {
        "0"
    } else if d == 1 {
        "1"
    } else if d == 2 {
        "2"
    } else if d == 3 {
        "3"
    } else if d == 4 {
        "4"
    } else if d == 5 {
        "5"
    } else if d == 6 {
        "6"
    } else if d == 7 {
        "7"
    } else if d == 8 {
        "8"
    } else {
        "9"
    };
    assert(s@ =~= seq![digit(d as nat)]);
    s
}

/// Writes `n` in decimal.
pub fn decimal_string(n: u128) -> (s: String)
    ensures
        s@ == decimal(n as nat),
    decreases n,
{
    if n < 10 {
        digit_str(n).to_owned()
    } else {
        let mut s = decimal_string(n / 10);
        s.append(digit_str(n % 10));
        assert(s@ =~= decimal((n / 10) as nat).push(digit((n % 10) as nat)));
        s
    }
}

/// The generated name that carries the number `n`.
pub fn anonymous(n: u128) -> (s: String)
    ensures
        s@ == anonymous_name(n as nat),
{
    proof {
        reveal_strlit(".||#:");
    }
    let mut s = ".||#:".to_owned();
    assert(s@ =~= anonymous_prefix());
    let digits = decimal_string(n);
    s.append(digits.as_str());
    s
}

} // verus!
