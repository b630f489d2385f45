//! Names of the files that hold the index of a version.

use crate::types::VersionHash;
use vstd::prelude::*;
use vstd::string::StringExecFns;

verus! {

/// The character of a decimal digit.
pub open spec fn digit(d: nat) -> char {
    ('0' as u32 + d) as char
}

/// A number in decimal, without leading zeros.
pub open spec fn decimal(n: nat) -> Seq<char>
    decreases n,
{
    if n < 10 {
        seq![digit(n)]
    } else {
        decimal(n / 10).push(digit(n % 10))
    }
}

/// A digit as a string of one character.
fn digit_str(d: u32) -> (r: &'static str)
    requires
        d < 10,
    ensures
        r@ == seq![digit(d as nat)],
{
    proof {
        reveal_strlit("0");
        reveal_strlit("1");
        reveal_strlit("2");
        reveal_strlit("3");
        reveal_strlit("4");
        reveal_strlit("5");
        reveal_strlit("6");
        reveal_strlit("7");
        reveal_strlit("8");
        reveal_strlit("9");
    }
    match d {
        0 => "0",
        1 => "1",
        2 => "2",
        3 => "3",
        4 => "4",
        5 => "5",
        6 => "6",
        7 => "7",
        8 => "8",
        _ => "9",
    }
}

/// Appends a number in decimal.
fn append_decimal(text: &mut String, n: u32)
    ensures
        final(text)@ == old(text)@ + decimal(n as nat),
    decreases n,
{
    if n >= 10 {
        append_decimal(text, n / 10);
    }
    text.append(digit_str(n % 10));
    proof {
        assert(text@ =~= old(text)@ + decimal(n as nat));
    }
}

/// The name of the index file of a version: its number and the extension `.index`.
pub fn index_file_name(version: &VersionHash) -> (r: String)
    ensures
        r@ == decimal(version.0 as nat) + ".index"@,
{
    let mut name = String::new();
    append_decimal(&mut name, version.0);
    assert(name@ =~= decimal(version.0 as nat));
    name.append(".index");
    name
}

/// Different versions have index files with different names.
pub proof fn index_file_names_differ(a: VersionHash, b: VersionHash)
    requires
        decimal(a.0 as nat) + ".index"@ == decimal(b.0 as nat) + ".index"@,
    ensures
        a == b,
{
    let x = decimal(a.0 as nat);
    let y = decimal(b.0 as nat);
    let s = ".index"@;
    assert((x + s).len() == x.len() + s.len());
    assert((y + s).len() == y.len() + s.len());
    assert(x =~= (x + s).take(x.len() as int));
    assert(y =~= (y + s).take(y.len() as int));
    decimal_is_injective(a.0 as nat, b.0 as nat);
}

/// Different numbers are written differently.
pub proof fn decimal_is_injective(m: nat, n: nat)
    requires
        decimal(m) == decimal(n),
    ensures
        m == n,
    decreases m,
{
    assert(decimal(m).last() == digit(m % 10));
    assert(decimal(n).last() == digit(n % 10));
    if m >= 10 && n >= 10 {
        assert(decimal(m).drop_last() =~= decimal(m / 10));
        assert(decimal(n).drop_last() =~= decimal(n / 10));
        decimal_is_injective(m / 10, n / 10);
    } else if m >= 10 {
        decimal_is_not_empty(m / 10);
    } else if n >= 10 {
        decimal_is_not_empty(n / 10);
    }
}

proof fn decimal_is_not_empty(n: nat)
    ensures
        decimal(n).len() > 0,
{
}

/// The number that a row of decimal digits stands for.
pub open spec fn number_read(text: Seq<char>) -> int
    decreases text.len(),
{
    if text.len() == 0 {
        0
    } else {
        number_read(text.drop_last()) * 10 + (text.last() as int - 48)
    }
}

/// A number is written in digits from `0` to `9` that read back as the number, and without a
/// leading zero unless it is zero itself.
pub proof fn decimal_reads_back(n: nat)
    ensures
        number_read(decimal(n)) == n,
        decimal(n).len() > 0,
        forall|i: int|
            0 <= i < decimal(n).len() ==> 48 <= (#[trigger] decimal(n)[i]) as int <= 57,
        decimal(n)[0] as int == 48 <==> n == 0,
        n == 0 ==> decimal(n).len() == 1,
    decreases n,
{
    let text = decimal(n);
    assert(text.last() == digit(n % 10));
    if n >= 10 {
        decimal_reads_back(n / 10);
        assert(text.drop_last() =~= decimal(n / 10));
        assert(text[0] == decimal(n / 10)[0]);
        assert forall|i: int| 0 <= i < text.len() implies 48 <= (#[trigger] text[i]) as int
            <= 57 by {
            if i < decimal(n / 10).len() {
                assert(text[i] == decimal(n / 10)[i]);
            }
        }
    } else {
        assert(text.drop_last() =~= Seq::empty());
        assert(number_read(Seq::empty()) == 0);
    }
}

} // verus!
