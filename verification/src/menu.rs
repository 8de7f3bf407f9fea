//! Reading a choice from an interactive menu.

use vstd::prelude::*;
use crate::text::{chars_of, equals, trim, trim_bounds};

verus! {

/// The digit character for `d < 10`.
pub open spec fn digit(d: nat) -> char {
    (48 + d) as char
}

/// The decimal numeral of `k`, without leading zeros.
pub open spec fn decimal(k: nat) -> Seq<char>
    decreases k,
{
    if k < 10 {
        seq![digit(k)]
    } else {
        decimal(k / 10).push(digit(k % 10))
    }
}

fn digit_char(d: u8) -> (c: char)
    requires
        d < 10,
    ensures
        c == digit(d as nat),
{
    (48u8 + d) as char
}

fn decimal_chars(k: u8) -> (v: Vec<char>)
    ensures
        v@ == decimal(k as nat),
{
    let mut v: Vec<char> = Vec::new();
    if k >= 100 {
        v.push(digit_char(k / 100));
    }
    if k >= 10 {
        v.push(digit_char(k / 10 % 10));
    }
    v.push(digit_char(k % 10));
    proof {
        reveal_with_fuel(decimal, 3);
        if k >= 100 {
            assert((k / 10) as nat / 10 == k / 100);
            assert(decimal((k / 10) as nat) =~= seq![digit((k / 100) as nat), digit((k / 10 % 10) as nat)]);
        }
    }
    assert(v@ =~= decimal(k as nat));
    v
}

pub proof fn lemma_decimal_len(k: nat)
    ensures
        decimal(k).len() >= 1,
        k >= 10 ==> decimal(k).len() >= 2,
    decreases k,
{
    if k >= 10 {
        lemma_decimal_len(k / 10);
    }
}

/// Distinct numbers have distinct numerals, so a menu entry is recognised by
/// its numeral alone.
pub proof fn decimal_is_injective(j: nat, k: nat)
    requires
        decimal(j) == decimal(k),
    ensures
        j == k,
    decreases j,
{
    lemma_decimal_len(j);
    lemma_decimal_len(k);
    if j < 10 && k < 10 {
        assert(decimal(j)[0] == digit(j));
        assert(decimal(k)[0] == digit(k));
        assert(digit(j) as int == 48 + j);
        assert(digit(k) as int == 48 + k);
    } else if j >= 10 && k >= 10 {
        assert(decimal(j).last() == digit(j % 10));
        assert(decimal(k).last() == digit(k % 10));
        assert(digit(j % 10) as int == 48 + j % 10);
        assert(digit(k % 10) as int == 48 + k % 10);
        assert(decimal(j).drop_last() =~= decimal(j / 10));
        assert(decimal(k).drop_last() =~= decimal(k / 10));
        decimal_is_injective(j / 10, k / 10);
    } else {
        assert(decimal(j).len() != decimal(k).len());
    }
}

/// Reads the choice typed at a menu whose entries are numbered `0..=last`:
/// the number whose numeral the trimmed input is, if it is an entry.
pub fn parse_menu_choice(input: &str, last: u8) -> (choice: Option<u8>)
    ensures
        match choice {
            Some(k) => k <= last && decimal(k as nat) == trim(input@),
            None => forall|k: nat| k <= last ==> decimal(k) != trim(input@),
        },
{
    let v = chars_of(input);
    let (a, b) = trim_bounds(&v, 0, v.len());
    assert(v@.subrange(0, v@.len() as int) =~= v@);
    let mut k: u8 = 0;
    loop
        invariant
            v@ == input@,
            v@.subrange(a as int, b as int) == trim(input@),
            a <= b <= v@.len(),
            k <= last,
            forall|j: nat| j < k ==> decimal(j) != trim(input@),
        decreases last - k,
    {
        if equals(&v, a, b, &decimal_chars(k)) {
            return Some(k);
        }
        if k == last {
            assert forall|j: nat| j <= last implies decimal(j) != trim(input@) by {
                if j == k {
                }
            }
            return None;
        }
        k = k + 1;
    }
}

/// A numeral typed for an entry, with any surrounding whitespace, selects
/// exactly that entry.
pub proof fn menu_choice_roundtrip(input: Seq<char>, k: nat, last: nat)
    requires
        k <= last,
        trim(input) == decimal(k),
    ensures
        forall|j: nat| j <= last && decimal(j) == trim(input) ==> j == k,
        exists|j: nat| j <= last && decimal(j) == trim(input),
{
    assert forall|j: nat| j <= last && decimal(j) == trim(input) implies j == k by {
        decimal_is_injective(j, k);
    }
    assert(decimal(k) == trim(input));
}

} // verus!
