//! The alignment of a message against its own shifted prefixes, the first
//! step of a Vigenère brute force.

use vstd::prelude::*;
use vstd::utf8::{encode_utf8, is_ascii_chars, is_ascii_chars_encode_utf8};
use crate::text::{chars_of, text_between};

verus! {

/// `n` spaces.
pub open spec fn spaces(n: nat) -> Seq<char> {
    Seq::new(n, |_i: int| ' ')
}

/// The prefixes of the message, longest first: the `i`-th drops the last
/// `i` characters.
pub fn shifted_strings(message: &str) -> (shifted: Vec<String>)
    ensures
        shifted@.len() == message@.len(),
        forall|i: int|
            0 <= i < shifted@.len() ==> #[trigger] shifted@[i]@ == message@.take(
                message@.len() - i,
            ),
{
    let v = chars_of(message);
    let n = v.len();
    let mut shifted: Vec<String> = Vec::new();
    let mut i: usize = 0;
    while i < n
        invariant
            v@ == message@,
            n == v@.len(),
            i <= n,
            shifted@.len() == i,
            forall|j: int|
                0 <= j < i ==> #[trigger] shifted@[j]@ == message@.take(message@.len() - j),
        decreases n - i,
    {
        let p = text_between(message, 0, n - i);
        assert(message@.subrange(0, n - i) =~= message@.take(n - i));
        shifted.push(p);
        i = i + 1;
    }
    shifted
}

/// A shifted prefix aligned to the right of a row `width` characters wide.
/// The number of spaces put before it is `width` less the length of the
/// prefix in bytes, which is its length in characters for ASCII text.
pub fn compare_vector(shifted: &str, width: usize) -> (row: (usize, Vec<char>))
    requires
        encode_utf8(shifted@).len() <= width,
    ensures
        row.0 == width - encode_utf8(shifted@).len(),
        row.1@ == spaces(row.0 as nat) + shifted@,
{
    let chars = chars_of(shifted);
    let number_of_spaces = width - shifted.len();
    let mut row: Vec<char> = Vec::new();
    let mut j: usize = 0;
    while j < number_of_spaces
        invariant
            j <= number_of_spaces,
            row@ == spaces(j as nat),
        decreases number_of_spaces - j,
    {
        row.push(' ');
        j = j + 1;
        assert(row@ =~= spaces(j as nat));
    }
    let mut k: usize = 0;
    while k < chars.len()
        invariant
            k <= chars@.len(),
            chars@ == shifted@,
            row@ == spaces(number_of_spaces as nat) + chars@.take(k as int),
        decreases chars@.len() - k,
    {
        row.push(chars[k]);
        assert(chars@.take(k + 1) =~= chars@.take(k as int).push(chars@[k as int]));
        k = k + 1;
    }
    assert(chars@.take(chars@.len() as int) =~= chars@);
    (number_of_spaces, row)
}

/// For an ASCII message, every row built from a shifted prefix is as wide
/// as the message, its first `i` characters are spaces and the rest is the
/// message without its last `i` characters.
pub proof fn rows_are_right_aligned(message: Seq<char>, i: int)
    requires
        is_ascii_chars(message),
        0 <= i < message.len(),
    ensures
        ({
            let shifted = message.take(message.len() - i);
            let row = spaces((message.len() - encode_utf8(shifted).len()) as nat) + shifted;
            &&& encode_utf8(shifted).len() <= message.len()
            &&& row.len() == message.len()
            &&& row.take(i) == spaces(i as nat)
            &&& row.skip(i) == shifted
        }),
{
    let shifted = message.take(message.len() - i);
    assert(is_ascii_chars(shifted));
    is_ascii_chars_encode_utf8(shifted);
    let row = spaces((message.len() - encode_utf8(shifted).len()) as nat) + shifted;
    assert(row.take(i) =~= spaces(i as nat));
    assert(row.skip(i) =~= shifted);
}

} // verus!
