//! Renderings of bit sequences and symbol sequences as text, for the
//! presentation layer around the coder.

use vstd::prelude::*;

verus! {

/// The characters that render a bit sequence: `'1'` for each set bit,
/// `'0'` for each clear one.
pub open spec fn bits_as_chars(bits: Seq<bool>) -> Seq<char> {
    Seq::new(
        bits.len(),
        |i: int|
            if bits[i] {
                '1'
            } else {
                '0'
            },
    )
}

/// Relies on String::push: appends exactly the given character to the
/// end of the string.
#[verifier::external_body]
fn push_char(s: &mut String, c: char)
    ensures
        final(s)@ == old(s)@.push(c),
{
    s.push(c);
}

/// Renders a bit sequence as a string of `0` and `1` characters.
pub fn code_to_string(code: &Vec<bool>) -> (r: String)
    ensures
        r@ == bits_as_chars(code@),
{
    let n = code.len();
    let mut r = String::new();
    let mut i: usize = 0;
    while i < n
        invariant
            n == code@.len(),
            0 <= i <= n,
            r@.len() == i,
            forall|k: int|
                0 <= k < i ==> r@[k] == (if code@[k] {
                    '1'
                } else {
                    '0'
                }),
        decreases n - i,
    {
        if code[i] {
            push_char(&mut r, '1');
        } else {
            push_char(&mut r, '0');
        }
        i = i + 1;
    }
    proof {
        assert(r@ =~= bits_as_chars(code@));
    }
    r
}

/// Renders a symbol slice as the string of its symbols, concatenated.
pub fn char_slice_to_string(chars: &[char]) -> (r: String)
    ensures
        r@ == chars@,
{
    let n = chars.len();
    let mut r = String::new();
    let mut i: usize = 0;
    while i < n
        invariant
            n == chars@.len(),
            0 <= i <= n,
            r@ =~= chars@.take(i as int),
        decreases n - i,
    {
        let c = chars[i];
        push_char(&mut r, c);
        proof {
            assert(chars@.take(i as int + 1) =~= chars@.take(i as int).push(c));
        }
        i = i + 1;
    }
    proof {
        assert(chars@.take(n as int) =~= chars@);
    }
    r
}

/// Renders a symbol vector as the string of its symbols, concatenated.
pub fn char_vec_to_string(chars: &Vec<char>) -> (r: String)
    ensures
        r@ == chars@,
{
    char_slice_to_string(chars.as_slice())
}

} // verus!
