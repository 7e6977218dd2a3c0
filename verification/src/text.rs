use vstd::prelude::*;
use crate::LibError;

verus! {

/// The Unicode lowercasing of `s`, as `str::to_lowercase` computes it.
pub uninterp spec fn lower_of(s: Seq<char>) -> Seq<char>;

/// Relies on `str::to_lowercase`: the Unicode lowercase mapping of a string,
/// a function of its characters alone.
#[verifier::external_body]
pub(crate) fn lowercase(s: &str) -> (r: String)
    ensures
        r@ == lower_of(s@),
{
    s.to_lowercase()
}

pub open spec fn is_digit(c: char) -> bool {
    '0' <= c && c <= '9'
}

pub open spec fn digit_value(c: char) -> nat {
    (c as u32 - '0' as u32) as nat
}

/// The number that a sequence of decimal digits denotes, most significant first.
pub open spec fn digits_value(s: Seq<char>) -> nat
    decreases s.len(),
{
    if s.len() == 0 {
        0
    } else {
        digits_value(s.drop_last()) * 10 + digit_value(s.last())
    }
}

pub open spec fn all_digits(s: Seq<char>) -> bool {
    forall|i: int| 0 <= i < s.len() ==> is_digit(#[trigger] s[i])
}

/// A well-formed numeric id: nonempty, decimal digits only, value within `u32`.
pub open spec fn parses_to_u32(s: Seq<char>) -> bool {
    s.len() > 0 && all_digits(s) && digits_value(s) <= u32::MAX
}

/// The value of a prefix of a digit string never exceeds the value of the whole.
proof fn lemma_prefix_value_le(s: Seq<char>, i: int)
    requires
        0 <= i <= s.len(),
        all_digits(s),
    ensures
        digits_value(s.take(i)) <= digits_value(s),
    decreases s.len() - i,
{
    if i < s.len() {
        assert(s.take(i + 1).drop_last() =~= s.take(i));
        assert(digits_value(s.take(i)) <= digits_value(s.take(i + 1)));
        lemma_prefix_value_le(s, i + 1);
    } else {
        assert(s.take(i) =~= s);
    }
}

/// Reads a decimal member or item id from user-supplied text: accepted
/// exactly when the text is one or more decimal digits denoting a value
/// that fits in a `u32`.
pub fn parse_id(s: &str) -> (r: Result<u32, LibError>)
    ensures
        r == (if parses_to_u32(s@) {
            Result::<u32, LibError>::Ok(digits_value(s@) as u32)
        } else {
            Result::<u32, LibError>::Err(LibError::InvalidInput)
        }),
{
    if s.is_empty() {
        return Err(LibError::InvalidInput);
    }
    let mut value: u64 = 0;
    for c in it: s.chars()
        invariant
            it.seq() == s@,
            all_digits(s@.take(it.index() as int)),
            value == digits_value(s@.take(it.index() as int)),
            value <= u32::MAX as u64,
    {
        let ghost i = it.index() as int;
        proof {
            assert(s@.take(i + 1).drop_last() =~= s@.take(i));
            assert(s@.take(i + 1).last() == s@[i]);
        }
        if !(c >= '0' && c <= '9') {
            assert(!all_digits(s@));
            return Err(LibError::InvalidInput);
        }
        let d: u64 = (c as u32 - '0' as u32) as u64;
        value = value * 10 + d;
        if value > u32::MAX as u64 {
            proof {
                if all_digits(s@) {
                    lemma_prefix_value_le(s@, i + 1);
                }
            }
            return Err(LibError::InvalidInput);
        }
    }
    proof {
        assert(s@.take(s@.len() as int) =~= s@);
    }
    Ok(value as u32)
}

} // verus!
