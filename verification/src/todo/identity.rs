//! Identifiers of to-do items: a few random digits in base sixteen.

use vstd::prelude::*;

use crate::text::{chars_of, same_text, string_from};
use crate::todo::value::{hex_lower, id_of, is_hex};

verus! {

/// How often an identifier of the same length is tried.
pub const MAX_ATTEMPTS_PER_LENGTH: usize = 100;

/// How often an identifier is tried in all.
pub const MAX_ATTEMPTS: usize = 500;

/// A digit in base sixteen.
pub open spec fn hex_char(d: int) -> char {
    if d < 10 {
        (d + '0' as int) as char
    } else {
        (d - 10 + 'a' as int) as char
    }
}

/// The identifier with these digits.
pub open spec fn id_with(digits: Seq<u32>) -> Seq<char> {
    digits.map_values(|d: u32| hex_char(d as int))
}

/// How long the identifier of an attempt is, counted from zero: four digits at first, and
/// one more after every hundred attempts.
pub open spec fn length_at(attempt: int) -> int {
    4 + attempt / 100
}

/// Whether a text could be the identifier of an attempt.
pub open spec fn is_candidate(text: Seq<char>, attempt: int) -> bool {
    exists|digits: Seq<u32>|
        {
            &&& #[trigger] id_with(digits) == text
            &&& digits.len() == length_at(attempt)
            &&& forall|i: int| 0 <= i < digits.len() ==> #[trigger] digits[i] < 16
        }
}

/// Whether a test gave this answer for a text.
pub open spec fn answered<F: FnMut(&str) -> bool>(test: F, text: Seq<char>, answer: bool) -> bool {
    exists|s: &str| s@ == text && #[trigger] call_ensures(test, (s,), answer)
}

/// Whether these identifiers were tried one after the other, and each was taken.
pub open spec fn all_taken<F: FnMut(&str) -> bool>(test: F, tried: Seq<Seq<char>>) -> bool {
    forall|i: int|
        0 <= i < tried.len() ==> is_candidate(#[trigger] tried[i], i) && answered(
            test,
            tried[i],
            true,
        )
}

/// A number below a bound, by `rand::Rng::random_range` on `rand::rng()`, which panics
/// where there is none. The contract claims that the number is below the bound; which one
/// it is depends on chance.
#[verifier::external_body]
fn random_below(bound: u32) -> (d: u32)
    requires
        bound > 0,
    ensures
        d < bound,
{
    rand::Rng::random_range(&mut rand::rng(), 0..bound)
}

/// A digit in base sixteen.
fn hex_digit(d: u32) -> (c: char)
    requires
        d < 16,
    ensures
        c == hex_char(d as int),
{
    match d {
        0 => '0',
        1 => '1',
        2 => '2',
        3 => '3',
        4 => '4',
        5 => '5',
        6 => '6',
        7 => '7',
        8 => '8',
        9 => '9',
        10 => 'a',
        11 => 'b',
        12 => 'c',
        13 => 'd',
        14 => 'e',
        _ => 'f',
    }
}

/// The identifier with these digits.
pub fn id_from_digits(digits: &[u32]) -> (r: String)
    requires
        forall|i: int| 0 <= i < digits.len() ==> #[trigger] digits[i] < 16,
    ensures
        r@ == id_with(digits@),
{
    let mut r: Vec<char> = Vec::new();
    let mut i: usize = 0;
    while i < digits.len()
        invariant
            i <= digits.len(),
            forall|k: int| 0 <= k < digits.len() ==> #[trigger] digits[k] < 16,
            r@ == id_with(digits@).take(i as int),
        decreases digits.len() - i,
    {
        r.push(hex_digit(digits[i]));
        i = i + 1;
    }
    assert(id_with(digits@).take(i as int) =~= id_with(digits@));
    string_from(r.as_slice())
}

/// How long the identifier of an attempt is.
pub fn id_length(attempt: usize) -> (r: usize)
    requires
        attempt < MAX_ATTEMPTS,
    ensures
        r == length_at(attempt as int),
        4 <= r <= 8,
{
    4 + attempt / MAX_ATTEMPTS_PER_LENGTH
}

/// Random digits.
fn random_digits(len: usize) -> (r: Vec<u32>)
    ensures
        r.len() == len,
        forall|i: int| 0 <= i < r.len() ==> #[trigger] r[i] < 16,
{
    let mut r: Vec<u32> = Vec::new();
    while r.len() < len
        invariant
            r.len() <= len,
            forall|i: int| 0 <= i < r.len() ==> #[trigger] r[i] < 16,
        decreases len - r.len(),
    {
        r.push(random_below(16));
    }
    r
}

/// Makes an identifier that is not taken: random digits, four at first and more the more
/// often they are taken. Gives up where all attempts are. Which digits are tried depends on
/// chance; the contract says that those before the result were taken and the result is
/// not.
pub fn generate_id<F: FnMut(&str) -> bool>(is_duplicate: F) -> (r: Option<String>)
    requires
        forall|id: &str| call_requires(is_duplicate, (id,)),
    ensures
        match r {
            Some(id) => exists|tried: Seq<Seq<char>>|
                {
                    &&& tried.len() < MAX_ATTEMPTS
                    &&& #[trigger] all_taken(is_duplicate, tried)
                    &&& is_candidate(id@, tried.len() as int)
                    &&& answered(is_duplicate, id@, false)
                },
            None => exists|tried: Seq<Seq<char>>|
                tried.len() == MAX_ATTEMPTS && #[trigger] all_taken(is_duplicate, tried),
        },
{
    let mut test: F = is_duplicate;
    let ghost mut tried: Seq<Seq<char>> = Seq::empty();
    let mut attempt: usize = 0;
    while attempt < MAX_ATTEMPTS
        invariant
            attempt <= MAX_ATTEMPTS,
            tried.len() == attempt,
            test == is_duplicate,
            all_taken(is_duplicate, tried),
            forall|id: &str| call_requires(is_duplicate, (id,)),
        decreases MAX_ATTEMPTS - attempt,
    {
        let digits: Vec<u32> = random_digits(id_length(attempt));
        let id: String = id_from_digits(digits.as_slice());
        assert(id_with(digits@) == id@);
        assert(is_candidate(id@, attempt as int));
        let taken: bool = test(id.as_str());
        assert(answered(is_duplicate, id@, taken));
        if !taken {
            return Some(id);
        }
        proof {
            let before = tried;
            tried = before.push(id@);
            assert forall|i: int| 0 <= i < tried.len() implies is_candidate(#[trigger] tried[i], i)
                && answered(is_duplicate, tried[i], true) by {
                if i < before.len() {
                    assert(tried[i] == before[i]);
                }
            }
        }
        attempt = attempt + 1;
    }
    None
}

/// Whether an identifier is among those of the known to-do items, some of which have none.
pub open spec fn is_known(ids: Seq<Option<String>>, id: Seq<char>) -> bool {
    exists|k: int| 0 <= k < ids.len() && (#[trigger] ids[k] matches Some(known) && known@ == id)
}

/// Whether an identifier is among those of the known to-do items.
pub fn id_exists(ids: &[Option<String>], id: &str) -> (r: bool)
    ensures
        r == is_known(ids@, id@),
{
    let mut k: usize = 0;
    while k < ids.len()
        invariant
            k <= ids.len(),
            forall|j: int|
                0 <= j < k ==> !(#[trigger] ids[j] matches Some(known) && known@ == id@),
        decreases ids.len() - k,
    {
        if let Some(known) = &ids[k] {
            if same_text(chars_of(known.as_str()).as_slice(), id) {
                assert(ids@[k as int] matches Some(known) && known@ == id@);
                return true;
            }
        }
        k = k + 1;
    }
    false
}

/// Every identifier that is tried can be written into a line and read back as it is.
pub proof fn law_candidates_are_identifiers(text: Seq<char>, attempt: int)
    requires
        0 <= attempt < MAX_ATTEMPTS,
        is_candidate(text, attempt),
    ensures
        id_of(text) == Some(text),
{
    let digits = choose|digits: Seq<u32>|
        {
            &&& #[trigger] id_with(digits) == text
            &&& digits.len() == length_at(attempt)
            &&& forall|i: int| 0 <= i < digits.len() ==> #[trigger] digits[i] < 16
        };
    assert forall|i: int| 0 <= i < text.len() implies is_hex(#[trigger] text[i]) && hex_lower(
        text[i],
    ) == text[i] by {
        assert(digits[i] < 16);
        assert(text[i] == hex_char(digits[i] as int));
    }
    assert(text.map_values(|c: char| hex_lower(c)) =~= text);
}

/// What is tried are four to eight digits in base sixteen, in small letters: four in each of
/// the first hundred attempts, and one more in each further hundred.
pub proof fn law_candidates_are_digits(text: Seq<char>, attempt: int)
    requires
        0 <= attempt,
    ensures
        attempt < MAX_ATTEMPTS <==> attempt < 5 * 100,
        is_candidate(text, attempt) <==> {
            &&& 100 * (text.len() - 4) <= attempt < 100 * (text.len() - 3)
            &&& forall|i: int|
                0 <= i < text.len() ==> '0' <= #[trigger] text[i] <= '9' || 'a' <= text[i] <= 'f'
        },
{
    if is_candidate(text, attempt) {
        let digits = choose|digits: Seq<u32>|
            {
                &&& #[trigger] id_with(digits) == text
                &&& digits.len() == length_at(attempt)
                &&& forall|i: int| 0 <= i < digits.len() ==> #[trigger] digits[i] < 16
            };
        assert forall|i: int| 0 <= i < text.len() implies '0' <= #[trigger] text[i] <= '9' || 'a'
            <= text[i] <= 'f' by {
            assert(digits[i] < 16);
            assert(text[i] == hex_char(digits[i] as int));
        }
    }
    if 100 * (text.len() - 4) <= attempt < 100 * (text.len() - 3) && forall|i: int|
        0 <= i < text.len() ==> '0' <= #[trigger] text[i] <= '9' || 'a' <= text[i] <= 'f' {
        let digits = text.map_values(
            |c: char|
                if c <= '9' {
                    (c as int - '0' as int) as u32
                } else {
                    (c as int - 'a' as int + 10) as u32
                },
        );
        assert forall|i: int| 0 <= i < digits.len() implies #[trigger] digits[i] < 16 && hex_char(
            digits[i] as int,
        ) == text[i] by {
            assert('0' <= text[i] <= '9' || 'a' <= text[i] <= 'f');
        }
        assert(id_with(digits) =~= text);
        assert(is_candidate(text, attempt));
    }
}

/// Each digit of an identifier is the character of a number below sixteen, in the order of
/// the numbers.
pub proof fn law_digits_are_written(digits: Seq<u32>, i: int)
    requires
        0 <= i < digits.len(),
        digits[i] < 16,
    ensures
        id_with(digits).len() == digits.len(),
        id_with(digits)[i] == "0123456789abcdef"@[digits[i] as int],
{
    reveal_strlit("0123456789abcdef");
}

/// A test has answered for a text exactly where it was asked about this text.
pub proof fn law_answers_are_those_of_the_test<F: FnMut(&str) -> bool>(
    test: F,
    s: &str,
    answer: bool,
)
    ensures
        call_ensures(test, (s,), answer) ==> answered(test, s@, answer),
        answered(test, s@, answer) ==> exists|t: &str|
            t@ == s@ && #[trigger] call_ensures(test, (t,), answer),
{
}

/// An identifier is known where one of the items has it; an item without one says nothing.
pub proof fn law_known_identifiers(ids: Seq<Option<String>>, more: Option<String>, id: Seq<char>)
    ensures
        !is_known(Seq::empty(), id),
        is_known(ids.push(more), id) <==> is_known(ids, id) || (more is Some && more.unwrap()@
            == id),
{
    let all = ids.push(more);
    if is_known(ids, id) {
        let k = choose|k: int|
            0 <= k < ids.len() && (#[trigger] ids[k] matches Some(known) && known@ == id);
        assert(all[k] == ids[k]);
        assert(all[k] matches Some(known) && known@ == id);
    }
    if more is Some && more.unwrap()@ == id {
        assert(all[ids.len() as int] matches Some(known) && known@ == id);
    }
    if is_known(all, id) {
        let k = choose|k: int|
            0 <= k < all.len() && (#[trigger] all[k] matches Some(known) && known@ == id);
        if k < ids.len() {
            assert(all[k] == ids[k]);
            assert(ids[k] matches Some(known) && known@ == id);
        }
    }
}

} // verus!
