//! The names under which chunks and key store documents are stored.
//!
//! A chunk's name begins with the place where the session's chunks live and the
//! chunk's index, written in decimal; a random suffix follows, so that no name is
//! used twice whatever the content.

use vstd::prelude::*;
use vstd::string::StringExecFns;

verus! {

/// The character of a decimal digit.
pub open spec fn digit(value: nat) -> char
    recommends
        value < 10,
{
    if value == 0 {
        '0'
    } else if value == 1 {
        '1'
    } else if value == 2 {
        '2'
    } else if value == 3 {
        '3'
    } else if value == 4 {
        '4'
    } else if value == 5 {
        '5'
    } else if value == 6 {
        '6'
    } else if value == 7 {
        '7'
    } else if value == 8 {
        '8'
    } else {
        '9'
    }
}

/// Whether `c` is a decimal digit.
pub open spec fn is_digit(c: char) -> bool {
    '0' <= c <= '9'
}

/// The number that a decimal digit stands for.
pub open spec fn digit_value(c: char) -> nat
    recommends
        is_digit(c),
{
    if c == '0' {
        0
    } else if c == '1' {
        1
    } else if c == '2' {
        2
    } else if c == '3' {
        3
    } else if c == '4' {
        4
    } else if c == '5' {
        5
    } else if c == '6' {
        6
    } else if c == '7' {
        7
    } else if c == '8' {
        8
    } else {
        9
    }
}

/// `value` written in decimal, without leading zeros.
pub open spec fn decimal(value: nat) -> Seq<char>
    decreases value,
{
    if value < 10 {
        seq![digit(value)]
    } else {
        decimal(value / 10).push(digit(value % 10))
    }
}

/// The number that a run of decimal digits stands for.
pub open spec fn decimal_value(digits: Seq<char>) -> nat
    decreases digits.len(),
{
    if digits.len() == 0 {
        0
    } else {
        decimal_value(digits.drop_last()) * 10 + digit_value(digits.last())
    }
}

/// The name of chunk `index` of the session whose chunks live at `location`:
/// `<location>/<index>_<suffix>.bin`.
pub open spec fn chunk_name_spec(location: Seq<char>, index: nat, suffix: Seq<char>) -> Seq<
    char,
> {
    location + seq!['/'] + decimal(index) + seq!['_'] + suffix + seq!['.', 'b', 'i', 'n']
}

/// The name of the key store document of the session whose chunks live at
/// `location`: `keystore-<location>.json`.
pub open spec fn document_name_spec(location: Seq<char>) -> Seq<char> {
    seq!['k', 'e', 'y', 's', 't', 'o', 'r', 'e', '-'] + location + seq!['.', 'j', 's', 'o', 'n']
}

fn digit_text(value: usize) -> (text: &'static str)
    requires
        value < 10,
    ensures
        text@ == seq![digit(value as nat)],
{
    proof {
        reveal_strlit("0");
        reveal_strlit("1");
        reveal_strlit("2");
        reveal_strlit("3");
        reveal_strlit("4");
        reveal_strlit("5");
        reveal_strlit("6");
        reveal_strlit("7");
        reveal_strlit("8");
        reveal_strlit("9");
    }
    let text = if value == 0 {
        "0"
    } else if value == 1 {
        "1"
    } else if value == 2 {
        "2"
    } else if value == 3 {
        "3"
    } else if value == 4 {
        "4"
    } else if value == 5 {
        "5"
    } else if value == 6 {
        "6"
    } else if value == 7 {
        "7"
    } else if value == 8 {
        "8"
    } else {
        "9"
    };
    assert(text@ =~= seq![digit(value as nat)]);
    text
}

/// Writes `value` in decimal.
pub fn decimal_string(value: usize) -> (text: String)
    ensures
        text@ == decimal(value as nat),
    decreases value,
{
    if value < 10 {
        String::from_str(digit_text(value))
    } else {
        let front = decimal_string(value / 10);
        let text = front.concat(digit_text(value % 10));
        assert(text@ =~= decimal(value as nat));
        text
    }
}

/// The name of chunk `index` of the session whose chunks live at `location`.
pub fn chunk_name(location: &str, index: usize, suffix: &str) -> (name: String)
    ensures
        name@ == chunk_name_spec(location@, index as nat, suffix@),
{
    proof {
        reveal_strlit("/");
        reveal_strlit("_");
        reveal_strlit(".bin");
    }
    let mut name = String::from_str(location);
    name.append("/");
    name.append(decimal_string(index).as_str());
    name.append("_");
    name.append(suffix);
    name.append(".bin");
    assert(name@ =~= chunk_name_spec(location@, index as nat, suffix@));
    name
}

/// The name of the key store document of the session whose chunks live at
/// `location`.
pub fn document_name(location: &str) -> (name: String)
    ensures
        name@ == document_name_spec(location@),
{
    proof {
        reveal_strlit("keystore-");
        reveal_strlit(".json");
    }
    let mut name = String::from_str("keystore-");
    name.append(location);
    name.append(".json");
    assert(name@ =~= document_name_spec(location@));
    name
}

/// A number in decimal is one digit or more, all of them digits, and stands for
/// that number.
pub proof fn lemma_decimal(value: nat)
    ensures
        decimal(value).len() >= 1,
        forall|k: int| 0 <= k < decimal(value).len() ==> is_digit(#[trigger] decimal(value)[k]),
        decimal_value(decimal(value)) == value,
    decreases value,
{
    if value < 10 {
        let text = decimal(value);
        assert(text.drop_last() =~= Seq::<char>::empty());
        assert(decimal_value(text.drop_last()) == 0);
    } else {
        lemma_decimal(value / 10);
        let text = decimal(value);
        assert(text.drop_last() =~= decimal(value / 10));
        assert(text.last() == digit(value % 10));
        assert forall|k: int| 0 <= k < text.len() implies is_digit(#[trigger] text[k]) by {
            if k < text.len() - 1 {
                assert(text[k] == decimal(value / 10)[k]);
            }
        }
    }
}

/// Chunks of one session with different indices have different names, whatever
/// their suffixes.
pub proof fn lemma_names_differ(
    location: Seq<char>,
    first: nat,
    first_suffix: Seq<char>,
    second: nat,
    second_suffix: Seq<char>,
)
    requires
        first != second,
    ensures
        chunk_name_spec(location, first, first_suffix) != chunk_name_spec(
            location,
            second,
            second_suffix,
        ),
{
    let a = decimal(first);
    let b = decimal(second);
    let one = chunk_name_spec(location, first, first_suffix);
    let two = chunk_name_spec(location, second, second_suffix);
    let base: int = location.len() as int + 1;
    lemma_decimal(first);
    lemma_decimal(second);
    if one == two {
        assert(one[base + a.len()] == '_');
        assert(two[base + b.len()] == '_');
        if a.len() < b.len() {
            assert(two[base + a.len()] == b[a.len() as int]);
            assert(is_digit(b[a.len() as int]));
        } else if b.len() < a.len() {
            assert(one[base + b.len()] == a[b.len() as int]);
            assert(is_digit(a[b.len() as int]));
        } else {
            assert forall|k: int| 0 <= k < a.len() implies a[k] == b[k] by {
                assert(one[base + k] == a[k]);
                assert(two[base + k] == b[k]);
            }
            assert(a =~= b);
        }
    }
}

} // verus!
