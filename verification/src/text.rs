//! Text helpers: decimal numerals and splitting at a separator.

use vstd::prelude::*;
use vstd::string::*;

verus! {

/// The character that writes the decimal digit `d`.
pub open spec fn digit_char(d: nat) -> char
    recommends
        d < 10,
{
    if d == 0 {
        '0'
    } else if d == 1 {
        '1'
    } else if d == 2 {
        '2'
    } else if d == 3 {
        '3'
    } else if d == 4 {
        '4'
    } else if d == 5 {
        '5'
    } else if d == 6 {
        '6'
    } else if d == 7 {
        '7'
    } else if d == 8 {
        '8'
    } else {
        '9'
    }
}

/// The decimal numeral of `n`, without sign or leading zeros.
pub open spec fn decimal(n: nat) -> Seq<char>
    decreases n,
{
    if n < 10 {
        seq![digit_char(n)]
    } else {
        decimal(n / 10).push(digit_char(n % 10))
    }
}

fn digit_str(d: usize) -> (s: &'static str)
    requires
        d < 10,
    ensures
        s@ == seq![digit_char(d as nat)],
{
    proof {
        reveal_strlit("0");
        reveal_strlit("1");
        reveal_strlit("2");
        reveal_strlit("3");
        reveal_strlit("4");
        reveal_strlit("5");
        reveal_strlit("6");
        reveal_strlit("7");
        reveal_strlit("8");
        reveal_strlit("9");
    }
    let s = if d == 0 {
        "0"
    } else if d == 1 {
        "1"
    } else if d == 2 {
        "2"
    } else if d == 3 {
        "3"
    } else if d == 4 {
        "4"
    } else if d == 5 {
        "5"
    } else if d == 6 {
        "6"
    } else if d == 7 {
        "7"
    } else if d == 8 {
        "8"
    } else {
        "9"
    };
    assert(s@ =~= seq![digit_char(d as nat)]);
    s
}

/// Writes `n` as a decimal numeral.
pub fn decimal_string(n: usize) -> (s: String)
    ensures
        s@ == decimal(n as nat),
    decreases n,
{
    if n < 10 {
        String::from_str(digit_str(n))
    } else {
        let mut s = decimal_string(n / 10);
        s.append(digit_str(n % 10));
        assert(s@ =~= decimal(n as nat));
        s
    }
}

/// `str` equality, as std defines it: two strings are equal exactly when
/// they hold the same characters. Trusted.
pub assume_specification[ <str as PartialEq>::eq ](a: &str, b: &str) -> (same: bool)
    ensures
        same == (a@ == b@),
;

/// The views of a sequence of values, one for one.
pub open spec fn views<T: View>(items: Seq<T>) -> Seq<T::V> {
    items.map_values(|item: T| item@)
}

/// The place of the first `c` in `s`, or the length of `s` where `c` does not
/// occur in it.
pub open spec fn first_place(s: Seq<char>, c: char) -> int
    decreases s.len(),
{
    if s.len() == 0 || s[0] == c {
        0
    } else {
        1 + first_place(s.drop_first(), c)
    }
}

/// The first place of `c` is within `s` or at its end, holds `c` where it is
/// within, and no earlier place holds `c`.
pub proof fn lemma_first_place(s: Seq<char>, c: char)
    ensures
        0 <= first_place(s, c) <= s.len(),
        first_place(s, c) < s.len() ==> s[first_place(s, c)] == c,
        forall|j: int| 0 <= j < first_place(s, c) ==> s[j] != c,
    decreases s.len(),
{
    if s.len() == 0 || s[0] == c {
    } else {
        let rest = s.drop_first();
        lemma_first_place(rest, c);
        assert forall|j: int| 0 <= j < first_place(s, c) implies s[j] != c by {
            if j > 0 {
                assert(s[j] == rest[j - 1]);
            }
        }
    }
}

/// A place that holds `c`, or the end, with no `c` before it, is the first
/// place of `c`.
pub proof fn lemma_first_place_is(s: Seq<char>, c: char, i: int)
    requires
        0 <= i <= s.len(),
        i < s.len() ==> s[i] == c,
        forall|j: int| 0 <= j < i ==> s[j] != c,
    ensures
        first_place(s, c) == i,
    decreases s.len(),
{
    if i > 0 {
        let rest = s.drop_first();
        assert(s[0] != c);
        assert forall|j: int| 0 <= j < i - 1 implies rest[j] != c by {
            assert(rest[j] == s[j + 1]);
        }
        lemma_first_place_is(rest, c, i - 1);
    }
}

/// Finds the first `c` in `s`.
pub fn find_first(s: &str, c: char) -> (place: usize)
    ensures
        place == first_place(s@, c),
{
    let len = s.unicode_len();
    let mut i: usize = 0;
    while i < len
        invariant
            i <= len,
            len == s@.len(),
            forall|j: int| 0 <= j < i ==> s@[j] != c,
        decreases len - i,
    {
        if s.get_char(i) == c {
            proof {
                lemma_first_place_is(s@, c, i as int);
            }
            return i;
        }
        i += 1;
    }
    proof {
        lemma_first_place_is(s@, c, i as int);
    }
    i
}

/// What stands before the first `/` of a name: the user.
pub open spec fn user_part(name: Seq<char>) -> Seq<char> {
    name.take(first_place(name, '/'))
}

/// What stands between the first `/` of a name and the next, or its end: the
/// repository. A name without `/` names no repository.
pub open spec fn repo_part(name: Seq<char>) -> Option<Seq<char>> {
    let slash = first_place(name, '/');
    if slash == name.len() {
        None
    } else {
        let rest = name.skip(slash + 1);
        Some(rest.take(first_place(rest, '/')))
    }
}

/// The views of optional text.
pub open spec fn text_of(text: Option<&str>) -> Option<Seq<char>> {
    match text {
        Some(t) => Some(t@),
        None => None,
    }
}

/// Splits a name into the user and, where the name holds a `/`, the
/// repository.
pub fn split_name(name: &str) -> (parts: (&str, Option<&str>))
    ensures
        parts.0@ == user_part(name@),
        text_of(parts.1) == repo_part(name@),
{
    proof {
        lemma_first_place(name@, '/');
    }
    let len = name.unicode_len();
    let slash = find_first(name, '/');
    let user = name.substring_char(0, slash);
    if slash == len {
        return (user, None);
    }
    let rest = name.substring_char(slash + 1, len);
    proof {
        lemma_first_place(rest@, '/');
    }
    let end = find_first(rest, '/');
    let repo = rest.substring_char(0, end);
    (user, Some(repo))
}

} // verus!
