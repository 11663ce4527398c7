//! Verified text utilities: splitting on a delimiter character and the
//! decimal rendering and parsing of the cost counter.

use vstd::prelude::*;
use vstd::string::*;

verus! {

/// No occurrence of `sep` anywhere in `s`.
pub open spec fn sep_free(s: Seq<char>, sep: char) -> bool {
    forall|i: int| 0 <= i < s.len() ==> s[i] != sep
}

/// Index of the first occurrence of `sep` in `s`, or -1 when there is none.
pub open spec fn find_idx(s: Seq<char>, sep: char) -> int
    decreases s.len(),
{
    if s.len() == 0 {
        -1
    } else if s[0] == sep {
        0
    } else {
        let r = find_idx(s.drop_first(), sep);
        if r < 0 {
            -1
        } else {
            r + 1
        }
    }
}

/// What `find_idx` finds: nothing only in a separator-free text, else the
/// first separator.
pub proof fn lemma_find_idx(s: Seq<char>, sep: char)
    ensures
        find_idx(s, sep) < 0 ==> sep_free(s, sep),
        find_idx(s, sep) >= 0 ==> {
            &&& find_idx(s, sep) < s.len()
            &&& s[find_idx(s, sep)] == sep
            &&& sep_free(s.take(find_idx(s, sep)), sep)
        },
    decreases s.len(),
{
    if s.len() > 0 && s[0] != sep {
        lemma_find_idx(s.drop_first(), sep);
        let r = find_idx(s.drop_first(), sep);
        if r < 0 {
            assert forall|i: int| 0 <= i < s.len() implies #[trigger] s[i] != sep by {
                if i > 0 {
                    assert(s.drop_first()[i - 1] != sep);
                }
            }
        } else {
            assert(s[r + 1] == s.drop_first()[r]);
            assert forall|i: int| 0 <= i < r + 1 implies #[trigger] s.take(r + 1)[i] != sep by {
                if i > 0 {
                    assert(s.drop_first().take(r)[i - 1] != sep);
                }
            }
        }
    }
}

/// A separator at `i` with none before it is the one `find_idx` finds.
pub proof fn lemma_find_idx_first(s: Seq<char>, sep: char, i: int)
    requires
        0 <= i < s.len(),
        s[i] == sep,
        sep_free(s.take(i), sep),
    ensures
        find_idx(s, sep) == i,
    decreases s.len(),
{
    if i == 0 {
    } else {
        assert(s[0] == s.take(i)[0]);
        assert forall|j: int| 0 <= j < i - 1 implies #[trigger] s.drop_first().take(i - 1)[j] != sep by {
            assert(s.take(i)[j + 1] != sep);
        }
        assert(s.drop_first()[i - 1] == sep);
        lemma_find_idx_first(s.drop_first(), sep, i - 1);
    }
}

/// The fields of `s` between occurrences of `sep`: one more field than
/// there are separators, in order, each free of the separator.
pub open spec fn spec_split(s: Seq<char>, sep: char) -> Seq<Seq<char>>
    decreases s.len(), via spec_split_decreases
{
    let f = find_idx(s, sep);
    if f < 0 {
        seq![s]
    } else {
        seq![s.take(f)] + spec_split(s.skip(f + 1), sep)
    }
}

#[via_fn]
proof fn spec_split_decreases(s: Seq<char>, sep: char) {
    lemma_find_idx(s, sep);
}

/// A separator-free text is a single field.
pub proof fn lemma_split_whole(a: Seq<char>, sep: char)
    requires
        sep_free(a, sep),
    ensures
        spec_split(a, sep) == seq![a],
{
    lemma_find_idx(a, sep);
    if find_idx(a, sep) >= 0 {
        assert(a[find_idx(a, sep)] == sep);
    }
}

/// Splitting past the first separator: a separator-free head becomes the
/// first field, and the rest splits on its own.
pub proof fn lemma_split_concat(a: Seq<char>, b: Seq<char>, sep: char)
    requires
        sep_free(a, sep),
    ensures
        spec_split(a + seq![sep] + b, sep) == seq![a] + spec_split(b, sep),
{
    let s = a + seq![sep] + b;
    assert(s[a.len() as int] == sep);
    assert(s.take(a.len() as int) =~= a);
    lemma_find_idx_first(s, sep, a.len() as int);
    assert(s.skip(a.len() + 1 as int) =~= b);
}

/// Every field of a split is free of the separator.
pub proof fn lemma_split_parts_sep_free(s: Seq<char>, sep: char)
    ensures
        forall|i: int|
            0 <= i < spec_split(s, sep).len() ==> sep_free(#[trigger] spec_split(s, sep)[i], sep),
    decreases s.len(),
{
    lemma_find_idx(s, sep);
    let f = find_idx(s, sep);
    if f >= 0 {
        lemma_split_parts_sep_free(s.skip(f + 1), sep);
        let parts = spec_split(s, sep);
        let rest = spec_split(s.skip(f + 1), sep);
        assert forall|i: int| 0 <= i < parts.len() implies sep_free(#[trigger] parts[i], sep) by {
            if i > 0 {
                assert(parts[i] == rest[i - 1]);
            }
        }
    }
}

/// Finds the first occurrence of `sep` in `s`, if any.
pub fn find_char(s: &str, sep: char) -> (r: Option<usize>)
    ensures
        match r {
            Some(i) => find_idx(s@, sep) == i,
            None => find_idx(s@, sep) < 0 && sep_free(s@, sep),
        },
{
    let n = s.unicode_len();
    let mut i: usize = 0;
    while i < n
        invariant
            n == s@.len(),
            0 <= i <= n,
            sep_free(s@.take(i as int), sep),
        decreases n - i,
    {
        let c = s.get_char(i);
        if c == sep {
            proof {
                lemma_find_idx_first(s@, sep, i as int);
            }
            return Some(i);
        }
        i += 1;
        proof {
            assert forall|j: int| 0 <= j < i implies #[trigger] s@.take(i as int)[j] != sep by {
                if j < i - 1 {
                    assert(s@.take(i - 1)[j] != sep);
                }
            }
        }
    }
    proof {
        assert(s@.take(n as int) =~= s@);
        lemma_find_idx(s@, sep);
        if find_idx(s@, sep) >= 0 {
            assert(s@[find_idx(s@, sep)] == sep);
        }
    }
    None
}

/// Splits `s` into its fields around every occurrence of `sep`.
pub fn split_str(s: &str, sep: char) -> (r: Vec<String>)
    ensures
        r@.map_values(|t: String| t@) == spec_split(s@, sep),
    decreases s@.len(),
{
    match find_char(s, sep) {
        None => {
            let mut v: Vec<String> = Vec::new();
            v.push(s.to_owned());
            proof {
                lemma_split_whole(s@, sep);
                assert(v@.map_values(|t: String| t@) =~= seq![s@]);
            }
            v
        },
        Some(i) => {
            proof {
                lemma_find_idx(s@, sep);
            }
            let n = s.unicode_len();
            let head = s.substring_char(0, i).to_owned();
            let tail = s.substring_char(i + 1, n);
            let mut rest = split_str(tail, sep);
            rest.insert(0, head);
            proof {
                assert(head@ =~= s@.take(i as int));
                assert(tail@ =~= s@.skip(i + 1));
                assert(rest@.map_values(|t: String| t@) =~= seq![s@.take(i as int)]
                    + spec_split(s@.skip(i + 1), sep));
            }
            rest
        },
    }
}

/// The value of a decimal digit character, or -1 for any other character.
pub open spec fn digit_val(c: char) -> int {
    if c == '0' {
        0
    } else if c == '1' {
        1
    } else if c == '2' {
        2
    } else if c == '3' {
        3
    } else if c == '4' {
        4
    } else if c == '5' {
        5
    } else if c == '6' {
        6
    } else if c == '7' {
        7
    } else if c == '8' {
        8
    } else if c == '9' {
        9
    } else {
        -1
    }
}

/// The character of a decimal digit.
pub open spec fn digit_char(d: int) -> char
    recommends
        0 <= d <= 9,
{
    if d == 0 {
        '0'
    } else if d == 1 {
        '1'
    } else if d == 2 {
        '2'
    } else if d == 3 {
        '3'
    } else if d == 4 {
        '4'
    } else if d == 5 {
        '5'
    } else if d == 6 {
        '6'
    } else if d == 7 {
        '7'
    } else if d == 8 {
        '8'
    } else {
        '9'
    }
}

/// A non-empty text of decimal digits only.
pub open spec fn is_digit_seq(s: Seq<char>) -> bool {
    s.len() > 0 && forall|i: int| 0 <= i < s.len() ==> digit_val(#[trigger] s[i]) >= 0
}

/// The number a digit text denotes, most significant digit first.
pub open spec fn dec_value(s: Seq<char>) -> int
    decreases s.len(),
{
    if s.len() == 0 {
        0
    } else {
        dec_value(s.drop_last()) * 10 + digit_val(s.last())
    }
}

/// What parsing a cost field yields: the denoted number, provided the text
/// is a non-empty run of digits and the number fits the 64-bit counter.
pub open spec fn spec_parse_u64(s: Seq<char>) -> Option<u64> {
    if is_digit_seq(s) && dec_value(s) <= u64::MAX {
        Some(dec_value(s) as u64)
    } else {
        None
    }
}

/// The decimal rendering of a non-negative number, without leading zeros.
pub open spec fn spec_dec_digits(n: int) -> Seq<char>
    recommends
        n >= 0,
    decreases n,
{
    if n < 10 {
        seq![digit_char(n)]
    } else {
        spec_dec_digits(n / 10) + seq![digit_char(n % 10)]
    }
}

/// Digit characters carry their value back.
proof fn lemma_digit_roundtrip(d: int)
    requires
        0 <= d <= 9,
    ensures
        digit_val(digit_char(d)) == d,
{
}

/// A decimal rendering is all digits and denotes the rendered number.
pub proof fn lemma_dec_digits_value(n: int)
    requires
        n >= 0,
    ensures
        is_digit_seq(spec_dec_digits(n)),
        dec_value(spec_dec_digits(n)) == n,
    decreases n,
{
    if n < 10 {
        lemma_digit_roundtrip(n);
        let w = seq![digit_char(n)];
        assert(spec_dec_digits(n) == w);
        assert(w.last() == digit_char(n));
        assert(w.drop_last() =~= Seq::<char>::empty());
        assert(dec_value(w.drop_last()) == 0);
        assert(dec_value(w) == dec_value(w.drop_last()) * 10 + digit_val(w.last()));
    } else {
        lemma_dec_digits_value(n / 10);
        lemma_digit_roundtrip(n % 10);
        let a = spec_dec_digits(n / 10);
        let w = a + seq![digit_char(n % 10)];
        assert(w.drop_last() =~= a);
        assert(w.last() == digit_char(n % 10));
        assert(dec_value(w) == dec_value(a) * 10 + (n % 10));
        vstd::arithmetic::div_mod::lemma_fundamental_div_mod(n, 10);
        assert forall|i: int| 0 <= i < w.len() implies digit_val(#[trigger] w[i]) >= 0 by {
            if i < a.len() {
                assert(digit_val(a[i]) >= 0);
            }
        }
    }
}

/// Digit characters are none of the delimiters the formats use.
pub proof fn lemma_digit_not_delim(c: char)
    ensures
        digit_val(c) >= 0 ==> c != '$' && c != ':' && c != '\n',
{
}

/// Parsing inverts rendering for every number the counter can hold.
pub proof fn lemma_parse_of_rendered(n: int)
    requires
        0 <= n <= u64::MAX,
    ensures
        spec_parse_u64(spec_dec_digits(n)) == Some(n as u64),
{
    lemma_dec_digits_value(n);
}

/// A longer run of digits never denotes a smaller number.
proof fn lemma_dec_value_grows(s: Seq<char>, i: int)
    requires
        0 <= i <= s.len(),
        forall|j: int| i <= j < s.len() ==> digit_val(#[trigger] s[j]) >= 0,
        dec_value(s.take(i)) >= 0,
    ensures
        dec_value(s) >= dec_value(s.take(i)),
    decreases s.len() - i,
{
    if i < s.len() {
        let t = s.drop_last();
        assert(t.take(i) =~= s.take(i));
        lemma_dec_value_grows(t, i);
        assert(dec_value(s) == dec_value(t) * 10 + digit_val(s.last()));
        assert(digit_val(s[s.len() - 1]) >= 0);
    } else {
        assert(s.take(i) =~= s);
    }
}

/// Parses a non-empty run of decimal digits into the 64-bit counter,
/// rejecting any other character and any value that does not fit.
pub fn parse_u64_digits(s: &str) -> (r: Option<u64>)
    ensures
        r == spec_parse_u64(s@),
{
    let n = s.unicode_len();
    if n == 0 {
        return None;
    }
    let mut acc: u64 = 0;
    let mut i: usize = 0;
    while i < n
        invariant
            n == s@.len(),
            n > 0,
            0 <= i <= n,
            forall|j: int| 0 <= j < i ==> digit_val(#[trigger] s@[j]) >= 0,
            acc == dec_value(s@.take(i as int)),
        decreases n - i,
    {
        let c = s.get_char(i);
        let d: u64 = if c == '0' {
            0
        } else if c == '1' {
            1
        } else if c == '2' {
            2
        } else if c == '3' {
            3
        } else if c == '4' {
            4
        } else if c == '5' {
            5
        } else if c == '6' {
            6
        } else if c == '7' {
            7
        } else if c == '8' {
            8
        } else if c == '9' {
            9
        } else {
            return None;
        };
        assert(d == digit_val(s@[i as int]));
        let limit: u64 = (u64::MAX - d) / 10;
        proof {
            vstd::arithmetic::div_mod::lemma_fundamental_div_mod(u64::MAX - d, 10);
            assert(s@.take(i + 1).drop_last() =~= s@.take(i as int));
        }
        if acc > limit {
            proof {
                assert(dec_value(s@.take(i + 1)) > u64::MAX);
                if is_digit_seq(s@) {
                    lemma_dec_value_grows(s@, i + 1);
                    assert(dec_value(s@) > u64::MAX);
                }
                assert(spec_parse_u64(s@) is None);
            }
            return None;
        }
        acc = acc * 10 + d;
        i += 1;
    }
    proof {
        assert(s@.take(n as int) =~= s@);
    }
    Some(acc)
}

/// Returns the character of one decimal digit as text.
fn digit_str(d: u64) -> (r: &'static str)
    requires
        d <= 9,
    ensures
        r@ == seq![digit_char(d as int)],
{
    proof {
        reveal_strlit("0");
        reveal_strlit("1");
        reveal_strlit("2");
        reveal_strlit("3");
        reveal_strlit("4");
        reveal_strlit("5");
        reveal_strlit("6");
        reveal_strlit("7");
        reveal_strlit("8");
        reveal_strlit("9");
    }
    let r = if d == 0 {
        "0"
    } else if d == 1 {
        "1"
    } else if d == 2 {
        "2"
    } else if d == 3 {
        "3"
    } else if d == 4 {
        "4"
    } else if d == 5 {
        "5"
    } else if d == 6 {
        "6"
    } else if d == 7 {
        "7"
    } else if d == 8 {
        "8"
    } else {
        "9"
    };
    proof {
        assert(r@ =~= seq![digit_char(d as int)]);
    }
    r
}

/// Renders the counter in decimal, most significant digit first.
pub fn u64_to_dec(n: u64) -> (r: String)
    ensures
        r@ == spec_dec_digits(n as int),
    decreases n,
{
    if n < 10 {
        digit_str(n).to_owned()
    } else {
        let mut s = u64_to_dec(n / 10);
        s.append(digit_str(n % 10));
        proof {
            assert(s@ =~= spec_dec_digits(n as int));
        }
        s
    }
}

} // verus!
