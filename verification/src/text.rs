//! Verified text utilities: exact string equality, splitting on a
//! separator character, and decimal size parsing, each proved against a
//! spec-level definition over character sequences.

use vstd::prelude::*;
use vstd::string::StrSliceExecFns;

verus! {

/// Exact character-for-character equality of two string slices.
pub fn str_eq(a: &str, b: &str) -> (r: bool)
    ensures
        r == (a@ == b@),
{
    let an = a.unicode_len();
    let bn = b.unicode_len();
    if an != bn {
        proof {
            if a@ == b@ {
                assert(a@.len() == b@.len());
            }
        }
        return false;
    }
    let mut i: usize = 0;
    while i < an
        invariant
            an == a@.len(),
            bn == b@.len(),
            an == bn,
            0 <= i <= an,
            forall|k: int| 0 <= k < i ==> a@[k] == b@[k],
        decreases an - i,
    {
        if a.get_char(i) != b.get_char(i) {
            proof {
                if a@ == b@ {
                    assert(a@[i as int] == b@[i as int]);
                }
            }
            return false;
        }
        i += 1;
    }
    proof {
        assert(a@ =~= b@);
    }
    true
}

/// Splitting a character sequence on a separator, accumulating the token
/// read so far: every separator ends a token, and the remainder (possibly
/// empty) is the last token.  The result therefore always has at least one
/// element, and consecutive separators yield empty tokens.
pub open spec fn split_acc(s: Seq<char>, sep: char, cur: Seq<char>) -> Seq<Seq<char>>
    decreases s.len(),
{
    if s.len() == 0 {
        seq![cur]
    } else if s[0] == sep {
        seq![cur] + split_acc(s.skip(1), sep, Seq::empty())
    } else {
        split_acc(s.skip(1), sep, cur.push(s[0]))
    }
}

/// The tokens of s, split on the separator character.
pub open spec fn spec_split(s: Seq<char>, sep: char) -> Seq<Seq<char>> {
    split_acc(s, sep, Seq::empty())
}

pub proof fn lemma_split_acc_nonempty(s: Seq<char>, sep: char, cur: Seq<char>)
    ensures
        split_acc(s, sep, cur).len() >= 1,
    decreases s.len(),
{
    if s.len() == 0 {
    } else if s[0] == sep {
    } else {
        lemma_split_acc_nonempty(s.skip(1), sep, cur.push(s[0]));
    }
}

/// Splits a string on a separator character; the result holds every token
/// in order, empty tokens included.
pub fn split_str(s: &str, sep: char) -> (v: Vec<String>)
    ensures
        v@.map_values(|t: String| t@) == spec_split(s@, sep),
        v@.len() >= 1,
{
    let n = s.unicode_len();
    let mut v: Vec<String> = Vec::new();
    let mut ts: usize = 0;
    let mut i: usize = 0;
    proof {
        assert(v@.map_values(|t: String| t@) =~= Seq::<Seq<char>>::empty());
        assert(s@.skip(0) =~= s@);
        assert(s@.subrange(0, 0) =~= Seq::<char>::empty());
    }
    while i < n
        invariant
            n == s@.len(),
            ts <= i <= n,
            spec_split(s@, sep) == v@.map_values(|t: String| t@) + split_acc(
                s@.skip(i as int),
                sep,
                s@.subrange(ts as int, i as int),
            ),
        decreases n - i,
    {
        let ghost prev = v@.map_values(|t: String| t@);
        let ghost cur = s@.subrange(ts as int, i as int);
        proof {
            assert(s@.skip(i as int)[0] == s@[i as int]);
            assert(s@.skip(i as int).skip(1) =~= s@.skip(i + 1));
        }
        let c = s.get_char(i);
        if c == sep {
            let tok = String::from_str(s.substring_char(ts, i));
            v.push(tok);
            proof {
                assert(split_acc(s@.skip(i as int), sep, cur) == seq![cur] + split_acc(
                    s@.skip(i + 1),
                    sep,
                    Seq::empty(),
                ));
                assert(v@.map_values(|t: String| t@) =~= prev.push(cur));
                assert(prev + (seq![cur] + split_acc(s@.skip(i + 1), sep, Seq::empty()))
                    =~= prev.push(cur) + split_acc(s@.skip(i + 1), sep, Seq::empty()));
                assert(s@.subrange(i + 1, i + 1) =~= Seq::<char>::empty());
            }
            ts = i + 1;
        } else {
            proof {
                assert(split_acc(s@.skip(i as int), sep, cur) == split_acc(
                    s@.skip(i + 1),
                    sep,
                    cur.push(s@[i as int]),
                ));
                assert(cur.push(s@[i as int]) =~= s@.subrange(ts as int, i + 1));
            }
        }
        i += 1;
    }
    let ghost prev = v@.map_values(|t: String| t@);
    let ghost cur = s@.subrange(ts as int, n as int);
    proof {
        assert(s@.skip(n as int) =~= Seq::<char>::empty());
        assert(split_acc(s@.skip(n as int), sep, cur) == seq![cur]);
    }
    let tok = String::from_str(s.substring_char(ts, n));
    v.push(tok);
    proof {
        assert(v@.map_values(|t: String| t@) =~= prev.push(cur));
        assert(prev + seq![cur] =~= prev.push(cur));
    }
    v
}

/// The lines of a transcript: segments between newline characters, with a
/// single trailing newline closing the last line rather than opening an
/// empty one.
pub open spec fn spec_lines(s: Seq<char>) -> Seq<Seq<char>> {
    if s.len() == 0 {
        Seq::empty()
    } else if s.last() == '\n' {
        spec_split(s.drop_last(), '\n')
    } else {
        spec_split(s, '\n')
    }
}

/// Splits a transcript into its lines.
pub fn split_lines(s: &str) -> (v: Vec<String>)
    ensures
        v@.map_values(|t: String| t@) == spec_lines(s@),
{
    let n = s.unicode_len();
    if n == 0 {
        let v: Vec<String> = Vec::new();
        proof {
            assert(v@.map_values(|t: String| t@) =~= spec_lines(s@));
        }
        return v;
    }
    if s.get_char(n - 1) == '\n' {
        let body = s.substring_char(0, n - 1);
        proof {
            assert(body@ =~= s@.drop_last());
        }
        split_str(body, '\n')
    } else {
        split_str(s, '\n')
    }
}

/// Whether c is a decimal digit.
pub open spec fn is_digit(c: char) -> bool {
    '0' <= c && c <= '9'
}

/// The numeric value of a decimal digit.
pub open spec fn digit_val(c: char) -> nat {
    (c as int - '0' as int) as nat
}

/// Whether s is entirely decimal digits.
pub open spec fn all_digits(s: Seq<char>) -> bool {
    forall|i: int| 0 <= i < s.len() ==> is_digit(#[trigger] s[i])
}

/// The value of a digit string, most significant digit first.
pub open spec fn digits_value(s: Seq<char>) -> nat
    decreases s.len(),
{
    if s.len() == 0 {
        0
    } else {
        digits_value(s.drop_last()) * 10 + digit_val(s.last())
    }
}

/// What parsing a size field yields: the value of a non-empty all-digit
/// token that fits an unsigned 64-bit integer, and nothing otherwise.
pub open spec fn spec_parse_size(s: Seq<char>) -> Option<u64> {
    if s.len() >= 1 && all_digits(s) && digits_value(s) <= u64::MAX {
        Some(digits_value(s) as u64)
    } else {
        None
    }
}

/// The value of a digit string never falls when the string is extended.
proof fn lemma_digits_value_mono(s: Seq<char>, j: int)
    requires
        0 <= j <= s.len(),
    ensures
        digits_value(s) >= digits_value(s.take(j)),
    decreases s.len() - j,
{
    if j == s.len() {
        assert(s.take(j) =~= s);
    } else {
        assert(s.take(j + 1).drop_last() =~= s.take(j));
        assert(s.take(j + 1).last() == s[j]);
        lemma_digits_value_mono(s, j + 1);
    }
}

/// Parses a size field: the decimal value of a non-empty all-digit token,
/// or nothing on an empty token, a non-digit, or a value over u64::MAX.
pub fn parse_size(s: &str) -> (r: Option<u64>)
    ensures
        r == spec_parse_size(s@),
{
    let n = s.unicode_len();
    if n == 0 {
        return None;
    }
    let mut val: u64 = 0;
    let mut i: usize = 0;
    proof {
        assert(s@.take(0) =~= Seq::<char>::empty());
    }
    while i < n
        invariant
            n == s@.len(),
            0 <= i <= n,
            all_digits(s@.take(i as int)),
            val == digits_value(s@.take(i as int)),
        decreases n - i,
    {
        let c = s.get_char(i);
        proof {
            assert(s@.take(i + 1).drop_last() =~= s@.take(i as int));
            assert(s@.take(i + 1).last() == s@[i as int]);
        }
        if c < '0' || c > '9' {
            proof {
                assert(!is_digit(s@[i as int]));
            }
            return None;
        }
        let d: u64 = (c as u32 - 48) as u64;
        if val > u64::MAX / 10 || (val == u64::MAX / 10 && d > u64::MAX % 10) {
            proof {
                assert(digits_value(s@.take(i + 1)) > u64::MAX);
                lemma_digits_value_mono(s@, i + 1);
            }
            return None;
        }
        val = val * 10 + d;
        proof {
            assert(all_digits(s@.take(i + 1))) by {
                assert(forall|k: int|
                    0 <= k < i + 1 ==> is_digit(#[trigger] s@.take(i + 1)[k]));
            }
        }
        i += 1;
    }
    proof {
        assert(s@.take(n as int) =~= s@);
    }
    Some(val)
}

} // verus!
