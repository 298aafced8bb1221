//! Node identifiers: a one-character label followed by a decimal ordinal.
use vstd::prelude::*;
use vstd::utf8::is_ascii_chars;

verus! {

/// Number of groups the cluster is split into (and number of trunk nodes).
pub const N_GROUPS: u32 = 5;

pub open spec fn is_digit(c: char) -> bool {
    '0' <= c && c <= '9'
}

pub open spec fn digit_value(c: char) -> nat {
    (c as int - '0' as int) as nat
}

pub open spec fn all_digits(s: Seq<char>) -> bool {
    forall|i: int| 0 <= i < s.len() ==> is_digit(#[trigger] s[i])
}

/// Value of a sequence of decimal digits, most significant first.
pub open spec fn digits_value(s: Seq<char>) -> nat
    decreases s.len(),
{
    if s.len() == 0 {
        0
    } else {
        digits_value(s.drop_last()) * 10 + digit_value(s.last())
    }
}

/// The digits of an unsigned numeral that may carry one leading `+`.
pub open spec fn numeral_digits(s: Seq<char>) -> Seq<char> {
    if s.len() > 0 && s[0] == '+' {
        s.drop_first()
    } else {
        s
    }
}

/// `s` is the text of a `u32`: an optional `+`, then at least one digit, with
/// a value that fits in 32 bits.
pub open spec fn is_u32_numeral(s: Seq<char>) -> bool {
    let d = numeral_digits(s);
    &&& d.len() > 0
    &&& all_digits(d)
    &&& digits_value(d) <= u32::MAX
}

/// The ordinal embedded in a node identifier: the identifier is ASCII text,
/// one character followed by the text of a `u32`.
pub open spec fn ordinal_of(id: Seq<char>) -> Option<u32> {
    if id.len() >= 1 && is_ascii_chars(id) && is_u32_numeral(id.drop_first()) {
        Some(digits_value(numeral_digits(id.drop_first())) as u32)
    } else {
        None
    }
}

/// The group of an ordinal.
pub open spec fn group_of(ordinal: u32) -> u32 {
    ordinal % N_GROUPS
}

proof fn lemma_digits_value_prefix(s: Seq<char>, k: int)
    requires
        0 <= k <= s.len(),
        all_digits(s),
    ensures
        digits_value(s.subrange(0, k)) <= digits_value(s),
    decreases s.len() - k,
{
    if k < s.len() {
        lemma_digits_value_prefix(s, k + 1);
        assert(s.subrange(0, k + 1).drop_last() =~= s.subrange(0, k));
    } else {
        assert(s.subrange(0, k) =~= s);
    }
}

/// The ordinal of a node identifier such as `n7`, or `None` where the text
/// after the first character is not the text of a `u32`.
pub fn node_num(value: &String) -> (r: Option<u32>)
    ensures
        r == ordinal_of(value@),
{
    broadcast use vstd::string::group_string_axioms;

    let s = value.as_str();
    if !s.is_ascii() {
        return None;
    }
    let bytes = s.as_bytes();
    let n = bytes.len();
    let ghost id = value@;
    proof {
        assert(bytes@.len() == id.len());
        assert forall|i: int| 0 <= i < n implies bytes@[i] as int == #[trigger] id[i] as int by {
            let c = id[i];
            assert(c <= '\u{7f}');
            assert(c as u8 as int == c as int);
        }
    }
    if n < 2 {
        return None;
    }
    let mut start: usize = 1;
    if bytes[1] == 43u8 {
        start = 2;
    }
    let ghost d = numeral_digits(id.drop_first());
    proof {
        assert(d =~= id.subrange(start as int, n as int));
    }
    if start >= n {
        return None;
    }
    let mut k: usize = start;
    let mut acc: u64 = 0;
    while k < n
        invariant
            1 <= start <= k <= n,
            n == bytes@.len(),
            n == id.len(),
            id == value@,
            d == numeral_digits(id.drop_first()),
            d == id.subrange(start as int, n as int),
            forall|i: int| 0 <= i < n ==> bytes@[i] as int == #[trigger] id[i] as int,
            all_digits(d.subrange(0, k - start)),
            acc == digits_value(d.subrange(0, k - start)),
            acc <= u32::MAX,
        decreases n - k,
    {
        let b = bytes[k];
        proof {
            assert(d[k - start] == id[k as int]);
        }
        if b < 48u8 || b > 57u8 {
            proof {
                assert(!is_digit(d[k - start]));
                assert(!all_digits(d));
            }
            return None;
        }
        proof {
            assert(d.subrange(0, k + 1 - start).drop_last() =~= d.subrange(0, k - start));
        }
        acc = acc * 10 + (b - 48u8) as u64;
        if acc > 4294967295u64 {
            proof {
                if all_digits(d) {
                    lemma_digits_value_prefix(d, k + 1 - start);
                }
            }
            return None;
        }
        k = k + 1;
    }
    proof {
        assert(d.subrange(0, n - start) =~= d);
    }
    Some(acc as u32)
}

/// The group of a node identifier's ordinal.
pub fn node_group(value: &String) -> (r: Option<u32>)
    ensures
        r == (match ordinal_of(value@) {
            Some(o) => Some(group_of(o)),
            None => None,
        }),
{
    match node_num(value) {
        Some(o) => Some(o % N_GROUPS),
        None => None,
    }
}

} // verus!
