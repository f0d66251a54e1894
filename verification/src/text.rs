use vstd::prelude::*;

verus! {

/// Relies on `str::chars`: yields the characters of the string in order.
#[verifier::external_body]
pub fn str_to_chars(s: &str) -> (v: Vec<char>)
    ensures
        v@ == s@,
{
    s.chars().collect()
}

/// Relies on `String`'s `FromIterator<char>` impl: collecting characters
/// yields the string made of exactly those characters in order.
#[verifier::external_body]
pub fn chars_to_string(v: &Vec<char>) -> (s: String)
    ensures
        s@ == v@,
{
    v.iter().collect()
}

/// The needle occurs in the haystack starting at position `i`.
pub open spec fn is_sub_at(hay: Seq<char>, needle: Seq<char>, i: int) -> bool {
    0 <= i && i + needle.len() <= hay.len() && hay.subrange(i, i + needle.len()) == needle
}

/// The needle occurs somewhere in the haystack.
pub open spec fn contains_sub(hay: Seq<char>, needle: Seq<char>) -> bool {
    exists|i: int| is_sub_at(hay, needle, i)
}

/// Does the needle occur in the haystack starting at position `i`?
pub fn matches_at(hay: &Vec<char>, needle: &Vec<char>, i: usize) -> (r: bool)
    requires
        i + needle@.len() <= hay@.len(),
    ensures
        r == is_sub_at(hay@, needle@, i as int),
{
    let n = needle.len();
    let hl = hay.len();
    let mut k: usize = 0;
    while k < n
        invariant
            n == needle@.len(),
            hl == hay@.len(),
            i + n <= hl,
            k <= n,
            forall|j: int| 0 <= j < k ==> hay@[i + j] == needle@[j],
        decreases n - k,
    {
        if hay[i + k] != needle[k] {
            assert(hay@.subrange(i as int, i + n) != needle@) by {
                assert(hay@.subrange(i as int, i + n)[k as int] != needle@[k as int]);
            }
            return false;
        }
        k += 1;
    }
    assert(hay@.subrange(i as int, i + n) =~= needle@);
    true
}

/// Does the needle occur anywhere in the haystack?
pub fn contains_chars(hay: &Vec<char>, needle: &Vec<char>) -> (r: bool)
    ensures
        r == contains_sub(hay@, needle@),
{
    if needle.len() == 0 {
        assert(is_sub_at(hay@, needle@, 0)) by {
            assert(hay@.subrange(0, 0) =~= needle@);
        }
        return true;
    }
    if needle.len() > hay.len() {
        assert(forall|i: int| !is_sub_at(hay@, needle@, i));
        return false;
    }
    let hl = hay.len();
    let last = hay.len() - needle.len();
    let mut i: usize = 0;
    while i <= last
        invariant
            1 <= needle@.len() <= hay@.len(),
            hl == hay@.len(),
            last == hay@.len() - needle@.len(),
            i <= last + 1,
            forall|j: int| 0 <= j < i ==> !is_sub_at(hay@, needle@, j),
        decreases last + 1 - i,
    {
        if matches_at(hay, needle, i) {
            return true;
        }
        i += 1;
    }
    assert(forall|j: int| is_sub_at(hay@, needle@, j) ==> 0 <= j <= last);
    false
}

/// The characters after the first one.
pub fn tail_chars(v: &Vec<char>) -> (r: Vec<char>)
    requires
        v@.len() >= 1,
    ensures
        r@ == v@.skip(1),
{
    let n = v.len();
    let mut r: Vec<char> = Vec::new();
    let mut k: usize = 1;
    while k < n
        invariant
            1 <= k <= n,
            n == v@.len(),
            r@ == v@.subrange(1, k as int),
        decreases n - k,
    {
        r.push(v[k]);
        proof {
            assert(v@.subrange(1, k as int).push(v@[k as int]) =~= v@.subrange(1, k as int + 1));
        }
        k += 1;
    }
    proof {
        assert(v@.subrange(1, n as int) =~= v@.skip(1));
    }
    r
}

/// A decimal digit.
pub open spec fn is_digit(c: char) -> bool {
    0x30 <= c as u32 <= 0x39
}

/// The numeric value of a decimal digit.
pub open spec fn digit_val(c: char) -> int {
    c as u32 - 0x30
}

/// The value of a sequence of decimal digits, most significant first.
pub open spec fn dec_val(s: Seq<char>) -> int
    decreases s.len(),
{
    if s.len() == 0 {
        0
    } else {
        dec_val(s.drop_last()) * 10 + digit_val(s.last())
    }
}

/// The digit part of a decimal numeral: an optional leading `+` is allowed.
pub open spec fn numeral_digits(s: Seq<char>) -> Seq<char> {
    if s.len() > 0 && s[0] == '+' {
        s.skip(1)
    } else {
        s
    }
}

/// Every character of the sequence is a decimal digit.
pub open spec fn all_digits(s: Seq<char>) -> bool {
    forall|i: int| 0 <= i < s.len() ==> is_digit(#[trigger] s[i])
}

/// The text is a decimal numeral for a value below 2^32: an optional `+`,
/// then at least one digit.
pub open spec fn is_u32_numeral(s: Seq<char>) -> bool {
    numeral_digits(s).len() > 0 && all_digits(numeral_digits(s)) && dec_val(numeral_digits(s))
        < 0x1_0000_0000
}

pub proof fn lemma_dec_val_nonneg(s: Seq<char>)
    requires
        all_digits(s),
    ensures
        dec_val(s) >= 0,
    decreases s.len(),
{
    if s.len() > 0 {
        lemma_dec_val_nonneg(s.drop_last());
    }
}

proof fn lemma_dec_val_prefix_monotone(s: Seq<char>, i: int)
    requires
        all_digits(s),
        0 <= i <= s.len(),
    ensures
        dec_val(s) >= dec_val(s.take(i)),
    decreases s.len() - i,
{
    if i < s.len() {
        lemma_dec_val_prefix_monotone(s, i + 1);
        let t = s.take(i + 1);
        assert(t.drop_last() =~= s.take(i));
        lemma_dec_val_nonneg(s.take(i));
        assert(dec_val(t) == dec_val(s.take(i)) * 10 + digit_val(t.last()));
    } else {
        assert(s.take(i) =~= s);
    }
}

/// Reads the text as a decimal numeral for a 32-bit value: an optional
/// leading `+`, then decimal digits. Anything else, or a value of 2^32 or
/// more, is refused.
pub fn parse_u32_numeral(s: &Vec<char>) -> (r: Option<u32>)
    ensures
        r is Some <==> is_u32_numeral(s@),
        r matches Some(v) ==> v == dec_val(numeral_digits(s@)),
{
    let n = s.len();
    let start: usize = if n > 0 && s[0] == '+' {
        1
    } else {
        0
    };
    let ghost d = numeral_digits(s@);
    proof {
        assert(d =~= s@.skip(start as int));
        assert(d.len() == n - start);
    }
    if start == n {
        return None;
    }
    let mut acc: u64 = 0;
    let mut i: usize = start;
    while i < n
        invariant
            start <= i <= n,
            n == s@.len(),
            start < n,
            d == numeral_digits(s@),
            d == s@.skip(start as int),
            d.len() == n - start,
            forall|k: int| 0 <= k < i - start ==> is_digit(#[trigger] d[k]),
            acc == dec_val(d.take(i - start)),
            acc < 0x1_0000_0000,
        decreases n - i,
    {
        let c = s[i];
        let cv = c as u32;
        proof {
            assert(d[i - start] == s@[i as int]);
        }
        if cv < 0x30 || cv > 0x39 {
            proof {
                assert(!is_digit(d[i - start]));
                assert(!all_digits(d));
                assert(!is_u32_numeral(s@));
            }
            return None;
        }
        let dv: u64 = (cv - 0x30) as u64;
        let next: u64 = acc * 10 + dv;
        proof {
            let t = d.take(i - start + 1);
            assert(t.drop_last() =~= d.take(i - start));
            assert(t.last() == d[i - start]);
            assert(dec_val(t) == acc * 10 + digit_val(d[i - start]));
            assert(digit_val(d[i - start]) == dv);
        }
        if next > 0xFFFF_FFFF {
            proof {
                if all_digits(d) {
                    lemma_dec_val_prefix_monotone(d, i - start + 1);
                    assert(dec_val(d) >= next);
                }
                assert(!is_u32_numeral(s@));
            }
            return None;
        }
        acc = next;
        i += 1;
    }
    assert(d.take(n - start) =~= d);
    Some(acc as u32)
}

} // verus!

