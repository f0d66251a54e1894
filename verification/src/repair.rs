use vstd::prelude::*;

use crate::text::{chars_to_string, str_to_chars};

verus! {

/// The marker character: a Latin-1 text decoded as UTF-8 turns each byte
/// `0xC0..=0xFF` into a stray `U+00C3` followed by one more character.
pub open spec fn is_repair_marker(c: char) -> bool {
    c as u32 == 0xC3
}

/// A character in the range that the second character of a mis-decoded pair
/// falls into.
pub open spec fn is_continuation_char(c: char) -> bool {
    0x80 <= c as u32 <= 0xBF
}

/// The single code point that a marker and a continuation character stand
/// for: `0xC0 + (c - 0x80)`.
pub open spec fn combined_char(c: char) -> char {
    (((0xC0 + (c as u32) - 0x80) as u32) as u8) as char
}

/// The repaired form of a text: a single left-to-right pass in which every
/// marker followed by a continuation character becomes the one combined
/// character, every marker followed by anything else passes both characters
/// through, and everything else is kept as it is.
pub open spec fn repair_text(s: Seq<char>) -> Seq<char>
    decreases s.len(),
{
    if s.len() == 0 {
        Seq::empty()
    } else if is_repair_marker(s[0]) && s.len() >= 2 {
        if is_continuation_char(s[1]) {
            seq![combined_char(s[1])] + repair_text(s.skip(2))
        } else {
            seq![s[0], s[1]] + repair_text(s.skip(2))
        }
    } else {
        seq![s[0]] + repair_text(s.skip(1))
    }
}

/// Fixes the misreading of Latin-1 text that was decoded as UTF-8: each
/// stray marker character followed by a character in the continuation range
/// is folded into the one character it stands for. The pass is local and
/// heuristic: a marker and a continuation-range character that are genuine,
/// unrelated text are folded all the same.
pub fn fix_latin1_misinterpretation(input: &str) -> (r: String)
    ensures
        r@ == repair_text(input@),
{
    let chars = str_to_chars(input);
    let n = chars.len();
    let mut out: Vec<char> = Vec::new();
    let mut i: usize = 0;
    proof {
        assert(chars@.skip(0) =~= chars@);
    }
    while i < n
        invariant
            n == chars@.len(),
            chars@ == input@,
            i <= n,
            out@ + repair_text(chars@.skip(i as int)) == repair_text(chars@),
        decreases n - i,
    {
        let c = chars[i];
        proof {
            assert(chars@.skip(i as int)[0] == chars@[i as int]);
        }
        if (c as u32) == 0xC3 && i + 1 < n {
            let c2 = chars[i + 1];
            proof {
                assert(chars@.skip(i as int)[1] == chars@[i as int + 1]);
                assert(chars@.skip(i as int).skip(2) =~= chars@.skip(i as int + 2));
            }
            if 0x80 <= (c2 as u32) && (c2 as u32) <= 0xBF {
                let code: u32 = 0xC0 + (c2 as u32) - 0x80;
                let fixed: char = (code as u8) as char;
                out.push(fixed);
                proof {
                    assert(out@ + repair_text(chars@.skip(i as int + 2)) =~= repair_text(
                        chars@,
                    ));
                }
            } else {
                out.push(c);
                out.push(c2);
                proof {
                    assert(out@ + repair_text(chars@.skip(i as int + 2)) =~= repair_text(
                        chars@,
                    ));
                }
            }
            i += 2;
        } else {
            proof {
                assert(chars@.skip(i as int).skip(1) =~= chars@.skip(i as int + 1));
            }
            out.push(c);
            proof {
                assert(out@ + repair_text(chars@.skip(i as int + 1)) =~= repair_text(chars@));
            }
            i += 1;
        }
    }
    proof {
        assert(chars@.skip(n as int) =~= Seq::<char>::empty());
        assert(out@ + repair_text(chars@.skip(n as int)) =~= out@);
    }
    chars_to_string(&out)
}

/// Text made of plain seven-bit characters passes through the repair
/// unchanged, character for character.
pub proof fn lemma_repair_ascii_identity(s: Seq<char>)
    requires
        forall|i: int| 0 <= i < s.len() ==> #[trigger] (s[i] as u32) < 0x80,
    ensures
        repair_text(s) == s,
    decreases s.len(),
{
    if s.len() > 0 {
        lemma_repair_ascii_identity(s.skip(1));
        assert(seq![s[0]] + s.skip(1) =~= s);
    }
}

} // verus!
