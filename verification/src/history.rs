//! Keeping what goes into a message history short.
use vstd::prelude::*;
use vstd::string::*;

use crate::decimal;
use crate::decimal::decimal_string;
use crate::text::take_chars;

verus! {

/// The characters of a tool's response that go into the history.
pub const TOOL_RESPONSE_PREVIEW_CHARS: usize = 2_000;

/// A text as it goes into the history: as it is if it is short, else its beginning with a
/// note.
pub open spec fn for_history(s: Seq<char>) -> Seq<char> {
    if s.len() <= TOOL_RESPONSE_PREVIEW_CHARS {
        s
    } else {
        s.take(TOOL_RESPONSE_PREVIEW_CHARS as int) + "\n\n[truncated for history: "@
            + decimal::decimal(TOOL_RESPONSE_PREVIEW_CHARS as nat) + " of "@ + decimal::decimal(
            s.len(),
        ) + " chars shown]"@
    }
}

/// A number below ten to the power of `k` has at most `k` digits.
proof fn lemma_decimal_len(n: nat, k: nat)
    requires
        k >= 1,
        n < vstd::arithmetic::power::pow(10, k),
    ensures
        decimal::decimal(n).len() <= k,
    decreases k,
{
    if n >= 10 {
        vstd::arithmetic::power::lemma_pow1(10);
        if k > 1 {
            reveal(vstd::arithmetic::power::pow);
            assert(vstd::arithmetic::power::pow(10, k) == 10 * vstd::arithmetic::power::pow(
                10,
                (k - 1) as nat,
            ));
            lemma_decimal_len(n / 10, (k - 1) as nat);
        }
    }
}

/// What goes into the history begins as the text does and exceeds the limit by no more than
/// a note of 67 characters.
pub proof fn law_history_is_short(s: Seq<char>)
    requires
        s.len() <= u64::MAX,
    ensures
        for_history(s).len() <= TOOL_RESPONSE_PREVIEW_CHARS + 67,
        s.len() > TOOL_RESPONSE_PREVIEW_CHARS ==> for_history(s).take(
            TOOL_RESPONSE_PREVIEW_CHARS as int,
        ) == s.take(TOOL_RESPONSE_PREVIEW_CHARS as int),
        s.len() <= TOOL_RESPONSE_PREVIEW_CHARS ==> for_history(s) == s,
{
    if s.len() > TOOL_RESPONSE_PREVIEW_CHARS {
        reveal_strlit("\n\n[truncated for history: ");
        reveal_strlit(" of ");
        reveal_strlit(" chars shown]");
        assert(vstd::arithmetic::power::pow(10, 20) == 100_000_000_000_000_000_000) by {
            reveal_with_fuel(vstd::arithmetic::power::pow, 21);
        }
        assert(vstd::arithmetic::power::pow(10, 4) == 10_000) by {
            reveal_with_fuel(vstd::arithmetic::power::pow, 5);
        }
        lemma_decimal_len(s.len(), 20);
        lemma_decimal_len(TOOL_RESPONSE_PREVIEW_CHARS as nat, 4);
        assert(for_history(s).take(TOOL_RESPONSE_PREVIEW_CHARS as int) =~= s.take(
            TOOL_RESPONSE_PREVIEW_CHARS as int,
        ));
    }
}

/// Whether what is shown of a text is the text itself, if it has at most 2000 characters, and
/// otherwise its first 2000 characters with a note behind them.
pub open spec fn shows_briefly(s: Seq<char>, shown: Seq<char>) -> bool {
    &&& s.len() <= 2000 ==> shown == s
    &&& s.len() > 2000 ==> 2000 < shown.len() && shown.take(2000) == s.take(2000)
    &&& s.len() <= u64::MAX ==> shown.len() <= 2067
}

/// What goes into the history is the text itself up to 2000 characters; of a longer text, its
/// first 2000 characters and a note with the number of all.
pub proof fn law_history(s: Seq<char>)
    ensures
        shows_briefly(s, for_history(s)),
        s.len() <= 2000 ==> for_history(s) == s,
        s.len() > 2000 ==> for_history(s) == s.take(2000) + "\n\n[truncated for history: "@
            + decimal::decimal(2000) + " of "@ + decimal::decimal(s.len()) + " chars shown]"@,
{
    if s.len() <= u64::MAX {
        law_history_is_short(s);
    }
    if s.len() > 2000 {
        reveal_strlit("\n\n[truncated for history: ");
        assert(for_history(s).take(2000) =~= s.take(2000));
    }
}

/// Cuts a text for the history if it is long.
pub fn truncate_for_history(s: String) -> (r: String)
    ensures
        r@ == for_history(s@),
        shows_briefly(s@, r@),
{
    proof {
        law_history(s@);
    }
    let total: usize = s.as_str().unicode_len();
    if total <= TOOL_RESPONSE_PREVIEW_CHARS {
        return s;
    }
    let mut r: String = take_chars(s.as_str(), TOOL_RESPONSE_PREVIEW_CHARS);
    r.append("\n\n[truncated for history: ");
    let shown: String = decimal_string(TOOL_RESPONSE_PREVIEW_CHARS as u64);
    r.append(shown.as_str());
    r.append(" of ");
    let all: String = decimal_string(total as u64);
    r.append(all.as_str());
    r.append(" chars shown]");
    r
}

} // verus!
