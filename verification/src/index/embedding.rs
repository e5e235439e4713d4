//! What the embedding model is asked, and how its settings are read: the texts get a role
//! prefix, the batch size and the test delay come from optional environment values, and the
//! number of vectors that come back must match the number of texts.
use vstd::prelude::*;

use crate::text::{chars_of, decimal, push_str};
use crate::{other, ZgError};

verus! {

/// The batch size used when none is configured.
pub const DEFAULT_FASTEMBED_BATCH_SIZE: usize = 64;

/// The value of a decimal digit character.
pub open spec fn digit_value(c: char) -> int {
    (c as u32) - ('0' as u32)
}

/// Whether every character of `s` is an ASCII digit.
pub open spec fn all_digits(s: Seq<char>) -> bool {
    forall|i: int| 0 <= i < s.len() ==> '0' <= #[trigger] s[i] && s[i] <= '9'
}

/// The number a string of decimal digits denotes.
pub open spec fn digits_value(s: Seq<char>) -> int
    decreases s.len(),
{
    if s.len() == 0 {
        0
    } else {
        digits_value(s.drop_last()) * 10 + digit_value(s.last())
    }
}

/// The number `u64::from_str` reads from `s`: an optional `+`, then one or more digits, with
/// a value that fits; `None` for anything else.
pub open spec fn parsed_u64(s: Seq<char>) -> Option<u64> {
    let digits = if s.len() > 0 && s[0] == '+' {
        s.drop_first()
    } else {
        s
    };
    if digits.len() > 0 && all_digits(digits) && digits_value(digits) <= u64::MAX {
        Some(digits_value(digits) as u64)
    } else {
        None
    }
}

proof fn lemma_digits_value_nonneg(s: Seq<char>)
    requires
        all_digits(s),
    ensures
        digits_value(s) >= 0,
    decreases s.len(),
{
    if s.len() > 0 {
        assert(all_digits(s.drop_last()));
        lemma_digits_value_nonneg(s.drop_last());
    }
}

/// Reads an unsigned decimal number as `u64::from_str` does.
pub fn parse_u64(s: &str) -> (r: Option<u64>)
    ensures
        r == parsed_u64(s@),
{
    let chars = chars_of(s);
    let start: usize = if chars.len() > 0 && chars[0] == '+' {
        1
    } else {
        0
    };
    let ghost digits = chars@.skip(start as int);
    assert(digits =~= (if s@.len() > 0 && s@[0] == '+' { s@.drop_first() } else { s@ }));
    if chars.len() == start {
        return None;
    }
    let mut value: u64 = 0;
    let mut i: usize = start;
    assert(digits.take(0) =~= Seq::<char>::empty());
    while i < chars.len()
        invariant
            start <= i <= chars@.len(),
            chars@ == s@,
            digits == chars@.skip(start as int),
            digits == (if s@.len() > 0 && s@[0] == '+' { s@.drop_first() } else { s@ }),
            all_digits(digits.take(i - start)),
            value == digits_value(digits.take(i - start)),
        decreases chars@.len() - i,
    {
        let c = chars[i];
        assert(digits.take(i - start + 1).drop_last() =~= digits.take(i - start));
        assert(digits.take(i - start + 1).last() == c);
        if c < '0' || c > '9' {
            assert(!all_digits(digits)) by {
                assert(digits[i - start] == c);
            }
            return None;
        }
        let d = (c as u32 - '0' as u32) as u64;
        proof {
            lemma_digits_value_nonneg(digits.take(i - start));
        }
        if value > (u64::MAX - d) / 10 {
            proof {
                assert(all_digits(digits.take(i - start + 1)));
                assert(digits_value(digits.take(i - start + 1)) == value * 10 + d);
                assert(value * 10 + d > u64::MAX) by (nonlinear_arith)
                    requires
                        value > (u64::MAX - d) / 10,
                        d <= 9,
                ;
                lemma_digits_value_prefix(digits, i - start + 1);
            }
            return None;
        }
        value = value * 10 + d;
        assert(all_digits(digits.take(i - start + 1)));
        i = i + 1;
    }
    assert(digits.take(i - start) =~= digits);
    Some(value)
}

proof fn lemma_digits_value_prefix(s: Seq<char>, n: int)
    requires
        0 <= n <= s.len(),
        all_digits(s.take(n)),
    ensures
        all_digits(s) ==> digits_value(s.take(n)) <= digits_value(s),
    decreases s.len() - n,
{
    if n < s.len() && all_digits(s) {
        assert(all_digits(s.take(n + 1)));
        lemma_digits_value_prefix(s, n + 1);
        assert(s.take(n + 1).drop_last() =~= s.take(n));
        lemma_digits_value_nonneg(s.take(n));
    } else if n == s.len() {
        assert(s.take(n) =~= s);
    }
}

/// The batch size the embedding model runs with: the configured value when it is a
/// positive number, else the default.
pub open spec fn batch_size_of(value: Option<Seq<char>>) -> usize {
    match value {
        Some(v) => match parsed_u64(v) {
            Some(n) => if 0 < n <= usize::MAX {
                n as usize
            } else {
                DEFAULT_FASTEMBED_BATCH_SIZE
            },
            None => DEFAULT_FASTEMBED_BATCH_SIZE,
        },
        None => DEFAULT_FASTEMBED_BATCH_SIZE,
    }
}

/// Reads the configured batch size (`ZG_FASTEMBED_BATCH_SIZE`).
pub fn configured_fastembed_batch_size(value: Option<&str>) -> (r: usize)
    ensures
        r == batch_size_of(crate::index::sync::opt_str(value)),
{
    match value {
        Some(v) => match parse_u64(v) {
            Some(n) => if n > 0 && n <= usize::MAX as u64 {
                n as usize
            } else {
                DEFAULT_FASTEMBED_BATCH_SIZE
            },
            None => DEFAULT_FASTEMBED_BATCH_SIZE,
        },
        None => DEFAULT_FASTEMBED_BATCH_SIZE,
    }
}

/// Reads the test delay before passage embedding (`ZG_TEST_PASSAGE_EMBED_DELAY_MS`): none
/// when unset, else a non-negative number of milliseconds.
pub fn passage_embed_delay_ms(value: Option<&str>) -> (r: Result<u64, ZgError>)
    ensures
        value is None ==> r == Ok::<u64, ZgError>(0),
        value matches Some(v) ==> (match parsed_u64(v@) {
            Some(n) => r == Ok::<u64, ZgError>(n),
            None => r matches Err(e) && e.message@ == "ZG_TEST_PASSAGE_EMBED_DELAY_MS must be a non-negative integer"@,
        }),
{
    match value {
        None => Ok(0),
        Some(v) => match parse_u64(v) {
            Some(n) => Ok(n),
            None => Err(other("ZG_TEST_PASSAGE_EMBED_DELAY_MS must be a non-negative integer".to_owned())),
        },
    }
}

/// The texts handed to the model: each prefixed with its role (`passage` or `query`).
pub fn embedding_inputs(texts: &Vec<String>, prefix: &str) -> (r: Vec<String>)
    ensures
        r@.len() == texts@.len(),
        forall|k: int| 0 <= k < r@.len() ==> (#[trigger] r@[k])@ == prefix@ + ": "@ + texts@[k]@,
{
    let mut out: Vec<String> = Vec::new();
    let mut i: usize = 0;
    while i < texts.len()
        invariant
            i <= texts@.len(),
            out@.len() == i,
            forall|k: int| 0 <= k < i ==> (#[trigger] out@[k])@ == prefix@ + ": "@ + texts@[k]@,
        decreases texts@.len() - i,
    {
        let mut s = String::new();
        push_str(&mut s, prefix);
        push_str(&mut s, ": ");
        push_str(&mut s, texts[i].as_str());
        out.push(s);
        i = i + 1;
    }
    out
}

/// Checks that the model returned one vector per text.
pub fn check_embedding_count(expected: usize, returned: usize) -> (r: Result<(), ZgError>)
    ensures
        r is Ok <==> expected == returned,
        r matches Err(e) ==> e.message@ == "fastembed returned unexpected embedding count"@,
{
    if expected == returned {
        Ok(())
    } else {
        Err(other("fastembed returned unexpected embedding count".to_owned()))
    }
}

/// The summary of the proxy and cache settings shown when the model cannot start:
/// `key=value` for each setting present, or `<none>`.
pub open spec fn env_summary_text(pairs: Seq<(String, String)>) -> Seq<char> {
    if pairs.len() == 0 {
        "proxy/cache env: <none>"@
    } else {
        "proxy/cache env: "@ + crate::text::join(
            pairs.map_values(|p: (String, String)| p.0@ + "="@ + p.1@),
            ", "@,
        )
    }
}

/// Summarizes the proxy and cache settings that are present.
pub fn fastembed_env_summary(pairs: &Vec<(String, String)>) -> (r: String)
    ensures
        r@ == env_summary_text(pairs@),
{
    if pairs.len() == 0 {
        return "proxy/cache env: <none>".to_owned();
    }
    let mut items: Vec<Vec<char>> = Vec::new();
    let mut i: usize = 0;
    while i < pairs.len()
        invariant
            i <= pairs@.len(),
            crate::text::views(items@) == pairs@.take(i as int).map_values(|p: (String, String)| p.0@ + "="@ + p.1@),
        decreases pairs@.len() - i,
    {
        let mut s = String::new();
        push_str(&mut s, pairs[i].0.as_str());
        push_str(&mut s, "=");
        push_str(&mut s, pairs[i].1.as_str());
        let item = chars_of(s.as_str());
        let ghost before = crate::text::views(items@);
        items.push(item);
        assert(crate::text::views(items@) =~= before.push(s@));
        assert(pairs@.take(i + 1).map_values(|p: (String, String)| p.0@ + "="@ + p.1@) =~= pairs@.take(i as int).map_values(|p: (String, String)| p.0@ + "="@ + p.1@).push(s@));
        i = i + 1;
    }
    assert(pairs@.take(pairs@.len() as int) =~= pairs@);
    let sep = chars_of(", ");
    let joined = crate::text::join_chars(&items, sep.as_slice());
    let mut out = String::new();
    push_str(&mut out, "proxy/cache env: ");
    crate::text::push_chars(&mut out, joined.as_slice());
    out
}

} // verus!
