//! Reading how a `codex exec` run ended: the failure it reported on its event
//! stream, whether that failure is worth retrying, and the messages that a
//! failed or timed-out run leaves on its task.
use vstd::prelude::*;
use vstd::string::*;

use crate::text::{
    ascii_lowercase, chars_of, contains_text, find_text, is_ascii_alnum, is_ascii_digit,
    lowercase_ascii, string_of, trim_chars, trimmed,
};
use crate::worker::TransientTaskError;

verus! {

broadcast use vstd::string::group_string_axioms;

// ---------------------------------------------------------------------------
// Message markers.

/// Phrases that mark a failure no retry can fix (credentials, billing).
pub open spec fn permanent_markers() -> Seq<Seq<char>> {
    seq![
        "billing hard limit"@,
        "exceeded your current quota"@,
        "insufficient_quota"@,
        "invalid api key"@,
        "invalid authentication"@,
        "invalid_api_key"@,
        "quota exceeded"@,
    ]
}

/// Phrases that mark a network or service failure that may pass.
pub open spec fn transient_markers() -> Seq<Seq<char>> {
    seq![
        "bad gateway"@,
        "connection aborted"@,
        "connection closed"@,
        "connection refused"@,
        "connection reset"@,
        "dns error"@,
        "error sending request"@,
        "failed to resolve"@,
        "gateway timeout"@,
        "internal server error"@,
        "network error"@,
        "rate limit"@,
        "server overloaded"@,
        "service unavailable"@,
        "stream disconnected"@,
        "temporarily unavailable"@,
        "timed out"@,
        "timeout"@,
        "too many requests"@,
        "transport error"@,
    ]
}

/// Some phrase of `markers` occurs in `text`.
pub open spec fn has_marker(text: Seq<char>, markers: Seq<Seq<char>>) -> bool {
    exists|k: int| 0 <= k < markers.len() && contains_text(text, #[trigger] markers[k])
}

/// The views of a list of string literals.
pub open spec fn literal_views(v: Seq<&str>) -> Seq<Seq<char>> {
    v.map_values(|m: &str| m@)
}

fn permanent_marker_list() -> (r: Vec<&'static str>)
    ensures
        literal_views(r@) == permanent_markers(),
{
    let r = vec![
        "billing hard limit",
        "exceeded your current quota",
        "insufficient_quota",
        "invalid api key",
        "invalid authentication",
        "invalid_api_key",
        "quota exceeded",
    ];
    assert(literal_views(r@) =~= permanent_markers());
    r
}

fn transient_marker_list() -> (r: Vec<&'static str>)
    ensures
        literal_views(r@) == transient_markers(),
{
    let r = vec![
        "bad gateway",
        "connection aborted",
        "connection closed",
        "connection refused",
        "connection reset",
        "dns error",
        "error sending request",
        "failed to resolve",
        "gateway timeout",
        "internal server error",
        "network error",
        "rate limit",
        "server overloaded",
        "service unavailable",
        "stream disconnected",
        "temporarily unavailable",
        "timed out",
        "timeout",
        "too many requests",
        "transport error",
    ];
    assert(literal_views(r@) =~= transient_markers());
    r
}

/// Whether some phrase of `markers` occurs in `text`.
fn contains_any(text: &Vec<char>, markers: &Vec<&str>) -> (r: bool)
    ensures
        r == has_marker(text@, literal_views(markers@)),
{
    let mut k: usize = 0;
    while k < markers.len()
        invariant
            k <= markers.len(),
            forall|m: int| 0 <= m < k ==> !contains_text(text@, #[trigger] literal_views(markers@)[m]),
        decreases markers.len() - k,
    {
        let marker = chars_of(markers[k]);
        if find_text(text, &marker) {
            assert(contains_text(text@, literal_views(markers@)[k as int]));
            return true;
        }
        k = k + 1;
    }
    false
}


// ---------------------------------------------------------------------------
// Status codes in a message.

/// The tokens read so far from `s`, and the token being read: tokens are the
/// maximal runs of ASCII letters and digits.
pub open spec fn token_state(s: Seq<char>) -> (Seq<Seq<char>>, Seq<char>)
    decreases s.len(),
{
    if s.len() == 0 {
        (seq![], seq![])
    } else {
        let (done, current) = token_state(s.drop_last());
        if is_ascii_alnum(s.last()) {
            (done, current.push(s.last()))
        } else if current.len() > 0 {
            (done.push(current), seq![])
        } else {
            (done, seq![])
        }
    }
}

/// The maximal runs of ASCII letters and digits in `s`, in order.
pub open spec fn tokens(s: Seq<char>) -> Seq<Seq<char>> {
    let (done, current) = token_state(s);
    if current.len() > 0 {
        done.push(current)
    } else {
        done
    }
}

/// The character sequences of a list of character vectors.
pub open spec fn seq_views(v: Seq<Vec<char>>) -> Seq<Seq<char>> {
    v.map_values(|t: Vec<char>| t@)
}

/// The tokens of `text`: its maximal runs of ASCII letters and digits.
pub fn split_tokens(text: &Vec<char>) -> (r: Vec<Vec<char>>)
    ensures
        seq_views(r@) == tokens(text@),
{
    let mut done: Vec<Vec<char>> = Vec::new();
    let mut current: Vec<char> = Vec::new();
    let mut i: usize = 0;
    while i < text.len()
        invariant
            i <= text.len(),
            (seq_views(done@), current@) == token_state(text@.take(i as int)),
        decreases text.len() - i,
    {
        let c = text[i];
        proof {
            assert(text@.take(i + 1).drop_last() =~= text@.take(i as int));
            assert(text@.take(i + 1).last() == c);
        }
        if ('0' <= c && c <= '9') || ('a' <= c && c <= 'z') || ('A' <= c && c <= 'Z') {
            current.push(c);
        } else if current.len() > 0 {
            let ghost before = seq_views(done@);
            done.push(current);
            current = Vec::new();
            proof {
                assert(seq_views(done@) =~= before.push(token_state(text@.take(i as int)).1));
            }
        } else {
        }
        i = i + 1;
    }
    proof {
        assert(text@.take(text.len() as int) =~= text@);
    }
    if current.len() > 0 {
        let ghost before = seq_views(done@);
        let ghost last = current@;
        done.push(current);
        proof {
            assert(seq_views(done@) =~= before.push(last));
        }
    }
    done
}

/// Every character of `t` is an ASCII digit.
pub open spec fn all_digits(t: Seq<char>) -> bool {
    forall|i: int| 0 <= i < t.len() ==> is_ascii_digit(#[trigger] t[i])
}

/// The number that the ASCII digits `t` write in decimal.
pub open spec fn digits_value(t: Seq<char>) -> nat
    decreases t.len(),
{
    if t.len() == 0 {
        0
    } else {
        digits_value(t.drop_last()) * 10 + ((t.last() as u32) - 48) as nat
    }
}

/// Ten to the power `n`.
pub open spec fn pow10(n: nat) -> nat
    decreases n,
{
    if n == 0 {
        1
    } else {
        10 * pow10((n - 1) as nat)
    }
}

/// `n` decimal digits write a number below ten to the power `n`.
pub proof fn lemma_digits_value_bound(t: Seq<char>)
    requires
        all_digits(t),
    ensures
        digits_value(t) < pow10(t.len()),
    decreases t.len(),
{
    if t.len() > 0 {
        let u = t.drop_last();
        assert(all_digits(u)) by {
            assert forall|k: int| 0 <= k < u.len() implies is_ascii_digit(#[trigger] u[k]) by {
                assert(u[k] == t[k]);
            }
        }
        lemma_digits_value_bound(u);
        assert(is_ascii_digit(t[t.len() - 1]));
    }
}

/// The number a token writes, if it is a decimal number no greater than
/// `limit`; this is what parsing an unsigned integer type whose maximum is
/// `limit` gives for a token of ASCII letters and digits.
pub open spec fn decimal_at_most(t: Seq<char>, limit: nat) -> Option<nat> {
    if t.len() > 0 && all_digits(t) && digits_value(t) <= limit {
        Some(digits_value(t))
    } else {
        None
    }
}

/// A token is read as a number only when it is a non-empty run of ASCII
/// digits; three digits `a`, `b`, `c` write `100 a + 10 b + c`, and leading
/// zeros change nothing.
pub proof fn lemma_decimal_tokens(t: Seq<char>, limit: nat, a: char, b: char, c: char)
    ensures
        (t.len() == 0 || exists|i: int| 0 <= i < t.len() && !('0' <= #[trigger] t[i] && t[i] <= '9'))
            ==> decimal_at_most(t, limit) is None,
        '0' <= a <= '9' && '0' <= b <= '9' && '0' <= c <= '9' ==> decimal_at_most(seq![a, b, c], limit)
            == if ((a as u32) - 48) * 100 + ((b as u32) - 48) * 10 + ((c as u32) - 48) <= limit {
            Some((((a as u32) - 48) * 100 + ((b as u32) - 48) * 10 + ((c as u32) - 48)) as nat)
        } else {
            None
        },
        all_digits(t) ==> digits_value(seq!['0'] + t) == digits_value(t),
{
    let s = seq![a, b, c];
    assert(s.drop_last() =~= seq![a, b]);
    assert(seq![a, b].drop_last() =~= seq![a]);
    assert(seq![a].drop_last() =~= Seq::<char>::empty());
    assert(digits_value(Seq::<char>::empty()) == 0);
    assert(digits_value(seq![a]) == ((a as u32) - 48) as nat);
    assert(digits_value(seq![a, b]) == digits_value(seq![a]) * 10 + ((b as u32) - 48) as nat);
    assert(digits_value(s) == digits_value(seq![a, b]) * 10 + ((c as u32) - 48) as nat);
    if '0' <= a <= '9' && '0' <= b <= '9' && '0' <= c <= '9' {
        assert(all_digits(s));
    }
    if all_digits(t) {
        lemma_leading_zero(t);
    }
}

proof fn lemma_leading_zero(t: Seq<char>)
    requires
        all_digits(t),
    ensures
        digits_value(seq!['0'] + t) == digits_value(t),
    decreases t.len(),
{
    if t.len() == 0 {
        let z = seq!['0'];
        assert(z + t =~= z);
        assert(z.drop_last() =~= Seq::<char>::empty());
        assert(digits_value(Seq::<char>::empty()) == 0);
    } else {
        let u = t.drop_last();
        assert(all_digits(u)) by {
            assert forall|k: int| 0 <= k < u.len() implies is_ascii_digit(#[trigger] u[k]) by {
                assert(u[k] == t[k]);
            }
        }
        lemma_leading_zero(u);
        assert((seq!['0'] + t).drop_last() =~= seq!['0'] + u);
        assert((seq!['0'] + t).last() == t.last());
    }
}

proof fn lemma_digits_value_grows(t: Seq<char>, i: int)
    requires
        0 <= i <= t.len(),
        all_digits(t),
    ensures
        digits_value(t.take(i)) <= digits_value(t),
    decreases t.len(),
{
    if i < t.len() {
        let u = t.drop_last();
        assert(all_digits(u)) by {
            assert forall|k: int| 0 <= k < u.len() implies is_ascii_digit(#[trigger] u[k]) by {
                assert(u[k] == t[k]);
            }
        }
        lemma_digits_value_grows(u, i);
        assert(u.take(i) =~= t.take(i));
        assert(is_ascii_digit(t[t.len() - 1]));
    } else {
        assert(t.take(i) =~= t);
    }
}

/// Reads `t` as a decimal number no greater than `limit`.
pub fn parse_decimal(t: &Vec<char>, limit: u32) -> (r: Option<u32>)
    ensures
        match r {
            Some(v) => decimal_at_most(t@, limit as nat) == Some(v as nat),
            None => decimal_at_most(t@, limit as nat) is None,
        },
{
    if t.len() == 0 {
        return None;
    }
    let mut value: u64 = 0;
    let mut i: usize = 0;
    while i < t.len()
        invariant
            i <= t.len(),
            value <= limit,
            all_digits(t@.take(i as int)),
            value == digits_value(t@.take(i as int)),
        decreases t.len() - i,
    {
        let c = t[i];
        if !('0' <= c && c <= '9') {
            assert(!all_digits(t@)) by {
                assert(!is_ascii_digit(t@[i as int]));
            }
            return None;
        }
        let digit: u64 = (c as u32 - 48) as u64;
        proof {
            assert(t@.take(i + 1).drop_last() =~= t@.take(i as int));
            assert(t@.take(i + 1).last() == c);
            assert forall|k: int| 0 <= k < i + 1 implies is_ascii_digit(#[trigger] t@.take(i + 1)[k]) by {
                if k < i {
                    assert(t@.take(i + 1)[k] == t@.take(i as int)[k]);
                }
            }
        }
        let next: u64 = value * 10 + digit;
        if next > limit as u64 {
            proof {
                if all_digits(t@) {
                    lemma_digits_value_grows(t@, i + 1);
                }
            }
            return None;
        }
        value = next;
        i = i + 1;
    }
    proof {
        assert(t@.take(t.len() as int) =~= t@);
    }
    Some(value as u32)
}

/// A status code that signals a passing condition: request timeout,
/// conflict, too early, too many requests, or any server error.
pub open spec fn is_retry_status(v: nat) -> bool {
    v == 408 || v == 409 || v == 425 || v == 429 || (500 <= v && v <= 599)
}

/// Token sequences that, right before a number, make it a status code.
pub open spec fn status_patterns() -> Seq<Seq<Seq<char>>> {
    seq![
        seq!["http"@],
        seq!["status"@],
        seq!["status"@, "code"@],
        seq!["response"@, "code"@],
        seq!["response"@, "status"@],
        seq!["api"@, "error"@],
        seq!["http"@, "1"@, "1"@],
        seq!["http"@, "2"@],
    ]
}

/// The up to three tokens before token `i`.
pub open spec fn status_context(toks: Seq<Seq<char>>, i: int) -> Seq<Seq<char>> {
    toks.subrange(if i >= 3 { i - 3 } else { 0 }, i)
}

/// `s` ends with `suffix`.
pub open spec fn ends_with(s: Seq<Seq<char>>, suffix: Seq<Seq<char>>) -> bool {
    suffix.len() <= s.len() && s.subrange(s.len() - suffix.len(), s.len() as int) == suffix
}

/// Token `i` is a retryable status code announced by one of the patterns.
pub open spec fn transient_status_at(toks: Seq<Seq<char>>, i: int) -> bool {
    &&& decimal_at_most(toks[i], 65535) is Some
    &&& is_retry_status(decimal_at_most(toks[i], 65535)->0)
    &&& exists|k: int|
        0 <= k < status_patterns().len() && ends_with(status_context(toks, i), #[trigger] status_patterns()[k])
}

/// Some token of `text` is a retryable status code announced as one.
pub open spec fn has_transient_status(text: Seq<char>) -> bool {
    exists|i: int| 0 <= i < tokens(text).len() && transient_status_at(tokens(text), i)
}

fn status_pattern_list() -> (r: Vec<Vec<&'static str>>)
    ensures
        r.len() == status_patterns().len(),
        forall|k: int| 0 <= k < r.len() ==> literal_views(#[trigger] r@[k]@) == status_patterns()[k],
{
    let r = vec![
        vec!["http"],
        vec!["status"],
        vec!["status", "code"],
        vec!["response", "code"],
        vec!["response", "status"],
        vec!["api", "error"],
        vec!["http", "1", "1"],
        vec!["http", "2"],
    ];
    assert forall|k: int| 0 <= k < r.len() implies literal_views(#[trigger] r@[k]@) == status_patterns()[k] by {
        assert(literal_views(r@[k]@) =~= status_patterns()[k]);
    }
    r
}

/// Whether `a` and `b` hold the same characters.
pub fn same_chars(a: &Vec<char>, b: &Vec<char>) -> (r: bool)
    ensures
        r == (a@ == b@),
{
    if a.len() != b.len() {
        return false;
    }
    let mut i: usize = 0;
    while i < a.len()
        invariant
            a.len() == b.len(),
            i <= a.len(),
            forall|k: int| 0 <= k < i ==> a@[k] == b@[k],
        decreases a.len() - i,
    {
        if a[i] != b[i] {
            return false;
        }
        i = i + 1;
    }
    assert(a@ =~= b@);
    true
}

fn context_ends_with(toks: &Vec<Vec<char>>, i: usize, pattern: &Vec<&str>) -> (r: bool)
    requires
        i < toks.len(),
        pattern.len() <= 3,
    ensures
        r == ends_with(status_context(seq_views(toks@), i as int), literal_views(pattern@)),
{
    let ghost ctx = status_context(seq_views(toks@), i as int);
    let ghost pat = literal_views(pattern@);
    let available: usize = if i >= 3 {
        3
    } else {
        i
    };
    assert(ctx.len() == available);
    if pattern.len() > available {
        return false;
    }
    let start = i - pattern.len();
    let mut j: usize = 0;
    while j < pattern.len()
        invariant
            pattern.len() <= available,
            start == i - pattern.len(),
            i < toks.len(),
            j <= pattern.len(),
            ctx == status_context(seq_views(toks@), i as int),
            pat == literal_views(pattern@),
            ctx.len() == available,
            forall|m: int| 0 <= m < j ==> ctx.subrange(ctx.len() - pat.len(), ctx.len() as int)[m] == pat[m],
        decreases pattern.len() - j,
    {
        let expected = chars_of(pattern[j]);
        let matched = same_chars(&toks[start + j], &expected);
        proof {
            assert(ctx.subrange(ctx.len() - pat.len(), ctx.len() as int)[j as int] == seq_views(toks@)[start + j]);
            assert(seq_views(toks@)[start + j] == toks@[start + j]@);
        }
        if !matched {
            return false;
        }
        j = j + 1;
    }
    assert(ctx.subrange(ctx.len() - pat.len(), ctx.len() as int) =~= pat);
    true
}

/// Whether some token of `message` is a retryable status code announced as
/// one, such as `http 503` or `status code 429`.
pub fn contains_transient_status(message: &str) -> (r: bool)
    ensures
        r == has_transient_status(message@),
{
    let text = chars_of(message);
    let toks = split_tokens(&text);
    let patterns = status_pattern_list();
    let mut i: usize = 0;
    while i < toks.len()
        invariant
            i <= toks.len(),
            text@ == message@,
            seq_views(toks@) == tokens(text@),
            patterns.len() == status_patterns().len(),
            forall|k: int| 0 <= k < patterns.len() ==> literal_views(#[trigger] patterns@[k]@) == status_patterns()[k],
            forall|m: int| 0 <= m < i ==> !transient_status_at(tokens(text@), m),
        decreases toks.len() - i,
    {
        assert(seq_views(toks@)[i as int] == toks@[i as int]@);
        let status = parse_decimal(&toks[i], 65535);
        let retry = match status {
            Some(v) => v == 408 || v == 409 || v == 425 || v == 429 || (500 <= v && v <= 599),
            None => false,
        };
        if retry {
            assert(decimal_at_most(tokens(text@)[i as int], 65535) is Some);
            assert(is_retry_status(decimal_at_most(tokens(text@)[i as int], 65535)->0));
            let mut k: usize = 0;
            while k < patterns.len()
                invariant
                    i < toks.len(),
                    text@ == message@,
                    seq_views(toks@) == tokens(text@),
                    decimal_at_most(tokens(text@)[i as int], 65535) is Some,
                    is_retry_status(decimal_at_most(tokens(text@)[i as int], 65535)->0),
                    k <= patterns.len(),
                    patterns.len() == status_patterns().len(),
                    forall|q: int| 0 <= q < patterns.len() ==> literal_views(#[trigger] patterns@[q]@) == status_patterns()[q],
                    forall|q: int| 0 <= q < k ==> !ends_with(status_context(seq_views(toks@), i as int), #[trigger] status_patterns()[q]),
                decreases patterns.len() - k,
            {
                assert(literal_views(patterns@[k as int]@) == status_patterns()[k as int]);
                assert(patterns@[k as int].len() <= 3);
                if context_ends_with(&toks, i, &patterns[k]) {
                    assert(transient_status_at(tokens(text@), i as int));
                    return true;
                }
                k = k + 1;
            }
        }
        i = i + 1;
    }
    false
}


// ---------------------------------------------------------------------------
// Classifying a failure message.

/// A message that names a failure no retry can fix.
pub open spec fn permanent_text(message: Seq<char>) -> bool {
    has_marker(ascii_lowercase(message), permanent_markers())
}

/// A message that names a network or service failure that may pass.
pub open spec fn transient_text(message: Seq<char>) -> bool {
    has_marker(ascii_lowercase(message), transient_markers()) || has_transient_status(
        ascii_lowercase(message),
    )
}

/// A failure message worth retrying: transient and not permanent.
pub open spec fn retryable_text(message: Seq<char>) -> bool {
    !permanent_text(message) && transient_text(message)
}

/// Each of these phrases, in any letter case, marks a message as naming a
/// passing network or service failure, or a permanent one.
pub proof fn lemma_marker_phrases(message: Seq<char>)
    ensures
        contains_text(ascii_lowercase(message), "bad gateway"@) ==> transient_text(message),
        contains_text(ascii_lowercase(message), "connection aborted"@) ==> transient_text(message),
        contains_text(ascii_lowercase(message), "connection closed"@) ==> transient_text(message),
        contains_text(ascii_lowercase(message), "connection refused"@) ==> transient_text(message),
        contains_text(ascii_lowercase(message), "connection reset"@) ==> transient_text(message),
        contains_text(ascii_lowercase(message), "dns error"@) ==> transient_text(message),
        contains_text(ascii_lowercase(message), "error sending request"@) ==> transient_text(message),
        contains_text(ascii_lowercase(message), "failed to resolve"@) ==> transient_text(message),
        contains_text(ascii_lowercase(message), "gateway timeout"@) ==> transient_text(message),
        contains_text(ascii_lowercase(message), "internal server error"@) ==> transient_text(message),
        contains_text(ascii_lowercase(message), "network error"@) ==> transient_text(message),
        contains_text(ascii_lowercase(message), "rate limit"@) ==> transient_text(message),
        contains_text(ascii_lowercase(message), "server overloaded"@) ==> transient_text(message),
        contains_text(ascii_lowercase(message), "service unavailable"@) ==> transient_text(message),
        contains_text(ascii_lowercase(message), "stream disconnected"@) ==> transient_text(message),
        contains_text(ascii_lowercase(message), "temporarily unavailable"@) ==> transient_text(message),
        contains_text(ascii_lowercase(message), "timed out"@) ==> transient_text(message),
        contains_text(ascii_lowercase(message), "timeout"@) ==> transient_text(message),
        contains_text(ascii_lowercase(message), "too many requests"@) ==> transient_text(message),
        contains_text(ascii_lowercase(message), "transport error"@) ==> transient_text(message),
        contains_text(ascii_lowercase(message), "billing hard limit"@) ==> permanent_text(message),
        contains_text(ascii_lowercase(message), "exceeded your current quota"@) ==> permanent_text(message),
        contains_text(ascii_lowercase(message), "insufficient_quota"@) ==> permanent_text(message),
        contains_text(ascii_lowercase(message), "invalid api key"@) ==> permanent_text(message),
        contains_text(ascii_lowercase(message), "invalid authentication"@) ==> permanent_text(message),
        contains_text(ascii_lowercase(message), "invalid_api_key"@) ==> permanent_text(message),
        contains_text(ascii_lowercase(message), "quota exceeded"@) ==> permanent_text(message),
        transient_text(message) ==> (contains_text(ascii_lowercase(message), "bad gateway"@) || contains_text(ascii_lowercase(message), "connection aborted"@) || contains_text(ascii_lowercase(message), "connection closed"@) || contains_text(ascii_lowercase(message), "connection refused"@) || contains_text(ascii_lowercase(message), "connection reset"@) || contains_text(ascii_lowercase(message), "dns error"@) || contains_text(ascii_lowercase(message), "error sending request"@) || contains_text(ascii_lowercase(message), "failed to resolve"@) || contains_text(ascii_lowercase(message), "gateway timeout"@) || contains_text(ascii_lowercase(message), "internal server error"@) || contains_text(ascii_lowercase(message), "network error"@) || contains_text(ascii_lowercase(message), "rate limit"@) || contains_text(ascii_lowercase(message), "server overloaded"@) || contains_text(ascii_lowercase(message), "service unavailable"@) || contains_text(ascii_lowercase(message), "stream disconnected"@) || contains_text(ascii_lowercase(message), "temporarily unavailable"@) || contains_text(ascii_lowercase(message), "timed out"@) || contains_text(ascii_lowercase(message), "timeout"@) || contains_text(ascii_lowercase(message), "too many requests"@) || contains_text(ascii_lowercase(message), "transport error"@)) || has_transient_status(ascii_lowercase(message)),
        permanent_text(message) ==> (contains_text(ascii_lowercase(message), "billing hard limit"@) || contains_text(ascii_lowercase(message), "exceeded your current quota"@) || contains_text(ascii_lowercase(message), "insufficient_quota"@) || contains_text(ascii_lowercase(message), "invalid api key"@) || contains_text(ascii_lowercase(message), "invalid authentication"@) || contains_text(ascii_lowercase(message), "invalid_api_key"@) || contains_text(ascii_lowercase(message), "quota exceeded"@)),
{
    let l = ascii_lowercase(message);
    assert(transient_markers().len() == 20);
    assert(permanent_markers().len() == 7);
    assert(transient_markers()[0] == "bad gateway"@);
    assert(transient_markers()[1] == "connection aborted"@);
    assert(transient_markers()[2] == "connection closed"@);
    assert(transient_markers()[3] == "connection refused"@);
    assert(transient_markers()[4] == "connection reset"@);
    assert(transient_markers()[5] == "dns error"@);
    assert(transient_markers()[6] == "error sending request"@);
    assert(transient_markers()[7] == "failed to resolve"@);
    assert(transient_markers()[8] == "gateway timeout"@);
    assert(transient_markers()[9] == "internal server error"@);
    assert(transient_markers()[10] == "network error"@);
    assert(transient_markers()[11] == "rate limit"@);
    assert(transient_markers()[12] == "server overloaded"@);
    assert(transient_markers()[13] == "service unavailable"@);
    assert(transient_markers()[14] == "stream disconnected"@);
    assert(transient_markers()[15] == "temporarily unavailable"@);
    assert(transient_markers()[16] == "timed out"@);
    assert(transient_markers()[17] == "timeout"@);
    assert(transient_markers()[18] == "too many requests"@);
    assert(transient_markers()[19] == "transport error"@);
    assert(permanent_markers()[0] == "billing hard limit"@);
    assert(permanent_markers()[1] == "exceeded your current quota"@);
    assert(permanent_markers()[2] == "insufficient_quota"@);
    assert(permanent_markers()[3] == "invalid api key"@);
    assert(permanent_markers()[4] == "invalid authentication"@);
    assert(permanent_markers()[5] == "invalid_api_key"@);
    assert(permanent_markers()[6] == "quota exceeded"@);
    if contains_text(l, "bad gateway"@) {
        assert(contains_text(l, transient_markers()[0]));
    }
    if contains_text(l, "connection aborted"@) {
        assert(contains_text(l, transient_markers()[1]));
    }
    if contains_text(l, "connection closed"@) {
        assert(contains_text(l, transient_markers()[2]));
    }
    if contains_text(l, "connection refused"@) {
        assert(contains_text(l, transient_markers()[3]));
    }
    if contains_text(l, "connection reset"@) {
        assert(contains_text(l, transient_markers()[4]));
    }
    if contains_text(l, "dns error"@) {
        assert(contains_text(l, transient_markers()[5]));
    }
    if contains_text(l, "error sending request"@) {
        assert(contains_text(l, transient_markers()[6]));
    }
    if contains_text(l, "failed to resolve"@) {
        assert(contains_text(l, transient_markers()[7]));
    }
    if contains_text(l, "gateway timeout"@) {
        assert(contains_text(l, transient_markers()[8]));
    }
    if contains_text(l, "internal server error"@) {
        assert(contains_text(l, transient_markers()[9]));
    }
    if contains_text(l, "network error"@) {
        assert(contains_text(l, transient_markers()[10]));
    }
    if contains_text(l, "rate limit"@) {
        assert(contains_text(l, transient_markers()[11]));
    }
    if contains_text(l, "server overloaded"@) {
        assert(contains_text(l, transient_markers()[12]));
    }
    if contains_text(l, "service unavailable"@) {
        assert(contains_text(l, transient_markers()[13]));
    }
    if contains_text(l, "stream disconnected"@) {
        assert(contains_text(l, transient_markers()[14]));
    }
    if contains_text(l, "temporarily unavailable"@) {
        assert(contains_text(l, transient_markers()[15]));
    }
    if contains_text(l, "timed out"@) {
        assert(contains_text(l, transient_markers()[16]));
    }
    if contains_text(l, "timeout"@) {
        assert(contains_text(l, transient_markers()[17]));
    }
    if contains_text(l, "too many requests"@) {
        assert(contains_text(l, transient_markers()[18]));
    }
    if contains_text(l, "transport error"@) {
        assert(contains_text(l, transient_markers()[19]));
    }
    if contains_text(l, "billing hard limit"@) {
        assert(contains_text(l, permanent_markers()[0]));
    }
    if contains_text(l, "exceeded your current quota"@) {
        assert(contains_text(l, permanent_markers()[1]));
    }
    if contains_text(l, "insufficient_quota"@) {
        assert(contains_text(l, permanent_markers()[2]));
    }
    if contains_text(l, "invalid api key"@) {
        assert(contains_text(l, permanent_markers()[3]));
    }
    if contains_text(l, "invalid authentication"@) {
        assert(contains_text(l, permanent_markers()[4]));
    }
    if contains_text(l, "invalid_api_key"@) {
        assert(contains_text(l, permanent_markers()[5]));
    }
    if contains_text(l, "quota exceeded"@) {
        assert(contains_text(l, permanent_markers()[6]));
    }
    if has_marker(l, transient_markers()) {
        let k = choose|k: int| 0 <= k < transient_markers().len() && contains_text(l, #[trigger] transient_markers()[k]);
        assert(0 <= k < 20);
    }
    if has_marker(l, permanent_markers()) {
        let k = choose|k: int| 0 <= k < permanent_markers().len() && contains_text(l, #[trigger] permanent_markers()[k]);
        assert(0 <= k < 7);
    }
}

/// The status codes that make a failure worth retrying: request timeout
/// (408), conflict (409), too early (425), too many requests (429) and every
/// server error (500 to 599).
pub open spec fn listed_retry_code(v: nat) -> bool {
    v == 408 || v == 409 || v == 425 || v == 429 || (500 <= v && v <= 599)
}

/// A token writing one of those codes makes a message transient when the
/// tokens right before it announce a status: `http`, `status`, `status code`,
/// `response code`, `response status`, `api error`, `http 2` or `http 1 1`.
/// A token alone, or a code off the list, does not.
pub proof fn lemma_announced_status(message: Seq<char>, toks: Seq<Seq<char>>, i: int)
    requires
        toks == tokens(ascii_lowercase(message)),
        0 <= i < toks.len(),
    ensures
        (decimal_at_most(toks[i], 65535) matches Some(v) && listed_retry_code(v)) && ((i >= 1 && toks[i - 1] == "http"@) || (i >= 1 && toks[i - 1] == "status"@) || (i >= 2 && toks[i - 2] == "status"@ && toks[i - 1] == "code"@) || (i >= 2 && toks[i - 2] == "response"@ && toks[i - 1] == "code"@) || (i >= 2 && toks[i - 2] == "response"@ && toks[i - 1] == "status"@) || (i >= 2 && toks[i - 2] == "api"@ && toks[i - 1] == "error"@) || (i >= 3 && toks[i - 3] == "http"@ && toks[i - 2] == "1"@ && toks[i - 1] == "1"@) || (i >= 2 && toks[i - 2] == "http"@ && toks[i - 1] == "2"@))
            ==> transient_text(message),
        (decimal_at_most(toks[i], 65535) matches Some(v) && !listed_retry_code(v)) ==> !transient_status_at(toks, i),
        i == 0 ==> !transient_status_at(toks, i),
{
    assert(status_patterns().len() == 8);
    if (i >= 1 && toks[i - 1] == "http"@) {
        let ctx = status_context(toks, i);
        assert(ctx.subrange(ctx.len() - 1, ctx.len() as int) =~= status_patterns()[0]);
        assert(ends_with(ctx, status_patterns()[0]));
        if decimal_at_most(toks[i], 65535) matches Some(v) && listed_retry_code(v) {
            assert(transient_status_at(tokens(ascii_lowercase(message)), i));
        }
    }
    if (i >= 1 && toks[i - 1] == "status"@) {
        let ctx = status_context(toks, i);
        assert(ctx.subrange(ctx.len() - 1, ctx.len() as int) =~= status_patterns()[1]);
        assert(ends_with(ctx, status_patterns()[1]));
        if decimal_at_most(toks[i], 65535) matches Some(v) && listed_retry_code(v) {
            assert(transient_status_at(tokens(ascii_lowercase(message)), i));
        }
    }
    if (i >= 2 && toks[i - 2] == "status"@ && toks[i - 1] == "code"@) {
        let ctx = status_context(toks, i);
        assert(ctx.subrange(ctx.len() - 2, ctx.len() as int) =~= status_patterns()[2]);
        assert(ends_with(ctx, status_patterns()[2]));
        if decimal_at_most(toks[i], 65535) matches Some(v) && listed_retry_code(v) {
            assert(transient_status_at(tokens(ascii_lowercase(message)), i));
        }
    }
    if (i >= 2 && toks[i - 2] == "response"@ && toks[i - 1] == "code"@) {
        let ctx = status_context(toks, i);
        assert(ctx.subrange(ctx.len() - 2, ctx.len() as int) =~= status_patterns()[3]);
        assert(ends_with(ctx, status_patterns()[3]));
        if decimal_at_most(toks[i], 65535) matches Some(v) && listed_retry_code(v) {
            assert(transient_status_at(tokens(ascii_lowercase(message)), i));
        }
    }
    if (i >= 2 && toks[i - 2] == "response"@ && toks[i - 1] == "status"@) {
        let ctx = status_context(toks, i);
        assert(ctx.subrange(ctx.len() - 2, ctx.len() as int) =~= status_patterns()[4]);
        assert(ends_with(ctx, status_patterns()[4]));
        if decimal_at_most(toks[i], 65535) matches Some(v) && listed_retry_code(v) {
            assert(transient_status_at(tokens(ascii_lowercase(message)), i));
        }
    }
    if (i >= 2 && toks[i - 2] == "api"@ && toks[i - 1] == "error"@) {
        let ctx = status_context(toks, i);
        assert(ctx.subrange(ctx.len() - 2, ctx.len() as int) =~= status_patterns()[5]);
        assert(ends_with(ctx, status_patterns()[5]));
        if decimal_at_most(toks[i], 65535) matches Some(v) && listed_retry_code(v) {
            assert(transient_status_at(tokens(ascii_lowercase(message)), i));
        }
    }
    if (i >= 3 && toks[i - 3] == "http"@ && toks[i - 2] == "1"@ && toks[i - 1] == "1"@) {
        let ctx = status_context(toks, i);
        assert(ctx.subrange(ctx.len() - 3, ctx.len() as int) =~= status_patterns()[6]);
        assert(ends_with(ctx, status_patterns()[6]));
        if decimal_at_most(toks[i], 65535) matches Some(v) && listed_retry_code(v) {
            assert(transient_status_at(tokens(ascii_lowercase(message)), i));
        }
    }
    if (i >= 2 && toks[i - 2] == "http"@ && toks[i - 1] == "2"@) {
        let ctx = status_context(toks, i);
        assert(ctx.subrange(ctx.len() - 2, ctx.len() as int) =~= status_patterns()[7]);
        assert(ends_with(ctx, status_patterns()[7]));
        if decimal_at_most(toks[i], 65535) matches Some(v) && listed_retry_code(v) {
            assert(transient_status_at(tokens(ascii_lowercase(message)), i));
        }
    }
    if transient_status_at(toks, i) && i == 0 {
        let k = choose|k: int| 0 <= k < status_patterns().len() && ends_with(status_context(toks, i), #[trigger] status_patterns()[k]);
        assert(status_patterns()[k].len() > 0);
    }
}

/// A message that names a permanent failure is never retried, whatever else
/// it says; and a failure the run reported decides over its error output.
pub proof fn lemma_permanent_never_retried(message: Seq<char>, stderr_text: Seq<char>)
    ensures
        permanent_text(message) ==> !retryable_text(message),
        failure_is_transient(Some(message), stderr_text) == retryable_text(message),
{
}

/// Whether `message` names a failure no retry can fix; letter case is ignored.
pub fn is_permanent_message(message: &str) -> (r: bool)
    ensures
        r == permanent_text(message@),
{
    let lower = lowercase_ascii(message);
    contains_any(&lower, &permanent_marker_list())
}

/// Whether `message` names a passing network or service failure; letter case
/// is ignored.
pub fn is_transient_message(message: &str) -> (r: bool)
    ensures
        r == transient_text(message@),
{
    let lower = lowercase_ascii(message);
    if contains_any(&lower, &transient_marker_list()) {
        return true;
    }
    let lower_text = string_of(&lower);
    contains_transient_status(lower_text.as_str())
}

// ---------------------------------------------------------------------------
// Lines of an event stream.

/// `line` without a final carriage return.
pub open spec fn strip_cr(line: Seq<char>) -> Seq<char> {
    if line.len() > 0 && line.last() == '\r' {
        line.drop_last()
    } else {
        line
    }
}

/// The lines finished after reading `s`, and the line being read.
pub open spec fn line_state(s: Seq<char>) -> (Seq<Seq<char>>, Seq<char>)
    decreases s.len(),
{
    if s.len() == 0 {
        (seq![], seq![])
    } else {
        let (done, current) = line_state(s.drop_last());
        if s.last() == '\n' {
            (done.push(strip_cr(current)), seq![])
        } else {
            (done, current.push(s.last()))
        }
    }
}

/// The lines of `s`: split at each `\n` or `\r\n`; a final line ending is
/// optional, and an empty text has no lines.
pub open spec fn text_lines(s: Seq<char>) -> Seq<Seq<char>> {
    let (done, current) = line_state(s);
    if current.len() > 0 {
        done.push(current)
    } else {
        done
    }
}

/// The lines of `text`, split as `str::lines` splits them.
pub fn split_lines(text: &Vec<char>) -> (r: Vec<Vec<char>>)
    ensures
        seq_views(r@) == text_lines(text@),
{
    let mut done: Vec<Vec<char>> = Vec::new();
    let mut current: Vec<char> = Vec::new();
    let mut i: usize = 0;
    while i < text.len()
        invariant
            i <= text.len(),
            (seq_views(done@), current@) == line_state(text@.take(i as int)),
        decreases text.len() - i,
    {
        let c = text[i];
        proof {
            assert(text@.take(i + 1).drop_last() =~= text@.take(i as int));
            assert(text@.take(i + 1).last() == c);
        }
        if c == '\n' {
            if current.len() > 0 && current[current.len() - 1] == '\r' {
                current.pop();
            }
            let ghost before = seq_views(done@);
            let ghost line = current@;
            done.push(current);
            current = Vec::new();
            proof {
                assert(seq_views(done@) =~= before.push(line));
            }
        } else {
            current.push(c);
        }
        i = i + 1;
    }
    proof {
        assert(text@.take(text.len() as int) =~= text@);
    }
    if current.len() > 0 {
        let ghost before = seq_views(done@);
        let ghost last = current@;
        done.push(current);
        proof {
            assert(seq_views(done@) =~= before.push(last));
        }
    }
    done
}

// ---------------------------------------------------------------------------
// The failure a run reported.

/// What `String::from_utf8_lossy` decodes `bytes` to.
pub uninterp spec fn utf8_lossy_text(bytes: Seq<u8>) -> Seq<char>;

/// Decodes `bytes` as UTF-8, putting U+FFFD in place of invalid sequences.
///
/// Calls `String::from_utf8_lossy`; the contract names its result, a function
/// of the bytes alone, and states what its documentation gives: bytes that
/// are valid UTF-8 come back as the text they encode, so ASCII bytes come
/// back character for character. What replaces invalid sequences is left
/// unsaid.
#[verifier::external_body]
pub(crate) fn decode_lossy(bytes: &[u8]) -> (r: String)
    ensures
        r@ == utf8_lossy_text(bytes@),
        vstd::utf8::valid_utf8(bytes@) ==> r@ == vstd::utf8::decode_utf8(bytes@),
        (forall|i: int| 0 <= i < bytes@.len() ==> #[trigger] bytes@[i] < 0x80) ==> r@ == bytes@.map_values(
            |b: u8| b as char,
        ),
{
    String::from_utf8_lossy(bytes).into_owned()
}

/// The string that the JSON document `text` holds at the JSON pointer
/// `pointer`, if `text` parses and a string stands there.
pub uninterp spec fn json_string_at(text: Seq<char>, pointer: Seq<char>) -> Option<Seq<char>>;

/// The string at `pointer` in the JSON document `text`.
///
/// Parses with `serde_json::from_str` into a `serde_json::Value`, looks the
/// pointer up with `Value::pointer` and reads a string with `Value::as_str`.
/// The contract names the result, a function of the text and the pointer
/// alone, and says nothing more of it.
#[verifier::external_body]
fn json_string(text: &str, pointer: &str) -> (r: Option<String>)
    ensures
        match r {
            Some(s) => json_string_at(text@, pointer@) == Some(s@),
            None => json_string_at(text@, pointer@) is None,
        },
{
    let value: serde_json::Value = serde_json::from_str(text).ok()?;
    value.pointer(pointer)?.as_str().map(str::to_owned)
}

/// The view of an optional string.
pub open spec fn opt_view(s: Option<String>) -> Option<Seq<char>> {
    match s {
        Some(s) => Some(s@),
        None => None,
    }
}

/// The message of a `turn.failed` event on `line`, if it is one.
pub open spec fn line_failure(line: Seq<char>) -> Option<Seq<char>> {
    if json_string_at(line, "/type"@) == Some("turn.failed"@) {
        json_string_at(line, "/error/message"@)
    } else {
        None
    }
}

/// The message of the last `turn.failed` event among `lines`.
pub open spec fn last_failure(lines: Seq<Seq<char>>) -> Option<Seq<char>>
    decreases lines.len(),
{
    if lines.len() == 0 {
        None
    } else {
        match line_failure(lines.last()) {
            Some(m) => Some(m),
            None => last_failure(lines.drop_last()),
        }
    }
}

/// The message of the last `turn.failed` event in the event stream `stdout`.
pub open spec fn terminal_failure(stdout: Seq<u8>) -> Option<Seq<char>> {
    last_failure(text_lines(utf8_lossy_text(stdout)))
}

fn line_failure_message(line: &Vec<char>) -> (r: Option<String>)
    ensures
        opt_view(r) == line_failure(line@),
{
    let text = string_of(line);
    let kind = json_string(text.as_str(), "/type");
    let failed = match &kind {
        Some(k) => {
            let expected = String::from_str("turn.failed");
            *k == expected
        },
        None => false,
    };
    if failed {
        json_string(text.as_str(), "/error/message")
    } else {
        None
    }
}

/// The message of the last `turn.failed` event among the lines of `text`.
pub fn last_turn_failure(text: &str) -> (r: Option<String>)
    ensures
        opt_view(r) == last_failure(text_lines(text@)),
{
    let chars = chars_of(text);
    let lines = split_lines(&chars);
    let mut found: Option<String> = None;
    let mut i: usize = 0;
    while i < lines.len()
        invariant
            i <= lines.len(),
            seq_views(lines@) == text_lines(text@),
            opt_view(found) == last_failure(seq_views(lines@).take(i as int)),
        decreases lines.len() - i,
    {
        let message = line_failure_message(&lines[i]);
        proof {
            assert(seq_views(lines@).take(i + 1).drop_last() =~= seq_views(lines@).take(i as int));
            assert(seq_views(lines@).take(i + 1).last() == lines@[i as int]@);
        }
        if message.is_some() {
            found = message;
        }
        i = i + 1;
    }
    proof {
        assert(seq_views(lines@).take(lines.len() as int) =~= seq_views(lines@));
    }
    found
}

/// The message of the last `turn.failed` event in the event stream `stdout`.
pub fn terminal_failure_message(stdout: &[u8]) -> (r: Option<String>)
    ensures
        opt_view(r) == terminal_failure(stdout@),
{
    let text = decode_lossy(stdout);
    last_turn_failure(text.as_str())
}

/// Whether a failure is worth retrying: the run's last reported failure
/// decides where there is one, its error output otherwise.
pub open spec fn failure_is_transient(terminal: Option<Seq<char>>, stderr_text: Seq<char>) -> bool {
    match terminal {
        Some(m) => retryable_text(m),
        None => retryable_text(stderr_text),
    }
}

/// Whether a failure is worth retrying, given the run's last reported failure
/// and its decoded error output.
pub fn classify_failure(terminal: &Option<String>, stderr_text: &str) -> (r: bool)
    ensures
        r == failure_is_transient(opt_view(*terminal), stderr_text@),
{
    match terminal {
        Some(m) => !is_permanent_message(m.as_str()) && is_transient_message(m.as_str()),
        None => !is_permanent_message(stderr_text) && is_transient_message(stderr_text),
    }
}

/// Whether a failed `codex exec` run is worth retrying, from its event stream
/// and its error output.
pub fn is_transient_codex_failure(stdout: &[u8], stderr: &[u8]) -> (r: bool)
    ensures
        r == failure_is_transient(terminal_failure(stdout@), utf8_lossy_text(stderr@)),
{
    let terminal = terminal_failure_message(stdout);
    let stderr_text = decode_lossy(stderr);
    classify_failure(&terminal, stderr_text.as_str())
}


// ---------------------------------------------------------------------------
// What a failed attempt reports.

/// How a failed attempt is reported: worth retrying, or final.
#[derive(Clone, Debug)]
pub enum TaskFailure {
    Transient(TransientTaskError),
    Permanent(String),
}

impl TaskFailure {
    /// The failure's message.
    pub open spec fn text(&self) -> Seq<char> {
        match self {
            TaskFailure::Transient(e) => e.text(),
            TaskFailure::Permanent(m) => m@,
        }
    }

    /// The failure's message.
    pub fn message(&self) -> (r: String)
        ensures
            r@ == self.text(),
    {
        match self {
            TaskFailure::Transient(e) => e.message().to_owned(),
            TaskFailure::Permanent(m) => m.clone(),
        }
    }

    /// The error worth retrying, if the failure is one.
    pub fn transient_error(&self) -> (r: Option<&TransientTaskError>)
        ensures
            r is Some <==> self is Transient,
            r matches Some(e) ==> e.text() == self.text(),
    {
        match self {
            TaskFailure::Transient(e) => Some(e),
            TaskFailure::Permanent(_) => None,
        }
    }
}

/// What a failed run's message says about it: its last reported failure, or
/// else its trimmed error output, or else where to look.
pub open spec fn failure_details(terminal: Option<Seq<char>>, stderr_text: Seq<char>) -> Seq<char> {
    match terminal {
        Some(m) => m,
        None => if trimmed(stderr_text).len() > 0 {
            trimmed(stderr_text)
        } else {
            "see events.jsonl for details"@
        },
    }
}

/// The message of a run that exited with `status` (as the exit status
/// displays itself).
pub open spec fn exit_message(status: Seq<char>, details: Seq<char>) -> Seq<char> {
    "codex exec exited with status "@ + status + ": "@ + details
}

/// The failure of a run that exited unsuccessfully with `status`, given its
/// last reported failure and its decoded error output.
pub fn exit_failure_from(status: &str, terminal: &Option<String>, stderr_text: &str) -> (r: TaskFailure)
    ensures
        r.text() == exit_message(status@, failure_details(opt_view(*terminal), stderr_text@)),
        r is Transient <==> failure_is_transient(opt_view(*terminal), stderr_text@),
{
    let details: String = match terminal {
        Some(m) => m.clone(),
        None => {
            let trimmed_text = trim_chars(&chars_of(stderr_text));
            if trimmed_text.len() > 0 {
                string_of(&trimmed_text)
            } else {
                String::from_str("see events.jsonl for details")
            }
        },
    };
    let mut message = String::from_str("codex exec exited with status ");
    message.append(status);
    message.append(": ");
    message.append(details.as_str());
    if classify_failure(terminal, stderr_text) {
        TaskFailure::Transient(TransientTaskError::new(message.as_str()))
    } else {
        TaskFailure::Permanent(message)
    }
}

/// The failure of a `codex exec` run that exited unsuccessfully with
/// `status`, from its event stream and its error output.
pub fn exit_failure(status: &str, stdout: &[u8], stderr: &[u8]) -> (r: TaskFailure)
    ensures
        r.text() == exit_message(
            status@,
            failure_details(terminal_failure(stdout@), utf8_lossy_text(stderr@)),
        ),
        r is Transient <==> failure_is_transient(terminal_failure(stdout@), utf8_lossy_text(stderr@)),
{
    let terminal = terminal_failure_message(stdout);
    let stderr_text = decode_lossy(stderr);
    exit_failure_from(status, &terminal, stderr_text.as_str())
}

/// How `Duration`'s `Debug` writes `seconds` and `nanos`, such as `1s` or
/// `2700s` or `1.5s`.
pub uninterp spec fn duration_debug(seconds: u64, nanos: u32) -> Seq<char>;

/// Writes a duration as its `Debug` implementation does.
///
/// Formats `std::time::Duration::new(seconds, nanos)` with `{:?}`; the
/// contract names the text, a function of the two numbers alone, and says
/// nothing more of it. `Duration::new` panics when the nanoseconds carry past
/// the largest second count, so they are kept below one second.
#[verifier::external_body]
fn duration_text(seconds: u64, nanos: u32) -> (r: String)
    requires
        nanos < 1_000_000_000,
    ensures
        r@ == duration_debug(seconds, nanos),
{
    format!("{:?}", std::time::Duration::new(seconds, nanos))
}

/// The message of a run stopped after the time limit of `seconds` and
/// `nanos`.
pub open spec fn timeout_message(seconds: u64, nanos: u32) -> Seq<char> {
    "codex exec timed out after "@ + duration_debug(seconds, nanos)
}

/// The failure of a run stopped after its time limit. It is worth retrying
/// unless its process tree could not be cleaned up, in which case the
/// cleanup error is reported and the failure is final.
pub fn timeout_error(seconds: u64, nanos: u32, cleanup_error: Option<String>) -> (r: TaskFailure)
    requires
        nanos < 1_000_000_000,
    ensures
        cleanup_error is None ==> (r is Transient && r.text() == timeout_message(seconds, nanos)),
        cleanup_error matches Some(e) ==> (r is Permanent && r.text() == timeout_message(seconds, nanos)
            + "; failed to clean up the process: "@ + e@),
{
    let mut message = String::from_str("codex exec timed out after ");
    let duration = duration_text(seconds, nanos);
    message.append(duration.as_str());
    match cleanup_error {
        Some(error) => {
            message.append("; failed to clean up the process: ");
            message.append(error.as_str());
            TaskFailure::Permanent(message)
        },
        None => TaskFailure::Transient(TransientTaskError::new(message.as_str())),
    }
}


// ---------------------------------------------------------------------------
// Finding a runnable Codex CLI.

/// The search for a runnable Codex CLI among candidates that are probed one
/// after another, in order.
#[derive(Debug)]
pub struct CliSearch {
    count: usize,
    next: usize,
}

/// What the search asks for next.
#[derive(Clone, Copy, Debug, PartialEq, Eq)]
pub enum SearchStep {
    /// Probe the candidate at this position.
    Probe(usize),
    /// The candidate at this position runs: use it.
    Selected(usize),
    /// Every candidate failed; the one at this position failed last.
    NotRunnable(usize),
    /// There was no candidate.
    NotFound,
}

impl CliSearch {
    /// The number of candidates.
    pub closed spec fn candidates(&self) -> nat {
        self.count as nat
    }

    /// The number of candidates probed so far.
    pub closed spec fn probed(&self) -> nat {
        self.next as nat
    }

    /// A search among `count` candidates, none probed yet.
    pub fn new(count: usize) -> (r: CliSearch)
        ensures
            r.candidates() == count,
            r.probed() == 0,
    {
        CliSearch { count, next: 0 }
    }

    /// What to do next, given whether the last probe asked for succeeded
    /// (`None` before the first): a successful probe selects its candidate;
    /// otherwise the next candidate is probed, and when none is left the
    /// search fails, naming the last candidate, or finds nothing when there
    /// were none.
    pub fn step(&mut self, last_probe_ok: Option<bool>) -> (r: SearchStep)
        requires
            old(self).probed() <= old(self).candidates(),
            last_probe_ok is Some ==> old(self).probed() > 0,
        ensures
            final(self).candidates() == old(self).candidates(),
            final(self).probed() <= final(self).candidates(),
            last_probe_ok == Some(true) ==> r == SearchStep::Selected((old(self).probed() - 1) as usize),
            last_probe_ok == Some(true) ==> final(self).probed() == old(self).probed(),
            last_probe_ok != Some(true) && old(self).probed() < old(self).candidates() ==> r
                == SearchStep::Probe(old(self).probed() as usize),
            last_probe_ok != Some(true) && old(self).probed() < old(self).candidates() ==> final(self).probed()
                == old(self).probed() + 1,
            last_probe_ok != Some(true) && old(self).probed() == old(self).candidates() ==> final(self).probed()
                == old(self).probed(),
            last_probe_ok != Some(true) && old(self).probed() == old(self).candidates() ==> r == (if old(self).candidates() == 0 {
                SearchStep::NotFound
            } else {
                SearchStep::NotRunnable((old(self).candidates() - 1) as usize)
            }),
    {
        if last_probe_ok == Some(true) {
            return SearchStep::Selected(self.next - 1);
        }
        if self.next < self.count {
            let candidate = self.next;
            self.next = self.next + 1;
            SearchStep::Probe(candidate)
        } else if self.count == 0 {
            SearchStep::NotFound
        } else {
            SearchStep::NotRunnable(self.count - 1)
        }
    }
}

/// The message when no candidate CLI runs; `candidate` failed last, with
/// `error`.
pub fn not_runnable_message(candidate: &str, error: &str) -> (r: String)
    ensures
        r@ == "Codex CLI is not runnable: "@ + candidate@ + ": "@ + error@
            + ". Choose a working CLI in queue settings"@,
{
    let mut message = String::from_str("Codex CLI is not runnable: ");
    message.append(candidate);
    message.append(": ");
    message.append(error);
    message.append(". Choose a working CLI in queue settings");
    message
}

/// The message when there is no candidate CLI at all.
pub fn not_found_message() -> (r: String)
    ensures
        r@ == "Codex CLI was not found. Install Codex CLI or set an absolute Codex CLI path in queue settings"@,
{
    String::from_str(
        "Codex CLI was not found. Install Codex CLI or set an absolute Codex CLI path in queue settings",
    )
}

} // verus!
