use vstd::prelude::*;
use vstd::string::{StrSliceExecFns, StringExecFns};

use crate::cube::piece_val;
use crate::text::{count_where, lemma_count_where_bound, lower_of, lowercase};

verus! {

/// The password text a game request carries.
pub struct Input {
    pub input: String,
}

/// The verdict a game request is answered with.
pub struct Response {
    pub result: String,
    pub reason: Option<String>,
}

pub open spec fn is_ascii_alpha(c: char) -> bool {
    ('a' <= c <= 'z') || ('A' <= c <= 'Z')
}

pub open spec fn is_digit(c: char) -> bool {
    '0' <= c <= '9'
}

pub open spec fn is_vowel(c: char) -> bool {
    c == 'a' || c == 'e' || c == 'i' || c == 'o' || c == 'u' || c == 'y'
}

/// The letter pairs that instantly spoil a nice string.
pub open spec fn forbidden_pair(a: char, b: char) -> bool {
    (a == 'a' && b == 'b') || (a == 'c' && b == 'd') || (a == 'p' && b == 'q') || (a == 'x' && b
        == 'y')
}

pub open spec fn has_forbidden_pair(s: Seq<char>) -> bool {
    exists|i: int| 0 <= i && i + 1 < s.len() && forbidden_pair(#[trigger] s[i], s[i + 1])
}

pub open spec fn has_double_letter(s: Seq<char>) -> bool {
    exists|i: int| 0 <= i && i + 1 < s.len() && (#[trigger] s[i]) == s[i + 1] && is_ascii_alpha(s[i])
}

pub open spec fn vowel_count(s: Seq<char>) -> int {
    count_where(s.len() as int, |i: int| is_vowel(s[i]))
}

/// The first password game, on the lowercased text: no forbidden pair,
/// some doubled letter, and at least three vowels.
pub open spec fn nice_spec(s: Seq<char>) -> bool {
    &&& !has_forbidden_pair(s)
    &&& has_double_letter(s)
    &&& vowel_count(s) >= 3
}

/// Decide the first password game.  The text is lowercased first, as the
/// game demands.
pub fn nice_check(input: &str) -> (r: bool)
    ensures
        r == nice_spec(lower_of(input@)),
{
    let text = lowercase(input);
    let t = text.as_str();
    let n = t.unicode_len();

    let mut bad = false;
    let mut dbl = false;
    let limit: usize = if n == 0 {
        0
    } else {
        n - 1
    };
    let mut i: usize = 0;
    while i < limit
        invariant
            n == t@.len(),
            limit == (if n == 0 {
                0int
            } else {
                n - 1
            }),
            i <= limit,
            bad ==> has_forbidden_pair(t@),
            !bad ==> forall|k: int| 0 <= k < i ==> !forbidden_pair(#[trigger] t@[k], t@[k + 1]),
            dbl ==> has_double_letter(t@),
            !dbl ==> forall|k: int| 0 <= k < i ==> !((#[trigger] t@[k]) == t@[k + 1] && is_ascii_alpha(t@[k])),
        decreases n - i,
    {
        let a = t.get_char(i);
        let b = t.get_char(i + 1);
        if (a == 'a' && b == 'b') || (a == 'c' && b == 'd') || (a == 'p' && b == 'q') || (a == 'x'
            && b == 'y') {
            bad = true;
        }
        if a == b && (('a' <= a && a <= 'z') || ('A' <= a && a <= 'Z')) {
            dbl = true;
        }
        i = i + 1;
    }
    proof {
        if !bad {
            assert forall|k: int| 0 <= k && k + 1 < t@.len() implies !forbidden_pair(
                #[trigger] t@[k],
                t@[k + 1],
            ) by {
                assert(k < i);
            }
        }
        if !dbl {
            assert forall|k: int| 0 <= k && k + 1 < t@.len() implies !((#[trigger] t@[k]) == t@[k
                + 1] && is_ascii_alpha(t@[k])) by {
                assert(k < i);
            }
        }
    }

    let ghost p = |k: int| is_vowel(t@[k]);
    let mut vowels: usize = 0;
    let mut j: usize = 0;
    while j < n
        invariant
            n == t@.len(),
            j <= n,
            vowels == count_where(j as int, p),
            p == (|k: int| is_vowel(t@[k])),
        decreases n - j,
    {
        proof {
            lemma_count_where_bound(j as int, p);
        }
        let c = t.get_char(j);
        if c == 'a' || c == 'e' || c == 'i' || c == 'o' || c == 'u' || c == 'y' {
            vowels = vowels + 1;
        }
        proof {
            assert(count_where(j + 1, p) == count_where(j as int, p) + (if p(j as int) {
                1int
            } else {
                0int
            }));
        }
        j = j + 1;
    }
    proof {
        assert(vowel_count(t@) == count_where(n as int, p));
    }

    !bad && dbl && vowels >= 3
}

/// Two characters in order somewhere in the text.
pub open spec fn pair_ordered(s: Seq<char>, a: char, b: char) -> bool {
    exists|i: int, j: int| 0 <= i < j < s.len() && s[i] == a && s[j] == b
}

/// Three characters in order somewhere in the text.
pub open spec fn triple_ordered(s: Seq<char>, a: char, b: char, c: char) -> bool {
    exists|i: int, j: int, k: int|
        0 <= i < j < k < s.len() && s[i] == a && s[j] == b && s[k] == c
}

/// Whether two characters occur in order in the text.
fn find_pair(s: &str, a: char, b: char) -> (r: bool)
    ensures
        r == pair_ordered(s@, a, b),
{
    let n = s.unicode_len();
    let mut seen_a = false;
    let mut k: usize = 0;
    while k < n
        invariant
            n == s@.len(),
            k <= n,
            seen_a == exists|i: int| 0 <= i < k && s@[i] == a,
            !pair_ordered(s@.take(k as int), a, b),
        decreases n - k,
    {
        let c = s.get_char(k);
        if c == b && seen_a {
            proof {
                let i = choose|i: int| 0 <= i < k && s@[i] == a;
                assert(s@[k as int] == b);
            }
            return true;
        }
        proof {
            assert(!pair_ordered(s@.take(k + 1), a, b)) by {
                if pair_ordered(s@.take(k + 1), a, b) {
                    let (i, j) = choose|i: int, j: int|
                        #![trigger s@.take(k + 1)[i], s@.take(k + 1)[j]]
                        0 <= i < j < s@.take(k + 1).len() && s@.take(k + 1)[i] == a && s@.take(
                            k + 1,
                        )[j] == b;
                    if j < k {
                        assert(pair_ordered(s@.take(k as int), a, b));
                    } else {
                        assert(s@[i] == a);
                        assert(s@[j] == b);
                        assert(s@[k as int] == b && exists|i2: int| 0 <= i2 < k && s@[i2] == a);
                    }
                }
            }
        }
        if c == a {
            seen_a = true;
        }
        k = k + 1;
    }
    proof {
        assert(s@.take(n as int) =~= s@);
    }
    false
}

/// Whether three characters occur in order in the text.
fn find_triple(s: &str, a: char, b: char, c: char) -> (r: bool)
    ensures
        r == triple_ordered(s@, a, b, c),
{
    let n = s.unicode_len();
    let mut seen_a = false;
    let mut seen_ab = false;
    let mut k: usize = 0;
    while k < n
        invariant
            n == s@.len(),
            k <= n,
            seen_a == exists|i: int| 0 <= i < k && s@[i] == a,
            seen_ab == pair_ordered(s@.take(k as int), a, b),
            !triple_ordered(s@.take(k as int), a, b, c),
        decreases n - k,
    {
        let ch = s.get_char(k);
        if ch == c && seen_ab {
            proof {
                let (i, j) = choose|i: int, j: int|
                    #![trigger s@.take(k as int)[i], s@.take(k as int)[j]]
                    0 <= i < j < s@.take(k as int).len() && s@.take(k as int)[i] == a && s@.take(
                        k as int,
                    )[j] == b;
                assert(s@[i] == a && s@[j] == b && s@[k as int] == c);
            }
            return true;
        }
        proof {
            assert(!triple_ordered(s@.take(k + 1), a, b, c)) by {
                if triple_ordered(s@.take(k + 1), a, b, c) {
                    let (i, j, l) = choose|i: int, j: int, l: int|
                        #![trigger s@.take(k + 1)[i], s@.take(k + 1)[j], s@.take(k + 1)[l]]
                        0 <= i < j < l < s@.take(k + 1).len() && s@.take(k + 1)[i] == a && s@.take(
                            k + 1,
                        )[j] == b && s@.take(k + 1)[l] == c;
                    if l < k {
                        assert(triple_ordered(s@.take(k as int), a, b, c));
                    } else {
                        assert(s@.take(k as int)[i] == a && s@.take(k as int)[j] == b);
                        assert(pair_ordered(s@.take(k as int), a, b));
                        assert(s@[l] == c && l == k);
                    }
                }
            }
            if seen_ab || (seen_a && s@[k as int] == b) {
                if !seen_ab {
                    let i = choose|i: int| 0 <= i < k && s@[i] == a;
                    assert(s@.take(k + 1)[i] == a && s@.take(k + 1)[k as int] == b);
                }
                assert(pair_ordered(s@.take(k + 1), a, b)) by {
                    if seen_ab {
                        let (i, j) = choose|i: int, j: int|
                            #![trigger s@.take(k as int)[i], s@.take(k as int)[j]]
                            0 <= i < j < s@.take(k as int).len() && s@.take(k as int)[i] == a
                                && s@.take(k as int)[j] == b;
                        assert(s@.take(k + 1)[i] == a && s@.take(k + 1)[j] == b);
                    }
                }
            } else {
                assert(!pair_ordered(s@.take(k + 1), a, b)) by {
                    if pair_ordered(s@.take(k + 1), a, b) {
                        let (i, j) = choose|i: int, j: int|
                            #![trigger s@.take(k + 1)[i], s@.take(k + 1)[j]]
                            0 <= i < j < s@.take(k + 1).len() && s@.take(k + 1)[i] == a && s@.take(
                                k + 1,
                            )[j] == b;
                        if j < k {
                            assert(pair_ordered(s@.take(k as int), a, b));
                        } else {
                            assert(s@[i] == a);
                        }
                    }
                }
            }
        }
        if ch == b && seen_a {
            seen_ab = true;
        }
        if ch == a {
            seen_a = true;
        }
        k = k + 1;
    }
    proof {
        assert(s@.take(n as int) =~= s@);
    }
    false
}

/// Where the maximal digit run starting at `i` ends.
pub open spec fn run_end(s: Seq<char>, i: int) -> int
    decreases s.len() - i,
{
    if i < 0 || i >= s.len() || !is_digit(s[i]) {
        i
    } else {
        run_end(s, i + 1)
    }
}

/// The digit run starting at a digit position reaches past it, covers
/// digits only, and stops at the end or at a non-digit.
proof fn lemma_run_end(s: Seq<char>, i: int)
    requires
        0 <= i <= s.len(),
    ensures
        i <= run_end(s, i) <= s.len(),
        forall|j: int| i <= j < run_end(s, i) ==> is_digit(s[j]),
        run_end(s, i) == s.len() || !is_digit(s[run_end(s, i)]),
    decreases s.len() - i,
{
    if i < s.len() && is_digit(s[i]) {
        lemma_run_end(s, i + 1);
    }
}

/// A stretch of digits ending at the end or at a non-digit is exactly the
/// maximal run.
proof fn lemma_run_end_unique(s: Seq<char>, i: int, j: int)
    requires
        0 <= i <= j <= s.len(),
        forall|k: int| i <= k < j ==> is_digit(s[k]),
        j == s.len() || !is_digit(s[j]),
    ensures
        run_end(s, i) == j,
    decreases j - i,
{
    if i < j {
        lemma_run_end_unique(s, i + 1, j);
    }
}

/// The sum of the values of the maximal digit runs at or after position
/// `i`, each read as a signed number with an overflowing run counting
/// zero.
pub open spec fn run_sum_from(s: Seq<char>, i: int) -> int
    decreases s.len() - i,
    via run_sum_from_decreases
{
    if i < 0 || i >= s.len() {
        0
    } else if !is_digit(s[i]) {
        run_sum_from(s, i + 1)
    } else {
        piece_val(s.subrange(i, run_end(s, i))) + run_sum_from(s, run_end(s, i))
    }
}

#[via_fn]
proof fn run_sum_from_decreases(s: Seq<char>, i: int) {
    if 0 <= i < s.len() && is_digit(s[i]) {
        lemma_run_end(s, i + 1);
    }
}

/// The sum of the digit runs of the whole text.
pub open spec fn run_sum(s: Seq<char>) -> int {
    run_sum_from(s, 0)
}

/// Each position past `i` contributes less than one full signed range to
/// the run sum.
proof fn lemma_run_sum_bound(s: Seq<char>, i: int)
    requires
        0 <= i <= s.len(),
    ensures
        -((s.len() - i) * 0x8000_0000) <= run_sum_from(s, i) <= (s.len() - i) * 0x8000_0000,
    decreases s.len() - i,
{
    if i < s.len() {
        if !is_digit(s[i]) {
            lemma_run_sum_bound(s, i + 1);
        } else {
            lemma_run_end(s, i);
            let e = run_end(s, i);
            lemma_run_sum_bound(s, e);
        }
    }
}

/// Whether the text holds a character with the Unicode emoji presentation
/// property: the result depends on the characters alone.
pub uninterp spec fn has_emoji_presentation(s: Seq<char>) -> bool;

/// Relies on regex's `Regex::new` and `Regex::is_match`, with the fixed
/// pattern for the Unicode emoji presentation property: whether the text
/// matches depends on the text alone.  The constant pattern is valid, so
/// building the regex cannot fail.
#[verifier::external_body]
fn contains_emoji(s: &str) -> (r: bool)
    ensures
        r == has_emoji_presentation(s@),
{
    regex::Regex::new(r"\p{Emoji_Presentation}").unwrap().is_match(s)
}

/// The digest `sha256::digest` computes for a text: it depends on the
/// characters alone.
pub uninterp spec fn sha256_hex_of(s: Seq<char>) -> Seq<char>;

/// Relies on `sha256::digest`: the digest of the text's UTF-8 bytes as a
/// string of 64 hexadecimal characters, a function of the text alone.
#[verifier::external_body]
fn sha256_hex(s: &str) -> (r: String)
    ensures
        r@ == sha256_hex_of(s@),
        r@.len() == 64,
{
    sha256::digest(s)
}

/// The second password game, one rule after another: the status to answer
/// with and the reason to give.  A status of 200 means the password is
/// nice; everything else is naughty.
pub open spec fn game_verdict(s: Seq<char>) -> (int, Seq<char>) {
    if vstd::utf8::encode_utf8(s).len() < 8 {
        (400, "8 chars"@)
    } else if !has_game_char_mix(s) {
        (400, "more types of chars"@)
    } else if digit_count(s) < 5 {
        (400, "55555"@)
    } else if run_sum(s) != 2023 {
        (400, "math is hard"@)
    } else if !joy_rule(s) {
        (406, "not joyful enough"@)
    } else if !has_sandwich(s) {
        (451, "illegal: no sandwich"@)
    } else if !has_range_char(s) {
        (416, "outranged"@)
    } else if !has_emoji_presentation(s) {
        (426, "\u{1f633}"@)
    } else if !ends_in_a(sha256_hex_of(s)) {
        (418, "not a coffee brewer"@)
    } else {
        (200, "that's a nice password"@)
    }
}

/// At least one upper-case letter, one lower-case letter and one digit.
pub open spec fn has_game_char_mix(s: Seq<char>) -> bool {
    &&& exists|i: int| 0 <= i < s.len() && 'A' <= #[trigger] s[i] <= 'Z'
    &&& exists|i: int| 0 <= i < s.len() && 'a' <= #[trigger] s[i] <= 'z'
    &&& exists|i: int| 0 <= i < s.len() && is_digit(#[trigger] s[i])
}

pub open spec fn digit_count(s: Seq<char>) -> int {
    count_where(s.len() as int, |i: int| is_digit(s[i]))
}

/// The letters j, o, y in order, and never any of them out of that order.
pub open spec fn joy_rule(s: Seq<char>) -> bool {
    &&& triple_ordered(s, 'j', 'o', 'y')
    &&& !pair_ordered(s, 'y', 'j')
    &&& !pair_ordered(s, 'o', 'j')
    &&& !pair_ordered(s, 'y', 'o')
}

/// A letter repeated with exactly one letter between the two copies.
pub open spec fn has_sandwich(s: Seq<char>) -> bool {
    exists|i: int|
        0 <= i && i + 2 < s.len() && (#[trigger] s[i]) == s[i + 2] && is_ascii_alpha(s[i])
            && is_ascii_alpha(s[i + 1])
}

/// A character drawn from the fixed arrows-and-symbols range.
pub open spec fn has_range_char(s: Seq<char>) -> bool {
    exists|i: int| 0 <= i < s.len() && 0x2980 <= (#[trigger] s[i]) as u32 <= 0x2bff
}

/// Whether the digest string ends in the letter a.
pub open spec fn ends_in_a(hex: Seq<char>) -> bool {
    hex.len() > 0 && hex.last() == 'a'
}

/// Decide the second password game: the status code and the verdict body.
pub fn password_game(input: &str) -> (r: (u16, Response))
    requires
        input@.len() <= 0x7fff_ffff,
    ensures
        r.0 as int == game_verdict(input@).0,
        r.1.result@ == (if game_verdict(input@).0 == 200 {
            "nice"@
        } else {
            "naughty"@
        }),
        match r.1.reason {
            Some(m) => m@ == game_verdict(input@).1,
            None => false,
        },
{
    let n = input.unicode_len();

    if input.as_bytes().len() < 8 {
        return (400, naughty("8 chars"));
    }
    proof {
        assert(vstd::utf8::encode_utf8(input@).len() >= 8);
    }

    let mut has_upper = false;
    let mut has_lower = false;
    let ghost pd = |k: int| is_digit(input@[k]);
    let mut digits: usize = 0;
    let mut i: usize = 0;
    while i < n
        invariant
            n == input@.len(),
            i <= n,
            has_upper == exists|k: int| 0 <= k < i && 'A' <= #[trigger] input@[k] <= 'Z',
            has_lower == exists|k: int| 0 <= k < i && 'a' <= #[trigger] input@[k] <= 'z',
            digits == count_where(i as int, pd),
            pd == (|k: int| is_digit(input@[k])),
        decreases n - i,
    {
        proof {
            lemma_count_where_bound(i as int, pd);
        }
        let c = input.get_char(i);
        if 'A' <= c && c <= 'Z' {
            has_upper = true;
        }
        if 'a' <= c && c <= 'z' {
            has_lower = true;
        }
        if '0' <= c && c <= '9' {
            digits = digits + 1;
        }
        proof {
            assert(count_where(i + 1, pd) == count_where(i as int, pd) + (if pd(i as int) {
                1int
            } else {
                0int
            }));
        }
        i = i + 1;
    }
    proof {
        assert(digit_count(input@) == count_where(n as int, pd));
        crate::text::lemma_count_where_pos(n as int, pd);
        assert((digits > 0) == (exists|i: int|
            0 <= i < input@.len() && is_digit(#[trigger] input@[i]))) by {
            if exists|i: int| 0 <= i < n && #[trigger] pd(i) {
                let i = choose|i: int| 0 <= i < n && #[trigger] pd(i);
                assert(is_digit(input@[i]));
            }
            if exists|i: int| 0 <= i < input@.len() && is_digit(#[trigger] input@[i]) {
                let i = choose|i: int| 0 <= i < input@.len() && is_digit(#[trigger] input@[i]);
                assert(pd(i));
            }
        }
    }
    if !(has_upper && has_lower && digits > 0) {
        return (400, naughty("more types of chars"));
    }
    if digits < 5 {
        return (400, naughty("55555"));
    }

    let mut sum: i64 = 0;
    let mut j: usize = 0;
    while j < n
        invariant
            n == input@.len(),
            n <= 0x7fff_ffff,
            j <= n,
            run_sum(input@) == sum + run_sum_from(input@, j as int),
            -((j as int) * 0x8000_0000) <= sum <= (j as int) * 0x8000_0000,
        decreases n - j,
    {
        let c = input.get_char(j);
        if c < '0' || c > '9' {
            proof {
                assert(run_sum_from(input@, j as int) == run_sum_from(input@, j + 1));
            }
            j = j + 1;
        } else {
            let mut e: usize = j;
            let mut stop = false;
            while e < n && !stop
                invariant
                    n == input@.len(),
                    j <= e <= n,
                    forall|k: int| j <= k < e ==> is_digit(#[trigger] input@[k]),
                    stop ==> e < n && !is_digit(input@[e as int]),
                decreases n - e, (if stop {
                    0int
                } else {
                    1int
                }),
            {
                let d = input.get_char(e);
                if d < '0' || d > '9' {
                    stop = true;
                } else {
                    e = e + 1;
                }
            }
            proof {
                assert(e == n || !is_digit(input@[e as int]));
                lemma_run_end_unique(input@, j as int, e as int);
                assert(e > j);
            }
            let run = input.substring_char(j, e);
            let v = crate::cube::parse_i32_or_zero(run);
            proof {
                lemma_run_sum_bound(input@, e as int);
                assert(run_sum_from(input@, j as int) == piece_val(
                    input@.subrange(j as int, e as int),
                ) + run_sum_from(input@, e as int));
            }
            sum = sum + v as i64;
            j = e;
        }
    }
    proof {
        assert(run_sum_from(input@, n as int) == 0);
    }
    if sum != 2023 {
        return (400, naughty("math is hard"));
    }

    let joy = find_triple(input, 'j', 'o', 'y');
    let yj = find_pair(input, 'y', 'j');
    let oj = find_pair(input, 'o', 'j');
    let yo = find_pair(input, 'y', 'o');
    if !joy || yj || oj || yo {
        return (406, naughty("not joyful enough"));
    }

    let mut sandwich = false;
    let limit2: usize = if n < 2 {
        0
    } else {
        n - 2
    };
    let mut k: usize = 0;
    while k < limit2
        invariant
            n == input@.len(),
            limit2 == (if n < 2 {
                0int
            } else {
                n - 2
            }),
            k <= n,
            sandwich ==> has_sandwich(input@),
            !sandwich ==> forall|t: int|
                0 <= t < k ==> !((#[trigger] input@[t]) == input@[t + 2] && is_ascii_alpha(
                    input@[t],
                ) && is_ascii_alpha(input@[t + 1])),
        decreases n - k,
    {
        let a = input.get_char(k);
        let b = input.get_char(k + 1);
        let c = input.get_char(k + 2);
        if a == c && (('a' <= a && a <= 'z') || ('A' <= a && a <= 'Z')) && (('a' <= b && b <= 'z')
            || ('A' <= b && b <= 'Z')) {
            sandwich = true;
        }
        k = k + 1;
    }
    proof {
        if !sandwich {
            assert forall|t: int|
                0 <= t && t + 2 < input@.len() implies !((#[trigger] input@[t]) == input@[t + 2]
                && is_ascii_alpha(input@[t]) && is_ascii_alpha(input@[t + 1])) by {
                assert(t < k);
            }
        }
    }
    if !sandwich {
        return (451, naughty("illegal: no sandwich"));
    }

    let mut ranged = false;
    let mut m: usize = 0;
    while m < n
        invariant
            n == input@.len(),
            m <= n,
            ranged ==> has_range_char(input@),
            !ranged ==> forall|t: int|
                0 <= t < m ==> !(0x2980 <= (#[trigger] input@[t]) as u32 <= 0x2bff),
        decreases n - m,
    {
        let c = input.get_char(m);
        let v = c as u32;
        if 0x2980 <= v && v <= 0x2bff {
            ranged = true;
        }
        m = m + 1;
    }
    if !ranged {
        return (416, naughty("outranged"));
    }

    if !contains_emoji(input) {
        return (426, naughty("\u{1f633}"));
    }

    let hex = sha256_hex(input);
    let last = hex.as_str().get_char(hex.as_str().unicode_len() - 1);
    if last != 'a' {
        return (418, naughty("not a coffee brewer"));
    }

    (
        200,
        Response {
            result: String::from_str("nice"),
            reason: Some(String::from_str("that's a nice password")),
        },
    )
}

/// A naughty verdict with its reason.
fn naughty(reason: &str) -> (r: Response)
    ensures
        r.result@ == "naughty"@,
        r.reason matches Some(m) && m@ == reason@,
{
    Response {
        result: String::from_str("naughty"),
        reason: Some(String::from_str(reason)),
    }
}

} // verus!
