use vstd::prelude::*;
use vstd::string::StrSliceExecFns;

verus! {

/// The position of the first separator in the text, or `-1` when there is
/// none.
pub open spec fn first_sep(s: Seq<char>, sep: char) -> int
    decreases s.len(),
{
    if s.len() == 0 {
        -1
    } else if s[0] == sep {
        0
    } else {
        let r = first_sep(s.skip(1), sep);
        if r < 0 {
            -1
        } else {
            1 + r
        }
    }
}

/// The pieces of the text between the separators, in order.  A text
/// without a separator is one piece, and an empty piece counts.
pub open spec fn split_on(s: Seq<char>, sep: char) -> Seq<Seq<char>>
    decreases s.len(),
    via split_on_decreases
{
    let i = first_sep(s, sep);
    if i < 0 {
        seq![s]
    } else {
        seq![s.take(i)] + split_on(s.skip(i + 1), sep)
    }
}

#[via_fn]
proof fn split_on_decreases(s: Seq<char>, sep: char) {
    lemma_first_sep(s, sep);
}

/// The first separator is a separator position, and nothing before it is.
proof fn lemma_first_sep(s: Seq<char>, sep: char)
    ensures
        first_sep(s, sep) >= 0 ==> first_sep(s, sep) < s.len() && s[first_sep(s, sep)] == sep,
        forall|j: int| 0 <= j < first_sep(s, sep) ==> s[j] != sep,
        first_sep(s, sep) < 0 ==> forall|j: int| 0 <= j < s.len() ==> s[j] != sep,
    decreases s.len(),
{
    if s.len() > 0 && s[0] != sep {
        lemma_first_sep(s.skip(1), sep);
        let r = first_sep(s.skip(1), sep);
        if r >= 0 {
            assert(s[1 + r] == s.skip(1)[r]);
            assert forall|j: int| 0 <= j < 1 + r implies s[j] != sep by {
                if j > 0 {
                    assert(s.skip(1)[j - 1] != sep);
                }
            }
        } else {
            assert forall|j: int| 0 <= j < s.len() implies s[j] != sep by {
                if j > 0 {
                    assert(s.skip(1)[j - 1] != sep);
                }
            }
        }
    }
}

/// A text whose prefix holds no separator splits into that prefix-piece
/// followed by the split of what comes after the separator.
proof fn lemma_split_step(s: Seq<char>, sep: char, i: int)
    requires
        0 <= i < s.len(),
        s[i] == sep,
        forall|j: int| 0 <= j < i ==> s[j] != sep,
    ensures
        split_on(s, sep) == seq![s.take(i)] + split_on(s.skip(i + 1), sep),
{
    lemma_first_sep(s, sep);
    assert(first_sep(s, sep) == i) by {
        let f = first_sep(s, sep);
        if f < 0 {
        } else if f < i {
        } else if f > i {
            assert(s[i] != sep);
        }
    }
}

/// A text without separators is one piece.
proof fn lemma_split_last(s: Seq<char>, sep: char)
    requires
        forall|j: int| 0 <= j < s.len() ==> s[j] != sep,
    ensures
        split_on(s, sep) == seq![s],
{
    lemma_first_sep(s, sep);
    let f = first_sep(s, sep);
    if f >= 0 {
        assert(s[f] != sep);
    }
}

/// Split the text on a separator character into its pieces.
pub fn split_text(s: &str, sep: char) -> (r: Vec<String>)
    ensures
        r@.map_values(|p: String| p@) == split_on(s@, sep),
{
    let n = s.unicode_len();
    let mut pieces: Vec<String> = Vec::new();
    let mut piece = String::new();
    let mut start: usize = 0;
    let mut i: usize = 0;
    proof {
        assert(s@.skip(0) =~= s@);
        assert(pieces@.map_values(|p: String| p@) =~= Seq::<Seq<char>>::empty());
        assert(Seq::<Seq<char>>::empty() + split_on(s@, sep) =~= split_on(s@, sep));
        assert(piece@ =~= s@.subrange(0, 0));
    }
    while i < n
        invariant
            n == s@.len(),
            start <= i <= n,
            piece@ == s@.subrange(start as int, i as int),
            forall|j: int| start <= j < i ==> s@[j] != sep,
            split_on(s@, sep) == pieces@.map_values(|p: String| p@) + split_on(
                s@.skip(start as int),
                sep,
            ),
        decreases n - i,
    {
        let c = s.get_char(i);
        if c == sep {
            let ghost pmap0 = pieces@.map_values(|p: String| p@);
            let done = piece;
            pieces.push(done);
            piece = String::new();
            proof {
                let tail = s@.skip(start as int);
                assert(tail[i - start] == sep);
                assert forall|j: int| 0 <= j < i - start implies tail[j] != sep by {
                    assert(tail[j] == s@[start + j]);
                }
                lemma_split_step(tail, sep, i - start);
                assert(tail.take(i - start) =~= s@.subrange(start as int, i as int));
                assert(tail.skip(i - start + 1) =~= s@.skip(i + 1));
                assert(pieces@.map_values(|p: String| p@) =~= pmap0.push(
                    s@.subrange(start as int, i as int),
                ));
                assert(pmap0.push(s@.subrange(start as int, i as int)) + split_on(
                    s@.skip(i + 1),
                    sep,
                ) =~= pmap0 + split_on(tail, sep));
            }
            start = i + 1;
            proof {
                assert(piece@ =~= s@.subrange(start as int, start as int));
            }
        } else {
            piece.push(c);
            proof {
                assert(piece@ =~= s@.subrange(start as int, i + 1));
            }
        }
        i = i + 1;
    }
    let ghost pmap0 = pieces@.map_values(|p: String| p@);
    pieces.push(piece);
    proof {
        let tail = s@.skip(start as int);
        assert forall|j: int| 0 <= j < tail.len() implies tail[j] != sep by {
            assert(tail[j] == s@[start + j]);
        }
        lemma_split_last(tail, sep);
        assert(tail =~= s@.subrange(start as int, n as int));
        assert(pieces@.map_values(|p: String| p@) =~= pmap0.push(tail));
        assert(pmap0.push(tail) =~= pmap0 + seq![tail]);
    }
    pieces
}

/// Whether every character of the text is a decimal digit.
pub open spec fn is_digits(s: Seq<char>) -> bool {
    forall|j: int| 0 <= j < s.len() ==> '0' <= #[trigger] s[j] <= '9'
}

/// The number the decimal digits stand for.
pub open spec fn digits_val(s: Seq<char>) -> int
    decreases s.len(),
{
    if s.len() == 0 {
        0
    } else {
        digits_val(s.drop_last()) * 10 + (s.last() as int - '0' as int)
    }
}

/// The number a piece stands for under signed decimal parsing: an
/// optional sign, then at least one digit, and a value within the
/// thirty-two-bit signed range; anything else has no value.
pub open spec fn parse_i32_spec(s: Seq<char>) -> Option<i32> {
    let ds = if s.len() > 0 && (s[0] == '+' || s[0] == '-') {
        s.skip(1)
    } else {
        s
    };
    let neg = s.len() > 0 && s[0] == '-';
    if ds.len() == 0 || !is_digits(ds) {
        None
    } else {
        let v = if neg {
            -digits_val(ds)
        } else {
            digits_val(ds)
        };
        if i32::MIN <= v <= i32::MAX {
            Some(v as i32)
        } else {
            None
        }
    }
}

/// Digit values never shrink as more digits are read.
pub(crate) proof fn lemma_digits_val_monotone(s: Seq<char>, i: int)
    requires
        is_digits(s),
        0 <= i <= s.len(),
    ensures
        0 <= digits_val(s.take(i)) <= digits_val(s),
    decreases s.len() - i,
{
    if i < s.len() {
        lemma_digits_val_monotone(s, i + 1);
        assert(s.take(i + 1).drop_last() =~= s.take(i));
        assert(s.take(i + 1).last() == s[i]);
        lemma_digits_val_nonneg(s.take(i));
    } else {
        assert(s.take(i) =~= s);
        lemma_digits_val_nonneg(s);
    }
}

/// A digit string's value is never negative.
proof fn lemma_digits_val_nonneg(s: Seq<char>)
    requires
        is_digits(s),
    ensures
        digits_val(s) >= 0,
    decreases s.len(),
{
    if s.len() > 0 {
        assert(is_digits(s.drop_last())) by {
            assert forall|j: int| 0 <= j < s.drop_last().len() implies '0'
                <= #[trigger] s.drop_last()[j] <= '9' by {
                assert(s.drop_last()[j] == s[j]);
            }
        }
        lemma_digits_val_nonneg(s.drop_last());
    }
}

/// Parse a piece as a signed decimal number; a piece that is not a
/// well-formed in-range number counts zero.
pub fn parse_i32_or_zero(s: &str) -> (r: i32)
    ensures
        r == (match parse_i32_spec(s@) {
            Some(v) => v,
            None => 0i32,
        }),
{
    let n = s.unicode_len();
    if n == 0 {
        return 0;
    }
    let c0 = s.get_char(0);
    let neg = c0 == '-';
    let start: usize = if c0 == '-' || c0 == '+' {
        1
    } else {
        0
    };
    let ghost ds = if c0 == '-' || c0 == '+' {
        s@.skip(1)
    } else {
        s@
    };
    if n == start {
        return 0;
    }
    let mut acc: i64 = 0;
    let mut i: usize = start;
    while i < n
        invariant
            n == s@.len(),
            n <= usize::MAX,
            start <= i <= n,
            start <= 1,
            (start == 1) == (s@[0] == '+' || s@[0] == '-'),
            ds == (if start == 1 {
                s@.skip(1)
            } else {
                s@
            }),
            ds.len() == n - start,
            forall|j: int| 0 <= j < i - start ==> '0' <= #[trigger] ds[j] <= '9',
            acc == digits_val(ds.take(i - start)),
            0 <= acc <= 0x8000_0000,
        decreases n - i,
    {
        let c = s.get_char(i);
        if c < '0' || c > '9' {
            proof {
                assert(ds[i - start] == s@[i as int]);
                assert(!is_digits(ds));
            }
            return 0;
        }
        if acc >= 0x8000_0000 {
            proof {
                assert(ds[i - start] == s@[i as int]);
                assert(parse_i32_spec(s@) == None::<i32>) by {
                    if is_digits(ds) {
                        lemma_digits_val_monotone(ds, i - start + 1);
                        assert(ds.take(i - start + 1).drop_last() =~= ds.take(i - start));
                        assert(ds.take(i - start + 1).last() == ds[i - start]);
                        assert(digits_val(ds.take(i - start + 1)) == acc * 10 + (ds[i - start]
                            as int - '0' as int));
                        assert(digits_val(ds) >= acc * 10);
                    }
                }
            }
            return 0;
        }
        proof {
            assert(ds[i - start] == s@[i as int]);
            assert(ds.take(i - start + 1).drop_last() =~= ds.take(i - start));
            assert(ds.take(i - start + 1).last() == ds[i - start]);
        }
        acc = acc * 10 + ((c as u32) as i64 - 48);
        if acc > 0x8000_0000 {
            proof {
                assert(parse_i32_spec(s@) == None::<i32>) by {
                    if is_digits(ds) {
                        lemma_digits_val_monotone(ds, i - start + 1);
                        assert(digits_val(ds) >= acc);
                    }
                }
            }
            return 0;
        }
        i = i + 1;
    }
    proof {
        assert(ds.take(n - start) =~= ds);
        assert(is_digits(ds));
    }
    if neg {
        proof {
            assert(parse_i32_spec(s@) == Some((-acc) as i32));
        }
        (-acc) as i32
    } else {
        if acc == 0x8000_0000 {
            proof {
                assert(parse_i32_spec(s@) == None::<i32>);
            }
            0
        } else {
            proof {
                assert(parse_i32_spec(s@) == Some(acc as i32));
            }
            acc as i32
        }
    }
}

/// The packet values of the pieces: each parsed as a signed number, an
/// unreadable piece counting zero.
pub open spec fn piece_val(p: Seq<char>) -> i32 {
    match parse_i32_spec(p) {
        Some(v) => v,
        None => 0i32,
    }
}

/// The exclusive-or fold of the packet values, in order, starting from
/// zero.
pub open spec fn xor_fold(vals: Seq<i32>) -> i32
    decreases vals.len(),
{
    if vals.len() == 0 {
        0i32
    } else {
        xor_fold(vals.drop_last()) ^ vals.last()
    }
}

/// The packet game: split the path on `/`, read each piece as a signed
/// number with unreadable pieces counting zero, fold them by
/// exclusive-or, and cube the result with wrapping multiplication.
pub fn cube_the_bits(path: &str) -> (r: i32)
    ensures
        ({
            let v = xor_fold(split_on(path@, '/').map_values(|p: Seq<char>| piece_val(p)));
            r == vstd::wrapping::i32_specs::wrapping_mul(
                vstd::wrapping::i32_specs::wrapping_mul(v, v),
                v,
            )
        }),
{
    let pieces = split_text(path, '/');
    let n = pieces.len();
    let ghost vals = split_on(path@, '/').map_values(|p: Seq<char>| piece_val(p));
    let mut x: i32 = 0;
    let mut i: usize = 0;
    proof {
        assert(vals.take(0) =~= Seq::<i32>::empty());
    }
    while i < n
        invariant
            n == pieces@.len(),
            i <= n,
            vals == split_on(path@, '/').map_values(|p: Seq<char>| piece_val(p)),
            vals.len() == n,
            forall|j: int| 0 <= j < n ==> vals[j] == piece_val(pieces@.map_values(
                |p: String| p@,
            )[j]),
            pieces@.map_values(|p: String| p@) == split_on(path@, '/'),
            x == xor_fold(vals.take(i as int)),
        decreases n - i,
    {
        let v = parse_i32_or_zero(pieces[i].as_str());
        x = x ^ v;
        proof {
            assert(vals.take(i + 1).drop_last() =~= vals.take(i as int));
            assert(vals.take(i + 1).last() == vals[i as int]);
            assert(pieces@.map_values(|p: String| p@)[i as int] == pieces@[i as int]@);
        }
        i = i + 1;
    }
    proof {
        assert(vals.take(n as int) =~= vals);
    }
    let x2 = x.wrapping_mul(x);
    x2.wrapping_mul(x)
}

} // verus!
