use vstd::prelude::*;

use crate::text::{count_where, lemma_count_where_bound};

verus! {

/// Whether a pixel is distinctly red: its red channel exceeds its green
/// channel by more than its blue channel, the difference clamped at zero.
pub open spec fn is_red(p: (u16, u16, u16)) -> bool {
    (if p.0 > p.1 {
        p.0 - p.1
    } else {
        0
    }) > p.2
}

/// How many pixels of the image are distinctly red.
pub open spec fn red_count(pixels: Seq<(u16, u16, u16)>) -> int {
    count_where(pixels.len() as int, |i: int| is_red(pixels[i]))
}

/// Count the distinctly red pixels of a decoded image.
pub fn count_red_pixels(pixels: &Vec<(u16, u16, u16)>) -> (r: usize)
    ensures
        r == red_count(pixels@),
{
    let n = pixels.len();
    let ghost p = |i: int| is_red(pixels@[i]);
    let mut count: usize = 0;
    let mut i: usize = 0;
    while i < n
        invariant
            n == pixels@.len(),
            i <= n,
            count == count_where(i as int, p),
            p == (|i: int| is_red(pixels@[i])),
        decreases n - i,
    {
        proof {
            lemma_count_where_bound(i as int, p);
        }
        let (red, green, blue) = pixels[i];
        let cleared = if red > green {
            red - green
        } else {
            0
        };
        if cleared > blue {
            count = count + 1;
        }
        proof {
            assert(count_where(i + 1, p) == count_where(i as int, p) + (if p(i as int) {
                1int
            } else {
                0int
            }));
        }
        i = i + 1;
    }
    proof {
        assert(red_count(pixels@) == count_where(n as int, p));
    }
    count
}

} // verus!
