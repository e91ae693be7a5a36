use vstd::prelude::*;
use vstd::string::StrSliceExecFns;

use crate::text::{count_matches, count_occ, count_where, has_at, lemma_count_where_bound, lowercase, lower_of, occurs_at};

verus! {

/// The elf census of a text: how many times "elf" occurs, how many times
/// "elf on a shelf" occurs, and how many occurrences of "shelf" have no
/// "elf on a " right before them.  All counting is done on the lowercased
/// text, and overlapping occurrences count.
pub struct ElfCount {
    pub elf: usize,
    pub elf_shelfs: usize,
    pub no_elf_shelfs: usize,
}

/// Whether a "shelf" at position `i` is a bare shelf: no "elf on a shelf"
/// occurrence ends on it.
pub open spec fn bare_shelf_at(t: Seq<char>, i: int) -> bool {
    occurs_at(t, "shelf"@, i) && !occurs_at(t, "elf on a shelf"@, i - 9)
}

/// Count the elves, the elves on shelves, and the bare shelves of a text,
/// on its lowercased form.
pub fn elf_count(body: &str) -> (r: ElfCount)
    ensures
        r.elf == count_occ(lower_of(body@), "elf"@),
        r.elf_shelfs == count_occ(lower_of(body@), "elf on a shelf"@),
        r.no_elf_shelfs == count_where(
            lower_of(body@).len() as int,
            |i: int| bare_shelf_at(lower_of(body@), i),
        ),
{
    let text = lowercase(body);
    let t = text.as_str();
    let elf = count_matches(t, "elf");
    let elf_shelfs = count_matches(t, "elf on a shelf");
    let n = t.unicode_len();
    let ghost p = |i: int| bare_shelf_at(t@, i);
    let mut bare: usize = 0;
    let mut i: usize = 0;
    while i < n
        invariant
            n == t@.len(),
            i <= n,
            bare == count_where(i as int, p),
            p == (|i: int| bare_shelf_at(t@, i)),
        decreases n - i,
    {
        proof {
            lemma_count_where_bound(i as int, p);
            reveal_strlit("shelf");
            reveal_strlit("elf on a shelf");
        }
        let mut is_bare = false;
        if 5 <= n - i {
            if has_at(t, "shelf", i) {
                if i >= 9 && 14 <= n - (i - 9) {
                    is_bare = !has_at(t, "elf on a shelf", i - 9);
                } else {
                    is_bare = true;
                    proof {
                        assert(!occurs_at(t@, "elf on a shelf"@, i - 9));
                    }
                }
            }
        } else {
            proof {
                assert(!occurs_at(t@, "shelf"@, i as int));
            }
        }
        proof {
            assert(is_bare == bare_shelf_at(t@, i as int));
            assert(count_where(i + 1, p) == count_where(i as int, p) + (if p(i as int) {
                1int
            } else {
                0int
            }));
        }
        if is_bare {
            bare = bare + 1;
        }
        i = i + 1;
    }
    ElfCount { elf, elf_shelfs, no_elf_shelfs: bare }
}

} // verus!
