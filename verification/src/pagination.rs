use vstd::prelude::*;

verus! {

/// The page selection of a list request: skip `offset` names, return at
/// most `limit`, and optionally cut the page into chunks of `split`.
pub struct Pagination {
    pub offset: Option<usize>,
    pub limit: Option<usize>,
    pub split: Option<usize>,
}

impl Pagination {
    /// Where the page starts: the offset, clipped to the list's length.
    pub open spec fn start(&self, len: int) -> int {
        let off = match self.offset {
            Some(o) => o as int,
            None => 0,
        };
        if off <= len {
            off
        } else {
            len
        }
    }

    /// Where the page ends: at most `limit` entries past the start, and
    /// never past the end of the list.
    pub open spec fn end(&self, len: int) -> int {
        let lim = match self.limit {
            Some(l) => l as int,
            None => len,
        };
        if self.start(len) + lim <= len {
            self.start(len) + lim
        } else {
            len
        }
    }

    /// The requested page of the list: the entries from `start` up to
    /// `end`, in order.
    pub fn paginate(&self, payload: &Vec<String>) -> (r: Vec<String>)
        ensures
            r@ == payload@.subrange(
                self.start(payload@.len() as int),
                self.end(payload@.len() as int),
            ),
    {
        let len = payload.len();
        let off: usize = match self.offset {
            Some(o) => if o <= len {
                o
            } else {
                len
            },
            None => 0,
        };
        let lim: usize = match self.limit {
            Some(l) => l,
            None => len,
        };
        let end: usize = if lim <= len - off {
            off + lim
        } else {
            len
        };
        let mut r: Vec<String> = Vec::new();
        let mut i: usize = off;
        while i < end
            invariant
                off <= i <= end <= len,
                len == payload@.len(),
                r@ == payload@.subrange(off as int, i as int),
            decreases end - i,
        {
            r.push(payload[i].clone());
            proof {
                assert(r@ =~= payload@.subrange(off as int, i + 1));
            }
            i = i + 1;
        }
        proof {
            assert(off as int == self.start(len as int));
            assert(end as int == self.end(len as int));
        }
        r
    }
}

/// A page cut into chunks of `size` entries, in order, the last chunk
/// possibly shorter.
pub open spec fn chunks_of(s: Seq<String>, k: int) -> Seq<Seq<String>>
    decreases s.len(),
    when k >= 1
{
    if s.len() == 0 {
        Seq::empty()
    } else if s.len() <= k {
        seq![s]
    } else {
        seq![s.take(k)] + chunks_of(s.skip(k), k)
    }
}

/// Cut a page into chunks of `size` entries; the last chunk keeps
/// whatever remains.
pub fn chunk_pages(page: &Vec<String>, size: usize) -> (r: Vec<Vec<String>>)
    requires
        size > 0,
    ensures
        r@.map_values(|v: Vec<String>| v@) == chunks_of(page@, size as int),
{
    let len = page.len();
    let mut r: Vec<Vec<String>> = Vec::new();
    let mut i: usize = 0;
    proof {
        assert(page@.skip(0) =~= page@);
        assert(r@.map_values(|v: Vec<String>| v@) =~= Seq::<Seq<String>>::empty());
        assert(Seq::<Seq<String>>::empty() + chunks_of(page@, size as int) =~= chunks_of(
            page@,
            size as int,
        ));
    }
    while i < len
        invariant
            i <= len,
            len == page@.len(),
            size > 0,
            chunks_of(page@, size as int) == r@.map_values(|v: Vec<String>| v@) + chunks_of(
                page@.skip(i as int),
                size as int,
            ),
        decreases len - i,
    {
        let ghost rmap0 = r@.map_values(|v: Vec<String>| v@);
        let take: usize = if size <= len - i {
            size
        } else {
            len - i
        };
        let mut chunk: Vec<String> = Vec::new();
        let mut j: usize = i;
        while j < i + take
            invariant
                i <= j <= i + take,
                i + take <= len,
                len == page@.len(),
                chunk@ == page@.subrange(i as int, j as int),
            decreases i + take - j,
        {
            chunk.push(page[j].clone());
            proof {
                assert(chunk@ =~= page@.subrange(i as int, j + 1));
            }
            j = j + 1;
        }
        proof {
            let s_i = page@.skip(i as int);
            assert(s_i.len() == len - i);
            if size <= len - i && len - i > size {
                assert(chunk@ =~= s_i.take(size as int));
            }
            if len - i <= size {
                assert(chunk@ =~= s_i);
            } else {
                assert(chunk@ =~= s_i.take(size as int));
                assert(s_i.skip(size as int) =~= page@.skip(i + size));
            }
        }
        r.push(chunk);
        proof {
            assert(r@.map_values(|v: Vec<String>| v@) =~= rmap0.push(chunk@));
            let s_i = page@.skip(i as int);
            if len - i <= size {
                assert(chunks_of(s_i, size as int) == seq![s_i]);
                assert(page@.skip(len as int) =~= Seq::<String>::empty());
                assert(chunks_of(page@.skip(len as int), size as int)
                    == Seq::<Seq<String>>::empty());
                assert(rmap0.push(chunk@) + Seq::<Seq<String>>::empty() =~= rmap0 + seq![s_i]);
            } else {
                assert(chunks_of(s_i, size as int) == seq![s_i.take(size as int)] + chunks_of(
                    s_i.skip(size as int),
                    size as int,
                ));
                assert(rmap0.push(chunk@) + chunks_of(page@.skip(i + size), size as int) =~= rmap0
                    + chunks_of(s_i, size as int));
            }
        }
        i = i + take;
    }
    proof {
        assert(page@.skip(i as int).len() == 0);
        assert(page@.skip(i as int) =~= Seq::<String>::empty());
        assert(chunks_of(page@.skip(i as int), size as int) == Seq::<Seq<String>>::empty());
        assert(r@.map_values(|v: Vec<String>| v@) + Seq::<Seq<String>>::empty() =~= r@.map_values(
            |v: Vec<String>| v@,
        ));
    }
    r
}

} // verus!
