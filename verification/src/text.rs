//! Byte-level search over UTF-8 text, and slicing of `&str` at byte offsets
//! that are proved to fall on character boundaries.

use vstd::prelude::*;
use vstd::string::StringSliceAdditionalSpecFns;
use vstd::utf8::*;

verus! {

broadcast use group_utf8_lib;

/// `pat` occurs in `hay` starting at byte offset `p`.
pub open spec fn occurs_at(hay: Seq<u8>, pat: Seq<u8>, p: int) -> bool {
    &&& 0 <= p
    &&& p + pat.len() <= hay.len()
    &&& hay.subrange(p, p + pat.len()) == pat
}

/// The leftmost offset at or after `from` where `pat` occurs, if any.
pub open spec fn first_from(hay: Seq<u8>, pat: Seq<u8>, from: int) -> Option<int>
    decreases hay.len() + 1 - from,
{
    if from < 0 || from > hay.len() {
        None
    } else if occurs_at(hay, pat, from) {
        Some(from)
    } else {
        first_from(hay, pat, from + 1)
    }
}

/// The rightmost offset `q` with `lo <= q < hi` where the byte is `c`, if any.
pub open spec fn last_byte_in(hay: Seq<u8>, c: u8, lo: int, hi: int) -> Option<int>
    decreases hi - lo,
{
    if hi <= lo || hi > hay.len() || lo < 0 {
        None
    } else if hay[hi - 1] == c {
        Some(hi - 1)
    } else {
        last_byte_in(hay, c, lo, hi - 1)
    }
}

/// `first_from` answers with the leftmost occurrence: it occurs there, and
/// nowhere between `from` and it.
pub proof fn lemma_first_from(hay: Seq<u8>, pat: Seq<u8>, from: int)
    requires
        0 <= from,
    ensures
        match first_from(hay, pat, from) {
            Some(p) => from <= p && occurs_at(hay, pat, p) && forall|q: int|
                from <= q < p ==> !occurs_at(hay, pat, q),
            None => forall|q: int| from <= q ==> !occurs_at(hay, pat, q),
        },
    decreases hay.len() + 1 - from,
{
    if from > hay.len() {
    } else if occurs_at(hay, pat, from) {
    } else {
        lemma_first_from(hay, pat, from + 1);
    }
}

/// An occurrence with none before it, from `from` on, is the one
/// `first_from` finds.
pub proof fn lemma_first_from_is(hay: Seq<u8>, pat: Seq<u8>, from: int, p: int)
    requires
        0 <= from <= p,
        occurs_at(hay, pat, p),
        forall|q: int| from <= q < p ==> !occurs_at(hay, pat, q),
    ensures
        first_from(hay, pat, from) == Some(p),
    decreases p - from,
{
    if from < p {
        lemma_first_from_is(hay, pat, from + 1, p);
    }
}

/// With no occurrence from `from` on, `first_from` finds none.
pub proof fn lemma_first_from_none(hay: Seq<u8>, pat: Seq<u8>, from: int)
    requires
        0 <= from,
        forall|q: int| from <= q ==> !occurs_at(hay, pat, q),
    ensures
        first_from(hay, pat, from) is None,
    decreases hay.len() + 1 - from,
{
    if from <= hay.len() {
        lemma_first_from_none(hay, pat, from + 1);
    }
}

/// `last_byte_in` answers with the rightmost matching byte in `[lo, hi)`.
pub proof fn lemma_last_byte_in(hay: Seq<u8>, c: u8, lo: int, hi: int)
    requires
        0 <= lo,
        hi <= hay.len(),
    ensures
        match last_byte_in(hay, c, lo, hi) {
            Some(q) => lo <= q < hi && hay[q] == c && forall|r: int| q < r < hi ==> hay[r] != c,
            None => forall|r: int| lo <= r < hi ==> hay[r] != c,
        },
    decreases hi - lo,
{
    if hi <= lo {
    } else if hay[hi - 1] == c {
    } else {
        lemma_last_byte_in(hay, c, lo, hi - 1);
    }
}

/// A matching byte with none after it, up to `hi`, is the one
/// `last_byte_in` finds.
pub proof fn lemma_last_byte_in_is(hay: Seq<u8>, c: u8, lo: int, hi: int, q: int)
    requires
        0 <= lo <= q < hi <= hay.len(),
        hay[q] == c,
        forall|r: int| q < r < hi ==> hay[r] != c,
    ensures
        last_byte_in(hay, c, lo, hi) == Some(q),
    decreases hi - q,
{
    if q < hi - 1 {
        lemma_last_byte_in_is(hay, c, lo, hi - 1, q);
    }
}

/// The leftmost occurrence of `pat` in `hay` at or after `from`.
pub fn find_from(hay: &[u8], pat: &[u8], from: usize) -> (found: Option<usize>)
    ensures
        match found {
            Some(p) => first_from(hay@, pat@, from as int) == Some(p as int),
            None => first_from(hay@, pat@, from as int) is None,
        },
{
    if from > hay.len() {
        return None;
    }
    let mut i = from;
    loop
        invariant
            from <= i <= hay.len(),
            first_from(hay@, pat@, from as int) == first_from(hay@, pat@, i as int),
        decreases hay.len() + 1 - i,
    {
        if pat.len() <= hay.len() - i {
            let mut k: usize = 0;
            let mut all = true;
            while k < pat.len()
                invariant
                    0 <= k <= pat.len(),
                    i + pat.len() <= hay.len(),
                    all == forall|j: int| 0 <= j < k ==> hay@[i + j] == pat@[j],
                decreases pat.len() - k,
            {
                if hay[i + k] != pat[k] {
                    all = false;
                }
                k = k + 1;
            }
            if all {
                assert(hay@.subrange(i as int, i + pat.len()) =~= pat@);
                return Some(i);
            } else {
                assert(!occurs_at(hay@, pat@, i as int)) by {
                    if occurs_at(hay@, pat@, i as int) {
                        let j = choose|j: int| 0 <= j < pat.len() && hay@[i + j] != pat@[j];
                        assert(hay@.subrange(i as int, i + pat.len())[j] == hay@[i + j]);
                    }
                }
            }
        }
        if i == hay.len() {
            assert(first_from(hay@, pat@, i + 1) is None);
            return None;
        }
        i = i + 1;
    }
}

/// The leftmost byte `c` in `hay` at or after `from`.
pub fn find_byte(hay: &[u8], c: u8, from: usize) -> (found: Option<usize>)
    ensures
        match found {
            Some(p) => first_from(hay@, seq![c], from as int) == Some(p as int),
            None => first_from(hay@, seq![c], from as int) is None,
        },
{
    if from > hay.len() {
        return None;
    }
    let mut i = from;
    while i < hay.len()
        invariant
            from <= i <= hay.len(),
            first_from(hay@, seq![c], from as int) == first_from(hay@, seq![c], i as int),
        decreases hay.len() - i,
    {
        if hay[i] == c {
            assert(hay@.subrange(i as int, i + 1) =~= seq![c]);
            return Some(i);
        }
        assert(!occurs_at(hay@, seq![c], i as int)) by {
            if occurs_at(hay@, seq![c], i as int) {
                assert(hay@.subrange(i as int, i + 1)[0] == hay@[i as int]);
            }
        }
        i = i + 1;
    }
    assert(!occurs_at(hay@, seq![c], hay.len() as int));
    assert(first_from(hay@, seq![c], hay.len() + 1) is None);
    None
}

/// The rightmost byte `c` in `hay` at or after `lo`.
pub fn rfind_byte(hay: &[u8], c: u8, lo: usize) -> (found: Option<usize>)
    ensures
        match found {
            Some(q) => last_byte_in(hay@, c, lo as int, hay@.len() as int) == Some(q as int),
            None => last_byte_in(hay@, c, lo as int, hay@.len() as int) is None,
        },
{
    let mut hi = hay.len();
    while hi > lo
        invariant
            hi <= hay.len(),
            last_byte_in(hay@, c, lo as int, hay@.len() as int) == last_byte_in(
                hay@,
                c,
                lo as int,
                hi as int,
            ),
        decreases hi,
    {
        if hay[hi - 1] == c {
            return Some(hi - 1);
        }
        hi = hi - 1;
    }
    None
}

/// A byte offset that starts a character, or ends the text, in valid UTF-8.
pub open spec fn at_boundary(bytes: Seq<u8>, p: int) -> bool {
    0 <= p <= bytes.len() && (p == bytes.len() || !is_continuation_byte(bytes[p]))
}

/// In valid UTF-8, the byte after an ASCII byte starts a character.
pub proof fn lemma_after_ascii(bytes: Seq<u8>, p: int)
    requires
        valid_utf8(bytes),
        0 < p <= bytes.len(),
        bytes[p - 1] <= 0x7f,
    ensures
        at_boundary(bytes, p),
{
    if p < bytes.len() {
        lemma_boundary(bytes, p - 1);
        assert(is_char_boundary(bytes, p - 1));
        let x = bytes.subrange(p - 1, bytes.len() as int);
        assert(valid_utf8(x));
        assert(x[0] == bytes[p - 1]);
        assert(length_of_first_scalar(x) == 1);
        assert(pop_first_scalar(x) =~= bytes.subrange(p, bytes.len() as int));
        assert(is_char_boundary(pop_first_scalar(x), 0));
        assert(is_char_boundary(x, 1));
        assert(!is_continuation_byte(x[1]));
        assert(x[1] == bytes[p]);
    }
}

/// A valid UTF-8 prefix of valid UTF-8 ends on a character boundary.
pub proof fn lemma_valid_prefix_boundary(bytes: Seq<u8>, k: int)
    requires
        valid_utf8(bytes),
        0 <= k <= bytes.len(),
        valid_utf8(bytes.subrange(0, k)),
    ensures
        is_char_boundary(bytes, k),
    decreases k,
{
    if k > 0 {
        let y = bytes.subrange(0, k);
        assert(y[0] == bytes[0]);
        assert(valid_first_scalar(y));
        let l = length_of_first_scalar(bytes);
        assert(length_of_first_scalar(y) == l);
        assert(l >= 1);
        if l >= 2 {
            assert(y[1] == bytes[1]);
        }
        if l >= 3 {
            assert(y[2] == bytes[2]);
        }
        if l >= 4 {
            assert(y[3] == bytes[3]);
        }
        assert(valid_first_scalar(bytes));
        let rest = pop_first_scalar(bytes);
        assert(pop_first_scalar(y) =~= rest.subrange(0, k - l));
        lemma_valid_prefix_boundary(rest, k - l);
    }
}

/// Whether an offset is a boundary is decided by its own byte.
pub proof fn lemma_boundary(bytes: Seq<u8>, p: int)
    requires
        valid_utf8(bytes),
        0 <= p <= bytes.len(),
    ensures
        is_char_boundary(bytes, p) <==> at_boundary(bytes, p),
{
    if p < bytes.len() {
        is_char_boundary_iff_not_is_continuation_byte(bytes, p);
    } else {
        is_char_boundary_start_end_of_seq(bytes);
    }
}

/// The text between two boundaries of `s`, as a slice of `s`.
pub fn substr(s: &str, from: usize, to: usize) -> (r: &str)
    requires
        from <= to <= s.spec_bytes().len(),
        at_boundary(s.spec_bytes(), from as int),
        at_boundary(s.spec_bytes(), to as int),
    ensures
        r.spec_bytes() == s.spec_bytes().subrange(from as int, to as int),
{
    let ghost b = s.spec_bytes();
    proof {
        lemma_boundary(b, from as int);
        lemma_boundary(b, to as int);
    }
    let (_, tail) = s.split_at(from);
    let ghost t = tail.spec_bytes();
    proof {
        assert(t =~= b.subrange(from as int, b.len() as int));
        lemma_boundary(t, (to - from) as int);
        if to < b.len() {
            assert(t[(to - from) as int] == b[to as int]);
        }
    }
    let (mid, _) = tail.split_at(to - from);
    proof {
        assert(mid.spec_bytes() =~= b.subrange(from as int, to as int));
    }
    mid
}

} // verus!
