//! Joining and dividing lists.

use vstd::prelude::*;
use vstd::utf8::{
    is_char_boundary, is_char_boundary_iff_not_is_continuation_byte,
    is_char_boundary_start_end_of_seq, is_continuation_byte, valid_utf8,
};

verus! {

/// Lists one after the other.
pub open spec fn concatenated<T>(lists: Seq<Vec<T>>, n: int) -> Seq<T>
    decreases n,
{
    if n <= 0 {
        Seq::empty()
    } else {
        concatenated(lists, n - 1) + lists[n - 1]@
    }
}

/// Lists one after the other hold the elements of each: those of list `k` stand
/// behind all of the lists before it.
pub proof fn lemma_concatenated<T>(lists: Seq<Vec<T>>, n: int, k: int)
    requires
        0 <= k < n <= lists.len(),
    ensures
        ({
            let all = concatenated(lists, n);
            let at = concatenated(lists, k).len() as int;
            &&& concatenated(lists, 0).len() == 0
            &&& concatenated(lists, k + 1).len() == at + lists[k]@.len()
            &&& at + lists[k]@.len() <= all.len()
            &&& all.subrange(at, at + lists[k]@.len()) == lists[k]@
        }),
    decreases n,
{
    let all = concatenated(lists, n);
    let before = concatenated(lists, n - 1);
    let at = concatenated(lists, k).len() as int;
    let len = lists[k]@.len();
    if k < n - 1 {
        lemma_concatenated(lists, n - 1, k);
        assert(all.subrange(at, at + len) =~= before.subrange(at, at + len));
    } else {
        assert(all.subrange(at, at + len) =~= lists[k]@);
    }
}

/// Concatenate lists.
pub fn parallel_concat<T: Copy>(arrs: &[Vec<T>]) -> (result: Vec<T>)
    ensures
        result@ == concatenated(arrs@, arrs@.len() as int),
{
    let mut result: Vec<T> = Vec::new();
    for i in 0..arrs.len()
        invariant
            result@ == concatenated(arrs@, i as int),
    {
        let arr: &Vec<T> = &arrs[i];
        let ghost before = result@;
        for k in 0..arr.len()
            invariant
                result@ == before + arr@.take(k as int),
        {
            result.push(arr[k]);
            assert(arr@.take(k as int + 1) =~= arr@.take(k as int).push(arr@[k as int]));
        }
        assert(arr@.take(arr@.len() as int) =~= arr@);
    }
    result
}

/// The first place at or after `p` that continues no character.
pub open spec fn char_start(s: Seq<u8>, p: int) -> int
    decreases s.len() - p,
{
    if 0 <= p < s.len() && is_continuation_byte(s[p]) {
        char_start(s, p + 1)
    } else {
        p
    }
}

/// The size of `n` roughly equal chunks.
pub open spec fn chunk_size(len: int, n: int) -> int {
    (len + n - 1) / n
}

/// Where chunk `i` of `n` ends.
pub open spec fn chunk_end(s: Seq<u8>, n: int, i: int) -> int {
    let at = i * chunk_size(s.len() as int, n);
    char_start(
        s,
        if at < s.len() {
            at
        } else {
            s.len() as int
        },
    )
}

pub proof fn lemma_char_start(s: Seq<u8>, p: int)
    requires
        0 <= p <= s.len(),
    ensures
        p <= char_start(s, p) <= s.len(),
        char_start(s, p) < s.len() ==> !is_continuation_byte(s[char_start(s, p)]),
        forall|q: int| p <= q <= s.len() ==> char_start(s, p) <= #[trigger] char_start(s, q),
    decreases s.len() - p,
{
    if p < s.len() && is_continuation_byte(s[p]) {
        lemma_char_start(s, p + 1);
        assert forall|q: int| p <= q <= s.len() implies char_start(s, p) <= #[trigger] char_start(
            s,
            q,
        ) by {
            if q > p {
                assert(char_start(s, p + 1) <= char_start(s, q));
            }
        }
    } else {
        assert forall|q: int| p <= q <= s.len() implies char_start(s, p) <= #[trigger] char_start(
            s,
            q,
        ) by {
            if q > p {
                lemma_char_start(s, q);
            }
        }
    }
}

/// The boundaries of chunks do not descend, lie in the text, and in valid UTF-8
/// split no character.
pub proof fn lemma_chunk_ends(s: Seq<u8>, n: int, i: int, j: int)
    requires
        0 < n,
        0 <= i <= j,
    ensures
        chunk_end(s, n, i) <= chunk_end(s, n, j) <= s.len(),
        valid_utf8(s) ==> is_char_boundary(s, chunk_end(s, n, i)),
{
    let c = chunk_size(s.len() as int, n);
    assert(0 <= c && 0 <= i * c <= j * c) by (nonlinear_arith)
        requires
            0 <= i <= j,
            0 < n,
            c == (s.len() + n - 1) / n,
    ;
    let a = if i * c < s.len() {
        i * c
    } else {
        s.len() as int
    };
    let b = if j * c < s.len() {
        j * c
    } else {
        s.len() as int
    };
    lemma_char_start(s, a);
    lemma_char_start(s, b);
    if valid_utf8(s) {
        let e = chunk_end(s, n, i);
        is_char_boundary_start_end_of_seq(s);
        if 0 < e < s.len() {
            is_char_boundary_iff_not_is_continuation_byte(s, e);
        }
    }
}

/// Return num_chunks + 1 boundary byte indices that split the bytes into
/// num_chunks roughly equal chunks while avoiding splitting a character in the
/// middle of a multi-byte UTF-8 sequence. Never goes beyond the end of bytes.
pub fn chunks_at_utf8_boundaries(bytes: &[u8], num_chunks: usize) -> (r: Vec<usize>)
    requires
        bytes@.len() + num_chunks <= usize::MAX,
    ensures
        num_chunks == 0 ==> r@ == seq![0usize, bytes@.len() as usize],
        num_chunks > 0 ==> {
            &&& r@.len() == num_chunks + 1
            &&& r@[0] == 0
            &&& r@[num_chunks as int] == bytes@.len()
            &&& forall|i: int|
                0 < i < num_chunks ==> #[trigger] r@[i] == chunk_end(bytes@, num_chunks as int, i)
        },
{
    let ghost s = bytes@;
    let len: usize = bytes.len();
    let mut boundaries: Vec<usize> = Vec::new();
    boundaries.push(0);
    if num_chunks == 0 {
        boundaries.push(len);
        assert(boundaries@ =~= seq![0usize, len]);
        return boundaries;
    }
    // Compute the size of each chunk (possibly uneven division)
    let size: usize = (len + (num_chunks - 1)) / num_chunks;
    let mut next: usize = size;
    assert(1 * size == size);
    for i in 1..num_chunks
        invariant
            s == bytes@,
            len == s.len(),
            len + num_chunks <= usize::MAX,
            size == chunk_size(len as int, num_chunks as int),
            next == i * size,
            boundaries@.len() == i,
            boundaries@[0] == 0,
            forall|k: int|
                0 < k < i ==> #[trigger] boundaries@[k] == chunk_end(s, num_chunks as int, k),
    {
        let mut boundary: usize = if next < len {
            next
        } else {
            len
        };
        let ghost want = char_start(s, boundary as int);
        // Move forward to the next valid UTF-8 character boundary
        while boundary < len && bytes[boundary] >= 0x80 && bytes[boundary] < 0xC0
            invariant
                s == bytes@,
                len == s.len(),
                boundary <= len,
                char_start(s, boundary as int) == want,
            decreases len - boundary,
        {
            assert(is_continuation_byte(s[boundary as int])) by {
                lemma_continuation(s[boundary as int]);
            }
            boundary = boundary + 1;
        }
        proof {
            if boundary < len {
                lemma_continuation(s[boundary as int]);
            }
            assert((i + 1) * size <= len + num_chunks) by (nonlinear_arith)
                requires
                    1 <= i < num_chunks,
                    size == (len + num_chunks - 1) / (num_chunks as int),
            ;
            assert(i * size + size == (i + 1) * size) by (nonlinear_arith);
        }
        boundaries.push(boundary);
        next = next + size;
    }
    // Last boundary is at the end
    boundaries.push(len);
    boundaries
}

proof fn lemma_continuation(b: u8)
    ensures
        is_continuation_byte(b) == (0x80 <= b < 0xC0),
{
}

} // verus!
