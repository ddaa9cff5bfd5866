//! Cutting a byte stream into fixed-size windows, and putting it back.

use vstd::prelude::*;
use vstd::slice::{slice_subrange, slice_to_vec};

verus! {

/// The windows of `content` cut at `size` bytes, in stream order: every
/// window is exactly `size` bytes long except possibly the last, which is
/// shorter but never empty.  Empty content has no windows.
pub open spec fn chunk_windows(content: Seq<u8>, size: nat) -> Seq<Seq<u8>>
    decreases content.len(),
{
    if size == 0 || content.len() == 0 {
        Seq::empty()
    } else if content.len() <= size {
        seq![content]
    } else {
        seq![content.take(size as int)] + chunk_windows(content.skip(size as int), size)
    }
}

/// Concatenating the windows restores the content.
pub proof fn lemma_windows_flatten(content: Seq<u8>, size: nat)
    requires
        size >= 1,
    ensures
        chunk_windows(content, size).flatten() == content,
    decreases content.len(),
{
    let w = chunk_windows(content, size);
    if content.len() == 0 {
        assert(w.flatten() =~= content);
    } else if content.len() <= size {
        w.lemma_flatten_one_element();
    } else {
        lemma_windows_flatten(content.skip(size as int), size);
        let rest = chunk_windows(content.skip(size as int), size);
        assert(w.first() == content.take(size as int));
        assert(w.drop_first() =~= rest);
        assert(w.flatten() == content.take(size as int) + rest.flatten());
        assert(content.take(size as int) + content.skip(size as int) =~= content);
    }
}

/// How many windows a stream of `len` bytes yields: none exactly for empty
/// content, and otherwise just enough to hold every byte.
pub proof fn lemma_windows_count(content: Seq<u8>, size: nat)
    requires
        size >= 1,
    ensures
        chunk_windows(content, size).len() == 0 <==> content.len() == 0,
        content.len() <= chunk_windows(content, size).len() * size,
        content.len() == 0 || content.len() > (chunk_windows(content, size).len() - 1) * size,
    decreases content.len(),
{
    let n = chunk_windows(content, size).len() as int;
    if content.len() == 0 || content.len() <= size {
    } else {
        lemma_windows_count(content.skip(size as int), size);
        let rest = content.skip(size as int);
        let m = chunk_windows(rest, size).len() as int;
        assert(n == m + 1);
        assert(content.len() == rest.len() + size);
        assert(rest.len() <= m * size);
        assert(n * size == m * size + size) by (nonlinear_arith)
            requires
                n == m + 1,
        ;
        assert(rest.len() > (m - 1) * size);
        assert((n - 1) * size == (m - 1) * size + size) by (nonlinear_arith)
            requires
                n == m + 1,
        ;
    }
}

/// Every window is at most `size` bytes, and all but the last are full.
pub proof fn lemma_windows_shape(content: Seq<u8>, size: nat)
    requires
        size >= 1,
    ensures
        forall|i: int|
            0 <= i < chunk_windows(content, size).len() ==> 1 <= (
            #[trigger] chunk_windows(content, size)[i]).len() <= size,
        forall|i: int|
            0 <= i < chunk_windows(content, size).len() - 1 ==> (
            #[trigger] chunk_windows(content, size)[i]).len() == size,
    decreases content.len(),
{
    if content.len() > size {
        lemma_windows_shape(content.skip(size as int), size);
        let rest = chunk_windows(content.skip(size as int), size);
        assert forall|i: int| 0 <= i < chunk_windows(content, size).len() implies 1 <= (
        #[trigger] chunk_windows(content, size)[i]).len() <= size by {
            if i >= 1 {
                assert(chunk_windows(content, size)[i] == rest[i - 1]);
            }
        }
        assert forall|i: int| 0 <= i < chunk_windows(content, size).len() - 1 implies (
        #[trigger] chunk_windows(content, size)[i]).len() == size by {
            if i >= 1 {
                assert(chunk_windows(content, size)[i] == rest[i - 1]);
            }
        }
    }
}

/// The views of a vector of byte vectors.
pub open spec fn views_of(parts: Seq<Vec<u8>>) -> Seq<Seq<u8>> {
    parts.map_values(|v: Vec<u8>| v@)
}

/// Cuts `content` into its windows.
pub fn split_payloads(content: &Vec<u8>, size: usize) -> (r: Vec<Vec<u8>>)
    requires
        size >= 1,
    ensures
        views_of(r@) == chunk_windows(content@, size as nat),
{
    let mut out: Vec<Vec<u8>> = Vec::new();
    let mut pos: usize = 0;
    proof {
        assert(content@.skip(0) =~= content@);
        assert(views_of(Seq::empty()) + chunk_windows(content@, size as nat) =~= chunk_windows(
            content@,
            size as nat,
        ));
    }
    while pos < content.len()
        invariant
            pos <= content@.len(),
            size >= 1,
            chunk_windows(content@, size as nat) =~= views_of(out@) + chunk_windows(
                content@.skip(pos as int),
                size as nat,
            ),
        decreases content@.len() - pos,
    {
        let remaining = content.len() - pos;
        let end = if remaining > size {
            pos + size
        } else {
            content.len()
        };
        let window = slice_to_vec(slice_subrange(content.as_slice(), pos, end));
        proof {
            let rest = content@.skip(pos as int);
            assert(rest.len() == content@.len() - pos);
            if remaining > size {
                assert(rest.take(size as int) =~= content@.subrange(pos as int, end as int));
                assert(rest.skip(size as int) =~= content@.skip(end as int));
            } else {
                assert(rest =~= content@.subrange(pos as int, end as int));
                assert(content@.skip(end as int).len() == 0);
            }
            assert(views_of(out@.push(window)) =~= views_of(out@).push(window@));
            assert((views_of(out@) + chunk_windows(content@.skip(pos as int), size as nat))
                =~= views_of(out@.push(window)) + chunk_windows(
                content@.skip(end as int),
                size as nat,
            ));
        }
        out.push(window);
        pos = end;
    }
    proof {
        assert(chunk_windows(content@.skip(pos as int), size as nat) =~= Seq::empty());
        assert(views_of(out@) + Seq::empty() =~= views_of(out@));
    }
    out
}

} // verus!
