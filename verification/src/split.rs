//! Cutting a byte string at a separator, and putting the pieces together again.

use vstd::prelude::*;

verus! {

/// The pieces between the occurrences of `sep` in `bytes`, in order.
/// There is always one piece more than there are separators: the empty string
/// is one empty piece, and a string that ends in `sep` has an empty last piece.
pub open spec fn pieces(bytes: Seq<u8>, sep: u8) -> Seq<Seq<u8>>
    decreases bytes.len(),
{
    if bytes.len() == 0 {
        seq![Seq::empty()]
    } else {
        let before = pieces(bytes.drop_last(), sep);
        if bytes.last() == sep {
            before.push(Seq::empty())
        } else {
            before.drop_last().push(before.last().push(bytes.last()))
        }
    }
}

/// The `parts` written one after the other, with `sep` between each two.
pub open spec fn joined(parts: Seq<Seq<u8>>, sep: u8) -> Seq<u8>
    decreases parts.len(),
{
    if parts.len() == 0 {
        Seq::empty()
    } else if parts.len() == 1 {
        parts[0]
    } else {
        joined(parts.drop_last(), sep).push(sep) + parts.last()
    }
}

/// The byte strings that the slices of `parts` hold.
pub open spec fn views(parts: Seq<&[u8]>) -> Seq<Seq<u8>> {
    Seq::new(parts.len(), |i: int| parts[i]@)
}

/// A byte string always has at least one piece.
pub proof fn lemma_pieces_nonempty(bytes: Seq<u8>, sep: u8)
    ensures
        pieces(bytes, sep).len() >= 1,
    decreases bytes.len(),
{
    if bytes.len() > 0 {
        lemma_pieces_nonempty(bytes.drop_last(), sep);
    }
}

/// Appending bytes that hold no separator lengthens the last piece and
/// leaves the others alone.
pub proof fn lemma_pieces_append(bytes: Seq<u8>, tail: Seq<u8>, sep: u8)
    requires
        !tail.contains(sep),
    ensures
        pieces(bytes + tail, sep) == pieces(bytes, sep).drop_last().push(
            pieces(bytes, sep).last() + tail,
        ),
    decreases tail.len(),
{
    lemma_pieces_nonempty(bytes, sep);
    let whole = pieces(bytes, sep);
    if tail.len() == 0 {
        assert(bytes + tail == bytes);
        assert(whole.last() + tail == whole.last());
        assert(whole.drop_last().push(whole.last()) == whole);
    } else {
        let shorter = tail.drop_last();
        assert(!shorter.contains(sep)) by {
            if shorter.contains(sep) {
                let i = choose|i: int| 0 <= i < shorter.len() && shorter[i] == sep;
                assert(tail[i] == sep);
            }
        }
        assert(tail.last() != sep) by {
            assert(tail[tail.len() - 1] == tail.last());
        }
        lemma_pieces_append(bytes, shorter, sep);
        assert((bytes + tail).drop_last() == bytes + shorter);
        assert((bytes + tail).last() == tail.last());
        assert((whole.last() + shorter).push(tail.last()) == whole.last() + tail);
    }
}

/// Cutting what was joined gives the parts back, if there is at least one
/// part and none holds the separator.
pub proof fn lemma_pieces_of_joined(parts: Seq<Seq<u8>>, sep: u8)
    requires
        parts.len() >= 1,
        forall|i: int| 0 <= i < parts.len() ==> !(#[trigger] parts[i]).contains(sep),
    ensures
        pieces(joined(parts, sep), sep) == parts,
    decreases parts.len(),
{
    let empty = Seq::<u8>::empty();
    if parts.len() == 1 {
        lemma_pieces_append(empty, parts[0], sep);
        assert(empty + parts[0] == parts[0]);
        assert(pieces(empty, sep) == seq![empty]);
        assert(seq![empty].drop_last().push(empty + parts[0]) == parts);
    } else {
        let init = parts.drop_last();
        let start = joined(init, sep).push(sep);
        lemma_pieces_of_joined(init, sep);
        assert(start.drop_last() == joined(init, sep));
        assert(pieces(start, sep) == init.push(empty));
        lemma_pieces_append(start, parts.last(), sep);
        assert(empty + parts.last() == parts.last());
        assert(init.push(empty).drop_last() == init);
        assert(init.push(parts.last()) == parts);
    }
}

/// A byte occurs in what was joined only if it occurs in a part or is the
/// separator.
pub proof fn lemma_joined_contains(parts: Seq<Seq<u8>>, sep: u8, byte: u8)
    requires
        byte != sep,
        forall|i: int| 0 <= i < parts.len() ==> !(#[trigger] parts[i]).contains(byte),
    ensures
        !joined(parts, sep).contains(byte),
    decreases parts.len(),
{
    if parts.len() >= 2 {
        lemma_joined_contains(parts.drop_last(), sep, byte);
        let start = joined(parts.drop_last(), sep);
        let whole = joined(parts, sep);
        if whole.contains(byte) {
            let i = choose|i: int| 0 <= i < whole.len() && whole[i] == byte;
            if i < start.len() {
                assert(start[i] == byte);
            } else if i > start.len() {
                assert(parts.last()[i - start.len() - 1] == byte);
            }
        }
    }
}

/// Cuts `data` at every occurrence of `sep`. The pieces borrow from `data`.
pub fn split(data: &[u8], sep: u8) -> (parts: Vec<&[u8]>)
    ensures
        views(parts@) == pieces(data@, sep),
{
    let mut parts: Vec<&[u8]> = Vec::new();
    let mut start: usize = 0;
    let mut i: usize = 0;
    proof {
        assert(data@.subrange(0, 0) == Seq::<u8>::empty());
        assert(views(parts@).push(data@.subrange(0, 0)) == seq![Seq::<u8>::empty()]);
    }
    while i < data.len()
        invariant
            start <= i <= data@.len(),
            pieces(data@.subrange(0, i as int), sep) == views(parts@).push(
                data@.subrange(start as int, i as int),
            ),
        decreases data@.len() - i,
    {
        let ghost done = views(parts@);
        let ghost current = data@.subrange(start as int, i as int);
        proof {
            assert(data@.subrange(0, i + 1).drop_last() == data@.subrange(0, i as int));
            assert(done.push(current).drop_last() == done);
        }
        if data[i] == sep {
            parts.push(vstd::slice::slice_subrange(data, start, i));
            start = i + 1;
            proof {
                assert(views(parts@) == done.push(current));
                assert(data@.subrange(start as int, i + 1) == Seq::<u8>::empty());
            }
        } else {
            proof {
                assert(current.push(data@[i as int]) == data@.subrange(start as int, i + 1));
            }
        }
        i += 1;
    }
    proof {
        assert(data@.subrange(0, i as int) == data@);
    }
    let ghost done = views(parts@);
    parts.push(vstd::slice::slice_subrange(data, start, i));
    proof {
        assert(views(parts@) == done.push(data@.subrange(start as int, i as int)));
    }
    parts
}

} // verus!
