//! Unbiased generation of random strings over an alphabet.
//!
//! A random byte is turned into a character by rejection sampling: bytes at or
//! above the largest multiple of the alphabet's length that fits in the 256
//! byte values are thrown away, so that every character is the image of the
//! same number of byte values.

use crate::error::Error;
use crate::secret::Secret;
use aws_lc_rs::error::Unspecified;
use vstd::prelude::*;

verus! {

/// How many random bytes are drawn at a time.
pub const CHUNK_SIZE: usize = 128;

/// How many chunks in a row may hold no byte that can be accepted before the
/// generator is given up.
pub const MAX_EMPTY_CHUNKS: usize = usize::MAX;

/// The digits `0`-`9` (48 to 57), the upper case letters (65 to 90) and the
/// lower case letters (97 to 122) of ASCII.
pub const BASE62: [u8; 62] = [
    48, 49, 50, 51, 52, 53, 54, 55, 56, 57,
    65, 66, 67, 68, 69, 70, 71, 72, 73, 74, 75, 76, 77,
    78, 79, 80, 81, 82, 83, 84, 85, 86, 87, 88, 89, 90,
    97, 98, 99, 100, 101, 102, 103, 104, 105, 106, 107, 108, 109,
    110, 111, 112, 113, 114, 115, 116, 117, 118, 119, 120, 121, 122,
];

/// The greatest multiple of `number` that is strictly less than `upper_limit`.
pub open spec fn spec_greatest_multiple(number: int, upper_limit: int) -> int {
    ((upper_limit - 1) / number) * number
}

/// Random bytes below this bound are accepted: the largest multiple of the
/// alphabet's length that does not exceed 256.
pub open spec fn acceptance_bound(alphabet_len: int) -> int {
    (256int / alphabet_len) * alphabet_len
}

/// The characters that rejection sampling makes of `random`: each accepted
/// byte gives the character at its remainder, rejected bytes give nothing.
pub open spec fn sampled(random: Seq<u8>, alphabet: Seq<u8>) -> Seq<u8>
    decreases random.len(),
{
    if random.len() == 0 {
        Seq::empty()
    } else {
        let before = sampled(random.drop_last(), alphabet);
        let byte = random.last() as int;
        if byte < acceptance_bound(alphabet.len() as int) {
            before.push(alphabet[byte % (alphabet.len() as int)])
        } else {
            before
        }
    }
}

/// The byte values that rejection sampling maps to the character at `index`.
pub open spec fn bytes_mapped_to(index: int, alphabet_len: int) -> Set<int> {
    Set::new(|byte: int| 0 <= byte < acceptance_bound(alphabet_len) && byte % alphabet_len == index)
}

/// Computes the greatest multiple of `number` strictly less than `upper_limit`.
pub fn greatest_multiple(number: usize, upper_limit: usize) -> (multiple: usize)
    requires
        number > 0,
        upper_limit > 0,
    ensures
        multiple == spec_greatest_multiple(number as int, upper_limit as int),
        multiple % number == 0,
        multiple < upper_limit,
        multiple + number >= upper_limit,
{
    let quotient: usize = (upper_limit - 1) / number;
    proof {
        vstd::arithmetic::div_mod::lemma_fundamental_div_mod(
            (upper_limit - 1) as int,
            number as int,
        );
        vstd::arithmetic::div_mod::lemma_mod_multiples_basic(quotient as int, number as int);
        assert(quotient * number == number * quotient) by (nonlinear_arith);
    }
    quotient * number
}

/// Whether `byte` is a digit or a letter of ASCII.
pub open spec fn is_base62(byte: u8) -> bool {
    48 <= byte <= 57 || 65 <= byte <= 90 || 97 <= byte <= 122
}

/// What is sampled from the first `i` bytes is the beginning of what is
/// sampled from all of them.
pub proof fn lemma_sampled_prefix(random: Seq<u8>, alphabet: Seq<u8>, i: int)
    requires
        0 <= i <= random.len(),
    ensures
        sampled(random.subrange(0, i), alphabet).len() <= sampled(random, alphabet).len(),
        sampled(random.subrange(0, i), alphabet) == sampled(random, alphabet).subrange(
            0,
            sampled(random.subrange(0, i), alphabet).len() as int,
        ),
    decreases random.len(),
{
    if i == random.len() {
        assert(random.subrange(0, i) == random);
    } else {
        lemma_sampled_prefix(random.drop_last(), alphabet, i);
        assert(random.drop_last().subrange(0, i) == random.subrange(0, i));
    }
}

/// Sampling bytes drawn one after the other is sampling each draw and writing
/// the results one after the other.
pub proof fn lemma_sampled_concat(first: Seq<u8>, second: Seq<u8>, alphabet: Seq<u8>)
    ensures
        sampled(first + second, alphabet) == sampled(first, alphabet) + sampled(second, alphabet),
    decreases second.len(),
{
    if second.len() == 0 {
        assert(first + second == first);
        assert(sampled(first, alphabet) + sampled(second, alphabet) == sampled(first, alphabet));
    } else {
        lemma_sampled_concat(first, second.drop_last(), alphabet);
        assert((first + second).drop_last() == first + second.drop_last());
        assert((first + second).last() == second.last());
        let before = sampled(first, alphabet) + sampled(second.drop_last(), alphabet);
        let byte = second.last() as int;
        if byte < acceptance_bound(alphabet.len() as int) {
            let character = alphabet[byte % (alphabet.len() as int)];
            assert(before.push(character) == sampled(first, alphabet) + sampled(
                second.drop_last(),
                alphabet,
            ).push(character));
        }
    }
}

/// Every sampled character is one of the alphabet.
pub proof fn lemma_sampled_in_alphabet(random: Seq<u8>, alphabet: Seq<u8>)
    requires
        1 <= alphabet.len() <= 256,
    ensures
        forall|k: int|
            0 <= k < sampled(random, alphabet).len() ==> alphabet.contains(
                #[trigger] sampled(random, alphabet)[k],
            ),
    decreases random.len(),
{
    if random.len() > 0 {
        lemma_sampled_in_alphabet(random.drop_last(), alphabet);
        let before = sampled(random.drop_last(), alphabet);
        let byte = random.last() as int;
        let n = alphabet.len() as int;
        assert forall|k: int| 0 <= k < sampled(random, alphabet).len() implies alphabet.contains(
            #[trigger] sampled(random, alphabet)[k],
        ) by {
            if k < before.len() {
                assert(sampled(random, alphabet)[k] == before[k]);
            } else {
                assert(0 <= byte % n < n);
                assert(sampled(random, alphabet)[k] == alphabet[byte % n]);
            }
        }
    }
}

/// More than half of the 256 byte values are accepted, whatever the length of
/// the alphabet, and all of them where that length divides 256.
pub proof fn lemma_most_bytes_are_accepted(alphabet_len: int)
    requires
        1 <= alphabet_len <= 256,
    ensures
        128 < acceptance_bound(alphabet_len) <= 256,
        256 - alphabet_len < acceptance_bound(alphabet_len),
        256int % alphabet_len == 0 ==> acceptance_bound(alphabet_len) == 256,
{
    let n = alphabet_len;
    vstd::arithmetic::div_mod::lemma_fundamental_div_mod(256, n);
    assert((256int / n) * n == n * (256int / n)) by (nonlinear_arith);
    assert(0 <= 256int % n < n);
    if n > 128 {
        vstd::arithmetic::div_mod::lemma_fundamental_div_mod_converse(256, n, 1, 256 - n);
    }
}

/// Among the first `blocks * alphabet_len` byte values, exactly `blocks` have
/// the remainder `index`.
proof fn lemma_one_per_block(alphabet_len: int, index: int, blocks: nat)
    requires
        1 <= alphabet_len,
        0 <= index < alphabet_len,
    ensures
        Set::new(
            |byte: int| 0 <= byte < blocks * alphabet_len && byte % alphabet_len == index,
        ).finite(),
        Set::new(
            |byte: int| 0 <= byte < blocks * alphabet_len && byte % alphabet_len == index,
        ).len() == blocks,
    decreases blocks,
{
    let n = alphabet_len;
    let within = Set::new(|byte: int| 0 <= byte < blocks * n && byte % n == index);
    if blocks == 0 {
        assert(blocks * n == 0) by (nonlinear_arith)
            requires
                blocks == 0,
        ;
        assert(within =~= Set::empty());
    } else {
        let fewer = (blocks - 1) as nat;
        let before = Set::new(|byte: int| 0 <= byte < fewer * n && byte % n == index);
        let added = fewer * n + index;
        lemma_one_per_block(n, index, fewer);
        assert(blocks * n == fewer * n + n) by (nonlinear_arith)
            requires
                blocks == fewer + 1,
        ;
        vstd::arithmetic::div_mod::lemma_fundamental_div_mod_converse(
            added,
            n,
            fewer as int,
            index,
        );
        assert forall|byte: int| within.contains(byte) <==> before.insert(added).contains(
            byte,
        ) by {
            if 0 <= byte < blocks * n && byte % n == index && byte >= fewer * n {
                vstd::arithmetic::div_mod::lemma_fundamental_div_mod_converse(
                    byte,
                    n,
                    fewer as int,
                    byte - fewer * n,
                );
            }
        }
        assert(within =~= before.insert(added));
    }
}

/// Rejection sampling is unbiased: each character of the alphabet is the
/// image of the same number of byte values, `256 / alphabet_len` of them.
pub proof fn lemma_sampling_is_unbiased(alphabet_len: int, index: int)
    requires
        1 <= alphabet_len <= 256,
        0 <= index < alphabet_len,
    ensures
        bytes_mapped_to(index, alphabet_len).finite(),
        bytes_mapped_to(index, alphabet_len).len() == 256int / alphabet_len,
{
    let blocks = (256int / alphabet_len) as nat;
    lemma_one_per_block(alphabet_len, index, blocks);
    assert(bytes_mapped_to(index, alphabet_len) =~= Set::new(
        |byte: int| 0 <= byte < blocks * alphabet_len && byte % alphabet_len == index,
    ));
}

/// Turns the random bytes of `random` into characters of `alphabet` and
/// writes them to `out` from position `written` on, until `random` is used up
/// or `out` is full. Returns the position after the last character written.
pub fn sample_into(random: &[u8], alphabet: &[u8], out: &mut [u8], written: usize) -> (end: usize)
    requires
        1 <= alphabet@.len() <= 256,
        written <= old(out)@.len(),
    ensures
        final(out)@.len() == old(out)@.len(),
        written <= end <= old(out)@.len(),
        end - written == vstd::math::min(
            old(out)@.len() - written,
            sampled(random@, alphabet@).len() as int,
        ),
        final(out)@ == old(out)@.subrange(0, written as int) + sampled(
            random@,
            alphabet@,
        ).subrange(0, end - written) + old(out)@.subrange(end as int, old(out)@.len() as int),
{
    let bound = greatest_multiple(alphabet.len(), 257);
    let mut end = written;
    let mut i: usize = 0;
    while i < random.len() && end < out.len()
        invariant
            i <= random@.len(),
            written <= end <= out@.len(),
            out@.len() == old(out)@.len(),
            1 <= alphabet@.len() <= 256,
            bound == acceptance_bound(alphabet@.len() as int),
            end - written == sampled(random@.subrange(0, i as int), alphabet@).len(),
            out@ == old(out)@.subrange(0, written as int) + sampled(
                random@.subrange(0, i as int),
                alphabet@,
            ) + old(out)@.subrange(end as int, old(out)@.len() as int),
        decreases random@.len() - i,
    {
        let byte = random[i] as usize;
        proof {
            assert(random@.subrange(0, i + 1).drop_last() == random@.subrange(0, i as int));
        }
        if byte < bound {
            out[end] = alphabet[byte % alphabet.len()];
            end += 1;
        }
        i += 1;
    }
    proof {
        lemma_sampled_prefix(random@, alphabet@, i as int);
        if i == random@.len() {
            assert(random@.subrange(0, i as int) == random@);
        }
    }
    end
}

/// `aws_lc_rs::rand::fill`: overwrites `dest` with bytes of the process-wide
/// secure random number generator, or fails. Nothing is known of the bytes.
#[verifier::external_body]
fn fill_random(dest: &mut [u8]) -> (filled: Result<(), Unspecified>)
    ensures
        final(dest)@.len() == old(dest)@.len(),
{
    aws_lc_rs::rand::fill(dest)
}

/// Takes one chunk into the string that is being filled: `out`, of which
/// the first `written` characters stand. `filled` says whether the generator
/// delivered the chunk.
///
/// It fails exactly where the generator did not deliver. A chunk that was
/// delivered is sampled with [`sample_into`], and the position after the last
/// character written is returned: `written` itself where the chunk holds no
/// byte that can be accepted.
pub fn take_chunk(
    filled: bool,
    chunk: &[u8],
    alphabet: &[u8],
    out: &mut [u8],
    written: usize,
) -> (next: Result<usize, Error>)
    requires
        1 <= alphabet@.len() <= 256,
        written < old(out)@.len(),
    ensures
        final(out)@.len() == old(out)@.len(),
        filled <==> next is Ok,
        next matches Ok(end) ==> {
            &&& written <= end <= old(out)@.len()
            &&& end - written == vstd::math::min(
                old(out)@.len() - written,
                sampled(chunk@, alphabet@).len() as int,
            )
            &&& final(out)@ == old(out)@.subrange(0, written as int) + sampled(
                chunk@,
                alphabet@,
            ).subrange(0, end - written) + old(out)@.subrange(end as int, old(out)@.len() as int)
        },
        next matches Err(e) ==> e == Error::RngFailure && final(out)@ == old(out)@,
{
    if !filled {
        return Err(Error::RngFailure);
    }
    Ok(sample_into(chunk, alphabet, out, written))
}

/// How many more empty chunks are borne after one more chunk: all of
/// [`MAX_EMPTY_CHUNKS`] again where the chunk gave a character, one fewer
/// where it gave none, and nothing where none was left to bear.
pub fn patience_after(patience: usize, gained: bool) -> (left: Option<usize>)
    ensures
        left == (if gained {
            Some(MAX_EMPTY_CHUNKS)
        } else if patience > 0 {
            Some((patience - 1) as usize)
        } else {
            None
        }),
{
    if gained {
        Some(MAX_EMPTY_CHUNKS)
    } else if patience > 0 {
        Some(patience - 1)
    } else {
        None
    }
}

/// A random string of `len` characters, each drawn uniformly from `alphabet`.
///
/// Random bytes are drawn `CHUNK_SIZE` at a time and taken in with
/// [`take_chunk`] until the string is full: the string is what rejection
/// sampling makes of the bytes drawn, in the order drawn, cut to `len`
/// characters. Bytes that are not accepted are thrown away and more are
/// drawn. It fails where the generator does not deliver a chunk, and there
/// is no second try. So that the drawing comes to an end, the generator is
/// also given up after more than `MAX_EMPTY_CHUNKS` chunks in a row without
/// one byte that can be accepted, see [`patience_after`]; of the chunks that
/// a generator delivers more than half of the bytes are accepted, so that no
/// run gets there.
pub fn random_string(len: usize, alphabet: &[u8]) -> (generated: Result<Secret, Error>)
    requires
        1 <= alphabet@.len() <= 256,
    ensures
        match generated {
            Ok(string) => {
                &&& string@.len() == len
                &&& exists|random: Seq<u8>|
                    len <= (#[trigger] sampled(random, alphabet@)).len() && string@ == sampled(
                        random,
                        alphabet@,
                    ).subrange(0, len as int)
                &&& forall|k: int| 0 <= k < len ==> alphabet@.contains(#[trigger] string@[k])
            },
            Err(e) => e == Error::RngFailure && len > 0,
        },
{
    let mut string = Secret::zero(len);
    let mut chunk = Secret::zero(CHUNK_SIZE);
    let mut written: usize = 0;
    let mut patience: usize = MAX_EMPTY_CHUNKS;
    let ghost mut drawn = Seq::<u8>::empty();
    proof {
        assert(string@.subrange(0, 0) == sampled(drawn, alphabet@).subrange(0, 0));
    }
    while written < len
        invariant
            1 <= alphabet@.len() <= 256,
            written <= len,
            string@.len() == len,
            chunk@.len() == CHUNK_SIZE,
            written <= sampled(drawn, alphabet@).len(),
            written < len ==> sampled(drawn, alphabet@).len() == written,
            string@.subrange(0, written as int) == sampled(drawn, alphabet@).subrange(
                0,
                written as int,
            ),
        decreases len - written, patience,
    {
        let filled = fill_random(chunk.expose_mut()).is_ok();
        let ghost before = string@;
        match take_chunk(filled, chunk.expose(), alphabet, string.expose_mut(), written) {
            Ok(end) => {
                proof {
                    lemma_sampled_concat(drawn, chunk@, alphabet@);
                    let so_far = sampled(drawn, alphabet@);
                    let added = sampled(chunk@, alphabet@);
                    assert(so_far == before.subrange(0, written as int));
                    assert(string@.subrange(0, end as int) == so_far + added.subrange(
                        0,
                        end - written,
                    ));
                    assert((so_far + added).subrange(0, end as int) == so_far + added.subrange(
                        0,
                        end - written,
                    ));
                    drawn = drawn + chunk@;
                }
                match patience_after(patience, end > written) {
                    Some(left) => {
                        patience = left;
                    },
                    None => {
                        return Err(Error::RngFailure);
                    },
                }
                written = end;
            },
            Err(e) => {
                return Err(e);
            },
        }
    }
    proof {
        assert(string@.subrange(0, len as int) == string@);
        lemma_sampled_in_alphabet(drawn, alphabet@);
        assert forall|k: int| 0 <= k < len implies alphabet@.contains(#[trigger] string@[k]) by {
            assert(string@[k] == sampled(drawn, alphabet@)[k]);
        }
    }
    Ok(string)
}

/// A random string of `len` characters, each drawn uniformly from the 62
/// digits and letters of ASCII: what rejection sampling over [`BASE62`] makes
/// of the bytes drawn, see [`random_string`].
pub fn rand_base62(len: usize) -> (generated: Result<Secret, Error>)
    ensures
        match generated {
            Ok(string) => {
                &&& string@.len() == len
                &&& exists|random: Seq<u8>|
                    len <= (#[trigger] sampled(random, BASE62@)).len() && string@ == sampled(
                        random,
                        BASE62@,
                    ).subrange(0, len as int)
                &&& forall|k: int| 0 <= k < len ==> is_base62(#[trigger] string@[k])
            },
            Err(e) => e == Error::RngFailure && len > 0,
        },
{
    let alphabet = BASE62;
    assert(forall|j: int| 0 <= j < 62 ==> is_base62(#[trigger] alphabet@[j]));
    random_string(len, &alphabet)
}

} // verus!
