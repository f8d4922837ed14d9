//! Content fingerprints: the BLAKE3 hash of the bytes of a file, taken in chunk by
//! chunk and written in hexadecimal.

use vstd::prelude::*;
use vstd::string::StringExecFns;

verus! {

/// `blake3::Hasher`, the state of an incremental hash. Nothing inside it is
/// visible here; what it has taken in is spoken of through [`hasher_input`].
#[verifier::external_type_specification]
#[verifier::external_body]
pub struct ExHasher(blake3::Hasher);

/// The 32 bytes of the BLAKE3 hash of `input` in its default mode.
pub uninterp spec fn blake3_hash(input: Seq<u8>) -> Seq<u8>;

/// The bytes that `hasher` has taken in since it was made.
pub uninterp spec fn hasher_input(hasher: blake3::Hasher) -> Seq<u8>;

/// Whether `hasher` computes the default hash function from the start of an input:
/// it was made without a key or a context and its input offset is zero.
pub uninterp spec fn hasher_is_plain(hasher: blake3::Hasher) -> bool;

/// `blake3::Hasher::new`: the hasher that it makes is for the default hash function
/// and has taken in nothing.
#[verifier::external_body]
fn hasher_new() -> (hasher: blake3::Hasher)
    ensures
        hasher_is_plain(hasher),
        hasher_input(hasher) == Seq::<u8>::empty(),
{
    blake3::Hasher::new()
}

/// `blake3::Hasher::update`: the hasher takes in `chunk` after what it has already
/// taken in, and stays a hasher for the default hash function. On a hasher whose
/// input offset is not zero the call may panic, hence the `requires`.
#[verifier::external_body]
fn hasher_update(hasher: &mut blake3::Hasher, chunk: &[u8])
    requires
        hasher_is_plain(*old(hasher)),
    ensures
        hasher_is_plain(*final(hasher)),
        hasher_input(*final(hasher)) == hasher_input(*old(hasher)) + chunk@,
{
    hasher.update(chunk);
}

/// `blake3::Hasher::finalize`: the hash of all that the hasher has taken in,
/// whatever the chunks in which it came. The hasher is left as it was. `finalize`
/// panics on a hasher whose input offset is not zero, hence the `requires`.
#[verifier::external_body]
fn hasher_finalize(hasher: &blake3::Hasher) -> (digest: [u8; 32])
    requires
        hasher_is_plain(*hasher),
    ensures
        digest@ == blake3_hash(hasher_input(*hasher)),
{
    *hasher.finalize().as_bytes()
}

/// The sixteen hexadecimal digits, in lower case.
pub open spec fn hex_digits() -> Seq<char> {
    seq!['0', '1', '2', '3', '4', '5', '6', '7', '8', '9', 'a', 'b', 'c', 'd', 'e', 'f']
}

/// The bytes in hexadecimal: two digits for each, the higher half first.
pub open spec fn hex(bytes: Seq<u8>) -> Seq<char>
    decreases bytes.len(),
{
    if bytes.len() == 0 {
        Seq::empty()
    } else {
        hex(bytes.drop_last()) + seq![
            hex_digits()[bytes.last() as int / 16],
            hex_digits()[bytes.last() as int % 16],
        ]
    }
}

/// The fingerprint of a file of this content.
pub open spec fn fingerprint_of(content: Seq<u8>) -> Seq<char> {
    hex(blake3_hash(content))
}

/// Bytes in hexadecimal take two characters each.
pub proof fn lemma_hex_len(bytes: Seq<u8>)
    ensures
        hex(bytes).len() == 2 * bytes.len(),
    decreases bytes.len(),
{
    if bytes.len() > 0 {
        lemma_hex_len(bytes.drop_last());
    }
}

/// The hexadecimal digit of a value below sixteen, as a text of one character.
fn hex_digit(value: u8) -> (digit: &'static str)
    requires
        value < 16,
    ensures
        digit@ == seq![hex_digits()[value as int]],
{
    proof {
        reveal_strlit("0");
        reveal_strlit("1");
        reveal_strlit("2");
        reveal_strlit("3");
        reveal_strlit("4");
        reveal_strlit("5");
        reveal_strlit("6");
        reveal_strlit("7");
        reveal_strlit("8");
        reveal_strlit("9");
        reveal_strlit("a");
        reveal_strlit("b");
        reveal_strlit("c");
        reveal_strlit("d");
        reveal_strlit("e");
        reveal_strlit("f");
    }
    let digit = match value {
        0 => "0",
        1 => "1",
        2 => "2",
        3 => "3",
        4 => "4",
        5 => "5",
        6 => "6",
        7 => "7",
        8 => "8",
        9 => "9",
        10 => "a",
        11 => "b",
        12 => "c",
        13 => "d",
        14 => "e",
        _ => "f",
    };
    digit
}

/// Writes bytes in lowercase hexadecimal.
pub fn to_hex(bytes: &[u8]) -> (text: String)
    ensures
        text@ == hex(bytes@),
{
    let mut text = String::new();
    let mut i: usize = 0;
    while i < bytes.len()
        invariant
            i <= bytes.len(),
            text@ == hex(bytes@.take(i as int)),
        decreases bytes.len() - i,
    {
        let byte = bytes[i];
        text.append(hex_digit(byte / 16));
        text.append(hex_digit(byte % 16));
        proof {
            assert(bytes@.take(i + 1).drop_last() =~= bytes@.take(i as int));
        }
        i += 1;
    }
    proof {
        assert(bytes@.take(i as int) =~= bytes@);
    }
    text
}

/// An accumulator that turns the bytes of a file, handed over in chunks of any
/// size, into the file's fingerprint. It keeps no chunk: its size does not grow
/// with the input.
pub struct Fingerprint {
    hasher: blake3::Hasher,
}

impl View for Fingerprint {
    type V = Seq<u8>;

    /// The bytes taken in so far.
    closed spec fn view(&self) -> Seq<u8> {
        hasher_input(self.hasher)
    }
}

impl Fingerprint {
    /// Holds of every accumulator that [`Fingerprint::new`] made, whatever it has
    /// taken in since: it computes the default hash function.
    pub closed spec fn wf(&self) -> bool {
        hasher_is_plain(self.hasher)
    }

    /// An accumulator that has taken in nothing.
    pub fn new() -> (fingerprint: Self)
        ensures
            fingerprint.wf(),
            fingerprint@ == Seq::<u8>::empty(),
    {
        Fingerprint { hasher: hasher_new() }
    }

    /// Takes in the next chunk of the file.
    pub fn update(&mut self, chunk: &[u8])
        requires
            old(self).wf(),
        ensures
            final(self).wf(),
            final(self)@ == old(self)@ + chunk@,
    {
        hasher_update(&mut self.hasher, chunk);
    }

    /// The fingerprint of the bytes taken in so far: 64 hexadecimal digits.
    pub fn finish(&self) -> (hash: String)
        requires
            self.wf(),
        ensures
            hash@ == fingerprint_of(self@),
            hash@.len() == 64,
    {
        let digest = hasher_finalize(&self.hasher);
        proof {
            lemma_hex_len(digest@);
        }
        to_hex(digest.as_slice())
    }
}

/// All chunks of a file in order, as one sequence of bytes.
pub open spec fn content(chunks: Seq<Vec<u8>>) -> Seq<u8> {
    chunks.map_values(|chunk: Vec<u8>| chunk@).flatten()
}

/// The fingerprint of a file whose bytes are given as consecutive chunks. Where the
/// chunks are cut does not matter.
pub fn calculate_hash(chunks: &Vec<Vec<u8>>) -> (hash: String)
    ensures
        hash@ == fingerprint_of(content(chunks@)),
        hash@.len() == 64,
{
    let mut fingerprint = Fingerprint::new();
    let mut i: usize = 0;
    while i < chunks.len()
        invariant
            i <= chunks.len(),
            fingerprint.wf(),
            fingerprint@ == content(chunks@.take(i as int)),
        decreases chunks.len() - i,
    {
        proof {
            assert(chunks@.take(i + 1).map_values(|chunk: Vec<u8>| chunk@) =~= chunks@.take(
                i as int,
            ).map_values(|chunk: Vec<u8>| chunk@).push(chunks[i as int]@));
            chunks@.take(i as int).map_values(|chunk: Vec<u8>| chunk@).lemma_flatten_push(
                chunks[i as int]@,
            );
        }
        fingerprint.update(chunks[i].as_slice());
        i += 1;
    }
    assert(chunks@.take(i as int) =~= chunks@);
    fingerprint.finish()
}

} // verus!
