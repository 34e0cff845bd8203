//! Node keys as the client receives them: text of at most 32 bytes, turned
//! into a 256-bit AES key by zero-padding its UTF-8 bytes.
use vstd::prelude::*;
use vstd::utf8::*;
use vstd::string::*;

verus! {

broadcast use vstd::seq::group_seq_axioms;

/// The length of an AES-256 key in bytes.
pub open spec fn key_len() -> nat {
    32
}

/// The key made of a text: its UTF-8 bytes followed by zero bytes up to 32.
pub open spec fn key_bytes(text: Seq<char>) -> Seq<u8> {
    encode_utf8(text) + Seq::new((key_len() - encode_utf8(text).len()) as nat, |i: int| 0u8)
}

/// The text fits in a key.
pub open spec fn key_text_fits(text: Seq<char>) -> bool {
    encode_utf8(text).len() <= key_len()
}

/// The key of a text that fits is 32 bytes long: its first bytes are the
/// text's UTF-8 bytes and every byte after them is zero.
pub proof fn lemma_key_bytes(text: Seq<char>)
    requires
        key_text_fits(text),
    ensures
        key_bytes(text).len() == 32,
        forall|j: int| 0 <= j < encode_utf8(text).len() ==> key_bytes(text)[j] == encode_utf8(text)[j],
        forall|j: int| encode_utf8(text).len() <= j < 32 ==> key_bytes(text)[j] == 0u8,
{
}

/// Turns the text of a key into the key: its bytes, zero-padded to 32.
pub fn key_from_string(key_as_string: String) -> (key: [u8; 32])
    requires
        key_text_fits(key_as_string@),
    ensures
        key@ == key_bytes(key_as_string@),
        forall|j: int|
            0 <= j < encode_utf8(key_as_string@).len() ==> key@[j] == encode_utf8(
                key_as_string@,
            )[j],
        forall|j: int| encode_utf8(key_as_string@).len() <= j < 32 ==> key@[j] == 0u8,
{
    let mut bytes = [0u8; 32];
    let src = key_as_string.as_str().as_bytes();
    let n: usize = src.len();
    let mut i: usize = 0;
    while i < n
        invariant
            n == src@.len(),
            src@ == encode_utf8(key_as_string@),
            n <= 32,
            i <= n,
            bytes@.len() == 32,
            forall|j: int| 0 <= j < i ==> bytes@[j] == src@[j],
            forall|j: int| i <= j < 32 ==> bytes@[j] == 0u8,
        decreases n - i,
    {
        bytes[i] = src[i];
        i += 1;
    }
    assert(bytes@ =~= key_bytes(key_as_string@));
    bytes
}

/// Turns the texts of the keys of a path into keys, in order.
pub fn format_keys(keys: Vec<String>) -> (formatted_keys: Vec<[u8; 32]>)
    requires
        forall|i: int| 0 <= i < keys.len() ==> key_text_fits(#[trigger] keys[i]@),
    ensures
        formatted_keys.len() == keys.len(),
        forall|i: int|
            0 <= i < keys.len() ==> (#[trigger] formatted_keys[i])@ == key_bytes(keys[i]@),
{
    let mut formatted_keys: Vec<[u8; 32]> = Vec::new();
    let mut i: usize = 0;
    while i < keys.len()
        invariant
            i <= keys.len(),
            forall|j: int| 0 <= j < keys.len() ==> key_text_fits(#[trigger] keys[j]@),
            formatted_keys.len() == i,
            forall|j: int| 0 <= j < i ==> (#[trigger] formatted_keys[j])@ == key_bytes(keys[j]@),
        decreases keys.len() - i,
    {
        let key = key_from_string(keys[i].clone());
        formatted_keys.push(key);
        i += 1;
    }
    formatted_keys
}

} // verus!
