//! The onion: a message is wrapped in one AES-256-GCM layer per node of the
//! path, each layer carrying the address of the next hop, and unwrapped layer
//! by layer on the way back.
use vstd::prelude::*;
use vstd::utf8::*;
use vstd::string::*;
use crate::text::lemma_encode_utf8_concat;
use aes_gcm::{Aes256Gcm, Key, Nonce};
use aes_gcm::aead::{Aead, NewAead};

verus! {

broadcast use vstd::seq::group_seq_axioms;

/// The number of nodes of a path, and so of layers of an onion.
pub const N: usize = 3;

/// The error that AES-GCM reports: the plaintext was too long to encrypt, or
/// the ciphertext did not authenticate.
#[verifier::external_type_specification]
#[verifier::external_body]
pub struct ExAeadError(aes_gcm::Error);

/// A layer of the onion could not be sealed or opened.
#[derive(Debug, Clone, Copy, PartialEq, Eq)]
pub struct OnionError;

/// The AES-256-GCM ciphertext (with its tag appended) of `plaintext` under
/// `key` and `nonce`, with no associated data.
pub uninterp spec fn aes256gcm_seal(key: Seq<u8>, nonce: Seq<u8>, plaintext: Seq<u8>) -> Seq<u8>;

/// The plaintext that AES-256-GCM recovers from `ciphertext` (tag appended)
/// under `key` and `nonce`, or `None` when it does not authenticate.
pub uninterp spec fn aes256gcm_open(key: Seq<u8>, nonce: Seq<u8>, ciphertext: Seq<u8>) -> Option<
    Seq<u8>,
>;

/// AES-256-GCM keeps its 32-bit block counter from running over only for
/// messages shorter than this many bytes (2^36 - 16).
pub open spec fn aes_len_limit() -> nat {
    0xf_ffff_fff0
}

/// The ciphertexts that can be opened without running the counter over are
/// shorter than this many bytes (2^36).
pub open spec fn aes_ciphertext_limit() -> nat {
    0x10_0000_0000
}

/// The length of an AES-GCM tag in bytes.
pub open spec fn tag_len() -> nat {
    16
}

/// An AES-256-GCM cipher, held as its key.
pub struct Cipher {
    pub key: [u8; 32],
}

/// Encrypts with `Aes256Gcm::new(key).encrypt(nonce, plaintext)` (aes-gcm's
/// `Aead::encrypt`). Its keystream step panics when the 32-bit block counter
/// would run over, that is from 2^36 - 16 plaintext bytes on, so shorter
/// plaintexts are required. Claimed of it for those, as its source shows: it
/// succeeds (the plaintext is below aes-gcm's own limit `P_MAX`), and the
/// result is the named ciphertext, the plaintext's length plus a 16-byte tag,
/// which decrypts under the same key and nonce to the plaintext.
#[verifier::external_body]
#[allow(deprecated)]
fn aes_encrypt(cipher: &Cipher, nonce: &[u8; 12], plaintext: &[u8]) -> (r: Result<
    Vec<u8>,
    aes_gcm::Error,
>)
    requires
        plaintext@.len() < aes_len_limit(),
    ensures
        r is Ok,
        r matches Ok(c) ==> c@ == aes256gcm_seal(cipher.key@, nonce@, plaintext@),
        r matches Ok(c) ==> c@.len() == plaintext@.len() + tag_len(),
        r matches Ok(c) ==> aes256gcm_open(cipher.key@, nonce@, c@) == Some(plaintext@),
{
    Aes256Gcm::new(Key::from_slice(&cipher.key)).encrypt(Nonce::from_slice(nonce), plaintext)
}

/// Decrypts with `Aes256Gcm::new(key).decrypt(nonce, ciphertext)` (aes-gcm's
/// `Aead::decrypt`). Its keystream step panics on an authentic ciphertext
/// whose body (the ciphertext without its tag) reaches 2^36 - 16 bytes, so
/// ciphertexts shorter than 2^36 bytes are required. Claimed of it: the
/// result is the named plaintext when there is one and an error otherwise,
/// and a plaintext is 16 bytes (the tag) shorter than the ciphertext.
#[verifier::external_body]
#[allow(deprecated)]
fn aes_decrypt(cipher: &Cipher, nonce: &[u8; 12], ciphertext: &[u8]) -> (r: Result<
    Vec<u8>,
    aes_gcm::Error,
>)
    requires
        ciphertext@.len() < aes_ciphertext_limit(),
    ensures
        match r {
            Ok(p) => aes256gcm_open(cipher.key@, nonce@, ciphertext@) == Some(p@),
            Err(_) => aes256gcm_open(cipher.key@, nonce@, ciphertext@) is None,
        },
        r matches Ok(p) ==> p@.len() + tag_len() == ciphertext@.len(),
{
    Aes256Gcm::new(Key::from_slice(&cipher.key)).decrypt(Nonce::from_slice(nonce), ciphertext)
}

/// The nonce of layer `i`: `"uniqua nonce"`, `"unidue nonce"`, `"ucique nonce"`.
pub open spec fn layer_nonce(i: int) -> Seq<u8> {
    if i == 0 {
        seq![0x75u8, 0x6e, 0x69, 0x71, 0x75, 0x61, 0x20, 0x6e, 0x6f, 0x6e, 0x63, 0x65]
    } else if i == 1 {
        seq![0x75u8, 0x6e, 0x69, 0x64, 0x75, 0x65, 0x20, 0x6e, 0x6f, 0x6e, 0x63, 0x65]
    } else {
        seq![0x75u8, 0x63, 0x69, 0x71, 0x75, 0x65, 0x20, 0x6e, 0x6f, 0x6e, 0x63, 0x65]
    }
}

/// The nonce of layer `i`, counted from the outside of the onion.
fn nonce_of_layer(i: usize) -> (n: [u8; 12])
    requires
        i < N,
    ensures
        n@ == layer_nonce(i as int),
{
    let n: [u8; 12] = if i == 0 {
        [0x75u8, 0x6e, 0x69, 0x71, 0x75, 0x61, 0x20, 0x6e, 0x6f, 0x6e, 0x63, 0x65]
    } else if i == 1 {
        [0x75u8, 0x6e, 0x69, 0x64, 0x75, 0x65, 0x20, 0x6e, 0x6f, 0x6e, 0x63, 0x65]
    } else {
        [0x75u8, 0x63, 0x69, 0x71, 0x75, 0x65, 0x20, 0x6e, 0x6f, 0x6e, 0x63, 0x65]
    };
    assert(n@ =~= layer_nonce(i as int));
    n
}

/// Makes one cipher per key, in order.
pub fn generate_ciphers(keys: Vec<[u8; 32]>) -> (ciphers: Vec<Cipher>)
    ensures
        ciphers.len() == keys.len(),
        forall|i: int| 0 <= i < keys.len() ==> (#[trigger] ciphers[i]).key == keys[i],
{
    let mut ciphers: Vec<Cipher> = Vec::with_capacity(N);
    let mut i: usize = 0;
    while i < keys.len()
        invariant
            i <= keys.len(),
            ciphers.len() == i,
            forall|j: int| 0 <= j < i ==> (#[trigger] ciphers[j]).key == keys[j],
        decreases keys.len() - i,
    {
        ciphers.push(Cipher { key: keys[i] });
        i += 1;
    }
    ciphers
}

/// The text that names a hop inside a layer: `\<address>\`.
pub open spec fn hop_marker(node: Seq<char>) -> Seq<char> {
    seq!['\\'] + node + seq!['\\']
}

/// The bytes of the text that names a hop.
pub open spec fn hop_marker_bytes(node: Seq<char>) -> Seq<u8> {
    encode_utf8(hop_marker(node))
}

/// The number of bytes that unwrapping removes after each inner layer: the
/// length of the marker of a hop whose address is 14 bytes long.
pub open spec fn marker_len() -> nat {
    16
}

/// The key of wrapping step `i` (step 0 is the innermost layer): the keys are
/// used from the last one backwards.
pub open spec fn wrap_key(keys: Seq<[u8; 32]>, i: int) -> Seq<u8> {
    keys[keys.len() - 1 - i]@
}

/// The hop named by wrapping step `i`: the nodes are used from the last one backwards.
pub open spec fn wrap_node(nodes: Seq<String>, i: int) -> Seq<char> {
    nodes[nodes.len() - 1 - i]@
}

/// What wrapping step `i` seals: the core for step 0; for a later step, the
/// previous step's ciphertext followed by the marker of its hop.
pub open spec fn wrap_input(core: Seq<u8>, keys: Seq<[u8; 32]>, nodes: Seq<String>, i: nat) -> Seq<
    u8,
>
    decreases i, 0nat,
{
    if i == 0 {
        core
    } else {
        wrap_step(core, keys, nodes, (i - 1) as nat) + hop_marker_bytes(wrap_node(nodes, i as int))
    }
}

/// The ciphertext of wrapping step `i`.
pub open spec fn wrap_step(core: Seq<u8>, keys: Seq<[u8; 32]>, nodes: Seq<String>, i: nat) -> Seq<
    u8,
>
    decreases i, 1nat,
{
    aes256gcm_seal(
        wrap_key(keys, i as int),
        layer_nonce(N - 1 - i),
        wrap_input(core, keys, nodes, i),
    )
}

/// The onion around `core`: the ciphertext of the last wrapping step.
pub open spec fn onion(core: Seq<u8>, keys: Seq<[u8; 32]>, nodes: Seq<String>) -> Seq<u8> {
    wrap_step(core, keys, nodes, (N - 1) as nat)
}

/// The bytes that the two outer wrapping steps add to what they seal: the
/// markers of their hops.
pub open spec fn outer_markers_len(nodes: Seq<String>) -> nat {
    hop_marker_bytes(wrap_node(nodes, 1)).len() + hop_marker_bytes(wrap_node(nodes, 2)).len()
}

/// The length of what the last wrapping step seals; every step seals less.
pub open spec fn last_input_len(core: Seq<u8>, nodes: Seq<String>) -> nat {
    core.len() + 2 * tag_len() + outer_markers_len(nodes)
}

/// Unwrapping step `i` (step 0 opens the outermost layer, with the first key):
/// after the first step, the last `marker_len()` bytes of the previous
/// step's plaintext (nothing if it failed) are dropped before opening.
pub open spec fn peel(ct: Seq<u8>, keys: Seq<[u8; 32]>, i: nat) -> Option<Seq<u8>>
    decreases i, 0nat,
{
    if i == 0 {
        aes256gcm_open(keys[0]@, layer_nonce(0), ct)
    } else {
        let t = peeled_text(ct, keys, (i - 1) as nat);
        aes256gcm_open(keys[i as int]@, layer_nonce(i as int), t.subrange(0, t.len() - marker_len()))
    }
}

/// The plaintext of unwrapping step `i`, or nothing if it failed.
pub open spec fn peeled_text(ct: Seq<u8>, keys: Seq<[u8; 32]>, i: nat) -> Seq<u8>
    decreases i, 1nat,
{
    match peel(ct, keys, i) {
        Some(p) => p,
        None => seq![],
    }
}

/// Every step but the last leaves at least `marker_len()` bytes to drop.
pub open spec fn peelable(ct: Seq<u8>, keys: Seq<[u8; 32]>) -> bool {
    forall|i: nat| i + 1 < N ==> (#[trigger] peeled_text(ct, keys, i)).len() >= marker_len()
}

/// The onion: what the unwrapping of all layers gives.
pub open spec fn unwrapped(ct: Seq<u8>, keys: Seq<[u8; 32]>) -> Option<Seq<u8>> {
    peel(ct, keys, (N - 1) as nat)
}

/// The inputs on which unwrapping gives back what wrapping wrapped: one key
/// per layer, and markers of the two outer hops exactly `marker_len()` bytes
/// long.
pub open spec fn round_trip_domain(keys: Seq<[u8; 32]>, nodes: Seq<String>) -> bool {
    &&& keys.len() == N
    &&& nodes.len() >= N
    &&& hop_marker_bytes(wrap_node(nodes, 1)).len() == marker_len()
    &&& hop_marker_bytes(wrap_node(nodes, 2)).len() == marker_len()
}

/// Wrapping step `i` gave a ciphertext one tag longer than its input that
/// opens to that input.
spec fn step_opens(core: Seq<u8>, keys: Seq<[u8; 32]>, nodes: Seq<String>, i: nat) -> bool {
    &&& aes256gcm_open(wrap_key(keys, i as int), layer_nonce(N - 1 - i), wrap_step(core, keys, nodes, i))
        == Some(wrap_input(core, keys, nodes, i))
    &&& wrap_step(core, keys, nodes, i).len() == wrap_input(core, keys, nodes, i).len() + tag_len()
}

/// When every step opens to its input and the inputs lie in the round-trip
/// domain, unwrapping the onion retraces the wrapping steps back to the core.
proof fn lemma_unwrap_retraces_wrap(core: Seq<u8>, keys: Seq<[u8; 32]>, nodes: Seq<String>)
    requires
        round_trip_domain(keys, nodes),
        forall|j: nat| j < N ==> #[trigger] step_opens(core, keys, nodes, j),
    ensures
        peelable(onion(core, keys, nodes), keys),
        unwrapped(onion(core, keys, nodes), keys) == Some(core),
{
    assert(step_opens(core, keys, nodes, 0));
    assert(step_opens(core, keys, nodes, 1));
    assert(step_opens(core, keys, nodes, 2));
    let c0 = wrap_step(core, keys, nodes, 0);
    let m1 = hop_marker_bytes(wrap_node(nodes, 1));
    assert(wrap_input(core, keys, nodes, 1) == c0 + m1);
    let c1 = wrap_step(core, keys, nodes, 1);
    let m2 = hop_marker_bytes(wrap_node(nodes, 2));
    assert(wrap_input(core, keys, nodes, 2) == c1 + m2);
    let c2 = wrap_step(core, keys, nodes, 2);
    assert(wrap_key(keys, 2) == keys[0]@);
    assert(wrap_key(keys, 1) == keys[1]@);
    assert(wrap_key(keys, 0) == keys[2]@);
    assert(peel(c2, keys, 0) == Some(c1 + m2));
    assert(peeled_text(c2, keys, 0) == c1 + m2);
    let t0 = c1 + m2;
    assert(t0.subrange(0, t0.len() - marker_len()) =~= c1);
    assert(peel(c2, keys, 1) == Some(c0 + m1));
    assert(peeled_text(c2, keys, 1) == c0 + m1);
    let t1 = c0 + m1;
    assert(t1.subrange(0, t1.len() - marker_len()) =~= c0);
    assert(peel(c2, keys, 2) == Some(core));
    assert forall|i: nat| i + 1 < N implies (#[trigger] peeled_text(c2, keys, i)).len()
        >= marker_len() by {
        if i == 0 {
        } else {
            assert(i == 1);
        }
    }
}

/// The marker `\<node>\` as a string.
fn hop_marker_string(node: &String) -> (m: String)
    ensures
        m@ == hop_marker(node@),
{
    let mut m = String::new();
    m.append("\\");
    m.append(node.as_str());
    m.append("\\");
    proof {
        reveal_strlit("\\");
    }
    assert(m@ =~= hop_marker(node@));
    m
}

/// The bytes of an ASCII text.
pub open spec fn ascii_bytes(text: Seq<char>) -> Seq<u8> {
    text.map_values(|c: char| c as u8)
}

/// The three layer nonces are the ASCII texts `"uniqua nonce"` (outermost),
/// `"unidue nonce"` and `"ucique nonce"` (innermost).
proof fn lemma_nonce_texts()
    ensures
        layer_nonce(0) == ascii_bytes("uniqua nonce"@),
        layer_nonce(1) == ascii_bytes("unidue nonce"@),
        layer_nonce(2) == ascii_bytes("ucique nonce"@),
{
    reveal_strlit("uniqua nonce");
    reveal_strlit("unidue nonce");
    reveal_strlit("ucique nonce");
    assert(layer_nonce(0) =~= ascii_bytes("uniqua nonce"@));
    assert(layer_nonce(1) =~= ascii_bytes("unidue nonce"@));
    assert(layer_nonce(2) =~= ascii_bytes("ucique nonce"@));
}

/// The onion around `core` is `core` sealed with the last key under
/// `"ucique nonce"`; that, followed by the marker `\<address>\` of the last
/// node but one, sealed with the last key but one under `"unidue nonce"`;
/// and that, followed by the marker of the last node but two, sealed with the
/// last key but two under `"uniqua nonce"`. With three keys and three nodes,
/// the outer layer is sealed with the first node's key and carries the first
/// node's marker.
pub proof fn lemma_onion_layers(core: Seq<u8>, keys: Seq<[u8; 32]>, nodes: Seq<String>)
    requires
        keys.len() >= N,
        nodes.len() >= N,
    ensures
        ({
            let k = keys.len() as int;
            let n = nodes.len() as int;
            let inner = aes256gcm_seal(keys[k - 1]@, ascii_bytes("ucique nonce"@), core);
            let middle = aes256gcm_seal(
                keys[k - 2]@,
                ascii_bytes("unidue nonce"@),
                inner + encode_utf8(seq!['\\'] + nodes[n - 2]@ + seq!['\\']),
            );
            onion(core, keys, nodes) == aes256gcm_seal(
                keys[k - 3]@,
                ascii_bytes("uniqua nonce"@),
                middle + encode_utf8(seq!['\\'] + nodes[n - 3]@ + seq!['\\']),
            )
        }),
{
    lemma_nonce_texts();
    let k = keys.len() as int;
    assert(wrap_key(keys, 0) == keys[k - 1]@);
    assert(wrap_key(keys, 1) == keys[k - 2]@);
    assert(wrap_key(keys, 2) == keys[k - 3]@);
    let n = nodes.len() as int;
    assert(wrap_node(nodes, 1) == nodes[n - 2]@);
    assert(wrap_node(nodes, 2) == nodes[n - 3]@);
    let inner = aes256gcm_seal(keys[k - 1]@, ascii_bytes("ucique nonce"@), core);
    assert(wrap_input(core, keys, nodes, 0) == core);
    assert(wrap_step(core, keys, nodes, 0) == inner);
    let middle = aes256gcm_seal(
        keys[k - 2]@,
        ascii_bytes("unidue nonce"@),
        inner + encode_utf8(seq!['\\'] + nodes[n - 2]@ + seq!['\\']),
    );
    assert(wrap_input(core, keys, nodes, 1) == inner + encode_utf8(
        seq!['\\'] + nodes[n - 2]@ + seq!['\\'],
    ));
    assert(wrap_step(core, keys, nodes, 1) == middle);
    assert(wrap_input(core, keys, nodes, 2) == middle + encode_utf8(
        seq!['\\'] + nodes[n - 3]@ + seq!['\\'],
    ));
}

/// Unwrapping opens the outer layer with the first key under
/// `"uniqua nonce"`, the next with the second key under `"unidue nonce"`
/// and the innermost with the third key under `"ucique nonce"`; before the
/// second and the third opening, the last 16 bytes of what the previous one
/// gave (nothing, if it failed) are dropped.
pub proof fn lemma_unwrap_layers(ct: Seq<u8>, keys: Seq<[u8; 32]>)
    requires
        keys.len() >= N,
    ensures
        ({
            let d0 = match aes256gcm_open(keys[0]@, ascii_bytes("uniqua nonce"@), ct) {
                Some(t) => t,
                None => Seq::<u8>::empty(),
            };
            let d1 = match aes256gcm_open(
                keys[1]@,
                ascii_bytes("unidue nonce"@),
                d0.subrange(0, d0.len() - 16),
            ) {
                Some(t) => t,
                None => Seq::<u8>::empty(),
            };
            unwrapped(ct, keys) == aes256gcm_open(
                keys[2]@,
                ascii_bytes("ucique nonce"@),
                d1.subrange(0, d1.len() - 16),
            )
        }),
{
    lemma_nonce_texts();
    assert(peeled_text(ct, keys, 0) == match peel(ct, keys, 0) {
        Some(t) => t,
        None => Seq::<u8>::empty(),
    });
    assert(peeled_text(ct, keys, 1) == match peel(ct, keys, 1) {
        Some(t) => t,
        None => Seq::<u8>::empty(),
    });
}

/// Maps an AES-GCM error to the library's own.
fn lift_error(r: Result<Vec<u8>, aes_gcm::Error>) -> (out: Result<Vec<u8>, OnionError>)
    ensures
        match r {
            Ok(c) => out matches Ok(d) && d@ == c@,
            Err(_) => out is Err,
        },
{
    match r {
        Ok(c) => Ok(c),
        Err(_) => Err(OnionError),
    }
}

/// The message with the last hop's marker appended: what the innermost
/// layer seals.
pub open spec fn marked_message(plaintext: Seq<char>, nodes: Seq<String>) -> Seq<char> {
    plaintext + hop_marker(nodes[nodes.len() - 1]@)
}

/// A message fits in an onion for these nodes: every layer seals less than
/// `aes_len_limit()` bytes.
pub open spec fn fits_in_onion(plaintext: Seq<char>, nodes: Seq<String>) -> bool {
    last_input_len(encode_utf8(marked_message(plaintext, nodes)), nodes) < aes_len_limit()
}

/// Whether a message fits in an onion for these nodes.
pub fn onion_fits(plaintext: &String, nodes: &Vec<String>) -> (b: bool)
    requires
        nodes.len() >= N,
    ensures
        b == fits_in_onion(plaintext@, nodes@),
{
    let nlen: usize = nodes.len();
    let last = hop_marker_string(&nodes[nlen - 1]);
    let m1 = hop_marker_string(&nodes[nlen - 2]);
    let m2 = hop_marker_string(&nodes[nlen - 3]);
    proof {
        lemma_encode_utf8_concat(plaintext@, hop_marker(nodes@[nlen - 1]@));
    }
    let lp: usize = plaintext.as_str().as_bytes().len();
    let ll: usize = last.as_str().as_bytes().len();
    let l1: usize = m1.as_str().as_bytes().len();
    let l2: usize = m2.as_str().as_bytes().len();
    assert(lp == encode_utf8(plaintext@).len());
    assert(ll == hop_marker_bytes(nodes@[nlen - 1]@).len());
    assert(l1 == hop_marker_bytes(wrap_node(nodes@, 1)).len());
    assert(l2 == hop_marker_bytes(wrap_node(nodes@, 2)).len());
    let total: u128 = lp as u128 + ll as u128 + 32 + l1 as u128 + l2 as u128;
    total < 0xf_ffff_fff0u128
}

/// Wraps a message for its path: appends the marker of the last hop to the
/// message, then seals it once per hop, from the last node's key inwards to
/// the first node's key, each outer layer also carrying the marker of its hop.
pub fn encrypt_message(plaintext: &mut String, keys: Vec<[u8; 32]>, nodes: Vec<String>) -> (r: Result<
    Vec<u8>,
    OnionError,
>)
    requires
        keys.len() >= N,
        nodes.len() >= N,
        fits_in_onion(old(plaintext)@, nodes@),
    ensures
        final(plaintext)@ == marked_message(old(plaintext)@, nodes@),
        r matches Ok(c) && c@ == onion(encode_utf8(final(plaintext)@), keys@, nodes@),
        r matches Ok(c) && c@.len() == encode_utf8(final(plaintext)@).len() + N * tag_len()
            + outer_markers_len(nodes@),
        r matches Ok(c) && aes256gcm_open(
            keys[keys.len() - 3]@,
            ascii_bytes("uniqua nonce"@),
            c@,
        ) == Some(
            wrap_step(encode_utf8(final(plaintext)@), keys@, nodes@, 1) + encode_utf8(
                seq!['\\'] + nodes[nodes.len() - 3]@ + seq!['\\'],
            ),
        ),
        round_trip_domain(keys@, nodes@) ==> (r matches Ok(c) && c@.len()
            < aes_ciphertext_limit() && peelable(c@, keys@) && unwrapped(c@, keys@) == Some(
            encode_utf8(final(plaintext)@),
        )),
{
    let klen: usize = keys.len();
    let mut rev_keys: Vec<[u8; 32]> = Vec::with_capacity(klen);
    let mut k: usize = 0;
    while k < klen
        invariant
            klen == keys.len(),
            k <= klen,
            rev_keys.len() == k,
            forall|j: int| 0 <= j < k ==> (#[trigger] rev_keys[j]) == keys[klen - 1 - j],
        decreases klen - k,
    {
        rev_keys.push(keys[klen - 1 - k]);
        k += 1;
    }
    let ciphers = generate_ciphers(rev_keys);
    let nlen: usize = nodes.len();
    let marker = hop_marker_string(&nodes[nlen - 1]);
    plaintext.append(marker.as_str());
    let ghost core = encode_utf8(plaintext@);
    let ghost m1 = hop_marker_bytes(wrap_node(nodes@, 1));
    let ghost m2 = hop_marker_bytes(wrap_node(nodes@, 2));
    assert(core.len() + 2 * tag_len() + m1.len() + m2.len() < aes_len_limit());
    let nonce = nonce_of_layer(N - 1);
    let mut ciphertext = aes_encrypt(&ciphers[0], &nonce, plaintext.as_str().as_bytes());
    assert(step_opens(core, keys@, nodes@, 0));
    let mut i: usize = 1;
    while i < N
        invariant
            1 <= i <= N,
            nlen == nodes.len(),
            core == encode_utf8(plaintext@),
            plaintext@ == marked_message(old(plaintext)@, nodes@),
            keys.len() >= N,
            nodes.len() >= N,
            m1 == hop_marker_bytes(wrap_node(nodes@, 1)),
            m2 == hop_marker_bytes(wrap_node(nodes@, 2)),
            core.len() + 2 * tag_len() + m1.len() + m2.len() < aes_len_limit(),
            ciphers.len() == keys.len(),
            forall|j: int| 0 <= j < keys.len() ==> (#[trigger] ciphers[j]).key@ == wrap_key(keys@, j),
            ciphertext matches Ok(c) && c@ == wrap_step(core, keys@, nodes@, (i - 1) as nat),
            forall|j: nat| j < i ==> #[trigger] step_opens(core, keys@, nodes@, j),
            i == 1 ==> wrap_step(core, keys@, nodes@, 0).len() == core.len() + tag_len(),
            i == 2 ==> wrap_step(core, keys@, nodes@, 1).len() == core.len() + 2 * tag_len()
                + m1.len(),
            i == 3 ==> wrap_step(core, keys@, nodes@, 2).len() == core.len() + 3 * tag_len()
                + m1.len() + m2.len(),
        decreases N - i,
    {
        let mut body = match ciphertext {
            Ok(text) => text,
            Err(_) => Vec::new(),
        };
        let marker = hop_marker_string(&nodes[nlen - 1 - i]);
        let mut ip = vstd::slice::slice_to_vec(marker.as_str().as_bytes());
        body.append(&mut ip);
        assert(body@ == wrap_input(core, keys@, nodes@, i as nat));
        let nonce = nonce_of_layer(N - 1 - i);
        ciphertext = aes_encrypt(&ciphers[i], &nonce, body.as_slice());
        assert(step_opens(core, keys@, nodes@, i as nat));
        i += 1;
    }
    proof {
        if round_trip_domain(keys@, nodes@) {
            lemma_unwrap_retraces_wrap(core, keys@, nodes@);
        }
        lemma_nonce_texts();
        assert(step_opens(core, keys@, nodes@, 2));
        assert(wrap_key(keys@, 2) == keys@[keys.len() - 3]@);
        assert(wrap_node(nodes@, 2) == nodes@[nodes.len() - 3]@);
    }
    lift_error(ciphertext)
}

/// Unwraps an onion: opens its layers with the keys in order, dropping the
/// last `marker_len()` bytes (the hop marker) of each plaintext before
/// opening the next layer.
pub fn decrypt_message(ciphertext: Vec<u8>, keys: Vec<[u8; 32]>) -> (r: Result<Vec<u8>, OnionError>)
    requires
        keys.len() >= N,
        ciphertext@.len() < aes_ciphertext_limit(),
        peelable(ciphertext@, keys@),
    ensures
        match r {
            Ok(p) => unwrapped(ciphertext@, keys@) == Some(p@),
            Err(_) => unwrapped(ciphertext@, keys@) is None,
        },
        r matches Ok(p) ==> p@.len() + N * tag_len() + (N - 1) * marker_len()
            == ciphertext@.len(),
{
    let ghost ct = ciphertext@;
    let ghost ks = keys@;
    let ciphers = generate_ciphers(keys);
    let mut plaintext: Result<Vec<u8>, aes_gcm::Error> = Ok(ciphertext);
    let mut i: usize = 0;
    while i < N
        invariant
            i <= N,
            ks.len() >= N,
            ct.len() < aes_ciphertext_limit(),
            peelable(ct, ks),
            ciphers.len() == ks.len(),
            forall|j: int| 0 <= j < ks.len() ==> (#[trigger] ciphers[j]).key == ks[j],
            i == 0 ==> (plaintext matches Ok(v) && v@ == ct),
            i > 0 ==> match plaintext {
                Ok(p) => peel(ct, ks, (i - 1) as nat) == Some(p@) && p@.len() + i * tag_len() + (
                i - 1) * marker_len() == ct.len(),
                Err(_) => peel(ct, ks, (i - 1) as nat) is None,
            },
        decreases N - i,
    {
        let mut text = match plaintext {
            Ok(val) => val,
            Err(_) => Vec::new(),
        };
        if i != 0 {
            assert(text@ == peeled_text(ct, ks, (i - 1) as nat));
            assert((i - 1) as nat + 1 < N);
            let len: usize = text.len();
            text.truncate(len - 16);
        }
        let nonce = nonce_of_layer(i);
        plaintext = aes_decrypt(&ciphers[i], &nonce, text.as_slice());
        i += 1;
    }
    lift_error(plaintext)
}

/// Whether every unwrapping step but the last leaves enough bytes to drop
/// the hop marker.
pub fn is_peelable(ciphertext: &Vec<u8>, keys: &Vec<[u8; 32]>) -> (b: bool)
    requires
        keys.len() >= N,
        ciphertext@.len() < aes_ciphertext_limit(),
    ensures
        b == peelable(ciphertext@, keys@),
{
    let ghost ct = ciphertext@;
    let ghost ks = keys@;
    let mut text: Vec<u8> = vstd::slice::slice_to_vec(ciphertext.as_slice());
    let mut i: usize = 0;
    while i + 1 < N
        invariant
            i + 1 <= N,
            ks == keys@,
            ct == ciphertext@,
            ks.len() >= N,
            text@.len() <= ct.len(),
            ct.len() < aes_ciphertext_limit(),
            i == 0 ==> text@ == ct,
            forall|j: nat| j < i ==> (#[trigger] peeled_text(ct, ks, j)).len() >= marker_len(),
            i > 0 ==> text@ == peeled_text(ct, ks, (i - 1) as nat),
        decreases N - i,
    {
        if i != 0 {
            let len: usize = text.len();
            text.truncate(len - 16);
        }
        let cipher = Cipher { key: keys[i] };
        let nonce = nonce_of_layer(i);
        text = match aes_decrypt(&cipher, &nonce, text.as_slice()) {
            Ok(p) => p,
            Err(_) => Vec::new(),
        };
        assert(text@ == peeled_text(ct, ks, i as nat));
        if text.len() < 16 {
            assert(!((i as nat) + 1 < N ==> peeled_text(ct, ks, i as nat).len() >= marker_len()));
            return false;
        }
        i += 1;
    }
    true
}

/// Unwraps an onion when it can be unwrapped without a panic: `None` when
/// there are fewer keys than layers, when the onion is 2^36 bytes or longer,
/// or when a step but the last leaves no hop marker to drop.
pub fn try_decrypt_message(ciphertext: Vec<u8>, keys: Vec<[u8; 32]>) -> (r: Option<
    Result<Vec<u8>, OnionError>,
>)
    ensures
        r is Some <==> keys.len() >= N && ciphertext@.len() < aes_ciphertext_limit() && peelable(
            ciphertext@,
            keys@,
        ),
        r matches Some(res) ==> match res {
            Ok(p) => unwrapped(ciphertext@, keys@) == Some(p@) && p@.len() + N * tag_len() + (N
                - 1) * marker_len() == ciphertext@.len(),
            Err(_) => unwrapped(ciphertext@, keys@) is None,
        },
{
    if keys.len() < N || ciphertext.len() as u64 >= 0x10_0000_0000u64 {
        return None;
    }
    if !is_peelable(&ciphertext, &keys) {
        return None;
    }
    Some(decrypt_message(ciphertext, keys))
}

} // verus!
