//! The directory authority: it records the nodes that announce themselves
//! with their keys, and answers a client's request with a random path of
//! three distinct nodes.
use vstd::prelude::*;
use vstd::utf8::*;
use vstd::string::*;
use rand::Rng;
use crate::text::{contains, contains_bytes, matches_at};

verus! {

broadcast use vstd::seq::group_seq_axioms, vstd::seq_lib::group_seq_properties;

/// The number of nodes in a path.
pub const PATH_LEN: usize = 3;

/// A node as the directory authority knows it: its address and its key.
#[derive(Debug)]
pub struct NodeKey {
    pub node: String,
    pub key: String,
}

/// The text of a node in the authority's answer: `node: <address>, key: <key>`.
pub open spec fn node_key_text(n: NodeKey) -> Seq<char> {
    "node: "@ + n.node@ + ", key: "@ + n.key@
}

impl NodeKey {
    /// The text of this node in the authority's answer.
    pub fn to_string(&self) -> (s: String)
        ensures
            s@ == node_key_text(*self),
    {
        let mut s = String::new();
        s.append("node: ");
        s.append(self.node.as_str());
        s.append(", key: ");
        s.append(self.key.as_str());
        s
    }
}

/// A path through `len` nodes: `PATH_LEN` distinct indices below `len`.
pub open spec fn valid_path(path: Seq<usize>, len: nat) -> bool {
    &&& path.len() == PATH_LEN
    &&& forall|k: int| 0 <= k < path.len() ==> path[k] < len
    &&& path.no_duplicates()
}

/// The authority's answer for a path: each node's text between backslashes.
pub open spec fn path_listing(nodes: Seq<NodeKey>, path: Seq<usize>) -> Seq<char>
    decreases path.len(),
{
    if path.len() == 0 {
        seq![]
    } else {
        seq!['\\'] + node_key_text(nodes[path[0] as int]) + seq!['\\'] + path_listing(
            nodes,
            path.drop_first(),
        )
    }
}

/// The bytes of `"GET"`, which mark a request for a path.
pub open spec fn get_tag() -> Seq<u8> {
    seq![0x47u8, 0x45u8, 0x54u8]
}

/// A connection's data asks for a path when it mentions `GET`.
pub open spec fn is_path_request(data: Seq<u8>) -> bool {
    contains(data, get_tag())
}

/// The lowercase hexadecimal digit of a value below 16.
pub open spec fn hex_digit(v: u8) -> u8 {
    if v < 10 {
        (0x30 + v) as u8
    } else {
        (0x61 + v - 10) as u8
    }
}

/// The lowercase hexadecimal text of some bytes, two digits per byte.
pub open spec fn hex_bytes(b: Seq<u8>) -> Seq<u8>
    decreases b.len(),
{
    if b.len() == 0 {
        seq![]
    } else {
        hex_bytes(b.drop_last()) + seq![hex_digit(b.last() / 16), hex_digit(b.last() % 16)]
    }
}

/// The text under which an announced key is recorded: the announcement
/// itself when it is UTF-8 text, its hexadecimal digits otherwise.
pub open spec fn stored_key_bytes(data: Seq<u8>) -> Seq<u8> {
    if valid_utf8(data) {
        data
    } else {
        hex_bytes(data)
    }
}

/// The answer to a node that announced itself: `HTTP/1.1 200 OK\r\n`.
pub open spec fn ok_response() -> Seq<char> {
    "HTTP/1.1 200 OK\r\n"@
}

/// rand's thread-local generator, carried opaquely.
#[verifier::external_type_specification]
#[verifier::external_body]
pub struct ExThreadRng(rand::rngs::ThreadRng);

/// `rand::thread_rng()`: a handle to the thread-local generator; nothing is
/// claimed of it.
#[verifier::external_body]
fn thread_rng() -> rand::rngs::ThreadRng {
    rand::thread_rng()
}

/// `Rng::gen_range(rng, 0..upper)`. Claimed of it, as its documentation
/// states: the value lies in the half-open range; the range must not be empty
/// (it panics on an empty one). Which value comes is left open.
#[verifier::external_body]
fn gen_index(rng: &mut rand::rngs::ThreadRng, upper: usize) -> (r: usize)
    requires
        upper > 0,
    ensures
        r < upper,
{
    rng.gen_range(0..upper)
}

/// The indices `0..len`, from which a path is drawn.
pub open spec fn index_pool(len: nat) -> Seq<usize> {
    Seq::new(len, |i: int| i as usize)
}

/// Drawing from `pool` by the draws `d`: each draw takes the element at its
/// position out of what is left of the pool.
pub open spec fn draw_from(pool: Seq<usize>, d: Seq<usize>) -> Seq<usize>
    decreases d.len(),
{
    if d.len() == 0 {
        seq![]
    } else {
        seq![pool[d[0] as int]] + draw_from(pool.remove(d[0] as int), d.drop_first())
    }
}

/// The path that the draws `d` pick out of `0..len`.
pub open spec fn path_from_draws(len: nat, d: Seq<usize>) -> Seq<usize> {
    draw_from(index_pool(len), d)
}

/// Draws for a path through `len` nodes: the `k`-th draw lies below `len - k`.
pub open spec fn valid_draws(len: nat, d: Seq<usize>) -> bool {
    &&& d.len() == PATH_LEN
    &&& forall|k: int| 0 <= k < PATH_LEN ==> #[trigger] d[k] < len - k
}

/// Every path through `len` nodes is the path of some draws: picking by
/// draws leaves no path of three distinct indices below `len` out.
pub proof fn lemma_every_path_is_drawn(len: usize, p: Seq<usize>)
    requires
        valid_path(p, len as nat),
    ensures
        exists|d: Seq<usize>| valid_draws(len as nat, d) && path_from_draws(len as nat, d) == p,
{
    let p0 = p[0];
    let p1 = p[1];
    let p2 = p[2];
    assert(p0 != p1 && p0 != p2 && p1 != p2) by {
        assert(p.no_duplicates());
    }
    let d0: usize = p0;
    let d1: usize = if p1 < p0 { p1 } else { (p1 - 1) as usize };
    let below2: int = (if p0 < p2 { 1int } else { 0int }) + (if p1 < p2 { 1int } else { 0int });
    let d2: usize = (p2 - below2) as usize;
    let d = seq![d0, d1, d2];
    let a0 = index_pool(len as nat);
    let a1 = a0.remove(d0 as int);
    let a2 = a1.remove(d1 as int);
    assert forall|j: int| 0 <= j < a1.len() implies a1[j] == if j < p0 { j } else { j + 1 } by {
        if j < p0 {
            assert(a1[j] == a0[j]);
        } else {
            assert(a1[j] == a0[j + 1]);
        }
    }
    assert forall|j: int| 0 <= j < a2.len() implies a2[j] == if j < d1 { a1[j] } else { a1[j + 1] } by {
    }
    assert(a0[d0 as int] == p0);
    assert(a1[d1 as int] == p1);
    assert(a2[d2 as int] == p2);
    assert(valid_draws(len as nat, d));
    assert(d.drop_first() =~= seq![d1, d2]);
    assert(seq![d1, d2].drop_first() =~= seq![d2]);
    assert(seq![d2].drop_first() =~= Seq::<usize>::empty());
    assert(draw_from(a2.remove(d2 as int), Seq::<usize>::empty()) == Seq::<usize>::empty());
    assert(seq![d2][0] == d2);
    assert(draw_from(a2, seq![d2]) == seq![a2[d2 as int]] + draw_from(
        a2.remove(d2 as int),
        Seq::<usize>::empty(),
    ));
    assert(draw_from(a2, seq![d2]) =~= seq![p2]);
    assert(draw_from(a1, seq![d1, d2]) =~= seq![p1, p2]);
    assert(path_from_draws(len as nat, d) =~= p);
}

/// Picks the path given by the draws: each draw takes the index at its
/// position out of those not taken yet.
pub fn pick_path(len: usize, draws: [usize; 3]) -> (index: [usize; 3])
    requires
        len >= PATH_LEN,
        valid_draws(len as nat, draws@),
    ensures
        index@ == path_from_draws(len as nat, draws@),
        valid_path(index@, len as nat),
{
    let mut all_indexes: Vec<usize> = Vec::with_capacity(len);
    let mut i: usize = 0;
    while i < len
        invariant
            i <= len,
            all_indexes.len() == i,
            forall|j: int| 0 <= j < i ==> all_indexes[j] == j,
        decreases len - i,
    {
        all_indexes.push(i);
        i += 1;
    }
    assert(all_indexes@.no_duplicates());
    assert(all_indexes@ =~= index_pool(len as nat));
    let mut index: [usize; 3] = [0, 1, 2];
    assert(draws@.subrange(0, 3) =~= draws@);
    assert(index@.subrange(0, 0) + draw_from(all_indexes@, draws@.subrange(0, 3)) =~= path_from_draws(
        len as nat,
        draws@,
    ));
    let mut k: usize = 0;
    while k < PATH_LEN
        invariant
            k <= PATH_LEN,
            len >= PATH_LEN,
            all_indexes.len() == len - k,
            all_indexes@.no_duplicates(),
            forall|j: int| 0 <= j < all_indexes.len() ==> all_indexes[j] < len,
            forall|j: int| 0 <= j < k ==> index@[j] < len,
            forall|j: int| 0 <= j < k ==> !all_indexes@.contains(#[trigger] index@[j]),
            forall|a: int, b: int| 0 <= a < b < k ==> index@[a] != index@[b],
            index@.len() == 3,
            valid_draws(len as nat, draws@),
            index@.subrange(0, k as int) + draw_from(all_indexes@, draws@.subrange(k as int, 3))
                == path_from_draws(len as nat, draws@),
        decreases PATH_LEN - k,
    {
        let r: usize = draws[k];
        assert(draws@[k as int] < len - k);
        let ghost before = all_indexes@;
        let chosen: usize = all_indexes.remove(r);
        assert(before == all_indexes@.insert(r as int, chosen));
        assert forall|j: int| 0 <= j < all_indexes.len() implies all_indexes[j] < len by {
            if j < r {
                assert(all_indexes[j] == before[j]);
            } else {
                assert(all_indexes[j] == before[j + 1]);
            }
        }
        assert(all_indexes@.no_duplicates()) by {
            assert forall|a: int, b: int|
                0 <= a < all_indexes.len() && 0 <= b < all_indexes.len() && a != b implies
                all_indexes@[a] != all_indexes@[b] by {
                let a2 = if a < r { a } else { a + 1 };
                let b2 = if b < r { b } else { b + 1 };
                assert(all_indexes@[a] == before[a2]);
                assert(all_indexes@[b] == before[b2]);
            }
        }
        assert(!all_indexes@.contains(chosen)) by {
            if all_indexes@.contains(chosen) {
                let w = choose|w: int| 0 <= w < all_indexes.len() && all_indexes@[w] == chosen;
                let w2 = if w < r { w } else { w + 1 };
                assert(before[w2] == chosen);
                assert(before[r as int] == chosen);
            }
        }
        assert forall|j: int| 0 <= j < k implies !all_indexes@.contains(#[trigger] index@[j]) by {
            if all_indexes@.contains(index@[j]) {
                let w = choose|w: int| 0 <= w < all_indexes.len() && all_indexes@[w] == index@[j];
                let w2 = if w < r { w } else { w + 1 };
                assert(before[w2] == index@[j]);
            }
        }
        let ghost old_index = index@;
        index[k] = chosen;
        proof {
            let ds = draws@.subrange(k as int, 3);
            assert(ds.drop_first() =~= draws@.subrange(k + 1, 3));
            assert(ds[0] == r);
            assert(index@.subrange(0, k + 1) =~= old_index.subrange(0, k as int).push(chosen));
            assert(draw_from(before, ds) == seq![chosen] + draw_from(all_indexes@, ds.drop_first()));
            assert(index@.subrange(0, k + 1) + draw_from(all_indexes@, draws@.subrange(k + 1, 3))
                =~= old_index.subrange(0, k as int) + draw_from(before, ds));
        }
        k += 1;
    }
    assert(index@.no_duplicates());
    assert(index@.subrange(0, 3) =~= index@);
    assert(draws@.subrange(3, 3) =~= Seq::<usize>::empty());
    assert(draw_from(all_indexes@, Seq::<usize>::empty()) =~= Seq::<usize>::empty());
    index
}

/// Picks a random path through `len` nodes: `PATH_LEN` distinct indices,
/// the ones that `PATH_LEN` random draws pick.
pub fn get_random_path(len: usize) -> (index: [usize; 3])
    requires
        len >= PATH_LEN,
    ensures
        valid_path(index@, len as nat),
        exists|d: Seq<usize>| valid_draws(len as nat, d) && index@ == path_from_draws(len as nat, d),
{
    let mut rng = thread_rng();
    let mut draws: [usize; 3] = [0, 0, 0];
    let mut k: usize = 0;
    while k < PATH_LEN
        invariant
            k <= PATH_LEN,
            len >= PATH_LEN,
            draws@.len() == 3,
            forall|j: int| 0 <= j < k ==> #[trigger] draws@[j] < len - j,
        decreases PATH_LEN - k,
    {
        draws[k] = gen_index(&mut rng, len - k);
        k += 1;
    }
    let index = pick_path(len, draws);
    assert(valid_draws(len as nat, draws@));
    index
}

/// The authority's answer for a given path through the known nodes.
pub fn list_path(nodes: &Vec<NodeKey>, index: [usize; 3]) -> (send_string: String)
    requires
        forall|k: int| 0 <= k < 3 ==> index@[k] < nodes.len(),
    ensures
        send_string@ == path_listing(nodes@, index@),
{
    let mut send_string = String::new();
    let mut k: usize = 0;
    assert(index@.subrange(0, 3) =~= index@);
    while k < PATH_LEN
        invariant
            k <= PATH_LEN,
            index@.len() == 3,
            forall|j: int| 0 <= j < 3 ==> index@[j] < nodes.len(),
            send_string@ + path_listing(nodes@, index@.subrange(k as int, 3)) == path_listing(
                nodes@,
                index@,
            ),
        decreases PATH_LEN - k,
    {
        let random_node_key = nodes[index[k]].to_string();
        let ghost before = send_string@;
        send_string.append("\\");
        send_string.append(random_node_key.as_str());
        send_string.append("\\");
        proof {
            reveal_strlit("\\");
            let p = index@.subrange(k as int, 3);
            assert(p.drop_first() =~= index@.subrange(k + 1, 3));
            assert(p[0] == index@[k as int]);
            assert(send_string@ =~= before + seq!['\\'] + node_key_text(nodes@[index@[k as int] as int])
                + seq!['\\']);
        }
        k += 1;
    }
    assert(index@.subrange(0, 3) =~= index@);
    assert(index@.subrange(3, 3) =~= Seq::<usize>::empty());
    send_string
}

/// The authority's answer to a client: a random path of `PATH_LEN` distinct
/// known nodes, each as `\node: <address>, key: <key>\`.
pub fn get_nodes_and_keys(nodes: &Vec<NodeKey>) -> (send_string: String)
    requires
        nodes.len() >= PATH_LEN,
    ensures
        exists|d: Seq<usize>|
            valid_draws(nodes.len() as nat, d) && valid_path(
                path_from_draws(nodes.len() as nat, d),
                nodes.len() as nat,
            ) && send_string@ == path_listing(nodes@, path_from_draws(nodes.len() as nat, d)),
{
    let index = get_random_path(nodes.len());
    let send_string = list_path(nodes, index);
    send_string
}

/// Whether a connection's data asks for a path (it mentions `GET`).
pub fn asks_for_path(data: &[u8]) -> (b: bool)
    ensures
        b == is_path_request(data@),
{
    let tag: [u8; 3] = [0x47u8, 0x45u8, 0x54u8];
    assert(tag@ == get_tag());
    contains_bytes(data, &tag)
}

/// `std::str::from_utf8`: claimed of it, as its documentation states, that it
/// succeeds exactly on valid UTF-8 and then gives the text of those bytes.
#[verifier::external_body]
fn utf8_text(bytes: &[u8]) -> (r: Option<&str>)
    ensures
        r is Some <==> valid_utf8(bytes@),
        r matches Some(t) ==> t.spec_bytes() == bytes@,
{
    std::str::from_utf8(bytes).ok()
}

/// The hexadecimal digit of a value below 16.
fn hex_digit_exec(v: u8) -> (d: u8)
    requires
        v < 16,
    ensures
        d == hex_digit(v),
{
    if v < 10 {
        0x30 + v
    } else {
        0x61 + v - 10
    }
}

/// The lowercase hexadecimal text of some bytes.
fn hex_text(data: &[u8]) -> (t: String)
    ensures
        encode_utf8(t@) == hex_bytes(data@),
{
    let mut out: Vec<u8> = Vec::new();
    let mut i: usize = 0;
    while i < data.len()
        invariant
            i <= data.len(),
            out@ == hex_bytes(data@.subrange(0, i as int)),
            forall|j: int| 0 <= j < out@.len() ==> is_leading_byte_width_1(#[trigger] out@[j]),
        decreases data.len() - i,
    {
        let b = data[i];
        out.push(hex_digit_exec(b / 16));
        out.push(hex_digit_exec(b % 16));
        proof {
            let pre = data@.subrange(0, i + 1);
            assert(pre.drop_last() =~= data@.subrange(0, i as int));
            assert(pre.last() == b);
        }
        i += 1;
    }
    assert(data@.subrange(0, data@.len() as int) =~= data@);
    proof {
        assert(out@.subrange(0, 0) =~= Seq::<u8>::empty());
        partial_valid_utf8_extend_ascii_block(out@, 0, out@.len() as int);
        assert(out@.subrange(0, out@.len() as int) =~= out@);
    }
    match utf8_text(out.as_slice()) {
        Some(t) => {
            proof {
                decode_utf8_encode_utf8(t.spec_bytes());
            }
            t.to_owned()
        },
        None => String::new(),
    }
}

/// An announcement that is UTF-8 text is recorded as exactly that text,
/// whatever its length; any other announcement is recorded as two
/// lowercase hexadecimal digits per byte, the high half first.
pub proof fn lemma_stored_key(data: Seq<u8>)
    ensures
        valid_utf8(data) ==> stored_key_bytes(data) == data,
        !valid_utf8(data) ==> stored_key_bytes(data).len() == 2 * data.len(),
        !valid_utf8(data) ==> forall|i: int|
            #![trigger data[i]]
            0 <= i < data.len() ==> {
                let hi = stored_key_bytes(data)[2 * i];
                let lo = stored_key_bytes(data)[2 * i + 1];
                &&& (if data[i] / 16 < 10 { hi == 0x30 + data[i] / 16 } else { hi == 0x57 + data[i] / 16 })
                &&& (if data[i] % 16 < 10 { lo == 0x30 + data[i] % 16 } else { lo == 0x57 + data[i] % 16 })
            },
{
    if !valid_utf8(data) {
        lemma_hex_bytes(data);
    }
}

/// Each byte of `b` gives two digits of its hexadecimal text, in order.
proof fn lemma_hex_bytes(b: Seq<u8>)
    ensures
        hex_bytes(b).len() == 2 * b.len(),
        forall|i: int|
            #![trigger b[i]]
            0 <= i < b.len() ==> hex_bytes(b)[2 * i] == hex_digit(b[i] / 16) && hex_bytes(b)[2 * i
                + 1] == hex_digit(b[i] % 16),
    decreases b.len(),
{
    if b.len() > 0 {
        let pre = b.drop_last();
        lemma_hex_bytes(pre);
        assert forall|i: int| #![trigger b[i]] 0 <= i < b.len() implies hex_bytes(b)[2 * i] == hex_digit(b[i] / 16)
            && hex_bytes(b)[2 * i + 1] == hex_digit(b[i] % 16) by {
            if i < pre.len() {
                assert(b[i] == pre[i]);
            }
        }
    }
}

/// The text under which an announced key is recorded.
pub fn stored_key(data: &[u8]) -> (key: String)
    ensures
        encode_utf8(key@) == stored_key_bytes(data@),
        valid_utf8(data@) ==> encode_utf8(key@) == data@,
{
    match utf8_text(data) {
        Some(t) => t.to_owned(),
        None => hex_text(data),
    }
}

/// What the authority does with a connection's data: a request for a path
/// is answered with a random path and changes nothing; anything else is a
/// node announcing its key, which is recorded under the peer's address and
/// answered with `HTTP/1.1 200 OK\r\n`.
pub fn handle_request(nodes: &mut Vec<NodeKey>, data: Vec<u8>, peer_addr: String) -> (reply: String)
    requires
        is_path_request(data@) ==> old(nodes).len() >= PATH_LEN,
    ensures
        is_path_request(data@) ==> {
            &&& final(nodes)@ == old(nodes)@
            &&& exists|d: Seq<usize>|
                valid_draws(old(nodes).len() as nat, d) && valid_path(
                    path_from_draws(old(nodes).len() as nat, d),
                    old(nodes).len() as nat,
                ) && reply@ == path_listing(
                    old(nodes)@,
                    path_from_draws(old(nodes).len() as nat, d),
                )
        },
        !is_path_request(data@) ==> {
            &&& final(nodes)@.len() == old(nodes)@.len() + 1
            &&& final(nodes)@.drop_last() == old(nodes)@
            &&& final(nodes)@.last().node == peer_addr
            &&& encode_utf8(final(nodes)@.last().key@) == stored_key_bytes(data@)
            &&& valid_utf8(data@) ==> encode_utf8(final(nodes)@.last().key@) == data@
            &&& reply@ == ok_response()
        },
{
    if asks_for_path(data.as_slice()) {
        return get_nodes_and_keys(nodes);
    }
    let key = stored_key(data.as_slice());
    let node_key = NodeKey { node: peer_addr, key };
    nodes.push(node_key);
    assert(nodes@.drop_last() =~= old(nodes)@);
    ok_response_text()
}

/// The answer to a node that announced itself, and of a node to any message.
pub fn ok_response_text() -> (s: String)
    ensures
        s@ == ok_response(),
{
    String::from_str("HTTP/1.1 200 OK\r\n")
}

/// The request a client sends to the authority for a path; the authority
/// takes it for one.
pub fn path_request_text() -> (s: String)
    ensures
        s@ == "GET /nodes HTTPS/1.1"@,
        is_path_request(encode_utf8(s@)),
{
    let s = String::from_str("GET /nodes HTTPS/1.1");
    proof {
        reveal_strlit("GET /nodes HTTPS/1.1");
        assert(is_ascii_chars(s@));
        is_ascii_chars_encode_utf8(s@);
        let b = encode_utf8(s@);
        assert(b.subrange(0, 3) =~= get_tag());
        assert(matches_at(b, get_tag(), 0));
    }
    s
}

} // verus!
