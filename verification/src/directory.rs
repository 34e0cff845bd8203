//! The client's reading of the directory authority's answer: a list of
//! entries `\node: <address>, key: <key>\`, one per node of the path.
use vstd::prelude::*;
use vstd::utf8::*;
use vstd::string::*;
use crate::authority::{NodeKey, node_key_text, path_listing};
use crate::text::{
    contains, contains_bytes, find_from, lemma_boundary_after_ascii, lemma_boundary_at_ascii,
    lemma_encode_utf8_concat, lemma_first_match, lemma_split_join_from, lemma_split_at_match, lemma_split_no_match,
    lemma_split_shift, matches_at, split, split_from, substr,
};

verus! {

broadcast use vstd::seq::group_seq_axioms, vstd::seq_lib::group_seq_properties;

/// The bytes of `", "`, which separate the fields of an entry.
pub open spec fn field_sep() -> Seq<u8> {
    seq![0x2cu8, 0x20u8]
}

/// The bytes of `"\"`, which separate the entries of an answer.
pub open spec fn entry_sep() -> Seq<u8> {
    seq![0x5cu8]
}

/// The bytes of `"node"`, which mark a piece of an answer as an entry.
pub open spec fn node_tag() -> Seq<u8> {
    seq![0x6eu8, 0x6fu8, 0x64u8, 0x65u8]
}

/// The comma-separated fields of an entry.
pub open spec fn entry_fields(entry: Seq<u8>) -> Seq<Seq<u8>> {
    split(entry, field_sep())
}

/// An entry can be read: it has two fields, the first at least six bytes
/// long (`"node: "`) and the second at least five (`"key: "`), and both cut
/// points fall on character boundaries.
pub open spec fn entry_well_formed(entry: Seq<u8>) -> bool {
    let fields = entry_fields(entry);
    &&& fields.len() >= 2
    &&& is_char_boundary(fields[0], 6)
    &&& is_char_boundary(fields[1], 5)
}

/// The node address of an entry: its first field without the first six bytes.
pub open spec fn entry_node(entry: Seq<u8>) -> Seq<u8> {
    let f = entry_fields(entry)[0];
    f.subrange(6, f.len() as int)
}

/// The key of an entry: its second field without the first five bytes.
pub open spec fn entry_key(entry: Seq<u8>) -> Seq<u8> {
    let f = entry_fields(entry)[1];
    f.subrange(5, f.len() as int)
}

/// A piece of an answer is an entry when it mentions `"node"`.
pub open spec fn is_node_entry(piece: Seq<u8>) -> bool {
    contains(piece, node_tag())
}

/// The entries among the pieces of an answer, in order.
pub open spec fn node_entries(pieces: Seq<Seq<u8>>) -> Seq<Seq<u8>> {
    pieces.filter(|p: Seq<u8>| is_node_entry(p))
}

/// The entries of an answer, in order.
pub open spec fn answer_entries(answer: Seq<u8>) -> Seq<Seq<u8>> {
    node_entries(split(answer, entry_sep()))
}

/// Every entry of the answer can be read.
pub open spec fn answer_well_formed(answer: Seq<u8>) -> bool {
    forall|i: int|
        0 <= i < answer_entries(answer).len() ==> entry_well_formed(
            #[trigger] answer_entries(answer)[i],
        )
}

/// A text can be written into an answer and read back from it: it holds no
/// backslash and no `", "`.
pub open spec fn plain_text(t: Seq<char>) -> bool {
    &&& !contains(encode_utf8(t), entry_sep())
    &&& !contains(encode_utf8(t), field_sep())
}

/// A node whose address and key can both be written and read back.
pub open spec fn listable(n: NodeKey) -> bool {
    plain_text(n.node@) && plain_text(n.key@)
}

/// The bytes of the fixed parts of an entry, and of the backslash.
proof fn lemma_literal_bytes()
    ensures
        encode_utf8("node: "@) == seq![0x6eu8, 0x6fu8, 0x64u8, 0x65u8, 0x3au8, 0x20u8],
        encode_utf8(", key: "@) == seq![0x2cu8, 0x20u8, 0x6bu8, 0x65u8, 0x79u8, 0x3au8, 0x20u8],
        encode_utf8(seq!['\\']) == seq![0x5cu8],
{
    reveal_strlit("node: ");
    reveal_strlit(", key: ");
    let a = "node: "@;
    let c = ", key: "@;
    let s = seq!['\\'];
    assert(is_ascii_chars(a));
    assert(is_ascii_chars(c));
    assert(is_ascii_chars(s));
    is_ascii_chars_encode_utf8(a);
    is_ascii_chars_encode_utf8(c);
    is_ascii_chars_encode_utf8(s);
    assert(encode_utf8(a) =~= seq![0x6eu8, 0x6fu8, 0x64u8, 0x65u8, 0x3au8, 0x20u8]);
    assert(encode_utf8(c) =~= seq![0x2cu8, 0x20u8, 0x6bu8, 0x65u8, 0x79u8, 0x3au8, 0x20u8]);
    assert(encode_utf8(s) =~= seq![0x5cu8]);
}

/// In valid UTF-8, the first byte of a non-empty encoding starts a character.
proof fn lemma_encoding_starts_char(t: Seq<char>)
    requires
        t.len() > 0,
    ensures
        !is_continuation_byte(encode_utf8(t)[0]),
{
    encode_utf8_first_scalar(t);
}

/// Neither the address nor the key of a node holds `", "`.
pub open spec fn comma_free(n: NodeKey) -> bool {
    !contains(encode_utf8(n.node@), field_sep()) && !contains(encode_utf8(n.key@), field_sep())
}

/// The text the authority writes for a node whose address and key hold no
/// `", "` is an entry that reads back as the node's address and key.
pub proof fn lemma_entry_fields_read_back(n: NodeKey)
    requires
        comma_free(n),
    ensures
        is_node_entry(encode_utf8(node_key_text(n))),
        entry_well_formed(encode_utf8(node_key_text(n))),
        entry_node(encode_utf8(node_key_text(n))) == encode_utf8(n.node@),
        entry_key(encode_utf8(node_key_text(n))) == encode_utf8(n.key@),
{
    lemma_literal_bytes();
    let p = encode_utf8("node: "@);
    let a = encode_utf8(n.node@);
    let c = encode_utf8(", key: "@);
    let k = encode_utf8(n.key@);
    lemma_encode_utf8_concat("node: "@, n.node@);
    lemma_encode_utf8_concat("node: "@ + n.node@, ", key: "@);
    lemma_encode_utf8_concat("node: "@ + n.node@ + ", key: "@, n.key@);
    let e = encode_utf8(node_key_text(n));
    assert(e == p + a + c + k);
    let la = a.len() as int;
    // "node" at the start
    assert(e.subrange(0, 4) =~= node_tag());
    assert(matches_at(e, node_tag(), 0));
    // the first ", " is the one after the address
    let fs = field_sep();
    let q = 6 + la;
    assert(e.subrange(q, q + 2) =~= fs);
    assert forall|i: int| 0 <= i < q implies !matches_at(e, fs, i) by {
        if matches_at(e, fs, i) {
            assert(e[i] == e.subrange(i, i + 2)[0]);
            assert(e[i + 1] == e.subrange(i, i + 2)[1]);
            if i < 6 {
            } else if i + 1 < q {
                assert(a.subrange(i - 6, i - 4) =~= e.subrange(i, i + 2));
                assert(matches_at(a, fs, i - 6));
            } else {
                assert(e[i + 1] == c[0]);
            }
        }
    }
    lemma_split_at_match(e, fs, 0, q);
    assert forall|i: int| q + 2 <= i implies !matches_at(e, fs, i) by {
        if matches_at(e, fs, i) {
            assert(e[i] == e.subrange(i, i + 2)[0]);
            if i < 13 + la {
                assert(e[i] == c[i - 6 - la]);
            } else {
                assert(k.subrange(i - 13 - la, i - 11 - la) =~= e.subrange(i, i + 2));
                assert(matches_at(k, fs, i - 13 - la));
            }
        }
    }
    lemma_split_no_match(e, fs, q + 2);
    let f0 = e.subrange(0, q);
    let f1 = e.subrange(q + 2, e.len() as int);
    assert(entry_fields(e) =~= seq![f0, f1]);
    assert(f0 =~= p + a);
    assert(f1 =~= c.subrange(2, 7) + k);
    assert(f0.subrange(6, f0.len() as int) =~= a);
    assert(f1.subrange(5, f1.len() as int) =~= k);
    // the cut points are character boundaries
    lemma_encode_utf8_concat("node: "@, n.node@);
    encode_utf8_valid_utf8("node: "@ + n.node@);
    if la == 0 {
        is_char_boundary_start_end_of_seq(f0);
    } else {
        lemma_encoding_starts_char(n.node@);
        assert(f0[6] == a[0]);
        is_char_boundary_iff_not_is_continuation_byte(f0, 6);
    }
    encode_utf8_valid_utf8(", key: "@);
    encode_utf8_valid_utf8(n.key@);
    lemma_boundary_at_ascii(c, 2);
    valid_utf8_split(c, 2);
    assert(c.subrange(2, c.len() as int) =~= c.subrange(2, 7));
    valid_utf8_concat(c.subrange(2, 7), k);
    if k.len() == 0 {
        is_char_boundary_start_end_of_seq(f1);
    } else {
        lemma_encoding_starts_char(n.key@);
        assert(f1[5] == k[0]);
        is_char_boundary_iff_not_is_continuation_byte(f1, 5);
    }
}

/// The text the authority writes for a listable node reads back as the
/// node's address and key, and it holds no backslash.
pub proof fn lemma_entry_reads_back(n: NodeKey)
    requires
        listable(n),
    ensures
        is_node_entry(encode_utf8(node_key_text(n))),
        !contains(encode_utf8(node_key_text(n)), entry_sep()),
        entry_well_formed(encode_utf8(node_key_text(n))),
        entry_node(encode_utf8(node_key_text(n))) == encode_utf8(n.node@),
        entry_key(encode_utf8(node_key_text(n))) == encode_utf8(n.key@),
{
    lemma_entry_fields_read_back(n);
    lemma_literal_bytes();
    let p = encode_utf8("node: "@);
    let a = encode_utf8(n.node@);
    let c = encode_utf8(", key: "@);
    let k = encode_utf8(n.key@);
    lemma_encode_utf8_concat("node: "@, n.node@);
    lemma_encode_utf8_concat("node: "@ + n.node@, ", key: "@);
    lemma_encode_utf8_concat("node: "@ + n.node@ + ", key: "@, n.key@);
    let e = encode_utf8(node_key_text(n));
    assert(e == p + a + c + k);
    let la = a.len() as int;
    assert forall|i: int| 0 <= i < la implies a[i] != 0x5cu8 by {
        if a[i] == 0x5cu8 {
            assert(a.subrange(i, i + 1) =~= entry_sep());
            assert(matches_at(a, entry_sep(), i));
        }
    }
    assert forall|i: int| 0 <= i < k.len() implies k[i] != 0x5cu8 by {
        if k[i] == 0x5cu8 {
            assert(k.subrange(i, i + 1) =~= entry_sep());
            assert(matches_at(k, entry_sep(), i));
        }
    }
    // no backslash anywhere
    assert forall|i: int| !matches_at(e, entry_sep(), i) by {
        if matches_at(e, entry_sep(), i) {
            assert(e[i] == e.subrange(i, i + 1)[0]);
            if i < 6 {
            } else if i < 6 + la {
                assert(e[i] == a[i - 6]);
            } else if i < 13 + la {
                assert(e[i] == c[i - 6 - la]);
            } else {
                assert(e[i] == k[i - 13 - la]);
            }
        }
    }
}

/// Joining two answers with a backslash joins their entries, and the joined
/// answer can be read exactly when both can.
pub proof fn lemma_answers_join(a: Seq<u8>, b: Seq<u8>)
    ensures
        answer_entries(a + entry_sep() + b) == answer_entries(a) + answer_entries(b),
        answer_well_formed(a + entry_sep() + b) <==> answer_well_formed(a) && answer_well_formed(b),
{
    lemma_split_join_from(a, 0x5cu8, b, 0);
    assert(entry_sep() =~= seq![0x5cu8]);
    Seq::filter_distributes_over_add(
        split(a, entry_sep()),
        split(b, entry_sep()),
        |p: Seq<u8>| is_node_entry(p),
    );
    let ea = answer_entries(a);
    let eb = answer_entries(b);
    let e = answer_entries(a + entry_sep() + b);
    assert(e == ea + eb);
    if answer_well_formed(a) && answer_well_formed(b) {
        assert forall|i: int| 0 <= i < e.len() implies entry_well_formed(#[trigger] e[i]) by {
            if i < ea.len() {
                assert(e[i] == ea[i]);
            } else {
                assert(e[i] == eb[i - ea.len()]);
            }
        }
    }
    if answer_well_formed(a + entry_sep() + b) {
        assert forall|i: int| 0 <= i < ea.len() implies entry_well_formed(#[trigger] ea[i]) by {
            assert(e[i] == ea[i]);
        }
        assert forall|i: int| 0 <= i < eb.len() implies entry_well_formed(#[trigger] eb[i]) by {
            assert(e[i + ea.len()] == eb[i]);
        }
    }
}

/// The entries the authority writes for a path, in order.
pub open spec fn listing_entries(nodes: Seq<NodeKey>, path: Seq<usize>) -> Seq<Seq<u8>>
    decreases path.len(),
{
    if path.len() == 0 {
        seq![]
    } else {
        seq![encode_utf8(node_key_text(nodes[path[0] as int]))] + listing_entries(
            nodes,
            path.drop_first(),
        )
    }
}

/// The pieces of the answer for a path, split on backslashes: an empty piece,
/// then each entry followed by an empty piece.
spec fn listing_pieces(nodes: Seq<NodeKey>, path: Seq<usize>) -> Seq<Seq<u8>>
    decreases path.len(),
{
    if path.len() == 0 {
        seq![Seq::<u8>::empty()]
    } else {
        seq![Seq::<u8>::empty(), encode_utf8(node_key_text(nodes[path[0] as int]))]
            + listing_pieces(nodes, path.drop_first())
    }
}

/// Every node of the path is known and listable.
pub open spec fn listable_path(nodes: Seq<NodeKey>, path: Seq<usize>) -> bool {
    forall|k: int|
        #![trigger path[k]]
        0 <= k < path.len() ==> path[k] < nodes.len() && listable(nodes[path[k] as int])
}

/// Splitting the answer for a path on backslashes gives its pieces, and the
/// pieces that are entries are the path's entries.
proof fn lemma_listing_splits(nodes: Seq<NodeKey>, path: Seq<usize>)
    requires
        listable_path(nodes, path),
    ensures
        split(encode_utf8(path_listing(nodes, path)), entry_sep()) == listing_pieces(nodes, path),
        node_entries(listing_pieces(nodes, path)) == listing_entries(nodes, path),
    decreases path.len(),
{
    let sep = entry_sep();
    let b = encode_utf8(path_listing(nodes, path));
    if path.len() == 0 {
        assert(b =~= Seq::<u8>::empty());
        lemma_split_no_match(b, sep, 0);
        assert(b.subrange(0, 0) =~= Seq::<u8>::empty());
        let empty_piece = Seq::<u8>::empty();
        let pieces = seq![empty_piece];
        assert(pieces =~= seq![empty_piece] + Seq::<Seq<u8>>::empty());
        Seq::<Seq<u8>>::empty().lemma_filter_prepend(empty_piece, |p: Seq<u8>| is_node_entry(p));
        reveal(Seq::filter);
        assert(!is_node_entry(empty_piece));
        assert(node_entries(pieces) =~= Seq::<Seq<u8>>::empty());
    } else {
        let rest = path.drop_first();
        assert(listable_path(nodes, rest)) by {
            assert forall|k: int| 0 <= k < rest.len() implies rest[k] < nodes.len() && listable(
                #[trigger] nodes[rest[k] as int],
            ) by {
                assert(rest[k] == path[k + 1]);
            }
        }
        lemma_listing_splits(nodes, rest);
        let n = nodes[path[0] as int];
        assert(listable(n)) by {
            assert(path[0] == path[0]);
        }
        lemma_entry_reads_back(n);
        lemma_literal_bytes();
        let t = node_key_text(n);
        let bs = seq!['\\'];
        lemma_encode_utf8_concat(bs, t);
        lemma_encode_utf8_concat(bs + t, bs);
        lemma_encode_utf8_concat(bs + t + bs, path_listing(nodes, rest));
        let e = encode_utf8(t);
        let r = encode_utf8(path_listing(nodes, rest));
        let x = seq![0x5cu8] + e + seq![0x5cu8];
        assert(b == x + r);
        let le = e.len() as int;
        // the first piece is empty
        assert(b.subrange(0, 1) =~= sep);
        lemma_split_at_match(b, sep, 0, 0);
        // the second is the entry
        assert(b.subrange(1 + le, 2 + le) =~= sep);
        assert forall|i: int| 1 <= i < 1 + le implies !matches_at(b, sep, i) by {
            if matches_at(b, sep, i) {
                assert(e.subrange(i - 1, i) =~= b.subrange(i, i + 1));
                assert(matches_at(e, sep, i - 1));
            }
        }
        lemma_split_at_match(b, sep, 1, 1 + le);
        assert(b.subrange(0, 0) =~= Seq::<u8>::empty());
        assert(b.subrange(1, 1 + le) =~= e);
        lemma_split_shift(x, r, sep, 0);
        assert(split(b, sep) =~= listing_pieces(nodes, path));
        // only the entry is kept
        let empty_piece = Seq::<u8>::empty();
        let tail = listing_pieces(nodes, rest);
        assert(listing_pieces(nodes, path) =~= seq![empty_piece] + (seq![e] + tail));
        (seq![e] + tail).lemma_filter_prepend(empty_piece, |p: Seq<u8>| is_node_entry(p));
        tail.lemma_filter_prepend(e, |p: Seq<u8>| is_node_entry(p));
        assert(!is_node_entry(empty_piece));
        assert(node_entries(listing_pieces(nodes, path)) =~= seq![e] + node_entries(tail));
    }
}

/// The client reads the authority's answer for a path of listable nodes back
/// into the path's entries: every entry can be read, and the addresses and
/// keys read are those of the path's nodes, in order.
pub proof fn lemma_client_reads_authority_answer(nodes: Seq<NodeKey>, path: Seq<usize>)
    requires
        listable_path(nodes, path),
    ensures
        answer_entries(encode_utf8(path_listing(nodes, path))) == listing_entries(nodes, path),
        answer_well_formed(encode_utf8(path_listing(nodes, path))),
        forall|k: int|
            0 <= k < path.len() ==> {
                &&& entry_node(#[trigger] listing_entries(nodes, path)[k]) == encode_utf8(
                    nodes[path[k] as int].node@,
                )
                &&& entry_key(listing_entries(nodes, path)[k]) == encode_utf8(
                    nodes[path[k] as int].key@,
                )
            },
    decreases path.len(),
{
    lemma_listing_splits(nodes, path);
    lemma_listing_entries_read_back(nodes, path);
}

/// Each entry of a listable path reads back as its node.
proof fn lemma_listing_entries_read_back(nodes: Seq<NodeKey>, path: Seq<usize>)
    requires
        listable_path(nodes, path),
    ensures
        listing_entries(nodes, path).len() == path.len(),
        forall|k: int|
            0 <= k < path.len() ==> {
                &&& entry_well_formed(#[trigger] listing_entries(nodes, path)[k])
                &&& entry_node(listing_entries(nodes, path)[k]) == encode_utf8(
                    nodes[path[k] as int].node@,
                )
                &&& entry_key(listing_entries(nodes, path)[k]) == encode_utf8(
                    nodes[path[k] as int].key@,
                )
            },
    decreases path.len(),
{
    if path.len() > 0 {
        let rest = path.drop_first();
        assert(listable_path(nodes, rest)) by {
            assert forall|k: int| 0 <= k < rest.len() implies rest[k] < nodes.len() && listable(
                #[trigger] nodes[rest[k] as int],
            ) by {
                assert(rest[k] == path[k + 1]);
            }
        }
        lemma_listing_entries_read_back(nodes, rest);
        assert(listable(nodes[path[0] as int]));
        lemma_entry_reads_back(nodes[path[0] as int]);
        assert forall|k: int| 0 <= k < path.len() implies {
            &&& entry_well_formed(#[trigger] listing_entries(nodes, path)[k])
            &&& entry_node(listing_entries(nodes, path)[k]) == encode_utf8(
                nodes[path[k] as int].node@,
            )
            &&& entry_key(listing_entries(nodes, path)[k]) == encode_utf8(
                nodes[path[k] as int].key@,
            )
        } by {
            if k > 0 {
                assert(listing_entries(nodes, path)[k] == listing_entries(nodes, rest)[k - 1]);
                assert(rest[k - 1] == path[k]);
            }
        }
    }
}

/// Reads one entry `node: <address>, key: <key>` into its address and key,
/// or `None` when the entry cannot be read.
pub fn try_parse_node(str: &str) -> (r: Option<(String, String)>)
    ensures
        r is Some <==> entry_well_formed(str.spec_bytes()),
        r matches Some(fields) ==> {
            &&& encode_utf8(fields.0@) == entry_node(str.spec_bytes())
            &&& encode_utf8(fields.1@) == entry_key(str.spec_bytes())
        },
{
    let ghost bs = str.spec_bytes();
    let b = str.as_bytes();
    let sep: [u8; 2] = [0x2cu8, 0x20u8];
    assert(sep@ == field_sep());
    proof {
        encode_utf8_valid_utf8(str@);
        lemma_first_match(bs, field_sep(), 0);
    }
    let p0: usize = match find_from(b, &sep, 0) {
        Some(p) => p,
        None => {
            assert(split(bs, field_sep()).len() == 1);
            return None;
        },
    };
    assert(matches_at(bs, field_sep(), p0 as int));
    assert(p0 + 2 <= b.len());
    proof {
        lemma_first_match(bs, field_sep(), p0 + 2);
        assert(bs[p0 as int] == bs.subrange(p0 as int, p0 + 2)[0]);
        assert(bs[p0 + 1] == bs.subrange(p0 as int, p0 + 2)[1]);
        lemma_boundary_at_ascii(bs, p0 as int);
        lemma_boundary_after_ascii(bs, p0 + 1);
        is_char_boundary_start_end_of_seq(bs);
    }
    let end1: usize = match find_from(b, &sep, p0 + 2) {
        Some(p) => {
            proof {
                assert(bs[p as int] == bs.subrange(p as int, p + 2)[0]);
                lemma_boundary_at_ascii(bs, p as int);
            }
            p
        },
        None => b.len(),
    };
    let ghost fields = entry_fields(bs);
    assert(fields[0] == bs.subrange(0, p0 as int));
    assert(split_from(bs, field_sep(), p0 + 2)[0] == bs.subrange(p0 + 2, end1 as int));
    assert(fields[1] == bs.subrange(p0 + 2, end1 as int));
    let first = substr(str, 0, p0);
    let second = substr(str, p0 + 2, end1);
    if !first.is_char_boundary(6) || !second.is_char_boundary(5) {
        return None;
    }
    let (_, node) = first.split_at(6);
    let (_, key) = second.split_at(5);
    let node_addr = node.to_owned();
    let key_text = key.to_owned();
    assert(encode_utf8(node_addr@) =~= entry_node(bs));
    assert(encode_utf8(key_text@) =~= entry_key(bs));
    Some((node_addr, key_text))
}

/// Reads one entry `node: <address>, key: <key>` into its address and key.
pub fn parse_node(str: &str) -> (r: (String, String))
    requires
        entry_well_formed(str.spec_bytes()),
    ensures
        encode_utf8(r.0@) == entry_node(str.spec_bytes()),
        encode_utf8(r.1@) == entry_key(str.spec_bytes()),
{
    match try_parse_node(str) {
        Some(fields) => fields,
        None => (String::new(), String::new()),
    }
}

/// Reads the directory authority's answer into the node addresses and the
/// keys of its entries, in the order in which they appear, or `None` when
/// one of its entries cannot be read.
pub fn try_parse_array(parsable_string: &str) -> (r: Option<(Vec<String>, Vec<String>)>)
    ensures
        r is Some <==> answer_well_formed(parsable_string.spec_bytes()),
        r matches Some(fields) ==> {
            let entries = answer_entries(parsable_string.spec_bytes());
            &&& fields.0.len() == entries.len()
            &&& fields.1.len() == entries.len()
            &&& forall|i: int|
                0 <= i < fields.0.len() ==> encode_utf8(#[trigger] fields.0[i]@) == entry_node(
                    entries[i],
                )
            &&& forall|i: int|
                0 <= i < fields.1.len() ==> encode_utf8(#[trigger] fields.1[i]@) == entry_key(
                    entries[i],
                )
        },
{
    let s = parsable_string;
    let ghost bs = s.spec_bytes();
    let b = s.as_bytes();
    let sep: [u8; 1] = [0x5cu8];
    let tag: [u8; 4] = [0x6eu8, 0x6fu8, 0x64u8, 0x65u8];
    assert(sep@ == entry_sep());
    assert(tag@ == node_tag());
    let ghost pieces = split(bs, entry_sep());
    let mut nodes: Vec<String> = Vec::with_capacity(3);
    let mut keys: Vec<String> = Vec::with_capacity(3);
    let mut start: usize = 0;
    let ghost mut done: Seq<Seq<u8>> = seq![];
    proof {
        encode_utf8_valid_utf8(s@);
        is_char_boundary_start_end_of_seq(bs);
        assert(done + split_from(bs, entry_sep(), 0) =~= pieces);
    }
    loop
        invariant_except_break
            pieces == done + split_from(bs, entry_sep(), start as int),
        invariant
            b@ == bs,
            bs == s.spec_bytes(),
            bs == parsable_string.spec_bytes(),
            valid_utf8(bs),
            sep@ == entry_sep(),
            tag@ == node_tag(),
            pieces == split(bs, entry_sep()),
            start <= b.len(),
            is_char_boundary(bs, start as int),
            nodes.len() == node_entries(done).len(),
            keys.len() == node_entries(done).len(),
            forall|i: int|
                0 <= i < node_entries(done).len() ==> entry_well_formed(
                    #[trigger] node_entries(done)[i],
                ),
            forall|i: int|
                0 <= i < nodes.len() ==> encode_utf8(#[trigger] nodes[i]@) == entry_node(
                    node_entries(done)[i],
                ),
            forall|i: int|
                0 <= i < keys.len() ==> encode_utf8(#[trigger] keys[i]@) == entry_key(
                    node_entries(done)[i],
                ),
        ensures
            pieces == done,
            nodes.len() == node_entries(done).len(),
            keys.len() == node_entries(done).len(),
            forall|i: int|
                0 <= i < node_entries(done).len() ==> entry_well_formed(
                    #[trigger] node_entries(done)[i],
                ),
            forall|i: int|
                0 <= i < nodes.len() ==> encode_utf8(#[trigger] nodes[i]@) == entry_node(
                    node_entries(done)[i],
                ),
            forall|i: int|
                0 <= i < keys.len() ==> encode_utf8(#[trigger] keys[i]@) == entry_key(
                    node_entries(done)[i],
                ),
        decreases b.len() - start,
    {
        proof {
            lemma_first_match(bs, entry_sep(), start as int);
            is_char_boundary_start_end_of_seq(bs);
        }
        let found = find_from(b, &sep, start);
        let end: usize = match found {
            Some(p) => {
                proof {
                    assert(bs[p as int] == bs.subrange(p as int, p + 1)[0]);
                    lemma_boundary_at_ascii(bs, p as int);
                    lemma_boundary_after_ascii(bs, p as int);
                }
                p
            },
            None => b.len(),
        };
        let piece = substr(s, start, end);
        let ghost pb = piece.spec_bytes();
        assert(pb == split_from(bs, entry_sep(), start as int)[0]);
        proof {
            done.lemma_filter_push(pb, |p: Seq<u8>| is_node_entry(p));
        }
        if contains_bytes(piece.as_bytes(), &tag) {
            assert(node_entries(done.push(pb)) == node_entries(done).push(pb));
            match try_parse_node(piece) {
                Some((node, key)) => {
                    nodes.push(node);
                    keys.push(key);
                },
                None => {
                    proof {
                        let k = node_entries(done).len() as int;
                        let rest = split_from(bs, entry_sep(), start as int);
                        let tail = rest.subrange(1, rest.len() as int);
                        assert(pieces =~= done.push(pb) + tail);
                        Seq::filter_distributes_over_add(
                            done.push(pb),
                            tail,
                            |p: Seq<u8>| is_node_entry(p),
                        );
                        assert(node_entries(pieces) == node_entries(done.push(pb)) + node_entries(
                            tail,
                        ));
                        assert(answer_entries(bs)[k] == pb);
                        assert(!entry_well_formed(answer_entries(bs)[k]));
                    }
                    return None;
                },
            }
        } else {
            assert(node_entries(done.push(pb)) == node_entries(done));
        }
        proof {
            done = done.push(pb);
        }
        match found {
            Some(p) => {
                start = p + 1;
            },
            None => {
                assert(split_from(bs, entry_sep(), start as int) =~= seq![pb]);
                assert(pieces =~= done);
                break ;
            },
        }
    }
    Some((nodes, keys))
}

/// Reads the directory authority's answer into the node addresses and the
/// keys of its entries, in the order in which they appear.
pub fn parse_array(parsable_string: String) -> (r: (Vec<String>, Vec<String>))
    requires
        answer_well_formed(encode_utf8(parsable_string@)),
    ensures
        r.0.len() == answer_entries(encode_utf8(parsable_string@)).len(),
        r.1.len() == answer_entries(encode_utf8(parsable_string@)).len(),
        forall|i: int|
            0 <= i < r.0.len() ==> encode_utf8(#[trigger] r.0[i]@) == entry_node(
                answer_entries(encode_utf8(parsable_string@))[i],
            ),
        forall|i: int|
            0 <= i < r.1.len() ==> encode_utf8(#[trigger] r.1[i]@) == entry_key(
                answer_entries(encode_utf8(parsable_string@))[i],
            ),
{
    match try_parse_array(parsable_string.as_str()) {
        Some(fields) => fields,
        None => (Vec::new(), Vec::new()),
    }
}

} // verus!
