use vstd::prelude::*;

use crate::bytesutil::copy_range;
use crate::bytesutil::push_all;
use crate::crypto::string_from_utf8;
use crate::errors::ContainerError;
use crate::tree::lemma_nodes_suffix_unfold;
use crate::tree::lemma_nodes_suffix_whole;
use crate::tree::nodes_suffix;
use crate::tree::Entry;
use crate::tree::EntryV;
use crate::tree::Group;
use crate::tree::Node;
use crate::tree::Value;
use crate::tree::GroupV;
use crate::tree::NodeV;
use crate::tree::ValueV;

verus! {

use vstd::bytes::spec_u128_from_le_bytes;
use vstd::bytes::spec_u128_to_le_bytes;
use vstd::bytes::spec_u64_from_le_bytes;
use vstd::bytes::spec_u64_to_le_bytes;
use vstd::utf8::decode_utf8;
use vstd::utf8::encode_utf8;
use vstd::utf8::valid_utf8;

// The payload wire format, the serialized form of the decrypted tree.
// All integers are little endian. A node is a tag byte (zero for a group,
// one for an entry), the node identifier as sixteen bytes, then for a group
// the length-prefixed UTF-8 name, a child count and the children in order;
// for an entry a field count and, per field, the length-prefixed UTF-8 name
// and a value. A value is a tag byte (zero for plain text, one for
// protected bytes) followed by its length-prefixed contents.
/// The eight-byte little-endian form of a length or count.
pub open spec fn enc_len(n: nat) -> Seq<u8> {
    spec_u64_to_le_bytes(n as u64)
}

/// The wire form of a string: its UTF-8 length, then its UTF-8 bytes.
pub open spec fn enc_str(s: Seq<char>) -> Seq<u8> {
    enc_len(encode_utf8(s).len()) + encode_utf8(s)
}

/// The wire form of raw bytes: their length, then the bytes.
pub open spec fn enc_bytes(b: Seq<u8>) -> Seq<u8> {
    enc_len(b.len()) + b
}

/// The wire form of a field value.
pub open spec fn enc_value(v: ValueV) -> Seq<u8> {
    match v {
        ValueV::Unprotected(s) => seq![0u8] + enc_str(s),
        ValueV::Protected(b) => seq![1u8] + enc_bytes(b),
    }
}

/// The wire form of a run of fields, in order.
pub open spec fn enc_fields(fs: Seq<(Seq<char>, ValueV)>) -> Seq<u8>
    decreases fs.len(),
{
    if fs.len() == 0 {
        Seq::<u8>::empty()
    } else {
        enc_str(fs[0].0) + enc_value(fs[0].1) + enc_fields(fs.drop_first())
    }
}

/// The wire form of an entry.
pub open spec fn enc_entry(e: EntryV) -> Seq<u8> {
    seq![1u8] + spec_u128_to_le_bytes(e.uuid) + enc_len(e.fields.len()) + enc_fields(e.fields)
}

/// The wire form of a node.
pub open spec fn enc_node(n: NodeV) -> Seq<u8>
    decreases n, 2nat,
{
    match n {
        NodeV::Group(g) => enc_group(g),
        NodeV::Entry(e) => enc_entry(e),
    }
}

/// The wire form of a group.
pub open spec fn enc_group(g: GroupV) -> Seq<u8>
    decreases g, 1nat,
{
    seq![0u8] + spec_u128_to_le_bytes(g.uuid) + enc_str(g.name) + enc_len(g.children.len())
        + enc_children(g.children)
}

/// The wire form of a run of nodes, in order.
pub open spec fn enc_children(s: Seq<NodeV>) -> Seq<u8>
    decreases s, 0nat,
{
    if s.len() == 0 {
        Seq::<u8>::empty()
    } else {
        enc_node(s[0]) + enc_children(s.drop_first())
    }
}

/// A string is encodable when its UTF-8 length fits the length prefix.
pub open spec fn wf_str(s: Seq<char>) -> bool {
    encode_utf8(s).len() <= u64::MAX
}

/// A value is encodable when its contents fit the length prefix.
pub open spec fn wf_value(v: ValueV) -> bool {
    match v {
        ValueV::Unprotected(s) => wf_str(s),
        ValueV::Protected(b) => b.len() <= u64::MAX,
    }
}

/// The fields of an entry are encodable when their number and every name
/// and value fit their length prefixes.
pub open spec fn wf_fields(fs: Seq<(Seq<char>, ValueV)>) -> bool {
    fs.len() <= u64::MAX && forall|i: int|
        0 <= i < fs.len() ==> wf_str(#[trigger] fs[i].0) && wf_value(fs[i].1)
}

/// A node is encodable when every length in its subtree fits its prefix.
pub open spec fn wf_node(n: NodeV) -> bool
    decreases n, 2nat,
{
    match n {
        NodeV::Group(g) => wf_group(g),
        NodeV::Entry(e) => wf_fields(e.fields),
    }
}

/// A group is encodable when its name, its child count and every child are.
pub open spec fn wf_group(g: GroupV) -> bool
    decreases g, 1nat,
{
    wf_str(g.name) && g.children.len() <= u64::MAX && wf_children(g.children)
}

/// A run of nodes is encodable when each of them is.
pub open spec fn wf_children(s: Seq<NodeV>) -> bool
    decreases s, 0nat,
{
    if s.len() == 0 {
        true
    } else {
        wf_node(s[0]) && wf_children(s.drop_first())
    }
}

/// The bytes of `b` from position `k` on; empty when `k` is out of range.
pub open spec fn tail(b: Seq<u8>, k: int) -> Seq<u8> {
    if 0 <= k <= b.len() {
        b.skip(k)
    } else {
        Seq::<u8>::empty()
    }
}

/// Decode a length prefix: the first eight bytes, little endian.
pub open spec fn dec_len(b: Seq<u8>) -> Option<(nat, int)> {
    if b.len() < 8 {
        None
    } else {
        Some((spec_u64_from_le_bytes(b.subrange(0, 8)) as nat, 8int))
    }
}

/// Decode a length-prefixed string; the bytes must be valid UTF-8.
pub open spec fn dec_str(b: Seq<u8>) -> Option<(Seq<char>, int)> {
    match dec_len(b) {
        Some((l, _)) => if l + 8 > b.len() {
            None
        } else {
            let bs = b.subrange(8, 8 + l as int);
            if valid_utf8(bs) {
                Some((decode_utf8(bs), 8 + l as int))
            } else {
                None
            }
        },
        None => None,
    }
}

/// Decode length-prefixed raw bytes.
pub open spec fn dec_bytes(b: Seq<u8>) -> Option<(Seq<u8>, int)> {
    match dec_len(b) {
        Some((l, _)) => if l + 8 > b.len() {
            None
        } else {
            Some((b.subrange(8, 8 + l as int), 8 + l as int))
        },
        None => None,
    }
}

/// Decode a field value.
pub open spec fn dec_value(b: Seq<u8>) -> Option<(ValueV, int)> {
    if b.len() < 1 {
        None
    } else if b[0] == 0u8 {
        match dec_str(b.drop_first()) {
            Some((s, k)) => Some((ValueV::Unprotected(s), 1 + k)),
            None => None,
        }
    } else if b[0] == 1u8 {
        match dec_bytes(b.drop_first()) {
            Some((bs, k)) => Some((ValueV::Protected(bs), 1 + k)),
            None => None,
        }
    } else {
        None
    }
}

/// Decode `n` fields in order.
pub open spec fn dec_fields(b: Seq<u8>, n: nat) -> Option<(Seq<(Seq<char>, ValueV)>, int)>
    decreases n,
{
    if n == 0 {
        Some((Seq::<(Seq<char>, ValueV)>::empty(), 0int))
    } else {
        match dec_str(b) {
            Some((name, k1)) => match dec_value(tail(b, k1)) {
                Some((v, k2)) => match dec_fields(tail(b, k1 + k2), (n - 1) as nat) {
                    Some((rest, k3)) => Some((seq![(name, v)] + rest, k1 + k2 + k3)),
                    None => None,
                },
                None => None,
            },
            None => None,
        }
    }
}

/// Decode one node from the front of `b`.
pub open spec fn dec_node(b: Seq<u8>) -> Option<(NodeV, int)>
    decreases b.len(), 0nat, 0nat,
{
    if b.len() < 1 {
        None
    } else if b[0] == 0u8 {
        let r1 = b.drop_first();
        if r1.len() < 16 {
            None
        } else {
            let uuid = spec_u128_from_le_bytes(r1.subrange(0, 16));
            match dec_str(tail(r1, 16)) {
                Some((name, k1)) => match dec_len(tail(r1, 16 + k1)) {
                    Some((n, _)) => match dec_children(tail(r1, 16 + k1 + 8), n) {
                        Some((ch, k2)) => Some(
                            (
                                NodeV::Group(GroupV { uuid, name, children: ch }),
                                1 + 16 + k1 + 8 + k2,
                            ),
                        ),
                        None => None,
                    },
                    None => None,
                },
                None => None,
            }
        }
    } else if b[0] == 1u8 {
        let r1 = b.drop_first();
        if r1.len() < 16 {
            None
        } else {
            let uuid = spec_u128_from_le_bytes(r1.subrange(0, 16));
            match dec_len(tail(r1, 16)) {
                Some((n, _)) => match dec_fields(tail(r1, 24), n) {
                    Some((fs, k3)) => Some(
                        (NodeV::Entry(EntryV { uuid, fields: fs }), 1 + 24 + k3),
                    ),
                    None => None,
                },
                None => None,
            }
        }
    } else {
        None
    }
}

/// Decode `n` nodes in order; each must consume at least one byte.
pub open spec fn dec_children(b: Seq<u8>, n: nat) -> Option<(Seq<NodeV>, int)>
    decreases b.len(), 1nat, n,
{
    if n == 0 {
        Some((Seq::<NodeV>::empty(), 0int))
    } else {
        match dec_node(b) {
            Some((nd, k)) => if k < 1 || k > b.len() {
                None
            } else {
                match dec_children(b.skip(k), (n - 1) as nat) {
                    Some((rest, k2)) => Some((seq![nd] + rest, k + k2)),
                    None => None,
                }
            },
            None => None,
        }
    }
}

/// A length written by `enc_len` reads back as itself.
pub proof fn lemma_enc_len(n: nat, rest: Seq<u8>)
    requires
        n <= u64::MAX,
    ensures
        enc_len(n).len() == 8,
        dec_len(enc_len(n) + rest) == Some((n, 8int)),
{
    vstd::bytes::lemma_auto_spec_u64_to_from_le_bytes();
    let b = enc_len(n) + rest;
    assert(b.subrange(0, 8) =~= enc_len(n));
}

/// A string written by `enc_str` reads back as itself.
pub proof fn lemma_enc_str(s: Seq<char>, rest: Seq<u8>)
    requires
        wf_str(s),
    ensures
        enc_str(s).len() == 8 + encode_utf8(s).len(),
        dec_str(enc_str(s) + rest) == Some((s, enc_str(s).len() as int)),
{
    let ub = encode_utf8(s);
    lemma_enc_len(ub.len(), ub + rest);
    let b = enc_str(s) + rest;
    assert(b =~= enc_len(ub.len()) + (ub + rest));
    assert(b.subrange(8, 8 + ub.len() as int) =~= ub);
    vstd::utf8::encode_utf8_valid_utf8(s);
    vstd::utf8::encode_utf8_decode_utf8(s);
}

/// Raw bytes written by `enc_bytes` read back as themselves.
pub proof fn lemma_enc_bytes(bs: Seq<u8>, rest: Seq<u8>)
    requires
        bs.len() <= u64::MAX,
    ensures
        enc_bytes(bs).len() == 8 + bs.len(),
        dec_bytes(enc_bytes(bs) + rest) == Some((bs, enc_bytes(bs).len() as int)),
{
    lemma_enc_len(bs.len(), bs + rest);
    let b = enc_bytes(bs) + rest;
    assert(b =~= enc_len(bs.len()) + (bs + rest));
    assert(b.subrange(8, 8 + bs.len() as int) =~= bs);
}

/// A value written by `enc_value` reads back as itself.
pub proof fn lemma_enc_value(v: ValueV, rest: Seq<u8>)
    requires
        wf_value(v),
    ensures
        enc_value(v).len() >= 1,
        dec_value(enc_value(v) + rest) == Some((v, enc_value(v).len() as int)),
{
    let b = enc_value(v) + rest;
    match v {
        ValueV::Unprotected(s) => {
            lemma_enc_str(s, rest);
            assert(b =~= seq![0u8] + (enc_str(s) + rest));
            assert(b[0] == 0u8);
            assert(b.drop_first() =~= enc_str(s) + rest);
        },
        ValueV::Protected(bs) => {
            lemma_enc_bytes(bs, rest);
            assert(b =~= seq![1u8] + (enc_bytes(bs) + rest));
            assert(b[0] == 1u8);
            assert(b.drop_first() =~= enc_bytes(bs) + rest);
        },
    }
}

/// A run of fields written by `enc_fields` reads back as itself.
#[verifier::rlimit(60)]
pub proof fn lemma_enc_fields(fs: Seq<(Seq<char>, ValueV)>, rest: Seq<u8>)
    requires
        wf_fields(fs),
    ensures
        dec_fields(enc_fields(fs) + rest, fs.len()) == Some((fs, enc_fields(fs).len() as int)),
    decreases fs.len(),
{
    if fs.len() == 0 {
        assert(fs =~= Seq::<(Seq<char>, ValueV)>::empty());
    } else {
        let name = fs[0].0;
        let v = fs[0].1;
        let s1 = enc_str(name);
        let s2 = enc_value(v);
        let s3 = enc_fields(fs.drop_first());
        let b = enc_fields(fs) + rest;
        assert(b =~= s1 + (s2 + (s3 + rest)));
        lemma_enc_str(name, s2 + (s3 + rest));
        let k1 = s1.len() as int;
        assert(tail(b, k1) =~= s2 + (s3 + rest));
        lemma_enc_value(v, s3 + rest);
        let k2 = s2.len() as int;
        assert(tail(b, k1 + k2) =~= s3 + rest);
        assert(wf_fields(fs.drop_first())) by {
            assert forall|i: int| 0 <= i < fs.drop_first().len() implies wf_str(
                #[trigger] fs.drop_first()[i].0,
            ) && wf_value(fs.drop_first()[i].1) by {
                assert(fs.drop_first()[i] == fs[i + 1]);
            }
        }
        lemma_enc_fields(fs.drop_first(), rest);
        assert((name, v) == fs[0]);
        assert(seq![fs[0]] + fs.drop_first() =~= fs);
    }
}

/// A node written by `enc_node` reads back as itself: the payload codec is
/// exactly invertible on encodable trees.
#[verifier::rlimit(90)]
#[verifier::spinoff_prover]
pub proof fn lemma_enc_node(n: NodeV, rest: Seq<u8>)
    requires
        wf_node(n),
    ensures
        enc_node(n).len() >= 1,
        dec_node(enc_node(n) + rest) == Some((n, enc_node(n).len() as int)),
    decreases n, 1nat,
{
    vstd::bytes::lemma_auto_spec_u128_to_from_le_bytes();
    let b = enc_node(n) + rest;
    match n {
        NodeV::Group(g) => {
            let u = spec_u128_to_le_bytes(g.uuid);
            let s = enc_str(g.name);
            let c = enc_len(g.children.len());
            let ch = enc_children(g.children);
            assert(b =~= seq![0u8] + (u + (s + (c + (ch + rest)))));
            assert(b[0] == 0u8);
            let r1 = b.drop_first();
            assert(r1 =~= u + (s + (c + (ch + rest))));
            assert(r1.subrange(0, 16) =~= u);
            lemma_enc_str(g.name, c + (ch + rest));
            let k1 = s.len() as int;
            assert(tail(r1, 16) =~= s + (c + (ch + rest)));
            lemma_enc_len(g.children.len(), ch + rest);
            assert(tail(r1, 16 + k1) =~= c + (ch + rest));
            lemma_enc_children(g.children, rest);
            assert(tail(r1, 16 + k1 + 8) =~= ch + rest);
            assert(GroupV { uuid: g.uuid, name: g.name, children: g.children } =~= g);
        },
        NodeV::Entry(e) => {
            let u = spec_u128_to_le_bytes(e.uuid);
            let c = enc_len(e.fields.len());
            let f = enc_fields(e.fields);
            assert(b =~= seq![1u8] + (u + (c + (f + rest))));
            assert(b[0] == 1u8);
            let r1 = b.drop_first();
            assert(r1 =~= u + (c + (f + rest)));
            assert(r1.subrange(0, 16) =~= u);
            lemma_enc_len(e.fields.len(), f + rest);
            assert(tail(r1, 16) =~= c + (f + rest));
            lemma_enc_fields(e.fields, rest);
            assert(tail(r1, 24) =~= f + rest);
            assert(EntryV { uuid: e.uuid, fields: e.fields } =~= e);
        },
    }
}

/// A run of nodes written by `enc_children` reads back as itself.
pub proof fn lemma_enc_children(s: Seq<NodeV>, rest: Seq<u8>)
    requires
        wf_children(s),
    ensures
        dec_children(enc_children(s) + rest, s.len()) == Some((s, enc_children(s).len() as int)),
    decreases s, 0nat,
{
    if s.len() == 0 {
        assert(enc_children(s) + rest =~= rest);
        assert(s =~= Seq::<NodeV>::empty());
    } else {
        let e = enc_node(s[0]);
        let r = enc_children(s.drop_first());
        let b = enc_children(s) + rest;
        assert(b =~= e + (r + rest));
        lemma_enc_node(s[0], r + rest);
        let k = e.len() as int;
        assert(b.skip(k) =~= r + rest);
        lemma_enc_children(s.drop_first(), rest);
        assert(seq![s[0]] + s.drop_first() =~= s);
    }
}

/// The models of the fields of `fs` from position `i` on.
pub open spec fn fields_suffix(fs: Seq<(String, Value)>, i: int) -> Seq<(Seq<char>, ValueV)> {
    Seq::new(if 0 <= i <= fs.len() {
        (fs.len() - i) as nat
    } else {
        0nat
    }, |j: int| (fs[i + j].0@, fs[i + j].1@))
}

proof fn lemma_fields_suffix_unfold(fs: Seq<(String, Value)>, i: int)
    requires
        0 <= i < fs.len(),
    ensures
        fields_suffix(fs, i).len() == fs.len() - i,
        fields_suffix(fs, i)[0] == (fs[i].0@, fs[i].1@),
        fields_suffix(fs, i).drop_first() =~= fields_suffix(fs, i + 1),
{
}

fn write_len(out: &mut Vec<u8>, n: u64)
    ensures
        final(out)@ == old(out)@ + enc_len(n as nat),
{
    let b = vstd::bytes::u64_to_le_bytes(n);
    push_all(out, &b);
}

fn write_str(out: &mut Vec<u8>, s: &String)
    ensures
        final(out)@ == old(out)@ + enc_str(s@),
        wf_str(s@),
{
    let ghost start = out@;
    let bs = s.as_str().as_bytes_vec();
    write_len(out, bs.len() as u64);
    push_all(out, &bs);
    proof {
        assert(out@ =~= start + enc_str(s@));
    }
}

fn write_bytes(out: &mut Vec<u8>, bs: &Vec<u8>)
    ensures
        final(out)@ == old(out)@ + enc_bytes(bs@),
        bs@.len() <= u64::MAX,
{
    let ghost start = out@;
    write_len(out, bs.len() as u64);
    push_all(out, bs);
    proof {
        assert(out@ =~= start + enc_bytes(bs@));
    }
}

fn encode_value(v: &Value, out: &mut Vec<u8>)
    ensures
        final(out)@ == old(out)@ + enc_value(v@),
        wf_value(v@),
{
    let ghost start = out@;
    match v {
        Value::Unprotected(s) => {
            out.push(0u8);
            write_str(out, s);
            proof {
                assert(out@ =~= start + enc_value(v@));
            }
        },
        Value::Protected(bs) => {
            out.push(1u8);
            write_bytes(out, bs);
            proof {
                assert(out@ =~= start + enc_value(v@));
            }
        },
    }
}

fn encode_fields(fields: &Vec<(String, Value)>, i: usize, out: &mut Vec<u8>)
    requires
        i <= fields@.len(),
    ensures
        final(out)@ == old(out)@ + enc_fields(fields_suffix(fields@, i as int)),
        wf_fields(fields_suffix(fields@, i as int)),
    decreases fields@.len() - i,
{
    if i == fields.len() {
        proof {
            assert(fields_suffix(fields@, i as int).len() == 0);
            assert(out@ =~= out@ + enc_fields(fields_suffix(fields@, i as int)));
            assert(wf_fields(fields_suffix(fields@, i as int)));
        }
    } else {
        let ghost start = out@;
        proof {
            lemma_fields_suffix_unfold(fields@, i as int);
        }
        write_str(out, &fields[i].0);
        encode_value(&fields[i].1, out);
        encode_fields(fields, i + 1, out);
        proof {
            let fsv = fields_suffix(fields@, i as int);
            assert(fsv.len() == fields@.len() - i);
            assert(fields@.len() <= usize::MAX);
            assert(fsv.len() <= u64::MAX);
            assert(out@ =~= start + enc_fields(fsv));
            assert forall|j: int| 0 <= j < fsv.len() implies wf_str(#[trigger] fsv[j].0)
                && wf_value(fsv[j].1) by {
                if j > 0 {
                    assert(fsv[j] == fields_suffix(fields@, i + 1)[j - 1]);
                } else {
                    assert(fsv[0] == (fields@[i as int].0@, fields@[i as int].1@));
                }
            }
            assert(wf_fields(fsv));
        }
    }
}

fn encode_entry(e: &Entry, out: &mut Vec<u8>)
    ensures
        final(out)@ == old(out)@ + enc_entry(e@),
        wf_node(NodeV::Entry(e@)),
{
    let ghost start = out@;
    out.push(1u8);
    let ub = vstd::bytes::u128_to_le_bytes(e.uuid);
    push_all(out, &ub);
    write_len(out, e.fields.len() as u64);
    encode_fields(&e.fields, 0, out);
    proof {
        assert(fields_suffix(e.fields@, 0) =~= e@.fields);
        assert(out@ =~= start + enc_entry(e@));
    }
}

/// Serialize a node into `out`; the written bytes are exactly `enc_node` of
/// its model, which the write shows to be encodable.
pub fn encode_node(n: &Node, out: &mut Vec<u8>)
    ensures
        final(out)@ == old(out)@ + enc_node(n@),
        wf_node(n@),
    decreases *n, 2nat,
{
    match n {
        Node::Group(g) => {
            encode_group(g, out);
        },
        Node::Entry(e) => {
            encode_entry(e, out);
        },
    }
}

/// Serialize a group into `out`; the written bytes are exactly `enc_group`
/// of its model, which the write shows to be encodable.
pub fn encode_group(g: &Group, out: &mut Vec<u8>)
    ensures
        final(out)@ == old(out)@ + enc_group(g@),
        wf_group(g@),
    decreases *g, 1nat,
{
    let ghost start = out@;
    out.push(0u8);
    let ub = vstd::bytes::u128_to_le_bytes(g.uuid);
    push_all(out, &ub);
    write_str(out, &g.name);
    write_len(out, g.children.len() as u64);
    encode_children(&g.children, 0, out);
    proof {
        lemma_nodes_suffix_whole(g.children@);
        assert(out@ =~= start + enc_group(g@));
    }
}

fn encode_children(children: &Vec<Node>, i: usize, out: &mut Vec<u8>)
    requires
        i <= children@.len(),
    ensures
        final(out)@ == old(out)@ + enc_children(nodes_suffix(children@, i as int)),
        wf_children(nodes_suffix(children@, i as int)),
    decreases *children, 0nat, children@.len() - i,
{
    if i == children.len() {
        proof {
            assert(out@ =~= out@ + enc_children(nodes_suffix(children@, i as int)));
        }
    } else {
        let ghost start = out@;
        proof {
            lemma_nodes_suffix_unfold(children@, i as int);
        }
        encode_node(&children[i], out);
        encode_children(children, i + 1, out);
        proof {
            assert(out@ =~= start + enc_children(nodes_suffix(children@, i as int)));
        }
    }
}

fn decode_len(b: &Vec<u8>, pos: usize) -> (r: Result<(u64, usize), ContainerError>)
    requires
        pos <= b@.len(),
    ensures
        match r {
            Ok((v, np)) => dec_len(tail(b@, pos as int)) == Some((v as nat, 8int)) && np == pos + 8
                && np <= b@.len(),
            Err(e) => e == ContainerError::SchemaViolation && dec_len(tail(b@, pos as int)) is None,
        },
{
    if b.len() - pos < 8 {
        return Err(ContainerError::SchemaViolation);
    }
    let s = vstd::slice::slice_subrange(b.as_slice(), pos, pos + 8);
    let v = vstd::bytes::u64_from_le_bytes(s);
    proof {
        assert(s@ =~= tail(b@, pos as int).subrange(0, 8));
    }
    Ok((v, pos + 8))
}

fn decode_str(b: &Vec<u8>, pos: usize) -> (r: Result<(String, usize), ContainerError>)
    requires
        pos <= b@.len(),
    ensures
        match r {
            Ok((s, np)) => dec_str(tail(b@, pos as int)) == Some((s@, np - pos as int)) && pos < np
                <= b@.len(),
            Err(e) => e == ContainerError::SchemaViolation && dec_str(tail(b@, pos as int)) is None,
        },
{
    let ghost t = tail(b@, pos as int);
    let (l, p1) = match decode_len(b, pos) {
        Ok(x) => x,
        Err(e) => {
            return Err(e);
        },
    };
    if l > (b.len() - p1) as u64 {
        proof {
            assert(l as nat + 8 > t.len());
        }
        return Err(ContainerError::SchemaViolation);
    }
    let ln = l as usize;
    let bs = copy_range(b, p1, p1 + ln);
    proof {
        assert(bs@ =~= t.subrange(8, 8 + l as int));
    }
    match string_from_utf8(bs) {
        Some(s) => Ok((s, p1 + ln)),
        None => Err(ContainerError::SchemaViolation),
    }
}

fn decode_bytes(b: &Vec<u8>, pos: usize) -> (r: Result<(Vec<u8>, usize), ContainerError>)
    requires
        pos <= b@.len(),
    ensures
        match r {
            Ok((bs, np)) => dec_bytes(tail(b@, pos as int)) == Some((bs@, np - pos as int)) && pos
                < np <= b@.len(),
            Err(e) => e == ContainerError::SchemaViolation && dec_bytes(
                tail(b@, pos as int),
            ) is None,
        },
{
    let ghost t = tail(b@, pos as int);
    let (l, p1) = match decode_len(b, pos) {
        Ok(x) => x,
        Err(e) => {
            return Err(e);
        },
    };
    if l > (b.len() - p1) as u64 {
        proof {
            assert(l as nat + 8 > t.len());
        }
        return Err(ContainerError::SchemaViolation);
    }
    let ln = l as usize;
    let bs = copy_range(b, p1, p1 + ln);
    proof {
        assert(bs@ =~= t.subrange(8, 8 + l as int));
    }
    Ok((bs, p1 + ln))
}

fn decode_value(b: &Vec<u8>, pos: usize) -> (r: Result<(Value, usize), ContainerError>)
    requires
        pos <= b@.len(),
    ensures
        match r {
            Ok((v, np)) => dec_value(tail(b@, pos as int)) == Some((v@, np - pos as int)) && pos
                < np <= b@.len(),
            Err(e) => e == ContainerError::SchemaViolation && dec_value(
                tail(b@, pos as int),
            ) is None,
        },
{
    let ghost t = tail(b@, pos as int);
    if pos == b.len() {
        return Err(ContainerError::SchemaViolation);
    }
    let tag = b[pos];
    proof {
        assert(t[0] == b@[pos as int]);
        assert(t.drop_first() =~= tail(b@, pos as int + 1));
    }
    if tag == 0u8 {
        match decode_str(b, pos + 1) {
            Ok((s, np)) => Ok((Value::Unprotected(s), np)),
            Err(e) => Err(e),
        }
    } else if tag == 1u8 {
        match decode_bytes(b, pos + 1) {
            Ok((bs, np)) => Ok((Value::Protected(bs), np)),
            Err(e) => Err(e),
        }
    } else {
        Err(ContainerError::SchemaViolation)
    }
}

fn decode_fields(b: &Vec<u8>, pos: usize, n: u64) -> (r: Result<
    (Vec<(String, Value)>, usize),
    ContainerError,
>)
    requires
        pos <= b@.len(),
    ensures
        match r {
            Ok((fs, np)) => dec_fields(tail(b@, pos as int), n as nat) == Some(
                (fields_suffix(fs@, 0), np - pos as int),
            ) && pos <= np <= b@.len(),
            Err(e) => e == ContainerError::SchemaViolation && dec_fields(
                tail(b@, pos as int),
                n as nat,
            ) is None,
        },
    decreases n,
{
    let ghost t = tail(b@, pos as int);
    if n == 0 {
        let fs: Vec<(String, Value)> = Vec::new();
        proof {
            assert(fields_suffix(fs@, 0) =~= Seq::<(Seq<char>, ValueV)>::empty());
        }
        return Ok((fs, pos));
    }
    let (name, p1) = match decode_str(b, pos) {
        Ok(x) => x,
        Err(e) => {
            return Err(e);
        },
    };
    proof {
        assert(tail(b@, p1 as int) =~= tail(t, p1 - pos as int));
        assert(tail(t, p1 - pos as int) == tail(tail(b@, pos as int), p1 - pos as int));
    }
    let (v, p2) = match decode_value(b, p1) {
        Ok(x) => x,
        Err(e) => {
            return Err(e);
        },
    };
    proof {
        assert(tail(b@, p2 as int) =~= tail(t, p2 - pos as int));
    }
    let (mut rest, p3) = match decode_fields(b, p2, n - 1) {
        Ok(x) => x,
        Err(e) => {
            return Err(e);
        },
    };
    rest.insert(0, (name, v));
    proof {
        let whole = fields_suffix(rest@, 0);
        let restv = fields_suffix(rest@.drop_first(), 0);
        assert(whole[0] == (name@, v@));
        assert(whole.drop_first() =~= restv);
        assert(whole =~= seq![(name@, v@)] + restv);
    }
    Ok((rest, p3))
}

/// Decode one node from position `pos` of `b`, mirroring `dec_node`.
#[verifier::rlimit(90)]
#[verifier::spinoff_prover]
pub fn decode_node(b: &Vec<u8>, pos: usize) -> (r: Result<(Node, usize), ContainerError>)
    requires
        pos <= b@.len(),
    ensures
        match r {
            Ok((nd, np)) => dec_node(tail(b@, pos as int)) == Some((nd@, np - pos as int)) && pos
                < np <= b@.len(),
            Err(e) => e == ContainerError::SchemaViolation && dec_node(
                tail(b@, pos as int),
            ) is None,
        },
    decreases b@.len() - pos, 0nat, 0nat,
{
    let ghost t = tail(b@, pos as int);
    if pos == b.len() {
        return Err(ContainerError::SchemaViolation);
    }
    let tag = b[pos];
    proof {
        assert(t[0] == b@[pos as int]);
        assert(t.drop_first() =~= tail(b@, pos as int + 1));
    }
    let p0 = pos + 1;
    let ghost r1 = t.drop_first();
    if tag == 0u8 {
        if b.len() - p0 < 16 {
            return Err(ContainerError::SchemaViolation);
        }
        let us = vstd::slice::slice_subrange(b.as_slice(), p0, p0 + 16);
        let uuid = vstd::bytes::u128_from_le_bytes(us);
        proof {
            assert(us@ =~= r1.subrange(0, 16));
            assert(tail(b@, p0 + 16) =~= tail(r1, 16));
        }
        let (name, p1) = match decode_str(b, p0 + 16) {
            Ok(x) => x,
            Err(e) => {
                return Err(e);
            },
        };
        proof {
            assert(tail(b@, p1 as int) =~= tail(r1, 16 + (p1 - p0 - 16)));
        }
        let (cnt, p2) = match decode_len(b, p1) {
            Ok(x) => x,
            Err(e) => {
                return Err(e);
            },
        };
        proof {
            assert(tail(b@, p2 as int) =~= tail(r1, 16 + (p1 - p0 - 16) + 8));
        }
        let (children, p3) = match decode_children(b, p2, cnt) {
            Ok(x) => x,
            Err(e) => {
                return Err(e);
            },
        };
        let g = Group { uuid, name, children };
        proof {
            lemma_nodes_suffix_whole(g.children@);
            assert(g@ =~= GroupV {
                uuid: uuid,
                name: g.name@,
                children: nodes_suffix(g.children@, 0),
            });
        }
        Ok((Node::Group(g), p3))
    } else if tag == 1u8 {
        if b.len() - p0 < 16 {
            return Err(ContainerError::SchemaViolation);
        }
        let us = vstd::slice::slice_subrange(b.as_slice(), p0, p0 + 16);
        let uuid = vstd::bytes::u128_from_le_bytes(us);
        proof {
            assert(us@ =~= r1.subrange(0, 16));
            assert(tail(b@, p0 + 16) =~= tail(r1, 16));
        }
        let (cnt, p2) = match decode_len(b, p0 + 16) {
            Ok(x) => x,
            Err(e) => {
                return Err(e);
            },
        };
        proof {
            assert(tail(b@, p2 as int) =~= tail(r1, 24));
        }
        let (fields, p3) = match decode_fields(b, p2, cnt) {
            Ok(x) => x,
            Err(e) => {
                return Err(e);
            },
        };
        let e = Entry { uuid, fields };
        proof {
            assert(e@ =~= EntryV { uuid: uuid, fields: fields_suffix(e.fields@, 0) });
        }
        Ok((Node::Entry(e), p3))
    } else {
        Err(ContainerError::SchemaViolation)
    }
}

fn decode_children(b: &Vec<u8>, pos: usize, n: u64) -> (r: Result<
    (Vec<Node>, usize),
    ContainerError,
>)
    requires
        pos <= b@.len(),
    ensures
        match r {
            Ok((ch, np)) => dec_children(tail(b@, pos as int), n as nat) == Some(
                (nodes_suffix(ch@, 0), np - pos as int),
            ) && pos <= np <= b@.len(),
            Err(e) => e == ContainerError::SchemaViolation && dec_children(
                tail(b@, pos as int),
                n as nat,
            ) is None,
        },
    decreases b@.len() - pos, 1nat, n,
{
    let ghost t = tail(b@, pos as int);
    if n == 0 {
        let ch: Vec<Node> = Vec::new();
        proof {
            assert(nodes_suffix(ch@, 0) =~= Seq::<NodeV>::empty());
        }
        return Ok((ch, pos));
    }
    let (nd, p1) = match decode_node(b, pos) {
        Ok(x) => x,
        Err(e) => {
            return Err(e);
        },
    };
    proof {
        assert(t.skip(p1 - pos as int) =~= tail(b@, p1 as int));
    }
    let (mut rest, p2) = match decode_children(b, p1, n - 1) {
        Ok(x) => x,
        Err(e) => {
            return Err(e);
        },
    };
    rest.insert(0, nd);
    proof {
        crate::tree::lemma_nodes_view(rest@);
        let whole = nodes_suffix(rest@, 0);
        let restv = nodes_suffix(rest@.drop_first(), 0);
        assert(whole[0] == crate::tree::node_view(rest@[0]));
        assert(whole.drop_first() =~= restv);
        assert(whole =~= seq![crate::tree::node_view(nd)] + restv);
    }
    Ok((rest, p2))
}

/// What opening a payload yields: the root group when the bytes are exactly
/// the wire form of one group node, else `SchemaViolation`.
pub open spec fn spec_decode_payload(b: Seq<u8>) -> Result<GroupV, ContainerError> {
    match dec_node(b) {
        Some((NodeV::Group(g), k)) => if k == b.len() {
            Ok(g)
        } else {
            Err(ContainerError::SchemaViolation)
        },
        _ => Err(ContainerError::SchemaViolation),
    }
}

/// Serialize a whole tree into its payload wire form.
pub fn encode_payload(root: &Group) -> (r: Vec<u8>)
    ensures
        r@ == enc_group(root@),
        wf_group(root@),
{
    let mut out: Vec<u8> = Vec::new();
    encode_group(root, &mut out);
    proof {
        assert(out@ =~= enc_group(root@));
    }
    out
}

/// Decode a whole tree from its payload wire form; the bytes must hold
/// exactly one group node.
pub fn decode_payload(b: &Vec<u8>) -> (r: Result<Group, ContainerError>)
    ensures
        match r {
            Ok(g) => spec_decode_payload(b@) == Ok::<GroupV, ContainerError>(g@),
            Err(e) => spec_decode_payload(b@) == Err::<GroupV, ContainerError>(e),
        },
{
    proof {
        assert(tail(b@, 0) =~= b@);
    }
    match decode_node(b, 0) {
        Ok((nd, np)) => {
            if np != b.len() {
                return Err(ContainerError::SchemaViolation);
            }
            match nd {
                Node::Group(g) => Ok(g),
                Node::Entry(_) => Err(ContainerError::SchemaViolation),
            }
        },
        Err(e) => Err(e),
    }
}

/// The round trip of the payload codec: decoding an encoded tree gives the
/// tree back, structural equality included.
pub proof fn lemma_payload_round_trip(g: GroupV)
    requires
        wf_group(g),
    ensures
        spec_decode_payload(enc_group(g)) == Ok::<GroupV, ContainerError>(g),
{
    lemma_enc_node(NodeV::Group(g), Seq::<u8>::empty());
    assert(enc_node(NodeV::Group(g)) + Seq::<u8>::empty() =~= enc_group(g));
}

} // verus!
