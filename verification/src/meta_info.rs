//! The content descriptor: its structure, its canonical byte encoding
//! (dictionary keys sorted lexicographically, integers minimal), and the
//! 20-byte content id derived from the info section.
//!
//! Byte strings of the descriptor format are held as byte vectors: the
//! format does not promise UTF-8.
use vstd::prelude::*;
use vstd::seq_lib::lemma_concat_associative;

use crate::bencode::{
    at_seq, bytes_at, bytes_eq, dec_digits, enc_bytes, enc_int, int_at, is_digit,
    lemma_at_seq_split, lemma_at_seq_take,
    lemma_at_seq_within, lemma_bytes_at_parts, lemma_dec_digits_shape, lemma_enc_bytes_unique,
    lemma_subrange_split, parse_bytes, parse_int, push_bytes, push_int, push_slice, TOK_DICT,
    TOK_END, TOK_LIST,
};
use crate::utils::{replace_all, replace_all_bytes, replace_first, replace_first_bytes};
use crate::errors::DescriptorError;
use crate::hashing::{
    ascii_chars_of, ascii_to_string, hex_encode, hex_of, lemma_pct_encoded_ascii, pct_encoded,
    percent_encode_all, sha1_digest, sha1_of,
};

verus! {

/// Key "files".
pub const KEY_FILES: [u8; 5] = [102u8, 105u8, 108u8, 101u8, 115u8];

/// Key "length".
pub const KEY_LENGTH: [u8; 6] = [108u8, 101u8, 110u8, 103u8, 116u8, 104u8];

/// Key "md5sum".
pub const KEY_MD5SUM: [u8; 6] = [109u8, 100u8, 53u8, 115u8, 117u8, 109u8];

/// Key "name".
pub const KEY_NAME: [u8; 4] = [110u8, 97u8, 109u8, 101u8];

/// Key "path".
pub const KEY_PATH: [u8; 4] = [112u8, 97u8, 116u8, 104u8];

/// Key "piece length".
pub const KEY_PIECE_LENGTH: [u8; 12] = [
    112u8,
    105u8,
    101u8,
    99u8,
    101u8,
    32u8,
    108u8,
    101u8,
    110u8,
    103u8,
    116u8,
    104u8,
];

/// Key "pieces".
pub const KEY_PIECES: [u8; 6] = [112u8, 105u8, 101u8, 99u8, 101u8, 115u8];

/// Key "private".
pub const KEY_PRIVATE: [u8; 7] = [112u8, 114u8, 105u8, 118u8, 97u8, 116u8, 101u8];

/// Key "root hash".
pub const KEY_ROOT_HASH: [u8; 9] = [114u8, 111u8, 111u8, 116u8, 32u8, 104u8, 97u8, 115u8, 104u8];

/// Key "announce".
pub const KEY_ANNOUNCE: [u8; 8] = [97u8, 110u8, 110u8, 111u8, 117u8, 110u8, 99u8, 101u8];

/// Key "announce-list".
pub const KEY_ANNOUNCE_LIST: [u8; 13] = [
    97u8,
    110u8,
    110u8,
    111u8,
    117u8,
    110u8,
    99u8,
    101u8,
    45u8,
    108u8,
    105u8,
    115u8,
    116u8,
];

/// Key "comment".
pub const KEY_COMMENT: [u8; 7] = [99u8, 111u8, 109u8, 109u8, 101u8, 110u8, 116u8];

/// Key "created by".
pub const KEY_CREATED_BY: [u8; 10] = [
    99u8,
    114u8,
    101u8,
    97u8,
    116u8,
    101u8,
    100u8,
    32u8,
    98u8,
    121u8,
];

/// Key "creation date".
pub const KEY_CREATION_DATE: [u8; 13] = [
    99u8,
    114u8,
    101u8,
    97u8,
    116u8,
    105u8,
    111u8,
    110u8,
    32u8,
    100u8,
    97u8,
    116u8,
    101u8,
];

/// Key "encoding".
pub const KEY_ENCODING: [u8; 8] = [101u8, 110u8, 99u8, 111u8, 100u8, 105u8, 110u8, 103u8];

/// Key "httpseeds".
pub const KEY_HTTPSEEDS: [u8; 9] = [104u8, 116u8, 116u8, 112u8, 115u8, 101u8, 101u8, 100u8, 115u8];

/// Key "info".
pub const KEY_INFO: [u8; 4] = [105u8, 110u8, 102u8, 111u8];

/// Key "nodes".
pub const KEY_NODES: [u8; 5] = [110u8, 111u8, 100u8, 101u8, 115u8];

/// One file of a multi-file descriptor: relative path components and length.
pub struct File {
    pub path: Vec<Vec<u8>>,
    pub length: i64,
    pub md5sum: Option<Vec<u8>>,
}

/// A DHT bootstrap node: host and port.
pub struct Node(pub Vec<u8>, pub i64);

/// The info section of a descriptor: the part whose canonical encoding is
/// digested into the content id.
pub struct Info {
    pub name: Vec<u8>,
    pub pieces: Vec<u8>,
    pub piece_length: i64,
    pub md5sum: Option<Vec<u8>>,
    pub length: Option<i64>,
    pub files: Option<Vec<File>>,
    pub private: Option<u8>,
    pub path: Option<Vec<Vec<u8>>>,
    pub root_hash: Option<Vec<u8>>,
}

/// A whole descriptor: the info section plus tracker and bookkeeping fields.
pub struct MetaInfo {
    pub info: Info,
    pub announce: Option<Vec<u8>>,
    pub nodes: Option<Vec<Node>>,
    pub encoding: Option<Vec<u8>>,
    pub httpseeds: Option<Vec<Vec<u8>>>,
    pub announce_list: Option<Vec<Vec<Vec<u8>>>>,
    pub creation_date: Option<i64>,
    pub comment: Option<Vec<u8>>,
    pub created_by: Option<Vec<u8>>,
}

/// An optional key/byte-string pair; absent fields contribute nothing.
pub open spec fn opt_bytes_field(key: Seq<u8>, v: Option<Vec<u8>>) -> Seq<u8> {
    match v {
        Some(b) => enc_bytes(key) + enc_bytes(b@),
        None => Seq::empty(),
    }
}

/// An optional key/integer pair; absent fields contribute nothing.
pub open spec fn opt_int_field(key: Seq<u8>, v: Option<i64>) -> Seq<u8> {
    match v {
        Some(i) => enc_bytes(key) + enc_int(i as int),
        None => Seq::empty(),
    }
}


/// An optional key/file-list pair; absent fields contribute nothing.
pub open spec fn opt_file_list_field(key: Seq<u8>, v: Option<Vec<File>>) -> Seq<u8> {
    match v {
        Some(fs) => enc_bytes(key) + enc_file_list(fs@),
        None => Seq::empty(),
    }
}

/// An optional key/string-list pair; absent fields contribute nothing.
pub open spec fn opt_str_list_field(key: Seq<u8>, v: Option<Vec<Vec<u8>>>) -> Seq<u8> {
    match v {
        Some(l) => enc_bytes(key) + enc_str_list(l@),
        None => Seq::empty(),
    }
}

/// An optional key/list-of-string-lists pair; absent fields contribute
/// nothing.
pub open spec fn opt_str_list_list_field(key: Seq<u8>, v: Option<Vec<Vec<Vec<u8>>>>) -> Seq<u8> {
    match v {
        Some(l) => enc_bytes(key) + enc_str_list_list(l@),
        None => Seq::empty(),
    }
}

/// An optional key/node-list pair; absent fields contribute nothing.
pub open spec fn opt_node_list_field(key: Seq<u8>, v: Option<Vec<Node>>) -> Seq<u8> {
    match v {
        Some(l) => enc_bytes(key) + enc_node_list(l@),
        None => Seq::empty(),
    }
}

/// An optional key/byte pair; absent fields contribute nothing.
pub open spec fn opt_u8_field(key: Seq<u8>, v: Option<u8>) -> Seq<u8> {
    match v {
        Some(b) => enc_bytes(key) + enc_int(b as int),
        None => Seq::empty(),
    }
}

/// A required key/byte-string pair.
pub open spec fn req_bytes_field(key: Seq<u8>, v: Vec<u8>) -> Seq<u8> {
    enc_bytes(key) + enc_bytes(v@)
}

/// A required key/integer pair.
pub open spec fn req_int_field(key: Seq<u8>, v: i64) -> Seq<u8> {
    enc_bytes(key) + enc_int(v as int)
}

/// Concatenated encodings of a list of byte strings.
pub open spec fn enc_str_items(l: Seq<Vec<u8>>) -> Seq<u8>
    decreases l.len(),
{
    if l.len() == 0 {
        Seq::empty()
    } else {
        enc_str_items(l.drop_last()) + enc_bytes(l.last()@)
    }
}

/// Canonical encoding of a list of byte strings.
pub open spec fn enc_str_list(l: Seq<Vec<u8>>) -> Seq<u8> {
    seq![TOK_LIST] + enc_str_items(l) + seq![TOK_END]
}

/// Concatenated encodings of a list of string lists.
pub open spec fn enc_str_list_items(l: Seq<Vec<Vec<u8>>>) -> Seq<u8>
    decreases l.len(),
{
    if l.len() == 0 {
        Seq::empty()
    } else {
        enc_str_list_items(l.drop_last()) + enc_str_list(l.last()@)
    }
}

/// Canonical encoding of a list of string lists (the announce tiers).
pub open spec fn enc_str_list_list(l: Seq<Vec<Vec<u8>>>) -> Seq<u8> {
    seq![TOK_LIST] + enc_str_list_items(l) + seq![TOK_END]
}

/// Canonical encoding of one file entry.
pub open spec fn enc_file(f: File) -> Seq<u8> {
    seq![TOK_DICT] + enc_bytes(KEY_LENGTH@) + enc_int(f.length as int) + opt_bytes_field(
        KEY_MD5SUM@,
        f.md5sum,
    ) + enc_bytes(KEY_PATH@) + enc_str_list(f.path@) + seq![TOK_END]
}

/// Concatenated encodings of the file entries.
pub open spec fn enc_file_items(l: Seq<File>) -> Seq<u8>
    decreases l.len(),
{
    if l.len() == 0 {
        Seq::empty()
    } else {
        enc_file_items(l.drop_last()) + enc_file(l.last())
    }
}

/// Canonical encoding of the file list.
pub open spec fn enc_file_list(l: Seq<File>) -> Seq<u8> {
    seq![TOK_LIST] + enc_file_items(l) + seq![TOK_END]
}

/// Canonical encoding of one node entry (a two-element list).
pub open spec fn enc_node(n: Node) -> Seq<u8> {
    seq![TOK_LIST] + enc_bytes(n.0@) + enc_int(n.1 as int) + seq![TOK_END]
}

/// Concatenated encodings of the node entries.
pub open spec fn enc_node_items(l: Seq<Node>) -> Seq<u8>
    decreases l.len(),
{
    if l.len() == 0 {
        Seq::empty()
    } else {
        enc_node_items(l.drop_last()) + enc_node(l.last())
    }
}

/// Canonical encoding of the node list.
pub open spec fn enc_node_list(l: Seq<Node>) -> Seq<u8> {
    seq![TOK_LIST] + enc_node_items(l) + seq![TOK_END]
}

/// Canonical encoding of the info section: keys in lexicographic order,
/// absent optional fields omitted.
pub open spec fn enc_info(i: Info) -> Seq<u8> {
    seq![TOK_DICT] + opt_file_list_field(KEY_FILES@, i.files) + opt_int_field(KEY_LENGTH@, i.length)
        + opt_bytes_field(KEY_MD5SUM@, i.md5sum) + req_bytes_field(KEY_NAME@, i.name)
        + opt_str_list_field(KEY_PATH@, i.path) + req_int_field(KEY_PIECE_LENGTH@, i.piece_length)
        + req_bytes_field(KEY_PIECES@, i.pieces) + opt_u8_field(KEY_PRIVATE@, i.private)
        + opt_bytes_field(KEY_ROOT_HASH@, i.root_hash) + seq![TOK_END]
}

/// The required info entry: its key and the canonical info encoding.
pub open spec fn info_field(i: Info) -> Seq<u8> {
    enc_bytes(KEY_INFO@) + enc_info(i)
}

/// Canonical encoding of a whole descriptor.
pub open spec fn enc_meta_info(m: MetaInfo) -> Seq<u8> {
    seq![TOK_DICT] + opt_bytes_field(KEY_ANNOUNCE@, m.announce) + opt_str_list_list_field(
        KEY_ANNOUNCE_LIST@,
        m.announce_list,
    ) + opt_bytes_field(KEY_COMMENT@, m.comment) + opt_bytes_field(KEY_CREATED_BY@, m.created_by)
        + opt_int_field(KEY_CREATION_DATE@, m.creation_date) + opt_bytes_field(
        KEY_ENCODING@,
        m.encoding,
    ) + opt_str_list_field(KEY_HTTPSEEDS@, m.httpseeds) + info_field(m.info)
        + opt_node_list_field(KEY_NODES@, m.nodes) + seq![TOK_END]
}

/// Appends the canonical encoding of a list of byte strings.
pub fn push_str_list(out: &mut Vec<u8>, l: &Vec<Vec<u8>>)
    ensures
        final(out)@ == old(out)@ + enc_str_list(l@),
{
    out.push(TOK_LIST);
    let n = l.len();
    let mut i: usize = 0;
    proof {
        assert(enc_str_items(l@.take(0)) =~= Seq::<u8>::empty());
        assert(out@ =~= old(out)@ + seq![TOK_LIST] + enc_str_items(l@.take(0)));
    }
    while i < n
        invariant
            i <= n,
            n == l@.len(),
            out@ == old(out)@ + seq![TOK_LIST] + enc_str_items(l@.take(i as int)),
        decreases n - i,
    {
        proof {
            assert(l@.take(i + 1).drop_last() =~= l@.take(i as int));
            assert(l@.take(i + 1).last() == l@[i as int]);
        }
        push_bytes(out, l[i].as_slice());
        i = i + 1;
        proof {
            assert(out@ =~= old(out)@ + seq![TOK_LIST] + enc_str_items(l@.take(i as int)));
        }
    }
    out.push(TOK_END);
    proof {
        assert(l@.take(n as int) =~= l@);
        assert(out@ =~= old(out)@ + enc_str_list(l@));
    }
}

/// Appends the canonical encoding of a list of string lists.
pub fn push_str_list_list(out: &mut Vec<u8>, l: &Vec<Vec<Vec<u8>>>)
    ensures
        final(out)@ == old(out)@ + enc_str_list_list(l@),
{
    out.push(TOK_LIST);
    let n = l.len();
    let mut i: usize = 0;
    proof {
        assert(enc_str_list_items(l@.take(0)) =~= Seq::<u8>::empty());
        assert(out@ =~= old(out)@ + seq![TOK_LIST] + enc_str_list_items(l@.take(0)));
    }
    while i < n
        invariant
            i <= n,
            n == l@.len(),
            out@ == old(out)@ + seq![TOK_LIST] + enc_str_list_items(l@.take(i as int)),
        decreases n - i,
    {
        proof {
            assert(l@.take(i + 1).drop_last() =~= l@.take(i as int));
            assert(l@.take(i + 1).last() == l@[i as int]);
        }
        push_str_list(out, &l[i]);
        i = i + 1;
        proof {
            assert(out@ =~= old(out)@ + seq![TOK_LIST] + enc_str_list_items(l@.take(i as int)));
        }
    }
    out.push(TOK_END);
    proof {
        assert(l@.take(n as int) =~= l@);
        assert(out@ =~= old(out)@ + enc_str_list_list(l@));
    }
}

/// Appends the canonical encoding of one file entry.
pub fn push_file(out: &mut Vec<u8>, f: &File)
    ensures
        final(out)@ == old(out)@ + enc_file(*f),
{
    out.push(TOK_DICT);
    push_bytes(out, KEY_LENGTH.as_slice());
    push_int(out, f.length);
    if let Some(m) = &f.md5sum {
        push_bytes(out, KEY_MD5SUM.as_slice());
        push_bytes(out, m.as_slice());
    }
    push_bytes(out, KEY_PATH.as_slice());
    push_str_list(out, &f.path);
    out.push(TOK_END);
    proof {
        assert(out@ =~= old(out)@ + enc_file(*f));
    }
}

/// Appends the canonical encoding of the file list.
pub fn push_file_list(out: &mut Vec<u8>, l: &Vec<File>)
    ensures
        final(out)@ == old(out)@ + enc_file_list(l@),
{
    out.push(TOK_LIST);
    let n = l.len();
    let mut i: usize = 0;
    proof {
        assert(enc_file_items(l@.take(0)) =~= Seq::<u8>::empty());
        assert(out@ =~= old(out)@ + seq![TOK_LIST] + enc_file_items(l@.take(0)));
    }
    while i < n
        invariant
            i <= n,
            n == l@.len(),
            out@ == old(out)@ + seq![TOK_LIST] + enc_file_items(l@.take(i as int)),
        decreases n - i,
    {
        proof {
            assert(l@.take(i + 1).drop_last() =~= l@.take(i as int));
            assert(l@.take(i + 1).last() == l@[i as int]);
        }
        push_file(out, &l[i]);
        i = i + 1;
        proof {
            assert(out@ =~= old(out)@ + seq![TOK_LIST] + enc_file_items(l@.take(i as int)));
        }
    }
    out.push(TOK_END);
    proof {
        assert(l@.take(n as int) =~= l@);
        assert(out@ =~= old(out)@ + enc_file_list(l@));
    }
}

/// Appends the canonical encoding of the node list.
pub fn push_node_list(out: &mut Vec<u8>, l: &Vec<Node>)
    ensures
        final(out)@ == old(out)@ + enc_node_list(l@),
{
    out.push(TOK_LIST);
    let n = l.len();
    let mut i: usize = 0;
    proof {
        assert(enc_node_items(l@.take(0)) =~= Seq::<u8>::empty());
        assert(out@ =~= old(out)@ + seq![TOK_LIST] + enc_node_items(l@.take(0)));
    }
    while i < n
        invariant
            i <= n,
            n == l@.len(),
            out@ == old(out)@ + seq![TOK_LIST] + enc_node_items(l@.take(i as int)),
        decreases n - i,
    {
        proof {
            assert(l@.take(i + 1).drop_last() =~= l@.take(i as int));
            assert(l@.take(i + 1).last() == l@[i as int]);
        }
        out.push(TOK_LIST);
        push_bytes(out, l[i].0.as_slice());
        push_int(out, l[i].1);
        out.push(TOK_END);
        i = i + 1;
        proof {
            assert(out@ =~= old(out)@ + seq![TOK_LIST] + enc_node_items(l@.take(i as int)));
        }
    }
    out.push(TOK_END);
    proof {
        assert(l@.take(n as int) =~= l@);
        assert(out@ =~= old(out)@ + enc_node_list(l@));
    }
}


/// Appends one optional byte-string field.
pub fn push_opt_bytes_field(out: &mut Vec<u8>, key: &[u8], v: &Option<Vec<u8>>)
    ensures
        final(out)@ == old(out)@ + opt_bytes_field(key@, *v),
{
    if let Some(b) = v {
        push_bytes(out, key);
        push_bytes(out, b.as_slice());
        proof {
            assert(out@ =~= old(out)@ + opt_bytes_field(key@, *v));
        }
    } else {
        proof {
            assert(out@ =~= old(out)@ + opt_bytes_field(key@, *v));
        }
    }
}

/// Appends one optional integer field.
pub fn push_opt_int_field(out: &mut Vec<u8>, key: &[u8], v: &Option<i64>)
    ensures
        final(out)@ == old(out)@ + opt_int_field(key@, *v),
{
    if let Some(i) = v {
        push_bytes(out, key);
        push_int(out, *i);
        proof {
            assert(out@ =~= old(out)@ + opt_int_field(key@, *v));
        }
    } else {
        proof {
            assert(out@ =~= old(out)@ + opt_int_field(key@, *v));
        }
    }
}

/// Appends one optional single-byte integer field.
pub fn push_opt_u8_field(out: &mut Vec<u8>, key: &[u8], v: &Option<u8>)
    ensures
        final(out)@ == old(out)@ + opt_u8_field(key@, *v),
{
    if let Some(b) = v {
        push_bytes(out, key);
        push_int(out, *b as i64);
        proof {
            assert(out@ =~= old(out)@ + opt_u8_field(key@, *v));
        }
    } else {
        proof {
            assert(out@ =~= old(out)@ + opt_u8_field(key@, *v));
        }
    }
}

/// Appends one optional string-list field.
pub fn push_opt_str_list_field(out: &mut Vec<u8>, key: &[u8], v: &Option<Vec<Vec<u8>>>)
    ensures
        final(out)@ == old(out)@ + opt_str_list_field(key@, *v),
{
    if let Some(l) = v {
        push_bytes(out, key);
        push_str_list(out, l);
        proof {
            assert(out@ =~= old(out)@ + opt_str_list_field(key@, *v));
        }
    } else {
        proof {
            assert(out@ =~= old(out)@ + opt_str_list_field(key@, *v));
        }
    }
}

/// Appends one optional field holding a list of string lists.
pub fn push_opt_str_list_list_field(out: &mut Vec<u8>, key: &[u8], v: &Option<Vec<Vec<Vec<u8>>>>)
    ensures
        final(out)@ == old(out)@ + opt_str_list_list_field(key@, *v),
{
    if let Some(l) = v {
        push_bytes(out, key);
        push_str_list_list(out, l);
        proof {
            assert(out@ =~= old(out)@ + opt_str_list_list_field(key@, *v));
        }
    } else {
        proof {
            assert(out@ =~= old(out)@ + opt_str_list_list_field(key@, *v));
        }
    }
}

/// Appends one optional file-list field.
pub fn push_opt_file_list_field(out: &mut Vec<u8>, key: &[u8], v: &Option<Vec<File>>)
    ensures
        final(out)@ == old(out)@ + opt_file_list_field(key@, *v),
{
    if let Some(l) = v {
        push_bytes(out, key);
        push_file_list(out, l);
        proof {
            assert(out@ =~= old(out)@ + opt_file_list_field(key@, *v));
        }
    } else {
        proof {
            assert(out@ =~= old(out)@ + opt_file_list_field(key@, *v));
        }
    }
}

/// Appends one optional node-list field.
pub fn push_opt_node_list_field(out: &mut Vec<u8>, key: &[u8], v: &Option<Vec<Node>>)
    ensures
        final(out)@ == old(out)@ + opt_node_list_field(key@, *v),
{
    if let Some(l) = v {
        push_bytes(out, key);
        push_node_list(out, l);
        proof {
            assert(out@ =~= old(out)@ + opt_node_list_field(key@, *v));
        }
    } else {
        proof {
            assert(out@ =~= old(out)@ + opt_node_list_field(key@, *v));
        }
    }
}

/// Appends one required byte-string field.
pub fn push_req_bytes_field(out: &mut Vec<u8>, key: &[u8], v: &Vec<u8>)
    ensures
        final(out)@ == old(out)@ + req_bytes_field(key@, *v),
{
    push_bytes(out, key);
    push_bytes(out, v.as_slice());
    proof {
        assert(out@ =~= old(out)@ + req_bytes_field(key@, *v));
    }
}

/// Appends one required integer field.
pub fn push_req_int_field(out: &mut Vec<u8>, key: &[u8], v: i64)
    ensures
        final(out)@ == old(out)@ + req_int_field(key@, v),
{
    push_bytes(out, key);
    push_int(out, v);
    proof {
        assert(out@ =~= old(out)@ + req_int_field(key@, v));
    }
}

/// Appends the canonical encoding of the info section.
pub fn push_info(out: &mut Vec<u8>, i: &Info)
    ensures
        final(out)@ == old(out)@ + enc_info(*i),
{
    out.push(TOK_DICT);
    let ghost d0 = seq![TOK_DICT];
    proof {
        assert(out@ =~= old(out)@ + d0);
    }
    push_opt_file_list_field(out, KEY_FILES.as_slice(), &i.files);
    let ghost d1 = d0 + opt_file_list_field(KEY_FILES@, i.files);
    proof {
        lemma_concat_associative(old(out)@, d0, opt_file_list_field(KEY_FILES@, i.files));
        assert(out@ == old(out)@ + d1);
    }
    push_opt_int_field(out, KEY_LENGTH.as_slice(), &i.length);
    let ghost d2 = d1 + opt_int_field(KEY_LENGTH@, i.length);
    proof {
        lemma_concat_associative(old(out)@, d1, opt_int_field(KEY_LENGTH@, i.length));
        assert(out@ == old(out)@ + d2);
    }
    push_opt_bytes_field(out, KEY_MD5SUM.as_slice(), &i.md5sum);
    let ghost d3 = d2 + opt_bytes_field(KEY_MD5SUM@, i.md5sum);
    proof {
        lemma_concat_associative(old(out)@, d2, opt_bytes_field(KEY_MD5SUM@, i.md5sum));
        assert(out@ == old(out)@ + d3);
    }
    push_req_bytes_field(out, KEY_NAME.as_slice(), &i.name);
    let ghost d4 = d3 + req_bytes_field(KEY_NAME@, i.name);
    proof {
        lemma_concat_associative(old(out)@, d3, req_bytes_field(KEY_NAME@, i.name));
        assert(out@ == old(out)@ + d4);
    }
    push_opt_str_list_field(out, KEY_PATH.as_slice(), &i.path);
    let ghost d5 = d4 + opt_str_list_field(KEY_PATH@, i.path);
    proof {
        lemma_concat_associative(old(out)@, d4, opt_str_list_field(KEY_PATH@, i.path));
        assert(out@ == old(out)@ + d5);
    }
    push_req_int_field(out, KEY_PIECE_LENGTH.as_slice(), i.piece_length);
    let ghost d6 = d5 + req_int_field(KEY_PIECE_LENGTH@, i.piece_length);
    proof {
        lemma_concat_associative(old(out)@, d5, req_int_field(KEY_PIECE_LENGTH@, i.piece_length));
        assert(out@ == old(out)@ + d6);
    }
    push_req_bytes_field(out, KEY_PIECES.as_slice(), &i.pieces);
    let ghost d7 = d6 + req_bytes_field(KEY_PIECES@, i.pieces);
    proof {
        lemma_concat_associative(old(out)@, d6, req_bytes_field(KEY_PIECES@, i.pieces));
        assert(out@ == old(out)@ + d7);
    }
    push_opt_u8_field(out, KEY_PRIVATE.as_slice(), &i.private);
    let ghost d8 = d7 + opt_u8_field(KEY_PRIVATE@, i.private);
    proof {
        lemma_concat_associative(old(out)@, d7, opt_u8_field(KEY_PRIVATE@, i.private));
        assert(out@ == old(out)@ + d8);
    }
    push_opt_bytes_field(out, KEY_ROOT_HASH.as_slice(), &i.root_hash);
    let ghost d9 = d8 + opt_bytes_field(KEY_ROOT_HASH@, i.root_hash);
    proof {
        lemma_concat_associative(old(out)@, d8, opt_bytes_field(KEY_ROOT_HASH@, i.root_hash));
        assert(out@ == old(out)@ + d9);
    }
    let ghost before_end = out@;
    out.push(TOK_END);
    proof {
        assert(out@ =~= before_end + seq![TOK_END]);
        lemma_concat_associative(old(out)@, d9, seq![TOK_END]);
        assert(out@ == old(out)@ + (d9 + seq![TOK_END]));
        assert(d9 + seq![TOK_END] == enc_info(*i));
    }
}

/// Appends the required info entry: its key and the info section.
pub fn push_info_entry(out: &mut Vec<u8>, i: &Info)
    ensures
        final(out)@ == old(out)@ + info_field(*i),
{
    push_bytes(out, KEY_INFO.as_slice());
    push_info(out, i);
    proof {
        lemma_concat_associative(old(out)@, enc_bytes(KEY_INFO@), enc_info(*i));
        assert(out@ == old(out)@ + info_field(*i));
    }
}

/// Appends the canonical encoding of a whole descriptor.
pub fn push_meta_info(out: &mut Vec<u8>, m: &MetaInfo)
    ensures
        final(out)@ == old(out)@ + enc_meta_info(*m),
{
    out.push(TOK_DICT);
    let ghost d0 = seq![TOK_DICT];
    proof {
        assert(out@ =~= old(out)@ + d0);
    }
    push_opt_bytes_field(out, KEY_ANNOUNCE.as_slice(), &m.announce);
    let ghost d1 = d0 + opt_bytes_field(KEY_ANNOUNCE@, m.announce);
    proof {
        lemma_concat_associative(old(out)@, d0, opt_bytes_field(KEY_ANNOUNCE@, m.announce));
        assert(out@ == old(out)@ + d1);
    }
    push_opt_str_list_list_field(out, KEY_ANNOUNCE_LIST.as_slice(), &m.announce_list);
    let ghost d2 = d1 + opt_str_list_list_field(KEY_ANNOUNCE_LIST@, m.announce_list);
    proof {
        lemma_concat_associative(old(out)@, d1, opt_str_list_list_field(KEY_ANNOUNCE_LIST@, m.announce_list));
        assert(out@ == old(out)@ + d2);
    }
    push_opt_bytes_field(out, KEY_COMMENT.as_slice(), &m.comment);
    let ghost d3 = d2 + opt_bytes_field(KEY_COMMENT@, m.comment);
    proof {
        lemma_concat_associative(old(out)@, d2, opt_bytes_field(KEY_COMMENT@, m.comment));
        assert(out@ == old(out)@ + d3);
    }
    push_opt_bytes_field(out, KEY_CREATED_BY.as_slice(), &m.created_by);
    let ghost d4 = d3 + opt_bytes_field(KEY_CREATED_BY@, m.created_by);
    proof {
        lemma_concat_associative(old(out)@, d3, opt_bytes_field(KEY_CREATED_BY@, m.created_by));
        assert(out@ == old(out)@ + d4);
    }
    push_opt_int_field(out, KEY_CREATION_DATE.as_slice(), &m.creation_date);
    let ghost d5 = d4 + opt_int_field(KEY_CREATION_DATE@, m.creation_date);
    proof {
        lemma_concat_associative(old(out)@, d4, opt_int_field(KEY_CREATION_DATE@, m.creation_date));
        assert(out@ == old(out)@ + d5);
    }
    push_opt_bytes_field(out, KEY_ENCODING.as_slice(), &m.encoding);
    let ghost d6 = d5 + opt_bytes_field(KEY_ENCODING@, m.encoding);
    proof {
        lemma_concat_associative(old(out)@, d5, opt_bytes_field(KEY_ENCODING@, m.encoding));
        assert(out@ == old(out)@ + d6);
    }
    push_opt_str_list_field(out, KEY_HTTPSEEDS.as_slice(), &m.httpseeds);
    let ghost d7 = d6 + opt_str_list_field(KEY_HTTPSEEDS@, m.httpseeds);
    proof {
        lemma_concat_associative(old(out)@, d6, opt_str_list_field(KEY_HTTPSEEDS@, m.httpseeds));
        assert(out@ == old(out)@ + d7);
    }
    push_info_entry(out, &m.info);
    let ghost d8 = d7 + info_field(m.info);
    proof {
        lemma_concat_associative(old(out)@, d7, info_field(m.info));
        assert(out@ == old(out)@ + d8);
    }
    push_opt_node_list_field(out, KEY_NODES.as_slice(), &m.nodes);
    let ghost d9 = d8 + opt_node_list_field(KEY_NODES@, m.nodes);
    proof {
        lemma_concat_associative(old(out)@, d8, opt_node_list_field(KEY_NODES@, m.nodes));
        assert(out@ == old(out)@ + d9);
    }
    let ghost before_end = out@;
    out.push(TOK_END);
    proof {
        assert(out@ =~= before_end + seq![TOK_END]);
        lemma_concat_associative(old(out)@, d9, seq![TOK_END]);
        assert(out@ == old(out)@ + (d9 + seq![TOK_END]));
        assert(d9 + seq![TOK_END] == enc_meta_info(*m));
    }
}

impl Info {
    /// The canonical byte encoding of the info section.
    pub fn to_buffer(&self) -> (r: Vec<u8>)
        ensures
            r@ == enc_info(*self),
    {
        let mut out: Vec<u8> = Vec::new();
        push_info(&mut out, self);
        proof {
            assert(out@ =~= enc_info(*self));
        }
        out
    }

    /// The 20-byte content id: the digest of the canonical info encoding.
    pub fn to_hash_buffer(&self) -> (r: Vec<u8>)
        ensures
            r@ == sha1_of(enc_info(*self)),
            r@.len() == 20,
    {
        let buffer = self.to_buffer();
        sha1_digest(buffer.as_slice())
    }

    /// The content id rendered as lowercase hex.
    pub fn to_hash_hex(&self) -> (r: String)
        ensures
            r@ == hex_of(sha1_of(enc_info(*self))),
    {
        let buffer = self.to_hash_buffer();
        hex_encode(buffer.as_slice())
    }

    /// The content id rendered as lowercase hex.
    pub fn to_hash(&self) -> (r: String)
        ensures
            r@ == hex_of(sha1_of(enc_info(*self))),
    {
        self.to_hash_hex()
    }

    /// The content id percent-encoded for a tracker query string: every
    /// digest byte escaped as `%XX`.
    pub fn to_url_encoded(&self) -> (r: String)
        ensures
            r@ == ascii_chars_of(pct_encoded(sha1_of(enc_info(*self)))),
    {
        let digest = self.to_hash_buffer();
        let encoded = percent_encode_all(digest.as_slice());
        proof {
            lemma_pct_encoded_ascii(digest@);
        }
        ascii_to_string(encoded)
    }
}

/// Consumes the byte-string `key` at `pos` if it is encoded there; on a
/// mismatch nothing is consumed.
pub fn try_key(input: &[u8], pos: usize, key: &[u8]) -> (r: Option<usize>)
    requires
        pos <= input@.len(),
    ensures
        r matches Some(p) ==> pos < p <= input@.len() && input@.subrange(pos as int, p as int)
            == enc_bytes(key@),
        at_seq(input@, pos as int, enc_bytes(key@)) ==> (r matches Some(p) && p == pos + enc_bytes(
            key@,
        ).len()),
        !bytes_at(input@, pos as int, key@) ==> r is None,
{
    match parse_bytes(input, pos) {
        None => {
            proof {
                if at_seq(input@, pos as int, enc_bytes(key@)) {
                    assert(bytes_at(input@, pos as int, key@));
                }
            }
            None
        },
        Some((k, p)) => {
            if bytes_eq(k.as_slice(), key) {
                proof {
                    assert(bytes_at(input@, pos as int, key@));
                }
                Some(p)
            } else {
                proof {
                    if at_seq(input@, pos as int, enc_bytes(key@)) {
                        assert(bytes_at(input@, pos as int, key@));
                    }
                }
                None
            }
        },
    }
}


/// Parses one optional byte-string field: if `key` is next, consumes the key
/// and its value; otherwise consumes nothing.
pub fn parse_opt_bytes_field(input: &[u8], pos: usize, key: &[u8]) -> (r: Option<
    (Option<Vec<u8>>, usize),
>)
    requires
        pos <= input@.len(),
    ensures
        r matches Some((v, end)) ==> pos <= end <= input@.len() && input@.subrange(
            pos as int,
            end as int,
        ) == opt_bytes_field(key@, v),
        !bytes_at(input@, pos as int, key@) ==> r == Some((Option::<Vec<u8>>::None, pos)),
        forall|x: Seq<u8>|
            at_seq(input@, pos as int, enc_bytes(key@) + enc_bytes(x)) ==> (r matches Some(v)
                && v.0 is Some && v.1 == pos + enc_bytes(key@).len() + enc_bytes(x).len()),
{
    if let Some(p) = try_key(input, pos, key) {
        match parse_bytes(input, p) {
            None => {
                proof {
                    assert forall|x: Seq<u8>| !at_seq(
                        input@,
                        pos as int,
                        enc_bytes(key@) + enc_bytes(x),
                    ) by {
                        if at_seq(input@, pos as int, enc_bytes(key@) + enc_bytes(x)) {
                            lemma_at_seq_split(input@, pos as int, enc_bytes(key@), enc_bytes(x));
                            assert(bytes_at(input@, p as int, x));
                        }
                    }
                }
                None
            },
            Some((v, p2)) => {
                proof {
                    lemma_subrange_split(input@, pos as int, p as int, p2 as int);
                    assert forall|x: Seq<u8>| at_seq(
                        input@,
                        pos as int,
                        enc_bytes(key@) + enc_bytes(x),
                    ) implies p2 == pos + enc_bytes(key@).len() + enc_bytes(x).len() by {
                        lemma_at_seq_split(input@, pos as int, enc_bytes(key@), enc_bytes(x));
                        assert(bytes_at(input@, p as int, x));
                    }
                }
                Some((Some(v), p2))
            },
        }
    } else {
        proof {
            assert forall|x: Seq<u8>| !at_seq(
                input@,
                pos as int,
                enc_bytes(key@) + enc_bytes(x),
            ) by {
                if at_seq(input@, pos as int, enc_bytes(key@) + enc_bytes(x)) {
                    lemma_at_seq_split(input@, pos as int, enc_bytes(key@), enc_bytes(x));
                }
            }
        }
        proof {
            assert(input@.subrange(pos as int, pos as int) =~= opt_bytes_field(
                key@,
                Option::<Vec<u8>>::None,
            ));
        }
        Some((None, pos))
    }
}

/// Parses one optional integer field.
pub fn parse_opt_int_field(input: &[u8], pos: usize, key: &[u8]) -> (r: Option<
    (Option<i64>, usize),
>)
    requires
        pos <= input@.len(),
    ensures
        r matches Some((v, end)) ==> pos <= end <= input@.len() && input@.subrange(
            pos as int,
            end as int,
        ) == opt_int_field(key@, v),
        !bytes_at(input@, pos as int, key@) ==> r == Some((Option::<i64>::None, pos)),
        forall|x: i64|
            x > i64::MIN && at_seq(input@, pos as int, enc_bytes(key@) + enc_int(x as int)) ==> (
            r matches Some(v) && v.0 is Some && v.1 == pos + enc_bytes(key@).len() + enc_int(
                x as int,
            ).len()),
{
    if let Some(p) = try_key(input, pos, key) {
        match parse_int(input, p) {
            None => {
                proof {
                    assert forall|x: i64|
                        x > i64::MIN implies !at_seq(
                        input@,
                        pos as int,
                        enc_bytes(key@) + enc_int(x as int),
                    ) by {
                        if at_seq(input@, pos as int, enc_bytes(key@) + enc_int(x as int)) {
                            lemma_at_seq_split(
                                input@,
                                pos as int,
                                enc_bytes(key@),
                                enc_int(x as int),
                            );
                            assert(int_at(input@, p as int, x));
                        }
                    }
                }
                None
            },
            Some((v, p2)) => {
                proof {
                    lemma_subrange_split(input@, pos as int, p as int, p2 as int);
                    assert forall|x: i64|
                        x > i64::MIN && at_seq(
                            input@,
                            pos as int,
                            enc_bytes(key@) + enc_int(x as int),
                        ) implies p2 == pos + enc_bytes(key@).len() + enc_int(x as int).len() by {
                        lemma_at_seq_split(input@, pos as int, enc_bytes(key@), enc_int(x as int));
                        assert(int_at(input@, p as int, x));
                    }
                }
                Some((Some(v), p2))
            },
        }
    } else {
        proof {
            assert forall|x: i64|
                x > i64::MIN implies !at_seq(
                input@,
                pos as int,
                enc_bytes(key@) + enc_int(x as int),
            ) by {
                if at_seq(input@, pos as int, enc_bytes(key@) + enc_int(x as int)) {
                    lemma_at_seq_split(input@, pos as int, enc_bytes(key@), enc_int(x as int));
                }
            }
        }
        proof {
            assert(input@.subrange(pos as int, pos as int) =~= opt_int_field(
                key@,
                Option::<i64>::None,
            ));
        }
        Some((None, pos))
    }
}

/// Parses one optional single-byte integer field.
pub fn parse_opt_u8_field(input: &[u8], pos: usize, key: &[u8]) -> (r: Option<
    (Option<u8>, usize),
>)
    requires
        pos <= input@.len(),
    ensures
        r matches Some((v, end)) ==> pos <= end <= input@.len() && input@.subrange(
            pos as int,
            end as int,
        ) == opt_u8_field(key@, v),
        !bytes_at(input@, pos as int, key@) ==> r == Some((Option::<u8>::None, pos)),
        forall|x: u8|
            at_seq(input@, pos as int, enc_bytes(key@) + enc_int(x as int)) ==> (r matches Some(v)
                && v.0 is Some && v.1 == pos + enc_bytes(key@).len() + enc_int(x as int).len()),
{
    if let Some(p) = try_key(input, pos, key) {
        match parse_int(input, p) {
            None => {
                proof {
                    assert forall|x: u8| !at_seq(
                        input@,
                        pos as int,
                        enc_bytes(key@) + enc_int(x as int),
                    ) by {
                        if at_seq(input@, pos as int, enc_bytes(key@) + enc_int(x as int)) {
                            lemma_at_seq_split(
                                input@,
                                pos as int,
                                enc_bytes(key@),
                                enc_int(x as int),
                            );
                            assert(int_at(input@, p as int, x as i64));
                        }
                    }
                }
                None
            },
            Some((v, p2)) => {
                proof {
                    assert forall|x: u8| at_seq(
                        input@,
                        pos as int,
                        enc_bytes(key@) + enc_int(x as int),
                    ) implies (0 <= v <= 255 && p2 == pos + enc_bytes(key@).len() + enc_int(
                        x as int,
                    ).len()) by {
                        lemma_at_seq_split(input@, pos as int, enc_bytes(key@), enc_int(x as int));
                        assert(int_at(input@, p as int, x as i64));
                    }
                }
                if v < 0 || v > 255 {
                    return None;
                }
                proof {
                    lemma_subrange_split(input@, pos as int, p as int, p2 as int);
                }
                Some((Some(v as u8), p2))
            },
        }
    } else {
        proof {
            assert forall|x: u8| !at_seq(
                input@,
                pos as int,
                enc_bytes(key@) + enc_int(x as int),
            ) by {
                if at_seq(input@, pos as int, enc_bytes(key@) + enc_int(x as int)) {
                    lemma_at_seq_split(input@, pos as int, enc_bytes(key@), enc_int(x as int));
                }
            }
        }
        proof {
            assert(input@.subrange(pos as int, pos as int) =~= opt_u8_field(
                key@,
                Option::<u8>::None,
            ));
        }
        Some((None, pos))
    }
}

/// Parses one optional string-list field.
pub fn parse_opt_str_list_field(input: &[u8], pos: usize, key: &[u8]) -> (r: Option<
    (Option<Vec<Vec<u8>>>, usize),
>)
    requires
        pos <= input@.len(),
    ensures
        r matches Some((v, end)) ==> pos <= end <= input@.len() && input@.subrange(
            pos as int,
            end as int,
        ) == opt_str_list_field(key@, v),
        !bytes_at(input@, pos as int, key@) ==> r == Some((Option::<Vec<Vec<u8>>>::None, pos)),
        forall|x: Seq<Vec<u8>>|
            at_seq(input@, pos as int, enc_bytes(key@) + enc_str_list(x)) ==> (
            r matches Some(v) && v.0 is Some && v.1 == pos + enc_bytes(key@).len() + enc_str_list(
                x,
            ).len()),
{
    if let Some(p) = try_key(input, pos, key) {
        match parse_str_list(input, p) {
            None => {
                proof {
                    assert forall|x: Seq<Vec<u8>>| !(at_seq(
                        input@,
                        pos as int,
                        enc_bytes(key@) + enc_str_list(x),
                    )) by {
                        if at_seq(
                            input@,
                            pos as int,
                            enc_bytes(key@) + enc_str_list(x),
                        ) {
                            lemma_at_seq_split(input@, pos as int, enc_bytes(key@), enc_str_list(x));
                        }
                    }
                }
                None
            },
            Some((v, p2)) => {
                proof {
                    lemma_subrange_split(input@, pos as int, p as int, p2 as int);
                    assert forall|x: Seq<Vec<u8>>|
                        at_seq(
                            input@,
                            pos as int,
                            enc_bytes(key@) + enc_str_list(x),
                        ) implies p2 == pos + enc_bytes(key@).len() + enc_str_list(x).len() by {
                        lemma_at_seq_split(input@, pos as int, enc_bytes(key@), enc_str_list(x));
                    }
                }
                Some((Some(v), p2))
            },
        }
    } else {
        proof {
            assert forall|x: Seq<Vec<u8>>| !(at_seq(
                input@,
                pos as int,
                enc_bytes(key@) + enc_str_list(x),
            )) by {
                if at_seq(input@, pos as int, enc_bytes(key@) + enc_str_list(x)) {
                    lemma_at_seq_split(input@, pos as int, enc_bytes(key@), enc_str_list(x));
                }
            }
        }
        proof {
            assert(input@.subrange(pos as int, pos as int) =~= opt_str_list_field(
                key@,
                Option::<Vec<Vec<u8>>>::None,
            ));
        }
        Some((None, pos))
    }
}

/// Parses one optional field holding a list of string lists.
pub fn parse_opt_str_list_list_field(input: &[u8], pos: usize, key: &[u8]) -> (r: Option<
    (Option<Vec<Vec<Vec<u8>>>>, usize),
>)
    requires
        pos <= input@.len(),
    ensures
        r matches Some((v, end)) ==> pos <= end <= input@.len() && input@.subrange(
            pos as int,
            end as int,
        ) == opt_str_list_list_field(key@, v),
        !bytes_at(input@, pos as int, key@) ==> r == Some((Option::<Vec<Vec<Vec<u8>>>>::None, pos)),
        forall|x: Seq<Vec<Vec<u8>>>|
            at_seq(input@, pos as int, enc_bytes(key@) + enc_str_list_list(x)) ==> (
            r matches Some(v) && v.0 is Some && v.1 == pos + enc_bytes(key@).len() + enc_str_list_list(
                x,
            ).len()),
{
    if let Some(p) = try_key(input, pos, key) {
        match parse_str_list_list(input, p) {
            None => {
                proof {
                    assert forall|x: Seq<Vec<Vec<u8>>>| !(at_seq(
                        input@,
                        pos as int,
                        enc_bytes(key@) + enc_str_list_list(x),
                    )) by {
                        if at_seq(
                            input@,
                            pos as int,
                            enc_bytes(key@) + enc_str_list_list(x),
                        ) {
                            lemma_at_seq_split(input@, pos as int, enc_bytes(key@), enc_str_list_list(x));
                        }
                    }
                }
                None
            },
            Some((v, p2)) => {
                proof {
                    lemma_subrange_split(input@, pos as int, p as int, p2 as int);
                    assert forall|x: Seq<Vec<Vec<u8>>>|
                        at_seq(
                            input@,
                            pos as int,
                            enc_bytes(key@) + enc_str_list_list(x),
                        ) implies p2 == pos + enc_bytes(key@).len() + enc_str_list_list(x).len() by {
                        lemma_at_seq_split(input@, pos as int, enc_bytes(key@), enc_str_list_list(x));
                    }
                }
                Some((Some(v), p2))
            },
        }
    } else {
        proof {
            assert forall|x: Seq<Vec<Vec<u8>>>| !(at_seq(
                input@,
                pos as int,
                enc_bytes(key@) + enc_str_list_list(x),
            )) by {
                if at_seq(input@, pos as int, enc_bytes(key@) + enc_str_list_list(x)) {
                    lemma_at_seq_split(input@, pos as int, enc_bytes(key@), enc_str_list_list(x));
                }
            }
        }
        proof {
            assert(input@.subrange(pos as int, pos as int) =~= opt_str_list_list_field(
                key@,
                Option::<Vec<Vec<Vec<u8>>>>::None,
            ));
        }
        Some((None, pos))
    }
}

/// Parses one optional file-list field.
pub fn parse_opt_file_list_field(input: &[u8], pos: usize, key: &[u8]) -> (r: Option<
    (Option<Vec<File>>, usize),
>)
    requires
        pos <= input@.len(),
    ensures
        r matches Some((v, end)) ==> pos <= end <= input@.len() && input@.subrange(
            pos as int,
            end as int,
        ) == opt_file_list_field(key@, v),
        !bytes_at(input@, pos as int, key@) ==> r == Some((Option::<Vec<File>>::None, pos)),
        forall|x: Seq<File>|
            files_in_range(x) && at_seq(input@, pos as int, enc_bytes(key@) + enc_file_list(x)) ==> (
            r matches Some(v) && v.0 is Some && v.1 == pos + enc_bytes(key@).len() + enc_file_list(
                x,
            ).len()),
{
    if let Some(p) = try_key(input, pos, key) {
        match parse_file_list(input, p) {
            None => {
                proof {
                    assert forall|x: Seq<File>| !(files_in_range(x) && at_seq(
                        input@,
                        pos as int,
                        enc_bytes(key@) + enc_file_list(x),
                    )) by {
                        if files_in_range(x) && at_seq(
                            input@,
                            pos as int,
                            enc_bytes(key@) + enc_file_list(x),
                        ) {
                            lemma_at_seq_split(input@, pos as int, enc_bytes(key@), enc_file_list(x));
                        }
                    }
                }
                None
            },
            Some((v, p2)) => {
                proof {
                    lemma_subrange_split(input@, pos as int, p as int, p2 as int);
                    assert forall|x: Seq<File>|
                        files_in_range(x) && at_seq(
                            input@,
                            pos as int,
                            enc_bytes(key@) + enc_file_list(x),
                        ) implies p2 == pos + enc_bytes(key@).len() + enc_file_list(x).len() by {
                        lemma_at_seq_split(input@, pos as int, enc_bytes(key@), enc_file_list(x));
                    }
                }
                Some((Some(v), p2))
            },
        }
    } else {
        proof {
            assert forall|x: Seq<File>| !(files_in_range(x) && at_seq(
                input@,
                pos as int,
                enc_bytes(key@) + enc_file_list(x),
            )) by {
                if at_seq(input@, pos as int, enc_bytes(key@) + enc_file_list(x)) {
                    lemma_at_seq_split(input@, pos as int, enc_bytes(key@), enc_file_list(x));
                }
            }
        }
        proof {
            assert(input@.subrange(pos as int, pos as int) =~= opt_file_list_field(
                key@,
                Option::<Vec<File>>::None,
            ));
        }
        Some((None, pos))
    }
}

/// Parses one optional node-list field.
pub fn parse_opt_node_list_field(input: &[u8], pos: usize, key: &[u8]) -> (r: Option<
    (Option<Vec<Node>>, usize),
>)
    requires
        pos <= input@.len(),
    ensures
        r matches Some((v, end)) ==> pos <= end <= input@.len() && input@.subrange(
            pos as int,
            end as int,
        ) == opt_node_list_field(key@, v),
        !bytes_at(input@, pos as int, key@) ==> r == Some((Option::<Vec<Node>>::None, pos)),
        forall|x: Seq<Node>|
            nodes_in_range(x) && at_seq(input@, pos as int, enc_bytes(key@) + enc_node_list(x)) ==> (
            r matches Some(v) && v.0 is Some && v.1 == pos + enc_bytes(key@).len() + enc_node_list(
                x,
            ).len()),
{
    if let Some(p) = try_key(input, pos, key) {
        match parse_node_list(input, p) {
            None => {
                proof {
                    assert forall|x: Seq<Node>| !(nodes_in_range(x) && at_seq(
                        input@,
                        pos as int,
                        enc_bytes(key@) + enc_node_list(x),
                    )) by {
                        if nodes_in_range(x) && at_seq(
                            input@,
                            pos as int,
                            enc_bytes(key@) + enc_node_list(x),
                        ) {
                            lemma_at_seq_split(input@, pos as int, enc_bytes(key@), enc_node_list(x));
                        }
                    }
                }
                None
            },
            Some((v, p2)) => {
                proof {
                    lemma_subrange_split(input@, pos as int, p as int, p2 as int);
                    assert forall|x: Seq<Node>|
                        nodes_in_range(x) && at_seq(
                            input@,
                            pos as int,
                            enc_bytes(key@) + enc_node_list(x),
                        ) implies p2 == pos + enc_bytes(key@).len() + enc_node_list(x).len() by {
                        lemma_at_seq_split(input@, pos as int, enc_bytes(key@), enc_node_list(x));
                    }
                }
                Some((Some(v), p2))
            },
        }
    } else {
        proof {
            assert forall|x: Seq<Node>| !(nodes_in_range(x) && at_seq(
                input@,
                pos as int,
                enc_bytes(key@) + enc_node_list(x),
            )) by {
                if at_seq(input@, pos as int, enc_bytes(key@) + enc_node_list(x)) {
                    lemma_at_seq_split(input@, pos as int, enc_bytes(key@), enc_node_list(x));
                }
            }
        }
        proof {
            assert(input@.subrange(pos as int, pos as int) =~= opt_node_list_field(
                key@,
                Option::<Vec<Node>>::None,
            ));
        }
        Some((None, pos))
    }
}

/// Parses one required byte-string field.
pub fn parse_req_bytes_field(input: &[u8], pos: usize, key: &[u8]) -> (r: Option<(Vec<u8>, usize)>)
    requires
        pos <= input@.len(),
    ensures
        r matches Some((v, end)) ==> pos < end <= input@.len() && input@.subrange(
            pos as int,
            end as int,
        ) == req_bytes_field(key@, v),
        forall|x: Seq<u8>|
            at_seq(input@, pos as int, enc_bytes(key@) + enc_bytes(x)) ==> (r matches Some(v)
                && v.1 == pos + enc_bytes(key@).len() + enc_bytes(x).len()),
{
    proof {
        assert forall|x: Seq<u8>| at_seq(
            input@,
            pos as int,
            enc_bytes(key@) + enc_bytes(x),
        ) implies (at_seq(input@, pos as int, enc_bytes(key@)) && bytes_at(
            input@,
            pos + enc_bytes(key@).len(),
            x,
        )) by {
            lemma_at_seq_split(input@, pos as int, enc_bytes(key@), enc_bytes(x));
        }
    }
    match try_key(input, pos, key) {
        None => None,
        Some(p) => match parse_bytes(input, p) {
            None => None,
            Some((v, p2)) => {
                proof {
                    lemma_subrange_split(input@, pos as int, p as int, p2 as int);
                }
                Some((v, p2))
            },
        },
    }
}

/// Parses one required integer field.
pub fn parse_req_int_field(input: &[u8], pos: usize, key: &[u8]) -> (r: Option<(i64, usize)>)
    requires
        pos <= input@.len(),
    ensures
        r matches Some((v, end)) ==> pos < end <= input@.len() && input@.subrange(
            pos as int,
            end as int,
        ) == req_int_field(key@, v),
        forall|x: i64|
            x > i64::MIN && at_seq(input@, pos as int, enc_bytes(key@) + enc_int(x as int)) ==> (
            r matches Some(v) && v.1 == pos + enc_bytes(key@).len() + enc_int(x as int).len()),
{
    proof {
        assert forall|x: i64|
            x > i64::MIN && at_seq(
                input@,
                pos as int,
                enc_bytes(key@) + enc_int(x as int),
            ) implies (at_seq(input@, pos as int, enc_bytes(key@)) && int_at(
            input@,
            pos + enc_bytes(key@).len(),
            x,
        )) by {
            lemma_at_seq_split(input@, pos as int, enc_bytes(key@), enc_int(x as int));
        }
    }
    match try_key(input, pos, key) {
        None => None,
        Some(p) => match parse_int(input, p) {
            None => None,
            Some((v, p2)) => {
                proof {
                    lemma_subrange_split(input@, pos as int, p as int, p2 as int);
                }
                Some((v, p2))
            },
        },
    }
}


proof fn lemma_str_items_prefix(l: Seq<Vec<u8>>, m: int)
    requires
        0 <= m <= l.len(),
    ensures
        enc_str_items(l.take(m)).len() <= enc_str_items(l).len(),
        enc_str_items(l).subrange(0, enc_str_items(l.take(m)).len() as int) == enc_str_items(
            l.take(m),
        ),
        m < l.len() ==> enc_str_items(l.take(m)).len() + enc_bytes(l[m]@).len() <= enc_str_items(
            l,
        ).len() && enc_str_items(l).subrange(
            enc_str_items(l.take(m)).len() as int,
            enc_str_items(l.take(m)).len() + enc_bytes(l[m]@).len() as int,
        ) == enc_bytes(l[m]@),
    decreases l.len() - m,
{
    if m == l.len() {
        assert(l.take(m) =~= l);
    } else {
        assert(l.take(m + 1).drop_last() =~= l.take(m));
        assert(l.take(m + 1).last() == l[m]);
        assert(enc_str_items(l.take(m + 1)) == enc_str_items(l.take(m)) + enc_bytes(l[m]@));
        lemma_str_items_prefix(l, m + 1);
        let lm = enc_str_items(l.take(m)).len() as int;
        let li = enc_bytes(l[m]@).len() as int;
        assert forall|k: int| 0 <= k < lm implies #[trigger] enc_str_items(l).subrange(
            0,
            lm,
        )[k] == enc_str_items(l.take(m))[k] by {
            assert(enc_str_items(l).subrange(0, lm + li)[k] == enc_str_items(l.take(m + 1))[k]);
            assert(enc_str_items(l).subrange(0, lm + li)[k] == enc_str_items(l)[k]);
            assert(enc_str_items(l).subrange(0, lm)[k] == enc_str_items(l)[k]);
            assert(enc_str_items(l.take(m + 1))[k] == enc_str_items(l.take(m))[k]);
        }
        assert(enc_str_items(l).subrange(0, lm) =~= enc_str_items(l.take(m)));
        assert forall|k: int| 0 <= k < li implies #[trigger] enc_str_items(l).subrange(
            lm,
            lm + li,
        )[k] == enc_bytes(l[m]@)[k] by {
            assert(enc_str_items(l).subrange(0, lm + li)[lm + k] == enc_str_items(
                l.take(m + 1),
            )[lm + k]);
            assert(enc_str_items(l).subrange(0, lm + li)[lm + k] == enc_str_items(l)[lm + k]);
            assert(enc_str_items(l).subrange(lm, lm + li)[k] == enc_str_items(l)[lm + k]);
            assert(enc_str_items(l.take(m + 1))[lm + k] == enc_bytes(l[m]@)[k]);
        }
        assert(enc_str_items(l).subrange(lm, lm + li) =~= enc_bytes(l[m]@));
    }
}

/// Parses a canonical list of byte strings; every whole canonical list is
/// read back.
#[verifier::rlimit(100)]
#[verifier::spinoff_prover]
pub fn parse_str_list(input: &[u8], pos: usize) -> (r: Option<(Vec<Vec<u8>>, usize)>)
    requires
        pos <= input@.len(),
    ensures
        r matches Some((l, end)) ==> pos < end <= input@.len() && input@.subrange(
            pos as int,
            end as int,
        ) == enc_str_list(l@),
        forall|l: Seq<Vec<u8>>|
            at_seq(input@, pos as int, enc_str_list(l)) ==> (r matches Some(v) && v.1 == pos
                + enc_str_list(l).len()),
{
    let len = input.len();
    if pos == len || input[pos] != TOK_LIST {
        proof {
            assert forall|l: Seq<Vec<u8>>| !at_seq(input@, pos as int, enc_str_list(l)) by {
                if at_seq(input@, pos as int, enc_str_list(l)) {
                    assert(input@.subrange(pos as int, pos + enc_str_list(l).len() as int)[0]
                        == enc_str_list(l)[0]);
                }
            }
        }
        return None;
    }
    let mut items: Vec<Vec<u8>> = Vec::new();
    let mut cur = pos + 1;
    proof {
        assert(input@.subrange(pos + 1, cur as int) =~= enc_str_items(items@));
        assert(enc_str_items(Seq::<Vec<u8>>::empty()) =~= Seq::<u8>::empty());
    }
    loop
        invariant
            pos + 1 <= cur <= len,
            len == input@.len(),
            input@[pos as int] == TOK_LIST,
            input@.subrange(pos + 1, cur as int) == enc_str_items(items@),
            forall|l: Seq<Vec<u8>>|
                at_seq(input@, pos as int, enc_str_list(l)) ==> (items@.len() <= l.len() && cur
                    == pos + 1 + enc_str_items(l.take(items@.len() as int)).len()),
        decreases len - cur,
    {
        let ghost j = items@.len() as int;
        proof {
            assert forall|l: Seq<Vec<u8>>|
                at_seq(input@, pos as int, enc_str_list(l)) && j < l.len() implies (at_seq(
                input@,
                cur as int,
                enc_bytes(l[j]@),
            ) && bytes_at(input@, cur as int, l[j]@)) by {
                lemma_at_seq_split(
                    input@,
                    pos as int,
                    seq![TOK_LIST] + enc_str_items(l),
                    seq![TOK_END],
                );
                lemma_at_seq_split(input@, pos as int, seq![TOK_LIST], enc_str_items(l));
                lemma_str_items_prefix(l, j);
                lemma_at_seq_within(
                    input@,
                    pos + 1,
                    enc_str_items(l),
                    enc_str_items(l.take(j)).len() as int,
                    enc_bytes(l[j]@),
                );
            }
            assert forall|l: Seq<Vec<u8>>|
                at_seq(input@, pos as int, enc_str_list(l)) && j == l.len() implies (cur < len
                    && input@[cur as int] == TOK_END && cur + 1 == pos + enc_str_list(
                    l,
                ).len()) by {
                assert(l.take(j) =~= l);
                assert(input@.subrange(pos as int, pos + enc_str_list(l).len() as int)[cur + 1 - 1
                    - pos] == enc_str_list(l)[cur - pos]);
                assert(enc_str_list(l)[cur - pos] == TOK_END);
            }
            assert forall|l: Seq<Vec<u8>>|
                at_seq(input@, pos as int, enc_str_list(l)) && j < l.len() implies cur < len
                    && is_digit(input@[cur as int]) by {
                lemma_dec_digits_shape(l[j]@.len());
                assert(input@.subrange(cur as int, cur + enc_bytes(l[j]@).len() as int)[0]
                    == enc_bytes(l[j]@)[0]);
                assert(enc_bytes(l[j]@)[0] == dec_digits(l[j]@.len())[0]);
            }
        }
        if cur == len {
            return None;
        }
        if input[cur] == TOK_END {
            proof {
                lemma_subrange_split(input@, pos as int, pos + 1, cur + 1);
                lemma_subrange_split(input@, pos + 1, cur as int, cur + 1);
                assert(input@.subrange(pos as int, pos + 1) =~= seq![TOK_LIST]);
                assert(input@.subrange(cur as int, cur + 1) =~= seq![TOK_END]);
                assert(input@.subrange(pos as int, cur + 1) =~= enc_str_list(items@));
                assert forall|l: Seq<Vec<u8>>|
                    at_seq(input@, pos as int, enc_str_list(l)) implies cur + 1 == pos
                        + enc_str_list(l).len() by {
                    if j < l.len() {
                        assert(is_digit(input@[cur as int]));
                        assert(false);
                    }
                }
            }
            return Some((items, cur + 1));
        }
        let (v, p) = match parse_bytes(input, cur) {
            None => {
                proof {
                    assert forall|l: Seq<Vec<u8>>| !at_seq(
                        input@,
                        pos as int,
                        enc_str_list(l),
                    ) by {
                        if at_seq(input@, pos as int, enc_str_list(l)) {
                            if j == l.len() {
                                assert(input@[cur as int] == TOK_END);
                                assert(false);
                            }
                        }
                    }
                }
                return None;
            },
            Some(x) => x,
        };
        proof {
            lemma_subrange_split(input@, pos + 1, cur as int, p as int);
            assert(items@.push(v).drop_last() =~= items@);
            assert(items@.push(v).last() == v);
            assert forall|l: Seq<Vec<u8>>|
                at_seq(input@, pos as int, enc_str_list(l)) implies (items@.push(v).len()
                    <= l.len() && p == pos + 1 + enc_str_items(
                    l.take(items@.push(v).len() as int),
                ).len()) by {
                if j == l.len() {
                    assert(input@[cur as int] == TOK_END);
                    assert(false);
                }
                assert(l.take(j + 1).drop_last() =~= l.take(j));
                assert(l.take(j + 1).last() == l[j]);
                assert(enc_str_items(l.take(j + 1)) == enc_str_items(l.take(j)) + enc_bytes(
                    l[j]@,
                ));
            }
        }
        items.push(v);
        cur = p;
    }
}


proof fn lemma_str_list_items_prefix(l: Seq<Vec<Vec<u8>>>, m: int)
    requires
        0 <= m <= l.len(),
    ensures
        enc_str_list_items(l.take(m)).len() <= enc_str_list_items(l).len(),
        enc_str_list_items(l).subrange(0, enc_str_list_items(l.take(m)).len() as int) == enc_str_list_items(l.take(m)),
        m < l.len() ==> enc_str_list_items(l.take(m)).len() + enc_str_list(l[m]@).len() <= enc_str_list_items(l).len()
            && enc_str_list_items(l).subrange(
            enc_str_list_items(l.take(m)).len() as int,
            enc_str_list_items(l.take(m)).len() + enc_str_list(l[m]@).len() as int,
        ) == enc_str_list(l[m]@),
    decreases l.len() - m,
{
    if m == l.len() {
        assert(l.take(m) =~= l);
    } else {
        assert(l.take(m + 1).drop_last() =~= l.take(m));
        assert(l.take(m + 1).last() == l[m]);
        assert(enc_str_list_items(l.take(m + 1)) == enc_str_list_items(l.take(m)) + enc_str_list(l[m]@));
        lemma_str_list_items_prefix(l, m + 1);
        let lm = enc_str_list_items(l.take(m)).len() as int;
        let li = enc_str_list(l[m]@).len() as int;
        assert forall|k: int| 0 <= k < lm implies #[trigger] enc_str_list_items(l).subrange(
            0,
            lm,
        )[k] == enc_str_list_items(l.take(m))[k] by {
            assert(enc_str_list_items(l).subrange(0, lm + li)[k] == enc_str_list_items(l.take(m + 1))[k]);
            assert(enc_str_list_items(l).subrange(0, lm + li)[k] == enc_str_list_items(l)[k]);
            assert(enc_str_list_items(l).subrange(0, lm)[k] == enc_str_list_items(l)[k]);
            assert(enc_str_list_items(l.take(m + 1))[k] == enc_str_list_items(l.take(m))[k]);
        }
        assert(enc_str_list_items(l).subrange(0, lm) =~= enc_str_list_items(l.take(m)));
        assert forall|k: int| 0 <= k < li implies #[trigger] enc_str_list_items(l).subrange(
            lm,
            lm + li,
        )[k] == enc_str_list(l[m]@)[k] by {
            assert(enc_str_list_items(l).subrange(0, lm + li)[lm + k] == enc_str_list_items(
                l.take(m + 1),
            )[lm + k]);
            assert(enc_str_list_items(l).subrange(0, lm + li)[lm + k] == enc_str_list_items(l)[lm + k]);
            assert(enc_str_list_items(l).subrange(lm, lm + li)[k] == enc_str_list_items(l)[lm + k]);
            assert(enc_str_list_items(l.take(m + 1))[lm + k] == enc_str_list(l[m]@)[k]);
        }
        assert(enc_str_list_items(l).subrange(lm, lm + li) =~= enc_str_list(l[m]@));
    }
}

proof fn lemma_file_items_prefix(l: Seq<File>, m: int)
    requires
        0 <= m <= l.len(),
    ensures
        enc_file_items(l.take(m)).len() <= enc_file_items(l).len(),
        enc_file_items(l).subrange(0, enc_file_items(l.take(m)).len() as int) == enc_file_items(l.take(m)),
        m < l.len() ==> enc_file_items(l.take(m)).len() + enc_file(l[m]).len() <= enc_file_items(l).len()
            && enc_file_items(l).subrange(
            enc_file_items(l.take(m)).len() as int,
            enc_file_items(l.take(m)).len() + enc_file(l[m]).len() as int,
        ) == enc_file(l[m]),
    decreases l.len() - m,
{
    if m == l.len() {
        assert(l.take(m) =~= l);
    } else {
        assert(l.take(m + 1).drop_last() =~= l.take(m));
        assert(l.take(m + 1).last() == l[m]);
        assert(enc_file_items(l.take(m + 1)) == enc_file_items(l.take(m)) + enc_file(l[m]));
        lemma_file_items_prefix(l, m + 1);
        let lm = enc_file_items(l.take(m)).len() as int;
        let li = enc_file(l[m]).len() as int;
        assert forall|k: int| 0 <= k < lm implies #[trigger] enc_file_items(l).subrange(
            0,
            lm,
        )[k] == enc_file_items(l.take(m))[k] by {
            assert(enc_file_items(l).subrange(0, lm + li)[k] == enc_file_items(l.take(m + 1))[k]);
            assert(enc_file_items(l).subrange(0, lm + li)[k] == enc_file_items(l)[k]);
            assert(enc_file_items(l).subrange(0, lm)[k] == enc_file_items(l)[k]);
            assert(enc_file_items(l.take(m + 1))[k] == enc_file_items(l.take(m))[k]);
        }
        assert(enc_file_items(l).subrange(0, lm) =~= enc_file_items(l.take(m)));
        assert forall|k: int| 0 <= k < li implies #[trigger] enc_file_items(l).subrange(
            lm,
            lm + li,
        )[k] == enc_file(l[m])[k] by {
            assert(enc_file_items(l).subrange(0, lm + li)[lm + k] == enc_file_items(
                l.take(m + 1),
            )[lm + k]);
            assert(enc_file_items(l).subrange(0, lm + li)[lm + k] == enc_file_items(l)[lm + k]);
            assert(enc_file_items(l).subrange(lm, lm + li)[k] == enc_file_items(l)[lm + k]);
            assert(enc_file_items(l.take(m + 1))[lm + k] == enc_file(l[m])[k]);
        }
        assert(enc_file_items(l).subrange(lm, lm + li) =~= enc_file(l[m]));
    }
}

proof fn lemma_node_items_prefix(l: Seq<Node>, m: int)
    requires
        0 <= m <= l.len(),
    ensures
        enc_node_items(l.take(m)).len() <= enc_node_items(l).len(),
        enc_node_items(l).subrange(0, enc_node_items(l.take(m)).len() as int) == enc_node_items(l.take(m)),
        m < l.len() ==> enc_node_items(l.take(m)).len() + enc_node(l[m]).len() <= enc_node_items(l).len()
            && enc_node_items(l).subrange(
            enc_node_items(l.take(m)).len() as int,
            enc_node_items(l.take(m)).len() + enc_node(l[m]).len() as int,
        ) == enc_node(l[m]),
    decreases l.len() - m,
{
    if m == l.len() {
        assert(l.take(m) =~= l);
    } else {
        assert(l.take(m + 1).drop_last() =~= l.take(m));
        assert(l.take(m + 1).last() == l[m]);
        assert(enc_node_items(l.take(m + 1)) == enc_node_items(l.take(m)) + enc_node(l[m]));
        lemma_node_items_prefix(l, m + 1);
        let lm = enc_node_items(l.take(m)).len() as int;
        let li = enc_node(l[m]).len() as int;
        assert forall|k: int| 0 <= k < lm implies #[trigger] enc_node_items(l).subrange(
            0,
            lm,
        )[k] == enc_node_items(l.take(m))[k] by {
            assert(enc_node_items(l).subrange(0, lm + li)[k] == enc_node_items(l.take(m + 1))[k]);
            assert(enc_node_items(l).subrange(0, lm + li)[k] == enc_node_items(l)[k]);
            assert(enc_node_items(l).subrange(0, lm)[k] == enc_node_items(l)[k]);
            assert(enc_node_items(l.take(m + 1))[k] == enc_node_items(l.take(m))[k]);
        }
        assert(enc_node_items(l).subrange(0, lm) =~= enc_node_items(l.take(m)));
        assert forall|k: int| 0 <= k < li implies #[trigger] enc_node_items(l).subrange(
            lm,
            lm + li,
        )[k] == enc_node(l[m])[k] by {
            assert(enc_node_items(l).subrange(0, lm + li)[lm + k] == enc_node_items(
                l.take(m + 1),
            )[lm + k]);
            assert(enc_node_items(l).subrange(0, lm + li)[lm + k] == enc_node_items(l)[lm + k]);
            assert(enc_node_items(l).subrange(lm, lm + li)[k] == enc_node_items(l)[lm + k]);
            assert(enc_node_items(l.take(m + 1))[lm + k] == enc_node(l[m])[k]);
        }
        assert(enc_node_items(l).subrange(lm, lm + li) =~= enc_node(l[m]));
    }
}

/// Every integer field of every file entry is above the parser's range
/// floor.
pub open spec fn files_in_range(l: Seq<File>) -> bool {
    forall|k: int| 0 <= k < l.len() ==> file_in_range(#[trigger] l[k])
}

/// Every node port value is above the parser's range floor.
pub open spec fn nodes_in_range(l: Seq<Node>) -> bool {
    forall|k: int| 0 <= k < l.len() ==> (#[trigger] l[k]).1 > i64::MIN
}

proof fn lemma_node_at_parts(s: Seq<u8>, c: int, n: Node)
    requires
        at_seq(s, c, enc_node(n)),
        s.len() <= u64::MAX,
    ensures
        s[c] == TOK_LIST,
        bytes_at(s, c + 1, n.0@),
        at_seq(s, c + 1, enc_bytes(n.0@)),
        n.1 > i64::MIN ==> int_at(s, c + 1 + enc_bytes(n.0@).len(), n.1),
        s[c + enc_node(n).len() - 1] == TOK_END,
        enc_node(n).len() == 2 + enc_bytes(n.0@).len() + enc_int(n.1 as int).len(),
{
    let a = enc_bytes(n.0@);
    let b = enc_int(n.1 as int);
    assert(enc_node(n) =~= (seq![TOK_LIST] + a + b) + seq![TOK_END]);
    lemma_at_seq_split(s, c, seq![TOK_LIST] + a + b, seq![TOK_END]);
    assert(seq![TOK_LIST] + a + b =~= (seq![TOK_LIST] + a) + b);
    lemma_at_seq_split(s, c, seq![TOK_LIST] + a, b);
    lemma_at_seq_split(s, c, seq![TOK_LIST], a);
    assert(s.subrange(c, c + 1)[0] == s[c]);
    assert(s.subrange(c + enc_node(n).len() - 1, c + enc_node(n).len() as int)[0] == s[c
        + enc_node(n).len() - 1]);
}

/// Parses a canonical list of string lists; every whole canonical list is
/// read back.
#[verifier::rlimit(100)]
#[verifier::spinoff_prover]
pub fn parse_str_list_list(input: &[u8], pos: usize) -> (r: Option<(Vec<Vec<Vec<u8>>>, usize)>)
    requires
        pos <= input@.len(),
    ensures
        r matches Some((l, end)) ==> pos < end <= input@.len() && input@.subrange(
            pos as int,
            end as int,
        ) == enc_str_list_list(l@),
        forall|l: Seq<Vec<Vec<u8>>>|
            at_seq(input@, pos as int, enc_str_list_list(l)) ==> (r matches Some(v) && v.1
                == pos + enc_str_list_list(l).len()),
{
    let len = input.len();
    if pos == len || input[pos] != TOK_LIST {
        proof {
            assert forall|l: Seq<Vec<Vec<u8>>>| !(at_seq(
                input@,
                pos as int,
                enc_str_list_list(l),
            )) by {
                if at_seq(input@, pos as int, enc_str_list_list(l)) {
                    assert(input@.subrange(pos as int, pos + enc_str_list_list(l).len() as int)[0]
                        == enc_str_list_list(l)[0]);
                }
            }
        }
        return None;
    }
    let mut items: Vec<Vec<Vec<u8>>> = Vec::new();
    let mut cur = pos + 1;
    proof {
        assert(input@.subrange(pos + 1, cur as int) =~= enc_str_list_items(items@));
        assert(enc_str_list_items(Seq::<Vec<Vec<u8>>>::empty()) =~= Seq::<u8>::empty());
    }
    loop
        invariant
            pos + 1 <= cur <= len,
            len == input@.len(),
            input@[pos as int] == TOK_LIST,
            input@.subrange(pos + 1, cur as int) == enc_str_list_items(items@),
            forall|l: Seq<Vec<Vec<u8>>>|
                at_seq(input@, pos as int, enc_str_list_list(l)) ==> (items@.len() <= l.len()
                    && cur == pos + 1 + enc_str_list_items(l.take(items@.len() as int)).len()),
        decreases len - cur,
    {
        let ghost j = items@.len() as int;
        proof {
            assert forall|l: Seq<Vec<Vec<u8>>>|
                at_seq(input@, pos as int, enc_str_list_list(l)) && j < l.len() implies (
            at_seq(input@, cur as int, enc_str_list(l[j]@))) by {
                lemma_at_seq_split(
                    input@,
                    pos as int,
                    seq![TOK_LIST] + enc_str_list_items(l),
                    seq![TOK_END],
                );
                lemma_at_seq_split(input@, pos as int, seq![TOK_LIST], enc_str_list_items(l));
                lemma_str_list_items_prefix(l, j);
                lemma_at_seq_within(
                    input@,
                    pos + 1,
                    enc_str_list_items(l),
                    enc_str_list_items(l.take(j)).len() as int,
                    enc_str_list(l[j]@),
                );
            }
            assert forall|l: Seq<Vec<Vec<u8>>>|
                at_seq(input@, pos as int, enc_str_list_list(l)) && j == l.len() implies (cur
                    < len && input@[cur as int] == TOK_END && cur + 1 == pos + enc_str_list_list(
                    l,
                ).len()) by {
                assert(l.take(j) =~= l);
                assert(input@.subrange(pos as int, pos + enc_str_list_list(l).len() as int)[cur - pos]
                    == enc_str_list_list(l)[cur - pos]);
                assert(enc_str_list_list(l)[cur - pos] == TOK_END);
            }
            assert forall|l: Seq<Vec<Vec<u8>>>|
                at_seq(input@, pos as int, enc_str_list_list(l)) && j < l.len() implies cur
                    < len && input@[cur as int] == TOK_LIST by {
                assert(input@.subrange(cur as int, cur + enc_str_list(l[j]@).len() as int)[0]
                    == enc_str_list(l[j]@)[0]);
                assert(enc_str_list(l[j]@)[0] == TOK_LIST);
            }
        }
        if cur == len {
            return None;
        }
        if input[cur] == TOK_END {
            proof {
                lemma_subrange_split(input@, pos as int, pos + 1, cur + 1);
                lemma_subrange_split(input@, pos + 1, cur as int, cur + 1);
                assert(input@.subrange(pos as int, pos + 1) =~= seq![TOK_LIST]);
                assert(input@.subrange(cur as int, cur + 1) =~= seq![TOK_END]);
                assert(input@.subrange(pos as int, cur + 1) =~= enc_str_list_list(items@));
                assert forall|l: Seq<Vec<Vec<u8>>>|
                    at_seq(input@, pos as int, enc_str_list_list(l)) implies cur + 1 == pos
                        + enc_str_list_list(l).len() by {
                    if j < l.len() {
                        assert(input@[cur as int] == TOK_LIST);
                        assert(false);
                    }
                }
            }
            return Some((items, cur + 1));
        }
        let (v, p) = match parse_str_list(input, cur) {
            None => {
                proof {
                    assert forall|l: Seq<Vec<Vec<u8>>>| !(at_seq(
                        input@,
                        pos as int,
                        enc_str_list_list(l),
                    )) by {
                        if at_seq(input@, pos as int, enc_str_list_list(l)) {
                            if j == l.len() {
                                assert(input@[cur as int] == TOK_END);
                            }
                            assert(false);
                        }
                    }
                }
                return None;
            },
            Some(x) => x,
        };
        proof {
            lemma_subrange_split(input@, pos + 1, cur as int, p as int);
            assert(items@.push(v).drop_last() =~= items@);
            assert(items@.push(v).last() == v);
            assert forall|l: Seq<Vec<Vec<u8>>>|
                at_seq(input@, pos as int, enc_str_list_list(l)) implies (items@.push(v).len()
                    <= l.len() && p == pos + 1 + enc_str_list_items(
                    l.take(items@.push(v).len() as int),
                ).len()) by {
                if j == l.len() {
                    assert(input@[cur as int] == TOK_END);
                    assert(false);
                }
                assert(l.take(j + 1).drop_last() =~= l.take(j));
                assert(l.take(j + 1).last() == l[j]);
                assert(enc_str_list_items(l.take(j + 1)) == enc_str_list_items(l.take(j)) + enc_str_list(l[j]@));
            }
        }
        items.push(v);
        cur = p;
    }
}


/// Every integer field of a file entry is above the parser's range floor.
pub open spec fn file_in_range(f: File) -> bool {
    f.length > i64::MIN
}

proof fn lemma_file_at_parts(s: Seq<u8>, pos: int, f: File)
    requires
        at_seq(s, pos, enc_file(f)),
        s.len() <= u64::MAX,
    ensures
        s[pos] == TOK_DICT,
        at_seq(s, pos + 1, enc_bytes(KEY_LENGTH@) + enc_int(f.length as int)),
        at_seq(
            s,
            pos + 1 + enc_bytes(KEY_LENGTH@).len() + enc_int(f.length as int).len(),
            opt_bytes_field(KEY_MD5SUM@, f.md5sum),
        ),
        f.md5sum is None ==> !bytes_at(
            s,
            pos + 1 + enc_bytes(KEY_LENGTH@).len() + enc_int(f.length as int).len(),
            KEY_MD5SUM@,
        ),
        at_seq(
            s,
            pos + 1 + enc_bytes(KEY_LENGTH@).len() + enc_int(f.length as int).len()
                + opt_bytes_field(KEY_MD5SUM@, f.md5sum).len(),
            enc_bytes(KEY_PATH@) + enc_str_list(f.path@),
        ),
        pos + enc_file(f).len() - 1 < s.len() && s[pos + enc_file(f).len() - 1] == TOK_END,
        enc_file(f).len() == 1 + enc_bytes(KEY_LENGTH@).len() + enc_int(f.length as int).len()
            + opt_bytes_field(KEY_MD5SUM@, f.md5sum).len() + enc_bytes(KEY_PATH@).len()
            + enc_str_list(f.path@).len() + 1,
{
    let a = enc_bytes(KEY_LENGTH@) + enc_int(f.length as int);
    let b = opt_bytes_field(KEY_MD5SUM@, f.md5sum);
    let c = enc_bytes(KEY_PATH@) + enc_str_list(f.path@);
    assert(enc_file(f) =~= (seq![TOK_DICT] + a + b + c) + seq![TOK_END]);
    lemma_at_seq_split(s, pos, seq![TOK_DICT] + a + b + c, seq![TOK_END]);
    assert(seq![TOK_DICT] + a + b + c =~= (seq![TOK_DICT] + a + b) + c);
    lemma_at_seq_split(s, pos, seq![TOK_DICT] + a + b, c);
    assert(seq![TOK_DICT] + a + b =~= (seq![TOK_DICT] + a) + b);
    lemma_at_seq_split(s, pos, seq![TOK_DICT] + a, b);
    lemma_at_seq_split(s, pos, seq![TOK_DICT], a);
    assert(s.subrange(pos, pos + 1)[0] == s[pos]);
    assert(s.subrange(
        pos + enc_file(f).len() - 1,
        pos + enc_file(f).len() as int,
    )[0] == s[pos + enc_file(f).len() - 1]);
    if f.md5sum is None {
        let c2 = pos + 1 + a.len() as int;
        lemma_at_seq_split(s, c2, enc_bytes(KEY_PATH@), enc_str_list(f.path@));
        if bytes_at(s, c2, KEY_MD5SUM@) {
            lemma_enc_bytes_unique(s, c2, KEY_MD5SUM@, KEY_PATH@);
            assert(KEY_MD5SUM@.len() == 6 && KEY_PATH@.len() == 4);
        }
    }
}

/// Parses one canonical file entry; every whole canonical entry in range is
/// read back.
#[verifier::rlimit(100)]
#[verifier::spinoff_prover]
pub fn parse_file(input: &[u8], pos: usize) -> (r: Option<(File, usize)>)
    requires
        pos <= input@.len(),
    ensures
        r matches Some((f, end)) ==> pos < end <= input@.len() && input@.subrange(
            pos as int,
            end as int,
        ) == enc_file(f),
        forall|f: File|
            file_in_range(f) && at_seq(input@, pos as int, enc_file(f)) ==> (r matches Some(v)
                && v.1 == pos + enc_file(f).len()),
{
    let len = input.len();
    if pos == len || input[pos] != TOK_DICT {
    proof {
        assert forall|f: File| !(file_in_range(f) && at_seq(input@, pos as int, enc_file(f))) by {
            if file_in_range(f) && at_seq(input@, pos as int, enc_file(f)) {
                lemma_file_at_parts(input@, pos as int, f);
                lemma_at_seq_split(
                    input@,
                    pos + 1,
                    enc_bytes(KEY_LENGTH@),
                    enc_int(f.length as int),
                );
                assert(int_at(input@, pos + 1 + enc_bytes(KEY_LENGTH@).len(), f.length));
                let c2 = pos + 1 + enc_bytes(KEY_LENGTH@).len() + enc_int(f.length as int).len();
                match f.md5sum {
                    Option::Some(m) => {
                        lemma_at_seq_split(input@, c2, enc_bytes(KEY_MD5SUM@), enc_bytes(m@));
                        assert(bytes_at(input@, c2 + enc_bytes(KEY_MD5SUM@).len(), m@));
                    },
                    Option::None => {},
                }
                let c3 = c2 + opt_bytes_field(KEY_MD5SUM@, f.md5sum).len();
                lemma_at_seq_split(input@, c3, enc_bytes(KEY_PATH@), enc_str_list(f.path@));
            }
        }
    }
        return None;
    }
    let mut cur = pos + 1;
    let p = match try_key(input, cur, KEY_LENGTH.as_slice()) {
        None => {
    proof {
        assert forall|f: File| !(file_in_range(f) && at_seq(input@, pos as int, enc_file(f))) by {
            if file_in_range(f) && at_seq(input@, pos as int, enc_file(f)) {
                lemma_file_at_parts(input@, pos as int, f);
                lemma_at_seq_split(
                    input@,
                    pos + 1,
                    enc_bytes(KEY_LENGTH@),
                    enc_int(f.length as int),
                );
                assert(int_at(input@, pos + 1 + enc_bytes(KEY_LENGTH@).len(), f.length));
                let c2 = pos + 1 + enc_bytes(KEY_LENGTH@).len() + enc_int(f.length as int).len();
                match f.md5sum {
                    Option::Some(m) => {
                        lemma_at_seq_split(input@, c2, enc_bytes(KEY_MD5SUM@), enc_bytes(m@));
                        assert(bytes_at(input@, c2 + enc_bytes(KEY_MD5SUM@).len(), m@));
                    },
                    Option::None => {},
                }
                let c3 = c2 + opt_bytes_field(KEY_MD5SUM@, f.md5sum).len();
                lemma_at_seq_split(input@, c3, enc_bytes(KEY_PATH@), enc_str_list(f.path@));
            }
        }
    }
            return None;
        },
        Some(p) => p,
    };
    let (length, p2) = match parse_int(input, p) {
        None => {
    proof {
        assert forall|f: File| !(file_in_range(f) && at_seq(input@, pos as int, enc_file(f))) by {
            if file_in_range(f) && at_seq(input@, pos as int, enc_file(f)) {
                lemma_file_at_parts(input@, pos as int, f);
                lemma_at_seq_split(
                    input@,
                    pos + 1,
                    enc_bytes(KEY_LENGTH@),
                    enc_int(f.length as int),
                );
                assert(int_at(input@, pos + 1 + enc_bytes(KEY_LENGTH@).len(), f.length));
                let c2 = pos + 1 + enc_bytes(KEY_LENGTH@).len() + enc_int(f.length as int).len();
                match f.md5sum {
                    Option::Some(m) => {
                        lemma_at_seq_split(input@, c2, enc_bytes(KEY_MD5SUM@), enc_bytes(m@));
                        assert(bytes_at(input@, c2 + enc_bytes(KEY_MD5SUM@).len(), m@));
                    },
                    Option::None => {},
                }
                let c3 = c2 + opt_bytes_field(KEY_MD5SUM@, f.md5sum).len();
                lemma_at_seq_split(input@, c3, enc_bytes(KEY_PATH@), enc_str_list(f.path@));
            }
        }
    }
            return None;
        },
        Some(v) => v,
    };
    proof {
        lemma_subrange_split(input@, pos + 1, cur as int, p as int);
        lemma_subrange_split(input@, pos + 1, p as int, p2 as int);
    }
    cur = p2;
    let ghost c1 = enc_bytes(KEY_LENGTH@) + enc_int(length as int);
    proof {
        assert(input@.subrange(pos + 1, cur as int) =~= c1);
    }
    let mut md5sum: Option<Vec<u8>> = None;
    if let Some(p) = try_key(input, cur, KEY_MD5SUM.as_slice()) {
        let (v, p2) = match parse_bytes(input, p) {
            None => {
    proof {
                assert forall|f: File| !(file_in_range(f) && at_seq(input@, pos as int, enc_file(f))) by {
                    if file_in_range(f) && at_seq(input@, pos as int, enc_file(f)) {
                        lemma_file_at_parts(input@, pos as int, f);
                        lemma_at_seq_split(
                            input@,
                            pos + 1,
                            enc_bytes(KEY_LENGTH@),
                            enc_int(f.length as int),
                        );
                        assert(int_at(input@, pos + 1 + enc_bytes(KEY_LENGTH@).len(), f.length));
                        let c2 = pos + 1 + enc_bytes(KEY_LENGTH@).len() + enc_int(f.length as int).len();
                        match f.md5sum {
                            Option::Some(m) => {
                                lemma_at_seq_split(
                                    input@,
                                    c2,
                                    enc_bytes(KEY_MD5SUM@),
                                    enc_bytes(m@),
                                );
                                assert(bytes_at(input@, c2 + enc_bytes(KEY_MD5SUM@).len(), m@));
                            },
                            Option::None => {},
                        }
                        let c3 = c2 + opt_bytes_field(KEY_MD5SUM@, f.md5sum).len();
                        lemma_at_seq_split(input@, c3, enc_bytes(KEY_PATH@), enc_str_list(f.path@));
                    }
                }
            }
            return None;
            },
            Some(x) => x,
        };
        proof {
            lemma_subrange_split(input@, pos + 1, cur as int, p as int);
            lemma_subrange_split(input@, pos + 1, p as int, p2 as int);
        }
        md5sum = Some(v);
        cur = p2;
    }
    let ghost c2 = c1 + opt_bytes_field(KEY_MD5SUM@, md5sum);
    proof {
        assert(input@.subrange(pos + 1, cur as int) =~= c2);
    }
    let p = match try_key(input, cur, KEY_PATH.as_slice()) {
        None => {
    proof {
        assert forall|f: File| !(file_in_range(f) && at_seq(input@, pos as int, enc_file(f))) by {
            if file_in_range(f) && at_seq(input@, pos as int, enc_file(f)) {
                lemma_file_at_parts(input@, pos as int, f);
                lemma_at_seq_split(
                    input@,
                    pos + 1,
                    enc_bytes(KEY_LENGTH@),
                    enc_int(f.length as int),
                );
                assert(int_at(input@, pos + 1 + enc_bytes(KEY_LENGTH@).len(), f.length));
                let c2 = pos + 1 + enc_bytes(KEY_LENGTH@).len() + enc_int(f.length as int).len();
                match f.md5sum {
                    Option::Some(m) => {
                        lemma_at_seq_split(input@, c2, enc_bytes(KEY_MD5SUM@), enc_bytes(m@));
                        assert(bytes_at(input@, c2 + enc_bytes(KEY_MD5SUM@).len(), m@));
                    },
                    Option::None => {},
                }
                let c3 = c2 + opt_bytes_field(KEY_MD5SUM@, f.md5sum).len();
                lemma_at_seq_split(input@, c3, enc_bytes(KEY_PATH@), enc_str_list(f.path@));
            }
        }
    }
            return None;
        },
        Some(p) => p,
    };
    let (path, p2) = match parse_str_list(input, p) {
        None => {
    proof {
        assert forall|f: File| !(file_in_range(f) && at_seq(input@, pos as int, enc_file(f))) by {
            if file_in_range(f) && at_seq(input@, pos as int, enc_file(f)) {
                lemma_file_at_parts(input@, pos as int, f);
                lemma_at_seq_split(
                    input@,
                    pos + 1,
                    enc_bytes(KEY_LENGTH@),
                    enc_int(f.length as int),
                );
                assert(int_at(input@, pos + 1 + enc_bytes(KEY_LENGTH@).len(), f.length));
                let c2 = pos + 1 + enc_bytes(KEY_LENGTH@).len() + enc_int(f.length as int).len();
                match f.md5sum {
                    Option::Some(m) => {
                        lemma_at_seq_split(input@, c2, enc_bytes(KEY_MD5SUM@), enc_bytes(m@));
                        assert(bytes_at(input@, c2 + enc_bytes(KEY_MD5SUM@).len(), m@));
                    },
                    Option::None => {},
                }
                let c3 = c2 + opt_bytes_field(KEY_MD5SUM@, f.md5sum).len();
                lemma_at_seq_split(input@, c3, enc_bytes(KEY_PATH@), enc_str_list(f.path@));
            }
        }
    }
            return None;
        },
        Some(v) => v,
    };
    proof {
        lemma_subrange_split(input@, pos + 1, cur as int, p as int);
        lemma_subrange_split(input@, pos + 1, p as int, p2 as int);
    }
    cur = p2;
    let ghost c3 = c2 + enc_bytes(KEY_PATH@) + enc_str_list(path@);
    proof {
        assert(input@.subrange(pos + 1, cur as int) =~= c3);
    }
    if cur == len || input[cur] != TOK_END {
    proof {
        assert forall|f: File| !(file_in_range(f) && at_seq(input@, pos as int, enc_file(f))) by {
            if file_in_range(f) && at_seq(input@, pos as int, enc_file(f)) {
                lemma_file_at_parts(input@, pos as int, f);
                lemma_at_seq_split(
                    input@,
                    pos + 1,
                    enc_bytes(KEY_LENGTH@),
                    enc_int(f.length as int),
                );
                assert(int_at(input@, pos + 1 + enc_bytes(KEY_LENGTH@).len(), f.length));
                let c2 = pos + 1 + enc_bytes(KEY_LENGTH@).len() + enc_int(f.length as int).len();
                match f.md5sum {
                    Option::Some(m) => {
                        lemma_at_seq_split(input@, c2, enc_bytes(KEY_MD5SUM@), enc_bytes(m@));
                        assert(bytes_at(input@, c2 + enc_bytes(KEY_MD5SUM@).len(), m@));
                    },
                    Option::None => {},
                }
                let c3 = c2 + opt_bytes_field(KEY_MD5SUM@, f.md5sum).len();
                lemma_at_seq_split(input@, c3, enc_bytes(KEY_PATH@), enc_str_list(f.path@));
            }
        }
    }
        return None;
    }
    let f = File { path, length, md5sum };
    proof {
        lemma_subrange_split(input@, pos as int, pos + 1, cur + 1);
        lemma_subrange_split(input@, pos + 1, cur as int, cur + 1);
        assert(input@.subrange(pos as int, pos + 1) =~= seq![TOK_DICT]);
        assert(input@.subrange(cur as int, cur + 1) =~= seq![TOK_END]);
        assert(input@.subrange(pos as int, cur + 1) =~= enc_file(f));
        assert forall|g: File|
            file_in_range(g) && at_seq(input@, pos as int, enc_file(g)) implies cur + 1 == pos
                + enc_file(g).len() by {
            if file_in_range(g) && at_seq(input@, pos as int, enc_file(g)) {
            lemma_file_at_parts(input@, pos as int, g);
                lemma_at_seq_split(
                    input@,
                    pos + 1,
                    enc_bytes(KEY_LENGTH@),
                    enc_int(g.length as int),
                );
                assert(int_at(input@, pos + 1 + enc_bytes(KEY_LENGTH@).len(), g.length));
                let c2 = pos + 1 + enc_bytes(KEY_LENGTH@).len() + enc_int(g.length as int).len();
                match g.md5sum {
                    Option::Some(m) => {
                        lemma_at_seq_split(input@, c2, enc_bytes(KEY_MD5SUM@), enc_bytes(m@));
                        assert(bytes_at(input@, c2 + enc_bytes(KEY_MD5SUM@).len(), m@));
                    },
                    Option::None => {},
                }
                let c3 = c2 + opt_bytes_field(KEY_MD5SUM@, g.md5sum).len();
                lemma_at_seq_split(input@, c3, enc_bytes(KEY_PATH@), enc_str_list(g.path@));
            }
        }
    }
    Some((f, cur + 1))
}

/// Parses the canonical file list; every whole canonical list in range is
/// read back.
#[verifier::rlimit(100)]
#[verifier::spinoff_prover]
pub fn parse_file_list(input: &[u8], pos: usize) -> (r: Option<(Vec<File>, usize)>)
    requires
        pos <= input@.len(),
    ensures
        r matches Some((l, end)) ==> pos < end <= input@.len() && input@.subrange(
            pos as int,
            end as int,
        ) == enc_file_list(l@),
        forall|l: Seq<File>|
            files_in_range(l) && at_seq(input@, pos as int, enc_file_list(l)) ==> (r matches Some(v) && v.1
                == pos + enc_file_list(l).len()),
{
    let len = input.len();
    if pos == len || input[pos] != TOK_LIST {
        proof {
            assert forall|l: Seq<File>| !(files_in_range(l) && at_seq(
                input@,
                pos as int,
                enc_file_list(l),
            )) by {
                if at_seq(input@, pos as int, enc_file_list(l)) {
                    assert(input@.subrange(pos as int, pos + enc_file_list(l).len() as int)[0]
                        == enc_file_list(l)[0]);
                }
            }
        }
        return None;
    }
    let mut items: Vec<File> = Vec::new();
    let mut cur = pos + 1;
    proof {
        assert(input@.subrange(pos + 1, cur as int) =~= enc_file_items(items@));
        assert(enc_file_items(Seq::<File>::empty()) =~= Seq::<u8>::empty());
    }
    loop
        invariant
            pos + 1 <= cur <= len,
            len == input@.len(),
            input@[pos as int] == TOK_LIST,
            input@.subrange(pos + 1, cur as int) == enc_file_items(items@),
            forall|l: Seq<File>|
                files_in_range(l) && at_seq(input@, pos as int, enc_file_list(l)) ==> (items@.len() <= l.len()
                    && cur == pos + 1 + enc_file_items(l.take(items@.len() as int)).len()),
        decreases len - cur,
    {
        let ghost j = items@.len() as int;
        proof {
            assert forall|l: Seq<File>|
                files_in_range(l) && at_seq(input@, pos as int, enc_file_list(l)) && j < l.len() implies (
            at_seq(input@, cur as int, enc_file(l[j])) && file_in_range(l[j])) by {
                lemma_at_seq_split(
                    input@,
                    pos as int,
                    seq![TOK_LIST] + enc_file_items(l),
                    seq![TOK_END],
                );
                lemma_at_seq_split(input@, pos as int, seq![TOK_LIST], enc_file_items(l));
                lemma_file_items_prefix(l, j);
                lemma_at_seq_within(
                    input@,
                    pos + 1,
                    enc_file_items(l),
                    enc_file_items(l.take(j)).len() as int,
                    enc_file(l[j]),
                );
            }
            assert forall|l: Seq<File>|
                files_in_range(l) && at_seq(input@, pos as int, enc_file_list(l)) && j == l.len() implies (cur
                    < len && input@[cur as int] == TOK_END && cur + 1 == pos + enc_file_list(
                    l,
                ).len()) by {
                assert(l.take(j) =~= l);
                assert(input@.subrange(pos as int, pos + enc_file_list(l).len() as int)[cur - pos]
                    == enc_file_list(l)[cur - pos]);
                assert(enc_file_list(l)[cur - pos] == TOK_END);
            }
            assert forall|l: Seq<File>|
                files_in_range(l) && at_seq(input@, pos as int, enc_file_list(l)) && j < l.len() implies cur
                    < len && input@[cur as int] == TOK_DICT by {
                assert(input@.subrange(cur as int, cur + enc_file(l[j]).len() as int)[0]
                    == enc_file(l[j])[0]);
                assert(enc_file(l[j])[0] == TOK_DICT);
            }
        }
        if cur == len {
            return None;
        }
        if input[cur] == TOK_END {
            proof {
                lemma_subrange_split(input@, pos as int, pos + 1, cur + 1);
                lemma_subrange_split(input@, pos + 1, cur as int, cur + 1);
                assert(input@.subrange(pos as int, pos + 1) =~= seq![TOK_LIST]);
                assert(input@.subrange(cur as int, cur + 1) =~= seq![TOK_END]);
                assert(input@.subrange(pos as int, cur + 1) =~= enc_file_list(items@));
                assert forall|l: Seq<File>|
                    files_in_range(l) && at_seq(input@, pos as int, enc_file_list(l)) implies cur + 1 == pos
                        + enc_file_list(l).len() by {
                    if j < l.len() {
                        assert(input@[cur as int] == TOK_DICT);
                        assert(false);
                    }
                }
            }
            return Some((items, cur + 1));
        }
        let (v, p) = match parse_file(input, cur) {
            None => {
                proof {
                    assert forall|l: Seq<File>| !(files_in_range(l) && at_seq(
                        input@,
                        pos as int,
                        enc_file_list(l),
                    )) by {
                        if files_in_range(l) && at_seq(input@, pos as int, enc_file_list(l)) {
                            if j == l.len() {
                                assert(input@[cur as int] == TOK_END);
                            }
                            assert(false);
                        }
                    }
                }
                return None;
            },
            Some(x) => x,
        };
        proof {
            lemma_subrange_split(input@, pos + 1, cur as int, p as int);
            assert(items@.push(v).drop_last() =~= items@);
            assert(items@.push(v).last() == v);
            assert forall|l: Seq<File>|
                files_in_range(l) && at_seq(input@, pos as int, enc_file_list(l)) implies (items@.push(v).len()
                    <= l.len() && p == pos + 1 + enc_file_items(
                    l.take(items@.push(v).len() as int),
                ).len()) by {
                if j == l.len() {
                    assert(input@[cur as int] == TOK_END);
                    assert(false);
                }
                assert(l.take(j + 1).drop_last() =~= l.take(j));
                assert(l.take(j + 1).last() == l[j]);
                assert(enc_file_items(l.take(j + 1)) == enc_file_items(l.take(j)) + enc_file(l[j]));
            }
        }
        items.push(v);
        cur = p;
    }
}

/// Parses the canonical node list; every whole canonical list in range is
/// read back.
#[verifier::rlimit(100)]
#[verifier::spinoff_prover]
pub fn parse_node_list(input: &[u8], pos: usize) -> (r: Option<(Vec<Node>, usize)>)
    requires
        pos <= input@.len(),
    ensures
        r matches Some((l, end)) ==> pos < end <= input@.len() && input@.subrange(
            pos as int,
            end as int,
        ) == enc_node_list(l@),
        forall|l: Seq<Node>|
            nodes_in_range(l) && at_seq(input@, pos as int, enc_node_list(l)) ==> (r matches Some(
                v,
            ) && v.1 == pos + enc_node_list(l).len()),
{
    let len = input.len();
    if pos == len || input[pos] != TOK_LIST {
        proof {
            assert forall|l: Seq<Node>| !(nodes_in_range(l) && at_seq(
                input@,
                pos as int,
                enc_node_list(l),
            )) by {
                if at_seq(input@, pos as int, enc_node_list(l)) {
                    assert(input@.subrange(pos as int, pos + enc_node_list(l).len() as int)[0]
                        == enc_node_list(l)[0]);
                }
            }
        }
        return None;
    }
    let mut items: Vec<Node> = Vec::new();
    let mut cur = pos + 1;
    proof {
        assert(input@.subrange(pos + 1, cur as int) =~= enc_node_items(items@));
        assert(enc_node_items(Seq::<Node>::empty()) =~= Seq::<u8>::empty());
    }
    loop
        invariant
            pos + 1 <= cur <= len,
            len == input@.len(),
            input@[pos as int] == TOK_LIST,
            input@.subrange(pos + 1, cur as int) == enc_node_items(items@),
            forall|l: Seq<Node>|
                nodes_in_range(l) && at_seq(input@, pos as int, enc_node_list(l)) ==> (items@.len()
                    <= l.len() && cur == pos + 1 + enc_node_items(
                    l.take(items@.len() as int),
                ).len()),
        decreases len - cur,
    {
        let ghost j = items@.len() as int;
        proof {
            assert forall|l: Seq<Node>|
                nodes_in_range(l) && at_seq(input@, pos as int, enc_node_list(l)) && j
                    < l.len() implies (at_seq(input@, cur as int, enc_node(l[j])) && bytes_at(
                input@,
                cur + 1,
                l[j].0@,
            ) && int_at(input@, cur + 1 + enc_bytes(l[j].0@).len(), l[j].1) && input@[cur as int]
                == TOK_LIST && input@[cur + enc_node(l[j]).len() - 1] == TOK_END) by {
                lemma_at_seq_split(
                    input@,
                    pos as int,
                    seq![TOK_LIST] + enc_node_items(l),
                    seq![TOK_END],
                );
                lemma_at_seq_split(input@, pos as int, seq![TOK_LIST], enc_node_items(l));
                lemma_node_items_prefix(l, j);
                lemma_at_seq_within(
                    input@,
                    pos + 1,
                    enc_node_items(l),
                    enc_node_items(l.take(j)).len() as int,
                    enc_node(l[j]),
                );
                lemma_node_at_parts(input@, cur as int, l[j]);
            }
            assert forall|l: Seq<Node>|
                nodes_in_range(l) && at_seq(input@, pos as int, enc_node_list(l)) && j
                    == l.len() implies (cur < len && input@[cur as int] == TOK_END && cur + 1 == pos
                    + enc_node_list(l).len()) by {
                assert(l.take(j) =~= l);
                assert(input@.subrange(pos as int, pos + enc_node_list(l).len() as int)[cur - pos]
                    == enc_node_list(l)[cur - pos]);
                assert(enc_node_list(l)[cur - pos] == TOK_END);
            }
        }
        if cur == len {
            return None;
        }
        if input[cur] == TOK_END {
            proof {
                lemma_subrange_split(input@, pos as int, pos + 1, cur + 1);
                lemma_subrange_split(input@, pos + 1, cur as int, cur + 1);
                assert(input@.subrange(pos as int, pos + 1) =~= seq![TOK_LIST]);
                assert(input@.subrange(cur as int, cur + 1) =~= seq![TOK_END]);
                assert(input@.subrange(pos as int, cur + 1) =~= enc_node_list(items@));
                assert forall|l: Seq<Node>|
                    nodes_in_range(l) && at_seq(input@, pos as int, enc_node_list(l)) implies cur
                        + 1 == pos + enc_node_list(l).len() by {
                    if j < l.len() {
                        assert(input@[cur as int] == TOK_LIST);
                        assert(false);
                    }
                }
            }
            return Some((items, cur + 1));
        }
        if input[cur] != TOK_LIST {
            proof {
                assert forall|l: Seq<Node>| !(nodes_in_range(l) && at_seq(
                    input@,
                    pos as int,
                    enc_node_list(l),
                )) by {
                    if nodes_in_range(l) && at_seq(input@, pos as int, enc_node_list(l)) {
                        assert(false);
                    }
                }
            }
            return None;
        }
        let (host, q1) = match parse_bytes(input, cur + 1) {
            None => {
                proof {
                    assert forall|l: Seq<Node>| !(nodes_in_range(l) && at_seq(
                        input@,
                        pos as int,
                        enc_node_list(l),
                    )) by {
                        if nodes_in_range(l) && at_seq(input@, pos as int, enc_node_list(l)) {
                            assert(false);
                        }
                    }
                }
                return None;
            },
            Some(x) => x,
        };
        let (port, q2) = match parse_int(input, q1) {
            None => {
                proof {
                    assert forall|l: Seq<Node>| !(nodes_in_range(l) && at_seq(
                        input@,
                        pos as int,
                        enc_node_list(l),
                    )) by {
                        if nodes_in_range(l) && at_seq(input@, pos as int, enc_node_list(l)) {
                            assert(false);
                        }
                    }
                }
                return None;
            },
            Some(x) => x,
        };
        if q2 == len || input[q2] != TOK_END {
            proof {
                assert forall|l: Seq<Node>| !(nodes_in_range(l) && at_seq(
                    input@,
                    pos as int,
                    enc_node_list(l),
                )) by {
                    if nodes_in_range(l) && at_seq(input@, pos as int, enc_node_list(l)) {
                        assert(false);
                    }
                }
            }
            return None;
        }
        let node = Node(host, port);
        proof {
            lemma_subrange_split(input@, cur as int, cur + 1, q1 as int);
            lemma_subrange_split(input@, cur as int, q1 as int, q2 as int);
            lemma_subrange_split(input@, cur as int, q2 as int, q2 + 1);
            assert(input@.subrange(cur as int, cur + 1) =~= seq![TOK_LIST]);
            assert(input@.subrange(q2 as int, q2 + 1) =~= seq![TOK_END]);
            assert(input@.subrange(cur as int, q2 + 1) =~= enc_node(node));
            lemma_subrange_split(input@, pos + 1, cur as int, q2 + 1);
            assert(items@.push(node).drop_last() =~= items@);
            assert(items@.push(node).last() == node);
            assert forall|l: Seq<Node>|
                nodes_in_range(l) && at_seq(input@, pos as int, enc_node_list(l)) implies (
            items@.push(node).len() <= l.len() && q2 + 1 == pos + 1 + enc_node_items(
                l.take(items@.push(node).len() as int),
            ).len()) by {
                if j == l.len() {
                    assert(input@[cur as int] == TOK_END);
                    assert(false);
                }
                assert(l.take(j + 1).drop_last() =~= l.take(j));
                assert(l.take(j + 1).last() == l[j]);
                assert(enc_node_items(l.take(j + 1)) == enc_node_items(l.take(j)) + enc_node(
                    l[j],
                ));
            }
        }
        items.push(node);
        cur = q2 + 1;
    }
}

/// Parses the canonical info section.
#[verifier::rlimit(100)]
#[verifier::spinoff_prover]
pub fn parse_info(input: &[u8], pos: usize) -> (r: Option<(Info, usize)>)
    requires
        pos <= input@.len(),
    ensures
        r matches Some((info, end)) ==> pos < end <= input@.len() && input@.subrange(
            pos as int,
            end as int,
        ) == enc_info(info),
{
    let len = input.len();
    if pos == len || input[pos] != TOK_DICT {
        return None;
    }
    let mut cur = pos + 1;
    let ghost c0 = seq![TOK_DICT];
    proof {
        assert(input@.subrange(pos as int, cur as int) =~= c0);
    }
    let (files, p) = match parse_opt_file_list_field(input, cur, KEY_FILES.as_slice()) {
        None => {
            return None;
        },
        Some(x) => x,
    };
    proof {
        lemma_subrange_split(input@, pos as int, cur as int, p as int);
    }
    cur = p;
    let ghost c1 = c0 + opt_file_list_field(KEY_FILES@, files);
    proof {
        assert(input@.subrange(pos as int, cur as int) == c1);
    }
    let (length, p) = match parse_opt_int_field(input, cur, KEY_LENGTH.as_slice()) {
        None => {
            return None;
        },
        Some(x) => x,
    };
    proof {
        lemma_subrange_split(input@, pos as int, cur as int, p as int);
    }
    cur = p;
    let ghost c2 = c1 + opt_int_field(KEY_LENGTH@, length);
    proof {
        assert(input@.subrange(pos as int, cur as int) == c2);
    }
    let (md5sum, p) = match parse_opt_bytes_field(input, cur, KEY_MD5SUM.as_slice()) {
        None => {
            return None;
        },
        Some(x) => x,
    };
    proof {
        lemma_subrange_split(input@, pos as int, cur as int, p as int);
    }
    cur = p;
    let ghost c3 = c2 + opt_bytes_field(KEY_MD5SUM@, md5sum);
    proof {
        assert(input@.subrange(pos as int, cur as int) == c3);
    }
    let (name, p) = match parse_req_bytes_field(input, cur, KEY_NAME.as_slice()) {
        None => {
            return None;
        },
        Some(x) => x,
    };
    proof {
        lemma_subrange_split(input@, pos as int, cur as int, p as int);
    }
    cur = p;
    let ghost c4 = c3 + req_bytes_field(KEY_NAME@, name);
    proof {
        assert(input@.subrange(pos as int, cur as int) == c4);
    }
    let (path, p) = match parse_opt_str_list_field(input, cur, KEY_PATH.as_slice()) {
        None => {
            return None;
        },
        Some(x) => x,
    };
    proof {
        lemma_subrange_split(input@, pos as int, cur as int, p as int);
    }
    cur = p;
    let ghost c5 = c4 + opt_str_list_field(KEY_PATH@, path);
    proof {
        assert(input@.subrange(pos as int, cur as int) == c5);
    }
    let (piece_length, p) = match parse_req_int_field(input, cur, KEY_PIECE_LENGTH.as_slice()) {
        None => {
            return None;
        },
        Some(x) => x,
    };
    proof {
        lemma_subrange_split(input@, pos as int, cur as int, p as int);
    }
    cur = p;
    let ghost c6 = c5 + req_int_field(KEY_PIECE_LENGTH@, piece_length);
    proof {
        assert(input@.subrange(pos as int, cur as int) == c6);
    }
    let (pieces, p) = match parse_req_bytes_field(input, cur, KEY_PIECES.as_slice()) {
        None => {
            return None;
        },
        Some(x) => x,
    };
    proof {
        lemma_subrange_split(input@, pos as int, cur as int, p as int);
    }
    cur = p;
    let ghost c7 = c6 + req_bytes_field(KEY_PIECES@, pieces);
    proof {
        assert(input@.subrange(pos as int, cur as int) == c7);
    }
    let (private, p) = match parse_opt_u8_field(input, cur, KEY_PRIVATE.as_slice()) {
        None => {
            return None;
        },
        Some(x) => x,
    };
    proof {
        lemma_subrange_split(input@, pos as int, cur as int, p as int);
    }
    cur = p;
    let ghost c8 = c7 + opt_u8_field(KEY_PRIVATE@, private);
    proof {
        assert(input@.subrange(pos as int, cur as int) == c8);
    }
    let (root_hash, p) = match parse_opt_bytes_field(input, cur, KEY_ROOT_HASH.as_slice()) {
        None => {
            return None;
        },
        Some(x) => x,
    };
    proof {
        lemma_subrange_split(input@, pos as int, cur as int, p as int);
    }
    cur = p;
    let ghost c9 = c8 + opt_bytes_field(KEY_ROOT_HASH@, root_hash);
    proof {
        assert(input@.subrange(pos as int, cur as int) == c9);
    }
    if cur == len || input[cur] != TOK_END {
        return None;
    }
    let info = Info { name, pieces, piece_length, md5sum, length, files, private, path, root_hash };
    proof {
        lemma_subrange_split(input@, pos as int, cur as int, cur + 1);
        assert(input@.subrange(cur as int, cur + 1) =~= seq![TOK_END]);
        assert(input@.subrange(pos as int, cur + 1) == c9 + seq![TOK_END]);
        assert(c9 + seq![TOK_END] == enc_info(info));
    }
    Some((info, cur + 1))
}

/// Parses a whole canonical descriptor.
#[verifier::rlimit(100)]
#[verifier::spinoff_prover]
pub fn parse_meta_info(input: &[u8], pos: usize) -> (r: Option<(MetaInfo, usize)>)
    requires
        pos <= input@.len(),
    ensures
        r matches Some((m, end)) ==> pos < end <= input@.len() && input@.subrange(
            pos as int,
            end as int,
        ) == enc_meta_info(m),
{
    let len = input.len();
    if pos == len || input[pos] != TOK_DICT {
        return None;
    }
    let mut cur = pos + 1;
    let ghost c0 = seq![TOK_DICT];
    proof {
        assert(input@.subrange(pos as int, cur as int) =~= c0);
    }
    let (announce, p) = match parse_opt_bytes_field(input, cur, KEY_ANNOUNCE.as_slice()) {
        None => {
            return None;
        },
        Some(x) => x,
    };
    proof {
        lemma_subrange_split(input@, pos as int, cur as int, p as int);
    }
    cur = p;
    let ghost c1 = c0 + opt_bytes_field(KEY_ANNOUNCE@, announce);
    proof {
        assert(input@.subrange(pos as int, cur as int) == c1);
    }
    let (announce_list, p) = match parse_opt_str_list_list_field(input, cur, KEY_ANNOUNCE_LIST.as_slice()) {
        None => {
            return None;
        },
        Some(x) => x,
    };
    proof {
        lemma_subrange_split(input@, pos as int, cur as int, p as int);
    }
    cur = p;
    let ghost c2 = c1 + opt_str_list_list_field(KEY_ANNOUNCE_LIST@, announce_list);
    proof {
        assert(input@.subrange(pos as int, cur as int) == c2);
    }
    let (comment, p) = match parse_opt_bytes_field(input, cur, KEY_COMMENT.as_slice()) {
        None => {
            return None;
        },
        Some(x) => x,
    };
    proof {
        lemma_subrange_split(input@, pos as int, cur as int, p as int);
    }
    cur = p;
    let ghost c3 = c2 + opt_bytes_field(KEY_COMMENT@, comment);
    proof {
        assert(input@.subrange(pos as int, cur as int) == c3);
    }
    let (created_by, p) = match parse_opt_bytes_field(input, cur, KEY_CREATED_BY.as_slice()) {
        None => {
            return None;
        },
        Some(x) => x,
    };
    proof {
        lemma_subrange_split(input@, pos as int, cur as int, p as int);
    }
    cur = p;
    let ghost c4 = c3 + opt_bytes_field(KEY_CREATED_BY@, created_by);
    proof {
        assert(input@.subrange(pos as int, cur as int) == c4);
    }
    let (creation_date, p) = match parse_opt_int_field(input, cur, KEY_CREATION_DATE.as_slice()) {
        None => {
            return None;
        },
        Some(x) => x,
    };
    proof {
        lemma_subrange_split(input@, pos as int, cur as int, p as int);
    }
    cur = p;
    let ghost c5 = c4 + opt_int_field(KEY_CREATION_DATE@, creation_date);
    proof {
        assert(input@.subrange(pos as int, cur as int) == c5);
    }
    let (encoding, p) = match parse_opt_bytes_field(input, cur, KEY_ENCODING.as_slice()) {
        None => {
            return None;
        },
        Some(x) => x,
    };
    proof {
        lemma_subrange_split(input@, pos as int, cur as int, p as int);
    }
    cur = p;
    let ghost c6 = c5 + opt_bytes_field(KEY_ENCODING@, encoding);
    proof {
        assert(input@.subrange(pos as int, cur as int) == c6);
    }
    let (httpseeds, p) = match parse_opt_str_list_field(input, cur, KEY_HTTPSEEDS.as_slice()) {
        None => {
            return None;
        },
        Some(x) => x,
    };
    proof {
        lemma_subrange_split(input@, pos as int, cur as int, p as int);
    }
    cur = p;
    let ghost c7 = c6 + opt_str_list_field(KEY_HTTPSEEDS@, httpseeds);
    proof {
        assert(input@.subrange(pos as int, cur as int) == c7);
    }
    let p = match try_key(input, cur, KEY_INFO.as_slice()) {
        None => {
            return None;
        },
        Some(p) => p,
    };
    let (info, p2) = match parse_info(input, p) {
        None => {
            return None;
        },
        Some(x) => x,
    };
    proof {
        lemma_subrange_split(input@, cur as int, p as int, p2 as int);
        lemma_subrange_split(input@, pos as int, cur as int, p2 as int);
    }
    cur = p2;
    let ghost c8 = c7 + info_field(info);
    proof {
        assert(input@.subrange(pos as int, cur as int) == c8);
    }
    let (nodes, p) = match parse_opt_node_list_field(input, cur, KEY_NODES.as_slice()) {
        None => {
            return None;
        },
        Some(x) => x,
    };
    proof {
        lemma_subrange_split(input@, pos as int, cur as int, p as int);
    }
    cur = p;
    let ghost c9 = c8 + opt_node_list_field(KEY_NODES@, nodes);
    proof {
        assert(input@.subrange(pos as int, cur as int) == c9);
    }
    if cur == len || input[cur] != TOK_END {
        return None;
    }
    let m = MetaInfo {
        info,
        announce,
        nodes,
        encoding,
        httpseeds,
        announce_list,
        creation_date,
        comment,
        created_by,
    };
    proof {
        lemma_subrange_split(input@, pos as int, cur as int, cur + 1);
        assert(input@.subrange(cur as int, cur + 1) =~= seq![TOK_END]);
        assert(input@.subrange(pos as int, cur + 1) == c9 + seq![TOK_END]);
        assert(c9 + seq![TOK_END] == enc_meta_info(m));
    }
    Some((m, cur + 1))
}

/// Sum of the file lengths.
pub open spec fn files_total(fs: Seq<File>) -> int
    decreases fs.len(),
{
    if fs.len() == 0 {
        0
    } else {
        files_total(fs.drop_last()) + fs.last().length
    }
}

/// Total content length: the single length when present, else the sum of
/// the file lengths.
pub open spec fn total_length(i: Info) -> int {
    match i.length {
        Some(l) => l as int,
        None => match i.files {
            Some(fs) => files_total(fs@),
            None => 0,
        },
    }
}

/// The descriptor invariant: a positive piece length, no negative sizes, a
/// digest list of whole 20-byte digests, one digest per piece
/// (`ceil(total_length / piece_length)` pieces).
pub open spec fn valid_info(i: Info) -> bool {
    &&& i.piece_length > 0
    &&& (match i.length {
        Some(l) => l >= 0,
        None => true,
    })
    &&& (match i.files {
        Some(fs) => forall|j: int| 0 <= j < fs@.len() ==> (#[trigger] fs@[j]).length >= 0,
        None => true,
    })
    &&& total_length(i) <= i64::MAX
    &&& i.pieces@.len() % 20 == 0
    &&& i.pieces@.len() / 20 == (total_length(i) + i.piece_length - 1) / (i.piece_length as int)
}

pub proof fn lemma_files_total_take_step(fs: Seq<File>, k: int)
    requires
        0 <= k < fs.len(),
    ensures
        files_total(fs.take(k + 1)) == files_total(fs.take(k)) + fs[k].length,
{
    assert(fs.take(k + 1).drop_last() =~= fs.take(k));
    assert(fs.take(k + 1).last() == fs[k]);
}

pub proof fn lemma_files_total_mono(fs: Seq<File>, k: int)
    requires
        forall|j: int| 0 <= j < fs.len() ==> (#[trigger] fs[j]).length >= 0,
        0 <= k <= fs.len(),
    ensures
        files_total(fs.take(k)) <= files_total(fs),
    decreases fs.len() - k,
{
    if k < fs.len() {
        lemma_files_total_take_step(fs, k);
        lemma_files_total_mono(fs, k + 1);
    } else {
        assert(fs.take(k) =~= fs);
    }
}

/// The sum of nonnegative file lengths is nonnegative.
pub proof fn lemma_files_total_nonneg(fs: Seq<File>)
    requires
        forall|j: int| 0 <= j < fs.len() ==> (#[trigger] fs[j]).length >= 0,
    ensures
        files_total(fs) >= 0,
    decreases fs.len(),
{
    if fs.len() > 0 {
        assert(forall|j: int|
            0 <= j < fs.drop_last().len() ==> (#[trigger] fs.drop_last()[j]).length >= 0);
        lemma_files_total_nonneg(fs.drop_last());
    }
}

/// A structurally valid descriptor has a nonnegative total length.
pub proof fn lemma_total_length_nonneg(i: Info)
    requires
        valid_info(i),
    ensures
        total_length(i) >= 0,
{
    match i.length {
        Some(_) => {},
        None => match i.files {
            Some(fs) => {
                lemma_files_total_nonneg(fs@);
            },
            None => {},
        },
    }
}

impl Info {
    /// Whether the descriptor invariant holds.
    pub fn structurally_valid(&self) -> (r: bool)
        ensures
            r == valid_info(*self),
    {
        if self.piece_length <= 0 {
            return false;
        }
        if self.pieces.len() % 20 != 0 {
            return false;
        }
        if let Some(fs) = &self.files {
            let n = fs.len();
            let mut j: usize = 0;
            while j < n
                invariant
                    j <= n,
                    n == fs@.len(),
                    self.files == Some(*fs),
                    forall|k: int| 0 <= k < j ==> (#[trigger] fs@[k]).length >= 0,
                decreases n - j,
            {
                if fs[j].length < 0 {
                    return false;
                }
                j = j + 1;
            }
        }
        let total: i64 = if let Some(l) = self.length {
            if l < 0 {
                return false;
            }
            l
        } else if let Some(fs) = &self.files {
            let n = fs.len();
            let mut acc: i64 = 0;
            let mut j: usize = 0;
            proof {
                assert(files_total(fs@.take(0)) == 0);
            }
            while j < n
                invariant
                    j <= n,
                    n == fs@.len(),
                    self.length is None,
                    self.files == Some(*fs),
                    self.piece_length > 0,
                    self.pieces@.len() % 20 == 0,
                    forall|k: int| 0 <= k < n ==> (#[trigger] fs@[k]).length >= 0,
                    0 <= acc,
                    acc == files_total(fs@.take(j as int)),
                decreases n - j,
            {
                proof {
                    lemma_files_total_take_step(fs@, j as int);
                }
                acc = match acc.checked_add(fs[j].length) {
                    None => {
                        proof {
                            lemma_files_total_mono(fs@, j + 1);
                        }
                        return false;
                    },
                    Some(a) => a,
                };
                j = j + 1;
            }
            proof {
                assert(fs@.take(n as int) =~= fs@);
            }
            acc
        } else {
            0
        };
        let np = self.pieces.len() / 20;
        let tu = total as u64;
        let pu = self.piece_length as u64;
        let ceil = (tu + (pu - 1)) / pu;
        (np as u64) == ceil
    }
}

impl MetaInfo {
    /// The canonical byte encoding of the whole descriptor.
    pub fn to_buffer(&self) -> (r: Vec<u8>)
        ensures
            r@ == enc_meta_info(*self),
    {
        let mut out: Vec<u8> = Vec::new();
        push_meta_info(&mut out, self);
        proof {
            assert(out@ =~= enc_meta_info(*self));
        }
        out
    }

    /// The content id of the info section, rendered as lowercase hex.
    pub fn to_info_hash(&self) -> (r: String)
        ensures
            r@ == hex_of(sha1_of(enc_info(self.info))),
    {
        self.info.to_hash()
    }

    /// Parses a canonical descriptor. On success the buffer is exactly the
    /// canonical encoding of the returned descriptor, so re-encoding it
    /// reproduces the buffer byte for byte. Only the canonical form is
    /// accepted: unknown keys, or keys out of canonical order, are refused,
    /// since re-encoding such input would silently change the content id.
    pub fn from_buffer(buffer: &Vec<u8>) -> (r: Result<MetaInfo, DescriptorError>)
        ensures
            r matches Ok(m) ==> buffer@ == enc_meta_info(m),
    {
        match parse_meta_info(buffer.as_slice(), 0) {
            None => Err(DescriptorError::Malformed),
            Some((m, end)) => {
                if end == buffer.len() {
                    proof {
                        assert(buffer@.subrange(0, buffer@.len() as int) =~= buffer@);
                    }
                    Ok(m)
                } else {
                    Err(DescriptorError::Malformed)
                }
            },
        }
    }
}

/// Canonical round-trip stability: when a buffer decodes as a descriptor
/// (what `from_buffer` guarantees of its result), the canonical re-encoding
/// is the buffer itself, and so the digest of the re-encoding equals the
/// digest of the original bytes.
pub proof fn lemma_round_trip_digest(buffer: Seq<u8>, m: MetaInfo)
    requires
        buffer == enc_meta_info(m),
    ensures
        sha1_of(enc_meta_info(m)) == sha1_of(buffer),
{
}

/// Suffix appended to a tracker endpoint to form its scrape query:
/// "scrape?info_hash=".
pub const SCRAPE_SUFFIX: [u8; 17] = [
    115u8,
    99u8,
    114u8,
    97u8,
    112u8,
    101u8,
    63u8,
    105u8,
    110u8,
    102u8,
    111u8,
    95u8,
    104u8,
    97u8,
    115u8,
    104u8,
    61u8,
];

/// "udp", the scheme hint that is not a real transport scheme here.
pub const SCHEME_UDP: [u8; 3] = [117u8, 100u8, 112u8];

/// "http", the transport scheme scrape queries are issued over.
pub const SCHEME_HTTP: [u8; 4] = [104u8, 116u8, 116u8, 112u8];

/// The views of a sequence of byte vectors.
pub open spec fn views_of(v: Seq<Vec<u8>>) -> Seq<Seq<u8>> {
    Seq::new(v.len(), |i: int| v[i]@)
}

/// A tracker endpoint with the announce path segment removed.
pub open spec fn stripped_url(u: Seq<u8>) -> Seq<u8> {
    replace_all(u, KEY_ANNOUNCE@, Seq::empty())
}

/// One stripped endpoint per backup tier that has one; a tier's first entry
/// is its endpoint.
pub open spec fn tier_urls(al: Seq<Vec<Vec<u8>>>) -> Seq<Seq<u8>>
    decreases al.len(),
{
    if al.len() == 0 {
        Seq::empty()
    } else {
        tier_urls(al.drop_last()) + (if al.last()@.len() >= 1 {
            seq![stripped_url(al.last()@[0]@)]
        } else {
            Seq::empty()
        })
    }
}

/// Every tracker endpoint of a descriptor: the primary announce entry, then
/// one per backup tier, each with the announce path segment removed.
pub open spec fn spec_tracker_urls(m: MetaInfo) -> Seq<Seq<u8>> {
    (match m.announce {
        Some(a) => seq![stripped_url(a@)],
        None => Seq::empty(),
    }) + (match m.announce_list {
        Some(al) => tier_urls(al@),
        None => Seq::empty(),
    })
}

/// The scrape query for one endpoint: the endpoint, the scrape suffix, the
/// percent-encoded content id, with a "udp" hint normalized to "http" once.
pub open spec fn scrape_url_of(u: Seq<u8>, id: Seq<u8>) -> Seq<u8> {
    replace_first(u + SCRAPE_SUFFIX@ + id, SCHEME_UDP@, SCHEME_HTTP@)
}

/// One scrape query per tracker endpoint of the descriptor.
pub open spec fn spec_scrape_urls(m: MetaInfo) -> Seq<Seq<u8>> {
    Seq::new(
        spec_tracker_urls(m).len(),
        |k: int|
            scrape_url_of(
                spec_tracker_urls(m)[k],
                pct_content_id(m),
            ),
    )
}

/// The percent-encoded content id bytes of a descriptor.
pub open spec fn pct_content_id(m: MetaInfo) -> Seq<u8> {
    pct_encoded(sha1_of(enc_info(m.info)))
}

impl MetaInfo {
    /// The tracker endpoints of this descriptor, announce path removed.
    pub fn tracker_urls(&self) -> (r: Vec<Vec<u8>>)
        ensures
            views_of(r@) == spec_tracker_urls(*self),
    {
        let empty: Vec<u8> = Vec::new();
        let mut urls: Vec<Vec<u8>> = Vec::new();
        if let Some(a) = &self.announce {
            let u = replace_all_bytes(a.as_slice(), KEY_ANNOUNCE.as_slice(), empty.as_slice());
            urls.push(u);
        }
        let ghost base = match &self.announce {
            Some(a) => seq![stripped_url(a@)],
            None => Seq::<Seq<u8>>::empty(),
        };
        proof {
            assert(views_of(urls@) =~= base);
        }
        if let Some(al) = &self.announce_list {
            let n = al.len();
            let mut k: usize = 0;
            proof {
                assert(views_of(urls@) =~= base + tier_urls(al@.take(0)));
            }
            while k < n
                invariant
                    k <= n,
                    n == al@.len(),
                    self.announce_list == Some(*al),
                    empty@ == Seq::<u8>::empty(),
                    views_of(urls@) == base + tier_urls(al@.take(k as int)),
                decreases n - k,
            {
                let tier = &al[k];
                let ghost prev = urls@;
                if tier.len() >= 1 {
                    let u = replace_all_bytes(
                        tier[0].as_slice(),
                        KEY_ANNOUNCE.as_slice(),
                        empty.as_slice(),
                    );
                    proof {
                        assert(u@ == stripped_url(al@[k as int]@[0]@));
                    }
                    urls.push(u);
                    proof {
                        assert(views_of(urls@) =~= views_of(prev) + seq![
                            stripped_url(al@[k as int]@[0]@),
                        ]);
                    }
                }
                proof {
                    assert(al@.take(k + 1).drop_last() =~= al@.take(k as int));
                    assert(al@.take(k + 1).last() == al@[k as int]);
                    let part = if al@[k as int]@.len() >= 1 {
                        seq![stripped_url(al@[k as int]@[0]@)]
                    } else {
                        Seq::<Seq<u8>>::empty()
                    };
                    assert(tier_urls(al@.take(k + 1)) == tier_urls(al@.take(k as int)) + part);
                    if al@[k as int]@.len() >= 1 {
                        lemma_concat_associative(base, tier_urls(al@.take(k as int)), part);
                        assert(views_of(urls@) == base + tier_urls(al@.take(k + 1)));
                    } else {
                        assert(tier_urls(al@.take(k as int)) + part =~= tier_urls(
                            al@.take(k as int),
                        ));
                        assert(views_of(urls@) == base + tier_urls(al@.take(k + 1)));
                    }
                }
                k = k + 1;
            }
            proof {
                assert(al@.take(n as int) =~= al@);
            }
        }
        proof {
            assert(views_of(urls@) =~= spec_tracker_urls(*self));
        }
        urls
    }

    /// One scrape query per tracker endpoint: endpoint, scrape suffix, the
    /// percent-encoded content id, "udp" hints normalized to "http".
    pub fn scrape_urls(&self) -> (r: Vec<Vec<u8>>)
        ensures
            views_of(r@) == spec_scrape_urls(*self),
    {
        let urls = self.tracker_urls();
        let digest = self.info.to_hash_buffer();
        let enc = percent_encode_all(digest.as_slice());
        let mut out: Vec<Vec<u8>> = Vec::new();
        let n = urls.len();
        let mut k: usize = 0;
        while k < n
            invariant
                k <= n,
                n == urls@.len(),
                views_of(urls@) == spec_tracker_urls(*self),
                enc@ == pct_content_id(*self),
                out@.len() == k,
                forall|j: int|
                    0 <= j < k ==> (#[trigger] out@[j])@ == spec_scrape_urls(*self)[j],
            decreases n - k,
        {
            let mut u: Vec<u8> = Vec::new();
            push_slice(&mut u, urls[k].as_slice());
            push_slice(&mut u, SCRAPE_SUFFIX.as_slice());
            push_slice(&mut u, enc.as_slice());
            proof {
                assert(u@ =~= urls@[k as int]@ + SCRAPE_SUFFIX@ + enc@);
                assert(views_of(urls@)[k as int] == urls@[k as int]@);
            }
            let v = replace_first_bytes(u.as_slice(), SCHEME_UDP.as_slice(), SCHEME_HTTP.as_slice());
            out.push(v);
            k = k + 1;
        }
        proof {
            assert(views_of(out@) =~= spec_scrape_urls(*self));
        }
        out
    }
}

} // verus!
