//! Stored objects: the `"{kind} {len}\0"` header, object ids, zlib compression, the
//! body of a stored object, and the entry list of a tree object.
use vstd::prelude::*;
use vstd::utf8::{
    decode_utf8, encode_scalar, encode_utf8, encode_utf8_decode_utf8, encode_utf8_valid_utf8,
    valid_utf8,
};
use std::io::{Read, Write};
use flate2::read::ZlibDecoder;
use flate2::write::ZlibEncoder;
use flate2::Compression;
use crate::bytes::lemma_utf8_no_zero;
use crate::digest::{hex_encode, hex_lower, sha1, sha1_digest};
use crate::error::ItError;
use crate::text::{
    chars_of, decimal, decimal_chars, digit_char, extend_bytes, extend_chars, find_byte_from,
    find_char_from, find_from, has_char, lemma_find_from, lemma_find_from_at, string_from_utf8_lossy,
    string_from_utf8, string_of, sub_vec, utf8_bytes,
};

verus! {

/// The header text of an object: its kind, a space, the decimal length of its
/// content, and a NUL.
pub open spec fn object_header(kind: Seq<char>, len: nat) -> Seq<char> {
    kind + seq![' '] + decimal(len) + seq!['\0']
}

/// The bytes of an object: its header in UTF-8, then its content.
pub open spec fn object_bytes(kind: Seq<char>, content: Seq<u8>) -> Seq<u8> {
    encode_utf8(object_header(kind, content.len())) + content
}

/// The content of a stored object: what follows its first NUL byte (all but the first
/// byte, when there is no NUL).
pub open spec fn object_body(raw: Seq<u8>) -> Seq<u8> {
    match find_from(raw, 0, 0u8) {
        Some(z) => raw.skip(z + 1),
        None => raw.skip(1),
    }
}

/// The id of an object: the lower-case hexadecimal SHA-1 digest of its bytes.
pub open spec fn object_id(object: Seq<u8>) -> Seq<char> {
    hex_lower(sha1_digest(object))
}

/// The object of the given kind with the given content.
pub fn build_object(content: &[u8], kind: &str) -> (r: Vec<u8>)
    ensures
        r@ == object_bytes(kind@, content@),
{
    let mut h = chars_of(kind);
    h.push(' ');
    let digits = decimal_chars(content.len() as u64);
    extend_chars(&mut h, digits.as_slice());
    h.push('\0');
    assert(h@ =~= object_header(kind@, content@.len()));
    let hs = string_of(h.as_slice());
    let mut out = utf8_bytes(hs.as_str());
    extend_bytes(&mut out, content);
    out
}

/// The id of an object.
pub fn compute_hash(object: &[u8]) -> (r: String)
    ensures
        r@ == object_id(object@),
        r@.len() == 40,
{
    let d = sha1(object);
    proof {
        crate::digest::lemma_hex_lower_len(d@);
    }
    hex_encode(d.as_slice())
}

/// The hexadecimal spelling of a raw 20-byte object hash.
pub fn hash_hex(hash: &[u8]) -> (r: String)
    ensures
        r@ == hex_lower(hash@),
{
    hex_encode(hash)
}

/// The content of a stored object.
pub fn read_body(raw: &[u8]) -> (r: Vec<u8>)
    requires
        raw@.len() > 0,
    ensures
        r@ == object_body(raw@),
{
    let len = raw.len();
    match find_byte_from(raw, 0, 0u8) {
        Some(z) => {
            proof {
                lemma_find_from(raw@, 0, 0u8);
            }
            sub_vec(raw, z + 1, raw.len())
        },
        None => sub_vec(raw, 1, raw.len()),
    }
}

/// The result of zlib-compressing `data` (`None` where the compressor reports failure).
pub uninterp spec fn zlib_compressed(data: Seq<u8>) -> Option<Seq<u8>>;

/// The result of zlib-decompressing `data` (`None` where the decoder reports an error).
pub uninterp spec fn zlib_decoded(data: Seq<u8>) -> Option<Seq<u8>>;

/// `flate2::write::ZlibEncoder` with the default level: writes `data` and finishes the
/// stream. The contract names the outcome, and states zlib's defining property that
/// the compressed bytes decompress to `data`. When the compressor fails is left unsaid.
#[verifier::external_body]
fn zlib_compress(data: &[u8]) -> (r: Result<Vec<u8>, std::io::Error>)
    ensures
        r is Ok <==> zlib_compressed(data@) is Some,
        r matches Ok(c) ==> zlib_compressed(data@) == Some(c@),
        r matches Ok(c) ==> zlib_decoded(c@) == Some(data@),
{
    let mut encoder = ZlibEncoder::new(Vec::new(), Compression::default());
    encoder.write_all(data)?;
    encoder.finish()
}

/// `flate2::read::ZlibDecoder` read to the end. The contract names the outcome.
#[verifier::external_body]
fn zlib_decompress(data: &[u8]) -> (r: Result<Vec<u8>, std::io::Error>)
    ensures
        r is Ok <==> zlib_decoded(data@) is Some,
        r matches Ok(v) ==> zlib_decoded(data@) == Some(v@),
{
    let mut decoder = ZlibDecoder::new(data);
    let mut out = Vec::new();
    decoder.read_to_end(&mut out)?;
    Ok(out)
}

/// Compresses an object for storage.
pub fn compress_data(data: &[u8]) -> (r: Result<Vec<u8>, ItError>)
    ensures
        r is Ok <==> zlib_compressed(data@) is Some,
        r matches Ok(c) ==> zlib_compressed(data@) == Some(c@) && zlib_decoded(c@) == Some(data@),
        r matches Err(e) ==> e is Io,
{
    match zlib_compress(data) {
        Ok(c) => Ok(c),
        Err(e) => Err(ItError::Io(e)),
    }
}

/// Decompresses a stored object.
pub fn decompress_data(data: &[u8]) -> (r: Result<Vec<u8>, ItError>)
    ensures
        r is Ok <==> zlib_decoded(data@) is Some,
        r matches Ok(v) ==> zlib_decoded(data@) == Some(v@),
        r matches Err(e) ==> e is Io,
{
    match zlib_decompress(data) {
        Ok(v) => Ok(v),
        Err(e) => Err(ItError::Io(e)),
    }
}

/// The text of a stored object's content, invalid UTF-8 replaced.
pub fn object_text(raw: &[u8]) -> (r: String)
    requires
        raw@.len() > 0,
    ensures
        r@ == crate::text::utf8_lossy(object_body(raw@)),
        valid_utf8(object_body(raw@)) ==> r@ == decode_utf8(object_body(raw@)),
{
    let body = read_body(raw);
    string_from_utf8_lossy(body.as_slice())
}

/// Reads the text of a stored object from its compressed file contents. The
/// decompressed object must not be empty (the tool stops with a panic on such a file).
pub fn read_object(compressed: &[u8]) -> (r: Result<String, ItError>)
    requires
        zlib_decoded(compressed@) matches Some(v) ==> v.len() > 0,
    ensures
        r is Ok <==> zlib_decoded(compressed@) is Some,
        r matches Ok(s) ==> s@ == crate::text::utf8_lossy(object_body(zlib_decoded(compressed@).unwrap())),
        r matches Ok(s) ==> (valid_utf8(object_body(zlib_decoded(compressed@).unwrap())) ==> s@
            == decode_utf8(object_body(zlib_decoded(compressed@).unwrap()))),
        r matches Err(e) ==> e is Io,
{
    let raw = decompress_data(compressed)?;
    Ok(object_text(raw.as_slice()))
}

/// Reads the text of a stored object, or gives `None` when the decompressed object is
/// empty (where `read_object` may not be called). The test needs the decompressed
/// object, and `read_object` takes the compressed file contents as it stands, so the
/// object is decompressed once for the test and once more by `read_object`.
pub fn try_read_object(compressed: &[u8]) -> (r: Option<Result<String, ItError>>)
    ensures
        r is None <==> zlib_decoded(compressed@) == Some(Seq::<u8>::empty()),
        r matches Some(Ok(s)) ==> zlib_decoded(compressed@) is Some && s@ == crate::text::utf8_lossy(
            object_body(zlib_decoded(compressed@).unwrap()),
        ),
        r matches Some(Ok(s)) ==> (valid_utf8(object_body(zlib_decoded(compressed@).unwrap())) ==> s@
            == decode_utf8(object_body(zlib_decoded(compressed@).unwrap()))),
        r matches Some(Err(e)) ==> zlib_decoded(compressed@) is None && e is Io,
{
    match decompress_data(compressed) {
        Ok(raw) => {
            if raw.len() == 0 {
                assert(raw@ =~= Seq::<u8>::empty());
                None
            } else {
                Some(read_object(compressed))
            }
        },
        Err(e) => Some(Err(e)),
    }
}

/// The UTF-8 encoding of a concatenation is the concatenation of the encodings.
pub proof fn lemma_encode_utf8_concat(a: Seq<char>, b: Seq<char>)
    ensures
        encode_utf8(a + b) == encode_utf8(a) + encode_utf8(b),
    decreases a.len(),
{
    if a.len() == 0 {
        assert(a + b =~= b);
        assert(encode_utf8(a) =~= Seq::<u8>::empty());
        assert(encode_utf8(a) + encode_utf8(b) =~= encode_utf8(b));
    } else {
        assert((a + b).drop_first() =~= a.drop_first() + b);
        assert((a + b)[0] == a[0]);
        lemma_encode_utf8_concat(a.drop_first(), b);
        assert(encode_utf8(a + b) =~= encode_utf8(a) + encode_utf8(b));
    }
}

/// A decimal numeral holds no NUL.
pub proof fn lemma_decimal_no_nul(n: nat)
    ensures
        !has_char(decimal(n), '\0'),
    decreases n,
{
    if n >= 10 {
        lemma_decimal_no_nul(n / 10);
        let d = decimal(n);
        assert(d == decimal(n / 10).push(digit_char(n % 10)));
        if has_char(d, '\0') {
            let i = choose|i: int| 0 <= i < d.len() && d[i] == '\0';
            if i < d.len() - 1 {
                assert(decimal(n / 10)[i] == '\0');
            }
        }
    }
}

/// The NUL character is encoded as the single byte zero.
pub proof fn lemma_encode_nul()
    ensures
        encode_utf8(seq!['\0']) == seq![0u8],
{
    assert(seq!['\0'].drop_first() =~= Seq::<char>::empty());
    assert(encode_utf8(seq!['\0'].drop_first()) == Seq::<u8>::empty());
    assert(('\0' as u32) == 0);
    assert((0u32 & 0x7F) as u8 == 0) by (bit_vector);
    assert(encode_scalar(0u32) =~= seq![0u8]);
    assert(encode_utf8(seq!['\0']) =~= seq![0u8]);
}

/// When the text `t` holds no NUL, the bytes `utf8(t + "\0") + rest` have their first
/// zero right after the encoding of `t`.
pub proof fn lemma_first_nul(t: Seq<char>, rest: Seq<u8>)
    requires
        !has_char(t, '\0'),
    ensures
        ({
            let bytes = encode_utf8(t + seq!['\0']) + rest;
            let n = encode_utf8(t).len() as int;
            &&& find_from(bytes, 0, 0u8) == Some(n)
            &&& bytes.take(n) == encode_utf8(t)
            &&& bytes.skip(n + 1) == rest
        }),
{
    lemma_encode_utf8_concat(t, seq!['\0']);
    lemma_encode_nul();
    lemma_utf8_no_zero(t);
    let e = encode_utf8(t);
    let n = e.len() as int;
    let bytes = encode_utf8(t + seq!['\0']) + rest;
    assert(bytes =~= e + seq![0u8] + rest);
    assert forall|j: int| 0 <= j < n implies bytes[j] != 0u8 by {
        assert(bytes[j] == e[j]);
    }
    lemma_find_from_at(bytes, 0, n, 0u8);
    assert(bytes.take(n) =~= e);
    assert(bytes.skip(n + 1) =~= rest);
}

/// Law of objects: the content read back from an object is the content it was built
/// from, for any kind without a NUL.
pub proof fn law_object_body_of_build_object(kind: Seq<char>, content: Seq<u8>)
    requires
        !has_char(kind, '\0'),
    ensures
        object_body(object_bytes(kind, content)) == content,
{
    let t = kind + seq![' '] + decimal(content.len());
    lemma_decimal_no_nul(content.len());
    assert(!has_char(t, '\0')) by {
        if has_char(t, '\0') {
            let i = choose|i: int| 0 <= i < t.len() && t[i] == '\0';
            if i < kind.len() {
                assert(kind[i] == '\0');
            } else if i > kind.len() {
                assert(decimal(content.len())[i - kind.len() - 1] == '\0');
            }
        }
    }
    assert(object_header(kind, content.len()) == t + seq!['\0']);
    lemma_first_nul(t, content);
}

/// An object is never empty: its header holds at least the kind's separator.
pub proof fn lemma_object_nonempty(kind: Seq<char>, content: Seq<u8>)
    ensures
        object_bytes(kind, content).len() > 0,
{
    let h = object_header(kind, content.len());
    assert(h.len() > 0);
    assert(h =~= seq![h[0]] + h.drop_first());
    lemma_encode_utf8_concat(seq![h[0]], h.drop_first());
    assert(seq![h[0]].drop_first() =~= Seq::<char>::empty());
    assert(encode_utf8(seq![h[0]].drop_first()) == Seq::<u8>::empty());
    assert(encode_utf8(seq![h[0]]).len() == encode_scalar(h[0] as u32).len());
}

/// One entry of a tree object: a subtree or a file, its name, and the raw 20-byte id
/// of the object it refers to.
pub struct TreeItem {
    pub is_dir: bool,
    pub name: String,
    pub hash: Vec<u8>,
}

/// The mathematical value of a [`TreeItem`].
pub struct TreeItemView {
    pub is_dir: bool,
    pub name: Seq<char>,
    pub hash: Seq<u8>,
}

impl View for TreeItem {
    type V = TreeItemView;

    open spec fn view(&self) -> TreeItemView {
        TreeItemView { is_dir: self.is_dir, name: self.name@, hash: self.hash@ }
    }
}

/// The values of a sequence of tree items.
pub open spec fn items_view(items: Seq<TreeItem>) -> Seq<TreeItemView> {
    items.map_values(|t: TreeItem| t@)
}

/// The mode that marks a subtree: "040000".
pub open spec fn dir_mode() -> Seq<char> {
    seq!['0', '4', '0', '0', '0', '0']
}

/// The mode that marks a file: "100644".
pub open spec fn file_mode() -> Seq<char> {
    seq!['1', '0', '0', '6', '4', '4']
}

/// The text that opens a tree entry: mode, space, name, NUL.
pub open spec fn item_header(it: TreeItemView) -> Seq<char> {
    (if it.is_dir {
        dir_mode()
    } else {
        file_mode()
    }) + seq![' '] + it.name + seq!['\0']
}

/// The bytes of a tree entry: its header in UTF-8 and then the raw id.
pub open spec fn item_bytes(it: TreeItemView) -> Seq<u8> {
    encode_utf8(item_header(it)) + it.hash
}

/// The content of a tree object: its entries' bytes, one after another.
pub open spec fn tree_content(items: Seq<TreeItemView>) -> Seq<u8>
    decreases items.len(),
{
    if items.len() == 0 {
        seq![]
    } else {
        tree_content(items.drop_last()) + item_bytes(items.last())
    }
}

/// Reading the entries of a tree object's content from offset `i` on; `None` where
/// reading fails (no NUL after a header, a header that is not UTF-8 or has no space,
/// or an id that runs past the end).
pub open spec fn parse_tree_items(body: Seq<u8>, i: int) -> Option<Seq<TreeItemView>>
    decreases body.len() - i,
{
    if i < 0 || i >= body.len() {
        Some(seq![])
    } else {
        match find_from(body, i, 0u8) {
            None => None,
            Some(z) => {
                proof {
                    lemma_find_from(body, i, 0u8);
                }
                let hb = body.subrange(i, z);
                if !valid_utf8(hb) {
                    None
                } else {
                    let h = decode_utf8(hb);
                    match find_from(h, 0, ' ') {
                        None => None,
                        Some(sp) => {
                            if z + 21 > body.len() {
                                None
                            } else {
                                let it = TreeItemView {
                                    is_dir: h.take(sp) == dir_mode(),
                                    name: h.skip(sp + 1),
                                    hash: body.subrange(z + 1, z + 21),
                                };
                                match parse_tree_items(body, z + 21) {
                                    Some(rest) => Some(seq![it] + rest),
                                    None => None,
                                }
                            }
                        },
                    }
                }
            },
        }
    }
}

/// The entries of a decompressed tree object; `None` where reading fails (also for an
/// empty object).
pub open spec fn tree_items(raw: Seq<u8>) -> Option<Seq<TreeItemView>> {
    if raw.len() == 0 {
        None
    } else {
        parse_tree_items(object_body(raw), 0)
    }
}

/// Prepends `p` to a result, keeping a failure a failure.
pub open spec fn prepend_items(p: Seq<TreeItemView>, o: Option<Seq<TreeItemView>>) -> Option<
    Seq<TreeItemView>,
> {
    match o {
        Some(r) => Some(p + r),
        None => None,
    }
}

/// Whether the characters spell the subtree mode.
fn is_dir_mode(m: &[char]) -> (b: bool)
    ensures
        b == (m@ == dir_mode()),
{
    let r = m.len() == 6 && m[0] == '0' && m[1] == '4' && m[2] == '0' && m[3] == '0' && m[4] == '0'
        && m[5] == '0';
    if r {
        assert(m@ =~= dir_mode());
    }
    r
}

/// The content of the tree object with the given entries.
pub fn encode_tree(items: &[TreeItem]) -> (r: Vec<u8>)
    ensures
        r@ == tree_content(items_view(items@)),
{
    let mut out: Vec<u8> = Vec::new();
    let mut i: usize = 0;
    assert(items_view(items@).take(0) =~= Seq::<TreeItemView>::empty());
    while i < items.len()
        invariant
            i <= items@.len(),
            out@ == tree_content(items_view(items@).take(i as int)),
        decreases items.len() - i,
    {
        let it = &items[i];
        let ghost before = out@;
        let mut h: Vec<char> = Vec::new();
        if it.is_dir {
            h.push('0');
            h.push('4');
            h.push('0');
            h.push('0');
            h.push('0');
            h.push('0');
        } else {
            h.push('1');
            h.push('0');
            h.push('0');
            h.push('6');
            h.push('4');
            h.push('4');
        }
        h.push(' ');
        let name = chars_of(it.name.as_str());
        extend_chars(&mut h, name.as_slice());
        h.push('\0');
        let hs = string_of(h.as_slice());
        let hb = utf8_bytes(hs.as_str());
        extend_bytes(&mut out, hb.as_slice());
        extend_bytes(&mut out, it.hash.as_slice());
        proof {
            let iv = items_view(items@);
            assert(iv[i as int] == items@[i as int]@);
            assert(h@ =~= item_header(iv[i as int]));
            assert(out@ =~= before + item_bytes(iv[i as int]));
            assert(iv.take(i + 1).drop_last() =~= iv.take(i as int));
            assert(iv.take(i + 1).last() == iv[i as int]);
        }
        i = i + 1;
    }
    assert(items_view(items@).take(items@.len() as int) =~= items_view(items@));
    out
}

/// Reads the entries of a decompressed tree object, or gives `None` on exactly the
/// objects that cannot be read.
pub fn try_read_tree(raw: &[u8]) -> (r: Option<Vec<TreeItem>>)
    ensures
        r is Some <==> tree_items(raw@) is Some,
        r matches Some(v) ==> tree_items(raw@) == Some(items_view(v@)),
{
    if raw.len() == 0 {
        return None;
    }
    let body = read_body(raw);
    let mut items: Vec<TreeItem> = Vec::new();
    let mut i: usize = 0;
    proof {
        if let Some(r) = parse_tree_items(body@, 0) {
            assert(Seq::<TreeItemView>::empty() + r =~= r);
        }
    }
    assert(items_view(items@) =~= Seq::<TreeItemView>::empty());
    while i < body.len()
        invariant
            body@ == object_body(raw@),
            raw@.len() > 0,
            i <= body@.len(),
            parse_tree_items(body@, 0) == prepend_items(
                items_view(items@),
                parse_tree_items(body@, i as int),
            ),
        decreases body.len() - i,
    {
        let z = match find_byte_from(body.as_slice(), i, 0u8) {
            Some(z) => z,
            None => {
                assert(parse_tree_items(body@, i as int) is None);
                return None;
            },
        };
        proof {
            lemma_find_from(body@, i as int, 0u8);
        }
        let hb = sub_vec(body.as_slice(), i, z);
        let hs = match string_from_utf8(hb) {
            Some(s) => s,
            None => {
                assert(parse_tree_items(body@, i as int) is None);
                return None;
            },
        };
        let h = chars_of(hs.as_str());
        let hlen = h.len();
        let sp = match find_char_from(h.as_slice(), 0, ' ') {
            Some(sp) => sp,
            None => {
                assert(parse_tree_items(body@, i as int) is None);
                return None;
            },
        };
        proof {
            lemma_find_from(h@, 0, ' ');
        }
        if body.len() < 21 || z > body.len() - 21 {
            assert(parse_tree_items(body@, i as int) is None);
            return None;
        }
        let mode = sub_vec(h.as_slice(), 0, sp);
        let name_chars = sub_vec(h.as_slice(), sp + 1, h.len());
        let is_dir = is_dir_mode(mode.as_slice());
        let name = string_of(name_chars.as_slice());
        let hash = sub_vec(body.as_slice(), z + 1, z + 21);
        assert(h@.take(sp as int) =~= mode@);
        assert(h@.skip(sp + 1) =~= name_chars@);
        let item = TreeItem { is_dir, name, hash };
        let ghost before = items_view(items@);
        let ghost iv = item@;
        items.push(item);
        assert(items_view(items@) =~= before.push(iv));
        proof {
            let rest = parse_tree_items(body@, z + 21);
            assert(parse_tree_items(body@, i as int) == prepend_items(seq![iv], rest));
            if let Some(r) = rest {
                assert(before + (seq![iv] + r) =~= before.push(iv) + r);
            }
        }
        i = z + 21;
    }
    proof {
        assert(parse_tree_items(body@, i as int) == Some(Seq::<TreeItemView>::empty()));
        assert(items_view(items@) + Seq::<TreeItemView>::empty() =~= items_view(items@));
    }
    Some(items)
}

/// Whether `read_tree` can read the decompressed object (the tool stops with a panic
/// on the others).
pub fn tree_is_readable(raw: &[u8]) -> (b: bool)
    ensures
        b == tree_items(raw@) is Some,
{
    try_read_tree(raw).is_some()
}

/// The entries of a decompressed tree object, in stored order.
pub fn read_tree(raw: &[u8]) -> (r: Vec<TreeItem>)
    requires
        tree_items(raw@) is Some,
    ensures
        tree_items(raw@) == Some(items_view(r@)),
{
    match try_read_tree(raw) {
        Some(v) => v,
        None => {
            assert(false);
            Vec::new()
        },
    }
}

/// The bytes of a non-empty sequence of tree entries start with those of the first.
pub proof fn lemma_tree_content_front(items: Seq<TreeItemView>)
    requires
        items.len() > 0,
    ensures
        tree_content(items) == item_bytes(items[0]) + tree_content(items.drop_first()),
    decreases items.len(),
{
    if items.len() == 1 {
        assert(tree_content(items.drop_last()) == Seq::<u8>::empty());
        assert(tree_content(items.drop_first()) == Seq::<u8>::empty());
        assert(items.last() == items[0]);
        assert(tree_content(items) =~= item_bytes(items[0]) + tree_content(items.drop_first()));
    } else {
        lemma_tree_content_front(items.drop_last());
        assert(items.drop_last().drop_first() =~= items.drop_first().drop_last());
        assert(items.drop_first().last() == items.last());
        assert(tree_content(items) =~= item_bytes(items[0]) + tree_content(items.drop_first()));
    }
}

/// Whether a tree entry can be written and read back: a name without NUL and a
/// 20-byte id.
pub open spec fn item_storable(it: TreeItemView) -> bool {
    !has_char(it.name, '\0') && it.hash.len() == 20
}

/// Reading entries where the bytes of `items` stand, up to the end, gives `items`.
pub proof fn lemma_parse_tree_items(a: Seq<u8>, items: Seq<TreeItemView>)
    requires
        forall|k: int| 0 <= k < items.len() ==> item_storable(#[trigger] items[k]),
    ensures
        parse_tree_items(a + tree_content(items), a.len() as int) == Some(items),
    decreases items.len(),
{
    let body = a + tree_content(items);
    if items.len() == 0 {
        assert(tree_content(items) == Seq::<u8>::empty());
        assert(items =~= Seq::<TreeItemView>::empty());
    } else {
        let it = items[0];
        let rest = items.drop_first();
        assert(item_storable(it));
        lemma_tree_content_front(items);
        let mode = if it.is_dir {
            dir_mode()
        } else {
            file_mode()
        };
        let t = mode + seq![' '] + it.name;
        assert(!has_char(t, '\0')) by {
            if has_char(t, '\0') {
                let j = choose|j: int| 0 <= j < t.len() && t[j] == '\0';
                if j >= 7 {
                    assert(it.name[j - 7] == '\0');
                }
            }
        }
        assert(item_header(it) == t + seq!['\0']);
        let tail = it.hash + tree_content(rest);
        lemma_first_nul(t, tail);
        let ib = encode_utf8(t + seq!['\0']) + tail;
        let n = encode_utf8(t).len() as int;
        let pos = a.len() as int;
        assert(body =~= a + ib);
        assert(ib =~= item_bytes(it) + tree_content(rest));
        lemma_find_from(ib, 0, 0u8);
        assert forall|j: int| 0 <= j < ib.len() implies body[pos + j] == #[trigger] ib[j] by {}
        assert forall|j: int| pos <= j < pos + n implies body[j] != 0u8 by {
            assert(body[j] == ib[j - pos]);
        }
        assert(body[pos + n] == 0u8) by {
            assert(body[pos + n] == ib[n]);
        }
        lemma_find_from_at(body, pos, pos + n, 0u8);
        assert(body.subrange(pos, pos + n) =~= encode_utf8(t)) by {
            assert forall|j: int| 0 <= j < n implies body.subrange(pos, pos + n)[j] == encode_utf8(t)[j] by {
                assert(body[pos + j] == ib[j]);
                assert(ib.take(n)[j] == ib[j]);
            }
        }
        encode_utf8_valid_utf8(t);
        encode_utf8_decode_utf8(t);
        assert forall|j: int| 0 <= j < 6 implies t[j] != ' ' by {
            assert(t[j] == mode[j]);
        }
        lemma_find_from_at(t, 0, 6, ' ');
        assert(t.take(6) =~= mode);
        assert(t.skip(7) =~= it.name);
        assert(dir_mode() != file_mode()) by {
            assert(dir_mode()[0] != file_mode()[0]);
        }
        assert(ib.skip(n + 1) == tail);
        assert(body.subrange(pos + n + 1, pos + n + 21) =~= it.hash) by {
            assert forall|j: int| 0 <= j < 20 implies body.subrange(pos + n + 1, pos + n + 21)[j]
                == it.hash[j] by {
                assert(body[pos + n + 1 + j] == ib[n + 1 + j]);
                assert(ib.skip(n + 1)[j] == ib[n + 1 + j]);
                assert(tail[j] == it.hash[j]);
            }
        }
        assert(pos + n + 21 <= body.len());
        assert forall|k: int| 0 <= k < rest.len() implies item_storable(#[trigger] rest[k]) by {
            assert(rest[k] == items[k + 1]);
        }
        lemma_parse_tree_items(a + item_bytes(it), rest);
        assert(a + item_bytes(it) + tree_content(rest) =~= body);
        assert((a + item_bytes(it)).len() == pos + n + 21);
        assert(seq![it] + rest =~= items);
    }
}

/// Law of trees: reading back the content of a tree object gives the entries it was
/// written from, for entries whose names hold no NUL and whose ids are 20 bytes.
pub proof fn law_read_tree_after_encode_tree(items: Seq<TreeItemView>)
    requires
        forall|k: int| 0 <= k < items.len() ==> item_storable(#[trigger] items[k]),
    ensures
        parse_tree_items(tree_content(items), 0) == Some(items),
{
    lemma_parse_tree_items(Seq::<u8>::empty(), items);
    assert(Seq::<u8>::empty() + tree_content(items) =~= tree_content(items));
}

} // verus!
