//! The staging index: its binary file format ("DIRC", version 2), how it is read and
//! how it is written, and the law that reading gives back what writing wrote.
use vstd::prelude::*;
use vstd::utf8::*;
use crate::bytes::{
    be16, be16_bytes, be32, be32_bytes, from_be16, from_be32, lemma_be16_roundtrip,
    lemma_be32_roundtrip, lemma_utf8_no_zero, zeros,
};
use crate::digest::{sha1, sha1_digest};
use crate::text::{
    extend_bytes, find_byte_from, find_from, has_char, lemma_find_from, lemma_find_from_at,
    string_from_utf8, sub_vec, utf8_bytes,
};

verus! {

/// One staged file: its blob hash, its flags word and its path in the work tree.
pub struct IndexEntry {
    pub sha: [u8; 20],
    pub flags: u16,
    pub path: String,
}

/// The mathematical value of an [`IndexEntry`].
pub struct EntryView {
    pub sha: Seq<u8>,
    pub flags: u16,
    pub path: Seq<char>,
}

impl View for IndexEntry {
    type V = EntryView;

    open spec fn view(&self) -> EntryView {
        EntryView { sha: self.sha@, flags: self.flags, path: self.path@ }
    }
}

/// The values of a sequence of entries.
pub open spec fn entries_view(es: Seq<IndexEntry>) -> Seq<EntryView> {
    es.map_values(|e: IndexEntry| e@)
}

/// The number of zero bytes that pad an entry whose path takes `n` bytes to a multiple
/// of eight (the fixed part, the path and its NUL take `63 + n` bytes).
pub open spec fn padding(n: nat) -> nat {
    ((8 - (63 + n) % 8) % 8) as nat
}

/// The file mode that every entry is written with (regular file, `0o100644`).
pub open spec fn regular_mode() -> u32 {
    0x81A4
}

/// The bytes of one entry: zeroed times, device, inode, the mode, zeroed owner and
/// size, the hash, the flags, the path, a NUL, and the padding.
pub open spec fn entry_bytes(e: EntryView) -> Seq<u8> {
    zeros(24) + be32(regular_mode()) + zeros(12) + e.sha + be16(e.flags) + encode_utf8(e.path)
        + seq![0u8] + zeros(padding(encode_utf8(e.path).len()))
}

/// The bytes of the entries, one after another.
pub open spec fn entries_bytes(es: Seq<EntryView>) -> Seq<u8>
    decreases es.len(),
{
    if es.len() == 0 {
        seq![]
    } else {
        entries_bytes(es.drop_last()) + entry_bytes(es.last())
    }
}

/// The signature that opens an index file: "DIRC".
pub open spec fn index_signature() -> Seq<u8> {
    seq![0x44u8, 0x49u8, 0x52u8, 0x43u8]
}

/// The index without its checksum: signature, version 2, the number of entries
/// (modulo 2^32, as a 32-bit word), and the entries.
pub open spec fn index_body(es: Seq<EntryView>) -> Seq<u8> {
    index_signature() + be32(2) + be32((es.len() % 0x1_0000_0000) as u32) + entries_bytes(es)
}

/// The whole index file: the body followed by its SHA-1 digest.
pub open spec fn index_file(es: Seq<EntryView>) -> Seq<u8> {
    index_body(es) + sha1_digest(index_body(es))
}

/// Reading `count` entries of `data` from offset `pos`; `None` where reading fails (an
/// entry runs past the end, its path has no terminating NUL, or the path is not UTF-8).
pub open spec fn parse_entries(data: Seq<u8>, pos: int, count: nat) -> Option<Seq<EntryView>>
    decreases count,
{
    if count == 0 {
        Some(seq![])
    } else if pos < 0 || pos + 62 > data.len() {
        None
    } else {
        match find_from(data, pos + 62, 0u8) {
            None => None,
            Some(z) => {
                let pb = data.subrange(pos + 62, z);
                if !valid_utf8(pb) {
                    None
                } else {
                    let e = EntryView {
                        sha: data.subrange(pos + 40, pos + 60),
                        flags: from_be16(data[pos + 60], data[pos + 61]),
                        path: decode_utf8(pb),
                    };
                    let n = (z - (pos + 62)) as nat;
                    match parse_entries(data, pos + 63 + n + padding(n), (count - 1) as nat) {
                        Some(rest) => Some(seq![e] + rest),
                        None => None,
                    }
                }
            },
        }
    }
}

/// Whether reading `count` entries of `data` from offset `pos` stops at an entry whose
/// fixed part (62 bytes) runs past the end of the data, the case in which reading
/// warns of an invalid length before it gives up.
pub open spec fn entries_short(data: Seq<u8>, pos: int, count: nat) -> bool
    decreases count,
{
    if count == 0 {
        false
    } else if pos < 0 || pos + 62 > data.len() {
        true
    } else {
        match find_from(data, pos + 62, 0u8) {
            None => false,
            Some(z) => {
                let pb = data.subrange(pos + 62, z);
                if !valid_utf8(pb) {
                    false
                } else {
                    let n = (z - (pos + 62)) as nat;
                    entries_short(data, pos + 63 + n + padding(n), (count - 1) as nat)
                }
            },
        }
    }
}

/// Whether reading the index file `data` warns of an invalid entry length: it has a
/// header and an announced entry runs past its end.
pub open spec fn index_len_warned(data: Seq<u8>) -> bool {
    data.len() >= 12 && entries_short(data, 12, announced_count(data))
}

/// The number of entries that the header of an index announces.
pub open spec fn announced_count(data: Seq<u8>) -> nat {
    from_be32(data[8], data[9], data[10], data[11]) as nat
}

/// Reading an index file: the entries, and whether its signature is not "DIRC".
/// An empty file holds no entries. `None` where reading fails: a non-empty file shorter
/// than its 12-byte header, or entries that cannot be read.
pub open spec fn parse_index(data: Seq<u8>) -> Option<(Seq<EntryView>, bool)> {
    if data.len() == 0 {
        Some((seq![], false))
    } else if data.len() < 12 {
        None
    } else {
        match parse_entries(data, 12, announced_count(data)) {
            Some(es) => Some((es, data.take(4) != index_signature())),
            None => None,
        }
    }
}

/// Prepends `p` to a result, keeping a failure a failure.
pub open spec fn prepend(p: Seq<EntryView>, o: Option<Seq<EntryView>>) -> Option<Seq<EntryView>> {
    match o {
        Some(r) => Some(p + r),
        None => None,
    }
}

/// What reading an index file gives: its entries, and whether its signature is wrong
/// (then the file is still read, and a warning is due).
pub struct IndexRead {
    pub entries: Vec<IndexEntry>,
    pub bad_signature: bool,
}

/// Appends `n` zero bytes.
fn push_zeros(buf: &mut Vec<u8>, n: usize)
    ensures
        final(buf)@ == old(buf)@ + zeros(n as nat),
{
    let mut i: usize = 0;
    while i < n
        invariant
            i <= n,
            buf@ == old(buf)@ + zeros(i as nat),
        decreases n - i,
    {
        buf.push(0u8);
        i = i + 1;
        assert(buf@ =~= old(buf)@ + zeros(i as nat));
    }
}

/// Whether reading the non-empty index file `data` warns of an invalid format: it is
/// shorter than its 12-byte header, or does not open with the signature "DIRC".
pub fn index_format_warning(data: &[u8]) -> (b: bool)
    ensures
        b == (data@.len() > 0 && (data@.len() < 12 || data@.take(4) != index_signature())),
{
    if data.len() == 0 {
        return false;
    }
    if data.len() < 12 {
        return true;
    }
    let ok = data[0] == 0x44u8 && data[1] == 0x49u8 && data[2] == 0x52u8 && data[3] == 0x43u8;
    proof {
        if !ok {
            if data@.take(4) == index_signature() {
                assert(data@.take(4)[0] == data@[0]);
                assert(data@.take(4)[1] == data@[1]);
                assert(data@.take(4)[2] == data@[2]);
                assert(data@.take(4)[3] == data@[3]);
            }
        } else {
            assert(data@.take(4) =~= index_signature());
        }
    }
    !ok
}

/// Reads an index file, or gives `None` on exactly the files that cannot be read.
pub fn try_read_index(data: &[u8]) -> (r: Option<IndexRead>)
    requires
        data@.len() <= isize::MAX,
    ensures
        r is Some <==> parse_index(data@) is Some,
        r matches Some(ir) ==> parse_index(data@) == Some(
            (entries_view(ir.entries@), ir.bad_signature),
        ),
{
    scan_index(data).0
}

/// Whether reading the index file `data` warns of an invalid entry length (see
/// `index_len_warned`).
pub fn index_len_warning(data: &[u8]) -> (b: bool)
    requires
        data@.len() <= isize::MAX,
    ensures
        b == index_len_warned(data@),
{
    scan_index(data).1
}

/// Reads an index file as `try_read_index` does, and tells whether reading warns of an
/// invalid entry length.
fn scan_index(data: &[u8]) -> (r: (Option<IndexRead>, bool))
    requires
        data@.len() <= isize::MAX,
    ensures
        r.0 is Some <==> parse_index(data@) is Some,
        r.0 matches Some(ir) ==> parse_index(data@) == Some(
            (entries_view(ir.entries@), ir.bad_signature),
        ),
        r.1 == index_len_warned(data@),
{
    if data.len() == 0 {
        let entries: Vec<IndexEntry> = Vec::new();
        assert(entries_view(entries@) =~= seq![]);
        return (Some(IndexRead { entries, bad_signature: false }), false);
    }
    if data.len() < 12 {
        return (None, false);
    }
    let bad_signature = !(data[0] == 0x44u8 && data[1] == 0x49u8 && data[2] == 0x52u8 && data[3]
        == 0x43u8);
    proof {
        if bad_signature {
            if data@.take(4) == index_signature() {
                assert(data@.take(4)[0] == data@[0]);
                assert(data@.take(4)[1] == data@[1]);
                assert(data@.take(4)[2] == data@[2]);
                assert(data@.take(4)[3] == data@[3]);
            }
        } else {
            assert(data@.take(4) =~= index_signature());
        }
    }
    let count32: u32 = (data[8] as u32) * 0x1000000 + (data[9] as u32) * 0x10000 + (data[10] as u32)
        * 256 + (data[11] as u32);
    let count: usize = count32 as usize;
    let ghost total = announced_count(data@);
    assert(count == total);
    let mut entries: Vec<IndexEntry> = Vec::new();
    let mut pos: usize = 12;
    let mut k: usize = 0;
    assert(entries_view(entries@) =~= seq![]);
    proof {
        if let Some(r) = parse_entries(data@, 12, total) {
            assert(Seq::<EntryView>::empty() + r =~= r);
        }
    }
    while k < count
        invariant
            12 <= data@.len() <= isize::MAX,
            12 <= pos <= data@.len() + 8,
            k <= count,
            count == total,
            total == announced_count(data@),
            parse_entries(data@, 12, total) == prepend(
                entries_view(entries@),
                parse_entries(data@, pos as int, (count - k) as nat),
            ),
            entries_short(data@, 12, total) == entries_short(data@, pos as int, (count - k) as nat),
        decreases count - k,
    {
        if pos + 62 > data.len() {
            assert(parse_entries(data@, pos as int, (count - k) as nat) is None);
            return (None, true);
        }
        let path_start = pos + 62;
        let z = match find_byte_from(data, path_start, 0u8) {
            Some(z) => z,
            None => {
                assert(parse_entries(data@, pos as int, (count - k) as nat) is None);
                assert(!entries_short(data@, pos as int, (count - k) as nat));
                return (None, false);
            },
        };
        proof {
            lemma_find_from(data@, path_start as int, 0u8);
        }
        let pb = sub_vec(data, path_start, z);
        let path = match string_from_utf8(pb) {
            Some(p) => p,
            None => {
                assert(parse_entries(data@, pos as int, (count - k) as nat) is None);
                assert(!entries_short(data@, pos as int, (count - k) as nat));
                return (None, false);
            },
        };
        let mut sha = [0u8; 20];
        let mut t: usize = 0;
        while t < 20
            invariant
                t <= 20,
                data@.len() <= isize::MAX,
                pos + 62 <= data@.len(),
                sha@.len() == 20,
                forall|j: int| 0 <= j < t ==> sha@[j] == data@[pos + 40 + j],
            decreases 20 - t,
        {
            sha[t] = data[pos + 40 + t];
            t = t + 1;
        }
        assert(sha@ =~= data@.subrange(pos + 40, pos + 60));
        let flags: u16 = (data[pos + 60] as u16) * 256 + (data[pos + 61] as u16);
        let n = z - path_start;
        let entry_len = 63 + n;
        let pad = (8 - entry_len % 8) % 8;
        let entry = IndexEntry { sha, flags, path };
        let ghost before = entries_view(entries@);
        let ghost e = entry@;
        entries.push(entry);
        assert(entries_view(entries@) =~= before.push(e));
        let ghost next = pos + entry_len + pad;
        assert(next == pos + 63 + n + padding(n as nat));
        proof {
            let rest = parse_entries(data@, next, (count - k - 1) as nat);
            assert(parse_entries(data@, pos as int, (count - k) as nat) == prepend(seq![e], rest));
            assert(entries_short(data@, pos as int, (count - k) as nat) == entries_short(
                data@,
                next,
                (count - k - 1) as nat,
            ));
            if let Some(r) = rest {
                assert(before + (seq![e] + r) =~= before.push(e) + r);
            }
        }
        pos = pos + entry_len + pad;
        k = k + 1;
    }
    proof {
        assert(parse_entries(data@, pos as int, 0) == Some(Seq::<EntryView>::empty()));
        assert(entries_view(entries@) + Seq::<EntryView>::empty() =~= entries_view(entries@));
    }
    (Some(IndexRead { entries, bad_signature }), false)
}

/// Whether `read_index` can read `data`; the tool stops with a panic on the others.
pub fn index_is_readable(data: &[u8]) -> (b: bool)
    requires
        data@.len() <= isize::MAX,
    ensures
        b == parse_index(data@) is Some,
{
    try_read_index(data).is_some()
}

/// Reads the contents of an index file: its entries, in file order, and whether the
/// signature is wrong. The file must be readable (`index_is_readable`).
pub fn read_index(data: &[u8]) -> (r: IndexRead)
    requires
        data@.len() <= isize::MAX,
        parse_index(data@) is Some,
    ensures
        parse_index(data@) == Some((entries_view(r.entries@), r.bad_signature)),
{
    match try_read_index(data) {
        Some(r) => r,
        None => {
            assert(false);
            IndexRead { entries: Vec::new(), bad_signature: false }
        },
    }
}

/// The bytes of the index file for `entries`, checksum included.
pub fn write_index(entries: &[IndexEntry]) -> (r: Vec<u8>)
    ensures
        r@ == index_file(entries_view(entries@)),
        r@.len() == index_body(entries_view(entries@)).len() + 20,
        r@.len() >= 32,
        (r@.len() - 32) % 8 == 0,
{
    let mut buf: Vec<u8> = Vec::new();
    buf.push(0x44u8);
    buf.push(0x49u8);
    buf.push(0x52u8);
    buf.push(0x43u8);
    let version = be32_bytes(2);
    extend_bytes(&mut buf, &version);
    let count = ((entries.len() as u64) % 0x1_0000_0000) as u32;
    let count_bytes = be32_bytes(count);
    extend_bytes(&mut buf, &count_bytes);
    let ghost header = buf@;
    assert(header =~= index_signature() + be32(2) + be32((entries@.len() % 0x1_0000_0000) as u32));
    let mut i: usize = 0;
    assert(entries_view(entries@).take(0) =~= seq![]);
    assert(buf@ =~= header + entries_bytes(entries_view(entries@).take(0)));
    while i < entries.len()
        invariant
            i <= entries@.len(),
            buf@ == header + entries_bytes(entries_view(entries@).take(i as int)),
        decreases entries.len() - i,
    {
        let entry = &entries[i];
        let ghost before = buf@;
        push_zeros(&mut buf, 24);
        let mode = be32_bytes(0x81A4);
        extend_bytes(&mut buf, &mode);
        push_zeros(&mut buf, 12);
        extend_bytes(&mut buf, &entry.sha);
        let fl = be16_bytes(entry.flags);
        extend_bytes(&mut buf, &fl);
        let pbytes = utf8_bytes(entry.path.as_str());
        extend_bytes(&mut buf, pbytes.as_slice());
        buf.push(0u8);
        let entry_len = 62 + (pbytes.len() % 8) + 1;
        let pad = (8 - entry_len % 8) % 8;
        assert(pad == padding(pbytes@.len()));
        push_zeros(&mut buf, pad);
        proof {
            let ev = entries_view(entries@);
            assert(ev[i as int] == entries@[i as int]@);
            assert(buf@ =~= before + entry_bytes(ev[i as int]));
            assert(ev.take(i + 1).drop_last() =~= ev.take(i as int));
            assert(ev.take(i + 1).last() == ev[i as int]);
        }
        i = i + 1;
    }
    assert(entries_view(entries@).take(entries@.len() as int) =~= entries_view(entries@));
    assert(entries_view(entries@).len() == entries@.len());
    let checksum = sha1(buf.as_slice());
    let ghost body = buf@;
    assert(body =~= index_body(entries_view(entries@)));
    proof {
        let ev = entries_view(entries@);
        assert forall|k: int| 0 <= k < ev.len() implies (#[trigger] ev[k]).sha.len() == 20 by {
            assert(ev[k] == entries@[k]@);
        }
        lemma_entries_bytes_len(ev);
    }
    extend_bytes(&mut buf, checksum.as_slice());
    buf
}

/// Each entry takes a multiple of eight bytes, so the entries do too.
pub proof fn lemma_entries_bytes_len(es: Seq<EntryView>)
    requires
        forall|k: int| 0 <= k < es.len() ==> (#[trigger] es[k]).sha.len() == 20,
    ensures
        entries_bytes(es).len() % 8 == 0,
    decreases es.len(),
{
    if es.len() > 0 {
        let rest = es.drop_last();
        assert forall|k: int| 0 <= k < rest.len() implies (#[trigger] rest[k]).sha.len() == 20 by {
            assert(rest[k] == es[k]);
        }
        lemma_entries_bytes_len(rest);
        let e = es.last();
        assert(e == es[es.len() - 1]);
        let n = encode_utf8(e.path).len();
        assert(entry_bytes(e).len() == 63 + n + padding(n));
        assert((63 + n + padding(n)) % 8 == 0);
    }
}

/// The bytes of a non-empty sequence of entries start with those of its first entry.
pub proof fn lemma_entries_bytes_front(es: Seq<EntryView>)
    requires
        es.len() > 0,
    ensures
        entries_bytes(es) == entry_bytes(es[0]) + entries_bytes(es.drop_first()),
    decreases es.len(),
{
    if es.len() == 1 {
        assert(es.drop_first() =~= Seq::<EntryView>::empty());
        assert(es.drop_last() =~= Seq::<EntryView>::empty());
        assert(entries_bytes(es.drop_last()) == Seq::<u8>::empty());
        assert(entries_bytes(es.drop_first()) == Seq::<u8>::empty());
        assert(es.last() == es[0]);
        assert(entries_bytes(es) =~= entry_bytes(es[0]) + entries_bytes(es.drop_first()));
    } else {
        lemma_entries_bytes_front(es.drop_last());
        assert(es.drop_last().drop_first() =~= es.drop_first().drop_last());
        assert(es.drop_first().last() == es.last());
        assert(entries_bytes(es) =~= entry_bytes(es[0]) + entries_bytes(es.drop_first()));
    }
}

/// The sizes that place each part of an entry's bytes.
proof fn lemma_entry_bytes_layout(e: EntryView)
    requires
        e.sha.len() == 20,
    ensures
        ({
            let eb = entry_bytes(e);
            let p = encode_utf8(e.path);
            &&& eb.len() == 63 + p.len() + padding(p.len())
            &&& eb.subrange(40, 60) == e.sha
            &&& eb[60] == be16(e.flags)[0]
            &&& eb[61] == be16(e.flags)[1]
            &&& eb.subrange(62, 62 + p.len() as int) == p
            &&& eb[62 + p.len() as int] == 0
        }),
{
    let eb = entry_bytes(e);
    let p = encode_utf8(e.path);
    let head = zeros(24) + be32(regular_mode()) + zeros(12);
    assert(head.len() == 40);
    assert(eb =~= head + e.sha + be16(e.flags) + p + seq![0u8] + zeros(padding(p.len())));
    assert(eb.subrange(40, 60) =~= e.sha);
    assert(eb.subrange(62, 62 + p.len() as int) =~= p);
}

/// Reading `es.len()` entries where the bytes of `es` stand gives back `es`, whatever
/// bytes precede and follow them, provided no path holds a NUL.
pub proof fn lemma_parse_entries(a: Seq<u8>, es: Seq<EntryView>, b: Seq<u8>)
    requires
        forall|i: int| 0 <= i < es.len() ==> (#[trigger] es[i]).sha.len() == 20,
        forall|i: int| 0 <= i < es.len() ==> !has_char((#[trigger] es[i]).path, '\0'),
    ensures
        parse_entries(a + entries_bytes(es) + b, a.len() as int, es.len()) == Some(es),
    decreases es.len(),
{
    if es.len() == 0 {
        assert(parse_entries(a + entries_bytes(es) + b, a.len() as int, 0) == Some(
            Seq::<EntryView>::empty(),
        ));
        assert(es =~= Seq::<EntryView>::empty());
    } else {
        let e = es[0];
        let eb = entry_bytes(e);
        let rest = es.drop_first();
        let data = a + entries_bytes(es) + b;
        let pos = a.len() as int;
        let p = encode_utf8(e.path);
        let n = p.len() as int;
        lemma_entries_bytes_front(es);
        lemma_entry_bytes_layout(e);
        assert(data =~= (a + eb) + entries_bytes(rest) + b);
        assert forall|j: int| 0 <= j < eb.len() implies data[pos + j] == #[trigger] eb[j] by {
            assert(data[pos + j] == ((a + eb) + entries_bytes(rest) + b)[pos + j]);
        }
        assert(pos + 62 <= data.len());
        assert(data.subrange(pos + 40, pos + 60) =~= e.sha) by {
            assert forall|j: int| 0 <= j < 20 implies data.subrange(pos + 40, pos + 60)[j]
                == e.sha[j] by {
                assert(data[pos + 40 + j] == eb[40 + j]);
                assert(eb.subrange(40, 60)[j] == eb[40 + j]);
            }
        }
        assert(data[pos + 60] == be16(e.flags)[0]);
        assert(data[pos + 61] == be16(e.flags)[1]);
        lemma_be16_roundtrip(e.flags);
        lemma_utf8_no_zero(e.path);
        assert forall|j: int| pos + 62 <= j < pos + 62 + n implies data[j] != 0u8 by {
            assert(data[j] == eb[j - pos]);
            assert(eb[j - pos] == eb.subrange(62, 62 + n)[j - pos - 62]);
            assert(p[j - pos - 62] != 0);
        }
        assert(data[pos + 62 + n] == 0u8) by {
            assert(data[pos + 62 + n] == eb[62 + n]);
        }
        lemma_find_from_at(data, pos + 62, pos + 62 + n, 0u8);
        assert(data.subrange(pos + 62, pos + 62 + n) =~= p) by {
            assert forall|j: int| 0 <= j < n implies data.subrange(pos + 62, pos + 62 + n)[j]
                == p[j] by {
                assert(data[pos + 62 + j] == eb[62 + j]);
                assert(eb[62 + j] == eb.subrange(62, 62 + n)[j]);
            }
        }
        encode_utf8_valid_utf8(e.path);
        encode_utf8_decode_utf8(e.path);
        let pe = EntryView {
            sha: data.subrange(pos + 40, pos + 60),
            flags: from_be16(data[pos + 60], data[pos + 61]),
            path: decode_utf8(data.subrange(pos + 62, pos + 62 + n)),
        };
        assert(pe == e);
        assert forall|i: int| 0 <= i < rest.len() implies (#[trigger] rest[i]).sha.len() == 20 by {
            assert(rest[i] == es[i + 1]);
        }
        assert forall|i: int| 0 <= i < rest.len() implies !has_char((#[trigger] rest[i]).path, '\0') by {
            assert(rest[i] == es[i + 1]);
        }
        lemma_parse_entries(a + eb, rest, b);
        assert(pos + 63 + n + padding(n as nat) == (a + eb).len());
        assert(seq![e] + rest =~= es);
    }
}

/// Reading the index file that `write_index` writes gives back the same entries, with a
/// correct signature, provided there are fewer than 2^32 entries and no path holds a
/// NUL character.
pub proof fn lemma_index_roundtrip(es: Seq<EntryView>)
    requires
        es.len() < 0x1_0000_0000,
        forall|i: int| 0 <= i < es.len() ==> (#[trigger] es[i]).sha.len() == 20,
        forall|i: int| 0 <= i < es.len() ==> !has_char((#[trigger] es[i]).path, '\0'),
    ensures
        parse_index(index_file(es)) == Some((es, false)),
{
    let data = index_file(es);
    let count = (es.len() % 0x1_0000_0000) as u32;
    let header = index_signature() + be32(2) + be32(count);
    assert(header.len() == 12);
    assert(data =~= header + entries_bytes(es) + sha1_digest(index_body(es)));
    assert(data[8] == be32(count)[0]);
    assert(data[9] == be32(count)[1]);
    assert(data[10] == be32(count)[2]);
    assert(data[11] == be32(count)[3]);
    lemma_be32_roundtrip(count);
    assert(announced_count(data) == es.len());
    lemma_parse_entries(header, es, sha1_digest(index_body(es)));
    assert(data.take(4) =~= index_signature());
}

/// Law of the index format: for entries that the format holds faithfully (fewer
/// than 2^32 of them, no NUL in a path), `read_index` of the bytes that `write_index`
/// produces yields exactly those entries and no signature warning.
pub proof fn law_read_index_after_write_index(entries: Seq<IndexEntry>)
    requires
        entries.len() < 0x1_0000_0000,
        forall|i: int| 0 <= i < entries.len() ==> !has_char((#[trigger] entries[i]).path@, '\0'),
    ensures
        parse_index(index_file(entries_view(entries))) == Some((entries_view(entries), false)),
{
    let es = entries_view(entries);
    assert forall|i: int| 0 <= i < es.len() implies (#[trigger] es[i]).sha.len() == 20 by {
        assert(es[i] == entries[i]@);
    }
    assert forall|i: int| 0 <= i < es.len() implies !has_char((#[trigger] es[i]).path, '\0') by {
        assert(es[i] == entries[i]@);
    }
    lemma_index_roundtrip(es);
}

} // verus!
