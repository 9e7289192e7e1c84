use vstd::prelude::*;
use vstd::utf8::{decode_utf8, encode_utf8, encode_utf8_decode_utf8, valid_utf8};

verus! {

/// One physically contiguous run of storage: where it starts on the device
/// and how many bytes it covers.
#[derive(Clone, Copy, Debug, PartialEq, Eq, Structural)]
pub struct Extent {
    pub start: u64,
    pub len: u64,
}

impl Extent {
    pub fn new(start: u64, len: u64) -> (r: Extent)
        ensures
            r == (Extent { start, len }),
    {
        Extent { start, len }
    }
}

/// What kind of filesystem object a record describes.
#[derive(Clone, Copy, Debug, PartialEq, Eq, Structural)]
pub enum ObjectKind {
    File,
    Directory,
}

/// A removed object: its path (for display), its logical length in bytes,
/// its kind, and the extents that held its bytes, in logical order.
#[derive(Clone, Debug)]
pub struct ZombieFile {
    pub name: String,
    pub len: usize,
    pub kind: ObjectKind,
    pub extents: Vec<Extent>,
}

/// Why a log could not be read past some offset.
#[derive(Clone, Copy, Debug, PartialEq, Eq, Structural)]
pub struct DecodeError {
    /// Where the record that could not be decoded starts.
    pub offset: usize,
}

impl ZombieFile {
    pub fn new(name: String, len: usize, kind: ObjectKind, extents: Vec<Extent>) -> (r: ZombieFile)
        ensures
            r.name == name,
            r.len == len,
            r.kind == kind,
            r.extents == extents,
    {
        ZombieFile { name, len, kind, extents }
    }
}

/// Two records hold the same values.
pub open spec fn same_record(a: ZombieFile, b: ZombieFile) -> bool {
    &&& a.name@ == b.name@
    &&& a.len == b.len
    &&& a.kind == b.kind
    &&& a.extents@ == b.extents@
}

/// `x` as eight little-endian bytes.
pub open spec fn u64_bytes(x: u64) -> Seq<u8> {
    seq![
        (x & 0xff) as u8,
        ((x >> 8) & 0xff) as u8,
        ((x >> 16) & 0xff) as u8,
        ((x >> 24) & 0xff) as u8,
        ((x >> 32) & 0xff) as u8,
        ((x >> 40) & 0xff) as u8,
        ((x >> 48) & 0xff) as u8,
        ((x >> 56) & 0xff) as u8,
    ]
}

/// `x` as four little-endian bytes.
pub open spec fn u32_bytes(x: u32) -> Seq<u8> {
    seq![
        (x & 0xff) as u8,
        ((x >> 8) & 0xff) as u8,
        ((x >> 16) & 0xff) as u8,
        ((x >> 24) & 0xff) as u8,
    ]
}

pub open spec fn kind_tag(k: ObjectKind) -> u32 {
    match k {
        ObjectKind::File => 0,
        ObjectKind::Directory => 1,
    }
}

pub open spec fn extents_bytes(s: Seq<Extent>) -> Seq<u8>
    decreases s.len(),
{
    if s.len() == 0 {
        Seq::empty()
    } else {
        extents_bytes(s.drop_last()) + u64_bytes(s.last().start) + u64_bytes(s.last().len)
    }
}

/// The bytes of one record in the log: the path's UTF-8 length and bytes,
/// the logical length, the kind, the number of extents, then each extent's
/// start and length. Integers are little-endian, lengths and counts take
/// eight bytes and the kind four.
#[verifier::opaque]
pub open spec fn encoding(f: ZombieFile) -> Seq<u8> {
    let nb = encode_utf8(f.name@);
    u64_bytes(nb.len() as u64) + nb + u64_bytes(f.len as u64) + u32_bytes(kind_tag(f.kind))
        + u64_bytes(f.extents@.len() as u64) + extents_bytes(f.extents@)
}

/// The bytes of a log holding these records, in order.
pub open spec fn log_bytes(s: Seq<ZombieFile>) -> Seq<u8>
    decreases s.len(),
{
    if s.len() == 0 {
        Seq::empty()
    } else {
        encoding(s[0]) + log_bytes(s.drop_first())
    }
}

pub open spec fn u64_at(b: Seq<u8>, i: int) -> u64 {
    (b[i] as u64) | ((b[i + 1] as u64) << 8) | ((b[i + 2] as u64) << 16) | ((b[i + 3] as u64) << 24)
        | ((b[i + 4] as u64) << 32) | ((b[i + 5] as u64) << 40) | ((b[i + 6] as u64) << 48) | ((
    b[i + 7] as u64) << 56)
}

pub open spec fn u32_at(b: Seq<u8>, i: int) -> u32 {
    (b[i] as u32) | ((b[i + 1] as u32) << 8) | ((b[i + 2] as u32) << 16) | ((b[i + 3] as u32) << 24)
}

pub proof fn lemma_u64_bytes(x: u64, b: Seq<u8>, i: int)
    requires
        0 <= i,
        i + 8 <= b.len(),
    ensures
        b.subrange(i, i + 8) == u64_bytes(x) <==> u64_at(b, i) == x,
{
    let (b0, b1, b2, b3) = (b[i] as u64, b[i + 1] as u64, b[i + 2] as u64, b[i + 3] as u64);
    let (b4, b5, b6, b7) = (b[i + 4] as u64, b[i + 5] as u64, b[i + 6] as u64, b[i + 7] as u64);
    assert(b0 < 256 && b1 < 256 && b2 < 256 && b3 < 256 && b4 < 256 && b5 < 256 && b6 < 256 && b7
        < 256);
    let v = u64_at(b, i);
    assert(v == b0 | (b1 << 8) | (b2 << 16) | (b3 << 24) | (b4 << 32) | (b5 << 40) | (b6 << 48) | (b7
        << 56));
    assert(b0 < 256 && b1 < 256 && b2 < 256 && b3 < 256 && b4 < 256 && b5 < 256 && b6 < 256 && b7
        < 256 ==> {
        let w = b0 | (b1 << 8) | (b2 << 16) | (b3 << 24) | (b4 << 32) | (b5 << 40) | (b6 << 48) | (b7
            << 56);
        &&& w & 0xff == b0
        &&& (w >> 8) & 0xff == b1
        &&& (w >> 16) & 0xff == b2
        &&& (w >> 24) & 0xff == b3
        &&& (w >> 32) & 0xff == b4
        &&& (w >> 40) & 0xff == b5
        &&& (w >> 48) & 0xff == b6
        &&& (w >> 56) & 0xff == b7
    }) by (bit_vector);
    assert(x == (x & 0xff) | (((x >> 8) & 0xff) << 8) | (((x >> 16) & 0xff) << 16) | (((x >> 24)
        & 0xff) << 24) | (((x >> 32) & 0xff) << 32) | (((x >> 40) & 0xff) << 40) | (((x >> 48)
        & 0xff) << 48) | (((x >> 56) & 0xff) << 56)) by (bit_vector);
    assert((x & 0xff) < 256 && ((x >> 8) & 0xff) < 256 && ((x >> 16) & 0xff) < 256 && ((x >> 24)
        & 0xff) < 256 && ((x >> 32) & 0xff) < 256 && ((x >> 40) & 0xff) < 256 && ((x >> 48) & 0xff)
        < 256 && ((x >> 56) & 0xff) < 256) by (bit_vector);
    if b.subrange(i, i + 8) == u64_bytes(x) {
        assert(b[i] == b.subrange(i, i + 8)[0]);
        assert(b[i + 1] == b.subrange(i, i + 8)[1]);
        assert(b[i + 2] == b.subrange(i, i + 8)[2]);
        assert(b[i + 3] == b.subrange(i, i + 8)[3]);
        assert(b[i + 4] == b.subrange(i, i + 8)[4]);
        assert(b[i + 5] == b.subrange(i, i + 8)[5]);
        assert(b[i + 6] == b.subrange(i, i + 8)[6]);
        assert(b[i + 7] == b.subrange(i, i + 8)[7]);
    }
    if v == x {
        assert(b.subrange(i, i + 8) =~= u64_bytes(x));
    }
}

pub proof fn lemma_u32_bytes(x: u32, b: Seq<u8>, i: int)
    requires
        0 <= i,
        i + 4 <= b.len(),
    ensures
        b.subrange(i, i + 4) == u32_bytes(x) <==> u32_at(b, i) == x,
{
    let (b0, b1, b2, b3) = (b[i] as u32, b[i + 1] as u32, b[i + 2] as u32, b[i + 3] as u32);
    assert(b0 < 256 && b1 < 256 && b2 < 256 && b3 < 256);
    let v = u32_at(b, i);
    assert(v == b0 | (b1 << 8) | (b2 << 16) | (b3 << 24));
    assert(b0 < 256 && b1 < 256 && b2 < 256 && b3 < 256 ==> {
        let w = b0 | (b1 << 8) | (b2 << 16) | (b3 << 24);
        &&& w & 0xff == b0
        &&& (w >> 8) & 0xff == b1
        &&& (w >> 16) & 0xff == b2
        &&& (w >> 24) & 0xff == b3
    }) by (bit_vector);
    assert(x == (x & 0xff) | (((x >> 8) & 0xff) << 8) | (((x >> 16) & 0xff) << 16) | (((x >> 24)
        & 0xff) << 24)) by (bit_vector);
    assert((x & 0xff) < 256 && ((x >> 8) & 0xff) < 256 && ((x >> 16) & 0xff) < 256 && ((x >> 24)
        & 0xff) < 256) by (bit_vector);
    if b.subrange(i, i + 4) == u32_bytes(x) {
        assert(b[i] == b.subrange(i, i + 4)[0]);
        assert(b[i + 1] == b.subrange(i, i + 4)[1]);
        assert(b[i + 2] == b.subrange(i, i + 4)[2]);
        assert(b[i + 3] == b.subrange(i, i + 4)[3]);
    }
    if v == x {
        assert(b.subrange(i, i + 4) =~= u32_bytes(x));
    }
}

proof fn lemma_extents_len(s: Seq<Extent>)
    ensures
        extents_bytes(s).len() == 16 * s.len(),
    decreases s.len(),
{
    if s.len() > 0 {
        lemma_extents_len(s.drop_last());
    }
}

fn put_u64(out: &mut Vec<u8>, x: u64)
    ensures
        final(out)@ == old(out)@ + u64_bytes(x),
{
    proof {
        assert((x & 0xff) < 256 && ((x >> 8) & 0xff) < 256 && ((x >> 16) & 0xff) < 256 && ((x
            >> 24) & 0xff) < 256 && ((x >> 32) & 0xff) < 256 && ((x >> 40) & 0xff) < 256 && ((x
            >> 48) & 0xff) < 256 && ((x >> 56) & 0xff) < 256) by (bit_vector);
    }
    out.push((x & 0xff) as u8);
    out.push(((x >> 8) & 0xff) as u8);
    out.push(((x >> 16) & 0xff) as u8);
    out.push(((x >> 24) & 0xff) as u8);
    out.push(((x >> 32) & 0xff) as u8);
    out.push(((x >> 40) & 0xff) as u8);
    out.push(((x >> 48) & 0xff) as u8);
    out.push(((x >> 56) & 0xff) as u8);
    assert(out@ =~= old(out)@ + u64_bytes(x));
}

fn put_u32(out: &mut Vec<u8>, x: u32)
    ensures
        final(out)@ == old(out)@ + u32_bytes(x),
{
    proof {
        assert((x & 0xff) < 256 && ((x >> 8) & 0xff) < 256 && ((x >> 16) & 0xff) < 256 && ((x
            >> 24) & 0xff) < 256) by (bit_vector);
    }
    out.push((x & 0xff) as u8);
    out.push(((x >> 8) & 0xff) as u8);
    out.push(((x >> 16) & 0xff) as u8);
    out.push(((x >> 24) & 0xff) as u8);
    assert(out@ =~= old(out)@ + u32_bytes(x));
}

fn get_u64(b: &Vec<u8>, i: usize) -> (r: u64)
    requires
        i + 8 <= b.len(),
    ensures
        r == u64_at(b@, i as int),
{
    (b[i] as u64) | ((b[i + 1] as u64) << 8) | ((b[i + 2] as u64) << 16) | ((b[i + 3] as u64) << 24)
        | ((b[i + 4] as u64) << 32) | ((b[i + 5] as u64) << 40) | ((b[i + 6] as u64) << 48) | ((b[i
        + 7] as u64) << 56)
}

fn get_u32(b: &Vec<u8>, i: usize) -> (r: u32)
    requires
        i + 4 <= b.len(),
    ensures
        r == u32_at(b@, i as int),
{
    (b[i] as u32) | ((b[i + 1] as u32) << 8) | ((b[i + 2] as u32) << 16) | ((b[i + 3] as u32) << 24)
}

/// Relies on `String::from_utf8`: it accepts exactly the byte sequences that
/// are valid UTF-8, and the string then holds the characters they encode.
#[verifier::external_body]
fn string_from_utf8(bytes: Vec<u8>) -> (r: Option<String>)
    ensures
        r is Some <==> valid_utf8(bytes@),
        r matches Some(s) ==> s@ == decode_utf8(bytes@),
{
    String::from_utf8(bytes).ok()
}

/// Encodes one record as it is appended to the log.
pub fn encode_record(f: &ZombieFile) -> (r: Vec<u8>)
    ensures
        r@ == encoding(*f),
{
    let mut out: Vec<u8> = Vec::new();
    let nb = f.name.as_str().as_bytes();
    put_u64(&mut out, nb.len() as u64);
    let mut i: usize = 0;
    let ghost head = out@;
    while i < nb.len()
        invariant
            i <= nb.len(),
            out@ == head + nb@.subrange(0, i as int),
        decreases nb.len() - i,
    {
        out.push(nb[i]);
        proof {
            assert(nb@.subrange(0, i + 1) =~= nb@.subrange(0, i as int).push(nb[i as int]));
        }
        i = i + 1;
    }
    assert(nb@.subrange(0, nb@.len() as int) =~= nb@);
    put_u64(&mut out, f.len as u64);
    let tag: u32 = match f.kind {
        ObjectKind::File => 0,
        ObjectKind::Directory => 1,
    };
    put_u32(&mut out, tag);
    put_u64(&mut out, f.extents.len() as u64);
    let ghost head2 = out@;
    let mut k: usize = 0;
    while k < f.extents.len()
        invariant
            k <= f.extents.len(),
            out@ == head2 + extents_bytes(f.extents@.subrange(0, k as int)),
        decreases f.extents.len() - k,
    {
        let e = f.extents[k];
        put_u64(&mut out, e.start);
        put_u64(&mut out, e.len);
        proof {
            let s = f.extents@.subrange(0, k + 1);
            assert(s.drop_last() =~= f.extents@.subrange(0, k as int));
            assert(out@ =~= head2 + extents_bytes(s));
        }
        k = k + 1;
    }
    assert(f.extents@.subrange(0, f.extents@.len() as int) =~= f.extents@);
    reveal(encoding);
    assert(out@ =~= encoding(*f));
    out
}

pub proof fn lemma_encoding_len(f: ZombieFile)
    ensures
        encoding(f).len() == 28 + encode_utf8(f.name@).len() + 16 * f.extents@.len(),
{
    reveal(encoding);
    lemma_extents_len(f.extents@);
}

/// `b` holds `e` from offset `pos` on.
pub open spec fn holds_at(b: Seq<u8>, pos: int, e: Seq<u8>) -> bool {
    0 <= pos && pos + e.len() <= b.len() && b.subrange(pos, pos + e.len()) == e
}

proof fn lemma_sub(b: Seq<u8>, pos: int, e: Seq<u8>, x: int, y: int)
    requires
        holds_at(b, pos, e),
        0 <= x <= y <= e.len(),
    ensures
        b.subrange(pos + x, pos + y) == e.subrange(x, y),
{
    assert(b.subrange(pos + x, pos + y) =~= e.subrange(x, y)) by {
        assert forall|i: int| 0 <= i < y - x implies b.subrange(pos + x, pos + y)[i] == e.subrange(
            x,
            y,
        )[i] by {
            assert(b.subrange(pos, pos + e.len())[x + i] == e[x + i]);
        }
    }
}

proof fn lemma_extent_at(s: Seq<Extent>, k: int)
    requires
        0 <= k < s.len(),
    ensures
        extents_bytes(s).len() == 16 * s.len(),
        extents_bytes(s).subrange(16 * k, 16 * k + 8) == u64_bytes(s[k].start),
        extents_bytes(s).subrange(16 * k + 8, 16 * k + 16) == u64_bytes(s[k].len),
    decreases s.len(),
{
    lemma_extents_len(s);
    lemma_extents_len(s.drop_last());
    let e = extents_bytes(s);
    let d = extents_bytes(s.drop_last());
    if k < s.len() - 1 {
        lemma_extent_at(s.drop_last(), k);
        assert(e.subrange(16 * k, 16 * k + 8) =~= d.subrange(16 * k, 16 * k + 8));
        assert(e.subrange(16 * k + 8, 16 * k + 16) =~= d.subrange(16 * k + 8, 16 * k + 16));
    } else {
        assert(e.subrange(16 * k, 16 * k + 8) =~= u64_bytes(s.last().start));
        assert(e.subrange(16 * k + 8, 16 * k + 16) =~= u64_bytes(s.last().len));
    }
}

/// Where the fields of a record sit when its encoding starts at `pos`.
proof fn lemma_fields(b: Seq<u8>, pos: int, f: ZombieFile)
    requires
        holds_at(b, pos, encoding(f)),
        b.len() <= u64::MAX,
    ensures
        ({
            let nb = encode_utf8(f.name@);
            let nl = nb.len() as int;
            let ext_at = pos + 28 + nl;
            &&& encoding(f).len() == 28 + nl + 16 * f.extents@.len()
            &&& u64_at(b, pos) == nl
            &&& b.subrange(pos + 8, pos + 8 + nl) == nb
            &&& u64_at(b, pos + 8 + nl) == f.len as u64
            &&& u32_at(b, pos + 16 + nl) == kind_tag(f.kind)
            &&& u64_at(b, pos + 20 + nl) == f.extents@.len()
            &&& forall|k: int|
                0 <= k < f.extents@.len() ==> u64_at(b, ext_at + 16 * k) == (#[trigger] f.extents@[k]).start
                    && u64_at(b, ext_at + 16 * k + 8) == f.extents@[k].len
        }),
{
    reveal(encoding);
    let e = encoding(f);
    let nb = encode_utf8(f.name@);
    let nl = nb.len() as int;
    let xs = extents_bytes(f.extents@);
    lemma_extents_len(f.extents@);
    assert(e.subrange(0, 8) =~= u64_bytes(nl as u64));
    assert(e.subrange(8, 8 + nl) =~= nb);
    assert(e.subrange(8 + nl, 16 + nl) =~= u64_bytes(f.len as u64));
    assert(e.subrange(16 + nl, 20 + nl) =~= u32_bytes(kind_tag(f.kind)));
    assert(e.subrange(20 + nl, 28 + nl) =~= u64_bytes(f.extents@.len() as u64));
    assert(e.subrange(28 + nl, e.len() as int) =~= xs);
    lemma_sub(b, pos, e, 0, 8);
    lemma_u64_bytes(nl as u64, b, pos);
    lemma_sub(b, pos, e, 8, 8 + nl);
    lemma_sub(b, pos, e, 8 + nl, 16 + nl);
    lemma_u64_bytes(f.len as u64, b, pos + 8 + nl);
    lemma_sub(b, pos, e, 16 + nl, 20 + nl);
    lemma_u32_bytes(kind_tag(f.kind), b, pos + 16 + nl);
    lemma_sub(b, pos, e, 20 + nl, 28 + nl);
    lemma_u64_bytes(f.extents@.len() as u64, b, pos + 20 + nl);
    assert forall|k: int| 0 <= k < f.extents@.len() implies u64_at(b, pos + 28 + nl + 16 * k) == (
    #[trigger] f.extents@[k]).start && u64_at(b, pos + 28 + nl + 16 * k + 8) == f.extents@[k].len by {
        lemma_extent_at(f.extents@, k);
        lemma_sub(b, pos, e, 28 + nl + 16 * k, 28 + nl + 16 * k + 8);
        lemma_sub(b, pos, e, 28 + nl + 16 * k + 8, 28 + nl + 16 * k + 16);
        assert(e.subrange(28 + nl + 16 * k, 28 + nl + 16 * k + 8) =~= xs.subrange(16 * k, 16 * k + 8));
        assert(e.subrange(28 + nl + 16 * k + 8, 28 + nl + 16 * k + 16) =~= xs.subrange(16 * k + 8, 16 * k + 16));
        lemma_u64_bytes(f.extents@[k].start, b, pos + 28 + nl + 16 * k);
        lemma_u64_bytes(f.extents@[k].len, b, pos + 28 + nl + 16 * k + 8);
    }
}

/// Two records whose encodings both start at `pos` are the same record.
pub proof fn lemma_encoding_unique(b: Seq<u8>, pos: int, f: ZombieFile, g: ZombieFile)
    requires
        holds_at(b, pos, encoding(f)),
        holds_at(b, pos, encoding(g)),
        b.len() <= u64::MAX,
    ensures
        same_record(f, g),
        encoding(f) == encoding(g),
{
    reveal(encoding);
    lemma_fields(b, pos, f);
    lemma_fields(b, pos, g);
    encode_utf8_decode_utf8(f.name@);
    encode_utf8_decode_utf8(g.name@);
    assert(f.extents@ =~= g.extents@);
    assert(encoding(f) =~= encoding(g));
}

/// Decodes the record whose encoding starts at `pos`. It fails exactly when
/// no record's encoding starts there.
#[verifier::spinoff_prover]
#[verifier::rlimit(60)]
pub fn decode_record(buf: &Vec<u8>, pos: usize) -> (r: Result<(ZombieFile, usize), DecodeError>)
    requires
        pos <= buf.len(),
    ensures
        r matches Ok((f, end)) ==> pos < end <= buf.len() && end == pos + encoding(f).len()
            && holds_at(buf@, pos as int, encoding(f)),
        r matches Err(e) ==> e.offset == pos && forall|f: ZombieFile|
            !#[trigger] holds_at(buf@, pos as int, encoding(f)),
{
    let n = buf.len();
    let err = DecodeError { offset: pos };
    if n - pos < 8 {
        proof {
            assert forall|f: ZombieFile| !#[trigger] holds_at(buf@, pos as int, encoding(f)) by {
                if holds_at(buf@, pos as int, encoding(f)) {
                    lemma_fields(buf@, pos as int, f);
                }
            }
        }
        return Err(err);
    }
    let nl = get_u64(buf, pos);
    if nl > (n - pos - 8) as u64 {
        proof {
            assert forall|f: ZombieFile| !#[trigger] holds_at(buf@, pos as int, encoding(f)) by {
                if holds_at(buf@, pos as int, encoding(f)) {
                    lemma_fields(buf@, pos as int, f);
                }
            }
        }
        return Err(err);
    }
    let nl = nl as usize;
    let name_at = pos + 8;
    let mut bytes: Vec<u8> = Vec::new();
    let mut i: usize = 0;
    while i < nl
        invariant
            name_at + nl <= n,
            n == buf.len(),
            i <= nl,
            bytes@ == buf@.subrange(name_at as int, name_at + i),
        decreases nl - i,
    {
        bytes.push(buf[name_at + i]);
        proof {
            assert(buf@.subrange(name_at as int, name_at + i + 1) =~= buf@.subrange(name_at as int, name_at + i).push(
                buf@[name_at + i],
            ));
        }
        i = i + 1;
    }
    let ghost nbytes = bytes@;
    let name = match string_from_utf8(bytes) {
        Some(s) => s,
        None => {
            proof {
                assert forall|f: ZombieFile| !#[trigger] holds_at(buf@, pos as int, encoding(f)) by {
                    if holds_at(buf@, pos as int, encoding(f)) {
                        lemma_fields(buf@, pos as int, f);
                        vstd::utf8::encode_utf8_valid_utf8(f.name@);
                    }
                }
            }
            return Err(err);
        },
    };
    let fields_at = name_at + nl;
    if n - fields_at < 20 {
        proof {
            assert forall|f: ZombieFile| !#[trigger] holds_at(buf@, pos as int, encoding(f)) by {
                if holds_at(buf@, pos as int, encoding(f)) {
                    lemma_fields(buf@, pos as int, f);
                }
            }
        }
        return Err(err);
    }
    let lenv = get_u64(buf, fields_at);
    let tag = get_u32(buf, fields_at + 8);
    let cnt = get_u64(buf, fields_at + 12);
    let ext_at = fields_at + 20;
    let room = (n - ext_at) / 16;
    if lenv > usize::MAX as u64 || tag > 1 || cnt > room as u64 {
        proof {
            assert forall|f: ZombieFile| !#[trigger] holds_at(buf@, pos as int, encoding(f)) by {
                if holds_at(buf@, pos as int, encoding(f)) {
                    lemma_fields(buf@, pos as int, f);
                    assert(16 * f.extents@.len() <= n - ext_at);
                    assert(f.extents@.len() <= (n - ext_at) / 16) by (nonlinear_arith)
                        requires
                            16 * f.extents@.len() <= n - ext_at,
                            n >= ext_at,
                    ;
                }
            }
        }
        return Err(err);
    }
    let kind = if tag == 0 {
        ObjectKind::File
    } else {
        ObjectKind::Directory
    };
    let cnt = cnt as usize;
    proof {
        assert(16 * cnt <= n - ext_at) by (nonlinear_arith)
            requires
                cnt <= (n - ext_at) / 16,
                n >= ext_at,
        ;
    }
    let mut extents: Vec<Extent> = Vec::new();
    let mut k: usize = 0;
    while k < cnt
        invariant
            ext_at + 16 * cnt <= n,
            n == buf.len(),
            k <= cnt,
            extents@.len() == k,
            buf@.subrange(ext_at as int, ext_at + 16 * k) == extents_bytes(extents@),
        decreases cnt - k,
    {
        let at = ext_at + 16 * k;
        let e = Extent { start: get_u64(buf, at), len: get_u64(buf, at + 8) };
        let ghost before = extents@;
        extents.push(e);
        proof {
            lemma_u64_bytes(e.start, buf@, at as int);
            lemma_u64_bytes(e.len, buf@, at + 8);
            assert(extents@.drop_last() =~= before);
            assert(buf@.subrange(ext_at as int, at + 16) =~= buf@.subrange(ext_at as int, at as int)
                + buf@.subrange(at as int, at + 8) + buf@.subrange(at + 8, at + 16));
        }
        k = k + 1;
    }
    let end = ext_at + 16 * cnt;
    let f = ZombieFile { name, len: lenv as usize, kind, extents };
    proof {
        vstd::utf8::decode_utf8_encode_utf8(nbytes);
        lemma_u64_bytes(nl as u64, buf@, pos as int);
        lemma_u64_bytes(lenv, buf@, fields_at as int);
        lemma_u32_bytes(tag, buf@, fields_at + 8);
        lemma_u64_bytes(cnt as u64, buf@, fields_at + 12);
        lemma_extents_len(f.extents@);
        assert(kind_tag(kind) == tag);
        reveal(encoding);
        assert(buf@.subrange(pos as int, end as int) =~= buf@.subrange(pos as int, pos + 8)
            + buf@.subrange(name_at as int, fields_at as int) + buf@.subrange(fields_at as int, fields_at + 8)
            + buf@.subrange(fields_at + 8, fields_at + 12) + buf@.subrange(fields_at + 12, fields_at + 20) + buf@.subrange(
            ext_at as int,
            end as int,
        ));
        assert(buf@.subrange(pos as int, end as int) =~= encoding(f));
    }
    Ok((f, end))
}

proof fn lemma_log_push(s: Seq<ZombieFile>, f: ZombieFile)
    ensures
        log_bytes(s.push(f)) == log_bytes(s) + encoding(f),
    decreases s.len(),
{
    if s.len() == 0 {
        assert(s.push(f).drop_first() =~= Seq::<ZombieFile>::empty());
        assert(s.push(f)[0] == f);
        assert(log_bytes(Seq::<ZombieFile>::empty()) =~= Seq::<u8>::empty());
        assert(log_bytes(s) =~= Seq::<u8>::empty());
        assert(log_bytes(s.push(f)) =~= encoding(f));
    } else {
        assert(s.push(f).drop_first() =~= s.drop_first().push(f));
        assert(s.push(f)[0] == s[0]);
        lemma_log_push(s.drop_first(), f);
        assert(log_bytes(s.push(f)) =~= log_bytes(s) + encoding(f));
    }
}

/// Reads a whole log from the start, record after record, each starting
/// where the previous one's encoding ended. The records are returned with
/// the offset where reading stopped: the end of the log, or the start of the
/// first record that could not be decoded (reported as the error).
pub fn parse_log(buf: &Vec<u8>) -> (r: (Vec<ZombieFile>, Result<(), DecodeError>))
    ensures
        log_bytes(r.0@).len() <= buf.len(),
        holds_at(buf@, 0, log_bytes(r.0@)),
        r.1 is Ok <==> log_bytes(r.0@) == buf@,
        r.1 matches Err(e) ==> e.offset == log_bytes(r.0@).len() && forall|f: ZombieFile|
            !#[trigger] holds_at(buf@, e.offset as int, encoding(f)),
{
    let mut out: Vec<ZombieFile> = Vec::new();
    let mut pos: usize = 0;
    assert(buf@.subrange(0, 0) =~= log_bytes(out@));
    while pos < buf.len()
        invariant
            pos <= buf.len(),
            pos == log_bytes(out@).len(),
            buf@.subrange(0, pos as int) == log_bytes(out@),
        decreases buf.len() - pos,
    {
        match decode_record(buf, pos) {
            Ok((f, end)) => {
                let ghost before = out@;
                out.push(f);
                proof {
                    lemma_log_push(before, f);
                    lemma_sub(buf@, pos as int, encoding(f), 0, encoding(f).len() as int);
                    assert(buf@.subrange(0, end as int) =~= buf@.subrange(0, pos as int)
                        + buf@.subrange(pos as int, end as int));
                }
                pos = end;
            },
            Err(e) => {
                return (out, Err(e));
            },
        }
    }
    assert(buf@.subrange(0, pos as int) =~= buf@);
    (out, Ok(()))
}

/// A log written record by record reads back as the same records, in the
/// same order: any records read from its start are, one by one, the records
/// written there.
pub proof fn lemma_log_round_trip(written: Seq<ZombieFile>, read: Seq<ZombieFile>)
    requires
        holds_at(log_bytes(written), 0, log_bytes(read)),
        log_bytes(written).len() <= usize::MAX,
    ensures
        read.len() <= written.len(),
        forall|i: int| 0 <= i < read.len() ==> same_record(#[trigger] read[i], written[i]),
        log_bytes(read) == log_bytes(written) ==> read.len() == written.len(),
    decreases read.len(),
{
    if read.len() > 0 {
        let b = log_bytes(written);
        let e0 = encoding(read[0]);
        lemma_encoding_len(read[0]);
        assert(holds_at(b, 0, e0)) by {
            assert(log_bytes(read).subrange(0, e0.len() as int) =~= e0);
            lemma_sub(b, 0, log_bytes(read), 0, e0.len() as int);
        }
        if written.len() == 0 {
            assert(false);
        }
        let w0 = encoding(written[0]);
        assert(holds_at(b, 0, w0)) by {
            assert(b.subrange(0, w0.len() as int) =~= w0);
        }
        lemma_encoding_unique(b, 0, read[0], written[0]);
        let rest_w = log_bytes(written.drop_first());
        let rest_r = log_bytes(read.drop_first());
        assert(holds_at(rest_w, 0, rest_r)) by {
            assert forall|i: int| 0 <= i < rest_r.len() implies rest_w[i] == rest_r[i] by {
                assert(b[e0.len() + i] == log_bytes(read)[e0.len() + i]);
                assert(log_bytes(read).subrange(0, log_bytes(read).len() as int)[e0.len() + i]
                    == b[e0.len() + i]);
            }
            assert(rest_w.subrange(0, rest_r.len() as int) =~= rest_r);
        }
        lemma_log_round_trip(written.drop_first(), read.drop_first());
        assert forall|i: int| 0 <= i < read.len() implies same_record(#[trigger] read[i], written[i]) by {
            if i > 0 {
                assert(read.drop_first()[i - 1] == read[i]);
                assert(written.drop_first()[i - 1] == written[i]);
            }
        }
        if log_bytes(read) == log_bytes(written) {
            assert(rest_r =~= rest_w);
        }
    } else {
        if log_bytes(read) == log_bytes(written) && written.len() > 0 {
            lemma_encoding_len(written[0]);
        }
    }
}

} // verus!
