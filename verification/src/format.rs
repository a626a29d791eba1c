use vstd::prelude::*;
use vstd::utf8::encode_utf8;

use vstd::slice::{slice_subrange, slice_to_vec};

use crate::archive::{entry_views, DecodeError, EntryField, EntryView, SaveEntry};
use crate::text::{from_utf8_lossy, lossy_text, trim_nul_end, trim_trailing_nul};

verus! {

/// The next 4-byte boundary strictly after `n`.
pub open spec fn pad_next(n: nat) -> nat {
    (n - n % 4 + 4) as nat
}

/// The least 4-byte boundary at or after `n`.
pub open spec fn pad_up(n: nat) -> nat {
    ((n + 3) - (n + 3) % 4) as nat
}

/// Rounds `x` up to the next multiple of four, always advancing: a value that is
/// already aligned moves to the following boundary.
pub fn pad4_next(x: u32) -> (r: u32)
    requires
        x <= 0xffff_fffb,
    ensures
        r == pad_next(x as nat),
        r % 4 == 0,
        x < r <= x + 4,
{
    assert(x & !3u32 == x - x % 4) by (bit_vector);
    (x & !3) + 4
}

/// Rounds `x` up to a multiple of four, leaving an aligned value unchanged.
pub fn pad4_up(x: u32) -> (r: u32)
    requires
        x <= 0xffff_fffc,
    ensures
        r == pad_up(x as nat),
        r % 4 == 0,
        x <= r < x + 4,
{
    assert((x + 3) as u32 & !3u32 == (x + 3) - (x + 3) % 4) by (bit_vector)
        requires x <= 0xffff_fffc;
    (x + 3) & !3
}

} // verus!

verus! {

/// `n` zero bytes.
pub open spec fn zeros(n: nat) -> Seq<u8> {
    Seq::new(n, |_i: int| 0u8)
}

/// The four little-endian bytes of `n` taken modulo 2^32, as a `u32` field holds it.
/// Opaque to keep proofs light: `reveal(le32)` shows the bytes.
#[verifier::opaque]
pub open spec fn le32(n: nat) -> Seq<u8> {
    let x = n % 0x1_0000_0000;
    seq![
        (x % 256) as u8,
        (x / 256 % 256) as u8,
        (x / 0x1_0000 % 256) as u8,
        (x / 0x100_0000 % 256) as u8,
    ]
}

/// The value of four little-endian bytes.
pub open spec fn le_value(b: Seq<u8>) -> nat {
    (b[0] + 256 * b[1] + 0x1_0000 * b[2] + 0x100_0000 * b[3]) as nat
}

/// The value of the four little-endian bytes at `pos` of `p`.
pub open spec fn u32_at(p: Seq<u8>, pos: int) -> nat {
    le_value(p.subrange(pos, pos + 4))
}

/// Reading a `u32` field gives back the value written, modulo 2^32.
pub proof fn lemma_le32_value(n: nat)
    ensures
        le32(n).len() == 4,
        le_value(le32(n)) == n % 0x1_0000_0000,
        le32(n) == le32(n % 0x1_0000_0000),
{
    reveal(le32);
    let x = (n % 0x1_0000_0000) as u32;
    assert(x == (x % 256) + 256 * (x / 256 % 256) + 0x1_0000 * (x / 0x1_0000 % 256) + 0x100_0000 * (
    x / 0x100_0000 % 256)) by (bit_vector);
}

/// One entry record: name length, name padded to the next boundary, data length,
/// data padded up to a boundary. Padding bytes are zero.
pub open spec fn entry_record(name: Seq<u8>, data: Seq<u8>) -> Seq<u8> {
    le32(name.len()) + name + zeros((pad_next(name.len()) - name.len()) as nat) + le32(data.len())
        + data + zeros((pad_up(data.len()) - data.len()) as nat)
}

/// The records of `es`, one after the other; a name is stored as its UTF-8 bytes.
pub open spec fn entry_records(es: Seq<EntryView>) -> Seq<u8>
    decreases es.len(),
{
    if es.len() == 0 {
        seq![]
    } else {
        entry_records(es.drop_last()) + entry_record(encode_utf8(es.last().0), es.last().1)
    }
}

/// The uncompressed payload for `es`: the entry count, then the records.
pub open spec fn payload_bytes(es: Seq<EntryView>) -> Seq<u8> {
    le32(es.len()) + entry_records(es)
}

/// Every name and data length of `es` has room for its padding in a `u32`.
pub open spec fn entries_fit(es: Seq<EntryView>) -> bool {
    forall|i: int|
        0 <= i < es.len() ==> {
            &&& #[trigger] encode_utf8(es[i].0).len() <= 0xffff_fffb
            &&& es[i].1.len() <= 0xffff_fffc
        }
}

/// Whether every name and data length of `entries` leaves room for its padding
/// in 32 bits, as the layout of an archive asks.
pub fn fits_format(entries: &[SaveEntry]) -> (r: bool)
    ensures
        r == entries_fit(entry_views(entries@)),
{
    let ghost es = entry_views(entries@);
    let mut i: usize = 0;
    while i < entries.len()
        invariant
            es == entry_views(entries@),
            i <= es.len(),
            forall|j: int|
                0 <= j < i ==> {
                    &&& #[trigger] encode_utf8(es[j].0).len() <= 0xffff_fffb
                    &&& es[j].1.len() <= 0xffff_fffc
                },
        decreases es.len() - i,
    {
        assert(es[i as int] == entries[i as int]@);
        let name = entries[i].name.as_str();
        let name_len = name.as_bytes().len();
        assert(name_len == encode_utf8(es[i as int].0).len());
        if name_len > 0xffff_fffb || entries[i].data.len() > 0xffff_fffc {
            return false;
        }
        assert(encode_utf8(es[i as int].0).len() <= 0xffff_fffb && es[i as int].1.len() <= 0xffff_fffc);
        assert forall|j: int| 0 <= j < i + 1 implies {
            &&& #[trigger] encode_utf8(es[j].0).len() <= 0xffff_fffb
            &&& es[j].1.len() <= 0xffff_fffc
        } by {}
        i = i + 1;
    }
    true
}

/// Appends the bytes of `b` to `v`.
fn append_bytes(v: &mut Vec<u8>, b: &[u8])
    ensures
        final(v)@ == old(v)@ + b@,
{
    let ghost start = v@;
    let mut i: usize = 0;
    while i < b.len()
        invariant
            i <= b@.len(),
            v@ == start + b@.take(i as int),
        decreases b@.len() - i,
    {
        v.push(b[i]);
        assert(b@.take(i + 1) == b@.take(i as int).push(b@[i as int]));
        i = i + 1;
    }
    assert(b@.take(b@.len() as int) == b@);
}

/// Appends `n` zero bytes to `v`.
fn append_zeros(v: &mut Vec<u8>, n: usize)
    ensures
        final(v)@ == old(v)@ + zeros(n as nat),
{
    let ghost start = v@;
    let mut i: usize = 0;
    while i < n
        invariant
            i <= n,
            v@ == start + zeros(i as nat),
        decreases n - i,
    {
        v.push(0u8);
        assert(zeros((i + 1) as nat) == zeros(i as nat).push(0u8));
        i = i + 1;
    }
}

/// Appends the four little-endian bytes of `x` to `v`.
pub(crate) fn append_u32(v: &mut Vec<u8>, x: u32)
    ensures
        final(v)@ == old(v)@ + le32(x as nat),
{
    let ghost start = v@;
    v.push((x % 256) as u8);
    v.push((x / 256 % 256) as u8);
    v.push((x / 0x1_0000 % 256) as u8);
    v.push((x / 0x100_0000 % 256) as u8);
    reveal(le32);
    assert(v@ =~= start + le32(x as nat));
}

/// Lays out the uncompressed payload of an archive holding `entries`.
pub fn build_payload(entries: &[SaveEntry]) -> (out: Vec<u8>)
    requires
        entries_fit(entry_views(entries@)),
    ensures
        out@ == payload_bytes(entry_views(entries@)),
{
    let ghost es = entry_views(entries@);
    let mut out: Vec<u8> = Vec::new();
    append_u32(&mut out, (entries.len() as u64 % 0x1_0000_0000) as u32);
    proof {
        lemma_le32_value(es.len());
    }
    assert(out@ == le32(es.len()));
    let mut i: usize = 0;
    while i < entries.len()
        invariant
            es == entry_views(entries@),
            entries_fit(es),
            i <= entries@.len(),
            out@ == le32(es.len()) + entry_records(es.take(i as int)),
        decreases entries@.len() - i,
    {
        let entry = &entries[i];
        let name = entry.name.as_str().as_bytes();
        assert(es[i as int] == entry@);
        assert(encode_utf8(es[i as int].0).len() <= 0xffff_fffb);
        let name_len = name.len() as u32;
        let name_padded = pad4_next(name_len);
        append_u32(&mut out, name_len);
        append_bytes(&mut out, name);
        append_zeros(&mut out, (name_padded - name_len) as usize);
        let data_len = entry.data.len() as u32;
        let data_padded = pad4_up(data_len);
        append_u32(&mut out, data_len);
        append_bytes(&mut out, entry.data.as_slice());
        append_zeros(&mut out, (data_padded - data_len) as usize);
        proof {
            let t = es.take(i + 1);
            assert(t.drop_last() == es.take(i as int));
            assert(t.last() == entry@);
            assert(out@ == le32(es.len()) + entry_records(es.take(i as int)) + entry_record(
                encode_utf8(entry@.0),
                entry@.1,
            ));
        }
        i = i + 1;
    }
    assert(es.take(es.len() as int) == es);
    out
}

} // verus!

verus! {

/// Reads the entry record that starts at `pos` of payload `p`: the entry and the
/// position after its padded data, or the field in which `p` ends too early.
/// The stored name is read as lossy UTF-8 with its trailing NULs removed.
pub open spec fn parse_record(p: Seq<u8>, pos: int) -> Result<(EntryView, int), EntryField> {
    if pos + 4 > p.len() {
        Err(EntryField::NameLength)
    } else {
        let name_len = u32_at(p, pos);
        let name_pos = pos + 4;
        if name_pos + pad_next(name_len) > p.len() {
            Err(EntryField::Name)
        } else {
            let name = trim_trailing_nul(lossy_text(p.subrange(name_pos, name_pos + name_len)));
            let len_pos = name_pos + pad_next(name_len);
            if len_pos + 4 > p.len() {
                Err(EntryField::DataLength)
            } else {
                let data_len = u32_at(p, len_pos);
                let data_pos = len_pos + 4;
                if data_pos + pad_up(data_len) > p.len() {
                    Err(EntryField::Data)
                } else {
                    Ok(
                        (
                            (name, p.subrange(data_pos, data_pos + data_len)),
                            data_pos + pad_up(data_len),
                        ),
                    )
                }
            }
        }
    }
}

/// Reads `count` records one after the other from position 4 of `p`: the entries
/// and the position after the last, or the error for the first record that does
/// not fit.
pub open spec fn parse_records(p: Seq<u8>, count: nat) -> Result<(Seq<EntryView>, int), DecodeError>
    decreases count,
{
    if count == 0 {
        Ok((seq![], 4))
    } else {
        match parse_records(p, (count - 1) as nat) {
            Ok((es, pos)) => match parse_record(p, pos) {
                Ok((e, next)) => Ok((es.push(e), next)),
                Err(field) => Err(DecodeError::Truncated { entry: (count - 1) as usize, field }),
            },
            Err(e) => Err(e),
        }
    }
}

/// The entries listed in an uncompressed payload, or why they cannot be read.
/// Bytes after the last record are ignored.
pub open spec fn parse_payload_spec(p: Seq<u8>) -> Result<Seq<EntryView>, DecodeError> {
    if p.len() < 4 {
        Err(DecodeError::PayloadTooSmall)
    } else {
        match parse_records(p, u32_at(p, 0)) {
            Ok((es, _)) => Ok(es),
            Err(e) => Err(e),
        }
    }
}

proof fn lemma_parse_records_err_stays(p: Seq<u8>, k: nat, n: nat)
    requires
        k <= n,
        parse_records(p, k) is Err,
    ensures
        parse_records(p, n) == parse_records(p, k),
    decreases n,
{
    if n > k {
        lemma_parse_records_err_stays(p, k, (n - 1) as nat);
    }
}

proof fn lemma_parse_records_pos(p: Seq<u8>, k: nat)
    ensures
        parse_records(p, k) matches Ok((_, pos)) ==> 4 <= pos,
        parse_records(p, k) matches Ok((es, _)) ==> es.len() == k,
    decreases k,
{
    if k > 0 {
        lemma_parse_records_pos(p, (k - 1) as nat);
    }
}

/// Reads four little-endian bytes at `pos` of `p`.
fn read_u32(p: &[u8], pos: usize) -> (x: u32)
    requires
        pos + 4 <= p@.len(),
    ensures
        x == u32_at(p@, pos as int),
{
    let b0 = p[pos] as u32;
    let b1 = p[pos + 1] as u32;
    let b2 = p[pos + 2] as u32;
    let b3 = p[pos + 3] as u32;
    b0 + 256 * b1 + 0x1_0000 * b2 + 0x100_0000 * b3
}

/// Reads the entry record at `pos` of payload `p`.
fn read_record(p: &[u8], pos: usize) -> (res: Result<(SaveEntry, usize), EntryField>)
    requires
        pos <= p@.len(),
    ensures
        match parse_record(p@, pos as int) {
            Ok((e, next)) => res matches Ok((entry, n)) && entry@ == e && n == next,
            Err(field) => res matches Err(f) && f == field,
        },
{
    let len = p.len();
    if len - pos < 4 {
        return Err(EntryField::NameLength);
    }
    let name_len = read_u32(p, pos);
    let name_pos = pos + 4;
    let name_padded: u64 = (name_len as u64) - (name_len as u64) % 4 + 4;
    if name_padded > (len - name_pos) as u64 {
        return Err(EntryField::Name);
    }
    let name_end = name_pos + name_len as usize;
    let text = from_utf8_lossy(slice_subrange(p, name_pos, name_end));
    let name = trim_nul_end(text.as_str());
    let len_pos = name_pos + name_padded as usize;
    if len - len_pos < 4 {
        return Err(EntryField::DataLength);
    }
    let data_len = read_u32(p, len_pos);
    let data_pos = len_pos + 4;
    let data_padded: u64 = (data_len as u64 + 3) - (data_len as u64 + 3) % 4;
    if data_padded > (len - data_pos) as u64 {
        return Err(EntryField::Data);
    }
    let data = slice_to_vec(slice_subrange(p, data_pos, data_pos + data_len as usize));
    Ok((SaveEntry { name, data }, data_pos + data_padded as usize))
}

/// Reads the entries listed in an uncompressed payload: a little-endian entry
/// count, then one record per entry. Succeeds exactly when every counted record
/// fits in `payload`, and otherwise names the first record that does not.
pub fn parse_payload(payload: &[u8]) -> (res: Result<Vec<SaveEntry>, DecodeError>)
    ensures
        match parse_payload_spec(payload@) {
            Ok(es) => res matches Ok(v) && entry_views(v@) == es,
            Err(e) => res matches Err(r) && r == e,
        },
{
    if payload.len() < 4 {
        return Err(DecodeError::PayloadTooSmall);
    }
    let count = read_u32(payload, 0);
    let mut entries: Vec<SaveEntry> = Vec::new();
    let mut pos: usize = 4;
    let mut i: u32 = 0;
    assert(entry_views(entries@) =~= seq![]);
    while i < count
        invariant
            count == u32_at(payload@, 0),
            payload@.len() >= 4,
            i <= count,
            4 <= pos <= payload@.len(),
            parse_records(payload@, i as nat) == Ok::<(Seq<EntryView>, int), DecodeError>(
                (entry_views(entries@), pos as int),
            ),
        decreases count - i,
    {
        match read_record(payload, pos) {
            Ok((entry, next)) => {
                proof {
                    assert(entry_views(entries@.push(entry)) == entry_views(entries@).push(entry@));
                }
                entries.push(entry);
                pos = next;
                i = i + 1;
            },
            Err(field) => {
                proof {
                    lemma_parse_records_err_stays(payload@, (i + 1) as nat, count as nat);
                }
                return Err(DecodeError::Truncated { entry: i as usize, field });
            },
        }
    }
    Ok(entries)
}

} // verus!
