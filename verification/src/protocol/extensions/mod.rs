//! Header extensions: 4-byte aligned type-length-value records.

pub mod standard_types;

use vstd::prelude::*;
use vstd::string::StringExecFns;

use crate::error::{
    append_decimal, decimal_text, fails_with, is_fault, malformed_fault, unsupported_extension_fault,
    Fault, RtdpError,
};
use crate::wire::{be16, be16_bytes, lemma_be16_roundtrip, read_u16_at, write_u16_at};

verus! {

/// The high bit of an extension type marks it critical.
pub const CRITICAL_EXTENSION_BIT: u16 = 0x8000;

/// A value length rounded up to a multiple of four.
pub open spec fn padded_len(n: int) -> int {
    ((n + 3) / 4) * 4
}

/// Bytes a TLV record with a value of `n` bytes occupies on the wire.
pub open spec fn tlv_wire_len(n: int) -> int {
    4 + padded_len(n)
}

/// An extension type with the critical bit set.
pub open spec fn is_critical_type(t: u16) -> bool {
    t & 0x8000u16 != 0
}

/// The extension types this library understands.
pub open spec fn is_known_type(t: u16) -> bool {
    t == 0x0001 || t == 0x0002
}

proof fn lemma_round_up_four(x: usize)
    requires
        x + 3 <= usize::MAX,
    ensures
        (((x + 3) as usize) & !3usize) == padded_len(x as int),
{
    let y = (x + 3) as usize;
    assert(y & !3usize == y - y % 4) by (bit_vector);
}

/// A header extension, borrowing its value bytes.
#[derive(Debug, Clone, Copy, PartialEq, Eq)]
pub struct HeaderExtension<'a> {
    pub ext_type: u16,
    pub is_critical: bool,
    pub value: &'a [u8],
}

impl<'a> HeaderExtension<'a> {
    /// An extension of the given type; critical when the type's high bit is set.
    pub fn new(ext_type: u16, value: &'a [u8]) -> (r: Self)
        ensures
            r.ext_type == ext_type,
            r.is_critical == is_critical_type(ext_type),
            r.value@ == value@,
    {
        let is_critical = (ext_type & CRITICAL_EXTENSION_BIT) != 0;
        Self { ext_type, is_critical, value }
    }

    /// Bytes the record occupies: the 4-byte TLV header and the value padded
    /// to a multiple of four.
    pub fn wire_len(&self) -> (r: usize)
        requires
            self.value@.len() + 7 <= usize::MAX,
        ensures
            r == tlv_wire_len(self.value@.len() as int),
    {
        let val_len = self.value.len();
        proof {
            lemma_round_up_four(val_len);
        }
        let padded_val_len = (val_len + 3) & !3;
        4 + padded_val_len
    }

    /// Writes the record (type, value length, value, zero padding) to the
    /// front of `dst` and returns its length; a `dst` shorter than the record
    /// is `MALFORMED_FRAME` and is left as it was. The length field holds the
    /// value length truncated to 16 bits.
    pub fn encode(&self, dst: &mut [u8]) -> (r: Result<usize, RtdpError>)
        requires
            self.value@.len() + 7 <= usize::MAX,
        ensures
            old(dst)@.len() < tlv_wire_len(self.value@.len() as int) ==> fails_with(
                r,
                malformed_fault("Buffer too short for extension TLV"@),
            ) && final(dst)@ == old(dst)@,
            old(dst)@.len() >= tlv_wire_len(self.value@.len() as int) ==> r == Ok::<
                usize,
                RtdpError,
            >(tlv_wire_len(self.value@.len() as int) as usize) && final(dst)@ == tlv_bytes(
                self.ext_type,
                self.value@,
            ) + old(dst)@.skip(tlv_wire_len(self.value@.len() as int)),
    {
        let wire_len = self.wire_len();
        if dst.len() < wire_len {
            return Err(RtdpError::malformed(String::from_str("Buffer too short for extension TLV")));
        }
        let ghost d0 = dst@;
        let n = self.value.len();
        write_u16_at(dst, 0, self.ext_type);
        write_u16_at(dst, 2, n as u16);
        let mut i: usize = 0;
        while i < n
            invariant
                n == self.value@.len(),
                4 + n <= wire_len == dst@.len() - (d0.len() - wire_len),
                wire_len <= d0.len() == dst@.len(),
                i <= n,
                forall|k: int| 0 <= k < 4 ==> dst@[k] == (be16_bytes(self.ext_type) + be16_bytes(n as u16))[k],
                forall|k: int| 4 <= k < 4 + i ==> dst@[k] == self.value@[k - 4],
                forall|k: int| 4 + i <= k < d0.len() ==> dst@[k] == d0[k],
            decreases n - i,
        {
            dst[4 + i] = self.value[i];
            i = i + 1;
        }
        let mut j: usize = 4 + n;
        while j < wire_len
            invariant
                4 + n <= j <= wire_len <= d0.len() == dst@.len(),
                n == self.value@.len(),
                forall|k: int| 0 <= k < 4 ==> dst@[k] == (be16_bytes(self.ext_type) + be16_bytes(n as u16))[k],
                forall|k: int| 4 <= k < 4 + n ==> dst@[k] == self.value@[k - 4],
                forall|k: int| 4 + n <= k < j ==> dst@[k] == 0,
                forall|k: int| j <= k < d0.len() ==> dst@[k] == d0[k],
            decreases wire_len - j,
        {
            dst[j] = 0;
            j = j + 1;
        }
        assert(dst@ =~= tlv_bytes(self.ext_type, self.value@) + d0.skip(wire_len as int));
        Ok(wire_len)
    }
}

/// The wire bytes of a TLV record.
pub open spec fn tlv_bytes(ext_type: u16, value: Seq<u8>) -> Seq<u8> {
    be16_bytes(ext_type) + be16_bytes(value.len() as u16) + value + Seq::new(
        (padded_len(value.len() as int) - value.len()) as nat,
        |k: int| 0u8,
    )
}

/// A TLV record header found in an extension area: its type, where its
/// value starts, the value's length and the record's total length.
pub ghost struct TlvRecord {
    pub ext_type: u16,
    pub value_start: int,
    pub value_len: int,
    pub total_len: int,
}

/// What the record at offset `off` of `data` is: none when the area is
/// exhausted, `MALFORMED_FRAME` when fewer than 4 bytes remain or the
/// padded record does not fit (naming the bytes it needs and those left).
pub open spec fn tlv_at(data: Seq<u8>, off: int) -> Option<Result<TlvRecord, Fault>> {
    if off >= data.len() {
        None
    } else if data.len() - off < 4 {
        Some(
            Err(
                malformed_fault(
                    "Truncated extension TLV header (less than 4 bytes remaining)"@,
                ),
            ),
        )
    } else {
        let t = be16(data, off);
        let vl = be16(data, off + 2) as int;
        if data.len() - off < tlv_wire_len(vl) {
            Some(
                Err(
                    malformed_fault(
                        "Extension TLV requires "@ + decimal_text(tlv_wire_len(vl) as u64)
                            + " bytes, but only "@ + decimal_text((data.len() - off) as u64)
                            + " remaining"@,
                    ),
                ),
            )
        } else {
            Some(Ok(TlvRecord { ext_type: t, value_start: off + 4, value_len: vl, total_len: tlv_wire_len(vl) }))
        }
    }
}

/// The first error in the extension area from offset `off` on, if any:
/// a malformed record, or a critical record of a type not understood.
pub open spec fn extension_scan(data: Seq<u8>, off: int) -> Option<Fault>
    decreases data.len() - off,
{
    if off < 0 {
        None
    } else {
        match tlv_at(data, off) {
            None => None,
            Some(Err(f)) => Some(f),
            Some(Ok(rec)) => if is_critical_type(rec.ext_type) && !is_known_type(rec.ext_type) {
                Some(unsupported_extension_fault(rec.ext_type))
            } else {
                extension_scan(data, off + rec.total_len)
            },
        }
    }
}

/// Walks the TLV records of an extension area.
pub struct ExtensionIterator<'a> {
    data: &'a [u8],
    offset: usize,
}

impl<'a> ExtensionIterator<'a> {
    /// The extension area being walked.
    pub closed spec fn data(&self) -> Seq<u8> {
        self.data@
    }

    /// Offset of the next record.
    pub closed spec fn offset(&self) -> int {
        self.offset as int
    }

    /// An iterator at the start of `data`.
    pub fn new(data: &'a [u8]) -> (r: Self)
        ensures
            r.data() == data@,
            r.offset() == 0,
    {
        Self { data, offset: 0 }
    }

    /// The next record: none at the end of the area; `MALFORMED_FRAME` for
    /// a truncated record, which leaves the iterator where it was; otherwise
    /// the record, and the iterator moves past its padding.
    pub fn next(&mut self) -> (r: Option<Result<HeaderExtension<'a>, RtdpError>>)
        ensures
            final(self).data() == old(self).data(),
            match tlv_at(old(self).data(), old(self).offset()) {
                None => r is None && final(self).offset() == old(self).offset(),
                Some(Err(f)) => r is Some && r->Some_0 is Err && is_fault(r->Some_0->Err_0, f)
                    && final(self).offset() == old(self).offset(),
                Some(Ok(rec)) => r is Some && r->Some_0 is Ok && {
                    let e = r->Some_0->Ok_0;
                    &&& e.ext_type == rec.ext_type
                    &&& e.is_critical == is_critical_type(rec.ext_type)
                    &&& e.value@ == old(self).data().subrange(
                        rec.value_start,
                        rec.value_start + rec.value_len,
                    )
                    &&& final(self).offset() == old(self).offset() + rec.total_len
                },
            },
    {
        if self.offset >= self.data.len() {
            return None;
        }
        let remaining = &self.data[self.offset..self.data.len()];
        if remaining.len() < 4 {
            return Some(
                Err(
                    RtdpError::malformed(
                        String::from_str(
                            "Truncated extension TLV header (less than 4 bytes remaining)",
                        ),
                    ),
                ),
            );
        }
        let ext_type = read_u16_at(remaining, 0);
        let val_len = read_u16_at(remaining, 2) as usize;
        proof {
            lemma_round_up_four(val_len);
            assert(be16(remaining@, 0) == be16(self.data@, self.offset as int));
            assert(be16(remaining@, 2) == be16(self.data@, self.offset + 2));
        }
        let padded_val_len = (val_len + 3) & !3;
        let total_tlv_len = 4 + padded_val_len;
        if remaining.len() < total_tlv_len {
            let mut detail = String::from_str("Extension TLV requires ");
            append_decimal(&mut detail, total_tlv_len as u64);
            detail.append(" bytes, but only ");
            append_decimal(&mut detail, remaining.len() as u64);
            detail.append(" remaining");
            return Some(Err(RtdpError::malformed(detail)));
        }
        let is_critical = (ext_type & CRITICAL_EXTENSION_BIT) != 0;
        let value = &remaining[4..4 + val_len];
        assert(value@ =~= self.data@.subrange(self.offset + 4, self.offset + 4 + val_len));
        self.offset = self.offset + total_tlv_len;
        Some(Ok(HeaderExtension { ext_type, is_critical, value }))
    }
}

/// Whether this library understands the extension type.
pub fn is_known_extension(ext_type: u16) -> (r: bool)
    ensures
        r == is_known_type(ext_type),
{
    ext_type == standard_types::SOURCE_INGRESS_TS || ext_type == standard_types::CORRELATION_ID
}


/// The records (type and value) met walking the extension area `data` from
/// offset `off`, in order, up to the end of the area or the first
/// malformed record.
pub open spec fn records_from(data: Seq<u8>, off: int) -> Seq<(u16, Seq<u8>)>
    decreases data.len() - off,
{
    if off < 0 {
        Seq::empty()
    } else {
        match tlv_at(data, off) {
            Some(Ok(rec)) => seq![
                (rec.ext_type, data.subrange(rec.value_start, rec.value_start + rec.value_len)),
            ] + records_from(data, off + rec.total_len),
            _ => Seq::empty(),
        }
    }
}

/// The extension area holding the records `recs` (type and value), each
/// encoded as a TLV record, in order.
pub open spec fn tlv_area(recs: Seq<(u16, Seq<u8>)>) -> Seq<u8>
    decreases recs.len(),
{
    if recs.len() == 0 {
        Seq::empty()
    } else {
        tlv_bytes(recs[0].0, recs[0].1) + tlv_area(recs.drop_first())
    }
}

/// What follows a prefix is walked as if the prefix were not there.
proof fn lemma_records_shift(a: Seq<u8>, b: Seq<u8>, off: int)
    requires
        0 <= off,
    ensures
        records_from(a + b, a.len() + off) == records_from(b, off),
    decreases b.len() - off,
{
    let d = a + b;
    let o = a.len() + off;
    if off < b.len() && b.len() - off >= 4 {
        assert(d[o] == b[off] && d[o + 1] == b[off + 1]);
        assert(d[o + 2] == b[off + 2] && d[o + 3] == b[off + 3]);
        assert(be16(d, o) == be16(b, off));
        assert(be16(d, o + 2) == be16(b, off + 2));
        let vl = be16(b, off + 2) as int;
        if b.len() - off >= tlv_wire_len(vl) {
            assert(d.subrange(o + 4, o + 4 + vl) =~= b.subrange(off + 4, off + 4 + vl));
            lemma_records_shift(a, b, off + tlv_wire_len(vl));
        }
    }
}

/// Walking an extension area gives back exactly the records encoded in
/// it, in order, each with its type and value.
pub proof fn lemma_walk_gives_encoded_records(recs: Seq<(u16, Seq<u8>)>)
    requires
        forall|i: int| 0 <= i < recs.len() ==> (#[trigger] recs[i]).1.len() <= u16::MAX,
    ensures
        records_from(tlv_area(recs), 0) == recs,
    decreases recs.len(),
{
    if recs.len() > 0 {
        let (t, v) = recs[0];
        let rest = recs.drop_first();
        assert forall|i: int| 0 <= i < rest.len() implies (#[trigger] rest[i]).1.len() <= u16::MAX by {
            assert(rest[i] == recs[i + 1]);
        }
        lemma_walk_gives_encoded_records(rest);
        let a = tlv_bytes(t, v);
        let b = tlv_area(rest);
        let e = Seq::<u8>::empty();
        lemma_tlv_at_encoded(e, t, v, b);
        assert(e + (a + b) =~= a + b);
        lemma_records_shift(a, b, 0);
        assert(records_from(a + b, 0) =~= seq![(t, v)] + rest);
    }
}


/// Where the `i`-th record of `recs` starts in `tlv_area(recs)`.
pub open spec fn tlv_offset(recs: Seq<(u16, Seq<u8>)>, i: int) -> int {
    tlv_area(recs.take(i)).len() as int
}

/// Walking the area of `recs`, the `i`-th record is met at
/// `tlv_offset(recs, i)` with its type, its value and its padded length,
/// and the walk moves on to where the next record starts.
pub open spec fn walk_meets(recs: Seq<(u16, Seq<u8>)>, i: int) -> bool {
    let off = tlv_offset(recs, i);
    let v = recs[i].1;
    &&& tlv_at(tlv_area(recs), off) == Some(
        Ok::<TlvRecord, Fault>(
            TlvRecord {
                ext_type: recs[i].0,
                value_start: off + 4,
                value_len: v.len() as int,
                total_len: tlv_wire_len(v.len() as int),
            },
        ),
    )
    &&& tlv_area(recs).subrange(off + 4, off + 4 + v.len()) == v
    &&& tlv_offset(recs, i + 1) == off + tlv_wire_len(v.len() as int)
}

/// An area of records is the area of its first `i` records followed by
/// that of the rest.
proof fn lemma_tlv_area_split(recs: Seq<(u16, Seq<u8>)>, i: int)
    requires
        0 <= i <= recs.len(),
    ensures
        tlv_area(recs) == tlv_area(recs.take(i)) + tlv_area(recs.skip(i)),
    decreases i,
{
    if i == 0 {
        assert(recs.take(0) =~= Seq::<(u16, Seq<u8>)>::empty());
        assert(recs.skip(0) =~= recs);
        assert(tlv_area(recs.take(0)) =~= Seq::<u8>::empty());
        assert(tlv_area(recs) =~= Seq::<u8>::empty() + tlv_area(recs));
    } else {
        let tail = recs.drop_first();
        lemma_tlv_area_split(tail, i - 1);
        assert(recs.take(i).drop_first() =~= tail.take(i - 1));
        assert(recs.take(i)[0] == recs[0]);
        assert(recs.skip(i) =~= tail.skip(i - 1));
        let h = tlv_bytes(recs[0].0, recs[0].1);
        assert(tlv_area(recs.take(i)) == h + tlv_area(tail.take(i - 1)));
        assert(tlv_area(recs) =~= tlv_area(recs.take(i)) + tlv_area(recs.skip(i)));
    }
}

/// The record encoded right after a prefix is found there, whole.
proof fn lemma_tlv_at_encoded(a: Seq<u8>, t: u16, v: Seq<u8>, rest: Seq<u8>)
    requires
        v.len() <= u16::MAX,
    ensures
        tlv_at(a + (tlv_bytes(t, v) + rest), a.len() as int) == Some(
            Ok::<TlvRecord, Fault>(
                TlvRecord {
                    ext_type: t,
                    value_start: a.len() as int + 4,
                    value_len: v.len() as int,
                    total_len: tlv_wire_len(v.len() as int),
                },
            ),
        ),
        (a + (tlv_bytes(t, v) + rest)).subrange(a.len() as int + 4, (a.len() + 4 + v.len()) as int) == v,
        tlv_bytes(t, v).len() == tlv_wire_len(v.len() as int),
{
    let e = tlv_bytes(t, v);
    let b = e + rest;
    let d = a + b;
    let o = a.len() as int;
    let n = v.len();
    assert(padded_len(n as int) >= n);
    assert(e.len() == tlv_wire_len(n as int));
    lemma_be16_roundtrip(t);
    lemma_be16_roundtrip(n as u16);
    let bt = be16_bytes(t);
    let bn = be16_bytes(n as u16);
    assert(d[o] == bt[0] && d[o + 1] == bt[1]);
    assert(d[o + 2] == bn[0] && d[o + 3] == bn[1]);
    assert(be16(d, o) == be16(bt, 0));
    assert(be16(d, o + 2) == be16(bn, 0));
    assert(d.subrange(o + 4, o + 4 + n) =~= v) by {
        assert forall|k: int| 0 <= k < n implies d.subrange(o + 4, o + 4 + n)[k] == v[k] by {
            assert(d[o + 4 + k] == b[4 + k]);
            assert(b[4 + k] == e[4 + k]);
        }
    }
}

/// Walking an encoded extension area record by record, as
/// `ExtensionIterator` does (it starts at offset 0 and each `next` follows
/// `tlv_at` at its offset, moving past the record), meets the `i`-th
/// encoded record at `tlv_offset(recs, i)`, with its type, its value and
/// its padded length, and finds nothing once past the last one.
pub proof fn lemma_iterator_walks_encoded_records(recs: Seq<(u16, Seq<u8>)>)
    requires
        forall|i: int| 0 <= i < recs.len() ==> (#[trigger] recs[i]).1.len() <= u16::MAX,
    ensures
        tlv_offset(recs, 0) == 0,
        tlv_at(tlv_area(recs), tlv_offset(recs, recs.len() as int)) is None,
        forall|i: int| 0 <= i < recs.len() ==> #[trigger] walk_meets(recs, i),
{
    let area = tlv_area(recs);
    assert(recs.take(0) =~= Seq::<(u16, Seq<u8>)>::empty());
    assert(recs.take(recs.len() as int) =~= recs);
    assert forall|i: int| 0 <= i < recs.len() implies #[trigger] walk_meets(recs, i) by {
        lemma_tlv_area_split(recs, i);
        let tail = recs.skip(i);
        assert(tail[0] == recs[i]);
        let rest = tlv_area(tail.drop_first());
        assert(tlv_area(tail) == tlv_bytes(recs[i].0, recs[i].1) + rest);
        lemma_tlv_at_encoded(tlv_area(recs.take(i)), recs[i].0, recs[i].1, rest);
        lemma_tlv_area_split(recs.take(i + 1), i);
        assert(recs.take(i + 1).take(i) =~= recs.take(i));
        assert(recs.take(i + 1).skip(i) =~= seq![recs[i]]);
        assert(seq![recs[i]].drop_first() =~= Seq::<(u16, Seq<u8>)>::empty());
        assert(tlv_area(Seq::<(u16, Seq<u8>)>::empty()) =~= Seq::<u8>::empty());
        assert(seq![recs[i]][0] == recs[i]);
        assert(tlv_area(seq![recs[i]]) =~= tlv_bytes(recs[i].0, recs[i].1));
    }
}

} // verus!
