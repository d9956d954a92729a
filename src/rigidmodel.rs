//! RigidModel 3D models: the versioned header and the level-of-detail
//! headers, with the rest of the file carried as it is, and the patch that
//! turns a version 6 model into a version 7 one.

use vstd::prelude::*;
use vstd::utf8::{decode_utf8_encode_utf8, encode_utf8, encode_utf8_decode_utf8, encode_utf8_valid_utf8};
use crate::bytes::{
    copy_range, lemma_u32_round_trip, push_bytes, push_u32, read_u32, u32_le, utf8_bytes, utf8_string,
};
use crate::codec::{avoids, lemma_encode_avoids};
use crate::model::PackError;

verus! {

/// Width of the zero-padded skeleton name.
pub const SKELETON_SIZE: usize = 120;
/// Bytes before the first level-of-detail header.
pub const RIGID_HEADER_SIZE: usize = 132;

/// The header of one level of detail. The zoom factor is kept as the bits
/// of its 32-bit float; the last two fields exist from version 7 on.
#[derive(Clone, Copy, Debug, PartialEq, Eq, Structural)]
pub struct LodHeader {
    pub groups_count: u32,
    pub vertices_data_length: u32,
    pub indices_data_length: u32,
    pub start_offset: u32,
    pub zoom_factor: u32,
    pub mysterious_data_1: Option<u32>,
    pub mysterious_data_2: Option<u32>,
}

/// A model: version, level-of-detail count, skeleton name, the
/// level-of-detail headers and the bytes that follow them.
pub struct RigidModel {
    pub version: u32,
    pub lods_count: u32,
    pub base_skeleton: String,
    pub lods: Vec<LodHeader>,
    pub data: Vec<u8>,
}

pub struct RigidModelView {
    pub version: u32,
    pub lods_count: u32,
    pub base_skeleton: Seq<char>,
    pub lods: Seq<LodHeader>,
    pub data: Seq<u8>,
}

impl View for RigidModel {
    type V = RigidModelView;

    open spec fn view(&self) -> RigidModelView {
        RigidModelView {
            version: self.version,
            lods_count: self.lods_count,
            base_skeleton: self.base_skeleton@,
            lods: self.lods@,
            data: self.data@,
        }
    }
}

/// `RMV2`
pub open spec fn signature() -> Seq<u8> {
    seq![82u8, 77, 86, 50]
}

pub open spec fn opt_u32(o: Option<u32>) -> u32 {
    match o {
        Some(x) => x,
        None => 0,
    }
}

/// A level-of-detail header as bytes; from version 7 on with the two extra
/// fields.
pub open spec fn lod_bytes(l: LodHeader, v7: bool) -> Seq<u8> {
    u32_le(l.groups_count) + u32_le(l.vertices_data_length) + u32_le(l.indices_data_length)
        + u32_le(l.start_offset) + u32_le(l.zoom_factor)
        + if v7 { u32_le(opt_u32(l.mysterious_data_1)) + u32_le(opt_u32(l.mysterious_data_2)) } else { Seq::empty() }
}

pub open spec fn lods_bytes(ls: Seq<LodHeader>, v7: bool) -> Seq<u8>
    decreases ls.len(),
{
    if ls.len() == 0 {
        Seq::empty()
    } else {
        lods_bytes(ls.drop_last(), v7) + lod_bytes(ls.last(), v7)
    }
}

/// A string in `n` bytes: its UTF-8 bytes, then NUL bytes.
pub open spec fn padded(s: Seq<char>, n: nat) -> Seq<u8> {
    encode_utf8(s) + Seq::new((n - encode_utf8(s).len()) as nat, |i: int| 0u8)
}

/// The model as bytes.
pub open spec fn rigid_encode(m: RigidModelView) -> Seq<u8> {
    signature() + u32_le(m.version) + u32_le(m.lods_count) + padded(m.base_skeleton, 120)
        + lods_bytes(m.lods, m.version == 7) + m.data
}

/// The skeleton name fits its field.
pub open spec fn rigid_encodable(m: RigidModelView) -> bool {
    encode_utf8(m.base_skeleton).len() <= 120
}

/// Reads the zero-padded UTF-8 string in `data[from..from + n]`: the bytes
/// up to the first NUL, all bytes after it NUL. It succeeds on the padded
/// bytes of every string without a NUL that fits.
fn read_padded(data: &[u8], from: usize, n: usize) -> (r: Result<String, PackError>)
    requires
        from + n <= data@.len(),
    ensures
        r matches Ok(s) ==> encode_utf8(s@).len() <= n && padded(s@, n as nat) == data@.subrange(from as int, from + n),
        r is Err ==> r == Err::<String, PackError>(PackError::BadEncoding),
        r is Ok ==> forall|i: int, j: int| from <= i < j < from + n && data@[i] == 0 ==> data@[j] == 0,
        forall|e: Seq<char>| avoids(e, '\0') && encode_utf8(e).len() <= n && #[trigger] padded(e, n as nat) == data@.subrange(from as int, from + n)
            ==> r is Ok,
{
    let mut end: usize = from;
    while end < from + n && data[end] != 0
        invariant
            from <= end <= from + n,
            from + n <= data.len(),
            forall|t: int| from <= t < end ==> data@[t] != 0,
        decreases from + n - end,
    {
        end += 1;
    }
    proof {
        assert forall|e: Seq<char>| avoids(e, '\0') && encode_utf8(e).len() <= n && #[trigger] padded(e, n as nat) == data@.subrange(from as int, from + n)
            implies encode_utf8(e).len() == end - from by {
            lemma_encode_avoids(e, '\0');
            let l = encode_utf8(e).len() as int;
            if l < end - from {
                assert(data@[from + l] == padded(e, n as nat)[l]);
            } else if l > end - from {
                assert(data@[end as int] == padded(e, n as nat)[end - from]);
            }
        }
    }
    let mut j: usize = end;
    while j < from + n
        invariant
            from <= end <= j <= from + n,
            from + n <= data.len(),
            forall|t: int| end <= t < j ==> data@[t] == 0,
            forall|e: Seq<char>| avoids(e, '\0') && encode_utf8(e).len() <= n && #[trigger] padded(e, n as nat) == data@.subrange(from as int, from + n)
                ==> encode_utf8(e).len() == end - from,
        decreases from + n - j,
    {
        if data[j] != 0 {
            proof {
                assert forall|e: Seq<char>| avoids(e, '\0') && encode_utf8(e).len() <= n && #[trigger] padded(e, n as nat) == data@.subrange(from as int, from + n)
                    implies false by {
                    assert(data@[j as int] == padded(e, n as nat)[j - from]);
                }
            }
            return Err(PackError::BadEncoding);
        }
        j += 1;
    }
    let bytes = copy_range(data, from, end);
    match utf8_string(bytes.as_slice()) {
        Some(s) => {
            proof {
                decode_utf8_encode_utf8(bytes@);
                assert(padded(s@, n as nat) =~= data@.subrange(from as int, from + n));
            }
            Ok(s)
        },
        None => {
            proof {
                assert forall|e: Seq<char>| avoids(e, '\0') && encode_utf8(e).len() <= n && #[trigger] padded(e, n as nat) == data@.subrange(from as int, from + n)
                    implies false by {
                    assert(bytes@ =~= encode_utf8(e));
                    encode_utf8_valid_utf8(e);
                }
            }
            Err(PackError::BadEncoding)
        },
    }
}

fn read_lod(data: &[u8], at: usize, v7: bool) -> (r: Result<(LodHeader, usize), PackError>)
    requires
        at <= data@.len(),
    ensures
        r matches Ok((l, next)) ==> at < next <= data@.len() && data@.subrange(at as int, next as int) == lod_bytes(l, v7)
            && (v7 ==> l.mysterious_data_1 is Some && l.mysterious_data_2 is Some)
            && (!v7 ==> l.mysterious_data_1 is None && l.mysterious_data_2 is None)
            && next == at + if v7 { 28int } else { 20int },
        data@.len() - at >= (if v7 { 28int } else { 20int }) ==> r is Ok,
        data@.len() - at < (if v7 { 28int } else { 20int }) ==> r == Err::<(LodHeader, usize), PackError>(PackError::BadFormat),
{
    let size: usize = if v7 { 28 } else { 20 };
    if data.len() - at < size {
        return Err(PackError::BadFormat);
    }
    let l = LodHeader {
        groups_count: read_u32(data, at),
        vertices_data_length: read_u32(data, at + 4),
        indices_data_length: read_u32(data, at + 8),
        start_offset: read_u32(data, at + 12),
        zoom_factor: read_u32(data, at + 16),
        mysterious_data_1: if v7 { Some(read_u32(data, at + 20)) } else { None },
        mysterious_data_2: if v7 { Some(read_u32(data, at + 24)) } else { None },
    };
    proof {
        lemma_u32_round_trip(data@, at as int);
        lemma_u32_round_trip(data@, at + 4);
        lemma_u32_round_trip(data@, at + 8);
        lemma_u32_round_trip(data@, at + 12);
        lemma_u32_round_trip(data@, at + 16);
        if v7 {
            lemma_u32_round_trip(data@, at + 20);
            lemma_u32_round_trip(data@, at + 24);
        }
        assert(data@.subrange(at as int, at + size) =~= lod_bytes(l, v7));
    }
    Ok((l, at + size))
}

fn push_lod(out: &mut Vec<u8>, l: &LodHeader, v7: bool)
    ensures
        final(out)@ == old(out)@ + lod_bytes(*l, v7),
{
    push_u32(out, l.groups_count);
    push_u32(out, l.vertices_data_length);
    push_u32(out, l.indices_data_length);
    push_u32(out, l.start_offset);
    push_u32(out, l.zoom_factor);
    if v7 {
        push_u32(out, match l.mysterious_data_1 { Some(x) => x, None => 0 });
        push_u32(out, match l.mysterious_data_2 { Some(x) => x, None => 0 });
    }
    assert(out@ =~= old(out)@ + lod_bytes(*l, v7));
}

/// A model that decodes from its encoding: version 6 or 7, as many
/// level-of-detail headers as it counts, and a skeleton name without a NUL
/// that fits its field.
pub open spec fn rigid_decodable(m: RigidModelView) -> bool {
    &&& m.version == 6 || m.version == 7
    &&& m.lods.len() == m.lods_count
    &&& rigid_encodable(m)
    &&& avoids(m.base_skeleton, '\0')
}

proof fn lemma_lods_len(ls: Seq<LodHeader>, v7: bool)
    ensures
        lods_bytes(ls, v7).len() == ls.len() * (if v7 { 28int } else { 20int }),
    decreases ls.len(),
{
    if ls.len() > 0 {
        lemma_lods_len(ls.drop_last(), v7);
        let k: int = if v7 { 28int } else { 20int };
        assert((ls.len() - 1) * k + k == ls.len() * k) by (nonlinear_arith);
    }
}

proof fn lemma_rigid_layout(d: Seq<u8>, m: RigidModelView)
    requires
        rigid_decodable(m),
        rigid_encode(m) == d,
    ensures
        d.len() >= 132 + m.lods_count * (if m.version == 7 { 28int } else { 20int }),
        d.subrange(0, 4) == signature(),
        crate::bytes::u32_at(d, 4) == m.version,
        crate::bytes::u32_at(d, 8) == m.lods_count,
        d.subrange(12, 132) == padded(m.base_skeleton, 120),
{
    let head = signature() + u32_le(m.version) + u32_le(m.lods_count);
    let pad = padded(m.base_skeleton, 120);
    assert(pad.len() == 120);
    lemma_lods_len(m.lods, m.version == 7);
    assert(d.subrange(0, 4) =~= signature());
    assert(d.subrange(4, 8) =~= u32_le(m.version));
    assert(d.subrange(8, 12) =~= u32_le(m.lods_count));
    assert(d.subrange(12, 132) =~= pad);
    crate::bytes::lemma_u32_le_at(m.version);
    crate::bytes::lemma_u32_le_at(m.lods_count);
    assert(crate::bytes::u32_at(d, 4) == crate::bytes::u32_at(d.subrange(4, 8), 0));
    assert(crate::bytes::u32_at(d, 8) == crate::bytes::u32_at(d.subrange(8, 12), 0));
}

impl RigidModel {
    /// Decodes a model. Fails with `BadFormat` on a wrong signature or a
    /// truncated header, with `Unsupported` on a version other than 6 or 7,
    /// with `BadEncoding` on a skeleton name that is not zero-padded UTF-8,
    /// and with `BadFormat` when the level-of-detail headers run past the
    /// end. What it decodes encodes back to exactly `data`, and it succeeds
    /// on the encoding of every model that `rigid_decodable` admits.
    pub fn read(data: &[u8]) -> (r: Result<RigidModel, PackError>)
        ensures
            r matches Ok(m) ==> (m.version == 6 || m.version == 7) && m.lods@.len() == m.lods_count
                && rigid_encodable(m@) && rigid_encode(m@) == data@,
            data@.len() >= 8 && data@.subrange(0, 4) == signature() && (crate::bytes::u32_at(data@, 4) != 6 && crate::bytes::u32_at(data@, 4) != 7)
                ==> r == Err::<RigidModel, PackError>(PackError::Unsupported),
            forall|m: RigidModelView| rigid_decodable(m) && #[trigger] rigid_encode(m) == data@ ==> r is Ok,
            r matches Err(e) ==> e == PackError::BadFormat || e == PackError::Unsupported || e == PackError::BadEncoding,
            data@.len() >= 8 && data@.subrange(0, 4) == signature() && (crate::bytes::u32_at(data@, 4) == 6 || crate::bytes::u32_at(data@, 4) == 7)
                && (data@.len() < 132 || data@.len() < 132 + crate::bytes::u32_at(data@, 8) * (if crate::bytes::u32_at(data@, 4) == 7 { 28int } else { 20int }))
                ==> r is Err && r != Err::<RigidModel, PackError>(PackError::Unsupported),
            data@.len() >= 132 && data@.subrange(0, 4) == signature()
                && (crate::bytes::u32_at(data@, 4) == 6 || crate::bytes::u32_at(data@, 4) == 7)
                && (exists|i: int, j: int| 12 <= i < j < 132 && data@[i] == 0 && data@[j] != 0)
                ==> r == Err::<RigidModel, PackError>(PackError::BadEncoding),
            forall|s: Seq<char>| avoids(s, '\0') && encode_utf8(s).len() <= 120 && data@.len() >= 132
                && #[trigger] padded(s, 120) == data@.subrange(12, 132) && data@.subrange(0, 4) == signature()
                && (crate::bytes::u32_at(data@, 4) == 6 || crate::bytes::u32_at(data@, 4) == 7)
                && data@.len() < 132 + crate::bytes::u32_at(data@, 8) * (if crate::bytes::u32_at(data@, 4) == 7 { 28int } else { 20int })
                ==> r == Err::<RigidModel, PackError>(PackError::BadFormat),
    {
        let ghost has = exists|m: RigidModelView| rigid_decodable(m) && #[trigger] rigid_encode(m) == data@;
        let ghost tm = if has { choose|m: RigidModelView| rigid_decodable(m) && #[trigger] rigid_encode(m) == data@ } else { arbitrary() };
        proof {
            if has {
                lemma_rigid_layout(data@, tm);
                assert(data@[0] == signature()[0] && data@[1] == signature()[1] && data@[2] == signature()[2] && data@[3] == signature()[3]) by {
                    assert(data@.subrange(0, 4)[0] == data@[0]);
                    assert(data@.subrange(0, 4)[1] == data@[1]);
                    assert(data@.subrange(0, 4)[2] == data@[2]);
                    assert(data@.subrange(0, 4)[3] == data@[3]);
                }
            }
        }
        if data.len() < 8 || data[0] != 82u8 || data[1] != 77u8 || data[2] != 86u8 || data[3] != 50u8 {
            return Err(PackError::BadFormat);
        }
        let version = read_u32(data, 4);
        if version != 6 && version != 7 {
            return Err(PackError::Unsupported);
        }
        if data.len() < RIGID_HEADER_SIZE {
            return Err(PackError::BadFormat);
        }
        let lods_count = read_u32(data, 8);
        assert(has ==> padded(tm.base_skeleton, 120) == data@.subrange(12, 132));
        let base_skeleton = read_padded(data, 12, SKELETON_SIZE)?;
        let v7 = version == 7;
        let size: usize = if v7 { 28 } else { 20 };
        let mut lods: Vec<LodHeader> = Vec::new();
        let mut at: usize = RIGID_HEADER_SIZE;
        let mut i: u32 = 0;
        assert(data@.subrange(132, 132) =~= lods_bytes(lods@, v7));
        while i < lods_count
            invariant
                132 <= at <= data@.len(),
                version == crate::bytes::u32_at(data@, 4),
                version == 6 || version == 7,
                v7 == (version == 7),
                size == if v7 { 28usize } else { 20usize },
                has == (exists|m: RigidModelView| rigid_decodable(m) && #[trigger] rigid_encode(m) == data@),
                has ==> tm.lods_count == lods_count && tm.version == version,
                has ==> at + (lods_count - i) * size <= data@.len(),
                at == 132 + i * size,
                forall|a: int, b: int| 12 <= a < b < 132 && data@[a] == 0 ==> data@[b] == 0,
                lods@.len() == i,
                i <= lods_count,
                data@.subrange(132, at as int) == lods_bytes(lods@, v7),
            decreases lods_count - i,
        {
            proof {
                if has {
                    assert((lods_count - i) * size == (lods_count - i - 1) * size + size) by (nonlinear_arith);
                    assert((lods_count - i - 1) * size >= 0) by (nonlinear_arith)
                        requires i < lods_count;
                }
            }
            let (l, next) = read_lod(data, at, v7)?;
            let ghost before = lods@;
            lods.push(l);
            proof {
                assert(lods@.drop_last() =~= before);
                assert(data@.subrange(132, next as int) =~= data@.subrange(132, at as int) + data@.subrange(at as int, next as int));
            }
            proof {
                assert((i + 1) * size == i * size + size) by (nonlinear_arith);
            }
            at = next;
            i += 1;
        }
        let rest = copy_range(data, at, data.len());
        let m = RigidModel { version, lods_count, base_skeleton, lods, data: rest };
        proof {
            lemma_u32_round_trip(data@, 4);
            lemma_u32_round_trip(data@, 8);
            assert(data@.subrange(0, 4) =~= signature());
            assert(data@ =~= data@.subrange(0, 4) + data@.subrange(4, 8) + data@.subrange(8, 12) + data@.subrange(12, 132)
                + data@.subrange(132, at as int) + data@.subrange(at as int, data@.len() as int));
        }
        Ok(m)
    }

    /// The model as bytes; fails with `BadLength` when the skeleton name is
    /// longer than its 120-byte field.
    pub fn save(&self) -> (r: Result<Vec<u8>, PackError>)
        ensures
            r is Ok <==> rigid_encodable(self@),
            r matches Ok(b) ==> b@ == rigid_encode(self@),
            r is Err ==> r == Err::<Vec<u8>, PackError>(PackError::BadLength),
    {
        let name = utf8_bytes(&self.base_skeleton);
        if name.len() > SKELETON_SIZE {
            return Err(PackError::BadLength);
        }
        let mut out: Vec<u8> = Vec::new();
        out.push(82u8);
        out.push(77u8);
        out.push(86u8);
        out.push(50u8);
        push_u32(&mut out, self.version);
        push_u32(&mut out, self.lods_count);
        push_bytes(&mut out, name);
        let ghost before_pad = out@;
        let mut k: usize = name.len();
        while k < SKELETON_SIZE
            invariant
                name.len() <= k <= SKELETON_SIZE,
                out@ == before_pad + Seq::new((k - name.len()) as nat, |i: int| 0u8),
            decreases SKELETON_SIZE - k,
        {
            out.push(0u8);
            k += 1;
            assert(out@ =~= before_pad + Seq::new((k - name.len()) as nat, |i: int| 0u8));
        }
        let v7 = self.version == 7;
        let ghost head = out@;
        let mut i: usize = 0;
        assert(self.lods@.subrange(0, 0) =~= Seq::<LodHeader>::empty());
        assert(head + lods_bytes(self.lods@.subrange(0, 0), v7) =~= head);
        while i < self.lods.len()
            invariant
                0 <= i <= self.lods@.len(),
                out@ == head + lods_bytes(self.lods@.subrange(0, i as int), v7),
            decreases self.lods.len() - i,
        {
            let ghost before = out@;
            push_lod(&mut out, &self.lods[i], v7);
            assert(self.lods@.subrange(0, i + 1).drop_last() =~= self.lods@.subrange(0, i as int));
            assert(self.lods@.subrange(0, i + 1).last() == self.lods@[i as int]);
            assert(lods_bytes(self.lods@.subrange(0, i + 1), v7) == lods_bytes(self.lods@.subrange(0, i as int), v7)
                + lod_bytes(self.lods@[i as int], v7));
            i += 1;
            assert(out@ =~= head + lods_bytes(self.lods@.subrange(0, i as int), v7));
        }
        assert(self.lods@.subrange(0, self.lods@.len() as int) =~= self.lods@);
        push_bytes(&mut out, self.data.as_slice());
        assert(out@ =~= rigid_encode(self@));
        Ok(out)
    }
}

} // verus!
