//! The PackFile container format: a 28-byte header, the names of the parent
//! archives, an index of entries, then the entries' bytes back to back.

use vstd::prelude::*;
use vstd::utf8::{
    decode_utf8, decode_utf8_encode_utf8, encode_scalar, encode_utf8, encode_utf8_decode_utf8,
    encode_utf8_valid_utf8, valid_utf8,
};
use crate::bytes::{
    holds_at, is_prefix, lemma_holds_split, lemma_prefix_holds, copy_range, lemma_u32_round_trip, push_bytes, push_u32, read_u32, u32_at, u32_le, utf8_bytes,
    utf8_string,
};
use crate::tree::{renamed_path, with_path};
use crate::model::{
    PackError, PackFile, PackFileId, PackFileView, PackedFile, PackedFileView, entries_view,
    entries_wf, entry_wf, path_eq, path_view, with_entries,
};

verus! {

/// Entries carry a timestamp in the index.
pub const HAS_INDEX_WITH_TIMESTAMPS: u32 = 0x40;
/// The index is encrypted.
pub const HAS_ENCRYPTED_INDEX: u32 = 0x80;
/// The entries' bytes are encrypted.
pub const HAS_ENCRYPTED_DATA: u32 = 0x20;
/// Length of the fixed header.
pub const HEADER_SIZE: usize = 28;

/// The four magic bytes of each format version.
pub open spec fn magic_bytes(id: PackFileId) -> Seq<u8> {
    match id {
        PackFileId::Pfh5 => seq![80u8, 70, 72, 53],
        PackFileId::Pfh4 => seq![80u8, 70, 72, 52],
        PackFileId::Pfh3 => seq![80u8, 70, 72, 51],
        PackFileId::Pfh0 => seq![80u8, 70, 72, 48],
    }
}

pub open spec fn has_timestamps(bitmask: u32) -> bool {
    bitmask & HAS_INDEX_WITH_TIMESTAMPS != 0
}

/// A NUL-terminated UTF-8 string.
pub open spec fn string_record(s: Seq<char>) -> Seq<u8> {
    encode_utf8(s).push(0u8)
}

pub open spec fn parents_bytes(ps: Seq<Seq<char>>) -> Seq<u8>
    decreases ps.len(),
{
    if ps.len() == 0 {
        Seq::empty()
    } else {
        parents_bytes(ps.drop_last()) + string_record(ps.last())
    }
}

/// The components of a path joined by `/`.
pub open spec fn joined_path(p: Seq<Seq<char>>) -> Seq<u8>
    decreases p.len(),
{
    if p.len() == 0 {
        Seq::empty()
    } else if p.len() == 1 {
        encode_utf8(p[0])
    } else {
        joined_path(p.drop_last()).push(47u8) + encode_utf8(p.last())
    }
}

/// The index record of an entry: its size, its timestamp when the archive
/// keeps them, and its NUL-terminated path.
pub open spec fn index_record(e: PackedFileView, ts: bool) -> Seq<u8> {
    u32_le(e.size) + (if ts { u32_le(e.timestamp) } else { Seq::empty() }) + joined_path(e.path).push(0u8)
}

pub open spec fn index_bytes(es: Seq<PackedFileView>, ts: bool) -> Seq<u8>
    decreases es.len(),
{
    if es.len() == 0 {
        Seq::empty()
    } else {
        index_bytes(es.drop_last(), ts) + index_record(es.last(), ts)
    }
}

pub open spec fn payload_bytes(es: Seq<PackedFileView>) -> Seq<u8>
    decreases es.len(),
{
    if es.len() == 0 {
        Seq::empty()
    } else {
        payload_bytes(es.drop_last()) + es.last().data
    }
}

/// The header's flags word: the bitmask with the archive type in its low bits.
pub open spec fn flags_word(v: PackFileView) -> u32 {
    v.bitmask | v.pack_file_type
}

/// The 28-byte header.
pub open spec fn header_bytes(v: PackFileView) -> Seq<u8> {
    magic_bytes(v.id) + u32_le(flags_word(v)) + u32_le(v.parents.len() as u32)
        + u32_le(parents_bytes(v.parents).len() as u32) + u32_le(v.entries.len() as u32)
        + u32_le(index_bytes(v.entries, has_timestamps(v.bitmask)).len() as u32) + u32_le(v.creation_time)
}

/// The archive as bytes on disk.
pub open spec fn encode_spec(v: PackFileView) -> Seq<u8> {
    header_bytes(v) + parents_bytes(v.parents) + index_bytes(v.entries, has_timestamps(v.bitmask))
        + payload_bytes(v.entries)
}

/// The counts and sizes of the header fit their 32-bit fields.
pub open spec fn encodable(v: PackFileView) -> bool {
    &&& v.parents.len() <= u32::MAX
    &&& parents_bytes(v.parents).len() <= u32::MAX
    &&& v.entries.len() <= u32::MAX
    &&& index_bytes(v.entries, has_timestamps(v.bitmask)).len() <= u32::MAX
}

fn push_magic(out: &mut Vec<u8>, id: PackFileId)
    ensures
        final(out)@ == old(out)@ + magic_bytes(id),
{
    out.push(80u8);
    out.push(70u8);
    out.push(72u8);
    let last: u8 = match id {
        PackFileId::Pfh5 => 53,
        PackFileId::Pfh4 => 52,
        PackFileId::Pfh3 => 51,
        PackFileId::Pfh0 => 48,
    };
    out.push(last);
    assert(out@ =~= old(out)@ + magic_bytes(id));
}

proof fn lemma_prefix_step(s: Seq<String>, i: int)
    requires
        0 <= i < s.len(),
    ensures
        path_view(s.subrange(0, i + 1)).drop_last() == path_view(s.subrange(0, i)),
        path_view(s.subrange(0, i + 1)).last() == s[i]@,
        path_view(s.subrange(0, i + 1)).len() == i + 1,
{
    assert(path_view(s.subrange(0, i + 1)).drop_last() =~= path_view(s.subrange(0, i)));
}

fn encode_parents(ps: &Vec<String>) -> (r: Vec<u8>)
    ensures
        r@ == parents_bytes(path_view(ps@)),
{
    let mut out: Vec<u8> = Vec::new();
    let mut i: usize = 0;
    assert(path_view(ps@.subrange(0, 0)) =~= Seq::<Seq<char>>::empty());
    while i < ps.len()
        invariant
            0 <= i <= ps@.len(),
            out@ == parents_bytes(path_view(ps@.subrange(0, i as int))),
        decreases ps.len() - i,
    {
        proof {
            lemma_prefix_step(ps@, i as int);
        }
        push_bytes(&mut out, utf8_bytes(&ps[i]));
        out.push(0u8);
        i += 1;
        assert(out@ =~= parents_bytes(path_view(ps@.subrange(0, i as int))));
    }
    assert(ps@.subrange(0, ps@.len() as int) =~= ps@);
    out
}

fn encode_path(p: &Vec<String>) -> (r: Vec<u8>)
    ensures
        r@ == joined_path(path_view(p@)),
{
    let mut out: Vec<u8> = Vec::new();
    let mut i: usize = 0;
    assert(path_view(p@.subrange(0, 0)) =~= Seq::<Seq<char>>::empty());
    while i < p.len()
        invariant
            0 <= i <= p@.len(),
            out@ == joined_path(path_view(p@.subrange(0, i as int))),
        decreases p.len() - i,
    {
        proof {
            lemma_prefix_step(p@, i as int);
        }
        if i > 0 {
            out.push(47u8);
        }
        push_bytes(&mut out, utf8_bytes(&p[i]));
        i += 1;
        proof {
            if i == 1 {
                assert(path_view(p@.subrange(0, 1))[0] == p@[0]@);
            }
        }
        assert(out@ =~= joined_path(path_view(p@.subrange(0, i as int))));
    }
    assert(p@.subrange(0, p@.len() as int) =~= p@);
    out
}

proof fn lemma_entries_step(s: Seq<PackedFile>, i: int)
    requires
        0 <= i < s.len(),
    ensures
        entries_view(s.subrange(0, i + 1)).drop_last() == entries_view(s.subrange(0, i)),
        entries_view(s.subrange(0, i + 1)).last() == s[i]@,
        entries_view(s.subrange(0, i + 1)).len() == i + 1,
{
    assert(entries_view(s.subrange(0, i + 1)).drop_last() =~= entries_view(s.subrange(0, i)));
}

fn encode_index(es: &Vec<PackedFile>, ts: bool) -> (r: Vec<u8>)
    ensures
        r@ == index_bytes(entries_view(es@), ts),
{
    let mut out: Vec<u8> = Vec::new();
    let mut i: usize = 0;
    assert(entries_view(es@.subrange(0, 0)) =~= Seq::<PackedFileView>::empty());
    while i < es.len()
        invariant
            0 <= i <= es@.len(),
            out@ == index_bytes(entries_view(es@.subrange(0, i as int)), ts),
        decreases es.len() - i,
    {
        proof {
            lemma_entries_step(es@, i as int);
        }
        let e = &es[i];
        push_u32(&mut out, e.size);
        if ts {
            push_u32(&mut out, e.timestamp);
        }
        let p = encode_path(&e.path);
        push_bytes(&mut out, p.as_slice());
        out.push(0u8);
        i += 1;
        assert(out@ =~= index_bytes(entries_view(es@.subrange(0, i as int)), ts));
    }
    assert(es@.subrange(0, es@.len() as int) =~= es@);
    out
}

fn encode_payload(out: &mut Vec<u8>, es: &Vec<PackedFile>)
    ensures
        final(out)@ == old(out)@ + payload_bytes(entries_view(es@)),
{
    let mut i: usize = 0;
    assert(entries_view(es@.subrange(0, 0)) =~= Seq::<PackedFileView>::empty());
    assert(old(out)@ + payload_bytes(entries_view(es@.subrange(0, 0))) =~= old(out)@);
    while i < es.len()
        invariant
            0 <= i <= es@.len(),
            out@ == old(out)@ + payload_bytes(entries_view(es@.subrange(0, i as int))),
        decreases es.len() - i,
    {
        proof {
            lemma_entries_step(es@, i as int);
        }
        push_bytes(out, es[i].data.as_slice());
        i += 1;
        assert(out@ =~= old(out)@ + payload_bytes(entries_view(es@.subrange(0, i as int))));
    }
    assert(es@.subrange(0, es@.len() as int) =~= es@);
}

impl PackFile {
    /// The archive as bytes on disk; fails with `BadLength` when a count or
    /// a size of the header does not fit its 32-bit field.
    pub fn save(&self) -> (r: Result<Vec<u8>, PackError>)
        ensures
            r is Ok <==> encodable(self@),
            r matches Ok(b) ==> b@ == encode_spec(self@),
            r is Err ==> r == Err::<Vec<u8>, PackError>(PackError::BadLength),
    {
        let ts = self.bitmask & HAS_INDEX_WITH_TIMESTAMPS != 0;
        let parents = encode_parents(&self.parents);
        let index = encode_index(&self.packed_files, ts);
        if self.parents.len() > u32::MAX as usize || parents.len() > u32::MAX as usize
            || self.packed_files.len() > u32::MAX as usize || index.len() > u32::MAX as usize {
            return Err(PackError::BadLength);
        }
        let mut out: Vec<u8> = Vec::new();
        push_magic(&mut out, self.id);
        push_u32(&mut out, self.bitmask | self.pack_file_type);
        push_u32(&mut out, self.parents.len() as u32);
        push_u32(&mut out, parents.len() as u32);
        push_u32(&mut out, self.packed_files.len() as u32);
        push_u32(&mut out, index.len() as u32);
        push_u32(&mut out, self.creation_time);
        assert(out@ =~= header_bytes(self@));
        push_bytes(&mut out, parents.as_slice());
        push_bytes(&mut out, index.as_slice());
        encode_payload(&mut out, &self.packed_files);
        Ok(out)
    }
}

/// No character of `s` is `c`.
pub open spec fn avoids(s: Seq<char>, c: char) -> bool {
    forall|i: int| 0 <= i < s.len() ==> s[i] != c
}

proof fn lemma_scalar_bytes_avoid(u: u32, x: u32)
    requires
        x < 0x80,
        u != x,
    ensures
        forall|i: int| 0 <= i < encode_scalar(u).len() ==> encode_scalar(u)[i] != x as u8,
{
    let b = encode_scalar(u);
    assert forall|i: int| 0 <= i < b.len() implies b[i] != x as u8 by {
        if u <= 0x7f {
            assert((u & 0x7f) as u8 != x as u8) by (bit_vector)
                requires u <= 0x7f, x < 0x80, u != x;
        } else {
            let y0 = ((u >> 6u32) & 0x1f) as u8;
            let y1 = ((u >> 12u32) & 0x0f) as u8;
            let y2 = ((u >> 18u32) & 0x7) as u8;
            let z0 = (u & 0x3f) as u8;
            let z1 = ((u >> 6u32) & 0x3f) as u8;
            let z2 = ((u >> 12u32) & 0x3f) as u8;
            assert(forall|y: u8| #![auto] (0xc0u8 | y) != x as u8) by (bit_vector)
                requires x < 0x80;
            assert(forall|y: u8| #![auto] (0xe0u8 | y) != x as u8) by (bit_vector)
                requires x < 0x80;
            assert(forall|y: u8| #![auto] (0xf0u8 | y) != x as u8) by (bit_vector)
                requires x < 0x80;
            assert(forall|y: u8| #![auto] (0x80u8 | y) != x as u8) by (bit_vector)
                requires x < 0x80;
            assert(0xc0u8 | y0 != x as u8);
            assert(0xe0u8 | y1 != x as u8);
            assert(0xf0u8 | y2 != x as u8);
            assert(0x80u8 | z0 != x as u8);
            assert(0x80u8 | z1 != x as u8);
            assert(0x80u8 | z2 != x as u8);
        }
    }
}

/// The UTF-8 bytes of a string that avoids an ASCII character avoid its byte.
pub proof fn lemma_encode_avoids(s: Seq<char>, c: char)
    requires
        (c as u32) < 0x80,
        avoids(s, c),
    ensures
        forall|i: int| 0 <= i < encode_utf8(s).len() ==> encode_utf8(s)[i] != (c as u32) as u8,
    decreases s.len(),
{
    if s.len() > 0 {
        let t = s.drop_first();
        assert forall|i: int| 0 <= i < t.len() implies t[i] != c by {
            assert(t[i] == s[i + 1]);
        }
        lemma_encode_avoids(t, c);
        assert((s[0] as u32) != (c as u32)) by {
            vstd::utf8::char_u32_cast(s[0], s[0] as u32);
            vstd::utf8::char_u32_cast(c, c as u32);
        }
        lemma_scalar_bytes_avoid(s[0] as u32, c as u32);
        let head = encode_scalar(s[0] as u32);
        assert forall|i: int| 0 <= i < encode_utf8(s).len() implies encode_utf8(s)[i] != (c as u32) as u8 by {
            if i < head.len() {
                assert(encode_utf8(s)[i] == head[i]);
            } else {
                assert(encode_utf8(s)[i] == encode_utf8(t)[i - head.len()]);
            }
        }
    }
}

/// A string whose UTF-8 bytes avoid the byte of an ASCII character avoids
/// that character.
pub proof fn lemma_decoded_avoids(s: Seq<char>, c: char)
    requires
        (c as u32) < 0x80,
        forall|i: int| 0 <= i < encode_utf8(s).len() ==> encode_utf8(s)[i] != (c as u32) as u8,
    ensures
        avoids(s, c),
    decreases s.len(),
{
    if s.len() > 0 {
        let t = s.drop_first();
        let head = encode_scalar(s[0] as u32);
        if s[0] == c {
            let u = c as u32;
            assert((u & 0x7f) as u8 == u as u8) by (bit_vector)
                requires u < 0x80;
            assert(encode_utf8(s)[0] == head[0]);
        }
        assert(head.len() > 0);
        assert forall|i: int| 0 <= i < encode_utf8(t).len() implies encode_utf8(t)[i] != (c as u32) as u8 by {
            assert(encode_utf8(s)[i + head.len()] == encode_utf8(t)[i]);
        }
        lemma_decoded_avoids(t, c);
        assert forall|i: int| 0 <= i < s.len() implies s[i] != c by {
            if i > 0 {
                assert(s[i] == t[i - 1]);
            }
        }
    }
}

/// The first NUL byte at or after `from`, if any.
fn find_nul(data: &[u8], from: usize) -> (r: Option<usize>)
    requires
        from <= data@.len(),
    ensures
        match r {
            Some(n) => from <= n < data.len() && data@[n as int] == 0
                && forall|j: int| from <= j < n ==> data@[j] != 0,
            None => forall|j: int| from <= j < data@.len() ==> data@[j] != 0,
        },
{
    let mut j: usize = from;
    while j < data.len()
        invariant
            from <= j <= data@.len(),
            forall|t: int| from <= t < j ==> data@[t] != 0,
        decreases data.len() - j,
    {
        if data[j] == 0 {
            return Some(j);
        }
        j += 1;
    }
    None
}

/// Decodes the UTF-8 bytes `data[from..to]`.
fn read_utf8(data: &[u8], from: usize, to: usize) -> (r: Result<String, PackError>)
    requires
        from <= to <= data@.len(),
    ensures
        r matches Ok(s) ==> encode_utf8(s@) == data@.subrange(from as int, to as int),
        r is Err ==> r == Err::<String, PackError>(PackError::BadEncoding),
        forall|e: Seq<char>| encode_utf8(e) == data@.subrange(from as int, to as int) ==> (r matches Ok(s) && s@ == e),
{
    let bytes = copy_range(data, from, to);
    match utf8_string(bytes.as_slice()) {
        Some(s) => {
            proof {
                decode_utf8_encode_utf8(bytes@);
                assert forall|e: Seq<char>| encode_utf8(e) == data@.subrange(from as int, to as int) implies s@ == e by {
                    encode_utf8_decode_utf8(e);
                    encode_utf8_decode_utf8(s@);
                }
            }
            Ok(s)
        },
        None => {
            proof {
                assert forall|e: Seq<char>| encode_utf8(e) != data@.subrange(from as int, to as int) by {
                    encode_utf8_valid_utf8(e);
                }
            }
            Err(PackError::BadEncoding)
        },
    }
}

/// Reads a NUL-terminated UTF-8 string at `pos`; returns it and the offset
/// after its NUL. When `data` is the beginning of bytes `full` that hold the
/// record of `expect` at `pos`, it reads `expect` if the record lies within
/// `data` and fails with `BadFormat` if it runs past its end.
fn read_string_record(data: &[u8], pos: usize, Ghost(full): Ghost<Seq<u8>>, Ghost(expect): Ghost<Option<Seq<char>>>) -> (r: Result<(String, usize), PackError>)
    requires
        pos <= data@.len(),
    ensures
        r matches Ok((s, next)) ==> pos < next <= data@.len() && data@.subrange(pos as int, next as int) == string_record(s@)
            && avoids(s@, '\0'),
        r matches Err(e) ==> e == PackError::BadFormat || e == PackError::BadEncoding,
        expect matches Some(e) ==> (is_prefix(data@, full) && holds_at(full, pos as int, string_record(e)) && avoids(e, '\0')
            ==> if pos + string_record(e).len() <= data@.len() {
                r matches Ok((s, next)) && s@ == e
            } else {
                r == Err::<(String, usize), PackError>(PackError::BadFormat)
            }),
{
    let ghost ok0 = expect matches Some(e) && is_prefix(data@, full) && holds_at(full, pos as int, string_record(e)) && avoids(e, '\0');
    let ghost e = if ok0 { expect->Some_0 } else { Seq::empty() };
    let ghost fits = pos + string_record(e).len() <= data@.len();
    let ghost ok = ok0 && fits;
    proof {
        if ok0 {
            lemma_encode_avoids(e, '\0');
            let n = encode_utf8(e).len();
            assert forall|t: int| pos <= t < pos + n && t < data@.len() implies data@[t] != 0 by {
                assert(data@[t] == full.subrange(0, data@.len() as int)[t]);
                assert(full[t] == full.subrange(pos as int, pos + n + 1)[t - pos]);
            }
            if fits {
                lemma_prefix_holds(data@, full, pos as int, string_record(e));
                assert(data@[pos + n] == string_record(e)[n as int]);
            }
        }
    }
    let n = match find_nul(data, pos) {
        Some(n) => n,
        None => {
            return Err(PackError::BadFormat);
        },
    };
    proof {
        if ok {
            assert(n == pos + encode_utf8(e).len());
            assert(data@.subrange(pos as int, n as int) =~= encode_utf8(e));
        }
    }
    let s = read_utf8(data, pos, n)?;
    proof {
        assert forall|i: int| 0 <= i < encode_utf8(s@).len() implies encode_utf8(s@)[i] != ('\0' as u32) as u8 by {
            assert(encode_utf8(s@)[i] == data@[pos + i]);
        }
        lemma_decoded_avoids(s@, '\0');
    }
    assert(data@.subrange(pos as int, n + 1) =~= data@.subrange(pos as int, n as int).push(0u8));
    Ok((s, n + 1))
}

proof fn lemma_parents_concat(a: Seq<Seq<char>>, b: Seq<Seq<char>>)
    ensures
        parents_bytes(a + b) == parents_bytes(a) + parents_bytes(b),
    decreases b.len(),
{
    if b.len() == 0 {
        assert(a + b =~= a);
        assert(parents_bytes(a) + parents_bytes(b) =~= parents_bytes(a));
    } else {
        lemma_parents_concat(a, b.drop_last());
        assert((a + b).drop_last() =~= a + b.drop_last());
        assert((a + b).last() == b.last());
    }
}

proof fn lemma_parents_at(ps: Seq<Seq<char>>, i: int)
    requires
        0 <= i < ps.len(),
    ensures
        parents_bytes(ps) == parents_bytes(ps.subrange(0, i)) + (string_record(ps[i]) + parents_bytes(ps.subrange(i + 1, ps.len() as int))),
{
    let one = seq![ps[i]];
    assert(one.drop_last() =~= Seq::<Seq<char>>::empty());
    assert(parents_bytes(one) == parents_bytes(one.drop_last()) + string_record(one.last()));
    assert(parents_bytes(one) =~= string_record(ps[i]));
    lemma_parents_concat(one, ps.subrange(i + 1, ps.len() as int));
    lemma_parents_concat(ps.subrange(0, i), one + ps.subrange(i + 1, ps.len() as int));
    assert(ps =~= ps.subrange(0, i) + (one + ps.subrange(i + 1, ps.len() as int)));
}

/// No parent name holds a NUL character.
pub open spec fn parents_plain(ps: Seq<Seq<char>>) -> bool {
    forall|i: int| 0 <= i < ps.len() ==> avoids(#[trigger] ps[i], '\0')
}

fn read_parents(data: &[u8], pos: usize, count: u32, Ghost(full): Ghost<Seq<u8>>, Ghost(expect): Ghost<Option<Seq<Seq<char>>>>) -> (r: Result<(Vec<String>, usize), PackError>)
    requires
        pos <= data@.len(),
    ensures
        r matches Ok((ps, next)) ==> {
            &&& pos <= next <= data@.len()
            &&& ps@.len() == count
            &&& data@.subrange(pos as int, next as int) == parents_bytes(path_view(ps@))
            &&& parents_plain(path_view(ps@))
        },
        r matches Err(e) ==> e == PackError::BadFormat || e == PackError::BadEncoding,
        expect matches Some(e) ==> (e.len() == count && is_prefix(data@, full) && holds_at(full, pos as int, parents_bytes(e)) && parents_plain(e)
            ==> if pos + parents_bytes(e).len() <= data@.len() {
                r matches Ok((ps, next)) && path_view(ps@) == e
            } else {
                r == Err::<(Vec<String>, usize), PackError>(PackError::BadFormat)
            }),
{
    let ghost ok = expect matches Some(e) && e.len() == count && is_prefix(data@, full) && holds_at(full, pos as int, parents_bytes(e)) && parents_plain(e);
    let ghost e = if ok { expect->Some_0 } else { Seq::empty() };
    let mut ps: Vec<String> = Vec::new();
    let mut at = pos;
    let mut i: u32 = 0;
    assert(data@.subrange(pos as int, pos as int) =~= parents_bytes(path_view(ps@)));
    assert(ok ==> path_view(ps@) =~= e.subrange(0, 0));
    while i < count
        invariant
            pos <= at <= data@.len(),
            ps@.len() == i,
            i <= count,
            data@.subrange(pos as int, at as int) == parents_bytes(path_view(ps@)),
            parents_plain(path_view(ps@)),
            ok == (expect matches Some(x) && x.len() == count && is_prefix(data@, full) && holds_at(full, pos as int, parents_bytes(x)) && parents_plain(x)),
            ok ==> expect == Some(e),
            ok ==> path_view(ps@) == e.subrange(0, i as int),
        decreases count - i,
    {
        proof {
            if ok {
                lemma_parents_at(e, i as int);
                lemma_holds_split(full, pos as int, parents_bytes(e.subrange(0, i as int)),
                    string_record(e[i as int]) + parents_bytes(e.subrange(i + 1, e.len() as int)));
                lemma_holds_split(full, at as int, string_record(e[i as int]), parents_bytes(e.subrange(i + 1, e.len() as int)));
                assert(avoids(e[i as int], '\0'));
            }
        }
        let (s, next) = read_string_record(data, at, Ghost(full), Ghost(if ok { Some(e[i as int]) } else { None }))?;
        let ghost before = ps@;
        ps.push(s);
        proof {
            assert(path_view(ps@).drop_last() =~= path_view(before));
            assert(data@.subrange(pos as int, next as int) =~= data@.subrange(pos as int, at as int) + data@.subrange(at as int, next as int));
            if ok {
                assert(path_view(ps@) =~= e.subrange(0, i + 1));
            }
            assert forall|k: int| 0 <= k < path_view(ps@).len() implies avoids(#[trigger] path_view(ps@)[k], '\0') by {
                if k < before.len() {
                    assert(path_view(ps@)[k] == path_view(before)[k]);
                }
            }
        }
        at = next;
        i += 1;
    }
    proof {
        if ok {
            assert(e.subrange(0, count as int) =~= e);
        }
    }
    Ok((ps, at))
}

/// The bytes that stand before the next component of a path being read.
pub open spec fn path_prefix_bytes(p: Seq<Seq<char>>) -> Seq<u8> {
    if p.len() == 0 {
        Seq::empty()
    } else {
        joined_path(p).push(47u8)
    }
}

proof fn lemma_joined_push(p: Seq<Seq<char>>, c: Seq<char>)
    ensures
        joined_path(p.push(c)) == path_prefix_bytes(p) + encode_utf8(c),
{
    assert(p.push(c).drop_last() =~= p);
    if p.len() == 0 {
        assert(path_prefix_bytes(p) + encode_utf8(c) =~= encode_utf8(c));
        assert(p.push(c)[0] == c);
    }
}

/// A path that encodes and decodes back to itself: at least one component,
/// and no component empty or holding `/` or a NUL.
pub open spec fn path_plain(p: Seq<Seq<char>>) -> bool {
    &&& p.len() > 0
    &&& forall|i: int| 0 <= i < p.len() ==> (#[trigger] p[i]).len() > 0 && avoids(p[i], '/') && avoids(p[i], '\0')
}

/// The bytes of the components of `p` from `k` on, joined by `/`.
pub open spec fn path_tail(p: Seq<Seq<char>>, k: int) -> Seq<u8>
    decreases p.len() - k,
{
    if k >= p.len() - 1 {
        encode_utf8(p[k])
    } else {
        encode_utf8(p[k]).push(47u8) + path_tail(p, k + 1)
    }
}

proof fn lemma_path_split(p: Seq<Seq<char>>, k: int)
    requires
        0 <= k < p.len(),
    ensures
        joined_path(p) == path_prefix_bytes(p.subrange(0, k)) + path_tail(p, k),
    decreases p.len() - k,
{
    lemma_joined_push(p.subrange(0, k), p[k]);
    assert(p.subrange(0, k).push(p[k]) =~= p.subrange(0, k + 1));
    if k == p.len() - 1 {
        assert(p.subrange(0, k + 1) =~= p);
    } else {
        lemma_path_split(p, k + 1);
        assert(path_prefix_bytes(p.subrange(0, k + 1)) == joined_path(p.subrange(0, k + 1)).push(47u8));
        assert(path_prefix_bytes(p.subrange(0, k)) + path_tail(p, k) =~= path_prefix_bytes(p.subrange(0, k + 1)) + path_tail(p, k + 1));
    }
}

proof fn lemma_encode_nonempty(s: Seq<char>)
    requires
        s.len() > 0,
    ensures
        encode_utf8(s).len() > 0,
{
    assert(encode_scalar(s[0] as u32).len() > 0);
}

proof fn lemma_joined_avoids_nul(p: Seq<Seq<char>>)
    requires
        forall|i: int| 0 <= i < p.len() ==> avoids(#[trigger] p[i], '\0'),
    ensures
        forall|t: int| 0 <= t < joined_path(p).len() ==> joined_path(p)[t] != 0,
    decreases p.len(),
{
    if p.len() == 1 {
        lemma_encode_avoids(p[0], '\0');
    } else if p.len() > 1 {
        let init = p.drop_last();
        assert forall|i: int| 0 <= i < init.len() implies avoids(#[trigger] init[i], '\0') by {
            assert(init[i] == p[i]);
        }
        lemma_joined_avoids_nul(init);
        assert(avoids(p[p.len() - 1], '\0'));
        lemma_encode_avoids(p.last(), '\0');
        let a = joined_path(init).push(47u8);
        assert forall|t: int| 0 <= t < joined_path(p).len() implies joined_path(p)[t] != 0 by {
            if t < a.len() - 1 {
                assert(joined_path(p)[t] == joined_path(init)[t]);
            } else if t >= a.len() {
                assert(joined_path(p)[t] == encode_utf8(p.last())[t - a.len()]);
            }
        }
    }
}

proof fn lemma_component_at(data: Seq<u8>, pos: int, n: int, seg: int, e: Seq<Seq<char>>, k: int)
    requires
        0 <= k < e.len(),
        path_plain(e),
        0 <= pos <= seg <= n <= data.len(),
        data.subrange(pos, n) == joined_path(e),
        seg - pos == path_prefix_bytes(e.subrange(0, k)).len(),
    ensures
        ({
            let l = encode_utf8(e[k]).len() as int;
            &&& l > 0
            &&& seg + l <= n
            &&& data.subrange(seg, seg + l) == encode_utf8(e[k])
            &&& forall|t: int| seg <= t < seg + l ==> data[t] != 47u8
            &&& k < e.len() - 1 ==> seg + l < n && data[seg + l] == 47u8
            &&& k == e.len() - 1 ==> seg + l == n
        }),
{
    lemma_path_split(e, k);
    let pre = path_prefix_bytes(e.subrange(0, k));
    let tail = path_tail(e, k);
    assert(data.subrange(seg, n) =~= data.subrange(pos, n).subrange(seg - pos, n - pos));
    assert((pre + tail).subrange(pre.len() as int, (pre + tail).len() as int) =~= tail);
    assert(data.subrange(seg, n) =~= tail);
    assert(e[k].len() > 0 && avoids(e[k], '/'));
    lemma_encode_avoids(e[k], '/');
    lemma_encode_nonempty(e[k]);
    let enc = encode_utf8(e[k]);
    let l = enc.len() as int;
    assert(tail.subrange(0, l) =~= enc);
    assert(data.subrange(seg, seg + l) =~= tail.subrange(0, l));
    assert forall|t: int| seg <= t < seg + l implies data[t] != 47u8 by {
        assert(data[t] == data.subrange(seg, n)[t - seg]);
        assert(tail[t - seg] == enc[t - seg]);
    }
    if k < e.len() - 1 {
        assert(data[seg + l] == data.subrange(seg, n)[l]);
        assert(tail[l] == 47u8);
    }
}

proof fn lemma_segment_plain(data: Seq<u8>, pos: int, n: int, seg: int, j: int, c: Seq<char>)
    requires
        0 <= pos <= seg < j <= n <= data.len(),
        encode_utf8(c) == data.subrange(seg, j),
        forall|t: int| seg <= t < j ==> data[t] != 47u8,
        forall|t: int| pos <= t < n ==> data[t] != 0,
    ensures
        c.len() > 0,
        avoids(c, '/'),
        avoids(c, '\0'),
{
    let b = data.subrange(seg, j);
    assert(b.len() == j - seg);
    assert(encode_utf8(c).len() == b.len());
    if c.len() == 0 {
        assert(encode_utf8(c) =~= Seq::<u8>::empty());
    }
    assert forall|i: int| 0 <= i < encode_utf8(c).len() implies encode_utf8(c)[i] != ('/' as u32) as u8
        && encode_utf8(c)[i] != ('\0' as u32) as u8 by {
        assert(b[i] == data[seg + i]);
        assert(encode_utf8(c)[i] == data[seg + i]);
        assert(('/' as u32) as u8 == 47u8);
        assert(('\0' as u32) as u8 == 0u8);
    }
    lemma_decoded_avoids(c, '/');
    lemma_decoded_avoids(c, '\0');
}

/// The first `/` in `data[from..to]`, or `to` when there is none.
fn find_sep(data: &[u8], from: usize, to: usize) -> (r: usize)
    requires
        from <= to <= data@.len(),
    ensures
        from <= r <= to,
        r < to ==> data@[r as int] == 47u8,
        forall|t: int| from <= t < r ==> data@[t] != 47u8,
{
    let mut j = from;
    while j < to && data[j] != 47u8
        invariant
            from <= j <= to <= data@.len(),
            forall|t: int| from <= t < j ==> data@[t] != 47u8,
        decreases to - j,
    {
        j += 1;
    }
    j
}

/// Reads a NUL-terminated `/`-separated path at `pos`; every component must
/// be non-empty UTF-8. When `data` holds the record of the path `expect`
/// there, that is what it reads.
fn read_path_record(data: &[u8], pos: usize, Ghost(full): Ghost<Seq<u8>>, Ghost(expect): Ghost<Option<Seq<Seq<char>>>>) -> (r: Result<(Vec<String>, usize), PackError>)
    requires
        pos <= data@.len(),
    ensures
        r matches Ok((p, next)) ==> {
            &&& pos < next <= data@.len()
            &&& p@.len() > 0
            &&& data@.subrange(pos as int, next as int) == joined_path(path_view(p@)).push(0u8)
            &&& path_plain(path_view(p@))
        },
        r matches Err(e) ==> e == PackError::BadFormat || e == PackError::BadEncoding,
        expect matches Some(e) ==> (is_prefix(data@, full) && holds_at(full, pos as int, joined_path(e).push(0u8)) && path_plain(e)
            ==> if pos + joined_path(e).len() + 1 <= data@.len() {
                r matches Ok((p, next)) && path_view(p@) == e
            } else {
                r == Err::<(Vec<String>, usize), PackError>(PackError::BadFormat)
            }),
{
    let ghost ok0 = expect matches Some(e) && is_prefix(data@, full) && holds_at(full, pos as int, joined_path(e).push(0u8)) && path_plain(e);
    let ghost e = if ok0 { expect->Some_0 } else { seq![Seq::<char>::empty()] };
    let ghost fits = pos + joined_path(e).len() + 1 <= data@.len();
    let ghost ok = ok0 && fits;
    proof {
        if ok0 {
            lemma_joined_avoids_nul(e);
            let m = joined_path(e).len();
            assert forall|t: int| pos <= t < pos + m && t < data@.len() implies data@[t] != 0 by {
                assert(data@[t] == full.subrange(0, data@.len() as int)[t]);
                assert(full[t] == full.subrange(pos as int, pos + m + 1)[t - pos]);
            }
            if fits {
                lemma_prefix_holds(data@, full, pos as int, joined_path(e).push(0u8));
                assert(data@[pos + m] == joined_path(e).push(0u8)[m as int]);
            }
        }
    }
    let n = match find_nul(data, pos) {
        Some(n) => n,
        None => {
            return Err(PackError::BadFormat);
        },
    };
    proof {
        if ok {
            assert(n == pos + joined_path(e).len());
            assert(data@.subrange(pos as int, n as int) =~= joined_path(e));
        }
    }
    let mut comps: Vec<String> = Vec::new();
    let mut seg = pos;
    let mut done = false;
    assert(data@.subrange(pos as int, pos as int) =~= path_prefix_bytes(path_view(comps@)));
    assert(path_view(comps@) =~= e.subrange(0, 0));
    while !done
        invariant
            pos <= seg <= n < data.len(),
            forall|t: int| pos <= t < n ==> data@[t] != 0,
            forall|i: int| 0 <= i < comps@.len() ==> (#[trigger] path_view(comps@)[i]).len() > 0
                && avoids(path_view(comps@)[i], '/') && avoids(path_view(comps@)[i], '\0'),
            !done ==> data@.subrange(pos as int, seg as int) == path_prefix_bytes(path_view(comps@)),
            done ==> seg == n && comps@.len() > 0 && data@.subrange(pos as int, n as int) == joined_path(path_view(comps@)),
            ok0 == (expect matches Some(x) && is_prefix(data@, full) && holds_at(full, pos as int, joined_path(x).push(0u8)) && path_plain(x)),
            ok0 ==> ok,
            ok ==> expect == Some(e) && path_plain(e),
            ok ==> n == pos + joined_path(e).len() && data@.subrange(pos as int, n as int) == joined_path(e),
            ok && !done ==> comps@.len() < e.len() && path_view(comps@) == e.subrange(0, comps@.len() as int),
            ok && done ==> path_view(comps@) == e,
        decreases n - seg + if done { 0int } else { 1int },
    {
        let ghost k = comps@.len() as int;
        proof {
            if ok {
                lemma_component_at(data@, pos as int, n as int, seg as int, e, k);
            }
        }
        let j = find_sep(data, seg, n);
        if j == seg {
            return Err(PackError::BadFormat);
        }
        assert(ok ==> j == seg + encode_utf8(e[k]).len());
        let c = read_utf8(data, seg, j)?;
        proof {
            lemma_segment_plain(data@, pos as int, n as int, seg as int, j as int, c@);
        }
        let ghost before = comps@;
        comps.push(c);
        proof {
            assert(path_view(comps@) =~= path_view(before).push(c@));
            lemma_joined_push(path_view(before), c@);
            if ok {
                assert(path_view(comps@) =~= e.subrange(0, k + 1));
            }
        }
        if j == n {
            proof {
                assert(data@.subrange(pos as int, n as int) =~= data@.subrange(pos as int, seg as int) + data@.subrange(seg as int, n as int));
                if ok {
                    assert(k == e.len() - 1);
                    assert(e.subrange(0, k + 1) =~= e);
                }
            }
            seg = n;
            done = true;
        } else {
            proof {
                assert(data@.subrange(pos as int, j + 1) =~= data@.subrange(pos as int, seg as int) + data@.subrange(seg as int, j as int) + seq![47u8]);
                if ok {
                    assert(k < e.len() - 1);
                }
            }
            seg = j + 1;
        }
    }
    assert(data@.subrange(pos as int, n + 1) =~= data@.subrange(pos as int, n as int).push(0u8));
    Ok((comps, n + 1))
}

/// The index fields of two entries agree.
pub open spec fn same_index_fields(a: PackedFileView, b: PackedFileView) -> bool {
    a.path == b.path && a.size == b.size && a.timestamp == b.timestamp
}

/// An entry whose index record decodes back to it.
pub open spec fn entry_plain(x: PackedFileView, ts: bool) -> bool {
    path_plain(x.path) && (!ts ==> x.timestamp == 0)
}

/// An entry with its index fields and no bytes yet. When `data` holds the
/// record of `expect` there, those are the fields it reads.
fn read_index_record(data: &[u8], pos: usize, ts: bool, Ghost(full): Ghost<Seq<u8>>, Ghost(expect): Ghost<Option<PackedFileView>>) -> (r: Result<(PackedFile, usize), PackError>)
    requires
        pos <= data@.len(),
    ensures
        r matches Ok((e, next)) ==> {
            &&& pos < next <= data@.len()
            &&& e@.path.len() > 0
            &&& e@.data.len() == 0
            &&& entry_plain(e@, ts)
            &&& data@.subrange(pos as int, next as int) == index_record(e@, ts)
        },
        r matches Err(e) ==> e == PackError::BadFormat || e == PackError::BadEncoding,
        expect matches Some(x) ==> (is_prefix(data@, full) && holds_at(full, pos as int, index_record(x, ts)) && entry_plain(x, ts)
            ==> if pos + index_record(x, ts).len() <= data@.len() {
                r matches Ok((e, next)) && same_index_fields(e@, x) && next == pos + index_record(x, ts).len()
            } else {
                r == Err::<(PackedFile, usize), PackError>(PackError::BadFormat)
            }),
{
    let ghost ok0 = expect matches Some(x) && is_prefix(data@, full) && holds_at(full, pos as int, index_record(x, ts)) && entry_plain(x, ts);
    let ghost x = if ok0 { expect->Some_0 } else { PackedFileView { path: Seq::empty(), size: 0, timestamp: 0, data: Seq::empty() } };
    let ghost tsb: Seq<u8> = if ts { u32_le(x.timestamp) } else { Seq::empty() };
    let ghost ok = ok0 && pos + index_record(x, ts).len() <= data@.len();
    proof {
        if ok0 {
            let rec = index_record(x, ts);
            assert(rec =~= u32_le(x.size) + (tsb + joined_path(x.path).push(0u8)));
            lemma_holds_split(full, pos as int, u32_le(x.size), tsb + joined_path(x.path).push(0u8));
            lemma_holds_split(full, pos + 4, tsb, joined_path(x.path).push(0u8));
        }
        if ok {
            lemma_prefix_holds(data@, full, pos as int, index_record(x, ts));
            let rec = index_record(x, ts);
            lemma_holds_split(data@, pos as int, u32_le(x.size), tsb + joined_path(x.path).push(0u8));
            lemma_holds_split(data@, pos + 4, tsb, joined_path(x.path).push(0u8));
            crate::bytes::lemma_u32_le_at(x.size);
            assert(u32_at(data@, pos as int) == u32_at(data@.subrange(pos as int, pos + 4), 0));
            if ts {
                crate::bytes::lemma_u32_le_at(x.timestamp);
                assert(u32_at(data@, pos + 4) == u32_at(data@.subrange(pos + 4, pos + 8), 0));
            }
        }
    }
    if data.len() - pos < 4 {
        return Err(PackError::BadFormat);
    }
    let size = read_u32(data, pos);
    let mut at = pos + 4;
    let mut timestamp: u32 = 0;
    if ts {
        if data.len() - at < 4 {
            return Err(PackError::BadFormat);
        }
        timestamp = read_u32(data, at);
        at = at + 4;
    }
    let (path, next) = read_path_record(data, at, Ghost(full), Ghost(if ok0 { Some(x.path) } else { None }))?;
    let e = PackedFile { path, size, timestamp, data: Vec::new() };
    proof {
        lemma_u32_round_trip(data@, pos as int);
        if ts {
            lemma_u32_round_trip(data@, pos + 4);
        }
        assert(data@.subrange(pos as int, next as int) =~= data@.subrange(pos as int, pos + 4)
            + data@.subrange(pos + 4, at as int) + data@.subrange(at as int, next as int));
        assert(data@.subrange(pos + 4, at as int) =~= (if ts { u32_le(timestamp) } else { Seq::<u8>::empty() }));
    }
    Ok((e, next))
}

proof fn lemma_index_concat(a: Seq<PackedFileView>, b: Seq<PackedFileView>, ts: bool)
    ensures
        index_bytes(a + b, ts) == index_bytes(a, ts) + index_bytes(b, ts),
    decreases b.len(),
{
    if b.len() == 0 {
        assert(a + b =~= a);
        assert(index_bytes(a, ts) + index_bytes(b, ts) =~= index_bytes(a, ts));
    } else {
        lemma_index_concat(a, b.drop_last(), ts);
        assert((a + b).drop_last() =~= a + b.drop_last());
        assert((a + b).last() == b.last());
    }
}

proof fn lemma_index_at(xs: Seq<PackedFileView>, i: int, ts: bool)
    requires
        0 <= i < xs.len(),
    ensures
        index_bytes(xs, ts) == index_bytes(xs.subrange(0, i), ts) + (index_record(xs[i], ts) + index_bytes(xs.subrange(i + 1, xs.len() as int), ts)),
{
    let one = seq![xs[i]];
    assert(one.drop_last() =~= Seq::<PackedFileView>::empty());
    assert(index_bytes(one, ts) == index_bytes(one.drop_last(), ts) + index_record(one.last(), ts));
    assert(index_bytes(one, ts) =~= index_record(xs[i], ts));
    lemma_index_concat(one, xs.subrange(i + 1, xs.len() as int), ts);
    lemma_index_concat(xs.subrange(0, i), one + xs.subrange(i + 1, xs.len() as int), ts);
    assert(xs =~= xs.subrange(0, i) + (one + xs.subrange(i + 1, xs.len() as int)));
}

fn read_index(data: &[u8], pos: usize, count: u32, ts: bool, Ghost(full): Ghost<Seq<u8>>, Ghost(expect): Ghost<Option<Seq<PackedFileView>>>) -> (r: Result<(Vec<PackedFile>, usize), PackError>)
    requires
        pos <= data@.len(),
    ensures
        r matches Ok((es, next)) ==> {
            &&& pos <= next <= data@.len()
            &&& es@.len() == count
            &&& data@.subrange(pos as int, next as int) == index_bytes(entries_view(es@), ts)
            &&& forall|k: int| 0 <= k < es@.len() ==> (#[trigger] es@[k])@.path.len() > 0 && entry_plain(es@[k]@, ts)
        },
        r matches Err(e) ==> e == PackError::BadFormat || e == PackError::BadEncoding,
        expect matches Some(xs) ==> (xs.len() == count && is_prefix(data@, full) && holds_at(full, pos as int, index_bytes(xs, ts))
            && (forall|k: int| 0 <= k < xs.len() ==> entry_plain(#[trigger] xs[k], ts))
            ==> if pos + index_bytes(xs, ts).len() <= data@.len() {
                r matches Ok((es, next)) && forall|k: int| 0 <= k < xs.len() ==> same_index_fields((#[trigger] es@[k])@, xs[k])
            } else {
                r == Err::<(Vec<PackedFile>, usize), PackError>(PackError::BadFormat)
            }),
{
    let ghost ok = expect matches Some(xs) && xs.len() == count && is_prefix(data@, full) && holds_at(full, pos as int, index_bytes(xs, ts))
        && (forall|k: int| 0 <= k < xs.len() ==> entry_plain(#[trigger] xs[k], ts));
    let ghost xs = if ok { expect->Some_0 } else { Seq::empty() };
    let mut es: Vec<PackedFile> = Vec::new();
    let mut at = pos;
    let mut i: u32 = 0;
    assert(data@.subrange(pos as int, pos as int) =~= index_bytes(entries_view(es@), ts));
    while i < count
        invariant
            pos <= at <= data@.len(),
            es@.len() == i,
            i <= count,
            data@.subrange(pos as int, at as int) == index_bytes(entries_view(es@), ts),
            forall|k: int| 0 <= k < es@.len() ==> (#[trigger] es@[k])@.path.len() > 0 && entry_plain(es@[k]@, ts),
            ok == (expect matches Some(y) && y.len() == count && is_prefix(data@, full) && holds_at(full, pos as int, index_bytes(y, ts))
                && (forall|k: int| 0 <= k < y.len() ==> entry_plain(#[trigger] y[k], ts))),
            ok ==> expect == Some(xs),
            ok ==> at == pos + index_bytes(xs.subrange(0, i as int), ts).len(),
            ok ==> forall|k: int| 0 <= k < i ==> same_index_fields((#[trigger] es@[k])@, xs[k]),
        decreases count - i,
    {
        proof {
            if ok {
                lemma_index_at(xs, i as int, ts);
                lemma_holds_split(full, pos as int, index_bytes(xs.subrange(0, i as int), ts),
                    index_record(xs[i as int], ts) + index_bytes(xs.subrange(i + 1, xs.len() as int), ts));
                lemma_holds_split(full, at as int, index_record(xs[i as int], ts), index_bytes(xs.subrange(i + 1, xs.len() as int), ts));
                assert(entry_plain(xs[i as int], ts));
            }
        }
        let (e, next) = read_index_record(data, at, ts, Ghost(full), Ghost(if ok { Some(xs[i as int]) } else { None }))?;
        let ghost before = es@;
        es.push(e);
        proof {
            assert(entries_view(es@).drop_last() =~= entries_view(before));
            assert(data@.subrange(pos as int, next as int) =~= data@.subrange(pos as int, at as int) + data@.subrange(at as int, next as int));
            if ok {
                assert(xs.subrange(0, i + 1).drop_last() =~= xs.subrange(0, i as int));
                assert(xs.subrange(0, i + 1).last() == xs[i as int]);
                assert(index_bytes(xs.subrange(0, i + 1), ts) == index_bytes(xs.subrange(0, i as int), ts) + index_record(xs[i as int], ts));
                assert forall|k: int| 0 <= k < i + 1 implies same_index_fields((#[trigger] es@[k])@, xs[k]) by {
                    if k < i {
                        assert(es@[k] == before[k]);
                    }
                }
            }
        }
        at = next;
        i += 1;
    }
    proof {
        if ok {
            assert(xs.subrange(0, count as int) =~= xs);
        }
    }
    Ok((es, at))
}

proof fn lemma_index_bytes_ignore_data(a: Seq<PackedFileView>, b: Seq<PackedFileView>, ts: bool)
    requires
        a.len() == b.len(),
        forall|k: int| #![trigger a[k]] 0 <= k < a.len() ==> a[k].path == b[k].path && a[k].size == b[k].size && a[k].timestamp == b[k].timestamp,
    ensures
        index_bytes(a, ts) == index_bytes(b, ts),
    decreases a.len(),
{
    if a.len() > 0 {
        let a0 = a.drop_last();
        let b0 = b.drop_last();
        assert forall|k: int| #![trigger a0[k]] 0 <= k < a0.len() implies a0[k].path == b0[k].path && a0[k].size == b0[k].size && a0[k].timestamp == b0[k].timestamp by {
            assert(a0[k] == a[k] && b0[k] == b[k]);
        }
        lemma_index_bytes_ignore_data(a0, b0, ts);
        assert(a.last().path == b.last().path && a.last().size == b.last().size && a.last().timestamp == b.last().timestamp) by {
            assert(a.last() == a[a.len() - 1] && b.last() == b[b.len() - 1]);
        }
    }
}

proof fn lemma_payload_concat(a: Seq<PackedFileView>, b: Seq<PackedFileView>)
    ensures
        payload_bytes(a + b) == payload_bytes(a) + payload_bytes(b),
    decreases b.len(),
{
    if b.len() == 0 {
        assert(a + b =~= a);
        assert(payload_bytes(a) + payload_bytes(b) =~= payload_bytes(a));
    } else {
        lemma_payload_concat(a, b.drop_last());
        assert((a + b).drop_last() =~= a + b.drop_last());
        assert((a + b).last() == b.last());
    }
}

proof fn lemma_payload_at(xs: Seq<PackedFileView>, i: int)
    requires
        0 <= i < xs.len(),
    ensures
        payload_bytes(xs) == payload_bytes(xs.subrange(0, i)) + (xs[i].data + payload_bytes(xs.subrange(i + 1, xs.len() as int))),
{
    let one = seq![xs[i]];
    assert(one.drop_last() =~= Seq::<PackedFileView>::empty());
    assert(payload_bytes(one) == payload_bytes(one.drop_last()) + one.last().data);
    assert(payload_bytes(one) =~= xs[i].data);
    lemma_payload_concat(one, xs.subrange(i + 1, xs.len() as int));
    lemma_payload_concat(xs.subrange(0, i), one + xs.subrange(i + 1, xs.len() as int));
    assert(xs =~= xs.subrange(0, i) + (one + xs.subrange(i + 1, xs.len() as int)));
}

/// Gives each entry its bytes, taken back to back from `pos` to the end.
/// When the rest of `data` is the bytes of the entries `expect`, with the
/// sizes of `es`, it takes exactly those.
fn read_payloads(data: &[u8], pos: usize, es: &Vec<PackedFile>, Ghost(full): Ghost<Seq<u8>>, Ghost(expect): Ghost<Option<Seq<PackedFileView>>>) -> (r: Result<Vec<PackedFile>, PackError>)
    requires
        pos <= data@.len(),
    ensures
        r matches Ok(out) ==> {
            &&& out@.len() == es@.len()
            &&& forall|k: int| 0 <= k < out@.len() ==> (#[trigger] out@[k])@ == (PackedFileView { data: out@[k]@.data, ..es@[k]@ })
                && out@[k]@.data.len() == es@[k]@.size
            &&& data@.subrange(pos as int, data@.len() as int) == payload_bytes(entries_view(out@))
        },
        expect matches Some(xs) ==> (xs.len() == es@.len()
            && (forall|k: int| 0 <= k < xs.len() ==> (#[trigger] xs[k]).size == es@[k]@.size && xs[k].data.len() == xs[k].size)
            && is_prefix(data@, full) && full.subrange(pos as int, full.len() as int) == payload_bytes(xs)
            ==> if data@.len() == full.len() {
                r matches Ok(out) && forall|k: int| 0 <= k < xs.len() ==> (#[trigger] out@[k])@.data == xs[k].data
            } else {
                r == Err::<Vec<PackedFile>, PackError>(PackError::BadFormat)
            }),
        r is Err ==> r == Err::<Vec<PackedFile>, PackError>(PackError::BadFormat),
{
    let ghost ok = expect matches Some(xs) && xs.len() == es@.len()
        && (forall|k: int| 0 <= k < xs.len() ==> (#[trigger] xs[k]).size == es@[k]@.size && xs[k].data.len() == xs[k].size)
        && is_prefix(data@, full) && full.subrange(pos as int, full.len() as int) == payload_bytes(xs);
    let ghost xs = if ok { expect->Some_0 } else { Seq::empty() };
    let mut out: Vec<PackedFile> = Vec::new();
    let mut at = pos;
    let mut i: usize = 0;
    assert(data@.subrange(pos as int, pos as int) =~= payload_bytes(entries_view(out@)));
    assert(ok ==> holds_at(full, pos as int, payload_bytes(xs)));
    while i < es.len()
        invariant
            pos <= at <= data@.len(),
            out@.len() == i,
            i <= es@.len(),
            data@.subrange(pos as int, at as int) == payload_bytes(entries_view(out@)),
            forall|k: int| 0 <= k < out@.len() ==> (#[trigger] out@[k])@ == (PackedFileView { data: out@[k]@.data, ..es@[k]@ })
                && out@[k]@.data.len() == es@[k]@.size,
            ok == (expect matches Some(y) && y.len() == es@.len()
                && (forall|k: int| 0 <= k < y.len() ==> (#[trigger] y[k]).size == es@[k]@.size && y[k].data.len() == y[k].size)
                && is_prefix(data@, full) && full.subrange(pos as int, full.len() as int) == payload_bytes(y)),
            ok ==> expect == Some(xs),
            ok ==> holds_at(full, pos as int, payload_bytes(xs)) && pos + payload_bytes(xs).len() == full.len(),
            ok ==> at == pos + payload_bytes(xs.subrange(0, i as int)).len(),
            ok ==> forall|k: int| 0 <= k < i ==> (#[trigger] out@[k])@.data == xs[k].data,
        decreases es.len() - i,
    {
        let e = &es[i];
        proof {
            if ok {
                lemma_payload_at(xs, i as int);
                lemma_holds_split(full, pos as int, payload_bytes(xs.subrange(0, i as int)),
                    xs[i as int].data + payload_bytes(xs.subrange(i + 1, xs.len() as int)));
                lemma_holds_split(full, at as int, xs[i as int].data, payload_bytes(xs.subrange(i + 1, xs.len() as int)));
                assert(xs[i as int].size == e@.size);
                if at + xs[i as int].data.len() <= data@.len() {
                    lemma_prefix_holds(data@, full, at as int, xs[i as int].data);
                }
            }
        }
        if ((data.len() - at) as u64) < (e.size as u64) {
            return Err(PackError::BadFormat);
        }
        let end = at + e.size as usize;
        let copy = PackedFile {
            path: crate::model::copy_path(e.path.as_slice()),
            size: e.size,
            timestamp: e.timestamp,
            data: copy_range(data, at, end),
        };
        let ghost before = out@;
        out.push(copy);
        proof {
            assert(entries_view(out@).drop_last() =~= entries_view(before));
            assert(data@.subrange(pos as int, end as int) =~= data@.subrange(pos as int, at as int) + data@.subrange(at as int, end as int));
            assert(out@[i as int]@ == (PackedFileView { data: out@[i as int]@.data, ..es@[i as int]@ }));
            if ok {
                assert(xs.subrange(0, i + 1).drop_last() =~= xs.subrange(0, i as int));
                assert(xs.subrange(0, i + 1).last() == xs[i as int]);
                assert(payload_bytes(xs.subrange(0, i + 1)) == payload_bytes(xs.subrange(0, i as int)) + xs[i as int].data);
                assert forall|k: int| 0 <= k < i + 1 implies (#[trigger] out@[k])@.data == xs[k].data by {
                    if k < i {
                        assert(out@[k] == before[k]);
                    }
                }
            }
        }
        at = end;
        i += 1;
    }
    proof {
        if ok {
            assert(xs.subrange(0, i as int) =~= xs);
        }
    }
    if at != data.len() {
        return Err(PackError::BadFormat);
    }
    Ok(out)
}

/// Whether no two entries share a path.
fn check_unique(es: &Vec<PackedFile>) -> (r: bool)
    ensures
        r == crate::model::paths_unique(entries_view(es@)),
{
    let ghost v = entries_view(es@);
    let mut i: usize = 0;
    while i < es.len()
        invariant
            v == entries_view(es@),
            0 <= i <= es@.len(),
            forall|a: int, b: int| 0 <= a < i && 0 <= b < es@.len() && a != b ==> #[trigger] v[a].path != #[trigger] v[b].path,
        decreases es.len() - i,
    {
        let mut j: usize = 0;
        while j < es.len()
            invariant
                v == entries_view(es@),
                0 <= i < es@.len(),
                0 <= j <= es@.len(),
                forall|a: int, b: int| 0 <= a < i && 0 <= b < es@.len() && a != b ==> #[trigger] v[a].path != #[trigger] v[b].path,
                forall|b: int| 0 <= b < j && b != i ==> v[i as int].path != #[trigger] v[b].path,
            decreases es.len() - j,
        {
            if j != i && path_eq(es[i].path.as_slice(), es[j].path.as_slice()) {
                assert(v[i as int].path == v[j as int].path);
                return false;
            }
            j += 1;
        }
        i += 1;
    }
    true
}

/// The four bytes are one of the known magics.
pub open spec fn known_magic(b: Seq<u8>) -> bool {
    exists|id: PackFileId| magic_bytes(id) == b
}

/// The archive is encrypted by index or by data.
pub open spec fn encrypted(flags: u32) -> bool {
    flags & (HAS_ENCRYPTED_INDEX | HAS_ENCRYPTED_DATA) != 0
}

proof fn lemma_flags_split(raw: u32)
    ensures
        ((raw & 0xffff_fff0u32) | (raw & 0xfu32)) == raw,
        (raw & 0xffff_fff0u32) & HAS_INDEX_WITH_TIMESTAMPS != 0 <==> raw & HAS_INDEX_WITH_TIMESTAMPS != 0,
{
    assert(((raw & 0xffff_fff0u32) | (raw & 0xfu32)) == raw) by (bit_vector);
    assert((raw & 0xffff_fff0u32) & 0x40u32 != 0 <==> raw & 0x40u32 != 0) by (bit_vector);
}

fn read_magic(data: &[u8]) -> (r: Option<PackFileId>)
    requires
        data@.len() >= 4,
    ensures
        r matches Some(id) ==> magic_bytes(id) == data@.subrange(0, 4),
        r is None ==> !known_magic(data@.subrange(0, 4)),
{
    let ghost head = data@.subrange(0, 4);
    if data[0] != 80u8 || data[1] != 70u8 || data[2] != 72u8 {
        assert forall|id: PackFileId| magic_bytes(id) != head by {
            assert(magic_bytes(id)[0] == 80u8 && magic_bytes(id)[1] == 70u8 && magic_bytes(id)[2] == 72u8);
        }
        return None;
    }
    let id = match data[3] {
        53u8 => PackFileId::Pfh5,
        52u8 => PackFileId::Pfh4,
        51u8 => PackFileId::Pfh3,
        48u8 => PackFileId::Pfh0,
        _ => {
            assert forall|id: PackFileId| magic_bytes(id) != head by {
                assert(magic_bytes(id)[3] != data@[3]);
            }
            return None;
        },
    };
    assert(magic_bytes(id) =~= head);
    Some(id)
}

/// An archive value that its encoding gives back: well-formed entries,
/// plain paths and parent names, the type and the flags in their own bits,
/// no encryption, no timestamps unless the archive keeps them, sizes that
/// fit the header, and a name that ends in `.pack`.
#[verifier::opaque]
pub open spec fn decodable(v: PackFileView) -> bool {
    &&& entries_wf(v.entries)
    &&& forall|i: int| 0 <= i < v.entries.len() ==> entry_plain(#[trigger] v.entries[i], has_timestamps(v.bitmask))
    &&& parents_plain(v.parents)
    &&& v.bitmask & 0xf == 0
    &&& v.pack_file_type < 16
    &&& !encrypted(flags_word(v))
    &&& encodable(v)
    &&& crate::model::ends_with_chars(v.name, ".pack"@)
}

proof fn lemma_flags_join(b: u32, t: u32)
    requires
        b & 0xf == 0,
        t < 16,
    ensures
        (b | t) & 0xffff_fff0u32 == b,
        (b | t) & 0xfu32 == t,
{
    assert((b | t) & 0xffff_fff0u32 == b) by (bit_vector)
        requires b & 0xf == 0, t < 16;
    assert((b | t) & 0xfu32 == t) by (bit_vector)
        requires b & 0xf == 0, t < 16;
}

proof fn lemma_layout(d: Seq<u8>, v: PackFileView)
    requires
        decodable(v),
        encode_spec(v) == d,
    ensures
        ({
            let pb = parents_bytes(v.parents);
            let ib = index_bytes(v.entries, has_timestamps(v.bitmask));
            let pl = pb.len() as int;
            let il = ib.len() as int;
            &&& d.len() >= 28
            &&& encodable(v)
            &&& crate::model::ends_with_chars(v.name, ".pack"@)
            &&& !encrypted(flags_word(v))
            &&& d.subrange(0, 4) == magic_bytes(v.id)
            &&& known_magic(d.subrange(0, 4))
            &&& u32_at(d, 4) == flags_word(v)
            &&& u32_at(d, 8) == v.parents.len() as u32
            &&& u32_at(d, 12) == pl as u32
            &&& u32_at(d, 16) == v.entries.len() as u32
            &&& u32_at(d, 20) == il as u32
            &&& flags_word(v) & 0xffff_fff0u32 == v.bitmask
            &&& flags_word(v) & 0xfu32 == v.pack_file_type
            &&& holds_at(d, 28, pb)
            &&& holds_at(d, 28 + pl, ib)
            &&& d.subrange(28 + pl + il, d.len() as int) == payload_bytes(v.entries)
        }),
{
    reveal(decodable);
    let hb = header_bytes(v);
    let pb = parents_bytes(v.parents);
    let ib = index_bytes(v.entries, has_timestamps(v.bitmask));
    let yb = payload_bytes(v.entries);
    let pl = pb.len() as int;
    let il = ib.len() as int;
    assert(hb.len() == 28);
    assert(d == hb + pb + ib + yb);
    assert(d.subrange(0, 28) =~= hb);
    assert(d.subrange(28, 28 + pl) =~= pb);
    assert(d.subrange(28 + pl, 28 + pl + il) =~= ib);
    assert(d.subrange(28 + pl + il, d.len() as int) =~= yb);
    assert(d.subrange(0, 4) =~= magic_bytes(v.id));
    assert(d.subrange(4, 8) =~= u32_le(flags_word(v)));
    assert(d.subrange(8, 12) =~= u32_le(v.parents.len() as u32));
    assert(d.subrange(12, 16) =~= u32_le(pb.len() as u32));
    assert(d.subrange(16, 20) =~= u32_le(v.entries.len() as u32));
    assert(d.subrange(20, 24) =~= u32_le(ib.len() as u32));
    crate::bytes::lemma_u32_le_at(flags_word(v));
    crate::bytes::lemma_u32_le_at(v.parents.len() as u32);
    crate::bytes::lemma_u32_le_at(pb.len() as u32);
    crate::bytes::lemma_u32_le_at(v.entries.len() as u32);
    crate::bytes::lemma_u32_le_at(ib.len() as u32);
    assert(u32_at(d, 4) == u32_at(d.subrange(4, 8), 0));
    assert(u32_at(d, 8) == u32_at(d.subrange(8, 12), 0));
    assert(u32_at(d, 12) == u32_at(d.subrange(12, 16), 0));
    assert(u32_at(d, 16) == u32_at(d.subrange(16, 20), 0));
    assert(u32_at(d, 20) == u32_at(d.subrange(20, 24), 0));
    lemma_flags_join(v.bitmask, v.pack_file_type);
}

/// The parent names and the entries after the header: their bytes fill the
/// rest of `data` and match the header's counts and sizes. When `data` is
/// the beginning of bytes `full` whose rest is the encoding of the parents
/// and entries of `expect`, it succeeds if `data` is all of `full` and fails
/// with `BadFormat` otherwise.
fn read_sections(
    data: &[u8],
    parent_count: u32,
    parent_size: u32,
    entry_count: u32,
    index_size: u32,
    ts: bool,
    Ghost(full): Ghost<Seq<u8>>,
    Ghost(expect): Ghost<Option<PackFileView>>,
) -> (r: Result<(Vec<String>, Vec<PackedFile>), PackError>)
    requires
        data@.len() >= HEADER_SIZE,
    ensures
        r matches Ok((ps, es)) ==> {
            let pb = parents_bytes(path_view(ps@));
            let ib = index_bytes(entries_view(es@), ts);
            &&& ps@.len() == parent_count
            &&& es@.len() == entry_count
            &&& pb.len() == parent_size
            &&& ib.len() == index_size
            &&& entries_wf(entries_view(es@))
            &&& parents_plain(path_view(ps@))
            &&& forall|k: int| 0 <= k < es@.len() ==> entry_plain(#[trigger] entries_view(es@)[k], ts)
            &&& data@.subrange(28, data@.len() as int) == pb + ib + payload_bytes(entries_view(es@))
        },
        expect matches Some(v) ==> ({
            let pl = parents_bytes(v.parents).len() as int;
            let il = index_bytes(v.entries, ts).len() as int;
            decodable(v) && ts == has_timestamps(v.bitmask) && parent_count == v.parents.len() && parent_size == pl
                && entry_count == v.entries.len() && index_size == il && is_prefix(data@, full)
                && holds_at(full, 28, parents_bytes(v.parents)) && holds_at(full, 28 + pl, index_bytes(v.entries, ts))
                && full.subrange(28 + pl + il, full.len() as int) == payload_bytes(v.entries)
        } ==> if data@.len() == full.len() {
            r is Ok
        } else {
            r == Err::<(Vec<String>, Vec<PackedFile>), PackError>(PackError::BadFormat)
        }),
        r matches Err(e) ==> e == PackError::BadFormat || e == PackError::BadEncoding,
{
    let ghost ok = expect matches Some(v) && ({
        let pl = parents_bytes(v.parents).len() as int;
        let il = index_bytes(v.entries, ts).len() as int;
        decodable(v) && ts == has_timestamps(v.bitmask) && parent_count == v.parents.len() && parent_size == pl
            && entry_count == v.entries.len() && index_size == il && is_prefix(data@, full)
            && holds_at(full, 28, parents_bytes(v.parents)) && holds_at(full, 28 + pl, index_bytes(v.entries, ts))
            && full.subrange(28 + pl + il, full.len() as int) == payload_bytes(v.entries)
    });
    let ghost tv = if ok { expect->Some_0 } else { arbitrary() };
    let ghost ib = index_bytes(tv.entries, ts);
    proof {
        reveal(decodable);
    }
    let (parents, p1) = read_parents(data, HEADER_SIZE, parent_count, Ghost(full), Ghost(if ok { Some(tv.parents) } else { None }))?;
    if (p1 - HEADER_SIZE) as u64 != parent_size as u64 {
        return Err(PackError::BadFormat);
    }
    let (index, p2) = read_index(data, p1, entry_count, ts, Ghost(full), Ghost(if ok { Some(tv.entries) } else { None }))?;
    proof {
        if ok {
            assert forall|k: int| #![trigger entries_view(index@)[k]] 0 <= k < entries_view(index@).len() implies
                entries_view(index@)[k].path == tv.entries[k].path && entries_view(index@)[k].size == tv.entries[k].size
                && entries_view(index@)[k].timestamp == tv.entries[k].timestamp by {
                assert(same_index_fields(index@[k]@, tv.entries[k]));
            }
            lemma_index_bytes_ignore_data(entries_view(index@), tv.entries, ts);
            assert(p2 == p1 + ib.len());
            assert forall|k: int| 0 <= k < tv.entries.len() implies (#[trigger] tv.entries[k]).size == index@[k]@.size
                && tv.entries[k].data.len() == tv.entries[k].size by {
                assert(same_index_fields(index@[k]@, tv.entries[k]));
                assert(entry_wf(tv.entries[k]));
            }
        }
    }
    if (p2 - p1) as u64 != index_size as u64 {
        return Err(PackError::BadFormat);
    }
    let packed_files = read_payloads(data, p2, &index, Ghost(full), Ghost(if ok { Some(tv.entries) } else { None }))?;
    proof {
        if ok {
            assert forall|k: int| 0 <= k < tv.entries.len() implies #[trigger] entries_view(packed_files@)[k] == tv.entries[k] by {
                assert(same_index_fields(index@[k]@, tv.entries[k]));
                assert(packed_files@[k]@.data == tv.entries[k].data);
            }
            assert(entries_view(packed_files@) =~= tv.entries);
        }
    }
    if !check_unique(&packed_files) {
        return Err(PackError::BadFormat);
    }
    proof {
        let v = entries_view(packed_files@);
        lemma_index_bytes_ignore_data(v, entries_view(index@), ts);
        assert forall|k: int| 0 <= k < v.len() implies entry_wf(#[trigger] v[k]) by {
            assert(v[k] == packed_files@[k]@);
        }
        assert forall|k: int| 0 <= k < v.len() implies entry_plain(#[trigger] v[k], ts) by {
            assert(v[k] == packed_files@[k]@);
            assert(entry_plain(index@[k]@, ts));
        }
        assert(data@.subrange(28, data@.len() as int) =~= data@.subrange(28, p1 as int) + data@.subrange(p1 as int, p2 as int)
            + data@.subrange(p2 as int, data@.len() as int));
    }
    Ok((parents, packed_files))
}

proof fn lemma_read_sound(d: Seq<u8>, v: PackFileView, raw: u32)
    requires
        d.len() >= 28,
        magic_bytes(v.id) == d.subrange(0, 4),
        raw == u32_at(d, 4),
        v.bitmask == raw & 0xffff_fff0u32,
        v.pack_file_type == raw & 0xfu32,
        u32_at(d, 8) == v.parents.len(),
        u32_at(d, 12) == parents_bytes(v.parents).len(),
        u32_at(d, 16) == v.entries.len(),
        u32_at(d, 20) == index_bytes(v.entries, has_timestamps(v.bitmask)).len(),
        u32_at(d, 24) == v.creation_time,
        d.subrange(28, d.len() as int) == parents_bytes(v.parents) + index_bytes(v.entries, has_timestamps(v.bitmask))
            + payload_bytes(v.entries),
        raw & (HAS_ENCRYPTED_INDEX | HAS_ENCRYPTED_DATA) == 0,
        entries_wf(v.entries),
        parents_plain(v.parents),
        forall|k: int| 0 <= k < v.entries.len() ==> entry_plain(#[trigger] v.entries[k], has_timestamps(v.bitmask)),
        crate::model::ends_with_chars(v.name, ".pack"@),
    ensures
        encodable(v),
        encode_spec(v) == d,
        decodable(v),
{
    reveal(decodable);
    assert((raw & 0xffff_fff0u32) & 0xf == 0) by (bit_vector);
    assert(raw & 0xfu32 < 16) by (bit_vector);
    lemma_flags_split(raw);
    lemma_u32_round_trip(d, 4);
    lemma_u32_round_trip(d, 8);
    lemma_u32_round_trip(d, 12);
    lemma_u32_round_trip(d, 16);
    lemma_u32_round_trip(d, 20);
    lemma_u32_round_trip(d, 24);
    assert(header_bytes(v) =~= d.subrange(0, 28));
    assert(d =~= d.subrange(0, 28) + d.subrange(28, d.len() as int));
}

proof fn lemma_record_prefix(x: PackedFileView, y: PackedFileView, r1: Seq<u8>, r2: Seq<u8>, ts: bool)
    requires
        entry_plain(x, ts),
        entry_plain(y, ts),
        index_record(x, ts) + r1 == index_record(y, ts) + r2,
    ensures
        x.size == y.size,
        r1 == r2,
{
    let tx: Seq<u8> = if ts { u32_le(x.timestamp) } else { Seq::empty() };
    let ty: Seq<u8> = if ts { u32_le(y.timestamp) } else { Seq::empty() };
    let jx = joined_path(x.path);
    let jy = joined_path(y.path);
    let a = index_record(x, ts) + r1;
    let b = index_record(y, ts) + r2;
    assert(a =~= u32_le(x.size) + tx + jx + seq![0u8] + r1);
    assert(b =~= u32_le(y.size) + ty + jy + seq![0u8] + r2);
    assert(a.subrange(0, 4) =~= u32_le(x.size));
    assert(b.subrange(0, 4) =~= u32_le(y.size));
    crate::bytes::lemma_u32_le_at(x.size);
    crate::bytes::lemma_u32_le_at(y.size);
    let o: int = 4 + tx.len() as int;
    assert(tx.len() == ty.len());
    assert forall|i: int| 0 <= i < x.path.len() implies avoids(#[trigger] x.path[i], '\0') by {}
    assert forall|i: int| 0 <= i < y.path.len() implies avoids(#[trigger] y.path[i], '\0') by {}
    lemma_joined_avoids_nul(x.path);
    lemma_joined_avoids_nul(y.path);
    if jx.len() < jy.len() {
        assert(a[o + jx.len() as int] == 0u8);
        assert(b[o + jx.len() as int] == jy[jx.len() as int]);
    } else if jy.len() < jx.len() {
        assert(b[o + jy.len() as int] == 0u8);
        assert(a[o + jy.len() as int] == jx[jy.len() as int]);
    }
    let start: int = o + jx.len() as int + 1;
    assert(r1 =~= a.subrange(start, a.len() as int));
    assert(r2 =~= b.subrange(start, b.len() as int));
}

proof fn lemma_index_sizes(xs: Seq<PackedFileView>, ys: Seq<PackedFileView>, ts: bool)
    requires
        xs.len() == ys.len(),
        forall|k: int| 0 <= k < xs.len() ==> entry_plain(#[trigger] xs[k], ts),
        forall|k: int| 0 <= k < ys.len() ==> entry_plain(#[trigger] ys[k], ts),
        index_bytes(xs, ts) == index_bytes(ys, ts),
    ensures
        forall|k: int| 0 <= k < xs.len() ==> #[trigger] xs[k].size == ys[k].size,
    decreases xs.len(),
{
    if xs.len() > 0 {
        lemma_index_at(xs, 0, ts);
        lemma_index_at(ys, 0, ts);
        assert(xs.subrange(0, 0) =~= Seq::<PackedFileView>::empty());
        assert(ys.subrange(0, 0) =~= Seq::<PackedFileView>::empty());
        let x1 = xs.subrange(1, xs.len() as int);
        let y1 = ys.subrange(1, ys.len() as int);
        assert(index_bytes(xs, ts) =~= index_record(xs[0], ts) + index_bytes(x1, ts));
        assert(index_bytes(ys, ts) =~= index_record(ys[0], ts) + index_bytes(y1, ts));
        lemma_record_prefix(xs[0], ys[0], index_bytes(x1, ts), index_bytes(y1, ts), ts);
        assert forall|k: int| 0 <= k < x1.len() implies entry_plain(#[trigger] x1[k], ts) by {
            assert(x1[k] == xs[k + 1]);
        }
        assert forall|k: int| 0 <= k < y1.len() implies entry_plain(#[trigger] y1[k], ts) by {
            assert(y1[k] == ys[k + 1]);
        }
        lemma_index_sizes(x1, y1, ts);
        assert forall|k: int| 0 <= k < xs.len() implies #[trigger] xs[k].size == ys[k].size by {
            if k > 0 {
                assert(x1[k - 1] == xs[k] && y1[k - 1] == ys[k]);
            }
        }
    }
}

proof fn lemma_payload_len(xs: Seq<PackedFileView>, ys: Seq<PackedFileView>)
    requires
        xs.len() == ys.len(),
        forall|k: int| 0 <= k < xs.len() ==> (#[trigger] xs[k]).data.len() == ys[k].data.len(),
    ensures
        payload_bytes(xs).len() == payload_bytes(ys).len(),
    decreases xs.len(),
{
    if xs.len() > 0 {
        let x0 = xs.drop_last();
        let y0 = ys.drop_last();
        assert forall|k: int| 0 <= k < x0.len() implies (#[trigger] x0[k]).data.len() == y0[k].data.len() by {
            assert(x0[k] == xs[k] && y0[k] == ys[k]);
        }
        lemma_payload_len(x0, y0);
        assert(xs.last() == xs[xs.len() - 1] && ys.last() == ys[ys.len() - 1]);
    }
}

/// A decodable archive's encoding that begins with the whole encoding of
/// another decodable archive is no longer than it.
proof fn lemma_encoding_length(v: PackFileView, w: PackFileView, d: Seq<u8>)
    requires
        decodable(v),
        decodable(w),
        encode_spec(v) == d,
        is_prefix(d, encode_spec(w)),
    ensures
        encode_spec(w).len() == d.len(),
{
    let fw = encode_spec(w);
    lemma_layout(d, v);
    lemma_layout(fw, w);
    assert(d.len() >= 28);
    assert forall|t: int| 0 <= t < d.len() implies d[t] == fw[t] by {
        assert(fw.subrange(0, d.len() as int)[t] == fw[t]);
    }
    let ts = has_timestamps(v.bitmask);
    assert(flags_word(v) == flags_word(w));
    assert(w.bitmask == v.bitmask);
    reveal(decodable);
    let pl = parents_bytes(v.parents).len() as int;
    let il = index_bytes(v.entries, ts).len() as int;
    assert(parents_bytes(w.parents).len() == pl);
    assert(index_bytes(w.entries, ts).len() == il);
    assert(w.entries.len() == v.entries.len());
    assert(d.subrange(28 + pl, 28 + pl + il) =~= fw.subrange(28 + pl, 28 + pl + il));
    lemma_index_sizes(v.entries, w.entries, ts);
    assert forall|k: int| 0 <= k < v.entries.len() implies (#[trigger] v.entries[k]).data.len() == w.entries[k].data.len() by {
        assert(entry_wf(v.entries[k]));
        assert(entry_wf(w.entries[k]));
        assert(v.entries[k].size == w.entries[k].size);
    }
    lemma_payload_len(v.entries, w.entries);
    assert(d.subrange(28 + pl + il, d.len() as int).len() == payload_bytes(v.entries).len());
    assert(fw.subrange(28 + pl + il, fw.len() as int).len() == payload_bytes(w.entries).len());
}

impl PackFile {
    /// Decodes an archive from its bytes on disk, to be shown under
    /// `file_name`. Fails with `BadName` unless the name ends in `.pack`,
    /// with `BadFormat` on a short header, an unknown magic, an index or a
    /// payload that does not match the header or the file's end, or two
    /// entries with one path, with `Unsupported` on an encrypted archive,
    /// and with `BadEncoding` on a name that is not UTF-8. It succeeds
    /// exactly on the encodings of the archives that `decodable` admits, and
    /// what it decodes encodes back to exactly `data`; bytes that stop
    /// before the end of such an encoding fail with `BadFormat`.
    pub fn read(data: &[u8], file_name: String) -> (r: Result<PackFile, PackError>)
        ensures
            !crate::model::ends_with_chars(file_name@, ".pack"@) ==> r == Err::<PackFile, PackError>(PackError::BadName),
            crate::model::ends_with_chars(file_name@, ".pack"@) && data@.len() < HEADER_SIZE
                ==> r == Err::<PackFile, PackError>(PackError::BadFormat),
            crate::model::ends_with_chars(file_name@, ".pack"@) && data@.len() >= HEADER_SIZE
                && !known_magic(data@.subrange(0, 4)) ==> r == Err::<PackFile, PackError>(PackError::BadFormat),
            crate::model::ends_with_chars(file_name@, ".pack"@) && data@.len() >= HEADER_SIZE
                && known_magic(data@.subrange(0, 4)) && encrypted(u32_at(data@, 4))
                ==> r == Err::<PackFile, PackError>(PackError::Unsupported),
            r matches Err(e) ==> e == PackError::BadName || e == PackError::BadFormat || e == PackError::Unsupported
                || e == PackError::BadEncoding,
            r matches Ok(pf) ==> pf.wf() && pf@.name == file_name@ && decodable(pf@) && encodable(pf@) && encode_spec(pf@) == data@,
            forall|v: PackFileView| decodable(v) && #[trigger] encode_spec(v) == data@ && v.name == file_name@ ==> r is Ok,
            forall|v: PackFileView| decodable(v) && v.name == file_name@ && is_prefix(data@, #[trigger] encode_spec(v))
                && data@.len() < encode_spec(v).len() ==> r == Err::<PackFile, PackError>(PackError::BadFormat),
    {
        let ghost has = exists|v: PackFileView| decodable(v) && v.name == file_name@ && is_prefix(data@, #[trigger] encode_spec(v));
        let ghost tv = if has {
            choose|v: PackFileView| decodable(v) && v.name == file_name@ && is_prefix(data@, #[trigger] encode_spec(v))
        } else {
            arbitrary()
        };
        let ghost full = encode_spec(tv);
        proof {
            assert forall|v: PackFileView| decodable(v) && #[trigger] encode_spec(v) == data@ && v.name == file_name@
                implies has by {
                assert(data@.subrange(0, data@.len() as int) =~= data@);
                assert(is_prefix(data@, encode_spec(v)));
            }
            if has {
                lemma_layout(full, tv);
                assert forall|v: PackFileView| decodable(v) && #[trigger] encode_spec(v) == data@ && v.name == file_name@
                    implies full.len() == data@.len() by {
                    lemma_encoding_length(v, tv, data@);
                }
                assert forall|v: PackFileView| decodable(v) && v.name == file_name@ && is_prefix(data@, #[trigger] encode_spec(v))
                    && data@.len() < encode_spec(v).len() implies data@.len() < full.len() by {
                    if data@.len() == full.len() {
                        assert(data@ =~= full);
                        lemma_encoding_length(tv, v, data@);
                    }
                }
                if data@.len() >= 28 {
                    assert forall|t: int| 0 <= t < 28 implies data@[t] == full[t] by {
                        assert(full.subrange(0, data@.len() as int)[t] == full[t]);
                    }
                    assert(data@.subrange(0, 4) =~= full.subrange(0, 4));
                    assert(u32_at(data@, 4) == u32_at(full, 4));
                    assert(u32_at(data@, 8) == u32_at(full, 8));
                    assert(u32_at(data@, 12) == u32_at(full, 12));
                    assert(u32_at(data@, 16) == u32_at(full, 16));
                    assert(u32_at(data@, 20) == u32_at(full, 20));
                }
            }
        }
        if !crate::model::str_ends_with(file_name.as_str(), ".pack") {
            return Err(PackError::BadName);
        }
        if data.len() < HEADER_SIZE {
            return Err(PackError::BadFormat);
        }
        let id = match read_magic(data) {
            Some(id) => id,
            None => {
                return Err(PackError::BadFormat);
            },
        };
        let raw = read_u32(data, 4);
        if raw & (HAS_ENCRYPTED_INDEX | HAS_ENCRYPTED_DATA) != 0 {
            return Err(PackError::Unsupported);
        }
        let bitmask = raw & 0xffff_fff0u32;
        let pack_file_type = raw & 0xfu32;
        let parent_count = read_u32(data, 8);
        let parent_size = read_u32(data, 12);
        let entry_count = read_u32(data, 16);
        let index_size = read_u32(data, 20);
        let creation_time = read_u32(data, 24);
        let ts = bitmask & HAS_INDEX_WITH_TIMESTAMPS != 0;
        let (parents, packed_files) = read_sections(data, parent_count, parent_size, entry_count, index_size, ts,
            Ghost(full), Ghost(if has { Some(tv) } else { None }))?;
        let pf = PackFile { id, pack_file_type, bitmask, creation_time, parents, packed_files, file_name };
        proof {
            lemma_read_sound(data@, pf@, raw);
        }
        Ok(pf)
    }
}

proof fn lemma_index_len(xs: Seq<PackedFileView>, ys: Seq<PackedFileView>, ts: bool)
    requires
        xs.len() == ys.len(),
        forall|k: int| 0 <= k < xs.len() ==> (#[trigger] index_record(xs[k], ts)).len() == index_record(ys[k], ts).len(),
    ensures
        index_bytes(xs, ts).len() == index_bytes(ys, ts).len(),
    decreases xs.len(),
{
    if xs.len() > 0 {
        let x0 = xs.drop_last();
        let y0 = ys.drop_last();
        assert forall|k: int| 0 <= k < x0.len() implies (#[trigger] index_record(x0[k], ts)).len() == index_record(y0[k], ts).len() by {
            assert(x0[k] == xs[k] && y0[k] == ys[k]);
        }
        lemma_index_len(x0, y0, ts);
        assert(xs.last() == xs[xs.len() - 1] && ys.last() == ys[ys.len() - 1]);
        assert(index_record(xs[xs.len() - 1], ts).len() == index_record(ys[ys.len() - 1], ts).len());
    }
}

/// Renaming an entry to a leaf name with as many UTF-8 bytes as its old
/// leaf keeps the length of the archive's encoding.
pub proof fn lemma_rename_keeps_size(v: PackFileView, i: int, name: Seq<char>)
    requires
        0 <= i < v.entries.len(),
        v.entries[i].path.len() > 0,
        encode_utf8(name).len() == encode_utf8(v.entries[i].path.last()).len(),
    ensures
        encode_spec(with_entries(
            v,
            v.entries.update(i, with_path(v.entries[i], renamed_path(v.entries[i].path, name))),
        )).len() == encode_spec(v).len(),
{
    let e = v.entries[i];
    let q = renamed_path(e.path, name);
    let es2 = v.entries.update(i, with_path(e, q));
    let w = with_entries(v, es2);
    let ts = has_timestamps(v.bitmask);
    lemma_joined_push(e.path.drop_last(), name);
    lemma_joined_push(e.path.drop_last(), e.path.last());
    assert(e.path.drop_last().push(e.path.last()) =~= e.path);
    assert(joined_path(q).len() == joined_path(e.path).len());
    assert forall|k: int| 0 <= k < v.entries.len() implies (#[trigger] index_record(v.entries[k], ts)).len() == index_record(es2[k], ts).len() by {
        if k == i {
            assert(es2[k] == with_path(e, q));
        } else {
            assert(es2[k] == v.entries[k]);
        }
    }
    lemma_index_len(v.entries, es2, ts);
    assert forall|k: int| 0 <= k < v.entries.len() implies (#[trigger] v.entries[k]).data.len() == es2[k].data.len() by {
        if k == i {
            assert(es2[k] == with_path(e, q));
        }
    }
    lemma_payload_len(v.entries, es2);
    assert(header_bytes(v).len() == 28);
    assert(header_bytes(w).len() == 28);
}

} // verus!
