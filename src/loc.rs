//! Localisation tables: rows of key, text and tooltip flag, stored with
//! UTF-16 text behind a 14-byte header.

use vstd::prelude::*;
use crate::bytes::{
    lemma_u16_round_trip, lemma_u32_round_trip, push_u16, push_u32, read_u16, read_u32, u16_at,
    u16_le, u32_at, u32_le,
};
use crate::bytes::{holds_at, is_prefix, lemma_holds_split, lemma_prefix_holds};
use crate::model::PackError;

verus! {

/// The UTF-16 code units of one character.
pub open spec fn utf16_char(c: char) -> Seq<u16> {
    let u = c as u32;
    if u < 0x10000 {
        seq![u as u16]
    } else {
        let v = (u - 0x10000) as int;
        seq![(0xd800 + v / 0x400) as u16, (0xdc00 + v % 0x400) as u16]
    }
}

/// The UTF-16 code units of a string.
pub open spec fn utf16_encode(s: Seq<char>) -> Seq<u16>
    decreases s.len(),
{
    if s.len() == 0 {
        Seq::empty()
    } else {
        utf16_char(s[0]) + utf16_encode(s.drop_first())
    }
}

/// Relies on `str::encode_utf16`: the string's characters as UTF-16 code
/// units, one unit below U+10000 and a surrogate pair above.
#[verifier::external_body]
fn utf16_units(s: &str) -> (r: Vec<u16>)
    ensures
        r@ == utf16_encode(s@),
{
    s.encode_utf16().collect()
}

/// Relies on `String::from_utf16`: it succeeds exactly on the code units
/// that encode some string, and returns that string.
#[verifier::external_body]
fn utf16_string(units: &[u16]) -> (r: Option<String>)
    ensures
        r is Some <==> exists|s: Seq<char>| utf16_encode(s) == units@,
        r matches Some(s) ==> utf16_encode(s@) == units@,
{
    String::from_utf16(units).ok()
}

proof fn lemma_utf16_char_shape(c: char)
    ensures
        (c as u32) < 0x10000 ==> utf16_char(c).len() == 1 && !(0xd800 <= utf16_char(c)[0] < 0xe000),
        (c as u32) >= 0x10000 ==> utf16_char(c).len() == 2 && 0xd800 <= utf16_char(c)[0] < 0xdc00,
{
    let u = c as u32;
    assert(vstd::utf8::is_scalar(u)) by {
        vstd::utf8::char_is_scalar(c);
    }
    if u >= 0x10000 {
        let v = (u - 0x10000) as int;
        assert(v <= 0xfffff);
        assert(v / 0x400 <= 0x3ff) by (nonlinear_arith)
            requires 0 <= v <= 0xfffff;
        assert(v / 0x400 >= 0) by (nonlinear_arith)
            requires 0 <= v;
    }
}

proof fn lemma_utf16_char_injective(a: char, b: char, ra: Seq<u16>, rb: Seq<u16>)
    requires
        utf16_char(a) + ra == utf16_char(b) + rb,
    ensures
        a == b,
        ra == rb,
{
    lemma_utf16_char_shape(a);
    lemma_utf16_char_shape(b);
    let ea = utf16_char(a);
    let eb = utf16_char(b);
    assert((ea + ra)[0] == ea[0]);
    assert((eb + rb)[0] == eb[0]);
    let ua = a as u32;
    let ub = b as u32;
    if ua < 0x10000 {
        assert(ub < 0x10000);
        assert(ua == ub);
        vstd::utf8::char_u32_cast(a, ua);
        vstd::utf8::char_u32_cast(b, ub);
        assert(ra =~= (ea + ra).subrange(1, (ea + ra).len() as int));
        assert(rb =~= (eb + rb).subrange(1, (eb + rb).len() as int));
    } else {
        assert(ub >= 0x10000);
        let va = (ua - 0x10000) as int;
        let vb = (ub - 0x10000) as int;
        assert((ea + ra)[1] == ea[1]);
        assert((eb + rb)[1] == eb[1]);
        assert(va / 0x400 <= 0x3ff && vb / 0x400 <= 0x3ff && va / 0x400 >= 0 && vb / 0x400 >= 0) by (nonlinear_arith)
            requires 0 <= va <= 0xfffff, 0 <= vb <= 0xfffff;
        assert(va / 0x400 == vb / 0x400);
        assert(va % 0x400 == vb % 0x400);
        assert(va == vb) by (nonlinear_arith)
            requires va / 0x400 == vb / 0x400, va % 0x400 == vb % 0x400, 0 <= va, 0 <= vb;
        vstd::utf8::char_u32_cast(a, ua);
        vstd::utf8::char_u32_cast(b, ub);
        assert(ra =~= (ea + ra).subrange(2, (ea + ra).len() as int));
        assert(rb =~= (eb + rb).subrange(2, (eb + rb).len() as int));
    }
}

/// Different strings have different UTF-16 code units.
pub proof fn lemma_utf16_injective(a: Seq<char>, b: Seq<char>)
    requires
        utf16_encode(a) == utf16_encode(b),
    ensures
        a == b,
    decreases a.len(),
{
    if a.len() == 0 {
        if b.len() > 0 {
            lemma_utf16_char_shape(b[0]);
        }
        assert(b.len() == 0);
        assert(a =~= b);
    } else {
        lemma_utf16_char_shape(a[0]);
        if b.len() == 0 {
            assert(utf16_encode(a).len() > 0);
        } else {
            lemma_utf16_char_injective(a[0], b[0], utf16_encode(a.drop_first()), utf16_encode(b.drop_first()));
            lemma_utf16_injective(a.drop_first(), b.drop_first());
            assert(a =~= seq![a[0]] + a.drop_first());
            assert(b =~= seq![b[0]] + b.drop_first());
        }
    }
}

/// Code units as little-endian bytes.
pub open spec fn units_bytes(u: Seq<u16>) -> Seq<u8>
    decreases u.len(),
{
    if u.len() == 0 {
        Seq::empty()
    } else {
        units_bytes(u.drop_last()) + u16_le(u.last())
    }
}

proof fn lemma_units_bytes_len(u: Seq<u16>)
    ensures
        units_bytes(u).len() == 2 * u.len(),
    decreases u.len(),
{
    if u.len() > 0 {
        lemma_units_bytes_len(u.drop_last());
    }
}

proof fn lemma_units_bytes_injective(a: Seq<u16>, b: Seq<u16>)
    requires
        a.len() == b.len(),
        units_bytes(a) == units_bytes(b),
    ensures
        a == b,
    decreases a.len(),
{
    if a.len() > 0 {
        lemma_units_bytes_len(a.drop_last());
        lemma_units_bytes_len(b.drop_last());
        let n = units_bytes(a.drop_last()).len() as int;
        assert(units_bytes(a.drop_last()) =~= units_bytes(a).subrange(0, n));
        assert(units_bytes(b.drop_last()) =~= units_bytes(b).subrange(0, n));
        assert(u16_le(a.last()) =~= units_bytes(a).subrange(n, n + 2));
        assert(u16_le(b.last()) =~= units_bytes(b).subrange(n, n + 2));
        crate::bytes::lemma_u16_le_at(a.last());
        crate::bytes::lemma_u16_le_at(b.last());
        lemma_units_bytes_injective(a.drop_last(), b.drop_last());
        assert(a =~= a.drop_last().push(a.last()));
        assert(b =~= b.drop_last().push(b.last()));
    }
}

/// A length-prefixed UTF-16 string.
pub open spec fn field_bytes(s: Seq<char>) -> Seq<u8> {
    u16_le(utf16_encode(s).len() as u16) + units_bytes(utf16_encode(s))
}

/// One row of a table.
pub struct LocEntry {
    pub key: String,
    pub text: String,
    pub tooltip: bool,
}

pub struct LocEntryView {
    pub key: Seq<char>,
    pub text: Seq<char>,
    pub tooltip: bool,
}

impl View for LocEntry {
    type V = LocEntryView;

    open spec fn view(&self) -> LocEntryView {
        LocEntryView { key: self.key@, text: self.text@, tooltip: self.tooltip }
    }
}

/// A localisation table: its rows in order.
pub struct Loc {
    pub entries: Vec<LocEntry>,
}

impl View for Loc {
    type V = Seq<LocEntryView>;

    open spec fn view(&self) -> Seq<LocEntryView> {
        self.entries@.map_values(|e: LocEntry| e@)
    }
}

pub open spec fn row_bytes(e: LocEntryView) -> Seq<u8> {
    field_bytes(e.key) + field_bytes(e.text) + seq![if e.tooltip { 1u8 } else { 0u8 }]
}

pub open spec fn rows_bytes(v: Seq<LocEntryView>) -> Seq<u8>
    decreases v.len(),
{
    if v.len() == 0 {
        Seq::empty()
    } else {
        rows_bytes(v.drop_last()) + row_bytes(v.last())
    }
}

/// The header: byte-order mark, `LOC` and a NUL, version 1, row count.
pub open spec fn loc_header(count: u32) -> Seq<u8> {
    seq![0xffu8, 0xfe, 0x4c, 0x4f, 0x43, 0x00] + u32_le(1) + u32_le(count)
}

/// A table as bytes.
pub open spec fn loc_encode(v: Seq<LocEntryView>) -> Seq<u8> {
    loc_header(v.len() as u32) + rows_bytes(v)
}

/// Every string fits its 16-bit length prefix and the rows their 32-bit count.
pub open spec fn loc_encodable(v: Seq<LocEntryView>) -> bool {
    &&& v.len() <= u32::MAX
    &&& forall|i: int| 0 <= i < v.len() ==> utf16_encode((#[trigger] v[i]).key).len() <= 0xffff
        && utf16_encode(v[i].text).len() <= 0xffff
}

proof fn lemma_rows_bytes_concat(a: Seq<LocEntryView>, b: Seq<LocEntryView>)
    ensures
        rows_bytes(a + b) == rows_bytes(a) + rows_bytes(b),
    decreases b.len(),
{
    if b.len() == 0 {
        assert(a + b =~= a);
        assert(rows_bytes(a) + rows_bytes(b) =~= rows_bytes(a));
    } else {
        lemma_rows_bytes_concat(a, b.drop_last());
        assert((a + b).drop_last() =~= a + b.drop_last());
        assert((a + b).last() == b.last());
    }
}

/// Appends a length-prefixed UTF-16 string.
fn push_field(out: &mut Vec<u8>, s: &String) -> (r: Result<(), PackError>)
    ensures
        r is Ok <==> utf16_encode(s@).len() <= 0xffff,
        r is Ok ==> final(out)@ == old(out)@ + field_bytes(s@),
        r is Err ==> r == Err::<(), PackError>(PackError::BadLength),
{
    let units = utf16_units(s.as_str());
    if units.len() > 0xffff {
        return Err(PackError::BadLength);
    }
    push_u16(out, units.len() as u16);
    let ghost start = out@;
    let mut k: usize = 0;
    assert(units@.subrange(0, 0) =~= Seq::<u16>::empty());
    assert(start + units_bytes(units@.subrange(0, 0)) =~= start);
    while k < units.len()
        invariant
            0 <= k <= units@.len(),
            out@ == start + units_bytes(units@.subrange(0, k as int)),
        decreases units.len() - k,
    {
        push_u16(out, units[k]);
        assert(units@.subrange(0, k + 1).drop_last() =~= units@.subrange(0, k as int));
        k += 1;
        assert(out@ =~= start + units_bytes(units@.subrange(0, k as int)));
    }
    assert(units@.subrange(0, units@.len() as int) =~= units@);
    assert(out@ =~= old(out)@ + field_bytes(s@));
    Ok(())
}

impl Loc {
    /// The table as bytes; fails with `BadLength` when a string has more
    /// than 65535 UTF-16 code units or there are more than 2^32 - 1 rows.
    pub fn save(&self) -> (r: Result<Vec<u8>, PackError>)
        ensures
            r is Ok <==> loc_encodable(self@),
            r matches Ok(b) ==> b@ == loc_encode(self@),
            r is Err ==> r == Err::<Vec<u8>, PackError>(PackError::BadLength),
    {
        if self.entries.len() > u32::MAX as usize {
            return Err(PackError::BadLength);
        }
        let mut out: Vec<u8> = Vec::new();
        out.push(0xffu8);
        out.push(0xfeu8);
        out.push(0x4cu8);
        out.push(0x4fu8);
        out.push(0x43u8);
        out.push(0x00u8);
        push_u32(&mut out, 1);
        push_u32(&mut out, self.entries.len() as u32);
        let ghost v = self@;
        assert(out@ =~= loc_header(v.len() as u32));
        let ghost head = out@;
        let mut i: usize = 0;
        assert(v.subrange(0, 0) =~= Seq::<LocEntryView>::empty());
        assert(head + rows_bytes(v.subrange(0, 0)) =~= head);
        while i < self.entries.len()
            invariant
                v == self@,
                0 <= i <= v.len(),
                out@ == head + rows_bytes(v.subrange(0, i as int)),
                forall|j: int| 0 <= j < i ==> utf16_encode((#[trigger] v[j]).key).len() <= 0xffff
                    && utf16_encode(v[j].text).len() <= 0xffff,
            decreases v.len() - i,
        {
            let e = &self.entries[i];
            assert(e@ == v[i as int]);
            let ghost before = out@;
            push_field(&mut out, &e.key)?;
            push_field(&mut out, &e.text)?;
            out.push(if e.tooltip { 1u8 } else { 0u8 });
            assert(v.subrange(0, i + 1).drop_last() =~= v.subrange(0, i as int));
            assert(out@ =~= before + row_bytes(v[i as int]));
            i += 1;
            assert(out@ =~= head + rows_bytes(v.subrange(0, i as int)));
        }
        assert(v.subrange(0, v.len() as int) =~= v);
        Ok(out)
    }
}

/// Reads a length-prefixed UTF-16 string at `at`. When `data` holds the
/// field of `expect` there, that is what it reads.
fn read_field(data: &[u8], at: usize, Ghost(full): Ghost<Seq<u8>>, Ghost(expect): Ghost<Option<Seq<char>>>) -> (r: Result<(String, usize), PackError>)
    requires
        at <= data@.len(),
    ensures
        r matches Ok((s, next)) ==> at < next <= data@.len() && data@.subrange(at as int, next as int) == field_bytes(s@)
            && utf16_encode(s@).len() <= 0xffff,
        r matches Err(e) ==> e == PackError::BadFormat || e == PackError::BadEncoding,
        expect matches Some(k) ==> (holds_at(data@, at as int, field_bytes(k)) && utf16_encode(k).len() <= 0xffff
            ==> (r matches Ok((s, next)) && s@ == k)),
        expect matches Some(k) ==> (is_prefix(data@, full) && holds_at(full, at as int, field_bytes(k)) && utf16_encode(k).len() <= 0xffff
            && at + field_bytes(k).len() > data@.len() ==> r == Err::<(String, usize), PackError>(PackError::BadFormat)),
{
    let ghost tk = expect matches Some(k) && is_prefix(data@, full) && holds_at(full, at as int, field_bytes(k))
        && utf16_encode(k).len() <= 0xffff && at + field_bytes(k).len() > data@.len();
    let ghost kk = if tk { expect->Some_0 } else { Seq::empty() };
    if data.len() - at < 2 {
        proof {
            if let Some(k) = expect {
                lemma_units_bytes_len(utf16_encode(k));
            }
        }
        return Err(PackError::BadFormat);
    }
    let len = read_u16(data, at);
    let start = at + 2;
    proof {
        if tk {
            let n = utf16_encode(kk).len();
            lemma_units_bytes_len(utf16_encode(kk));
            assert(full.subrange(at as int, at + 2) =~= field_bytes(kk).subrange(0, 2));
            assert(field_bytes(kk).subrange(0, 2) =~= u16_le(n as u16));
            assert(data@.subrange(at as int, at + 2) =~= full.subrange(0, data@.len() as int).subrange(at as int, at + 2));
            assert(data@.subrange(at as int, at + 2) =~= full.subrange(at as int, at + 2));
            crate::bytes::lemma_u16_le_at(n as u16);
            assert(u16_at(data@, at as int) == u16_at(data@.subrange(at as int, at + 2), 0));
            assert(len == n);
            assert(data@.len() - start < 2 * n);
        }
    }
    proof {
        if let Some(k) = expect {
            if holds_at(data@, at as int, field_bytes(k)) && utf16_encode(k).len() <= 0xffff {
                lemma_units_bytes_len(utf16_encode(k));
                assert(data@.subrange(at as int, at + 2) =~= u16_le(utf16_encode(k).len() as u16));
                crate::bytes::lemma_u16_le_at(utf16_encode(k).len() as u16);
                assert(u16_at(data@, at as int) == u16_at(data@.subrange(at as int, at + 2), 0));
            }
        }
    }
    if (data.len() - start) / 2 < len as usize {
        return Err(PackError::BadFormat);
    }
    let mut units: Vec<u16> = Vec::new();
    let mut k: usize = 0;
    assert(data@.subrange(start as int, start as int) =~= units_bytes(units@));
    while k < len as usize
        invariant
            start == at + 2,
            start + 2 * (len as int) <= data.len(),
            0 <= k <= len,
            units@.len() == k,
            data@.subrange(start as int, start + 2 * k) == units_bytes(units@),
        decreases len - k,
    {
        let u = read_u16(data, start + 2 * k);
        let ghost before = units@;
        units.push(u);
        proof {
            assert(units@.drop_last() =~= before);
            lemma_u16_round_trip(data@, start + 2 * k);
            assert(data@.subrange(start as int, start + 2 * (k + 1)) =~= data@.subrange(start as int, start + 2 * k)
                + data@.subrange(start + 2 * k, start + 2 * k + 2));
        }
        k += 1;
    }
    let next = start + 2 * (len as usize);
    proof {
        lemma_u16_round_trip(data@, at as int);
        lemma_units_bytes_len(units@);
        if let Some(e) = expect {
            if holds_at(data@, at as int, field_bytes(e)) && utf16_encode(e).len() <= 0xffff {
                let eu = utf16_encode(e);
                lemma_units_bytes_len(eu);
                assert(data@.subrange(start as int, next as int) =~= field_bytes(e).subrange(2, field_bytes(e).len() as int));
                assert(field_bytes(e).subrange(2, field_bytes(e).len() as int) =~= units_bytes(eu));
                lemma_units_bytes_injective(units@, eu);
            }
        }
    }
    match utf16_string(units.as_slice()) {
        Some(s) => {
            proof {
                assert(data@.subrange(at as int, next as int) =~= data@.subrange(at as int, at + 2) + data@.subrange(start as int, next as int));
                if let Some(e) = expect {
                    if holds_at(data@, at as int, field_bytes(e)) && utf16_encode(e).len() <= 0xffff {
                        lemma_utf16_injective(s@, e);
                    }
                }
            }
            Ok((s, next))
        },
        None => Err(PackError::BadEncoding),
    }
}

proof fn lemma_row_at(v: Seq<LocEntryView>, i: int)
    requires
        0 <= i < v.len(),
    ensures
        rows_bytes(v) == rows_bytes(v.subrange(0, i)) + row_bytes(v[i]) + rows_bytes(v.subrange(i + 1, v.len() as int)),
{
    let one = seq![v[i]];
    assert(one.drop_last() =~= Seq::<LocEntryView>::empty());
    assert(one.last() == v[i]);
    assert(rows_bytes(one) == rows_bytes(one.drop_last()) + row_bytes(one.last()));
    assert(rows_bytes(one.drop_last()) == Seq::<u8>::empty());
    assert(rows_bytes(one) =~= row_bytes(v[i]));
    lemma_rows_bytes_concat(v.subrange(0, i), one);
    lemma_rows_bytes_concat(v.subrange(0, i) + one, v.subrange(i + 1, v.len() as int));
    assert(v =~= v.subrange(0, i) + one + v.subrange(i + 1, v.len() as int));
}

/// Reads one row at `at`; when `data` holds the row `expect` there, that is
/// the row it reads.
fn read_row(data: &[u8], at: usize, Ghost(full): Ghost<Seq<u8>>, Ghost(expect): Ghost<Option<LocEntryView>>) -> (r: Result<(LocEntry, usize), PackError>)
    requires
        at <= data@.len(),
    ensures
        r matches Ok((e, next)) ==> at < next <= data@.len() && data@.subrange(at as int, next as int) == row_bytes(e@)
            && utf16_encode(e@.key).len() <= 0xffff && utf16_encode(e@.text).len() <= 0xffff,
        r matches Err(e) ==> e == PackError::BadFormat || e == PackError::BadEncoding,
        expect matches Some(x) ==> (holds_at(data@, at as int, row_bytes(x)) && utf16_encode(x.key).len() <= 0xffff
            && utf16_encode(x.text).len() <= 0xffff ==> (r matches Ok((e, next)) && e@ == x)),
        expect matches Some(x) ==> (is_prefix(data@, full) && holds_at(full, at as int, row_bytes(x))
            && utf16_encode(x.key).len() <= 0xffff && utf16_encode(x.text).len() <= 0xffff
            && at + row_bytes(x).len() > data@.len() ==> r == Err::<(LocEntry, usize), PackError>(PackError::BadFormat)),
{
    let ghost ok = expect matches Some(x) && holds_at(data@, at as int, row_bytes(x))
        && utf16_encode(x.key).len() <= 0xffff && utf16_encode(x.text).len() <= 0xffff;
    let ghost tr = expect matches Some(x) && is_prefix(data@, full) && holds_at(full, at as int, row_bytes(x))
        && utf16_encode(x.key).len() <= 0xffff && utf16_encode(x.text).len() <= 0xffff
        && at + row_bytes(x).len() > data@.len();
    let ghost x = if ok || tr { expect->Some_0 } else { LocEntryView { key: Seq::empty(), text: Seq::empty(), tooltip: false } };
    let ghost kf = field_bytes(x.key).len() as int;
    let ghost tf = field_bytes(x.text).len() as int;
    proof {
        if ok {
            lemma_holds_split(data@, at as int, field_bytes(x.key) + field_bytes(x.text), seq![if x.tooltip { 1u8 } else { 0u8 }]);
            lemma_holds_split(data@, at as int, field_bytes(x.key), field_bytes(x.text));
        }
        if tr {
            lemma_holds_split(full, at as int, field_bytes(x.key) + field_bytes(x.text), seq![if x.tooltip { 1u8 } else { 0u8 }]);
            lemma_holds_split(full, at as int, field_bytes(x.key), field_bytes(x.text));
            if at + kf <= data@.len() {
                lemma_prefix_holds(data@, full, at as int, field_bytes(x.key));
            }
        }
    }
    let (key, p1) = read_field(data, at, Ghost(full), Ghost(if ok || tr { Some(x.key) } else { None }))?;
    proof {
        if tr {
            assert(p1 == at + kf);
            if p1 + tf <= data@.len() {
                lemma_prefix_holds(data@, full, p1 as int, field_bytes(x.text));
            }
        }
    }
    let (text, p2) = read_field(data, p1, Ghost(full), Ghost(if ok || tr { Some(x.text) } else { None }))?;
    assert(tr ==> p2 == at + kf + tf && p2 + 1 > data@.len());
    proof {
        if ok {
            assert(p1 - at == field_bytes(x.key).len());
            assert(p2 - p1 == field_bytes(x.text).len());
            assert(row_bytes(x).len() == field_bytes(x.key).len() + field_bytes(x.text).len() + 1);
        }
    }
    assert(ok ==> p2 + 1 <= data@.len());
    proof {
        if ok {
            let row = row_bytes(x);
            assert(data@.subrange(at as int, at + row.len())[p2 - at] == data@[p2 as int]);
            assert(row[p2 - at] == if x.tooltip { 1u8 } else { 0u8 });
        }
    }
    if p2 >= data.len() {
        return Err(PackError::BadFormat);
    }
    let b = data[p2];
    let tooltip = if b == 0u8 {
        false
    } else if b == 1u8 {
        true
    } else {
        return Err(PackError::BadFormat);
    };
    let e = LocEntry { key, text, tooltip };
    proof {
        assert(data@.subrange(at as int, p2 + 1) =~= data@.subrange(at as int, p1 as int) + data@.subrange(p1 as int, p2 as int)
            + seq![data@[p2 as int]]);
        if ok {
            assert(data@.subrange(p2 as int, p2 + 1)[0] == data@[p2 as int]);
        }
    }
    Ok((e, p2 + 1))
}

proof fn lemma_field_prefix(s: Seq<char>, t: Seq<char>, r1: Seq<u8>, r2: Seq<u8>)
    requires
        utf16_encode(s).len() <= 0xffff,
        utf16_encode(t).len() <= 0xffff,
        field_bytes(s) + r1 == field_bytes(t) + r2,
    ensures
        s == t,
        r1 == r2,
{
    let us = utf16_encode(s);
    let ut = utf16_encode(t);
    let a = field_bytes(s) + r1;
    lemma_units_bytes_len(us);
    lemma_units_bytes_len(ut);
    crate::bytes::lemma_u16_le_at(us.len() as u16);
    crate::bytes::lemma_u16_le_at(ut.len() as u16);
    assert(a.subrange(0, 2) =~= u16_le(us.len() as u16));
    assert((field_bytes(t) + r2).subrange(0, 2) =~= u16_le(ut.len() as u16));
    assert(u16_at(a.subrange(0, 2), 0) == u16_at(u16_le(us.len() as u16), 0));
    assert(u16_at((field_bytes(t) + r2).subrange(0, 2), 0) == u16_at(u16_le(ut.len() as u16), 0));
    assert(us.len() == ut.len());
    let n: int = 2 + 2 * (us.len() as int);
    assert(a.subrange(2, n) =~= units_bytes(us));
    assert((field_bytes(t) + r2).subrange(2, n) =~= units_bytes(ut));
    lemma_units_bytes_injective(us, ut);
    lemma_utf16_injective(s, t);
    assert(r1 =~= a.subrange(n, a.len() as int));
    assert(r2 =~= (field_bytes(t) + r2).subrange(n, a.len() as int));
}

proof fn lemma_row_prefix(x: LocEntryView, y: LocEntryView, r1: Seq<u8>, r2: Seq<u8>)
    requires
        utf16_encode(x.key).len() <= 0xffff && utf16_encode(x.text).len() <= 0xffff,
        utf16_encode(y.key).len() <= 0xffff && utf16_encode(y.text).len() <= 0xffff,
        row_bytes(x) + r1 == row_bytes(y) + r2,
    ensures
        x == y,
        r1 == r2,
{
    let tx = seq![if x.tooltip { 1u8 } else { 0u8 }];
    let ty = seq![if y.tooltip { 1u8 } else { 0u8 }];
    assert(row_bytes(x) + r1 =~= field_bytes(x.key) + (field_bytes(x.text) + tx + r1));
    assert(row_bytes(y) + r2 =~= field_bytes(y.key) + (field_bytes(y.text) + ty + r2));
    lemma_field_prefix(x.key, y.key, field_bytes(x.text) + tx + r1, field_bytes(y.text) + ty + r2);
    assert(field_bytes(x.text) + tx + r1 =~= field_bytes(x.text) + (tx + r1));
    assert(field_bytes(y.text) + ty + r2 =~= field_bytes(y.text) + (ty + r2));
    lemma_field_prefix(x.text, y.text, tx + r1, ty + r2);
    assert((tx + r1)[0] == (ty + r2)[0]);
    assert(x.tooltip == y.tooltip);
    assert(r1 =~= (tx + r1).subrange(1, (tx + r1).len() as int));
    assert(r2 =~= (ty + r2).subrange(1, (ty + r2).len() as int));
}

proof fn lemma_rows_injective(a: Seq<LocEntryView>, b: Seq<LocEntryView>)
    requires
        a.len() == b.len(),
        rows_fit(a),
        rows_fit(b),
        rows_bytes(a) == rows_bytes(b),
    ensures
        a == b,
    decreases a.len(),
{
    if a.len() > 0 {
        lemma_row_at(a, 0);
        lemma_row_at(b, 0);
        assert(a.subrange(0, 0) =~= Seq::<LocEntryView>::empty());
        assert(b.subrange(0, 0) =~= Seq::<LocEntryView>::empty());
        assert(rows_bytes(a.subrange(0, 0)) + row_bytes(a[0]) =~= row_bytes(a[0]));
        assert(rows_bytes(b.subrange(0, 0)) + row_bytes(b[0]) =~= row_bytes(b[0]));
        let ra = rows_bytes(a.subrange(1, a.len() as int));
        let rb = rows_bytes(b.subrange(1, b.len() as int));
        assert(rows_bytes(a) == row_bytes(a[0]) + ra);
        assert(rows_bytes(b) == row_bytes(b[0]) + rb);
        lemma_row_prefix(a[0], b[0], ra, rb);
        let a1 = a.subrange(1, a.len() as int);
        let b1 = b.subrange(1, b.len() as int);
        assert forall|i: int| 0 <= i < a1.len() implies utf16_encode((#[trigger] a1[i]).key).len() <= 0xffff
            && utf16_encode(a1[i].text).len() <= 0xffff by {
            assert(a1[i] == a[i + 1]);
        }
        assert forall|i: int| 0 <= i < b1.len() implies utf16_encode((#[trigger] b1[i]).key).len() <= 0xffff
            && utf16_encode(b1[i].text).len() <= 0xffff by {
            assert(b1[i] == b[i + 1]);
        }
        lemma_rows_injective(a1, b1);
        assert(a =~= seq![a[0]] + a1);
        assert(b =~= seq![b[0]] + b1);
    }
}

/// Two tables with the same encoding are the same table.
pub proof fn lemma_loc_encode_injective(a: Seq<LocEntryView>, b: Seq<LocEntryView>)
    requires
        loc_encodable(a),
        loc_encodable(b),
        loc_encode(a) == loc_encode(b),
    ensures
        a == b,
{
    let ea = loc_encode(a);
    assert(ea.subrange(10, 14) =~= u32_le(a.len() as u32));
    assert(loc_encode(b).subrange(10, 14) =~= u32_le(b.len() as u32));
    crate::bytes::lemma_u32_le_at(a.len() as u32);
    crate::bytes::lemma_u32_le_at(b.len() as u32);
    assert(a.len() == b.len());
    assert(ea.subrange(14, ea.len() as int) =~= rows_bytes(a));
    assert(loc_encode(b).subrange(14, ea.len() as int) =~= rows_bytes(b));
    assert forall|i: int| 0 <= i < a.len() implies utf16_encode((#[trigger] a[i]).key).len() <= 0xffff
        && utf16_encode(a[i].text).len() <= 0xffff by {
    }
    assert forall|i: int| 0 <= i < b.len() implies utf16_encode((#[trigger] b[i]).key).len() <= 0xffff
        && utf16_encode(b[i].text).len() <= 0xffff by {
    }
    lemma_rows_injective(a, b);
}

proof fn lemma_field_prefix_of(s: Seq<char>, t: Seq<char>, r1: Seq<u8>, r2: Seq<u8>)
    requires
        utf16_encode(s).len() <= 0xffff,
        utf16_encode(t).len() <= 0xffff,
        is_prefix(field_bytes(s) + r1, field_bytes(t) + r2),
    ensures
        s == t,
        is_prefix(r1, r2),
{
    let us = utf16_encode(s);
    let ut = utf16_encode(t);
    let a = field_bytes(s) + r1;
    let b = field_bytes(t) + r2;
    lemma_units_bytes_len(us);
    lemma_units_bytes_len(ut);
    assert forall|i: int| 0 <= i < a.len() implies a[i] == b[i] by {
        assert(b.subrange(0, a.len() as int)[i] == b[i]);
    }
    crate::bytes::lemma_u16_le_at(us.len() as u16);
    crate::bytes::lemma_u16_le_at(ut.len() as u16);
    assert(a.subrange(0, 2) =~= u16_le(us.len() as u16));
    assert(b.subrange(0, 2) =~= u16_le(ut.len() as u16));
    assert(a.subrange(0, 2) =~= b.subrange(0, 2));
    assert(u16_at(a.subrange(0, 2), 0) == u16_at(u16_le(us.len() as u16), 0));
    assert(u16_at(b.subrange(0, 2), 0) == u16_at(u16_le(ut.len() as u16), 0));
    assert(us.len() == ut.len());
    let n: int = 2 + 2 * (us.len() as int);
    assert(a.subrange(2, n) =~= units_bytes(us));
    assert(b.subrange(2, n) =~= units_bytes(ut));
    assert(a.subrange(2, n) =~= b.subrange(2, n));
    lemma_units_bytes_injective(us, ut);
    lemma_utf16_injective(s, t);
    assert(r1 =~= a.subrange(n, a.len() as int));
    assert(r2 =~= b.subrange(n, b.len() as int));
    assert(r2.subrange(0, r1.len() as int) =~= r1);
}

proof fn lemma_row_prefix_of(x: LocEntryView, y: LocEntryView, r1: Seq<u8>, r2: Seq<u8>)
    requires
        utf16_encode(x.key).len() <= 0xffff && utf16_encode(x.text).len() <= 0xffff,
        utf16_encode(y.key).len() <= 0xffff && utf16_encode(y.text).len() <= 0xffff,
        is_prefix(row_bytes(x) + r1, row_bytes(y) + r2),
    ensures
        x == y,
        is_prefix(r1, r2),
{
    let tx = seq![if x.tooltip { 1u8 } else { 0u8 }];
    let ty = seq![if y.tooltip { 1u8 } else { 0u8 }];
    assert(row_bytes(x) + r1 =~= field_bytes(x.key) + (field_bytes(x.text) + (tx + r1)));
    assert(row_bytes(y) + r2 =~= field_bytes(y.key) + (field_bytes(y.text) + (ty + r2)));
    lemma_field_prefix_of(x.key, y.key, field_bytes(x.text) + (tx + r1), field_bytes(y.text) + (ty + r2));
    lemma_field_prefix_of(x.text, y.text, tx + r1, ty + r2);
    assert((ty + r2).subrange(0, (tx + r1).len() as int)[0] == (tx + r1)[0]);
    assert(x.tooltip == y.tooltip);
    assert(r1 =~= (tx + r1).subrange(1, (tx + r1).len() as int));
    assert(r2 =~= (ty + r2).subrange(1, (ty + r2).len() as int));
    assert(r2.subrange(0, r1.len() as int) =~= r1);
}

proof fn lemma_rows_prefix_of(a: Seq<LocEntryView>, b: Seq<LocEntryView>)
    requires
        a.len() == b.len(),
        rows_fit(a),
        rows_fit(b),
        is_prefix(rows_bytes(a), rows_bytes(b)),
    ensures
        rows_bytes(a).len() == rows_bytes(b).len(),
    decreases a.len(),
{
    if a.len() > 0 {
        lemma_row_at(a, 0);
        lemma_row_at(b, 0);
        assert(a.subrange(0, 0) =~= Seq::<LocEntryView>::empty());
        assert(b.subrange(0, 0) =~= Seq::<LocEntryView>::empty());
        let a1 = a.subrange(1, a.len() as int);
        let b1 = b.subrange(1, b.len() as int);
        assert(rows_bytes(a) =~= row_bytes(a[0]) + rows_bytes(a1));
        assert(rows_bytes(b) =~= row_bytes(b[0]) + rows_bytes(b1));
        lemma_row_prefix_of(a[0], b[0], rows_bytes(a1), rows_bytes(b1));
        assert forall|i: int| 0 <= i < a1.len() implies utf16_encode((#[trigger] a1[i]).key).len() <= 0xffff
            && utf16_encode(a1[i].text).len() <= 0xffff by {
            assert(a1[i] == a[i + 1]);
        }
        assert forall|i: int| 0 <= i < b1.len() implies utf16_encode((#[trigger] b1[i]).key).len() <= 0xffff
            && utf16_encode(b1[i].text).len() <= 0xffff by {
            assert(b1[i] == b[i + 1]);
        }
        lemma_rows_prefix_of(a1, b1);
    }
}

/// A table's encoding that begins with the whole encoding of another table
/// is no longer than it.
proof fn lemma_loc_encoding_length(v: Seq<LocEntryView>, w: Seq<LocEntryView>, d: Seq<u8>)
    requires
        loc_encodable(v),
        loc_encodable(w),
        loc_encode(v) == d,
        is_prefix(d, loc_encode(w)),
    ensures
        loc_encode(w).len() == d.len(),
{
    let fw = loc_encode(w);
    assert forall|t: int| 0 <= t < d.len() implies d[t] == fw[t] by {
        assert(fw.subrange(0, d.len() as int)[t] == fw[t]);
    }
    assert(d.subrange(10, 14) =~= u32_le(v.len() as u32));
    assert(fw.subrange(10, 14) =~= u32_le(w.len() as u32));
    assert(d.subrange(10, 14) =~= fw.subrange(10, 14));
    crate::bytes::lemma_u32_le_at(v.len() as u32);
    crate::bytes::lemma_u32_le_at(w.len() as u32);
    assert(u32_at(d.subrange(10, 14), 0) == u32_at(u32_le(v.len() as u32), 0));
    assert(u32_at(fw.subrange(10, 14), 0) == u32_at(u32_le(w.len() as u32), 0));
    assert(v.len() == w.len());
    assert(d.subrange(14, d.len() as int) =~= rows_bytes(v));
    assert(fw.subrange(14, fw.len() as int) =~= rows_bytes(w));
    assert(rows_bytes(w).subrange(0, rows_bytes(v).len() as int) =~= rows_bytes(v));
    assert forall|i: int| 0 <= i < v.len() implies utf16_encode((#[trigger] v[i]).key).len() <= 0xffff
        && utf16_encode(v[i].text).len() <= 0xffff by {}
    assert forall|i: int| 0 <= i < w.len() implies utf16_encode((#[trigger] w[i]).key).len() <= 0xffff
        && utf16_encode(w[i].text).len() <= 0xffff by {}
    lemma_rows_prefix_of(v, w);
}

/// The rows that `es` holds.
pub open spec fn rows_view(es: Seq<LocEntry>) -> Seq<LocEntryView> {
    es.map_values(|e: LocEntry| e@)
}

/// Every string of the rows fits its 16-bit length prefix.
pub open spec fn rows_fit(v: Seq<LocEntryView>) -> bool {
    forall|i: int| 0 <= i < v.len() ==> utf16_encode((#[trigger] v[i]).key).len() <= 0xffff
        && utf16_encode(v[i].text).len() <= 0xffff
}

/// Reads `count` rows from offset 14 to the end of `data`. When the rest of
/// `data` encodes the rows `expect`, those are the rows it reads.
fn read_rows(data: &[u8], count: u32, Ghost(full): Ghost<Seq<u8>>, Ghost(expect): Ghost<Option<Seq<LocEntryView>>>) -> (r: Result<Vec<LocEntry>, PackError>)
    requires
        data@.len() >= 14,
    ensures
        r matches Ok(es) ==> es@.len() == count && rows_fit(rows_view(es@))
            && data@.subrange(14, data@.len() as int) == rows_bytes(rows_view(es@)),
        r matches Err(e) ==> e == PackError::BadFormat || e == PackError::BadEncoding,
        expect matches Some(tv) ==> (tv.len() == count && rows_fit(tv) && data@.subrange(14, data@.len() as int) == rows_bytes(tv)
            ==> (r matches Ok(es) && rows_view(es@) == tv)),
        expect matches Some(tv) ==> (tv.len() == count && rows_fit(tv) && is_prefix(data@, full)
            && full.subrange(14, full.len() as int) == rows_bytes(tv) && data@.len() < full.len()
            ==> r == Err::<Vec<LocEntry>, PackError>(PackError::BadFormat)),
{
    let ghost has = expect matches Some(tv) && tv.len() == count && rows_fit(tv)
        && data@.subrange(14, data@.len() as int) == rows_bytes(tv);
    let ghost tr = expect matches Some(tv) && tv.len() == count && rows_fit(tv) && is_prefix(data@, full)
        && full.subrange(14, full.len() as int) == rows_bytes(tv) && data@.len() < full.len();
    let ghost tv = if has || tr { expect->Some_0 } else { Seq::empty() };
    let mut entries: Vec<LocEntry> = Vec::new();
    let mut at: usize = 14;
    let mut i: u32 = 0;
    assert(data@.subrange(14, 14) =~= rows_bytes(rows_view(entries@)));
    while i < count
        invariant
            14 <= at <= data@.len(),
            entries@.len() == i,
            i <= count,
            has == (expect matches Some(t) && t.len() == count && rows_fit(t)
                && data@.subrange(14, data@.len() as int) == rows_bytes(t)),
            has ==> expect == Some(tv),
            has ==> tv.len() == count && rows_fit(tv) && data@.subrange(14, data@.len() as int) == rows_bytes(tv),
            data@.subrange(14, at as int) == rows_bytes(rows_view(entries@)),
            rows_fit(rows_view(entries@)),
            has ==> rows_view(entries@) == tv.subrange(0, i as int),
            tr == (expect matches Some(t) && t.len() == count && rows_fit(t) && is_prefix(data@, full)
                && full.subrange(14, full.len() as int) == rows_bytes(t) && data@.len() < full.len()),
            tr ==> expect == Some(tv) && tv.len() == count && rows_fit(tv) && is_prefix(data@, full)
                && full.subrange(14, full.len() as int) == rows_bytes(tv) && data@.len() < full.len(),
            tr ==> rows_view(entries@) == tv.subrange(0, i as int),
        decreases count - i,
    {
        let ghost rows = rows_view(entries@);
        proof {
            if has {
                lemma_row_at(tv, i as int);
                assert(at - 14 == rows_bytes(tv.subrange(0, i as int)).len());
                assert(data@.subrange(at as int, data@.len() as int) =~= data@.subrange(14, data@.len() as int).subrange(at - 14, data@.len() - 14));
                assert(data@.subrange(at as int, data@.len() as int) =~= row_bytes(tv[i as int]) + rows_bytes(tv.subrange(i + 1, tv.len() as int)));
                lemma_holds_split(data@, at as int, row_bytes(tv[i as int]), rows_bytes(tv.subrange(i + 1, tv.len() as int)));
                assert(holds_at(data@, at as int, row_bytes(tv[i as int])));
                assert(utf16_encode(tv[i as int].key).len() <= 0xffff && utf16_encode(tv[i as int].text).len() <= 0xffff);
            }
            if tr {
                lemma_row_at(tv, i as int);
                assert(at - 14 == rows_bytes(tv.subrange(0, i as int)).len());
                assert(full.subrange(at as int, full.len() as int) =~= full.subrange(14, full.len() as int).subrange(at - 14, full.len() - 14));
                assert(full.subrange(at as int, full.len() as int) =~= row_bytes(tv[i as int]) + rows_bytes(tv.subrange(i + 1, tv.len() as int)));
                lemma_holds_split(full, at as int, row_bytes(tv[i as int]), rows_bytes(tv.subrange(i + 1, tv.len() as int)));
                assert(utf16_encode(tv[i as int].key).len() <= 0xffff && utf16_encode(tv[i as int].text).len() <= 0xffff);
                if at + row_bytes(tv[i as int]).len() <= data@.len() {
                    lemma_prefix_holds(data@, full, at as int, row_bytes(tv[i as int]));
                }
            }
        }
        let (e, next) = read_row(data, at, Ghost(full), Ghost(if has || tr { Some(tv[i as int]) } else { None }))?;
        entries.push(e);
        proof {
            assert(rows_view(entries@).drop_last() =~= rows);
            assert(rows_view(entries@).last() == e@);
            assert(data@.subrange(14, next as int) =~= data@.subrange(14, at as int) + data@.subrange(at as int, next as int));
            if has || tr {
                assert(rows_view(entries@) =~= tv.subrange(0, i + 1));
            }
            assert forall|j: int| 0 <= j < rows_view(entries@).len() implies utf16_encode((#[trigger] rows_view(entries@)[j]).key).len() <= 0xffff
                && utf16_encode(rows_view(entries@)[j].text).len() <= 0xffff by {
                if j < i {
                    assert(rows_view(entries@)[j] == rows[j]);
                }
            }
        }
        at = next;
        i += 1;
    }
    proof {
        if tr {
            assert(tv.subrange(0, count as int) =~= tv);
            assert(full.len() == 14 + rows_bytes(tv).len());
        }
    }
    if at != data.len() {
        proof {
            if has {
                assert(tv.subrange(0, count as int) =~= tv);
            }
        }
        return Err(PackError::BadFormat);
    }
    proof {
        if has {
            assert(tv.subrange(0, count as int) =~= tv);
        }
    }
    Ok(entries)
}

impl Loc {
    /// Decodes a table. Fails with `BadFormat` on a wrong header, a
    /// truncated row, a tooltip byte other than 0 or 1, or bytes after the
    /// last row, and with `BadEncoding` on text that is not UTF-16. It
    /// succeeds on every encoding of a table, giving back that table, and
    /// bytes that stop before the end of such an encoding fail with
    /// `BadFormat`.
    pub fn read(data: &[u8]) -> (r: Result<Loc, PackError>)
        ensures
            r matches Ok(l) ==> loc_encodable(l@) && loc_encode(l@) == data@,
            r matches Err(e) ==> e == PackError::BadFormat || e == PackError::BadEncoding,
            forall|v: Seq<LocEntryView>| loc_encodable(v) && #[trigger] loc_encode(v) == data@ ==> (r matches Ok(l) && l@ == v),
            data@.len() < 14 ==> r == Err::<Loc, PackError>(PackError::BadFormat),
            data@.len() >= 14 && data@.subrange(0, 6) != seq![0xffu8, 0xfe, 0x4c, 0x4f, 0x43, 0x00]
                ==> r == Err::<Loc, PackError>(PackError::BadFormat),
            forall|v: Seq<LocEntryView>| loc_encodable(v) && is_prefix(data@, #[trigger] loc_encode(v))
                && data@.len() < loc_encode(v).len() ==> r == Err::<Loc, PackError>(PackError::BadFormat),
    {
        let ghost has = exists|v: Seq<LocEntryView>| loc_encodable(v) && #[trigger] loc_encode(v) == data@;
        let ghost tv = if has {
            choose|v: Seq<LocEntryView>| loc_encodable(v) && #[trigger] loc_encode(v) == data@
        } else {
            Seq::empty()
        };
        let ghost tr = exists|v: Seq<LocEntryView>| loc_encodable(v) && is_prefix(data@, #[trigger] loc_encode(v))
            && data@.len() < loc_encode(v).len();
        let ghost tw = if tr {
            choose|v: Seq<LocEntryView>| loc_encodable(v) && is_prefix(data@, #[trigger] loc_encode(v))
                && data@.len() < loc_encode(v).len()
        } else {
            Seq::empty()
        };
        let ghost fw = loc_encode(tw);
        proof {
            if has && tr {
                lemma_loc_encoding_length(tv, tw, data@);
            }
            if tr && data@.len() >= 14 {
                assert forall|t: int| 0 <= t < data@.len() implies data@[t] == fw[t] by {
                    assert(fw.subrange(0, data@.len() as int)[t] == fw[t]);
                }
                assert(data@.subrange(0, 14) =~= fw.subrange(0, 14));
                assert(fw.subrange(0, 14) =~= loc_header(tw.len() as u32));
                assert(data@.subrange(0, 6) =~= seq![0xffu8, 0xfe, 0x4c, 0x4f, 0x43, 0x00]);
                assert(data@[0] == 0xffu8 && data@[1] == 0xfeu8 && data@[2] == 0x4cu8 && data@[3] == 0x4fu8 && data@[4] == 0x43u8 && data@[5] == 0u8) by {
                    assert(data@.subrange(0, 6)[0] == data@[0]);
                    assert(data@.subrange(0, 6)[1] == data@[1]);
                    assert(data@.subrange(0, 6)[2] == data@[2]);
                    assert(data@.subrange(0, 6)[3] == data@[3]);
                    assert(data@.subrange(0, 6)[4] == data@[4]);
                    assert(data@.subrange(0, 6)[5] == data@[5]);
                }
                assert(data@.subrange(6, 10) =~= u32_le(1));
                assert(data@.subrange(10, 14) =~= u32_le(tw.len() as u32));
                crate::bytes::lemma_u32_le_at(1);
                crate::bytes::lemma_u32_le_at(tw.len() as u32);
                assert(u32_at(data@, 6) == u32_at(data@.subrange(6, 10), 0));
                assert(u32_at(data@, 10) == u32_at(data@.subrange(10, 14), 0));
                assert(fw.subrange(14, fw.len() as int) =~= rows_bytes(tw));
                assert(rows_fit(tw));
            }
        }
        if data.len() < 14 {
            return Err(PackError::BadFormat);
        }
        if data[0] != 0xffu8 || data[1] != 0xfeu8 || data[2] != 0x4cu8 || data[3] != 0x4fu8 || data[4] != 0x43u8
            || data[5] != 0x00u8 {
            proof {
                if data@.subrange(0, 6) =~= seq![0xffu8, 0xfe, 0x4c, 0x4f, 0x43, 0x00] {
                    assert(data@.subrange(0, 6)[0] == data@[0]);
                }
            }
            return Err(PackError::BadFormat);
        }
        assert(data@.subrange(0, 6) =~= seq![0xffu8, 0xfe, 0x4c, 0x4f, 0x43, 0x00]);
        let version = read_u32(data, 6);
        let count = read_u32(data, 10);
        proof {
            lemma_u32_round_trip(data@, 6);
            lemma_u32_round_trip(data@, 10);
            if has {
                assert(data@.subrange(0, 14) =~= loc_header(tv.len() as u32));
                assert(data@.subrange(6, 10) =~= u32_le(1));
                assert(data@.subrange(10, 14) =~= u32_le(tv.len() as u32));
                crate::bytes::lemma_u32_le_at(1);
                crate::bytes::lemma_u32_le_at(tv.len() as u32);
                assert(u32_at(data@, 6) == u32_at(data@.subrange(6, 10), 0));
                assert(u32_at(data@, 10) == u32_at(data@.subrange(10, 14), 0));
                assert(data@.subrange(14, data@.len() as int) =~= rows_bytes(tv));
                assert(rows_fit(tv));
            }
        }
        if version != 1 {
            return Err(PackError::BadFormat);
        }
        let entries = read_rows(data, count, Ghost(if tr { fw } else { data@ }),
            Ghost(if has { Some(tv) } else if tr { Some(tw) } else { None }))?;
        let l = Loc { entries };
        proof {
            assert forall|v: Seq<LocEntryView>| loc_encodable(v) && #[trigger] loc_encode(v) == data@ implies l@ == v by {
                lemma_loc_encode_injective(v, tv);
            }
            assert(data@ =~= data@.subrange(0, 14) + data@.subrange(14, data@.len() as int));
            assert(data@.subrange(0, 14) =~= loc_header(l@.len() as u32));
        }
        Ok(l)
    }
}

} // verus!
