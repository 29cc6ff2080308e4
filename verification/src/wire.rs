//! The compact tag-length-value wire encoding shared by the frame and by the
//! request and response payloads: base-128 variable-length integers and
//! tagged fields.

use vstd::prelude::*;

verus! {

/// The canonical base-128 encoding of `v`: seven bits per byte, least
/// significant group first, the high bit set on every byte but the last.
pub open spec fn varint_bytes(v: nat) -> Seq<u8>
    decreases v,
{
    if v < 128 {
        seq![v as u8]
    } else {
        seq![((v % 128) + 128) as u8] + varint_bytes(v / 128)
    }
}

/// One more than the largest value that a variable-length integer of at most
/// `room` bytes can hold, when a byte in the last position may be at most
/// `last_max`.
pub open spec fn varint_cap(room: nat, last_max: nat) -> nat
    decreases room,
{
    if room <= 1 {
        last_max + 1
    } else {
        128 * varint_cap((room - 1) as nat, last_max)
    }
}

/// Reads a variable-length integer from the front of `s`: the value and the
/// number of bytes it occupies. At most `room` bytes are read; a byte in
/// position `room` must not exceed `last_max`. `None` when `s` ends inside
/// the integer or the integer is too long or too large.
pub open spec fn varint_parse(s: Seq<u8>, room: nat, last_max: nat) -> Option<(nat, nat)>
    decreases room,
{
    if s.len() == 0 || room == 0 {
        None
    } else if room == 1 {
        if s[0] as nat <= last_max {
            Some((s[0] as nat, 1nat))
        } else {
            None
        }
    } else if s[0] < 128 {
        Some((s[0] as nat, 1nat))
    } else {
        match varint_parse(s.skip(1), (room - 1) as nat, last_max) {
            Some((v, n)) => Some((((s[0] - 128) + 128 * v) as nat, n + 1)),
            None => None,
        }
    }
}

/// Appends the canonical encoding of `v` to `out`.
pub fn write_varint(out: &mut Vec<u8>, v: u64)
    ensures
        final(out)@ == old(out)@ + varint_bytes(v as nat),
{
    let mut rest: u64 = v;
    while rest >= 128
        invariant
            out@ + varint_bytes(rest as nat) == old(out)@ + varint_bytes(v as nat),
        decreases rest,
    {
        let low: u8 = ((rest % 128) + 128) as u8;
        proof {
            assert(varint_bytes(rest as nat) == seq![low] + varint_bytes((rest / 128) as nat));
            assert(out@.push(low) + varint_bytes((rest / 128) as nat) == out@ + (seq![low]
                + varint_bytes((rest / 128) as nat)));
        }
        out.push(low);
        rest = rest / 128;
    }
    proof {
        assert(varint_bytes(rest as nat) == seq![rest as u8]);
        assert(out@.push(rest as u8) == out@ + seq![rest as u8]);
    }
    out.push(rest as u8);
}

/// A parsed integer is below the cap of its length limit and occupies
/// between one and `room` bytes of the input.
pub proof fn lemma_varint_parse_bounds(s: Seq<u8>, room: nat, last_max: nat)
    ensures
        match varint_parse(s, room, last_max) {
            Some((v, n)) => v < varint_cap(room, last_max) && 1 <= n <= room && n <= s.len(),
            None => true,
        },
    decreases room,
{
    if s.len() == 0 || room == 0 {
    } else if room == 1 {
    } else {
        assert(varint_cap(room, last_max) == 128 * varint_cap((room - 1) as nat, last_max));
        lemma_varint_cap_positive((room - 1) as nat, last_max);
        if s[0] >= 128 {
            lemma_varint_parse_bounds(s.skip(1), (room - 1) as nat, last_max);
        }
    }
}

/// Every cap is at least one.
pub proof fn lemma_varint_cap_positive(room: nat, last_max: nat)
    ensures
        varint_cap(room, last_max) >= 1,
    decreases room,
{
    if room > 1 {
        lemma_varint_cap_positive((room - 1) as nat, last_max);
    }
}

/// The caps of the two integer widths of the encoding: ten bytes with a last
/// byte of at most 1 hold 64 bits, five bytes with a last byte of at most 15
/// hold 32 bits.
pub proof fn lemma_varint_caps()
    ensures
        varint_cap(10, 1) == 0x1_0000_0000_0000_0000,
        varint_cap(5, 15) == 0x1_0000_0000,
{
    reveal_with_fuel(varint_cap, 11);
}

/// Reads a variable-length integer of at most `room` bytes at `pos`;
/// returns the value and the position that follows it.
fn read_varint(buf: &[u8], pos: usize, room: u8, last_max: u8) -> (r: Option<(u64, usize)>)
    requires
        pos <= buf.len(),
        varint_cap(room as nat, last_max as nat) <= 0x1_0000_0000_0000_0000,
    ensures
        match varint_parse(buf@.skip(pos as int), room as nat, last_max as nat) {
            Some((v, n)) => r == Some((v as u64, (pos + n) as usize)) && v <= u64::MAX && pos + n
                <= buf.len(),
            None => r is None,
        },
    decreases room,
{
    let ghost s = buf@.skip(pos as int);
    if pos >= buf.len() || room == 0 {
        return None;
    }
    let b: u8 = buf[pos];
    assert(s[0] == b);
    if room == 1 {
        if b <= last_max {
            return Some((b as u64, pos + 1));
        } else {
            return None;
        }
    }
    if b < 128 {
        return Some((b as u64, pos + 1));
    }
    proof {
        assert(varint_cap(room as nat, last_max as nat) == 128 * varint_cap(
            (room - 1) as nat,
            last_max as nat,
        ));
        assert(s.skip(1) == buf@.skip(pos + 1));
        lemma_varint_parse_bounds(s.skip(1), (room - 1) as nat, last_max as nat);
    }
    match read_varint(buf, pos + 1, room - 1, last_max) {
        Some((v, end)) => {
            let value: u64 = (b - 128) as u64 + 128 * v;
            Some((value, end))
        },
        None => None,
    }
}

/// Reads a 64-bit variable-length integer at `pos`: at most ten bytes, the
/// tenth at most 1. Returns the value and the position that follows it;
/// `None` for a position past the end.
pub fn read_varint64(buf: &[u8], pos: usize) -> (r: Option<(u64, usize)>)
    ensures
        pos <= buf.len() ==> match varint_parse(buf@.skip(pos as int), 10, 1) {
            Some((v, n)) => r == Some((v as u64, (pos + n) as usize)) && v <= u64::MAX && pos + n
                <= buf.len(),
            None => r is None,
        },
        pos > buf.len() ==> r is None,
{
    if pos > buf.len() {
        return None;
    }
    proof {
        lemma_varint_caps();
    }
    read_varint(buf, pos, 10, 1)
}

/// Reads a 32-bit variable-length integer at `pos`: at most five bytes, the
/// fifth at most 15. Returns the value and the position that follows it;
/// `None` for a position past the end.
pub fn read_varint32(buf: &[u8], pos: usize) -> (r: Option<(u32, usize)>)
    ensures
        pos <= buf.len() ==> match varint_parse(buf@.skip(pos as int), 5, 15) {
            Some((v, n)) => r == Some((v as u32, (pos + n) as usize)) && v <= u32::MAX && pos + n
                <= buf.len(),
            None => r is None,
        },
        pos > buf.len() ==> r is None,
{
    if pos > buf.len() {
        return None;
    }
    proof {
        lemma_varint_caps();
        lemma_varint_parse_bounds(buf@.skip(pos as int), 5, 15);
    }
    match read_varint(buf, pos, 5, 15) {
        Some((v, end)) => Some((v as u32, end)),
        None => None,
    }
}

/// Parsing undoes writing: the canonical encoding of a value below the cap,
/// followed by anything, parses to that value and to the encoding's length.
pub proof fn lemma_varint_round_trip(v: nat, rest: Seq<u8>, room: nat, last_max: nat)
    requires
        v < varint_cap(room, last_max),
        room >= 1,
        last_max < 128,
    ensures
        varint_parse(varint_bytes(v) + rest, room, last_max) == Some((v, varint_bytes(v).len())),
        varint_bytes(v).len() >= 1,
    decreases room,
{
    let s = varint_bytes(v) + rest;
    if room == 1 {
        assert(varint_bytes(v) == seq![v as u8]);
        assert(s[0] == v as u8);
    } else if v < 128 {
        assert(s[0] == v as u8);
    } else {
        let tail = varint_bytes(v / 128);
        assert(varint_bytes(v) == seq![((v % 128) + 128) as u8] + tail);
        assert(s[0] == ((v % 128) + 128) as u8);
        assert(s.skip(1) == tail + rest);
        assert(varint_cap(room, last_max) == 128 * varint_cap((room - 1) as nat, last_max));
        lemma_varint_round_trip(v / 128, rest, (room - 1) as nat, last_max);
    }
}

/// The canonical encoding of a value below a cap is no longer than the
/// cap's length limit.
pub proof fn lemma_varint_len(v: nat, room: nat, last_max: nat)
    requires
        v < varint_cap(room, last_max),
        room >= 1,
        last_max < 128,
    ensures
        1 <= varint_bytes(v).len() <= room,
{
    lemma_varint_round_trip(v, Seq::empty(), room, last_max);
    lemma_varint_parse_bounds(varint_bytes(v) + Seq::empty(), room, last_max);
}

/// Appends `data` to `out`.
pub fn append_bytes(out: &mut Vec<u8>, data: &[u8])
    ensures
        final(out)@ == old(out)@ + data@,
{
    let mut i: usize = 0;
    while i < data.len()
        invariant
            i <= data.len(),
            out@ == old(out)@ + data@.take(i as int),
        decreases data.len() - i,
    {
        proof {
            assert(data@.take(i + 1) == data@.take(i as int).push(data@[i as int]));
        }
        out.push(data[i]);
        i += 1;
    }
    proof {
        assert(data@.take(i as int) == data@);
    }
}

/// Copies the bytes of `buf` from `start` up to `end` into a new vector.
pub fn copy_range(buf: &[u8], start: usize, end: usize) -> (out: Vec<u8>)
    requires
        start <= end <= buf.len(),
    ensures
        out@ == buf@.subrange(start as int, end as int),
{
    let mut out: Vec<u8> = Vec::new();
    let mut i: usize = start;
    while i < end
        invariant
            start <= i <= end <= buf.len(),
            out@ == buf@.subrange(start as int, i as int),
        decreases end - i,
    {
        proof {
            assert(buf@.subrange(start as int, i + 1) == buf@.subrange(
                start as int,
                i as int,
            ).push(buf@[i as int]));
        }
        out.push(buf[i]);
        i += 1;
    }
    out
}

/// The wire type of a variable-length integer field.
pub const WIRE_VARINT: u32 = 0;

/// The wire type of a field of eight raw bytes.
pub const WIRE_FIXED64: u32 = 1;

/// The wire type of a length-prefixed byte string.
pub const WIRE_BYTES: u32 = 2;

/// The wire type of a field of four raw bytes.
pub const WIRE_FIXED32: u32 = 5;

/// One field of a message as it stands on the wire. The tag holds the field's
/// number in its upper bits and the wire type in its lowest three. A
/// variable-length integer field carries its value in `number` and no
/// bytes; every other field carries its bytes and the number 0.
pub struct Field {
    pub tag: u32,
    pub number: u64,
    pub bytes: Vec<u8>,
}

/// The mathematical value of a [`Field`].
pub ghost struct FieldView {
    pub tag: u32,
    pub number: u64,
    pub bytes: Seq<u8>,
}

impl View for Field {
    type V = FieldView;

    open spec fn view(&self) -> FieldView {
        FieldView { tag: self.tag, number: self.number, bytes: self.bytes@ }
    }
}

/// The views of a sequence of fields, in order.
pub open spec fn field_views(fields: Seq<Field>) -> Seq<FieldView> {
    fields.map_values(|f: Field| f@)
}

/// Reads one field from the front of `s`: the field and the number of bytes
/// it occupies. The tag is a 32-bit variable-length integer whose field
/// number is not 0. `None` when the tag or the value is malformed, when `s`
/// ends inside the field, or when the wire type is none of the four above
/// (groups are not part of this encoding).
pub open spec fn parse_field(s: Seq<u8>) -> Option<(FieldView, nat)> {
    match varint_parse(s, 5, 15) {
        None => None,
        Some((tag, n)) => {
            let rest = s.skip(n as int);
            let kind = tag % 8;
            if tag / 8 == 0 {
                None
            } else if kind == WIRE_VARINT {
                match varint_parse(rest, 10, 1) {
                    Some((v, m)) => Some(
                        (
                            FieldView { tag: tag as u32, number: v as u64, bytes: Seq::empty() },
                            n + m,
                        ),
                    ),
                    None => None,
                }
            } else if kind == WIRE_FIXED64 {
                if rest.len() >= 8 {
                    Some((FieldView { tag: tag as u32, number: 0, bytes: rest.take(8) }, n + 8))
                } else {
                    None
                }
            } else if kind == WIRE_FIXED32 {
                if rest.len() >= 4 {
                    Some((FieldView { tag: tag as u32, number: 0, bytes: rest.take(4) }, n + 4))
                } else {
                    None
                }
            } else if kind == WIRE_BYTES {
                match varint_parse(rest, 5, 15) {
                    Some((len, m)) => if rest.len() - m >= len {
                        Some(
                            (
                                FieldView {
                                    tag: tag as u32,
                                    number: 0,
                                    bytes: rest.subrange(m as int, (m + len) as int),
                                },
                                n + m + len,
                            ),
                        )
                    } else {
                        None
                    },
                    None => None,
                }
            } else {
                None
            }
        },
    }
}

/// A parsed field occupies at least two bytes and no more than `s` holds.
pub proof fn lemma_parse_field_bounds(s: Seq<u8>)
    ensures
        match parse_field(s) {
            Some((f, n)) => 2 <= n <= s.len() && f.tag >= 8,
            None => true,
        },
{
    lemma_varint_caps();
    lemma_varint_parse_bounds(s, 5, 15);
    match varint_parse(s, 5, 15) {
        None => {},
        Some((tag, n)) => {
            let rest = s.skip(n as int);
            lemma_varint_parse_bounds(rest, 10, 1);
            lemma_varint_parse_bounds(rest, 5, 15);
        },
    }
}

/// Reads a whole message: the fields of `s` in order, when `s` is a sequence
/// of well-formed fields and nothing else.
pub open spec fn parse_fields(s: Seq<u8>) -> Option<Seq<FieldView>>
    decreases s.len(),
{
    if s.len() == 0 {
        Some(Seq::empty())
    } else {
        match parse_field(s) {
            None => None,
            Some((f, n)) => if 0 < n <= s.len() {
                match parse_fields(s.skip(n as int)) {
                    Some(fs) => Some(seq![f] + fs),
                    None => None,
                }
            } else {
                None
            },
        }
    }
}

/// Reads the field that starts at `pos`; returns it with the position that
/// follows it. `None` for a position past the end.
pub fn read_field(buf: &[u8], pos: usize) -> (r: Option<(Field, usize)>)
    ensures
        pos <= buf.len() ==> match parse_field(buf@.skip(pos as int)) {
            Some((f, n)) => match r {
                Some((field, end)) => field@ == f && end == pos + n && end <= buf.len(),
                None => false,
            },
            None => r is None,
        },
        pos > buf.len() ==> r is None,
{
    if pos > buf.len() {
        return None;
    }
    let ghost s = buf@.skip(pos as int);
    proof {
        lemma_parse_field_bounds(s);
    }
    let (tag, after_tag) = match read_varint32(buf, pos) {
        Some(t) => t,
        None => { return None; },
    };
    let ghost rest = s.skip(after_tag - pos);
    assert(rest == buf@.skip(after_tag as int));
    let kind: u32 = tag % 8;
    if tag / 8 == 0 {
        None
    } else if kind == WIRE_VARINT {
        match read_varint64(buf, after_tag) {
            Some((v, end)) => Some((Field { tag, number: v, bytes: Vec::new() }, end)),
            None => None,
        }
    } else if kind == WIRE_FIXED64 {
        if buf.len() - after_tag >= 8 {
            let bytes = copy_range(buf, after_tag, after_tag + 8);
            assert(bytes@ == rest.take(8));
            Some((Field { tag, number: 0, bytes }, after_tag + 8))
        } else {
            None
        }
    } else if kind == WIRE_FIXED32 {
        if buf.len() - after_tag >= 4 {
            let bytes = copy_range(buf, after_tag, after_tag + 4);
            assert(bytes@ == rest.take(4));
            Some((Field { tag, number: 0, bytes }, after_tag + 4))
        } else {
            None
        }
    } else if kind == WIRE_BYTES {
        match read_varint32(buf, after_tag) {
            Some((len, start)) => {
                if buf.len() - start >= len as usize {
                    let end: usize = start + len as usize;
                    let bytes = copy_range(buf, start, end);
                    assert(bytes@ == rest.subrange(start - after_tag, start - after_tag + len));
                    Some((Field { tag, number: 0, bytes }, end))
                } else {
                    None
                }
            },
            None => None,
        }
    } else {
        None
    }
}

/// Reads a whole message into its fields, in order. `None` when `buf` is not
/// a sequence of well-formed fields.
pub fn read_fields(buf: &[u8]) -> (r: Option<Vec<Field>>)
    ensures
        match parse_fields(buf@) {
            Some(fs) => r is Some && field_views(r->0@) == fs,
            None => r is None,
        },
{
    let mut fields: Vec<Field> = Vec::new();
    let mut pos: usize = 0;
    proof {
        assert(buf@.skip(0) == buf@);
        assert(field_views(fields@) + parse_fields(buf@)->0 == parse_fields(buf@)->0);
    }
    while pos < buf.len()
        invariant
            pos <= buf.len(),
            match parse_fields(buf@.skip(pos as int)) {
                Some(fs) => parse_fields(buf@) == Some(field_views(fields@) + fs),
                None => parse_fields(buf@) is None,
            },
        decreases buf.len() - pos,
    {
        let ghost s = buf@.skip(pos as int);
        proof {
            lemma_parse_field_bounds(s);
        }
        match read_field(buf, pos) {
            None => { return None; },
            Some((field, end)) => {
                proof {
                    assert(s.skip(end - pos) == buf@.skip(end as int));
                    let fs = parse_fields(buf@.skip(end as int));
                    if fs is Some {
                        assert(field_views(fields@.push(field)) == field_views(fields@).push(
                            field@,
                        ));
                        assert(field_views(fields@).push(field@) + fs->0 == field_views(fields@)
                            + (seq![field@] + fs->0));
                    }
                }
                fields.push(field);
                pos = end;
            },
        }
    }
    proof {
        assert(field_views(fields@) + Seq::<FieldView>::empty() == field_views(fields@));
    }
    Some(fields)
}

/// The bytes of a length-prefixed field: the tag, the length, the data.
pub open spec fn bytes_field(tag: u32, data: Seq<u8>) -> Seq<u8> {
    varint_bytes(tag as nat) + varint_bytes(data.len()) + data
}

/// The bytes of an integer field: the tag, then the value.
pub open spec fn varint_field(tag: u32, v: u64) -> Seq<u8> {
    varint_bytes(tag as nat) + varint_bytes(v as nat)
}

/// Appends a length-prefixed field to `out`.
pub fn write_bytes_field(out: &mut Vec<u8>, tag: u32, data: &[u8])
    requires
        data@.len() <= u32::MAX,
    ensures
        final(out)@ == old(out)@ + bytes_field(tag, data@),
{
    write_varint(out, tag as u64);
    write_varint(out, data.len() as u64);
    append_bytes(out, data);
    proof {
        assert(final(out)@ == old(out)@ + bytes_field(tag, data@));
    }
}

/// Appends an integer field to `out`.
pub fn write_varint_field(out: &mut Vec<u8>, tag: u32, v: u64)
    ensures
        final(out)@ == old(out)@ + varint_field(tag, v),
{
    write_varint(out, tag as u64);
    write_varint(out, v);
    proof {
        assert(final(out)@ == old(out)@ + varint_field(tag, v));
    }
}

/// A length-prefixed field that was written, followed by anything, is read
/// back as it was written.
pub proof fn lemma_parse_bytes_field(tag: u32, data: Seq<u8>, rest: Seq<u8>)
    requires
        tag % 8 == WIRE_BYTES,
        tag / 8 != 0,
        data.len() <= u32::MAX,
    ensures
        parse_field(bytes_field(tag, data) + rest) == Some(
            (FieldView { tag, number: 0, bytes: data }, bytes_field(tag, data).len()),
        ),
{
    lemma_varint_caps();
    let t = varint_bytes(tag as nat);
    let l = varint_bytes(data.len());
    let s = bytes_field(tag, data) + rest;
    assert(s == t + (l + data + rest));
    lemma_varint_round_trip(tag as nat, l + data + rest, 5, 15);
    assert(s.skip(t.len() as int) == l + data + rest);
    assert(l + data + rest == l + (data + rest));
    lemma_varint_round_trip(data.len(), data + rest, 5, 15);
    assert((l + (data + rest)).subrange(l.len() as int, (l.len() + data.len()) as int) == data);
}

/// An integer field that was written, followed by anything, is read back as
/// it was written.
pub proof fn lemma_parse_varint_field(tag: u32, v: u64, rest: Seq<u8>)
    requires
        tag % 8 == WIRE_VARINT,
        tag / 8 != 0,
    ensures
        parse_field(varint_field(tag, v) + rest) == Some(
            (FieldView { tag, number: v, bytes: Seq::empty() }, varint_field(tag, v).len()),
        ),
{
    lemma_varint_caps();
    let t = varint_bytes(tag as nat);
    let n = varint_bytes(v as nat);
    let s = varint_field(tag, v) + rest;
    assert(s == t + (n + rest));
    lemma_varint_round_trip(tag as nat, n + rest, 5, 15);
    assert(s.skip(t.len() as int) == n + rest);
    lemma_varint_round_trip(v as nat, rest, 10, 1);
}

/// A message that starts with one well-formed field parses to that field
/// followed by the fields of what comes after it.
pub proof fn lemma_parse_fields_prepend(first: Seq<u8>, f: FieldView, rest: Seq<u8>)
    requires
        parse_field(first + rest) == Some((f, first.len())),
    ensures
        parse_fields(first + rest) == match parse_fields(rest) {
            Some(fs) => Some(seq![f] + fs),
            None => None,
        },
{
    lemma_parse_field_bounds(first + rest);
    assert((first + rest).skip(first.len() as int) == rest);
}

/// The last field of `fields` that carries `tag`, if there is one: where a
/// field occurs more than once, the last occurrence counts.
pub open spec fn last_with_tag(fields: Seq<FieldView>, tag: u32) -> Option<FieldView>
    decreases fields.len(),
{
    if fields.len() == 0 {
        None
    } else if fields.last().tag == tag {
        Some(fields.last())
    } else {
        last_with_tag(fields.drop_last(), tag)
    }
}

/// Whether a field with `tag` occurs in `fields` whose number exceeds
/// `limit`.
pub open spec fn some_number_above(fields: Seq<FieldView>, tag: u32, limit: u64) -> bool {
    exists|i: int| 0 <= i < fields.len() && fields[i].tag == tag && #[trigger] fields[i].number > limit
}

/// Whether a field with `tag` occurs in `fields` whose number lies strictly
/// between `low` and `high`.
pub open spec fn some_number_between(fields: Seq<FieldView>, tag: u32, low: u64, high: u64) -> bool {
    exists|i: int|
        0 <= i < fields.len() && fields[i].tag == tag && low < #[trigger] fields[i].number < high
}

/// Finds the last field that carries `tag`.
pub fn find_last(fields: &Vec<Field>, tag: u32) -> (r: Option<usize>)
    ensures
        match r {
            Some(i) => i < fields.len() && last_with_tag(field_views(fields@), tag) == Some(
                fields[i as int]@,
            ),
            None => last_with_tag(field_views(fields@), tag) is None,
        },
{
    let ghost all = field_views(fields@);
    let mut i: usize = fields.len();
    proof {
        assert(all.take(i as int) == all);
    }
    while i > 0
        invariant
            i <= fields.len(),
            all == field_views(fields@),
            last_with_tag(all, tag) == last_with_tag(all.take(i as int), tag),
        decreases i,
    {
        i -= 1;
        proof {
            assert(all.take(i + 1).last() == fields[i as int]@);
            assert(all.take(i + 1).drop_last() == all.take(i as int));
        }
        if fields[i].tag == tag {
            return Some(i);
        }
    }
    None
}

/// Tells whether some field with `tag` holds a number above `limit`.
pub fn any_number_above(fields: &Vec<Field>, tag: u32, limit: u64) -> (r: bool)
    ensures
        r == some_number_above(field_views(fields@), tag, limit),
{
    let ghost all = field_views(fields@);
    let mut i: usize = 0;
    while i < fields.len()
        invariant
            i <= fields.len(),
            all == field_views(fields@),
            forall|j: int| 0 <= j < i && all[j].tag == tag ==> #[trigger] all[j].number <= limit,
        decreases fields.len() - i,
    {
        if fields[i].tag == tag && fields[i].number > limit {
            assert(all[i as int].tag == tag && all[i as int].number > limit);
            return true;
        }
        i += 1;
    }
    false
}

/// Tells whether some field with `tag` holds a number strictly between `low`
/// and `high`.
pub fn any_number_between(fields: &Vec<Field>, tag: u32, low: u64, high: u64) -> (r: bool)
    ensures
        r == some_number_between(field_views(fields@), tag, low, high),
{
    let ghost all = field_views(fields@);
    let mut i: usize = 0;
    while i < fields.len()
        invariant
            i <= fields.len(),
            all == field_views(fields@),
            forall|j: int|
                0 <= j < i && all[j].tag == tag ==> !(low < #[trigger] all[j].number < high),
        decreases fields.len() - i,
    {
        if fields[i].tag == tag && low < fields[i].number && fields[i].number < high {
            assert(all[i as int].tag == tag && low < all[i as int].number < high);
            return true;
        }
        i += 1;
    }
    false
}

/// Whether a field can stand on the wire: its number is not 0, and it
/// carries what its wire type calls for.
pub open spec fn field_wf(f: FieldView) -> bool {
    let kind = f.tag % 8;
    &&& f.tag / 8 != 0
    &&& if kind == WIRE_VARINT {
        f.bytes.len() == 0
    } else if kind == WIRE_BYTES {
        f.number == 0 && f.bytes.len() <= u32::MAX
    } else if kind == WIRE_FIXED64 {
        f.number == 0 && f.bytes.len() == 8
    } else if kind == WIRE_FIXED32 {
        f.number == 0 && f.bytes.len() == 4
    } else {
        false
    }
}

/// The bytes of one field.
pub open spec fn field_bytes(f: FieldView) -> Seq<u8> {
    let kind = f.tag % 8;
    if kind == WIRE_VARINT {
        varint_field(f.tag, f.number)
    } else if kind == WIRE_BYTES {
        bytes_field(f.tag, f.bytes)
    } else {
        varint_bytes(f.tag as nat) + f.bytes
    }
}

/// The bytes of a message: those of its fields, one after the other.
pub open spec fn fields_bytes(fields: Seq<FieldView>) -> Seq<u8>
    decreases fields.len(),
{
    if fields.len() == 0 {
        Seq::empty()
    } else {
        fields_bytes(fields.drop_last()) + field_bytes(fields.last())
    }
}

/// A field that can stand on the wire, followed by anything, is read back as
/// it is.
pub proof fn lemma_parse_written_field(f: FieldView, rest: Seq<u8>)
    requires
        field_wf(f),
    ensures
        parse_field(field_bytes(f) + rest) == Some((f, field_bytes(f).len())),
{
    let kind = f.tag % 8;
    if kind == WIRE_VARINT {
        lemma_parse_varint_field(f.tag, f.number, rest);
        assert(f.bytes == Seq::<u8>::empty());
    } else if kind == WIRE_BYTES {
        lemma_parse_bytes_field(f.tag, f.bytes, rest);
    } else {
        lemma_varint_caps();
        let t = varint_bytes(f.tag as nat);
        let s = field_bytes(f) + rest;
        assert(s == t + (f.bytes + rest));
        lemma_varint_round_trip(f.tag as nat, f.bytes + rest, 5, 15);
        assert(s.skip(t.len() as int) == f.bytes + rest);
        assert((f.bytes + rest).take(f.bytes.len() as int) == f.bytes);
    }
}

/// The bytes of two runs of fields, one after the other, are the bytes of
/// the joined run.
pub proof fn lemma_fields_bytes_concat(a: Seq<FieldView>, b: Seq<FieldView>)
    ensures
        fields_bytes(a + b) == fields_bytes(a) + fields_bytes(b),
    decreases b.len(),
{
    if b.len() == 0 {
        assert(a + b == a);
    } else {
        assert((a + b).drop_last() == a + b.drop_last());
        assert((a + b).last() == b.last());
        lemma_fields_bytes_concat(a, b.drop_last());
    }
}

/// The bytes of a single field, as a message.
pub proof fn lemma_fields_bytes_single(f: FieldView)
    ensures
        fields_bytes(seq![f]) == field_bytes(f),
{
    assert(seq![f].drop_last() == Seq::<FieldView>::empty());
    assert(fields_bytes(seq![f]) == fields_bytes(Seq::<FieldView>::empty()) + field_bytes(f));
}

/// Reading undoes writing: the bytes of any run of fields that can stand on
/// the wire parse to exactly that run.
pub proof fn lemma_fields_round_trip(fields: Seq<FieldView>)
    requires
        forall|i: int| 0 <= i < fields.len() ==> field_wf(#[trigger] fields[i]),
    ensures
        parse_fields(fields_bytes(fields)) == Some(fields),
    decreases fields.len(),
{
    if fields.len() == 0 {
    } else {
        let first = fields[0];
        let tail = fields.skip(1);
        assert(fields == seq![first] + tail);
        lemma_fields_bytes_concat(seq![first], tail);
        lemma_fields_bytes_single(first);
        assert(forall|i: int| 0 <= i < tail.len() ==> field_wf(#[trigger] tail[i])) by {
            assert(forall|i: int| 0 <= i < tail.len() ==> tail[i] == fields[i + 1]);
        }
        lemma_fields_round_trip(tail);
        lemma_parse_written_field(first, fields_bytes(tail));
        lemma_parse_fields_prepend(field_bytes(first), first, fields_bytes(tail));
        lemma_parse_field_bounds(field_bytes(first) + fields_bytes(tail));
    }
}

/// In a joined run the last field with a tag is the last one of the second
/// part when that part has one, else the last one of the first part.
pub proof fn lemma_last_with_tag_concat(a: Seq<FieldView>, b: Seq<FieldView>, tag: u32)
    ensures
        last_with_tag(a + b, tag) == if last_with_tag(b, tag) is Some {
            last_with_tag(b, tag)
        } else {
            last_with_tag(a, tag)
        },
    decreases b.len(),
{
    if b.len() == 0 {
        assert(a + b == a);
    } else {
        assert((a + b).drop_last() == a + b.drop_last());
        assert((a + b).last() == b.last());
        lemma_last_with_tag_concat(a, b.drop_last(), tag);
    }
}

/// In a run of at most one field the last field with a tag is that field, if
/// it carries the tag.
pub proof fn lemma_last_with_tag_short(fields: Seq<FieldView>)
    requires
        fields.len() <= 1,
    ensures
        forall|tag: u32| #[trigger]
            last_with_tag(fields, tag) == if fields.len() == 1 && fields[0].tag == tag {
                Some(fields[0])
            } else {
                None
            },
{
    assert forall|tag: u32| #[trigger]
        last_with_tag(fields, tag) == if fields.len() == 1 && fields[0].tag == tag {
            Some(fields[0])
        } else {
            None
        } by {
        if fields.len() == 1 {
            assert(fields.drop_last().len() == 0);
            assert(last_with_tag(fields.drop_last(), tag) is None);
        }
    }
}

/// What a run of fields holds for every tag, when a run of at most one field
/// is put behind it.
pub proof fn lemma_last_with_tag_append(a: Seq<FieldView>, b: Seq<FieldView>)
    requires
        b.len() <= 1,
    ensures
        forall|tag: u32| #[trigger]
            last_with_tag(a + b, tag) == if b.len() == 1 && b[0].tag == tag {
                Some(b[0])
            } else {
                last_with_tag(a, tag)
            },
{
    lemma_last_with_tag_short(b);
    assert forall|tag: u32| #[trigger]
        last_with_tag(a + b, tag) == if b.len() == 1 && b[0].tag == tag {
            Some(b[0])
        } else {
            last_with_tag(a, tag)
        } by {
        lemma_last_with_tag_concat(a, b, tag);
    }
}

/// A byte-string field that is left out of the message when it is empty.
pub open spec fn bytes_unless_empty(tag: u32, data: Seq<u8>) -> Seq<FieldView> {
    if data.len() == 0 {
        Seq::empty()
    } else {
        seq![FieldView { tag, number: 0, bytes: data }]
    }
}

/// An integer field that is left out of the message when it is 0.
pub open spec fn number_unless_zero(tag: u32, v: u64) -> Seq<FieldView> {
    if v == 0 {
        Seq::empty()
    } else {
        seq![FieldView { tag, number: v, bytes: Seq::empty() }]
    }
}

/// A byte-string field that is in the message exactly when it is present.
pub open spec fn bytes_if_present(tag: u32, data: Option<Seq<u8>>) -> Seq<FieldView> {
    match data {
        Some(d) => seq![FieldView { tag, number: 0, bytes: d }],
        None => Seq::empty(),
    }
}

/// An integer field that is in the message exactly when it is present.
pub open spec fn number_if_present(tag: u32, v: Option<u64>) -> Seq<FieldView> {
    match v {
        Some(n) => seq![FieldView { tag, number: n, bytes: Seq::empty() }],
        None => Seq::empty(),
    }
}

/// The bytes that a message holds for a field: those of the field found, or
/// none.
pub open spec fn bytes_or_empty(f: Option<FieldView>) -> Seq<u8> {
    match f {
        Some(field) => field.bytes,
        None => Seq::empty(),
    }
}

/// The number that a message holds for a field: that of the field found, or
/// 0.
pub open spec fn number_or_zero(f: Option<FieldView>) -> u64 {
    match f {
        Some(field) => field.number,
        None => 0,
    }
}

/// The bytes of the field found, if one was found.
pub open spec fn bytes_of(f: Option<FieldView>) -> Option<Seq<u8>> {
    match f {
        Some(field) => Some(field.bytes),
        None => None,
    }
}

/// The number of the field found, if one was found.
pub open spec fn number_of(f: Option<FieldView>) -> Option<u64> {
    match f {
        Some(field) => Some(field.number),
        None => None,
    }
}

/// Appends a byte-string field to `out` unless `data` is empty.
pub fn write_bytes_unless_empty(out: &mut Vec<u8>, tag: u32, data: &[u8])
    requires
        tag % 8 == WIRE_BYTES,
        data@.len() <= u32::MAX,
    ensures
        final(out)@ == old(out)@ + fields_bytes(bytes_unless_empty(tag, data@)),
{
    if data.len() != 0 {
        proof {
            lemma_fields_bytes_single(FieldView { tag, number: 0, bytes: data@ });
        }
        write_bytes_field(out, tag, data);
    } else {
        assert(old(out)@ + Seq::<u8>::empty() == old(out)@);
    }
}

/// Appends an integer field to `out` unless `v` is 0.
pub fn write_number_unless_zero(out: &mut Vec<u8>, tag: u32, v: u64)
    requires
        tag % 8 == WIRE_VARINT,
    ensures
        final(out)@ == old(out)@ + fields_bytes(number_unless_zero(tag, v)),
{
    if v != 0 {
        proof {
            lemma_fields_bytes_single(FieldView { tag, number: v, bytes: Seq::empty() });
        }
        write_varint_field(out, tag, v);
    } else {
        assert(old(out)@ + Seq::<u8>::empty() == old(out)@);
    }
}

/// Appends a byte-string field to `out` when `data` is present.
pub fn write_bytes_if_present(out: &mut Vec<u8>, tag: u32, data: &Option<Vec<u8>>)
    requires
        tag % 8 == WIRE_BYTES,
        data is Some ==> data->0@.len() <= u32::MAX,
    ensures
        final(out)@ == old(out)@ + fields_bytes(
            bytes_if_present(
                tag,
                match *data {
                    Some(d) => Some(d@),
                    None => None,
                },
            ),
        ),
{
    match data {
        Some(d) => {
            proof {
                lemma_fields_bytes_single(FieldView { tag, number: 0, bytes: d@ });
            }
            write_bytes_field(out, tag, d.as_slice());
        },
        None => {
            assert(old(out)@ + Seq::<u8>::empty() == old(out)@);
        },
    }
}

/// Appends an integer field to `out` when `v` is present.
pub fn write_number_if_present(out: &mut Vec<u8>, tag: u32, v: Option<u64>)
    requires
        tag % 8 == WIRE_VARINT,
    ensures
        final(out)@ == old(out)@ + fields_bytes(number_if_present(tag, v)),
{
    match v {
        Some(n) => {
            proof {
                lemma_fields_bytes_single(FieldView { tag, number: n, bytes: Seq::empty() });
            }
            write_varint_field(out, tag, n);
        },
        None => {
            assert(old(out)@ + Seq::<u8>::empty() == old(out)@);
        },
    }
}

/// The number that stands on the wire for a signed 32-bit integer: the
/// integer itself when it is not negative, else its two's complement in 64
/// bits.
pub open spec fn int32_wire(v: i32) -> u64 {
    if v >= 0 {
        v as u64
    } else {
        (0x1_0000_0000_0000_0000 + v) as u64
    }
}

/// The smallest number that stands for a negative 32-bit integer.
pub const INT32_WIRE_NEGATIVE_MIN: u64 = 0xffff_ffff_8000_0000;

/// The largest number that stands for a 32-bit integer that is not negative.
pub const INT32_WIRE_POSITIVE_MAX: u64 = 0x7fff_ffff;

/// Whether a number on the wire stands for a signed 32-bit integer.
pub open spec fn fits_int32(n: u64) -> bool {
    n <= INT32_WIRE_POSITIVE_MAX || n >= INT32_WIRE_NEGATIVE_MIN
}

/// The signed 32-bit integer that a number on the wire stands for.
pub open spec fn int32_of_wire(n: u64) -> i32
    recommends
        fits_int32(n),
{
    if n <= INT32_WIRE_POSITIVE_MAX {
        n as i32
    } else {
        (n - 0x1_0000_0000_0000_0000) as i32
    }
}

/// Turns a signed 32-bit integer into the number that stands for it.
pub fn int32_to_wire(v: i32) -> (n: u64)
    ensures
        n == int32_wire(v),
        fits_int32(n),
        int32_of_wire(n) == v,
{
    if v >= 0 {
        v as u64
    } else {
        let below: u64 = (-(v as i64 + 1)) as u64;
        u64::MAX - below
    }
}

/// Turns a number on the wire into the signed 32-bit integer it stands for.
pub fn int32_from_wire(n: u64) -> (v: i32)
    requires
        fits_int32(n),
    ensures
        v == int32_of_wire(n),
        int32_wire(v) == n,
{
    if n <= INT32_WIRE_POSITIVE_MAX {
        n as i32
    } else {
        let below: u64 = u64::MAX - n;
        (-(below as i64) - 1) as i32
    }
}

/// The number on the wire of an optional signed 32-bit integer.
pub open spec fn optional_int32_wire(v: Option<i32>) -> Option<u64> {
    match v {
        Some(x) => Some(int32_wire(x)),
        None => None,
    }
}

/// The optional signed 32-bit integer of an optional number on the wire.
pub open spec fn optional_int32_of_wire(n: Option<u64>) -> Option<i32> {
    match n {
        Some(x) => Some(int32_of_wire(x)),
        None => None,
    }
}

/// A field that can stand on the wire occupies at most fifteen bytes besides
/// those it carries.
pub proof fn lemma_field_len(f: FieldView)
    requires
        field_wf(f),
    ensures
        field_bytes(f).len() <= f.bytes.len() + 15,
{
    lemma_varint_caps();
    lemma_varint_len(f.tag as nat, 5, 15);
    lemma_varint_len(f.number as nat, 10, 1);
    lemma_varint_len(f.bytes.len(), 5, 15);
}

/// Putting a run of at most one field behind a message lengthens it by at
/// most fifteen bytes besides those that the field carries.
pub proof fn lemma_fields_len_append(a: Seq<FieldView>, b: Seq<FieldView>)
    requires
        b.len() <= 1,
        b.len() == 1 ==> field_wf(b[0]),
    ensures
        fields_bytes(a + b).len() <= fields_bytes(a).len() + if b.len() == 1 {
            b[0].bytes.len() + 15
        } else {
            0
        },
{
    lemma_fields_bytes_concat(a, b);
    if b.len() == 1 {
        assert(b == seq![b[0]]);
        lemma_fields_bytes_single(b[0]);
        lemma_field_len(b[0]);
    } else {
        assert(fields_bytes(b).len() == 0);
    }
}

} // verus!
