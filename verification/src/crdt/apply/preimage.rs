//! The bytes that a column signature covers.
//!
//! Five fields in fixed order, each behind its length as four bytes, most
//! significant first: table, row key, column, timestamp, and the value as
//! compact JSON. The lengths make the layout unambiguous whatever the fields
//! hold.

use crate::crdt::scanner::change::ChangeView;
use crate::crdt::scanner::change::ColumnChange;
use crate::json::json_text;
use crate::json::JsonValue;
use vstd::prelude::*;
use vstd::utf8::encode_utf8;
use vstd::utf8::encode_utf8_decode_utf8;

verus! {

/// Four bytes of a length, most significant first. A length beyond 32 bits is
/// cut to its low 32.
pub open spec fn length_prefix(n: nat) -> Seq<u8> {
    let low = n % 4_294_967_296;
    seq![
        (low / 16_777_216) as u8,
        ((low / 65_536) % 256) as u8,
        ((low / 256) % 256) as u8,
        (low % 256) as u8,
    ]
}

/// One field behind its length.
pub open spec fn framed(field: Seq<u8>) -> Seq<u8> {
    length_prefix(field.len()) + field
}

/// The five fields, framed, in order.
pub open spec fn framed_fields(
    table: Seq<u8>,
    row_pks: Seq<u8>,
    column: Seq<u8>,
    hlc: Seq<u8>,
    value: Seq<u8>,
) -> Seq<u8> {
    framed(table) + framed(row_pks) + framed(column) + framed(hlc) + framed(value)
}

/// The bytes that the signature of a change covers.
#[verifier::opaque]
pub open spec fn preimage(c: ChangeView) -> Seq<u8> {
    framed_fields(
        encode_utf8(c.table_name),
        encode_utf8(c.row_pks),
        encode_utf8(c.column_name),
        encode_utf8(c.hlc_timestamp),
        encode_utf8(json_text(c.value)),
    )
}

/// Appends one framed field.
fn push_field(buf: &mut Vec<u8>, field: &[u8])
    ensures
        final(buf)@ == old(buf)@ + framed(field@),
{
    let low: u64 = field.len() as u64 % 4_294_967_296;
    buf.push((low / 16_777_216) as u8);
    buf.push(((low / 65_536) % 256) as u8);
    buf.push(((low / 256) % 256) as u8);
    buf.push((low % 256) as u8);
    assert(buf@ =~= old(buf)@ + length_prefix(field@.len()));
    let ghost before = buf@;
    let mut i: usize = 0;
    assert(before + field@.take(0) =~= before);
    while i < field.len()
        invariant
            i <= field.len(),
            buf@ == before + field@.take(i as int),
        decreases field.len() - i,
    {
        buf.push(field[i]);
        i += 1;
        assert(buf@ =~= before + field@.take(i as int));
    }
    assert(field@.take(i as int) =~= field@);
    assert(buf@ =~= old(buf)@ + framed(field@));
}

/// The bytes to sign or verify for a column, from its parts.
pub fn column_sig_preimage_from_parts(
    table_name: &str,
    row_pks: &str,
    column_name: &str,
    hlc_timestamp: &str,
    value: &JsonValue,
) -> (r: Vec<u8>)
    ensures
        r@ == framed_fields(
            encode_utf8(table_name@),
            encode_utf8(row_pks@),
            encode_utf8(column_name@),
            encode_utf8(hlc_timestamp@),
            encode_utf8(json_text(value@)),
        ),
{
    let json = value.to_json();
    let mut buf: Vec<u8> = Vec::new();
    push_field(&mut buf, table_name.as_bytes());
    assert(buf@ =~= framed(encode_utf8(table_name@)));
    push_field(&mut buf, row_pks.as_bytes());
    push_field(&mut buf, column_name.as_bytes());
    push_field(&mut buf, hlc_timestamp.as_bytes());
    push_field(&mut buf, json.as_str().as_bytes());
    buf
}

/// The bytes to sign or verify for a change.
pub fn column_sig_preimage(change: &ColumnChange) -> (r: Vec<u8>)
    ensures
        r@ == preimage(change@),
{
    reveal(preimage);
    column_sig_preimage_from_parts(
        change.table_name.as_str(),
        change.row_pks.as_str(),
        change.column_name.as_str(),
        change.hlc_timestamp.as_str(),
        &change.value,
    )
}

proof fn lemma_length_prefix(a: nat, b: nat)
    requires
        a < 4_294_967_296,
        b < 4_294_967_296,
        length_prefix(a) == length_prefix(b),
    ensures
        a == b,
{
    let p = length_prefix(a);
    let q = length_prefix(b);
    assert(p[0] == q[0] && p[1] == q[1] && p[2] == q[2] && p[3] == q[3]);
    assert(a / 16_777_216 < 256 && b / 16_777_216 < 256);
    assert(p[0] as nat == a / 16_777_216);
    assert(q[0] as nat == b / 16_777_216);
    assert(p[1] as nat == (a / 65_536) % 256);
    assert(q[1] as nat == (b / 65_536) % 256);
    assert(p[2] as nat == (a / 256) % 256);
    assert(q[2] as nat == (b / 256) % 256);
    assert(p[3] as nat == a % 256);
    assert(q[3] as nat == b % 256);
}

/// A framed field in front of other bytes can be told from them: equal bytes
/// mean an equal field and equal rest.
proof fn lemma_framed_prefix(a: Seq<u8>, b: Seq<u8>, rest_a: Seq<u8>, rest_b: Seq<u8>)
    requires
        a.len() < 4_294_967_296,
        b.len() < 4_294_967_296,
        framed(a) + rest_a == framed(b) + rest_b,
    ensures
        a == b,
        rest_a == rest_b,
{
    let s = framed(a) + rest_a;
    let t = framed(b) + rest_b;
    assert(s.take(4) =~= length_prefix(a.len()));
    assert(t.take(4) =~= length_prefix(b.len()));
    lemma_length_prefix(a.len(), b.len());
    assert(s.subrange(4, 4 + a.len() as int) =~= a);
    assert(t.subrange(4, 4 + b.len() as int) =~= b);
    assert(s.skip(4 + a.len() as int) =~= rest_a);
    assert(t.skip(4 + b.len() as int) =~= rest_b);
}

proof fn lemma_nest(a: Seq<u8>, b: Seq<u8>, c: Seq<u8>, d: Seq<u8>, e: Seq<u8>)
    ensures
        a + b + c + d + e == a + (b + (c + (d + (e + Seq::empty())))),
{
    assert(e + Seq::<u8>::empty() =~= e);
    assert(a + b + c + d + e =~= a + (b + (c + (d + e))));
}

proof fn lemma_framed_fields(
    a1: Seq<u8>,
    a2: Seq<u8>,
    a3: Seq<u8>,
    a4: Seq<u8>,
    a5: Seq<u8>,
    b1: Seq<u8>,
    b2: Seq<u8>,
    b3: Seq<u8>,
    b4: Seq<u8>,
    b5: Seq<u8>,
)
    requires
        framed_fields(a1, a2, a3, a4, a5) == framed_fields(b1, b2, b3, b4, b5),
        a1.len() < 4_294_967_296,
        a2.len() < 4_294_967_296,
        a3.len() < 4_294_967_296,
        a4.len() < 4_294_967_296,
        a5.len() < 4_294_967_296,
        b1.len() < 4_294_967_296,
        b2.len() < 4_294_967_296,
        b3.len() < 4_294_967_296,
        b4.len() < 4_294_967_296,
        b5.len() < 4_294_967_296,
    ensures
        a1 == b1,
        a2 == b2,
        a3 == b3,
        a4 == b4,
        a5 == b5,
{
    let none = Seq::<u8>::empty();
    lemma_nest(framed(a1), framed(a2), framed(a3), framed(a4), framed(a5));
    lemma_nest(framed(b1), framed(b2), framed(b3), framed(b4), framed(b5));
    let at4 = framed(a4) + (framed(a5) + none);
    let bt4 = framed(b4) + (framed(b5) + none);
    let at3 = framed(a3) + at4;
    let bt3 = framed(b3) + bt4;
    let at2 = framed(a2) + at3;
    let bt2 = framed(b2) + bt3;
    lemma_framed_prefix(a1, b1, at2, bt2);
    lemma_framed_prefix(a2, b2, at3, bt3);
    lemma_framed_prefix(a3, b3, at4, bt4);
    lemma_framed_prefix(a4, b4, framed(a5) + none, framed(b5) + none);
    lemma_framed_prefix(a5, b5, none, none);
}

/// Different fields have different preimages: whoever knows the bytes knows
/// each of the five fields. Fields are shorter than the prefix can count.
pub proof fn lemma_preimage_is_injective(a: ChangeView, b: ChangeView)
    requires
        preimage(a) == preimage(b),
        encode_utf8(a.table_name).len() < 4_294_967_296,
        encode_utf8(a.row_pks).len() < 4_294_967_296,
        encode_utf8(a.column_name).len() < 4_294_967_296,
        encode_utf8(a.hlc_timestamp).len() < 4_294_967_296,
        encode_utf8(json_text(a.value)).len() < 4_294_967_296,
        encode_utf8(b.table_name).len() < 4_294_967_296,
        encode_utf8(b.row_pks).len() < 4_294_967_296,
        encode_utf8(b.column_name).len() < 4_294_967_296,
        encode_utf8(b.hlc_timestamp).len() < 4_294_967_296,
        encode_utf8(json_text(b.value)).len() < 4_294_967_296,
    ensures
        a.table_name == b.table_name,
        a.row_pks == b.row_pks,
        a.column_name == b.column_name,
        a.hlc_timestamp == b.hlc_timestamp,
        json_text(a.value) == json_text(b.value),
{
    reveal(preimage);
    lemma_framed_fields(
        encode_utf8(a.table_name),
        encode_utf8(a.row_pks),
        encode_utf8(a.column_name),
        encode_utf8(a.hlc_timestamp),
        encode_utf8(json_text(a.value)),
        encode_utf8(b.table_name),
        encode_utf8(b.row_pks),
        encode_utf8(b.column_name),
        encode_utf8(b.hlc_timestamp),
        encode_utf8(json_text(b.value)),
    );
    lemma_encoding_is_injective(a.table_name, b.table_name);
    lemma_encoding_is_injective(a.row_pks, b.row_pks);
    lemma_encoding_is_injective(a.column_name, b.column_name);
    lemma_encoding_is_injective(a.hlc_timestamp, b.hlc_timestamp);
    lemma_encoding_is_injective(json_text(a.value), json_text(b.value));
}

proof fn lemma_encoding_is_injective(a: Seq<char>, b: Seq<char>)
    requires
        encode_utf8(a) == encode_utf8(b),
    ensures
        a == b,
{
    encode_utf8_decode_utf8(a);
    encode_utf8_decode_utf8(b);
}

/// The length is that of the fields and five prefixes of four bytes.
pub proof fn lemma_preimage_length(c: ChangeView)
    ensures
        preimage(c).len() == 20 + encode_utf8(c.table_name).len() + encode_utf8(c.row_pks).len()
            + encode_utf8(c.column_name).len() + encode_utf8(c.hlc_timestamp).len() + encode_utf8(
            json_text(c.value),
        ).len(),
{
    reveal(preimage);
}

/// A field stands at this place: four bytes that say how long it is, the highest
/// first, and then the field itself.
#[verifier::opaque]
pub open spec fn holds_field(bytes: Seq<u8>, at: int, field: Seq<u8>) -> bool {
    &&& 0 <= at
    &&& at + 4 + field.len() <= bytes.len()
    &&& bytes[at] * 16_777_216 + bytes[at + 1] * 65_536 + bytes[at + 2] * 256 + bytes[at + 3]
        == field.len()
    &&& bytes.subrange(at + 4, at + 4 + field.len()) == field
}

proof fn lemma_framed_stands(before: Seq<u8>, field: Seq<u8>, rest: Seq<u8>)
    requires
        field.len() < 4_294_967_296,
    ensures
        holds_field(before + framed(field) + rest, before.len() as int, field),
        framed(field).len() == 4 + field.len(),
{
    reveal(holds_field);
    let n = field.len();
    let p = length_prefix(n);
    let bytes = before + framed(field) + rest;
    let at = before.len() as int;
    assert(n % 4_294_967_296 == n);
    assert(n / 16_777_216 < 256);
    assert(p[0] == n / 16_777_216);
    assert(p[1] == (n / 65_536) % 256);
    assert(p[2] == (n / 256) % 256);
    assert(p[3] == n % 256);
    assert(bytes[at] == p[0] && bytes[at + 1] == p[1] && bytes[at + 2] == p[2] && bytes[at + 3]
        == p[3]);
    assert(bytes.subrange(at + 4, at + 4 + n) =~= field);
}

#[verifier::rlimit(60)]
#[verifier::spinoff_prover]
proof fn lemma_five_parts(a: Seq<u8>, b: Seq<u8>, c: Seq<u8>, d: Seq<u8>, e: Seq<u8>)
    ensures
        a + b + c + d + e == Seq::<u8>::empty() + a + (b + c + d + e),
        a + b + c + d + e == a + b + (c + d + e),
        a + b + c + d + e == a + b + c + (d + e),
        a + b + c + d + e == a + b + c + d + e + Seq::<u8>::empty(),
{
    assert(a + b + c + d + e =~= Seq::<u8>::empty() + a + (b + c + d + e));
    assert(a + b + c + d + e =~= a + b + (c + d + e));
    assert(a + b + c + d + e =~= a + b + c + (d + e));
    assert(a + b + c + d + e =~= a + b + c + d + e + Seq::<u8>::empty());
}

/// What is signed is the table, the key, the column, the timestamp and the value,
/// in this order, each behind its length, and nothing else.
#[verifier::rlimit(60)]
#[verifier::spinoff_prover]
pub proof fn lemma_preimage_layout(c: ChangeView)
    requires
        encode_utf8(c.table_name).len() < 4_294_967_296,
        encode_utf8(c.row_pks).len() < 4_294_967_296,
        encode_utf8(c.column_name).len() < 4_294_967_296,
        encode_utf8(c.hlc_timestamp).len() < 4_294_967_296,
        encode_utf8(json_text(c.value)).len() < 4_294_967_296,
    ensures
        ({
            let bytes = preimage(c);
            let second = (4 + encode_utf8(c.table_name).len()) as int;
            let third = second + 4 + encode_utf8(c.row_pks).len();
            let fourth = third + 4 + encode_utf8(c.column_name).len();
            let fifth = fourth + 4 + encode_utf8(c.hlc_timestamp).len();
            &&& holds_field(bytes, 0, encode_utf8(c.table_name))
            &&& holds_field(bytes, second, encode_utf8(c.row_pks))
            &&& holds_field(bytes, third, encode_utf8(c.column_name))
            &&& holds_field(bytes, fourth, encode_utf8(c.hlc_timestamp))
            &&& holds_field(bytes, fifth, encode_utf8(json_text(c.value)))
            &&& bytes.len() == fifth + 4 + encode_utf8(json_text(c.value)).len()
        }),
{
    lemma_preimage_length(c);
    let (t, r, n, h, v) = (
        encode_utf8(c.table_name),
        encode_utf8(c.row_pks),
        encode_utf8(c.column_name),
        encode_utf8(c.hlc_timestamp),
        encode_utf8(json_text(c.value)),
    );
    let bytes = preimage(c);
    let none = Seq::<u8>::empty();
    let (ft, fr, fc, fh, fv) = (framed(t), framed(r), framed(n), framed(h), framed(v));
    assert(bytes == ft + fr + fc + fh + fv) by {
        reveal(preimage);
    }
    lemma_five_parts(ft, fr, fc, fh, fv);
    lemma_framed_stands(none, t, fr + fc + fh + fv);
    lemma_framed_stands(ft, r, fc + fh + fv);
    lemma_framed_stands(ft + fr, n, fh + fv);
    lemma_framed_stands(ft + fr + fc, h, fv);
    lemma_framed_stands(ft + fr + fc + fh, v, none);
}

} // verus!
