//! The class table as bytes.
//!
//! A table is the names in order, each as its UTF-8 bytes followed by one
//! zero byte. Reading is lenient: the bytes are cut at every zero byte, and a
//! piece that is empty or is not UTF-8 is left out.

use vstd::prelude::*;
use vstd::slice::slice_subrange;
use vstd::string::StringSliceAdditionalSpecFns;
use vstd::utf8::{decode_utf8, encode_scalar, encode_utf8, is_scalar, valid_utf8};

verus! {

/// `core::str::Utf8Error`, which says where bytes stop being UTF-8. The
/// library only asks whether there is one.
#[verifier::external_type_specification]
#[verifier::external_body]
pub struct ExUtf8Error(core::str::Utf8Error);

/// `core::str::from_utf8` succeeds exactly on the byte strings that are
/// well-formed UTF-8, and the string slice it returns has those bytes.
pub assume_specification<'a>[ core::str::from_utf8 ](bytes: &'a [u8]) -> (result: Result<
    &'a str,
    core::str::Utf8Error,
>)
    ensures
        result is Ok <==> valid_utf8(bytes@),
        result matches Ok(text) ==> text.spec_bytes() == bytes@,
;

/// The names that a vector of strings holds, as character sequences.
pub open spec fn names_of(classes: Seq<String>) -> Seq<Seq<char>> {
    Seq::new(classes.len(), |i: int| classes[i]@)
}

/// A name that survives being written and read back: it is not empty and
/// holds no NUL character.
pub open spec fn storable(name: Seq<char>) -> bool {
    name.len() > 0 && forall|i: int| 0 <= i < name.len() ==> name[i] != '\0'
}

/// The bytes of a class table that holds `names`.
pub open spec fn encode_table(names: Seq<Seq<char>>) -> Seq<u8>
    decreases names.len(),
{
    if names.len() == 0 {
        Seq::empty()
    } else {
        encode_utf8(names[0]) + seq![0u8] + encode_table(names.drop_first())
    }
}

/// Where the first zero byte of `bytes` stands, or the length of `bytes` if
/// there is none.
pub open spec fn first_nul(bytes: Seq<u8>) -> int
    decreases bytes.len(),
{
    if bytes.len() == 0 || bytes[0] == 0 {
        0
    } else {
        1 + first_nul(bytes.drop_first())
    }
}

/// What one piece between two zero bytes contributes: its text if it is a
/// non-empty UTF-8 string, nothing otherwise.
pub open spec fn piece_names(piece: Seq<u8>) -> Seq<Seq<char>> {
    if piece.len() > 0 && valid_utf8(piece) {
        seq![decode_utf8(piece)]
    } else {
        Seq::empty()
    }
}

/// The names read from the bytes of a class table.
pub open spec fn parse_table(bytes: Seq<u8>) -> Seq<Seq<char>>
    decreases bytes.len(),
{
    if bytes.len() == 0 {
        Seq::empty()
    } else {
        let cut = first_nul(bytes);
        let rest = if 0 <= cut < bytes.len() {
            parse_table(bytes.subrange(cut + 1, bytes.len() as int))
        } else {
            Seq::empty()
        };
        piece_names(bytes.subrange(0, cut)) + rest
    }
}

/// `first_nul` is the one position that has no zero byte before it and a
/// zero byte, or the end, at it.
pub proof fn lemma_first_nul(bytes: Seq<u8>, cut: int)
    requires
        0 <= cut <= bytes.len(),
        forall|i: int| 0 <= i < cut ==> bytes[i] != 0,
        cut < bytes.len() ==> bytes[cut] == 0,
    ensures
        first_nul(bytes) == cut,
    decreases bytes.len(),
{
    if cut > 0 {
        let tail = bytes.drop_first();
        assert forall|i: int| 0 <= i < cut - 1 implies tail[i] != 0 by {
            assert(tail[i] == bytes[i + 1]);
        }
        lemma_first_nul(tail, cut - 1);
    }
}

/// The bytes that encode a non-zero scalar value hold no zero byte, and there
/// is at least one of them.
pub proof fn lemma_scalar_has_no_nul(scalar: u32)
    requires
        is_scalar(scalar),
        scalar != 0,
    ensures
        encode_scalar(scalar).len() > 0,
        forall|i: int| 0 <= i < encode_scalar(scalar).len() ==> encode_scalar(scalar)[i] != 0,
{
    assert(scalar != 0 && scalar <= 0x7F ==> (scalar & 0x7F) as u8 != 0) by (bit_vector);
    assert(0xC0 | ((scalar >> 6) & 0x1F) as u8 != 0) by (bit_vector);
    assert(0xE0 | ((scalar >> 12) & 0x0F) as u8 != 0) by (bit_vector);
    assert(0xF0 | ((scalar >> 18) & 0x7) as u8 != 0) by (bit_vector);
    assert(0x80 | (scalar & 0x3F) as u8 != 0) by (bit_vector);
    assert(0x80 | ((scalar >> 6) & 0x3F) as u8 != 0) by (bit_vector);
    assert(0x80 | ((scalar >> 12) & 0x3F) as u8 != 0) by (bit_vector);
}

/// The UTF-8 bytes of a storable name are not empty and hold no zero byte.
pub proof fn lemma_name_has_no_nul(name: Seq<char>)
    requires
        forall|i: int| 0 <= i < name.len() ==> name[i] != '\0',
    ensures
        name.len() > 0 ==> encode_utf8(name).len() > 0,
        forall|i: int| 0 <= i < encode_utf8(name).len() ==> encode_utf8(name)[i] != 0,
    decreases name.len(),
{
    if name.len() > 0 {
        let scalar = name[0] as u32;
        vstd::utf8::char_is_scalar(name[0]);
        assert(scalar != 0) by {
            vstd::utf8::char_u32_cast(name[0], scalar);
            vstd::utf8::char_u32_cast('\0', 0u32);
        }
        lemma_scalar_has_no_nul(scalar);
        let tail = name.drop_first();
        assert forall|i: int| 0 <= i < tail.len() implies tail[i] != '\0' by {
            assert(tail[i] == name[i + 1]);
        }
        lemma_name_has_no_nul(tail);
        let head = encode_scalar(scalar);
        let bytes = encode_utf8(name);
        assert(bytes == head + encode_utf8(tail));
        assert forall|i: int| 0 <= i < bytes.len() implies bytes[i] != 0 by {
            if i < head.len() {
                assert(bytes[i] == head[i]);
            } else {
                assert(bytes[i] == encode_utf8(tail)[i - head.len()]);
            }
        }
    }
}

/// A table of storable names reads back as the same names.
pub proof fn lemma_table_round_trip(names: Seq<Seq<char>>)
    requires
        forall|i: int| 0 <= i < names.len() ==> storable(#[trigger] names[i]),
    ensures
        parse_table(encode_table(names)) == names,
    decreases names.len(),
{
    if names.len() > 0 {
        let head = encode_utf8(names[0]);
        let tail = names.drop_first();
        let bytes = encode_table(names);
        assert(storable(names[0]));
        lemma_name_has_no_nul(names[0]);
        lemma_first_nul(bytes, head.len() as int);
        assert(bytes.subrange(0, head.len() as int) =~= head);
        assert(bytes.subrange(head.len() as int + 1, bytes.len() as int) =~= encode_table(tail));
        vstd::utf8::encode_utf8_valid_utf8(names[0]);
        vstd::utf8::encode_utf8_decode_utf8(names[0]);
        assert forall|i: int| 0 <= i < tail.len() implies storable(#[trigger] tail[i]) by {
            assert(tail[i] == names[i + 1]);
        }
        lemma_table_round_trip(tail);
        assert(parse_table(bytes) =~= names);
    }
}

/// Adding a name at the end of the list adds its bytes and a zero byte at
/// the end of the table.
pub proof fn lemma_encode_table_push(names: Seq<Seq<char>>, name: Seq<char>)
    ensures
        encode_table(names.push(name)) == encode_table(names) + encode_utf8(name) + seq![0u8],
    decreases names.len(),
{
    if names.len() == 0 {
        let one = names.push(name);
        assert(one[0] == name);
        assert(one.drop_first() =~= Seq::<Seq<char>>::empty());
        assert(encode_table(one.drop_first()) =~= Seq::<u8>::empty());
        assert(encode_table(one) =~= encode_utf8(name) + seq![0u8]);
        assert(encode_table(one) =~= encode_table(names) + encode_utf8(name) + seq![0u8]);
    } else {
        lemma_encode_table_push(names.drop_first(), name);
        assert(names.push(name).drop_first() =~= names.drop_first().push(name));
        assert(encode_table(names.push(name)) =~= encode_table(names) + encode_utf8(name)
            + seq![0u8]);
    }
}

/// The table of the first `count` names is no longer than the table of all.
pub proof fn lemma_encode_table_take(names: Seq<Seq<char>>, count: int)
    requires
        0 <= count <= names.len(),
    ensures
        encode_table(names.take(count)).len() <= encode_table(names).len(),
    decreases names.len() - count,
{
    if count < names.len() {
        lemma_encode_table_take(names, count + 1);
        lemma_encode_table_push(names.take(count), names[count]);
        assert(names.take(count + 1) =~= names.take(count).push(names[count]));
    } else {
        assert(names.take(count) =~= names);
    }
}

/// A table is as long as its names and their terminators together, so it is
/// no longer than `limit` times the number of names when each name with its
/// terminator fits in `limit` bytes.
pub proof fn lemma_encode_table_len(names: Seq<Seq<char>>, limit: nat)
    requires
        forall|i: int| 0 <= i < names.len() ==> encode_utf8(#[trigger] names[i]).len() + 1 <= limit,
    ensures
        encode_table(names).len() <= names.len() * limit,
    decreases names.len(),
{
    if names.len() > 0 {
        let tail = names.drop_first();
        assert forall|i: int| 0 <= i < tail.len() implies encode_utf8(#[trigger] tail[i]).len() + 1
            <= limit by {
            assert(tail[i] == names[i + 1]);
        }
        lemma_encode_table_len(tail, limit);
        assert(encode_utf8(names[0]).len() + 1 <= limit);
        assert(names.len() * limit == tail.len() * limit + limit) by (nonlinear_arith)
            requires
                names.len() == tail.len() + 1,
        ;
    }
}

/// Appends `bytes` to `out`.
pub fn append_bytes(out: &mut Vec<u8>, bytes: &[u8])
    ensures
        final(out)@ == old(out)@ + bytes@,
{
    out.extend_from_slice(bytes);
    assert(out@ =~= old(out)@ + bytes@);
}

/// Writes the class table that holds `classes`.
pub fn encode_class_table(classes: &Vec<String>) -> (table: Vec<u8>)
    ensures
        table@ == encode_table(names_of(classes@)),
{
    let ghost names = names_of(classes@);
    let mut table: Vec<u8> = Vec::new();
    let mut i: usize = 0;
    while i < classes.len()
        invariant
            i <= classes.len(),
            names == names_of(classes@),
            table@ == encode_table(names.take(i as int)),
        decreases classes.len() - i,
    {
        append_bytes(&mut table, classes[i].as_str().as_bytes());
        table.push(0);
        proof {
            lemma_encode_table_push(names.take(i as int), names[i as int]);
            assert(names.take(i + 1) =~= names.take(i as int).push(names[i as int]));
        }
        i += 1;
    }
    assert(names.take(i as int) =~= names);
    table
}

/// Adds to `classes` the name that `piece` holds, if it holds one.
fn keep_piece(classes: &mut Vec<String>, piece: &[u8])
    ensures
        names_of(final(classes)@) == names_of(old(classes)@) + piece_names(piece@),
{
    if piece.len() > 0 {
        match core::str::from_utf8(piece) {
            Ok(text) => {
                classes.push(text.to_owned());
                proof {
                    vstd::utf8::encode_utf8_decode_utf8(text@);
                    assert(names_of(classes@) =~= names_of(old(classes)@) + piece_names(piece@));
                }
            },
            Err(_) => {
                assert(names_of(classes@) =~= names_of(old(classes)@) + piece_names(piece@));
            },
        }
    } else {
        assert(names_of(classes@) =~= names_of(old(classes)@) + piece_names(piece@));
    }
}

/// Reads the names from the bytes of a class table.
pub fn parse_class_table(raw: &[u8]) -> (classes: Vec<String>)
    ensures
        names_of(classes@) == parse_table(raw@),
{
    let mut classes: Vec<String> = Vec::new();
    let mut start: usize = 0;
    let mut at: usize = 0;
    assert(raw@.subrange(0, raw@.len() as int) =~= raw@);
    assert(names_of(classes@) + parse_table(raw@) =~= parse_table(raw@));
    while at < raw.len()
        invariant
            start <= at <= raw.len(),
            forall|i: int| start <= i < at ==> raw@[i] != 0,
            parse_table(raw@) == names_of(classes@) + parse_table(
                raw@.subrange(start as int, raw@.len() as int),
            ),
        decreases raw.len() - at,
    {
        if raw[at] == 0 {
            let ghost before = names_of(classes@);
            let ghost rest = raw@.subrange(start as int, raw@.len() as int);
            keep_piece(&mut classes, slice_subrange(raw, start, at));
            proof {
                lemma_first_nul(rest, at - start);
                assert(rest.subrange(0, at - start) =~= raw@.subrange(start as int, at as int));
                assert(rest.subrange(at - start + 1, rest.len() as int) =~= raw@.subrange(
                    at + 1,
                    raw@.len() as int,
                ));
                let piece = piece_names(raw@.subrange(start as int, at as int));
                let after = parse_table(raw@.subrange(at + 1, raw@.len() as int));
                assert(before + (piece + after) =~= (before + piece) + after);
            }
            start = at + 1;
        }
        at += 1;
    }
    let ghost before = names_of(classes@);
    let ghost rest = raw@.subrange(start as int, raw@.len() as int);
    keep_piece(&mut classes, slice_subrange(raw, start, raw.len()));
    proof {
        lemma_first_nul(rest, rest.len() as int);
        assert(rest.subrange(0, rest.len() as int) =~= rest);
        assert(parse_table(rest) =~= piece_names(rest));
    }
    classes
}

} // verus!
