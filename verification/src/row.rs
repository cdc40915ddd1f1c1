//! Record codec: fixed-width binary encoding and decoding of one table row.
//!
//! A row is `id:u32` (little endian) followed by a 32-byte username field and
//! a 255-byte email field, each left-justified and padded with zero bytes.

use vstd::prelude::*;
use crate::le::lemma_u32_le_round_trip;
use crate::le::push_u32_le;
use crate::le::read_u32_le;
use crate::le::spec_u32_le;
use crate::le::spec_u32_of_le;
use crate::COLUMN_EMAIL_SIZE;
use crate::COLUMN_USERNAME_SIZE;
use crate::ID_SIZE;
use crate::ROW_SIZE;

verus! {

/// Which column of a record was too long for its fixed width.
#[derive(Clone, Copy, Debug, PartialEq, Eq, Structural)]
pub enum RowField {
    Username,
    Email,
}

/// Error returned by `encode` when a column exceeds its fixed width.
#[derive(Clone, Copy, Debug, PartialEq, Eq, Structural)]
pub enum RowError {
    ValueTooLong { field: RowField },
}

/// A byte string extended with zero bytes to the given width.
pub open spec fn spec_zero_pad(s: Seq<u8>, width: int) -> Seq<u8>
    recommends
        s.len() <= width,
{
    s + Seq::new((width - s.len()) as nat, |i: int| 0u8)
}

/// The encoded form of a row: little-endian id, then the two padded columns.
pub open spec fn spec_encode(id: u32, username: Seq<u8>, email: Seq<u8>) -> Seq<u8> {
    spec_u32_le(id) + spec_zero_pad(username, COLUMN_USERNAME_SIZE as int)
        + spec_zero_pad(email, COLUMN_EMAIL_SIZE as int)
}

/// Index of the first zero byte, or the length when there is none.
pub open spec fn spec_first_zero(s: Seq<u8>) -> int
    decreases s.len(),
{
    if s.len() == 0 {
        0
    } else if s[0] == 0 {
        0
    } else {
        1 + spec_first_zero(s.drop_first())
    }
}

/// The text of a padded column: its prefix up to the first zero byte.
pub open spec fn spec_field_text(s: Seq<u8>) -> Seq<u8> {
    s.take(spec_first_zero(s))
}

proof fn lemma_first_zero_bounds(s: Seq<u8>)
    ensures
        0 <= spec_first_zero(s) <= s.len(),
        forall|i: int| 0 <= i < spec_first_zero(s) ==> s[i] != 0,
        spec_first_zero(s) < s.len() ==> s[spec_first_zero(s)] == 0,
    decreases s.len(),
{
    if s.len() != 0 && s[0] != 0 {
        lemma_first_zero_bounds(s.drop_first());
        assert forall|i: int| 0 <= i < spec_first_zero(s) implies s[i] != 0 by {
            if i > 0 {
                assert(s.drop_first()[i - 1] != 0);
            }
        }
    }
}

/// The first zero of a zero-padded column sits right after the text,
/// so taking the prefix up to it recovers the text.
proof fn lemma_field_text_of_padded(s: Seq<u8>, width: int)
    requires
        s.len() <= width,
        forall|i: int| 0 <= i < s.len() ==> s[i] != 0,
    ensures
        spec_first_zero(spec_zero_pad(s, width)) == s.len(),
        spec_field_text(spec_zero_pad(s, width)) == s,
    decreases s.len(),
{
    let p = spec_zero_pad(s, width);
    if s.len() == 0 {
        if p.len() != 0 {
            assert(p[0] == 0);
        }
    } else {
        lemma_field_text_of_padded(s.drop_first(), width - 1);
        assert(p.drop_first() =~= spec_zero_pad(s.drop_first(), width - 1));
        assert(spec_first_zero(p) == s.len());
    }
    assert(spec_field_text(p) =~= s);
}

/// Encode one row: fails when a column exceeds its width, otherwise
/// zero-pads each column to the fixed layout.
pub fn encode(id: u32, username: &[u8], email: &[u8]) -> (r: Result<Vec<u8>, RowError>)
    ensures
        r is Ok <==> username@.len() <= COLUMN_USERNAME_SIZE && email@.len() <= COLUMN_EMAIL_SIZE,
        r is Ok ==> r->Ok_0@ == spec_encode(id, username@, email@) && r->Ok_0@.len() == ROW_SIZE,
        username@.len() > COLUMN_USERNAME_SIZE ==> r == Result::<Vec<u8>, RowError>::Err(
            RowError::ValueTooLong { field: RowField::Username },
        ),
        username@.len() <= COLUMN_USERNAME_SIZE && email@.len() > COLUMN_EMAIL_SIZE ==> r
            == Result::<Vec<u8>, RowError>::Err(RowError::ValueTooLong { field: RowField::Email }),
{
    if username.len() > COLUMN_USERNAME_SIZE {
        return Err(RowError::ValueTooLong { field: RowField::Username });
    }
    if email.len() > COLUMN_EMAIL_SIZE {
        return Err(RowError::ValueTooLong { field: RowField::Email });
    }
    let mut row: Vec<u8> = Vec::new();
    push_u32_le(&mut row, id);
    push_padded(&mut row, username, COLUMN_USERNAME_SIZE);
    push_padded(&mut row, email, COLUMN_EMAIL_SIZE);
    proof {
        lemma_u32_le_round_trip(id);
        assert(row@ =~= spec_encode(id, username@, email@));
    }
    Ok(row)
}

/// Append one column and its zero padding to the row being built.
fn push_padded(row: &mut Vec<u8>, field: &[u8], width: usize)
    requires
        field@.len() <= width,
        old(row)@.len() + width <= usize::MAX,
    ensures
        final(row)@ == old(row)@ + spec_zero_pad(field@, width as int),
{
    let ghost prefix = row@;
    let mut i: usize = 0;
    while i < field.len()
        invariant
            i <= field@.len() <= width,
            row@ == prefix + field@.take(i as int),
        decreases field@.len() - i,
    {
        row.push(field[i]);
        i += 1;
    }
    assert(field@.take(field@.len() as int) =~= field@);
    while i < width
        invariant
            field@.len() <= i <= width,
            row@ == prefix + field@ + Seq::new((i - field@.len()) as nat, |j: int| 0u8),
        decreases width - i,
    {
        row.push(0u8);
        i += 1;
        assert(row@ =~= prefix + field@ + Seq::new((i - field@.len()) as nat, |j: int| 0u8));
    }
    assert(row@ =~= prefix + spec_zero_pad(field@, width as int));
}

/// Decode one row into its id, username text and email text.
pub fn decode(row: &[u8]) -> (r: (u32, Vec<u8>, Vec<u8>))
    requires
        row@.len() == ROW_SIZE,
    ensures
        r.0 == spec_u32_of_le(row@.subrange(0, ID_SIZE as int)),
        r.1@ == spec_field_text(row@.subrange(ID_SIZE as int, (ID_SIZE + COLUMN_USERNAME_SIZE) as int)),
        r.2@ == spec_field_text(row@.subrange((ID_SIZE + COLUMN_USERNAME_SIZE) as int, ROW_SIZE as int)),
{
    let id = read_u32_le(row, 0);
    let username = read_field(row, ID_SIZE, COLUMN_USERNAME_SIZE);
    let email = read_field(row, ID_SIZE + COLUMN_USERNAME_SIZE, COLUMN_EMAIL_SIZE);
    (id, username, email)
}

/// Copy a padded column's text: the bytes from `start` up to the first zero
/// byte within the column's width.
fn read_field(row: &[u8], start: usize, width: usize) -> (r: Vec<u8>)
    requires
        start + width <= row@.len(),
    ensures
        r@ == spec_field_text(row@.subrange(start as int, (start + width) as int)),
{
    let ghost col = row@.subrange(start as int, (start + width) as int);
    let n = row.len();
    let mut out: Vec<u8> = Vec::new();
    let mut i: usize = 0;
    while i < width && row[start + i] != 0
        invariant
            i <= width,
            start + width <= n == row@.len(),
            col == row@.subrange(start as int, (start + width) as int),
            out@ == col.take(i as int),
            forall|j: int| 0 <= j < i ==> col[j] != 0,
        decreases width - i,
    {
        out.push(row[start + i]);
        i += 1;
        assert(out@ =~= col.take(i as int));
    }
    proof {
        lemma_first_zero_bounds(col);
        if i < width {
            assert(col[i as int] == 0);
        }
        assert(spec_first_zero(col) == i) by {
            if spec_first_zero(col) < i {
                assert(col[spec_first_zero(col)] != 0);
            }
            if spec_first_zero(col) > i {
                assert(col[i as int] != 0);
            }
        }
    }
    out
}

/// Read only a row's primary key: the little-endian id in its first bytes.
pub fn get_id(row: &[u8]) -> (id: u32)
    requires
        row@.len() >= ID_SIZE,
    ensures
        id == spec_u32_of_le(row@.subrange(0, ID_SIZE as int)),
{
    read_u32_le(row, 0)
}

/// The all-default row: id zero and both columns empty.
pub fn default_row() -> (r: Vec<u8>)
    ensures
        r@ == spec_encode(0, Seq::<u8>::empty(), Seq::<u8>::empty()),
        r@.len() == ROW_SIZE,
{
    let r = encode(0, &[], &[]);
    match r {
        Ok(v) => v,
        Err(_) => vstd::pervasive::unreached(),
    }
}

/// Law: decoding an encoded row gives back the id and both column texts,
/// for every id and all column values that fit their widths and hold no
/// zero byte.
pub proof fn lemma_encode_decode_round_trip(id: u32, username: Seq<u8>, email: Seq<u8>)
    requires
        username.len() <= COLUMN_USERNAME_SIZE,
        email.len() <= COLUMN_EMAIL_SIZE,
        forall|i: int| 0 <= i < username.len() ==> username[i] != 0,
        forall|i: int| 0 <= i < email.len() ==> email[i] != 0,
    ensures
        spec_u32_of_le(spec_encode(id, username, email).subrange(0, ID_SIZE as int)) == id,
        spec_field_text(
            spec_encode(id, username, email).subrange(
                ID_SIZE as int,
                (ID_SIZE + COLUMN_USERNAME_SIZE) as int,
            ),
        ) == username,
        spec_field_text(
            spec_encode(id, username, email).subrange(
                (ID_SIZE + COLUMN_USERNAME_SIZE) as int,
                ROW_SIZE as int,
            ),
        ) == email,
{
    let row = spec_encode(id, username, email);
    lemma_u32_le_round_trip(id);
    assert(row.subrange(0, ID_SIZE as int) =~= spec_u32_le(id));
    assert(row.subrange(ID_SIZE as int, (ID_SIZE + COLUMN_USERNAME_SIZE) as int)
        =~= spec_zero_pad(username, COLUMN_USERNAME_SIZE as int));
    assert(row.subrange((ID_SIZE + COLUMN_USERNAME_SIZE) as int, ROW_SIZE as int)
        =~= spec_zero_pad(email, COLUMN_EMAIL_SIZE as int));
    lemma_field_text_of_padded(username, COLUMN_USERNAME_SIZE as int);
    lemma_field_text_of_padded(email, COLUMN_EMAIL_SIZE as int);
}

} // verus!
