//! The entity ids of the `uuid` crate.

use uuid::Uuid;
use vstd::prelude::*;

verus! {

#[verifier::external_type_specification]
#[verifier::external_body]
pub struct ExUuid(Uuid);

/// The 128 bits of an id, most significant first.
pub uninterp spec fn uuid_bits(id: Uuid) -> u128;

/// `Uuid::from_u128`: the id with these bits.
pub assume_specification[ Uuid::from_u128 ](v: u128) -> (id: Uuid)
    ensures
        uuid_bits(id) == v,
;

/// `Uuid::as_u128`: the bits of the id.
pub assume_specification[ Uuid::as_u128 ](id: &Uuid) -> (v: u128)
    ensures
        v == uuid_bits(*id),
;

/// A signed 32-bit value as its two's complement bits.
pub open spec fn word(v: i32) -> nat {
    super::buffer::unsigned(v) as nat
}

/// The bits that four words stand for, the most significant word first.
pub open spec fn words_value(words: Seq<i32>) -> nat {
    ((word(words[0]) * 0x1_0000_0000 + word(words[1])) * 0x1_0000_0000 + word(words[2]))
        * 0x1_0000_0000 + word(words[3])
}

fn word_bits(v: i32) -> (r: u128)
    ensures
        r == word(v),
{
    if v < 0 {
        (v as i64 + 0x1_0000_0000) as u128
    } else {
        v as u128
    }
}

/// Decode a vanilla UUID stored as an `int[4]` array, most significant word
/// first. An array of another length is no id.
pub fn uuid_from_int_array(array: &[i32]) -> (r: Option<Uuid>)
    ensures
        r is Some <==> array@.len() == 4,
        r matches Some(id) ==> uuid_bits(id) == words_value(array@),
{
    if array.len() != 4 {
        return None;
    }
    let most: u128 = word_bits(array[0]) * 0x1_0000_0000 + word_bits(array[1]);
    let least: u128 = word_bits(array[2]) * 0x1_0000_0000 + word_bits(array[3]);
    Some(Uuid::from_u128(most * 0x1_0000_0000_0000_0000 + least))
}

/// The signed 32-bit value with the two's complement bits `u`.
pub open spec fn signed(u: nat) -> i32 {
    if u < 0x8000_0000 {
        u as i32
    } else {
        (u - 0x1_0000_0000) as i32
    }
}

/// The four words of an id's bits, the most significant first.
pub open spec fn words_of(bits: u128) -> Seq<i32> {
    let b = bits as nat;
    seq![
        signed(b / 0x1_0000_0000_0000_0000_0000_0000),
        signed(b / 0x1_0000_0000_0000_0000 % 0x1_0000_0000),
        signed(b / 0x1_0000_0000 % 0x1_0000_0000),
        signed(b % 0x1_0000_0000),
    ]
}

/// Every id is what the array of its words decodes to.
pub proof fn law_every_id_has_an_array(bits: u128)
    ensures
        words_of(bits).len() == 4,
        words_value(words_of(bits)) == bits,
{
    let b = bits as nat;
    let words = words_of(bits);
    assert(word(words[0]) == b / 0x1_0000_0000_0000_0000_0000_0000);
    assert(word(words[1]) == b / 0x1_0000_0000_0000_0000 % 0x1_0000_0000);
    assert(word(words[2]) == b / 0x1_0000_0000 % 0x1_0000_0000);
    assert(word(words[3]) == b % 0x1_0000_0000);
}

/// Two arrays that decode to the same id are the same array.
pub proof fn law_ids_tell_arrays_apart(a: Seq<i32>, b: Seq<i32>)
    requires
        a.len() == 4,
        b.len() == 4,
        words_value(a) == words_value(b),
    ensures
        a == b,
{
    assert(forall|v: i32| word(v) < 0x1_0000_0000);
    assert(word(a[0]) == word(b[0]));
    assert(word(a[1]) == word(b[1]));
    assert(word(a[2]) == word(b[2]));
    assert(word(a[3]) == word(b[3]));
    assert(a =~= b);
}

/// The words of an array are the digits of its id to the base 2^32, the most
/// significant first, a negative word in two's complement.
pub proof fn law_words_are_digits(words: Seq<i32>)
    requires
        words.len() == 4,
    ensures
        words_value(words) <= u128::MAX,
        words_value(words) / 0x1_0000_0000_0000_0000_0000_0000 == if words[0] < 0 {
            words[0] + 0x1_0000_0000
        } else {
            words[0] as int
        },
        words_value(words) / 0x1_0000_0000_0000_0000 % 0x1_0000_0000 == if words[1] < 0 {
            words[1] + 0x1_0000_0000
        } else {
            words[1] as int
        },
        words_value(words) / 0x1_0000_0000 % 0x1_0000_0000 == if words[2] < 0 {
            words[2] + 0x1_0000_0000
        } else {
            words[2] as int
        },
        words_value(words) % 0x1_0000_0000 == if words[3] < 0 {
            words[3] + 0x1_0000_0000
        } else {
            words[3] as int
        },
{
}

/// An id is known by its digits to the base 2^32.
pub(crate) proof fn lemma_same_digits(a: nat, b: nat)
    requires
        a / 0x1_0000_0000_0000_0000_0000_0000 == b / 0x1_0000_0000_0000_0000_0000_0000,
        a / 0x1_0000_0000_0000_0000 % 0x1_0000_0000 == b / 0x1_0000_0000_0000_0000 % 0x1_0000_0000,
        a / 0x1_0000_0000 % 0x1_0000_0000 == b / 0x1_0000_0000 % 0x1_0000_0000,
        a % 0x1_0000_0000 == b % 0x1_0000_0000,
    ensures
        a == b,
{
    let a1 = a / 0x1_0000_0000;
    let b1 = b / 0x1_0000_0000;
    let a2 = a / 0x1_0000_0000_0000_0000;
    let b2 = b / 0x1_0000_0000_0000_0000;
    assert(a2 / 0x1_0000_0000 == a / 0x1_0000_0000_0000_0000_0000_0000);
    assert(b2 / 0x1_0000_0000 == b / 0x1_0000_0000_0000_0000_0000_0000);
    assert(a2 == b2);
    assert(a1 / 0x1_0000_0000 == a2);
    assert(b1 / 0x1_0000_0000 == b2);
    assert(a1 == b1);
}

} // verus!
