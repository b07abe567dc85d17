//! From a master secret and a salt to a password.
//!
//! The secret and the salt go through Argon2d into 32 bytes of key material.
//! The key material seeds a stream of bytes, an index below the size of the
//! schema is drawn from the stream, and the index is decoded into the
//! password. The key material and the stream are overwritten with zero bytes
//! before their owner returns.

use crate::cardinality::{bounded, size, size_of};
use crate::count::Count;
use crate::error::Failure;
use crate::generate::{generate, generate_at, text_of};
use crate::grammar::parse_schema;
use crate::keystream::{all_zero, wipe_bytes, Keystream};
use crate::language::produces;
use crate::parser::parse;
use crate::schema::{well_formed, Node, Schema};
use crate::words::Words;
use argon2::{Algorithm, Argon2, Params, Version};
use crypto_bigint::{NonZero, RandomMod, U128, U256};
use vstd::pervasive::unreached;
use vstd::prelude::*;
use vstd::utf8::encode_utf8;

verus! {

/// `argon2::Error`: why Argon2 refused its input.
#[verifier::external_type_specification]
#[verifier::external_body]
pub struct ExArgon2Error(argon2::Error);

/// The 32 bytes that Argon2d, version 0x13, with the default parameters of
/// the `argon2` crate, derives from a secret and a salt.
pub uninterp spec fn argon2d_key(secret: Seq<u8>, salt: Seq<u8>) -> Seq<u8>;

/// Whether Argon2 accepts a secret and a salt of these lengths: a secret of
/// at most 2^32 - 1 bytes, and a salt of at least 8 and at most 2^32 - 1.
pub open spec fn key_lengths_ok(secret: Seq<u8>, salt: Seq<u8>) -> bool {
    secret.len() <= 0xFFFF_FFFF && 8 <= salt.len() <= 0xFFFF_FFFF
}

/// `argon2::Argon2::hash_password_into`, on an `Argon2` made by
/// `Argon2::new` for Argon2d, version 0x13 and `Params::default()`. It
/// succeeds exactly where the lengths of the secret and the salt are
/// accepted, and then fills `key` with the derived bytes.
#[verifier::external_body]
fn argon2d_into(secret: &[u8], salt: &[u8], key: &mut [u8; 32]) -> (r: Result<(), argon2::Error>)
    ensures
        r is Ok <==> key_lengths_ok(secret@, salt@),
        r is Ok ==> final(key)@ == argon2d_key(secret@, salt@),
{
    Argon2::new(Algorithm::Argon2d, Version::V0x13, Params::default()).hash_password_into(
        secret,
        salt,
        key,
    )
}

/// The value below `bound` that `crypto_bigint`'s `random_mod` makes of the
/// stream for `key`, read from `position` on, where the words of the machine
/// have `word_bits` bits. The words that it reads from the stream depend on
/// nothing else; their number and their width depend on the width of the
/// machine's words.
pub uninterp spec fn drawn(key: Seq<u8>, position: nat, bound: nat, word_bits: nat) -> nat;

/// `crypto_bigint::RandomMod::random_mod` on `U256`, with the stream as its
/// source of random bits: a value below `bound`. It reads words from the
/// stream and masks them to the width of `bound` until they make a value
/// below `bound`, so that every value below `bound` is as likely as any
/// other.
#[verifier::external_body]
fn sample_below(stream: &mut Keystream, bound: &Count) -> (r: Count)
    requires
        bound@ > 0,
    ensures
        r@ < bound@,
        r@ == drawn(old(stream).key(), old(stream).position(), bound@, usize::BITS as nat),
{
    let modulus: U256 = U128::from_u128(bound.low()).concat(&U128::from_u128(bound.high()));
    let (lo, hi) = U256::random_mod(stream, &NonZero::new(modulus).unwrap()).split();
    Count::from_parts(u128::from(hi), u128::from(lo))
}

/// Whether the two texts are the same.
pub fn same_text(a: &str, b: &str) -> (r: bool)
    ensures
        r == (a@ == b@),
{
    let n: usize = a.unicode_len();
    if b.unicode_len() != n {
        return false;
    }
    let mut i: usize = 0;
    while i < n
        invariant
            i <= n,
            n == a@.len(),
            n == b@.len(),
            forall|k: int| 0 <= k < i ==> a@[k] == b@[k],
        decreases n - i,
    {
        if a.get_char(i) != b.get_char(i) {
            return false;
        }
        i += 1;
    }
    assert(a@ =~= b@);
    true
}

/// Whether a secret stands confirmed: no confirmation was asked for, or the
/// confirmation is the secret.
pub open spec fn confirmed(secret: Seq<char>, confirmation: Option<&str>) -> bool {
    match confirmation {
        None => true,
        Some(again) => again@ == secret,
    }
}

/// A master secret that stands confirmed. Key derivation takes no other.
pub struct Confirmed<'a> {
    secret: &'a str,
}

impl<'a> Confirmed<'a> {
    /// The text of the secret.
    pub closed spec fn text(&self) -> Seq<char> {
        self.secret@
    }

    /// The bytes of the secret.
    pub closed spec fn bytes(&self) -> Seq<u8> {
        encode_utf8(self.secret@)
    }

    /// The secret, where it stands confirmed.
    pub fn new(secret: &'a str, confirmation: Option<&str>) -> (r: Result<Confirmed<'a>, Failure>)
        ensures
            r is Ok <==> confirmed(secret@, confirmation),
            r matches Ok(c) ==> c.text() == secret@ && c.bytes() == encode_utf8(secret@),
            r matches Err(e) ==> e == Failure::SecretMismatch,
    {
        match confirmation {
            None => Ok(Confirmed { secret }),
            Some(again) => {
                if same_text(secret, again) {
                    Ok(Confirmed { secret })
                } else {
                    Err(Failure::SecretMismatch)
                }
            },
        }
    }
}

/// Derives the key material for a confirmed secret and a salt into `key`.
///
/// Where the key derivation refuses the lengths of its input, `key` is left
/// holding zero bytes.
pub fn derive_key(secret: &Confirmed, salt: &str, key: &mut [u8; 32]) -> (r: Result<(), Failure>)
    ensures
        r is Ok <==> key_lengths_ok(secret.bytes(), encode_utf8(salt@)),
        r is Ok ==> final(key)@ == argon2d_key(secret.bytes(), encode_utf8(salt@)),
        r matches Err(e) ==> e == Failure::KeyDerivation && all_zero(final(key)@),
{
    match argon2d_into(secret.secret.as_bytes(), salt.as_bytes(), key) {
        Ok(()) => Ok(()),
        Err(_) => {
            wipe_bytes(key);
            Err(Failure::KeyDerivation)
        },
    }
}

/// Draws an index below `bound` from the stream of bytes that the key
/// material seeds, and overwrites the key material with zero bytes.
///
/// Every index below `bound` is as likely as any other. There is none where
/// `bound` is zero.
pub fn draw_index(key: &mut [u8; 32], bound: &Count) -> (r: Option<Count>)
    ensures
        r is Some <==> bound@ > 0,
        r matches Some(index) ==> index@ < bound@ && index@ == drawn(
            old(key)@,
            0,
            bound@,
            usize::BITS as nat,
        ),
        all_zero(final(key)@),
{
    if bound.is_zero() {
        wipe_bytes(key);
        None
    } else {
        let mut stream = Keystream::new(key);
        wipe_bytes(key);
        let index = sample_below(&mut stream, bound);
        stream.wipe();
        Some(index)
    }
}

/// The size of a schema that produces at least one string.
///
/// The result is `Failure::SchemaTooLarge` where the schema is not bounded,
/// and `Failure::EmptyLanguage` where it is and produces no string.
pub fn cardinality(node: &Node, words: &Words) -> (r: Result<Count, Failure>)
    ensures
        r is Ok <==> bounded(node@, words@) && size_of(node@, words@) > 0,
        r matches Ok(n) ==> n@ == size_of(node@, words@),
        r matches Err(e) ==> e == if bounded(node@, words@) {
            Failure::EmptyLanguage
        } else {
            Failure::SchemaTooLarge
        },
{
    match size(node, words) {
        Ok(total) => if total.is_zero() {
            Err(Failure::EmptyLanguage)
        } else {
            Ok(total)
        },
        Err(_) => Err(Failure::SchemaTooLarge),
    }
}

/// What reading a schema text and counting its strings gives: the schema and
/// its size, or the first of these that holds. The text is malformed; the
/// schema is not bounded; the schema produces no string.
pub open spec fn compiled(text: Seq<char>, words: Seq<Seq<char>>) -> Result<(Schema, nat), Failure> {
    match parse_schema(text) {
        Err(e) => Err(Failure::SchemaSyntax(e)),
        Ok(schema) => if !bounded(schema, words) {
            Err(Failure::SchemaTooLarge)
        } else if size_of(schema, words) == 0 {
            Err(Failure::EmptyLanguage)
        } else {
            Ok((schema, size_of(schema, words)))
        },
    }
}

/// Reads a schema text and counts the strings of the schema.
///
/// A schema that is accepted here produces at least one string, so that an
/// index can be drawn for it.
pub fn compile(text: &str, words: &Words) -> (r: Result<(Node, Count), Failure>)
    ensures
        match r {
            Ok((node, total)) => compiled(text@, words@) == Ok::<(Schema, nat), Failure>(
                (node@, total@),
            ) && well_formed(node@),
            Err(e) => compiled(text@, words@) == Err::<(Schema, nat), Failure>(e),
        },
{
    match parse(text) {
        Err(e) => Err(Failure::SchemaSyntax(e)),
        Ok(node) => match cardinality(&node, words) {
            Err(e) => Err(e),
            Ok(total) => Ok((node, total)),
        },
    }
}

/// Why `derive` gives no password for an input, if it gives none: the first
/// of these that holds. The confirmation differs from the secret; the schema
/// is not bounded; the schema produces no string; the key derivation refuses
/// the lengths of the secret or the salt.
pub open spec fn derive_failure(
    secret: &str,
    confirmation: Option<&str>,
    salt: &str,
    schema: Schema,
    words: Seq<Seq<char>>,
) -> Option<Failure> {
    if !confirmed(secret@, confirmation) {
        Some(Failure::SecretMismatch)
    } else if !bounded(schema, words) {
        Some(Failure::SchemaTooLarge)
    } else if size_of(schema, words) == 0 {
        Some(Failure::EmptyLanguage)
    } else if !key_lengths_ok(encode_utf8(secret@), encode_utf8(salt@)) {
        Some(Failure::KeyDerivation)
    } else {
        None
    }
}

/// The index that `derive` draws for a secret, a salt and the size of a
/// schema: the value that the stream for the key material gives, read from
/// its beginning.
pub open spec fn derived_index(secret: Seq<char>, salt: Seq<char>, size: nat) -> nat {
    drawn(argon2d_key(encode_utf8(secret), encode_utf8(salt)), 0, size, usize::BITS as nat)
}

/// What `derive` gives for an input: why it gives no password, or the string
/// that the schema produces at the index drawn for the secret and the salt.
pub open spec fn derived(
    secret: &str,
    confirmation: Option<&str>,
    salt: &str,
    schema: Schema,
    words: Seq<Seq<char>>,
) -> Result<Seq<char>, Failure> {
    match derive_failure(secret, confirmation, salt, schema, words) {
        Some(e) => Err(e),
        None => Ok(
            generate_at(schema, words, derived_index(secret@, salt@, size_of(schema, words))),
        ),
    }
}

/// Derivation is a function of the secret, the confirmation, the salt, the
/// schema and the words: two results of `derive` for the same five are the
/// same.
pub proof fn lemma_derive_deterministic(
    secret: &str,
    confirmation: Option<&str>,
    salt: &str,
    node: Node,
    words: Seq<Seq<char>>,
    first: Result<String, Failure>,
    second: Result<String, Failure>,
)
    requires
        text_of(first) == derived(secret, confirmation, salt, node@, words),
        text_of(second) == derived(secret, confirmation, salt, node@, words),
    ensures
        text_of(first) == text_of(second),
{
}

/// The password for a master secret, a salt and a schema: the string that the
/// schema produces at the index drawn from the secret and the salt.
///
/// A confirmation that differs from the secret ends the derivation before
/// anything else is done. A password that is given is a string of the schema.
pub fn derive(
    secret: &str,
    confirmation: Option<&str>,
    salt: &str,
    node: &Node,
    words: &Words,
) -> (r: Result<String, Failure>)
    ensures
        text_of(r) == derived(secret, confirmation, salt, node@, words@),
        !confirmed(secret@, confirmation) ==> r == Err::<String, Failure>(Failure::SecretMismatch),
        r matches Ok(password) ==> produces(node@, words@, password@),
{
    let checked = match Confirmed::new(secret, confirmation) {
        Ok(checked) => checked,
        Err(e) => {
            return Err(e);
        },
    };
    let total = match cardinality(node, words) {
        Ok(total) => total,
        Err(e) => {
            return Err(e);
        },
    };
    let mut key: [u8; 32] = [0u8; 32];
    match derive_key(&checked, salt, &mut key) {
        Ok(()) => {},
        Err(e) => {
            return Err(e);
        },
    }
    match draw_index(&mut key, &total) {
        Some(index) => generate(node, words, &index),
        None => unreached(),
    }
}

} // verus!
