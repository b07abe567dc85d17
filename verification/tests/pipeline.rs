use argon2::{Algorithm, Argon2, Params, Version};
use crypto_bigint::rand_core::{Error, RngCore};
use crypto_bigint::{NonZero, RandomMod, U128, U256};
use onepass::count::Count;
use onepass::error::Failure;
use onepass::generate::generate;
use onepass::keystream::Keystream;
use onepass::parser::parse;
use onepass::pipeline::{cardinality, derive_key, draw_index, same_text, Confirmed};
use onepass::salt::salt_for;
use onepass::words::Words;

struct Reader(blake3::OutputReader);

impl RngCore for Reader {
    fn next_u32(&mut self) -> u32 {
        let mut bytes = [0u8; 4];
        self.0.fill(&mut bytes);
        u32::from_le_bytes(bytes)
    }

    fn next_u64(&mut self) -> u64 {
        let mut bytes = [0u8; 8];
        self.0.fill(&mut bytes);
        u64::from_le_bytes(bytes)
    }

    fn fill_bytes(&mut self, dst: &mut [u8]) {
        self.0.fill(dst);
    }

    fn try_fill_bytes(&mut self, dest: &mut [u8]) -> Result<(), Error> {
        self.fill_bytes(dest);
        Ok(())
    }
}

fn wide(count: &Count) -> U256 {
    U128::from_u128(count.low()).concat(&U128::from_u128(count.high()))
}

fn narrow(value: U256) -> Count {
    let (lo, hi) = value.split();
    Count::from_parts(u128::from(hi), u128::from(lo))
}

fn direct_key(secret: &str, salt: &str) -> [u8; 32] {
    let mut key = [0u8; 32];
    Argon2::new(Algorithm::Argon2d, Version::V0x13, Params::default())
        .hash_password_into(secret.as_bytes(), salt.as_bytes(), &mut key)
        .unwrap();
    key
}

fn direct_index(key: &[u8; 32], size: &Count) -> Count {
    let mut hasher = blake3::Hasher::new();
    hasher.update(key);
    let mut rng = Reader(hasher.finalize_xof());
    narrow(U256::random_mod(&mut rng, &NonZero::new(wide(size)).unwrap()))
}

fn password(secret: &str, salt: &str, schema: &str) -> Result<String, Failure> {
    let node = parse(schema).unwrap();
    let words = Words::new(vec!["correct".to_string(), "horse".to_string()]);
    onepass::pipeline::derive(secret, None, salt, &node, &words)
}

#[test]
fn derive_is_argon2d_then_blake3_then_random_mod() {
    let node = parse("[a-z]{12}[0-9]{4}").unwrap();
    let words = Words::new(Vec::new());
    let size = cardinality(&node, &words).unwrap();
    let key = direct_key("hunter2", "0,example.com");
    let index = direct_index(&key, &size);
    let expected = generate(&node, &words, &index).unwrap();
    let derived =
        onepass::pipeline::derive("hunter2", None, "0,example.com", &node, &words).unwrap();
    assert_eq!(derived, expected);
    assert_eq!(derived.len(), 16);
}

#[test]
fn derive_twice_gives_the_same_password() {
    let first = password("hunter2", "0,example.com", "[:Word:](-[:word:]){3}[!-/][0-9]{2}");
    let second = password("hunter2", "0,example.com", "[:Word:](-[:word:]){3}[!-/][0-9]{2}");
    assert!(first.is_ok());
    assert_eq!(first, second);
}

#[test]
fn another_secret_gives_another_password() {
    let schema = "[A-Za-z0-9]{20}";
    let base = password("hunter2", "0,example.com", schema).unwrap();
    for secret in ["hunter3", "Hunter2", "hunter2 "] {
        assert_ne!(password(secret, "0,example.com", schema).unwrap(), base);
    }
}

#[test]
fn another_site_gives_another_password() {
    let schema = "[A-Za-z0-9]{20}";
    let base = password("hunter2", &salt_for(0, "example.com"), schema).unwrap();
    for site in ["example.org", "example.co", "examples.com"] {
        assert_ne!(password("hunter2", &salt_for(0, site), schema).unwrap(), base);
    }
}

#[test]
fn another_increment_gives_another_password() {
    let schema = "[A-Za-z0-9]{20}";
    let base = password("hunter2", &salt_for(0, "example.com"), schema).unwrap();
    for increment in [1, 2, 10] {
        assert_ne!(password("hunter2", &salt_for(increment, "example.com"), schema).unwrap(), base);
    }
}

#[test]
fn mismatched_confirmation_ends_the_derivation() {
    let node = parse("[a-z]{8}").unwrap();
    let words = Words::new(Vec::new());
    assert_eq!(
        onepass::pipeline::derive("hunter2", Some("hunter3"), "0,example.com", &node, &words),
        Err(Failure::SecretMismatch)
    );
    assert_eq!(
        onepass::pipeline::derive("hunter2", Some("hunter"), "0,example.com", &node, &words),
        Err(Failure::SecretMismatch)
    );
    assert!(Confirmed::new("hunter2", Some("hunter3")).is_err());
    assert!(Confirmed::new("hunter2", Some("hunter2")).is_ok());
    assert!(Confirmed::new("hunter2", None).is_ok());
    // The mismatch is reported before the schema is looked at.
    let empty = parse("()").unwrap();
    assert_eq!(
        onepass::pipeline::derive("a", Some("b"), "0,example.com", &empty, &words),
        Err(Failure::SecretMismatch)
    );
}

#[test]
fn matching_confirmation_changes_nothing() {
    let node = parse("[a-z]{8}").unwrap();
    let words = Words::new(Vec::new());
    let plain = onepass::pipeline::derive("hunter2", None, "0,example.com", &node, &words);
    let confirmed =
        onepass::pipeline::derive("hunter2", Some("hunter2"), "0,example.com", &node, &words);
    assert!(plain.is_ok());
    assert_eq!(plain, confirmed);
}

#[test]
fn short_salt_is_refused_by_the_key_derivation() {
    assert_eq!(password("hunter2", "0,a.com", "[a-z]{8}"), Err(Failure::KeyDerivation));
    assert!(password("hunter2", "0,ab.com", "[a-z]{8}").is_ok());
    let checked = Confirmed::new("hunter2", None).unwrap();
    let mut key = [7u8; 32];
    assert_eq!(derive_key(&checked, "short", &mut key), Err(Failure::KeyDerivation));
    assert_eq!(key, [0u8; 32]);
}

#[test]
fn too_large_schema_is_refused_before_the_key_derivation() {
    assert_eq!(password("hunter2", "0,example.com", "[a-z]{60}"), Err(Failure::SchemaTooLarge));
    assert_eq!(password("hunter2", "0,example.com", "[]"), Err(Failure::EmptyLanguage));
}

#[test]
fn key_material_is_what_argon2d_derives() {
    let checked = Confirmed::new("hunter2", None).unwrap();
    let mut key = [0u8; 32];
    assert_eq!(derive_key(&checked, "0,example.com", &mut key), Ok(()));
    assert_eq!(key, direct_key("hunter2", "0,example.com"));
    assert_ne!(key, [0u8; 32]);
}

#[test]
fn drawing_wipes_the_key_material() {
    let mut key = [9u8; 32];
    let size = Count::from_u64(1000);
    let expected = direct_index(&[9u8; 32], &size);
    let index = draw_index(&mut key, &size).unwrap();
    assert_eq!(key, [0u8; 32]);
    assert_eq!(index, expected);
    assert!(index.is_below(&size));
    let mut again = [9u8; 32];
    assert_eq!(draw_index(&mut again, &Count::zero()), None);
    assert_eq!(again, [0u8; 32]);
}

#[test]
fn drawn_indices_stay_below_wide_bounds() {
    let bound = Count::from_parts(3, 5);
    for seed in 0..20u8 {
        let mut key = [seed; 32];
        let expected = direct_index(&[seed; 32], &bound);
        let index = draw_index(&mut key, &bound).unwrap();
        assert!(index.is_below(&bound));
        assert_eq!(index, expected);
    }
    let mut key = [1u8; 32];
    assert_eq!(draw_index(&mut key, &Count::one()), Some(Count::zero()));
}

#[test]
fn stream_reads_the_extended_output_in_order() {
    let key = [42u8; 32];
    let mut expected = [0u8; 100];
    blake3::Hasher::new().update(&key).finalize_xof().fill(&mut expected);
    let mut stream = Keystream::new(&key);
    let mut first = [0u8; 37];
    let mut second = [0u8; 63];
    stream.read(&mut first);
    stream.read(&mut second);
    assert_eq!(&first[..], &expected[..37]);
    assert_eq!(&second[..], &expected[37..]);
    let mut words = Keystream::new(&key);
    assert_eq!(words.next_u64(), u64::from_le_bytes(expected[..8].try_into().unwrap()));
    assert_eq!(words.next_u32(), u32::from_le_bytes(expected[8..12].try_into().unwrap()));
    let mut rest = [0u8; 4];
    words.fill_bytes(&mut rest);
    assert_eq!(&rest[..], &expected[12..16]);
    assert!(words.try_fill_bytes(&mut rest).is_ok());
    assert_eq!(&rest[..], &expected[16..20]);
    words.wipe();
    let mut zero_key = [0u8; 8];
    let mut after_wipe = [0u8; 8];
    blake3::Hasher::new().update(&[0u8; 32]).finalize_xof().fill(&mut zero_key);
    words.read(&mut after_wipe);
    assert_eq!(after_wipe, zero_key);
}

#[test]
fn salt_is_increment_comma_site() {
    assert_eq!(salt_for(0, "example.com"), "0,example.com");
    assert_eq!(salt_for(7, "example.com"), "7,example.com");
    assert_eq!(salt_for(10, ""), "10,");
    assert_eq!(salt_for(4294967295, "a,b"), "4294967295,a,b");
    assert_eq!(salt_for(1203, "é"), "1203,é");
    assert_ne!(salt_for(1, "2,x"), salt_for(12, ",x"));
}

#[test]
fn texts_are_compared_character_by_character() {
    assert!(same_text("", ""));
    assert!(same_text("pässword", "pässword"));
    assert!(!same_text("password", "passwor"));
    assert!(!same_text("password", "passw0rd"));
}
