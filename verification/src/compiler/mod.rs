//! Compile-time decisions: source decoding, validation and fingerprints.
pub mod digest;
pub mod normalize;
pub mod patch;
pub mod paths;
pub mod runtime;
pub mod schema;

use crate::compiler::digest::{hex_lower, sha256_hex, sha256_of};
use crate::compiler::runtime::{
    get_str, patch_static_runtime, provider_scope_error, runtime_patched, validate_provider_paths,
};
use crate::engine::js::utf8_to_string;
use crate::json::{entries_v, get_field, jv, lemma_jv_kind, lemma_jv_object, obj_get, Entries, Json, JsonV};
use crate::model::REQUEST_SCHEMA_VERSION;
use crate::text::{
    chars_of, copy_string, dec_text, lines_of, push_str, split_lines, str_eq, string_from_chars,
    trim, trim_text, usize_text,
};
use vstd::prelude::*;
use vstd::utf8::{decode_utf8, encode_utf8, valid_utf8};

verus! {

// ---------------------------------------------------------------------------
// Request checks
// ---------------------------------------------------------------------------

/// Only the current request schema is accepted.
pub fn check_schema_version(version: u32) -> (r: Result<(), String>)
    ensures
        r is Ok <==> version == REQUEST_SCHEMA_VERSION,
        r matches Err(m) ==> m@ == "unsupported schema version: "@ + dec_text(version as nat),
{
    if version != REQUEST_SCHEMA_VERSION {
        let mut m = copy_string("unsupported schema version: ");
        let t = usize_text(version as usize);
        push_str(&mut m, t.as_str());
        return Err(m);
    }
    Ok(())
}

/// The output path of a YAML compile: trimmed, and required.
pub fn output_path_for(output_path: &str) -> (r: Result<String, String>)
    ensures
        trim(output_path@).len() > 0 ==> (r matches Ok(p) && p@ == trim(output_path@)),
        trim(output_path@).len() == 0 ==> (r matches Err(m) && m@ == "compile mode requires outputPath"@),
{
    let p = trim_text(output_path);
    if p.as_str().is_empty() {
        return Err(copy_string("compile mode requires outputPath"));
    }
    Ok(p)
}

/// The error a YAML compile of an encrypted profile gives.
pub fn encrypted_yaml_refusal(encrypted: bool) -> (r: Result<(), String>)
    ensures
        r is Ok <==> !encrypted,
        r matches Err(m) ==> m@ == "encrypted profiles must use native compile raw output; YAML output is disabled"@,
{
    if encrypted {
        return Err(copy_string(
            "encrypted profiles must use native compile raw output; YAML output is disabled",
        ));
    }
    Ok(())
}

// ---------------------------------------------------------------------------
// Root checks
// ---------------------------------------------------------------------------

/// The error for `geosite-matcher`, which must be `mph` or `succinct` when set.
pub open spec fn geosite_error(o: Entries) -> Option<Seq<char>> {
    match obj_get(o, "geosite-matcher"@) {
        None => None,
        Some(JsonV::Str(v)) => if v == "mph"@ || v == "succinct"@ {
            None
        } else {
            Some("geosite-matcher must be one of: mph, succinct (got "@ + v + ")"@)
        },
        Some(_) => Some("geosite-matcher must be a string (supported values: mph, succinct)"@),
    }
}

/// The root check accepts a root without `geosite-matcher`, or whose
/// `geosite-matcher` is the string `mph` or the string `succinct`; any other
/// value, string or not, is refused.
pub proof fn geosite_matcher_accepts_mph_and_succinct(o: Entries)
    ensures
        obj_get(o, "geosite-matcher"@) is None ==> geosite_error(o) is None,
        obj_get(o, "geosite-matcher"@) == Some(JsonV::Str("mph"@)) ==> geosite_error(o) is None,
        obj_get(o, "geosite-matcher"@) == Some(JsonV::Str("succinct"@)) ==> geosite_error(o) is None,
        obj_get(o, "geosite-matcher"@) matches Some(v) && v != JsonV::Str("mph"@) && v != JsonV::Str(
            "succinct"@,
        ) ==> geosite_error(o) is Some,
{
}

/// Checks `geosite-matcher`.
pub fn validate_geosite_matcher(object: &Vec<(String, Json)>) -> (r: Result<(), String>)
    ensures
        r is Ok <==> geosite_error(entries_v(object@)) is None,
        r matches Err(m) ==> geosite_error(entries_v(object@)) == Some(m@),
{
    match get_field(object, "geosite-matcher") {
        None => Ok(()),
        Some(v) => {
            proof {
                lemma_jv_kind(*v);
            }
            match v {
                Json::String(s) => {
                    if str_eq(s.as_str(), "mph") || str_eq(s.as_str(), "succinct") {
                        Ok(())
                    } else {
                        let mut m = copy_string("geosite-matcher must be one of: mph, succinct (got ");
                        push_str(&mut m, s.as_str());
                        push_str(&mut m, ")");
                        Err(m)
                    }
                },
                _ => Err(copy_string("geosite-matcher must be a string (supported values: mph, succinct)")),
            }
        },
    }
}

/// The checks of the compiled root object.
pub fn validate_root_config(object: &Vec<(String, Json)>) -> (r: Result<(), String>)
    ensures
        r is Ok <==> geosite_error(entries_v(object@)) is None,
        r matches Err(m) ==> geosite_error(entries_v(object@)) == Some(m@),
{
    validate_geosite_matcher(object)
}

/// What finishing a compiled root comes to: the runtime patch, then the
/// root checks, then the provider scope check.
pub open spec fn finish_spec(root: JsonV, pd: Seq<char>) -> Result<JsonV, Seq<char>> {
    match root {
        JsonV::Object(_) => {
            let patched = runtime_patched(root, pd);
            let o = patched->Object_0;
            match geosite_error(o) {
                Some(m) => Err(m),
                None => match provider_scope_error(o, pd) {
                    Some(m) => Err(m),
                    None => Ok(patched),
                },
            }
        },
        _ => Err("compiled root config must be an object"@),
    }
}

/// Patches and checks the root after the overrides ran.
pub fn finish_root(root: Json, profile_dir: &str) -> (r: Result<Json, String>)
    ensures
        match finish_spec(jv(root), profile_dir@) {
            Ok(v) => r matches Ok(x) && jv(x) == v,
            Err(m) => r matches Err(e) && e@ == m,
        },
        crate::json::json_wf(jv(root)) ==> (r matches Ok(x) ==> crate::json::json_wf(jv(x))),
{
    proof {
        lemma_jv_kind(root);
    }
    let is_object = match &root {
        Json::Object(_) => true,
        _ => false,
    };
    if !is_object {
        return Err(copy_string("compiled root config must be an object"));
    }
    let mut root = root;
    patch_static_runtime(&mut root, profile_dir);
    proof {
        lemma_jv_kind(root);
    }
    match &root {
        Json::Object(o) => {
            proof {
                lemma_jv_object(*o);
            }
            validate_root_config(o)?;
            validate_provider_paths(o, profile_dir)?;
        },
        _ => {},
    }
    Ok(root)
}

// ---------------------------------------------------------------------------
// Fingerprints
// ---------------------------------------------------------------------------

/// The fingerprint of a compile: lowercase hex SHA-256 of the profile id
/// followed by the payload.
pub fn fingerprint_for(profile_uuid: &[u8], payload: &[u8]) -> (r: String)
    ensures
        r@ == hex_lower(sha256_of(profile_uuid@ + payload@)),
{
    let mut all: Vec<u8> = Vec::new();
    let mut i: usize = 0;
    while i < profile_uuid.len()
        invariant
            0 <= i <= profile_uuid.len(),
            all@ == profile_uuid@.take(i as int),
        decreases profile_uuid.len() - i,
    {
        all.push(profile_uuid[i]);
        i = i + 1;
        assert(all@ =~= profile_uuid@.take(i as int));
    }
    let mut j: usize = 0;
    while j < payload.len()
        invariant
            0 <= j <= payload.len(),
            all@ == profile_uuid@ + payload@.take(j as int),
        decreases payload.len() - j,
    {
        all.push(payload[j]);
        j = j + 1;
        assert(all@ =~= profile_uuid@ + payload@.take(j as int));
    }
    assert(payload@.take(payload@.len() as int) =~= payload@);
    assert(profile_uuid@.take(profile_uuid@.len() as int) =~= profile_uuid@);
    sha256_hex(all.as_slice())
}


// ---------------------------------------------------------------------------
// Age-encrypted sources
// ---------------------------------------------------------------------------

#[verifier::external_type_specification]
#[verifier::external_body]
pub struct ExAgeIdentity(age::x25519::Identity);

/// What `age::x25519::Identity::from_str` says of a key text: no error when it
/// parses, else the crate's error text.
pub uninterp spec fn age_key_error(key: Seq<char>) -> Option<Seq<char>>;

/// An age identity together with the key text it was parsed from.
pub struct AgeKey {
    id: age::x25519::Identity,
    text: String,
}

impl View for AgeKey {
    type V = Seq<char>;

    /// The key text the identity was parsed from.
    closed spec fn view(&self) -> Seq<char> {
        self.text@
    }
}

/// Calls `str::parse::<age::x25519::Identity>`. Trusted: success and the error
/// text are named by [`age_key_error`] (the crate decodes Bech32 with the
/// `AGE-SECRET-KEY-` prefix and a 32-byte key); the identity is kept with the
/// key text it came from.
#[verifier::external_body]
fn parse_age_key(key: &str) -> (r: Result<AgeKey, String>)
    ensures
        r is Ok <==> age_key_error(key@) is None,
        r matches Ok(k) ==> k@ == key@,
        r matches Err(e) ==> age_key_error(key@) == Some(e@),
{
    match key.parse::<age::x25519::Identity>() {
        Ok(id) => Ok(AgeKey { id, text: key.to_string() }),
        Err(err) => Err(err.to_string()),
    }
}

/// The plaintext that `age::decrypt` gives for the identity of the key text
/// `key` and the `ciphertext`, or none when it fails.
pub uninterp spec fn age_open(key: Seq<char>, ciphertext: Seq<u8>) -> Option<Seq<u8>>;

/// Calls `age::decrypt` with the identity of `key`. Trusted: whether it
/// succeeds, and the plaintext, depend on the identity (fixed by the key text)
/// and the ciphertext alone and are named [`age_open`]. The error's text is
/// left unsaid: the crate writes it through its process-wide localizer.
#[verifier::external_body]
fn age_decrypt(key: &AgeKey, ciphertext: &[u8]) -> (r: Result<Vec<u8>, String>)
    ensures
        r matches Ok(p) ==> age_open(key@, ciphertext@) == Some(p@),
        r is Err ==> age_open(key@, ciphertext@) is None,
{
    age::decrypt(&key.id, ciphertext).map_err(|err| err.to_string())
}

/// The bytes an ASCII text is made of.
pub open spec fn ascii_text_bytes(s: Seq<char>) -> Seq<u8> {
    encode_utf8(s)
}

/// A source starts with the binary or the armored age header.
pub open spec fn age_encrypted(bytes: Seq<u8>) -> bool {
    encode_utf8("age-encryption.org/v1"@).is_prefix_of(bytes)
        || encode_utf8("-----BEGIN AGE ENCRYPTED FILE-----"@).is_prefix_of(bytes)
}

fn bytes_start_with(bytes: &[u8], prefix: &[u8]) -> (r: bool)
    ensures
        r == prefix@.is_prefix_of(bytes@),
{
    if prefix.len() > bytes.len() {
        return false;
    }
    let mut i: usize = 0;
    while i < prefix.len()
        invariant
            0 <= i <= prefix.len() <= bytes.len(),
            prefix@.len() == prefix.len(),
            bytes@.len() == bytes.len(),
            forall|j: int| 0 <= j < i ==> bytes@[j] == prefix@[j],
        decreases prefix.len() - i,
    {
        if bytes[i] != prefix[i] {
            return false;
        }
        i = i + 1;
    }
    assert(bytes@.take(prefix@.len() as int) =~= prefix@);
    true
}

/// Whether the source bytes are age-encrypted.
pub fn is_age_encrypted(bytes: &[u8]) -> (r: bool)
    ensures
        r == age_encrypted(bytes@),
{
    let a = "age-encryption.org/v1".as_bytes();
    let b = "-----BEGIN AGE ENCRYPTED FILE-----".as_bytes();
    bytes_start_with(bytes, a) || bytes_start_with(bytes, b)
}

/// A key line that is blank or a comment.
pub open spec fn key_line_skipped(l: Seq<char>) -> bool {
    trim(l).len() == 0 || trim(l)[0] == '#'
}

/// The post-quantum hybrid keys, which are refused.
pub open spec fn hybrid_key(l: Seq<char>) -> bool {
    "AGE-SECRET-KEY-PQ-1"@.is_prefix_of(trim(l))
}

/// The key lines of `ls` from line `i` (counted from zero) on: the trimmed
/// keys, or the first error.
pub open spec fn age_keys_from(ls: Seq<Seq<char>>, i: nat) -> Result<Seq<Seq<char>>, Seq<char>>
    decreases ls.len() - i,
{
    if i >= ls.len() {
        Ok(seq![])
    } else if key_line_skipped(ls[i as int]) {
        age_keys_from(ls, i + 1)
    } else if hybrid_key(ls[i as int]) {
        Err("hybrid age secret keys are not supported by the Rust override decryptor yet"@)
    } else {
        match age_key_error(trim(ls[i as int])) {
            Some(e) => Err("parse age secret key at line "@ + dec_text(i + 1) + ": "@ + e),
            None => match age_keys_from(ls, i + 1) {
                Ok(rest) => Ok(seq![trim(ls[i as int])] + rest),
                Err(m) => Err(m),
            },
        }
    }
}

/// The keys of a secret-key text, one per line; at least one is required.
pub open spec fn age_keys(secret_keys: Seq<char>) -> Result<Seq<Seq<char>>, Seq<char>> {
    match age_keys_from(lines_of(secret_keys), 0) {
        Ok(ks) => if ks.len() == 0 {
            Err("no supported age secret keys found"@)
        } else {
            Ok(ks)
        },
        Err(m) => Err(m),
    }
}

fn key_line_error(index: usize, e: &str) -> (r: String)
    requires
        index < usize::MAX,
    ensures
        r@ == "parse age secret key at line "@ + dec_text((index + 1) as nat) + ": "@ + e@,
{
    let mut m = copy_string("parse age secret key at line ");
    let n = usize_text(index + 1);
    push_str(&mut m, n.as_str());
    push_str(&mut m, ": ");
    push_str(&mut m, e);
    m
}

fn starts_with_text(s: &str, p: &str) -> (r: bool)
    ensures
        r == p@.is_prefix_of(s@),
{
    let sv = chars_of(s);
    let pv = chars_of(p);
    crate::text::vec_starts_with(&sv, &pv)
}

/// Parses the age identities of a secret-key text, one per line.
pub fn parse_age_identities(secret_keys: &str) -> (r: Result<Vec<AgeKey>, String>)
    ensures
        match age_keys(secret_keys@) {
            Ok(ks) => r matches Ok(ids) && ids@.len() == ks.len() && forall|i: int|
                0 <= i < ks.len() ==> #[trigger] ids@[i]@ == ks[i],
            Err(m) => r matches Err(e) && e@ == m,
        },
{
    let v = chars_of(secret_keys);
    let lines = split_lines(&v);
    let ghost ls = lines_of(v@);
    let mut identities: Vec<AgeKey> = Vec::new();
    let ghost mut keys: Seq<Seq<char>> = seq![];
    let mut i: usize = 0;
    while i < lines.len()
        invariant
            0 <= i <= lines.len(),
            v@ == secret_keys@,
            ls == lines_of(v@),
            lines@.len() == ls.len(),
            forall|x: int| 0 <= x < lines@.len() ==> #[trigger] lines@[x]@ == ls[x],
            identities@.len() == keys.len(),
            forall|x: int| 0 <= x < keys.len() ==> #[trigger] identities@[x]@ == keys[x],
            age_keys_from(ls, 0) == match age_keys_from(ls, i as nat) {
                Ok(rest) => Ok(keys + rest),
                Err(m) => Err::<Seq<Seq<char>>, Seq<char>>(m),
            },
        decreases lines.len() - i,
    {
        let line_text = string_from_chars(&lines[i]);
        let line = trim_text(line_text.as_str());
        let lc = chars_of(line.as_str());
        let skipped = lc.len() == 0 || lc[0] == '#';
        if !skipped {
            if starts_with_text(line.as_str(), "AGE-SECRET-KEY-PQ-1") {
                return Err(copy_string(
                    "hybrid age secret keys are not supported by the Rust override decryptor yet",
                ));
            }
            match parse_age_key(line.as_str()) {
                Ok(id) => {
                    identities.push(id);
                    proof {
                        assert(keys.push(line@) + match age_keys_from(ls, (i + 1) as nat) {
                            Ok(rest) => rest,
                            Err(_) => seq![],
                        } =~= keys + (seq![line@] + match age_keys_from(ls, (i + 1) as nat) {
                            Ok(rest) => rest,
                            Err(_) => seq![],
                        }));
                        keys = keys.push(line@);
                    }
                },
                Err(e) => {
                    return Err(key_line_error(i, e.as_str()));
                },
            }
        }
        i = i + 1;
    }
    proof {
        assert(keys + Seq::<Seq<char>>::empty() =~= keys);
    }
    if identities.len() == 0 {
        return Err(copy_string("no supported age secret keys found"));
    }
    Ok(identities)
}

/// The message of a decryption that no key could do.
pub open spec fn decrypt_failure(last_error: Seq<char>) -> Seq<char> {
    "decrypt age profile: "@ + if last_error.len() == 0 {
        "no matching age identity"@
    } else {
        last_error
    }
}

/// The plaintext of the first of the keys `ks`, from the `i`-th on, that
/// opens `ciphertext`.
pub open spec fn first_open(ks: Seq<Seq<char>>, ciphertext: Seq<u8>, i: nat) -> Option<Seq<u8>>
    decreases ks.len() - i,
{
    if i >= ks.len() {
        None
    } else {
        match age_open(ks[i as int], ciphertext) {
            Some(p) => Some(p),
            None => first_open(ks, ciphertext, i + 1),
        }
    }
}

/// What becomes of an age-encrypted source.
pub enum AgeOutcome {
    /// A key opens it: its plaintext.
    Plain(Seq<u8>),
    /// Refused before any decryption, with this message.
    Refused(Seq<char>),
    /// No key opens it; the message is [`decrypt_failure`] of the crate's last error text.
    Unopened,
}

/// The outcome of decrypting `ciphertext` with the secret-key text, if any.
pub open spec fn age_plaintext(secret_key: Option<Seq<char>>, ciphertext: Seq<u8>) -> AgeOutcome {
    let key = match secret_key {
        Some(k) => trim(k),
        None => Seq::<char>::empty(),
    };
    if key.len() == 0 {
        AgeOutcome::Refused("age encrypted profile requires ageSecretKey"@)
    } else {
        match age_keys(key) {
            Ok(ks) => match first_open(ks, ciphertext, 0) {
                Some(p) => AgeOutcome::Plain(p),
                None => AgeOutcome::Unopened,
            },
            Err(m) => AgeOutcome::Refused(m),
        }
    }
}

pub open spec fn opt_str_v(k: Option<&str>) -> Option<Seq<char>> {
    match k {
        Some(s) => Some(s@),
        None => None,
    }
}

/// Decrypts an age-encrypted source with the first key that opens it.
pub fn decrypt_age_source(ciphertext: &[u8], secret_key: Option<&str>) -> (r: Result<Vec<u8>, String>)
    ensures
        match age_plaintext(opt_str_v(secret_key), ciphertext@) {
            AgeOutcome::Plain(p) => r matches Ok(x) && x@ == p,
            AgeOutcome::Refused(m) => r matches Err(e) && e@ == m,
            AgeOutcome::Unopened => r matches Err(e) && exists|t: Seq<char>| e@ == decrypt_failure(t),
        },
{
    let key = match secret_key {
        Some(k) => trim_text(k),
        None => String::new(),
    };
    if key.as_str().is_empty() {
        return Err(copy_string("age encrypted profile requires ageSecretKey"));
    }
    let identities = parse_age_identities(key.as_str())?;
    let ghost ks = age_keys(key@)->Ok_0;
    let mut last_error = String::new();
    let mut i: usize = 0;
    while i < identities.len()
        invariant
            0 <= i <= identities.len(),
            identities@.len() == ks.len(),
            forall|x: int| 0 <= x < ks.len() ==> #[trigger] identities@[x]@ == ks[x],
            age_plaintext(opt_str_v(secret_key), ciphertext@) == match first_open(ks, ciphertext@, 0) {
                Some(p) => AgeOutcome::Plain(p),
                None => AgeOutcome::Unopened,
            },
            first_open(ks, ciphertext@, 0) == first_open(ks, ciphertext@, i as nat),
        decreases identities.len() - i,
    {
        assert(identities@[i as int]@ == ks[i as int]);
        match age_decrypt(&identities[i], ciphertext) {
            Ok(plaintext) => {
                return Ok(plaintext);
            },
            Err(e) => {
                last_error = e;
            },
        }
        i = i + 1;
    }
    let mut m = copy_string("decrypt age profile: ");
    if last_error.as_str().is_empty() {
        push_str(&mut m, "no matching age identity");
    } else {
        push_str(&mut m, last_error.as_str());
    }
    assert(m@ == decrypt_failure(last_error@));
    Err(m)
}

/// What becomes of a profile's source bytes: the source itself when it is not
/// age-encrypted, else the outcome of its decryption.
pub open spec fn source_plaintext(bytes: Seq<u8>, secret_key: Option<Seq<char>>) -> AgeOutcome {
    if age_encrypted(bytes) {
        age_plaintext(secret_key, bytes)
    } else {
        AgeOutcome::Plain(bytes)
    }
}

/// The source text of a profile: decrypted when it is age-encrypted, then
/// read as UTF-8; with whether it was encrypted.
pub fn decode_source(source_bytes: Vec<u8>, secret_key: Option<&str>) -> (r: Result<(String, bool), String>)
    ensures
        match source_plaintext(source_bytes@, opt_str_v(secret_key)) {
            AgeOutcome::Refused(m) => r matches Err(e) && e@ == m,
            AgeOutcome::Unopened => r matches Err(e) && exists|t: Seq<char>| e@ == decrypt_failure(t),
            AgeOutcome::Plain(p) => (valid_utf8(p) ==> (r matches Ok(x) && x.0@ == decode_utf8(p) && x.1 == age_encrypted(
                source_bytes@,
            ))) && (!valid_utf8(p) ==> (r matches Err(e) && ("source yaml is not utf-8: "@).is_prefix_of(e@))),
        },
{
    let encrypted = is_age_encrypted(source_bytes.as_slice());
    let plaintext = if encrypted {
        decrypt_age_source(source_bytes.as_slice(), secret_key)?
    } else {
        source_bytes
    };
    match utf8_to_string(plaintext) {
        Ok(s) => Ok((s, encrypted)),
        Err(e) => {
            let mut m = copy_string("source yaml is not utf-8: ");
            let ghost head = m@;
            push_str(&mut m, e.as_str());
            assert(m@.take(head.len() as int) =~= head);
            Err(m)
        },
    }
}

} // verus!
