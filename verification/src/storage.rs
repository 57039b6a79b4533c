//! The decisions of the session store that involve no file: which session ids
//! are safe, the canonical text and hash of a schema, and whether a schema and
//! session read back belong together.
use crate::json::{
    in_key_order, json_string, keys_distinct, member_views, object_text, push_json_string,
    push_object, sort_members,
};
use crate::models::schema::{Schema, SchemaError};
use crate::models::session::Session;
use crate::models::table::{bit_keys_ascending, lemma_ascending_unique, mask_keys_ascending, BitDef, MaskDef};
use crate::text::{
    chars_of, decimal, lemma_decimal_injective, lemma_seq_lt_irreflexive, lemma_seq_lt_transitive,
    numeral, push_char, push_numeral, seq_lt, trim, trim_bounds,
};
use vstd::prelude::*;
use vstd::string::*;

verus! {

/// Why a session id was refused.
#[derive(Debug, Clone, Copy, PartialEq, Eq)]
pub enum SessionIdError {
    /// Empty, or longer than 128 bytes.
    Length,
    /// The first byte is not an ASCII letter or digit.
    FirstChar,
    /// A byte other than an ASCII letter, a digit, `.`, `_` or `-`.
    InvalidChar,
}

impl SessionIdError {
    /// The text that describes the error.
    pub open spec fn text(self) -> Seq<char> {
        match self {
            SessionIdError::Length => "session id must be between 1 and 128 ASCII characters"@,
            SessionIdError::FirstChar => "session id must start with an ASCII letter or digit"@,
            SessionIdError::InvalidChar =>
                "session id may contain only ASCII letters, digits, '.', '_', and '-'"@,
        }
    }

    /// The text that describes the error.
    pub fn message(&self) -> (r: String)
        ensures
            r@ == self.text(),
    {
        match self {
            SessionIdError::Length => "session id must be between 1 and 128 ASCII characters".to_owned(),
            SessionIdError::FirstChar => "session id must start with an ASCII letter or digit".to_owned(),
            SessionIdError::InvalidChar =>
                "session id may contain only ASCII letters, digits, '.', '_', and '-'".to_owned(),
        }
    }
}

/// Whether `b` is an ASCII letter or digit.
pub open spec fn is_ascii_alnum(b: u8) -> bool {
    (48 <= b <= 57) || (65 <= b <= 90) || (97 <= b <= 122)
}

/// Whether `b` may stand in a session id: an ASCII letter or digit, `.`, `_`
/// or `-`.
pub open spec fn is_id_byte(b: u8) -> bool {
    is_ascii_alnum(b) || b == 46 || b == 95 || b == 45
}

/// The verdict on the UTF-8 bytes `b` of a session id: 1 to 128 bytes, the
/// first an ASCII letter or digit, every one a letter, a digit, `.`, `_` or
/// `-`; checked in that order.
pub open spec fn session_id_check(b: Seq<u8>) -> Result<(), SessionIdError> {
    if b.len() == 0 || b.len() > 128 {
        Err(SessionIdError::Length)
    } else if !is_ascii_alnum(b[0]) {
        Err(SessionIdError::FirstChar)
    } else if !(forall|i: int| 0 <= i < b.len() ==> is_id_byte(#[trigger] b[i])) {
        Err(SessionIdError::InvalidChar)
    } else {
        Ok(())
    }
}

/// Checks a session id (see `session_id_check`). An id that passes is one
/// normal path component: it is not `.` or `..` and holds no separator.
pub fn validate_session_id(session_id: &str) -> (r: Result<(), SessionIdError>)
    ensures
        r == session_id_check(session_id.spec_bytes()),
{
    let bytes = session_id.as_bytes();
    if bytes.len() == 0 || bytes.len() > 128 {
        return Err(SessionIdError::Length);
    }
    let b0 = bytes[0];
    if !((48 <= b0 && b0 <= 57) || (65 <= b0 && b0 <= 90) || (97 <= b0 && b0 <= 122)) {
        return Err(SessionIdError::FirstChar);
    }
    let mut i: usize = 0;
    while i < bytes.len()
        invariant
            i <= bytes@.len(),
            bytes@ == session_id.spec_bytes(),
            0 < bytes@.len() <= 128,
            is_ascii_alnum(bytes@[0]),
            forall|j: int| 0 <= j < i ==> is_id_byte(#[trigger] bytes@[j]),
        decreases bytes@.len() - i,
    {
        let b = bytes[i];
        if !((48 <= b && b <= 57) || (65 <= b && b <= 90) || (97 <= b && b <= 122) || b == 46 || b
            == 95 || b == 45) {
            assert(!is_id_byte(bytes@[i as int]));
            return Err(SessionIdError::InvalidChar);
        }
        i = i + 1;
    }
    Ok(())
}

/// An accepted session id is a single normal path component: it is neither
/// `.` nor `..`, and it holds no `/` or `\`.
pub proof fn lemma_accepted_id_is_one_component(b: Seq<u8>)
    requires
        session_id_check(b) is Ok,
    ensures
        b != seq![46u8],
        b != seq![46u8, 46u8],
        forall|i: int| 0 <= i < b.len() ==> b[i] != 47 && b[i] != 92,
{
    if b == seq![46u8] || b == seq![46u8, 46u8] {
        assert(b[0] == 46);
    }
    assert forall|i: int| 0 <= i < b.len() implies b[i] != 47 && b[i] != 92 by {
        assert(is_id_byte(b[i]));
    }
}

/// The canonical text of a bit definition: `{"desc":..,"name":..}`.
pub open spec fn bit_text(b: BitDef) -> Seq<char> {
    object_text(seq![("desc"@, json_string(b.desc@)), ("name"@, json_string(b.name@))])
}

/// The JSON array of the numbers `idxs`, in order.
pub open spec fn array_text(idxs: Seq<u8>) -> Seq<char> {
    seq!['['] + crate::json::join(idxs.map_values(|i: u8| decimal(i as nat)), seq![',']) + seq![
        ']',
    ]
}

/// The canonical text of a mask: `{"bits":[..],"desc":..}`.
pub open spec fn mask_text(m: MaskDef) -> Seq<char> {
    object_text(seq![("bits"@, array_text(m.bits@)), ("desc"@, json_string(m.desc@))])
}

/// The members of the canonical `bits` object: each index's decimal numeral
/// with its definition's text.
pub open spec fn bit_members(s: Schema) -> Seq<(Seq<char>, Seq<char>)> {
    s.bits@.map_values(|e: (u8, BitDef)| (decimal(e.0 as nat), bit_text(e.1)))
}

/// The members of the canonical `masks` object: each mask's name with its
/// text, in ascending name order (the table's order).
pub open spec fn mask_members(s: Schema) -> Seq<(Seq<char>, Seq<char>)> {
    s.masks@.map_values(|e: (String, MaskDef)| (e.0@, mask_text(e.1)))
}

/// The members of the canonical schema object, in ascending key order:
/// `bits` (members in ascending order of their keys as strings), then
/// `default_mask` where there is one, `masks` and `version`.
pub open spec fn root_members(s: Schema) -> Seq<(Seq<char>, Seq<char>)> {
    seq![("bits"@, object_text(in_key_order(bit_members(s))))] + match s.default_mask {
        Some(d) => seq![("default_mask"@, json_string(d@))],
        None => Seq::empty(),
    } + seq![("masks"@, object_text(mask_members(s))), ("version"@, decimal(s.version as nat))]
}

/// The canonical JSON text of a schema, which its hash is taken of: the
/// schema as compact JSON with every object's keys in ascending order.
pub open spec fn canonical_json(s: Schema) -> Seq<char> {
    object_text(root_members(s))
}

/// The 64-bit xxHash (seed 0) that `twox_hash::XxHash64` computes of a
/// string passed to `Hash::hash`.
pub uninterp spec fn string_xxh64(s: Seq<char>) -> u64;

/// Hashes `s` with `twox_hash::XxHash64` (seed 0) through `Hash::hash`, which
/// feeds the string's UTF-8 bytes and a terminating `0xff` byte. The result
/// is named `string_xxh64` of the string: it depends on the string alone.
#[verifier::external_body]
fn string_digest(s: &str) -> (r: u64)
    ensures
        r == string_xxh64(s@),
{
    let mut hasher = twox_hash::XxHash64::default();
    std::hash::Hash::hash(s, &mut hasher);
    std::hash::Hasher::finish(&hasher)
}

/// Appends the canonical text of a mask's bit list.
fn push_array(out: &mut String, idxs: &Vec<u8>)
    ensures
        final(out)@ == old(out)@ + array_text(idxs@),
{
    let ghost start = out@;
    let ghost parts = idxs@.map_values(|i: u8| decimal(i as nat));
    push_char(out, '[');
    let mut k: usize = 0;
    while k < idxs.len()
        invariant
            k <= idxs@.len(),
            parts == idxs@.map_values(|i: u8| decimal(i as nat)),
            out@ == start + seq!['['] + crate::json::join(parts.take(k as int), seq![',']),
        decreases idxs@.len() - k,
    {
        if k > 0 {
            push_char(out, ',');
        }
        push_numeral(out, idxs[k] as u64, 10);
        proof {
            crate::json::lemma_join_push(parts, seq![','], k as int);
            if k == 0 {
                assert(crate::json::join(parts.take(0), seq![',']) =~= Seq::<char>::empty());
            }
            assert(out@ =~= start + seq!['['] + crate::json::join(parts.take(k + 1), seq![',']));
        }
        k = k + 1;
    }
    push_char(out, ']');
    proof {
        assert(parts.take(idxs@.len() as int) =~= parts);
        assert(out@ =~= start + array_text(idxs@));
    }
}

/// A JSON key and its value's text, as an owned member.
fn member(key: &str, value: String) -> (r: (String, String))
    ensures
        r.0@ == key@,
        r.1@ == value@,
{
    (key.to_owned(), value)
}

/// The canonical text of a bit definition.
fn bit_json(b: &BitDef) -> (r: String)
    ensures
        r@ == bit_text(*b),
{
    let mut members: Vec<(String, String)> = Vec::new();
    members.push(member("desc", json_string_owned(&b.desc)));
    members.push(member("name", json_string_owned(&b.name)));
    let mut out = String::new();
    push_object(&mut out, &members);
    proof {
        assert(member_views(members@) =~= seq![("desc"@, json_string(b.desc@)), ("name"@, json_string(b.name@))]);
        assert(out@ =~= bit_text(*b));
    }
    out
}

/// The JSON string literal of `s`.
fn json_string_owned(s: &String) -> (r: String)
    ensures
        r@ == json_string(s@),
{
    let mut r = String::new();
    push_json_string(&mut r, s.as_str());
    assert(r@ =~= json_string(s@));
    r
}

/// The canonical text of a mask.
fn mask_json(m: &MaskDef) -> (r: String)
    ensures
        r@ == mask_text(*m),
{
    let mut arr = String::new();
    push_array(&mut arr, &m.bits);
    assert(arr@ =~= array_text(m.bits@));
    let mut members: Vec<(String, String)> = Vec::new();
    members.push(member("bits", arr));
    members.push(member("desc", json_string_owned(&m.desc)));
    let mut out = String::new();
    push_object(&mut out, &members);
    proof {
        assert(member_views(members@) =~= seq![("bits"@, array_text(m.bits@)), ("desc"@, json_string(m.desc@))]);
        assert(out@ =~= mask_text(*m));
    }
    out
}

/// The canonical JSON text of `schema` (see `canonical_json`).
pub fn canonical_schema_json(schema: &Schema) -> (r: String)
    ensures
        r@ == canonical_json(*schema),
{
    let bits = schema.bits.entries();
    let mut bit_members_v: Vec<(String, String)> = Vec::new();
    let mut i: usize = 0;
    while i < bits.len()
        invariant
            i <= bits@.len(),
            bits@ == schema.bits@,
            member_views(bit_members_v@) == bit_members(*schema).take(i as int),
        decreases bits@.len() - i,
    {
        let mut key = String::new();
        push_numeral(&mut key, bits[i].0 as u64, 10);
        let value = bit_json(&bits[i].1);
        assert(key@ =~= decimal(bits@[i as int].0 as nat));
        let ghost prev = bit_members_v@;
        bit_members_v.push((key, value));
        proof {
            assert(member_views(bit_members_v@) =~= member_views(prev).push((decimal(bits@[i as int].0 as nat), bit_text(bits@[i as int].1))));
            assert(bit_members(*schema)[i as int] == (decimal(bits@[i as int].0 as nat), bit_text(bits@[i as int].1)));
            assert(member_views(bit_members_v@) =~= bit_members(*schema).take(i + 1));
        }
        i = i + 1;
    }
    proof {
        let bm = bit_members(*schema);
        assert(bm.take(bits@.len() as int) =~= bm);
        assert forall|a: int, b: int| 0 <= a < bm.len() && 0 <= b < bm.len() && a != b implies bm[a].0
            != bm[b].0 by {
            if bm[a].0 == bm[b].0 {
                lemma_decimal_injective(bits@[a].0 as nat, bits@[b].0 as nat);
            }
        }
        assert(keys_distinct(bm));
    }
    let sorted = sort_members(bit_members_v);
    let mut bits_obj = String::new();
    push_object(&mut bits_obj, &sorted);
    let masks = schema.masks.entries();
    let mut mask_members_v: Vec<(String, String)> = Vec::new();
    let mut m: usize = 0;
    while m < masks.len()
        invariant
            m <= masks@.len(),
            masks@ == schema.masks@,
            member_views(mask_members_v@) == mask_members(*schema).take(m as int),
        decreases masks@.len() - m,
    {
        let value = mask_json(&masks[m].1);
        let ghost prev = mask_members_v@;
        mask_members_v.push((masks[m].0.clone(), value));
        proof {
            assert(member_views(mask_members_v@) =~= member_views(prev).push((masks@[m as int].0@, mask_text(masks@[m as int].1))));
            assert(mask_members(*schema)[m as int] == (masks@[m as int].0@, mask_text(masks@[m as int].1)));
            assert(member_views(mask_members_v@) =~= mask_members(*schema).take(m + 1));
        }
        m = m + 1;
    }
    proof {
        let mm = mask_members(*schema);
        assert(mm.take(masks@.len() as int) =~= mm);
    }
    let mut masks_obj = String::new();
    push_object(&mut masks_obj, &mask_members_v);
    let mut version = String::new();
    push_numeral(&mut version, schema.version as u64, 10);
    let mut root: Vec<(String, String)> = Vec::new();
    root.push(member("bits", bits_obj));
    match &schema.default_mask {
        Some(d) => {
            root.push(member("default_mask", json_string_owned(d)));
        },
        None => {},
    }
    root.push(member("masks", masks_obj));
    root.push(member("version", version));
    let mut out = String::new();
    push_object(&mut out, &root);
    proof {
        assert(member_views(root@) =~= root_members(*schema));
        assert(out@ =~= canonical_json(*schema));
    }
    out
}

/// The hash text of a digest: its lower-case hexadecimal numeral without
/// leading zeros (what `format!("{:x}", ..)` writes).
pub fn hash_text(digest: u64) -> (r: String)
    ensures
        r@ == numeral(digest as nat, 16),
{
    let mut r = String::new();
    push_numeral(&mut r, digest, 16);
    assert(r@ =~= numeral(digest as nat, 16));
    r
}

/// The hash of a schema: the hexadecimal xxHash64 of its canonical text.
pub fn schema_hash(schema: &Schema) -> (r: String)
    ensures
        r@ == numeral(string_xxh64(canonical_json(*schema)) as nat, 16),
{
    let text = canonical_schema_json(schema);
    let digest = string_digest(text.as_str());
    hash_text(digest)
}

/// The hash text of a schema (what `schema_hash` returns).
pub open spec fn hash_of(schema: Schema) -> Seq<char> {
    numeral(string_xxh64(canonical_json(schema)) as nat, 16)
}

/// The hash of a schema depends only on what it defines: two schemas with the
/// same version, default mask, bit definitions and masks have the same
/// canonical text and hash, in whatever order their files listed them.
pub proof fn lemma_hash_ignores_listing_order(a: Schema, b: Schema)
    requires
        bit_keys_ascending(a.bits@),
        bit_keys_ascending(b.bits@),
        mask_keys_ascending(a.masks@),
        mask_keys_ascending(b.masks@),
        a.version == b.version,
        a.default_mask == b.default_mask,
        forall|x: (u8, BitDef)| a.bits@.contains(x) <==> b.bits@.contains(x),
        forall|x: (String, MaskDef)| a.masks@.contains(x) <==> b.masks@.contains(x),
    ensures
        canonical_json(a) == canonical_json(b),
        hash_of(a) == hash_of(b),
{
    let bit_lt = |x: (u8, BitDef), y: (u8, BitDef)| x.0 < y.0;
    lemma_ascending_unique(a.bits@, b.bits@, bit_lt);
    let mask_lt = |x: (String, MaskDef), y: (String, MaskDef)| seq_lt(x.0@, y.0@);
    assert forall|x: (String, MaskDef)| !#[trigger] mask_lt(x, x) by {
        lemma_seq_lt_irreflexive(x.0@);
    }
    assert forall|x: (String, MaskDef), y: (String, MaskDef), z: (String, MaskDef)|
        #[trigger] mask_lt(x, y) && #[trigger] mask_lt(y, z) implies mask_lt(x, z) by {
        lemma_seq_lt_transitive(x.0@, y.0@, z.0@);
    }
    lemma_ascending_unique(a.masks@, b.masks@, mask_lt);
    assert(bit_members(a) == bit_members(b));
    assert(mask_members(a) == mask_members(b));
    assert(root_members(a) == root_members(b));
}

/// Why a schema and session read back from the store were refused.
#[derive(Debug)]
pub enum LoadError {
    /// The stored schema is invalid.
    Schema(SchemaError),
    /// The stored session names another id: (stored, expected).
    IdMismatch(String, String),
    /// The stored session was made for another schema: (stored, expected).
    HashMismatch(String, String),
}

impl LoadError {
    /// The text that describes the error.
    pub open spec fn text(self) -> Seq<char> {
        match self {
            LoadError::Schema(e) => e.text(),
            LoadError::IdMismatch(found, expected) => "session id mismatch: state has '"@ + found@
                + "', expected '"@ + expected@ + "'"@,
            LoadError::HashMismatch(found, expected) => "schema hash mismatch: session has '"@
                + found@ + "', expected '"@ + expected@ + "'"@,
        }
    }

    /// The text that describes the error.
    pub fn message(&self) -> (r: String)
        ensures
            r@ == self.text(),
    {
        match self {
            LoadError::Schema(e) => e.message(),
            LoadError::IdMismatch(found, expected) => {
                let mut s = "session id mismatch: state has '".to_owned();
                s.append(found.as_str());
                s.append("', expected '");
                s.append(expected.as_str());
                s.append("'");
                s
            },
            LoadError::HashMismatch(found, expected) => {
                let mut s = "schema hash mismatch: session has '".to_owned();
                s.append(found.as_str());
                s.append("', expected '");
                s.append(expected.as_str());
                s.append("'");
                s
            },
        }
    }
}

/// Checks a schema and session read back for `session_id`: the schema must
/// be valid, the session must carry that id, and it must carry the schema's
/// hash; checked in that order.
pub fn check_loaded(session_id: &str, schema: &Schema, session: &Session) -> (r: Result<
    (),
    LoadError,
>)
    ensures
        match r {
            Ok(()) => schema.validation() is Ok && session.id@ == session_id@
                && session.schema_hash@ == hash_of(*schema),
            Err(LoadError::Schema(e)) => schema.validation() == Err::<(), SchemaError>(e),
            Err(LoadError::IdMismatch(found, expected)) => schema.validation() is Ok && found
                == session.id && expected@ == session_id@ && session.id@ != session_id@,
            Err(LoadError::HashMismatch(found, expected)) => schema.validation() is Ok
                && session.id@ == session_id@ && found == session.schema_hash && expected@
                == hash_of(*schema) && session.schema_hash@ != hash_of(*schema),
        },
{
    match schema.validate() {
        Ok(()) => {},
        Err(e) => return Err(LoadError::Schema(e)),
    }
    let expected_id = session_id.to_owned();
    if session.id != expected_id {
        return Err(LoadError::IdMismatch(session.id.clone(), expected_id));
    }
    let expected_hash = schema_hash(schema);
    if session.schema_hash != expected_hash {
        return Err(LoadError::HashMismatch(session.schema_hash.clone(), expected_hash));
    }
    Ok(())
}

/// Why a session could not be initialized.
#[derive(Debug)]
pub enum InitError {
    SessionId(SessionIdError),
    Schema(SchemaError),
    /// The session exists and reinitializing was not asked for.
    AlreadyExists(String),
}

impl InitError {
    /// The text that describes the error.
    pub open spec fn text(self) -> Seq<char> {
        match self {
            InitError::SessionId(e) => e.text(),
            InitError::Schema(e) => e.text(),
            InitError::AlreadyExists(id) => "session '"@ + id@
                + "' already exists; pass --force to reinitialize it"@,
        }
    }

    /// The text that describes the error.
    pub fn message(&self) -> (r: String)
        ensures
            r@ == self.text(),
    {
        match self {
            InitError::SessionId(e) => e.message(),
            InitError::Schema(e) => e.message(),
            InitError::AlreadyExists(id) => {
                let mut s = "session '".to_owned();
                s.append(id.as_str());
                s.append("' already exists; pass --force to reinitialize it");
                s
            },
        }
    }
}

/// The checks made before a session is initialized: a safe id, then a valid
/// schema.
pub fn check_initialize(session_id: &str, schema: &Schema) -> (r: Result<(), InitError>)
    ensures
        match r {
            Ok(()) => session_id_check(session_id.spec_bytes()) is Ok && schema.validation() is Ok,
            Err(InitError::SessionId(e)) => session_id_check(session_id.spec_bytes()) == Err::<
                (),
                SessionIdError,
            >(e),
            Err(InitError::Schema(e)) => session_id_check(session_id.spec_bytes()) is Ok
                && schema.validation() == Err::<(), SchemaError>(e),
            Err(InitError::AlreadyExists(_)) => false,
        },
{
    match validate_session_id(session_id) {
        Ok(()) => {},
        Err(e) => return Err(InitError::SessionId(e)),
    }
    match schema.validate() {
        Ok(()) => Ok(()),
        Err(e) => Err(InitError::Schema(e)),
    }
}

/// What to do with a session directory that may already exist: refuse where
/// it exists and `force` was not given; otherwise whether to remove it first.
pub fn replace_existing(session_id: &str, exists: bool, force: bool) -> (r: Result<bool, InitError>)
    ensures
        match r {
            Ok(remove) => remove == exists && (exists ==> force),
            Err(InitError::AlreadyExists(id)) => exists && !force && id@ == session_id@,
            Err(_) => false,
        },
{
    if exists && !force {
        return Err(InitError::AlreadyExists(session_id.to_owned()));
    }
    Ok(exists)
}

/// The zeroed session that initialization stores for `schema`; `None` where
/// the current time cannot be read.
pub fn initial_session(session_id: &str, schema: &Schema) -> (r: Option<Session>)
    ensures
        r matches Some(s) ==> {
            &&& s.id@ == session_id@
            &&& s.schema_hash@ == hash_of(*schema)
            &&& s.bits == 0
            &&& s.created_at == s.updated_at
        },
{
    Session::new(session_id.to_owned(), schema_hash(schema))
}

/// Whether the answer to the reset prompt confirms: `y` or `Y` once white
/// space around it is trimmed.
pub fn confirms_reset(input: &str) -> (r: bool)
    ensures
        r == (trim(input@) == seq!['y'] || trim(input@) == seq!['Y']),
{
    let cs = chars_of(input);
    let (a, b) = trim_bounds(&cs);
    if b - a != 1 {
        assert(trim(input@).len() != 1);
        return false;
    }
    let c = cs[a];
    assert(trim(input@) =~= seq![c]);
    assert(seq![c][0] == c && seq!['y'][0] == 'y' && seq!['Y'][0] == 'Y');
    c == 'y' || c == 'Y'
}

} // verus!
