//! Utility layer: content digests and the identifiers derived from them,
//! environment-variable key handling, message padding, and the service
//! control messages.

use crate::strutil::{hex_char, hex_seq, to_hex};
use sha2::Digest;
use vstd::prelude::*;

verus! {

/// Relies on `sha2::Sha256`: the 32-byte SHA-256 digest, a function of
/// the input bytes alone.
pub uninterp spec fn sha256_of(data: Seq<u8>) -> Seq<u8>;

/// Relies on `sha2::Sha256` through `Digest::digest`; the digest of any
/// input is exactly 32 bytes.
#[verifier::external_body]
fn sha256_bytes(data: &[u8]) -> (r: Vec<u8>)
    ensures
        r@ == sha256_of(data@),
        r@.len() == 32,
{
    sha2::Sha256::digest(data).to_vec()
}

/// The digest of a blob, rendered as the original renders it: 64
/// lower-case hex characters.
pub fn sha256_digest(blob: &[u8]) -> (r: String)
    ensures
        r@ == hex_seq(sha256_of(blob@)),
        r@.len() == 64,
{
    let d = sha256_bytes(blob);
    to_hex(&d)
}

/// The value of a little-endian byte sequence.
pub open spec fn le_val(s: Seq<u8>) -> int
    decreases s.len(),
{
    if s.len() == 0 {
        0
    } else {
        s[0] + 256 * le_val(s.drop_first())
    }
}

pub open spec fn pow256(n: nat) -> int
    decreases n,
{
    if n == 0 {
        1
    } else {
        256 * pow256((n - 1) as nat)
    }
}

pub proof fn lemma_le_val_bound(s: Seq<u8>)
    ensures
        0 <= le_val(s) < pow256(s.len()),
    decreases s.len(),
{
    if s.len() > 0 {
        lemma_le_val_bound(s.drop_first());
    }
}

/// Little-endian accumulation of exactly eight bytes into a word.
fn le_u64(v: &Vec<u8>) -> (r: u64)
    requires
        v@.len() == 8,
    ensures
        r == le_val(v@),
{
    proof {
        reveal_with_fuel(pow256, 9);
    }
    let mut x: u64 = 0;
    let mut j: usize = 8;
    while j > 0
        invariant
            j <= 8,
            v@.len() == 8,
            x == le_val(v@.subrange(j as int, 8)),
        decreases j,
    {
        proof {
            reveal_with_fuel(pow256, 9);
            lemma_le_val_bound(v@.subrange(j as int, 8));
            lemma_le_val_bound(v@.subrange(j - 1, 8));
            assert(v@.subrange(j - 1, 8).drop_first() =~= v@.subrange(j as int, 8));
        }
        j = j - 1;
        x = x * 256 + (v[j] as u64);
    }
    proof {
        assert(v@.subrange(0, 8) =~= v@);
    }
    x
}

/// A little-endian word read straight from eight bytes, as
/// `u64::from_le_bytes` reads it.
pub fn u64_id(d: &[u8; 8]) -> (r: u64)
    ensures
        r == le_val(d@),
{
    let v = vstd::slice::slice_to_vec(d.as_slice());
    le_u64(&v)
}

/// The leading characters of a digest's hex rendering, taken as ASCII
/// bytes.
pub open spec fn hex_bytes_prefix(d: Seq<u8>, n: nat) -> Seq<u8> {
    Seq::new(n, |i: int| hex_seq(d)[i] as u8)
}

/// The word identifier the digest-based id helpers produce: the first
/// eight hex characters of the blob's digest, read little-endian.
pub open spec fn u64_digest_prefix(data: Seq<u8>) -> int {
    le_val(hex_bytes_prefix(sha256_of(data), 8))
}

fn hex_ascii(d: u8) -> (r: u8)
    requires
        d < 16,
    ensures
        r == hex_char(d as int) as u8,
{
    if d < 10 {
        48 + d
    } else {
        87 + d
    }
}

/// The first `n` hex characters of the digest of `data`, as ASCII bytes.
fn digest_hex_prefix(data: &[u8], n: usize) -> (r: Vec<u8>)
    requires
        n <= 64,
        n % 2 == 0,
    ensures
        r@ == hex_bytes_prefix(sha256_of(data@), n as nat),
{
    let d = sha256_bytes(data);
    let mut h: Vec<u8> = Vec::new();
    let mut k: usize = 0;
    while k < n / 2
        invariant
            k <= n / 2,
            n <= 64,
            n % 2 == 0,
            d@ == sha256_of(data@),
            d@.len() == 32,
            h@ == hex_bytes_prefix(d@, (2 * k) as nat),
        decreases n / 2 - k,
    {
        let b = d[k];
        h.push(hex_ascii(b / 16));
        h.push(hex_ascii(b % 16));
        proof {
            assert(h@ =~= hex_bytes_prefix(d@, (2 * (k + 1)) as nat));
        }
        k = k + 1;
    }
    h
}

/// The word identifier of a blob: the first eight characters of its hex
/// digest, read as a little-endian word.
pub fn first8_bytes_to_u64(data: &[u8]) -> (r: u64)
    ensures
        r == u64_digest_prefix(data@),
{
    let h = digest_hex_prefix(data, 8);
    le_u64(&h)
}

/// A 32-byte value: block, transaction and asset identities.
#[derive(Clone, Debug, PartialEq)]
pub struct Bytes32 {
    pub bytes: Vec<u8>,
}

impl View for Bytes32 {
    type V = Seq<u8>;

    open spec fn view(&self) -> Seq<u8> {
        self.bytes@
    }
}

impl Bytes32 {
    pub open spec fn wf(&self) -> bool {
        self@.len() == 32
    }

    pub fn new(bytes: Vec<u8>) -> (r: Self)
        requires
            bytes@.len() == 32,
        ensures
            r@ == bytes@,
            r.wf(),
    {
        Bytes32 { bytes }
    }
}

/// The wide identifier of a blob: the first 32 characters of its hex
/// digest.
pub fn first32_bytes_to_bytes32(data: &[u8]) -> (r: Bytes32)
    ensures
        r@ == hex_bytes_prefix(sha256_of(data@), 32),
        r.wf(),
{
    let h = digest_hex_prefix(data, 32);
    Bytes32::new(h)
}

/// The id helpers salt an entity identity with its input bytes.
pub fn u64_id_from_inputs(id: &[u8; 32], inputs: Vec<u8>) -> (r: u64)
    ensures
        r == u64_digest_prefix(id@ + inputs@),
{
    let mut joined = vstd::slice::slice_to_vec(id.as_slice());
    let mut rest = inputs;
    joined.append(&mut rest);
    first8_bytes_to_u64(joined.as_slice())
}

pub fn bytes32_from_inputs(id: &[u8; 32], inputs: Vec<u8>) -> (r: Bytes32)
    ensures
        r@ == hex_bytes_prefix(sha256_of(id@ + inputs@), 32),
        r.wf(),
{
    let mut joined = vstd::slice::slice_to_vec(id.as_slice());
    let mut rest = inputs;
    joined.append(&mut rest);
    first32_bytes_to_bytes32(joined.as_slice())
}

/// The stable identifier of a type in a namespace, persisted with the
/// schema metadata: the word identifier of `"{namespace}:{ty_name}"`.
pub open spec fn type_id_of(namespace: Seq<char>, ty_name: Seq<char>) -> int {
    u64_digest_prefix(vstd::utf8::encode_utf8(namespace + ":"@ + ty_name)) as u64 as i64 as int
}

pub fn type_id(namespace: &str, ty_name: &str) -> (r: i64)
    ensures
        r == type_id_of(namespace@, ty_name@),
{
    let mut s: String = namespace.to_owned();
    s.append(":");
    s.append(ty_name);
    let bytes = s.as_str().as_bytes_vec();
    let w = first8_bytes_to_u64(bytes.as_slice());
    #[verifier::truncate] (w as i64)
}

/// The shape of a deferred environment value: `$KEY` or `${KEY}`.
pub open spec fn is_opt_env_var_spec(s: Seq<char>) -> bool {
    (s.len() >= 1 && s[0] == '$') || (s.len() >= 2 && s[0] == '$' && s[1] == '{'
        && s[s.len() - 1] == '}')
}

pub fn is_opt_env_var(key: &str) -> (r: bool)
    ensures
        r == is_opt_env_var_spec(key@),
{
    let n = key.unicode_len();
    if n >= 1 && key.get_char(0) == '$' {
        true
    } else if n >= 2 && key.get_char(0) == '$' && key.get_char(1) == '{' && key.get_char(
        n - 1,
    ) == '}' {
        true
    } else {
        false
    }
}

/// The key under a deferred environment value: `${KEY}` sheds both
/// delimiters, `$KEY` sheds the sign.
pub fn trim_opt_env_key(key: &str) -> (r: &str)
    requires
        key@.len() >= 1,
        key@[0] == '$',
        key@.len() >= 2 && key@[1] == '{' ==> key@.len() >= 3,
    ensures
        key@.len() >= 2 && key@[1] == '{' ==> r@ == key@.subrange(2, key@.len() - 2 + 1),
        !(key@.len() >= 2 && key@[1] == '{') ==> r@ == key@.subrange(1, key@.len() as int),
{
    let n = key.unicode_len();
    let not_ambiguous = n >= 2 && key.get_char(1) == '{';
    if not_ambiguous {
        key.substring_char(2, n - 1)
    } else {
        key.substring_char(1, n)
    }
}

/// A run of spaces.
pub open spec fn spaces(n: nat) -> Seq<char> {
    Seq::new(n, |i: int| ' ')
}

fn push_spaces(s: &mut String, n: usize)
    ensures
        final(s)@ == old(s)@ + spaces(n as nat),
{
    let mut i: usize = 0;
    while i < n
        invariant
            i <= n,
            s@ == old(s)@ + spaces(i as nat),
        decreases n - i,
    {
        s.append(" ");
        proof {
            reveal_strlit(" ");
            assert(s@ =~= old(s)@ + spaces((i + 1) as nat));
        }
        i = i + 1;
    }
    proof {
        assert(old(s)@ + spaces(0) =~= old(s)@);
    }
}

/// A string padded on the right with spaces to the width, left as it is
/// when already that wide.
pub open spec fn rightpad_spec(s: Seq<char>, n: nat) -> Seq<char> {
    if s.len() >= n {
        s
    } else {
        s + spaces((n - s.len()) as nat)
    }
}

pub fn rightpad_whitespace(s: &str, n: usize) -> (r: String)
    ensures
        r@ == rightpad_spec(s@, n as nat),
{
    let len = s.unicode_len();
    let mut r: String = s.to_owned();
    if len < n {
        push_spaces(&mut r, n - len);
    }
    r
}

/// A string centred in the width: the excess is split with the larger
/// half on the right.
pub open spec fn center_spec(s: Seq<char>, n: nat) -> Seq<char> {
    if s.len() >= n {
        s
    } else {
        spaces(((n - s.len()) / 2) as nat) + s + spaces(
            ((n - s.len()) - (n - s.len()) / 2) as nat,
        )
    }
}

pub fn center_align(s: &str, n: usize) -> (r: String)
    ensures
        r@ == center_spec(s@, n as nat),
{
    let len = s.unicode_len();
    if len >= n {
        s.to_owned()
    } else {
        let pad = n - len;
        let left = pad / 2;
        let mut r = String::new();
        push_spaces(&mut r, left);
        r.append(s);
        push_spaces(&mut r, pad - left);
        proof {
            assert(Seq::<char>::empty() + spaces(left as nat) =~= spaces(left as nat));
        }
        r
    }
}

/// The located-executable message: the path when one was found, padded;
/// otherwise a padded note that the executable is missing.
pub open spec fn exec_msg_spec(exec_name: Seq<char>, path: Option<Seq<char>>) -> Seq<
    char,
> {
    match path {
        Some(p) => rightpad_spec(p, crate::defaults::MESSAGE_PADDING as nat),
        None => rightpad_spec(
            "Can't locate "@ + exec_name + "."@,
            crate::defaults::MESSAGE_PADDING as nat,
        ),
    }
}

pub fn format_exec_msg(exec_name: &str, path: Option<String>) -> (r: String)
    ensures
        r@ == exec_msg_spec(exec_name@, match path {
            Some(p) => Some(p@),
            None => None,
        }),
{
    match path {
        Some(p) => rightpad_whitespace(p.as_str(), crate::defaults::MESSAGE_PADDING),
        None => {
            let mut m: String = "Can't locate ".to_owned();
            m.append(exec_name);
            m.append(".");
            rightpad_whitespace(m.as_str(), crate::defaults::MESSAGE_PADDING)
        },
    }
}

/// Trailing spaces removed, as fixed-width ASCII fields are trimmed for
/// display.
pub open spec fn trim_end_spaces(s: Seq<char>) -> Seq<char>
    decreases s.len(),
{
    if s.len() > 0 && s[s.len() - 1] == ' ' {
        trim_end_spaces(s.drop_last())
    } else {
        s
    }
}

pub fn trim_sized_ascii_string(s: &str) -> (r: String)
    ensures
        r@ == trim_end_spaces(s@),
{
    let mut k = s.unicode_len();
    proof {
        assert(s@.subrange(0, k as int) =~= s@);
    }
    while k > 0 && s.get_char(k - 1) == ' '
        invariant
            k <= s@.len(),
            trim_end_spaces(s@) == trim_end_spaces(s@.subrange(0, k as int)),
        decreases k,
    {
        proof {
            assert(s@.subrange(0, k as int).drop_last() =~= s@.subrange(0, k - 1));
        }
        k = k - 1;
    }
    let piece = s.substring_char(0, k);
    proof {
        if k > 0 {
            assert(s@.subrange(0, k as int)[k - 1] != ' ');
        }
        assert(trim_end_spaces(s@.subrange(0, k as int)) == s@.subrange(0, k as int));
    }
    piece.to_owned()
}

/// Asks an indexer task to swap in a newly deployed handler module.
#[derive(Debug)]
pub struct AssetReloadRequest {
    pub namespace: String,
    pub identifier: String,
}

/// Asks an indexer task to stop.
#[derive(Debug)]
pub struct IndexStopRequest {
    pub namespace: String,
    pub identifier: String,
}

/// Asks an indexer task to revert to a prior asset blob.
#[derive(Debug)]
pub struct IndexRevertRequest {
    pub penultimate_asset_id: i64,
    pub penultimate_asset_bytes: Vec<u8>,
    pub namespace: String,
    pub identifier: String,
}

/// An admin message delivered to the service's bounded mailbox.
#[derive(Debug)]
pub enum ServiceRequest {
    AssetReload(AssetReloadRequest),
    IndexStop(IndexStopRequest),
    IndexRevert(IndexRevertRequest),
}

#[derive(Debug, Clone, PartialEq, Eq, Structural)]
pub enum ServiceStatus {
    OK,
    NotOk,
}

/// The upstream node's health answer.
#[derive(Debug, Clone, PartialEq, Eq, Structural)]
pub struct FuelNodeHealthResponse {
    pub up: bool,
}

impl From<FuelNodeHealthResponse> for ServiceStatus {
    fn from(r: FuelNodeHealthResponse) -> (s: Self) {
        match r.up {
            true => ServiceStatus::OK,
            _ => ServiceStatus::NotOk,
        }
    }
}

impl vstd::std_specs::convert::FromSpecImpl<FuelNodeHealthResponse> for ServiceStatus {
    open spec fn obeys_from_spec() -> bool {
        true
    }

    open spec fn from_spec(r: FuelNodeHealthResponse) -> Self {
        if r.up {
            ServiceStatus::OK
        } else {
            ServiceStatus::NotOk
        }
    }
}

} // verus!
