//! Configuration: the sequencer's recognised options with their defaults, the
//! subnet id notation (`0x` plus 64 hex digits), the command-channel size
//! override, and the source-head normalisation applied at startup.

use vstd::prelude::*;

use vstd::utf8::encode_utf8;

use crate::types::{is_zero_bytes, Certificate, CertificateId, InvalidInput, SubnetId};

verus! {

/// The command queue depth used when no override is given.
pub const DEFAULT_COMMAND_CHANNEL_SIZE: usize = 2048;

/// The sequencer's configuration file section.
#[derive(Debug, Clone)]
pub struct SequencerConfig {
    /// Subnet id of this sequencer, hex encoded 32 bytes prefixed with `0x`.
    pub subnet_id: Option<String>,
    /// JSON-RPC endpoint of the subnet node.
    pub subnet_jsonrpc_http: String,
    /// Optional explicit websocket endpoint; derived from the HTTP one when
    /// absent.
    pub subnet_jsonrpc_ws: Option<String>,
    /// Address of the Topos core contract on the subnet.
    pub subnet_contract_address: String,
    /// gRPC API endpoint of one TCE process.
    pub tce_grpc_endpoint: String,
    /// OTLP agent endpoint, unused when absent.
    pub otlp_agent: Option<String>,
    /// OTLP service name, unused when absent.
    pub otlp_service_name: Option<String>,
    /// Block number from which to begin deriving certificates.
    pub start_block: Option<u64>,
}

/// The assembled sequencer runtime settings.
#[derive(Debug)]
pub struct SequencerConfiguration {
    pub subnet_id: Option<String>,
    pub public_key: Option<Vec<u8>>,
    pub subnet_jsonrpc_http: String,
    pub subnet_jsonrpc_ws: Option<String>,
    pub subnet_contract_address: String,
    pub tce_grpc_endpoint: String,
    pub signing_key: Vec<u8>,
    pub verifier: u32,
    pub start_block: Option<u64>,
}

/// The subnet JSON-RPC endpoint assumed when none is configured.
pub fn default_subnet_jsonrpc_endpoint() -> (r: String)
    ensures
        r@ == "127.0.0.1:8545"@,
{
    "127.0.0.1:8545".to_string()
}

/// The contract address assumed when none is configured.
pub fn default_subnet_contract_address() -> (r: String)
    ensures
        r@ == "0x0000000000000000000000000000000000000000"@,
{
    "0x0000000000000000000000000000000000000000".to_string()
}

/// The TCE gRPC endpoint assumed when none is configured.
pub fn default_tce_grpc_endpoint() -> (r: String)
    ensures
        r@ == "http://[::1]:1340"@,
{
    "http://[::1]:1340".to_string()
}

impl SequencerConfig {
    /// The configuration profile this section is read from.
    pub fn profile() -> (r: String)
        ensures
            r@ == "sequencer"@,
    {
        "sequencer".to_string()
    }
}

/// Whether `b` is an ASCII hex digit.
pub open spec fn is_hex_digit(b: u8) -> bool {
    (48 <= b <= 57) || (97 <= b <= 102) || (65 <= b <= 70)
}

/// The value of one hex digit.
pub open spec fn hex_val(b: u8) -> u8 {
    if 48 <= b <= 57 {
        (b - 48) as u8
    } else if 97 <= b <= 102 {
        (b - 87) as u8
    } else {
        (b - 55) as u8
    }
}

/// The byte written as the hex digits `hi`, `lo`.
pub open spec fn hex_byte(hi: u8, lo: u8) -> u8 {
    (hex_val(hi) * 16 + hex_val(lo)) as u8
}

/// Why a byte string is not hex.
#[derive(Clone, Copy, Debug, PartialEq, Eq, Structural)]
pub enum HexError {
    /// An odd number of digits.
    OddLength,
    /// A byte that is not a hex digit, at this index.
    InvalidCharacter { c: char, index: usize },
}

/// Relies on hex::decode: an even-length string of hex digits decodes to one
/// byte per digit pair, high digit first; an odd length is refused, and
/// otherwise the first byte that is no hex digit is reported with its index.
#[verifier::external_body]
fn hex_decode(data: &[u8]) -> (r: Result<Vec<u8>, HexError>)
    ensures
        (r is Ok) == (data@.len() % 2 == 0 && forall|i: int|
            0 <= i < data@.len() ==> is_hex_digit(data@[i])),
        match r {
            Ok(b) => b@.len() == data@.len() / 2 && forall|i: int|
                0 <= i < b@.len() ==> b@[i] == hex_byte(data@[2 * i], data@[2 * i + 1]),
            Err(HexError::OddLength) => data@.len() % 2 == 1,
            Err(HexError::InvalidCharacter { c, index }) => data@.len() % 2 == 0 && 0 <= index
                < data@.len() && !is_hex_digit(data@[index as int]) && (forall|i: int|
                0 <= i < index ==> is_hex_digit(data@[i])) && c == data@[index as int] as char,
        },
{
    hex::decode(data).map_err(
        |e| match e {
            hex::FromHexError::OddLength => HexError::OddLength,
            hex::FromHexError::InvalidHexCharacter { c, index } => HexError::InvalidCharacter {
                c,
                index,
            },
            hex::FromHexError::InvalidStringLength => HexError::OddLength,
        },
    )
}

/// Whether `id` is a well-formed subnet id string as bytes: `0x` followed by
/// exactly 64 hex digits.
pub open spec fn valid_subnet_id_bytes(id: Seq<u8>) -> bool {
    &&& id.len() == 66
    &&& id[0] == 48
    &&& id[1] == 120
    &&& forall|i: int| 2 <= i < 66 ==> is_hex_digit(id[i])
}

/// The subnet id bytes denoted by a well-formed subnet id string.
pub open spec fn subnet_id_of_bytes(id: Seq<u8>) -> Seq<u8> {
    Seq::new(32, |i: int| hex_byte(id[2 + 2 * i], id[3 + 2 * i]))
}

/// Parses a subnet id written as `0x` plus 64 hex digits, handed over as the
/// string's bytes. Rejects a missing `0x` prefix, a length other than 66
/// bytes, and any byte that is not a hex digit.
pub fn parse_subnet_id(id: &[u8]) -> (r: Result<SubnetId, InvalidInput>)
    ensures
        (r is Ok) == valid_subnet_id_bytes(id@),
        match r {
            Ok(sid) => sid@ == subnet_id_of_bytes(id@),
            Err(e) => e == (if id@.len() < 2 || id@[0] != 48 || id@[1] != 120 {
                InvalidInput::MissingHexPrefix
            } else if id@.len() != 66 {
                InvalidInput::BadIdLength
            } else {
                InvalidInput::InvalidHexCharacter
            }),
        },
{
    if id.len() < 2 || id[0] != 48 || id[1] != 120 {
        return Err(InvalidInput::MissingHexPrefix);
    }
    if id.len() != 66 {
        return Err(InvalidInput::BadIdLength);
    }
    let mut tail: Vec<u8> = Vec::new();
    let mut i: usize = 2;
    while i < 66
        invariant
            2 <= i <= 66,
            id@.len() == 66,
            tail@ =~= id@.subrange(2, i as int),
        decreases 66 - i,
    {
        tail.push(id[i]);
        i += 1;
    }
    proof {
        assert(tail@ =~= id@.subrange(2, 66));
    }
    match hex_decode(tail.as_slice()) {
        Ok(bytes) => {
            let mut arr = [0u8; 32];
            let mut k: usize = 0;
            while k < 32
                invariant
                    0 <= k <= 32,
                    bytes@.len() == 32,
                    forall|m: int| 0 <= m < k ==> arr@[m] == bytes@[m],
                decreases 32 - k,
            {
                arr[k] = bytes[k];
                k += 1;
            }
            let sid = SubnetId(arr);
            proof {
                assert forall|m: int| 0 <= m < 32 implies sid@[m] == subnet_id_of_bytes(id@)[m] by {
                    assert(tail@[2 * m] == id@[2 + 2 * m]);
                    assert(tail@[2 * m + 1] == id@[3 + 2 * m]);
                }
                assert(sid@ =~= subnet_id_of_bytes(id@));
                assert forall|i2: int| 2 <= i2 < 66 implies is_hex_digit(id@[i2]) by {
                    assert(tail@[i2 - 2] == id@[i2]);
                }
            }
            Ok(sid)
        },
        Err(_) => {
            proof {
                if valid_subnet_id_bytes(id@) {
                    assert forall|i2: int| 0 <= i2 < tail@.len() implies is_hex_digit(
                        tail@[i2],
                    ) by {
                        assert(tail@[i2] == id@[i2 + 2]);
                    }
                }
            }
            Err(InvalidInput::InvalidHexCharacter)
        },
    }
}

/// Resolves this node's subnet id: from the leading-byte-stripped public key
/// when one is given, else from the configured hex string, else not at all
/// (the caller must then ask the subnet node).
pub fn resolve_subnet_id(public_key: &Option<Vec<u8>>, subnet_id: &Option<String>) -> (r: Result<
    Option<SubnetId>,
    InvalidInput,
>)
    ensures
        match public_key {
            Some(pk) => (r is Ok) == (pk@.len() == 33) && (pk@.len() == 33 ==> (r matches Ok(
                Some(sid),
            ) && sid@ == pk@.skip(1))) && (pk@.len() != 33 ==> r == Err::<
                Option<SubnetId>,
                InvalidInput,
            >(InvalidInput::BadIdLength)),
            None => match subnet_id {
                Some(s) => {
                    let bytes = encode_utf8(s@);
                    &&& (r is Ok) == valid_subnet_id_bytes(bytes)
                    &&& (valid_subnet_id_bytes(bytes) ==> (r matches Ok(Some(sid)) && sid@
                        == subnet_id_of_bytes(bytes)))
                    &&& (!valid_subnet_id_bytes(bytes) ==> r == Err::<
                        Option<SubnetId>,
                        InvalidInput,
                    >(
                        if bytes.len() < 2 || bytes[0] != 48 || bytes[1] != 120 {
                            InvalidInput::MissingHexPrefix
                        } else if bytes.len() != 66 {
                            InvalidInput::BadIdLength
                        } else {
                            InvalidInput::InvalidHexCharacter
                        },
                    ))
                },
                None => r matches Ok(None),
            },
        },
{
    match public_key {
        Some(pk) => {
            if pk.len() != 33 {
                return Err(InvalidInput::BadIdLength);
            }
            let mut arr = [0u8; 32];
            let mut k: usize = 0;
            while k < 32
                invariant
                    0 <= k <= 32,
                    pk@.len() == 33,
                    forall|m: int| 0 <= m < k ==> arr@[m] == pk@[m + 1],
                decreases 32 - k,
            {
                arr[k] = pk[k + 1];
                k += 1;
            }
            let sid = SubnetId(arr);
            proof {
                assert(sid@ =~= pk@.skip(1));
            }
            Ok(Some(sid))
        },
        None => match subnet_id {
            Some(s) => match parse_subnet_id(s.as_str().as_bytes()) {
                Ok(sid) => Ok(Some(sid)),
                Err(e) => Err(e),
            },
            None => Ok(None),
        },
    }
}

/// Chooses the subnet websocket endpoint: an explicitly configured endpoint
/// is used as given; otherwise the endpoint derived from the HTTP one stands.
pub fn select_ws_endpoint(derived: String, explicit: &Option<String>) -> (r: String)
    ensures
        match explicit {
            Some(s) => r@ == s@,
            None => r@ == derived@,
        },
{
    match explicit {
        Some(s) => s.as_str().to_owned(),
        None => derived,
    }
}

/// The number a string of decimal digits denotes.
pub open spec fn digits_val(s: Seq<u8>) -> nat
    decreases s.len(),
{
    if s.len() == 0 {
        0
    } else {
        (digits_val(s.drop_last()) * 10 + (s.last() - 48)) as nat
    }
}

/// Whether every byte is a decimal digit.
pub open spec fn all_digits(s: Seq<u8>) -> bool {
    forall|i: int| 0 <= i < s.len() ==> 48 <= #[trigger] s[i] <= 57
}

/// A longer digit string denotes no smaller a number.
proof fn lemma_digits_val_monotone(s: Seq<u8>, k: int)
    requires
        0 <= k <= s.len(),
        all_digits(s),
    ensures
        digits_val(s.take(k)) <= digits_val(s),
    decreases s.len() - k,
{
    if k < s.len() {
        assert(s.take(k + 1).drop_last() =~= s.take(k));
        assert(s.take(k + 1).last() == s[k]);
        assert(digits_val(s.take(k)) <= digits_val(s.take(k + 1)));
        lemma_digits_val_monotone(s, k + 1);
    } else {
        assert(s.take(k) =~= s);
    }
}

/// Parses a non-empty string of decimal digits, handed over as bytes.
/// Returns the denoted number exactly when every byte is a digit, the string
/// is non-empty, and the number fits in a machine word.
pub fn parse_usize(s: &[u8]) -> (r: Option<usize>)
    ensures
        (r is Some) == (s@.len() > 0 && all_digits(s@) && digits_val(s@) <= usize::MAX),
        r matches Some(n) ==> n == digits_val(s@),
{
    if s.len() == 0 {
        return None;
    }
    let mut acc: usize = 0;
    let mut i: usize = 0;
    while i < s.len()
        invariant
            0 <= i <= s@.len(),
            all_digits(s@.take(i as int)),
            acc == digits_val(s@.take(i as int)),
        decreases s@.len() - i,
    {
        let b = s[i];
        if b < 48 || b > 57 {
            assert(!all_digits(s@));
            return None;
        }
        let d = (b - 48) as usize;
        if acc > (usize::MAX - d) / 10 {
            proof {
                assert(s@.take(i + 1).drop_last() =~= s@.take(i as int));
                assert(s@.take(i + 1).last() == s@[i as int]);
                assert(digits_val(s@.take(i + 1)) == acc * 10 + d);
                assert(acc * 10 + d > usize::MAX) by {
                    let q = (usize::MAX - d) / 10;
                    assert(usize::MAX - d == 10 * q + (usize::MAX - d) % 10);
                    assert(acc >= q + 1);
                    assert(acc * 10 >= (q + 1) * 10) by (nonlinear_arith)
                        requires
                            acc >= q + 1,
                            q >= 0,
                    ;
                }
                if all_digits(s@) {
                    lemma_digits_val_monotone(s@, i + 1);
                }
            }
            return None;
        }
        proof {
            let q = (usize::MAX - d) / 10;
            assert(usize::MAX - d == 10 * q + (usize::MAX - d) % 10);
            assert(acc * 10 <= q * 10) by (nonlinear_arith)
                requires
                    0 <= acc <= q,
            ;
            assert(s@.take(i + 1).drop_last() =~= s@.take(i as int));
            assert(s@.take(i + 1).last() == s@[i as int]);
        }
        acc = acc * 10 + d;
        i += 1;
    }
    proof {
        assert(s@.take(i as int) =~= s@);
    }
    Some(acc)
}

/// The command queue depth: the override when it is a number, else the
/// default.
pub fn command_channel_size(raw: &Option<String>) -> (r: usize)
    ensures
        match raw {
            Some(s) => r == (if encode_utf8(s@).len() > 0 && all_digits(encode_utf8(s@))
                && digits_val(encode_utf8(s@)) <= usize::MAX {
                digits_val(encode_utf8(s@)) as usize
            } else {
                DEFAULT_COMMAND_CHANNEL_SIZE as usize
            }),
            None => r == DEFAULT_COMMAND_CHANNEL_SIZE,
        },
{
    match raw {
        Some(s) => match parse_usize(s.as_str().as_bytes()) {
            Some(n) => n,
            None => DEFAULT_COMMAND_CHANNEL_SIZE,
        },
        None => DEFAULT_COMMAND_CHANNEL_SIZE,
    }
}

/// Normalises the source head a TCE node reports at startup: an all-zero head
/// certificate id means the TCE knows nothing of the subnet, so certificate
/// production must start from the subnet's genesis instead.
pub fn normalize_source_head(head: Option<(Certificate, u64)>) -> (r: Option<(CertificateId, u64)>)
    ensures
        match head {
            None => r is None,
            Some(h) => if is_zero_bytes(h.0.id@) {
                r is None
            } else {
                r matches Some(p) && p.0@ == h.0.id@ && p.1 == h.1
            },
        },
{
    match head {
        None => None,
        Some((cert, position)) => {
            if cert.id.is_zero() {
                None
            } else {
                Some((cert.id, position))
            }
        },
    }
}

} // verus!
