//! Transfer metadata read from a decoded value, and the pieces of the
//! tracker exchange that are computation: the announce query and the
//! compact peer list.
use vstd::prelude::*;
use vstd::string::StrSliceExecFns;
use crate::bencode::{append_bytes, encode_term, entries, to_vec_u8, lemma_dict_view, utf8_decode, utf8_text, Term, Value};
use crate::decimal::{ascii_chars, ascii_only, ascii_string, decimal_string, lemma_nat_text_ascii, nat_text, write_nat};
use crate::planner::PlanError;

verus! {

/// A field of the metadata or of a tracker response.
#[derive(Debug, Clone, Copy, PartialEq, Eq, Structural)]
pub enum MetaField {
    Announce,
    Info,
    Name,
    PieceLength,
    Length,
    Pieces,
    Peers,
}

/// Why metadata could not be read.
#[derive(Debug, Clone, Copy, PartialEq, Eq, Structural)]
pub enum MetaError {
    /// The value is not a map.
    NotADictionary,
    /// The field is absent or of the wrong kind.
    Missing(MetaField),
    /// The field's bytes are not valid UTF-8.
    InvalidUtf8(MetaField),
    /// The piece hashes are not a whole number of 20-byte digests.
    BadPieceHashes,
    /// The announce URL cannot be read as an absolute URL.
    BadAnnounceUrl,
}

/// The `info` map of a transfer.
#[derive(Debug, Clone)]
pub struct Info {
    pub length: i64,
    pub name: String,
    pub piece_length: i64,
    /// One 20-byte digest per piece, concatenated.
    pub pieces: Vec<u8>,
}

/// A transfer's metadata.
#[derive(Debug, Clone)]
pub struct MetaData {
    pub announce: String,
    pub info: Info,
}

/// The value of the last entry with key `k`.
pub open spec fn lookup(d: Seq<(Seq<u8>, Term)>, k: Seq<u8>) -> Option<Term>
    decreases d.len(),
{
    if d.len() == 0 {
        None
    } else if d.last().0 == k {
        Some(d.last().1)
    } else {
        lookup(d.drop_last(), k)
    }
}

pub open spec fn key_of(f: MetaField) -> Seq<u8> {
    match f {
        MetaField::Announce => seq![97u8, 110, 110, 111, 117, 110, 99, 101],
        MetaField::Info => seq![105u8, 110, 102, 111],
        MetaField::Name => seq![110u8, 97, 109, 101],
        MetaField::PieceLength => seq![112u8, 105, 101, 99, 101, 32, 108, 101, 110, 103, 116, 104],
        MetaField::Length => seq![108u8, 101, 110, 103, 116, 104],
        MetaField::Pieces => seq![112u8, 105, 101, 99, 101, 115],
        MetaField::Peers => seq![112u8, 101, 101, 114, 115],
    }
}

/// A text field.
pub open spec fn text_field(d: Seq<(Seq<u8>, Term)>, f: MetaField) -> Result<Seq<char>, MetaError> {
    match lookup(d, key_of(f)) {
        Some(Term::Str(b)) => match utf8_decode(b) {
            Some(t) => Ok(t),
            None => Err(MetaError::InvalidUtf8(f)),
        },
        _ => Err(MetaError::Missing(f)),
    }
}

/// An integer field.
pub open spec fn int_field(d: Seq<(Seq<u8>, Term)>, f: MetaField) -> Result<int, MetaError> {
    match lookup(d, key_of(f)) {
        Some(Term::Int(i)) => Ok(i),
        _ => Err(MetaError::Missing(f)),
    }
}

/// A byte-string field.
pub open spec fn bytes_field(d: Seq<(Seq<u8>, Term)>, f: MetaField) -> Result<Seq<u8>, MetaError> {
    match lookup(d, key_of(f)) {
        Some(Term::Str(b)) => Ok(b),
        _ => Err(MetaError::Missing(f)),
    }
}

/// What an `info` map holds: name, piece length, length, piece hashes;
/// fields are checked in that order.
pub open spec fn info_spec(d: Seq<(Seq<u8>, Term)>) -> Result<
    (Seq<char>, int, int, Seq<u8>),
    MetaError,
> {
    match text_field(d, MetaField::Name) {
        Err(e) => Err(e),
        Ok(name) => match int_field(d, MetaField::PieceLength) {
            Err(e) => Err(e),
            Ok(pl) => match int_field(d, MetaField::Length) {
                Err(e) => Err(e),
                Ok(len) => match bytes_field(d, MetaField::Pieces) {
                    Err(e) => Err(e),
                    Ok(p) => if p.len() % 20 == 0 {
                        Ok((name, pl, len, p))
                    } else {
                        Err(MetaError::BadPieceHashes)
                    },
                },
            },
        },
    }
}

/// What a metadata value holds: the announce URL and the `info` map.
pub open spec fn metadata_spec(t: Term) -> Result<
    (Seq<char>, (Seq<char>, int, int, Seq<u8>)),
    MetaError,
> {
    match t {
        Term::Dict(d) => match text_field(d, MetaField::Announce) {
            Err(e) => Err(e),
            Ok(a) => match lookup(d, key_of(MetaField::Info)) {
                Some(Term::Dict(i)) => match info_spec(i) {
                    Ok(x) => Ok((a, x)),
                    Err(e) => Err(e),
                },
                _ => Err(MetaError::Missing(MetaField::Info)),
            },
        },
        _ => Err(MetaError::NotADictionary),
    }
}

fn key_bytes(f: MetaField) -> (r: Vec<u8>)
    ensures
        r@ == key_of(f),
{
    let r: Vec<u8> = match f {
        MetaField::Announce => vec![97u8, 110, 110, 111, 117, 110, 99, 101],
        MetaField::Info => vec![105u8, 110, 102, 111],
        MetaField::Name => vec![110u8, 97, 109, 101],
        MetaField::PieceLength => vec![112u8, 105, 101, 99, 101, 32, 108, 101, 110, 103, 116, 104],
        MetaField::Length => vec![108u8, 101, 110, 103, 116, 104],
        MetaField::Pieces => vec![112u8, 105, 101, 99, 101, 115],
        MetaField::Peers => vec![112u8, 101, 101, 114, 115],
    };
    proof {
        assert(r@ =~= key_of(f));
    }
    r
}

fn find_entry<'a>(d: &'a Vec<(Vec<u8>, Value)>, f: MetaField) -> (r: Option<&'a Value>)
    ensures
        match lookup(entries(d@), key_of(f)) {
            Some(t) => (r matches Some(v) && v@ == t),
            None => r is None,
        },
{
    let key = key_bytes(f);
    let ghost e = entries(d@);
    let mut i: usize = d.len();
    proof {
        assert(e.take(i as int) =~= e);
    }
    while i > 0
        invariant
            i <= d@.len(),
            e == entries(d@),
            key@ == key_of(f),
            lookup(e, key_of(f)) == lookup(e.take(i as int), key_of(f)),
        decreases i,
    {
        let ghost t = e.take(i as int);
        proof {
            assert(t.drop_last() =~= e.take(i - 1));
            assert(t.last() == e[i - 1]);
        }
        if crate::bencode::bytes_equal(d[i - 1].0.as_slice(), key.as_slice()) {
            return Some(&d[i - 1].1);
        }
        i = i - 1;
    }
    None
}

fn text_of(d: &Vec<(Vec<u8>, Value)>, f: MetaField) -> (r: Result<String, MetaError>)
    ensures
        match text_field(entries(d@), f) {
            Ok(t) => (r matches Ok(s) && s@ == t),
            Err(e) => r == Err::<String, MetaError>(e),
        },
{
    match find_entry(d, f) {
        Some(Value::Str(b)) => match utf8_text(b.as_slice()) {
            Some(t) => Ok(String::from_str(t)),
            None => Err(MetaError::InvalidUtf8(f)),
        },
        _ => Err(MetaError::Missing(f)),
    }
}

fn int_of(d: &Vec<(Vec<u8>, Value)>, f: MetaField) -> (r: Result<i64, MetaError>)
    ensures
        match int_field(entries(d@), f) {
            Ok(i) => r == Ok::<i64, MetaError>(i as i64) && i == i as i64,
            Err(e) => r == Err::<i64, MetaError>(e),
        },
{
    match find_entry(d, f) {
        Some(Value::Int(i)) => Ok(*i),
        _ => Err(MetaError::Missing(f)),
    }
}

impl Info {
    /// Reads the `info` map's entries.
    pub fn new(values: &Vec<(Vec<u8>, Value)>) -> (r: Result<Self, MetaError>)
        ensures
            match info_spec(entries(values@)) {
                Ok((n, pl, len, p)) => (r matches Ok(i) && i.name@ == n && i.piece_length == pl
                    && i.length == len && i.pieces@ == p),
                Err(e) => r == Err::<Info, MetaError>(e),
            },
    {
        let name = text_of(values, MetaField::Name)?;
        let piece_length = int_of(values, MetaField::PieceLength)?;
        let length = int_of(values, MetaField::Length)?;
        let pieces = match find_entry(values, MetaField::Pieces) {
            Some(Value::Str(b)) => {
                let mut p: Vec<u8> = Vec::new();
                append_bytes(&mut p, b.as_slice());
                proof {
                    assert(p@ =~= b@);
                }
                p
            },
            _ => return Err(MetaError::Missing(MetaField::Pieces)),
        };
        if pieces.len() % 20 != 0 {
            return Err(MetaError::BadPieceHashes);
        }
        Ok(Info { length, name, piece_length, pieces })
    }

    /// The number of piece digests.
    pub fn piece_count(&self) -> (r: usize)
        ensures
            r == self.pieces@.len() / 20,
    {
        self.pieces.len() / 20
    }

    /// The digest of each piece, as lower-case hex.
    pub fn hashes(&self) -> (r: Vec<String>)
        ensures
            r@.len() == self.pieces@.len() / 20,
            forall|k: int|
                0 <= k < r@.len() ==> (#[trigger] r@[k])@ == crate::messages::hex_text(
                    self.pieces@.subrange(20 * k, 20 * k + 20),
                ),
    {
        let len = self.pieces.len();
        let n = len / 20;
        let mut out: Vec<String> = Vec::new();
        let mut k: usize = 0;
        while k < n
            invariant
                len == self.pieces@.len(),
                n == len / 20,
                k <= n,
                out@.len() == k,
                forall|j: int|
                    0 <= j < k ==> (#[trigger] out@[j])@ == crate::messages::hex_text(
                        self.pieces@.subrange(20 * j, 20 * j + 20),
                    ),
            decreases n - k,
        {
            proof {
                assert(20 * k + 20 <= len) by (nonlinear_arith)
                    requires
                        k < n,
                        n == len / 20,
                ;
            }
            let mut chunk: Vec<u8> = Vec::new();
            let mut x: usize = 20 * k;
            let end: usize = x + 20;
            while x < end
                invariant
                    end == 20 * k + 20 <= self.pieces@.len(),
                    20 * k <= x <= end,
                    chunk@ == self.pieces@.subrange(20 * k as int, x as int),
                decreases end - x,
            {
                chunk.push(self.pieces[x]);
                x = x + 1;
                proof {
                    assert(chunk@ =~= self.pieces@.subrange(20 * k as int, x as int));
                }
            }
            out.push(crate::messages::hex_string(chunk.as_slice()));
            k = k + 1;
        }
        out
    }
}

impl Info {
    /// The transfer's length and piece length in the planner's units:
    /// `InvalidGeometry` unless the length is not negative and the piece
    /// length is positive and fits in 32 bits.
    pub fn geometry(&self) -> (r: Result<(u64, u32), PlanError>)
        ensures
            (self.length >= 0 && 0 < self.piece_length <= u32::MAX) ==> r == Ok::<_, PlanError>(
                (self.length as u64, self.piece_length as u32),
            ),
            !(self.length >= 0 && 0 < self.piece_length <= u32::MAX) ==> r == Err::<
                (u64, u32),
                PlanError,
            >(PlanError::InvalidGeometry),
    {
        if self.length >= 0 && 0 < self.piece_length && self.piece_length <= 4294967295i64 {
            Ok((self.length as u64, self.piece_length as u32))
        } else {
            Err(PlanError::InvalidGeometry)
        }
    }
}

impl MetaData {
    /// Reads a transfer's metadata from its decoded value.
    pub fn new(values: Value) -> (r: Result<Self, MetaError>)
        ensures
            match metadata_spec(values@) {
                Ok((a, (n, pl, len, p))) => (r matches Ok(m) && m.announce@ == a && m.info.name@
                    == n && m.info.piece_length == pl && m.info.length == len && m.info.pieces@
                    == p),
                Err(e) => r == Err::<MetaData, MetaError>(e),
            },
    {
        match &values {
            Value::Dict(d) => {
                proof {
                    lemma_dict_view(*d);
                }
                let announce = text_of(d, MetaField::Announce)?;
                match find_entry(d, MetaField::Info) {
                    Some(Value::Dict(i)) => {
                        proof {
                            lemma_dict_view(*i);
                        }
                        let info = Info::new(i)?;
                        Ok(MetaData { announce, info })
                    },
                    _ => Err(MetaError::Missing(MetaField::Info)),
                }
            },
            _ => Err(MetaError::NotADictionary),
        }
    }
}

/// Bytes that stand for themselves in a query string.
pub open spec fn unreserved(b: u8) -> bool {
    (48 <= b <= 57) || (97 <= b <= 122) || (65 <= b <= 90) || b == 45 || b == 95 || b == 46 || b
        == 126
}

/// The ASCII code of a lower-case hex digit, for `n < 16`.
pub open spec fn hex_byte(n: int) -> u8 {
    if n < 10 {
        (48 + n) as u8
    } else {
        (87 + n) as u8
    }
}

/// Percent-encoding of each byte: unreserved bytes as they are, the others
/// as `%` and two lower-case hex digits.
pub open spec fn url_bytes(s: Seq<u8>) -> Seq<u8>
    decreases s.len(),
{
    if s.len() == 0 {
        Seq::empty()
    } else {
        let b = s.last();
        url_bytes(s.drop_last()) + if unreserved(b) {
            seq![b]
        } else {
            seq![37u8, hex_byte(b as int / 16), hex_byte(b as int % 16)]
        }
    }
}

proof fn lemma_url_ascii(s: Seq<u8>)
    ensures
        ascii_only(url_bytes(s)),
    decreases s.len(),
{
    if s.len() > 0 {
        lemma_url_ascii(s.drop_last());
    }
}

fn hex_byte_of(n: u8) -> (r: u8)
    requires
        n < 16,
    ensures
        r == hex_byte(n as int),
{
    if n < 10 {
        48 + n
    } else {
        87 + n
    }
}

/// Percent-encodes bytes for a query string.
pub fn urlencode(data: &[u8]) -> (r: String)
    ensures
        r@ == ascii_chars(url_bytes(data@)),
{
    let mut out: Vec<u8> = Vec::new();
    let mut k: usize = 0;
    proof {
        assert(data@.take(0) =~= Seq::<u8>::empty());
    }
    while k < data.len()
        invariant
            k <= data@.len(),
            out@ == url_bytes(data@.take(k as int)),
        decreases data@.len() - k,
    {
        let b = data[k];
        if (48u8 <= b && b <= 57u8) || (97u8 <= b && b <= 122u8) || (65u8 <= b && b <= 90u8) || b
            == 45u8 || b == 95u8 || b == 46u8 || b == 126u8 {
            out.push(b);
        } else {
            out.push(37u8);
            out.push(hex_byte_of(b / 16));
            out.push(hex_byte_of(b % 16));
        }
        proof {
            assert(data@.take(k + 1).drop_last() =~= data@.take(k as int));
            assert(out@ =~= url_bytes(data@.take(k + 1)));
        }
        k = k + 1;
    }
    proof {
        assert(data@.take(k as int) =~= data@);
        lemma_url_ascii(data@);
    }
    ascii_string(out)
}

/// The announce query for `info_hash` from `peer_id`, listening on `port`,
/// with `left` bytes still to fetch and nothing transferred yet.
pub open spec fn query_text(info_hash: Seq<u8>, peer_id: Seq<u8>, port: nat, left: nat) -> Seq<
    char,
> {
    "info_hash="@ + ascii_chars(url_bytes(info_hash)) + "&peer_id="@ + ascii_chars(
        url_bytes(peer_id),
    ) + "&port="@ + ascii_chars(nat_text(port)) + "&uploaded=0&downloaded=0&left="@ + ascii_chars(
        nat_text(left),
    ) + "&compact=1"@
}

/// Builds the announce query string.
pub fn announce_query(info_hash: &[u8], peer_id: &[u8], port: u16, left: u64) -> (r: String)
    ensures
        r@ == query_text(info_hash@, peer_id@, port as nat, left as nat),
{
    let mut out = String::new();
    out.append("info_hash=");
    out.append(urlencode(info_hash).as_str());
    out.append("&peer_id=");
    out.append(urlencode(peer_id).as_str());
    out.append("&port=");
    out.append(decimal_string(port as u64).as_str());
    out.append("&uploaded=0&downloaded=0&left=");
    out.append(decimal_string(left).as_str());
    out.append("&compact=1");
    proof {
        assert(out@ =~= query_text(info_hash@, peer_id@, port as nat, left as nat));
    }
    out
}

/// `a.b.c.d` for the four bytes at `at`.
pub open spec fn ip_bytes(s: Seq<u8>, at: int) -> Seq<u8> {
    nat_text(s[at] as nat) + seq![46u8] + nat_text(s[at + 1] as nat) + seq![46u8] + nat_text(
        s[at + 2] as nat,
    ) + seq![46u8] + nat_text(s[at + 3] as nat)
}

/// The compact peer list: each full 6-byte record is a dotted IPv4 address
/// and a big-endian port; a shorter tail is ignored.
pub open spec fn peers_spec(s: Seq<u8>) -> Seq<(Seq<char>, u16)> {
    Seq::new(
        s.len() / 6,
        |k: int| (ascii_chars(ip_bytes(s, 6 * k)), (s[6 * k + 4] as int * 256 + s[6 * k + 5]) as u16),
    )
}

/// Reads the compact peer list of a tracker response.
pub fn parse_peers(peers: &[u8]) -> (r: Vec<(String, u16)>)
    ensures
        r@.len() == peers_spec(peers@).len(),
        forall|k: int|
            0 <= k < r@.len() ==> (#[trigger] r@[k]).0@ == peers_spec(peers@)[k].0 && r@[k].1
                == peers_spec(peers@)[k].1,
{
    let len = peers.len();
    let n = len / 6;
    let mut out: Vec<(String, u16)> = Vec::new();
    let mut k: usize = 0;
    while k < n
        invariant
            len == peers@.len(),
            n == len / 6,
            k <= n,
            out@.len() == k,
            forall|j: int|
                0 <= j < k ==> (#[trigger] out@[j]).0@ == peers_spec(peers@)[j].0 && out@[j].1
                    == peers_spec(peers@)[j].1,
        decreases n - k,
    {
        proof {
            assert(6 * k + 6 <= len) by (nonlinear_arith)
                requires
                    k < n,
                    n == len / 6,
            ;
        }
        let at = 6 * k;
        let mut ip: Vec<u8> = Vec::new();
        write_nat(&mut ip, peers[at] as u64);
        ip.push(46u8);
        write_nat(&mut ip, peers[at + 1] as u64);
        ip.push(46u8);
        write_nat(&mut ip, peers[at + 2] as u64);
        ip.push(46u8);
        write_nat(&mut ip, peers[at + 3] as u64);
        proof {
            assert(ip@ =~= ip_bytes(peers@, at as int));
            lemma_nat_text_ascii(peers@[at as int] as nat);
            lemma_nat_text_ascii(peers@[at + 1] as nat);
            lemma_nat_text_ascii(peers@[at + 2] as nat);
            lemma_nat_text_ascii(peers@[at + 3] as nat);
        }
        let port: u16 = (peers[at + 4] as u16) * 256 + peers[at + 5] as u16;
        out.push((ascii_string(ip), port));
        k = k + 1;
    }
    out
}

/// The peers of a tracker response: its `peers` entry read as a compact
/// list.
pub fn peers_from_response(response: &Value) -> (r: Result<Vec<(String, u16)>, MetaError>)
    ensures
        match response@ {
            Term::Dict(d) => match lookup(d, key_of(MetaField::Peers)) {
                Some(Term::Str(p)) => (r matches Ok(v) && v@.len() == peers_spec(p).len() && forall|
                    k: int,
                | 0 <= k < v@.len() ==> (#[trigger] v@[k]).0@ == peers_spec(p)[k].0 && v@[k].1
                    == peers_spec(p)[k].1),
                _ => r == Err::<Vec<(String, u16)>, MetaError>(MetaError::Missing(MetaField::Peers)),
            },
            _ => r == Err::<Vec<(String, u16)>, MetaError>(MetaError::NotADictionary),
        },
{
    match response {
        Value::Dict(d) => {
            proof {
                lemma_dict_view(*d);
            }
            match find_entry(d, MetaField::Peers) {
                Some(Value::Str(p)) => Ok(parse_peers(p.as_slice())),
                _ => Err(MetaError::Missing(MetaField::Peers)),
            }
        },
        _ => Err(MetaError::NotADictionary),
    }
}

/// The canonical encoding of the metadata's `info` entry: the bytes whose
/// digest identifies the transfer.
pub fn info_encoding(values: &Value) -> (r: Result<Vec<u8>, MetaError>)
    ensures
        match values@ {
            Term::Dict(d) => match lookup(d, key_of(MetaField::Info)) {
                Some(t) => (r matches Ok(b) && b@ == encode_term(t)),
                None => r == Err::<Vec<u8>, MetaError>(MetaError::Missing(MetaField::Info)),
            },
            _ => r == Err::<Vec<u8>, MetaError>(MetaError::NotADictionary),
        },
{
    match values {
        Value::Dict(d) => {
            proof {
                lemma_dict_view(*d);
            }
            match find_entry(d, MetaField::Info) {
                Some(v) => match to_vec_u8(v) {
                    Ok(b) => Ok(b),
                    // encoding never fails
                    Err(_) => Err(MetaError::Missing(MetaField::Info)),
                },
                None => Err(MetaError::Missing(MetaField::Info)),
            }
        },
        _ => Err(MetaError::NotADictionary),
    }
}

/// The text of the absolute URL `base` with its query replaced by `query`,
/// or `None` when `base` is not an absolute URL.
pub uninterp spec fn url_with_query(base: Seq<char>, query: Seq<char>) -> Option<Seq<char>>;

/// Relies on `url::Url::parse` to read `base` as an absolute URL (it fails
/// exactly when it cannot), `Url::set_query` to replace the query, and the
/// conversion of the `Url` into its serialization. The length bound keeps
/// the serialization's offsets within `u32`, which `set_query` unwraps.
#[verifier::external_body]
fn set_url_query(base: &str, query: &str) -> (r: Option<String>)
    requires
        base@.len() + query@.len() <= 100_000_000,
    ensures
        match url_with_query(base@, query@) {
            Some(t) => (r matches Some(s) && s@ == t),
            None => r is None,
        },
{
    let mut url = url::Url::parse(base).ok()?;
    url.set_query(Some(query));
    Some(url.into())
}

/// The announce URL with the announce query for `info_hash` from `peer_id`
/// on `port`, `left` bytes still to fetch: `BadAnnounceUrl` when the
/// announce URL is not an absolute URL or the text is too long to handle.
pub fn tracker_url(announce: &str, info_hash: &[u8], peer_id: &[u8], port: u16, left: u64) -> (r:
    Result<String, MetaError>)
    ensures
        announce@.len() + query_text(info_hash@, peer_id@, port as nat, left as nat).len()
            <= 100_000_000 ==> match url_with_query(
            announce@,
            query_text(info_hash@, peer_id@, port as nat, left as nat),
        ) {
            Some(t) => (r matches Ok(s) && s@ == t),
            None => r == Err::<String, MetaError>(MetaError::BadAnnounceUrl),
        },
        announce@.len() + query_text(info_hash@, peer_id@, port as nat, left as nat).len()
            > 100_000_000 ==> r == Err::<String, MetaError>(MetaError::BadAnnounceUrl),
{
    let query = announce_query(info_hash, peer_id, port, left);
    let a = announce.unicode_len();
    let q = query.as_str().unicode_len();
    if a > 100_000_000 || q > 100_000_000 - a {
        return Err(MetaError::BadAnnounceUrl);
    }
    match set_url_query(announce, query.as_str()) {
        Some(u) => Ok(u),
        None => Err(MetaError::BadAnnounceUrl),
    }
}

/// The SHA-1 digest of a byte sequence.
pub uninterp spec fn sha1_of(b: Seq<u8>) -> Seq<u8>;

/// Relies on `sha1::Sha1::digest` (the `Digest` trait of the `digest`
/// crate): the SHA-1 digest of the bytes, 20 bytes long (its output size
/// is `U20`).
#[verifier::external_body]
fn sha1_digest(b: &[u8]) -> (r: Vec<u8>)
    ensures
        r@ == sha1_of(b@),
        r@.len() == 20,
{
    <sha1::Sha1 as sha1::Digest>::digest(b).to_vec()
}

/// The info hash that identifies the transfer: the SHA-1 digest of the
/// canonical encoding of the metadata's `info` entry.
pub fn info_hash(values: &Value) -> (r: Result<Vec<u8>, MetaError>)
    ensures
        match values@ {
            Term::Dict(d) => match lookup(d, key_of(MetaField::Info)) {
                Some(t) => (r matches Ok(h) && h@ == sha1_of(encode_term(t)) && h@.len() == 20),
                None => r == Err::<Vec<u8>, MetaError>(MetaError::Missing(MetaField::Info)),
            },
            _ => r == Err::<Vec<u8>, MetaError>(MetaError::NotADictionary),
        },
{
    let bytes = info_encoding(values)?;
    Ok(sha1_digest(bytes.as_slice()))
}

} // verus!
