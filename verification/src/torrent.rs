//! A torrent: what its metainfo file says, and how far the download is.
use vstd::prelude::*;
use vstd::utf8::{valid_utf8, decode_utf8};
use vstd::slice::slice_to_vec;
use vstd::string::StringSliceAdditionalSpecFns;
use crate::bencode::object::{Object, Value, value_wf, lemma_lookup_wf, object_view, dict_view, dict_lookup, dict_get, list_view, lemma_list_view, lemma_dict_view, bytes_equal};
use crate::bencode::encode::{encode_object, encode_value};
use crate::hash::{sha1, sha1_digest};
use crate::text::{url_parse, parse_url, string_from_utf8};
use crate::tracker::{Tracker, AnnounceResponse, ResponseError, answer_effect};
use crate::peer::{Peer, PeerAddr, BitField, compact_addrs};

verus! {

pub const BLOCK_SIZE: u32 = 16384;

/// The metainfo keys that a torrent reads.
#[derive(Debug, Clone, Copy, PartialEq, Eq, Structural)]
pub enum Field {
    Announce,
    AnnounceList,
    Comment,
    CreatedBy,
    CreationDate,
    Info,
    Name,
    Length,
    PieceLength,
    Pieces,
}

impl Field {
    pub open spec fn spec_key(self) -> Seq<u8> {
        match self {
            Field::Announce => "announce".spec_bytes(),
            Field::AnnounceList => "announce-list".spec_bytes(),
            Field::Comment => "comment".spec_bytes(),
            Field::CreatedBy => "created by".spec_bytes(),
            Field::CreationDate => "creation date".spec_bytes(),
            Field::Info => "info".spec_bytes(),
            Field::Name => "name".spec_bytes(),
            Field::Length => "length".spec_bytes(),
            Field::PieceLength => "piece length".spec_bytes(),
            Field::Pieces => "pieces".spec_bytes(),
        }
    }

    /// The key's bytes in the metainfo dictionary.
    pub fn key(self) -> (r: &'static [u8])
        ensures
            r@ == self.spec_key(),
    {
        match self {
            Field::Announce => "announce".as_bytes(),
            Field::AnnounceList => "announce-list".as_bytes(),
            Field::Comment => "comment".as_bytes(),
            Field::CreatedBy => "created by".as_bytes(),
            Field::CreationDate => "creation date".as_bytes(),
            Field::Info => "info".as_bytes(),
            Field::Name => "name".as_bytes(),
            Field::Length => "length".as_bytes(),
            Field::PieceLength => "piece length".as_bytes(),
            Field::Pieces => "pieces".as_bytes(),
        }
    }
}

/// Why a metainfo value is not a torrent.
#[derive(Debug, Clone, Copy, PartialEq, Eq, Structural)]
pub enum TorrentError {
    /// The top-level value is not a dictionary.
    NotADictionary,
    MissingKey(Field),
    /// The key holds a value of another kind than the one expected.
    WrongType(Field),
    InvalidUtf8(Field),
    InvalidUrl(Field),
    /// A number that must not be negative is.
    OutOfRange(Field),
    /// The piece hashes do not split into 20-byte hashes.
    PiecesLength,
}

pub open spec fn lookup_str(d: Seq<(Seq<u8>, Value)>, f: Field) -> Result<Seq<char>, TorrentError> {
    match dict_lookup(d, f.spec_key()) {
        None => Err(TorrentError::MissingKey(f)),
        Some(Value::ByteArray(b)) => if valid_utf8(b) {
            Ok(decode_utf8(b))
        } else {
            Err(TorrentError::InvalidUtf8(f))
        },
        Some(_) => Err(TorrentError::WrongType(f)),
    }
}

pub open spec fn lookup_u64(d: Seq<(Seq<u8>, Value)>, f: Field) -> Result<u64, TorrentError> {
    match dict_lookup(d, f.spec_key()) {
        None => Err(TorrentError::MissingKey(f)),
        Some(Value::Number(n)) => if 0 <= n <= u64::MAX {
            Ok(n as u64)
        } else {
            Err(TorrentError::OutOfRange(f))
        },
        Some(_) => Err(TorrentError::WrongType(f)),
    }
}

/// A number field reads as the very number stored under its key, however
/// large (a torrent may well hold more than 4 GiB); only a negative number is
/// out of range.
pub proof fn law_number_field(d: Seq<(Seq<u8>, Value)>, f: Field, n: int)
    requires
        dict_lookup(d, f.spec_key()) == Some(Value::Number(n)),
        n <= u64::MAX,
    ensures
        0 <= n ==> lookup_u64(d, f) is Ok && lookup_u64(d, f)->Ok_0 == n,
        n < 0 ==> lookup_u64(d, f) == Err::<u64, TorrentError>(TorrentError::OutOfRange(f)),
{
}

pub open spec fn lookup_bytes(d: Seq<(Seq<u8>, Value)>, f: Field) -> Result<Seq<u8>, TorrentError> {
    match dict_lookup(d, f.spec_key()) {
        None => Err(TorrentError::MissingKey(f)),
        Some(Value::ByteArray(b)) => Ok(b),
        Some(_) => Err(TorrentError::WrongType(f)),
    }
}

pub open spec fn lookup_list(d: Seq<(Seq<u8>, Value)>, f: Field) -> Result<Seq<Value>, TorrentError> {
    match dict_lookup(d, f.spec_key()) {
        None => Err(TorrentError::MissingKey(f)),
        Some(Value::List(l)) => Ok(l),
        Some(_) => Err(TorrentError::WrongType(f)),
    }
}

pub open spec fn lookup_dict(d: Seq<(Seq<u8>, Value)>, f: Field) -> Result<
    Seq<(Seq<u8>, Value)>,
    TorrentError,
> {
    match dict_lookup(d, f.spec_key()) {
        None => Err(TorrentError::MissingKey(f)),
        Some(Value::Dictionary(e)) => Ok(e),
        Some(_) => Err(TorrentError::WrongType(f)),
    }
}

/// One tracker URL of the announce list.
pub open spec fn tracker_url(v: Value) -> Result<Seq<char>, TorrentError> {
    match v {
        Value::ByteArray(b) => if !valid_utf8(b) {
            Err(TorrentError::InvalidUtf8(Field::AnnounceList))
        } else {
            match url_parse(decode_utf8(b)) {
                Some(u) => Ok(u),
                None => Err(TorrentError::InvalidUrl(Field::AnnounceList)),
            }
        },
        _ => Err(TorrentError::WrongType(Field::AnnounceList)),
    }
}

/// The tracker URLs of a tier, or the error of the first item that has one.
pub open spec fn tier_urls(items: Seq<Value>) -> Result<Seq<Seq<char>>, TorrentError>
    decreases items.len(),
{
    if items.len() == 0 {
        Ok(Seq::empty())
    } else {
        match tier_urls(items.drop_last()) {
            Err(e) => Err(e),
            Ok(urls) => match tracker_url(items.last()) {
                Err(e) => Err(e),
                Ok(u) => Ok(urls.push(u)),
            },
        }
    }
}

pub open spec fn tier(v: Value) -> Result<Seq<Seq<char>>, TorrentError> {
    match v {
        Value::List(items) => tier_urls(items),
        _ => Err(TorrentError::WrongType(Field::AnnounceList)),
    }
}

/// The tiers of the announce list, or the error of the first one that has one.
pub open spec fn tiers_urls(tiers: Seq<Value>) -> Result<Seq<Seq<Seq<char>>>, TorrentError>
    decreases tiers.len(),
{
    if tiers.len() == 0 {
        Ok(Seq::empty())
    } else {
        match tiers_urls(tiers.drop_last()) {
            Err(e) => Err(e),
            Ok(ts) => match tier(tiers.last()) {
                Err(e) => Err(e),
                Ok(t) => Ok(ts.push(t)),
            },
        }
    }
}

/// Consecutive 20-byte pieces of `data`.
pub open spec fn chunks20(data: Seq<u8>) -> Seq<Seq<u8>> {
    Seq::new(data.len() / 20, |i: int| data.subrange(20 * i, 20 * i + 20))
}

/// What a metainfo file says.
#[verifier::ext_equal]
pub struct MetaInfo {
    pub announce: Seq<char>,
    pub announce_list: Seq<Seq<Seq<char>>>,
    pub comment: Seq<char>,
    pub created_by: Seq<char>,
    pub creation_date: u64,
    pub name: Seq<char>,
    pub length: u64,
    pub piece_length: u64,
    pub pieces: Seq<Seq<u8>>,
    pub info_hash: Seq<u8>,
}

/// The fields of the info dictionary.
pub open spec fn parse_info(info: Seq<(Seq<u8>, Value)>) -> Result<
    (Seq<char>, u64, u64, Seq<Seq<u8>>),
    TorrentError,
> {
    match lookup_str(info, Field::Name) {
        Err(e) => Err(e),
        Ok(name) => match lookup_u64(info, Field::Length) {
            Err(e) => Err(e),
            Ok(length) => match lookup_u64(info, Field::PieceLength) {
                Err(e) => Err(e),
                Ok(piece_length) => match lookup_bytes(info, Field::Pieces) {
                    Err(e) => Err(e),
                    Ok(p) => if p.len() % 20 != 0 {
                        Err(TorrentError::PiecesLength)
                    } else {
                        Ok((name, length, piece_length, chunks20(p)))
                    },
                },
            },
        },
    }
}

/// The length and piece length that an info dictionary gives are the numbers
/// stored under their keys, and the only number an info dictionary is refused
/// for is a negative one.
pub proof fn law_info_numbers(info: Seq<(Seq<u8>, Value)>)
    ensures
        parse_info(info) is Ok ==> dict_lookup(info, Field::Length.spec_key()) == Some(
            Value::Number(parse_info(info)->Ok_0.1 as int),
        ) && dict_lookup(info, Field::PieceLength.spec_key()) == Some(
            Value::Number(parse_info(info)->Ok_0.2 as int),
        ),
        parse_info(info) == Err::<(Seq<char>, u64, u64, Seq<Seq<u8>>), TorrentError>(
            TorrentError::OutOfRange(Field::Length),
        ) ==> (dict_lookup(info, Field::Length.spec_key()) matches Some(Value::Number(n)) && (n < 0
            || n > u64::MAX)),
        parse_info(info) == Err::<(Seq<char>, u64, u64, Seq<Seq<u8>>), TorrentError>(
            TorrentError::OutOfRange(Field::PieceLength),
        ) ==> (dict_lookup(info, Field::PieceLength.spec_key()) matches Some(Value::Number(n))
            && (n < 0 || n > u64::MAX)),
{
}

/// What a metainfo value says, checked in the order the reader checks it:
/// announce URL, announce list, comment, creator, creation date, then the
/// info dictionary. The info hash is the SHA-1 of the bencode of the info value.
pub open spec fn parse_metainfo(v: Value) -> Result<MetaInfo, TorrentError> {
    match v {
        Value::Dictionary(d) => match lookup_str(d, Field::Announce) {
            Err(e) => Err(e),
            Ok(a) => match url_parse(a) {
                None => Err(TorrentError::InvalidUrl(Field::Announce)),
                Some(announce) => match lookup_list(d, Field::AnnounceList) {
                    Err(e) => Err(e),
                    Ok(tiers) => match tiers_urls(tiers) {
                        Err(e) => Err(e),
                        Ok(announce_list) => match lookup_str(d, Field::Comment) {
                            Err(e) => Err(e),
                            Ok(comment) => match lookup_str(d, Field::CreatedBy) {
                                Err(e) => Err(e),
                                Ok(created_by) => match lookup_u64(d, Field::CreationDate) {
                                    Err(e) => Err(e),
                                    Ok(creation_date) => match lookup_dict(d, Field::Info) {
                                        Err(e) => Err(e),
                                        Ok(info) => match parse_info(info) {
                                            Err(e) => Err(e),
                                            Ok((name, length, piece_length, pieces)) => Ok(
                                                MetaInfo {
                                                    announce,
                                                    announce_list,
                                                    comment,
                                                    created_by,
                                                    creation_date,
                                                    name,
                                                    length,
                                                    piece_length,
                                                    pieces,
                                                    info_hash: sha1_digest(
                                                        encode_value(
                                                            dict_lookup(d, Field::Info.spec_key())->Some_0,
                                                        ),
                                                    ),
                                                },
                                            ),
                                        },
                                    },
                                },
                            },
                        },
                    },
                },
            },
        },
        _ => Err(TorrentError::NotADictionary),
    }
}

pub struct Torrent {
    tracker: Tracker,
    announce_list: Vec<Vec<Tracker>>,
    comment: String,
    created_by: String,
    creation_date: u64,
    name: String,
    length: u64,
    piece_length: u64,
    pieces: Vec<[u8; 20]>,
    info_hash: [u8; 20],
    downloaded: u64,
    left: u64,
    uploaded: u64,
    peers: Vec<Peer>,
    have: Vec<bool>,
}

pub open spec fn tracker_urls(ts: Seq<Tracker>) -> Seq<Seq<char>> {
    Seq::new(ts.len(), |j: int| ts[j].spec_url())
}

pub open spec fn peer_addrs(ps: Seq<Peer>) -> Seq<PeerAddr> {
    Seq::new(ps.len(), |i: int| ps[i].spec_addr())
}

/// The addresses after adding `new` one by one, each only where it is not
/// there yet.
pub open spec fn add_new_addrs(existing: Seq<PeerAddr>, new: Seq<PeerAddr>) -> Seq<PeerAddr>
    decreases new.len(),
{
    if new.len() == 0 {
        existing
    } else {
        let before = add_new_addrs(existing, new.drop_last());
        if before.contains(new.last()) {
            before
        } else {
            before.push(new.last())
        }
    }
}

/// The first piece that the peer has and we do not.
pub open spec fn wanted(have: Seq<bool>, bitfield: BitField, i: int) -> bool {
    bitfield.has(i) && !have[i]
}

/// Why a downloaded piece was not stored.
#[derive(Debug, Clone, Copy, PartialEq, Eq, Structural)]
pub enum StoreError {
    /// The data does not have the SHA-1 that the metainfo gives for the piece.
    HashMismatch(usize),
}

fn extract<'a>(dict: &'a Vec<(Vec<u8>, Object)>, field: Field) -> (r: Result<&'a Object, TorrentError>)
    ensures
        match dict_lookup(dict_view(dict@), field.spec_key()) {
            Some(v) => r matches Ok(o) && object_view(*o) == v,
            None => r == Err::<&Object, TorrentError>(TorrentError::MissingKey(field)),
        },
{
    match dict_get(dict, field.key()) {
        Some(o) => Ok(o),
        None => Err(TorrentError::MissingKey(field)),
    }
}

fn extract_str(dict: &Vec<(Vec<u8>, Object)>, field: Field) -> (r: Result<String, TorrentError>)
    ensures
        match lookup_str(dict_view(dict@), field) {
            Ok(s) => r matches Ok(t) && t@ == s,
            Err(e) => r == Err::<String, TorrentError>(e),
        },
{
    match extract(dict, field)? {
        Object::ByteArray(b) => match string_from_utf8(slice_to_vec(b.as_slice())) {
            Some(s) => Ok(s),
            None => Err(TorrentError::InvalidUtf8(field)),
        },
        _ => Err(TorrentError::WrongType(field)),
    }
}

fn extract_u64(dict: &Vec<(Vec<u8>, Object)>, field: Field) -> (r: Result<u64, TorrentError>)
    ensures
        r == lookup_u64(dict_view(dict@), field),
{
    match extract(dict, field)? {
        Object::Number(n) => if *n >= 0 {
            Ok(*n as u64)
        } else {
            Err(TorrentError::OutOfRange(field))
        },
        _ => Err(TorrentError::WrongType(field)),
    }
}

fn extract_byte_array<'a>(dict: &'a Vec<(Vec<u8>, Object)>, field: Field) -> (r: Result<
    &'a Vec<u8>,
    TorrentError,
>)
    ensures
        match lookup_bytes(dict_view(dict@), field) {
            Ok(b) => r matches Ok(v) && v@ == b,
            Err(e) => r == Err::<&Vec<u8>, TorrentError>(e),
        },
{
    match extract(dict, field)? {
        Object::ByteArray(b) => Ok(b),
        _ => Err(TorrentError::WrongType(field)),
    }
}

fn extract_list<'a>(dict: &'a Vec<(Vec<u8>, Object)>, field: Field) -> (r: Result<
    &'a Vec<Object>,
    TorrentError,
>)
    ensures
        match lookup_list(dict_view(dict@), field) {
            Ok(l) => r matches Ok(v) && list_view(v@) == l,
            Err(e) => r == Err::<&Vec<Object>, TorrentError>(e),
        },
{
    match extract(dict, field)? {
        Object::List(l) => {
            proof {
                lemma_list_view(*l);
            }
            Ok(l)
        },
        _ => Err(TorrentError::WrongType(field)),
    }
}

fn extract_dict<'a>(dict: &'a Vec<(Vec<u8>, Object)>, field: Field) -> (r: Result<
    &'a Vec<(Vec<u8>, Object)>,
    TorrentError,
>)
    ensures
        match lookup_dict(dict_view(dict@), field) {
            Ok(d) => r matches Ok(v) && dict_view(v@) == d,
            Err(e) => r == Err::<&Vec<(Vec<u8>, Object)>, TorrentError>(e),
        },
{
    match extract(dict, field)? {
        Object::Dictionary(d) => {
            proof {
                lemma_dict_view(*d);
            }
            Ok(d)
        },
        _ => Err(TorrentError::WrongType(field)),
    }
}

pub open spec fn tiers_view(v: Seq<Vec<Tracker>>) -> Seq<Seq<Seq<char>>> {
    Seq::new(v.len(), |i: int| tracker_urls(v[i]@))
}

proof fn lemma_tier_urls_err(items: Seq<Value>, k: int)
    requires
        0 <= k <= items.len(),
        tier_urls(items.take(k)) is Err,
    ensures
        tier_urls(items) == tier_urls(items.take(k)),
    decreases items.len() - k,
{
    if k < items.len() {
        assert(items.take(k + 1).drop_last() =~= items.take(k));
        lemma_tier_urls_err(items, k + 1);
    } else {
        assert(items.take(k) =~= items);
    }
}

proof fn lemma_tiers_urls_err(tiers: Seq<Value>, k: int)
    requires
        0 <= k <= tiers.len(),
        tiers_urls(tiers.take(k)) is Err,
    ensures
        tiers_urls(tiers) == tiers_urls(tiers.take(k)),
    decreases tiers.len() - k,
{
    if k < tiers.len() {
        assert(tiers.take(k + 1).drop_last() =~= tiers.take(k));
        lemma_tiers_urls_err(tiers, k + 1);
    } else {
        assert(tiers.take(k) =~= tiers);
    }
}

/// A tracker for one item of the announce list.
fn tracker_from(item: &Object) -> (r: Result<Tracker, TorrentError>)
    ensures
        match tracker_url(object_view(*item)) {
            Ok(u) => r matches Ok(t) && t.spec_url() == u && t.spec_interval() == 0
                && t.spec_peers().len() == 0,
            Err(e) => r == Err::<Tracker, TorrentError>(e),
        },
{
    match item {
        Object::ByteArray(b) => match string_from_utf8(slice_to_vec(b.as_slice())) {
            None => Err(TorrentError::InvalidUtf8(Field::AnnounceList)),
            Some(text) => match parse_url(text.as_str()) {
                Ok(url) => Ok(Tracker::new(url)),
                Err(_) => Err(TorrentError::InvalidUrl(Field::AnnounceList)),
            },
        },
        _ => Err(TorrentError::WrongType(Field::AnnounceList)),
    }
}

fn tier_trackers(items: &Vec<Object>) -> (r: Result<Vec<Tracker>, TorrentError>)
    ensures
        match tier_urls(list_view(items@)) {
            Ok(urls) => r matches Ok(ts) && tracker_urls(ts@) == urls && forall|j: int|
                0 <= j < ts@.len() ==> (#[trigger] ts@[j]).spec_interval() == 0
                    && ts@[j].spec_peers().len() == 0,
            Err(e) => r == Err::<Vec<Tracker>, TorrentError>(e),
        },
{
    let ghost all = list_view(items@);
    let mut trackers: Vec<Tracker> = Vec::new();
    let mut i: usize = 0;
    assert(all.take(0) =~= Seq::<Value>::empty());
    assert(tracker_urls(trackers@) =~= Seq::<Seq<char>>::empty());
    while i < items.len()
        invariant
            0 <= i <= items.len(),
            all == list_view(items@),
            tier_urls(all.take(i as int)) == Ok::<Seq<Seq<char>>, TorrentError>(
                tracker_urls(trackers@),
            ),
            forall|j: int|
                0 <= j < trackers@.len() ==> (#[trigger] trackers@[j]).spec_interval() == 0
                    && trackers@[j].spec_peers().len() == 0,
        decreases items.len() - i,
    {
        assert(all.take(i + 1).drop_last() =~= all.take(i as int));
        assert(all.take(i + 1).last() == object_view(items@[i as int]));
        match tracker_from(&items[i]) {
            Err(e) => {
                proof {
                    lemma_tier_urls_err(all, i + 1);
                }
                return Err(e);
            },
            Ok(t) => {
                let ghost before = trackers@;
                trackers.push(t);
                assert(tracker_urls(trackers@) =~= tracker_urls(before).push(t.spec_url()));
            },
        }
        i = i + 1;
    }
    assert(all.take(items.len() as int) =~= all);
    Ok(trackers)
}

fn extract_announce_list(dict: &Vec<(Vec<u8>, Object)>) -> (r: Result<
    Vec<Vec<Tracker>>,
    TorrentError,
>)
    ensures
        match lookup_list(dict_view(dict@), Field::AnnounceList) {
            Ok(tiers) => match tiers_urls(tiers) {
                Ok(ts) => r matches Ok(v) && tiers_view(v@) == ts,
                Err(e) => r == Err::<Vec<Vec<Tracker>>, TorrentError>(e),
            },
            Err(e) => r == Err::<Vec<Vec<Tracker>>, TorrentError>(e),
        },
{
    let tiers = extract_list(dict, Field::AnnounceList)?;
    let ghost all = list_view(tiers@);
    let mut announce_list: Vec<Vec<Tracker>> = Vec::new();
    let mut i: usize = 0;
    assert(all.take(0) =~= Seq::<Value>::empty());
    assert(tiers_view(announce_list@) =~= Seq::<Seq<Seq<char>>>::empty());
    while i < tiers.len()
        invariant
            0 <= i <= tiers.len(),
            all == list_view(tiers@),
            lookup_list(dict_view(dict@), Field::AnnounceList) == Ok::<Seq<Value>, TorrentError>(
                all,
            ),
            tiers_urls(all.take(i as int)) == Ok::<Seq<Seq<Seq<char>>>, TorrentError>(
                tiers_view(announce_list@),
            ),
        decreases tiers.len() - i,
    {
        assert(all.take(i + 1).drop_last() =~= all.take(i as int));
        assert(all.take(i + 1).last() == object_view(tiers@[i as int]));
        let list = match &tiers[i] {
            Object::List(l) => {
                proof {
                    lemma_list_view(*l);
                }
                l
            },
            _ => {
                proof {
                    lemma_tiers_urls_err(all, i + 1);
                }
                return Err(TorrentError::WrongType(Field::AnnounceList));
            },
        };
        match tier_trackers(list) {
            Err(e) => {
                proof {
                    lemma_tiers_urls_err(all, i + 1);
                }
                return Err(e);
            },
            Ok(trackers) => {
                let ghost before = announce_list@;
                announce_list.push(trackers);
                assert(tiers_view(announce_list@) =~= tiers_view(before).push(
                    tracker_urls(trackers@),
                ));
            },
        }
        i = i + 1;
    }
    assert(all.take(tiers.len() as int) =~= all);
    Ok(announce_list)
}

/// Splits the piece hashes into 20-byte hashes.
pub fn chunk_array(data: &[u8]) -> (r: Result<Vec<[u8; 20]>, TorrentError>)
    ensures
        data@.len() % 20 != 0 ==> r == Err::<Vec<[u8; 20]>, TorrentError>(
            TorrentError::PiecesLength,
        ),
        data@.len() % 20 == 0 ==> (r matches Ok(v) && Seq::new(v@.len(), |i: int| v@[i]@)
            == chunks20(data@)),
{
    if data.len() % 20 != 0 {
        return Err(TorrentError::PiecesLength);
    }
    let n = data.len() / 20;
    let mut result: Vec<[u8; 20]> = Vec::new();
    let mut i: usize = 0;
    while i < n
        invariant
            n == data.len() / 20,
            data.len() % 20 == 0,
            0 <= i <= n,
            result@.len() == i,
            forall|k: int| 0 <= k < i ==> (#[trigger] result@[k])@ == data@.subrange(20 * k, 20 * k + 20),
        decreases n - i,
    {
        let mut arr = [0u8; 20];
        let mut j: usize = 0;
        assert(20 * i + 20 <= data.len()) by (nonlinear_arith)
            requires
                i < n,
                n == data.len() / 20,
        ;
        while j < 20
            invariant
                0 <= j <= 20,
                20 * i + 20 <= data.len(),
                forall|k: int| 0 <= k < j ==> arr@[k] == data@[20 * i + k],
            decreases 20 - j,
        {
            arr[j] = data[20 * i + j];
            j = j + 1;
        }
        assert(arr@ =~= data@.subrange(20 * i as int, 20 * i + 20));
        result.push(arr);
        i = i + 1;
    }
    assert(Seq::new(result@.len(), |k: int| result@[k]@) =~= chunks20(data@));
    Ok(result)
}

fn extract_pieces(info_dict: &Vec<(Vec<u8>, Object)>) -> (r: Result<Vec<[u8; 20]>, TorrentError>)
    ensures
        match lookup_bytes(dict_view(info_dict@), Field::Pieces) {
            Ok(b) => if b.len() % 20 != 0 {
                r == Err::<Vec<[u8; 20]>, TorrentError>(TorrentError::PiecesLength)
            } else {
                r matches Ok(v) && Seq::new(v@.len(), |i: int| v@[i]@) == chunks20(b)
            },
            Err(e) => r == Err::<Vec<[u8; 20]>, TorrentError>(e),
        },
{
    let arr = extract_byte_array(info_dict, Field::Pieces)?;
    chunk_array(arr.as_slice())
}

/// The SHA-1 of the bencode of the info value.
fn compute_info_hash(dict: &Vec<(Vec<u8>, Object)>) -> (r: Result<[u8; 20], TorrentError>)
    requires
        value_wf(Value::Dictionary(dict_view(dict@))),
    ensures
        match dict_lookup(dict_view(dict@), Field::Info.spec_key()) {
            Some(v) => r matches Ok(h) && h@ == sha1_digest(encode_value(v)),
            None => r == Err::<[u8; 20], TorrentError>(TorrentError::MissingKey(Field::Info)),
        },
{
    let info = extract(dict, Field::Info)?;
    proof {
        lemma_lookup_wf(dict_view(dict@), Field::Info.spec_key(), 0);
    }
    let bytes = encode_object(info);
    Ok(sha1(bytes.as_slice()))
}

fn has_peer(peers: &Vec<Peer>, addr: PeerAddr) -> (r: bool)
    ensures
        r == peer_addrs(peers@).contains(addr),
{
    let mut i: usize = 0;
    while i < peers.len()
        invariant
            0 <= i <= peers.len(),
            forall|k: int| 0 <= k < i ==> peers@[k].spec_addr() != addr,
        decreases peers.len() - i,
    {
        if peers[i].addr() == addr {
            assert(peer_addrs(peers@)[i as int] == addr);
            return true;
        }
        i = i + 1;
    }
    proof {
        if peer_addrs(peers@).contains(addr) {
            let k = choose|k: int| 0 <= k < peer_addrs(peers@).len() && peer_addrs(peers@)[k] == addr;
            assert(peers@[k].spec_addr() == addr);
        }
    }
    false
}

impl Torrent {
    pub closed spec fn meta(&self) -> MetaInfo {
        MetaInfo {
            announce: self.tracker.spec_url(),
            announce_list: tiers_view(self.announce_list@),
            comment: self.comment@,
            created_by: self.created_by@,
            creation_date: self.creation_date,
            name: self.name@,
            length: self.length,
            piece_length: self.piece_length,
            pieces: Seq::new(self.pieces@.len(), |i: int| self.pieces@[i]@),
            info_hash: self.info_hash@,
        }
    }

    pub closed spec fn spec_downloaded(&self) -> u64 {
        self.downloaded
    }

    pub closed spec fn spec_left(&self) -> u64 {
        self.left
    }

    pub closed spec fn spec_uploaded(&self) -> u64 {
        self.uploaded
    }

    pub closed spec fn spec_peers(&self) -> Seq<Peer> {
        self.peers@
    }

    pub closed spec fn spec_have(&self) -> Seq<bool> {
        self.have@
    }

    /// One flag per piece.
    /// The tracker that the metainfo names as the announce URL.
    pub closed spec fn spec_tracker(&self) -> Tracker {
        self.tracker
    }

    pub closed spec fn wf(&self) -> bool {
        self.have@.len() == self.pieces@.len()
    }

    /// A well-formed torrent has one flag for each piece of its metainfo.
    pub proof fn lemma_wf(&self)
        ensures
            self.wf() <==> self.spec_have().len() == self.meta().pieces.len(),
    {
    }

    /// The torrent that a metainfo value describes, nothing downloaded yet:
    /// everything is left, no peers are known, no piece is had. The value's
    /// dictionaries are in key order, as every value that is read is.
    pub fn try_from(object: Object) -> (r: Result<Torrent, TorrentError>)
        requires
            value_wf(object_view(object)),
        ensures
            match parse_metainfo(object_view(object)) {
                Ok(m) => r matches Ok(t) && {
                    &&& t.meta() == m
                    &&& t.wf()
                    &&& t.spec_downloaded() == 0
                    &&& t.spec_left() == m.length
                    &&& t.spec_uploaded() == 0
                    &&& t.spec_peers().len() == 0
                    &&& t.spec_have() == Seq::new(m.pieces.len(), |i: int| false)
                },
                Err(e) => r matches Err(e2) && e2 == e,
            },
    {
        let dict = match &object {
            Object::Dictionary(d) => d,
            _ => {
                return Err(TorrentError::NotADictionary);
            },
        };
        proof {
            lemma_dict_view(*dict);
        }
        let announce_text = extract_str(dict, Field::Announce)?;
        let announce_url = match parse_url(announce_text.as_str()) {
            Ok(u) => u,
            Err(_) => {
                return Err(TorrentError::InvalidUrl(Field::Announce));
            },
        };
        let announce = Tracker::new(announce_url);
        let announce_list = extract_announce_list(dict)?;
        let comment = extract_str(dict, Field::Comment)?;
        let created_by = extract_str(dict, Field::CreatedBy)?;
        let creation_date = extract_u64(dict, Field::CreationDate)?;
        let info_obj = extract_dict(dict, Field::Info)?;
        let name = extract_str(info_obj, Field::Name)?;
        let length = extract_u64(info_obj, Field::Length)?;
        let piece_length = extract_u64(info_obj, Field::PieceLength)?;
        let pieces = extract_pieces(info_obj)?;
        let info_hash = compute_info_hash(dict)?;
        let mut have: Vec<bool> = Vec::new();
        let mut i: usize = 0;
        while i < pieces.len()
            invariant
                0 <= i <= pieces.len(),
                have@ == Seq::new(i as nat, |k: int| false),
            decreases pieces.len() - i,
        {
            have.push(false);
            i = i + 1;
            assert(have@ =~= Seq::new(i as nat, |k: int| false));
        }
        let t = Torrent {
            tracker: announce,
            announce_list,
            comment,
            created_by,
            creation_date,
            name,
            length,
            piece_length,
            pieces,
            info_hash,
            downloaded: 0,
            left: length,
            uploaded: 0,
            peers: Vec::new(),
            have,
        };
        assert(t.meta() =~= parse_metainfo(object_view(object))->Ok_0);
        Ok(t)
    }

    pub fn announce(&self) -> (r: &Tracker)
        ensures
            r.spec_url() == self.meta().announce,
    {
        &self.tracker
    }

    pub fn announce_list(&self) -> (r: &Vec<Vec<Tracker>>)
        ensures
            tiers_view(r@) == self.meta().announce_list,
    {
        &self.announce_list
    }

    pub fn comment(&self) -> (r: &str)
        ensures
            r@ == self.meta().comment,
    {
        self.comment.as_str()
    }

    pub fn created_by(&self) -> (r: &str)
        ensures
            r@ == self.meta().created_by,
    {
        self.created_by.as_str()
    }

    pub fn creation_date(&self) -> (r: u64)
        ensures
            r == self.meta().creation_date,
    {
        self.creation_date
    }

    pub fn name(&self) -> (r: &str)
        ensures
            r@ == self.meta().name,
    {
        self.name.as_str()
    }

    pub fn length(&self) -> (r: u64)
        ensures
            r == self.meta().length,
    {
        self.length
    }

    pub fn piece_length(&self) -> (r: u64)
        ensures
            r == self.meta().piece_length,
    {
        self.piece_length
    }

    pub fn pieces(&self) -> (r: &[[u8; 20]])
        ensures
            Seq::new(r@.len(), |i: int| r@[i]@) == self.meta().pieces,
    {
        let r = self.pieces.as_slice();
        assert(Seq::new(r@.len(), |i: int| r@[i]@) =~= self.meta().pieces);
        r
    }

    pub fn info_hash(&self) -> (r: &[u8; 20])
        ensures
            r@ == self.meta().info_hash,
    {
        &self.info_hash
    }

    pub fn downloaded(&self) -> (r: u64)
        ensures
            r == self.spec_downloaded(),
    {
        self.downloaded
    }

    pub fn left(&self) -> (r: u64)
        ensures
            r == self.spec_left(),
    {
        self.left
    }

    pub fn uploaded(&self) -> (r: u64)
        ensures
            r == self.spec_uploaded(),
    {
        self.uploaded
    }

    /// Whether piece `index` is verified and stored.
    pub fn has_piece(&self, index: usize) -> (r: bool)
        requires
            self.wf(),
            index < self.meta().pieces.len(),
        ensures
            r == self.spec_have()[index as int],
    {
        self.have[index]
    }

    /// Takes in the announce tracker's answer: the tracker reads it as
    /// `Tracker::apply_answer` does, and a fresh peer is added for each address
    /// of its peer list that no known peer has. `None`, with nothing changed,
    /// where the answer is not a dictionary.
    pub fn apply_tracker_answer(&mut self, answer: &Object) -> (r: Option<
        Result<AnnounceResponse, ResponseError>,
    >)
        requires
            old(self).wf(),
        ensures
            final(self).wf(),
            final(self).meta() == old(self).meta(),
            final(self).spec_have() == old(self).spec_have(),
            final(self).spec_downloaded() == old(self).spec_downloaded(),
            final(self).spec_left() == old(self).spec_left(),
            final(self).spec_uploaded() == old(self).spec_uploaded(),
            match *answer {
                Object::Dictionary(d) => r matches Some(res) && answer_effect(
                    old(self).spec_tracker(),
                    final(self).spec_tracker(),
                    dict_view(d@),
                    res,
                ) && match res {
                    Ok(a) => peer_addrs(final(self).spec_peers()) == add_new_addrs(
                        peer_addrs(old(self).spec_peers()),
                        compact_addrs(a.peers@),
                    ) && final(self).spec_peers().subrange(0, old(self).spec_peers().len() as int)
                        == old(self).spec_peers(),
                    Err(_) => final(self).spec_peers() == old(self).spec_peers(),
                },
                _ => r is None && *final(self) == *old(self),
            },
    {
        let r = self.tracker.apply_answer(answer);
        match &r {
            Some(Ok(a)) => {
                let addrs = Peer::new_from_bytes(a.peers.as_slice());
                self.add_peers(addrs);
            },
            _ => {},
        }
        r
    }

    /// Adds a fresh peer for each address that no known peer has.
    pub fn add_peers(&mut self, addrs: Vec<PeerAddr>)
        ensures
            peer_addrs(final(self).spec_peers()) == add_new_addrs(
                peer_addrs(old(self).spec_peers()),
                addrs@,
            ),
            final(self).spec_peers().subrange(0, old(self).spec_peers().len() as int) == old(
                self,
            ).spec_peers(),
            forall|i: int|
                old(self).spec_peers().len() <= i < final(self).spec_peers().len() ==> {
                    &&& (#[trigger] final(self).spec_peers()[i]).spec_bitfield() is None
                    &&& final(self).spec_peers()[i].spec_chocked()
                    &&& !final(self).spec_peers()[i].spec_interested()
                    &&& final(self).spec_peers()[i].spec_peer_id() == Seq::new(20, |k: int| 0u8)
                },
            final(self).meta() == old(self).meta(),
            final(self).spec_tracker() == old(self).spec_tracker(),
            final(self).spec_have() == old(self).spec_have(),
            final(self).spec_downloaded() == old(self).spec_downloaded(),
            final(self).spec_left() == old(self).spec_left(),
            final(self).spec_uploaded() == old(self).spec_uploaded(),
            old(self).wf() ==> final(self).wf(),
    {
        let ghost start = self.peers@;
        let mut i: usize = 0;
        assert(addrs@.take(0) =~= Seq::<PeerAddr>::empty());
        while i < addrs.len()
            invariant
                0 <= i <= addrs.len(),
                self.peers@.len() >= start.len(),
                self.peers@.subrange(0, start.len() as int) == start,
                peer_addrs(self.peers@) == add_new_addrs(peer_addrs(start), addrs@.take(i as int)),
                forall|k: int|
                    start.len() <= k < self.peers@.len() ==> {
                        &&& (#[trigger] self.peers@[k]).spec_bitfield() is None
                        &&& self.peers@[k].spec_chocked()
                        &&& !self.peers@[k].spec_interested()
                        &&& self.peers@[k].spec_peer_id() == Seq::new(20, |j: int| 0u8)
                    },
                self.meta() == old(self).meta(),
                self.tracker == old(self).tracker,
                self.pieces@ == old(self).pieces@,
                self.have@ == old(self).have@,
                self.downloaded == old(self).downloaded,
                self.left == old(self).left,
                self.uploaded == old(self).uploaded,
                start == old(self).peers@,
            decreases addrs.len() - i,
        {
            let addr = addrs[i];
            assert(addrs@.take(i + 1).drop_last() =~= addrs@.take(i as int));
            if !has_peer(&self.peers, addr) {
                let ghost before = self.peers@;
                self.peers.push(Peer::new(addr));
                assert(peer_addrs(self.peers@) =~= peer_addrs(before).push(addr));
                assert(self.peers@.subrange(0, start.len() as int) =~= before.subrange(
                    0,
                    start.len() as int,
                ));
            }
            i = i + 1;
        }
        assert(addrs@.take(addrs.len() as int) =~= addrs@);
    }

    /// Hands over the known peers, leaving none.
    pub fn take_peers(&mut self) -> (r: Vec<Peer>)
        ensures
            r@ == old(self).spec_peers(),
            final(self).spec_peers().len() == 0,
            final(self).meta() == old(self).meta(),
            final(self).spec_have() == old(self).spec_have(),
            final(self).spec_downloaded() == old(self).spec_downloaded(),
            final(self).spec_left() == old(self).spec_left(),
            final(self).spec_uploaded() == old(self).spec_uploaded(),
    {
        let mut peers = Vec::new();
        std::mem::swap(&mut peers, &mut self.peers);
        peers
    }

    /// The first piece that the peer has and we have not stored.
    pub fn pick_piece(&self, bitfield: &BitField) -> (r: Option<usize>)
        requires
            self.wf(),
            forall|i: int|
                0 <= i < self.spec_have().len() && (forall|j: int|
                    0 <= j < i ==> !#[trigger] wanted(self.spec_have(), *bitfield, j))
                    ==> bitfield.readable(i),
        ensures
            match r {
                Some(i) => {
                    &&& i < self.spec_have().len()
                    &&& wanted(self.spec_have(), *bitfield, i as int)
                    &&& forall|j: int| 0 <= j < i ==> !wanted(self.spec_have(), *bitfield, j)
                },
                None => forall|j: int|
                    0 <= j < self.spec_have().len() ==> !wanted(self.spec_have(), *bitfield, j),
            },
    {
        let mut i: usize = 0;
        while i < self.pieces.len()
            invariant
                0 <= i <= self.pieces.len(),
                self.wf(),
                forall|j: int| 0 <= j < i ==> !#[trigger] wanted(self.have@, *bitfield, j),
                forall|k: int|
                    0 <= k < self.have@.len() && (forall|j: int|
                        0 <= j < k ==> !#[trigger] wanted(self.have@, *bitfield, j))
                        ==> bitfield.readable(k),
            decreases self.pieces.len() - i,
        {
            if bitfield.has_piece(i) && !self.have[i] {
                return Some(i);
            }
            i = i + 1;
        }
        None
    }

    /// Stores a downloaded piece when its SHA-1 is the one the metainfo gives:
    /// marks it had, counts its bytes as downloaded and no longer left.
    pub fn verify_and_store(&mut self, piece_idx: usize, data: &[u8]) -> (r: Result<(), StoreError>)
        requires
            old(self).wf(),
            piece_idx < old(self).meta().pieces.len(),
            sha1_digest(data@) == old(self).meta().pieces[piece_idx as int]
                ==> old(self).spec_downloaded() + data@.len() <= u64::MAX,
        ensures
            final(self).wf(),
            store_effect(*old(self), *final(self), piece_idx as int, data@, r),
    {
        let piece_hash = sha1(data);
        let expected = &self.pieces[piece_idx];
        if !bytes_equal(piece_hash.as_slice(), expected.as_slice()) {
            return Err(StoreError::HashMismatch(piece_idx));
        }
        self.have.set(piece_idx, true);
        let len = data.len() as u64;
        self.downloaded = self.downloaded + len;
        self.left = if self.left >= len {
            self.left - len
        } else {
            0
        };
        Ok(())
    }

    /// Stores a downloaded piece as `verify_and_store` does, once the byte
    /// counter is known to take it: `None`, with nothing changed, where the
    /// piece matches and its bytes would carry the downloaded count past
    /// `u64::MAX`.
    pub fn try_verify_and_store(&mut self, piece_idx: usize, data: &[u8]) -> (r: Option<
        Result<(), StoreError>,
    >)
        requires
            old(self).wf(),
            piece_idx < old(self).meta().pieces.len(),
        ensures
            final(self).wf(),
            r is None <==> sha1_digest(data@) == old(self).meta().pieces[piece_idx as int]
                && old(self).spec_downloaded() + data@.len() > u64::MAX,
            r is None ==> *final(self) == *old(self),
            r matches Some(res) ==> store_effect(*old(self), *final(self), piece_idx as int, data@, res),
    {
        let digest = sha1(data);
        let len = data.len() as u64;
        if bytes_equal(digest.as_slice(), self.pieces[piece_idx].as_slice()) && self.downloaded
            > u64::MAX - len {
            return None;
        }
        Some(self.verify_and_store(piece_idx, data))
    }
}

/// What storing `data` as piece `piece_idx` does: a piece whose SHA-1 is the
/// expected one is marked had and its bytes move from left to downloaded
/// (left stops at zero); any other piece is refused with nothing changed.
pub open spec fn store_effect(
    before: Torrent,
    after: Torrent,
    piece_idx: int,
    data: Seq<u8>,
    r: Result<(), StoreError>,
) -> bool {
    &&& after.meta() == before.meta()
    &&& after.spec_peers() == before.spec_peers()
    &&& after.spec_uploaded() == before.spec_uploaded()
    &&& sha1_digest(data) == before.meta().pieces[piece_idx] ==> {
        &&& r is Ok
        &&& after.spec_have() == before.spec_have().update(piece_idx, true)
        &&& after.spec_downloaded() == before.spec_downloaded() + data.len()
        &&& after.spec_left() == if before.spec_left() >= data.len() {
            before.spec_left() - data.len()
        } else {
            0
        }
    }
    &&& sha1_digest(data) != before.meta().pieces[piece_idx] ==> {
        &&& r == Err::<(), StoreError>(StoreError::HashMismatch(piece_idx as usize))
        &&& after.spec_have() == before.spec_have()
        &&& after.spec_downloaded() == before.spec_downloaded()
        &&& after.spec_left() == before.spec_left()
    }
}

/// Adding addresses that are all known already changes nothing.
proof fn lemma_add_known_addrs(existing: Seq<PeerAddr>, new: Seq<PeerAddr>)
    requires
        forall|k: int| 0 <= k < new.len() ==> existing.contains(#[trigger] new[k]),
    ensures
        add_new_addrs(existing, new) == existing,
    decreases new.len(),
{
    if new.len() > 0 {
        assert forall|k: int| 0 <= k < new.drop_last().len() implies existing.contains(
            #[trigger] new.drop_last()[k],
        ) by {
            assert(new.drop_last()[k] == new[k]);
        }
        lemma_add_known_addrs(existing, new.drop_last());
        assert(existing.contains(new[new.len() - 1]));
    }
}

pub open spec fn no_repeats(s: Seq<PeerAddr>) -> bool {
    forall|i: int, j: int| 0 <= i < j < s.len() ==> s[i] != s[j]
}

proof fn lemma_add_new_addrs_contains(existing: Seq<PeerAddr>, new: Seq<PeerAddr>)
    ensures
        forall|k: int| 0 <= k < new.len() ==> add_new_addrs(existing, new).contains(#[trigger] new[k]),
    decreases new.len(),
{
    if new.len() > 0 {
        lemma_add_new_addrs_contains(existing, new.drop_last());
        let before = add_new_addrs(existing, new.drop_last());
        let after = add_new_addrs(existing, new);
        assert forall|k: int| 0 <= k < new.len() implies after.contains(#[trigger] new[k]) by {
            if k < new.len() - 1 {
                assert(new.drop_last()[k] == new[k]);
                assert(before.contains(new[k]));
                let m = choose|m: int| 0 <= m < before.len() && before[m] == new[k];
                assert(after[m] == new[k]);
            } else if !before.contains(new.last()) {
                assert(after[before.len() as int] == new.last());
            }
        }
    }
}

/// Adding peers never repeats an address: known peers stay first and in
/// order, every given address is known afterwards, no address appears twice
/// where none did before, and adding the same addresses again changes nothing.
pub proof fn law_add_new_addrs(existing: Seq<PeerAddr>, new: Seq<PeerAddr>)
    requires
        no_repeats(existing),
    ensures
        no_repeats(add_new_addrs(existing, new)),
        add_new_addrs(existing, new).len() >= existing.len(),
        add_new_addrs(existing, new).subrange(0, existing.len() as int) == existing,
        forall|k: int| 0 <= k < new.len() ==> add_new_addrs(existing, new).contains(#[trigger] new[k]),
        add_new_addrs(add_new_addrs(existing, new), new) == add_new_addrs(existing, new),
    decreases new.len(),
{
    lemma_add_new_addrs_contains(existing, new);
    lemma_add_known_addrs(add_new_addrs(existing, new), new);
    if new.len() > 0 {
        law_add_new_addrs(existing, new.drop_last());
        let before = add_new_addrs(existing, new.drop_last());
        let after = add_new_addrs(existing, new);
        assert forall|k: int| 0 <= k < new.len() implies after.contains(#[trigger] new[k]) by {
            if k < new.len() - 1 {
                assert(new.drop_last()[k] == new[k]);
                assert(before.contains(new[k]));
                let m = choose|m: int| 0 <= m < before.len() && before[m] == new[k];
                assert(after[m] == new[k]);
            } else if !before.contains(new.last()) {
                assert(after[before.len() as int] == new.last());
            }
        }
        if !before.contains(new.last()) {
            assert(after.subrange(0, existing.len() as int) =~= before.subrange(
                0,
                existing.len() as int,
            ));
            assert forall|i: int, j: int| 0 <= i < j < after.len() implies after[i] != after[j] by {
                if j == before.len() {
                    assert(after[i] == before[i]);
                }
            }
        }
    }
}

} // verus!
