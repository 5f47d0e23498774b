//! Trackers: where a torrent announces itself, and what they answer.
use vstd::prelude::*;
use vstd::utf8::{valid_utf8, encode_utf8};
use vstd::string::StringSliceAdditionalSpecFns;
use crate::peer::Peer;
use crate::bencode::object::{Object, Value, dict_view, dict_lookup, dict_get};
use crate::bencode::encode::append_bytes;
use crate::decimal::{
    nat_digits, render_u64, lemma_nat_digits_shape, is_digit, all_digits, digits_value,
    has_leading_zero,
};
use crate::text::{percent_encoded, url_encode_binary, string_from_utf8};

verus! {

/// A tracker: its URL, the announce interval it asked for, in seconds, and
/// the peers it gave.
#[derive(Debug)]
pub struct Tracker {
    url: String,
    interval: u64,
    peers: Vec<Peer>,
}

impl Tracker {
    pub closed spec fn spec_url(&self) -> Seq<char> {
        self.url@
    }

    pub closed spec fn spec_interval(&self) -> u64 {
        self.interval
    }

    pub closed spec fn spec_peers(&self) -> Seq<Peer> {
        self.peers@
    }

    /// A tracker at `url` that has not answered yet: no interval, no peers.
    pub fn new(url: String) -> (r: Self)
        ensures
            r.spec_url() == url@,
            r.spec_interval() == 0,
            r.spec_peers().len() == 0,
    {
        Self { url, interval: 0, peers: Vec::new() }
    }

    pub fn url(&self) -> (r: &str)
        ensures
            r@ == self.spec_url(),
    {
        self.url.as_str()
    }

    /// The announce interval, in seconds.
    pub fn interval(&self) -> (r: u64)
        ensures
            r == self.spec_interval(),
    {
        self.interval
    }

    pub fn set_interval(&mut self, interval: u64)
        ensures
            final(self).spec_interval() == interval,
            final(self).spec_url() == old(self).spec_url(),
            final(self).spec_peers() == old(self).spec_peers(),
    {
        self.interval = interval;
    }

    pub fn peers(&self) -> (r: &Vec<Peer>)
        ensures
            r@ == self.spec_peers(),
    {
        &self.peers
    }
}

/// What an announce tells the tracker about us.
#[derive(Debug)]
pub struct AnnounceInfo<'a> {
    pub info_hash: &'a [u8],
    pub peer_id: &'a str,
    pub peer_port: u16,
    pub downloaded: u64,
    pub left: u64,
    pub uploaded: u64,
}

impl<'a> AnnounceInfo<'a> {
    pub fn new(
        info_hash: &'a [u8],
        peer_id: &'a str,
        peer_port: u16,
        downloaded: u64,
        left: u64,
        uploaded: u64,
    ) -> (r: Self)
        ensures
            r.info_hash@ == info_hash@,
            r.peer_id@ == peer_id@,
            r.peer_port == peer_port,
            r.downloaded == downloaded,
            r.left == left,
            r.uploaded == uploaded,
    {
        Self { info_hash, peer_id, peer_port, downloaded, left, uploaded }
    }
}

/// The UTF-8 bytes of the announce request URL: the tracker URL, then the
/// query with the percent-encoded info hash, our id, port and transfer
/// counts, asking for the compact peer list.
pub open spec fn announce_url_bytes(url: Seq<char>, info: AnnounceInfo) -> Seq<u8> {
    encode_utf8(url) + "?info_hash=".spec_bytes() + percent_encoded(info.info_hash@)
        + "&peer_id=".spec_bytes() + encode_utf8(info.peer_id@) + "&port=".spec_bytes()
        + nat_digits(info.peer_port as nat) + "&uploaded=".spec_bytes() + nat_digits(
        info.uploaded as nat,
    ) + "&downloaded=".spec_bytes() + nat_digits(info.downloaded as nat) + "&left=".spec_bytes()
        + nat_digits(info.left as nat) + "&compact=1".spec_bytes()
}

/// Decimal text of `n` as a URL carries it: digits only, no leading zero,
/// worth `n`.
pub open spec fn is_decimal_of(s: Seq<u8>, n: nat) -> bool {
    &&& s.len() > 0
    &&& all_digits(s)
    &&& !has_leading_zero(s)
    &&& digits_value(s) == n
}

proof fn lemma_decimal_of(n: nat)
    ensures
        is_decimal_of(nat_digits(n), n),
{
    lemma_nat_digits_shape(n);
}

/// Every counter of an announce reaches the tracker whole: the URL is the
/// tracker's URL, the percent-encoded info hash and the peer id, then the port
/// and the uploaded, downloaded and left byte counts, each in plain decimal
/// worth exactly the value given, whatever its size, then `compact=1`.
pub proof fn law_announce_url_parameters(url: Seq<char>, info: AnnounceInfo)
    ensures
        exists|port: Seq<u8>, up: Seq<u8>, down: Seq<u8>, left: Seq<u8>|
            #![trigger is_decimal_of(port, info.peer_port as nat), is_decimal_of(up, info.uploaded as nat), is_decimal_of(down, info.downloaded as nat), is_decimal_of(left, info.left as nat)]
            {
                &&& is_decimal_of(port, info.peer_port as nat)
                &&& is_decimal_of(up, info.uploaded as nat)
                &&& is_decimal_of(down, info.downloaded as nat)
                &&& is_decimal_of(left, info.left as nat)
                &&& announce_url_bytes(url, info) == encode_utf8(url) + "?info_hash=".spec_bytes()
                    + percent_encoded(info.info_hash@) + "&peer_id=".spec_bytes() + encode_utf8(
                    info.peer_id@,
                ) + "&port=".spec_bytes() + port + "&uploaded=".spec_bytes() + up
                    + "&downloaded=".spec_bytes() + down + "&left=".spec_bytes() + left
                    + "&compact=1".spec_bytes()
            },
{
    lemma_decimal_of(info.peer_port as nat);
    lemma_decimal_of(info.uploaded as nat);
    lemma_decimal_of(info.downloaded as nat);
    lemma_decimal_of(info.left as nat);
}

/// ASCII bytes are valid UTF-8.
proof fn lemma_ascii_valid_utf8(d: Seq<u8>)
    requires
        forall|i: int| 0 <= i < d.len() ==> #[trigger] d[i] < 128,
    ensures
        valid_utf8(d),
{
    let chars = Seq::new(d.len(), |i: int| d[i] as char);
    assert(vstd::utf8::is_ascii_chars(chars));
    vstd::utf8::is_ascii_chars_encode_utf8(chars);
    assert(encode_utf8(chars) =~= d);
    vstd::utf8::encode_utf8_valid_utf8(chars);
}

proof fn lemma_digits_valid_utf8(n: nat)
    ensures
        valid_utf8(nat_digits(n)),
{
    lemma_nat_digits_shape(n);
    let d = nat_digits(n);
    assert forall|i: int| 0 <= i < d.len() implies #[trigger] d[i] < 128 by {
        assert(is_digit(d[i]));
    }
    lemma_ascii_valid_utf8(d);
}

/// The announce keys of a tracker's answer.
#[derive(Debug, Clone, Copy, PartialEq, Eq, Structural)]
pub enum ResponseField {
    Complete,
    Incomplete,
    Interval,
    Peers,
}

impl ResponseField {
    pub open spec fn spec_key(self) -> Seq<u8> {
        match self {
            ResponseField::Complete => "complete".spec_bytes(),
            ResponseField::Incomplete => "incomplete".spec_bytes(),
            ResponseField::Interval => "interval".spec_bytes(),
            ResponseField::Peers => "peers".spec_bytes(),
        }
    }

    pub fn key(self) -> (r: &'static [u8])
        ensures
            r@ == self.spec_key(),
    {
        match self {
            ResponseField::Complete => "complete".as_bytes(),
            ResponseField::Incomplete => "incomplete".as_bytes(),
            ResponseField::Interval => "interval".as_bytes(),
            ResponseField::Peers => "peers".as_bytes(),
        }
    }
}

/// Why a tracker's answer was refused.
#[derive(Debug, Clone, Copy, PartialEq, Eq, Structural)]
pub enum ResponseError {
    MissingKey(ResponseField),
    WrongType(ResponseField),
}

/// What a tracker answered.
#[derive(Debug)]
pub struct AnnounceResponse {
    pub complete: i64,
    pub incomplete: i64,
    pub interval: i64,
    /// The compact peer list, as the tracker sent it.
    pub peers: Vec<u8>,
}

pub open spec fn response_number(d: Seq<(Seq<u8>, Value)>, f: ResponseField) -> Result<int, ResponseError> {
    match dict_lookup(d, f.spec_key()) {
        None => Err(ResponseError::MissingKey(f)),
        Some(Value::Number(n)) => Ok(n),
        Some(_) => Err(ResponseError::WrongType(f)),
    }
}

pub open spec fn response_bytes(d: Seq<(Seq<u8>, Value)>, f: ResponseField) -> Result<Seq<u8>, ResponseError> {
    match dict_lookup(d, f.spec_key()) {
        None => Err(ResponseError::MissingKey(f)),
        Some(Value::ByteArray(b)) => Ok(b),
        Some(_) => Err(ResponseError::WrongType(f)),
    }
}

fn response_num(d: &Vec<(Vec<u8>, Object)>, f: ResponseField) -> (r: Result<i64, ResponseError>)
    ensures
        match response_number(dict_view(d@), f) {
            Ok(n) => r matches Ok(v) && v as int == n,
            Err(e) => r == Err::<i64, ResponseError>(e),
        },
{
    match dict_get(d, f.key()) {
        None => Err(ResponseError::MissingKey(f)),
        Some(Object::Number(n)) => Ok(*n),
        Some(_) => Err(ResponseError::WrongType(f)),
    }
}

impl Tracker {
    /// The URL of an announce request to this tracker.
    pub fn announce_url(&self, info: &AnnounceInfo) -> (r: String)
        ensures
            encode_utf8(r@) == announce_url_bytes(self.spec_url(), *info),
    {
        let mut bytes: Vec<u8> = Vec::new();
        append_bytes(&mut bytes, self.url.as_str().as_bytes());
        append_bytes(&mut bytes, "?info_hash=".as_bytes());
        let encoded = url_encode_binary(info.info_hash);
        append_bytes(&mut bytes, encoded.as_str().as_bytes());
        append_bytes(&mut bytes, "&peer_id=".as_bytes());
        append_bytes(&mut bytes, info.peer_id.as_bytes());
        append_bytes(&mut bytes, "&port=".as_bytes());
        append_bytes(&mut bytes, render_u64(info.peer_port as u64).as_slice());
        append_bytes(&mut bytes, "&uploaded=".as_bytes());
        append_bytes(&mut bytes, render_u64(info.uploaded).as_slice());
        append_bytes(&mut bytes, "&downloaded=".as_bytes());
        append_bytes(&mut bytes, render_u64(info.downloaded).as_slice());
        append_bytes(&mut bytes, "&left=".as_bytes());
        append_bytes(&mut bytes, render_u64(info.left).as_slice());
        append_bytes(&mut bytes, "&compact=1".as_bytes());
        let ghost all = bytes@;
        proof {
            lemma_digits_valid_utf8(info.peer_port as nat);
            lemma_digits_valid_utf8(info.uploaded as nat);
            lemma_digits_valid_utf8(info.downloaded as nat);
            lemma_digits_valid_utf8(info.left as nat);
            assert(all =~= announce_url_bytes(self.spec_url(), *info));
            vstd::utf8::encode_utf8_valid_utf8(self.spec_url());
            vstd::utf8::encode_utf8_valid_utf8(info.peer_id@);
            vstd::utf8::encode_utf8_valid_utf8(encoded@);
            vstd::utf8::encode_utf8_valid_utf8("?info_hash="@);
            vstd::utf8::encode_utf8_valid_utf8("&peer_id="@);
            vstd::utf8::encode_utf8_valid_utf8("&port="@);
            vstd::utf8::encode_utf8_valid_utf8("&uploaded="@);
            vstd::utf8::encode_utf8_valid_utf8("&downloaded="@);
            vstd::utf8::encode_utf8_valid_utf8("&left="@);
            vstd::utf8::encode_utf8_valid_utf8("&compact=1"@);
            let a0 = encode_utf8(self.spec_url());
            vstd::utf8::valid_utf8_concat(a0, "?info_hash=".spec_bytes());
            let a1 = a0 + "?info_hash=".spec_bytes();
            vstd::utf8::valid_utf8_concat(a1, percent_encoded(info.info_hash@));
            let a2 = a1 + percent_encoded(info.info_hash@);
            vstd::utf8::valid_utf8_concat(a2, "&peer_id=".spec_bytes());
            let a3 = a2 + "&peer_id=".spec_bytes();
            vstd::utf8::valid_utf8_concat(a3, encode_utf8(info.peer_id@));
            let a4 = a3 + encode_utf8(info.peer_id@);
            vstd::utf8::valid_utf8_concat(a4, "&port=".spec_bytes());
            let a5 = a4 + "&port=".spec_bytes();
            vstd::utf8::valid_utf8_concat(a5, nat_digits(info.peer_port as nat));
            let a6 = a5 + nat_digits(info.peer_port as nat);
            vstd::utf8::valid_utf8_concat(a6, "&uploaded=".spec_bytes());
            let a7 = a6 + "&uploaded=".spec_bytes();
            vstd::utf8::valid_utf8_concat(a7, nat_digits(info.uploaded as nat));
            let a8 = a7 + nat_digits(info.uploaded as nat);
            vstd::utf8::valid_utf8_concat(a8, "&downloaded=".spec_bytes());
            let a9 = a8 + "&downloaded=".spec_bytes();
            vstd::utf8::valid_utf8_concat(a9, nat_digits(info.downloaded as nat));
            let a10 = a9 + nat_digits(info.downloaded as nat);
            vstd::utf8::valid_utf8_concat(a10, "&left=".spec_bytes());
            let a11 = a10 + "&left=".spec_bytes();
            vstd::utf8::valid_utf8_concat(a11, nat_digits(info.left as nat));
            let a12 = a11 + nat_digits(info.left as nat);
            vstd::utf8::valid_utf8_concat(a12, "&compact=1".spec_bytes());
            let a13 = a12 + "&compact=1".spec_bytes();
            assert(all =~= a13);
            assert(valid_utf8(all));
            vstd::utf8::decode_utf8_encode_utf8(all);
        }
        match string_from_utf8(bytes) {
            Some(s) => s,
            None => {
                proof {
                    assert(false);
                }
                String::new()
            },
        }
    }

    /// Reads a tracker's answer, a bencode dictionary: the seeder and leecher
    /// counts, the interval (which becomes this tracker's interval, cut to 64
    /// bits as an unsigned number, as soon as it is read) and the peer list.
    pub fn apply_response(&mut self, response: &Vec<(Vec<u8>, Object)>) -> (r: Result<
        AnnounceResponse,
        ResponseError,
    >)
        ensures
            final(self).spec_url() == old(self).spec_url(),
            final(self).spec_peers() == old(self).spec_peers(),
            answer_effect(*old(self), *final(self), dict_view(response@), r),
    {
        let complete = response_num(response, ResponseField::Complete)?;
        let incomplete = response_num(response, ResponseField::Incomplete)?;
        let interval = response_num(response, ResponseField::Interval)?;
        self.set_interval(interval as u64);
        let peers = match dict_get(response, ResponseField::Peers.key()) {
            None => {
                return Err(ResponseError::MissingKey(ResponseField::Peers));
            },
            Some(Object::ByteArray(b)) => vstd::slice::slice_to_vec(b.as_slice()),
            Some(_) => {
                return Err(ResponseError::WrongType(ResponseField::Peers));
            },
        };
        Ok(AnnounceResponse { complete, incomplete, interval, peers })
    }

    /// Reads a tracker's answer as `apply_response` does; `None`, with the
    /// tracker unchanged, where the answer is not a dictionary.
    pub fn apply_answer(&mut self, answer: &Object) -> (r: Option<
        Result<AnnounceResponse, ResponseError>,
    >)
        ensures
            match *answer {
                Object::Dictionary(d) => r matches Some(res) && answer_effect(
                    *old(self),
                    *final(self),
                    dict_view(d@),
                    res,
                ),
                _ => r is None && *final(self) == *old(self),
            },
    {
        match answer {
            Object::Dictionary(d) => Some(self.apply_response(d)),
            _ => None,
        }
    }
}

/// What reading the answer `d` does to a tracker and gives: the counts, the
/// interval and the compact peer list, each required in turn; the interval
/// becomes the tracker's interval as soon as it is read.
pub open spec fn answer_effect(
    before: Tracker,
    after: Tracker,
    d: Seq<(Seq<u8>, Value)>,
    r: Result<AnnounceResponse, ResponseError>,
) -> bool {
    &&& after.spec_url() == before.spec_url()
    &&& after.spec_peers() == before.spec_peers()
    &&& match response_number(d, ResponseField::Complete) {
        Err(e) => r == Err::<AnnounceResponse, ResponseError>(e) && after.spec_interval()
            == before.spec_interval(),
        Ok(complete) => match response_number(d, ResponseField::Incomplete) {
            Err(e) => r == Err::<AnnounceResponse, ResponseError>(e) && after.spec_interval()
                == before.spec_interval(),
            Ok(incomplete) => match response_number(d, ResponseField::Interval) {
                Err(e) => r == Err::<AnnounceResponse, ResponseError>(e) && after.spec_interval()
                    == before.spec_interval(),
                Ok(interval) => after.spec_interval() == interval as u64 && match response_bytes(
                    d,
                    ResponseField::Peers,
                ) {
                    Err(e) => r == Err::<AnnounceResponse, ResponseError>(e),
                    Ok(peers) => r matches Ok(a) && a.complete == complete && a.incomplete
                        == incomplete && a.interval == interval && a.peers@ == peers,
                },
            },
        },
    }
}

} // verus!
