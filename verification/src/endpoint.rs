//! Requests over HTTP: the websocket handshake and the metrics.
use crate::bytes::{push_bytes, same_bytes};
use crate::constants;
use crate::effect::{nothing, shown, Effect, EffectView};
use crate::json::is_digit;
use crate::room::string_said;
use crate::state::{
    after_connect, agent_effects, connections_of, keeps_buckets, made_after_connect, GlobalState,
};
use argon2::{Argon2, PasswordHash, PasswordVerifier};
use base64::{engine::general_purpose::STANDARD, Engine};
use sha1::{Digest, Sha1};
use vstd::prelude::*;
use vstd::utf8::encode_utf8;

verus! {

/// The SHA-1 digest of some bytes.
pub uninterp spec fn sha1_digest(data: Seq<u8>) -> Seq<u8>;

/// Calls `Sha1::digest`: the digest, which has 20 bytes.
#[verifier::external_body]
pub(crate) fn sha1(data: &[u8]) -> (digest: Vec<u8>)
    ensures
        digest@ == sha1_digest(data@),
        digest@.len() == 20,
{
    Sha1::digest(data).to_vec()
}

/// The character for six bits in base64.
pub open spec fn base64_char(bits: int) -> char {
    if bits < 26 {
        (65 + bits) as char
    } else if bits < 52 {
        (97 + bits - 26) as char
    } else if bits < 62 {
        (48 + bits - 52) as char
    } else if bits == 62 {
        '+'
    } else {
        '/'
    }
}

/// Bytes in base64: four characters for each three bytes, the last four filled up
/// with `=`.
pub open spec fn base64_text(data: Seq<u8>) -> Seq<char>
    decreases data.len(),
{
    if data.len() == 0 {
        seq![]
    } else if data.len() == 1 {
        seq![base64_char(data[0] as int / 4), base64_char(data[0] as int % 4 * 16), '=', '=']
    } else if data.len() == 2 {
        seq![
            base64_char(data[0] as int / 4),
            base64_char(data[0] as int % 4 * 16 + data[1] as int / 16),
            base64_char(data[1] as int % 16 * 4),
            '=',
        ]
    } else {
        seq![
            base64_char(data[0] as int / 4),
            base64_char(data[0] as int % 4 * 16 + data[1] as int / 16),
            base64_char(data[1] as int % 16 * 4 + data[2] as int / 64),
            base64_char(data[2] as int % 64),
        ] + base64_text(data.skip(3))
    }
}

/// Calls `Engine::encode` of base64's `STANDARD` engine: the bytes in base64 with
/// the standard alphabet and padding. Of inputs so large that the text does not fit
/// in memory nothing is said.
#[verifier::external_body]
pub(crate) fn base64(data: &[u8]) -> (text: String)
    requires
        data@.len() <= 0xffff,
    ensures
        text@ == base64_text(data@),
{
    STANDARD.encode(data)
}

/// The text is a password hash in the PHC string format.
pub uninterp spec fn is_password_hash(hash: Seq<char>) -> bool;

/// The password is the one that the hash was made of.
pub uninterp spec fn password_fits(password: Seq<u8>, hash: Seq<char>) -> bool;

/// Calls `PasswordHash::new`: whether it can read the text.
#[verifier::external_body]
pub(crate) fn reads_as_hash(hash: &str) -> (reads: bool)
    ensures
        reads == is_password_hash(hash@),
{
    PasswordHash::new(hash).is_ok()
}

/// At `at` the text asks for a number of threads of nine or more digits.
pub open spec fn asks_for_many_threads(hash: Seq<char>, at: int) -> bool {
    &&& 0 <= at
    &&& at + 11 <= hash.len()
    &&& hash[at] == 'p'
    &&& hash[at + 1] == '='
    &&& forall|i: int| at + 2 <= i < at + 11 ==> is_digit(#[trigger] hash[i])
}

/// The text asks for a number of threads of nine or more digits somewhere. Argon2 has
/// at most 2 to the 24, less one.
pub open spec fn too_many_threads(hash: Seq<char>) -> bool {
    exists|at: int| #[trigger] asks_for_many_threads(hash, at)
}

/// Calls `Argon2::verify_password` on a hash that `PasswordHash::new` can read, with the
/// parameters that stand in the hash: whether the password fits. A number of threads
/// that does not fit in 32 bits when it is multiplied by 8 is left out: there the call
/// may panic. That the memory which the hash asks for can be had is left unsaid.
#[verifier::external_body]
pub(crate) fn verify_password(password: &[u8], hash: &str) -> (fits: bool)
    requires
        is_password_hash(hash@),
        !too_many_threads(hash@),
    ensures
        fits == password_fits(password@, hash@),
{
    match PasswordHash::new(hash) {
        Ok(parsed) => Argon2::default().verify_password(password, &parsed).is_ok(),
        Err(_) => false,
    }
}

/// Whether the text asks for a number of threads of nine or more digits.
pub fn has_too_many_threads(hash: &str) -> (too_many: bool)
    ensures
        too_many == too_many_threads(hash@),
{
    let len: usize = hash.unicode_len();
    let mut at: usize = 0;
    while at < len
        invariant
            at <= len,
            len == hash@.len(),
            forall|before: int| before < at ==> !(#[trigger] asks_for_many_threads(hash@, before)),
        decreases len - at,
    {
        if len - at >= 11 && hash.get_char(at) == 'p' && hash.get_char(at + 1) == '=' {
            let mut digits: usize = 0;
            while digits < 9 && '0' <= hash.get_char(at + 2 + digits) && hash.get_char(
                at + 2 + digits,
            ) <= '9'
                invariant
                    digits <= 9,
                    at + 11 <= len,
                    len == hash@.len(),
                    forall|i: int| at + 2 <= i < at + 2 + digits ==> is_digit(#[trigger] hash@[i]),
                decreases 9 - digits,
            {
                digits = digits + 1;
            }
            if digits == 9 {
                assert(asks_for_many_threads(hash@, at as int));
                return true;
            }
            assert(!is_digit(hash@[at + 2 + digits]));
            assert(!asks_for_many_threads(hash@, at as int));
        }
        at = at + 1;
    }
    assert forall|before: int| !(#[trigger] asks_for_many_threads(hash@, before)) by {
    }
    false
}

/// What the server answers to a websocket key.
pub open spec fn accept_text(key: Seq<u8>) -> Seq<char> {
    base64_text(sha1_digest(key + encode_utf8(constants::GUID@)))
}

/// What the server answers to a websocket key.
pub fn accept_key(key: &Vec<u8>) -> (accept: String)
    ensures
        accept@ == accept_text(key@),
{
    let mut data: Vec<u8> = Vec::new();
    push_bytes(&mut data, key.as_slice());
    push_bytes(&mut data, constants::GUID.as_bytes());
    assert(data@ =~= key@ + encode_utf8(constants::GUID@));
    accept_digest(&sha1(data.as_slice()))
}

/// The digest of an extended websocket key, as the server answers it.
pub fn accept_digest(digest: &Vec<u8>) -> (accept: String)
    requires
        digest@.len() == 20,
    ensures
        accept@ == base64_text(digest@),
{
    base64(digest.as_slice())
}

/// A byte that stands for itself in the text of a header: visible ASCII, the space
/// or the tabulator.
pub open spec fn is_text_byte(b: u8) -> bool {
    32 <= b < 127 || b == 9
}

/// The value of a header as text, if it is text.
pub open spec fn header_text(value: Seq<u8>) -> Option<Seq<char>> {
    if forall|i: int| 0 <= i < value.len() ==> is_text_byte(#[trigger] value[i]) {
        Some(value.map_values(|b: u8| b as char))
    } else {
        None
    }
}

/// The value of a header as text, if it is text.
pub fn read_header(value: &Vec<u8>) -> (text: Option<String>)
    ensures
        string_said(text) == header_text(value@),
{
    let mut text = String::new();
    let mut i: usize = 0;
    while i < value.len()
        invariant
            i <= value.len(),
            forall|j: int| 0 <= j < i ==> is_text_byte(#[trigger] value[j]),
            text@ == value@.take(i as int).map_values(|b: u8| b as char),
        decreases value.len() - i,
    {
        let b = value[i];
        if !(32 <= b && b < 127 || b == 9) {
            assert(!is_text_byte(value@[i as int]));
            return None;
        }
        text.push(b as char);
        i = i + 1;
        assert(text@ =~= value@.take(i as int).map_values(|b: u8| b as char));
    }
    assert(value@.take(value@.len() as int) =~= value@);
    Some(text)
}

/// What stands before the first comma.
pub open spec fn before_comma(s: Seq<char>) -> Seq<char>
    decreases s.len(),
{
    if s.len() == 0 || s[0] == ',' {
        seq![]
    } else {
        seq![s[0]] + before_comma(s.drop_first())
    }
}

/// A space or a tabulator.
pub open spec fn is_blank(c: char) -> bool {
    c == ' ' || c == '\t'
}

/// The text without blanks at the start.
pub open spec fn trim_start(s: Seq<char>) -> Seq<char>
    decreases s.len(),
{
    if s.len() > 0 && is_blank(s[0]) {
        trim_start(s.drop_first())
    } else {
        s
    }
}

/// The text without blanks at the end.
pub open spec fn trim_end(s: Seq<char>) -> Seq<char>
    decreases s.len(),
{
    if s.len() > 0 && is_blank(s.last()) {
        trim_end(s.drop_last())
    } else {
        s
    }
}

/// The address that a proxy names as the client's: what stands before the first
/// comma, without blanks around it. `None` without a proxy, without the header, or
/// where it is no text.
pub open spec fn forwarded_text(behind_proxy: bool, header: Option<Seq<u8>>) -> Option<Seq<char>> {
    if !behind_proxy {
        None
    } else {
        match header {
            Some(value) => match header_text(value) {
                Some(text) => Some(trim_end(trim_start(before_comma(text)))),
                None => None,
            },
            None => None,
        }
    }
}

proof fn lemma_before_comma(s: Seq<char>, end: int)
    requires
        0 <= end <= s.len(),
        forall|i: int| 0 <= i < end ==> s[i] != ',',
        end == s.len() || s[end] == ',',
    ensures
        before_comma(s) == s.take(end),
    decreases s.len(),
{
    if end > 0 {
        lemma_before_comma(s.drop_first(), end - 1);
        assert(s.take(end) =~= seq![s[0]] + s.drop_first().take(end - 1));
    } else {
        assert(s.take(0) =~= Seq::<char>::empty());
    }
}

proof fn lemma_trim_start(s: Seq<char>, start: int)
    requires
        0 <= start <= s.len(),
        forall|i: int| 0 <= i < start ==> is_blank(s[i]),
        start == s.len() || !is_blank(s[start]),
    ensures
        trim_start(s) == s.skip(start),
    decreases s.len(),
{
    if start > 0 {
        lemma_trim_start(s.drop_first(), start - 1);
        assert(s.skip(start) =~= s.drop_first().skip(start - 1));
    } else {
        assert(s.skip(0) =~= s);
    }
}

proof fn lemma_trim_end(s: Seq<char>, stop: int)
    requires
        0 <= stop <= s.len(),
        forall|i: int| stop <= i < s.len() ==> is_blank(s[i]),
        stop == 0 || !is_blank(s[stop - 1]),
    ensures
        trim_end(s) == s.take(stop),
    decreases s.len(),
{
    if stop < s.len() {
        lemma_trim_end(s.drop_last(), stop);
        assert(s.take(stop) =~= s.drop_last().take(stop));
    } else {
        assert(s.take(stop) =~= s);
    }
}

/// The address that a proxy names as the client's.
pub fn forwarded_client(behind_proxy: bool, header: Option<&Vec<u8>>) -> (text: Option<String>)
    ensures
        string_said(text) == forwarded_text(
            behind_proxy,
            match header {
                Some(value) => Some(value@),
                None => None,
            },
        ),
{
    if !behind_proxy {
        return None;
    }
    match header {
        Some(value) => {
            if read_header(value).is_none() {
                return None;
            }
            let ghost whole = header_text(value@)->0;
            let mut end: usize = 0;
            while end < value.len() && value[end] != 44
                invariant
                    end <= value.len(),
                    header_text(value@) == Some(whole),
                    forall|i: int| 0 <= i < end ==> whole[i] != ',',
                decreases value.len() - end,
            {
                assert(is_text_byte(value[end as int]));
                end = end + 1;
            }
            let ghost first = whole.take(end as int);
            proof {
                lemma_before_comma(whole, end as int);
            }
            let mut start: usize = 0;
            while start < end && (value[start] == 32 || value[start] == 9)
                invariant
                    start <= end <= value.len(),
                    header_text(value@) == Some(whole),
                    first == whole.take(end as int),
                    forall|i: int| 0 <= i < start ==> is_blank(first[i]),
                decreases end - start,
            {
                start = start + 1;
            }
            let ghost rest = first.skip(start as int);
            proof {
                lemma_trim_start(first, start as int);
            }
            let mut stop: usize = end;
            while stop > start && (value[stop - 1] == 32 || value[stop - 1] == 9)
                invariant
                    start <= stop <= end <= value.len(),
                    header_text(value@) == Some(whole),
                    first == whole.take(end as int),
                    rest == first.skip(start as int),
                    forall|i: int| stop - start <= i < rest.len() ==> is_blank(rest[i]),
                decreases stop - start,
            {
                assert(rest[stop - start - 1] == whole[stop - 1]);
                stop = stop - 1;
            }
            proof {
                if stop > start {
                    assert(rest[stop - start - 1] == whole[stop - 1]);
                }
                lemma_trim_end(rest, stop - start);
            }
            let mut text = String::new();
            let mut i: usize = start;
            while i < stop
                invariant
                    start <= i <= stop <= end <= value.len(),
                    header_text(value@) == Some(whole),
                    first == whole.take(end as int),
                    rest == first.skip(start as int),
                    text@ == rest.take(i - start),
                decreases stop - i,
            {
                assert(rest[i - start] == whole[i as int]);
                text.push(value[i] as char);
                i = i + 1;
                assert(text@ =~= rest.take(i - start));
            }
            Some(text)
        },
        None => None,
    }
}

/// What the server needs of a request. Of each header it is the first value.
#[derive(Debug)]
pub struct HttpRequest {
    pub method: String,
    pub path: String,
    /// The address at the other end of the connection.
    pub remote_ip: String,
    /// The address that a proxy names as the client's, where it can be read as one.
    pub forwarded_ip: Option<String>,
    pub authorization: Option<Vec<u8>>,
    pub upgrade: Option<Vec<u8>>,
    pub websocket_key: Option<Vec<u8>>,
    pub user_agent: Option<Vec<u8>>,
}

/// What a request says.
#[verifier::ext_equal]
pub struct RequestView {
    pub method: Seq<char>,
    pub path: Seq<char>,
    pub remote_ip: Seq<char>,
    pub forwarded_ip: Option<Seq<char>>,
    pub authorization: Option<Seq<u8>>,
    pub upgrade: Option<Seq<u8>>,
    pub websocket_key: Option<Seq<u8>>,
    pub user_agent: Option<Seq<u8>>,
}

/// What an optional byte string holds.
pub open spec fn bytes_said(bytes: Option<Vec<u8>>) -> Option<Seq<u8>> {
    match bytes {
        Some(b) => Some(b@),
        None => None,
    }
}

impl View for HttpRequest {
    type V = RequestView;

    open spec fn view(&self) -> RequestView {
        RequestView {
            method: self.method@,
            path: self.path@,
            remote_ip: self.remote_ip@,
            forwarded_ip: string_said(self.forwarded_ip),
            authorization: bytes_said(self.authorization),
            upgrade: bytes_said(self.upgrade),
            websocket_key: bytes_said(self.websocket_key),
            user_agent: bytes_said(self.user_agent),
        }
    }
}

/// Why a request cannot be answered at all.
#[derive(Clone, Copy, PartialEq, Eq, Structural, Debug)]
pub enum Fault {
    /// The administrator's password hash in the configuration is none.
    UnreadablePasswordHash,
    /// The `Upgrade` header is no text.
    UnreadableUpgrade,
}

/// A client that was let in.
#[derive(Debug)]
pub struct Admission {
    pub ip: String,
    pub agent: Option<String>,
    pub is_admin: bool,
    /// The answer to its websocket key.
    pub accept: String,
}

/// Who was let in.
#[verifier::ext_equal]
pub struct AdmissionView {
    pub ip: Seq<char>,
    pub agent: Option<Seq<char>>,
    pub is_admin: bool,
    pub accept: Seq<char>,
}

impl View for Admission {
    type V = AdmissionView;

    open spec fn view(&self) -> AdmissionView {
        AdmissionView {
            ip: self.ip@,
            agent: string_said(self.agent),
            is_admin: self.is_admin,
            accept: self.accept@,
        }
    }
}

/// What a response carries.
#[derive(Clone, Copy, PartialEq, Eq, Structural, Debug)]
pub enum Body {
    Empty,
    Metrics,
}

/// A response.
#[derive(Debug)]
pub struct Reply {
    pub status: u16,
    pub headers: Vec<(String, String)>,
    pub body: Body,
    /// The client to serve from now on, if one was let in.
    pub admission: Option<Admission>,
    pub effects: Vec<Effect>,
}

/// What a response says.
#[verifier::ext_equal]
pub struct ReplyView {
    pub status: u16,
    pub headers: Seq<(Seq<char>, Seq<char>)>,
    pub body: Body,
    pub admission: Option<AdmissionView>,
    pub effects: Seq<EffectView>,
}

/// What a list of headers says.
pub open spec fn headers_said(headers: Seq<(String, String)>) -> Seq<(Seq<char>, Seq<char>)> {
    headers.map_values(|h: (String, String)| (h.0@, h.1@))
}

impl View for Reply {
    type V = ReplyView;

    open spec fn view(&self) -> ReplyView {
        ReplyView {
            status: self.status,
            headers: headers_said(self.headers@),
            body: self.body,
            admission: match self.admission {
                Some(admission) => Some(admission@),
                None => None,
            },
            effects: shown(self.effects@),
        }
    }
}

/// A response that is nothing but a status.
pub open spec fn bare(status: u16) -> ReplyView {
    ReplyView {
        status,
        headers: seq![],
        body: Body::Empty,
        admission: None,
        effects: seq![],
    }
}

/// The headers of the response that opens a websocket.
pub open spec fn switching_headers(accept: Seq<char>) -> Seq<(Seq<char>, Seq<char>)> {
    seq![
        ("connection"@, "Upgrade"@),
        ("upgrade"@, "websocket"@),
        ("sec-websocket-accept"@, accept),
        ("sec-websocket-version"@, "13"@),
    ]
}

/// How far a request to open a websocket gets before connections are counted.
#[verifier::ext_equal]
pub enum Handshake {
    Broken(Fault),
    BadRequest,
    Ready(AdmissionView),
}

impl RequestView {
    /// Who the request comes from. Only behind a proxy it is whom the proxy names.
    pub open spec fn client_ip(self, behind_proxy: bool) -> Seq<char> {
        match self.forwarded_ip {
            Some(ip) => if behind_proxy {
                ip
            } else {
                self.remote_ip
            },
            None => self.remote_ip,
        }
    }

    /// The request as it is handed over: with the address that a proxy names, where
    /// `read` reads it as one.
    pub open spec fn via(
        self,
        forwarded: Option<Seq<char>>,
        read: spec_fn(Seq<char>) -> Option<Seq<char>>,
    ) -> RequestView {
        RequestView {
            forwarded_ip: match forwarded {
                Some(text) => read(text),
                None => None,
            },
            ..self
        }
    }

    /// The user agent, where it is text.
    pub open spec fn agent(self) -> Option<Seq<char>> {
        match self.user_agent {
            Some(value) => header_text(value),
            None => None,
        }
    }

    /// Whether the request comes from an administrator. `None` where that cannot be
    /// told, as the hash to hold the password against cannot be read. No password fits
    /// a hash that asks for more threads than there can be.
    pub open spec fn from_admin(self, hash: Option<Seq<char>>) -> Option<bool> {
        match (self.authorization, hash) {
            (Some(password), Some(h)) => if !is_password_hash(h) {
                None
            } else {
                Some(!too_many_threads(h) && password_fits(password, h))
            },
            _ => Some(false),
        }
    }

    /// The answer to the request's websocket key, if it has one.
    pub open spec fn accept(self) -> Option<Seq<char>> {
        match self.websocket_key {
            Some(key) => Some(accept_text(key)),
            None => None,
        }
    }

    /// How far a request to open a websocket gets, given whether the server is behind a
    /// proxy, whether the request comes from an administrator, and the answer to its
    /// websocket key.
    pub open spec fn handshake(
        self,
        behind_proxy: bool,
        from_admin: Option<bool>,
        accept: Option<Seq<char>>,
    ) -> Handshake {
        match from_admin {
            None => Handshake::Broken(Fault::UnreadablePasswordHash),
            Some(is_admin) => match (self.upgrade, accept) {
                (Some(upgrade), Some(accept)) => match header_text(upgrade) {
                    None => Handshake::Broken(Fault::UnreadableUpgrade),
                    Some(protocol) => if protocol == "websocket"@ {
                        Handshake::Ready(
                            AdmissionView {
                                ip: self.client_ip(behind_proxy),
                                agent: self.agent(),
                                is_admin,
                                accept,
                            },
                        )
                    } else {
                        Handshake::BadRequest
                    },
                },
                _ => Handshake::BadRequest,
            },
        }
    }

    /// Whether the request is one to open a websocket.
    pub open spec fn for_websocket(self) -> bool {
        self.method == "GET"@ && self.path == "/"@
    }

    /// Whether the request may see the metrics.
    pub open spec fn may_see_metrics(self, token: Option<Seq<char>>) -> bool {
        match token {
            Some(t) => self.authorization == Some(encode_utf8(t)),
            None => true,
        }
    }
}

/// The outcome of a handshake: one who is ready is let in while the address has
/// connections left.
pub open spec fn handshake_outcome(
    before: GlobalState,
    handshake: Handshake,
) -> Result<ReplyView, Fault> {
    match handshake {
        Handshake::Broken(fault) => Err(fault),
        Handshake::BadRequest => Ok(bare(400)),
        Handshake::Ready(admission) => if connections_of(before.clients_view(), admission.ip)
            < before.config.connections_per_ip {
            Ok(
                ReplyView {
                    status: 101,
                    headers: switching_headers(admission.accept),
                    body: Body::Empty,
                    admission: Some(admission),
                    effects: seq![EffectView::ConnectionOpened { ip: admission.ip }]
                        + agent_effects(admission.agent, true),
                },
            )
        } else {
            Ok(bare(403))
        },
    }
}

/// The outcome of a request to open a websocket, given whether it comes from an
/// administrator and the answer to its websocket key.
pub open spec fn checked_endpoint_outcome(
    before: GlobalState,
    request: RequestView,
    from_admin: Option<bool>,
    accept: Option<Seq<char>>,
) -> Result<ReplyView, Fault> {
    handshake_outcome(
        before,
        request.handshake(before.config.behind_proxy, from_admin, accept),
    )
}

/// The outcome of a request to open a websocket.
pub open spec fn endpoint_outcome(
    before: GlobalState,
    request: RequestView,
) -> Result<ReplyView, Fault> {
    checked_endpoint_outcome(
        before,
        request,
        request.from_admin(string_said(before.config.admin_password_hash)),
        request.accept(),
    )
}

/// The outcome of a request, given whether it comes from an administrator and the
/// answer to its websocket key.
pub open spec fn checked_outcome(
    before: GlobalState,
    request: RequestView,
    from_admin: Option<bool>,
    accept: Option<Seq<char>>,
) -> Result<ReplyView, Fault> {
    if request.for_websocket() {
        checked_endpoint_outcome(before, request, from_admin, accept)
    } else if request.method == "GET"@ && request.path == "/metrics"@ {
        if request.may_see_metrics(string_said(before.config.metrics_token)) {
            Ok(ReplyView { body: Body::Metrics, ..bare(200) })
        } else {
            Ok(bare(403))
        }
    } else {
        Ok(bare(404))
    }
}

/// The outcome of a request.
pub open spec fn request_outcome(
    before: GlobalState,
    request: RequestView,
) -> Result<ReplyView, Fault> {
    checked_outcome(
        before,
        request,
        request.from_admin(string_said(before.config.admin_password_hash)),
        request.accept(),
    )
}

/// The response with the server's version.
pub open spec fn versioned(reply: ReplyView, version: Seq<char>) -> ReplyView {
    ReplyView { headers: reply.headers.push(("x-highway-version"@, version)), ..reply }
}

/// The outcome of a request with the server's version on the response, if there is one.
pub open spec fn versioned_outcome(
    outcome: Result<ReplyView, Fault>,
    version: Seq<char>,
) -> Result<ReplyView, Fault> {
    match outcome {
        Ok(reply) => Ok(versioned(reply, version)),
        Err(fault) => Err(fault),
    }
}

/// The state after a response: whoever is let in is counted, and nothing else changes.
pub open spec fn admitted(
    before: GlobalState,
    after: GlobalState,
    outcome: Result<ReplyView, Fault>,
) -> bool {
    &&& after.config == before.config
    &&& after.rooms == before.rooms
    &&& keeps_buckets(before.connections@, after.connections@)
    &&& match outcome {
        Ok(reply) => match reply.admission {
            Some(admission) => {
                &&& after.clients_view() == after_connect(
                    before.clients_view(),
                    before.config,
                    admission.ip,
                    before.mint@,
                )
                &&& after.mint@ == made_after_connect(
                    before.clients_view(),
                    admission.ip,
                    before.mint@,
                )
            },
            None => after.connections == before.connections && after.mint@ == before.mint@,
        },
        Err(_) => after.connections == before.connections && after.mint@ == before.mint@,
    }
}

/// What the outcome of a request says.
pub open spec fn outcome_said(outcome: Result<Reply, Fault>) -> Result<ReplyView, Fault> {
    match outcome {
        Ok(reply) => Ok(reply@),
        Err(fault) => Err(fault),
    }
}

/// Makes a response that is nothing but a status.
fn bare_reply(status: u16) -> (reply: Reply)
    ensures
        reply@ == bare(status),
{
    let reply = Reply {
        status,
        headers: Vec::new(),
        body: Body::Empty,
        admission: None,
        effects: nothing(),
    };
    assert(reply@.headers =~= Seq::<(Seq<char>, Seq<char>)>::empty());
    reply
}

/// Whether a string says the same as a text.
fn says(s: &String, text: &str) -> (same: bool)
    ensures
        same == (s@ == text@),
{
    *s == text.to_owned()
}

/// Whether the request comes from an administrator.
pub fn check_admin(request: &HttpRequest, hash: &Option<String>) -> (verdict: Option<bool>)
    ensures
        verdict == request@.from_admin(string_said(*hash)),
{
    match (&request.authorization, hash) {
        (Some(password), Some(hash)) => if !reads_as_hash(hash.as_str()) {
            None
        } else if has_too_many_threads(hash.as_str()) {
            Some(false)
        } else {
            Some(verify_password(password.as_slice(), hash.as_str()))
        },
        _ => Some(false),
    }
}

/// What is looked up about a request before it is answered.
#[derive(Debug)]
pub struct Checks {
    /// Whether the request comes from an administrator; `None` where that cannot be told.
    pub from_admin: Option<bool>,
    /// The answer to the request's websocket key, if it has one.
    pub accept: Option<String>,
}

/// Looks up what is needed to answer a request. For requests that do not open a
/// websocket that is nothing.
pub fn check_request(request: &HttpRequest, hash: &Option<String>) -> (checks: Checks)
    ensures
        request@.for_websocket() ==> checks.from_admin == request@.from_admin(string_said(*hash))
            && string_said(checks.accept) == request@.accept(),
        !request@.for_websocket() ==> checks.from_admin == Some(false) && checks.accept is None,
{
    if is_for_websocket(request) {
        check_handshake(request, hash)
    } else {
        Checks { from_admin: Some(false), accept: None }
    }
}

/// Looks up what is needed to answer a request to open a websocket.
fn check_handshake(request: &HttpRequest, hash: &Option<String>) -> (checks: Checks)
    ensures
        checks.from_admin == request@.from_admin(string_said(*hash)),
        string_said(checks.accept) == request@.accept(),
{
    let accept = match &request.websocket_key {
        Some(key) => Some(accept_key(key)),
        None => None,
    };
    Checks { from_admin: check_admin(request, hash), accept }
}

/// Whether the request is one to open a websocket.
fn is_for_websocket(request: &HttpRequest) -> (is: bool)
    ensures
        is == request@.for_websocket(),
{
    says(&request.method, "GET") && says(&request.path, "/")
}

/// Answers a request to open a websocket.
pub fn websocket_endpoint_handler(global_state: &mut GlobalState, request: &HttpRequest) -> (outcome:
    Result<Reply, Fault>)
    requires
        old(global_state).wf(),
    ensures
        final(global_state).wf(),
        outcome_said(outcome) == endpoint_outcome(*old(global_state), request@),
        admitted(*old(global_state), *final(global_state), outcome_said(outcome)),
{
    let checks = check_handshake(request, &global_state.config.admin_password_hash);
    answer_handshake(global_state, request, checks.from_admin, checks.accept)
}

/// Answers a request to open a websocket, given whether it comes from an
/// administrator and the answer to its websocket key.
pub fn answer_handshake(
    global_state: &mut GlobalState,
    request: &HttpRequest,
    from_admin: Option<bool>,
    accept: Option<String>,
) -> (outcome: Result<Reply, Fault>)
    requires
        old(global_state).wf(),
    ensures
        final(global_state).wf(),
        outcome_said(outcome) == checked_endpoint_outcome(
            *old(global_state),
            request@,
            from_admin,
            string_said(accept),
        ),
        admitted(*old(global_state), *final(global_state), outcome_said(outcome)),
{
    let is_admin = match from_admin {
        Some(verdict) => verdict,
        None => {
            return Err(Fault::UnreadablePasswordHash);
        },
    };
    let (upgrade, accept) = match (&request.upgrade, accept) {
        (Some(upgrade), Some(accept)) => (upgrade, accept),
        _ => {
            return Ok(bare_reply(400));
        },
    };
    let protocol = match read_header(upgrade) {
        Some(protocol) => protocol,
        None => {
            return Err(Fault::UnreadableUpgrade);
        },
    };
    if !says(&protocol, "websocket") {
        return Ok(bare_reply(400));
    }
    let ip = match &request.forwarded_ip {
        Some(ip) => if global_state.config.behind_proxy {
            ip.clone()
        } else {
            request.remote_ip.clone()
        },
        None => request.remote_ip.clone(),
    };
    let agent = match &request.user_agent {
        Some(value) => read_header(value),
        None => None,
    };
    let (admitted, effects) = global_state.client_connected(ip.as_str(), agent.clone());
    if !admitted {
        return Ok(bare_reply(403));
    }
    let mut headers: Vec<(String, String)> = Vec::new();
    headers.push(("connection".to_owned(), "Upgrade".to_owned()));
    headers.push(("upgrade".to_owned(), "websocket".to_owned()));
    headers.push(("sec-websocket-accept".to_owned(), accept.clone()));
    headers.push(("sec-websocket-version".to_owned(), "13".to_owned()));
    assert(headers_said(headers@) =~= switching_headers(accept@));
    Ok(
        Reply {
            status: 101,
            headers,
            body: Body::Empty,
            admission: Some(Admission { ip, agent, is_admin, accept }),
            effects,
        },
    )
}

/// Answers a request. Every response carries the server's version.
pub fn http_handler(global_state: &mut GlobalState, request: &HttpRequest, version: &str) -> (outcome:
    Result<Reply, Fault>)
    requires
        old(global_state).wf(),
    ensures
        final(global_state).wf(),
        outcome_said(outcome) == versioned_outcome(
            request_outcome(*old(global_state), request@),
            version@,
        ),
        outcome matches Ok(reply) ==> reply@.headers.contains(("x-highway-version"@, version@)),
        admitted(*old(global_state), *final(global_state), outcome_said(outcome)),
{
    let checks = check_request(request, &global_state.config.admin_password_hash);
    answer_request(global_state, request, checks, version)
}

/// Answers a request, given what was looked up about it. Every response carries the
/// server's version.
pub fn answer_request(
    global_state: &mut GlobalState,
    request: &HttpRequest,
    checks: Checks,
    version: &str,
) -> (outcome: Result<Reply, Fault>)
    requires
        old(global_state).wf(),
    ensures
        final(global_state).wf(),
        outcome_said(outcome) == versioned_outcome(
            checked_outcome(
                *old(global_state),
                request@,
                checks.from_admin,
                string_said(checks.accept),
            ),
            version@,
        ),
        outcome matches Ok(reply) ==> reply@.headers.contains(("x-highway-version"@, version@)),
        admitted(*old(global_state), *final(global_state), outcome_said(outcome)),
{
    let mut reply = if is_for_websocket(request) {
        match answer_handshake(global_state, request, checks.from_admin, checks.accept) {
            Ok(reply) => reply,
            Err(fault) => {
                return Err(fault);
            },
        }
    } else if says(&request.method, "GET") && says(&request.path, "/metrics") {
        let allowed = match &global_state.config.metrics_token {
            Some(token) => match &request.authorization {
                Some(auth) => same_bytes(auth.as_slice(), token.as_str().as_bytes()),
                None => false,
            },
            None => true,
        };
        if allowed {
            let mut reply = bare_reply(200);
            reply.body = Body::Metrics;
            reply
        } else {
            bare_reply(403)
        }
    } else {
        bare_reply(404)
    };
    let ghost plain = reply@;
    reply.headers.push(("x-highway-version".to_owned(), version.to_owned()));
    assert(reply@.headers =~= plain.headers.push(("x-highway-version"@, version@)));
    assert(reply@.headers[plain.headers.len() as int] == ("x-highway-version"@, version@));
    Ok(reply)
}

} // verus!
