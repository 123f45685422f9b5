//! WebSocket protocol toolkit: frame encoding and decoding, masking,
//! message fragmentation, handshake checks and extension negotiation.

pub mod buffer;
pub mod codec;
pub mod connector;
pub mod errors;
pub mod frame;
pub mod message;
pub mod protocol;
pub mod proxy;
pub mod strings;

pub use message::{Message, StrMessage};

use vstd::prelude::*;
use crate::protocol::{prepare_handshake, request_text, handshake_lines, base64_text, pair_views};
use crate::strings::views;

verus! {

/// `headers` with `value` under `name`: the first entry with that name gets
/// the value, else the pair is appended
pub open spec fn insert_pair(
    headers: Seq<(Seq<char>, Seq<char>)>,
    name: Seq<char>,
    value: Seq<char>,
) -> Seq<(Seq<char>, Seq<char>)>
    decreases headers.len(),
{
    if headers.len() == 0 {
        seq![(name, value)]
    } else if headers[0].0 == name {
        headers.update(0, (name, value))
    } else {
        seq![headers[0]] + insert_pair(headers.drop_first(), name, value)
    }
}

/// helper builder to construct websocket client
#[derive(Debug, Clone)]
pub struct ClientBuilder {
    protocols: Vec<String>,
    extensions: Vec<String>,
    version: u8,
    headers: Vec<(String, String)>,
}

impl ClientBuilder {
    /// the protocols, in order
    pub closed spec fn spec_protocols(self) -> Seq<Seq<char>> {
        views(self.protocols@)
    }

    /// the extensions, in order
    pub closed spec fn spec_extensions(self) -> Seq<Seq<char>> {
        views(self.extensions@)
    }

    /// the websocket version
    pub closed spec fn spec_version(self) -> u8 {
        self.version
    }

    /// the extra request headers, in order
    pub closed spec fn spec_headers(self) -> Seq<(Seq<char>, Seq<char>)> {
        pair_views(self.headers@)
    }
}

impl Default for ClientBuilder {
    fn default() -> (r: Self)
        ensures
            r.spec_protocols() == Seq::<Seq<char>>::empty(),
            r.spec_extensions() == Seq::<Seq<char>>::empty(),
            r.spec_headers() == Seq::<(Seq<char>, Seq<char>)>::empty(),
            r.spec_version() == 13,
    {
        let r = Self { protocols: Vec::new(), extensions: Vec::new(), headers: Vec::new(), version: 13 };
        assert(r.spec_protocols() =~= Seq::<Seq<char>>::empty());
        assert(r.spec_extensions() =~= Seq::<Seq<char>>::empty());
        assert(r.spec_headers() =~= Seq::<(Seq<char>, Seq<char>)>::empty());
        r
    }
}

impl ClientBuilder {
    /// create builder with websocket url
    pub fn new() -> (r: Self)
        ensures
            r.spec_protocols() == Seq::<Seq<char>>::empty(),
            r.spec_extensions() == Seq::<Seq<char>>::empty(),
            r.spec_headers() == Seq::<(Seq<char>, Seq<char>)>::empty(),
            r.spec_version() == 13,
    {
        Self::default()
    }

    /// add protocols
    pub fn protocol(self, protocol: String) -> (r: Self)
        ensures
            r.spec_protocols() == self.spec_protocols().push(protocol@),
            r.spec_extensions() == self.spec_extensions(),
            r.spec_headers() == self.spec_headers(),
            r.spec_version() == self.spec_version(),
    {
        let mut s = self;
        let ghost p0 = s.protocols@;
        s.protocols.push(protocol);
        assert(views(s.protocols@) =~= views(p0).push(protocol@));
        s
    }

    /// set protocols in handshake http header
    ///
    /// **NOTE** it will clear protocols set by `protocol` method
    pub fn protocols(self, protocols: Vec<String>) -> (r: Self)
        ensures
            r.spec_protocols() == views(protocols@),
            r.spec_extensions() == self.spec_extensions(),
            r.spec_headers() == self.spec_headers(),
            r.spec_version() == self.spec_version(),
    {
        Self { protocols, ..self }
    }

    /// add extension
    pub fn extension(self, extension: String) -> (r: Self)
        ensures
            r.spec_extensions() == self.spec_extensions().push(extension@),
            r.spec_protocols() == self.spec_protocols(),
            r.spec_headers() == self.spec_headers(),
            r.spec_version() == self.spec_version(),
    {
        let mut s = self;
        let ghost e0 = s.extensions@;
        s.extensions.push(extension);
        assert(views(s.extensions@) =~= views(e0).push(extension@));
        s
    }

    /// set extension in handshake http header
    ///
    /// **NOTE** it will clear extensions set by `extension` method
    pub fn extensions(self, extensions: Vec<String>) -> (r: Self)
        ensures
            r.spec_extensions() == views(extensions@),
            r.spec_protocols() == self.spec_protocols(),
            r.spec_headers() == self.spec_headers(),
            r.spec_version() == self.spec_version(),
    {
        Self { extensions, ..self }
    }

    /// set websocket version, default 13
    pub fn version(self, version: u8) -> (r: Self)
        ensures
            r.spec_version() == version,
            r.spec_protocols() == self.spec_protocols(),
            r.spec_extensions() == self.spec_extensions(),
            r.spec_headers() == self.spec_headers(),
    {
        Self { version, ..self }
    }

    /// add initial request header; a header of the same name gets the new value
    pub fn header(self, name: String, value: String) -> (r: Self)
        ensures
            r.spec_headers() == insert_pair(self.spec_headers(), name@, value@),
            r.spec_protocols() == self.spec_protocols(),
            r.spec_extensions() == self.spec_extensions(),
            r.spec_version() == self.spec_version(),
    {
        let mut s = self;
        let ghost h0 = pair_views(s.headers@);
        let n = s.headers.len();
        let mut i: usize = 0;
        assert(h0.skip(0) =~= h0);
        assert(h0.take(0) + insert_pair(h0, name@, value@) =~= insert_pair(h0, name@, value@));
        while i < n
            invariant
                i <= n == s.headers@.len(),
                h0 == pair_views(s.headers@),
                h0 == self.spec_headers(),
                views(s.protocols@) == self.spec_protocols(),
                views(s.extensions@) == self.spec_extensions(),
                s.version == self.spec_version(),
                forall|j: int| 0 <= j < i ==> s.headers@[j].0@ != name@,
                insert_pair(h0, name@, value@) == h0.take(i as int) + insert_pair(h0.skip(i as int), name@, value@),
            decreases n - i,
        {
            assert(h0.skip(i as int)[0] == h0[i as int]);
            assert(h0.skip(i as int).drop_first() =~= h0.skip(i + 1));
            if s.headers[i].0 == name {
                s.headers.set(i, (name, value));
                assert(insert_pair(h0.skip(i as int), name@, value@) == h0.skip(i as int).update(0, (name@, value@)));
                assert(pair_views(s.headers@) =~= h0.take(i as int) + h0.skip(i as int).update(0, (name@, value@)));
                return s;
            }
            assert(h0.take(i as int) + (seq![h0[i as int]] + insert_pair(h0.skip(i + 1), name@, value@))
                =~= h0.take(i + 1) + insert_pair(h0.skip(i + 1), name@, value@));
            i += 1;
        }
        s.headers.push((name, value));
        assert(h0.skip(i as int) =~= Seq::<(Seq<char>, Seq<char>)>::empty());
        assert(h0.take(i as int) =~= h0);
        assert(pair_views(s.headers@) =~= insert_pair(h0, name@, value@));
        s
    }

    /// set initial request headers
    ///
    /// **NOTE** it will clear header set by previous `header` method
    pub fn headers(self, headers: Vec<(String, String)>) -> (r: Self)
        ensures
            r.spec_headers() == pair_views(headers@),
            r.spec_protocols() == self.spec_protocols(),
            r.spec_extensions() == self.spec_extensions(),
            r.spec_version() == self.spec_version(),
    {
        Self { headers, ..self }
    }

    /// the key and the text of the handshake request this builder sends to
    /// `host`, `port` (when the uri names one) and `path`
    pub fn handshake_request(&self, host: &str, port: Option<u16>, path: &str) -> (r: (String, String))
        ensures
            exists|b: Seq<u8>| b.len() == 16 && r.0@ == #[trigger] base64_text(b),
            r.1@ == request_text(
                path@,
                handshake_lines(
                    r.0@,
                    host@,
                    port,
                    self.spec_version(),
                    self.spec_protocols(),
                    self.spec_extensions(),
                    self.spec_headers(),
                ),
            ),
    {
        prepare_handshake(
            self.protocols.as_slice(),
            self.extensions.as_slice(),
            self.headers.as_slice(),
            host,
            port,
            path,
            self.version,
        )
    }
}

/// helper struct to config & construct websocket server
pub struct ServerBuilder {}

} // verus!
