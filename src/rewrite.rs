use vstd::prelude::*;
use vstd::string::*;
use crate::headers::{
    disguise_name, header_map, insert_header, is_disguised, lemma_disguised_name, marker_seq,
    names_unique, undisguised,
};
use crate::uri::{parse_uri_host, uri_host};

verus! {

/// Name of the header that carries the destination a request was signed for.
pub const SIDE_CHANNEL_HEADER: &'static str = "x-uri";

pub open spec fn side_channel_seq() -> Seq<char> {
    seq!['x', '-', 'u', 'r', 'i']
}

/// The exec form of the side-channel header name.
pub fn side_channel_header() -> (r: String)
    ensures
        r@ == side_channel_seq(),
{
    proof {
        reveal_strlit("x-uri");
    }
    assert(SIDE_CHANNEL_HEADER@ =~= side_channel_seq());
    String::from_str(SIDE_CHANNEL_HEADER)
}

/// A signed request about to be transmitted: its target and its headers.
pub struct OutboundRequest {
    pub uri: String,
    pub headers: Vec<(String, String)>,
}

impl OutboundRequest {
    pub open spec fn wf(&self) -> bool {
        names_unique(self.headers@)
    }

    pub open spec fn header_view(&self) -> Map<Seq<char>, Seq<char>> {
        header_map(self.headers@)
    }
}

/// Why a request could not be rewritten.
#[derive(Debug, PartialEq, Eq, Structural)]
pub enum RewriteError {
    /// The proxy destination is not a valid URI.
    InvalidProxyUri,
}

/// Every header of `m`, renamed with the disguise marker.
pub open spec fn disguise_all(m: Map<Seq<char>, Seq<char>>) -> Map<Seq<char>, Seq<char>> {
    Map::new(
        |k: Seq<char>| is_disguised(k) && m.contains_key(undisguised(k)),
        |k: Seq<char>| m[undisguised(k)],
    )
}

/// Adds one fixed header to every request before it is signed.
pub struct HeaderInterceptor {
    name: String,
    value: String,
}

impl View for HeaderInterceptor {
    type V = (Seq<char>, Seq<char>);

    closed spec fn view(&self) -> (Seq<char>, Seq<char>) {
        (self.name@, self.value@)
    }
}

impl HeaderInterceptor {
    pub fn new(name: String, value: String) -> (r: Self)
        ensures
            r@ == (name@, value@),
    {
        HeaderInterceptor { name, value }
    }

    /// Sets the interceptor's header on `request`.
    pub fn modify_before_retry_loop(&self, request: &mut OutboundRequest)
        requires
            old(request).wf(),
        ensures
            final(request).wf(),
            final(request).uri == old(request).uri,
            final(request).header_view() == old(request).header_view().insert(self@.0, self@.1),
    {
        insert_header(&mut request.headers, self.name.clone(), self.value.clone());
    }
}

/// Redirects a signed request to a proxy, keeping its signed destination in
/// the side-channel header and adding the proxy's own authorization header.
pub struct ProxyInterceptor {
    proxy_uri: String,
    auth_header_name: String,
    auth_header_value: String,
}

impl View for ProxyInterceptor {
    type V = (Seq<char>, Seq<char>, Seq<char>);

    closed spec fn view(&self) -> (Seq<char>, Seq<char>, Seq<char>) {
        (self.proxy_uri@, self.auth_header_name@, self.auth_header_value@)
    }
}

impl ProxyInterceptor {
    pub fn new(value: String, auth_header_name: String, auth_header_value: String) -> (r: Self)
        ensures
            r@ == (value@, auth_header_name@, auth_header_value@),
    {
        ProxyInterceptor { proxy_uri: value, auth_header_name, auth_header_value }
    }

    /// Points `request` at the proxy. Fails, leaving it untouched, when the
    /// proxy destination is not a valid URI.
    pub fn modify_before_transmit(&self, request: &mut OutboundRequest) -> (r: Result<
        (),
        RewriteError,
    >)
        requires
            old(request).wf(),
        ensures
            final(request).wf(),
            r is Ok <==> uri_host(self@.0) is Some,
            r is Ok ==> final(request).uri@ == self@.0 && final(request).header_view()
                == old(request).header_view().insert(side_channel_seq(), old(request).uri@).insert(
                self@.1,
                self@.2,
            ),
            r is Err ==> *final(request) == *old(request),
    {
        if parse_uri_host(self.proxy_uri.as_str()).is_none() {
            return Err(RewriteError::InvalidProxyUri);
        }
        let requested = request.uri.clone();
        request.uri = self.proxy_uri.clone();
        insert_header(&mut request.headers, side_channel_header(), requested);
        insert_header(
            &mut request.headers,
            self.auth_header_name.clone(),
            self.auth_header_value.clone(),
        );
        Ok(())
    }
}

/// Redirects a signed request to a proxy behind a relay that rewrites
/// headers: besides recording the signed destination, it disguises every
/// header so that the proxy can recover them intact.
pub struct ProxyInterceptorForLambda {
    proxy_uri: String,
}

impl View for ProxyInterceptorForLambda {
    type V = Seq<char>;

    closed spec fn view(&self) -> Seq<char> {
        self.proxy_uri@
    }
}

/// Renaming each header of a list with the marker renames every entry of the
/// mapping it denotes.
proof fn lemma_disguise_list(hs: Seq<(String, String)>, out: Seq<(String, String)>)
    requires
        out.len() == hs.len(),
        forall|i: int| 0 <= i < hs.len() ==> #[trigger] out[i].0@ == marker_seq() + hs[i].0@
            && out[i].1@ == hs[i].1@,
    ensures
        header_map(out) == disguise_all(header_map(hs)),
    decreases hs.len(),
{
    if hs.len() == 0 {
        assert(header_map(out) =~= disguise_all(header_map(hs)));
    } else {
        let hp = hs.drop_last();
        let op = out.drop_last();
        assert forall|i: int| 0 <= i < hp.len() implies #[trigger] op[i].0@ == marker_seq()
            + hp[i].0@ && op[i].1@ == hp[i].1@ by {
            assert(op[i] == out[i] && hp[i] == hs[i]);
        }
        lemma_disguise_list(hp, op);
        let k = hs.last().0@;
        assert(out.last() == out[out.len() - 1]);
        assert(hs.last() == hs[hs.len() - 1]);
        lemma_disguised_name(k);
        assert forall|x: Seq<char>| is_disguised(x) implies x == marker_seq() + undisguised(x) by {
            assert(x =~= marker_seq() + undisguised(x));
        }
        assert(header_map(out) =~= disguise_all(header_map(hs)));
    }
}

impl ProxyInterceptorForLambda {
    pub fn new(value: String) -> (r: Self)
        ensures
            r@ == value@,
    {
        ProxyInterceptorForLambda { proxy_uri: value }
    }

    /// Points `request` at the proxy, records its signed destination, then
    /// disguises every header. Fails, leaving it untouched, when the proxy
    /// destination is not a valid URI.
    pub fn modify_before_transmit(&self, request: &mut OutboundRequest) -> (r: Result<
        (),
        RewriteError,
    >)
        requires
            old(request).wf(),
        ensures
            final(request).wf(),
            r is Ok <==> uri_host(self@) is Some,
            r is Ok ==> final(request).uri@ == self@ && final(request).header_view()
                == disguise_all(
                old(request).header_view().insert(side_channel_seq(), old(request).uri@),
            ),
            r is Err ==> *final(request) == *old(request),
    {
        if parse_uri_host(self.proxy_uri.as_str()).is_none() {
            return Err(RewriteError::InvalidProxyUri);
        }
        let requested = request.uri.clone();
        request.uri = self.proxy_uri.clone();
        insert_header(&mut request.headers, side_channel_header(), requested);
        let mut renamed: Vec<(String, String)> = Vec::new();
        let mut i: usize = 0;
        while i < request.headers.len()
            invariant
                i <= request.headers@.len(),
                renamed@.len() == i,
                forall|j: int| 0 <= j < i ==> #[trigger] renamed@[j].0@ == marker_seq()
                    + request.headers@[j].0@ && renamed@[j].1@ == request.headers@[j].1@,
            decreases request.headers@.len() - i,
        {
            let name = disguise_name(&request.headers[i].0);
            let value = request.headers[i].1.clone();
            renamed.push((name, value));
            i = i + 1;
        }
        proof {
            let hs = request.headers@;
            let out = renamed@;
            lemma_disguise_list(hs, out);
            assert forall|a: int, b: int| 0 <= a < b < out.len() implies out[a].0@ != out[b].0@ by {
                if out[a].0@ == out[b].0@ {
                    assert(hs[a].0@ =~= out[a].0@.subrange(7, out[a].0@.len() as int));
                    assert(hs[b].0@ =~= out[b].0@.subrange(7, out[b].0@.len() as int));
                }
            }
        }
        request.headers = renamed;
        Ok(())
    }
}

} // verus!
