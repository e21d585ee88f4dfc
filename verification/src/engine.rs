//! The request engines: the simple engine repeats one operator-given
//! request; the S3 engine alternates PUTs and GETs of generated objects
//! under a traffic pattern, with optional checksum headers.

use crate::checksum::{digest_hex_of, Checksum};
use crate::duration_format::{dec_str, u128_to_string};
use crate::stream::{circular_slice, PerpetualByteStream, PerpetualByteStreamSupplier};
use crate::traffic::{state_model, TrafficPattern, TrafficState, TrafficStateMachine};
use crate::uri::UriProvider;
use vstd::prelude::*;
use vstd::string::StringExecFns;

verus! {

/// A load workload of a single request shape: the operator's method,
/// headers, and optional body, repeated verbatim.
pub struct SimpleEngine {
    pub method: String,
    pub headers: Vec<(String, String)>,
    pub body: Option<Vec<u8>>,
}

impl SimpleEngine {
    /// A short identifier used in logs.
    pub fn name(&self) -> (r: &'static str)
        ensures
            r@ == "simple"@,
    {
        "simple"
    }

    /// The number of body bytes each request declares: the body length,
    /// or zero without a body.
    pub fn declared_size(&self) -> (r: usize)
        ensures
            r == match self.body {
                Some(b) => b@.len() as int,
                None => 0int,
            },
    {
        match &self.body {
            Some(b) => b.len(),
            None => 0,
        }
    }
}

/// Everything one S3 request needs: the operation, its target, the
/// headers in order, the body stream for a PUT, and the declared body
/// size for bandwidth accounting.
pub struct S3RequestPlan {
    pub is_put: bool,
    pub uri: String,
    pub headers: Vec<(String, String)>,
    pub body: Option<PerpetualByteStream>,
    pub declared_size: usize,
}

/// Generates S3 traffic: PUTs stream generated payloads (with an optional
/// checksum header), GETs fetch them back; the traffic state machine
/// decides which comes next and against which URI.
pub struct S3Engine {
    pub stream_supplier: PerpetualByteStreamSupplier,
    pub object_size: usize,
    pub checksum_algo: Option<Checksum>,
    pub traffic_cop: TrafficStateMachine,
    pub last_traffic_state: Option<TrafficState>,
}

/// The headers of an S3 PUT, in the order they are attached: the checksum
/// header when an algorithm is configured, then the user agent, content
/// type, content length, and request date.
pub open spec fn spec_put_headers(
    checksum: Option<Checksum>,
    digest: Seq<char>,
    object_size: usize,
    amz_date: Seq<char>,
    user_agent: Seq<char>,
) -> Seq<(Seq<char>, Seq<char>)> {
    let tail = seq![
        ("User-Agent"@, user_agent),
        ("Content-Type"@, "application/octet-stream"@),
        ("Content-Length"@, dec_str(object_size as int)),
        ("X-Amz-Date"@, amz_date),
    ];
    match checksum {
        Some(c) => seq![(c.spec_header_name(), digest)] + tail,
        None => tail,
    }
}

/// The view of an exec header list.
pub open spec fn headers_view(h: Seq<(String, String)>) -> Seq<(Seq<char>, Seq<char>)> {
    h.map_values(|p: (String, String)| (p.0@, p.1@))
}

impl S3Engine {
    /// The supplier always produces streams of exactly `object_size`
    /// bytes, and the traffic machine is in a reachable state.
    pub open spec fn wf(&self) -> bool {
        &&& self.stream_supplier.wf()
        &&& self.stream_supplier.len == self.object_size
        &&& self.traffic_cop.wf()
    }

    /// A short identifier used in logs.
    pub fn name(&self) -> (r: &'static str)
        ensures
            r@ == "s3"@,
    {
        "s3"
    }

    pub fn new(
        stream_supplier: PerpetualByteStreamSupplier,
        uri_supplier: UriProvider,
        object_size: usize,
        checksum_algo: Option<Checksum>,
        traffic_pattern: TrafficPattern,
    ) -> (r: Self)
        requires
            stream_supplier.wf(),
            stream_supplier.len == object_size,
            uri_supplier.wf(),
        ensures
            r.wf(),
            r.object_size == object_size,
            r.checksum_algo == checksum_algo,
            r.traffic_cop.pattern == traffic_pattern,
            r.traffic_cop.emitted@.len() == 0,
            r.last_traffic_state is None,
    {
        S3Engine {
            stream_supplier,
            object_size,
            checksum_algo,
            traffic_cop: TrafficStateMachine::new(traffic_pattern, uri_supplier),
            last_traffic_state: None,
        }
    }

    /// Builds the next request: advances the traffic machine and, for a
    /// PUT, draws a payload stream (and its digest when a checksum is
    /// configured) from the supplier. The date and user agent come from
    /// the caller, which reads the clock and the environment.
    pub fn request(&mut self, amz_date: String, user_agent: String) -> (r: S3RequestPlan)
        requires
            old(self).wf(),
        ensures
            final(self).wf(),
            final(self).object_size == old(self).object_size,
            final(self).checksum_algo == old(self).checksum_algo,
            final(self).traffic_cop.pattern == old(self).traffic_cop.pattern,
            // The plan performs exactly the operation the machine emitted.
            final(self).traffic_cop.emitted@ == old(self).traffic_cop.emitted@.push(
                (r.is_put, r.uri@),
            ),
            final(self).last_traffic_state matches Some(st) && state_model(st) == (
                r.is_put,
                r.uri@,
            ),
            r.is_put ==> {
                &&& r.declared_size == old(self).object_size
                &&& r.body matches Some(b) && b.wf() && b.num_read == 0 && b.num_to_read == old(
                    self,
                ).object_size && b.full_contents() == circular_slice(
                    old(self).stream_supplier.buf@,
                    old(self).stream_supplier.offset as int,
                    old(self).object_size as nat,
                )
                &&& final(self).stream_supplier.buf@ == old(self).stream_supplier.buf@
                &&& final(self).stream_supplier.len == old(self).stream_supplier.len
                &&& final(self).stream_supplier.stride == old(self).stream_supplier.stride
                &&& final(self).stream_supplier.offset as int == (old(self).stream_supplier.offset
                    + old(self).stream_supplier.stride) % (
                old(self).stream_supplier.buf@.len() as int)
                &&& headers_view(r.headers@) == spec_put_headers(
                    old(self).checksum_algo,
                    match old(self).checksum_algo {
                        Some(c) => digest_hex_of(
                            c,
                            circular_slice(
                                old(self).stream_supplier.buf@,
                                old(self).stream_supplier.offset as int,
                                old(self).object_size as nat,
                            ),
                        ),
                        None => Seq::empty(),
                    },
                    old(self).object_size,
                    amz_date@,
                    user_agent@,
                )
            },
            !r.is_put ==> {
                &&& r.declared_size == 0
                &&& r.body is None
                &&& final(self).stream_supplier == old(self).stream_supplier
                &&& headers_view(r.headers@) == seq![
                    ("Accept"@, "application/octet-stream"@),
                ]
            },
    {
        let state = self.traffic_cop.next();
        let (is_put, uri) = match &state {
            TrafficState::Put { uri } => (true, uri.clone()),
            TrafficState::Get { uri } => (false, uri.clone()),
        };
        self.last_traffic_state = Some(state);
        if is_put {
            let mut headers: Vec<(String, String)> = Vec::new();
            let (stream, digest) = match &self.checksum_algo {
                None => (self.stream_supplier.new_stream(), None),
                Some(c) => {
                    let (stream, digest) = self.stream_supplier.new_stream_with_checksum(c);
                    (stream, Some((c.header_name(), digest)))
                },
            };
            proof {
                reveal_strlit("User-Agent");
                reveal_strlit("Content-Type");
                reveal_strlit("application/octet-stream");
                reveal_strlit("Content-Length");
                reveal_strlit("X-Amz-Date");
            }
            match digest {
                Some((name, d)) => {
                    headers.push((String::from_str(name), d));
                },
                None => {},
            }
            headers.push((String::from_str("User-Agent"), user_agent));
            headers.push((String::from_str("Content-Type"), String::from_str(
                "application/octet-stream",
            )));
            headers.push((String::from_str("Content-Length"), u128_to_string(
                self.object_size as u128,
            )));
            headers.push((String::from_str("X-Amz-Date"), amz_date));
            proof {
                assert(headers_view(headers@) =~= spec_put_headers(
                    self.checksum_algo,
                    match self.checksum_algo {
                        Some(c) => digest_hex_of(
                            c,
                            circular_slice(
                                old(self).stream_supplier.buf@,
                                old(self).stream_supplier.offset as int,
                                old(self).object_size as nat,
                            ),
                        ),
                        None => Seq::empty(),
                    },
                    self.object_size,
                    amz_date@,
                    user_agent@,
                ));
            }
            S3RequestPlan {
                is_put: true,
                uri,
                headers,
                body: Some(stream),
                declared_size: self.object_size,
            }
        } else {
            let mut headers: Vec<(String, String)> = Vec::new();
            proof {
                reveal_strlit("Accept");
                reveal_strlit("application/octet-stream");
            }
            headers.push((String::from_str("Accept"), String::from_str(
                "application/octet-stream",
            )));
            proof {
                assert(headers_view(headers@) =~= seq![
                    ("Accept"@, "application/octet-stream"@),
                ]);
            }
            S3RequestPlan { is_put: false, uri, headers, body: None, declared_size: 0 }
        }
    }

    /// Whether the drained response deserves a size warning: a successful
    /// GET whose body length differs from the object size.
    pub fn response_size_mismatch(&self, is_success: bool, bytes_read: usize) -> (r: bool)
        ensures
            r == (is_success && (self.last_traffic_state matches Some(TrafficState::Get { .. }))
                && bytes_read != self.object_size),
    {
        is_success && match &self.last_traffic_state {
            Some(TrafficState::Get { .. }) => bytes_read != self.object_size,
            _ => false,
        }
    }
}

} // verus!
