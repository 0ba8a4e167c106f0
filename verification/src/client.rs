//! The requests that a client of a server of buckets makes.
//!
//! Nothing here talks to a server. Each method of [`AwClient`] says what is to
//! be sent: the verb, the address and the parameters of the query. To send it,
//! and to read the answer, is left to the caller.

use crate::datatype::Dict;
use crate::datatype::Event;
use crate::datatype::Value;
use vstd::prelude::*;
use vstd::string::StringExecFns;

verus! {

/// What a server says of itself.
#[derive(Debug)]
pub struct Info {
    pub hostname: String,
    pub testing: bool,
    pub device_id: String,
}

/// How a request can fail.
#[derive(Debug)]
pub enum ClientError {
    /// The server has no bucket of this name.
    NoSuchBucket(String),
    /// The server answered with this status.
    StatusError(u16),
    /// Anything else, in words.
    UnknownError(String),
}

/// An instant: whole seconds from the Unix epoch, and nanoseconds beyond them.
#[derive(Clone, Copy, Debug, PartialEq, Eq, Structural)]
pub struct Instant {
    pub secs: i64,
    pub nanos: u32,
}

/// The verb of a request.
#[derive(Clone, Copy, Debug, PartialEq, Eq, Structural)]
pub enum Method {
    Get,
    Post,
    Delete,
}

/// One parameter of a query for events.
#[derive(Debug)]
pub enum QueryParam {
    /// `start`: no event that ends before this instant, written by RFC 3339.
    Start(String),
    /// `end`: no event that begins after this instant, written by RFC 3339.
    End(String),
    /// `limit`: no more events than this.
    Limit(u64),
}

/// The model of a [`QueryParam`].
pub enum ParamValue {
    Start(Seq<char>),
    End(Seq<char>),
    Limit(u64),
}

/// A request: what to send, and where.
#[derive(Debug)]
pub struct Request {
    pub method: Method,
    pub url: String,
    pub query: Vec<QueryParam>,
}

/// The model of a [`Request`].
pub struct RequestValue {
    pub method: Method,
    pub url: Seq<char>,
    pub query: Seq<ParamValue>,
}

/// A bucket as it is sent to a server that is to create it.
#[derive(Debug)]
pub struct NewBucket {
    pub bid: Option<i64>,
    pub id: String,
    pub bucket_type: String,
    pub client: String,
    pub hostname: String,
    pub created: Option<Instant>,
    pub data: Dict,
    pub metadata_start: Option<Instant>,
    pub metadata_end: Option<Instant>,
    pub events: Option<Vec<Event>>,
    pub last_updated: Option<Instant>,
}

impl NewBucket {
    /// Whether the bucket has these names and nothing else: no number, no
    /// data, no events, and no instant of its making, its change, its first
    /// or its last event.
    pub open spec fn is_new(
        &self,
        id: Seq<char>,
        bucket_type: Seq<char>,
        client: Seq<char>,
        hostname: Seq<char>,
    ) -> bool {
        &&& self.bid is None
        &&& self.id@ == id
        &&& self.bucket_type@ == bucket_type
        &&& self.client@ == client
        &&& self.hostname@ == hostname
        &&& self.created is None
        &&& self.data@ == Map::<Seq<char>, Value>::empty()
        &&& self.metadata_start is None
        &&& self.metadata_end is None
        &&& self.events is None
        &&& self.last_updated is None
    }
}

/// A client of one server, under its own name and that of its host.
#[derive(Debug)]
pub struct AwClient {
    pub baseurl: String,
    pub name: String,
    pub hostname: String,
}

impl View for QueryParam {
    type V = ParamValue;

    open spec fn view(&self) -> ParamValue {
        match self {
            QueryParam::Start(text) => ParamValue::Start(text@),
            QueryParam::End(text) => ParamValue::End(text@),
            QueryParam::Limit(n) => ParamValue::Limit(*n),
        }
    }
}

/// The models of a sequence of parameters, in order.
pub open spec fn params_of(params: Seq<QueryParam>) -> Seq<ParamValue> {
    params.map_values(|p: QueryParam| p@)
}

impl View for Request {
    type V = RequestValue;

    open spec fn view(&self) -> RequestValue {
        RequestValue { method: self.method, url: self.url@, query: params_of(self.query@) }
    }
}

impl Request {
    /// Whether the request has this verb, this address and these parameters.
    pub open spec fn asks(&self, method: Method, url: Seq<char>, query: Seq<ParamValue>) -> bool {
        &&& self.method == method
        &&& self.url@ =~= url
        &&& params_of(self.query@) =~= query
    }
}

/// The text of the instant that lies `secs` seconds and `nanos` nanoseconds
/// after the Unix epoch, written by RFC 3339 in the zone UTC; nothing where
/// the two make no instant.
pub uninterp spec fn rfc3339_text(secs: i64, nanos: u32) -> Option<Seq<char>>;

/// Writes an instant with chrono: `DateTime::from_timestamp` makes the
/// instant, or nothing where the seconds lie beyond the dates it holds or
/// the nanoseconds are no part of a second, and `DateTime::<Utc>::to_rfc3339`
/// writes it. The outcome depends on the two numbers alone; the contract
/// names it and says nothing else of it.
#[verifier::external_body]
fn rfc3339(secs: i64, nanos: u32) -> (r: Option<String>)
    ensures
        match r {
            Some(text) => rfc3339_text(secs, nanos) == Some(text@),
            None => rfc3339_text(secs, nanos) is None,
        },
{
    match chrono::DateTime::from_timestamp(secs, nanos) {
        Some(instant) => Some(instant.to_rfc3339()),
        None => None,
    }
}

/// The text of an instant that is given, where it has one.
pub open spec fn written(instant: Option<Instant>) -> Option<Seq<char>> {
    match instant {
        Some(at) => rfc3339_text(at.secs, at.nanos),
        None => None,
    }
}

/// Whether an instant, if one is given, can be written.
pub open spec fn writable(instant: Option<Instant>) -> bool {
    match instant {
        Some(at) => rfc3339_text(at.secs, at.nanos) is Some,
        None => true,
    }
}

/// The parameters of a query for events: of `start`, `end` and `limit` those
/// that are given, in this order.
pub open spec fn query_params(start: Option<Seq<char>>, end: Option<Seq<char>>, limit: Option<u64>) -> Seq<
    ParamValue,
> {
    let first = match start {
        Some(text) => seq![ParamValue::Start(text)],
        None => Seq::empty(),
    };
    let second = match end {
        Some(text) => first.push(ParamValue::End(text)),
        None => first,
    };
    match limit {
        Some(n) => second.push(ParamValue::Limit(n)),
        None => second,
    }
}

/// The text of an optional text.
pub open spec fn text_of(text: Option<String>) -> Option<Seq<char>> {
    match text {
        Some(text) => Some(text@),
        None => None,
    }
}

/// The parameters of a query for events, from instants that are written already.
pub fn query_of(start: Option<String>, end: Option<String>, limit: Option<u64>) -> (r: Vec<
    QueryParam,
>)
    ensures
        params_of(r@) == query_params(text_of(start), text_of(end), limit),
{
    let mut out: Vec<QueryParam> = Vec::new();
    match start {
        Some(text) => {
            out.push(QueryParam::Start(text));
        },
        None => {},
    }
    match end {
        Some(text) => {
            out.push(QueryParam::End(text));
        },
        None => {},
    }
    match limit {
        Some(n) => {
            out.push(QueryParam::Limit(n));
        },
        None => {},
    }
    assert(params_of(out@) =~= query_params(text_of(start), text_of(end), limit));
    out
}

/// Writes an instant that is given. The first part tells whether that
/// could be done, the second is the text.
fn write_instant(instant: Option<Instant>) -> (r: (bool, Option<String>))
    ensures
        r.0 == writable(instant),
        r.0 ==> text_of(r.1) == written(instant),
{
    match instant {
        Some(at) => match rfc3339(at.secs, at.nanos) {
            Some(text) => (true, Some(text)),
            None => (false, None),
        },
        None => (true, None),
    }
}

/// The parameters of a query for events between two instants; nothing
/// where one of the instants cannot be written.
pub fn events_query(start: Option<Instant>, end: Option<Instant>, limit: Option<u64>) -> (r: Option<
    Vec<QueryParam>,
>)
    ensures
        match r {
            Some(params) => writable(start) && writable(end) && params_of(params@)
                == query_params(written(start), written(end), limit),
            None => !(writable(start) && writable(end)),
        },
{
    let first = write_instant(start);
    let second = write_instant(end);
    if first.0 && second.0 {
        Some(query_of(first.1, second.1, limit))
    } else {
        None
    }
}

/// The decimal digit of a number below ten.
pub open spec fn digit(d: nat) -> char {
    if d == 0 {
        '0'
    } else if d == 1 {
        '1'
    } else if d == 2 {
        '2'
    } else if d == 3 {
        '3'
    } else if d == 4 {
        '4'
    } else if d == 5 {
        '5'
    } else if d == 6 {
        '6'
    } else if d == 7 {
        '7'
    } else if d == 8 {
        '8'
    } else {
        '9'
    }
}

/// The decimal digits of a natural number, without leading zeros.
pub open spec fn digits(n: nat) -> Seq<char>
    decreases n,
{
    if n < 10 {
        seq![digit(n)]
    } else {
        digits(n / 10).push(digit(n % 10))
    }
}

/// An integer written in decimal, with a minus sign where it is negative.
pub open spec fn decimal(n: int) -> Seq<char> {
    if n < 0 {
        seq!['-'] + digits((-n) as nat)
    } else {
        digits(n as nat)
    }
}

fn digit_text(d: u64) -> (r: &'static str)
    requires
        d < 10,
    ensures
        r@ == seq![digit(d as nat)],
{
    proof {
        reveal_strlit("0");
        reveal_strlit("1");
        reveal_strlit("2");
        reveal_strlit("3");
        reveal_strlit("4");
        reveal_strlit("5");
        reveal_strlit("6");
        reveal_strlit("7");
        reveal_strlit("8");
        reveal_strlit("9");
    }
    if d == 0 {
        "0"
    } else if d == 1 {
        "1"
    } else if d == 2 {
        "2"
    } else if d == 3 {
        "3"
    } else if d == 4 {
        "4"
    } else if d == 5 {
        "5"
    } else if d == 6 {
        "6"
    } else if d == 7 {
        "7"
    } else if d == 8 {
        "8"
    } else {
        "9"
    }
}

fn push_digits(text: &mut String, n: u64)
    ensures
        final(text)@ == old(text)@ + digits(n as nat),
    decreases n,
{
    if n >= 10 {
        push_digits(text, n / 10);
    }
    text.append(digit_text(n % 10));
}

/// Writes an integer in decimal.
pub fn decimal_text(n: i64) -> (r: String)
    ensures
        r@ == decimal(n as int),
{
    let mut text = String::new();
    if n < 0 {
        proof {
            reveal_strlit("-");
        }
        text.append("-");
        push_digits(&mut text, (-(n as i128)) as u64);
    } else {
        push_digits(&mut text, n as u64);
    }
    text
}

/// The address of the server on `host` at `port`.
pub open spec fn base_address(host: Seq<char>, port: Seq<char>) -> Seq<char> {
    "http://"@ + host + ":"@ + port
}

/// The address of all buckets.
pub open spec fn buckets_address(base: Seq<char>) -> Seq<char> {
    base + "/api/0/buckets/"@
}

/// The address of one bucket.
pub open spec fn bucket_address(base: Seq<char>, bucket: Seq<char>) -> Seq<char> {
    base + "/api/0/buckets/"@ + bucket
}

/// The address of the events of a bucket.
pub open spec fn events_address(base: Seq<char>, bucket: Seq<char>) -> Seq<char> {
    bucket_address(base, bucket) + "/events"@
}

/// The address of one event of a bucket.
pub open spec fn event_address(base: Seq<char>, bucket: Seq<char>, event_id: int) -> Seq<char> {
    events_address(base, bucket) + "/"@ + decimal(event_id)
}

/// The address of the number of events of a bucket.
pub open spec fn count_address(base: Seq<char>, bucket: Seq<char>) -> Seq<char> {
    events_address(base, bucket) + "/count"@
}

/// The address that takes a heartbeat for a bucket, with the pulse time as written.
pub open spec fn heartbeat_address(base: Seq<char>, bucket: Seq<char>, pulsetime: Seq<char>) -> Seq<
    char,
> {
    bucket_address(base, bucket) + "/heartbeat?pulsetime="@ + pulsetime
}

/// The address of what the server says of itself.
pub open spec fn info_address(base: Seq<char>) -> Seq<char> {
    base + "/api/0/info"@
}

/// The failure that the status of an answer about a bucket stands for: a
/// bucket that is not found is named, any other status is handed on.
pub open spec fn bucket_failure(status: u16, bucket: Seq<char>) -> ClientFailure {
    if status == 404 {
        ClientFailure::NoSuchBucket(bucket)
    } else {
        ClientFailure::StatusError(status)
    }
}

/// The model of a [`ClientError`].
pub enum ClientFailure {
    NoSuchBucket(Seq<char>),
    StatusError(u16),
    UnknownError(Seq<char>),
}

impl View for ClientError {
    type V = ClientFailure;

    open spec fn view(&self) -> ClientFailure {
        match self {
            ClientError::NoSuchBucket(name) => ClientFailure::NoSuchBucket(name@),
            ClientError::StatusError(status) => ClientFailure::StatusError(*status),
            ClientError::UnknownError(words) => ClientFailure::UnknownError(words@),
        }
    }
}

/// The failure to report for an answer about the bucket `bucketname` that
/// came with the status `status`.
pub fn status_failure(status: u16, bucketname: &str) -> (r: ClientError)
    ensures
        r@ == bucket_failure(status, bucketname@),
{
    if status == 404 {
        ClientError::NoSuchBucket(bucketname.to_owned())
    } else {
        ClientError::StatusError(status)
    }
}

impl AwClient {
    /// A client named `name`, on the host `hostname`, of the server on `host` at `port`.
    pub fn new(host: &str, port: &str, name: &str, hostname: String) -> (r: AwClient)
        ensures
            r.baseurl@ == base_address(host@, port@),
            r.name@ == name@,
            r.hostname@ == hostname@,
    {
        let mut baseurl = "http://".to_owned();
        baseurl.append(host);
        baseurl.append(":");
        baseurl.append(port);
        AwClient { baseurl, name: name.to_owned(), hostname }
    }

    fn bucket_url(&self, bucketname: &str) -> (r: String)
        ensures
            r@ == bucket_address(self.baseurl@, bucketname@),
    {
        let mut url = self.baseurl.clone();
        url.append("/api/0/buckets/");
        url.append(bucketname);
        url
    }

    fn events_url(&self, bucketname: &str) -> (r: String)
        ensures
            r@ == events_address(self.baseurl@, bucketname@),
    {
        let mut url = self.bucket_url(bucketname);
        url.append("/events");
        url
    }

    /// Asks for the bucket `bucketname`.
    pub fn get_bucket(&self, bucketname: &str) -> (r: Request)
        ensures
            r.asks(Method::Get, bucket_address(self.baseurl@, bucketname@), Seq::empty()),
    {
        Request { method: Method::Get, url: self.bucket_url(bucketname), query: Vec::new() }
    }

    /// Asks for all buckets.
    pub fn get_buckets(&self) -> (r: Request)
        ensures
            r.asks(Method::Get, buckets_address(self.baseurl@), Seq::empty()),
    {
        let mut url = self.baseurl.clone();
        url.append("/api/0/buckets/");
        Request { method: Method::Get, url, query: Vec::new() }
    }

    /// Creates the bucket `bucketname` of the type `buckettype`, as a bucket
    /// of this client on its host that holds nothing yet.
    pub fn create_bucket(&self, bucketname: &str, buckettype: &str) -> (r: (Request, NewBucket))
        ensures
            r.0.asks(Method::Post, bucket_address(self.baseurl@, bucketname@), Seq::empty()),
            r.1.is_new(bucketname@, buckettype@, self.name@, self.hostname@),
    {
        let data = NewBucket {
            bid: None,
            id: bucketname.to_owned(),
            client: self.name.clone(),
            bucket_type: buckettype.to_owned(),
            hostname: self.hostname.clone(),
            data: Dict::new(),
            metadata_start: None,
            metadata_end: None,
            events: None,
            created: None,
            last_updated: None,
        };
        (Request { method: Method::Post, url: self.bucket_url(bucketname), query: Vec::new() }, data)
    }

    /// Deletes the bucket `bucketname`.
    pub fn delete_bucket(&self, bucketname: &str) -> (r: Request)
        ensures
            r.asks(Method::Delete, bucket_address(self.baseurl@, bucketname@), Seq::empty()),
    {
        Request { method: Method::Delete, url: self.bucket_url(bucketname), query: Vec::new() }
    }

    /// Asks for the events of the bucket `bucketname` between two instants,
    /// and for no more than `limit` of them. There is no request where one
    /// of the instants cannot be written.
    pub fn get_events(
        &self,
        bucketname: &str,
        start: Option<Instant>,
        end: Option<Instant>,
        limit: Option<u64>,
    ) -> (r: Option<Request>)
        ensures
            match r {
                Some(request) => writable(start) && writable(end) && request.asks(
                    Method::Get,
                    events_address(self.baseurl@, bucketname@),
                    query_params(written(start), written(end), limit),
                ),
                None => !(writable(start) && writable(end)),
            },
    {
        match events_query(start, end, limit) {
            Some(query) => Some(
                Request { method: Method::Get, url: self.events_url(bucketname), query },
            ),
            None => None,
        }
    }

    /// Adds one event to the bucket `bucketname`: as a list of one event.
    pub fn insert_event(&self, bucketname: &str) -> (r: Request)
        ensures
            r.asks(Method::Post, events_address(self.baseurl@, bucketname@), Seq::empty()),
    {
        self.insert_events(bucketname)
    }

    /// Adds events to the bucket `bucketname`.
    pub fn insert_events(&self, bucketname: &str) -> (r: Request)
        ensures
            r.asks(Method::Post, events_address(self.baseurl@, bucketname@), Seq::empty()),
    {
        Request { method: Method::Post, url: self.events_url(bucketname), query: Vec::new() }
    }

    /// Sends a heartbeat to the bucket `bucketname`, with the pulse time as written.
    pub fn heartbeat(&self, bucketname: &str, pulsetime: &str) -> (r: Request)
        ensures
            r.asks(Method::Post, heartbeat_address(self.baseurl@, bucketname@, pulsetime@), Seq::empty()),
    {
        let mut url = self.bucket_url(bucketname);
        url.append("/heartbeat?pulsetime=");
        url.append(pulsetime);
        Request { method: Method::Post, url, query: Vec::new() }
    }

    /// Deletes the event `event_id` of the bucket `bucketname`.
    pub fn delete_event(&self, bucketname: &str, event_id: i64) -> (r: Request)
        ensures
            r.asks(Method::Delete, event_address(self.baseurl@, bucketname@, event_id as int), Seq::empty()),
    {
        let mut url = self.events_url(bucketname);
        url.append("/");
        let id = decimal_text(event_id);
        url.append(id.as_str());
        Request { method: Method::Delete, url, query: Vec::new() }
    }

    /// Asks how many events the bucket `bucketname` has between two
    /// instants. There is no request where one of the instants cannot be
    /// written.
    pub fn get_event_count(
        &self,
        bucketname: &str,
        start: Option<Instant>,
        end: Option<Instant>,
    ) -> (r: Option<Request>)
        ensures
            match r {
                Some(request) => writable(start) && writable(end) && request.asks(
                    Method::Get,
                    count_address(self.baseurl@, bucketname@),
                    query_params(written(start), written(end), None),
                ),
                None => !(writable(start) && writable(end)),
            },
    {
        match events_query(start, end, None) {
            Some(query) => {
                let mut url = self.events_url(bucketname);
                url.append("/count");
                Some(Request { method: Method::Get, url, query })
            },
            None => None,
        }
    }

    /// Asks the server what it says of itself.
    pub fn get_info(&self) -> (r: Request)
        ensures
            r.asks(Method::Get, info_address(self.baseurl@), Seq::empty()),
    {
        let mut url = self.baseurl.clone();
        url.append("/api/0/info");
        Request { method: Method::Get, url, query: Vec::new() }
    }
}

} // verus!
