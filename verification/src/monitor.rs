//! Reporting of the view to a monitoring endpoint: where the endpoint is,
//! and the text that is sent to it. Sending is left to the caller.

use vstd::prelude::*;
use vstd::utf8::*;

verus! {

/// Whether views are reported where no configuration says otherwise.
pub const MONITORING_ENABLED: bool = true;

/// The endpoint to which views are reported.
pub const MONITORING_HOST: &'static str = "127.0.0.1:8080";

/// The path of the reports at the endpoint.
pub const MONITORING_CONTEXT: &'static str = "/peers";

/// What a monitoring configuration is: whether views are reported, and the
/// two parts of the url they are reported to.
pub struct MonitoringModel {
    pub enabled: bool,
    pub host: Seq<char>,
    pub context: Seq<char>,
}

/// Where and whether the views of a node are reported.
#[derive(Debug)]
pub struct MonitoringConfig {
    enabled: bool,
    host: String,
    context: String,
}

impl View for MonitoringConfig {
    type V = MonitoringModel;

    closed spec fn view(&self) -> MonitoringModel {
        MonitoringModel { enabled: self.enabled, host: self.host@, context: self.context@ }
    }
}

/// Where `://` first stands in the bytes; their length where it does not.
pub open spec fn scheme_mark(bytes: Seq<u8>) -> int
    decreases bytes.len(),
{
    if bytes.len() < 3 {
        bytes.len() as int
    } else if bytes[0] == 0x3A && bytes[1] == 0x2F && bytes[2] == 0x2F {
        0
    } else {
        1 + scheme_mark(bytes.drop_first())
    }
}

/// The bytes that follow the first `://`; all of them where there is none.
pub open spec fn after_scheme(bytes: Seq<u8>) -> Seq<u8> {
    if scheme_mark(bytes) + 3 <= bytes.len() {
        bytes.skip(scheme_mark(bytes) + 3)
    } else {
        bytes
    }
}

/// Where a url is cut in two: as many bytes from its start as stand between
/// the end of its scheme and the first `/` after it. Without such a `/`
/// the url is not cut.
pub open spec fn split_point(bytes: Seq<u8>) -> Option<int> {
    after_scheme(bytes).index_of_first(0x2F)
}

/// Whether the url can be cut where `split_point` says: not inside a
/// character.
pub open spec fn splits_at_boundary(url: Seq<char>) -> bool {
    match split_point(encode_utf8(url)) {
        Some(i) => is_char_boundary(encode_utf8(url), i),
        None => true,
    }
}

/// The host of a url: what stands before the split point, or all of it.
pub open spec fn host_part(url: Seq<char>) -> Seq<char> {
    match split_point(encode_utf8(url)) {
        Some(i) => decode_utf8(encode_utf8(url).take(i)),
        None => url,
    }
}

/// The context of a url: what stands from the split point on, or `/`.
pub open spec fn context_part(url: Seq<char>) -> Seq<char> {
    match split_point(encode_utf8(url)) {
        Some(i) => decode_utf8(encode_utf8(url).skip(i)),
        None => "/"@,
    }
}

/// The text of a digit.
pub open spec fn digit_text(d: nat) -> Seq<char> {
    if d == 0 {
        "0"@
    } else if d == 1 {
        "1"@
    } else if d == 2 {
        "2"@
    } else if d == 3 {
        "3"@
    } else if d == 4 {
        "4"@
    } else if d == 5 {
        "5"@
    } else if d == 6 {
        "6"@
    } else if d == 7 {
        "7"@
    } else if d == 8 {
        "8"@
    } else {
        "9"@
    }
}

/// A number in decimal digits.
pub open spec fn decimal(n: nat) -> Seq<char>
    decreases n,
{
    if n < 10 {
        digit_text(n)
    } else {
        decimal(n / 10) + digit_text(n % 10)
    }
}

/// An address between double quotes.
pub open spec fn quoted(address: Seq<char>) -> Seq<char> {
    "\""@ + address + "\""@
}

/// Addresses between double quotes, with commas between them.
pub open spec fn quoted_list(addresses: Seq<Seq<char>>) -> Seq<char>
    decreases addresses.len(),
{
    if addresses.len() == 0 {
        Seq::empty()
    } else if addresses.len() == 1 {
        quoted(addresses[0])
    } else {
        quoted_list(addresses.drop_last()) + ","@ + quoted(addresses.last())
    }
}

/// The report of a view: a JSON object with the address of the node, the
/// addresses of its peers in their order, and an empty list of messages.
pub open spec fn snapshot_text(id: Seq<char>, addresses: Seq<Seq<char>>) -> Seq<char> {
    "{\"id\":\""@ + id + "\",\"peers\":["@ + quoted_list(addresses) + "],\"messages\":[]}"@
}

/// The HTTP request that carries a report to the endpoint.
pub open spec fn request_text(json: Seq<char>) -> Seq<char> {
    "POST "@ + MONITORING_CONTEXT@ + " HTTP/1.1"@ + "\r\n"@ + "Host: "@ + MONITORING_HOST@ + "\r\n"@
        + "Accept: */*"@ + "\r\n"@ + "Content-Type: application/json; charset=UTF-8"@ + "\r\n"@
        + "Content-Length: "@ + decimal(encode_utf8(json).len()) + "\r\n"@ + "Connection: close"@
        + "\r\n"@ + "\r\n"@ + json
}

/// Where `://` first stands in the bytes; their length where it does not.
fn find_scheme_mark(bytes: &[u8]) -> (mark: usize)
    ensures
        mark == scheme_mark(bytes@),
{
    let n = bytes.len();
    let mut i: usize = 0;
    assert(bytes@.skip(0) =~= bytes@);
    while n >= 3 && i <= n - 3
        invariant
            n == bytes@.len(),
            i <= n,
            scheme_mark(bytes@) == i + scheme_mark(bytes@.skip(i as int)),
        decreases n - i,
    {
        if bytes[i] == 0x3A && bytes[i + 1] == 0x2F && bytes[i + 2] == 0x2F {
            return i;
        }
        assert(bytes@.skip(i as int).drop_first() =~= bytes@.skip(i + 1));
        i += 1;
    }
    n
}

/// Where the url with these bytes is cut in two, if it is.
fn find_split_point(bytes: &[u8]) -> (point: Option<usize>)
    ensures
        match point {
            Some(i) => split_point(bytes@) == Some(i as int) && i < bytes@.len(),
            None => split_point(bytes@) is None,
        },
{
    let n = bytes.len();
    let mark = find_scheme_mark(bytes);
    let start = if mark <= n && n - mark >= 3 {
        mark + 3
    } else {
        0
    };
    let ghost rest = after_scheme(bytes@);
    assert(rest =~= bytes@.skip(start as int));
    let mut j: usize = start;
    while j < n && bytes[j] != 0x2F
        invariant
            n == bytes@.len(),
            start <= j <= n,
            rest == bytes@.skip(start as int),
            forall|k: int| 0 <= k < j - start ==> rest[k] != 0x2F,
        decreases n - j,
    {
        j += 1;
    }
    proof {
        rest.index_of_first_ensures(0x2F);
    }
    if j < n {
        assert(rest[j - start] == 0x2F);
        Some(j - start)
    } else {
        None
    }
}

/// The text of a digit.
fn digit_str(d: usize) -> (text: &'static str)
    requires
        d < 10,
    ensures
        text@ == digit_text(d as nat),
{
    if d == 0 {
        "0"
    } else if d == 1 {
        "1"
    } else if d == 2 {
        "2"
    } else if d == 3 {
        "3"
    } else if d == 4 {
        "4"
    } else if d == 5 {
        "5"
    } else if d == 6 {
        "6"
    } else if d == 7 {
        "7"
    } else if d == 8 {
        "8"
    } else {
        "9"
    }
}

/// A number in decimal digits.
pub fn decimal_text(n: usize) -> (text: String)
    ensures
        text@ == decimal(n as nat),
{
    let mut text = String::from_str(digit_str(n % 10));
    let mut rest = n / 10;
    assert(Seq::<char>::empty() + text@ =~= text@);
    while rest > 0
        invariant
            decimal(n as nat) == if rest > 0 {
                decimal(rest as nat) + text@
            } else {
                text@
            },
        decreases rest,
    {
        let ghost low = text@;
        text = String::from_str(digit_str(rest % 10)).concat(text.as_str());
        proof {
            let d = digit_text((rest % 10) as nat);
            if rest >= 10 {
                assert(decimal((rest / 10) as nat) + (d + low) =~= (decimal((rest / 10) as nat)
                    + d) + low);
            }
        }
        rest = rest / 10;
    }
    text
}

/// The report of a view, as it is sent to the monitoring endpoint.
pub fn snapshot(id: &str, addresses: &Vec<String>) -> (json: String)
    ensures
        json@ == snapshot_text(id@, addresses.deep_view()),
{
    let ghost all = addresses.deep_view();
    let mut list = String::new();
    let mut i: usize = 0;
    assert(all.take(0) =~= Seq::empty());
    while i < addresses.len()
        invariant
            i <= addresses.len(),
            all == addresses.deep_view(),
            list@ == quoted_list(all.take(i as int)),
        decreases addresses.len() - i,
    {
        let ghost so_far = list@;
        if i > 0 {
            list.append(",");
        }
        list.append("\"");
        list.append(addresses[i].as_str());
        list.append("\"");
        proof {
            let next = all.take(i + 1);
            assert(next.drop_last() =~= all.take(i as int));
            assert(next.last() == addresses@[i as int]@);
            if i > 0 {
                assert(list@ =~= so_far + ","@ + quoted(next.last()));
            } else {
                assert(list@ =~= quoted(next[0]));
            }
        }
        i += 1;
    }
    assert(all.take(i as int) =~= all);
    let mut json = String::from_str("{\"id\":\"");
    json.append(id);
    json.append("\",\"peers\":[");
    json.append(list.as_str());
    json.append("],\"messages\":[]}");
    json
}

/// The HTTP request that carries a report to the monitoring endpoint: a
/// POST of the JSON text, after which the connection is closed.
pub fn post_request(json: &str) -> (request: String)
    ensures
        request@ == request_text(json@),
{
    let length = decimal_text(json.as_bytes().len());
    let mut request = String::from_str("POST ");
    request.append(MONITORING_CONTEXT);
    request.append(" HTTP/1.1");
    request.append("\r\n");
    request.append("Host: ");
    request.append(MONITORING_HOST);
    request.append("\r\n");
    request.append("Accept: */*");
    request.append("\r\n");
    request.append("Content-Type: application/json; charset=UTF-8");
    request.append("\r\n");
    request.append("Content-Length: ");
    request.append(length.as_str());
    request.append("\r\n");
    request.append("Connection: close");
    request.append("\r\n");
    request.append("\r\n");
    request.append(json);
    request
}

impl MonitoringConfig {
    /// Whether `new` takes the url: whether it can be cut where it should.
    pub fn accepts(url: &str) -> (accepted: bool)
        ensures
            accepted == splits_at_boundary(url@),
    {
        match find_split_point(url.as_bytes()) {
            Some(i) => url.is_char_boundary(i),
            None => true,
        }
    }

    /// The configuration for the given url. The url is cut in a host and a
    /// context at its split point; a url that is not cut is the host, and
    /// the context is `/`.
    pub fn new(enabled: bool, url: &str) -> (config: MonitoringConfig)
        requires
            splits_at_boundary(url@),
        ensures
            config@ == (MonitoringModel {
                enabled,
                host: host_part(url@),
                context: context_part(url@),
            }),
    {
        broadcast use {encode_utf8_decode_utf8, encode_utf8_valid_utf8};

        match find_split_point(url.as_bytes()) {
            Some(i) => {
                let (host, context) = url.split_at(i);
                proof {
                    let bytes = encode_utf8(url@);
                    assert(bytes.take(i as int) =~= bytes.subrange(0, i as int));
                    assert(bytes.skip(i as int) =~= bytes.subrange(i as int, bytes.len() as int));
                    assert(decode_utf8(encode_utf8(host@)) == host@);
                    assert(decode_utf8(encode_utf8(context@)) == context@);
                }
                MonitoringConfig { enabled, host: host.to_owned(), context: context.to_owned() }
            },
            None => MonitoringConfig { enabled, host: url.to_owned(), context: "/".to_owned() },
        }
    }

    /// Whether views are reported.
    pub fn enabled(&self) -> (enabled: bool)
        ensures
            enabled == self@.enabled,
    {
        self.enabled
    }

    /// The host part of the url.
    pub fn host(&self) -> (host: &str)
        ensures
            host@ == self@.host,
    {
        self.host.as_str()
    }

    /// The context part of the url.
    pub fn context(&self) -> (context: &str)
        ensures
            context@ == self@.context,
    {
        self.context.as_str()
    }
}

impl Default for MonitoringConfig {
    /// No reporting.
    fn default() -> (config: MonitoringConfig)
        ensures
            config@ == (MonitoringModel {
                enabled: false,
                host: Seq::empty(),
                context: Seq::empty(),
            }),
    {
        MonitoringConfig { enabled: false, host: String::new(), context: String::new() }
    }
}

impl Clone for MonitoringConfig {
    fn clone(&self) -> (config: MonitoringConfig)
        ensures
            config == *self,
    {
        MonitoringConfig {
            enabled: self.enabled,
            host: self.host.clone(),
            context: self.context.clone(),
        }
    }
}

} // verus!
