//! A contestant's side of the protocol.
use crate::protocol::feed;
use crate::protocol::feed::PriceUpdate;
use crate::protocol::wire;
use crate::text;
use vstd::prelude::*;
use vstd::slice::slice_subrange;
use vstd::string::{StrSliceExecFns, StringExecFns};
use vstd::utf8;

verus! {

/// Whether `needle` stands in `hay` at `at`.
pub open spec fn stands_at<A>(hay: Seq<A>, needle: Seq<A>, at: int) -> bool {
    &&& 0 <= at
    &&& at + needle.len() <= hay.len()
    &&& forall|k: int| 0 <= k < needle.len() ==> hay[at + k] == #[trigger] needle[k]
}

/// Whether `r` is the first place at which `needle` stands in `hay`.
pub open spec fn is_first<A>(hay: Seq<A>, needle: Seq<A>, r: Option<usize>) -> bool {
    match r {
        Some(at) => stands_at(hay, needle, at as int) && forall|i: int|
            0 <= i < at ==> !#[trigger] stands_at(hay, needle, i),
        None => forall|i: int| !#[trigger] stands_at(hay, needle, i),
    }
}

/// Finds the first place at which `needle` stands in `hay`.
pub fn find(hay: &[u8], needle: &[u8]) -> (r: Option<usize>)
    requires
        needle@.len() > 0,
    ensures
        is_first(hay@, needle@, r),
{
    let n: usize = hay.len();
    let m: usize = needle.len();
    let mut at: usize = 0;
    while m <= n && at <= n - m
        invariant
            n == hay@.len(),
            m == needle@.len(),
            m > 0,
            m <= n ==> at <= n - m + 1,
            forall|i: int| 0 <= i < at ==> !#[trigger] stands_at(hay@, needle@, i),
        decreases n - at,
    {
        let mut k: usize = 0;
        while k < m && hay[at + k] == needle[k]
            invariant
                k <= m == needle@.len(),
                n == hay@.len(),
                at + m <= n,
                forall|j: int| 0 <= j < k ==> hay@[at + j] == #[trigger] needle@[j],
            decreases m - k,
        {
            k = k + 1;
        }
        if k == m {
            return Some(at);
        }
        assert(!stands_at(hay@, needle@, at as int)) by {
            assert(hay@[at + k] != needle@[k as int]);
        }
        at = at + 1;
    }
    assert forall|i: int| !#[trigger] stands_at(hay@, needle@, i) by {
        if 0 <= i && i + m <= n {
            assert(i < at);
        }
    }
    None
}

/// The place of the last `c` among the first `k` characters, or -1.
pub open spec fn last_at(s: Seq<char>, c: char, k: int) -> int
    decreases k,
{
    if k <= 0 {
        -1
    } else if s[k - 1] == c {
        k - 1
    } else {
        last_at(s, c, k - 1)
    }
}

/// What stands before and behind the last colon; `None` where there is no colon.
pub open spec fn split_at_colon(s: Seq<char>) -> Option<(Seq<char>, Seq<char>)> {
    let at = last_at(s, ':', s.len() as int);
    if at < 0 {
        None
    } else {
        Some((s.take(at), s.skip(at + 1)))
    }
}

/// What stands before and behind the last colon, with the colon between them, is the whole
/// address; there is no colon behind it, and none at all where there is nothing to split.
pub proof fn lemma_split_is(s: Seq<char>)
    ensures
        match split_at_colon(s) {
            Some((host, port)) => s == host.push(':') + port && !port.contains(':'),
            None => !s.contains(':'),
        },
{
    let n = s.len() as int;
    lemma_last_at(s, ':', n);
    let at = last_at(s, ':', n);
    if at >= 0 {
        assert(s =~= s.take(at).push(':') + s.skip(at + 1));
        let port = s.skip(at + 1);
        if port.contains(':') {
            let i = choose|i: int| 0 <= i < port.len() && port[i] == ':';
            assert(s[at + 1 + i] == ':');
        }
    } else if s.contains(':') {
        let i = choose|i: int| 0 <= i < s.len() && s[i] == ':';
        assert(s[i] == ':');
    }
}

proof fn lemma_last_at(s: Seq<char>, c: char, k: int)
    requires
        0 <= k <= s.len(),
    ensures
        -1 <= last_at(s, c, k) < k,
        last_at(s, c, k) >= 0 ==> s[last_at(s, c, k)] == c,
        forall|i: int| last_at(s, c, k) < i < k ==> #[trigger] s[i] != c,
    decreases k,
{
    if k > 0 && s[k - 1] != c {
        lemma_last_at(s, c, k - 1);
    }
}

/// A text stands in another where it is a part of it, and its first place is the one with
/// none before it.
pub proof fn lemma_stands_at_is<A>(hay: Seq<A>, needle: Seq<A>, at: int)
    ensures
        stands_at(hay, needle, at) <==> 0 <= at && at + needle.len() <= hay.len() && hay.subrange(
            at,
            at + needle.len(),
        ) == needle,
{
    if 0 <= at && at + needle.len() <= hay.len() {
        let part = hay.subrange(at, at + needle.len());
        if stands_at(hay, needle, at) {
            assert(part =~= needle);
        } else if part == needle {
            assert forall|k: int| 0 <= k < needle.len() implies hay[at + k] == #[trigger] needle[k] by {
                assert(part[k] == needle[k]);
            }
        }
    }
}

/// The first place of a text is one where it is a part, with none before it; where there is
/// no first place, there is none at all.
pub proof fn lemma_first_is<A>(hay: Seq<A>, needle: Seq<A>, r: Option<usize>, i: int)
    requires
        is_first(hay, needle, r),
        0 <= i,
        i + needle.len() <= hay.len(),
    ensures
        match r {
            Some(at) => {
                &&& at + needle.len() <= hay.len()
                &&& hay.subrange(at as int, at + needle.len()) == needle
                &&& i < at ==> hay.subrange(i, i + needle.len()) != needle
            },
            None => hay.subrange(i, i + needle.len()) != needle,
        },
{
    lemma_stands_at_is(hay, needle, i);
    if let Some(at) = r {
        lemma_stands_at_is(hay, needle, at as int);
    }
}

/// The header of a response ends with a blank line, its first line with a line end, and a
/// status of 200 stands between spaces.
pub proof fn lemma_response_marks()
    ensures
        line_end() == seq![13u8, 10u8],
        blank_line() == line_end() + line_end(),
        success_code() == " 200 "@,
{
    reveal_strlit(" 200 ");
    assert(blank_line() =~= line_end() + line_end());
    assert(success_code() =~= " 200 "@);
}

/// Splits an address into host and port, at the last colon.
pub fn split_address(addr: &str) -> (r: Option<(&str, &str)>)
    ensures
        match r {
            Some((host, port)) => split_at_colon(addr@) == Some((host@, port@)),
            None => split_at_colon(addr@) is None,
        },
{
    let n: usize = addr.unicode_len();
    let mut k: usize = n;
    while k > 0
        invariant
            k <= n == addr@.len(),
            last_at(addr@, ':', k as int) == last_at(addr@, ':', n as int),
        decreases k,
    {
        k = k - 1;
        if addr.get_char(k) == ':' {
            let host = addr.substring_char(0, k);
            let port = addr.substring_char(k + 1, n);
            assert(host@ =~= addr@.take(k as int));
            assert(port@ =~= addr@.skip(k + 1));
            return Some((host, port));
        }
    }
    None
}

/// Tells whether an IPv4 address that begins with the given octet is one of a multicast
/// group.
pub fn is_multicast(first_octet: u8) -> (r: bool)
    ensures
        r == (224 <= first_octet <= 239),
{
    224 <= first_octet && first_octet <= 239
}

/// The host of an address: what stands before its last colon, or all of it.
pub open spec fn host(addr: Seq<char>) -> Seq<char> {
    match split_at_colon(addr) {
        Some((host, _)) => host,
        None => addr,
    }
}

/// The text of a request.
pub open spec fn request_text(method: Seq<char>, path: Seq<char>, addr: Seq<char>) -> Seq<char> {
    method + " "@ + path + " HTTP/1.1\r\nHost: "@ + host(addr) + "\r\nConnection: close\r\n\r\n"@
}

/// Writes a request.
pub fn http_request(method: &str, path: &str, addr: &str) -> (r: String)
    ensures
        r@ == request_text(method@, path@, addr@),
{
    let mut r = String::from_str(method);
    r.append(" ");
    r.append(path);
    r.append(" HTTP/1.1\r\nHost: ");
    match split_address(addr) {
        Some((host, _)) => r.append(host),
        None => r.append(addr),
    }
    r.append("\r\nConnection: close\r\n\r\n");
    r
}

/// The host of an address with a port is all but the port and its colon; an address without
/// a colon is a host.
pub proof fn lemma_host_is(name: Seq<char>, port: Seq<char>)
    ensures
        !port.contains(':') ==> host(name.push(':') + port) == name,
        !name.contains(':') ==> host(name) == name,
{
    let addr = name.push(':') + port;
    lemma_split_is(addr);
    lemma_split_is(name);
    if let Some((before, behind)) = split_at_colon(name) {
        assert(name[before.len() as int] == ':');
    }
    assert(addr[name.len() as int] == ':');
    if let Some((before, behind)) = split_at_colon(addr) {
        assert(addr[before.len() as int] == ':');
        if !port.contains(':') {
            if before.len() > name.len() {
                assert(addr[before.len() as int] == port[before.len() - name.len() - 1]);
            } else if before.len() < name.len() {
                assert(addr[name.len() as int] == behind[name.len() - before.len() - 1]);
            }
            assert(before =~= addr.take(before.len() as int));
            assert(name =~= addr.take(name.len() as int));
        }
    }
}

/// A request begins with the method, the path and the version, names the host, asks for the
/// connection to be closed, and ends with a blank line.
pub proof fn lemma_request_is(method: Seq<char>, path: Seq<char>, name: Seq<char>, port: Seq<char>)
    requires
        !port.contains(':'),
    ensures
        request_text(method, path, name.push(':') + port) == method.push(' ') + path.push(' ') + seq![
            'H', 'T', 'T', 'P', '/', '1', '.', '1', '\r', '\n',
            'H', 'o', 's', 't', ':', ' ',
        ] + name + seq![
            '\r', '\n',
            'C', 'o', 'n', 'n', 'e', 'c', 't', 'i', 'o', 'n', ':', ' ',
            'c', 'l', 'o', 's', 'e', '\r', '\n', '\r', '\n',
        ],
{
    lemma_host_is(name, port);
    reveal_strlit(" ");
    reveal_strlit(" HTTP/1.1\r\nHost: ");
    reveal_strlit("\r\nConnection: close\r\n\r\n");
    assert(request_text(method, path, name.push(':') + port) =~= method.push(' ') + path.push(' ')
        + seq![
        'H', 'T', 'T', 'P', '/', '1', '.', '1', '\r', '\n',
        'H', 'o', 's', 't', ':', ' ',
    ] + name + seq![
        '\r', '\n',
        'C', 'o', 'n', 'n', 'e', 'c', 't', 'i', 'o', 'n', ':', ' ',
        'c', 'l', 'o', 's', 'e', '\r', '\n', '\r', '\n',
    ]);
}

/// The path that reports a contestant ready.
pub open spec fn ready_text(id: u64) -> Seq<char> {
    "/"@ + text::decimal(id as nat) + "/ready"@
}

/// Between its two slashes the path that reports a contestant ready has the id in decimal.
pub proof fn lemma_ready_path_is(id: u64)
    ensures
        ({
            let path = ready_text(id);
            let n = path.len() as int;
            &&& n >= 8
            &&& path[0] == '/'
            &&& text::value_of(path.subrange(1, n - 6)) == id
            &&& path.skip(n - 6) == seq!['/', 'r', 'e', 'a', 'd', 'y']
        }),
{
    reveal_strlit("/");
    reveal_strlit("/ready");
    text::lemma_decimal_reads_back(id as nat);
    let path = ready_text(id);
    let n = path.len() as int;
    assert(path.subrange(1, n - 6) =~= text::decimal(id as nat));
    assert(path.skip(n - 6) =~= seq!['/', 'r', 'e', 'a', 'd', 'y']);
}

/// Writes the path that reports a contestant ready.
pub fn ready_path(id: u64) -> (r: String)
    ensures
        r@ == ready_text(id),
{
    let mut r = String::from_str("/");
    text::push_decimal(&mut r, id as u128);
    r.append("/ready");
    r
}

/// What is wrong with a response.
#[derive(Debug, Clone)]
pub enum ResponseError {
    /// The header does not end.
    NoHeaderEnd,
    /// The status line does not say that all went well.
    BadStatus { status: String },
}

impl ResponseError {
    /// What the error says.
    pub open spec fn text(self) -> Seq<char> {
        match self {
            ResponseError::NoHeaderEnd => "no \\r\\n\\r\\n in response"@,
            ResponseError::BadStatus { status } => "bad HTTP status: "@ + status@,
        }
    }

    /// The error in words.
    pub fn message(&self) -> (r: String)
        ensures
            r@ == self.text(),
    {
        match self {
            ResponseError::NoHeaderEnd => String::from_str("no \\r\\n\\r\\n in response"),
            ResponseError::BadStatus { status } => {
                let mut r = String::from_str("bad HTTP status: ");
                r.append(status.as_str());
                r
            },
        }
    }
}

/// `std::str::from_utf8`: the text that bytes encode, where they are valid UTF-8.
#[verifier::external_body]
fn decode_text(bytes: &[u8]) -> (r: Option<String>)
    ensures
        match r {
            Some(s) => utf8::valid_utf8(bytes@) && s@ == utf8::decode_utf8(bytes@),
            None => !utf8::valid_utf8(bytes@),
        },
{
    match std::str::from_utf8(bytes) {
        Ok(s) => Some(String::from(s)),
        Err(_) => None,
    }
}

/// The end of a line.
pub open spec fn line_end() -> Seq<u8> {
    seq![13u8, 10u8]
}

/// The end of the header.
pub open spec fn blank_line() -> Seq<u8> {
    seq![13u8, 10u8, 13u8, 10u8]
}

/// What a status line holds where all went well.
pub open spec fn success_code() -> Seq<char> {
    seq![' ', '2', '0', '0', ' ']
}

/// The text of a status line, or a note that it is none.
pub open spec fn status_text(line: Seq<u8>) -> Seq<char> {
    if utf8::valid_utf8(line) {
        utf8::decode_utf8(line)
    } else {
        "(non-utf8 status)"@
    }
}

/// Whether a text holds the success code.
pub open spec fn succeeds(s: Seq<char>) -> bool {
    exists|i: int| stands_at(s, success_code(), i)
}

/// Tells whether a text holds the success code.
fn is_success(s: &str) -> (r: bool)
    ensures
        r == succeeds(s@),
{
    let n: usize = s.unicode_len();
    let mut i: usize = 0;
    while n >= 5 && i <= n - 5
        invariant
            n == s@.len(),
            n >= 5 ==> i <= n - 4,
            forall|j: int| 0 <= j < i ==> !#[trigger] stands_at(s@, success_code(), j),
        decreases n - i,
    {
        if s.get_char(i) == ' ' && s.get_char(i + 1) == '2' && s.get_char(i + 2) == '0'
            && s.get_char(i + 3) == '0' && s.get_char(i + 4) == ' ' {
            assert(stands_at(s@, success_code(), i as int));
            return true;
        }
        assert(!stands_at(s@, success_code(), i as int)) by {
            let c = success_code();
            assert(c[0] == ' ' && c[1] == '2' && c[2] == '0' && c[3] == '0' && c[4] == ' ');
            if stands_at(s@, c, i as int) {
                assert(s@[i + 0] == c[0]);
                assert(s@[i + 1] == c[1]);
                assert(s@[i + 2] == c[2]);
                assert(s@[i + 3] == c[3]);
                assert(s@[i + 4] == c[4]);
            }
        }
        i = i + 1;
    }
    assert forall|j: int| !#[trigger] stands_at(s@, success_code(), j) by {
        if 0 <= j && j + 5 <= n {
            assert(j < i);
        }
    }
    false
}

/// Takes the body off a response. Fails where the header does not end, or where the status
/// line is not that of a success.
pub fn parse_response(raw: &[u8]) -> (r: Result<Vec<u8>, ResponseError>)
    ensures
        match r {
            Ok(body) => exists|head: usize, line: usize|
                {
                    &&& #[trigger] is_first(raw@, blank_line(), Some(head))
                    &&& #[trigger] is_first(raw@, line_end(), Some(line))
                    &&& succeeds(status_text(raw@.take(line as int)))
                    &&& body@ == raw@.skip(head + 4)
                },
            Err(ResponseError::NoHeaderEnd) => is_first(raw@, blank_line(), None),
            Err(ResponseError::BadStatus { status }) => !is_first(raw@, blank_line(), None)
                && exists|line: usize| #[trigger]
                is_first(raw@, line_end(), Some(line)) && status@ == status_text(
                    raw@.take(line as int),
                ) && !succeeds(status@),
        },
{
    let blank: [u8; 4] = [13, 10, 13, 10];
    let end: [u8; 2] = [13, 10];
    assert(blank@ =~= blank_line());
    assert(end@ =~= line_end());
    let head: usize = match find(raw, blank.as_slice()) {
        Some(at) => at,
        None => return Err(ResponseError::NoHeaderEnd),
    };
    assert(stands_at(raw@, line_end(), head as int)) by {
        let b = blank_line();
        assert(raw@[head + 0] == b[0]);
        assert(raw@[head + 1] == b[1]);
    }
    let line: usize = match find(raw, end.as_slice()) {
        Some(at) => at,
        None => 0,
    };
    let status_line = slice_subrange(raw, 0, line);
    assert(status_line@ =~= raw@.take(line as int));
    let status = match decode_text(status_line) {
        Some(text) => text,
        None => String::from_str("(non-utf8 status)"),
    };
    if !is_success(status.as_str()) {
        return Err(ResponseError::BadStatus { status });
    }
    let len: usize = raw.len();
    let mut body: Vec<u8> = Vec::new();
    let mut i: usize = head + 4;
    while i < len
        invariant
            head + 4 <= i <= len == raw@.len(),
            body@ == raw@.subrange(head + 4, i as int),
        decreases len - i,
    {
        body.push(raw[i]);
        i = i + 1;
        assert(body@ =~= raw@.subrange(head + 4, i as int));
    }
    assert(body@ =~= raw@.skip(head + 4));
    Ok(body)
}

/// Reads the id off the answer to a registration; `None` where the answer is too short.
pub fn registered_id(body: &[u8]) -> (r: Option<u64>)
    ensures
        r == if body@.len() < 8 {
            None
        } else {
            Some(wire::u64_at(body@, 0))
        },
{
    if body.len() < 8 {
        return None;
    }
    Some(wire::get_u64(body, 0))
}

/// What is said of a packet of the feed.
pub open spec fn packet_text(received: u64, packet: Seq<u8>) -> Seq<char> {
    let head = "[example-bot] tick #"@ + text::decimal(received as nat);
    if packet.len() < PriceUpdate::WIRE_SIZE {
        head + ": short packet ("@ + text::decimal(packet.len()) + " bytes)"@
    } else {
        let u = feed::update_at(packet);
        head + ": seq="@ + text::decimal(u.seq as nat) + " pair_id="@ + text::decimal(
            u.token_pair_id as nat,
        ) + " price="@ + text::decimal(u.price as nat) + " volume="@ + text::decimal(
            u.volume as nat,
        )
    }
}

/// Describes a packet of the feed, after `received` whole ones. Tells whether it is whole.
pub fn describe_packet(received: u64, packet: &[u8]) -> (r: (String, bool))
    ensures
        r.0@ == packet_text(received, packet@),
        r.1 == (packet@.len() >= PriceUpdate::WIRE_SIZE),
{
    let mut r = String::from_str("[example-bot] tick #");
    text::push_decimal(&mut r, received as u128);
    match PriceUpdate::from_bytes(packet) {
        None => {
            r.append(": short packet (");
            text::push_decimal(&mut r, packet.len() as u128);
            r.append(" bytes)");
            (r, false)
        },
        Some(u) => {
            r.append(": seq=");
            text::push_decimal(&mut r, u.seq as u128);
            r.append(" pair_id=");
            text::push_decimal(&mut r, u.token_pair_id as u128);
            r.append(" price=");
            text::push_decimal(&mut r, u.price as u128);
            r.append(" volume=");
            text::push_decimal(&mut r, u.volume as u128);
            (r, true)
        },
    }
}

} // verus!
