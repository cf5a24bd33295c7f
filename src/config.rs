//! Validation of a run's settings and the headers sent with every request.

use vstd::prelude::*;
use vstd::utf8::{encode_utf8, encode_utf8_valid_utf8, is_char_boundary, is_char_boundary_iff_not_is_continuation_byte, length_of_first_scalar};
use vstd::string::StringSliceAdditionalSpecFns;

verus! {

/// A setting that makes the run impossible; nothing is dispatched.
#[derive(Clone, Copy, Debug, PartialEq, Eq, Structural)]
pub enum ConfigError {
    /// `-a` is not of the form `USERNAME:PASSWORD`.
    InvalidAuth,
    /// `-x` is not of the form `HOST:PORT` with a decimal port.
    InvalidProxy,
    /// The number of requests is negative.
    InvalidCount,
    /// The worker pool would have no worker.
    InvalidConcurrency,
}

pub const COLON: u8 = 58;

/// Number of occurrences of byte `c` in `s`.
pub open spec fn count_byte(s: Seq<u8>, c: u8) -> nat
    decreases s.len(),
{
    if s.len() == 0 {
        0
    } else {
        count_byte(s.drop_last(), c) + (if s.last() == c {
            1nat
        } else {
            0nat
        })
    }
}

/// `s` splits at its only colon into `a` and `b`.
pub open spec fn splits_at_colon(s: Seq<u8>, a: Seq<u8>, b: Seq<u8>) -> bool {
    &&& count_byte(s, COLON) == 1
    &&& s == a + seq![COLON] + b
}

proof fn lemma_count_byte_prefix(s: Seq<u8>, i: int)
    requires
        0 <= i < s.len(),
    ensures
        count_byte(s.take(i + 1), COLON) == count_byte(s.take(i), COLON) + (if s[i] == COLON {
            1nat
        } else {
            0nat
        }),
{
    assert(s.take(i + 1).drop_last() =~= s.take(i));
}

proof fn lemma_count_byte_concat(a: Seq<u8>, b: Seq<u8>)
    ensures
        count_byte(a + b, COLON) == count_byte(a, COLON) + count_byte(b, COLON),
    decreases b.len(),
{
    if b.len() > 0 {
        assert((a + b).drop_last() =~= a + b.drop_last());
        lemma_count_byte_concat(a, b.drop_last());
    } else {
        assert(a + b =~= a);
    }
}

/// Splits `s` at its colon when it holds exactly one; `None` otherwise.
pub fn split_pair(s: &str) -> (r: Option<(String, String)>)
    ensures
        r is Some <==> count_byte(s.spec_bytes(), COLON) == 1,
        r matches Some((a, b)) ==> splits_at_colon(s.spec_bytes(), encode_utf8(a@), encode_utf8(b@)),
{
    let bytes = s.as_bytes();
    let n = bytes.len();
    let mut i: usize = 0;
    let mut found: usize = 0;
    let mut count: usize = 0;
    while i < n
        invariant
            n == bytes@.len(),
            bytes@ == s.spec_bytes(),
            i <= n,
            count == count_byte(bytes@.take(i as int), COLON),
            count >= 1 ==> found < i && bytes@[found as int] == COLON && count_byte(
                bytes@.take(found as int),
                COLON,
            ) == 0,
            count <= i,
        decreases n - i,
    {
        proof {
            lemma_count_byte_prefix(bytes@, i as int);
        }
        if bytes[i] == COLON {
            if count == 0 {
                found = i;
            }
            count = count + 1;
        }
        i = i + 1;
    }
    assert(bytes@.take(n as int) =~= bytes@);
    if count != 1 {
        return None;
    }
    proof {
        encode_utf8_valid_utf8(s@);
        is_char_boundary_iff_not_is_continuation_byte(bytes@, found as int);
    }
    let (head, rest) = s.split_at(found);
    let rb = rest.as_bytes();
    proof {
        encode_utf8_valid_utf8(rest@);
        assert(rb@[0] == COLON);
        assert(length_of_first_scalar(rb@) == 1);
        reveal_with_fuel(is_char_boundary, 2);
    }
    let (_, tail) = rest.split_at(1);
    let a = head.to_owned();
    let b = tail.to_owned();
    proof {
        assert(encode_utf8(a@) == head.spec_bytes());
        assert(encode_utf8(b@) == tail.spec_bytes());
        assert(s.spec_bytes() =~= head.spec_bytes() + seq![COLON] + tail.spec_bytes());
    }
    Some((a, b))
}

pub open spec fn is_digit(b: u8) -> bool {
    48 <= b <= 57
}

/// The value of a string of decimal digits.
pub open spec fn decimal_value(s: Seq<u8>) -> int
    decreases s.len(),
{
    if s.len() == 0 {
        0
    } else {
        decimal_value(s.drop_last()) * 10 + (s.last() - 48)
    }
}

/// `s` is a decimal port number: one or more digits with a value that fits
/// in 16 bits.
pub open spec fn is_port(s: Seq<u8>) -> bool {
    &&& s.len() > 0
    &&& forall|i: int| 0 <= i < s.len() ==> is_digit(#[trigger] s[i])
    &&& decimal_value(s) <= u16::MAX
}

/// Reads a decimal port number.
pub fn parse_port(s: &str) -> (r: Option<u16>)
    ensures
        r is Some <==> is_port(s.spec_bytes()),
        r matches Some(p) ==> p == decimal_value(s.spec_bytes()),
{
    let bytes = s.as_bytes();
    let n = bytes.len();
    if n == 0 {
        return None;
    }
    let mut v: u64 = 0;
    let mut i: usize = 0;
    while i < n
        invariant
            n == bytes@.len(),
            n > 0,
            bytes@ == s.spec_bytes(),
            i <= n,
            forall|k: int| 0 <= k < i ==> is_digit(#[trigger] bytes@[k]),
            v == if decimal_value(bytes@.take(i as int)) > 65535 {
                65536
            } else {
                decimal_value(bytes@.take(i as int))
            },
            decimal_value(bytes@.take(i as int)) >= 0,
        decreases n - i,
    {
        let b = bytes[i];
        if b < 48 || b > 57 {
            assert(!is_digit(s.spec_bytes()[i as int]));
            return None;
        }
        assert(bytes@.take(i + 1).drop_last() =~= bytes@.take(i as int));
        let d = (b - 48) as u64;
        if v * 10 + d > 65535 {
            v = 65536;
        } else {
            v = v * 10 + d;
        }
        i = i + 1;
    }
    assert(bytes@.take(n as int) =~= bytes@);
    assert(bytes@ == s.spec_bytes());
    if v > 65535 {
        None
    } else {
        Some(v as u16)
    }
}

/// Reads `-a USERNAME:PASSWORD`.
pub fn parse_auth(s: &str) -> (r: Result<(String, String), ConfigError>)
    ensures
        r is Ok <==> count_byte(s.spec_bytes(), COLON) == 1,
        r matches Ok((a, b)) ==> splits_at_colon(s.spec_bytes(), encode_utf8(a@), encode_utf8(b@)),
        r matches Err(e) ==> e == ConfigError::InvalidAuth,
{
    match split_pair(s) {
        Some(p) => Ok(p),
        None => Err(ConfigError::InvalidAuth),
    }
}

/// Reads `-x HOST:PORT`.
pub fn parse_proxy(s: &str) -> (r: Result<(String, u16), ConfigError>)
    ensures
        r is Ok <==> exists|a: Seq<char>, b: Seq<char>| #[trigger] splits_at_colon(
            s.spec_bytes(),
            encode_utf8(a),
            encode_utf8(b),
        ) && is_port(encode_utf8(b)),
        r is Ok ==> proxy_parts(s.spec_bytes(), r->Ok_0.0@, r->Ok_0.1),
        r matches Err(e) ==> e == ConfigError::InvalidProxy,
{
    match split_pair(s) {
        Some((h, port)) => {
            let ps = port.as_str();
            assert(ps.spec_bytes() == encode_utf8(port@));
            match parse_port(ps) {
                Some(p) => {
                    assert(splits_at_colon(s.spec_bytes(), encode_utf8(h@), encode_utf8(port@)));
                    assert(is_port(encode_utf8(port@)) && p == decimal_value(encode_utf8(port@)));
                    proof {
                        lemma_proxy_witness(s.spec_bytes(), h@, port@, p);
                    }
                    Ok((h, p))
                },
                None => {
                    proof {
                        assert forall|a: Seq<char>, b: Seq<char>| #[trigger] splits_at_colon(
                            s.spec_bytes(),
                            encode_utf8(a),
                            encode_utf8(b),
                        ) implies !is_port(encode_utf8(b)) by {
                            lemma_split_unique(s.spec_bytes(), encode_utf8(a), encode_utf8(b), encode_utf8(h@), encode_utf8(port@));
                        }
                    }
                    Err(ConfigError::InvalidProxy)
                },
            }
        },
        None => Err(ConfigError::InvalidProxy),
    }
}

/// `s` splits at its only colon into `host` and a port whose value is `port`.
pub open spec fn proxy_parts(s: Seq<u8>, host: Seq<char>, port: u16) -> bool {
    exists|b: Seq<char>| #[trigger] splits_at_colon(s, encode_utf8(host), encode_utf8(b)) && is_port(
        encode_utf8(b),
    ) && port == decimal_value(encode_utf8(b))
}

proof fn lemma_proxy_witness(s: Seq<u8>, h: Seq<char>, port: Seq<char>, p: u16)
    requires
        splits_at_colon(s, encode_utf8(h), encode_utf8(port)),
        is_port(encode_utf8(port)),
        p == decimal_value(encode_utf8(port)),
    ensures
        proxy_parts(s, h, p),
        exists|a: Seq<char>, b: Seq<char>| #[trigger] splits_at_colon(s, encode_utf8(a), encode_utf8(b))
            && is_port(encode_utf8(b)),
{
}

proof fn lemma_split_unique(s: Seq<u8>, a1: Seq<u8>, b1: Seq<u8>, a2: Seq<u8>, b2: Seq<u8>)
    requires
        splits_at_colon(s, a1, b1),
        splits_at_colon(s, a2, b2),
    ensures
        a1 == a2,
        b1 == b2,
{
    lemma_count_byte_concat(a1 + seq![COLON], b1);
    lemma_count_byte_concat(a1, seq![COLON]);
    lemma_count_byte_concat(a2 + seq![COLON], b2);
    lemma_count_byte_concat(a2, seq![COLON]);
    assert(count_byte(seq![COLON], COLON) == 1) by {
        assert(seq![COLON].drop_last() =~= Seq::<u8>::empty());
    }
    if a1.len() < a2.len() {
        assert(s[a1.len() as int] == (a1 + seq![COLON] + b1)[a1.len() as int]);
        assert(s[a1.len() as int] == (a2 + seq![COLON] + b2)[a1.len() as int]);
        lemma_colon_in(a2, a1.len() as int);
    } else if a2.len() < a1.len() {
        assert(s[a2.len() as int] == (a2 + seq![COLON] + b2)[a2.len() as int]);
        assert(s[a2.len() as int] == (a1 + seq![COLON] + b1)[a2.len() as int]);
        lemma_colon_in(a1, a2.len() as int);
    }
    assert(a1 =~= s.take(a1.len() as int));
    assert(a2 =~= s.take(a2.len() as int));
    assert(b1 =~= s.skip(a1.len() as int + 1));
    assert(b2 =~= s.skip(a2.len() as int + 1));
}

proof fn lemma_colon_in(a: Seq<u8>, i: int)
    requires
        0 <= i < a.len(),
        a[i] == COLON,
    ensures
        count_byte(a, COLON) > 0,
    decreases a.len(),
{
    if i < a.len() - 1 {
        lemma_colon_in(a.drop_last(), i);
    }
}

/// Checks the request count and pool size of a run.
pub fn check_counts(num_requests: i64, concurrency: i64) -> (r: Result<(u64, usize), ConfigError>)
    ensures
        concurrency <= 0 ==> r == Err::<(u64, usize), ConfigError>(ConfigError::InvalidConcurrency),
        concurrency > 0 && concurrency > usize::MAX ==> r == Err::<(u64, usize), ConfigError>(ConfigError::InvalidConcurrency),
        0 < concurrency <= usize::MAX && num_requests < 0 ==> r == Err::<(u64, usize), ConfigError>(ConfigError::InvalidCount),
        0 < concurrency <= usize::MAX && num_requests >= 0 ==> r == Ok::<(u64, usize), ConfigError>((num_requests as u64, concurrency as usize)),
{
    if concurrency <= 0 || concurrency as u64 > usize::MAX as u64 {
        return Err(ConfigError::InvalidConcurrency);
    }
    if num_requests < 0 {
        return Err(ConfigError::InvalidCount);
    }
    Ok((num_requests as u64, concurrency as usize))
}

/// The standard base64 encoding of `b`, with padding.
pub uninterp spec fn base64_of(b: Seq<u8>) -> Seq<u8>;

/// Relies on base64::encode (standard alphabet, padded): its output depends
/// on the input bytes alone.
#[verifier::external_body]
fn base64_encode(b: &Vec<u8>) -> (r: Vec<u8>)
    ensures
        r@ == base64_of(b@),
{
    base64::encode(b).into_bytes()
}

/// The bytes `"Basic "`.
pub open spec fn basic_prefix() -> Seq<u8> {
    seq![66u8, 97u8, 115u8, 105u8, 99u8, 32u8]
}

/// The credentials `user:password` as bytes.
pub fn credentials(user: &str, password: &str) -> (r: Vec<u8>)
    ensures
        r@ == user.spec_bytes() + seq![COLON] + password.spec_bytes(),
{
    let mut out: Vec<u8> = Vec::new();
    let u = user.as_bytes();
    let p = password.as_bytes();
    let mut i: usize = 0;
    while i < u.len()
        invariant
            i <= u@.len(),
            out@ == u@.take(i as int),
        decreases u@.len() - i,
    {
        out.push(u[i]);
        assert(out@ =~= u@.take(i + 1));
        i = i + 1;
    }
    out.push(COLON);
    let mut j: usize = 0;
    while j < p.len()
        invariant
            j <= p@.len(),
            out@ == u@ + seq![COLON] + p@.take(j as int),
        decreases p@.len() - j,
    {
        out.push(p[j]);
        assert(out@ =~= u@ + seq![COLON] + p@.take(j + 1));
        j = j + 1;
    }
    assert(out@ =~= u@ + seq![COLON] + p@);
    out
}

/// The `Authorization` value for already encoded credentials: `"Basic "`
/// followed by them.
pub fn authorization_value(encoded: &Vec<u8>) -> (r: Vec<u8>)
    ensures
        r@ == basic_prefix() + encoded@,
{
    let mut out: Vec<u8> = vec![66u8, 97u8, 115u8, 105u8, 99u8, 32u8];
    assert(out@ =~= basic_prefix());
    let mut i: usize = 0;
    while i < encoded.len()
        invariant
            i <= encoded@.len(),
            out@ == basic_prefix() + encoded@.take(i as int),
        decreases encoded@.len() - i,
    {
        out.push(encoded[i]);
        assert(out@ =~= basic_prefix() + encoded@.take(i + 1));
        i = i + 1;
    }
    assert(encoded@.take(encoded@.len() as int) =~= encoded@);
    out
}

/// The `Authorization` value for basic authentication of `user` with
/// `password`.
pub fn basic_auth(user: &str, password: &str) -> (r: Vec<u8>)
    ensures
        r@ == basic_prefix() + base64_of(user.spec_bytes() + seq![COLON] + password.spec_bytes()),
{
    let c = credentials(user, password);
    let e = base64_encode(&c);
    authorization_value(&e)
}

/// The description of the request repeated throughout a run.
pub struct RequestSpec {
    pub method: String,
    pub url: String,
    pub body: String,
    pub content_type: String,
    pub username: String,
    pub password: String,
    pub proxy_host: String,
    pub proxy_port: u16,
    pub keepalive: bool,
    pub compress: bool,
}

/// A header sent with every request.
#[derive(Clone, Copy, Debug, PartialEq, Eq, Structural)]
pub enum HeaderKind {
    /// `user-agent: boom-rust`.
    UserAgent,
    /// `connection: close`.
    ConnectionClose,
    /// `content-type` with the configured type.
    ContentType,
    /// `accept-encoding: gzip`.
    AcceptGzip,
    /// `authorization` with the basic credentials.
    Authorization,
}

/// The headers of a request, in the order they are set.
pub open spec fn header_plan(keepalive: bool, compress: bool, has_user: bool) -> Seq<HeaderKind> {
    seq![HeaderKind::UserAgent] + (if keepalive {
        Seq::empty()
    } else {
        seq![HeaderKind::ConnectionClose]
    }) + seq![HeaderKind::ContentType] + (if compress {
        seq![HeaderKind::AcceptGzip]
    } else {
        Seq::empty()
    }) + (if has_user {
        seq![HeaderKind::Authorization]
    } else {
        Seq::empty()
    })
}

impl RequestSpec {
    /// Which headers the request carries.
    pub fn headers(&self) -> (r: Vec<HeaderKind>)
        ensures
            r@ == header_plan(self.keepalive, self.compress, self.username@.len() > 0),
    {
        let mut h: Vec<HeaderKind> = Vec::new();
        h.push(HeaderKind::UserAgent);
        if !self.keepalive {
            h.push(HeaderKind::ConnectionClose);
        }
        h.push(HeaderKind::ContentType);
        if self.compress {
            h.push(HeaderKind::AcceptGzip);
        }
        if !self.username.as_str().is_empty() {
            h.push(HeaderKind::Authorization);
        }
        assert(h@ =~= header_plan(self.keepalive, self.compress, self.username@.len() > 0));
        h
    }

    /// The `Authorization` value, when a user name is configured.
    pub fn authorization(&self) -> (r: Option<Vec<u8>>)
        ensures
            r is Some <==> self.username@.len() > 0,
            r matches Some(v) ==> v@ == basic_prefix() + base64_of(
                encode_utf8(self.username@) + seq![COLON] + encode_utf8(self.password@),
            ),
    {
        let u = self.username.as_str();
        if u.is_empty() {
            None
        } else {
            Some(basic_auth(u, self.password.as_str()))
        }
    }
}

} // verus!
