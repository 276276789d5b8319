//! The request parser: a request line, header lines up to a blank line, then
//! a body framed by the `Content-Length` header.

use vstd::prelude::*;
use vstd::string::StrSliceExecFns;
use vstd::utf8::{
    char_u32_cast, decode_utf8, encode_utf8, encode_utf8_decode_utf8, encode_utf8_valid_utf8,
    is_ascii_chars, is_ascii_chars_encode_utf8, valid_utf8,
};

use crate::error::HttpError;
use crate::headers::{lemma_duplicate_name_order, spec_append, spec_lookup, Headers, HeadersModel};
use crate::reader::{
    lemma_line_round_trip, lf_index, line_content, line_rest, read_bytes, read_line,
    spec_read_line, ByteStream,
};

verus! {

/// The four supported request methods. No other value is representable; an
/// unrecognized token is a parse failure, not a variant.
#[derive(Debug, Clone, Copy, PartialEq, Eq, Structural)]
pub enum Method {
    Get,
    Post,
    Put,
    Delete,
}

/// The exact token, case-sensitive and uppercase, that names a method on the
/// request line.
pub open spec fn method_token(m: Method) -> Seq<char> {
    match m {
        Method::Get => seq!['G', 'E', 'T'],
        Method::Post => seq!['P', 'O', 'S', 'T'],
        Method::Put => seq!['P', 'U', 'T'],
        Method::Delete => seq!['D', 'E', 'L', 'E', 'T', 'E'],
    }
}

/// The method a token names, if any. Matching is exact: a lowercase or
/// mixed-case token names nothing.
pub open spec fn spec_method_of(tok: Seq<char>) -> Option<Method> {
    if tok == method_token(Method::Get) {
        Some(Method::Get)
    } else if tok == method_token(Method::Post) {
        Some(Method::Post)
    } else if tok == method_token(Method::Put) {
        Some(Method::Put)
    } else if tok == method_token(Method::Delete) {
        Some(Method::Delete)
    } else {
        None
    }
}

/// The ASCII whitespace characters, on which the request line splits.
pub open spec fn is_ws(c: char) -> bool {
    c == ' ' || c == '\t' || c == '\n' || c == '\x0c' || c == '\r'
}

/// The first position at or after `i` holding a non-whitespace character, or
/// the end of `s`.
pub open spec fn skip_ws(s: Seq<char>, i: int) -> int
    decreases s.len() - i,
    when 0 <= i <= s.len()
{
    if i < s.len() && is_ws(s[i]) {
        skip_ws(s, i + 1)
    } else {
        i
    }
}

/// The first position at or after `i` holding a whitespace character, or the
/// end of `s`: the end of the token starting at `i`.
pub open spec fn token_end(s: Seq<char>, i: int) -> int
    decreases s.len() - i,
    when 0 <= i <= s.len()
{
    if i < s.len() && !is_ws(s[i]) {
        token_end(s, i + 1)
    } else {
        i
    }
}

/// `skip_ws` is pinned down by its result: whitespace up to `j`, and `j`
/// itself past the end or not whitespace.
pub proof fn lemma_skip_ws_value(s: Seq<char>, i: int, j: int)
    requires
        0 <= i <= j <= s.len(),
        forall|k: int| i <= k < j ==> is_ws(s[k]),
        j < s.len() ==> !is_ws(s[j]),
    ensures
        skip_ws(s, i) == j,
    decreases j - i,
{
    if i < j {
        lemma_skip_ws_value(s, i + 1, j);
    }
}

/// `token_end` is pinned down by its result: no whitespace up to `j`, and `j`
/// itself past the end or whitespace.
pub proof fn lemma_token_end_value(s: Seq<char>, i: int, j: int)
    requires
        0 <= i <= j <= s.len(),
        forall|k: int| i <= k < j ==> !is_ws(s[k]),
        j < s.len() ==> is_ws(s[j]),
    ensures
        token_end(s, i) == j,
    decreases j - i,
{
    if i < j {
        lemma_token_end_value(s, i + 1, j);
    }
}

/// What parsing the request line yields: the method named by the first token
/// and the second token as the resource. A line with no token, or with no
/// second token after a recognized method, is malformed; a first token that
/// names no method is unsupported. A third token — the protocol version — is
/// read and discarded.
pub open spec fn spec_parse_start(line: Seq<char>) -> Result<(Method, Seq<char>), HttpError> {
    let a = skip_ws(line, 0);
    if a >= line.len() {
        Err(HttpError::MalformedRequestLine)
    } else {
        let b = token_end(line, a);
        match spec_method_of(line.subrange(a, b)) {
            None => Err(HttpError::UnsupportedMethod),
            Some(m) => {
                let c = skip_ws(line, b);
                if c >= line.len() {
                    Err(HttpError::MalformedRequestLine)
                } else {
                    Ok((m, line.subrange(c, token_end(line, c))))
                }
            },
        }
    }
}

/// The position of the first `": "` separator at or after `i`, or the end of
/// the line when none occurs.
pub open spec fn sep_index(line: Seq<char>, i: int) -> int
    decreases line.len() - i,
    when 0 <= i <= line.len()
{
    if i + 2 <= line.len() {
        if line[i] == ':' && line[i + 1] == ' ' {
            i
        } else {
            sep_index(line, i + 1)
        }
    } else {
        line.len() as int
    }
}

/// What parsing one header line yields: the name before the first `": "` and
/// everything after it as the value; a line without the separator is
/// malformed.
pub open spec fn spec_parse_header_line(line: Seq<char>) -> Result<
    (Seq<char>, Seq<char>),
    HttpError,
> {
    let p = sep_index(line, 0);
    if p >= line.len() {
        Err(HttpError::MalformedHeaderLine)
    } else {
        Ok((line.subrange(0, p), line.subrange(p + 2, line.len() as int)))
    }
}

/// What reading header lines until the blank line yields, starting from the
/// mapping built so far: the finished mapping and the bytes after the blank
/// line, or the first failure.
pub open spec fn spec_parse_headers(s: Seq<u8>, acc: HeadersModel) -> Result<
    (HeadersModel, Seq<u8>),
    HttpError,
>
    decreases s.len(),
{
    if lf_index(s) >= s.len() {
        Err(HttpError::ConnectionAborted)
    } else if !valid_utf8(line_content(s)) {
        Err(HttpError::DecodingError)
    } else {
        let line = decode_utf8(line_content(s));
        if line.len() == 0 {
            Ok((acc, line_rest(s)))
        } else {
            match spec_parse_header_line(line) {
                Err(e) => Err(e),
                Ok((name, value)) => spec_parse_headers(line_rest(s), spec_append(acc, name, value)),
            }
        }
    }
}

/// A digit character.
pub open spec fn is_digit(c: char) -> bool {
    48 <= c as u32 && c as u32 <= 57
}

/// Whether every character of `s` is a digit.
pub open spec fn all_digits(s: Seq<char>) -> bool {
    forall|i: int| 0 <= i < s.len() ==> is_digit(s[i])
}

/// The number a digit string denotes.
pub open spec fn dec_val(s: Seq<char>) -> nat
    decreases s.len(),
{
    if s.len() == 0 {
        0
    } else {
        (dec_val(s.drop_last()) * 10 + (s.last() as u32 - 48)) as nat
    }
}

/// The header name that frames the body.
pub open spec fn content_length_name() -> Seq<char> {
    seq!['C', 'o', 'n', 't', 'e', 'n', 't', '-', 'L', 'e', 'n', 'g', 't', 'h']
}

/// How long the body is: zero with no `Content-Length` header, else the
/// number its first value denotes. A value that is not a number the machine
/// can hold makes the request malformed.
pub open spec fn spec_body_len(h: HeadersModel) -> Result<nat, HttpError> {
    match spec_lookup(h, content_length_name()) {
        None => Ok(0 as nat),
        Some(vals) => {
            if vals.len() > 0 && vals[0].len() > 0 && all_digits(vals[0]) && dec_val(vals[0])
                <= usize::MAX as nat {
                Ok(dec_val(vals[0]))
            } else {
                Err(HttpError::MalformedHeaderLine)
            }
        },
    }
}

/// The mathematical content of a parsed request.
#[verifier::ext_equal]
pub ghost struct RequestModel {
    pub method: Method,
    pub resource: Seq<char>,
    pub headers: HeadersModel,
    pub body: Seq<u8>,
}

/// What parsing one whole request from the stream `s` yields: the request
/// line, then the headers up to the blank line, then exactly the body the
/// `Content-Length` header announces — none when the header is absent — or
/// the first failure. `ConnectionAborted` also names the case where the
/// stream ends before the announced body is complete.
pub open spec fn spec_parse_request(s: Seq<u8>) -> Result<RequestModel, HttpError> {
    match spec_read_line(s) {
        Err(e) => Err(e),
        Ok(line) => match spec_parse_start(line) {
            Err(e) => Err(e),
            Ok((m, resource)) => match spec_parse_headers(
                line_rest(s),
                Seq::<(Seq<char>, Seq<Seq<char>>)>::empty(),
            ) {
                Err(e) => Err(e),
                Ok((h, after)) => match spec_body_len(h) {
                    Err(e) => Err(e),
                    Ok(n) => if n <= after.len() {
                        Ok(
                            RequestModel {
                                method: m,
                                resource: resource,
                                headers: h,
                                body: after.take(n as int),
                            },
                        )
                    } else {
                        Err(HttpError::ConnectionAborted)
                    },
                },
            },
        },
    }
}

/// No method token holds a whitespace character.
pub proof fn lemma_method_token_no_ws(m: Method)
    ensures
        forall|k: int| 0 <= k < method_token(m).len() ==> !is_ws(method_token(m)[k]),
        method_token(m).len() > 0,
{
    let tok = method_token(m);
    assert forall|k: int| 0 <= k < tok.len() implies !is_ws(tok[k]) by {
        match m {
            Method::Get => {
                assert(tok[0] == 'G' && tok[1] == 'E' && tok[2] == 'T');
            },
            Method::Post => {
                assert(tok[0] == 'P' && tok[1] == 'O' && tok[2] == 'S' && tok[3] == 'T');
            },
            Method::Put => {
                assert(tok[0] == 'P' && tok[1] == 'U' && tok[2] == 'T');
            },
            Method::Delete => {
                assert(tok[0] == 'D' && tok[1] == 'E' && tok[2] == 'L' && tok[3] == 'E' && tok[4]
                    == 'T' && tok[5] == 'E');
            },
        }
    }
}

/// A token equal to a method's own token names exactly that method.
pub proof fn lemma_method_of_token(m: Method)
    ensures
        spec_method_of(method_token(m)) == Some(m),
{
    assert(method_token(Method::Get)[0] == 'G');
    assert(method_token(Method::Post)[0] == 'P');
    assert(method_token(Method::Put)[0] == 'P');
    assert(method_token(Method::Delete)[0] == 'D');
    assert(method_token(Method::Post).len() == 4);
    assert(method_token(Method::Put)[1] == 'U');
    assert(method_token(Method::Post)[1] == 'O');
    assert(method_token(Method::Get).len() == 3);
    assert(method_token(Method::Delete).len() == 6);
}

/// Law: for each supported method `m` and every non-empty resource `r`
/// without whitespace, the request line `m` + `" "` + `r` + `" "` + `v`
/// parses to exactly that method and resource, whatever the version token
/// `v`.
pub proof fn lemma_start_line_round_trip(m: Method, r: Seq<char>, v: Seq<char>)
    requires
        r.len() > 0,
        forall|i: int| 0 <= i < r.len() ==> !is_ws(r[i]),
    ensures
        spec_parse_start(method_token(m) + seq![' '] + r + seq![' '] + v) == Ok::<
            (Method, Seq<char>),
            HttpError,
        >((m, r)),
{
    let tok = method_token(m);
    let line = tok + seq![' '] + r + seq![' '] + v;
    let tl = tok.len() as int;
    let rl = r.len() as int;
    lemma_method_token_no_ws(m);
    assert forall|k: int| 0 <= k < tl implies line[k] == tok[k] by {}
    assert(line[tl] == ' ');
    assert forall|k: int| tl + 1 <= k < tl + 1 + rl implies line[k] == r[k - tl - 1] by {}
    assert(line[tl + 1 + rl] == ' ');
    lemma_skip_ws_value(line, 0, 0);
    lemma_token_end_value(line, 0, tl);
    assert(line.subrange(0, tl) =~= tok);
    lemma_method_of_token(m);
    lemma_skip_ws_value(line, tl, tl + 1);
    lemma_token_end_value(line, tl + 1, tl + 1 + rl);
    assert(line.subrange(tl + 1, tl + 1 + rl) =~= r);
}

/// Law: a request line whose first token names no supported method fails
/// with `UnsupportedMethod`, whatever follows the token.
pub proof fn lemma_unknown_method_rejected(line: Seq<char>)
    requires
        skip_ws(line, 0) < line.len(),
        spec_method_of(line.subrange(skip_ws(line, 0), token_end(line, skip_ws(line, 0)))) is None,
    ensures
        spec_parse_start(line) == Err::<(Method, Seq<char>), HttpError>(
            HttpError::UnsupportedMethod,
        ),
{
}

/// Law: a header line in which the `": "` separator nowhere occurs fails
/// with `MalformedHeaderLine`.
pub proof fn lemma_missing_separator_rejected(line: Seq<char>)
    requires
        forall|k: int|
            0 <= k && k + 2 <= line.len() ==> !(#[trigger] line[k] == ':' && line[k + 1] == ' '),
    ensures
        spec_parse_header_line(line) == Err::<(Seq<char>, Seq<char>), HttpError>(
            HttpError::MalformedHeaderLine,
        ),
{
    lemma_sep_index_none(line, 0);
}

/// When no separator starts at or after `i`, `sep_index` runs to the end.
proof fn lemma_sep_index_none(line: Seq<char>, i: int)
    requires
        0 <= i <= line.len(),
        forall|k: int|
            i <= k && k + 2 <= line.len() ==> !(#[trigger] line[k] == ':' && line[k + 1] == ' '),
    ensures
        sep_index(line, i) == line.len(),
    decreases line.len() - i,
{
    if i + 2 <= line.len() {
        lemma_sep_index_none(line, i + 1);
    }
}

/// `sep_index` is pinned down by its result: a separator starts at `j` and
/// none starts before it.
proof fn lemma_sep_index_value(line: Seq<char>, i: int, j: int)
    requires
        0 <= i <= j,
        j + 2 <= line.len(),
        line[j] == ':' && line[j + 1] == ' ',
        forall|k: int| i <= k < j ==> !(#[trigger] line[k] == ':' && line[k + 1] == ' '),
    ensures
        sep_index(line, i) == j,
    decreases j - i,
{
    if i < j {
        lemma_sep_index_value(line, i + 1, j);
    }
}

/// Whether `c` splits tokens on the request line.
fn is_ws_exec(c: char) -> (r: bool)
    ensures
        r == is_ws(c),
{
    c == ' ' || c == '\t' || c == '\n' || c == '\x0c' || c == '\r'
}

/// The first position at or after `start` holding a non-whitespace
/// character, or the end of the text.
fn skip_ws_exec(s: &str, n: usize, start: usize) -> (r: usize)
    requires
        n == s@.len(),
        start <= n,
    ensures
        start <= r <= n,
        r as int == skip_ws(s@, start as int),
{
    let mut i: usize = start;
    loop
        invariant
            n == s@.len(),
            start <= i <= n,
            skip_ws(s@, start as int) == skip_ws(s@, i as int),
        ensures
            start <= i <= n,
            skip_ws(s@, start as int) == i as int,
        decreases n - i,
    {
        if i == n {
            break;
        }
        let c = s.get_char(i);
        if !is_ws_exec(c) {
            break;
        }
        proof {
            assert(skip_ws(s@, i as int) == skip_ws(s@, i as int + 1));
        }
        i = i + 1;
    }
    i
}

/// The end of the token starting at `start`: the first position at or after
/// it holding whitespace, or the end of the text.
fn token_end_exec(s: &str, n: usize, start: usize) -> (r: usize)
    requires
        n == s@.len(),
        start <= n,
    ensures
        start <= r <= n,
        r as int == token_end(s@, start as int),
{
    let mut i: usize = start;
    loop
        invariant
            n == s@.len(),
            start <= i <= n,
            token_end(s@, start as int) == token_end(s@, i as int),
        ensures
            start <= i <= n,
            token_end(s@, start as int) == i as int,
        decreases n - i,
    {
        if i == n {
            break;
        }
        let c = s.get_char(i);
        if is_ws_exec(c) {
            break;
        }
        proof {
            assert(token_end(s@, i as int) == token_end(s@, i as int + 1));
        }
        i = i + 1;
    }
    i
}

/// The method named by the token `s[a..b]`, if any.
fn method_from(s: &str, a: usize, b: usize) -> (r: Option<Method>)
    requires
        a <= b,
        b as int <= s@.len(),
    ensures
        r == spec_method_of(s@.subrange(a as int, b as int)),
{
    let ghost tok = s@.subrange(a as int, b as int);
    proof {
        assert(method_token(Method::Get).len() == 3);
        assert(method_token(Method::Post).len() == 4);
        assert(method_token(Method::Put).len() == 3);
        assert(method_token(Method::Delete).len() == 6);
        assert(method_token(Method::Get)[0] == 'G' && method_token(Method::Get)[1] == 'E'
            && method_token(Method::Get)[2] == 'T');
        assert(method_token(Method::Post)[0] == 'P' && method_token(Method::Post)[1] == 'O'
            && method_token(Method::Post)[2] == 'S' && method_token(Method::Post)[3] == 'T');
        assert(method_token(Method::Put)[0] == 'P' && method_token(Method::Put)[1] == 'U'
            && method_token(Method::Put)[2] == 'T');
        assert(method_token(Method::Delete)[0] == 'D' && method_token(Method::Delete)[1] == 'E'
            && method_token(Method::Delete)[2] == 'L' && method_token(Method::Delete)[3] == 'E'
            && method_token(Method::Delete)[4] == 'T' && method_token(Method::Delete)[5] == 'E');
    }
    let len = b - a;
    if len == 3 {
        let c0 = s.get_char(a);
        let c1 = s.get_char(a + 1);
        let c2 = s.get_char(a + 2);
        if c0 == 'G' && c1 == 'E' && c2 == 'T' {
            proof {
                assert(tok =~= method_token(Method::Get));
            }
            Some(Method::Get)
        } else if c0 == 'P' && c1 == 'U' && c2 == 'T' {
            proof {
                assert(tok =~= method_token(Method::Put));
            }
            Some(Method::Put)
        } else {
            None
        }
    } else if len == 4 {
        let c0 = s.get_char(a);
        let c1 = s.get_char(a + 1);
        let c2 = s.get_char(a + 2);
        let c3 = s.get_char(a + 3);
        if c0 == 'P' && c1 == 'O' && c2 == 'S' && c3 == 'T' {
            proof {
                assert(tok =~= method_token(Method::Post));
            }
            Some(Method::Post)
        } else {
            None
        }
    } else if len == 6 {
        let c0 = s.get_char(a);
        let c1 = s.get_char(a + 1);
        let c2 = s.get_char(a + 2);
        let c3 = s.get_char(a + 3);
        let c4 = s.get_char(a + 4);
        let c5 = s.get_char(a + 5);
        if c0 == 'D' && c1 == 'E' && c2 == 'L' && c3 == 'E' && c4 == 'T' && c5 == 'E' {
            proof {
                assert(tok =~= method_token(Method::Delete));
            }
            Some(Method::Delete)
        } else {
            None
        }
    } else {
        None
    }
}

/// Parse the request line into its method and resource. The first token must
/// name a method exactly; the second is the resource, taken verbatim; a third
/// token — the protocol version — is read and discarded.
pub fn parse_start_line(line: &String) -> (r: Result<(Method, String), HttpError>)
    ensures
        match spec_parse_start(line@) {
            Ok((m, resource)) => r matches Ok(p) && p.0 == m && p.1@ == resource,
            Err(e) => r matches Err(a) && a == e,
        },
{
    let s = line.as_str();
    let n = s.unicode_len();
    let a = skip_ws_exec(s, n, 0);
    if a == n {
        return Err(HttpError::MalformedRequestLine);
    }
    let b = token_end_exec(s, n, a);
    let m = match method_from(s, a, b) {
        None => {
            return Err(HttpError::UnsupportedMethod);
        },
        Some(m) => m,
    };
    let c = skip_ws_exec(s, n, b);
    if c == n {
        return Err(HttpError::MalformedRequestLine);
    }
    let d = token_end_exec(s, n, c);
    let resource = s.substring_char(c, d).to_owned();
    Ok((m, resource))
}

/// Split one header line into its name and value at the first `": "`.
pub fn parse_header_line(line: &String) -> (r: Result<(String, String), HttpError>)
    ensures
        match spec_parse_header_line(line@) {
            Ok((name, value)) => r matches Ok(p) && p.0@ == name && p.1@ == value,
            Err(e) => r matches Err(a) && a == e,
        },
{
    let s = line.as_str();
    let n = s.unicode_len();
    let mut i: usize = 0;
    loop
        invariant
            n == s@.len(),
            0 <= i <= n,
            sep_index(s@, 0) == sep_index(s@, i as int),
        ensures
            0 <= i <= n,
            n == s@.len(),
            sep_index(s@, 0) == sep_index(s@, i as int),
            i + 2 <= n ==> (s@[i as int] == ':' && s@[i as int + 1] == ' '),
            i + 2 > n ==> sep_index(s@, i as int) == n as int,
        decreases n - i,
    {
        if n - i < 2 {
            break;
        }
        let c0 = s.get_char(i);
        let c1 = s.get_char(i + 1);
        if c0 == ':' && c1 == ' ' {
            break;
        }
        proof {
            assert(sep_index(s@, i as int) == sep_index(s@, i as int + 1));
        }
        i = i + 1;
    }
    if n - i < 2 {
        return Err(HttpError::MalformedHeaderLine);
    }
    proof {
        assert(sep_index(s@, i as int) == i as int);
    }
    let name = s.substring_char(0, i).to_owned();
    let value = s.substring_char(i + 2, n).to_owned();
    Ok((name, value))
}

/// A digit string denotes at least what any of its prefixes denotes.
pub proof fn lemma_dec_val_take_le(s: Seq<char>, i: int, j: int)
    requires
        0 <= i <= j <= s.len(),
        forall|k: int| 0 <= k < j ==> is_digit(s[k]),
    ensures
        dec_val(s.take(i)) <= dec_val(s.take(j)),
    decreases j - i,
{
    if i < j {
        lemma_dec_val_take_le(s, i, j - 1);
        assert(s.take(j).drop_last() =~= s.take(j - 1));
        assert(s.take(j).last() == s[j - 1]);
        assert(is_digit(s[j - 1]));
    }
}

/// Parse a digit string into the number it denotes, refusing empty text, a
/// non-digit, and a number too large for the machine.
fn parse_decimal(v: &String) -> (r: Option<usize>)
    ensures
        match r {
            Some(x) => v@.len() > 0 && all_digits(v@) && dec_val(v@) <= usize::MAX as nat && x
                as nat == dec_val(v@),
            None => !(v@.len() > 0 && all_digits(v@) && dec_val(v@) <= usize::MAX as nat),
        },
{
    let s = v.as_str();
    let n = s.unicode_len();
    if n == 0 {
        return None;
    }
    let mut acc: usize = 0;
    let mut i: usize = 0;
    while i < n
        invariant
            n == v@.len(),
            s@ == v@,
            0 <= i <= n,
            forall|k: int| 0 <= k < i ==> is_digit(v@[k]),
            acc as nat == dec_val(v@.take(i as int)),
        decreases n - i,
    {
        let c = s.get_char(i);
        let u = c as u32;
        if u < 48 || u > 57 {
            proof {
                assert(!is_digit(v@[i as int]));
            }
            return None;
        }
        let d = (u - 48) as usize;
        proof {
            assert(v@.take(i as int + 1).drop_last() =~= v@.take(i as int));
            assert(v@.take(i as int + 1).last() == v@[i as int]);
            assert(dec_val(v@.take(i as int + 1)) == acc * 10 + d);
        }
        if acc > (usize::MAX - d) / 10 {
            proof {
                let q = (usize::MAX - d) / 10;
                assert(acc * 10 + d > usize::MAX) by {
                    assert(q * 10 + (usize::MAX - d) % 10 == usize::MAX - d);
                    assert(acc >= q + 1);
                    assert(acc * 10 >= (q + 1) * 10) by (nonlinear_arith)
                        requires
                            acc >= q + 1,
                    ;
                }
                if all_digits(v@) && dec_val(v@) <= usize::MAX as nat {
                    lemma_dec_val_take_le(v@, i as int + 1, n as int);
                    assert(v@.take(n as int) =~= v@);
                    assert(false);
                }
            }
            return None;
        }
        proof {
            let q = (usize::MAX - d) / 10;
            assert(acc * 10 + d <= usize::MAX) by {
                assert(q * 10 + (usize::MAX - d) % 10 == usize::MAX - d);
                assert(acc * 10 <= q * 10) by (nonlinear_arith)
                    requires
                        acc <= q,
                ;
            }
        }
        acc = acc * 10 + d;
        i = i + 1;
    }
    proof {
        assert(v@.take(n as int) =~= v@);
    }
    Some(acc)
}

/// The `Content-Length` header name as text.
fn content_length_key() -> (r: String)
    ensures
        r@ == content_length_name(),
{
    let r = "Content-Length".to_owned();
    proof {
        reveal_strlit("Content-Length");
        assert(r@ =~= content_length_name());
    }
    r
}

/// The body length the headers announce: zero without a `Content-Length`
/// header, else the number its first value denotes.
fn body_len_of(h: &Headers) -> (r: Result<usize, HttpError>)
    ensures
        match spec_body_len(h@) {
            Ok(n) => r matches Ok(x) && x as nat == n,
            Err(e) => r matches Err(a) && a == e,
        },
{
    let key = content_length_key();
    match h.get(&key) {
        None => Ok(0),
        Some(vals) => {
            if vals.len() == 0 {
                return Err(HttpError::MalformedHeaderLine);
            }
            proof {
                assert(vals.deep_view()[0] == vals@[0]@);
            }
            match parse_decimal(&vals[0]) {
                Some(x) => Ok(x),
                None => Err(HttpError::MalformedHeaderLine),
            }
        },
    }
}

/// Read header lines until the blank line, recording each `name: value` line
/// into the mapping in arrival order.
fn parse_headers(stream: &mut ByteStream) -> (r: Result<Headers, HttpError>)
    requires
        old(stream).wf(),
    ensures
        final(stream).wf(),
        match spec_parse_headers(
            old(stream).remaining(),
            Seq::<(Seq<char>, Seq<Seq<char>>)>::empty(),
        ) {
            Ok((hm, after)) => r matches Ok(h) && h@ == hm && h.wf() && final(stream).remaining()
                == after,
            Err(e) => r matches Err(a) && a == e,
        },
{
    let mut h = Headers::new();
    loop
        invariant
            stream.wf(),
            h.wf(),
            spec_parse_headers(
                old(stream).remaining(),
                Seq::<(Seq<char>, Seq<Seq<char>>)>::empty(),
            ) == spec_parse_headers(stream.remaining(), h@),
        decreases stream.remaining().len(),
    {
        let ghost rem = stream.remaining();
        let ghost acc = h@;
        let line = match read_line(stream) {
            Ok(l) => l,
            Err(e) => {
                return Err(e);
            },
        };
        if line.as_str().is_empty() {
            return Ok(h);
        }
        let (name, value) = match parse_header_line(&line) {
            Ok(p) => p,
            Err(e) => {
                return Err(e);
            },
        };
        h.append_value(name, value);
    }
}

/// A parsed request. It is immutable once constructed: the parser builds it
/// and hands it to the embedding program, which only reads it.
#[derive(Debug)]
pub struct Request {
    /// The requested resource path, verbatim as received.
    pub resource: String,
    /// The request method.
    pub method: Method,
    /// The headers, in arrival order.
    pub headers: Headers,
    /// The raw body bytes.
    pub body: Vec<u8>,
}

impl View for Request {
    type V = RequestModel;

    open spec fn view(&self) -> RequestModel {
        RequestModel {
            method: self.method,
            resource: self.resource@,
            headers: self.headers@,
            body: self.body@,
        }
    }
}

/// Parse one whole request from the stream: the request line, the headers up
/// to the blank line, then exactly the body the `Content-Length` header
/// announces — none when the header is absent. Any failure aborts the parse;
/// no partial request is returned.
pub fn parse_request(stream: &mut ByteStream) -> (r: Result<Request, HttpError>)
    requires
        old(stream).wf(),
    ensures
        final(stream).wf(),
        match spec_parse_request(old(stream).remaining()) {
            Ok(model) => r matches Ok(req) && req@ == model && req.headers.wf(),
            Err(e) => r matches Err(a) && a == e,
        },
{
    let ghost rem = stream.remaining();
    let line = match read_line(stream) {
        Ok(l) => l,
        Err(e) => {
            return Err(e);
        },
    };
    let (method, resource) = match parse_start_line(&line) {
        Ok(p) => p,
        Err(e) => {
            return Err(e);
        },
    };
    let headers = match parse_headers(stream) {
        Ok(h) => h,
        Err(e) => {
            return Err(e);
        },
    };
    let blen = match body_len_of(&headers) {
        Ok(n) => n,
        Err(e) => {
            return Err(e);
        },
    };
    let body = match read_bytes(stream, blen) {
        Ok(b) => b,
        Err(e) => {
            return Err(e);
        },
    };
    let req = Request { resource, method, headers, body };
    proof {
        let model = spec_parse_request(rem)->Ok_0;
        assert(req@ =~= model);
    }
    Ok(req)
}


/// Every method token is ASCII text.
proof fn lemma_method_token_ascii(m: Method)
    ensures
        is_ascii_chars(method_token(m)),
{
    let tok = method_token(m);
    assert forall|i: int| 0 <= i < tok.len() implies '\0' <= #[trigger] tok[i] <= '\u{7f}' by {
        match m {
            Method::Get => {
                assert(tok[0] == 'G' && tok[1] == 'E' && tok[2] == 'T');
            },
            Method::Post => {
                assert(tok[0] == 'P' && tok[1] == 'O' && tok[2] == 'S' && tok[3] == 'T');
            },
            Method::Put => {
                assert(tok[0] == 'P' && tok[1] == 'U' && tok[2] == 'T');
            },
            Method::Delete => {
                assert(tok[0] == 'D' && tok[1] == 'E' && tok[2] == 'L' && tok[3] == 'E' && tok[4]
                    == 'T' && tok[5] == 'E');
            },
        }
    }
}

/// Law: end to end over the raw bytes of a connection. For each supported
/// method `m`, every non-empty ASCII resource `r` without whitespace, and any
/// ASCII version token `v` without a line feed, the stream holding the
/// request line `m` + `" "` + `r` + `" "` + `v`, a line terminator, and a
/// blank line parses to exactly the request with that method and resource, no
/// headers, and an empty body.
pub proof fn lemma_request_round_trip(m: Method, r: Seq<char>, v: Seq<char>)
    requires
        r.len() > 0,
        forall|i: int| 0 <= i < r.len() ==> !is_ws(#[trigger] r[i]),
        is_ascii_chars(r),
        is_ascii_chars(v),
        forall|i: int| 0 <= i < v.len() ==> #[trigger] v[i] != '\n',
    ensures
        ({
            let line = method_token(m) + seq![' '] + r + seq![' '] + v;
            let s = encode_utf8(line) + seq![13u8, 10u8, 13u8, 10u8];
            spec_parse_request(s) == Ok::<RequestModel, HttpError>(
                RequestModel {
                    method: m,
                    resource: r,
                    headers: Seq::<(Seq<char>, Seq<Seq<char>>)>::empty(),
                    body: Seq::<u8>::empty(),
                },
            )
        }),
{
    let tok = method_token(m);
    let tl = tok.len() as int;
    let rl = r.len() as int;
    let line = tok + seq![' '] + r + seq![' '] + v;
    let enc = encode_utf8(line);
    let s = enc + seq![13u8, 10u8, 13u8, 10u8];
    lemma_method_token_ascii(m);
    lemma_method_token_no_ws(m);
    // The line is ASCII throughout and holds no line-feed character.
    assert forall|k: int|
        0 <= k < line.len() implies ('\0' <= #[trigger] line[k] <= '\u{7f}' && line[k]
        != '\n') by {
        if k < tl {
            assert(line[k] == tok[k]);
            assert(!is_ws(tok[k]));
        } else if k == tl {
            assert(line[k] == ' ');
        } else if k < tl + 1 + rl {
            assert(line[k] == r[k - tl - 1]);
            assert(!is_ws(r[k - tl - 1]));
        } else if k == tl + 1 + rl {
            assert(line[k] == ' ');
        } else {
            assert(line[k] == v[k - tl - 2 - rl]);
        }
    }
    assert(is_ascii_chars(line));
    is_ascii_chars_encode_utf8(line);
    // So its encoding holds no line-feed byte.
    assert forall|j: int| 0 <= j < enc.len() implies enc[j] != 10u8 by {
        assert(enc[j] == line[j] as u8);
        assert((line[j] as u32) < 128);
        if enc[j] == 10u8 {
            assert((line[j] as u32) == 10);
            char_u32_cast(line[j], 10u32);
            char_u32_cast('\n', 10u32);
            assert(line[j] == '\n');
        }
    }
    encode_utf8_valid_utf8(line);
    // Reading the first line gives the request line back.
    lemma_line_round_trip(enc, true, seq![13u8, 10u8]);
    assert(enc + seq![13u8, 10u8] + seq![13u8, 10u8] =~= s);
    encode_utf8_decode_utf8(line);
    assert(spec_read_line(s) == Ok::<Seq<char>, HttpError>(line));
    assert(line_rest(s) =~= seq![13u8, 10u8]);
    // The request line parses to the method and the resource.
    lemma_start_line_round_trip(m, r, v);
    // The blank line ends the (empty) headers at once.
    let blank = seq![13u8, 10u8];
    let empty_h = Seq::<(Seq<char>, Seq<Seq<char>>)>::empty();
    lemma_line_round_trip(Seq::<u8>::empty(), true, Seq::<u8>::empty());
    assert(Seq::<u8>::empty() + seq![13u8, 10u8] + Seq::<u8>::empty() =~= blank);
    assert(decode_utf8(line_content(blank)).len() == 0);
    assert(line_rest(blank) =~= Seq::<u8>::empty());
    assert(spec_parse_headers(blank, empty_h) == Ok::<(HeadersModel, Seq<u8>), HttpError>(
        (empty_h, Seq::<u8>::empty()),
    ));
    // No headers, so no announced body.
    assert(spec_body_len(empty_h) == Ok::<nat, HttpError>(0 as nat));
    let model = RequestModel {
        method: m,
        resource: r,
        headers: empty_h,
        body: Seq::<u8>::empty(),
    };
    assert(spec_parse_request(s) is Ok);
    assert(spec_parse_request(s)->Ok_0 =~= model);
}


/// One well-formed ASCII header line at the front of the stream is consumed
/// and recorded, and header parsing goes on behind its terminator.
proof fn lemma_header_line_step(name: Seq<char>, value: Seq<char>, rest: Seq<u8>, acc: HeadersModel)
    requires
        is_ascii_chars(name),
        is_ascii_chars(value),
        forall|k: int|
            0 <= k && k + 2 <= name.len() ==> !(#[trigger] name[k] == ':' && name[k + 1] == ' '),
        forall|k: int| 0 <= k < name.len() ==> #[trigger] name[k] != '\n',
        forall|k: int| 0 <= k < value.len() ==> #[trigger] value[k] != '\n',
    ensures
        ({
            let hline = name + seq![':', ' '] + value;
            let s = encode_utf8(hline) + seq![13u8, 10u8] + rest;
            spec_parse_headers(s, acc) == spec_parse_headers(rest, spec_append(acc, name, value))
        }),
{
    let nl = name.len() as int;
    let hline = name + seq![':', ' '] + value;
    let enc = encode_utf8(hline);
    let s = enc + seq![13u8, 10u8] + rest;
    // The line is ASCII throughout and holds no line-feed character.
    assert forall|k: int|
        0 <= k < hline.len() implies ('\0' <= #[trigger] hline[k] <= '\u{7f}' && hline[k]
        != '\n') by {
        if k < nl {
            assert(hline[k] == name[k]);
        } else if k == nl {
            assert(hline[k] == ':');
        } else if k == nl + 1 {
            assert(hline[k] == ' ');
        } else {
            assert(hline[k] == value[k - nl - 2]);
        }
    }
    assert(is_ascii_chars(hline));
    is_ascii_chars_encode_utf8(hline);
    assert forall|j: int| 0 <= j < enc.len() implies enc[j] != 10u8 by {
        assert(enc[j] == hline[j] as u8);
        assert((hline[j] as u32) < 128);
        if enc[j] == 10u8 {
            assert((hline[j] as u32) == 10);
            char_u32_cast(hline[j], 10u32);
            char_u32_cast('\n', 10u32);
            assert(hline[j] == '\n');
        }
    }
    encode_utf8_valid_utf8(hline);
    lemma_line_round_trip(enc, true, rest);
    assert(enc + seq![13u8, 10u8] + rest =~= s);
    encode_utf8_decode_utf8(hline);
    assert(spec_read_line(s) == Ok::<Seq<char>, HttpError>(hline));
    assert(hline.len() > 0);
    // The first separator stands exactly between the name and the value.
    assert(hline[nl] == ':' && hline[nl + 1] == ' ');
    assert forall|k: int| 0 <= k < nl implies !(#[trigger] hline[k] == ':' && hline[k + 1]
        == ' ') by {
        assert(hline[k] == name[k]);
        if k + 1 < nl {
            assert(hline[k + 1] == name[k + 1]);
        } else {
            assert(hline[k + 1] == ':');
        }
    }
    lemma_sep_index_value(hline, 0, nl);
    assert(hline.subrange(0, nl) =~= name);
    assert(hline.subrange(nl + 2, hline.len() as int) =~= value);
    assert(spec_parse_header_line(hline) == Ok::<(Seq<char>, Seq<char>), HttpError>(
        (name, value),
    ));
    assert(line_rest(s) =~= rest);
}

/// Law: end to end over the raw bytes of the header section. Two header lines
/// carrying the same name — one not used by any earlier line — followed by
/// the blank line leave under that name exactly the two values, in arrival
/// order.
pub proof fn lemma_duplicate_header_round_trip(
    name: Seq<char>,
    v1: Seq<char>,
    v2: Seq<char>,
    acc: HeadersModel,
)
    requires
        is_ascii_chars(name),
        is_ascii_chars(v1),
        is_ascii_chars(v2),
        forall|k: int|
            0 <= k && k + 2 <= name.len() ==> !(#[trigger] name[k] == ':' && name[k + 1] == ' '),
        forall|k: int| 0 <= k < name.len() ==> #[trigger] name[k] != '\n',
        forall|k: int| 0 <= k < v1.len() ==> #[trigger] v1[k] != '\n',
        forall|k: int| 0 <= k < v2.len() ==> #[trigger] v2[k] != '\n',
        spec_lookup(acc, name) is None,
    ensures
        ({
            let l1 = encode_utf8(name + seq![':', ' '] + v1);
            let l2 = encode_utf8(name + seq![':', ' '] + v2);
            let s = l1 + seq![13u8, 10u8] + (l2 + seq![13u8, 10u8] + seq![13u8, 10u8]);
            &&& spec_parse_headers(s, acc) matches Ok(p)
            &&& spec_lookup(p.0, name) == Some(seq![v1, v2])
            &&& p.1 == Seq::<u8>::empty()
        }),
{
    let l1 = encode_utf8(name + seq![':', ' '] + v1);
    let l2 = encode_utf8(name + seq![':', ' '] + v2);
    let s2 = l2 + seq![13u8, 10u8] + seq![13u8, 10u8];
    let s = l1 + seq![13u8, 10u8] + s2;
    let acc1 = spec_append(acc, name, v1);
    let acc2 = spec_append(acc1, name, v2);
    lemma_header_line_step(name, v1, s2, acc);
    lemma_header_line_step(name, v2, seq![13u8, 10u8], acc1);
    // The blank line ends the headers.
    lemma_line_round_trip(Seq::<u8>::empty(), true, Seq::<u8>::empty());
    assert(Seq::<u8>::empty() + seq![13u8, 10u8] + Seq::<u8>::empty() =~= seq![13u8, 10u8]);
    assert(decode_utf8(line_content(seq![13u8, 10u8])).len() == 0);
    assert(line_rest(seq![13u8, 10u8]) =~= Seq::<u8>::empty());
    assert(spec_parse_headers(seq![13u8, 10u8], acc2) == Ok::<(HeadersModel, Seq<u8>), HttpError>(
        (acc2, Seq::<u8>::empty()),
    ));
    lemma_duplicate_name_order(acc, name, v1, v2);
}

} // verus!
