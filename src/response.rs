//! What a decoded request asks for, and the framing of the response.
use vstd::prelude::*;
use vstd::string::StringSliceAdditionalSpecFns;
use crate::bytes::{matches_at, find_from, find_bytes, bytes_match_at, copy_range, append_bytes};
use crate::fields::slice_eq;
use crate::request::{HTTPRequestType, Request};
use crate::error::ServerError;

verus! {

/// The decimal digits of `n`.
pub open spec fn decimal(n: nat) -> Seq<u8>
    decreases n,
{
    if n < 10 {
        seq![(48 + n) as u8]
    } else {
        decimal(n / 10).push((48 + n % 10) as u8)
    }
}

/// Writes `n` in decimal.
pub fn to_decimal(n: usize) -> (r: Vec<u8>)
    ensures
        r@ == decimal(n as nat),
    decreases n,
{
    if n < 10 {
        let mut r: Vec<u8> = Vec::new();
        r.push((48 + n) as u8);
        assert(r@ =~= decimal(n as nat));
        r
    } else {
        let mut r = to_decimal(n / 10);
        r.push((48 + n % 10) as u8);
        r
    }
}

/// `\r\nContent-Length:`
pub open spec fn length_field() -> Seq<u8> {
    seq![
        13u8, 10u8, 67u8, 111u8, 110u8, 116u8, 101u8, 110u8, 116u8, 45u8, 76u8, 101u8, 110u8,
        103u8, 116u8, 104u8, 58u8,
    ]
}

/// Frames a response: the status line, a `Content-Length` field with the
/// length of `contents`, a blank line, then `contents`.
pub fn compile_response(status_line: &str, contents: Vec<u8>) -> (r: Vec<u8>)
    ensures
        r@ == status_line.spec_bytes() + length_field() + decimal(contents@.len()) + seq![
            13u8,
            10u8,
            13u8,
            10u8,
        ] + contents@,
{
    let mut r: Vec<u8> = Vec::new();
    append_bytes(&mut r, status_line.as_bytes());
    let field: [u8; 17] = [13, 10, 67, 111, 110, 116, 101, 110, 116, 45, 76, 101, 110, 103, 116, 104, 58];
    assert(field@ =~= length_field());
    append_bytes(&mut r, field.as_slice());
    let digits = to_decimal(contents.len());
    append_bytes(&mut r, digits.as_slice());
    let end: [u8; 4] = [13, 10, 13, 10];
    append_bytes(&mut r, end.as_slice());
    assert(end@ =~= seq![13u8, 10u8, 13u8, 10u8]);
    append_bytes(&mut r, contents.as_slice());
    r
}

/// Whether `b` is an ASCII digit.
pub open spec fn is_digit(b: u8) -> bool {
    48 <= b <= 57
}

/// The number that a string of decimal digits denotes.
pub open spec fn digits_value(s: Seq<u8>) -> nat
    decreases s.len(),
{
    if s.len() == 0 {
        0
    } else {
        digits_value(s.drop_last()) * 10 + (s.last() - 48) as nat
    }
}

/// `s` without one leading `+`.
pub open spec fn unsigned_part(s: Seq<u8>) -> Seq<u8> {
    if s.len() > 0 && s[0] == 43u8 {
        s.drop_first()
    } else {
        s
    }
}

/// Every byte of `d` is a decimal digit.
pub open spec fn all_digits(d: Seq<u8>) -> bool {
    forall|i: int| 0 <= i < d.len() ==> is_digit(#[trigger] d[i])
}

/// The `usize` that `s` denotes as `usize::from_str` reads it: an optional
/// `+`, then one or more decimal digits, with a value that fits.
pub open spec fn usize_of(s: Seq<u8>) -> Option<nat> {
    let d = unsigned_part(s);
    if d.len() > 0 && all_digits(d) && digits_value(d) <= usize::MAX {
        Some(digits_value(d))
    } else {
        None
    }
}

/// Reads a `Content-Length` value.
pub fn parse_content_length(s: &[u8]) -> (r: Result<usize, ServerError>)
    ensures
        usize_of(s@) matches Some(n) ==> r == Ok::<usize, ServerError>(n as usize),
        usize_of(s@) is None ==> r == Err::<usize, ServerError>(ServerError::ParseIntError),
{
    let start: usize = if s.len() > 0 && s[0] == 43 { 1 } else { 0 };
    let ghost d = unsigned_part(s@);
    assert(d =~= s@.subrange(start as int, s@.len() as int));
    if start >= s.len() {
        return Err(ServerError::ParseIntError);
    }
    let mut acc: usize = 0;
    let mut i: usize = start;
    while i < s.len()
        invariant
            start <= i <= s.len(),
            d == s@.subrange(start as int, s@.len() as int),
            d == unsigned_part(s@),
            forall|t: int| start <= t < i ==> is_digit(#[trigger] s@[t]),
            acc as nat == digits_value(s@.subrange(start as int, i as int)),
        decreases s.len() - i,
    {
        let c = s[i];
        if !(48 <= c && c <= 57) {
            assert(!is_digit(d[i - start]));
            return Err(ServerError::ParseIntError);
        }
        let digit = (c - 48) as usize;
        assert(s@.subrange(start as int, i + 1).drop_last() =~= s@.subrange(start as int, i as int));
        if acc > (usize::MAX - digit) / 10 {
            proof {
                assert forall|j: int| 0 <= j < d.len() implies is_digit(#[trigger] d[j]) || j >= i
                    + 1 - start by {
                    if j < i + 1 - start {
                        assert(d[j] == s@[start + j]);
                    }
                }
                lemma_digits_value_grows(s@.subrange(start as int, s@.len() as int), (i + 1 - start) as int);
                assert(s@.subrange(start as int, s@.len() as int).subrange(0, i + 1 - start) =~= s@.subrange(start as int, i + 1));
                assert(acc * 10 + digit > usize::MAX) by (nonlinear_arith)
                    requires
                        acc > (usize::MAX - digit) / 10,
                        digit <= 9,
                ;
            }
            return Err(ServerError::ParseIntError);
        }
        assert(acc * 10 + digit <= usize::MAX) by (nonlinear_arith)
            requires
                acc <= (usize::MAX - digit) / 10,
                digit <= 9,
        ;
        acc = acc * 10 + digit;
        i += 1;
    }
    assert forall|t: int| 0 <= t < d.len() implies is_digit(#[trigger] d[t]) by {
        assert(d[t] == s@[start + t]);
    }
    Ok(acc)
}

/// A prefix of a digit string denotes no more than the whole.
proof fn lemma_digits_value_grows(s: Seq<u8>, k: int)
    requires
        0 <= k <= s.len(),
        forall|i: int| 0 <= i < s.len() ==> is_digit(#[trigger] s[i]) || i >= k,
    ensures
        digits_value(s.subrange(0, k)) <= digits_value(s) || exists|i: int|
            k <= i < s.len() && !is_digit(#[trigger] s[i]),
    decreases s.len() - k,
{
    if k < s.len() {
        if is_digit(s[k]) {
            lemma_digits_value_grows(s, k + 1);
            assert(s.subrange(0, k + 1).drop_last() =~= s.subrange(0, k));
        }
    } else {
        assert(s.subrange(0, k) =~= s);
    }
}

/// What a request asks the server to do.
pub enum Route {
    /// The path holds `..`: refused.
    Forbidden,
    /// List the directory at this path (below the served root).
    ListDirectory(Vec<u8>),
    /// Send this file of the server's own icons.
    StaticAsset(Vec<u8>),
    /// Send the file at this path (below the served root).
    ServeFile(Vec<u8>),
    /// Create a directory at this request path (below the served root).
    CreateDirectory(Vec<u8>),
    /// A directory was to be created, but the request names none.
    MissingDirectoryName,
    /// The `Action` field names no known action.
    InvalidAction,
    /// Store the upload's parts in the directory at this path; the body's
    /// parts are delimited by the boundary and it is this many bytes long.
    Upload(Vec<u8>, Vec<u8>, usize),
    /// A `POST` that is neither an action nor an upload.
    NotUpload,
}

/// A [`Route`] as plain values.
pub enum RouteView {
    Forbidden,
    ListDirectory(Seq<u8>),
    StaticAsset(Seq<u8>),
    ServeFile(Seq<u8>),
    CreateDirectory(Seq<u8>),
    MissingDirectoryName,
    InvalidAction,
    Upload(Seq<u8>, Seq<u8>, nat),
    NotUpload,
}

impl Route {
    pub open spec fn view(&self) -> RouteView {
        match self {
            Route::Forbidden => RouteView::Forbidden,
            Route::ListDirectory(p) => RouteView::ListDirectory(p@),
            Route::StaticAsset(p) => RouteView::StaticAsset(p@),
            Route::ServeFile(p) => RouteView::ServeFile(p@),
            Route::CreateDirectory(p) => RouteView::CreateDirectory(p@),
            Route::MissingDirectoryName => RouteView::MissingDirectoryName,
            Route::InvalidAction => RouteView::InvalidAction,
            Route::Upload(d, b, n) => RouteView::Upload(d@, b@, *n as nat),
            Route::NotUpload => RouteView::NotUpload,
        }
    }
}

/// `..`
pub open spec fn dot_dot() -> Seq<u8> {
    seq![46u8, 46u8]
}

/// `static/icons`
pub open spec fn icons_prefix() -> Seq<u8> {
    seq![115u8, 116u8, 97u8, 116u8, 105u8, 99u8, 47u8, 105u8, 99u8, 111u8, 110u8, 115u8]
}

/// `Action`
pub open spec fn action_key() -> Seq<u8> {
    seq![65u8, 99u8, 116u8, 105u8, 111u8, 110u8]
}

/// `create_directory`
pub open spec fn create_directory() -> Seq<u8> {
    seq![
        99u8, 114u8, 101u8, 97u8, 116u8, 101u8, 95u8, 100u8, 105u8, 114u8, 101u8, 99u8, 116u8,
        111u8, 114u8, 121u8,
    ]
}

/// `Content-Type`
pub open spec fn content_type_key() -> Seq<u8> {
    seq![67u8, 111u8, 110u8, 116u8, 101u8, 110u8, 116u8, 45u8, 84u8, 121u8, 112u8, 101u8]
}

/// `Content-Length`
pub open spec fn content_length_key() -> Seq<u8> {
    seq![67u8, 111u8, 110u8, 116u8, 101u8, 110u8, 116u8, 45u8, 76u8, 101u8, 110u8, 103u8, 116u8, 104u8]
}

/// `boundary=`
pub open spec fn boundary_key() -> Seq<u8> {
    seq![98u8, 111u8, 117u8, 110u8, 100u8, 97u8, 114u8, 121u8, 61u8]
}

/// The boundary token of a `Content-Type` value: what follows its first
/// `boundary=`.
pub open spec fn boundary_of(content_type: Seq<u8>) -> Option<Seq<u8>> {
    match find_from(content_type, boundary_key(), 0) {
        Some(p) => Some(content_type.subrange(p + 9, content_type.len() as int)),
        None => None,
    }
}

/// The request path without its first byte (the leading `/`).
pub open spec fn relative_path(url: Seq<u8>) -> Seq<u8> {
    if url.len() == 0 {
        url
    } else {
        url.drop_first()
    }
}

/// What a request with this method, path and fields asks for; `None` where
/// its `Content-Length` is not a number.
pub open spec fn route_of(
    m: HTTPRequestType,
    url: Seq<u8>,
    fields: Map<Seq<u8>, Seq<u8>>,
) -> Option<RouteView> {
    let path = relative_path(url);
    if find_from(url, dot_dot(), 0) is Some {
        Some(RouteView::Forbidden)
    } else if m == HTTPRequestType::GET {
        if url.len() > 0 && url.last() == 47u8 {
            Some(RouteView::ListDirectory(path))
        } else if matches_at(path, icons_prefix(), 0) {
            Some(RouteView::StaticAsset(path))
        } else {
            Some(RouteView::ServeFile(path))
        }
    } else if fields.contains_key(action_key()) {
        if fields[action_key()] == create_directory() {
            if url.len() == 0 {
                Some(RouteView::MissingDirectoryName)
            } else {
                Some(RouteView::CreateDirectory(url))
            }
        } else {
            Some(RouteView::InvalidAction)
        }
    } else if fields.contains_key(content_type_key()) && boundary_of(
        fields[content_type_key()],
    ) is Some && fields.contains_key(content_length_key()) {
        match usize_of(fields[content_length_key()]) {
            Some(n) => Some(
                RouteView::Upload(path, boundary_of(fields[content_type_key()])->Some_0, n),
            ),
            None => None,
        }
    } else {
        Some(RouteView::NotUpload)
    }
}

/// Decides what a decoded request asks for. A `Content-Length` that is not
/// a number is an error.
pub fn route(req: &Request) -> (r: Result<Route, ServerError>)
    ensures
        route_of(req.r_type, req.url@, req.info.view()) matches Some(v) ==> (r matches Ok(x)
            && x.view() == v),
        route_of(req.r_type, req.url@, req.info.view()) is None ==> r == Err::<Route, ServerError>(
            ServerError::ParseIntError,
        ),
{
    let url = req.url.as_slice();
    let n = url.len();
    let path = if n == 0 { copy_range(url, 0, 0) } else { copy_range(url, 1, n) };
    assert(path@ =~= relative_path(url@));
    let dd: [u8; 2] = [46, 46];
    assert(dd@ =~= dot_dot());
    if find_bytes(url, dd.as_slice(), 0).is_some() {
        return Ok(Route::Forbidden);
    }
    match req.r_type {
        HTTPRequestType::GET => {
            let icons: [u8; 12] = [115, 116, 97, 116, 105, 99, 47, 105, 99, 111, 110, 115];
            assert(icons@ =~= icons_prefix());
            if n > 0 && url[n - 1] == 47 {
                Ok(Route::ListDirectory(path))
            } else if bytes_match_at(path.as_slice(), icons.as_slice(), 0) {
                Ok(Route::StaticAsset(path))
            } else {
                Ok(Route::ServeFile(path))
            }
        },
        HTTPRequestType::POST => {
            let action: [u8; 6] = [65, 99, 116, 105, 111, 110];
            assert(action@ =~= action_key());
            match req.info.get(action.as_slice()) {
                Some(a) => {
                    let create: [u8; 16] = [
                        99, 114, 101, 97, 116, 101, 95, 100, 105, 114, 101, 99, 116, 111, 114, 121,
                    ];
                    assert(create@ =~= create_directory());
                    if slice_eq(a.as_slice(), create.as_slice()) {
                        if n == 0 {
                            Ok(Route::MissingDirectoryName)
                        } else {
                            let u = copy_range(url, 0, n);
                            assert(u@ =~= url@);
                            Ok(Route::CreateDirectory(u))
                        }
                    } else {
                        Ok(Route::InvalidAction)
                    }
                },
                None => {
                    let ct: [u8; 12] = [67, 111, 110, 116, 101, 110, 116, 45, 84, 121, 112, 101];
                    assert(ct@ =~= content_type_key());
                    let cl: [u8; 14] = [67, 111, 110, 116, 101, 110, 116, 45, 76, 101, 110, 103, 116, 104];
                    assert(cl@ =~= content_length_key());
                    let bk: [u8; 9] = [98, 111, 117, 110, 100, 97, 114, 121, 61];
                    assert(bk@ =~= boundary_key());
                    let ctype = req.info.get(ct.as_slice());
                    let clen = req.info.get(cl.as_slice());
                    match (ctype, clen) {
                        (Some(t), Some(l)) => {
                            let t = t.as_slice();
                            match find_bytes(t, bk.as_slice(), 0) {
                                Some(p) => {
                                    proof {
                                        crate::bytes::lemma_find_from(t@, boundary_key(), 0);
                                        assert(boundary_key().len() == 9);
                                    }
                                    let tn = t.len();
                                    let boundary = copy_range(t, p + 9, tn);
                                    match parse_content_length(l.as_slice()) {
                                        Ok(len) => Ok(Route::Upload(path, boundary, len)),
                                        Err(e) => Err(e),
                                    }
                                },
                                None => Ok(Route::NotUpload),
                            }
                        },
                        _ => Ok(Route::NotUpload),
                    }
                },
            }
        },
    }
}

} // verus!
