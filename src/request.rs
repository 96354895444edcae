//! Request header decoding: the request line and the header fields, and the
//! scanner that finds the end of the header block in bytes read in pieces.
use vstd::prelude::*;
use crate::bytes::{
    matches_at,
    find_from,
    is_prefix,
    lemma_find_from,
    lemma_find_skip,
    lemma_find_prefix_some,
    lemma_matches_prefix,
    lemma_prefix_range,
    find_bytes,
    copy_range,
    append_bytes,
};
use crate::fields::{
    join,
    free_of,
    trim,
    field_sep,
    pairs_map,
    line_field,
    lemma_split_join,
    lemma_free_lacks,
    lemma_window_left,
    lemma_window_right,
    lacks,
    lemma_fold_fields_pairs,
    split,
    split_bytes,
    views,
    fields_of,
    compile_header_info,
    diagnostics_of,
    diagnostic_views,
    Diagnostic,
    lemma_split_nonempty,
    FieldMap,
    slice_eq,
};
use crate::multipart::{crlf, header_end};
use crate::error::{ParseFault, ServerError};

verus! {

/// A request method that the server supports.
#[derive(Clone, Copy, Debug, PartialEq, Eq, Structural)]
pub enum HTTPRequestType {
    GET,
    POST,
}

/// A space.
pub open spec fn space() -> Seq<u8> {
    seq![32u8]
}

/// The token that names a method.
pub open spec fn method_token(m: HTTPRequestType) -> Seq<u8> {
    match m {
        HTTPRequestType::GET => seq![71u8, 69u8, 84u8],
        HTTPRequestType::POST => seq![80u8, 79u8, 83u8, 84u8],
    }
}

/// The method that a token names, if it names a supported one.
pub open spec fn method_of(tok: Seq<u8>) -> Option<HTTPRequestType> {
    if tok == method_token(HTTPRequestType::GET) {
        Some(HTTPRequestType::GET)
    } else if tok == method_token(HTTPRequestType::POST) {
        Some(HTTPRequestType::POST)
    } else {
        None
    }
}

impl HTTPRequestType {
    /// The method that `value` names; any other token is an unsupported
    /// method.
    pub fn try_from(value: &[u8]) -> (r: Result<HTTPRequestType, ServerError>)
        ensures
            method_of(value@) matches Some(m) ==> r == Ok::<HTTPRequestType, ServerError>(m),
            method_of(value@) is None ==> (r matches Err(ServerError::HTTPParseError(f, d)) && f
                == ParseFault::UnsupportedMethod && d@ == value@),
    {
        let get: [u8; 3] = [71, 69, 84];
        let post: [u8; 4] = [80, 79, 83, 84];
        assert(get@ =~= method_token(HTTPRequestType::GET));
        assert(post@ =~= method_token(HTTPRequestType::POST));
        if slice_eq(value, get.as_slice()) {
            Ok(HTTPRequestType::GET)
        } else if slice_eq(value, post.as_slice()) {
            Ok(HTTPRequestType::POST)
        } else {
            let d = copy_range(value, 0, value.len());
            assert(d@ =~= value@);
            Err(ServerError::HTTPParseError(ParseFault::UnsupportedMethod, d))
        }
    }

    /// The method's token.
    pub fn token(&self) -> (r: Vec<u8>)
        ensures
            r@ == method_token(*self),
    {
        let mut r: Vec<u8> = Vec::new();
        match self {
            HTTPRequestType::GET => {
                r.push(71);
                r.push(69);
                r.push(84);
            },
            HTTPRequestType::POST => {
                r.push(80);
                r.push(79);
                r.push(83);
                r.push(84);
            },
        }
        assert(r@ =~= method_token(*self));
        r
    }
}

/// A decoded request: method, path, protocol version and header fields,
/// with the findings about header lines that were skipped or repeated.
pub struct Request {
    pub r_type: HTTPRequestType,
    pub url: Vec<u8>,
    pub version: Vec<u8>,
    pub info: FieldMap,
    pub warnings: Vec<Diagnostic>,
}

impl Request {
    /// The request as plain values.
    pub open spec fn model(&self) -> (HTTPRequestType, Seq<u8>, Seq<u8>, Map<Seq<u8>, Seq<u8>>) {
        (self.r_type, self.url@, self.version@, self.info.view())
    }
}

/// What a header block (the bytes before the blank line) decodes to: the
/// method, path and version of its first line and the fields of the other
/// lines, or the fault with the offending text.
pub open spec fn parse_request(block: Seq<u8>) -> Result<
    (HTTPRequestType, Seq<u8>, Seq<u8>, Map<Seq<u8>, Seq<u8>>),
    (ParseFault, Seq<u8>),
> {
    let lines = split(block, crlf());
    let toks = split(lines[0], space());
    if toks.len() != 3 {
        Err((ParseFault::MalformedRequestLine, lines[0]))
    } else {
        match method_of(toks[0]) {
            None => Err((ParseFault::UnsupportedMethod, toks[0])),
            Some(m) => Ok((m, toks[1], toks[2], fields_of(lines.drop_first()))),
        }
    }
}

impl Request {
    /// Decodes a header block: the first line must be exactly three
    /// space-separated tokens with a supported method; each later line
    /// `Name: value` becomes a field, later names replacing earlier ones,
    /// and a line without `": "` is skipped.
    pub fn parse_header(block: &[u8]) -> (r: Result<Request, ServerError>)
        ensures
            parse_request(block@) matches Ok(m) ==> (r matches Ok(req) && req.model() == m
                && diagnostic_views(req.warnings@) == diagnostics_of(
                split(block@, crlf()).drop_first(),
            )),
            parse_request(block@) matches Err(e) ==> (r matches Err(
                ServerError::HTTPParseError(f, d),
            ) && f == e.0 && d@ == e.1),
    {
        let nl: [u8; 2] = [13, 10];
        let nl_s = nl.as_slice();
        assert(nl_s@ =~= crlf());
        let lines = split_bytes(block, nl_s);
        proof {
            lemma_split_nonempty(block@, crlf(), 0, 0);
        }
        assert(views(lines@)[0] == lines@[0]@);
        let sp: [u8; 1] = [32];
        let sp_s = sp.as_slice();
        assert(sp_s@ =~= space());
        let toks = split_bytes(lines[0].as_slice(), sp_s);
        if toks.len() != 3 {
            let n = lines[0].len();
            let d = copy_range(lines[0].as_slice(), 0, n);
            assert(d@ =~= lines@[0]@);
            return Err(ServerError::HTTPParseError(ParseFault::MalformedRequestLine, d));
        }
        assert(views(toks@)[0] == toks@[0]@);
        assert(views(toks@)[1] == toks@[1]@);
        assert(views(toks@)[2] == toks@[2]@);
        let r_type = match HTTPRequestType::try_from(toks[0].as_slice()) {
            Ok(m) => m,
            Err(e) => {
                return Err(e);
            },
        };
        let n1 = toks[1].len();
        let url = copy_range(toks[1].as_slice(), 0, n1);
        let n2 = toks[2].len();
        let version = copy_range(toks[2].as_slice(), 0, n2);
        assert(url@ =~= toks@[1]@);
        assert(version@ =~= toks@[2]@);
        let (info, warnings) = compile_header_info(&lines, 1);
        assert(views(lines@).subrange(1, lines.len() as int) =~= views(lines@).drop_first());
        Ok(Request { r_type, url, version, info, warnings })
    }
}

/// The header block of a stream: the bytes before its first blank line.
pub open spec fn header_block(s: Seq<u8>) -> Seq<u8> {
    match find_from(s, header_end(), 0) {
        Some(p) => s.subrange(0, p),
        None => s,
    }
}

/// Collects the bytes of a request as they are read, in pieces of any size,
/// until the blank line that ends the header block has arrived.
pub struct HeaderScanner {
    buf: Vec<u8>,
    searched: usize,
}

impl HeaderScanner {
    /// The bytes received so far.
    pub closed spec fn received(&self) -> Seq<u8> {
        self.buf@
    }

    /// The scanner's internal invariant.
    pub closed spec fn wf(&self) -> bool {
        &&& self.searched <= self.buf@.len()
        &&& (self.searched == 0 || self.searched + 3 <= self.buf@.len())
        &&& forall|t: int| 0 <= t < self.searched ==> !matches_at(self.buf@, header_end(), t)
    }

    /// A scanner that has received nothing.
    pub fn new() -> (r: HeaderScanner)
        ensures
            r.wf(),
            r.received() == Seq::<u8>::empty(),
    {
        HeaderScanner { buf: Vec::new(), searched: 0 }
    }

    /// Takes the bytes of one read. Once the bytes received hold a blank
    /// line, returns the header block before the first one and the bytes
    /// after it, which begin the body.
    pub fn push(&mut self, chunk: &[u8]) -> (r: Option<(Vec<u8>, Vec<u8>)>)
        requires
            old(self).wf(),
        ensures
            final(self).wf(),
            final(self).received() == old(self).received() + chunk@,
            match find_from(final(self).received(), header_end(), 0) {
                Some(p) => (r matches Some(parts) && parts.0@ == final(self).received().subrange(
                    0,
                    p,
                ) && parts.1@ == final(self).received().subrange(
                    p + 4,
                    final(self).received().len() as int,
                )),
                None => r is None,
            },
    {
        let ghost old_buf = self.buf@;
        append_bytes(&mut self.buf, chunk);
        let ghost buf = self.buf@;
        assert(buf.subrange(0, old_buf.len() as int) =~= old_buf);
        assert forall|t: int| 0 <= t < self.searched implies !matches_at(buf, header_end(), t) by {
            lemma_matches_prefix(old_buf, buf, header_end(), t);
        }
        proof {
            lemma_find_skip(buf, header_end(), 0, self.searched as int);
            lemma_find_from(buf, header_end(), self.searched as int);
        }
        let he: [u8; 4] = [13, 10, 13, 10];
        let he_s = he.as_slice();
        assert(he_s@ =~= header_end());
        match find_bytes(self.buf.as_slice(), he_s, self.searched) {
            Some(p) => {
                let n = self.buf.len();
                let head = copy_range(self.buf.as_slice(), 0, p);
                let rest = copy_range(self.buf.as_slice(), p + 4, n);
                Some((head, rest))
            },
            None => {
                let n = self.buf.len();
                if n >= 3 {
                    self.searched = n - 3;
                }
                None
            },
        }
    }
}

/// However a request's bytes are cut into reads, the header block that the
/// scanner hands over once a blank line has arrived is that of the whole
/// stream, and so decodes to the same request.
pub proof fn lemma_header_fragmentation(fed: Seq<u8>, s: Seq<u8>)
    requires
        is_prefix(fed, s),
        find_from(fed, header_end(), 0) is Some,
    ensures
        find_from(s, header_end(), 0) == find_from(fed, header_end(), 0),
        header_block(s) == header_block(fed),
        parse_request(header_block(s)) == parse_request(header_block(fed)),
{
    lemma_find_prefix_some(fed, s, header_end(), 0);
    lemma_find_from(fed, header_end(), 0);
    let p = find_from(fed, header_end(), 0)->Some_0;
    lemma_prefix_range(fed, s, 0, p);
}

/// The request line `<METHOD> <PATH> <VERSION>`.
pub open spec fn request_line(m: HTTPRequestType, path: Seq<u8>, version: Seq<u8>) -> Seq<u8> {
    join(seq![method_token(m), path, version], space())
}

/// The header line `Name: value`.
pub open spec fn field_line(f: (Seq<u8>, Seq<u8>)) -> Seq<u8> {
    f.0 + field_sep() + f.1
}

/// The lines of a request head: the request line, then one per field.
pub open spec fn request_lines(
    m: HTTPRequestType,
    path: Seq<u8>,
    version: Seq<u8>,
    fields: Seq<(Seq<u8>, Seq<u8>)>,
) -> Seq<Seq<u8>> {
    seq![request_line(m, path, version)] + fields.map_values(|f: (Seq<u8>, Seq<u8>)| field_line(f))
}

/// A request head as sent: each line ended by `\r\n`, then a blank line.
pub open spec fn request_text(
    m: HTTPRequestType,
    path: Seq<u8>,
    version: Seq<u8>,
    fields: Seq<(Seq<u8>, Seq<u8>)>,
) -> Seq<u8> {
    join(request_lines(m, path, version, fields), crlf()) + header_end()
}

/// A path or version token: no space and no `\r\n`.
pub open spec fn plain_token(t: Seq<u8>) -> bool {
    free_of(t, 32u8) && lacks(t, crlf())
}

/// A well-formed field: a name without `": "` or `\r\n`, and a value
/// without `\r\n` or surrounding whitespace.
pub open spec fn plain_field(f: (Seq<u8>, Seq<u8>)) -> bool {
    &&& lacks(f.0, field_sep())
    &&& lacks(f.0, crlf())
    &&& lacks(f.1, crlf())
    &&& trim(f.1) == f.1
}

/// A field line splits back into its name and value.
proof fn lemma_line_field(f: (Seq<u8>, Seq<u8>))
    requires
        plain_field(f),
    ensures
        line_field(field_line(f)) == Some(f),
{
    let l = field_line(f);
    let n = f.0.len() as int;
    assert(l =~= f.0 + (field_sep() + f.1));
    assert forall|t: int| 0 <= t < n implies !matches_at(l, field_sep(), t) by {
        if t + 2 <= n {
            lemma_window_left(f.0, field_sep() + f.1, field_sep(), t);
        } else if t + 2 <= l.len() {
            assert(l.subrange(t, t + 2)[1] == l[t + 1]);
        }
    }
    crate::bytes::lemma_find_skip(l, field_sep(), 0, n);
    assert(l.subrange(n, n + 2) =~= field_sep());
    assert(l.subrange(0, n) =~= f.0);
    assert(l.subrange(n + 2, l.len() as int) =~= f.1);
}

/// Where `\r\n` occurs, its two bytes are there.
proof fn lemma_crlf_bytes(s: Seq<u8>, t: int)
    requires
        matches_at(s, crlf(), t),
    ensures
        s[t] == 13u8,
        s[t + 1] == 10u8,
{
    assert(s.subrange(t, t + 2)[0] == s[t]);
    assert(s.subrange(t, t + 2)[1] == s[t + 1]);
}

/// Two bytes `\r\n` at `t` are an occurrence of `\r\n`.
proof fn lemma_crlf_at(s: Seq<u8>, t: int)
    requires
        0 <= t,
        t + 2 <= s.len(),
        s[t] == 13u8,
        s[t + 1] == 10u8,
    ensures
        matches_at(s, crlf(), t),
{
    assert(s.subrange(t, t + 2) =~= crlf());
}

/// Tokens without `\r\n`, joined by spaces, hold no `\r\n`.
proof fn lemma_spaced_lacks_crlf(ls: Seq<Seq<u8>>)
    requires
        forall|i: int| 0 <= i < ls.len() ==> lacks(#[trigger] ls[i], crlf()),
    ensures
        lacks(join(ls, space()), crlf()),
    decreases ls.len(),
{
    if ls.len() == 1 {
        assert(lacks(ls[0], crlf()));
    } else if ls.len() > 1 {
        let l0 = ls[0];
        let rest = ls.drop_first();
        assert(lacks(ls[0], crlf()));
        assert forall|i: int| 0 <= i < rest.len() implies lacks(#[trigger] rest[i], crlf()) by {
            assert(rest[i] == ls[i + 1]);
        }
        lemma_spaced_lacks_crlf(rest);
        let j = join(ls, space());
        let jr = join(rest, space());
        assert(j =~= (l0 + space()) + jr);
        assert forall|t: int| !matches_at(j, crlf(), t) by {
            if matches_at(j, crlf(), t) {
                lemma_crlf_bytes(j, t);
                if t + 2 <= l0.len() {
                    lemma_crlf_at(l0, t);
                } else if t + 1 == l0.len() || t == l0.len() {
                } else {
                    lemma_window_right(l0 + space(), jr, crlf(), t - l0.len() - 1);
                }
            }
        }
    }
}

/// A field line of a well-formed field holds no `\r\n`.
proof fn lemma_field_line_lacks_crlf(f: (Seq<u8>, Seq<u8>))
    requires
        plain_field(f),
    ensures
        lacks(field_line(f), crlf()),
{
    let l = field_line(f);
    let n = f.0.len() as int;
    assert(l =~= (f.0 + field_sep()) + f.1);
    assert forall|t: int| !matches_at(l, crlf(), t) by {
        if matches_at(l, crlf(), t) {
            lemma_crlf_bytes(l, t);
            if t + 2 <= n {
                lemma_crlf_at(f.0, t);
            } else if t <= n + 1 {
            } else {
                lemma_window_right(f.0 + field_sep(), f.1, crlf(), t - n - 2);
            }
        }
    }
}

/// The first line of joined lines, and the `\r` that follows it in the
/// head text.
proof fn lemma_join_head(ls: Seq<Seq<u8>>)
    requires
        ls.len() >= 1,
    ensures
        (join(ls, crlf()) + header_end()).subrange(0, ls[0].len() as int) == ls[0],
        (join(ls, crlf()) + header_end())[ls[0].len() as int] == 13u8,
{
    let u = join(ls, crlf()) + header_end();
    if ls.len() == 1 {
        assert(u.subrange(0, ls[0].len() as int) =~= ls[0]);
    } else {
        assert(u =~= ls[0] + (crlf() + join(ls.drop_first(), crlf()) + header_end()));
        assert(u.subrange(0, ls[0].len() as int) =~= ls[0]);
    }
}

/// Non-empty lines without `\r\n`, joined by `\r\n`: no blank line starts
/// inside them.
proof fn lemma_join_no_blank_line(ls: Seq<Seq<u8>>)
    requires
        ls.len() >= 1,
        forall|i: int| 0 <= i < ls.len() ==> lacks(#[trigger] ls[i], crlf()) && ls[i].len() > 0,
    ensures
        forall|t: int|
            0 <= t < join(ls, crlf()).len() ==> !matches_at(
                join(ls, crlf()) + header_end(),
                header_end(),
                t,
            ),
    decreases ls.len(),
{
    let j = join(ls, crlf());
    let text = j + header_end();
    let l0 = ls[0];
    assert(lacks(ls[0], crlf()) && ls[0].len() > 0);
    lemma_join_head(ls);
    if ls.len() > 1 {
        let rest = ls.drop_first();
        assert forall|i: int| 0 <= i < rest.len() implies lacks(#[trigger] rest[i], crlf())
            && rest[i].len() > 0 by {
            assert(rest[i] == ls[i + 1]);
        }
        lemma_join_no_blank_line(rest);
        lemma_join_head(rest);
        assert(lacks(rest[0], crlf()) && rest[0].len() > 0);
    }
    assert forall|t: int| 0 <= t < j.len() implies !matches_at(text, header_end(), t) by {
        if matches_at(text, header_end(), t) {
            let w = text.subrange(t, t + 4);
            assert(w[0] == text[t] && w[1] == text[t + 1] && w[2] == text[t + 2] && w[3] == text[t
                + 3]);
            if t + 2 <= l0.len() {
                assert(text[t] == l0[t] && text[t + 1] == l0[t + 1]) by {
                    assert(text.subrange(0, l0.len() as int)[t] == text[t]);
                    assert(text.subrange(0, l0.len() as int)[t + 1] == text[t + 1]);
                }
                lemma_crlf_at(l0, t);
            } else if t + 1 == l0.len() {
            } else {
                let rest = ls.drop_first();
                let u = join(rest, crlf()) + header_end();
                let k = l0.len() + 2;
                assert(text =~= (l0 + crlf()) + u);
                if t == l0.len() {
                    let l1 = rest[0];
                    assert(text[t + 2] == u[0] && text[t + 3] == u[1]);
                    if l1.len() >= 2 {
                        assert(u.subrange(0, l1.len() as int)[0] == u[0]);
                        assert(u.subrange(0, l1.len() as int)[1] == u[1]);
                        lemma_crlf_at(l1, 0);
                    }
                } else if t == l0.len() + 1 {
                } else {
                    lemma_window_right(l0 + crlf(), u, header_end(), t - k);
                }
            }
        }
    }
}

/// Any request line with plain path and version, followed by well-formed
/// `Name: value` lines and a blank line, decodes to exactly that method,
/// path, version and fields (later names replacing earlier ones).
pub proof fn lemma_request_round_trip(
    m: HTTPRequestType,
    path: Seq<u8>,
    version: Seq<u8>,
    fields: Seq<(Seq<u8>, Seq<u8>)>,
)
    requires
        plain_token(path),
        plain_token(version),
        forall|i: int| 0 <= i < fields.len() ==> plain_field(#[trigger] fields[i]),
    ensures
        parse_request(header_block(request_text(m, path, version, fields))) == Ok::<
            (HTTPRequestType, Seq<u8>, Seq<u8>, Map<Seq<u8>, Seq<u8>>),
            (ParseFault, Seq<u8>),
        >((m, path, version, pairs_map(fields))),
{
    let toks = seq![method_token(m), path, version];
    let rl = request_line(m, path, version);
    let fls = fields.map_values(|f: (Seq<u8>, Seq<u8>)| field_line(f));
    let lines = request_lines(m, path, version, fields);
    let block = join(lines, crlf());
    let text = request_text(m, path, version, fields);
    assert(free_of(method_token(m), 32u8) && free_of(method_token(m), 13u8));
    assert(crlf()[0] == 13u8 && space()[0] == 32u8);
    lemma_free_lacks(method_token(m), crlf());
    assert forall|i: int| 0 <= i < toks.len() implies lacks(#[trigger] toks[i], space()) && lacks(
        toks[i],
        crlf(),
    ) by {
        lemma_free_lacks(toks[i], space());
    }
    lemma_spaced_lacks_crlf(toks);
    lemma_split_join(toks, space());
    assert forall|i: int| 0 <= i < lines.len() implies lacks(#[trigger] lines[i], crlf())
        && lines[i].len() > 0 by {
        if i == 0 {
            assert(lines[0] == rl);
            assert(rl.len() > 0) by {
                assert(rl == method_token(m) + space() + join(toks.drop_first(), space()));
            }
        } else {
            assert(lines[i] == field_line(fields[i - 1]));
            assert(plain_field(fields[i - 1]));
            lemma_field_line_lacks_crlf(fields[i - 1]);
        }
    }
    lemma_split_join(lines, crlf());
    lemma_join_no_blank_line(lines);
    crate::bytes::lemma_find_skip(text, header_end(), 0, block.len() as int);
    assert(text.subrange(block.len() as int, (block.len() + 4) as int) =~= header_end());
    assert(text.subrange(0, block.len() as int) =~= block);
    assert(header_block(text) == block);
    assert(lines[0] == rl);
    assert(lines.drop_first() =~= fls);
    assert forall|k: int| 0 <= k < fields.len() implies line_field(#[trigger] fls[k]) == Some(
        fields[k],
    ) by {
        lemma_line_field(fields[k]);
    }
    lemma_fold_fields_pairs(fields, fls, 0);
    assert(fields.subrange(0, 0) =~= Seq::<(Seq<u8>, Seq<u8>)>::empty());
    assert(fls.subrange(0, fls.len() as int) =~= fls);
    assert(method_of(method_token(m)) == Some(m));
}

} // verus!
