//! Streaming `multipart/form-data` upload decoding.
//!
//! [`UploadDecoder`] is a resumable state machine: the caller feeds it the
//! bytes of the body as they arrive, in pieces of any size, and asks it what
//! to do next: read more, open a file for a part, write bytes to that file,
//! close it, or stop. What the decoder produces is pinned down by
//! [`decode`], a function of the whole body alone, so it does not depend on
//! how the body was cut into reads.
use vstd::prelude::*;
use crate::bytes::{
    matches_at,
    find_from,
    is_prefix,
    lemma_find_from,
    lemma_find_prefix_some,
    lemma_find_prefix_none,
    lemma_matches_prefix,
    lemma_find_shift,
    lemma_prefix_trans,
    lemma_prefix_full,
    lemma_prefix_range,
    find_bytes,
    bytes_match_at,
    copy_range,
    append_bytes,
};
use crate::fields::{
    split,
    split_bytes,
    views,
    fields_of,
    compile_header_info,
    lemma_window_right,
    FieldMap,
};
use crate::error::{ParseFault, ServerError};

verus! {

/// A line terminator.
pub open spec fn crlf() -> Seq<u8> {
    seq![13u8, 10u8]
}

/// The blank line that ends a header block.
pub open spec fn header_end() -> Seq<u8> {
    seq![13u8, 10u8, 13u8, 10u8]
}

/// Two hyphens.
pub open spec fn dash_dash() -> Seq<u8> {
    seq![45u8, 45u8]
}

/// The separator between `Content-Disposition` attributes.
pub open spec fn attr_sep() -> Seq<u8> {
    seq![59u8, 32u8]
}

/// `=`
pub open spec fn equals_sign() -> Seq<u8> {
    seq![61u8]
}

/// `Content-Disposition`
pub open spec fn content_disposition() -> Seq<u8> {
    seq![
        67u8, 111u8, 110u8, 116u8, 101u8, 110u8, 116u8, 45u8, 68u8, 105u8,
        115u8, 112u8, 111u8, 115u8, 105u8, 116u8, 105u8, 111u8, 110u8,
    ]
}

/// `filename`
pub open spec fn filename_key() -> Seq<u8> {
    seq![102u8, 105u8, 108u8, 101u8, 110u8, 97u8, 109u8, 101u8]
}

/// The marker before the first part: `--<boundary>\r\n`.
pub open spec fn first_separator(boundary: Seq<u8>) -> Seq<u8> {
    dash_dash() + boundary + crlf()
}

/// The marker before every later part and before the closing marker:
/// `\r\n--<boundary>`.
pub open spec fn mid_separator(boundary: Seq<u8>) -> Seq<u8> {
    crlf() + dash_dash() + boundary
}

/// `s` without leading `"` bytes.
pub open spec fn strip_quotes_start(s: Seq<u8>) -> Seq<u8>
    decreases s.len(),
{
    if s.len() > 0 && s[0] == 34u8 {
        strip_quotes_start(s.drop_first())
    } else {
        s
    }
}

/// `s` without trailing `"` bytes.
pub open spec fn strip_quotes_end(s: Seq<u8>) -> Seq<u8>
    decreases s.len(),
{
    if s.len() > 0 && s.last() == 34u8 {
        strip_quotes_end(s.drop_last())
    } else {
        s
    }
}

/// `s` without `"` bytes at either end.
pub open spec fn strip_quotes(s: Seq<u8>) -> Seq<u8> {
    strip_quotes_end(strip_quotes_start(s))
}

/// The attribute that one `key=value` piece contributes; a piece without
/// `=` contributes nothing.
pub open spec fn piece_attr(piece: Seq<u8>) -> Option<(Seq<u8>, Seq<u8>)> {
    match find_from(piece, equals_sign(), 0) {
        Some(p) => Some(
            (piece.subrange(0, p), strip_quotes(piece.subrange(p + 1, piece.len() as int))),
        ),
        None => None,
    }
}

/// The attributes of `pieces` folded into `m` in order; later keys win.
pub open spec fn fold_attrs(m: Map<Seq<u8>, Seq<u8>>, pieces: Seq<Seq<u8>>) -> Map<
    Seq<u8>,
    Seq<u8>,
>
    decreases pieces.len(),
{
    if pieces.len() == 0 {
        m
    } else {
        let m2 = match piece_attr(pieces[0]) {
            Some(a) => m.insert(a.0, a.1),
            None => m,
        };
        fold_attrs(m2, pieces.drop_first())
    }
}

/// The attributes of a `Content-Disposition` value such as
/// `form-data; name="f"; filename="a.txt"`.
pub open spec fn disposition_attrs(value: Seq<u8>) -> Map<Seq<u8>, Seq<u8>> {
    fold_attrs(Map::empty(), split(value, attr_sep()))
}

/// The file name that a part's header block declares.
pub open spec fn part_filename(block: Seq<u8>) -> Result<Seq<u8>, ParseFault> {
    let fields = fields_of(split(block, crlf()));
    if !fields.contains_key(content_disposition()) {
        Err(ParseFault::MissingContentDisposition)
    } else {
        let attrs = disposition_attrs(fields[content_disposition()]);
        if !attrs.contains_key(filename_key()) || attrs[filename_key()].len() == 0 {
            Err(ParseFault::MissingFilename)
        } else {
            Ok(attrs[filename_key()])
        }
    }
}

/// The bounds `(lo, hi)` of `s` without `"` bytes at either end.
fn quote_bounds(s: &[u8]) -> (r: (usize, usize))
    ensures
        r.0 <= r.1 <= s.len(),
        s@.subrange(r.0 as int, r.1 as int) == strip_quotes(s@),
{
    let mut lo: usize = 0;
    assert(s@.subrange(0, s@.len() as int) =~= s@);
    while lo < s.len() && s[lo] == 34
        invariant
            lo <= s.len(),
            strip_quotes_start(s@) == strip_quotes_start(s@.subrange(lo as int, s@.len() as int)),
        decreases s.len() - lo,
    {
        assert(s@.subrange(lo as int, s@.len() as int).drop_first() =~= s@.subrange(
            lo + 1,
            s@.len() as int,
        ));
        lo += 1;
    }
    let mut hi: usize = s.len();
    while hi > lo && s[hi - 1] == 34
        invariant
            lo <= hi <= s.len(),
            strip_quotes(s@) == strip_quotes_end(s@.subrange(lo as int, hi as int)),
        decreases hi,
    {
        assert(s@.subrange(lo as int, hi as int).drop_last() =~= s@.subrange(lo as int, hi - 1));
        hi -= 1;
    }
    (lo, hi)
}

/// Splits one `key=value` piece at its first `=` and strips quotes from the
/// value.
fn parse_attr(piece: &[u8]) -> (r: Option<(Vec<u8>, Vec<u8>)>)
    ensures
        r matches Some(a) ==> piece_attr(piece@) == Some((a.0@, a.1@)),
        r is None ==> piece_attr(piece@) is None,
{
    let eq: [u8; 1] = [61];
    let eq_s = eq.as_slice();
    assert(eq_s@ =~= equals_sign());
    match find_bytes(piece, eq_s, 0) {
        Some(p) => {
            proof {
                lemma_find_from(piece@, equals_sign(), 0);
                assert(matches_at(piece@, equals_sign(), p as int));
                assert(equals_sign().len() == 1);
            }
            let n = piece.len();
            let key = copy_range(piece, 0, p);
            let rest = copy_range(piece, p + 1, n);
            let (lo, hi) = quote_bounds(rest.as_slice());
            let value = copy_range(rest.as_slice(), lo, hi);
            Some((key, value))
        },
        None => None,
    }
}

/// Folds `key=value` pieces into an attribute map, later keys winning.
fn compile_attrs(pieces: &Vec<Vec<u8>>) -> (r: FieldMap)
    ensures
        r.view() == fold_attrs(Map::empty(), views(pieces@)),
{
    let mut m = FieldMap::new();
    let mut i: usize = 0;
    assert(views(pieces@).subrange(0, pieces.len() as int) =~= views(pieces@));
    while i < pieces.len()
        invariant
            i <= pieces.len(),
            fold_attrs(Map::empty(), views(pieces@)) == fold_attrs(
                m.view(),
                views(pieces@).subrange(i as int, pieces.len() as int),
            ),
        decreases pieces.len() - i,
    {
        let ghost rest = views(pieces@).subrange(i as int, pieces.len() as int);
        assert(rest.drop_first() =~= views(pieces@).subrange(i + 1, pieces.len() as int));
        assert(rest[0] == pieces@[i as int]@);
        match parse_attr(pieces[i].as_slice()) {
            Some((key, value)) => {
                m.insert(key, value);
            },
            None => {},
        }
        i += 1;
    }
    assert(views(pieces@).subrange(i as int, pieces.len() as int) =~= Seq::<Seq<u8>>::empty());
    m
}

/// The file name that a part's header block declares: the non-empty
/// `filename` attribute of its `Content-Disposition` field.
pub fn part_file_name(block: &[u8]) -> (r: Result<Vec<u8>, ParseFault>)
    ensures
        r matches Ok(name) ==> part_filename(block@) == Ok::<Seq<u8>, ParseFault>(name@),
        r matches Err(f) ==> part_filename(block@) == Err::<Seq<u8>, ParseFault>(f),
{
    let nl: [u8; 2] = [13, 10];
    let nl_s = nl.as_slice();
    assert(nl_s@ =~= crlf());
    let lines = split_bytes(block, nl_s);
    let (fields, _) = compile_header_info(&lines, 0);
    assert(views(lines@).subrange(0, lines.len() as int) =~= views(lines@));
    let cd: [u8; 19] = [
        67, 111, 110, 116, 101, 110, 116, 45, 68, 105, 115, 112, 111, 115, 105, 116, 105, 111, 110,
    ];
    let cd_s = cd.as_slice();
    assert(cd_s@ =~= content_disposition());
    match fields.get(cd_s) {
        None => Err(ParseFault::MissingContentDisposition),
        Some(value) => {
            let sep: [u8; 2] = [59, 32];
            let sep_s = sep.as_slice();
            assert(sep_s@ =~= attr_sep());
            let pieces = split_bytes(value.as_slice(), sep_s);
            let attrs = compile_attrs(&pieces);
            let key: [u8; 8] = [102, 105, 108, 101, 110, 97, 109, 101];
            let key_s = key.as_slice();
            assert(key_s@ =~= filename_key());
            match attrs.get(key_s) {
                None => Err(ParseFault::MissingFilename),
                Some(name) => {
                    if name.len() == 0 {
                        Err(ParseFault::MissingFilename)
                    } else {
                        let n = name.len();
                        let r = copy_range(name.as_slice(), 0, n);
                        assert(r@ =~= name@);
                        Ok(r)
                    }
                },
            }
        },
    }
}

/// The parts of the body `s` from index `i` on, where a part's header block
/// begins, and the fault that ended decoding, if one did.
///
/// A part is its header block up to the first `\r\n\r\n`, then its content
/// up to the next mid separator. After that separator, `--` closes the body;
/// anything else (normally `\r\n`) is skipped and the next part follows. A
/// body that ends inside a header block ends decoding; one that ends inside a
/// part's content ends that part.
pub open spec fn parts_from(s: Seq<u8>, boundary: Seq<u8>, i: int) -> (
    Seq<(Seq<u8>, Seq<u8>)>,
    Option<ParseFault>,
)
    decreases s.len() + 1 - i,
    via parts_from_decreases
{
    if i < 0 {
        (Seq::empty(), None)
    } else {
        match find_from(s, header_end(), i) {
            None => (Seq::empty(), None),
            Some(p) => match part_filename(s.subrange(i, p)) {
                Err(f) => (Seq::empty(), Some(f)),
                Ok(name) => {
                    let c = p + 4;
                    match find_from(s, mid_separator(boundary), c) {
                        None => (seq![(name, s.subrange(c, s.len() as int))], None),
                        Some(q) => {
                            let t = q + mid_separator(boundary).len();
                            let part = (name, s.subrange(c, q));
                            if t + 2 <= s.len() && s.subrange(t, t + 2) != dash_dash() {
                                let rest = parts_from(s, boundary, t + 2);
                                (seq![part] + rest.0, rest.1)
                            } else {
                                (seq![part], None)
                            }
                        },
                    }
                },
            },
        }
    }
}

#[via_fn]
proof fn parts_from_decreases(s: Seq<u8>, boundary: Seq<u8>, i: int) {
    if i >= 0 {
        lemma_find_from(s, header_end(), i);
        if let Some(p) = find_from(s, header_end(), i) {
            lemma_find_from(s, mid_separator(boundary), p + 4);
        }
    }
}

/// What an upload body decodes to: the parts, each a file name and its
/// content, and the fault that ended decoding, if one did. `s` is the body:
/// the first `content_length` bytes after the request's header block.
///
/// A declared length no longer than the first separator is an empty upload.
/// A body that does not begin with the first separator is malformed.
pub open spec fn decode(boundary: Seq<u8>, content_length: int, s: Seq<u8>) -> (
    Seq<(Seq<u8>, Seq<u8>)>,
    Option<ParseFault>,
) {
    let first = first_separator(boundary);
    if content_length <= first.len() {
        (Seq::empty(), None)
    } else if !(first.len() <= s.len() && s.subrange(0, first.len() as int) == first) {
        (Seq::empty(), Some(ParseFault::MissingFirstSeparator))
    } else {
        parts_from(s, boundary, first.len() as int)
    }
}

/// `s` is a whole body of `content_length` bytes that begins with `fed`.
pub open spec fn completes(fed: Seq<u8>, s: Seq<u8>, content_length: int) -> bool {
    is_prefix(fed, s) && s.len() == content_length
}

/// Some whole body of `content_length` bytes that begins with `fed`
/// decodes without fault.
pub open spec fn may_succeed(boundary: Seq<u8>, content_length: int, fed: Seq<u8>) -> bool {
    exists|s: Seq<u8>| #[trigger]
        completes(fed, s, content_length) && decode(boundary, content_length, s).1 is None
}

/// `fed` begins with the first separator.
pub open spec fn opens_with_first(boundary: Seq<u8>, fed: Seq<u8>) -> bool {
    first_separator(boundary).len() <= fed.len() && fed.subrange(
        0,
        first_separator(boundary).len() as int,
    ) == first_separator(boundary)
}

/// `fed` followed by zero bytes up to `content_length`.
pub open spec fn padded(fed: Seq<u8>, content_length: int) -> Seq<u8> {
    fed + Seq::new((content_length - fed.len()) as nat, |i: int| 0u8)
}

proof fn lemma_padded(fed: Seq<u8>, content_length: int)
    requires
        fed.len() <= content_length,
    ensures
        completes(fed, padded(fed, content_length), content_length),
        forall|k: int|
            fed.len() <= k < content_length ==> #[trigger] padded(fed, content_length)[k] == 0u8,
{
    assert(padded(fed, content_length).subrange(0, fed.len() as int) =~= fed);
}

/// No blank line starts at or after `i` in a body whose bytes from `z` on
/// are zero, when none lies wholly before `z`.
proof fn lemma_no_blank_line_past(s: Seq<u8>, i: int, z: int)
    requires
        0 <= i,
        forall|t: int| i <= t && t + 4 <= z ==> !matches_at(s, header_end(), t),
        forall|k: int| z <= k < s.len() ==> s[k] == 0u8,
    ensures
        find_from(s, header_end(), i) is None,
{
    lemma_find_from(s, header_end(), i);
    if let Some(j) = find_from(s, header_end(), i) {
        assert(s.subrange(j, j + 4)[3] == s[j + 3]);
        assert(header_end()[3] == 10u8);
    }
}

/// Parts that would begin in the zero tail of a body decode to nothing.
proof fn lemma_zero_tail_parts(s: Seq<u8>, boundary: Seq<u8>, i: int, z: int)
    requires
        0 <= z <= i,
        forall|k: int| z <= k < s.len() ==> s[k] == 0u8,
    ensures
        parts_from(s, boundary, i) == (Seq::<(Seq<u8>, Seq<u8>)>::empty(), None::<ParseFault>),
{
    lemma_no_blank_line_past(s, i, z);
}

/// While a part's content is incomplete and the body is not all in, the
/// body padded with zero bytes decodes without fault.
proof fn lemma_body_may_succeed(
    fed: Seq<u8>,
    len: int,
    b: Seq<u8>,
    h: int,
    c: int,
    pos: int,
)
    requires
        fed.len() < len,
        0 <= h,
        h + 4 <= c <= pos <= fed.len(),
        find_from(fed, header_end(), h) == Some(c - 4),
        part_filename(fed.subrange(h, c - 4)) is Ok,
        forall|t: int| c <= t < pos ==> !matches_at(fed, mid_separator(b), t),
        pos == c || pos + mid_separator(b).len() <= fed.len() + 1,
        forall|q: int|
            pos <= q && matches_at(fed, mid_separator(b), q) ==> q + mid_separator(b).len() + 2
                > fed.len(),
    ensures
        completes(fed, padded(fed, len), len),
        parts_from(padded(fed, len), b, h).1 is None,
{
    let w = padded(fed, len);
    let m = mid_separator(b).len() as int;
    lemma_padded(fed, len);
    lemma_find_prefix_some(fed, w, header_end(), h);
    lemma_prefix_range(fed, w, h, c - 4);
    if pos != c {
        lemma_find_prefix_none(fed, w, mid_separator(b), c, pos);
    }
    lemma_find_from(w, mid_separator(b), pos);
    if let Some(q) = find_from(w, mid_separator(b), pos) {
        if q + m <= fed.len() {
            lemma_matches_prefix(fed, w, mid_separator(b), q);
        }
        lemma_zero_tail_parts(w, b, q + m + 2, fed.len() as int);
    }
}

/// What the caller of [`UploadDecoder::advance`] is to do next.
pub enum Action {
    /// Read up to this many more body bytes and hand them to
    /// [`UploadDecoder::feed`].
    NeedMore(usize),
    /// Create (or truncate) a file of this name for the next part.
    Open(Vec<u8>),
    /// Append these bytes to the part's file.
    Write(Vec<u8>),
    /// The part's content is complete: close its file.
    Close,
    /// The whole body has been read and decoded.
    Done,
    /// The body is malformed; decoding stops.
    Fail(ServerError),
}

enum Phase {
    FirstSeparator,
    PartHeader,
    PartBody,
    Trailer,
    Finished,
    Failed(ParseFault),
}

/// A resumable decoder for one `multipart/form-data` upload body.
pub struct UploadDecoder {
    boundary: Vec<u8>,
    first: Vec<u8>,
    mid: Vec<u8>,
    content_length: usize,
    total_read: usize,
    buf: Vec<u8>,
    phase: Phase,
    fed: Ghost<Seq<u8>>,
    pos: Ghost<int>,
    header_at: Ghost<int>,
    body_at: Ghost<int>,
    name: Ghost<Seq<u8>>,
    finished_parts: Ghost<Seq<(Seq<u8>, Seq<u8>)>>,
}

impl UploadDecoder {
    /// The boundary token.
    pub closed spec fn boundary_view(&self) -> Seq<u8> {
        self.boundary@
    }

    /// The declared `Content-Length`.
    pub closed spec fn length(&self) -> int {
        self.content_length as int
    }

    /// The body bytes received so far.
    pub closed spec fn received(&self) -> Seq<u8> {
        self.fed@
    }

    /// The parts produced so far; while a part's content is being written,
    /// the last one holds what has been written of it.
    pub closed spec fn emitted(&self) -> Seq<(Seq<u8>, Seq<u8>)> {
        match self.phase {
            Phase::PartBody => self.finished_parts@.push(
                (self.name@, self.fed@.subrange(self.body_at@, self.pos@)),
            ),
            _ => self.finished_parts@,
        }
    }

    /// Whether decoding has ended without fault.
    pub closed spec fn is_finished(&self) -> bool {
        self.phase is Finished
    }

    /// The received bytes not yet decoded: the end of `received()`.
    pub closed spec fn buffered(&self) -> Seq<u8> {
        self.buf@
    }

    /// Whether a part's file is open: after `Open`, before `Close`.
    pub closed spec fn in_part(&self) -> bool {
        self.phase is PartBody
    }

    /// A measure that every `Open`, `Write` and `Close` lowers, so that a
    /// decoder that has received its whole body reaches `Done` or `Fail`.
    pub closed spec fn measure(&self) -> nat {
        3 * self.buf@.len() + match self.phase {
            Phase::FirstSeparator => 4nat,
            Phase::PartHeader => 3nat,
            Phase::PartBody => 2nat,
            Phase::Trailer => 1nat,
            Phase::Finished => 0nat,
            Phase::Failed(_) => 0nat,
        }
    }

    /// What the rest of a whole body `s` decodes to, from where the decoder
    /// stands.
    closed spec fn pending(&self, s: Seq<u8>) -> (Seq<(Seq<u8>, Seq<u8>)>, Option<ParseFault>) {
        match self.phase {
            Phase::FirstSeparator => decode(self.boundary@, self.content_length as int, s),
            Phase::PartHeader => parts_from(s, self.boundary@, self.pos@),
            Phase::PartBody => parts_from(s, self.boundary@, self.header_at@),
            Phase::Trailer => (Seq::empty(), None),
            Phase::Finished => (Seq::empty(), None),
            Phase::Failed(f) => (Seq::empty(), Some(f)),
        }
    }

    /// The decoder's internal invariant.
    pub closed spec fn wf(&self) -> bool {
        let fed = self.fed@;
        let len = self.content_length as int;
        let b = self.boundary@;
        &&& self.first@ == first_separator(b)
        &&& self.mid@ == mid_separator(b)
        &&& self.total_read == fed.len()
        &&& fed.len() <= len
        &&& 0 <= self.pos@ <= fed.len()
        &&& self.buf@ == fed.subrange(self.pos@, fed.len() as int)
        &&& forall|s: Seq<u8>| #[trigger]
            completes(fed, s, len) ==> decode(b, len, s) == (
                self.finished_parts@ + self.pending(s).0,
                self.pending(s).1,
            )
        &&& (self.phase is PartHeader || self.phase is PartBody || self.phase is Trailer
            || self.finished_parts@.len() > 0) ==> opens_with_first(b, fed)
        &&& match self.phase {
            Phase::FirstSeparator => {
                &&& self.pos@ == 0
                &&& self.finished_parts@.len() == 0
                &&& len > first_separator(b).len()
            },
            Phase::Finished => fed.len() == len || len <= first_separator(b).len(),
            Phase::PartBody => {
                &&& 0 <= self.header_at@
                &&& self.header_at@ + 4 <= self.body_at@ <= self.pos@
                &&& find_from(fed, header_end(), self.header_at@) == Some(self.body_at@ - 4)
                &&& part_filename(fed.subrange(self.header_at@, self.body_at@ - 4)) == Ok::<
                    Seq<u8>,
                    ParseFault,
                >(self.name@)
                &&& forall|t: int|
                    self.body_at@ <= t < self.pos@ ==> !matches_at(fed, mid_separator(b), t)
                &&& (self.pos@ == self.body_at@ || self.pos@ + mid_separator(b).len() <= fed.len()
                    + 1 || fed.len() == len)
            },
            _ => true,
        }
    }

    /// What an action returned by [`UploadDecoder::advance`] means, as a
    /// relation between the decoder before and after the call.
    pub open spec fn action_ok(pre: UploadDecoder, post: UploadDecoder, a: Action) -> bool {
        let b = pre.boundary_view();
        let len = pre.length();
        &&& post.wf()
        &&& post.received() == pre.received()
        &&& post.boundary_view() == b
        &&& post.length() == len
        &&& match a {
            Action::NeedMore(k) => {
                &&& k == len - pre.received().len()
                &&& k > 0
                &&& post.emitted() == pre.emitted()
                &&& post.in_part() == pre.in_part()
                &&& may_succeed(b, len, pre.received())
                &&& pre.in_part() ==> pre.buffered().len() < mid_separator(b).len() + 2
            },
            Action::Open(n) => {
                &&& post.emitted() == pre.emitted().push((n@, Seq::<u8>::empty()))
                &&& post.measure() < pre.measure()
                &&& !pre.in_part()
                &&& post.in_part()
            },
            Action::Write(d) => {
                &&& pre.in_part()
                &&& post.in_part()
                &&& post.measure() < pre.measure()
                &&& d@.len() > 0
                &&& pre.emitted().len() > 0
                &&& post.emitted() == pre.emitted().drop_last().push(
                    (pre.emitted().last().0, pre.emitted().last().1 + d@),
                )
            },
            Action::Close => {
                &&& pre.in_part()
                &&& !post.in_part()
                &&& post.emitted() == pre.emitted()
                &&& pre.emitted().len() > 0
                &&& post.measure() < pre.measure()
            },
            Action::Done => {
                &&& post.emitted() == pre.emitted()
                &&& post.is_finished()
                &&& (pre.received().len() == len || len <= first_separator(b).len())
                &&& forall|s: Seq<u8>| #[trigger]
                    completes(pre.received(), s, len) ==> decode(b, len, s) == (
                        pre.emitted(),
                        None::<ParseFault>,
                    )
            },
            Action::Fail(e) => match e {
                ServerError::HTTPParseError(f, d) => {
                    &&& d@.len() == 0
                    &&& post.emitted() == pre.emitted()
                    &&& forall|s: Seq<u8>| #[trigger]
                        completes(pre.received(), s, len) ==> decode(b, len, s) == (
                            pre.emitted(),
                            Some(f),
                        )
                },
                _ => false,
            },
        }
    }

    /// A decoder for a body of `content_length` bytes whose parts are
    /// delimited by `boundary`, given the body bytes that arrived together
    /// with the request's header block. Bytes past `content_length` are not
    /// part of the body and are ignored.
    pub fn new(boundary: &[u8], content_length: usize, initial: &[u8]) -> (r: UploadDecoder)
        ensures
            r.wf(),
            r.boundary_view() == boundary@,
            r.length() == content_length,
            r.received() == initial@.subrange(
                0,
                if initial@.len() <= content_length { initial@.len() as int } else { content_length as int },
            ),
            r.emitted() == Seq::<(Seq<u8>, Seq<u8>)>::empty(),
            r.buffered() == r.received(),
            !r.in_part(),
            r.is_finished() == (content_length <= first_separator(boundary@).len()),
    {
        let mut first: Vec<u8> = Vec::new();
        first.push(45);
        first.push(45);
        append_bytes(&mut first, boundary);
        first.push(13);
        first.push(10);
        let mut mid: Vec<u8> = Vec::new();
        mid.push(13);
        mid.push(10);
        mid.push(45);
        mid.push(45);
        append_bytes(&mut mid, boundary);
        assert(first@ =~= first_separator(boundary@));
        assert(mid@ =~= mid_separator(boundary@));
        let take = if initial.len() <= content_length { initial.len() } else { content_length };
        let buf = copy_range(initial, 0, take);
        let phase = if content_length <= first.len() { Phase::Finished } else { Phase::FirstSeparator };
        let boundary_v = copy_range(boundary, 0, boundary.len());
        assert(boundary_v@ =~= boundary@);
        let r = UploadDecoder {
            boundary: boundary_v,
            first,
            mid,
            content_length,
            total_read: take,
            buf,
            phase,
            fed: Ghost(initial@.subrange(0, take as int)),
            pos: Ghost(0),
            header_at: Ghost(0),
            body_at: Ghost(0),
            name: Ghost(Seq::empty()),
            finished_parts: Ghost(Seq::empty()),
        };
        assert(r.buf@ =~= r.fed@.subrange(0, r.fed@.len() as int));
        assert forall|s: Seq<u8>| #[trigger]
            completes(r.fed@, s, content_length as int) implies decode(
            boundary@,
            content_length as int,
            s,
        ) == (r.finished_parts@ + r.pending(s).0, r.pending(s).1) by {
            assert(r.finished_parts@ + r.pending(s).0 =~= r.pending(s).0);
        }
        r
    }

    /// Hands the decoder body bytes just read; bytes past the declared
    /// length are ignored.
    pub fn feed(&mut self, chunk: &[u8])
        requires
            old(self).wf(),
        ensures
            final(self).wf(),
            final(self).boundary_view() == old(self).boundary_view(),
            final(self).length() == old(self).length(),
            final(self).received() == old(self).received() + chunk@.subrange(
                0,
                if chunk@.len() <= old(self).length() - old(self).received().len() {
                    chunk@.len() as int
                } else {
                    old(self).length() - old(self).received().len()
                },
            ),
            final(self).emitted() == old(self).emitted(),
            final(self).buffered() == old(self).buffered() + (final(self).received().subrange(
                old(self).received().len() as int,
                final(self).received().len() as int,
            )),
            final(self).in_part() == old(self).in_part(),
            final(self).is_finished() == old(self).is_finished(),
    {
        let room = self.content_length - self.total_read;
        let take = if chunk.len() <= room { chunk.len() } else { room };
        let part = copy_range(chunk, 0, take);
        let ghost old_fed = self.fed@;
        append_bytes(&mut self.buf, part.as_slice());
        self.total_read = self.total_read + take;
        self.fed = Ghost(self.fed@ + part@);
        let ghost fed = self.fed@;
        let ghost len = self.content_length as int;
        let ghost b = self.boundary@;
        assert(fed.subrange(0, old_fed.len() as int) =~= old_fed);
        assert(is_prefix(old_fed, fed));
        assert(self.buf@ =~= fed.subrange(self.pos@, fed.len() as int));
        assert forall|s: Seq<u8>| #[trigger] completes(fed, s, len) implies completes(
            old_fed,
            s,
            len,
        ) by {
            lemma_prefix_trans(old_fed, fed, s);
        }
        proof {
            if opens_with_first(b, old_fed) {
                lemma_prefix_range(old_fed, fed, 0, first_separator(b).len() as int);
            }
        }
        assert(self.buffered() =~= old(self).buffered() + fed.subrange(
            old_fed.len() as int,
            fed.len() as int,
        ));
        match self.phase {
            Phase::PartBody => {
                proof {
                    lemma_find_prefix_some(old_fed, fed, header_end(), self.header_at@);
                    lemma_prefix_range(old_fed, fed, self.header_at@, self.body_at@ - 4);
                    lemma_prefix_range(old_fed, fed, self.body_at@, self.pos@);
                    lemma_find_from(old_fed, header_end(), self.header_at@);
                    if old_fed.len() < len {
                        assert forall|t: int|
                            self.body_at@ <= t < self.pos@ implies !matches_at(
                            fed,
                            mid_separator(b),
                            t,
                        ) by {
                            lemma_matches_prefix(old_fed, fed, mid_separator(b), t);
                        }
                    } else {
                        assert(part@.len() == 0);
                        assert(fed =~= old_fed);
                    }
                }
            },
            _ => {},
        }
    }

    fn fail_first_separator(&mut self) -> (r: Action)
        requires
            old(self).wf(),
            old(self).phase is FirstSeparator,
            forall|s: Seq<u8>| #[trigger]
                completes(old(self).fed@, s, old(self).content_length as int) ==> !(
                first_separator(old(self).boundary@).len() <= s.len() && s.subrange(
                    0,
                    first_separator(old(self).boundary@).len() as int,
                ) == first_separator(old(self).boundary@)),
        ensures
            Self::action_ok(*old(self), *final(self), r),
    {
        let ghost fed = self.fed@;
        let ghost len = self.content_length as int;
        let ghost b = self.boundary@;
        let f = ParseFault::MissingFirstSeparator;
        self.phase = Phase::Failed(f);
        assert forall|s: Seq<u8>| #[trigger] completes(fed, s, len) implies decode(b, len, s) == (
            self.finished_parts@ + self.pending(s).0,
            self.pending(s).1,
        ) && decode(b, len, s) == (old(self).emitted(), Some(f)) by {
            assert(self.finished_parts@ + Seq::<(Seq<u8>, Seq<u8>)>::empty() =~= Seq::<
                (Seq<u8>, Seq<u8>),
            >::empty());
        }
        Action::Fail(ServerError::HTTPParseError(f, Vec::new()))
    }

    fn step_first(&mut self) -> (r: Option<Action>)
        requires
            old(self).wf(),
            old(self).phase is FirstSeparator,
        ensures
            r matches Some(a) ==> Self::action_ok(*old(self), *final(self), a),
            r is None ==> {
                &&& final(self).wf()
                &&& final(self).phase is PartHeader
                &&& final(self).received() == old(self).received()
                &&& final(self).boundary_view() == old(self).boundary_view()
                &&& final(self).length() == old(self).length()
                &&& final(self).emitted() == old(self).emitted()
                &&& final(self).measure() < old(self).measure()
            },
    {
        let ghost fed = self.fed@;
        let ghost len = self.content_length as int;
        let ghost b = self.boundary@;
        assert(self.buf@ =~= fed);
        let k = self.first.len();
        if self.buf.len() < k {
            if !bytes_match_at(self.first.as_slice(), self.buf.as_slice(), 0) {
                assert forall|s: Seq<u8>| #[trigger] completes(fed, s, len) implies !(k <= s.len()
                    && s.subrange(0, k as int) == first_separator(b)) by {
                    if k <= s.len() && s.subrange(0, k as int) == first_separator(b) {
                        assert(s.subrange(0, fed.len() as int) =~= first_separator(b).subrange(
                            0,
                            fed.len() as int,
                        ));
                    }
                }
                return Some(self.fail_first_separator());
            }
            proof {
                let first = first_separator(b);
                let w = padded(first, len);
                lemma_padded(first, len);
                assert(w.subrange(0, fed.len() as int) =~= first.subrange(0, fed.len() as int));
                assert(completes(fed, w, len));
                assert(w.subrange(0, k as int) =~= first);
                lemma_zero_tail_parts(w, b, k as int, k as int);
                assert(decode(b, len, w).1 is None);
            }
            return Some(Action::NeedMore(self.content_length - self.total_read));
        }
        if !bytes_match_at(self.buf.as_slice(), self.first.as_slice(), 0) {
            assert forall|s: Seq<u8>| #[trigger] completes(fed, s, len) implies !(k <= s.len()
                && s.subrange(0, k as int) == first_separator(b)) by {
                lemma_prefix_range(fed, s, 0, k as int);
            }
            return Some(self.fail_first_separator());
        }
        let n = self.buf.len();
        self.buf = copy_range(self.buf.as_slice(), k, n);
        self.pos = Ghost(k as int);
        self.phase = Phase::PartHeader;
        assert forall|s: Seq<u8>| #[trigger] completes(fed, s, len) implies decode(b, len, s) == (
            self.finished_parts@ + self.pending(s).0,
            self.pending(s).1,
        ) by {
            lemma_prefix_range(fed, s, 0, first_separator(b).len() as int);
            assert(fed.subrange(0, k as int) == self.first@);
            assert(self.finished_parts@ + self.pending(s).0 =~= self.pending(s).0);
        }
        None
    }

    fn step_header(&mut self) -> (r: Action)
        requires
            old(self).wf(),
            old(self).phase is PartHeader,
        ensures
            Self::action_ok(*old(self), *final(self), r),
    {
        let ghost fed = self.fed@;
        let ghost len = self.content_length as int;
        let ghost b = self.boundary@;
        let ghost pos = self.pos@;
        let ghost done = self.finished_parts@;
        let he: [u8; 4] = [13, 10, 13, 10];
        let he_s = he.as_slice();
        assert(he_s@ =~= header_end());
        proof {
            lemma_find_shift(fed, header_end(), pos);
            lemma_find_from(self.buf@, header_end(), 0);
        }
        match find_bytes(self.buf.as_slice(), he_s, 0) {
            Some(j) => {
                let block = copy_range(self.buf.as_slice(), 0, j);
                assert(block@ =~= fed.subrange(pos, pos + j));
                match part_file_name(block.as_slice()) {
                    Err(f) => {
                        self.phase = Phase::Failed(f);
                        assert forall|s: Seq<u8>| #[trigger] completes(fed, s, len) implies decode(
                            b,
                            len,
                            s,
                        ) == (done + self.pending(s).0, self.pending(s).1) && decode(b, len, s) == (
                            done,
                            Some(f),
                        ) by {
                            lemma_find_prefix_some(fed, s, header_end(), pos);
                            lemma_prefix_range(fed, s, pos, pos + j);
                            assert(done + Seq::<(Seq<u8>, Seq<u8>)>::empty() =~= done);
                        }
                        Action::Fail(ServerError::HTTPParseError(f, Vec::new()))
                    },
                    Ok(name) => {
                        let n = self.buf.len();
                        self.buf = copy_range(self.buf.as_slice(), j + 4, n);
                        assert(self.buf@ =~= fed.subrange(pos + j + 4, fed.len() as int));
                        self.header_at = Ghost(pos);
                        self.body_at = Ghost(pos + j + 4);
                        self.pos = Ghost(pos + j + 4);
                        self.name = Ghost(name@);
                        self.phase = Phase::PartBody;
                        assert(fed.subrange(pos + j + 4, pos + j + 4) =~= Seq::<u8>::empty());
                        Action::Open(name)
                    },
                }
            },
            None => {
                if self.total_read == self.content_length {
                    self.phase = Phase::Finished;
                    assert forall|s: Seq<u8>| #[trigger] completes(fed, s, len) implies decode(
                        b,
                        len,
                        s,
                    ) == (done + self.pending(s).0, self.pending(s).1) && decode(b, len, s) == (
                        done,
                        None::<ParseFault>,
                    ) by {
                        lemma_prefix_full(fed, s);
                        lemma_find_from(fed, header_end(), pos);
                        assert(done + Seq::<(Seq<u8>, Seq<u8>)>::empty() =~= done);
                    }
                    Action::Done
                } else {
                    proof {
                        let w = padded(fed, len);
                        lemma_padded(fed, len);
                        assert forall|t: int| pos <= t && t + 4 <= fed.len() implies !matches_at(
                            w,
                            header_end(),
                            t,
                        ) by {
                            lemma_matches_prefix(fed, w, header_end(), t);
                        }
                        lemma_no_blank_line_past(w, pos, fed.len() as int);
                        assert(decode(b, len, w).1 is None);
                    }
                    Action::NeedMore(self.content_length - self.total_read)
                }
            },
        }
    }

    fn step_trailer(&mut self) -> (r: Action)
        requires
            old(self).wf(),
            old(self).phase is Trailer,
        ensures
            Self::action_ok(*old(self), *final(self), r),
    {
        let ghost fed = self.fed@;
        self.buf = Vec::new();
        self.pos = Ghost(fed.len() as int);
        assert(self.buf@ =~= fed.subrange(fed.len() as int, fed.len() as int));
        if self.total_read == self.content_length {
            self.phase = Phase::Finished;
            Action::Done
        } else {
            proof {
                let w = padded(fed, self.content_length as int);
                lemma_padded(fed, self.content_length as int);
                assert(decode(self.boundary@, self.content_length as int, w).1 is None);
            }
            Action::NeedMore(self.content_length - self.total_read)
        }
    }

    #[verifier::rlimit(40)]
    fn step_body(&mut self) -> (r: Action)
        requires
            old(self).wf(),
            old(self).phase is PartBody,
        ensures
            Self::action_ok(*old(self), *final(self), r),
    {
        let ghost fed = self.fed@;
        let ghost len = self.content_length as int;
        let ghost b = self.boundary@;
        let ghost pos = self.pos@;
        let ghost h = self.header_at@;
        let ghost c = self.body_at@;
        let ghost done = self.finished_parts@;
        let ghost name = self.name@;
        let ghost mid = mid_separator(b);
        let ghost part = (name, fed.subrange(c, pos));
        let m = self.mid.len();
        let n = self.buf.len();
        assert(m >= 4);
        proof {
            lemma_find_shift(fed, mid, pos);
            lemma_find_from(self.buf@, mid, 0);
            assert(old(self).emitted().drop_last() =~= done);
        }
        match find_bytes(self.buf.as_slice(), self.mid.as_slice(), 0) {
            Some(j) => {
                if j > 0 {
                    let data = copy_range(self.buf.as_slice(), 0, j);
                    self.buf = copy_range(self.buf.as_slice(), j, n);
                    self.pos = Ghost(pos + j);
                    assert(self.buf@ =~= fed.subrange(pos + j, fed.len() as int));
                    assert(fed.subrange(c, pos + j) =~= fed.subrange(c, pos) + data@);
                    return Action::Write(data);
                }
                if n >= m + 2 {
                    let d0 = self.buf[m];
                    let d1 = self.buf[m + 1];
                    let closing = d0 == 45 && d1 == 45;
                    assert(d0 == fed[pos + m] && d1 == fed[pos + m + 1]);
                    assert(closing <==> fed.subrange(pos + m, pos + m + 2) =~= dash_dash()) by {
                        if !closing {
                            assert(fed.subrange(pos + m, pos + m + 2)[0] != dash_dash()[0]
                                || fed.subrange(pos + m, pos + m + 2)[1] != dash_dash()[1]);
                        }
                    }
                    self.finished_parts = Ghost(done.push(part));
                    if closing {
                        self.phase = Phase::Trailer;
                    } else {
                        self.buf = copy_range(self.buf.as_slice(), m + 2, n);
                        self.pos = Ghost(pos + m + 2);
                        self.phase = Phase::PartHeader;
                        assert(self.buf@ =~= fed.subrange(pos + m + 2, fed.len() as int));
                    }
                    assert forall|s: Seq<u8>| #[trigger] completes(fed, s, len) implies decode(
                        b,
                        len,
                        s,
                    ) == (self.finished_parts@ + self.pending(s).0, self.pending(s).1) by {
                        lemma_find_prefix_some(fed, s, header_end(), h);
                        lemma_prefix_range(fed, s, h, c - 4);
                        lemma_find_prefix_none(fed, s, mid, c, pos);
                        lemma_matches_prefix(fed, s, mid, pos);
                        lemma_prefix_range(fed, s, c, pos);
                        lemma_prefix_range(fed, s, pos + m, pos + m + 2);
                        let rest = parts_from(s, b, pos + m + 2);
                        if closing {
                            assert(done.push(part) + Seq::<(Seq<u8>, Seq<u8>)>::empty() =~= done
                                + seq![part]);
                        } else {
                            assert(done.push(part) + rest.0 =~= done + (seq![part] + rest.0));
                        }
                    }
                    return Action::Close;
                }
                if self.total_read == self.content_length {
                    self.finished_parts = Ghost(done.push(part));
                    self.phase = Phase::Trailer;
                    assert forall|s: Seq<u8>| #[trigger] completes(fed, s, len) implies decode(
                        b,
                        len,
                        s,
                    ) == (self.finished_parts@ + self.pending(s).0, self.pending(s).1) by {
                        lemma_prefix_full(fed, s);
                        lemma_find_prefix_none(fed, s, mid, c, pos);
                        assert(done.push(part) + Seq::<(Seq<u8>, Seq<u8>)>::empty() =~= done
                            + seq![part]);
                    }
                    return Action::Close;
                }
                proof {
                    lemma_body_may_succeed(fed, len, b, h, c, pos);
                    assert(decode(b, len, padded(fed, len)).1 is None);
                }
                Action::NeedMore(self.content_length - self.total_read)
            },
            None => {
                if n >= m {
                    let w = n - m + 1;
                    let data = copy_range(self.buf.as_slice(), 0, w);
                    self.buf = copy_range(self.buf.as_slice(), w, n);
                    self.pos = Ghost(pos + w);
                    assert(self.buf@ =~= fed.subrange(pos + w, fed.len() as int));
                    assert(fed.subrange(c, pos + w) =~= fed.subrange(c, pos) + data@);
                    return Action::Write(data);
                }
                if self.total_read == self.content_length {
                    if n > 0 {
                        let data = copy_range(self.buf.as_slice(), 0, n);
                        self.buf = Vec::new();
                        self.pos = Ghost(fed.len() as int);
                        assert(self.buf@ =~= fed.subrange(fed.len() as int, fed.len() as int));
                        assert(fed.subrange(c, fed.len() as int) =~= fed.subrange(c, pos) + data@);
                        return Action::Write(data);
                    }
                    self.finished_parts = Ghost(done.push(part));
                    self.phase = Phase::Trailer;
                    assert forall|s: Seq<u8>| #[trigger] completes(fed, s, len) implies decode(
                        b,
                        len,
                        s,
                    ) == (self.finished_parts@ + self.pending(s).0, self.pending(s).1) by {
                        lemma_prefix_full(fed, s);
                        crate::bytes::lemma_find_skip(fed, mid, c, pos);
                        assert(done.push(part) + Seq::<(Seq<u8>, Seq<u8>)>::empty() =~= done
                            + seq![part]);
                    }
                    return Action::Close;
                }
                proof {
                    lemma_body_may_succeed(fed, len, b, h, c, pos);
                    assert(decode(b, len, padded(fed, len)).1 is None);
                }
                Action::NeedMore(self.content_length - self.total_read)
            },
        }
    }

    /// Decides the next thing to do, from the bytes received so far.
    ///
    /// `Open`, `Write` and `Close` build the parts in [`decode`]'s order;
    /// `Done` comes only once the whole declared length has been received
    /// and the body decodes without fault; `Fail` comes only once the bytes
    /// received decide a fault, whatever follows them.
    pub fn advance(&mut self) -> (r: Action)
        requires
            old(self).wf(),
        ensures
            Self::action_ok(*old(self), *final(self), r),
            old(self).is_finished() ==> r is Done,
    {
        match self.phase {
            Phase::FirstSeparator => {
                match self.step_first() {
                    Some(a) => a,
                    None => {
                        let ghost mid_state = *self;
                        let a = self.step_header();
                        assert(Self::action_ok(mid_state, *self, a));
                        a
                    },
                }
            },
            Phase::PartHeader => self.step_header(),
            Phase::PartBody => self.step_body(),
            Phase::Trailer => self.step_trailer(),
            Phase::Finished => Action::Done,
            Phase::Failed(f) => Action::Fail(ServerError::HTTPParseError(f, Vec::new())),
        }
    }
}

/// However a body is cut into reads, two decoders for the same boundary and
/// length that have received the same bytes and finished have produced the
/// same parts; once the whole length is in, those are the parts `decode`
/// gives for the body.
pub proof fn lemma_reads_do_not_matter(d1: UploadDecoder, d2: UploadDecoder)
    requires
        d1.wf(),
        d2.wf(),
        d1.is_finished(),
        d2.is_finished(),
        d1.boundary_view() == d2.boundary_view(),
        d1.length() == d2.length(),
        d1.received() == d2.received(),
    ensures
        d1.emitted() == d2.emitted(),
        d1.received().len() == d1.length() ==> decode(
            d1.boundary_view(),
            d1.length(),
            d1.received(),
        ) == (d1.emitted(), None::<ParseFault>),
{
    let fed = d1.received();
    let len = d1.length();
    let s = fed + Seq::new((len - fed.len()) as nat, |i: int| 0u8);
    assert(s.subrange(0, fed.len() as int) =~= fed);
    assert(completes(fed, s, len));
    assert(d1.finished_parts@ + Seq::<(Seq<u8>, Seq<u8>)>::empty() =~= d1.finished_parts@);
    assert(d2.finished_parts@ + Seq::<(Seq<u8>, Seq<u8>)>::empty() =~= d2.finished_parts@);
    if fed.len() == len {
        assert(fed.subrange(0, fed.len() as int) =~= fed);
        assert(completes(fed, fed, len));
    }
}

/// The declared length governs when decoding ends: `Done` comes only once
/// exactly `Content-Length` bytes have been received (a length no longer
/// than the first separator is an empty upload, finished from the start);
/// a decoder never asks for more bytes once those it has make every
/// continuation fail, nor once it has them all; and every other step lowers
/// the measure, so `Done` or `Fail` follows after finitely many.
pub proof fn lemma_content_length_accounting(pre: UploadDecoder, post: UploadDecoder, a: Action)
    requires
        UploadDecoder::action_ok(pre, post, a),
    ensures
        a is Done ==> pre.received().len() == pre.length() || pre.length() <= first_separator(
            pre.boundary_view(),
        ).len(),
        pre.received().len() == pre.length() ==> !(a is NeedMore),
        !may_succeed(pre.boundary_view(), pre.length(), pre.received()) ==> !(a is NeedMore),
        (a is Open || a is Write || a is Close) ==> post.measure() < pre.measure(),
{
}

/// No file is opened before the body is known to begin with the first
/// separator.
pub proof fn lemma_no_file_without_first_separator(d: UploadDecoder)
    requires
        d.wf(),
        d.emitted().len() > 0,
    ensures
        opens_with_first(d.boundary_view(), d.received()),
{
}

/// A body of more than the first separator's length that does not begin
/// with `--<boundary>\r\n` decodes to no part and the
/// `MissingFirstSeparator` fault: no file is opened for it.
pub proof fn lemma_malformed_first_separator(boundary: Seq<u8>, content_length: int, s: Seq<u8>)
    requires
        content_length > first_separator(boundary).len(),
        s.len() == content_length,
        s.subrange(0, first_separator(boundary).len() as int) != first_separator(boundary),
    ensures
        decode(boundary, content_length, s) == (
            Seq::<(Seq<u8>, Seq<u8>)>::empty(),
            Some(ParseFault::MissingFirstSeparator),
        ),
{
}

/// Searching a concatenation past its first part is searching the second.
proof fn lemma_find_offset(x: Seq<u8>, y: Seq<u8>, pat: Seq<u8>, i: int)
    requires
        0 <= i,
    ensures
        find_from(x + y, pat, x.len() + i) == match find_from(y, pat, i) {
            Some(j) => Some(x.len() + j),
            None => None,
        },
    decreases y.len() + 1 - i,
{
    lemma_window_right(x, y, pat, i);
    if i + pat.len() <= y.len() && !matches_at(y, pat, i) {
        lemma_find_offset(x, y, pat, i + 1);
    }
}

/// Decoding parts past the first part of a concatenation is decoding them
/// in the second.
proof fn lemma_parts_shift(x: Seq<u8>, y: Seq<u8>, b: Seq<u8>, i: int)
    requires
        0 <= i,
    ensures
        parts_from(x + y, b, x.len() + i) == parts_from(y, b, i),
    decreases y.len() + 1 - i,
{
    let s = x + y;
    let k = x.len() as int;
    lemma_find_offset(x, y, header_end(), i);
    lemma_find_from(y, header_end(), i);
    if let Some(p) = find_from(y, header_end(), i) {
        assert(s.subrange(k + i, k + p) =~= y.subrange(i, p));
        if part_filename(y.subrange(i, p)) is Ok {
            lemma_find_offset(x, y, mid_separator(b), p + 4);
            lemma_find_from(y, mid_separator(b), p + 4);
            match find_from(y, mid_separator(b), p + 4) {
                None => {
                    assert(s.subrange(k + p + 4, s.len() as int) =~= y.subrange(
                        p + 4,
                        y.len() as int,
                    ));
                },
                Some(q) => {
                    let t = q + mid_separator(b).len();
                    assert(s.subrange(k + p + 4, k + q) =~= y.subrange(p + 4, q));
                    if t + 2 <= y.len() {
                        assert(s.subrange(k + t, k + t + 2) =~= y.subrange(t, t + 2));
                        lemma_parts_shift(x, y, b, t + 2);
                    }
                },
            }
        }
    }
}

/// A part as sent: its header block, then its content.
pub open spec fn part_ok(boundary: Seq<u8>, part: (Seq<u8>, Seq<u8>)) -> bool {
    &&& find_from(part.0 + header_end(), header_end(), 0) == Some(part.0.len() as int)
    &&& find_from(part.1 + mid_separator(boundary), mid_separator(boundary), 0) == Some(
        part.1.len() as int,
    )
    &&& part_filename(part.0) is Ok
}

/// The parts of a body after its first separator: each header block, a
/// blank line, the content and a mid separator, then `\r\n` before the
/// next part or `--\r\n` after the last.
pub open spec fn parts_text(boundary: Seq<u8>, ps: Seq<(Seq<u8>, Seq<u8>)>) -> Seq<u8>
    decreases ps.len(),
{
    if ps.len() == 0 {
        Seq::empty()
    } else {
        let head = ps[0].0 + header_end() + ps[0].1 + mid_separator(boundary);
        if ps.len() == 1 {
            head + dash_dash() + crlf()
        } else {
            head + crlf() + parts_text(boundary, ps.drop_first())
        }
    }
}

/// A whole `multipart/form-data` body with these parts.
pub open spec fn multipart_body(boundary: Seq<u8>, ps: Seq<(Seq<u8>, Seq<u8>)>) -> Seq<u8> {
    first_separator(boundary) + parts_text(boundary, ps)
}

/// The file name and content of each part.
pub open spec fn named_parts(ps: Seq<(Seq<u8>, Seq<u8>)>) -> Seq<(Seq<u8>, Seq<u8>)> {
    ps.map_values(|p: (Seq<u8>, Seq<u8>)| (part_filename(p.0)->Ok_0, p.1))
}

/// Where the pieces of one part lie in its text followed by `tail`.
proof fn lemma_part_layout(
    boundary: Seq<u8>,
    ph: Seq<u8>,
    d: Seq<u8>,
    tail: Seq<u8>,
)
    requires
        part_ok(boundary, (ph, d)),
    ensures
        ({
            let r = ph + header_end() + d + mid_separator(boundary) + tail;
            let c = ph.len() + 4int;
            let t = c + d.len() as int + mid_separator(boundary).len() as int;
            &&& find_from(r, header_end(), 0) == Some(ph.len() as int)
            &&& r.subrange(0, ph.len() as int) == ph
            &&& find_from(r, mid_separator(boundary), c) == Some(c + d.len() as int)
            &&& r.subrange(c, c + d.len() as int) == d
            &&& r.subrange(t, r.len() as int) == tail
        }),
{
    let he = header_end();
    let sep = mid_separator(boundary);
    let r = ph + he + d + sep + tail;
    let c = ph.len() + 4int;
    assert(r =~= (ph + he) + ((d + sep) + tail));
    assert(r.subrange(0, c) =~= ph + he);
    lemma_find_prefix_some(ph + he, r, he, 0);
    assert(r.subrange(0, ph.len() as int) =~= ph);
    let rc = r.subrange(c, r.len() as int);
    assert(rc =~= (d + sep) + tail);
    assert(rc.subrange(0, (d + sep).len() as int) =~= d + sep);
    lemma_find_prefix_some(d + sep, rc, sep, 0);
    lemma_find_shift(r, sep, c);
    assert(r.subrange(c, c + d.len() as int) =~= d);
    let t = c + d.len() as int + sep.len() as int;
    assert(r.subrange(t, r.len() as int) =~= tail);
}

/// The last part of a body decodes to its file name and content.
proof fn lemma_part_last(boundary: Seq<u8>, ph: Seq<u8>, d: Seq<u8>)
    requires
        part_ok(boundary, (ph, d)),
    ensures
        parts_from(ph + header_end() + d + mid_separator(boundary) + (dash_dash() + crlf()), boundary, 0)
            == (seq![(part_filename(ph)->Ok_0, d)], None::<ParseFault>),
{
    let tail = dash_dash() + crlf();
    let r = ph + header_end() + d + mid_separator(boundary) + tail;
    let t = ph.len() + 4int + d.len() as int + mid_separator(boundary).len() as int;
    lemma_part_layout(boundary, ph, d, tail);
    assert(r.subrange(t, t + 2) =~= dash_dash());
}

/// A part followed by more parts decodes to its file name and content, then
/// what the rest decodes to.
proof fn lemma_part_cons(boundary: Seq<u8>, ph: Seq<u8>, d: Seq<u8>, rest: Seq<u8>)
    requires
        part_ok(boundary, (ph, d)),
    ensures
        parts_from(ph + header_end() + d + mid_separator(boundary) + (crlf() + rest), boundary, 0)
            == (seq![(part_filename(ph)->Ok_0, d)] + parts_from(rest, boundary, 0).0, parts_from(
            rest,
            boundary,
            0,
        ).1),
{
    let tail = crlf() + rest;
    let r = ph + header_end() + d + mid_separator(boundary) + tail;
    let t = ph.len() + 4int + d.len() as int + mid_separator(boundary).len() as int;
    lemma_part_layout(boundary, ph, d, tail);
    assert(r.subrange(t, t + 2) =~= crlf());
    assert(crlf()[0] != dash_dash()[0]);
    let x = r.subrange(0, t + 2);
    assert(r =~= x + rest);
    lemma_parts_shift(x, rest, boundary, 0);
}

proof fn lemma_parts_text(boundary: Seq<u8>, ps: Seq<(Seq<u8>, Seq<u8>)>)
    requires
        ps.len() >= 1,
        forall|i: int| 0 <= i < ps.len() ==> part_ok(boundary, #[trigger] ps[i]),
    ensures
        parts_from(parts_text(boundary, ps), boundary, 0) == (named_parts(ps), None::<ParseFault>),
    decreases ps.len(),
{
    let ph = ps[0].0;
    let d = ps[0].1;
    assert(part_ok(boundary, ps[0]));
    assert(ps[0] == (ph, d));
    if ps.len() == 1 {
        assert(parts_text(boundary, ps) =~= ph + header_end() + d + mid_separator(boundary) + (
        dash_dash() + crlf()));
        lemma_part_last(boundary, ph, d);
        assert(named_parts(ps) =~= seq![(part_filename(ph)->Ok_0, d)]);
    } else {
        let rest = ps.drop_first();
        assert forall|i: int| 0 <= i < rest.len() implies part_ok(boundary, #[trigger] rest[i]) by {
            assert(rest[i] == ps[i + 1]);
        }
        lemma_parts_text(boundary, rest);
        assert(parts_text(boundary, ps) =~= ph + header_end() + d + mid_separator(boundary) + (crlf()
            + parts_text(boundary, rest)));
        lemma_part_cons(boundary, ph, d, parts_text(boundary, rest));
        assert(named_parts(ps) =~= seq![(part_filename(ph)->Ok_0, d)] + named_parts(rest));
    }
}

/// A well-formed body (every part's header block ends at its first blank
/// line and names a file, and every content ends at the first mid
/// separator) decodes without fault to exactly its parts' file names and
/// contents. With `lemma_reads_do_not_matter`, a decoder fed this body in
/// any reads, the separators split anywhere, finishes with these parts.
pub proof fn lemma_well_formed_body(boundary: Seq<u8>, ps: Seq<(Seq<u8>, Seq<u8>)>)
    requires
        ps.len() >= 1,
        forall|i: int| 0 <= i < ps.len() ==> part_ok(boundary, #[trigger] ps[i]),
    ensures
        decode(
            boundary,
            multipart_body(boundary, ps).len() as int,
            multipart_body(boundary, ps),
        ) == (named_parts(ps), None::<ParseFault>),
{
    let first = first_separator(boundary);
    let r = parts_text(boundary, ps);
    let body = multipart_body(boundary, ps);
    lemma_parts_text(boundary, ps);
    assert(r.len() > 0) by {
        let d = ps[0];
        if ps.len() == 1 {
            assert(r == d.0 + header_end() + d.1 + mid_separator(boundary) + dash_dash() + crlf());
        } else {
            assert(r == d.0 + header_end() + d.1 + mid_separator(boundary) + crlf() + parts_text(
                boundary,
                ps.drop_first(),
            ));
        }
    }
    assert(body.subrange(0, first.len() as int) =~= first);
    lemma_parts_shift(first, r, boundary, 0);
}

} // verus!
