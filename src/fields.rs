//! Splitting byte text into pieces, trimming, and the `Name: value` field
//! map that both request headers and part headers are folded into.
use vstd::prelude::*;
use crate::bytes::{matches_at, bytes_match_at, copy_range, find_from, find_bytes};

verus! {

/// The separator between a field's name and its value.
pub open spec fn field_sep() -> Seq<u8> {
    seq![58u8, 32u8]
}

/// An ASCII whitespace byte: tab, line feed, vertical tab, form feed,
/// carriage return or space.
pub open spec fn is_ascii_space(b: u8) -> bool {
    (9 <= b && b <= 13) || b == 32
}

/// The three bytes encode a whitespace character in UTF-8: U+1680,
/// U+2000 to U+200A, U+2028, U+2029, U+202F, U+205F or U+3000.
pub open spec fn is_wide_space(a: u8, b: u8, c: u8) -> bool {
    ||| (a == 0xE1 && b == 0x9A && c == 0x80)
    ||| (a == 0xE2 && b == 0x80 && ((0x80 <= c && c <= 0x8A) || c == 0xA8 || c == 0xA9 || c
        == 0xAF))
    ||| (a == 0xE2 && b == 0x81 && c == 0x9F)
    ||| (a == 0xE3 && b == 0x80 && c == 0x80)
}

/// The two bytes encode a whitespace character in UTF-8: U+0085 or U+00A0.
pub open spec fn is_latin_space(a: u8, b: u8) -> bool {
    a == 0xC2 && (b == 0x85 || b == 0xA0)
}

/// The length of the UTF-8 encoding of a whitespace character (Unicode
/// `White_Space`) that `s` begins with, or 0.
pub open spec fn space_at_start(s: Seq<u8>) -> int {
    if s.len() >= 1 && is_ascii_space(s[0]) {
        1
    } else if s.len() >= 2 && is_latin_space(s[0], s[1]) {
        2
    } else if s.len() >= 3 && is_wide_space(s[0], s[1], s[2]) {
        3
    } else {
        0
    }
}

/// The length of the UTF-8 encoding of a whitespace character that `s` ends
/// with, or 0.
pub open spec fn space_at_end(s: Seq<u8>) -> int {
    let n = s.len() as int;
    if n >= 1 && is_ascii_space(s[n - 1]) {
        1
    } else if n >= 2 && is_latin_space(s[n - 2], s[n - 1]) {
        2
    } else if n >= 3 && is_wide_space(s[n - 3], s[n - 2], s[n - 1]) {
        3
    } else {
        0
    }
}

/// `s` without leading whitespace.
pub open spec fn trim_start(s: Seq<u8>) -> Seq<u8>
    decreases s.len(),
{
    if space_at_start(s) > 0 {
        trim_start(s.subrange(space_at_start(s), s.len() as int))
    } else {
        s
    }
}

/// `s` without trailing whitespace.
pub open spec fn trim_end(s: Seq<u8>) -> Seq<u8>
    decreases s.len(),
{
    if space_at_end(s) > 0 {
        trim_end(s.subrange(0, s.len() - space_at_end(s)))
    } else {
        s
    }
}

/// `s` without whitespace at either end.
pub open spec fn trim(s: Seq<u8>) -> Seq<u8> {
    trim_end(trim_start(s))
}

/// The pieces of `s[start..]` separated by `sep`, where positions before `i`
/// are known to start no separator.
pub open spec fn split_from(s: Seq<u8>, sep: Seq<u8>, start: int, i: int) -> Seq<Seq<u8>>
    decreases s.len() + 1 - i,
{
    if sep.len() == 0 || i < start || i + sep.len() > s.len() {
        seq![s.subrange(start, s.len() as int)]
    } else if matches_at(s, sep, i) {
        seq![s.subrange(start, i)] + split_from(s, sep, i + sep.len(), i + sep.len())
    } else {
        split_from(s, sep, start, i + 1)
    }
}

/// Splitting always yields at least one piece.
pub proof fn lemma_split_nonempty(s: Seq<u8>, sep: Seq<u8>, start: int, i: int)
    ensures
        split_from(s, sep, start, i).len() >= 1,
    decreases s.len() + 1 - i,
{
    if sep.len() == 0 || i < start || i + sep.len() > s.len() {
    } else if matches_at(s, sep, i) {
    } else {
        lemma_split_nonempty(s, sep, start, i + 1);
    }
}

/// The pieces of `s` separated by `sep`, as `str::split` yields them.
pub open spec fn split(s: Seq<u8>, sep: Seq<u8>) -> Seq<Seq<u8>> {
    split_from(s, sep, 0, 0)
}

/// The views of a vector of byte vectors.
pub open spec fn views(v: Seq<Vec<u8>>) -> Seq<Seq<u8>> {
    v.map_values(|x: Vec<u8>| x@)
}

/// Splits `s` at every occurrence of `sep`.
pub fn split_bytes(s: &[u8], sep: &[u8]) -> (r: Vec<Vec<u8>>)
    requires
        sep.len() > 0,
    ensures
        views(r@) == split(s@, sep@),
{
    let mut r: Vec<Vec<u8>> = Vec::new();
    let mut start: usize = 0;
    let mut i: usize = 0;
    while sep.len() <= s.len() && i <= s.len() - sep.len()
        invariant
            start <= i <= s.len(),
            sep.len() > 0,
            split(s@, sep@) == views(r@) + split_from(s@, sep@, start as int, i as int),
        decreases s.len() - i,
    {
        if bytes_match_at(s, sep, i) {
            let piece = copy_range(s, start, i);
            let ghost before = r@;
            r.push(piece);
            assert(views(r@) =~= views(before) + seq![s@.subrange(start as int, i as int)]);
            start = i + sep.len();
            i = start;
        } else {
            i += 1;
        }
    }
    let last = copy_range(s, start, s.len());
    let ghost before = r@;
    r.push(last);
    assert(views(r@) =~= views(before) + seq![s@.subrange(start as int, s@.len() as int)]);
    r
}

fn ascii_space(b: u8) -> (r: bool)
    ensures
        r == is_ascii_space(b),
{
    (9 <= b && b <= 13) || b == 32
}

fn latin_space(a: u8, b: u8) -> (r: bool)
    ensures
        r == is_latin_space(a, b),
{
    a == 0xC2 && (b == 0x85 || b == 0xA0)
}

fn wide_space(a: u8, b: u8, c: u8) -> (r: bool)
    ensures
        r == is_wide_space(a, b, c),
{
    (a == 0xE1 && b == 0x9A && c == 0x80) || (a == 0xE2 && b == 0x80 && ((0x80 <= c && c <= 0x8A)
        || c == 0xA8 || c == 0xA9 || c == 0xAF)) || (a == 0xE2 && b == 0x81 && c == 0x9F) || (a
        == 0xE3 && b == 0x80 && c == 0x80)
}

/// The length of the whitespace character that `s[lo..hi]` begins with.
fn space_len_at(s: &[u8], lo: usize, hi: usize) -> (r: usize)
    requires
        lo <= hi <= s.len(),
    ensures
        r == space_at_start(s@.subrange(lo as int, hi as int)),
        r <= hi - lo,
{
    let ghost t = s@.subrange(lo as int, hi as int);
    let n = hi - lo;
    if n >= 1 && ascii_space(s[lo]) {
        assert(t[0] == s@[lo as int]);
        1
    } else if n >= 2 && latin_space(s[lo], s[lo + 1]) {
        assert(t[0] == s@[lo as int] && t[1] == s@[lo + 1]);
        2
    } else if n >= 3 && wide_space(s[lo], s[lo + 1], s[lo + 2]) {
        assert(t[0] == s@[lo as int] && t[1] == s@[lo + 1] && t[2] == s@[lo + 2]);
        3
    } else {
        assert(n >= 1 ==> t[0] == s@[lo as int]);
        assert(n >= 2 ==> t[1] == s@[lo + 1]);
        assert(n >= 3 ==> t[2] == s@[lo + 2]);
        0
    }
}

/// The length of the whitespace character that `s[lo..hi]` ends with.
fn space_len_before(s: &[u8], lo: usize, hi: usize) -> (r: usize)
    requires
        lo <= hi <= s.len(),
    ensures
        r == space_at_end(s@.subrange(lo as int, hi as int)),
        r <= hi - lo,
{
    let ghost t = s@.subrange(lo as int, hi as int);
    let n = hi - lo;
    if n >= 1 && ascii_space(s[hi - 1]) {
        assert(t[n - 1] == s@[hi - 1]);
        1
    } else if n >= 2 && latin_space(s[hi - 2], s[hi - 1]) {
        assert(t[n - 2] == s@[hi - 2] && t[n - 1] == s@[hi - 1]);
        2
    } else if n >= 3 && wide_space(s[hi - 3], s[hi - 2], s[hi - 1]) {
        assert(t[n - 3] == s@[hi - 3] && t[n - 2] == s@[hi - 2] && t[n - 1] == s@[hi - 1]);
        3
    } else {
        assert(n >= 1 ==> t[n - 1] == s@[hi - 1]);
        assert(n >= 2 ==> t[n - 2] == s@[hi - 2]);
        assert(n >= 3 ==> t[n - 3] == s@[hi - 3]);
        0
    }
}

/// The bounds `(lo, hi)` of `s` without whitespace at either end.
pub fn trim_bounds(s: &[u8]) -> (r: (usize, usize))
    ensures
        r.0 <= r.1 <= s.len(),
        s@.subrange(r.0 as int, r.1 as int) == trim(s@),
{
    let n = s.len();
    let mut lo: usize = 0;
    assert(s@.subrange(0, n as int) =~= s@);
    let mut k = space_len_at(s, 0, n);
    while k > 0
        invariant
            lo <= n == s.len(),
            k == space_at_start(s@.subrange(lo as int, n as int)),
            k <= n - lo,
            trim_start(s@) == trim_start(s@.subrange(lo as int, n as int)),
        decreases n - lo,
    {
        assert(s@.subrange(lo as int, n as int).subrange(k as int, n - lo) =~= s@.subrange(
            lo + k,
            n as int,
        ));
        lo = lo + k;
        k = space_len_at(s, lo, n);
    }
    let mut hi: usize = n;
    let mut j = space_len_before(s, lo, hi);
    while j > 0
        invariant
            lo <= hi <= n == s.len(),
            j == space_at_end(s@.subrange(lo as int, hi as int)),
            j <= hi - lo,
            trim(s@) == trim_end(s@.subrange(lo as int, hi as int)),
        decreases hi,
    {
        assert(s@.subrange(lo as int, hi as int).subrange(0, hi - lo - j) =~= s@.subrange(
            lo as int,
            hi - j,
        ));
        hi = hi - j;
        j = space_len_before(s, lo, hi);
    }
    (lo, hi)
}

/// The map that results from inserting `(k, v)` pairs in order.
pub open spec fn pairs_map(es: Seq<(Seq<u8>, Seq<u8>)>) -> Map<Seq<u8>, Seq<u8>>
    decreases es.len(),
{
    if es.len() == 0 {
        Map::empty()
    } else {
        pairs_map(es.drop_last()).insert(es.last().0, es.last().1)
    }
}

/// A mapping from field name to value in which a later insertion of a name
/// replaces the earlier one.
pub struct FieldMap {
    entries: Vec<(Vec<u8>, Vec<u8>)>,
}

impl FieldMap {
    /// The name/value pairs in insertion order.
    pub closed spec fn pairs(&self) -> Seq<(Seq<u8>, Seq<u8>)> {
        self.entries@.map_values(|e: (Vec<u8>, Vec<u8>)| (e.0@, e.1@))
    }

    pub closed spec fn view(&self) -> Map<Seq<u8>, Seq<u8>> {
        pairs_map(self.pairs())
    }

    /// An empty map.
    pub fn new() -> (r: FieldMap)
        ensures
            r.view() == Map::<Seq<u8>, Seq<u8>>::empty(),
    {
        let r = FieldMap { entries: Vec::new() };
        assert(r.pairs() =~= Seq::<(Seq<u8>, Seq<u8>)>::empty());
        r
    }

    /// Maps `name` to `value`, replacing any earlier value of `name`.
    pub fn insert(&mut self, name: Vec<u8>, value: Vec<u8>)
        ensures
            final(self).view() == old(self).view().insert(name@, value@),
    {
        let ghost name_v = name@;
        let ghost value_v = value@;
        self.entries.push((name, value));
        assert(self.pairs().drop_last() =~= old(self).pairs());
        assert(self.pairs().last() == (name_v, value_v));
    }

    /// The value of `name`, if it has one.
    pub fn get(&self, name: &[u8]) -> (r: Option<&Vec<u8>>)
        ensures
            r matches Some(v) ==> self.view().contains_key(name@) && self.view()[name@] == v@,
            r is None ==> !self.view().contains_key(name@),
    {
        let mut i: usize = self.entries.len();
        assert(self.pairs().subrange(0, i as int) =~= self.pairs());
        while i > 0
            invariant
                i <= self.entries.len(),
                pairs_map(self.pairs().subrange(0, i as int)).contains_key(name@)
                    == self.view().contains_key(name@),
                pairs_map(self.pairs().subrange(0, i as int)).contains_key(name@)
                    ==> pairs_map(self.pairs().subrange(0, i as int))[name@]
                    == self.view()[name@],
            decreases i,
        {
            let ghost pre = self.pairs().subrange(0, i as int);
            assert(pre.drop_last() =~= self.pairs().subrange(0, i - 1));
            let entry = &self.entries[i - 1];
            if slice_eq(entry.0.as_slice(), name) {
                return Some(&entry.1);
            }
            i -= 1;
        }
        assert(self.pairs().subrange(0, 0) =~= Seq::<(Seq<u8>, Seq<u8>)>::empty());
        None
    }

    /// Whether no name has a value.
    pub fn is_empty(&self) -> (r: bool)
        ensures
            r == (self.view() == Map::<Seq<u8>, Seq<u8>>::empty()),
    {
        let n = self.entries.len();
        if n == 0 {
            assert(self.pairs() =~= Seq::<(Seq<u8>, Seq<u8>)>::empty());
            true
        } else {
            let ghost last = self.pairs().last();
            assert(self.view().contains_key(last.0));
            false
        }
    }
}

/// Whether two byte slices are equal.
pub fn slice_eq(a: &[u8], b: &[u8]) -> (r: bool)
    ensures
        r == (a@ == b@),
{
    if a.len() != b.len() {
        return false;
    }
    let mut k: usize = 0;
    while k < a.len()
        invariant
            k <= a.len() == b.len(),
            forall|t: int| 0 <= t < k ==> a@[t] == b@[t],
        decreases a.len() - k,
    {
        if a[k] != b[k] {
            return false;
        }
        k += 1;
    }
    assert(a@ =~= b@);
    true
}

/// The field that one header line contributes: the text before the first
/// `": "` as name, the rest without surrounding whitespace as value; a line
/// without `": "` contributes nothing.
pub open spec fn line_field(line: Seq<u8>) -> Option<(Seq<u8>, Seq<u8>)> {
    match find_from(line, field_sep(), 0) {
        Some(p) => Some((line.subrange(0, p), trim(line.subrange(p + 2, line.len() as int)))),
        None => None,
    }
}

/// The fields of `lines` folded into `m` in order; later names win.
pub open spec fn fold_fields(m: Map<Seq<u8>, Seq<u8>>, lines: Seq<Seq<u8>>) -> Map<
    Seq<u8>,
    Seq<u8>,
>
    decreases lines.len(),
{
    if lines.len() == 0 {
        m
    } else {
        let m2 = match line_field(lines[0]) {
            Some(f) => m.insert(f.0, f.1),
            None => m,
        };
        fold_fields(m2, lines.drop_first())
    }
}

/// The field map of a sequence of header lines.
pub open spec fn fields_of(lines: Seq<Seq<u8>>) -> Map<Seq<u8>, Seq<u8>> {
    fold_fields(Map::empty(), lines)
}

/// Splits one header line into name and trimmed value at its first `": "`.
pub fn parse_line(line: &[u8]) -> (r: Option<(Vec<u8>, Vec<u8>)>)
    ensures
        r matches Some(f) ==> line_field(line@) == Some((f.0@, f.1@)),
        r is None ==> line_field(line@) is None,
{
    let sep: [u8; 2] = [58, 32];
    let sep_s = sep.as_slice();
    assert(sep_s@ =~= field_sep());
    match find_bytes(line, sep_s, 0) {
        Some(p) => {
            proof {
                crate::bytes::lemma_find_from(line@, field_sep(), 0);
                assert(matches_at(line@, field_sep(), p as int));
                assert(field_sep().len() == 2);
            }
            let n = line.len();
            let name = copy_range(line, 0, p);
            let rest = copy_range(line, p + 2, n);
            let (lo, hi) = trim_bounds(rest.as_slice());
            let value = copy_range(rest.as_slice(), lo, hi);
            Some((name, value))
        },
        None => None,
    }
}

/// A non-fatal finding about a header line.
#[derive(Debug, PartialEq, Eq)]
pub enum Diagnostic {
    /// The line has no `": "`; it was skipped.
    MalformedLine(Vec<u8>),
    /// The field's name came before; the later value replaced the earlier.
    DuplicateField(Vec<u8>),
}

/// A [`Diagnostic`] as plain values.
pub enum DiagnosticView {
    MalformedLine(Seq<u8>),
    DuplicateField(Seq<u8>),
}

impl Diagnostic {
    pub open spec fn view(&self) -> DiagnosticView {
        match self {
            Diagnostic::MalformedLine(l) => DiagnosticView::MalformedLine(l@),
            Diagnostic::DuplicateField(n) => DiagnosticView::DuplicateField(n@),
        }
    }
}

/// The views of a vector of diagnostics.
pub open spec fn diagnostic_views(v: Seq<Diagnostic>) -> Seq<DiagnosticView> {
    v.map_values(|d: Diagnostic| d.view())
}

/// The findings about `lines` when they are folded into `m` in order.
pub open spec fn diagnostics_from(m: Map<Seq<u8>, Seq<u8>>, lines: Seq<Seq<u8>>) -> Seq<
    DiagnosticView,
>
    decreases lines.len(),
{
    if lines.len() == 0 {
        Seq::empty()
    } else {
        match line_field(lines[0]) {
            Some(f) => {
                let d = if m.contains_key(f.0) {
                    seq![DiagnosticView::DuplicateField(f.0)]
                } else {
                    Seq::empty()
                };
                d + diagnostics_from(m.insert(f.0, f.1), lines.drop_first())
            },
            None => seq![DiagnosticView::MalformedLine(lines[0])] + diagnostics_from(
                m,
                lines.drop_first(),
            ),
        }
    }
}

/// The findings about a sequence of header lines.
pub open spec fn diagnostics_of(lines: Seq<Seq<u8>>) -> Seq<DiagnosticView> {
    diagnostics_from(Map::empty(), lines)
}

/// Folds header lines `lines[skip..]` into a field map, later names winning,
/// and reports each skipped line and each repeated name.
pub fn compile_header_info(lines: &Vec<Vec<u8>>, skip: usize) -> (r: (FieldMap, Vec<Diagnostic>))
    ensures
        r.0.view() == fields_of(views(lines@).subrange(
            if skip <= lines.len() { skip as int } else { lines.len() as int },
            lines.len() as int,
        )),
        diagnostic_views(r.1@) == diagnostics_of(views(lines@).subrange(
            if skip <= lines.len() { skip as int } else { lines.len() as int },
            lines.len() as int,
        )),
{
    let mut m = FieldMap::new();
    let mut diags: Vec<Diagnostic> = Vec::new();
    let mut i: usize = if skip <= lines.len() { skip } else { lines.len() };
    let ghost first = i;
    assert(views(lines@).subrange(first as int, first as int) =~= Seq::<Seq<u8>>::empty());
    assert(diagnostic_views(diags@) =~= Seq::<DiagnosticView>::empty());
    while i < lines.len()
        invariant
            first <= i <= lines.len(),
            fields_of(views(lines@).subrange(first as int, lines.len() as int)) == fold_fields(
                m.view(),
                views(lines@).subrange(i as int, lines.len() as int),
            ),
            diagnostics_of(views(lines@).subrange(first as int, lines.len() as int))
                == diagnostic_views(diags@) + diagnostics_from(
                m.view(),
                views(lines@).subrange(i as int, lines.len() as int),
            ),
        decreases lines.len() - i,
    {
        let ghost rest = views(lines@).subrange(i as int, lines.len() as int);
        let ghost before = diagnostic_views(diags@);
        assert(rest.drop_first() =~= views(lines@).subrange(i + 1, lines.len() as int));
        assert(rest[0] == lines@[i as int]@);
        match parse_line(lines[i].as_slice()) {
            Some((name, value)) => {
                let repeated = m.get(name.as_slice()).is_some();
                if repeated {
                    let n = name.len();
                    let copy = copy_range(name.as_slice(), 0, n);
                    assert(copy@ =~= name@);
                    diags.push(Diagnostic::DuplicateField(copy));
                    assert(diagnostic_views(diags@) =~= before + seq![
                        DiagnosticView::DuplicateField(name@),
                    ]);
                } else {
                    assert(diagnostic_views(diags@) =~= before + Seq::<DiagnosticView>::empty());
                }
                m.insert(name, value);
            },
            None => {
                let n = lines[i].len();
                let line = copy_range(lines[i].as_slice(), 0, n);
                assert(line@ =~= lines@[i as int]@);
                diags.push(Diagnostic::MalformedLine(line));
                assert(diagnostic_views(diags@) =~= before + seq![
                    DiagnosticView::MalformedLine(lines@[i as int]@),
                ]);
            },
        }
        i += 1;
    }
    assert(views(lines@).subrange(i as int, lines.len() as int) =~= Seq::<Seq<u8>>::empty());
    assert(diagnostic_views(diags@) + Seq::<DiagnosticView>::empty() =~= diagnostic_views(diags@));
    (m, diags)
}

/// The pieces of `ls` with `sep` between each two.
pub open spec fn join(ls: Seq<Seq<u8>>, sep: Seq<u8>) -> Seq<u8>
    decreases ls.len(),
{
    if ls.len() == 0 {
        Seq::empty()
    } else if ls.len() == 1 {
        ls[0]
    } else {
        ls[0] + sep + join(ls.drop_first(), sep)
    }
}

/// No byte of `s` is `b`.
pub open spec fn free_of(s: Seq<u8>, b: u8) -> bool {
    forall|t: int| 0 <= t < s.len() ==> s[t] != b
}

/// `pat` occurs nowhere in `s`.
pub open spec fn lacks(s: Seq<u8>, pat: Seq<u8>) -> bool {
    forall|t: int| !matches_at(s, pat, t)
}

/// A separator that cannot overlap itself across a piece boundary: one
/// byte, or two different bytes.
pub open spec fn simple_sep(sep: Seq<u8>) -> bool {
    sep.len() == 1 || (sep.len() == 2 && sep[0] != sep[1])
}

/// A window inside the first part of a concatenation reads the same there.
pub proof fn lemma_window_left(x: Seq<u8>, y: Seq<u8>, pat: Seq<u8>, t: int)
    requires
        0 <= t,
        t + pat.len() <= x.len(),
    ensures
        matches_at(x + y, pat, t) == matches_at(x, pat, t),
{
    assert((x + y).subrange(t, t + pat.len()) =~= x.subrange(t, t + pat.len()));
}

/// A window inside the second part of a concatenation reads the same there.
pub proof fn lemma_window_right(x: Seq<u8>, y: Seq<u8>, pat: Seq<u8>, t: int)
    requires
        0 <= t,
    ensures
        matches_at(x + y, pat, x.len() + t) == matches_at(y, pat, t),
{
    if t + pat.len() <= y.len() {
        assert((x + y).subrange(x.len() + t, x.len() + t + pat.len()) =~= y.subrange(
            t,
            t + pat.len(),
        ));
    }
}

/// A sequence without the separator's first byte holds no separator.
pub proof fn lemma_free_lacks(s: Seq<u8>, sep: Seq<u8>)
    requires
        sep.len() > 0,
        free_of(s, sep[0]),
    ensures
        lacks(s, sep),
{
    assert forall|t: int| !matches_at(s, sep, t) by {
        if matches_at(s, sep, t) {
            assert(s.subrange(t, t + sep.len())[0] == s[t]);
        }
    }
}

/// Positions known to start no separator start no piece boundary.
proof fn lemma_split_skip(s: Seq<u8>, sep: Seq<u8>, start: int, i: int, e: int)
    requires
        sep.len() > 0,
        0 <= start <= i <= e <= s.len(),
        forall|t: int| i <= t < e ==> !matches_at(s, sep, t),
    ensures
        split_from(s, sep, start, i) == split_from(s, sep, start, e),
    decreases e - i,
{
    if i < e {
        lemma_split_skip(s, sep, start, i + 1, e);
    }
}

/// Splitting the tail of a concatenation is splitting the second part.
proof fn lemma_split_shift(a: Seq<u8>, b: Seq<u8>, sep: Seq<u8>, start: int, i: int)
    requires
        0 <= start <= i <= b.len(),
    ensures
        split_from(a + b, sep, a.len() + start, a.len() + i) == split_from(b, sep, start, i),
    decreases b.len() + 1 - i,
{
    let s = a + b;
    let k = a.len() as int;
    if sep.len() == 0 || i + sep.len() > b.len() {
        assert(s.subrange(k + start, s.len() as int) =~= b.subrange(start, b.len() as int));
    } else {
        assert(s.subrange(k + i, k + i + sep.len()) =~= b.subrange(i, i + sep.len()));
        if matches_at(b, sep, i) {
            assert(s.subrange(k + start, k + i) =~= b.subrange(start, i));
            lemma_split_shift(a, b, sep, i + sep.len(), i + sep.len());
        } else {
            lemma_split_shift(a, b, sep, start, i + 1);
        }
    }
}

/// Splitting joined pieces gives them back, when no piece holds the
/// separator.
pub proof fn lemma_split_join(ls: Seq<Seq<u8>>, sep: Seq<u8>)
    requires
        simple_sep(sep),
        ls.len() >= 1,
        forall|i: int| 0 <= i < ls.len() ==> lacks(#[trigger] ls[i], sep),
    ensures
        split(join(ls, sep), sep) == ls,
    decreases ls.len(),
{
    let l0 = ls[0];
    assert(lacks(ls[0], sep));
    if ls.len() == 1 {
        lemma_split_skip(l0, sep, 0, 0, l0.len() as int);
        assert(l0.subrange(0, l0.len() as int) =~= l0);
        assert(seq![l0] =~= ls);
    } else {
        let rest = ls.drop_first();
        assert forall|i: int| 0 <= i < rest.len() implies lacks(#[trigger] rest[i], sep) by {
            assert(rest[i] == ls[i + 1]);
        }
        lemma_split_join(rest, sep);
        let a = l0 + sep;
        let t = a + join(rest, sep);
        assert(join(ls, sep) == t);
        assert forall|k: int| 0 <= k < l0.len() implies !matches_at(t, sep, k) by {
            if k + sep.len() <= l0.len() {
                lemma_window_left(l0, sep + join(rest, sep), sep, k);
                assert(t =~= l0 + (sep + join(rest, sep)));
            } else if k + sep.len() <= t.len() {
                assert(t.subrange(k, k + sep.len())[1] == t[k + 1]);
                assert(t[k + 1] == sep[0]);
            }
        }
        lemma_split_skip(t, sep, 0, 0, l0.len() as int);
        assert(t.subrange(l0.len() as int, (l0.len() + sep.len()) as int) =~= sep);
        assert(t.subrange(0, l0.len() as int) =~= l0);
        lemma_split_shift(a, join(rest, sep), sep, 0, 0);
        assert(seq![l0] + rest =~= ls);
    }
}

/// Folding field lines inserts their fields in order.
pub proof fn lemma_fold_fields_pairs(
    fs: Seq<(Seq<u8>, Seq<u8>)>,
    lines: Seq<Seq<u8>>,
    i: int,
)
    requires
        0 <= i <= fs.len(),
        lines.len() == fs.len(),
        forall|k: int| 0 <= k < fs.len() ==> line_field(#[trigger] lines[k]) == Some(fs[k]),
    ensures
        fold_fields(pairs_map(fs.subrange(0, i)), lines.subrange(i, lines.len() as int))
            == pairs_map(fs),
    decreases fs.len() - i,
{
    if i == fs.len() {
        assert(fs.subrange(0, i) =~= fs);
    } else {
        let rest = lines.subrange(i, lines.len() as int);
        assert(rest[0] == lines[i]);
        assert(rest.drop_first() =~= lines.subrange(i + 1, lines.len() as int));
        assert(fs.subrange(0, i + 1).drop_last() =~= fs.subrange(0, i));
        assert(line_field(lines[i]) == Some(fs[i]));
        lemma_fold_fields_pairs(fs, lines, i + 1);
    }
}

} // verus!
