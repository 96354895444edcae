//! The entries of a directory listing page: subdirectories first, then
//! files, each group in byte order of the names.
use vstd::prelude::*;
use vstd::relations::{sorted_by, total_ordering};
use vstd::seq_lib::{lemma_sorted_unique, to_multiset_build, to_multiset_insert};
use vstd::string::StringSliceAdditionalSpecFns;
use crate::bytes::{append_bytes, copy_range, find_bytes, find_from, lemma_find_from};
use crate::fields::views;

verus! {

/// `a` comes no later than `b` in byte order (a prefix comes first).
pub open spec fn bytes_le(a: Seq<u8>, b: Seq<u8>) -> bool
    decreases a.len(),
{
    if a.len() == 0 {
        true
    } else if b.len() == 0 {
        false
    } else if a[0] != b[0] {
        a[0] < b[0]
    } else {
        bytes_le(a.drop_first(), b.drop_first())
    }
}

/// Byte order as a relation.
pub open spec fn name_order() -> spec_fn(Seq<u8>, Seq<u8>) -> bool {
    |a: Seq<u8>, b: Seq<u8>| bytes_le(a, b)
}

proof fn lemma_le_refl(a: Seq<u8>)
    ensures
        bytes_le(a, a),
    decreases a.len(),
{
    if a.len() > 0 {
        lemma_le_refl(a.drop_first());
    }
}

proof fn lemma_le_total(a: Seq<u8>, b: Seq<u8>)
    ensures
        bytes_le(a, b) || bytes_le(b, a),
    decreases a.len(),
{
    if a.len() > 0 && b.len() > 0 && a[0] == b[0] {
        lemma_le_total(a.drop_first(), b.drop_first());
    }
}

proof fn lemma_le_antisym(a: Seq<u8>, b: Seq<u8>)
    requires
        bytes_le(a, b),
        bytes_le(b, a),
    ensures
        a == b,
    decreases a.len(),
{
    if a.len() > 0 && b.len() > 0 {
        lemma_le_antisym(a.drop_first(), b.drop_first());
        assert forall|i: int| 0 <= i < a.len() implies a[i] == b[i] by {
            if i > 0 {
                assert(a[i] == a.drop_first()[i - 1]);
                assert(b[i] == b.drop_first()[i - 1]);
            }
        }
        assert(a =~= b);
    } else {
        assert(a =~= b);
    }
}

proof fn lemma_le_trans(a: Seq<u8>, b: Seq<u8>, c: Seq<u8>)
    requires
        bytes_le(a, b),
        bytes_le(b, c),
    ensures
        bytes_le(a, c),
    decreases a.len(),
{
    if a.len() > 0 && b.len() > 0 && c.len() > 0 && a[0] == b[0] && b[0] == c[0] {
        lemma_le_trans(a.drop_first(), b.drop_first(), c.drop_first());
    }
}

/// Byte order is a total order.
pub proof fn lemma_name_order_total()
    ensures
        total_ordering(name_order()),
{
    let r = name_order();
    assert forall|x: Seq<u8>| #[trigger] r(x, x) by {
        lemma_le_refl(x);
    }
    assert forall|x: Seq<u8>, y: Seq<u8>| #[trigger] r(x, y) && #[trigger] r(y, x) implies x
        == y by {
        lemma_le_antisym(x, y);
    }
    assert forall|x: Seq<u8>, y: Seq<u8>, z: Seq<u8>| #[trigger] r(x, y) && #[trigger] r(
        y,
        z,
    ) implies r(x, z) by {
        lemma_le_trans(x, y, z);
    }
    assert forall|x: Seq<u8>, y: Seq<u8>| #[trigger] r(x, y) || #[trigger] r(y, x) by {
        lemma_le_total(x, y);
    }
}

/// Whether `a` comes no later than `b` in byte order.
pub fn name_le(a: &[u8], b: &[u8]) -> (r: bool)
    ensures
        r == bytes_le(a@, b@),
{
    let mut i: usize = 0;
    assert(a@.subrange(0, a@.len() as int) =~= a@);
    assert(b@.subrange(0, b@.len() as int) =~= b@);
    while i < a.len() && i < b.len() && a[i] == b[i]
        invariant
            i <= a.len(),
            i <= b.len(),
            bytes_le(a@, b@) == bytes_le(
                a@.subrange(i as int, a@.len() as int),
                b@.subrange(i as int, b@.len() as int),
            ),
        decreases a.len() - i,
    {
        assert(a@.subrange(i as int, a@.len() as int).drop_first() =~= a@.subrange(
            i + 1,
            a@.len() as int,
        ));
        assert(b@.subrange(i as int, b@.len() as int).drop_first() =~= b@.subrange(
            i + 1,
            b@.len() as int,
        ));
        i += 1;
    }
    if i == a.len() {
        true
    } else if i == b.len() {
        false
    } else {
        a[i] < b[i]
    }
}

/// Sorts names into byte order.
pub fn sort_names(names: &Vec<Vec<u8>>) -> (r: Vec<Vec<u8>>)
    ensures
        views(r@) == views(names@).sort_by(name_order()),
{
    proof {
        lemma_name_order_total();
    }
    let ghost leq = name_order();
    let mut r: Vec<Vec<u8>> = Vec::new();
    let mut i: usize = 0;
    assert(views(names@).subrange(0, 0) =~= Seq::<Seq<u8>>::empty());
    assert(views(r@) =~= Seq::<Seq<u8>>::empty());
    while i < names.len()
        invariant
            i <= names.len(),
            total_ordering(leq),
            leq == name_order(),
            sorted_by(views(r@), leq),
            views(r@).to_multiset() == views(names@).subrange(0, i as int).to_multiset(),
        decreases names.len() - i,
    {
        let n = names[i].len();
        let x = copy_range(names[i].as_slice(), 0, n);
        assert(x@ =~= names@[i as int]@);
        let mut p: usize = 0;
        while p < r.len() && name_le(r[p].as_slice(), x.as_slice())
            invariant
                p <= r.len(),
                forall|k: int| 0 <= k < p ==> bytes_le(#[trigger] views(r@)[k], x@),
            decreases r.len() - p,
        {
            p += 1;
        }
        let ghost before = views(r@);
        r.insert(p, x);
        assert(views(r@) =~= before.insert(p as int, x@));
        proof {
            if p < before.len() {
                lemma_le_total(before[p as int], x@);
            }
            assert forall|a: int, b: int| 0 <= a < b < views(r@).len() implies #[trigger] leq(
                views(r@)[a],
                views(r@)[b],
            ) by {
                let s = views(r@);
                if b < p {
                    assert(leq(before[a], before[b]));
                } else if a < p && b == p {
                    assert(bytes_le(before[a], x@));
                } else if a < p {
                    assert(bytes_le(before[a], x@));
                    assert(bytes_le(x@, before[p as int]));
                    if p < b - 1 {
                        assert(leq(before[p as int], before[b - 1]));
                        lemma_le_trans(x@, before[p as int], before[b - 1]);
                    }
                    lemma_le_trans(before[a], x@, before[b - 1]);
                } else if a == p {
                    assert(bytes_le(x@, before[p as int]));
                    if p < b - 1 {
                        assert(leq(before[p as int], before[b - 1]));
                        lemma_le_trans(x@, before[p as int], before[b - 1]);
                    }
                } else {
                    assert(leq(before[a - 1], before[b - 1]));
                }
            }
            to_multiset_insert(before, p as int, x@);
            assert(views(names@).subrange(0, i + 1) =~= views(names@).subrange(0, i as int).push(
                x@,
            ));
            to_multiset_build(views(names@).subrange(0, i as int), x@);
        }
        i += 1;
    }
    proof {
        assert(views(names@).subrange(0, i as int) =~= views(names@));
        views(names@).lemma_sort_by_ensures(leq);
        lemma_sorted_unique(views(r@), views(names@).sort_by(leq), leq);
    }
    r
}

/// What precedes a subdirectory's name in its entry.
pub const DIR_HEAD: &'static str = "<button class=\"btnLink invisible\" >💾</button> <a href=\"";

/// What stands between the two copies of a subdirectory's name.
pub const DIR_MIDDLE: &'static str = "/\"><button class=\"btnLink\">";

/// What follows a subdirectory's name.
pub const DIR_TAIL: &'static str = "/</button></a>";

/// What precedes a file's name in its entry.
pub const FILE_HEAD: &'static str = "<button class=\"btnLink\" onclick=\"javascript:download('";

/// What stands between the first and second copies of a file's name.
pub const FILE_SECOND: &'static str = "', true)\" >💾</button> <button class=\"btnLink\" onclick=\"javascript:download('";

/// What stands between the second and third copies of a file's name.
pub const FILE_THIRD: &'static str = "', false)\" onmouseenter=\"javascript:show_preview('";

/// What stands between the third and fourth copies of a file's name.
pub const FILE_FOURTH: &'static str = "');\" onmousedown=\"javascript:show_preview('";

/// What stands between the fourth and last copies of a file's name.
pub const FILE_LAST: &'static str = "');\"') onmouseleave=\"javascript:hide_preview();\" onmouseout=\"javascript:hide_preview();\" onmouseup=\"javascript:hide_preview();\">";

/// What follows a file's name.
pub const FILE_TAIL: &'static str = "</button>";

/// What ends every entry.
pub const LINE_BREAK: &'static str = "<br>";

/// The entry of a subdirectory.
pub open spec fn dir_entry(name: Seq<u8>) -> Seq<u8> {
    DIR_HEAD.spec_bytes() + name + DIR_MIDDLE.spec_bytes() + name + DIR_TAIL.spec_bytes()
        + LINE_BREAK.spec_bytes()
}

/// The entry of a file.
pub open spec fn file_entry(name: Seq<u8>) -> Seq<u8> {
    FILE_HEAD.spec_bytes() + name + FILE_SECOND.spec_bytes() + name + FILE_THIRD.spec_bytes()
        + name + FILE_FOURTH.spec_bytes() + name + FILE_LAST.spec_bytes() + name
        + FILE_TAIL.spec_bytes() + LINE_BREAK.spec_bytes()
}

/// The entries of `names`, in order; `dirs` tells which kind they are.
pub open spec fn entries(names: Seq<Seq<u8>>, dirs: bool) -> Seq<u8>
    decreases names.len(),
{
    if names.len() == 0 {
        Seq::empty()
    } else {
        entries(names.drop_last(), dirs) + if dirs {
            dir_entry(names.last())
        } else {
            file_entry(names.last())
        }
    }
}

/// The entry of a subdirectory, as bytes.
fn dir_entry_bytes(name: &[u8]) -> (r: Vec<u8>)
    ensures
        r@ == dir_entry(name@),
{
    let mut e: Vec<u8> = Vec::new();
    append_bytes(&mut e, DIR_HEAD.as_bytes());
    assert(e@ =~= DIR_HEAD.spec_bytes());
    append_bytes(&mut e, name);
    append_bytes(&mut e, DIR_MIDDLE.as_bytes());
    append_bytes(&mut e, name);
    append_bytes(&mut e, DIR_TAIL.as_bytes());
    append_bytes(&mut e, LINE_BREAK.as_bytes());
    e
}

/// The entry of a file, as bytes.
fn file_entry_bytes(name: &[u8]) -> (r: Vec<u8>)
    ensures
        r@ == file_entry(name@),
{
    let mut e: Vec<u8> = Vec::new();
    append_bytes(&mut e, FILE_HEAD.as_bytes());
    assert(e@ =~= FILE_HEAD.spec_bytes());
    append_bytes(&mut e, name);
    append_bytes(&mut e, FILE_SECOND.as_bytes());
    append_bytes(&mut e, name);
    append_bytes(&mut e, FILE_THIRD.as_bytes());
    append_bytes(&mut e, name);
    append_bytes(&mut e, FILE_FOURTH.as_bytes());
    append_bytes(&mut e, name);
    append_bytes(&mut e, FILE_LAST.as_bytes());
    append_bytes(&mut e, name);
    append_bytes(&mut e, FILE_TAIL.as_bytes());
    append_bytes(&mut e, LINE_BREAK.as_bytes());
    e
}

fn push_entry(out: &mut Vec<u8>, name: &[u8], dir: bool)
    ensures
        final(out)@ == old(out)@ + if dir {
            dir_entry(name@)
        } else {
            file_entry(name@)
        },
{
    let e = if dir { dir_entry_bytes(name) } else { file_entry_bytes(name) };
    append_bytes(out, e.as_slice());
}

/// The listing of a directory with these subdirectories and files: the
/// subdirectories' entries, then the files', each group sorted by name.
pub fn listing(dirs: &Vec<Vec<u8>>, files: &Vec<Vec<u8>>) -> (r: Vec<u8>)
    ensures
        r@ == entries(views(dirs@).sort_by(name_order()), true) + entries(
            views(files@).sort_by(name_order()),
            false,
        ),
{
    let d = sort_names(dirs);
    let f = sort_names(files);
    let mut out: Vec<u8> = Vec::new();
    let mut i: usize = 0;
    assert(views(d@).subrange(0, 0) =~= Seq::<Seq<u8>>::empty());
    while i < d.len()
        invariant
            i <= d.len(),
            out@ == entries(views(d@).subrange(0, i as int), true),
        decreases d.len() - i,
    {
        push_entry(&mut out, d[i].as_slice(), true);
        assert(views(d@).subrange(0, i + 1).drop_last() =~= views(d@).subrange(0, i as int));
        i += 1;
    }
    assert(views(d@).subrange(0, i as int) =~= views(d@));
    let ghost head = out@;
    let mut j: usize = 0;
    assert(views(f@).subrange(0, 0) =~= Seq::<Seq<u8>>::empty());
    assert(out@ =~= head + entries(views(f@).subrange(0, 0), false));
    while j < f.len()
        invariant
            j <= f.len(),
            out@ == head + entries(views(f@).subrange(0, j as int), false),
        decreases f.len() - j,
    {
        push_entry(&mut out, f[j].as_slice(), false);
        assert(views(f@).subrange(0, j + 1).drop_last() =~= views(f@).subrange(0, j as int));
        assert(out@ =~= head + entries(views(f@).subrange(0, j + 1), false));
        j += 1;
    }
    assert(views(f@).subrange(0, j as int) =~= views(f@));
    out
}

/// The placeholder in the page template that the entries replace.
pub const ENTRIES_PLACEHOLDER: &'static str = "{{Entries}}";

/// `s[i..]` with every occurrence of `pat`, taken left to right without
/// overlap, replaced by `rep`.
pub open spec fn replace_from(s: Seq<u8>, pat: Seq<u8>, rep: Seq<u8>, i: int) -> Seq<u8>
    decreases s.len() + 1 - i,
    via replace_from_decreases
{
    if i < 0 || i > s.len() || pat.len() == 0 {
        s.subrange(i, s.len() as int)
    } else {
        match find_from(s, pat, i) {
            None => s.subrange(i, s.len() as int),
            Some(p) => s.subrange(i, p) + rep + replace_from(s, pat, rep, p + pat.len()),
        }
    }
}

#[via_fn]
proof fn replace_from_decreases(s: Seq<u8>, pat: Seq<u8>, rep: Seq<u8>, i: int) {
    if 0 <= i {
        lemma_find_from(s, pat, i);
    }
}

/// The page template with every placeholder replaced by the entries.
pub fn fill_template(template: &[u8], entries: &[u8]) -> (r: Vec<u8>)
    ensures
        r@ == replace_from(template@, ENTRIES_PLACEHOLDER.spec_bytes(), entries@, 0),
{
    let pat = ENTRIES_PLACEHOLDER.as_bytes();
    let ghost pv = pat@;
    let mut out: Vec<u8> = Vec::new();
    let mut i: usize = 0;
    let mut done = false;
    if pat.len() == 0 {
        return copy_range(template, 0, template.len());
    }
    while !done
        invariant
            i <= template.len(),
            pv == ENTRIES_PLACEHOLDER.spec_bytes(),
            pv.len() > 0,
            pat@ == pv,
            !done ==> replace_from(template@, pv, entries@, 0) == out@ + replace_from(
                template@,
                pv,
                entries@,
                i as int,
            ),
            done ==> replace_from(template@, pv, entries@, 0) == out@,
        decreases template.len() - i + if done { 0int } else { 1int },
    {
        proof {
            lemma_find_from(template@, pv, i as int);
        }
        match find_bytes(template, pat, i) {
            Some(p) => {
                let ghost before = out@;
                let piece = copy_range(template, i, p);
                append_bytes(&mut out, piece.as_slice());
                append_bytes(&mut out, entries);
                assert(out@ =~= before + (template@.subrange(i as int, p as int) + entries@));
                i = p + pat.len();
            },
            None => {
                let piece = copy_range(template, i, template.len());
                append_bytes(&mut out, piece.as_slice());
                done = true;
            },
        }
    }
    out
}

} // verus!
