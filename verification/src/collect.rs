//! Gathering the files to split: in order, and each of them once.

use vstd::prelude::*;

use crate::files::{
    is_candidate, is_pdf, is_pdf_candidate, law_candidates_are_unmarked_pdf_files,
    law_pdf_files_have_three_letters, names_pdf, str_view,
};

verus! {

/// One component of a path: its rank among the kinds of components, and its
/// name.
#[derive(Debug)]
pub struct PathPart {
    pub rank: u8,
    pub name: Vec<u8>,
}

/// A file that was found: the components of its path, its stem, and its
/// extension where it has one.
#[derive(Debug)]
pub struct FoundFile {
    pub parts: Vec<PathPart>,
    pub stem: String,
    pub extension: Option<String>,
}

/// The extension of a file, where it has one.
pub open spec fn extension_view(file: FoundFile) -> Option<Seq<char>> {
    match file.extension {
        Some(text) => Some(text@),
        None => None,
    }
}

/// A component as numbers: its rank, the bytes of its name, each one higher, and
/// 0, so that the order of components is that of these numbers one by one.
pub open spec fn part_key(part: PathPart) -> Seq<u16> {
    seq![part.rank as u16] + part.name@.map_values(|b: u8| (b + 1) as u16) + seq![0u16]
}

/// A path as numbers: those of its components.
pub open spec fn path_key(parts: Seq<PathPart>) -> Seq<u16>
    decreases parts.len(),
{
    if parts.len() == 0 {
        seq![]
    } else {
        path_key(parts.drop_last()) + part_key(parts.last())
    }
}

/// A path as numbers.
fn key_of_path(parts: &Vec<PathPart>) -> (key: Vec<u16>)
    ensures
        key@ == path_key(parts@),
{
    let mut key: Vec<u16> = Vec::new();
    let mut i: usize = 0;
    assert(parts@.take(0) =~= seq![]);
    while i < parts.len()
        invariant
            i <= parts@.len(),
            key@ == path_key(parts@.take(i as int)),
        decreases parts.len() - i,
    {
        let ghost before = key@;
        let part = &parts[i];
        key.push(part.rank as u16);
        let ghost name = part.name@.map_values(|b: u8| (b + 1) as u16);
        let mut k: usize = 0;
        assert(key@ =~= before + seq![part.rank as u16] + name.take(0));
        while k < part.name.len()
            invariant
                k <= part.name@.len(),
                name == part.name@.map_values(|b: u8| (b + 1) as u16),
                key@ == before + seq![part.rank as u16] + name.take(k as int),
            decreases part.name.len() - k,
        {
            key.push(part.name[k] as u16 + 1);
            assert(key@ =~= before + seq![part.rank as u16] + name.take(k + 1));
            k += 1;
        }
        key.push(0);
        assert(name.take(k as int) =~= name);
        assert(key@ =~= before + part_key(*part));
        assert(parts@.take(i + 1).drop_last() =~= parts@.take(i as int));
        i += 1;
    }
    assert(parts@.take(i as int) =~= parts@);
    key
}

/// Whether `a` comes before `b`, number by number.
pub open spec fn comes_before(a: Seq<u16>, b: Seq<u16>) -> bool
    decreases a.len(),
{
    if b.len() == 0 {
        false
    } else if a.len() == 0 {
        true
    } else if a[0] != b[0] {
        a[0] < b[0]
    } else {
        comes_before(a.drop_first(), b.drop_first())
    }
}

/// Of two different sequences one comes before the other, and only one.
proof fn lemma_before_total(a: Seq<u16>, b: Seq<u16>)
    ensures
        comes_before(a, b) || comes_before(b, a) || a == b,
        !(comes_before(a, b) && comes_before(b, a)),
        !comes_before(a, a),
    decreases a.len(),
{
    if a.len() > 0 && b.len() > 0 {
        lemma_before_total(a.drop_first(), b.drop_first());
        if a[0] == b[0] && a.drop_first() == b.drop_first() {
            assert(a =~= seq![a[0]] + a.drop_first());
            assert(b =~= seq![b[0]] + b.drop_first());
        }
    } else if a.len() == 0 && b.len() == 0 {
        assert(a =~= b);
    } else if a.len() > 0 {
        lemma_before_total(a.drop_first(), a.drop_first());
    }
}

/// What comes before something that comes before a third comes before the third.
proof fn lemma_before_transitive(a: Seq<u16>, b: Seq<u16>, c: Seq<u16>)
    requires
        comes_before(a, b),
        comes_before(b, c),
    ensures
        comes_before(a, c),
    decreases a.len(),
{
    if a.len() > 0 && b.len() > 0 && c.len() > 0 && a[0] == b[0] && b[0] == c[0] {
        lemma_before_transitive(a.drop_first(), b.drop_first(), c.drop_first());
    }
}

/// Whether `a` comes before `b`, number by number.
fn test_before(a: &Vec<u16>, b: &Vec<u16>) -> (r: bool)
    ensures
        r == comes_before(a@, b@),
{
    let mut i: usize = 0;
    assert(a@.skip(0) =~= a@);
    assert(b@.skip(0) =~= b@);
    loop
        invariant
            i <= a@.len(),
            i <= b@.len(),
            comes_before(a@, b@) == comes_before(a@.skip(i as int), b@.skip(i as int)),
        decreases a@.len() - i,
    {
        if i >= b.len() {
            return false;
        }
        if i >= a.len() {
            return true;
        }
        if a[i] != b[i] {
            return a[i] < b[i];
        }
        assert(a@.skip(i as int).drop_first() =~= a@.skip(i + 1));
        assert(b@.skip(i as int).drop_first() =~= b@.skip(i + 1));
        i += 1;
    }
}

/// The path of a file, as numbers.
pub open spec fn file_key(file: FoundFile) -> Seq<u16> {
    path_key(file.parts@)
}

/// Whether the path of the file at index `i` has been chosen, by that file or an
/// earlier one.
pub open spec fn is_covered(files: Seq<FoundFile>, chosen: Seq<usize>, i: int) -> bool {
    exists|k: int|
        0 <= k < chosen.len() && #[trigger] chosen[k] <= i && file_key(files[chosen[k] as int])
            == file_key(files[i])
}

/// Whether the paths of two chosen files are in order.
pub open spec fn in_order(files: Seq<FoundFile>, chosen: Seq<usize>, a: int, b: int) -> bool {
    comes_before(file_key(files[chosen[a] as int]), file_key(files[chosen[b] as int]))
}

/// Whether `chosen` are the files to be kept among the first `count`: in the order
/// of their paths, each path once, by the first file that has it.
pub open spec fn is_selection(
    files: Seq<FoundFile>,
    keep: spec_fn(FoundFile) -> bool,
    count: int,
    chosen: Seq<usize>,
) -> bool {
    &&& forall|k: int|
        0 <= k < chosen.len() ==> #[trigger] chosen[k] < count && keep(files[chosen[k] as int])
    &&& forall|a: int, b: int|
        0 <= a < b < chosen.len() ==> #[trigger] in_order(files, chosen, a, b)
    &&& forall|i: int|
        0 <= i < count && keep(files[i]) ==> #[trigger] is_covered(files, chosen, i)
}

/// The paths of the files, as numbers.
fn keys_of(files: &Vec<FoundFile>) -> (keys: Vec<Vec<u16>>)
    ensures
        keys@.len() == files@.len(),
        forall|i: int| 0 <= i < keys@.len() ==> (#[trigger] keys@[i])@ == file_key(files@[i]),
{
    let mut keys: Vec<Vec<u16>> = Vec::new();
    let mut i: usize = 0;
    while i < files.len()
        invariant
            i <= files@.len(),
            keys@.len() == i,
            forall|j: int| 0 <= j < i ==> (#[trigger] keys@[j])@ == file_key(files@[j]),
        decreases files.len() - i,
    {
        keys.push(key_of_path(&files[i].parts));
        i += 1;
    }
    keys
}

/// A selection stays one where the next file is not kept, or has a path that has
/// been chosen, at `at`.
proof fn lemma_selection_same(
    files: Seq<FoundFile>,
    keep: spec_fn(FoundFile) -> bool,
    count: int,
    chosen: Seq<usize>,
    at: int,
)
    requires
        0 <= count < files.len(),
        is_selection(files, keep, count, chosen),
        !keep(files[count]) || (0 <= at < chosen.len() && file_key(files[chosen[at] as int])
            == file_key(files[count])),
    ensures
        is_selection(files, keep, count + 1, chosen),
{
    if keep(files[count]) {
        assert(chosen[at] < count);
        assert(is_covered(files, chosen, count));
    }
}

/// A selection with the next file put in at its place is a selection.
proof fn lemma_selection_grows(
    files: Seq<FoundFile>,
    keep: spec_fn(FoundFile) -> bool,
    count: int,
    chosen: Seq<usize>,
    at: int,
)
    requires
        0 <= count < files.len() <= usize::MAX,
        is_selection(files, keep, count, chosen),
        keep(files[count]),
        0 <= at <= chosen.len(),
        forall|k: int|
            0 <= k < at ==> comes_before(
                file_key(files[#[trigger] chosen[k] as int]),
                file_key(files[count]),
            ),
        at < chosen.len() ==> comes_before(
            file_key(files[count]),
            file_key(files[chosen[at] as int]),
        ),
    ensures
        is_selection(files, keep, count + 1, chosen.insert(at, count as usize)),
{
    let grown = chosen.insert(at, count as usize);
    assert(grown[at] == count);
    assert forall|a: int, b: int| 0 <= a < b < grown.len() implies #[trigger] in_order(
        files,
        grown,
        a,
        b,
    ) by {
        let x = if a < at {
            a
        } else {
            a - 1
        };
        let y = if b < at {
            b
        } else {
            b - 1
        };
        if a != at && b != at {
            assert(in_order(files, chosen, x, y));
        } else if a == at && b - 1 > at {
            assert(in_order(files, chosen, at, b - 1));
            lemma_before_transitive(
                file_key(files[count]),
                file_key(files[chosen[at] as int]),
                file_key(files[chosen[b - 1] as int]),
            );
        } else if b == at {
            assert(grown[a] == chosen[a]);
        }
    }
    assert forall|i: int| 0 <= i < count + 1 && keep(files[i]) implies #[trigger] is_covered(
        files,
        grown,
        i,
    ) by {
        if i < count {
            assert(is_covered(files, chosen, i));
            let k = choose|k: int|
                0 <= k < chosen.len() && #[trigger] chosen[k] <= i && file_key(
                    files[chosen[k] as int],
                ) == file_key(files[i]);
            if k < at {
                assert(grown[k] == chosen[k]);
            } else {
                assert(grown[k + 1] == chosen[k]);
            }
        }
    }
    assert forall|k: int| 0 <= k < grown.len() implies #[trigger] grown[k] < count + 1 && keep(
        files[grown[k] as int],
    ) by {
        if k < at {
            assert(grown[k] == chosen[k]);
        } else if k > at {
            assert(grown[k] == chosen[k - 1]);
        }
    }
}

/// Chooses the files to be kept: in the order of their paths, each path once.
fn choose_files(
    files: &Vec<FoundFile>,
    kept: &Vec<bool>,
    Ghost(keep): Ghost<spec_fn(FoundFile) -> bool>,
) -> (chosen: Vec<usize>)
    requires
        kept@.len() == files@.len(),
        forall|i: int| 0 <= i < kept@.len() ==> #[trigger] kept@[i] == keep(files@[i]),
    ensures
        is_selection(files@, keep, files@.len() as int, chosen@),
{
    let keys = keys_of(files);
    let mut chosen: Vec<usize> = Vec::new();
    let mut i: usize = 0;
    while i < files.len()
        invariant
            i <= files@.len(),
            kept@.len() == files@.len(),
            forall|i: int| 0 <= i < kept@.len() ==> #[trigger] kept@[i] == keep(files@[i]),
            keys@.len() == files@.len(),
            forall|i: int|
                0 <= i < keys@.len() ==> (#[trigger] keys@[i])@ == file_key(files@[i]),
            is_selection(files@, keep, i as int, chosen@),
        decreases files.len() - i,
    {
        if kept[i] {
            let mut at: usize = 0;
            while at < chosen.len() && test_before(&keys[chosen[at]], &keys[i])
                invariant
                    at <= chosen@.len(),
                    i < files@.len(),
                    keys@.len() == files@.len(),
                    forall|i: int|
                        0 <= i < keys@.len() ==> (#[trigger] keys@[i])@ == file_key(files@[i]),
                    is_selection(files@, keep, i as int, chosen@),
                    forall|k: int|
                        0 <= k < at ==> comes_before(
                            file_key(files@[#[trigger] chosen@[k] as int]),
                            file_key(files@[i as int]),
                        ),
                decreases chosen.len() - at,
            {
                at += 1;
            }
            let placed = at < chosen.len() && !test_before(&keys[i], &keys[chosen[at]]);
            proof {
                if at < chosen@.len() {
                    lemma_before_total(
                        file_key(files@[i as int]),
                        file_key(files@[chosen@[at as int] as int]),
                    );
                }
                if placed {
                    lemma_selection_same(files@, keep, i as int, chosen@, at as int);
                } else {
                    lemma_selection_grows(files@, keep, i as int, chosen@, at as int);
                }
            }
            if !placed {
                chosen.insert(at, i);
            }
        } else {
            proof {
                lemma_selection_same(files@, keep, i as int, chosen@, 0);
            }
        }
        i += 1;
    }
    chosen
}

/// The extension of a file, where it has one.
fn extension<'a>(file: &'a FoundFile) -> (r: Option<&'a str>)
    ensures
        str_view(r) == extension_view(*file),
{
    match &file.extension {
        Some(text) => Some(text.as_str()),
        None => None,
    }
}

/// Which files are PDF files.
pub open spec fn pdf_files() -> spec_fn(FoundFile) -> bool {
    |file: FoundFile| names_pdf(extension_view(file))
}

/// Chooses the PDF files among those found, by their indices: in the order of their
/// paths, each path once.
pub fn collect_pdf_files(files: &Vec<FoundFile>) -> (chosen: Vec<usize>)
    ensures
        is_selection(files@, pdf_files(), files@.len() as int, chosen@),
{
    let mut kept: Vec<bool> = Vec::new();
    let mut i: usize = 0;
    while i < files.len()
        invariant
            i <= files@.len(),
            kept@.len() == i,
            forall|j: int| 0 <= j < i ==> #[trigger] kept@[j] == pdf_files()(files@[j]),
        decreases files.len() - i,
    {
        kept.push(is_pdf(extension(&files[i])));
        i += 1;
    }
    choose_files(files, &kept, Ghost(pdf_files()))
}

/// Which files are offered for splitting.
pub open spec fn candidates() -> spec_fn(FoundFile) -> bool {
    |file: FoundFile| is_candidate(extension_view(file), file.stem@)
}

/// Chooses the files to offer for splitting among those found, by their indices: in
/// the order of their paths, each path once.
pub fn collect_pdfs_from_inputs(files: &Vec<FoundFile>) -> (chosen: Vec<usize>)
    ensures
        is_selection(files@, candidates(), files@.len() as int, chosen@),
{
    let mut kept: Vec<bool> = Vec::new();
    let mut i: usize = 0;
    while i < files.len()
        invariant
            i <= files@.len(),
            kept@.len() == i,
            forall|j: int| 0 <= j < i ==> #[trigger] kept@[j] == candidates()(files@[j]),
        decreases files.len() - i,
    {
        let file = &files[i];
        kept.push(is_pdf_candidate(extension(file), file.stem.as_str()));
        i += 1;
    }
    choose_files(files, &kept, Ghost(candidates()))
}

/// There is one selection only: whatever is kept, the files chosen and their order
/// are determined.
pub proof fn law_selection_is_unique(
    files: Seq<FoundFile>,
    keep: spec_fn(FoundFile) -> bool,
    a: Seq<usize>,
    b: Seq<usize>,
)
    requires
        is_selection(files, keep, files.len() as int, a),
        is_selection(files, keep, files.len() as int, b),
    ensures
        a == b,
{
    lemma_selection_within(files, keep, a, b, a.len() as int);
    lemma_selection_within(files, keep, b, a, b.len() as int);
    assert(a =~= b);
}

/// Where the path of a chosen file stands in another selection.
proof fn lemma_counterpart(
    files: Seq<FoundFile>,
    keep: spec_fn(FoundFile) -> bool,
    a: Seq<usize>,
    b: Seq<usize>,
    n: int,
) -> (k: int)
    requires
        is_selection(files, keep, files.len() as int, a),
        is_selection(files, keep, files.len() as int, b),
        0 <= n < a.len(),
    ensures
        0 <= k < b.len(),
        b[k] <= a[n],
        file_key(files[b[k] as int]) == file_key(files[a[n] as int]),
{
    let i = a[n] as int;
    assert(is_covered(files, b, i));
    choose|k: int|
        0 <= k < b.len() && #[trigger] b[k] <= i && file_key(files[b[k] as int]) == file_key(
            files[i],
        )
}

/// Files with the same path stand at one place in a selection.
proof fn lemma_one_place(
    files: Seq<FoundFile>,
    keep: spec_fn(FoundFile) -> bool,
    a: Seq<usize>,
    m: int,
    n: int,
)
    requires
        is_selection(files, keep, files.len() as int, a),
        0 <= m < a.len(),
        0 <= n < a.len(),
        file_key(files[a[m] as int]) == file_key(files[a[n] as int]),
    ensures
        m == n,
{
    lemma_before_total(file_key(files[a[m] as int]), file_key(files[a[m] as int]));
    if m < n {
        assert(in_order(files, a, m, n));
    } else if n < m {
        assert(in_order(files, a, n, m));
    }
}

/// The beginning of one selection is the beginning of another.
proof fn lemma_selection_within(
    files: Seq<FoundFile>,
    keep: spec_fn(FoundFile) -> bool,
    a: Seq<usize>,
    b: Seq<usize>,
    n: int,
)
    requires
        is_selection(files, keep, files.len() as int, a),
        is_selection(files, keep, files.len() as int, b),
        0 <= n <= a.len(),
    ensures
        n <= b.len(),
        forall|k: int| 0 <= k < n ==> #[trigger] a[k] == b[k],
    decreases n,
{
    if n > 0 {
        lemma_selection_within(files, keep, a, b, n - 1);
        let k = lemma_counterpart(files, keep, a, b, n - 1);
        if k < n - 1 {
            // Another path stands there.
            assert(a[k] == b[k]);
            lemma_one_place(files, keep, a, k, n - 1);
        }
        let m = lemma_counterpart(files, keep, b, a, n - 1);
        if k > n - 1 {
            // What stands at the place would be missing from the first.
            assert(in_order(files, b, n - 1, k));
            if m < n - 1 {
                assert(a[m] == b[m]);
                lemma_one_place(files, keep, b, m, n - 1);
            } else if m == n - 1 {
                lemma_one_place(files, keep, b, k, n - 1);
            } else {
                assert(in_order(files, a, n - 1, m));
                lemma_before_total(
                    file_key(files[a[n - 1] as int]),
                    file_key(files[b[n - 1] as int]),
                );
            }
        }
        // The same file: each is the first with its path.
        lemma_one_place(files, keep, a, m, n - 1);
    }
}

/// The components of two paths, one after the other, are the components of both.
proof fn lemma_path_key_concat(a: Seq<PathPart>, b: Seq<PathPart>)
    ensures
        path_key(a + b) == path_key(a) + path_key(b),
    decreases b.len(),
{
    if b.len() > 0 {
        lemma_path_key_concat(a, b.drop_last());
        assert((a + b).drop_last() =~= a + b.drop_last());
        assert(path_key(a + b) =~= path_key(a) + path_key(b));
    } else {
        assert(a + b =~= a);
        assert(path_key(a) + path_key(b) =~= path_key(a));
    }
}

/// What two sequences begin with alike does not count for their order.
proof fn lemma_same_beginning(head: Seq<u16>, a: Seq<u16>, b: Seq<u16>)
    ensures
        comes_before(head + a, head + b) == comes_before(a, b),
    decreases head.len(),
{
    if head.len() > 0 {
        lemma_same_beginning(head.drop_first(), a, b);
        assert((head + a).drop_first() =~= head.drop_first() + a);
        assert((head + b).drop_first() =~= head.drop_first() + b);
    } else {
        assert(head + a =~= a);
        assert(head + b =~= b);
    }
}

/// Whether one name comes before another, byte by byte: they are the same up to `m`, where the
/// first one ends or has the lower byte.
pub open spec fn name_before(a: Seq<u8>, b: Seq<u8>, m: int) -> bool {
    &&& 0 <= m <= a.len()
    &&& m < b.len()
    &&& a.take(m) == b.take(m)
    &&& m == a.len() || a[m] < b[m]
}

/// Components with the same rank are in the order of their names.
proof fn lemma_part_order(a: PathPart, b: PathPart, x: Seq<u16>, y: Seq<u16>, m: int)
    requires
        a.rank == b.rank,
        name_before(a.name@, b.name@, m),
    ensures
        comes_before(part_key(a) + x, part_key(b) + y),
{
    let high = |c: u8| (c + 1) as u16;
    let head = seq![a.rank as u16] + a.name@.take(m).map_values(high);
    let p = part_key(a) + x;
    let q = part_key(b) + y;
    assert(b.name@.take(m).map_values(high) =~= a.name@.take(m).map_values(high));
    assert(p.take(m + 1) =~= head);
    assert(q.take(m + 1) =~= head) by {
        assert forall|k: int| 0 <= k < m + 1 implies q.take(m + 1)[k] == head[k] by {
            if k > 0 {
                assert(b.name@.take(m)[k - 1] == b.name@[k - 1]);
            }
        }
    }
    let u = p.skip(m + 1);
    let v = q.skip(m + 1);
    assert(p =~= head + u);
    assert(q =~= head + v);
    lemma_same_beginning(head, u, v);
    assert(u[0] == p[m + 1]);
    assert(v[0] == q[m + 1]);
    assert(v[0] == b.name@[m] + 1);
    if m < a.name@.len() {
        assert(u[0] == a.name@[m] + 1);
    } else {
        assert(u[0] == 0);
    }
}

/// Paths are in the order of their first components that differ: by rank, and by name where the
/// ranks are the same, as names are in the order of their first bytes that differ.
pub proof fn law_paths_are_ordered_part_by_part(a: Seq<PathPart>, b: Seq<PathPart>, i: int, m: int)
    requires
        0 <= i < a.len(),
        i < b.len(),
        forall|j: int|
            0 <= j < i ==> (#[trigger] a[j]).rank == b[j].rank && a[j].name@ == b[j].name@,
        a[i].rank < b[i].rank || a[i].rank == b[i].rank && name_before(a[i].name@, b[i].name@, m),
    ensures
        comes_before(path_key(a), path_key(b)),
{
    let head = path_key(a.take(i));
    lemma_same_parts(a, b, i);
    let x = path_key(a.skip(i + 1));
    let y = path_key(b.skip(i + 1));
    lemma_path_key_at(a, i);
    lemma_path_key_at(b, i);
    lemma_same_beginning(head, part_key(a[i]) + x, part_key(b[i]) + y);
    assert(head + (part_key(a[i]) + x) =~= head + part_key(a[i]) + x);
    assert(head + (part_key(b[i]) + y) =~= head + part_key(b[i]) + y);
    if a[i].rank == b[i].rank {
        lemma_part_order(a[i], b[i], x, y, m);
    } else {
        assert((part_key(a[i]) + x)[0] == a[i].rank as u16);
        assert((part_key(b[i]) + y)[0] == b[i].rank as u16);
    }
}

/// The beginnings of two paths with the same components.
proof fn lemma_same_parts(a: Seq<PathPart>, b: Seq<PathPart>, i: int)
    requires
        0 <= i <= a.len(),
        i <= b.len(),
        forall|j: int|
            0 <= j < i ==> (#[trigger] a[j]).rank == b[j].rank && a[j].name@ == b[j].name@,
    ensures
        path_key(a.take(i)) == path_key(b.take(i)),
    decreases i,
{
    if i > 0 {
        lemma_same_parts(a, b, i - 1);
        assert(a.take(i).drop_last() =~= a.take(i - 1));
        assert(b.take(i).drop_last() =~= b.take(i - 1));
        assert(a[i - 1].rank == b[i - 1].rank);
    } else {
        assert(a.take(0) =~= seq![]);
        assert(b.take(0) =~= seq![]);
    }
}

/// A path as numbers, around one of its components.
proof fn lemma_path_key_at(a: Seq<PathPart>, i: int)
    requires
        0 <= i < a.len(),
    ensures
        path_key(a) == path_key(a.take(i)) + part_key(a[i]) + path_key(a.skip(i + 1)),
{
    lemma_path_key_concat(a.take(i + 1), a.skip(i + 1));
    assert(a.take(i + 1) + a.skip(i + 1) =~= a);
    assert(a.take(i + 1).drop_last() =~= a.take(i));
}

/// A directory comes before everything in it.
pub proof fn law_directories_come_first(a: Seq<PathPart>, b: Seq<PathPart>)
    requires
        a.len() < b.len(),
        forall|j: int|
            0 <= j < a.len() ==> (#[trigger] a[j]).rank == b[j].rank && a[j].name@ == b[j].name@,
    ensures
        comes_before(path_key(a), path_key(b)),
{
    let n = a.len() as int;
    lemma_same_parts(a, b, n);
    assert(a.take(n) =~= a);
    lemma_path_key_at(b, n);
    let head = path_key(a);
    let more = part_key(b[n]) + path_key(b.skip(n + 1));
    assert(head + more =~= head + part_key(b[n]) + path_key(b.skip(n + 1)));
    assert(head + seq![] =~= head);
    lemma_same_beginning(head, seq![], more);
}

/// Where two names first differ.
proof fn lemma_first_difference(a: Seq<u8>, b: Seq<u8>) -> (m: int)
    requires
        a != b,
    ensures
        name_before(a, b, m) || name_before(b, a, m),
    decreases a.len(),
{
    if a.len() == 0 {
        if b.len() == 0 {
            assert(a =~= b);
        }
        assert(a.take(0) =~= b.take(0));
        0
    } else if b.len() == 0 {
        assert(a.take(0) =~= b.take(0));
        0
    } else if a[0] != b[0] {
        assert(a.take(0) =~= b.take(0));
        0
    } else {
        let x = a.drop_first();
        let y = b.drop_first();
        if x == y {
            assert(a =~= seq![a[0]] + x);
            assert(b =~= seq![b[0]] + y);
        }
        let m = lemma_first_difference(x, y);
        assert(a.take(m + 1) =~= seq![a[0]] + x.take(m));
        assert(b.take(m + 1) =~= seq![b[0]] + y.take(m));
        m + 1
    }
}

/// Paths with different components are different as numbers: of two such paths one comes before
/// the other.
pub proof fn law_different_paths_are_told_apart(a: Seq<PathPart>, b: Seq<PathPart>)
    requires
        path_key(a) == path_key(b),
    ensures
        a.len() == b.len(),
        forall|j: int|
            0 <= j < a.len() ==> (#[trigger] a[j]).rank == b[j].rank && a[j].name@ == b[j].name@,
{
    lemma_before_total(path_key(a), path_key(b));
    lemma_same_upto(a, b, if a.len() < b.len() {
        a.len() as int
    } else {
        b.len() as int
    });
    if a.len() < b.len() {
        law_directories_come_first(a, b);
    } else if b.len() < a.len() {
        assert forall|j: int| 0 <= j < b.len() implies (#[trigger] b[j]).rank == a[j].rank
            && b[j].name@ == a[j].name@ by {
            assert(a[j].rank == b[j].rank);
        }
        law_directories_come_first(b, a);
    }
}

/// Paths that are the same as numbers have the same components.
proof fn lemma_same_upto(a: Seq<PathPart>, b: Seq<PathPart>, n: int)
    requires
        path_key(a) == path_key(b),
        0 <= n <= a.len(),
        n <= b.len(),
    ensures
        forall|j: int|
            0 <= j < n ==> (#[trigger] a[j]).rank == b[j].rank && a[j].name@ == b[j].name@,
    decreases n,
{
    if n > 0 {
        lemma_same_upto(a, b, n - 1);
        let i = n - 1;
        lemma_before_total(path_key(a), path_key(b));
        assert forall|j: int| 0 <= j < i implies (#[trigger] b[j]).rank == a[j].rank && b[j].name@
            == a[j].name@ by {
            assert(a[j].rank == b[j].rank);
        }
        if a[i].rank < b[i].rank {
            law_paths_are_ordered_part_by_part(a, b, i, 0);
        } else if b[i].rank < a[i].rank {
            law_paths_are_ordered_part_by_part(b, a, i, 0);
        } else if a[i].name@ != b[i].name@ {
            let m = lemma_first_difference(a[i].name@, b[i].name@);
            if name_before(a[i].name@, b[i].name@, m) {
                law_paths_are_ordered_part_by_part(a, b, i, m);
            } else {
                law_paths_are_ordered_part_by_part(b, a, i, m);
            }
        }
    }
}

/// Whether two files have the same path.
pub open spec fn same_path(a: FoundFile, b: FoundFile) -> bool {
    path_key(a.parts@) == path_key(b.parts@)
}

/// What is chosen are files that are to be kept, each the first with its path, and no path that
/// is to be kept is left out. They are in the order of their paths.
pub proof fn law_every_path_is_chosen_once(
    files: Seq<FoundFile>,
    keep: spec_fn(FoundFile) -> bool,
    chosen: Seq<usize>,
    i: int,
    j: int,
    k: int,
)
    requires
        is_selection(files, keep, files.len() as int, chosen),
    ensures
        0 <= k < chosen.len() ==> chosen[k] < files.len() && keep(files[chosen[k] as int]),
        0 <= i < files.len() && keep(files[i]) ==> exists|n: int|
            0 <= n < chosen.len() && same_path(files[(#[trigger] chosen[n]) as int], files[i]),
        0 <= k < chosen.len() && 0 <= i < chosen[k] && keep(files[i]) ==> !same_path(
            files[i],
            files[chosen[k] as int],
        ),
        0 <= j < k < chosen.len() ==> comes_before(
            path_key(files[chosen[j] as int].parts@),
            path_key(files[chosen[k] as int].parts@),
        ),
{
    if 0 <= i < files.len() && keep(files[i]) {
        assert(is_covered(files, chosen, i));
        let n = choose|n: int|
            0 <= n < chosen.len() && #[trigger] chosen[n] <= i && file_key(files[chosen[n] as int])
                == file_key(files[i]);
        assert(same_path(files[chosen[n] as int], files[i]));
        if 0 <= k < chosen.len() && i < chosen[k] && same_path(files[i], files[chosen[k] as int]) {
            lemma_one_place(files, keep, chosen, n, k);
        }
    }
    if 0 <= j < k < chosen.len() {
        assert(in_order(files, chosen, j, k));
    }
}

/// A file is to be kept among PDF files exactly if its extension is that of one, and among those
/// to split exactly if its stem does not mark it as a chunk besides.
pub proof fn law_kept_files_are_pdf_files(file: FoundFile)
    ensures
        pdf_files()(file) <==> (file.extension matches Some(text) && text@.len() == 3 && (text@[0]
            == 'p' || text@[0] == 'P') && (text@[1] == 'd' || text@[1] == 'D') && (text@[2] == 'f'
            || text@[2] == 'F')),
        candidates()(file) <==> pdf_files()(file) && !(exists|i: int|
            0 <= i <= file.stem@.len() - 5 && #[trigger] file.stem@[i] == '_' && file.stem@[i + 1]
                == 'p' && file.stem@[i + 2] == 'a' && file.stem@[i + 3] == 'r' && file.stem@[i + 4]
                == 't'),
{
    law_pdf_files_have_three_letters(extension_view(file));
    law_candidates_are_unmarked_pdf_files(extension_view(file), file.stem@);
}

} // verus!
