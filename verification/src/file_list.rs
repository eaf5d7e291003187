//! The list of loaded files in the puzzle browser: files grouped by folder
//! in name order, and the picked/valid counts shown beside files, folders
//! and the whole list.
use vstd::prelude::*;
use crate::parse::ParsedPuzzle;
use crate::selection::{Selection, valid_key};
use crate::session::LoadedFile;
use crate::text::{chars_to_string, decimal, extend_decimal, extend_str, str_to_chars};

verus! {

/// Number of valid entries among the first `k` of `ps`.
pub open spec fn valid_upto(ps: Seq<ParsedPuzzle>, k: int) -> nat
    decreases k,
{
    if k <= 0 || k > ps.len() {
        0
    } else {
        valid_upto(ps, k - 1) + if ps[k - 1] is Valid { 1nat } else { 0nat }
    }
}

/// Number of valid entries of file `fi` among its first `k` that are in
/// `picked`.
pub open spec fn picked_upto(ps: Seq<ParsedPuzzle>, picked: Set<(usize, usize)>, fi: usize, k: int) -> nat
    decreases k,
{
    if k <= 0 || k > ps.len() {
        0
    } else {
        picked_upto(ps, picked, fi, k - 1) + if ps[k - 1] is Valid && picked.contains((fi, (k - 1) as usize)) {
            1nat
        } else {
            0nat
        }
    }
}

proof fn lemma_counts_bound(ps: Seq<ParsedPuzzle>, picked: Set<(usize, usize)>, fi: usize, k: int)
    requires
        0 <= k <= ps.len(),
    ensures
        picked_upto(ps, picked, fi, k) <= valid_upto(ps, k) <= k,
    decreases k,
{
    if k > 0 {
        lemma_counts_bound(ps, picked, fi, k - 1);
    }
}

/// `"picked/valid"`, with `" (+n invalid)"` when `n` entries of the
/// `total` are invalid.
pub open spec fn count_label(picked: nat, valid: nat, total: nat) -> Seq<char> {
    decimal(picked) + "/"@ + decimal(valid) + if total > valid {
        " (+"@ + decimal((total - valid) as nat) + " invalid)"@
    } else {
        Seq::empty()
    }
}

/// Counts the valid entries of file `fi` and those of them picked.
pub fn file_counts(sel: &Selection, file: &LoadedFile, fi: usize) -> (r: (usize, usize))
    ensures
        r.0 == valid_upto(file.puzzles@, file.puzzles@.len() as int),
        r.1 == picked_upto(file.puzzles@, sel.picked(), fi, file.puzzles@.len() as int),
{
    let mut valid: usize = 0;
    let mut picked: usize = 0;
    let mut pi: usize = 0;
    while pi < file.puzzles.len()
        invariant
            pi <= file.puzzles@.len(),
            valid == valid_upto(file.puzzles@, pi as int),
            picked == picked_upto(file.puzzles@, sel.picked(), fi, pi as int),
        decreases file.puzzles@.len() - pi,
    {
        proof {
            lemma_counts_bound(file.puzzles@, sel.picked(), fi, pi as int);
        }
        if file.puzzles[pi].is_valid() {
            valid += 1;
            if sel.contains((fi, pi)) {
                picked += 1;
            }
        }
        pi += 1;
    }
    (valid, picked)
}

/// The count shown beside file `fi`, and whether its checkbox is ticked:
/// it is when it has valid puzzles and all are picked.
pub fn file_header(sel: &Selection, file: &LoadedFile, fi: usize) -> (r: (String, bool))
    ensures
        ({
            let valid = valid_upto(file.puzzles@, file.puzzles@.len() as int);
            let picked = picked_upto(file.puzzles@, sel.picked(), fi, file.puzzles@.len() as int);
            &&& r.0@ == count_label(picked, valid, file.puzzles@.len())
            &&& r.1 == (valid > 0 && picked == valid)
        }),
{
    let (valid, picked) = file_counts(sel, file, fi);
    proof {
        lemma_counts_bound(file.puzzles@, sel.picked(), fi, file.puzzles@.len() as int);
    }
    let mut v: Vec<char> = Vec::new();
    extend_decimal(&mut v, picked as u64);
    extend_str(&mut v, "/");
    extend_decimal(&mut v, valid as u64);
    let total = file.puzzles.len();
    if total > valid {
        extend_str(&mut v, " (+");
        extend_decimal(&mut v, (total - valid) as u64);
        extend_str(&mut v, " invalid)");
    }
    proof {
        assert(v@ =~= count_label(picked as nat, valid as nat, total as nat));
    }
    (chars_to_string(v.as_slice()), valid > 0 && picked == valid)
}

/// `a` sorts before `b`, comparing characters by code point.
pub open spec fn name_lt(a: Seq<char>, b: Seq<char>) -> bool
    decreases a.len(),
{
    if a.len() == 0 {
        b.len() > 0
    } else if b.len() == 0 {
        false
    } else if (a[0] as u32) != (b[0] as u32) {
        (a[0] as u32) < (b[0] as u32)
    } else {
        name_lt(a.drop_first(), b.drop_first())
    }
}

/// Whether `a` sorts before `b`.
fn chars_lt(a: &[char], b: &[char]) -> (r: bool)
    ensures
        r == name_lt(a@, b@),
{
    let mut i: usize = 0;
    assert(a@.skip(0) =~= a@);
    assert(b@.skip(0) =~= b@);
    while i < a.len() && i < b.len()
        invariant
            i <= a@.len(),
            i <= b@.len(),
            name_lt(a@, b@) == name_lt(a@.skip(i as int), b@.skip(i as int)),
            decreases a@.len() - i,
    {
        let x = a[i] as u32;
        let y = b[i] as u32;
        if x != y {
            return x < y;
        }
        proof {
            assert(a@.skip(i as int).drop_first() =~= a@.skip(i + 1));
            assert(b@.skip(i as int).drop_first() =~= b@.skip(i + 1));
        }
        i += 1;
    }
    i >= a.len() && i < b.len()
}

/// Names in strictly increasing order.
pub open spec fn names_sorted(names: Seq<Seq<char>>) -> bool {
    forall|i: int, j: int| 0 <= i < j < names.len() ==> name_lt(#[trigger] names[i], #[trigger] names[j])
}

/// The folder of file `f`, as characters.
pub open spec fn folder_of(f: LoadedFile) -> Option<Seq<char>> {
    match f.folder {
        Some(d) => Some(d@),
        None => None,
    }
}

/// The indices, in order, of the first `k` files whose folder is `folder`.
pub open spec fn members(files: Seq<LoadedFile>, folder: Option<Seq<char>>, k: int) -> Seq<usize>
    decreases k,
{
    if k <= 0 || k > files.len() {
        Seq::empty()
    } else if folder_of(files[k - 1]) == folder {
        members(files, folder, k - 1).push((k - 1) as usize)
    } else {
        members(files, folder, k - 1)
    }
}

/// The file list in display order: the folders, each once in name order
/// with the indices of their files, and the files in no folder.
pub open spec fn grouped(files: Seq<LoadedFile>, top: Seq<usize>, groups: Seq<(Seq<char>, Seq<usize>)>) -> bool {
    let n = files.len() as int;
    &&& top == members(files, None, n)
    &&& names_sorted(groups.map_values(|g: (Seq<char>, Seq<usize>)| g.0))
    &&& forall|k: int| 0 <= k < groups.len() ==> (#[trigger] groups[k]).1 == members(files, Some(groups[k].0), n)
    &&& forall|k: int| 0 <= k < groups.len() ==> (#[trigger] groups[k]).1.len() > 0
    &&& forall|fi: int|
        0 <= fi < n && folder_of(#[trigger] files[fi]) is Some ==> exists|k: int|
            0 <= k < groups.len() && groups[k].0 == folder_of(files[fi])->0
}

/// The views of folder groups.
pub open spec fn group_views(g: Seq<(Vec<char>, Vec<usize>)>) -> Seq<(Seq<char>, Seq<usize>)> {
    g.map_values(|x: (Vec<char>, Vec<usize>)| (x.0@, x.1@))
}

proof fn lemma_members_len(files: Seq<LoadedFile>, folder: Option<Seq<char>>, k: int, fi: int)
    requires
        0 <= fi < k <= files.len(),
        folder_of(files[fi]) == folder,
    ensures
        members(files, folder, k).len() > 0,
    decreases k,
{
    if fi < k - 1 {
        lemma_members_len(files, folder, k - 1, fi);
    }
}

/// The indices of the files in `folder`, in order.
fn collect_members(files: &Vec<LoadedFile>, folder: &Option<Vec<char>>) -> (r: Vec<usize>)
    ensures
        r@ == members(
            files@,
            match folder {
                Some(f) => Some(f@),
                None => None,
            },
            files@.len() as int,
        ),
{
    let ghost want = match folder {
        Some(f) => Some(f@),
        None => None,
    };
    let mut r: Vec<usize> = Vec::new();
    let mut fi: usize = 0;
    while fi < files.len()
        invariant
            fi <= files@.len(),
            want == (match folder {
                Some(f) => Some(f@),
                None => None,
            }),
            r@ == members(files@, want, fi as int),
        decreases files@.len() - fi,
    {
        let same = match (&files[fi].folder, folder) {
            (None, None) => true,
            (Some(d), Some(f)) => {
                let dc = str_to_chars(d.as_str());
                crate::text::chars_eq(dc.as_slice(), f.as_slice())
            },
            _ => false,
        };
        if same {
            r.push(fi);
        }
        fi += 1;
    }
    r
}

proof fn lemma_lt_irreflexive(a: Seq<char>)
    ensures
        !name_lt(a, a),
    decreases a.len(),
{
    if a.len() > 0 {
        lemma_lt_irreflexive(a.drop_first());
    }
}

proof fn lemma_char_code(c: char, d: char)
    requires
        (c as u32) == (d as u32),
    ensures
        c == d,
{
    assert((c as int) == (d as int));
}

proof fn lemma_lt_total(a: Seq<char>, b: Seq<char>)
    requires
        a != b,
    ensures
        name_lt(a, b) || name_lt(b, a),
    decreases a.len(),
{
    if a.len() == 0 && b.len() == 0 {
        assert(a =~= b);
    }
    if a.len() > 0 && b.len() > 0 && (a[0] as u32) == (b[0] as u32) {
        lemma_char_code(a[0], b[0]);
        if a.drop_first() == b.drop_first() {
            assert(a =~= seq![a[0]] + a.drop_first());
            assert(b =~= seq![b[0]] + b.drop_first());
        }
        lemma_lt_total(a.drop_first(), b.drop_first());
    }
}

proof fn lemma_lt_transitive(a: Seq<char>, b: Seq<char>, c: Seq<char>)
    requires
        name_lt(a, b),
        name_lt(b, c),
    ensures
        name_lt(a, c),
    decreases a.len(),
{
    if a.len() > 0 && b.len() > 0 && c.len() > 0 && (a[0] as u32) == (b[0] as u32) && (b[0] as u32) == (c[0]
        as u32) {
        lemma_lt_transitive(a.drop_first(), b.drop_first(), c.drop_first());
    }
}

/// Inserting a name at its place keeps a sorted list sorted.
proof fn lemma_insert_sorted(s: Seq<Seq<char>>, i: int, x: Seq<char>)
    requires
        names_sorted(s),
        0 <= i <= s.len(),
        forall|j: int| 0 <= j < i ==> name_lt(#[trigger] s[j], x),
        i < s.len() ==> name_lt(x, s[i]),
    ensures
        names_sorted(s.insert(i, x)),
{
    let t = s.insert(i, x);
    assert forall|p: int, q: int| 0 <= p < q < t.len() implies name_lt(#[trigger] t[p], #[trigger] t[q]) by {
        if q < i {
            assert(t[p] == s[p] && t[q] == s[q]);
        } else if q == i {
            assert(t[p] == s[p]);
        } else if p < i {
            assert(t[p] == s[p] && t[q] == s[q - 1]);
        } else if p == i {
            assert(t[q] == s[q - 1]);
            if q - 1 > i {
                lemma_lt_transitive(x, s[i], s[q - 1]);
            }
        } else {
            assert(t[p] == s[p - 1] && t[q] == s[q - 1]);
        }
    }
}

/// The names of a list of character vectors.
pub open spec fn name_views(v: Seq<Vec<char>>) -> Seq<Seq<char>> {
    v.map_values(|x: Vec<char>| x@)
}

/// Inserts `name` into the sorted list `names` unless it is there.
pub(crate) fn insert_name(names: &mut Vec<Vec<char>>, name: Vec<char>)
    requires
        names_sorted(name_views(old(names)@)),
    ensures
        names_sorted(name_views(final(names)@)),
        forall|x: Seq<char>|
            #[trigger] name_views(final(names)@).contains(x) <==> (name_views(old(names)@).contains(x) || x == name@),
{
    let ghost before = name_views(names@);
    let mut i: usize = 0;
    let mut go = true;
    while go && i < names.len()
        invariant
            i <= names@.len(),
            name_views(names@) == before,
            forall|j: int| 0 <= j < i ==> name_lt(#[trigger] before[j], name@),
            !go ==> i < names@.len() && !name_lt(before[i as int], name@),
        decreases names@.len() - i + (if go { 1int } else { 0int }),
    {
        if chars_lt(names[i].as_slice(), name.as_slice()) {
            i += 1;
        } else {
            go = false;
        }
    }
    if i < names.len() && crate::text::chars_eq(names[i].as_slice(), name.as_slice()) {
        proof {
            assert(before[i as int] == name@);
        }
        return;
    }
    proof {
        if i < before.len() {
            assert(before[i as int] != name@);
            lemma_lt_total(before[i as int], name@);
        }
        lemma_insert_sorted(before, i as int, name@);
    }
    let ghost nv = name@;
    names.insert(i, name);
    proof {
        assert(name_views(names@) =~= before.insert(i as int, nv));
        assert forall|x: Seq<char>| #[trigger] name_views(names@).contains(x) <==> (before.contains(x) || x == nv) by {
            let t = before.insert(i as int, nv);
            if before.contains(x) {
                let j = choose|j: int| 0 <= j < before.len() && before[j] == x;
                if j < i {
                    assert(t[j] == x);
                } else {
                    assert(t[j + 1] == x);
                }
            }
            if x == nv {
                assert(t[i as int] == x);
            }
            if t.contains(x) {
                let j = choose|j: int| 0 <= j < t.len() && t[j] == x;
                if j < i {
                    assert(before[j] == x);
                } else if j > i {
                    assert(before[j - 1] == x);
                }
            }
        }
    }
}

/// The file list in display order: the indices of the files in no folder,
/// and each folder, in name order, with the indices of its files.
pub fn group_files(files: &Vec<LoadedFile>) -> (r: (Vec<usize>, Vec<(Vec<char>, Vec<usize>)>))
    ensures
        grouped(files@, r.0@, group_views(r.1@)),
{
    let top = collect_members(files, &None);
    let mut names: Vec<Vec<char>> = Vec::new();
    let mut fi: usize = 0;
    while fi < files.len()
        invariant
            fi <= files@.len(),
            names_sorted(name_views(names@)),
            forall|x: Seq<char>|
                #[trigger] name_views(names@).contains(x) <==> exists|f: int|
                    0 <= f < fi && folder_of(#[trigger] files@[f]) == Some(x),
        decreases files@.len() - fi,
    {
        let ghost old_names = name_views(names@);
        if let Some(d) = &files[fi].folder {
            let dc = str_to_chars(d.as_str());
            insert_name(&mut names, dc);
        }
        proof {
            assert forall|x: Seq<char>|
                #[trigger] name_views(names@).contains(x) <==> exists|f: int|
                    0 <= f < fi + 1 && folder_of(#[trigger] files@[f]) == Some(x) by {
                if name_views(names@).contains(x) && !old_names.contains(x) {
                    assert(folder_of(files@[fi as int]) == Some(x));
                }
                if exists|f: int| 0 <= f < fi + 1 && folder_of(#[trigger] files@[f]) == Some(x) {
                    let f = choose|f: int| 0 <= f < fi + 1 && folder_of(#[trigger] files@[f]) == Some(x);
                    if f < fi {
                        assert(old_names.contains(x));
                    }
                }
            }
        }
        fi += 1;
    }
    let ghost nv = name_views(names@);
    let mut groups: Vec<(Vec<char>, Vec<usize>)> = Vec::new();
    let mut k: usize = 0;
    while k < names.len()
        invariant
            k <= names@.len(),
            nv == name_views(names@),
            group_views(groups@) == Seq::new(
                k as nat,
                |j: int| (nv[j], members(files@, Some(nv[j]), files@.len() as int)),
            ),
        decreases names@.len() - k,
    {
        let name = crate::text::copy_range(names[k].as_slice(), 0, names[k].len());
        proof {
            assert(name@ =~= nv[k as int]);
        }
        let folder = Some(name);
        let m = collect_members(files, &folder);
        let ghost before = group_views(groups@);
        match folder {
            Some(name) => {
                groups.push((name, m));
            },
            None => {},
        }
        k += 1;
        proof {
            assert(group_views(groups@) =~= before.push((nv[k - 1], members(files@, Some(nv[k - 1]), files@.len() as int))));
            assert(group_views(groups@) =~= Seq::new(
                k as nat,
                |j: int| (nv[j], members(files@, Some(nv[j]), files@.len() as int)),
            ));
        }
    }
    proof {
        let g = group_views(groups@);
        let n = files@.len() as int;
        assert(g.map_values(|x: (Seq<char>, Seq<usize>)| x.0) =~= nv);
        assert forall|j: int| 0 <= j < g.len() implies (#[trigger] g[j]).1.len() > 0 by {
            assert(nv.contains(nv[j]));
            let f = choose|f: int| 0 <= f < n && folder_of(#[trigger] files@[f]) == Some(nv[j]);
            lemma_members_len(files@, Some(nv[j]), n, f);
        }
        assert forall|f: int| 0 <= f < n && folder_of(#[trigger] files@[f]) is Some implies exists|j: int|
            0 <= j < g.len() && g[j].0 == folder_of(files@[f])->0 by {
            let x = folder_of(files@[f])->0;
            assert(nv.contains(x));
            let j = choose|j: int| 0 <= j < nv.len() && nv[j] == x;
            assert(g[j].0 == x);
        }
    }
    (top, groups)
}

/// Sum over the files `fis` of their valid entries.
pub open spec fn valid_in(files: Seq<LoadedFile>, fis: Seq<usize>) -> nat
    decreases fis.len(),
{
    if fis.len() == 0 {
        0
    } else {
        valid_in(files, fis.drop_last()) + if fis.last() < files.len() {
            valid_upto(files[fis.last() as int].puzzles@, files[fis.last() as int].puzzles@.len() as int)
        } else {
            0
        }
    }
}

/// Sum over the files `fis` of their valid entries that are picked.
pub open spec fn picked_in(files: Seq<LoadedFile>, picked: Set<(usize, usize)>, fis: Seq<usize>) -> nat
    decreases fis.len(),
{
    if fis.len() == 0 {
        0
    } else {
        picked_in(files, picked, fis.drop_last()) + if fis.last() < files.len() {
            picked_upto(
                files[fis.last() as int].puzzles@,
                picked,
                fis.last(),
                files[fis.last() as int].puzzles@.len() as int,
            )
        } else {
            0
        }
    }
}

proof fn lemma_picked_le_valid(files: Seq<LoadedFile>, picked: Set<(usize, usize)>, fis: Seq<usize>)
    ensures
        picked_in(files, picked, fis) <= valid_in(files, fis),
    decreases fis.len(),
{
    if fis.len() > 0 {
        lemma_picked_le_valid(files, picked, fis.drop_last());
        if fis.last() < files.len() {
            let ps = files[fis.last() as int].puzzles@;
            lemma_counts_bound(ps, picked, fis.last(), ps.len() as int);
        }
    }
}

proof fn lemma_valid_in_prefix(files: Seq<LoadedFile>, fis: Seq<usize>, k: int)
    requires
        0 <= k <= fis.len(),
    ensures
        valid_in(files, fis.take(k)) <= valid_in(files, fis),
    decreases fis.len(),
{
    if k < fis.len() {
        assert(fis.drop_last().take(k) =~= fis.take(k));
        lemma_valid_in_prefix(files, fis.drop_last(), k);
    } else {
        assert(fis.take(k) =~= fis);
    }
}

/// The count shown beside a folder holding the files `fis`, and whether
/// its checkbox is ticked: it is when it has valid puzzles and all are
/// picked.
pub fn folder_header(sel: &Selection, files: &Vec<LoadedFile>, fis: &Vec<usize>) -> (r: (String, bool))
    requires
        valid_in(files@, fis@) <= usize::MAX,
    ensures
        ({
            let valid = valid_in(files@, fis@);
            let picked = picked_in(files@, sel.picked(), fis@);
            &&& r.0@ == decimal(picked) + "/"@ + decimal(valid)
            &&& r.1 == (valid > 0 && picked == valid)
        }),
{
    let mut valid: usize = 0;
    let mut picked: usize = 0;
    let mut k: usize = 0;
    assert(fis@.take(0) =~= Seq::<usize>::empty());
    while k < fis.len()
        invariant
            k <= fis@.len(),
            valid_in(files@, fis@) <= usize::MAX,
            valid == valid_in(files@, fis@.take(k as int)),
            picked == picked_in(files@, sel.picked(), fis@.take(k as int)),
        decreases fis@.len() - k,
    {
        let fi = fis[k];
        proof {
            assert(fis@.take(k + 1).drop_last() =~= fis@.take(k as int));
            assert(fis@.take(k + 1).last() == fi);
            lemma_valid_in_prefix(files@, fis@, k + 1);
            lemma_picked_le_valid(files@, sel.picked(), fis@.take(k + 1));
        }
        if fi < files.len() {
            let (v, p) = file_counts(sel, &files[fi], fi);
            valid += v;
            picked += p;
        }
        k += 1;
    }
    proof {
        assert(fis@.take(k as int) =~= fis@);
    }
    let mut t: Vec<char> = Vec::new();
    extend_decimal(&mut t, picked as u64);
    extend_str(&mut t, "/");
    extend_decimal(&mut t, valid as u64);
    (chars_to_string(t.as_slice()), valid > 0 && picked == valid)
}

/// Whether the list's checkbox is ticked: there are valid puzzles and all
/// of them are picked.
pub fn all_picked(sel: &Selection, files: &Vec<LoadedFile>) -> (r: bool)
    ensures
        r == ((exists|k: (usize, usize)| valid_key(files@, k)) && (forall|k: (usize, usize)|
            valid_key(files@, k) ==> sel.picked().contains(k))),
{
    let mut any = false;
    let mut fi: usize = 0;
    while fi < files.len()
        invariant
            fi <= files@.len(),
            any == exists|k: (usize, usize)| k.0 < fi && valid_key(files@, k),
            forall|k: (usize, usize)| k.0 < fi && valid_key(files@, k) ==> sel.picked().contains(k),
        decreases files@.len() - fi,
    {
        let mut pi: usize = 0;
        while pi < files[fi].puzzles.len()
            invariant
                fi < files@.len(),
                pi <= files@[fi as int].puzzles@.len(),
                any == exists|k: (usize, usize)| (k.0 < fi || (k.0 == fi && k.1 < pi)) && valid_key(files@, k),
                forall|k: (usize, usize)|
                    (k.0 < fi || (k.0 == fi && k.1 < pi)) && valid_key(files@, k) ==> sel.picked().contains(k),
            decreases files@[fi as int].puzzles@.len() - pi,
        {
            if files[fi].puzzles[pi].is_valid() {
                if !sel.contains((fi, pi)) {
                    proof {
                        assert(valid_key(files@, (fi, pi)));
                        assert(!sel.picked().contains((fi, pi)));
                        assert(!(forall|k: (usize, usize)| valid_key(files@, k) ==> sel.picked().contains(k)));
                    }
                    return false;
                }
                any = true;
                proof {
                    assert(valid_key(files@, (fi, pi)));
                }
            }
            pi += 1;
        }
        fi += 1;
    }
    proof {
        assert forall|k: (usize, usize)| valid_key(files@, k) implies k.0 < fi by {}
    }
    any
}

/// Index of the first file loaded from `path`.
pub open spec fn path_index(files: Seq<LoadedFile>, path: Seq<char>, from: int) -> Option<nat>
    decreases files.len() - from,
{
    if from < 0 || from >= files.len() {
        None
    } else if files[from].path@ == path {
        Some(from as nat)
    } else {
        path_index(files, path, from + 1)
    }
}

proof fn lemma_path_index_bound(files: Seq<LoadedFile>, path: Seq<char>, from: int)
    ensures
        path_index(files, path, from) matches Some(i) ==> from <= i < files.len() && files[i as int].path@ == path,
    decreases files.len() - from,
{
    if 0 <= from < files.len() && files[from].path@ != path {
        lemma_path_index_bound(files, path, from + 1);
    }
}

/// The index of the file loaded from `path`, if any.
fn find_path(files: &Vec<LoadedFile>, path: &str) -> (r: Option<usize>)
    ensures
        r matches Some(i) ==> path_index(files@, path@, 0) == Some(i as nat) && i < files@.len(),
        r is None ==> path_index(files@, path@, 0) is None,
{
    proof {
        lemma_path_index_bound(files@, path@, 0);
    }
    let p = str_to_chars(path);
    let mut i: usize = 0;
    while i < files.len()
        invariant
            i <= files@.len(),
            p@ == path@,
            path_index(files@, path@, 0) == path_index(files@, path@, i as int),
        decreases files@.len() - i,
    {
        let q = str_to_chars(files[i].path.as_str());
        if crate::text::chars_eq(q.as_slice(), p.as_slice()) {
            return Some(i);
        }
        i += 1;
    }
    None
}

/// `"Loaded v puzzle(s) from <where>"`, with `" (n invalid)"` when `n`
/// entries are invalid.
pub open spec fn loaded_message(valid: nat, invalid: nat, place: Seq<char>) -> Seq<char> {
    "Loaded "@ + decimal(valid) + " puzzle(s) from "@ + place + if invalid > 0 {
        " ("@ + decimal(invalid) + " invalid)"@
    } else {
        Seq::empty()
    }
}

fn push_loaded_message(v: &mut Vec<char>, valid: usize, invalid: usize, place: &str)
    ensures
        final(v)@ == old(v)@ + loaded_message(valid as nat, invalid as nat, place@),
{
    extend_str(v, "Loaded ");
    extend_decimal(v, valid as u64);
    extend_str(v, " puzzle(s) from ");
    extend_str(v, place);
    if invalid > 0 {
        extend_str(v, " (");
        extend_decimal(v, invalid as u64);
        extend_str(v, " invalid)");
    }
    proof {
        assert(final(v)@ =~= old(v)@ + loaded_message(valid as nat, invalid as nat, place@));
    }
}

/// Adds a file the user opened, unless a file from the same path is
/// loaded already; returns the status line that reports it.
pub fn add_opened_file(files: &mut Vec<LoadedFile>, path: String, name: String, puzzles: Vec<ParsedPuzzle>) -> (status: String)
    ensures
        ({
            let valid = valid_upto(puzzles@, puzzles@.len() as int);
            status@ == loaded_message(valid, (puzzles@.len() - valid) as nat, name@)
        }),
        path_index(old(files)@, path@, 0) is Some ==> final(files)@ == old(files)@,
        path_index(old(files)@, path@, 0) is None ==> final(files)@ == old(files)@.push(
            LoadedFile { path, name, folder: None, auto_loaded: false, puzzles, collapsed: true },
        ),
{
    let mut valid: usize = 0;
    let mut k: usize = 0;
    while k < puzzles.len()
        invariant
            k <= puzzles@.len(),
            valid == valid_upto(puzzles@, k as int),
        decreases puzzles@.len() - k,
    {
        proof {
            lemma_counts_bound(puzzles@, Set::empty(), 0, k as int);
        }
        if puzzles[k].is_valid() {
            valid += 1;
        }
        k += 1;
    }
    proof {
        lemma_counts_bound(puzzles@, Set::empty(), 0, puzzles@.len() as int);
    }
    let mut v: Vec<char> = Vec::new();
    push_loaded_message(&mut v, valid, puzzles.len() - valid, name.as_str());
    let status = chars_to_string(v.as_slice());
    if find_path(files, path.as_str()).is_none() {
        files.push(LoadedFile { path, name, folder: None, auto_loaded: false, puzzles, collapsed: true });
    }
    status
}

/// Takes in a file found by the scan of the puzzle folder: a file already
/// loaded from the same path gets the new puzzles and folder, anything
/// else is added, folded.
pub fn add_found_file(
    files: &mut Vec<LoadedFile>,
    path: String,
    name: String,
    folder: Option<String>,
    puzzles: Vec<ParsedPuzzle>,
)
    ensures
        match path_index(old(files)@, path@, 0) {
            Some(i) => final(files)@ == old(files)@.update(
                i as int,
                LoadedFile {
                    path: old(files)@[i as int].path,
                    name: old(files)@[i as int].name,
                    folder,
                    auto_loaded: old(files)@[i as int].auto_loaded,
                    puzzles,
                    collapsed: old(files)@[i as int].collapsed,
                },
            ),
            None => final(files)@ == old(files)@.push(
                LoadedFile { path, name, folder, auto_loaded: true, puzzles, collapsed: true },
            ),
        },
{
    match find_path(files, path.as_str()) {
        Some(i) => {
            let ghost f0 = files@;
            let old_file = files.remove(i);
            proof {
                assert(old_file == f0[i as int]);
            }
            let updated = LoadedFile {
                path: old_file.path,
                name: old_file.name,
                folder,
                auto_loaded: old_file.auto_loaded,
                puzzles,
                collapsed: old_file.collapsed,
            };
            files.insert(i, updated);
            proof {
                assert(files@ =~= f0.update(i as int, updated));
                assert(updated == (LoadedFile {
                    path: f0[i as int].path,
                    name: f0[i as int].name,
                    folder,
                    auto_loaded: f0[i as int].auto_loaded,
                    puzzles,
                    collapsed: f0[i as int].collapsed,
                }));
            }
        },
        None => {
            files.push(LoadedFile { path, name, folder, auto_loaded: true, puzzles, collapsed: true });
        },
    }
}

/// Valid and invalid entries over the scanned files among the first `k`.
pub open spec fn scanned_counts(files: Seq<LoadedFile>, k: int) -> (nat, nat)
    decreases k,
{
    if k <= 0 || k > files.len() {
        (0, 0)
    } else {
        let (v, iv) = scanned_counts(files, k - 1);
        let f = files[k - 1];
        if f.auto_loaded {
            let fv = valid_upto(f.puzzles@, f.puzzles@.len() as int);
            (v + fv, iv + (f.puzzles@.len() - fv) as nat)
        } else {
            (v, iv)
        }
    }
}

/// The status line while the puzzle folder is being scanned: progress
/// while files are pending, else what the scanned files held (or that
/// there was none, when `failed_last` and no valid puzzle was found).
pub open spec fn scan_message(files: Seq<LoadedFile>, pending: nat, total: nat, failed_last: bool) -> Seq<char> {
    let (v, iv) = scanned_counts(files, files.len() as int);
    if pending > 0 {
        "Loading "@ + decimal((total - pending) as nat) + " / "@ + decimal(total) + " files\u{2026}"@
    } else if failed_last && v == 0 {
        "No default puzzles found in puzzles/"@
    } else {
        loaded_message(v, iv, "puzzles/"@)
    }
}

/// The scan status line, once `pending` of `total` files are left; the
/// last file may have failed to parse (`failed_last`).
pub fn scan_status(files: &Vec<LoadedFile>, pending: usize, total: usize, failed_last: bool) -> (s: String)
    requires
        pending <= total,
        scanned_counts(files@, files@.len() as int).0 + scanned_counts(files@, files@.len() as int).1 <= usize::MAX,
    ensures
        s@ == scan_message(files@, pending as nat, total as nat, failed_last),
{
    let mut v: Vec<char> = Vec::new();
    if pending > 0 {
        extend_str(&mut v, "Loading ");
        extend_decimal(&mut v, (total - pending) as u64);
        extend_str(&mut v, " / ");
        extend_decimal(&mut v, total as u64);
        extend_str(&mut v, " files\u{2026}");
        return chars_to_string(v.as_slice());
    }
    let mut valid: usize = 0;
    let mut invalid: usize = 0;
    let mut fi: usize = 0;
    while fi < files.len()
        invariant
            fi <= files@.len(),
            scanned_counts(files@, files@.len() as int).0 + scanned_counts(files@, files@.len() as int).1 <= usize::MAX,
            (valid as nat, invalid as nat) == scanned_counts(files@, fi as int),
        decreases files@.len() - fi,
    {
        proof {
            lemma_scanned_prefix(files@, fi + 1, files@.len() as int);
            lemma_counts_bound(files@[fi as int].puzzles@, Set::empty(), 0, files@[fi as int].puzzles@.len() as int);
        }
        if files[fi].auto_loaded {
            let (fv, _) = file_counts(&Selection { keys: Vec::new(), anchor: None }, &files[fi], fi);
            valid += fv;
            invalid += files[fi].puzzles.len() - fv;
        }
        fi += 1;
    }
    if failed_last && valid == 0 {
        extend_str(&mut v, "No default puzzles found in puzzles/");
    } else {
        push_loaded_message(&mut v, valid, invalid, "puzzles/");
    }
    chars_to_string(v.as_slice())
}

proof fn lemma_scanned_prefix(files: Seq<LoadedFile>, k: int, n: int)
    requires
        0 <= k <= n <= files.len(),
    ensures
        scanned_counts(files, k).0 <= scanned_counts(files, n).0,
        scanned_counts(files, k).1 <= scanned_counts(files, n).1,
    decreases n - k,
{
    if k < n {
        lemma_scanned_prefix(files, k, n - 1);
    }
}

} // verus!
