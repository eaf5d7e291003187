//! Writing a grid solved by hand back into its puzzle file, as the line's
//! solution field, and the path a puzzle file is remembered under.
use vstd::prelude::*;
use crate::text::{
    chars_eq, chars_to_string, extend_chars, join, join_chars, lemma_splitn_nonempty, lines, split_lines_chars,
    splitn_chars, splitn_on, str_to_chars, trim, trim_chars, views,
};
use crate::file_list::{insert_name, name_views, names_sorted};
use crate::types::CellState;

verus! {

/// The solution field of a grid: `1` for a filled cell, `0` for any other.
pub open spec fn solution_field(g: Seq<CellState>) -> Seq<char> {
    g.map_values(|c: CellState| if c == CellState::Filled { '1' } else { '0' })
}

/// The solution field of `grid`.
pub fn solution_string(grid: &[CellState]) -> (s: String)
    ensures
        s@ == solution_field(grid@),
{
    let mut v: Vec<char> = Vec::new();
    let mut i: usize = 0;
    while i < grid.len()
        invariant
            i <= grid@.len(),
            v@ == solution_field(grid@.take(i as int)),
        decreases grid@.len() - i,
    {
        v.push(if grid[i] == CellState::Filled { '1' } else { '0' });
        i += 1;
        assert(v@ =~= solution_field(grid@.take(i as int)));
    }
    assert(grid@.take(grid@.len() as int) =~= grid@);
    chars_to_string(v.as_slice())
}

/// A line of a puzzle file with the solution field of puzzle `name` set to
/// `solution`. Comments, blank lines, other puzzles' lines and lines with
/// no clue field stay as they are; the puzzle's line is rewritten trimmed,
/// as name, clues, trimmed answer (empty when there is none) and solution.
pub open spec fn rewritten_line(line: Seq<char>, name: Seq<char>, solution: Seq<char>) -> Seq<char> {
    let t = trim(line);
    let parts = splitn_on(t, 4, ';');
    if t.len() == 0 || t[0] == '#' {
        line
    } else if trim(splitn_on(t, 2, ';')[0]) != name {
        line
    } else if parts.len() < 2 {
        line
    } else {
        let answer = if parts.len() > 2 { trim(parts[2]) } else { Seq::empty() };
        parts[0] + seq![';'] + parts[1] + seq![';'] + answer + seq![';'] + solution
    }
}

/// Saving a solution touches only the puzzle's own line: a line whose
/// first `;`-separated field, trimmed, is not exactly the puzzle's name
/// (a comment, a blank line, another puzzle, even one whose name starts
/// with this one's) comes back unchanged.
pub proof fn lemma_other_lines_unchanged(line: Seq<char>, name: Seq<char>, solution: Seq<char>)
    requires
        trim(splitn_on(trim(line), 2, ';')[0]) != name,
    ensures
        rewritten_line(line, name, solution) == line,
{
}

/// The puzzle's own line, when it has a clue field, is rewritten to end
/// with `;` and the solution, and keeps the name as its first field.
pub proof fn lemma_own_line_gets_solution(line: Seq<char>, name: Seq<char>, solution: Seq<char>)
    requires
        trim(line).len() > 0,
        trim(line)[0] != '#',
        trim(splitn_on(trim(line), 2, ';')[0]) == name,
        splitn_on(trim(line), 4, ';').len() >= 2,
    ensures
        rewritten_line(line, name, solution).len() >= solution.len() + 1,
        rewritten_line(line, name, solution).subrange(
            rewritten_line(line, name, solution).len() - solution.len() - 1,
            rewritten_line(line, name, solution).len() as int,
        ) == seq![';'] + solution,
        rewritten_line(line, name, solution).take(splitn_on(trim(line), 4, ';')[0].len() as int) == splitn_on(
            trim(line),
            4,
            ';',
        )[0],
{
    let t = trim(line);
    let parts = splitn_on(t, 4, ';');
    let answer = if parts.len() > 2 { trim(parts[2]) } else { Seq::empty() };
    let r = parts[0] + seq![';'] + parts[1] + seq![';'] + answer + seq![';'] + solution;
    assert(rewritten_line(line, name, solution) == r);
    assert(r.subrange(r.len() - solution.len() - 1, r.len() as int) =~= seq![';'] + solution);
    assert(r.take(parts[0].len() as int) =~= parts[0]);
}

/// The file `content` with the solution field of puzzle `name` set to
/// `solution` on every line of that puzzle. Lines are rejoined with line
/// feeds, with a final one when the content had one.
pub open spec fn rewritten(content: Seq<char>, name: Seq<char>, solution: Seq<char>) -> Seq<char> {
    join(lines(content).map_values(|l: Seq<char>| rewritten_line(l, name, solution)), seq!['\n']) + if content.len() > 0
        && content.last() == '\n' {
        seq!['\n']
    } else {
        Seq::empty()
    }
}

/// One line of a puzzle file with the solution field of puzzle `name` set.
fn rewrite_line(line: &[char], name: &[char], solution: &[char]) -> (r: Vec<char>)
    ensures
        r@ == rewritten_line(line@, name@, solution@),
{
    let t = trim_chars(line);
    if t.len() == 0 || t[0] == '#' {
        return crate::text::copy_range(line, 0, line.len());
    }
    let head = splitn_chars(t.as_slice(), 2, ';');
    proof {
        lemma_splitn_nonempty(t@, 2, ';', Seq::empty());
        assert(head@[0]@ == views(head@)[0]);
    }
    let first = trim_chars(head[0].as_slice());
    if !chars_eq(first.as_slice(), name) {
        return crate::text::copy_range(line, 0, line.len());
    }
    let parts = splitn_chars(t.as_slice(), 4, ';');
    proof {
        assert(views(parts@).len() == parts@.len());
    }
    if parts.len() < 2 {
        return crate::text::copy_range(line, 0, line.len());
    }
    let mut r: Vec<char> = Vec::new();
    extend_chars(&mut r, parts[0].as_slice());
    r.push(';');
    extend_chars(&mut r, parts[1].as_slice());
    r.push(';');
    if parts.len() > 2 {
        let answer = trim_chars(parts[2].as_slice());
        extend_chars(&mut r, answer.as_slice());
    }
    r.push(';');
    extend_chars(&mut r, solution);
    proof {
        let pv = splitn_on(t@, 4, ';');
        assert(pv[0] == parts@[0]@ && pv[1] == parts@[1]@);
        if parts.len() > 2 {
            assert(pv[2] == parts@[2]@);
        }
        assert(r@ =~= rewritten_line(line@, name@, solution@));
    }
    r
}

/// The content of a puzzle file with the solution field of puzzle `name`
/// set to `solution`.
pub fn with_solution(content: &str, name: &str, solution: &str) -> (s: String)
    ensures
        s@ == rewritten(content@, name@, solution@),
{
    let c = str_to_chars(content);
    let n = str_to_chars(name);
    let sol = str_to_chars(solution);
    let ls = split_lines_chars(c.as_slice());
    let ghost lv = lines(content@);
    let mut out: Vec<Vec<char>> = Vec::new();
    let mut i: usize = 0;
    while i < ls.len()
        invariant
            i <= ls@.len(),
            views(ls@) == lv,
            n@ == name@,
            sol@ == solution@,
            views(out@) == lv.take(i as int).map_values(|l: Seq<char>| rewritten_line(l, name@, solution@)),
        decreases ls@.len() - i,
    {
        let r = rewrite_line(ls[i].as_slice(), n.as_slice(), sol.as_slice());
        let ghost before = views(out@);
        proof {
            assert(lv[i as int] == ls@[i as int]@);
        }
        out.push(r);
        proof {
            assert(views(out@) =~= before.push(r@));
            assert(lv.take(i + 1).map_values(|l: Seq<char>| rewritten_line(l, name@, solution@)) =~= lv.take(
                i as int,
            ).map_values(|l: Seq<char>| rewritten_line(l, name@, solution@)).push(rewritten_line(lv[i as int], name@, solution@)));
        }
        i += 1;
    }
    assert(lv.take(i as int) =~= lv);
    let mut joined = join_chars(&out, &['\n']);
    if c.len() > 0 && c[c.len() - 1] == '\n' {
        joined.push('\n');
    }
    proof {
        assert(seq!['\n'] =~= [ '\n' ]@);
    }
    chars_to_string(joined.as_slice())
}

/// A path written with forward slashes only.
pub open spec fn forward_slashes(p: Seq<char>) -> Seq<char> {
    p.map_values(|c: char| if c == '\\' { '/' } else { c })
}

/// `path` with every backslash turned into a forward slash, the form a
/// puzzle file is remembered under.
pub fn with_forward_slashes(path: &str) -> (s: String)
    ensures
        s@ == forward_slashes(path@),
{
    let c = str_to_chars(path);
    let mut v: Vec<char> = Vec::new();
    let mut i: usize = 0;
    while i < c.len()
        invariant
            i <= c@.len(),
            c@ == path@,
            v@ == forward_slashes(c@.take(i as int)),
        decreases c@.len() - i,
    {
        v.push(if c[i] == '\\' { '/' } else { c[i] });
        i += 1;
        assert(v@ =~= forward_slashes(c@.take(i as int)));
    }
    assert(c@.take(c@.len() as int) =~= c@);
    chars_to_string(v.as_slice())
}

/// The puzzles solved by hand, as (file path, puzzle name) views.
pub open spec fn solved_views(pairs: Seq<(String, String)>) -> Seq<(Seq<char>, Seq<char>)> {
    pairs.map_values(|p: (String, String)| (p.0@, p.1@))
}

/// The solved puzzles grouped by file: the paths in increasing order, each
/// with the names solved in it in increasing order.
pub open spec fn solved_grouped(pairs: Seq<(Seq<char>, Seq<char>)>, groups: Seq<(Seq<char>, Seq<Seq<char>>)>) -> bool {
    &&& names_sorted(groups.map_values(|g: (Seq<char>, Seq<Seq<char>>)| g.0))
    &&& forall|k: int| 0 <= k < groups.len() ==> names_sorted(#[trigger] groups[k].1)
    &&& forall|k: int, x: Seq<char>|
        0 <= k < groups.len() ==> (#[trigger] groups[k].1.contains(x) <==> pairs.contains((groups[k].0, x)))
    &&& forall|i: int|
        0 <= i < pairs.len() ==> groups.map_values(|g: (Seq<char>, Seq<Seq<char>>)| g.0).contains(
            (#[trigger] pairs[i]).0,
        )
}

/// The views of grouped solved puzzles.
pub open spec fn group_string_views(g: Seq<(String, Vec<String>)>) -> Seq<(Seq<char>, Seq<Seq<char>>)> {
    g.map_values(|x: (String, Vec<String>)| (x.0@, x.1@.map_values(|s: String| s@)))
}

/// Turns sorted names into strings.
fn strings_of(names: &Vec<Vec<char>>) -> (r: Vec<String>)
    ensures
        r@.map_values(|s: String| s@) == name_views(names@),
{
    let mut r: Vec<String> = Vec::new();
    let mut i: usize = 0;
    while i < names.len()
        invariant
            i <= names@.len(),
            r@.map_values(|s: String| s@) == name_views(names@).take(i as int),
        decreases names@.len() - i,
    {
        let s = chars_to_string(names[i].as_slice());
        let ghost before = r@.map_values(|s: String| s@);
        r.push(s);
        proof {
            assert(r@.map_values(|s: String| s@) =~= before.push(names@[i as int]@));
            assert(name_views(names@).take(i + 1) =~= name_views(names@).take(i as int).push(names@[i as int]@));
        }
        i += 1;
    }
    assert(name_views(names@).take(i as int) =~= name_views(names@));
    r
}

/// The puzzles solved by hand grouped by file, as they are stored: paths
/// in increasing order, each with its names in increasing order.
pub fn group_solved(pairs: &Vec<(String, String)>) -> (r: Vec<(String, Vec<String>)>)
    ensures
        solved_grouped(solved_views(pairs@), group_string_views(r@)),
{
    let ghost pv = solved_views(pairs@);
    let mut paths: Vec<Vec<char>> = Vec::new();
    let mut i: usize = 0;
    while i < pairs.len()
        invariant
            i <= pairs@.len(),
            pv == solved_views(pairs@),
            names_sorted(name_views(paths@)),
            forall|x: Seq<char>|
                #[trigger] name_views(paths@).contains(x) <==> exists|j: int| 0 <= j < i && (#[trigger] pv[j]).0 == x,
        decreases pairs@.len() - i,
    {
        let ghost old_paths = name_views(paths@);
        let p = str_to_chars(pairs[i].0.as_str());
        insert_name(&mut paths, p);
        proof {
            assert(pv[i as int].0 == pairs@[i as int].0@);
            assert forall|x: Seq<char>|
                #[trigger] name_views(paths@).contains(x) <==> exists|j: int| 0 <= j < i + 1 && (#[trigger] pv[j]).0 == x by {
                if exists|j: int| 0 <= j < i + 1 && (#[trigger] pv[j]).0 == x {
                    let j = choose|j: int| 0 <= j < i + 1 && (#[trigger] pv[j]).0 == x;
                    if j < i {
                        assert(old_paths.contains(x));
                    }
                }
            }
        }
        i += 1;
    }
    let ghost names_of_paths = name_views(paths@);
    let mut groups: Vec<(String, Vec<String>)> = Vec::new();
    let mut k: usize = 0;
    while k < paths.len()
        invariant
            k <= paths@.len(),
            pv == solved_views(pairs@),
            names_of_paths == name_views(paths@),
            names_sorted(names_of_paths),
            forall|x: Seq<char>|
                #[trigger] names_of_paths.contains(x) <==> exists|j: int| 0 <= j < pv.len() && (#[trigger] pv[j]).0 == x,
            group_string_views(groups@).len() == k,
            forall|j: int| 0 <= j < k ==> (#[trigger] group_string_views(groups@)[j]).0 == names_of_paths[j],
            forall|j: int| 0 <= j < k ==> names_sorted(#[trigger] group_string_views(groups@)[j].1),
            forall|j: int, x: Seq<char>|
                0 <= j < k ==> (#[trigger] group_string_views(groups@)[j].1.contains(x) <==> pv.contains((names_of_paths[j], x))),
        decreases paths@.len() - k,
    {
        let path = paths[k].as_slice();
        let mut names: Vec<Vec<char>> = Vec::new();
        let mut i: usize = 0;
        while i < pairs.len()
            invariant
                i <= pairs@.len(),
                pv == solved_views(pairs@),
                path@ == names_of_paths[k as int],
                names_sorted(name_views(names@)),
                forall|x: Seq<char>|
                    #[trigger] name_views(names@).contains(x) <==> exists|j: int|
                        0 <= j < i && #[trigger] pv[j] == (path@, x),
            decreases pairs@.len() - i,
        {
            let ghost old_names = name_views(names@);
            let q = str_to_chars(pairs[i].0.as_str());
            proof {
                assert(pv[i as int] == (pairs@[i as int].0@, pairs@[i as int].1@));
            }
            if chars_eq(q.as_slice(), path) {
                let nm = str_to_chars(pairs[i].1.as_str());
                insert_name(&mut names, nm);
            }
            proof {
                assert forall|x: Seq<char>|
                    #[trigger] name_views(names@).contains(x) <==> exists|j: int|
                        0 <= j < i + 1 && #[trigger] pv[j] == (path@, x) by {
                    if exists|j: int| 0 <= j < i + 1 && #[trigger] pv[j] == (path@, x) {
                        let j = choose|j: int| 0 <= j < i + 1 && #[trigger] pv[j] == (path@, x);
                        if j < i {
                            assert(old_names.contains(x));
                        }
                    }
                }
            }
            i += 1;
        }
        let path_string = chars_to_string(path);
        let strs = strings_of(&names);
        let ghost before = group_string_views(groups@);
        groups.push((path_string, strs));
        proof {
            assert(group_string_views(groups@) =~= before.push((names_of_paths[k as int], name_views(names@))));
            assert forall|x: Seq<char>| name_views(names@).contains(x) <==> pv.contains((names_of_paths[k as int], x)) by {
                if pv.contains((names_of_paths[k as int], x)) {
                    let j = choose|j: int| 0 <= j < pv.len() && pv[j] == (names_of_paths[k as int], x);
                    assert(pv[j] == (path@, x));
                }
            }
        }
        k += 1;
    }
    proof {
        let g = group_string_views(groups@);
        assert(g.map_values(|x: (Seq<char>, Seq<Seq<char>>)| x.0) =~= names_of_paths);
        assert forall|t: int| 0 <= t < pv.len() implies names_of_paths.contains((#[trigger] pv[t]).0) by {
            let x = pv[t].0;
            assert(0 <= t < pv.len() && pv[t].0 == x);
            assert(exists|j: int| 0 <= j < pv.len() && (#[trigger] pv[j]).0 == x);
        }
    }
    groups
}

} // verus!
