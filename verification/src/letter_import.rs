//! Import of letter-encoded puzzle files (`A` = 1 … `Z` = 26): blocks of
//! two lines separated by blank lines, row clues then column clues.
use vstd::prelude::*;
use crate::convert::{decode_letter_line, letter_lines};
use crate::parse::{normalize_clues, normalized};
use crate::text::{chars_to_string, decimal, extend_decimal, extend_str, lines, split_lines_chars, trim, trim_chars, views, words};
use crate::types::{Puzzle, PuzzleModel, clue_lists};

verus! {

/// Blocks of consecutive non-blank lines, each a list of trimmed lines,
/// where `cur` holds the block being read.
pub open spec fn line_blocks(ls: Seq<Seq<char>>, cur: Seq<Seq<char>>) -> Seq<Seq<Seq<char>>>
    decreases ls.len(),
{
    if ls.len() == 0 {
        if cur.len() > 0 { seq![cur] } else { Seq::empty() }
    } else if trim(ls[0]).len() == 0 {
        (if cur.len() > 0 { seq![cur] } else { Seq::<Seq<Seq<char>>>::empty() }) + line_blocks(
            ls.drop_first(),
            Seq::empty(),
        )
    } else {
        line_blocks(ls.drop_first(), cur.push(trim(ls[0])))
    }
}

/// The clue lists of a line of letter tokens, if every token is valid.
pub open spec fn letter_line(line: Seq<char>) -> Option<Seq<Seq<u32>>> {
    match letter_lines(words(line)) {
        Ok(v) => Some(v),
        Err(_) => None,
    }
}

/// The puzzle of block number `i` (from 0), if it is well-formed.
pub open spec fn block_puzzle(block: Seq<Seq<char>>, prefix: Seq<char>, i: nat) -> Option<PuzzleModel> {
    if block.len() != 2 {
        None
    } else {
        match letter_line(block[0]) {
            None => None,
            Some(r) => match letter_line(block[1]) {
                None => None,
                Some(c) => {
                    let rows = normalized(r);
                    let cols = normalized(c);
                    Some(
                        PuzzleModel {
                            name: prefix + " "@ + decimal(i + 1),
                            answer: None,
                            width: cols.len(),
                            height: rows.len(),
                            row_clues: rows,
                            col_clues: cols,
                            solution: None,
                        },
                    )
                },
            },
        }
    }
}

/// The puzzles of blocks `k..`, skipping malformed ones.
pub open spec fn block_puzzles(blocks: Seq<Seq<Seq<char>>>, prefix: Seq<char>, k: nat) -> Seq<PuzzleModel>
    decreases blocks.len() - k,
{
    if k >= blocks.len() {
        Seq::empty()
    } else {
        (match block_puzzle(blocks[k as int], prefix, k) {
            Some(p) => seq![p],
            None => Seq::empty(),
        }) + block_puzzles(blocks, prefix, k + 1)
    }
}

/// Decodes a line of letter tokens, or `None` if a token is invalid.
pub fn decode_line(line: &[char]) -> (r: Option<Vec<Vec<u32>>>)
    ensures
        match r {
            Some(v) => letter_line(line@) == Some(clue_lists(v@)),
            None => letter_line(line@) is None,
        },
{
    match decode_letter_line(line) {
        Ok(v) => Some(v),
        Err(_) => None,
    }
}

/// The views of a list of blocks.
pub open spec fn block_views(v: Seq<Vec<Vec<char>>>) -> Seq<Seq<Seq<char>>> {
    v.map_values(|b: Vec<Vec<char>>| views(b@))
}

/// Groups the trimmed non-blank lines into blocks.
fn group_blocks(content: &[char]) -> (r: Vec<Vec<Vec<char>>>)
    ensures
        block_views(r@) == line_blocks(lines(content@), Seq::empty()),
{
    let ls = split_lines_chars(content);
    let ghost lv = views(ls@);
    let mut blocks: Vec<Vec<Vec<char>>> = Vec::new();
    let mut current: Vec<Vec<char>> = Vec::new();
    let mut i: usize = 0;
    assert(lv.skip(0) =~= lv);
    assert(views(current@) =~= Seq::<Seq<char>>::empty());
    assert(block_views(blocks@) + line_blocks(lv, Seq::empty()) =~= line_blocks(lv, Seq::empty()));
    while i < ls.len()
        invariant
            i <= ls@.len(),
            lv == views(ls@),
            block_views(blocks@) + line_blocks(lv.skip(i as int), views(current@)) == line_blocks(lv, Seq::empty()),
        decreases ls@.len() - i,
    {
        let ghost rest = lv.skip(i as int);
        assert(rest[0] == ls@[i as int]@);
        assert(rest.drop_first() =~= lv.skip(i + 1));
        let t = trim_chars(ls[i].as_slice());
        if t.len() == 0 {
            if current.len() > 0 {
                let ghost before = block_views(blocks@);
                let ghost cv = views(current@);
                blocks.push(current);
                current = Vec::new();
                assert(views(current@) =~= Seq::<Seq<char>>::empty());
                assert(block_views(blocks@) =~= before.push(cv));
                assert(block_views(blocks@) + line_blocks(lv.skip(i + 1), views(current@)) =~= before + (seq![cv]
                    + line_blocks(lv.skip(i + 1), Seq::empty())));
            } else {
                assert(views(current@) =~= Seq::<Seq<char>>::empty());
                assert(Seq::<Seq<Seq<char>>>::empty() + line_blocks(lv.skip(i + 1), Seq::empty()) =~= line_blocks(
                    lv.skip(i + 1),
                    Seq::empty(),
                ));
            }
        } else {
            let ghost cv = views(current@);
            let ghost tv = t@;
            current.push(t);
            assert(views(current@) =~= cv.push(tv));
        }
        i += 1;
    }
    if current.len() > 0 {
        let ghost before = block_views(blocks@);
        let ghost cv = views(current@);
        blocks.push(current);
        assert(block_views(blocks@) =~= before + seq![cv]);
    } else {
        assert(block_views(blocks@) + Seq::<Seq<Seq<char>>>::empty() =~= block_views(blocks@));
    }
    blocks
}

/// The puzzles of a letter-encoded file, named `prefix 1`, `prefix 2`, …
/// by block position; malformed blocks are skipped.
pub fn convert_letter_content(content: &str, name_prefix: &str) -> (r: Vec<Puzzle>)
    ensures
        r@.map_values(|p: Puzzle| p@) == block_puzzles(
            line_blocks(lines(content@), Seq::empty()),
            name_prefix@,
            0,
        ),
{
    let cc = crate::text::str_to_chars(content);
    let blocks = group_blocks(cc.as_slice());
    let ghost bv = block_views(blocks@);
    let mut out: Vec<Puzzle> = Vec::new();
    let mut k: usize = 0;
    assert(out@.map_values(|p: Puzzle| p@) + block_puzzles(bv, name_prefix@, 0) =~= block_puzzles(
        bv,
        name_prefix@,
        0,
    ));
    while k < blocks.len()
        invariant
            k <= blocks@.len(),
            bv == block_views(blocks@),
            out@.map_values(|p: Puzzle| p@) + block_puzzles(bv, name_prefix@, k as nat) == block_puzzles(
                bv,
                name_prefix@,
                0,
            ),
        decreases blocks@.len() - k,
    {
        let block = &blocks[k];
        assert(bv[k as int] == views(block@));
        let ghost before = out@.map_values(|p: Puzzle| p@);
        let ghost want = block_puzzle(bv[k as int], name_prefix@, k as nat);
        if block.len() == 2 {
            assert(views(block@)[0] == block@[0]@ && views(block@)[1] == block@[1]@);
            if let Some(r) = decode_line(block[0].as_slice()) {
                if let Some(c) = decode_line(block[1].as_slice()) {
                    let row_clues = normalize_clues(r);
                    let col_clues = normalize_clues(c);
                    let mut name: Vec<char> = Vec::new();
                    extend_str(&mut name, name_prefix);
                    extend_str(&mut name, " ");
                    extend_decimal(&mut name, (k + 1) as u64);
                    let p = Puzzle {
                        name: chars_to_string(name.as_slice()),
                        answer: None,
                        width: col_clues.len(),
                        height: row_clues.len(),
                        row_clues,
                        col_clues,
                        solution: None,
                    };
                    let ghost pv = p@;
                    out.push(p);
                    assert(pv == want->0);
                    assert(out@.map_values(|p: Puzzle| p@) =~= before.push(pv));
                }
            }
        }
        proof {
            let nowv = out@.map_values(|p: Puzzle| p@);
            match want {
                Some(p) => {
                    assert(nowv + block_puzzles(bv, name_prefix@, (k + 1) as nat) =~= before + block_puzzles(
                        bv,
                        name_prefix@,
                        k as nat,
                    ));
                },
                None => {
                    assert(nowv =~= before);
                    assert(block_puzzles(bv, name_prefix@, k as nat) =~= Seq::<PuzzleModel>::empty()
                        + block_puzzles(bv, name_prefix@, (k + 1) as nat));
                },
            }
        }
        k += 1;
    }
    assert(out@.map_values(|p: Puzzle| p@) + Seq::<PuzzleModel>::empty() =~= out@.map_values(|p: Puzzle| p@));
    out
}

} // verus!
