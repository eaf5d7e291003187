//! Which puzzles of the loaded files are picked for solving, and how
//! clicks, with or without Shift and Ctrl, change the pick.
use vstd::prelude::*;
use crate::parse::ParsedPuzzle;
use crate::session::LoadedFile;

verus! {

/// Puzzle `k.1` of file `k.0` exists and parsed as a valid puzzle.
pub open spec fn valid_key(files: Seq<LoadedFile>, k: (usize, usize)) -> bool {
    &&& k.0 < files.len()
    &&& k.1 < files[k.0 as int].puzzles@.len()
    &&& files[k.0 as int].puzzles@[k.1 as int] is Valid
}

/// `a` comes no later than `b` in file order.
pub open spec fn key_le(a: (usize, usize), b: (usize, usize)) -> bool {
    a.0 < b.0 || (a.0 == b.0 && a.1 <= b.1)
}

/// The valid puzzles from `a` to `b` in file order, both ends included,
/// whichever comes first; none unless both ends are valid puzzles.
pub open spec fn keys_between(files: Seq<LoadedFile>, a: (usize, usize), b: (usize, usize)) -> Set<(usize, usize)> {
    let lo = if key_le(a, b) { a } else { b };
    let hi = if key_le(a, b) { b } else { a };
    if valid_key(files, a) && valid_key(files, b) {
        Set::new(|k: (usize, usize)| valid_key(files, k) && key_le(lo, k) && key_le(k, hi))
    } else {
        Set::empty()
    }
}

/// The valid puzzles of file `fi`.
pub open spec fn file_keys(files: Seq<LoadedFile>, fi: int) -> Set<(usize, usize)> {
    Set::new(|k: (usize, usize)| k.0 == fi && valid_key(files, k))
}

/// File `f` is in folder `folder`.
pub open spec fn in_folder_spec(f: LoadedFile, folder: Seq<char>) -> bool {
    match f.folder {
        Some(d) => d@ == folder,
        None => false,
    }
}

/// The valid puzzles of the files in folder `folder`.
pub open spec fn folder_keys(files: Seq<LoadedFile>, folder: Seq<char>) -> Set<(usize, usize)> {
    Set::new(
        |k: (usize, usize)|
            valid_key(files, k) && in_folder_spec(files[k.0 as int], folder),
    )
}

/// Every valid puzzle.
pub open spec fn all_keys(files: Seq<LoadedFile>) -> Set<(usize, usize)> {
    Set::new(|k: (usize, usize)| valid_key(files, k))
}

/// The picked puzzles and the anchor that a Shift-click extends from.
pub struct Selection {
    pub keys: Vec<(usize, usize)>,
    pub anchor: Option<(usize, usize)>,
}

/// `s` with the keys of `ks` added or taken out.
pub open spec fn set_keys(s: Set<(usize, usize)>, ks: Set<(usize, usize)>, checked: bool) -> Set<(usize, usize)> {
    if checked {
        s.union(ks)
    } else {
        s.difference(ks)
    }
}

/// The pick and anchor after a click on puzzle `key`, which is ignored
/// unless it is a valid puzzle: a plain click picks it alone, Ctrl-click
/// toggles it, Shift-click picks the run from the anchor (or `key` itself
/// without one) to `key`, added to the pick with Ctrl, replacing it
/// without. A plain click, and a Ctrl-click that picks, move the anchor.
pub open spec fn clicked(
    s: Set<(usize, usize)>,
    anchor: Option<(usize, usize)>,
    files: Seq<LoadedFile>,
    key: (usize, usize),
    shift: bool,
    ctrl: bool,
) -> (Set<(usize, usize)>, Option<(usize, usize)>) {
    if !valid_key(files, key) {
        (s, anchor)
    } else if !shift && !ctrl {
        (set![key], Some(key))
    } else if !shift {
        if s.contains(key) {
            (s.remove(key), anchor)
        } else {
            (s.insert(key), Some(key))
        }
    } else {
        let from = match anchor {
            Some(a) => a,
            None => key,
        };
        let base = if ctrl { s } else { Set::empty() };
        (base.union(keys_between(files, from, key)), anchor)
    }
}

proof fn lemma_push_contains(s: Seq<(usize, usize)>, v: (usize, usize))
    ensures
        forall|x: (usize, usize)| #[trigger] s.push(v).contains(x) <==> (s.contains(x) || x == v),
{
    assert forall|x: (usize, usize)| #[trigger] s.push(v).contains(x) <==> (s.contains(x) || x == v) by {
        if s.contains(x) {
            let i = choose|i: int| 0 <= i < s.len() && s[i] == x;
            assert(s.push(v)[i] == x);
        }
        if x == v {
            assert(s.push(v)[s.len() as int] == v);
        }
        if s.push(v).contains(x) {
            let i = choose|i: int| 0 <= i < s.len() + 1 && s.push(v)[i] == x;
            if i < s.len() {
                assert(s[i] == x);
            }
        }
    }
}

/// Whether puzzle `k` of the file list is a valid puzzle.
fn is_valid_key(files: &Vec<LoadedFile>, k: (usize, usize)) -> (r: bool)
    ensures
        r == valid_key(files@, k),
{
    if k.0 < files.len() && k.1 < files[k.0].puzzles.len() {
        files[k.0].puzzles[k.1].is_valid()
    } else {
        false
    }
}

fn key_le_exec(a: (usize, usize), b: (usize, usize)) -> (r: bool)
    ensures
        r == key_le(a, b),
{
    a.0 < b.0 || (a.0 == b.0 && a.1 <= b.1)
}

/// Whether file `fi` is in folder `folder`.
fn in_folder(file: &LoadedFile, folder: &str) -> (r: bool)
    ensures
        r == in_folder_spec(*file, folder@),
{
    match &file.folder {
        Some(f) => {
            let a = crate::text::str_to_chars(f.as_str());
            let b = crate::text::str_to_chars(folder);
            crate::text::chars_eq(a.as_slice(), b.as_slice())
        },
        None => false,
    }
}

impl Selection {
    /// The picked puzzles.
    pub open spec fn picked(&self) -> Set<(usize, usize)> {
        Set::new(|k: (usize, usize)| self.keys@.contains(k))
    }

    /// Nothing picked, no anchor.
    pub fn new() -> (s: Self)
        ensures
            s.picked() == Set::<(usize, usize)>::empty(),
            s.anchor is None,
    {
        let s = Selection { keys: Vec::new(), anchor: None };
        assert(s.picked() =~= Set::<(usize, usize)>::empty());
        s
    }

    /// Whether puzzle `k` is picked.
    pub fn contains(&self, k: (usize, usize)) -> (r: bool)
        ensures
            r == self.picked().contains(k),
    {
        let mut i: usize = 0;
        while i < self.keys.len()
            invariant
                i <= self.keys@.len(),
                forall|j: int| 0 <= j < i ==> self.keys@[j] != k,
            decreases self.keys@.len() - i,
        {
            if self.keys[i].0 == k.0 && self.keys[i].1 == k.1 {
                assert(self.keys@[i as int] == k);
                return true;
            }
            i += 1;
        }
        false
    }

    /// Picks `k`.
    pub fn insert(&mut self, k: (usize, usize))
        ensures
            final(self).picked() == old(self).picked().insert(k),
            final(self).anchor == old(self).anchor,
    {
        if !self.contains(k) {
            proof {
                lemma_push_contains(self.keys@, k);
            }
            self.keys.push(k);
        }
        assert(self.picked() =~= old(self).picked().insert(k));
    }

    /// Unpicks `k`.
    pub fn remove(&mut self, k: (usize, usize))
        ensures
            final(self).picked() == old(self).picked().remove(k),
            final(self).anchor == old(self).anchor,
    {
        let mut kept: Vec<(usize, usize)> = Vec::new();
        let mut i: usize = 0;
        while i < self.keys.len()
            invariant
                i <= self.keys@.len(),
                self.keys@ == old(self).keys@,
                forall|x: (usize, usize)| kept@.contains(x) <==> (x != k && self.keys@.take(i as int).contains(x)),
            decreases self.keys@.len() - i,
        {
            let x = self.keys[i];
            proof {
                assert(self.keys@.take(i + 1) =~= self.keys@.take(i as int).push(x));
                lemma_push_contains(self.keys@.take(i as int), x);
                lemma_push_contains(kept@, x);
            }
            if !(x.0 == k.0 && x.1 == k.1) {
                kept.push(x);
            }
            i += 1;
        }
        proof {
            assert(self.keys@.take(i as int) =~= self.keys@);
        }
        self.keys = kept;
        assert(self.picked() =~= old(self).picked().remove(k));
    }

    /// Unpicks everything; the anchor stays.
    pub fn clear(&mut self)
        ensures
            final(self).picked() == Set::<(usize, usize)>::empty(),
            final(self).anchor == old(self).anchor,
    {
        self.keys = Vec::new();
        assert(self.picked() =~= Set::<(usize, usize)>::empty());
    }

    /// Picks or unpicks one puzzle.
    pub fn toggle(&mut self, k: (usize, usize), checked: bool)
        ensures
            final(self).picked() == set_keys(old(self).picked(), set![k], checked),
            final(self).anchor == old(self).anchor,
    {
        if checked {
            self.insert(k);
        } else {
            self.remove(k);
        }
        assert(self.picked() =~= set_keys(old(self).picked(), set![k], checked));
    }

    /// Picks or unpicks every valid puzzle of file `fi`; nothing for a file
    /// that is not there.
    pub fn set_file(&mut self, files: &Vec<LoadedFile>, fi: usize, checked: bool)
        ensures
            final(self).picked() == set_keys(old(self).picked(), file_keys(files@, fi as int), checked),
            final(self).anchor == old(self).anchor,
    {
        if fi >= files.len() {
            assert(file_keys(files@, fi as int) =~= Set::<(usize, usize)>::empty());
            assert(self.picked() =~= set_keys(old(self).picked(), file_keys(files@, fi as int), checked));
            return;
        }
        let mut pi: usize = 0;
        while pi < files[fi].puzzles.len()
            invariant
                fi < files@.len(),
                pi <= files@[fi as int].puzzles@.len(),
                self.anchor == old(self).anchor,
                self.picked() == set_keys(
                    old(self).picked(),
                    Set::new(|k: (usize, usize)| k.0 == fi && k.1 < pi && valid_key(files@, k)),
                    checked,
                ),
            decreases files@[fi as int].puzzles@.len() - pi,
        {
            let ghost before = self.picked();
            if files[fi].puzzles[pi].is_valid() {
                self.toggle((fi, pi), checked);
            }
            pi += 1;
            proof {
                assert(self.picked() =~= set_keys(
                    old(self).picked(),
                    Set::new(|k: (usize, usize)| k.0 == fi && k.1 < pi && valid_key(files@, k)),
                    checked,
                ));
            }
        }
        assert(self.picked() =~= set_keys(old(self).picked(), file_keys(files@, fi as int), checked));
    }

    /// Picks or unpicks every valid puzzle of the files in `folder`.
    pub fn set_folder(&mut self, files: &Vec<LoadedFile>, folder: &str, checked: bool)
        ensures
            final(self).picked() == set_keys(old(self).picked(), folder_keys(files@, folder@), checked),
            final(self).anchor == old(self).anchor,
    {
        let mut fi: usize = 0;
        while fi < files.len()
            invariant
                fi <= files@.len(),
                self.anchor == old(self).anchor,
                self.picked() == set_keys(
                    old(self).picked(),
                    Set::new(|k: (usize, usize)| k.0 < fi && folder_keys(files@, folder@).contains(k)),
                    checked,
                ),
            decreases files@.len() - fi,
        {
            if in_folder(&files[fi], folder) {
                self.set_file(files, fi, checked);
            }
            fi += 1;
            proof {
                assert(self.picked() =~= set_keys(
                    old(self).picked(),
                    Set::new(|k: (usize, usize)| k.0 < fi && folder_keys(files@, folder@).contains(k)),
                    checked,
                ));
            }
        }
        assert(self.picked() =~= set_keys(old(self).picked(), folder_keys(files@, folder@), checked));
    }

    /// Picks every valid puzzle.
    pub fn select_all(&mut self, files: &Vec<LoadedFile>)
        ensures
            final(self).picked() == old(self).picked().union(all_keys(files@)),
            final(self).anchor == old(self).anchor,
    {
        let mut fi: usize = 0;
        while fi < files.len()
            invariant
                fi <= files@.len(),
                self.anchor == old(self).anchor,
                self.picked() == old(self).picked().union(
                    Set::new(|k: (usize, usize)| k.0 < fi && valid_key(files@, k)),
                ),
            decreases files@.len() - fi,
        {
            self.set_file(files, fi, true);
            fi += 1;
            proof {
                assert(self.picked() =~= old(self).picked().union(
                    Set::new(|k: (usize, usize)| k.0 < fi && valid_key(files@, k)),
                ));
            }
        }
        assert(self.picked() =~= old(self).picked().union(all_keys(files@)));
    }

    /// Picks every valid puzzle from `a` to `b` in file order, when both
    /// are valid puzzles.
    fn pick_between(&mut self, files: &Vec<LoadedFile>, a: (usize, usize), b: (usize, usize))
        ensures
            final(self).picked() == old(self).picked().union(keys_between(files@, a, b)),
            final(self).anchor == old(self).anchor,
    {
        if !is_valid_key(files, a) || !is_valid_key(files, b) {
            assert(self.picked() =~= old(self).picked().union(keys_between(files@, a, b)));
            return;
        }
        let (lo, hi) = if key_le_exec(a, b) { (a, b) } else { (b, a) };
        let ghost range = keys_between(files@, a, b);
        let mut fi: usize = 0;
        while fi < files.len()
            invariant
                fi <= files@.len(),
                self.anchor == old(self).anchor,
                range == keys_between(files@, a, b),
                range == Set::new(|k: (usize, usize)| valid_key(files@, k) && key_le(lo, k) && key_le(k, hi)),
                self.picked() == old(self).picked().union(
                    Set::new(|k: (usize, usize)| k.0 < fi && range.contains(k)),
                ),
            decreases files@.len() - fi,
        {
            let mut pi: usize = 0;
            while pi < files[fi].puzzles.len()
                invariant
                    fi < files@.len(),
                    pi <= files@[fi as int].puzzles@.len(),
                    self.anchor == old(self).anchor,
                    range == Set::new(|k: (usize, usize)| valid_key(files@, k) && key_le(lo, k) && key_le(k, hi)),
                    self.picked() == old(self).picked().union(
                        Set::new(|k: (usize, usize)| (k.0 < fi || (k.0 == fi && k.1 < pi)) && range.contains(k)),
                    ),
                decreases files@[fi as int].puzzles@.len() - pi,
            {
                let k = (fi, pi);
                if files[fi].puzzles[pi].is_valid() && key_le_exec(lo, k) && key_le_exec(k, hi) {
                    self.insert(k);
                }
                pi += 1;
                proof {
                    assert(self.picked() =~= old(self).picked().union(
                        Set::new(|k: (usize, usize)| (k.0 < fi || (k.0 == fi && k.1 < pi)) && range.contains(k)),
                    ));
                }
            }
            fi += 1;
            proof {
                assert(self.picked() =~= old(self).picked().union(
                    Set::new(|k: (usize, usize)| k.0 < fi && range.contains(k)),
                ));
            }
        }
        assert(self.picked() =~= old(self).picked().union(range));
    }

    /// A click on puzzle `key` in the list, with Shift and Ctrl as held.
    pub fn click(&mut self, files: &Vec<LoadedFile>, key: (usize, usize), shift: bool, ctrl: bool)
        ensures
            (final(self).picked(), final(self).anchor) == clicked(
                old(self).picked(),
                old(self).anchor,
                files@,
                key,
                shift,
                ctrl,
            ),
    {
        if !is_valid_key(files, key) {
            return;
        }
        if !shift && !ctrl {
            self.clear();
            self.insert(key);
            self.anchor = Some(key);
            assert(self.picked() =~= set![key]);
        } else if !shift {
            if self.contains(key) {
                self.remove(key);
            } else {
                self.insert(key);
                self.anchor = Some(key);
            }
        } else {
            let from = match self.anchor {
                Some(a) => a,
                None => key,
            };
            if !ctrl {
                self.clear();
            }
            self.pick_between(files, from, key);
        }
    }
}

} // verus!
