//! The list of recently used files: newest first, each file once, eight at
//! most.

use vstd::prelude::*;
use crate::settings::strings;

verus! {

/// The most files that the list holds.
pub const MAX_ENTRIES: usize = 8;

/// The recently used files, as full paths.
pub struct RecentFiles {
    pub paths: Vec<String>,
}

/// The list without a file.
pub open spec fn others(list: Seq<Seq<char>>, path: Seq<char>) -> Seq<Seq<char>>
    decreases list.len(),
{
    if list.len() == 0 {
        Seq::empty()
    } else {
        let before = others(list.drop_last(), path);
        if list.last() == path {
            before
        } else {
            before.push(list.last())
        }
    }
}

/// At most the first `n` of a list.
pub open spec fn first_of(list: Seq<Seq<char>>, n: int) -> Seq<Seq<char>> {
    if list.len() <= n {
        list
    } else {
        list.take(n)
    }
}

/// The list after a file was used.
pub open spec fn with_newest(list: Seq<Seq<char>>, path: Seq<char>) -> Seq<Seq<char>> {
    first_of(seq![path] + others(list, path), MAX_ENTRIES as int)
}

impl View for RecentFiles {
    type V = Seq<Seq<char>>;

    open spec fn view(&self) -> Seq<Seq<char>> {
        strings(self.paths@)
    }
}

impl Default for RecentFiles {
    fn default() -> (r: RecentFiles)
        ensures
            r@.len() == 0,
    {
        RecentFiles { paths: Vec::new() }
    }
}

impl RecentFiles {
    /// No file stands in the list twice, and there are not too many.
    pub open spec fn wf(&self) -> bool {
        self@.no_duplicates() && self@.len() <= MAX_ENTRIES
    }

    /// Puts a file first. The path is the file's full path, so that two
    /// spellings of it do not count as two files.
    pub fn push(&mut self, path: &str)
        ensures
            final(self)@ == with_newest(old(self)@, path@),
            old(self)@.no_duplicates() ==> final(self).wf(),
    {
        let newest: String = path.to_owned();
        let mut paths: Vec<String> = Vec::new();
        paths.push(path.to_owned());
        let ghost before = self@;
        let mut i: usize = 0;
        assert(before.take(0) =~= Seq::empty());
        assert(strings(paths@) =~= seq![path@] + others(before.take(0), path@));
        while i < self.paths.len()
            invariant
                before == strings(self.paths@),
                newest@ == path@,
                i <= self.paths@.len(),
                strings(paths@) =~= seq![path@] + others(before.take(i as int), path@),
            decreases self.paths@.len() - i,
        {
            let ghost so_far = strings(paths@);
            proof {
                assert(before.take(i + 1).drop_last() =~= before.take(i as int));
                assert(before.take(i + 1).last() == self.paths@[i as int]@);
            }
            if self.paths[i] != newest {
                let p: String = self.paths[i].clone();
                let ghost last = p@;
                paths.push(p);
                assert(strings(paths@) =~= so_far.push(last));
                assert(self.paths@[i as int]@ != path@);
            }
            i = i + 1;
        }
        proof {
            assert(before.take(before.len() as int) =~= before);
            assert(strings(paths@).len() == paths@.len());
        }
        let ghost full = strings(paths@);
        if paths.len() > MAX_ENTRIES {
            paths.truncate(MAX_ENTRIES);
            assert(strings(paths@) =~= full.take(MAX_ENTRIES as int));
        }
        self.paths = paths;
        proof {
            if before.no_duplicates() {
                law_newest_first(before, path@);
            }
        }
    }
}

/// The file just used comes first; no file comes twice; and there are at most
/// eight.
pub proof fn law_newest_first(list: Seq<Seq<char>>, path: Seq<char>)
    requires
        list.no_duplicates(),
    ensures
        with_newest(list, path)[0] == path,
        with_newest(list, path).no_duplicates(),
        1 <= with_newest(list, path).len() <= MAX_ENTRIES,
{
    lemma_others(list, path);
    let rest = others(list, path);
    let full = seq![path] + rest;
    assert(full.no_duplicates()) by {
        assert forall|i: int, j: int| 0 <= i < full.len() && 0 <= j < full.len() && i != j implies full[i]
            != full[j] by {
            if i == 0 {
                assert(rest[j - 1] == full[j]);
            } else if j == 0 {
                assert(rest[i - 1] == full[i]);
            } else {
                assert(rest[i - 1] == full[i] && rest[j - 1] == full[j]);
            }
        }
    }
}

proof fn lemma_others(list: Seq<Seq<char>>, path: Seq<char>)
    requires
        list.no_duplicates(),
    ensures
        others(list, path).no_duplicates(),
        others(list, path).len() <= list.len(),
        forall|i: int| 0 <= i < others(list, path).len() ==> #[trigger] others(list, path)[i] != path,
        forall|i: int|
            0 <= i < others(list, path).len() ==> list.contains(#[trigger] others(list, path)[i]),
    decreases list.len(),
{
    if list.len() > 0 {
        let shorter = list.drop_last();
        lemma_others(shorter, path);
        let before = others(shorter, path);
        assert forall|x: Seq<char>| shorter.contains(x) implies list.contains(x) && x != list.last() by {
            let k = choose|k: int| 0 <= k < shorter.len() && shorter[k] == x;
            assert(list[k] == x);
        }
        assert(list.contains(list.last())) by {
            assert(list[list.len() - 1] == list.last());
        }
        let after = others(list, path);
        if list.last() != path {
            assert(after =~= before.push(list.last()));
            assert forall|i: int| 0 <= i < after.len() implies list.contains(#[trigger] after[i]) by {
                if i < before.len() {
                    assert(after[i] == before[i]);
                }
            }
        } else {
            assert forall|i: int| 0 <= i < after.len() implies list.contains(#[trigger] after[i]) by {
                assert(shorter.contains(before[i]));
            }
        }
    }
}

/// Using the same file again changes nothing.
pub proof fn law_using_twice(list: Seq<Seq<char>>, path: Seq<char>)
    requires
        list.no_duplicates(),
    ensures
        with_newest(with_newest(list, path), path) == with_newest(list, path),
{
    law_newest_first(list, path);
    let once = with_newest(list, path);
    lemma_first_removed(once, path);
    assert(seq![path] + once.drop_first() =~= once);
}

proof fn lemma_first_removed(list: Seq<Seq<char>>, path: Seq<char>)
    requires
        list.len() > 0,
        list[0] == path,
        list.no_duplicates(),
    ensures
        others(list, path) == list.drop_first(),
    decreases list.len(),
{
    if list.len() == 1 {
        assert(others(list.drop_last(), path) =~= Seq::empty());
        assert(list.drop_first() =~= Seq::empty());
    } else {
        let shorter = list.drop_last();
        assert(shorter.no_duplicates());
        lemma_first_removed(shorter, path);
        assert(list.last() != path) by {
            assert(list[0] != list[list.len() - 1]);
        }
        assert(shorter.drop_first().push(list.last()) =~= list.drop_first());
    }
}

} // verus!
