//! Reading the output of the system tools that the service commands run.

use vstd::prelude::*;

use crate::text::{chars_eq, chars_of, lines, slice_chars, split_lines, string_from_chars, trim, trimmed, views};

verus! {

broadcast use vstd::string::group_string_axioms;

/// The output of `id -u` names the superuser: it reads `0` once trimmed.
pub open spec fn names_root(output: Seq<char>) -> bool {
    trim(output) == "0"@
}

/// Whether the output of `id -u` names the superuser.
pub fn is_root_output(output: &str) -> (r: bool)
    ensures
        r == names_root(output@),
{
    let t = trimmed(&chars_of(output));
    let zero = chars_of("0");
    chars_eq(&t, &zero)
}

/// `p` occurs in `s` starting at `k`.
pub open spec fn occurs_at(s: Seq<char>, p: Seq<char>, k: int) -> bool {
    0 <= k && k + p.len() <= s.len() && s.subrange(k, k + p.len()) == p
}

/// `p` occurs in `s`.
pub open spec fn contains_text(s: Seq<char>, p: Seq<char>) -> bool {
    exists|k: int| occurs_at(s, p, k)
}

/// Whether `p` occurs in `s`.
pub fn text_contains(s: &Vec<char>, p: &Vec<char>) -> (r: bool)
    ensures
        r == contains_text(s@, p@),
{
    if p.len() > s.len() {
        return false;
    }
    let last = s.len() - p.len();
    let mut k: usize = 0;
    while k <= last
        invariant
            last == s.len() - p.len(),
            p.len() <= s.len(),
            forall|j: int| 0 <= j < k ==> !occurs_at(s@, p@, j),
        ensures
            forall|j: int| 0 <= j <= last ==> !occurs_at(s@, p@, j),
        decreases last + 1 - k,
    {
        let piece = slice_chars(s, k, k + p.len());
        if chars_eq(&piece, p) {
            assert(occurs_at(s@, p@, k as int));
            return true;
        }
        if k == last {
            break;
        }
        k = k + 1;
    }
    assert forall|j: int| !occurs_at(s@, p@, j) by {
        if 0 <= j && j + p@.len() <= s@.len() {
            assert(j <= last);
        }
    }
    false
}

/// The first of `ls` in which `p` occurs.
pub open spec fn first_with(ls: Seq<Seq<char>>, p: Seq<char>) -> Option<int>
    decreases ls.len(),
{
    if ls.len() == 0 {
        None
    } else if contains_text(ls[0], p) {
        Some(0)
    } else {
        match first_with(ls.drop_first(), p) {
            Some(k) => Some(k + 1),
            None => None,
        }
    }
}

/// The line of `launchctl print` output that gives the process id: the first
/// line holding `pid =`, trimmed.
pub open spec fn pid_line(details: Seq<char>) -> Option<Seq<char>> {
    match first_with(lines(details), "pid ="@) {
        Some(k) => Some(trim(lines(details)[k])),
        None => None,
    }
}

/// The first line of `details` that holds `pid =`, trimmed; `None` where
/// there is none.
pub fn find_pid_line(details: &str) -> (r: Option<String>)
    ensures
        match r {
            Some(l) => pid_line(details@) == Some(l@),
            None => pid_line(details@) is None,
        },
{
    let ls = split_lines(&chars_of(details));
    let key = chars_of("pid =");
    let ghost all = views(ls@);
    assert(all == lines(details@));
    assert(all.skip(0) =~= all);
    let mut i: usize = 0;
    while i < ls.len()
        invariant
            i <= ls.len(),
            all == views(ls@),
            all == lines(details@),
            key@ == "pid ="@,
            first_with(all, key@) == match first_with(all.skip(i as int), key@) {
                Some(k) => Some(k + i),
                None => None::<int>,
            },
        decreases ls.len() - i,
    {
        assert(all.skip(i as int)[0] == ls@[i as int]@);
        assert(all.skip(i as int).drop_first() =~= all.skip(i + 1));
        if text_contains(&ls[i], &key) {
            assert(first_with(all.skip(i as int), key@) == Some(0int));
            let t = trimmed(&ls[i]);
            assert(first_with(lines(details@), "pid ="@) == Some(i as int));
            assert(lines(details@)[i as int] == ls@[i as int]@);
            return Some(string_from_chars(&t));
        }
        i = i + 1;
    }
    assert(all.skip(i as int) =~= Seq::<Seq<char>>::empty());
    None
}

} // verus!
