//! The section of the hosts file that this program owns: finding it, removing
//! it and writing it anew for a set of blocked domains.

use vstd::prelude::*;

use crate::domains::DomainSet;
use crate::text::{chars_eq, chars_of, ends_cr, join, join_chars, lemma_join_no_crlf, lemma_lines_no_newline, lemma_lines_plain, lemma_scan_ws_join, lemma_no_crlf_subrange, lemma_scan_append, lemma_scan_cur_suffix, lemma_scan_join, lemma_scan_line, lemma_scan_text, lemma_scan_ws, lemma_trim_end_idempotent, lemma_trim_end_last, lemma_trim_end_rest_ws, lemma_trim_keeps_first, lemma_trim_unchanged, lines, no_char, no_crlf, plain_lines, push_str, scan_lines, split_lines, string_from_chars, strip_cr, trim, trim_end, trimmed, trimmed_end, views};

verus! {

broadcast use vstd::string::group_string_axioms;

/// The line that opens the section of blocked websites.
pub const BLOCK_START: &'static str = "# BEGIN HOCUS-FOCUS BLOCKED WEBSITES";

/// The line that closes the section of blocked websites.
pub const BLOCK_END: &'static str = "# END HOCUS-FOCUS BLOCKED WEBSITES";

/// The index of the last line of `ls` that reads `m` once trimmed.
pub open spec fn last_marker(ls: Seq<Seq<char>>, m: Seq<char>) -> Option<int>
    decreases ls.len(),
{
    if ls.len() == 0 {
        None
    } else if trim(ls.last()) == m {
        Some(ls.len() - 1)
    } else {
        last_marker(ls.drop_last(), m)
    }
}

/// The lines `ls` without the section that runs from the last opening line to
/// the last closing line, where both exist in that order.
pub open spec fn without_block(ls: Seq<Seq<char>>) -> Seq<Seq<char>> {
    match (last_marker(ls, BLOCK_START@), last_marker(ls, BLOCK_END@)) {
        (Some(s), Some(e)) => if s <= e {
            ls.take(s) + ls.skip(e + 1)
        } else {
            ls
        },
        _ => ls,
    }
}

/// The two lines that send `d` to the loopback address, IPv4 then IPv6.
pub open spec fn host_entries(d: Seq<char>) -> Seq<char> {
    "127.0.0.1 "@ + d + "\n"@ + "::1 "@ + d + "\n"@
}

/// The entries of all of `ds`, in the order of `ds`.
pub open spec fn block_entries(ds: Seq<Seq<char>>) -> Seq<char>
    decreases ds.len(),
{
    if ds.len() == 0 {
        seq![]
    } else {
        block_entries(ds.drop_last()) + host_entries(ds.last())
    }
}

/// The section for `ds`: nothing when `ds` is empty, else the opening line,
/// the entries and the closing line.
pub open spec fn block_section(ds: Seq<Seq<char>>) -> Seq<char> {
    if ds.len() == 0 {
        seq![]
    } else {
        BLOCK_START@ + "\n"@ + block_entries(ds) + BLOCK_END@ + "\n"@
    }
}

/// `content` without its section and trailing whitespace, ended by one newline.
pub open spec fn hosts_base(content: Seq<char>) -> Seq<char> {
    trim_end(join(without_block(lines(content)), "\n"@)) + "\n"@
}

/// The hosts file that blocks the domains `ds` (in ascending order), made
/// from `content`.
pub open spec fn hosts_with_block(content: Seq<char>, ds: Seq<Seq<char>>) -> Seq<char> {
    hosts_base(content) + block_section(ds)
}

/// An index of an optional position, as an optional integer.
pub open spec fn opt_int(o: Option<usize>) -> Option<int> {
    match o {
        Some(i) => Some(i as int),
        None => None,
    }
}

/// The positions of the last opening and the last closing line.
fn find_markers(ls: &Vec<Vec<char>>) -> (r: (Option<usize>, Option<usize>))
    ensures
        opt_int(r.0) == last_marker(views(ls@), BLOCK_START@),
        opt_int(r.1) == last_marker(views(ls@), BLOCK_END@),
        r.0 matches Some(s) ==> s < ls.len(),
        r.1 matches Some(e) ==> e < ls.len(),
{
    let start_m = chars_of(BLOCK_START);
    let end_m = chars_of(BLOCK_END);
    proof {
        reveal_strlit("# BEGIN HOCUS-FOCUS BLOCKED WEBSITES");
        reveal_strlit("# END HOCUS-FOCUS BLOCKED WEBSITES");
        assert(start_m@[2] != end_m@[2]);
    }
    let mut start_idx: Option<usize> = None;
    let mut end_idx: Option<usize> = None;
    let mut i: usize = 0;
    assert(views(ls@).take(0) =~= Seq::<Seq<char>>::empty());
    while i < ls.len()
        invariant
            i <= ls.len(),
            start_m@ == BLOCK_START@,
            end_m@ == BLOCK_END@,
            start_m@ != end_m@,
            opt_int(start_idx) == last_marker(views(ls@).take(i as int), BLOCK_START@),
            opt_int(end_idx) == last_marker(views(ls@).take(i as int), BLOCK_END@),
            start_idx matches Some(s) ==> s < i,
            end_idx matches Some(e) ==> e < i,
        decreases ls.len() - i,
    {
        let t = trimmed(&ls[i]);
        let ghost pre = views(ls@).take(i as int);
        let ghost post = views(ls@).take(i + 1);
        assert(post.drop_last() =~= pre);
        assert(post.last() == ls@[i as int]@);
        if chars_eq(&t, &start_m) {
            start_idx = Some(i);
        } else if chars_eq(&t, &end_m) {
            end_idx = Some(i);
        }
        i = i + 1;
    }
    assert(views(ls@).take(i as int) =~= views(ls@));
    (start_idx, end_idx)
}

/// `content` with the section of blocked websites replaced by one that lists
/// `domains` in ascending order: each domain gets a line for `127.0.0.1` and
/// one for `::1`. The last opening line up to the last closing line is
/// removed where the opening one comes first; the rest, trimmed at the end,
/// stays. With no domains no section is written.
pub fn modify_hosts_content(content: &str, domains: &DomainSet) -> (r: String)
    ensures
        r@ == hosts_with_block(content@, domains@),
{
    let chars = chars_of(content);
    let mut ls = split_lines(&chars);
    let (start_idx, end_idx) = find_markers(&ls);
    let ghost all = views(ls@);
    if let (Some(s), Some(e)) = (start_idx, end_idx) {
        if s <= e {
            let mut tail = ls.split_off(e + 1);
            ls.truncate(s);
            ls.append(&mut tail);
            assert(views(ls@) =~= all.take(s as int) + all.skip(e + 1));
        }
    }
    assert(views(ls@) == without_block(all));
    let joined = join_chars(&ls, "\n");
    let mut out = trimmed_end(&joined);
    push_str(&mut out, "\n");
    let ghost base = out@;
    assert(base == hosts_base(content@));
    if !domains.is_empty() {
        push_str(&mut out, BLOCK_START);
        push_str(&mut out, "\n");
        let ghost head = out@;
        let mut k: usize = 0;
        while k < domains.len()
            invariant
                k <= domains@.len(),
                out@ == head + block_entries(domains@.take(k as int)),
            decreases domains@.len() - k,
        {
            let d = domains.get(k);
            push_str(&mut out, "127.0.0.1 ");
            push_str(&mut out, d.as_str());
            push_str(&mut out, "\n");
            push_str(&mut out, "::1 ");
            push_str(&mut out, d.as_str());
            push_str(&mut out, "\n");
            let ghost t = domains@.take(k + 1);
            assert(t.drop_last() =~= domains@.take(k as int));
            assert(t.last() == domains@[k as int]);
            assert(out@ =~= head + block_entries(t));
            k = k + 1;
        }
        assert(domains@.take(k as int) =~= domains@);
        push_str(&mut out, BLOCK_END);
        push_str(&mut out, "\n");
        assert(out@ =~= base + block_section(domains@));
    } else {
        assert(out@ =~= base + block_section(domains@));
    }
    string_from_chars(&out)
}


// ---------------------------------------------------------------------------
// Laws: writing the section again replaces it; clearing it restores the file
// ---------------------------------------------------------------------------

/// The lines that the entries of `ds` read as.
pub open spec fn entry_lines(ds: Seq<Seq<char>>) -> Seq<Seq<char>>
    decreases ds.len(),
{
    if ds.len() == 0 {
        seq![]
    } else {
        entry_lines(ds.drop_last()) + seq![
            strip_cr("127.0.0.1 "@ + ds.last()),
            strip_cr("::1 "@ + ds.last()),
        ]
    }
}

/// The lines that the section for `ds` reads as.
pub open spec fn section_lines(ds: Seq<Seq<char>>) -> Seq<Seq<char>> {
    (seq![BLOCK_START@] + entry_lines(ds)).push(BLOCK_END@)
}

/// No name holds a newline.
pub open spec fn single_line_names(ds: Seq<Seq<char>>) -> bool {
    forall|i: int| 0 <= i < ds.len() ==> no_char(#[trigger] ds[i], '\n')
}

proof fn lemma_last_marker_append(a: Seq<Seq<char>>, b: Seq<Seq<char>>, m: Seq<char>)
    ensures
        last_marker(a + b, m) == match last_marker(b, m) {
            Some(k) => Some(a.len() + k),
            None => last_marker(a, m),
        },
    decreases b.len(),
{
    if b.len() == 0 {
        assert(a + b =~= a);
    } else {
        assert((a + b).drop_last() =~= a + b.drop_last());
        assert((a + b).last() == b.last());
        lemma_last_marker_append(a, b.drop_last(), m);
    }
}

proof fn lemma_no_marker(ls: Seq<Seq<char>>, m: Seq<char>)
    requires
        forall|i: int| 0 <= i < ls.len() ==> trim(#[trigger] ls[i]) != m,
    ensures
        last_marker(ls, m) == None::<int>,
    decreases ls.len(),
{
    if ls.len() > 0 {
        assert(trim(ls[ls.len() - 1]) != m);
        assert forall|i: int| 0 <= i < ls.drop_last().len() implies trim(
            #[trigger] ls.drop_last()[i],
        ) != m by {
            assert(ls.drop_last()[i] == ls[i]);
        }
        lemma_no_marker(ls.drop_last(), m);
    }
}

proof fn lemma_marker_texts()
    ensures
        BLOCK_START@.len() > 0,
        BLOCK_START@[0] == '#',
        BLOCK_END@.len() > 0,
        BLOCK_END@[0] == '#',
        BLOCK_START@ != BLOCK_END@,
        trim(BLOCK_START@) == BLOCK_START@,
        trim(BLOCK_END@) == BLOCK_END@,
        strip_cr(BLOCK_START@) == BLOCK_START@,
        strip_cr(BLOCK_END@) == BLOCK_END@,
        no_char(BLOCK_START@, '\n'),
        no_char(BLOCK_END@, '\n'),
        "127.0.0.1 "@.len() == 10,
        "127.0.0.1 "@[0] == '1',
        no_char("127.0.0.1 "@, '\n'),
        "::1 "@.len() == 4,
        "::1 "@[0] == ':',
        no_char("::1 "@, '\n'),
        "\n"@ == seq!['\n'],
{
    reveal_strlit("# BEGIN HOCUS-FOCUS BLOCKED WEBSITES");
    reveal_strlit("# END HOCUS-FOCUS BLOCKED WEBSITES");
    reveal_strlit("127.0.0.1 ");
    reveal_strlit("::1 ");
    reveal_strlit("\n");
    assert(BLOCK_START@[2] != BLOCK_END@[2]);
    lemma_trim_unchanged(BLOCK_START@);
    lemma_trim_unchanged(BLOCK_END@);
    assert("\n"@ =~= seq!['\n']);
}

/// An entry line starts with a digit or a colon, so it is no marker.
proof fn lemma_entry_line_unmarked(prefix: Seq<char>, d: Seq<char>)
    requires
        prefix.len() > 0,
        prefix[0] == '1' || prefix[0] == ':',
    ensures
        trim(strip_cr(prefix + d)) != BLOCK_START@,
        trim(strip_cr(prefix + d)) != BLOCK_END@,
{
    lemma_marker_texts();
    let l = strip_cr(prefix + d);
    assert(l.len() > 0 && l[0] == prefix[0]) by {
        if prefix.len() + d.len() == 1 {
            assert((prefix + d).last() == prefix[0]);
        }
    }
    lemma_trim_keeps_first(l);
}

proof fn lemma_entry_lines_unmarked(ds: Seq<Seq<char>>)
    ensures
        forall|i: int|
            0 <= i < entry_lines(ds).len() ==> trim(#[trigger] entry_lines(ds)[i]) != BLOCK_START@
                && trim(entry_lines(ds)[i]) != BLOCK_END@,
    decreases ds.len(),
{
    lemma_marker_texts();
    if ds.len() > 0 {
        lemma_entry_lines_unmarked(ds.drop_last());
        lemma_entry_line_unmarked("127.0.0.1 "@, ds.last());
        lemma_entry_line_unmarked("::1 "@, ds.last());
        let prev = entry_lines(ds.drop_last());
        let e = entry_lines(ds);
        assert forall|i: int| 0 <= i < e.len() implies trim(#[trigger] e[i]) != BLOCK_START@ && trim(
            e[i],
        ) != BLOCK_END@ by {
            if i < prev.len() {
                assert(e[i] == prev[i]);
            }
        }
    }
}

proof fn lemma_no_newline_concat(a: Seq<char>, b: Seq<char>)
    requires
        no_char(a, '\n'),
        no_char(b, '\n'),
    ensures
        no_char(a + b, '\n'),
{
    assert forall|i: int| 0 <= i < (a + b).len() implies (a + b)[i] != '\n' by {
        if i < a.len() {
            assert((a + b)[i] == a[i]);
        } else {
            assert((a + b)[i] == b[i - a.len()]);
        }
    }
}

/// Reading the entries of `ds` adds their lines.
proof fn lemma_scan_entries(ds: Seq<Seq<char>>, done: Seq<Seq<char>>)
    requires
        single_line_names(ds),
    ensures
        scan_lines(block_entries(ds), done, seq![]) == (done + entry_lines(ds), Seq::<char>::empty()),
    decreases ds.len(),
{
    lemma_marker_texts();
    if ds.len() == 0 {
        assert(done + entry_lines(ds) =~= done);
    } else {
        let d = ds.last();
        assert(no_char(d, '\n'));
        assert(single_line_names(ds.drop_last())) by {
            assert forall|i: int| 0 <= i < ds.drop_last().len() implies no_char(
                #[trigger] ds.drop_last()[i],
                '\n',
            ) by {
                assert(ds.drop_last()[i] == ds[i]);
            }
        }
        lemma_scan_entries(ds.drop_last(), done);
        let prev = done + entry_lines(ds.drop_last());
        let t1 = "127.0.0.1 "@ + d;
        let t2 = "::1 "@ + d;
        lemma_no_newline_concat("127.0.0.1 "@, d);
        lemma_no_newline_concat("::1 "@, d);
        let nl = "\n"@;
        assert(host_entries(d) =~= (t1 + nl) + (t2 + nl));
        lemma_scan_append(block_entries(ds.drop_last()), host_entries(d), done, seq![]);
        lemma_scan_append(t1 + nl, t2 + nl, prev, seq![]);
        lemma_scan_line(t1, prev);
        lemma_scan_line(t2, prev.push(strip_cr(t1)));
        assert(prev.push(strip_cr(t1)).push(strip_cr(t2)) =~= done + entry_lines(ds));
    }
}

/// Reading the section for `ds` adds its lines.
proof fn lemma_scan_section(ds: Seq<Seq<char>>, done: Seq<Seq<char>>)
    requires
        ds.len() > 0,
        single_line_names(ds),
    ensures
        scan_lines(block_section(ds), done, seq![]) == (done + section_lines(ds), Seq::<char>::empty()),
{
    lemma_marker_texts();
    let nl = "\n"@;
    let a = BLOCK_START@ + nl;
    let b = block_entries(ds);
    let c = BLOCK_END@ + nl;
    assert(block_section(ds) =~= a + (b + c));
    lemma_scan_append(a, b + c, done, seq![]);
    lemma_scan_line(BLOCK_START@, done);
    let d1 = done.push(BLOCK_START@);
    lemma_scan_append(b, c, d1, seq![]);
    lemma_scan_entries(ds, d1);
    let d2 = d1 + entry_lines(ds);
    lemma_scan_line(BLOCK_END@, d2);
    assert(d2.push(BLOCK_END@) =~= done + section_lines(ds));
}

/// Lines before a section that this program wrote are what remains once the
/// section is taken out.
proof fn lemma_section_removed(before: Seq<Seq<char>>, ds: Seq<Seq<char>>)
    ensures
        without_block(before + section_lines(ds)) == before,
{
    lemma_marker_texts();
    lemma_entry_lines_unmarked(ds);
    let xs = section_lines(ds);
    let inner = entry_lines(ds).push(BLOCK_END@);
    assert(xs =~= seq![BLOCK_START@] + inner);
    assert forall|i: int| 0 <= i < inner.len() implies trim(#[trigger] inner[i]) != BLOCK_START@ by {
        if i < entry_lines(ds).len() {
            assert(inner[i] == entry_lines(ds)[i]);
        }
    }
    lemma_no_marker(inner, BLOCK_START@);
    lemma_last_marker_append(seq![BLOCK_START@], inner, BLOCK_START@);
    assert(last_marker(seq![BLOCK_START@], BLOCK_START@) == Some(0int));
    assert(last_marker(xs, BLOCK_START@) == Some(0int));
    assert(last_marker(xs, BLOCK_END@) == Some(xs.len() - 1));
    lemma_last_marker_append(before, xs, BLOCK_START@);
    lemma_last_marker_append(before, xs, BLOCK_END@);
    let all = before + xs;
    assert(all.take(before.len() as int) + all.skip((before.len() + xs.len()) as int) =~= before);
}

proof fn lemma_last_marker_bounds(ls: Seq<Seq<char>>, m: Seq<char>)
    ensures
        last_marker(ls, m) matches Some(k) ==> 0 <= k < ls.len(),
    decreases ls.len(),
{
    if ls.len() > 0 {
        lemma_last_marker_bounds(ls.drop_last(), m);
    }
}

/// What `last_marker` finds: the last line that reads `m`, or none where no
/// line does.
proof fn lemma_last_marker_found(ls: Seq<Seq<char>>, m: Seq<char>)
    ensures
        match last_marker(ls, m) {
            Some(k) => 0 <= k < ls.len() && trim(ls[k]) == m && forall|i: int|
                k < i < ls.len() ==> trim(#[trigger] ls[i]) != m,
            None => forall|i: int| 0 <= i < ls.len() ==> trim(#[trigger] ls[i]) != m,
        },
    decreases ls.len(),
{
    if ls.len() > 0 {
        lemma_last_marker_found(ls.drop_last(), m);
        if trim(ls.last()) != m {
            assert forall|i: int| 0 <= i < ls.drop_last().len() implies ls.drop_last()[i]
                == ls[i] by {}
        }
    }
}

/// Two lists of lines that trim alike, line by line, but for lines that trim
/// to nothing.
pub open spec fn same_trimmed_lines(l: Seq<Seq<char>>, f: Seq<Seq<char>>) -> bool {
    &&& forall|i: int|
        0 <= i < l.len() ==> if i < f.len() {
            trim(#[trigger] l[i]) == trim(f[i])
        } else {
            trim(l[i]).len() == 0
        }
    &&& forall|i: int| l.len() <= i < f.len() ==> trim(#[trigger] f[i]).len() == 0
}

/// Lists of lines that trim alike have their markers at the same places.
proof fn lemma_same_markers(l: Seq<Seq<char>>, f: Seq<Seq<char>>, m: Seq<char>)
    requires
        same_trimmed_lines(l, f),
        m.len() > 0,
    ensures
        last_marker(l, m) == last_marker(f, m),
{
    lemma_last_marker_found(l, m);
    lemma_last_marker_found(f, m);
    match last_marker(f, m) {
        Some(k) => {
            if k >= l.len() {
                assert(trim(f[k]).len() == 0);
            }
            assert(trim(l[k]) == m);
            match last_marker(l, m) {
                Some(k2) => {
                    if k2 > k {
                        if k2 < f.len() {
                            assert(trim(f[k2]) == m);
                        }
                    }
                    if k2 < k {
                        assert(trim(l[k]) != m);
                    }
                },
                None => {
                    assert(trim(l[k]) != m);
                },
            }
        },
        None => {
            match last_marker(l, m) {
                Some(k2) => {
                    if k2 < f.len() {
                        assert(trim(f[k2]) != m);
                    }
                },
                None => {},
            }
        },
    }
}

/// Taking the section out keeps the lines of a text plain.
proof fn lemma_without_block_plain(ls: Seq<Seq<char>>)
    requires
        plain_lines(ls),
    ensures
        plain_lines(without_block(ls)),
{
    let w = without_block(ls);
    lemma_last_marker_bounds(ls, BLOCK_START@);
    lemma_last_marker_bounds(ls, BLOCK_END@);
    match (last_marker(ls, BLOCK_START@), last_marker(ls, BLOCK_END@)) {
        (Some(s), Some(e)) => {
            if s <= e {
                assert forall|i: int| 0 <= i < w.len() implies no_char(#[trigger] w[i], '\n') by {
                    if i < s {
                        assert(w[i] == ls[i]);
                    } else {
                        assert(w[i] == ls[i - s + e + 1]);
                    }
                }
                assert forall|i: int| 0 <= i < w.len() - 1 implies !ends_cr(#[trigger] w[i]) by {
                    if i < s {
                        assert(w[i] == ls[i]);
                    } else {
                        assert(w[i] == ls[i - s + e + 1]);
                    }
                }
            }
        },
        _ => {},
    }
}

/// No line of `c` but the last keeps a carriage return at its end: none
/// stands right before a newline that is not itself dropped with it.
pub open spec fn lines_keep_no_cr(c: Seq<char>) -> bool {
    forall|i: int| 0 <= i < lines(c).len() - 1 ==> !ends_cr(#[trigger] lines(c)[i])
}

/// What stays of a hosts file, joined again, puts no carriage return before
/// a newline, and reads as the same lines (but for a last empty one).
proof fn lemma_kept_lines(c: Seq<char>)
    requires
        lines_keep_no_cr(c),
    ensures
        no_crlf(join(without_block(lines(c)), "\n"@)),
        same_trimmed_lines(lines(join(without_block(lines(c)), "\n"@)), without_block(lines(c))),
{
    let w = without_block(lines(c));
    let j = join(w, "\n"@);
    lemma_lines_no_newline(c);
    lemma_without_block_plain(lines(c));
    lemma_join_no_crlf(w);
    let f = lines(j);
    if w.len() == 0 {
        assert(j =~= Seq::<char>::empty());
        assert(f =~= Seq::<Seq<char>>::empty());
    } else {
        lemma_scan_join(w);
        if w.last().len() == 0 {
            assert(f == w.drop_last());
            assert(trim(w.last()) =~= w.last());
            assert forall|i: int| 0 <= i < f.len() implies trim(#[trigger] f[i]) == trim(w[i]) by {
                assert(f[i] == w[i]);
            }
        } else {
            assert(f == w.drop_last().push(w.last()));
            assert(f =~= w);
        }
    }
}

/// A text with no carriage return before a newline, trimmed at the end and
/// ended by a newline: reading it finishes every line, the lines join back to
/// the trimmed text, and they trim as the lines of the text do.
proof fn lemma_trimmed_lines(j: Seq<char>)
    requires
        no_crlf(j),
    ensures
        scan_lines(trim_end(j) + "\n"@, seq![], seq![]) == (
            lines(trim_end(j) + "\n"@),
            Seq::<char>::empty(),
        ),
        lines(trim_end(j) + "\n"@).len() > 0,
        join(lines(trim_end(j) + "\n"@), "\n"@) == trim_end(j),
        same_trimmed_lines(lines(trim_end(j) + "\n"@), lines(j)),
{
    lemma_marker_texts();
    let nl = "\n"@;
    let b = trim_end(j);
    lemma_trim_end_rest_ws(j);
    lemma_trim_end_last(j);
    let w = j.skip(b.len() as int);
    lemma_no_crlf_subrange(j, 0, b.len() as int);
    assert(j.subrange(0, b.len() as int) =~= b);
    if b.len() > 0 {
        assert(b.last() != '\r');
    }
    let bn = b + nl;
    assert(no_crlf(bn)) by {
        assert forall|k: int| #![trigger bn[k]] 0 <= k && k + 1 < bn.len() implies !(bn[k] == '\r'
            && bn[k + 1] == '\n') by {
            assert(bn[k] == b[k]);
            if k + 1 < b.len() {
                assert(bn[k + 1] == b[k + 1]);
            } else {
                assert(b[k] == b.last());
            }
        }
    }
    // Reading the trimmed text: its finished lines and its open line.
    let sb = scan_lines(b, seq![], seq![]);
    let d = sb.0;
    let cur = sb.1;
    lemma_scan_cur_suffix(b, seq![], seq![]);
    assert(Seq::<char>::empty() + b =~= b);
    if cur.len() > 0 {
        assert(cur.last() == b.last());
    }
    assert(strip_cr(cur) == cur);
    lemma_scan_append(b, nl, seq![], seq![]);
    assert(nl.drop_first() =~= Seq::<char>::empty());
    assert(scan_lines(nl, d, cur) == scan_lines(nl.drop_first(), d.push(cur), seq![]));
    let l = d.push(cur);
    assert(scan_lines(bn, seq![], seq![]) == (l, Seq::<char>::empty()));
    assert(lines(bn) == l);
    // The lines join back to the trimmed text.
    assert(Seq::<char>::empty() + bn =~= bn);
    lemma_scan_text(bn, seq![], seq![]);
    let e: Seq<Seq<char>> = seq![seq![]];
    assert(Seq::<Seq<char>>::empty().push(Seq::<char>::empty()) =~= e);
    assert(join(e, nl) == Seq::<char>::empty());
    assert(l.push(seq![]).drop_last() =~= l);
    assert(join(l.push(seq![]), nl) == join(l, nl) + nl + Seq::<char>::empty());
    assert(join(l, nl) + nl + Seq::<char>::empty() =~= Seq::<char>::empty() + bn);
    assert(join(l, nl) =~= b) by {
        assert((join(l, nl) + nl).take(join(l, nl).len() as int) =~= join(l, nl));
        assert(bn.take(b.len() as int) =~= b);
    }
    // The lines of the whole text: the same finished lines, the open line
    // with whitespace after it, then lines of whitespace.
    lemma_scan_append(b, w, seq![], seq![]);
    assert(scan_lines(j, seq![], seq![]) == scan_lines(w, d, cur));
    lemma_scan_ws(w, d, cur);
    let f = lines(j);
    assert forall|i: int| 0 <= i < l.len() implies if i < f.len() {
        trim(#[trigger] l[i]) == trim(f[i])
    } else {
        trim(l[i]).len() == 0
    } by {
        if i < d.len() {
            assert(l[i] == d[i]);
            assert(f.take(d.len() as int)[i] == f[i]);
        } else {
            assert(l[i] == cur);
        }
    }
}

/// No line of `c` reads, once trimmed, as the opening or the closing line.
pub open spec fn unmarked_lines(c: Seq<char>) -> bool {
    forall|i: int|
        0 <= i < lines(c).len() ==> trim(#[trigger] lines(c)[i]) != BLOCK_START@ && trim(
            lines(c)[i],
        ) != BLOCK_END@
}

/// At most one line of `c` reads `m` once trimmed.
pub open spec fn at_most_one_marker(c: Seq<char>, m: Seq<char>) -> bool {
    forall|i: int, j: int|
        0 <= i < lines(c).len() && 0 <= j < lines(c).len() && trim(#[trigger] lines(c)[i]) == m
            && trim(#[trigger] lines(c)[j]) == m ==> i == j
}

/// Cleaning a hosts file twice is cleaning it once, where no line but the
/// last keeps a carriage return at its end and the file holds at most one
/// opening and one closing line.
pub proof fn lemma_hosts_base_idempotent(c: Seq<char>)
    requires
        lines_keep_no_cr(c),
        at_most_one_marker(c, BLOCK_START@),
        at_most_one_marker(c, BLOCK_END@),
    ensures
        hosts_base(hosts_base(c)) == hosts_base(c),
{
    lemma_marker_texts();
    let nl = "\n"@;
    let ls = lines(c);
    let w = without_block(ls);
    let j = join(w, nl);
    let b = trim_end(j);
    lemma_kept_lines(c);
    lemma_trimmed_lines(j);
    let l = lines(b + nl);
    let f = lines(j);
    // The lines of the cleaned file have their markers where the kept lines do.
    lemma_same_markers(l, f, BLOCK_START@);
    lemma_same_markers(l, f, BLOCK_END@);
    lemma_same_markers(f, w, BLOCK_START@);
    lemma_same_markers(f, w, BLOCK_END@);
    // The kept lines hold no section left to take out.
    lemma_last_marker_found(ls, BLOCK_START@);
    lemma_last_marker_found(ls, BLOCK_END@);
    lemma_last_marker_found(w, BLOCK_START@);
    lemma_last_marker_bounds(ls, BLOCK_START@);
    lemma_last_marker_bounds(ls, BLOCK_END@);
    match (last_marker(ls, BLOCK_START@), last_marker(ls, BLOCK_END@)) {
        (Some(s), Some(e)) => {
            if s <= e {
                if let Some(k) = last_marker(w, BLOCK_START@) {
                    if k < s {
                        assert(w[k] == ls[k]);
                    } else {
                        assert(w[k] == ls[k - s + e + 1]);
                    }
                }
                assert(last_marker(w, BLOCK_START@) is None);
            }
        },
        _ => {},
    }
    assert(without_block(l) == l);
    lemma_trim_end_idempotent(j);
}

/// Writing the section again replaces it: the rewrite of a rewritten hosts
/// file gives what a rewrite of the original gives. So the daemon can rewrite
/// the hosts file as often as the schedule changes and the rest of the file
/// stays. (No line but the last may keep a carriage return at its end, as
/// the second reading would drop it, and names must be on one line each;
/// where the first rewrite wrote no section, the original must hold at most
/// one opening and one closing line, else an older section in it would go in
/// the second rewrite.)
pub proof fn lemma_rewrite_replaces_section(c: Seq<char>, d1: Seq<Seq<char>>, d2: Seq<Seq<char>>)
    requires
        lines_keep_no_cr(c),
        single_line_names(d1),
        d1.len() > 0 || (at_most_one_marker(c, BLOCK_START@) && at_most_one_marker(
            c,
            BLOCK_END@,
        )),
    ensures
        hosts_with_block(hosts_with_block(c, d1), d2) == hosts_with_block(c, d2),
{
    if d1.len() == 0 {
        assert(hosts_with_block(c, d1) =~= hosts_base(c));
        lemma_hosts_base_idempotent(c);
        return;
    }
    lemma_marker_texts();
    let nl = "\n"@;
    let j = join(without_block(lines(c)), nl);
    let b = trim_end(j);
    lemma_kept_lines(c);
    lemma_trimmed_lines(j);
    let lb = lines(b + nl);
    let out1 = hosts_with_block(c, d1);
    assert(out1 =~= (b + nl) + block_section(d1));
    // The lines of the first result: those of the kept text, then the section.
    lemma_scan_append(b + nl, block_section(d1), seq![], seq![]);
    lemma_scan_section(d1, lb);
    assert(lines(out1) == lb + section_lines(d1));
    lemma_section_removed(lb, d1);
    lemma_trim_end_idempotent(j);
    assert(hosts_base(out1) == b + nl);
}

/// A hosts file without marker lines is kept whole but for its trailing
/// whitespace, which becomes one newline, where no carriage return comes
/// right before a newline ahead of that whitespace.
pub proof fn lemma_clean_hosts_base(c: Seq<char>)
    requires
        no_crlf(trim_end(c)),
        unmarked_lines(c),
    ensures
        hosts_base(c) == trim_end(c) + "\n"@,
{
    lemma_marker_texts();
    let nl = "\n"@;
    lemma_no_marker(lines(c), BLOCK_START@);
    lemma_no_marker(lines(c), BLOCK_END@);
    assert(without_block(lines(c)) == lines(c));
    let b = trim_end(c);
    lemma_trim_end_rest_ws(c);
    lemma_trim_end_last(c);
    let w = c.skip(b.len() as int);
    // Reading the file is reading the trimmed text, then whitespace.
    lemma_scan_append(b, w, seq![], seq![]);
    let sb = scan_lines(b, seq![], seq![]);
    lemma_scan_cur_suffix(b, seq![], seq![]);
    assert(Seq::<char>::empty() + b =~= b);
    if sb.1.len() > 0 {
        assert(sb.1.last() == b.last());
    }
    let e = Seq::<char>::empty();
    assert(sb.1 + e =~= sb.1);
    lemma_scan_ws_join(w, sb.0, sb.1, e);
    // The lines of the trimmed text join back to it.
    lemma_scan_text(b, seq![], seq![]);
    let e1: Seq<Seq<char>> = seq![e];
    assert(Seq::<Seq<char>>::empty().push(e) =~= e1);
    assert(join(e1, nl) == e);
    assert(e + b =~= b);
    lemma_trim_end_idempotent(c);
}

/// Trimming the end of a hosts file without marker lines leaves one
/// without marker lines.
proof fn lemma_trimmed_unmarked(c: Seq<char>)
    requires
        unmarked_lines(c),
    ensures
        unmarked_lines(trim_end(c)),
{
    lemma_marker_texts();
    let b = trim_end(c);
    lemma_trim_end_rest_ws(c);
    let w = c.skip(b.len() as int);
    lemma_scan_append(b, w, seq![], seq![]);
    let sb = scan_lines(b, seq![], seq![]);
    let d = sb.0;
    let cur = sb.1;
    lemma_scan_ws(w, d, cur);
    let f = lines(c);
    let l = lines(b);
    assert forall|i: int| 0 <= i < l.len() implies trim(#[trigger] l[i]) != BLOCK_START@ && trim(
        l[i],
    ) != BLOCK_END@ by {
        if i < d.len() {
            assert(l[i] == d[i]);
            assert(f.take(d.len() as int)[i] == f[i]);
            assert(trim(f[i]) != BLOCK_START@ && trim(f[i]) != BLOCK_END@);
        } else {
            assert(l[i] == cur);
            if f.len() > d.len() {
                assert(trim(f[d.len() as int]) == trim(cur));
                assert(trim(f[d.len() as int]) != BLOCK_START@ && trim(f[d.len() as int])
                    != BLOCK_END@);
            } else {
                assert(trim(cur).len() == 0);
            }
        }
    }
}

/// Clearing the section restores the file: a hosts file without marker
/// lines, once a section has been written into it and then cleared, is the
/// original with its trailing whitespace reduced to one newline. (No
/// carriage return may come right before a newline ahead of the trailing
/// whitespace, as reading lines drops it.)
pub proof fn lemma_cleared_section_leaves_no_trace(c: Seq<char>, ds: Seq<Seq<char>>)
    requires
        no_crlf(trim_end(c)),
        unmarked_lines(c),
        single_line_names(ds),
    ensures
        hosts_with_block(hosts_with_block(c, ds), seq![]) == trim_end(c) + "\n"@,
{
    let b = trim_end(c);
    lemma_clean_hosts_base(c);
    lemma_trim_end_idempotent(c);
    lemma_trimmed_unmarked(c);
    lemma_clean_hosts_base(b);
    // The file and its trimmed text give the same rewrites.
    assert(hosts_with_block(c, ds) == hosts_with_block(b, ds));
    lemma_lines_plain(b);
    lemma_rewrite_replaces_section(b, ds, seq![]);
    assert(hosts_with_block(b, seq![]) =~= hosts_base(b));
}

} // verus!
