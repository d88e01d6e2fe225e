//! Character-level text handling: whitespace, trimming, line splitting,
//! joining and the lexicographic order of strings.

use vstd::prelude::*;

verus! {

broadcast use vstd::string::group_string_axioms;

// ---------------------------------------------------------------------------
// Whitespace and trimming
// ---------------------------------------------------------------------------

/// The Unicode `White_Space` property, which `char::is_whitespace` tests and
/// which `str::trim` and `str::trim_end` strip.
pub open spec fn is_ws(c: char) -> bool {
    let u = c as int;
    ||| 0x09 <= u <= 0x0D
    ||| u == 0x20
    ||| u == 0x85
    ||| u == 0xA0
    ||| u == 0x1680
    ||| 0x2000 <= u <= 0x200A
    ||| u == 0x2028
    ||| u == 0x2029
    ||| u == 0x202F
    ||| u == 0x205F
    ||| u == 0x3000
}

/// `s` without its trailing whitespace.
pub open spec fn trim_end(s: Seq<char>) -> Seq<char>
    decreases s.len(),
{
    if s.len() > 0 && is_ws(s.last()) {
        trim_end(s.drop_last())
    } else {
        s
    }
}

/// `s` without its leading whitespace.
pub open spec fn trim_start(s: Seq<char>) -> Seq<char>
    decreases s.len(),
{
    if s.len() > 0 && is_ws(s[0]) {
        trim_start(s.drop_first())
    } else {
        s
    }
}

/// `s` without leading and trailing whitespace.
pub open spec fn trim(s: Seq<char>) -> Seq<char> {
    trim_start(trim_end(s))
}

/// Whether `c` is whitespace.
pub fn is_whitespace(c: char) -> (r: bool)
    ensures
        r == is_ws(c),
{
    let u = c as u32;
    (0x09 <= u && u <= 0x0D) || u == 0x20 || u == 0x85 || u == 0xA0 || u == 0x1680 || (0x2000
        <= u && u <= 0x200A) || u == 0x2028 || u == 0x2029 || u == 0x202F || u == 0x205F || u
        == 0x3000
}

/// The characters of `v` from `from` (inclusive) to `to` (exclusive).
pub fn slice_chars(v: &Vec<char>, from: usize, to: usize) -> (r: Vec<char>)
    requires
        from <= to <= v.len(),
    ensures
        r@ == v@.subrange(from as int, to as int),
{
    let mut out: Vec<char> = Vec::new();
    let mut i = from;
    while i < to
        invariant
            from <= i <= to <= v.len(),
            out@ == v@.subrange(from as int, i as int),
        decreases to - i,
    {
        out.push(v[i]);
        i = i + 1;
    }
    out
}

/// The number of characters of `v` left once trailing whitespace is dropped.
fn trimmed_end_len(v: &Vec<char>) -> (end: usize)
    ensures
        end <= v.len(),
        trim_end(v@) == v@.take(end as int),
{
    let mut end = v.len();
    assert(v@.take(end as int) =~= v@);
    while end > 0 && is_whitespace(v[end - 1])
        invariant
            end <= v.len(),
            trim_end(v@) == trim_end(v@.take(end as int)),
        decreases end,
    {
        assert(v@.take(end as int).drop_last() =~= v@.take(end - 1));
        end = end - 1;
    }
    end
}

/// `v` without its trailing whitespace.
pub fn trimmed_end(v: &Vec<char>) -> (r: Vec<char>)
    ensures
        r@ == trim_end(v@),
{
    let end = trimmed_end_len(v);
    assert(v@.subrange(0, end as int) =~= v@.take(end as int));
    slice_chars(v, 0, end)
}

/// `v` without leading and trailing whitespace.
pub fn trimmed(v: &Vec<char>) -> (r: Vec<char>)
    ensures
        r@ == trim(v@),
{
    let end = trimmed_end_len(v);
    let ghost t = v@.take(end as int);
    let mut start: usize = 0;
    assert(t.subrange(0, end as int) =~= t);
    while start < end && is_whitespace(v[start])
        invariant
            start <= end <= v.len(),
            t == v@.take(end as int),
            trim_start(t) == trim_start(v@.subrange(start as int, end as int)),
        decreases end - start,
    {
        assert(v@.subrange(start as int, end as int).drop_first() =~= v@.subrange(
            start + 1,
            end as int,
        ));
        start = start + 1;
    }
    slice_chars(v, start, end)
}

/// Whether `a` and `b` hold the same characters.
pub fn chars_eq(a: &Vec<char>, b: &Vec<char>) -> (r: bool)
    ensures
        r == (a@ == b@),
{
    if a.len() != b.len() {
        return false;
    }
    let mut i: usize = 0;
    while i < a.len()
        invariant
            a.len() == b.len(),
            i <= a.len(),
            a@.take(i as int) == b@.take(i as int),
        decreases a.len() - i,
    {
        if a[i] != b[i] {
            assert(a@[i as int] != b@[i as int]);
            return false;
        }
        assert(a@.take(i + 1) =~= a@.take(i as int).push(a@[i as int]));
        assert(b@.take(i + 1) =~= b@.take(i as int).push(b@[i as int]));
        i = i + 1;
    }
    assert(a@ =~= a@.take(i as int));
    assert(b@ =~= b@.take(i as int));
    true
}

// ---------------------------------------------------------------------------
// Building text
// ---------------------------------------------------------------------------

/// The characters of `s`, in order.
pub fn chars_of(s: &str) -> (r: Vec<char>)
    ensures
        r@ == s@,
{
    let mut out: Vec<char> = Vec::new();
    for c in it: s.chars()
        invariant
            out@ == it.seq().take(it.index() as int),
            it.seq() == s@,
    {
        out.push(c);
    }
    out
}

/// Appends the characters of `s` to `out`.
pub fn push_str(out: &mut Vec<char>, s: &str)
    ensures
        final(out)@ == old(out)@ + s@,
{
    let ghost start = out@;
    for c in it: s.chars()
        invariant
            out@ == start + it.seq().take(it.index() as int),
            it.seq() == s@,
    {
        out.push(c);
    }
}

/// Appends the characters of `v` to `out`.
pub fn push_chars(out: &mut Vec<char>, v: &Vec<char>)
    ensures
        final(out)@ == old(out)@ + v@,
{
    let ghost start = out@;
    let mut i: usize = 0;
    while i < v.len()
        invariant
            i <= v.len(),
            out@ == start + v@.take(i as int),
        decreases v.len() - i,
    {
        out.push(v[i]);
        assert(v@.take(i + 1) =~= v@.take(i as int).push(v@[i as int]));
        i = i + 1;
    }
    assert(v@.take(i as int) =~= v@);
}

/// The `String` that `collect` builds from the characters of `v` (std's
/// `FromIterator<&char>` for `String`): the same characters, in order.
#[verifier::external_body]
pub(crate) fn string_from_chars(v: &Vec<char>) -> (r: String)
    ensures
        r@ == v@,
{
    v.iter().collect()
}

// ---------------------------------------------------------------------------
// Lines
// ---------------------------------------------------------------------------

/// A line's content: one carriage return before the newline is not part of it.
pub open spec fn strip_cr(s: Seq<char>) -> Seq<char> {
    if s.len() > 0 && s.last() == '\r' {
        s.drop_last()
    } else {
        s
    }
}

/// Reads `s` from the left: `done` holds the finished lines, `cur` the
/// characters of the line that is still open.
pub open spec fn scan_lines(s: Seq<char>, done: Seq<Seq<char>>, cur: Seq<char>) -> (Seq<Seq<char>>, Seq<char>)
    decreases s.len(),
{
    if s.len() == 0 {
        (done, cur)
    } else if s[0] == '\n' {
        scan_lines(s.drop_first(), done.push(strip_cr(cur)), seq![])
    } else {
        scan_lines(s.drop_first(), done, cur.push(s[0]))
    }
}

/// The lines once the text ends: an open line that holds characters is one
/// more line, kept as it is.
pub open spec fn finish_lines(st: (Seq<Seq<char>>, Seq<char>)) -> Seq<Seq<char>> {
    if st.1.len() == 0 {
        st.0
    } else {
        st.0.push(st.1)
    }
}

/// The lines of `s`, as `str::lines` gives them: split at each `\n`, a `\r`
/// right before it dropped, and no empty line after a final `\n`.
pub open spec fn lines(s: Seq<char>) -> Seq<Seq<char>> {
    finish_lines(scan_lines(s, seq![], seq![]))
}

/// The character sequences held by a vector of character vectors.
pub open spec fn views(v: Seq<Vec<char>>) -> Seq<Seq<char>> {
    v.map_values(|l: Vec<char>| l@)
}

/// The lines of `v`.
pub fn split_lines(v: &Vec<char>) -> (r: Vec<Vec<char>>)
    ensures
        views(r@) == lines(v@),
{
    let mut done: Vec<Vec<char>> = Vec::new();
    let mut cur: Vec<char> = Vec::new();
    let mut i: usize = 0;
    assert(v@.skip(0) =~= v@);
    assert(views(done@) =~= Seq::<Seq<char>>::empty());
    while i < v.len()
        invariant
            i <= v.len(),
            scan_lines(v@, seq![], seq![]) == scan_lines(v@.skip(i as int), views(done@), cur@),
        decreases v.len() - i,
    {
        let c = v[i];
        assert(v@.skip(i as int).drop_first() =~= v@.skip(i + 1));
        assert(v@.skip(i as int)[0] == c);
        if c == '\n' {
            let ghost old_cur = cur@;
            let n = cur.len();
            if n > 0 && cur[n - 1] == '\r' {
                cur.pop();
                assert(cur@ =~= old_cur.drop_last());
            }
            assert(cur@ == strip_cr(old_cur));
            let ghost old_done = done@;
            done.push(cur);
            assert(views(done@) =~= views(old_done).push(strip_cr(old_cur)));
            cur = Vec::new();
            assert(cur@ =~= Seq::<char>::empty());
        } else {
            cur.push(c);
        }
        i = i + 1;
    }
    assert(v@.skip(i as int) =~= Seq::<char>::empty());
    if cur.len() > 0 {
        let ghost old_done = done@;
        done.push(cur);
        assert(views(done@) =~= views(old_done).push(cur@));
    }
    done
}

/// The lines `ls` with `sep` between each two of them.
pub open spec fn join(ls: Seq<Seq<char>>, sep: Seq<char>) -> Seq<char>
    decreases ls.len(),
{
    if ls.len() == 0 {
        seq![]
    } else if ls.len() == 1 {
        ls[0]
    } else {
        join(ls.drop_last(), sep) + sep + ls.last()
    }
}

/// The characters of `ls` with `sep` between each two of them.
pub fn join_chars(ls: &Vec<Vec<char>>, sep: &str) -> (r: Vec<char>)
    ensures
        r@ == join(views(ls@), sep@),
{
    let mut out: Vec<char> = Vec::new();
    let mut i: usize = 0;
    while i < ls.len()
        invariant
            i <= ls.len(),
            out@ == join(views(ls@).take(i as int), sep@),
        decreases ls.len() - i,
    {
        let ghost before = views(ls@).take(i as int);
        if i > 0 {
            push_str(&mut out, sep);
        }
        push_chars(&mut out, &ls[i]);
        let ghost after = views(ls@).take(i + 1);
        assert(after.drop_last() =~= before);
        assert(after.last() == ls@[i as int]@);
        if i == 0 {
            assert(out@ =~= after[0]);
        }
        i = i + 1;
    }
    assert(views(ls@).take(i as int) =~= views(ls@));
    out
}

/// The character sequences of a sequence of strings.
pub open spec fn string_views(v: Seq<String>) -> Seq<Seq<char>> {
    v.map_values(|s: String| s@)
}

/// The strings `items` with `sep` between each two of them.
pub fn join_strings(items: &Vec<String>, sep: &str) -> (r: String)
    ensures
        r@ == join(string_views(items@), sep@),
{
    let mut parts: Vec<Vec<char>> = Vec::new();
    let mut i: usize = 0;
    while i < items.len()
        invariant
            i <= items.len(),
            views(parts@) == string_views(items@).take(i as int),
        decreases items.len() - i,
    {
        let ghost before = parts@;
        let c = chars_of(items[i].as_str());
        parts.push(c);
        assert(views(parts@) =~= views(before).push(items@[i as int]@));
        assert(views(parts@) =~= string_views(items@).take(i + 1));
        i = i + 1;
    }
    assert(string_views(items@).take(i as int) =~= string_views(items@));
    let out = join_chars(&parts, sep);
    string_from_chars(&out)
}

// ---------------------------------------------------------------------------
// Lexicographic order
// ---------------------------------------------------------------------------

/// The order of `String`s: lexicographic by character (the order of their
/// UTF-8 bytes, which is the order of the code points).
pub open spec fn seq_lt(a: Seq<char>, b: Seq<char>) -> bool
    decreases a.len(),
{
    if b.len() == 0 {
        false
    } else if a.len() == 0 {
        true
    } else if (a[0] as int) < (b[0] as int) {
        true
    } else if a[0] == b[0] {
        seq_lt(a.drop_first(), b.drop_first())
    } else {
        false
    }
}

/// No string is below itself.
pub proof fn lemma_seq_lt_irreflexive(a: Seq<char>)
    ensures
        !seq_lt(a, a),
    decreases a.len(),
{
    if a.len() > 0 {
        lemma_seq_lt_irreflexive(a.drop_first());
    }
}

/// The order is transitive.
pub proof fn lemma_seq_lt_transitive(a: Seq<char>, b: Seq<char>, c: Seq<char>)
    requires
        seq_lt(a, b),
        seq_lt(b, c),
    ensures
        seq_lt(a, c),
    decreases a.len(),
{
    if a.len() > 0 && b.len() > 0 && c.len() > 0 && a[0] == b[0] && b[0] == c[0] {
        lemma_seq_lt_transitive(a.drop_first(), b.drop_first(), c.drop_first());
    }
}

/// Of two different strings, one is below the other.
pub proof fn lemma_seq_lt_total(a: Seq<char>, b: Seq<char>)
    requires
        a != b,
    ensures
        seq_lt(a, b) || seq_lt(b, a),
    decreases a.len(),
{
    if a.len() > 0 && b.len() > 0 && a[0] == b[0] {
        if a.drop_first() == b.drop_first() {
            assert(a =~= seq![a[0]] + a.drop_first());
            assert(b =~= seq![b[0]] + b.drop_first());
        }
        lemma_seq_lt_total(a.drop_first(), b.drop_first());
    } else if a.len() == 0 && b.len() == 0 {
        assert(a =~= b);
    } else if a.len() > 0 && b.len() > 0 {
        assert(a[0] != b[0]);
        assert((a[0] as int) != (b[0] as int));
    }
}

/// The order is asymmetric.
pub proof fn lemma_seq_lt_asymmetric(a: Seq<char>, b: Seq<char>)
    requires
        seq_lt(a, b),
    ensures
        !seq_lt(b, a),
{
    if seq_lt(b, a) {
        lemma_seq_lt_transitive(a, b, a);
        lemma_seq_lt_irreflexive(a);
    }
}

/// Whether `a` comes before `b`.
pub fn chars_lt(a: &Vec<char>, b: &Vec<char>) -> (r: bool)
    ensures
        r == seq_lt(a@, b@),
{
    let mut i: usize = 0;
    assert(a@.skip(0) =~= a@);
    assert(b@.skip(0) =~= b@);
    while i < a.len() && i < b.len()
        invariant
            i <= a.len(),
            i <= b.len(),
            seq_lt(a@, b@) == seq_lt(a@.skip(i as int), b@.skip(i as int)),
        decreases a.len() - i,
    {
        let x = a[i];
        let y = b[i];
        assert(a@.skip(i as int)[0] == x);
        assert(b@.skip(i as int)[0] == y);
        if x < y {
            return true;
        }
        if x != y {
            return false;
        }
        assert(a@.skip(i as int).drop_first() =~= a@.skip(i + 1));
        assert(b@.skip(i as int).drop_first() =~= b@.skip(i + 1));
        i = i + 1;
    }
    i < b.len()
}


// ---------------------------------------------------------------------------
// Facts about lines, joining and trimming
// ---------------------------------------------------------------------------

/// No element of `s` is `c`.
pub open spec fn no_char(s: Seq<char>, c: char) -> bool {
    forall|i: int| 0 <= i < s.len() ==> s[i] != c
}

/// Every element of `s` is whitespace.
pub open spec fn all_ws(s: Seq<char>) -> bool {
    forall|i: int| 0 <= i < s.len() ==> is_ws(s[i])
}

/// Reading `s1 + s2` is reading `s1`, then `s2`.
pub proof fn lemma_scan_append(s1: Seq<char>, s2: Seq<char>, done: Seq<Seq<char>>, cur: Seq<char>)
    ensures
        scan_lines(s1 + s2, done, cur) == scan_lines(
            s2,
            scan_lines(s1, done, cur).0,
            scan_lines(s1, done, cur).1,
        ),
    decreases s1.len(),
{
    if s1.len() == 0 {
        assert(s1 + s2 =~= s2);
    } else {
        assert((s1 + s2).drop_first() =~= s1.drop_first() + s2);
        assert((s1 + s2)[0] == s1[0]);
        if s1[0] == '\n' {
            lemma_scan_append(s1.drop_first(), s2, done.push(strip_cr(cur)), seq![]);
        } else {
            lemma_scan_append(s1.drop_first(), s2, done, cur.push(s1[0]));
        }
    }
}

/// Text without a newline only extends the open line.
pub proof fn lemma_scan_no_newline(s: Seq<char>, done: Seq<Seq<char>>, cur: Seq<char>)
    requires
        no_char(s, '\n'),
    ensures
        scan_lines(s, done, cur) == (done, cur + s),
    decreases s.len(),
{
    if s.len() == 0 {
        assert(cur + s =~= cur);
    } else {
        assert(s[0] != '\n');
        assert(no_char(s.drop_first(), '\n')) by {
            assert forall|i: int| 0 <= i < s.drop_first().len() implies s.drop_first()[i] != '\n' by {
                assert(s.drop_first()[i] == s[i + 1]);
            }
        }
        lemma_scan_no_newline(s.drop_first(), done, cur.push(s[0]));
        assert(cur.push(s[0]) + s.drop_first() =~= cur + s);
    }
}

/// A line `t`, ended by a newline, read with no open line, is one more line.
pub proof fn lemma_scan_line(t: Seq<char>, done: Seq<Seq<char>>)
    requires
        no_char(t, '\n'),
    ensures
        scan_lines(t + "\n"@, done, seq![]) == (done.push(strip_cr(t)), Seq::<char>::empty()),
{
    reveal_strlit("\n");
    lemma_scan_append(t, "\n"@, done, seq![]);
    lemma_scan_no_newline(t, done, seq![]);
    assert(Seq::<char>::empty() + t =~= t);
    let nl = "\n"@;
    assert(nl.len() == 1 && nl[0] == '\n');
    assert(nl.drop_first() =~= Seq::<char>::empty());
    assert(scan_lines(nl, done, t) == scan_lines(nl.drop_first(), done.push(strip_cr(t)), seq![]));
    assert(scan_lines(Seq::<char>::empty(), done.push(strip_cr(t)), seq![]) == (
        done.push(strip_cr(t)),
        Seq::<char>::empty(),
    ));
}

/// No carriage return in `s` comes right before a newline, so reading `s`
/// as lines drops no character but the newlines.
pub open spec fn no_crlf(s: Seq<char>) -> bool {
    forall|i: int| #![trigger s[i]] 0 <= i && i + 1 < s.len() ==> !(s[i] == '\r' && s[i + 1] == '\n')
}

/// `s` ends with a carriage return.
pub open spec fn ends_cr(s: Seq<char>) -> bool {
    s.len() > 0 && s.last() == '\r'
}

/// What `no_crlf` says of a text holds of each of its pieces.
pub proof fn lemma_no_crlf_subrange(s: Seq<char>, i: int, j: int)
    requires
        no_crlf(s),
        0 <= i <= j <= s.len(),
    ensures
        no_crlf(s.subrange(i, j)),
{
    let t = s.subrange(i, j);
    assert forall|k: int| #![trigger t[k]] 0 <= k && k + 1 < t.len() implies !(t[k] == '\r' && t[k
        + 1] == '\n') by {
        assert(t[k] == s[i + k] && t[k + 1] == s[i + k + 1]);
    }
}

/// Joining the lines read so far, with the open line last, gives back the
/// text read, where no carriage return comes before a newline.
pub proof fn lemma_scan_text(s: Seq<char>, done: Seq<Seq<char>>, cur: Seq<char>)
    requires
        no_crlf(cur + s),
    ensures
        join(scan_lines(s, done, cur).0.push(scan_lines(s, done, cur).1), "\n"@) == join(
            done.push(cur),
            "\n"@,
        ) + s,
    decreases s.len(),
{
    reveal_strlit("\n");
    let nl = "\n"@;
    let cs = cur + s;
    if s.len() == 0 {
        assert(join(done.push(cur), nl) + s =~= join(done.push(cur), nl));
    } else if s[0] == '\n' {
        if cur.len() > 0 {
            assert(cs[cur.len() - 1] == cur.last());
            assert(cs[cur.len() as int] == '\n');
            assert(cur.last() != '\r');
        }
        assert(strip_cr(cur) == cur);
        let d2 = done.push(cur);
        lemma_no_crlf_subrange(cs, (cur.len() + 1) as int, cs.len() as int);
        assert(cs.subrange((cur.len() + 1) as int, cs.len() as int) =~= Seq::<char>::empty()
            + s.drop_first());
        lemma_scan_text(s.drop_first(), d2, seq![]);
        let l = d2.push(seq![]);
        assert(l.drop_last() =~= d2);
        assert(join(l, nl) == join(d2, nl) + nl + Seq::<char>::empty());
        assert(nl =~= seq!['\n']);
        assert(s =~= seq!['\n'] + s.drop_first());
        assert(join(l, nl) + s.drop_first() =~= join(d2, nl) + s);
    } else {
        let c2 = cur.push(s[0]);
        assert(c2 + s.drop_first() =~= cs);
        lemma_scan_text(s.drop_first(), done, c2);
        let l1 = done.push(c2);
        let l0 = done.push(cur);
        assert(l1.drop_last() =~= done);
        assert(l0.drop_last() =~= done);
        if done.len() == 0 {
            assert(join(l1, nl) == c2);
            assert(join(l0, nl) == cur);
        } else {
            assert(join(l1, nl) == join(done, nl) + nl + c2);
            assert(join(l0, nl) == join(done, nl) + nl + cur);
        }
        assert(join(l1, nl) =~= join(l0, nl) + seq![s[0]]);
        assert(s =~= seq![s[0]] + s.drop_first());
        assert(join(l1, nl) + s.drop_first() =~= join(l0, nl) + s);
    }
}

/// The open line after reading is the end of what was open and read.
pub proof fn lemma_scan_cur_suffix(s: Seq<char>, done: Seq<Seq<char>>, cur: Seq<char>)
    ensures
        scan_lines(s, done, cur).1.len() <= cur.len() + s.len(),
        scan_lines(s, done, cur).1 == (cur + s).skip(
            cur.len() + s.len() - scan_lines(s, done, cur).1.len(),
        ),
    decreases s.len(),
{
    let cs = cur + s;
    if s.len() == 0 {
        assert(cs.skip(0) =~= cur);
    } else if s[0] == '\n' {
        lemma_scan_cur_suffix(s.drop_first(), done.push(strip_cr(cur)), seq![]);
        let r = scan_lines(s, done, cur).1;
        let t = Seq::<char>::empty() + s.drop_first();
        assert(t.skip(t.len() - r.len()) =~= cs.skip(cs.len() - r.len()));
    } else {
        let c2 = cur.push(s[0]);
        assert(c2 + s.drop_first() =~= cs);
        lemma_scan_cur_suffix(s.drop_first(), done, c2);
    }
}

/// The lines of a text: none holds a newline, and none but the last ends
/// with a carriage return.
pub open spec fn plain_lines(ls: Seq<Seq<char>>) -> bool {
    &&& forall|i: int| 0 <= i < ls.len() ==> no_char(#[trigger] ls[i], '\n')
    &&& forall|i: int| 0 <= i < ls.len() - 1 ==> !ends_cr(#[trigger] ls[i])
}

proof fn lemma_scan_plain(s: Seq<char>, done: Seq<Seq<char>>, cur: Seq<char>)
    requires
        no_crlf(cur + s),
        no_char(cur, '\n'),
        forall|i: int|
            0 <= i < done.len() ==> no_char(#[trigger] done[i], '\n') && !ends_cr(done[i]),
    ensures
        forall|i: int|
            0 <= i < scan_lines(s, done, cur).0.len() ==> no_char(
                #[trigger] scan_lines(s, done, cur).0[i],
                '\n',
            ) && !ends_cr(scan_lines(s, done, cur).0[i]),
        no_char(scan_lines(s, done, cur).1, '\n'),
    decreases s.len(),
{
    let cs = cur + s;
    if s.len() > 0 {
        if s[0] == '\n' {
            if cur.len() > 0 {
                assert(cs[cur.len() - 1] == cur.last());
                assert(cs[cur.len() as int] == '\n');
            }
            assert(strip_cr(cur) == cur);
            let d2 = done.push(cur);
            assert forall|i: int| 0 <= i < d2.len() implies no_char(#[trigger] d2[i], '\n')
                && !ends_cr(d2[i]) by {
                if i < done.len() {
                    assert(d2[i] == done[i]);
                }
            }
            lemma_no_crlf_subrange(cs, (cur.len() + 1) as int, cs.len() as int);
            assert(cs.subrange((cur.len() + 1) as int, cs.len() as int) =~= Seq::<char>::empty()
                + s.drop_first());
            lemma_scan_plain(s.drop_first(), d2, seq![]);
        } else {
            let c2 = cur.push(s[0]);
            assert(c2 + s.drop_first() =~= cs);
            assert(no_char(c2, '\n')) by {
                assert forall|i: int| 0 <= i < c2.len() implies c2[i] != '\n' by {
                    if i < cur.len() {
                        assert(c2[i] == cur[i]);
                    }
                }
            }
            lemma_scan_plain(s.drop_first(), done, c2);
        }
    }
}

/// The lines of a text in which no carriage return comes before a newline.
pub proof fn lemma_lines_plain(s: Seq<char>)
    requires
        no_crlf(s),
    ensures
        plain_lines(lines(s)),
{
    assert(Seq::<char>::empty() + s =~= s);
    lemma_scan_plain(s, seq![], seq![]);
    let st = scan_lines(s, seq![], seq![]);
    let l = lines(s);
    assert forall|i: int| 0 <= i < l.len() implies no_char(#[trigger] l[i], '\n') by {
        if i < st.0.len() {
            assert(l[i] == st.0[i]);
        }
    }
    assert forall|i: int| 0 <= i < l.len() - 1 implies !ends_cr(#[trigger] l[i]) by {
        assert(l[i] == st.0[i]);
    }
}

/// Reading joined lines gives them back: all but the last finished, the
/// last open.
pub proof fn lemma_scan_join(w: Seq<Seq<char>>)
    requires
        plain_lines(w),
        w.len() > 0,
    ensures
        scan_lines(join(w, "\n"@), seq![], seq![]) == (w.drop_last(), w.last()),
    decreases w.len(),
{
    reveal_strlit("\n");
    let nl = "\n"@;
    if w.len() == 1 {
        assert(no_char(w[0], '\n'));
        lemma_scan_no_newline(w[0], seq![], seq![]);
        assert(Seq::<char>::empty() + w[0] =~= w[0]);
        assert(w.drop_last() =~= Seq::<Seq<char>>::empty());
    } else {
        let w1 = w.drop_last();
        let x = w.last();
        assert(plain_lines(w1)) by {
            assert forall|i: int| 0 <= i < w1.len() implies no_char(#[trigger] w1[i], '\n') by {
                assert(w1[i] == w[i]);
            }
            assert forall|i: int| 0 <= i < w1.len() - 1 implies !ends_cr(#[trigger] w1[i]) by {
                assert(w1[i] == w[i]);
            }
        }
        lemma_scan_join(w1);
        assert(w[w.len() - 2] == w1.last());
        assert(!ends_cr(w1.last()));
        assert(strip_cr(w1.last()) == w1.last());
        assert(no_char(x, '\n'));
        assert(join(w, nl) == join(w1, nl) + nl + x);
        assert(join(w, nl) =~= join(w1, nl) + (nl + x));
        lemma_scan_append(join(w1, nl), nl + x, seq![], seq![]);
        assert(nl =~= seq!['\n']);
        assert((nl + x)[0] == '\n');
        assert((nl + x).drop_first() =~= x);
        assert(scan_lines(nl + x, w1.drop_last(), w1.last()) == scan_lines(
            x,
            w1.drop_last().push(w1.last()),
            seq![],
        ));
        lemma_scan_no_newline(x, w1.drop_last().push(w1.last()), seq![]);
        assert(w1.drop_last().push(w1.last()) =~= w1);
        assert(Seq::<char>::empty() + x =~= x);
    }
}

/// Joining lines with newlines puts no carriage return before a newline; the
/// result ends with a carriage return only where the last line does.
pub proof fn lemma_join_no_crlf(w: Seq<Seq<char>>)
    requires
        plain_lines(w),
    ensures
        no_crlf(join(w, "\n"@)),
        w.len() == 0 || !ends_cr(w.last()) ==> !ends_cr(join(w, "\n"@)),
    decreases w.len(),
{
    reveal_strlit("\n");
    let nl = "\n"@;
    if w.len() == 1 {
        assert(no_char(w[0], '\n'));
        assert(join(w, nl) == w[0]);
    } else if w.len() > 1 {
        let w1 = w.drop_last();
        let x = w.last();
        assert(plain_lines(w1)) by {
            assert forall|i: int| 0 <= i < w1.len() implies no_char(#[trigger] w1[i], '\n') by {
                assert(w1[i] == w[i]);
            }
            assert forall|i: int| 0 <= i < w1.len() - 1 implies !ends_cr(#[trigger] w1[i]) by {
                assert(w1[i] == w[i]);
            }
        }
        assert(w[w.len() - 2] == w1.last());
        lemma_join_no_crlf(w1);
        let a = join(w1, nl);
        let j = a + nl + x;
        assert(join(w, nl) == j);
        assert(no_char(x, '\n'));
        assert(nl =~= seq!['\n']);
        assert forall|k: int| #![trigger j[k]] 0 <= k && k + 1 < j.len() implies !(j[k] == '\r'
            && j[k + 1] == '\n') by {
            if k + 1 < a.len() {
                assert(j[k] == a[k] && j[k + 1] == a[k + 1]);
            } else if k + 1 == a.len() {
                assert(j[k] == a.last());
            } else if k == a.len() {
                assert(j[k] == '\n');
            } else {
                assert(j[k + 1] == x[k + 1 - a.len() - 1]);
            }
        }
        if x.len() > 0 {
            assert(j.last() == x.last());
        } else {
            assert(j.last() == '\n');
        }
    }
}

/// Whitespace at the end does not change what trimming the end leaves.
pub proof fn lemma_trim_end_append_ws(x: Seq<char>, w: Seq<char>)
    requires
        all_ws(w),
    ensures
        trim_end(x + w) == trim_end(x),
    decreases w.len(),
{
    if w.len() == 0 {
        assert(x + w =~= x);
    } else {
        assert((x + w).drop_last() =~= x + w.drop_last());
        assert((x + w).last() == w.last());
        assert(all_ws(w.drop_last())) by {
            assert forall|i: int| 0 <= i < w.drop_last().len() implies is_ws(w.drop_last()[i]) by {
                assert(w.drop_last()[i] == w[i]);
            }
        }
        lemma_trim_end_append_ws(x, w.drop_last());
    }
}

/// Trimming the end twice is trimming it once.
pub proof fn lemma_trim_end_idempotent(x: Seq<char>)
    ensures
        trim_end(trim_end(x)) == trim_end(x),
    decreases x.len(),
{
    if x.len() > 0 && is_ws(x.last()) {
        lemma_trim_end_idempotent(x.drop_last());
    }
}

/// Trimming the end leaves a prefix.
pub proof fn lemma_trim_end_prefix(x: Seq<char>)
    ensures
        trim_end(x).len() <= x.len(),
        trim_end(x) == x.take(trim_end(x).len() as int),
    decreases x.len(),
{
    if x.len() > 0 && is_ws(x.last()) {
        lemma_trim_end_prefix(x.drop_last());
        assert(x.drop_last().take(trim_end(x).len() as int) =~= x.take(trim_end(x).len() as int));
    } else {
        assert(x.take(x.len() as int) =~= x);
    }
}

/// Trimming keeps a first character that is not whitespace.
pub proof fn lemma_trim_keeps_first(s: Seq<char>)
    requires
        s.len() > 0,
        !is_ws(s[0]),
    ensures
        trim(s).len() > 0,
        trim(s)[0] == s[0],
    decreases s.len(),
{
    lemma_trim_end_prefix(s);
    lemma_trim_end_keeps_first(s);
    let t = trim_end(s);
    assert(t[0] == s[0]);
}

proof fn lemma_trim_end_keeps_first(s: Seq<char>)
    requires
        s.len() > 0,
        !is_ws(s[0]),
    ensures
        trim_end(s).len() > 0,
        trim_end(s)[0] == s[0],
    decreases s.len(),
{
    if is_ws(s.last()) {
        assert(s.len() > 1);
        assert(s.drop_last()[0] == s[0]);
        lemma_trim_end_keeps_first(s.drop_last());
    }
}

/// A text that starts and ends with a character that is not whitespace is
/// its own trim.
pub proof fn lemma_trim_unchanged(s: Seq<char>)
    requires
        s.len() > 0,
        !is_ws(s[0]),
        !is_ws(s.last()),
    ensures
        trim(s) == s,
{
}

/// What trimming the end removes is whitespace.
pub proof fn lemma_trim_end_rest_ws(x: Seq<char>)
    ensures
        trim_end(x).len() <= x.len(),
        x == trim_end(x) + x.skip(trim_end(x).len() as int),
        all_ws(x.skip(trim_end(x).len() as int)),
    decreases x.len(),
{
    lemma_trim_end_prefix(x);
    let k = trim_end(x).len() as int;
    if x.len() > 0 && is_ws(x.last()) {
        lemma_trim_end_rest_ws(x.drop_last());
        let r = x.skip(k);
        let r0 = x.drop_last().skip(k);
        assert(r =~= r0.push(x.last()));
        assert forall|i: int| 0 <= i < r.len() implies is_ws(r[i]) by {
            if i < r0.len() {
                assert(r[i] == r0[i]);
            }
        }
    } else {
        assert(x.skip(k) =~= Seq::<char>::empty());
    }
    assert(x =~= trim_end(x) + x.skip(k));
}

/// The last character left by trimming the end is not whitespace.
pub proof fn lemma_trim_end_last(x: Seq<char>)
    ensures
        trim_end(x).len() > 0 ==> !is_ws(trim_end(x).last()),
    decreases x.len(),
{
    if x.len() > 0 && is_ws(x.last()) {
        lemma_trim_end_last(x.drop_last());
    }
}

/// Reading whitespace keeps the finished lines in front; then comes the open
/// line, trimmed alike, where it trims to anything, and after it only lines
/// that trim to nothing.
pub proof fn lemma_scan_ws(w: Seq<char>, done: Seq<Seq<char>>, cur: Seq<char>)
    requires
        all_ws(w),
    ensures
        finish_lines(scan_lines(w, done, cur)).len() >= done.len(),
        finish_lines(scan_lines(w, done, cur)).take(done.len() as int) == done,
        finish_lines(scan_lines(w, done, cur)).len() == done.len() ==> trim(cur).len() == 0,
        finish_lines(scan_lines(w, done, cur)).len() > done.len() ==> trim(
            finish_lines(scan_lines(w, done, cur))[done.len() as int],
        ) == trim(cur),
        forall|j: int|
            done.len() < j < finish_lines(scan_lines(w, done, cur)).len() ==> trim(
                #[trigger] finish_lines(scan_lines(w, done, cur))[j],
            ).len() == 0,
    decreases w.len(),
{
    let f = finish_lines(scan_lines(w, done, cur));
    if w.len() == 0 {
        assert(f.take(done.len() as int) =~= done);
        if cur.len() > 0 {
            assert(f[done.len() as int] == cur);
        } else {
            assert(trim(cur) =~= cur);
        }
    } else {
        assert(all_ws(w.drop_first())) by {
            assert forall|i: int| 0 <= i < w.drop_first().len() implies is_ws(w.drop_first()[i]) by {
                assert(w.drop_first()[i] == w[i + 1]);
            }
        }
        if w[0] == '\n' {
            // A carriage return dropped before the newline is whitespace, so
            // the line trims as before.
            let sc = strip_cr(cur);
            assert(trim_end(sc) == trim_end(cur));
            let d2 = done.push(sc);
            lemma_scan_ws(w.drop_first(), d2, seq![]);
            assert(f.take(d2.len() as int) == d2);
            assert(f[done.len() as int] == d2[done.len() as int]);
            assert(f.take(done.len() as int) =~= d2.take(done.len() as int));
            assert(d2.take(done.len() as int) =~= done);
            assert(trim(Seq::<char>::empty()) =~= Seq::<char>::empty());
        } else {
            let c2 = cur.push(w[0]);
            lemma_scan_ws(w.drop_first(), done, c2);
            assert(all_ws(seq![w[0]]));
            assert(cur + seq![w[0]] =~= c2);
            lemma_trim_end_append_ws(cur, seq![w[0]]);
            assert(trim(c2) == trim(cur));
        }
    }
}

/// A line with whitespace after it, joined after `done`: the join of
/// `done` and the line, then the whitespace.
proof fn lemma_join_push_ws(done: Seq<Seq<char>>, c0: Seq<char>, x: Seq<char>)
    ensures
        join(done.push(c0 + x), "\n"@) == join(done.push(c0), "\n"@) + x,
{
    let nl = "\n"@;
    let d1 = done.push(c0 + x);
    let d0 = done.push(c0);
    assert(d1.drop_last() =~= done);
    assert(d0.drop_last() =~= done);
    if done.len() == 0 {
        assert(join(d1, nl) == d1[0]);
        assert(join(d0, nl) == d0[0]);
    } else {
        assert(join(d1, nl) == join(done, nl) + nl + (c0 + x));
        assert(join(d0, nl) == join(done, nl) + nl + c0);
    }
    assert(join(d1, nl) =~= join(d0, nl) + x);
}

/// Reading whitespace after an open line `c0 + x`, where `c0` does not end
/// with whitespace and `x` is whitespace: the lines, joined and trimmed at
/// the end, are the finished lines and `c0`, joined and trimmed at the end.
/// Carriage returns in the whitespace may go; nothing else changes.
pub proof fn lemma_scan_ws_join(w: Seq<char>, done: Seq<Seq<char>>, c0: Seq<char>, x: Seq<char>)
    requires
        all_ws(w),
        all_ws(x),
        c0.len() == 0 || !is_ws(c0.last()),
    ensures
        trim_end(join(finish_lines(scan_lines(w, done, c0 + x)), "\n"@)) == trim_end(
            join(done.push(c0), "\n"@),
        ),
    decreases w.len(),
{
    reveal_strlit("\n");
    let nl = "\n"@;
    let cur = c0 + x;
    if w.len() == 0 {
        lemma_join_push_ws(done, c0, x);
        lemma_trim_end_append_ws(join(done.push(c0), nl), x);
        if cur.len() == 0 {
            assert(c0 =~= Seq::<char>::empty());
            if done.len() == 0 {
                assert(join(done.push(c0), nl) == c0);
                assert(join(done, nl) =~= Seq::<char>::empty());
            } else {
                assert(done.push(c0).drop_last() =~= done);
                assert(join(done.push(c0), nl) == join(done, nl) + nl + c0);
                assert(join(done.push(c0), nl) =~= join(done, nl) + nl);
                assert(all_ws(nl));
                lemma_trim_end_append_ws(join(done, nl), nl);
            }
        }
    } else {
        assert(all_ws(w.drop_first())) by {
            assert forall|i: int| 0 <= i < w.drop_first().len() implies is_ws(w.drop_first()[i]) by {
                assert(w.drop_first()[i] == w[i + 1]);
            }
        }
        if w[0] == '\n' {
            // The line ends; a carriage return dropped from it is one of `x`.
            let x2 = if x.len() > 0 && x.last() == '\r' {
                x.drop_last()
            } else {
                x
            };
            assert(all_ws(x2)) by {
                assert forall|i: int| 0 <= i < x2.len() implies is_ws(x2[i]) by {
                    assert(x2[i] == x[i]);
                }
            }
            if x.len() > 0 {
                assert(cur.last() == x.last());
                if x.last() == '\r' {
                    assert(cur.drop_last() =~= c0 + x2);
                }
            } else {
                assert(cur =~= c0);
            }
            assert(strip_cr(cur) == c0 + x2);
            let d2 = done.push(c0 + x2);
            let e = Seq::<char>::empty();
            assert(e + e =~= e);
            lemma_scan_ws_join(w.drop_first(), d2, e, e);
            assert(d2.push(e).drop_last() =~= d2);
            assert(join(d2.push(e), nl) == join(d2, nl) + nl + e);
            assert(join(d2, nl) + nl + e =~= join(d2, nl) + nl);
            assert(all_ws(nl));
            lemma_trim_end_append_ws(join(d2, nl), nl);
            lemma_join_push_ws(done, c0, x2);
            lemma_trim_end_append_ws(join(done.push(c0), nl), x2);
        } else {
            let x3 = x.push(w[0]);
            assert(all_ws(x3)) by {
                assert forall|i: int| 0 <= i < x3.len() implies is_ws(x3[i]) by {
                    if i < x.len() {
                        assert(x3[i] == x[i]);
                    }
                }
            }
            assert(cur.push(w[0]) =~= c0 + x3);
            lemma_scan_ws_join(w.drop_first(), done, c0, x3);
        }
    }
}

/// No line of a text holds a newline.
pub proof fn lemma_lines_no_newline(s: Seq<char>)
    ensures
        forall|i: int| 0 <= i < lines(s).len() ==> no_char(#[trigger] lines(s)[i], '\n'),
{
    lemma_scan_no_newline_lines(s, seq![], seq![]);
}

proof fn lemma_scan_no_newline_lines(s: Seq<char>, done: Seq<Seq<char>>, cur: Seq<char>)
    requires
        no_char(cur, '\n'),
        forall|i: int| 0 <= i < done.len() ==> no_char(#[trigger] done[i], '\n'),
    ensures
        forall|i: int|
            0 <= i < finish_lines(scan_lines(s, done, cur)).len() ==> no_char(
                #[trigger] finish_lines(scan_lines(s, done, cur))[i],
                '\n',
            ),
    decreases s.len(),
{
    if s.len() == 0 {
        let f = finish_lines(scan_lines(s, done, cur));
        assert forall|i: int| 0 <= i < f.len() implies no_char(#[trigger] f[i], '\n') by {
            if i < done.len() {
                assert(f[i] == done[i]);
            } else {
                assert(f[i] == cur);
            }
        }
    } else if s[0] == '\n' {
        let sc = strip_cr(cur);
        assert(no_char(sc, '\n')) by {
            assert forall|i: int| 0 <= i < sc.len() implies sc[i] != '\n' by {
                assert(sc[i] == cur[i]);
            }
        }
        let d2 = done.push(sc);
        assert forall|i: int| 0 <= i < d2.len() implies no_char(#[trigger] d2[i], '\n') by {
            if i < done.len() {
                assert(d2[i] == done[i]);
            }
        }
        lemma_scan_no_newline_lines(s.drop_first(), d2, seq![]);
        assert(scan_lines(s, done, cur) == scan_lines(s.drop_first(), d2, seq![]));
    } else {
        let c2 = cur.push(s[0]);
        assert(no_char(c2, '\n')) by {
            assert forall|i: int| 0 <= i < c2.len() implies c2[i] != '\n' by {
                if i < cur.len() {
                    assert(c2[i] == cur[i]);
                }
            }
        }
        lemma_scan_no_newline_lines(s.drop_first(), done, c2);
        assert(scan_lines(s, done, cur) == scan_lines(s.drop_first(), done, c2));
    }
}

} // verus!
