//! Character-level string utilities: a lexicographic order on strings by
//! code point, whitespace trimming, splitting a body into lines, sorting,
//! and newline-joined concatenation. All of them carry exact specifications
//! over `Seq<char>` views.

use vstd::prelude::*;
use vstd::string::StrSliceExecFns;
use vstd::string::StringExecFns;

verus! {

/// Lexicographic "less or equal" on character sequences, ordered by code
/// point. This coincides with the standard library's order on `str` for
/// the strings this crate handles.
pub open spec fn lex_leq(a: Seq<char>, b: Seq<char>) -> bool
    decreases a.len(),
{
    if a.len() == 0 {
        true
    } else if b.len() == 0 {
        false
    } else if a[0] != b[0] {
        (a[0] as u32) < (b[0] as u32)
    } else {
        lex_leq(a.drop_first(), b.drop_first())
    }
}

proof fn lemma_lex_leq_step(a: Seq<char>, b: Seq<char>)
    requires
        a.len() > 0,
        b.len() > 0,
        a[0] == b[0],
    ensures
        lex_leq(a, b) == lex_leq(a.drop_first(), b.drop_first()),
{
}

/// Decides `lex_leq` on two string slices.
pub fn str_leq(a: &str, b: &str) -> (r: bool)
    ensures
        r == lex_leq(a@, b@),
{
    let alen = a.unicode_len();
    let blen = b.unicode_len();
    let mut i: usize = 0;
    proof {
        assert(a@.skip(0) =~= a@);
        assert(b@.skip(0) =~= b@);
    }
    loop
        invariant
            i <= alen,
            i <= blen,
            alen == a@.len(),
            blen == b@.len(),
            lex_leq(a@, b@) == lex_leq(a@.skip(i as int), b@.skip(i as int)),
        decreases alen - i,
    {
        if i == alen {
            return true;
        }
        if i == blen {
            return false;
        }
        let ca = a.get_char(i);
        let cb = b.get_char(i);
        if ca != cb {
            return (ca as u32) < (cb as u32);
        }
        proof {
            lemma_lex_leq_step(a@.skip(i as int), b@.skip(i as int));
            assert(a@.skip(i as int).drop_first() =~= a@.skip(i + 1));
            assert(b@.skip(i as int).drop_first() =~= b@.skip(i + 1));
        }
        i = i + 1;
    }
}

/// Decides equality of the character sequences of two string slices.
pub fn str_eq(a: &str, b: &str) -> (r: bool)
    ensures
        r == (a@ == b@),
{
    let alen = a.unicode_len();
    let blen = b.unicode_len();
    if alen != blen {
        return false;
    }
    let mut i: usize = 0;
    while i < alen
        invariant
            i <= alen,
            alen == a@.len(),
            alen == b@.len(),
            forall|k: int| 0 <= k < i ==> a@[k] == b@[k],
        decreases alen - i,
    {
        if a.get_char(i) != b.get_char(i) {
            return false;
        }
        i = i + 1;
    }
    proof {
        assert(a@ =~= b@);
    }
    true
}

/// The characters recognized as white space when trimming: the Unicode
/// white-space set, as the standard library's trimming recognizes it.
pub open spec fn is_space(c: char) -> bool {
    c == ' ' || c == '\t' || c == '\n' || c == '\r' || c == '\u{b}' || c == '\u{c}'
        || c == '\u{85}' || c == '\u{a0}' || c == '\u{1680}' || (0x2000 <= c as u32 && c as u32
        <= 0x200a) || c == '\u{2028}' || c == '\u{2029}' || c == '\u{202f}' || c == '\u{205f}'
        || c == '\u{3000}'
}

fn is_space_char(c: char) -> (r: bool)
    ensures
        r == is_space(c),
{
    c == ' ' || c == '\t' || c == '\n' || c == '\r' || c == '\u{b}' || c == '\u{c}'
        || c == '\u{85}' || c == '\u{a0}' || c == '\u{1680}' || (0x2000 <= c as u32 && c as u32
        <= 0x200a) || c == '\u{2028}' || c == '\u{2029}' || c == '\u{202f}' || c == '\u{205f}'
        || c == '\u{3000}'
}

/// `s` with its leading whitespace removed.
pub open spec fn trim_front(s: Seq<char>) -> Seq<char>
    decreases s.len(),
{
    if s.len() > 0 && is_space(s[0]) {
        trim_front(s.drop_first())
    } else {
        s
    }
}

/// `s` with its trailing whitespace removed.
pub open spec fn trim_back(s: Seq<char>) -> Seq<char>
    decreases s.len(),
{
    if s.len() > 0 && is_space(s.last()) {
        trim_back(s.drop_last())
    } else {
        s
    }
}

/// `s` with whitespace removed at both ends.
pub open spec fn trim_seq(s: Seq<char>) -> Seq<char> {
    trim_back(trim_front(s))
}

proof fn lemma_trim_front_skip(s: Seq<char>, j: int)
    requires
        0 <= j <= s.len(),
        forall|k: int| 0 <= k < j ==> is_space(s[k]),
        j == s.len() || !is_space(s[j]),
    ensures
        trim_front(s) =~= s.skip(j),
    decreases j,
{
    if j == 0 {
        assert(s.skip(0) =~= s);
    } else {
        assert(is_space(s[0]));
        lemma_trim_front_skip(s.drop_first(), j - 1);
        assert(s.drop_first().skip(j - 1) =~= s.skip(j));
    }
}

proof fn lemma_trim_back_take(s: Seq<char>, j: int)
    requires
        0 <= j <= s.len(),
        forall|k: int| j <= k < s.len() ==> is_space(s[k]),
        j == 0 || !is_space(s[j - 1]),
    ensures
        trim_back(s) =~= s.take(j),
    decreases s.len() - j,
{
    if j == s.len() {
        if s.len() == 0 {
            assert(s.take(0) =~= s);
        } else {
            assert(!is_space(s.last()));
            assert(s.take(j) =~= s);
        }
    } else {
        assert(is_space(s.last()));
        lemma_trim_back_take(s.drop_last(), j);
        assert(s.drop_last().take(j) =~= s.take(j));
    }
}

proof fn lemma_trim_bounds(s: Seq<char>, ts: int, te: int)
    requires
        0 <= ts <= te <= s.len(),
        forall|k: int| 0 <= k < ts ==> is_space(s[k]),
        forall|k: int| te <= k < s.len() ==> is_space(s[k]),
        ts == s.len() || !is_space(s[ts]),
        te == ts || !is_space(s[te - 1]),
    ensures
        trim_seq(s) =~= s.subrange(ts, te),
{
    lemma_trim_front_skip(s, ts);
    let f = s.skip(ts);
    assert(trim_front(s) == f);
    lemma_trim_back_take(f, te - ts);
    assert(f.take(te - ts) =~= s.subrange(ts, te));
}

/// The substring of `s` from `start` to `end` (character indices), with
/// whitespace removed at both ends.
pub fn trimmed_slice<'a>(s: &'a str, start: usize, end: usize) -> (r: &'a str)
    requires
        start <= end <= s@.len(),
    ensures
        r@ == trim_seq(s@.subrange(start as int, end as int)),
{
    let mut ts = start;
    loop
        invariant
            start <= ts <= end <= s@.len(),
            forall|k: int| start <= k < ts ==> is_space(s@[k]),
        ensures
            start <= ts <= end,
            forall|k: int| start <= k < ts ==> is_space(s@[k]),
            ts == end || !is_space(s@[ts as int]),
        decreases end - ts,
    {
        if ts == end {
            break;
        }
        if !is_space_char(s.get_char(ts)) {
            break;
        }
        ts = ts + 1;
    }
    let mut te = end;
    loop
        invariant
            ts <= te <= end <= s@.len(),
            forall|k: int| te <= k < end ==> is_space(s@[k]),
        ensures
            ts <= te <= end,
            forall|k: int| te <= k < end ==> is_space(s@[k]),
            te == ts || !is_space(s@[te - 1]),
        decreases te - ts,
    {
        if te == ts {
            break;
        }
        if !is_space_char(s.get_char(te - 1)) {
            break;
        }
        te = te - 1;
    }
    proof {
        let line = s@.subrange(start as int, end as int);
        lemma_trim_bounds(line, ts - start, te - start);
        assert(line.subrange(ts - start, te - start) =~= s@.subrange(ts as int, te as int));
    }
    s.substring_char(ts, te)
}

/// The lines of `s`, split at `'\n'`, with `cur` the partial line read so
/// far. A trailing newline yields a final empty line.
pub open spec fn lines_acc(s: Seq<char>, cur: Seq<char>) -> Seq<Seq<char>>
    decreases s.len(),
{
    if s.len() == 0 {
        seq![cur]
    } else if s[0] == '\n' {
        seq![cur] + lines_acc(s.drop_first(), Seq::empty())
    } else {
        lines_acc(s.drop_first(), cur.push(s[0]))
    }
}

/// The lines of `s`, split at `'\n'`.
pub open spec fn split_lines(s: Seq<char>) -> Seq<Seq<char>> {
    lines_acc(s, Seq::empty())
}

/// The lines of `s`, each with whitespace removed at both ends.
pub fn trimmed_lines<'a>(s: &'a str) -> (r: Vec<&'a str>)
    ensures
        r@.len() == split_lines(s@).len(),
        forall|k: int| 0 <= k < r@.len() ==> r@[k]@ == trim_seq(split_lines(s@)[k]),
{
    let n = s.unicode_len();
    let mut r: Vec<&str> = Vec::new();
    let mut start: usize = 0;
    let mut i: usize = 0;
    let ghost mut done: Seq<Seq<char>> = Seq::empty();
    proof {
        assert(s@.skip(0) =~= s@);
        assert(s@.subrange(0, 0) =~= Seq::<char>::empty());
        assert(Seq::empty() + lines_acc(s@, Seq::empty()) =~= lines_acc(s@, Seq::empty()));
    }
    loop
        invariant_except_break
            start <= i <= n,
            n == s@.len(),
            split_lines(s@) =~= done + lines_acc(
                s@.skip(i as int),
                s@.subrange(start as int, i as int),
            ),
            r@.len() == done.len(),
            forall|k: int| 0 <= k < done.len() ==> r@[k]@ == trim_seq(done[k]),
        ensures
            r@.len() == split_lines(s@).len(),
            forall|k: int| 0 <= k < r@.len() ==> r@[k]@ == trim_seq(split_lines(s@)[k]),
        decreases n - i,
    {
        let ghost cur = s@.subrange(start as int, i as int);
        if i == n {
            let t = trimmed_slice(s, start, i);
            r.push(t);
            proof {
                assert(s@.skip(i as int) =~= Seq::<char>::empty());
                assert(lines_acc(s@.skip(i as int), cur) =~= seq![cur]);
                done = done.push(cur);
                assert(split_lines(s@) =~= done);
            }
            break;
        }
        let c = s.get_char(i);
        if c == '\n' {
            let t = trimmed_slice(s, start, i);
            r.push(t);
            proof {
                assert(s@.skip(i as int)[0] == s@[i as int]);
                assert(s@.skip(i as int).drop_first() =~= s@.skip(i + 1));
                assert(lines_acc(s@.skip(i as int), cur) =~= seq![cur] + lines_acc(
                    s@.skip(i + 1),
                    Seq::empty(),
                ));
                done = done.push(cur);
                assert(split_lines(s@) =~= done + lines_acc(s@.skip(i + 1), Seq::empty()));
                assert(s@.subrange(i + 1, i + 1) =~= Seq::<char>::empty());
            }
            start = i + 1;
            i = i + 1;
        } else {
            proof {
                assert(s@.skip(i as int)[0] == s@[i as int]);
                assert(s@.skip(i as int).drop_first() =~= s@.skip(i + 1));
                assert(cur.push(s@[i as int]) =~= s@.subrange(start as int, i + 1));
                assert(lines_acc(s@.skip(i as int), cur) =~= lines_acc(
                    s@.skip(i + 1),
                    s@.subrange(start as int, i + 1),
                ));
            }
            i = i + 1;
        }
    }
    r
}

/// The sequence of character-sequence views of a sequence of strings.
pub open spec fn str_views(s: Seq<String>) -> Seq<Seq<char>> {
    s.map_values(|x: String| x@)
}

/// `x` inserted into `s` before the first element not below it; keeps `s`
/// sorted under `lex_leq`.
pub open spec fn insert_sorted(x: Seq<char>, s: Seq<Seq<char>>) -> Seq<Seq<char>>
    decreases s.len(),
{
    if s.len() == 0 {
        seq![x]
    } else if lex_leq(x, s[0]) {
        seq![x] + s
    } else {
        seq![s[0]] + insert_sorted(x, s.drop_first())
    }
}

/// Insertion sort of a sequence of character sequences under `lex_leq`.
pub open spec fn sort_strs(s: Seq<Seq<char>>) -> Seq<Seq<char>>
    decreases s.len(),
{
    if s.len() == 0 {
        s
    } else {
        insert_sorted(s.last(), sort_strs(s.drop_last()))
    }
}

proof fn lemma_insert_sorted_split(x: Seq<char>, s: Seq<Seq<char>>, j: int)
    requires
        0 <= j <= s.len(),
        forall|k: int| 0 <= k < j ==> !lex_leq(x, s[k]),
        j == s.len() || lex_leq(x, s[j]),
    ensures
        insert_sorted(x, s) =~= s.take(j) + seq![x] + s.skip(j),
    decreases j,
{
    if j == 0 {
        assert(s.take(0) =~= Seq::<Seq<char>>::empty());
        assert(s.skip(0) =~= s);
    } else {
        assert(!lex_leq(x, s[0]));
        lemma_insert_sorted_split(x, s.drop_first(), j - 1);
        assert(s.drop_first().take(j - 1) =~= s.subrange(1, j));
        assert(s.drop_first().skip(j - 1) =~= s.skip(j));
        assert(seq![s[0]] + (s.subrange(1, j) + seq![x] + s.skip(j)) =~= s.take(j) + seq![x]
            + s.skip(j));
    }
}

/// Inserts `x` into the sorted vector `v`, keeping it sorted.
fn insert_string_sorted(v: &mut Vec<String>, x: String)
    ensures
        str_views(final(v)@) == insert_sorted(x@, str_views(old(v)@)),
{
    let mut j: usize = 0;
    loop
        invariant
            j <= v@.len(),
            forall|k: int| 0 <= k < j ==> !lex_leq(x@, v@[k]@),
        ensures
            j <= v@.len(),
            forall|k: int| 0 <= k < j ==> !lex_leq(x@, v@[k]@),
            j == v@.len() || lex_leq(x@, v@[j as int]@),
        decreases v@.len() - j,
    {
        if j == v.len() {
            break;
        }
        if str_leq(x.as_str(), v[j].as_str()) {
            break;
        }
        j = j + 1;
    }
    proof {
        lemma_insert_sorted_split(x@, str_views(v@), j as int);
    }
    let ghost prev = v@;
    v.insert(j, x);
    proof {
        assert(str_views(v@) =~= str_views(prev).take(j as int) + seq![x@] + str_views(
            prev,
        ).skip(j as int));
    }
}

/// Sorts a vector of strings by `lex_leq` on their characters.
pub fn sort_strings(v: &Vec<String>) -> (r: Vec<String>)
    ensures
        str_views(r@) == sort_strs(str_views(v@)),
{
    let mut out: Vec<String> = Vec::new();
    let mut i: usize = 0;
    proof {
        assert(str_views(v@.take(0)) =~= Seq::<Seq<char>>::empty());
    }
    while i < v.len()
        invariant
            i <= v@.len(),
            str_views(out@) == sort_strs(str_views(v@.take(i as int))),
        decreases v@.len() - i,
    {
        let x = v[i].clone();
        insert_string_sorted(&mut out, x);
        proof {
            let t1 = str_views(v@.take(i + 1));
            assert(t1.drop_last() =~= str_views(v@.take(i as int)));
            assert(t1.last() == v@[i as int]@);
        }
        i = i + 1;
    }
    proof {
        assert(v@.take(v@.len() as int) =~= v@);
    }
    out
}

/// Inserting keeps exactly the old elements plus the new one.
pub proof fn lemma_insert_sorted_contains(x: Seq<char>, s: Seq<Seq<char>>, t: Seq<char>)
    ensures
        insert_sorted(x, s).contains(t) == (t == x || s.contains(t)),
    decreases s.len(),
{
    if s.len() == 0 {
        assert(insert_sorted(x, s) =~= seq![x]);
        assert(seq![x].contains(t) == (t == x)) by {
            if t == x {
                assert(seq![x][0] == t);
            }
        }
    } else if lex_leq(x, s[0]) {
        assert((seq![x] + s).contains(t) == (t == x || s.contains(t))) by {
            if (seq![x] + s).contains(t) {
                let i = choose|i: int| 0 <= i < (seq![x] + s).len() && (seq![x] + s)[i] == t;
                if i > 0 {
                    assert(s[i - 1] == t);
                }
            }
            if t == x {
                assert((seq![x] + s)[0] == t);
            }
            if s.contains(t) {
                let i = choose|i: int| 0 <= i < s.len() && s[i] == t;
                assert((seq![x] + s)[i + 1] == t);
            }
        }
    } else {
        lemma_insert_sorted_contains(x, s.drop_first(), t);
        let rest = insert_sorted(x, s.drop_first());
        assert((seq![s[0]] + rest).contains(t) == (t == s[0] || rest.contains(t))) by {
            if (seq![s[0]] + rest).contains(t) {
                let i = choose|i: int| 0 <= i < (seq![s[0]] + rest).len() && (seq![s[0]] + rest)[i]
                    == t;
                if i > 0 {
                    assert(rest[i - 1] == t);
                }
            }
            if t == s[0] {
                assert((seq![s[0]] + rest)[0] == t);
            }
            if rest.contains(t) {
                let i = choose|i: int| 0 <= i < rest.len() && rest[i] == t;
                assert((seq![s[0]] + rest)[i + 1] == t);
            }
        }
        assert(s.contains(t) == (t == s[0] || s.drop_first().contains(t))) by {
            if s.contains(t) {
                let i = choose|i: int| 0 <= i < s.len() && s[i] == t;
                if i > 0 {
                    assert(s.drop_first()[i - 1] == t);
                }
            }
            if s.drop_first().contains(t) {
                let i = choose|i: int| 0 <= i < s.drop_first().len() && s.drop_first()[i] == t;
                assert(s[i + 1] == t);
            }
            if t == s[0] {
                assert(s[0] == t);
            }
        }
    }
}

/// Sorting keeps exactly the same elements.
pub proof fn lemma_sort_strs_contains(s: Seq<Seq<char>>, t: Seq<char>)
    ensures
        sort_strs(s).contains(t) == s.contains(t),
    decreases s.len(),
{
    if s.len() > 0 {
        lemma_sort_strs_contains(s.drop_last(), t);
        lemma_insert_sorted_contains(s.last(), sort_strs(s.drop_last()), t);
        assert(s.contains(t) == (t == s.last() || s.drop_last().contains(t))) by {
            if s.contains(t) {
                let i = choose|i: int| 0 <= i < s.len() && s[i] == t;
                if i < s.len() - 1 {
                    assert(s.drop_last()[i] == t);
                }
            }
            if s.drop_last().contains(t) {
                let i = choose|i: int| 0 <= i < s.drop_last().len() && s.drop_last()[i] == t;
                assert(s[i] == t);
            }
            if t == s.last() {
                assert(s[s.len() - 1] == t);
            }
        }
    }
}

/// `acc` followed, for each item in turn, by a newline and that item.
pub open spec fn join_nl(acc: Seq<char>, items: Seq<Seq<char>>) -> Seq<char>
    decreases items.len(),
{
    if items.len() == 0 {
        acc
    } else {
        join_nl(acc + seq!['\n'] + items[0], items.drop_first())
    }
}

/// Appends a newline and `item` to `acc`, for each item in turn.
pub fn append_joined(acc: &mut String, items: &Vec<String>)
    ensures
        final(acc)@ == join_nl(old(acc)@, str_views(items@)),
{
    let mut i: usize = 0;
    proof {
        reveal_strlit("\n");
        assert(str_views(items@).skip(0) =~= str_views(items@));
    }
    while i < items.len()
        invariant
            i <= items@.len(),
            join_nl(old(acc)@, str_views(items@)) == join_nl(
                acc@,
                str_views(items@).skip(i as int),
            ),
        decreases items@.len() - i,
    {
        let ghost before = acc@;
        acc.append("\n");
        acc.append(items[i].as_str());
        proof {
            reveal_strlit("\n");
            assert(acc@ =~= before + seq!['\n'] + str_views(items@).skip(i as int)[0]);
            assert(str_views(items@).skip(i as int).drop_first() =~= str_views(items@).skip(
                i + 1,
            ));
        }
        i = i + 1;
    }
    proof {
        assert(str_views(items@).skip(items@.len() as int) =~= Seq::<Seq<char>>::empty());
    }
}

} // verus!
