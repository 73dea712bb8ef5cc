//! Repairing an ASCII-armored public key block whose line endings arrived as
//! literal escape sequences (as clipboard tools sometimes hand them over).
use vstd::prelude::*;
use crate::text::{
    chars_of, chars_range, ends_with, extend_chars, find_chars, find_sub, free_of, join,
    join_chars, lemma_chars_deep_view, lines_chars, lines_of, replace_all, replace_chars,
    starts_with, string_of, strip_cr, trim, trim_chars, trim_end, trim_start,
};

verus! {

broadcast use vstd::string::group_string_axioms;

/// Why a text holds no usable public key block.
#[derive(Debug, Clone, Copy, PartialEq, Eq, Structural)]
pub enum ArmorError {
    /// No begin marker.
    MissingBegin,
    /// A begin marker without an end marker after it.
    MissingEnd,
}

impl ArmorError {
    /// The message shown for the error.
    pub fn message(&self) -> (m: &'static str)
        ensures
            *self == ArmorError::MissingBegin ==> m@ == "Clipboard does not contain a public PGP key"@,
            *self == ArmorError::MissingEnd ==> m@ == "Clipboard contains an incomplete public PGP key"@,
    {
        match self {
            ArmorError::MissingBegin => "Clipboard does not contain a public PGP key",
            ArmorError::MissingEnd => "Clipboard contains an incomplete public PGP key",
        }
    }
}

/// The line that opens a public key block.
pub open spec fn begin_marker() -> Seq<char> {
    "-----BEGIN PGP PUBLIC KEY BLOCK-----"@
}

/// The line that closes a public key block.
pub open spec fn end_marker() -> Seq<char> {
    "-----END PGP PUBLIC KEY BLOCK-----"@
}

pub open spec fn newline() -> Seq<char> {
    seq!['\n']
}

/// The text with literal `\r\n`, `\\n` and `\n` sequences, CR LF pairs and
/// lone CRs turned into line feeds (in that order), then every backslash
/// removed.
pub open spec fn unescape_line_endings(t: Seq<char>) -> Seq<char> {
    let a = replace_all(t, seq!['\\', 'r', '\\', 'n'], newline());
    let b = replace_all(a, seq!['\\', '\\', 'n'], newline());
    let c = replace_all(b, seq!['\\', 'n'], newline());
    let d = replace_all(c, seq!['\r', '\n'], newline());
    let e = replace_all(d, seq!['\r'], newline());
    replace_all(e, seq!['\\'], seq![])
}

/// `t` without one trailing backslash.
pub open spec fn strip_backslash(t: Seq<char>) -> Seq<char> {
    if t.len() > 0 && t.last() == '\\' {
        t.drop_last()
    } else {
        t
    }
}

/// The lines trimmed, the empty ones dropped and a trailing backslash cut
/// from each.
pub open spec fn clean_lines(ls: Seq<Seq<char>>) -> Seq<Seq<char>>
    decreases ls.len(),
{
    if ls.len() == 0 {
        seq![]
    } else {
        let earlier = clean_lines(ls.drop_last());
        let t = trim(ls.last());
        if t.len() == 0 {
            earlier
        } else {
            earlier.push(strip_backslash(t))
        }
    }
}

/// The block rebuilt from `text`: the lines between the first begin marker
/// and the first end marker after it, cleaned, between the two markers, one
/// line each and a final line feed.
pub open spec fn normalized_armor(text: Seq<char>) -> Result<Seq<char>, ArmorError> {
    let n = unescape_line_endings(text);
    match find_sub(n, begin_marker()) {
        None => Err(ArmorError::MissingBegin),
        Some(b) => {
            let start = b + begin_marker().len();
            match find_sub(n.skip(start), end_marker()) {
                None => Err(ArmorError::MissingEnd),
                Some(off) => {
                    let body = join(clean_lines(lines_of(n.subrange(start, start + off))), newline());
                    Ok(begin_marker() + newline() + body + newline() + end_marker() + newline())
                },
            }
        },
    }
}

proof fn lemma_find_sub_bound(s: Seq<char>, pat: Seq<char>)
    ensures
        find_sub(s, pat) matches Some(k) ==> 0 <= k && k + pat.len() <= s.len() && starts_with(
            s.skip(k),
            pat,
        ),
    decreases s.len(),
{
    if !starts_with(s, pat) && s.len() > 0 {
        lemma_find_sub_bound(s.drop_first(), pat);
        if let Some(k) = find_sub(s.drop_first(), pat) {
            assert(s.drop_first().skip(k) =~= s.skip(k + 1));
        }
    } else if starts_with(s, pat) {
        assert(s.skip(0) =~= s);
    }
}

fn clean_lines_exec(ls: &Vec<Vec<char>>) -> (r: Vec<Vec<char>>)
    ensures
        r.deep_view() == clean_lines(ls.deep_view()),
{
    let mut r: Vec<Vec<char>> = Vec::new();
    let mut i: usize = 0;
    while i < ls.len()
        invariant
            0 <= i <= ls@.len(),
            r.deep_view() == clean_lines(ls.deep_view().take(i as int)),
        decreases ls@.len() - i,
    {
        proof {
            lemma_chars_deep_view(ls@[i as int]);
            assert(ls.deep_view().take(i + 1).drop_last() =~= ls.deep_view().take(i as int));
            assert(ls.deep_view().take(i + 1).last() == ls@[i as int]@);
        }
        let mut t = trim_chars(&ls[i]);
        if t.len() > 0 {
            let n = t.len();
            if t[n - 1] == '\\' {
                t.pop();
            }
            let ghost before = r.deep_view();
            proof {
                lemma_chars_deep_view(t);
            }
            r.push(t);
            assert(r.deep_view() =~= before.push(t@));
        }
        i += 1;
    }
    assert(ls.deep_view().take(ls@.len() as int) =~= ls.deep_view());
    r
}

/// Rebuilds a public key block from text whose line endings may be literal
/// escape sequences: `Err` where there is no begin marker, or no end marker
/// after it.
pub fn normalize_armored_key(text: &str) -> (r: Result<String, ArmorError>)
    ensures
        match r {
            Ok(s) => normalized_armor(text@) == Ok::<Seq<char>, ArmorError>(s@),
            Err(e) => normalized_armor(text@) == Err::<Seq<char>, ArmorError>(e),
        },
{
    let t = chars_of(text);
    let nl = vec!['\n'];
    assert(nl@ =~= newline());
    let p1 = vec!['\\', 'r', '\\', 'n'];
    let p2 = vec!['\\', '\\', 'n'];
    let p3 = vec!['\\', 'n'];
    let p4 = vec!['\r', '\n'];
    let p5 = vec!['\r'];
    let p6 = vec!['\\'];
    let empty: Vec<char> = Vec::new();
    assert(p1@ =~= seq!['\\', 'r', '\\', 'n']);
    assert(p2@ =~= seq!['\\', '\\', 'n']);
    assert(p3@ =~= seq!['\\', 'n']);
    assert(p4@ =~= seq!['\r', '\n']);
    assert(p5@ =~= seq!['\r']);
    assert(p6@ =~= seq!['\\']);
    assert(empty@ =~= Seq::<char>::empty());
    let a = replace_chars(&t, &p1, &nl);
    let b = replace_chars(&a, &p2, &nl);
    let c = replace_chars(&b, &p3, &nl);
    let d = replace_chars(&c, &p4, &nl);
    let e = replace_chars(&d, &p5, &nl);
    let n = replace_chars(&e, &p6, &empty);
    let begin = chars_of("-----BEGIN PGP PUBLIC KEY BLOCK-----");
    let end = chars_of("-----END PGP PUBLIC KEY BLOCK-----");
    proof {
        lemma_find_sub_bound(n@, begin@);
    }
    let b_at = match find_chars(&n, &begin) {
        Some(k) => k,
        None => {
            return Err(ArmorError::MissingBegin);
        },
    };
    let n_len = n.len();
    assert(b_at + begin@.len() <= n_len);
    let start = b_at + begin.len();
    let rest = chars_range(&n, start, n.len());
    assert(rest@ =~= n@.skip(start as int));
    proof {
        lemma_find_sub_bound(rest@, end@);
    }
    let off = match find_chars(&rest, &end) {
        Some(k) => k,
        None => {
            return Err(ArmorError::MissingEnd);
        },
    };
    let inner = chars_range(&n, start, start + off);
    let lines = lines_chars(&inner);
    let cleaned = clean_lines_exec(&lines);
    let body = join_chars(&cleaned, &nl);
    let mut out: Vec<char> = Vec::new();
    extend_chars(&mut out, &begin);
    out.push('\n');
    extend_chars(&mut out, &body);
    out.push('\n');
    extend_chars(&mut out, &end);
    out.push('\n');
    assert(out@ =~= begin@ + newline() + body@ + newline() + end@ + newline());
    Ok(string_of(&out))
}

proof fn lemma_remove_all_free(s: Seq<char>, c: char)
    ensures
        free_of(replace_all(s, seq![c], seq![]), c),
    decreases s.len(),
{
    if s.len() > 0 {
        if starts_with(s, seq![c]) {
            lemma_remove_all_free(s.skip(1), c);
            assert(seq![] + replace_all(s.skip(1), seq![c], seq![]) =~= replace_all(
                s.skip(1),
                seq![c],
                seq![],
            ));
        } else {
            lemma_remove_all_free(s.drop_first(), c);
            assert(s.take(1) =~= seq![s[0]]);
            let r = replace_all(s, seq![c], seq![]);
            assert forall|i: int| 0 <= i < r.len() implies r[i] != c by {
                if i > 0 {
                    assert(r[i] == replace_all(s.drop_first(), seq![c], seq![])[i - 1]);
                }
            }
        }
    }
}

proof fn lemma_lines_free(s: Seq<char>, c: char)
    requires
        free_of(s, c),
    ensures
        forall|i: int| 0 <= i < lines_of(s).len() ==> free_of(#[trigger] lines_of(s)[i], c),
    decreases s.len(),
{
    if s.len() > 0 {
        let k = crate::text::find_char(s, '\n');
        crate::text::lemma_find_char_props(s, '\n');
        if k < s.len() {
            lemma_lines_free(s.skip(k as int + 1), c);
            assert forall|i: int| 0 <= i < lines_of(s).len() implies free_of(
                #[trigger] lines_of(s)[i],
                c,
            ) by {
                if i > 0 {
                    assert(lines_of(s)[i] == lines_of(s.skip(k as int + 1))[i - 1]);
                } else {
                    let first = s.take(k as int);
                    assert(free_of(first, c));
                    assert(free_of(strip_cr(first), c));
                }
            }
        }
    }
}

proof fn lemma_trim_free(s: Seq<char>, c: char)
    requires
        free_of(s, c),
    ensures
        free_of(trim(s), c),
{
    lemma_trim_start_free(s, c);
    lemma_trim_end_free(trim_start(s), c);
}

proof fn lemma_trim_start_free(s: Seq<char>, c: char)
    requires
        free_of(s, c),
    ensures
        free_of(trim_start(s), c),
    decreases s.len(),
{
    if s.len() > 0 && crate::text::is_white_space(s[0]) {
        lemma_trim_start_free(s.drop_first(), c);
    }
}

proof fn lemma_trim_end_free(s: Seq<char>, c: char)
    requires
        free_of(s, c),
    ensures
        free_of(trim_end(s), c),
    decreases s.len(),
{
    if s.len() > 0 && crate::text::is_white_space(s.last()) {
        lemma_trim_end_free(s.drop_last(), c);
    }
}

proof fn lemma_clean_lines_free(ls: Seq<Seq<char>>, c: char)
    requires
        forall|i: int| 0 <= i < ls.len() ==> free_of(#[trigger] ls[i], c),
    ensures
        forall|i: int| 0 <= i < clean_lines(ls).len() ==> free_of(#[trigger] clean_lines(ls)[i], c),
    decreases ls.len(),
{
    if ls.len() > 0 {
        lemma_clean_lines_free(ls.drop_last(), c);
        let last = ls[ls.len() - 1];
        lemma_trim_free(last, c);
        let earlier = clean_lines(ls.drop_last());
        assert forall|i: int| 0 <= i < clean_lines(ls).len() implies free_of(
            #[trigger] clean_lines(ls)[i],
            c,
        ) by {
            if i < earlier.len() {
                assert(clean_lines(ls)[i] == earlier[i]);
            }
        }
    }
}

proof fn lemma_join_free(parts: Seq<Seq<char>>, sep: Seq<char>, c: char)
    requires
        forall|i: int| 0 <= i < parts.len() ==> free_of(#[trigger] parts[i], c),
        free_of(sep, c),
    ensures
        free_of(join(parts, sep), c),
    decreases parts.len(),
{
    if parts.len() > 1 {
        lemma_join_free(parts.drop_last(), sep, c);
        let j = join(parts.drop_last(), sep);
        let last = parts[parts.len() - 1];
        assert(free_of(last, c));
        let r = j + sep + last;
        assert forall|i: int| 0 <= i < r.len() implies r[i] != c by {
            if i < j.len() {
                assert(r[i] == j[i]);
            } else if i < j.len() + sep.len() {
                assert(r[i] == sep[i - j.len()]);
            } else {
                assert(r[i] == last[i - j.len() - sep.len()]);
            }
        }
    } else if parts.len() == 1 {
        assert(free_of(parts[0], c));
    }
}

/// A rebuilt block starts with the begin marker line, ends with the end
/// marker line and a line feed, and holds no backslash.
pub proof fn lemma_normalized_armor_shape(text: Seq<char>)
    ensures
        normalized_armor(text) matches Ok(out) ==> {
            &&& starts_with(out, begin_marker() + newline())
            &&& ends_with(out, end_marker() + newline())
            &&& free_of(out, '\\')
        },
{
    if let Ok(out) = normalized_armor(text) {
        reveal_strlit("-----BEGIN PGP PUBLIC KEY BLOCK-----");
        reveal_strlit("-----END PGP PUBLIC KEY BLOCK-----");
        let n = unescape_line_endings(text);
        let e = replace_all(
            replace_all(
                replace_all(
                    replace_all(replace_all(text, seq!['\\', 'r', '\\', 'n'], newline()), seq!['\\', '\\', 'n'], newline()),
                    seq!['\\', 'n'],
                    newline(),
                ),
                seq!['\r', '\n'],
                newline(),
            ),
            seq!['\r'],
            newline(),
        );
        lemma_remove_all_free(e, '\\');
        assert(free_of(n, '\\'));
        let b = find_sub(n, begin_marker())->0;
        let start = b + begin_marker().len();
        lemma_find_sub_bound(n, begin_marker());
        lemma_find_sub_bound(n.skip(start), end_marker());
        let off = find_sub(n.skip(start), end_marker())->0;
        let inner = n.subrange(start, start + off);
        assert(free_of(inner, '\\'));
        lemma_lines_free(inner, '\\');
        lemma_clean_lines_free(lines_of(inner), '\\');
        lemma_join_free(clean_lines(lines_of(inner)), newline(), '\\');
        let body = join(clean_lines(lines_of(inner)), newline());
        let head = begin_marker() + newline();
        let tail = end_marker() + newline();
        assert(out =~= head + (body + newline()) + tail);
        assert(out.take(head.len() as int) =~= head);
        assert(out.skip(out.len() - tail.len()) =~= tail);
        assert forall|i: int| 0 <= i < out.len() implies out[i] != '\\' by {
            if i < head.len() {
                assert(out[i] == head[i]);
            } else if i < head.len() + body.len() {
                assert(out[i] == body[i - head.len()]);
            } else if i < head.len() + body.len() + 1 {
                assert(out[i] == '\n');
            } else {
                assert(out[i] == tail[i - head.len() - body.len() - 1]);
            }
        }
    }
}

// ---------------------------------------------------------------------------
// Normalizing twice
// ---------------------------------------------------------------------------

proof fn lemma_replace_absent(s: Seq<char>, pat: Seq<char>, to: Seq<char>)
    requires
        pat.len() > 0,
        free_of(s, pat[0]),
    ensures
        replace_all(s, pat, to) == s,
    decreases s.len(),
{
    if s.len() > 0 {
        assert(!starts_with(s, pat)) by {
            if starts_with(s, pat) {
                assert(s.take(pat.len() as int)[0] == s[0]);
            }
        }
        lemma_replace_absent(s.drop_first(), pat, to);
        assert(seq![s[0]] + s.drop_first() =~= s);
    }
}

proof fn lemma_replace_keeps_free(s: Seq<char>, pat: Seq<char>, to: Seq<char>, c: char)
    requires
        free_of(s, c),
        free_of(to, c),
    ensures
        free_of(replace_all(s, pat, to), c),
    decreases s.len(),
{
    if s.len() > 0 {
        let r = replace_all(s, pat, to);
        if pat.len() > 0 && starts_with(s, pat) {
            let rest = s.skip(pat.len() as int);
            lemma_replace_keeps_free(rest, pat, to, c);
            let rr = replace_all(rest, pat, to);
            assert forall|i: int| 0 <= i < r.len() implies r[i] != c by {
                if i < to.len() {
                    assert(r[i] == to[i]);
                } else {
                    assert(r[i] == rr[i - to.len()]);
                }
            }
        } else {
            lemma_replace_keeps_free(s.drop_first(), pat, to, c);
            let rr = replace_all(s.drop_first(), pat, to);
            assert forall|i: int| 0 <= i < r.len() implies r[i] != c by {
                if i > 0 {
                    assert(r[i] == rr[i - 1]);
                }
            }
        }
    }
}

proof fn lemma_replace_single_free(s: Seq<char>, c: char, to: Seq<char>)
    requires
        free_of(to, c),
    ensures
        free_of(replace_all(s, seq![c], to), c),
    decreases s.len(),
{
    if s.len() > 0 {
        let r = replace_all(s, seq![c], to);
        if starts_with(s, seq![c]) {
            lemma_replace_single_free(s.skip(1), c, to);
            let rr = replace_all(s.skip(1), seq![c], to);
            assert forall|i: int| 0 <= i < r.len() implies r[i] != c by {
                if i < to.len() {
                    assert(r[i] == to[i]);
                } else {
                    assert(r[i] == rr[i - to.len()]);
                }
            }
        } else {
            assert(s.take(1) =~= seq![s[0]]);
            lemma_replace_single_free(s.drop_first(), c, to);
            let rr = replace_all(s.drop_first(), seq![c], to);
            assert forall|i: int| 0 <= i < r.len() implies r[i] != c by {
                if i > 0 {
                    assert(r[i] == rr[i - 1]);
                }
            }
        }
    }
}

proof fn lemma_find_sub_first(s: Seq<char>, pat: Seq<char>)
    ensures
        find_sub(s, pat) matches Some(k) ==> forall|j: int|
            0 <= j < k ==> !starts_with(#[trigger] s.skip(j), pat),
    decreases s.len(),
{
    if !starts_with(s, pat) && s.len() > 0 {
        lemma_find_sub_first(s.drop_first(), pat);
        lemma_find_sub_bound(s, pat);
        if let Some(k) = find_sub(s, pat) {
            assert forall|j: int| 0 <= j < k implies !starts_with(#[trigger] s.skip(j), pat) by {
                if j == 0 {
                    assert(s.skip(0) =~= s);
                } else {
                    assert(s.drop_first().skip(j - 1) =~= s.skip(j));
                }
            }
        }
    }
}

proof fn lemma_find_sub_is(s: Seq<char>, pat: Seq<char>, k: int)
    requires
        0 <= k <= s.len(),
        forall|j: int| 0 <= j < k ==> !starts_with(#[trigger] s.skip(j), pat),
        starts_with(s.skip(k), pat),
    ensures
        find_sub(s, pat) == Some(k),
    decreases s.len(),
{
    if k == 0 {
        assert(s.skip(0) =~= s);
    } else {
        assert(s.skip(0) =~= s);
        assert(!starts_with(s, pat));
        let t = s.drop_first();
        assert forall|j: int| 0 <= j < k - 1 implies !starts_with(#[trigger] t.skip(j), pat) by {
            assert(t.skip(j) =~= s.skip(j + 1));
        }
        assert(t.skip(k - 1) =~= s.skip(k));
        lemma_find_sub_is(t, pat, k - 1);
    }
}

/// `pat` occurs in `s` at index `j`.
pub open spec fn occurs_at(s: Seq<char>, pat: Seq<char>, j: int) -> bool {
    0 <= j && j + pat.len() <= s.len() && s.subrange(j, j + pat.len()) == pat
}

/// `pat` occurs nowhere in `s`.
pub open spec fn no_occurrence(s: Seq<char>, pat: Seq<char>) -> bool {
    forall|j: int| !#[trigger] occurs_at(s, pat, j)
}

proof fn lemma_occurs_starts(s: Seq<char>, pat: Seq<char>, j: int)
    requires
        0 <= j <= s.len(),
    ensures
        occurs_at(s, pat, j) <==> starts_with(s.skip(j), pat),
{
    if j + pat.len() <= s.len() {
        assert(s.skip(j).take(pat.len() as int) =~= s.subrange(j, j + pat.len()));
    }
}

proof fn lemma_no_occurrence_subrange(s: Seq<char>, pat: Seq<char>, a: int, b: int)
    requires
        0 <= a <= b <= s.len(),
        no_occurrence(s, pat),
    ensures
        no_occurrence(s.subrange(a, b), pat),
{
    let t = s.subrange(a, b);
    assert forall|j: int| !#[trigger] occurs_at(t, pat, j) by {
        if occurs_at(t, pat, j) {
            assert(t.subrange(j, j + pat.len()) =~= s.subrange(a + j, a + j + pat.len()));
            assert(occurs_at(s, pat, a + j));
        }
    }
}

proof fn lemma_lines_no_occurrence(s: Seq<char>, pat: Seq<char>)
    requires
        no_occurrence(s, pat),
    ensures
        forall|i: int| 0 <= i < lines_of(s).len() ==> no_occurrence(#[trigger] lines_of(s)[i], pat),
    decreases s.len(),
{
    if s.len() > 0 {
        let k = crate::text::find_char(s, '\n');
        crate::text::lemma_find_char_props(s, '\n');
        if k < s.len() {
            lemma_no_occurrence_subrange(s, pat, k as int + 1, s.len() as int);
            assert(s.subrange(k as int + 1, s.len() as int) =~= s.skip(k as int + 1));
            lemma_lines_no_occurrence(s.skip(k as int + 1), pat);
            let first = s.take(k as int);
            lemma_no_occurrence_subrange(s, pat, 0, k as int);
            assert(s.subrange(0, k as int) =~= first);
            if first.len() > 0 && first.last() == '\r' {
                lemma_no_occurrence_subrange(first, pat, 0, first.len() - 1);
                assert(first.subrange(0, first.len() - 1) =~= first.drop_last());
            }
            assert forall|i: int| 0 <= i < lines_of(s).len() implies no_occurrence(
                #[trigger] lines_of(s)[i],
                pat,
            ) by {
                if i > 0 {
                    assert(lines_of(s)[i] == lines_of(s.skip(k as int + 1))[i - 1]);
                }
            }
        }
    }
}

proof fn lemma_lines_no_newline(s: Seq<char>)
    ensures
        forall|i: int| 0 <= i < lines_of(s).len() ==> free_of(#[trigger] lines_of(s)[i], '\n'),
    decreases s.len(),
{
    if s.len() > 0 {
        let k = crate::text::find_char(s, '\n');
        crate::text::lemma_find_char_props(s, '\n');
        if k < s.len() {
            lemma_lines_no_newline(s.skip(k as int + 1));
            let first = s.take(k as int);
            assert(free_of(first, '\n'));
            assert(free_of(strip_cr(first), '\n'));
            assert forall|i: int| 0 <= i < lines_of(s).len() implies free_of(
                #[trigger] lines_of(s)[i],
                '\n',
            ) by {
                if i > 0 {
                    assert(lines_of(s)[i] == lines_of(s.skip(k as int + 1))[i - 1]);
                }
            }
        }
    }
}

proof fn lemma_trim_no_occurrence(s: Seq<char>, pat: Seq<char>)
    requires
        no_occurrence(s, pat),
    ensures
        no_occurrence(trim(s), pat),
{
    lemma_trim_start_no_occurrence(s, pat);
    lemma_trim_end_no_occurrence(trim_start(s), pat);
}

proof fn lemma_trim_start_no_occurrence(s: Seq<char>, pat: Seq<char>)
    requires
        no_occurrence(s, pat),
    ensures
        no_occurrence(trim_start(s), pat),
    decreases s.len(),
{
    if s.len() > 0 && crate::text::is_white_space(s[0]) {
        lemma_no_occurrence_subrange(s, pat, 1, s.len() as int);
        assert(s.subrange(1, s.len() as int) =~= s.drop_first());
        lemma_trim_start_no_occurrence(s.drop_first(), pat);
    }
}

proof fn lemma_trim_end_no_occurrence(s: Seq<char>, pat: Seq<char>)
    requires
        no_occurrence(s, pat),
    ensures
        no_occurrence(trim_end(s), pat),
    decreases s.len(),
{
    if s.len() > 0 && crate::text::is_white_space(s.last()) {
        lemma_no_occurrence_subrange(s, pat, 0, s.len() - 1);
        assert(s.subrange(0, s.len() - 1) =~= s.drop_last());
        lemma_trim_end_no_occurrence(s.drop_last(), pat);
    }
}

proof fn lemma_clean_lines_no_occurrence(ls: Seq<Seq<char>>, pat: Seq<char>)
    requires
        forall|i: int| 0 <= i < ls.len() ==> no_occurrence(#[trigger] ls[i], pat),
    ensures
        forall|i: int| 0 <= i < clean_lines(ls).len() ==> no_occurrence(
            #[trigger] clean_lines(ls)[i],
            pat,
        ),
    decreases ls.len(),
{
    if ls.len() > 0 {
        lemma_clean_lines_no_occurrence(ls.drop_last(), pat);
        let last = ls[ls.len() - 1];
        lemma_trim_no_occurrence(last, pat);
        let t = trim(last);
        if t.len() > 0 && t.last() == '\\' {
            lemma_no_occurrence_subrange(t, pat, 0, t.len() - 1);
            assert(t.subrange(0, t.len() - 1) =~= t.drop_last());
        }
        let earlier = clean_lines(ls.drop_last());
        assert forall|i: int| 0 <= i < clean_lines(ls).len() implies no_occurrence(
            #[trigger] clean_lines(ls)[i],
            pat,
        ) by {
            if i < earlier.len() {
                assert(clean_lines(ls)[i] == earlier[i]);
            }
        }
    }
}

proof fn lemma_join_no_occurrence(parts: Seq<Seq<char>>, pat: Seq<char>)
    requires
        pat.len() > 0,
        free_of(pat, '\n'),
        forall|i: int| 0 <= i < parts.len() ==> no_occurrence(#[trigger] parts[i], pat),
    ensures
        no_occurrence(join(parts, newline()), pat),
    decreases parts.len(),
{
    if parts.len() == 1 {
        assert(no_occurrence(parts[0], pat));
    } else if parts.len() > 1 {
        let front = parts.drop_last();
        lemma_join_no_occurrence(front, pat);
        let jf = join(front, newline());
        let last = parts[parts.len() - 1];
        assert(no_occurrence(last, pat));
        let r = jf + newline() + last;
        assert(join(parts, newline()) == r);
        assert forall|j: int| !#[trigger] occurs_at(r, pat, j) by {
            if occurs_at(r, pat, j) {
                let m = pat.len() as int;
                if j + m <= jf.len() {
                    assert(r.subrange(j, j + m) =~= jf.subrange(j, j + m));
                    assert(occurs_at(jf, pat, j));
                } else if j >= jf.len() + 1 {
                    let jj = j - jf.len() - 1;
                    assert(r.subrange(j, j + m) =~= last.subrange(jj, jj + m));
                    assert(occurs_at(last, pat, jj));
                } else {
                    let d = jf.len() - j;
                    assert(r.subrange(j, j + m)[d] == r[jf.len() as int]);
                    assert(r[jf.len() as int] == '\n');
                    assert(pat[d] == '\n');
                }
            }
        }
    }
}

/// A line as cleaning leaves it: not empty, no white space at either end,
/// and no backslash, line feed or carriage return.
pub open spec fn is_clean_line(p: Seq<char>) -> bool {
    &&& p.len() > 0
    &&& !crate::text::is_white_space(p[0])
    &&& !crate::text::is_white_space(p.last())
    &&& free_of(p, '\\')
    &&& free_of(p, '\n')
    &&& free_of(p, '\r')
}

proof fn lemma_trim_start_head(s: Seq<char>)
    ensures
        trim_start(s).len() > 0 ==> !crate::text::is_white_space(trim_start(s)[0]),
    decreases s.len(),
{
    if s.len() > 0 && crate::text::is_white_space(s[0]) {
        lemma_trim_start_head(s.drop_first());
    }
}

proof fn lemma_trim_end_shape(t: Seq<char>)
    ensures
        trim_end(t).len() <= t.len(),
        trim_end(t).len() > 0 ==> !crate::text::is_white_space(trim_end(t).last()) && trim_end(
            t,
        )[0] == t[0],
    decreases t.len(),
{
    if t.len() > 0 && crate::text::is_white_space(t.last()) {
        lemma_trim_end_shape(t.drop_last());
    }
}

proof fn lemma_clean_lines_clean(ls: Seq<Seq<char>>)
    requires
        forall|i: int|
            0 <= i < ls.len() ==> free_of(#[trigger] ls[i], '\\') && free_of(ls[i], '\n')
                && free_of(ls[i], '\r'),
    ensures
        forall|i: int| 0 <= i < clean_lines(ls).len() ==> is_clean_line(#[trigger] clean_lines(ls)[i]),
    decreases ls.len(),
{
    if ls.len() > 0 {
        lemma_clean_lines_clean(ls.drop_last());
        let last = ls[ls.len() - 1];
        lemma_trim_free(last, '\\');
        lemma_trim_free(last, '\n');
        lemma_trim_free(last, '\r');
        lemma_trim_start_head(last);
        lemma_trim_end_shape(trim_start(last));
        let earlier = clean_lines(ls.drop_last());
        assert forall|i: int| 0 <= i < clean_lines(ls).len() implies is_clean_line(
            #[trigger] clean_lines(ls)[i],
        ) by {
            if i < earlier.len() {
                assert(clean_lines(ls)[i] == earlier[i]);
            }
        }
    }
}

proof fn lemma_clean_of_clean(parts: Seq<Seq<char>>)
    requires
        forall|i: int| 0 <= i < parts.len() ==> is_clean_line(#[trigger] parts[i]),
    ensures
        clean_lines(parts) == parts,
    decreases parts.len(),
{
    if parts.len() > 0 {
        lemma_clean_of_clean(parts.drop_last());
        let last = parts[parts.len() - 1];
        assert(is_clean_line(last));
        assert(trim_start(last) == last);
        assert(trim_end(last) == last);
        assert(parts.drop_last().push(last) =~= parts);
    }
}

proof fn lemma_clean_skip_empty(ps: Seq<Seq<char>>)
    ensures
        clean_lines(seq![Seq::<char>::empty()] + ps) == clean_lines(ps),
    decreases ps.len(),
{
    let e = Seq::<char>::empty();
    if ps.len() == 0 {
        assert(seq![e] + ps =~= seq![e]);
        assert(seq![e].drop_last() =~= Seq::<Seq<char>>::empty());
        assert(trim_start(e) == e);
        assert(trim_end(e) == e);
        assert(trim(e).len() == 0);
        assert(seq![e].last() == e);
        assert(clean_lines(Seq::<Seq<char>>::empty()) == Seq::<Seq<char>>::empty());
        assert(clean_lines(seq![e]) == Seq::<Seq<char>>::empty());
    } else {
        lemma_clean_skip_empty(ps.drop_last());
        assert((seq![e] + ps).drop_last() =~= seq![e] + ps.drop_last());
        assert((seq![e] + ps).last() == ps.last());
    }
}

proof fn lemma_lines_single(p: Seq<char>)
    requires
        free_of(p, '\n'),
        free_of(p, '\r'),
    ensures
        lines_of(p + newline()) == seq![p],
{
    let s = p + newline();
    assert forall|j: int| 0 <= j < p.len() implies s[j] != '\n' by {
        assert(s[j] == p[j]);
    }
    crate::text::lemma_find_char(s, '\n', p.len());
    assert(s.take(p.len() as int) =~= p);
    assert(s.skip(p.len() as int + 1) =~= Seq::<char>::empty());
    assert(lines_of(Seq::<char>::empty()) =~= Seq::<Seq<char>>::empty());
    if p.len() > 0 {
        assert(p.last() != '\r');
    }
    assert(strip_cr(p) == p);
    assert(lines_of(s) =~= seq![p]);
}

proof fn lemma_lines_of_joined(parts: Seq<Seq<char>>)
    requires
        parts.len() > 0,
        forall|i: int| 0 <= i < parts.len() ==> free_of(#[trigger] parts[i], '\n') && free_of(
            parts[i],
            '\r',
        ),
    ensures
        lines_of(join(parts, newline()) + newline()) == parts,
    decreases parts.len(),
{
    if parts.len() == 1 {
        assert(free_of(parts[0], '\n') && free_of(parts[0], '\r'));
        lemma_lines_single(parts[0]);
        assert(seq![parts[0]] =~= parts);
    } else {
        let front = parts.drop_last();
        let last = parts[parts.len() - 1];
        assert(free_of(last, '\n') && free_of(last, '\r'));
        lemma_lines_of_joined(front);
        let a = join(front, newline()) + newline();
        let b = last + newline();
        assert(join(parts, newline()) + newline() =~= a + b);
        crate::text::lemma_lines_concat(a, b);
        lemma_lines_single(last);
        assert(front + seq![last] =~= parts);
    }
}

/// The block rebuilt around the given body.
pub open spec fn framed(body: Seq<char>) -> Seq<char> {
    begin_marker() + newline() + body + newline() + end_marker() + newline()
}

proof fn lemma_markers()
    ensures
        begin_marker().len() > 0,
        free_of(begin_marker(), '\\'),
        free_of(begin_marker(), '\r'),
        end_marker().len() > 0,
        end_marker()[0] == '-',
        free_of(end_marker(), '\\'),
        free_of(end_marker(), '\r'),
        free_of(end_marker(), '\n'),
{
    reveal_strlit("-----BEGIN PGP PUBLIC KEY BLOCK-----");
    reveal_strlit("-----END PGP PUBLIC KEY BLOCK-----");
}

/// A successful normalization is the frame around joined clean lines in
/// which the end marker does not occur.
proof fn lemma_armor_parts(text: Seq<char>) -> (cl: Seq<Seq<char>>)
    requires
        normalized_armor(text) is Ok,
    ensures
        normalized_armor(text) == Ok::<Seq<char>, ArmorError>(framed(join(cl, newline()))),
        forall|i: int| 0 <= i < cl.len() ==> is_clean_line(#[trigger] cl[i]),
        no_occurrence(join(cl, newline()), end_marker()),
{
    lemma_markers();
    let bm = begin_marker();
    let em = end_marker();
    let nl = newline();
    let p1 = seq!['\\', 'r', '\\', 'n'];
    let p2 = seq!['\\', '\\', 'n'];
    let p3 = seq!['\\', 'n'];
    let p4 = seq!['\r', '\n'];
    let p5 = seq!['\r'];
    let p6 = seq!['\\'];
    let d = replace_all(replace_all(replace_all(replace_all(text, p1, nl), p2, nl), p3, nl), p4, nl);
    let e = replace_all(d, p5, nl);
    let n = replace_all(e, p6, seq![]);
    assert(n == unescape_line_endings(text));
    lemma_replace_single_free(d, '\r', nl);
    lemma_replace_keeps_free(e, p6, seq![], '\r');
    lemma_remove_all_free(e, '\\');
    let bpos = find_sub(n, bm)->0;
    let start = bpos + bm.len();
    lemma_find_sub_bound(n, bm);
    let rest = n.skip(start);
    lemma_find_sub_bound(rest, em);
    lemma_find_sub_first(rest, em);
    let off = find_sub(rest, em)->0;
    let inner = n.subrange(start, start + off);
    assert(inner =~= rest.subrange(0, off));
    assert forall|j: int| !#[trigger] occurs_at(inner, em, j) by {
        if occurs_at(inner, em, j) {
            assert(rest.subrange(j, j + em.len()) =~= inner.subrange(j, j + em.len()));
            assert(occurs_at(rest, em, j));
            lemma_occurs_starts(rest, em, j);
        }
    }
    assert(free_of(inner, '\\') && free_of(inner, '\r'));
    let ls = lines_of(inner);
    lemma_lines_free(inner, '\\');
    lemma_lines_free(inner, '\r');
    lemma_lines_no_newline(inner);
    lemma_lines_no_occurrence(inner, em);
    let cl = clean_lines(ls);
    lemma_clean_lines_clean(ls);
    lemma_clean_lines_no_occurrence(ls, em);
    lemma_join_no_occurrence(cl, em);
    cl
}

proof fn lemma_framed_free(cl: Seq<Seq<char>>, c: char)
    requires
        forall|i: int| 0 <= i < cl.len() ==> is_clean_line(#[trigger] cl[i]),
        c == '\\' || c == '\r',
    ensures
        free_of(framed(join(cl, newline())), c),
{
    lemma_markers();
    let bm = begin_marker();
    let em = end_marker();
    assert forall|i: int| 0 <= i < cl.len() implies free_of(#[trigger] cl[i], c) by {
        assert(is_clean_line(cl[i]));
    }
    lemma_join_free(cl, newline(), c);
    let body = join(cl, newline());
    let out = framed(body);
    assert forall|i: int| 0 <= i < out.len() implies out[i] != c by {
        if i < bm.len() {
            assert(out[i] == bm[i]);
        } else if i < bm.len() + 1 {
            assert(out[i] == '\n');
        } else if i < bm.len() + 1 + body.len() {
            assert(out[i] == body[i - bm.len() - 1]);
        } else if i < bm.len() + 2 + body.len() {
            assert(out[i] == '\n');
        } else if i < bm.len() + 2 + body.len() + em.len() {
            assert(out[i] == em[i - bm.len() - 2 - body.len()]);
        } else {
            assert(out[i] == '\n');
        }
    }
}

proof fn lemma_framed_unescaped(cl: Seq<Seq<char>>)
    requires
        forall|i: int| 0 <= i < cl.len() ==> is_clean_line(#[trigger] cl[i]),
    ensures
        unescape_line_endings(framed(join(cl, newline()))) == framed(join(cl, newline())),
{
    let out = framed(join(cl, newline()));
    let nl = newline();
    lemma_framed_free(cl, '\\');
    lemma_framed_free(cl, '\r');
    lemma_replace_absent(out, seq!['\\', 'r', '\\', 'n'], nl);
    lemma_replace_absent(out, seq!['\\', '\\', 'n'], nl);
    lemma_replace_absent(out, seq!['\\', 'n'], nl);
    lemma_replace_absent(out, seq!['\r', '\n'], nl);
    lemma_replace_absent(out, seq!['\r'], nl);
    lemma_replace_absent(out, seq!['\\'], seq![]);
}

proof fn lemma_framed_end(body: Seq<char>)
    requires
        no_occurrence(body, end_marker()),
    ensures
        find_sub(framed(body).skip(begin_marker().len() as int), end_marker()) == Some(
            body.len() as int + 2,
        ),
{
    lemma_markers();
    let bm = begin_marker();
    let em = end_marker();
    let nl = newline();
    let t = framed(body).skip(bm.len() as int);
    assert(t =~= nl + body + nl + em + nl);
    let k: int = body.len() as int + 2;
    assert forall|j: int| 0 <= j < k implies !starts_with(#[trigger] t.skip(j), em) by {
        lemma_occurs_starts(t, em, j);
        if occurs_at(t, em, j) {
            let m = em.len() as int;
            if j == 0 {
                assert(t.subrange(0, m)[0] == t[0]);
            } else if j + m <= body.len() + 1 {
                assert(t.subrange(j, j + m) =~= body.subrange(j - 1, j - 1 + m));
                assert(occurs_at(body, em, j - 1));
            } else {
                let d = body.len() + 1 - j;
                assert(t.subrange(j, j + m)[d] == t[body.len() as int + 1]);
                assert(em[d] == '\n');
            }
        }
    }
    assert(t.skip(k).take(em.len() as int) =~= em);
    lemma_find_sub_is(t, em, k);
}

proof fn lemma_framed_lines(cl: Seq<Seq<char>>)
    requires
        forall|i: int| 0 <= i < cl.len() ==> is_clean_line(#[trigger] cl[i]),
    ensures
        clean_lines(lines_of(newline() + join(cl, newline()) + newline())) == cl,
{
    let nl = newline();
    let body = join(cl, nl);
    let inner = nl + body + nl;
    assert(inner =~= nl + (body + nl));
    crate::text::lemma_find_char(inner, '\n', 0);
    assert(inner.skip(1) =~= body + nl);
    assert(strip_cr(inner.take(0)) =~= Seq::<char>::empty());
    assert(lines_of(inner) == seq![Seq::<char>::empty()] + lines_of(body + nl));
    lemma_clean_skip_empty(lines_of(body + nl));
    if cl.len() == 0 {
        assert(body =~= Seq::<char>::empty());
        assert(body + nl =~= nl);
        crate::text::lemma_find_char(nl, '\n', 0);
        assert(nl.skip(1) =~= Seq::<char>::empty());
        assert(nl.take(0) =~= Seq::<char>::empty());
        assert(lines_of(Seq::<char>::empty()) =~= Seq::<Seq<char>>::empty());
        assert(lines_of(nl) =~= seq![Seq::<char>::empty()] + Seq::<Seq<char>>::empty());
        lemma_clean_skip_empty(Seq::<Seq<char>>::empty());
        assert(clean_lines(Seq::<Seq<char>>::empty()) == Seq::<Seq<char>>::empty());
    } else {
        assert forall|i: int| 0 <= i < cl.len() implies free_of(#[trigger] cl[i], '\n')
            && free_of(cl[i], '\r') by {
            assert(is_clean_line(cl[i]));
        }
        lemma_lines_of_joined(cl);
        lemma_clean_of_clean(cl);
    }
}

/// Normalizing a normalized block gives the same block.
pub proof fn lemma_normalize_idempotent(text: Seq<char>)
    ensures
        normalized_armor(text) matches Ok(out) ==> normalized_armor(out) == Ok::<
            Seq<char>,
            ArmorError,
        >(out),
{
    if normalized_armor(text) is Ok {
        let cl = lemma_armor_parts(text);
        let body = join(cl, newline());
        let out = framed(body);
        lemma_markers();
        lemma_framed_unescaped(cl);
        assert(out.take(begin_marker().len() as int) =~= begin_marker());
        assert(find_sub(out, begin_marker()) == Some(0int));
        lemma_framed_end(body);
        let start: int = begin_marker().len() as int;
        assert(out.subrange(start, start + body.len() + 2) =~= newline() + body + newline());
        lemma_framed_lines(cl);
    }
}

} // verus!
