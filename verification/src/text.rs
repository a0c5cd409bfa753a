//! Character-level string operations used by the configuration reader and the
//! message formatter, each proved against a spec function over `Seq<char>`.
use vstd::prelude::*;
use vstd::string::*;

verus! {

/// White space in the sense of `char::is_whitespace`: the characters that carry the
/// Unicode `White_Space` property.
pub open spec fn is_white_space(c: char) -> bool {
    ||| c == ' '
    ||| ('\u{9}' <= c && c <= '\u{d}')
    ||| c == '\u{85}'
    ||| c == '\u{a0}'
    ||| c == '\u{1680}'
    ||| ('\u{2000}' <= c && c <= '\u{200a}')
    ||| c == '\u{2028}'
    ||| c == '\u{2029}'
    ||| c == '\u{202f}'
    ||| c == '\u{205f}'
    ||| c == '\u{3000}'
}

/// `s` without its leading white space.
pub open spec fn trim_start(s: Seq<char>) -> Seq<char>
    decreases s.len(),
{
    if s.len() > 0 && is_white_space(s[0]) {
        trim_start(s.drop_first())
    } else {
        s
    }
}

/// `s` without its trailing white space.
pub open spec fn trim_end(s: Seq<char>) -> Seq<char>
    decreases s.len(),
{
    if s.len() > 0 && is_white_space(s.last()) {
        trim_end(s.drop_last())
    } else {
        s
    }
}

/// `s` without leading and trailing white space, as `str::trim` gives it.
pub open spec fn trim(s: Seq<char>) -> Seq<char> {
    trim_end(trim_start(s))
}

/// Every non-overlapping occurrence of `pat` in `s`, found from the left, replaced by
/// `rep`, as `str::replace` gives it for a non-empty pattern.
pub open spec fn replace_all(s: Seq<char>, pat: Seq<char>, rep: Seq<char>) -> Seq<char>
    recommends
        pat.len() > 0,
    decreases s.len(),
{
    if pat.len() == 0 || s.len() < pat.len() {
        s
    } else if s.take(pat.len() as int) == pat {
        rep + replace_all(s.skip(pat.len() as int), pat, rep)
    } else {
        seq![s[0]] + replace_all(s.drop_first(), pat, rep)
    }
}

/// The character that a backtick becomes in message text.
pub open spec fn mask_char(c: char) -> char {
    if c == '`' {
        '~'
    } else {
        c
    }
}

/// `s` with every backtick replaced by a tilde.
pub open spec fn mask_backticks(s: Seq<char>) -> Seq<char> {
    s.map_values(|c: char| mask_char(c))
}

/// The pieces of `s` between line feeds, in order: one more piece than `s` has line feeds.
pub open spec fn split_lines(s: Seq<char>) -> Seq<Seq<char>>
    decreases s.len(),
{
    if s.len() == 0 {
        seq![Seq::<char>::empty()]
    } else {
        let prev = split_lines(s.drop_last());
        if s.last() == '\n' {
            prev.push(Seq::<char>::empty())
        } else {
            prev.update(prev.len() - 1, prev.last().push(s.last()))
        }
    }
}

/// The views of a sequence of strings.
pub open spec fn texts(v: Seq<String>) -> Seq<Seq<char>> {
    v.map_values(|s: String| s@)
}

pub proof fn lemma_split_lines_nonempty(s: Seq<char>)
    ensures
        split_lines(s).len() >= 1,
    decreases s.len(),
{
    if s.len() > 0 {
        lemma_split_lines_nonempty(s.drop_last());
    }
}

/// Replacing in `s` from position `i` on: a position where `pat` does not start
/// contributes its own character.
proof fn lemma_replace_step(s: Seq<char>, pat: Seq<char>, rep: Seq<char>, i: int)
    requires
        pat.len() > 0,
        0 <= i < s.len(),
        !(i + pat.len() <= s.len() && s.subrange(i, i + pat.len()) == pat),
    ensures
        replace_all(s.skip(i), pat, rep) == seq![s[i]] + replace_all(s.skip(i + 1), pat, rep),
{
    let t = s.skip(i);
    assert(t.drop_first() =~= s.skip(i + 1));
    if t.len() >= pat.len() {
        assert(t.take(pat.len() as int) =~= s.subrange(i, i + pat.len()));
    } else {
        assert(replace_all(s.skip(i + 1), pat, rep) == s.skip(i + 1));
        assert(t =~= seq![s[i]] + s.skip(i + 1));
    }
}

/// The characters of `s`, one per element.
pub fn chars_of(s: &str) -> (v: Vec<char>)
    ensures
        v@ == s@,
{
    let n = s.unicode_len();
    let mut v: Vec<char> = Vec::new();
    let mut i: usize = 0;
    while i < n
        invariant
            n == s@.len(),
            i <= n,
            v@ == s@.take(i as int),
        decreases n - i,
    {
        v.push(s.get_char(i));
        i = i + 1;
        assert(v@ =~= s@.take(i as int));
    }
    assert(v@ =~= s@);
    v
}

/// Whether `c` is white space, as `char::is_whitespace` decides it.
pub fn is_white_space_char(c: char) -> (b: bool)
    ensures
        b == is_white_space(c),
{
    c == ' ' || ('\u{9}' <= c && c <= '\u{d}') || c == '\u{85}' || c == '\u{a0}' || c
        == '\u{1680}' || ('\u{2000}' <= c && c <= '\u{200a}') || c == '\u{2028}' || c
        == '\u{2029}' || c == '\u{202f}' || c == '\u{205f}' || c == '\u{3000}'
}

/// `s` without leading and trailing white space.
pub fn trim_str(s: &str) -> (t: String)
    ensures
        t@ == trim(s@),
{
    let chars = chars_of(s);
    let n = chars.len();
    let mut a: usize = 0;
    assert(s@.skip(0) =~= s@);
    while a < n && is_white_space_char(chars[a])
        invariant
            n == s@.len(),
            chars@ == s@,
            a <= n,
            trim_start(s@) == trim_start(s@.skip(a as int)),
        decreases n - a,
    {
        assert(s@.skip(a as int).drop_first() =~= s@.skip(a + 1));
        a = a + 1;
    }
    assert(trim_start(s@) == s@.skip(a as int)) by {
        if a == n {
            assert(s@.skip(a as int).len() == 0);
        }
    }
    let mut b: usize = n;
    while b > a && is_white_space_char(chars[b - 1])
        invariant
            n == s@.len(),
            chars@ == s@,
            a <= b <= n,
            trim_end(s@.skip(a as int)) == trim_end(s@.subrange(a as int, b as int)),
        decreases b,
    {
        assert(s@.subrange(a as int, b as int).drop_last() =~= s@.subrange(a as int, b - 1));
        b = b - 1;
    }
    assert(s@.skip(a as int) =~= s@.subrange(a as int, n as int));
    String::from_str(s.substring_char(a, b))
}

/// Whether `pat` occurs in `text` at position `i`.
fn occurs_at(text: &Vec<char>, pat: &Vec<char>, i: usize) -> (b: bool)
    requires
        i + pat.len() <= text.len(),
    ensures
        b == (text@.subrange(i as int, i + pat.len()) == pat@),
{
    let m = pat.len();
    let mut k: usize = 0;
    while k < m
        invariant
            m == pat.len(),
            i + m <= text.len(),
            k <= m,
            text@.subrange(i as int, i + k) == pat@.take(k as int),
        decreases m - k,
    {
        if text[i + k] != pat[k] {
            assert(text@.subrange(i as int, i + m)[k as int] != pat@[k as int]);
            return false;
        }
        k = k + 1;
        assert(text@.subrange(i as int, i + k) =~= pat@.take(k as int));
    }
    assert(pat@.take(m as int) =~= pat@);
    true
}

/// `s` with every non-overlapping occurrence of `pat`, from the left, replaced by `rep`.
pub fn replace_str(s: &str, pat: &str, rep: &str) -> (r: String)
    requires
        pat@.len() > 0,
    ensures
        r@ == replace_all(s@, pat@, rep@),
{
    let sc = chars_of(s);
    let pc = chars_of(pat);
    let n = sc.len();
    let m = pc.len();
    let mut out = String::new();
    let mut start: usize = 0;
    let mut i: usize = 0;
    assert(s@.skip(0) =~= s@);
    assert(out@ + s@.subrange(0, 0) =~= Seq::<char>::empty());
    while i < n
        invariant
            n == s@.len(),
            m == pat@.len(),
            m > 0,
            sc@ == s@,
            pc@ == pat@,
            start <= i <= n,
            out@ + s@.subrange(start as int, i as int) + replace_all(s@.skip(i as int), pat@, rep@)
                == replace_all(s@, pat@, rep@),
        decreases n - i,
    {
        if m <= n - i && occurs_at(&sc, &pc, i) {
            proof {
                let t = s@.skip(i as int);
                assert(t.take(m as int) =~= s@.subrange(i as int, i + m));
                assert(t.skip(m as int) =~= s@.skip(i + m));
            }
            out.append(s.substring_char(start, i));
            out.append(rep);
            i = i + m;
            start = i;
            assert(s@.subrange(start as int, i as int) =~= Seq::<char>::empty());
        } else {
            proof {
                lemma_replace_step(s@, pat@, rep@, i as int);
                assert(s@.subrange(start as int, i as int) + seq![s@[i as int]] =~= s@.subrange(
                    start as int,
                    i + 1,
                ));
            }
            i = i + 1;
        }
    }
    assert(s@.skip(n as int) =~= Seq::<char>::empty());
    out.append(s.substring_char(start, n));
    out
}

/// `s` with every backtick replaced by a tilde.
pub fn mask_backticks_str(s: &str) -> (r: String)
    ensures
        r@ == mask_backticks(s@),
{
    let sc = chars_of(s);
    let n = sc.len();
    let mut out = String::new();
    let mut start: usize = 0;
    let mut i: usize = 0;
    assert(out@ + s@.subrange(0, 0) =~= mask_backticks(s@.take(0)));
    while i < n
        invariant
            n == s@.len(),
            sc@ == s@,
            start <= i <= n,
            out@ + s@.subrange(start as int, i as int) == mask_backticks(s@.take(i as int)),
        decreases n - i,
    {
        let ghost before = out@ + s@.subrange(start as int, i as int);
        assert(mask_backticks(s@.take(i + 1)) =~= mask_backticks(s@.take(i as int)).push(
            mask_char(s@[i as int]),
        ));
        if sc[i] == '`' {
            out.append(s.substring_char(start, i));
            out.append("~");
            proof {
                reveal_strlit("~");
                assert("~"@.len() == 1);
                assert("~"@[0] == '~');
                assert("~"@ =~= seq!['~']);
            }
            assert(out@ =~= before.push('~'));
            i = i + 1;
            start = i;
            assert(s@.subrange(start as int, i as int) =~= Seq::<char>::empty());
        } else {
            i = i + 1;
            assert(s@.subrange(start as int, i as int) =~= s@.subrange(start as int, i - 1).push(
                s@[i - 1],
            ));
        }
        assert(out@ + s@.subrange(start as int, i as int) =~= mask_backticks(s@.take(i as int)));
    }
    out.append(s.substring_char(start, n));
    assert(s@.take(n as int) =~= s@);
    out
}

/// The pieces of `s` between line feeds.
pub fn split_lines_str(s: &str) -> (lines: Vec<String>)
    ensures
        texts(lines@) == split_lines(s@),
{
    let sc = chars_of(s);
    let n = sc.len();
    let mut lines: Vec<String> = Vec::new();
    let mut start: usize = 0;
    let mut i: usize = 0;
    assert(s@.take(0) =~= Seq::<char>::empty());
    assert(texts(lines@).push(s@.subrange(0, 0)) =~= seq![Seq::<char>::empty()]);
    while i < n
        invariant
            n == s@.len(),
            sc@ == s@,
            start <= i <= n,
            texts(lines@).push(s@.subrange(start as int, i as int)) == split_lines(
                s@.take(i as int),
            ),
        decreases n - i,
    {
        let ghost old_texts = texts(lines@);
        let ghost piece = s@.subrange(start as int, i as int);
        proof {
            let t = s@.take(i + 1);
            assert(t.drop_last() =~= s@.take(i as int));
            assert(t.last() == s@[i as int]);
            lemma_split_lines_nonempty(s@.take(i as int));
        }
        if sc[i] == '\n' {
            lines.push(String::from_str(s.substring_char(start, i)));
            assert(texts(lines@) =~= old_texts.push(piece));
            i = i + 1;
            start = i;
            assert(s@.subrange(start as int, i as int) =~= Seq::<char>::empty());
        } else {
            i = i + 1;
            assert(s@.subrange(start as int, i as int) =~= piece.push(s@[i - 1]));
        }
        assert(texts(lines@).push(s@.subrange(start as int, i as int)) =~= split_lines(
            s@.take(i as int),
        ));
    }
    let ghost old_texts = texts(lines@);
    lines.push(String::from_str(s.substring_char(start, n)));
    assert(texts(lines@) =~= old_texts.push(s@.subrange(start as int, n as int)));
    assert(s@.take(n as int) =~= s@);
    assert(texts(lines@) =~= split_lines(s@));
    lines
}

/// Whether `pat` occurs in `s` at position `i`.
pub open spec fn pattern_at(s: Seq<char>, pat: Seq<char>, i: int) -> bool {
    0 <= i && i + pat.len() <= s.len() && s.subrange(i, i + pat.len()) == pat
}

/// A log line shown in a code block cannot close the block early: after masking, no
/// backtick is left, the length is kept, and every other character stays where it was.
pub proof fn lemma_mask_removes_backticks(s: Seq<char>)
    ensures
        mask_backticks(s).len() == s.len(),
        forall|i: int| 0 <= i < s.len() ==> #[trigger] mask_backticks(s)[i] != '`',
        forall|i: int| 0 <= i < s.len() && s[i] != '`' ==> #[trigger] mask_backticks(s)[i] == s[i],
        forall|i: int| 0 <= i < s.len() && s[i] == '`' ==> #[trigger] mask_backticks(s)[i] == '~',
{
}

/// Replacing a pattern that does not occur leaves the text as it is.
pub proof fn lemma_replace_absent(s: Seq<char>, pat: Seq<char>, rep: Seq<char>)
    requires
        pat.len() > 0,
        forall|i: int| !#[trigger] pattern_at(s, pat, i),
    ensures
        replace_all(s, pat, rep) == s,
    decreases s.len(),
{
    if s.len() >= pat.len() {
        assert(s.take(pat.len() as int) =~= s.subrange(0, pat.len() as int));
        let t = s.drop_first();
        assert(!pattern_at(s, pat, 0));
        assert forall|i: int| !#[trigger] pattern_at(t, pat, i) by {
            if 0 <= i && i + pat.len() <= t.len() {
                assert(t.subrange(i, i + pat.len()) =~= s.subrange(i + 1, i + 1 + pat.len()));
                assert(!pattern_at(s, pat, i + 1));
            }
        }
        lemma_replace_absent(t, pat, rep);
        assert(seq![s[0]] + t =~= s);
    }
}

/// Splitting at a line feed: the lines of `x + "\n" + y` are those of `x` followed by
/// those of `y`.
pub proof fn lemma_split_lines_concat(x: Seq<char>, y: Seq<char>)
    ensures
        split_lines(x + seq!['\n'] + y) == split_lines(x) + split_lines(y),
    decreases y.len(),
{
    let z = x + seq!['\n'] + y;
    if y.len() == 0 {
        assert(z =~= x.push('\n'));
        assert(z.drop_last() =~= x);
        assert(split_lines(x).push(Seq::<char>::empty()) =~= split_lines(x) + seq![
            Seq::<char>::empty(),
        ]);
    } else {
        let y0 = y.drop_last();
        lemma_split_lines_concat(x, y0);
        lemma_split_lines_nonempty(y0);
        assert(z.drop_last() =~= x + seq!['\n'] + y0);
        assert(z.last() == y.last());
        let a = split_lines(x);
        let b = split_lines(y0);
        if y.last() == '\n' {
            assert((a + b).push(Seq::<char>::empty()) =~= a + b.push(Seq::<char>::empty()));
        } else {
            assert((a + b).last() == b.last());
            assert((a + b).update((a + b).len() - 1, b.last().push(y.last())) =~= a + b.update(
                b.len() - 1,
                b.last().push(y.last()),
            ));
        }
    }
}

/// A text without line feeds is a single line.
pub proof fn lemma_split_lines_single(l: Seq<char>)
    requires
        forall|i: int| 0 <= i < l.len() ==> l[i] != '\n',
    ensures
        split_lines(l) == seq![l],
    decreases l.len(),
{
    if l.len() > 0 {
        let l0 = l.drop_last();
        assert forall|i: int| 0 <= i < l0.len() implies l0[i] != '\n' by {
            assert(l0[i] == l[i]);
        }
        lemma_split_lines_single(l0);
        assert(l.last() == l[l.len() - 1]);
        assert(l0.push(l.last()) =~= l);
        assert(seq![l0].update(0, l0.push(l.last())) =~= seq![l]);
    } else {
        assert(l =~= Seq::<char>::empty());
        assert(seq![Seq::<char>::empty()] =~= seq![l]);
    }
}

/// A trimmed text that is not empty starts with a character that is not white space.
pub proof fn lemma_trim_first_not_white(s: Seq<char>)
    ensures
        trim(s).len() > 0 ==> !is_white_space(trim(s)[0]),
{
    lemma_trim_start_first(s);
    lemma_trim_end_prefix(trim_start(s));
}

proof fn lemma_trim_start_first(s: Seq<char>)
    ensures
        trim_start(s).len() > 0 ==> !is_white_space(trim_start(s)[0]),
    decreases s.len(),
{
    if s.len() > 0 && is_white_space(s[0]) {
        lemma_trim_start_first(s.drop_first());
    }
}

proof fn lemma_trim_end_prefix(s: Seq<char>)
    ensures
        trim_end(s).len() <= s.len(),
        forall|i: int| 0 <= i < trim_end(s).len() ==> #[trigger] trim_end(s)[i] == s[i],
    decreases s.len(),
{
    if s.len() > 0 && is_white_space(s.last()) {
        let s0 = s.drop_last();
        lemma_trim_end_prefix(s0);
        assert forall|i: int| 0 <= i < trim_end(s).len() implies #[trigger] trim_end(s)[i]
            == s[i] by {
            assert(trim_end(s)[i] == trim_end(s0)[i]);
            assert(s0[i] == s[i]);
        }
    }
}

/// Replacing a pattern whose first character differs from the text's first character
/// keeps that first character in front.
pub proof fn lemma_replace_keeps_first(s: Seq<char>, pat: Seq<char>, rep: Seq<char>)
    requires
        pat.len() > 0,
        s.len() > 0,
        s[0] != pat[0],
    ensures
        replace_all(s, pat, rep).len() > 0,
        replace_all(s, pat, rep)[0] == s[0],
{
    if s.len() >= pat.len() {
        assert(s.take(pat.len() as int)[0] != pat[0]);
        assert(s.take(pat.len() as int) != pat);
    }
}

proof fn lemma_trim_start_skip(s: Seq<char>) -> (a: int)
    ensures
        0 <= a <= s.len(),
        trim_start(s) == s.skip(a),
        forall|i: int| 0 <= i < a ==> is_white_space(#[trigger] s[i]),
        a < s.len() ==> !is_white_space(s[a]),
    decreases s.len(),
{
    if s.len() > 0 && is_white_space(s[0]) {
        let t = s.drop_first();
        let a0 = lemma_trim_start_skip(t);
        assert(t.skip(a0) =~= s.skip(a0 + 1));
        assert forall|i: int| 0 <= i < a0 + 1 implies is_white_space(#[trigger] s[i]) by {
            if i > 0 {
                assert(s[i] == t[i - 1]);
            }
        }
        a0 + 1
    } else {
        assert(s.skip(0) =~= s);
        0
    }
}

proof fn lemma_trim_end_take(s: Seq<char>) -> (b: int)
    ensures
        0 <= b <= s.len(),
        trim_end(s) == s.take(b),
        forall|i: int| b <= i < s.len() ==> is_white_space(#[trigger] s[i]),
        b > 0 ==> !is_white_space(s[b - 1]),
    decreases s.len(),
{
    if s.len() > 0 && is_white_space(s.last()) {
        let t = s.drop_last();
        let b0 = lemma_trim_end_take(t);
        assert(t.take(b0) =~= s.take(b0));
        assert forall|i: int| b0 <= i < s.len() implies is_white_space(#[trigger] s[i]) by {
            if i < s.len() - 1 {
                assert(s[i] == t[i]);
            }
        }
        b0
    } else {
        assert(s.take(s.len() as int) =~= s);
        s.len() as int
    }
}

/// What trimming does: it keeps one stretch `s[a..b]` of the text and removes only
/// white space before and after it; the stretch kept, where not empty, starts and ends
/// with a character that is not white space.
pub proof fn lemma_trim_shape(s: Seq<char>) -> (ab: (int, int))
    ensures
        0 <= ab.0 <= ab.1 <= s.len(),
        trim(s) == s.subrange(ab.0, ab.1),
        forall|i: int| 0 <= i < ab.0 ==> is_white_space(#[trigger] s[i]),
        forall|i: int| ab.1 <= i < s.len() ==> is_white_space(#[trigger] s[i]),
        ab.0 < ab.1 ==> !is_white_space(s[ab.0]) && !is_white_space(s[ab.1 - 1]),
        ab.0 == ab.1 ==> forall|i: int| 0 <= i < s.len() ==> is_white_space(#[trigger] s[i]),
{
    let a = lemma_trim_start_skip(s);
    let t = s.skip(a);
    let c = lemma_trim_end_take(t);
    assert(t.take(c) =~= s.subrange(a, a + c));
    assert forall|i: int| a + c <= i < s.len() implies is_white_space(#[trigger] s[i]) by {
        assert(s[i] == t[i - a]);
    }
    if c > 0 {
        assert(s[a + c - 1] == t[c - 1]);
        assert(s[a] == t[0]);
    }
    if c == 0 && a < s.len() {
        assert(t[0] == s[a]);
        assert(is_white_space(t[0]));
    }
    (a, a + c)
}

/// Replacement finds the leftmost occurrence: where `pat` first occurs right after `x`,
/// the text before it is kept, that occurrence becomes `rep`, and the search goes on
/// after it.
pub proof fn lemma_replace_leftmost(x: Seq<char>, pat: Seq<char>, y: Seq<char>, rep: Seq<char>)
    requires
        pat.len() > 0,
        forall|i: int| 0 <= i < x.len() ==> !#[trigger] pattern_at(x + pat + y, pat, i),
    ensures
        replace_all(x + pat + y, pat, rep) == x + rep + replace_all(y, pat, rep),
    decreases x.len(),
{
    let s = x + pat + y;
    if x.len() == 0 {
        assert(s =~= pat + y);
        assert(s.take(pat.len() as int) =~= pat);
        assert(s.skip(pat.len() as int) =~= y);
        assert(x + rep + replace_all(y, pat, rep) =~= rep + replace_all(y, pat, rep));
    } else {
        let x0 = x.drop_first();
        let t = x0 + pat + y;
        assert(s.drop_first() =~= t);
        assert forall|i: int| 0 <= i < x0.len() implies !#[trigger] pattern_at(t, pat, i) by {
            assert(!pattern_at(s, pat, i + 1));
            if 0 <= i && i + pat.len() <= t.len() {
                assert(t.subrange(i, i + pat.len()) =~= s.subrange(i + 1, i + 1 + pat.len()));
            }
        }
        lemma_replace_leftmost(x0, pat, y, rep);
        assert(!pattern_at(s, pat, 0));
        if s.len() >= pat.len() {
            assert(s.take(pat.len() as int) =~= s.subrange(0, pat.len() as int));
        }
        assert(s[0] == x[0]);
        assert(seq![x[0]] + (x0 + rep + replace_all(y, pat, rep)) =~= x + rep + replace_all(
            y,
            pat,
            rep,
        ));
    }
}

} // verus!
