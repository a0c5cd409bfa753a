//! Reading the LogQL queries out of the queries configuration.
//!
//! The configuration is read line by line. Each line is trimmed; blank lines and
//! lines that start with `#` are skipped. A line that starts with `$` defines a
//! variable, `$name=value`; every other line is a query, in which each variable's
//! placeholder `$name$` is replaced by its value, the variables taken in the order
//! in which they are defined.
use vstd::prelude::*;
use vstd::string::*;
use crate::text::{
    chars_of, is_white_space, lemma_replace_absent, lemma_replace_keeps_first,
    lemma_trim_first_not_white, lemma_split_lines_concat, lemma_split_lines_single, pattern_at, replace_all, replace_str, split_lines, split_lines_str, texts, trim, trim_str,
};

verus! {

/// Whether a trimmed line takes part in the configuration: it is not blank and not a
/// comment.
pub open spec fn is_kept_line(t: Seq<char>) -> bool {
    t.len() > 0 && t[0] != '#'
}

/// The trimmed lines of `raw` that take part in the configuration, in order.
pub open spec fn kept_lines(raw: Seq<Seq<char>>) -> Seq<Seq<char>>
    decreases raw.len(),
{
    if raw.len() == 0 {
        Seq::empty()
    } else {
        let prev = kept_lines(raw.drop_last());
        let t = trim(raw.last());
        if is_kept_line(t) {
            prev.push(t)
        } else {
            prev
        }
    }
}

/// The lines of a configuration that take part in it.
pub open spec fn config_lines(config: Seq<char>) -> Seq<Seq<char>> {
    kept_lines(split_lines(config))
}

/// Whether a configuration line defines a variable.
pub open spec fn is_definition(line: Seq<char>) -> bool {
    line.len() > 0 && line[0] == '$'
}

/// The number of characters of `s` before its first `=` (all of them where it has none).
pub open spec fn eq_offset(s: Seq<char>) -> nat
    decreases s.len(),
{
    if s.len() == 0 || s[0] == '=' {
        0
    } else {
        1 + eq_offset(s.drop_first())
    }
}

/// The variable that a definition line `$name=value` defines: the text after `$` up to
/// the first `=` is its name; the text after that `=` up to the next `=` (or the end)
/// is its value. A line without `=` defines a name without a value.
pub open spec fn parse_definition(line: Seq<char>) -> (Seq<char>, Option<Seq<char>>) {
    let body = line.drop_first();
    let k = eq_offset(body);
    if k == body.len() {
        (body, None)
    } else {
        let rest = body.skip(k + 1 as int);
        (body.take(k as int), Some(rest.take(eq_offset(rest) as int)))
    }
}

/// The variables that the lines define, in order.
pub open spec fn definitions(lines: Seq<Seq<char>>) -> Seq<(Seq<char>, Option<Seq<char>>)>
    decreases lines.len(),
{
    if lines.len() == 0 {
        Seq::empty()
    } else {
        let prev = definitions(lines.drop_last());
        if is_definition(lines.last()) {
            prev.push(parse_definition(lines.last()))
        } else {
            prev
        }
    }
}

/// The query lines, in order: those that define no variable.
pub open spec fn templates(lines: Seq<Seq<char>>) -> Seq<Seq<char>>
    decreases lines.len(),
{
    if lines.len() == 0 {
        Seq::empty()
    } else {
        let prev = templates(lines.drop_last());
        if is_definition(lines.last()) {
            prev
        } else {
            prev.push(lines.last())
        }
    }
}

/// The text that stands for a variable in a query: its name between two `$`.
pub open spec fn placeholder(name: Seq<char>) -> Seq<char> {
    seq!['$'] + name + seq!['$']
}

/// The value of a definition (empty where it has none).
pub open spec fn definition_value(d: (Seq<char>, Option<Seq<char>>)) -> Seq<char> {
    match d.1 {
        Some(v) => v,
        None => Seq::empty(),
    }
}

/// `line` with the placeholder of each definition replaced by its value, the definitions
/// applied one after the other in order.
pub open spec fn substitute(line: Seq<char>, defs: Seq<(Seq<char>, Option<Seq<char>>)>) -> Seq<
    char,
>
    decreases defs.len(),
{
    if defs.len() == 0 {
        line
    } else {
        replace_all(
            substitute(line, defs.drop_last()),
            placeholder(defs.last().0),
            definition_value(defs.last()),
        )
    }
}

/// Whether the queries of a configuration are defined: either it has no query line, or
/// every variable it defines has a value.
pub open spec fn queries_defined(config: Seq<char>) -> bool {
    let lines = config_lines(config);
    let defs = definitions(lines);
    ||| forall|i: int| 0 <= i < lines.len() ==> is_definition(#[trigger] lines[i])
    ||| forall|j: int| 0 <= j < defs.len() ==> (#[trigger] defs[j]).1 is Some
}

/// The queries of a configuration: its query lines, in order, each with the variables
/// substituted.
pub open spec fn queries_of(config: Seq<char>) -> Seq<Seq<char>> {
    let lines = config_lines(config);
    let defs = definitions(lines);
    templates(lines).map_values(|t: Seq<char>| substitute(t, defs))
}

/// The view of a definition as the configuration code holds it.
pub open spec fn definition_view(d: (String, Option<String>)) -> (Seq<char>, Option<Seq<char>>) {
    (
        d.0@,
        match d.1 {
            Some(v) => Some(v@),
            None => None,
        },
    )
}

/// The trimmed lines of `config` that are neither blank nor comments, in order.
fn meaningful_lines(config: &str) -> (lines: Vec<String>)
    ensures
        texts(lines@) == config_lines(config@),
{
    let raw = split_lines_str(config);
    let ghost raw_texts = texts(raw@);
    let mut lines: Vec<String> = Vec::new();
    let mut i: usize = 0;
    while i < raw.len()
        invariant
            raw_texts == texts(raw@),
            i <= raw.len(),
            texts(lines@) == kept_lines(raw_texts.take(i as int)),
        decreases raw.len() - i,
    {
        let ghost old_texts = texts(lines@);
        proof {
            let t = raw_texts.take(i + 1);
            assert(t.drop_last() =~= raw_texts.take(i as int));
            assert(t.last() == raw@[i as int]@);
        }
        let t = trim_str(raw[i].as_str());
        if t.as_str().unicode_len() > 0 && t.as_str().get_char(0) != '#' {
            lines.push(t);
            assert(texts(lines@) =~= old_texts.push(t@));
        }
        i = i + 1;
    }
    assert(raw_texts.take(raw.len() as int) =~= raw_texts);
    lines
}

/// The position of the first `=` in `chars` at or after `from` (its length where there
/// is none).
fn find_eq(chars: &Vec<char>, from: usize) -> (j: usize)
    requires
        from <= chars.len(),
    ensures
        from <= j <= chars.len(),
        eq_offset(chars@.skip(from as int)) == j - from,
        j < chars.len() ==> chars@[j as int] == '=',
{
    let n = chars.len();
    let mut j: usize = from;
    while j < n && chars[j] != '='
        invariant
            n == chars.len(),
            from <= j <= n,
            eq_offset(chars@.skip(from as int)) == (j - from) + eq_offset(chars@.skip(j as int)),
        decreases n - j,
    {
        assert(chars@.skip(j as int).drop_first() =~= chars@.skip(j + 1));
        j = j + 1;
    }
    j
}

/// The variable that a definition line defines.
fn parse_definition_line(line: &str) -> (d: (String, Option<String>))
    requires
        is_definition(line@),
    ensures
        definition_view(d) == parse_definition(line@),
{
    let chars = chars_of(line);
    let n = chars.len();
    let k = find_eq(&chars, 1);
    let ghost body = line@.drop_first();
    assert(body =~= line@.skip(1));
    let name = String::from_str(line.substring_char(1, k));
    assert(name@ =~= body.take(k - 1));
    if k == n {
        assert(name@ =~= body);
        (name, None)
    } else {
        let e = find_eq(&chars, k + 1);
        let value = String::from_str(line.substring_char(k + 1, e));
        proof {
            let rest = body.skip(k as int);
            assert(rest =~= line@.skip(k + 1));
            assert(value@ =~= rest.take(eq_offset(rest) as int));
        }
        (name, Some(value))
    }
}

/// The variables that the configuration lines define, in order.
fn definitions_of(lines: &Vec<String>) -> (defs: Vec<(String, Option<String>)>)
    ensures
        defs@.map_values(|d: (String, Option<String>)| definition_view(d)) == definitions(
            texts(lines@),
        ),
        forall|j: int|
            0 <= j < defs@.len() ==> ((#[trigger] defs@[j]).1 is Some <==> definitions(
                texts(lines@),
            )[j].1 is Some),
{
    let ghost ls = texts(lines@);
    let mut defs: Vec<(String, Option<String>)> = Vec::new();
    let mut i: usize = 0;
    while i < lines.len()
        invariant
            ls == texts(lines@),
            i <= lines.len(),
            defs@.map_values(|d: (String, Option<String>)| definition_view(d)) == definitions(
                ls.take(i as int),
            ),
        decreases lines.len() - i,
    {
        let ghost old_view = defs@.map_values(|d: (String, Option<String>)| definition_view(d));
        proof {
            let t = ls.take(i + 1);
            assert(t.drop_last() =~= ls.take(i as int));
            assert(t.last() == lines@[i as int]@);
        }
        let line = lines[i].as_str();
        if line.unicode_len() > 0 && line.get_char(0) == '$' {
            let d = parse_definition_line(line);
            let ghost dv = definition_view(d);
            defs.push(d);
            assert(defs@.map_values(|d: (String, Option<String>)| definition_view(d))
                =~= old_view.push(dv));
        }
        i = i + 1;
    }
    assert(ls.take(lines.len() as int) =~= ls);
    let ghost dv = defs@.map_values(|d: (String, Option<String>)| definition_view(d));
    assert forall|j: int| 0 <= j < defs@.len() implies ((#[trigger] defs@[j]).1 is Some
        <==> dv[j].1 is Some) by {}
    defs
}

/// The placeholder of a variable: its name between two `$`.
fn placeholder_of(name: &String) -> (p: String)
    ensures
        p@ == placeholder(name@),
{
    proof {
        reveal_strlit("$");
        assert("$"@ =~= seq!['$']);
    }
    let mut p = String::from_str("$");
    p.append(name.as_str());
    p.append("$");
    p
}

/// Whether every variable has a value.
fn all_defined(defs: &Vec<(String, Option<String>)>) -> (b: bool)
    ensures
        b == forall|j: int| 0 <= j < defs@.len() ==> (#[trigger] defs@[j]).1 is Some,
{
    let mut j: usize = 0;
    while j < defs.len()
        invariant
            j <= defs.len(),
            forall|k: int| 0 <= k < j ==> (#[trigger] defs@[k]).1 is Some,
        decreases defs.len() - j,
    {
        if defs[j].1.is_none() {
            return false;
        }
        j = j + 1;
    }
    true
}

/// Whether every line defines a variable.
fn all_definitions(lines: &Vec<String>) -> (b: bool)
    ensures
        b == forall|i: int| 0 <= i < lines@.len() ==> is_definition(#[trigger] texts(lines@)[i]),
{
    let mut i: usize = 0;
    while i < lines.len()
        invariant
            i <= lines.len(),
            forall|k: int| 0 <= k < i ==> is_definition(#[trigger] texts(lines@)[k]),
        decreases lines.len() - i,
    {
        let line = lines[i].as_str();
        if !(line.unicode_len() > 0 && line.get_char(0) == '$') {
            assert(!is_definition(texts(lines@)[i as int]));
            return false;
        }
        i = i + 1;
    }
    true
}

/// `line` with every variable substituted.
fn substitute_line(line: &String, defs: &Vec<(String, Option<String>)>) -> (r: String)
    requires
        forall|j: int| 0 <= j < defs@.len() ==> (#[trigger] defs@[j]).1 is Some,
    ensures
        r@ == substitute(
            line@,
            defs@.map_values(|d: (String, Option<String>)| definition_view(d)),
        ),
{
    let ghost dv = defs@.map_values(|d: (String, Option<String>)| definition_view(d));
    let mut cur = line.clone();
    let mut j: usize = 0;
    assert(dv.take(0) =~= Seq::<(Seq<char>, Option<Seq<char>>)>::empty());
    while j < defs.len()
        invariant
            dv == defs@.map_values(|d: (String, Option<String>)| definition_view(d)),
            forall|k: int| 0 <= k < defs@.len() ==> (#[trigger] defs@[k]).1 is Some,
            j <= defs.len(),
            cur@ == substitute(line@, dv.take(j as int)),
        decreases defs.len() - j,
    {
        proof {
            let t = dv.take(j + 1);
            assert(t.drop_last() =~= dv.take(j as int));
            assert(t.last() == definition_view(defs@[j as int]));
        }
        let p = placeholder_of(&defs[j].0);
        match &defs[j].1 {
            Some(v) => {
                cur = replace_str(cur.as_str(), p.as_str(), v.as_str());
            },
            None => {
                assert(defs@[j as int].1 is Some);
            },
        }
        j = j + 1;
    }
    assert(dv.take(defs.len() as int) =~= dv);
    cur
}

/// The query lines, each with every variable substituted.
fn substitute_all(lines: &Vec<String>, defs: &Vec<(String, Option<String>)>) -> (queries: Vec<
    String,
>)
    requires
        (forall|i: int| 0 <= i < lines@.len() ==> is_definition(#[trigger] texts(lines@)[i]))
            || (forall|j: int| 0 <= j < defs@.len() ==> (#[trigger] defs@[j]).1 is Some),
    ensures
        texts(queries@) == templates(texts(lines@)).map_values(
            |t: Seq<char>|
                substitute(t, defs@.map_values(|d: (String, Option<String>)| definition_view(d))),
        ),
{
    let ghost ls = texts(lines@);
    let ghost dv = defs@.map_values(|d: (String, Option<String>)| definition_view(d));
    let mut queries: Vec<String> = Vec::new();
    let mut i: usize = 0;
    while i < lines.len()
        invariant
            ls == texts(lines@),
            dv == defs@.map_values(|d: (String, Option<String>)| definition_view(d)),
            (forall|k: int| 0 <= k < lines@.len() ==> is_definition(#[trigger] ls[k])) || (
            forall|j: int| 0 <= j < defs@.len() ==> (#[trigger] defs@[j]).1 is Some),
            i <= lines.len(),
            texts(queries@) == templates(ls.take(i as int)).map_values(
                |t: Seq<char>| substitute(t, dv),
            ),
        decreases lines.len() - i,
    {
        let ghost old_texts = texts(queries@);
        proof {
            let t = ls.take(i + 1);
            assert(t.drop_last() =~= ls.take(i as int));
            assert(t.last() == lines@[i as int]@);
        }
        let line = lines[i].as_str();
        if !(line.unicode_len() > 0 && line.get_char(0) == '$') {
            assert(!is_definition(ls[i as int]));
            let q = substitute_line(&lines[i], defs);
            queries.push(q);
            assert(texts(queries@) =~= old_texts.push(q@));
            assert(templates(ls.take(i + 1)).map_values(|t: Seq<char>| substitute(t, dv))
                =~= templates(ls.take(i as int)).map_values(|t: Seq<char>| substitute(t, dv)).push(
                substitute(lines@[i as int]@, dv),
            ));
        }
        i = i + 1;
    }
    assert(ls.take(lines.len() as int) =~= ls);
    queries
}

/// The queries of a configuration, in the order of their lines, each with the variables
/// defined in the configuration substituted.
///
/// A configuration that has a query line and a variable definition without `=` has no
/// queries: the reading of it does not complete.
pub fn get_queries(config_content: &str) -> (queries: Vec<String>)
    requires
        queries_defined(config_content@),
    ensures
        texts(queries@) == queries_of(config_content@),
{
    let lines = meaningful_lines(config_content);
    let defs = definitions_of(&lines);
    substitute_all(&lines, &defs)
}

/// The queries of a configuration, or `None` where they are not defined (a query line
/// together with a variable definition without `=`).
pub fn try_get_queries(config_content: &str) -> (queries: Option<Vec<String>>)
    ensures
        queries is Some <==> queries_defined(config_content@),
        queries matches Some(q) ==> texts(q@) == queries_of(config_content@),
{
    let lines = meaningful_lines(config_content);
    let defs = definitions_of(&lines);
    if all_definitions(&lines) || all_defined(&defs) {
        Some(substitute_all(&lines, &defs))
    } else {
        proof {
            let ls = texts(lines@);
            let i = choose|i: int| 0 <= i < lines@.len() && !is_definition(#[trigger] ls[i]);
            let j = choose|j: int| 0 <= j < defs@.len() && (#[trigger] defs@[j]).1 is None;
            assert(!is_definition(config_lines(config_content@)[i]));
            assert(!(definitions(config_lines(config_content@))[j].1 is Some));
        }
        None
    }
}

/// Every line that takes part in a configuration is neither blank nor a comment, and it
/// does not start with white space.
pub proof fn lemma_kept_lines_are_kept(raw: Seq<Seq<char>>)
    ensures
        forall|i: int|
            0 <= i < kept_lines(raw).len() ==> is_kept_line(#[trigger] kept_lines(raw)[i])
                && !is_white_space(kept_lines(raw)[i][0]),
    decreases raw.len(),
{
    if raw.len() > 0 {
        let prev = raw.drop_last();
        lemma_kept_lines_are_kept(prev);
        lemma_trim_first_not_white(raw.last());
        assert forall|i: int| 0 <= i < kept_lines(raw).len() implies is_kept_line(
            #[trigger] kept_lines(raw)[i],
        ) && !is_white_space(kept_lines(raw)[i][0]) by {
            if i < kept_lines(prev).len() {
                assert(kept_lines(raw)[i] == kept_lines(prev)[i]);
            }
        }
    }
}

/// The query lines are lines of the configuration that define no variable.
pub proof fn lemma_templates_are_lines(lines: Seq<Seq<char>>)
    ensures
        forall|i: int|
            0 <= i < templates(lines).len() ==> !is_definition(#[trigger] templates(lines)[i])
                && lines.contains(templates(lines)[i]),
    decreases lines.len(),
{
    if lines.len() > 0 {
        let prev = lines.drop_last();
        lemma_templates_are_lines(prev);
        assert forall|i: int| 0 <= i < templates(lines).len() implies !is_definition(
            #[trigger] templates(lines)[i],
        ) && lines.contains(templates(lines)[i]) by {
            if i < templates(prev).len() {
                let j = choose|j: int| 0 <= j < prev.len() && prev[j] == templates(prev)[i];
                assert(lines[j] == prev[j]);
            } else {
                assert(lines[lines.len() - 1] == lines.last());
            }
        }
    }
}

/// No query comes from a blank line, a comment or a variable definition: each query
/// comes from a non-blank configuration line that starts neither with `#` nor with `$`.
pub proof fn lemma_queries_come_from_query_lines(config: Seq<char>)
    ensures
        queries_of(config).len() == templates(config_lines(config)).len(),
        forall|i: int|
            0 <= i < templates(config_lines(config)).len() ==> {
                let t = #[trigger] templates(config_lines(config))[i];
                &&& is_kept_line(t)
                &&& !is_definition(t)
                &&& queries_of(config)[i] == substitute(t, definitions(config_lines(config)))
            },
        forall|i: int|
            0 <= i < queries_of(config).len() ==> {
                let q = #[trigger] queries_of(config)[i];
                &&& q.len() > 0
                &&& q[0] == templates(config_lines(config))[i][0]
                &&& q[0] != '$' && q[0] != '#' && !is_white_space(q[0])
            },
{
    let lines = config_lines(config);
    lemma_kept_lines_are_kept(split_lines(config));
    lemma_templates_are_lines(lines);
    let defs = definitions(lines);
    assert forall|i: int| 0 <= i < templates(lines).len() implies is_kept_line(
        #[trigger] templates(lines)[i],
    ) && !is_white_space(templates(lines)[i][0]) by {
        let j = choose|j: int| 0 <= j < lines.len() && lines[j] == templates(lines)[i];
        assert(is_kept_line(lines[j]));
    }
    assert forall|i: int| 0 <= i < queries_of(config).len() implies {
        let q = #[trigger] queries_of(config)[i];
        &&& q.len() > 0
        &&& q[0] == templates(lines)[i][0]
        &&& q[0] != '$' && q[0] != '#' && !is_white_space(q[0])
    } by {
        let t = templates(lines)[i];
        assert(is_kept_line(t) && !is_white_space(t[0]));
        lemma_substitute_keeps_first(t, defs);
    }
}

/// Substitution keeps a query line's first character, which is not `$`, in front.
pub proof fn lemma_substitute_keeps_first(line: Seq<char>, defs: Seq<(Seq<char>, Option<Seq<char>>)>)
    requires
        line.len() > 0,
        line[0] != '$',
    ensures
        substitute(line, defs).len() > 0,
        substitute(line, defs)[0] == line[0],
    decreases defs.len(),
{
    if defs.len() > 0 {
        lemma_substitute_keeps_first(line, defs.drop_last());
        let p = placeholder(defs.last().0);
        assert(p[0] == '$');
        lemma_replace_keeps_first(
            substitute(line, defs.drop_last()),
            p,
            definition_value(defs.last()),
        );
    }
}

/// A configuration that defines no variable has its query lines, as they stand, for
/// queries.
pub proof fn lemma_queries_without_definitions(config: Seq<char>)
    requires
        definitions(config_lines(config)).len() == 0,
    ensures
        queries_of(config) == templates(config_lines(config)),
{
    assert(queries_of(config) =~= templates(config_lines(config)));
}

/// A query line that mentions no variable's placeholder is left as it is.
pub proof fn lemma_substitute_absent(line: Seq<char>, defs: Seq<(Seq<char>, Option<Seq<char>>)>)
    requires
        forall|j: int, i: int|
            0 <= j < defs.len() ==> !#[trigger] pattern_at(line, placeholder(defs[j].0), i),
    ensures
        substitute(line, defs) == line,
    decreases defs.len(),
{
    if defs.len() > 0 {
        let prev = defs.drop_last();
        assert forall|j: int, i: int| 0 <= j < prev.len() implies !#[trigger] pattern_at(
            line,
            placeholder(prev[j].0),
            i,
        ) by {
            assert(prev[j] == defs[j]);
        }
        lemma_substitute_absent(line, prev);
        let last = defs.last();
        assert(forall|i: int| !#[trigger] pattern_at(line, placeholder(last.0), i)) by {
            assert(last == defs[defs.len() - 1]);
        }
        lemma_replace_absent(line, placeholder(last.0), definition_value(last));
    }
}

/// The kept lines of two runs of lines, one after the other, are the kept lines of each.
pub proof fn lemma_kept_lines_concat(first: Seq<Seq<char>>, second: Seq<Seq<char>>)
    ensures
        kept_lines(first + second) == kept_lines(first) + kept_lines(second),
    decreases second.len(),
{
    if second.len() == 0 {
        assert(first + second =~= first);
        assert(kept_lines(first) + Seq::<Seq<char>>::empty() =~= kept_lines(first));
    } else {
        lemma_kept_lines_concat(first, second.drop_last());
        assert((first + second).drop_last() =~= first + second.drop_last());
        assert((first + second).last() == second.last());
        assert(kept_lines(first + second) =~= kept_lines(first) + kept_lines(second));
    }
}

/// Inserting a blank line or a comment line into a configuration, at a line boundary,
/// leaves its queries (and whether they are defined) unchanged: with `prefix` empty or
/// ending in a line feed, `prefix + line + "\n" + suffix` has the queries of
/// `prefix + suffix`.
pub proof fn lemma_blank_or_comment_line_changes_nothing(
    prefix: Seq<char>,
    line: Seq<char>,
    suffix: Seq<char>,
)
    requires
        prefix.len() == 0 || prefix.last() == '\n',
        forall|i: int| 0 <= i < line.len() ==> line[i] != '\n',
        !is_kept_line(trim(line)),
    ensures
        config_lines(prefix + line + seq!['\n'] + suffix) == config_lines(prefix + suffix),
        queries_of(prefix + line + seq!['\n'] + suffix) == queries_of(prefix + suffix),
        queries_defined(prefix + line + seq!['\n'] + suffix) == queries_defined(prefix + suffix),
{
    let c1 = prefix + suffix;
    let c2 = prefix + line + seq!['\n'] + suffix;
    lemma_split_lines_single(line);
    lemma_split_lines_concat(line, suffix);
    // The lines of `line + "\n" + suffix` are `line` followed by those of `suffix`.
    let tail = line + seq!['\n'] + suffix;
    let one = seq![line];
    assert(kept_lines(one) =~= Seq::<Seq<char>>::empty()) by {
        assert(one.len() == 1);
        assert(one.drop_last() =~= Seq::<Seq<char>>::empty());
        assert(kept_lines(one.drop_last()) == Seq::<Seq<char>>::empty());
        assert(one.last() == line);
        assert(!is_kept_line(trim(one.last())));
        assert(kept_lines(one) == kept_lines(one.drop_last()));
    }
    lemma_kept_lines_concat(one, split_lines(suffix));
    assert(kept_lines(split_lines(tail)) =~= kept_lines(split_lines(suffix)));
    if prefix.len() == 0 {
        assert(c1 =~= suffix);
        assert(c2 =~= tail);
    } else {
        let q = prefix.drop_last();
        assert(c1 =~= q + seq!['\n'] + suffix);
        assert(c2 =~= q + seq!['\n'] + tail);
        lemma_split_lines_concat(q, suffix);
        lemma_split_lines_concat(q, tail);
        lemma_kept_lines_concat(split_lines(q), split_lines(suffix));
        lemma_kept_lines_concat(split_lines(q), split_lines(tail));
    }
    assert(config_lines(c2) =~= config_lines(c1));
}

/// The query lines are exactly the lines that define no variable, each once and in
/// order: they are the lines filtered by "is not a definition".
pub proof fn lemma_templates_are_the_non_definitions(lines: Seq<Seq<char>>)
    ensures
        templates(lines) == lines.filter(|l: Seq<char>| !is_definition(l)),
    decreases lines.len(),
{
    reveal(Seq::filter);
    if lines.len() > 0 {
        lemma_templates_are_the_non_definitions(lines.drop_last());
    }
}

/// The definitions are those of the definition lines, each once and in order.
pub proof fn lemma_definitions_are_the_definition_lines(lines: Seq<Seq<char>>)
    ensures
        definitions(lines) == lines.filter(|l: Seq<char>| is_definition(l)).map_values(
            |l: Seq<char>| parse_definition(l),
        ),
    decreases lines.len(),
{
    reveal(Seq::filter);
    if lines.len() > 0 {
        let prev = lines.drop_last();
        lemma_definitions_are_the_definition_lines(prev);
        let f = prev.filter(|l: Seq<char>| is_definition(l));
        if is_definition(lines.last()) {
            assert(f.push(lines.last()).map_values(|l: Seq<char>| parse_definition(l))
                =~= f.map_values(|l: Seq<char>| parse_definition(l)).push(
                parse_definition(lines.last()),
            ));
        }
    }
}

/// The lines that take part in a configuration are its trimmed lines, filtered by
/// "neither blank nor a comment", each once and in order.
pub proof fn lemma_kept_lines_are_the_trimmed_kept(raw: Seq<Seq<char>>)
    ensures
        kept_lines(raw) == raw.map_values(|r: Seq<char>| trim(r)).filter(
            |t: Seq<char>| is_kept_line(t),
        ),
    decreases raw.len(),
{
    reveal(Seq::filter);
    if raw.len() > 0 {
        let prev = raw.drop_last();
        lemma_kept_lines_are_the_trimmed_kept(prev);
        let m = raw.map_values(|r: Seq<char>| trim(r));
        assert(m.drop_last() =~= prev.map_values(|r: Seq<char>| trim(r)));
        assert(m.last() == trim(raw.last()));
    }
}

/// Each query line gives exactly one query: there are as many queries as lines of the
/// configuration that take part in it and define no variable, and the `i`-th query is
/// the `i`-th such line with the variables substituted.
pub proof fn lemma_one_query_per_query_line(config: Seq<char>)
    ensures
        queries_of(config).len() == config_lines(config).filter(
            |l: Seq<char>| !is_definition(l),
        ).len(),
        forall|i: int|
            0 <= i < queries_of(config).len() ==> #[trigger] queries_of(config)[i] == substitute(
                config_lines(config).filter(|l: Seq<char>| !is_definition(l))[i],
                definitions(config_lines(config)),
            ),
{
    lemma_templates_are_the_non_definitions(config_lines(config));
}

proof fn lemma_eq_offset_none(x: Seq<char>)
    requires
        forall|i: int| 0 <= i < x.len() ==> x[i] != '=',
    ensures
        eq_offset(x) == x.len(),
    decreases x.len(),
{
    if x.len() > 0 {
        let t = x.drop_first();
        assert forall|i: int| 0 <= i < t.len() implies t[i] != '=' by {
            assert(t[i] == x[i + 1]);
        }
        lemma_eq_offset_none(t);
    }
}

proof fn lemma_eq_offset_at(x: Seq<char>, y: Seq<char>)
    requires
        forall|i: int| 0 <= i < x.len() ==> x[i] != '=',
    ensures
        eq_offset(x + seq!['='] + y) == x.len(),
    decreases x.len(),
{
    let z = x + seq!['='] + y;
    if x.len() > 0 {
        let t = x.drop_first();
        assert forall|i: int| 0 <= i < t.len() implies t[i] != '=' by {
            assert(t[i] == x[i + 1]);
        }
        lemma_eq_offset_at(t, y);
        assert(z.drop_first() =~= t + seq!['='] + y);
        assert(z[0] == x[0]);
    } else {
        assert(z[0] == '=');
    }
}

/// How a definition line reads: `$name` defines `name` without a value; `$name=value`
/// defines `name` with `value`; in `$name=value=rest` the value stops at the second `=`.
pub proof fn lemma_definition_shapes(name: Seq<char>, value: Seq<char>, rest: Seq<char>)
    requires
        forall|i: int| 0 <= i < name.len() ==> name[i] != '=',
        forall|i: int| 0 <= i < value.len() ==> value[i] != '=',
    ensures
        parse_definition(seq!['$'] + name) == (name, None::<Seq<char>>),
        parse_definition(seq!['$'] + name + seq!['='] + value) == (name, Some(value)),
        parse_definition(seq!['$'] + name + seq!['='] + value + seq!['='] + rest) == (
            name,
            Some(value),
        ),
{
    let l1 = seq!['$'] + name;
    assert(l1.drop_first() =~= name);
    lemma_eq_offset_none(name);

    let l2 = seq!['$'] + name + seq!['='] + value;
    assert(l2.drop_first() =~= name + seq!['='] + value);
    lemma_eq_offset_at(name, value);
    assert((name + seq!['='] + value).take(name.len() as int) =~= name);
    assert((name + seq!['='] + value).skip(name.len() + 1 as int) =~= value);
    lemma_eq_offset_none(value);
    assert(value.take(value.len() as int) =~= value);

    let l3 = seq!['$'] + name + seq!['='] + value + seq!['='] + rest;
    let body3 = name + seq!['='] + (value + seq!['='] + rest);
    assert(l3.drop_first() =~= body3);
    lemma_eq_offset_at(name, value + seq!['='] + rest);
    assert(body3.take(name.len() as int) =~= name);
    assert(body3.skip(name.len() + 1 as int) =~= value + seq!['='] + rest);
    lemma_eq_offset_at(value, rest);
    assert((value + seq!['='] + rest).take(value.len() as int) =~= value);
}

/// Substitution applies the definitions one after the other: with none the line stays,
/// with one it replaces that variable's placeholder by its value, and substituting
/// `first + second` is substituting `first`, then `second`.
pub proof fn lemma_substitute_steps(
    line: Seq<char>,
    d: (Seq<char>, Option<Seq<char>>),
    first: Seq<(Seq<char>, Option<Seq<char>>)>,
    second: Seq<(Seq<char>, Option<Seq<char>>)>,
)
    ensures
        substitute(line, Seq::empty()) == line,
        substitute(line, seq![d]) == replace_all(line, placeholder(d.0), definition_value(d)),
        substitute(line, first + second) == substitute(substitute(line, first), second),
    decreases second.len(),
{
    let one = seq![d];
    assert(one.drop_last() =~= Seq::<(Seq<char>, Option<Seq<char>>)>::empty());
    assert(one.last() == d);
    assert(substitute(line, one.drop_last()) == line);
    if second.len() == 0 {
        assert(first + second =~= first);
    } else {
        lemma_substitute_steps(line, d, first, second.drop_last());
        assert((first + second).drop_last() =~= first + second.drop_last());
        assert((first + second).last() == second.last());
    }
}

/// The queries are defined exactly where the configuration has no query line or every
/// variable it defines has a value.
pub proof fn lemma_queries_defined_iff(config: Seq<char>)
    ensures
        queries_defined(config) <==> (config_lines(config).filter(
            |l: Seq<char>| !is_definition(l),
        ).len() == 0 || forall|j: int|
            0 <= j < definitions(config_lines(config)).len() ==> (#[trigger] definitions(
                config_lines(config),
            )[j]).1 is Some),
{
    let lines = config_lines(config);
    let pred = |l: Seq<char>| !is_definition(l);
    let f = lines.filter(pred);
    if f.len() > 0 {
        lines.lemma_filter_pred(pred, 0);
        lines.lemma_filter_contains_rev(pred, f[0]);
        let k = choose|k: int| 0 <= k < lines.len() && lines[k] == f[0];
        assert(!is_definition(lines[k]));
    } else {
        assert forall|i: int| 0 <= i < lines.len() implies is_definition(#[trigger] lines[i]) by {
            if !is_definition(lines[i]) {
                lines.lemma_filter_contains(pred, i);
            }
        }
    }
}

} // verus!
