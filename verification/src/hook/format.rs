//! The text of a notification about one log stream.
use vstd::prelude::*;
use vstd::string::*;
use crate::loki::{LokiStream, pair_texts};
use crate::text::{mask_backticks, mask_backticks_str, mask_char, texts};

verus! {

/// The Markdown dialect of the chat that receives a notification.
#[derive(Clone, Copy, Debug, PartialEq, Eq, Structural)]
pub enum MarkdownFlavor {
    Slack,
    Mattermost,
}

/// `text` in bold: between single asterisks for Slack, double ones for Mattermost.
pub open spec fn bold(flavor: MarkdownFlavor, text: Seq<char>) -> Seq<char> {
    match flavor {
        MarkdownFlavor::Slack => "*"@ + text + "*"@,
        MarkdownFlavor::Mattermost => "**"@ + text + "**"@,
    }
}

/// The value of the first label of `labels` named `name`, if any.
pub open spec fn label_value(labels: Seq<(Seq<char>, Seq<char>)>, name: Seq<char>) -> Option<
    Seq<char>,
>
    decreases labels.len(),
{
    if labels.len() == 0 {
        None
    } else if labels[0].0 == name {
        Some(labels[0].1)
    } else {
        label_value(labels.drop_first(), name)
    }
}

/// Whether no two labels share a name (as in Loki's label map).
pub open spec fn labels_unique(labels: Seq<(Seq<char>, Seq<char>)>) -> bool {
    forall|i: int, j: int|
        0 <= i < j < labels.len() ==> (#[trigger] labels[i]).0 != (#[trigger] labels[j]).0
}

/// Where label names are unique, the lookup finds the one label with that name, and
/// finds nothing exactly where no label has that name.
pub proof fn lemma_label_value_unique(labels: Seq<(Seq<char>, Seq<char>)>, name: Seq<char>)
    requires
        labels_unique(labels),
    ensures
        forall|k: int|
            0 <= k < labels.len() && (#[trigger] labels[k]).0 == name ==> label_value(
                labels,
                name,
            ) == Some(labels[k].1),
        label_value(labels, name) is None <==> forall|k: int|
            0 <= k < labels.len() ==> (#[trigger] labels[k]).0 != name,
    decreases labels.len(),
{
    if labels.len() > 0 {
        let rest = labels.drop_first();
        assert forall|i: int, j: int| 0 <= i < j < rest.len() implies (#[trigger] rest[i]).0
            != (#[trigger] rest[j]).0 by {
            assert(rest[i] == labels[i + 1] && rest[j] == labels[j + 1]);
        }
        lemma_label_value_unique(rest, name);
        assert forall|k: int| 0 <= k < labels.len() && (#[trigger] labels[k]).0 == name implies label_value(
            labels,
            name,
        ) == Some(labels[k].1) by {
            if k > 0 {
                assert(labels[0].0 != labels[k].0);
                assert(rest[k - 1] == labels[k]);
            }
        }
        if label_value(labels, name) is None {
            assert forall|k: int| 0 <= k < labels.len() implies (#[trigger] labels[k]).0 != name by {
                if k > 0 {
                    assert(rest[k - 1] == labels[k]);
                }
            }
        } else if forall|k: int| 0 <= k < labels.len() ==> (#[trigger] labels[k]).0 != name {
            assert(labels[0].0 != name);
            assert forall|k: int| 0 <= k < rest.len() implies (#[trigger] rest[k]).0 != name by {
                assert(rest[k] == labels[k + 1]);
            }
        }
    }
}

/// The line that shows label `name` of a stream: the name in bold and the value as code;
/// nothing where the stream has no such label.
pub open spec fn label_line(
    flavor: MarkdownFlavor,
    labels: Seq<(Seq<char>, Seq<char>)>,
    name: Seq<char>,
) -> Seq<char> {
    match label_value(labels, name) {
        Some(v) => bold(flavor, name) + " `"@ + v + "`\n"@,
        None => Seq::empty(),
    }
}

/// The lines that show the visible labels of a stream, in the order of `visible`.
pub open spec fn label_lines(
    flavor: MarkdownFlavor,
    labels: Seq<(Seq<char>, Seq<char>)>,
    visible: Seq<Seq<char>>,
) -> Seq<char>
    decreases visible.len(),
{
    if visible.len() == 0 {
        Seq::empty()
    } else {
        label_lines(flavor, labels, visible.drop_last()) + label_line(
            flavor,
            labels,
            visible.last(),
        )
    }
}

/// The block that shows one log line: the line, backticks turned into tildes, as a code
/// block.
pub open spec fn value_line(entry: (Seq<char>, Seq<char>)) -> Seq<char> {
    "```"@ + mask_backticks(entry.1) + "```\n"@
}

/// The blocks of all log lines of a stream, in order.
pub open spec fn value_lines(values: Seq<(Seq<char>, Seq<char>)>) -> Seq<char>
    decreases values.len(),
{
    if values.len() == 0 {
        Seq::empty()
    } else {
        value_lines(values.drop_last()) + value_line(values.last())
    }
}

/// The first line of a notification: the data center's name in bold.
pub open spec fn header_line(flavor: MarkdownFlavor, dc: Seq<char>) -> Seq<char> {
    "Datacenter "@ + bold(flavor, dc) + "\n"@
}

/// The notification about a stream: the header, the visible labels, the log lines.
pub open spec fn message(
    flavor: MarkdownFlavor,
    labels: Seq<(Seq<char>, Seq<char>)>,
    values: Seq<(Seq<char>, Seq<char>)>,
    visible: Seq<Seq<char>>,
    dc: Seq<char>,
) -> Seq<char> {
    header_line(flavor, dc) + label_lines(flavor, labels, visible) + value_lines(values)
}

/// Appends `text` in bold.
fn push_bold(msg: &mut String, flavor: &MarkdownFlavor, text: &str)
    ensures
        final(msg)@ == old(msg)@ + bold(*flavor, text@),
{
    match flavor {
        MarkdownFlavor::Slack => {
            msg.append("*");
            msg.append(text);
            msg.append("*");
        },
        MarkdownFlavor::Mattermost => {
            msg.append("**");
            msg.append(text);
            msg.append("**");
        },
    }
}

/// The position of the first label of `labels` named `name`, if any.
fn find_label(labels: &Vec<(String, String)>, name: &String) -> (found: Option<usize>)
    ensures
        match found {
            Some(k) => k < labels@.len() && label_value(pair_texts(labels@), name@) == Some(
                labels@[k as int].1@,
            ),
            None => label_value(pair_texts(labels@), name@) is None,
        },
{
    let ghost all = pair_texts(labels@);
    let mut k: usize = 0;
    assert(all.skip(0) =~= all);
    while k < labels.len()
        invariant
            all == pair_texts(labels@),
            k <= labels.len(),
            label_value(all, name@) == label_value(all.skip(k as int), name@),
        decreases labels.len() - k,
    {
        if labels[k].0 == *name {
            return Some(k);
        }
        assert(all.skip(k as int).drop_first() =~= all.skip(k + 1));
        k = k + 1;
    }
    None
}

/// Appends the lines that show the visible labels of a stream.
pub(crate) fn push_label_lines(
    msg: &mut String,
    flavor: &MarkdownFlavor,
    loki_stream: &LokiStream,
    visible_labels: &[String],
)
    ensures
        final(msg)@ == old(msg)@ + label_lines(
            *flavor,
            loki_stream@.labels,
            texts(visible_labels@),
        ),
{
    let ghost start = msg@;
    let ghost names = texts(visible_labels@);
    let mut i: usize = 0;
    assert(names.take(0) =~= Seq::<Seq<char>>::empty());
    assert(msg@ =~= start + Seq::<char>::empty());
    while i < visible_labels.len()
        invariant
            names == texts(visible_labels@),
            i <= visible_labels.len(),
            msg@ == start + label_lines(*flavor, loki_stream@.labels, names.take(i as int)),
        decreases visible_labels.len() - i,
    {
        let ghost before = msg@;
        proof {
            let t = names.take(i + 1);
            assert(t.drop_last() =~= names.take(i as int));
            assert(t.last() == visible_labels@[i as int]@);
        }
        let label = &visible_labels[i];
        match find_label(&loki_stream.stream, label) {
            Some(k) => {
                push_bold(msg, flavor, label.as_str());
                msg.append(" `");
                msg.append(loki_stream.stream[k].1.as_str());
                msg.append("`\n");
                assert(msg@ =~= before + (bold(*flavor, label@) + " `"@ + loki_stream@.labels[
                    k as int].1 + "`\n"@));
            },
            None => {
                assert(msg@ =~= before + Seq::<char>::empty());
            },
        }
        i = i + 1;
    }
    assert(names.take(visible_labels.len() as int) =~= names);
}

/// Appends the blocks of all log lines of a stream.
pub(crate) fn push_value_lines(msg: &mut String, loki_stream: &LokiStream)
    ensures
        final(msg)@ == old(msg)@ + value_lines(loki_stream@.values),
{
    let ghost start = msg@;
    let ghost values = loki_stream@.values;
    let mut i: usize = 0;
    assert(values.take(0) =~= Seq::<(Seq<char>, Seq<char>)>::empty());
    assert(msg@ =~= start + Seq::<char>::empty());
    while i < loki_stream.values.len()
        invariant
            values == loki_stream@.values,
            i <= loki_stream.values.len(),
            msg@ == start + value_lines(values.take(i as int)),
        decreases loki_stream.values.len() - i,
    {
        let ghost before = msg@;
        proof {
            let t = values.take(i + 1);
            assert(t.drop_last() =~= values.take(i as int));
            assert(t.last() == values[i as int]);
        }
        msg.append("```");
        let masked = mask_backticks_str(loki_stream.values[i].1.as_str());
        msg.append(masked.as_str());
        msg.append("```\n");
        assert(msg@ =~= before + value_line(values[i as int]));
        i = i + 1;
    }
    assert(values.take(loki_stream.values.len() as int) =~= values);
}

/// The notification about `loki_stream` for a chat that reads `flavor`: the data center's
/// name, then each visible label that the stream has (in the order of `visible_labels`),
/// then each log line as a code block, backticks in it turned into tildes.
pub fn create_message(
    flavor: &MarkdownFlavor,
    loki_stream: &LokiStream,
    visible_labels: &[String],
    dc: &str,
) -> (text: String)
    ensures
        text@ == message(
            *flavor,
            loki_stream@.labels,
            loki_stream@.values,
            texts(visible_labels@),
            dc@,
        ),
{
    let mut text = String::new();
    text.append("Datacenter ");
    push_bold(&mut text, flavor, dc);
    text.append("\n");
    push_label_lines(&mut text, flavor, loki_stream, visible_labels);
    push_value_lines(&mut text, loki_stream);
    text
}

/// Visible labels are shown independently of each other: the lines for the labels of
/// `first + second` are the lines for `first` followed by those for `second`.
pub proof fn lemma_label_lines_concat(
    flavor: MarkdownFlavor,
    labels: Seq<(Seq<char>, Seq<char>)>,
    first: Seq<Seq<char>>,
    second: Seq<Seq<char>>,
)
    ensures
        label_lines(flavor, labels, first + second) == label_lines(flavor, labels, first)
            + label_lines(flavor, labels, second),
    decreases second.len(),
{
    if second.len() == 0 {
        assert(first + second =~= first);
        assert(label_lines(flavor, labels, first) + Seq::<char>::empty() =~= label_lines(
            flavor,
            labels,
            first,
        ));
    } else {
        lemma_label_lines_concat(flavor, labels, first, second.drop_last());
        assert((first + second).drop_last() =~= first + second.drop_last());
        assert((first + second).last() == second.last());
        assert(label_lines(flavor, labels, first + second) =~= label_lines(flavor, labels, first)
            + label_lines(flavor, labels, second));
    }
}

/// A visible label that the stream does not have shows nothing: where none of the visible
/// labels is a label of the stream, no label line is shown at all.
pub proof fn lemma_absent_labels_show_nothing(
    flavor: MarkdownFlavor,
    labels: Seq<(Seq<char>, Seq<char>)>,
    visible: Seq<Seq<char>>,
)
    requires
        forall|i: int| 0 <= i < visible.len() ==> label_value(labels, #[trigger] visible[i]) is None,
    ensures
        label_lines(flavor, labels, visible) == Seq::<char>::empty(),
    decreases visible.len(),
{
    if visible.len() > 0 {
        let rest = visible.drop_last();
        assert forall|i: int| 0 <= i < rest.len() implies label_value(labels, #[trigger] rest[i])
            is None by {
            assert(rest[i] == visible[i]);
        }
        lemma_absent_labels_show_nothing(flavor, labels, rest);
        assert(label_value(labels, visible[visible.len() - 1]) is None);
        assert(label_lines(flavor, labels, visible) =~= Seq::<char>::empty());
    }
}

/// Log lines are shown independently of each other: the blocks for the entries of
/// `first + second` are the blocks for `first` followed by those for `second`.
pub proof fn lemma_value_lines_concat(
    first: Seq<(Seq<char>, Seq<char>)>,
    second: Seq<(Seq<char>, Seq<char>)>,
)
    ensures
        value_lines(first + second) == value_lines(first) + value_lines(second),
    decreases second.len(),
{
    if second.len() == 0 {
        assert(first + second =~= first);
        assert(value_lines(first) + Seq::<char>::empty() =~= value_lines(first));
    } else {
        lemma_value_lines_concat(first, second.drop_last());
        assert((first + second).drop_last() =~= first + second.drop_last());
        assert((first + second).last() == second.last());
        assert(value_lines(first + second) =~= value_lines(first) + value_lines(second));
    }
}

/// Bold text is the text between one asterisk on each side (Slack) or two (Mattermost).
pub proof fn lemma_bold_shape(text: Seq<char>)
    ensures
        bold(MarkdownFlavor::Slack, text) == seq!['*'] + text + seq!['*'],
        bold(MarkdownFlavor::Mattermost, text) == seq!['*', '*'] + text + seq!['*', '*'],
{
    reveal_strlit("*");
    reveal_strlit("**");
    assert("*"@ =~= seq!['*']);
    assert("**"@ =~= seq!['*', '*']);
}

/// A visible label that the stream has is shown, for every flavor and wherever it stands
/// among the stream's labels: the bold name, a space, and the value between backticks on
/// a line of its own.
pub proof fn lemma_present_label_is_shown(
    flavor: MarkdownFlavor,
    labels: Seq<(Seq<char>, Seq<char>)>,
    name: Seq<char>,
    value: Seq<char>,
)
    requires
        label_value(labels, name) == Some(value),
    ensures
        label_lines(flavor, labels, seq![name]) == bold(flavor, name) + seq![' ', '`'] + value
            + seq!['`', '\n'],
{
    reveal_strlit(" `");
    reveal_strlit("`\n");
    assert(" `"@ =~= seq![' ', '`']);
    assert("`\n"@ =~= seq!['`', '\n']);
    let one = seq![name];
    assert(one.drop_last() =~= Seq::<Seq<char>>::empty());
    assert(one.last() == name);
    assert(label_lines(flavor, labels, one.drop_last()) == Seq::<char>::empty());
    assert(label_lines(flavor, labels, one) =~= bold(flavor, name) + seq![' ', '`'] + value
        + seq!['`', '\n']);
}

/// With label names unique, the label at any position `k` that is visible is shown with
/// its own value.
pub proof fn lemma_label_at_any_position_is_shown(
    flavor: MarkdownFlavor,
    labels: Seq<(Seq<char>, Seq<char>)>,
    k: int,
)
    requires
        labels_unique(labels),
        0 <= k < labels.len(),
    ensures
        label_lines(flavor, labels, seq![labels[k].0]) == bold(flavor, labels[k].0) + seq![
            ' ',
            '`',
        ] + labels[k].1 + seq!['`', '\n'],
{
    lemma_label_value_unique(labels, labels[k].0);
    lemma_present_label_is_shown(flavor, labels, labels[k].0, labels[k].1);
}

/// The block for a log entry holds the whole log line: three backticks, then every
/// character of the line in its place (a backtick turned into a tilde), then three
/// backticks and a line feed.
pub proof fn lemma_value_line_shape(entry: (Seq<char>, Seq<char>))
    ensures
        value_line(entry).len() == entry.1.len() + 7,
        value_line(entry) == seq!['`', '`', '`'] + mask_backticks(entry.1) + seq![
            '`',
            '`',
            '`',
            '\n',
        ],
        forall|i: int|
            0 <= i < entry.1.len() ==> #[trigger] value_line(entry)[i + 3] == mask_char(
                entry.1[i],
            ),
        forall|i: int|
            0 <= i < entry.1.len() && entry.1[i] != '`' ==> #[trigger] value_line(entry)[i + 3]
                == entry.1[i],
{
    reveal_strlit("```");
    reveal_strlit("```\n");
    assert("```"@ =~= seq!['`', '`', '`']);
    assert("```\n"@ =~= seq!['`', '`', '`', '\n']);
    let v = value_line(entry);
    assert forall|i: int| 0 <= i < entry.1.len() implies #[trigger] v[i + 3] == mask_char(
        entry.1[i],
    ) by {
        assert(v[i + 3] == mask_backticks(entry.1)[i]);
    }
}

/// The blocks for a single entry are that entry's block. Together with
/// `lemma_value_lines_concat` this fixes the blocks of any list of entries: one block
/// per entry, in order.
pub proof fn lemma_value_lines_single(entry: (Seq<char>, Seq<char>))
    ensures
        value_lines(seq![entry]) == value_line(entry),
{
    let one = seq![entry];
    assert(one.drop_last() =~= Seq::<(Seq<char>, Seq<char>)>::empty());
    assert(one.last() == entry);
    assert(value_lines(one.drop_last()) == Seq::<char>::empty());
    assert(value_lines(one) =~= value_line(entry));
}

/// A notification, for every flavor, is the header, then the visible labels' lines, then
/// the blocks of all log lines: dropping all entries removes exactly their blocks, one
/// more entry adds exactly its block at the end, and without labels or entries only the
/// header is left.
pub proof fn lemma_message_parts(
    flavor: MarkdownFlavor,
    labels: Seq<(Seq<char>, Seq<char>)>,
    values: Seq<(Seq<char>, Seq<char>)>,
    visible: Seq<Seq<char>>,
    dc: Seq<char>,
    entry: (Seq<char>, Seq<char>),
)
    ensures
        message(flavor, labels, values, visible, dc) == message(
            flavor,
            labels,
            Seq::empty(),
            visible,
            dc,
        ) + value_lines(values),
        message(flavor, labels, values.push(entry), visible, dc) == message(
            flavor,
            labels,
            values,
            visible,
            dc,
        ) + value_line(entry),
        message(flavor, labels, Seq::empty(), Seq::empty(), dc) == header_line(flavor, dc),
        message(flavor, labels, Seq::empty(), visible, dc) == header_line(flavor, dc)
            + label_lines(flavor, labels, visible),
{
    let e = Seq::<(Seq<char>, Seq<char>)>::empty();
    assert(value_lines(e) == Seq::<char>::empty());
    assert(label_lines(flavor, labels, Seq::<Seq<char>>::empty()) == Seq::<char>::empty());
    assert(message(flavor, labels, values, visible, dc) =~= message(
        flavor,
        labels,
        e,
        visible,
        dc,
    ) + value_lines(values));
    lemma_value_lines_concat(values, seq![entry]);
    lemma_value_lines_single(entry);
    assert(values + seq![entry] =~= values.push(entry));
    assert(message(flavor, labels, values.push(entry), visible, dc) =~= message(
        flavor,
        labels,
        values,
        visible,
        dc,
    ) + value_line(entry));
    assert(message(flavor, labels, e, Seq::empty(), dc) =~= header_line(flavor, dc));
    assert(message(flavor, labels, e, visible, dc) =~= header_line(flavor, dc) + label_lines(
        flavor,
        labels,
        visible,
    ));
}

/// The lookup finds the first label with that name: where label `k` is the first one
/// named `name`, its value is found; where no label has the name, nothing is.
pub proof fn lemma_label_value_first(labels: Seq<(Seq<char>, Seq<char>)>, name: Seq<char>, k: int)
    ensures
        0 <= k < labels.len() && labels[k].0 == name && (forall|j: int|
            0 <= j < k ==> (#[trigger] labels[j]).0 != name) ==> label_value(labels, name)
            == Some(labels[k].1),
        label_value(labels, name) is None <==> forall|j: int|
            0 <= j < labels.len() ==> (#[trigger] labels[j]).0 != name,
    decreases labels.len(),
{
    if labels.len() > 0 {
        let rest = labels.drop_first();
        lemma_label_value_first(rest, name, k - 1);
        if 0 < k < labels.len() && labels[k].0 == name && (forall|j: int|
            0 <= j < k ==> (#[trigger] labels[j]).0 != name) {
            assert(labels[0].0 != name);
            assert(rest[k - 1] == labels[k]);
            assert forall|j: int| 0 <= j < k - 1 implies (#[trigger] rest[j]).0 != name by {
                assert(rest[j] == labels[j + 1]);
            }
        }
        if label_value(labels, name) is None {
            assert forall|j: int| 0 <= j < labels.len() implies (#[trigger] labels[j]).0 != name by {
                if j > 0 {
                    assert(rest[j - 1] == labels[j]);
                }
            }
        } else if forall|j: int| 0 <= j < labels.len() ==> (#[trigger] labels[j]).0 != name {
            assert(labels[0].0 != name);
            assert forall|j: int| 0 <= j < rest.len() implies (#[trigger] rest[j]).0 != name by {
                assert(rest[j] == labels[j + 1]);
            }
        }
    }
}

/// The header names the data center in bold after `Datacenter ` and ends the line.
pub proof fn lemma_header_shape(flavor: MarkdownFlavor, dc: Seq<char>)
    ensures
        header_line(flavor, dc) == seq!['D', 'a', 't', 'a', 'c', 'e', 'n', 't', 'e', 'r', ' ']
            + bold(flavor, dc) + seq!['\n'],
{
    reveal_strlit("Datacenter ");
    reveal_strlit("\n");
    assert("Datacenter "@ =~= seq!['D', 'a', 't', 'a', 'c', 'e', 'n', 't', 'e', 'r', ' ']);
    assert("\n"@ =~= seq!['\n']);
}

} // verus!
