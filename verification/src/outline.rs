//! A drawing of a tree, line by line.
use vstd::prelude::*;
use crate::node::{views, Node};
use crate::tree::Tree;

verus! {

/// The text that `bytes` stand for when what is not UTF-8 is replaced.
pub uninterp spec fn lossy_text(bytes: Seq<u8>) -> Seq<char>;

/// Calls `String::from_utf8_lossy`.
///
/// Trusted: the result is a function of the bytes alone, and bytes that are UTF-8 are decoded as
/// they are. How bytes that are not UTF-8 are replaced is left open.
#[verifier::external_body]
fn from_utf8_lossy(bytes: &[u8]) -> (text: String)
    ensures
        text@ == lossy_text(bytes@),
        vstd::utf8::valid_utf8(bytes@) ==> text@ == vstd::utf8::decode_utf8(bytes@),
{
    String::from_utf8_lossy(bytes).into_owned()
}

/// The text in quotes that `{:?}` shows for a string.
pub uninterp spec fn quoted(text: Seq<char>) -> Seq<char>;

/// Formats a string with `{:?}`, which calls `<str as Debug>::fmt`.
///
/// Trusted: the result is a function of the characters alone. Which of them are escaped, and how,
/// is left open.
#[verifier::external_body]
fn quote(text: &str) -> (shown: String)
    ensures
        shown@ == quoted(text@),
{
    format!("{text:?}")
}

/// Formats a value with `{:?}`, which calls `Debug::fmt` of its type.
///
/// Trusted, but nothing is claimed of the result: every type has its own. [`shown_as`] says of a
/// text that it is such a result. A `Debug` that fails or panics makes this panic.
#[verifier::external_body]
fn show<V: std::fmt::Debug>(value: &V) -> (shown: String) {
    format!("{value:?}")
}

/// Calls `f` on `value`, and says so.
fn apply<V, F: Fn(&V) -> String>(f: F, value: &V) -> (shown: String)
    requires
        call_requires(f, (value,)),
    ensures
        call_ensures(f, (value,), shown),
{
    f(value)
}

/// The place that `{:?}` writes to.
#[verifier::external_type_specification]
#[verifier::external_body]
pub struct ExFormatter<'a>(std::fmt::Formatter<'a>);

/// What writing fails with.
#[verifier::external_type_specification]
#[verifier::external_body]
pub struct ExFormatError(std::fmt::Error);

/// Calls `Formatter::write_str`.
///
/// Trusted, but nothing is claimed of it: where the text goes, and whether there is room for it,
/// depends on what stands behind the formatter. [`written`] says that such a call was made.
#[verifier::external_body]
fn write_str(f: &mut std::fmt::Formatter<'_>, text: &str) -> (result: std::fmt::Result) {
    f.write_str(text)
}

/// Calls `write` on `f` and `text`, and says so.
fn put<F>(write: F, f: &mut std::fmt::Formatter<'_>, text: &str) -> (result: std::fmt::Result) where
    F: Fn(&mut std::fmt::Formatter<'_>, &str) -> std::fmt::Result,

    requires
        forall|x: &mut std::fmt::Formatter<'_>, t: &str| #[trigger] call_requires(write, (x, t)),
    ensures
        exists|x: &mut std::fmt::Formatter<'_>, t: &str| {
            &&& #[trigger] call_ensures(write, (x, t), result)
            &&& *x == *old(f)
            &&& *final(x) == *final(f)
            &&& t@ == text@
        },
{
    write(f, text)
}

/// One line of a drawing.
#[derive(Debug)]
pub struct Row<'a, V> {
    /// What is drawn to the left of the node.
    pub lead: String,
    /// The label of the node.
    pub label: String,
    /// The value of the node.
    pub value: Option<&'a V>,
}

/// The lines for a tree whose lines begin with `prefix`, with what stands to the left of each
/// node. The top of the drawing is the tree without a prefix.
pub open spec fn lines<V>(t: Tree<V>, prefix: Seq<char>, is_last: bool) -> Seq<(Seq<char>, Tree<V>)>
    decreases t,
{
    let lead = if prefix.len() == 0 {
        Seq::empty()
    } else if is_last {
        prefix + "└── "@
    } else {
        prefix + "├── "@
    };
    seq![(lead, t)] + lines_all(
        t.children,
        if is_last || prefix.len() == 0 {
            prefix + "    "@
        } else {
            prefix + "│   "@
        },
    )
}

/// The lines for the children of one node.
pub open spec fn lines_all<V>(ts: Seq<Tree<V>>, prefix: Seq<char>) -> Seq<(Seq<char>, Tree<V>)>
    decreases ts,
{
    if ts.len() == 0 {
        Seq::empty()
    } else {
        lines(ts[0], prefix, ts.len() == 1) + lines_all(ts.drop_first(), prefix)
    }
}

/// The lines for the trees on a stack, beginning with the tree on its top.
spec fn pending_lines<V>(stack: Seq<(&Node<V>, String, bool)>) -> Seq<(Seq<char>, Tree<V>)>
    decreases stack.len(),
{
    if stack.len() == 0 {
        Seq::empty()
    } else {
        lines(stack.last().0@, stack.last().1@, stack.last().2) + pending_lines(stack.drop_last())
    }
}

/// The text of one line: what stands to the left, the label and the value as they are shown, and
/// the end of the line.
pub open spec fn line_text(
    lead: Seq<char>,
    label: Seq<char>,
    value: Option<Seq<char>>,
) -> Seq<char> {
    let end = match value {
        Some(shown) => "("@ + shown + ")"@,
        None => "(-)"@,
    };
    lead + label + " "@ + end + "\n"@
}

/// Whether `{:?}` can show `value` as `text`.
pub closed spec fn shown_as<V: std::fmt::Debug>(value: V, text: Seq<char>) -> bool {
    exists|shown: String| shown@ == text && #[trigger] call_ensures(show::<V>, (&value,), shown)
}

/// Whether `text` can be the line of a drawing for `line.1`, with `line.0` to its left: the label
/// in quotes, and the value as `{:?}` shows it.
pub open spec fn line_shown<V: std::fmt::Debug>(
    line: (Seq<char>, Tree<V>),
    text: Seq<char>,
) -> bool {
    let label = quoted(lossy_text(line.1.label));
    match line.1.value {
        Some(value) => exists|shown: Seq<char>| #[trigger]
            shown_as(value, shown) && text == line_text(line.0, label, Some(shown)),
        None => text == line_text(line.0, label, None),
    }
}

/// Whether there is an `i`-th among `texts`.
pub open spec fn within(i: int, texts: Seq<Seq<char>>) -> bool {
    0 <= i < texts.len()
}

/// Whether `f` can take up `text` with such a `result`. What becomes of `f` is its final value.
pub closed spec fn written(
    f: &mut std::fmt::Formatter<'_>,
    text: &str,
    result: std::fmt::Result,
) -> bool {
    call_ensures(write_str, (f, text), result)
}

/// What a value is shown as, [`show`] has made of it.
proof fn law_shown_as<V: std::fmt::Debug>(value: V, text: Seq<char>)
    requires
        shown_as(value, text),
    ensures
        exists|shown: String|
            shown@ == text && #[trigger] call_ensures(show::<V>, (&value,), shown),
{
}

/// What a formatter takes up, [`write_str`] has handed to it.
proof fn law_written(f: &mut std::fmt::Formatter<'_>, text: &str, result: std::fmt::Result)
    requires
        written(f, text, result),
    ensures
        call_ensures(write_str, (f, text), result),
{
}

impl<'a, V> Row<'a, V> {
    /// Returns the text of this line, with the label shown as `label` and the value, if there is
    /// one, as `value`.
    pub fn line(&self, label: &str, value: Option<&str>) -> (text: String)
        ensures
            text@ == line_text(
                self.lead@,
                label@,
                match value {
                    Some(shown) => Some(shown@),
                    None => None,
                },
            ),
    {
        let mut text = self.lead.clone();
        text.append(label);
        text.append(" ");
        match value {
            Some(shown) => {
                let mut end = String::new();
                end.append("(");
                end.append(shown);
                end.append(")");
                assert(end@ =~= "("@ + shown@ + ")"@);
                text.append(end.as_str());
            },
            None => {
                text.append("(-)");
            },
        }
        text.append("\n");
        text
    }

    /// Whether this row is the line of a drawing for `line.1`, with `line.0` to its left.
    pub open spec fn shows(self, line: (Seq<char>, Tree<V>)) -> bool {
        &&& self.lead@ == line.0
        &&& self.label@ == lossy_text(line.1.label)
        &&& vstd::utf8::valid_utf8(line.1.label) ==> self.label@ == vstd::utf8::decode_utf8(
            line.1.label,
        )
        &&& self.value is Some <==> line.1.value is Some
        &&& self.value is Some ==> *self.value->0 == line.1.value->0
    }
}

/// Whether `rows` are the lines of a drawing.
pub open spec fn drawn<V>(rows: Seq<Row<'_, V>>, drawing: Seq<(Seq<char>, Tree<V>)>) -> bool {
    &&& rows.len() == drawing.len()
    &&& forall|i: int| 0 <= i < rows.len() ==> (#[trigger] rows[i]).shows(drawing[i])
}

impl<V> Node<V> {
    /// Returns the label of this node.
    pub fn label_str_lossy(&self) -> (text: String)
        ensures
            text@ == lossy_text(self@.label),
            vstd::utf8::valid_utf8(self@.label) ==> text@ == vstd::utf8::decode_utf8(self@.label),
    {
        from_utf8_lossy(self.label())
    }

    /// Returns the lines of a drawing of this tree, the top first and each node before what is
    /// below it.
    pub fn outline(&self) -> (rows: Vec<Row<'_, V>>)
        ensures
            drawn(rows@, lines(self@, Seq::empty(), false)),
    {
        let ghost goal = lines(self@, Seq::empty(), false);
        let mut rows: Vec<Row<'_, V>> = Vec::new();
        // the node, what its lines begin with, and whether it is the last of its siblings
        let mut stack: Vec<(&Node<V>, String, bool)> = Vec::new();
        stack.push((self, String::new(), false));
        proof {
            assert(pending_lines(stack@.drop_last()) =~= Seq::empty());
        }
        while stack.len() > 0
            invariant
                rows@.len() + pending_lines(stack@).len() == goal.len(),
                pending_lines(stack@) == goal.skip(rows@.len() as int),
                forall|i: int| 0 <= i < rows@.len() ==> (#[trigger] rows@[i]).shows(goal[i]),
            decreases pending_lines(stack@).len(),
        {
            let ghost before = stack@;
            let (node, prefix, is_last) = match stack.pop() {
                None => {
                    return rows;
                },
                Some(item) => item,
            };
            let ghost t = node@;
            let ghost under = stack@;
            let root = prefix.as_str().unicode_len() == 0;
            let mut lead = String::new();
            if !root {
                lead = prefix.clone();
                // the branch characters for the current node
                if is_last {
                    lead.append("└── ");
                } else {
                    lead.append("├── ");
                }
            }
            assert(pending_lines(before)[0] == goal[rows@.len() as int]);
            rows.push(Row { lead, label: node.label_str_lossy(), value: node.value() });
            // this extends the line drawing from the parent
            let mut child_prefix = prefix;
            if is_last || root {
                child_prefix.append("    ");
            } else {
                child_prefix.append("│   ");
            }
            let ghost down = child_prefix@;
            let children = node.children();
            let n: usize = children.len();
            let mut i: usize = n;
            while i > 0
                invariant
                    i <= n,
                    n == children@.len(),
                    views(children@) == t.children,
                    down == child_prefix@,
                    pending_lines(stack@) == lines_all(t.children.skip(i as int), down)
                        + pending_lines(under),
                decreases i,
            {
                let ghost had = stack@;
                i = i - 1;
                stack.push((&children[i], child_prefix.clone(), i + 1 == n));
                proof {
                    let rest = t.children.skip(i as int);
                    assert(stack@.drop_last() =~= had);
                    assert(rest.drop_first() =~= t.children.skip(i + 1));
                }
            }
            proof {
                assert(t.children.skip(0) =~= t.children);
                assert(pending_lines(before).drop_first() =~= pending_lines(stack@));
            }
        }
        rows
    }
}

impl<'a, V: std::fmt::Debug> Row<'a, V> {
    /// Returns the text of this line, with the label and the value as `{:?}` shows them.
    ///
    /// A value whose `Debug` fails or panics makes this panic.
    pub fn text(&self) -> (text: String)
        ensures
            match self.value {
                Some(value) => exists|shown: Seq<char>| #[trigger]
                    shown_as(*value, shown) && text@ == line_text(
                        self.lead@,
                        quoted(self.label@),
                        Some(shown),
                    ),
                None => text@ == line_text(self.lead@, quoted(self.label@), None),
            },
    {
        let label = quote(self.label.as_str());
        match self.value {
            Some(value) => {
                let shown = apply(show::<V>, value);
                assert(shown_as(*value, shown@));
                self.line(label.as_str(), Some(shown.as_str()))
            },
            None => self.line(label.as_str(), None),
        }
    }
}

impl<V: std::fmt::Debug> std::fmt::Debug for Node<V> {
    /// Writes a drawing of this tree, line by line, until all is written or a line cannot be.
    ///
    /// `texts` are the lines that `f` was given, from the top on, and `stages` what `f` was before,
    /// between and after them.
    fn fmt(&self, f: &mut std::fmt::Formatter<'_>) -> (result: std::fmt::Result)
        ensures
            exists|texts: Seq<Seq<char>>, stages: Seq<std::fmt::Formatter<'_>>| {
                &&& #[trigger] texts.len() <= lines(self@, Seq::empty(), false).len()
                &&& #[trigger] stages.len() == texts.len() + 1
                &&& stages[0] == *old(f)
                &&& stages.last() == *final(f)
                &&& result is Ok ==> texts.len() == lines(self@, Seq::empty(), false).len()
                &&& result is Err ==> texts.len() > 0
                &&& forall|i: int|
                    0 <= i < texts.len() ==> line_shown(
                        lines(self@, Seq::empty(), false)[i],
                        #[trigger] texts[i],
                    )
                &&& forall|i: int| #[trigger]
                    within(i, texts) ==> exists|
                        x: &mut std::fmt::Formatter<'_>,
                        text: &str,
                        outcome: std::fmt::Result,
                    |
                    {
                        &&& #[trigger] written(x, text, outcome)
                        &&& if i + 1 < texts.len() || result is Ok {
                            outcome is Ok
                        } else {
                            outcome == result
                        }
                        &&& *x == stages[i]
                        &&& *final(x) == stages[i + 1]
                        &&& text@ == texts[i]
                    }
            },
    {
        let rows = self.outline();
        let ghost goal = lines(self@, Seq::empty(), false);
        let ghost mut texts: Seq<Seq<char>> = Seq::empty();
        let ghost mut stages: Seq<std::fmt::Formatter<'_>> = seq![*f];
        let mut i: usize = 0;
        while i < rows.len()
            invariant
                i <= rows@.len(),
                drawn(rows@, goal),
                goal == lines(self@, Seq::empty(), false),
                texts.len() == i,
                stages.len() == texts.len() + 1,
                stages[0] == *old(f),
                stages.last() == *f,
                forall|k: int| 0 <= k < texts.len() ==> line_shown(goal[k], #[trigger] texts[k]),
                forall|k: int| #[trigger]
                    within(k, texts) ==> exists|
                        x: &mut std::fmt::Formatter<'_>,
                        text: &str,
                        outcome: std::fmt::Result,
                    |
                    {
                        &&& #[trigger] written(x, text, outcome)
                        &&& outcome is Ok
                        &&& *x == stages[k]
                        &&& *final(x) == stages[k + 1]
                        &&& text@ == texts[k]
                    },
            decreases rows@.len() - i,
        {
            let ghost before = *f;
            let text = rows[i].text();
            let result = put(write_str, f, text.as_str());
            proof {
                assert(rows@[i as int].shows(goal[i as int]));
                let (x, t) = choose|x: &mut std::fmt::Formatter<'_>, t: &str| {
                    &&& #[trigger] call_ensures(write_str, (x, t), result)
                    &&& *x == before
                    &&& *final(x) == *f
                    &&& t@ == text@
                };
                assert(written(x, t, result));
                let had = texts;
                let were = stages;
                texts = texts.push(text@);
                stages = stages.push(*f);
                assert forall|k: int| #[trigger] within(k, texts) implies exists|
                    x: &mut std::fmt::Formatter<'_>,
                    text: &str,
                    outcome: std::fmt::Result,
                |
                {
                    &&& #[trigger] written(x, text, outcome)
                    &&& if k + 1 < texts.len() || result is Ok {
                        outcome is Ok
                    } else {
                        outcome == result
                    }
                    &&& *x == stages[k]
                    &&& *final(x) == stages[k + 1]
                    &&& text@ == texts[k]
                } by {
                    if k < i {
                        assert(within(k, had));
                        assert(had[k] == texts[k] && were[k] == stages[k]);
                        assert(were[k + 1] == stages[k + 1]);
                    }
                }
            }
            assert(stages.last() == *f);
            if result.is_err() {
                return result;
            }
            i = i + 1;
        }
        Ok(())
    }
}

} // verus!
