//! Key hints shown in the footer line.

use vstd::prelude::*;
use crate::text::{push_str, str_equals, string_from_chars};

verus! {

/// The hint that `Tab`/`Shift-Tab` cycles focus between stacked layers.
pub open spec fn cycle_hint() -> (&'static str, &'static str) {
    ("Tab/S-Tab", "focus")
}

/// Position of the first hint whose key is `q`, if any.
pub open spec fn quit_hint_position(hints: Seq<(&'static str, &'static str)>) -> Option<int> {
    if exists|i: int| 0 <= i < hints.len() && hints[i].0@ == seq!['q'] {
        Some(
            choose|i: int|
                0 <= i < hints.len() && hints[i].0@ == seq!['q'] && forall|j: int|
                    0 <= j < i ==> hints[j].0@ != seq!['q'],
        )
    } else {
        None
    }
}

/// The footer hints: those of the focus stack, and, when more than the
/// base layer is stacked, the focus-cycling hint just before the quit
/// hint (at the end where there is none).
pub open spec fn footer_hints(hints: Seq<(&'static str, &'static str)>, stack_len: nat) -> Seq<
    (&'static str, &'static str),
> {
    if stack_len > 1 {
        match quit_hint_position(hints) {
            Some(i) => hints.insert(i, cycle_hint()),
            None => hints.push(cycle_hint()),
        }
    } else {
        hints
    }
}

/// The hints for the footer line, given the focus stack's own hints and
/// the number of layers on the stack.
pub fn build_hints(stack_hints: Vec<(&'static str, &'static str)>, stack_len: usize) -> (out: Vec<
    (&'static str, &'static str),
>)
    ensures
        out@ == footer_hints(stack_hints@, stack_len as nat),
{
    let ghost orig = stack_hints@;
    let mut hints = stack_hints;
    if stack_len > 1 {
        let cycle = ("Tab/S-Tab", "focus");
        assert(cycle == cycle_hint());
        let q: [char; 1] = ['q'];
        assert(q@ =~= seq!['q']);
        let n = hints.len();
        let mut i: usize = 0;
        while i < n
            invariant
                hints@ == orig,
                orig == stack_hints@,
                cycle == cycle_hint(),
                stack_len > 1,
                n == hints@.len(),
                i <= n,
                q@ == seq!['q'],
                forall|j: int| 0 <= j < i ==> hints@[j].0@ != seq!['q'],
            decreases n - i,
        {
            if str_equals(hints[i].0, &q) {
                proof {
                    let ii = i as int;
                    assert(0 <= ii < orig.len() && orig[ii].0@ == seq!['q'] && forall|j: int|
                        0 <= j < ii ==> orig[j].0@ != seq!['q']);
                    let p = quit_hint_position(orig);
                    assert(p is Some);
                    let c = p->0;
                    assert(0 <= c < orig.len() && orig[c].0@ == seq!['q'] && forall|j: int|
                        0 <= j < c ==> orig[j].0@ != seq!['q']);
                    assert(c == ii) by {
                        if c < ii {
                            assert(orig[c].0@ != seq!['q']);
                        } else if c > ii {
                            assert(orig[ii].0@ != seq!['q']);
                        }
                    }
                }
                hints.insert(i, cycle);
                return hints;
            }
            i += 1;
        }
        proof {
            assert(quit_hint_position(orig) is None);
        }
        hints.push(cycle);
    }
    hints
}


/// How a piece of the footer line is styled.
#[derive(Clone, Copy, Debug, PartialEq, Eq, Structural)]
pub enum FooterStyle {
    /// The gap between entries, in the muted colour.
    Separator,
    /// The name of the focused layer, as a highlighted chip.
    FocusedName,
    /// A key, as a highlighted chip.
    Key,
    /// What a key does, in the muted colour.
    Description,
}

/// A styled piece of the footer line.
#[derive(Clone, Debug, PartialEq, Eq)]
pub struct FooterSpan {
    pub text: String,
    pub style: FooterStyle,
}

/// The gap between footer entries.
pub open spec fn separator_span() -> (Seq<char>, FooterStyle) {
    (seq![' ', ' '], FooterStyle::Separator)
}

/// The spans of the key hints: each key as a chip ` key ` followed by
/// its description ` description`, entries separated by the gap.
pub open spec fn hint_spans(hints: Seq<(&'static str, &'static str)>) -> Seq<(Seq<char>, FooterStyle)>
    decreases hints.len(),
{
    if hints.len() == 0 {
        Seq::empty()
    } else {
        let (key, desc) = hints.last();
        hint_spans(hints.drop_last()) + (if hints.len() > 1 {
            seq![separator_span()]
        } else {
            Seq::empty()
        }) + seq![
            (seq![' '] + key@ + seq![' '], FooterStyle::Key),
            (seq![' '] + desc@, FooterStyle::Description),
        ]
    }
}

/// The footer line: the focused layer's name as a chip ` name ` and a
/// gap when a layer other than the base has focus (`focused` not empty),
/// then the key hints.
pub open spec fn footer_line(focused: Seq<char>, hints: Seq<(&'static str, &'static str)>) -> Seq<
    (Seq<char>, FooterStyle),
> {
    (if focused.len() > 0 {
        seq![(seq![' '] + focused + seq![' '], FooterStyle::FocusedName), separator_span()]
    } else {
        Seq::empty()
    }) + hint_spans(hints)
}

/// Whether the spans `spans` read as `line`.
pub open spec fn spans_match(spans: Seq<FooterSpan>, line: Seq<(Seq<char>, FooterStyle)>) -> bool {
    &&& spans.len() == line.len()
    &&& forall|j: int|
        0 <= j < spans.len() ==> (#[trigger] spans[j]).text@ == line[j].0 && spans[j].style
            == line[j].1
}

fn push_span(spans: &mut Vec<FooterSpan>, before: char, s: &str, after: Option<char>, style: FooterStyle)
    ensures
        final(spans)@.len() == old(spans)@.len() + 1,
        forall|j: int| 0 <= j < old(spans)@.len() ==> final(spans)@[j] == old(spans)@[j],
        final(spans)@.last().text@ == seq![before] + s@ + match after {
            Some(c) => seq![c],
            None => Seq::empty(),
        },
        final(spans)@.last().style == style,
{
    let mut chars: Vec<char> = Vec::new();
    chars.push(before);
    push_str(&mut chars, s);
    match after {
        Some(c) => chars.push(c),
        None => {},
    }
    proof {
        assert(chars@ =~= seq![before] + s@ + match after {
            Some(c) => seq![c],
            None => Seq::<char>::empty(),
        });
    }
    spans.push(FooterSpan { text: string_from_chars(&chars), style });
}

fn push_separator(spans: &mut Vec<FooterSpan>)
    ensures
        final(spans)@.len() == old(spans)@.len() + 1,
        forall|j: int| 0 <= j < old(spans)@.len() ==> final(spans)@[j] == old(spans)@[j],
        final(spans)@.last().text@ == separator_span().0,
        final(spans)@.last().style == separator_span().1,
{
    let mut chars: Vec<char> = Vec::new();
    chars.push(' ');
    chars.push(' ');
    proof {
        assert(chars@ =~= seq![' ', ' ']);
    }
    spans.push(FooterSpan { text: string_from_chars(&chars), style: FooterStyle::Separator });
}

/// The styled pieces of the footer line, given the name of the focused
/// layer (empty when the map itself has focus) and the key hints.
pub fn footer_spans(focused: &str, hints: &Vec<(&'static str, &'static str)>) -> (spans: Vec<
    FooterSpan,
>)
    ensures
        spans_match(spans@, footer_line(focused@, hints@)),
{
    let mut spans: Vec<FooterSpan> = Vec::new();
    if !focused.is_empty() {
        push_span(&mut spans, ' ', focused, Some(' '), FooterStyle::FocusedName);
        push_separator(&mut spans);
    }
    let ghost head = if focused@.len() > 0 {
        seq![(seq![' '] + focused@ + seq![' '], FooterStyle::FocusedName), separator_span()]
    } else {
        Seq::<(Seq<char>, FooterStyle)>::empty()
    };
    assert(spans_match(spans@, head));
    let n = hints.len();
    for i in 0..n
        invariant
            n == hints@.len(),
            spans_match(spans@, head + hint_spans(hints@.take(i as int))),
    {
        let ghost before = spans@;
        let ghost line = head + hint_spans(hints@.take(i as int));
        let (key, desc) = hints[i];
        if i > 0 {
            push_separator(&mut spans);
        }
        push_span(&mut spans, ' ', key, Some(' '), FooterStyle::Key);
        push_span(&mut spans, ' ', desc, None, FooterStyle::Description);
        proof {
            let next = hints@.take(i + 1);
            assert(next.drop_last() =~= hints@.take(i as int));
            assert(next.last() == (key, desc));
            let added = (if i > 0 {
                seq![separator_span()]
            } else {
                Seq::<(Seq<char>, FooterStyle)>::empty()
            }) + seq![
                (seq![' '] + key@ + seq![' '], FooterStyle::Key),
                (seq![' '] + desc@, FooterStyle::Description),
            ];
            assert(hint_spans(next) == hint_spans(hints@.take(i as int)) + added);
            assert(head + hint_spans(next) =~= line + added);
            assert(spans_match(spans@, line + added)) by {
                assert forall|j: int| 0 <= j < spans@.len() implies (#[trigger] spans@[j]).text@ == (
                line + added)[j].0 && spans@[j].style == (line + added)[j].1 by {
                    if j < before.len() {
                        assert(spans@[j] == before[j]);
                    }
                }
            }
        }
    }
    assert(hints@.take(n as int) =~= hints@);
    spans
}

} // verus!
