//! Inline text: the element tree, its rendering, and the parsing of a run of
//! text into elements.

use vstd::prelude::*;
use crate::inline_facts::lemma_inline_round_trip;
use crate::inline_parser::{elements_of, parse_tokens};
use crate::text::{chars_of, push_str, string_of};
use crate::tokenizer::{balance_penalty, simulate_balance, tokenize, tokens_of};

verus! {

/// One piece of formatted text.
#[derive(Debug, PartialEq)]
pub enum InlineElement {
    Text(String),
    Bold(Vec<InlineElement>),
    Italic(Vec<InlineElement>),
    Code(String),
    Link { text: String, url: String },
}

/// What an [`InlineElement`] stands for.
pub enum InlineElementView {
    Text(Seq<char>),
    Bold(Seq<InlineElementView>),
    Italic(Seq<InlineElementView>),
    Code(Seq<char>),
    Link { text: Seq<char>, url: Seq<char> },
}

/// What the elements of `v` stand for, in order.
pub open spec fn elements_view(v: Seq<InlineElement>) -> Seq<InlineElementView>
    decreases v, 0nat,
{
    Seq::new(
        v.len(),
        |i: int|
            if 0 <= i < v.len() {
                element_view(v[i])
            } else {
                InlineElementView::Text(Seq::empty())
            },
    )
}

/// What the element `e` stands for.
pub open spec fn element_view(e: InlineElement) -> InlineElementView
    decreases e, 1nat,
{
    match e {
        InlineElement::Text(t) => InlineElementView::Text(t@),
        InlineElement::Bold(v) => InlineElementView::Bold(elements_view(v@)),
        InlineElement::Italic(v) => InlineElementView::Italic(elements_view(v@)),
        InlineElement::Code(t) => InlineElementView::Code(t@),
        InlineElement::Link { text, url } => InlineElementView::Link { text: text@, url: url@ },
    }
}

impl View for InlineElement {
    type V = InlineElementView;

    open spec fn view(&self) -> InlineElementView {
        element_view(*self)
    }
}

/// One run of formatted text.
#[derive(Debug, Clone, PartialEq)]
pub struct InlineText {
    pub elements: Vec<InlineElement>,
}

impl View for InlineText {
    type V = Seq<InlineElementView>;

    open spec fn view(&self) -> Seq<InlineElementView> {
        elements_view(self.elements@)
    }
}

/// The Markdown text of the elements `es`, one after the other.
pub open spec fn render_elements(es: Seq<InlineElementView>) -> Seq<char>
    decreases es, 0nat,
{
    if es.len() == 0 {
        seq![]
    } else {
        render_elements(es.drop_last()) + render_element(es.last())
    }
}

/// The Markdown text of the element `e`.
pub open spec fn render_element(e: InlineElementView) -> Seq<char>
    decreases e, 1nat,
{
    match e {
        InlineElementView::Text(t) => t,
        InlineElementView::Bold(es) => seq!['*', '*'] + render_elements(es) + seq!['*', '*'],
        InlineElementView::Italic(es) => seq!['*'] + render_elements(es) + seq!['*'],
        InlineElementView::Code(t) => seq!['`'] + t + seq!['`'],
        InlineElementView::Link { text, url } => seq!['['] + text + seq![']', '('] + url + seq![')'],
    }
}

/// Adding one element adds its view.
pub proof fn lemma_elements_view_push(v: Seq<InlineElement>, e: InlineElement)
    ensures
        elements_view(v.push(e)) == elements_view(v).push(e@),
{
    assert(elements_view(v.push(e)) =~= elements_view(v).push(e@));
}

/// Appends the Markdown text of the elements of `v` to `out`.
fn render_elements_into(v: &Vec<InlineElement>, out: &mut Vec<char>)
    ensures
        final(out)@ == old(out)@ + render_elements(elements_view(v@)),
    decreases v, 0nat,
{
    let mut i: usize = 0;
    assert(elements_view(v@).take(0) =~= Seq::<InlineElementView>::empty());
    assert(out@ =~= old(out)@ + render_elements(elements_view(v@).take(0)));
    while i < v.len()
        invariant
            i <= v.len(),
            out@ == old(out)@ + render_elements(elements_view(v@).take(i as int)),
        decreases v.len() - i,
    {
        let ghost before = out@;
        render_element_into(&v[i], out);
        proof {
            let es = elements_view(v@);
            assert(es.take(i + 1).drop_last() =~= es.take(i as int));
            assert(es.take(i + 1).last() == v@[i as int]@);
            assert(out@ =~= old(out)@ + render_elements(es.take(i + 1)));
        }
        i += 1;
    }
    assert(elements_view(v@).take(v.len() as int) =~= elements_view(v@));
}

/// Appends the Markdown text of `e` to `out`.
fn render_element_into(e: &InlineElement, out: &mut Vec<char>)
    ensures
        final(out)@ == old(out)@ + render_element(e@),
    decreases e, 1nat,
{
    match e {
        InlineElement::Text(t) => {
            push_str(out, t.as_str());
        },
        InlineElement::Bold(v) => {
            out.push('*');
            out.push('*');
            render_elements_into(v, out);
            out.push('*');
            out.push('*');
            assert(out@ =~= old(out)@ + render_element(e@));
        },
        InlineElement::Italic(v) => {
            out.push('*');
            render_elements_into(v, out);
            out.push('*');
            assert(out@ =~= old(out)@ + render_element(e@));
        },
        InlineElement::Code(t) => {
            out.push('`');
            push_str(out, t.as_str());
            out.push('`');
            assert(out@ =~= old(out)@ + render_element(e@));
        },
        InlineElement::Link { text, url } => {
            out.push('[');
            push_str(out, text.as_str());
            out.push(']');
            out.push('(');
            push_str(out, url.as_str());
            out.push(')');
            assert(out@ =~= old(out)@ + render_element(e@));
        },
    }
}

/// A copy of the elements of `v`.
fn clone_elements(v: &Vec<InlineElement>) -> (r: Vec<InlineElement>)
    ensures
        elements_view(r@) == elements_view(v@),
    decreases v, 0nat,
{
    let mut r: Vec<InlineElement> = Vec::new();
    let mut i: usize = 0;
    while i < v.len()
        invariant
            i <= v.len(),
            r@.len() == i,
            forall|j: int| 0 <= j < i ==> (#[trigger] r@[j])@ == v@[j]@,
        decreases v.len() - i,
    {
        let e = v[i].clone();
        r.push(e);
        i += 1;
    }
    assert(elements_view(r@) =~= elements_view(v@));
    r
}

impl Clone for InlineElement {
    fn clone(&self) -> (r: Self)
        ensures
            r@ == self@,
        decreases self, 1nat,
    {
        match self {
            InlineElement::Text(t) => InlineElement::Text(t.clone()),
            InlineElement::Bold(v) => InlineElement::Bold(clone_elements(v)),
            InlineElement::Italic(v) => InlineElement::Italic(clone_elements(v)),
            InlineElement::Code(t) => InlineElement::Code(t.clone()),
            InlineElement::Link { text, url } => InlineElement::Link {
                text: text.clone(),
                url: url.clone(),
            },
        }
    }
}

/// Appends the Markdown text of `run` to `out`.
pub fn render_run(run: &InlineText, out: &mut Vec<char>)
    ensures
        final(out)@ == old(out)@ + render_elements(run@),
{
    render_elements_into(&run.elements, out);
}

impl InlineElement {
    /// The Markdown text of this element.
    pub fn to_markdown(&self) -> (r: String)
        ensures
            r@ == render_element(self@),
    {
        let mut out: Vec<char> = Vec::new();
        render_element_into(self, &mut out);
        assert(out@ =~= render_element(self@));
        string_of(out.as_slice())
    }
}

impl InlineText {
    /// The run that holds `elements`.
    pub fn new(elements: Vec<InlineElement>) -> (r: Self)
        ensures
            r.elements == elements,
            r@ == elements_view(elements@),
    {
        Self { elements }
    }

    /// The run that holds `text` as one literal element.
    pub fn from_plain(text: String) -> (r: Self)
        ensures
            r@ == seq![InlineElementView::Text(text@)],
    {
        let mut elements: Vec<InlineElement> = Vec::new();
        elements.push(InlineElement::Text(text));
        assert(elements_view(elements@) =~= seq![InlineElementView::Text(text@)]);
        Self { elements }
    }

    /// The Markdown text of this run.
    pub fn to_markdown(&self) -> (r: String)
        ensures
            r@ == render_elements(self@),
    {
        let mut out: Vec<char> = Vec::new();
        render_elements_into(&self.elements, &mut out);
        assert(out@ =~= render_elements(self@));
        string_of(out.as_slice())
    }
}

/// The inline run that the text `s` stands for.
pub open spec fn inline_of(s: Seq<char>) -> Seq<InlineElementView> {
    elements_of(tokens_of(s))
}

/// The balance penalty of `text` under one reading of the three stars that
/// it begins with, for a text whose penalty fits the result type.
pub fn simulate_balance_debug(text: &str, bold_first: bool) -> (r: i32)
    requires
        balance_penalty(text@, bold_first) <= i32::MAX,
    ensures
        r == balance_penalty(text@, bold_first),
{
    let chars = chars_of(text);
    let penalty = simulate_balance(chars.as_slice(), bold_first);
    penalty as i32
}

/// The inline run that the text `input` stands for. It loses nothing of
/// the text: it renders back to `input`.
pub fn parse_inline_chars(input: &[char]) -> (r: InlineText)
    ensures
        r@ == inline_of(input@),
        render_elements(r@) == input@,
{
    proof {
        lemma_inline_round_trip(input@);
    }
    let tokens = tokenize(input);
    let elements = parse_tokens(tokens.as_slice());
    InlineText::new(elements)
}

/// The inline run that the text `input` stands for. It loses nothing of
/// the text: it renders back to `input`.
pub fn parse_inline(input: &str) -> (r: InlineText)
    ensures
        r@ == inline_of(input@),
        render_elements(r@) == input@,
{
    let chars = chars_of(input);
    parse_inline_chars(chars.as_slice())
}

} // verus!
