//! Field values: a value is a sequence of fragments, each plain text or
//! mathematics, and is rendered into one string.

use vstd::prelude::*;
use vstd::string::StringExecFns;

verus! {

/// One piece of a field's value.
#[derive(Debug)]
pub enum ValueFragment {
    /// Plain text. Text that the source protects with braces is `verbatim`:
    /// it renders like other text, but a name is never split inside it.
    Text { text: String, verbatim: bool },
    /// The inner text of a formula.
    Math(String),
}

/// What a `ValueFragment` holds.
pub enum FragmentView {
    Text { text: Seq<char>, verbatim: bool },
    Math(Seq<char>),
}

impl DeepView for ValueFragment {
    type V = FragmentView;

    open spec fn deep_view(&self) -> FragmentView {
        match self {
            ValueFragment::Text { text, verbatim } => FragmentView::Text {
                text: text@,
                verbatim: *verbatim,
            },
            ValueFragment::Math(inner) => FragmentView::Math(inner@),
        }
    }
}

impl View for ValueFragment {
    type V = FragmentView;

    open spec fn view(&self) -> FragmentView {
        self.deep_view()
    }
}

/// A formula between its two dollar signs.
pub open spec fn delimited(inner: Seq<char>) -> Seq<char> {
    seq!['$'] + inner + seq!['$']
}

/// One fragment as a string: text unchanged, a formula between dollar signs.
pub open spec fn rendered_fragment(fragment: FragmentView) -> Seq<char> {
    match fragment {
        FragmentView::Text { text, verbatim } => text,
        FragmentView::Math(inner) => delimited(inner),
    }
}

/// A value as a string: its fragments rendered one after the other, with
/// nothing between them.
pub open spec fn rendered(fragments: Seq<FragmentView>) -> Seq<char>
    decreases fragments.len(),
{
    if fragments.len() == 0 {
        Seq::empty()
    } else {
        rendered(fragments.drop_last()) + rendered_fragment(fragments.last())
    }
}

/// Rendering two runs of fragments one after the other renders their
/// concatenation.
pub proof fn lemma_rendered_concat(front: Seq<FragmentView>, back: Seq<FragmentView>)
    ensures
        rendered(front + back) == rendered(front) + rendered(back),
    decreases back.len(),
{
    if back.len() == 0 {
        assert(front + back == front);
    } else {
        lemma_rendered_concat(front, back.drop_last());
        assert((front + back).drop_last() == front + back.drop_last());
    }
}

/// A formula among the fragments of a value stands in the rendered value
/// between dollar signs, right after what the fragments before it render to.
pub proof fn lemma_formula_is_delimited(fragments: Seq<FragmentView>, i: int)
    requires
        0 <= i < fragments.len(),
        fragments[i] is Math,
    ensures
        ({
            let inner = fragments[i]->Math_0;
            let start = rendered(fragments.take(i)).len() as int;
            let end = start + inner.len() + 2;
            &&& end <= rendered(fragments).len()
            &&& rendered(fragments).subrange(start, end) == delimited(inner)
        }),
{
    let front = fragments.take(i);
    let back = fragments.skip(i + 1);
    assert(fragments == front.push(fragments[i]) + back);
    lemma_rendered_concat(front.push(fragments[i]), back);
    assert(front.push(fragments[i]).drop_last() == front);
}

impl ValueFragment {
    /// A fragment of plain text.
    pub fn text(text: &str) -> (fragment: ValueFragment)
        ensures
            fragment@ == (FragmentView::Text { text: text@, verbatim: false }),
    {
        ValueFragment::Text { text: text.to_owned(), verbatim: false }
    }

    /// A fragment of text that braces protect.
    pub fn verbatim(text: &str) -> (fragment: ValueFragment)
        ensures
            fragment@ == (FragmentView::Text { text: text@, verbatim: true }),
    {
        ValueFragment::Text { text: text.to_owned(), verbatim: true }
    }

    /// A formula with the given inner text.
    pub fn math(inner: &str) -> (fragment: ValueFragment)
        ensures
            fragment@ == FragmentView::Math(inner@),
    {
        ValueFragment::Math(inner.to_owned())
    }

    /// A copy of this fragment.
    pub fn duplicate(&self) -> (copy: ValueFragment)
        ensures
            copy@ == self@,
    {
        match self {
            ValueFragment::Text { text, verbatim } => ValueFragment::Text {
                text: text.clone(),
                verbatim: *verbatim,
            },
            ValueFragment::Math(inner) => ValueFragment::Math(inner.clone()),
        }
    }

    /// Appends this fragment, rendered, to `out`.
    pub fn render_into(&self, out: &mut String)
        ensures
            final(out)@ == old(out)@ + rendered_fragment(self@),
    {
        match self {
            ValueFragment::Text { text, verbatim } => {
                out.append(text.as_str());
            },
            ValueFragment::Math(inner) => {
                proof {
                    reveal_strlit("$");
                }
                out.append("$");
                out.append(inner.as_str());
                out.append("$");
                assert("$"@ == seq!['$']);
            },
        }
    }
}

/// Renders the fragments of one value into a string.
pub fn render(fragments: &Vec<ValueFragment>) -> (out: String)
    ensures
        out@ == rendered(fragments.deep_view()),
{
    let mut out = String::new();
    let ghost all = fragments.deep_view();
    let mut i: usize = 0;
    assert(all.take(0) == Seq::<FragmentView>::empty());
    while i < fragments.len()
        invariant
            i <= fragments.len(),
            all == fragments.deep_view(),
            all.len() == fragments.len(),
            out@ == rendered(all.take(i as int)),
        decreases fragments.len() - i,
    {
        fragments[i].render_into(&mut out);
        proof {
            assert(all.take(i + 1).drop_last() == all.take(i as int));
            assert(all[i as int] == fragments[i as int]@);
        }
        i = i + 1;
    }
    assert(all.take(all.len() as int) == all);
    out
}

} // verus!
