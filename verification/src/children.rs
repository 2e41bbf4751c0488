use crate::syntax::{SyntaxElement, TokenKind};
use vstd::prelude::*;
use vstd::string::*;

verus! {

/// Material without meaning that follows a logical child.
#[derive(Clone, Copy, Debug, PartialEq, Eq)]
pub enum Trivia<'a> {
    /// A comment other than the inline comment, with its text.
    Comment(&'a str),
    /// Whitespace that holds this many line breaks, not counting the break
    /// that ends the line of an inline comment. Never zero in an extracted
    /// child.
    BlankRun(usize),
}

/// The mathematical value of a `Trivia`.
pub enum TriviaView {
    Comment(Seq<char>),
    BlankRun(nat),
}

impl<'a> View for Trivia<'a> {
    type V = TriviaView;

    /// The comment's text as a sequence of characters, the count as a number.
    open spec fn view(&self) -> TriviaView {
        match *self {
            Trivia::Comment(text) => TriviaView::Comment(text@),
            Trivia::BlankRun(count) => TriviaView::BlankRun(count as nat),
        }
    }
}

/// One logical child of a node with the trivia attached to it: the comment
/// that shares its line, and what stands between it and the next logical
/// child.
#[derive(Debug, PartialEq, Eq)]
pub struct Child<'a> {
    /// The meaningful element.
    pub element: &'a SyntaxElement,
    /// The text of the comment that shares the element's line.
    pub inline_comment: Option<&'a str>,
    /// The comments and blank runs between this child and the next, in
    /// source order, the inline comment not among them.
    pub trivialities: Vec<Trivia<'a>>,
}

/// The mathematical value of a `Child`.
pub struct ChildView {
    pub element: SyntaxElement,
    pub inline_comment: Option<Seq<char>>,
    pub trivia: Seq<TriviaView>,
}

/// The views of a sequence of trivia.
pub open spec fn trivia_views(trivia: Seq<Trivia>) -> Seq<TriviaView> {
    Seq::new(trivia.len(), |i: int| trivia[i]@)
}

/// The views of a sequence of children.
pub open spec fn child_views(children: Seq<Child>) -> Seq<ChildView> {
    Seq::new(children.len(), |i: int| children[i]@)
}

impl<'a> View for Child<'a> {
    type V = ChildView;

    /// The element itself, the inline comment's text, and the views of the
    /// trivia.
    open spec fn view(&self) -> ChildView {
        ChildView {
            element: *self.element,
            inline_comment: match self.inline_comment {
                Some(text) => Some(text@),
                None => None,
            },
            trivia: trivia_views(self.trivialities@),
        }
    }
}

/// The number of line breaks in `text`.
pub open spec fn line_breaks(text: Seq<char>) -> nat
    decreases text.len(),
{
    if text.len() == 0 {
        0
    } else {
        line_breaks(text.drop_last()) + if text.last() == '\n' {
            1nat
        } else {
            0nat
        }
    }
}

/// The texts of the comments among the first `n` entries of a trivia list,
/// in order.
pub open spec fn trivia_comments(trivia: Seq<TriviaView>, n: nat) -> Seq<Seq<char>>
    decreases n,
{
    if n == 0 || n > trivia.len() {
        Seq::empty()
    } else {
        let before = trivia_comments(trivia, (n - 1) as nat);
        match trivia[n - 1] {
            TriviaView::Comment(text) => before.push(text),
            TriviaView::BlankRun(_) => before,
        }
    }
}

impl ChildView {
    /// A child that no trivia has been attached to yet.
    pub open spec fn fresh(element: SyntaxElement) -> ChildView {
        ChildView { element, inline_comment: None, trivia: Seq::empty() }
    }

    /// A comment shares the child's line.
    pub open spec fn has_inline_comment(self) -> bool {
        self.inline_comment is Some
    }

    /// Trivia follows the child.
    pub open spec fn has_trivialities(self) -> bool {
        self.trivia.len() > 0
    }

    /// A comment stands in the child's trivia list.
    pub open spec fn has_comments(self) -> bool {
        exists|i: int| 0 <= i < self.trivia.len() && #[trigger] self.trivia[i] is Comment
    }

    /// The texts of the comments attached to the child, in source order: the
    /// inline comment, then the comments of the trivia list.
    pub open spec fn comments(self) -> Seq<Seq<char>> {
        let inline = match self.inline_comment {
            Some(text) => seq![text],
            None => Seq::empty(),
        };
        inline + trivia_comments(self.trivia, self.trivia.len())
    }

    /// The child after a comment that follows it. The comment is the inline
    /// comment when it is the first thing after the element and still on its
    /// line; any other comment joins the trivia list.
    pub open spec fn with_comment(self, text: Seq<char>) -> ChildView {
        if self.inline_comment is None && self.trivia.len() == 0 {
            ChildView { inline_comment: Some(text), ..self }
        } else {
            ChildView { trivia: self.trivia.push(TriviaView::Comment(text)), ..self }
        }
    }

    /// The number of line breaks that whitespace `text` adds after the child:
    /// all of them, less the one that ends the line of an inline comment with
    /// nothing after it yet.
    pub open spec fn blank_run(self, text: Seq<char>) -> nat {
        let breaks = line_breaks(text);
        if self.inline_comment is Some && self.trivia.len() == 0 && breaks > 0 {
            (breaks - 1) as nat
        } else {
            breaks
        }
    }

    /// The child after whitespace that follows it: a blank run joins the
    /// trivia list when it holds a line break.
    pub open spec fn with_whitespace(self, text: Seq<char>) -> ChildView {
        if self.blank_run(text) > 0 {
            ChildView {
                trivia: self.trivia.push(TriviaView::BlankRun(self.blank_run(text))),
                ..self
            }
        } else {
            self
        }
    }
}

/// The children gathered so far, after the next element of the node. A
/// meaningful element starts a new child; a comment or whitespace is attached
/// to the last child, and dropped when there is none yet.
pub open spec fn absorbed(children: Seq<ChildView>, element: SyntaxElement) -> Seq<ChildView> {
    match element {
        SyntaxElement::Token { kind: TokenKind::Comment, text } => if children.len() == 0 {
            children
        } else {
            children.update(children.len() - 1, children.last().with_comment(text@))
        },
        SyntaxElement::Token { kind: TokenKind::Whitespace, text } => if children.len() == 0 {
            children
        } else {
            children.update(children.len() - 1, children.last().with_whitespace(text@))
        },
        _ => children.push(ChildView::fresh(element)),
    }
}

/// The logical children among the first `n` of `elements`, in source order,
/// each with its trivia.
pub open spec fn extracted(elements: Seq<SyntaxElement>, n: nat) -> Seq<ChildView>
    decreases n,
{
    if n == 0 || n > elements.len() {
        Seq::empty()
    } else {
        absorbed(extracted(elements, (n - 1) as nat), elements[n - 1])
    }
}

impl SyntaxElement {
    /// The direct child elements of a node, trivia included; none for a token.
    pub open spec fn elements(self) -> Seq<SyntaxElement> {
        match self {
            SyntaxElement::Node { children, .. } => children@,
            SyntaxElement::Token { .. } => Seq::empty(),
        }
    }

    /// The logical children of the element, each with its trivia.
    pub open spec fn logical_children(self) -> Seq<ChildView> {
        extracted(self.elements(), self.elements().len())
    }
}

/// Every extracted child holds a meaningful element, and one that stands
/// among the elements it was extracted from.
pub proof fn lemma_extracted_elements(elements: Seq<SyntaxElement>, n: nat)
    requires
        n <= elements.len(),
    ensures
        forall|i: int|
            0 <= i < extracted(elements, n).len() ==> {
                &&& !(#[trigger] extracted(elements, n)[i]).element.is_trivia()
                &&& exists|k: int| 0 <= k < n && elements[k] == extracted(elements, n)[i].element
            },
    decreases n,
{
    if n > 0 {
        let before = extracted(elements, (n - 1) as nat);
        let after = extracted(elements, n);
        lemma_extracted_elements(elements, (n - 1) as nat);
        assert forall|i: int| 0 <= i < after.len() implies {
            &&& !(#[trigger] after[i]).element.is_trivia()
            &&& exists|k: int| 0 <= k < n && elements[k] == after[i].element
        } by {
            if i < before.len() {
                assert(after[i].element == before[i].element);
                let k = choose|k: int| 0 <= k < n - 1 && elements[k] == before[i].element;
                assert(elements[k] == after[i].element);
            } else {
                assert(elements[n - 1] == after[i].element);
            }
        }
    }
}

/// No blank run of an extracted child is empty.
pub proof fn lemma_extracted_trivia(elements: Seq<SyntaxElement>, n: nat)
    requires
        n <= elements.len(),
    ensures
        forall|i: int, j: int|
            0 <= i < extracted(elements, n).len() && 0 <= j < extracted(
                elements,
                n,
            )[i].trivia.len() ==> (#[trigger] extracted(elements, n)[i].trivia[j]
                matches TriviaView::BlankRun(count) ==> count > 0),
    decreases n,
{
    if n > 0 {
        let before = extracted(elements, (n - 1) as nat);
        let after = extracted(elements, n);
        lemma_extracted_trivia(elements, (n - 1) as nat);
        assert forall|i: int, j: int|
            0 <= i < after.len() && 0 <= j < after[i].trivia.len() implies (
        #[trigger] after[i].trivia[j] matches TriviaView::BlankRun(count) ==> count > 0) by {
            if i < before.len() && j < before[i].trivia.len() {
                assert(after[i].trivia[j] == before[i].trivia[j]);
            }
        }
    }
}

/// The texts of the comments attached to the first `n` children, in order.
pub open spec fn gathered_comments(children: Seq<ChildView>, n: nat) -> Seq<Seq<char>>
    decreases n,
{
    if n == 0 || n > children.len() {
        Seq::empty()
    } else {
        gathered_comments(children, (n - 1) as nat) + children[n - 1].comments()
    }
}

/// A meaningful element stands among the first `n` elements.
pub open spec fn has_meaningful(elements: Seq<SyntaxElement>, n: nat) -> bool {
    exists|k: int| 0 <= k < n && k < elements.len() && !(#[trigger] elements[k]).is_trivia()
}

/// The texts of the comment tokens among the first `n` elements that stand
/// behind a meaningful element, in order.
pub open spec fn source_comments(elements: Seq<SyntaxElement>, n: nat) -> Seq<Seq<char>>
    decreases n,
{
    if n == 0 || n > elements.len() {
        Seq::empty()
    } else {
        let before = source_comments(elements, (n - 1) as nat);
        match elements[n - 1] {
            SyntaxElement::Token { kind: TokenKind::Comment, text } => if has_meaningful(
                elements,
                (n - 1) as nat,
            ) {
                before.push(text@)
            } else {
                before
            },
            _ => before,
        }
    }
}

/// The comments among the first `n` trivia entries do not depend on what
/// follows them.
proof fn lemma_trivia_comments_of_prefix(a: Seq<TriviaView>, b: Seq<TriviaView>, n: nat)
    requires
        n <= a.len(),
        n <= b.len(),
        forall|i: int| 0 <= i < n ==> a[i] == b[i],
    ensures
        trivia_comments(a, n) == trivia_comments(b, n),
    decreases n,
{
    if n > 0 {
        lemma_trivia_comments_of_prefix(a, b, (n - 1) as nat);
    }
}

/// The comments of the first `n` children do not depend on what follows
/// them.
proof fn lemma_gathered_comments_of_prefix(a: Seq<ChildView>, b: Seq<ChildView>, n: nat)
    requires
        n <= a.len(),
        n <= b.len(),
        forall|i: int| 0 <= i < n ==> a[i] == b[i],
    ensures
        gathered_comments(a, n) == gathered_comments(b, n),
    decreases n,
{
    if n > 0 {
        lemma_gathered_comments_of_prefix(a, b, (n - 1) as nat);
    }
}

/// Attaching a comment adds its text behind the child's comments, whether it
/// becomes the inline comment or joins the trivia list; attaching whitespace
/// leaves the comments as they are.
pub proof fn lemma_attached_comments(child: ChildView, text: Seq<char>)
    ensures
        child.with_comment(text).comments() == child.comments().push(text),
        child.with_whitespace(text).comments() == child.comments(),
{
    let len = child.trivia.len();
    let commented = child.with_comment(text);
    if child.inline_comment is None && len == 0 {
        assert(commented.comments() =~= child.comments().push(text));
    } else {
        lemma_trivia_comments_of_prefix(commented.trivia, child.trivia, len);
        assert(commented.comments() =~= child.comments().push(text));
    }
    let spaced = child.with_whitespace(text);
    if child.blank_run(text) > 0 {
        lemma_trivia_comments_of_prefix(spaced.trivia, child.trivia, len);
    }
}

/// Children there are as soon as a meaningful element has been seen.
pub proof fn lemma_extracted_some(elements: Seq<SyntaxElement>, n: nat)
    requires
        n <= elements.len(),
    ensures
        extracted(elements, n).len() > 0 <==> has_meaningful(elements, n),
    decreases n,
{
    if n > 0 {
        lemma_extracted_some(elements, (n - 1) as nat);
        if has_meaningful(elements, n) {
            let k = choose|k: int|
                0 <= k < n && k < elements.len() && !(#[trigger] elements[k]).is_trivia();
            if k < n - 1 {
                assert(has_meaningful(elements, (n - 1) as nat));
            }
        }
        if has_meaningful(elements, (n - 1) as nat) {
            let k = choose|k: int|
                0 <= k < n - 1 && k < elements.len() && !(#[trigger] elements[k]).is_trivia();
            assert(!elements[k].is_trivia());
        }
        if !elements[n - 1].is_trivia() {
            assert(has_meaningful(elements, n));
        }
    }
}

/// No comment is lost, repeated or moved: the comments attached to the
/// extracted children, child by child, inline comment first, are the comment
/// tokens behind the first meaningful element, each once and in source order.
pub proof fn lemma_extracted_comments(elements: Seq<SyntaxElement>, n: nat)
    requires
        n <= elements.len(),
    ensures
        gathered_comments(extracted(elements, n), extracted(elements, n).len()) == source_comments(
            elements,
            n,
        ),
    decreases n,
{
    if n > 0 {
        let before = extracted(elements, (n - 1) as nat);
        let after = extracted(elements, n);
        let last = (before.len() - 1) as nat;
        lemma_extracted_comments(elements, (n - 1) as nat);
        lemma_extracted_some(elements, (n - 1) as nat);
        match elements[n - 1] {
            SyntaxElement::Token { kind: TokenKind::Comment, text } => {
                if before.len() > 0 {
                    lemma_attached_comments(before.last(), text@);
                    lemma_gathered_comments_of_prefix(after, before, last);
                    assert(gathered_comments(after, after.len()) =~= gathered_comments(
                        before,
                        before.len(),
                    ).push(text@));
                }
            },
            SyntaxElement::Token { kind: TokenKind::Whitespace, text } => {
                if before.len() > 0 {
                    lemma_attached_comments(before.last(), text@);
                    lemma_gathered_comments_of_prefix(after, before, last);
                }
            },
            _ => {
                lemma_gathered_comments_of_prefix(after, before, before.len());
                assert(after.last().comments() =~= Seq::<Seq<char>>::empty());
                assert(gathered_comments(after, after.len()) =~= gathered_comments(
                    before,
                    before.len(),
                ));
            },
        }
    }
}

/// No two blank runs follow each other directly in the trivia list.
pub open spec fn blank_runs_apart(trivia: Seq<TriviaView>) -> bool {
    forall|i: int|
        0 < i < trivia.len() && (#[trigger] trivia[i]) is BlankRun ==> !(trivia[i - 1]
            is BlankRun)
}

/// The element is a whitespace token.
pub open spec fn is_whitespace(element: SyntaxElement) -> bool {
    element matches SyntaxElement::Token { kind: TokenKind::Whitespace, .. }
}

/// No two whitespace tokens stand side by side among the first `n` elements,
/// as in every tree that a tokenizer has made.
pub open spec fn whitespace_apart(elements: Seq<SyntaxElement>, n: nat) -> bool {
    forall|i: int|
        0 < i < n && i < elements.len() && is_whitespace(#[trigger] elements[i])
            ==> !is_whitespace(elements[i - 1])
}

/// Where no two whitespace tokens stand side by side, no two blank runs
/// follow each other in the trivia of any extracted child.
pub proof fn lemma_extracted_blank_runs_apart(elements: Seq<SyntaxElement>, n: nat)
    requires
        n <= elements.len(),
        whitespace_apart(elements, n),
    ensures
        forall|k: int|
            0 <= k < extracted(elements, n).len() ==> blank_runs_apart(
                (#[trigger] extracted(elements, n)[k]).trivia,
            ),
        n > 0 && !is_whitespace(elements[n - 1]) && extracted(elements, n).len() > 0 ==> {
            let trivia = extracted(elements, n).last().trivia;
            trivia.len() > 0 ==> !(trivia.last() is BlankRun)
        },
    decreases n,
{
    if n > 0 {
        let before = extracted(elements, (n - 1) as nat);
        let after = extracted(elements, n);
        assert(whitespace_apart(elements, (n - 1) as nat));
        lemma_extracted_blank_runs_apart(elements, (n - 1) as nat);
        if is_whitespace(elements[n - 1]) && n > 1 {
            assert(!is_whitespace(elements[n - 2]));
        }
        assert forall|k: int| 0 <= k < after.len() implies blank_runs_apart(
            (#[trigger] after[k]).trivia,
        ) by {
            if k < before.len() {
                assert(blank_runs_apart(before[k].trivia));
                let old_trivia = before[k].trivia;
                let new_trivia = after[k].trivia;
                assert forall|i: int|
                    0 < i < new_trivia.len() && (#[trigger] new_trivia[i]) is BlankRun implies !(
                new_trivia[i - 1] is BlankRun) by {
                    if i < old_trivia.len() {
                        assert(new_trivia[i] == old_trivia[i]);
                        assert(new_trivia[i - 1] == old_trivia[i - 1]);
                    } else {
                        assert(new_trivia[i - 1] == old_trivia.last());
                    }
                }
            }
        }
    }
}

/// Counts the line breaks in `text`.
pub fn count_line_breaks(text: &str) -> (count: usize)
    ensures
        count == line_breaks(text@),
{
    let len = text.unicode_len();
    let mut count: usize = 0;
    let mut i: usize = 0;
    proof {
        assert(text@.take(0) =~= Seq::<char>::empty());
    }
    while i < len
        invariant
            len == text@.len(),
            i <= len,
            count <= i,
            count == line_breaks(text@.take(i as int)),
        decreases len - i,
    {
        let c = text.get_char(i);
        proof {
            let next = text@.take(i + 1);
            assert(next.last() == c);
            assert(next.drop_last() =~= text@.take(i as int));
        }
        if c == '\n' {
            count = count + 1;
        }
        i = i + 1;
    }
    proof {
        assert(text@.take(len as int) =~= text@);
    }
    count
}

impl<'a> Child<'a> {
    /// A child that no trivia has been attached to yet.
    pub fn new(element: &'a SyntaxElement) -> (child: Child<'a>)
        ensures
            child@ == ChildView::fresh(*element),
    {
        let child = Child { element, inline_comment: None, trivialities: Vec::new() };
        proof {
            assert(child@.trivia =~= Seq::empty());
        }
        child
    }

    /// Whether a comment shares the child's line.
    pub fn has_inline_comment(&self) -> (b: bool)
        ensures
            b == self@.has_inline_comment(),
    {
        self.inline_comment.is_some()
    }

    /// Whether any trivia follows the child.
    pub fn has_trivialities(&self) -> (b: bool)
        ensures
            b == self@.has_trivialities(),
    {
        self.trivialities.len() > 0
    }

    /// Whether a comment stands in the child's trivia list.
    pub fn has_comments(&self) -> (b: bool)
        ensures
            b == self@.has_comments(),
    {
        let mut i: usize = 0;
        while i < self.trivialities.len()
            invariant
                i <= self.trivialities.len(),
                forall|j: int| 0 <= j < i ==> !(#[trigger] self@.trivia[j] is Comment),
            decreases self.trivialities.len() - i,
        {
            match self.trivialities[i] {
                Trivia::Comment(_) => {
                    assert(self@.trivia[i as int] is Comment);
                    return true;
                },
                Trivia::BlankRun(_) => {},
            }
            i = i + 1;
        }
        false
    }

    /// Attaches a comment that follows the child.
    pub fn attach_comment(&mut self, text: &'a str)
        ensures
            final(self)@ == old(self)@.with_comment(text@),
    {
        if self.inline_comment.is_none() && self.trivialities.len() == 0 {
            self.inline_comment = Some(text);
        } else {
            self.trivialities.push(Trivia::Comment(text));
            proof {
                assert(self@.trivia =~= old(self)@.trivia.push(TriviaView::Comment(text@)));
            }
        }
    }

    /// Attaches whitespace that follows the child.
    pub fn attach_whitespace(&mut self, text: &str)
        ensures
            final(self)@ == old(self)@.with_whitespace(text@),
    {
        let breaks = count_line_breaks(text);
        let count = if self.inline_comment.is_some() && self.trivialities.len() == 0 && breaks
            > 0 {
            breaks - 1
        } else {
            breaks
        };
        if count > 0 {
            self.trivialities.push(Trivia::BlankRun(count));
            proof {
                assert(self@.trivia =~= old(self)@.trivia.push(
                    TriviaView::BlankRun(count as nat),
                ));
            }
        }
    }
}

/// Groups the direct children of `node` into logical children, in source
/// order, each with the comments and blank runs that follow it. A token has
/// none.
pub fn extract<'a>(node: &'a SyntaxElement) -> (children: Vec<Child<'a>>)
    ensures
        child_views(children@) == node.logical_children(),
{
    let mut out: Vec<Child<'a>> = Vec::new();
    match node {
        SyntaxElement::Token { .. } => {
            proof {
                assert(child_views(out@) =~= node.logical_children());
            }
        },
        SyntaxElement::Node { children, .. } => {
            let mut i: usize = 0;
            proof {
                assert(child_views(out@) =~= extracted(children@, 0));
            }
            while i < children.len()
                invariant
                    i <= children.len(),
                    child_views(out@) == extracted(children@, i as nat),
                decreases children.len() - i,
            {
                let ghost before = child_views(out@);
                let element = &children[i];
                match element {
                    SyntaxElement::Token { kind: TokenKind::Comment, text } => {
                        if out.len() > 0 {
                            let mut last = out.pop().unwrap();
                            last.attach_comment(text.as_str());
                            out.push(last);
                            proof {
                                assert(child_views(out@) =~= before.update(
                                    before.len() - 1,
                                    before.last().with_comment(text@),
                                ));
                            }
                        }
                    },
                    SyntaxElement::Token { kind: TokenKind::Whitespace, text } => {
                        if out.len() > 0 {
                            let mut last = out.pop().unwrap();
                            last.attach_whitespace(text.as_str());
                            out.push(last);
                            proof {
                                assert(child_views(out@) =~= before.update(
                                    before.len() - 1,
                                    before.last().with_whitespace(text@),
                                ));
                            }
                        }
                    },
                    _ => {
                        out.push(Child::new(element));
                        proof {
                            assert(child_views(out@) =~= before.push(ChildView::fresh(*element)));
                        }
                    },
                }
                i = i + 1;
            }
        },
    }
    out
}

} // verus!
