use vstd::prelude::*;
use vstd::string::*;

verus! {

/// Kind tag of a node.
#[derive(Clone, Copy, Debug, PartialEq, Eq, Structural)]
pub enum NodeKind {
    /// A named-bindings import: `inherit [from-clause] name… ;`.
    Inherit,
    /// The parenthesised from-clause of a named-bindings import.
    InheritFrom,
    /// Any other node.
    Other,
}

/// Kind tag of a token.
#[derive(Clone, Copy, Debug, PartialEq, Eq, Structural)]
pub enum TokenKind {
    /// A comment.
    Comment,
    /// A run of spaces, tabs and line breaks.
    Whitespace,
    /// Any token that carries meaning.
    Other,
}

/// One element of a full-fidelity syntax tree: every source character belongs
/// to exactly one token, and nodes group elements without adding text.
#[derive(Debug, PartialEq, Eq)]
#[allow(inconsistent_fields)]
pub enum SyntaxElement {
    /// A node: its kind and its child elements in source order, trivia
    /// included.
    Node { kind: NodeKind, children: Vec<SyntaxElement> },
    /// A token: its kind and its literal text.
    Token { kind: TokenKind, text: String },
}

/// The source text of the first `n` elements of `elements`, joined in order.
pub open spec fn joined_text(elements: Seq<SyntaxElement>, n: nat) -> Seq<char>
    decreases elements, n,
{
    if n == 0 || n > elements.len() {
        Seq::empty()
    } else {
        joined_text(elements, (n - 1) as nat) + elements[n - 1].text()
    }
}

/// One more than the greatest height among the first `n` elements of
/// `elements`; 1 when there are none.
pub open spec fn stacked_height(elements: Seq<SyntaxElement>, n: nat) -> nat
    decreases elements, n,
{
    if n == 0 || n > elements.len() {
        1
    } else {
        let below = stacked_height(elements, (n - 1) as nat);
        let here = elements[n - 1].height() + 1;
        if here > below { here } else { below }
    }
}

/// Every one of the first `n` elements is lower than their stacked height.
pub proof fn lemma_stacked_height_covers(elements: Seq<SyntaxElement>, n: nat)
    requires
        n <= elements.len(),
    ensures
        stacked_height(elements, n) >= 1,
        forall|i: int| 0 <= i < n ==> (#[trigger] elements[i]).height() < stacked_height(elements, n),
    decreases n,
{
    if n > 0 {
        lemma_stacked_height_covers(elements, (n - 1) as nat);
    }
}

impl SyntaxElement {
    /// Comments and whitespace are trivia; every other element is meaningful.
    pub open spec fn is_trivia(self) -> bool {
        self matches SyntaxElement::Token { kind, .. } && kind != TokenKind::Other
    }

    /// The source text that the element covers.
    pub open spec fn text(self) -> Seq<char>
        decreases self, 0nat,
    {
        match self {
            SyntaxElement::Token { text, .. } => text@,
            SyntaxElement::Node { children, .. } => joined_text(children@, children@.len()),
        }
    }

    /// The number of levels in the element: 1 for a token, one more than its
    /// tallest child for a node.
    pub open spec fn height(self) -> nat
        decreases self, 0nat,
    {
        match self {
            SyntaxElement::Token { .. } => 1,
            SyntaxElement::Node { children, .. } => stacked_height(children@, children@.len()),
        }
    }

    /// Tells trivia from meaningful elements.
    pub fn trivia(&self) -> (b: bool)
        ensures
            b == self.is_trivia(),
    {
        match self {
            SyntaxElement::Token { kind, .. } => match kind {
                TokenKind::Other => false,
                _ => true,
            },
            SyntaxElement::Node { .. } => false,
        }
    }

    /// Appends the element's source text to `out`.
    pub fn write_text(&self, out: &mut String)
        ensures
            final(out)@ == old(out)@ + self.text(),
        decreases self,
    {
        match self {
            SyntaxElement::Token { text, .. } => {
                out.append(text.as_str());
            },
            SyntaxElement::Node { children, .. } => {
                let mut i: usize = 0;
                while i < children.len()
                    invariant
                        i <= children.len(),
                        self is Node,
                        self->children == *children,
                        out@ == old(out)@ + joined_text(children@, i as nat),
                    decreases children.len() - i,
                {
                    children[i].write_text(out);
                    i += 1;
                }
            },
        }
    }

    /// The element's height, unless it is more than the machine can count.
    pub fn measured_height(&self) -> (height: Option<usize>)
        ensures
            match height {
                Some(h) => h == self.height(),
                None => self.height() > usize::MAX,
            },
        decreases self,
    {
        match self {
            SyntaxElement::Token { .. } => Some(1),
            SyntaxElement::Node { children, .. } => {
                let mut top: usize = 1;
                let mut i: usize = 0;
                while i < children.len()
                    invariant
                        i <= children.len(),
                        self is Node,
                        self->children == *children,
                        top == stacked_height(children@, i as nat),
                    decreases children.len() - i,
                {
                    proof {
                        lemma_stacked_height_covers(children@, children@.len());
                    }
                    match children[i].measured_height() {
                        Some(h) => {
                            if h == usize::MAX {
                                return None;
                            }
                            if h + 1 > top {
                                top = h + 1;
                            }
                        },
                        None => {
                            return None;
                        },
                    }
                    i = i + 1;
                }
                Some(top)
            },
        }
    }

    /// The element's source text.
    pub fn to_text(&self) -> (text: String)
        ensures
            text@ == self.text(),
    {
        let mut text = String::new();
        self.write_text(&mut text);
        text
    }
}

} // verus!
