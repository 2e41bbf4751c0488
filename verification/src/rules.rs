pub mod inherit;
pub mod inherit_laws;

use crate::builder::{
    dedents, depth_at, indents, keeps_level, lemma_counts_of_level_steps,
    lemma_depth_of_level_steps, lemma_tallest_within, step_views, tallest, BuildCtx, Step,
    StepView,
};
use crate::children::{extract, lemma_extracted_elements};
use crate::rules::inherit::{
    inherit_ready, inherit_steps, is_inherit_ready, lemma_inherit_steps_balanced,
    lemma_inherit_steps_depths, lemma_inherit_steps_drawn,
};
use crate::syntax::{lemma_stacked_height_covers, NodeKind, SyntaxElement};
use vstd::prelude::*;

verus! {

/// The node is a named-bindings import.
pub open spec fn is_inherit(node: SyntaxElement) -> bool {
    node matches SyntaxElement::Node { kind: NodeKind::Inherit, .. }
}

/// The children of the node have the shape that the rule for its kind relies
/// on. Only a named-bindings import asks for one.
pub open spec fn rule_ready(node: SyntaxElement) -> bool {
    is_inherit(node) ==> inherit_ready(node.logical_children())
}

/// The steps of a node without a rule of its own: every direct child as it
/// stands, trivia included, rendered as the context says.
pub open spec fn pass_through_steps(vertical: bool, elements: Seq<SyntaxElement>) -> Seq<
    StepView,
> {
    Seq::new(
        elements.len(),
        |i: int|
            if vertical {
                StepView::FormatWide(elements[i])
            } else {
                StepView::Format(elements[i])
            },
    )
}

/// The steps of the rule for the node's kind.
pub open spec fn rule_steps(vertical: bool, node: SyntaxElement) -> Seq<StepView> {
    if is_inherit(node) {
        inherit_steps(vertical, node.logical_children())
    } else {
        pass_through_steps(vertical, node.elements())
    }
}

/// Among the first `n` elements, every node has the shape that its rule
/// relies on, and so has every node below them.
pub open spec fn all_well_formed(elements: Seq<SyntaxElement>, n: nat) -> bool
    decreases elements, n,
{
    if n == 0 || n > elements.len() {
        true
    } else {
        all_well_formed(elements, (n - 1) as nat) && elements[n - 1].well_formed()
    }
}

impl SyntaxElement {
    /// Every node of the tree has the shape that the rule for its kind
    /// relies on.
    pub open spec fn well_formed(self) -> bool
        decreases self, 0nat,
    {
        match self {
            SyntaxElement::Token { .. } => true,
            SyntaxElement::Node { children, .. } => rule_ready(self) && all_well_formed(
                children@,
                children@.len(),
            ),
        }
    }

    /// Whether every node of the tree has the shape that the rule for its
    /// kind relies on.
    pub fn is_well_formed(&self) -> (b: bool)
        ensures
            b == self.well_formed(),
        decreases self,
    {
        match self {
            SyntaxElement::Token { .. } => true,
            SyntaxElement::Node { kind, children } => {
                let ready = match kind {
                    NodeKind::Inherit => {
                        let logical = extract(self);
                        is_inherit_ready(&logical)
                    },
                    _ => true,
                };
                if !ready {
                    return false;
                }
                let mut i: usize = 0;
                while i < children.len()
                    invariant
                        i <= children.len(),
                        self is Node,
                        self->children == *children,
                        all_well_formed(children@, i as nat),
                    decreases children.len() - i,
                {
                    if !children[i].is_well_formed() {
                        proof {
                            if all_well_formed(children@, children@.len()) {
                                lemma_all_well_formed_covers(children@, children@.len());
                                assert(children@[i as int].well_formed());
                            }
                        }
                        return false;
                    }
                    i = i + 1;
                }
                true
            },
        }
    }
}

/// Where the first `n` elements are well formed, each of them is.
pub proof fn lemma_all_well_formed_covers(elements: Seq<SyntaxElement>, n: nat)
    requires
        n <= elements.len(),
        all_well_formed(elements, n),
    ensures
        forall|i: int| 0 <= i < n ==> (#[trigger] elements[i]).well_formed(),
    decreases n,
{
    if n > 0 {
        lemma_all_well_formed_covers(elements, (n - 1) as nat);
    }
}

/// Every rule asks only for direct children of its node to be rendered.
pub proof fn lemma_rule_steps_drawn(vertical: bool, node: SyntaxElement)
    requires
        rule_ready(node),
    ensures
        forall|i: int|
            0 <= i < rule_steps(vertical, node).len() ==> ((#[trigger] rule_steps(
                vertical,
                node,
            )[i]).element() matches Some(element) ==> exists|k: int|
                0 <= k < node.elements().len() && (#[trigger] node.elements()[k]) == element),
{
    let steps = rule_steps(vertical, node);
    let elements = node.elements();
    if is_inherit(node) {
        let children = node.logical_children();
        lemma_inherit_steps_drawn(vertical, children);
        lemma_extracted_elements(elements, elements.len());
        assert forall|i: int| 0 <= i < steps.len() implies ((#[trigger] steps[i]).element()
            matches Some(element) ==> exists|k: int|
            0 <= k < elements.len() && (#[trigger] elements[k]) == element) by {
            if steps[i].element() is Some {
                let element = steps[i].element()->0;
                let c = choose|c: int|
                    0 <= c < children.len() && (#[trigger] children[c]).element == element;
                let k = choose|k: int| 0 <= k < elements.len() && elements[k] == children[c].element;
                assert(elements[k] == element);
            }
        }
    } else {
        assert forall|i: int| 0 <= i < steps.len() implies ((#[trigger] steps[i]).element()
            matches Some(element) ==> exists|k: int|
            0 <= k < elements.len() && (#[trigger] elements[k]) == element) by {
            assert(elements[i] == steps[i].element()->0);
        }
    }
}

/// Every element that a rule asks to render is lower than the rule's node.
pub proof fn lemma_rule_steps_lower(vertical: bool, node: SyntaxElement)
    requires
        rule_ready(node),
        node is Node,
    ensures
        tallest(rule_steps(vertical, node)) < node.height(),
{
    let steps = rule_steps(vertical, node);
    let elements = node.elements();
    lemma_rule_steps_drawn(vertical, node);
    lemma_stacked_height_covers(elements, elements.len());
    let bound = (node.height() - 1) as nat;
    assert forall|i: int| 0 <= i < steps.len() implies ((#[trigger] steps[i]).element()
        matches Some(element) ==> element.height() <= bound) by {
        if steps[i].element() is Some {
            let element = steps[i].element()->0;
            let k = choose|k: int| 0 <= k < elements.len() && (#[trigger] elements[k]) == element;
            assert(elements[k].height() < node.height());
        }
    }
    lemma_tallest_within(steps, bound);
}

/// Balanced indentation: the steps of every rule hold as many `Indent` as
/// `Dedent`.
pub proof fn lemma_rule_steps_balanced(vertical: bool, node: SyntaxElement)
    requires
        rule_ready(node),
    ensures
        indents(rule_steps(vertical, node)) == dedents(rule_steps(vertical, node)),
{
    if is_inherit(node) {
        lemma_inherit_steps_balanced(vertical, node.logical_children());
    } else {
        lemma_counts_of_level_steps(rule_steps(vertical, node));
    }
}

/// The steps of a rule never leave the band of one level above the depth they
/// start at: they go in at most once, come out only after going in, and end
/// where they started.
pub proof fn lemma_rule_steps_depths(vertical: bool, node: SyntaxElement, depth: int)
    requires
        rule_ready(node),
    ensures
        depth_at(rule_steps(vertical, node), rule_steps(vertical, node).len(), depth) == depth,
        forall|n: int|
            0 <= n <= rule_steps(vertical, node).len() ==> depth <= #[trigger] depth_at(
                rule_steps(vertical, node),
                n as nat,
                depth,
            ) <= depth + 1,
        forall|k: int|
            0 <= k < rule_steps(vertical, node).len() && (#[trigger] rule_steps(
                vertical,
                node,
            )[k]) is Dedent ==> depth_at(rule_steps(vertical, node), k as nat, depth) == depth
                + 1,
        forall|k: int|
            0 <= k < rule_steps(vertical, node).len() && (#[trigger] rule_steps(
                vertical,
                node,
            )[k]) is Indent ==> depth_at(rule_steps(vertical, node), k as nat, depth) == depth,
{
    let steps = rule_steps(vertical, node);
    if is_inherit(node) {
        lemma_inherit_steps_depths(vertical, node.logical_children(), depth);
    } else {
        assert(keeps_level(steps));
        assert forall|n: int| 0 <= n <= steps.len() implies depth <= #[trigger] depth_at(
            steps,
            n as nat,
            depth,
        ) <= depth + 1 by {
            lemma_depth_of_level_steps(steps, n as nat, depth);
        }
        lemma_depth_of_level_steps(steps, steps.len(), depth);
    }
}

/// The steps of a node without a rule of its own.
pub fn pass_through<'a>(build_ctx: &BuildCtx, node: &'a SyntaxElement) -> (steps: Vec<Step<'a>>)
    ensures
        step_views(steps@) == pass_through_steps(build_ctx.vertical, node.elements()),
{
    let mut steps: Vec<Step<'a>> = Vec::new();
    match node {
        SyntaxElement::Token { .. } => {},
        SyntaxElement::Node { children, .. } => {
            let mut i: usize = 0;
            while i < children.len()
                invariant
                    i <= children.len(),
                    steps.len() == i,
                    forall|j: int|
                        0 <= j < i ==> (#[trigger] steps[j])@ == pass_through_steps(
                            build_ctx.vertical,
                            children@,
                        )[j],
                decreases children.len() - i,
            {
                if build_ctx.vertical {
                    steps.push(Step::FormatWide(&children[i]));
                } else {
                    steps.push(Step::Format(&children[i]));
                }
                i = i + 1;
            }
        },
    }
    proof {
        assert(step_views(steps@) =~= pass_through_steps(build_ctx.vertical, node.elements()));
    }
    steps
}

/// Hands the node to the rule for its kind: a named-bindings import to its
/// own rule, every other node to the pass-through rule.
pub fn dispatch<'a>(build_ctx: &BuildCtx, node: &'a SyntaxElement) -> (steps: Vec<Step<'a>>)
    requires
        rule_ready(*node),
    ensures
        step_views(steps@) == rule_steps(build_ctx.vertical, *node),
{
    match node {
        SyntaxElement::Node { kind: NodeKind::Inherit, .. } => inherit::rule(build_ctx, node),
        _ => pass_through(build_ctx, node),
    }
}

} // verus!
