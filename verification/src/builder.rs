use crate::rules::{
    dispatch, is_inherit, lemma_all_well_formed_covers, lemma_rule_steps_depths,
    lemma_rule_steps_drawn, lemma_rule_steps_lower, rule_ready, rule_steps,
};
use crate::syntax::{joined_text, lemma_stacked_height_covers, SyntaxElement};
use vstd::prelude::*;
use vstd::string::*;

verus! {

/// What a rule reads from its surroundings.
#[derive(Clone, Copy, Debug, PartialEq, Eq, Structural)]
pub struct BuildCtx {
    /// Set once an ancestor has committed to a multi-line layout.
    pub vertical: bool,
    /// The number of spaces in one level of indentation.
    pub indent_width: usize,
}

/// One instruction of a rule to the renderer.
#[derive(Clone, Copy, Debug, PartialEq, Eq)]
pub enum Step<'a> {
    /// Append the text verbatim.
    Comment(&'a str),
    /// Go one level of indentation out.
    Dedent,
    /// Render the element without forcing a multi-line layout.
    Format(&'a SyntaxElement),
    /// Render the element with a multi-line layout forced.
    FormatWide(&'a SyntaxElement),
    /// Go one level of indentation in.
    Indent,
    /// Append a line break.
    NewLine,
    /// Append the current indentation.
    Pad,
    /// Append one space.
    SingleSpace,
}

/// The mathematical value of a `Step`.
pub enum StepView {
    Comment(Seq<char>),
    Dedent,
    Format(SyntaxElement),
    FormatWide(SyntaxElement),
    Indent,
    NewLine,
    Pad,
    SingleSpace,
}

impl StepView {
    /// The element that the step asks to render, if it asks for one.
    pub open spec fn element(self) -> Option<SyntaxElement> {
        match self {
            StepView::Format(element) => Some(element),
            StepView::FormatWide(element) => Some(element),
            _ => None,
        }
    }

    /// By how much the step changes the indentation depth.
    pub open spec fn shift(self) -> int {
        match self {
            StepView::Indent => 1,
            StepView::Dedent => -1,
            _ => 0,
        }
    }
}

impl<'a> View for Step<'a> {
    type V = StepView;

    /// The same instruction over a text as a sequence of characters, or over
    /// the element itself.
    open spec fn view(&self) -> StepView {
        match *self {
            Step::Comment(text) => StepView::Comment(text@),
            Step::Dedent => StepView::Dedent,
            Step::Format(element) => StepView::Format(*element),
            Step::FormatWide(element) => StepView::FormatWide(*element),
            Step::Indent => StepView::Indent,
            Step::NewLine => StepView::NewLine,
            Step::Pad => StepView::Pad,
            Step::SingleSpace => StepView::SingleSpace,
        }
    }
}

/// The views of a sequence of steps.
pub open spec fn step_views(steps: Seq<Step>) -> Seq<StepView> {
    Seq::new(steps.len(), |i: int| steps[i]@)
}

/// The number of `Indent` steps.
pub open spec fn indents(steps: Seq<StepView>) -> nat
    decreases steps.len(),
{
    if steps.len() == 0 {
        0
    } else {
        indents(steps.drop_last()) + if steps.last() is Indent {
            1nat
        } else {
            0nat
        }
    }
}

/// The number of `Dedent` steps.
pub open spec fn dedents(steps: Seq<StepView>) -> nat
    decreases steps.len(),
{
    if steps.len() == 0 {
        0
    } else {
        dedents(steps.drop_last()) + if steps.last() is Dedent {
            1nat
        } else {
            0nat
        }
    }
}

/// The indentation depth after the first `n` steps, from `depth` at the
/// start.
pub open spec fn depth_at(steps: Seq<StepView>, n: nat, depth: int) -> int
    decreases n,
{
    if n == 0 || n > steps.len() {
        depth
    } else {
        depth_at(steps, (n - 1) as nat, depth) + steps[n - 1].shift()
    }
}

/// None of the steps changes the indentation depth.
pub open spec fn keeps_level(steps: Seq<StepView>) -> bool {
    forall|i: int| 0 <= i < steps.len() ==> (#[trigger] steps[i]).shift() == 0
}

/// The height of the tallest element that the steps ask to render; 0 when
/// they ask for none.
pub open spec fn tallest(steps: Seq<StepView>) -> nat
    decreases steps.len(),
{
    if steps.len() == 0 {
        0
    } else {
        let rest = tallest(steps.drop_last());
        match steps.last().element() {
            Some(element) => if element.height() > rest {
                element.height()
            } else {
                rest
            },
            None => rest,
        }
    }
}

/// No element in the steps is taller than `tallest` says.
pub proof fn lemma_tallest_covers(steps: Seq<StepView>)
    ensures
        forall|i: int|
            0 <= i < steps.len() ==> ((#[trigger] steps[i]).element() matches Some(element)
                ==> element.height() <= tallest(steps)),
    decreases steps.len(),
{
    if steps.len() > 0 {
        lemma_tallest_covers(steps.drop_last());
        assert forall|i: int| 0 <= i < steps.len() implies ((#[trigger] steps[i]).element()
            matches Some(element) ==> element.height() <= tallest(steps)) by {
            if i < steps.len() - 1 {
                assert(steps[i] == steps.drop_last()[i]);
            }
        }
    }
}

/// A bound on every element in the steps is a bound on the tallest.
pub proof fn lemma_tallest_within(steps: Seq<StepView>, bound: nat)
    requires
        forall|i: int|
            0 <= i < steps.len() ==> ((#[trigger] steps[i]).element() matches Some(element)
                ==> element.height() <= bound),
    ensures
        tallest(steps) <= bound,
    decreases steps.len(),
{
    if steps.len() > 0 {
        assert forall|i: int| 0 <= i < steps.drop_last().len() implies ((
        #[trigger] steps.drop_last()[i]).element() matches Some(element) ==> element.height()
            <= bound) by {
            assert(steps.drop_last()[i] == steps[i]);
        }
        lemma_tallest_within(steps.drop_last(), bound);
        assert(steps.last() == steps[steps.len() - 1]);
    }
}

/// Steps that keep the level leave the depth where it was, at every point.
pub proof fn lemma_depth_of_level_steps(steps: Seq<StepView>, n: nat, depth: int)
    requires
        keeps_level(steps),
        n <= steps.len(),
    ensures
        depth_at(steps, n, depth) == depth,
    decreases n,
{
    if n > 0 {
        lemma_depth_of_level_steps(steps, (n - 1) as nat, depth);
    }
}

/// The depth within two runs of steps joined: that of the first run, and
/// from where the first run ends that of the second.
pub proof fn lemma_depth_of_joined_steps(a: Seq<StepView>, b: Seq<StepView>, n: nat, depth: int)
    requires
        n <= a.len() + b.len(),
    ensures
        depth_at(a + b, n, depth) == if n <= a.len() {
            depth_at(a, n, depth)
        } else {
            depth_at(b, (n - a.len()) as nat, depth_at(a, a.len(), depth))
        },
    decreases n,
{
    let joined = a + b;
    assert(joined.len() == a.len() + b.len());
    if n > 0 {
        lemma_depth_of_joined_steps(a, b, (n - 1) as nat, depth);
        assert(depth_at(joined, n, depth) == depth_at(joined, (n - 1) as nat, depth) + joined[n
            - 1].shift());
        if n <= a.len() {
            assert(joined[n - 1] == a[n - 1]);
        } else {
            let m = (n - a.len()) as nat;
            let start = depth_at(a, a.len(), depth);
            assert(joined[n - 1] == b[m - 1]);
            assert(depth_at(b, m, start) == depth_at(b, (m - 1) as nat, start) + b[m - 1].shift());
            if m == 1 {
                assert(depth_at(b, 0, start) == start);
            }
        }
    }
}

/// Joining two runs of steps adds their counts of `Indent` and of `Dedent`.
pub proof fn lemma_counts_of_joined_steps(a: Seq<StepView>, b: Seq<StepView>)
    ensures
        indents(a + b) == indents(a) + indents(b),
        dedents(a + b) == dedents(a) + dedents(b),
    decreases b.len(),
{
    if b.len() == 0 {
        assert(a + b =~= a);
    } else {
        lemma_counts_of_joined_steps(a, b.drop_last());
        assert((a + b).drop_last() =~= a + b.drop_last());
        assert((a + b).last() == b.last());
    }
}

/// Steps that keep the level hold neither `Indent` nor `Dedent`.
pub proof fn lemma_counts_of_level_steps(steps: Seq<StepView>)
    requires
        keeps_level(steps),
    ensures
        indents(steps) == 0,
        dedents(steps) == 0,
    decreases steps.len(),
{
    if steps.len() > 0 {
        assert forall|i: int| 0 <= i < steps.drop_last().len() implies (
        #[trigger] steps.drop_last()[i]).shift() == 0 by {
            assert(steps.drop_last()[i] == steps[i]);
        }
        lemma_counts_of_level_steps(steps.drop_last());
        assert(steps.last() == steps[steps.len() - 1]);
    }
}

/// Appends one step.
pub fn push_step<'a>(steps: &mut Vec<Step<'a>>, step: Step<'a>)
    ensures
        step_views(final(steps)@) == step_views(old(steps)@).push(step@),
{
    steps.push(step);
    proof {
        assert(step_views(steps@) =~= step_views(old(steps)@).push(step@));
    }
}

/// A run of `n` spaces.
pub open spec fn spaces(n: nat) -> Seq<char> {
    Seq::new(n, |i: int| ' ')
}

/// The text of an element at the given indentation depth: a token's own
/// text; for a node, what the steps of its rule produce.
pub open spec fn rendered(element: SyntaxElement, vertical: bool, depth: nat, unit: nat) -> Seq<
    char,
>
    decreases element.height(), 0nat, 0nat,
    when rule_ready(element)
{
    match element {
        SyntaxElement::Token { text, .. } => text@,
        SyntaxElement::Node { .. } => {
            let steps = rule_steps(vertical, element);
            proof {
                lemma_rule_steps_lower(vertical, element);
            }
            produced(steps, steps.len(), depth, unit)
        },
    }
}

/// The height of the element that the step asks to render; 0 when it asks
/// for none.
pub open spec fn step_height(step: StepView) -> nat {
    match step.element() {
        Some(element) => element.height(),
        None => 0,
    }
}

/// The text that one step appends at the given indentation depth.
pub open spec fn step_text(step: StepView, depth: nat, unit: nat) -> Seq<char>
    decreases step_height(step), 1nat, 0nat,
{
    match step {
        StepView::Comment(text) => text,
        StepView::Format(element) => rendered(element, false, depth, unit),
        StepView::FormatWide(element) => rendered(element, true, depth, unit),
        StepView::NewLine => seq!['\n'],
        StepView::Pad => spaces(depth * unit),
        StepView::SingleSpace => seq![' '],
        StepView::Indent => Seq::empty(),
        StepView::Dedent => Seq::empty(),
    }
}

/// The text that the first `n` steps produce, executed from the given
/// indentation depth with `unit` spaces to a level.
pub open spec fn produced(steps: Seq<StepView>, n: nat, depth: nat, unit: nat) -> Seq<char>
    decreases tallest(steps), 1nat, n,
{
    if n == 0 || n > steps.len() {
        Seq::empty()
    } else {
        proof {
            lemma_tallest_covers(steps);
        }
        produced(steps, (n - 1) as nat, depth, unit) + step_text(
            steps[n - 1],
            depth_at(steps, (n - 1) as nat, depth as int) as nat,
            unit,
        )
    }
}

/// None of the first `n` elements is a named-bindings import or holds one.
pub open spec fn all_inherit_free(elements: Seq<SyntaxElement>, n: nat) -> bool
    decreases elements, n,
{
    if n == 0 || n > elements.len() {
        true
    } else {
        all_inherit_free(elements, (n - 1) as nat) && inherit_free(elements[n - 1])
    }
}

/// No node of the tree is a named-bindings import.
pub open spec fn inherit_free(element: SyntaxElement) -> bool
    decreases element, 0nat,
{
    match element {
        SyntaxElement::Token { .. } => true,
        SyntaxElement::Node { children, .. } => !is_inherit(element) && all_inherit_free(
            children@,
            children@.len(),
        ),
    }
}

/// What the rule for a node without a named-bindings import produces from
/// its first `n` steps is the source text of the node's first `n` elements.
proof fn lemma_plain_children_render_as_written(
    node: SyntaxElement,
    vertical: bool,
    depth: nat,
    unit: nat,
    n: nat,
)
    requires
        node is Node,
        inherit_free(node),
        n <= node.elements().len(),
    ensures
        all_inherit_free(node.elements(), n),
        produced(rule_steps(vertical, node), n, depth, unit) == joined_text(node.elements(), n),
    decreases node.height(), 0nat, n,
{
    let elements = node.elements();
    let steps = rule_steps(vertical, node);
    lemma_all_inherit_free_covers(elements, elements.len(), n);
    if n > 0 {
        let element = elements[n - 1];
        lemma_plain_children_render_as_written(node, vertical, depth, unit, (n - 1) as nat);
        lemma_stacked_height_covers(elements, elements.len());
        assert(keeps_level(steps));
        lemma_depth_of_level_steps(steps, (n - 1) as nat, depth as int);
        lemma_plain_tree_renders_as_written(element, vertical, depth, unit);
        assert(step_text(steps[n - 1], depth, unit) == rendered(element, vertical, depth, unit));
        assert(produced(steps, n, depth, unit) == produced(steps, (n - 1) as nat, depth, unit)
            + step_text(steps[n - 1], depth, unit));
        assert(joined_text(elements, n) == joined_text(elements, (n - 1) as nat)
            + element.text());
    }
}

/// Where the first `n` elements are free of named-bindings imports, so are
/// the first `m` of them.
proof fn lemma_all_inherit_free_covers(elements: Seq<SyntaxElement>, n: nat, m: nat)
    requires
        m <= n <= elements.len(),
        all_inherit_free(elements, n),
    ensures
        all_inherit_free(elements, m),
        m > 0 ==> inherit_free(elements[m - 1]),
    decreases n,
{
    if m < n {
        lemma_all_inherit_free_covers(elements, (n - 1) as nat, m);
    }
}

/// Only named-bindings imports are laid out anew: a tree that holds none
/// renders as its source text, whatever the context.
pub proof fn lemma_plain_tree_renders_as_written(
    element: SyntaxElement,
    vertical: bool,
    depth: nat,
    unit: nat,
)
    requires
        inherit_free(element),
    ensures
        rendered(element, vertical, depth, unit) == element.text(),
    decreases element.height(), 1nat, 0nat,
{
    if element is Node {
        lemma_plain_children_render_as_written(
            element,
            vertical,
            depth,
            unit,
            element.elements().len(),
        );
    }
}

/// One step more produces the text of that step more, at the depth that the
/// steps before it leave; and the step's element is no taller than the
/// tallest.
pub proof fn lemma_next_step(steps: Seq<StepView>, n: nat, depth: nat, unit: nat)
    requires
        n < steps.len(),
    ensures
        produced(steps, n + 1, depth, unit) == produced(steps, n, depth, unit) + step_text(
            steps[n as int],
            depth_at(steps, n, depth as int) as nat,
            unit,
        ),
        depth_at(steps, n + 1, depth as int) == depth_at(steps, n, depth as int)
            + steps[n as int].shift(),
        step_height(steps[n as int]) <= tallest(steps),
{
    lemma_tallest_covers(steps);
}

/// The step can be executed at the given depth: the depth stays within zero
/// and the machine's limit, and an element to render is well formed and not
/// so tall that the depth could pass the limit below it.
pub open spec fn step_fits(step: StepView, depth: int) -> bool {
    &&& 0 <= depth
    &&& match step {
        StepView::Dedent => depth >= 1,
        StepView::Indent => depth < usize::MAX,
        StepView::Format(element) => element.well_formed() && depth + element.height()
            <= usize::MAX,
        StepView::FormatWide(element) => element.well_formed() && depth + element.height()
            <= usize::MAX,
        _ => true,
    }
}

/// Every step can be executed at the depth that the steps before it leave.
pub open spec fn runnable(steps: Seq<StepView>, depth: int) -> bool {
    forall|k: int|
        0 <= k < steps.len() ==> step_fits(#[trigger] steps[k], depth_at(steps, k as nat, depth))
}

/// Whether the steps can be executed from the given depth: whether the depth
/// never leaves the range from zero to the machine's limit, and every element
/// to render is well formed and fits below the depth it is met at.
pub fn is_runnable(steps: &Vec<Step>, depth: usize) -> (b: bool)
    ensures
        b == runnable(step_views(steps@), depth as int),
{
    let ghost plan = step_views(steps@);
    let mut here: usize = depth;
    let mut i: usize = 0;
    while i < steps.len()
        invariant
            i <= steps.len(),
            plan == step_views(steps@),
            here == depth_at(plan, i as nat, depth as int),
            forall|k: int|
                0 <= k < i ==> step_fits(#[trigger] plan[k], depth_at(plan, k as nat, depth as int)),
        decreases steps.len() - i,
    {
        proof {
            assert(plan[i as int] == steps[i as int]@);
        }
        let fits = match steps[i] {
            Step::Dedent => here >= 1,
            Step::Indent => here < usize::MAX,
            Step::Format(element) | Step::FormatWide(element) => match element.measured_height() {
                Some(height) => height <= usize::MAX - here && element.is_well_formed(),
                None => false,
            },
            _ => true,
        };
        if !fits {
            proof {
                assert(!step_fits(plan[i as int], depth_at(plan, i as nat, depth as int)));
            }
            return false;
        }
        match steps[i] {
            Step::Dedent => {
                here = here - 1;
            },
            Step::Indent => {
                here = here + 1;
            },
            _ => {},
        }
        i = i + 1;
    }
    true
}

/// The steps that a rule gives for a well-formed node can be executed
/// wherever the node itself fits.
pub proof fn lemma_rule_steps_runnable(vertical: bool, node: SyntaxElement, depth: int)
    requires
        node is Node,
        node.well_formed(),
        0 <= depth,
        depth + node.height() <= usize::MAX,
    ensures
        runnable(rule_steps(vertical, node), depth),
{
    let steps = rule_steps(vertical, node);
    let elements = node.elements();
    lemma_rule_steps_depths(vertical, node, depth);
    lemma_rule_steps_drawn(vertical, node);
    lemma_stacked_height_covers(elements, elements.len());
    lemma_all_well_formed_covers(elements, elements.len());
    assert forall|k: int| 0 <= k < steps.len() implies step_fits(
        #[trigger] steps[k],
        depth_at(steps, k as nat, depth),
    ) by {
        let here = depth_at(steps, k as nat, depth);
        assert(depth <= here <= depth + 1);
        if steps[k].element() is Some {
            let element = steps[k].element()->0;
            let j = choose|j: int| 0 <= j < elements.len() && (#[trigger] elements[j]) == element;
            assert(elements[j].well_formed());
            assert(elements[j].height() < node.height());
        }
    }
}

/// The state of a rendering: where the indentation stands, and the text so
/// far.
pub struct Renderer {
    /// The number of indentation levels in force.
    pub depth: usize,
    /// The text produced so far.
    pub output: String,
}

impl Renderer {
    /// A rendering that has produced nothing yet.
    pub fn new() -> (renderer: Renderer)
        ensures
            renderer.depth == 0,
            renderer.output@ == Seq::<char>::empty(),
    {
        Renderer { depth: 0, output: String::new() }
    }

    /// Appends the current indentation: `indent_width` spaces for each level.
    pub fn pad(&mut self, indent_width: usize)
        ensures
            final(self).depth == old(self).depth,
            final(self).output@ == old(self).output@ + spaces(
                (old(self).depth * indent_width) as nat,
            ),
    {
        let ghost before = self.output@;
        let mut level: usize = 0;
        proof {
            assert(before =~= before + spaces(0));
        }
        while level < self.depth
            invariant
                level <= self.depth,
                self.depth == old(self).depth,
                self.output@ == before + spaces((level * indent_width) as nat),
            decreases self.depth - level,
        {
            let ghost row = self.output@;
            let mut column: usize = 0;
            proof {
                assert(row =~= row + spaces(0));
            }
            while column < indent_width
                invariant
                    column <= indent_width,
                    self.depth == old(self).depth,
                    self.output@ == row + spaces(column as nat),
                decreases indent_width - column,
            {
                self.output.append(" ");
                proof {
                    reveal_strlit(" ");
                    assert(" "@ =~= seq![' ']);
                    assert(self.output@ =~= row + spaces((column + 1) as nat));
                }
                column = column + 1;
            }
            proof {
                assert((level + 1) * indent_width == level * indent_width + indent_width)
                    by (nonlinear_arith);
                assert(level * indent_width >= 0) by (nonlinear_arith);
                assert(self.output@ =~= before + spaces(((level + 1) * indent_width) as nat));
            }
            level = level + 1;
        }
    }

    /// Renders one element: a token as its text, a node through the steps of
    /// the rule for its kind.
    pub fn format(&mut self, build_ctx: &BuildCtx, element: &SyntaxElement)
        requires
            element.well_formed(),
            old(self).depth + element.height() <= usize::MAX,
        ensures
            final(self).depth == old(self).depth,
            final(self).output@ == old(self).output@ + rendered(
                *element,
                build_ctx.vertical,
                old(self).depth as nat,
                build_ctx.indent_width as nat,
            ),
        decreases element.height(), 0nat, 0nat,
    {
        match element {
            SyntaxElement::Token { text, .. } => {
                self.output.append(text.as_str());
            },
            SyntaxElement::Node { .. } => {
                let steps = dispatch(build_ctx, element);
                proof {
                    lemma_rule_steps_runnable(build_ctx.vertical, *element, self.depth as int);
                    lemma_rule_steps_lower(build_ctx.vertical, *element);
                    lemma_rule_steps_depths(build_ctx.vertical, *element, self.depth as int);
                }
                self.execute(build_ctx.indent_width, &steps);
            },
        }
    }

    /// Executes one step.
    pub fn step(&mut self, indent_width: usize, step: &Step)
        requires
            step_fits(step@, old(self).depth as int),
        ensures
            final(self).depth == old(self).depth + step@.shift(),
            final(self).output@ == old(self).output@ + step_text(
                step@,
                old(self).depth as nat,
                indent_width as nat,
            ),
        decreases step_height(step@), 1nat, 0nat,
    {
        let ghost before = self.output@;
        match *step {
            Step::Comment(text) => {
                self.output.append(text);
            },
            Step::Dedent => {
                self.depth = self.depth - 1;
                proof {
                    assert(self.output@ =~= before + Seq::<char>::empty());
                }
            },
            Step::Format(element) => {
                let inner = BuildCtx { vertical: false, indent_width };
                self.format(&inner, element);
            },
            Step::FormatWide(element) => {
                let inner = BuildCtx { vertical: true, indent_width };
                self.format(&inner, element);
            },
            Step::Indent => {
                self.depth = self.depth + 1;
                proof {
                    assert(self.output@ =~= before + Seq::<char>::empty());
                }
            },
            Step::NewLine => {
                self.output.append("\n");
                proof {
                    reveal_strlit("\n");
                    assert("\n"@ =~= seq!['\n']);
                }
            },
            Step::Pad => {
                self.pad(indent_width);
            },
            Step::SingleSpace => {
                self.output.append(" ");
                proof {
                    reveal_strlit(" ");
                    assert(" "@ =~= seq![' ']);
                }
            },
        }
    }

    /// Executes step `i`, the steps before it being done: from the depth and
    /// the text that those have left to the depth and the text that one step
    /// more leaves.
    fn step_at(
        &mut self,
        indent_width: usize,
        steps: &Vec<Step>,
        i: usize,
        Ghost(start): Ghost<usize>,
        Ghost(before): Ghost<Seq<char>>,
    )
        requires
            i < steps.len(),
            runnable(step_views(steps@), start as int),
            old(self).depth == depth_at(step_views(steps@), i as nat, start as int),
            old(self).output@ == before + produced(
                step_views(steps@),
                i as nat,
                start as nat,
                indent_width as nat,
            ),
        ensures
            final(self).depth == depth_at(step_views(steps@), (i + 1) as nat, start as int),
            final(self).output@ == before + produced(
                step_views(steps@),
                (i + 1) as nat,
                start as nat,
                indent_width as nat,
            ),
        decreases tallest(step_views(steps@)), 1nat, 1nat,
    {
        let ghost plan = step_views(steps@);
        let ghost so_far = produced(plan, i as nat, start as nat, indent_width as nat);
        let ghost piece = step_text(plan[i as int], self.depth as nat, indent_width as nat);
        proof {
            assert(plan[i as int] == steps[i as int]@);
            assert(step_fits(plan[i as int], self.depth as int));
            lemma_next_step(plan, i as nat, start as nat, indent_width as nat);
        }
        self.step(indent_width, &steps[i]);
        proof {
            assert(self.output@ =~= before + (so_far + piece));
        }
    }

    /// Executes the steps in order.
    pub fn execute(&mut self, indent_width: usize, steps: &Vec<Step>)
        requires
            runnable(step_views(steps@), old(self).depth as int),
        ensures
            final(self).depth == depth_at(
                step_views(steps@),
                steps.len() as nat,
                old(self).depth as int,
            ),
            final(self).output@ == old(self).output@ + produced(
                step_views(steps@),
                steps.len() as nat,
                old(self).depth as nat,
                indent_width as nat,
            ),
        decreases tallest(step_views(steps@)), 1nat, 2nat,
    {
        let ghost start = self.depth;
        let ghost before = self.output@;
        let mut i: usize = 0;
        proof {
            assert(before =~= before + produced(
                step_views(steps@),
                0,
                start as nat,
                indent_width as nat,
            ));
        }
        while i < steps.len()
            invariant
                i <= steps.len(),
                runnable(step_views(steps@), start as int),
                self.depth == depth_at(step_views(steps@), i as nat, start as int),
                self.output@ == before + produced(
                    step_views(steps@),
                    i as nat,
                    start as nat,
                    indent_width as nat,
                ),
            decreases steps.len() - i,
        {
            self.step_at(indent_width, steps, i, Ghost(start), Ghost(before));
            i = i + 1;
        }
    }
}

/// The text of a well-formed tree.
pub fn render(build_ctx: &BuildCtx, root: &SyntaxElement) -> (text: String)
    requires
        root.well_formed(),
        root.height() <= usize::MAX,
    ensures
        text@ == rendered(*root, build_ctx.vertical, 0, build_ctx.indent_width as nat),
{
    let mut renderer = Renderer::new();
    renderer.format(build_ctx, root);
    renderer.output
}

/// The text of a tree, or nothing where a node does not have the shape that
/// its rule relies on or the tree is taller than the machine can count.
pub fn try_render(build_ctx: &BuildCtx, root: &SyntaxElement) -> (text: Option<String>)
    ensures
        text is Some <==> root.well_formed() && root.height() <= usize::MAX,
        text matches Some(text) ==> text@ == rendered(
            *root,
            build_ctx.vertical,
            0,
            build_ctx.indent_width as nat,
        ),
{
    if root.measured_height().is_some() && root.is_well_formed() {
        Some(render(build_ctx, root))
    } else {
        None
    }
}

} // verus!
