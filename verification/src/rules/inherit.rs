use crate::builder::{
    dedents, depth_at, indents, keeps_level, lemma_counts_of_joined_steps,
    lemma_counts_of_level_steps, lemma_depth_of_joined_steps, lemma_depth_of_level_steps,
    push_step, step_views, BuildCtx, Step, StepView,
};
use crate::children::{child_views, extract, Child, ChildView, Trivia, TriviaView};
use crate::ordering::{
    identity_order, indices, is_orderable, lemma_natural_permutation_is_arrangement,
    natural_order_of, natural_permutation, orderable, views,
};
use crate::syntax::{NodeKind, SyntaxElement};
use vstd::prelude::*;

verus! {

/// A from-clause is a node of kind `InheritFrom`.
pub open spec fn is_from_clause(child: ChildView) -> bool {
    child.element matches SyntaxElement::Node { kind: NodeKind::InheritFrom, .. }
}

/// The construct has a from-clause when its second child is one and is not
/// the terminator.
pub open spec fn has_from_clause(children: Seq<ChildView>) -> bool {
    children.len() > 2 && is_from_clause(children[1])
}

/// The index of the first name: behind the keyword and the from-clause.
pub open spec fn names_start(children: Seq<ChildView>) -> int {
    if has_from_clause(children) {
        2
    } else {
        1
    }
}

/// The number of names: what stands between the from-clause and the
/// terminator.
pub open spec fn names_count(children: Seq<ChildView>) -> nat {
    (children.len() - 1 - names_start(children)) as nat
}

/// The child has an inline comment or a trivia list that is not empty.
pub open spec fn carries_trivia(child: ChildView) -> bool {
    child.has_inline_comment() || child.has_trivialities()
}

/// One of the children from index `lo` up to, not including, `hi` carries
/// trivia.
pub open spec fn carries_trivia_within(children: Seq<ChildView>, lo: int, hi: int) -> bool {
    exists|i: int| lo <= i < hi && 0 <= i < children.len() && carries_trivia(#[trigger] children[i])
}

/// The shape `keyword [from-clause] name… terminator`: at least a keyword and
/// a terminator, and no from-clause but directly behind the keyword.
pub open spec fn inherit_shape(children: Seq<ChildView>) -> bool {
    &&& children.len() >= 2
    &&& forall|i: int|
        0 <= i < children.len() && is_from_clause(#[trigger] children[i]) ==> i == 1
            && children.len() > 2
}

/// The layout is vertical when the context forces it, or when any child,
/// keyword and terminator included, carries trivia.
pub open spec fn is_vertical(forced: bool, children: Seq<ChildView>) -> bool {
    forced || carries_trivia_within(children, 0, children.len() as int)
}

/// The names keep their source order when the from-clause or any name
/// carries trivia: sorting would move a comment to another name.
pub open spec fn keeps_source_order(children: Seq<ChildView>) -> bool {
    carries_trivia_within(children, 1, children.len() - 1)
}

/// The source texts of the names, by which they are sorted.
pub open spec fn name_keys(children: Seq<ChildView>) -> Seq<Seq<char>> {
    Seq::new(
        names_count(children),
        |k: int| children[names_start(children) + k].element.text(),
    )
}

/// The children have the shape of the construct, and the names can be ranked
/// where they are going to be sorted.
pub open spec fn inherit_ready(children: Seq<ChildView>) -> bool {
    &&& inherit_shape(children)
    &&& !keeps_source_order(children) ==> forall|k: int|
        0 <= k < names_count(children) ==> orderable(#[trigger] name_keys(children)[k])
}

/// The positions of the names in the order in which they are emitted, counted
/// from the first name: natural order, or source order where that is kept.
pub open spec fn names_order(children: Seq<ChildView>) -> Seq<int> {
    if keeps_source_order(children) {
        identity_order(names_count(children))
    } else {
        natural_permutation(name_keys(children), names_count(children))
    }
}

/// The indices of the children between keyword and terminator in the order
/// in which they are emitted: the from-clause, then the names.
pub open spec fn emission_order(children: Seq<ChildView>) -> Seq<int> {
    let names = Seq::new(
        names_count(children),
        |k: int| names_start(children) + names_order(children)[k],
    );
    if has_from_clause(children) {
        seq![1int] + names
    } else {
        names
    }
}

/// What one entry of the keyword's trivia list adds: a comment its text on a
/// padded line of its own, a blank run nothing.
pub open spec fn keyword_trivia_entry_steps(entry: TriviaView) -> Seq<StepView> {
    match entry {
        TriviaView::Comment(text) => seq![
            StepView::Comment(text),
            StepView::NewLine,
            StepView::Pad,
        ],
        TriviaView::BlankRun(_) => Seq::empty(),
    }
}

/// What the first `n` entries of the keyword's trivia list add.
pub open spec fn keyword_trivia_steps(trivia: Seq<TriviaView>, n: nat) -> Seq<StepView>
    decreases n,
{
    if n == 0 || n > trivia.len() {
        Seq::empty()
    } else {
        keyword_trivia_steps(trivia, (n - 1) as nat) + keyword_trivia_entry_steps(trivia[n - 1])
    }
}

/// What follows the keyword before its trivia: its inline comment and the
/// break to the first padded line; without one, that break where the layout
/// is vertical.
pub open spec fn keyword_lead_steps(vertical: bool, keyword: ChildView) -> Seq<StepView> {
    match keyword.inline_comment {
        Some(text) => seq![
            StepView::SingleSpace,
            StepView::Comment(text),
            StepView::NewLine,
            StepView::Pad,
        ],
        None => if vertical {
            seq![StepView::NewLine, StepView::Pad]
        } else {
            Seq::empty()
        },
    }
}

/// What follows the keyword before the first child: its lead, then its
/// trivia.
pub open spec fn keyword_tail_steps(vertical: bool, keyword: ChildView) -> Seq<StepView> {
    keyword_lead_steps(vertical, keyword) + keyword_trivia_steps(
        keyword.trivia,
        keyword.trivia.len(),
    )
}

/// A trivia list that begins with a comment.
pub open spec fn starts_with_comment(trivia: Seq<TriviaView>) -> bool {
    trivia.len() > 0 && trivia[0] is Comment
}

/// The break to the next padded line, where one is owed.
pub open spec fn line_end(owed: bool) -> Seq<StepView> {
    if owed {
        seq![StepView::NewLine, StepView::Pad]
    } else {
        Seq::empty()
    }
}

/// Whether a break to the next padded line is owed behind entry `i` of a
/// child's trivia list: behind every entry that another entry follows, and
/// behind the last entry of a child that is not the last. Only the break that
/// would end the last child's block is dropped.
pub open spec fn owes_line_end(trivia: Seq<TriviaView>, i: int, not_last: bool) -> bool {
    not_last || i + 1 < trivia.len()
}

/// What entry `i` of a child's trivia list adds in a vertical layout: a
/// comment adds its text, a blank run no text; either ends with the break to
/// the next padded line where one is owed, but for a comment directly before
/// a blank run, which leaves the break to the run.
pub open spec fn trivia_entry_steps(trivia: Seq<TriviaView>, i: int, not_last: bool) -> Seq<
    StepView,
> {
    match trivia[i] {
        TriviaView::Comment(text) => if i + 1 < trivia.len() && trivia[i + 1] is BlankRun {
            seq![StepView::Comment(text)]
        } else {
            seq![StepView::Comment(text)] + line_end(owes_line_end(trivia, i, not_last))
        },
        TriviaView::BlankRun(_) => line_end(owes_line_end(trivia, i, not_last)),
    }
}

/// What the first `n` entries of a child's trivia list add in a vertical
/// layout.
pub open spec fn trivia_steps(trivia: Seq<TriviaView>, n: nat, not_last: bool) -> Seq<StepView>
    decreases n,
{
    if n == 0 || n > trivia.len() {
        Seq::empty()
    } else {
        trivia_steps(trivia, (n - 1) as nat, not_last) + trivia_entry_steps(
            trivia,
            n - 1,
            not_last,
        )
    }
}

/// What follows a child's element in a vertical layout, before its trivia:
/// the inline comment with its line break, padded only where no blank run
/// comes next; without one, the break to the next padded line where the
/// child has no trivia and is not the last, or where a comment comes next.
pub open spec fn lead_steps(child: ChildView, not_last: bool) -> Seq<StepView> {
    match child.inline_comment {
        Some(text) => seq![StepView::SingleSpace, StepView::Comment(text), StepView::NewLine]
            + if child.trivia.len() == 0 || starts_with_comment(child.trivia) {
            seq![StepView::Pad]
        } else {
            Seq::empty()
        },
        None => if (not_last && child.trivia.len() == 0) || starts_with_comment(child.trivia) {
            seq![StepView::NewLine, StepView::Pad]
        } else {
            Seq::empty()
        },
    }
}

/// The steps of one child behind the keyword. Vertical: the element, its
/// inline comment, then each entry of its trivia, every standalone comment on
/// a padded line of its own; the last child leaves out only the break that
/// would end its block. Horizontal: a space before every child but the last,
/// then the element.
pub open spec fn child_steps(vertical: bool, child: ChildView, not_last: bool) -> Seq<StepView> {
    if vertical {
        seq![StepView::FormatWide(child.element)] + lead_steps(child, not_last) + trivia_steps(
            child.trivia,
            child.trivia.len(),
            not_last,
        )
    } else {
        if not_last {
            seq![StepView::SingleSpace, StepView::Format(child.element)]
        } else {
            seq![StepView::Format(child.element)]
        }
    }
}

/// The steps of the children at the first `n` indices of `order`, none of
/// them the last child.
pub open spec fn placed_steps(
    vertical: bool,
    children: Seq<ChildView>,
    order: Seq<int>,
    n: nat,
) -> Seq<StepView>
    decreases n,
{
    if n == 0 || n > order.len() {
        Seq::empty()
    } else {
        placed_steps(vertical, children, order, (n - 1) as nat) + child_steps(
            vertical,
            children[order[n - 1]],
            true,
        )
    }
}

/// How the construct opens: the keyword, and one level in where the layout is
/// vertical.
pub open spec fn opening_steps(vertical: bool, keyword: ChildView) -> Seq<StepView> {
    if vertical {
        seq![StepView::Format(keyword.element), StepView::Indent]
    } else {
        seq![StepView::Format(keyword.element)]
    }
}

/// What stands between opening and closing when the children between
/// keyword and terminator are emitted in the given order: the keyword's
/// trivia, those children, and the terminator.
pub open spec fn ordered_body_steps(
    vertical: bool,
    children: Seq<ChildView>,
    order: Seq<int>,
) -> Seq<StepView> {
    keyword_tail_steps(vertical, children[0]) + placed_steps(
        vertical,
        children,
        order,
        order.len(),
    ) + child_steps(vertical, children.last(), false)
}

/// How the construct closes: one level out where the layout is vertical.
pub open spec fn closing_steps(vertical: bool) -> Seq<StepView> {
    if vertical {
        seq![StepView::Dedent]
    } else {
        Seq::empty()
    }
}

/// The steps of a construct whose children between keyword and terminator
/// are emitted in the given order.
pub open spec fn ordered_steps(forced: bool, children: Seq<ChildView>, order: Seq<int>) -> Seq<
    StepView,
> {
    let vertical = is_vertical(forced, children);
    opening_steps(vertical, children[0]) + ordered_body_steps(vertical, children, order)
        + closing_steps(vertical)
}

/// What stands between opening and closing: the keyword's trivia, the
/// from-clause and the names in emission order, and the terminator.
pub open spec fn body_steps(vertical: bool, children: Seq<ChildView>) -> Seq<StepView> {
    ordered_body_steps(vertical, children, emission_order(children))
}

/// The steps of the whole construct: the from-clause and the names in
/// emission order between keyword and terminator.
pub open spec fn inherit_steps(forced: bool, children: Seq<ChildView>) -> Seq<StepView> {
    ordered_steps(forced, children, emission_order(children))
}

/// The steps keep the level, and every element in them is the element of one
/// of the children.
pub open spec fn drawn_from(steps: Seq<StepView>, children: Seq<ChildView>) -> bool {
    forall|i: int|
        0 <= i < steps.len() ==> {
            &&& (#[trigger] steps[i]).shift() == 0
            &&& steps[i].element() matches Some(element) ==> exists|k: int|
                0 <= k < children.len() && (#[trigger] children[k]).element == element
        }
}

/// The steps keep the level and ask for no element.
pub open spec fn bare(steps: Seq<StepView>) -> bool {
    forall|i: int|
        0 <= i < steps.len() ==> (#[trigger] steps[i]).shift() == 0 && steps[i].element() is None
}

/// A child's trivia adds steps that keep the level and ask for no element.
pub proof fn lemma_trivia_steps_bare(trivia: Seq<TriviaView>, n: nat, not_last: bool)
    ensures
        bare(trivia_steps(trivia, n, not_last)),
    decreases n,
{
    if !(n == 0 || n > trivia.len()) {
        lemma_trivia_steps_bare(trivia, (n - 1) as nat, not_last);
    }
}

/// The keyword's trivia adds steps that keep the level and ask for no
/// element.
pub proof fn lemma_keyword_trivia_steps_bare(trivia: Seq<TriviaView>, n: nat)
    ensures
        bare(keyword_trivia_steps(trivia, n)),
    decreases n,
{
    if !(n == 0 || n > trivia.len()) {
        lemma_keyword_trivia_steps_bare(trivia, (n - 1) as nat);
    }
}

/// The steps of a child keep the level and ask for no element but its own.
pub proof fn lemma_child_steps_drawn(
    vertical: bool,
    children: Seq<ChildView>,
    k: int,
    not_last: bool,
)
    requires
        0 <= k < children.len(),
    ensures
        drawn_from(child_steps(vertical, children[k], not_last), children),
{
    let child = children[k];
    let steps = child_steps(vertical, child, not_last);
    lemma_trivia_steps_bare(child.trivia, child.trivia.len(), not_last);
    assert forall|i: int| 0 <= i < steps.len() implies {
        &&& (#[trigger] steps[i]).shift() == 0
        &&& steps[i].element() matches Some(element) ==> exists|j: int|
            0 <= j < children.len() && (#[trigger] children[j]).element == element
    } by {
        if steps[i].element() is Some {
            assert(children[k].element == steps[i].element()->0);
        }
    }
}

/// The steps of the children at given indices keep the level and ask for no
/// element but theirs.
pub proof fn lemma_placed_steps_drawn(
    vertical: bool,
    children: Seq<ChildView>,
    order: Seq<int>,
    n: nat,
)
    requires
        forall|j: int| 0 <= j < order.len() ==> 0 <= #[trigger] order[j] < children.len(),
    ensures
        drawn_from(placed_steps(vertical, children, order, n), children),
    decreases n,
{
    if !(n == 0 || n > order.len()) {
        lemma_placed_steps_drawn(vertical, children, order, (n - 1) as nat);
        lemma_child_steps_drawn(vertical, children, order[n - 1], true);
    }
}

/// The emission order holds each index between keyword and terminator
/// exactly once.
pub proof fn lemma_emission_order_covers_middle(children: Seq<ChildView>)
    requires
        children.len() >= 2,
    ensures
        emission_order(children).len() == children.len() - 2,
        forall|j: int|
            0 <= j < emission_order(children).len() ==> 1 <= #[trigger] emission_order(
                children,
            )[j] < children.len() - 1,
        forall|j: int, l: int|
            0 <= j < l < emission_order(children).len() ==> #[trigger] emission_order(
                children,
            )[j] != #[trigger] emission_order(children)[l],
{
    lemma_natural_permutation_is_arrangement(name_keys(children), names_count(children));
    let order = emission_order(children);
    let names = names_order(children);
    assert forall|j: int, l: int| 0 <= j < l < order.len() implies #[trigger] order[j]
        != #[trigger] order[l] by {
        if has_from_clause(children) {
            if j > 0 {
                assert(names[j - 1] != names[l - 1]);
            }
        } else {
            assert(names[j] != names[l]);
        }
    }
}

/// What stands between opening and closing keeps the level and asks for no
/// element but those of the children.
pub proof fn lemma_body_steps_drawn(vertical: bool, children: Seq<ChildView>)
    requires
        children.len() >= 2,
    ensures
        drawn_from(body_steps(vertical, children), children),
{
    let order = emission_order(children);
    lemma_emission_order_covers_middle(children);
    lemma_keyword_trivia_steps_bare(children[0].trivia, children[0].trivia.len());
    lemma_placed_steps_drawn(vertical, children, order, order.len());
    lemma_child_steps_drawn(vertical, children, children.len() - 1, false);
}

/// Every element in the steps of the construct is the element of one of its
/// children.
pub proof fn lemma_inherit_steps_drawn(forced: bool, children: Seq<ChildView>)
    requires
        children.len() >= 2,
    ensures
        forall|i: int|
            0 <= i < inherit_steps(forced, children).len() ==> ((#[trigger] inherit_steps(
                forced,
                children,
            )[i]).element() matches Some(element) ==> exists|k: int|
                0 <= k < children.len() && (#[trigger] children[k]).element == element),
{
    let vertical = is_vertical(forced, children);
    let steps = inherit_steps(forced, children);
    let opening = opening_steps(vertical, children[0]);
    let body = body_steps(vertical, children);
    lemma_body_steps_drawn(vertical, children);
    assert forall|i: int| 0 <= i < steps.len() implies ((#[trigger] steps[i]).element()
        matches Some(element) ==> exists|k: int|
        0 <= k < children.len() && (#[trigger] children[k]).element == element) by {
        if i < opening.len() {
            assert(steps[i] == opening[i]);
            if steps[i].element() is Some {
                assert(children[0].element == steps[i].element()->0);
            }
        } else if i < opening.len() + body.len() {
            assert(steps[i] == body[i - opening.len()]);
        }
    }
}

/// Balanced indentation: the steps of the construct hold as many `Indent` as
/// `Dedent`, one of each in a vertical layout and none in a horizontal one.
pub proof fn lemma_inherit_steps_balanced(forced: bool, children: Seq<ChildView>)
    requires
        children.len() >= 2,
    ensures
        indents(inherit_steps(forced, children)) == dedents(inherit_steps(forced, children)),
        indents(inherit_steps(forced, children)) == if is_vertical(forced, children) {
            1nat
        } else {
            0nat
        },
{
    let vertical = is_vertical(forced, children);
    let opening = opening_steps(vertical, children[0]);
    let body = body_steps(vertical, children);
    let closing = closing_steps(vertical);
    lemma_body_steps_drawn(vertical, children);
    lemma_counts_of_level_steps(body);
    lemma_counts_of_joined_steps(opening, body);
    lemma_counts_of_joined_steps(opening + body, closing);
    reveal_with_fuel(indents, 3);
    reveal_with_fuel(dedents, 3);
    if vertical {
        assert(opening.drop_last() =~= seq![StepView::Format(children[0].element)]);
        assert(opening.drop_last().drop_last() =~= Seq::<StepView>::empty());
        assert(closing.drop_last() =~= Seq::<StepView>::empty());
    } else {
        assert(opening.drop_last() =~= Seq::<StepView>::empty());
    }
}

/// The depth along the steps of the construct: one level in from behind the
/// opening to before the closing `Dedent` in a vertical layout, unchanged
/// throughout in a horizontal one.
pub proof fn lemma_inherit_steps_depths(forced: bool, children: Seq<ChildView>, depth: int)
    requires
        children.len() >= 2,
    ensures
        depth_at(
            inherit_steps(forced, children),
            inherit_steps(forced, children).len(),
            depth,
        ) == depth,
        forall|n: int|
            0 <= n <= inherit_steps(forced, children).len() ==> depth <= #[trigger] depth_at(
                inherit_steps(forced, children),
                n as nat,
                depth,
            ) <= depth + 1,
        forall|k: int|
            0 <= k < inherit_steps(forced, children).len() && (#[trigger] inherit_steps(
                forced,
                children,
            )[k]) is Dedent ==> depth_at(inherit_steps(forced, children), k as nat, depth)
                == depth + 1,
        forall|k: int|
            0 <= k < inherit_steps(forced, children).len() && (#[trigger] inherit_steps(
                forced,
                children,
            )[k]) is Indent ==> depth_at(inherit_steps(forced, children), k as nat, depth)
                == depth,
{
    let vertical = is_vertical(forced, children);
    let steps = inherit_steps(forced, children);
    let opening = opening_steps(vertical, children[0]);
    let body = body_steps(vertical, children);
    let closing = closing_steps(vertical);
    let inner = if vertical {
        depth + 1
    } else {
        depth
    };
    lemma_body_steps_drawn(vertical, children);
    assert(keeps_level(body));
    reveal_with_fuel(depth_at, 3);
    assert(depth_at(opening, 0, depth) == depth);
    assert(depth_at(opening, 1, depth) == depth);
    assert(depth_at(opening, opening.len(), depth) == inner);
    assert forall|n: int| 0 <= n <= steps.len() implies #[trigger] depth_at(
        steps,
        n as nat,
        depth,
    ) == if n <= 1 || !vertical || n == steps.len() {
        depth
    } else {
        depth + 1
    } by {
        lemma_depth_of_joined_steps(opening + body, closing, n as nat, depth);
        if n <= opening.len() + body.len() {
            lemma_depth_of_joined_steps(opening, body, n as nat, depth);
            if n > opening.len() {
                lemma_depth_of_level_steps(body, (n - opening.len()) as nat, inner);
            }
        } else {
            lemma_depth_of_joined_steps(opening, body, opening.len() + body.len(), depth);
            lemma_depth_of_level_steps(body, body.len(), inner);
        }
    }
    assert forall|k: int| 0 <= k < steps.len() && (#[trigger] steps[k]).shift() != 0 implies if k
        == 1 {
        steps[k] is Indent
    } else {
        k == steps.len() - 1 && steps[k] is Dedent && vertical
    } by {
        if k < opening.len() {
            assert(steps[k] == opening[k]);
        } else if k < opening.len() + body.len() {
            assert(steps[k] == body[k - opening.len()]);
        } else {
            assert(steps[k] == closing[k - opening.len() - body.len()]);
        }
    }
    assert(depth_at(steps, steps.len(), depth) == depth);
}

/// Whether one of the children from index `lo` up to, not including, `hi`
/// carries trivia.
pub fn any_carries_trivia(children: &Vec<Child>, lo: usize, hi: usize) -> (b: bool)
    requires
        hi <= children.len(),
    ensures
        b == carries_trivia_within(child_views(children@), lo as int, hi as int),
{
    let mut i: usize = lo;
    while i < hi
        invariant
            hi <= children.len(),
            lo <= i,
            forall|j: int| lo <= j < i && j < hi ==> !carries_trivia(#[trigger] child_views(children@)[j]),
        decreases hi - i,
    {
        if children[i].has_inline_comment() || children[i].has_trivialities() {
            assert(carries_trivia(child_views(children@)[i as int]));
            return true;
        }
        i = i + 1;
    }
    false
}

/// The source text of a child's element.
pub fn child_text(child: &Child) -> (text: String)
    ensures
        text@ == child@.element.text(),
{
    child.element.to_text()
}

/// Whether the child is a from-clause.
pub fn from_clause(child: &Child) -> (b: bool)
    ensures
        b == is_from_clause(child@),
{
    match child.element {
        SyntaxElement::Node { kind: NodeKind::InheritFrom, .. } => true,
        _ => false,
    }
}

/// The indices of the children between keyword and terminator in the order
/// in which they are emitted.
pub fn emission_order_of(children: &Vec<Child>) -> (order: Vec<usize>)
    requires
        inherit_ready(child_views(children@)),
    ensures
        indices(order@) == emission_order(child_views(children@)),
{
    let ghost model = child_views(children@);
    let n = children.len();
    let mut order: Vec<usize> = Vec::new();
    let mut start: usize = 1;
    if n > 2 && from_clause(&children[1]) {
        order.push(1);
        start = 2;
    }
    let count = n - 1 - start;
    if any_carries_trivia(children, 1, n - 1) {
        let mut k: usize = 0;
        while k < count
            invariant
                k <= count,
                count == n - 1 - start,
                start == names_start(model),
                order.len() == start - 1 + k,
                start == 2 ==> order@[0] == 1,
                forall|j: int| start - 1 <= j < order.len() ==> #[trigger] order@[j] == j + 1,
            decreases count - k,
        {
            order.push(start + k);
            k = k + 1;
        }
        proof {
            assert(indices(order@) =~= emission_order(model));
        }
    } else {
        let mut keys: Vec<String> = Vec::new();
        let mut k: usize = 0;
        while k < count
            invariant
                k <= count,
                count == n - 1 - start,
                n == children.len(),
                1 <= start,
                model == child_views(children@),
                keys.len() == k,
                forall|j: int| 0 <= j < k ==> (#[trigger] keys[j])@ == model[start + j].element.text(),
            decreases count - k,
        {
            keys.push(child_text(&children[start + k]));
            k = k + 1;
        }
        proof {
            assert(views(keys@) =~= name_keys(model));
            assert forall|j: int| 0 <= j < keys.len() implies orderable(#[trigger] keys[j]@) by {
                assert(keys[j]@ == name_keys(model)[j]);
            }
        }
        let sorted = natural_order_of(&keys);
        proof {
            lemma_natural_permutation_is_arrangement(name_keys(model), count as nat);
            assert(indices(sorted@).len() == count);
            assert forall|j: int| 0 <= j < count implies 0 <= #[trigger] sorted[j] < count by {
                assert(indices(sorted@)[j] == sorted[j]);
            }
        }
        let mut k: usize = 0;
        while k < count
            invariant
                k <= count,
                count == n - 1 - start,
                start == names_start(model),
                sorted.len() == count,
                indices(sorted@) == names_order(model),
                forall|j: int| 0 <= j < count ==> 0 <= #[trigger] sorted[j] < count,
                order.len() == start - 1 + k,
                start == 2 ==> order@[0] == 1,
                forall|j: int|
                    start - 1 <= j < order.len() ==> #[trigger] order@[j] == start + sorted@[j - (
                    start - 1)],
            decreases count - k,
        {
            order.push(start + sorted[k]);
            k = k + 1;
        }
        proof {
            assert forall|j: int| 0 <= j < count implies indices(sorted@)[j] == sorted[j] by {}
            assert(indices(order@) =~= emission_order(model));
        }
    }
    order
}

/// Whether the children have the shape of the construct, and names that can
/// be ranked where they are going to be sorted.
pub fn is_inherit_ready(children: &Vec<Child>) -> (b: bool)
    ensures
        b == inherit_ready(child_views(children@)),
{
    let ghost model = child_views(children@);
    let n = children.len();
    if n < 2 {
        return false;
    }
    let mut i: usize = 0;
    while i < n
        invariant
            i <= n,
            n == children.len(),
            model == child_views(children@),
            forall|j: int| 0 <= j < i && is_from_clause(#[trigger] model[j]) ==> j == 1 && n > 2,
        decreases n - i,
    {
        if from_clause(&children[i]) && !(i == 1 && n > 2) {
            assert(is_from_clause(model[i as int]));
            return false;
        }
        i = i + 1;
    }
    if any_carries_trivia(children, 1, n - 1) {
        return true;
    }
    let start: usize = if from_clause(&children[1]) && n > 2 {
        2
    } else {
        1
    };
    let mut k: usize = start;
    while k < n - 1
        invariant
            start <= k,
            1 <= start,
            n == children.len(),
            n >= 2,
            k <= n - 1 || start == n,
            start == names_start(model),
            model == child_views(children@),
            !keeps_source_order(model),
            forall|j: int|
                0 <= j < k - start ==> orderable(#[trigger] name_keys(model)[j]),
        decreases n - k,
    {
        let text = child_text(&children[k]);
        assert(name_keys(model)[k - start] == text@);
        if !is_orderable(text.as_str()) {
            return false;
        }
        k = k + 1;
    }
    true
}

/// Whether the trivia entry is a blank run.
fn is_blank_run(trivia: &Trivia) -> (b: bool)
    ensures
        b == (trivia@ is BlankRun),
{
    match trivia {
        Trivia::BlankRun(_) => true,
        Trivia::Comment(_) => false,
    }
}

/// Whether the trivia list begins with a comment.
fn begins_with_comment(trivia: &Vec<Trivia>) -> (b: bool)
    ensures
        b == starts_with_comment(crate::children::trivia_views(trivia@)),
{
    trivia.len() > 0 && !is_blank_run(&trivia[0])
}

/// Appends the steps of one child behind the keyword.
pub fn format_inherit_child<'a>(
    steps: &mut Vec<Step<'a>>,
    vertical: bool,
    child: &Child<'a>,
    not_last_child: bool,
)
    ensures
        step_views(final(steps)@) == step_views(old(steps)@) + child_steps(
            vertical,
            child@,
            not_last_child,
        ),
{
    let ghost base = step_views(steps@);
    let ghost trivia = child@.trivia;
    if vertical {
        push_step(steps, Step::FormatWide(child.element));
        match child.inline_comment {
            Some(text) => {
                push_step(steps, Step::SingleSpace);
                push_step(steps, Step::Comment(text));
                push_step(steps, Step::NewLine);
                if child.trivialities.len() == 0 || begins_with_comment(&child.trivialities) {
                    push_step(steps, Step::Pad);
                }
            },
            None => {
                if (not_last_child && !child.has_trivialities()) || begins_with_comment(
                    &child.trivialities,
                ) {
                    push_step(steps, Step::NewLine);
                    push_step(steps, Step::Pad);
                }
            },
        }
        let ghost lead = seq![StepView::FormatWide(child@.element)] + lead_steps(
            child@,
            not_last_child,
        );
        proof {
            assert(step_views(steps@) =~= base + lead + trivia_steps(trivia, 0, not_last_child));
        }
        let mut i: usize = 0;
        while i < child.trivialities.len()
            invariant
                i <= child.trivialities.len(),
                trivia == child@.trivia,
                step_views(steps@) == base + lead + trivia_steps(trivia, i as nat, not_last_child),
            decreases child.trivialities.len() - i,
        {
            let ghost before = step_views(steps@);
            let mut ends_line = not_last_child || i + 1 < child.trivialities.len();
            match child.trivialities[i] {
                Trivia::Comment(text) => {
                    push_step(steps, Step::Comment(text));
                    if i + 1 < child.trivialities.len() && is_blank_run(
                        &child.trivialities[i + 1],
                    ) {
                        ends_line = false;
                    }
                },
                Trivia::BlankRun(_) => {},
            }
            if ends_line {
                push_step(steps, Step::NewLine);
                push_step(steps, Step::Pad);
            }
            proof {
                assert(trivia[i as int] == child.trivialities[i as int]@);
                if i + 1 < child.trivialities.len() {
                    assert(trivia[i + 1] == child.trivialities[i + 1]@);
                }
                assert(step_views(steps@) =~= before + trivia_entry_steps(
                    trivia,
                    i as int,
                    not_last_child,
                ));
            }
            i = i + 1;
        }
        proof {
            assert(step_views(steps@) =~= base + child_steps(vertical, child@, not_last_child));
        }
    } else {
        if not_last_child {
            push_step(steps, Step::SingleSpace);
        }
        push_step(steps, Step::Format(child.element));
        proof {
            assert(step_views(steps@) =~= base + child_steps(vertical, child@, not_last_child));
        }
    }
}

/// Appends what follows the keyword before the first child.
fn format_keyword_tail<'a>(steps: &mut Vec<Step<'a>>, vertical: bool, keyword: &Child<'a>)
    ensures
        step_views(final(steps)@) == step_views(old(steps)@) + keyword_tail_steps(
            vertical,
            keyword@,
        ),
{
    let ghost base = step_views(steps@);
    let ghost trivia = keyword@.trivia;
    match keyword.inline_comment {
        Some(text) => {
            push_step(steps, Step::SingleSpace);
            push_step(steps, Step::Comment(text));
            push_step(steps, Step::NewLine);
            push_step(steps, Step::Pad);
        },
        None => {
            if vertical {
                push_step(steps, Step::NewLine);
                push_step(steps, Step::Pad);
            }
        },
    }
    let ghost lead = step_views(steps@);
    proof {
        assert(lead =~= lead + keyword_trivia_steps(trivia, 0));
    }
    let mut i: usize = 0;
    while i < keyword.trivialities.len()
        invariant
            i <= keyword.trivialities.len(),
            trivia == keyword@.trivia,
            step_views(steps@) == lead + keyword_trivia_steps(trivia, i as nat),
        decreases keyword.trivialities.len() - i,
    {
        let ghost before = step_views(steps@);
        match keyword.trivialities[i] {
            Trivia::Comment(text) => {
                push_step(steps, Step::Comment(text));
                push_step(steps, Step::NewLine);
                push_step(steps, Step::Pad);
            },
            Trivia::BlankRun(_) => {},
        }
        proof {
            assert(trivia[i as int] == keyword.trivialities[i as int]@);
            assert(step_views(steps@) =~= lead + keyword_trivia_steps(trivia, (i + 1) as nat));
        }
        i = i + 1;
    }
    proof {
        assert(step_views(steps@) =~= base + keyword_tail_steps(vertical, keyword@));
    }
}

/// The steps of a construct whose children between keyword and terminator
/// are emitted in the given order.
pub fn arrange<'a>(build_ctx: &BuildCtx, children: &Vec<Child<'a>>, order: &Vec<usize>) -> (steps:
    Vec<Step<'a>>)
    requires
        children.len() >= 2,
        forall|k: int| 0 <= k < order.len() ==> #[trigger] order[k] < children.len(),
    ensures
        step_views(steps@) == ordered_steps(
            build_ctx.vertical,
            child_views(children@),
            indices(order@),
        ),
{
    let ghost model = child_views(children@);
    let ghost plan = indices(order@);
    let n = children.len();
    let vertical = build_ctx.vertical || any_carries_trivia(children, 0, n);
    let mut steps: Vec<Step<'a>> = Vec::new();
    push_step(&mut steps, Step::Format(children[0].element));
    if vertical {
        push_step(&mut steps, Step::Indent);
    }
    proof {
        assert(step_views(steps@) =~= opening_steps(vertical, model[0]));
    }
    format_keyword_tail(&mut steps, vertical, &children[0]);
    let ghost head = step_views(steps@);
    proof {
        assert(head =~= head + placed_steps(vertical, model, plan, 0));
    }
    let mut k: usize = 0;
    while k < order.len()
        invariant
            k <= order.len(),
            n == children.len(),
            model == child_views(children@),
            plan == indices(order@),
            forall|j: int| 0 <= j < order.len() ==> #[trigger] order[j] < n,
            step_views(steps@) == head + placed_steps(vertical, model, plan, k as nat),
        decreases order.len() - k,
    {
        assert(plan[k as int] == order[k as int]);
        format_inherit_child(&mut steps, vertical, &children[order[k]], true);
        proof {
            assert(step_views(steps@) =~= head + placed_steps(
                vertical,
                model,
                plan,
                (k + 1) as nat,
            ));
        }
        k = k + 1;
    }
    format_inherit_child(&mut steps, vertical, &children[n - 1], false);
    if vertical {
        push_step(&mut steps, Step::Dedent);
    }
    proof {
        assert(model.last() == children[n - 1]@);
        assert(step_views(steps@) =~= ordered_steps(build_ctx.vertical, model, plan));
    }
    steps
}

/// The steps of a named-bindings import: `keyword [from-clause] name… ;`.
///
/// The names are put in natural order unless the from-clause or a name
/// carries trivia. Without trivia on any child and without a forcing
/// context, the construct goes on one line; else every child goes on a
/// padded line of its own, one level in.
pub fn rule<'a>(build_ctx: &BuildCtx, node: &'a SyntaxElement) -> (steps: Vec<Step<'a>>)
    requires
        inherit_ready(node.logical_children()),
    ensures
        step_views(steps@) == inherit_steps(build_ctx.vertical, node.logical_children()),
{
    let children = extract(node);
    let order = emission_order_of(&children);
    proof {
        let plan = emission_order(child_views(children@));
        lemma_emission_order_covers_middle(child_views(children@));
        assert forall|k: int| 0 <= k < order.len() implies #[trigger] order[k] < children.len() by {
            assert(plan[k] == order[k]);
        }
    }
    arrange(build_ctx, &children, &order)
}

} // verus!
