use crate::builder::StepView;
use crate::children::{blank_runs_apart, ChildView, TriviaView};
use crate::ordering::{
    arranged, lemma_natural_permutation_is_arrangement, lemma_sorting_is_idempotent,
    natural_permutation,
};
use crate::rules::inherit::{
    bare, body_steps, carries_trivia, carries_trivia_within, child_steps, closing_steps,
    emission_order, has_from_clause, inherit_shape, inherit_steps, is_from_clause, is_vertical,
    keeps_source_order, keyword_lead_steps, keyword_tail_steps, keyword_trivia_entry_steps,
    keyword_trivia_steps, lead_steps,
    lemma_emission_order_covers_middle, lemma_keyword_trivia_steps_bare, lemma_trivia_steps_bare,
    name_keys, names_count, names_order, names_start, opening_steps, placed_steps,
    starts_with_comment, trivia_entry_steps, trivia_steps,
};
use vstd::prelude::*;

verus! {

/// In a horizontal layout the steps of the children at `n` indices are `n`
/// pairs of a single space and the child's element.
pub proof fn lemma_placed_steps_on_one_line(children: Seq<ChildView>, order: Seq<int>, n: nat)
    requires
        n <= order.len(),
    ensures
        placed_steps(false, children, order, n).len() == 2 * n,
        forall|j: int|
            #![trigger order[j]]
            0 <= j < n ==> {
                &&& placed_steps(false, children, order, n)[2 * j] == StepView::SingleSpace
                &&& placed_steps(false, children, order, n)[2 * j + 1] == StepView::Format(
                    children[order[j]].element,
                )
            },
    decreases n,
{
    if n > 0 {
        lemma_placed_steps_on_one_line(children, order, (n - 1) as nat);
        let before = placed_steps(false, children, order, (n - 1) as nat);
        let after = placed_steps(false, children, order, n);
        assert forall|j: int| #![trigger order[j]] 0 <= j < n implies {
            &&& after[2 * j] == StepView::SingleSpace
            &&& after[2 * j + 1] == StepView::Format(children[order[j]].element)
        } by {
            if j < n - 1 {
                assert(after[2 * j] == before[2 * j]);
                assert(after[2 * j + 1] == before[2 * j + 1]);
            }
        }
    }
}

/// Layout, first half: a construct none of whose children carries trivia goes
/// on one line where the context does not force otherwise. Its steps are the
/// keyword, then a single space and the element for the from-clause and each
/// name in emission order, then the terminator, and no other step.
pub proof fn lemma_plain_construct_is_one_line(children: Seq<ChildView>)
    requires
        inherit_shape(children),
        !carries_trivia_within(children, 0, children.len() as int),
    ensures
        !is_vertical(false, children),
        inherit_steps(false, children).len() == 2 * children.len() - 2,
        inherit_steps(false, children)[0] == StepView::Format(children[0].element),
        inherit_steps(false, children).last() == StepView::Format(children.last().element),
        forall|j: int|
            #![trigger emission_order(children)[j]]
            0 <= j < children.len() - 2 ==> {
                &&& inherit_steps(false, children)[1 + 2 * j] == StepView::SingleSpace
                &&& inherit_steps(false, children)[2 + 2 * j] == StepView::Format(
                    children[emission_order(children)[j]].element,
                )
            },
{
    let steps = inherit_steps(false, children);
    let order = emission_order(children);
    let placed = placed_steps(false, children, order, order.len());
    lemma_emission_order_covers_middle(children);
    lemma_placed_steps_on_one_line(children, order, order.len());
    assert(!carries_trivia(children[0]));
    assert(keyword_tail_steps(false, children[0]) =~= Seq::<StepView>::empty());
    assert(steps =~= seq![StepView::Format(children[0].element)] + placed + seq![
        StepView::Format(children.last().element),
    ]);
    assert forall|j: int| #![trigger order[j]] 0 <= j < children.len() - 2 implies {
        &&& steps[1 + 2 * j] == StepView::SingleSpace
        &&& steps[2 + 2 * j] == StepView::Format(children[order[j]].element)
    } by {
        assert(steps[1 + 2 * j] == placed[2 * j]);
        assert(steps[2 + 2 * j] == placed[2 * j + 1]);
    }
}

/// Behind the first step, no element is rendered but with a multi-line layout
/// forced and at the start of a padded line.
pub open spec fn on_padded_lines(steps: Seq<StepView>) -> bool {
    forall|i: int|
        1 <= i < steps.len() ==> {
            &&& !((#[trigger] steps[i]) is Format)
            &&& steps[i] is FormatWide ==> steps[i - 1] is Pad
        }
}

/// The keyword's trivia adds nothing, or steps that end with the padding of
/// the next line.
proof fn lemma_keyword_trivia_steps_end_padded(trivia: Seq<TriviaView>, n: nat)
    ensures
        keyword_trivia_steps(trivia, n).len() == 0 || keyword_trivia_steps(trivia, n).last()
            is Pad,
    decreases n,
{
    if !(n == 0 || n > trivia.len()) {
        lemma_keyword_trivia_steps_end_padded(trivia, (n - 1) as nat);
    }
}

/// In a vertical layout, what follows the keyword asks for no element and
/// ends with the padding of the first child's line.
proof fn lemma_keyword_tail_ends_padded(keyword: ChildView)
    ensures
        bare(keyword_tail_steps(true, keyword)),
        keyword_tail_steps(true, keyword).len() > 0,
        keyword_tail_steps(true, keyword).last() is Pad,
{
    lemma_keyword_trivia_steps_bare(keyword.trivia, keyword.trivia.len());
    lemma_keyword_trivia_steps_end_padded(keyword.trivia, keyword.trivia.len());
}

/// In a vertical layout, the steps of a child that is not the last begin with
/// its element, ask for no other, and end with the padding of the next line.
proof fn lemma_child_steps_end_padded(child: ChildView)
    ensures
        child_steps(true, child, true).len() >= 2,
        child_steps(true, child, true)[0] == StepView::FormatWide(child.element),
        forall|i: int|
            1 <= i < child_steps(true, child, true).len() ==> (#[trigger] child_steps(
                true,
                child,
                true,
            )[i]).element() is None,
        child_steps(true, child, true).last() is Pad,
{
    let steps = child_steps(true, child, true);
    let lead = lead_steps(child, true);
    let rest = trivia_steps(child.trivia, child.trivia.len(), true);
    lemma_trivia_steps_bare(child.trivia, child.trivia.len(), true);
    assert forall|i: int| 1 <= i < steps.len() implies (#[trigger] steps[i]).element() is None by {
        if i >= 1 + lead.len() {
            assert(steps[i] == rest[i - 1 - lead.len()]);
        }
    }
    if child.trivia.len() == 0 {
        assert(rest =~= Seq::<StepView>::empty());
        assert(steps.last() == lead.last());
    } else {
        assert(rest.len() > 0 && rest.last() is Pad);
        assert(steps.last() == rest.last());
    }
}

/// In a vertical layout, behind steps that end with padding, every placed
/// child begins a padded line and leaves the padding of the next.
proof fn lemma_placed_steps_on_padded_lines(
    before: Seq<StepView>,
    children: Seq<ChildView>,
    order: Seq<int>,
    n: nat,
)
    requires
        n <= order.len(),
        before.len() > 0,
        before.last() is Pad,
        on_padded_lines(before),
    ensures
        on_padded_lines(before + placed_steps(true, children, order, n)),
        (before + placed_steps(true, children, order, n)).last() is Pad,
    decreases n,
{
    if n == 0 {
        assert(before + placed_steps(true, children, order, n) =~= before);
    } else {
        lemma_placed_steps_on_padded_lines(before, children, order, (n - 1) as nat);
        let so_far = before + placed_steps(true, children, order, (n - 1) as nat);
        let more = child_steps(true, children[order[n - 1]], true);
        let all = before + placed_steps(true, children, order, n);
        lemma_child_steps_end_padded(children[order[n - 1]]);
        assert(all =~= so_far + more);
        assert forall|i: int| 1 <= i < all.len() implies {
            &&& !((#[trigger] all[i]) is Format)
            &&& all[i] is FormatWide ==> all[i - 1] is Pad
        } by {
            if i < so_far.len() {
                assert(all[i] == so_far[i]);
                assert(all[i - 1] == so_far[i - 1]);
            } else if i == so_far.len() {
                assert(all[i - 1] == so_far.last());
            } else {
                assert(all[i] == more[i - so_far.len()]);
                assert(more[i - so_far.len()].element() is None);
            }
        }
        assert(all.last() == more.last());
    }
}

/// Layout, second half: trivia on any child, or a forcing context, expands
/// the whole construct. The keyword is followed by one level in, the last
/// step is one level out, and the from-clause, every name and the terminator
/// each begin a padded line of their own.
pub proof fn lemma_vertical_construct_is_expanded(forced: bool, children: Seq<ChildView>)
    requires
        inherit_shape(children),
        forced || carries_trivia_within(children, 0, children.len() as int),
    ensures
        is_vertical(forced, children),
        inherit_steps(forced, children)[0] == StepView::Format(children[0].element),
        inherit_steps(forced, children)[1] is Indent,
        inherit_steps(forced, children).last() is Dedent,
        on_padded_lines(inherit_steps(forced, children)),
{
    let steps = inherit_steps(forced, children);
    let order = emission_order(children);
    let opening = opening_steps(true, children[0]);
    let tail = keyword_tail_steps(true, children[0]);
    let placed = placed_steps(true, children, order, order.len());
    let last = child_steps(true, children.last(), false);
    let start = opening + tail;
    lemma_keyword_tail_ends_padded(children[0]);
    assert(start.last() == tail.last());
    assert forall|i: int| 1 <= i < start.len() implies {
        &&& !((#[trigger] start[i]) is Format)
        &&& start[i] is FormatWide ==> start[i - 1] is Pad
    } by {
        if i >= 2 {
            assert(start[i] == tail[i - 2]);
        }
    }
    lemma_placed_steps_on_padded_lines(start, children, order, order.len());
    let middle = start + placed;
    lemma_trivia_steps_bare(children.last().trivia, children.last().trivia.len(), false);
    let end = last + closing_steps(true);
    assert(steps =~= middle + end);
    assert forall|i: int| 1 <= i < steps.len() implies {
        &&& !((#[trigger] steps[i]) is Format)
        &&& steps[i] is FormatWide ==> steps[i - 1] is Pad
    } by {
        if i < middle.len() {
            assert(steps[i] == middle[i]);
            assert(steps[i - 1] == middle[i - 1]);
        } else if i == middle.len() {
            assert(steps[i - 1] == middle.last());
        } else if i < middle.len() + last.len() {
            let at = i - middle.len();
            let lead = lead_steps(children.last(), false);
            let rest = trivia_steps(children.last().trivia, children.last().trivia.len(), false);
            assert(steps[i] == last[at]);
            if at >= 1 + lead.len() {
                assert(last[at] == rest[at - 1 - lead.len()]);
            }
        }
    }
    assert(steps[0] == start[0]);
    assert(steps[1] == start[1]);
}

/// The terminator has nothing behind it to lay out: no inline comment, and
/// no trivia but at most one blank run.
pub open spec fn ends_bare(child: ChildView) -> bool {
    &&& child.inline_comment is None
    &&& child.trivia.len() <= 1
    &&& !starts_with_comment(child.trivia)
}

/// The terminator closes the construct: it is no part of the emission order,
/// so never sorted; its steps are the last before the closing; and where it
/// has no inline comment and no trivia but at most one blank run, its element
/// is its only step, so that nothing follows the element but the closing
/// `Dedent` of a vertical layout: no space, no break, no padding.
pub proof fn lemma_terminator_closes(forced: bool, children: Seq<ChildView>)
    requires
        inherit_shape(children),
    ensures
        forall|j: int|
            0 <= j < emission_order(children).len() ==> #[trigger] emission_order(children)[j]
                != children.len() - 1,
        ({
            let vertical = is_vertical(forced, children);
            let steps = inherit_steps(forced, children);
            let end = child_steps(vertical, children.last(), false) + closing_steps(vertical);
            &&& end.len() <= steps.len()
            &&& steps.subrange(steps.len() - end.len(), steps.len() as int) == end
            &&& steps[steps.len() - end.len()].element() == Some(children.last().element)
            &&& ends_bare(children.last()) ==> {
                &&& child_steps(vertical, children.last(), false).len() == 1
                &&& forall|i: int|
                    steps.len() - end.len() < i < steps.len() ==> (#[trigger] steps[i]) is Dedent
            }
        }),
{
    let vertical = is_vertical(forced, children);
    let steps = inherit_steps(forced, children);
    let order = emission_order(children);
    let last = child_steps(vertical, children.last(), false);
    let end = last + closing_steps(vertical);
    let start = opening_steps(vertical, children[0]) + keyword_tail_steps(vertical, children[0])
        + placed_steps(vertical, children, order, order.len());
    lemma_emission_order_covers_middle(children);
    assert(steps =~= start + end);
    assert(steps.subrange(steps.len() - end.len(), steps.len() as int) =~= end);
    assert(steps[steps.len() - end.len()] == last[0]);
    if ends_bare(children.last()) {
        let trivia = children.last().trivia;
        reveal_with_fuel(trivia_steps, 2);
        assert(lead_steps(children.last(), false) =~= Seq::<StepView>::empty());
        assert(trivia_steps(trivia, trivia.len(), false) =~= Seq::<StepView>::empty());
        assert(last.len() == 1);
        assert forall|i: int| steps.len() - end.len() < i < steps.len() implies (
        #[trigger] steps[i]) is Dedent by {
            assert(steps[i] == end[i - start.len()]);
        }
    }
}

/// The children of a construct in the order in which its steps name them:
/// the keyword, the from-clause and the names in emission order, the
/// terminator.
pub open spec fn emitted_children(children: Seq<ChildView>) -> Seq<ChildView> {
    Seq::new(
        children.len(),
        |i: int|
            if i == 0 || i == children.len() - 1 {
                children[i]
            } else {
                children[emission_order(children)[i - 1]]
            },
    )
}

/// The steps of placed children depend on nothing but the child at each
/// position.
proof fn lemma_placed_steps_by_child(
    vertical: bool,
    a: Seq<ChildView>,
    order_a: Seq<int>,
    b: Seq<ChildView>,
    order_b: Seq<int>,
    n: nat,
)
    requires
        n <= order_a.len(),
        n <= order_b.len(),
        forall|j: int| 0 <= j < n ==> a[#[trigger] order_a[j]] == b[order_b[j]],
    ensures
        placed_steps(vertical, a, order_a, n) == placed_steps(vertical, b, order_b, n),
    decreases n,
{
    if n > 0 {
        lemma_placed_steps_by_child(vertical, a, order_a, b, order_b, (n - 1) as nat);
        assert(a[order_a[n - 1]] == b[order_b[n - 1]]);
    }
}

/// Formatting is stable under its own reordering: a construct whose children
/// stand in the order in which they were emitted gets the same steps again.
/// Sorted names stay where they are.
pub proof fn lemma_emitted_order_is_stable(forced: bool, children: Seq<ChildView>)
    requires
        inherit_shape(children),
    ensures
        inherit_shape(emitted_children(children)),
        emission_order(emitted_children(children)) == Seq::new(
            (children.len() - 2) as nat,
            |j: int| j + 1,
        ),
        inherit_steps(forced, emitted_children(children)) == inherit_steps(forced, children),
{
    let again = emitted_children(children);
    let order = emission_order(children);
    let start = names_start(children);
    let count = names_count(children);
    let keys = name_keys(children);
    let len = children.len() as int;
    lemma_emission_order_covers_middle(children);
    assert(again[0] == children[0]);
    assert(again.last() == children.last());
    assert forall|i: int| 0 <= i < len && is_from_clause(#[trigger] again[i]) implies i == 1 && len
        > 2 by {
        if 0 < i < len - 1 {
            let from = order[i - 1];
            assert(is_from_clause(children[from]));
            assert(from == 1);
            assert(has_from_clause(children));
            assert(order[0] == 1);
            if i != 1 {
                assert(order[0] != order[i - 1]);
            }
        } else {
            assert(is_from_clause(children[i]));
        }
    }
    if len > 2 {
        if has_from_clause(children) {
            assert(order[0] == 1);
            assert(again[1] == children[1]);
        } else {
            assert(again[1] == children[order[0]]);
            if is_from_clause(again[1]) {
                assert(order[0] == 1);
            }
        }
    }
    assert(has_from_clause(again) == has_from_clause(children));
    assert(names_start(again) == start);
    assert(names_count(again) == count);
    if keeps_source_order(children) {
        assert forall|i: int| 0 <= i < len implies again[i] == children[i] by {
            if 0 < i < len - 1 {
                assert(order[i - 1] == i);
            }
        }
        assert(again =~= children);
    } else {
        let sorted = natural_permutation(keys, count);
        lemma_natural_permutation_is_arrangement(keys, count);
        assert forall|i: int| 1 <= i < len - 1 implies !carries_trivia(#[trigger] again[i]) by {
            let from = order[i - 1];
            assert(1 <= from < len - 1);
            assert(!carries_trivia(children[from]));
        }
        assert(!keeps_source_order(again));
        assert(carries_trivia_within(again, 0, len) == carries_trivia_within(children, 0, len)) by {
            if carries_trivia_within(children, 0, len) {
                let i = choose|i: int|
                    0 <= i < len && 0 <= i < children.len() && carries_trivia(
                        #[trigger] children[i],
                    );
                if 0 < i < len - 1 {
                    assert(carries_trivia_within(children, 1, len - 1));
                }
                assert(carries_trivia(again[i]));
            }
            if carries_trivia_within(again, 0, len) {
                let i = choose|i: int|
                    0 <= i < len && 0 <= i < again.len() && carries_trivia(#[trigger] again[i]);
                assert(!(0 < i < len - 1));
                assert(carries_trivia(children[i]));
            }
        }
        assert(name_keys(again) =~= arranged(keys, sorted)) by {
            assert forall|k: int| 0 <= k < count implies name_keys(again)[k] == arranged(
                keys,
                sorted,
            )[k] by {
                assert(order[start - 1 + k] == start + sorted[k]);
                assert(again[start + k] == children[order[start + k - 1]]);
                assert(keys[sorted[k]] == children[start + sorted[k]].element.text());
            }
        }
        assert(keys.len() == count);
        lemma_sorting_is_idempotent(keys);
        assert(names_order(again) =~= Seq::new(count, |k: int| k));
        let order_again = emission_order(again);
        assert(order_again =~= Seq::new((len - 2) as nat, |j: int| j + 1));
        assert forall|j: int| 0 <= j < len - 2 implies again[#[trigger] order_again[j]]
            == children[order[j]] by {
            assert(order_again[j] == j + 1);
        }
        let vertical = is_vertical(forced, children);
        assert(is_vertical(forced, again) == vertical);
        lemma_placed_steps_by_child(
            vertical,
            again,
            order_again,
            children,
            order,
            (len - 2) as nat,
        );
        assert(body_steps(vertical, again) == body_steps(vertical, children));
    }
    if keeps_source_order(children) {
        assert forall|j: int| 0 <= j < len - 2 implies order[j] == j + 1 by {}
        assert(order =~= Seq::new((len - 2) as nat, |j: int| j + 1));
    }
}

/// Every `Pad` in the steps directly follows a `NewLine`.
pub open spec fn pads_follow_breaks(steps: Seq<StepView>) -> bool {
    forall|i: int|
        0 <= i < steps.len() && (#[trigger] steps[i]) is Pad ==> i > 0 && steps[i - 1] is NewLine
}

/// Joining two runs of steps in which padding follows breaks gives such a
/// run again.
proof fn lemma_joined_pads_follow_breaks(a: Seq<StepView>, b: Seq<StepView>)
    requires
        pads_follow_breaks(a),
        pads_follow_breaks(b),
    ensures
        pads_follow_breaks(a + b),
{
    let joined = a + b;
    assert forall|i: int| 0 <= i < joined.len() && (#[trigger] joined[i]) is Pad implies i > 0
        && joined[i - 1] is NewLine by {
        if i < a.len() {
            assert(joined[i] == a[i]);
            assert(joined[i - 1] == a[i - 1]);
        } else {
            assert(joined[i] == b[i - a.len()]);
            assert(i - a.len() > 0);
            assert(joined[i - 1] == b[i - a.len() - 1]);
        }
    }
}

/// In what a child's trivia adds, padding follows breaks.
proof fn lemma_trivia_pads_follow_breaks(trivia: Seq<TriviaView>, n: nat, not_last: bool)
    ensures
        pads_follow_breaks(trivia_steps(trivia, n, not_last)),
    decreases n,
{
    if !(n == 0 || n > trivia.len()) {
        lemma_trivia_pads_follow_breaks(trivia, (n - 1) as nat, not_last);
        lemma_joined_pads_follow_breaks(
            trivia_steps(trivia, (n - 1) as nat, not_last),
            trivia_entry_steps(trivia, n - 1, not_last),
        );
    }
}

/// In what the keyword's trivia adds, padding follows breaks.
proof fn lemma_keyword_trivia_pads_follow_breaks(trivia: Seq<TriviaView>, n: nat)
    ensures
        pads_follow_breaks(keyword_trivia_steps(trivia, n)),
    decreases n,
{
    if !(n == 0 || n > trivia.len()) {
        let before = keyword_trivia_steps(trivia, (n - 1) as nat);
        let more = keyword_trivia_entry_steps(trivia[n - 1]);
        lemma_keyword_trivia_pads_follow_breaks(trivia, (n - 1) as nat);
        lemma_joined_pads_follow_breaks(before, more);
    }
}

/// In the steps of one child, padding follows breaks.
proof fn lemma_child_pads_follow_breaks(vertical: bool, child: ChildView, not_last: bool)
    ensures
        pads_follow_breaks(child_steps(vertical, child, not_last)),
{
    if vertical {
        let head = seq![StepView::FormatWide(child.element)] + lead_steps(child, not_last);
        lemma_trivia_pads_follow_breaks(child.trivia, child.trivia.len(), not_last);
        lemma_joined_pads_follow_breaks(
            head,
            trivia_steps(child.trivia, child.trivia.len(), not_last),
        );
    }
}

/// In the steps of placed children, padding follows breaks.
proof fn lemma_placed_pads_follow_breaks(
    vertical: bool,
    children: Seq<ChildView>,
    order: Seq<int>,
    n: nat,
)
    ensures
        pads_follow_breaks(placed_steps(vertical, children, order, n)),
    decreases n,
{
    if !(n == 0 || n > order.len()) {
        lemma_placed_pads_follow_breaks(vertical, children, order, (n - 1) as nat);
        lemma_child_pads_follow_breaks(vertical, children[order[n - 1]], true);
        lemma_joined_pads_follow_breaks(
            placed_steps(vertical, children, order, (n - 1) as nat),
            child_steps(vertical, children[order[n - 1]], true),
        );
    }
}

/// Padding only ever follows a line break: in the steps of the construct,
/// every `Pad` stands directly behind a `NewLine`.
pub proof fn lemma_inherit_pads_follow_breaks(forced: bool, children: Seq<ChildView>)
    ensures
        pads_follow_breaks(inherit_steps(forced, children)),
{
    let vertical = is_vertical(forced, children);
    let order = emission_order(children);
    let keyword = children[0];
    let lead = keyword_lead_steps(vertical, keyword);
    let opening = opening_steps(vertical, keyword);
    let tail = keyword_tail_steps(vertical, keyword);
    let placed = placed_steps(vertical, children, order, order.len());
    let last = child_steps(vertical, children.last(), false);
    lemma_keyword_trivia_pads_follow_breaks(keyword.trivia, keyword.trivia.len());
    lemma_joined_pads_follow_breaks(
        lead,
        keyword_trivia_steps(keyword.trivia, keyword.trivia.len()),
    );
    lemma_placed_pads_follow_breaks(vertical, children, order, order.len());
    lemma_child_pads_follow_breaks(vertical, children.last(), false);
    lemma_joined_pads_follow_breaks(tail, placed);
    lemma_joined_pads_follow_breaks(tail + placed, last);
    lemma_joined_pads_follow_breaks(opening, body_steps(vertical, children));
    lemma_joined_pads_follow_breaks(
        opening + body_steps(vertical, children),
        closing_steps(vertical),
    );
}

/// The line break at index `i` ends a line that holds something: it stands
/// directly behind an element, a comment or the step one level in; or it is
/// the one break more behind a line that a comment ends.
pub open spec fn ends_full_line(steps: Seq<StepView>, i: int) -> bool {
    i > 0 && {
        ||| steps[i - 1] is Comment
        ||| steps[i - 1].element() is Some
        ||| steps[i - 1] is Indent
        ||| steps[i - 1] is NewLine && i > 1 && steps[i - 2] is Comment
    }
}

/// Every line break ends a line that holds something, or is the one break
/// more behind a comment: at most one blank line in a row, and only behind a
/// comment.
pub open spec fn breaks_are_spare(steps: Seq<StepView>) -> bool {
    forall|i: int|
        0 <= i < steps.len() && (#[trigger] steps[i]) is NewLine ==> ends_full_line(steps, i)
}

/// A blank run can follow the steps: they end with an element or a comment,
/// or with the break behind a comment.
pub open spec fn takes_blank_run(steps: Seq<StepView>) -> bool {
    steps.len() > 0 && {
        ||| steps.last() is Comment
        ||| steps.last().element() is Some
        ||| steps.last() is NewLine && steps.len() > 1 && steps[steps.len() - 2] is Comment
    }
}

/// Joining two runs of steps with spare breaks gives such a run again.
proof fn lemma_joined_breaks_are_spare(a: Seq<StepView>, b: Seq<StepView>)
    requires
        breaks_are_spare(a),
        breaks_are_spare(b),
    ensures
        breaks_are_spare(a + b),
{
    let joined = a + b;
    assert forall|i: int| 0 <= i < joined.len() && (#[trigger] joined[i]) is NewLine implies ends_full_line(
        joined,
        i,
    ) by {
        if i < a.len() {
            assert(joined[i] == a[i]);
            assert(ends_full_line(a, i));
            assert(joined[i - 1] == a[i - 1]);
            if i > 1 {
                assert(joined[i - 2] == a[i - 2]);
            }
        } else {
            let at = i - a.len();
            assert(joined[i] == b[at]);
            assert(ends_full_line(b, at));
            assert(joined[i - 1] == b[at - 1]);
            if at > 1 {
                assert(joined[i - 2] == b[at - 2]);
            } else {
                assert(!(b[0] is NewLine));
            }
        }
    }
}

/// What the keyword's trivia adds has spare breaks.
proof fn lemma_keyword_trivia_breaks_are_spare(trivia: Seq<TriviaView>, n: nat)
    ensures
        breaks_are_spare(keyword_trivia_steps(trivia, n)),
    decreases n,
{
    if !(n == 0 || n > trivia.len()) {
        let before = keyword_trivia_steps(trivia, (n - 1) as nat);
        let more = keyword_trivia_entry_steps(trivia[n - 1]);
        lemma_keyword_trivia_breaks_are_spare(trivia, (n - 1) as nat);
        lemma_joined_breaks_are_spare(before, more);
    }
}

/// Behind steps with spare breaks that can take a blank run where the trivia
/// begins with one, the trivia of a child adds spare breaks only, as long as
/// no two blank runs follow each other.
proof fn lemma_trivia_breaks_are_spare(
    head: Seq<StepView>,
    trivia: Seq<TriviaView>,
    n: nat,
    not_last: bool,
)
    requires
        n <= trivia.len(),
        blank_runs_apart(trivia),
        breaks_are_spare(head),
        trivia.len() > 0 && trivia[0] is BlankRun ==> takes_blank_run(head),
    ensures
        breaks_are_spare(head + trivia_steps(trivia, n, not_last)),
        n < trivia.len() && trivia[n as int] is BlankRun ==> takes_blank_run(
            head + trivia_steps(trivia, n, not_last),
        ),
    decreases n,
{
    let all = head + trivia_steps(trivia, n, not_last);
    if n == 0 {
        assert(all =~= head);
    } else {
        let so_far = head + trivia_steps(trivia, (n - 1) as nat, not_last);
        let more = trivia_entry_steps(trivia, n - 1, not_last);
        lemma_trivia_breaks_are_spare(head, trivia, (n - 1) as nat, not_last);
        assert(all =~= so_far + more);
        if trivia[n - 1] is BlankRun {
            assert forall|i: int| 0 <= i < all.len() && (#[trigger] all[i]) is NewLine implies ends_full_line(
                all,
                i,
            ) by {
                if i < so_far.len() {
                    assert(all[i] == so_far[i]);
                    assert(ends_full_line(so_far, i));
                    assert(all[i - 1] == so_far[i - 1]);
                    if i > 1 {
                        assert(all[i - 2] == so_far[i - 2]);
                    }
                } else {
                    assert(i == so_far.len());
                    assert(all[i - 1] == so_far.last());
                    if so_far.len() > 1 {
                        assert(all[i - 2] == so_far[so_far.len() - 2]);
                    }
                }
            }
            if n < trivia.len() {
                assert(!(trivia[n as int] is BlankRun));
            }
        } else {
            lemma_joined_breaks_are_spare(so_far, more);
            if n < trivia.len() && trivia[n as int] is BlankRun {
                assert(all.last() == more.last());
            }
        }
    }
}

/// The steps of one child have spare breaks, as long as no two blank runs
/// follow each other in its trivia.
proof fn lemma_child_breaks_are_spare(vertical: bool, child: ChildView, not_last: bool)
    requires
        blank_runs_apart(child.trivia),
    ensures
        breaks_are_spare(child_steps(vertical, child, not_last)),
{
    if vertical {
        let head = seq![StepView::FormatWide(child.element)] + lead_steps(child, not_last);
        lemma_trivia_breaks_are_spare(head, child.trivia, child.trivia.len(), not_last);
    }
}

/// The steps of placed children have spare breaks, as long as no two blank
/// runs follow each other in the trivia of any.
proof fn lemma_placed_breaks_are_spare(
    vertical: bool,
    children: Seq<ChildView>,
    order: Seq<int>,
    n: nat,
)
    requires
        forall|j: int| 0 <= j < order.len() ==> 0 <= #[trigger] order[j] < children.len(),
        forall|k: int| 0 <= k < children.len() ==> blank_runs_apart((#[trigger] children[k]).trivia),
    ensures
        breaks_are_spare(placed_steps(vertical, children, order, n)),
    decreases n,
{
    if !(n == 0 || n > order.len()) {
        lemma_placed_breaks_are_spare(vertical, children, order, (n - 1) as nat);
        assert(blank_runs_apart(children[order[n - 1]].trivia));
        lemma_child_breaks_are_spare(vertical, children[order[n - 1]], true);
        lemma_joined_breaks_are_spare(
            placed_steps(vertical, children, order, (n - 1) as nat),
            child_steps(vertical, children[order[n - 1]], true),
        );
    }
}

/// Never two blank lines in a row: where no two blank runs follow each other
/// in the trivia of any child, every line break in the steps of the construct
/// ends a line that holds something, or is the one break more behind a
/// comment. So no break follows two breaks, and none follows a break and its
/// padding.
pub proof fn lemma_inherit_breaks_are_spare(forced: bool, children: Seq<ChildView>)
    requires
        children.len() >= 2,
        forall|k: int| 0 <= k < children.len() ==> blank_runs_apart((#[trigger] children[k]).trivia),
    ensures
        breaks_are_spare(inherit_steps(forced, children)),
        forall|i: int|
            0 <= i && i + 2 < inherit_steps(forced, children).len() && inherit_steps(
                forced,
                children,
            )[i] is NewLine && (#[trigger] inherit_steps(forced, children)[i + 2]) is NewLine ==> {
                &&& !(inherit_steps(forced, children)[i + 1] is NewLine)
                &&& !(inherit_steps(forced, children)[i + 1] is Pad)
            },
{
    let vertical = is_vertical(forced, children);
    let steps = inherit_steps(forced, children);
    let order = emission_order(children);
    let keyword = children[0];
    let lead = keyword_lead_steps(vertical, keyword);
    let start = opening_steps(vertical, keyword) + lead;
    let more = keyword_trivia_steps(keyword.trivia, keyword.trivia.len());
    let placed = placed_steps(vertical, children, order, order.len());
    let last = child_steps(vertical, children.last(), false);
    let closing = closing_steps(vertical);
    lemma_emission_order_covers_middle(children);
    assert(breaks_are_spare(start));
    lemma_keyword_trivia_breaks_are_spare(keyword.trivia, keyword.trivia.len());
    lemma_joined_breaks_are_spare(start, more);
    lemma_placed_breaks_are_spare(vertical, children, order, order.len());
    lemma_joined_breaks_are_spare(start + more, placed);
    assert(blank_runs_apart(children[children.len() - 1].trivia));
    lemma_child_breaks_are_spare(vertical, children.last(), false);
    lemma_joined_breaks_are_spare(start + more + placed, last);
    lemma_joined_breaks_are_spare(start + more + placed + last, closing);
    assert(steps =~= start + more + placed + last + closing);
    assert forall|i: int|
        0 <= i && i + 2 < steps.len() && steps[i] is NewLine && (#[trigger] steps[i + 2])
            is NewLine implies {
        &&& !(steps[i + 1] is NewLine)
        &&& !(steps[i + 1] is Pad)
    } by {
        assert(ends_full_line(steps, i + 2));
    }
}

} // verus!
