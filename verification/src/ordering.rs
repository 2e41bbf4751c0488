use vstd::prelude::*;
use vstd::string::*;

verus! {

/// How the natural-order comparator ranks its first text against its second.
#[derive(Clone, Copy, Debug, PartialEq, Eq, Structural)]
pub enum Rank {
    Before,
    Same,
    After,
}

/// The greatest number that a run of decimal digits in a text may spell for
/// the text to be ranked: the greatest that 32 bits hold.
pub const MAX_RUN_VALUE: u64 = 4294967295;

/// The answer of `human_sort::compare` for the texts `a` and `b`.
pub uninterp spec fn natural_order(a: Seq<char>, b: Seq<char>) -> Rank;

/// The decimal digits `0` to `9`.
pub open spec fn is_digit(c: char) -> bool {
    '0' <= c && c <= '9'
}

/// The number that a decimal digit stands for.
pub open spec fn digit_value(c: char) -> nat {
    (c as u32 - 48) as nat
}

/// The number that the run of decimal digits at the end of `text` spells; 0
/// where `text` does not end with a digit.
pub open spec fn run_value(text: Seq<char>) -> nat
    decreases text.len(),
{
    if text.len() > 0 && is_digit(text.last()) {
        run_value(text.drop_last()) * 10 + digit_value(text.last())
    } else {
        0
    }
}

/// A text can be ranked when none of its runs of decimal digits spells more
/// than `MAX_RUN_VALUE`: the comparator adds a run up, digit by digit, in 32
/// bits, from wherever in the run two texts first differ.
pub open spec fn orderable(text: Seq<char>) -> bool {
    forall|n: int| 0 <= n <= text.len() ==> run_value(#[trigger] text.take(n)) <= MAX_RUN_VALUE
}

/// Two answers of the comparator, one for each way round, put the first text
/// before the second: it is ranked before the second, and the second is not
/// ranked before it as well.
pub open spec fn ranked_before(forward: Rank, backward: Rank) -> bool {
    forward is Before && !(backward is Before)
}

/// `a` comes before `b` in natural order. Asking the comparator both ways
/// makes the relation asymmetric whatever it answers.
pub open spec fn precedes(a: Seq<char>, b: Seq<char>) -> bool {
    ranked_before(natural_order(a, b), natural_order(b, a))
}

/// Whether a table of precedence puts entry `i` before entry `j`. What lies
/// outside the table comes before nothing.
pub open spec fn puts_before(table: Seq<Seq<bool>>, i: int, j: int) -> bool {
    0 <= i < table.len() && 0 <= j < table[i].len() && table[i][j]
}

/// The order `order` with the index `i` entered from the right: `i` moves left
/// past every index that the table puts it before, and stops at the first
/// that it does not.
pub open spec fn insert_by_table(table: Seq<Seq<bool>>, order: Seq<int>, i: int) -> Seq<int>
    decreases order.len(),
{
    if order.len() > 0 && puts_before(table, i, order.last()) {
        insert_by_table(table, order.drop_last(), i).push(order.last())
    } else {
        order.push(i)
    }
}

/// The indices `0, 1, …, n - 1` in the order that the table induces: each
/// entered in turn; indices of which the table puts neither before the other
/// keep their relative position.
pub open spec fn table_order(table: Seq<Seq<bool>>, n: nat) -> Seq<int>
    decreases n,
{
    if n == 0 {
        Seq::empty()
    } else {
        insert_by_table(table, table_order(table, (n - 1) as nat), n - 1)
    }
}

/// The table of precedence of the keys: entry `i`, `j` says whether key `i`
/// comes before key `j` in natural order.
pub open spec fn precedence(keys: Seq<Seq<char>>) -> Seq<Seq<bool>> {
    Seq::new(keys.len(), |i: int| Seq::new(keys.len(), |j: int| precedes(keys[i], keys[j])))
}

/// The indices of the first `n` keys in natural order.
pub open spec fn natural_permutation(keys: Seq<Seq<char>>, n: nat) -> Seq<int> {
    table_order(precedence(keys), n)
}

/// The indices `0, 1, …, n - 1`.
pub open spec fn identity_order(n: nat) -> Seq<int> {
    Seq::new(n, |k: int| k)
}

/// `order` holds each of the indices `0, 1, …, n - 1` exactly once.
pub open spec fn is_arrangement(order: Seq<int>, n: nat) -> bool {
    &&& order.len() == n
    &&& forall|k: int| 0 <= k < order.len() ==> 0 <= #[trigger] order[k] < n
    &&& forall|k: int, l: int|
        0 <= k < l < order.len() ==> #[trigger] order[k] != #[trigger] order[l]
}

/// The table never puts two entries before each other.
pub open spec fn asymmetric(table: Seq<Seq<bool>>) -> bool {
    forall|i: int, j: int| !(#[trigger] puts_before(table, i, j) && puts_before(table, j, i))
}

/// Along `order`, the table puts no index before the index just before it.
pub open spec fn ranked(table: Seq<Seq<bool>>, order: Seq<int>) -> bool {
    forall|k: int, l: int|
        0 <= k && l == k + 1 && l < order.len() ==> !puts_before(
            table,
            #[trigger] order[l],
            #[trigger] order[k],
        )
}

/// Along `order`, no key comes before the key just before it.
pub open spec fn in_natural_order(keys: Seq<Seq<char>>, order: Seq<int>) -> bool {
    forall|k: int, l: int|
        0 <= k && l == k + 1 && l < order.len() ==> !precedes(
            keys[#[trigger] order[l]],
            keys[#[trigger] order[k]],
        )
}

/// The keys taken in the given order.
pub open spec fn arranged(keys: Seq<Seq<char>>, order: Seq<int>) -> Seq<Seq<char>> {
    Seq::new(order.len(), |k: int| keys[order[k]])
}

/// The views of a sequence of strings.
pub open spec fn views(keys: Seq<String>) -> Seq<Seq<char>> {
    Seq::new(keys.len(), |k: int| keys[k]@)
}

/// The rows of a table as sequences.
pub open spec fn rows(table: Seq<Vec<bool>>) -> Seq<Seq<bool>> {
    Seq::new(table.len(), |i: int| table[i]@)
}

/// A sequence of machine indices as mathematical integers.
pub open spec fn indices(order: Seq<usize>) -> Seq<int> {
    Seq::new(order.len(), |k: int| order[k] as int)
}

/// No text comes before itself, and of two texts at most one comes before the
/// other.
pub proof fn lemma_precedes_is_asymmetric(a: Seq<char>, b: Seq<char>)
    ensures
        !precedes(a, a),
        !(precedes(a, b) && precedes(b, a)),
{
}

/// The table of precedence of any keys is asymmetric.
pub proof fn lemma_precedence_is_asymmetric(keys: Seq<Seq<char>>)
    ensures
        asymmetric(precedence(keys)),
{
}

/// Where `insert_by_table` puts the index `i`: at the position `j` such that
/// the table puts `i` before every index from `j` on and not before the one
/// before.
pub proof fn lemma_insert_position(table: Seq<Seq<bool>>, order: Seq<int>, i: int) -> (j: int)
    ensures
        0 <= j <= order.len(),
        insert_by_table(table, order, i) == order.insert(j, i),
        forall|k: int| j <= k < order.len() ==> puts_before(table, i, #[trigger] order[k]),
        j > 0 ==> !puts_before(table, i, order[j - 1]),
    decreases order.len(),
{
    if order.len() > 0 && puts_before(table, i, order.last()) {
        let j = lemma_insert_position(table, order.drop_last(), i);
        assert(order.drop_last().insert(j, i).push(order.last()) =~= order.insert(j, i));
        assert forall|k: int| j <= k < order.len() implies puts_before(
            table,
            i,
            #[trigger] order[k],
        ) by {
            if k < order.len() - 1 {
                assert(order[k] == order.drop_last()[k]);
            }
        }
        if j > 0 {
            assert(order[j - 1] == order.drop_last()[j - 1]);
        }
        j
    } else {
        assert(order.push(i) =~= order.insert(order.len() as int, i));
        order.len() as int
    }
}

/// An index that the table puts before everything from position `j` on, and
/// not before what stands before `j`, is entered at `j`.
pub proof fn lemma_insert_at(table: Seq<Seq<bool>>, order: Seq<int>, i: int, j: int)
    requires
        0 <= j <= order.len(),
        forall|k: int| j <= k < order.len() ==> puts_before(table, i, #[trigger] order[k]),
        j > 0 ==> !puts_before(table, i, order[j - 1]),
    ensures
        insert_by_table(table, order, i) == order.insert(j, i),
    decreases order.len(),
{
    if j == order.len() {
        assert(order.push(i) =~= order.insert(j, i));
    } else {
        assert(puts_before(table, i, order[order.len() - 1]));
        lemma_insert_at(table, order.drop_last(), i, j);
        assert(order.drop_last().insert(j, i).push(order.last()) =~= order.insert(j, i));
    }
}

/// Ordering neither drops nor repeats an index, whatever the table says.
pub proof fn lemma_table_order_is_arrangement(table: Seq<Seq<bool>>, n: nat)
    ensures
        is_arrangement(table_order(table, n), n),
    decreases n,
{
    if n > 0 {
        let before = table_order(table, (n - 1) as nat);
        lemma_table_order_is_arrangement(table, (n - 1) as nat);
        let j = lemma_insert_position(table, before, n - 1);
        let after = before.insert(j, n - 1);
        assert forall|k: int| 0 <= k < after.len() implies 0 <= #[trigger] after[k] < n by {
            if k < j {
                assert(after[k] == before[k]);
            } else if k > j {
                assert(after[k] == before[k - 1]);
            }
        }
        assert forall|k: int, l: int| 0 <= k < l < after.len() implies #[trigger] after[k]
            != #[trigger] after[l] by {
            let a = if k < j { k } else { k - 1 };
            let b = if l < j { l } else { l - 1 };
            if k != j {
                assert(after[k] == before[a]);
            }
            if l != j {
                assert(after[l] == before[b]);
            }
        }
    }
}

/// Ordering by an asymmetric table puts the indices in order: along the
/// result, the table puts no index before the index just before it.
pub proof fn lemma_table_order_is_ranked(table: Seq<Seq<bool>>, n: nat)
    requires
        asymmetric(table),
    ensures
        ranked(table, table_order(table, n)),
    decreases n,
{
    if n > 0 {
        let before = table_order(table, (n - 1) as nat);
        lemma_table_order_is_ranked(table, (n - 1) as nat);
        let j = lemma_insert_position(table, before, n - 1);
        let after = before.insert(j, n - 1);
        assert forall|k: int, l: int|
            0 <= k && l == k + 1 && l < after.len() implies !puts_before(
            table,
            #[trigger] after[l],
            #[trigger] after[k],
        ) by {
            if l < j {
                assert(after[k] == before[k] && after[l] == before[l]);
            } else if l == j {
                assert(after[k] == before[j - 1]);
            } else if k == j {
                assert(after[l] == before[j]);
                assert(puts_before(table, n - 1, before[j]));
            } else {
                assert(after[k] == before[k - 1] && after[l] == before[l - 1]);
            }
        }
    }
}

/// Ordering what is in order already moves nothing: where the table puts
/// none of the first `n` indices before the index just before it, their
/// order is the order they stand in.
pub proof fn lemma_ordered_table_stays(table: Seq<Seq<bool>>, n: nat)
    requires
        forall|k: int| 0 < k < n ==> !#[trigger] puts_before(table, k, k - 1),
    ensures
        table_order(table, n) == identity_order(n),
    decreases n,
{
    if n > 0 {
        lemma_ordered_table_stays(table, (n - 1) as nat);
        let before = identity_order((n - 1) as nat);
        if n > 1 {
            assert(before.last() == n - 2);
            assert(!puts_before(table, n - 1, n - 1 - 1));
        }
        assert(before.push(n - 1) =~= identity_order(n));
    }
}

/// Sorting neither drops nor repeats a key: the natural order of `n` keys
/// holds each of their indices exactly once.
pub proof fn lemma_natural_permutation_is_arrangement(keys: Seq<Seq<char>>, n: nat)
    ensures
        is_arrangement(natural_permutation(keys, n), n),
{
    lemma_table_order_is_arrangement(precedence(keys), n);
}

/// Sorting puts the keys in order: along the natural order of the first `n`
/// keys, no key comes before the key just before it.
pub proof fn lemma_natural_permutation_is_ranked(keys: Seq<Seq<char>>, n: nat)
    requires
        n <= keys.len(),
    ensures
        in_natural_order(keys, natural_permutation(keys, n)),
{
    let table = precedence(keys);
    let order = natural_permutation(keys, n);
    lemma_table_order_is_arrangement(table, n);
    lemma_table_order_is_ranked(table, n);
    assert forall|k: int, l: int| 0 <= k && l == k + 1 && l < order.len() implies !precedes(
        keys[#[trigger] order[l]],
        keys[#[trigger] order[k]],
    ) by {
        assert(!puts_before(table, order[l], order[k]));
    }
}

/// Sorting keys that are in order already moves nothing: where none of the
/// first `n` keys comes before the key just before it, their natural order is
/// the order they stand in.
pub proof fn lemma_ordered_keys_stay(keys: Seq<Seq<char>>, n: nat)
    requires
        n <= keys.len(),
        forall|k: int| 0 < k < n ==> !precedes(#[trigger] keys[k], keys[k - 1]),
    ensures
        natural_permutation(keys, n) == identity_order(n),
{
    let table = precedence(keys);
    assert forall|k: int| 0 < k < n implies !#[trigger] puts_before(table, k, k - 1) by {
        assert(!precedes(keys[k], keys[k - 1]));
    }
    lemma_ordered_table_stays(table, n);
}

/// Sorting twice is sorting once: the keys taken in their natural order are
/// in natural order as they stand.
pub proof fn lemma_sorting_is_idempotent(keys: Seq<Seq<char>>)
    ensures
        natural_permutation(
            arranged(keys, natural_permutation(keys, keys.len())),
            keys.len(),
        ) == identity_order(keys.len()),
{
    let order = natural_permutation(keys, keys.len());
    lemma_natural_permutation_is_arrangement(keys, keys.len());
    lemma_natural_permutation_is_ranked(keys, keys.len());
    let sorted = arranged(keys, order);
    assert forall|k: int| 0 < k < keys.len() implies !precedes(
        #[trigger] sorted[k],
        sorted[k - 1],
    ) by {
        assert(sorted[k] == keys[order[k]]);
        assert(sorted[k - 1] == keys[order[k - 1]]);
    }
    lemma_ordered_keys_stay(sorted, keys.len());
}

/// Calls `human_sort::compare` and hands its answer on as a `Rank`: `Less` as
/// `Before`, `Equal` as `Same`, `Greater` as `After`. The contract claims only
/// that the answer is the comparator's, for texts none of whose runs of
/// decimal digits spells more than 32 bits hold: the comparator adds up such
/// a run, or the rest of it, in a `u32`, and every such sum stays at or below
/// what the whole run spells.
#[verifier::external_body]
fn rank(a: &str, b: &str) -> (r: Rank)
    requires
        orderable(a@),
        orderable(b@),
    ensures
        r == natural_order(a@, b@),
{
    match human_sort::compare(a, b) {
        std::cmp::Ordering::Less => Rank::Before,
        std::cmp::Ordering::Equal => Rank::Same,
        std::cmp::Ordering::Greater => Rank::After,
    }
}

/// Whether two answers of the comparator, one for each way round, put the
/// first text before the second.
pub fn is_ranked_before(forward: Rank, backward: Rank) -> (b: bool)
    ensures
        b == ranked_before(forward, backward),
{
    match forward {
        Rank::Before => match backward {
            Rank::Before => false,
            _ => true,
        },
        _ => false,
    }
}

/// Whether `a` comes before `b` in natural order.
pub fn comes_before(a: &str, b: &str) -> (r: bool)
    requires
        orderable(a@),
        orderable(b@),
    ensures
        r == precedes(a@, b@),
{
    let forward = rank(a, b);
    let backward = rank(b, a);
    is_ranked_before(forward, backward)
}

/// Whether `text` can be ranked.
pub fn is_orderable(text: &str) -> (b: bool)
    ensures
        b == orderable(text@),
{
    let len = text.unicode_len();
    let mut value: u64 = 0;
    let mut i: usize = 0;
    proof {
        assert(text@.take(0) =~= Seq::<char>::empty());
    }
    while i < len
        invariant
            len == text@.len(),
            i <= len,
            value == run_value(text@.take(i as int)),
            forall|n: int| 0 <= n <= i ==> run_value(#[trigger] text@.take(n)) <= MAX_RUN_VALUE,
        decreases len - i,
    {
        let c = text.get_char(i);
        proof {
            let next = text@.take(i + 1);
            assert(next.last() == c);
            assert(next.drop_last() =~= text@.take(i as int));
        }
        if c >= '0' && c <= '9' {
            let digit: u64 = (c as u32 - 48) as u64;
            value = value * 10 + digit;
        } else {
            value = 0;
        }
        if value > MAX_RUN_VALUE {
            return false;
        }
        i = i + 1;
    }
    true
}

/// The table of precedence of the keys.
pub fn precedence_of(keys: &Vec<String>) -> (table: Vec<Vec<bool>>)
    requires
        forall|k: int| 0 <= k < keys.len() ==> orderable(#[trigger] keys[k]@),
    ensures
        rows(table@) == precedence(views(keys@)),
{
    let ghost texts = views(keys@);
    let n = keys.len();
    let mut table: Vec<Vec<bool>> = Vec::new();
    let mut i: usize = 0;
    while i < n
        invariant
            i <= n,
            n == keys.len(),
            texts == views(keys@),
            table.len() == i,
            forall|k: int| 0 <= k < keys.len() ==> orderable(#[trigger] keys[k]@),
            forall|r: int| 0 <= r < i ==> (#[trigger] table[r])@ == precedence(texts)[r],
        decreases n - i,
    {
        let mut row: Vec<bool> = Vec::new();
        let mut j: usize = 0;
        while j < n
            invariant
                j <= n,
                i < n,
                n == keys.len(),
                texts == views(keys@),
                row.len() == j,
                forall|k: int| 0 <= k < keys.len() ==> orderable(#[trigger] keys[k]@),
                forall|c: int|
                    0 <= c < j ==> #[trigger] row[c] == precedes(texts[i as int], texts[c]),
            decreases n - j,
        {
            let before = i != j && comes_before(keys[i].as_str(), keys[j].as_str());
            row.push(before);
            j = j + 1;
        }
        proof {
            assert(row@ =~= precedence(texts)[i as int]);
        }
        table.push(row);
        i = i + 1;
    }
    proof {
        assert(rows(table@) =~= precedence(texts));
    }
    table
}

/// Whether the table puts entry `i` before entry `j`.
pub fn is_put_before(table: &Vec<Vec<bool>>, i: usize, j: usize) -> (b: bool)
    ensures
        b == puts_before(rows(table@), i as int, j as int),
{
    i < table.len() && j < table[i].len() && table[i][j]
}

/// The indices of the table's entries in the order that the table induces.
pub fn order_by_precedence(table: &Vec<Vec<bool>>) -> (order: Vec<usize>)
    ensures
        indices(order@) == table_order(rows(table@), table.len() as nat),
{
    let ghost model = rows(table@);
    let mut order: Vec<usize> = Vec::new();
    let mut i: usize = 0;
    proof {
        assert(indices(order@) =~= table_order(model, 0));
    }
    while i < table.len()
        invariant
            i <= table.len(),
            model == rows(table@),
            order.len() == i,
            forall|k: int| 0 <= k < order.len() ==> #[trigger] order[k] < i,
            indices(order@) == table_order(model, i as nat),
        decreases table.len() - i,
    {
        let mut j: usize = order.len();
        while j > 0 && is_put_before(table, i, order[j - 1])
            invariant
                j <= order.len(),
                i < table.len(),
                model == rows(table@),
                forall|k: int|
                    j <= k < order.len() ==> puts_before(
                        model,
                        i as int,
                        #[trigger] indices(order@)[k],
                    ),
            decreases j,
        {
            j = j - 1;
        }
        proof {
            let before = indices(order@);
            if j > 0 {
                assert(before[j - 1] == order[j - 1]);
            }
            lemma_insert_at(model, before, i as int, j as int);
            assert(indices(order@.insert(j as int, i)) =~= before.insert(j as int, i as int));
        }
        order.insert(j, i);
        i = i + 1;
    }
    order
}

/// The indices of `keys` in natural order.
pub fn natural_order_of(keys: &Vec<String>) -> (order: Vec<usize>)
    requires
        forall|k: int| 0 <= k < keys.len() ==> orderable(#[trigger] keys[k]@),
    ensures
        indices(order@) == natural_permutation(views(keys@), keys.len() as nat),
{
    let table = precedence_of(keys);
    order_by_precedence(&table)
}

} // verus!
