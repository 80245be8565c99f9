//! The two orders of a list: by name, without regard to case, and by the
//! number in a column, greatest first.

use crate::decimal::{lemma_number_ge_transitive, number_ge, number_of, Decimal, Number};
use crate::listview::{ListItem, ListItemView};
use crate::order::{
    insert_position, lemma_lex_le_total, lemma_lex_le_transitive, lex_le, ranks_sorted,
    text_precedes, Rank,
};
use crate::text::{chars_of, lowercase, to_lowercase};
use vstd::prelude::*;

verus! {

/// The records that the items of a vector stand for.
pub open spec fn views(items: Seq<ListItem>) -> Seq<ListItemView> {
    items.map_values(|item: ListItem| item@)
}

/// The number by which a record is sorted under `column`: what the text
/// there denotes. `None` where the record has no such column or the text is
/// no numeral.
pub open spec fn number_rank(item: ListItemView, column: Seq<char>) -> Option<Number> {
    if item.fields.dom().contains(column) {
        number_of(item.fields[column])
    } else {
        None
    }
}

/// Whether a record with number `a` may stand before one with number `b`:
/// greater numbers first, and records without a number behind all that have
/// one.
pub open spec fn number_before(a: Option<Number>, b: Option<Number>) -> bool {
    match (a, b) {
        (Some(x), Some(y)) => number_ge(x, y),
        (Some(_), None) => true,
        (None, Some(_)) => false,
        (None, None) => true,
    }
}

/// Whether record `a` may stand before record `b`. By name: the lowercase
/// name of `a` is lexicographically at or before that of `b`. Otherwise: by
/// the numbers under `column`, greatest first.
pub open spec fn may_precede(
    by_name: bool,
    column: Seq<char>,
    a: ListItemView,
    b: ListItemView,
) -> bool {
    if by_name {
        lex_le(lowercase(a.name), lowercase(b.name))
    } else {
        number_before(number_rank(a, column), number_rank(b, column))
    }
}

/// Whether every record may stand before all that follow it.
pub open spec fn in_order(items: Seq<ListItemView>, by_name: bool, column: Seq<char>) -> bool {
    forall|i: int, j: int|
        0 <= i < j < items.len() ==> may_precede(by_name, column, #[trigger] items[i], #[trigger] items[j])
}

/// Whether `output` holds the records of `input` in another order, record
/// `k` of it being record `origin[k]` of `input`, such that records of
/// which each may stand before the other are in the order in which they
/// came.
pub open spec fn stably_ordered(
    input: Seq<ListItemView>,
    output: Seq<ListItemView>,
    origin: Seq<int>,
    by_name: bool,
    column: Seq<char>,
) -> bool {
    &&& output.len() == input.len()
    &&& origin.len() == input.len()
    &&& forall|k: int|
        0 <= k < output.len() ==> 0 <= #[trigger] origin[k] < input.len() && output[k]
            == input[origin[k]]
    &&& forall|k: int, l: int|
        0 <= k < l < output.len() ==> #[trigger] origin[k] != #[trigger] origin[l]
    &&& forall|k: int, l: int|
        0 <= k < l < output.len() && may_precede(by_name, column, output[l], output[k])
            ==> #[trigger] origin[k] < #[trigger] origin[l]
}

/// Whether `output` is `input` sorted without changing the order of
/// records that tie.
pub open spec fn keeps_ties(
    input: Seq<ListItemView>,
    output: Seq<ListItemView>,
    by_name: bool,
    column: Seq<char>,
) -> bool {
    exists|origin: Seq<int>| stably_ordered(input, output, origin, by_name, column)
}

/// A record that is put in front of none that may stand before it leaves
/// the ties in order.
proof fn lemma_insert_keeps_ties(
    input: Seq<ListItemView>,
    item: ListItemView,
    output: Seq<ListItemView>,
    origin: Seq<int>,
    position: int,
    by_name: bool,
    column: Seq<char>,
)
    requires
        stably_ordered(input, output, origin, by_name, column),
        0 <= position <= output.len(),
        forall|l: int|
            position <= l < output.len() ==> !may_precede(by_name, column, #[trigger] output[l], item),
    ensures
        stably_ordered(
            input.push(item),
            output.insert(position, item),
            origin.insert(position, input.len() as int),
            by_name,
            column,
        ),
{
    let grown = input.push(item);
    let after = output.insert(position, item);
    let from = origin.insert(position, input.len() as int);
    assert forall|k: int| 0 <= k < after.len() implies 0 <= #[trigger] from[k] < grown.len()
        && after[k] == grown[from[k]] by {
        if k < position {
            assert(from[k] == origin[k]);
        } else if k > position {
            assert(from[k] == origin[k - 1]);
        }
    }
    assert forall|k: int, l: int| 0 <= k < l < after.len() implies #[trigger] from[k]
        != #[trigger] from[l] by {
        let ok = if k < position { k } else { k - 1 };
        let ol = if l < position { l } else { l - 1 };
        if k != position {
            assert(from[k] == origin[ok]);
        }
        if l != position {
            assert(from[l] == origin[ol]);
        }
    }
    assert forall|k: int, l: int|
        0 <= k < l < after.len() && may_precede(
            by_name,
            column,
            after[l],
            after[k],
        ) implies #[trigger] from[k] < #[trigger] from[l] by {
        let ok = if k < position { k } else { k - 1 };
        let ol = if l < position { l } else { l - 1 };
        if k != position {
            assert(from[k] == origin[ok]);
            assert(after[k] == output[ok]);
        }
        if l != position {
            assert(from[l] == origin[ol]);
            assert(after[l] == output[ol]);
        }
    }
}

impl Rank for Vec<char> {
    open spec fn before(&self, other: &Self) -> bool {
        lex_le(self@, other@)
    }

    proof fn lemma_before_total(a: &Self, b: &Self) {
        lemma_lex_le_total(a@, b@);
    }

    proof fn lemma_before_transitive(a: &Self, b: &Self, c: &Self) {
        lemma_lex_le_transitive(a@, b@, c@);
    }

    fn precedes(&self, other: &Self) -> (may: bool) {
        text_precedes(self, other)
    }
}

/// The number that a parsed rank stands for.
pub open spec fn rank_number(rank: Option<Decimal>) -> Option<Number> {
    match rank {
        Some(number) => Some(number@),
        None => None,
    }
}

impl Rank for Option<Decimal> {
    open spec fn before(&self, other: &Self) -> bool {
        number_before(rank_number(*self), rank_number(*other))
    }

    proof fn lemma_before_total(a: &Self, b: &Self) {
    }

    proof fn lemma_before_transitive(a: &Self, b: &Self, c: &Self) {
        if a.is_some() && b.is_some() && c.is_some() {
            lemma_number_ge_transitive(a.unwrap()@, b.unwrap()@, c.unwrap()@);
        }
    }

    fn precedes(&self, other: &Self) -> (may: bool) {
        match self {
            Some(own) => match other {
                Some(others) => own.at_least(others),
                None => true,
            },
            None => other.is_none(),
        }
    }
}

/// Inserting a record adds it to the records, whatever the position.
proof fn lemma_insert_views(placed: Seq<ListItem>, position: int, item: ListItem)
    requires
        0 <= position <= placed.len(),
    ensures
        views(placed.insert(position, item)) == views(placed).insert(position, item@),
        views(placed.insert(position, item)).to_multiset() == views(placed).to_multiset().insert(
            item@,
        ),
{
    let after = views(placed.insert(position, item));
    assert(after =~= views(placed).insert(position, item@));
    assert(after.remove(position) =~= views(placed));
    vstd::seq_lib::to_multiset_remove(after, position);
    after.to_multiset_ensures();
    assert(after[position] == item@);
    assert(after.contains(item@));
    assert(after.to_multiset() =~= views(placed).to_multiset().insert(item@));
}

/// Puts a record with its rank where the ranks stay sorted.
fn place<K: Rank>(ranks: &mut Vec<K>, placed: &mut Vec<ListItem>, rank: K, item: ListItem) -> (position:
    usize)
    requires
        old(ranks).len() == old(placed).len(),
        ranks_sorted(old(ranks)@),
    ensures
        position <= old(ranks).len(),
        final(ranks)@ == old(ranks)@.insert(position as int, rank),
        final(placed)@ == old(placed)@.insert(position as int, item),
        ranks_sorted(final(ranks)@),
        forall|j: int| position <= j < old(ranks).len() ==> !(#[trigger] old(ranks)[j]).before(&rank),
{
    let position = insert_position(ranks, &rank);
    ranks.insert(position, rank);
    placed.insert(position, item);
    position
}

/// The records in order of their names, without regard to case.
pub fn sorted_by_name(items: &Vec<ListItem>) -> (sorted: Vec<ListItem>)
    ensures
        views(sorted@).to_multiset() == views(items@).to_multiset(),
        in_order(views(sorted@), true, Seq::empty()),
        keeps_ties(views(items@), views(sorted@), true, Seq::empty()),
{
    let mut ranks: Vec<Vec<char>> = Vec::new();
    let mut sorted: Vec<ListItem> = Vec::new();
    let ghost mut origin: Seq<int> = Seq::empty();
    let mut i: usize = 0;
    assert(views(sorted@) =~= views(items@.take(0)));
    while i < items.len()
        invariant
            i <= items.len(),
            ranks.len() == sorted.len(),
            ranks_sorted(ranks@),
            forall|j: int| 0 <= j < sorted.len() ==> (#[trigger] ranks[j])@ == lowercase(sorted[j]@.name),
            views(sorted@).to_multiset() == views(items@.take(i as int)).to_multiset(),
            stably_ordered(
                views(items@.take(i as int)),
                views(sorted@),
                origin,
                true,
                Seq::empty(),
            ),
        decreases items.len() - i,
    {
        let item = items[i].clone();
        let lower = to_lowercase(item.name.as_str());
        let rank = chars_of(lower.as_str());
        let ghost before = sorted@;
        let ghost ranks_before = ranks@;
        let position = place(&mut ranks, &mut sorted, rank, item);
        proof {
            lemma_insert_views(before, position as int, item);
            assert(views(items@.take(i + 1)) =~= views(items@.take(i as int)).push(items[i as int]@));
            vstd::seq_lib::to_multiset_build(views(items@.take(i as int)), items[i as int]@);
            assert forall|l: int| position <= l < before.len() implies !may_precede(
                true,
                Seq::empty(),
                #[trigger] views(before)[l],
                item@,
            ) by {
                assert(!ranks_before[l].before(&rank));
            }
            lemma_insert_keeps_ties(
                views(items@.take(i as int)),
                item@,
                views(before),
                origin,
                position as int,
                true,
                Seq::empty(),
            );
            origin = origin.insert(position as int, i as int);
        }
        i += 1;
    }
    proof {
        assert(items@.take(items.len() as int) =~= items@);
        assert forall|a: int, b: int| 0 <= a < b < sorted.len() implies may_precede(
            true,
            Seq::empty(),
            #[trigger] views(sorted@)[a],
            #[trigger] views(sorted@)[b],
        ) by {
            assert(ranks[a].before(&ranks[b]));
        }
    }
    sorted
}

/// The records in order of the numbers under `column`, greatest first;
/// records without a number there come last.
pub fn sorted_by_number(items: &Vec<ListItem>, column: &String) -> (sorted: Vec<ListItem>)
    ensures
        views(sorted@).to_multiset() == views(items@).to_multiset(),
        in_order(views(sorted@), false, column@),
        keeps_ties(views(items@), views(sorted@), false, column@),
{
    let mut ranks: Vec<Option<Decimal>> = Vec::new();
    let mut sorted: Vec<ListItem> = Vec::new();
    let ghost mut origin: Seq<int> = Seq::empty();
    let mut i: usize = 0;
    assert(views(sorted@) =~= views(items@.take(0)));
    while i < items.len()
        invariant
            i <= items.len(),
            ranks.len() == sorted.len(),
            ranks_sorted(ranks@),
            forall|j: int|
                0 <= j < sorted.len() ==> rank_number(#[trigger] ranks[j]) == number_rank(
                    sorted[j]@,
                    column@,
                ),
            views(sorted@).to_multiset() == views(items@.take(i as int)).to_multiset(),
            stably_ordered(views(items@.take(i as int)), views(sorted@), origin, false, column@),
        decreases items.len() - i,
    {
        let item = items[i].clone();
        let rank = match item.field(column) {
            Some(text) => Decimal::parse(&chars_of(text.as_str())),
            None => None,
        };
        let ghost before = sorted@;
        let ghost ranks_before = ranks@;
        let position = place(&mut ranks, &mut sorted, rank, item);
        proof {
            lemma_insert_views(before, position as int, item);
            assert(views(items@.take(i + 1)) =~= views(items@.take(i as int)).push(items[i as int]@));
            vstd::seq_lib::to_multiset_build(views(items@.take(i as int)), items[i as int]@);
            assert forall|l: int| position <= l < before.len() implies !may_precede(
                false,
                column@,
                #[trigger] views(before)[l],
                item@,
            ) by {
                assert(!ranks_before[l].before(&rank));
            }
            lemma_insert_keeps_ties(
                views(items@.take(i as int)),
                item@,
                views(before),
                origin,
                position as int,
                false,
                column@,
            );
            origin = origin.insert(position as int, i as int);
        }
        i += 1;
    }
    proof {
        assert(items@.take(items.len() as int) =~= items@);
        assert forall|a: int, b: int| 0 <= a < b < sorted.len() implies may_precede(
            false,
            column@,
            #[trigger] views(sorted@)[a],
            #[trigger] views(sorted@)[b],
        ) by {
            assert(ranks[a].before(&ranks[b]));
        }
    }
    sorted
}

} // verus!
