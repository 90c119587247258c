//! The dictionary only grows during an encode, and what was encoded stays
//! right as it grows.
//!
//! The encoder gives a field name its id when it meets the name, while the
//! encoding is stated over the dictionary as it is in the end. The two
//! agree because a name keeps its id.

use vstd::prelude::*;
use crate::dictionary::{
    distinct, extends, field_id, has_field, lemma_dictionary_add, lemma_extends_transitive,
    lemma_field_id_extends,
};
use crate::encoding::{
    child_error_cursor, child_parts, error_cursor, first_child_error, first_error, joined, names_after,
    names_after_children, object_fields, starts, value_bytes, with_key,
};
use crate::error::VariantError;
use crate::value::JsonModel;

verus! {

/// Every field name in `tree` has an id in `names`.
pub open spec fn covers(tree: JsonModel, names: Seq<Seq<char>>) -> bool
    decreases tree, tree.child_count() + 1,
{
    covers_children(tree, names, tree.child_count())
}

/// The names of the first `count` members of `tree`, and every field name
/// in the first `count` children, have ids in `names`.
pub open spec fn covers_children(tree: JsonModel, names: Seq<Seq<char>>, count: nat) -> bool
    decreases tree, count,
{
    if count == 0 || count > tree.child_count() {
        true
    } else {
        &&& covers_children(tree, names, (count - 1) as nat)
        &&& (tree.child_key(count - 1) matches Some(key) ==> has_field(names, key))
        &&& covers(tree.child(count - 1), names)
    }
}

/// Any dictionary is the beginning of itself.
pub proof fn lemma_extends_self(names: Seq<Seq<char>>)
    ensures
        extends(names, names),
{
    assert(names.take(names.len() as int) =~= names);
}

/// What holds of the first `count` children holds of child `i` among them.
pub proof fn lemma_covers_child(tree: JsonModel, names: Seq<Seq<char>>, count: nat, i: int)
    requires
        covers_children(tree, names, count),
        0 <= i < count <= tree.child_count(),
    ensures
        covers(tree.child(i), names),
        tree.child_key(i) matches Some(key) ==> has_field(names, key),
        covers_children(tree, names, i as nat),
    decreases count,
{
    if i < count - 1 {
        lemma_covers_child(tree, names, (count - 1) as nat, i);
    }
}

/// A dictionary that covers a document still does when it has grown.
pub proof fn lemma_covers_extends(tree: JsonModel, shorter: Seq<Seq<char>>, longer: Seq<Seq<char>>)
    requires
        covers(tree, shorter),
        extends(longer, shorter),
    ensures
        covers(tree, longer),
    decreases tree, tree.child_count() + 1,
{
    lemma_covers_children_extends(tree, shorter, longer, tree.child_count());
}

/// A dictionary that covers the first `count` children still does when it
/// has grown.
pub proof fn lemma_covers_children_extends(
    tree: JsonModel,
    shorter: Seq<Seq<char>>,
    longer: Seq<Seq<char>>,
    count: nat,
)
    requires
        covers_children(tree, shorter, count),
        extends(longer, shorter),
    ensures
        covers_children(tree, longer, count),
    decreases tree, count,
{
    if !(count == 0 || count > tree.child_count()) {
        lemma_covers_children_extends(tree, shorter, longer, (count - 1) as nat);
        lemma_covers_extends(tree.child(count - 1), shorter, longer);
        match tree.child_key(count - 1) {
            Some(key) => {
                lemma_field_id_extends(longer, shorter, key);
            },
            None => {},
        }
    }
}

/// Meeting a name only ever appends to the dictionary.
pub proof fn lemma_with_key(names: Seq<Seq<char>>, key: Option<Seq<char>>)
    ensures
        extends(with_key(names, key), names),
        key matches Some(name) ==> has_field(with_key(names, key), name),
        distinct(names) ==> distinct(with_key(names, key)),
{
    match key {
        Some(name) => {
            lemma_dictionary_add(names, name);
        },
        None => {
            lemma_extends_self(names);
        },
    }
}

/// Encoding a document only ever appends to the dictionary, and the
/// dictionary then covers the document.
pub proof fn lemma_names_after(tree: JsonModel, names: Seq<Seq<char>>)
    ensures
        extends(names_after(tree, names), names),
        covers(tree, names_after(tree, names)),
        distinct(names) ==> distinct(names_after(tree, names)),
    decreases tree, tree.child_count() + 1,
{
    lemma_names_after_children(tree, names, tree.child_count());
}

/// Encoding the first `count` children only ever appends to the dictionary,
/// and the dictionary then covers them.
pub proof fn lemma_names_after_children(tree: JsonModel, names: Seq<Seq<char>>, count: nat)
    ensures
        extends(names_after_children(tree, names, count), names),
        covers_children(tree, names_after_children(tree, names, count), count),
        distinct(names) ==> distinct(names_after_children(tree, names, count)),
    decreases tree, count,
{
    if count == 0 || count > tree.child_count() {
        lemma_extends_self(names);
    } else {
        let before = names_after_children(tree, names, (count - 1) as nat);
        let keyed = with_key(before, tree.child_key(count - 1));
        let after = names_after(tree.child(count - 1), keyed);
        lemma_names_after_children(tree, names, (count - 1) as nat);
        lemma_with_key(before, tree.child_key(count - 1));
        lemma_names_after(tree.child(count - 1), keyed);
        lemma_extends_transitive(after, keyed, before);
        lemma_extends_transitive(after, before, names);
        lemma_covers_children_extends(tree, before, after, (count - 1) as nat);
        match tree.child_key(count - 1) {
            Some(key) => {
                lemma_field_id_extends(after, keyed, key);
            },
            None => {},
        }
    }
}

/// The dictionary after more children is the dictionary after fewer,
/// grown.
pub proof fn lemma_names_after_children_grow(tree: JsonModel, names: Seq<Seq<char>>, fewer: nat, more: nat)
    requires
        fewer <= more <= tree.child_count(),
    ensures
        extends(names_after_children(tree, names, more), names_after_children(tree, names, fewer)),
    decreases more - fewer,
{
    if fewer == more {
        lemma_extends_self(names_after_children(tree, names, more));
    } else {
        lemma_names_after_children_grow(tree, names, fewer, (more - 1) as nat);
        let before = names_after_children(tree, names, (more - 1) as nat);
        let keyed = with_key(before, tree.child_key(more - 1));
        let after = names_after(tree.child(more - 1), keyed);
        lemma_with_key(before, tree.child_key(more - 1));
        lemma_names_after(tree.child(more - 1), keyed);
        lemma_extends_transitive(after, keyed, before);
        lemma_extends_transitive(after, before, names_after_children(tree, names, fewer));
    }
}

/// `child_parts` has one part for each child.
pub proof fn lemma_child_parts_len(tree: JsonModel, names: Seq<Seq<char>>, count: nat)
    requires
        count <= tree.child_count(),
    ensures
        child_parts(tree, names, count).len() == count,
    decreases count,
{
    if count > 0 {
        lemma_child_parts_len(tree, names, (count - 1) as nat);
    }
}

/// The parts of fewer children are the beginning of the parts of more.
pub proof fn lemma_child_parts_prefix(tree: JsonModel, names: Seq<Seq<char>>, fewer: nat, more: nat)
    requires
        fewer <= more <= tree.child_count(),
    ensures
        child_parts(tree, names, more).len() == more,
        child_parts(tree, names, fewer) == child_parts(tree, names, more).take(fewer as int),
        forall|i: int| 0 <= i < more ==> #[trigger] child_parts(tree, names, more)[i] == value_bytes(tree.child(i), names),
    decreases more,
{
    lemma_child_parts_len(tree, names, more);
    lemma_child_parts_len(tree, names, fewer);
    if more > 0 {
        if fewer < more {
            lemma_child_parts_prefix(tree, names, fewer, (more - 1) as nat);
        } else {
            lemma_child_parts_prefix(tree, names, (more - 1) as nat, (more - 1) as nat);
        }
        lemma_child_parts_len(tree, names, (more - 1) as nat);
        let shorter = child_parts(tree, names, (more - 1) as nat);
        let longer = child_parts(tree, names, more);
        assert(longer == shorter.push(value_bytes(tree.child(more - 1), names)));
        if fewer < more {
            assert(longer.take(fewer as int) =~= shorter.take(fewer as int));
        } else {
            assert(longer.take(fewer as int) =~= longer);
        }
    } else {
        assert(child_parts(tree, names, more).take(0) =~= child_parts(tree, names, fewer));
    }
}

/// Joining the first `count` parts looks at no part behind them.
pub proof fn lemma_joined_prefix(a: Seq<Seq<u8>>, b: Seq<Seq<u8>>, count: int)
    requires
        0 <= count <= a.len(),
        count <= b.len(),
        a.take(count) == b.take(count),
    ensures
        joined(a, count) == joined(b, count),
    decreases count,
{
    if count > 0 {
        assert(a.take(count - 1) =~= a.take(count).take(count - 1));
        assert(b.take(count - 1) =~= b.take(count).take(count - 1));
        lemma_joined_prefix(a, b, count - 1);
        assert(a[count - 1] == a.take(count)[count - 1]);
        assert(b[count - 1] == b.take(count)[count - 1]);
    }
}

/// The value bytes of a document do not change when a dictionary that
/// covers it grows.
pub proof fn lemma_value_bytes_stable(tree: JsonModel, shorter: Seq<Seq<char>>, longer: Seq<Seq<char>>)
    requires
        covers(tree, shorter),
        extends(longer, shorter),
    ensures
        value_bytes(tree, shorter) == value_bytes(tree, longer),
    decreases tree, tree.child_count() + 1,
{
    let count = tree.child_count();
    lemma_child_parts_stable(tree, shorter, longer, count);
    match tree {
        JsonModel::Object(members) => {
            let parts = child_parts(tree, shorter, count);
            assert(object_fields(tree.keys(), shorter, parts) =~= object_fields(tree.keys(), longer, parts)) by {
                assert forall|i: int| 0 <= i < tree.keys().len() implies field_id(shorter, tree.keys()[i])
                    == field_id(longer, tree.keys()[i]) by {
                    lemma_covers_child(tree, shorter, count, i);
                    lemma_field_id_extends(longer, shorter, tree.keys()[i]);
                }
            }
        },
        _ => {},
    }
}

/// The value bytes of the first `count` children do not change when a
/// dictionary that covers them grows.
pub proof fn lemma_child_parts_stable(
    tree: JsonModel,
    shorter: Seq<Seq<char>>,
    longer: Seq<Seq<char>>,
    count: nat,
)
    requires
        covers_children(tree, shorter, count),
        extends(longer, shorter),
    ensures
        child_parts(tree, shorter, count) == child_parts(tree, longer, count),
    decreases tree, count,
{
    if !(count == 0 || count > tree.child_count()) {
        lemma_child_parts_stable(tree, shorter, longer, (count - 1) as nat);
        lemma_value_bytes_stable(tree.child(count - 1), shorter, longer);
    }
}

/// Why the encode of a document stops does not change when a dictionary
/// that covers the document grows.
pub proof fn lemma_first_error_stable(
    tree: JsonModel,
    shorter: Seq<Seq<char>>,
    longer: Seq<Seq<char>>,
    at: int,
    limit: int,
)
    requires
        covers(tree, shorter),
        extends(longer, shorter),
    ensures
        first_error(tree, shorter, at, limit) == first_error(tree, longer, at, limit),
    decreases tree, tree.child_count() + 1,
{
    lemma_value_bytes_stable(tree, shorter, longer);
    lemma_first_child_error_stable(tree, shorter, longer, at, limit, tree.child_count());
}

/// Why the encode stops among the first `count` children does not change
/// when a dictionary that covers them grows.
pub proof fn lemma_first_child_error_stable(
    tree: JsonModel,
    shorter: Seq<Seq<char>>,
    longer: Seq<Seq<char>>,
    at: int,
    limit: int,
    count: nat,
)
    requires
        covers_children(tree, shorter, count),
        extends(longer, shorter),
    ensures
        first_child_error(tree, shorter, at, limit, count) == first_child_error(tree, longer, at, limit, count),
    decreases tree, count,
{
    if !(count == 0 || count > tree.child_count()) {
        lemma_first_child_error_stable(tree, shorter, longer, at, limit, (count - 1) as nat);
        lemma_child_parts_stable(tree, shorter, longer, (count - 1) as nat);
        lemma_first_error_stable(
            tree.child(count - 1),
            shorter,
            longer,
            at + joined(child_parts(tree, shorter, (count - 1) as nat), count - 1).len(),
            limit,
        );
    }
}

/// An encode that has stopped among fewer children has stopped among more,
/// for the same reason.
pub proof fn lemma_first_child_error_stays(
    tree: JsonModel,
    names: Seq<Seq<char>>,
    at: int,
    limit: int,
    fewer: nat,
    more: nat,
)
    requires
        fewer <= more <= tree.child_count(),
        first_child_error(tree, names, at, limit, fewer) is Some,
    ensures
        first_child_error(tree, names, at, limit, more) == first_child_error(tree, names, at, limit, fewer),
    decreases more - fewer,
{
    if fewer < more {
        lemma_first_child_error_stays(tree, names, at, limit, fewer, (more - 1) as nat);
    }
}

/// Where the parts start does not change when a part is added.
pub proof fn lemma_starts_push(parts: Seq<Seq<u8>>, part: Seq<u8>)
    ensures
        starts(parts.push(part)) == starts(parts).push(joined(parts, parts.len() as int).len() as int),
        joined(parts.push(part), parts.len() as int + 1) == joined(parts, parts.len() as int) + part,
{
    let longer = parts.push(part);
    assert forall|i: int| 0 <= i <= parts.len() implies joined(longer, i) == joined(parts, i) by {
        assert(longer.take(i) =~= parts.take(i));
        lemma_joined_prefix(longer, parts, i);
    }
    assert(starts(longer) =~= starts(parts).push(joined(parts, parts.len() as int).len() as int));
}

/// One more child is encoded: what held of the children before it holds of
/// them and of it, under the dictionary as it is after it.
pub proof fn lemma_child_done(tree: JsonModel, names: Seq<Seq<char>>, at: int, limit: int, i: nat)
    requires
        i < tree.child_count(),
        first_child_error(tree, names_after_children(tree, names, i), at, limit, i) is None,
        first_error(
            tree.child(i as int),
            names_after_children(tree, names, i + 1),
            at + joined(child_parts(tree, names_after_children(tree, names, i), i), i as int).len(),
            limit,
        ) is None,
    ensures
        ({
            let before = names_after_children(tree, names, i);
            let keyed = with_key(before, tree.child_key(i as int));
            let after = names_after_children(tree, names, i + 1);
            let parts = child_parts(tree, before, i);
            let part = value_bytes(tree.child(i as int), after);
            &&& after == names_after(tree.child(i as int), keyed)
            &&& extends(after, keyed)
            &&& extends(keyed, before)
            &&& extends(after, before)
            &&& parts.len() == i
            &&& covers_children(tree, after, i + 1)
            &&& first_child_error(tree, after, at, limit, i + 1) is None
            &&& child_parts(tree, after, i + 1) == parts.push(part)
            &&& joined(parts.push(part), i as int + 1) == joined(parts, i as int) + part
            &&& starts(parts.push(part)) == starts(parts).push(joined(parts, i as int).len() as int)
            &&& forall|j: int| 0 <= j <= i ==> #[trigger] joined(parts.push(part), j) == joined(parts, j)
            &&& forall|j: int|
                0 <= j < i ==> (#[trigger] tree.child_key(j) matches Some(key) ==> has_field(before, key)
                    && field_id(after, key) == field_id(before, key))
            &&& tree.child_key(i as int) matches Some(key) ==> has_field(keyed, key) && field_id(after, key)
                == field_id(keyed, key)
        }),
{
    let before = names_after_children(tree, names, i);
    let keyed = with_key(before, tree.child_key(i as int));
    let after = names_after_children(tree, names, i + 1);
    let parts = child_parts(tree, before, i);
    let part = value_bytes(tree.child(i as int), after);
    lemma_names_after_children(tree, names, i);
    lemma_names_after_children(tree, names, i + 1);
    lemma_with_key(before, tree.child_key(i as int));
    lemma_names_after(tree.child(i as int), keyed);
    lemma_extends_transitive(after, keyed, before);
    lemma_child_parts_len(tree, before, i);
    lemma_child_parts_stable(tree, before, after, i);
    lemma_first_child_error_stable(tree, before, after, at, limit, i);
    lemma_starts_push(parts, part);
    assert forall|j: int| 0 <= j <= i implies #[trigger] joined(parts.push(part), j) == joined(parts, j) by {
        assert(parts.push(part).take(j) =~= parts.take(j));
        lemma_joined_prefix(parts.push(part), parts, j);
    }
    assert forall|j: int| 0 <= j < i implies (#[trigger] tree.child_key(j) matches Some(key) ==> has_field(
        before,
        key,
    ) && field_id(after, key) == field_id(before, key)) by {
        lemma_covers_child(tree, before, i, j);
        match tree.child_key(j) {
            Some(key) => {
                lemma_field_id_extends(after, before, key);
            },
            None => {},
        }
    }
    match tree.child_key(i as int) {
        Some(key) => {
            lemma_field_id_extends(after, keyed, key);
        },
        None => {},
    }
}

/// The encode of child `i` has stopped: so has the encode of the document,
/// for the same reason.
pub proof fn lemma_child_failed(
    tree: JsonModel,
    names: Seq<Seq<char>>,
    at: int,
    limit: int,
    i: nat,
    error: VariantError,
)
    requires
        tree is Array || tree is Object,
        i < tree.child_count(),
        first_child_error(tree, names_after_children(tree, names, i), at, limit, i) is None,
        first_error(
            tree.child(i as int),
            names_after_children(tree, names, i + 1),
            at + joined(child_parts(tree, names_after_children(tree, names, i), i), i as int).len(),
            limit,
        ) == Some(error),
    ensures
        first_error(tree, names_after(tree, names), at, limit) == Some(error),
{
    let before = names_after_children(tree, names, i);
    let after = names_after_children(tree, names, i + 1);
    let last = names_after(tree, names);
    let keyed = with_key(before, tree.child_key(i as int));
    lemma_names_after_children(tree, names, i);
    lemma_names_after_children(tree, names, i + 1);
    lemma_with_key(before, tree.child_key(i as int));
    lemma_names_after(tree.child(i as int), keyed);
    lemma_extends_transitive(after, keyed, before);
    lemma_child_parts_stable(tree, before, after, i);
    lemma_first_child_error_stable(tree, before, after, at, limit, i);
    assert(first_child_error(tree, after, at, limit, i + 1) == Some(error));
    lemma_names_after_children_grow(tree, names, i + 1, tree.child_count());
    lemma_first_child_error_stable(tree, after, last, at, limit, i + 1);
    lemma_first_child_error_stays(tree, last, at, limit, i + 1, tree.child_count());
}

/// Where the cursor stands when the encode of a document stops does not
/// change when a dictionary that covers the document grows.
pub proof fn lemma_error_cursor_stable(
    tree: JsonModel,
    shorter: Seq<Seq<char>>,
    longer: Seq<Seq<char>>,
    at: int,
    limit: int,
)
    requires
        covers(tree, shorter),
        extends(longer, shorter),
    ensures
        error_cursor(tree, shorter, at, limit) == error_cursor(tree, longer, at, limit),
    decreases tree, tree.child_count() + 1,
{
    lemma_child_error_cursor_stable(tree, shorter, longer, at, limit, tree.child_count());
}

/// Where the cursor stands when the encode stops among the first `count`
/// children does not change when a dictionary that covers them grows.
pub proof fn lemma_child_error_cursor_stable(
    tree: JsonModel,
    shorter: Seq<Seq<char>>,
    longer: Seq<Seq<char>>,
    at: int,
    limit: int,
    count: nat,
)
    requires
        covers_children(tree, shorter, count),
        extends(longer, shorter),
    ensures
        child_error_cursor(tree, shorter, at, limit, count) == child_error_cursor(tree, longer, at, limit, count),
    decreases tree, count,
{
    if !(count == 0 || count > tree.child_count()) {
        let start = at + joined(child_parts(tree, shorter, (count - 1) as nat), count - 1).len();
        lemma_child_error_cursor_stable(tree, shorter, longer, at, limit, (count - 1) as nat);
        lemma_first_child_error_stable(tree, shorter, longer, at, limit, (count - 1) as nat);
        lemma_child_parts_stable(tree, shorter, longer, (count - 1) as nat);
        lemma_first_error_stable(tree.child(count - 1), shorter, longer, start, limit);
        lemma_value_bytes_stable(tree.child(count - 1), shorter, longer);
        lemma_error_cursor_stable(tree.child(count - 1), shorter, longer, start, limit);
    }
}

/// An encode that has stopped among fewer children stands, among more,
/// where it stood.
pub proof fn lemma_child_error_cursor_stays(
    tree: JsonModel,
    names: Seq<Seq<char>>,
    at: int,
    limit: int,
    fewer: nat,
    more: nat,
)
    requires
        fewer <= more <= tree.child_count(),
        first_child_error(tree, names, at, limit, fewer) is Some,
    ensures
        child_error_cursor(tree, names, at, limit, more) == child_error_cursor(tree, names, at, limit, fewer),
    decreases more - fewer,
{
    if fewer < more {
        lemma_child_error_cursor_stays(tree, names, at, limit, fewer, (more - 1) as nat);
        lemma_first_child_error_stays(tree, names, at, limit, fewer, (more - 1) as nat);
    }
}

/// Where none of the first `count` children stops the encode, the cursor
/// stands behind them.
pub proof fn lemma_child_error_cursor_behind(
    tree: JsonModel,
    names: Seq<Seq<char>>,
    at: int,
    limit: int,
    count: nat,
)
    requires
        count <= tree.child_count(),
        first_child_error(tree, names, at, limit, count) is None,
    ensures
        child_error_cursor(tree, names, at, limit, count) == at + joined(
            child_parts(tree, names, count),
            count as int,
        ).len(),
    decreases count,
{
    if count > 0 {
        let fewer = child_parts(tree, names, (count - 1) as nat);
        let part = value_bytes(tree.child(count - 1), names);
        lemma_child_parts_len(tree, names, (count - 1) as nat);
        lemma_starts_push(fewer, part);
        lemma_child_error_cursor_behind(tree, names, at, limit, (count - 1) as nat);
    }
}

/// The encode of child `i` has stopped: the cursor stands for the document
/// where it stands for the child.
pub proof fn lemma_child_failed_cursor(tree: JsonModel, names: Seq<Seq<char>>, at: int, limit: int, i: nat)
    requires
        i < tree.child_count(),
        first_child_error(tree, names_after_children(tree, names, i), at, limit, i) is None,
        first_error(
            tree.child(i as int),
            names_after_children(tree, names, i + 1),
            at + joined(child_parts(tree, names_after_children(tree, names, i), i), i as int).len(),
            limit,
        ) is Some,
    ensures
        error_cursor(tree, names_after(tree, names), at, limit) == error_cursor(
            tree.child(i as int),
            names_after_children(tree, names, i + 1),
            at + joined(child_parts(tree, names_after_children(tree, names, i), i), i as int).len(),
            limit,
        ),
{
    let before = names_after_children(tree, names, i);
    let after = names_after_children(tree, names, i + 1);
    let last = names_after(tree, names);
    let keyed = with_key(before, tree.child_key(i as int));
    let start = at + joined(child_parts(tree, before, i), i as int).len();
    lemma_names_after_children(tree, names, i);
    lemma_names_after_children(tree, names, i + 1);
    lemma_with_key(before, tree.child_key(i as int));
    lemma_names_after(tree.child(i as int), keyed);
    lemma_extends_transitive(after, keyed, before);
    lemma_child_parts_stable(tree, before, after, i);
    lemma_first_child_error_stable(tree, before, after, at, limit, i);
    assert(first_child_error(tree, after, at, limit, i + 1) is Some);
    assert(child_error_cursor(tree, after, at, limit, i + 1) == error_cursor(
        tree.child(i as int),
        after,
        start,
        limit,
    ));
    lemma_names_after_children_grow(tree, names, i + 1, tree.child_count());
    lemma_first_child_error_stable(tree, after, last, at, limit, i + 1);
    lemma_child_error_cursor_stable(tree, after, last, at, limit, i + 1);
    lemma_child_error_cursor_stays(tree, last, at, limit, i + 1, tree.child_count());
}

/// `error` is no unreadable number: nothing stops the encode, or the limit
/// does.
pub open spec fn none_or_limit(error: Option<VariantError>) -> bool {
    error is None || error == Some(VariantError::SizeLimitExceeded)
}

/// Under a smaller limit, an encode that no unreadable number stops is
/// still stopped by none, and one that the limit stops is stopped by the
/// smaller one.
pub proof fn lemma_first_error_room(tree: JsonModel, names: Seq<Seq<char>>, at: int, smaller: int, larger: int)
    requires
        smaller <= larger,
        none_or_limit(first_error(tree, names, at, larger)),
    ensures
        none_or_limit(first_error(tree, names, at, smaller)),
        first_error(tree, names, at, larger) is Some ==> first_error(tree, names, at, smaller) is Some,
    decreases tree, tree.child_count() + 1,
{
    if tree is Array || tree is Object {
        lemma_first_child_error_room(tree, names, at, smaller, larger, tree.child_count());
    }
}

/// Under a smaller limit, an encode that no unreadable number stops among
/// the first `count` children is still stopped by none, and one that the
/// limit stops among them is stopped among them by the smaller one.
pub proof fn lemma_first_child_error_room(
    tree: JsonModel,
    names: Seq<Seq<char>>,
    at: int,
    smaller: int,
    larger: int,
    count: nat,
)
    requires
        smaller <= larger,
        none_or_limit(first_child_error(tree, names, at, larger, count)),
    ensures
        none_or_limit(first_child_error(tree, names, at, smaller, count)),
        first_child_error(tree, names, at, larger, count) is Some ==> first_child_error(
            tree,
            names,
            at,
            smaller,
            count,
        ) is Some,
    decreases tree, count,
{
    if !(count == 0 || count > tree.child_count()) {
        lemma_first_child_error_room(tree, names, at, smaller, larger, (count - 1) as nat);
        if first_child_error(tree, names, at, larger, (count - 1) as nat) is None {
            lemma_first_error_room(
                tree.child(count - 1),
                names,
                at + joined(child_parts(tree, names, (count - 1) as nat), count - 1).len(),
                smaller,
                larger,
            );
        }
    }
}

/// Child `i` finds no room under the limit `room`, and nothing stopped the
/// encode before it under the larger limit `limit`: the document finds no
/// room under `room`.
pub proof fn lemma_child_short_of_room(
    tree: JsonModel,
    names: Seq<Seq<char>>,
    at: int,
    limit: int,
    room: int,
    i: nat,
)
    requires
        tree is Array || tree is Object,
        i < tree.child_count(),
        room <= limit,
        first_child_error(tree, names_after_children(tree, names, i), at, limit, i) is None,
        first_error(
            tree.child(i as int),
            names_after_children(tree, names, i + 1),
            at + joined(child_parts(tree, names_after_children(tree, names, i), i), i as int).len(),
            room,
        ) == Some(VariantError::SizeLimitExceeded),
    ensures
        first_error(tree, names_after(tree, names), at, room) == Some(VariantError::SizeLimitExceeded),
{
    let before = names_after_children(tree, names, i);
    let after = names_after_children(tree, names, i + 1);
    let last = names_after(tree, names);
    let keyed = with_key(before, tree.child_key(i as int));
    lemma_names_after_children(tree, names, i);
    lemma_names_after_children(tree, names, i + 1);
    lemma_with_key(before, tree.child_key(i as int));
    lemma_names_after(tree.child(i as int), keyed);
    lemma_extends_transitive(after, keyed, before);
    lemma_child_parts_stable(tree, before, after, i);
    lemma_first_child_error_room(tree, before, at, room, limit, i);
    lemma_first_child_error_stable(tree, before, after, at, room, i);
    assert(first_child_error(tree, after, at, room, i + 1) == Some(VariantError::SizeLimitExceeded));
    lemma_names_after_children_grow(tree, names, i + 1, tree.child_count());
    lemma_first_child_error_stable(tree, after, last, at, room, i + 1);
    lemma_first_child_error_stays(tree, last, at, room, i + 1, tree.child_count());
}

/// The encode of child `i` has stopped, for a reason of its own or because
/// the buffer was not grown: so has the encode of the document, for the
/// same reason and with the cursor where it stands.
pub proof fn lemma_child_stopped(
    tree: JsonModel,
    names: Seq<Seq<char>>,
    at: int,
    limit: int,
    room: int,
    i: nat,
    error: VariantError,
    start: int,
    room_before: int,
    cursor: int,
    fallible: bool,
)
    requires
        tree is Array || tree is Object,
        i < tree.child_count(),
        first_child_error(tree, names_after_children(tree, names, i), at, limit, i) is None,
        start == at + joined(child_parts(tree, names_after_children(tree, names, i), i), i as int).len(),
        room <= room_before,
        ({
            let child = tree.child(i as int);
            let after = names_after_children(tree, names, i + 1);
            ||| first_error(child, after, start, limit) == Some(error) && cursor == error_cursor(
                child,
                after,
                start,
                limit,
            )
            ||| error == VariantError::AllocationFailed && fallible && room_before < limit && first_error(
                child,
                after,
                start,
                room_before,
            ) == Some(VariantError::SizeLimitExceeded)
        }),
    ensures
        ({
            let last = names_after(tree, names);
            ||| first_error(tree, last, at, limit) == Some(error) && cursor == error_cursor(tree, last, at, limit)
            ||| error == VariantError::AllocationFailed && fallible && room < limit && first_error(
                tree,
                last,
                at,
                room,
            ) == Some(VariantError::SizeLimitExceeded)
        }),
{
    let child = tree.child(i as int);
    let after = names_after_children(tree, names, i + 1);
    if first_error(child, after, start, limit) == Some(error) && cursor == error_cursor(child, after, start, limit) {
        lemma_child_failed(tree, names, at, limit, i, error);
        lemma_child_failed_cursor(tree, names, at, limit, i);
    } else {
        lemma_first_error_room(child, after, start, room, room_before);
        lemma_child_short_of_room(tree, names, at, limit, room, i);
    }
}

/// The header of a container finds no room in a buffer of `room` bytes,
/// and nothing stopped the encode of its children under the larger limit
/// `limit`: the container finds no room under `room`.
pub proof fn lemma_close_short_of_room(tree: JsonModel, names: Seq<Seq<char>>, at: int, limit: int, room: int)
    requires
        tree is Array || tree is Object,
        room <= limit,
        first_child_error(tree, names, at, limit, tree.child_count()) is None,
        at + value_bytes(tree, names).len() > room,
    ensures
        first_error(tree, names, at, room) == Some(VariantError::SizeLimitExceeded),
{
    lemma_first_child_error_room(tree, names, at, room, limit, tree.child_count());
}

} // verus!
