//! The fields of one object, and the order in which its header lists them.

use vstd::prelude::*;
use vstd::utf8::encode_utf8;

verus! {

/// One field of an object under construction.
#[derive(Debug, Clone, Copy)]
pub struct FieldEntry<'a> {
    /// The field's name.
    pub key: &'a str,
    /// The id of the name in the dictionary.
    pub id: usize,
    /// Where the field's value starts, counted from the start of the
    /// object's data.
    pub offset: usize,
}

/// The mathematical value of a field entry.
pub struct FieldModel {
    pub key: Seq<char>,
    pub id: int,
    pub offset: int,
}

impl<'a> View for FieldEntry<'a> {
    type V = FieldModel;

    open spec fn view(&self) -> FieldModel {
        FieldModel { key: self.key@, id: self.id as int, offset: self.offset as int }
    }
}

/// The views of the entries of `entries`.
pub open spec fn entry_models(entries: Seq<FieldEntry>) -> Seq<FieldModel> {
    Seq::new(entries.len(), |i: int| entries[i]@)
}

/// `a` comes no later than `b` when the two are compared byte by byte from
/// index `i` on, a proper beginning coming before what it begins.
pub open spec fn bytes_le_from(a: Seq<u8>, b: Seq<u8>, i: int) -> bool
    decreases a.len() - i,
{
    if i < 0 || i >= a.len() {
        true
    } else if i >= b.len() {
        false
    } else if a[i] != b[i] {
        a[i] < b[i]
    } else {
        bytes_le_from(a, b, i + 1)
    }
}

/// `a` comes no later than `b` in the lexicographic order of bytes.
pub open spec fn bytes_le(a: Seq<u8>, b: Seq<u8>) -> bool {
    bytes_le_from(a, b, 0)
}

/// The order of field names: the lexicographic order of their UTF-8 bytes.
pub open spec fn key_le(a: Seq<char>, b: Seq<char>) -> bool {
    bytes_le(encode_utf8(a), encode_utf8(b))
}

/// Where `key` goes into `sorted`: behind the last entry whose key comes no
/// later.
pub open spec fn insert_position(sorted: Seq<FieldModel>, key: Seq<char>) -> int
    decreases sorted.len(),
{
    if sorted.len() == 0 {
        0
    } else if key_le(sorted.last().key, key) {
        sorted.len() as int
    } else {
        insert_position(sorted.drop_last(), key)
    }
}

/// `entries` in the order of their keys; entries with the same key stay in
/// the order in which they came.
pub open spec fn sort_entries(entries: Seq<FieldModel>) -> Seq<FieldModel>
    decreases entries.len(),
{
    if entries.len() == 0 {
        Seq::empty()
    } else {
        let sorted = sort_entries(entries.drop_last());
        sorted.insert(insert_position(sorted, entries.last().key), entries.last())
    }
}

/// The largest id among `entries`, or 0 where there is none.
pub open spec fn max_id(entries: Seq<FieldModel>) -> int
    decreases entries.len(),
{
    if entries.len() == 0 {
        0
    } else {
        let rest = max_id(entries.drop_last());
        if entries.last().id > rest {
            entries.last().id
        } else {
            rest
        }
    }
}

/// The ids of `entries`, in their order.
pub open spec fn entry_ids(entries: Seq<FieldModel>) -> Seq<int> {
    Seq::new(entries.len(), |i: int| entries[i].id)
}

/// The offsets of `entries`, in their order.
pub open spec fn entry_offsets(entries: Seq<FieldModel>) -> Seq<int> {
    Seq::new(entries.len(), |i: int| entries[i].offset)
}

/// The largest id is no less than any id, and is the id of an entry where
/// it is not 0.
pub proof fn lemma_max_id(entries: Seq<FieldModel>)
    ensures
        max_id(entries) >= 0,
        forall|i: int| 0 <= i < entries.len() ==> (#[trigger] entries[i]).id <= max_id(entries),
        max_id(entries) == 0 || exists|i: int| 0 <= i < entries.len() && (#[trigger] entries[i]).id == max_id(entries),
    decreases entries.len(),
{
    if entries.len() > 0 {
        let fewer = entries.drop_last();
        lemma_max_id(fewer);
        assert forall|i: int| 0 <= i < entries.len() implies (#[trigger] entries[i]).id <= max_id(entries) by {
            if i < fewer.len() {
                assert(fewer[i] == entries[i]);
            }
        }
        if max_id(entries) != 0 {
            if entries.last().id > max_id(fewer) {
                assert(entries[entries.len() - 1].id == max_id(entries));
            } else {
                let i = choose|i: int| 0 <= i < fewer.len() && (#[trigger] fewer[i]).id == max_id(fewer);
                assert(entries[i].id == max_id(entries));
            }
        }
    }
}

/// The largest id with an entry put in is the larger of the largest id
/// without it and its id.
pub proof fn lemma_max_id_insert(entries: Seq<FieldModel>, at: int, entry: FieldModel)
    requires
        0 <= at <= entries.len(),
    ensures
        max_id(entries.insert(at, entry)) == if entry.id > max_id(entries) {
            entry.id
        } else {
            max_id(entries)
        },
    decreases entries.len() - at,
{
    let put = entries.insert(at, entry);
    if at == entries.len() {
        assert(put.drop_last() =~= entries);
    } else {
        lemma_max_id_insert(entries.drop_last(), at, entry);
        assert(put.drop_last() =~= entries.drop_last().insert(at, entry));
        assert(put.last() == entries.last());
    }
}

/// Sorting does not change the largest id.
pub proof fn lemma_max_id_sorted(entries: Seq<FieldModel>)
    ensures
        max_id(sort_entries(entries)) == max_id(entries),
    decreases entries.len(),
{
    if entries.len() > 0 {
        let sorted = sort_entries(entries.drop_last());
        lemma_max_id_sorted(entries.drop_last());
        lemma_insert_position(sorted, entries.last().key);
        lemma_max_id_insert(sorted, insert_position(sorted, entries.last().key), entries.last());
    }
}

/// An insert position is an index into the sequence, or its length.
pub proof fn lemma_insert_position(sorted: Seq<FieldModel>, key: Seq<char>)
    ensures
        0 <= insert_position(sorted, key) <= sorted.len(),
        insert_position(sorted, key) > 0 ==> key_le(sorted[insert_position(sorted, key) - 1].key, key),
        forall|i: int| insert_position(sorted, key) <= i < sorted.len() ==> !key_le(#[trigger] sorted[i].key, key),
    decreases sorted.len(),
{
    if sorted.len() > 0 && !key_le(sorted.last().key, key) {
        lemma_insert_position(sorted.drop_last(), key);
        let p = insert_position(sorted, key);
        assert forall|i: int| p <= i < sorted.len() implies !key_le(#[trigger] sorted[i].key, key) by {
            if i < sorted.len() - 1 {
                assert(sorted.drop_last()[i] == sorted[i]);
            }
        }
        if p > 0 {
            assert(sorted.drop_last()[p - 1] == sorted[p - 1]);
        }
    }
}

/// Sorting keeps the number of entries.
pub proof fn lemma_sort_entries_len(entries: Seq<FieldModel>)
    ensures
        sort_entries(entries).len() == entries.len(),
    decreases entries.len(),
{
    if entries.len() > 0 {
        lemma_sort_entries_len(entries.drop_last());
        lemma_insert_position(sort_entries(entries.drop_last()), entries.last().key);
    }
}

/// Whether `a` comes no later than `b` in the lexicographic order of bytes.
pub fn compare_bytes(a: &[u8], b: &[u8]) -> (le: bool)
    ensures
        le == bytes_le(a@, b@),
{
    let mut i: usize = 0;
    loop
        invariant
            i <= a@.len(),
            bytes_le(a@, b@) == bytes_le_from(a@, b@, i as int),
        decreases a@.len() - i,
    {
        if i >= a.len() {
            return true;
        }
        if i >= b.len() {
            return false;
        }
        if a[i] != b[i] {
            return a[i] < b[i];
        }
        i += 1;
    }
}

/// Whether the name `a` comes no later than the name `b`.
pub fn compare_keys(a: &str, b: &str) -> (le: bool)
    ensures
        le == key_le(a@, b@),
{
    compare_bytes(a.as_bytes(), b.as_bytes())
}

/// Of two sequences of bytes that agree before index `i`, one comes no
/// later than the other.
pub proof fn lemma_bytes_le_total(a: Seq<u8>, b: Seq<u8>, i: int)
    requires
        0 <= i,
    ensures
        bytes_le_from(a, b, i) || bytes_le_from(b, a, i),
    decreases a.len() - i,
{
    if i < a.len() && i < b.len() && a[i] == b[i] {
        lemma_bytes_le_total(a, b, i + 1);
    }
}

/// What comes no later than something that comes no later than a third,
/// comes no later than the third.
pub proof fn lemma_bytes_le_transitive(a: Seq<u8>, b: Seq<u8>, c: Seq<u8>, i: int)
    requires
        0 <= i,
        bytes_le_from(a, b, i),
        bytes_le_from(b, c, i),
    ensures
        bytes_le_from(a, c, i),
    decreases a.len() - i,
{
    if i < a.len() && a[i] == b[i] && b[i] == c[i] {
        lemma_bytes_le_transitive(a, b, c, i + 1);
    }
}

/// The order of field names is total.
pub proof fn law_key_order_total(a: Seq<char>, b: Seq<char>)
    ensures
        key_le(a, b) || key_le(b, a),
{
    lemma_bytes_le_total(encode_utf8(a), encode_utf8(b), 0);
}

/// The order of field names is transitive.
pub proof fn law_key_order_transitive(a: Seq<char>, b: Seq<char>, c: Seq<char>)
    requires
        key_le(a, b),
        key_le(b, c),
    ensures
        key_le(a, c),
{
    lemma_bytes_le_transitive(encode_utf8(a), encode_utf8(b), encode_utf8(c), 0);
}

/// `sorted` with `entry` put in behind the last entry whose key comes no
/// later.
pub open spec fn insert_entry(sorted: Seq<FieldModel>, entry: FieldModel) -> Seq<FieldModel> {
    sorted.insert(insert_position(sorted, entry.key), entry)
}

/// `left` and `right` merged: the entries of both in the order of their
/// keys, where each of the two is in that order; of two entries with the
/// same key the one of `left` comes first.
pub open spec fn merge_entries(left: Seq<FieldModel>, right: Seq<FieldModel>) -> Seq<FieldModel>
    decreases left.len() + right.len(),
{
    if right.len() == 0 {
        left
    } else if left.len() == 0 {
        right
    } else if key_le(left.last().key, right.last().key) {
        merge_entries(left, right.drop_last()).push(right.last())
    } else {
        merge_entries(left.drop_last(), right).push(left.last())
    }
}

/// An entry that goes behind a last entry goes to the end; one that goes
/// before it goes where it goes without it.
pub proof fn lemma_insert_entry(sorted: Seq<FieldModel>, entry: FieldModel)
    requires
        sorted.len() > 0,
    ensures
        insert_entry(sorted, entry) == if key_le(sorted.last().key, entry.key) {
            sorted.push(entry)
        } else {
            insert_entry(sorted.drop_last(), entry).push(sorted.last())
        },
{
    lemma_insert_position(sorted.drop_last(), entry.key);
    if key_le(sorted.last().key, entry.key) {
        assert(insert_entry(sorted, entry) =~= sorted.push(entry));
    } else {
        assert(insert_entry(sorted, entry) =~= insert_entry(sorted.drop_last(), entry).push(sorted.last()));
    }
}

/// To put an entry into what was merged is to put it into the right part
/// and merge then.
pub proof fn lemma_insert_merged(left: Seq<FieldModel>, right: Seq<FieldModel>, entry: FieldModel)
    ensures
        insert_entry(merge_entries(left, right), entry) == merge_entries(left, insert_entry(right, entry)),
    decreases left.len() + right.len(),
{
    let merged = merge_entries(left, right);
    let put = insert_entry(right, entry);
    lemma_insert_position(right, entry.key);
    if right.len() == 0 {
        assert(put =~= seq![entry]);
        assert(put.drop_last() =~= right);
        if left.len() > 0 {
            lemma_insert_entry(left, entry);
            if !key_le(left.last().key, entry.key) {
                lemma_insert_merged(left.drop_last(), right, entry);
                assert(insert_entry(right, entry) == put);
            }
        } else {
            assert(insert_entry(left, entry) =~= seq![entry]);
        }
    } else if left.len() == 0 {
    } else {
        lemma_insert_entry(right, entry);
        lemma_insert_entry(merged, entry);
        if key_le(left.last().key, right.last().key) {
            assert(merged.last() == right.last());
            assert(merged.drop_last() =~= merge_entries(left, right.drop_last()));
            if key_le(right.last().key, entry.key) {
                law_key_order_transitive(left.last().key, right.last().key, entry.key);
                assert(put.drop_last() =~= right);
            } else {
                lemma_insert_merged(left, right.drop_last(), entry);
                assert(put.drop_last() =~= insert_entry(right.drop_last(), entry));
            }
        } else {
            assert(merged.last() == left.last());
            assert(merged.drop_last() =~= merge_entries(left.drop_last(), right));
            law_key_order_total(left.last().key, right.last().key);
            if key_le(left.last().key, entry.key) {
                law_key_order_transitive(right.last().key, left.last().key, entry.key);
                assert(put.drop_last() =~= right);
            } else {
                lemma_insert_merged(left.drop_last(), right, entry);
                if key_le(right.last().key, entry.key) {
                    assert(put.last() == entry);
                } else {
                    assert(put.last() == right.last());
                }
            }
        }
    }
}

/// To sort two sequences, one behind the other, is to sort each and merge
/// them.
pub proof fn lemma_sort_merged(first: Seq<FieldModel>, second: Seq<FieldModel>)
    ensures
        sort_entries(first + second) == merge_entries(sort_entries(first), sort_entries(second)),
    decreases second.len(),
{
    if second.len() == 0 {
        assert(first + second =~= first);
    } else {
        let fewer = second.drop_last();
        lemma_sort_merged(first, fewer);
        assert((first + second).drop_last() =~= first + fewer);
        assert((first + second).last() == second.last());
        lemma_insert_merged(sort_entries(first), sort_entries(fewer), second.last());
    }
}

/// Merges `left` and `right`, each of which is in the order of its keys.
fn merge_fields<'a>(left: &Vec<FieldEntry<'a>>, right: &Vec<FieldEntry<'a>>) -> (merged: Vec<FieldEntry<'a>>)
    ensures
        entry_models(merged@) == merge_entries(entry_models(left@), entry_models(right@)),
{
    let ghost lefts = entry_models(left@);
    let ghost rights = entry_models(right@);
    let ghost mut tail: Seq<FieldModel> = Seq::empty();
    let mut reversed: Vec<FieldEntry<'a>> = Vec::new();
    let mut i: usize = left.len();
    let mut j: usize = right.len();
    assert(lefts.take(i as int) =~= lefts);
    assert(rights.take(j as int) =~= rights);
    assert(merge_entries(lefts, rights) + tail =~= merge_entries(lefts, rights));
    while i > 0 || j > 0
        invariant
            i <= left@.len(),
            j <= right@.len(),
            lefts == entry_models(left@),
            rights == entry_models(right@),
            tail.len() == reversed@.len(),
            forall|k: int| 0 <= k < tail.len() ==> tail[k] == #[trigger] reversed@[reversed@.len() - 1 - k]@,
            merge_entries(lefts, rights) == merge_entries(lefts.take(i as int), rights.take(j as int)) + tail,
        decreases i + j,
    {
        let ghost head_left = lefts.take(i as int);
        let ghost head_right = rights.take(j as int);
        let ghost before = reversed@;
        let from_right = if j == 0 {
            false
        } else if i == 0 {
            true
        } else {
            compare_keys(left[i - 1].key, right[j - 1].key)
        };
        let entry = if from_right {
            j -= 1;
            right[j]
        } else {
            i -= 1;
            left[i]
        };
        reversed.push(entry);
        proof {
            let rest = merge_entries(lefts.take(i as int), rights.take(j as int));
            if from_right {
                assert(head_right.drop_last() =~= rights.take(j as int));
                assert(head_right.last() == entry@);
                if i == 0 {
                    lemma_merge_nothing(rights.take(j as int));
                    lemma_merge_nothing(head_right);
                }
            } else {
                assert(head_left.drop_last() =~= lefts.take(i as int));
                assert(head_left.last() == entry@);
            }
            assert(merge_entries(head_left, head_right) =~= rest.push(entry@));
            let longer = seq![entry@] + tail;
            assert(merge_entries(lefts, rights) =~= rest + longer);
            assert forall|k: int| 0 <= k < longer.len() implies longer[k] == #[trigger] reversed@[reversed@.len()
                - 1 - k]@ by {
                if k > 0 {
                    assert(longer[k] == tail[k - 1]);
                    assert(reversed@[reversed@.len() - 1 - k] == before[before.len() - 1 - (k - 1)]);
                }
            }
            tail = longer;
        }
    }
    assert(merge_entries(lefts, rights) =~= tail);
    let mut merged: Vec<FieldEntry<'a>> = Vec::new();
    let mut k: usize = reversed.len();
    while k > 0
        invariant
            k <= reversed@.len(),
            tail.len() == reversed@.len(),
            merged@.len() == reversed@.len() - k,
            forall|n: int| 0 <= n < tail.len() ==> tail[n] == #[trigger] reversed@[reversed@.len() - 1 - n]@,
            forall|n: int| 0 <= n < merged@.len() ==> (#[trigger] merged@[n])@ == tail[n],
        decreases k,
    {
        k -= 1;
        let ghost n = merged@.len() as int;
        let ghost before = merged@;
        merged.push(reversed[k]);
        assert forall|m: int| 0 <= m < merged@.len() implies (#[trigger] merged@[m])@ == tail[m] by {
            if m < n {
                assert(merged@[m] == before[m]);
            } else {
                assert(tail[n] == reversed@[reversed@.len() - 1 - n]@);
            }
        }
    }
    assert(entry_models(merged@) =~= tail);
    merged
}

/// Nothing, merged with a sequence, is the sequence.
pub proof fn lemma_merge_nothing(right: Seq<FieldModel>)
    ensures
        merge_entries(Seq::empty(), right) == right,
{
    if right.len() == 0 {
        assert(right =~= Seq::empty());
    }
}

/// Sorts the fields `fields[from..to]` by key.
fn sort_range<'a>(fields: &Vec<FieldEntry<'a>>, from: usize, to: usize) -> (sorted: Vec<FieldEntry<'a>>)
    requires
        from <= to <= fields@.len(),
    ensures
        entry_models(sorted@) == sort_entries(entry_models(fields@).subrange(from as int, to as int)),
    decreases to - from,
{
    let ghost models = entry_models(fields@).subrange(from as int, to as int);
    let mut sorted: Vec<FieldEntry<'a>> = Vec::new();
    if to - from == 0 {
        assert(entry_models(sorted@) =~= sort_entries(models));
        return sorted;
    }
    if to - from == 1 {
        sorted.push(fields[from]);
        proof {
            assert(models.drop_last() =~= Seq::empty());
            assert(sort_entries(models.drop_last()) =~= Seq::empty());
            assert(entry_models(sorted@) =~= sort_entries(models));
        }
        return sorted;
    }
    let middle = from + (to - from) / 2;
    let left = sort_range(fields, from, middle);
    let right = sort_range(fields, middle, to);
    proof {
        let first = entry_models(fields@).subrange(from as int, middle as int);
        let second = entry_models(fields@).subrange(middle as int, to as int);
        assert(models =~= first + second);
        lemma_sort_merged(first, second);
    }
    merge_fields(&left, &right)
}

/// Sorts `fields` by key; fields with the same key stay in the order in
/// which they came.
pub fn sort_fields<'a>(fields: &Vec<FieldEntry<'a>>) -> (sorted: Vec<FieldEntry<'a>>)
    ensures
        entry_models(sorted@) == sort_entries(entry_models(fields@)),
{
    assert(entry_models(fields@).subrange(0, fields@.len() as int) =~= entry_models(fields@));
    sort_range(fields, 0, fields.len())
}

} // verus!
