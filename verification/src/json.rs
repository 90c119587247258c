//! From JSON to Variant.

use vstd::prelude::*;
use crate::builder::{lemma_written_kept, VariantBuilder};
use crate::container::ints;
use crate::dictionary::{extends, field_id, lemma_dictionary_add, lemma_extends_transitive};
use crate::encoding::{
    child_parts, dictionary_of, error_cursor, first_child_error, first_error, joined, metadata_bytes,
    metadata_error, names_after, names_after_children, object_fields, starts, value_bytes,
};
use crate::error::VariantError;
use crate::fields::{entry_models, FieldEntry};
use crate::memory_allocator::{kept, lemma_kept_same, value_only, MemoryAllocator};
use crate::number::{classify, Number};
use crate::stability::{
    lemma_child_done, lemma_child_error_cursor_behind, lemma_child_parts_len, lemma_child_stopped,
    lemma_close_short_of_room, lemma_extends_self,
};
use crate::value::{JsonModel, JsonValue};

verus! {

/// The size that neither buffer may exceed where no other limit is given:
/// 16 MiB.
pub const DEFAULT_SIZE_LIMIT: usize = 16 * 1024 * 1024;

impl VariantBuilder {
    /// What encoding the document `tree` comes to. Whatever it comes to,
    /// the dictionary has only grown: a name keeps its id.
    ///
    /// Where nothing stops the encode, the value bytes of `tree` are
    /// written behind what was written, and the dictionary has the field
    /// names of `tree`.
    ///
    /// Where the encode stops, what was written before it began is still
    /// there, and `result` says why it stopped. Either for the reason that
    /// `first_error` gives, and the cursor then stands where `error_cursor`
    /// says. Or because the memory allocator, which is one that can fail,
    /// did not grow the value buffer; it is asked only where the buffer as
    /// it was is too short for the document: where the encode would find
    /// no room if the limit were the size of the buffer.
    pub open spec fn build_outcome<T: MemoryAllocator>(
        &self,
        allocator: &T,
        before: &VariantBuilder,
        allocator_before: &T,
        result: Result<(), VariantError>,
        tree: JsonModel,
    ) -> bool {
        let names = names_after(tree, before.dictionary@);
        let at = before.size as int;
        let limit = before.size_limit as int;
        &&& self.wf()
        &&& self.size_limit == before.size_limit
        &&& extends(self.dictionary@, before.dictionary@)
        &&& self.size <= allocator.value_bytes().len()
        &&& allocator.value_bytes().len() >= allocator_before.value_bytes().len()
        &&& value_only(allocator, allocator_before)
        &&& match result {
            Ok(()) => {
                &&& first_error(tree, names, at, limit) is None
                &&& self.appended(allocator, before, allocator_before, value_bytes(tree, names))
                &&& self.dictionary@ == names
            },
            Err(error) => {
                &&& before.size <= self.size
                &&& kept(before.written(allocator_before), allocator.value_bytes())
                &&& tree.child_count() == 0 ==> self.size == before.size
                &&& {
                    ||| first_error(tree, names, at, limit) == Some(error) && self.size == error_cursor(
                        tree,
                        names,
                        at,
                        limit,
                    )
                    ||| error == VariantError::AllocationFailed && !allocator_before.infallible()
                        && allocator_before.value_bytes().len() < limit && first_error(
                        tree,
                        names,
                        at,
                        allocator_before.value_bytes().len() as int,
                    ) == Some(VariantError::SizeLimitExceeded)
                }
            },
        }
    }

    /// Appends the number written as `text`: as an integer where it is one
    /// of 64 bits, else as a decimal where it has an exact decimal form,
    /// else as a double.
    pub fn append_number<T: MemoryAllocator>(&mut self, allocator: &mut T, text: &str) -> (result: Result<
        (),
        VariantError,
    >)
        requires
            old(self).ready(old(allocator)),
        ensures
            final(self).build_outcome(
                final(allocator),
                old(self),
                old(allocator),
                result,
                JsonModel::Number(text@),
            ),
    {
        let result = match classify(text) {
            Some(Number::Int(i)) => self.append_int(allocator, i),
            Some(Number::Decimal(unscaled, scale)) => self.append_decimal(allocator, unscaled, scale),
            Some(Number::Double(bits)) => self.append_double(allocator, bits),
            None => Err(VariantError::NumberUnparseable),
        };
        proof {
            lemma_extends_self(self.dictionary@);
            if result is Err {
                lemma_kept_same(old(allocator).value_bytes());
                lemma_written_kept(old(allocator).value_bytes(), allocator.value_bytes(), old(self).size as int);
            }
        }
        result
    }

    /// Encodes the document `json`: appends its value to the value buffer,
    /// children before the header of their container, and adds its field
    /// names to the dictionary.
    pub fn build<T: MemoryAllocator>(&mut self, allocator: &mut T, json: &JsonValue) -> (result: Result<
        (),
        VariantError,
    >)
        requires
            old(self).ready(old(allocator)),
        ensures
            final(self).build_outcome(final(allocator), old(self), old(allocator), result, json@),
        decreases json,
    {
        match json {
            JsonValue::Null => {
                let result = self.append_null(allocator);
                proof {
                    lemma_extends_self(self.dictionary@);
                    if result is Err {
                        lemma_written_kept(
                            old(allocator).value_bytes(),
                            allocator.value_bytes(),
                            old(self).size as int,
                        );
                    }
                }
                result
            },
            JsonValue::Bool(b) => {
                let result = self.append_boolean(allocator, *b);
                proof {
                    lemma_extends_self(self.dictionary@);
                    if result is Err {
                        lemma_written_kept(
                            old(allocator).value_bytes(),
                            allocator.value_bytes(),
                            old(self).size as int,
                        );
                    }
                }
                result
            },
            JsonValue::Number(n) => self.append_number(allocator, n.as_str()),
            JsonValue::String(s) => {
                let result = self.append_string(allocator, s.as_str());
                proof {
                    lemma_extends_self(self.dictionary@);
                    if result is Err {
                        lemma_written_kept(
                            old(allocator).value_bytes(),
                            allocator.value_bytes(),
                            old(self).size as int,
                        );
                    }
                }
                result
            },
            JsonValue::Array(arr) => {
                assert(json@ == array_model(arr@)) by {
                    assert(json@->Array_0 =~= array_model(arr@)->Array_0);
                }
                self.build_array(allocator, arr)
            },
            JsonValue::Object(mp) => {
                assert(json@ == object_model(mp@)) by {
                    assert(json@->Object_0 =~= object_model(mp@)->Object_0);
                }
                self.build_object(allocator, mp)
            },
        }
    }

    /// Encodes the array of the elements `arr`: the elements one after the
    /// other, then the header before them.
    fn build_array<T: MemoryAllocator>(&mut self, allocator: &mut T, arr: &Vec<JsonValue>) -> (result: Result<
        (),
        VariantError,
    >)
        requires
            old(self).ready(old(allocator)),
        ensures
            final(self).build_outcome(final(allocator), old(self), old(allocator), result, array_model(arr@)),
        decreases arr,
    {
        let ghost tree = array_model(arr@);
        let ghost names = self.dictionary@;
        let ghost limit = self.size_limit as int;
        let ghost written = self.written(allocator);
        let ghost room = allocator.value_bytes().len();
        let start = self.size;
        let mut offsets: Vec<usize> = Vec::new();
        let mut i: usize = 0;
        assert(ints(offsets@) =~= starts(child_parts(tree, names, 0)));
        assert(written + joined(child_parts(tree, names, 0), 0) =~= written);
        proof {
            lemma_extends_self(names);
        }
        while i < arr.len()
            invariant
                i <= arr@.len(),
                tree == array_model(arr@),
                self.ready(allocator),
                self.size_limit == limit,
                start <= self.size,
                written.len() == start,
                self.dictionary@ == names_after_children(tree, names, i as nat),
                extends(self.dictionary@, names),
                first_child_error(tree, self.dictionary@, start as int, limit, i as nat) is None,
                self.size == start + joined(child_parts(tree, self.dictionary@, i as nat), i as int).len(),
                self.written(allocator) == written + joined(child_parts(tree, self.dictionary@, i as nat), i as int),
                ints(offsets@) == starts(child_parts(tree, self.dictionary@, i as nat)),
                allocator.value_bytes().len() >= room,
                room == old(allocator).value_bytes().len(),
                written == old(self).written(old(allocator)),
                value_only(allocator, old(allocator)),
                names == old(self).dictionary@,
                limit == old(self).size_limit,
                start == old(self).size,
            decreases arr@.len() - i,
        {
            let ghost parts = child_parts(tree, self.dictionary@, i as nat);
            let ghost offsets_before = offsets@;
            offsets.push(self.size - start);
            let ghost size_before = self.size;
            let ghost room_before = allocator.value_bytes().len() as int;
            let ghost names_before = self.dictionary@;
            let result = self.build(allocator, &arr[i]);
            proof {
                lemma_extends_transitive(self.dictionary@, names_before, names);
            }
            match result {
                Ok(()) => {
                    proof {
                        lemma_child_done(tree, names, start as int, limit, i as nat);
                        let part = value_bytes(tree.child(i as int), self.dictionary@);
                        assert(self.written(allocator) =~= written + (joined(parts, i as int) + part));
                        assert(ints(offsets@) =~= ints(offsets_before).push((size_before - start) as int));
                    }
                },
                Err(error) => {
                    proof {
                        assert(allocator.value_bytes().take(start as int) =~= written);
                        lemma_child_stopped(
                            tree,
                            names,
                            start as int,
                            limit,
                            room as int,
                            i as nat,
                            error,
                            size_before as int,
                            room_before,
                            self.size as int,
                            !old(allocator).infallible(),
                        );
                    }
                    return Err(error);
                },
            }
            i += 1;
        }
        let ghost parts = child_parts(tree, self.dictionary@, i as nat);
        proof {
            lemma_child_parts_len(tree, self.dictionary@, i as nat);
        }
        let ghost written_before = self.written(allocator);
        let ghost bytes_before = allocator.value_bytes();
        let result = self.finish_writing_array(allocator, start, &offsets);
        proof {
            assert(written_before.take(start as int) =~= written);
            assert(written_before.skip(start as int) =~= joined(parts, i as int));
            if result is Ok {
                assert(self.written(allocator) =~= written + value_bytes(tree, self.dictionary@));
            } else {
                lemma_written_kept(bytes_before, allocator.value_bytes(), start as int);
                assert(bytes_before.take(start as int) =~= written);
                lemma_child_error_cursor_behind(tree, self.dictionary@, start as int, limit, i as nat);
                if result == Err::<(), VariantError>(VariantError::AllocationFailed) {
                    lemma_close_short_of_room(tree, self.dictionary@, start as int, limit, room as int);
                }
            }
        }
        result
    }

    /// Encodes the object of the members `mp`: the values one after the
    /// other, the name of each added to the dictionary before its value is
    /// encoded, then the header before them.
    fn build_object<T: MemoryAllocator>(&mut self, allocator: &mut T, mp: &Vec<(String, JsonValue)>) -> (result:
        Result<(), VariantError>)
        requires
            old(self).ready(old(allocator)),
        ensures
            final(self).build_outcome(final(allocator), old(self), old(allocator), result, object_model(mp@)),
        decreases mp,
    {
        let ghost tree = object_model(mp@);
        let ghost names = self.dictionary@;
        let ghost limit = self.size_limit as int;
        let ghost written = self.written(allocator);
        let ghost room = allocator.value_bytes().len();
        let mut fields: Vec<FieldEntry> = Vec::new();
        let start = self.size;
        let mut i: usize = 0;
        assert(written + joined(child_parts(tree, names, 0), 0) =~= written);
        proof {
            lemma_extends_self(names);
        }
        while i < mp.len()
            invariant
                i <= mp@.len(),
                tree == object_model(mp@),
                self.ready(allocator),
                self.size_limit == limit,
                start <= self.size,
                written.len() == start,
                self.dictionary@ == names_after_children(tree, names, i as nat),
                extends(self.dictionary@, names),
                first_child_error(tree, self.dictionary@, start as int, limit, i as nat) is None,
                self.size == start + joined(child_parts(tree, self.dictionary@, i as nat), i as int).len(),
                self.written(allocator) == written + joined(child_parts(tree, self.dictionary@, i as nat), i as int),
                fields@.len() == i,
                forall|j: int|
                    0 <= j < i ==> {
                        &&& (#[trigger] fields@[j]).key@ == tree.keys()[j]
                        &&& fields@[j].id == field_id(self.dictionary@, tree.keys()[j])
                        &&& fields@[j].offset == joined(child_parts(tree, self.dictionary@, i as nat), j).len()
                    },
                allocator.value_bytes().len() >= room,
                room == old(allocator).value_bytes().len(),
                written == old(self).written(old(allocator)),
                value_only(allocator, old(allocator)),
                names == old(self).dictionary@,
                limit == old(self).size_limit,
                start == old(self).size,
            decreases mp@.len() - i,
        {
            let ghost parts = child_parts(tree, self.dictionary@, i as nat);
            let ghost fields_before = fields@;
            let key: &str = mp[i].0.as_str();
            let ghost names_met = self.dictionary@;
            let id = self.add_key(key);
            fields.push(FieldEntry { key, id, offset: self.size - start });
            let ghost size_before = self.size;
            let ghost room_before = allocator.value_bytes().len() as int;
            let ghost names_before = self.dictionary@;
            let result = self.build(allocator, &mp[i].1);
            proof {
                lemma_dictionary_add(names_met, key@);
                lemma_extends_transitive(names_before, names_met, names);
                lemma_extends_transitive(self.dictionary@, names_before, names);
            }
            match result {
                Ok(()) => {
                    proof {
                        assert(tree.child_key(i as int) == Some(key@));
                        lemma_child_done(tree, names, start as int, limit, i as nat);
                        let part = value_bytes(tree.child(i as int), self.dictionary@);
                        assert(self.written(allocator) =~= written + (joined(parts, i as int) + part));
                        assert forall|j: int| 0 <= j < i + 1 implies {
                            &&& (#[trigger] fields@[j]).key@ == tree.keys()[j]
                            &&& fields@[j].id == field_id(self.dictionary@, tree.keys()[j])
                            &&& fields@[j].offset == joined(
                                child_parts(tree, self.dictionary@, (i + 1) as nat),
                                j,
                            ).len()
                        } by {
                            assert(tree.child_key(j) == Some(tree.keys()[j]));
                            assert(joined(parts.push(part), j) == joined(parts, j));
                            if j < i {
                                assert(fields@[j] == fields_before[j]);
                            }
                        }
                    }
                },
                Err(error) => {
                    proof {
                        assert(tree.child_key(i as int) == Some(key@));
                        assert(allocator.value_bytes().take(start as int) =~= written);
                        lemma_child_stopped(
                            tree,
                            names,
                            start as int,
                            limit,
                            room as int,
                            i as nat,
                            error,
                            size_before as int,
                            room_before,
                            self.size as int,
                            !old(allocator).infallible(),
                        );
                    }
                    return Err(error);
                },
            }
            i += 1;
        }
        let ghost parts = child_parts(tree, self.dictionary@, i as nat);
        proof {
            lemma_child_parts_len(tree, self.dictionary@, i as nat);
            assert(entry_models(fields@) =~= object_fields(tree.keys(), self.dictionary@, parts));
        }
        let ghost written_before = self.written(allocator);
        let ghost bytes_before = allocator.value_bytes();
        let result = self.finish_writing_object(allocator, start, &mut fields);
        proof {
            assert(written_before.take(start as int) =~= written);
            assert(written_before.skip(start as int) =~= joined(parts, i as int));
            if result is Ok {
                assert(self.written(allocator) =~= written + value_bytes(tree, self.dictionary@));
            } else {
                lemma_written_kept(bytes_before, allocator.value_bytes(), start as int);
                assert(bytes_before.take(start as int) =~= written);
                lemma_child_error_cursor_behind(tree, self.dictionary@, start as int, limit, i as nat);
                if result == Err::<(), VariantError>(VariantError::AllocationFailed) {
                    lemma_close_short_of_room(tree, self.dictionary@, start as int, limit, room as int);
                }
            }
        }
        result
    }
}

/// The array of the elements `items`.
pub open spec fn array_model(items: Seq<JsonValue>) -> JsonModel {
    JsonModel::Array(Seq::new(items.len(), |i: int| items[i]@))
}

/// The object of the members `members`.
pub open spec fn object_model(members: Seq<(String, JsonValue)>) -> JsonModel {
    JsonModel::Object(Seq::new(members.len(), |i: int| (members[i].0@, members[i].1@)))
}

/// Why the encode of the document `tree` under the size limit `limit`
/// stops, if it does, for a reason of its own: a number that cannot be
/// read, or a buffer that would have to hold more than `limit` bytes, the
/// value buffer first.
pub open spec fn encode_error(tree: JsonModel, limit: int) -> Option<VariantError> {
    match first_error(tree, dictionary_of(tree), 0, limit) {
        Some(error) => Some(error),
        None => metadata_error(dictionary_of(tree), limit),
    }
}

/// What the encode of the document `tree` under the size limit `limit`
/// comes to, from the buffers of `before` to those of `after`.
///
/// Where nothing stops the encode, the value buffer begins with the value
/// bytes of `tree` and the metadata buffer with the metadata bytes of its
/// dictionary, and `result` gives the sizes of the two. Where the encode
/// stops, `result` says why: for the reason that `encode_error` gives, or
/// because the memory allocator, which is one that can fail, did not grow a
/// buffer. It is asked to grow the value buffer only where the buffer as it
/// was is too short for the document, and the metadata buffer only where
/// the value is written and the buffer as it was is shorter than the
/// metadata. Nothing is written to the metadata buffer where the encode
/// stops.
pub open spec fn encode_outcome<T: MemoryAllocator>(
    tree: JsonModel,
    limit: int,
    before: &T,
    after: &T,
    result: Result<(usize, usize), VariantError>,
) -> bool {
    let names = dictionary_of(tree);
    match result {
        Ok((value_size, metadata_size)) => {
            &&& encode_error(tree, limit) is None
            &&& value_size == value_bytes(tree, names).len()
            &&& value_size <= after.value_bytes().len()
            &&& after.value_bytes().take(value_size as int) == value_bytes(tree, names)
            &&& metadata_size == metadata_bytes(names).len()
            &&& metadata_size <= after.metadata_bytes().len()
            &&& after.metadata_bytes().take(metadata_size as int) == metadata_bytes(names)
        },
        Err(error) => {
            &&& after.infallible() == before.infallible()
            &&& after.value_bytes().len() >= before.value_bytes().len()
            &&& kept(before.metadata_bytes(), after.metadata_bytes())
            &&& {
                ||| encode_error(tree, limit) == Some(error) && after.metadata_bytes() == before.metadata_bytes()
                ||| error == VariantError::AllocationFailed && !before.infallible() && before.value_bytes().len()
                    < limit && first_error(tree, names, 0, before.value_bytes().len() as int) == Some(
                    VariantError::SizeLimitExceeded,
                ) && after.metadata_bytes() == before.metadata_bytes()
                ||| error == VariantError::AllocationFailed && !before.infallible() && encode_error(tree, limit)
                    is None && before.metadata_bytes().len() < metadata_bytes(names).len()
            }
        },
    }
}

/// Encodes the document `json` into the buffers of `memory_allocator`,
/// neither of which may grow beyond `size_limit`. Returns the size of the
/// value and the size of the metadata.
pub fn encode<T: MemoryAllocator>(json: &JsonValue, memory_allocator: &mut T, size_limit: usize) -> (result:
    Result<(usize, usize), VariantError>)
    ensures
        encode_outcome(json@, size_limit as int, old(memory_allocator), final(memory_allocator), result),
{
    let mut vb = VariantBuilder::new(size_limit);
    let ghost names = dictionary_of(json@);
    proof {
        lemma_kept_same(memory_allocator.metadata_bytes());
    }
    match vb.build(memory_allocator, json) {
        Ok(()) => {},
        Err(error) => {
            return Err(error);
        },
    }
    assert(vb.written(memory_allocator) =~= value_bytes(json@, names));
    let ghost metadata_before = memory_allocator.metadata_bytes();
    match vb.write_metadata(memory_allocator) {
        Ok(metadata_size) => Ok((vb.size, metadata_size)),
        Err(error) => Err(error),
    }
}

/// `serde_json::Error`, which says why a text is no JSON document.
#[verifier::external_type_specification]
#[verifier::external_body]
pub struct ExJsonError(serde_json::Error);

/// `serde_json::Value`, a JSON document as `serde_json` reads it.
#[verifier::external_type_specification]
#[verifier::external_body]
pub struct ExJsonDocument(serde_json::Value);

/// The document that `serde_json::from_str` reads from `text`, numbers kept
/// as their text and the members of an object in the order in which the
/// text has them; `None` where it reads none.
pub uninterp spec fn parsed_json(text: Seq<char>) -> Option<JsonModel>;

/// Turns a document of `serde_json` into the tree of this library, node for
/// node: a number becomes the text that `serde_json::Number::as_str` gives,
/// the members of an object come in the order in which
/// `serde_json::Map::iter` hands them out. Nothing is claimed of the result
/// here.
#[verifier::external_body]
fn tree_of(document: &serde_json::Value) -> JsonValue {
    match document {
        serde_json::Value::Null => JsonValue::Null,
        serde_json::Value::Bool(b) => JsonValue::Bool(*b),
        serde_json::Value::Number(n) => JsonValue::Number(n.as_str().to_owned()),
        serde_json::Value::String(s) => JsonValue::String(s.clone()),
        serde_json::Value::Array(items) => JsonValue::Array(items.iter().map(tree_of).collect()),
        serde_json::Value::Object(members) => JsonValue::Object(
            members.iter().map(|(key, value)| (key.clone(), tree_of(value))).collect(),
        ),
    }
}

/// `serde_json::from_str`, with `serde_json::Value` as the type to read:
/// the text as a JSON document, or the reason why it is none. Nothing is
/// claimed of the document but that it depends on the text alone.
#[verifier::external_body]
fn parse_json(json: &str) -> (result: Result<JsonValue, serde_json::Error>)
    ensures
        match result {
            Ok(document) => parsed_json(json@) == Some(document@),
            Err(_) => parsed_json(json@) is None,
        },
{
    match serde_json::from_str::<serde_json::Value>(json) {
        Ok(document) => Ok(tree_of(&document)),
        Err(error) => Err(error),
    }
}

/// What `json_to_variant_with_limit` comes to for the document that was
/// read, if one was: the encode of that document, with the sizes handed out
/// through `value_size` and `metadata_size`, which keep what they held
/// where the encode fails. A text that is no JSON document is an error, and
/// the buffers are not touched for it.
pub open spec fn variant_outcome<T: MemoryAllocator>(
    document: Option<JsonModel>,
    limit: int,
    before: &T,
    after: &T,
    result: Result<(), VariantError>,
    sizes_before: (usize, usize),
    sizes: (usize, usize),
) -> bool {
    match result {
        Ok(()) => document matches Some(tree) && encode_outcome(tree, limit, before, after, Ok(sizes)),
        Err(error) => {
            &&& sizes == sizes_before
            &&& match document {
                Some(tree) => encode_outcome(tree, limit, before, after, Err(error)),
                None => {
                    &&& error == VariantError::InvalidJson
                    &&& after.value_bytes() == before.value_bytes()
                    &&& after.metadata_bytes() == before.metadata_bytes()
                    &&& after.infallible() == before.infallible()
                },
            }
        },
    }
}

/// Constructs a Variant from the JSON text `json`: writes its value and its
/// metadata to the buffers of `memory_allocator`, neither of which may grow
/// beyond `size_limit`, and their sizes to `value_size` and
/// `metadata_size`.
pub fn json_to_variant_with_limit<T: MemoryAllocator>(
    json: &str,
    memory_allocator: &mut T,
    size_limit: usize,
    value_size: &mut usize,
    metadata_size: &mut usize,
) -> (result: Result<(), VariantError>)
    ensures
        variant_outcome(
            parsed_json(json@),
            size_limit as int,
            old(memory_allocator),
            final(memory_allocator),
            result,
            (*old(value_size), *old(metadata_size)),
            (*final(value_size), *final(metadata_size)),
        ),
{
    let document = match parse_json(json) {
        Ok(document) => document,
        Err(_) => {
            return Err(VariantError::InvalidJson);
        },
    };
    match encode(&document, memory_allocator, size_limit) {
        Ok((value, metadata)) => {
            *value_size = value;
            *metadata_size = metadata;
            Ok(())
        },
        Err(error) => Err(error),
    }
}

/// Constructs a Variant from the JSON text `json`: writes its value and its
/// metadata to the buffers of `memory_allocator`, neither of which may grow
/// beyond 16 MiB, and their sizes to `value_size` and `metadata_size`.
pub fn json_to_variant<T: MemoryAllocator>(
    json: &str,
    memory_allocator: &mut T,
    value_size: &mut usize,
    metadata_size: &mut usize,
) -> (result: Result<(), VariantError>)
    ensures
        variant_outcome(
            parsed_json(json@),
            DEFAULT_SIZE_LIMIT as int,
            old(memory_allocator),
            final(memory_allocator),
            result,
            (*old(value_size), *old(metadata_size)),
            (*final(value_size), *final(metadata_size)),
        ),
{
    json_to_variant_with_limit(json, memory_allocator, DEFAULT_SIZE_LIMIT, value_size, metadata_size)
}

} // verus!
