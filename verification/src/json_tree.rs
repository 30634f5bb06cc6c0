//! A JSON value as the grammar reader sees it.

use vstd::prelude::*;

verus! {

/// A value of the `json` crate. Nothing of its inside is visible here.
#[verifier::external_type_specification]
#[verifier::external_body]
pub struct ExJsonValue(json::JsonValue);

/// What the reader needs of a JSON value: its kind, its two texts, its entries where it
/// is an object and its members where it is an array, each entry and member again as a
/// tree.
#[derive(Debug, PartialEq, Eq)]
pub struct JsonTree {
    /// Whether the value is an object.
    pub object: bool,
    /// Whether the value is an array.
    pub array: bool,
    /// Whether the value is a string.
    pub string: bool,
    /// The value written as compact JSON.
    pub compact: String,
    /// The value as its `Display` writes it: a string bare, without quotes or escapes.
    pub plain: String,
    /// The entries of an object, in the order in which they were inserted; empty for
    /// any other value.
    pub entries: Vec<(String, JsonTree)>,
    /// The members of an array, in order; empty for any other value.
    pub members: Vec<JsonTree>,
}

/// The mathematical model of a [`JsonTree`].
pub struct JsonTreeView {
    pub object: bool,
    pub array: bool,
    pub string: bool,
    pub compact: Seq<char>,
    pub plain: Seq<char>,
    pub entries: Seq<(Seq<char>, JsonTreeView)>,
    pub members: Seq<JsonTreeView>,
}

/// The models of a list of trees, in order.
pub open spec fn tree_views(trees: Seq<JsonTree>) -> Seq<JsonTreeView> {
    trees.map_values(|t: JsonTree| t@)
}

/// The models of a list of entries, in order.
pub open spec fn entry_views(entries: Seq<(String, JsonTree)>) -> Seq<(Seq<char>, JsonTreeView)> {
    entries.map_values(|e: (String, JsonTree)| (e.0@, e.1@))
}

impl JsonTree {
    pub open spec fn model(&self) -> JsonTreeView
        decreases self,
    {
        JsonTreeView {
            object: self.object,
            array: self.array,
            string: self.string,
            compact: self.compact@,
            plain: self.plain@,
            entries: Seq::new(
                self.entries@.len(),
                |i: int|
                    if 0 <= i < self.entries@.len() {
                        (self.entries@[i].0@, self.entries@[i].1.model())
                    } else {
                        arbitrary()
                    },
            ),
            members: Seq::new(
                self.members@.len(),
                |i: int|
                    if 0 <= i < self.members@.len() {
                        self.members@[i].model()
                    } else {
                        arbitrary()
                    },
            ),
        }
    }

    /// The model of a tree holds the models of its entries and of its members.
    pub proof fn lemma_view(&self)
        ensures
            self@.object == self.object,
            self@.array == self.array,
            self@.string == self.string,
            self@.compact == self.compact@,
            self@.plain == self.plain@,
            self@.entries == entry_views(self.entries@),
            self@.members == tree_views(self.members@),
    {
        assert(self@.entries =~= entry_views(self.entries@));
        assert(self@.members =~= tree_views(self.members@));
    }
}

impl View for JsonTree {
    type V = JsonTreeView;

    open spec fn view(&self) -> JsonTreeView {
        self.model()
    }
}

/// Whether a tree can be the picture of a JSON value: it is of one kind at most, only an
/// object has entries and only an array has members, no two entries have the same key,
/// and the same holds of every entry and member.
pub open spec fn coherent(tree: JsonTreeView) -> bool
    decreases tree,
{
    &&& !(tree.object && tree.array)
    &&& !(tree.object && tree.string)
    &&& !(tree.array && tree.string)
    &&& !tree.object ==> tree.entries.len() == 0
    &&& !tree.array ==> tree.members.len() == 0
    &&& forall|i: int, j: int|
        0 <= i < j < tree.entries.len() ==> (#[trigger] tree.entries[i]).0 != (
        #[trigger] tree.entries[j]).0
    &&& forall|i: int| 0 <= i < tree.entries.len() ==> coherent((#[trigger] tree.entries[i]).1)
    &&& forall|i: int| 0 <= i < tree.members.len() ==> coherent(#[trigger] tree.members[i])
}

/// What a value of the `json` crate holds, as a tree.
pub uninterp spec fn json_tree(value: json::JsonValue) -> JsonTreeView;

/// Reads a value of the `json` crate into a tree, with `JsonValue::is_object`,
/// `JsonValue::is_array`, `JsonValue::is_string`, `JsonValue::dump`, the value's
/// `Display` (through `to_string`), `JsonValue::entries` and `JsonValue::members`, and
/// the same for every entry and member.
///
/// The contract claims that the tree depends on the value alone, and gives it the name
/// [`json_tree`]. It also claims that the tree is [`coherent`]: the three kinds exclude
/// each other, `entries` is empty for anything but an object and `members` for anything
/// but an array, and an object of the `json` crate never holds one key twice, since an
/// insertion under a key that is there replaces the value.
///
/// Both texts are written for every value of the tree, so reading a value costs its
/// size times its depth.
#[verifier::external_body]
pub(crate) fn snapshot(value: &json::JsonValue) -> (tree: JsonTree)
    ensures
        tree@ == json_tree(*value),
        coherent(tree@),
{
    JsonTree {
        object: value.is_object(),
        array: value.is_array(),
        string: value.is_string(),
        compact: value.dump(),
        plain: value.to_string(),
        entries: value.entries().map(|(key, entry)| (key.to_string(), snapshot(entry))).collect(),
        members: value.members().map(snapshot).collect(),
    }
}

} // verus!
