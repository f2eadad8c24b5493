//! Rows of a table, each a set of named fields, and the selections that the
//! graph construction makes from them.

use crate::text::{same_text, text_before, text_less, text_less_total, text_less_transitive};
use vstd::prelude::*;

verus! {

/// A field of a row as its name and its value, each as its characters.
pub open spec fn field_view(field: (String, String)) -> (Seq<char>, Seq<char>) {
    (field.0@, field.1@)
}

/// Whether some field among `fields` is named `name`.
pub open spec fn names(fields: Seq<(String, String)>, name: Seq<char>) -> bool {
    exists|i: int| 0 <= i < fields.len() && (#[trigger] fields[i]).0@ == name
}

/// Position of the field named `name` among `fields`.
pub open spec fn position_of(fields: Seq<(String, String)>, name: Seq<char>) -> int {
    choose|i: int| 0 <= i < fields.len() && (#[trigger] fields[i]).0@ == name
}

/// Whether no two of `fields` have the same name.
pub open spec fn names_differ(fields: Seq<(String, String)>) -> bool {
    forall|i: int, j: int|
        0 <= i < j < fields.len() ==> (#[trigger] fields[i]).0@ != (#[trigger] fields[j]).0@
}

/// The fields as a map from name to value.
pub open spec fn fields_map(fields: Seq<(String, String)>) -> Map<Seq<char>, Seq<char>> {
    Map::new(
        |name: Seq<char>| names(fields, name),
        |name: Seq<char>| fields[position_of(fields, name)].1@,
    )
}

/// One row of a table: values by field name, every name at most once.
#[derive(Debug)]
pub struct Record {
    fields: Vec<(String, String)>,
}

impl View for Record {
    type V = Map<Seq<char>, Seq<char>>;

    closed spec fn view(&self) -> Map<Seq<char>, Seq<char>> {
        fields_map(self.fields@)
    }
}

impl Record {
    /// The fields in the order in which their names first came in.
    pub closed spec fn listing(&self) -> Seq<(String, String)> {
        self.fields@
    }

    /// The fields as texts, in the order in which their names first came in.
    pub open spec fn entries(&self) -> Seq<(Seq<char>, Seq<char>)> {
        Seq::new(self.listing().len(), |i: int| field_view(self.listing()[i]))
    }

    /// What holds of every row: no name occurs twice, and the row's view is
    /// the map that its fields make.
    #[verifier::type_invariant]
    pub open spec fn well_formed(&self) -> bool {
        &&& names_differ(self.listing())
        &&& self@ == fields_map(self.listing())
    }

    /// The row without fields.
    pub fn new() -> (row: Self)
        ensures
            row@ == Map::<Seq<char>, Seq<char>>::empty(),
            row.listing().len() == 0,
    {
        Record { fields: Vec::new() }
    }

    /// Index of the field named `name`, if there is one.
    fn find(&self, name: &str) -> (found: Option<usize>)
        ensures
            found is Some <==> names(self.listing(), name@),
            found matches Some(i) ==> i < self.listing().len() && self.listing()[i as int].0@
                == name@ && i == position_of(self.listing(), name@),
    {
        proof {
            use_type_invariant(self);
        }
        let mut i: usize = 0;
        while i < self.fields.len()
            invariant
                i <= self.fields@.len(),
                names_differ(self.fields@),
                forall|j: int| 0 <= j < i ==> (#[trigger] self.fields@[j]).0@ != name@,
            decreases self.fields@.len() - i,
        {
            if same_text(self.fields[i].0.as_str(), name) {
                return Some(i);
            }
            i += 1;
        }
        None
    }

    /// Sets the field named `name` to `value`, whether or not the row had
    /// such a field.
    pub fn insert(&mut self, name: String, value: String)
        ensures
            final(self)@ == old(self)@.insert(name@, value@),
            final(self).entries() == (if names(old(self).listing(), name@) {
                old(self).entries().update(
                    position_of(old(self).listing(), name@),
                    (name@, value@),
                )
            } else {
                old(self).entries().push((name@, value@))
            }),
    {
        proof {
            use_type_invariant(&*self);
        }
        let found = self.find(name.as_str());
        let mut taken = Record::new();
        std::mem::swap(self, &mut taken);
        let Record { mut fields } = taken;
        let ghost before = fields@;
        match found {
            Some(i) => {
                fields.set(i, (name, value));
                proof {
                    let after = fields@;
                    assert forall|key: Seq<char>| names(before, key) <==> names(after, key) by {
                        if names(before, key) {
                            let j = position_of(before, key);
                            assert(after[j].0@ == key);
                        }
                    }
                }
            },
            None => {
                fields.push((name, value));
                proof {
                    let after = fields@;
                    let last = before.len() as int;
                    assert(after[last].0@ == name@);
                    assert forall|key: Seq<char>| names(after, key) <==> (names(before, key) || key
                        == name@) by {
                        if names(before, key) {
                            let j = position_of(before, key);
                            assert(after[j].0@ == key);
                        }
                    }
                }
            },
        }
        *self = Record { fields };
    }

    /// The value of the field named `name`, if the row has such a field.
    pub fn get(&self, name: &str) -> (value: Option<&String>)
        ensures
            value is Some <==> self@.contains_key(name@),
            value matches Some(text) ==> text@ == self@[name@],
    {
        proof {
            use_type_invariant(self);
        }
        match self.find(name) {
            Some(i) => Some(&self.fields[i].1),
            None => None,
        }
    }

    /// How many fields the row has.
    pub fn len(&self) -> (count: usize)
        ensures
            count == self.listing().len(),
    {
        self.fields.len()
    }

    /// The fields as pairs of name and value.
    pub fn fields(&self) -> (fields: &Vec<(String, String)>)
        ensures
            fields@ == self.listing(),
            names_differ(fields@),
            self@ == fields_map(fields@),
    {
        proof {
            use_type_invariant(self);
        }
        &self.fields
    }
}

impl Clone for Record {
    /// A row with the same fields.
    fn clone(&self) -> (copy: Self)
        ensures
            copy@ == self@,
            copy.entries() == self.entries(),
    {
        proof {
            use_type_invariant(self);
        }
        let mut fields: Vec<(String, String)> = Vec::new();
        let mut i: usize = 0;
        while i < self.fields.len()
            invariant
                i <= self.fields@.len(),
                fields@.len() == i,
                forall|j: int|
                    0 <= j < i ==> field_view(#[trigger] fields@[j]) == field_view(self.fields@[j]),
            decreases self.fields@.len() - i,
        {
            let name = self.fields[i].0.clone();
            let value = self.fields[i].1.clone();
            fields.push((name, value));
            i += 1;
        }
        proof {
            let ours = self.fields@;
            let theirs = fields@;
            assert forall|key: Seq<char>| names(ours, key) <==> names(theirs, key) by {
                if names(ours, key) {
                    let j = position_of(ours, key);
                    assert(theirs[j].0@ == key);
                }
            }
        }
        Record { fields }
    }
}

/// The rows as maps.
pub open spec fn rows_view(rows: Seq<Record>) -> Seq<Map<Seq<char>, Seq<char>>> {
    Seq::new(rows.len(), |i: int| rows[i]@)
}

/// Whether `row` has the field `attribute` with the value `value`.
pub open spec fn matches_attribute(
    row: Map<Seq<char>, Seq<char>>,
    attribute: Seq<char>,
    value: Seq<char>,
) -> bool {
    row.contains_key(attribute) && row[attribute] == value
}

/// The rows that have the field `attribute` with the value `value`, in the
/// order of `rows`.
pub open spec fn selected_rows(
    rows: Seq<Map<Seq<char>, Seq<char>>>,
    attribute: Seq<char>,
    value: Seq<char>,
) -> Seq<Map<Seq<char>, Seq<char>>>
    decreases rows.len(),
{
    if rows.len() == 0 {
        Seq::empty()
    } else {
        let before = selected_rows(rows.drop_last(), attribute, value);
        if matches_attribute(rows.last(), attribute, value) {
            before.push(rows.last())
        } else {
            before
        }
    }
}

/// The rows of `dataset` whose field `attribute` has the value `value`, in
/// their order. A row without that field is left out.
pub fn filter_by_attribute(dataset: &[Record], attribute: &str, value: &str) -> (chosen: Vec<
    Record,
>)
    ensures
        rows_view(chosen@) == selected_rows(rows_view(dataset@), attribute@, value@),
{
    let mut chosen: Vec<Record> = Vec::new();
    let mut i: usize = 0;
    while i < dataset.len()
        invariant
            i <= dataset@.len(),
            rows_view(chosen@) == selected_rows(
                rows_view(dataset@).take(i as int),
                attribute@,
                value@,
            ),
        decreases dataset@.len() - i,
    {
        let row = &dataset[i];
        assert(rows_view(dataset@).take(i + 1).drop_last() =~= rows_view(dataset@).take(i as int));
        let keep = match row.get(attribute) {
            Some(text) => same_text(text.as_str(), value),
            None => false,
        };
        if keep {
            chosen.push(row.clone());
        }
        i += 1;
    }
    assert(rows_view(dataset@).take(i as int) =~= rows_view(dataset@));
    chosen
}

/// The values that the field `attribute` takes in `rows`.
pub open spec fn attribute_values(rows: Seq<Map<Seq<char>, Seq<char>>>, attribute: Seq<char>) -> Set<
    Seq<char>,
> {
    Set::new(
        |value: Seq<char>|
            exists|i: int|
                0 <= i < rows.len() && matches_attribute(#[trigger] rows[i], attribute, value),
    )
}

/// The texts as their characters.
pub open spec fn texts_view(texts: Seq<String>) -> Seq<Seq<char>> {
    Seq::new(texts.len(), |i: int| texts[i]@)
}

/// Whether every text of `texts` comes before all that follow it.
pub open spec fn strictly_ascending(texts: Seq<Seq<char>>) -> bool {
    forall|i: int, j: int| 0 <= i < j < texts.len() ==> text_less(texts[i], texts[j])
}

/// The values that the field `attribute` takes in `dataset`, each once, in
/// ascending order.
pub fn extract_unique_values(dataset: &[Record], attribute: &str) -> (values: Vec<String>)
    ensures
        strictly_ascending(texts_view(values@)),
        texts_view(values@).to_set() == attribute_values(rows_view(dataset@), attribute@),
{
    let mut values: Vec<String> = Vec::new();
    let mut i: usize = 0;
    while i < dataset.len()
        invariant
            i <= dataset@.len(),
            strictly_ascending(texts_view(values@)),
            texts_view(values@).to_set() == attribute_values(
                rows_view(dataset@).take(i as int),
                attribute@,
            ),
        decreases dataset@.len() - i,
    {
        let ghost rows = rows_view(dataset@);
        let ghost before = texts_view(values@);
        match dataset[i].get(attribute) {
            Some(text) => {
                let mut at: usize = 0;
                while at < values.len() && text_before(values[at].as_str(), text.as_str())
                    invariant
                        at <= values@.len(),
                        before == texts_view(values@),
                        forall|j: int| 0 <= j < at ==> text_less(#[trigger] before[j], text@),
                    decreases values@.len() - at,
                {
                    at += 1;
                }
                let known = at < values.len() && same_text(values[at].as_str(), text.as_str());
                if !known {
                    proof {
                        if at < before.len() {
                            text_less_total(before[at as int], text@);
                        }
                        assert forall|j: int| at <= j < before.len() implies text_less(
                            text@,
                            #[trigger] before[j],
                        ) by {
                            if at < j {
                                text_less_transitive(text@, before[at as int], before[j]);
                            }
                        }
                    }
                    values.insert(at, text.clone());
                    proof {
                        let after = texts_view(values@);
                        assert(after =~= before.insert(at as int, text@));
                        assert forall|value: Seq<char>| after.to_set().contains(value) <==> (
                        before.to_set().contains(value) || value == text@) by {
                            if before.to_set().contains(value) {
                                let j = choose|j: int| 0 <= j < before.len() && before[j] == value;
                                if j < at {
                                    assert(after[j] == value);
                                } else {
                                    assert(after[j + 1] == value);
                                }
                            }
                            if value == text@ {
                                assert(after[at as int] == value);
                            }
                        }
                    }
                } else {
                    assert(before[at as int] == text@);
                }
                proof {
                    let after = texts_view(values@);
                    assert forall|value: Seq<char>| after.to_set().contains(value)
                        <==> attribute_values(rows.take(i + 1), attribute@).contains(value) by {
                        lemma_values_step(rows, i as int, attribute@, value);
                    }
                }
            },
            None => {},
        }
        i += 1;
    }
    assert(rows_view(dataset@).take(i as int) =~= rows_view(dataset@));
    values
}

/// A value is among those of the first `i + 1` rows exactly when it is among
/// those of the first `i` or is the value of row `i`.
proof fn lemma_values_step(
    rows: Seq<Map<Seq<char>, Seq<char>>>,
    i: int,
    attribute: Seq<char>,
    value: Seq<char>,
)
    requires
        0 <= i < rows.len(),
    ensures
        attribute_values(rows.take(i + 1), attribute).contains(value) <==> (attribute_values(
            rows.take(i),
            attribute,
        ).contains(value) || matches_attribute(rows[i], attribute, value)),
{
    if matches_attribute(rows[i], attribute, value) {
        assert(matches_attribute(rows.take(i + 1)[i], attribute, value));
    }
}

} // verus!
