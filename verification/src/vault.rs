//! Named forms of prompts and answers, and their flat serialization.

use crate::bytes::boxed_copy;
use crate::bytes::same_bytes;
use crate::bytes::into_boxed;
use crate::error::Error;
use crate::format::fields_of;
use crate::format::is_listing;
use crate::format::is_storable;
use crate::format::lemma_joined_take;
use crate::format::lemma_load_inverts_dump;
use crate::format::lemma_parsed_rows_fail;
use crate::format::parsed;
use crate::format::parsed_row;
use crate::format::parsed_rows;
use crate::format::row_of;
use crate::format::serialized;
use crate::format::tokens_of;
use crate::format::FieldView;
use crate::format::Forms;
use crate::format::NEWLINE;
use crate::format::TAB;
use crate::split::joined;
use crate::split::pieces;
use crate::split::split;
use crate::split::views;
use vstd::std_specs::cmp::PartialEqSpecImpl;
use vstd::prelude::*;

verus! {

/// A prompt and the answer to fill in, such as `password` and `hunter2`.
#[derive(Debug, PartialEq, Eq)]
pub struct Field {
    /// What the form asks for.
    pub prompt: Box<[u8]>,
    /// What to answer.
    pub answer: Box<[u8]>,
}

/// A form is a list of fields. Their order matters and is kept.
pub type Form = Box<[Field]>;

impl View for Field {
    type V = FieldView;

    open spec fn view(&self) -> FieldView {
        FieldView { prompt: self.prompt@, answer: self.answer@ }
    }
}

impl Clone for Field {
    fn clone(&self) -> (copy: Self)
        ensures
            copy@ == self@,
    {
        Field { prompt: boxed_copy(&self.prompt), answer: boxed_copy(&self.answer) }
    }
}

/// The fields of a form, as byte strings.
pub open spec fn form_view(form: Seq<Field>) -> Seq<FieldView> {
    Seq::new(form.len(), |i: int| form[i]@)
}

#[derive(Debug)]
struct Entry {
    name: Box<[u8]>,
    form: Form,
}

/// A mapping from names to forms. No form has the empty name.
#[derive(Debug)]
pub struct Vault {
    entries: Vec<Entry>,
}

/// The names of `entries`, in order.
spec fn names_of(entries: Seq<Entry>) -> Seq<Seq<u8>> {
    Seq::new(entries.len(), |i: int| entries[i].name@)
}

/// The mapping that `entries` with distinct names stand for.
spec fn forms_of(entries: Seq<Entry>) -> Forms {
    Map::new(
        |name: Seq<u8>| exists|i: int| 0 <= i < entries.len() && entries[i].name@ == name,
        |name: Seq<u8>|
            form_view(
                entries[choose|i: int| 0 <= i < entries.len() && entries[i].name@ == name].form@,
            ),
    )
}

/// Whether the names of `entries` are distinct and not empty.
spec fn distinct_and_named(entries: Seq<Entry>) -> bool {
    &&& forall|i: int| 0 <= i < entries.len() ==> (#[trigger] entries[i]).name@.len() > 0
    &&& forall|i: int, j: int|
        0 <= i < j < entries.len() ==> (#[trigger] entries[i]).name@ != (
        #[trigger] entries[j]).name@
}

/// What `forms_of` holds for each entry, and how large it is.
proof fn lemma_forms_of(entries: Seq<Entry>)
    requires
        distinct_and_named(entries),
    ensures
        forms_of(entries).dom() == names_of(entries).to_set(),
        forms_of(entries).dom().finite(),
        forms_of(entries).dom().len() == entries.len(),
        names_of(entries).no_duplicates(),
        !forms_of(entries).contains_key(Seq::empty()),
        forall|i: int|
            0 <= i < entries.len() ==> forms_of(entries).contains_key(
                (#[trigger] entries[i]).name@,
            ) && forms_of(entries)[entries[i].name@] == form_view(entries[i].form@),
{
    let names = names_of(entries);
    let forms = forms_of(entries);
    assert forall|name: Seq<u8>| forms.dom().contains(name) <==> names.to_set().contains(
        name,
    ) by {
        if forms.dom().contains(name) {
            let i = choose|i: int| 0 <= i < entries.len() && entries[i].name@ == name;
            assert(names[i] == name);
        }
        if names.to_set().contains(name) {
            let i = choose|i: int| 0 <= i < names.len() && names[i] == name;
            assert(entries[i].name@ == name);
        }
    }
    assert(forms.dom() =~= names.to_set());
    assert(names.no_duplicates()) by {
        assert forall|i: int, j: int|
            0 <= i < names.len() && 0 <= j < names.len() && i != j implies names[i]
            != names[j] by {
            if i < j {
                assert(entries[i].name@ != entries[j].name@);
            } else {
                assert(entries[j].name@ != entries[i].name@);
            }
        }
    }
    names.unique_seq_to_set();
    vstd::seq_lib::seq_to_set_is_finite(names);
    assert forall|i: int| 0 <= i < entries.len() implies forms.contains_key(
        (#[trigger] entries[i]).name@,
    ) && forms[entries[i].name@] == form_view(entries[i].form@) by {
        let name = entries[i].name@;
        let j = choose|j: int| 0 <= j < entries.len() && entries[j].name@ == name;
        if i < j {
            assert(entries[i].name@ != entries[j].name@);
        } else if j < i {
            assert(entries[j].name@ != entries[i].name@);
        }
    }
    if forms.contains_key(Seq::empty()) {
        let i = choose|i: int| 0 <= i < entries.len() && entries[i].name@ == Seq::<u8>::empty();
        assert(entries[i].name@.len() > 0);
    }
}

/// The witness that `name` is a key of `forms_of(entries)`.
proof fn lemma_key_has_entry(entries: Seq<Entry>, name: Seq<u8>) -> (i: int)
    requires
        distinct_and_named(entries),
        forms_of(entries).contains_key(name),
    ensures
        0 <= i < entries.len(),
        entries[i].name@ == name,
        forms_of(entries)[name] == form_view(entries[i].form@),
{
    lemma_forms_of(entries);
    choose|i: int| 0 <= i < entries.len() && entries[i].name@ == name
}

/// Replacing the form of an entry is an insertion under its name.
proof fn lemma_forms_of_update(entries: Seq<Entry>, i: int, entry: Entry)
    requires
        distinct_and_named(entries),
        0 <= i < entries.len(),
        entry.name@ == entries[i].name@,
    ensures
        distinct_and_named(entries.remove(i)),
        distinct_and_named(entries.update(i, entry)),
        entries.remove(i).insert(i, entry) == entries.update(i, entry),
        forms_of(entries.update(i, entry)) == forms_of(entries).insert(
            entry.name@,
            form_view(entry.form@),
        ),
{
    let updated = entries.update(i, entry);
    let removed = entries.remove(i);
    assert(removed.insert(i, entry) =~= updated);
    assert(distinct_and_named(removed)) by {
        assert forall|a: int, b: int| 0 <= a < b < removed.len() implies (
        #[trigger] removed[a]).name@ != (#[trigger] removed[b]).name@ by {
            let a0 = if a < i { a } else { a + 1 };
            let b0 = if b < i { b } else { b + 1 };
            assert(entries[a0].name@ != entries[b0].name@);
        }
    }
    assert(distinct_and_named(updated)) by {
        assert forall|a: int, b: int| 0 <= a < b < updated.len() implies (
        #[trigger] updated[a]).name@ != (#[trigger] updated[b]).name@ by {
            assert(entries[a].name@ != entries[b].name@);
        }
    }
    lemma_forms_of(entries);
    lemma_forms_of(updated);
    let expected = forms_of(entries).insert(entry.name@, form_view(entry.form@));
    assert forall|name: Seq<u8>| forms_of(updated).contains_key(name) <==> expected.contains_key(
        name,
    ) by {
        if forms_of(updated).contains_key(name) {
            let j = lemma_key_has_entry(updated, name);
            assert(entries[j].name@ == name);
        }
        if expected.contains_key(name) && name != entry.name@ {
            let j = lemma_key_has_entry(entries, name);
            assert(updated[j].name@ == name);
        }
        if name == entry.name@ {
            assert(updated[i].name@ == name);
        }
    }
    assert forall|name: Seq<u8>| forms_of(updated).contains_key(name) implies forms_of(
        updated,
    )[name] == expected[name] by {
        let j = lemma_key_has_entry(updated, name);
        if j != i {
            assert(entries[j].name@ == name);
            assert(updated[j] == entries[j]);
        }
    }
    assert(forms_of(updated) =~= expected);
}

/// Adding an entry with a new name is an insertion under that name.
proof fn lemma_forms_of_push(entries: Seq<Entry>, entry: Entry)
    requires
        distinct_and_named(entries),
        entry.name@.len() > 0,
        forall|i: int| 0 <= i < entries.len() ==> (#[trigger] entries[i]).name@ != entry.name@,
    ensures
        distinct_and_named(entries.push(entry)),
        forms_of(entries.push(entry)) == forms_of(entries).insert(
            entry.name@,
            form_view(entry.form@),
        ),
{
    let pushed = entries.push(entry);
    assert(distinct_and_named(pushed)) by {
        assert forall|a: int, b: int| 0 <= a < b < pushed.len() implies (
        #[trigger] pushed[a]).name@ != (#[trigger] pushed[b]).name@ by {
            if b < entries.len() {
                assert(entries[a].name@ != entries[b].name@);
            } else {
                assert(entries[a].name@ != entry.name@);
            }
        }
    }
    lemma_forms_of(entries);
    lemma_forms_of(pushed);
    let expected = forms_of(entries).insert(entry.name@, form_view(entry.form@));
    assert forall|name: Seq<u8>| forms_of(pushed).contains_key(name) <==> expected.contains_key(
        name,
    ) by {
        if forms_of(pushed).contains_key(name) {
            let j = lemma_key_has_entry(pushed, name);
            if j < entries.len() {
                assert(entries[j].name@ == name);
            }
        }
        if expected.contains_key(name) && name != entry.name@ {
            let j = lemma_key_has_entry(entries, name);
            assert(pushed[j].name@ == name);
        }
        if name == entry.name@ {
            assert(pushed[entries.len() as int].name@ == name);
        }
    }
    assert forall|name: Seq<u8>| forms_of(pushed).contains_key(name) implies forms_of(
        pushed,
    )[name] == expected[name] by {
        let j = lemma_key_has_entry(pushed, name);
        if j < entries.len() {
            assert(entries[j].name@ == name);
            assert(pushed[j] == entries[j]);
        }
    }
    assert(forms_of(pushed) =~= expected);
}

/// Taking an entry out removes its name.
proof fn lemma_forms_of_remove(entries: Seq<Entry>, i: int)
    requires
        distinct_and_named(entries),
        0 <= i < entries.len(),
    ensures
        distinct_and_named(entries.remove(i)),
        forms_of(entries.remove(i)) == forms_of(entries).remove(entries[i].name@),
{
    let removed = entries.remove(i);
    assert(distinct_and_named(removed)) by {
        assert forall|a: int, b: int| 0 <= a < b < removed.len() implies (
        #[trigger] removed[a]).name@ != (#[trigger] removed[b]).name@ by {
            let a0 = if a < i { a } else { a + 1 };
            let b0 = if b < i { b } else { b + 1 };
            assert(entries[a0].name@ != entries[b0].name@);
        }
    }
    lemma_forms_of(entries);
    lemma_forms_of(removed);
    let expected = forms_of(entries).remove(entries[i].name@);
    assert forall|name: Seq<u8>| forms_of(removed).contains_key(name) <==> expected.contains_key(
        name,
    ) by {
        if forms_of(removed).contains_key(name) {
            let j = lemma_key_has_entry(removed, name);
            let j0 = if j < i { j } else { j + 1 };
            assert(entries[j0].name@ == name);
            if j0 < i {
                assert(entries[j0].name@ != entries[i].name@);
            } else {
                assert(entries[i].name@ != entries[j0].name@);
            }
        }
        if expected.contains_key(name) {
            let j = lemma_key_has_entry(entries, name);
            let j1 = if j < i { j } else { j - 1 };
            assert(removed[j1].name@ == name);
        }
    }
    assert forall|name: Seq<u8>| forms_of(removed).contains_key(name) implies forms_of(
        removed,
    )[name] == expected[name] by {
        let j = lemma_key_has_entry(removed, name);
        let j0 = if j < i { j } else { j + 1 };
        assert(removed[j] == entries[j0]);
        assert(entries[j0].name@ == name);
    }
    assert(forms_of(removed) =~= expected);
}

/// Appends `bytes` to `table`.
fn append(table: &mut Vec<u8>, bytes: &[u8])
    ensures
        final(table)@ == old(table)@ + bytes@,
{
    table.extend_from_slice(bytes);
    assert(table@ =~= old(table)@ + bytes@);
}

/// Appends the row of the form `form`, called `name`, and the newline that
/// ends it.
fn write_row(table: &mut Vec<u8>, name: &[u8], form: &[Field])
    ensures
        final(table)@ == old(table)@ + row_of(name@, form_view(form@)) + seq![NEWLINE],
{
    let ghost tokens = tokens_of(name@, form_view(form@));
    append(table, name);
    proof {
        assert(tokens.take(1) == seq![name@]);
    }
    let mut f: usize = 0;
    while f < form.len()
        invariant
            f <= form@.len(),
            tokens == tokens_of(name@, form_view(form@)),
            table@ == old(table)@ + joined(tokens.take(1 + 2 * f), TAB),
        decreases form@.len() - f,
    {
        let ghost so_far = joined(tokens.take(1 + 2 * f), TAB);
        proof {
            lemma_joined_take(tokens, TAB, 1 + 2 * f);
            lemma_joined_take(tokens, TAB, 2 + 2 * f);
            assert(tokens[1 + 2 * f] == form@[f as int].prompt@);
            assert(tokens[2 + 2 * f] == form@[f as int].answer@);
        }
        table.push(TAB);
        append(table, &form[f].prompt);
        table.push(TAB);
        append(table, &form[f].answer);
        proof {
            assert(table@ == old(table)@ + (((so_far.push(TAB) + form@[f as int].prompt@).push(
                TAB,
            )) + form@[f as int].answer@));
        }
        f += 1;
    }
    proof {
        assert(tokens.take(1 + 2 * f) == tokens);
    }
    table.push(NEWLINE);
    assert(table@ == old(table)@ + row_of(name@, form_view(form@)) + seq![NEWLINE]);
}

/// The name and the form that `row` spells, unless a prompt is left without
/// an answer.
fn read_row(row: &[u8]) -> (read: Option<(Box<[u8]>, Form)>)
    ensures
        match parsed_row(row@) {
            Some((name, form)) => read matches Some(entry) && entry.0@ == name && form_view(
                entry.1@,
            ) == form,
            None => read is None,
        },
{
    let tokens = split(row, TAB);
    if tokens.len() % 2 == 0 {
        return None;
    }
    let ghost rest = views(tokens@).skip(1);
    let mut form: Vec<Field> = Vec::new();
    let mut t: usize = 1;
    while t < tokens.len()
        invariant
            1 <= t <= tokens@.len(),
            t % 2 == 1,
            tokens@.len() % 2 == 1,
            rest == views(tokens@).skip(1),
            form@.len() == (t - 1) / 2,
            forall|i: int|
                0 <= i < form@.len() ==> (#[trigger] form@[i])@ == fields_of(rest)[i],
        decreases tokens@.len() - t,
    {
        let field = Field { prompt: boxed_copy(tokens[t]), answer: boxed_copy(tokens[t + 1]) };
        proof {
            let i = (t - 1) / 2;
            assert(rest[2 * i] == tokens@[t as int]@);
            assert(rest[2 * i + 1] == tokens@[t + 1]@);
        }
        form.push(field);
        t += 2;
    }
    assert(form_view(form@) =~= fields_of(rest));
    Some((boxed_copy(tokens[0]), into_boxed(form)))
}

/// Whether `left` and `right` hold the same prompts and answers in the same
/// order.
fn same_form(left: &[Field], right: &[Field]) -> (same: bool)
    ensures
        same <==> form_view(left@) == form_view(right@),
{
    if left.len() != right.len() {
        assert(form_view(left@).len() != form_view(right@).len());
        return false;
    }
    let mut i: usize = 0;
    while i < left.len()
        invariant
            i <= left@.len(),
            left@.len() == right@.len(),
            forall|j: int| 0 <= j < i ==> (#[trigger] left@[j])@ == right@[j]@,
        decreases left@.len() - i,
    {
        if !same_bytes(&left[i].prompt, &right[i].prompt) || !same_bytes(
            &left[i].answer,
            &right[i].answer,
        ) {
            assert(form_view(left@)[i as int] != form_view(right@)[i as int]);
            return false;
        }
        i += 1;
    }
    assert(form_view(left@) =~= form_view(right@));
    true
}

impl View for Vault {
    type V = Forms;

    closed spec fn view(&self) -> Forms {
        forms_of(self.entries@)
    }
}

impl Vault {
    #[verifier::type_invariant]
    spec fn well_formed(&self) -> bool {
        distinct_and_named(self.entries@)
    }

    /// A vault without forms.
    pub fn new() -> (vault: Self)
        ensures
            vault@ == Forms::empty(),
    {
        let vault = Vault { entries: Vec::new() };
        assert(vault@ =~= Forms::empty());
        vault
    }

    /// Where the form called `name` is kept, if there is one.
    fn position(&self, name: &[u8]) -> (found: Option<usize>)
        ensures
            match found {
                Some(i) => i < self.entries@.len() && self.entries@[i as int].name@ == name@,
                None => forall|i: int|
                    0 <= i < self.entries@.len() ==> (#[trigger] self.entries@[i]).name@ != name@,
            },
    {
        let mut i: usize = 0;
        while i < self.entries.len()
            invariant
                i <= self.entries@.len(),
                forall|j: int| 0 <= j < i ==> (#[trigger] self.entries@[j]).name@ != name@,
            decreases self.entries@.len() - i,
        {
            if same_bytes(&self.entries[i].name, name) {
                return Some(i);
            }
            i += 1;
        }
        None
    }

    /// Whether the vault holds no form.
    pub fn is_empty(&self) -> (empty: bool)
        ensures
            empty <==> self@ == Forms::empty(),
    {
        proof {
            use_type_invariant(self);
            lemma_forms_of(self.entries@);
            if self.entries@.len() == 0 {
                assert(self@ =~= Forms::empty());
            }
        }
        self.entries.len() == 0
    }

    /// The number of forms.
    pub fn len(&self) -> (len: usize)
        ensures
            self@.dom().finite(),
            len == self@.dom().len(),
            !self@.contains_key(Seq::empty()),
    {
        proof {
            use_type_invariant(self);
            lemma_forms_of(self.entries@);
        }
        self.entries.len()
    }

    /// Keeps `form` under `name`, in place of the form that was kept under
    /// that name, if there was one, which is returned. No form is kept under
    /// the empty name: with it the vault stays as it is.
    pub fn insert(&mut self, name: Box<[u8]>, form: Form) -> (previous: Option<Form>)
        ensures
            name@.len() == 0 ==> final(self)@ == old(self)@ && previous is None,
            name@.len() > 0 ==> final(self)@ == old(self)@.insert(name@, form_view(form@)),
            name@.len() > 0 ==> match previous {
                Some(replaced) => old(self)@.contains_key(name@) && form_view(replaced@) == old(
                    self,
                )@[name@],
                None => !old(self)@.contains_key(name@),
            },
    {
        proof {
            use_type_invariant(&*self);
            lemma_forms_of(self.entries@);
        }
        if name.len() == 0 {
            return None;
        }
        let found = self.position(&name);
        let entry = Entry { name, form };
        let mut entries: Vec<Entry> = Vec::new();
        core::mem::swap(&mut self.entries, &mut entries);
        let previous = match found {
            Some(i) => {
                proof {
                    lemma_forms_of_update(entries@, i as int, entry);
                }
                let replaced = entries.remove(i);
                entries.insert(i, entry);
                Some(replaced.form)
            },
            None => {
                proof {
                    lemma_forms_of_push(entries@, entry);
                }
                entries.push(entry);
                None
            },
        };
        self.entries = entries;
        previous
    }

    /// Takes the form called `name` out of the vault and returns it, if the
    /// vault holds one.
    pub fn remove(&mut self, name: &[u8]) -> (removed: Option<Form>)
        ensures
            final(self)@ == old(self)@.remove(name@),
            match removed {
                Some(form) => old(self)@.contains_key(name@) && form_view(form@) == old(
                    self,
                )@[name@],
                None => !old(self)@.contains_key(name@),
            },
    {
        proof {
            use_type_invariant(&*self);
            lemma_forms_of(self.entries@);
        }
        match self.position(name) {
            Some(i) => {
                let mut entries: Vec<Entry> = Vec::new();
                core::mem::swap(&mut self.entries, &mut entries);
                proof {
                    lemma_forms_of_remove(entries@, i as int);
                }
                let entry = entries.remove(i);
                self.entries = entries;
                Some(entry.form)
            },
            None => {
                assert(old(self)@.remove(name@) =~= old(self)@);
                None
            },
        }
    }

    /// The form called `name`, if the vault holds one.
    pub fn get(&self, name: &[u8]) -> (found: Option<&Form>)
        ensures
            match found {
                Some(form) => self@.contains_key(name@) && form_view(form@) == self@[name@],
                None => !self@.contains_key(name@),
            },
    {
        proof {
            use_type_invariant(self);
            lemma_forms_of(self.entries@);
        }
        match self.position(name) {
            Some(i) => Some(&self.entries[i].form),
            None => None,
        }
    }

    /// The names of the forms, each once, in no order that is promised.
    pub fn form_names(&self) -> (names: Vec<&[u8]>)
        ensures
            is_listing(views(names@), self@),
    {
        proof {
            use_type_invariant(self);
            lemma_forms_of(self.entries@);
        }
        let mut names: Vec<&[u8]> = Vec::new();
        let mut i: usize = 0;
        while i < self.entries.len()
            invariant
                i <= self.entries@.len(),
                views(names@) == names_of(self.entries@).take(i as int),
            decreases self.entries@.len() - i,
        {
            let ghost before = views(names@);
            let name: &[u8] = &self.entries[i].name;
            names.push(name);
            assert(views(names@) =~= before.push(name@));
            assert(names_of(self.entries@).take(i + 1) =~= before.push(name@));
            i += 1;
        }
        assert(names_of(self.entries@).take(i as int) == names_of(self.entries@));
        names
    }

    /// Writes the vault down: one row for each form, in no order that is
    /// promised. What is written reads back as the same mapping if no name,
    /// prompt or answer holds a tab or a newline.
    pub fn dump(&self) -> (data: Box<[u8]>)
        ensures
            exists|names: Seq<Seq<u8>>|
                is_listing(names, self@) && data@ == #[trigger] serialized(names, self@),
            is_storable(self@) ==> parsed(data@) == Some(self@),
            !self@.contains_key(Seq::empty()),
    {
        proof {
            use_type_invariant(self);
            lemma_forms_of(self.entries@);
        }
        let ghost names = names_of(self.entries@);
        let mut table: Vec<u8> = Vec::new();
        let mut e: usize = 0;
        while e < self.entries.len()
            invariant
                e <= self.entries@.len(),
                names == names_of(self.entries@),
                forall|i: int|
                    0 <= i < self.entries@.len() ==> self@[(#[trigger] self.entries@[i]).name@]
                        == form_view(self.entries@[i].form@),
                table@ == serialized(names.take(e as int), self@),
            decreases self.entries@.len() - e,
        {
            proof {
                assert(names.take(e + 1).drop_last() == names.take(e as int));
                assert(names.take(e + 1).last() == self.entries@[e as int].name@);
            }
            write_row(&mut table, &self.entries[e].name, &self.entries[e].form);
            e += 1;
        }
        proof {
            assert(names.take(e as int) == names);
            if is_storable(self@) {
                lemma_load_inverts_dump(names, self@);
            }
        }
        into_boxed(table)
    }

    /// Reads a vault from what `dump` wrote. Rows are cut at newlines and
    /// tokens at tabs. A row's first token names the form, and the tokens after
    /// it are prompts and answers in turn: a row with a prompt that has no
    /// answer is malformed. A row with an empty name is passed over, so that
    /// empty rows do no harm. Of two rows with one name the later counts.
    pub fn load(data: &[u8]) -> (loaded: Result<Self, Error>)
        ensures
            match parsed(data@) {
                Some(forms) => loaded matches Ok(vault) && vault@ == forms,
                None => loaded matches Err(e) && e == Error::MalformedVaultData,
            },
    {
        let mut vault = Vault::new();
        let rows = split(data, NEWLINE);
        let mut r: usize = 0;
        while r < rows.len()
            invariant
                r <= rows@.len(),
                views(rows@) == pieces(data@, NEWLINE),
                parsed_rows(views(rows@).take(r as int)) == Some(vault@),
            decreases rows@.len() - r,
        {
            proof {
                assert(views(rows@).take(r + 1).drop_last() == views(rows@).take(r as int));
                assert(views(rows@).take(r + 1).last() == rows@[r as int]@);
            }
            match read_row(rows[r]) {
                None => {
                    proof {
                        lemma_parsed_rows_fail(views(rows@), r + 1);
                    }
                    return Err(Error::MalformedVaultData);
                },
                Some((name, form)) => {
                    vault.insert(name, form);
                },
            }
            r += 1;
        }
        proof {
            assert(views(rows@).take(r as int) == views(rows@));
        }
        Ok(vault)
    }
}

impl Default for Vault {
    /// A vault without forms.
    fn default() -> (vault: Self)
        ensures
            vault@ == Forms::empty(),
    {
        Vault::new()
    }
}

impl PartialEq for Vault {
    /// Whether both vaults hold the same forms under the same names. The
    /// order in which they were filled does not count.
    fn eq(&self, other: &Self) -> (equal: bool) {
        proof {
            use_type_invariant(self);
            use_type_invariant(other);
            lemma_forms_of(self.entries@);
            lemma_forms_of(other.entries@);
        }
        if self.entries.len() != other.entries.len() {
            return false;
        }
        let mut i: usize = 0;
        while i < self.entries.len()
            invariant
                i <= self.entries@.len(),
                distinct_and_named(self.entries@),
                distinct_and_named(other.entries@),
                forall|j: int|
                    0 <= j < i ==> other@.contains_key((#[trigger] self.entries@[j]).name@)
                        && other@[self.entries@[j].name@] == form_view(self.entries@[j].form@),
            decreases self.entries@.len() - i,
        {
            proof {
                lemma_forms_of(self.entries@);
                lemma_forms_of(other.entries@);
            }
            match other.position(&self.entries[i].name) {
                None => {
                    assert(self@.contains_key(self.entries@[i as int].name@));
                    assert(!other@.contains_key(self.entries@[i as int].name@));
                    return false;
                },
                Some(k) => {
                    if !same_form(&self.entries[i].form, &other.entries[k].form) {
                        let ghost name = self.entries@[i as int].name@;
                        assert(self@[name] != other@[name]);
                        return false;
                    }
                },
            }
            i += 1;
        }
        proof {
            lemma_forms_of(self.entries@);
            lemma_forms_of(other.entries@);
            assert(self@.dom().subset_of(other@.dom())) by {
                assert forall|name: Seq<u8>|
                    self@.dom().contains(name) implies other@.dom().contains(name) by {
                    let j = lemma_key_has_entry(self.entries@, name);
                    assert(other@.contains_key(self.entries@[j].name@));
                }
            }
            vstd::set_lib::lemma_subset_equality(self@.dom(), other@.dom());
            assert forall|name: Seq<u8>| self@.dom().contains(name) implies self@[name]
                == other@[name] by {
                let j = lemma_key_has_entry(self.entries@, name);
                assert(other@[self.entries@[j].name@] == form_view(self.entries@[j].form@));
            }
            assert(self@ =~= other@);
        }
        true
    }
}

impl Eq for Vault {

}

impl PartialEqSpecImpl for Vault {
    open spec fn obeys_eq_spec() -> bool {
        true
    }

    open spec fn eq_spec(&self, other: &Self) -> bool {
        self@ == other@
    }
}

} // verus!
