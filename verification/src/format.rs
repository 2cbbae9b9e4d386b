//! The flat, line-oriented format in which a vault is written down.
//!
//! Each form is one row, `name \t prompt \t answer \t prompt \t answer ...`,
//! and each row ends in a newline. The empty mapping is the empty string.
//! The format has no escapes: a name, a prompt or an answer that holds a tab or
//! a newline does not survive.

use crate::split::joined;
use crate::split::lemma_joined_contains;
use crate::split::lemma_pieces_append;
use crate::split::lemma_pieces_of_joined;
use crate::split::pieces;
use vstd::prelude::*;

verus! {

/// Separates the tokens of a row.
pub const TAB: u8 = 9;

/// Ends a row.
pub const NEWLINE: u8 = 10;

/// The byte strings of a field.
pub struct FieldView {
    pub prompt: Seq<u8>,
    pub answer: Seq<u8>,
}

/// The mapping that a vault stands for: from the name of each form to its
/// fields.
pub type Forms = Map<Seq<u8>, Seq<FieldView>>;

/// Whether `names` lists the names of `forms`, each once.
pub open spec fn is_listing(names: Seq<Seq<u8>>, forms: Forms) -> bool {
    names.no_duplicates() && names.to_set() == forms.dom()
}

/// Whether `token` can stand in a row: it holds neither tab nor newline.
pub open spec fn is_plain(token: Seq<u8>) -> bool {
    !token.contains(TAB) && !token.contains(NEWLINE)
}

/// Whether every name, prompt and answer of `forms` is plain.
pub open spec fn is_storable(forms: Forms) -> bool {
    forall|name: Seq<u8>| #[trigger]
        forms.contains_key(name) ==> is_plain(name) && forall|i: int|
            0 <= i < forms[name].len() ==> is_plain((#[trigger] forms[name][i]).prompt)
                && is_plain(forms[name][i].answer)
}

/// The tokens of the row of a form: its name, then prompt and answer of each
/// field in turn.
pub open spec fn tokens_of(name: Seq<u8>, form: Seq<FieldView>) -> Seq<Seq<u8>> {
    Seq::new(
        1 + 2 * form.len(),
        |i: int|
            if i == 0 {
                name
            } else if i % 2 == 1 {
                form[(i - 1) / 2].prompt
            } else {
                form[(i - 1) / 2].answer
            },
    )
}

/// The row of a form, without the newline that ends it.
pub open spec fn row_of(name: Seq<u8>, form: Seq<FieldView>) -> Seq<u8> {
    joined(tokens_of(name, form), TAB)
}

/// The forms called `names`, written down in that order.
pub open spec fn serialized(names: Seq<Seq<u8>>, forms: Forms) -> Seq<u8>
    decreases names.len(),
{
    if names.len() == 0 {
        Seq::empty()
    } else {
        serialized(names.drop_last(), forms) + row_of(names.last(), forms[names.last()])
            + seq![NEWLINE]
    }
}

/// The fields that `tokens` spell, two tokens to a field.
pub open spec fn fields_of(tokens: Seq<Seq<u8>>) -> Seq<FieldView> {
    Seq::new(
        tokens.len() / 2,
        |i: int| FieldView { prompt: tokens[2 * i], answer: tokens[2 * i + 1] },
    )
}

/// The name and the fields that `row` spells, unless a prompt is left without
/// an answer.
pub open spec fn parsed_row(row: Seq<u8>) -> Option<(Seq<u8>, Seq<FieldView>)> {
    let tokens = pieces(row, TAB);
    if tokens.len() % 2 == 1 {
        Some((tokens[0], fields_of(tokens.skip(1))))
    } else {
        None
    }
}

/// The mapping that `rows` spell, unless one of them is malformed. A row
/// with an empty name adds nothing; of two rows with one name the later
/// counts.
pub open spec fn parsed_rows(rows: Seq<Seq<u8>>) -> Option<Forms>
    decreases rows.len(),
{
    if rows.len() == 0 {
        Some(Map::empty())
    } else {
        match (parsed_rows(rows.drop_last()), parsed_row(rows.last())) {
            (Some(forms), Some((name, form))) => if name.len() == 0 {
                Some(forms)
            } else {
                Some(forms.insert(name, form))
            },
            _ => None,
        }
    }
}

/// The mapping that `data` spells, unless one of its rows is malformed.
pub open spec fn parsed(data: Seq<u8>) -> Option<Forms> {
    parsed_rows(pieces(data, NEWLINE))
}

/// The rows of the forms called `names`, in that order.
pub open spec fn rows_of(names: Seq<Seq<u8>>, forms: Forms) -> Seq<Seq<u8>> {
    Seq::new(names.len(), |i: int| row_of(names[i], forms[names[i]]))
}

/// Once a row is malformed, the rows after it change nothing.
pub proof fn lemma_parsed_rows_fail(rows: Seq<Seq<u8>>, k: int)
    requires
        0 <= k <= rows.len(),
        parsed_rows(rows.take(k)) is None,
    ensures
        parsed_rows(rows) is None,
    decreases rows.len(),
{
    if k == rows.len() {
        assert(rows.take(k) == rows);
    } else {
        assert(rows.drop_last().take(k) == rows.take(k));
        lemma_parsed_rows_fail(rows.drop_last(), k);
    }
}

/// One more token lengthens what is joined by a separator and that token.
pub proof fn lemma_joined_take(parts: Seq<Seq<u8>>, sep: u8, k: int)
    requires
        1 <= k < parts.len(),
    ensures
        joined(parts.take(k + 1), sep) == joined(parts.take(k), sep).push(sep) + parts[k],
{
    assert(parts.take(k + 1).drop_last() == parts.take(k));
}

/// Each token of a row is its name, a prompt or an answer.
pub proof fn lemma_token_is_part(name: Seq<u8>, form: Seq<FieldView>, j: int)
    requires
        0 <= j < 1 + 2 * form.len(),
    ensures
        j == 0 ==> tokens_of(name, form)[j] == name,
        j > 0 ==> 0 <= (j - 1) / 2 < form.len(),
        j > 0 && j % 2 == 1 ==> tokens_of(name, form)[j] == form[(j - 1) / 2].prompt,
        j > 0 && j % 2 == 0 ==> tokens_of(name, form)[j] == form[(j - 1) / 2].answer,
{
}

/// Where prompt and answer of a field stand among the tokens of a row.
pub proof fn lemma_tokens_of_field(name: Seq<u8>, form: Seq<FieldView>, i: int)
    requires
        0 <= i < form.len(),
    ensures
        tokens_of(name, form)[2 * i + 1] == form[i].prompt,
        tokens_of(name, form)[2 * i + 2] == form[i].answer,
{
    let prompt_at = 2 * i + 1;
    let answer_at = 2 * i + 2;
    assert(prompt_at % 2 == 1 && (prompt_at - 1) / 2 == i);
    assert(answer_at % 2 == 0 && (answer_at - 1) / 2 == i);
}

/// A byte that is in no name, prompt or answer is in no token.
pub proof fn lemma_tokens_are_free_of(name: Seq<u8>, form: Seq<FieldView>, byte: u8)
    requires
        !name.contains(byte),
        forall|i: int|
            0 <= i < form.len() ==> !(#[trigger] form[i]).prompt.contains(byte)
                && !form[i].answer.contains(byte),
    ensures
        forall|j: int|
            0 <= j < tokens_of(name, form).len() ==> !(#[trigger] tokens_of(name, form)[j]).contains(
                byte,
            ),
{
    let tokens = tokens_of(name, form);
    assert forall|j: int| 0 <= j < tokens.len() implies !(#[trigger] tokens[j]).contains(
        byte,
    ) by {
        lemma_token_is_part(name, form, j);
        if j > 0 {
            let field = form[(j - 1) / 2];
            assert(!field.prompt.contains(byte) && !field.answer.contains(byte));
        }
    }
}

/// The tokens after the name spell the fields they were made of.
pub proof fn lemma_fields_of_tokens(name: Seq<u8>, form: Seq<FieldView>)
    ensures
        tokens_of(name, form).len() == 1 + 2 * form.len(),
        tokens_of(name, form)[0] == name,
        fields_of(tokens_of(name, form).skip(1)) == form,
{
    let rest = tokens_of(name, form).skip(1);
    assert(rest.len() == 2 * form.len());
    assert(fields_of(rest).len() == form.len());
    assert forall|i: int| 0 <= i < form.len() implies fields_of(rest)[i] == form[i] by {
        lemma_tokens_of_field(name, form, i);
        assert(rest[2 * i] == tokens_of(name, form)[2 * i + 1]);
        assert(rest[2 * i + 1] == tokens_of(name, form)[2 * i + 2]);
    }
    assert(fields_of(rest) =~= form);
}

/// A row falls, at the tabs, into the tokens it was made of, if they hold no
/// tab.
pub proof fn lemma_pieces_of_row(name: Seq<u8>, form: Seq<FieldView>)
    requires
        !name.contains(TAB),
        forall|i: int|
            0 <= i < form.len() ==> !(#[trigger] form[i]).prompt.contains(TAB)
                && !form[i].answer.contains(TAB),
    ensures
        pieces(row_of(name, form), TAB) == tokens_of(name, form),
{
    lemma_tokens_are_free_of(name, form, TAB);
    lemma_pieces_of_joined(tokens_of(name, form), TAB);
}

/// A row that falls into the tokens of a form spells that form.
pub proof fn lemma_parsed_tokens(name: Seq<u8>, form: Seq<FieldView>, row: Seq<u8>)
    requires
        pieces(row, TAB) == tokens_of(name, form),
    ensures
        parsed_row(row) == Some((name, form)),
{
    lemma_fields_of_tokens(name, form);
    assert((1 + 2 * form.len()) % 2 == 1);
}

/// A row spells the form it was made of, if its tokens hold no tab.
pub proof fn lemma_parsed_row_of(name: Seq<u8>, form: Seq<FieldView>)
    requires
        !name.contains(TAB),
        forall|i: int|
            0 <= i < form.len() ==> !(#[trigger] form[i]).prompt.contains(TAB)
                && !form[i].answer.contains(TAB),
    ensures
        parsed_row(row_of(name, form)) == Some((name, form)),
{
    lemma_pieces_of_row(name, form);
    lemma_parsed_tokens(name, form, row_of(name, form));
}

/// A row of plain tokens holds no newline.
pub proof fn lemma_row_is_one_line(name: Seq<u8>, form: Seq<FieldView>)
    requires
        !name.contains(NEWLINE),
        forall|i: int|
            0 <= i < form.len() ==> !(#[trigger] form[i]).prompt.contains(NEWLINE)
                && !form[i].answer.contains(NEWLINE),
    ensures
        !row_of(name, form).contains(NEWLINE),
{
    lemma_tokens_are_free_of(name, form, NEWLINE);
    lemma_joined_contains(tokens_of(name, form), TAB, NEWLINE);
}

/// What is written down falls, at the newlines, into the rows of the forms
/// and one empty piece after the last newline.
pub proof fn lemma_pieces_of_serialized(names: Seq<Seq<u8>>, forms: Forms)
    requires
        is_storable(forms),
        forall|i: int| 0 <= i < names.len() ==> forms.contains_key(#[trigger] names[i]),
    ensures
        pieces(serialized(names, forms), NEWLINE) == rows_of(names, forms).push(Seq::empty()),
    decreases names.len(),
{
    let empty = Seq::<u8>::empty();
    let rows = rows_of(names, forms);
    if names.len() == 0 {
        assert(rows.push(empty) == seq![empty]);
    } else {
        let init = names.drop_last();
        let before = serialized(init, forms);
        let row = row_of(names.last(), forms[names.last()]);
        lemma_pieces_of_serialized(init, forms);
        assert(forms.contains_key(names[names.len() - 1]));
        lemma_row_is_one_line(names.last(), forms[names.last()]);
        lemma_pieces_append(before, row, NEWLINE);
        let whole = serialized(names, forms);
        assert(whole.drop_last() == before + row);
        assert(whole.last() == NEWLINE);
        assert(rows_of(init, forms).push(empty).drop_last() == rows_of(init, forms));
        assert(empty + row == row);
        assert(rows_of(init, forms).push(row) == rows);
    }
}

/// The rows of forms spell those forms.
pub proof fn lemma_parsed_rows_of(names: Seq<Seq<u8>>, forms: Forms)
    requires
        is_storable(forms),
        !forms.contains_key(Seq::empty()),
        forall|i: int| 0 <= i < names.len() ==> forms.contains_key(#[trigger] names[i]),
    ensures
        parsed_rows(rows_of(names, forms)) == Some(forms.restrict(names.to_set())),
    decreases names.len(),
{
    let rows = rows_of(names, forms);
    if names.len() == 0 {
        assert(forms.restrict(names.to_set()) =~= Map::empty());
    } else {
        let init = names.drop_last();
        let name = names.last();
        lemma_parsed_rows_of(init, forms);
        assert(rows.drop_last() == rows_of(init, forms));
        assert(forms.contains_key(names[names.len() - 1]));
        lemma_parsed_row_of(name, forms[name]);
        assert(rows.last() == row_of(name, forms[name]));
        assert(name.len() > 0) by {
            if name.len() == 0 {
                assert(name =~= Seq::empty());
            }
        }
        assert(parsed_rows(rows) == Some(
            forms.restrict(init.to_set()).insert(name, forms[name]),
        ));
        assert(forms.restrict(init.to_set()).insert(name, forms[name]) =~= forms.restrict(
            names.to_set(),
        )) by {
            assert forall|key: Seq<u8>| names.to_set().contains(key) <==> init.to_set().contains(
                key,
            ) || key == name by {
                if names.to_set().contains(key) {
                    let i = choose|i: int| 0 <= i < names.len() && names[i] == key;
                    if i < init.len() {
                        assert(init[i] == key);
                    }
                }
                if init.to_set().contains(key) {
                    let i = choose|i: int| 0 <= i < init.len() && init[i] == key;
                    assert(names[i] == key);
                }
            }
        }
    }
}

/// Reading what was written gives the mapping back: for every mapping without
/// the empty name whose names, prompts and answers hold neither tab nor
/// newline, and in whatever order its forms are written down.
pub proof fn lemma_load_inverts_dump(names: Seq<Seq<u8>>, forms: Forms)
    requires
        is_listing(names, forms),
        is_storable(forms),
        !forms.contains_key(Seq::empty()),
    ensures
        parsed(serialized(names, forms)) == Some(forms),
{
    let rows = rows_of(names, forms);
    assert forall|i: int| 0 <= i < names.len() implies forms.contains_key(
        #[trigger] names[i],
    ) by {
        assert(names.to_set().contains(names[i]));
    }
    lemma_pieces_of_serialized(names, forms);
    lemma_parsed_rows_of(names, forms);
    assert(rows.push(Seq::empty()).drop_last() == rows);
    assert(pieces(Seq::<u8>::empty(), TAB) == seq![Seq::<u8>::empty()]);
    assert(forms.restrict(names.to_set()) =~= forms);
}

} // verus!
