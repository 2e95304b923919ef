// A change to the environment a started program is given.
use vstd::prelude::*;

verus! {

/// One override a command carries: a variable set to a value, or one removed.
#[derive(Clone, Debug, PartialEq, Eq)]
pub enum EnvEdit {
    Put(String, String),
    Remove(String),
}

/// The view of an edit, with its strings as characters.
pub enum EditView {
    Put(Seq<char>, Seq<char>),
    Remove(Seq<char>),
}

pub open spec fn edit_view(e: EnvEdit) -> EditView {
    match e {
        EnvEdit::Put(k, v) => EditView::Put(k@, v@),
        EnvEdit::Remove(k) => EditView::Remove(k@),
    }
}

pub open spec fn edits_view(es: Seq<EnvEdit>) -> Seq<EditView> {
    es.map_values(|e: EnvEdit| edit_view(e))
}

/// An exported but empty variable is absent: it is a choice only when it holds something.
pub open spec fn chosen(value: Option<Seq<char>>) -> bool {
    match value {
        Some(v) => v.len() > 0,
        None => false,
    }
}

pub open spec fn opt_str_view(value: Option<&str>) -> Option<Seq<char>> {
    match value {
        Some(v) => Some(v@),
        None => None,
    }
}

/// Whether a variable is set to something, the rule every variable this launcher reads follows.
pub fn is_chosen(value: Option<&str>) -> (r: bool)
    ensures
        r == chosen(opt_str_view(value)),
{
    match value {
        Some(v) => v.unicode_len() > 0,
        None => false,
    }
}

pub fn put(key: &str, value: &str) -> (e: EnvEdit)
    ensures
        edit_view(e) == EditView::Put(key@, value@),
{
    EnvEdit::Put(String::from_str(key), String::from_str(value))
}

pub fn remove(key: &str) -> (e: EnvEdit)
    ensures
        edit_view(e) == EditView::Remove(key@),
{
    EnvEdit::Remove(String::from_str(key))
}

} // verus!
