//! What the desktop window is handed: errors it can show, and the rows of a
//! network check.

use vstd::prelude::*;

use crate::net::portmap::Attempt;
use crate::session::{contains_text, text_contains};
use crate::text::{append_str, lowercase_of, lowercase_text, trim_text, trimmed};

verus! {

/// An error as the window shows it.
#[derive(Debug, PartialEq, Eq)]
pub struct UiError {
    pub message: String,
    /// True when retrying later might work, so the window can say "not yet"
    /// rather than "broken".
    pub transient: bool,
}

impl UiError {
    pub fn new(message: String) -> (e: UiError)
        ensures
            e.message == message,
            !e.transient,
    {
        UiError { message, transient: false }
    }

    pub fn transient(message: String) -> (e: UiError)
        ensures
            e.message == message,
            e.transient,
    {
        UiError { message, transient: true }
    }
}

/// One line of a network check.
#[derive(Debug, PartialEq, Eq)]
pub struct Row {
    pub label: String,
    pub value: String,
    /// `None` for plain facts, `Some` for things that either worked or did
    /// not.
    pub ok: Option<bool>,
}

impl Row {
    /// A plain fact.
    pub fn new(label: &str, value: String) -> (r: Row)
        ensures
            r.label@ == label@,
            r.value == value,
            r.ok is None,
    {
        Row { label: label.to_owned(), value, ok: None }
    }

    /// How one protocol fared.
    pub fn result(label: &str, attempt: &Attempt) -> (r: Row)
        ensures
            r.label@ == label@,
            r.value@ == match attempt {
                Attempt::Worked(x) => x@,
                Attempt::Refused(x) => x@,
                Attempt::Skipped(x) => x@,
            },
            r.ok == Some(attempt is Worked),
    {
        Row { label: label.to_owned(), value: attempt.detail().to_owned(), ok: Some(attempt.worked()) }
    }
}

/// Whether a startup failure reads like another copy holding the
/// database.
pub open spec fn looks_locked(err_text: Seq<char>) -> bool {
    let t = lowercase_of(err_text);
    contains_text(t, "lock"@) || contains_text(t, "busy"@) || contains_text(t, "used by another"@)
}

/// What to tell somebody whose node would not start: that another copy is
/// already running, when that is what the error says, since the two would
/// be the same member of the same communities; otherwise the error itself.
pub fn explain_startup_failure(err_text: &str, dir: &str) -> (e: UiError)
    ensures
        !e.transient,
        looks_locked(err_text@) ==> e.message@ == "Another copy of Kāhui is already using "@ + dir@
            + ". Only one can run at a time, because they would be the same member of the same communities."@,
        !looks_locked(err_text@) ==> e.message@ == "Kāhui could not start: "@ + err_text@,
{
    let text = lowercase_text(err_text);
    if text_contains(text.as_str(), "lock") || text_contains(text.as_str(), "busy") || text_contains(
        text.as_str(),
        "used by another",
    ) {
        let mut m = "Another copy of Kāhui is already using ".to_owned();
        append_str(&mut m, dir);
        append_str(&mut m, ". Only one can run at a time, because they would be the same member of the same communities.");
        return UiError::new(m);
    }
    let mut m = "Kāhui could not start: ".to_owned();
    append_str(&mut m, err_text);
    UiError::new(m)
}

/// The name the window asked to go by, trimmed, or the reason it will not
/// do.
pub fn chosen_name(name: &str) -> (r: Result<String, UiError>)
    ensures
        trimmed(name@).len() == 0 ==> (r matches Err(e) && e.message@ == "Pick a name to be known by."@ && !e.transient),
        trimmed(name@).len() > 0 ==> (r matches Ok(n) && n@ == trimmed(name@)),
{
    let t = trim_text(name);
    if t.unicode_len() == 0 {
        return Err(UiError::new("Pick a name to be known by.".to_owned()));
    }
    Ok(t.to_owned())
}

} // verus!
