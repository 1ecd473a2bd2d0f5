//! Reusable text buffers.

use vstd::prelude::*;

verus! {

/// Relies on `String::clear`: the string becomes empty (its buffer is kept).
#[verifier::external_body]
fn clear_string(s: &mut String)
    ensures
        final(s)@.len() == 0,
{
    s.clear();
}

/// Replaces the text of `dest` with `target`, reusing its buffer.
pub fn str_copy(dest: &mut String, target: &str)
    ensures
        final(dest)@ == target@,
{
    clear_string(dest);
    dest.append(target);
    assert(dest@ =~= target@);
}

/// An optional text whose buffer outlives the absence of a value.
#[derive(Debug, Clone)]
pub struct OptionalString {
    cont: String,
    is_some: bool,
}

impl View for OptionalString {
    type V = Option<Seq<char>>;

    closed spec fn view(&self) -> Option<Seq<char>> {
        if self.is_some {
            Some(self.cont@)
        } else {
            None
        }
    }
}

impl Default for OptionalString {
    fn default() -> (r: Self)
        ensures
            r@ is None,
    {
        OptionalString { cont: String::new(), is_some: false }
    }
}

impl OptionalString {
    /// The text, if there is one.
    pub fn get(&self) -> (r: Option<&str>)
        ensures
            match r {
                Some(s) => self@ == Some(s@),
                None => self@ is None,
            },
    {
        if self.is_some {
            Some(self.cont.as_str())
        } else {
            None
        }
    }

    /// Sets the text to `s`.
    pub fn copy_from(&mut self, s: &str)
        ensures
            final(self)@ == Some(s@),
    {
        str_copy(&mut self.cont, s);
        self.is_some = true;
    }

    /// Drops the text, keeping its buffer.
    pub fn invalidate(&mut self)
        ensures
            final(self)@ is None,
    {
        self.is_some = false;
    }
}

} // verus!
