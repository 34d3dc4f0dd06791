//! The error of the scalar codecs.
use vstd::prelude::*;

verus! {

/// A value that the scalar codecs could not read; `input` says which role the
/// value had and quotes it.
#[derive(Debug)]
pub struct VastParseError {
    pub input: String,
}

/// The message of a failed scalar read: `head` names the role, then the input
/// follows in single quotes.
pub open spec fn quoted_error(head: Seq<char>, s: Seq<char>) -> Seq<char> {
    head + seq!['\''] + s + seq!['\'']
}

impl VastParseError {
    pub fn new(s: String) -> (r: Self)
        ensures
            r.input@ == s@,
    {
        Self { input: s }
    }

    /// The error that names the role `head` and quotes the input `s`.
    pub fn quoting(head: &str, s: &str) -> (r: Self)
        ensures
            r.input@ == quoted_error(head@, s@),
    {
        let mut m = String::from_str(head);
        m.append("'");
        m.append(s);
        m.append("'");
        proof {
            reveal_strlit("'");
        }
        assert(m@ =~= quoted_error(head@, s@));
        Self::new(m)
    }

    /// The message shown to a reader.
    pub fn to_string(&self) -> (r: String)
        ensures
            r@ == "VAST parse error: "@ + self.input@,
    {
        let mut m = String::from_str("VAST parse error: ");
        m.append(self.input.as_str());
        m
    }
}

} // verus!
