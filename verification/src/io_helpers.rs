//! The output collector that the expander writes its fragments to.

use vstd::prelude::*;

use vstd::string::StringExecFns;

verus! {

/// Collects the expander's output fragments in order; the host hands the
/// accumulated text to whatever sink it writes.
pub struct SimpleOutput {
    contents: String,
}

impl View for SimpleOutput {
    type V = Seq<char>;

    closed spec fn view(&self) -> Seq<char> {
        self.contents@
    }
}

impl SimpleOutput {
    /// Appends one output fragment.
    pub fn write(&mut self, val: &str)
        ensures
            final(self)@ == old(self)@ + val@,
    {
        self.contents.append(val);
    }

    /// The accumulated output.
    pub fn into_string(self) -> (s: String)
        ensures
            s@ == self@,
    {
        self.contents
    }
}

/// A fresh, empty output collector.
pub fn simplify_output() -> (out: SimpleOutput)
    ensures
        out@ == Seq::<char>::empty(),
{
    SimpleOutput { contents: String::new() }
}

} // verus!
