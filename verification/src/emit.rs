//! The output sink: two append-only text buffers whose concatenation is
//! the generated artifact.

use vstd::prelude::*;
use vstd::string::*;

verus! {

/// Accumulates generated code in two independently ordered buffers: a
/// header (fixed preamble and one-time variable declarations) and a body
/// (translated statements). The final artifact is the header followed by
/// the body. The emitter performs no validation of its own.
pub struct Emitter {
    header: String,
    code: String,
    full_path: String,
}

impl Emitter {
    /// The characters appended to the header buffer so far.
    pub closed spec fn header(&self) -> Seq<char> {
        self.header@
    }

    /// The characters appended to the body buffer so far.
    pub closed spec fn code(&self) -> Seq<char> {
        self.code@
    }

    /// The path the finished artifact is meant to be written to.
    pub closed spec fn path(&self) -> Seq<char> {
        self.full_path@
    }

    /// The full generated artifact: header first, then body.
    pub open spec fn output(&self) -> Seq<char> {
        self.header() + self.code()
    }

    /// A fresh emitter with both buffers empty.
    pub fn new(full_path: String) -> (e: Emitter)
        ensures
            e.header() == Seq::<char>::empty(),
            e.code() == Seq::<char>::empty(),
            e.path() == full_path@,
    {
        Emitter { header: String::new(), code: String::new(), full_path }
    }

    /// Appends text to the body buffer.
    pub fn emit(&mut self, code: String)
        ensures
            final(self).code() == old(self).code() + code@,
            final(self).header() == old(self).header(),
            final(self).path() == old(self).path(),
    {
        self.code.append(code.as_str());
    }

    /// Appends text plus a line break to the body buffer.
    pub fn emit_line(&mut self, code: String)
        ensures
            final(self).code() == old(self).code() + code@ + "\n"@,
            final(self).header() == old(self).header(),
            final(self).path() == old(self).path(),
    {
        self.code.append(code.as_str());
        self.code.append("\n");
    }

    /// Appends text plus a line break to the header buffer.
    pub fn header_line(&mut self, code: String)
        ensures
            final(self).header() == old(self).header() + code@ + "\n"@,
            final(self).code() == old(self).code(),
            final(self).path() == old(self).path(),
    {
        self.header.append(code.as_str());
        self.header.append("\n");
    }

    /// Materializes the artifact: the header buffer followed by the body
    /// buffer, exactly once, after a successful translation.
    pub fn finalize(&self) -> (s: String)
        ensures
            s@ == self.output(),
    {
        self.header.clone().concat(self.code.as_str())
    }

    /// The path the artifact is meant for, for the caller that writes it.
    pub fn full_path(&self) -> (p: &String)
        ensures
            p@ == self.path(),
    {
        &self.full_path
    }
}

/// Every character of the header part of the artifact stands before every
/// character of the body part: whatever the header holds (in particular,
/// every one-time variable declaration) precedes everything the body holds.
pub proof fn lemma_header_precedes_code(e: &Emitter, i: int, j: int)
    requires
        0 <= i < e.header().len(),
        0 <= j < e.code().len(),
    ensures
        e.output()[i] == e.header()[i],
        e.output()[e.header().len() + j] == e.code()[j],
        i < e.header().len() + j,
{
}

} // verus!
