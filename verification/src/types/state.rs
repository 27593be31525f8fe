//! The state of a conversion pipeline.
use vstd::prelude::*;
use std::rc::Rc;

verus! {

/// A document format that a pipeline reads or writes.
#[derive(Debug, Clone, Copy)]
pub enum FormatType {
    Docx,
    Csv,
    Pdf,
}

/// A language at either end of a pipeline.
#[derive(Debug, Clone, Copy)]
pub enum Language {
    Nep,
    Eng,
    Tmg,
}

/// Where a pipeline starts and ends, and the name of its document.
#[derive(Debug)]
pub struct PipeLineState {
    pub from: (FormatType, Language),
    pub to: (FormatType, Language),
    pub name: Rc<str>,
}

impl Clone for PipeLineState {
    fn clone(&self) -> (res: Self)
        ensures
            res.from == self.from,
            res.to == self.to,
            res.name == self.name,
    {
        PipeLineState { from: self.from, to: self.to, name: Rc::clone(&self.name) }
    }
}

} // verus!
