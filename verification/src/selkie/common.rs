//! What every diagram holds besides its own parts.
use crate::text;
use vstd::prelude::*;

verus! {

/// The titles and the description of a diagram.
#[derive(Debug, Clone)]
pub struct CommonDb {
    acc_title: Option<String>,
    acc_description: Option<String>,
    diagram_title: Option<String>,
}

/// The titles and the description in mathematical terms.
pub struct CommonView {
    pub acc_title: Option<Seq<char>>,
    pub acc_description: Option<Seq<char>>,
    pub diagram_title: Option<Seq<char>>,
}

impl View for CommonDb {
    type V = CommonView;

    closed spec fn view(&self) -> CommonView {
        CommonView {
            acc_title: text::opt_text(self.acc_title),
            acc_description: text::opt_text(self.acc_description),
            diagram_title: text::opt_text(self.diagram_title),
        }
    }
}

/// No title and no description.
pub open spec fn no_titles() -> CommonView {
    CommonView { acc_title: None, acc_description: None, diagram_title: None }
}

fn borrow(o: &Option<String>) -> (r: Option<&str>)
    ensures
        text::opt_str(r) == text::opt_text(*o),
{
    match o {
        Some(s) => Some(s.as_str()),
        None => None,
    }
}

impl CommonDb {
    pub fn new() -> (r: CommonDb)
        ensures
            r@ == no_titles(),
    {
        CommonDb { acc_title: None, acc_description: None, diagram_title: None }
    }

    pub fn clear(&mut self)
        ensures
            final(self)@ == no_titles(),
    {
        self.acc_title = None;
        self.acc_description = None;
        self.diagram_title = None;
    }

    pub fn set_acc_title(&mut self, title: &str)
        ensures
            final(self)@ == (CommonView { acc_title: Some(title@), ..old(self)@ }),
    {
        self.acc_title = Some(title.to_owned());
    }

    pub fn get_acc_title(&self) -> (r: Option<&str>)
        ensures
            text::opt_str(r) == self@.acc_title,
    {
        borrow(&self.acc_title)
    }

    pub fn set_acc_description(&mut self, desc: &str)
        ensures
            final(self)@ == (CommonView { acc_description: Some(desc@), ..old(self)@ }),
    {
        self.acc_description = Some(desc.to_owned());
    }

    pub fn get_acc_description(&self) -> (r: Option<&str>)
        ensures
            text::opt_str(r) == self@.acc_description,
    {
        borrow(&self.acc_description)
    }

    pub fn set_diagram_title(&mut self, title: &str)
        ensures
            final(self)@ == (CommonView { diagram_title: Some(title@), ..old(self)@ }),
    {
        self.diagram_title = Some(title.to_owned());
    }

    pub fn get_diagram_title(&self) -> (r: Option<&str>)
        ensures
            text::opt_str(r) == self@.diagram_title,
    {
        borrow(&self.diagram_title)
    }
}

} // verus!
