use vstd::prelude::*;

verus! {

/// A widget together with the title of the frame drawn around it.
pub struct Container<W> {
    name: String,
    widget: W,
}

impl<W> Container<W> {
    /// The title of the frame.
    pub closed spec fn title(&self) -> Seq<char> {
        self.name@
    }

    /// The framed widget.
    pub closed spec fn content(&self) -> W {
        self.widget
    }

    pub fn new(name: String, widget: W) -> (c: Self)
        ensures
            c.title() == name@,
            c.content() == widget,
    {
        Self { name, widget }
    }

    /// The title of the frame.
    pub fn name(&self) -> (s: &String)
        ensures
            s@ == self.title(),
    {
        &self.name
    }

    /// The framed widget.
    pub fn widget(&self) -> (w: &W)
        ensures
            *w == self.content(),
    {
        &self.widget
    }

    /// Takes the container apart into its title and its widget.
    pub fn into_parts(self) -> (parts: (String, W))
        ensures
            parts.0@ == self.title(),
            parts.1 == self.content(),
    {
        (self.name, self.widget)
    }
}

} // verus!
