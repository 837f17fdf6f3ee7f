//! A log of the stages that operations pass and of the spans that close.

use vstd::prelude::*;

verus! {

/// Stages and closed spans, in order, each with the name of its span.
pub struct Events {
    rows: Vec<(String, String)>,
}

/// A span and a stage, as characters.
pub type Row = (Seq<char>, Seq<char>);

impl View for Events {
    type V = Seq<Row>;

    closed spec fn view(&self) -> Seq<Row> {
        self.rows@.map_values(|row: (String, String)| (row.0@, row.1@))
    }
}

impl Events {
    /// Returns a log without rows.
    pub fn new() -> (events: Self)
        ensures
            events@ == Seq::<Row>::empty(),
    {
        let events = Events { rows: Vec::new() };
        assert(events@ =~= Seq::empty());
        events
    }

    /// Logs the stage of an event, if it has one, with the name of its span, or as
    /// unbound where no span is retained for it.
    pub fn on_event(&mut self, parent: Option<&str>, stage: Option<&str>)
        ensures
            final(self)@ == (match stage {
                Some(stage) => old(self)@.push(
                    (
                        match parent {
                            Some(name) => name@,
                            None => "unbound"@,
                        },
                        stage@,
                    ),
                ),
                None => old(self)@,
            }),
    {
        if let Some(stage) = stage {
            let name = match parent {
                Some(name) => name.to_owned(),
                None => "unbound".to_owned(),
            };
            self.rows.push((name, stage.to_owned()));
            assert(self@ =~= old(self)@.push((name@, stage@)));
        }
    }

    /// Logs that the span with the name has closed.
    pub fn on_close(&mut self, name: &str)
        ensures
            final(self)@ == old(self)@.push((name@, "closed"@)),
    {
        self.rows.push((name.to_owned(), "closed".to_owned()));
        assert(self@ =~= old(self)@.push((name@, "closed"@)));
    }

    /// Returns the rows, in order.
    pub fn rows(&self) -> (rows: &Vec<(String, String)>)
        ensures
            rows@.map_values(|row: (String, String)| (row.0@, row.1@)) == self@,
    {
        &self.rows
    }
}

} // verus!
