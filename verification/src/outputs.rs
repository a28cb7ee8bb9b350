//! The Wayland outputs a listing tool learns of, and what their events tell.
use vstd::prelude::*;

use crate::text::{chars_eq, chars_of};

verus! {

/// An output announced by the compositor, and what its events told.
#[derive(Clone, Debug)]
pub struct ListedOutput {
    pub global_name: u32,
    pub name: Option<String>,
    pub description: Option<String>,
    pub make: String,
    pub model: String,
    pub physical_width: i32,
    pub physical_height: i32,
    pub current_width: Option<i32>,
    pub current_height: Option<i32>,
}

/// An event about an output.
#[derive(Clone, Debug)]
pub enum ListEvent {
    Geometry { physical_width: i32, physical_height: i32, make: String, model: String },
    Name { name: String },
    Description { description: String },
    /// A mode; `current` when the compositor flags it as the current one.
    Mode { current: bool, width: i32, height: i32 },
    Other,
}

/// The output as the event leaves it.
pub open spec fn spec_apply(o: ListedOutput, event: ListEvent) -> ListedOutput {
    match event {
        ListEvent::Geometry { physical_width, physical_height, make, model } => ListedOutput {
            physical_width,
            physical_height,
            make,
            model,
            ..o
        },
        ListEvent::Name { name } => ListedOutput { name: Some(name), ..o },
        ListEvent::Description { description } => ListedOutput {
            description: Some(description),
            ..o
        },
        ListEvent::Mode { current, width, height } => if current {
            ListedOutput { current_width: Some(width), current_height: Some(height), ..o }
        } else {
            o
        },
        ListEvent::Other => o,
    }
}

/// The first output with this global name.
pub open spec fn first_with_global(outputs: Seq<ListedOutput>, global_name: u32) -> Option<int> {
    if exists|i: int| 0 <= i < outputs.len() && outputs[i].global_name == global_name {
        Some(
            choose|i: int|
                0 <= i < outputs.len() && outputs[i].global_name == global_name && forall|j: int|
                    0 <= j < i ==> outputs[j].global_name != global_name,
        )
    } else {
        None
    }
}

/// The outputs, in the order they were announced.
pub struct OutputList {
    pub outputs: Vec<ListedOutput>,
}

/// Whether a global is an output.
pub fn is_output_interface(interface: &str) -> (r: bool)
    ensures
        r == (interface@ == "wl_output"@),
{
    let v = chars_of(interface);
    let w = chars_of("wl_output");
    chars_eq(&v, &w)
}

impl OutputList {
    /// No outputs.
    pub fn new() -> (l: Self)
        ensures
            l.outputs@.len() == 0,
    {
        OutputList { outputs: Vec::new() }
    }

    /// Records a newly announced output, of which nothing is known yet.
    pub fn announce(&mut self, global_name: u32)
        ensures
            final(self).outputs@.len() == old(self).outputs@.len() + 1,
            final(self).outputs@.drop_last() == old(self).outputs@,
            ({
                let o = final(self).outputs@.last();
                &&& o.global_name == global_name
                &&& o.name is None && o.description is None
                &&& o.make@.len() == 0 && o.model@.len() == 0
                &&& o.physical_width == 0 && o.physical_height == 0
                &&& o.current_width is None && o.current_height is None
            }),
    {
        self.outputs.push(
            ListedOutput {
                global_name,
                name: None,
                description: None,
                make: String::new(),
                model: String::new(),
                physical_width: 0,
                physical_height: 0,
                current_width: None,
                current_height: None,
            },
        );
        assert(self.outputs@.drop_last() =~= old(self).outputs@);
    }

    /// Applies an event to the first output with that global name, if any.
    #[verifier::loop_isolation(false)]
    pub fn apply_event(&mut self, global_name: u32, event: ListEvent)
        ensures
            match first_with_global(old(self).outputs@, global_name) {
                Some(i) => final(self).outputs@ == old(self).outputs@.update(
                    i,
                    spec_apply(old(self).outputs@[i], event),
                ),
                None => final(self).outputs@ == old(self).outputs@,
            },
    {
        let ghost all = self.outputs@;
        let mut i: usize = 0;
        while i < self.outputs.len()
            invariant
                self.outputs@ == all,
                i <= all.len(),
                forall|j: int| 0 <= j < i ==> all[j].global_name != global_name,
            decreases all.len() - i,
        {
            if self.outputs[i].global_name == global_name {
                proof {
                    let c = first_with_global(all, global_name).unwrap();
                    assert(0 <= c < all.len() && all[c].global_name == global_name && forall|
                        j: int,
                    | 0 <= j < c ==> all[j].global_name != global_name);
                    if c < i {
                        assert(all[c].global_name != global_name);
                    } else if c > i {
                        assert(all[i as int].global_name != global_name);
                    }
                }
                let mut outputs: Vec<ListedOutput> = Vec::new();
                std::mem::swap(&mut outputs, &mut self.outputs);
                let mut o = outputs.remove(i);
                match event {
                    ListEvent::Geometry { physical_width, physical_height, make, model } => {
                        o.physical_width = physical_width;
                        o.physical_height = physical_height;
                        o.make = make;
                        o.model = model;
                    },
                    ListEvent::Name { name } => {
                        o.name = Some(name);
                    },
                    ListEvent::Description { description } => {
                        o.description = Some(description);
                    },
                    ListEvent::Mode { current, width, height } => {
                        if current {
                            o.current_width = Some(width);
                            o.current_height = Some(height);
                        }
                    },
                    ListEvent::Other => {},
                }
                outputs.insert(i, o);
                assert(outputs@ =~= all.update(i as int, spec_apply(all[i as int], event)));
                self.outputs = outputs;
                return;
            }
            i = i + 1;
        }
        proof {
            if first_with_global(all, global_name) is Some {
                let k = choose|k: int| 0 <= k < all.len() && all[k].global_name == global_name;
                assert(all[k].global_name != global_name);
            }
        }
    }
}

} // verus!
