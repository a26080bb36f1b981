//! The matrix view: output ports on one side, input ports on the other, each sorted by
//! node name and port name, and which pairs a master link joins.
use vstd::prelude::*;
use crate::ids::PortId;

verus! {

/// A port as the matrix view lists it.
pub struct PortInfo {
    pub pw_id: PortId,
    pub node_name: String,
    pub port_name: String,
}

/// The port ids of a list of ports.
pub open spec fn ids_of(list: Seq<PortInfo>) -> Seq<u32> {
    list.map_values(|p: PortInfo| p.pw_id.0)
}

/// What the matrix view shows.
pub struct MatrixData {
    pub out_ports: Vec<PortInfo>,
    pub in_ports: Vec<PortInfo>,
    pub links: Vec<(PortId, PortId)>,
}

impl MatrixData {
    /// Whether a master link joins the output port `out` to the input port `inp`.
    pub fn is_linked(&self, out: PortId, inp: PortId) -> (r: bool)
        ensures
            r == self.links@.contains((out, inp)),
    {
        let mut i: usize = 0;
        while i < self.links.len()
            invariant
                i <= self.links@.len(),
                forall|j: int| 0 <= j < i ==> self.links@[j] != (out, inp),
            decreases self.links.len() - i,
        {
            if self.links[i].0 == out && self.links[i].1 == inp {
                assert(self.links@[i as int] == (out, inp));
                return true;
            }
            i = i + 1;
        }
        false
    }

    /// The row of the output port `selected`, if it is listed.
    pub fn row_of(&self, selected: Option<PortId>) -> (r: Option<usize>)
        ensures
            selected is None ==> r is None,
            selected matches Some(id) ==> match r {
                Some(i) => i < self.out_ports@.len() && self.out_ports@[i as int].pw_id == id
                    && forall|j: int| 0 <= j < i ==> #[trigger] self.out_ports@[j].pw_id != id,
                None => forall|j: int| 0 <= j < self.out_ports@.len() ==> #[trigger] self.out_ports@[j].pw_id != id,
            },
    {
        if let Some(id) = selected {
            let mut i: usize = 0;
            while i < self.out_ports.len()
                invariant
                    selected == Some(id),
                    i <= self.out_ports@.len(),
                    forall|j: int| 0 <= j < i ==> #[trigger] self.out_ports@[j].pw_id != id,
                decreases self.out_ports.len() - i,
            {
                if self.out_ports[i].pw_id == id {
                    return Some(i);
                }
                i = i + 1;
            }
            None
        } else {
            None
        }
    }

    /// The input rows for the selected output port `out`: each input port with whether
    /// a master link joins `out` to it.
    pub fn in_rows(&self, out: PortId) -> (r: Vec<(PortId, bool)>)
        ensures
            r@.len() == self.in_ports@.len(),
            forall|i: int| 0 <= i < r@.len() ==> #[trigger] r@[i] == (self.in_ports@[i].pw_id,
                self.links@.contains((out, self.in_ports@[i].pw_id))),
    {
        let mut r: Vec<(PortId, bool)> = Vec::new();
        let mut i: usize = 0;
        while i < self.in_ports.len()
            invariant
                i <= self.in_ports@.len(),
                r@.len() == i,
                forall|k: int| 0 <= k < i ==> #[trigger] r@[k] == (self.in_ports@[k].pw_id,
                    self.links@.contains((out, self.in_ports@[k].pw_id))),
            decreases self.in_ports.len() - i,
        {
            let id = self.in_ports[i].pw_id;
            let linked = self.is_linked(out, id);
            r.push((id, linked));
            i = i + 1;
        }
        r
    }
}

} // verus!
