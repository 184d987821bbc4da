//! The marker store: an ordered list of timestamped text markers. Position
//! is 1-based and purely positional — it is recomputed from the order of the
//! list, never stored.

use vstd::prelude::*;
use crate::ClockError;

verus! {

/// One stored marker: a timestamp in whole Unix seconds and a free-text
/// description (which may be empty).
pub struct Marker {
    pub timestamp: u64,
    pub description: String,
}

impl View for Marker {
    type V = (u64, Seq<char>);

    open spec fn view(&self) -> (u64, Seq<char>) {
        (self.timestamp, self.description@)
    }
}

impl Marker {
    /// A marker equal to this one in timestamp and description.
    pub fn duplicate(&self) -> (r: Marker)
        ensures
            r@ == self@,
    {
        Marker { timestamp: self.timestamp, description: self.description.clone() }
    }
}

/// The abstract content of a sequence of markers.
pub open spec fn markers_view(ms: Seq<Marker>) -> Seq<(u64, Seq<char>)> {
    Seq::new(ms.len(), |i: int| ms[i]@)
}

/// The full ordered sequence of markers, as held in memory between a load
/// and a save of the store document.
pub struct MarkerStore {
    pub markers: Vec<Marker>,
}

impl View for MarkerStore {
    type V = Seq<(u64, Seq<char>)>;

    open spec fn view(&self) -> Seq<(u64, Seq<char>)> {
        markers_view(self.markers@)
    }
}

impl MarkerStore {
    /// A store with no markers.
    pub fn new() -> (r: MarkerStore)
        ensures
            r@ == Seq::<(u64, Seq<char>)>::empty(),
    {
        let r = MarkerStore { markers: Vec::new() };
        proof {
            assert(r@ =~= Seq::<(u64, Seq<char>)>::empty());
        }
        r
    }

    /// How many markers are stored.
    pub fn count(&self) -> (r: usize)
        ensures
            r == self@.len(),
    {
        self.markers.len()
    }

    /// Append a marker; every existing marker keeps its position.
    pub fn add(&mut self, timestamp: u64, description: String)
        ensures
            final(self)@ == old(self)@.push((timestamp, description@)),
    {
        let ghost dv = description@;
        self.markers.push(Marker { timestamp, description });
        proof {
            assert(self@ =~= old(self)@.push((timestamp, dv)));
        }
    }

    /// Remove every marker; the store itself remains.
    pub fn clear(&mut self)
        ensures
            final(self)@ == Seq::<(u64, Seq<char>)>::empty(),
    {
        self.markers.clear();
        proof {
            assert(self@ =~= Seq::<(u64, Seq<char>)>::empty());
        }
    }

    /// The marker at a 1-based position. Any position outside `1..=len`
    /// (including 0) is answered with `MarkerNotFound`, never a failure.
    pub fn get(&self, position: u64) -> (r: Result<&Marker, ClockError>)
        ensures
            match r {
                Result::Ok(m) => 1 <= position <= self@.len() && m@ == self@[position - 1],
                Result::Err(e) => !(1 <= position <= self@.len()) && e
                    == ClockError::MarkerNotFound,
            },
    {
        let n: usize = self.markers.len();
        if 1 <= position && position <= n as u64 {
            let idx: usize = (position - 1) as usize;
            Result::Ok(&self.markers[idx])
        } else {
            Result::Err(ClockError::MarkerNotFound)
        }
    }

    /// The document text this store persists as.
    pub fn serialize(&self) -> (r: String)
        ensures
            r@ == crate::storage::spec_ser(self@),
    {
        crate::storage::render_store(&self.markers)
    }

    /// A store read back from a document text. Exactly the texts that the
    /// document grammar admits (the empty text among them) are accepted.
    pub fn load(text: &str) -> (r: Result<MarkerStore, ClockError>)
        ensures
            match r {
                Result::Ok(s) => crate::storage::spec_parse(text@) == Option::Some(s@),
                Result::Err(e) => crate::storage::spec_parse(text@) is None && e
                    == ClockError::StorageParseError,
            },
    {
        match crate::storage::parse_store(text) {
            Result::Ok(ms) => Result::Ok(MarkerStore { markers: ms }),
            Result::Err(e) => Result::Err(e),
        }
    }

    /// Every marker with its 1-based position, in storage order.
    pub fn list(&self) -> (r: Vec<(u64, Marker)>)
        ensures
            r@.len() == self@.len(),
            forall|i: int|
                0 <= i < r@.len() ==> (#[trigger] r@[i]).0 == i + 1 && r@[i].1@ == self@[i],
    {
        let mut out: Vec<(u64, Marker)> = Vec::new();
        let mut i: usize = 0;
        let n: usize = self.markers.len();
        while i < n
            invariant
                n == self@.len(),
                i <= n,
                out@.len() == i,
                forall|j: int|
                    0 <= j < i ==> (#[trigger] out@[j]).0 == j + 1 && out@[j].1@ == self@[j],
            decreases n - i,
        {
            let m = self.markers[i].duplicate();
            out.push((i as u64 + 1, m));
            i = i + 1;
        }
        out
    }
}

} // verus!
