//! Benchmark-result documents and the rescaling of their timing fields.
use vstd::prelude::*;
use crate::decimal::Decimal;

verus! {

/// One raw sample of a benchmark.
#[derive(Debug)]
pub struct Measurement {
    pub iterations: u32,
    pub elapsed: Decimal,
    pub pagefaults: u32,
    pub cpucycles: u32,
    pub contextswitches: u32,
    pub instructions: u32,
    pub branchinstructions: u32,
    pub branchmisses: u32,
}

/// The aggregate result of one benchmark, with its samples in order.
#[derive(Debug)]
pub struct ResultEntry {
    pub title: String,
    pub name: String,
    pub unit: String,
    pub measurements: Vec<Measurement>,
    pub median_elapsed: Decimal,
}

/// A document of benchmark results, in order.
#[derive(Debug)]
pub struct BenchmarkDocument {
    pub results: Vec<ResultEntry>,
}

impl Measurement {
    /// Every field but `elapsed` is the same in `self` and `src`.
    pub open spec fn counters_match(&self, src: Measurement) -> bool {
        &&& self.iterations == src.iterations
        &&& self.pagefaults == src.pagefaults
        &&& self.cpucycles == src.cpucycles
        &&& self.contextswitches == src.contextswitches
        &&& self.instructions == src.instructions
        &&& self.branchinstructions == src.branchinstructions
        &&& self.branchmisses == src.branchmisses
    }

    /// `self` is `src` with its timing rescaled and every other field kept.
    pub open spec fn is_rescaling_of(&self, src: Measurement) -> bool {
        self.counters_match(src) && self.elapsed.is_rescaling_of(src.elapsed)
    }
}

impl ResultEntry {
    pub open spec fn rescalable(&self) -> bool {
        &&& self.median_elapsed.rescalable()
        &&& forall|j: int|
            0 <= j < self.measurements@.len() ==> (#[trigger] self.measurements@[j]).elapsed.rescalable()
    }

    /// `self` is `src` with its median and every sample's timing rescaled,
    /// its strings kept, and its samples in the same order.
    pub open spec fn is_rescaling_of(&self, src: ResultEntry) -> bool {
        &&& self.title@ == src.title@
        &&& self.name@ == src.name@
        &&& self.unit@ == src.unit@
        &&& self.median_elapsed.is_rescaling_of(src.median_elapsed)
        &&& self.measurements@.len() == src.measurements@.len()
        &&& forall|j: int|
            0 <= j < self.measurements@.len() ==> (#[trigger] self.measurements@[j]).is_rescaling_of(
                src.measurements@[j],
            )
    }
}

impl BenchmarkDocument {
    /// Every timing value can be rescaled.
    pub open spec fn rescalable(&self) -> bool {
        forall|i: int| 0 <= i < self.results@.len() ==> (#[trigger] self.results@[i]).rescalable()
    }

    /// `self` is `src` with every timing value rescaled, all else kept, and
    /// every sequence in the same order.
    pub open spec fn is_rescaling_of(&self, src: BenchmarkDocument) -> bool {
        &&& self.results@.len() == src.results@.len()
        &&& forall|i: int|
            0 <= i < self.results@.len() ==> (#[trigger] self.results@[i]).is_rescaling_of(
                src.results@[i],
            )
    }
}

impl ResultEntry {
    /// Tests `rescalable()`.
    pub fn check_rescalable(&self) -> (r: bool)
        ensures
            r == self.rescalable(),
    {
        if !self.median_elapsed.check_rescalable() {
            return false;
        }
        let mut j: usize = 0;
        while j < self.measurements.len()
            invariant
                j <= self.measurements@.len(),
                forall|k: int| 0 <= k < j ==> (#[trigger] self.measurements@[k]).elapsed.rescalable(),
            decreases self.measurements@.len() - j,
        {
            if !self.measurements[j].elapsed.check_rescalable() {
                return false;
            }
            j = j + 1;
        }
        true
    }
}

impl BenchmarkDocument {
    /// Tests `rescalable()`.
    pub fn check_rescalable(&self) -> (r: bool)
        ensures
            r == self.rescalable(),
    {
        let mut i: usize = 0;
        while i < self.results.len()
            invariant
                i <= self.results@.len(),
                forall|k: int| 0 <= k < i ==> (#[trigger] self.results@[k]).rescalable(),
            decreases self.results@.len() - i,
        {
            if !self.results[i].check_rescalable() {
                return false;
            }
            i = i + 1;
        }
        true
    }
}

/// Rescales the timing of one sample.
pub fn rescale_measurement(m: &mut Measurement)
    requires
        old(m).elapsed.rescalable(),
    ensures
        final(m).is_rescaling_of(*old(m)),
{
    m.elapsed = m.elapsed.rescaled();
}

/// Rescales the median and every sample of one result.
pub fn rescale_result(r: &mut ResultEntry)
    requires
        old(r).rescalable(),
    ensures
        final(r).is_rescaling_of(*old(r)),
{
    let ghost src = *r;
    r.median_elapsed = r.median_elapsed.rescaled();
    let n = r.measurements.len();
    let mut j: usize = 0;
    while j < n
        invariant
            j <= n == r.measurements@.len() == src.measurements@.len(),
            r.title@ == src.title@,
            r.name@ == src.name@,
            r.unit@ == src.unit@,
            r.median_elapsed.is_rescaling_of(src.median_elapsed),
            src.rescalable(),
            forall|k: int| 0 <= k < j ==> (#[trigger] r.measurements@[k]).is_rescaling_of(src.measurements@[k]),
            forall|k: int| j <= k < n ==> #[trigger] r.measurements@[k] == src.measurements@[k],
        decreases n - j,
    {
        assert(src.measurements@[j as int].elapsed.rescalable());
        rescale_measurement(&mut r.measurements[j]);
        j = j + 1;
    }
}

/// Rescales every timing value of a document in place: each result's
/// median and each sample's elapsed time become `trunc(x * 10^8 * 10^5) / 10^5`.
pub fn rescale_document(doc: &mut BenchmarkDocument)
    requires
        old(doc).rescalable(),
    ensures
        final(doc).is_rescaling_of(*old(doc)),
{
    let ghost src = *doc;
    let n = doc.results.len();
    let mut i: usize = 0;
    while i < n
        invariant
            i <= n == doc.results@.len() == src.results@.len(),
            src.rescalable(),
            forall|k: int| 0 <= k < i ==> (#[trigger] doc.results@[k]).is_rescaling_of(src.results@[k]),
            forall|k: int| i <= k < n ==> #[trigger] doc.results@[k] == src.results@[k],
        decreases n - i,
    {
        assert(src.results@[i as int].rescalable());
        rescale_result(&mut doc.results[i]);
        i = i + 1;
    }
}

} // verus!
